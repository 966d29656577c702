use multisat::formula::{clause_acceptable, distinct_literals};
use multisat::search::{check_model, grow};
use multisat::text::{is_zero_text, parse_i32};
use multisat::{
    check_clause_watch_invariant, check_result, check_single_unit, literal_from_score_var,
    literal_satisfied, literal_unassigned, non_falsified_lits, solver, unit_prop_sat, Assig, AssigInfo, Clause,
    ClauseUnitProp, CNFStatus, ConflictAnalysisResult, Decision, FormulaPreprocess, FormulaUnitProp,
    Literal, ParsedOut, Phase, ScoreVar, SolverState, VarWatch, VSIDS, WatchList,
};

fn lits(codes: &[i32]) -> Vec<Literal> {
    codes.iter().map(|&c| Literal::from(c)).collect()
}

fn clause(codes: &[i32]) -> Clause {
    Clause::try_from(lits(codes)).unwrap()
}

fn formula(num_variables: usize, clauses: &[&[i32]]) -> ParsedOut {
    ParsedOut {
        num_variables,
        num_clauses: clauses.len(),
        clauses: clauses.iter().map(|c| lits(c)).collect(),
    }
}

fn satisfies(model: &[i32], clauses: &[&[i32]]) -> bool {
    clauses.iter().all(|c| c.iter().any(|l| model.contains(l)))
}

fn solve(num_variables: usize, clauses: &[&[i32]]) -> (SolverState, CNFStatus) {
    let parsed = formula(num_variables, clauses);
    assert!(parsed.is_well_formed());
    let mut s = SolverState::from_parsed_out(parsed);
    match s.preprocess() {
        FormulaPreprocess::TrivialUNSAT => (s, CNFStatus::UNSAT),
        FormulaPreprocess::Ready => loop {
            if let Some(res) = solver(&mut s, 1000) {
                return (s, res);
            }
        },
    }
}

#[test]
fn invert_twice_is_identity() {
    for code in [1, -1, 7, -42, 2147483647, -2147483647] {
        let l = Literal::from(code);
        assert_eq!(l.invert().invert(), l);
        assert_ne!(l.invert(), l);
        assert_eq!(l.invert().var, l.var);
    }
}

#[test]
fn literal_and_negation_disagree() {
    let mut assig = Assig::new(4);
    assig.insert(3, AssigInfo::new(true, 1));
    assig.insert(4, AssigInfo::new(false, 2));
    for code in [3, -3, 4, -4] {
        let l = Literal::from(code);
        assert_ne!(literal_satisfied(&l, &assig), literal_satisfied(&l.invert(), &assig));
        assert_eq!(literal_satisfied(&l, &assig), multisat::literal_falsified(&l.invert(), &assig));
    }
    assert!(literal_unassigned(&Literal::from(1), &assig));
    assert!(!literal_satisfied(&Literal::from(1), &assig));
    assert!(!multisat::literal_falsified(&Literal::from(1), &assig));
}

#[test]
fn literal_from_integer() {
    assert_eq!(Literal::from(5), Literal { var: 5, sign: true });
    assert_eq!(Literal::from(-5), Literal { var: 5, sign: false });
    assert_eq!(Literal::from(0), Literal { var: 0, sign: false });
    assert_eq!(Literal::from(i32::MIN), Literal { var: 2147483648, sign: false });
    assert_eq!(Literal::from(9).dense_code(), 19);
    assert_eq!(Literal::from(-9).dense_code(), 18);
}

#[test]
fn parse_i32_reads_decimal_text() {
    assert_eq!(parse_i32(b"12"), Some(12));
    assert_eq!(parse_i32(b"-15"), Some(-15));
    assert_eq!(parse_i32(b"+7"), Some(7));
    assert_eq!(parse_i32(b"0"), Some(0));
    assert_eq!(parse_i32(b"-0"), Some(0));
    assert_eq!(parse_i32(b"007"), Some(7));
    assert_eq!(parse_i32(b"2147483647"), Some(2147483647));
    assert_eq!(parse_i32(b"-2147483648"), Some(-2147483648));
    assert_eq!(parse_i32(b"2147483648"), None);
    assert_eq!(parse_i32(b"-2147483649"), None);
    assert_eq!(parse_i32(b"99999999999999999999"), None);
    assert_eq!(parse_i32(b""), None);
    assert_eq!(parse_i32(b"-"), None);
    assert_eq!(parse_i32(b"+"), None);
    assert_eq!(parse_i32(b"1a"), None);
    assert_eq!(parse_i32(b" 1"), None);
    assert!(is_zero_text(b"0"));
    assert!(!is_zero_text(b"00"));
    assert!(!is_zero_text(b""));
}

#[test]
fn parse_i32_agrees_with_the_standard_parser() {
    for text in ["1", "-1", "+1", "0010", "-2147483648", "2147483648", "", "-", "1-", "٣"] {
        assert_eq!(parse_i32(text.as_bytes()), text.parse::<i32>().ok(), "{:?}", text);
    }
}

#[test]
fn make_clause_stops_at_zero() {
    let c = Clause::make_clause(vec!["4", "-5", "0", "6"]);
    assert_eq!(c.literals, lits(&[4, -5]));
    let c = Clause::make_clause(vec!["4", "-5"]);
    assert_eq!(c.literals, lits(&[4, -5]));
    assert_eq!((c.w1, c.w2, c.deleted, c.conflict, c.lbd), (0, 1, false, false, 0));
}

#[test]
fn try_from_needs_two_literals() {
    assert!(Clause::try_from(lits(&[])).is_err());
    assert!(Clause::try_from(lits(&[3])).is_err());
    assert_eq!(Clause::try_from(lits(&[3])), Err("Must have at least 2 literals"));
    let c = Clause::try_from(lits(&[3, -4])).unwrap();
    assert_eq!((c.w1, c.w2, c.deleted, c.conflict, c.lbd), (0, 1, false, false, 0));
}

#[test]
fn assig_is_a_map_with_a_count() {
    let mut a = Assig::new(3);
    assert_eq!(a.len(), 0);
    assert_eq!(a.slots(), 4);
    a.insert(2, AssigInfo::new(true, 4));
    a.insert(2, AssigInfo::new(false, 1));
    assert_eq!(a.len(), 1);
    assert_eq!(a.get(&2), Some(&AssigInfo { litsign: false, level: 1 }));
    assert!(a.contains_key(&2));
    assert!(!a.contains_key(&1));
    a.insert(3, AssigInfo::new(true, 0));
    assert_eq!(a.keys(), vec![2, 3]);
    a.remove(&1);
    assert_eq!(a.len(), 2);
    a.remove(&2);
    assert_eq!(a.len(), 1);
    assert_eq!(a.get(&2), None);
    assert_eq!(a.keys(), vec![3]);
}

#[test]
fn reset_watch_moves_to_first_free_literal() {
    let mut c = clause(&[1, 2, 3, 4]);
    let mut a = Assig::new(4);
    a.insert(1, AssigInfo::new(false, 1));
    a.insert(3, AssigInfo::new(false, 1));
    // the watch on 1 is falsified; 2 is the other watch, 3 is falsified: it moves to 4
    assert_eq!(c.reset_watch(&a, 0), Some(3));
    assert_eq!((c.w1, c.w2), (3, 1));
    // a watch that is not falsified stays
    assert_eq!(c.reset_watch(&a, 1), Some(1));
    assert_eq!((c.w1, c.w2), (3, 1));
    a.insert(2, AssigInfo::new(false, 1));
    // nowhere to go
    assert_eq!(c.reset_watch(&a, 1), None);
    assert_eq!((c.w1, c.w2), (3, 1));
}

#[test]
fn set_unassigned_watches_resets_both() {
    let mut c = clause(&[1, 2, 3, 4]);
    let mut a = Assig::new(4);
    a.insert(1, AssigInfo::new(false, 1));
    a.insert(2, AssigInfo::new(false, 1));
    c.set_unassigned_watches(&a);
    assert_eq!((c.w1, c.w2), (2, 3));
    assert!(check_clause_watch_invariant(&c, &a));
    a.insert(3, AssigInfo::new(false, 1));
    assert!(check_single_unit(&c, &a, 3));
    assert!(!check_single_unit(&c, &a, 2));
    assert!(!check_single_unit(&c, &a, 9));
    a.insert(4, AssigInfo::new(false, 1));
    assert!(!check_clause_watch_invariant(&c, &a));
    assert!(multisat::check_all_falsified(&c, &a));
    assert!(!c.clause_satisfied(&a));
    a.insert(4, AssigInfo::new(true, 1));
    assert!(c.clause_satisfied(&a));
    assert!(!multisat::check_all_falsified(&c, &a));
}

#[test]
fn clause_unit_prop_on_second_watch() {
    let mut c = clause(&[1, 2, 3]);
    let mut a = Assig::new(3);
    a.insert(2, AssigInfo::new(false, 1));
    let r = c.unit_prop(&a, &Literal::from(2));
    assert_eq!(
        r,
        ClauseUnitProp::Reassigned { old_watch: Literal::from(2), new_watch: Literal::from(3) }
    );
    assert_eq!((c.w1, c.w2), (0, 2));
}

#[test]
fn watch_list_keeps_lists_per_literal() {
    let mut w = WatchList::new(3);
    assert_eq!(w.watchlist.len(), 4);
    w.add_to_list(&Literal::from(-2), 7);
    w.add_to_list(&Literal::from(-2), 8);
    w.add_to_list(&Literal::from(-2), 9);
    w.add_to_list(&Literal::from(2), 1);
    assert_eq!(w.get_lit(&Literal::from(-2)), &vec![7, 8, 9]);
    assert_eq!(w.get(2).true_watch, vec![1]);
    w.remove_watch(&Literal::from(-2), 0);
    assert_eq!(w.get_lit(&Literal::from(-2)), &vec![9, 8]);
    w.clear();
    assert_eq!(w.watchlist.len(), 4);
    assert!(w.get_lit(&Literal::from(-2)).is_empty());
    assert!(w.get_lit(&Literal::from(2)).is_empty());
    assert!(WatchList::empty().watchlist.is_empty());
    let mut v = VarWatch::new();
    v.add_clause(true, 3);
    v.add_clause(false, 4);
    v.add_clause(true, 5);
    v.remove_idx(true, 0);
    assert_eq!((v.true_watch, v.false_watch), (vec![5], vec![4]));
    assert_eq!(VarWatch::default(), VarWatch::new());
}

#[test]
fn decisions_carry_their_literal() {
    let l = Literal::from(-3);
    assert_eq!(Decision::make_assertunit(l), Decision::AssertUnit { lit: l });
    assert_eq!(Decision::make_choice(l), Decision::Choice { lit: l });
    assert_eq!(Decision::make_unitprop(l, 4), Decision::UnitProp { lit: l, unit_prop_idx: 4 });
    assert_eq!(Decision::make_unitprop(l, 4).get_lit(), l);
    assert_eq!(Decision::make_choice(l).get_lit(), l);
    assert_eq!(Decision::make_assertunit(l).get_lit(), l);
}

#[test]
fn phase_scores() {
    let mut p = Phase::default();
    p.bump(&Literal::from(3), 2);
    p.bump(&Literal::from(-3), 5);
    assert_eq!(p, Phase { true_score: 2, false_score: 5 });
    p.decrement();
    assert_eq!(p, Phase { true_score: 1, false_score: 4 });
    let mut q = Phase { true_score: usize::MAX - 1, false_score: 0 };
    q.bump(&Literal::from(1), 7);
    assert_eq!(q.true_score, usize::MAX);
}

#[test]
fn phase_follows_score_then_memory() {
    let mut v = ScoreVar { phase: Phase { true_score: 3, false_score: 2 }, var: 4, stored_phase: None };
    assert_eq!(literal_from_score_var(&mut v), Literal::from(4));
    assert_eq!(v.stored_phase, Some(true));
    v.phase = Phase { true_score: 0, false_score: 9 };
    assert_eq!(literal_from_score_var(&mut v), Literal::from(4));
    let mut t = ScoreVar { phase: Phase { true_score: 2, false_score: 2 }, var: 5, stored_phase: None };
    assert_eq!(literal_from_score_var(&mut t), Literal::from(-5));
    assert_eq!(t.stored_phase, Some(false));
}

#[test]
fn heuristic_orders_by_score() {
    let mut h = VSIDS::new(3);
    assert_eq!(h.var_order.iter().map(|v| v.var).collect::<Vec<_>>(), vec![3, 2, 1]);
    h.add_clause(&clause(&[1, -2]));
    h.add_clause(&clause(&[1, 3]));
    h.add_clause(&clause(&[-2, -3]));
    assert_eq!(h.variable_scores[&1], Phase { true_score: 2, false_score: 0 });
    assert_eq!(h.variable_scores[&2], Phase { true_score: 0, false_score: 2 });
    assert_eq!(h.variable_scores[&3], Phase { true_score: 1, false_score: 1 });
    assert_eq!(h.nclause_counter, 3);
    h.sort_var_order();
    assert_eq!(h.var_order.iter().map(|v| v.var).collect::<Vec<_>>(), vec![1, 3, 2]);
    assert_eq!(h.var_order[0].phase, Phase { true_score: 2, false_score: 0 });
    let mut a = Assig::new(3);
    assert_eq!(h.pick_var(&a), Literal::from(1));
    a.insert(1, AssigInfo::new(true, 1));
    assert_eq!(h.pick_var(&a), Literal::from(-3));
    a.insert(3, AssigInfo::new(false, 1));
    assert_eq!(h.pick_var(&a), Literal::from(-2));
    h.delete_clause(&clause(&[3, 1]));
    assert_eq!(h.variable_scores[&3], Phase { true_score: 0, false_score: 0 });
}

#[test]
fn heuristic_decays_every_256_clauses() {
    let mut h = VSIDS::new(2);
    let c = clause(&[1, -2]);
    for _ in 0..255 {
        h.add_clause(&c);
    }
    assert_eq!(h.variable_scores[&1], Phase { true_score: 255, false_score: 0 });
    h.add_clause(&c);
    // halved to 127, then credited
    assert_eq!(h.variable_scores[&1], Phase { true_score: 128, false_score: 0 });
    assert_eq!(h.variable_scores[&2], Phase { true_score: 0, false_score: 128 });
    assert_eq!(h.nclause_counter, 0);
    assert_eq!(h.var_order[0].var, 1);
    assert_eq!(h.var_order[0].phase, Phase { true_score: 127, false_score: 0 });
}

#[test]
fn distinct_literals_keeps_first_occurrences() {
    assert_eq!(distinct_literals(&lits(&[3, -1, 3, 2, -1, 3])), lits(&[3, -1, 2]));
    assert_eq!(distinct_literals(&lits(&[])), lits(&[]));
}

#[test]
fn clause_acceptable_rejects_bad_input() {
    assert!(clause_acceptable(&lits(&[1, -2, 1]), 2));
    assert!(!clause_acceptable(&lits(&[]), 2));
    assert!(!clause_acceptable(&lits(&[0, 1]), 2));
    assert!(!clause_acceptable(&lits(&[1, 3]), 2));
    assert!(!clause_acceptable(&lits(&[1, -1]), 2));
    assert!(!formula(2, &[&[1, 2], &[2, -2]]).is_well_formed());
    assert!(formula(2, &[&[1, 2], &[2]]).is_well_formed());
}

#[test]
fn build_deduplicates_and_asserts_units() {
    let s = SolverState::from_parsed_out(formula(4, &[&[1, 2, 1, 2, -3], &[4, 4], &[-1, 4]]));
    assert_eq!(s.num_clauses(), 2);
    assert_eq!(s.clauses[0].literals, lits(&[1, 2, -3]));
    assert_eq!(s.assig.get(&4), Some(&AssigInfo { litsign: true, level: 0 }));
    assert_eq!(s.assigments_len(), 1);
    assert_eq!(s.decision_stack_size(), 0);
    assert!(!s.clauses[0].deleted);
    assert!(s.clauses[1].deleted || s.clauses[1].literals == lits(&[-1, 4]));
    assert!(!s.root_conflict);
    let unique = s.check_clause_lits_unique(&s.clauses[0]);
    assert!(unique);
    let twice = Clause {
        literals: lits(&[1, 2, -1]),
        w1: 0,
        w2: 1,
        deleted: false,
        conflict: false,
        lbd: 0,
    };
    assert!(!s.check_clause_lits_unique(&twice));
}

#[test]
fn asserted_unit_marks_its_clauses() {
    let mut s = SolverState::make_new(3);
    s.add_clause(clause(&[1, 2]));
    s.add_clause(clause(&[-1, 3]));
    s.add_decision(&Decision::make_assertunit(Literal::from(1)));
    assert!(s.clauses[0].deleted);
    assert!(!s.clauses[1].deleted);
    assert_eq!(s.level, 0);
    assert_eq!(s.decision_stack_size(), 0);
}

#[test]
fn propagation_derives_units_in_order() {
    // deciding 3 derives nothing; deciding 1 then forces -2 through the first clause
    let mut s = SolverState::make_new(3);
    s.add_clause(clause(&[1, -2]));
    s.add_clause(clause(&[-1, -3, -2]));
    let d3 = Decision::make_choice(Literal::from(3));
    assert_eq!(s.add_decision_prop(&d3), FormulaUnitProp::NoConflict);
    assert_eq!(s.assigments_len(), 1);
    assert_eq!(s.decision_stack_size(), 1);
    let d1 = Decision::make_choice(Literal::from(1));
    assert_eq!(s.add_decision_prop(&d1), FormulaUnitProp::NoConflict);
    assert_eq!(s.assig.get(&2), Some(&AssigInfo { litsign: false, level: 2 }));
    assert_eq!(s.decision_stack[2], Decision::make_unitprop(Literal::from(-2), 1));
    assert_eq!(s.get_model(), vec![1, -2, 3]);
    assert!(s.check_watch_invariant());
    assert!(satisfies(&s.get_model(), &[&[1, -2], &[-1, -3, -2]]));
}

#[test]
fn propagation_is_idempotent() {
    let mut s = SolverState::make_new(4);
    s.add_clause(clause(&[-1, 2]));
    s.add_clause(clause(&[-2, 3]));
    s.add_clause(clause(&[-3, 4]));
    let d = Decision::make_choice(Literal::from(1));
    assert_eq!(s.add_decision_prop(&d), FormulaUnitProp::NoConflict);
    assert_eq!(s.get_model(), vec![1, 2, 3, 4]);
    let trail = s.decision_stack.clone();
    let clauses = s.clauses.clone();
    assert_eq!(s.unit_prop(&d), FormulaUnitProp::NoConflict);
    assert_eq!(s.decision_stack, trail);
    assert_eq!(s.clauses, clauses);
    assert_eq!(s.get_model(), vec![1, 2, 3, 4]);
    assert!(s.check_watch_invariant());
}

#[test]
fn propagation_reports_the_violated_clause() {
    let mut s = SolverState::make_new(3);
    s.add_clause(clause(&[-1, 2]));
    s.add_clause(clause(&[-1, -2]));
    let d = Decision::make_choice(Literal::from(1));
    let r = s.add_decision_prop(&d);
    match r {
        FormulaUnitProp::Conflict { conflict_cause_idx } => {
            let c = s.clauses[conflict_cause_idx].clone();
            assert!(s.check_conflict_clause(&c));
            assert!(!s.check_watch_invariant());
        }
        FormulaUnitProp::NoConflict => panic!("expected a conflict"),
    }
}

#[test]
fn backtrack_restores_earlier_levels() {
    let mut s = SolverState::make_new(4);
    s.add_clause(clause(&[-1, 2]));
    s.add_clause(clause(&[-3, 4]));
    s.add_decision_prop(&Decision::make_choice(Literal::from(1)));
    s.add_decision_prop(&Decision::make_choice(Literal::from(3)));
    assert_eq!(s.level, 2);
    assert_eq!(s.assigments_len(), 4);
    assert_eq!(s.get_lit_level(&Literal::from(4)), 2);
    assert_eq!(s.get_lit_level(&Literal::from(2)), 1);
    assert_eq!(s.get_backtrack_level(&lits(&[-4, -2])), 1);
    assert_eq!(s.get_backtrack_level(&lits(&[-4, -3])), 0);
    assert_eq!(s.get_backtrack_level(&lits(&[-2])), 0);
    assert_eq!(s.get_backtrack_level(&lits(&[])), 0);
    assert_eq!(s.count_levels(&lits(&[-4, -3, -2])), 2);
    assert!(s.assigned_at_level(&Literal::from(3)));
    assert!(!s.assigned_at_level(&Literal::from(1)));
    s.backtrack_to_level(1);
    assert_eq!(s.level, 1);
    assert_eq!(s.decision_stack_size(), 2);
    assert_eq!(s.assig.keys(), vec![1, 2]);
    s.backtrack_to_level(0);
    assert_eq!(s.level, 0);
    assert_eq!(s.assigments_len(), 0);
}

#[test]
fn analysis_learns_an_asserting_clause() {
    // 1 is guessed at level 1, 2 at level 2; 2 forces 3 and 4, which clash with 1
    let mut s = SolverState::make_new(4);
    s.add_clause(clause(&[-2, 3]));
    s.add_clause(clause(&[-2, 4]));
    s.add_clause(clause(&[-1, -3, -4]));
    assert_eq!(s.add_decision_prop(&Decision::make_choice(Literal::from(1))), FormulaUnitProp::NoConflict);
    let r = s.add_decision_prop(&Decision::make_choice(Literal::from(2)));
    let idx = match r {
        FormulaUnitProp::Conflict { conflict_cause_idx } => conflict_cause_idx,
        FormulaUnitProp::NoConflict => panic!("expected a conflict"),
    };
    assert_eq!(idx, 2);
    match s.analyze_conflict_backtrack(idx) {
        ConflictAnalysisResult::Backtrack { decision } => {
            // the implication point is the guess 2; the clause learned is (-2, -1)
            assert_eq!(decision, Decision::make_unitprop(Literal::from(-2), 3));
            assert_eq!(s.level, 1);
            let learned = &s.clauses[3];
            let mut ls: Vec<i32> = learned
                .literals
                .iter()
                .map(|l| if l.sign { l.var as i32 } else { -(l.var as i32) })
                .collect();
            ls.sort();
            assert_eq!(ls, vec![-2, -1]);
            assert!(learned.conflict);
            assert!(!learned.deleted);
            assert_eq!(learned.lbd, 2);
            assert_eq!(learned.literals[learned.w2], Literal::from(-2));
            assert_eq!(learned.literals[learned.w1], Literal::from(-1));
            assert_eq!(s.assig.get(&2), Some(&AssigInfo { litsign: false, level: 1 }));
            assert_eq!(s.assig.get(&3), None);
            assert_eq!(s.clauses_since_deletion, 1);
            assert!(unit_prop_sat(&mut s, &decision));
            assert!(s.check_watch_invariant());
        }
        ConflictAnalysisResult::UNSAT => panic!("expected a learned clause"),
    }
}

#[test]
fn analysis_at_level_zero_is_unsat() {
    let mut s = SolverState::make_new(2);
    s.add_clause(clause(&[-1, 2]));
    s.add_clause(clause(&[-1, -2]));
    s.add_decision(&Decision::make_assertunit(Literal::from(1)));
    let r = s.unit_prop(&Decision::make_assertunit(Literal::from(1)));
    match r {
        FormulaUnitProp::Conflict { conflict_cause_idx } => {
            assert!(matches!(
                s.analyze_conflict_backtrack(conflict_cause_idx),
                ConflictAnalysisResult::UNSAT
            ));
            assert_eq!(s.level, 0);
        }
        FormulaUnitProp::NoConflict => panic!("expected a conflict"),
    }
}

#[test]
fn learned_unit_becomes_a_fact() {
    // guessing 1 forces 2 and -2: the learned clause is (-1)
    let mut s = SolverState::make_new(2);
    s.add_clause(clause(&[-1, 2]));
    s.add_clause(clause(&[-1, -2]));
    let r = s.add_decision_prop(&Decision::make_choice(Literal::from(1)));
    let idx = match r {
        FormulaUnitProp::Conflict { conflict_cause_idx } => conflict_cause_idx,
        FormulaUnitProp::NoConflict => panic!("expected a conflict"),
    };
    match s.analyze_conflict_backtrack(idx) {
        ConflictAnalysisResult::Backtrack { decision } => {
            assert_eq!(decision, Decision::make_assertunit(Literal::from(-1)));
            assert_eq!(s.level, 0);
            assert_eq!(s.decision_stack_size(), 0);
            assert_eq!(s.assig.get(&1), Some(&AssigInfo { litsign: false, level: 0 }));
            assert!(s.clauses.iter().all(|c| c.deleted));
        }
        ConflictAnalysisResult::UNSAT => panic!("expected a learned unit"),
    }
}

#[test]
fn check_new_clause_wants_one_free_literal() {
    let mut s = SolverState::make_new(3);
    s.add_decision(&Decision::make_choice(Literal::from(1)));
    s.add_decision(&Decision::make_choice(Literal::from(2)));
    let c = s.create_conflict_clause(lits(&[-1, -2, 3]), 2);
    assert_eq!((c.w1, c.w2, c.conflict, c.deleted, c.lbd), (0, 2, true, false, 2));
    assert!(s.check_new_clause(&c));
    assert!(!s.check_new_clause(&s.create_conflict_clause(lits(&[-1, -2]), 2)));
    assert!(!s.check_new_clause(&s.create_conflict_clause(lits(&[-1, 3, 3]), 2)));
    assert!(!s.check_new_clause(&s.create_conflict_clause(lits(&[1, 3]), 2)));
    assert!(!s.check_new_clause(&s.create_conflict_clause(lits(&[-3, 3]), 2)));
}

#[test]
fn contradicting_units_are_trivially_unsat() {
    let mut s = SolverState::from_parsed_out(formula(1, &[&[1], &[-1]]));
    assert!(s.root_conflict);
    assert!(matches!(s.preprocess(), FormulaPreprocess::TrivialUNSAT));
    assert_eq!(s.level, 0);
}

#[test]
fn preprocess_closes_units_before_search() {
    // the units 1 and 2 falsify the last clause only after propagation
    let mut s = SolverState::from_parsed_out(formula(3, &[&[-1, -2, 3], &[1], &[2], &[-3, -1]]));
    assert!(matches!(s.preprocess(), FormulaPreprocess::TrivialUNSAT));
    let mut s = SolverState::from_parsed_out(formula(3, &[&[-1, -2, 3], &[1], &[2]]));
    assert!(matches!(s.preprocess(), FormulaPreprocess::Ready));
    assert_eq!(s.get_model(), vec![1, 2, 3]);
    assert_eq!(s.num_clauses(), 0);
}

#[test]
fn preprocess_eliminates_pure_literals() {
    let mut s = SolverState::from_parsed_out(formula(
        5,
        &[&[1, -2, 3], &[-1, -3], &[-2, 5], &[-3, -5]],
    ));
    assert!(matches!(s.preprocess(), FormulaPreprocess::Ready));
    assert_eq!(s.clauses, vec![clause(&[-1, -3]), clause(&[-3, -5])]);
    assert_eq!(s.assig.keys(), vec![2]);
    assert!(s.check_watch_invariant());
    // the eliminated variable is never branched on
    for _ in 0..4 {
        let l = s.pick_var();
        assert_ne!(l.var, 2);
        s.add_decision_prop(&Decision::make_choice(l));
        if s.assigments_len() == 5 {
            break;
        }
    }
}

#[test]
fn mark_and_remove_satisfied_clauses() {
    let mut s = SolverState::make_new(3);
    s.add_clause(clause(&[1, 2]));
    s.add_clause(clause(&[-1, 3]));
    s.assig.insert(1, AssigInfo::new(true, 0));
    s.mark_satisfied_clauses();
    assert!(s.clauses[0].deleted);
    assert!(!s.clauses[1].deleted);
    s.remove_marked_clauses();
    assert_eq!(s.num_clauses(), 1);
    assert_eq!(s.clauses[0].literals, lits(&[-1, 3]));
    // the watch on -1 is falsified and has nowhere to go
    assert_eq!(s.watchlist.get(1).false_watch, vec![0]);
    assert_eq!(s.watchlist.get(3).true_watch, vec![0]);
    assert_eq!(s.root_closure(), None);
    assert_eq!(s.assig.get(&3), Some(&AssigInfo { litsign: true, level: 0 }));
}

#[test]
fn reduce_keeps_good_learned_clauses() {
    let mut s = SolverState::make_new(4);
    s.add_clause(clause(&[1, 2]));
    let mut learned_low = clause(&[2, 3]);
    learned_low.conflict = true;
    learned_low.lbd = 7;
    let mut learned_high = clause(&[3, 4]);
    learned_high.conflict = true;
    learned_high.lbd = 8;
    let mut marked = clause(&[1, 4]);
    marked.deleted = true;
    s.clauses.push(learned_low.clone());
    s.clauses.push(learned_high);
    s.clauses.push(marked.clone());
    s.reduce_clauses(7, false);
    assert_eq!(s.clauses, vec![clause(&[1, 2]), learned_low.clone(), marked]);
    s.reduce_clauses(7, true);
    assert_eq!(s.clauses, vec![clause(&[1, 2]), learned_low]);
    s.reset_watch_keepcurrentwatch();
    assert_eq!(s.watchlist.get(2).true_watch, vec![0, 1]);
    s.reset_watchlist();
    assert_eq!(s.watchlist.get(2).true_watch, vec![0, 1]);
}

#[test]
fn restart_thresholds_grow() {
    assert_eq!(grow(1024), 1228);
    assert_eq!(grow(16), 19);
    assert_eq!(grow(usize::MAX), usize::MAX);
    let mut s = SolverState::make_new(2);
    s.add_clause(clause(&[1, 2]));
    s.add_decision_prop(&Decision::make_choice(Literal::from(1)));
    s.clauses_since_deletion = 16;
    s.restart_search();
    assert_eq!((s.level, s.clauses_since_deletion, s.cur_num_conflict_restart), (1, 16, 16));
    s.clauses_since_deletion = 17;
    s.restart_search();
    assert_eq!((s.level, s.clauses_since_deletion, s.cur_num_conflict_restart), (0, 0, 32));
    assert_eq!(s.assigments_len(), 0);
    s.cur_num_conflict_restart = 2048;
    s.clauses_since_deletion = 2049;
    s.restart_search();
    assert_eq!(s.clauses_since_deletion, 0);
    assert_eq!(s.max_num_conflict_restart, 1228);
    assert_eq!(s.min_num_conflict_restart, 19);
    assert_eq!(s.cur_num_conflict_restart, 19);
}

#[test]
fn satisfiable_formulas_get_models() {
    let cases: Vec<(usize, Vec<Vec<i32>>)> = vec![
        (3, vec![vec![1, -2], vec![-1, -3, -2]]),
        (3, vec![vec![1, 2, 3], vec![-1, -2], vec![-1, -3], vec![-2, -3]]),
        (4, vec![vec![1, 2], vec![-1, 2], vec![1, -2], vec![3, 4], vec![-3, -4]]),
        (
            6,
            vec![
                vec![1, 2, -3],
                vec![-1, 3, 4],
                vec![-2, -4, 5],
                vec![-5, 6, 1],
                vec![-6, -1, 2],
                vec![3, -4, -6],
                vec![-3, 4, 6],
                vec![2, 5, -6],
            ],
        ),
        (2, vec![]),
    ];
    for (n, cls) in cases {
        let refs: Vec<&[i32]> = cls.iter().map(|c| c.as_slice()).collect();
        let (s, res) = solve(n, &refs);
        match &res {
            CNFStatus::SAT { model } => {
                assert_eq!(model.len(), n);
                for (i, x) in model.iter().enumerate() {
                    assert_eq!(x.unsigned_abs() as usize, i + 1);
                }
                assert!(satisfies(model, &refs), "{:?} does not satisfy {:?}", model, cls);
                assert!(check_result(&s, &res));
                assert!(check_model(&s, model));
                let mut wrong = model.clone();
                wrong[0] = -wrong[0];
                assert!(!check_model(&s, &wrong));
            }
            CNFStatus::UNSAT => panic!("{:?} is satisfiable", cls),
        }
    }
}

fn pigeonhole(pigeons: usize, holes: usize) -> (usize, Vec<Vec<i32>>) {
    let var = |p: usize, h: usize| (p * holes + h + 1) as i32;
    let mut cls = Vec::new();
    for p in 0..pigeons {
        cls.push((0..holes).map(|h| var(p, h)).collect());
    }
    for h in 0..holes {
        for p in 0..pigeons {
            for q in (p + 1)..pigeons {
                cls.push(vec![-var(p, h), -var(q, h)]);
            }
        }
    }
    (pigeons * holes, cls)
}

#[test]
fn pigeonhole_is_unsat_at_level_zero() {
    for holes in 1..5 {
        let (n, cls) = pigeonhole(holes + 1, holes);
        let refs: Vec<&[i32]> = cls.iter().map(|c| c.as_slice()).collect();
        let (s, res) = solve(n, &refs);
        assert_eq!(res, CNFStatus::UNSAT);
        assert_eq!(s.level, 0);
        assert_eq!(s.decision_stack_size(), 0);
        assert!(check_result(&s, &res));
    }
}

#[test]
fn pigeons_that_fit_are_sat() {
    let (n, cls) = pigeonhole(4, 4);
    let refs: Vec<&[i32]> = cls.iter().map(|c| c.as_slice()).collect();
    let (_, res) = solve(n, &refs);
    match res {
        CNFStatus::SAT { model } => assert!(satisfies(&model, &refs)),
        CNFStatus::UNSAT => panic!("four pigeons fit four holes"),
    }
}

#[test]
fn solver_agrees_with_exhaustive_search() {
    // a fixed pseudo-random family of small formulas
    let mut seed: u64 = 0x2545F4914F6CDD1D;
    let mut next = move |m: u64| {
        seed ^= seed << 13;
        seed ^= seed >> 7;
        seed ^= seed << 17;
        seed % m
    };
    for round in 0..300 {
        let n = 3 + (round % 6) as usize;
        let m = 2 + next(5 * n as u64) as usize;
        let mut cls: Vec<Vec<i32>> = Vec::new();
        for _ in 0..m {
            let len = 1 + next(3) as usize;
            let mut c: Vec<i32> = Vec::new();
            while c.len() < len {
                let v = 1 + next(n as u64) as i32;
                if c.iter().all(|x: &i32| x.abs() != v) {
                    c.push(if next(2) == 0 { v } else { -v });
                }
            }
            cls.push(c);
        }
        let refs: Vec<&[i32]> = cls.iter().map(|c| c.as_slice()).collect();
        let mut expected = false;
        for bits in 0..(1u32 << n) {
            let model: Vec<i32> = (0..n)
                .map(|i| if bits >> i & 1 == 1 { (i + 1) as i32 } else { -((i + 1) as i32) })
                .collect();
            if satisfies(&model, &refs) {
                expected = true;
                break;
            }
        }
        let (s, res) = solve(n, &refs);
        match &res {
            CNFStatus::SAT { model } => {
                assert!(expected, "{:?} has no model", cls);
                assert!(satisfies(model, &refs), "{:?} does not satisfy {:?}", model, cls);
                assert!(check_result(&s, &res));
            }
            CNFStatus::UNSAT => {
                assert!(!expected, "{:?} has a model", cls);
                assert_eq!(s.level, 0);
            }
        }
    }
}

#[test]
fn search_gives_up_when_guesses_run_out() {
    let (n, cls) = pigeonhole(4, 4);
    let refs: Vec<&[i32]> = cls.iter().map(|c| c.as_slice()).collect();
    let mut s = SolverState::from_parsed_out(formula(n, &refs));
    assert!(matches!(s.preprocess(), FormulaPreprocess::Ready));
    assert_eq!(solver(&mut s, 0), None);
    assert_eq!(solver(&mut s, 1), None);
    assert!(s.check_watch_invariant());
    assert!(matches!(solver(&mut s, 1000), Some(CNFStatus::SAT { .. })));
}

#[test]
fn undo_restores_the_state_before_the_decision() {
    let mut s = SolverState::make_new(3);
    s.add_clause(clause(&[-1, 2]));
    s.add_decision_prop(&Decision::make_choice(Literal::from(3)));
    let trail = s.decision_stack.clone();
    let keys = s.assig.keys();
    let level = s.level;
    s.add_decision(&Decision::make_choice(Literal::from(-1)));
    assert_eq!(s.level, level + 1);
    assert_eq!(s.pop_decision(), Decision::make_choice(Literal::from(-1)));
    assert_eq!(s.decision_stack, trail);
    assert_eq!(s.assig.keys(), keys);
    assert_eq!(s.level, level);
}

#[test]
fn long_search_restarts_and_reduces() {
    let (n, cls) = pigeonhole(7, 6);
    let refs: Vec<&[i32]> = cls.iter().map(|c| c.as_slice()).collect();
    let (s, res) = solve(n, &refs);
    assert_eq!(res, CNFStatus::UNSAT);
    assert_eq!(s.level, 0);
    // the restart threshold has left its first value
    assert!(s.cur_num_conflict_restart > 16 || s.min_num_conflict_restart > 16);
}

#[test]
fn random_3sat_agrees_with_exhaustive_search() {
    let mut seed: u64 = 0x9E3779B97F4A7C15;
    let mut next = move |m: u64| {
        seed ^= seed << 13;
        seed ^= seed >> 7;
        seed ^= seed << 17;
        seed % m
    };
    let mut sat = 0;
    let mut unsat = 0;
    for round in 0..120 {
        let n = 8 + (round % 5) as usize;
        let m = (43 * n) / 10 + next(4) as usize;
        let mut cls: Vec<Vec<i32>> = Vec::new();
        for _ in 0..m {
            let mut c: Vec<i32> = Vec::new();
            while c.len() < 3 {
                let v = 1 + next(n as u64) as i32;
                if c.iter().all(|x: &i32| x.abs() != v) {
                    c.push(if next(2) == 0 { v } else { -v });
                }
            }
            cls.push(c);
        }
        let refs: Vec<&[i32]> = cls.iter().map(|c| c.as_slice()).collect();
        let mut expected = false;
        for bits in 0..(1u32 << n) {
            let model: Vec<i32> = (0..n)
                .map(|i| if bits >> i & 1 == 1 { (i + 1) as i32 } else { -((i + 1) as i32) })
                .collect();
            if satisfies(&model, &refs) {
                expected = true;
                break;
            }
        }
        let (s, res) = solve(n, &refs);
        match &res {
            CNFStatus::SAT { model } => {
                assert!(expected, "{:?} has no model", cls);
                assert!(satisfies(model, &refs), "{:?} does not satisfy {:?}", model, cls);
                assert!(check_result(&s, &res));
                sat += 1;
            }
            CNFStatus::UNSAT => {
                assert!(!expected, "{:?} has a model", cls);
                assert_eq!(s.level, 0);
                unsat += 1;
            }
        }
    }
    assert!(sat > 0 && unsat > 0);
}

#[test]
fn conflict_under_two_guesses_blames_only_the_second() {
    // 1 is guessed at level 1 and plays no part; 2 at level 2 forces 3 and -3
    let mut s = SolverState::make_new(3);
    s.add_clause(clause(&[-2, 3]));
    s.add_clause(clause(&[-2, -3]));
    assert_eq!(s.add_decision_prop(&Decision::make_choice(Literal::from(1))), FormulaUnitProp::NoConflict);
    let idx = match s.add_decision_prop(&Decision::make_choice(Literal::from(2))) {
        FormulaUnitProp::Conflict { conflict_cause_idx } => conflict_cause_idx,
        FormulaUnitProp::NoConflict => panic!("expected a conflict"),
    };
    match s.analyze_conflict_backtrack(idx) {
        ConflictAnalysisResult::Backtrack { decision } => {
            assert_eq!(decision, Decision::make_assertunit(Literal::from(-2)));
            assert_eq!(s.level, 0);
            assert_eq!(s.assig.get(&1), None);
            assert_eq!(s.assig.get(&2), Some(&AssigInfo { litsign: false, level: 0 }));
            assert_eq!(s.assig.get(&3), None);
        }
        ConflictAnalysisResult::UNSAT => panic!("expected a learned unit"),
    }
}

#[test]
fn facts_of_level_zero_are_not_blamed() {
    // 4 is a fact; 1 is guessed at level 1; 2 at level 2 forces 3 through a
    // clause that also holds -4, and -3 through another that also holds -1
    let mut s = SolverState::make_new(4);
    s.add_clause(clause(&[-4, -2, 3]));
    s.add_clause(clause(&[-1, -2, -3]));
    let fact = Decision::make_assertunit(Literal::from(4));
    s.add_decision(&fact);
    assert_eq!(s.unit_prop(&fact), FormulaUnitProp::NoConflict);
    assert_eq!(s.add_decision_prop(&Decision::make_choice(Literal::from(1))), FormulaUnitProp::NoConflict);
    let idx = match s.add_decision_prop(&Decision::make_choice(Literal::from(2))) {
        FormulaUnitProp::Conflict { conflict_cause_idx } => conflict_cause_idx,
        FormulaUnitProp::NoConflict => panic!("expected a conflict"),
    };
    match s.analyze_conflict_backtrack(idx) {
        ConflictAnalysisResult::Backtrack { decision } => {
            assert_eq!(decision, Decision::make_unitprop(Literal::from(-2), 2));
            assert_eq!(s.level, 1);
            let mut ls: Vec<i32> = s.clauses[2]
                .literals
                .iter()
                .map(|l| if l.sign { l.var as i32 } else { -(l.var as i32) })
                .collect();
            ls.sort();
            assert_eq!(ls, vec![-2, -1]);
            assert_eq!(s.clauses[2].lbd, 2);
        }
        ConflictAnalysisResult::UNSAT => panic!("expected a learned clause"),
    }
}

#[test]
fn non_falsified_literals_keep_their_order() {
    let mut a = Assig::new(4);
    a.insert(1, AssigInfo::new(true, 0));
    a.insert(3, AssigInfo::new(false, 1));
    let c = clause(&[-1, 4, 3, -3, 2, 1]);
    assert_eq!(non_falsified_lits(&c, &a), lits(&[4, -3, 2, 1]));
    let all_false = clause(&[-1, 3]);
    assert_eq!(non_falsified_lits(&all_false, &a), Vec::<Literal>::new());
}

#[test]
fn conflict_under_two_guesses_blames_both() {
    // 1 is guessed at level 1; 2 at level 2 forces 3 and -3, each with the help of 1
    let mut s = SolverState::from_parsed_out(formula(3, &[&[-1, -2, 3], &[-1, -2, -3]]));
    assert_eq!(s.add_decision_prop(&Decision::make_choice(Literal::from(1))), FormulaUnitProp::NoConflict);
    let idx = match s.add_decision_prop(&Decision::make_choice(Literal::from(2))) {
        FormulaUnitProp::Conflict { conflict_cause_idx } => conflict_cause_idx,
        FormulaUnitProp::NoConflict => panic!("expected a conflict"),
    };
    match s.analyze_conflict_backtrack(idx) {
        ConflictAnalysisResult::Backtrack { decision } => {
            assert_eq!(decision, Decision::make_unitprop(Literal::from(-2), 2));
            assert_eq!(s.level, 1);
            assert_eq!(s.clauses.len(), 3);
            let mut ls: Vec<i32> = s.clauses[2]
                .literals
                .iter()
                .map(|l| if l.sign { l.var as i32 } else { -(l.var as i32) })
                .collect();
            ls.sort();
            assert_eq!(ls, vec![-2, -1]);
            assert_eq!(s.assig.get(&1), Some(&AssigInfo { litsign: true, level: 1 }));
            assert_eq!(s.assig.get(&2), Some(&AssigInfo { litsign: false, level: 1 }));
            assert_eq!(s.assig.get(&3), None);
        }
        ConflictAnalysisResult::UNSAT => panic!("expected a learned clause"),
    }
}

use multisat::{
    literal_falsified, Assig, AssigInfo, Clause, ClauseUnitProp, Decision, FormulaUnitProp, Literal,
    SolverState,
};

fn lits(codes: &[i32]) -> Vec<Literal> {
    codes.iter().map(|&c| Literal::from(c)).collect()
}

fn clause(codes: &[i32]) -> Clause {
    Clause::try_from(lits(codes)).unwrap()
}

#[test]
fn literal_struct_tests() {
    let l1 = Literal::make_new("12");
    assert_eq!(l1, Literal { var: 12, sign: true });

    let l2 = Literal::make_new("-15");
    assert_eq!(l2, Literal { var: 15, sign: false });

    assert_eq!(l1.is_negative(), false);
    assert_eq!(l2.is_negative(), true);

    assert_eq!(l1.invert(), Literal { var: 12, sign: false });
    assert_eq!(l2.invert(), Literal { var: 15, sign: true });
}

#[test]
fn literal_falsified_tests() {
    let mut assig = Assig::new(3);
    assig.insert(1, AssigInfo { litsign: true, level: 0 });
    assig.insert(2, AssigInfo { litsign: false, level: 5 });
    assert!(!literal_falsified(&Literal { var: 1, sign: true }, &assig));
    assert!(literal_falsified(&Literal { var: 1, sign: false }, &assig));

    assert!(!literal_falsified(&Literal { var: 2, sign: false }, &assig));
    assert!(literal_falsified(&Literal { var: 2, sign: true }, &assig));

    assert!(!literal_falsified(&Literal { var: 3, sign: false }, &assig));
    assert!(!literal_falsified(&Literal { var: 3, sign: true }, &assig));
}

#[test]
fn make_clause_test() {
    let c_raw1 = vec!["-1", "19", "-8", "0"];
    let c1 = Clause {
        literals: vec![
            Literal { var: 1, sign: false },
            Literal { var: 19, sign: true },
            Literal { var: 8, sign: false },
        ],
        w1: 0,
        w2: 1,
        deleted: false,
        conflict: false,
        lbd: 0,
    };
    assert_eq!(Clause::make_clause(c_raw1), c1);
}

#[test]
fn unit_prop_conflict_test() {
    let mut clause = clause(&[1, -2]);
    let mut assig = Assig::new(2);
    assig.insert(1, AssigInfo { litsign: false, level: 2 });
    assig.insert(2, AssigInfo { litsign: true, level: 1 });

    let result = clause.unit_prop(&assig, &Literal::from(1));
    match result {
        ClauseUnitProp::Conflict => assert!(true),
        _ => assert!(false, "Expected conflict but got {:?}", result),
    }
}

#[test]
fn unit_prop_reassigned_test() {
    let mut clause = clause(&[-1, 3, -19]);
    let mut assig = Assig::new(19);
    assig.insert(1, AssigInfo { litsign: true, level: 2 });

    let result = clause.unit_prop(&assig, &Literal::from(-1));
    match result {
        ClauseUnitProp::Reassigned { old_watch: _, new_watch: _ } => assert!(clause.w1 == 2),
        _ => assert!(false, "Expected reassigned but got {:?}", result),
    }
}

#[test]
fn unit_prop_new_unit_test() {
    let mut clause = clause(&[-11, -22]);
    let mut assig = Assig::new(22);
    assig.insert(22, AssigInfo { litsign: true, level: 2 });

    let result = clause.unit_prop(&assig, &Literal::from(-22));
    match result {
        ClauseUnitProp::Unit { lit } => assert_eq!(lit, Literal::from(-11)),
        _ => assert!(false, "Expected new unit but got {:?}", result),
    }
}

#[test]
fn unit_prop_satisfied_test() {
    let mut clause = clause(&[-11, -22]);
    let mut assig = Assig::new(22);
    assig.insert(22, AssigInfo { litsign: false, level: 2 });
    assig.insert(11, AssigInfo { litsign: true, level: 3 });
    let result = clause.unit_prop(&assig, &Literal::from(-11));
    match result {
        ClauseUnitProp::Satisfied => assert!(true),
        _ => assert!(false, "Expected new unit but got {:?}", result),
    }
}

#[test]
fn solver_state_new() {
    let s = SolverState::make_new(5);
    assert_eq!(s.level, 0);
    assert!(s.decision_stack.is_empty());
    assert!(s.assig.len() == 0);
}

#[test]
fn add_decision_test() {
    let mut s = SolverState::make_new(16);
    let lit = Literal::from(-16);
    let d = Decision::make_choice(lit);
    let expected_assig = AssigInfo { litsign: lit.sign, level: 1 };
    s.add_decision_prop(&d);
    assert_eq!(s.decision_stack[0], d);
    let actual_assig = s.assig.get(&lit.var);
    assert!(actual_assig.map_or(false, |&a| a == expected_assig));
    assert!(s.level == 1);
}

#[test]
fn add_unit_test() {
    let mut s = SolverState::make_new(20);
    s.add_clause(clause(&[20, -1]));
    s.add_decision_prop(&Decision::make_choice(Literal::from(1)));
    assert_eq!(s.level, 1);
    // the guess forced literal 20 through clause 0, at the level in effect
    let lit = Literal::from(20);
    let d = Decision::make_unitprop(lit, 0);
    let expected_assig = AssigInfo { litsign: lit.sign, level: s.level };
    assert_eq!(s.decision_stack[1], d);
    let actual_assig = s.assig.get(&lit.var);
    assert!(actual_assig.map_or(false, |&a| a == expected_assig));
    assert!(s.level == 1);
}

#[test]
fn test_pop_decision() {
    let mut s = SolverState::make_new(20);
    s.add_clause(clause(&[20, 9]));
    let d1 = Decision::make_choice(Literal::from(-9));
    let d2 = Decision::make_unitprop(Literal::from(20), 0);
    s.add_decision_prop(&d1);
    assert_eq!(s.decision_stack_size(), 2);
    assert!(s.level == 1);
    assert_eq!(s.pop_decision(), d2);
    assert!(s.level == 1);
    assert_eq!(s.pop_decision(), d1);
    assert!(s.level == 0);
}

#[test]
fn test_add_raw_clause() {
    let mut s = SolverState::make_new(15);
    let c_raw1 = vec!["-3", "5", "-7", "0"];
    let c1 = clause(&[-3, 5, -7]);
    s.add_raw_clause(Clause::make_clause(c_raw1).literals);
    assert_eq!(s.clauses[0], c1);
    assert_eq!(*s.watchlist.get(3).false_watch.iter().next().unwrap(), 0);
    assert_eq!(*s.watchlist.get(5).true_watch.iter().next().unwrap(), 0);

    let c_raw2 = vec!["-2", "0"];
    s.add_raw_clause(Clause::make_clause(c_raw2).literals);
    assert_eq!(s.clauses.len(), 1); //clause len does not change
    assert_eq!(s.decision_stack.len(), 0); //decision stack does not change
    assert_eq!(*s.assig.get(&2).unwrap(), AssigInfo { litsign: false, level: 0 });
}

#[test]
fn test_pure_literal_elimination() {
    //2 is the only pure literal
    let c1 = clause(&[1, -2, 3]);
    let c2 = clause(&[-1, -3]);
    let c3 = clause(&[-2, 5]);
    let c4 = clause(&[-3, -5]);
    let mut s = SolverState::make_new(5);
    let expected_clauses = vec![c2.clone(), c4.clone()];
    for c in vec![c1, c2, c3, c4] {
        s.add_clause(c);
    }
    s.pure_literal_elimination();
    s.remove_marked_clauses();
    assert_eq!(s.clauses, expected_clauses);
    assert_eq!(*s.assig.get(&2).unwrap(), AssigInfo { litsign: false, level: 0 });
    assert_eq!(s.assig.len(), 1);
}

#[test]
fn test_formula_unit_prop_duplicate_units() {
    let c1 = clause(&[-1, -2]);
    let c2 = clause(&[-1, -3, -2]);

    let mut s = SolverState::make_new(3);
    s.add_clause(c1);
    s.add_clause(c2);
    let d1 = Decision::make_choice(Literal::from(3));
    s.add_decision_prop(&d1);
    assert_eq!(s.unit_prop(&d1), FormulaUnitProp::NoConflict);
    let d2 = Decision::make_choice(Literal::from(1));
    s.add_decision_prop(&d2);
    assert_eq!(s.unit_prop(&d2), FormulaUnitProp::NoConflict);
    // Assignments are now 1,-2,3
    let mut model = s.get_model();
    model.sort();
    assert_eq!(model, vec![-2, 1, 3]);
}

#[test]
fn test_watchlist_reassigned_correctly() {
    let c1 = clause(&[-1, -2]);
    let c2 = clause(&[-1, -3, -2]);

    let mut s = SolverState::make_new(3);
    s.add_clause(c1);
    s.add_clause(c2);
    let d1 = Decision::make_choice(Literal::from(3));
    s.add_decision(&d1);

    assert!(!s.watchlist.get(2).false_watch.contains(&(1)));
    assert!(s.watchlist.get(3).false_watch.contains(&(1)));

    assert_eq!(s.unit_prop(&d1), FormulaUnitProp::NoConflict);

    assert!(s.watchlist.get(2).false_watch.contains(&(1)));
    assert!(!s.watchlist.get(3).false_watch.contains(&(1)));
}

//! The search: guessing, propagating, learning from conflicts, restarting,
//! and reading off the model.

use vstd::prelude::*;
use crate::assig::{
    lemma_count_assigned_all, lemma_count_assigned_full, lit_falsified, lit_level, lit_satisfied,
    lit_unassigned, literal_satisfied, literal_unassigned, AssigModel,
};
use crate::clause::{clause_sat, Clause};
use crate::consistency::{
    clause_watch_ok, clause_watch_sound, covered, entry_ok, formula_sat, root_sat, slot_below,
    stored_for, watch_invariant,
};
use crate::decision::{ConflictAnalysisResult, Decision, FormulaUnitProp};
use crate::heuristic::{first_unassigned, ScoreVar};
use crate::learn::retained;
use crate::semantics::satisfiable;
use crate::literal::{Literal, MAX_VARIABLE};
use crate::solver::{lemma_levels_below, SolverState};
use crate::trail_lemmas::lemma_watch_inv_weaken;

verus! {

/// The outcome of solving a formula.
#[derive(Debug, PartialEq)]
pub enum CNFStatus {
    /// The formula is satisfiable; `model[v - 1]` is `v` if variable `v` is
    /// true and `-v` if it is false.
    SAT { model: Vec<i32> },
    /// The formula is unsatisfiable.
    UNSAT,
}

/// The model that a total assignment denotes.
pub open spec fn model_of(a: AssigModel) -> Seq<i32> {
    Seq::new(
        (a.len() - 1) as nat,
        |i: int|
            if a[i + 1] is Some && a[i + 1]->Some_0.litsign {
                (i + 1) as i32
            } else {
                (-(i + 1)) as i32
            },
    )
}

/// Literal `l` is true in `model`.
pub open spec fn model_true(model: Seq<i32>, l: Literal) -> bool {
    1 <= l.var <= model.len() && model[l.var - 1] == l.to_int()
}

/// Some literal of the clause is true in `model`.
pub open spec fn model_satisfies_clause(model: Seq<i32>, lits: Seq<Literal>) -> bool {
    exists|k: int| 0 <= k < lits.len() && model_true(model, #[trigger] lits[k])
}

/// Every clause of the formula has a literal that is true in `model`.
pub open spec fn model_satisfies(model: Seq<i32>, f: Seq<Seq<Literal>>) -> bool {
    forall|j: int| 0 <= j < f.len() ==> model_satisfies_clause(model, #[trigger] f[j])
}

/// Every variable `1..` has a value.
pub open spec fn total(a: AssigModel) -> bool {
    forall|v: int| 1 <= v < a.len() ==> (#[trigger] a[v]) is Some
}

/// The threshold after a restart below the cap: twice the old one, held
/// at the largest value.
pub open spec fn doubled(x: usize) -> usize {
    if x <= usize::MAX / 2 {
        (2 * x) as usize
    } else {
        usize::MAX
    }
}

/// A bound grown by a fifth, held at the largest value.
pub open spec fn grown(x: usize) -> usize {
    if x + x / 5 <= usize::MAX {
        (x + x / 5) as usize
    } else {
        usize::MAX
    }
}

/// When every variable has a value and propagation is complete, every
/// stored clause and every clause of the formula has a satisfied literal,
/// and the model read off the assignment satisfies the formula.
pub proof fn lemma_total_model(s: SolverState)
    requires
        s.wf(),
        s.propagated(),
        !s.root_conflict,
        total(s.assig@),
    ensures
        forall|i: int| 0 <= i < s.clauses@.len() ==> clause_sat(
            (#[trigger] s.clauses@[i]).literals@,
            s.assig@,
        ),
        formula_sat(s.formula@, s.assig@),
        model_satisfies(model_of(s.assig@), s.formula@),
        forall|i: int| 0 <= i < s.clauses@.len() ==> model_satisfies_clause(
            model_of(s.assig@),
            (#[trigger] s.clauses@[i]).literals@,
        ),
{
    let n = s.num_variables as nat;
    let a = s.assig@;
    let c = s.clauses@;
    let m = model_of(a);
    lemma_levels_below(s.decision_stack@, a, s.level as nat, n);
    assert forall|l: Literal| lit_satisfied(l, a) && 1 <= l.var <= n implies model_true(m, l) by {
        assert(m[l.var - 1] == l.to_int());
    }
    assert forall|i: int| 0 <= i < c.len() implies clause_sat((#[trigger] c[i]).literals@, a)
        && model_satisfies_clause(m, c[i].literals@) by {
        let cl = c[i];
        assert(cl.wf(n));
        assert(clause_watch_ok(cl, a, (s.level + 1) as nat));
        let x = cl.watch1();
        assert(a[x.var as int] is Some);
        assert(slot_below(a[x.var as int], (s.level + 1) as nat));
        if lit_satisfied(x, a) {
            assert(lit_satisfied(cl.literals@[cl.w1 as int], a));
            assert(model_true(m, cl.literals@[cl.w1 as int]));
        } else {
            assert(lit_falsified(x, a));
            assert(lit_satisfied(cl.literals@[cl.w2 as int], a));
            assert(model_true(m, cl.literals@[cl.w2 as int]));
        }
    }
    assert forall|j: int| 0 <= j < s.formula@.len() implies clause_sat(#[trigger] s.formula@[j], a)
        && model_satisfies_clause(m, s.formula@[j]) by {
        let o = s.formula@[j];
        assert(covered(o, c, a));
        if root_sat(o, a) {
            let k = choose|k: int|
                0 <= k < o.len() && lit_satisfied(#[trigger] o[k], a) && lit_level(o[k], a) == 0;
            assert(lit_satisfied(o[k], a));
            assert(a[0] is None);
            assert(model_true(m, o[k]));
        } else {
            let i = choose|i: int| #[trigger] stored_for(c, o, i);
            assert(c[i].wf(n));
            assert(clause_sat(c[i].literals@, a));
            let k = choose|k: int|
                0 <= k < c[i].literals@.len() && lit_satisfied(#[trigger] c[i].literals@[k], a);
            assert(o.contains(c[i].literals@[k]));
            let q = choose|q: int| 0 <= q < o.len() && o[q] == c[i].literals@[k];
            assert(lit_satisfied(o[q], a));
            assert(model_true(m, o[q]));
        }
    }
}

/// A clause falsified by the facts of level 0 refutes the formula: every
/// stored clause and every fact of level 0 follows from the formula (or
/// from a pure literal, which can be assumed without loss), so the
/// formula has no model.
pub proof fn lemma_refuted_at_root(s: SolverState, idx: usize)
    requires
        s.wf(),
        s.level == 0,
        s.conflict_at(idx),
    ensures
        !satisfiable(s.formula@, s.num_variables as nat),
{
    let n = s.num_variables as nat;
    lemma_levels_below(s.decision_stack@, s.assig@, 0, n);
    crate::semantics::lemma_root_conflict(
        s.formula@,
        s.pure_units@,
        n,
        s.clauses@,
        s.assig@,
        idx as int,
    );
}

/// The model read off a total assignment is a valuation under which the
/// formula is true.
pub proof fn lemma_model_is_valuation(a: AssigModel, f: Seq<Seq<Literal>>, n: nat)
    requires
        a.len() == n + 1,
        model_satisfies(model_of(a), f),
    ensures
        satisfiable(f, n),
{
    let m = model_of(a);
    let v = Seq::new(n + 1, |i: int| 1 <= i && m[i - 1] > 0);
    assert forall|j: int| 0 <= j < f.len() implies crate::semantics::val_clause(
        v,
        #[trigger] f[j],
    ) by {
        assert(model_satisfies_clause(m, f[j]));
        let k = choose|k: int| 0 <= k < f[j].len() && model_true(m, #[trigger] f[j][k]);
        assert(crate::semantics::val_true(v, f[j][k]));
    }
    assert(crate::semantics::val_formula(v, f));
}

/// In `states`, each state after the first comes from the one before it by
/// a round of propagation for the decision that goes with it in `decs`, a
/// conflict in that round, and the analysis of the conflict, which gives
/// the next decision.
pub open spec fn learning_chain(states: Seq<SolverState>, decs: Seq<Decision>) -> bool {
    &&& states.len() >= 1
    &&& decs.len() == states.len()
    &&& forall|i: int|
        0 <= i < states.len() - 1 ==> conflict_step(
            #[trigger] states[i + 1],
            decs[i + 1],
            states[i],
            decs[i],
        )
}

/// `s1` with the decision `d1` comes from `s0` by a round of propagation
/// for `d0` that meets a conflict, and the analysis of that conflict.
pub open spec fn conflict_step(s1: SolverState, d1: Decision, s0: SolverState, d0: Decision)
    -> bool {
    exists|mid: SolverState, idx: usize| #[trigger]
        mid.round_of(&s0, d0, FormulaUnitProp::Conflict { conflict_cause_idx: idx })
            && s1.analysed(&mid, idx, d1)
}

/// `s1` comes from `s0` by a round of propagation for `d` that meets a
/// conflict at level 0.
pub open spec fn refuted_round(s1: SolverState, s0: SolverState, d: Decision) -> bool {
    s1.level == 0 && exists|idx: usize| #[trigger]
        s1.round_of(&s0, d, FormulaUnitProp::Conflict { conflict_cause_idx: idx })
}

/// `s1` is what `s0` becomes when the consequences of `d` are drawn with
/// every conflict learned from: a chain of rounds that meet a conflict,
/// each followed by its analysis, and then, if `r`, a round without
/// conflict, and otherwise a round that meets a conflict at level 0.
pub open spec fn settled_from(s1: SolverState, s0: SolverState, d: Decision, r: bool) -> bool {
    exists|states: Seq<SolverState>, decs: Seq<Decision>| #[trigger]
        learning_chain(states, decs) && states[0] == s0 && decs[0] == d && (if r {
            s1.round_of(&states.last(), decs.last(), FormulaUnitProp::NoConflict)
        } else {
            refuted_round(s1, states.last(), decs.last())
        })
}

/// From `s0`, the heuristic picks `lit` (state `sa`), and `lit` is recorded
/// as a guess (state `sb`).
pub open spec fn guess_made(s0: SolverState, sa: SolverState, sb: SolverState, lit: Literal)
    -> bool {
    sa.picked_from(&s0, lit) && sb.recorded_from(&sa, Decision::Choice { lit })
}

/// `s1` comes from `s0` by one guess: the literal that the heuristic picks
/// is recorded as a guess, its consequences are drawn with every conflict
/// learned from, ending without conflict, and the restart policy is
/// applied.
pub open spec fn guessed_from(s1: SolverState, s0: SolverState) -> bool {
    exists|sa: SolverState, sb: SolverState, sc: SolverState, lit: Literal|
        #![trigger guess_made(s0, sa, sb, lit), s1.restarted_from(&sc)]
        guess_made(s0, sa, sb, lit) && settled_from(sc, sb, Decision::Choice { lit }, true)
            && s1.restarted_from(&sc)
}

/// `s1` comes from `s0` by one guess whose consequences end in a conflict
/// at level 0.
pub open spec fn refuted_from(s1: SolverState, s0: SolverState) -> bool {
    exists|sa: SolverState, sb: SolverState, lit: Literal| #[trigger]
        guess_made(s0, sa, sb, lit) && settled_from(s1, sb, Decision::Choice { lit }, false)
}

/// Each state of `states` after the first comes from the one before it by
/// one guess.
pub open spec fn search_trace(states: Seq<SolverState>) -> bool {
    &&& states.len() >= 1
    &&& forall|i: int|
        0 <= i < states.len() - 1 ==> guessed_from(#[trigger] states[i + 1], states[i])
}

impl SolverState {
    /// `self` is what `o` becomes when the heuristic picks `r`: the first
    /// variable of the selection order that is unassigned, with its saved
    /// polarity if it has one and the polarity of its higher cached score
    /// otherwise; that polarity is saved, and nothing else changes.
    pub open spec fn picked_from(&self, o: &SolverState, r: Literal) -> bool {
        &&& o.wf()
        &&& self.wf()
        &&& 1 <= r.var <= self.num_variables
        &&& lit_unassigned(r, self.assig@)
        &&& self.num_variables == o.num_variables
        &&& self.formula@ == o.formula@
        &&& self.pure_units@ == o.pure_units@
        &&& self.root_conflict == o.root_conflict
        &&& self.assig == o.assig
        &&& self.level == o.level
        &&& self.decision_stack == o.decision_stack
        &&& self.clauses == o.clauses
        &&& self.watchlist == o.watchlist
        &&& self.unit_prop_ds == o.unit_prop_ds
        &&& self.clauses_since_deletion == o.clauses_since_deletion
        &&& self.min_num_conflict_restart == o.min_num_conflict_restart
        &&& self.max_num_conflict_restart == o.max_num_conflict_restart
        &&& self.cur_num_conflict_restart == o.cur_num_conflict_restart
        &&& self.decision_heuristic.variable_scores@ == o.decision_heuristic.variable_scores@
        &&& self.decision_heuristic.nclause_counter == o.decision_heuristic.nclause_counter
        &&& self.decision_heuristic.decay_rate == o.decision_heuristic.decay_rate
        &&& self.decision_heuristic.add_bump == o.decision_heuristic.add_bump
        &&& exists|i: int|
            {
                &&& first_unassigned(o.decision_heuristic.var_order@, o.assig@, i)
                &&& r == (#[trigger] o.decision_heuristic.var_order@[i]).chosen()
                &&& self.decision_heuristic.var_order@ == o.decision_heuristic.var_order@.update(
                    i,
                    ScoreVar { stored_phase: Some(r.sign), ..o.decision_heuristic.var_order@[i] },
                )
            }
    }

    /// `self` is what `o` becomes when `d` is recorded and its consequences
    /// are drawn in a round of propagation that answers `r`.
    pub open spec fn propagated_from(&self, o: &SolverState, d: Decision, r: FormulaUnitProp)
        -> bool {
        exists|mid: SolverState| #[trigger] mid.recorded_from(o, d) && self.round_of(&mid, d, r)
    }

    /// `self` is what `o` becomes when the restart policy is applied.
    ///
    /// Nothing changes unless more clauses have been learned since the last
    /// restart than the threshold allows. Then the search is back at level
    /// 0 with only the facts of level 0, and the count of learned clauses
    /// is 0. While the threshold is within the cap it is doubled; once it
    /// is above the cap, the cap and the floor grow by a fifth, the
    /// threshold falls back to the floor, learned clauses with an LBD above
    /// 7 are discarded, and the watch index lists the clauses in their
    /// order.
    pub open spec fn restarted_from(&self, o: &SolverState) -> bool {
        &&& o.wf()
        &&& o.propagated()
        &&& self.wf()
        &&& self.propagated()
        &&& self.num_variables == o.num_variables
        &&& self.formula@ == o.formula@
        &&& self.pure_units@ == o.pure_units@
        &&& self.root_conflict == o.root_conflict
        &&& self.decision_heuristic == o.decision_heuristic
        &&& o.clauses_since_deletion <= o.cur_num_conflict_restart ==> {
            &&& self.assig == o.assig
            &&& self.level == o.level
            &&& self.decision_stack == o.decision_stack
            &&& self.clauses == o.clauses
            &&& self.watchlist == o.watchlist
            &&& self.clauses_since_deletion == o.clauses_since_deletion
            &&& self.cur_num_conflict_restart == o.cur_num_conflict_restart
            &&& self.max_num_conflict_restart == o.max_num_conflict_restart
            &&& self.min_num_conflict_restart == o.min_num_conflict_restart
        }
        &&& o.clauses_since_deletion > o.cur_num_conflict_restart ==> {
            &&& self.level == 0
            &&& self.decision_stack@.len() == 0
            &&& self.clauses_since_deletion == 0
            &&& forall|v: int|
                0 <= v < o.assig@.len() ==> #[trigger] self.assig@[v] == (
                if crate::consistency::is_root_fact(o.assig@[v]) {
                    o.assig@[v]
                } else {
                    None
                })
            &&& if o.cur_num_conflict_restart <= o.max_num_conflict_restart {
                &&& self.cur_num_conflict_restart == doubled(o.cur_num_conflict_restart)
                &&& self.max_num_conflict_restart == o.max_num_conflict_restart
                &&& self.min_num_conflict_restart == o.min_num_conflict_restart
                &&& self.clauses == o.clauses
                &&& self.watchlist == o.watchlist
            } else {
                &&& self.max_num_conflict_restart == grown(o.max_num_conflict_restart)
                &&& self.min_num_conflict_restart == grown(o.min_num_conflict_restart)
                &&& self.cur_num_conflict_restart == self.min_num_conflict_restart
                &&& self.clauses@ == retained(o.clauses@, 7, false)
                &&& crate::consistency::watched_in_order(
                    self.watchlist,
                    self.clauses@,
                    self.num_variables as nat,
                )
            }
        }
    }

    /// The literal to branch on next; see `VSIDS::pick_var`.
    pub fn pick_var(&mut self) -> (r: Literal)
        requires
            old(self).wf(),
            exists|v: int| 1 <= v <= old(self).num_variables && old(self).assig@[v] is None,
        ensures
            final(self).picked_from(old(self), r),
            final(self).wf(),
            1 <= r.var <= final(self).num_variables,
            lit_unassigned(r, final(self).assig@),
            final(self).num_variables == old(self).num_variables,
            final(self).formula@ == old(self).formula@,
            final(self).root_conflict == old(self).root_conflict,
            final(self).assig == old(self).assig,
            final(self).level == old(self).level,
            final(self).decision_stack == old(self).decision_stack,
            final(self).clauses == old(self).clauses,
            final(self).watchlist == old(self).watchlist,
            final(self).clauses_since_deletion == old(self).clauses_since_deletion,
            final(self).min_num_conflict_restart == old(self).min_num_conflict_restart,
            final(self).max_num_conflict_restart == old(self).max_num_conflict_restart,
            final(self).cur_num_conflict_restart == old(self).cur_num_conflict_restart,
            exists|i: int|
                {
                    &&& first_unassigned(old(self).decision_heuristic.var_order@, old(self).assig@, i)
                    &&& r == (#[trigger] old(self).decision_heuristic.var_order@[i]).chosen()
                    &&& final(self).decision_heuristic.var_order@ == old(
                        self,
                    ).decision_heuristic.var_order@.update(
                        i,
                        ScoreVar {
                            stored_phase: Some(r.sign),
                            ..old(self).decision_heuristic.var_order@[i]
                        },
                    )
                },
    {
        self.decision_heuristic.pick_var(&self.assig)
    }

    /// Records `d` and draws its consequences.
    pub fn add_decision_prop(&mut self, d: &Decision) -> (r: FormulaUnitProp)
        requires
            old(self).wf(),
            old(self).propagated(),
            old(self).can_record(*d),
        ensures
            final(self).propagated_from(old(self), *d, r),
            final(self).wf(),
            final(self).num_variables == old(self).num_variables,
            final(self).formula@ == old(self).formula@,
            final(self).root_conflict == old(self).root_conflict,
            final(self).level == (if *d is Choice {
                old(self).level + 1
            } else {
                old(self).level as int
            }),
            lit_satisfied(d.lit(), final(self).assig@),
            crate::consistency::extends(final(self).assig@, old(self).assig@),
            match r {
                FormulaUnitProp::NoConflict => final(self).propagated() && watch_invariant(
                    final(self).clauses@,
                    final(self).assig@,
                ),
                FormulaUnitProp::Conflict { conflict_cause_idx } => final(self).conflict_at(
                    conflict_cause_idx,
                ),
            },
    {
        proof {
            lemma_levels_below(
                self.decision_stack@,
                self.assig@,
                self.level as nat,
                self.num_variables as nat,
            );
            assert(slot_below(self.assig@[d.lit().var as int], (self.level + 1) as nat));
        }
        self.add_decision(d);
        let ghost mid = *self;
        let r = self.unit_prop(d);
        proof {
            assert(mid.recorded_from(old(self), *d) && self.round_of(&mid, *d, r));
        }
        r
    }

    /// The model: for each variable `v`, `v` if it is true and `-v` if it
    /// is false.
    pub fn get_model(&self) -> (v: Vec<i32>)
        requires
            self.wf(),
            total(self.assig@),
        ensures
            v@ == model_of(self.assig@),
            v@.len() == self.num_variables,
    {
        let mut v: Vec<i32> = Vec::new();
        let mut var: usize = 1;
        while var <= self.num_variables
            invariant
                1 <= var <= self.num_variables + 1,
                self.num_variables <= MAX_VARIABLE,
                self.assig@.len() == self.num_variables + 1,
                total(self.assig@),
                v@.len() == var - 1,
                forall|i: int| 0 <= i < v@.len() ==> v@[i] == model_of(self.assig@)[i],
            decreases self.num_variables + 1 - var,
        {
            let positive = match self.assig.get(&var) {
                Some(info) => info.litsign,
                None => false,
            };
            let x: i32 = var as i32;
            v.push(if positive { x } else { -x });
            var = var + 1;
        }
        proof {
            assert(v@ =~= model_of(self.assig@));
        }
        v
    }

    /// Whether no clause has a falsified watch beside a watch that is not
    /// satisfied. The check only answers: a caller for which a failed check
    /// is fatal halts on `false` itself.
    pub fn check_watch_invariant(&self) -> (r: bool)
        requires
            self.wf(),
        ensures
            r == watch_invariant(self.clauses@, self.assig@),
    {
        let ghost n = self.num_variables as nat;
        let mut idx: usize = 0;
        while idx < self.clauses.len()
            invariant
                idx <= self.clauses@.len(),
                n == self.num_variables,
                self.wf(),
                forall|i: int|
                    0 <= i < idx ==> clause_watch_sound(#[trigger] self.clauses@[i], self.assig@),
            decreases self.clauses@.len() - idx,
        {
            proof {
                assert(self.clauses@[idx as int].wf(n));
            }
            let clause = &self.clauses[idx];
            let l1 = clause.literals[clause.w1];
            let l2 = clause.literals[clause.w2];
            let invariant_holds = (literal_unassigned(&l1, &self.assig) && literal_unassigned(
                &l2,
                &self.assig,
            )) || literal_satisfied(&l1, &self.assig) || literal_satisfied(&l2, &self.assig);
            if !invariant_holds {
                return false;
            }
            idx = idx + 1;
        }
        true
    }

    /// Restarts the search when more clauses have been learned since the
    /// last restart than the current threshold allows.
    ///
    /// A restart goes back to level 0 and sets the count of learned clauses
    /// to 0. While the threshold is within the cap it is doubled; once it is
    /// above the cap, the cap and the floor grow by a fifth, the threshold
    /// falls back to the floor, and learned clauses with an LBD above 7 are
    /// discarded.
    pub fn restart_search(&mut self)
        requires
            old(self).wf(),
            old(self).propagated(),
        ensures
            final(self).restarted_from(old(self)),
            final(self).wf(),
            final(self).propagated(),
            final(self).num_variables == old(self).num_variables,
            final(self).formula@ == old(self).formula@,
            final(self).root_conflict == old(self).root_conflict,
            final(self).decision_heuristic == old(self).decision_heuristic,
            old(self).clauses_since_deletion <= old(self).cur_num_conflict_restart ==> {
                &&& final(self).assig == old(self).assig
                &&& final(self).level == old(self).level
                &&& final(self).decision_stack == old(self).decision_stack
                &&& final(self).clauses == old(self).clauses
                &&& final(self).watchlist == old(self).watchlist
                &&& final(self).clauses_since_deletion == old(self).clauses_since_deletion
                &&& final(self).cur_num_conflict_restart == old(self).cur_num_conflict_restart
                &&& final(self).max_num_conflict_restart == old(self).max_num_conflict_restart
                &&& final(self).min_num_conflict_restart == old(self).min_num_conflict_restart
            },
            old(self).clauses_since_deletion > old(self).cur_num_conflict_restart ==> {
                &&& final(self).level == 0
                &&& final(self).decision_stack@.len() == 0
                &&& final(self).clauses_since_deletion == 0
                &&& forall|v: int|
                    0 <= v < old(self).assig@.len() ==> #[trigger] final(self).assig@[v] == (
                    if crate::consistency::is_root_fact(old(self).assig@[v]) {
                        old(self).assig@[v]
                    } else {
                        None
                    })
                &&& if old(self).cur_num_conflict_restart <= old(self).max_num_conflict_restart {
                    &&& final(self).cur_num_conflict_restart == doubled(
                        old(self).cur_num_conflict_restart,
                    )
                    &&& final(self).max_num_conflict_restart == old(self).max_num_conflict_restart
                    &&& final(self).min_num_conflict_restart == old(self).min_num_conflict_restart
                    &&& final(self).clauses == old(self).clauses
                    &&& final(self).watchlist == old(self).watchlist
                } else {
                    &&& final(self).max_num_conflict_restart == grown(
                        old(self).max_num_conflict_restart,
                    )
                    &&& final(self).min_num_conflict_restart == grown(
                        old(self).min_num_conflict_restart,
                    )
                    &&& final(self).cur_num_conflict_restart == final(self).min_num_conflict_restart
                    &&& final(self).clauses@ == retained(old(self).clauses@, 7, false)
                    &&& crate::consistency::watched_in_order(
                        final(self).watchlist,
                        final(self).clauses@,
                        final(self).num_variables as nat,
                    )
                }
            },
    {
        let ghost n = self.num_variables as nat;
        if self.clauses_since_deletion > self.cur_num_conflict_restart {
            proof {
                lemma_watch_inv_weaken(self.clauses@, self.assig@, (self.level + 1) as nat, 1);
            }
            if self.level > 0 {
                self.backtrack_to_level(0);
            } else {
                proof {
                    if self.decision_stack@.len() > 0 {
                        assert(entry_ok(
                            self.decision_stack@,
                            self.assig@,
                            n,
                            self.decision_stack@.len() - 1,
                        ));
                    }
                    lemma_levels_below(self.decision_stack@, self.assig@, 0, n);
                    assert forall|v: int| 0 <= v < self.assig@.len() implies #[trigger] self.assig@[v]
                        == (if crate::consistency::is_root_fact(self.assig@[v]) {
                        self.assig@[v]
                    } else {
                        None
                    }) by {
                        assert(slot_below(self.assig@[v], 1));
                    }
                }
            }
            proof {
                if self.decision_stack@.len() > 0 {
                    assert(entry_ok(
                        self.decision_stack@,
                        self.assig@,
                        n,
                        self.decision_stack@.len() - 1,
                    ));
                }
            }
            self.clauses_since_deletion = 0;
            if self.cur_num_conflict_restart <= self.max_num_conflict_restart {
                self.cur_num_conflict_restart = if self.cur_num_conflict_restart <= usize::MAX / 2 {
                    2 * self.cur_num_conflict_restart
                } else {
                    usize::MAX
                };
            } else {
                self.max_num_conflict_restart = grow(self.max_num_conflict_restart);
                self.min_num_conflict_restart = grow(self.min_num_conflict_restart);
                self.cur_num_conflict_restart = self.min_num_conflict_restart;
                self.reduce_clauses(7, false);
                self.reset_watch_keepcurrentwatch();
            }
        }
    }
}

/// `x` grown by a fifth, held at the largest value.
pub fn grow(x: usize) -> (r: usize)
    ensures
        r == grown(x),
{
    let fifth = x / 5;
    if x <= usize::MAX - fifth {
        x + fifth
    } else {
        usize::MAX
    }
}

/// Draws the consequences of `recent_dec`, learning from each conflict and
/// going back, until propagation is complete or a conflict is met at level
/// 0. Returns whether propagation completed.
pub fn unit_prop_sat(solver_state: &mut SolverState, recent_dec: &Decision) -> (r: bool)
    requires
        old(solver_state).wf(),
        old(solver_state).can_propagate(*recent_dec),
    ensures
        settled_from(*final(solver_state), *old(solver_state), *recent_dec, r),
        final(solver_state).wf(),
        final(solver_state).num_variables == old(solver_state).num_variables,
        final(solver_state).formula@ == old(solver_state).formula@,
        final(solver_state).root_conflict == old(solver_state).root_conflict,
        final(solver_state).level <= old(solver_state).level,
        r ==> final(solver_state).propagated(),
        !r ==> final(solver_state).level == 0 && !satisfiable(
            final(solver_state).formula@,
            final(solver_state).num_variables as nat,
        ),
{
    let mut cur_dec = *recent_dec;
    let ghost mut states: Seq<SolverState> = Seq::empty().push(*solver_state);
    let ghost mut decs: Seq<Decision> = Seq::empty().push(cur_dec);
    loop
        invariant
            learning_chain(states, decs),
            states[0] == *old(solver_state),
            decs[0] == *recent_dec,
            states.last() == *solver_state,
            decs.last() == cur_dec,
            solver_state.wf(),
            solver_state.can_propagate(cur_dec),
            solver_state.num_variables == old(solver_state).num_variables,
            solver_state.formula@ == old(solver_state).formula@,
            solver_state.root_conflict == old(solver_state).root_conflict,
            solver_state.level <= old(solver_state).level,
        decreases solver_state.level,
    {
        let ghost before = *solver_state;
        let ghost blame = cur_dec;
        match solver_state.unit_prop(&cur_dec) {
            FormulaUnitProp::NoConflict => {
                proof {
                    assert(solver_state.round_of(&before, blame, FormulaUnitProp::NoConflict));
                }
                return true;
            },
            FormulaUnitProp::Conflict { conflict_cause_idx } => {
                let ghost mid = *solver_state;
                proof {
                    assert(mid.round_of(
                        &before,
                        blame,
                        FormulaUnitProp::Conflict { conflict_cause_idx },
                    ));
                }
                let conflict_res = solver_state.analyze_conflict_backtrack(conflict_cause_idx);
                match conflict_res {
                    ConflictAnalysisResult::UNSAT => {
                        proof {
                            lemma_refuted_at_root(*solver_state, conflict_cause_idx);
                            assert(*solver_state == mid);
                            assert(refuted_round(*solver_state, before, blame));
                        }
                        return false;
                    },
                    ConflictAnalysisResult::Backtrack { decision } => {
                        cur_dec = decision;
                        proof {
                            let prev_states = states;
                            let prev_decs = decs;
                            assert(conflict_step(*solver_state, decision, before, blame));
                            states = states.push(*solver_state);
                            decs = decs.push(decision);
                            assert forall|i: int| 0 <= i < states.len() - 1 implies conflict_step(
                                #[trigger] states[i + 1],
                                decs[i + 1],
                                states[i],
                                decs[i],
                            ) by {
                                if i < prev_states.len() - 1 {
                                    assert(states[i + 1] == prev_states[i + 1]);
                                    assert(states[i] == prev_states[i]);
                                    assert(decs[i + 1] == prev_decs[i + 1]);
                                    assert(decs[i] == prev_decs[i]);
                                } else {
                                    assert(states[i] == before);
                                    assert(decs[i] == blame);
                                }
                            }
                        }
                    },
                }
            },
        }
    }
}

/// Searches for a model, making at most `max_decisions` guesses.
///
/// While a variable is unassigned, the heuristic picks a literal, which is
/// recorded as a guess and whose consequences are drawn; conflicts are
/// learned from, and the search restarts as the restart policy asks. The
/// answer is `SAT` with the model once every variable is assigned, `UNSAT`
/// once a conflict is met at level 0, and `None` if the guesses run out
/// first; the search can then be resumed.
///
/// The answer comes after a trace of guesses from the state at the call:
/// `None` only after `max_decisions` of them, with a variable still
/// unassigned; `SAT` at the end of the trace, with every variable
/// assigned; `UNSAT` after one more guess, whose consequences end in a
/// conflict at level 0.
pub fn solver(solver_state: &mut SolverState, max_decisions: usize) -> (r: Option<CNFStatus>)
    requires
        old(solver_state).wf(),
        old(solver_state).propagated(),
        !old(solver_state).root_conflict,
    ensures
        exists|states: Seq<SolverState>| #[trigger]
            search_trace(states) && states[0] == *old(solver_state) && states.len()
                <= max_decisions + 1 && match r {
                None => states.len() == max_decisions + 1 && states.last() == *final(solver_state),
                Some(CNFStatus::SAT { .. }) => states.last() == *final(solver_state),
                Some(CNFStatus::UNSAT) => states.len() <= max_decisions && refuted_from(
                    *final(solver_state),
                    states.last(),
                ),
            },
        final(solver_state).wf(),
        final(solver_state).num_variables == old(solver_state).num_variables,
        final(solver_state).formula@ == old(solver_state).formula@,
        match r {
            Some(CNFStatus::SAT { model }) => {
                &&& total(final(solver_state).assig@)
                &&& model@ == model_of(final(solver_state).assig@)
                &&& model_satisfies(model@, final(solver_state).formula@)
                &&& satisfiable(final(solver_state).formula@, final(solver_state).num_variables as nat)
                &&& forall|i: int|
                    0 <= i < final(solver_state).clauses@.len() ==> model_satisfies_clause(
                        model@,
                        (#[trigger] final(solver_state).clauses@[i]).literals@,
                    )
            },
            Some(CNFStatus::UNSAT) => final(solver_state).level == 0 && !satisfiable(
                final(solver_state).formula@,
                final(solver_state).num_variables as nat,
            ),
            None => final(solver_state).propagated() && !final(solver_state).root_conflict
                && !total(final(solver_state).assig@),
        },
{
    let mut guesses: usize = 0;
    let ghost mut states: Seq<SolverState> = Seq::empty().push(*solver_state);
    while solver_state.assigments_len() < solver_state.num_variables
        invariant
            search_trace(states),
            states[0] == *old(solver_state),
            states.len() == guesses + 1,
            states.last() == *solver_state,
            solver_state.wf(),
            solver_state.propagated(),
            !solver_state.root_conflict,
            solver_state.num_variables == old(solver_state).num_variables,
            solver_state.formula@ == old(solver_state).formula@,
            guesses <= max_decisions,
        decreases max_decisions - guesses,
    {
        if guesses == max_decisions {
            proof {
                if total(solver_state.assig@) {
                    lemma_count_assigned_all(solver_state.assig@);
                }
            }
            return None;
        }
        guesses = guesses + 1;
        proof {
            if total(solver_state.assig@) {
                lemma_count_assigned_all(solver_state.assig@);
            }
            let v = choose|v: int|
                1 <= v < solver_state.assig@.len() && !((#[trigger] solver_state.assig@[v]) is Some);
            assert(solver_state.assig@[v] is None);
        }
        let ghost s0 = *solver_state;
        let lit = solver_state.pick_var();
        let ghost sa = *solver_state;
        let recent_dec: Decision = Decision::make_choice(lit);
        solver_state.add_decision(&recent_dec);
        let ghost sb = *solver_state;
        proof {
            assert(guess_made(s0, sa, sb, lit));
        }
        if !unit_prop_sat(solver_state, &recent_dec) {
            proof {
                assert(refuted_from(*solver_state, s0));
            }
            return Some(CNFStatus::UNSAT);
        }
        let ghost sc = *solver_state;
        solver_state.restart_search();
        proof {
            let prev = states;
            assert(solver_state.restarted_from(&sc));
            assert(guessed_from(*solver_state, s0));
            states = states.push(*solver_state);
            assert forall|i: int| 0 <= i < states.len() - 1 implies guessed_from(
                #[trigger] states[i + 1],
                states[i],
            ) by {
                if i < prev.len() - 1 {
                    assert(states[i + 1] == prev[i + 1]);
                    assert(states[i] == prev[i]);
                } else {
                    assert(states[i] == s0);
                }
            }
        }
    }
    proof {
        lemma_count_assigned_full(solver_state.assig@);
        lemma_total_model(*solver_state);
        lemma_model_is_valuation(
            solver_state.assig@,
            solver_state.formula@,
            solver_state.num_variables as nat,
        );
    }
    Some(CNFStatus::SAT { model: solver_state.get_model() })
}

/// The model entry `x` agrees with the assignment: the variable `|x|` is
/// assigned, true exactly if `x` is positive.
pub open spec fn entry_agrees(x: i32, a: AssigModel) -> bool {
    let l = Literal::of_int(x as int);
    &&& l.var < a.len()
    &&& a[l.var as int] matches Some(info) && info.litsign == (x > 0)
}

/// Every entry of the model agrees with the assignment.
pub open spec fn model_agrees(model: Seq<i32>, a: AssigModel) -> bool {
    forall|i: int| 0 <= i < model.len() ==> entry_agrees(#[trigger] model[i], a)
}

/// The entry of the model at the variable of `l` has the sign of `l`.
pub open spec fn sign_true(model: Seq<i32>, l: Literal) -> bool {
    1 <= l.var <= model.len() && l.sign == (model[l.var - 1] > 0)
}

/// Some literal of the clause has its sign in the model.
pub open spec fn signs_satisfy(model: Seq<i32>, lits: Seq<Literal>) -> bool {
    exists|k: int| 0 <= k < lits.len() && sign_true(model, #[trigger] lits[k])
}

/// What `check_result` checks of a model.
pub open spec fn model_checks(model: Seq<i32>, s: &SolverState) -> bool {
    &&& model_agrees(model, s.assig@)
    &&& forall|i: int|
        0 <= i < s.clauses@.len() ==> signs_satisfy(model, (#[trigger] s.clauses@[i]).literals@)
}

/// Whether one clause has a literal whose sign is that of its variable in
/// the model.
fn clause_checks(clause: &Clause, model: &Vec<i32>) -> (r: bool)
    ensures
        r == signs_satisfy(model@, clause.literals@),
{
    let mut k: usize = 0;
    while k < clause.literals.len()
        invariant
            k <= clause.literals@.len(),
            forall|j: int| 0 <= j < k ==> !sign_true(model@, #[trigger] clause.literals@[j]),
        decreases clause.literals@.len() - k,
    {
        let lit = clause.literals[k];
        if 1 <= lit.var && lit.var <= model.len() && lit.sign == (model[lit.var - 1] > 0) {
            return true;
        }
        k = k + 1;
    }
    false
}

/// Whether each entry of `model` agrees with the assignment and every
/// stored clause has a literal whose sign is that of its variable in the
/// model.
pub fn check_model(solver_state: &SolverState, model: &Vec<i32>) -> (r: bool)
    ensures
        r == model_checks(model@, solver_state),
{
    let mut i: usize = 0;
    while i < model.len()
        invariant
            i <= model@.len(),
            forall|j: int| 0 <= j < i ==> entry_agrees(#[trigger] model@[j], solver_state.assig@),
        decreases model@.len() - i,
    {
        let x = model[i];
        let lit = Literal::from(x);
        let assigned = if lit.var < solver_state.assig.slots() {
            match solver_state.assig.get(&lit.var) {
                Some(info) => info.litsign == (x > 0),
                None => false,
            }
        } else {
            false
        };
        if !assigned {
            proof {
                assert(!entry_agrees(model@[i as int], solver_state.assig@));
            }
            return false;
        }
        i = i + 1;
    }
    let mut c: usize = 0;
    while c < solver_state.clauses.len()
        invariant
            c <= solver_state.clauses@.len(),
            model_agrees(model@, solver_state.assig@),
            forall|j: int|
                0 <= j < c ==> signs_satisfy(
                    model@,
                    (#[trigger] solver_state.clauses@[j]).literals@,
                ),
        decreases solver_state.clauses@.len() - c,
    {
        if !clause_checks(&solver_state.clauses[c], model) {
            proof {
                assert(!signs_satisfy(model@, solver_state.clauses@[c as int].literals@));
            }
            return false;
        }
        c = c + 1;
    }
    true
}

/// Checks an answer against the state it came from: `UNSAT` passes, and a
/// model passes if `check_model` accepts it.
pub fn check_result(solver_state: &SolverState, res: &CNFStatus) -> (r: bool)
    ensures
        *res is SAT ==> r == model_checks(res->model@, solver_state),
        *res is UNSAT ==> r,
{
    match res {
        CNFStatus::SAT { model } => check_model(solver_state, model),
        CNFStatus::UNSAT => true,
    }
}

} // verus!

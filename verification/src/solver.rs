//! The solver state: assignment, trail, clause store, watch index and
//! heuristic, with the operations that record and undo decisions.

use vstd::prelude::*;
use std::collections::VecDeque;
use rustc_hash::FxHashSet;
use crate::assig::{
    lit_falsified, lit_level, lit_satisfied, lit_unassigned, Assig, AssigInfo, AssigModel,
};
use crate::clause::Clause;
use crate::consistency::{
    clauses_ok, covered, deleted_ok, entry_ok, formula_covered, in_both_lists, is_root_fact,
    justified, keeps_root_facts, levels_below, list_ok, names_only, root_sat, same_but_marks,
    slot_below, slot_ok, trail_ok, watch_inv, watch_inv_pending, watches_ok,
};
use crate::decision::Decision;
use crate::heuristic::VSIDS;
use crate::semantics::{
    entails, ext_satisfiable, is_model, lemma_entails_frame, lemma_entails_more,
    lemma_entails_new_fact, lemma_pure_extension, lemma_same_literals_within, lemma_unit_entailed,
    literal_entailed, satisfiable, units_asserted, val_clause, val_formula, val_true,
};
use crate::literal::{Literal, MAX_VARIABLE};
use crate::trail_lemmas::{
    lemma_assign_gives_pending, lemma_coverage_stable, lemma_justified_same_literals,
    lemma_pop_keeps_justified, lemma_pop_keeps_trail, lemma_pop_keeps_watch_inv,
    lemma_push_keeps_justified, lemma_push_keeps_trail, lemma_root_fact_keeps_justified,
    lemma_root_fact_keeps_trail,
};
use crate::watch::WatchList;

verus! {

/// How preprocessing ended.
pub enum FormulaPreprocess {
    /// The facts of level 0 contradict a clause.
    TrivialUNSAT,
    /// The formula is reduced and ready for the search.
    Ready,
}

/// The worklist of unit propagation and the literals already put on it.
#[derive(Debug)]
pub struct UnitPropDS {
    pub dq: VecDeque<Decision>,
    pub seen: FxHashSet<usize>,
}

impl UnitPropDS {
    pub(crate) fn new() -> (r: UnitPropDS)
        ensures
            r.dq@.len() == 0,
            r.seen@ == Set::<usize>::empty(),
    {
        UnitPropDS { dq: VecDeque::new(), seen: FxHashSet::default() }
    }

    pub(crate) fn clear(&mut self)
        ensures
            final(self).dq@.len() == 0,
            final(self).seen@ == Set::<usize>::empty(),
    {
        self.dq.clear();
        self.seen.clear();
    }
}

/// Everything the search owns.
pub struct SolverState {
    /// The trail: the guesses and propagations in effect, oldest first.
    pub decision_stack: Vec<Decision>,
    pub assig: Assig,
    /// The number of guesses in effect.
    pub level: usize,
    pub watchlist: WatchList,
    pub num_variables: usize,
    /// The clauses of the formula and the learned clauses.
    pub clauses: Vec<Clause>,
    pub decision_heuristic: VSIDS,
    pub unit_prop_ds: UnitPropDS,
    /// Clauses learned since the last restart.
    pub clauses_since_deletion: usize,
    pub min_num_conflict_restart: usize,
    pub max_num_conflict_restart: usize,
    pub cur_num_conflict_restart: usize,
    /// Two unit clauses of the formula contradict each other.
    pub root_conflict: bool,
    /// The clauses given to the solver, as they were given.
    pub formula: Ghost<Seq<Seq<Literal>>>,
    /// The literals that were made facts because they were pure, not
    /// because they follow from the formula.
    pub pure_units: Ghost<Seq<Literal>>,
}

impl SolverState {
    /// The invariant of the solver state between any two operations.
    pub open spec fn wf(&self) -> bool {
        &&& self.wf_core()
        &&& watches_ok(self.watchlist, self.clauses@, self.num_variables as nat)
    }

    /// The invariant but for the agreement of the watch index with the
    /// clauses.
    pub open spec fn wf_core(&self) -> bool {
        let n = self.num_variables as nat;
        &&& self.num_variables <= MAX_VARIABLE
        &&& self.assig.wf()
        &&& self.assig@.len() == n + 1
        &&& self.assig@[0] is None
        &&& clauses_ok(self.clauses@, n)
        &&& self.watchlist.watchlist@.len() == n + 1
        &&& trail_ok(self.decision_stack@, self.assig@, self.level as nat, n)
        &&& justified(self.decision_stack@, self.assig@, self.clauses@)
        &&& self.decision_heuristic.wf(n)
        &&& deleted_ok(self.clauses@, self.assig@)
        &&& !self.root_conflict ==> formula_covered(self.formula@, self.clauses@, self.assig@)
        &&& entails(self.formula@, self.pure_units@, n, self.clauses@, self.assig@)
        &&& units_asserted(self.pure_units@, self.assig@)
        &&& satisfiable(self.formula@, n) ==> ext_satisfiable(self.formula@, self.pure_units@, n)
        &&& self.root_conflict ==> !ext_satisfiable(self.formula@, self.pure_units@, n)
    }

    /// Propagation is complete: no clause has a falsified watch unless its
    /// other watch is satisfied and was so no later.
    pub open spec fn propagated(&self) -> bool {
        watch_inv(self.clauses@, self.assig@, (self.level + 1) as nat)
    }

    /// The parts that recording and undoing decisions never touch are the
    /// same in `self` and `o`.
    pub open spec fn same_setup(&self, o: &SolverState) -> bool {
        &&& self.same_config(o)
        &&& self.pure_units@ == o.pure_units@
    }

    /// As `same_setup`, but for the literals assumed as pure.
    pub open spec fn same_config(&self, o: &SolverState) -> bool {
        &&& self.num_variables == o.num_variables
        &&& self.decision_heuristic == o.decision_heuristic
        &&& self.formula@ == o.formula@
        &&& self.root_conflict == o.root_conflict
        &&& self.clauses_since_deletion == o.clauses_since_deletion
        &&& self.min_num_conflict_restart == o.min_num_conflict_restart
        &&& self.max_num_conflict_restart == o.max_num_conflict_restart
        &&& self.cur_num_conflict_restart == o.cur_num_conflict_restart
    }

    /// Every literal of clause `idx` over a variable other than that of
    /// `lit` is falsified, and the clause names the variable of `lit` only
    /// as `lit`.
    pub open spec fn forces(&self, idx: usize, lit: Literal) -> bool {
        &&& idx < self.clauses@.len()
        &&& forall|k: int|
            0 <= k < self.clauses@[idx as int].literals@.len() && (
            #[trigger] self.clauses@[idx as int].literals@[k]).var != lit.var ==> lit_falsified(
                self.clauses@[idx as int].literals@[k],
                self.assig@,
            )
        &&& names_only(self.clauses@[idx as int].literals@, lit)
    }

    /// `lit` is true in every model of the formula and the literals assumed
    /// so far.
    pub open spec fn follows(&self, lit: Literal) -> bool {
        literal_entailed(self.formula@, self.pure_units@, self.num_variables as nat, lit)
    }

    /// `lit` may be assumed as a pure literal: it is unassigned, and its
    /// negation occurs in no live clause.
    pub open spec fn assumable(&self, lit: Literal) -> bool {
        &&& lit_unassigned(lit, self.assig@)
        &&& forall|i: int|
            0 <= i < self.clauses@.len() && !(#[trigger] self.clauses@[i]).deleted
                ==> !self.clauses@[i].literals@.contains(lit.negated())
    }

    /// The assumed literals once `d` is recorded: a fact of level 0 that
    /// does not follow from the formula joins them.
    pub open spec fn units_after(&self, d: Decision) -> Seq<Literal> {
        if d is AssertUnit && !self.follows(d.lit()) {
            self.pure_units@.push(d.lit())
        } else {
            self.pure_units@
        }
    }

    /// Decision `d` may be recorded: its literal is not falsified; a fact of
    /// level 0 comes while no guess is in effect, and follows from the
    /// formula or may be assumed as a pure literal; a guess or a
    /// propagation is for an unassigned variable; and the antecedent of a
    /// propagation forces it.
    pub open spec fn can_record(&self, d: Decision) -> bool {
        &&& 1 <= d.lit().var <= self.num_variables
        &&& !lit_falsified(d.lit(), self.assig@)
        &&& match d {
            Decision::AssertUnit { lit } => self.level == 0 && (self.follows(lit)
                || self.assumable(lit)),
            Decision::Choice { lit } => lit_unassigned(lit, self.assig@),
            Decision::UnitProp { lit, unit_prop_idx } => lit_unassigned(lit, self.assig@)
                && self.forces(unit_prop_idx, lit),
        }
    }

    /// The level at which `d` is recorded when the level in effect is
    /// `level`.
    pub open spec fn level_of(d: Decision, level: usize) -> int {
        match d {
            Decision::AssertUnit { .. } => 0,
            Decision::Choice { .. } => level + 1,
            Decision::UnitProp { .. } => level as int,
        }
    }

    /// Whether recording `d` at `level` puts it on the trail.
    pub open spec fn goes_on_trail(d: Decision, level: usize) -> bool {
        match d {
            Decision::AssertUnit { .. } => false,
            Decision::Choice { .. } => true,
            Decision::UnitProp { .. } => level != 0,
        }
    }

    /// The state has no clauses and no assignments, over `num_vars`
    /// variables, and its restart policy stands at its beginning.
    pub open spec fn is_fresh(&self, num_vars: usize) -> bool {
        &&& self.num_variables == num_vars
        &&& self.level == 0
        &&& self.decision_stack@.len() == 0
        &&& self.clauses@.len() == 0
        &&& self.assig@.len() == num_vars + 1
        &&& forall|v: int| 0 <= v <= num_vars ==> self.assig@[v] is None
        &&& self.watchlist.watchlist@.len() == num_vars + 1
        &&& forall|l: Literal|
            l.var <= num_vars ==> #[trigger] self.watchlist.list(l) == Seq::<usize>::empty()
        &&& self.formula@ == Seq::<Seq<Literal>>::empty()
        &&& self.pure_units@ == Seq::<Literal>::empty()
        &&& !self.root_conflict
        &&& self.clauses_since_deletion == 0
        &&& self.cur_num_conflict_restart == 16
        &&& self.max_num_conflict_restart == 1024
        &&& self.min_num_conflict_restart == 16
        &&& self.decision_heuristic.nclause_counter == 0
        &&& self.decision_heuristic.decay_rate == 256
        &&& self.decision_heuristic.add_bump == 1
        &&& self.decision_heuristic.var_order@.len() == num_vars
        &&& forall|v: usize|
            1 <= v <= num_vars ==> self.decision_heuristic.variable_scores@[v] == (
            crate::heuristic::Phase { true_score: 0, false_score: 0 })
        &&& forall|i: int|
            0 <= i < num_vars ==> (
            #[trigger] self.decision_heuristic.var_order@[i]).stored_phase is None
                && self.decision_heuristic.var_order@[i].phase == (crate::heuristic::Phase {
                true_score: 0,
                false_score: 0,
            })
        &&& crate::ranking::sorted_descending(self.decision_heuristic.var_order@)
    }

    /// A state without clauses or assignments over `num_vars` variables.
    pub fn make_new(num_vars: usize) -> (r: SolverState)
        requires
            num_vars <= MAX_VARIABLE,
        ensures
            r.wf(),
            r.propagated(),
            r.is_fresh(num_vars),
    {
        let r = SolverState {
            decision_stack: Vec::new(),
            assig: Assig::new(num_vars),
            level: 0,
            watchlist: WatchList::new(num_vars),
            num_variables: num_vars,
            clauses: Vec::new(),
            decision_heuristic: VSIDS::new(num_vars),
            unit_prop_ds: UnitPropDS::new(),
            clauses_since_deletion: 0,
            cur_num_conflict_restart: 16,
            max_num_conflict_restart: 1024,
            min_num_conflict_restart: 16,
            root_conflict: false,
            formula: Ghost(Seq::empty()),
            pure_units: Ghost(Seq::empty()),
        };
        proof {
            let n = num_vars as nat;
            assert forall|l: Literal| l.var <= n implies #[trigger] list_ok(
                r.watchlist,
                r.clauses@,
                l,
            ) by {
                assert(r.watchlist.list(l) == Seq::<usize>::empty());
            }
            assert forall|v: int| 0 <= v < r.assig@.len() implies #[trigger] slot_ok(
                r.decision_stack@,
                r.assig@,
                0,
                v,
            ) by {}
            if satisfiable(r.formula@, n) {
                let m = choose|m: Seq<bool>| m.len() == n + 1 && #[trigger] val_formula(m, r.formula@);
                assert(is_model(m, r.formula@, r.pure_units@, n));
            }
        }
        r
    }

    /// The number of decisions on the trail.
    pub fn decision_stack_size(&self) -> (r: usize)
        ensures
            r == self.decision_stack@.len(),
    {
        self.decision_stack.len()
    }

    /// The number of stored clauses.
    pub fn num_clauses(&self) -> (r: usize)
        ensures
            r == self.clauses@.len(),
    {
        self.clauses.len()
    }

    /// The number of assigned variables.
    pub fn assigments_len(&self) -> (r: usize)
        requires
            self.assig.wf(),
        ensures
            r == crate::assig::count_assigned(self.assig@),
    {
        self.assig.len()
    }

    /// The level at which the variable of `lit` is assigned.
    pub fn get_lit_level(&self, lit: &Literal) -> (r: usize)
        requires
            lit.var < self.assig@.len(),
            self.assig@[lit.var as int] is Some,
        ensures
            r == lit_level(*lit, self.assig@),
    {
        match self.assig.get(&lit.var) {
            Some(info) => info.level,
            None => 0,
        }
    }

    /// Marks every clause that contains `lit` as deleted. Meant for a
    /// literal that is a fact of level 0, which settles those clauses: then
    /// the invariant of the state is kept.
    pub fn delete_satisified_clauses(&mut self, lit: &Literal)
        ensures
            old(self).wf() && lit_satisfied(*lit, old(self).assig@) && lit_level(
                *lit,
                old(self).assig@,
            ) == 0 ==> final(self).wf(),
            final(self).same_setup(old(self)),
            final(self).assig == old(self).assig,
            final(self).level == old(self).level,
            final(self).decision_stack == old(self).decision_stack,
            final(self).watchlist == old(self).watchlist,
            final(self).unit_prop_ds == old(self).unit_prop_ds,
            same_but_marks(final(self).clauses@, old(self).clauses@),
            forall|i: int|
                0 <= i < old(self).clauses@.len() ==> (#[trigger] final(self).clauses@[i]).deleted
                    == (old(self).clauses@[i].deleted || old(self).clauses@[i].literals@.contains(
                    *lit,
                )),
    {
        let mut i: usize = 0;
        while i < self.clauses.len()
            invariant
                i <= self.clauses@.len(),
                self.same_setup(old(self)),
                self.assig == old(self).assig,
                self.level == old(self).level,
                self.decision_stack == old(self).decision_stack,
                self.watchlist == old(self).watchlist,
                self.unit_prop_ds == old(self).unit_prop_ds,
                same_but_marks(self.clauses@, old(self).clauses@),
                forall|k: int|
                    0 <= k < i ==> (#[trigger] self.clauses@[k]).deleted == (old(
                        self,
                    ).clauses@[k].deleted || old(self).clauses@[k].literals@.contains(*lit)),
                forall|k: int|
                    i <= k < self.clauses@.len() ==> (#[trigger] self.clauses@[k]).deleted == old(
                        self,
                    ).clauses@[k].deleted,
            decreases self.clauses@.len() - i,
        {
            if clause_contains(&self.clauses[i], lit) {
                self.clauses[i].deleted = true;
            }
            i = i + 1;
        }
        proof {
            if old(self).wf() && lit_satisfied(*lit, old(self).assig@) && lit_level(
                *lit,
                old(self).assig@,
            ) == 0 {
                lemma_marks_keep_wf(*old(self), *self, *lit);
            }
        }
    }

    /// Makes `lit` a fact of level 0 and marks the clauses that contain it
    /// as deleted. The clauses `added`, which say no more than `lit`, join
    /// the formula. Without such a clause, `lit` joins the assumed literals
    /// unless it follows from the formula.
    pub(crate) fn record_fact(&mut self, lit: &Literal, Ghost(added): Ghost<Seq<Seq<Literal>>>)
        requires
            old(self).wf(),
            old(self).level == 0,
            1 <= lit.var <= old(self).num_variables,
            !lit_falsified(*lit, old(self).assig@),
            forall|j: int| 0 <= j < added.len() ==> (#[trigger] added[j]).len() >= 1,
            forall|j: int, k: int|
                0 <= j < added.len() && 0 <= k < added[j].len() ==> #[trigger] added[j][k] == *lit,
            added.len() > 0 ==> old(self).pure_units@.len() == 0,
            added.len() == 0 ==> old(self).follows(*lit) || old(self).assumable(*lit),
        ensures
            final(self).wf(),
            final(self).level == 0,
            final(self).num_variables == old(self).num_variables,
            final(self).decision_heuristic == old(self).decision_heuristic,
            final(self).root_conflict == old(self).root_conflict,
            final(self).clauses_since_deletion == old(self).clauses_since_deletion,
            final(self).min_num_conflict_restart == old(self).min_num_conflict_restart,
            final(self).max_num_conflict_restart == old(self).max_num_conflict_restart,
            final(self).cur_num_conflict_restart == old(self).cur_num_conflict_restart,
            final(self).watchlist == old(self).watchlist,
            final(self).unit_prop_ds == old(self).unit_prop_ds,
            final(self).decision_stack@ == old(self).decision_stack@,
            final(self).formula@ == old(self).formula@ + added,
            final(self).pure_units@ == (if added.len() == 0 && !old(self).follows(*lit) {
                old(self).pure_units@.push(*lit)
            } else {
                old(self).pure_units@
            }),
            final(self).assig@ == old(self).assig@.update(
                lit.var as int,
                Some(AssigInfo { litsign: lit.sign, level: 0 }),
            ),
            same_but_marks(final(self).clauses@, old(self).clauses@),
            forall|i: int|
                0 <= i < old(self).clauses@.len() ==> (#[trigger] final(self).clauses@[i]).deleted
                    == (old(self).clauses@[i].deleted || old(self).clauses@[i].literals@.contains(
                    *lit,
                )),
            old(self).propagated() ==> watch_inv_pending(
                final(self).clauses@,
                final(self).assig@,
                lit.negated(),
            ),
    {
        let ghost a0 = self.assig@;
        let ghost t0 = self.decision_stack@;
        let ghost n = self.num_variables as nat;
        let ghost f0 = self.formula@;
        let ghost u0 = self.pure_units@;
        let ghost c0 = self.clauses@;
        let ghost assume_pure = added.len() == 0 && !self.follows(*lit);
        let ghost f1 = f0 + added;
        let ghost u1 = if assume_pure { u0.push(*lit) } else { u0 };
        let info = AssigInfo::new(lit.sign, 0);
        let ghost a1 = a0.update(lit.var as int, Some(info));
        proof {
            lemma_root_fact_keeps_trail(t0, a0, n, lit.var as int, info);
            lemma_root_fact_keeps_justified(t0, a0, c0, lit.var as int, info);
            lemma_root_assign_keeps_root_facts(t0, a0, n, lit.var as int, info);
            lemma_coverage_stable(f0, c0, c0, a0, a1);
            lemma_levels_below(t0, a0, 0, n);
            if self.propagated() {
                lemma_assign_gives_pending(c0, a0, *lit, info, 1);
            }
            // the theory: the formula and the assumed literals
            lemma_entails_more(f0, u0, f1, u1, n, c0, a0);
            assert(literal_entailed(f1, u1, n, *lit)) by {
                assert forall|m: Seq<bool>| #[trigger] is_model(m, f1, u1, n) implies val_true(
                    m,
                    *lit,
                ) by {
                    if added.len() > 0 {
                        assert(f1[f0.len() as int] == added[0]);
                        assert(val_clause(m, f1[f0.len() as int]));
                        let k = choose|k: int|
                            0 <= k < added[0].len() && val_true(m, #[trigger] added[0][k]);
                        assert(added[0][k] == *lit);
                    } else if assume_pure {
                        assert(u1[u0.len() as int] == *lit);
                    } else {
                        assert(is_model(m, f0, u0, n));
                    }
                }
            }
            lemma_entails_new_fact(f1, u1, n, c0, a0, *lit);
            assert forall|k: int| 0 <= k < u1.len() implies lit_satisfied(#[trigger] u1[k], a1)
                && lit_level(u1[k], a1) == 0 by {
                if k < u0.len() {
                    assert(u1[k] == u0[k]);
                    assert(lit_satisfied(u0[k], a0));
                    assert(slot_ok(t0, a0, 0, u0[k].var as int));
                }
            }
            if satisfiable(f1, n) {
                let m = choose|m: Seq<bool>| m.len() == n + 1 && #[trigger] val_formula(m, f1);
                assert(val_formula(m, f0)) by {
                    assert forall|j: int| 0 <= j < f0.len() implies val_clause(m, #[trigger] f0[j]) by {
                        assert(f1[j] == f0[j]);
                    }
                }
                assert(satisfiable(f0, n));
                if added.len() > 0 {
                    assert(is_model(m, f1, u1, n));
                } else {
                    assert(f1 =~= f0);
                    if assume_pure {
                        assert(!self.root_conflict);
                        lemma_pure_extension(f0, u0, n, c0, a0, *lit);
                    }
                }
            }
            if self.root_conflict {
                if ext_satisfiable(f1, u1, n) {
                    let m = choose|m: Seq<bool>| #[trigger] is_model(m, f1, u1, n);
                    assert(is_model(m, f0, u0, n));
                }
            } else {
                assert forall|j: int| 0 <= j < f1.len() implies covered(#[trigger] f1[j], c0, a1) by {
                    if j < f0.len() {
                        assert(f1[j] == f0[j]);
                        assert(covered(f0[j], c0, a1));
                    } else {
                        assert(f1[j] == added[j - f0.len()]);
                        assert(f1[j][0] == *lit);
                        assert(lit_satisfied(f1[j][0], a1) && lit_level(f1[j][0], a1) == 0);
                    }
                }
            }
        }
        self.formula = Ghost(f1);
        self.pure_units = Ghost(u1);
        self.assig.insert(lit.var, info);
        let ghost mid = *self;
        self.delete_satisified_clauses(lit);
        proof {
            lemma_pending_same_watches(mid.clauses@, self.clauses@, self.assig@, lit.negated());
        }
    }

    /// `self` is what `o` becomes when decision `d` is recorded.
    ///
    /// The literal of `d` is true at the level of `d`; a guess opens a
    /// level; a guess, and a propagation above level 0, is the new last
    /// entry of the trail; a fact of level 0 marks the clauses that contain
    /// it as deleted. Nothing else changes.
    pub open spec fn recorded_from(&self, o: &SolverState, d: Decision) -> bool {
        &&& o.wf()
        &&& o.can_record(d)
        &&& self.wf()
        &&& self.num_variables == o.num_variables
        &&& self.decision_heuristic == o.decision_heuristic
        &&& self.formula@ == o.formula@
        &&& self.pure_units@ == o.units_after(d)
        &&& self.root_conflict == o.root_conflict
        &&& self.clauses_since_deletion == o.clauses_since_deletion
        &&& self.min_num_conflict_restart == o.min_num_conflict_restart
        &&& self.max_num_conflict_restart == o.max_num_conflict_restart
        &&& self.cur_num_conflict_restart == o.cur_num_conflict_restart
        &&& self.watchlist == o.watchlist
        &&& self.unit_prop_ds == o.unit_prop_ds
        &&& self.assig@ == o.assig@.update(
            d.lit().var as int,
            Some(AssigInfo { litsign: d.lit().sign, level: Self::level_of(d, o.level) as usize }),
        )
        &&& self.level == (if d is Choice {
            o.level + 1
        } else {
            o.level as int
        })
        &&& self.decision_stack@ == (if Self::goes_on_trail(d, o.level) {
            o.decision_stack@.push(d)
        } else {
            o.decision_stack@
        })
        &&& !(d is AssertUnit) ==> self.clauses == o.clauses
        &&& d is AssertUnit ==> {
            &&& same_but_marks(self.clauses@, o.clauses@)
            &&& forall|i: int|
                0 <= i < o.clauses@.len() ==> (#[trigger] self.clauses@[i]).deleted == (
                o.clauses@[i].deleted || o.clauses@[i].literals@.contains(d.lit()))
        }
    }

    /// Records decision `d`.
    ///
    /// The literal of `d` becomes true: as a fact of level 0 for
    /// `AssertUnit`, at a new level for `Choice`, at the level in effect for
    /// `UnitProp`. A guess, and a propagation above level 0, is pushed on
    /// the trail. A fact of level 0 marks the clauses that contain it as
    /// deleted.
    pub fn add_decision(&mut self, d: &Decision)
        requires
            old(self).wf(),
            old(self).can_record(*d),
        ensures
            final(self).recorded_from(old(self), *d),
            final(self).wf(),
            final(self).num_variables == old(self).num_variables,
            final(self).decision_heuristic == old(self).decision_heuristic,
            final(self).formula@ == old(self).formula@,
            final(self).pure_units@ == old(self).units_after(*d),
            final(self).root_conflict == old(self).root_conflict,
            final(self).clauses_since_deletion == old(self).clauses_since_deletion,
            final(self).min_num_conflict_restart == old(self).min_num_conflict_restart,
            final(self).max_num_conflict_restart == old(self).max_num_conflict_restart,
            final(self).cur_num_conflict_restart == old(self).cur_num_conflict_restart,
            final(self).watchlist == old(self).watchlist,
            final(self).unit_prop_ds == old(self).unit_prop_ds,
            final(self).assig@ == old(self).assig@.update(
                d.lit().var as int,
                Some(
                    AssigInfo {
                        litsign: d.lit().sign,
                        level: Self::level_of(*d, old(self).level) as usize,
                    },
                ),
            ),
            final(self).level == (if *d is Choice {
                old(self).level + 1
            } else {
                old(self).level as int
            }),
            final(self).decision_stack@ == (if Self::goes_on_trail(*d, old(self).level) {
                old(self).decision_stack@.push(*d)
            } else {
                old(self).decision_stack@
            }),
            !(*d is AssertUnit) ==> final(self).clauses == old(self).clauses,
            *d is AssertUnit ==> {
                &&& same_but_marks(final(self).clauses@, old(self).clauses@)
                &&& forall|i: int|
                    0 <= i < old(self).clauses@.len() ==> (
                    #[trigger] final(self).clauses@[i]).deleted == (old(self).clauses@[i].deleted
                        || old(self).clauses@[i].literals@.contains(d.lit()))
            },
            old(self).propagated() ==> watch_inv_pending(
                final(self).clauses@,
                final(self).assig@,
                d.lit().negated(),
            ),
    {
        let ghost a0 = self.assig@;
        let ghost t0 = self.decision_stack@;
        let ghost n = self.num_variables as nat;
        let ghost c0 = self.clauses@;
        match d {
            Decision::AssertUnit { lit } => {
                proof {
                    assert(self.formula@ + Seq::<Seq<Literal>>::empty() =~= self.formula@);
                }
                self.record_fact(lit, Ghost(Seq::empty()));
            },
            Decision::Choice { lit } => {
                proof {
                    if t0.len() > 0 {
                        assert(entry_ok(t0, a0, n, t0.len() - 1));
                    }
                }
                self.decision_stack.push(*d);
                // the trail is at least as long as the level, and its length fits in usize
                let depth = self.decision_stack.len();
                let ghost info = AssigInfo { litsign: lit.sign, level: (self.level + 1) as usize };
                proof {
                    let a1 = a0.update(lit.var as int, Some(info));
                    lemma_push_keeps_trail(t0, a0, self.level as nat, n, *d, info);
                    lemma_push_keeps_justified(t0, a0, c0, *d, info);
                    lemma_assign_keeps_root_facts(a0, lit.var as int, info);
                    lemma_coverage_stable(self.formula@, c0, c0, a0, a1);
                    lemma_same_literals_within(c0, c0);
                    lemma_entails_frame(self.formula@, self.pure_units@, n, c0, c0, a0, a1);
                    if self.propagated() {
                        lemma_levels_below(t0, a0, self.level as nat, n);
                        lemma_assign_gives_pending(c0, a0, *lit, info, (self.level + 1) as nat);
                    }
                }
                self.level = self.level + 1;
                self.assig.insert(lit.var, AssigInfo::new(lit.sign, self.level));
            },
            Decision::UnitProp { lit, unit_prop_idx } => {
                let info = AssigInfo::new(lit.sign, self.level);
                proof {
                    let a1 = a0.update(lit.var as int, Some(info));
                    lemma_same_literals_within(c0, c0);
                    if self.level != 0 {
                        lemma_push_keeps_trail(t0, a0, self.level as nat, n, *d, info);
                        lemma_push_keeps_justified(t0, a0, c0, *d, info);
                        lemma_entails_frame(self.formula@, self.pure_units@, n, c0, c0, a0, a1);
                    } else {
                        lemma_root_fact_keeps_trail(t0, a0, n, lit.var as int, info);
                        lemma_root_fact_keeps_justified(t0, a0, c0, lit.var as int, info);
                        lemma_levels_below(t0, a0, 0, n);
                        lemma_unit_entailed(
                            self.formula@,
                            self.pure_units@,
                            n,
                            c0,
                            a0,
                            *unit_prop_idx as int,
                            *lit,
                        );
                        lemma_entails_new_fact(self.formula@, self.pure_units@, n, c0, a0, *lit);
                    }
                    lemma_assign_keeps_root_facts(a0, lit.var as int, info);
                    lemma_coverage_stable(self.formula@, c0, c0, a0, a1);
                    if self.propagated() {
                        lemma_levels_below(t0, a0, self.level as nat, n);
                        lemma_assign_gives_pending(c0, a0, *lit, info, (self.level + 1) as nat);
                    }
                }
                self.assig.insert(lit.var, info);
                if self.level != 0 {
                    self.decision_stack.push(*d);
                }
            },
        }
    }

    /// Undoes the last decision of the trail and returns it: its variable
    /// becomes unassigned, and undoing a guess closes its level.
    pub fn pop_decision(&mut self) -> (r: Decision)
        requires
            old(self).wf(),
            old(self).decision_stack@.len() > 0,
        ensures
            final(self).wf(),
            final(self).same_setup(old(self)),
            final(self).watchlist == old(self).watchlist,
            final(self).clauses == old(self).clauses,
            final(self).unit_prop_ds == old(self).unit_prop_ds,
            r == old(self).decision_stack@.last(),
            final(self).decision_stack@ == old(self).decision_stack@.drop_last(),
            final(self).assig@ == old(self).assig@.update(r.lit().var as int, None),
            old(self).level >= 1,
            lit_satisfied(r.lit(), old(self).assig@),
            lit_level(r.lit(), old(self).assig@) == old(self).level,
            final(self).level == (if r is Choice {
                old(self).level - 1
            } else {
                old(self).level as int
            }),
    {
        let ghost a0 = self.assig@;
        let ghost t0 = self.decision_stack@;
        let ghost n = self.num_variables as nat;
        proof {
            assert(entry_ok(t0, a0, n, t0.len() - 1));
            lemma_pop_keeps_trail(t0, a0, self.level as nat, n);
            lemma_pop_keeps_justified(t0, a0, self.clauses@);
            lemma_unassign_keeps_root_facts(a0, t0.last().lit().var as int);
            lemma_coverage_stable(
                self.formula@,
                self.clauses@,
                self.clauses@,
                a0,
                a0.update(t0.last().lit().var as int, None),
            );
            lemma_same_literals_within(self.clauses@, self.clauses@);
            lemma_entails_frame(
                self.formula@,
                self.pure_units@,
                n,
                self.clauses@,
                self.clauses@,
                a0,
                a0.update(t0.last().lit().var as int, None),
            );
        }
        let dec = self.decision_stack.pop().unwrap();
        match dec {
            Decision::AssertUnit { lit } => {
                proof {
                    assert(false);
                }
            },
            Decision::Choice { lit } => {
                self.level = self.level - 1;
                self.assig.remove(&lit.var);
            },
            Decision::UnitProp { lit, .. } => {
                self.assig.remove(&lit.var);
            },
        }
        dec
    }

    /// Undoes decisions until `backtrack_level` guesses remain in effect.
    /// What was assigned up to that level stays; everything above it
    /// becomes unassigned.
    pub fn backtrack_to_level(&mut self, backtrack_level: usize)
        requires
            old(self).wf(),
            backtrack_level < old(self).level,
        ensures
            final(self).wf(),
            final(self).same_setup(old(self)),
            final(self).watchlist == old(self).watchlist,
            final(self).clauses == old(self).clauses,
            final(self).unit_prop_ds == old(self).unit_prop_ds,
            final(self).level == backtrack_level,
            final(self).decision_stack@.len() <= old(self).decision_stack@.len(),
            final(self).decision_stack@ == old(self).decision_stack@.take(
                final(self).decision_stack@.len() as int,
            ),
            final(self).assig@.len() == old(self).assig@.len(),
            forall|v: int|
                0 <= v < old(self).assig@.len() ==> #[trigger] final(self).assig@[v] == (if old(
                    self,
                ).assig@[v] is Some && old(self).assig@[v]->Some_0.level <= backtrack_level {
                    old(self).assig@[v]
                } else {
                    None
                }),
            watch_inv(old(self).clauses@, old(self).assig@, (backtrack_level + 1) as nat)
                ==> final(self).propagated(),
    {
        let ghost a0 = self.assig@;
        let ghost t0 = self.decision_stack@;
        let ghost n = self.num_variables as nat;
        while self.level != backtrack_level
            invariant
                self.wf(),
                self.same_setup(old(self)),
                self.watchlist == old(self).watchlist,
                self.clauses == old(self).clauses,
                self.unit_prop_ds == old(self).unit_prop_ds,
                self.level >= backtrack_level,
                self.decision_stack@.len() <= t0.len(),
                self.decision_stack@ == t0.take(self.decision_stack@.len() as int),
                self.assig@.len() == a0.len(),
                a0 == old(self).assig@,
                t0 == old(self).decision_stack@,
                forall|v: int|
                    0 <= v < a0.len() && (#[trigger] self.assig@[v]) is Some ==> self.assig@[v]
                        == a0[v],
                forall|v: int|
                    0 <= v < a0.len() && (#[trigger] a0[v]) is Some && a0[v]->Some_0.level
                        <= backtrack_level ==> self.assig@[v] == a0[v],
                watch_inv(old(self).clauses@, a0, (backtrack_level + 1) as nat) ==> watch_inv(
                    self.clauses@,
                    self.assig@,
                    (backtrack_level + 1) as nat,
                ),
            decreases self.decision_stack@.len(),
        {
            let ghost a1 = self.assig@;
            let ghost t1 = self.decision_stack@;
            proof {
                if t1.len() == 0 {
                    assert(self.level == 0);
                }
            }
            let d = self.pop_decision();
            proof {
                assert(t1.drop_last() =~= t0.take(t1.len() - 1));
                if watch_inv(old(self).clauses@, a0, (backtrack_level + 1) as nat) {
                    lemma_pop_keeps_watch_inv(
                        self.clauses@,
                        a1,
                        d.lit().var as int,
                        (backtrack_level + 1) as nat,
                    );
                }
            }
        }
        proof {
            assert forall|v: int| 0 <= v < a0.len() implies #[trigger] self.assig@[v] == (if a0[v] is Some
                && a0[v]->Some_0.level <= backtrack_level {
                a0[v]
            } else {
                None
            }) by {
                assert(slot_ok(self.decision_stack@, self.assig@, self.level as nat, v));
            }
        }
    }
}

/// Whether `lit` is one of the literals of `clause`.
pub fn clause_contains(clause: &Clause, lit: &Literal) -> (r: bool)
    ensures
        r == clause.literals@.contains(*lit),
{
    let mut k: usize = 0;
    while k < clause.literals.len()
        invariant
            k <= clause.literals@.len(),
            forall|j: int| 0 <= j < k ==> clause.literals@[j] != *lit,
        decreases clause.literals@.len() - k,
    {
        if clause.literals[k] == *lit {
            return true;
        }
        k = k + 1;
    }
    false
}

/// Marking the clauses that contain a fact of level 0 as deleted keeps the
/// invariant of the state.
pub proof fn lemma_marks_keep_wf(s0: SolverState, s1: SolverState, lit: Literal)
    requires
        s0.wf(),
        s1.same_setup(&s0),
        s1.assig == s0.assig,
        s1.level == s0.level,
        s1.decision_stack == s0.decision_stack,
        s1.watchlist == s0.watchlist,
        same_but_marks(s1.clauses@, s0.clauses@),
        lit_satisfied(lit, s0.assig@),
        lit_level(lit, s0.assig@) == 0,
        forall|i: int|
            0 <= i < s0.clauses@.len() ==> (#[trigger] s1.clauses@[i]).deleted == (
            s0.clauses@[i].deleted || s0.clauses@[i].literals@.contains(lit)),
    ensures
        s1.wf(),
{
    let n = s0.num_variables as nat;
    let c0 = s0.clauses@;
    let c1 = s1.clauses@;
    assert forall|i: int| 0 <= i < c1.len() implies (#[trigger] c1[i]).wf(n) by {
        assert(c0[i].wf(n));
    }
    lemma_watches_same_watches(s0.watchlist, c0, c1, n);
    lemma_justified_same_literals(s0.decision_stack@, s0.assig@, c0, c1);
    lemma_same_literals_within(c1, c0);
    lemma_entails_frame(s0.formula@, s0.pure_units@, n, c0, c1, s0.assig@, s1.assig@);
    assert forall|i: int| 0 <= i < c1.len() && (#[trigger] c1[i]).deleted implies root_sat(
        c1[i].literals@,
        s1.assig@,
    ) by {
        if c0[i].deleted {
            assert(root_sat(c0[i].literals@, s0.assig@));
        } else {
            let k = choose|k: int| 0 <= k < c0[i].literals@.len() && c0[i].literals@[k] == lit;
            assert(lit_satisfied(c1[i].literals@[k], s1.assig@));
        }
    }
    if !s0.root_conflict {
        assert forall|j: int| 0 <= j < s1.formula@.len() implies crate::consistency::covered(
            #[trigger] s1.formula@[j],
            c1,
            s1.assig@,
        ) by {
            assert(crate::consistency::covered(s0.formula@[j], c0, s0.assig@));
            if !root_sat(s0.formula@[j], s0.assig@) {
                let i = choose|i: int| #[trigger]
                    crate::consistency::stored_for(c0, s0.formula@[j], i);
                assert(crate::consistency::stored_for(c1, s1.formula@[j], i));
            }
        }
    }
}

/// The watch index agrees with a store whose clauses have the same literals
/// and watches.
pub proof fn lemma_watches_same_watches(w: WatchList, c: Seq<Clause>, d: Seq<Clause>, n: nat)
    requires
        watches_ok(w, c, n),
        same_but_marks(d, c),
    ensures
        watches_ok(w, d, n),
{
    assert forall|l: Literal| l.var <= n implies #[trigger] list_ok(w, d, l) by {
        assert(list_ok(w, c, l));
        assert forall|k: int| 0 <= k < w.list(l).len() implies crate::consistency::watched_by(
            d,
            #[trigger] w.list(l)[k],
            l,
        ) by {
            assert(crate::consistency::watched_by(c, w.list(l)[k], l));
            let idx = w.list(l)[k] as int;
            assert(d[idx].literals@ == c[idx].literals@);
        }
    }
    assert forall|i: int| 0 <= i < d.len() implies #[trigger] in_both_lists(w, d, i) by {
        assert(in_both_lists(w, c, i));
        assert(d[i].literals@ == c[i].literals@);
    }
}

/// The pending form of the watch invariant does not depend on deletion
/// marks.
pub proof fn lemma_pending_same_watches(c: Seq<Clause>, d: Seq<Clause>, a: AssigModel, f: Literal)
    requires
        same_but_marks(d, c),
    ensures
        watch_inv_pending(c, a, f) ==> watch_inv_pending(d, a, f),
{
    if watch_inv_pending(c, a, f) {
        assert forall|i: int| 0 <= i < d.len() implies crate::consistency::watch_pair_pending(
            (#[trigger] d[i]).watch1(),
            d[i].watch2(),
            a,
            f,
        ) && crate::consistency::watch_pair_pending(d[i].watch2(), d[i].watch1(), a, f) by {
            assert(c[i].literals@ == d[i].literals@);
            assert(crate::consistency::watch_pair_pending(c[i].watch1(), c[i].watch2(), a, f));
        }
    }
}

/// Every assigned variable belongs to a level that is in effect.
pub proof fn lemma_levels_below(t: Seq<Decision>, a: AssigModel, level: nat, n: nat)
    requires
        trail_ok(t, a, level, n),
    ensures
        levels_below(a, level + 1),
{
    assert forall|v: int| 0 <= v < a.len() implies slot_below(#[trigger] a[v], level + 1) by {
        assert(slot_ok(t, a, level, v));
    }
}

/// Assigning an unassigned variable keeps the facts of level 0.
pub proof fn lemma_assign_keeps_root_facts(a: AssigModel, v: int, info: AssigInfo)
    requires
        0 <= v < a.len(),
        a[v] is None,
    ensures
        keeps_root_facts(a, a.update(v, Some(info))),
{
}

/// Recording a fact of level 0 while no guess is in effect keeps the facts
/// of level 0: the variable was unassigned or already held such a fact.
pub proof fn lemma_root_assign_keeps_root_facts(
    t: Seq<Decision>,
    a: AssigModel,
    n: nat,
    v: int,
    info: AssigInfo,
)
    requires
        trail_ok(t, a, 0, n),
        0 <= v < a.len(),
        info.level == 0,
        a[v] matches Some(old_info) ==> old_info.litsign == info.litsign,
    ensures
        keeps_root_facts(a, a.update(v, Some(info))),
{
    assert(slot_ok(t, a, 0, v));
}

/// Unassigning a variable that was assigned above level 0 keeps the facts
/// of level 0.
pub proof fn lemma_unassign_keeps_root_facts(a: AssigModel, v: int)
    requires
        0 <= v < a.len(),
        !is_root_fact(a[v]),
    ensures
        keeps_root_facts(a, a.update(v, None)),
{
}

} // verus!

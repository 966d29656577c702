//! Unit propagation over the whole formula with two watched literals per
//! clause.

use vstd::prelude::*;
use crate::assig::{
    count_assigned, lemma_count_assigned_bound, lemma_count_assigned_update, lit_falsified,
    lit_level, lit_satisfied, lit_unassigned, AssigInfo, AssigModel,
};
use crate::clause::{all_falsified, ClauseUnitProp};
use crate::consistency::{
    awaits, extends, lemma_awaits_levelled, lemma_levelled, lemma_levelled_sound,
    lemma_moved_grows, levelled, list_ok, moved_off_false, same_clauses, watch_inv,
    watch_inv_pending, watch_invariant, watch_kept, watched_by,
};
use crate::decision::{Decision, FormulaUnitProp};
use crate::fx::{set_contains, set_insert};
use crate::literal::Literal;
use crate::round::{
    antecedent, applied, between_rounds, derivation, derived, entry_ready, forced_at, grows_by,
    lemma_dequeue_assigned, lemma_derivation_empty, lemma_derivation_push,
    lemma_derivation_same_literals, lemma_enqueue, lemma_fresh_end, lemma_fresh_next,
    lemma_fresh_push, lemma_fresh_reassigned, lemma_move_watch, lemma_queue_ready_same_literals,
    lemma_queued_push, lemma_round_closed, lemma_round_end, lemma_round_gives_watch_inv,
    lemma_round_start, lemma_round_start_seed, lemma_step_conflict, lemma_step_reassigned,
    lemma_step_satisfied, lemma_step_unit, queue_distinct, queue_fresh, queue_ready,
    queue_unassigned, queued, round_inv, seen_ok, unit_under,
};
use crate::semantics::{lemma_entails_frame, lemma_same_literals_within};
use crate::solver::{lemma_levels_below, SolverState};
use crate::trail_lemmas::{lemma_coverage_stable, lemma_justified_same_literals};

verus! {

/// Whatever was unassigned in `a0` and is assigned in `a1` was assigned at
/// `level`.
pub open spec fn fresh_at_level(a0: AssigModel, a1: AssigModel, level: nat) -> bool {
    forall|v: int|
        0 <= v < a0.len() && a0[v] is None && (#[trigger] a1[v]) is Some ==> a1[v]->Some_0.level
            == level
}

/// Some literal of the clause was falsified at `level`.
pub open spec fn has_level(cl: Seq<Literal>, a: AssigModel, level: nat) -> bool {
    exists|k: int|
        0 <= k < cl.len() && lit_falsified(#[trigger] cl[k], a) && lit_level(cl[k], a) == level
}

/// When propagation is complete, no clause has a falsified watch beside a
/// watch that is not satisfied: the two watches of every clause are both
/// unassigned, or one of them is satisfied.
pub proof fn lemma_propagated_sound(s: SolverState)
    requires
        s.wf(),
        s.propagated(),
    ensures
        watch_invariant(s.clauses@, s.assig@),
{
    let n = s.num_variables as nat;
    lemma_levels_below(s.decision_stack@, s.assig@, s.level as nat, n);
    assert forall|i: int| 0 <= i < s.clauses@.len() implies crate::consistency::clause_watch_sound(
        #[trigger] s.clauses@[i],
        s.assig@,
    ) by {
        let cl = s.clauses@[i];
        assert(cl.wf(n));
        assert(crate::consistency::clause_watch_ok(cl, s.assig@, (s.level + 1) as nat));
        assert(crate::consistency::slot_below(s.assig@[cl.watch1().var as int], (s.level + 1) as nat));
        assert(crate::consistency::slot_below(s.assig@[cl.watch2().var as int], (s.level + 1) as nat));
    }
}

impl SolverState {
    /// The literal of `blame` is true, and no clause has a falsified watch
    /// beside a watch that is not satisfied, except where it watches the
    /// negation of that literal.
    pub open spec fn may_propagate(&self, blame: Decision) -> bool {
        &&& 1 <= blame.lit().var <= self.num_variables
        &&& lit_satisfied(blame.lit(), self.assig@)
        &&& awaits(self.clauses@, self.assig@, blame.lit().negated())
    }

    /// The literal of `blame` has just been made true at the level in
    /// effect, and only the watches on its negation still wait for their
    /// consequences: every other falsified watch has a satisfied partner
    /// that was assigned no later.
    pub open spec fn can_propagate(&self, blame: Decision) -> bool {
        &&& 1 <= blame.lit().var <= self.num_variables
        &&& lit_satisfied(blame.lit(), self.assig@)
        &&& lit_level(blame.lit(), self.assig@) == self.level
        &&& watch_inv_pending(self.clauses@, self.assig@, blame.lit().negated())
    }

    /// What a round of propagation that started in state `o` keeps: the
    /// level and the clauses up to their watches; what was assigned stays,
    /// what is new was forced when it was assigned, at the level in effect,
    /// and the trail only grew.
    pub open spec fn round_frame(&self, o: &SolverState) -> bool {
        &&& self.wf()
        &&& derived(self.clauses@, o.assig@, self.assig@, o.level as nat)
        &&& moved_off_false(self.clauses@, o.clauses@, self.assig@)
        &&& self.same_setup(o)
        &&& self.level == o.level
        &&& same_clauses(self.clauses@, o.clauses@)
        &&& extends(self.assig@, o.assig@)
        &&& fresh_at_level(o.assig@, self.assig@, o.level as nat)
        &&& o.decision_stack@.len() <= self.decision_stack@.len()
        &&& self.decision_stack@.take(o.decision_stack@.len() as int) == o.decision_stack@
    }

    /// `self` is what `o` becomes by a round of propagation for `blame`
    /// that answers `r`.
    ///
    /// Every new assignment was forced when it was made, and a watch has
    /// moved only off a falsified literal. Without a conflict propagation
    /// is complete; with one, the clause reported has all its literals
    /// falsified. A round that starts where propagation is complete
    /// answers `NoConflict` and changes nothing.
    pub open spec fn round_of(&self, o: &SolverState, blame: Decision, r: FormulaUnitProp) -> bool {
        &&& o.wf()
        &&& o.can_propagate(blame)
        &&& self.round_frame(o)
        &&& match r {
            FormulaUnitProp::NoConflict => self.propagated() && watch_invariant(
                self.clauses@,
                self.assig@,
            ),
            FormulaUnitProp::Conflict { conflict_cause_idx } => self.conflict_at(
                conflict_cause_idx,
            ),
        }
        &&& o.propagated() ==> r is NoConflict && self.unchanged_from(o)
    }

    /// Assignment, trail, clauses and watch index are those of `o`.
    pub open spec fn unchanged_from(&self, o: &SolverState) -> bool {
        &&& self.assig@ == o.assig@
        &&& self.decision_stack@ == o.decision_stack@
        &&& self.clauses@ == o.clauses@
        &&& self.watchlist == o.watchlist
    }

    /// Clause `idx` has all its literals falsified.
    pub open spec fn falsified_at(&self, idx: usize) -> bool {
        &&& idx < self.clauses@.len()
        &&& all_falsified(self.clauses@[idx as int].literals@, self.assig@)
    }

    /// Clause `idx` has all its literals falsified, and above level 0 one
    /// of them at the level in effect.
    pub open spec fn violated_at(&self, idx: usize) -> bool {
        &&& idx < self.clauses@.len()
        &&& all_falsified(self.clauses@[idx as int].literals@, self.assig@)
        &&& self.level >= 1 ==> has_level(
            self.clauses@[idx as int].literals@,
            self.assig@,
            self.level as nat,
        )
    }

    /// Every watch falsified below the level in effect has a satisfied
    /// partner that was assigned no later.
    pub open spec fn settled_below(&self) -> bool {
        watch_inv(self.clauses@, self.assig@, self.level as nat)
    }

    /// Clause `idx` has all its literals falsified, one of them at the level
    /// in effect, and every watch falsified below that level has a
    /// satisfied partner.
    pub open spec fn conflict_at(&self, idx: usize) -> bool {
        &&& idx < self.clauses@.len()
        &&& all_falsified(self.clauses@[idx as int].literals@, self.assig@)
        &&& has_level(self.clauses@[idx as int].literals@, self.assig@, self.level as nat)
        &&& self.settled_below()
    }

    /// Draws every consequence of `blame`, whose literal has just been made
    /// true.
    ///
    /// The clauses watching the negation of each new true literal are
    /// visited in turn; a clause whose other watch is falsified ends the
    /// round with `Conflict`, a clause that finds no other literal to watch
    /// puts its other watch on the worklist as a propagation. Without a
    /// conflict the round ends with `NoConflict` when the worklist is empty:
    /// then the two watches of every clause are both unassigned, or one of
    /// them is satisfied. With a conflict, the clause reported has all its
    /// literals falsified. Where moreover the literal of `blame` was made
    /// true at the level in effect and every other falsified watch had a
    /// satisfied partner that was assigned no later, the same holds of the
    /// partners after a round without conflict, and after a conflict one
    /// literal of the clause reported was falsified at the level in
    /// effect. A round that starts from a state in which propagation is
    /// complete changes nothing.
    #[verifier::rlimit(40)]
    pub fn unit_prop(&mut self, blame: &Decision) -> (r: FormulaUnitProp)
        requires
            old(self).wf(),
            old(self).may_propagate(*blame),
        ensures
            final(self).round_frame(old(self)),
            match r {
                FormulaUnitProp::NoConflict => watch_invariant(
                    final(self).clauses@,
                    final(self).assig@,
                ),
                FormulaUnitProp::Conflict { conflict_cause_idx } => final(self).falsified_at(
                    conflict_cause_idx,
                ),
            },
            old(self).can_propagate(*blame) ==> final(self).round_of(old(self), *blame, r),
            old(self).propagated() ==> r is NoConflict && final(self).unchanged_from(old(self)),
    {
        let ghost n = self.num_variables as nat;
        let ghost lv = self.level as nat;
        let ghost seed = blame.lit();
        let ghost strong = self.can_propagate(*blame);
        let ghost mut steps: Seq<Literal> = Seq::empty();
        self.unit_prop_ds.clear();
        self.unit_prop_ds.dq.push_back(*blame);
        let seed_code = blame.get_lit().dense_code();
        set_insert(&mut self.unit_prop_ds.seen, seed_code);
        let mut add_unit: bool = false;
        proof {
            assert(self.unit_prop_ds.dq@ =~= seq![*blame]);
            assert forall|l: Literal|
                1 <= l.var <= n && self.unit_prop_ds.seen@.contains(
                    #[trigger] l.code() as usize,
                ) implies queued(self.unit_prop_ds.dq@, l) || self.assig@[l.var as int] is Some by {
                assert(l == seed);
            }
            lemma_levels_below(self.decision_stack@, self.assig@, lv, n);
            lemma_count_assigned_bound(self.assig@);
            assert(self.decision_stack@.take(old(self).decision_stack@.len() as int)
                =~= old(self).decision_stack@);
            lemma_derivation_empty(self.clauses@, self.assig@, lv);
        }
        while self.unit_prop_ds.dq.len() > 0
            invariant
                derivation(self.clauses@, old(self).assig@, steps, lv),
                self.assig@ == applied(old(self).assig@, steps, lv),
                n == self.num_variables,
                lv == self.level,
                seed == blame.lit(),
                old(self).wf(),
                old(self).may_propagate(*blame),
                strong == old(self).can_propagate(*blame),
                self.round_frame(old(self)),
                seen_ok(self.unit_prop_ds.seen@, self.unit_prop_ds.dq@, self.assig@, n),
                add_unit ==> queue_ready(
                    self.unit_prop_ds.dq@,
                    self.clauses@,
                    self.assig@,
                    n,
                ),
                add_unit ==> queue_unassigned(self.unit_prop_ds.dq@, self.assig@),
                add_unit ==> queue_distinct(self.unit_prop_ds.dq@, self.unit_prop_ds.seen@),
                add_unit ==> between_rounds(
                    self.clauses@,
                    levelled(self.assig@, lv),
                    self.unit_prop_ds.dq@,
                    lv,
                ),
                strong && add_unit ==> between_rounds(
                    self.clauses@,
                    self.assig@,
                    self.unit_prop_ds.dq@,
                    lv,
                ),
                !add_unit ==> self.unit_prop_ds.dq@ == seq![*blame] && self.unchanged_from(
                    old(self),
                ),
                old(self).propagated() ==> self.unchanged_from(old(self)) && (add_unit
                    ==> self.unit_prop_ds.dq@.len() == 0),
            decreases
                    self.assig@.len() - count_assigned(self.assig@),
                    (if add_unit { 0int } else { 1int }),
                    self.unit_prop_ds.dq@.len(),
        {
            let ghost q0 = self.unit_prop_ds.dq@;
            let ghost a0 = self.assig@;
            let d = self.unit_prop_ds.dq.pop_front().unwrap();
            let unit = d.get_lit();
            proof {
                assert(self.unit_prop_ds.dq@ =~= q0.drop_first());
                lemma_levels_below(self.decision_stack@, self.assig@, lv, n);
                lemma_count_assigned_bound(self.assig@);
            }
            if add_unit {
                proof {
                    assert(entry_ready(q0[0], self.clauses@, a0, n));
                    assert(lit_unassigned(q0[0].lit(), a0));
                    let cl = self.clauses@[antecedent(d)].literals@;
                    assert(unit_under(cl, unit, a0));
                    assert forall|k: int| 0 <= k < cl.len() && (#[trigger] cl[k]).var
                        != unit.var implies lit_falsified(cl[k], a0) by {
                        assert(cl[k] != unit);
                    }
                    assert forall|k: int| 0 <= k < cl.len() && (#[trigger] cl[k]).var
                        == unit.var implies cl[k] == unit by {
                        if cl[k] != unit {
                            assert(lit_falsified(cl[k], a0));
                        }
                    }
                }
                proof {
                    assert(forced_at(self.clauses@, a0, unit));
                    lemma_derivation_push(self.clauses@, old(self).assig@, steps, lv, unit);
                    steps = steps.push(unit);
                }
                self.add_decision(&d);
                proof {
                    let a1 = self.assig@;
                    assert(grows_by(a0, a1, unit, lv));
                    assert(extends(a1, a0));
                    lemma_moved_grows(self.clauses@, old(self).clauses@, a0, a1);
                    lemma_levelled(a0, lv);
                    lemma_levelled(a1, lv);
                    assert(levelled(a1, lv) =~= levelled(a0, lv).update(
                        unit.var as int,
                        Some(AssigInfo { litsign: unit.sign, level: lv as usize }),
                    ));
                    lemma_round_start(
                        self.clauses@,
                        levelled(a0, lv),
                        levelled(a1, lv),
                        q0,
                        lv,
                        self.watchlist,
                        n,
                    );
                    if strong {
                        lemma_round_start(self.clauses@, a0, a1, q0, lv, self.watchlist, n);
                    }
                    lemma_dequeue_assigned(
                        q0,
                        self.clauses@,
                        a0,
                        a1,
                        lv,
                        n,
                        self.unit_prop_ds.seen@,
                        self.watchlist,
                    );
                    lemma_count_assigned_update(
                        a0,
                        unit.var as int,
                        Some(AssigInfo { litsign: unit.sign, level: lv as usize }),
                    );
                    lemma_count_assigned_bound(a1);
                    assert(self.decision_stack@.take(old(self).decision_stack@.len() as int)
                        =~= old(self).decision_stack@);
                }
            } else {
                proof {
                    assert(q0.drop_first() =~= Seq::<Decision>::empty());
                    lemma_awaits_levelled(self.clauses@, self.assig@, seed.negated(), lv);
                    lemma_round_start_seed(
                        self.clauses@,
                        levelled(self.assig@, lv),
                        lv,
                        seed.negated(),
                        self.watchlist,
                        n,
                    );
                    if strong {
                        lemma_round_start_seed(
                            self.clauses@,
                            self.assig@,
                            lv,
                            seed.negated(),
                            self.watchlist,
                            n,
                        );
                    }
                }
            }
            let f = unit.invert();
            let ghost a1 = self.assig@;
            let ghost la = levelled(a1, lv);
            proof {
                lemma_levelled(a1, lv);
            }
            let mut watch_idx: usize = 0;
            while watch_idx < self.watchlist.get_lit(&f).len()
                invariant
                    derivation(self.clauses@, old(self).assig@, steps, lv),
                    self.assig@ == applied(old(self).assig@, steps, lv),
                    n == self.num_variables,
                    lv == self.level,
                    old(self).wf(),
                    old(self).may_propagate(*blame),
                    strong == old(self).can_propagate(*blame),
                    self.round_frame(old(self)),
                    self.assig@ == a1,
                    la == levelled(a1, lv),
                    1 <= f.var <= n,
                    lit_falsified(f, a1),
                    strong ==> lit_level(f, a1) == lv,
                    crate::consistency::levels_below(a1, lv + 1),
                    watch_idx <= self.watchlist.list(f).len(),
                    seen_ok(self.unit_prop_ds.seen@, self.unit_prop_ds.dq@, self.assig@, n),
                    queue_ready(self.unit_prop_ds.dq@, self.clauses@, self.assig@, n),
                    queue_distinct(self.unit_prop_ds.dq@, self.unit_prop_ds.seen@),
                    queue_fresh(
                        self.unit_prop_ds.dq@,
                        self.assig@,
                        f,
                        self.watchlist.list(f),
                        watch_idx as int,
                    ),
                    round_inv(
                        self.clauses@,
                        la,
                        self.unit_prop_ds.dq@,
                        lv,
                        f,
                        self.watchlist.list(f),
                        watch_idx as int,
                    ),
                    strong ==> round_inv(
                        self.clauses@,
                        self.assig@,
                        self.unit_prop_ds.dq@,
                        lv,
                        f,
                        self.watchlist.list(f),
                        watch_idx as int,
                    ),
                    old(self).propagated() ==> self.unchanged_from(old(self))
                        && self.unit_prop_ds.dq@.len() == 0,
                decreases self.watchlist.list(f).len() - watch_idx,
            {
                let clause_idx = self.watchlist.get_lit(&f)[watch_idx];
                let ghost c0 = self.clauses@;
                let ghost w0 = self.watchlist;
                let ghost rest = self.watchlist.list(f);
                let ghost q = self.unit_prop_ds.dq@;
                let ghost seen0 = self.unit_prop_ds.seen@;
                proof {
                    assert(list_ok(w0, c0, f));
                    assert(watched_by(c0, rest[watch_idx as int], f));
                    assert(c0[clause_idx as int].wf(n));
                    lemma_levelled(a1, lv);
                }
                let res = self.clauses[clause_idx].unit_prop(&self.assig, &f);
                proof {
                    if old(self).propagated() {
                        assert(crate::consistency::clause_watch_ok(
                            c0[clause_idx as int],
                            a1,
                            lv + 1,
                        ));
                    }
                }
                match res {
                    ClauseUnitProp::Reassigned { old_watch, new_watch } => {
                        self.watchlist.remove_watch(&old_watch, watch_idx);
                        let ghost w1 = self.watchlist;
                        self.watchlist.add_to_list(&new_watch, clause_idx);
                        proof {
                            let c2 = self.clauses@;
                            assert(c2[clause_idx as int].wf(n));
                            assert forall|i: int| 0 <= i < c2.len() implies watch_kept(
                                #[trigger] c2[i],
                                old(self).clauses@[i],
                                a1,
                            ) by {
                                assert(watch_kept(c0[i], old(self).clauses@[i], a1));
                                assert(c0[i].same_but_watches(&old(self).clauses@[i]));
                            }
                            lemma_move_watch(
                                w0,
                                w1,
                                self.watchlist,
                                c0,
                                c2,
                                f,
                                new_watch,
                                watch_idx as int,
                                n,
                            );
                            lemma_step_reassigned(c0, c2, la, q, lv, f, rest, watch_idx as int);
                            if strong {
                                lemma_step_reassigned(c0, c2, a1, q, lv, f, rest, watch_idx as int);
                            }
                            assert(same_clauses(c2, c0));
                            lemma_fresh_reassigned(q, c0, a1, n, f, rest, watch_idx as int);
                            lemma_queue_ready_same_literals(q, c0, c2, a1, n);
                            lemma_justified_same_literals(self.decision_stack@, a1, c0, c2);
                            lemma_coverage_stable(self.formula@, c0, c2, a1, a1);
                            lemma_same_literals_within(c2, c0);
                            lemma_derivation_same_literals(c0, c2, old(self).assig@, steps, lv);
                            lemma_entails_frame(
                                self.formula@,
                                self.pure_units@,
                                n,
                                c0,
                                c2,
                                a1,
                                a1,
                            );
                            assert(self.watchlist.list(f) == w1.list(f));
                        }
                    },
                    ClauseUnitProp::Satisfied => {
                        proof {
                            assert(self.clauses@ =~= c0);
                            lemma_step_satisfied(c0, la, q, lv, f, rest, watch_idx as int);
                            if strong {
                                lemma_step_satisfied(c0, a1, q, lv, f, rest, watch_idx as int);
                            }
                            lemma_fresh_next(q, c0, a1, n, f, rest, watch_idx as int);
                        }
                        watch_idx = watch_idx + 1;
                    },
                    ClauseUnitProp::Unit { lit } => {
                        proof {
                            assert(self.clauses@ =~= c0);
                            lemma_fresh_next(q, c0, a1, n, f, rest, watch_idx as int);
                        }
                        let code = lit.dense_code();
                        if !set_contains(&self.unit_prop_ds.seen, code)
                            && !self.assig.contains_key(&lit.var) {
                            let nd = Decision::make_unitprop(lit, clause_idx);
                            self.unit_prop_ds.dq.push_back(nd);
                            set_insert(&mut self.unit_prop_ds.seen, code);
                            proof {
                                let q2 = q.push(nd);
                                assert(self.unit_prop_ds.dq@ =~= q2);
                                assert forall|y: Literal| queued(q, y) implies queued(q2, y) by {
                                    lemma_queued_push(q, nd, y);
                                }
                                lemma_queued_push(q, nd, lit);
                                lemma_step_unit(c0, la, q, q2, lv, f, rest, watch_idx as int, n);
                                if strong {
                                    lemma_step_unit(
                                        c0,
                                        a1,
                                        q,
                                        q2,
                                        lv,
                                        f,
                                        rest,
                                        watch_idx as int,
                                        n,
                                    );
                                }
                                lemma_enqueue(q, nd, c0, a1, n, seen0);
                                lemma_fresh_push(q, nd, a1, f, rest, watch_idx + 1);
                            }
                        } else {
                            proof {
                                lemma_step_unit(c0, la, q, q, lv, f, rest, watch_idx as int, n);
                                if strong {
                                    lemma_step_unit(c0, a1, q, q, lv, f, rest, watch_idx as int, n);
                                }
                            }
                        }
                        watch_idx = watch_idx + 1;
                    },
                    ClauseUnitProp::Conflict => {
                        proof {
                            assert(self.clauses@ =~= c0);
                            lemma_step_conflict(c0, la, q, lv, f, rest, watch_idx as int, n);
                            let cl = c0[clause_idx as int].literals@;
                            assert forall|k: int| 0 <= k < cl.len() implies lit_falsified(
                                #[trigger] cl[k],
                                a1,
                            ) by {
                                assert(lit_falsified(cl[k], la));
                            }
                            if strong {
                                lemma_round_gives_watch_inv(
                                    c0,
                                    a1,
                                    q,
                                    lv,
                                    f,
                                    rest,
                                    watch_idx as int,
                                );
                                let k = choose|k: int| 0 <= k < cl.len() && cl[k] == f;
                                assert(lit_falsified(cl[k], a1) && lit_level(cl[k], a1) == lv);
                            }
                        }
                        return FormulaUnitProp::Conflict { conflict_cause_idx: clause_idx };
                    },
                }
            }
            proof {
                lemma_round_end(
                    self.clauses@,
                    la,
                    self.unit_prop_ds.dq@,
                    lv,
                    f,
                    self.watchlist.list(f),
                    watch_idx as int,
                );
                if strong {
                    lemma_round_end(
                        self.clauses@,
                        self.assig@,
                        self.unit_prop_ds.dq@,
                        lv,
                        f,
                        self.watchlist.list(f),
                        watch_idx as int,
                    );
                }
                lemma_fresh_end(
                    self.unit_prop_ds.dq@,
                    self.assig@,
                    f,
                    self.watchlist.list(f),
                    watch_idx as int,
                );
            }
            add_unit = true;
        }
        proof {
            assert(self.unit_prop_ds.dq@ =~= Seq::<Decision>::empty());
            lemma_round_closed(self.clauses@, levelled(self.assig@, lv), lv);
            lemma_levelled_sound(self.clauses@, self.assig@, lv, n);
            if strong {
                lemma_round_closed(self.clauses@, self.assig@, lv);
            }
        }
        FormulaUnitProp::NoConflict
    }
}

} // verus!

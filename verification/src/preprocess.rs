//! Preprocessing at level 0: unit closure, removal of settled clauses and
//! pure-literal elimination.

use vstd::prelude::*;
use crate::assig::{
    count_assigned, lemma_count_assigned_bound, lemma_count_assigned_update, lit_falsified,
    lit_level, lit_satisfied, lit_unassigned, literal_satisfied, literal_unassigned, AssigInfo,
    AssigModel,
};
use crate::clause::{all_falsified, clause_sat, is_replacement, moved_watch, Clause};
use crate::consistency::{
    clause_watch_ok, clauses_ok, deleted_ok, extends, levels_below, rewatched_all, root_sat,
    same_but_marks, slot_below, watch_inv, watched_in_order,
};
use crate::decision::Decision;
use crate::heuristic::VSIDS;
use crate::learn::{lemma_retained, retained};
use crate::literal::{Literal, MAX_VARIABLE};
use crate::round::{
    applied, derivation, derived, forced_at, lemma_derivation_empty, lemma_derivation_push,
    lemma_derivation_same_literals, unit_under,
};
use crate::semantics::{
    lemma_entails_frame, lemma_root_conflict, lemma_same_literals_within, lemma_unit_entailed,
    satisfiable,
};
use crate::solver::{lemma_levels_below, lemma_watches_same_watches, FormulaPreprocess, SolverState};
use crate::trail_lemmas::lemma_justified_same_literals;

verus! {

/// Two literals of the clause are unassigned.
pub open spec fn two_free(lits: Seq<Literal>, a: AssigModel) -> bool {
    exists|j: int, k: int|
        0 <= j < k < lits.len() && lit_unassigned(#[trigger] lits[j], a) && lit_unassigned(
            #[trigger] lits[k],
            a,
        )
}

/// No clause is violated or unit: each has a satisfied literal or two
/// unassigned ones.
pub open spec fn root_closed(c: Seq<Clause>, a: AssigModel) -> bool {
    forall|i: int|
        0 <= i < c.len() ==> clause_sat((#[trigger] c[i]).literals@, a) || two_free(
            c[i].literals@,
            a,
        )
}

/// Every clause has two unassigned literals and none that is satisfied.
pub open spec fn all_open(c: Seq<Clause>, a: AssigModel) -> bool {
    forall|i: int|
        0 <= i < c.len() ==> !clause_sat((#[trigger] c[i]).literals@, a) && two_free(
            c[i].literals@,
            a,
        )
}

/// The store with every clause that has a satisfied literal marked as
/// deleted.
pub open spec fn marked_sat(c: Seq<Clause>, a: AssigModel) -> Seq<Clause> {
    Seq::new(
        c.len(),
        |i: int| Clause { deleted: c[i].deleted || clause_sat(c[i].literals@, a), ..c[i] },
    )
}

/// The clauses that are neither marked as deleted nor satisfied, in their
/// order, with their watches reset.
pub open spec fn open_clauses(c: Seq<Clause>, a: AssigModel) -> Seq<Clause> {
    rewatched_all(retained(marked_sat(c, a), usize::MAX, true), a)
}

/// Some literal of the clause is a pure literal.
pub open spec fn has_pure(c: Seq<Clause>, a: AssigModel, lits: Seq<Literal>) -> bool {
    exists|k: int| 0 <= k < lits.len() && pure_literal(c, a, #[trigger] lits[k])
}

/// The store with every clause that contains a pure literal marked as
/// deleted.
pub open spec fn marked_pure(c: Seq<Clause>, a: AssigModel) -> Seq<Clause> {
    Seq::new(
        c.len(),
        |i: int| Clause { deleted: c[i].deleted || has_pure(c, a, c[i].literals@), ..c[i] },
    )
}

/// The assignment with every pure literal made a fact of level 0.
pub open spec fn with_pure(c: Seq<Clause>, a: AssigModel) -> AssigModel {
    Seq::new(
        a.len(),
        |v: int|
            if pure_literal(c, a, Literal { var: v as usize, sign: true }) {
                Some(AssigInfo { litsign: true, level: 0 })
            } else if pure_literal(c, a, Literal { var: v as usize, sign: false }) {
                Some(AssigInfo { litsign: false, level: 0 })
            } else {
                a[v]
            },
    )
}

/// Clause `i` is live and contains `l`.
pub open spec fn occurs_in(c: Seq<Clause>, i: int, l: Literal) -> bool {
    0 <= i < c.len() && !c[i].deleted && c[i].literals@.contains(l)
}

/// Some live clause contains `l`.
pub open spec fn occurs(c: Seq<Clause>, l: Literal) -> bool {
    exists|i: int| #[trigger] occurs_in(c, i, l)
}

/// Literal `l` is the one occurrence polarity of an unassigned pure
/// variable: pure-literal elimination makes it true.
pub open spec fn pure_literal(c: Seq<Clause>, a: AssigModel, l: Literal) -> bool {
    &&& l.var < a.len()
    &&& a[l.var as int] is None
    &&& occurs(c, l)
    &&& !occurs(c, l.negated())
}

/// What scanning one clause at level 0 finds.
pub enum RootScan {
    /// A literal is satisfied, or two are unassigned.
    Settled,
    /// Every literal but `lit` is falsified, and `lit` is unassigned.
    Forced { lit: Literal },
    /// Every literal is falsified.
    Falsified,
}

/// If some position outside the watches holds a literal that is not
/// falsified, there is a first such position.
pub proof fn lemma_least_free(lits: Seq<Literal>, a: AssigModel, w1: int, w2: int, p: int)
    requires
        0 <= p < lits.len(),
        p != w1,
        p != w2,
        !lit_falsified(lits[p], a),
    ensures
        exists|idx: int| is_replacement(lits, a, w1, w2, idx),
    decreases p,
{
    if forall|j: int| 0 <= j < p && j != w1 && j != w2 ==> lit_falsified(#[trigger] lits[j], a) {
        assert(is_replacement(lits, a, w1, w2, p));
    } else {
        let j = choose|j: int|
            0 <= j < p && j != w1 && j != w2 && !lit_falsified(#[trigger] lits[j], a);
        lemma_least_free(lits, a, w1, w2, j);
    }
}

/// Resetting the watches of a clause with two unassigned literals leaves
/// both watches on literals that are not falsified.
pub proof fn lemma_reset_opens_watches(cl: Clause, a: AssigModel)
    requires
        cl.watches_valid(a.len()),
        two_free(cl.literals@, a),
    ensures
        ({
            let (f, s) = cl.reset_watches(a);
            &&& 0 <= f < cl.literals@.len()
            &&& 0 <= s < cl.literals@.len()
            &&& f != s
            &&& !lit_falsified(cl.literals@[f], a)
            &&& !lit_falsified(cl.literals@[s], a)
            &&& cl.rewatched(a).w1 == f
            &&& cl.rewatched(a).w2 == s
        }),
{
    assert(cl.literals.len() == cl.literals@.len());
    let lits = cl.literals@;
    let w1 = cl.w1 as int;
    let w2 = cl.w2 as int;
    let (j, k) = choose|j: int, k: int|
        0 <= j < k < lits.len() && lit_unassigned(#[trigger] lits[j], a) && lit_unassigned(
            #[trigger] lits[k],
            a,
        );
    if lit_falsified(lits[w1], a) {
        let p = if j != w2 { j } else { k };
        lemma_least_free(lits, a, w1, w2, p);
    }
    let f = moved_watch(lits, a, w1, w2, w1);
    assert(0 <= f < lits.len() && !lit_falsified(lits[f], a));
    if lit_falsified(lits[w2], a) {
        let p = if j != f { j } else { k };
        lemma_least_free(lits, a, f, w2, p);
    }
}

impl SolverState {
    /// Scans clause `i` against the assignment.
    fn scan_clause(&self, i: usize) -> (r: RootScan)
        requires
            self.wf(),
            i < self.clauses@.len(),
        ensures
            match r {
                RootScan::Settled => clause_sat(self.clauses@[i as int].literals@, self.assig@)
                    || two_free(self.clauses@[i as int].literals@, self.assig@),
                RootScan::Forced { lit } => {
                    &&& 1 <= lit.var <= self.num_variables
                    &&& lit_unassigned(lit, self.assig@)
                    &&& self.clauses@[i as int].literals@.contains(lit)
                    &&& forall|k: int|
                        0 <= k < self.clauses@[i as int].literals@.len() && (
                        #[trigger] self.clauses@[i as int].literals@[k]) != lit ==> lit_falsified(
                            self.clauses@[i as int].literals@[k],
                            self.assig@,
                        )
                },
                RootScan::Falsified => all_falsified(
                    self.clauses@[i as int].literals@,
                    self.assig@,
                ),
            },
    {
        let ghost lits = self.clauses@[i as int].literals@;
        let ghost a = self.assig@;
        proof {
            assert(self.clauses@[i as int].wf(self.num_variables as nat));
        }
        let mut free: Option<usize> = None;
        let mut k: usize = 0;
        while k < self.clauses[i].literals.len()
            invariant
                k <= lits.len(),
                i < self.clauses@.len(),
                lits == self.clauses@[i as int].literals@,
                a == self.assig@,
                forall|j: int| 0 <= j < lits.len() ==> (#[trigger] lits[j]).var < a.len(),
                match free {
                    Some(u) => u < k && lit_unassigned(lits[u as int], a) && forall|j: int|
                        0 <= j < k && j != u ==> lit_falsified(#[trigger] lits[j], a),
                    None => forall|j: int| 0 <= j < k ==> lit_falsified(#[trigger] lits[j], a),
                },
            decreases lits.len() - k,
        {
            let l = self.clauses[i].literals[k];
            if literal_satisfied(&l, &self.assig) {
                proof {
                    assert(lit_satisfied(lits[k as int], a));
                }
                return RootScan::Settled;
            }
            if literal_unassigned(&l, &self.assig) {
                match free {
                    Some(u) => {
                        proof {
                            assert(lit_unassigned(lits[u as int], a) && lit_unassigned(
                                lits[k as int],
                                a,
                            ));
                        }
                        return RootScan::Settled;
                    },
                    None => {
                        free = Some(k);
                    },
                }
            }
            k = k + 1;
        }
        match free {
            Some(u) => {
                proof {
                    assert(lits[u as int] == self.clauses@[i as int].literals@[u as int]);
                    assert forall|j: int| 0 <= j < lits.len() && (#[trigger] lits[j])
                        != lits[u as int] implies lit_falsified(lits[j], a) by {
                        assert(j != u);
                    }
                }
                RootScan::Forced { lit: self.clauses[i].literals[u] }
            },
            None => RootScan::Falsified,
        }
    }

    /// Draws every consequence of the facts of level 0 by scanning the
    /// clauses until nothing changes: a clause with a single unassigned
    /// literal and no satisfied one makes that literal a fact. Returns the
    /// index of a clause whose literals are all falsified, if the scan
    /// meets one. Every new fact was forced when it was recorded.
    pub fn root_closure(&mut self) -> (r: Option<usize>)
        requires
            old(self).wf(),
            old(self).level == 0,
        ensures
            final(self).wf(),
            final(self).level == 0,
            final(self).same_setup(old(self)),
            final(self).watchlist == old(self).watchlist,
            final(self).decision_stack@ == old(self).decision_stack@,
            same_but_marks(final(self).clauses@, old(self).clauses@),
            extends(final(self).assig@, old(self).assig@),
            derived(final(self).clauses@, old(self).assig@, final(self).assig@, 0),
            forall|i: int|
                0 <= i < old(self).clauses@.len() && (#[trigger] old(self).clauses@[i]).deleted
                    ==> final(self).clauses@[i].deleted,
            match r {
                Some(idx) => idx < final(self).clauses@.len() && all_falsified(
                    final(self).clauses@[idx as int].literals@,
                    final(self).assig@,
                ) && !satisfiable(final(self).formula@, final(self).num_variables as nat),
                None => root_closed(final(self).clauses@, final(self).assig@),
            },
    {
        let ghost n = self.num_variables as nat;
        let ghost mut steps: Seq<Literal> = Seq::empty();
        proof {
            lemma_derivation_empty(self.clauses@, self.assig@, 0);
        }
        loop
            invariant
                forall|i: int|
                    0 <= i < old(self).clauses@.len() && (#[trigger] old(self).clauses@[i]).deleted
                        ==> self.clauses@[i].deleted,
                derivation(self.clauses@, old(self).assig@, steps, 0),
                self.assig@ == applied(old(self).assig@, steps, 0),
                n == self.num_variables,
                self.wf(),
                self.level == 0,
                self.same_setup(old(self)),
                self.watchlist == old(self).watchlist,
                self.decision_stack@ == old(self).decision_stack@,
                same_but_marks(self.clauses@, old(self).clauses@),
                extends(self.assig@, old(self).assig@),
            decreases self.assig@.len() - count_assigned(self.assig@),
        {
            let ghost a_pass = self.assig@;
            let mut changed: bool = false;
            let mut i: usize = 0;
            proof {
                lemma_count_assigned_bound(self.assig@);
            }
            while i < self.clauses.len()
                invariant
                    forall|i: int|
                        0 <= i < old(self).clauses@.len() && (
                        #[trigger] old(self).clauses@[i]).deleted ==> self.clauses@[i].deleted,
                    derivation(self.clauses@, old(self).assig@, steps, 0),
                    self.assig@ == applied(old(self).assig@, steps, 0),
                    i <= self.clauses@.len(),
                    n == self.num_variables,
                    self.wf(),
                    self.level == 0,
                    self.same_setup(old(self)),
                    self.watchlist == old(self).watchlist,
                    self.decision_stack@ == old(self).decision_stack@,
                    same_but_marks(self.clauses@, old(self).clauses@),
                    extends(self.assig@, old(self).assig@),
                    self.assig@.len() == a_pass.len(),
                    count_assigned(self.assig@) >= count_assigned(a_pass),
                    count_assigned(self.assig@) <= self.assig@.len(),
                    changed ==> count_assigned(self.assig@) > count_assigned(a_pass),
                    !changed ==> self.assig@ == a_pass && forall|j: int|
                        0 <= j < i ==> clause_sat((#[trigger] self.clauses@[j]).literals@, a_pass)
                            || two_free(self.clauses@[j].literals@, a_pass),
                decreases self.clauses@.len() - i,
            {
                match self.scan_clause(i) {
                    RootScan::Settled => {},
                    RootScan::Forced { lit } => {
                        let ghost a0 = self.assig@;
                        let ghost c0 = self.clauses@;
                        let d = Decision::make_assertunit(lit);
                        proof {
                            assert(c0[i as int].wf(n));
                            lemma_levels_below(self.decision_stack@, a0, 0, n);
                            let ls = c0[i as int].literals@;
                            let p = choose|p: int| 0 <= p < ls.len() && ls[p] == lit;
                            assert forall|k: int| 0 <= k < ls.len() && (#[trigger] ls[k]).var
                                == lit.var implies ls[k] == lit by {
                                if k != p {
                                    assert(ls[k].var != ls[p].var);
                                }
                            }
                            lemma_unit_entailed(
                                self.formula@,
                                self.pure_units@,
                                n,
                                c0,
                                a0,
                                i as int,
                                lit,
                            );
                            assert(unit_under(c0[i as int].literals@, lit, a0));
                            assert(forced_at(c0, a0, lit));
                            lemma_derivation_push(c0, old(self).assig@, steps, 0, lit);
                            steps = steps.push(lit);
                        }
                        self.add_decision(&d);
                        proof {
                            lemma_derivation_same_literals(
                                c0,
                                self.clauses@,
                                old(self).assig@,
                                steps,
                                0,
                            );
                            lemma_count_assigned_update(
                                a0,
                                lit.var as int,
                                Some(AssigInfo { litsign: lit.sign, level: 0 }),
                            );
                            lemma_count_assigned_bound(self.assig@);
                        }
                        changed = true;
                    },
                    RootScan::Falsified => {
                        proof {
                            lemma_levels_below(self.decision_stack@, self.assig@, 0, n);
                            lemma_root_conflict(
                                self.formula@,
                                self.pure_units@,
                                n,
                                self.clauses@,
                                self.assig@,
                                i as int,
                            );
                        }
                        return Some(i);
                    },
                }
                i = i + 1;
            }
            if !changed {
                return None;
            }
        }
    }

    /// Marks every clause with a satisfied literal as deleted. Meant for
    /// level 0, where a satisfied clause is settled for good.
    pub fn mark_satisfied_clauses(&mut self)
        requires
            old(self).wf(),
            old(self).level == 0,
        ensures
            final(self).wf(),
            final(self).same_setup(old(self)),
            final(self).assig == old(self).assig,
            final(self).level == old(self).level,
            final(self).decision_stack == old(self).decision_stack,
            final(self).watchlist == old(self).watchlist,
            final(self).unit_prop_ds == old(self).unit_prop_ds,
            same_but_marks(final(self).clauses@, old(self).clauses@),
            forall|i: int|
                0 <= i < old(self).clauses@.len() ==> (#[trigger] final(self).clauses@[i]).deleted
                    == (old(self).clauses@[i].deleted || clause_sat(
                    old(self).clauses@[i].literals@,
                    old(self).assig@,
                )),
            final(self).clauses@ == marked_sat(old(self).clauses@, old(self).assig@),
    {
        let ghost n = self.num_variables as nat;
        let ghost c0 = self.clauses@;
        let ghost a = self.assig@;
        proof {
            lemma_levels_below(self.decision_stack@, a, 0, n);
        }
        let mut i: usize = 0;
        while i < self.clauses.len()
            invariant
                i <= self.clauses@.len(),
                n == self.num_variables,
                c0 == old(self).clauses@,
                a == self.assig@,
                old(self).wf(),
                levels_below(a, 1),
                self.same_setup(old(self)),
                self.assig == old(self).assig,
                self.level == old(self).level,
                self.decision_stack == old(self).decision_stack,
                self.watchlist == old(self).watchlist,
                self.unit_prop_ds == old(self).unit_prop_ds,
                same_but_marks(self.clauses@, c0),
                forall|k: int|
                    0 <= k < i ==> (#[trigger] self.clauses@[k]).deleted == (c0[k].deleted
                        || clause_sat(c0[k].literals@, a)),
                forall|k: int|
                    i <= k < c0.len() ==> (#[trigger] self.clauses@[k]).deleted == c0[k].deleted,
            decreases self.clauses@.len() - i,
        {
            proof {
                assert(c0[i as int].wf(n));
            }
            if self.clauses[i].clause_satisfied(&self.assig) {
                self.clauses[i].deleted = true;
            }
            i = i + 1;
        }
        proof {
            let c1 = self.clauses@;
            assert(c1 =~= marked_sat(c0, a));
            assert forall|k: int| 0 <= k < c1.len() implies (#[trigger] c1[k]).wf(n) by {
                assert(c0[k].wf(n));
            }
            lemma_watches_same_watches(self.watchlist, c0, c1, n);
            lemma_justified_same_literals(self.decision_stack@, a, c0, c1);
            lemma_same_literals_within(c1, c0);
            lemma_entails_frame(self.formula@, self.pure_units@, n, c0, c1, a, a);
            assert forall|k: int| 0 <= k < c1.len() && (#[trigger] c1[k]).deleted implies root_sat(
                c1[k].literals@,
                a,
            ) by {
                if c0[k].deleted {
                    assert(root_sat(c0[k].literals@, a));
                } else {
                    let lits = c0[k].literals@;
                    let m = choose|m: int| 0 <= m < lits.len() && lit_satisfied(#[trigger] lits[m], a);
                    assert(slot_below(a[lits[m].var as int], 1));
                    assert(lit_satisfied(c1[k].literals@[m], a) && lit_level(c1[k].literals@[m], a) == 0);
                }
            }
            if !self.root_conflict {
                assert forall|j: int| 0 <= j < self.formula@.len() implies crate::consistency::covered(
                    #[trigger] self.formula@[j],
                    c1,
                    a,
                ) by {
                    assert(crate::consistency::covered(self.formula@[j], c0, a));
                    if !root_sat(self.formula@[j], a) {
                        let w = choose|w: int| #[trigger]
                            crate::consistency::stored_for(c0, self.formula@[j], w);
                        assert(crate::consistency::stored_for(c1, self.formula@[j], w));
                    }
                }
            }
        }
    }

    /// Removes the clauses marked as deleted and resets the watches of the
    /// others. The trail must be empty, as clauses change their index.
    pub fn remove_marked_clauses(&mut self)
        requires
            old(self).wf_core(),
            old(self).decision_stack@.len() == 0,
        ensures
            final(self).wf(),
            final(self).same_setup(old(self)),
            final(self).assig == old(self).assig,
            final(self).level == old(self).level,
            final(self).decision_stack == old(self).decision_stack,
            final(self).unit_prop_ds == old(self).unit_prop_ds,
            final(self).clauses@ == rewatched_all(
                retained(old(self).clauses@, usize::MAX, true),
                old(self).assig@,
            ),
            watched_in_order(
                final(self).watchlist,
                final(self).clauses@,
                final(self).num_variables as nat,
            ),
    {
        self.reduce_clauses(usize::MAX, true);
        self.reset_watchlist();
    }
}

/// Some live clause before position `i` contains `l`.
pub open spec fn occurs_before(c: Seq<Clause>, i: int, l: Literal) -> bool {
    exists|j: int| 0 <= j < i && #[trigger] occurs_in(c, j, l)
}

/// The tracker marks exactly the variables that occur with the given
/// polarity in live clauses before position `i`.
pub open spec fn tracks(t: Seq<bool>, c: Seq<Clause>, i: int, sign: bool) -> bool {
    forall|v: int|
        0 <= v < t.len() ==> #[trigger] t[v] == occurs_before(
            c,
            i,
            Literal { var: v as usize, sign },
        )
}

impl SolverState {
    /// Marks in `pos` and `neg` the variables of the literals of clause `i`.
    fn note_clause(&self, i: usize, pos: &mut Vec<bool>, neg: &mut Vec<bool>)
        requires
            self.wf(),
            i < self.clauses@.len(),
            old(pos)@.len() == self.num_variables + 1,
            old(neg)@.len() == self.num_variables + 1,
        ensures
            final(pos)@.len() == old(pos)@.len(),
            final(neg)@.len() == old(neg)@.len(),
            forall|v: int|
                0 <= v < old(pos)@.len() ==> #[trigger] final(pos)@[v] == (old(pos)@[v]
                    || self.clauses@[i as int].literals@.contains(
                    Literal { var: v as usize, sign: true },
                )),
            forall|v: int|
                0 <= v < old(neg)@.len() ==> #[trigger] final(neg)@[v] == (old(neg)@[v]
                    || self.clauses@[i as int].literals@.contains(
                    Literal { var: v as usize, sign: false },
                )),
    {
        let ghost lits = self.clauses@[i as int].literals@;
        let ghost n = self.num_variables as nat;
        proof {
            assert(self.clauses@[i as int].wf(n));
        }
        let mut k: usize = 0;
        while k < self.clauses[i].literals.len()
            invariant
                k <= lits.len(),
                i < self.clauses@.len(),
                lits == self.clauses@[i as int].literals@,
                n == self.num_variables,
                crate::clause::lits_in_range(lits, n),
                pos@.len() == n + 1,
                neg@.len() == n + 1,
                old(pos)@.len() == n + 1,
                old(neg)@.len() == n + 1,
                forall|v: int|
                    0 <= v <= n ==> #[trigger] pos@[v] == (old(pos)@[v] || exists|j: int|
                        0 <= j < k && lits[j] == (Literal { var: v as usize, sign: true })),
                forall|v: int|
                    0 <= v <= n ==> #[trigger] neg@[v] == (old(neg)@[v] || exists|j: int|
                        0 <= j < k && lits[j] == (Literal { var: v as usize, sign: false })),
            decreases lits.len() - k,
        {
            let lit = self.clauses[i].literals[k];
            let ghost pos0 = pos@;
            let ghost neg0 = neg@;
            if lit.is_negative() {
                neg.set(lit.var, true);
            } else {
                pos.set(lit.var, true);
            }
            proof {
                assert forall|v: int| 0 <= v <= n implies #[trigger] pos@[v] == (old(pos)@[v]
                    || exists|j: int|
                    0 <= j < k + 1 && lits[j] == (Literal { var: v as usize, sign: true })) by {
                    let l = Literal { var: v as usize, sign: true };
                    if exists|j: int| 0 <= j < k + 1 && lits[j] == l {
                        let j = choose|j: int| 0 <= j < k + 1 && lits[j] == l;
                        if j < k {
                            assert(exists|j: int| 0 <= j < k && lits[j] == l);
                        }
                    }
                    if pos0[v] && !old(pos)@[v] {
                        let j = choose|j: int| 0 <= j < k && lits[j] == l;
                        assert(0 <= j < k + 1 && lits[j] == l);
                    }
                    if pos@[v] && !pos0[v] {
                        assert(lits[k as int] == l);
                    }
                }
                assert forall|v: int| 0 <= v <= n implies #[trigger] neg@[v] == (old(neg)@[v]
                    || exists|j: int|
                    0 <= j < k + 1 && lits[j] == (Literal { var: v as usize, sign: false })) by {
                    let l = Literal { var: v as usize, sign: false };
                    if exists|j: int| 0 <= j < k + 1 && lits[j] == l {
                        let j = choose|j: int| 0 <= j < k + 1 && lits[j] == l;
                        if j < k {
                            assert(exists|j: int| 0 <= j < k && lits[j] == l);
                        }
                    }
                    if neg0[v] && !old(neg)@[v] {
                        let j = choose|j: int| 0 <= j < k && lits[j] == l;
                        assert(0 <= j < k + 1 && lits[j] == l);
                    }
                    if neg@[v] && !neg0[v] {
                        assert(lits[k as int] == l);
                    }
                }
            }
            k = k + 1;
        }
    }

    /// For each variable, whether it occurs positively and whether it
    /// occurs negatively in a live clause.
    fn polarity_tables(&self) -> (r: (Vec<bool>, Vec<bool>))
        requires
            self.wf(),
        ensures
            r.0@.len() == self.num_variables + 1,
            r.1@.len() == self.num_variables + 1,
            forall|v: int|
                0 <= v <= self.num_variables ==> #[trigger] r.0@[v] == occurs(
                    self.clauses@,
                    Literal { var: v as usize, sign: true },
                ),
            forall|v: int|
                0 <= v <= self.num_variables ==> #[trigger] r.1@[v] == occurs(
                    self.clauses@,
                    Literal { var: v as usize, sign: false },
                ),
    {
        let ghost c = self.clauses@;
        let ghost n = self.num_variables as nat;
        let mut pos: Vec<bool> = Vec::new();
        let mut neg: Vec<bool> = Vec::new();
        let mut v: usize = 0;
        while v <= self.num_variables
            invariant
                v <= self.num_variables + 1,
                self.num_variables <= MAX_VARIABLE,
                pos@.len() == v,
                neg@.len() == v,
                forall|w: int| 0 <= w < v ==> !pos@[w] && !neg@[w],
            decreases self.num_variables + 1 - v,
        {
            pos.push(false);
            neg.push(false);
            v = v + 1;
        }
        let mut i: usize = 0;
        while i < self.clauses.len()
            invariant
                i <= c.len(),
                c == self.clauses@,
                n == self.num_variables,
                self.wf(),
                pos@.len() == n + 1,
                neg@.len() == n + 1,
                tracks(pos@, c, i as int, true),
                tracks(neg@, c, i as int, false),
            decreases c.len() - i,
        {
            let ghost pos0 = pos@;
            let ghost neg0 = neg@;
            if !self.clauses[i].deleted {
                self.note_clause(i, &mut pos, &mut neg);
            }
            proof {
                lemma_occurs_step(c, i as int, i + 1);
                assert forall|w: int| 0 <= w < pos@.len() implies #[trigger] pos@[w]
                    == occurs_before(c, i + 1, Literal { var: w as usize, sign: true }) by {
                    assert(pos0[w] == occurs_before(
                        c,
                        i as int,
                        Literal { var: w as usize, sign: true },
                    ));
                }
                assert forall|w: int| 0 <= w < neg@.len() implies #[trigger] neg@[w]
                    == occurs_before(c, i + 1, Literal { var: w as usize, sign: false }) by {
                    assert(neg0[w] == occurs_before(
                        c,
                        i as int,
                        Literal { var: w as usize, sign: false },
                    ));
                }
            }
            i = i + 1;
        }
        proof {
            lemma_occurs_all(c, c.len() as int);
            assert forall|w: int| 0 <= w <= n implies #[trigger] pos@[w] == occurs(
                c,
                Literal { var: w as usize, sign: true },
            ) by {
                assert(pos@[w] == occurs_before(
                    c,
                    c.len() as int,
                    Literal { var: w as usize, sign: true },
                ));
            }
            assert forall|w: int| 0 <= w <= n implies #[trigger] neg@[w] == occurs(
                c,
                Literal { var: w as usize, sign: false },
            ) by {
                assert(neg@[w] == occurs_before(
                    c,
                    c.len() as int,
                    Literal { var: w as usize, sign: false },
                ));
            }
        }
        (pos, neg)
    }

    /// Makes every pure literal a fact of level 0: for each unassigned
    /// variable that occurs with only one polarity in the live clauses, the
    /// literal of that polarity becomes true, and the clauses that contain
    /// it are marked as deleted. Purity is judged once, on the clauses as
    /// they are at the start.
    pub fn pure_literal_elimination(&mut self)
        requires
            old(self).wf(),
            old(self).level == 0,
        ensures
            final(self).wf(),
            final(self).level == 0,
            final(self).same_config(old(self)),
            final(self).watchlist == old(self).watchlist,
            final(self).decision_stack@ == old(self).decision_stack@,
            same_but_marks(final(self).clauses@, old(self).clauses@),
            final(self).assig@.len() == old(self).assig@.len(),
            forall|v: int|
                0 <= v < old(self).assig@.len() ==> #[trigger] final(self).assig@[v] == (
                if pure_literal(
                    old(self).clauses@,
                    old(self).assig@,
                    Literal { var: v as usize, sign: true },
                ) {
                    Some(AssigInfo { litsign: true, level: 0 })
                } else if pure_literal(
                    old(self).clauses@,
                    old(self).assig@,
                    Literal { var: v as usize, sign: false },
                ) {
                    Some(AssigInfo { litsign: false, level: 0 })
                } else {
                    old(self).assig@[v]
                }),
            forall|i: int|
                0 <= i < old(self).clauses@.len() ==> (#[trigger] final(self).clauses@[i]).deleted
                    == (old(self).clauses@[i].deleted || exists|k: int|
                    0 <= k < old(self).clauses@[i].literals@.len() && pure_literal(
                        old(self).clauses@,
                        old(self).assig@,
                        #[trigger] old(self).clauses@[i].literals@[k],
                    )),
            final(self).assig@ == with_pure(old(self).clauses@, old(self).assig@),
            final(self).clauses@ == marked_pure(old(self).clauses@, old(self).assig@),
    {
        let ghost n = self.num_variables as nat;
        let ghost c0 = self.clauses@;
        let ghost a0 = self.assig@;
        let (pos, neg) = self.polarity_tables();
        let mut v: usize = 1;
        while v <= self.num_variables
            invariant
                1 <= v <= n + 1,
                n == self.num_variables,
                c0 == old(self).clauses@,
                a0 == old(self).assig@,
                old(self).wf(),
                self.wf(),
                self.level == 0,
                self.same_config(old(self)),
                self.watchlist == old(self).watchlist,
                self.decision_stack@ == old(self).decision_stack@,
                same_but_marks(self.clauses@, c0),
                self.assig@.len() == a0.len(),
                pos@.len() == n + 1,
                neg@.len() == n + 1,
                forall|w: int|
                    0 <= w <= n ==> #[trigger] pos@[w] == occurs(
                        c0,
                        Literal { var: w as usize, sign: true },
                    ),
                forall|w: int|
                    0 <= w <= n ==> #[trigger] neg@[w] == occurs(
                        c0,
                        Literal { var: w as usize, sign: false },
                    ),
                forall|w: int| v <= w <= n ==> self.assig@[w] == a0[w],
                self.assig@[0] == a0[0],
                forall|w: int|
                    1 <= w < v ==> #[trigger] self.assig@[w] == (if pure_literal(
                        c0,
                        a0,
                        Literal { var: w as usize, sign: true },
                    ) {
                        Some(AssigInfo { litsign: true, level: 0 })
                    } else if pure_literal(c0, a0, Literal { var: w as usize, sign: false }) {
                        Some(AssigInfo { litsign: false, level: 0 })
                    } else {
                        a0[w]
                    }),
                forall|i: int|
                    0 <= i < c0.len() ==> (#[trigger] self.clauses@[i]).deleted == (c0[i].deleted
                        || exists|k: int|
                        0 <= k < c0[i].literals@.len() && (#[trigger] c0[i].literals@[k]).var < v
                            && pure_literal(c0, a0, c0[i].literals@[k])),
            decreases n + 1 - v,
        {
            let p = pos[v];
            let q = neg[v];
            let ghost c1 = self.clauses@;
            let ghost lp = Literal { var: v, sign: true };
            let ghost ln = Literal { var: v, sign: false };
            proof {
                assert(lp.negated() == ln);
                assert(ln.negated() == lp);
            }
            if p != q && self.assig.get(&v).is_none() {
                let lit = Literal { var: v, sign: p };
                let d = Decision::make_assertunit(lit);
                proof {
                    assert(pure_literal(c0, a0, lit));
                    assert forall|i: int|
                        0 <= i < c1.len() && !(#[trigger] c1[i]).deleted implies !c1[i].literals@.contains(
                        lit.negated(),
                    ) by {
                        assert(c1[i].literals@ == c0[i].literals@);
                        if c1[i].literals@.contains(lit.negated()) {
                            assert(!c0[i].deleted);
                            assert(occurs_in(c0, i, lit.negated()));
                        }
                    }
                    assert(self.assumable(lit));
                }
                self.add_decision(&d);
                proof {
                    assert(pure_literal(c0, a0, lit));
                    assert forall|i: int| 0 <= i < c0.len() implies (
                    #[trigger] self.clauses@[i]).deleted == (c0[i].deleted || exists|k: int|
                        0 <= k < c0[i].literals@.len() && (#[trigger] c0[i].literals@[k]).var < v
                            + 1 && pure_literal(c0, a0, c0[i].literals@[k])) by {
                        let ls = c0[i].literals@;
                        assert(c1[i].literals@ == ls);
                        if c1[i].literals@.contains(lit) {
                            let k = choose|k: int| 0 <= k < ls.len() && ls[k] == lit;
                            assert(ls[k].var < v + 1 && pure_literal(c0, a0, ls[k]));
                        }
                        if exists|k: int|
                            0 <= k < ls.len() && (#[trigger] ls[k]).var < v + 1 && pure_literal(
                                c0,
                                a0,
                                ls[k],
                            ) {
                            let k = choose|k: int|
                                0 <= k < ls.len() && (#[trigger] ls[k]).var < v + 1
                                    && pure_literal(c0, a0, ls[k]);
                            if ls[k].var == v {
                                assert(ls[k] == lit);
                                assert(ls.contains(lit));
                            }
                        }
                    }
                }
            } else {
                proof {
                    assert(!pure_literal(c0, a0, lp));
                    assert(!pure_literal(c0, a0, ln));
                    assert forall|i: int| 0 <= i < c0.len() implies (
                    #[trigger] self.clauses@[i]).deleted == (c0[i].deleted || exists|k: int|
                        0 <= k < c0[i].literals@.len() && (#[trigger] c0[i].literals@[k]).var < v
                            + 1 && pure_literal(c0, a0, c0[i].literals@[k])) by {
                        let ls = c0[i].literals@;
                        if exists|k: int|
                            0 <= k < ls.len() && (#[trigger] ls[k]).var < v + 1 && pure_literal(
                                c0,
                                a0,
                                ls[k],
                            ) {
                            let k = choose|k: int|
                                0 <= k < ls.len() && (#[trigger] ls[k]).var < v + 1
                                    && pure_literal(c0, a0, ls[k]);
                            assert(ls[k].var != v) by {
                                if ls[k].var == v {
                                    assert(ls[k] == lp || ls[k] == ln);
                                }
                            }
                            assert(ls[k].var < v);
                        }
                    }
                }
            }
            v = v + 1;
        }
        proof {
            assert forall|w: int| 0 <= w < a0.len() implies #[trigger] self.assig@[w] == (
            if pure_literal(c0, a0, Literal { var: w as usize, sign: true }) {
                Some(AssigInfo { litsign: true, level: 0 })
            } else if pure_literal(c0, a0, Literal { var: w as usize, sign: false }) {
                Some(AssigInfo { litsign: false, level: 0 })
            } else {
                a0[w]
            }) by {
                if w == 0 {
                    lemma_never_occurs(c0, n, Literal { var: 0, sign: true });
                    lemma_never_occurs(c0, n, Literal { var: 0, sign: false });
                }
            }
            assert forall|i: int| 0 <= i < c0.len() implies (#[trigger] self.clauses@[i]).deleted
                == (c0[i].deleted || exists|k: int|
                0 <= k < c0[i].literals@.len() && pure_literal(
                    c0,
                    a0,
                    #[trigger] c0[i].literals@[k],
                )) by {
                let ls = c0[i].literals@;
                assert(c0[i].wf(n));
                if exists|k: int| 0 <= k < ls.len() && pure_literal(c0, a0, #[trigger] ls[k]) {
                    let k = choose|k: int| 0 <= k < ls.len() && pure_literal(c0, a0, #[trigger] ls[k]);
                    assert(ls[k].var < n + 1);
                }
            }
            assert(self.assig@ =~= with_pure(c0, a0));
            assert(self.clauses@ =~= marked_pure(c0, a0));
        }
    }
}

/// A literal occurs before position `i + 1` if it occurs before `i` or in
/// clause `i`.
pub proof fn lemma_occurs_step(c: Seq<Clause>, i: int, next: int)
    requires
        next == i + 1,
    ensures
        forall|l: Literal| #[trigger]
            occurs_before(c, next, l) == (occurs_before(c, i, l) || occurs_in(c, i, l)),
{
    assert forall|l: Literal| #[trigger]
        occurs_before(c, next, l) == (occurs_before(c, i, l) || occurs_in(c, i, l)) by {
        if occurs_before(c, next, l) {
            let j = choose|j: int| 0 <= j < next && #[trigger] occurs_in(c, j, l);
            if j < i {
                assert(occurs_before(c, i, l));
            }
        }
        if occurs_before(c, i, l) {
            let j = choose|j: int| 0 <= j < i && #[trigger] occurs_in(c, j, l);
            assert(0 <= j < next && occurs_in(c, j, l));
        }
        if occurs_in(c, i, l) {
            assert(0 <= i < next && occurs_in(c, i, l));
        }
    }
}

/// A literal occurs if it occurs before the end of the store.
pub proof fn lemma_occurs_all(c: Seq<Clause>, end: int)
    requires
        end == c.len(),
    ensures
        forall|l: Literal| #[trigger] occurs_before(c, end, l) == occurs(c, l),
{
    assert forall|l: Literal| #[trigger] occurs_before(c, end, l) == occurs(c, l) by {
        if occurs(c, l) {
            let j = choose|j: int| #[trigger] occurs_in(c, j, l);
            assert(0 <= j < end && occurs_in(c, j, l));
        }
        if occurs_before(c, end, l) {
            let j = choose|j: int| 0 <= j < end && #[trigger] occurs_in(c, j, l);
            assert(occurs_in(c, j, l));
        }
    }
}

/// A literal whose variable is outside `1..=n` occurs in no clause.
pub proof fn lemma_never_occurs(c: Seq<Clause>, n: nat, l: Literal)
    requires
        clauses_ok(c, n),
        l.var == 0 || l.var > n,
    ensures
        !occurs(c, l),
{
    if occurs(c, l) {
        let i = choose|i: int| #[trigger] occurs_in(c, i, l);
        assert(c[i].wf(n));
        let k = choose|k: int| 0 <= k < c[i].literals@.len() && c[i].literals@[k] == l;
        assert(1 <= c[i].literals@[k].var <= n);
    }
}

/// Marks that only settle clauses which the assignment satisfies anyway
/// make no difference once satisfied clauses are marked.
pub proof fn lemma_marks_absorbed(c0: Seq<Clause>, c1: Seq<Clause>, a: AssigModel)
    requires
        same_but_marks(c1, c0),
        deleted_ok(c1, a),
        forall|i: int| 0 <= i < c0.len() && (#[trigger] c0[i]).deleted ==> c1[i].deleted,
    ensures
        marked_sat(c1, a) == marked_sat(c0, a),
{
    assert forall|i: int| 0 <= i < c0.len() implies marked_sat(c1, a)[i] == marked_sat(c0, a)[i] by {
        assert(c1[i] == (Clause { deleted: c1[i].deleted, ..c0[i] }));
        if c1[i].deleted {
            assert(root_sat(c1[i].literals@, a));
            let k = choose|k: int|
                0 <= k < c1[i].literals@.len() && lit_satisfied(#[trigger] c1[i].literals@[k], a)
                    && lit_level(c1[i].literals@[k], a) == 0;
            assert(lit_satisfied(c0[i].literals@[k], a));
        }
    }
    assert(marked_sat(c1, a) =~= marked_sat(c0, a));
}

/// Once the facts of level 0 are closed under propagation, the clauses
/// that are left open each have two unassigned literals and none that is
/// satisfied.
pub proof fn lemma_open_clauses(c: Seq<Clause>, a: AssigModel, n: nat)
    requires
        clauses_ok(c, n),
        a.len() == n + 1,
        root_closed(c, a),
    ensures
        clauses_ok(open_clauses(c, a), n),
        all_open(open_clauses(c, a), a),
        forall|i: int| 0 <= i < open_clauses(c, a).len() ==> !(#[trigger] open_clauses(c, a)[i]).deleted,
{
    let m = marked_sat(c, a);
    let r = retained(m, usize::MAX, true);
    let o = open_clauses(c, a);
    lemma_retained(m, usize::MAX, true);
    assert forall|i: int| 0 <= i < o.len() implies (#[trigger] o[i]).wf(n) && !clause_sat(
        o[i].literals@,
        a,
    ) && two_free(o[i].literals@, a) && !o[i].deleted by {
        assert(m.contains(r[i]));
        let j = choose|j: int| 0 <= j < m.len() && m[j] == r[i];
        assert(c[j].wf(n));
        assert(!m[j].deleted);
        assert(r[i].literals@ == c[j].literals@);
        assert(clause_sat(c[j].literals@, a) || two_free(c[j].literals@, a));
        assert(r[i].watches_valid(a.len()));
        lemma_reset_opens_watches(r[i], a);
        assert(o[i] == r[i].rewatched(a));
        assert(o[i].literals@ == c[j].literals@);
    }
}

/// The clauses that stay live through pure-literal elimination contain no
/// variable that it assigns: they remain open, and with their watches
/// reset propagation is complete.
pub proof fn lemma_after_pure(c: Seq<Clause>, a: AssigModel, n: nat)
    requires
        clauses_ok(c, n),
        n < usize::MAX,
        a.len() == n + 1,
        all_open(c, a),
        forall|i: int| 0 <= i < c.len() ==> !(#[trigger] c[i]).deleted,
    ensures
        ({
            let b = with_pure(c, a);
            let d = rewatched_all(retained(marked_pure(c, a), usize::MAX, true), b);
            &&& extends(b, a)
            &&& all_open(d, b)
            &&& watch_inv(d, b, 1)
            &&& forall|i: int| 0 <= i < d.len() ==> !(#[trigger] d[i]).deleted
        }),
{
    let b = with_pure(c, a);
    let m = marked_pure(c, a);
    let r = retained(m, usize::MAX, true);
    let d = rewatched_all(r, b);
    lemma_retained(m, usize::MAX, true);
    assert forall|v: int| 0 <= v < a.len() && (#[trigger] a[v]) is Some implies b[v] == a[v] by {
        assert(!pure_literal(c, a, Literal { var: v as usize, sign: true }));
        assert(!pure_literal(c, a, Literal { var: v as usize, sign: false }));
    }
    assert forall|i: int| 0 <= i < d.len() implies !clause_sat((#[trigger] d[i]).literals@, b)
        && two_free(d[i].literals@, b) && !d[i].deleted && clause_watch_ok(d[i], b, 1) by {
        assert(m.contains(r[i]));
        let j = choose|j: int| 0 <= j < m.len() && m[j] == r[i];
        let ls = c[j].literals@;
        assert(c[j].wf(n));
        assert(!m[j].deleted);
        assert(!has_pure(c, a, ls));
        assert(r[i].literals@ == ls);
        assert forall|k: int| 0 <= k < ls.len() implies b[(#[trigger] ls[k]).var as int]
            == a[ls[k].var as int] by {
            let x = ls[k];
            assert(!pure_literal(c, a, x));
            assert(occurs_in(c, j, x));
            assert(occurs(c, x));
            let lp = Literal { var: x.var, sign: true };
            let ln = Literal { var: x.var, sign: false };
            assert(lp.negated() == ln && ln.negated() == lp);
            assert(x == lp || x == ln);
        }
        assert(!clause_sat(ls, a) && two_free(ls, a));
        let (p, q) = choose|p: int, q: int|
            0 <= p < q < ls.len() && lit_unassigned(#[trigger] ls[p], a) && lit_unassigned(
                #[trigger] ls[q],
                a,
            );
        assert(lit_unassigned(ls[p], b) && lit_unassigned(ls[q], b));
        if clause_sat(ls, b) {
            let w = choose|w: int| 0 <= w < ls.len() && lit_satisfied(#[trigger] ls[w], b);
            assert(lit_satisfied(ls[w], a));
        }
        assert(r[i].watches_valid(b.len()));
        lemma_reset_opens_watches(r[i], b);
        assert(d[i] == r[i].rewatched(b));
        assert(d[i].literals@ == ls);
        assert(!lit_falsified(d[i].watch1(), b));
        assert(!lit_falsified(d[i].watch2(), b));
    }
}

impl SolverState {
    /// `self` is `o` prepared for the search, `a1` being the assignment once
    /// the facts of level 0 were closed under propagation, and `hs` the
    /// states of the heuristic as it counted the clauses that are left.
    ///
    /// The clauses that `a1` leaves open are kept, with their watches
    /// reset. Among them every pure literal is made a fact, and the clauses
    /// that contain one are dropped; the watches of the others are reset
    /// once more. The watch index lists the clauses in their order, and
    /// the heuristic has counted them and recomputed its selection order.
    pub open spec fn prepared_from(&self, o: &SolverState, a1: AssigModel, hs: Seq<VSIDS>) -> bool {
        let kept = open_clauses(o.clauses@, a1);
        &&& derived(o.clauses@, o.assig@, a1, 0)
        &&& root_closed(o.clauses@, a1)
        &&& self.assig@ == with_pure(kept, a1)
        &&& self.clauses@ == rewatched_all(
            retained(marked_pure(kept, a1), usize::MAX, true),
            self.assig@,
        )
        &&& watched_in_order(self.watchlist, self.clauses@, self.num_variables as nat)
        &&& hs.len() >= 1
        &&& hs[0] == o.decision_heuristic
        &&& VSIDS::counted_through(hs, self.clauses@)
        &&& self.decision_heuristic.resorted(&hs.last())
        &&& self.clauses_since_deletion == o.clauses_since_deletion
        &&& self.min_num_conflict_restart == o.min_num_conflict_restart
        &&& self.max_num_conflict_restart == o.max_num_conflict_restart
        &&& self.cur_num_conflict_restart == o.cur_num_conflict_restart
    }

    /// Prepares the formula for the search, at level 0.
    ///
    /// The consequences of the facts of level 0 are drawn; clauses that
    /// they satisfy are dropped; each pure literal becomes a fact and the
    /// clauses that contain it are dropped; the watches are reset and the
    /// watch index rebuilt; and the heuristic counts the clauses that are
    /// left. The answer is `TrivialUNSAT` if two unit clauses contradict
    /// each other or the facts of level 0 falsify a clause, and `Ready`
    /// otherwise.
    pub fn preprocess(&mut self) -> (r: FormulaPreprocess)
        requires
            old(self).wf(),
            old(self).decision_stack@.len() == 0,
        ensures
            final(self).wf(),
            final(self).level == 0,
            final(self).decision_stack@.len() == 0,
            final(self).num_variables == old(self).num_variables,
            final(self).formula@ == old(self).formula@,
            final(self).root_conflict == old(self).root_conflict,
            extends(final(self).assig@, old(self).assig@),
            match r {
                FormulaPreprocess::TrivialUNSAT => {
                    &&& !satisfiable(final(self).formula@, final(self).num_variables as nat)
                    &&& final(self).decision_heuristic == old(self).decision_heuristic
                    &&& same_but_marks(final(self).clauses@, old(self).clauses@)
                    &&& derived(final(self).clauses@, old(self).assig@, final(self).assig@, 0)
                    &&& (final(self).root_conflict || exists|i: int|
                        0 <= i < final(self).clauses@.len() && all_falsified(
                            (#[trigger] final(self).clauses@[i]).literals@,
                            final(self).assig@,
                        ))
                },
                FormulaPreprocess::Ready => {
                    &&& !final(self).root_conflict
                    &&& final(self).propagated()
                    &&& all_open(final(self).clauses@, final(self).assig@)
                    &&& forall|i: int|
                        0 <= i < final(self).clauses@.len() ==> !(
                        #[trigger] final(self).clauses@[i]).deleted
                    &&& exists|a1: AssigModel, hs: Seq<VSIDS>| #[trigger]
                        final(self).prepared_from(old(self), a1, hs)
                },
            },
    {
        let ghost n = self.num_variables as nat;
        let ghost c0 = self.clauses@;
        let ghost a0 = self.assig@;
        if self.root_conflict {
            proof {
                lemma_derivation_empty(c0, a0, 0);
            }
            return FormulaPreprocess::TrivialUNSAT;
        }
        match self.root_closure() {
            Some(idx) => {
                return FormulaPreprocess::TrivialUNSAT;
            },
            None => {},
        }
        let ghost a1 = self.assig@;
        let ghost c1 = self.clauses@;
        proof {
            let steps = choose|steps: Seq<Literal>| #[trigger]
                derivation(c1, a0, steps, 0) && a1 == applied(a0, steps, 0);
            lemma_derivation_same_literals(c1, c0, a0, steps, 0);
            assert(root_closed(c0, a1)) by {
                assert forall|i: int| 0 <= i < c0.len() implies clause_sat(
                    (#[trigger] c0[i]).literals@,
                    a1,
                ) || two_free(c0[i].literals@, a1) by {
                    assert(c1[i].literals@ == c0[i].literals@);
                }
            }
            lemma_marks_absorbed(c0, c1, a1);
            lemma_open_clauses(c0, a1, n);
        }
        self.mark_satisfied_clauses();
        self.remove_marked_clauses();
        let ghost c3 = self.clauses@;
        proof {
            assert(c3 == open_clauses(c0, a1));
            lemma_after_pure(c3, a1, n);
        }
        self.pure_literal_elimination();
        let ghost a4 = self.assig@;
        self.remove_marked_clauses();
        let ghost c5 = self.clauses@;
        let ghost mut hs: Seq<VSIDS> = Seq::empty().push(self.decision_heuristic);
        let mut i: usize = 0;
        while i < self.clauses.len()
            invariant
                i <= self.clauses@.len(),
                n == self.num_variables,
                self.wf(),
                self.level == 0,
                self.decision_stack@.len() == 0,
                self.clauses@ == c5,
                self.assig@ == a4,
                self.formula@ == old(self).formula@,
                self.root_conflict == old(self).root_conflict,
                self.clauses_since_deletion == old(self).clauses_since_deletion,
                self.min_num_conflict_restart == old(self).min_num_conflict_restart,
                self.max_num_conflict_restart == old(self).max_num_conflict_restart,
                self.cur_num_conflict_restart == old(self).cur_num_conflict_restart,
                watched_in_order(self.watchlist, c5, n),
                hs.len() == i + 1,
                hs[0] == old(self).decision_heuristic,
                hs.last() == self.decision_heuristic,
                forall|k: int| 0 <= k < i ==> (#[trigger] hs[k + 1]).credited(&hs[k], c5[k].literals@),
            decreases self.clauses@.len() - i,
        {
            let ghost before = hs;
            proof {
                assert(self.clauses@[i as int].wf(n));
            }
            self.decision_heuristic.add_clause(&self.clauses[i]);
            proof {
                hs = hs.push(self.decision_heuristic);
                assert forall|k: int| 0 <= k < i + 1 implies (#[trigger] hs[k + 1]).credited(
                    &hs[k],
                    c5[k].literals@,
                ) by {
                    if k < i {
                        assert(hs[k + 1] == before[k + 1]);
                        assert(hs[k] == before[k]);
                    } else {
                        assert(hs[k] == before.last());
                    }
                }
            }
            i = i + 1;
        }
        self.decision_heuristic.sort_var_order();
        proof {
            assert(VSIDS::counted_through(hs, c5));
            assert(self.prepared_from(old(self), a1, hs));
        }
        FormulaPreprocess::Ready
    }
}

} // verus!

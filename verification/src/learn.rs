//! Learned clauses: checking and storing them, and discarding those of
//! little value.

use vstd::prelude::*;
use rustc_hash::FxHashSet;
use crate::assig::{
    lit_falsified, lit_level, lit_satisfied, lit_unassigned, literal_falsified, literal_unassigned,
    AssigModel,
};
use crate::clause::{all_falsified, lits_in_range, others_falsified, vars_distinct, Clause};
use crate::consistency::{
    clause_watch_ok, clauses_ok, covered, deleted_ok, formula_covered, root_sat, stored_for,
    watch_inv,
};
use crate::fx::set_insert;
use crate::literal::{Literal, MAX_VARIABLE};
use crate::semantics::{clause_entailed, lemma_entails_push_clause};
use crate::solver::SolverState;
use crate::store::{lemma_push_clause_watches, lemma_push_keeps_coverage};
use crate::trail_lemmas::lemma_justified_same_literals;

verus! {

/// The literals are pairwise different; exactly the one at position `k` is
/// unassigned, and all the others are falsified.
pub open spec fn asserting_at(lits: Seq<Literal>, a: AssigModel, k: int) -> bool {
    &&& 0 <= k < lits.len()
    &&& lit_unassigned(lits[k], a)
    &&& others_falsified(lits, k, a)
}

/// A clause fit to be learned: its literals are pairwise different, exactly
/// one of them is unassigned and all the others are falsified.
pub open spec fn asserting(lits: Seq<Literal>, a: AssigModel) -> bool {
    &&& lits.no_duplicates()
    &&& exists|k: int| asserting_at(lits, a, k)
}

/// The variable of the literal is assigned at `level`.
pub open spec fn at_level(l: Literal, a: AssigModel, level: nat) -> bool {
    l.var < a.len() && a[l.var as int] is Some && lit_level(l, a) == level
}

/// Position `k` is the first whose literal is assigned at `level`.
pub open spec fn first_at_level(lits: Seq<Literal>, a: AssigModel, level: nat, k: int) -> bool {
    &&& 0 <= k < lits.len()
    &&& at_level(lits[k], a, level)
    &&& forall|j: int| 0 <= j < k ==> !at_level(#[trigger] lits[j], a, level)
}

/// Whether a clause survives a reduction of the store: a learned clause
/// goes when its LBD is above `ceiling`, and a clause marked as deleted
/// goes when `drop_marked` is set.
pub open spec fn keeps(cl: Clause, ceiling: usize, drop_marked: bool) -> bool {
    &&& !(drop_marked && cl.deleted)
    &&& (!cl.conflict || cl.lbd <= ceiling)
}

/// The clauses that survive a reduction, in their order.
pub open spec fn retained(c: Seq<Clause>, ceiling: usize, drop_marked: bool) -> Seq<Clause>
    decreases c.len(),
{
    if c.len() == 0 {
        Seq::empty()
    } else {
        let r = retained(c.drop_last(), ceiling, drop_marked);
        if keeps(c.last(), ceiling, drop_marked) {
            r.push(c.last())
        } else {
            r
        }
    }
}

/// The retained clauses are clauses of the store that survive, and every
/// surviving clause of the store is retained.
pub proof fn lemma_retained(c: Seq<Clause>, ceiling: usize, drop_marked: bool)
    ensures
        retained(c, ceiling, drop_marked).len() <= c.len(),
        forall|i: int|
            0 <= i < retained(c, ceiling, drop_marked).len() ==> c.contains(
                #[trigger] retained(c, ceiling, drop_marked)[i],
            ) && keeps(retained(c, ceiling, drop_marked)[i], ceiling, drop_marked),
        forall|j: int|
            0 <= j < c.len() && keeps(#[trigger] c[j], ceiling, drop_marked) ==> retained(
                c,
                ceiling,
                drop_marked,
            ).contains(c[j]),
    decreases c.len(),
{
    if c.len() > 0 {
        let p = c.drop_last();
        lemma_retained(p, ceiling, drop_marked);
        let r = retained(c, ceiling, drop_marked);
        let rp = retained(p, ceiling, drop_marked);
        assert forall|i: int| 0 <= i < r.len() implies c.contains(#[trigger] r[i]) && keeps(
            r[i],
            ceiling,
            drop_marked,
        ) by {
            if i < rp.len() {
                assert(r[i] == rp[i]);
                assert(p.contains(rp[i]));
                let j = choose|j: int| 0 <= j < p.len() && p[j] == rp[i];
                assert(c[j] == p[j]);
            } else {
                assert(r[i] == c[c.len() - 1]);
            }
        }
        assert forall|j: int|
            0 <= j < c.len() && keeps(#[trigger] c[j], ceiling, drop_marked) implies r.contains(
            c[j],
        ) by {
            if j < p.len() {
                assert(p[j] == c[j]);
                assert(rp.contains(p[j]));
                let i = choose|i: int| 0 <= i < rp.len() && rp[i] == p[j];
                assert(r[i] == rp[i]);
            } else {
                assert(r[r.len() - 1] == c[j]);
            }
        }
    }
}

/// A reduction of the store keeps what the invariant says of the clauses,
/// provided the trail is empty.
pub proof fn lemma_retained_keeps(
    f: Seq<Seq<Literal>>,
    c: Seq<Clause>,
    a: AssigModel,
    ceiling: usize,
    drop_marked: bool,
    n: nat,
    k: nat,
)
    requires
        clauses_ok(c, n),
        deleted_ok(c, a),
    ensures
        clauses_ok(retained(c, ceiling, drop_marked), n),
        deleted_ok(retained(c, ceiling, drop_marked), a),
        formula_covered(f, c, a) ==> formula_covered(f, retained(c, ceiling, drop_marked), a),
        watch_inv(c, a, k) ==> watch_inv(retained(c, ceiling, drop_marked), a, k),
{
    let r = retained(c, ceiling, drop_marked);
    lemma_retained(c, ceiling, drop_marked);
    assert forall|i: int| 0 <= i < r.len() implies (#[trigger] r[i]).wf(n) by {
        let j = choose|j: int| 0 <= j < c.len() && c[j] == r[i];
        assert(c[j].wf(n));
    }
    assert forall|i: int| 0 <= i < r.len() && (#[trigger] r[i]).deleted implies root_sat(
        r[i].literals@,
        a,
    ) by {
        let j = choose|j: int| 0 <= j < c.len() && c[j] == r[i];
        assert(c[j].deleted);
    }
    if formula_covered(f, c, a) {
        assert forall|j: int| 0 <= j < f.len() implies covered(#[trigger] f[j], r, a) by {
            assert(covered(f[j], c, a));
            if !root_sat(f[j], a) {
                let i = choose|i: int| #[trigger] stored_for(c, f[j], i);
                if keeps(c[i], ceiling, drop_marked) {
                    assert(r.contains(c[i]));
                    let m = choose|m: int| 0 <= m < r.len() && r[m] == c[i];
                    assert(stored_for(r, f[j], m));
                } else {
                    assert(c[i].deleted);
                    assert(root_sat(c[i].literals@, a));
                    let k2 = choose|k2: int|
                        0 <= k2 < c[i].literals@.len() && lit_satisfied(
                            #[trigger] c[i].literals@[k2],
                            a,
                        ) && lit_level(c[i].literals@[k2], a) == 0;
                    assert(f[j].contains(c[i].literals@[k2]));
                    let m = choose|m: int| 0 <= m < f[j].len() && f[j][m] == c[i].literals@[k2];
                    assert(lit_satisfied(f[j][m], a));
                }
            }
        }
    }
    if watch_inv(c, a, k) {
        assert forall|i: int| 0 <= i < r.len() implies clause_watch_ok(#[trigger] r[i], a, k) by {
            let j = choose|j: int| 0 <= j < c.len() && c[j] == r[i];
            assert(clause_watch_ok(c[j], a, k));
        }
    }
}

impl SolverState {
    /// A clause with the literals `lits`, asserting `uip`, may be learned:
    /// it has at least two literals over distinct variables and is true in
    /// every model of the formula; `uip` is its one unassigned literal, the
    /// others are falsified, and one of them at the level in effect.
    pub open spec fn can_learn(&self, clause: Clause, uip: Literal) -> bool {
        &&& clause.literals@.len() >= 2
        &&& lits_in_range(clause.literals@, self.num_variables as nat)
        &&& vars_distinct(clause.literals@)
        &&& clause.conflict
        &&& !clause.deleted
        &&& clause_entailed(
            self.formula@,
            self.pure_units@,
            self.num_variables as nat,
            clause.literals@,
        )
        &&& exists|k: int| asserting_at(clause.literals@, self.assig@, k) && clause.literals@[k] == uip
        &&& exists|k: int|
            0 <= k < clause.literals@.len() && at_level(
                #[trigger] clause.literals@[k],
                self.assig@,
                self.level as nat,
            )
    }

    /// Whether `clause` has all its literals falsified. The check only
    /// answers: a caller for which a failed check is fatal halts on `false`
    /// itself.
    pub fn check_conflict_clause(&self, conflict_clause: &Clause) -> (r: bool)
        requires
            forall|i: int|
                0 <= i < conflict_clause.literals@.len() ==> (
                #[trigger] conflict_clause.literals@[i]).var < self.assig@.len(),
        ensures
            r == all_falsified(conflict_clause.literals@, self.assig@),
    {
        crate::clause::check_all_falsified(conflict_clause, &self.assig)
    }

    /// Whether `new_clause` is fit to be learned: its literals are pairwise
    /// different, exactly one is unassigned and all the others are
    /// falsified. The check only answers: a caller for which a failed check
    /// is fatal halts on `false` itself.
    pub fn check_new_clause(&self, new_clause: &Clause) -> (r: bool)
        requires
            forall|i: int|
                0 <= i < new_clause.literals@.len() ==> (#[trigger] new_clause.literals@[i]).var
                    < self.assig@.len() && new_clause.literals@[i].var <= MAX_VARIABLE,
        ensures
            r == asserting(new_clause.literals@, self.assig@),
    {
        let ghost lits = new_clause.literals@;
        let ghost a = self.assig@;
        // pairwise different
        let mut seen: FxHashSet<usize> = FxHashSet::default();
        let mut i: usize = 0;
        while i < new_clause.literals.len()
            invariant
                i <= lits.len(),
                lits == new_clause.literals@,
                forall|k: int| 0 <= k < lits.len() ==> (#[trigger] lits[k]).var <= MAX_VARIABLE,
                forall|c: usize|
                    seen@.contains(c) <==> exists|k: int|
                        0 <= k < i && (#[trigger] lits[k]).code() == c,
                forall|j: int, k: int| 0 <= j < k < i ==> lits[j] != lits[k],
            decreases lits.len() - i,
        {
            let code = new_clause.literals[i].dense_code();
            let ghost before = seen@;
            if !set_insert(&mut seen, code) {
                proof {
                    let k = choose|k: int| 0 <= k < i && (#[trigger] lits[k]).code() == code;
                    assert(lits[k] == lits[i as int]);
                }
                return false;
            }
            proof {
                assert forall|c: usize| seen@.contains(c) <==> exists|k: int|
                    0 <= k < i + 1 && (#[trigger] lits[k]).code() == c by {
                    if seen@.contains(c) {
                        if c == code {
                            assert(lits[i as int].code() == c);
                        } else {
                            assert(before.contains(c));
                            let k = choose|k: int| 0 <= k < i && (#[trigger] lits[k]).code() == c;
                            assert(0 <= k < i + 1 && lits[k].code() == c);
                        }
                    }
                    if exists|k: int| 0 <= k < i + 1 && (#[trigger] lits[k]).code() == c {
                        let k = choose|k: int| 0 <= k < i + 1 && (#[trigger] lits[k]).code() == c;
                        if k < i {
                            assert(before.contains(c));
                        }
                    }
                }
                assert forall|j: int, k: int| 0 <= j < k < i + 1 implies lits[j] != lits[k] by {
                    if k == i && lits[j] == lits[k] {
                        assert(lits[j].code() == code);
                        assert(before.contains(code));
                    }
                }
            }
            i = i + 1;
        }
        // the unassigned literal
        let mut found: Option<usize> = None;
        let mut j: usize = 0;
        while j < new_clause.literals.len()
            invariant
                j <= lits.len(),
                lits == new_clause.literals@,
                a == self.assig@,
                forall|k: int| 0 <= k < lits.len() ==> (#[trigger] lits[k]).var < a.len(),
                match found {
                    Some(u) => u < j && lit_unassigned(lits[u as int], a) && forall|k: int|
                        0 <= k < j && k != u ==> lit_falsified(#[trigger] lits[k], a),
                    None => forall|k: int| 0 <= k < j ==> lit_falsified(#[trigger] lits[k], a),
                },
            decreases lits.len() - j,
        {
            let l = new_clause.literals[j];
            if literal_unassigned(&l, &self.assig) {
                if found.is_some() {
                    proof {
                        let u = found->Some_0 as int;
                        assert forall|k: int| !asserting_at(lits, a, k) by {
                            if asserting_at(lits, a, k) {
                                if k != u {
                                    assert(lit_falsified(lits[u], a));
                                } else {
                                    assert(lit_falsified(lits[j as int], a));
                                }
                            }
                        }
                    }
                    return false;
                }
                found = Some(j);
            } else if !literal_falsified(&l, &self.assig) {
                proof {
                    assert forall|k: int| !asserting_at(lits, a, k) by {
                        if asserting_at(lits, a, k) {
                            if k != j {
                                assert(lit_falsified(lits[j as int], a));
                            }
                        }
                    }
                }
                return false;
            }
            j = j + 1;
        }
        match found {
            Some(u) => {
                proof {
                    assert(asserting_at(lits, a, u as int));
                }
                true
            },
            None => {
                proof {
                    assert forall|k: int| !asserting_at(lits, a, k) by {
                        if asserting_at(lits, a, k) {
                            assert(lit_falsified(lits[k], a));
                        }
                    }
                }
                false
            },
        }
    }

    /// Builds the clause to learn from `clause_lits`, whose last literal is
    /// the asserting one; it watches its first and its last literal.
    pub fn create_conflict_clause(&self, clause_lits: Vec<Literal>, lbd: usize) -> (r: Clause)
        requires
            clause_lits@.len() >= 1,
        ensures
            r.literals@ == clause_lits@,
            r.w1 == 0,
            r.w2 == clause_lits@.len() - 1,
            !r.deleted,
            r.conflict,
            r.lbd == lbd,
    {
        let uip_idx = clause_lits.len() - 1;
        Clause { literals: clause_lits, w1: 0, w2: uip_idx, deleted: false, conflict: true, lbd }
    }

    /// Stores a learned clause. It watches the first of its literals that is
    /// assigned at the level in effect, and its asserting literal `uip`. The
    /// clause is counted by the heuristic and by the restart policy.
    pub fn add_conflict_clause(&mut self, clause: Clause, uip: Literal)
        requires
            old(self).wf(),
            old(self).can_learn(clause, uip),
        ensures
            final(self).wf(),
            final(self).num_variables == old(self).num_variables,
            final(self).formula@ == old(self).formula@,
            final(self).pure_units@ == old(self).pure_units@,
            final(self).root_conflict == old(self).root_conflict,
            final(self).assig == old(self).assig,
            final(self).level == old(self).level,
            final(self).decision_stack == old(self).decision_stack,
            final(self).min_num_conflict_restart == old(self).min_num_conflict_restart,
            final(self).max_num_conflict_restart == old(self).max_num_conflict_restart,
            final(self).cur_num_conflict_restart == old(self).cur_num_conflict_restart,
            final(self).clauses_since_deletion == (if old(self).clauses_since_deletion
                == usize::MAX {
                usize::MAX
            } else {
                (old(self).clauses_since_deletion + 1) as usize
            }),
            final(self).decision_heuristic.credited(
                &old(self).decision_heuristic,
                clause.literals@,
            ),
            final(self).clauses@.len() == old(self).clauses@.len() + 1,
            forall|i: int|
                0 <= i < old(self).clauses@.len() ==> final(self).clauses@[i] == old(
                    self,
                ).clauses@[i],
            final(self).clauses@.last().same_but_watches(&clause),
            first_at_level(
                clause.literals@,
                old(self).assig@,
                old(self).level as nat,
                final(self).clauses@.last().w1 as int,
            ),
            final(self).clauses@.last().watch2() == uip,
            final(self).watchlist.watched_more(
                &old(self).watchlist,
                final(self).clauses@.last(),
                old(self).clauses@.len() as usize,
            ),
    {
        let ghost n = self.num_variables as nat;
        let ghost c0 = self.clauses@;
        let ghost w0 = self.watchlist;
        let ghost a = self.assig@;
        let ghost lits = clause.literals@;
        let mut clause = clause;
        if self.clauses_since_deletion < usize::MAX {
            self.clauses_since_deletion = self.clauses_since_deletion + 1;
        }
        // the first literal assigned at the level in effect
        let mut level_pos: usize = 0;
        while level_pos < clause.literals.len() && !self.assigned_at_level(&clause.literals[level_pos])
            invariant
                level_pos <= lits.len(),
                lits == clause.literals@,
                a == self.assig@,
                self.level == old(self).level,
                lits_in_range(lits, n),
                a.len() == n + 1,
                forall|j: int| 0 <= j < level_pos ==> !at_level(#[trigger] lits[j], a, self.level as nat),
            decreases lits.len() - level_pos,
        {
            level_pos = level_pos + 1;
        }
        // the asserting literal
        let mut unit_pos: usize = 0;
        while unit_pos < clause.literals.len() && clause.literals[unit_pos] != uip
            invariant
                unit_pos <= lits.len(),
                lits == clause.literals@,
                forall|j: int| 0 <= j < unit_pos ==> lits[j] != uip,
            decreases lits.len() - unit_pos,
        {
            unit_pos = unit_pos + 1;
        }
        proof {
            let k1 = choose|k: int| 0 <= k < lits.len() && at_level(#[trigger] lits[k], a, self.level as nat);
            assert(level_pos < lits.len());
            let k2 = choose|k: int| asserting_at(lits, a, k) && lits[k] == uip;
            assert(unit_pos < lits.len());
            assert(lit_unassigned(lits[unit_pos as int], a));
            assert(level_pos != unit_pos);
        }
        clause.w1 = level_pos;
        clause.w2 = unit_pos;
        self.decision_heuristic.add_clause(&clause);
        let idx = self.clauses.len();
        let l1 = clause.literals[clause.w1];
        let l2 = clause.literals[clause.w2];
        self.watchlist.add_to_list(&l1, idx);
        let ghost w1 = self.watchlist;
        self.watchlist.add_to_list(&l2, idx);
        let ghost cl = clause;
        self.clauses.push(clause);
        // the index of the new clause fits in usize
        let stored = self.clauses.len();
        proof {
            assert(cl.wf(n));
            assert(self.clauses@ =~= c0.push(cl));
            lemma_push_clause_watches(w0, w1, self.watchlist, c0, cl, n);
            assert(self.watchlist.watched_more(&w0, cl, c0.len() as usize)) by {
                assert(cl.watch1().var != cl.watch2().var);
                assert forall|l: Literal|
                    l.var < w0.watchlist@.len() implies #[trigger] self.watchlist.list(l) == (
                if l == cl.watch1() || l == cl.watch2() {
                    w0.list(l).push(c0.len() as usize)
                } else {
                    w0.list(l)
                }) by {
                    if l != cl.watch1() {
                        assert(w1.list(l) == w0.list(l));
                    }
                    if l != cl.watch2() {
                        assert(self.watchlist.list(l) == w1.list(l));
                    }
                }
            }
            lemma_justified_same_literals(self.decision_stack@, self.assig@, c0, self.clauses@);
            lemma_push_keeps_coverage(self.formula@, c0, cl, self.assig@);
            lemma_entails_push_clause(self.formula@, self.pure_units@, n, c0, cl, self.assig@);
        }
    }

    /// Whether the variable of `lit` is assigned at the level in effect.
    pub fn assigned_at_level(&self, lit: &Literal) -> (r: bool)
        requires
            lit.var < self.assig@.len(),
        ensures
            r == at_level(*lit, self.assig@, self.level as nat),
    {
        match self.assig.get(&lit.var) {
            Some(info) => info.level == self.level,
            None => false,
        }
    }

    /// Discards learned clauses whose LBD is above `ceiling` and, if
    /// `drop_marked` is set, clauses marked as deleted. The other clauses
    /// keep their order. The trail must be empty, as clauses change their
    /// index; the watch index is left to be rebuilt.
    pub fn reduce_clauses(&mut self, ceiling: usize, drop_marked: bool)
        requires
            old(self).wf_core(),
            old(self).decision_stack@.len() == 0,
        ensures
            final(self).wf_core(),
            final(self).same_setup(old(self)),
            final(self).assig == old(self).assig,
            final(self).level == old(self).level,
            final(self).decision_stack == old(self).decision_stack,
            final(self).unit_prop_ds == old(self).unit_prop_ds,
            final(self).watchlist == old(self).watchlist,
            final(self).clauses@ == retained(old(self).clauses@, ceiling, drop_marked),
            old(self).propagated() ==> final(self).propagated(),
    {
        let ghost c0 = self.clauses@;
        let ghost n = self.num_variables as nat;
        let mut all: Vec<Clause> = Vec::new();
        std::mem::swap(&mut all, &mut self.clauses);
        let mut kept: Vec<Clause> = Vec::new();
        let ghost mut done: int = 0;
        for cl in it: all
            invariant
                it.seq() == c0,
                done == it.index(),
                kept@ == retained(c0.take(done), ceiling, drop_marked),
        {
            proof {
                assert(c0.take(done + 1).drop_last() =~= c0.take(done));
                done = done + 1;
            }
            if !(drop_marked && cl.deleted) && (!cl.conflict || cl.lbd <= ceiling) {
                kept.push(cl);
            }
        }
        self.clauses = kept;
        proof {
            assert(c0.take(c0.len() as int) =~= c0);
            lemma_retained(c0, ceiling, drop_marked);
            lemma_retained_keeps(
                self.formula@,
                c0,
                self.assig@,
                ceiling,
                drop_marked,
                n,
                (self.level + 1) as nat,
            );
        }
    }
}

} // verus!

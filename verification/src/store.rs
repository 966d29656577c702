//! Adding clauses to the store, and rebuilding the watch index.

use vstd::prelude::*;
use rustc_hash::FxHashSet;
use crate::assig::AssigModel;
use crate::clause::{vars_distinct, Clause};
use crate::consistency::{
    clauses_ok, covered, deleted_ok, formula_covered, in_both_lists, lemma_watchers_prefix, list_ok,
    rewatched_all, same_clauses, stored_for, watched_by, watched_in_order, watchers, watches_ok,
};
use crate::fx::set_insert;
use crate::literal::Literal;
use crate::solver::SolverState;
use crate::trail_lemmas::{lemma_coverage_stable, lemma_justified_same_literals};
use crate::semantics::{
    clause_entailed, entails, ext_satisfiable, is_model, lemma_entails_more,
    lemma_entails_push_clause, satisfiable, val_clause, val_formula, val_true,
};
use crate::watch::WatchList;

verus! {

/// Appending a clause to the store and its index to the lists of its two
/// watched literals keeps the watch index and the clauses in agreement.
pub proof fn lemma_push_clause_watches(
    w0: WatchList,
    w1: WatchList,
    w2: WatchList,
    c: Seq<Clause>,
    cl: Clause,
    n: nat,
)
    requires
        watches_ok(w0, c, n),
        clauses_ok(c, n),
        cl.wf(n),
        c.len() < usize::MAX,
        w1.list(cl.watch1()) == w0.list(cl.watch1()).push(c.len() as usize),
        w1.same_except(&w0, cl.watch1()),
        w2.list(cl.watch2()) == w1.list(cl.watch2()).push(c.len() as usize),
        w2.same_except(&w1, cl.watch2()),
    ensures
        watches_ok(w2, c.push(cl), n),
{
    let c2 = c.push(cl);
    let x = cl.watch1();
    let y = cl.watch2();
    let idx = c.len() as usize;
    assert(x.var != y.var);
    assert(w1.list(y) == w0.list(y));
    assert(w2.list(x) == w1.list(x));
    assert forall|l: Literal| l.var <= n implies #[trigger] list_ok(w2, c2, l) by {
        assert(list_ok(w0, c, l));
        if l != x && l != y {
            assert(w1.list(l) == w0.list(l));
            assert(w2.list(l) == w1.list(l));
        }
        assert forall|k: int| 0 <= k < w2.list(l).len() implies watched_by(
            c2,
            #[trigger] w2.list(l)[k],
            l,
        ) by {
            if k < w0.list(l).len() {
                assert(watched_by(c, w0.list(l)[k], l));
                assert(c2[w0.list(l)[k] as int] == c[w0.list(l)[k] as int]);
            } else {
                assert(w2.list(l)[k] == idx);
                assert(c2[idx as int] == cl);
            }
        }
        assert forall|i: int, j: int| 0 <= i < j < w2.list(l).len() implies w2.list(l)[i]
            != w2.list(l)[j] by {
            if j >= w0.list(l).len() {
                assert(watched_by(c, w0.list(l)[i], l));
            }
        }
    }
    assert forall|i: int| 0 <= i < c2.len() implies #[trigger] in_both_lists(w2, c2, i) by {
        if i < c.len() {
            assert(in_both_lists(w0, c, i));
            assert(c2[i] == c[i]);
            assert forall|l: Literal| w0.list(l).contains(i as usize) && l.var <= n implies w2.list(
                l,
            ).contains(i as usize) by {
                let p = choose|p: int| 0 <= p < w0.list(l).len() && w0.list(l)[p] == i as usize;
                if l != x && l != y {
                    assert(w1.list(l) == w0.list(l));
                    assert(w2.list(l) == w1.list(l));
                }
                assert(w2.list(l)[p] == i as usize);
            }
            assert(c[i].wf(n));
        } else {
            assert(c2[i] == cl);
            assert(w2.list(x)[w0.list(x).len() as int] == idx);
            assert(w2.list(y)[w1.list(y).len() as int] == idx);
        }
    }
}

/// When the index of clause `k` is appended to the lists of the two
/// literals that it watches, lists that held the watchers below `k` hold
/// the watchers below `k + 1`.
pub proof fn lemma_lists_grow(
    w0: WatchList,
    w1: WatchList,
    w2: WatchList,
    c: Seq<Clause>,
    k: int,
    n: nat,
)
    requires
        0 <= k < c.len(),
        k <= usize::MAX,
        c[k].wf(n),
        w0.watchlist@.len() == n + 1,
        forall|l: Literal| l.var <= n ==> #[trigger] w0.list(l) == watchers(c, k, l),
        w1.list(c[k].watch1()) == w0.list(c[k].watch1()).push(k as usize),
        w1.same_except(&w0, c[k].watch1()),
        w2.list(c[k].watch2()) == w1.list(c[k].watch2()).push(k as usize),
        w2.same_except(&w1, c[k].watch2()),
    ensures
        forall|l: Literal| l.var <= n ==> #[trigger] w2.list(l) == watchers(c, k + 1, l),
{
    let x = c[k].watch1();
    let y = c[k].watch2();
    assert(x.var != y.var);
    assert forall|l: Literal| l.var <= n implies #[trigger] w2.list(l) == watchers(c, k + 1, l) by {
        assert(w0.list(l) == watchers(c, k, l));
        if l != x {
            assert(w1.list(l) == w0.list(l));
        }
        if l != y {
            assert(w2.list(l) == w1.list(l));
        }
    }
}

impl SolverState {
    /// Whether no variable occurs twice in `clause`. The check only answers:
    /// a caller for which a failed check is fatal halts on `false` itself.
    pub fn check_clause_lits_unique(&self, clause: &Clause) -> (r: bool)
        ensures
            r == vars_distinct(clause.literals@),
    {
        let mut seen: FxHashSet<usize> = FxHashSet::default();
        let mut i: usize = 0;
        while i < clause.literals.len()
            invariant
                i <= clause.literals@.len(),
                forall|v: usize|
                    seen@.contains(v) <==> exists|k: int|
                        0 <= k < i && (#[trigger] clause.literals@[k]).var == v,
                forall|j: int, k: int|
                    0 <= j < k < i ==> (#[trigger] clause.literals@[j]).var != (
                    #[trigger] clause.literals@[k]).var,
            decreases clause.literals@.len() - i,
        {
            let v = clause.literals[i].var;
            let ghost before = seen@;
            if !set_insert(&mut seen, v) {
                proof {
                    let k = choose|k: int| 0 <= k < i && (#[trigger] clause.literals@[k]).var == v;
                    assert(clause.literals@[k].var == clause.literals@[i as int].var);
                }
                return false;
            }
            proof {
                assert forall|w: usize| seen@.contains(w) <==> exists|k: int|
                    0 <= k < i + 1 && (#[trigger] clause.literals@[k]).var == w by {
                    if seen@.contains(w) {
                        if w == v {
                            assert(clause.literals@[i as int].var == w);
                        } else {
                            assert(before.contains(w));
                            let k = choose|k: int|
                                0 <= k < i && (#[trigger] clause.literals@[k]).var == w;
                            assert(0 <= k < i + 1 && clause.literals@[k].var == w);
                        }
                    }
                    if exists|k: int| 0 <= k < i + 1 && (#[trigger] clause.literals@[k]).var == w {
                        let k = choose|k: int|
                            0 <= k < i + 1 && (#[trigger] clause.literals@[k]).var == w;
                        if k < i {
                            assert(before.contains(w));
                        }
                    }
                }
                assert forall|j: int, k: int| 0 <= j < k < i + 1 implies (
                #[trigger] clause.literals@[j]).var != (#[trigger] clause.literals@[k]).var by {
                    if k == i {
                        if clause.literals@[j].var == v {
                            assert(before.contains(v));
                        }
                    }
                }
            }
            i = i + 1;
        }
        true
    }

    /// Rebuilds the watch index from the watched positions of the clauses,
    /// which stay as they are.
    pub fn reset_watch_keepcurrentwatch(&mut self)
        requires
            old(self).wf_core(),
        ensures
            final(self).wf(),
            final(self).same_setup(old(self)),
            final(self).assig == old(self).assig,
            final(self).level == old(self).level,
            final(self).decision_stack == old(self).decision_stack,
            final(self).clauses == old(self).clauses,
            final(self).unit_prop_ds == old(self).unit_prop_ds,
            watched_in_order(final(self).watchlist, final(self).clauses@, final(self).num_variables as nat),
    {
        let ghost n = self.num_variables as nat;
        self.watchlist.clear();
        proof {
            assert forall|l: Literal| l.var <= n implies #[trigger] list_ok(
                self.watchlist,
                self.clauses@.take(0),
                l,
            ) by {
                assert(self.watchlist.list(l) == Seq::<usize>::empty());
            }
        }
        let mut idx: usize = 0;
        while idx < self.clauses.len()
            invariant
                idx <= self.clauses@.len(),
                n == self.num_variables,
                self.wf_core(),
                self.same_setup(old(self)),
                self.assig == old(self).assig,
                self.level == old(self).level,
                self.decision_stack == old(self).decision_stack,
                self.clauses == old(self).clauses,
                self.unit_prop_ds == old(self).unit_prop_ds,
                watches_ok(self.watchlist, self.clauses@.take(idx as int), n),
                forall|l: Literal|
                    l.var <= n ==> #[trigger] self.watchlist.list(l) == watchers(
                        self.clauses@,
                        idx as int,
                        l,
                    ),
            decreases self.clauses@.len() - idx,
        {
            let ghost w0 = self.watchlist;
            let ghost c = self.clauses@.take(idx as int);
            let ghost cl = self.clauses@[idx as int];
            proof {
                assert(cl.wf(n));
            }
            let l1 = self.clauses[idx].literals[self.clauses[idx].w1];
            let l2 = self.clauses[idx].literals[self.clauses[idx].w2];
            self.watchlist.add_to_list(&l1, idx);
            let ghost w1 = self.watchlist;
            self.watchlist.add_to_list(&l2, idx);
            proof {
                assert forall|i: int| 0 <= i < c.len() implies (#[trigger] c[i]).wf(n) by {
                    assert(self.clauses@[i].wf(n));
                }
                lemma_push_clause_watches(w0, w1, self.watchlist, c, cl, n);
                assert(c.push(cl) =~= self.clauses@.take(idx + 1));
                lemma_lists_grow(w0, w1, self.watchlist, self.clauses@, idx as int, n);
            }
            idx = idx + 1;
        }
        proof {
            assert(self.clauses@.take(self.clauses@.len() as int) =~= self.clauses@);
        }
    }

    /// Resets the watches of every clause against the current assignment
    /// and rebuilds the watch index.
    pub fn reset_watchlist(&mut self)
        requires
            old(self).wf_core(),
        ensures
            final(self).wf(),
            final(self).same_setup(old(self)),
            final(self).assig == old(self).assig,
            final(self).level == old(self).level,
            final(self).decision_stack == old(self).decision_stack,
            final(self).unit_prop_ds == old(self).unit_prop_ds,
            final(self).clauses@ == rewatched_all(old(self).clauses@, old(self).assig@),
            watched_in_order(final(self).watchlist, final(self).clauses@, final(self).num_variables as nat),
    {
        let ghost n = self.num_variables as nat;
        let ghost c0 = self.clauses@;
        self.watchlist.clear();
        proof {
            assert forall|l: Literal| l.var <= n implies #[trigger] list_ok(
                self.watchlist,
                self.clauses@.take(0),
                l,
            ) by {
                assert(self.watchlist.list(l) == Seq::<usize>::empty());
            }
        }
        let mut idx: usize = 0;
        while idx < self.clauses.len()
            invariant
                idx <= self.clauses@.len(),
                n == self.num_variables,
                c0 == old(self).clauses@,
                old(self).wf_core(),
                self.wf_core(),
                self.same_setup(old(self)),
                self.assig == old(self).assig,
                self.level == old(self).level,
                self.decision_stack == old(self).decision_stack,
                self.unit_prop_ds == old(self).unit_prop_ds,
                same_clauses(self.clauses@, c0),
                forall|i: int| idx <= i < c0.len() ==> self.clauses@[i] == c0[i],
                forall|i: int|
                    0 <= i < idx ==> #[trigger] self.clauses@[i] == c0[i].rewatched(self.assig@),
                watches_ok(self.watchlist, self.clauses@.take(idx as int), n),
                forall|l: Literal|
                    l.var <= n ==> #[trigger] self.watchlist.list(l) == watchers(
                        self.clauses@,
                        idx as int,
                        l,
                    ),
            decreases self.clauses@.len() - idx,
        {
            let ghost w0 = self.watchlist;
            let ghost cs = self.clauses@;
            let ghost c = self.clauses@.take(idx as int);
            proof {
                assert(cs[idx as int].wf(n));
            }
            self.clauses[idx].set_unassigned_watches(&self.assig);
            let ghost cl = self.clauses@[idx as int];
            proof {
                assert forall|l: Literal|
                    l.var <= n implies #[trigger] self.watchlist.list(l) == watchers(
                    self.clauses@,
                    idx as int,
                    l,
                ) by {
                    lemma_watchers_prefix(cs, self.clauses@, idx as int, l);
                }
                assert(cl.wf(n));
                assert(self.clauses@.take(idx as int) =~= c);
                assert(same_clauses(self.clauses@, cs));
                lemma_justified_same_literals(self.decision_stack@, self.assig@, cs, self.clauses@);
                lemma_coverage_stable(self.formula@, cs, self.clauses@, self.assig@, self.assig@);
                assert forall|i: int| 0 <= i < self.clauses@.len() implies (
                #[trigger] self.clauses@[i]).wf(n) by {
                    if i != idx {
                        assert(cs[i].wf(n));
                    }
                }
            }
            let l1 = self.clauses[idx].literals[self.clauses[idx].w1];
            let l2 = self.clauses[idx].literals[self.clauses[idx].w2];
            self.watchlist.add_to_list(&l1, idx);
            let ghost w1 = self.watchlist;
            self.watchlist.add_to_list(&l2, idx);
            proof {
                assert forall|i: int| 0 <= i < c.len() implies (#[trigger] c[i]).wf(n) by {
                    assert(self.clauses@[i].wf(n));
                }
                lemma_push_clause_watches(w0, w1, self.watchlist, c, cl, n);
                assert(c.push(cl) =~= self.clauses@.take(idx + 1));
                lemma_lists_grow(w0, w1, self.watchlist, self.clauses@, idx as int, n);
            }
            idx = idx + 1;
        }
        proof {
            assert(self.clauses@.take(self.clauses@.len() as int) =~= self.clauses@);
            assert(self.clauses@ =~= rewatched_all(c0, self.assig@));
        }
    }

    /// Adds a clause of the formula to the store, and to the formula as it was
    /// given: `given` has the same literals as `clause`, possibly repeated.
    /// The watches of the clause are first reset against the current
    /// assignment.
    pub(crate) fn store_clause(&mut self, clause: Clause, Ghost(given): Ghost<Seq<Literal>>)
        requires
            old(self).wf(),
            old(self).pure_units@.len() == 0,
            clause.wf(old(self).num_variables as nat),
            !clause.deleted,
            !clause.conflict,
            forall|k: int| 0 <= k < given.len() ==> clause.literals@.contains(#[trigger] given[k]),
            forall|k: int|
                0 <= k < clause.literals@.len() ==> given.contains(#[trigger] clause.literals@[k]),
        ensures
            final(self).wf(),
            final(self).num_variables == old(self).num_variables,
            final(self).decision_heuristic == old(self).decision_heuristic,
            final(self).root_conflict == old(self).root_conflict,
            final(self).assig == old(self).assig,
            final(self).level == old(self).level,
            final(self).decision_stack == old(self).decision_stack,
            final(self).formula@ == old(self).formula@.push(given),
            final(self).pure_units@ == old(self).pure_units@,
            final(self).clauses@.len() == old(self).clauses@.len() + 1,
            forall|i: int|
                0 <= i < old(self).clauses@.len() ==> final(self).clauses@[i] == old(
                    self,
                ).clauses@[i],
            final(self).clauses@.last().same_but_watches(&clause),
            final(self).clauses@.last().w1 == clause.reset_watches(old(self).assig@).0,
            final(self).clauses@.last().w2 == clause.reset_watches(old(self).assig@).1,
            final(self).watchlist.watched_more(
                &old(self).watchlist,
                final(self).clauses@.last(),
                old(self).clauses@.len() as usize,
            ),
            final(self).clauses_since_deletion == old(self).clauses_since_deletion,
            final(self).min_num_conflict_restart == old(self).min_num_conflict_restart,
            final(self).max_num_conflict_restart == old(self).max_num_conflict_restart,
            final(self).cur_num_conflict_restart == old(self).cur_num_conflict_restart,
            final(self).unit_prop_ds == old(self).unit_prop_ds,
    {
        let ghost n = self.num_variables as nat;
        let ghost c0 = self.clauses@;
        let ghost w0 = self.watchlist;
        let ghost f0 = self.formula@;
        let mut clause = clause;
        let ghost first = clause;
        clause.set_unassigned_watches(&self.assig);
        let idx = self.clauses.len();
        let l1 = clause.literals[clause.w1];
        let l2 = clause.literals[clause.w2];
        self.watchlist.add_to_list(&l1, idx);
        let ghost w1 = self.watchlist;
        self.watchlist.add_to_list(&l2, idx);
        let ghost cl = clause;
        self.clauses.push(clause);
        // the index of the new clause fits in usize
        let after = self.clauses.len();
        self.formula = Ghost(f0.push(given));
        proof {
            assert(cl.wf(n));
            assert(self.clauses@ =~= c0.push(cl));
            lemma_push_clause_watches(w0, w1, self.watchlist, c0, cl, n);
            assert(self.watchlist.watched_more(&w0, cl, c0.len() as usize)) by {
                assert(cl.watch1().var != cl.watch2().var);
                assert forall|l: Literal|
                    l.var < w0.watchlist@.len() implies #[trigger] self.watchlist.list(l) == (
                if l == cl.watch1() || l == cl.watch2() {
                    w0.list(l).push(c0.len() as usize)
                } else {
                    w0.list(l)
                }) by {
                    if l != cl.watch1() {
                        assert(w1.list(l) == w0.list(l));
                    }
                    if l != cl.watch2() {
                        assert(self.watchlist.list(l) == w1.list(l));
                    }
                }
            }
            lemma_justified_same_literals(self.decision_stack@, self.assig@, c0, self.clauses@);
            lemma_push_keeps_coverage(f0, c0, cl, self.assig@);
            lemma_formula_grows(
                f0,
                given,
                self.pure_units@,
                n,
                c0,
                cl,
                self.assig@,
                self.root_conflict,
            );
            assert forall|j: int|
                0 <= j < self.formula@.len() && !self.root_conflict implies covered(
                #[trigger] self.formula@[j],
                self.clauses@,
                self.assig@,
            ) by {
                if j < f0.len() {
                    assert(covered(f0[j], c0.push(cl), self.assig@));
                } else {
                    assert(self.formula@[j] == given);
                    assert forall|k: int| 0 <= k < cl.literals@.len() implies given.contains(
                        #[trigger] cl.literals@[k],
                    ) by {
                        assert(first.literals@[k] == cl.literals@[k]);
                        assert(given.contains(first.literals@[k]));
                    }
                    assert(stored_for(self.clauses@, self.formula@[j], c0.len() as int));
                }
            }
        }
    }

    /// Adds a clause of the formula to the store and to the formula. Its watches
    /// are first reset against the current assignment. Clauses are added
    /// before any pure literal is assumed: a literal that is pure in a
    /// formula need not be pure in a larger one.
    pub fn add_clause(&mut self, clause: Clause)
        requires
            old(self).wf(),
            old(self).pure_units@.len() == 0,
            clause.wf(old(self).num_variables as nat),
            !clause.deleted,
            !clause.conflict,
        ensures
            final(self).wf(),
            final(self).num_variables == old(self).num_variables,
            final(self).decision_heuristic == old(self).decision_heuristic,
            final(self).root_conflict == old(self).root_conflict,
            final(self).assig == old(self).assig,
            final(self).level == old(self).level,
            final(self).decision_stack == old(self).decision_stack,
            final(self).formula@ == old(self).formula@.push(clause.literals@),
            final(self).pure_units@ == old(self).pure_units@,
            final(self).clauses@.len() == old(self).clauses@.len() + 1,
            forall|i: int|
                0 <= i < old(self).clauses@.len() ==> final(self).clauses@[i] == old(
                    self,
                ).clauses@[i],
            final(self).clauses@.last().same_but_watches(&clause),
            final(self).clauses@.last().w1 == clause.reset_watches(old(self).assig@).0,
            final(self).clauses@.last().w2 == clause.reset_watches(old(self).assig@).1,
            final(self).watchlist.watched_more(
                &old(self).watchlist,
                final(self).clauses@.last(),
                old(self).clauses@.len() as usize,
            ),
    {
        let ghost lits = clause.literals@;
        proof {
            assert forall|k: int| 0 <= k < lits.len() implies lits.contains(#[trigger] lits[k]) by {}
        }
        self.store_clause(clause, Ghost(lits));
    }
}

/// Adding a clause to the formula and to the store, while no literal has
/// been assumed, keeps what the invariant says of models.
pub proof fn lemma_formula_grows(
    f: Seq<Seq<Literal>>,
    lits: Seq<Literal>,
    u: Seq<Literal>,
    n: nat,
    c: Seq<Clause>,
    cl: Clause,
    a: AssigModel,
    root_conflict: bool,
)
    requires
        u.len() == 0,
        forall|k: int| 0 <= k < lits.len() ==> cl.literals@.contains(#[trigger] lits[k]),
        entails(f, u, n, c, a),
        root_conflict ==> !ext_satisfiable(f, u, n),
    ensures
        entails(f.push(lits), u, n, c.push(cl), a),
        satisfiable(f.push(lits), n) ==> ext_satisfiable(f.push(lits), u, n),
        root_conflict ==> !ext_satisfiable(f.push(lits), u, n),
{
    let f2 = f.push(lits);
    lemma_entails_more(f, u, f2, u, n, c, a);
    assert(clause_entailed(f2, u, n, cl.literals@)) by {
        assert forall|m: Seq<bool>| #[trigger] is_model(m, f2, u, n) implies val_clause(
            m,
            cl.literals@,
        ) by {
            assert(val_clause(m, f2[f.len() as int]));
            let k = choose|k: int| 0 <= k < lits.len() && val_true(m, #[trigger] lits[k]);
            assert(cl.literals@.contains(lits[k]));
            let q = choose|q: int| 0 <= q < cl.literals@.len() && cl.literals@[q] == lits[k];
            assert(val_true(m, cl.literals@[q]));
        }
    }
    lemma_entails_push_clause(f2, u, n, c, cl, a);
    if satisfiable(f2, n) {
        let m = choose|m: Seq<bool>| m.len() == n + 1 && #[trigger] val_formula(m, f2);
        assert(is_model(m, f2, u, n));
    }
    if root_conflict && ext_satisfiable(f2, u, n) {
        let m = choose|m: Seq<bool>| #[trigger] is_model(m, f2, u, n);
        assert(is_model(m, f, u, n));
    }
}

/// Appending a clause that is not marked as deleted keeps coverage of the
/// formula and the meaning of deletion marks.
pub proof fn lemma_push_keeps_coverage(
    f: Seq<Seq<Literal>>,
    c: Seq<Clause>,
    cl: Clause,
    a: AssigModel,
)
    requires
        !cl.deleted,
    ensures
        formula_covered(f, c, a) ==> formula_covered(f, c.push(cl), a),
        deleted_ok(c, a) ==> deleted_ok(c.push(cl), a),
{
    let c2 = c.push(cl);
    if formula_covered(f, c, a) {
        assert forall|j: int| 0 <= j < f.len() implies covered(#[trigger] f[j], c2, a) by {
            assert(covered(f[j], c, a));
            if !crate::consistency::root_sat(f[j], a) {
                let i = choose|i: int| #[trigger] stored_for(c, f[j], i);
                assert(c2[i] == c[i]);
                assert(stored_for(c2, f[j], i));
            }
        }
    }
    if deleted_ok(c, a) {
        assert forall|i: int| 0 <= i < c2.len() && (#[trigger] c2[i]).deleted implies crate::consistency::root_sat(
            c2[i].literals@,
            a,
        ) by {
            assert(c2[i] == c[i]);
        }
    }
}

} // verus!

//! The watch index: for each literal, the clauses that currently watch it.

use vstd::prelude::*;
use crate::literal::Literal;

verus! {

/// The clauses watching the two literals of one variable.
#[derive(Debug, Clone, PartialEq)]
pub struct VarWatch {
    pub false_watch: Vec<usize>,
    pub true_watch: Vec<usize>,
}

impl VarWatch {
    /// The clauses watching the literal of polarity `sign`.
    pub open spec fn list(&self, sign: bool) -> Seq<usize> {
        if sign {
            self.true_watch@
        } else {
            self.false_watch@
        }
    }

    pub fn new() -> (r: VarWatch)
        ensures
            r.true_watch@ == Seq::<usize>::empty(),
            r.false_watch@ == Seq::<usize>::empty(),
    {
        VarWatch { false_watch: Vec::new(), true_watch: Vec::new() }
    }

    /// Removes the entry at `watch_idx` from the list of polarity `lit`; the
    /// last entry of that list takes its place.
    pub fn remove_idx(&mut self, lit: bool, watch_idx: usize)
        requires
            watch_idx < old(self).list(lit).len(),
        ensures
            final(self).list(lit) == old(self).list(lit).update(
                watch_idx as int,
                old(self).list(lit).last(),
            ).drop_last(),
            final(self).list(!lit) == old(self).list(!lit),
    {
        if lit {
            self.true_watch.swap_remove(watch_idx);
        } else {
            self.false_watch.swap_remove(watch_idx);
        }
    }

    /// Appends `clause_idx` to the list of polarity `lit`.
    pub fn add_clause(&mut self, lit: bool, clause_idx: usize)
        ensures
            final(self).list(lit) == old(self).list(lit).push(clause_idx),
            final(self).list(!lit) == old(self).list(!lit),
    {
        if lit {
            self.true_watch.push(clause_idx);
        } else {
            self.false_watch.push(clause_idx);
        }
    }
}

impl Default for VarWatch {
    fn default() -> (r: VarWatch)
        ensures
            r.true_watch@ == Seq::<usize>::empty(),
            r.false_watch@ == Seq::<usize>::empty(),
    {
        VarWatch::new()
    }
}

/// One `VarWatch` per variable slot.
#[derive(Debug, PartialEq)]
pub struct WatchList {
    pub watchlist: Vec<VarWatch>,
}

impl WatchList {
    /// The clauses watching `lit`.
    pub open spec fn list(&self, lit: Literal) -> Seq<usize> {
        self.watchlist@[lit.var as int].list(lit.sign)
    }

    /// Every list but the one of `lit` is the same in `self` and `other`.
    pub open spec fn same_except(&self, other: &WatchList, lit: Literal) -> bool {
        &&& self.watchlist@.len() == other.watchlist@.len()
        &&& forall|l: Literal|
            l.var < self.watchlist@.len() && l != lit ==> #[trigger] self.list(l) == other.list(l)
    }

    /// `self` is `other` with clause `idx`, which is `cl`, appended to the
    /// lists of the two literals that it watches.
    pub open spec fn watched_more(&self, other: &WatchList, cl: crate::clause::Clause, idx: usize)
        -> bool {
        &&& self.watchlist@.len() == other.watchlist@.len()
        &&& forall|l: Literal|
            l.var < self.watchlist@.len() ==> #[trigger] self.list(l) == (if l == cl.watch1() || l
                == cl.watch2() {
                other.list(l).push(idx)
            } else {
                other.list(l)
            })
    }

    /// A watch index without any variable slot.
    pub fn empty() -> (r: WatchList)
        ensures
            r.watchlist@ == Seq::<VarWatch>::empty(),
    {
        WatchList { watchlist: Vec::new() }
    }

    /// Empties every list, keeping the slots.
    pub fn clear(&mut self)
        ensures
            final(self).watchlist@.len() == old(self).watchlist@.len(),
            forall|l: Literal|
                l.var < final(self).watchlist@.len() ==> #[trigger] final(self).list(l)
                    == Seq::<usize>::empty(),
    {
        let mut v: usize = 0;
        while v < self.watchlist.len()
            invariant
                v <= self.watchlist@.len(),
                self.watchlist@.len() == old(self).watchlist@.len(),
                forall|l: Literal| l.var < v ==> #[trigger] self.list(l) == Seq::<usize>::empty(),
            decreases self.watchlist@.len() - v,
        {
            let ghost before = *self;
            self.watchlist[v].true_watch.clear();
            self.watchlist[v].false_watch.clear();
            assert forall|l: Literal| l.var < v + 1 implies #[trigger] self.list(l) == Seq::<
                usize,
            >::empty() by {
                if l.var < v {
                    assert(before.list(l) == Seq::<usize>::empty());
                    assert(self.watchlist@[l.var as int] == before.watchlist@[l.var as int]);
                }
            }
            v = v + 1;
        }
    }

    /// A watch index with empty lists for the variable slots `0..=num_vars`.
    pub fn new(num_vars: usize) -> (r: WatchList)
        requires
            num_vars < usize::MAX,
        ensures
            r.watchlist@.len() == num_vars + 1,
            forall|l: Literal|
                l.var <= num_vars ==> #[trigger] r.list(l) == Seq::<usize>::empty(),
    {
        let mut watchlist: Vec<VarWatch> = Vec::new();
        let mut v: usize = 0;
        while v <= num_vars
            invariant
                num_vars < usize::MAX,
                v <= num_vars + 1,
                watchlist@.len() == v,
                forall|i: int|
                    0 <= i < v ==> (#[trigger] watchlist@[i]).true_watch@ == Seq::<usize>::empty()
                        && watchlist@[i].false_watch@ == Seq::<usize>::empty(),
            decreases num_vars + 1 - v,
        {
            watchlist.push(VarWatch::new());
            v = v + 1;
        }
        WatchList { watchlist }
    }

    /// Records that clause `clause_idx` watches `lit`.
    pub fn add_to_list(&mut self, lit: &Literal, clause_idx: usize)
        requires
            lit.var < old(self).watchlist@.len(),
        ensures
            final(self).list(*lit) == old(self).list(*lit).push(clause_idx),
            final(self).same_except(old(self), *lit),
    {
        if lit.sign {
            self.watchlist[lit.var].true_watch.push(clause_idx);
        } else {
            self.watchlist[lit.var].false_watch.push(clause_idx);
        }
    }

    /// The two lists of variable `idx`.
    pub fn get(&self, idx: usize) -> (r: &VarWatch)
        requires
            idx < self.watchlist@.len(),
        ensures
            *r == self.watchlist@[idx as int],
    {
        &self.watchlist[idx]
    }

    /// The clauses watching `lit`.
    pub fn get_lit(&self, lit: &Literal) -> (r: &Vec<usize>)
        requires
            lit.var < self.watchlist@.len(),
        ensures
            r@ == self.list(*lit),
    {
        if lit.sign {
            &self.watchlist[lit.var].true_watch
        } else {
            &self.watchlist[lit.var].false_watch
        }
    }

    /// Removes the entry at `watch_idx` from the list of `lit`; the last
    /// entry of that list takes its place.
    pub fn remove_watch(&mut self, lit: &Literal, watch_idx: usize)
        requires
            lit.var < old(self).watchlist@.len(),
            watch_idx < old(self).list(*lit).len(),
        ensures
            final(self).list(*lit) == old(self).list(*lit).update(
                watch_idx as int,
                old(self).list(*lit).last(),
            ).drop_last(),
            final(self).same_except(old(self), *lit),
    {
        self.watchlist[lit.var].remove_idx(lit.sign, watch_idx);
    }
}

} // verus!

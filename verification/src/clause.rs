//! Clauses with two watched positions, and what one clause does when one of
//! its watched literals becomes false.

use vstd::prelude::*;
use crate::assig::{
    lit_falsified, lit_satisfied, lit_unassigned, literal_falsified, literal_satisfied,
    literal_unassigned, Assig, AssigModel,
};
use crate::literal::Literal;

verus! {

/// Every literal names a variable in `1..=n`.
pub open spec fn lits_in_range(lits: Seq<Literal>, n: nat) -> bool {
    forall|i: int| 0 <= i < lits.len() ==> 1 <= (#[trigger] lits[i]).var <= n
}

/// No variable occurs in two positions.
pub open spec fn vars_distinct(lits: Seq<Literal>) -> bool {
    forall|i: int, j: int|
        0 <= i < j < lits.len() ==> (#[trigger] lits[i]).var != (#[trigger] lits[j]).var
}

/// Some literal is satisfied.
pub open spec fn clause_sat(lits: Seq<Literal>, a: AssigModel) -> bool {
    exists|i: int| 0 <= i < lits.len() && lit_satisfied(#[trigger] lits[i], a)
}

/// Every literal is falsified.
pub open spec fn all_falsified(lits: Seq<Literal>, a: AssigModel) -> bool {
    forall|i: int| 0 <= i < lits.len() ==> lit_falsified(#[trigger] lits[i], a)
}

/// Every literal except the one at position `k` is falsified.
pub open spec fn others_falsified(lits: Seq<Literal>, k: int, a: AssigModel) -> bool {
    forall|i: int| 0 <= i < lits.len() && i != k ==> lit_falsified(#[trigger] lits[i], a)
}

/// Position `idx` is the first one outside the two watches whose literal is
/// not falsified.
pub open spec fn is_replacement(lits: Seq<Literal>, a: AssigModel, w1: int, w2: int, idx: int)
    -> bool {
    &&& 0 <= idx < lits.len()
    &&& idx != w1
    &&& idx != w2
    &&& !lit_falsified(lits[idx], a)
    &&& forall|j: int|
        0 <= j < idx && j != w1 && j != w2 ==> lit_falsified(#[trigger] lits[j], a)
}

/// Every position outside the two watches holds a falsified literal.
pub open spec fn no_replacement(lits: Seq<Literal>, a: AssigModel, w1: int, w2: int) -> bool {
    forall|j: int|
        0 <= j < lits.len() && j != w1 && j != w2 ==> lit_falsified(#[trigger] lits[j], a)
}

/// Where the watch at position `cur` ends when it is reset: it stays on a
/// literal that is not falsified, and otherwise moves to the replacement
/// position if there is one.
pub open spec fn moved_watch(lits: Seq<Literal>, a: AssigModel, w1: int, w2: int, cur: int) -> int {
    if lit_falsified(lits[cur], a) && exists|idx: int| is_replacement(lits, a, w1, w2, idx) {
        choose|idx: int| is_replacement(lits, a, w1, w2, idx)
    } else {
        cur
    }
}

/// There is at most one replacement position.
pub proof fn lemma_replacement_unique(
    lits: Seq<Literal>,
    a: AssigModel,
    w1: int,
    w2: int,
    i: int,
    j: int,
)
    requires
        is_replacement(lits, a, w1, w2, i),
        is_replacement(lits, a, w1, w2, j),
    ensures
        i == j,
{
    if i < j {
        assert(lit_falsified(lits[i], a));
    }
    if j < i {
        assert(lit_falsified(lits[j], a));
    }
}

/// A disjunction of literals over distinct variables. `w1` and `w2` are the
/// two watched positions; `conflict` marks a learned clause and `lbd` is the
/// number of decision levels it spanned when it was learned.
#[derive(Debug, Clone, PartialEq)]
pub struct Clause {
    pub literals: Vec<Literal>,
    pub w1: usize,
    pub w2: usize,
    pub deleted: bool,
    pub conflict: bool,
    pub lbd: usize,
}

/// What a clause reports when one of its watched literals has become false.
#[derive(Debug, Clone, Copy, PartialEq, Eq, Structural)]
pub enum ClauseUnitProp {
    /// The watch moved from `old_watch` to `new_watch`.
    Reassigned { old_watch: Literal, new_watch: Literal },
    /// Every literal but `lit` is falsified, and `lit` is unassigned.
    Unit { lit: Literal },
    /// The other watch is falsified too.
    Conflict,
    /// The other watch is satisfied.
    Satisfied,
}

impl Clause {
    /// The structural invariant of a clause over the variables `1..=n`.
    pub open spec fn wf(&self, n: nat) -> bool {
        &&& self.literals@.len() >= 2
        &&& self.w1 < self.literals@.len()
        &&& self.w2 < self.literals@.len()
        &&& self.w1 != self.w2
        &&& lits_in_range(self.literals@, n)
        &&& vars_distinct(self.literals@)
    }

    /// The two watched positions are distinct and inside the clause, and
    /// every variable has a slot in an assignment of `slots` slots.
    pub open spec fn watches_valid(&self, slots: nat) -> bool {
        &&& self.w1 < self.literals@.len()
        &&& self.w2 < self.literals@.len()
        &&& self.w1 != self.w2
        &&& forall|i: int| 0 <= i < self.literals@.len() ==> (#[trigger] self.literals@[i]).var < slots
    }

    /// The first watched literal.
    pub open spec fn watch1(&self) -> Literal {
        self.literals@[self.w1 as int]
    }

    /// The second watched literal.
    pub open spec fn watch2(&self) -> Literal {
        self.literals@[self.w2 as int]
    }

    /// Same clause up to the two watched positions.
    pub open spec fn same_but_watches(&self, other: &Clause) -> bool {
        *self == (Clause { w1: self.w1, w2: self.w2, ..*other })
    }

    /// A clause of the formula over the given literals, watching its first
    /// two.
    /// Fails when there are fewer than two literals.
    pub fn try_from(vc: Vec<Literal>) -> (r: Result<Clause, &'static str>)
        ensures
            r is Ok <==> vc@.len() >= 2,
            r matches Ok(c) ==> {
                &&& c.literals@ == vc@
                &&& c.w1 == 0
                &&& c.w2 == 1
                &&& !c.deleted
                &&& !c.conflict
                &&& c.lbd == 0
            },
    {
        if vc.len() < 2 {
            return Err("Must have at least 2 literals");
        }
        Ok(Clause { literals: vc, w1: 0, w2: 1, deleted: false, conflict: false, lbd: 0 })
    }

    /// Whether some literal of the clause is satisfied.
    pub fn clause_satisfied(&self, assig: &Assig) -> (r: bool)
        requires
            forall|i: int|
                0 <= i < self.literals@.len() ==> (#[trigger] self.literals@[i]).var < assig@.len(),
        ensures
            r == clause_sat(self.literals@, assig@),
    {
        let mut i: usize = 0;
        while i < self.literals.len()
            invariant
                i <= self.literals@.len(),
                forall|k: int|
                    0 <= k < self.literals@.len() ==> (#[trigger] self.literals@[k]).var
                        < assig@.len(),
                forall|k: int| 0 <= k < i ==> !lit_satisfied(#[trigger] self.literals@[k], assig@),
            decreases self.literals@.len() - i,
        {
            if literal_satisfied(&self.literals[i], assig) {
                return true;
            }
            i = i + 1;
        }
        false
    }

    /// Tries to make the watch at `cur_idx` rest on a literal that is not
    /// falsified. The watch stays where it is if its literal is not falsified;
    /// otherwise it moves to the first position outside both watches whose
    /// literal is not falsified. Returns the position the watch ends on, or
    /// `None` when no such position exists.
    pub fn reset_watch(&mut self, assig: &Assig, cur_idx: usize) -> (r: Option<usize>)
        requires
            old(self).watches_valid(assig@.len()),
            cur_idx == old(self).w1 || cur_idx == old(self).w2,
        ensures
            final(self).same_but_watches(old(self)),
            !lit_falsified(old(self).literals@[cur_idx as int], assig@) ==> {
                &&& r == Some(cur_idx)
                &&& *final(self) == *old(self)
            },
            lit_falsified(old(self).literals@[cur_idx as int], assig@) ==> match r {
                Some(idx) => {
                    &&& is_replacement(
                        old(self).literals@,
                        assig@,
                        old(self).w1 as int,
                        old(self).w2 as int,
                        idx as int,
                    )
                    &&& final(self).w1 == (if cur_idx == old(self).w1 {
                        idx
                    } else {
                        old(self).w1
                    })
                    &&& final(self).w2 == (if cur_idx == old(self).w1 {
                        old(self).w2
                    } else {
                        idx
                    })
                },
                None => {
                    &&& no_replacement(
                        old(self).literals@,
                        assig@,
                        old(self).w1 as int,
                        old(self).w2 as int,
                    )
                    &&& *final(self) == *old(self)
                },
            },
    {
        if !literal_falsified(&self.literals[cur_idx], assig) {
            return Some(cur_idx);
        }
        let mut idx: usize = 0;
        while idx < self.literals.len()
            invariant
                idx <= self.literals@.len(),
                *self == *old(self),
                self.watches_valid(assig@.len()),
                cur_idx == self.w1 || cur_idx == self.w2,
                lit_falsified(self.literals@[cur_idx as int], assig@),
                forall|j: int|
                    0 <= j < idx && j != self.w1 && j != self.w2 ==> lit_falsified(
                        #[trigger] self.literals@[j],
                        assig@,
                    ),
            decreases self.literals@.len() - idx,
        {
            if idx != self.w1 && idx != self.w2 && !literal_falsified(&self.literals[idx], assig) {
                if cur_idx == self.w1 {
                    self.w1 = idx;
                } else {
                    self.w2 = idx;
                }
                return Some(idx);
            }
            idx = idx + 1;
        }
        None
    }

    /// The two watched positions after `set_unassigned_watches`.
    pub open spec fn reset_watches(&self, a: AssigModel) -> (int, int) {
        let first = moved_watch(self.literals@, a, self.w1 as int, self.w2 as int, self.w1 as int);
        let second = moved_watch(self.literals@, a, first, self.w2 as int, self.w2 as int);
        (first, second)
    }

    /// The clause with its watches reset against `a`.
    pub open spec fn rewatched(&self, a: AssigModel) -> Clause {
        Clause {
            w1: self.reset_watches(a).0 as usize,
            w2: self.reset_watches(a).1 as usize,
            ..*self
        }
    }

    /// Moves each watch that rests on a falsified literal to the first
    /// literal outside the watches that is not falsified, where the clause
    /// has one: first `w1`, then `w2`.
    pub fn set_unassigned_watches(&mut self, assig: &Assig)
        requires
            old(self).watches_valid(assig@.len()),
        ensures
            final(self).same_but_watches(old(self)),
            final(self).watches_valid(assig@.len()),
            final(self).w1 == old(self).reset_watches(assig@).0,
            final(self).w2 == old(self).reset_watches(assig@).1,
            *final(self) == old(self).rewatched(assig@),
            !lit_falsified(old(self).watch1(), assig@) && !lit_falsified(old(self).watch2(), assig@)
                ==> *final(self) == *old(self),
    {
        let ghost lits = self.literals@;
        let ghost a = assig@;
        let ghost w1 = self.w1 as int;
        let ghost w2 = self.w2 as int;
        let first = self.w1;
        let r1 = self.reset_watch(assig, first);
        proof {
            if lit_falsified(lits[w1], a) {
                match r1 {
                    Some(idx) => {
                        let j = choose|j: int| is_replacement(lits, a, w1, w2, j);
                        lemma_replacement_unique(lits, a, w1, w2, idx as int, j);
                    },
                    None => {
                        assert forall|j: int| !is_replacement(lits, a, w1, w2, j) by {
                            if is_replacement(lits, a, w1, w2, j) {
                                assert(lit_falsified(lits[j], a));
                            }
                        }
                    },
                }
            }
        }
        let ghost m1 = self.w1 as int;
        let second = self.w2;
        let r2 = self.reset_watch(assig, second);
        proof {
            if lit_falsified(lits[w2], a) {
                match r2 {
                    Some(idx) => {
                        let j = choose|j: int| is_replacement(lits, a, m1, w2, j);
                        lemma_replacement_unique(lits, a, m1, w2, idx as int, j);
                    },
                    None => {
                        assert forall|j: int| !is_replacement(lits, a, m1, w2, j) by {
                            if is_replacement(lits, a, m1, w2, j) {
                                assert(lit_falsified(lits[j], a));
                            }
                        }
                    },
                }
            }
        }
    }

    /// Reacts to the watched literal `lit` having become false.
    ///
    /// If the other watch is satisfied the clause is `Satisfied`; if it is
    /// falsified the clause is in `Conflict`. Otherwise the watch on `lit`
    /// moves to the first literal outside the watches that is not falsified
    /// (`Reassigned`), and if there is none the other watched literal is
    /// forced (`Unit`). Only a `Reassigned` answer changes the clause.
    pub fn unit_prop(&mut self, assig: &Assig, lit: &Literal) -> (r: ClauseUnitProp)
        requires
            old(self).watches_valid(assig@.len()),
            old(self).watch1() == *lit || old(self).watch2() == *lit,
            lit_falsified(*lit, assig@),
        ensures
            final(self).same_but_watches(old(self)),
            final(self).watches_valid(assig@.len()),
            ({
                let on_first = old(self).watch1() == *lit;
                let other = if on_first { old(self).w2 } else { old(self).w1 };
                let other_lit = old(self).literals@[other as int];
                match r {
                    ClauseUnitProp::Satisfied => {
                        &&& lit_satisfied(other_lit, assig@)
                        &&& *final(self) == *old(self)
                    },
                    ClauseUnitProp::Conflict => {
                        &&& lit_falsified(other_lit, assig@)
                        &&& *final(self) == *old(self)
                    },
                    ClauseUnitProp::Reassigned { old_watch, new_watch } => {
                        let idx = if on_first { final(self).w1 } else { final(self).w2 };
                        &&& lit_unassigned(other_lit, assig@)
                        &&& old_watch == *lit
                        &&& new_watch == old(self).literals@[idx as int]
                        &&& is_replacement(
                            old(self).literals@,
                            assig@,
                            old(self).w1 as int,
                            old(self).w2 as int,
                            idx as int,
                        )
                        &&& (if on_first {
                            final(self).w2 == old(self).w2
                        } else {
                            final(self).w1 == old(self).w1
                        })
                    },
                    ClauseUnitProp::Unit { lit: forced } => {
                        &&& lit_unassigned(other_lit, assig@)
                        &&& forced == other_lit
                        &&& no_replacement(
                            old(self).literals@,
                            assig@,
                            old(self).w1 as int,
                            old(self).w2 as int,
                        )
                        &&& *final(self) == *old(self)
                    },
                }
            }),
    {
        let on_first = self.literals[self.w1] == *lit;
        let cur_idx = if on_first { self.w1 } else { self.w2 };
        let oidx = if on_first { self.w2 } else { self.w1 };
        let other_watch_lit = self.literals[oidx];

        if literal_satisfied(&other_watch_lit, assig) {
            return ClauseUnitProp::Satisfied;
        }
        if literal_falsified(&other_watch_lit, assig) {
            return ClauseUnitProp::Conflict;
        }
        match self.reset_watch(assig, cur_idx) {
            Some(nidx) => ClauseUnitProp::Reassigned {
                old_watch: *lit,
                new_watch: self.literals[nidx],
            },
            None => ClauseUnitProp::Unit { lit: self.literals[oidx] },
        }
    }
}

/// Whether the two watches of `clause` are distinct and not both falsified.
/// The check only answers: a caller for which a failed check is fatal halts
/// on `false` itself.
pub fn check_clause_watch_invariant(clause: &Clause, assig: &Assig) -> (r: bool)
    requires
        clause.w1 < clause.literals@.len(),
        clause.w2 < clause.literals@.len(),
        clause.watch1().var < assig@.len(),
        clause.watch2().var < assig@.len(),
    ensures
        r == (clause.w1 != clause.w2 && !(lit_falsified(clause.watch1(), assig@) && lit_falsified(
            clause.watch2(),
            assig@,
        ))),
{
    clause.w1 != clause.w2 && !(literal_falsified(&clause.literals[clause.w1], assig)
        && literal_falsified(&clause.literals[clause.w2], assig))
}

/// Whether the literal at `lit_idx` is the single unassigned literal of
/// `clause` while every other literal is falsified. The check only
/// answers: a caller for which a failed check is fatal halts on `false`
/// itself.
pub fn check_single_unit(clause: &Clause, assig: &Assig, lit_idx: usize) -> (r: bool)
    requires
        forall|i: int|
            0 <= i < clause.literals@.len() ==> (#[trigger] clause.literals@[i]).var < assig@.len(),
    ensures
        r == (lit_idx < clause.literals@.len() && lit_unassigned(
            clause.literals@[lit_idx as int],
            assig@,
        ) && others_falsified(clause.literals@, lit_idx as int, assig@)),
{
    if lit_idx >= clause.literals.len() {
        return false;
    }
    if !literal_unassigned(&clause.literals[lit_idx], assig) {
        return false;
    }
    let mut i: usize = 0;
    while i < clause.literals.len()
        invariant
            i <= clause.literals@.len(),
            forall|k: int|
                0 <= k < clause.literals@.len() ==> (#[trigger] clause.literals@[k]).var
                    < assig@.len(),
            forall|k: int|
                0 <= k < i && k != lit_idx ==> lit_falsified(
                    #[trigger] clause.literals@[k],
                    assig@,
                ),
        decreases clause.literals@.len() - i,
    {
        if i != lit_idx && !literal_falsified(&clause.literals[i], assig) {
            return false;
        }
        i = i + 1;
    }
    true
}

/// Whether every literal of `clause` is falsified. The check only answers:
/// a caller for which a failed check is fatal halts on `false` itself.
pub fn check_all_falsified(clause: &Clause, assig: &Assig) -> (r: bool)
    requires
        forall|i: int|
            0 <= i < clause.literals@.len() ==> (#[trigger] clause.literals@[i]).var < assig@.len(),
    ensures
        r == all_falsified(clause.literals@, assig@),
{
    let mut i: usize = 0;
    while i < clause.literals.len()
        invariant
            i <= clause.literals@.len(),
            forall|k: int|
                0 <= k < clause.literals@.len() ==> (#[trigger] clause.literals@[k]).var
                    < assig@.len(),
            forall|k: int| 0 <= k < i ==> lit_falsified(#[trigger] clause.literals@[k], assig@),
        decreases clause.literals@.len() - i,
    {
        if !literal_falsified(&clause.literals[i], assig) {
            return false;
        }
        i = i + 1;
    }
    true
}

/// The literals of `clause` that are not falsified, in their order.
pub fn non_falsified_lits(clause: &Clause, assig: &Assig) -> (r: Vec<Literal>)
    requires
        forall|i: int|
            0 <= i < clause.literals@.len() ==> (#[trigger] clause.literals@[i]).var < assig@.len(),
    ensures
        r@ == clause.literals@.filter(|l: Literal| !lit_falsified(l, assig@)),
{
    let ghost keep = |l: Literal| !lit_falsified(l, assig@);
    let mut out: Vec<Literal> = Vec::new();
    let mut i: usize = 0;
    proof {
        reveal(Seq::filter);
        assert(clause.literals@.take(0).filter(keep) =~= Seq::<Literal>::empty());
    }
    while i < clause.literals.len()
        invariant
            i <= clause.literals@.len(),
            keep == |l: Literal| !lit_falsified(l, assig@),
            forall|k: int|
                0 <= k < clause.literals@.len() ==> (#[trigger] clause.literals@[k]).var
                    < assig@.len(),
            out@ == clause.literals@.take(i as int).filter(keep),
        decreases clause.literals@.len() - i,
    {
        let lit = clause.literals[i];
        proof {
            reveal(Seq::filter);
            let longer = clause.literals@.take(i + 1);
            assert(longer.drop_last() =~= clause.literals@.take(i as int));
            assert(longer.last() == lit);
        }
        if !literal_falsified(&lit, assig) {
            out.push(lit);
        }
        i = i + 1;
    }
    proof {
        assert(clause.literals@.take(clause.literals@.len() as int) =~= clause.literals@);
    }
    out
}

} // verus!

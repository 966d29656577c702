//! Decision levels of the literals of a clause: the backtrack level and the
//! number of distinct levels.

use vstd::prelude::*;
use rustc_hash::FxHashSet;
use crate::assig::{lit_level, AssigModel};
use crate::fx::{set_insert, set_len};
use crate::literal::Literal;
use crate::solver::SolverState;

verus! {

/// The larger of two levels.
pub open spec fn max_level(x: nat, y: nat) -> nat {
    if x >= y {
        x
    } else {
        y
    }
}

/// The highest decision level among the literals (0 for no literals).
pub open spec fn top_level(lits: Seq<Literal>, a: AssigModel) -> nat
    decreases lits.len(),
{
    if lits.len() == 0 {
        0
    } else {
        max_level(top_level(lits.drop_last(), a), lit_level(lits.last(), a))
    }
}

/// The highest decision level below `bound` among the literals (0 if there
/// is none).
pub open spec fn below_level(lits: Seq<Literal>, a: AssigModel, bound: nat) -> nat
    decreases lits.len(),
{
    if lits.len() == 0 {
        0
    } else {
        let l = lit_level(lits.last(), a);
        max_level(below_level(lits.drop_last(), a, bound), if l < bound { l } else { 0 })
    }
}

/// The level to go back to after learning a clause with these literals:
/// the second highest of their decision levels, or 0 if they all share one
/// level.
pub open spec fn backtrack_level_of(lits: Seq<Literal>, a: AssigModel) -> nat {
    below_level(lits, a, top_level(lits, a))
}

/// The decision levels that occur among the literals.
pub open spec fn levels_of(lits: Seq<Literal>, a: AssigModel) -> Set<usize> {
    Set::new(|l: usize| exists|i: int| 0 <= i < lits.len() && lit_level(#[trigger] lits[i], a) == l)
}

/// No literal lies above the top level, and some literal lies on it.
pub proof fn lemma_top_level(lits: Seq<Literal>, a: AssigModel)
    ensures
        forall|i: int| 0 <= i < lits.len() ==> lit_level(#[trigger] lits[i], a) <= top_level(lits, a),
        lits.len() > 0 ==> exists|i: int|
            0 <= i < lits.len() && lit_level(#[trigger] lits[i], a) == top_level(lits, a),
    decreases lits.len(),
{
    if lits.len() > 0 {
        let p = lits.drop_last();
        lemma_top_level(p, a);
        assert forall|i: int| 0 <= i < lits.len() implies lit_level(#[trigger] lits[i], a)
            <= top_level(lits, a) by {
            if i < p.len() {
                assert(p[i] == lits[i]);
            }
        }
        if p.len() > 0 && top_level(p, a) >= lit_level(lits.last(), a) {
            let i = choose|i: int| 0 <= i < p.len() && lit_level(#[trigger] p[i], a) == top_level(p, a);
            assert(lits[i] == p[i]);
        } else {
            assert(lit_level(lits[lits.len() - 1], a) == top_level(lits, a));
        }
    }
}

/// `below_level` is below its bound (or 0), bounds every level below the
/// bound from above, and is the level of some literal if any lies below
/// the bound.
pub proof fn lemma_below_level(lits: Seq<Literal>, a: AssigModel, bound: nat)
    ensures
        bound > 0 ==> below_level(lits, a, bound) < bound,
        bound == 0 ==> below_level(lits, a, bound) == 0,
        forall|i: int|
            0 <= i < lits.len() && lit_level(#[trigger] lits[i], a) < bound ==> lit_level(
                lits[i],
                a,
            ) <= below_level(lits, a, bound),
        (exists|i: int| 0 <= i < lits.len() && lit_level(#[trigger] lits[i], a) < bound)
            ==> exists|i: int|
            0 <= i < lits.len() && lit_level(#[trigger] lits[i], a) == below_level(lits, a, bound),
    decreases lits.len(),
{
    if lits.len() > 0 {
        let p = lits.drop_last();
        lemma_below_level(p, a, bound);
        let l = lit_level(lits.last(), a);
        assert forall|i: int|
            0 <= i < lits.len() && lit_level(#[trigger] lits[i], a) < bound implies lit_level(
            lits[i],
            a,
        ) <= below_level(lits, a, bound) by {
            if i < p.len() {
                assert(p[i] == lits[i]);
            }
        }
        if exists|i: int| 0 <= i < lits.len() && lit_level(#[trigger] lits[i], a) < bound {
            let w = choose|i: int| 0 <= i < lits.len() && lit_level(#[trigger] lits[i], a) < bound;
            if l < bound && l >= below_level(p, a, bound) {
                assert(lit_level(lits[lits.len() - 1], a) == below_level(lits, a, bound));
            } else {
                if w < p.len() {
                    assert(p[w] == lits[w]);
                } else {
                    assert(l < bound);
                }
                assert(exists|i: int| 0 <= i < p.len() && lit_level(#[trigger] p[i], a) < bound) by {
                    if w < p.len() {
                        assert(lit_level(p[w], a) < bound);
                    } else {
                        // the last literal lies below the bound but under below_level(p):
                        // then below_level(p) > 0 is the level of a literal of p
                        assert(below_level(p, a, bound) > l);
                        lemma_below_positive(p, a, bound);
                    }
                }
                let i = choose|i: int|
                    0 <= i < p.len() && lit_level(#[trigger] p[i], a) == below_level(p, a, bound);
                assert(lits[i] == p[i]);
            }
        }
    }
}

/// A positive `below_level` is the level of some literal below the bound.
pub proof fn lemma_below_positive(lits: Seq<Literal>, a: AssigModel, bound: nat)
    requires
        below_level(lits, a, bound) > 0,
    ensures
        exists|i: int| 0 <= i < lits.len() && lit_level(#[trigger] lits[i], a) < bound,
    decreases lits.len(),
{
    if lits.len() > 0 {
        let p = lits.drop_last();
        let l = lit_level(lits.last(), a);
        if l < bound {
            assert(lit_level(lits[lits.len() - 1], a) < bound);
        } else {
            lemma_below_positive(p, a, bound);
            let i = choose|i: int| 0 <= i < p.len() && lit_level(#[trigger] p[i], a) < bound;
            assert(lits[i] == p[i]);
        }
    }
}

/// Below a bound that lies above every level, the highest level is the top
/// level.
pub proof fn lemma_below_above_top(lits: Seq<Literal>, a: AssigModel, bound: nat)
    requires
        bound > top_level(lits, a),
    ensures
        below_level(lits, a, bound) == top_level(lits, a),
    decreases lits.len(),
{
    if lits.len() > 0 {
        lemma_below_above_top(lits.drop_last(), a, bound);
    }
}

/// The levels of a clause depend only on the levels of its literals.
pub proof fn lemma_levels_agree(lits: Seq<Literal>, a: AssigModel, b: AssigModel, bound: nat)
    requires
        forall|i: int|
            0 <= i < lits.len() ==> lit_level(#[trigger] lits[i], a) == lit_level(lits[i], b),
    ensures
        top_level(lits, a) == top_level(lits, b),
        below_level(lits, a, bound) == below_level(lits, b, bound),
        levels_of(lits, a) == levels_of(lits, b),
    decreases lits.len(),
{
    if lits.len() > 0 {
        let p = lits.drop_last();
        assert forall|i: int| 0 <= i < p.len() implies lit_level(#[trigger] p[i], a) == lit_level(
            p[i],
            b,
        ) by {
            assert(p[i] == lits[i]);
        }
        lemma_levels_agree(p, a, b, bound);
        assert(lit_level(lits[lits.len() - 1], a) == lit_level(lits[lits.len() - 1], b));
    }
    assert(levels_of(lits, a) =~= levels_of(lits, b));
}

impl SolverState {
    /// The second highest decision level among `lits`, or 0 if they all
    /// share one level.
    pub fn get_backtrack_level(&self, lits: &[Literal]) -> (r: usize)
        requires
            forall|i: int|
                0 <= i < lits@.len() ==> (#[trigger] lits@[i]).var < self.assig@.len()
                    && self.assig@[lits@[i].var as int] is Some,
        ensures
            r == backtrack_level_of(lits@, self.assig@),
    {
        let ghost a = self.assig@;
        let mut highest: Option<usize> = None;
        let mut second_highest: Option<usize> = None;
        let mut i: usize = 0;
        while i < lits.len()
            invariant
                i <= lits@.len(),
                a == self.assig@,
                forall|k: int|
                    0 <= k < lits@.len() ==> (#[trigger] lits@[k]).var < a.len() && a[lits@[k].var as int] is Some,
                i == 0 ==> highest is None && second_highest is None,
                i > 0 ==> highest == Some(top_level(lits@.take(i as int), a) as usize),
                top_level(lits@.take(i as int), a) <= usize::MAX,
                (match second_highest {
                    Some(s) => s as nat,
                    None => 0,
                }) == below_level(lits@.take(i as int), a, top_level(lits@.take(i as int), a)),
                second_highest matches Some(s) ==> s < top_level(lits@.take(i as int), a),
            decreases lits@.len() - i,
        {
            let v_level = self.get_lit_level(&lits[i]);
            proof {
                let p = lits@.take(i as int);
                let longer = lits@.take(i + 1);
                assert(longer.drop_last() =~= p);
                assert(longer.last() == lits@[i as int]);
                lemma_below_level(p, a, top_level(p, a));
                if v_level > top_level(p, a) {
                    lemma_below_above_top(p, a, v_level as nat);
                }
            }
            match highest {
                Some(h) => {
                    if v_level > h {
                        second_highest = highest;
                        highest = Some(v_level);
                    } else if v_level < h {
                        match second_highest {
                            Some(sh) => {
                                if v_level > sh {
                                    second_highest = Some(v_level);
                                }
                            },
                            None => {
                                second_highest = Some(v_level);
                            },
                        }
                    }
                },
                None => {
                    highest = Some(v_level);
                },
            }
            i = i + 1;
        }
        proof {
            assert(lits@.take(lits@.len() as int) =~= lits@);
        }
        match second_highest {
            Some(s) => s,
            None => 0,
        }
    }

    /// The number of distinct decision levels among `lits`.
    pub fn count_levels(&self, lits: &[Literal]) -> (r: usize)
        requires
            forall|i: int|
                0 <= i < lits@.len() ==> (#[trigger] lits@[i]).var < self.assig@.len()
                    && self.assig@[lits@[i].var as int] is Some,
        ensures
            levels_of(lits@, self.assig@).finite(),
            r == levels_of(lits@, self.assig@).len(),
    {
        let ghost a = self.assig@;
        let mut leveltrack: FxHashSet<usize> = FxHashSet::default();
        let mut i: usize = 0;
        proof {
            assert(leveltrack@ =~= levels_of(lits@.take(0), a));
        }
        while i < lits.len()
            invariant
                i <= lits@.len(),
                a == self.assig@,
                forall|k: int|
                    0 <= k < lits@.len() ==> (#[trigger] lits@[k]).var < a.len() && a[lits@[k].var as int] is Some,
                leveltrack@ == levels_of(lits@.take(i as int), a),
                leveltrack@.finite(),
            decreases lits@.len() - i,
        {
            let l = self.get_lit_level(&lits[i]);
            let ghost before = leveltrack@;
            set_insert(&mut leveltrack, l);
            proof {
                let p = lits@.take(i as int);
                let longer = lits@.take(i + 1);
                assert forall|x: usize| before.insert(l).contains(x) <==> levels_of(longer, a).contains(
                    x,
                ) by {
                    if before.insert(l).contains(x) {
                        if x == l {
                            assert(lit_level(longer[i as int], a) == x);
                        } else {
                            let k = choose|k: int|
                                0 <= k < p.len() && lit_level(#[trigger] p[k], a) == x;
                            assert(longer[k] == p[k]);
                        }
                    }
                    if levels_of(longer, a).contains(x) {
                        let k = choose|k: int|
                            0 <= k < longer.len() && lit_level(#[trigger] longer[k], a) == x;
                        if k < i {
                            assert(p[k] == longer[k]);
                        }
                    }
                }
                assert(leveltrack@ =~= levels_of(longer, a));
            }
            i = i + 1;
        }
        proof {
            assert(lits@.take(lits@.len() as int) =~= lits@);
        }
        set_len(&leveltrack)
    }
}

} // verus!

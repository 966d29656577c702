//! The order in which variables are offered for branching.

use vstd::prelude::*;
use std::cmp::Ordering;
use crate::heuristic::ScoreVar;

verus! {

/// Rank of a saved polarity: none, then negative, then positive.
pub open spec fn phase_rank(p: Option<bool>) -> int {
    match p {
        None => 0,
        Some(false) => 1,
        Some(true) => 2,
    }
}

/// `a` ranks at least as high as `b`: by positive score, then negative
/// score, then variable id, then saved polarity.
pub open spec fn ranks_at_least(a: ScoreVar, b: ScoreVar) -> bool {
    ||| a.phase.true_score > b.phase.true_score
    ||| (a.phase.true_score == b.phase.true_score && a.phase.false_score > b.phase.false_score)
    ||| (a.phase.true_score == b.phase.true_score && a.phase.false_score == b.phase.false_score
        && a.var > b.var)
    ||| (a.phase.true_score == b.phase.true_score && a.phase.false_score == b.phase.false_score
        && a.var == b.var && phase_rank(a.stored_phase) >= phase_rank(b.stored_phase))
}

/// No entry ranks strictly below a later one.
pub open spec fn sorted_descending(s: Seq<ScoreVar>) -> bool {
    forall|i: int, j: int| 0 <= i < j < s.len() ==> ranks_at_least(s[i], s[j])
}

fn saved_rank(p: Option<bool>) -> (r: u8)
    ensures
        r == phase_rank(p),
{
    match p {
        None => 0,
        Some(false) => 1,
        Some(true) => 2,
    }
}

/// How `a` stands to `b` in rank.
pub fn rank_order(a: &ScoreVar, b: &ScoreVar) -> (r: Ordering)
    ensures
        (r == Ordering::Less) <==> !ranks_at_least(*a, *b),
        (r == Ordering::Greater) <==> !ranks_at_least(*b, *a),
        (r == Ordering::Equal) <==> (ranks_at_least(*a, *b) && ranks_at_least(*b, *a)),
{
    if a.phase.true_score < b.phase.true_score {
        Ordering::Less
    } else if a.phase.true_score > b.phase.true_score {
        Ordering::Greater
    } else if a.phase.false_score < b.phase.false_score {
        Ordering::Less
    } else if a.phase.false_score > b.phase.false_score {
        Ordering::Greater
    } else if a.var < b.var {
        Ordering::Less
    } else if a.var > b.var {
        Ordering::Greater
    } else {
        let ra = saved_rank(a.stored_phase);
        let rb = saved_rank(b.stored_phase);
        if ra < rb {
            Ordering::Less
        } else if ra > rb {
            Ordering::Greater
        } else {
            Ordering::Equal
        }
    }
}

/// `slice::sort_by` with `rank_order` reversed: the entries are kept, each as
/// often as before, and end up with the highest rank first.
#[verifier::external_body]
pub(crate) fn sort_descending(v: &mut Vec<ScoreVar>)
    ensures
        final(v)@.to_multiset() == old(v)@.to_multiset(),
        sorted_descending(final(v)@),
{
    v.sort_by(|a, b| rank_order(b, a));
}

} // verus!

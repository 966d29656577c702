//! Hash sets and maps keyed by `usize` that use the Fx hasher.
//!
//! Their contents are modelled by the views that vstd gives to the standard
//! `HashSet` and `HashMap`. What each operation does to that view is stated
//! here and not proved: it rests on the standard collections behaving as
//! documented when they are built over `FxBuildHasher`, whose hashers all
//! start from the same fixed state.

use vstd::prelude::*;
use rustc_hash::{FxBuildHasher, FxHashMap, FxHashSet};
use crate::heuristic::Phase;

verus! {

/// `rustc_hash::FxBuildHasher`, opaque to the verifier.
#[verifier::external_type_specification]
#[verifier::external_body]
pub struct ExFxBuildHasher(FxBuildHasher);

/// `HashSet::insert` on an Fx set: the key joins the set, and the answer
/// tells whether it was absent before.
#[verifier::external_body]
pub(crate) fn set_insert(s: &mut FxHashSet<usize>, k: usize) -> (fresh: bool)
    ensures
        final(s)@ == old(s)@.insert(k),
        fresh == !old(s)@.contains(k),
{
    s.insert(k)
}

/// `HashSet::contains` on an Fx set: whether the key is in the set.
#[verifier::external_body]
pub(crate) fn set_contains(s: &FxHashSet<usize>, k: usize) -> (r: bool)
    ensures
        r == s@.contains(k),
{
    s.contains(&k)
}

/// `HashSet::remove` on an Fx set: the key leaves the set, and the answer
/// tells whether it was present.
#[verifier::external_body]
pub(crate) fn set_remove(s: &mut FxHashSet<usize>, k: usize) -> (present: bool)
    ensures
        final(s)@ == old(s)@.remove(k),
        present == old(s)@.contains(k),
{
    s.remove(&k)
}

/// `HashSet::len` on an Fx set: the number of keys in the set.
#[verifier::external_body]
pub(crate) fn set_len(s: &FxHashSet<usize>) -> (n: usize)
    ensures
        n == s@.len(),
{
    s.len()
}

/// `HashSet::iter` on an Fx set, collected: every key of the set exactly
/// once, in an order that is not specified.
#[verifier::external_body]
pub(crate) fn set_items(s: &FxHashSet<usize>) -> (v: Vec<usize>)
    ensures
        v@.no_duplicates(),
        forall|k: usize| v@.contains(k) <==> s@.contains(k),
{
    s.iter().copied().collect()
}

/// `HashMap::insert` on an Fx map: the key is bound to the value.
#[verifier::external_body]
pub(crate) fn map_insert(m: &mut FxHashMap<usize, Phase>, k: usize, v: Phase)
    ensures
        final(m)@ == old(m)@.insert(k, v),
{
    m.insert(k, v);
}

/// `HashMap::get` on an Fx map: the value bound to the key, if any.
#[verifier::external_body]
pub(crate) fn map_get(m: &FxHashMap<usize, Phase>, k: usize) -> (r: Option<Phase>)
    ensures
        r == (if m@.contains_key(k) {
            Some(m@[k])
        } else {
            None
        }),
{
    m.get(&k).copied()
}

} // verus!

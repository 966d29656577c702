//! The invariants that tie the parts of the solver together, stated over
//! the mathematical models of the assignment, the trail, the clause store
//! and the watch index.

use vstd::prelude::*;
use crate::assig::{lit_falsified, lit_level, lit_satisfied, lit_unassigned, AssigInfo, AssigModel};
use crate::clause::{clause_sat, Clause};
use crate::decision::Decision;
use crate::literal::Literal;
use crate::watch::WatchList;

verus! {

// ---------------------------------------------------------------------
// The trail
// ---------------------------------------------------------------------
/// The decision level recorded for the literal of trail entry `i`.
pub open spec fn entry_level(t: Seq<Decision>, a: AssigModel, i: int) -> nat {
    lit_level(t[i].lit(), a)
}

/// Some trail entry assigns variable `v`.
pub open spec fn on_trail(t: Seq<Decision>, v: int) -> bool {
    exists|i: int| 0 <= i < t.len() && (#[trigger] t[i]).lit().var == v
}

/// Entry `i` is a guess that opens the next level, or a propagation that
/// continues the level of the entry before it; its literal is satisfied.
pub open spec fn entry_ok(t: Seq<Decision>, a: AssigModel, n: nat, i: int) -> bool {
    let d = t[i];
    &&& 1 <= d.lit().var <= n
    &&& lit_satisfied(d.lit(), a)
    &&& 1 <= entry_level(t, a, i) <= i + 1
    &&& match d {
        Decision::AssertUnit { .. } => false,
        Decision::Choice { .. } => entry_level(t, a, i) == (if i == 0 {
            1
        } else {
            entry_level(t, a, i - 1) + 1
        }),
        Decision::UnitProp { .. } => i > 0 && entry_level(t, a, i) == entry_level(t, a, i - 1),
    }
}

/// What is assigned at variable `v` belongs to a level that is in effect,
/// and is on the trail unless it is a fact of level 0.
pub open spec fn slot_ok(t: Seq<Decision>, a: AssigModel, level: nat, v: int) -> bool {
    a[v] matches Some(info) ==> info.level <= level && (info.level >= 1 ==> on_trail(t, v))
}

/// The trail and the assignment mirror each other.
pub open spec fn trail_ok(t: Seq<Decision>, a: AssigModel, level: nat, n: nat) -> bool {
    &&& forall|i: int| 0 <= i < t.len() ==> #[trigger] entry_ok(t, a, n, i)
    &&& forall|i: int, j: int|
        0 <= i < j < t.len() ==> (#[trigger] t[i]).lit().var != (#[trigger] t[j]).lit().var
    &&& forall|i: int, j: int|
        0 <= i <= j < t.len() ==> #[trigger] entry_level(t, a, i) <= #[trigger] entry_level(t, a, j)
    &&& level == (if t.len() == 0 {
        0
    } else {
        entry_level(t, a, t.len() - 1)
    })
    &&& forall|v: int| 0 <= v < a.len() ==> #[trigger] slot_ok(t, a, level, v)
}

/// Literal `m` is falsified, and by an assignment made before trail
/// position `i`.
pub open spec fn earlier_false(t: Seq<Decision>, a: AssigModel, m: Literal, i: int) -> bool {
    &&& lit_falsified(m, a)
    &&& forall|j: int| i <= j < t.len() ==> (#[trigger] t[j]).lit().var != m.var
}

/// The clause names the variable of `lit` only as `lit`.
pub open spec fn names_only(lits: Seq<Literal>, lit: Literal) -> bool {
    forall|k: int| 0 <= k < lits.len() && (#[trigger] lits[k]).var == lit.var ==> lits[k] == lit
}

/// If entry `i` is a propagation, its antecedent clause exists, each of
/// its literals over another variable was falsified before the entry, and
/// it names the variable of the entry only as the literal of the entry.
pub open spec fn antecedent_ok(t: Seq<Decision>, a: AssigModel, c: Seq<Clause>, i: int) -> bool {
    t[i] matches Decision::UnitProp { lit, unit_prop_idx } ==> {
        &&& unit_prop_idx < c.len()
        &&& forall|k: int|
            0 <= k < c[unit_prop_idx as int].literals@.len() && (
            #[trigger] c[unit_prop_idx as int].literals@[k]).var != lit.var ==> earlier_false(
                t,
                a,
                c[unit_prop_idx as int].literals@[k],
                i,
            )
        &&& names_only(c[unit_prop_idx as int].literals@, lit)
    }
}

/// Every propagation on the trail is justified by its antecedent clause.
pub open spec fn justified(t: Seq<Decision>, a: AssigModel, c: Seq<Clause>) -> bool {
    forall|i: int| 0 <= i < t.len() ==> #[trigger] antecedent_ok(t, a, c, i)
}

// ---------------------------------------------------------------------
// The clause store and the watch index
// ---------------------------------------------------------------------
/// Every stored clause is well formed over the variables `1..=n`.
pub open spec fn clauses_ok(c: Seq<Clause>, n: nat) -> bool {
    forall|i: int| 0 <= i < c.len() ==> (#[trigger] c[i]).wf(n)
}

/// `idx` names a stored clause one of whose watches rests on `l`.
pub open spec fn watched_by(c: Seq<Clause>, idx: usize, l: Literal) -> bool {
    idx < c.len() && (c[idx as int].watch1() == l || c[idx as int].watch2() == l)
}

/// The list of `l` names, without repetition, only clauses that watch `l`.
pub open spec fn list_ok(w: WatchList, c: Seq<Clause>, l: Literal) -> bool {
    &&& w.list(l).no_duplicates()
    &&& forall|k: int| 0 <= k < w.list(l).len() ==> watched_by(c, #[trigger] w.list(l)[k], l)
}

/// Clause `i` is in the lists of both literals it watches.
pub open spec fn in_both_lists(w: WatchList, c: Seq<Clause>, i: int) -> bool {
    &&& w.list(c[i].watch1()).contains(i as usize)
    &&& w.list(c[i].watch2()).contains(i as usize)
}

/// The watch index and the watches of the clauses agree.
pub open spec fn watches_ok(w: WatchList, c: Seq<Clause>, n: nat) -> bool {
    &&& w.watchlist@.len() == n + 1
    &&& c.len() <= usize::MAX
    &&& forall|l: Literal| l.var <= n ==> #[trigger] list_ok(w, c, l)
    &&& forall|i: int| 0 <= i < c.len() ==> #[trigger] in_both_lists(w, c, i)
}

/// If watch `x` is falsified at a level below `k`, the other watch `y` is
/// satisfied, and was so no later than `x` became false.
pub open spec fn watch_pair_ok(x: Literal, y: Literal, a: AssigModel, k: nat) -> bool {
    (lit_falsified(x, a) && lit_level(x, a) < k) ==> (lit_satisfied(y, a) && lit_level(y, a)
        <= lit_level(x, a))
}

/// Both watches of the clause meet `watch_pair_ok`.
pub open spec fn clause_watch_ok(cl: Clause, a: AssigModel, k: nat) -> bool {
    &&& watch_pair_ok(cl.watch1(), cl.watch2(), a, k)
    &&& watch_pair_ok(cl.watch2(), cl.watch1(), a, k)
}

/// Every clause meets `clause_watch_ok` for watches falsified below level
/// `k`.
pub open spec fn watch_inv(c: Seq<Clause>, a: AssigModel, k: nat) -> bool {
    forall|i: int| 0 <= i < c.len() ==> clause_watch_ok(#[trigger] c[i], a, k)
}

/// As `watch_pair_ok`, but nothing is asked of a watch that rests on `f`.
pub open spec fn watch_pair_pending(x: Literal, y: Literal, a: AssigModel, f: Literal) -> bool {
    (lit_falsified(x, a) && x != f) ==> (lit_satisfied(y, a) && lit_level(y, a) <= lit_level(
        x,
        a,
    ))
}

/// Every clause meets the watch invariant except where it watches `f`: the
/// state in which the consequences of `f` having become false are still to
/// be drawn.
pub open spec fn watch_inv_pending(c: Seq<Clause>, a: AssigModel, f: Literal) -> bool {
    forall|i: int|
        0 <= i < c.len() ==> watch_pair_pending(
            (#[trigger] c[i]).watch1(),
            c[i].watch2(),
            a,
            f,
        ) && watch_pair_pending(c[i].watch2(), c[i].watch1(), a, f)
}

/// If watch `x` is falsified and does not rest on `f`, the other watch `y`
/// is satisfied.
pub open spec fn pair_awaits(x: Literal, y: Literal, a: AssigModel, f: Literal) -> bool {
    (lit_falsified(x, a) && x != f) ==> lit_satisfied(y, a)
}

/// No clause has a falsified watch beside a watch that is not satisfied,
/// except where it watches `f`.
pub open spec fn awaits(c: Seq<Clause>, a: AssigModel, f: Literal) -> bool {
    forall|i: int|
        0 <= i < c.len() ==> pair_awaits((#[trigger] c[i]).watch1(), c[i].watch2(), a, f)
            && pair_awaits(c[i].watch2(), c[i].watch1(), a, f)
}

/// `a` with every recorded level replaced by `lv`.
pub open spec fn levelled(a: AssigModel, lv: nat) -> AssigModel {
    Seq::new(
        a.len(),
        |v: int|
            match a[v] {
                Some(info) => Some(AssigInfo { litsign: info.litsign, level: lv as usize }),
                None => None,
            },
    )
}

/// Replacing the levels changes no truth value.
pub proof fn lemma_levelled(a: AssigModel, lv: nat)
    requires
        lv <= usize::MAX,
    ensures
        levelled(a, lv).len() == a.len(),
        forall|l: Literal| #[trigger] lit_falsified(l, levelled(a, lv)) == lit_falsified(l, a),
        forall|l: Literal| #[trigger] lit_satisfied(l, levelled(a, lv)) == lit_satisfied(l, a),
        forall|l: Literal| #[trigger] lit_unassigned(l, levelled(a, lv)) == lit_unassigned(l, a),
        forall|l: Literal|
            lit_falsified(l, a) || lit_satisfied(l, a) ==> #[trigger] lit_level(
                l,
                levelled(a, lv),
            ) == lv,
        levels_below(levelled(a, lv), lv + 1),
{
}

/// Replacing the levels turns `awaits` into the watch invariant with `f`
/// pending.
pub proof fn lemma_awaits_levelled(c: Seq<Clause>, a: AssigModel, f: Literal, lv: nat)
    requires
        lv <= usize::MAX,
        awaits(c, a, f),
    ensures
        watch_inv_pending(c, levelled(a, lv), f),
{
    lemma_levelled(a, lv);
    assert forall|i: int| 0 <= i < c.len() implies watch_pair_pending(
        (#[trigger] c[i]).watch1(),
        c[i].watch2(),
        levelled(a, lv),
        f,
    ) && watch_pair_pending(c[i].watch2(), c[i].watch1(), levelled(a, lv), f) by {
        assert(pair_awaits(c[i].watch1(), c[i].watch2(), a, f));
        assert(pair_awaits(c[i].watch2(), c[i].watch1(), a, f));
    }
}

/// The watch invariant over replaced levels gives the one over the levels
/// as they are, without its statement on levels.
pub proof fn lemma_levelled_sound(c: Seq<Clause>, a: AssigModel, lv: nat, n: nat)
    requires
        lv <= usize::MAX,
        watch_inv(c, levelled(a, lv), lv + 1),
        clauses_ok(c, n),
        a.len() == n + 1,
    ensures
        watch_invariant(c, a),
{
    lemma_levelled(a, lv);
    assert forall|i: int| 0 <= i < c.len() implies clause_watch_sound(#[trigger] c[i], a) by {
        let cl = c[i];
        assert(cl.wf(n));
        assert(clause_watch_ok(cl, levelled(a, lv), lv + 1));
        assert(slot_below(levelled(a, lv)[cl.watch1().var as int], lv + 1));
        assert(slot_below(levelled(a, lv)[cl.watch2().var as int], lv + 1));
    }
}

/// When a literal is recorded in a state whose watches are sound, only
/// the watches on its negation wait for their consequences.
pub proof fn lemma_recorded_awaits(c: Seq<Clause>, a: AssigModel, l: Literal, info: AssigInfo)
    requires
        watch_invariant(c, a),
        lit_unassigned(l, a),
        info.litsign == l.sign,
    ensures
        awaits(c, a.update(l.var as int, Some(info)), l.negated()),
{
    let b = a.update(l.var as int, Some(info));
    assert forall|i: int| 0 <= i < c.len() implies pair_awaits(
        (#[trigger] c[i]).watch1(),
        c[i].watch2(),
        b,
        l.negated(),
    ) && pair_awaits(c[i].watch2(), c[i].watch1(), b, l.negated()) by {
        assert(clause_watch_sound(c[i], a));
    }
}

/// The two watches of the clause are both unassigned, or one of them is
/// satisfied.
pub open spec fn clause_watch_sound(cl: Clause, a: AssigModel) -> bool {
    ||| (lit_unassigned(cl.watch1(), a) && lit_unassigned(cl.watch2(), a))
    ||| lit_satisfied(cl.watch1(), a)
    ||| lit_satisfied(cl.watch2(), a)
}

/// No clause has a falsified watch beside a watch that is not satisfied.
pub open spec fn watch_invariant(c: Seq<Clause>, a: AssigModel) -> bool {
    forall|i: int| 0 <= i < c.len() ==> clause_watch_sound(#[trigger] c[i], a)
}

// ---------------------------------------------------------------------
// The formula
// ---------------------------------------------------------------------
/// Some literal is satisfied by a fact of level 0.
pub open spec fn root_sat(lits: Seq<Literal>, a: AssigModel) -> bool {
    exists|k: int|
        0 <= k < lits.len() && lit_satisfied(#[trigger] lits[k], a) && lit_level(lits[k], a) == 0
}

/// Stored clause `i` is not a learned clause, and all its literals occur in
/// `o`.
pub open spec fn stored_for(c: Seq<Clause>, o: Seq<Literal>, i: int) -> bool {
    &&& 0 <= i < c.len()
    &&& !c[i].conflict
    &&& forall|k: int| 0 <= k < c[i].literals@.len() ==> o.contains(#[trigger] c[i].literals@[k])
}

/// Clause `o` is settled at level 0 or still stored.
pub open spec fn covered(o: Seq<Literal>, c: Seq<Clause>, a: AssigModel) -> bool {
    root_sat(o, a) || exists|i: int| #[trigger] stored_for(c, o, i)
}

/// Every clause of the formula is settled at level 0 or still stored.
pub open spec fn formula_covered(f: Seq<Seq<Literal>>, c: Seq<Clause>, a: AssigModel) -> bool {
    forall|j: int| 0 <= j < f.len() ==> covered(#[trigger] f[j], c, a)
}

/// A clause marked as deleted is settled at level 0.
pub open spec fn deleted_ok(c: Seq<Clause>, a: AssigModel) -> bool {
    forall|i: int| 0 <= i < c.len() && (#[trigger] c[i]).deleted ==> root_sat(c[i].literals@, a)
}

/// Every clause of `f` has a satisfied literal.
pub open spec fn formula_sat(f: Seq<Seq<Literal>>, a: AssigModel) -> bool {
    forall|j: int| 0 <= j < f.len() ==> clause_sat(#[trigger] f[j], a)
}

/// The slot holds a fact of level 0.
pub open spec fn is_root_fact(s: Option<AssigInfo>) -> bool {
    s is Some && s->Some_0.level == 0
}

/// Every fact of level 0 in `a` is the same in `b`.
pub open spec fn keeps_root_facts(a: AssigModel, b: AssigModel) -> bool {
    &&& a.len() == b.len()
    &&& forall|v: int| 0 <= v < a.len() && is_root_fact(#[trigger] a[v]) ==> b[v] == a[v]
}

/// The slot is empty or holds a level below `k`.
pub open spec fn slot_below(s: Option<AssigInfo>, k: nat) -> bool {
    s is Some ==> s->Some_0.level < k
}

/// Every assigned variable was assigned at a level below `k`.
pub open spec fn levels_below(a: AssigModel, k: nat) -> bool {
    forall|v: int| 0 <= v < a.len() ==> slot_below(#[trigger] a[v], k)
}

/// `b` agrees with `a` wherever `a` is assigned.
pub open spec fn extends(b: AssigModel, a: AssigModel) -> bool {
    &&& b.len() == a.len()
    &&& forall|v: int| 0 <= v < a.len() && (#[trigger] a[v]) is Some ==> b[v] == a[v]
}

/// The two stores hold the same clauses up to their watched positions.
pub open spec fn same_clauses(c: Seq<Clause>, d: Seq<Clause>) -> bool {
    &&& c.len() == d.len()
    &&& forall|i: int| 0 <= i < c.len() ==> (#[trigger] c[i]).same_but_watches(&d[i])
}

/// The two stores hold the same clauses up to their deletion marks.
pub open spec fn same_but_marks(c: Seq<Clause>, d: Seq<Clause>) -> bool {
    &&& c.len() == d.len()
    &&& forall|i: int|
        0 <= i < c.len() ==> #[trigger] c[i] == (Clause { deleted: c[i].deleted, ..d[i] })
}

/// The store with the watches of every clause reset against `a`.
pub open spec fn rewatched_all(c: Seq<Clause>, a: AssigModel) -> Seq<Clause> {
    Seq::new(c.len(), |i: int| c[i].rewatched(a))
}

/// The indices below `k` of the clauses that watch `l`, in increasing
/// order.
pub open spec fn watchers(c: Seq<Clause>, k: int, l: Literal) -> Seq<usize>
    decreases k,
{
    if k <= 0 {
        Seq::empty()
    } else {
        let w = watchers(c, k - 1, l);
        if c[k - 1].watch1() == l || c[k - 1].watch2() == l {
            w.push((k - 1) as usize)
        } else {
            w
        }
    }
}

/// Every list of the watch index holds the clauses that watch its literal,
/// in the order of the store.
pub open spec fn watched_in_order(w: WatchList, c: Seq<Clause>, n: nat) -> bool {
    forall|l: Literal| l.var <= n ==> #[trigger] w.list(l) == watchers(c, c.len() as int, l)
}

/// The watchers below `k` depend only on the clauses below `k`.
pub proof fn lemma_watchers_prefix(c: Seq<Clause>, d: Seq<Clause>, k: int, l: Literal)
    requires
        0 <= k <= c.len(),
        k <= d.len(),
        forall|j: int| 0 <= j < k ==> c[j] == d[j],
    ensures
        watchers(c, k, l) == watchers(d, k, l),
    decreases k,
{
    if k > 0 {
        lemma_watchers_prefix(c, d, k - 1, l);
    }
}

/// The watchers do not depend on deletion marks.
pub proof fn lemma_watchers_same_marks(c: Seq<Clause>, d: Seq<Clause>, k: int, l: Literal)
    requires
        0 <= k <= c.len(),
        same_but_marks(d, c),
    ensures
        watchers(c, k, l) == watchers(d, k, l),
    decreases k,
{
    if k > 0 {
        lemma_watchers_same_marks(c, d, k - 1, l);
        assert(d[k - 1] == (Clause { deleted: d[k - 1].deleted, ..c[k - 1] }));
    }
}

/// Each watch of `cl` rests where it rested in `ol`, unless the literal it
/// rested on is falsified.
pub open spec fn watch_kept(cl: Clause, ol: Clause, a: AssigModel) -> bool {
    &&& !lit_falsified(ol.watch1(), a) ==> cl.w1 == ol.w1
    &&& !lit_falsified(ol.watch2(), a) ==> cl.w2 == ol.w2
}

/// A watch has moved only off a falsified literal.
pub open spec fn moved_off_false(c: Seq<Clause>, o: Seq<Clause>, a: AssigModel) -> bool {
    &&& c.len() == o.len()
    &&& forall|i: int| 0 <= i < c.len() ==> watch_kept(#[trigger] c[i], o[i], a)
}

/// What has moved off a falsified literal has done so under any larger
/// assignment.
pub proof fn lemma_moved_grows(c: Seq<Clause>, o: Seq<Clause>, a: AssigModel, b: AssigModel)
    requires
        moved_off_false(c, o, a),
        extends(b, a),
    ensures
        moved_off_false(c, o, b),
{
    assert forall|i: int| 0 <= i < c.len() implies watch_kept(#[trigger] c[i], o[i], b) by {
        assert(watch_kept(c[i], o[i], a));
    }
}

} // verus!

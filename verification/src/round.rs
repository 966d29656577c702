//! One round of unit propagation: the state of the watches while the
//! consequences of a literal are being drawn, and why each step keeps it.

use vstd::prelude::*;
use crate::assig::{lit_falsified, lit_level, lit_satisfied, lit_unassigned, AssigInfo, AssigModel};
use crate::clause::{all_falsified, no_replacement, Clause};
use crate::consistency::{
    clause_watch_ok, clauses_ok, in_both_lists, levels_below, list_ok, slot_below, watch_inv,
    watch_inv_pending, watch_pair_pending, watched_by, watches_ok,
};
use crate::decision::Decision;
use crate::literal::{Literal, MAX_VARIABLE};
use crate::watch::WatchList;

verus! {

/// Some entry of the worklist is for literal `y`.
pub open spec fn queued(q: Seq<Decision>, y: Literal) -> bool {
    exists|k: int| 0 <= k < q.len() && (#[trigger] q[k]).lit() == y
}

/// The clause contains `y`, and each of its other literals is falsified.
pub open spec fn unit_under(cl: Seq<Literal>, y: Literal, a: AssigModel) -> bool {
    &&& cl.contains(y)
    &&& forall|k: int| 0 <= k < cl.len() && (#[trigger] cl[k]) != y ==> lit_falsified(cl[k], a)
}

/// A worklist entry is a propagation whose antecedent clause watches its
/// literal and forces it.
pub open spec fn entry_ready(d: Decision, c: Seq<Clause>, a: AssigModel, n: nat)
    -> bool {
    match d {
        Decision::UnitProp { lit, unit_prop_idx } => {
            &&& 1 <= lit.var <= n
            &&& unit_prop_idx < c.len()
            &&& unit_under(c[unit_prop_idx as int].literals@, lit, a)
            &&& watched_by(c, unit_prop_idx, lit)
        },
        _ => false,
    }
}

/// The antecedent clause of a worklist entry.
pub open spec fn antecedent(d: Decision) -> int {
    match d {
        Decision::UnitProp { unit_prop_idx, .. } => unit_prop_idx as int,
        _ => -1,
    }
}

/// The literal of a worklist entry is unassigned, or it is `f`, which has
/// just become false, and the antecedent of the entry is still to be
/// visited.
pub open spec fn entry_fresh(d: Decision, a: AssigModel, f: Literal, rest: Seq<usize>, from: int)
    -> bool {
    lit_unassigned(d.lit(), a) || (d.lit() == f && unvisited(rest, from, antecedent(d)))
}

/// Every worklist entry is fresh.
pub open spec fn queue_fresh(
    q: Seq<Decision>,
    a: AssigModel,
    f: Literal,
    rest: Seq<usize>,
    from: int,
) -> bool {
    forall|k: int| 0 <= k < q.len() ==> entry_fresh(#[trigger] q[k], a, f, rest, from)
}

/// Every worklist entry is for an unassigned literal.
pub open spec fn queue_unassigned(q: Seq<Decision>, a: AssigModel) -> bool {
    forall|k: int| 0 <= k < q.len() ==> lit_unassigned((#[trigger] q[k]).lit(), a)
}

/// No two worklist entries are for the same literal, and every entry is
/// marked as seen.
pub open spec fn queue_distinct(q: Seq<Decision>, seen: Set<usize>) -> bool {
    &&& forall|i: int, j: int|
        0 <= i < j < q.len() ==> (#[trigger] q[i]).lit() != (#[trigger] q[j]).lit()
    &&& forall|k: int| 0 <= k < q.len() ==> seen.contains((#[trigger] q[k]).lit().code() as usize)
}

/// Every worklist entry is ready.
pub open spec fn queue_ready(q: Seq<Decision>, c: Seq<Clause>, a: AssigModel, n: nat)
    -> bool {
    forall|k: int| 0 <= k < q.len() ==> entry_ready(#[trigger] q[k], c, a, n)
}

/// Every literal marked as seen is on the worklist or assigned.
pub open spec fn seen_ok(seen: Set<usize>, q: Seq<Decision>, a: AssigModel, n: nat) -> bool {
    forall|l: Literal|
        1 <= l.var <= n && seen.contains(#[trigger] l.code() as usize) ==> queued(q, l)
            || a[l.var as int] is Some
}

/// The falsified watch `x` is accounted for: the other watch `y` is
/// satisfied and no younger, or `x` fell in this round and `y` is on the
/// worklist, forced by this clause.
pub open spec fn settled(
    x: Literal,
    y: Literal,
    cl: Seq<Literal>,
    a: AssigModel,
    q: Seq<Decision>,
    level: nat,
) -> bool {
    ||| (lit_satisfied(y, a) && lit_level(y, a) <= lit_level(x, a))
    ||| (lit_level(x, a) == level && queued(q, y) && unit_under(cl, y, a))
}

/// Clause `ci` is still to be visited: it is in `rest` at or after `from`.
pub open spec fn unvisited(rest: Seq<usize>, from: int, ci: int) -> bool {
    exists|p: int| from <= p < rest.len() && (#[trigger] rest[p]) == ci
}

/// What holds of watch `x` of clause `ci`, with other watch `y`, while the
/// clauses watching `f` are visited.
pub open spec fn round_pair(
    x: Literal,
    y: Literal,
    cl: Seq<Literal>,
    a: AssigModel,
    q: Seq<Decision>,
    level: nat,
    f: Literal,
    rest: Seq<usize>,
    from: int,
    ci: int,
) -> bool {
    lit_falsified(x, a) ==> (settled(x, y, cl, a, q, level) || (x == f && unvisited(
        rest,
        from,
        ci,
    )))
}

/// `round_pair` for both watches of clause `i`.
pub open spec fn round_clause(
    c: Seq<Clause>,
    i: int,
    a: AssigModel,
    q: Seq<Decision>,
    level: nat,
    f: Literal,
    rest: Seq<usize>,
    from: int,
) -> bool {
    &&& round_pair(c[i].watch1(), c[i].watch2(), c[i].literals@, a, q, level, f, rest, from, i)
    &&& round_pair(c[i].watch2(), c[i].watch1(), c[i].literals@, a, q, level, f, rest, from, i)
}

/// The state of all watches while the entries `rest[from..]` of the list of
/// `f` are still to be visited.
pub open spec fn round_inv(
    c: Seq<Clause>,
    a: AssigModel,
    q: Seq<Decision>,
    level: nat,
    f: Literal,
    rest: Seq<usize>,
    from: int,
) -> bool {
    forall|i: int| 0 <= i < c.len() ==> #[trigger] round_clause(c, i, a, q, level, f, rest, from)
}

/// The state of all watches between the visits of two lists.
pub open spec fn between_rounds(c: Seq<Clause>, a: AssigModel, q: Seq<Decision>, level: nat)
    -> bool {
    round_inv(c, a, q, level, Literal { var: 0, sign: false }, Seq::<usize>::empty(), 0)
}

/// With only the seed's negation pending, the visit of its list can start.
pub proof fn lemma_round_start_seed(
    c: Seq<Clause>,
    a: AssigModel,
    level: nat,
    f: Literal,
    w: WatchList,
    n: nat,
)
    requires
        watch_inv_pending(c, a, f),
        watches_ok(w, c, n),
    ensures
        round_inv(c, a, Seq::<Decision>::empty(), level, f, w.list(f), 0),
{
    let q = Seq::<Decision>::empty();
    assert forall|i: int| 0 <= i < c.len() implies #[trigger] round_clause(
        c,
        i,
        a,
        q,
        level,
        f,
        w.list(f),
        0,
    ) by {
        assert(watch_pair_pending(c[i].watch1(), c[i].watch2(), a, f));
        assert(watch_pair_pending(c[i].watch2(), c[i].watch1(), a, f));
        assert(in_both_lists(w, c, i));
        if c[i].watch1() == f {
            let p = choose|p: int| 0 <= p < w.list(f).len() && w.list(f)[p] == i as usize;
            assert(unvisited(w.list(f), 0, i));
        }
        if c[i].watch2() == f {
            let p = choose|p: int| 0 <= p < w.list(f).len() && w.list(f)[p] == i as usize;
            assert(unvisited(w.list(f), 0, i));
        }
    }
}

/// Falsified literals stay falsified, and levels stay, when an unassigned
/// variable is assigned.
pub open spec fn grows_by(a0: AssigModel, a1: AssigModel, u: Literal, level: nat) -> bool {
    &&& u.var < a0.len()
    &&& a0[u.var as int] is None
    &&& a1 == a0.update(u.var as int, Some(AssigInfo { litsign: u.sign, level: level as usize }))
    &&& level <= usize::MAX
}

/// A clause that was unit under `a0` for `y` is so under the grown
/// assignment.
pub proof fn lemma_unit_under_grows(
    cl: Seq<Literal>,
    y: Literal,
    a0: AssigModel,
    a1: AssigModel,
    u: Literal,
    level: nat,
)
    requires
        unit_under(cl, y, a0),
        grows_by(a0, a1, u, level),
    ensures
        unit_under(cl, y, a1),
{
    assert forall|k: int| 0 <= k < cl.len() && (#[trigger] cl[k]) != y implies lit_falsified(
        cl[k],
        a1,
    ) by {
        assert(lit_falsified(cl[k], a0));
    }
}

/// Once the first worklist entry has been made true, the visit of the list
/// of its negation can start.
pub proof fn lemma_round_start(
    c: Seq<Clause>,
    a0: AssigModel,
    a1: AssigModel,
    q0: Seq<Decision>,
    level: nat,
    w: WatchList,
    n: nat,
)
    requires
        between_rounds(c, a0, q0, level),
        q0.len() > 0,
        grows_by(a0, a1, q0[0].lit(), level),
        watches_ok(w, c, n),
    ensures
        round_inv(
            c,
            a1,
            q0.drop_first(),
            level,
            q0[0].lit().negated(),
            w.list(q0[0].lit().negated()),
            0,
        ),
{
    let u = q0[0].lit();
    let f = u.negated();
    let q1 = q0.drop_first();
    let rest = w.list(f);
    let nof = Literal { var: 0, sign: false };
    let none = Seq::<usize>::empty();
    assert forall|i: int| 0 <= i < c.len() implies #[trigger] round_clause(
        c,
        i,
        a1,
        q1,
        level,
        f,
        rest,
        0,
    ) by {
        assert(round_clause(c, i, a0, q0, level, nof, none, 0));
        assert(in_both_lists(w, c, i));
        let cl = c[i].literals@;
        assert forall|x: Literal, y: Literal|
            (x == c[i].watch1() && y == c[i].watch2()) || (x == c[i].watch2() && y
                == c[i].watch1()) implies round_pair(x, y, cl, a1, q1, level, f, rest, 0, i) by {
            if lit_falsified(x, a1) {
                if x == f {
                    assert(w.list(x).contains(i as usize));
                    let p = choose|p: int| 0 <= p < rest.len() && rest[p] == i as usize;
                    assert(unvisited(rest, 0, i));
                } else {
                    assert(lit_falsified(x, a0));
                    assert(round_pair(x, y, cl, a0, q0, level, nof, none, 0, i));
                    assert(!unvisited(none, 0, i));
                    assert(settled(x, y, cl, a0, q0, level));
                    if lit_satisfied(y, a0) && lit_level(y, a0) <= lit_level(x, a0) {
                        assert(lit_satisfied(y, a1));
                    } else {
                        let k = choose|k: int| 0 <= k < q0.len() && (#[trigger] q0[k]).lit() == y;
                        lemma_unit_under_grows(cl, y, a0, a1, u, level);
                        if k == 0 {
                            assert(lit_satisfied(y, a1));
                            assert(lit_level(y, a1) == level);
                        } else {
                            assert(q1[k - 1].lit() == y);
                            assert(queued(q1, y));
                        }
                    }
                }
            }
        }
    }
}

/// When every entry of the list has been visited, the state is the one
/// between rounds.
pub proof fn lemma_round_end(
    c: Seq<Clause>,
    a: AssigModel,
    q: Seq<Decision>,
    level: nat,
    f: Literal,
    rest: Seq<usize>,
    from: int,
)
    requires
        round_inv(c, a, q, level, f, rest, from),
        from >= rest.len(),
    ensures
        between_rounds(c, a, q, level),
{
    let nof = Literal { var: 0, sign: false };
    let none = Seq::<usize>::empty();
    assert forall|i: int| 0 <= i < c.len() implies #[trigger] round_clause(
        c,
        i,
        a,
        q,
        level,
        nof,
        none,
        0,
    ) by {
        assert(round_clause(c, i, a, q, level, f, rest, from));
        assert(!unvisited(rest, from, i));
    }
}

/// With an empty worklist between rounds, propagation is complete.
pub proof fn lemma_round_closed(c: Seq<Clause>, a: AssigModel, level: nat)
    requires
        between_rounds(c, a, Seq::<Decision>::empty(), level),
    ensures
        watch_inv(c, a, level + 1),
{
    let nof = Literal { var: 0, sign: false };
    let none = Seq::<usize>::empty();
    let q = Seq::<Decision>::empty();
    assert forall|i: int| 0 <= i < c.len() implies clause_watch_ok(#[trigger] c[i], a, level + 1) by {
        assert(round_clause(c, i, a, q, level, nof, none, 0));
        assert(!unvisited(none, 0, i));
        assert(!queued(q, c[i].watch1()));
        assert(!queued(q, c[i].watch2()));
    }
}

/// In any state of a round, watches falsified below the level in effect
/// have a satisfied partner.
pub proof fn lemma_round_gives_watch_inv(
    c: Seq<Clause>,
    a: AssigModel,
    q: Seq<Decision>,
    level: nat,
    f: Literal,
    rest: Seq<usize>,
    from: int,
)
    requires
        round_inv(c, a, q, level, f, rest, from),
        lit_falsified(f, a) ==> lit_level(f, a) == level,
    ensures
        watch_inv(c, a, level),
{
    assert forall|i: int| 0 <= i < c.len() implies clause_watch_ok(#[trigger] c[i], a, level) by {
        assert(round_clause(c, i, a, q, level, f, rest, from));
    }
}

/// The visited clause has its other watch satisfied: it is settled.
pub proof fn lemma_step_satisfied(
    c: Seq<Clause>,
    a: AssigModel,
    q: Seq<Decision>,
    level: nat,
    f: Literal,
    rest: Seq<usize>,
    from: int,
)
    requires
        round_inv(c, a, q, level, f, rest, from),
        0 <= from < rest.len(),
        rest.no_duplicates(),
        rest[from] < c.len(),
        lit_level(f, a) == level,
        levels_below(a, level + 1),
        ({
            let cl = c[rest[from] as int];
            (cl.watch1() == f && lit_satisfied(cl.watch2(), a)) || (cl.watch2() == f
                && lit_satisfied(cl.watch1(), a))
        }),
    ensures
        round_inv(c, a, q, level, f, rest, from + 1),
{
    let ci = rest[from] as int;
    assert forall|i: int| 0 <= i < c.len() implies #[trigger] round_clause(
        c,
        i,
        a,
        q,
        level,
        f,
        rest,
        from + 1,
    ) by {
        assert(round_clause(c, i, a, q, level, f, rest, from));
        if i == ci {
            if c[i].watch1() == f && lit_satisfied(c[i].watch2(), a) {
                assert(slot_below(a[c[i].watch2().var as int], level + 1));
            } else {
                assert(slot_below(a[c[i].watch1().var as int], level + 1));
            }
        } else {
            lemma_unvisited_next(rest, from, i);
        }
    }
}

/// A clause other than the one at `from` that is still to be visited is at
/// a later position.
pub proof fn lemma_unvisited_next(rest: Seq<usize>, from: int, i: int)
    requires
        0 <= from < rest.len(),
        rest[from] != i,
    ensures
        unvisited(rest, from, i) ==> unvisited(rest, from + 1, i),
{
    if unvisited(rest, from, i) {
        let p = choose|p: int| from <= p < rest.len() && (#[trigger] rest[p]) == i;
        assert(from + 1 <= p);
    }
}

/// Putting an entry on the worklist keeps what was on it.
pub proof fn lemma_queued_push(q: Seq<Decision>, d: Decision, y: Literal)
    ensures
        queued(q, y) ==> queued(q.push(d), y),
        queued(q.push(d), d.lit()),
{
    if queued(q, y) {
        let k = choose|k: int| 0 <= k < q.len() && (#[trigger] q[k]).lit() == y;
        assert(q.push(d)[k].lit() == y);
    }
    assert(q.push(d)[q.len() as int].lit() == d.lit());
}

/// The visited clause is unit: its other watch is unassigned and on the
/// worklist `q2`, which holds at least what `q` held.
pub proof fn lemma_step_unit(
    c: Seq<Clause>,
    a: AssigModel,
    q: Seq<Decision>,
    q2: Seq<Decision>,
    level: nat,
    f: Literal,
    rest: Seq<usize>,
    from: int,
    n: nat,
)
    requires
        round_inv(c, a, q, level, f, rest, from),
        0 <= from < rest.len(),
        rest[from] < c.len(),
        lit_falsified(f, a),
        lit_level(f, a) == level,
        c[rest[from] as int].wf(n),
        forall|y: Literal| queued(q, y) ==> queued(q2, y),
        ({
            let cl = c[rest[from] as int];
            let other = if cl.watch1() == f { cl.watch2() } else { cl.watch1() };
            &&& (cl.watch1() == f || cl.watch2() == f)
            &&& lit_unassigned(other, a)
            &&& queued(q2, other)
            &&& no_replacement(cl.literals@, a, cl.w1 as int, cl.w2 as int)
        }),
    ensures
        round_inv(c, a, q2, level, f, rest, from + 1),
        ({
            let cl = c[rest[from] as int];
            let other = if cl.watch1() == f { cl.watch2() } else { cl.watch1() };
            unit_under(cl.literals@, other, a)
        }),
{
    let ci = rest[from] as int;
    let cl = c[ci];
    let other = if cl.watch1() == f { cl.watch2() } else { cl.watch1() };
    let oidx = if cl.watch1() == f { cl.w2 as int } else { cl.w1 as int };
    let cidx = if cl.watch1() == f { cl.w1 as int } else { cl.w2 as int };
    assert(cl.literals@[oidx] == other);
    assert(cl.literals@[cidx] == f);
    assert(cl.literals@.contains(other));
    assert forall|k: int| 0 <= k < cl.literals@.len() && (#[trigger] cl.literals@[k])
        != other implies lit_falsified(cl.literals@[k], a) by {
        if k != cidx {
            assert(k != oidx);
        }
    }
    assert forall|i: int| 0 <= i < c.len() implies #[trigger] round_clause(
        c,
        i,
        a,
        q2,
        level,
        f,
        rest,
        from + 1,
    ) by {
        assert(round_clause(c, i, a, q, level, f, rest, from));
        if i == ci {
        } else {
            lemma_unvisited_next(rest, from, i);
        }
    }
}

/// The list of `f` after the entry at `from` has been taken out, the last
/// entry taking its place.
pub open spec fn list_without(rest: Seq<usize>, from: int) -> Seq<usize> {
    rest.update(from, rest.last()).drop_last()
}

/// Taking the entry at `from` out of a list without repetition leaves the
/// other entries, those still to be visited among them.
pub proof fn lemma_list_without(rest: Seq<usize>, from: int)
    requires
        0 <= from < rest.len(),
        rest.no_duplicates(),
    ensures
        list_without(rest, from).no_duplicates(),
        !list_without(rest, from).contains(rest[from]),
        forall|x: usize| x != rest[from] && rest.contains(x) ==> list_without(rest, from).contains(x),
        forall|x: usize| list_without(rest, from).contains(x) ==> rest.contains(x),
        forall|i: int|
            i != rest[from] && unvisited(rest, from, i) ==> unvisited(
                list_without(rest, from),
                from,
                i,
            ),
{
    let r2 = list_without(rest, from);
    let last = rest.len() - 1;
    assert forall|i: int, j: int| 0 <= i < j < r2.len() implies r2[i] != r2[j] by {
        let si = if i == from { last } else { i };
        let sj = if j == from { last } else { j };
        assert(r2[i] == rest[si]);
        assert(r2[j] == rest[sj]);
    }
    assert forall|x: usize| x != rest[from] && rest.contains(x) implies r2.contains(x) by {
        let p = choose|p: int| 0 <= p < rest.len() && rest[p] == x;
        if p == last {
            assert(r2[from] == x);
        } else {
            assert(r2[p] == x);
        }
    }
    assert forall|x: usize| r2.contains(x) implies rest.contains(x) by {
        let p = choose|p: int| 0 <= p < r2.len() && r2[p] == x;
        let sp = if p == from { last } else { p };
        assert(rest[sp] == x);
    }
    if r2.contains(rest[from]) {
        let p = choose|p: int| 0 <= p < r2.len() && r2[p] == rest[from];
        let sp = if p == from { last } else { p };
        assert(rest[sp] == rest[from]);
    }
    assert forall|i: int| i != rest[from] && unvisited(rest, from, i) implies unvisited(
        r2,
        from,
        i,
    ) by {
        let p = choose|p: int| from <= p < rest.len() && (#[trigger] rest[p]) == i;
        if p == last {
            assert(r2[from] == i);
        } else {
            assert(r2[p] == i);
        }
    }
}

/// The visited clause moved its watch from `f` to a literal that is not
/// falsified, beside an unassigned other watch: nothing is asked of it.
pub proof fn lemma_step_reassigned(
    c: Seq<Clause>,
    c2: Seq<Clause>,
    a: AssigModel,
    q: Seq<Decision>,
    level: nat,
    f: Literal,
    rest: Seq<usize>,
    from: int,
)
    requires
        round_inv(c, a, q, level, f, rest, from),
        0 <= from < rest.len(),
        rest.no_duplicates(),
        rest[from] < c.len(),
        c2.len() == c.len(),
        forall|i: int| 0 <= i < c.len() && i != rest[from] ==> c2[i] == c[i],
        !lit_falsified(c2[rest[from] as int].watch1(), a),
        !lit_falsified(c2[rest[from] as int].watch2(), a),
    ensures
        round_inv(c2, a, q, level, f, list_without(rest, from), from),
{
    let ci = rest[from] as int;
    lemma_list_without(rest, from);
    assert forall|i: int| 0 <= i < c2.len() implies #[trigger] round_clause(
        c2,
        i,
        a,
        q,
        level,
        f,
        list_without(rest, from),
        from,
    ) by {
        if i != ci {
            assert(round_clause(c, i, a, q, level, f, rest, from));
        }
    }
}

/// The visited clause has both watches falsified: all its literals are
/// falsified, one of them at the level in effect.
pub proof fn lemma_step_conflict(
    c: Seq<Clause>,
    a: AssigModel,
    q: Seq<Decision>,
    level: nat,
    f: Literal,
    rest: Seq<usize>,
    from: int,
    n: nat,
)
    requires
        round_inv(c, a, q, level, f, rest, from),
        0 <= from < rest.len(),
        rest[from] < c.len(),
        c[rest[from] as int].wf(n),
        lit_falsified(f, a),
        ({
            let cl = c[rest[from] as int];
            (cl.watch1() == f && lit_falsified(cl.watch2(), a)) || (cl.watch2() == f
                && lit_falsified(cl.watch1(), a))
        }),
    ensures
        all_falsified(c[rest[from] as int].literals@, a),
        c[rest[from] as int].literals@.contains(f),
{
    let ci = rest[from] as int;
    let cl = c[ci];
    assert(round_clause(c, ci, a, q, level, f, rest, from));
    let x = if cl.watch1() == f { cl.watch2() } else { cl.watch1() };
    let xi = if cl.watch1() == f { cl.w2 as int } else { cl.w1 as int };
    let fi = if cl.watch1() == f { cl.w1 as int } else { cl.w2 as int };
    assert(cl.literals@[xi] == x);
    assert(cl.literals@[fi] == f);
    assert(x.var != f.var);
    assert(round_pair(x, f, cl.literals@, a, q, level, f, rest, from, ci));
    assert(settled(x, f, cl.literals@, a, q, level));
    assert(unit_under(cl.literals@, f, a));
}

/// Moving the watch of one clause from `f` to `nw`, in the clause and in
/// the two lists, keeps the watch index and the clauses in agreement.
pub proof fn lemma_move_watch(
    w0: WatchList,
    w1: WatchList,
    w2: WatchList,
    c: Seq<Clause>,
    c2: Seq<Clause>,
    f: Literal,
    nw: Literal,
    from: int,
    n: nat,
)
    requires
        watches_ok(w0, c, n),
        clauses_ok(c, n),
        f.var <= n,
        nw.var <= n,
        0 <= from < w0.list(f).len(),
        c2.len() == c.len(),
        forall|i: int| 0 <= i < c.len() && i != w0.list(f)[from] ==> c2[i] == c[i],
        ({
            let ci = w0.list(f)[from] as int;
            &&& c2[ci].literals@ == c[ci].literals@
            &&& nw != c[ci].watch1()
            &&& nw != c[ci].watch2()
            &&& ((c[ci].watch1() == f && c2[ci].w2 == c[ci].w2 && c2[ci].watch1() == nw) || (
            c[ci].watch1() != f && c[ci].watch2() == f && c2[ci].w1 == c[ci].w1 && c2[ci].watch2()
                == nw))
        }),
        w1.list(f) == list_without(w0.list(f), from),
        w1.same_except(&w0, f),
        w2.list(nw) == w1.list(nw).push(w0.list(f)[from]),
        w2.same_except(&w1, nw),
    ensures
        watches_ok(w2, c2, n),
{
    let cu = w0.list(f)[from];
    let ci = cu as int;
    assert(list_ok(w0, c, f));
    assert(watched_by(c, cu, f));
    assert(c[ci].wf(n));
    let other = if c[ci].watch1() == f { c[ci].watch2() } else { c[ci].watch1() };
    assert(other.var != f.var);
    assert(other.var <= n);
    lemma_list_without(w0.list(f), from);
    assert(w2.list(f) == w1.list(f));
    assert(w1.list(nw) == w0.list(nw));
    assert(list_ok(w0, c, nw));
    assert forall|l: Literal| l.var <= n implies #[trigger] list_ok(w2, c2, l) by {
        assert(list_ok(w0, c, l));
        if l == f {
            assert forall|k: int| 0 <= k < w2.list(l).len() implies watched_by(
                c2,
                #[trigger] w2.list(l)[k],
                l,
            ) by {
                let x = w2.list(l)[k];
                assert(w2.list(l).contains(x));
                assert(w0.list(f).contains(x));
                let p = choose|p: int| 0 <= p < w0.list(f).len() && w0.list(f)[p] == x;
                assert(watched_by(c, w0.list(f)[p], f));
            }
        } else if l == nw {
            if w0.list(nw).contains(cu) {
                let p = choose|p: int| 0 <= p < w0.list(nw).len() && w0.list(nw)[p] == cu;
                assert(watched_by(c, w0.list(nw)[p], nw));
            }
            assert forall|i: int, j: int| 0 <= i < j < w2.list(l).len() implies w2.list(l)[i]
                != w2.list(l)[j] by {
                if j == w0.list(nw).len() {
                    assert(w0.list(nw).contains(w0.list(nw)[i]));
                }
            }
            assert forall|k: int| 0 <= k < w2.list(l).len() implies watched_by(
                c2,
                #[trigger] w2.list(l)[k],
                l,
            ) by {
                if k < w0.list(nw).len() {
                    assert(watched_by(c, w0.list(nw)[k], nw));
                    assert(w0.list(nw).contains(w0.list(nw)[k]));
                }
            }
        } else {
            assert(w1.list(l) == w0.list(l));
            assert(w2.list(l) == w1.list(l));
            assert forall|k: int| 0 <= k < w2.list(l).len() implies watched_by(
                c2,
                #[trigger] w2.list(l)[k],
                l,
            ) by {
                assert(watched_by(c, w0.list(l)[k], l));
            }
        }
    }
    assert forall|i: int| 0 <= i < c2.len() implies #[trigger] in_both_lists(w2, c2, i) by {
        assert(in_both_lists(w0, c, i));
        assert(c[i].wf(n));
        if i != ci {
            assert forall|l: Literal| l.var <= n && w0.list(l).contains(i as usize) implies w2.list(
                l,
            ).contains(i as usize) by {
                if l == f {
                } else if l == nw {
                    let p = choose|p: int| 0 <= p < w0.list(l).len() && w0.list(l)[p] == i as usize;
                    assert(w2.list(l)[p] == i as usize);
                } else {
                    assert(w1.list(l) == w0.list(l));
                    assert(w2.list(l) == w1.list(l));
                }
            }
        } else {
            assert(w2.list(nw)[w0.list(nw).len() as int] == cu);
            assert(w1.list(other) == w0.list(other));
            assert(w2.list(other) == w1.list(other));
        }
    }
}

/// Worklist entries stay ready when watches move.
pub proof fn lemma_queue_ready_same_literals(
    q: Seq<Decision>,
    c: Seq<Clause>,
    c2: Seq<Clause>,
    a: AssigModel,
    n: nat,
)
    requires
        queue_ready(q, c, a, n),
        c2.len() == c.len(),
        forall|k: int| 0 <= k < q.len() ==> c2[antecedent(#[trigger] q[k])] == c[antecedent(q[k])],
    ensures
        queue_ready(q, c2, a, n),
{
    assert forall|k: int| 0 <= k < q.len() implies entry_ready(#[trigger] q[k], c2, a, n) by {
        assert(entry_ready(q[k], c, a, n));
        assert(c2[antecedent(q[k])] == c[antecedent(q[k])]);
    }
}

/// A clause that finds its other watch not falsified is not the
/// antecedent of a worklist entry for `f`; so the entries stay fresh when
/// the visit moves on.
pub proof fn lemma_fresh_next(
    q: Seq<Decision>,
    c: Seq<Clause>,
    a: AssigModel,
    n: nat,
    f: Literal,
    rest: Seq<usize>,
    from: int,
)
    requires
        queue_ready(q, c, a, n),
        queue_fresh(q, a, f, rest, from),
        0 <= from < rest.len(),
        rest[from] < c.len(),
        c[rest[from] as int].wf(n),
        ({
            let cl = c[rest[from] as int];
            (cl.watch1() == f && !lit_falsified(cl.watch2(), a)) || (cl.watch2() == f
                && !lit_falsified(cl.watch1(), a))
        }),
    ensures
        queue_fresh(q, a, f, rest, from + 1),
        forall|k: int| 0 <= k < q.len() && (#[trigger] q[k]).lit() == f ==> antecedent(q[k])
            != rest[from],
{
    let ci = rest[from] as int;
    let cl = c[ci];
    assert forall|k: int| 0 <= k < q.len() && (#[trigger] q[k]).lit() == f implies antecedent(
        q[k],
    ) != rest[from] by {
        assert(entry_ready(q[k], c, a, n));
        if antecedent(q[k]) == ci {
            assert(unit_under(cl.literals@, f, a));
            let other = if cl.watch1() == f { cl.watch2() } else { cl.watch1() };
            let oi = if cl.watch1() == f { cl.w2 as int } else { cl.w1 as int };
            assert(cl.literals@[oi] == other);
            assert(other.var != f.var);
            assert(lit_falsified(cl.literals@[oi], a));
        }
    }
    assert forall|k: int| 0 <= k < q.len() implies entry_fresh(
        #[trigger] q[k],
        a,
        f,
        rest,
        from + 1,
    ) by {
        assert(entry_fresh(q[k], a, f, rest, from));
        if !lit_unassigned(q[k].lit(), a) {
            lemma_unvisited_next(rest, from, antecedent(q[k]));
        }
    }
}

/// A clause that moves a watch is not the antecedent of any worklist
/// entry; so the entries stay fresh when its index leaves the list.
pub proof fn lemma_fresh_reassigned(
    q: Seq<Decision>,
    c: Seq<Clause>,
    a: AssigModel,
    n: nat,
    f: Literal,
    rest: Seq<usize>,
    from: int,
)
    requires
        queue_ready(q, c, a, n),
        queue_fresh(q, a, f, rest, from),
        0 <= from < rest.len(),
        rest.no_duplicates(),
        rest[from] < c.len(),
        c[rest[from] as int].wf(n),
        lit_falsified(f, a),
        ({
            let cl = c[rest[from] as int];
            let other = if cl.watch1() == f { cl.watch2() } else { cl.watch1() };
            &&& (cl.watch1() == f || cl.watch2() == f)
            &&& lit_unassigned(other, a)
            &&& exists|idx: int|
                crate::clause::is_replacement(cl.literals@, a, cl.w1 as int, cl.w2 as int, idx)
        }),
    ensures
        queue_fresh(q, a, f, list_without(rest, from), from),
        forall|k: int| 0 <= k < q.len() ==> antecedent(#[trigger] q[k]) != rest[from],
{
    let ci = rest[from] as int;
    let cl = c[ci];
    let other = if cl.watch1() == f { cl.watch2() } else { cl.watch1() };
    let oi = if cl.watch1() == f { cl.w2 as int } else { cl.w1 as int };
    let fi = if cl.watch1() == f { cl.w1 as int } else { cl.w2 as int };
    let idx = choose|idx: int|
        crate::clause::is_replacement(cl.literals@, a, cl.w1 as int, cl.w2 as int, idx);
    assert(cl.literals@[oi] == other);
    assert(cl.literals@[fi] == f);
    assert forall|k: int| 0 <= k < q.len() implies antecedent(#[trigger] q[k]) != rest[from] by {
        assert(entry_ready(q[k], c, a, n));
        if antecedent(q[k]) == ci {
            let y = q[k].lit();
            assert(unit_under(cl.literals@, y, a));
            assert(watched_by(c, ci as usize, y));
            if y == f {
                assert(cl.literals@[oi] != y);
                assert(lit_falsified(cl.literals@[oi], a));
            } else {
                assert(y == other);
                assert(cl.literals@[idx].var != cl.literals@[oi].var);
                assert(lit_falsified(cl.literals@[idx], a));
            }
        }
    }
    lemma_list_without(rest, from);
    assert forall|k: int| 0 <= k < q.len() implies entry_fresh(
        #[trigger] q[k],
        a,
        f,
        list_without(rest, from),
        from,
    ) by {
        assert(entry_fresh(q[k], a, f, rest, from));
    }
}

/// When every entry of the list of `f` has been visited, every worklist
/// entry is for an unassigned literal.
pub proof fn lemma_fresh_end(
    q: Seq<Decision>,
    a: AssigModel,
    f: Literal,
    rest: Seq<usize>,
    from: int,
)
    requires
        queue_fresh(q, a, f, rest, from),
        from >= rest.len(),
    ensures
        queue_unassigned(q, a),
{
    assert forall|k: int| 0 <= k < q.len() implies lit_unassigned((#[trigger] q[k]).lit(), a) by {
        assert(entry_fresh(q[k], a, f, rest, from));
        assert(!unvisited(rest, from, antecedent(q[k])));
    }
}

/// Entries for unassigned literals are fresh whatever is being visited, and
/// stay so when another such entry joins them.
pub proof fn lemma_fresh_push(
    q: Seq<Decision>,
    d: Decision,
    a: AssigModel,
    f: Literal,
    rest: Seq<usize>,
    from: int,
)
    requires
        queue_fresh(q, a, f, rest, from),
        lit_unassigned(d.lit(), a),
    ensures
        queue_fresh(q.push(d), a, f, rest, from),
{
    let q2 = q.push(d);
    assert forall|k: int| 0 <= k < q2.len() implies entry_fresh(#[trigger] q2[k], a, f, rest, from) by {
        if k < q.len() {
            assert(entry_fresh(q[k], a, f, rest, from));
        }
    }
}

/// Putting a ready entry for an unseen literal on the worklist keeps the
/// worklist ready and the seen marks meaningful.
pub proof fn lemma_enqueue(
    q: Seq<Decision>,
    d: Decision,
    c: Seq<Clause>,
    a: AssigModel,
    n: nat,
    seen: Set<usize>,
)
    requires
        queue_ready(q, c, a, n),
        seen_ok(seen, q, a, n),
        queue_distinct(q, seen),
        entry_ready(d, c, a, n),
        !seen.contains(d.lit().code() as usize),
        n <= MAX_VARIABLE,
    ensures
        queue_ready(q.push(d), c, a, n),
        seen_ok(seen.insert(d.lit().code() as usize), q.push(d), a, n),
        queue_distinct(q.push(d), seen.insert(d.lit().code() as usize)),
{
    let q2 = q.push(d);
    assert forall|i: int, j: int| 0 <= i < j < q2.len() implies (#[trigger] q2[i]).lit() != (
    #[trigger] q2[j]).lit() by {
        if j == q.len() {
            assert(seen.contains(q[i].lit().code() as usize));
        }
    }
    assert forall|k: int| 0 <= k < q2.len() implies entry_ready(#[trigger] q2[k], c, a, n) by {
        if k < q.len() {
            assert(entry_ready(q[k], c, a, n));
        }
    }
    let seen2 = seen.insert(d.lit().code() as usize);
    assert forall|l: Literal|
        1 <= l.var <= n && seen2.contains(#[trigger] l.code() as usize) implies queued(q2, l)
            || a[l.var as int] is Some by {
        lemma_queued_push(q, d, l);
        if l.code() as usize == d.lit().code() as usize {
            assert(l == d.lit());
        }
    }
}

/// After the first entry has been made true, the rest of the worklist is
/// ready and the seen marks are meaningful.
pub proof fn lemma_dequeue_assigned(
    q0: Seq<Decision>,
    c: Seq<Clause>,
    a0: AssigModel,
    a1: AssigModel,
    level: nat,
    n: nat,
    seen: Set<usize>,
    w: WatchList,
)
    requires
        q0.len() > 0,
        queue_ready(q0, c, a0, n),
        seen_ok(seen, q0, a0, n),
        queue_distinct(q0, seen),
        queue_unassigned(q0, a0),
        grows_by(a0, a1, q0[0].lit(), level),
        a0.len() == n + 1,
        watches_ok(w, c, n),
    ensures
        queue_ready(q0.drop_first(), c, a1, n),
        seen_ok(seen, q0.drop_first(), a1, n),
        queue_distinct(q0.drop_first(), seen),
        queue_fresh(
            q0.drop_first(),
            a1,
            q0[0].lit().negated(),
            w.list(q0[0].lit().negated()),
            0,
        ),
{
    let q1 = q0.drop_first();
    let u = q0[0].lit();
    let f = u.negated();
    assert forall|k: int| 0 <= k < q1.len() implies entry_fresh(
        #[trigger] q1[k],
        a1,
        f,
        w.list(f),
        0,
    ) by {
        let d = q0[k + 1];
        assert(q1[k] == d);
        assert(lit_unassigned(d.lit(), a0));
        assert(q0[0].lit() != d.lit());
        assert(entry_ready(d, c, a0, n));
        if d.lit().var == u.var {
            assert(d.lit() == f);
            let idx = antecedent(d);
            assert(watched_by(c, idx as usize, f));
            assert(in_both_lists(w, c, idx));
            assert(w.list(f).contains(idx as usize));
            let p = choose|p: int| 0 <= p < w.list(f).len() && w.list(f)[p] == idx as usize;
            assert(unvisited(w.list(f), 0, idx));
        }
    }
    assert forall|k: int| 0 <= k < q1.len() implies entry_ready(#[trigger] q1[k], c, a1, n) by {
        assert(entry_ready(q0[k + 1], c, a0, n));
        if let Decision::UnitProp { lit, unit_prop_idx } = q1[k] {
            lemma_unit_under_grows(c[unit_prop_idx as int].literals@, lit, a0, a1, u, level);
        }
    }
    assert forall|l: Literal|
        1 <= l.var <= n && seen.contains(#[trigger] l.code() as usize) implies queued(q1, l)
            || a1[l.var as int] is Some by {
        if queued(q0, l) {
            let k = choose|k: int| 0 <= k < q0.len() && (#[trigger] q0[k]).lit() == l;
            if k > 0 {
                assert(q1[k - 1].lit() == l);
            }
        }
    }
}

/// Literal `l` is forced under `a`: it is unassigned, and some clause
/// contains it beside literals that are all falsified.
pub open spec fn forced_at(c: Seq<Clause>, a: AssigModel, l: Literal) -> bool {
    &&& lit_unassigned(l, a)
    &&& exists|i: int| 0 <= i < c.len() && unit_under((#[trigger] c[i]).literals@, l, a)
}

/// The assignment `a` once the literals `steps` have been made true at
/// `level`, one after the other.
pub open spec fn applied(a: AssigModel, steps: Seq<Literal>, level: nat) -> AssigModel
    decreases steps.len(),
{
    if steps.len() == 0 {
        a
    } else {
        applied(a, steps.drop_last(), level).update(
            steps.last().var as int,
            Some(AssigInfo { litsign: steps.last().sign, level: level as usize }),
        )
    }
}

/// Each literal of `steps` is forced under `a` and the literals before it.
pub open spec fn derivation(c: Seq<Clause>, a: AssigModel, steps: Seq<Literal>, level: nat)
    -> bool {
    forall|k: int|
        0 <= k < steps.len() ==> forced_at(c, #[trigger] applied(a, steps.take(k), level), steps[k])
}

/// `b` comes from `a` by unit propagation at `level`: by making true, one
/// after the other, literals that are forced when their turn comes.
pub open spec fn derived(c: Seq<Clause>, a: AssigModel, b: AssigModel, level: nat) -> bool {
    exists|steps: Seq<Literal>| #[trigger] derivation(c, a, steps, level) && b == applied(
        a,
        steps,
        level,
    )
}

/// A derivation can be continued by a literal that is forced at its end.
pub proof fn lemma_derivation_push(
    c: Seq<Clause>,
    a: AssigModel,
    steps: Seq<Literal>,
    level: nat,
    l: Literal,
)
    requires
        derivation(c, a, steps, level),
        forced_at(c, applied(a, steps, level), l),
    ensures
        derivation(c, a, steps.push(l), level),
        applied(a, steps.push(l), level) == applied(a, steps, level).update(
            l.var as int,
            Some(AssigInfo { litsign: l.sign, level: level as usize }),
        ),
{
    let s2 = steps.push(l);
    assert(s2.drop_last() =~= steps);
    assert forall|k: int| 0 <= k < s2.len() implies forced_at(
        c,
        #[trigger] applied(a, s2.take(k), level),
        s2[k],
    ) by {
        if k < steps.len() {
            assert(s2.take(k) =~= steps.take(k));
            assert(forced_at(c, applied(a, steps.take(k), level), steps[k]));
        } else {
            assert(s2.take(k) =~= steps);
        }
    }
}

/// A derivation does not depend on where the watches are, nor on deletion
/// marks.
pub proof fn lemma_derivation_same_literals(
    c: Seq<Clause>,
    d: Seq<Clause>,
    a: AssigModel,
    steps: Seq<Literal>,
    level: nat,
)
    requires
        derivation(c, a, steps, level),
        c.len() == d.len(),
        forall|i: int| 0 <= i < c.len() ==> (#[trigger] c[i]).literals@ == d[i].literals@,
    ensures
        derivation(d, a, steps, level),
{
    assert forall|k: int| 0 <= k < steps.len() implies forced_at(
        d,
        #[trigger] applied(a, steps.take(k), level),
        steps[k],
    ) by {
        let b = applied(a, steps.take(k), level);
        assert(forced_at(c, b, steps[k]));
        let i = choose|i: int| 0 <= i < c.len() && unit_under((#[trigger] c[i]).literals@, steps[k], b);
        assert(d[i].literals@ == c[i].literals@);
        assert(unit_under(d[i].literals@, steps[k], b));
    }
}

/// The empty derivation changes nothing.
pub proof fn lemma_derivation_empty(c: Seq<Clause>, a: AssigModel, level: nat)
    ensures
        derivation(c, a, Seq::<Literal>::empty(), level),
        applied(a, Seq::<Literal>::empty(), level) == a,
{
}

} // verus!

//! How recording and undoing a decision act on the trail invariants.

use vstd::prelude::*;
use crate::assig::{lit_falsified, lit_level, lit_satisfied, AssigInfo, AssigModel};
use crate::clause::Clause;
use crate::consistency::{
    antecedent_ok, covered, deleted_ok, earlier_false, entry_level, entry_ok, formula_covered,
    justified, keeps_root_facts, levels_below, root_sat, same_clauses, slot_ok, stored_for,
    trail_ok, watch_inv, watch_inv_pending,
};
use crate::decision::Decision;
use crate::literal::Literal;

verus! {

/// Recording a fact of level 0 while no guess is in effect keeps the trail
/// invariant.
pub proof fn lemma_root_fact_keeps_trail(
    t: Seq<Decision>,
    a: AssigModel,
    n: nat,
    v: int,
    info: AssigInfo,
)
    requires
        trail_ok(t, a, 0, n),
        0 <= v < a.len(),
        info.level == 0,
    ensures
        t.len() == 0,
        trail_ok(t, a.update(v, Some(info)), 0, n),
{
    if t.len() > 0 {
        assert(entry_ok(t, a, n, t.len() - 1));
    }
    let b = a.update(v, Some(info));
    assert forall|w: int| 0 <= w < b.len() implies #[trigger] slot_ok(t, b, 0, w) by {
        assert(slot_ok(t, a, 0, w));
    }
}

/// Pushing a guess, or a propagation at a level above 0, for an unassigned
/// variable keeps the trail invariant.
pub proof fn lemma_push_keeps_trail(
    t: Seq<Decision>,
    a: AssigModel,
    level: nat,
    n: nat,
    d: Decision,
    info: AssigInfo,
)
    requires
        trail_ok(t, a, level, n),
        1 <= d.lit().var <= n,
        d.lit().var < a.len(),
        a[d.lit().var as int] is None,
        info.litsign == d.lit().sign,
        d is Choice || d is UnitProp,
        d is Choice ==> info.level == level + 1,
        d is UnitProp ==> info.level == level && level >= 1,
    ensures
        trail_ok(t.push(d), a.update(d.lit().var as int, Some(info)), info.level as nat, n),
{
    let v = d.lit().var as int;
    let t2 = t.push(d);
    let b = a.update(v, Some(info));
    let last = t.len() as int;
    assert forall|i: int| 0 <= i < t.len() implies entry_level(t2, b, i) == entry_level(t, a, i)
        && t2[i] == t[i] && t[i].lit().var != v by {
        assert(entry_ok(t, a, n, i));
    }
    if t.len() > 0 {
        assert(entry_ok(t, a, n, last - 1));
    }
    assert forall|i: int| 0 <= i < t2.len() implies #[trigger] entry_ok(t2, b, n, i) by {
        if i < t.len() {
            assert(entry_ok(t, a, n, i));
            if i > 0 {
                assert(entry_ok(t, a, n, i - 1));
            }
        }
    }
    assert forall|i: int, j: int| 0 <= i <= j < t2.len() implies #[trigger] entry_level(t2, b, i)
        <= #[trigger] entry_level(t2, b, j) by {
        if j < t.len() {
            assert(entry_level(t, a, i) <= entry_level(t, a, j));
        } else if i < t.len() {
            assert(entry_level(t, a, i) <= entry_level(t, a, last - 1));
        }
    }
    assert forall|w: int| 0 <= w < b.len() implies #[trigger] slot_ok(t2, b, info.level as nat, w) by {
        if w == v {
            assert(t2[last].lit().var == v);
        } else {
            assert(slot_ok(t, a, level, w));
            if a[w] is Some && a[w]->Some_0.level >= 1 {
                let i = choose|i: int| 0 <= i < t.len() && (#[trigger] t[i]).lit().var == w;
                assert(t2[i].lit().var == w);
            }
        }
    }
}

/// Undoing a decision right after it was recorded for an unassigned
/// variable restores the trail and the assignment as they were.
pub proof fn lemma_undo_restores(t: Seq<Decision>, a: AssigModel, d: Decision, info: AssigInfo)
    requires
        d.lit().var < a.len(),
        a[d.lit().var as int] is None,
    ensures
        t.push(d).drop_last() == t,
        t.push(d).last() == d,
        a.update(d.lit().var as int, Some(info)).update(d.lit().var as int, None) == a,
{
    assert(t.push(d).drop_last() =~= t);
    assert(a.update(d.lit().var as int, Some(info)).update(d.lit().var as int, None) =~= a);
}

/// The level in effect once the last entry of a non-empty trail is undone.
pub open spec fn level_after_pop(t: Seq<Decision>, level: nat) -> nat {
    if t.last() is Choice {
        (level - 1) as nat
    } else {
        level
    }
}

/// Undoing the last entry keeps the trail invariant.
pub proof fn lemma_pop_keeps_trail(t: Seq<Decision>, a: AssigModel, level: nat, n: nat)
    requires
        trail_ok(t, a, level, n),
        t.len() > 0,
    ensures
        level >= 1,
        level == entry_level(t, a, t.len() - 1),
        trail_ok(
            t.drop_last(),
            a.update(t.last().lit().var as int, None),
            level_after_pop(t, level),
            n,
        ),
{
    let last = t.len() - 1;
    let v = t.last().lit().var as int;
    let t2 = t.drop_last();
    let b = a.update(v, None);
    let level2 = level_after_pop(t, level);
    assert(entry_ok(t, a, n, last));
    assert forall|i: int| 0 <= i < t2.len() implies entry_level(t2, b, i) == entry_level(t, a, i)
        && t2[i] == t[i] && t[i].lit().var != v by {
        assert(entry_ok(t, a, n, i));
        assert(t[i].lit().var != t[last].lit().var);
    }
    assert forall|i: int| 0 <= i < t2.len() implies #[trigger] entry_ok(t2, b, n, i) by {
        assert(entry_ok(t, a, n, i));
        if i > 0 {
            assert(entry_ok(t, a, n, i - 1));
        }
    }
    assert forall|i: int, j: int| 0 <= i <= j < t2.len() implies #[trigger] entry_level(t2, b, i)
        <= #[trigger] entry_level(t2, b, j) by {
        assert(entry_level(t, a, i) <= entry_level(t, a, j));
    }
    if t2.len() > 0 {
        assert(entry_ok(t, a, n, last - 1));
    }
    assert forall|w: int| 0 <= w < b.len() implies #[trigger] slot_ok(t2, b, level2, w) by {
        if w != v {
            assert(slot_ok(t, a, level, w));
            if a[w] is Some && a[w]->Some_0.level >= 1 {
                let i = choose|i: int| 0 <= i < t.len() && (#[trigger] t[i]).lit().var == w;
                assert(i != last);
                assert(t2[i].lit().var == w);
                assert(entry_ok(t, a, n, i));
                assert(entry_level(t, a, i) <= entry_level(t, a, last - 1));
                assert(entry_level(t, a, i) == a[w]->Some_0.level);
            }
        }
    }
}

/// Recording a fact of level 0 on an empty trail keeps every propagation
/// justified.
pub proof fn lemma_root_fact_keeps_justified(
    t: Seq<Decision>,
    a: AssigModel,
    c: Seq<Clause>,
    v: int,
    info: AssigInfo,
)
    requires
        t.len() == 0,
    ensures
        justified(t, a.update(v, Some(info)), c),
{
}

/// Pushing a decision for an unassigned variable keeps every propagation
/// justified, if the new one is.
pub proof fn lemma_push_keeps_justified(
    t: Seq<Decision>,
    a: AssigModel,
    c: Seq<Clause>,
    d: Decision,
    info: AssigInfo,
)
    requires
        justified(t, a, c),
        d.lit().var < a.len(),
        a[d.lit().var as int] is None,
        d matches Decision::UnitProp { lit, unit_prop_idx } ==> {
            &&& unit_prop_idx < c.len()
            &&& forall|k: int|
                0 <= k < c[unit_prop_idx as int].literals@.len() && (
                #[trigger] c[unit_prop_idx as int].literals@[k]).var != lit.var ==> lit_falsified(
                    c[unit_prop_idx as int].literals@[k],
                    a,
                )
            &&& crate::consistency::names_only(c[unit_prop_idx as int].literals@, lit)
        },
    ensures
        justified(t.push(d), a.update(d.lit().var as int, Some(info)), c),
{
    let v = d.lit().var as int;
    let t2 = t.push(d);
    let b = a.update(v, Some(info));
    assert forall|i: int| 0 <= i < t2.len() implies #[trigger] antecedent_ok(t2, b, c, i) by {
        if i < t.len() {
            assert(antecedent_ok(t, a, c, i));
            assert(t2[i] == t[i]);
            if let Decision::UnitProp { lit, unit_prop_idx } = t[i] {
                let cl = c[unit_prop_idx as int].literals@;
                assert forall|k: int| 0 <= k < cl.len() && (#[trigger] cl[k]).var
                    != lit.var implies earlier_false(t2, b, cl[k], i) by {
                    assert(earlier_false(t, a, cl[k], i));
                    assert forall|j: int| i <= j < t2.len() implies (#[trigger] t2[j]).lit().var
                        != cl[k].var by {
                        if j < t.len() {
                            assert(t[j].lit().var != cl[k].var);
                        }
                    }
                }
            }
        } else {
            if let Decision::UnitProp { lit, unit_prop_idx } = d {
                let cl = c[unit_prop_idx as int].literals@;
                assert forall|k: int| 0 <= k < cl.len() && (#[trigger] cl[k]).var
                    != lit.var implies earlier_false(t2, b, cl[k], i) by {
                    assert(lit_falsified(cl[k], a));
                }
            }
        }
    }
}

/// Undoing the last entry keeps every remaining propagation justified.
pub proof fn lemma_pop_keeps_justified(t: Seq<Decision>, a: AssigModel, c: Seq<Clause>)
    requires
        justified(t, a, c),
        t.len() > 0,
        t.last().lit().var < a.len(),
    ensures
        justified(t.drop_last(), a.update(t.last().lit().var as int, None), c),
{
    let last = t.len() - 1;
    let v = t.last().lit().var as int;
    let t2 = t.drop_last();
    let b = a.update(v, None);
    assert forall|i: int| 0 <= i < t2.len() implies #[trigger] antecedent_ok(t2, b, c, i) by {
        assert(antecedent_ok(t, a, c, i));
        assert(t2[i] == t[i]);
        if let Decision::UnitProp { lit, unit_prop_idx } = t[i] {
            let cl = c[unit_prop_idx as int].literals@;
            assert forall|k: int| 0 <= k < cl.len() && (#[trigger] cl[k]).var
                != lit.var implies earlier_false(t2, b, cl[k], i) by {
                assert(earlier_false(t, a, cl[k], i));
                assert(t[last].lit().var != cl[k].var);
                assert forall|j: int| i <= j < t2.len() implies (#[trigger] t2[j]).lit().var
                    != cl[k].var by {
                    assert(t2[j] == t[j]);
                    assert(t[j].lit().var != cl[k].var);
                }
            }
        }
    }
}

/// Justification does not depend on where the watches are, nor on
/// deletion marks, nor on clauses added at the end of the store.
pub proof fn lemma_justified_same_literals(
    t: Seq<Decision>,
    a: AssigModel,
    c: Seq<Clause>,
    d: Seq<Clause>,
)
    requires
        justified(t, a, c),
        c.len() <= d.len(),
        forall|i: int| 0 <= i < c.len() ==> (#[trigger] c[i]).literals@ == d[i].literals@,
    ensures
        justified(t, a, d),
{
    assert forall|i: int| 0 <= i < t.len() implies #[trigger] antecedent_ok(t, a, d, i) by {
        assert(antecedent_ok(t, a, c, i));
        if let Decision::UnitProp { lit, unit_prop_idx } = t[i] {
            assert(c[unit_prop_idx as int].literals@ == d[unit_prop_idx as int].literals@);
        }
    }
}

/// A literal settled at level 0 stays settled when another variable is
/// assigned or unassigned.
pub proof fn lemma_root_sat_stable(lits: Seq<Literal>, a: AssigModel, b: AssigModel)
    requires
        root_sat(lits, a),
        keeps_root_facts(a, b),
    ensures
        root_sat(lits, b),
{
    let k = choose|k: int|
        0 <= k < lits.len() && lit_satisfied(#[trigger] lits[k], a) && lit_level(lits[k], a) == 0;
    assert(lit_satisfied(lits[k], b) && lit_level(lits[k], b) == 0);
}

/// Coverage of the formula and the meaning of deletion marks survive a
/// change of the assignment that keeps the facts of level 0, and a change of
/// watches.
pub proof fn lemma_coverage_stable(
    f: Seq<Seq<Literal>>,
    c: Seq<Clause>,
    d: Seq<Clause>,
    a: AssigModel,
    b: AssigModel,
)
    requires
        keeps_root_facts(a, b),
        same_clauses(c, d),
    ensures
        formula_covered(f, c, a) ==> formula_covered(f, d, b),
        deleted_ok(c, a) ==> deleted_ok(d, b),
{
    if formula_covered(f, c, a) {
        assert forall|j: int| 0 <= j < f.len() implies covered(#[trigger] f[j], d, b) by {
            assert(covered(f[j], c, a));
            if root_sat(f[j], a) {
                lemma_root_sat_stable(f[j], a, b);
            } else {
                let i = choose|i: int| #[trigger] stored_for(c, f[j], i);
                assert(c[i].same_but_watches(&d[i]));
                assert(d[i].literals@ == c[i].literals@);
                assert(d[i].conflict == c[i].conflict);
                assert(stored_for(d, f[j], i));
            }
        }
    }
    if deleted_ok(c, a) {
        assert forall|i: int| 0 <= i < d.len() && (#[trigger] d[i]).deleted implies root_sat(
            d[i].literals@,
            b,
        ) by {
            assert(c[i].same_but_watches(&d[i]));
            lemma_root_sat_stable(c[i].literals@, a, b);
        }
    }
}

/// Undoing an assignment made at level `l` keeps the watch invariant for
/// watches falsified below any level `k <= l`.
pub proof fn lemma_pop_keeps_watch_inv(c: Seq<Clause>, a: AssigModel, v: int, k: nat)
    requires
        watch_inv(c, a, k),
        0 <= v < a.len(),
        a[v] matches Some(info) && info.level >= k,
    ensures
        watch_inv(c, a.update(v, None), k),
{
    let b = a.update(v, None);
    assert forall|i: int| 0 <= i < c.len() implies crate::consistency::clause_watch_ok(
        #[trigger] c[i],
        b,
        k,
    ) by {
        assert(crate::consistency::clause_watch_ok(c[i], a, k));
    }
}

/// The watch invariant for a level bound implies it for any smaller bound.
pub proof fn lemma_watch_inv_weaken(c: Seq<Clause>, a: AssigModel, k: nat, k2: nat)
    requires
        watch_inv(c, a, k),
        k2 <= k,
    ensures
        watch_inv(c, a, k2),
{
    assert forall|i: int| 0 <= i < c.len() implies crate::consistency::clause_watch_ok(
        #[trigger] c[i],
        a,
        k2,
    ) by {
        assert(crate::consistency::clause_watch_ok(c[i], a, k));
    }
}

/// Making the unassigned literal `l` true leaves the watch invariant intact
/// except at the watches that rest on the negation of `l`.
pub proof fn lemma_assign_gives_pending(c: Seq<Clause>, a: AssigModel, l: Literal, info: AssigInfo, k: nat)
    requires
        watch_inv(c, a, k),
        l.var < a.len(),
        a[l.var as int] is None || a[l.var as int] == Some(info),
        info.litsign == l.sign,
        levels_below(a, k),
    ensures
        watch_inv_pending(c, a.update(l.var as int, Some(info)), l.negated()),
{
    let b = a.update(l.var as int, Some(info));
    assert forall|i: int| 0 <= i < c.len() implies crate::consistency::watch_pair_pending(
        (#[trigger] c[i]).watch1(),
        c[i].watch2(),
        b,
        l.negated(),
    ) && crate::consistency::watch_pair_pending(c[i].watch2(), c[i].watch1(), b, l.negated()) by {
        assert(crate::consistency::clause_watch_ok(c[i], a, k));
    }
}

} // verus!

//! What the solver's state means: valuations, models of the formula, and
//! the sense in which stored clauses and facts of level 0 follow from it.

use vstd::prelude::*;
use crate::assig::{lit_falsified, lit_level, lit_satisfied, AssigInfo, AssigModel};
use crate::clause::{all_falsified, Clause};
use crate::consistency::{
    covered, deleted_ok, formula_covered, is_root_fact, levels_below, root_sat, slot_below,
    stored_for,
};
use crate::literal::Literal;

verus! {

/// Literal `l` is true under the valuation `m`, which gives a truth value
/// to every variable.
pub open spec fn val_true(m: Seq<bool>, l: Literal) -> bool {
    l.var < m.len() && m[l.var as int] == l.sign
}

/// Some literal of the clause is true under `m`.
pub open spec fn val_clause(m: Seq<bool>, lits: Seq<Literal>) -> bool {
    exists|k: int| 0 <= k < lits.len() && val_true(m, #[trigger] lits[k])
}

/// Every clause of the formula has a literal that is true under `m`.
pub open spec fn val_formula(m: Seq<bool>, f: Seq<Seq<Literal>>) -> bool {
    forall|j: int| 0 <= j < f.len() ==> val_clause(m, #[trigger] f[j])
}

/// Every literal of `u` is true under `m`.
pub open spec fn val_units(m: Seq<bool>, u: Seq<Literal>) -> bool {
    forall|k: int| 0 <= k < u.len() ==> val_true(m, #[trigger] u[k])
}

/// Some valuation of the variables `0..=n` satisfies the formula.
pub open spec fn satisfiable(f: Seq<Seq<Literal>>, n: nat) -> bool {
    exists|m: Seq<bool>| m.len() == n + 1 && #[trigger] val_formula(m, f)
}

/// `m` is a model of the formula together with the literals `u`, which
/// were assumed as pure literals.
pub open spec fn is_model(m: Seq<bool>, f: Seq<Seq<Literal>>, u: Seq<Literal>, n: nat) -> bool {
    m.len() == n + 1 && val_formula(m, f) && val_units(m, u)
}

/// The formula has a model under which the assumed literals are true.
pub open spec fn ext_satisfiable(f: Seq<Seq<Literal>>, u: Seq<Literal>, n: nat) -> bool {
    exists|m: Seq<bool>| #[trigger] is_model(m, f, u, n)
}

/// `m` satisfies every stored clause and agrees with every fact of level
/// 0.
pub open spec fn upholds(m: Seq<bool>, c: Seq<Clause>, a: AssigModel) -> bool {
    &&& forall|i: int| 0 <= i < c.len() ==> val_clause(m, (#[trigger] c[i]).literals@)
    &&& forall|v: int|
        0 <= v < a.len() && is_root_fact(#[trigger] a[v]) ==> v < m.len() && m[v]
            == a[v]->Some_0.litsign
}

/// Every model of the formula and the assumed literals satisfies every
/// stored clause and agrees with every fact of level 0.
pub open spec fn entails(
    f: Seq<Seq<Literal>>,
    u: Seq<Literal>,
    n: nat,
    c: Seq<Clause>,
    a: AssigModel,
) -> bool {
    forall|m: Seq<bool>| #[trigger] is_model(m, f, u, n) ==> upholds(m, c, a)
}

/// The clause is true in every model of the formula and the assumed
/// literals.
pub open spec fn clause_entailed(
    f: Seq<Seq<Literal>>,
    u: Seq<Literal>,
    n: nat,
    lits: Seq<Literal>,
) -> bool {
    forall|m: Seq<bool>| #[trigger] is_model(m, f, u, n) ==> val_clause(m, lits)
}

/// The literal is true in every model of the formula and the assumed
/// literals.
pub open spec fn literal_entailed(f: Seq<Seq<Literal>>, u: Seq<Literal>, n: nat, l: Literal)
    -> bool {
    forall|m: Seq<bool>| #[trigger] is_model(m, f, u, n) ==> val_true(m, l)
}

/// Every assumed literal is a fact of level 0.
pub open spec fn units_asserted(u: Seq<Literal>, a: AssigModel) -> bool {
    forall|k: int|
        0 <= k < u.len() ==> lit_satisfied(#[trigger] u[k], a) && lit_level(u[k], a) == 0
}

/// Every fact of level 0 in `b` is the same in `a`.
pub open spec fn root_facts_within(b: AssigModel, a: AssigModel) -> bool {
    &&& b.len() == a.len()
    &&& forall|v: int| 0 <= v < b.len() && is_root_fact(#[trigger] b[v]) ==> b[v] == a[v]
}

/// Some clause of `c` has the literals `lits`.
pub open spec fn has_clause(c: Seq<Clause>, lits: Seq<Literal>) -> bool {
    exists|j: int| 0 <= j < c.len() && (#[trigger] c[j]).literals@ == lits
}

/// Every clause of `d` has the literals of some clause of `c`.
pub open spec fn clauses_within(d: Seq<Clause>, c: Seq<Clause>) -> bool {
    forall|i: int| 0 <= i < d.len() ==> has_clause(c, (#[trigger] d[i]).literals@)
}

/// Clauses at the same positions have the same literals.
pub proof fn lemma_same_literals_within(d: Seq<Clause>, c: Seq<Clause>)
    requires
        d.len() <= c.len(),
        forall|i: int| 0 <= i < d.len() ==> (#[trigger] d[i]).literals@ == c[i].literals@,
    ensures
        clauses_within(d, c),
{
    assert forall|i: int| 0 <= i < d.len() implies has_clause(c, (#[trigger] d[i]).literals@) by {
        assert(c[i].literals@ == d[i].literals@);
    }
}

/// Entailment survives dropping or rearranging clauses, moving watches,
/// and undoing or adding assignments that are not facts of level 0.
pub proof fn lemma_entails_frame(
    f: Seq<Seq<Literal>>,
    u: Seq<Literal>,
    n: nat,
    c: Seq<Clause>,
    d: Seq<Clause>,
    a: AssigModel,
    b: AssigModel,
)
    requires
        entails(f, u, n, c, a),
        clauses_within(d, c),
        root_facts_within(b, a),
    ensures
        entails(f, u, n, d, b),
{
    assert forall|m: Seq<bool>| #[trigger] is_model(m, f, u, n) implies upholds(m, d, b) by {
        assert(upholds(m, c, a));
        assert forall|i: int| 0 <= i < d.len() implies val_clause(m, (#[trigger] d[i]).literals@) by {
            assert(has_clause(c, d[i].literals@));
            let j = choose|j: int| 0 <= j < c.len() && (#[trigger] c[j]).literals@ == d[i].literals@;
            assert(val_clause(m, c[j].literals@));
        }
        assert forall|v: int| 0 <= v < b.len() && is_root_fact(#[trigger] b[v]) implies v < m.len()
            && m[v] == b[v]->Some_0.litsign by {
            assert(is_root_fact(a[v]));
        }
    }
}

/// Entailment survives a new fact of level 0 that is itself entailed.
pub proof fn lemma_entails_new_fact(
    f: Seq<Seq<Literal>>,
    u: Seq<Literal>,
    n: nat,
    c: Seq<Clause>,
    a: AssigModel,
    l: Literal,
)
    requires
        entails(f, u, n, c, a),
        literal_entailed(f, u, n, l),
        l.var < a.len(),
    ensures
        entails(
            f,
            u,
            n,
            c,
            a.update(l.var as int, Some(AssigInfo { litsign: l.sign, level: 0 })),
        ),
{
    let b = a.update(l.var as int, Some(AssigInfo { litsign: l.sign, level: 0 }));
    assert forall|m: Seq<bool>| #[trigger] is_model(m, f, u, n) implies upholds(m, c, b) by {
        assert(upholds(m, c, a));
        assert(val_true(m, l));
        assert forall|v: int| 0 <= v < b.len() && is_root_fact(#[trigger] b[v]) implies v < m.len()
            && m[v] == b[v]->Some_0.litsign by {
            if v != l.var {
                assert(is_root_fact(a[v]));
            }
        }
    }
}

/// Entailment survives storing a clause that is itself entailed.
pub proof fn lemma_entails_push_clause(
    f: Seq<Seq<Literal>>,
    u: Seq<Literal>,
    n: nat,
    c: Seq<Clause>,
    cl: Clause,
    a: AssigModel,
)
    requires
        entails(f, u, n, c, a),
        clause_entailed(f, u, n, cl.literals@),
    ensures
        entails(f, u, n, c.push(cl), a),
{
    let d = c.push(cl);
    assert forall|m: Seq<bool>| #[trigger] is_model(m, f, u, n) implies upholds(m, d, a) by {
        assert(upholds(m, c, a));
        assert forall|i: int| 0 <= i < d.len() implies val_clause(m, (#[trigger] d[i]).literals@) by {
            if i < c.len() {
                assert(d[i] == c[i]);
                assert(val_clause(m, c[i].literals@));
            }
        }
    }
}

/// What is entailed by a formula is entailed by the formula with more
/// clauses and more assumed literals.
pub proof fn lemma_entails_more(
    f: Seq<Seq<Literal>>,
    u: Seq<Literal>,
    f2: Seq<Seq<Literal>>,
    u2: Seq<Literal>,
    n: nat,
    c: Seq<Clause>,
    a: AssigModel,
)
    requires
        entails(f, u, n, c, a),
        f.len() <= f2.len(),
        forall|j: int| 0 <= j < f.len() ==> f2[j] == f[j],
        u.len() <= u2.len(),
        forall|k: int| 0 <= k < u.len() ==> u2[k] == u[k],
    ensures
        entails(f2, u2, n, c, a),
        forall|m: Seq<bool>| #[trigger] is_model(m, f2, u2, n) ==> is_model(m, f, u, n),
{
    assert forall|m: Seq<bool>| #[trigger] is_model(m, f2, u2, n) implies is_model(m, f, u, n) by {
        assert forall|j: int| 0 <= j < f.len() implies val_clause(m, #[trigger] f[j]) by {
            assert(val_clause(m, f2[j]));
        }
        assert forall|k: int| 0 <= k < u.len() implies val_true(m, #[trigger] u[k]) by {
            assert(val_true(m, u2[k]));
        }
    }
    assert forall|m: Seq<bool>| #[trigger] is_model(m, f2, u2, n) implies upholds(m, c, a) by {
        assert(is_model(m, f, u, n));
    }
}

/// A literal falsified by a fact of level 0 is false in every model.
pub proof fn lemma_root_false(m: Seq<bool>, c: Seq<Clause>, a: AssigModel, x: Literal)
    requires
        upholds(m, c, a),
        lit_falsified(x, a),
        lit_level(x, a) == 0,
    ensures
        !val_true(m, x),
{
    assert(is_root_fact(a[x.var as int]));
}

/// A literal satisfied by a fact of level 0 is true in every model.
pub proof fn lemma_root_true(m: Seq<bool>, c: Seq<Clause>, a: AssigModel, x: Literal)
    requires
        upholds(m, c, a),
        lit_satisfied(x, a),
        lit_level(x, a) == 0,
    ensures
        val_true(m, x),
{
    assert(is_root_fact(a[x.var as int]));
}

/// If every literal of an entailed clause over another variable than that
/// of `l` is falsified by a fact of level 0, and the clause names the
/// variable of `l` only as `l`, then `l` is entailed.
pub proof fn lemma_unit_entailed(
    f: Seq<Seq<Literal>>,
    u: Seq<Literal>,
    n: nat,
    c: Seq<Clause>,
    a: AssigModel,
    idx: int,
    l: Literal,
)
    requires
        entails(f, u, n, c, a),
        0 <= idx < c.len(),
        levels_below(a, 1),
        forall|k: int|
            0 <= k < c[idx].literals@.len() && (#[trigger] c[idx].literals@[k]).var != l.var
                ==> lit_falsified(c[idx].literals@[k], a),
        forall|k: int|
            0 <= k < c[idx].literals@.len() && (#[trigger] c[idx].literals@[k]).var == l.var
                ==> c[idx].literals@[k] == l,
    ensures
        literal_entailed(f, u, n, l),
{
    let lits = c[idx].literals@;
    assert forall|m: Seq<bool>| #[trigger] is_model(m, f, u, n) implies val_true(m, l) by {
        assert(upholds(m, c, a));
        assert(val_clause(m, c[idx].literals@));
        let k = choose|k: int| 0 <= k < lits.len() && val_true(m, #[trigger] lits[k]);
        if lits[k].var != l.var {
            assert(lit_falsified(lits[k], a));
            assert(slot_below(a[lits[k].var as int], 1));
            lemma_root_false(m, c, a, lits[k]);
        }
    }
}

/// If the facts of level 0 falsify a stored clause, the formula has no
/// model under which the assumed literals are true.
pub proof fn lemma_root_conflict(
    f: Seq<Seq<Literal>>,
    u: Seq<Literal>,
    n: nat,
    c: Seq<Clause>,
    a: AssigModel,
    idx: int,
)
    requires
        entails(f, u, n, c, a),
        0 <= idx < c.len(),
        levels_below(a, 1),
        all_falsified(c[idx].literals@, a),
    ensures
        !ext_satisfiable(f, u, n),
{
    let lits = c[idx].literals@;
    assert forall|m: Seq<bool>| !#[trigger] is_model(m, f, u, n) by {
        if is_model(m, f, u, n) {
            assert(upholds(m, c, a));
            assert(val_clause(m, c[idx].literals@));
            let k = choose|k: int| 0 <= k < lits.len() && val_true(m, #[trigger] lits[k]);
            assert(lit_falsified(lits[k], a));
            assert(slot_below(a[lits[k].var as int], 1));
            lemma_root_false(m, c, a, lits[k]);
        }
    }
}

/// Assuming a pure literal keeps the formula satisfiable: if the negation
/// of the unassigned literal `l` occurs in no live clause, a model under
/// which the literals assumed so far are true can be changed at the
/// variable of `l` into one under which `l` is true as well.
pub proof fn lemma_pure_extension(
    f: Seq<Seq<Literal>>,
    u: Seq<Literal>,
    n: nat,
    c: Seq<Clause>,
    a: AssigModel,
    l: Literal,
)
    requires
        entails(f, u, n, c, a),
        formula_covered(f, c, a),
        deleted_ok(c, a),
        units_asserted(u, a),
        ext_satisfiable(f, u, n),
        1 <= l.var <= n,
        a.len() == n + 1,
        a[l.var as int] is None,
        forall|i: int|
            0 <= i < c.len() && !(#[trigger] c[i]).deleted ==> !c[i].literals@.contains(
                l.negated(),
            ),
    ensures
        ext_satisfiable(f, u.push(l), n),
{
    let m = choose|m: Seq<bool>| #[trigger] is_model(m, f, u, n);
    let m2 = m.update(l.var as int, l.sign);
    let u2 = u.push(l);
    assert(upholds(m, c, a));
    // a literal that a fact of level 0 satisfies is true under both
    assert forall|x: Literal| lit_satisfied(x, a) && lit_level(x, a) == 0 implies val_true(
        m2,
        x,
    ) by {
        lemma_root_true(m, c, a, x);
    }
    assert forall|lits: Seq<Literal>| #[trigger] root_sat(lits, a) implies val_clause(m2, lits) by {
        let k = choose|k: int|
            0 <= k < lits.len() && lit_satisfied(#[trigger] lits[k], a) && lit_level(lits[k], a)
                == 0;
        assert(val_true(m2, lits[k]));
    }
    assert forall|j: int| 0 <= j < f.len() implies val_clause(m2, #[trigger] f[j]) by {
        let o = f[j];
        assert(covered(o, c, a));
        if !root_sat(o, a) {
            let i = choose|i: int| #[trigger] stored_for(c, o, i);
            let cl = c[i].literals@;
            if c[i].deleted {
                assert(root_sat(cl, a));
                let k = choose|k: int|
                    0 <= k < cl.len() && lit_satisfied(#[trigger] cl[k], a) && lit_level(cl[k], a)
                        == 0;
                assert(o.contains(cl[k]));
                let q = choose|q: int| 0 <= q < o.len() && o[q] == cl[k];
                assert(val_true(m2, o[q]));
            } else {
                assert(val_clause(m, c[i].literals@));
                let k = choose|k: int| 0 <= k < cl.len() && val_true(m, #[trigger] cl[k]);
                assert(o.contains(cl[k]));
                let q = choose|q: int| 0 <= q < o.len() && o[q] == cl[k];
                if cl[k].var == l.var {
                    if cl[k] != l {
                        assert(cl[k] == l.negated());
                        assert(cl.contains(l.negated()));
                    }
                }
                assert(val_true(m2, o[q]));
            }
        }
    }
    assert forall|k: int| 0 <= k < u2.len() implies val_true(m2, #[trigger] u2[k]) by {
        if k < u.len() {
            assert(u2[k] == u[k]);
            assert(lit_satisfied(u[k], a));
            assert(val_true(m, u[k]));
        }
    }
    assert(is_model(m2, f, u2, n));
}

} // verus!

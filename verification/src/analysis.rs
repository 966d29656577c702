//! Conflict analysis: from a clause whose literals are all falsified to the
//! clause that is learned from it, by resolution back to the first unique
//! implication point.

use vstd::prelude::*;
use rustc_hash::FxHashSet;
use crate::assig::{lit_falsified, lit_level, lit_satisfied, lit_unassigned, AssigInfo, AssigModel};
use crate::clause::{all_falsified, lits_in_range, vars_distinct, Clause};
use crate::consistency::{
    antecedent_ok, clause_watch_ok, earlier_false, entry_level, entry_ok, levels_below,
    same_but_marks, slot_below, slot_ok, trail_ok, watch_inv, watch_inv_pending, watch_pair_pending,
};
use crate::decision::{ConflictAnalysisResult, Decision};
use crate::fx::{set_insert, set_items, set_len, set_remove};
use crate::learn::{asserting, asserting_at, at_level, first_at_level, retained};
use crate::levels::{
    backtrack_level_of, below_level, lemma_below_level, lemma_below_positive, lemma_top_level,
    levels_of, top_level,
};
use crate::literal::{Literal, MAX_VARIABLE};
use crate::consistency::names_only;
use crate::semantics::{
    clause_entailed, is_model, lemma_root_conflict, lemma_root_false, satisfiable, upholds,
    val_clause, val_true,
};
use crate::solver::{lemma_levels_below, SolverState};
use crate::trail_lemmas::{lemma_pop_keeps_watch_inv, lemma_watch_inv_weaken};

verus! {

/// The literal with the dense code `code`.
pub open spec fn lit_of_code(code: usize) -> Literal {
    Literal { var: code / 2, sign: code % 2 == 1 }
}

/// The literal with the dense code `code`.
pub fn literal_from_code(code: usize) -> (r: Literal)
    ensures
        r == lit_of_code(code),
{
    Literal { var: code / 2, sign: code % 2 == 1 }
}

/// Literal `l` is over another variable than `skip`, and the level of its
/// variable lies between `lo` and `hi`.
pub open spec fn counted(l: Literal, skip: Option<usize>, a: AssigModel, lo: nat, hi: nat) -> bool {
    skip != Some(l.var) && lo <= lit_level(l, a) <= hi
}

/// The codes of the negations of those literals of `lits` that are over
/// another variable than `skip` and whose level lies between `lo` and `hi`.
pub open spec fn negations_in(
    lits: Seq<Literal>,
    skip: Option<usize>,
    a: AssigModel,
    lo: nat,
    hi: nat,
) -> Set<usize> {
    Set::new(
        |c: usize|
            exists|k: int|
                0 <= k < lits.len() && (#[trigger] lits[k]).negated().code() == c && counted(
                    lits[k],
                    skip,
                    a,
                    lo,
                    hi,
                ),
    )
}

/// One more literal adds its negation, if it counts.
pub proof fn lemma_negations_step(
    lits: Seq<Literal>,
    i: int,
    skip: Option<usize>,
    a: AssigModel,
    lo: nat,
    hi: nat,
)
    requires
        0 <= i < lits.len(),
        lits[i].var <= MAX_VARIABLE,
    ensures
        negations_in(lits.take(i + 1), skip, a, lo, hi) == (if counted(lits[i], skip, a, lo, hi) {
            negations_in(lits.take(i), skip, a, lo, hi).insert(lits[i].negated().code() as usize)
        } else {
            negations_in(lits.take(i), skip, a, lo, hi)
        }),
{
    let p = lits.take(i);
    let q = lits.take(i + 1);
    let np = negations_in(p, skip, a, lo, hi);
    let nq = negations_in(q, skip, a, lo, hi);
    let r = if counted(lits[i], skip, a, lo, hi) {
        np.insert(lits[i].negated().code() as usize)
    } else {
        np
    };
    assert forall|c: usize| nq.contains(c) <==> r.contains(c) by {
        if nq.contains(c) {
            let k = choose|k: int|
                0 <= k < q.len() && (#[trigger] q[k]).negated().code() == c && counted(
                    q[k],
                    skip,
                    a,
                    lo,
                    hi,
                );
            if k < i {
                assert(p[k] == q[k]);
            }
        }
        if r.contains(c) {
            if np.contains(c) {
                let k = choose|k: int|
                    0 <= k < p.len() && (#[trigger] p[k]).negated().code() == c && counted(
                        p[k],
                        skip,
                        a,
                        lo,
                        hi,
                    );
                assert(q[k] == p[k]);
            } else {
                assert(q[i] == lits[i]);
            }
        }
    }
    assert(nq =~= r);
}

/// The negations depend only on the levels of the literals that count.
pub proof fn lemma_negations_same(
    lits: Seq<Literal>,
    skip: Option<usize>,
    a: AssigModel,
    b: AssigModel,
    lo: nat,
    hi: nat,
)
    requires
        forall|k: int|
            0 <= k < lits.len() && skip != Some((#[trigger] lits[k]).var) ==> lit_level(lits[k], a)
                == lit_level(lits[k], b),
    ensures
        negations_in(lits, skip, a, lo, hi) == negations_in(lits, skip, b, lo, hi),
{
    assert(negations_in(lits, skip, a, lo, hi) =~= negations_in(lits, skip, b, lo, hi));
}

/// Resolution back along the trail `t`, from its top, to the first unique
/// implication point of level `lv`.
///
/// `cur` holds the frontier, true literals of level `lv`, and `bl` the
/// blamed literals of earlier levels, both by their codes. While the
/// frontier holds more than one literal, the propagation on top of the
/// trail is undone; if its literal is in the frontier, it is replaced there
/// by what its antecedent blames: of the other literals of the antecedent,
/// the negations of those of level `lv` join the frontier, and the
/// negations of those of a level from 1 to below `lv` join the blamed
/// literals. Levels are read from `a`.
pub open spec fn first_uip(
    t: Seq<Decision>,
    c: Seq<Clause>,
    a: AssigModel,
    lv: nat,
    cur: Set<usize>,
    bl: Set<usize>,
) -> (Set<usize>, Set<usize>)
    decreases t.len(),
{
    if cur.len() <= 1 || t.len() == 0 {
        (cur, bl)
    } else {
        match t.last() {
            Decision::UnitProp { lit, unit_prop_idx } => {
                if cur.contains(lit.code() as usize) {
                    let lits = c[unit_prop_idx as int].literals@;
                    first_uip(
                        t.drop_last(),
                        c,
                        a,
                        lv,
                        cur.remove(lit.code() as usize).union(
                            negations_in(lits, Some(lit.var), a, lv, lv),
                        ),
                        bl.union(negations_in(lits, Some(lit.var), a, 1, (lv - 1) as nat)),
                    )
                } else {
                    first_uip(t.drop_last(), c, a, lv, cur, bl)
                }
            },
            _ => (cur, bl),
        }
    }
}

/// The literal coded by `c` is true, and was made so at level `lv`.
pub open spec fn true_at(c: usize, a: AssigModel, n: nat, lv: nat) -> bool {
    let l = lit_of_code(c);
    1 <= l.var <= n && lit_satisfied(l, a) && lit_level(l, a) == lv
}

/// The literal coded by `c` is true, and was made so below level `lv`.
pub open spec fn true_below(c: usize, a: AssigModel, n: nat, lv: nat) -> bool {
    let l = lit_of_code(c);
    1 <= l.var <= n && lit_satisfied(l, a) && lit_level(l, a) < lv
}

/// The frontier: true literals of the level in effect.
pub open spec fn frontier_ok(s: Set<usize>, a: AssigModel, n: nat, lv: nat) -> bool {
    forall|c: usize| #[trigger] s.contains(c) ==> true_at(c, a, n, lv)
}

/// The blamed literals: true literals of earlier levels.
pub open spec fn blamed_ok(s: Set<usize>, a: AssigModel, n: nat, lv: nat) -> bool {
    forall|c: usize| #[trigger] s.contains(c) ==> true_below(c, a, n, lv)
}

/// What has been undone since `a0` was assigned at level `lv`.
pub open spec fn undone_at(a0: AssigModel, a: AssigModel, lv: nat) -> bool {
    &&& a.len() == a0.len()
    &&& forall|v: int|
        0 <= v < a.len() ==> #[trigger] a[v] == a0[v] || (a[v] is None && a0[v] is Some
            && a0[v]->Some_0.level == lv)
}

/// Some frontier or blamed literal is false under `m`.
pub open spec fn refuted(m: Seq<bool>, cur: Set<usize>, bl: Set<usize>) -> bool {
    exists|c: usize|
        (cur.contains(c) || bl.contains(c)) && #[trigger] val_true(m, lit_of_code(c).negated())
}

/// No model of the formula makes all frontier and blamed literals true:
/// the clause of their negations follows from the formula.
pub open spec fn reason_ok(
    f: Seq<Seq<Literal>>,
    u: Seq<Literal>,
    n: nat,
    cur: Set<usize>,
    bl: Set<usize>,
) -> bool {
    forall|m: Seq<bool>| #[trigger] is_model(m, f, u, n) ==> refuted(m, cur, bl)
}

/// Some literal of `lits` from position `k` on, over another variable than
/// that of `lit`, is true under `m`.
pub open spec fn pending_witness(m: Seq<bool>, lits: Seq<Literal>, k: int, lit: Literal) -> bool {
    exists|j: int| k <= j < lits.len() && val_true(m, #[trigger] lits[j]) && lits[j].var != lit.var
}

/// A finite set with one element has no second one.
pub proof fn lemma_single_element(s: Set<usize>, x: usize, y: usize)
    requires
        s.finite(),
        s.len() == 1,
        s.contains(x),
        s.contains(y),
    ensures
        x == y,
{
    if x != y {
        let r = s.remove(x);
        assert(r.len() == 0);
        assert(r.contains(y));
    }
}

/// A finite set with more than one element has two different elements.
pub proof fn lemma_two_elements(s: Set<usize>)
    requires
        s.finite(),
        s.len() > 1,
    ensures
        exists|x: usize, y: usize| s.contains(x) && s.contains(y) && x != y,
{
    let x = s.choose();
    assert(s.contains(x));
    let r = s.remove(x);
    assert(r.len() == s.len() - 1);
    let y = r.choose();
    assert(r.contains(y));
    assert(s.contains(x) && s.contains(y) && x != y);
}

/// While two different true literals of the level in effect remain, the
/// last entry of the trail is a propagation.
pub proof fn lemma_frontier_top(
    t: Seq<Decision>,
    a: AssigModel,
    lv: nat,
    n: nat,
    x: Literal,
    y: Literal,
)
    requires
        trail_ok(t, a, lv, n),
        lv >= 1,
        x != y,
        lit_satisfied(x, a),
        lit_level(x, a) == lv,
        lit_satisfied(y, a),
        lit_level(y, a) == lv,
    ensures
        t.len() > 0,
        t.last() is UnitProp,
{
    assert(slot_ok(t, a, lv, x.var as int));
    assert(slot_ok(t, a, lv, y.var as int));
    let i = choose|i: int| 0 <= i < t.len() && (#[trigger] t[i]).lit().var == x.var;
    let j = choose|j: int| 0 <= j < t.len() && (#[trigger] t[j]).lit().var == y.var;
    let last = t.len() - 1;
    assert(entry_ok(t, a, n, last));
    assert(entry_ok(t, a, n, i));
    assert(entry_ok(t, a, n, j));
    assert(entry_level(t, a, i) == lv);
    assert(entry_level(t, a, j) == lv);
    if t.last() is Choice {
        if last > 0 {
            let k = if i < last { i } else { j };
            assert(entry_level(t, a, k) <= entry_level(t, a, last - 1));
        }
    }
}

impl SolverState {
    /// The negations of the literals of clause `idx` that were assigned at
    /// the level in effect, by their codes.
    pub open spec fn conflict_frontier(&self, idx: usize) -> Set<usize> {
        negations_in(
            self.clauses@[idx as int].literals@,
            None,
            self.assig@,
            self.level as nat,
            self.level as nat,
        )
    }

    /// The negations of the literals of clause `idx` that were assigned
    /// below the level in effect, by their codes.
    pub open spec fn conflict_earlier(&self, idx: usize) -> Set<usize> {
        negations_in(
            self.clauses@[idx as int].literals@,
            None,
            self.assig@,
            0,
            (self.level - 1) as nat,
        )
    }

    /// What is learned from a conflict in clause `idx`, as the codes of the
    /// negations of the learned literals: the first unique implication
    /// point of the level in effect together with the literals blamed on
    /// the way to it.
    pub open spec fn learned_codes(&self, idx: usize) -> Set<usize> {
        let w = first_uip(
            self.decision_stack@,
            self.clauses@,
            self.assig@,
            self.level as nat,
            self.conflict_frontier(idx),
            self.conflict_earlier(idx),
        );
        w.0.union(w.1)
    }

    /// Splits the negations of the literals of the conflicting clause into
    /// those made true at the level in effect (the frontier) and those made
    /// true earlier.
    fn partition_conflict(&self, conflict_idx: usize) -> (r: (FxHashSet<usize>, FxHashSet<usize>))
        requires
            self.wf(),
            self.level >= 1,
            self.violated_at(conflict_idx),
        ensures
            r.0@.finite(),
            r.1@.finite(),
            r.0@.len() >= 1,
            frontier_ok(r.0@, self.assig@, self.num_variables as nat, self.level as nat),
            blamed_ok(r.1@, self.assig@, self.num_variables as nat, self.level as nat),
            forall|c: usize|
                r.0@.contains(c) || r.1@.contains(c) ==> self.clauses@[conflict_idx as int].literals@.contains(
                    lit_of_code(c).negated(),
                ),
            reason_ok(self.formula@, self.pure_units@, self.num_variables as nat, r.0@, r.1@),
            r.0@ == self.conflict_frontier(conflict_idx),
            r.1@ == self.conflict_earlier(conflict_idx),
    {
        let ghost n = self.num_variables as nat;
        let ghost a = self.assig@;
        let ghost lits = self.clauses@[conflict_idx as int].literals@;
        let lv = self.level;
        let mut curset: FxHashSet<usize> = FxHashSet::default();
        let mut blamed: FxHashSet<usize> = FxHashSet::default();
        proof {
            assert(self.clauses@[conflict_idx as int].wf(n));
            lemma_levels_below(self.decision_stack@, a, lv as nat, n);
            assert(curset@ =~= negations_in(lits.take(0), None, a, lv as nat, lv as nat));
            assert(blamed@ =~= negations_in(lits.take(0), None, a, 0, (lv - 1) as nat));
        }
        let mut i: usize = 0;
        while i < self.clauses[conflict_idx].literals.len()
            invariant
                i <= lits.len(),
                conflict_idx < self.clauses@.len(),
                lits == self.clauses@[conflict_idx as int].literals@,
                a == self.assig@,
                lv == self.level,
                n == self.num_variables,
                n <= MAX_VARIABLE,
                a.len() == n + 1,
                lits_in_range(lits, n),
                all_falsified(lits, a),
                levels_below(a, lv as nat + 1),
                curset@.finite(),
                blamed@.finite(),
                frontier_ok(curset@, a, n, lv as nat),
                blamed_ok(blamed@, a, n, lv as nat),
                forall|k: int|
                    0 <= k < i && lit_level(#[trigger] lits[k], a) == lv ==> curset@.contains(
                        lits[k].negated().code() as usize,
                    ),
                forall|k: int|
                    0 <= k < i ==> curset@.contains((#[trigger] lits[k]).negated().code() as usize)
                        || blamed@.contains(lits[k].negated().code() as usize),
                forall|c: usize|
                    curset@.contains(c) || blamed@.contains(c) ==> lits.contains(
                        lit_of_code(c).negated(),
                    ),
                lv >= 1,
                curset@ == negations_in(lits.take(i as int), None, a, lv as nat, lv as nat),
                blamed@ == negations_in(lits.take(i as int), None, a, 0, (lv - 1) as nat),
            decreases lits.len() - i,
        {
            let m = self.clauses[conflict_idx].literals[i];
            let lit = m.invert();
            proof {
                assert(lit_falsified(lits[i as int], a));
                assert(slot_below(a[lit.var as int], lv as nat + 1));
                assert(lit_of_code(lit.code() as usize) == lit);
                assert(lit.negated() == m);
                lemma_negations_step(lits, i as int, None, a, lv as nat, lv as nat);
                lemma_negations_step(lits, i as int, None, a, 0, (lv - 1) as nat);
            }
            let l = self.get_lit_level(&lit);
            let code = lit.dense_code();
            if l == lv {
                set_insert(&mut curset, code);
            } else {
                set_insert(&mut blamed, code);
            }
            i = i + 1;
        }
        proof {
            assert(lits.take(lits.len() as int) =~= lits);
            let k = choose|k: int|
                0 <= k < lits.len() && lit_falsified(#[trigger] lits[k], a) && lit_level(lits[k], a)
                    == lv;
            assert(curset@.contains(lits[k].negated().code() as usize));
            assert forall|m: Seq<bool>| #[trigger]
                is_model(m, self.formula@, self.pure_units@, n) implies refuted(
                m,
                curset@,
                blamed@,
            ) by {
                assert(upholds(m, self.clauses@, a));
                assert(val_clause(m, self.clauses@[conflict_idx as int].literals@));
                let j = choose|j: int| 0 <= j < lits.len() && val_true(m, #[trigger] lits[j]);
                let c = lits[j].negated().code() as usize;
                assert(lit_of_code(c).negated() == lits[j]);
                assert(val_true(m, lit_of_code(c).negated()));
            }
        }
        (curset, blamed)
    }

    /// Sorts the literals of the antecedent of the propagation of `lit`,
    /// which has just been undone, into the frontier and the blamed
    /// literals: the negation of each literal over another variable joins
    /// the frontier if it was made true at the level in effect, and the
    /// blamed literals if it was made true at an earlier level above 0.
    fn blame_antecedent(
        &self,
        unit_idx: usize,
        lit: Literal,
        curset: &mut FxHashSet<usize>,
        blamed: &mut FxHashSet<usize>,
    )
        requires
            self.wf(),
            self.level >= 1,
            unit_idx < self.clauses@.len(),
            forall|k: int|
                0 <= k < self.clauses@[unit_idx as int].literals@.len() && (
                #[trigger] self.clauses@[unit_idx as int].literals@[k]).var != lit.var
                    ==> lit_falsified(self.clauses@[unit_idx as int].literals@[k], self.assig@),
            names_only(self.clauses@[unit_idx as int].literals@, lit),
            1 <= lit.var <= self.num_variables,
            reason_ok(
                self.formula@,
                self.pure_units@,
                self.num_variables as nat,
                old(curset)@.insert(lit.code() as usize),
                old(blamed)@,
            ),
            old(curset)@.finite(),
            old(blamed)@.finite(),
            frontier_ok(old(curset)@, self.assig@, self.num_variables as nat, self.level as nat),
            blamed_ok(old(blamed)@, self.assig@, self.num_variables as nat, self.level as nat),
        ensures
            final(curset)@.finite(),
            final(blamed)@.finite(),
            final(curset)@.len() >= old(curset)@.len(),
            frontier_ok(final(curset)@, self.assig@, self.num_variables as nat, self.level as nat),
            blamed_ok(final(blamed)@, self.assig@, self.num_variables as nat, self.level as nat),
            forall|c: usize| old(curset)@.contains(c) ==> final(curset)@.contains(c),
            forall|c: usize| old(blamed)@.contains(c) ==> final(blamed)@.contains(c),
            reason_ok(
                self.formula@,
                self.pure_units@,
                self.num_variables as nat,
                final(curset)@,
                final(blamed)@,
            ),
            final(curset)@ == old(curset)@.union(
                negations_in(
                    self.clauses@[unit_idx as int].literals@,
                    Some(lit.var),
                    self.assig@,
                    self.level as nat,
                    self.level as nat,
                ),
            ),
            final(blamed)@ == old(blamed)@.union(
                negations_in(
                    self.clauses@[unit_idx as int].literals@,
                    Some(lit.var),
                    self.assig@,
                    1,
                    (self.level - 1) as nat,
                ),
            ),
    {
        let ghost n = self.num_variables as nat;
        let ghost a = self.assig@;
        let ghost lits = self.clauses@[unit_idx as int].literals@;
        let ghost f = self.formula@;
        let ghost u = self.pure_units@;
        let ghost skip = Some(lit.var);
        let lv = self.level;
        proof {
            assert(self.clauses@[unit_idx as int].wf(n));
            lemma_levels_below(self.decision_stack@, a, lv as nat, n);
            assert(curset@ =~= old(curset)@.union(
                negations_in(lits.take(0), skip, a, lv as nat, lv as nat),
            ));
            assert(blamed@ =~= old(blamed)@.union(
                negations_in(lits.take(0), skip, a, 1, (lv - 1) as nat),
            ));
            assert(lit_of_code(lit.code() as usize) == lit);
            assert forall|m: Seq<bool>| #[trigger] is_model(m, f, u, n) implies refuted(
                m,
                curset@,
                blamed@,
            ) || pending_witness(m, lits, 0, lit) by {
                assert(refuted(m, curset@.insert(lit.code() as usize), blamed@));
                let c = choose|c: usize|
                    (curset@.insert(lit.code() as usize).contains(c) || blamed@.contains(c))
                        && #[trigger] val_true(m, lit_of_code(c).negated());
                if c == lit.code() as usize && !curset@.contains(c) && !blamed@.contains(c) {
                    assert(upholds(m, self.clauses@, a));
                    assert(val_clause(m, self.clauses@[unit_idx as int].literals@));
                    let j = choose|j: int| 0 <= j < lits.len() && val_true(m, #[trigger] lits[j]);
                    if lits[j].var == lit.var {
                        assert(lits[j] == lit);
                    }
                }
            }
        }
        let mut k: usize = 0;
        while k < self.clauses[unit_idx].literals.len()
            invariant
                k <= lits.len(),
                unit_idx < self.clauses@.len(),
                lits == self.clauses@[unit_idx as int].literals@,
                a == self.assig@,
                lv == self.level,
                n == self.num_variables,
                n <= MAX_VARIABLE,
                a.len() == n + 1,
                lits_in_range(lits, n),
                forall|j: int|
                    0 <= j < lits.len() && (#[trigger] lits[j]).var != lit.var ==> lit_falsified(
                        lits[j],
                        a,
                    ),
                levels_below(a, lv as nat + 1),
                curset@.finite(),
                blamed@.finite(),
                curset@.len() >= old(curset)@.len(),
                frontier_ok(curset@, a, n, lv as nat),
                blamed_ok(blamed@, a, n, lv as nat),
                forall|c: usize| old(curset)@.contains(c) ==> curset@.contains(c),
                forall|c: usize| old(blamed)@.contains(c) ==> blamed@.contains(c),
                self.wf(),
                f == self.formula@,
                u == self.pure_units@,
                forall|m: Seq<bool>| #[trigger]
                    is_model(m, f, u, n) ==> refuted(m, curset@, blamed@) || pending_witness(
                        m,
                        lits,
                        k as int,
                        lit,
                    ),
                lv >= 1,
                skip == Some(lit.var),
                curset@ == old(curset)@.union(
                    negations_in(lits.take(k as int), skip, a, lv as nat, lv as nat),
                ),
                blamed@ == old(blamed)@.union(
                    negations_in(lits.take(k as int), skip, a, 1, (lv - 1) as nat),
                ),
            decreases lits.len() - k,
        {
            let negated_lit = self.clauses[unit_idx].literals[k];
            let decided_lit = negated_lit.invert();
            let ghost cs0 = curset@;
            let ghost bl0 = blamed@;
            proof {
                lemma_negations_step(lits, k as int, skip, a, lv as nat, lv as nat);
                lemma_negations_step(lits, k as int, skip, a, 1, (lv - 1) as nat);
            }
            if decided_lit.var != lit.var {
                proof {
                    assert(lit_falsified(lits[k as int], a));
                    assert(slot_below(a[decided_lit.var as int], lv as nat + 1));
                    assert(lit_of_code(decided_lit.code() as usize) == decided_lit);
                }
                let resp_lit_level = self.get_lit_level(&decided_lit);
                let code = decided_lit.dense_code();
                if 0 < resp_lit_level && resp_lit_level < lv {
                    set_insert(blamed, code);
                } else if resp_lit_level == lv {
                    set_insert(curset, code);
                }
            }
            proof {
                assert forall|m: Seq<bool>| #[trigger] is_model(m, f, u, n) implies refuted(
                    m,
                    curset@,
                    blamed@,
                ) || pending_witness(m, lits, k + 1, lit) by {
                    if refuted(m, cs0, bl0) {
                        let c = choose|c: usize|
                            (cs0.contains(c) || bl0.contains(c)) && #[trigger] val_true(
                                m,
                                lit_of_code(c).negated(),
                            );
                        assert((curset@.contains(c) || blamed@.contains(c)) && val_true(
                            m,
                            lit_of_code(c).negated(),
                        ));
                    } else {
                        assert(pending_witness(m, lits, k as int, lit));
                        let j = choose|j: int|
                            k <= j < lits.len() && val_true(m, #[trigger] lits[j]) && lits[j].var
                                != lit.var;
                        if j == k {
                            let c = decided_lit.code() as usize;
                            assert(lit_of_code(c).negated() == lits[k as int]);
                            assert(upholds(m, self.clauses@, a));
                            if lit_level(decided_lit, a) == 0 {
                                lemma_root_false(m, self.clauses@, a, lits[k as int]);
                            }
                            assert(curset@.contains(c) || blamed@.contains(c));
                            assert(val_true(m, lit_of_code(c).negated()));
                        } else {
                            assert(k + 1 <= j);
                        }
                    }
                }
            }
            proof {
                assert(curset@ =~= old(curset)@.union(
                    negations_in(lits.take(k + 1), skip, a, lv as nat, lv as nat),
                ));
                assert(blamed@ =~= old(blamed)@.union(
                    negations_in(lits.take(k + 1), skip, a, 1, (lv - 1) as nat),
                ));
            }
            k = k + 1;
        }
        proof {
            assert(lits.take(lits.len() as int) =~= lits);
            assert forall|m: Seq<bool>| #[trigger] is_model(m, f, u, n) implies refuted(
                m,
                curset@,
                blamed@,
            ) by {
                assert(!pending_witness(m, lits, lits.len() as int, lit));
            }
        }
    }

    /// Undoes propagations until a single frontier literal is left, the
    /// first unique implication point. Each undone propagation that is in
    /// the frontier is replaced there by what its antecedent blames.
    fn resolve_frontier(&mut self, curset: &mut FxHashSet<usize>, blamed: &mut FxHashSet<usize>)
        requires
            old(self).wf(),
            old(self).level >= 1,
            old(curset)@.finite(),
            old(blamed)@.finite(),
            old(curset)@.len() >= 1,
            frontier_ok(
                old(curset)@,
                old(self).assig@,
                old(self).num_variables as nat,
                old(self).level as nat,
            ),
            blamed_ok(
                old(blamed)@,
                old(self).assig@,
                old(self).num_variables as nat,
                old(self).level as nat,
            ),
            reason_ok(
                old(self).formula@,
                old(self).pure_units@,
                old(self).num_variables as nat,
                old(curset)@,
                old(blamed)@,
            ),
        ensures
            final(self).wf(),
            final(self).same_setup(old(self)),
            reason_ok(
                final(self).formula@,
                final(self).pure_units@,
                final(self).num_variables as nat,
                final(curset)@,
                final(blamed)@,
            ),
            final(self).level == old(self).level,
            final(self).clauses == old(self).clauses,
            final(self).watchlist == old(self).watchlist,
            final(self).unit_prop_ds == old(self).unit_prop_ds,
            old(self).settled_below() ==> final(self).settled_below(),
            undone_at(old(self).assig@, final(self).assig@, old(self).level as nat),
            final(curset)@.finite(),
            final(blamed)@.finite(),
            final(curset)@.len() == 1,
            frontier_ok(
                final(curset)@,
                final(self).assig@,
                final(self).num_variables as nat,
                final(self).level as nat,
            ),
            blamed_ok(
                final(blamed)@,
                final(self).assig@,
                final(self).num_variables as nat,
                final(self).level as nat,
            ),
            forall|c: usize| old(blamed)@.contains(c) ==> final(blamed)@.contains(c),
            (final(curset)@, final(blamed)@) == first_uip(
                old(self).decision_stack@,
                old(self).clauses@,
                old(self).assig@,
                old(self).level as nat,
                old(curset)@,
                old(blamed)@,
            ),
    {
        let ghost n = self.num_variables as nat;
        let ghost a_start = self.assig@;
        let ghost cl_start = self.clauses@;
        let ghost goal = first_uip(
            self.decision_stack@,
            self.clauses@,
            self.assig@,
            self.level as nat,
            curset@,
            blamed@,
        );
        let lv = self.level;
        while set_len(curset) > 1
            invariant
                cl_start == self.clauses@,
                first_uip(self.decision_stack@, cl_start, a_start, lv as nat, curset@, blamed@)
                    == goal,
                n == self.num_variables,
                lv == self.level,
                lv >= 1,
                self.wf(),
                self.same_setup(old(self)),
                self.clauses == old(self).clauses,
                self.watchlist == old(self).watchlist,
                self.unit_prop_ds == old(self).unit_prop_ds,
                a_start == old(self).assig@,
                old(self).settled_below() ==> watch_inv(self.clauses@, self.assig@, lv as nat),
                undone_at(a_start, self.assig@, lv as nat),
                curset@.finite(),
                blamed@.finite(),
                curset@.len() >= 1,
                frontier_ok(curset@, self.assig@, n, lv as nat),
                blamed_ok(blamed@, self.assig@, n, lv as nat),
                forall|c: usize| old(blamed)@.contains(c) ==> blamed@.contains(c),
                reason_ok(self.formula@, self.pure_units@, n, curset@, blamed@),
            decreases self.decision_stack@.len(),
        {
            let ghost a0 = self.assig@;
            let ghost t0 = self.decision_stack@;
            let ghost cs0 = curset@;
            let ghost bl0 = blamed@;
            proof {
                lemma_two_elements(cs0);
                let (x, y) = choose|x: usize, y: usize|
                    cs0.contains(x) && cs0.contains(y) && x != y;
                assert(true_at(x, a0, n, lv as nat));
                assert(true_at(y, a0, n, lv as nat));
                lemma_frontier_top(t0, a0, lv as nat, n, lit_of_code(x), lit_of_code(y));
                assert(antecedent_ok(t0, a0, self.clauses@, t0.len() - 1));
                assert(entry_ok(t0, a0, n, t0.len() - 1));
            }
            let d = self.pop_decision();
            match d {
                Decision::UnitProp { lit, unit_prop_idx } => {
                    let ghost a1 = self.assig@;
                    proof {
                        if old(self).settled_below() {
                            lemma_pop_keeps_watch_inv(self.clauses@, a0, lit.var as int, lv as nat);
                        }
                        assert(lit_of_code(lit.code() as usize) == lit);
                        assert forall|c: usize|
                            cs0.contains(c) && c != lit.code() as usize implies true_at(
                            c,
                            a1,
                            n,
                            lv as nat,
                        ) by {
                            assert(true_at(c, a0, n, lv as nat));
                        }
                        assert forall|c: usize| #[trigger] bl0.contains(c) implies true_below(
                            c,
                            a1,
                            n,
                            lv as nat,
                        ) by {
                            assert(true_below(c, a0, n, lv as nat));
                        }
                        let cl = self.clauses@[unit_prop_idx as int].literals@;
                        assert forall|k: int| 0 <= k < cl.len() && (#[trigger] cl[k]).var
                            != lit.var implies lit_falsified(cl[k], a1) by {
                            assert(earlier_false(t0, a0, cl[k], t0.len() - 1));
                        }
                        assert(names_only(cl, lit));
                    }
                    let lit_present = set_remove(curset, lit.dense_code());
                    proof {
                        if lit_present {
                            assert(curset@.insert(lit.code() as usize) =~= cs0);
                        } else {
                            assert(curset@ =~= cs0);
                        }
                    }
                    if lit_present {
                        self.blame_antecedent(unit_prop_idx, lit, curset, blamed);
                    }
                    proof {
                        let cl = self.clauses@[unit_prop_idx as int].literals@;
                        assert forall|k: int|
                            0 <= k < cl.len() && Some(lit.var) != Some(
                                (#[trigger] cl[k]).var,
                            ) implies lit_level(cl[k], a1) == lit_level(cl[k], a_start) by {
                            assert(lit_falsified(cl[k], a1));
                        }
                        lemma_negations_same(cl, Some(lit.var), a1, a_start, lv as nat, lv as nat);
                        lemma_negations_same(
                            cl,
                            Some(lit.var),
                            a1,
                            a_start,
                            1,
                            (lv - 1) as nat,
                        );
                        assert(self.decision_stack@ == t0.drop_last());
                        assert(t0.last() == d);
                    }
                },
                _ => {
                    proof {
                        assert(false);
                    }
                },
            }
        }
    }

    /// The literals of the clause to learn: the negations of the blamed
    /// literals, in no particular order. `codes` lists the blamed literals,
    /// the implication point among them.
    fn learned_literals(&self, codes: &Vec<usize>) -> (r: Vec<Literal>)
        ensures
            r@.len() == codes@.len(),
            forall|j: int| 0 <= j < r@.len() ==> #[trigger] r@[j] == lit_of_code(codes@[j]).negated(),
    {
        let mut clause_lits: Vec<Literal> = Vec::new();
        let mut j: usize = 0;
        while j < codes.len()
            invariant
                j <= codes@.len(),
                clause_lits@.len() == j,
                forall|k: int|
                    0 <= k < j ==> #[trigger] clause_lits@[k] == lit_of_code(codes@[k]).negated(),
            decreases codes@.len() - j,
        {
            clause_lits.push(literal_from_code(codes[j]).invert());
            j = j + 1;
        }
        clause_lits
    }
}

/// The assignment that is left of `a` when everything above level `bt` is
/// undone.
pub open spec fn backtracked(a: AssigModel, bt: nat) -> AssigModel {
    Seq::new(
        a.len(),
        |v: int|
            if a[v] is Some && a[v]->Some_0.level <= bt {
                a[v]
            } else {
                None
            },
    )
}

/// Recording the asserting literal of a clause just learned leaves the
/// watch invariant intact except at the watches on its negation.
pub proof fn lemma_learned_pending(
    c: Seq<Clause>,
    cl: Clause,
    a: AssigModel,
    unit: Literal,
    info: AssigInfo,
    k: nat,
)
    requires
        watch_inv(c, a, k),
        levels_below(a, k),
        lit_unassigned(unit, a),
        info.litsign == unit.sign,
        cl.watch2() == unit,
        lit_falsified(cl.watch1(), a),
        lit_level(cl.watch1(), a) == info.level,
    ensures
        watch_inv_pending(c.push(cl), a.update(unit.var as int, Some(info)), unit.negated()),
{
    let b = a.update(unit.var as int, Some(info));
    let c2 = c.push(cl);
    assert forall|i: int| 0 <= i < c2.len() implies watch_pair_pending(
        (#[trigger] c2[i]).watch1(),
        c2[i].watch2(),
        b,
        unit.negated(),
    ) && watch_pair_pending(c2[i].watch2(), c2[i].watch1(), b, unit.negated()) by {
        if i < c.len() {
            assert(c2[i] == c[i]);
            assert(clause_watch_ok(c[i], a, k));
            assert(slot_below(a[c[i].watch1().var as int], k) || !lit_falsified(c[i].watch1(), a));
            assert(slot_below(a[c[i].watch2().var as int], k) || !lit_falsified(c[i].watch2(), a));
        } else {
            assert(c2[i] == cl);
        }
    }
}

impl SolverState {
    /// Derives the literals of the clause to learn from the conflicting
    /// clause, undoing the propagations of the level in effect down to the
    /// first unique implication point. Returns the literals and, among
    /// them, the asserting literal: the negation of the implication point.
    fn derive_clause(&mut self, conflict_idx: usize) -> (r: (Vec<Literal>, Literal))
        requires
            old(self).wf(),
            old(self).level >= 1,
            old(self).violated_at(conflict_idx),
        ensures
            final(self).wf(),
            final(self).same_setup(old(self)),
            final(self).level == old(self).level,
            final(self).clauses == old(self).clauses,
            final(self).watchlist == old(self).watchlist,
            final(self).unit_prop_ds == old(self).unit_prop_ds,
            old(self).settled_below() ==> final(self).settled_below(),
            undone_at(old(self).assig@, final(self).assig@, old(self).level as nat),
            r.0@.len() >= 1,
            lits_in_range(r.0@, final(self).num_variables as nat),
            vars_distinct(r.0@),
            all_falsified(r.0@, final(self).assig@),
            r.0@.contains(r.1),
            lit_level(r.1, final(self).assig@) == final(self).level,
            forall|j: int|
                0 <= j < r.0@.len() && (#[trigger] r.0@[j]) != r.1 ==> lit_level(
                    r.0@[j],
                    final(self).assig@,
                ) < final(self).level,
            clause_entailed(
                final(self).formula@,
                final(self).pure_units@,
                final(self).num_variables as nat,
                r.0@,
            ),
            forall|c: usize| #[trigger]
                old(self).learned_codes(conflict_idx).contains(c) <==> r.0@.contains(
                    lit_of_code(c).negated(),
                ),
    {
        let ghost n = self.num_variables as nat;
        let ghost lv = self.level as nat;
        let ghost learned = self.learned_codes(conflict_idx);
        let (mut curset, mut blamed) = self.partition_conflict(conflict_idx);
        self.resolve_frontier(&mut curset, &mut blamed);
        let ghost a = self.assig@;
        let items = set_items(&curset);
        proof {
            let x = curset@.choose();
            assert(curset@.contains(x));
            assert(items@.contains(x));
        }
        let uip_code = items[0];
        let uip = literal_from_code(uip_code);
        proof {
            assert(items@.contains(items@[0]));
            assert(curset@.contains(uip_code));
            assert(true_at(uip_code, a, n, lv));
        }
        let ghost bl0 = blamed@;
        set_insert(&mut blamed, uip_code);
        let codes = set_items(&blamed);
        let clause_lits = self.learned_literals(&codes);
        proof {
            let lits = clause_lits@;
            assert forall|j: int| 0 <= j < codes@.len() implies {
                let l = lit_of_code(#[trigger] codes@[j]);
                &&& 1 <= l.var <= n
                &&& lit_satisfied(l, a)
                &&& (codes@[j] == uip_code ==> lit_level(l, a) == lv)
                &&& (codes@[j] != uip_code ==> lit_level(l, a) < lv)
            } by {
                assert(codes@.contains(codes@[j]));
                assert(blamed@.contains(codes@[j]));
                if codes@[j] != uip_code {
                    assert(bl0.contains(codes@[j]));
                    assert(true_below(codes@[j], a, n, lv));
                }
            }
            assert(codes@.contains(uip_code));
            let u = choose|u: int| 0 <= u < codes@.len() && codes@[u] == uip_code;
            assert(lits[u] == uip.negated());
            assert forall|i: int, j: int| 0 <= i < j < lits.len() implies (#[trigger] lits[i]).var
                != (#[trigger] lits[j]).var by {
                assert(codes@[i] != codes@[j]);
                assert(lit_satisfied(lit_of_code(codes@[i]), a));
                assert(lit_satisfied(lit_of_code(codes@[j]), a));
            }
            assert forall|j: int| 0 <= j < lits.len() implies 1 <= (#[trigger] lits[j]).var
                <= n by {
                assert(lit_satisfied(lit_of_code(codes@[j]), a));
            }
            assert forall|j: int| 0 <= j < lits.len() implies lit_falsified(
                #[trigger] lits[j],
                a,
            ) by {
                assert(lit_satisfied(lit_of_code(codes@[j]), a));
            }
            assert forall|j: int| 0 <= j < lits.len() && (#[trigger] lits[j])
                != uip.negated() implies lit_level(lits[j], a) < lv by {
                assert(lit_satisfied(lit_of_code(codes@[j]), a));
                if codes@[j] == uip_code {
                    assert(lits[j] == uip.negated());
                }
            }
            assert forall|m: Seq<bool>| #[trigger]
                is_model(m, self.formula@, self.pure_units@, n) implies val_clause(m, lits) by {
                assert(refuted(m, curset@, bl0));
                let c = choose|c: usize|
                    (curset@.contains(c) || bl0.contains(c)) && #[trigger] val_true(
                        m,
                        lit_of_code(c).negated(),
                    );
                if curset@.contains(c) {
                    lemma_single_element(curset@, c, uip_code);
                }
                assert(blamed@.contains(c));
                assert(codes@.contains(c));
                let j = choose|j: int| 0 <= j < codes@.len() && codes@[j] == c;
                assert(lits[j] == lit_of_code(c).negated());
                assert(val_true(m, lits[j]));
            }
            assert forall|c: usize| #[trigger] learned.contains(c) <==> lits.contains(
                lit_of_code(c).negated(),
            ) by {
                if learned.contains(c) {
                    if curset@.contains(c) {
                        lemma_single_element(curset@, c, uip_code);
                    }
                    assert(blamed@.contains(c));
                    assert(codes@.contains(c));
                    let j = choose|j: int| 0 <= j < codes@.len() && codes@[j] == c;
                    assert(lits[j] == lit_of_code(c).negated());
                }
                if lits.contains(lit_of_code(c).negated()) {
                    let j = choose|j: int|
                        0 <= j < lits.len() && lits[j] == lit_of_code(c).negated();
                    assert(lit_of_code(codes@[j]) == lit_of_code(c));
                    assert(codes@[j] == c);
                    assert(codes@.contains(codes@[j]));
                    assert(blamed@.contains(c));
                }
            }
        }
        (clause_lits, uip.invert())
    }

    /// What conflict analysis leaves when it answers `Backtrack` with
    /// decision `d`, having started in state `o`.
    ///
    /// The learned clause holds exactly the negations of
    /// `o.learned_codes(idx)`: of the first unique implication point and of
    /// the literals blamed on the way to it. The literal of `d` is the
    /// negation of the implication point, which was true at the level of
    /// the conflict. The search has gone back to the second highest level
    /// of the learned clause; under the assignment that was left there, the
    /// learned clause had all literals falsified but the one of `d`, which
    /// was unassigned and has now been made true. A learned clause of a
    /// single literal is not stored: its literal becomes a fact of level 0,
    /// and the store is reduced. If the watches were settled below the
    /// level of the conflict, the consequences of `d` can be drawn.
    pub open spec fn analysed(&self, o: &SolverState, idx: usize, d: Decision) -> bool {
        &&& self.wf()
        &&& 1 <= d.lit().var <= self.num_variables
        &&& lit_satisfied(d.lit(), self.assig@)
        &&& lit_level(d.lit(), self.assig@) == self.level
        &&& o.settled_below() ==> self.can_propagate(d)
        &&& self.num_variables == o.num_variables
        &&& self.formula@ == o.formula@
        &&& self.pure_units@ == o.pure_units@
        &&& self.root_conflict == o.root_conflict
        &&& self.min_num_conflict_restart == o.min_num_conflict_restart
        &&& self.max_num_conflict_restart == o.max_num_conflict_restart
        &&& self.cur_num_conflict_restart == o.cur_num_conflict_restart
        &&& self.level < o.level
        &&& lit_falsified(d.lit(), o.assig@)
        &&& lit_level(d.lit(), o.assig@) == o.level
        &&& self.assig@ == backtracked(o.assig@, self.level as nat).update(
            d.lit().var as int,
            Some(AssigInfo { litsign: d.lit().sign, level: self.level }),
        )
        &&& match d {
            Decision::UnitProp { lit, unit_prop_idx } => {
                let cl = self.clauses@.last();
                &&& self.clauses@.len() == o.clauses@.len() + 1
                &&& unit_prop_idx == o.clauses@.len()
                &&& forall|i: int| 0 <= i < o.clauses@.len() ==> self.clauses@[i] == o.clauses@[i]
                &&& cl.conflict
                &&& !cl.deleted
                &&& cl.lbd == levels_of(cl.literals@, o.assig@).len()
                &&& cl.watch2() == lit
                &&& first_at_level(
                    cl.literals@,
                    backtracked(o.assig@, self.level as nat),
                    self.level as nat,
                    cl.w1 as int,
                )
                &&& forall|c: usize| #[trigger]
                    o.learned_codes(idx).contains(c) <==> cl.literals@.contains(
                        lit_of_code(c).negated(),
                    )
                &&& all_falsified(cl.literals@, o.assig@)
                &&& asserting(cl.literals@, backtracked(o.assig@, self.level as nat))
                &&& clause_entailed(
                    self.formula@,
                    self.pure_units@,
                    self.num_variables as nat,
                    cl.literals@,
                )
                &&& self.level == backtrack_level_of(cl.literals@, o.assig@)
                &&& self.watchlist.watched_more(&o.watchlist, cl, unit_prop_idx)
                &&& self.decision_heuristic.credited(&o.decision_heuristic, cl.literals@)
                &&& self.clauses_since_deletion == (if o.clauses_since_deletion == usize::MAX {
                    usize::MAX
                } else {
                    (o.clauses_since_deletion + 1) as usize
                })
            },
            Decision::AssertUnit { lit } => {
                &&& self.level == 0
                &&& forall|c: usize| #[trigger]
                    o.learned_codes(idx).contains(c) <==> lit_of_code(c).negated() == lit
                &&& self.follows(lit)
                &&& same_but_marks(self.clauses@, retained(o.clauses@, 5, true))
                &&& forall|i: int|
                    0 <= i < self.clauses@.len() ==> (#[trigger] self.clauses@[i]).deleted
                        == retained(o.clauses@, 5, true)[i].literals@.contains(lit)
                &&& crate::consistency::watched_in_order(
                    self.watchlist,
                    self.clauses@,
                    self.num_variables as nat,
                )
                &&& self.decision_heuristic == o.decision_heuristic
                &&& self.clauses_since_deletion == o.clauses_since_deletion
            },
            Decision::Choice { .. } => false,
        }
    }

    /// Learns from the conflict in clause `conflict_idx` and goes back.
    ///
    /// At level 0 the answer is `UNSAT` and nothing changes. Otherwise the
    /// clause to learn is derived by resolution to the first unique
    /// implication point, the search goes back to the second highest level
    /// of that clause, the clause is stored, and its asserting literal is
    /// recorded as a propagation; the answer carries that decision, whose
    /// consequences are still to be drawn. Above level 0 a literal of the
    /// clause must have been falsified at the level in effect: the
    /// implication point is sought among the literals of that level.
    #[verifier::rlimit(40)]
    pub fn analyze_conflict_backtrack(&mut self, conflict_idx: usize) -> (r: ConflictAnalysisResult)
        requires
            old(self).wf(),
            old(self).violated_at(conflict_idx),
        ensures
            r is UNSAT <==> old(self).level == 0,
            r is UNSAT ==> *final(self) == *old(self) && !satisfiable(
                old(self).formula@,
                old(self).num_variables as nat,
            ),
            r matches ConflictAnalysisResult::Backtrack { decision } ==> final(self).analysed(
                old(self),
                conflict_idx,
                decision,
            ),
    {
        if self.level == 0 {
            proof {
                lemma_levels_below(
                    self.decision_stack@,
                    self.assig@,
                    0,
                    self.num_variables as nat,
                );
                lemma_root_conflict(
                    self.formula@,
                    self.pure_units@,
                    self.num_variables as nat,
                    self.clauses@,
                    self.assig@,
                    conflict_idx as int,
                );
            }
            return ConflictAnalysisResult::UNSAT;
        }
        let ghost n = self.num_variables as nat;
        let ghost a0 = self.assig@;
        let ghost lv = self.level as nat;
        let ghost c0 = self.clauses@;
        let ghost settled = self.settled_below();
        let ghost learned = self.learned_codes(conflict_idx);
        let (clause_lits, unit) = self.derive_clause(conflict_idx);
        let ghost a1 = self.assig@;
        let ghost lits = clause_lits@;
        proof {
            if lits.len() == 1 {
                assert(lits[0] == unit);
                assert forall|c: usize| #[trigger] learned.contains(c) <==> lit_of_code(c).negated()
                    == unit by {
                    if lit_of_code(c).negated() == unit {
                        assert(lits.contains(lit_of_code(c).negated()));
                    }
                }
            }
            assert forall|j: int| 0 <= j < lits.len() implies (#[trigger] lits[j]).var < a1.len()
                && a1[lits[j].var as int] is Some && lit_level(lits[j], a1) == lit_level(
                lits[j],
                a0,
            ) && lit_falsified(lits[j], a0) by {
                assert(lit_falsified(lits[j], a1));
                assert(a1[lits[j].var as int] == a0[lits[j].var as int]);
            }
        }
        let lbd = self.count_levels(clause_lits.as_slice());
        let backtrack_level = self.get_backtrack_level(clause_lits.as_slice());
        let ghost u = choose|u: int| 0 <= u < lits.len() && lits[u] == unit;
        proof {
            lemma_top_level(lits, a1);
            assert(lit_level(lits[u], a1) == lv);
            let w = choose|w: int|
                0 <= w < lits.len() && lit_level(#[trigger] lits[w], a1) == top_level(lits, a1);
            assert(top_level(lits, a1) == lv);
            lemma_below_level(lits, a1, lv);
            if settled {
                lemma_watch_inv_weaken(self.clauses@, a1, lv, (backtrack_level + 1) as nat);
            }
            crate::levels::lemma_levels_agree(lits, a1, a0, lv);
            crate::levels::lemma_levels_agree(lits, a1, a0, top_level(lits, a0));
        }
        self.backtrack_to_level(backtrack_level);
        let ghost a2 = self.assig@;
        proof {
            assert(a2 =~= backtracked(a0, backtrack_level as nat)) by {
                assert forall|v: int| 0 <= v < a2.len() implies a2[v] == backtracked(
                    a0,
                    backtrack_level as nat,
                )[v] by {
                    assert(a1[v] == a0[v] || (a1[v] is None && a0[v] is Some && a0[v]->Some_0.level
                        == lv));
                }
            }
            assert forall|j: int| 0 <= j < lits.len() && j != u implies lit_falsified(
                #[trigger] lits[j],
                a2,
            ) by {
                assert(lits[j].var != lits[u].var);
                assert(lits[j] != unit);
                assert(lit_level(lits[j], a1) < lv);
                assert(lit_level(lits[j], a1) <= below_level(lits, a1, lv));
            }
            assert(lit_unassigned(lits[u], a2));
            assert(asserting_at(lits, a2, u));
            assert forall|i: int, j: int| 0 <= i < j < lits.len() implies lits[i] != lits[j] by {
                assert(lits[i].var != lits[j].var);
            }
            assert(asserting(lits, a2));
            lemma_levels_below(self.decision_stack@, a2, backtrack_level as nat, n);
        }
        let single = clause_lits.len() == 1;
        let d = if !single {
            proof {
                let j0 = if u == 0 { 1int } else { 0int };
                assert(lits[j0] != unit);
                assert(lit_level(lits[j0], a1) < lv);
                let w = choose|w: int|
                    0 <= w < lits.len() && lit_level(#[trigger] lits[w], a1) == below_level(
                        lits,
                        a1,
                        lv,
                    );
                assert(w != u);
                assert(lit_falsified(lits[w], a2));
                assert(at_level(lits[w], a2, backtrack_level as nat));
            }
            let new_clause = self.create_conflict_clause(clause_lits, lbd);
            self.add_conflict_clause(new_clause, unit);
            let idx = self.clauses.len() - 1;
            proof {
                let cl = self.clauses@.last();
                assert(cl.literals@ == lits);
                assert(cl.wf(n));
                let level_pos = cl.w1 as int;
                assert(first_at_level(lits, a2, backtrack_level as nat, level_pos));
                assert(level_pos != u);
                assert(lit_falsified(lits[level_pos], a2));
                assert forall|k: int| 0 <= k < lits.len() && (#[trigger] lits[k]).var
                    != unit.var implies lit_falsified(lits[k], a2) by {
                    assert(k != u);
                }
                if settled {
                    lemma_learned_pending(
                        c0,
                        cl,
                        a2,
                        unit,
                        AssigInfo { litsign: unit.sign, level: backtrack_level },
                        (backtrack_level + 1) as nat,
                    );
                }
                assert(self.clauses@ =~= c0.push(cl));
            }
            Decision::make_unitprop(unit, idx)
        } else {
            proof {
                assert(u == 0);
                if below_level(lits, a1, lv) > 0 {
                    lemma_below_positive(lits, a1, lv);
                }
                assert(backtrack_level == 0);
                if self.decision_stack@.len() > 0 {
                    assert(entry_ok(
                        self.decision_stack@,
                        a2,
                        n,
                        self.decision_stack@.len() - 1,
                    ));
                }
            }
            self.reduce_clauses(5, true);
            self.reset_watch_keepcurrentwatch();
            proof {
                crate::learn::lemma_retained(c0, 5, true);
                assert forall|i: int| 0 <= i < self.clauses@.len() implies !(
                #[trigger] self.clauses@[i]).deleted by {
                    assert(crate::learn::keeps(retained(c0, 5, true)[i], 5, true));
                }
                assert forall|m: Seq<bool>| #[trigger]
                    is_model(m, self.formula@, self.pure_units@, n) implies val_true(m, unit) by {
                    assert(val_clause(m, lits));
                    let k = choose|k: int| 0 <= k < lits.len() && val_true(m, #[trigger] lits[k]);
                    assert(k == 0);
                }
                assert(self.follows(unit));
            }
            Decision::make_assertunit(unit)
        };
        let ghost c_recorded = self.clauses@;
        self.add_decision(&d);
        proof {
            if single {
                assert forall|l: Literal|
                    l.var <= n implies #[trigger] self.watchlist.list(l) == crate::consistency::watchers(
                    self.clauses@,
                    self.clauses@.len() as int,
                    l,
                ) by {
                    crate::consistency::lemma_watchers_same_marks(
                        c_recorded,
                        self.clauses@,
                        c_recorded.len() as int,
                        l,
                    );
                }
            }
        }
        ConflictAnalysisResult::Backtrack { decision: d }
    }
}

} // verus!

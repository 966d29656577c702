//! Variable selection: per-polarity activity scores with periodic decay, a
//! cached selection order, and a saved phase per variable.

use vstd::prelude::*;
use rustc_hash::FxHashMap;
use crate::assig::{Assig, AssigModel};
use crate::clause::{lits_in_range, Clause};
use crate::fx::{map_get, map_insert};
use crate::literal::{Literal, LiteralSize};
use crate::ranking::{sort_descending, sorted_descending};

verus! {

/// The two activity scores of a variable, one per polarity.
#[derive(PartialEq, Eq, Clone, Copy, Debug, PartialOrd, Ord)]
pub struct Phase {
    pub true_score: usize,
    pub false_score: usize,
}

/// `a + b`, held at the largest value when the sum does not fit.
pub open spec fn saturating_sum(a: usize, b: usize) -> usize {
    if a + b > usize::MAX {
        usize::MAX
    } else {
        (a + b) as usize
    }
}

impl Phase {
    /// The scores after the occurrence of `lit` has been credited with `bump`.
    pub open spec fn bumped(self, lit: Literal, bump: usize) -> Phase {
        if lit.sign {
            Phase { true_score: saturating_sum(self.true_score, bump), ..self }
        } else {
            Phase { false_score: saturating_sum(self.false_score, bump), ..self }
        }
    }

    /// Both scores halved, rounding down.
    pub open spec fn halved(self) -> Phase {
        Phase { true_score: self.true_score / 2, false_score: self.false_score / 2 }
    }

    /// Adds `bump` to the score of the polarity of `lit`; the score stays at
    /// the largest value once it is reached.
    pub fn bump(&mut self, lit: &Literal, bump: usize)
        ensures
            *final(self) == old(self).bumped(*lit, bump),
    {
        if lit.is_negative() {
            self.false_score = self.false_score.saturating_add(bump);
        } else {
            self.true_score = self.true_score.saturating_add(bump);
        }
    }

    /// Takes one off both scores.
    pub fn decrement(&mut self)
        requires
            old(self).true_score >= 1,
            old(self).false_score >= 1,
        ensures
            final(self).true_score == old(self).true_score - 1,
            final(self).false_score == old(self).false_score - 1,
    {
        self.true_score = self.true_score - 1;
        self.false_score = self.false_score - 1;
    }
}

impl Default for Phase {
    fn default() -> (r: Phase)
        ensures
            r == (Phase { true_score: 0, false_score: 0 }),
    {
        Phase { true_score: 0, false_score: 0 }
    }
}

/// An entry of the selection order: a variable, the scores it had when the
/// order was last computed, and the polarity it was last given, if any.
#[derive(PartialEq, Eq, Clone, Copy, Debug)]
pub struct ScoreVar {
    pub phase: Phase,
    pub var: LiteralSize,
    pub stored_phase: Option<bool>,
}

impl ScoreVar {
    /// The literal to branch on for this entry: the saved polarity if there
    /// is one, otherwise positive exactly when the positive score is larger.
    pub open spec fn chosen(self) -> Literal {
        Literal {
            var: self.var,
            sign: match self.stored_phase {
                Some(b) => b,
                None => self.phase.true_score > self.phase.false_score,
            },
        }
    }
}

/// The literal to branch on for `var`; its polarity is saved in the entry.
pub fn literal_from_score_var(var: &mut ScoreVar) -> (r: Literal)
    ensures
        r == old(var).chosen(),
        *final(var) == (ScoreVar { stored_phase: Some(r.sign), ..*old(var) }),
{
    match var.stored_phase {
        Some(b) => Literal { var: var.var, sign: b },
        None => {
            let sign = var.phase.true_score > var.phase.false_score;
            var.stored_phase = Some(sign);
            Literal { var: var.var, sign }
        },
    }
}

/// Some entry of `order` is for variable `v`.
pub open spec fn order_has(order: Seq<ScoreVar>, v: int) -> bool {
    exists|i: int| 0 <= i < order.len() && (#[trigger] order[i]).var == v
}

/// Entry `i` is the first of `order` whose variable is unassigned in `a`.
pub open spec fn first_unassigned(order: Seq<ScoreVar>, a: AssigModel, i: int) -> bool {
    &&& 0 <= i < order.len()
    &&& order[i].var < a.len()
    &&& a[order[i].var as int] is None
    &&& forall|j: int| 0 <= j < i ==> a[(#[trigger] order[j]).var as int] is Some
}

/// The scores after each literal of `lits` has been credited with `bump`,
/// from the first literal to the last.
pub open spec fn bumped_scores(scores: Map<usize, Phase>, lits: Seq<Literal>, bump: usize) -> Map<
    usize,
    Phase,
>
    decreases lits.len(),
{
    if lits.len() == 0 {
        scores
    } else {
        let before = bumped_scores(scores, lits.drop_last(), bump);
        let l = lits.last();
        before.insert(l.var, before[l.var].bumped(l, bump))
    }
}

/// Every score halved.
pub open spec fn halved_scores(scores: Map<usize, Phase>) -> Map<usize, Phase> {
    Map::new(|v: usize| scores.contains_key(v), |v: usize| scores[v].halved())
}

/// The entries of `order`, each carrying the scores that `scores` now holds
/// for its variable.
pub open spec fn refreshed(order: Seq<ScoreVar>, scores: Map<usize, Phase>) -> Seq<ScoreVar> {
    Seq::new(order.len(), |i: int| ScoreVar { phase: scores[order[i].var], ..order[i] })
}

/// Activity scores and the selection order derived from them.
#[derive(PartialEq, Debug)]
pub struct VSIDS {
    /// The current scores, by variable.
    pub variable_scores: FxHashMap<LiteralSize, Phase>,
    /// The cached selection order.
    pub var_order: Vec<ScoreVar>,
    /// Clauses counted since the last decay.
    pub nclause_counter: usize,
    /// Number of clause additions between two decays.
    pub decay_rate: usize,
    /// What one occurrence adds to a score.
    pub add_bump: usize,
}

impl VSIDS {
    /// The variables `1..=n` are exactly the ones with scores, each of them
    /// has an entry in the selection order, and the order names no others.
    pub open spec fn wf(&self, n: nat) -> bool {
        &&& self.var_order@.len() == n
        &&& forall|v: usize| self.variable_scores@.contains_key(v) <==> 1 <= v <= n
        &&& forall|i: int|
            0 <= i < self.var_order@.len() ==> 1 <= (#[trigger] self.var_order@[i]).var <= n
        &&& forall|v: int| 1 <= v <= n ==> order_has(self.var_order@, v)
        &&& self.nclause_counter < self.decay_rate
    }

    /// `self` is what `o` becomes when a clause with the literals `lits` is
    /// counted: every `decay_rate`-th clause halves all scores and
    /// recomputes the selection order; then each literal is credited.
    pub open spec fn credited(&self, o: &VSIDS, lits: Seq<Literal>) -> bool {
        &&& self.decay_rate == o.decay_rate
        &&& self.add_bump == o.add_bump
        &&& o.nclause_counter + 1 == o.decay_rate ==> {
            &&& self.nclause_counter == 0
            &&& self.variable_scores@ == bumped_scores(
                halved_scores(o.variable_scores@),
                lits,
                o.add_bump,
            )
            &&& self.var_order@.to_multiset() == refreshed(
                o.var_order@,
                halved_scores(o.variable_scores@),
            ).to_multiset()
            &&& sorted_descending(self.var_order@)
        }
        &&& o.nclause_counter + 1 != o.decay_rate ==> {
            &&& self.nclause_counter == o.nclause_counter + 1
            &&& self.variable_scores@ == bumped_scores(o.variable_scores@, lits, o.add_bump)
            &&& self.var_order@ == o.var_order@
        }
    }

    /// `self` is `o` with its selection order recomputed: the entries carry
    /// the current scores and stand with the highest rank first.
    pub open spec fn resorted(&self, o: &VSIDS) -> bool {
        &&& self.variable_scores@ == o.variable_scores@
        &&& self.nclause_counter == o.nclause_counter
        &&& self.decay_rate == o.decay_rate
        &&& self.add_bump == o.add_bump
        &&& self.var_order@.to_multiset() == refreshed(
            o.var_order@,
            o.variable_scores@,
        ).to_multiset()
        &&& sorted_descending(self.var_order@)
    }

    /// `hs` holds the states of the heuristic as the clauses of `c` are
    /// counted in turn.
    pub open spec fn counted_through(hs: Seq<VSIDS>, c: Seq<Clause>) -> bool {
        &&& hs.len() == c.len() + 1
        &&& forall|i: int|
            0 <= i < c.len() ==> (#[trigger] hs[i + 1]).credited(&hs[i], c[i].literals@)
    }

    /// Copies the current scores into the selection order and sorts it, the
    /// highest scores first.
    pub fn sort_var_order(&mut self)
        requires
            forall|i: int|
                0 <= i < old(self).var_order@.len() ==> old(self).variable_scores@.contains_key(
                    (#[trigger] old(self).var_order@[i]).var,
                ),
        ensures
            final(self).variable_scores@ == old(self).variable_scores@,
            final(self).nclause_counter == old(self).nclause_counter,
            final(self).decay_rate == old(self).decay_rate,
            final(self).add_bump == old(self).add_bump,
            final(self).var_order@.to_multiset() == refreshed(
                old(self).var_order@,
                old(self).variable_scores@,
            ).to_multiset(),
            sorted_descending(final(self).var_order@),
            final(self).resorted(old(self)),
            old(self).wf(old(self).var_order@.len()) ==> final(self).wf(old(self).var_order@.len()),
    {
        let ghost start = self.var_order@;
        let mut i: usize = 0;
        while i < self.var_order.len()
            invariant
                i <= self.var_order@.len(),
                self.var_order@.len() == start.len(),
                self.variable_scores == old(self).variable_scores,
                self.nclause_counter == old(self).nclause_counter,
                self.decay_rate == old(self).decay_rate,
                self.add_bump == old(self).add_bump,
                forall|k: int|
                    0 <= k < start.len() ==> self.variable_scores@.contains_key(
                        (#[trigger] start[k]).var,
                    ),
                forall|k: int|
                    0 <= k < i ==> self.var_order@[k] == (ScoreVar {
                        phase: self.variable_scores@[start[k].var],
                        ..start[k]
                    }),
                forall|k: int| i <= k < start.len() ==> self.var_order@[k] == start[k],
            decreases self.var_order@.len() - i,
        {
            let v = self.var_order[i].var;
            let act_phase = map_get(&self.variable_scores, v);
            match act_phase {
                Some(p) => {
                    self.var_order[i].phase = p;
                },
                None => {},
            }
            i = i + 1;
        }
        assert(self.var_order@ =~= refreshed(start, self.variable_scores@));
        let ghost mid = self.var_order@;
        sort_descending(&mut self.var_order);
        proof {
            let n = start.len();
            if old(self).wf(n) {
                lemma_same_entries(mid, self.var_order@);
                mid.to_multiset_ensures();
                self.var_order@.to_multiset_ensures();
                assert forall|w: int| 1 <= w <= n implies order_has(self.var_order@, w) by {
                    assert(order_has(start, w));
                    let k = choose|k: int| 0 <= k < start.len() && (#[trigger] start[k]).var == w;
                    assert(mid[k].var == w);
                    assert(mid.contains(mid[k]));
                    let e = mid[k];
                    let j = choose|j: int| 0 <= j < self.var_order@.len() && self.var_order@[j] == e;
                    assert(self.var_order@[j].var == w);
                }
                assert forall|i: int| 0 <= i < self.var_order@.len() implies 1 <= (
                #[trigger] self.var_order@[i]).var <= n by {
                    let e = self.var_order@[i];
                    assert(self.var_order@.contains(e));
                    assert(mid.contains(e));
                    let k = choose|k: int| 0 <= k < mid.len() && mid[k] == e;
                    assert(start[k].var == e.var);
                }
            }
        }
    }

    /// Halves every score.
    fn decay(&mut self)
        requires
            old(self).wf(old(self).var_order@.len()),
            old(self).var_order@.len() < usize::MAX,
        ensures
            final(self).variable_scores@ == halved_scores(old(self).variable_scores@),
            final(self).var_order@ == old(self).var_order@,
            final(self).nclause_counter == old(self).nclause_counter,
            final(self).decay_rate == old(self).decay_rate,
            final(self).add_bump == old(self).add_bump,
    {
        let ghost start = self.variable_scores@;
        let n = self.var_order.len();
        let mut v: usize = 1;
        while v <= n
            invariant
                1 <= v <= n + 1,
                n < usize::MAX,
                self.var_order == old(self).var_order,
                self.nclause_counter == old(self).nclause_counter,
                self.decay_rate == old(self).decay_rate,
                self.add_bump == old(self).add_bump,
                forall|w: usize| start.contains_key(w) <==> 1 <= w <= n,
                forall|w: usize| self.variable_scores@.contains_key(w) <==> 1 <= w <= n,
                forall|w: usize| 1 <= w < v ==> self.variable_scores@[w] == start[w].halved(),
                forall|w: usize| v <= w <= n ==> self.variable_scores@[w] == start[w],
            decreases n + 1 - v,
        {
            match map_get(&self.variable_scores, v) {
                Some(p) => {
                    let q = Phase { true_score: p.true_score / 2, false_score: p.false_score / 2 };
                    map_insert(&mut self.variable_scores, v, q);
                },
                None => {},
            }
            v = v + 1;
        }
        assert(self.variable_scores@ =~= halved_scores(start));
    }

    /// Scores of zero for the variables `1..=num_vars`, and a selection
    /// order that lists each of them once.
    pub fn new(num_vars: usize) -> (r: VSIDS)
        ensures
            r.wf(num_vars as nat),
            r.nclause_counter == 0,
            r.decay_rate == 256,
            r.add_bump == 1,
            forall|v: usize|
                1 <= v <= num_vars ==> r.variable_scores@[v] == (Phase { true_score: 0, false_score: 0 }),
            r.var_order@.len() == num_vars,
            forall|i: int|
                0 <= i < r.var_order@.len() ==> (#[trigger] r.var_order@[i]).stored_phase is None
                    && r.var_order@[i].phase == (Phase { true_score: 0, false_score: 0 }),
            sorted_descending(r.var_order@),
    {
        let mut var_ord: Vec<ScoreVar> = Vec::new();
        let mut var_scores: FxHashMap<LiteralSize, Phase> = FxHashMap::default();
        let zero = Phase { true_score: 0, false_score: 0 };
        let mut v: usize = 0;
        while v < num_vars
            invariant
                v <= num_vars,
                zero == (Phase { true_score: 0, false_score: 0 }),
                forall|w: usize| var_scores@.contains_key(w) <==> 1 <= w <= v,
                forall|w: usize| 1 <= w <= v ==> var_scores@[w] == zero,
                var_ord@.len() == v,
                forall|i: int|
                    0 <= i < v ==> var_ord@[i] == (ScoreVar {
                        phase: zero,
                        var: (i + 1) as usize,
                        stored_phase: None,
                    }),
            decreases num_vars - v,
        {
            v = v + 1;
            map_insert(&mut var_scores, v, zero);
            var_ord.push(ScoreVar { phase: zero, var: v, stored_phase: None });
        }
        let mut n = VSIDS {
            variable_scores: var_scores,
            var_order: var_ord,
            nclause_counter: 0,
            decay_rate: 256,
            add_bump: 1,
        };
        let ghost before = n.var_order@;
        assert(refreshed(before, n.variable_scores@) =~= before);
        n.sort_var_order();
        proof {
            lemma_same_entries(before, n.var_order@);
            assert forall|w: int| 1 <= w <= num_vars implies order_has(n.var_order@, w) by {
                assert(before[w - 1].var == w);
                assert(before.contains(before[w - 1]));
                let e = before[w - 1];
                assert(n.var_order@.contains(e));
                let j = choose|j: int| 0 <= j < n.var_order@.len() && n.var_order@[j] == e;
                assert(n.var_order@[j].var == w);
            }
            assert forall|i: int| 0 <= i < n.var_order@.len() implies 1 <= (
            #[trigger] n.var_order@[i]).var <= num_vars && n.var_order@[i].stored_phase is None
                && n.var_order@[i].phase == zero by {
                let e = n.var_order@[i];
                assert(n.var_order@.contains(e));
                assert(before.contains(e));
            }
            before.to_multiset_ensures();
            n.var_order@.to_multiset_ensures();
        }
        n
    }

    /// The literal to branch on next: the first variable of the selection
    /// order that is unassigned, with its saved polarity if it has one and
    /// the polarity of its higher cached score otherwise. The polarity is
    /// saved for that variable.
    pub fn pick_var(&mut self, assig: &Assig) -> (r: Literal)
        requires
            old(self).wf((assig@.len() - 1) as nat),
            exists|v: int| 1 <= v < assig@.len() && assig@[v] is None,
        ensures
            final(self).wf((assig@.len() - 1) as nat),
            final(self).variable_scores@ == old(self).variable_scores@,
            final(self).nclause_counter == old(self).nclause_counter,
            final(self).decay_rate == old(self).decay_rate,
            final(self).add_bump == old(self).add_bump,
            1 <= r.var < assig@.len(),
            assig@[r.var as int] is None,
            exists|i: int|
                {
                    &&& first_unassigned(old(self).var_order@, assig@, i)
                    &&& r == (#[trigger] old(self).var_order@[i]).chosen()
                    &&& final(self).var_order@ == old(self).var_order@.update(
                        i,
                        ScoreVar { stored_phase: Some(r.sign), ..old(self).var_order@[i] },
                    )
                },
    {
        let ghost n = (assig@.len() - 1) as nat;
        let ghost start = self.var_order@;
        let mut i: usize = 0;
        while i < self.var_order.len()
            invariant
                i <= self.var_order@.len(),
                *self == *old(self),
                start == self.var_order@,
                self.wf(n),
                n == assig@.len() - 1,
                forall|j: int| 0 <= j < i ==> assig@[(#[trigger] self.var_order@[j]).var as int] is Some,
            decreases self.var_order@.len() - i,
        {
            let v = self.var_order[i].var;
            if assig.get(&v).is_none() {
                let r = literal_from_score_var(&mut self.var_order[i]);
                proof {
                    assert(first_unassigned(start, assig@, i as int));
                    let fin = self.var_order@;
                    assert forall|w: int| 1 <= w <= n implies order_has(fin, w) by {
                        assert(order_has(start, w));
                        let k = choose|k: int| 0 <= k < start.len() && (#[trigger] start[k]).var == w;
                        assert(fin[k].var == w);
                    }
                }
                return r;
            }
            i = i + 1;
        }
        proof {
            let v = choose|v: int| 1 <= v < assig@.len() && assig@[v] is None;
            assert(order_has(self.var_order@, v));
            let k = choose|k: int| 0 <= k < self.var_order@.len() && (#[trigger] self.var_order@[k]).var == v;
            assert(assig@[self.var_order@[k].var as int] is Some);
        }
        vstd::pervasive::unreached()
    }

    /// Counts one more clause and credits each of its literals. Every
    /// `decay_rate`-th clause first halves all scores and recomputes the
    /// selection order.
    pub fn add_clause(&mut self, clause: &Clause)
        requires
            old(self).wf(old(self).var_order@.len()),
            old(self).var_order@.len() < usize::MAX,
            lits_in_range(clause.literals@, old(self).var_order@.len()),
        ensures
            final(self).wf(old(self).var_order@.len()),
            final(self).credited(old(self), clause.literals@),
    {
        let ghost n = self.var_order@.len();
        self.nclause_counter = self.nclause_counter + 1;
        if self.nclause_counter == self.decay_rate {
            self.nclause_counter = 0;
            let ghost order0 = self.var_order@;
            self.decay();
            self.sort_var_order();
            proof {
                let mid = refreshed(order0, self.variable_scores@);
                lemma_same_entries(mid, self.var_order@);
                mid.to_multiset_ensures();
                self.var_order@.to_multiset_ensures();
                assert forall|w: int| 1 <= w <= n implies order_has(self.var_order@, w) by {
                    assert(order_has(order0, w));
                    let k = choose|k: int| 0 <= k < order0.len() && (#[trigger] order0[k]).var == w;
                    assert(mid[k].var == w);
                    assert(mid.contains(mid[k]));
                    let e = mid[k];
                    let j = choose|j: int| 0 <= j < self.var_order@.len() && self.var_order@[j] == e;
                    assert(self.var_order@[j].var == w);
                }
                assert forall|i: int| 0 <= i < self.var_order@.len() implies 1 <= (
                #[trigger] self.var_order@[i]).var <= n by {
                    let e = self.var_order@[i];
                    assert(self.var_order@.contains(e));
                    assert(mid.contains(e));
                    let k = choose|k: int| 0 <= k < mid.len() && mid[k] == e;
                    assert(order0[k].var == e.var);
                }
            }
        }
        let ghost base = self.variable_scores@;
        let ghost order_mid = self.var_order@;
        let mut i: usize = 0;
        while i < clause.literals.len()
            invariant
                i <= clause.literals@.len(),
                lits_in_range(clause.literals@, n),
                forall|v: usize| base.contains_key(v) <==> 1 <= v <= n,
                forall|v: usize| self.variable_scores@.contains_key(v) <==> 1 <= v <= n,
                self.variable_scores@ == bumped_scores(
                    base,
                    clause.literals@.take(i as int),
                    self.add_bump,
                ),
                self.wf(n),
                self.nclause_counter == (if old(self).nclause_counter + 1 == old(self).decay_rate {
                    0
                } else {
                    old(self).nclause_counter + 1
                }),
                self.decay_rate == old(self).decay_rate,
                self.add_bump == old(self).add_bump,
                self.var_order@ == order_mid,
            decreases clause.literals@.len() - i,
        {
            let lit = clause.literals[i];
            match map_get(&self.variable_scores, lit.var) {
                Some(p) => {
                    let mut q = p;
                    q.bump(&lit, self.add_bump);
                    map_insert(&mut self.variable_scores, lit.var, q);
                },
                None => {},
            }
            proof {
                let t0 = clause.literals@.take(i as int);
                let t1 = clause.literals@.take(i + 1);
                assert(t1.drop_last() =~= t0);
                assert(t1.last() == lit);
            }
            i = i + 1;
        }
        assert(clause.literals@.take(clause.literals@.len() as int) =~= clause.literals@);
    }

    /// Takes one off both scores of every variable of the clause.
    pub fn delete_clause(&mut self, clause: &Clause)
        requires
            old(self).wf(old(self).var_order@.len()),
            lits_in_range(clause.literals@, old(self).var_order@.len()),
            crate::clause::vars_distinct(clause.literals@),
            forall|i: int|
                0 <= i < clause.literals@.len() ==> old(self).variable_scores@[(
                #[trigger] clause.literals@[i]).var].true_score >= 1 && old(self).variable_scores@[
                    clause.literals@[i].var
                ].false_score >= 1,
        ensures
            final(self).wf(old(self).var_order@.len()),
            final(self).var_order@ == old(self).var_order@,
            final(self).nclause_counter == old(self).nclause_counter,
            final(self).decay_rate == old(self).decay_rate,
            final(self).add_bump == old(self).add_bump,
            forall|v: usize|
                1 <= v <= old(self).var_order@.len() ==> #[trigger] final(self).variable_scores@[v]
                    == (if exists|i: int|
                    0 <= i < clause.literals@.len() && (#[trigger] clause.literals@[i]).var == v {
                    Phase {
                        true_score: (old(self).variable_scores@[v].true_score - 1) as usize,
                        false_score: (old(self).variable_scores@[v].false_score - 1) as usize,
                    }
                } else {
                    old(self).variable_scores@[v]
                }),
    {
        let ghost start = self.variable_scores@;
        let ghost n = self.var_order@.len();
        let mut i: usize = 0;
        while i < clause.literals.len()
            invariant
                i <= clause.literals@.len(),
                lits_in_range(clause.literals@, n),
                crate::clause::vars_distinct(clause.literals@),
                self.var_order == old(self).var_order,
                self.nclause_counter == old(self).nclause_counter,
                self.decay_rate == old(self).decay_rate,
                self.add_bump == old(self).add_bump,
                start == old(self).variable_scores@,
                forall|v: usize| start.contains_key(v) <==> 1 <= v <= n,
                forall|v: usize| self.variable_scores@.contains_key(v) <==> 1 <= v <= n,
                forall|k: int|
                    0 <= k < clause.literals@.len() ==> start[(
                    #[trigger] clause.literals@[k]).var].true_score >= 1 && start[
                        clause.literals@[k].var
                    ].false_score >= 1,
                forall|v: usize|
                    1 <= v <= n ==> #[trigger] self.variable_scores@[v] == (if exists|k: int|
                        0 <= k < i && (#[trigger] clause.literals@[k]).var == v {
                        Phase {
                            true_score: (start[v].true_score - 1) as usize,
                            false_score: (start[v].false_score - 1) as usize,
                        }
                    } else {
                        start[v]
                    }),
            decreases clause.literals@.len() - i,
        {
            let lit = clause.literals[i];
            match map_get(&self.variable_scores, lit.var) {
                Some(p) => {
                    let mut q = p;
                    assert(!(exists|k: int|
                        0 <= k < i && (#[trigger] clause.literals@[k]).var == lit.var));
                    assert(q == start[lit.var]);
                    q.decrement();
                    map_insert(&mut self.variable_scores, lit.var, q);
                },
                None => {},
            }
            assert forall|v: usize| 1 <= v <= n implies #[trigger] self.variable_scores@[v] == (
            if exists|k: int| 0 <= k < i + 1 && (#[trigger] clause.literals@[k]).var == v {
                Phase {
                    true_score: (start[v].true_score - 1) as usize,
                    false_score: (start[v].false_score - 1) as usize,
                }
            } else {
                start[v]
            }) by {
                if v == lit.var {
                    assert(clause.literals@[i as int].var == v);
                } else {
                    if exists|k: int| 0 <= k < i + 1 && (#[trigger] clause.literals@[k]).var == v {
                        let k = choose|k: int|
                            0 <= k < i + 1 && (#[trigger] clause.literals@[k]).var == v;
                        assert(k < i);
                    }
                }
            }
            i = i + 1;
        }
    }
}

/// Sequences with the same entries, counted with multiplicity, contain the
/// same values.
pub proof fn lemma_same_entries(a: Seq<ScoreVar>, b: Seq<ScoreVar>)
    requires
        a.to_multiset() == b.to_multiset(),
    ensures
        forall|e: ScoreVar| a.contains(e) <==> b.contains(e),
{
    a.to_multiset_ensures();
    b.to_multiset_ensures();
    assert forall|e: ScoreVar| a.contains(e) <==> b.contains(e) by {
        assert(a.contains(e) <==> a.to_multiset().count(e) > 0);
        assert(b.contains(e) <==> b.to_multiset().count(e) > 0);
    }
}

} // verus!

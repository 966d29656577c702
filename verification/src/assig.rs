//! The current partial assignment: a dense table indexed by variable id.

use vstd::prelude::*;
use crate::literal::{Literal, LiteralSize};

verus! {

/// What is recorded for an assigned variable: its polarity and the decision
/// level at which it was assigned.
#[derive(Debug, Clone, Copy, PartialEq, Eq, Structural, Hash)]
pub struct AssigInfo {
    pub litsign: bool,
    pub level: usize,
}

impl AssigInfo {
    pub fn new(litsign: bool, level: usize) -> (r: AssigInfo)
        ensures
            r.litsign == litsign,
            r.level == level,
    {
        AssigInfo { litsign, level }
    }
}

/// The mathematical model of an assignment: slot `v` holds what is recorded
/// for variable `v`, or `None` while `v` is unassigned.
pub type AssigModel = Seq<Option<AssigInfo>>;

/// Number of assigned slots of `a`.
pub open spec fn count_assigned(a: AssigModel) -> nat
    decreases a.len(),
{
    if a.len() == 0 {
        0
    } else {
        count_assigned(a.drop_last()) + (if a.last() is Some { 1nat } else { 0nat })
    }
}

/// The literal is assigned, with the opposite polarity.
pub open spec fn lit_falsified(lit: Literal, a: AssigModel) -> bool {
    &&& lit.var < a.len()
    &&& a[lit.var as int] matches Some(b) && b.litsign != lit.sign
}

/// The literal is assigned, with its own polarity.
pub open spec fn lit_satisfied(lit: Literal, a: AssigModel) -> bool {
    &&& lit.var < a.len()
    &&& a[lit.var as int] matches Some(b) && b.litsign == lit.sign
}

/// The literal's variable has a slot and is not assigned.
pub open spec fn lit_unassigned(lit: Literal, a: AssigModel) -> bool {
    &&& lit.var < a.len()
    &&& a[lit.var as int] is None
}

/// The decision level recorded for the literal's variable (0 when unassigned).
pub open spec fn lit_level(lit: Literal, a: AssigModel) -> nat {
    if lit.var < a.len() && a[lit.var as int] is Some {
        a[lit.var as int]->Some_0.level as nat
    } else {
        0
    }
}

pub proof fn lemma_count_assigned_bound(a: AssigModel)
    ensures
        count_assigned(a) <= a.len(),
    decreases a.len(),
{
    if a.len() > 0 {
        lemma_count_assigned_bound(a.drop_last());
    }
}

/// Changing one slot changes the count by the difference that slot makes.
pub proof fn lemma_count_assigned_update(a: AssigModel, i: int, v: Option<AssigInfo>)
    requires
        0 <= i < a.len(),
    ensures
        count_assigned(a.update(i, v)) + (if a[i] is Some { 1nat } else { 0nat })
            == count_assigned(a) + (if v is Some { 1nat } else { 0nat }),
    decreases a.len(),
{
    let b = a.update(i, v);
    if i == a.len() - 1 {
        assert(b.drop_last() =~= a.drop_last());
    } else {
        assert(b.drop_last() =~= a.drop_last().update(i, v));
        lemma_count_assigned_update(a.drop_last(), i, v);
    }
}

/// A table without assigned slots counts zero.
pub proof fn lemma_count_assigned_none(a: AssigModel)
    requires
        forall|i: int| 0 <= i < a.len() ==> a[i] is None,
    ensures
        count_assigned(a) == 0,
    decreases a.len(),
{
    if a.len() > 0 {
        lemma_count_assigned_none(a.drop_last());
    }
}

/// If slot 0 is empty and as many slots are assigned as there are slots
/// after it, every slot after it is assigned.
pub proof fn lemma_count_assigned_full(a: AssigModel)
    requires
        a.len() >= 1,
        a[0] is None,
        count_assigned(a) >= a.len() - 1,
    ensures
        forall|i: int| 1 <= i < a.len() ==> a[i] is Some,
    decreases a.len(),
{
    if a.len() > 1 {
        let b = a.drop_last();
        assert(b[0] == a[0]);
        lemma_count_assigned_upper(b);
        lemma_count_assigned_full(b);
        assert forall|i: int| 1 <= i < a.len() implies a[i] is Some by {
            if i < b.len() {
                assert(b[i] == a[i]);
            }
        }
    }
}

/// With slot 0 empty and every other slot assigned, `len - 1` slots are
/// assigned.
pub proof fn lemma_count_assigned_all(a: AssigModel)
    requires
        a.len() >= 1,
        a[0] is None,
        forall|i: int| 1 <= i < a.len() ==> a[i] is Some,
    ensures
        count_assigned(a) == a.len() - 1,
    decreases a.len(),
{
    let b = a.drop_last();
    if a.len() > 1 {
        assert(b[0] == a[0]);
        assert forall|i: int| 1 <= i < b.len() implies b[i] is Some by {
            assert(b[i] == a[i]);
        }
        lemma_count_assigned_all(b);
    } else {
        assert(count_assigned(b) == 0);
        assert(a.last() == a[0]);
    }
}

/// With slot 0 empty, at most `len - 1` slots are assigned.
pub proof fn lemma_count_assigned_upper(a: AssigModel)
    requires
        a.len() >= 1,
        a[0] is None,
    ensures
        count_assigned(a) <= a.len() - 1,
    decreases a.len(),
{
    let b = a.drop_last();
    if a.len() > 1 {
        assert(b[0] == a[0]);
        lemma_count_assigned_upper(b);
    } else {
        assert(b.len() == 0);
        assert(count_assigned(b) == 0);
        assert(a.last() == a[0]);
    }
}

/// A partial assignment over the variables `1..=n`, stored as `n + 1` slots.
#[derive(Debug, PartialEq)]
pub struct Assig {
    assn: Vec<Option<AssigInfo>>,
    ln: usize,
}

impl View for Assig {
    type V = AssigModel;

    closed spec fn view(&self) -> AssigModel {
        self.assn@
    }
}

impl Assig {
    /// The cached count agrees with the table.
    pub closed spec fn wf(&self) -> bool {
        self.ln == count_assigned(self.assn@)
    }

    /// An empty assignment with slots for the variables `0..=num_vars`.
    pub fn new(num_vars: usize) -> (r: Assig)
        requires
            num_vars < usize::MAX,
        ensures
            r.wf(),
            r@.len() == num_vars + 1,
            forall|i: int| 0 <= i <= num_vars ==> r@[i] is None,
    {
        let mut assn: Vec<Option<AssigInfo>> = Vec::new();
        let mut i: usize = 0;
        while i <= num_vars
            invariant
                num_vars < usize::MAX,
                i <= num_vars + 1,
                assn@.len() == i,
                forall|j: int| 0 <= j < i ==> assn@[j] is None,
            decreases num_vars + 1 - i,
        {
            assn.push(None);
            i = i + 1;
        }
        proof {
            lemma_count_assigned_none(assn@);
        }
        Assig { assn, ln: 0 }
    }

    /// The number of slots: one more than the largest variable id.
    pub fn slots(&self) -> (r: usize)
        ensures
            r == self@.len(),
    {
        self.assn.len()
    }

    /// What is recorded for `var`, if it is assigned.
    pub fn get(&self, var: &LiteralSize) -> (r: Option<&AssigInfo>)
        requires
            *var < self@.len(),
        ensures
            match r {
                Some(info) => self@[*var as int] == Some(*info),
                None => self@[*var as int] is None,
            },
    {
        self.assn[*var].as_ref()
    }

    /// Records `assig_info` for `var`, replacing what was recorded before.
    pub fn insert(&mut self, var: LiteralSize, assig_info: AssigInfo)
        requires
            old(self).wf(),
            var < old(self)@.len(),
        ensures
            final(self).wf(),
            final(self)@ == old(self)@.update(var as int, Some(assig_info)),
    {
        let slots = self.assn.len();
        proof {
            lemma_count_assigned_update(self.assn@, var as int, Some(assig_info));
            lemma_count_assigned_bound(self.assn@.update(var as int, Some(assig_info)));
            assert(self.assn@.update(var as int, Some(assig_info)).len() == slots);
        }
        if self.assn[var].is_none() {
            self.ln = self.ln + 1;
        }
        self.assn[var] = Some(assig_info);
    }

    /// Makes `var` unassigned.
    pub fn remove(&mut self, var: &LiteralSize)
        requires
            old(self).wf(),
            *var < old(self)@.len(),
        ensures
            final(self).wf(),
            final(self)@ == old(self)@.update(*var as int, None),
    {
        proof {
            lemma_count_assigned_update(self.assn@, *var as int, None);
        }
        if self.assn[*var].is_some() {
            self.ln = self.ln - 1;
        }
        self.assn[*var] = None;
    }

    /// Whether `var` is assigned.
    pub fn contains_key(&self, var: &LiteralSize) -> (r: bool)
        requires
            *var < self@.len(),
        ensures
            r == (self@[*var as int] is Some),
    {
        self.assn[*var].is_some()
    }

    /// The assigned variables, in increasing order.
    pub fn keys(&self) -> (r: Vec<LiteralSize>)
        ensures
            forall|i: int, j: int| 0 <= i < j < r@.len() ==> r@[i] < r@[j],
            forall|v: usize| r@.contains(v) <==> (v < self@.len() && self@[v as int] is Some),
    {
        let mut out: Vec<LiteralSize> = Vec::new();
        let mut v: usize = 0;
        while v < self.assn.len()
            invariant
                v <= self.assn@.len(),
                forall|i: int, j: int| 0 <= i < j < out@.len() ==> out@[i] < out@[j],
                forall|i: int| 0 <= i < out@.len() ==> out@[i] < v,
                forall|w: usize| out@.contains(w) <==> (w < v && self.assn@[w as int] is Some),
            decreases self.assn@.len() - v,
        {
            if self.assn[v].is_some() {
                let ghost prev = out@;
                out.push(v);
                assert forall|w: usize|
                    out@.contains(w) <==> (w < v + 1 && self.assn@[w as int] is Some) by {
                    if out@.contains(w) {
                        let k = choose|k: int| 0 <= k < out@.len() && out@[k] == w;
                        if k < prev.len() {
                            assert(prev[k] == w);
                            assert(prev.contains(w));
                        }
                    }
                    if w < v + 1 && self.assn@[w as int] is Some {
                        if w == v {
                            assert(out@[prev.len() as int] == w);
                        } else {
                            assert(prev.contains(w));
                            let k = choose|k: int| 0 <= k < prev.len() && prev[k] == w;
                            assert(out@[k] == w);
                        }
                    }
                }
            }
            v = v + 1;
        }
        out
    }

    /// How many variables are assigned.
    pub fn len(&self) -> (r: usize)
        requires
            self.wf(),
        ensures
            r == count_assigned(self@),
    {
        self.ln
    }
}

/// Whether `lit` is assigned the opposite polarity.
pub fn literal_falsified(lit: &Literal, assig: &Assig) -> (r: bool)
    requires
        lit.var < assig@.len(),
    ensures
        r == lit_falsified(*lit, assig@),
{
    match assig.assn[lit.var] {
        Some(b) => b.litsign != lit.sign,
        None => false,
    }
}

/// Whether `lit` is assigned its own polarity.
pub fn literal_satisfied(lit: &Literal, assig: &Assig) -> (r: bool)
    requires
        lit.var < assig@.len(),
    ensures
        r == lit_satisfied(*lit, assig@),
{
    match assig.assn[lit.var] {
        Some(b) => b.litsign == lit.sign,
        None => false,
    }
}

/// Whether the variable of `lit` is unassigned.
pub fn literal_unassigned(lit: &Literal, assig: &Assig) -> (r: bool)
    requires
        lit.var < assig@.len(),
    ensures
        r == lit_unassigned(*lit, assig@),
{
    assig.assn[lit.var].is_none()
}

/// Under an assignment that assigns its variable, a literal is satisfied
/// exactly when its negation is falsified, and never both satisfied and
/// falsified.
pub proof fn lemma_negation_disagrees(l: Literal, a: AssigModel)
    requires
        l.var < a.len(),
        a[l.var as int] is Some,
    ensures
        lit_satisfied(l, a) <==> lit_falsified(l.negated(), a),
        lit_falsified(l, a) <==> lit_satisfied(l.negated(), a),
        lit_satisfied(l, a) != lit_satisfied(l.negated(), a),
        lit_falsified(l, a) != lit_satisfied(l, a),
{
}

} // verus!

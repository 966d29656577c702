//! Building a solver state from the clauses of a formula.

use vstd::prelude::*;
use rustc_hash::FxHashSet;
use crate::assig::{lit_falsified, literal_falsified, AssigInfo};
use crate::clause::{lits_in_range, moved_watch, vars_distinct, Clause};
use crate::consistency::same_but_marks;
use crate::decision::ParsedOut;
use crate::fx::{set_contains, set_insert};
use crate::literal::{Literal, MAX_VARIABLE};
use crate::semantics::{
    entails, ext_satisfiable, is_model, lemma_entails_more, lemma_root_false, satisfiable, upholds,
    val_clause, val_formula, val_true,
};
use crate::solver::SolverState;

verus! {

/// The literals of `s` in the order of their first occurrence, each once.
pub open spec fn dedup(s: Seq<Literal>) -> Seq<Literal>
    decreases s.len(),
{
    if s.len() == 0 {
        Seq::empty()
    } else {
        let d = dedup(s.drop_last());
        if s.drop_last().contains(s.last()) {
            d
        } else {
            d.push(s.last())
        }
    }
}

/// A clause as the solver accepts it: not empty, over the variables
/// `1..=n`, and without a literal beside its negation.
pub open spec fn clause_input_ok(raw: Seq<Literal>, n: nat) -> bool {
    &&& raw.len() >= 1
    &&& lits_in_range(raw, n)
    &&& forall|j: int, k: int|
        0 <= j < raw.len() && 0 <= k < raw.len() ==> (#[trigger] raw[j]) != (
        #[trigger] raw[k]).negated()
}

/// `dedup` keeps exactly the literals of its argument, without
/// repetition.
pub proof fn lemma_dedup(s: Seq<Literal>)
    ensures
        dedup(s).no_duplicates(),
        forall|x: Literal| dedup(s).contains(x) <==> s.contains(x),
        s.len() >= 1 ==> dedup(s).len() >= 1,
    decreases s.len(),
{
    if s.len() > 0 {
        let p = s.drop_last();
        lemma_dedup(p);
        let d = dedup(p);
        let r = dedup(s);
        assert forall|x: Literal| r.contains(x) <==> s.contains(x) by {
            if r.contains(x) {
                let i = choose|i: int| 0 <= i < r.len() && r[i] == x;
                if i < d.len() {
                    assert(d[i] == x);
                    assert(d.contains(x));
                    assert(p.contains(x));
                    let j = choose|j: int| 0 <= j < p.len() && p[j] == x;
                    assert(s[j] == x);
                } else {
                    assert(s[s.len() - 1] == x);
                }
            }
            if s.contains(x) {
                let j = choose|j: int| 0 <= j < s.len() && s[j] == x;
                if j < p.len() {
                    assert(p[j] == x);
                    assert(p.contains(x));
                    assert(d.contains(x));
                    let i = choose|i: int| 0 <= i < d.len() && d[i] == x;
                    assert(r[i] == x);
                } else {
                    if p.contains(x) {
                        assert(d.contains(x));
                        let i = choose|i: int| 0 <= i < d.len() && d[i] == x;
                        assert(r[i] == x);
                    } else {
                        assert(r[r.len() - 1] == x);
                    }
                }
            }
        }
        if !p.contains(s.last()) {
            assert forall|i: int, j: int| 0 <= i < j < r.len() implies r[i] != r[j] by {
                if j == d.len() {
                    assert(d.contains(d[i]));
                }
            }
        }
        if p.len() == 0 {
            assert(!p.contains(s.last()));
        }
    }
}

/// The distinct literals of an acceptable clause are over distinct
/// variables.
pub proof fn lemma_dedup_vars(raw: Seq<Literal>, n: nat)
    requires
        clause_input_ok(raw, n),
    ensures
        vars_distinct(dedup(raw)),
        lits_in_range(dedup(raw), n),
{
    lemma_dedup(raw);
    let d = dedup(raw);
    assert forall|i: int| 0 <= i < d.len() implies 1 <= (#[trigger] d[i]).var <= n by {
        assert(d.contains(d[i]));
        assert(raw.contains(d[i]));
        let j = choose|j: int| 0 <= j < raw.len() && raw[j] == d[i];
        assert(1 <= raw[j].var <= n);
    }
    assert forall|i: int, j: int| 0 <= i < j < d.len() implies (#[trigger] d[i]).var != (
    #[trigger] d[j]).var by {
        assert(d.contains(d[i]));
        assert(d.contains(d[j]));
        assert(raw.contains(d[i]));
        assert(raw.contains(d[j]));
        let x = choose|x: int| 0 <= x < raw.len() && raw[x] == d[i];
        let y = choose|y: int| 0 <= y < raw.len() && raw[y] == d[j];
        assert(raw[x] != raw[y].negated());
    }
}

/// The distinct literals of `raw`, in the order of their first occurrence.
pub fn distinct_literals(raw: &Vec<Literal>) -> (r: Vec<Literal>)
    requires
        forall|i: int| 0 <= i < raw@.len() ==> (#[trigger] raw@[i]).var <= MAX_VARIABLE,
    ensures
        r@ == dedup(raw@),
{
    let mut set: FxHashSet<usize> = FxHashSet::default();
    let mut out: Vec<Literal> = Vec::new();
    let mut i: usize = 0;
    while i < raw.len()
        invariant
            i <= raw@.len(),
            forall|k: int| 0 <= k < raw@.len() ==> (#[trigger] raw@[k]).var <= MAX_VARIABLE,
            out@ == dedup(raw@.take(i as int)),
            forall|l: Literal|
                l.var <= MAX_VARIABLE ==> (set@.contains(#[trigger] l.code() as usize)
                    <==> raw@.take(i as int).contains(l)),
        decreases raw@.len() - i,
    {
        let lit = raw[i];
        let ghost p = raw@.take(i as int);
        let ghost longer = raw@.take(i + 1);
        let fresh = set_insert(&mut set, lit.dense_code());
        proof {
            assert(longer.drop_last() =~= p);
            assert(longer.last() == lit);
            assert forall|l: Literal|
                l.var <= MAX_VARIABLE implies (set@.contains(#[trigger] l.code() as usize)
                <==> longer.contains(l)) by {
                if longer.contains(l) {
                    let j = choose|j: int| 0 <= j < longer.len() && longer[j] == l;
                    if j < i {
                        assert(p[j] == l);
                        assert(p.contains(l));
                    }
                }
                if p.contains(l) {
                    let j = choose|j: int| 0 <= j < p.len() && p[j] == l;
                    assert(longer[j] == l);
                }
                if l == lit {
                    assert(longer[i as int] == l);
                }
            }
        }
        if fresh {
            out.push(lit);
        }
        i = i + 1;
    }
    proof {
        assert(raw@.take(raw@.len() as int) =~= raw@);
    }
    out
}

impl ParsedOut {
    /// The clauses, each as the sequence of its literals.
    pub open spec fn formula(&self) -> Seq<Seq<Literal>> {
        Seq::new(self.clauses@.len(), |i: int| self.clauses@[i]@)
    }

    /// A solver state can be built: the number of variables is within the
    /// limit, and every clause is acceptable.
    pub open spec fn well_formed(&self) -> bool {
        &&& self.num_variables <= MAX_VARIABLE
        &&& forall|i: int|
            0 <= i < self.clauses@.len() ==> clause_input_ok(
                (#[trigger] self.clauses@[i])@,
                self.num_variables as nat,
            )
    }

    /// Whether a solver state can be built from this formula.
    pub fn is_well_formed(&self) -> (r: bool)
        ensures
            r == self.well_formed(),
    {
        if self.num_variables > MAX_VARIABLE {
            return false;
        }
        let mut i: usize = 0;
        while i < self.clauses.len()
            invariant
                i <= self.clauses@.len(),
                self.num_variables <= MAX_VARIABLE,
                forall|k: int|
                    0 <= k < i ==> clause_input_ok(
                        (#[trigger] self.clauses@[k])@,
                        self.num_variables as nat,
                    ),
            decreases self.clauses@.len() - i,
        {
            if !clause_acceptable(&self.clauses[i], self.num_variables) {
                return false;
            }
            i = i + 1;
        }
        true
    }
}

/// Whether `raw` is a clause that the solver accepts over `n` variables.
pub fn clause_acceptable(raw: &Vec<Literal>, n: usize) -> (r: bool)
    requires
        n <= MAX_VARIABLE,
    ensures
        r == clause_input_ok(raw@, n as nat),
{
    if raw.len() == 0 {
        return false;
    }
    let mut seen: FxHashSet<usize> = FxHashSet::default();
    let mut i: usize = 0;
    while i < raw.len()
        invariant
            i <= raw@.len(),
            n <= MAX_VARIABLE,
            forall|k: int| 0 <= k < i ==> 1 <= (#[trigger] raw@[k]).var <= n,
            forall|l: Literal|
                l.var <= MAX_VARIABLE ==> (seen@.contains(#[trigger] l.code() as usize)
                    <==> raw@.take(i as int).contains(l)),
            forall|j: int, k: int|
                0 <= j < i && 0 <= k < i ==> (#[trigger] raw@[j]) != (#[trigger] raw@[k]).negated(),
        decreases raw@.len() - i,
    {
        let lit = raw[i];
        if lit.var < 1 || lit.var > n {
            return false;
        }
        let ghost p = raw@.take(i as int);
        let ghost longer = raw@.take(i + 1);
        if set_contains(&seen, lit.invert().dense_code()) {
            proof {
                assert(p.contains(lit.negated()));
                let j = choose|j: int| 0 <= j < p.len() && p[j] == lit.negated();
                assert(raw@[j] == raw@[i as int].negated());
                assert(raw@[i as int] == raw@[j].negated());
            }
            return false;
        }
        set_insert(&mut seen, lit.dense_code());
        proof {
            assert forall|l: Literal|
                l.var <= MAX_VARIABLE implies (seen@.contains(#[trigger] l.code() as usize)
                <==> longer.contains(l)) by {
                if longer.contains(l) {
                    let j = choose|j: int| 0 <= j < longer.len() && longer[j] == l;
                    if j < i {
                        assert(p[j] == l);
                        assert(p.contains(l));
                    }
                }
                if p.contains(l) {
                    let j = choose|j: int| 0 <= j < p.len() && p[j] == l;
                    assert(longer[j] == l);
                }
                if l == lit {
                    assert(longer[i as int] == l);
                }
            }
            assert forall|j: int, k: int| 0 <= j < i + 1 && 0 <= k < i + 1 implies (
            #[trigger] raw@[j]) != (#[trigger] raw@[k]).negated() by {
                if j == i && k < i {
                    if raw@[j] == raw@[k].negated() {
                        assert(p[k] == lit.negated());
                        assert(p.contains(lit.negated()));
                    }
                }
                if k == i && j < i {
                    if raw@[j] == raw@[k].negated() {
                        assert(p[j] == lit.negated());
                        assert(p.contains(lit.negated()));
                    }
                }
            }
        }
        i = i + 1;
    }
    true
}

/// A unit clause whose literal is falsified by a fact of level 0 leaves the
/// formula without a model.
pub proof fn lemma_contradicting_unit(s: SolverState, raw: Seq<Literal>, unit: Literal)
    requires
        s.wf(),
        s.level == 0,
        s.pure_units@.len() == 0,
        raw.len() >= 1,
        forall|k: int| 0 <= k < raw.len() ==> #[trigger] raw[k] == unit,
        lit_falsified(unit, s.assig@),
    ensures
        entails(
            s.formula@.push(raw),
            s.pure_units@,
            s.num_variables as nat,
            s.clauses@,
            s.assig@,
        ),
        !ext_satisfiable(s.formula@.push(raw), s.pure_units@, s.num_variables as nat),
        !satisfiable(s.formula@.push(raw), s.num_variables as nat),
{
    let n = s.num_variables as nat;
    let f = s.formula@;
    let f2 = f.push(raw);
    let u = s.pure_units@;
    lemma_entails_more(f, u, f2, u, n, s.clauses@, s.assig@);
    crate::solver::lemma_levels_below(s.decision_stack@, s.assig@, 0, n);
    assert forall|m: Seq<bool>| !#[trigger] is_model(m, f2, u, n) by {
        if is_model(m, f2, u, n) {
            assert(upholds(m, s.clauses@, s.assig@));
            assert(val_clause(m, f2[f.len() as int]));
            let k = choose|k: int| 0 <= k < raw.len() && val_true(m, #[trigger] raw[k]);
            assert(crate::consistency::slot_below(s.assig@[unit.var as int], 1));
            lemma_root_false(m, s.clauses@, s.assig@, unit);
        }
    }
    if satisfiable(f2, n) {
        let m = choose|m: Seq<bool>| m.len() == n + 1 && #[trigger] val_formula(m, f2);
        assert(is_model(m, f2, u, n));
    }
}

impl SolverState {
    /// `self` is what `o` becomes when the clause `raw` is added to it.
    ///
    /// The clause joins the formula. If it has a single distinct literal,
    /// the literal becomes a fact of level 0 and marks the clauses that
    /// contain it as deleted, unless it is already falsified: then the
    /// formula is noted as contradictory. Otherwise the clause is stored
    /// with its distinct literals, watching the first two of them, or
    /// where those are falsified the first literals that are not.
    pub open spec fn with_raw_clause(&self, o: &SolverState, raw: Seq<Literal>) -> bool {
        let lits = dedup(raw);
        &&& self.formula@ == o.formula@.push(raw)
        &&& self.pure_units@ == o.pure_units@
        &&& self.num_variables == o.num_variables
        &&& self.level == o.level
        &&& self.decision_stack@ == o.decision_stack@
        &&& self.decision_heuristic == o.decision_heuristic
        &&& self.unit_prop_ds == o.unit_prop_ds
        &&& self.clauses_since_deletion == o.clauses_since_deletion
        &&& self.min_num_conflict_restart == o.min_num_conflict_restart
        &&& self.max_num_conflict_restart == o.max_num_conflict_restart
        &&& self.cur_num_conflict_restart == o.cur_num_conflict_restart
        &&& lits.len() == 1 ==> {
            let unit = lits[0];
            &&& self.watchlist == o.watchlist
            &&& if lit_falsified(unit, o.assig@) {
                &&& self.root_conflict
                &&& self.assig@ == o.assig@
                &&& self.clauses@ == o.clauses@
            } else {
                &&& self.root_conflict == o.root_conflict
                &&& self.assig@ == o.assig@.update(
                    unit.var as int,
                    Some(AssigInfo { litsign: unit.sign, level: 0 }),
                )
                &&& same_but_marks(self.clauses@, o.clauses@)
                &&& forall|i: int|
                    0 <= i < o.clauses@.len() ==> (#[trigger] self.clauses@[i]).deleted == (
                    o.clauses@[i].deleted || o.clauses@[i].literals@.contains(unit))
            }
        }
        &&& lits.len() != 1 ==> {
            let last = self.clauses@.last();
            &&& self.root_conflict == o.root_conflict
            &&& self.assig@ == o.assig@
            &&& self.clauses@.len() == o.clauses@.len() + 1
            &&& forall|i: int| 0 <= i < o.clauses@.len() ==> self.clauses@[i] == o.clauses@[i]
            &&& last.literals@ == lits
            &&& !last.deleted
            &&& !last.conflict
            &&& last.lbd == 0
            &&& last.w1 == moved_watch(lits, o.assig@, 0, 1, 0)
            &&& last.w2 == moved_watch(lits, o.assig@, last.w1 as int, 1, 1)
            &&& self.watchlist.watched_more(&o.watchlist, last, o.clauses@.len() as usize)
        }
    }

    /// `r` is the state that results from adding the clauses of `f` in
    /// turn to a fresh state over `n` variables; `states` holds the states
    /// in between.
    pub open spec fn built_through(states: Seq<SolverState>, f: Seq<Seq<Literal>>, n: usize) -> bool {
        &&& states.len() == f.len() + 1
        &&& states[0].is_fresh(n)
        &&& forall|i: int|
            0 <= i < f.len() ==> (#[trigger] states[i + 1]).with_raw_clause(&states[i], f[i])
    }

    /// Adds a clause of the formula. Repeated literals count once. A clause
    /// of a single literal is not stored: its literal becomes a fact of
    /// level 0, or, if it is already falsified, the formula is noted as
    /// contradictory. Any other clause is stored, watching two literals.
    pub fn add_raw_clause(&mut self, raw_clause: Vec<Literal>) -> (r: bool)
        requires
            old(self).wf(),
            old(self).pure_units@.len() == 0,
            clause_input_ok(raw_clause@, old(self).num_variables as nat),
            dedup(raw_clause@).len() == 1 ==> old(self).level == 0,
        ensures
            r,
            final(self).wf(),
            final(self).with_raw_clause(old(self), raw_clause@),
    {
        let ghost n = self.num_variables as nat;
        let ghost f0 = self.formula@;
        let ghost raw = raw_clause@;
        let lits = distinct_literals(&raw_clause);
        proof {
            lemma_dedup(raw);
            lemma_dedup_vars(raw, n);
        }
        if lits.len() == 1 {
            let unit: Literal = lits[0];
            proof {
                assert(lits@.contains(lits@[0]));
                assert(raw.contains(unit));
                assert forall|k: int| 0 <= k < raw.len() implies #[trigger] raw[k] == unit by {
                    assert(raw.contains(raw[k]));
                    assert(lits@.contains(raw[k]));
                }
            }
            if literal_falsified(&unit, &self.assig) {
                proof {
                    lemma_contradicting_unit(*self, raw, unit);
                }
                self.root_conflict = true;
                self.formula = Ghost(f0.push(raw));
            } else {
                let ghost added = Seq::<Seq<Literal>>::empty().push(raw);
                proof {
                    assert(f0 + added =~= f0.push(raw));
                }
                self.record_fact(&unit, Ghost(added));
            }
        } else {
            match Clause::try_from(lits) {
                Ok(clause) => {
                    proof {
                        assert forall|k: int| 0 <= k < raw.len() implies clause.literals@.contains(
                            #[trigger] raw[k],
                        ) by {
                            assert(raw.contains(raw[k]));
                        }
                        assert forall|k: int|
                            0 <= k < clause.literals@.len() implies raw.contains(
                            #[trigger] clause.literals@[k],
                        ) by {
                            assert(clause.literals@.contains(clause.literals@[k]));
                        }
                    }
                    self.store_clause(clause, Ghost(raw));
                },
                Err(_) => {
                    proof {
                        assert(false);
                    }
                },
            }
        }
        true
    }

    /// The solver state for a formula: every clause is added in turn.
    pub fn from_parsed_out(parsed_out: ParsedOut) -> (r: SolverState)
        requires
            parsed_out.well_formed(),
        ensures
            r.wf(),
            r.level == 0,
            r.decision_stack@.len() == 0,
            r.num_variables == parsed_out.num_variables,
            r.formula@ == parsed_out.formula(),
            r.pure_units@.len() == 0,
            exists|states: Seq<SolverState>|
                #[trigger] Self::built_through(
                    states,
                    parsed_out.formula(),
                    parsed_out.num_variables,
                ) && states.last() == r,
    {
        let ghost c0 = parsed_out.clauses@;
        let ghost n = parsed_out.num_variables as nat;
        let mut solver_state = SolverState::make_new(parsed_out.num_variables);
        let ghost mut done: int = 0;
        let ghost mut states: Seq<SolverState> = Seq::empty().push(solver_state);
        let ghost whole = parsed_out.formula();
        proof {
            assert(solver_state.formula@ =~= Seq::new(0, |i: int| c0[i]@));
        }
        for clause in it: parsed_out.clauses
            invariant
                it.seq() == c0,
                done == it.index(),
                n == parsed_out.num_variables,
                forall|i: int| 0 <= i < c0.len() ==> clause_input_ok((#[trigger] c0[i])@, n),
                solver_state.wf(),
                solver_state.level == 0,
                solver_state.decision_stack@.len() == 0,
                solver_state.num_variables == n,
                solver_state.pure_units@.len() == 0,
                solver_state.formula@ == Seq::new(done as nat, |i: int| c0[i]@),
                whole == Seq::new(c0.len(), |i: int| c0[i]@),
                states.len() == done + 1,
                states[0].is_fresh(parsed_out.num_variables),
                states.last() == solver_state,
                forall|i: int|
                    0 <= i < done ==> (#[trigger] states[i + 1]).with_raw_clause(
                        &states[i],
                        whole[i],
                    ),
        {
            let ghost before = states;
            proof {
                assert(clause_input_ok(c0[done]@, n));
            }
            solver_state.add_raw_clause(clause);
            proof {
                assert(solver_state.formula@ =~= Seq::new((done + 1) as nat, |i: int| c0[i]@));
                states = states.push(solver_state);
                assert forall|i: int| 0 <= i < done + 1 implies (
                #[trigger] states[i + 1]).with_raw_clause(&states[i], whole[i]) by {
                    if i < done {
                        assert(states[i + 1] == before[i + 1]);
                        assert(states[i] == before[i]);
                    } else {
                        assert(states[i] == before.last());
                        assert(whole[i] == c0[done]@);
                    }
                }
                done = done + 1;
            }
        }
        proof {
            assert(Self::built_through(states, whole, parsed_out.num_variables));
        }
        solver_state
    }
}

} // verus!

//! Decisions, and the answers of propagation and conflict analysis.

use vstd::prelude::*;
use crate::literal::Literal;

verus! {

/// One assignment step of the search.
#[derive(Clone, Copy, PartialEq, Eq, Structural, Debug)]
pub enum Decision {
    /// A fact of decision level 0; it is never undone.
    AssertUnit { lit: Literal },
    /// A literal forced by clause `unit_prop_idx`, all of whose other
    /// literals are falsified.
    UnitProp { lit: Literal, unit_prop_idx: usize },
    /// A branching guess; it opens a new decision level.
    Choice { lit: Literal },
}

impl Decision {
    /// The literal that the decision makes true, as a specification.
    pub open spec fn lit(self) -> Literal {
        match self {
            Decision::AssertUnit { lit } => lit,
            Decision::UnitProp { lit, .. } => lit,
            Decision::Choice { lit } => lit,
        }
    }

    pub fn make_assertunit(lit: Literal) -> (r: Decision)
        ensures
            r == (Decision::AssertUnit { lit }),
    {
        Decision::AssertUnit { lit }
    }

    pub fn make_unitprop(lit: Literal, unit_prop_idx: usize) -> (r: Decision)
        ensures
            r == (Decision::UnitProp { lit, unit_prop_idx }),
    {
        Decision::UnitProp { lit, unit_prop_idx }
    }

    pub fn make_choice(lit: Literal) -> (r: Decision)
        ensures
            r == (Decision::Choice { lit }),
    {
        Decision::Choice { lit }
    }

    /// The literal that the decision makes true.
    pub fn get_lit(&self) -> (r: Literal)
        ensures
            r == self.lit(),
    {
        match self {
            Decision::AssertUnit { lit } => *lit,
            Decision::UnitProp { lit, .. } => *lit,
            Decision::Choice { lit } => *lit,
        }
    }
}

/// The answer of unit propagation over the whole formula.
#[derive(Clone, Copy, PartialEq, Eq, Structural, Debug)]
pub enum FormulaUnitProp {
    /// Every consequence was applied and no clause is violated.
    NoConflict,
    /// Clause `conflict_cause_idx` has all its literals falsified.
    Conflict { conflict_cause_idx: usize },
}

/// The answer of conflict analysis.
#[derive(Clone, Copy, PartialEq, Eq, Structural, Debug)]
pub enum ConflictAnalysisResult {
    /// The conflict does not depend on any guess.
    UNSAT,
    /// The search has gone back; `decision` is forced next.
    Backtrack { decision: Decision },
}

/// A formula as it comes from a reader: the declared counts and the clauses.
#[derive(PartialEq, Debug)]
pub struct ParsedOut {
    pub num_variables: usize,
    pub num_clauses: usize,
    pub clauses: Vec<Vec<Literal>>,
}

} // verus!

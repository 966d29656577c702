//! A conflict-driven clause-learning satisfiability solver.
//!
//! A formula in conjunctive normal form is read (`dimacs`, `text`), built
//! into a solver state (`formula`, `store`), prepared at level 0
//! (`preprocess`) and searched (`search`): the heuristic (`heuristic`,
//! `ranking`) picks a literal, which is recorded as a guess (`solver`);
//! its consequences are drawn with two watched literals per clause
//! (`propagate`, `clause`, `watch`); a conflict is analysed to its first
//! unique implication point (`analysis`, `levels`), and the clause learned
//! from it is stored (`learn`).
//!
//! The invariants that hold the parts together are in `consistency`, what
//! the state means for the models of the formula is in `semantics`, and the
//! steps of the longer proofs are in `round` and `trail_lemmas`. The hash
//! sets and maps of `rustc_hash` are used through `fx`.

pub mod analysis;
pub mod assig;
pub mod clause;
pub mod consistency;
pub mod decision;
pub mod dimacs;
pub mod formula;
pub mod fx;
pub mod heuristic;
pub mod learn;
pub mod levels;
pub mod literal;
pub mod preprocess;
pub mod propagate;
pub mod ranking;
pub mod round;
pub mod search;
pub mod semantics;
pub mod solver;
pub mod store;
pub mod text;
pub mod trail_lemmas;
pub mod watch;

pub use assig::{literal_falsified, literal_satisfied, literal_unassigned, Assig, AssigInfo};
pub use clause::{
    check_all_falsified, check_clause_watch_invariant, check_single_unit, non_falsified_lits,
    Clause, ClauseUnitProp,
};
pub use decision::{ConflictAnalysisResult, Decision, FormulaUnitProp, ParsedOut};
pub use dimacs::{parse_cnf, CnfError};
pub use heuristic::{literal_from_score_var, Phase, ScoreVar, VSIDS};
pub use literal::{Literal, LiteralSize};
pub use search::{check_result, solver, unit_prop_sat, CNFStatus};
pub use solver::{FormulaPreprocess, SolverState};
pub use watch::{VarWatch, WatchList};

pub mod all_types;
pub mod cdcl;
pub mod checker;
pub mod clock;
pub mod dispatch;
pub mod dpll;
pub mod graph;
pub mod heap;
pub mod khorn;
pub mod logic;
pub mod measure;
pub mod parser;
pub mod random;
pub mod sat2;
pub mod solver;
pub mod tautosolver;
pub mod working_model;

pub use all_types::{
    AllClauses, BoolValue, CAllClauses, CClause, Clause, Cnf, Lit, Var, Watcher, MAX_VARS,
};
pub use cdcl::CdclSolver;
pub use checker::sat_model_check;
pub use dispatch::{
    all_verdicts, engines_agree, model_literals, oracle_agrees, pick_solver, run_engine, solve_auto,
    solve_configured, solve_with, Options, Outcome, SolverKind, Verdicts,
};
pub use dpll::Dpll;
pub use heap::Heap;
pub use khorn::{is_khorn, KhornSolver};
pub use parser::{missing_counts, parse_cnf, ParseError};
pub use sat2::{is_2sat, SAT2Solver};
pub use solver::Solver;
pub use tautosolver::TautoSolver;
pub use working_model::{ImplGraph, WorkingModel};

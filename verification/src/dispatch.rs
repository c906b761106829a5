use crate::all_types::{BoolValue, Cnf, Lit, MAX_VARS};
use crate::cdcl::CdclSolver;
use crate::checker::sat_model_check;
use crate::khorn::{horn, is_khorn, KhornSolver};
use crate::logic::{makes_true, satisfiable, satisfies};
use crate::sat2::{is_2sat, two_sat, SAT2Solver};
use crate::solver::Solver;
use crate::tautosolver::TautoSolver;
use vstd::prelude::*;

verus! {

/// The engines that can be asked for, and `Auto`, which picks one by the
/// shape of the formula.
#[derive(Debug, Clone, Copy, PartialEq, Eq, Structural)]
pub enum SolverKind {
    Auto,
    Cdcl,
    Sat2,
    Horn,
    Exhaustive,
}

/// The engine that `Auto` picks for a formula: the one for clauses of at
/// most two literals if it applies, else the one for Horn formulas if it
/// applies, else the clause-learning one.
pub open spec fn picked(f: Seq<Seq<Lit>>) -> SolverKind {
    if two_sat(f) {
        SolverKind::Sat2
    } else if horn(f) {
        SolverKind::Horn
    } else {
        SolverKind::Cdcl
    }
}

/// Whether the engine is made for the formula, so that its verdict is right.
pub open spec fn applies(kind: SolverKind, f: Seq<Seq<Lit>>) -> bool {
    match kind {
        SolverKind::Auto => true,
        SolverKind::Cdcl => true,
        SolverKind::Sat2 => two_sat(f),
        SolverKind::Horn => horn(f),
        SolverKind::Exhaustive => true,
    }
}

/// What an engine found: the verdict, the value of each variable, and, if
/// a model was found and was to be checked, whether it satisfies the formula.
pub struct Outcome {
    pub sat: bool,
    pub assigns: Vec<BoolValue>,
    pub checked: Option<bool>,
}

/// Picks the engine for a formula by its shape.
pub fn pick_solver(cnf: &Cnf) -> (kind: SolverKind)
    ensures
        kind == picked(cnf.formula()),
{
    if is_2sat(cnf) {
        SolverKind::Sat2
    } else if is_khorn(cnf) {
        SolverKind::Horn
    } else {
        SolverKind::Cdcl
    }
}

/// Makes an engine for the formula, runs it, and returns its verdict and
/// the assignment it reports.
pub fn run_engine<'a, S: Solver<'a>>(cnf: &'a Cnf) -> (r: (bool, Vec<BoolValue>))
    requires
        cnf.wf(),
    ensures
        S::decides(cnf.var_num as int, cnf.formula()) ==> r.0 == satisfiable(
            cnf.var_num as int,
            cnf.formula(),
        ),
        r.0 ==> makes_true(r.1@, cnf.formula()) && satisfies(r.1@, cnf.formula()) && r.1@.len()
            == cnf.var_num,
{
    let mut solver = S::new(cnf);
    let sat = solver.solve();
    let assigns = solver.assigns().clone();
    (sat, assigns)
}

/// Solves the formula with the engine asked for. With `verify`, a model is
/// checked against the clauses before it is reported.
pub fn solve_with(cnf: &Cnf, kind: SolverKind, verify: bool) -> (out: Outcome)
    requires
        cnf.wf(),
    ensures
        applies(kind, cnf.formula()) ==> out.sat == satisfiable(
            cnf.var_num as int,
            cnf.formula(),
        ),
        out.sat ==> makes_true(out.assigns@, cnf.formula()) && satisfies(
            out.assigns@,
            cnf.formula(),
        ) && out.assigns@.len() == cnf.var_num,
        out.checked == if verify && out.sat {
            Some(true)
        } else {
            None
        },
{
    let kind = match kind {
        SolverKind::Auto => pick_solver(cnf),
        _ => kind,
    };
    let (sat, assigns) = match kind {
        SolverKind::Sat2 => run_engine::<SAT2Solver>(cnf),
        SolverKind::Horn => run_engine::<KhornSolver>(cnf),
        SolverKind::Exhaustive => run_engine::<TautoSolver>(cnf),
        _ => run_engine::<CdclSolver>(cnf),
    };
    conclude(cnf, sat, assigns, verify)
}

/// How a formula is to be solved: with which engine, whether a model is
/// checked before it is reported, within what time if within any, and from
/// what seed the random choices are made if they are to be had again.
pub struct Options {
    pub kind: SolverKind,
    pub verify: bool,
    pub deadline: Option<std::time::Duration>,
    pub random_seed: Option<u64>,
}

/// Checks a model if it is to be checked, and puts the outcome together.
fn conclude(cnf: &Cnf, sat: bool, assigns: Vec<BoolValue>, verify: bool) -> (out: Outcome)
    requires
        cnf.wf(),
        sat ==> satisfies(assigns@, cnf.formula()) && assigns@.len() == cnf.var_num,
    ensures
        out.sat == sat,
        out.assigns == assigns,
        out.checked == if verify && sat {
            Some(true)
        } else {
            None
        },
{
    let checked = if verify && sat {
        Some(sat_model_check(cnf.clauses.as_slice(), assigns.as_slice()))
    } else {
        None
    };
    Outcome { sat, assigns, checked }
}

/// Solves the formula as the options say. The engines that search, the
/// clause-learning one and the one that tries every assignment, keep to the
/// time allowed and give up with `None` when it has run out; the others
/// take time linear in the size of the formula and always answer. Only the
/// clause-learning engine makes random choices.
pub fn solve_configured(cnf: &Cnf, options: &Options) -> (r: Option<Outcome>)
    requires
        cnf.wf(),
    ensures
        r is None ==> options.deadline is Some,
        r is None ==> ({
            let kind = if options.kind == SolverKind::Auto {
                picked(cnf.formula())
            } else {
                options.kind
            };
            kind == SolverKind::Cdcl || kind == SolverKind::Exhaustive
        }),
        match r {
            Some(out) => {
                &&& applies(options.kind, cnf.formula()) ==> out.sat == satisfiable(
                    cnf.var_num as int,
                    cnf.formula(),
                )
                &&& out.sat ==> makes_true(out.assigns@, cnf.formula()) && satisfies(
                    out.assigns@,
                    cnf.formula(),
                ) && out.assigns@.len() == cnf.var_num
                &&& out.checked == if options.verify && out.sat {
                    Some(true)
                } else {
                    None
                }
            },
            None => true,
        },
{
    let kind = match options.kind {
        SolverKind::Auto => pick_solver(cnf),
        kind => kind,
    };
    match kind {
        SolverKind::Sat2 => {
            let (sat, assigns) = run_engine::<SAT2Solver>(cnf);
            Some(conclude(cnf, sat, assigns, options.verify))
        },
        SolverKind::Horn => {
            let (sat, assigns) = run_engine::<KhornSolver>(cnf);
            Some(conclude(cnf, sat, assigns, options.verify))
        },
        SolverKind::Exhaustive => {
            let mut solver = TautoSolver::new(cnf);
            match solver.solve_until(options.deadline) {
                Some(sat) => {
                    let assigns = solver.assigns().clone();
                    Some(conclude(cnf, sat, assigns, options.verify))
                },
                None => None,
            }
        },
        _ => {
            let mut solver = match options.random_seed {
                Some(seed) => CdclSolver::with_seed(cnf, seed),
                None => CdclSolver::new(cnf),
            };
            match solver.solve_until(options.deadline) {
                Some(sat) => {
                    let assigns = solver.assigns().clone();
                    Some(conclude(cnf, sat, assigns, options.verify))
                },
                None => None,
            }
        },
    }
}

/// Solves the formula with the engine picked by its shape.
pub fn solve_auto(cnf: &Cnf) -> (out: Outcome)
    requires
        cnf.wf(),
    ensures
        out.sat == satisfiable(cnf.var_num as int, cnf.formula()),
        out.sat ==> makes_true(out.assigns@, cnf.formula()) && satisfies(
            out.assigns@,
            cnf.formula(),
        ),
{
    solve_with(cnf, SolverKind::Auto, false)
}

/// The verdict of each engine that is made for a formula; `None` for an
/// engine that is not made for it.
pub struct Verdicts {
    pub cdcl: bool,
    pub exhaustive: bool,
    pub sat2: Option<bool>,
    pub horn: Option<bool>,
}

/// Runs every engine that is made for the formula. They all answer alike,
/// and rightly.
pub fn all_verdicts(cnf: &Cnf) -> (v: Verdicts)
    requires
        cnf.wf(),
    ensures
        v.cdcl == satisfiable(cnf.var_num as int, cnf.formula()),
        v.exhaustive == v.cdcl,
        v.sat2 == if two_sat(cnf.formula()) {
            Some(v.cdcl)
        } else {
            None
        },
        v.horn == if horn(cnf.formula()) {
            Some(v.cdcl)
        } else {
            None
        },
{
    let cdcl = solve_with(cnf, SolverKind::Cdcl, false).sat;
    let exhaustive = solve_with(cnf, SolverKind::Exhaustive, false).sat;
    let sat2 = if is_2sat(cnf) {
        Some(solve_with(cnf, SolverKind::Sat2, false).sat)
    } else {
        None
    };
    let horn = if is_khorn(cnf) {
        Some(solve_with(cnf, SolverKind::Horn, false).sat)
    } else {
        None
    };
    Verdicts { cdcl, exhaustive, sat2, horn }
}

/// Runs the clause-learning engine, the engine that the shape of the
/// formula picks, and every other engine that is made for the formula, and
/// tells whether they all give one verdict. They always do.
pub fn engines_agree(cnf: &Cnf) -> (agree: bool)
    requires
        cnf.wf(),
    ensures
        agree,
{
    let v = all_verdicts(cnf);
    let picked = solve_with(cnf, SolverKind::Auto, false).sat;
    let sat2 = match v.sat2 {
        Some(verdict) => verdict == v.cdcl,
        None => true,
    };
    let horn = match v.horn {
        Some(verdict) => verdict == v.cdcl,
        None => true,
    };
    picked == v.cdcl && sat2 && horn
}

/// Runs the clause-learning engine and the one that tries every assignment
/// and tells whether they give one verdict. They always do.
pub fn oracle_agrees(cnf: &Cnf) -> (agree: bool)
    requires
        cnf.wf(),
    ensures
        agree,
{
    let learned = solve_with(cnf, SolverKind::Cdcl, false).sat;
    let tried = solve_with(cnf, SolverKind::Exhaustive, false).sat;
    learned == tried
}

/// The assignment as signed numbers: variable `v` as `v + 1`, negative if
/// the variable is false.
pub fn model_literals(assigns: &[BoolValue]) -> (line: Vec<i32>)
    requires
        assigns@.len() <= MAX_VARS,
    ensures
        line@.len() == assigns@.len(),
        forall|v: int|
            0 <= v < assigns@.len() ==> #[trigger] line@[v] == if assigns@[v] == BoolValue::False {
                -(v + 1)
            } else {
                v + 1
            },
{
    let mut line: Vec<i32> = Vec::new();
    let mut v: usize = 0;
    while v < assigns.len()
        invariant
            v <= assigns@.len() <= MAX_VARS,
            line@.len() == v,
            forall|u: int|
                0 <= u < v ==> #[trigger] line@[u] == if assigns@[u] == BoolValue::False {
                    -(u + 1)
                } else {
                    u + 1
                },
        decreases assigns@.len() - v,
    {
        let number: i32 = (v + 1) as i32;
        match assigns[v] {
            BoolValue::False => line.push(-number),
            _ => line.push(number),
        }
        v += 1;
    }
    line
}

} // verus!

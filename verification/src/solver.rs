use crate::all_types::{BoolValue, Cnf, Lit};
use crate::logic::{makes_true, satisfiable, satisfies};
use vstd::prelude::*;

verus! {

/// What every solving engine offers: it is made from a formula, gives a
/// verdict, and hands out the assignment it worked with.
pub trait Solver<'a>: Sized {
    /// The solver is in a state in which its operations may be called.
    spec fn ready(&self) -> bool;

    /// The number of variables of the formula.
    spec fn var_count(&self) -> int;

    /// The clauses of the formula.
    spec fn clauses(&self) -> Seq<Seq<Lit>>;

    /// The value that the solver reports for each variable.
    spec fn assignment(&self) -> Seq<BoolValue>;

    /// The formulas that the engine is made for. On these its verdict is right.
    spec fn decides(n: int, f: Seq<Seq<Lit>>) -> bool;

    /// A solver for the formula `cnf`.
    fn new<'b: 'a>(cnf: &'b Cnf) -> (s: Self)
        requires
            cnf.wf(),
        ensures
            s.ready(),
            s.var_count() == cnf.var_num,
            s.clauses() == cnf.formula(),
            s.assignment().len() == cnf.var_num,
    ;

    /// Decides whether the formula is satisfiable. A verdict of satisfiable
    /// is always right, and under the assignment that the solver then
    /// reports every clause has a literal that is true; a verdict of
    /// unsatisfiable is right for the formulas that the engine is made for.
    fn solve(&mut self) -> (sat: bool)
        requires
            old(self).ready(),
        ensures
            final(self).ready(),
            final(self).var_count() == old(self).var_count(),
            final(self).clauses() == old(self).clauses(),
            Self::decides(old(self).var_count(), old(self).clauses()) ==> sat == satisfiable(
                old(self).var_count(),
                old(self).clauses(),
            ),
            sat ==> makes_true(final(self).assignment(), old(self).clauses()),
            sat ==> satisfies(final(self).assignment(), old(self).clauses()),
            sat ==> final(self).assignment().len() == old(self).var_count(),
    ;

    /// The value that the solver reports for each variable: one entry for
    /// each variable of the formula.
    fn assigns(&mut self) -> (a: &Vec<BoolValue>)
        requires
            old(self).ready(),
        ensures
            a@ == old(self).assignment(),
            a@.len() == old(self).var_count(),
            final(self).ready(),
            final(self).var_count() == old(self).var_count(),
            final(self).clauses() == old(self).clauses(),
            final(self).assignment() == old(self).assignment(),
    ;
}

} // verus!

use crate::all_types::{clauses_view, formula_in_range, BoolValue, Clause, Lit};
use crate::logic::{clause_holds, completion, formula_holds, lit_holds, satisfies};
use vstd::prelude::*;

verus! {

/// Whether literal `lit` is true under `assigns`, with variables that have no
/// value taken as false.
pub fn lit_satisfied(assigns: &[BoolValue], lit: Lit) -> (b: bool)
    requires
        lit.var_id() < assigns@.len(),
    ensures
        b == lit_holds(completion(assigns@), lit),
{
    proof {
        lit.lemma_var_range();
    }
    match assigns[lit.get_var().0 as usize] {
        BoolValue::True => lit.is_pos(),
        _ => lit.is_neg(),
    }
}

/// Checks a model: whether every clause has a literal that is true under
/// `assigns`, with variables that have no value taken as false.
pub fn sat_model_check(clauses: &[Clause], assigns: &[BoolValue]) -> (ok: bool)
    requires
        formula_in_range(clauses_view(clauses@), assigns@.len() as int),
    ensures
        ok == satisfies(assigns@, clauses_view(clauses@)),
{
    let ghost f = clauses_view(clauses@);
    let ghost m = completion(assigns@);
    let mut i: usize = 0;
    while i < clauses.len()
        invariant
            i <= clauses@.len(),
            f == clauses_view(clauses@),
            m == completion(assigns@),
            formula_in_range(f, assigns@.len() as int),
            forall|k: int| 0 <= k < i ==> clause_holds(m, #[trigger] f[k]),
        decreases clauses@.len() - i,
    {
        let clause = &clauses[i];
        assert(f[i as int] == clause@);
        let mut satisfied = false;
        let mut j: usize = 0;
        while j < clause.len()
            invariant_except_break
                !satisfied,
                forall|k: int| 0 <= k < j ==> !lit_holds(m, #[trigger] clause@[k]),
            invariant
                j <= clause@.len(),
                m == completion(assigns@),
                forall|k: int| 0 <= k < clause@.len() ==> (#[trigger] clause@[k]).var_id() < assigns@.len(),
            ensures
                satisfied == clause_holds(m, clause@),
            decreases clause@.len() - j,
        {
            if lit_satisfied(assigns, clause[j]) {
                satisfied = true;
                break ;
            }
            j += 1;
        }
        if !satisfied {
            return false;
        }
        i += 1;
    }
    true
}

} // verus!

use crate::all_types::{formula_in_range, BoolValue, Lit};
use vstd::prelude::*;

verus! {

/// Whether literal `l` is true under the total assignment `m`.
pub open spec fn lit_holds(m: Seq<bool>, l: Lit) -> bool {
    l.var_id() < m.len() && m[l.var_id()] != l.negated()
}

/// Whether clause `c` has a literal that is true under `m`.
pub open spec fn clause_holds(m: Seq<bool>, c: Seq<Lit>) -> bool {
    exists|j: int| 0 <= j < c.len() && lit_holds(m, #[trigger] c[j])
}

/// Whether every clause of `f` is true under `m`.
pub open spec fn formula_holds(m: Seq<bool>, f: Seq<Seq<Lit>>) -> bool {
    forall|i: int| 0 <= i < f.len() ==> clause_holds(m, #[trigger] f[i])
}

/// `m` assigns `n` variables and makes `f` true.
pub open spec fn is_model(m: Seq<bool>, n: int, f: Seq<Seq<Lit>>) -> bool {
    m.len() == n && formula_holds(m, f)
}

/// Some assignment of `n` variables makes `f` true.
pub open spec fn satisfiable(n: int, f: Seq<Seq<Lit>>) -> bool {
    exists|m: Seq<bool>| is_model(m, n, f)
}

/// The value of literal `l` under the partial assignment `a`.
pub open spec fn lit_value(a: Seq<BoolValue>, l: Lit) -> BoolValue {
    if l.var_id() >= a.len() {
        BoolValue::Undefined
    } else if l.negated() {
        a[l.var_id()].negation()
    } else {
        a[l.var_id()]
    }
}

/// The state of clause `c` under the partial assignment `a`: true if some
/// literal is true, false if every literal is false, undefined otherwise.
pub open spec fn clause_value(a: Seq<BoolValue>, c: Seq<Lit>) -> BoolValue {
    if exists|j: int| 0 <= j < c.len() && lit_value(a, #[trigger] c[j]) == BoolValue::True {
        BoolValue::True
    } else if forall|j: int| 0 <= j < c.len() ==> lit_value(a, #[trigger] c[j]) == BoolValue::False {
        BoolValue::False
    } else {
        BoolValue::Undefined
    }
}

/// The state of formula `f` under the partial assignment `a`: false if some
/// clause is false, true if every clause is true, undefined otherwise.
pub open spec fn formula_value(a: Seq<BoolValue>, f: Seq<Seq<Lit>>) -> BoolValue {
    if exists|i: int| 0 <= i < f.len() && clause_value(a, #[trigger] f[i]) == BoolValue::False {
        BoolValue::False
    } else if forall|i: int| 0 <= i < f.len() ==> clause_value(a, #[trigger] f[i]) == BoolValue::True {
        BoolValue::True
    } else {
        BoolValue::Undefined
    }
}

/// In clause `c`, the literal at position `j` is undefined under `a` and
/// every other literal is false.
pub open spec fn unit_at(a: Seq<BoolValue>, c: Seq<Lit>, j: int) -> bool {
    &&& 0 <= j < c.len()
    &&& lit_value(a, c[j]) == BoolValue::Undefined
    &&& forall|k: int| 0 <= k < c.len() && k != j ==> lit_value(a, #[trigger] c[k]) == BoolValue::False
}

/// Whether clause `c` is unit under `a`.
pub open spec fn is_unit(a: Seq<BoolValue>, c: Seq<Lit>) -> bool {
    exists|j: int| unit_at(a, c, j)
}

/// The literal that a unit clause forces: its one undefined literal.
pub open spec fn unit_literal(a: Seq<BoolValue>, c: Seq<Lit>) -> Option<Lit> {
    if is_unit(a, c) {
        Some(c[choose|j: int| unit_at(a, c, j)])
    } else {
        None
    }
}

/// The total assignment that a partial assignment stands for: a variable is
/// true if it is assigned true, and false otherwise.
pub open spec fn completion(a: Seq<BoolValue>) -> Seq<bool> {
    Seq::new(a.len(), |v: int| a[v] == BoolValue::True)
}

/// Whether the completion of the partial assignment `a` makes `f` true.
pub open spec fn satisfies(a: Seq<BoolValue>, f: Seq<Seq<Lit>>) -> bool {
    formula_holds(completion(a), f)
}

/// Every clause of `f` has a literal that is true under the partial
/// assignment `a`.
pub open spec fn makes_true(a: Seq<BoolValue>, f: Seq<Seq<Lit>>) -> bool {
    formula_value(a, f) == BoolValue::True
}

/// Every variable has a value under `a`.
pub open spec fn total(a: Seq<BoolValue>) -> bool {
    forall|v: int| 0 <= v < a.len() ==> #[trigger] a[v] != BoolValue::Undefined
}

/// The complement of a literal on a variable that `m` assigns holds exactly
/// when the literal does not.
pub proof fn lemma_complement_holds(m: Seq<bool>, l: Lit)
    requires
        l.var_id() < m.len(),
    ensures
        lit_holds(m, l.complement()) == !lit_holds(m, l),
{
    l.lemma_complement();
}

/// The value of the complement of a literal is the opposite value.
pub proof fn lemma_complement_value(a: Seq<BoolValue>, l: Lit)
    ensures
        lit_value(a, l.complement()) == lit_value(a, l).negation(),
{
    l.lemma_complement();
}

/// A literal that is true under a partial assignment holds in its completion.
pub proof fn lemma_true_lit_holds(a: Seq<BoolValue>, l: Lit)
    requires
        lit_value(a, l) == BoolValue::True,
    ensures
        lit_holds(completion(a), l),
{
    l.lemma_var_range();
}

/// A literal whose variable is assigned holds in the completion exactly when
/// it is true under the partial assignment.
pub proof fn lemma_defined_lit(a: Seq<BoolValue>, l: Lit)
    requires
        lit_value(a, l) != BoolValue::Undefined,
    ensures
        lit_holds(completion(a), l) == (lit_value(a, l) == BoolValue::True),
{
    l.lemma_var_range();
}

/// A clause that is true under a partial assignment holds in its completion.
pub proof fn lemma_true_clause_holds(a: Seq<BoolValue>, c: Seq<Lit>)
    requires
        clause_value(a, c) == BoolValue::True,
    ensures
        clause_holds(completion(a), c),
{
    let j = choose|j: int| 0 <= j < c.len() && lit_value(a, #[trigger] c[j]) == BoolValue::True;
    lemma_true_lit_holds(a, c[j]);
}

/// A formula that is true under a partial assignment is satisfied by it.
pub proof fn lemma_true_formula_satisfied(a: Seq<BoolValue>, f: Seq<Seq<Lit>>)
    requires
        formula_value(a, f) == BoolValue::True,
    ensures
        satisfies(a, f),
        satisfiable(a.len() as int, f),
{
    assert forall|i: int| 0 <= i < f.len() implies clause_holds(completion(a), #[trigger] f[i]) by {
        lemma_true_clause_holds(a, f[i]);
    }
    assert(is_model(completion(a), a.len() as int, f));
}

/// Under an assignment that gives every variable a value, a clause on those
/// variables is true or false.
pub proof fn lemma_total_clause_decided(a: Seq<BoolValue>, c: Seq<Lit>)
    requires
        total(a),
        forall|j: int| 0 <= j < c.len() ==> (#[trigger] c[j]).var_id() < a.len(),
    ensures
        clause_value(a, c) != BoolValue::Undefined,
{
    assert forall|j: int| 0 <= j < c.len() implies lit_value(a, #[trigger] c[j])
        != BoolValue::Undefined by {
        c[j].lemma_var_range();
        assert(a[c[j].var_id()] != BoolValue::Undefined);
    }
}

/// Under an assignment that gives every variable a value, a formula on those
/// variables is true or false.
pub proof fn lemma_total_formula_decided(a: Seq<BoolValue>, f: Seq<Seq<Lit>>)
    requires
        total(a),
        formula_in_range(f, a.len() as int),
    ensures
        formula_value(a, f) != BoolValue::Undefined,
{
    assert forall|i: int| 0 <= i < f.len() implies clause_value(a, #[trigger] f[i])
        != BoolValue::Undefined by {
        lemma_total_clause_decided(a, f[i]);
    }
}

/// A formula with an empty clause has no model.
pub proof fn lemma_empty_clause_unsat(n: int, f: Seq<Seq<Lit>>, i: int)
    requires
        0 <= i < f.len(),
        f[i].len() == 0,
    ensures
        !satisfiable(n, f),
{
    assert forall|m: Seq<bool>| !is_model(m, n, f) by {
        if is_model(m, n, f) {
            assert(clause_holds(m, f[i]));
        }
    }
}

/// Adding clauses to a formula without a model leaves it without one.
pub proof fn lemma_unsat_grows(n: int, f: Seq<Seq<Lit>>, c: Seq<Lit>)
    requires
        !satisfiable(n, f),
    ensures
        !satisfiable(n, f.push(c)),
{
    assert forall|m: Seq<bool>| !is_model(m, n, f.push(c)) by {
        if is_model(m, n, f.push(c)) {
            assert forall|i: int| 0 <= i < f.len() implies clause_holds(m, #[trigger] f[i]) by {
                assert(f.push(c)[i] == f[i]);
            }
            assert(is_model(m, n, f));
        }
    }
}

/// An assignment under which every clause is true makes the formula true.
pub proof fn lemma_clauses_true(a: Seq<BoolValue>, f: Seq<Seq<Lit>>)
    requires
        forall|i: int| 0 <= i < f.len() ==> clause_value(a, #[trigger] f[i]) == BoolValue::True,
    ensures
        makes_true(a, f),
{
}

/// An assignment that gives every variable a value and satisfies a formula
/// on those variables makes each of its clauses true.
pub proof fn lemma_total_makes_true(a: Seq<BoolValue>, f: Seq<Seq<Lit>>)
    requires
        total(a),
        formula_in_range(f, a.len() as int),
        satisfies(a, f),
    ensures
        makes_true(a, f),
{
    assert forall|i: int| 0 <= i < f.len() implies clause_value(a, #[trigger] f[i])
        == BoolValue::True by {
        assert(clause_holds(completion(a), f[i]));
        let h = choose|h: int| 0 <= h < f[i].len() && lit_holds(completion(a), #[trigger] f[i][h]);
        f[i][h].lemma_var_range();
        assert(a[f[i][h].var_id()] != BoolValue::Undefined);
        lemma_defined_lit(a, f[i][h]);
        assert(lit_value(a, f[i][h]) == BoolValue::True);
    }
}

} // verus!

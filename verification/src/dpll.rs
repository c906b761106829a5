use crate::all_types::{
    clause_in_range, clauses_view, formula_in_range, BoolValue, Clause, Cnf, Lit, MAX_VARS,
};
use crate::logic::{
    clause_holds, clause_value, completion, formula_holds, is_model, lit_holds, lit_value,
    makes_true, satisfiable, satisfies,
};
use crate::measure::sum;
use crate::solver::Solver;
use crate::working_model::contains_lit;
use std::ops::Not;
use vstd::prelude::*;

verus! {

/// Clause `c` holds a literal on variable `v`.
pub open spec fn mentions(c: Seq<Lit>, v: int) -> bool {
    exists|i: int| 0 <= i < c.len() && (#[trigger] c[i]).var_id() == v
}

/// Some clause of the formula holds a literal on variable `v`.
pub open spec fn occurs(f: Seq<Seq<Lit>>, v: int) -> bool {
    exists|k: int| 0 <= k < f.len() && mentions(#[trigger] f[k], v)
}

/// The number of variables below `n` that occur in the formula.
pub open spec fn var_count(f: Seq<Seq<Lit>>, n: int) -> int {
    sum(
        |v: int|
            if occurs(f, v) {
                1int
            } else {
                0int
            },
        n,
    )
}

/// Some clause of the formula has exactly one literal.
pub open spec fn has_unit(f: Seq<Seq<Lit>>) -> bool {
    exists|k: int| 0 <= k < f.len() && (#[trigger] f[k]).len() == 1
}

/// What a search on the formula may still cost: it falls with every
/// variable that leaves the formula, and when a clause of one literal is added.
pub open spec fn search_cost(f: Seq<Seq<Lit>>, n: int) -> int {
    2 * var_count(f, n) + if has_unit(f) {
        0int
    } else {
        1int
    }
}

/// The number of times that literal `l` occurs in `s`.
pub open spec fn copies(s: Seq<Lit>, l: Lit) -> nat
    decreases s.len(),
{
    if s.len() == 0 {
        0
    } else {
        copies(s.drop_last(), l) + if s.last() == l {
            1nat
        } else {
            0nat
        }
    }
}

/// Clause `g` is clause `c` after `lit` was made true: `c` does not hold
/// `lit`, and `g` holds the literals of `c` but the complement of `lit`,
/// each as often as `c` holds it.
pub open spec fn cleaned(c: Seq<Lit>, g: Seq<Lit>, lit: Lit) -> bool {
    &&& !c.contains(lit)
    &&& g.len() <= c.len()
    &&& forall|l: Lit| #[trigger] g.contains(l) <==> c.contains(l) && l != lit.complement()
    &&& forall|l: Lit|
        #[trigger] copies(g, l) == if l == lit.complement() {
            0
        } else {
            copies(c, l)
        }
}

/// The formula `g` is the formula `f` after `lit` was made true: the clause
/// at each position `k` of `g` came of the clause at position `origin[k]`
/// of `f`, no clause of `f` gave two clauses, and the clauses of `f` that
/// gave none are those that hold `lit`.
pub open spec fn kept(f: Seq<Seq<Lit>>, g: Seq<Seq<Lit>>, origin: Seq<int>, lit: Lit) -> bool {
    &&& origin.len() == g.len()
    &&& origin.no_duplicates()
    &&& forall|k: int|
        0 <= k < g.len() ==> 0 <= #[trigger] origin[k] < f.len() && cleaned(
            f[origin[k]],
            g[k],
            lit,
        )
    &&& forall|c: int|
        0 <= c < f.len() && !(#[trigger] f[c]).contains(lit) ==> origin.contains(c)
}

/// How far the clauses have been gone through: those before `index` have
/// lost the complement of `lit`, those from `index` on are as they were, and
/// a clause that is gone held `lit`.
pub open spec fn progress(
    start: Seq<Seq<Lit>>,
    cur: Seq<Seq<Lit>>,
    origin: Seq<int>,
    index: int,
    lit: Lit,
) -> bool {
    &&& 0 <= index <= cur.len()
    &&& origin.len() == cur.len()
    &&& origin.no_duplicates()
    &&& forall|k: int| 0 <= k < cur.len() ==> 0 <= #[trigger] origin[k] < start.len()
    &&& forall|k: int| 0 <= k < index ==> cleaned(start[origin[k]], #[trigger] cur[k], lit)
    &&& forall|k: int| index <= k < cur.len() ==> #[trigger] cur[k] == start[origin[k]]
    &&& forall|c: int|
        0 <= c < start.len() && !origin.contains(c) ==> (#[trigger] start[c]).contains(lit)
}

/// Position `c` comes at or after position `index` of `origin`.
pub open spec fn later(origin: Seq<int>, index: int, c: int) -> bool {
    exists|k: int| index <= k < origin.len() && #[trigger] origin[k] == c
}

/// `m` gives each variable of `touched` the value that `a` gives it.
pub open spec fn agrees_on(m: Seq<bool>, a: Seq<BoolValue>, touched: Set<int>) -> bool {
    forall|v: int| #[trigger] touched.contains(v) ==> m[v] == (a[v] == BoolValue::True)
}

/// `a` gives each variable of `touched` the value that `b` gives it.
pub open spec fn keeps(a: Seq<BoolValue>, b: Seq<BoolValue>, touched: Set<int>) -> bool {
    a.len() == b.len() && forall|v: int| #[trigger] touched.contains(v) ==> a[v] == b[v]
}

/// No more than `n` variables below `n` occur in a formula.
proof fn lemma_var_count_bounds(f: Seq<Seq<Lit>>, n: int)
    requires
        0 <= n,
    ensures
        0 <= var_count(f, n) <= n,
    decreases n,
{
    if n > 0 {
        lemma_var_count_bounds(f, n - 1);
    }
}

/// A formula whose variables all occur in another has no more variables.
proof fn lemma_var_count_le(f: Seq<Seq<Lit>>, g: Seq<Seq<Lit>>, n: int)
    requires
        forall|v: int| 0 <= v < n && occurs(g, v) ==> occurs(f, v),
    ensures
        var_count(g, n) <= var_count(f, n),
{
    crate::measure::lemma_sum_le(
        |v: int|
            if occurs(g, v) {
                1int
            } else {
                0int
            },
        |v: int|
            if occurs(f, v) {
                1int
            } else {
                0int
            },
        n,
    );
}

/// A formula whose variables all occur in another, which has one variable
/// more, has fewer variables.
proof fn lemma_var_count_lt(f: Seq<Seq<Lit>>, g: Seq<Seq<Lit>>, n: int, x: int)
    requires
        forall|v: int| 0 <= v < n && occurs(g, v) ==> occurs(f, v),
        0 <= x < n,
        occurs(f, x),
        !occurs(g, x),
    ensures
        var_count(g, n) < var_count(f, n),
{
    crate::measure::lemma_sum_gap(
        |v: int|
            if occurs(g, v) {
                1int
            } else {
                0int
            },
        |v: int|
            if occurs(f, v) {
                1int
            } else {
                0int
            },
        n,
        x,
        1,
    );
}

/// A solver that decides variables one after another, propagates unit
/// clauses, and goes back on a decision that fails. It learns nothing from
/// a conflict.
pub struct Dpll {
    n: usize,
    clauses: Vec<Clause>,
    pub assigns: Vec<BoolValue>,
}

impl Dpll {
    /// The number of variables.
    pub closed spec fn num_vars(&self) -> int {
        self.n as int
    }

    /// The clauses of the formula.
    pub closed spec fn formula(&self) -> Seq<Seq<Lit>> {
        clauses_view(self.clauses@)
    }

    /// The value of each variable.
    pub closed spec fn values(&self) -> Seq<BoolValue> {
        self.assigns@
    }

    /// The solver is in a state in which its operations may be called.
    pub closed spec fn inv(&self) -> bool {
        &&& self.n <= MAX_VARS
        &&& self.assigns@.len() == self.n
        &&& formula_in_range(self.formula(), self.n as int)
    }

    /// Makes `lit` true in the formula: takes out every clause that holds
    /// `lit`, and takes the complement of `lit` out of every other clause.
    /// Returns, for each clause that is left, the position of the clause
    /// that it came of.
    fn remove_useless(&self, formula: &mut Vec<Clause>, lit: Lit) -> (origin: Ghost<Seq<int>>)
        requires
            formula_in_range(clauses_view(old(formula)@), self.n as int),
        ensures
            formula_in_range(clauses_view(final(formula)@), self.n as int),
            kept(clauses_view(old(formula)@), clauses_view(final(formula)@), origin@, lit),
            final(formula)@.len() <= old(formula)@.len(),
            holds_lit(clauses_view(old(formula)@), lit) ==> final(formula)@.len() < old(
                formula,
            )@.len(),
            forall|k: int|
                0 <= k < final(formula)@.len() ==> has_source(
                    clauses_view(old(formula)@),
                    #[trigger] clauses_view(final(formula)@)[k],
                    lit,
                ),
            forall|c: int|
                0 <= c < old(formula)@.len() && !(#[trigger] clauses_view(old(formula)@)[c]).contains(
                    lit,
                ) ==> has_image(
                    clauses_view(final(formula)@),
                    0,
                    final(formula)@.len() as int,
                    clauses_view(old(formula)@)[c],
                    lit,
                ),
    {
        let ghost start = clauses_view(formula@);
        let ghost n = self.n as int;
        let ghost mut removed: int = 0;
        let ghost mut origin: Seq<int> = Seq::new(start.len(), |k: int| k);
        let other = lit.not();
        let mut index: usize = 0;
        proof {
            assert forall|c: int| 0 <= c < start.len() implies origin.contains(c) by {
                assert(origin[c] == c);
            }
        }
        while index < formula.len()
            invariant
                index <= formula@.len(),
                n == self.n,
                other == lit.complement(),
                formula_in_range(start, n),
                formula@.len() + removed == start.len(),
                removed >= 0,
                progress(start, clauses_view(formula@), origin, index as int, lit),
                forall|c: int|
                    0 <= c < start.len() && (#[trigger] start[c]).contains(lit) ==> removed > 0
                        || later(origin, index as int, c),
            decreases formula@.len() - index,
        {
            let ghost before = clauses_view(formula@);
            let ghost origin_before = origin;
            if contains_lit(&formula[index], lit) {
                formula.swap_remove(index);
                proof {
                    removed = removed + 1;
                    origin = origin.update(index as int, origin.last()).drop_last();
                    assert(clauses_view(formula@) =~= before.update(
                        index as int,
                        before.last(),
                    ).drop_last());
                    lemma_clause_dropped(start, before, origin_before, index as int, lit);
                }
                continue ;
            }
            let ghost c0 = before[index as int];
            let ghost whole = formula@;
            let mut neg_index: usize = 0;
            while neg_index < formula[index].len()
                invariant
                    index < formula@.len(),
                    formula@.len() == whole.len(),
                    other == lit.complement(),
                    c0 == whole[index as int]@,
                    neg_index <= formula@[index as int]@.len(),
                    formula@[index as int]@.len() <= c0.len(),
                    forall|k: int| 0 <= k < formula@.len() && k != index ==> formula@[k] == whole[k],
                    forall|l: Lit|
                        l != other ==> (#[trigger] formula@[index as int]@.contains(l)
                            <==> c0.contains(l)),
                    forall|l: Lit|
                        l != other ==> #[trigger] copies(formula@[index as int]@, l) == copies(
                            c0,
                            l,
                        ),
                    forall|j: int| 0 <= j < neg_index ==> formula@[index as int]@[j] != other,
                decreases formula@[index as int]@.len() - neg_index,
            {
                if formula[index][neg_index] == other {
                    let ghost g0 = formula@[index as int]@;
                    formula[index].swap_remove(neg_index);
                    proof {
                        lemma_literal_dropped(c0, g0, neg_index as int, other);
                    }
                    continue ;
                }
                neg_index += 1;
            }
            proof {
                let after = clauses_view(formula@);
                let g = after[index as int];
                assert(g == formula@[index as int]@);
                assert(!c0.contains(lit));
                lemma_no_copies(g, other);
                assert(cleaned(c0, g, lit)) by {
                    assert forall|l: Lit| #[trigger] g.contains(l) <==> c0.contains(l) && l
                        != lit.complement() by {
                        if l == other && g.contains(l) {
                            let j = choose|j: int| 0 <= j < g.len() && g[j] == l;
                            assert(formula@[index as int]@[j] != other);
                        }
                    }
                }
                assert forall|k: int| 0 <= k < after.len() && k != index implies after[k]
                    == before[k] by {
                    assert(formula@[k] == whole[k]);
                }
                lemma_clause_cleaned(start, before, after, origin, index as int, lit);
                assert forall|c: int|
                    0 <= c < start.len() && (#[trigger] start[c]).contains(lit) implies removed > 0
                    || later(origin, index + 1, c) by {
                    if removed <= 0 {
                        let k = choose|k: int|
                            index <= k < origin.len() && #[trigger] origin[k] == c;
                        assert(before[k] == start[origin[k]]);
                        assert(k != index);
                    }
                }
            }
            index += 1;
        }
        proof {
            let after = clauses_view(formula@);
            lemma_kept(start, after, origin, lit);
            assert forall|k: int| 0 <= k < after.len() implies clause_in_range(
                #[trigger] after[k],
                n,
            ) by {
                let c = origin[k];
                let g = after[k];
                assert(cleaned(start[c], g, lit));
                assert(clause_in_range(start[c], n));
                assert forall|j: int| 0 <= j < g.len() implies (#[trigger] g[j]).var_id() < n by {
                    assert(g.contains(g[j]));
                    let i = choose|i: int| 0 <= i < start[c].len() && start[c][i] == g[j];
                    assert(start[c][i].var_id() < n);
                }
            }
            if holds_lit(start, lit) {
                let c = choose|c: int| 0 <= c < start.len() && (#[trigger] start[c]).contains(lit);
                assert(!later(origin, index as int, c));
            }
        }
        Ghost(origin)
    }
}

/// The number of literals of clause `c` on variable `v`.
pub open spec fn clause_frequency(c: Seq<Lit>, v: int) -> nat
    decreases c.len(),
{
    if c.len() == 0 {
        0
    } else {
        clause_frequency(c.drop_last(), v) + if c.last().var_id() == v {
            1nat
        } else {
            0nat
        }
    }
}

/// The number of literals of the formula on variable `v`.
pub open spec fn frequency(f: Seq<Seq<Lit>>, v: int) -> nat
    decreases f.len(),
{
    if f.len() == 0 {
        0
    } else {
        frequency(f.drop_last(), v) + clause_frequency(f.last(), v)
    }
}

/// A variable on which a clause holds a literal is counted in the clause.
proof fn lemma_clause_frequency(c: Seq<Lit>, v: int)
    ensures
        clause_frequency(c, v) > 0 <==> mentions(c, v),
    decreases c.len(),
{
    if c.len() > 0 {
        lemma_clause_frequency(c.drop_last(), v);
        if mentions(c, v) {
            let i = choose|i: int| 0 <= i < c.len() && (#[trigger] c[i]).var_id() == v;
            if i < c.len() - 1 {
                assert(c.drop_last()[i].var_id() == v);
                assert(mentions(c.drop_last(), v));
            }
        }
        if mentions(c.drop_last(), v) {
            let i = choose|i: int|
                0 <= i < c.drop_last().len() && (#[trigger] c.drop_last()[i]).var_id() == v;
            assert(c[i].var_id() == v);
        }
        if c.last().var_id() == v {
            assert(c[c.len() - 1].var_id() == v);
        }
    }
}

/// A variable that occurs in the formula is counted in it.
proof fn lemma_frequency(f: Seq<Seq<Lit>>, v: int)
    ensures
        frequency(f, v) > 0 <==> occurs(f, v),
    decreases f.len(),
{
    if f.len() > 0 {
        lemma_frequency(f.drop_last(), v);
        lemma_clause_frequency(f.last(), v);
        if occurs(f, v) {
            let k = choose|k: int| 0 <= k < f.len() && mentions(#[trigger] f[k], v);
            if k < f.len() - 1 {
                assert(mentions(f.drop_last()[k], v));
                assert(occurs(f.drop_last(), v));
            }
        }
        if occurs(f.drop_last(), v) {
            let k = choose|k: int|
                0 <= k < f.drop_last().len() && mentions(#[trigger] f.drop_last()[k], v);
            assert(mentions(f[k], v));
        }
        if mentions(f.last(), v) {
            assert(mentions(f[f.len() - 1], v));
        }
    }
}

/// A literal of a clause that came of another by making a literal true is a
/// literal of that other clause.
proof fn lemma_cleaned_mentions(c: Seq<Lit>, g: Seq<Lit>, lit: Lit, v: int)
    requires
        cleaned(c, g, lit),
        mentions(g, v),
    ensures
        mentions(c, v),
        v != lit.var_id(),
{
    let i = choose|i: int| 0 <= i < g.len() && (#[trigger] g[i]).var_id() == v;
    assert(g.contains(g[i]));
    let j = choose|j: int| 0 <= j < c.len() && c[j] == g[i];
    assert(c[j].var_id() == v);
    if v == lit.var_id() {
        lit.lemma_complement();
        if g[i].negated() == lit.negated() {
            Lit::lemma_same(g[i], lit);
        } else {
            Lit::lemma_same(g[i], lit.complement());
        }
    }
}

/// Making the literal of a unit clause true keeps the models in which the
/// literal holds: the formula before and the formula after have the same
/// models among them.
proof fn lemma_made_true(f: Seq<Seq<Lit>>, g: Seq<Seq<Lit>>, lit: Lit, m: Seq<bool>)
    requires
        lit.var_id() < m.len(),
        lit_holds(m, lit),
        forall|k: int| 0 <= k < g.len() ==> has_source(f, #[trigger] g[k], lit),
        forall|c: int|
            0 <= c < f.len() && !(#[trigger] f[c]).contains(lit) ==> has_image(
                g,
                0,
                g.len() as int,
                f[c],
                lit,
            ),
    ensures
        formula_holds(m, f) <==> formula_holds(m, g),
{
    crate::logic::lemma_complement_holds(m, lit);
    if formula_holds(m, f) {
        assert forall|k: int| 0 <= k < g.len() implies clause_holds(m, #[trigger] g[k]) by {
            assert(has_source(f, g[k], lit));
            let c = choose|c: int| 0 <= c < f.len() && cleaned(#[trigger] f[c], g[k], lit);
            assert(clause_holds(m, f[c]));
            let h = choose|h: int| 0 <= h < f[c].len() && lit_holds(m, #[trigger] f[c][h]);
            assert(f[c].contains(f[c][h]));
            assert(g[k].contains(f[c][h]));
            let j = choose|j: int| 0 <= j < g[k].len() && g[k][j] == f[c][h];
            assert(lit_holds(m, g[k][j]));
        }
    }
    if formula_holds(m, g) {
        assert forall|c: int| 0 <= c < f.len() implies clause_holds(m, #[trigger] f[c]) by {
            if f[c].contains(lit) {
                let j = choose|j: int| 0 <= j < f[c].len() && f[c][j] == lit;
                assert(lit_holds(m, f[c][j]));
            } else {
                let k = choose|k: int|
                    0 <= k < g.len() && 0 <= k < g.len() && cleaned(f[c], #[trigger] g[k], lit);
                assert(clause_holds(m, g[k]));
                let h = choose|h: int| 0 <= h < g[k].len() && lit_holds(m, #[trigger] g[k][h]);
                assert(g[k].contains(g[k][h]));
                assert(f[c].contains(g[k][h]));
                let j = choose|j: int| 0 <= j < f[c].len() && f[c][j] == g[k][h];
                assert(lit_holds(m, f[c][j]));
            }
        }
    }
}

/// Under an assignment that makes `lit` true and makes every clause true of
/// the formula that came of making `lit` true, every clause of the formula
/// before is true.
proof fn lemma_made_true_under(f: Seq<Seq<Lit>>, g: Seq<Seq<Lit>>, lit: Lit, a: Seq<BoolValue>)
    requires
        lit_value(a, lit) == BoolValue::True,
        makes_true(a, g),
        forall|c: int|
            0 <= c < f.len() && !(#[trigger] f[c]).contains(lit) ==> has_image(
                g,
                0,
                g.len() as int,
                f[c],
                lit,
            ),
    ensures
        makes_true(a, f),
{
    assert forall|c: int| 0 <= c < f.len() implies clause_value(a, #[trigger] f[c])
        == BoolValue::True by {
        if f[c].contains(lit) {
            let j = choose|j: int| 0 <= j < f[c].len() && f[c][j] == lit;
            assert(lit_value(a, f[c][j]) == BoolValue::True);
        } else {
            let k = choose|k: int|
                0 <= k < g.len() && 0 <= k < g.len() && cleaned(f[c], #[trigger] g[k], lit);
            assert(clause_value(a, g[k]) == BoolValue::True);
            let h = choose|h: int|
                0 <= h < g[k].len() && lit_value(a, #[trigger] g[k][h]) == BoolValue::True;
            assert(g[k].contains(g[k][h]));
            assert(f[c].contains(g[k][h]));
            let j = choose|j: int| 0 <= j < f[c].len() && f[c][j] == g[k][h];
            assert(lit_value(a, f[c][j]) == BoolValue::True);
        }
    }
    crate::logic::lemma_clauses_true(a, f);
}

/// An assignment that keeps the values given so far, the value of `lit`
/// among them, and makes every clause true after `lit` was made true, keeps
/// the values given before and makes every clause true as it was before.
proof fn lemma_step_under(
    before: Seq<Seq<Lit>>,
    after: Seq<Seq<Lit>>,
    lit: Lit,
    a: Seq<BoolValue>,
    values_before: Seq<BoolValue>,
    values: Seq<BoolValue>,
    touched: Set<int>,
)
    requires
        0 <= lit.var_id() < values_before.len(),
        values == values_before.update(lit.var_id(), BoolValue::of_polarity(lit.negated())),
        !touched.contains(lit.var_id()),
        forall|v: int| touched.contains(v) ==> 0 <= v < values.len(),
        keeps(a, values, touched.insert(lit.var_id())),
        makes_true(a, after),
        forall|c: int|
            0 <= c < before.len() && !(#[trigger] before[c]).contains(lit) ==> has_image(
                after,
                0,
                after.len() as int,
                before[c],
                lit,
            ),
    ensures
        keeps(a, values_before, touched),
        makes_true(a, before),
{
    let x = lit.var_id();
    let grown = touched.insert(x);
    assert(grown.contains(x));
    assert(a[x] == values[x]);
    assert(a.len() == values.len());
    assert(values[x] == BoolValue::of_polarity(lit.negated()));
    assert(lit_value(a, lit) == BoolValue::True);
    lemma_made_true_under(before, after, lit, a);
    assert forall|v: int| #[trigger] touched.contains(v) implies a[v] == values_before[v] by {
        assert(grown.contains(v));
        assert(v != x);
        assert(values[v] == values_before[v]);
    }
}

impl Dpll {
    /// The position of the first clause of one literal, if there is one.
    fn find_unit(formula: &Vec<Clause>) -> (r: Option<usize>)
        ensures
            match r {
                Some(k) => k < formula@.len() && formula@[k as int]@.len() == 1,
                None => !has_unit(clauses_view(formula@)),
            },
    {
        let mut k: usize = 0;
        while k < formula.len()
            invariant
                k <= formula@.len(),
                forall|q: int| 0 <= q < k ==> (#[trigger] clauses_view(formula@)[q]).len() != 1,
            decreases formula@.len() - k,
        {
            if formula[k].len() == 1 {
                return Some(k);
            }
            k += 1;
        }
        None
    }

    /// Makes the literal of every clause of one literal true, until the
    /// formula holds no such clause. Returns the variables that got a value.
    fn unit_propagation(&mut self, formula: &mut Vec<Clause>) -> (touched: Ghost<Set<int>>)
        requires
            old(self).inv(),
            formula_in_range(clauses_view(old(formula)@), old(self).n as int),
        ensures
            final(self).inv(),
            final(self).n == old(self).n,
            final(self).clauses == old(self).clauses,
            formula_in_range(clauses_view(final(formula)@), final(self).n as int),
            !has_unit(clauses_view(final(formula)@)),
            forall|v: int|
                touched@.contains(v) ==> 0 <= v < final(self).n && occurs(
                    clauses_view(old(formula)@),
                    v,
                ) && !occurs(clauses_view(final(formula)@), v),
            forall|v: int|
                0 <= v < final(self).n && !touched@.contains(v) ==> final(self).assigns@[v] == old(
                    self,
                ).assigns@[v],
            forall|v: int|
                occurs(clauses_view(final(formula)@), v) ==> occurs(clauses_view(old(formula)@), v),
            forall|m: Seq<bool>|
                m.len() == final(self).n && agrees_on(m, final(self).assigns@, touched@) ==> (
                #[trigger] formula_holds(m, clauses_view(old(formula)@)) <==> formula_holds(
                    m,
                    clauses_view(final(formula)@),
                )),
            forall|m: Seq<bool>| #[trigger]
                is_model(m, final(self).n as int, clauses_view(old(formula)@)) ==> agrees_on(
                    m,
                    final(self).assigns@,
                    touched@,
                ),
            forall|a: Seq<BoolValue>|
                #[trigger] keeps(a, final(self).assigns@, touched@) && makes_true(
                    a,
                    clauses_view(final(formula)@),
                ) ==> makes_true(a, clauses_view(old(formula)@)),
            touched@ == Set::<int>::empty() ==> clauses_view(final(formula)@) == clauses_view(
                old(formula)@,
            ),
            touched@ != Set::<int>::empty() ==> var_count(
                clauses_view(final(formula)@),
                final(self).n as int,
            ) < var_count(clauses_view(old(formula)@), final(self).n as int),
    {
        let ghost start = clauses_view(formula@);
        let ghost n = self.n as int;
        let ghost mut touched: Set<int> = Set::empty();
        loop
            invariant
                self.inv(),
                n == self.n,
                self.n == old(self).n,
                self.clauses == old(self).clauses,
                start == clauses_view(old(formula)@),
                formula_in_range(clauses_view(formula@), n),
                forall|v: int|
                    touched.contains(v) ==> 0 <= v < n && occurs(start, v) && !occurs(
                        clauses_view(formula@),
                        v,
                    ),
                forall|v: int|
                    0 <= v < n && !touched.contains(v) ==> self.assigns@[v] == old(self).assigns@[v],
                forall|v: int| occurs(clauses_view(formula@), v) ==> occurs(start, v),
                forall|m: Seq<bool>|
                    m.len() == n && agrees_on(m, self.assigns@, touched) ==> (
                    #[trigger] formula_holds(m, start) <==> formula_holds(m, clauses_view(formula@))),
                forall|m: Seq<bool>| #[trigger]
                    is_model(m, n, start) ==> agrees_on(m, self.assigns@, touched),
                forall|a: Seq<BoolValue>|
                    #[trigger] keeps(a, self.assigns@, touched) && makes_true(
                        a,
                        clauses_view(formula@),
                    ) ==> makes_true(a, start),
                touched == Set::<int>::empty() ==> clauses_view(formula@) == start,
                touched != Set::<int>::empty() ==> var_count(clauses_view(formula@), n)
                    < var_count(start, n),
            ensures
                !has_unit(clauses_view(formula@)),
            decreases formula@.len(),
        {
            let at = match Self::find_unit(formula) {
                Some(at) => at,
                None => {
                    break ;
                },
            };
            let lit = formula[at][0];
            let ghost before = clauses_view(formula@);
            let ghost values_before = self.assigns@;
            let ghost x = lit.var_id();
            proof {
                lit.lemma_var_range();
                assert(before[at as int] == formula@[at as int]@);
                assert(clause_in_range(before[at as int], n));
                assert(before[at as int][0] == lit);
                assert(mentions(before[at as int], x));
                assert(occurs(before, x));
                assert(!touched.contains(x));
                assert(before[at as int].contains(lit));
                assert(holds_lit(before, lit));
            }
            self.assigns[lit.get_var().0 as usize] = BoolValue::from_polarity(lit.is_neg());
            let _ = self.remove_useless(formula, lit);
            proof {
                let after = clauses_view(formula@);
                let values = self.assigns@;
                let grown = touched.insert(x);
                assert forall|v: int| occurs(after, v) implies occurs(before, v) && v != x by {
                    let k = choose|k: int| 0 <= k < after.len() && mentions(#[trigger] after[k], v);
                    assert(has_source(before, after[k], lit));
                    let c = choose|c: int|
                        0 <= c < before.len() && cleaned(#[trigger] before[c], after[k], lit);
                    lemma_cleaned_mentions(before[c], after[k], lit, v);
                }
                assert forall|m: Seq<bool>|
                    m.len() == n && agrees_on(m, values, grown) implies (#[trigger] formula_holds(
                    m,
                    start,
                ) <==> formula_holds(m, after)) by {
                    assert(grown.contains(x));
                    assert(lit_holds(m, lit));
                    assert(agrees_on(m, values_before, touched)) by {
                        assert forall|v: int| #[trigger] touched.contains(v) implies m[v] == (
                        values_before[v] == BoolValue::True) by {
                            assert(grown.contains(v));
                        }
                    }
                    lemma_made_true(before, after, lit, m);
                }
                assert forall|m: Seq<bool>| #[trigger] is_model(m, n, start) implies agrees_on(
                    m,
                    values,
                    grown,
                ) by {
                    assert(agrees_on(m, values_before, touched));
                    assert(formula_holds(m, before));
                    assert(clause_holds(m, before[at as int]));
                    let h = choose|h: int|
                        0 <= h < before[at as int].len() && lit_holds(
                            m,
                            #[trigger] before[at as int][h],
                        );
                    assert(h == 0);
                    assert forall|v: int| #[trigger] grown.contains(v) implies m[v] == (values[v]
                        == BoolValue::True) by {
                        if v != x {
                            assert(touched.contains(v));
                        }
                    }
                }
                assert forall|a: Seq<BoolValue>|
                    #[trigger] keeps(a, values, grown) && makes_true(a, after) implies makes_true(
                    a,
                    start,
                ) by {
                    lemma_step_under(before, after, lit, a, values_before, values, touched);
                }
                assert forall|v: int| grown.contains(v) implies 0 <= v < n && occurs(start, v)
                    && !occurs(after, v) by {
                    if v != x {
                        assert(touched.contains(v));
                    }
                }
                assert(grown != Set::<int>::empty()) by {
                    assert(grown.contains(x));
                }
                lemma_var_count_lt(before, after, n, x);
                touched = grown;
            }
        }
        Ghost(touched)
    }

    /// The variable that occurs most often in the formula, the first of
    /// them; 0 if the formula holds no literal.
    fn next_unassigned(&self, formula: &Vec<Clause>) -> (var: usize)
        requires
            self.inv(),
            formula_in_range(clauses_view(formula@), self.n as int),
        ensures
            var < self.n || var == 0,
            forall|v: int|
                0 <= v < self.n ==> frequency(clauses_view(formula@), v) <= frequency(
                    clauses_view(formula@),
                    var as int,
                ),
            forall|v: int|
                0 <= v < var ==> frequency(clauses_view(formula@), v) < frequency(
                    clauses_view(formula@),
                    var as int,
                ),
    {
        let n = self.n;
        let ghost f = clauses_view(formula@);
        let mut frequences: Vec<u128> = vec![0; n];
        let mut k: usize = 0;
        while k < formula.len()
            invariant
                k <= formula@.len(),
                n == self.n,
                f == clauses_view(formula@),
                formula_in_range(f, n as int),
                frequences@.len() == n,
                forall|v: int| 0 <= v < n ==> #[trigger] frequences@[v] == frequency(f.take(k as int), v),
                forall|v: int| 0 <= v < n ==> #[trigger] frequences@[v] <= k * usize::MAX,
            decreases formula@.len() - k,
        {
            let clause = &formula[k];
            proof {
                assert(f[k as int] == clause@);
                assert(clause_in_range(f[k as int], n as int));
                assert(f.take(k + 1).drop_last() =~= f.take(k as int));
                assert(f.take(k + 1).last() == clause@);
            }
            let mut i: usize = 0;
            while i < clause.len()
                invariant
                    i <= clause@.len(),
                    k < formula@.len(),
                    f == clauses_view(formula@),
                    clause_in_range(clause@, n as int),
                    frequences@.len() == n,
                    forall|v: int|
                        0 <= v < n ==> #[trigger] frequences@[v] == frequency(f.take(k as int), v)
                            + clause_frequency(clause@.take(i as int), v),
                    forall|v: int| 0 <= v < n ==> #[trigger] frequences@[v] <= k * usize::MAX + i,
                decreases clause@.len() - i,
            {
                let lit = clause[i];
                proof {
                    lit.lemma_var_range();
                    assert(clause@.take(i + 1).drop_last() =~= clause@.take(i as int));
                    assert(clause@.take(i + 1).last() == lit);
                    assert(k * usize::MAX + i < 0xffff_ffff_ffff_ffff_ffff_ffff_ffff_ffff) by (nonlinear_arith)
                        requires
                            k <= 0xffff_ffff_ffff_ffff,
                            i <= 0xffff_ffff_ffff_ffff,
                            usize::MAX <= 0xffff_ffff_ffff_ffff,
                    ;
                }
                let v: usize = lit.get_var().0 as usize;
                frequences[v] = frequences[v] + 1;
                i += 1;
            }
            proof {
                assert(clause@.take(clause@.len() as int) =~= clause@);
                assert(k * usize::MAX + usize::MAX == (k + 1) * usize::MAX) by (nonlinear_arith);
            }
            k += 1;
        }
        assert(f.take(f.len() as int) =~= f);
        let mut max: u128 = 0;
        let mut argmax: usize = 0;
        let mut i: usize = 0;
        while i < n
            invariant
                i <= n,
                frequences@.len() == n,
                forall|v: int| 0 <= v < n ==> #[trigger] frequences@[v] == frequency(f, v),
                argmax < n || argmax == 0,
                argmax <= i,
                max == 0 ==> argmax == 0,
                max > 0 ==> argmax < i && frequences@[argmax as int] == max,
                forall|v: int| 0 <= v < i ==> #[trigger] frequences@[v] <= max,
                forall|v: int| 0 <= v < argmax ==> #[trigger] frequences@[v] < max,
            decreases n - i,
        {
            let freq = frequences[i];
            if freq > max {
                max = freq;
                argmax = i;
            }
            i += 1;
        }
        proof {
            assert forall|v: int| 0 <= v < n implies frequency(f, v) <= frequency(
                f,
                argmax as int,
            ) by {
                assert(frequences@[v] <= max);
                if max == 0 {
                    assert(frequences@[0] <= max);
                }
            }
            assert forall|v: int| 0 <= v < argmax implies frequency(f, v) < frequency(
                f,
                argmax as int,
            ) by {
                assert(frequences@[v] < max);
            }
        }
        argmax
    }

    /// Whether some clause of the formula is empty.
    fn has_empty(formula: &Vec<Clause>) -> (b: bool)
        ensures
            b == exists|k: int| 0 <= k < formula@.len() && (#[trigger] formula@[k])@.len() == 0,
    {
        let mut k: usize = 0;
        while k < formula.len()
            invariant
                k <= formula@.len(),
                forall|q: int| 0 <= q < k ==> (#[trigger] formula@[q])@.len() != 0,
            decreases formula@.len() - k,
        {
            if formula[k].len() == 0 {
                return true;
            }
            k += 1;
        }
        false
    }
}

/// A copy of a list of clauses.
fn copy_formula(formula: &[Clause]) -> (copy: Vec<Clause>)
    ensures
        clauses_view(copy@) == clauses_view(formula@),
{
    let mut copy: Vec<Clause> = Vec::new();
    let mut i: usize = 0;
    while i < formula.len()
        invariant
            i <= formula@.len(),
            copy@.len() == i,
            forall|k: int| 0 <= k < i ==> (#[trigger] copy@[k])@ == formula@[k]@,
        decreases formula@.len() - i,
    {
        let c = formula[i].clone();
        assert(c@ =~= formula@[i as int]@);
        copy.push(c);
        i += 1;
    }
    assert(clauses_view(copy@) =~= clauses_view(formula@));
    copy
}

/// A formula with one more clause, of one literal on a variable of the
/// formula, costs less to search than a formula that the first came of by
/// unit propagation.
proof fn lemma_branch_costs_less(
    f: Seq<Seq<Lit>>,
    g: Seq<Seq<Lit>>,
    lit: Lit,
    n: int,
    touched: Set<int>,
)
    requires
        0 <= n,
        0 <= lit.var_id() < n,
        occurs(g, lit.var_id()),
        forall|v: int| occurs(g, v) ==> occurs(f, v),
        touched == Set::<int>::empty() ==> g == f && !has_unit(f),
        touched != Set::<int>::empty() ==> var_count(g, n) < var_count(f, n),
    ensures
        0 <= search_cost(g.push(seq![lit]), n) < search_cost(f, n),
        forall|v: int| occurs(g.push(seq![lit]), v) ==> occurs(g, v),
{
    let g1 = g.push(seq![lit]);
    assert forall|v: int| occurs(g1, v) implies occurs(g, v) by {
        let k = choose|k: int| 0 <= k < g1.len() && mentions(#[trigger] g1[k], v);
        if k < g.len() {
            assert(g1[k] == g[k]);
            assert(mentions(g[k], v));
        } else {
            let i = choose|i: int| 0 <= i < g1[k].len() && (#[trigger] g1[k][i]).var_id() == v;
            assert(v == lit.var_id());
        }
    }
    lemma_var_count_le(g, g1, n);
    lemma_var_count_bounds(g1, n);
    assert(g1[g.len() as int].len() == 1);
    assert(has_unit(g1));
}

impl Dpll {
    /// Decides whether the formula has a model: propagates unit clauses,
    /// then tries both values of a variable that occurs most often, `true`
    /// first. If the formula has a model, the assignment is left as one.
    fn dpll(&mut self, formula: &[Clause]) -> (sat: bool)
        requires
            old(self).inv(),
            formula_in_range(clauses_view(formula@), old(self).n as int),
        ensures
            final(self).inv(),
            final(self).n == old(self).n,
            final(self).clauses == old(self).clauses,
            sat == satisfiable(final(self).n as int, clauses_view(formula@)),
            sat ==> satisfies(final(self).assigns@, clauses_view(formula@)),
            sat ==> makes_true(final(self).assigns@, clauses_view(formula@)),
            forall|v: int|
                0 <= v < final(self).n && !occurs(clauses_view(formula@), v) ==> (final(self).assigns@)[v]
                    == old(self).assigns@[v],
        decreases search_cost(clauses_view(formula@), old(self).n as int),
    {
        let ghost f = clauses_view(formula@);
        let ghost n = self.n as int;
        let ghost a0 = self.assigns@;
        let mut formula = copy_formula(formula);
        let Ghost(touched) = self.unit_propagation(&mut formula);
        let ghost g = clauses_view(formula@);
        let ghost a1 = self.assigns@;
        proof {
            assert(agrees_on(completion(a1), a1, touched));
            assert(keeps(a1, a1, touched));
            assert forall|v: int| 0 <= v < n && !occurs(f, v) implies a1[v] == a0[v] && !occurs(
                g,
                v,
            ) by {
                if touched.contains(v) {
                }
                if occurs(g, v) {
                }
            }
        }
        if formula.len() == 0 {
            proof {
                assert(formula_holds(completion(a1), g));
                assert(is_model(completion(a1), n, f));
            }
            return true;
        }
        if Self::has_empty(&formula) {
            proof {
                let k = choose|k: int| 0 <= k < formula@.len() && (#[trigger] formula@[k])@.len() == 0;
                assert(g[k].len() == 0);
                assert forall|m: Seq<bool>| !is_model(m, n, f) by {
                    if is_model(m, n, f) {
                        assert(agrees_on(m, a1, touched));
                        assert(formula_holds(m, g));
                        assert(clause_holds(m, g[k]));
                    }
                }
            }
            return false;
        }
        let var = self.next_unassigned(&formula);
        proof {
            // the first clause holds a literal, so the variable picked occurs
            assert(g[0] == formula@[0]@);
            assert(clause_in_range(g[0], n));
            let first = g[0][0].var_id();
            g[0][0].lemma_var_range();
            assert(mentions(g[0], first));
            assert(occurs(g, first));
            lemma_frequency(g, first);
            lemma_frequency(g, var as int);
        }
        let lit = Lit::from(var as i32 + 1);
        proof {
            Lit::lemma_make(var as int, false);
            lemma_branch_costs_less(f, g, lit, n, touched);
            lit.lemma_complement();
            lemma_branch_costs_less(f, g, lit.complement(), n, touched);
        }
        let mut unit: Vec<Lit> = Vec::new();
        unit.push(lit);
        formula.push(unit);
        let ghost g1 = clauses_view(formula@);
        proof {
            assert(g1 =~= g.push(seq![lit]));
            assert(formula_in_range(g1, n)) by {
                assert forall|k: int| 0 <= k < g1.len() implies clause_in_range(
                    #[trigger] g1[k],
                    n,
                ) by {
                    if k < g.len() {
                        assert(g1[k] == g[k]);
                    }
                }
            }
        }
        if self.dpll(formula.as_slice()) {
            proof {
                let a2 = self.assigns@;
                assert forall|v: int| 0 <= v < n && !occurs(g, v) implies a2[v] == a1[v] by {
                    if occurs(g1, v) {
                    }
                }
                assert forall|v: int| touched.contains(v) implies 0 <= v < n && a2[v] == a1[v] by {
                    if occurs(g, v) {
                    }
                }
                lemma_branch_model(f, g, g1, a1, a2, touched, n);
            }
            return true;
        }
        let ghost a2 = self.assigns@;
        formula.pop();
        let mut unit: Vec<Lit> = Vec::new();
        unit.push(lit.not());
        formula.push(unit);
        let ghost g2 = clauses_view(formula@);
        proof {
            assert(g2 =~= g.push(seq![lit.complement()]));
            assert(formula_in_range(g2, n)) by {
                assert forall|k: int| 0 <= k < g2.len() implies clause_in_range(
                    #[trigger] g2[k],
                    n,
                ) by {
                    if k < g.len() {
                        assert(g2[k] == g[k]);
                    }
                }
            }
            assert forall|v: int| 0 <= v < n && !occurs(g, v) implies a2[v] == a1[v] by {
                if occurs(g1, v) {
                }
            }
        }
        let sat = self.dpll(formula.as_slice());
        proof {
            let a3 = self.assigns@;
            assert forall|v: int| 0 <= v < n && !occurs(g, v) implies a3[v] == a1[v] by {
                if occurs(g2, v) {
                }
                assert(a2[v] == a1[v]);
            }
            assert forall|v: int| touched.contains(v) implies 0 <= v < n && a3[v] == a1[v] by {
                if occurs(g, v) {
                }
            }
            if sat {
                lemma_branch_model(f, g, g2, a1, a3, touched, n);
            } else {
                assert forall|m: Seq<bool>| !is_model(m, n, f) by {
                    if is_model(m, n, f) {
                        assert(agrees_on(m, a1, touched));
                        assert(formula_holds(m, g));
                        crate::logic::lemma_complement_holds(m, lit);
                        if lit_holds(m, lit) {
                            assert(is_model(m, n, g1)) by {
                                assert forall|k: int| 0 <= k < g1.len() implies clause_holds(
                                    m,
                                    #[trigger] g1[k],
                                ) by {
                                    if k < g.len() {
                                        assert(g1[k] == g[k]);
                                    } else {
                                        assert(lit_holds(m, g1[k][0]));
                                    }
                                }
                            }
                        } else {
                            assert(is_model(m, n, g2)) by {
                                assert forall|k: int| 0 <= k < g2.len() implies clause_holds(
                                    m,
                                    #[trigger] g2[k],
                                ) by {
                                    if k < g.len() {
                                        assert(g2[k] == g[k]);
                                    } else {
                                        assert(lit_holds(m, g2[k][0]));
                                    }
                                }
                            }
                        }
                    }
                }
            }
        }
        sat
    }
}

/// An assignment that satisfies the formula of a branch, and that kept what
/// unit propagation gave, satisfies the formula that the branch came of.
proof fn lemma_branch_model(
    f: Seq<Seq<Lit>>,
    g: Seq<Seq<Lit>>,
    g1: Seq<Seq<Lit>>,
    a1: Seq<BoolValue>,
    a2: Seq<BoolValue>,
    touched: Set<int>,
    n: int,
)
    requires
        a1.len() == n,
        a2.len() == n,
        g1.len() == g.len() + 1,
        forall|k: int| 0 <= k < g.len() ==> g1[k] == g[k],
        satisfies(a2, g1),
        makes_true(a2, g1),
        forall|v: int| touched.contains(v) ==> 0 <= v < n && a2[v] == a1[v],
        forall|m: Seq<bool>|
            m.len() == n && agrees_on(m, a1, touched) ==> (#[trigger] formula_holds(m, f)
                <==> formula_holds(m, g)),
        forall|a: Seq<BoolValue>|
            #[trigger] keeps(a, a1, touched) && makes_true(a, g) ==> makes_true(a, f),
    ensures
        satisfies(a2, f),
        satisfiable(n, f),
        makes_true(a2, f),
{
    assert(keeps(a2, a1, touched));
    assert forall|k: int| 0 <= k < g.len() implies clause_value(a2, #[trigger] g[k])
        == BoolValue::True by {
        assert(clause_value(a2, g1[k]) == BoolValue::True);
    }
    crate::logic::lemma_clauses_true(a2, g);
    let m = completion(a2);
    assert forall|k: int| 0 <= k < g.len() implies clause_holds(m, #[trigger] g[k]) by {
        assert(clause_holds(m, g1[k]));
    }
    assert(agrees_on(m, a1, touched));
    assert(is_model(m, n, f));
}

impl<'a> Solver<'a> for Dpll {
    open spec fn ready(&self) -> bool {
        self.inv()
    }

    open spec fn var_count(&self) -> int {
        self.num_vars()
    }

    open spec fn clauses(&self) -> Seq<Seq<Lit>> {
        self.formula()
    }

    open spec fn assignment(&self) -> Seq<BoolValue> {
        self.values()
    }

    open spec fn decides(n: int, f: Seq<Seq<Lit>>) -> bool {
        true
    }

    fn new<'b: 'a>(cnf: &'b Cnf) -> (s: Self) {
        Dpll {
            n: cnf.var_num,
            clauses: copy_formula(cnf.clauses.as_slice()),
            assigns: vec![BoolValue::Undefined; cnf.var_num],
        }
    }

    fn solve(&mut self) -> (sat: bool) {
        let clauses = copy_formula(self.clauses.as_slice());
        self.dpll(clauses.as_slice())
    }

    fn assigns(&mut self) -> (a: &Vec<BoolValue>) {
        &self.assigns
    }
}

/// Some clause of the formula holds `lit`.
pub open spec fn holds_lit(f: Seq<Seq<Lit>>, lit: Lit) -> bool {
    exists|c: int| 0 <= c < f.len() && (#[trigger] f[c]).contains(lit)
}

/// Clause `g` is a clause of `f` after `lit` was made true.
pub open spec fn has_source(f: Seq<Seq<Lit>>, g: Seq<Lit>, lit: Lit) -> bool {
    exists|c: int| 0 <= c < f.len() && cleaned(#[trigger] f[c], g, lit)
}

/// Between positions `lo` and `hi`, `f` holds clause `c` after `lit` was made true.
pub open spec fn has_image(f: Seq<Seq<Lit>>, lo: int, hi: int, c: Seq<Lit>, lit: Lit) -> bool {
    exists|k: int| lo <= k < hi && 0 <= k < f.len() && cleaned(c, #[trigger] f[k], lit)
}

/// Replacing an entry of a list of literals changes the count of a literal
/// by the entry that goes and the entry that comes.
proof fn lemma_copies_update(s: Seq<Lit>, i: int, x: Lit, l: Lit)
    requires
        0 <= i < s.len(),
    ensures
        copies(s.update(i, x), l) + (if s[i] == l {
            1nat
        } else {
            0nat
        }) == copies(s, l) + (if x == l {
            1nat
        } else {
            0nat
        }),
    decreases s.len(),
{
    if i == s.len() - 1 {
        assert(s.update(i, x).drop_last() =~= s.drop_last());
    } else {
        assert(s.update(i, x).drop_last() =~= s.drop_last().update(i, x));
        lemma_copies_update(s.drop_last(), i, x, l);
    }
}

/// A literal that stands at no position of a list is counted zero times in it.
proof fn lemma_no_copies(s: Seq<Lit>, l: Lit)
    requires
        forall|j: int| 0 <= j < s.len() ==> s[j] != l,
    ensures
        copies(s, l) == 0,
    decreases s.len(),
{
    if s.len() > 0 {
        assert(s[s.len() - 1] != l);
        assert forall|j: int| 0 <= j < s.drop_last().len() implies s.drop_last()[j] != l by {
            assert(s[j] != l);
        }
        lemma_no_copies(s.drop_last(), l);
    }
}

/// What holds of a clause after the literal at position `at`, which is
/// `other`, was replaced by the last literal and the last position dropped.
proof fn lemma_literal_dropped(c0: Seq<Lit>, g0: Seq<Lit>, at: int, other: Lit)
    requires
        0 <= at < g0.len(),
        g0[at] == other,
        g0.len() <= c0.len(),
        forall|l: Lit| l != other ==> (#[trigger] g0.contains(l) <==> c0.contains(l)),
        forall|l: Lit| l != other ==> #[trigger] copies(g0, l) == copies(c0, l),
        forall|j: int| 0 <= j < at ==> g0[j] != other,
    ensures
        ({
            let g1 = g0.update(at, g0.last()).drop_last();
            &&& g1.len() <= c0.len()
            &&& forall|l: Lit| l != other ==> (#[trigger] g1.contains(l) <==> c0.contains(l))
            &&& forall|l: Lit| l != other ==> #[trigger] copies(g1, l) == copies(c0, l)
            &&& forall|j: int| 0 <= j < at ==> g1[j] != other
        }),
{
    let last = g0.len() - 1;
    let g1 = g0.update(at, g0.last()).drop_last();
    assert forall|l: Lit| l != other implies (#[trigger] g1.contains(l) <==> c0.contains(l)) by {
        if g1.contains(l) {
            let j = choose|j: int| 0 <= j < g1.len() && g1[j] == l;
            if j == at {
                assert(g0[last] == l);
            } else {
                assert(g0[j] == l);
            }
            assert(g0.contains(l));
        }
        if c0.contains(l) {
            assert(g0.contains(l));
            let j = choose|j: int| 0 <= j < g0.len() && g0[j] == l;
            assert(j != at);
            if j == last {
                assert(g1[at] == l);
            } else {
                assert(g1[j] == l);
            }
        }
    }
    assert forall|l: Lit| l != other implies #[trigger] copies(g1, l) == copies(c0, l) by {
        let u = g0.update(at, g0.last());
        lemma_copies_update(g0, at, g0.last(), l);
        assert(u.last() == g0.last());
        assert(u.drop_last() == g1);
    }
}

/// What holds of the clauses after the clause at `index`, which holds
/// `lit`, was replaced by the last clause and the last position dropped.
proof fn lemma_clause_dropped(
    start: Seq<Seq<Lit>>,
    before: Seq<Seq<Lit>>,
    origin: Seq<int>,
    index: int,
    lit: Lit,
)
    requires
        progress(start, before, origin, index, lit),
        index < before.len(),
        before[index].contains(lit),
    ensures
        progress(
            start,
            before.update(index, before.last()).drop_last(),
            origin.update(index, origin.last()).drop_last(),
            index,
            lit,
        ),
{
    let last = before.len() - 1;
    let after = before.update(index, before.last()).drop_last();
    let origin2 = origin.update(index, origin.last()).drop_last();
    assert forall|a: int, b: int|
        0 <= a < origin2.len() && 0 <= b < origin2.len() && a != b implies origin2[a]
        != origin2[b] by {
        let pa = if a == index {
            last
        } else {
            a
        };
        let pb = if b == index {
            last
        } else {
            b
        };
        assert(origin2[a] == origin[pa] && origin2[b] == origin[pb]);
    }
    assert forall|k: int| 0 <= k < after.len() implies 0 <= #[trigger] origin2[k]
        < start.len() by {
        if k == index {
            assert(origin2[k] == origin[last]);
        } else {
            assert(origin2[k] == origin[k]);
        }
    }
    assert forall|k: int| 0 <= k < index implies cleaned(
        start[origin2[k]],
        #[trigger] after[k],
        lit,
    ) by {
        assert(after[k] == before[k] && origin2[k] == origin[k]);
    }
    assert forall|k: int| index <= k < after.len() implies #[trigger] after[k]
        == start[origin2[k]] by {
        if k == index {
            assert(after[k] == before[last] && origin2[k] == origin[last]);
        } else {
            assert(after[k] == before[k] && origin2[k] == origin[k]);
        }
    }
    assert forall|c: int| 0 <= c < start.len() && !origin2.contains(c) implies (
    #[trigger] start[c]).contains(lit) by {
        if origin.contains(c) {
            let k = choose|k: int| 0 <= k < origin.len() && origin[k] == c;
            if k == index {
                assert(before[index] == start[origin[index]]);
            } else if k == last {
                assert(origin2[index] == c);
                assert(false);
            } else {
                assert(origin2[k] == c);
                assert(false);
            }
        }
    }
}

/// What holds of the clauses after the clause at `index`, which does not
/// hold `lit`, lost the complement of `lit`.
proof fn lemma_clause_cleaned(
    start: Seq<Seq<Lit>>,
    before: Seq<Seq<Lit>>,
    after: Seq<Seq<Lit>>,
    origin: Seq<int>,
    index: int,
    lit: Lit,
)
    requires
        progress(start, before, origin, index, lit),
        index < before.len(),
        after.len() == before.len(),
        forall|k: int| 0 <= k < after.len() && k != index ==> #[trigger] after[k] == before[k],
        cleaned(before[index], after[index], lit),
    ensures
        progress(start, after, origin, index + 1, lit),
{
    assert forall|k: int| 0 <= k < index + 1 implies cleaned(
        start[origin[k]],
        #[trigger] after[k],
        lit,
    ) by {
        if k < index {
            assert(after[k] == before[k]);
        } else {
            assert(before[index] == start[origin[index]]);
        }
    }
    assert forall|k: int| index + 1 <= k < after.len() implies #[trigger] after[k]
        == start[origin[k]] by {
        assert(after[k] == before[k]);
    }
}

/// When all clauses have been gone through, the formula is the formula of
/// the start after `lit` was made true.
proof fn lemma_kept(start: Seq<Seq<Lit>>, after: Seq<Seq<Lit>>, origin: Seq<int>, lit: Lit)
    requires
        progress(start, after, origin, after.len() as int, lit),
    ensures
        kept(start, after, origin, lit),
        forall|k: int| 0 <= k < after.len() ==> has_source(start, #[trigger] after[k], lit),
        forall|c: int|
            0 <= c < start.len() && !(#[trigger] start[c]).contains(lit) ==> has_image(
                after,
                0,
                after.len() as int,
                start[c],
                lit,
            ),
{
    assert forall|k: int| 0 <= k < after.len() implies has_source(
        start,
        #[trigger] after[k],
        lit,
    ) by {
        assert(cleaned(start[origin[k]], after[k], lit));
    }
    assert forall|c: int|
        0 <= c < start.len() && !(#[trigger] start[c]).contains(lit) implies has_image(
        after,
        0,
        after.len() as int,
        start[c],
        lit,
    ) by {
        assert(origin.contains(c));
        let k = choose|k: int| 0 <= k < origin.len() && origin[k] == c;
        assert(cleaned(start[origin[k]], after[k], lit));
    }
}

} // verus!

use crate::all_types::{
    clause_in_range, formula_in_range, BoolValue, CAllClauses, CClause, Cnf, Lit, Var, MAX_VARS,
};
use crate::logic::{clause_holds, completion, is_model, lit_holds, satisfiable, satisfies};
use crate::measure::sum;
use crate::solver::Solver;
use std::collections::HashSet;
use vstd::prelude::*;

verus! {

broadcast use vstd::std_specs::hash::group_hash_axioms;

/// A clause is a Horn clause if at most one of its literals is positive.
pub open spec fn horn_clause(c: Seq<Lit>) -> bool {
    forall|i: int, j: int|
        0 <= i < j < c.len() ==> (#[trigger] c[i]).negated() || (#[trigger] c[j]).negated()
}

/// A formula is a Horn formula if each of its clauses is a Horn clause.
pub open spec fn horn(f: Seq<Seq<Lit>>) -> bool {
    forall|k: int| 0 <= k < f.len() ==> horn_clause(#[trigger] f[k])
}

/// Whether every clause of the formula has at most one positive literal.
pub fn is_khorn(cnf: &Cnf) -> (b: bool)
    ensures
        b == horn(cnf.formula()),
{
    let mut k: usize = 0;
    while k < cnf.clauses.len()
        invariant
            k <= cnf.clauses@.len(),
            forall|q: int| 0 <= q < k ==> horn_clause(#[trigger] cnf.formula()[q]),
        decreases cnf.clauses@.len() - k,
    {
        let clause = &cnf.clauses[k];
        assert(cnf.formula()[k as int] == clause@);
        let mut seen_pos = false;
        let ghost mut at: int = 0;
        let mut i: usize = 0;
        while i < clause.len()
            invariant
                i <= clause@.len(),
                k < cnf.clauses@.len(),
                cnf.formula()[k as int] == clause@,
                seen_pos ==> 0 <= at < i && !clause@[at].negated(),
                !seen_pos ==> forall|j: int| 0 <= j < i ==> (#[trigger] clause@[j]).negated(),
                forall|a: int, b: int|
                    0 <= a < b < i ==> (#[trigger] clause@[a]).negated() || (
                    #[trigger] clause@[b]).negated(),
            decreases clause@.len() - i,
        {
            if clause[i].is_pos() {
                if seen_pos {
                    assert(!horn_clause(cnf.formula()[k as int])) by {
                        assert(!clause@[at].negated() && !clause@[i as int].negated());
                    }
                    return false;
                } else {
                    seen_pos = true;
                    proof {
                        at = i as int;
                    }
                }
            }
            i += 1;
        }
        k += 1;
    }
    true
}

/// Whether the clause holds the negation of variable `u`.
pub open spec fn has_neg(c: Seq<Lit>, u: int) -> bool {
    exists|i: int| 0 <= i < c.len() && (#[trigger] c[i]).negated() && c[i].var_id() == u
}

/// The variables that `c` negates and that are not marked in `assigned`.
pub open spec fn open_vars(c: Seq<Lit>, assigned: Seq<bool>) -> Set<int> {
    Set::new(|u: int| 0 <= u < assigned.len() && has_neg(c, u) && !assigned[u])
}

/// Whether `k` is among the first `upto` entries of `s`.
spec fn among(s: Seq<&usize>, upto: int, k: int) -> bool {
    exists|j: int| 0 <= j < upto && j < s.len() && *(#[trigger] s[j]) == k
}

/// The open variables of a clause are finitely many: no more than there
/// are variables.
proof fn lemma_open_vars_finite(c: Seq<Lit>, assigned: Seq<bool>)
    ensures
        open_vars(c, assigned).finite(),
        open_vars(c, assigned).len() <= assigned.len(),
{
    let all = vstd::set_lib::set_int_range(0, assigned.len() as int);
    vstd::set_lib::lemma_int_range(0, assigned.len() as int);
    assert(open_vars(c, assigned).subset_of(all));
    vstd::set_lib::lemma_len_subset(open_vars(c, assigned), all);
}

/// One more literal of a clause adds its variable to those that the clause
/// negates, if the literal is negative.
proof fn lemma_has_neg_step(c: Seq<Lit>, i: int, u: int)
    requires
        0 <= i < c.len(),
    ensures
        has_neg(c.take(i + 1), u) == (has_neg(c.take(i), u) || (c[i].negated() && c[i].var_id()
            == u)),
{
    let short = c.take(i);
    let long = c.take(i + 1);
    if has_neg(long, u) {
        let j = choose|j: int|
            0 <= j < long.len() && (#[trigger] long[j]).negated() && long[j].var_id() == u;
        if j < i {
            assert(short[j] == long[j]);
        }
    }
    if has_neg(short, u) {
        let j = choose|j: int|
            0 <= j < short.len() && (#[trigger] short[j]).negated() && short[j].var_id() == u;
        assert(long[j] == short[j]);
    }
    if c[i].negated() && c[i].var_id() == u {
        assert(long[i] == c[i]);
    }
}

/// One more literal of a clause adds one to the number of its open
/// variables if it is negative, on a variable that is not marked, and the
/// first such literal on that variable.
proof fn lemma_open_vars_step(c: Seq<Lit>, i: int, assigned: Seq<bool>)
    requires
        0 <= i < c.len(),
        c[i].var_id() < assigned.len(),
    ensures
        open_vars(c.take(i + 1), assigned).len() == open_vars(c.take(i), assigned).len() + if c[i].negated()
            && !assigned[c[i].var_id()] && !has_neg(c.take(i), c[i].var_id()) {
            1int
        } else {
            0int
        },
{
    let short = open_vars(c.take(i), assigned);
    let long = open_vars(c.take(i + 1), assigned);
    let v = c[i].var_id();
    c[i].lemma_var_range();
    lemma_open_vars_finite(c.take(i), assigned);
    assert forall|u: int|
        has_neg(c.take(i + 1), u) == (has_neg(c.take(i), u) || (c[i].negated() && c[i].var_id()
            == u)) by {
        lemma_has_neg_step(c, i, u);
    }
    if c[i].negated() && !assigned[v] {
        assert forall|u: int| long.contains(u) == short.insert(v).contains(u) by {
            lemma_has_neg_step(c, i, u);
        }
        assert(long =~= short.insert(v));
        assert(short.contains(v) == has_neg(c.take(i), v));
    } else {
        assert forall|u: int| long.contains(u) == short.contains(u) by {
            lemma_has_neg_step(c, i, u);
        }
        assert(long =~= short);
    }
}

/// A clause without literals has no open variable.
proof fn lemma_open_vars_empty(c: Seq<Lit>, assigned: Seq<bool>)
    requires
        c.len() == 0,
    ensures
        open_vars(c, assigned).len() == 0,
{
    assert(open_vars(c, assigned) =~= Set::empty());
}

/// Marking one more variable takes it out of the open variables of the
/// clauses that negate it.
proof fn lemma_open_vars_marked(c: Seq<Lit>, assigned: Seq<bool>, v: int)
    requires
        0 <= v < assigned.len(),
        !assigned[v],
    ensures
        open_vars(c, assigned).len() == open_vars(c, assigned.update(v, true)).len() + if has_neg(
            c,
            v,
        ) {
            1int
        } else {
            0int
        },
{
    lemma_open_vars_finite(c, assigned);
    assert(open_vars(c, assigned.update(v, true)) =~= open_vars(c, assigned).remove(v));
    assert(open_vars(c, assigned).contains(v) == has_neg(c, v));
}

/// A clause without open variables has each of its negative literals on a
/// marked variable.
proof fn lemma_open_none(c: Seq<Lit>, assigned: Seq<bool>, i: int)
    requires
        open_vars(c, assigned).len() == 0,
        0 <= i < c.len(),
        c[i].negated(),
        c[i].var_id() < assigned.len(),
    ensures
        assigned[c[i].var_id()],
{
    c[i].lemma_var_range();
    lemma_open_vars_finite(c, assigned);
    if !assigned[c[i].var_id()] {
        assert(has_neg(c, c[i].var_id()));
        assert(open_vars(c, assigned).contains(c[i].var_id()));
    }
}

/// A clause with an open variable has a negative literal on a variable that
/// is not marked.
proof fn lemma_open_witness(c: Seq<Lit>, assigned: Seq<bool>) -> (i: int)
    requires
        open_vars(c, assigned).len() > 0,
    ensures
        0 <= i < c.len(),
        c[i].negated(),
        0 <= c[i].var_id() < assigned.len(),
        !assigned[c[i].var_id()],
{
    lemma_open_vars_finite(c, assigned);
    let u = open_vars(c, assigned).choose();
    assert(open_vars(c, assigned).contains(u));
    choose|i: int| 0 <= i < c.len() && (#[trigger] c[i]).negated() && c[i].var_id() == u
}

/// A solver for Horn formulas: formulas in which every clause has at most one
/// positive literal. It takes time linear in the size of the formula.
pub struct KhornSolver<'a> {
    num_var: usize,
    formula: CAllClauses<'a>,
    status: Option<bool>,
    assigned_pos: HashSet<u32>,
    assigns: Vec<BoolValue>,
    input: Ghost<Seq<Seq<Lit>>>,
}

/// The variable recorded with a clause is that of its first positive literal.
pub open spec fn pos_of(c: Seq<Lit>, pos: Option<Var>) -> bool {
    match pos {
        Some(v) => exists|i: int|
            0 <= i < c.len() && !(#[trigger] c[i]).negated() && c[i].var_id() == v.id() && forall|
                j: int,
            | 0 <= j < i ==> (#[trigger] c[j]).negated(),
        None => forall|i: int| 0 <= i < c.len() ==> (#[trigger] c[i]).negated(),
    }
}

/// The assignment that marks stand for: a marked variable is true, any other false.
pub open spec fn values_of_marks(assigned: Seq<bool>) -> Seq<BoolValue> {
    Seq::new(
        assigned.len(),
        |v: int|
            if assigned[v] {
                BoolValue::True
            } else {
                BoolValue::False
            },
    )
}

/// Every marked variable is true in every model of the formula.
pub open spec fn marks_forced(assigned: Seq<bool>, f: Seq<Seq<Lit>>) -> bool {
    forall|m: Seq<bool>, v: int|
        #[trigger] is_model(m, assigned.len() as int, f) && 0 <= v < assigned.len()
            && #[trigger] assigned[v] ==> m[v]
}

impl<'a> KhornSolver<'a> {
    /// The number of variables.
    pub closed spec fn num_vars(&self) -> int {
        self.num_var as int
    }

    /// The clauses that the solver was given.
    pub closed spec fn formula(&self) -> Seq<Seq<Lit>> {
        self.input@
    }

    /// The variables found to be true in every model, so far.
    pub closed spec fn marks(&self) -> Seq<bool> {
        Seq::new(self.num_var as nat, |v: int| self.assigned_pos@.contains(v as u32))
    }

    /// The value that the solver reports for each variable.
    pub open spec fn values(&self) -> Seq<BoolValue> {
        values_of_marks(self.marks())
    }

    /// The verdict that the solver was made with: `Some(false)` if the
    /// formula holds an empty clause, else none.
    pub closed spec fn verdict(&self) -> Option<bool> {
        self.status
    }

    /// The clauses that the solver works on, as it holds them.
    spec fn held(&self) -> Seq<CClause<'a>> {
        self.formula.clauses@
    }

    /// The solver is in a state in which its operations may be called.
    pub closed spec fn inv(&self) -> bool {
        &&& self.num_var <= MAX_VARS
        &&& self.assigns@.len() == self.num_var
        &&& formula_in_range(self.input@, self.num_var as int)
        &&& marks_forced(self.marks(), self.input@) || !horn(self.input@)
        &&& match self.status {
            Some(true) => satisfies(self.values(), self.input@),
            Some(false) => !satisfiable(self.num_var as int, self.input@),
            None => {
                &&& self.held().len() == self.input@.len()
                &&& forall|k: int|
                    0 <= k < self.held().len() ==> (#[trigger] self.held()[k]).lits()
                        == self.input@[k] && pos_of(self.held()[k].lits(), self.held()[k].positive())
            },
        }
    }

    /// The solver marks no variable of a Horn formula but such as are true in
    /// every model: the assignment that it reports is the least model.
    pub proof fn lemma_marks_forced(&self)
        requires
            self.inv(),
            horn(self.formula()),
        ensures
            marks_forced(self.marks(), self.formula()),
    {
    }

    /// Marks the variables that every model makes true: starting from the
    /// clauses without negative literals, a clause all of whose negative
    /// literals are on marked variables has its positive literal's variable
    /// marked. Returns `false` if such a clause has no positive literal.
    fn linear_solve(&mut self) -> (sat: bool)
        requires
            old(self).inv(),
            old(self).status is None,
        ensures
            final(self).inv(),
            final(self).num_vars() == old(self).num_vars(),
            final(self).formula() == old(self).formula(),
            final(self).status is None,
            sat ==> satisfies(final(self).values(), final(self).formula()),
            !sat && horn(final(self).formula()) ==> !satisfiable(
                final(self).num_vars(),
                final(self).formula(),
            ),
    {
        let n = self.num_var;
        let m = self.formula.clauses.len();
        let ghost f = self.input@;
        let ghost none_marked = Seq::new(n as nat, |v: int| false);
        // score[k]: the number of variables that clause k negates and that are not yet marked
        let mut score: Vec<usize> = Vec::new();
        // clauses_with_negvar[v]: the clauses that hold the negation of v
        let mut clauses_with_negvar: Vec<HashSet<usize>> = Vec::new();
        let mut v: usize = 0;
        while v < n
            invariant
                v <= n,
                clauses_with_negvar@.len() == v,
                forall|u: int, q: usize|
                    0 <= u < v ==> !(#[trigger] clauses_with_negvar@[u]@.contains(q)),
            decreases n - v,
        {
            clauses_with_negvar.push(HashSet::new());
            v += 1;
        }
        let mut k: usize = 0;
        while k < m
            invariant
                k <= m,
                m == self.held().len(),
                n == self.num_var,
                f == self.input@,
                self.inv(),
                self.status is None,
                self.marks() == old(self).marks(),
                none_marked.len() == n,
                forall|u: int| 0 <= u < n ==> !(#[trigger] none_marked[u]),
                score@.len() == k,
                clauses_with_negvar@.len() == n,
                forall|q: int|
                    0 <= q < k ==> #[trigger] score@[q] == open_vars(f[q], none_marked).len(),
                forall|u: int, q: usize|
                    0 <= u < n ==> (#[trigger] clauses_with_negvar@[u]@.contains(q) <==> q < k
                        && has_neg(f[q as int], u)),
            decreases m - k,
        {
            let ghost c = f[k as int];
            assert(self.held()[k as int].lits() == c);
            assert(clause_in_range(c, n as int));
            let len = self.formula.clauses[k].len();
            let mut scorek: usize = 0;
            let mut i: usize = 0;
            proof {
                lemma_open_vars_empty(c.take(0), none_marked);
                assert forall|u: int| !has_neg(c.take(0), u) by {}
            }
            while i < len
                invariant
                    i <= len,
                    len == c.len(),
                    k < m,
                    m == self.held().len(),
                    self.held()[k as int].lits() == c,
                    c == f[k as int],
                    clause_in_range(c, n as int),
                    scorek == open_vars(c.take(i as int), none_marked).len(),
                    scorek <= i,
                    none_marked.len() == n,
                    forall|u: int| 0 <= u < n ==> !(#[trigger] none_marked[u]),
                    clauses_with_negvar@.len() == n,
                    forall|u: int, q: usize|
                        0 <= u < n ==> (#[trigger] clauses_with_negvar@[u]@.contains(q) <==> (q < k
                            && has_neg(f[q as int], u)) || (q == k && has_neg(
                            c.take(i as int),
                            u,
                        ))),
                decreases len - i,
            {
                let lit = self.formula.clauses[k].get(i);
                proof {
                    lit.lemma_var_range();
                    assert(lit == c[i as int]);
                    lemma_open_vars_step(c, i as int, none_marked);
                    assert forall|u: int|
                        has_neg(c.take(i + 1), u) == (has_neg(c.take(i as int), u) || (
                        lit.negated() && lit.var_id() == u)) by {
                        lemma_has_neg_step(c, i as int, u);
                    }
                }
                if lit.is_neg() {
                    let ghost before = clauses_with_negvar@;
                    let var: usize = lit.get_var().0 as usize;
                    let fresh = clauses_with_negvar[var].insert(k);
                    proof {
                        assert(before[var as int]@.contains(k) == has_neg(
                            c.take(i as int),
                            var as int,
                        ));
                        assert forall|u: int, q: usize| 0 <= u < n implies (
                        #[trigger] clauses_with_negvar@[u]@.contains(q) <==> (q < k && has_neg(
                            f[q as int],
                            u,
                        )) || (q == k && has_neg(c.take(i + 1), u))) by {
                            assert(before[u]@.contains(q) <==> (q < k && has_neg(f[q as int], u))
                                || (q == k && has_neg(c.take(i as int), u)));
                            if u != var {
                                assert(clauses_with_negvar@[u] == before[u]);
                            }
                        }
                    }
                    if fresh {
                        scorek += 1;
                    }
                }
                i += 1;
            }
            assert(c.take(len as int) =~= c);
            score.push(scorek);
            k += 1;
        }
        // top: the greatest score
        let mut top: usize = 0;
        let mut k: usize = 0;
        while k < m
            invariant
                k <= m,
                m == f.len(),
                score@.len() == m,
                none_marked.len() == n,
                top <= n,
                forall|q: int|
                    0 <= q < m ==> #[trigger] score@[q] == open_vars(f[q], none_marked).len(),
                forall|q: int| 0 <= q < k ==> #[trigger] score@[q] <= top,
            decreases m - k,
        {
            proof {
                lemma_open_vars_finite(f[k as int], none_marked);
            }
            if score[k] > top {
                top = score[k];
            }
            k += 1;
        }
        // pool[s]: the clauses with score s that have not been looked at yet
        let mut pool: Vec<HashSet<usize>> = Vec::new();
        let mut s: usize = 0;
        while s <= top
            invariant
                s <= top + 1,
                top <= n,
                n <= MAX_VARS,
                pool@.len() == s,
                forall|b: int, q: usize| 0 <= b < s ==> !(#[trigger] pool@[b]@.contains(q)),
            decreases top + 1 - s,
        {
            pool.push(HashSet::new());
            s += 1;
        }
        let mut k: usize = 0;
        while k < m
            invariant
                k <= m,
                score@.len() == m,
                pool@.len() == top + 1,
                forall|q: int| 0 <= q < m ==> #[trigger] score@[q] <= top,
                forall|b: int, q: usize|
                    0 <= b <= top ==> (#[trigger] pool@[b]@.contains(q) <==> q < k && score@[q as int]
                        == b),
            decreases m - k,
        {
            let ghost before = pool@;
            let bin: usize = score[k];
            pool[bin].insert(k);
            proof {
                assert forall|b: int, q: usize| 0 <= b <= top implies (
                #[trigger] pool@[b]@.contains(q) <==> q < k + 1 && score@[q as int] == b) by {
                    assert(before[b]@.contains(q) <==> q < k && score@[q as int] == b);
                    if b != bin {
                        assert(pool@[b] == before[b]);
                    }
                }
            }
            k += 1;
        }
        assert(none_marked =~= Seq::new(self.num_var as nat, |v: int| false));
        self.run_pool(score, clauses_with_negvar, pool)
    }


    /// Works through the clauses with score 0.
    fn run_pool(
        &mut self,
        score: Vec<usize>,
        clauses_with_negvar: Vec<HashSet<usize>>,
        pool: Vec<HashSet<usize>>,
    ) -> (sat: bool)
        requires
            old(self).inv(),
            old(self).status is None,
            score@.len() == old(self).held().len(),
            clauses_with_negvar@.len() == old(self).num_var,
            pool@.len() > 0,
            forall|q: int| 0 <= q < score@.len() ==> #[trigger] score@[q] < pool@.len(),
            forall|b: int, q: usize|
                0 <= b < pool@.len() ==> (#[trigger] pool@[b]@.contains(q) <==> q < score@.len()
                    && score@[q as int] == b),
            forall|q: int|
                0 <= q < score@.len() ==> #[trigger] score@[q] == open_vars(
                    old(self).input@[q],
                    Seq::new(old(self).num_var as nat, |v: int| false),
                ).len(),
            forall|u: int, q: usize|
                0 <= u < old(self).num_var ==> (#[trigger] clauses_with_negvar@[u]@.contains(q) <==> q
                    < score@.len() && has_neg(old(self).input@[q as int], u)),
        ensures
            final(self).inv(),
            final(self).num_vars() == old(self).num_vars(),
            final(self).formula() == old(self).formula(),
            final(self).status is None,
            sat ==> satisfies(final(self).values(), final(self).formula()),
            !sat && horn(final(self).formula()) ==> !satisfiable(
                final(self).num_vars(),
                final(self).formula(),
            ),
    {
        let mut score = score;
        let mut pool = pool;
        let n = self.num_var;
        let m = self.formula.clauses.len();
        let ghost f = self.input@;
        // start from no marks: a solver may be asked twice
        self.assigned_pos.clear();
        assert(self.marks() =~= Seq::new(n as nat, |v: int| false));
        let bins = pool.len();
        proof {
            lemma_work_nonneg(score@, pool@[0]@, m as int);
        }
        loop
            invariant
                n == self.num_var,
                n == old(self).num_var,
                m == self.held().len(),
                m == f.len(),
                f == self.input@,
                f == old(self).input@,
                self.status is None,
                self.formula == old(self).formula,
                n <= MAX_VARS,
                self.assigns@.len() == n,
                formula_in_range(f, n as int),
                forall|k: int|
                    0 <= k < self.held().len() ==> (#[trigger] self.held()[k]).lits() == f[k]
                        && pos_of(self.held()[k].lits(), self.held()[k].positive()),
                score@.len() == m,
                clauses_with_negvar@.len() == n,
                bins == pool@.len(),
                bins > 0,
                forall|q: int| 0 <= q < m ==> #[trigger] score@[q] < bins,
                forall|b: int, q: usize|
                    0 <= b < bins && #[trigger] pool@[b]@.contains(q) ==> q < m && score@[q as int]
                        == b,
                forall|q: int|
                    0 <= q < m ==> #[trigger] score@[q] == open_vars(f[q], self.marks()).len(),
                forall|u: int, q: usize|
                    0 <= u < n ==> (#[trigger] clauses_with_negvar@[u]@.contains(q) <==> q < m
                        && has_neg(f[q as int], u)),
                forall|q: int|
                    0 <= q < m && #[trigger] score@[q] == 0 ==> pool@[0]@.contains(q as usize)
                        || clause_holds(completion(values_of_marks(self.marks())), f[q]),
                horn(f) ==> marks_forced(self.marks(), f),
                work(score@, pool@[0]@, m as int) >= 0,
            decreases work(score@, pool@[0]@, m as int),
        {
            let ghost waiting = pool@[0]@;
            let ghost bins_before = pool@;
            let ghost marks_before = self.marks();
            let curr = match any_member(&pool[0]) {
                Some(curr) => curr,
                None => {
                    proof {
                        let a = values_of_marks(self.marks());
                        assert forall|q: int| 0 <= q < f.len() implies clause_holds(
                            completion(a),
                            #[trigger] f[q],
                        ) by {
                            if score@[q] > 0 {
                                let i = lemma_open_witness(f[q], self.marks());
                                assert(lit_holds(completion(a), f[q][i]));
                            } else {
                                assert(!pool@[0]@.contains(q as usize));
                            }
                        }
                    }
                    return true;
                },
            };
            assert(curr < m && score@[curr as int] == 0);
            pool[0].remove(&curr);
            let ghost pool_popped = pool@[0]@;
            proof {
                assert(pool_popped == waiting.remove(curr));
                assert(forall|b: int| 0 < b < bins ==> pool@[b] == bins_before[b]);
                assert forall|q: int| 0 <= q < m implies #[trigger] weight(score@, pool_popped, q)
                    <= weight(score@, waiting, q) by {}
                lemma_work_less(score@, pool_popped, score@, waiting, m as int, curr as int, 1);
                lemma_work_nonneg(score@, pool_popped, m as int);
                assert forall|q: int|
                    0 <= q < m && #[trigger] score@[q] == 0 && q != curr implies pool_popped.contains(
                    q as usize,
                ) || clause_holds(completion(values_of_marks(marks_before)), f[q]) by {
                    assert(waiting.contains(q as usize) || clause_holds(
                        completion(values_of_marks(marks_before)),
                        f[q],
                    ));
                }
            }
            let ghost c = f[curr as int];
            assert(self.held()[curr as int].lits() == c);
            assert(clause_in_range(c, n as int));
            let opt_v = self.formula.clauses[curr].get_pos();
            let var = match opt_v {
                None => {
                    proof {
                        if horn(f) {
                            assert forall|mm: Seq<bool>| !is_model(mm, n as int, f) by {
                                if is_model(mm, n as int, f) {
                                    let h = choose|h: int|
                                        0 <= h < c.len() && lit_holds(mm, #[trigger] c[h]);
                                    c[h].lemma_var_range();
                                    lemma_open_none(c, self.marks(), h);
                                    assert(self.marks()[c[h].var_id()]);
                                }
                            }
                        }
                    }
                    return false;
                },
                Some(var) => var,
            };
            let ghost at = choose|i: int|
                0 <= i < c.len() && !(#[trigger] c[i]).negated() && c[i].var_id() == var.id();
            proof {
                c[at].lemma_var_range();
            }
            let vi: usize = var.0 as usize;
            proof {
                assert(marks_before[vi as int] == self.assigned_pos@.contains(var.0));
            }
            if self.assigned_pos.contains(&var.0) {
                proof {
                    assert(lit_holds(completion(values_of_marks(self.marks())), c[at]));
                }
                continue ;
            }
            self.assigned_pos.insert(var.0);
            let ghost marks_after = self.marks();
            proof {
                assert(marks_after =~= marks_before.update(vi as int, true));
                assert(lit_holds(completion(values_of_marks(marks_after)), c[at]));
                // clauses that held before hold still
                assert forall|q: int|
                    0 <= q < m && clause_holds(
                        completion(values_of_marks(marks_before)),
                        f[q],
                    ) && score@[q] == 0 implies clause_holds(
                    completion(values_of_marks(marks_after)),
                    #[trigger] f[q],
                ) by {
                    let h = choose|h: int|
                        0 <= h < f[q].len() && lit_holds(
                            completion(values_of_marks(marks_before)),
                            #[trigger] f[q][h],
                        );
                    f[q][h].lemma_var_range();
                    assert(clause_in_range(f[q], n as int));
                    if f[q][h].negated() {
                        lemma_open_none(f[q], marks_before, h);
                    }
                    assert(lit_holds(completion(values_of_marks(marks_after)), f[q][h]));
                }
                if horn(f) {
                    assert forall|mm: Seq<bool>, u: int|
                        #[trigger] is_model(mm, n as int, f) && 0 <= u < n
                            && #[trigger] marks_after[u] implies mm[u] by {
                        if u == vi {
                            let h = choose|h: int|
                                0 <= h < c.len() && lit_holds(mm, #[trigger] c[h]);
                            c[h].lemma_var_range();
                            if c[h].negated() {
                                lemma_open_none(c, marks_before, h);
                                assert(marks_before[c[h].var_id()]);
                            } else if h != at {
                                assert(horn_clause(c));
                                if h < at {
                                    assert(c[h].negated() || c[at].negated());
                                } else {
                                    assert(c[at].negated() || c[h].negated());
                                }
                            }
                        } else {
                            assert(marks_before[u]);
                        }
                    }
                }
                assert forall|q: int| 0 <= q < m implies #[trigger] open_vars(
                    f[q],
                    marks_before,
                ).len() == open_vars(f[q], marks_after).len() + if has_neg(f[q], vi as int) {
                    1int
                } else {
                    0int
                } by {
                    lemma_open_vars_marked(f[q], marks_before, vi as int);
                }
            }
            let ghost score_before = score@;
            let ghost measure_before = work(score_before, pool_popped, m as int);
            let occ: &HashSet<usize> = &clauses_with_negvar[vi];
            let ghost mut done: Set<usize> = Set::empty();
            for entry in iter: occ.iter()
                invariant
                    vi < n,
                    score@.len() == m,
                    score_before.len() == m,
                    m == f.len(),
                    iter.seq().unref().to_set() == occ@,
                    iter.seq().no_duplicates(),
                    forall|q: usize|
                        #[trigger] occ@.contains(q) <==> q < m && has_neg(f[q as int], vi as int),
                    forall|q: usize|
                        #[trigger] done.contains(q) <==> among(
                            iter.seq(),
                            iter.index() as int,
                            q as int,
                        ),
                    iter.index() == iter.seq().len() ==> done == occ@,
                    forall|q: int|
                        0 <= q < m ==> #[trigger] score@[q] == if done.contains(q as usize) {
                            score_before[q] - 1
                        } else {
                            score_before[q] as int
                        },
                    forall|q: int|
                        0 <= q < m && has_neg(f[q], vi as int) ==> #[trigger] score_before[q] > 0,
                    bins == pool@.len(),
                    bins > 0,
                    forall|q: int| 0 <= q < m ==> #[trigger] score@[q] < bins,
                    forall|b: int, q: usize|
                        0 <= b < bins && #[trigger] pool@[b]@.contains(q) ==> q < m
                            && score@[q as int] == b,
                    forall|q: usize|
                        #[trigger] pool_popped.contains(q) ==> pool@[0]@.contains(q) && q < m
                            && score_before[q as int] == 0,
                    forall|q: int|
                        0 <= q < m && #[trigger] score@[q] == 0 ==> pool@[0]@.contains(q as usize)
                            || score_before[q] == 0,
                    work(score@, pool@[0]@, m as int) <= measure_before,
                    work(score@, pool@[0]@, m as int) >= 0,
            {
                let cl: usize = *entry;
                let ghost score_mid = score@;
                let ghost bins_mid = pool@;
                let ghost done_mid = done;
                proof {
                    let s = iter.seq();
                    let i = iter.index() as int;
                    assert(s[i] == entry);
                    assert(s.unref()[i] == cl);
                    assert(s.unref().to_set().contains(cl));
                    assert(!among(s, i, cl as int)) by {
                        if among(s, i, cl as int) {
                            let j = choose|j: int|
                                0 <= j < i && j < s.len() && *(#[trigger] s[j]) == cl;
                            assert(s[j] == s[i]);
                        }
                    }
                    assert(!done.contains(cl));
                    assert(occ@.contains(cl));
                    assert(score_mid[cl as int] == score_before[cl as int]);
                    assert(score_before[cl as int] > 0);
                }
                let from: usize = score[cl];
                pool[from].remove(&cl);
                let ghost bins_less = pool@;
                score[cl] = from - 1;
                pool[from - 1].insert(cl);
                proof {
                    done = done.insert(cl);
                }
                proof {
                    assert(bins_less[from as int]@ == bins_mid[from as int]@.remove(cl));
                    assert(forall|b: int|
                        0 <= b < bins && b != from ==> bins_less[b] == bins_mid[b]);
                    assert(pool@[from - 1]@ == bins_less[from - 1]@.insert(cl));
                    assert(forall|b: int| 0 <= b < bins && b != from - 1 ==> pool@[b] == bins_less[b]);
                    assert forall|b: int, q: usize|
                        0 <= b < bins && #[trigger] pool@[b]@.contains(q) implies q < m
                        && score@[q as int] == b by {
                        if q == cl {
                            if b != from - 1 {
                                assert(bins_less[b]@.contains(cl));
                                assert(bins_mid[b]@.contains(cl));
                            }
                        } else {
                            assert(bins_less[b]@.contains(q));
                            assert(bins_mid[b]@.contains(q));
                            assert(score@[q as int] == score_mid[q as int]);
                        }
                    }
                    assert forall|q: usize| #[trigger] pool_popped.contains(q) implies pool@[0]@.contains(
                        q,
                    ) && q < m && score_before[q as int] == 0 by {
                        assert(bins_mid[0]@.contains(q));
                        assert(bins_less[0]@.contains(q));
                    }
                    assert forall|q: int|
                        0 <= q < m && #[trigger] score@[q] == 0 implies pool@[0]@.contains(q as usize)
                        || score_before[q] == 0 by {
                        if q != cl {
                            assert(score_mid[q] == 0);
                            if bins_mid[0]@.contains(q as usize) {
                                assert(bins_less[0]@.contains(q as usize));
                            }
                        }
                    }
                    assert forall|q: int| 0 <= q < m implies #[trigger] weight(
                        score@,
                        pool@[0]@,
                        q,
                    ) <= weight(score_mid, bins_mid[0]@, q) by {
                        if q != cl {
                            assert(score@[q] == score_mid[q]);
                            assert(pool@[0]@.contains(q as usize) == bins_less[0]@.contains(
                                q as usize,
                            ));
                            assert(bins_less[0]@.contains(q as usize) == bins_mid[0]@.contains(
                                q as usize,
                            ));
                        }
                    }
                    lemma_work_less(
                        score@,
                        pool@[0]@,
                        score_mid,
                        bins_mid[0]@,
                        m as int,
                        cl as int,
                        0,
                    );
                    lemma_work_nonneg(score@, pool@[0]@, m as int);
                    assert forall|q: int| 0 <= q < m implies #[trigger] score@[q] == if done.contains(
                        q as usize,
                    ) {
                        score_before[q] - 1
                    } else {
                        score_before[q] as int
                    } by {
                        if q != cl {
                            assert(score@[q] == score_mid[q]);
                            assert(done.contains(q as usize) == done_mid.contains(q as usize));
                        }
                    }
                    let s = iter.seq();
                    let i = iter.index() as int;
                    assert forall|q: usize| #[trigger] done.contains(q) <==> among(
                        s,
                        i + 1,
                        q as int,
                    ) by {
                        if among(s, i + 1, q as int) {
                            let j = choose|j: int|
                                0 <= j < i + 1 && j < s.len() && *(#[trigger] s[j]) == q;
                            if j < i {
                                assert(among(s, i, q as int));
                            }
                        }
                        if among(s, i, q as int) {
                            let j = choose|j: int|
                                0 <= j < i && j < s.len() && *(#[trigger] s[j]) == q;
                            assert(among(s, i + 1, q as int));
                        }
                        if q == cl {
                            assert(*s[i] == q);
                        }
                    }
                    assert(i + 1 == s.len() ==> done =~= occ@) by {
                        if i + 1 == s.len() {
                            assert forall|q: usize| occ@.contains(q) implies done.contains(q) by {
                                assert(s.unref().to_set().contains(q));
                                let j = choose|j: int| 0 <= j < s.unref().len() && s.unref()[j] == q;
                                assert(*s[j] == q);
                                assert(among(s, i + 1, q as int));
                            }
                            assert forall|q: usize| done.contains(q) implies occ@.contains(q) by {
                                assert(among(s, i + 1, q as int));
                                let j = choose|j: int|
                                    0 <= j < i + 1 && j < s.len() && *(#[trigger] s[j]) == q;
                                assert(s.unref()[j] == q);
                                assert(s.unref().to_set().contains(q));
                            }
                        }
                    }
                }
            }
            proof {
                assert(done == occ@);
                assert forall|q: int| 0 <= q < m implies #[trigger] score@[q] == open_vars(
                    f[q],
                    self.marks(),
                ).len() by {
                    assert(occ@.contains(q as usize) == has_neg(f[q], vi as int));
                    assert(score_before[q] == open_vars(f[q], marks_before).len());
                }
                assert forall|q: int|
                    0 <= q < m && #[trigger] score@[q] == 0 implies pool@[0]@.contains(q as usize)
                    || clause_holds(completion(values_of_marks(self.marks())), f[q]) by {
                    if !pool@[0]@.contains(q as usize) {
                        assert(score_before[q] == 0);
                        if q == curr {
                        } else {
                            assert(!pool_popped.contains(q as usize));
                            assert(clause_holds(completion(values_of_marks(marks_before)), f[q]));
                        }
                    }
                }
            }
        }
    }
}

/// What clause `q` adds to the work that is left: 2 while it has an open
/// variable, 1 while it waits to be looked at, nothing after that.
spec fn weight(score: Seq<usize>, waiting: Set<usize>, q: int) -> int {
    if score[q] > 0 {
        2
    } else if waiting.contains(q as usize) {
        1
    } else {
        0
    }
}

/// The work that is left on the first `m` clauses.
spec fn work(score: Seq<usize>, waiting: Set<usize>, m: int) -> int {
    sum(|q: int| weight(score, waiting, q), m)
}

/// The work that is left is not negative.
proof fn lemma_work_nonneg(score: Seq<usize>, waiting: Set<usize>, m: int)
    ensures
        work(score, waiting, m) >= 0,
    decreases m,
{
    if m > 0 {
        lemma_work_nonneg(score, waiting, m - 1);
    }
}

/// Where no clause weighs more than before, and one weighs less by `gap`,
/// the work that is left is less by `gap`.
proof fn lemma_work_less(
    score: Seq<usize>,
    waiting: Set<usize>,
    score_before: Seq<usize>,
    waiting_before: Set<usize>,
    m: int,
    at: int,
    gap: int,
)
    requires
        forall|q: int|
            0 <= q < m ==> #[trigger] weight(score, waiting, q) <= weight(
                score_before,
                waiting_before,
                q,
            ),
        0 <= at < m,
        weight(score, waiting, at) + gap <= weight(score_before, waiting_before, at),
    ensures
        work(score, waiting, m) + gap <= work(score_before, waiting_before, m),
{
    let new_weight = |q: int| weight(score, waiting, q);
    let old_weight = |q: int| weight(score_before, waiting_before, q);
    assert forall|q: int| 0 <= q < m implies #[trigger] new_weight(q) <= old_weight(q) by {
        assert(weight(score, waiting, q) <= weight(score_before, waiting_before, q));
    }
    crate::measure::lemma_sum_gap(new_weight, old_weight, m, at, gap);
}

/// Some member of the set, if it has one: the first in the order in which
/// the set is walked, of which nothing is known.
fn any_member(set: &HashSet<usize>) -> (r: Option<usize>)
    ensures
        match r {
            Some(k) => set@.contains(k),
            None => set@ == Set::<usize>::empty(),
        },
{
    for entry in iter: set.iter()
        invariant
            iter.seq().unref().to_set() == set@,
            iter.index() == 0,
    {
        proof {
            let s = iter.seq();
            assert(s[0] == entry);
            assert(s.unref()[0] == *entry);
            assert(s.unref().to_set().contains(*entry));
        }
        return Some(*entry);
    }
    assert(set@ =~= Set::empty());
    None
}

/// The variable of the first positive literal of a clause, if it has one.
pub fn first_positive(clause: &Vec<Lit>) -> (pos: Option<Var>)
    ensures
        pos_of(clause@, pos),
{
    let mut i: usize = 0;
    while i < clause.len()
        invariant
            i <= clause@.len(),
            forall|j: int| 0 <= j < i ==> (#[trigger] clause@[j]).negated(),
        decreases clause@.len() - i,
    {
        if clause[i].is_pos() {
            return Some(clause[i].get_var());
        }
        i += 1;
    }
    None
}

impl<'a> Solver<'a> for KhornSolver<'a> {
    open spec fn ready(&self) -> bool {
        self.inv()
    }

    open spec fn var_count(&self) -> int {
        self.num_vars()
    }

    open spec fn clauses(&self) -> Seq<Seq<Lit>> {
        self.formula()
    }

    open spec fn assignment(&self) -> Seq<BoolValue> {
        self.values()
    }

    open spec fn decides(n: int, f: Seq<Seq<Lit>>) -> bool {
        horn(f)
    }

    fn new<'b: 'a>(formula: &'b Cnf) -> (s: Self)
        ensures
            s.marks() == Seq::new(formula.var_num as nat, |v: int| false),
            s.verdict() == if crate::sat2::has_empty_clause(formula.formula()) {
                Some(false)
            } else {
                None
            },
    {
        let mut status: Option<bool> = None;
        let mut new_clauses: Vec<CClause<'a>> = Vec::new();
        let ghost f = formula.formula();
        let ghost mut empty_at: int = 0;
        let mut i: usize = 0;
        while i < formula.clauses.len()
            invariant
                i <= formula.clauses@.len(),
                f == formula.formula(),
                status is None || status == Some(false),
                status is None ==> new_clauses@.len() == i && forall|k: int|
                    0 <= k < i ==> (#[trigger] new_clauses@[k]).lits() == f[k] && pos_of(
                        new_clauses@[k].lits(),
                        new_clauses@[k].positive(),
                    ) && f[k].len() > 0,
                status == Some(false) ==> 0 <= empty_at < i && f[empty_at].len() == 0,
            decreases formula.clauses@.len() - i,
        {
            let clause = &formula.clauses[i];
            assert(f[i as int] == clause@);
            if clause.len() == 0 {
                status = Some(false);
                proof {
                    empty_at = i as int;
                }
            } else {
                new_clauses.push(CClause::new(clause, first_positive(clause)));
            }
            i += 1;
        }
        proof {
            if status == Some(false) {
                crate::logic::lemma_empty_clause_unsat(formula.var_num as int, f, empty_at);
                assert(f[empty_at].len() == 0);
            } else {
                assert forall|k: int| 0 <= k < f.len() implies (#[trigger] f[k]).len() != 0 by {
                    assert(new_clauses@[k].lits() == f[k]);
                }
            }
        }
        let assigned_pos: HashSet<u32> = HashSet::new();
        assert(Seq::new(formula.var_num as nat, |v: int| assigned_pos@.contains(v as u32))
            =~= Seq::new(formula.var_num as nat, |v: int| false));
        KhornSolver {
            num_var: formula.var_num,
            status,
            formula: CAllClauses::new(new_clauses),
            assigned_pos,
            assigns: vec![BoolValue::False; formula.var_num],
            input: Ghost(f),
        }
    }

    fn solve(&mut self) -> (sat: bool) {
        match self.status {
            Some(status) => {
                proof {
                    if status {
                        assert(is_model(
                            completion(self.values()),
                            self.num_vars(),
                            self.formula(),
                        ));
                        crate::logic::lemma_total_makes_true(self.values(), self.formula());
                    }
                }
                status
            },
            None => {
                let sat = self.linear_solve();
                proof {
                    if sat {
                        assert(is_model(
                            completion(self.values()),
                            self.num_vars(),
                            self.formula(),
                        ));
                        crate::logic::lemma_total_makes_true(self.values(), self.formula());
                    }
                }
                sat
            },
        }
    }

    fn assigns(&mut self) -> (a: &Vec<BoolValue>) {
        let mut v: usize = 0;
        while v < self.num_var
            invariant
                v <= self.num_var,
                self.inv(),
                self.num_var == old(self).num_var,
                self.input@ == old(self).input@,
                self.assigned_pos@ == old(self).assigned_pos@,
                forall|u: int| 0 <= u < v ==> #[trigger] self.assigns@[u] == self.values()[u],
            decreases self.num_var - v,
        {
            assert(self.marks()[v as int] == self.assigned_pos@.contains(v as u32));
            if self.assigned_pos.contains(&(v as u32)) {
                self.assigns[v] = BoolValue::True;
            } else {
                self.assigns[v] = BoolValue::False;
            }
            v += 1;
        }
        assert(self.assigns@ =~= self.values());
        &self.assigns
    }
}

} // verus!
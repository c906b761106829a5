use crate::all_types::{clauses_view, formula_in_range, BoolValue, Clause, Cnf, Lit};
use crate::logic::{
    clause_holds, completion, formula_holds, formula_value, is_model, lit_holds, makes_true,
    satisfiable, satisfies, total,
};
use crate::solver::Solver;
use vstd::prelude::*;

verus! {

/// A copy of a list of clauses.
pub fn copy_clauses(clauses: &Vec<Clause>) -> (copy: Vec<Clause>)
    ensures
        clauses_view(copy@) == clauses_view(clauses@),
{
    let mut copy: Vec<Clause> = Vec::new();
    let mut i: usize = 0;
    while i < clauses.len()
        invariant
            i <= clauses@.len(),
            copy@.len() == i,
            forall|k: int| 0 <= k < i ==> (#[trigger] copy@[k])@ == clauses@[k]@,
        decreases clauses@.len() - i,
    {
        let c = clauses[i].clone();
        assert(c@ =~= clauses@[i as int]@);
        copy.push(c);
        i += 1;
    }
    assert(clauses_view(copy@) =~= clauses_view(clauses@));
    copy
}

/// `m` gives each of the first `i` variables the value that `a` gives it.
pub open spec fn agrees_below(m: Seq<bool>, a: Seq<BoolValue>, i: int) -> bool {
    forall|v: int| 0 <= v < i ==> #[trigger] m[v] == (a[v] == BoolValue::True)
}

/// Some model of `f` on `n` variables gives each of the first `i` variables
/// the value that `a` gives it.
pub open spec fn extends_to_model(a: Seq<BoolValue>, n: int, i: int, f: Seq<Seq<Lit>>) -> bool {
    exists|m: Seq<bool>| #[trigger] is_model(m, n, f) && agrees_below(m, a, i)
}

/// Some model of `f` on `n` variables gives each variable before `v` the
/// value that `a` gives it, and makes variable `v` true.
pub open spec fn has_model_with(a: Seq<BoolValue>, n: int, v: int, f: Seq<Seq<Lit>>) -> bool {
    exists|m: Seq<bool>| #[trigger] is_model(m, n, f) && agrees_below(m, a, v) && m[v]
}

/// From variable `i` on, `a` is the first assignment in the order that
/// tries `true` before `false`: wherever it makes a variable false, no
/// model agrees with it on the variables before and makes that one true.
pub open spec fn first_from(a: Seq<BoolValue>, n: int, i: int, f: Seq<Seq<Lit>>) -> bool {
    forall|v: int|
        i <= v < n && #[trigger] a[v] == BoolValue::False ==> !has_model_with(a, n, v, f)
}

/// The simplest solver there is: it tries every assignment. It takes time
/// exponential in the number of variables, and serves to check the others.
pub struct TautoSolver {
    n: usize,
    clauses: Vec<Clause>,
    pub assigns: Vec<BoolValue>,
}

impl TautoSolver {
    /// The clauses of the formula.
    pub closed spec fn formula(&self) -> Seq<Seq<Lit>> {
        clauses_view(self.clauses@)
    }

    /// The value of each variable.
    pub closed spec fn values(&self) -> Seq<BoolValue> {
        self.assigns@
    }

    /// The number of variables.
    pub closed spec fn num_vars(&self) -> int {
        self.n as int
    }

    /// The solver is in a state in which its operations may be called.
    pub closed spec fn inv(&self) -> bool {
        &&& self.assigns@.len() == self.n
        &&& formula_in_range(self.formula(), self.n as int)
    }

    /// Whether every clause has a literal that is true under the assignment.
    pub fn eval(&self) -> (b: bool)
        requires
            self.inv(),
        ensures
            b == (formula_value(self.values(), self.formula()) == BoolValue::True),
            total(self.values()) ==> b == satisfies(self.values(), self.formula()),
    {
        let ghost a = self.assigns@;
        let ghost f = self.formula();
        let mut i: usize = 0;
        while i < self.clauses.len()
            invariant
                i <= self.clauses@.len(),
                self.inv(),
                a == self.assigns@,
                f == self.formula(),
                forall|k: int|
                    0 <= k < i ==> crate::logic::clause_value(a, #[trigger] f[k])
                        == BoolValue::True,
            decreases self.clauses@.len() - i,
        {
            let clause = &self.clauses[i];
            assert(f[i as int] == clause@);
            let mut satisfied = false;
            let mut j: usize = 0;
            while j < clause.len()
                invariant_except_break
                    !satisfied,
                    forall|k: int|
                        0 <= k < j ==> crate::logic::lit_value(a, #[trigger] clause@[k])
                            != BoolValue::True,
                invariant
                    j <= clause@.len(),
                    a == self.assigns@,
                    forall|k: int|
                        0 <= k < clause@.len() ==> (#[trigger] clause@[k]).var_id() < a.len(),
                ensures
                    satisfied == (crate::logic::clause_value(a, clause@) == BoolValue::True),
                decreases clause@.len() - j,
            {
                let lit = clause[j];
                proof {
                    lit.lemma_var_range();
                }
                match self.assigns[lit.get_var().0 as usize] {
                    BoolValue::True => {
                        if lit.is_pos() {
                            satisfied = true;
                            break ;
                        }
                    },
                    BoolValue::False => {
                        if lit.is_neg() {
                            satisfied = true;
                            break ;
                        }
                    },
                    _ => {},
                }
                j += 1;
            }
            if !satisfied {
                proof {
                    if total(a) {
                        crate::logic::lemma_total_clause_decided(a, clause@);
                        assert(!clause_holds(completion(a), f[i as int])) by {
                            if clause_holds(completion(a), clause@) {
                                let h = choose|h: int|
                                    0 <= h < clause@.len() && lit_holds(
                                        completion(a),
                                        #[trigger] clause@[h],
                                    );
                                assert(crate::logic::lit_value(a, clause@[h]) == BoolValue::False);
                                crate::logic::lemma_defined_lit(a, clause@[h]);
                            }
                        }
                    }
                }
                return false;
            }
            i += 1;
        }
        proof {
            crate::logic::lemma_true_formula_satisfied(a, f);
        }
        true
    }

    /// Tries both values of variable `i` and of every variable after it,
    /// `true` first, and stops at the first assignment that satisfies the
    /// formula. With a time allowed, it looks at the clock whenever the first
    /// value of a variable has failed, and gives up with `None` when more than
    /// that time has passed since `start`.
    pub fn ssolve(
        &mut self,
        i: usize,
        start: std::time::Instant,
        max_time: Option<std::time::Duration>,
    ) -> (r: Option<bool>)
        requires
            old(self).inv(),
            i <= old(self).num_vars(),
            forall|v: int| 0 <= v < i ==> #[trigger] old(self).values()[v] != BoolValue::Undefined,
        ensures
            final(self).inv(),
            final(self).num_vars() == old(self).num_vars(),
            final(self).formula() == old(self).formula(),
            final(self).values().len() == old(self).num_vars(),
            forall|v: int| 0 <= v < i ==> #[trigger] final(self).values()[v] == old(self).values()[v],
            r is None ==> max_time is Some,
            match r {
                Some(sat) => {
                    &&& sat == extends_to_model(
                        old(self).values(),
                        old(self).num_vars(),
                        i as int,
                        old(self).formula(),
                    )
                    &&& i == 0 ==> sat == satisfiable(old(self).num_vars(), old(self).formula())
                    &&& sat ==> total(final(self).values()) && satisfies(
                        final(self).values(),
                        final(self).formula(),
                    ) && makes_true(final(self).values(), final(self).formula()) && first_from(
                        final(self).values(),
                        old(self).num_vars(),
                        i as int,
                        old(self).formula(),
                    )
                },
                None => true,
            },
        decreases old(self).num_vars() - i,
    {
        let ghost f = self.formula();
        let ghost a0 = self.values();
        let ghost n = self.num_vars();
        proof {
            if satisfiable(n, f) {
                let m = choose|m: Seq<bool>| is_model(m, n, f);
                assert(agrees_below(m, a0, 0));
            }
        }
        if i == self.n {
            let b = self.eval();
            proof {
                if b {
                    assert(is_model(completion(a0), n, f));
                    assert(agrees_below(completion(a0), a0, i as int));
                    crate::logic::lemma_total_makes_true(a0, f);
                } else {
                    assert forall|m: Seq<bool>|
                        !(#[trigger] is_model(m, n, f) && agrees_below(m, a0, i as int)) by {
                        if is_model(m, n, f) && agrees_below(m, a0, i as int) {
                            assert(m =~= completion(a0));
                        }
                    }
                }
            }
            return Some(b);
        }
        self.assigns[i] = BoolValue::True;
        let ghost a1 = self.values();
        let first = self.ssolve(i + 1, start, max_time);
        let ghost after_first = self.values();
        proof {
            assert forall|v: int| 0 <= v < i + 1 implies after_first[v] == a1[v] by {}
        }
        let result = match first {
            Some(result) => result,
            None => {
                return None;
            },
        };
        if let Some(time) = max_time {
            if crate::clock::past_limit(start.elapsed().as_nanos(), time.as_nanos()) {
                return None;
            }
        }
        if result {
            proof {
                let m = choose|m: Seq<bool>| #[trigger]
                    is_model(m, n, f) && agrees_below(m, a1, i + 1);
                assert(is_model(m, n, f) && agrees_below(m, a0, i as int));
                assert(after_first[i as int] == BoolValue::True);
            }
            return Some(true);
        }
        self.assigns[i] = BoolValue::False;
        let ghost a2 = self.values();
        let second = self.ssolve(i + 1, start, max_time);
        proof {
            let a3 = self.values();
            assert forall|v: int| 0 <= v < i + 1 implies a3[v] == a2[v] by {}
            if second == Some(true) {
                let m = choose|m: Seq<bool>| #[trigger]
                    is_model(m, n, f) && agrees_below(m, a2, i + 1);
                assert(is_model(m, n, f) && agrees_below(m, a0, i as int));
                assert(!has_model_with(a3, n, i as int, f)) by {
                    if has_model_with(a3, n, i as int, f) {
                        let w = choose|w: Seq<bool>| #[trigger]
                            is_model(w, n, f) && agrees_below(w, a3, i as int) && w[i as int];
                        assert(is_model(w, n, f) && agrees_below(w, a1, i + 1));
                    }
                }
            } else if second == Some(false) {
                assert forall|m: Seq<bool>|
                    !(#[trigger] is_model(m, n, f) && agrees_below(m, a0, i as int)) by {
                    if is_model(m, n, f) && agrees_below(m, a0, i as int) {
                        if m[i as int] {
                            assert(is_model(m, n, f) && agrees_below(m, a1, i + 1));
                        } else {
                            assert(is_model(m, n, f) && agrees_below(m, a2, i + 1));
                        }
                    }
                }
            }
        }
        second
    }

    /// Decides whether the formula is satisfiable, within the time allowed
    /// if a time is given. Returns `None` if the time ran out before there
    /// was a verdict.
    pub fn solve_until(&mut self, max_time: Option<std::time::Duration>) -> (r: Option<bool>)
        requires
            old(self).inv(),
        ensures
            final(self).inv(),
            final(self).num_vars() == old(self).num_vars(),
            final(self).formula() == old(self).formula(),
            r is None ==> max_time is Some,
            match r {
                Some(sat) => {
                    &&& sat == satisfiable(old(self).num_vars(), old(self).formula())
                    &&& sat ==> satisfies(final(self).values(), old(self).formula())
                    &&& sat ==> makes_true(final(self).values(), old(self).formula())
                    &&& sat ==> total(final(self).values()) && first_from(
                        final(self).values(),
                        old(self).num_vars(),
                        0,
                        old(self).formula(),
                    )
                    &&& final(self).values().len() == old(self).num_vars()
                },
                None => true,
            },
    {
        self.ssolve(0, std::time::Instant::now(), max_time)
    }
}

impl<'a> Solver<'a> for TautoSolver {
    open spec fn ready(&self) -> bool {
        self.inv()
    }

    open spec fn var_count(&self) -> int {
        self.num_vars()
    }

    open spec fn clauses(&self) -> Seq<Seq<Lit>> {
        self.formula()
    }

    open spec fn assignment(&self) -> Seq<BoolValue> {
        self.values()
    }

    open spec fn decides(n: int, f: Seq<Seq<Lit>>) -> bool {
        true
    }

    fn new<'b: 'a>(cnf: &'b Cnf) -> (s: Self) {
        TautoSolver {
            n: cnf.var_num,
            clauses: copy_clauses(&cnf.clauses),
            assigns: vec![BoolValue::Undefined; cnf.var_num],
        }
    }

    fn solve(&mut self) -> (sat: bool) {
        self.solve_until(None).unwrap()
    }

    fn assigns(&mut self) -> (a: &Vec<BoolValue>) {
        &self.assigns
    }
}

} // verus!

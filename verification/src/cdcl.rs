use crate::all_types::{
    clause_in_range, formula_in_range, AllClauses, BoolValue, Clause, Cnf, Lit, Watcher,
};
use crate::logic::{
    clause_holds, clause_value, formula_holds, formula_value, is_model, is_unit, lit_holds,
    lit_value, makes_true, satisfiable, satisfies, unit_at,
};
use crate::measure::{extends, weight, weight_limit};
use crate::clock::out_of_time;
use crate::random::{random_below, seeded_below, seeded_rng};
use crate::solver::Solver;
use crate::working_model::{reasons_from, WorkingModel};
use vstd::prelude::*;

verus! {

/// The variables of the literals of a clause, in order.
pub open spec fn vars_of(c: Seq<Lit>) -> Seq<int> {
    Seq::new(c.len(), |j: int| c[j].var_id())
}

/// A solver that searches for a satisfying assignment by deciding variables,
/// propagating unit clauses, and learning a clause from each conflict.
pub struct CdclSolver {
    clauses: AllClauses,
    working_model: WorkingModel,
    pub status: Option<bool>,
    level: usize,
    watchers: Watcher,
    rand: rand::rngs::ThreadRng,
    seeded: Option<rand::rngs::StdRng>,
    input: Ghost<Seq<Seq<Lit>>>,
    decisions: Ghost<Seq<int>>,
}

impl CdclSolver {
    /// The number of variables of the formula.
    pub closed spec fn num_vars(&self) -> int {
        self.working_model.num_vars()
    }

    /// The clauses that the solver was given.
    pub closed spec fn formula(&self) -> Seq<Seq<Lit>> {
        self.input@
    }

    /// The assignment, values, levels and reasons, that the solver works on.
    pub closed spec fn model(&self) -> WorkingModel {
        self.working_model
    }

    /// The value of each variable.
    pub open spec fn values(&self) -> Seq<BoolValue> {
        self.model().values()
    }

    /// The verdict, once there is one: `Some(true)` for satisfiable.
    pub closed spec fn verdict(&self) -> Option<bool> {
        self.status
    }

    /// The current decision level.
    pub closed spec fn current_level(&self) -> int {
        self.level as int
    }

    /// The variables that were decided, by level: the first at level 1.
    pub closed spec fn decided(&self) -> Seq<int> {
        self.decisions@
    }

    /// The stored clauses: those given with two literals or more, and those learned.
    pub closed spec fn store(&self) -> Seq<Seq<Lit>> {
        self.clauses.formula()
    }

    /// The parts of the solver fit together.
    pub closed spec fn structural(&self) -> bool {
        let n = self.num_vars();
        &&& self.working_model.wf()
        &&& self.working_model.queue_covers()
        &&& formula_in_range(self.store(), n)
        &&& forall|i: int| 0 <= i < self.store().len() ==> (#[trigger] self.store()[i]).len() >= 2
        &&& self.watchers.num_lits() == 2 * n
        &&& formula_in_range(self.input@, n)
        &&& self.decisions@.len() <= self.level <= self.decisions@.len() + 1
        &&& self.level <= n + 1
    }

    /// `m` gives every variable assigned at level 0 the value that the solver gives it.
    pub open spec fn agrees_at_root(&self, m: Seq<bool>) -> bool {
        forall|v: int|
            0 <= v < self.num_vars() && #[trigger] self.model().value_of(v) != BoolValue::Undefined
                && self.model().level_of(v) == 0 ==> m[v] == (self.model().value_of(v)
                == BoolValue::True)
    }

    /// What holds of every model of the formula: it makes every stored clause
    /// true, agrees with the assignments at level 0, and respects the
    /// implication graph.
    pub open spec fn entailed(&self, m: Seq<bool>) -> bool {
        &&& formula_holds(m, self.store())
        &&& self.agrees_at_root(m)
        &&& self.model().respected_by(m)
    }

    /// Every decided variable has a value, the level at which it was decided,
    /// and no reasons.
    pub open spec fn decisions_stand(&self) -> bool {
        forall|k: int|
            0 <= k < self.decided().len() ==> {
                let d = #[trigger] self.decided()[k];
                &&& 0 <= d < self.num_vars()
                &&& self.model().value_of(d) != BoolValue::Undefined
                &&& self.model().level_of(d) == k + 1
                &&& self.model().reasons(d).len() == 0
            }
    }

    /// A variable with a value, a level above 0 and no reasons is the variable
    /// decided at that level.
    pub open spec fn roots_are_decisions(&self) -> bool {
        forall|v: int|
            0 <= v < self.num_vars() && #[trigger] self.model().value_of(v) != BoolValue::Undefined
                && self.model().level_of(v) >= 1 && self.model().reasons(v).len() == 0
                ==> self.model().level_of(v) <= self.decided().len() && self.decided()[self.model().level_of(
                v,
            ) - 1] == v
    }

    /// No variable has a level above the number of decisions.
    pub open spec fn levels_bounded(&self) -> bool {
        forall|v: int|
            0 <= v < self.num_vars() ==> #[trigger] self.model().level_of(v)
                <= self.decided().len()
    }

    /// What holds at every step of a search.
    pub open spec fn search_inv(&self) -> bool {
        &&& self.levels_bounded()
        &&& self.decisions_stand()
        &&& self.roots_are_decisions()
        &&& forall|m: Seq<bool>| #[trigger]
            is_model(m, self.num_vars(), self.formula()) ==> self.entailed(m)
    }

    /// Clause `c` is accounted for: a unit clause by its literal, true at
    /// level 0, a longer clause by being stored.
    pub open spec fn covered(&self, c: Seq<Lit>) -> bool {
        &&& c.len() >= 1
        &&& c.len() == 1 ==> lit_value(self.values(), c[0]) == BoolValue::True
            && self.model().level_of(c[0].var_id()) == 0
        &&& c.len() >= 2 ==> exists|j: int|
            0 <= j < self.store().len() && #[trigger] self.store()[j] == c
    }

    /// Every clause that the solver was given is accounted for.
    pub open spec fn all_covered(&self) -> bool {
        forall|i: int| 0 <= i < self.formula().len() ==> self.covered(#[trigger] self.formula()[i])
    }

    /// The solver is in a state in which its operations may be called.
    pub closed spec fn inv(&self) -> bool {
        &&& self.structural()
        &&& self.search_inv()
        &&& match self.status {
            None => self.level == 0 && self.all_covered(),
            Some(true) => makes_true(self.values(), self.formula()),
            Some(false) => self.level == 0 && !satisfiable(self.num_vars(), self.formula()),
        }
    }

    /// Two states of a solver that differ at most in the queue of variables
    /// to decide and in the watch lists.
    spec fn same_search(&self, other: &CdclSolver) -> bool {
        &&& self.working_model.same_assignment(&other.working_model)
        &&& self.store() == other.store()
        &&& self.input@ == other.input@
        &&& self.decisions@ == other.decisions@
    }

    /// What holds at every step of a search depends on the assignment, the
    /// stored clauses, the given clauses and the decisions alone.
    proof fn lemma_same_search(&self, other: &CdclSolver)
        requires
            other.search_inv(),
            self.same_search(other),
        ensures
            self.search_inv(),
            other.all_covered() ==> self.all_covered(),
    {
        assert forall|k: int| 0 <= k < self.decided().len() implies {
            let d = #[trigger] self.decided()[k];
            &&& 0 <= d < self.num_vars()
            &&& self.model().value_of(d) != BoolValue::Undefined
            &&& self.model().level_of(d) == k + 1
            &&& self.model().reasons(d).len() == 0
        } by {
            let d = other.decided()[k];
        }
        assert forall|v: int|
            0 <= v < self.num_vars() && #[trigger] self.model().value_of(v) != BoolValue::Undefined
                && self.model().level_of(v) >= 1 && self.model().reasons(v).len()
                == 0 implies self.model().level_of(v) <= self.decided().len()
            && self.decided()[self.model().level_of(v) - 1] == v by {
            assert(other.model().value_of(v) != BoolValue::Undefined);
        }
        assert forall|v: int| 0 <= v < self.num_vars() implies #[trigger] self.model().level_of(v)
            <= self.decided().len() by {
            assert(other.model().level_of(v) <= other.decided().len());
        }
        assert forall|m: Seq<bool>| #[trigger]
            is_model(m, self.num_vars(), self.formula()) implies self.entailed(m) by {
            assert(is_model(m, other.num_vars(), other.formula()));
            assert(other.entailed(m));
            assert forall|v: int|
                0 <= v < self.num_vars() && #[trigger] self.model().value_of(v)
                    != BoolValue::Undefined && self.model().level_of(v) == 0 implies m[v] == (
            self.model().value_of(v) == BoolValue::True) by {
                assert(other.model().value_of(v) != BoolValue::Undefined);
            }
            assert forall|v: int|
                0 <= v < self.model().num_vars() && (#[trigger] self.model().reasons(v)).len() > 0
                    && (forall|j: int|
                    0 <= j < self.model().reasons(v).len() ==> lit_holds(
                        m,
                        #[trigger] self.model().reasons(v)[j],
                    )) implies m[v] == (self.model().value_of(v) == BoolValue::True) by {
                assert(other.model().reasons(v).len() > 0);
            }
        }
        if other.all_covered() {
            assert forall|i: int| 0 <= i < self.formula().len() implies self.covered(
                #[trigger] self.formula()[i],
            ) by {
                assert(other.covered(other.formula()[i]));
            }
        }
    }

    /// The watches of a clause as the two-watched-literals scheme picks them.
    fn pick_watches(&self, clause: &Clause) -> (w: (Lit, Lit))
        requires
            self.working_model.wf(),
            clause@.len() >= 2,
            clause_in_range(clause@, self.working_model.num_vars()),
        ensures
            clause@.contains(w.0),
            clause@.contains(w.1),
    {
        let mut pos1 = clause[0];
        let mut pos2 = clause[1];
        let mut seen_one = false;
        let mut i: usize = 0;
        while i < clause.len()
            invariant
                i <= clause@.len(),
                self.working_model.wf(),
                clause_in_range(clause@, self.working_model.num_vars()),
                clause@.contains(pos1),
                clause@.contains(pos2),
            decreases clause@.len() - i,
        {
            let lit = clause[i];
            match self.working_model.eval(lit) {
                BoolValue::Undefined => {
                    if seen_one {
                        pos2 = lit;
                    } else if self.working_model.eval(pos1) != BoolValue::True {
                        pos1 = lit;
                        seen_one = true
                    }
                },
                BoolValue::True => {
                    pos1 = lit;
                },
                _ => {},
            }
            i += 1;
        }
        (pos1, pos2)
    }

    /// Takes a clause in: a unit clause forces its literal and is not stored;
    /// a longer clause is stored and watched. The literal of a unit clause is
    /// forced at level 0 whatever the current level is: a unit clause that
    /// was learned above level 0 holds in every model of the formula, so its
    /// literal is not a consequence of the decisions made so far and stands
    /// through every later backtrack.
    fn insert_clause(&mut self, clause: Clause) -> (ok: bool)
        requires
            old(self).structural(),
            clause@.len() >= 1,
            clause_in_range(clause@, old(self).num_vars()),
        ensures
            final(self).structural(),
            final(self).num_vars() == old(self).num_vars(),
            final(self).input@ == old(self).input@,
            final(self).decisions@ == old(self).decisions@,
            final(self).level == old(self).level,
            final(self).working_model.all_reasons() == old(self).working_model.all_reasons(),
            final(self).working_model.queue() == old(self).working_model.queue(),
            ok || final(self).status == Some(false),
            ok ==> final(self).status == old(self).status,
            ok == !(clause@.len() == 1 && lit_value(old(self).values(), clause@[0])
                == BoolValue::False),
            clause@.len() == 1 ==> final(self).store() == old(self).store(),
            clause@.len() >= 2 ==> final(self).store() == old(self).store().push(clause@),
            if clause@.len() == 1 && lit_value(old(self).values(), clause@[0])
                == BoolValue::Undefined {
                &&& final(self).values() == old(self).values().update(
                    clause@[0].var_id(),
                    BoolValue::of_polarity(clause@[0].negated()),
                )
                &&& final(self).working_model.levels() == old(self).working_model.levels().update(
                    clause@[0].var_id(),
                    0,
                )
            } else {
                &&& final(self).values() == old(self).values()
                &&& final(self).working_model.levels() == old(self).working_model.levels()
            },
    {
        if clause.len() == 1 {
            let lit = clause[0];
            proof {
                lit.lemma_var_range();
            }
            match self.working_model.eval(lit) {
                BoolValue::False => {
                    self.status = Some(false);
                    return false;
                },
                BoolValue::Undefined => {
                    self.working_model.assign(
                        lit.get_var(),
                        BoolValue::from_polarity(lit.is_neg()),
                        0,
                    );
                    proof {
                        assert forall|v: int|
                            0 <= v < self.working_model.num_vars()
                                && #[trigger] self.working_model.value_of(v)
                                == BoolValue::Undefined implies self.working_model.queue().has(
                            v,
                        ) by {
                            assert(old(self).working_model.value_of(v) == BoolValue::Undefined);
                        }
                    }
                },
                BoolValue::True => {},
            }
        } else {
            let (pos1, pos2) = self.pick_watches(&clause);
            let at: usize = self.clauses.len();
            proof {
                let j1 = choose|j: int| 0 <= j < clause@.len() && clause@[j] == pos1;
                let j2 = choose|j: int| 0 <= j < clause@.len() && clause@[j] == pos2;
                assert(clause@[j1].var_id() < self.num_vars());
                assert(clause@[j2].var_id() < self.num_vars());
            }
            self.watchers.add(pos1, at);
            self.watchers.add(pos2, at);
            self.clauses.push(clause);
        }
        true
    }
}

impl CdclSolver {
    /// Propagating the literal that a stored unit clause forces keeps what
    /// holds at every step of a search.
    proof fn lemma_propagated(&self, pre: &CdclSolver, i: int, j: int)
        requires
            pre.structural(),
            pre.search_inv(),
            pre.level == pre.decisions@.len(),
            0 <= i < pre.store().len(),
            unit_at(pre.values(), pre.store()[i], j),
            self.num_vars() == pre.num_vars(),
            self.store() == pre.store(),
            self.input@ == pre.input@,
            self.decisions@ == pre.decisions@,
            self.level == pre.level,
            self.working_model.wf(),
            self.values() == pre.values().update(
                pre.store()[i][j].var_id(),
                BoolValue::of_polarity(pre.store()[i][j].negated()),
            ),
            self.working_model.levels() == pre.working_model.levels().update(
                pre.store()[i][j].var_id(),
                pre.level,
            ),
            self.working_model.all_reasons() == pre.working_model.all_reasons().update(
                pre.store()[i][j].var_id(),
                pre.working_model.reasons(pre.store()[i][j].var_id()) + reasons_from(
                    pre.store()[i],
                    pre.store()[i][j].var_id(),
                ),
            ),
        ensures
            self.search_inv(),
            pre.all_covered() ==> self.all_covered(),
    {
        let c = pre.store()[i];
        let l = c[j];
        let u = l.var_id();
        let n = pre.num_vars();
        l.lemma_var_range();
        assert(clause_in_range(c, n));
        assert(0 <= u < n);
        assert(pre.model().value_of(u) == BoolValue::Undefined);
        assert(pre.model().reasons(u).len() == 0);
        crate::working_model::lemma_reasons_from(c, u);
        let added = reasons_from(c, u);
        assert(self.model().reasons(u) =~= added);
        // some other literal of the clause gives a reason
        let other = if j == 0 {
            1int
        } else {
            0int
        };
        assert(lit_value(pre.values(), c[other]) == BoolValue::False);
        assert(c[other].var_id() != u);
        assert(added.contains(c[other].complement()));
        assert(added.len() > 0);
        assert forall|v: int| 0 <= v < self.num_vars() implies #[trigger] self.model().level_of(v)
            <= self.decided().len() by {
            assert(pre.model().level_of(v) <= pre.decided().len());
        }
        assert forall|k: int| 0 <= k < self.decided().len() implies {
            let d = #[trigger] self.decided()[k];
            &&& 0 <= d < self.num_vars()
            &&& self.model().value_of(d) != BoolValue::Undefined
            &&& self.model().level_of(d) == k + 1
            &&& self.model().reasons(d).len() == 0
        } by {
            let d = pre.decided()[k];
            assert(d != u);
        }
        assert forall|v: int|
            0 <= v < self.num_vars() && #[trigger] self.model().value_of(v) != BoolValue::Undefined
                && self.model().level_of(v) >= 1 && self.model().reasons(v).len()
                == 0 implies self.model().level_of(v) <= self.decided().len()
            && self.decided()[self.model().level_of(v) - 1] == v by {
            if v != u {
                assert(pre.model().value_of(v) != BoolValue::Undefined);
            }
        }
        assert forall|m: Seq<bool>| #[trigger]
            is_model(m, self.num_vars(), self.formula()) implies self.entailed(m) by {
            assert(is_model(m, pre.num_vars(), pre.formula()));
            assert(pre.entailed(m));
            assert(clause_holds(m, c));
            let h = choose|h: int| 0 <= h < c.len() && lit_holds(m, #[trigger] c[h]);
            assert forall|v: int|
                0 <= v < self.num_vars() && #[trigger] self.model().value_of(v)
                    != BoolValue::Undefined && self.model().level_of(v) == 0 implies m[v] == (
            self.model().value_of(v) == BoolValue::True) by {
                if v != u {
                    assert(pre.model().value_of(v) != BoolValue::Undefined);
                } else {
                    // the level is 0, so every other literal is false at level 0
                    if h != j {
                        assert(lit_value(pre.values(), c[h]) == BoolValue::False);
                        c[h].lemma_var_range();
                        assert(pre.model().value_of(c[h].var_id()) != BoolValue::Undefined);
                        assert(pre.model().level_of(c[h].var_id()) <= 0);
                    }
                }
            }
            assert forall|v: int|
                0 <= v < self.model().num_vars() && (#[trigger] self.model().reasons(v)).len() > 0
                    && (forall|r: int|
                    0 <= r < self.model().reasons(v).len() ==> lit_holds(
                        m,
                        #[trigger] self.model().reasons(v)[r],
                    )) implies m[v] == (self.model().value_of(v) == BoolValue::True) by {
                if v != u {
                    assert(pre.model().reasons(v).len() > 0);
                    assert(pre.model().value_of(v) != BoolValue::Undefined);
                } else {
                    if h != j {
                        assert(lit_value(pre.values(), c[h]) == BoolValue::False);
                        assert(c[h].var_id() != u);
                        assert(added.contains(c[h].complement()));
                        let r = choose|r: int|
                            0 <= r < added.len() && added[r] == c[h].complement();
                        assert(lit_holds(m, self.model().reasons(v)[r]));
                        c[h].lemma_var_range();
                        crate::logic::lemma_complement_holds(m, c[h]);
                    }
                }
            }
        }
        if pre.all_covered() {
            assert forall|k: int| 0 <= k < self.formula().len() implies self.covered(
                #[trigger] self.formula()[k],
            ) by {
                let f = self.formula()[k];
                assert(pre.covered(pre.formula()[k]));
                if f.len() == 1 {
                    assert(lit_value(pre.values(), f[0]) == BoolValue::True);
                    f[0].lemma_var_range();
                    assert(f[0].var_id() != u);
                    assert(lit_value(self.values(), f[0]) == BoolValue::True);
                } else {
                    let w = choose|w: int| 0 <= w < pre.store().len() && #[trigger] pre.store()[w] == f;
                    assert(self.store()[w] == f);
                }
            }
        }
    }

    /// The reasons of variable `v` are those that some stored clause gives
    /// for it, and the literal of that clause on `v` is true.
    pub open spec fn forced_by_stored(&self, v: int) -> bool {
        exists|i: int, j: int|
            0 <= i < self.store().len() && 0 <= j < self.store()[i].len() && (
            #[trigger] self.store()[i][j]).var_id() == v && lit_value(
                self.values(),
                self.store()[i][j],
            ) == BoolValue::True && self.model().reasons(v) == reasons_from(self.store()[i], v)
    }

    /// On the way from `start` to here reasons were recorded for the
    /// variables that got a value and for no other: a variable that had a
    /// value has the reasons it had, and one that got a value has those
    /// that a stored clause gives for it.
    pub open spec fn reasons_recorded(&self, start: &CdclSolver) -> bool {
        &&& forall|v: int|
            0 <= v < start.num_vars() && start.values()[v] != BoolValue::Undefined
                ==> #[trigger] self.model().reasons(v) == start.model().reasons(v)
        &&& forall|v: int|
            0 <= v < start.num_vars() && start.values()[v] == BoolValue::Undefined
                && #[trigger] self.values()[v] != BoolValue::Undefined ==> self.forced_by_stored(v)
    }

    /// Forcing the literal of a unit clause, with the reasons that the
    /// clause gives, keeps the record of reasons.
    proof fn lemma_reasons_recorded(&self, pre: &CdclSolver, start: &CdclSolver, i: int, j: int)
        requires
            pre.reasons_recorded(start),
            pre.working_model.wf(),
            start.num_vars() == pre.num_vars(),
            start.values().len() == pre.num_vars(),
            forall|v: int|
                0 <= v < start.values().len() && #[trigger] start.values()[v]
                    != BoolValue::Undefined ==> pre.values()[v] == start.values()[v],
            self.store() == pre.store(),
            0 <= i < pre.store().len(),
            unit_at(pre.values(), pre.store()[i], j),
            pre.store()[i][j].var_id() < pre.num_vars(),
            self.values() == pre.values().update(
                pre.store()[i][j].var_id(),
                BoolValue::of_polarity(pre.store()[i][j].negated()),
            ),
            self.working_model.all_reasons() == pre.working_model.all_reasons().update(
                pre.store()[i][j].var_id(),
                pre.working_model.reasons(pre.store()[i][j].var_id()) + reasons_from(
                    pre.store()[i],
                    pre.store()[i][j].var_id(),
                ),
            ),
        ensures
            self.reasons_recorded(start),
    {
        let c = pre.store()[i];
        let u = c[j].var_id();
        c[j].lemma_var_range();
        assert(pre.model().value_of(u) == BoolValue::Undefined);
        assert(pre.model().reasons(u).len() == 0);
        assert(pre.model().reasons(u) + reasons_from(c, u) =~= reasons_from(c, u));
        assert(lit_value(self.values(), c[j]) == BoolValue::True);
        assert(self.forced_by_stored(u)) by {
            assert(self.store()[i][j].var_id() == u);
        }
        assert forall|v: int|
            0 <= v < start.num_vars() && start.values()[v]
                != BoolValue::Undefined implies #[trigger] self.model().reasons(v)
            == start.model().reasons(v) by {
            assert(pre.values()[v] == start.values()[v]);
            assert(v != u);
            assert(self.model().reasons(v) == pre.model().reasons(v));
        }
        assert forall|v: int|
            0 <= v < start.num_vars() && start.values()[v] == BoolValue::Undefined
                && #[trigger] self.values()[v] != BoolValue::Undefined implies self.forced_by_stored(
            v,
        ) by {
            if v != u {
                assert(pre.values()[v] != BoolValue::Undefined);
                assert(pre.forced_by_stored(v));
                let (a, b) = choose|a: int, b: int|
                    0 <= a < pre.store().len() && 0 <= b < pre.store()[a].len() && (
                    #[trigger] pre.store()[a][b]).var_id() == v && lit_value(
                        pre.values(),
                        pre.store()[a][b],
                    ) == BoolValue::True && pre.model().reasons(v) == reasons_from(
                        pre.store()[a],
                        v,
                    );
                assert(self.store()[a][b].var_id() == v);
                assert(lit_value(self.values(), self.store()[a][b]) == BoolValue::True);
            }
        }
    }

    /// Assigns the literal of every stored clause that is unit, with the
    /// other literals of the clause as its reasons, until no stored clause
    /// is unit. Reasons are recorded for the variables that get a value and
    /// for no other.
    fn propagate(&mut self)
        requires
            old(self).structural(),
            old(self).search_inv(),
            old(self).level == old(self).decisions@.len(),
        ensures
            final(self).structural(),
            final(self).search_inv(),
            final(self).orderly(),
            old(self).all_covered() ==> final(self).all_covered(),
            final(self).num_vars() == old(self).num_vars(),
            final(self).store() == old(self).store(),
            final(self).input@ == old(self).input@,
            final(self).decisions@ == old(self).decisions@,
            final(self).level == old(self).level,
            final(self).status == old(self).status,
            final(self).working_model.queue() == old(self).working_model.queue(),
            final(self).reasons_recorded(old(self)),
            extends(
                old(self).values(),
                old(self).working_model.levels(),
                final(self).values(),
                final(self).working_model.levels(),
            ),
            forall|v: int|
                0 <= v < old(self).num_vars() && old(self).values()[v] == BoolValue::Undefined
                    && #[trigger] final(self).values()[v] != BoolValue::Undefined
                    ==> final(self).working_model.levels()[v] == old(self).level,
            forall|i: int|
                0 <= i < final(self).store().len() ==> !is_unit(
                    final(self).values(),
                    #[trigger] final(self).store()[i],
                ),
    {
        let mut something_was_done: bool = true;
        let ghost n = self.num_vars();
        while something_was_done
            invariant
                self.structural(),
                self.search_inv(),
                old(self).all_covered() ==> self.all_covered(),
                n == self.num_vars(),
                n == old(self).num_vars(),
                self.store() == old(self).store(),
                self.input@ == old(self).input@,
                self.decisions@ == old(self).decisions@,
                self.level == old(self).level,
                self.level == self.decisions@.len(),
                self.status == old(self).status,
                self.working_model.queue() == old(self).working_model.queue(),
                self.reasons_recorded(old(self)),
                old(self).values().len() == n,
                old(self).working_model.levels().len() == n,
                extends(
                    old(self).values(),
                    old(self).working_model.levels(),
                    self.values(),
                    self.working_model.levels(),
                ),
                forall|v: int|
                    0 <= v < n && old(self).values()[v] == BoolValue::Undefined
                        && #[trigger] self.values()[v] != BoolValue::Undefined
                        ==> self.working_model.levels()[v] == old(self).level,
                !something_was_done ==> forall|i: int|
                    0 <= i < self.store().len() ==> !is_unit(
                        self.values(),
                        #[trigger] self.store()[i],
                    ),
            decreases
                    weight_limit(n) - weight(self.values(), self.working_model.levels()),
                    if something_was_done {
                        1int
                    } else {
                        0int
                    },
        {
            something_was_done = false;
            let ghost start_values = self.values();
            let ghost start_levels = self.working_model.levels();
            proof {
                crate::measure::lemma_weight_limit(start_values, start_levels);
            }
            let mut i: usize = 0;
            while i < self.clauses.len()
                invariant
                    i <= self.store().len(),
                    self.structural(),
                    self.search_inv(),
                    old(self).all_covered() ==> self.all_covered(),
                    n == self.num_vars(),
                    n == old(self).num_vars(),
                    self.store() == old(self).store(),
                    self.input@ == old(self).input@,
                    self.decisions@ == old(self).decisions@,
                    self.level == old(self).level,
                    self.level == self.decisions@.len(),
                    self.status == old(self).status,
                    self.working_model.queue() == old(self).working_model.queue(),
                    self.reasons_recorded(old(self)),
                    old(self).values().len() == n,
                    old(self).working_model.levels().len() == n,
                    start_values.len() == n,
                    start_levels.len() == n,
                    extends(
                        old(self).values(),
                        old(self).working_model.levels(),
                        self.values(),
                        self.working_model.levels(),
                    ),
                    forall|v: int|
                        0 <= v < n && old(self).values()[v] == BoolValue::Undefined
                            && #[trigger] self.values()[v] != BoolValue::Undefined
                            ==> self.working_model.levels()[v] == old(self).level,
                    !something_was_done ==> self.values() == start_values
                        && self.working_model.levels() == start_levels,
                    extends(
                        start_values,
                        start_levels,
                        self.values(),
                        self.working_model.levels(),
                    ),
                    !something_was_done ==> forall|k: int|
                        0 <= k < i ==> !is_unit(self.values(), #[trigger] self.store()[k]),
                    something_was_done ==> weight(start_values, start_levels) < weight(
                        self.values(),
                        self.working_model.levels(),
                    ),
                    weight(self.values(), self.working_model.levels()) <= weight_limit(n),
                decreases self.store().len() - i,
            {
                assert(self.store()[i as int] == self.clauses.clauses@[i as int]@);
                assert(clause_in_range(self.store()[i as int], n));
                let found = self.working_model.is_unit_clause(&self.clauses.clauses[i]);
                match found {
                    Some(to_be_set_true) => {
                        something_was_done = true;
                        let ghost pre = *self;
                        let ghost c = self.store()[i as int];
                        let ghost j = choose|j: int|
                            unit_at(pre.values(), c, j) && c[j] == to_be_set_true;
                        proof {
                            to_be_set_true.lemma_var_range();
                        }
                        let var = to_be_set_true.get_var();
                        self.working_model.assign(
                            var,
                            BoolValue::from_polarity(to_be_set_true.is_neg()),
                            self.level,
                        );
                        proof {
                            assert forall|k: int|
                                0 <= k < c.len() && (#[trigger] c[k]).var_id()
                                    != var.id() implies self.working_model.supports(
                                c[k].complement(),
                                var.id(),
                            ) by {
                                assert(k != j);
                                assert(lit_value(pre.values(), c[k]) == BoolValue::False);
                                c[k].lemma_complement();
                                c[k].lemma_var_range();
                                crate::logic::lemma_complement_value(pre.values(), c[k]);
                                assert(pre.model().level_of(c[k].var_id())
                                    <= pre.decided().len());
                            }
                        }
                        self.working_model.add_implications(var, &self.clauses.clauses[i]);
                        proof {
                            self.lemma_propagated(&pre, i as int, j);
                            self.lemma_reasons_recorded(&pre, old(self), i as int, j);
                            assert forall|v: int|
                                0 <= v < self.working_model.num_vars()
                                    && #[trigger] self.working_model.value_of(v)
                                    == BoolValue::Undefined implies self.working_model.queue().has(
                                v,
                            ) by {
                                assert(pre.working_model.value_of(v) == BoolValue::Undefined);
                            }
                            crate::measure::lemma_weight_grows(
                                pre.values(),
                                pre.working_model.levels(),
                                self.values(),
                                self.working_model.levels(),
                                var.id(),
                            );
                            crate::measure::lemma_weight_limit(
                                self.values(),
                                self.working_model.levels(),
                            );
                            crate::measure::lemma_weight_extends(
                                start_values,
                                start_levels,
                                pre.values(),
                                pre.working_model.levels(),
                            );
                        }
                    },
                    None => {},
                }
                i += 1;
            }
        }
        proof {
            self.lemma_orderly();
        }
    }
}

impl CdclSolver {
    /// Giving the solver one more clause keeps what holds at every step of a
    /// search: the formula then has fewer models.
    proof fn lemma_input_grows(&self, pre: &CdclSolver, c: Seq<Lit>)
        requires
            pre.search_inv(),
            self.working_model == pre.working_model,
            self.store() == pre.store(),
            self.decisions@ == pre.decisions@,
            self.input@ == pre.input@.push(c),
        ensures
            self.search_inv(),
            forall|k: int| 0 <= k < pre.formula().len() ==> self.formula()[k] == pre.formula()[k],
    {
        assert forall|m: Seq<bool>| #[trigger]
            is_model(m, self.num_vars(), self.formula()) implies self.entailed(m) by {
            assert forall|k: int| 0 <= k < pre.formula().len() implies clause_holds(
                m,
                #[trigger] pre.formula()[k],
            ) by {
                assert(self.formula()[k] == pre.formula()[k]);
            }
            assert(is_model(m, pre.num_vars(), pre.formula()));
            assert(pre.entailed(m));
        }
    }

    /// Taking in a clause that holds in every model of the formula keeps what
    /// holds at every step of a search.
    proof fn lemma_inserted(&self, pre: &CdclSolver, c: Seq<Lit>)
        requires
            pre.structural(),
            pre.search_inv(),
            c.len() >= 1,
            clause_in_range(c, pre.num_vars()),
            forall|m: Seq<bool>| #[trigger]
                is_model(m, pre.num_vars(), pre.formula()) ==> clause_holds(m, c),
            self.working_model.wf(),
            self.num_vars() == pre.num_vars(),
            self.input@ == pre.input@,
            self.decisions@ == pre.decisions@,
            self.working_model.all_reasons() == pre.working_model.all_reasons(),
            c.len() == 1 ==> self.store() == pre.store(),
            c.len() >= 2 ==> self.store() == pre.store().push(c),
            if c.len() == 1 && lit_value(pre.values(), c[0]) == BoolValue::Undefined {
                &&& self.values() == pre.values().update(
                    c[0].var_id(),
                    BoolValue::of_polarity(c[0].negated()),
                )
                &&& self.working_model.levels() == pre.working_model.levels().update(
                    c[0].var_id(),
                    0,
                )
            } else {
                &&& self.values() == pre.values()
                &&& self.working_model.levels() == pre.working_model.levels()
            },
        ensures
            self.search_inv(),
            forall|k: int|
                0 <= k < pre.formula().len() && pre.covered(#[trigger] pre.formula()[k])
                    ==> self.covered(self.formula()[k]),
            c.len() >= 2 ==> self.covered(c),
            c.len() == 1 && lit_value(pre.values(), c[0]) == BoolValue::Undefined ==> self.covered(
                c,
            ),
    {
        let n = pre.num_vars();
        let fresh = c.len() == 1 && lit_value(pre.values(), c[0]) == BoolValue::Undefined;
        let u = c[0].var_id();
        c[0].lemma_var_range();
        assert(0 <= u < n);
        assert forall|v: int| 0 <= v < self.num_vars() implies #[trigger] self.model().level_of(v)
            <= self.decided().len() by {
            assert(pre.model().level_of(v) <= pre.decided().len());
        }
        assert forall|k: int| 0 <= k < self.decided().len() implies {
            let d = #[trigger] self.decided()[k];
            &&& 0 <= d < self.num_vars()
            &&& self.model().value_of(d) != BoolValue::Undefined
            &&& self.model().level_of(d) == k + 1
            &&& self.model().reasons(d).len() == 0
        } by {
            let d = pre.decided()[k];
        }
        assert forall|v: int|
            0 <= v < self.num_vars() && #[trigger] self.model().value_of(v) != BoolValue::Undefined
                && self.model().level_of(v) >= 1 && self.model().reasons(v).len()
                == 0 implies self.model().level_of(v) <= self.decided().len()
            && self.decided()[self.model().level_of(v) - 1] == v by {
            if fresh && v == u {
            } else {
                assert(pre.model().value_of(v) != BoolValue::Undefined);
            }
        }
        assert forall|m: Seq<bool>| #[trigger]
            is_model(m, self.num_vars(), self.formula()) implies self.entailed(m) by {
            assert(is_model(m, pre.num_vars(), pre.formula()));
            assert(pre.entailed(m));
            assert(clause_holds(m, c));
            assert forall|k: int| 0 <= k < self.store().len() implies clause_holds(
                m,
                #[trigger] self.store()[k],
            ) by {
                if k < pre.store().len() {
                    assert(clause_holds(m, pre.store()[k]));
                }
            }
            assert forall|v: int|
                0 <= v < self.num_vars() && #[trigger] self.model().value_of(v)
                    != BoolValue::Undefined && self.model().level_of(v) == 0 implies m[v] == (
            self.model().value_of(v) == BoolValue::True) by {
                if fresh && v == u {
                    let h = choose|h: int| 0 <= h < c.len() && lit_holds(m, #[trigger] c[h]);
                    assert(h == 0);
                } else {
                    assert(pre.model().value_of(v) != BoolValue::Undefined);
                }
            }
            assert forall|v: int|
                0 <= v < self.model().num_vars() && (#[trigger] self.model().reasons(v)).len() > 0
                    && (forall|r: int|
                    0 <= r < self.model().reasons(v).len() ==> lit_holds(
                        m,
                        #[trigger] self.model().reasons(v)[r],
                    )) implies m[v] == (self.model().value_of(v) == BoolValue::True) by {
                assert(pre.model().reasons(v).len() > 0);
                assert(pre.model().value_of(v) != BoolValue::Undefined);
            }
        }
        assert forall|k: int|
            0 <= k < pre.formula().len() && pre.covered(
                #[trigger] pre.formula()[k],
            ) implies self.covered(self.formula()[k]) by {
            let f = pre.formula()[k];
            if f.len() == 1 {
                f[0].lemma_var_range();
                assert(lit_value(self.values(), f[0]) == BoolValue::True);
            } else {
                let w = choose|w: int| 0 <= w < pre.store().len() && #[trigger] pre.store()[w] == f;
                assert(self.store()[w] == f);
            }
        }
        if c.len() >= 2 {
            assert(self.store()[pre.store().len() as int] == c);
        }
    }

    /// Backtracking keeps what holds at every step of a search.
    proof fn lemma_backtracked(&self, pre: &CdclSolver, level: int)
        requires
            pre.structural(),
            pre.search_inv(),
            0 <= level <= pre.decisions@.len(),
            self.working_model.wf(),
            self.num_vars() == pre.num_vars(),
            self.input@ == pre.input@,
            self.store() == pre.store(),
            self.decisions@ == pre.decisions@.take(level),
            self.values() == crate::working_model::values_after_backtrack(
                pre.values(),
                pre.working_model.levels(),
                level,
            ),
            self.working_model.levels() == crate::working_model::levels_after_backtrack(
                pre.working_model.levels(),
                level,
            ),
            self.working_model.all_reasons() == crate::working_model::reasons_after_backtrack(
                pre.working_model.all_reasons(),
                pre.working_model.levels(),
                level,
            ),
        ensures
            self.search_inv(),
            pre.all_covered() ==> self.all_covered(),
    {
        assert forall|v: int| 0 <= v < self.num_vars() implies #[trigger] self.model().level_of(v)
            <= self.decided().len() by {
            assert(pre.model().level_of(v) <= pre.decided().len());
        }
        assert forall|k: int| 0 <= k < self.decided().len() implies {
            let d = #[trigger] self.decided()[k];
            &&& 0 <= d < self.num_vars()
            &&& self.model().value_of(d) != BoolValue::Undefined
            &&& self.model().level_of(d) == k + 1
            &&& self.model().reasons(d).len() == 0
        } by {
            let d = pre.decided()[k];
        }
        assert forall|v: int|
            0 <= v < self.num_vars() && #[trigger] self.model().value_of(v) != BoolValue::Undefined
                && self.model().level_of(v) >= 1 && self.model().reasons(v).len()
                == 0 implies self.model().level_of(v) <= self.decided().len()
            && self.decided()[self.model().level_of(v) - 1] == v by {
            assert(pre.model().value_of(v) != BoolValue::Undefined);
        }
        assert forall|m: Seq<bool>| #[trigger]
            is_model(m, self.num_vars(), self.formula()) implies self.entailed(m) by {
            assert(is_model(m, pre.num_vars(), pre.formula()));
            assert(pre.entailed(m));
            assert forall|v: int|
                0 <= v < self.num_vars() && #[trigger] self.model().value_of(v)
                    != BoolValue::Undefined && self.model().level_of(v) == 0 implies m[v] == (
            self.model().value_of(v) == BoolValue::True) by {
                assert(pre.model().value_of(v) != BoolValue::Undefined);
            }
            assert forall|v: int|
                0 <= v < self.model().num_vars() && (#[trigger] self.model().reasons(v)).len() > 0
                    && (forall|r: int|
                    0 <= r < self.model().reasons(v).len() ==> lit_holds(
                        m,
                        #[trigger] self.model().reasons(v)[r],
                    )) implies m[v] == (self.model().value_of(v) == BoolValue::True) by {
                assert(pre.model().reasons(v).len() > 0);
                assert(pre.model().value_of(v) != BoolValue::Undefined);
            }
        }
        if pre.all_covered() {
            assert forall|k: int| 0 <= k < self.formula().len() implies self.covered(
                #[trigger] self.formula()[k],
            ) by {
                let f = self.formula()[k];
                assert(pre.covered(pre.formula()[k]));
                if f.len() == 1 {
                    f[0].lemma_var_range();
                    assert(pre.model().value_of(f[0].var_id()) != BoolValue::Undefined);
                } else {
                    let w = choose|w: int| 0 <= w < pre.store().len() && #[trigger] pre.store()[w] == f;
                    assert(self.store()[w] == f);
                }
            }
        }
    }

    /// Goes back to decision level `level`: takes back every assignment made
    /// above it and every decision after it.
    fn backtrack(&mut self, level: usize)
        requires
            old(self).structural(),
            old(self).search_inv(),
            old(self).level == old(self).decisions@.len(),
            level <= old(self).level,
        ensures
            final(self).structural(),
            final(self).search_inv(),
            final(self).orderly(),
            old(self).all_covered() ==> final(self).all_covered(),
            final(self).level == level,
            final(self).decisions@ == old(self).decisions@.take(level as int),
            final(self).model().went_back(&old(self).model(), level as int),
            final(self).working_model.queue().same_activities(&old(self).working_model.queue()),
            final(self).num_vars() == old(self).num_vars(),
            final(self).store() == old(self).store(),
            final(self).input@ == old(self).input@,
            final(self).status == old(self).status,
            final(self).values() == crate::working_model::values_after_backtrack(
                old(self).values(),
                old(self).working_model.levels(),
                level as int,
            ),
            final(self).working_model.levels() == crate::working_model::levels_after_backtrack(
                old(self).working_model.levels(),
                level as int,
            ),
    {
        self.level = level;
        self.working_model.backtracking(level);
        proof {
            self.decisions@ = self.decisions@.take(level as int);
            self.lemma_backtracked(old(self), level as int);
            self.lemma_orderly();
        }
    }
}

impl CdclSolver {
    /// A stored clause that is false while every assignment stands at level 0
    /// shows that the formula has no model.
    proof fn lemma_root_conflict(&self)
        requires
            self.structural(),
            self.search_inv(),
            self.decisions@.len() == 0,
            formula_value(self.values(), self.store()) == BoolValue::False,
        ensures
            !satisfiable(self.num_vars(), self.formula()),
    {
        let i = choose|i: int|
            0 <= i < self.store().len() && clause_value(self.values(), #[trigger] self.store()[i])
                == BoolValue::False;
        let c = self.store()[i];
        assert forall|m: Seq<bool>| #[trigger]
            is_model(m, self.num_vars(), self.formula()) implies clause_holds(m, c) by {
            assert(self.entailed(m));
        }
        assert forall|j: int| 0 <= j < c.len() implies lit_value(self.values(), #[trigger] c[j])
            == BoolValue::False && self.model().level_of(c[j].var_id()) == 0 by {
            c[j].lemma_var_range();
            assert(clause_in_range(c, self.num_vars()));
            assert(self.model().level_of(c[j].var_id()) <= self.decided().len());
        }
        self.lemma_false_at_root(c);
    }

    /// A clause that holds in every model of the formula and whose literals
    /// are all false at level 0 shows that the formula has no model.
    proof fn lemma_false_at_root(&self, c: Seq<Lit>)
        requires
            self.search_inv(),
            forall|m: Seq<bool>| #[trigger]
                is_model(m, self.num_vars(), self.formula()) ==> clause_holds(m, c),
            forall|j: int|
                0 <= j < c.len() ==> lit_value(self.values(), #[trigger] c[j]) == BoolValue::False
                    && self.model().level_of(c[j].var_id()) == 0,
        ensures
            !satisfiable(self.num_vars(), self.formula()),
    {
        assert forall|m: Seq<bool>| !is_model(m, self.num_vars(), self.formula()) by {
            if is_model(m, self.num_vars(), self.formula()) {
                assert(self.entailed(m));
                let h = choose|h: int| 0 <= h < c.len() && lit_holds(m, #[trigger] c[h]);
                c[h].lemma_var_range();
                assert(lit_value(self.values(), c[h]) == BoolValue::False);
                assert(self.model().value_of(c[h].var_id()) != BoolValue::Undefined);
            }
        }
    }

    /// Learns from a conflict: follows the implication graph back from a
    /// false clause to assignments without reasons and returns the clause
    /// that rules them out, with the level to go back to, one below the
    /// highest level among them; `None` if they all stand at level 0. Bumps
    /// the activity of each variable of that clause.
    fn analyze_conflict(&mut self) -> (r: (Option<usize>, Clause))
        requires
            old(self).structural(),
            old(self).search_inv(),
            formula_value(old(self).values(), old(self).store()) == BoolValue::False,
        ensures
            final(self).structural(),
            final(self).search_inv(),
            final(self).orderly(),
            final(self).same_search(old(self)),
            final(self).status == old(self).status,
            final(self).level == old(self).level,
            old(self).all_covered() ==> final(self).all_covered(),
            final(self).model().queue().same_members(&old(self).model().queue()),
            forall|u: int|
                final(self).model().queue().activity_of(u) == crate::heap::activities_after(
                    old(self).model().queue().activities(),
                    old(self).model().queue().bump(),
                    vars_of(r.1@),
                )(u),
            final(self).model().queue().bump() == crate::heap::bump_after(
                old(self).model().queue().activities(),
                old(self).model().queue().bump(),
                vars_of(r.1@),
            ),
            r.1@.len() >= 1,
            clause_in_range(r.1@, old(self).num_vars()),
            r.1@.no_duplicates(),
            forall|j: int|
                0 <= j < r.1@.len() ==> lit_value(old(self).values(), #[trigger] r.1@[j])
                    == BoolValue::False,
            forall|j: int|
                0 <= j < r.1@.len() ==> old(self).model().reasons((#[trigger] r.1@[j]).var_id()).len()
                    == 0,
            forall|m: Seq<bool>| #[trigger]
                is_model(m, old(self).num_vars(), old(self).formula()) ==> clause_holds(m, r.1@),
            match r.0 {
                None => forall|j: int|
                    0 <= j < r.1@.len() ==> old(self).model().level_of(
                        (#[trigger] r.1@[j]).var_id(),
                    ) == 0,
                Some(lvl) => {
                    &&& exists|j: int|
                        0 <= j < r.1@.len() && old(self).model().level_of(
                            (#[trigger] r.1@[j]).var_id(),
                        ) == lvl + 1
                    &&& forall|j: int|
                        0 <= j < r.1@.len() ==> old(self).model().level_of(
                            (#[trigger] r.1@[j]).var_id(),
                        ) <= lvl + 1
                },
            },
    {
        let ghost n = self.num_vars();
        match self.working_model.conflicting(&self.clauses) {
            Some(conflict) => {
                let conflict_clause = self.working_model.find_conflict(&conflict);
                proof {
                    assert forall|m: Seq<bool>| #[trigger]
                        is_model(m, self.num_vars(), self.formula()) implies clause_holds(
                        m,
                        conflict_clause@,
                    ) by {
                        assert(self.entailed(m));
                        assert(clause_holds(m, conflict@));
                        assert(self.model().respected_by(m));
                    }
                    conflict_clause@[0].lemma_var_range();
                }
                // the level to go back to is one below the highest level in the clause
                let mut max: usize = self.working_model.level(conflict_clause[0].get_var());
                let mut i: usize = 0;
                while i < conflict_clause.len()
                    invariant
                        i <= conflict_clause@.len(),
                        conflict_clause@.len() >= 1,
                        self.working_model.wf(),
                        n == self.working_model.num_vars(),
                        clause_in_range(conflict_clause@, n),
                        exists|j: int|
                            0 <= j < conflict_clause@.len() && self.working_model.level_of(
                                (#[trigger] conflict_clause@[j]).var_id(),
                            ) == max,
                        forall|j: int|
                            0 <= j < i ==> self.working_model.level_of(
                                (#[trigger] conflict_clause@[j]).var_id(),
                            ) <= max,
                    decreases conflict_clause@.len() - i,
                {
                    proof {
                        conflict_clause@[i as int].lemma_var_range();
                    }
                    let current = self.working_model.level(conflict_clause[i].get_var());
                    if current > max {
                        max = current
                    }
                    i += 1;
                }
                let ghost act0 = old(self).model().queue().activities();
                let ghost bump0 = old(self).model().queue().bump();
                let ghost vars = vars_of(conflict_clause@);
                let mut k: usize = 0;
                while k < conflict_clause.len()
                    invariant
                        k <= conflict_clause@.len(),
                        self.structural(),
                        self.same_search(old(self)),
                        self.status == old(self).status,
                        self.level == old(self).level,
                        n == self.num_vars(),
                        clause_in_range(conflict_clause@, n),
                        vars == vars_of(conflict_clause@),
                        act0 == old(self).model().queue().activities(),
                        bump0 == old(self).model().queue().bump(),
                        self.working_model.queue().same_members(&old(self).model().queue()),
                        forall|u: int|
                            self.working_model.queue().activity_of(u)
                                == crate::heap::activities_after(act0, bump0, vars.take(k as int))(
                                u,
                            ),
                        self.working_model.queue().bump() == crate::heap::bump_after(
                            act0,
                            bump0,
                            vars.take(k as int),
                        ),
                    decreases conflict_clause@.len() - k,
                {
                    proof {
                        conflict_clause@[k as int].lemma_var_range();
                        assert(vars.take(k + 1).drop_last() =~= vars.take(k as int));
                        assert(vars.take(k + 1).last() == conflict_clause@[k as int].var_id());
                    }
                    self.working_model.bump_activity(conflict_clause[k].get_var());
                    k += 1;
                }
                proof {
                    assert(vars.take(vars.len() as int) =~= vars);
                    self.lemma_same_search(old(self));
                    self.lemma_orderly();
                }
                if max == 0 {
                    (None, conflict_clause)
                } else {
                    (Some(max - 1), conflict_clause)
                }
            },
            None => {
                vstd::pervasive::unreached()
            },
        }
    }

    /// Variable `x` was decided on the way from `pre` to here: it had no
    /// value, no variable without a value had more activity, it now has a
    /// value at the current level and no reasons, and nothing else of the
    /// assignment changed. It has left the queue of variables to decide,
    /// and no variable has come into the queue.
    spec fn took(&self, pre: &CdclSolver, x: int) -> bool {
        &&& 0 <= x < pre.num_vars()
        &&& pre.model().value_of(x) == BoolValue::Undefined
        &&& self.model().value_of(x) != BoolValue::Undefined
        &&& self.model().level_of(x) == self.level
        &&& self.values().len() == pre.values().len()
        &&& forall|v: int|
            0 <= v < pre.num_vars() && v != x ==> #[trigger] self.values()[v] == pre.values()[v]
        &&& self.working_model.levels() == pre.working_model.levels().update(x, self.level)
        &&& self.working_model.all_reasons() == pre.working_model.all_reasons()
        &&& self.working_model.queue().same_activities(&pre.working_model.queue())
        &&& forall|v: int|
            0 <= v < pre.num_vars() && #[trigger] pre.model().value_of(v) == BoolValue::Undefined
                ==> pre.model().queue().activity_of(v) <= pre.model().queue().activity_of(x)
        &&& self.model().reasons(x).len() == 0
        &&& !self.model().queue().has(x)
        &&& forall|v: int| #[trigger] self.model().queue().has(v) ==> pre.model().queue().has(v)
    }

    /// Decides one more variable: takes variables of greatest activity out of
    /// the queue until one has no value, and gives it a random value at the
    /// current level. Returns `true` if the queue holds no such variable; then
    /// every variable has a value and the formula is satisfied.
    fn decide(&mut self) -> (done: bool)
        requires
            old(self).structural(),
            old(self).search_inv(),
            old(self).all_covered(),
            old(self).status is None,
            old(self).level == old(self).decisions@.len() + 1,
            formula_value(old(self).values(), old(self).store()) != BoolValue::False,
        ensures
            final(self).structural(),
            final(self).search_inv(),
            final(self).orderly(),
            final(self).all_covered(),
            final(self).num_vars() == old(self).num_vars(),
            final(self).store() == old(self).store(),
            final(self).input@ == old(self).input@,
            final(self).level == old(self).level,
            done ==> final(self).status == Some(true) && makes_true(
                final(self).values(),
                final(self).formula(),
            ),
            done == crate::logic::total(old(self).values()),
            done ==> final(self).working_model.same_assignment(&old(self).working_model),
            !done ==> exists|x: int| final(self).took(old(self), x),
            !done ==> final(self).status is None && final(self).level == final(self).decisions@.len()
                && weight(old(self).values(), old(self).working_model.levels()) < weight(
                final(self).values(),
                final(self).working_model.levels(),
            ),
    {
        let ghost n = self.num_vars();
        loop
            invariant
                self.structural(),
                self.search_inv(),
                self.all_covered(),
                self.status is None,
                self.level == self.decisions@.len() + 1,
                n == self.num_vars(),
                self.working_model.same_assignment(&old(self).working_model),
                self.working_model.queue().same_activities(&old(self).working_model.queue()),
                forall|v: int|
                    #[trigger] self.working_model.queue().has(v) ==> old(
                        self,
                    ).working_model.queue().has(v),
                self.store() == old(self).store(),
                self.input@ == old(self).input@,
                self.decisions@ == old(self).decisions@,
                self.level == old(self).level,
                formula_value(self.values(), self.store()) != BoolValue::False,
            decreases self.working_model.queue().size(),
        {
            let ghost before = *self;
            match self.working_model.pop_queue() {
                Some(var) => {
                    if self.working_model.state_var(var) != BoolValue::Undefined {
                        proof {
                            assert forall|v: int|
                                0 <= v < self.working_model.num_vars()
                                    && #[trigger] self.working_model.value_of(v)
                                    == BoolValue::Undefined implies self.working_model.queue().has(
                                v,
                            ) by {
                                assert(before.working_model.value_of(v) == BoolValue::Undefined);
                            }
                            self.lemma_same_search(&before);
                        }
                        continue ;
                    }
                    let bit = match &mut self.seeded {
                        Some(rng) => seeded_below(rng, 2),
                        None => random_below(&mut self.rand, 2),
                    };
                    let ghost mid = *self;
                    self.working_model.assign(var, BoolValue::from(bit as i8), self.level);
                    proof {
                        self.decisions@ = self.decisions@.push(var.id());
                        mid.lemma_same_search(&before);
                        self.lemma_decided(&mid, var.id());
                        assert forall|v: int|
                            0 <= v < self.working_model.num_vars()
                                && #[trigger] self.working_model.value_of(v)
                                == BoolValue::Undefined implies self.working_model.queue().has(
                            v,
                        ) by {
                            assert(before.working_model.value_of(v) == BoolValue::Undefined);
                        }
                        crate::measure::lemma_weight_grows(
                            mid.values(),
                            mid.working_model.levels(),
                            self.values(),
                            self.working_model.levels(),
                            var.id(),
                        );
                        crate::measure::lemma_distinct_bounded(self.decisions@, n);
                        assert forall|v: int|
                            0 <= v < old(self).num_vars() && #[trigger] old(self).model().value_of(v)
                                == BoolValue::Undefined implies old(
                            self,
                        ).model().queue().activity_of(v) <= old(self).model().queue().activity_of(
                            var.id(),
                        ) by {
                            assert(before.working_model.value_of(v) == BoolValue::Undefined);
                            assert(before.working_model.queue().has(v));
                        }
                        assert(!self.model().queue().has(var.id()));
                        assert(old(self).values()[var.id()] == BoolValue::Undefined);
                        assert(self.took(old(self), var.id()));
                        self.lemma_orderly();
                    }
                    return false;
                },
                None => {
                    proof {
                        self.lemma_same_search(&before);
                        assert forall|v: int| 0 <= v < self.values().len() implies #[trigger] self.values()[v]
                            != BoolValue::Undefined by {
                            if self.working_model.value_of(v) == BoolValue::Undefined {
                                assert(before.working_model.value_of(v) == BoolValue::Undefined);
                                assert(before.working_model.queue().has(v));
                            }
                        }
                        crate::logic::lemma_total_formula_decided(self.values(), self.store());
                        self.lemma_store_true();
                    }
                    let ghost last = *self;
                    self.status = Some(true);
                    proof {
                        self.lemma_same_search(&last);
                        self.lemma_orderly();
                    }
                    return true;
                },
            }
        }
    }

    /// Deciding a variable without a value, at a level one above the last
    /// decision, keeps what holds at every step of a search.
    proof fn lemma_decided(&self, pre: &CdclSolver, u: int)
        requires
            pre.working_model.wf(),
            pre.search_inv(),
            0 <= u < pre.num_vars(),
            pre.model().value_of(u) == BoolValue::Undefined,
            self.working_model.wf(),
            self.num_vars() == pre.num_vars(),
            self.input@ == pre.input@,
            self.store() == pre.store(),
            self.decisions@ == pre.decisions@.push(u),
            self.values().len() == pre.values().len(),
            self.model().value_of(u) != BoolValue::Undefined,
            forall|v: int| 0 <= v < pre.num_vars() && v != u ==> self.values()[v] == pre.values()[v],
            self.working_model.levels() == pre.working_model.levels().update(
                u,
                (pre.decisions@.len() + 1) as usize,
            ),
            pre.decisions@.len() + 1 <= usize::MAX,
            self.working_model.all_reasons() == pre.working_model.all_reasons(),
        ensures
            self.search_inv(),
            self.decisions@.no_duplicates(),
            forall|k: int| 0 <= k < self.decisions@.len() ==> 0 <= #[trigger] self.decisions@[k] < self.num_vars(),
            pre.all_covered() ==> self.all_covered(),
            extends(
                pre.values(),
                pre.working_model.levels(),
                self.values(),
                self.working_model.levels(),
            ),
    {
        assert(pre.model().reasons(u).len() == 0);
        assert forall|v: int| 0 <= v < self.num_vars() implies #[trigger] self.model().level_of(v)
            <= self.decided().len() by {
            assert(pre.model().level_of(v) <= pre.decided().len());
        }
        assert forall|k: int| 0 <= k < self.decided().len() implies {
            let d = #[trigger] self.decided()[k];
            &&& 0 <= d < self.num_vars()
            &&& self.model().value_of(d) != BoolValue::Undefined
            &&& self.model().level_of(d) == k + 1
            &&& self.model().reasons(d).len() == 0
        } by {
            if k < pre.decided().len() {
                let d = pre.decided()[k];
                assert(d != u);
            }
        }
        assert forall|v: int|
            0 <= v < self.num_vars() && #[trigger] self.model().value_of(v) != BoolValue::Undefined
                && self.model().level_of(v) >= 1 && self.model().reasons(v).len()
                == 0 implies self.model().level_of(v) <= self.decided().len()
            && self.decided()[self.model().level_of(v) - 1] == v by {
            if v != u {
                assert(pre.model().value_of(v) != BoolValue::Undefined);
            }
        }
        assert forall|m: Seq<bool>| #[trigger]
            is_model(m, self.num_vars(), self.formula()) implies self.entailed(m) by {
            assert(is_model(m, pre.num_vars(), pre.formula()));
            assert(pre.entailed(m));
            assert forall|v: int|
                0 <= v < self.num_vars() && #[trigger] self.model().value_of(v)
                    != BoolValue::Undefined && self.model().level_of(v) == 0 implies m[v] == (
            self.model().value_of(v) == BoolValue::True) by {
                assert(pre.model().value_of(v) != BoolValue::Undefined);
            }
            assert forall|v: int|
                0 <= v < self.model().num_vars() && (#[trigger] self.model().reasons(v)).len() > 0
                    && (forall|r: int|
                    0 <= r < self.model().reasons(v).len() ==> lit_holds(
                        m,
                        #[trigger] self.model().reasons(v)[r],
                    )) implies m[v] == (self.model().value_of(v) == BoolValue::True) by {
                assert(pre.model().reasons(v).len() > 0);
                assert(pre.model().value_of(v) != BoolValue::Undefined);
            }
        }
        assert forall|a: int, b: int|
            0 <= a < self.decisions@.len() && 0 <= b < self.decisions@.len() && a
                != b implies self.decisions@[a] != self.decisions@[b] by {
            let da = self.decided()[a];
            let db = self.decided()[b];
            assert(self.model().level_of(da) == a + 1);
            assert(self.model().level_of(db) == b + 1);
        }
        assert forall|k: int| 0 <= k < self.decisions@.len() implies 0 <= #[trigger] self.decisions@[k] < self.num_vars() by {
            let d = self.decided()[k];
        }
        if pre.all_covered() {
            assert forall|k: int| 0 <= k < self.formula().len() implies self.covered(
                #[trigger] self.formula()[k],
            ) by {
                let f = self.formula()[k];
                assert(pre.covered(pre.formula()[k]));
                if f.len() == 1 {
                    f[0].lemma_var_range();
                    assert(lit_value(pre.values(), f[0]) == BoolValue::True);
                    assert(f[0].var_id() != u);
                } else {
                    let w = choose|w: int| 0 <= w < pre.store().len() && #[trigger] pre.store()[w] == f;
                    assert(self.store()[w] == f);
                }
            }
        }
    }

    /// When every stored clause is true and every given clause is accounted
    /// for, every given clause is true.
    proof fn lemma_store_true(&self)
        requires
            self.all_covered(),
            formula_value(self.values(), self.store()) == BoolValue::True,
        ensures
            makes_true(self.values(), self.formula()),
    {
        assert forall|i: int| 0 <= i < self.formula().len() implies clause_value(
            self.values(),
            #[trigger] self.formula()[i],
        ) == BoolValue::True by {
            let f = self.formula()[i];
            assert(self.covered(f));
            if f.len() == 1 {
                assert(lit_value(self.values(), f[0]) == BoolValue::True);
            } else {
                let w = choose|w: int| 0 <= w < self.store().len() && #[trigger] self.store()[w] == f;
                assert(clause_value(self.values(), self.store()[w]) == BoolValue::True);
            }
        }
    }
}

impl CdclSolver {
    /// Among literals that are all false and stand for assignments without
    /// reasons, no two distinct ones stand at the same level above 0.
    proof fn lemma_one_root_per_level(&self, c: Seq<Lit>, a: int, b: int)
        requires
            self.structural(),
            self.search_inv(),
            clause_in_range(c, self.num_vars()),
            c.no_duplicates(),
            0 <= a < c.len(),
            0 <= b < c.len(),
            lit_value(self.values(), c[a]) == BoolValue::False,
            lit_value(self.values(), c[b]) == BoolValue::False,
            self.model().reasons(c[a].var_id()).len() == 0,
            self.model().reasons(c[b].var_id()).len() == 0,
            self.model().level_of(c[a].var_id()) == self.model().level_of(c[b].var_id()),
            self.model().level_of(c[a].var_id()) >= 1,
        ensures
            a == b,
    {
        c[a].lemma_var_range();
        c[b].lemma_var_range();
        let va = c[a].var_id();
        let vb = c[b].var_id();
        assert(self.model().value_of(va) != BoolValue::Undefined);
        assert(self.model().value_of(vb) != BoolValue::Undefined);
        assert(va == vb);
        Lit::lemma_same(c[a], c[b]);
    }

    /// The activities are those of `pre` after the variables of clause `c`
    /// were bumped in turn and the bump value then decayed.
    spec fn bumped_for(&self, pre: &CdclSolver, c: Seq<Lit>) -> bool {
        let act = crate::heap::activities_after(
            pre.model().queue().activities(),
            pre.model().queue().bump(),
            vars_of(c),
        );
        let bump = crate::heap::bump_after(
            pre.model().queue().activities(),
            pre.model().queue().bump(),
            vars_of(c),
        );
        &&& self.model().queue().bump() == crate::heap::bump_decayed(bump)
        &&& forall|u: int|
            self.model().queue().activity_of(u) == crate::heap::activities_decayed(act, bump)(u)
    }

    /// Handles a conflict above level 0: learns a clause from it, bumping
    /// the activity of each of its variables, goes back to the level below
    /// the highest level in that clause, takes the clause in, lets the bump
    /// value decay, and propagates. Returns `false` if the conflict rests on
    /// assignments at level 0 alone; then the formula has no model, and the
    /// solver goes back to level 0 before it records that verdict.
    fn resolve_conflict(&mut self) -> (go_on: bool)
        requires
            old(self).structural(),
            old(self).search_inv(),
            old(self).all_covered(),
            old(self).status is None,
            old(self).level == old(self).decisions@.len(),
            formula_value(old(self).values(), old(self).store()) == BoolValue::False,
        ensures
            final(self).structural(),
            final(self).search_inv(),
            final(self).orderly(),
            final(self).num_vars() == old(self).num_vars(),
            final(self).input@ == old(self).input@,
            go_on ==> exists|c: Seq<Lit>| final(self).bumped_for(old(self), c),
            go_on ==> final(self).status is None && final(self).all_covered() && final(self).level
                == final(self).decisions@.len() && weight(
                old(self).values(),
                old(self).working_model.levels(),
            ) < weight(final(self).values(), final(self).working_model.levels()),
            !go_on ==> final(self).status == Some(false) && final(self).level == 0 && !satisfiable(
                final(self).num_vars(),
                final(self).formula(),
            ),
    {
        let ghost n = self.num_vars();
        let ghost s0 = *self;
        let (lvl, learnt) = self.analyze_conflict();
        let ghost c = learnt@;
        match lvl {
            None => {
                proof {
                    assert forall|m: Seq<bool>| #[trigger]
                        is_model(m, self.num_vars(), self.formula()) implies clause_holds(m, c) by {
                        assert(is_model(m, s0.num_vars(), s0.formula()));
                    }
                    assert forall|j: int| 0 <= j < c.len() implies lit_value(
                        self.values(),
                        #[trigger] c[j],
                    ) == BoolValue::False && self.model().level_of(c[j].var_id()) == 0 by {
                        assert(lit_value(s0.values(), c[j]) == BoolValue::False);
                        assert(s0.model().level_of(c[j].var_id()) == 0);
                    }
                    self.lemma_false_at_root(c);
                }
                self.backtrack(0);
                let ghost last = *self;
                self.status = Some(false);
                proof {
                    self.lemma_same_search(&last);
                    self.lemma_orderly();
                }
                false
            },
            Some(lvl) => {
                let ghost top = choose|j: int|
                    0 <= j < c.len() && s0.model().level_of((#[trigger] c[j]).var_id()) == lvl + 1;
                let ghost u = c[top].var_id();
                proof {
                    c[top].lemma_var_range();
                    assert(clause_in_range(c, n));
                    assert(s0.model().level_of(u) <= s0.decided().len());
                    assert forall|k: int| 0 <= k < s0.decisions@.len() implies 0 <= #[trigger] s0.decisions@[k]
                        < n by {
                        let d = s0.decided()[k];
                    }
                    assert forall|a: int, b: int|
                        0 <= a < s0.decisions@.len() && 0 <= b < s0.decisions@.len() && a
                            != b implies s0.decisions@[a] != s0.decisions@[b] by {
                        let da = s0.decided()[a];
                        let db = s0.decided()[b];
                        assert(s0.model().level_of(da) == a + 1);
                        assert(s0.model().level_of(db) == b + 1);
                    }
                    crate::measure::lemma_distinct_bounded(s0.decisions@, n);
                }
                self.backtrack(lvl);
                let ghost s1 = *self;
                proof {
                    // after going back the learned clause is unit
                    assert forall|k: int| 0 <= k < c.len() && k != top implies lit_value(
                        s1.values(),
                        #[trigger] c[k],
                    ) == BoolValue::False by {
                        c[k].lemma_var_range();
                        if s0.model().level_of(c[k].var_id()) == lvl + 1 {
                            s0.lemma_one_root_per_level(c, k, top);
                        }
                    }
                    assert(lit_value(s1.values(), c[top]) == BoolValue::Undefined);
                    assert(unit_at(s1.values(), c, top));
                    crate::measure::lemma_weight_backjump(
                        s0.values(),
                        s0.working_model.levels(),
                        s1.values(),
                        s1.working_model.levels(),
                        lvl as int,
                    );
                    if c.len() == 1 {
                        assert(top == 0);
                    }
                }
                if !self.insert_clause(learnt) {
                    proof {
                        self.lemma_same_search(&s1);
                    }
                    self.backtrack(0);
                    proof {
                        self.lemma_orderly();
                    }
                    return false;
                }
                let ghost s2 = *self;
                proof {
                    assert forall|m: Seq<bool>| #[trigger]
                        is_model(m, s1.num_vars(), s1.formula()) implies clause_holds(m, c) by {
                        assert(is_model(m, s0.num_vars(), s0.formula()));
                    }
                    self.lemma_inserted(&s1, c);
                    assert forall|k: int| 0 <= k < self.formula().len() implies self.covered(
                        #[trigger] self.formula()[k],
                    ) by {
                        assert(s1.covered(s1.formula()[k]));
                    }
                }
                self.working_model.decay_activity();
                proof {
                    self.lemma_same_search(&s2);
                    assert(self.bumped_for(&s0, c));
                }
                let ghost s2b = *self;
                self.propagate();
                proof {
                    assert(self.bumped_for(&s0, c));
                    if c.len() == 1 {
                        assert(s2.values()[u] != BoolValue::Undefined);
                        assert(s2.working_model.levels()[u] == 0);
                        assert(self.values()[u] == s2b.values()[u]);
                    } else {
                        let at = s1.store().len() as int;
                        assert(self.store()[at] == c);
                        assert(!is_unit(self.values(), self.store()[at]));
                        if self.values()[u] == BoolValue::Undefined {
                            assert forall|k: int| 0 <= k < c.len() && k != top implies lit_value(
                                self.values(),
                                #[trigger] c[k],
                            ) == BoolValue::False by {
                                c[k].lemma_var_range();
                                assert(lit_value(s1.values(), c[k]) == BoolValue::False);
                                assert(s2b.values()[c[k].var_id()] != BoolValue::Undefined);
                            }
                            assert(unit_at(self.values(), c, top));
                        }
                        assert(self.working_model.levels()[u] == lvl);
                    }
                    assert(extends(
                        s1.values(),
                        s1.working_model.levels(),
                        self.values(),
                        self.working_model.levels(),
                    )) by {
                        assert forall|v: int|
                            0 <= v < s1.values().len() && #[trigger] s1.values()[v]
                                != BoolValue::Undefined implies self.values()[v] == s1.values()[v]
                            && self.working_model.levels()[v] == s1.working_model.levels()[v] by {
                            assert(s2b.values()[v] == s1.values()[v]);
                        }
                    }
                    crate::measure::lemma_weight_grows(
                        s1.values(),
                        s1.working_model.levels(),
                        self.values(),
                        self.working_model.levels(),
                        u,
                    );
                    crate::measure::lemma_power_monotone(
                        n + 1,
                        n - lvl,
                        n - self.working_model.levels()[u],
                    );
                    self.lemma_orderly();
                }
                true
            },
        }
    }

    /// The search: propagates, handles conflicts as long as there are any,
    /// decides one more variable, and so on until the formula is satisfied or
    /// a conflict at level 0 shows that it cannot be. With a deadline, the
    /// search looks at the clock before each conflict and each decision;
    /// when the time allowed has run out it goes back to level 0 and gives
    /// up with `None`.
    fn cdcl(&mut self, deadline: &Option<(std::time::Instant, u128)>) -> (r: Option<bool>)
        requires
            old(self).structural(),
            old(self).search_inv(),
            old(self).all_covered(),
            old(self).status is None,
            old(self).level == 0,
        ensures
            final(self).structural(),
            final(self).search_inv(),
            final(self).num_vars() == old(self).num_vars(),
            final(self).input@ == old(self).input@,
            r is None ==> deadline is Some,
            match r {
                Some(sat) => {
                    &&& final(self).status == Some(sat)
                    &&& !sat ==> final(self).level == 0
                    &&& sat == satisfiable(final(self).num_vars(), final(self).formula())
                    &&& sat ==> makes_true(final(self).values(), final(self).formula())
                    &&& sat ==> satisfies(final(self).values(), final(self).formula())
                },
                None => final(self).status is None && final(self).level == 0
                    && final(self).all_covered(),
            },
    {
        let ghost n = self.num_vars();
        self.propagate();
        loop
            invariant
                self.structural(),
                self.search_inv(),
                self.all_covered(),
                self.status is None,
                self.level == self.decisions@.len(),
                n == self.num_vars(),
                n == old(self).num_vars(),
                self.input@ == old(self).input@,
            ensures
                self.structural(),
                self.search_inv(),
                self.all_covered(),
                n == self.num_vars(),
                n == old(self).num_vars(),
                self.input@ == old(self).input@,
                formula_value(self.values(), self.store()) == BoolValue::True,
            decreases weight_limit(n) - weight(self.values(), self.working_model.levels()),
        {
            let ghost w0 = weight(self.values(), self.working_model.levels());
            if out_of_time(deadline) {
                self.backtrack(0);
                return None;
            }
            while self.working_model.state_formula(&self.clauses) == BoolValue::False
                invariant
                    self.structural(),
                    self.search_inv(),
                    self.all_covered(),
                    self.status is None,
                    self.level == self.decisions@.len(),
                    n == self.num_vars(),
                    n == old(self).num_vars(),
                    self.input@ == old(self).input@,
                    w0 <= weight(self.values(), self.working_model.levels()),
                decreases weight_limit(n) - weight(self.values(), self.working_model.levels()),
            {
                if self.level == 0 {
                    proof {
                        self.lemma_root_conflict();
                    }
                    let ghost last = *self;
                    self.status = Some(false);
                    proof {
                        self.lemma_same_search(&last);
                    }
                    return Some(false);
                }
                if !self.resolve_conflict() {
                    return Some(false);
                }
                proof {
                    crate::measure::lemma_weight_limit(self.values(), self.working_model.levels());
                }
                if out_of_time(deadline) {
                    self.backtrack(0);
                    return None;
                }
            }
            proof {
                assert forall|k: int| 0 <= k < self.decisions@.len() implies 0 <= #[trigger] self.decisions@[k]
                    < n by {
                    let d = self.decided()[k];
                }
                assert forall|a: int, b: int|
                    0 <= a < self.decisions@.len() && 0 <= b < self.decisions@.len() && a
                        != b implies self.decisions@[a] != self.decisions@[b] by {
                    let da = self.decided()[a];
                    let db = self.decided()[b];
                    assert(self.model().level_of(da) == a + 1);
                    assert(self.model().level_of(db) == b + 1);
                }
                crate::measure::lemma_distinct_bounded(self.decisions@, n);
            }
            let ghost before_level = *self;
            self.level += 1;
            proof {
                self.lemma_same_search(&before_level);
            }
            if self.decide() {
                proof {
                    self.lemma_satisfied();
                }
                return Some(true);
            }
            let ghost decided = *self;
            self.propagate();
            proof {
                crate::measure::lemma_weight_extends(
                    decided.values(),
                    decided.working_model.levels(),
                    self.values(),
                    self.working_model.levels(),
                );
                crate::measure::lemma_weight_limit(self.values(), self.working_model.levels());
            }
            if self.working_model.state_formula(&self.clauses) == BoolValue::True {
                break ;
            }
        }
        proof {
            self.lemma_store_true();
            self.lemma_satisfied();
        }
        let ghost last = *self;
        self.status = Some(true);
        proof {
            self.lemma_same_search(&last);
        }
        Some(true)
    }

    /// An assignment that makes every clause true shows that the formula has
    /// a model.
    proof fn lemma_satisfied(&self)
        requires
            self.structural(),
            makes_true(self.values(), self.formula()),
        ensures
            satisfies(self.values(), self.formula()),
            satisfiable(self.num_vars(), self.formula()),
    {
        crate::logic::lemma_true_formula_satisfied(self.values(), self.formula());
    }
}

impl<'a> Solver<'a> for CdclSolver {
    open spec fn ready(&self) -> bool {
        self.inv()
    }

    open spec fn var_count(&self) -> int {
        self.num_vars()
    }

    open spec fn clauses(&self) -> Seq<Seq<Lit>> {
        self.formula()
    }

    open spec fn assignment(&self) -> Seq<BoolValue> {
        self.values()
    }

    open spec fn decides(n: int, f: Seq<Seq<Lit>>) -> bool {
        true
    }

    fn new<'b: 'a>(cnf: &'b Cnf) -> (solver: Self)
        ensures
            solver.verdict() is None || solver.verdict() == Some(false),
            solver.current_level() == 0,
            solver.values().len() == cnf.var_num,
            solver.verdict() is None ==> solver.all_covered(),
    {
        let n = cnf.var_num;
        let mut solver = CdclSolver {
            clauses: AllClauses { clauses: Vec::new() },
            working_model: WorkingModel::new(n),
            status: None,
            level: 0,
            watchers: Watcher::new(n),
            rand: rand::thread_rng(),
            seeded: None,
            input: Ghost(Seq::empty()),
            decisions: Ghost(Seq::empty()),
        };
        let mut i: usize = 0;
        assert(solver.inv());
        assert(solver.input@ =~= cnf.formula().take(0));
        while i < cnf.clauses.len()
            invariant
                i <= cnf.clauses@.len(),
                cnf.wf(),
                n == cnf.var_num,
                solver.inv(),
                solver.status != Some(true),
                solver.level == 0,
                solver.num_vars() == n,
                solver.input@ == cnf.formula().take(i as int),
            decreases cnf.clauses@.len() - i,
        {
            let clause = &cnf.clauses[i];
            proof {
                assert(cnf.formula()[i as int] == clause@);
                assert(cnf.formula().take(i + 1) =~= cnf.formula().take(i as int).push(clause@));
                assert(clause_in_range(cnf.formula()[i as int], n as int));
            }
            if clause.len() == 0 {
                let ghost pre = solver;
                solver.status = Some(false);
                proof {
                    solver.input@ = solver.input@.push(clause@);
                    solver.lemma_input_grows(&pre, clause@);
                    crate::logic::lemma_empty_clause_unsat(
                        n as int,
                        solver.input@,
                        pre.input@.len() as int,
                    );
                    assert(formula_in_range(solver.input@, n as int)) by {
                        assert forall|k: int| 0 <= k < solver.input@.len() implies clause_in_range(
                            #[trigger] solver.input@[k],
                            n as int,
                        ) by {
                            if k < pre.input@.len() {
                                assert(solver.input@[k] == pre.input@[k]);
                            }
                        }
                    }
                }
            } else {
                let copy = clause.clone();
                assert(copy@ =~= clause@);
                solver.add_clause(copy);
            }
            i += 1;
        }
        assert(cnf.formula().take(cnf.clauses@.len() as int) =~= cnf.formula());
        solver
    }

    fn solve(&mut self) -> (sat: bool) {
        match self.status {
            Some(status) => {
                proof {
                    if status {
                        self.lemma_satisfied();
                    }
                }
                status
            },
            None => self.cdcl(&None).unwrap(),
        }
    }

    fn assigns(&mut self) -> (a: &Vec<BoolValue>) {
        self.working_model.get_assigned()
    }
}

impl CdclSolver {
    /// A solver for the formula `cnf` that takes its random choices from a
    /// generator made from `seed`, so that they can be had again.
    pub fn with_seed(cnf: &Cnf, seed: u64) -> (s: Self)
        requires
            cnf.wf(),
        ensures
            s.inv(),
            s.num_vars() == cnf.var_num,
            s.formula() == cnf.formula(),
            s.verdict() is None || s.verdict() == Some(false),
            s.current_level() == 0,
            s.values().len() == cnf.var_num,
            s.verdict() is None ==> s.all_covered(),
    {
        let mut solver = <CdclSolver as Solver>::new(cnf);
        let ghost before = solver;
        solver.seeded = Some(seeded_rng(seed));
        proof {
            solver.lemma_same_search(&before);
            solver.lemma_structural_same(&before);
        }
        solver
    }

    /// Whether the parts of the solver fit together depends on neither the
    /// source of random numbers nor the verdict.
    proof fn lemma_structural_same(&self, other: &CdclSolver)
        requires
            other.structural(),
            self.working_model == other.working_model,
            self.clauses == other.clauses,
            self.watchers == other.watchers,
            self.input@ == other.input@,
            self.decisions@ == other.decisions@,
            self.level == other.level,
        ensures
            self.structural(),
    {
    }

    /// Decides whether the formula is satisfiable, within the time allowed
    /// if a time is given. Returns `None` if the time ran out before there
    /// was a verdict; the solver then keeps the clauses it has learned and
    /// may be asked again.
    pub fn solve_until(&mut self, max_time: Option<std::time::Duration>) -> (r: Option<bool>)
        requires
            old(self).inv(),
        ensures
            final(self).inv(),
            final(self).num_vars() == old(self).num_vars(),
            final(self).formula() == old(self).formula(),
            r is None ==> max_time is Some && final(self).verdict() is None,
            match r {
                Some(sat) => {
                    &&& final(self).verdict() == Some(sat)
                    &&& sat == satisfiable(old(self).num_vars(), old(self).formula())
                    &&& sat ==> makes_true(final(self).values(), old(self).formula())
                    &&& sat ==> satisfies(final(self).values(), old(self).formula())
                    &&& final(self).values().len() == old(self).num_vars()
                },
                None => true,
            },
    {
        match self.status {
            Some(status) => {
                proof {
                    if status {
                        self.lemma_satisfied();
                    }
                }
                Some(status)
            },
            None => {
                let deadline = match max_time {
                    Some(limit) => Some((std::time::Instant::now(), limit.as_nanos())),
                    None => None,
                };
                self.cdcl(&deadline)
            },
        }
    }

    /// Gives the solver one more clause. A clause of one literal forces that
    /// literal at the current level, which is level 0 for every solver that
    /// takes a clause, and is not stored; a longer clause is stored after
    /// the clauses there are. Returns `false` if the clause has one literal
    /// and that literal is false already: the formula then has no model.
    ///
    /// A solver that has found a model takes no more clauses: it does not
    /// solve a formula that grows after it has been solved.
    pub fn add_clause(&mut self, clause: Clause) -> (ok: bool)
        requires
            old(self).inv(),
            old(self).verdict() != Some(true),
            clause@.len() >= 1,
            clause_in_range(clause@, old(self).num_vars()),
        ensures
            final(self).inv(),
            final(self).num_vars() == old(self).num_vars(),
            final(self).formula() == old(self).formula().push(clause@),
            ok == !(clause@.len() == 1 && lit_value(old(self).values(), clause@[0])
                == BoolValue::False),
            !ok ==> final(self).verdict() == Some(false),
            ok ==> final(self).verdict() == old(self).verdict(),
            if clause@.len() == 1 && lit_value(old(self).values(), clause@[0])
                == BoolValue::Undefined {
                final(self).values() == old(self).values().update(
                    clause@[0].var_id(),
                    BoolValue::of_polarity(clause@[0].negated()),
                )
            } else {
                final(self).values() == old(self).values()
            },
            clause@.len() >= 2 ==> final(self).store() == old(self).store().push(clause@),
            clause@.len() == 1 ==> final(self).store() == old(self).store(),
            if clause@.len() == 1 && lit_value(old(self).values(), clause@[0])
                == BoolValue::Undefined {
                final(self).model().levels() == old(self).model().levels().update(
                    clause@[0].var_id(),
                    old(self).current_level() as usize,
                )
            } else {
                final(self).model().levels() == old(self).model().levels()
            },
            ok && clause@.len() == 1 ==> lit_value(final(self).values(), clause@[0])
                == BoolValue::True,
            clause@.len() == 1 && lit_value(old(self).values(), clause@[0]) == BoolValue::Undefined
                ==> final(self).model().level_of(clause@[0].var_id()) == old(self).current_level(),
            final(self).model().all_reasons() == old(self).model().all_reasons(),
            final(self).current_level() == old(self).current_level(),
            final(self).values().len() == final(self).num_vars(),
    {
        let ghost c = clause@;
        let ghost n = self.num_vars();
        proof {
            self.input@ = self.input@.push(c);
        }
        let ghost mid = *self;
        proof {
            mid.lemma_input_grows(old(self), c);
            assert(formula_in_range(mid.input@, n)) by {
                assert forall|k: int| 0 <= k < mid.input@.len() implies clause_in_range(
                    #[trigger] mid.input@[k],
                    n,
                ) by {
                    if k < old(self).input@.len() {
                        assert(mid.input@[k] == old(self).input@[k]);
                    }
                }
            }
            assert forall|m: Seq<bool>| #[trigger] is_model(m, n, mid.formula()) implies clause_holds(
                m,
                c,
            ) by {
                assert(mid.formula()[old(self).input@.len() as int] == c);
            }
        }
        let ok = self.insert_clause(clause);
        proof {
            self.lemma_inserted(&mid, c);
            if old(self).status == Some(false) {
                crate::logic::lemma_unsat_grows(n, old(self).formula(), c);
            } else {
                // no verdict yet: the solver stands at level 0
                c[0].lemma_var_range();
                assert(mid.model().level_of(c[0].var_id()) <= mid.decided().len());
                if ok {
                    assert forall|k: int| 0 <= k < self.formula().len() implies self.covered(
                        #[trigger] self.formula()[k],
                    ) by {
                        if k < old(self).formula().len() {
                            assert(old(self).covered(old(self).formula()[k]));
                            assert(mid.formula()[k] == old(self).formula()[k]);
                            mid.lemma_covered_same(old(self), mid.formula()[k]);
                            assert(mid.covered(mid.formula()[k]));
                        } else {
                            assert(self.formula()[k] == c);
                        }
                    }
                } else {
                    assert forall|m: Seq<bool>| !is_model(m, n, self.formula()) by {
                        if is_model(m, n, self.formula()) {
                            assert(self.formula() == mid.formula());
                            assert(is_model(m, mid.num_vars(), mid.formula()));
                            assert(mid.entailed(m));
                            assert(mid.formula()[old(self).input@.len() as int] == c);
                            assert(clause_holds(m, c));
                            let h = choose|h: int| 0 <= h < c.len() && lit_holds(m, #[trigger] c[h]);
                            assert(mid.model().value_of(c[0].var_id()) != BoolValue::Undefined);
                        }
                    }
                }
            }
        }
        ok
    }

    /// Whether a clause is accounted for depends on the assignment and the
    /// stored clauses alone.
    proof fn lemma_covered_same(&self, other: &CdclSolver, c: Seq<Lit>)
        requires
            self.working_model == other.working_model,
            self.store() == other.store(),
            other.covered(c),
        ensures
            self.covered(c),
    {
        if c.len() >= 2 {
            let w = choose|w: int| 0 <= w < other.store().len() && #[trigger] other.store()[w] == c;
            assert(self.store()[w] == c);
        }
    }
}

impl CdclSolver {
    /// What holds at every step of a solve, between any two operations of the
    /// search.
    pub open spec fn searching(&self) -> bool {
        self.structural() && self.search_inv()
    }

    /// The state is orderly: no assignment stands above the current decision
    /// level, a variable without a value has level 0 and is in the queue of
    /// variables to decide, and a variable with reasons has a value and is
    /// no decision.
    pub open spec fn orderly(&self) -> bool {
        &&& forall|v: int|
            0 <= v < self.num_vars() && self.model().value_of(v) != BoolValue::Undefined
                ==> #[trigger] self.model().level_of(v) <= self.current_level()
        &&& forall|v: int|
            0 <= v < self.num_vars() && #[trigger] self.model().value_of(v)
                == BoolValue::Undefined ==> self.model().level_of(v) == 0
                && self.model().queue().has(v)
        &&& forall|v: int|
            0 <= v < self.num_vars() && (#[trigger] self.model().reasons(v)).len() > 0
                ==> !self.decided().contains(v) && self.model().value_of(v)
                != BoolValue::Undefined
    }

    /// A state that a search keeps is orderly.
    pub proof fn lemma_orderly(&self)
        requires
            self.searching(),
        ensures
            self.orderly(),
    {
        self.lemma_levels_within_current();
        self.lemma_unassigned_queued();
        assert forall|v: int|
            0 <= v < self.num_vars() && (#[trigger] self.model().reasons(v)).len()
                > 0 implies !self.decided().contains(v) && self.model().value_of(v)
            != BoolValue::Undefined by {
            self.lemma_reasons_force(v);
        }
    }

    /// What is known of a solver that may be called: its assignment is well
    /// formed, with one value for each variable; with no verdict or with the
    /// verdict unsatisfiable it stands at level 0; with no verdict every
    /// given clause is accounted for; a verdict of unsatisfiable is right,
    /// and with a verdict of satisfiable every given clause has a literal
    /// that is true.
    pub proof fn lemma_inv_gives(&self)
        requires
            self.inv(),
        ensures
            self.model().wf(),
            self.values().len() == self.num_vars(),
            self.verdict() is None ==> self.current_level() == 0 && self.all_covered(),
            self.verdict() == Some(false) ==> self.current_level() == 0 && !satisfiable(
                self.num_vars(),
                self.formula(),
            ),
            self.verdict() == Some(true) ==> makes_true(self.values(), self.formula()),
    {
    }

    /// A solver that may be called is in a state that a search keeps.
    pub proof fn lemma_inv_searching(&self)
        requires
            self.inv(),
        ensures
            self.searching(),
    {
    }

    /// No assignment stands above the current decision level.
    pub proof fn lemma_levels_within_current(&self)
        requires
            self.searching(),
        ensures
            forall|v: int|
                0 <= v < self.num_vars() && self.model().value_of(v) != BoolValue::Undefined
                    ==> #[trigger] self.model().level_of(v) <= self.current_level(),
            forall|v: int|
                0 <= v < self.num_vars() && self.model().value_of(v) == BoolValue::Undefined
                    ==> #[trigger] self.model().level_of(v) == 0,
    {
        assert forall|v: int|
            0 <= v < self.num_vars() && self.model().value_of(v)
                != BoolValue::Undefined implies #[trigger] self.model().level_of(v)
            <= self.current_level() by {
            assert(self.model().level_of(v) <= self.decided().len());
        }
    }

    /// A variable with reasons is no decision: it has a value, and in every
    /// model of the formula in which its reasons hold it has that value.
    pub proof fn lemma_reasons_force(&self, v: int)
        requires
            self.searching(),
            0 <= v < self.num_vars(),
            self.model().reasons(v).len() > 0,
        ensures
            !self.decided().contains(v),
            self.model().value_of(v) != BoolValue::Undefined,
            forall|m: Seq<bool>|
                #[trigger] is_model(m, self.num_vars(), self.formula()) && (forall|j: int|
                    0 <= j < self.model().reasons(v).len() ==> lit_holds(
                        m,
                        #[trigger] self.model().reasons(v)[j],
                    )) ==> m[v] == (self.model().value_of(v) == BoolValue::True),
    {
        if self.decided().contains(v) {
            let k = choose|k: int| 0 <= k < self.decided().len() && self.decided()[k] == v;
            let d = self.decided()[k];
            assert(self.model().reasons(d).len() == 0);
        }
        assert forall|m: Seq<bool>|
            #[trigger] is_model(m, self.num_vars(), self.formula()) && (forall|j: int|
                0 <= j < self.model().reasons(v).len() ==> lit_holds(
                    m,
                    #[trigger] self.model().reasons(v)[j],
                )) implies m[v] == (self.model().value_of(v) == BoolValue::True) by {
            assert(self.entailed(m));
        }
    }

    /// Every variable without a value is in the queue of variables to decide.
    pub proof fn lemma_unassigned_queued(&self)
        requires
            self.searching(),
        ensures
            forall|v: int|
                0 <= v < self.num_vars() && #[trigger] self.model().value_of(v)
                    == BoolValue::Undefined ==> self.model().queue().has(v),
    {
    }
}

} // verus!

use crate::all_types::{
    clause_in_range, formula_in_range, AllClauses, BoolValue, Clause, Lit, Var, MAX_VARS,
};
use crate::heap::{Heap, ACTIVITY_LIMIT, ACTIVITY_RESCALE};
use crate::logic::{
    clause_holds, clause_value, formula_value, is_unit, lemma_complement_value, lit_holds,
    lit_value, unit_at, unit_literal,
};
use std::ops::Not;
use vstd::prelude::*;

verus! {

/// The implication graph: for each variable, the literals that forced its
/// value. If `p` is among the reasons of `q`, then `p` leads to `q`.
pub struct ImplGraph(Vec<Vec<Lit>>);

/// The assignment that a search works on: the value and decision level of
/// each variable, the implication graph, and the queue of variables to decide.
pub struct WorkingModel {
    assigns: Vec<BoolValue>,
    decision_level: Vec<usize>,
    impl_graph: ImplGraph,
    pub heap: Heap,
    order: Ghost<Seq<nat>>,
    clock: Ghost<nat>,
}

/// The reasons that a clause gives for the value of variable `var`: the
/// complements of its literals on other variables, in order.
pub open spec fn reasons_from(c: Seq<Lit>, var: int) -> Seq<Lit>
    decreases c.len(),
{
    if c.len() == 0 {
        Seq::empty()
    } else {
        let rest = reasons_from(c.drop_last(), var);
        if c.last().var_id() != var {
            rest.push(c.last().complement())
        } else {
            rest
        }
    }
}

/// The reasons that a clause gives are the complements of its literals on
/// other variables.
pub proof fn lemma_reasons_from(c: Seq<Lit>, var: int)
    ensures
        forall|k: int|
            0 <= k < c.len() && (#[trigger] c[k]).var_id() != var ==> reasons_from(
                c,
                var,
            ).contains(c[k].complement()),
        forall|j: int|
            0 <= j < reasons_from(c, var).len() ==> exists|k: int|
                0 <= k < c.len() && (#[trigger] c[k]).var_id() != var && c[k].complement()
                    == #[trigger] reasons_from(c, var)[j],
    decreases c.len(),
{
    if c.len() > 0 {
        let rest = reasons_from(c.drop_last(), var);
        lemma_reasons_from(c.drop_last(), var);
        let full = reasons_from(c, var);
        assert forall|k: int| 0 <= k < c.len() && (#[trigger] c[k]).var_id() != var implies full.contains(
            c[k].complement(),
        ) by {
            if k < c.len() - 1 {
                assert(c.drop_last()[k] == c[k]);
                assert(rest.contains(c[k].complement()));
                let j = choose|j: int| 0 <= j < rest.len() && rest[j] == c[k].complement();
                assert(full[j] == c[k].complement());
            } else {
                assert(full[full.len() - 1] == c[k].complement());
            }
        }
        assert forall|j: int| 0 <= j < full.len() implies exists|k: int|
            0 <= k < c.len() && (#[trigger] c[k]).var_id() != var && c[k].complement()
                == #[trigger] full[j] by {
            if j < rest.len() {
                let k = choose|k: int|
                    0 <= k < c.drop_last().len() && (#[trigger] c.drop_last()[k]).var_id() != var
                        && c.drop_last()[k].complement() == rest[j];
                assert(c[k] == c.drop_last()[k]);
            } else {
                assert(c[c.len() - 1].var_id() != var);
            }
        }
    }
}

/// The values after backtracking to `level`: variables assigned above it lose
/// their value.
pub open spec fn values_after_backtrack(values: Seq<BoolValue>, levels: Seq<usize>, level: int) -> Seq<
    BoolValue,
> {
    Seq::new(
        values.len(),
        |v: int|
            if levels[v] > level {
                BoolValue::Undefined
            } else {
                values[v]
            },
    )
}

/// The decision levels after backtracking to `level`: levels above it become 0.
pub open spec fn levels_after_backtrack(levels: Seq<usize>, level: int) -> Seq<usize> {
    Seq::new(
        levels.len(),
        |v: int|
            if levels[v] > level {
                0usize
            } else {
                levels[v]
            },
    )
}

/// The reason sets after backtracking to `level`: those of variables assigned
/// above it become empty.
pub open spec fn reasons_after_backtrack(reasons: Seq<Seq<Lit>>, levels: Seq<usize>, level: int) -> Seq<
    Seq<Lit>,
> {
    Seq::new(
        reasons.len(),
        |v: int|
            if levels[v] > level {
                Seq::<Lit>::empty()
            } else {
                reasons[v]
            },
    )
}

/// Backtracking to a level twice gives what backtracking to it once gives:
/// the values, levels and reasons are those after the first time, and no
/// level is then above the level gone back to, so that the second time
/// leaves the queue of variables to decide as it is, too.
pub proof fn lemma_backtrack_idempotent(
    values: Seq<BoolValue>,
    levels: Seq<usize>,
    reasons: Seq<Seq<Lit>>,
    level: int,
)
    requires
        values.len() == levels.len(),
        reasons.len() == levels.len(),
    ensures
        values_after_backtrack(
            values_after_backtrack(values, levels, level),
            levels_after_backtrack(levels, level),
            level,
        ) == values_after_backtrack(values, levels, level),
        levels_after_backtrack(levels_after_backtrack(levels, level), level)
            == levels_after_backtrack(levels, level),
        reasons_after_backtrack(
            reasons_after_backtrack(reasons, levels, level),
            levels_after_backtrack(levels, level),
            level,
        ) == reasons_after_backtrack(reasons, levels, level),
        forall|v: int|
            0 <= v < levels.len() ==> #[trigger] levels_after_backtrack(levels, level)[v] <= level
                || levels_after_backtrack(levels, level)[v] == 0,
{
    assert(values_after_backtrack(
        values_after_backtrack(values, levels, level),
        levels_after_backtrack(levels, level),
        level,
    ) =~= values_after_backtrack(values, levels, level));
    assert(levels_after_backtrack(levels_after_backtrack(levels, level), level)
        =~= levels_after_backtrack(levels, level));
    assert(reasons_after_backtrack(
        reasons_after_backtrack(reasons, levels, level),
        levels_after_backtrack(levels, level),
        level,
    ) =~= reasons_after_backtrack(reasons, levels, level));
}

impl WorkingModel {
    /// The number of variables.
    pub closed spec fn num_vars(&self) -> int {
        self.assigns.len() as int
    }

    /// The value of each variable.
    pub closed spec fn values(&self) -> Seq<BoolValue> {
        self.assigns@
    }

    /// The decision level of each variable.
    pub closed spec fn levels(&self) -> Seq<usize> {
        self.decision_level@
    }

    /// The reason set of each variable.
    pub closed spec fn all_reasons(&self) -> Seq<Seq<Lit>> {
        Seq::new(self.impl_graph.0.len() as nat, |v: int| self.impl_graph.0[v]@)
    }

    /// The moment at which each variable got its value: a variable that got
    /// its value later has a greater rank.
    pub closed spec fn ranks(&self) -> Seq<nat> {
        self.order@
    }

    /// A moment after every assignment made so far.
    pub closed spec fn now(&self) -> nat {
        self.clock@
    }

    /// The queue of variables to decide.
    pub closed spec fn queue(&self) -> Heap {
        self.heap
    }

    /// The value of variable `v`.
    pub open spec fn value_of(&self, v: int) -> BoolValue {
        self.values()[v]
    }

    /// The decision level of variable `v`.
    pub open spec fn level_of(&self, v: int) -> int {
        self.levels()[v] as int
    }

    /// The reason set of variable `v`.
    pub open spec fn reasons(&self, v: int) -> Seq<Lit> {
        self.all_reasons()[v]
    }

    /// The rank of variable `v`.
    pub open spec fn rank(&self, v: int) -> nat {
        self.ranks()[v]
    }

    /// Literal `r` may stand among the reasons of variable `v`: it is true, and
    /// its variable was assigned before `v`, at a level that is not above that of `v`.
    pub open spec fn supports(&self, r: Lit, v: int) -> bool {
        &&& 0 <= r.var_id() < self.num_vars()
        &&& lit_value(self.values(), r) == BoolValue::True
        &&& self.level_of(r.var_id()) <= self.level_of(v)
        &&& self.rank(r.var_id()) < self.rank(v)
    }

    /// The model is well formed: a variable without a value has level 0 and no
    /// reasons, and every reason supports the variable it stands for.
    pub open spec fn wf(&self) -> bool {
        &&& 0 <= self.num_vars() <= MAX_VARS
        &&& self.values().len() == self.num_vars()
        &&& self.levels().len() == self.num_vars()
        &&& self.all_reasons().len() == self.num_vars()
        &&& self.ranks().len() == self.num_vars()
        &&& self.queue().wf()
        &&& self.queue().capacity() >= self.num_vars()
        &&& forall|v: int| #[trigger] self.queue().has(v) ==> 0 <= v < self.num_vars()
        &&& forall|v: int| 0 <= v < self.num_vars() ==> #[trigger] self.rank(v) < self.now()
        &&& forall|v: int|
            0 <= v < self.num_vars() && #[trigger] self.value_of(v) == BoolValue::Undefined
                ==> self.level_of(v) == 0 && self.reasons(v).len() == 0
        &&& forall|v: int, j: int|
            0 <= v < self.num_vars() && 0 <= j < self.reasons(v).len() ==> self.supports(
                #[trigger] self.reasons(v)[j],
                v,
            )
    }

    /// Every variable without a value is in the queue of variables to decide.
    pub open spec fn queue_covers(&self) -> bool {
        forall|v: int|
            0 <= v < self.num_vars() && #[trigger] self.value_of(v) == BoolValue::Undefined
                ==> self.queue().has(v)
    }

    /// `self` is what going back to decision level `level` makes of `pre`:
    /// each variable assigned above the level has lost its value, its level
    /// and its reasons and is in the queue of variables to decide; nothing
    /// else has changed, and where no variable was assigned above the level,
    /// nothing at all.
    pub open spec fn went_back(&self, pre: &WorkingModel, level: int) -> bool {
        &&& self.num_vars() == pre.num_vars()
        &&& self.values() == values_after_backtrack(pre.values(), pre.levels(), level)
        &&& self.levels() == levels_after_backtrack(pre.levels(), level)
        &&& self.all_reasons() == reasons_after_backtrack(pre.all_reasons(), pre.levels(), level)
        &&& self.ranks() == pre.ranks()
        &&& self.now() == pre.now()
        &&& self.queue().same_activities(&pre.queue())
        &&& forall|v: int|
            self.queue().has(v) <==> pre.queue().has(v) || (0 <= v < pre.num_vars()
                && pre.level_of(v) > level)
        &&& (forall|v: int| 0 <= v < pre.num_vars() ==> pre.level_of(v) <= level) ==> self.queue()
            == pre.queue()
    }

    /// Going back to a level twice gives what going back to it once gives:
    /// the second time leaves the values, levels, reasons, ranks, the clock
    /// and the queue of variables to decide as they are.
    pub proof fn lemma_back_twice(&self, once: &WorkingModel, twice: &WorkingModel, level: int)
        requires
            self.wf(),
            0 <= level,
            once.went_back(self, level),
            twice.went_back(once, level),
        ensures
            twice.same_assignment(once),
            twice.now() == once.now(),
            twice.queue() == once.queue(),
    {
        lemma_backtrack_idempotent(self.values(), self.levels(), self.all_reasons(), level);
        assert forall|v: int| 0 <= v < once.num_vars() implies once.level_of(v) <= level by {
            assert(once.levels()[v] == levels_after_backtrack(self.levels(), level)[v]);
        }
    }

    /// Two models agree on values, levels, reasons and ranks.
    pub open spec fn same_assignment(&self, other: &WorkingModel) -> bool {
        &&& self.num_vars() == other.num_vars()
        &&& self.values() == other.values()
        &&& self.levels() == other.levels()
        &&& self.all_reasons() == other.all_reasons()
        &&& self.ranks() == other.ranks()
        &&& self.now() == other.now()
    }

    /// The total assignment `m` respects the implication graph: wherever all
    /// reasons of a variable hold in `m`, `m` gives the variable the value the
    /// model gives it.
    pub open spec fn respected_by(&self, m: Seq<bool>) -> bool {
        forall|v: int|
            0 <= v < self.num_vars() && (#[trigger] self.reasons(v)).len() > 0 && (forall|j: int|
                0 <= j < self.reasons(v).len() ==> lit_holds(m, #[trigger] self.reasons(v)[j]))
                ==> m[v] == (self.value_of(v) == BoolValue::True)
    }

    /// A model of `n` variables, none of which has a value.
    pub fn new(n: usize) -> (wm: WorkingModel)
        requires
            n <= MAX_VARS,
        ensures
            wm.wf(),
            wm.queue_covers(),
            wm.num_vars() == n,
            forall|v: int| 0 <= v < n ==> wm.value_of(v) == BoolValue::Undefined,
            forall|v: int| 0 <= v < n ==> wm.level_of(v) == 0,
            forall|v: int| 0 <= v < n ==> wm.reasons(v).len() == 0,
            forall|v: int| wm.queue().has(v) <==> 0 <= v < n,
            wm.queue().size() == n,
            forall|v: int| wm.queue().activity_of(v) == 0,
    {
        let mut graph: Vec<Vec<Lit>> = Vec::new();
        let mut i: usize = 0;
        while i < n
            invariant
                i <= n,
                graph.len() == i,
                forall|k: int| 0 <= k < i ==> (#[trigger] graph[k]).len() == 0,
            decreases n - i,
        {
            graph.push(Vec::new());
            i += 1;
        }
        WorkingModel {
            assigns: vec![BoolValue::Undefined; n],
            decision_level: vec![0; n],
            impl_graph: ImplGraph(graph),
            heap: Heap::new(n, 0x10_0000),
            order: Ghost(Seq::new(n as nat, |v: int| 0nat)),
            clock: Ghost(1nat),
        }
    }

    /// Gives variable `var` the value `value` at decision level `level`.
    pub fn assign(&mut self, var: Var, value: BoolValue, level: usize)
        requires
            old(self).wf(),
            var.id() < old(self).num_vars(),
            value != BoolValue::Undefined,
            old(self).value_of(var.id()) == BoolValue::Undefined,
        ensures
            final(self).wf(),
            final(self).num_vars() == old(self).num_vars(),
            final(self).values() == old(self).values().update(var.id(), value),
            final(self).levels() == old(self).levels().update(var.id(), level),
            final(self).all_reasons() == old(self).all_reasons(),
            final(self).queue() == old(self).queue(),
            forall|u: int|
                0 <= u < old(self).num_vars() && u != var.id() ==> final(self).rank(u) == old(
                    self,
                ).rank(u),
            forall|u: int|
                0 <= u < old(self).num_vars() ==> old(self).rank(u) < final(self).rank(var.id()),
    {
        let vi: usize = var.0 as usize;
        self.assigns[vi] = value;
        self.decision_level[vi] = level;
        proof {
            self.order@ = self.order@.update(vi as int, self.clock@);
            self.clock@ = self.clock@ + 1;
            assert(self.all_reasons() =~= old(self).all_reasons());
            assert forall|v: int| 0 <= v < self.num_vars() implies #[trigger] self.rank(v)
                < self.now() by {
                assert(v != vi ==> old(self).rank(v) < old(self).now());
            }
            assert forall|v: int|
                0 <= v < self.num_vars() && #[trigger] self.value_of(v)
                    == BoolValue::Undefined implies self.level_of(v) == 0 && self.reasons(v).len()
                == 0 by {
                assert(old(self).value_of(v) == BoolValue::Undefined);
            }
            assert forall|u: int| 0 <= u < old(self).num_vars() implies old(self).rank(u)
                < self.rank(var.id()) by {
                assert(old(self).rank(u) < old(self).now());
            }
            assert forall|v: int, j: int|
                0 <= v < self.num_vars() && 0 <= j < self.reasons(v).len() implies self.supports(
                #[trigger] self.reasons(v)[j],
                v,
            ) by {
                let r = self.reasons(v)[j];
                assert(old(self).supports(old(self).reasons(v)[j], v));
                assert(r.var_id() != vi);
                assert(v != vi) by {
                    assert(old(self).value_of(vi as int) == BoolValue::Undefined);
                }
                assert(old(self).rank(r.var_id()) < old(self).rank(v));
            }
        }
    }

    /// The decision level of variable `v`.
    #[inline]
    pub fn level(&self, v: Var) -> (l: usize)
        requires
            self.wf(),
            v.id() < self.num_vars(),
        ensures
            l == self.level_of(v.id()),
    {
        self.decision_level[v.0 as usize]
    }

    /// The value of literal `lit` under the model.
    #[inline]
    pub fn eval(&self, lit: Lit) -> (b: BoolValue)
        requires
            self.wf(),
            lit.var_id() < self.num_vars(),
        ensures
            b == lit_value(self.values(), lit),
    {
        proof {
            lit.lemma_var_range();
        }
        let value = self.assigns[lit.get_var().0 as usize];
        if lit.is_neg() {
            value.not()
        } else {
            value
        }
    }

    /// The value of variable `var`.
    #[inline]
    pub fn state_var(&self, var: Var) -> (b: BoolValue)
        requires
            self.wf(),
            var.id() < self.num_vars(),
        ensures
            b == self.value_of(var.id()),
    {
        self.assigns[var.0 as usize]
    }

    /// Records the reasons for the value of `var` that the unit clause
    /// `clause` gives: the complements of its literals on other variables.
    pub fn add_implications(&mut self, var: Var, clause: &Clause)
        requires
            old(self).wf(),
            var.id() < old(self).num_vars(),
            old(self).value_of(var.id()) != BoolValue::Undefined,
            forall|j: int|
                0 <= j < clause@.len() && (#[trigger] clause@[j]).var_id() != var.id() ==> old(
                    self,
                ).supports(clause@[j].complement(), var.id()),
        ensures
            final(self).wf(),
            final(self).num_vars() == old(self).num_vars(),
            final(self).values() == old(self).values(),
            final(self).levels() == old(self).levels(),
            final(self).ranks() == old(self).ranks(),
            final(self).now() == old(self).now(),
            final(self).queue() == old(self).queue(),
            final(self).all_reasons() == old(self).all_reasons().update(
                var.id(),
                old(self).reasons(var.id()) + reasons_from(clause@, var.id()),
            ),
    {
        let vi: usize = var.0 as usize;
        let mut i: usize = 0;
        while i < clause.len()
            invariant
                i <= clause@.len(),
                vi == var.id(),
                self.wf(),
                var.id() < old(self).num_vars(),
                old(self).all_reasons().len() == old(self).num_vars(),
                old(self).value_of(var.id()) != BoolValue::Undefined,
                self.num_vars() == old(self).num_vars(),
                self.values() == old(self).values(),
                self.levels() == old(self).levels(),
                self.ranks() == old(self).ranks(),
                self.now() == old(self).now(),
                self.queue() == old(self).queue(),
                forall|j: int|
                    0 <= j < clause@.len() && (#[trigger] clause@[j]).var_id() != var.id() ==> old(
                        self,
                    ).supports(clause@[j].complement(), var.id()),
                self.all_reasons() == old(self).all_reasons().update(
                    var.id(),
                    old(self).reasons(var.id()) + reasons_from(clause@.take(i as int), var.id()),
                ),
            decreases clause@.len() - i,
        {
            let lit = clause[i];
            let ghost before = *self;
            proof {
                assert(clause@.take(i + 1).drop_last() =~= clause@.take(i as int));
                assert(clause@.take(i + 1).last() == lit);
                lit.lemma_var_range();
            }
            if lit.get_var().0 != var.0 {
                self.impl_graph.0[vi].push(lit.not());
                proof {
                    assert(self.reasons(vi as int) == before.reasons(vi as int).push(
                        lit.complement(),
                    ));
                    assert(reasons_from(clause@.take(i + 1), var.id()) == reasons_from(
                        clause@.take(i as int),
                        var.id(),
                    ).push(lit.complement()));
                    assert forall|v: int| 0 <= v < self.num_vars() && v != vi implies (
                    #[trigger] self.all_reasons()[v]) == before.all_reasons()[v] by {}
                    assert(self.all_reasons() =~~= old(self).all_reasons().update(
                        var.id(),
                        old(self).reasons(var.id()) + reasons_from(
                            clause@.take(i + 1),
                            var.id(),
                        ),
                    ));
                    assert(before.supports(lit.complement(), var.id()));
                    assert forall|v: int, j: int|
                        0 <= v < self.num_vars() && 0 <= j < self.reasons(v).len() implies self.supports(
                        #[trigger] self.reasons(v)[j],
                        v,
                    ) by {
                        if v == vi && j == before.reasons(v).len() {
                        } else {
                            assert(before.supports(before.reasons(v)[j], v));
                        }
                    }
                    assert forall|v: int|
                        0 <= v < self.num_vars() && #[trigger] self.value_of(v)
                            == BoolValue::Undefined implies self.level_of(v) == 0
                        && self.reasons(v).len() == 0 by {
                        assert(before.value_of(v) == BoolValue::Undefined);
                        assert(v != vi);
                        assert(self.all_reasons()[v] == before.all_reasons()[v]);
                    }
                    assert forall|v: int| 0 <= v < self.num_vars() implies #[trigger] self.rank(v)
                        < self.now() by {
                        assert(before.rank(v) < before.now());
                    }
                }
            } else {
                assert(reasons_from(clause@.take(i + 1), var.id()) == reasons_from(
                    clause@.take(i as int),
                    var.id(),
                ));
            }
            i += 1;
        }
        assert(clause@.take(clause@.len() as int) =~= clause@);
    }

    /// One more than the work that unfolding the first `k` reasons of
    /// variable `v` down to variables without reasons takes.
    pub closed spec fn walk(&self, v: int, k: int) -> nat
        decreases self.rank(v), k,
    {
        if k <= 0 || !(0 <= v < self.num_vars()) || k > self.reasons(v).len() {
            1
        } else {
            let u = self.reasons(v)[k - 1].var_id();
            if 0 <= u < self.num_vars() && self.rank(u) < self.rank(v) {
                self.walk(v, k - 1) + self.walk(u, self.reasons(u).len() as int)
            } else {
                self.walk(v, k - 1)
            }
        }
    }

    /// The work that unfolding variable `v` takes.
    pub closed spec fn cost(&self, v: int) -> nat {
        self.walk(v, self.reasons(v).len() as int)
    }

    /// The work that unfolding every literal of a stack takes.
    pub closed spec fn stack_cost(&self, stack: Seq<Lit>) -> nat
        decreases stack.len(),
    {
        if stack.len() == 0 {
            0
        } else {
            self.stack_cost(stack.drop_last()) + self.cost(stack.last().var_id())
        }
    }

    /// Unfolding takes at least one step.
    proof fn lemma_walk_positive(&self, v: int, k: int)
        ensures
            self.walk(v, k) >= 1,
        decreases k,
    {
        if k <= 0 || !(0 <= v < self.num_vars()) || k > self.reasons(v).len() {
        } else {
            self.lemma_walk_positive(v, k - 1);
        }
    }

    /// Unfolding one more reason of a variable takes the work of that reason more.
    proof fn lemma_walk_step(&self, v: int, k: int)
        requires
            self.wf(),
            0 <= v < self.num_vars(),
            0 <= k < self.reasons(v).len(),
        ensures
            self.walk(v, k + 1) == self.walk(v, k) + self.cost(self.reasons(v)[k].var_id()),
    {
        assert(self.supports(self.reasons(v)[k], v));
    }

    /// A literal put on the stack adds its work to that of the stack.
    proof fn lemma_stack_cost_push(&self, stack: Seq<Lit>, l: Lit)
        ensures
            self.stack_cost(stack.push(l)) == self.stack_cost(stack) + self.cost(l.var_id()),
    {
        assert(stack.push(l).drop_last() =~= stack);
    }

    /// Literal `b` is reached from literal `a` in `k` steps, each from a
    /// literal to one of the reasons of its variable.
    pub open spec fn leads(&self, a: Lit, b: Lit, k: nat) -> bool
        decreases k,
    {
        if k == 0 {
            a == b
        } else {
            0 <= a.var_id() < self.num_vars() && exists|j: int|
                0 <= j < self.reasons(a.var_id()).len() && self.leads(
                    #[trigger] self.reasons(a.var_id())[j],
                    b,
                    (k - 1) as nat,
                )
        }
    }

    /// Literal `b` is reached from literal `a` along reasons.
    pub open spec fn traces_to(&self, a: Lit, b: Lit) -> bool {
        exists|k: nat| self.leads(a, b, k)
    }

    /// Literal `b` is reached from the complement of a literal of clause `c`.
    pub open spec fn origin(&self, c: Seq<Lit>, b: Lit) -> bool {
        exists|i: int| 0 <= i < c.len() && self.traces_to((#[trigger] c[i]).complement(), b)
    }

    /// Literal `b` is reached from a literal of the stack.
    pub open spec fn pending(&self, stack: Seq<Lit>, b: Lit) -> bool {
        exists|t: int| 0 <= t < stack.len() && self.traces_to(#[trigger] stack[t], b)
    }

    /// Literal `b` is on a variable without reasons and is reached from the
    /// complement of a literal of clause `c`: one of the assignments that the
    /// falsity of `c` goes back to.
    pub open spec fn root_of(&self, c: Seq<Lit>, b: Lit) -> bool {
        &&& 0 <= b.var_id() < self.num_vars()
        &&& self.reasons(b.var_id()).len() == 0
        &&& self.origin(c, b)
    }

    /// The first step of a walk along reasons.
    proof fn lemma_leads_first(&self, a: Lit, b: Lit, k: nat) -> (j: int)
        requires
            self.leads(a, b, k),
            k > 0,
        ensures
            0 <= a.var_id() < self.num_vars(),
            0 <= j < self.reasons(a.var_id()).len(),
            self.leads(self.reasons(a.var_id())[j], b, (k - 1) as nat),
    {
        choose|j: int|
            0 <= j < self.reasons(a.var_id()).len() && self.leads(
                #[trigger] self.reasons(a.var_id())[j],
                b,
                (k - 1) as nat,
            )
    }

    /// A walk along reasons from one of the reasons of a literal is a walk
    /// from the literal, one step longer.
    proof fn lemma_leads_from(&self, a: Lit, b: Lit, k: nat, j: int)
        requires
            0 <= a.var_id() < self.num_vars(),
            0 <= j < self.reasons(a.var_id()).len(),
            self.leads(self.reasons(a.var_id())[j], b, k),
        ensures
            self.leads(a, b, k + 1),
    {
        assert(((k + 1) - 1) as nat == k);
    }

    /// A walk along reasons can be taken one step further.
    proof fn lemma_leads_on(&self, a: Lit, b: Lit, k: nat, j: int)
        requires
            self.leads(a, b, k),
            0 <= b.var_id() < self.num_vars(),
            0 <= j < self.reasons(b.var_id()).len(),
        ensures
            self.leads(a, self.reasons(b.var_id())[j], k + 1),
        decreases k,
    {
        let c = self.reasons(b.var_id())[j];
        if k == 0 {
            assert(self.leads(c, c, 0));
            self.lemma_leads_from(a, c, 0, j);
        } else {
            let j0 = self.lemma_leads_first(a, b, k);
            self.lemma_leads_on(self.reasons(a.var_id())[j0], b, (k - 1) as nat, j);
            self.lemma_leads_from(a, c, k, j0);
        }
    }

    /// What is reached from a literal reached from a clause is reached from the clause.
    proof fn lemma_origin_on(&self, c: Seq<Lit>, b: Lit, j: int)
        requires
            self.origin(c, b),
            0 <= b.var_id() < self.num_vars(),
            0 <= j < self.reasons(b.var_id()).len(),
        ensures
            self.origin(c, self.reasons(b.var_id())[j]),
    {
        let i = choose|i: int| 0 <= i < c.len() && self.traces_to((#[trigger] c[i]).complement(), b);
        let k = choose|k: nat| self.leads(c[i].complement(), b, k);
        self.lemma_leads_on(c[i].complement(), b, k, j);
        assert(self.traces_to(c[i].complement(), self.reasons(b.var_id())[j]));
    }

    /// Some literal of the stack does not hold in `m`.
    pub open spec fn some_fails(m: Seq<bool>, stack: Seq<Lit>) -> bool {
        exists|j: int| 0 <= j < stack.len() && !lit_holds(m, #[trigger] stack[j])
    }

    /// Follows the implication graph back from a clause to the assignments
    /// that have no reasons, and returns the clause made of the complements
    /// of those assignments, each once.
    ///
    /// If the clause is false under the model, so is the result, and the
    /// result holds in every total assignment that respects the implication
    /// graph and makes the clause true.
    pub fn find_conflict(&self, conflict: &Clause) -> (learnt: Clause)
        requires
            self.wf(),
            clause_in_range(conflict@, self.num_vars()),
        ensures
            clause_in_range(learnt@, self.num_vars()),
            forall|j: int|
                0 <= j < learnt@.len() ==> self.reasons((#[trigger] learnt@[j]).var_id()).len() == 0,
            learnt@.no_duplicates(),
            forall|l: Lit| #[trigger] learnt@.contains(l) <==> self.root_of(conflict@, l.complement()),
            conflict@.len() > 0 ==> learnt@.len() > 0,
            clause_value(self.values(), conflict@) == BoolValue::False ==> {
                &&& forall|j: int|
                    0 <= j < learnt@.len() ==> lit_value(self.values(), #[trigger] learnt@[j])
                        == BoolValue::False
                &&& forall|m: Seq<bool>|
                    m.len() == self.num_vars() && #[trigger] self.respected_by(m) && clause_holds(
                        m,
                        conflict@,
                    ) ==> clause_holds(m, learnt@)
            },
    {
        let ghost falsified = clause_value(self.values(), conflict@) == BoolValue::False;
        let ghost n = self.num_vars();
        let mut stack: Vec<Lit> = Vec::new();
        let mut conflict_clause: Vec<Lit> = Vec::new();
        let mut i: usize = 0;
        while i < conflict.len()
            invariant
                i <= conflict@.len(),
                n == self.num_vars(),
                clause_in_range(conflict@, n),
                stack@.len() == i,
                forall|j: int| 0 <= j < i ==> #[trigger] stack@[j] == conflict@[j].complement(),
            decreases conflict@.len() - i,
        {
            stack.push(conflict[i].not());
            i += 1;
        }
        proof {
            assert forall|j: int| 0 <= j < stack@.len() implies (#[trigger] stack@[j]).var_id()
                < n by {
                conflict@[j].lemma_complement();
            }
            assert forall|t: int| 0 <= t < stack@.len() implies self.origin(
                conflict@,
                #[trigger] stack@[t],
            ) by {
                assert(self.leads(conflict@[t].complement(), stack@[t], 0));
                assert(self.traces_to(conflict@[t].complement(), stack@[t]));
            }
            assert forall|r: Lit| #[trigger] self.root_of(conflict@, r) implies conflict_clause@.contains(
                r.complement(),
            ) || self.pending(stack@, r) by {
                let i = choose|i: int|
                    0 <= i < conflict@.len() && self.traces_to(
                        (#[trigger] conflict@[i]).complement(),
                        r,
                    );
                assert(self.traces_to(stack@[i], r));
            }
            if falsified {
                assert forall|j: int| 0 <= j < stack@.len() implies lit_value(
                    self.values(),
                    #[trigger] stack@[j],
                ) == BoolValue::True by {
                    lemma_complement_value(self.values(), conflict@[j]);
                }
                assert forall|m: Seq<bool>|
                    m.len() == n && #[trigger] self.respected_by(m) && clause_holds(
                        m,
                        conflict@,
                    ) implies Self::some_fails(m, stack@) || clause_holds(m, conflict_clause@) by {
                    let j = choose|j: int|
                        0 <= j < conflict@.len() && lit_holds(m, #[trigger] conflict@[j]);
                    crate::logic::lemma_complement_holds(m, conflict@[j]);
                    assert(!lit_holds(m, stack@[j]));
                }
            }
        }
        while stack.len() > 0
            invariant
                self.wf(),
                n == self.num_vars(),
                falsified == (clause_value(self.values(), conflict@) == BoolValue::False),
                forall|j: int| 0 <= j < stack@.len() ==> (#[trigger] stack@[j]).var_id() < n,
                clause_in_range(conflict_clause@, n),
                forall|j: int|
                    0 <= j < conflict_clause@.len() ==> self.reasons(
                        (#[trigger] conflict_clause@[j]).var_id(),
                    ).len() == 0,
                conflict_clause@.no_duplicates(),
                forall|t: int| 0 <= t < stack@.len() ==> self.origin(conflict@, #[trigger] stack@[t]),
                forall|j: int|
                    0 <= j < conflict_clause@.len() ==> self.origin(
                        conflict@,
                        (#[trigger] conflict_clause@[j]).complement(),
                    ),
                forall|r: Lit| #[trigger]
                    self.root_of(conflict@, r) ==> conflict_clause@.contains(r.complement())
                        || self.pending(stack@, r),
                conflict@.len() > 0 ==> stack@.len() > 0 || conflict_clause@.len() > 0,
                falsified ==> forall|j: int|
                    0 <= j < stack@.len() ==> lit_value(self.values(), #[trigger] stack@[j])
                        == BoolValue::True,
                falsified ==> forall|j: int|
                    0 <= j < conflict_clause@.len() ==> lit_value(
                        self.values(),
                        #[trigger] conflict_clause@[j],
                    ) == BoolValue::False,
                falsified ==> forall|m: Seq<bool>|
                    m.len() == n && #[trigger] self.respected_by(m) && clause_holds(m, conflict@)
                        ==> Self::some_fails(m, stack@) || clause_holds(m, conflict_clause@),
            decreases self.stack_cost(stack@),
        {
            let ghost old_stack = stack@;
            let ghost old_cc = conflict_clause@;
            let lit = stack.pop().unwrap();
            let ghost rest = stack@;
            let vi: usize = lit.get_var().0 as usize;
            proof {
                assert(old_stack =~= rest.push(lit));
                self.lemma_stack_cost_push(rest, lit);
                self.lemma_walk_positive(vi as int, self.reasons(vi as int).len() as int);
                lit.lemma_complement();
                lemma_complement_value(self.values(), lit);
                assert(lit == old_stack[old_stack.len() - 1]);
            }
            let negated = lit.not();
            if self.impl_graph.0[vi].len() == 0 && !contains_lit(&conflict_clause, negated) {
                conflict_clause.push(negated);
                proof {
                    assert(conflict_clause@[old_cc.len() as int] == negated);
                    assert(self.origin(conflict@, lit));
                    assert forall|j: int| 0 <= j < conflict_clause@.len() implies self.origin(
                        conflict@,
                        (#[trigger] conflict_clause@[j]).complement(),
                    ) by {
                        if j < old_cc.len() {
                            assert(conflict_clause@[j] == old_cc[j]);
                        }
                    }
                    assert forall|r: Lit| #[trigger] self.root_of(conflict@, r) implies conflict_clause@.contains(
                        r.complement(),
                    ) || self.pending(stack@, r) by {
                        if old_cc.contains(r.complement()) {
                            let c = choose|c: int|
                                0 <= c < old_cc.len() && old_cc[c] == r.complement();
                            assert(conflict_clause@[c] == r.complement());
                        } else {
                            let t = choose|t: int|
                                0 <= t < old_stack.len() && self.traces_to(
                                    #[trigger] old_stack[t],
                                    r,
                                );
                            if t < rest.len() {
                                assert(self.traces_to(stack@[t], r));
                            } else {
                                assert(old_stack[t] == lit);
                                let k = choose|k: nat| self.leads(lit, r, k);
                                if k > 0 {
                                    let j = self.lemma_leads_first(lit, r, k);
                                }
                                assert(k == 0);
                                assert(conflict_clause@[old_cc.len() as int] == r.complement());
                            }
                        }
                    }
                    if falsified {
                        assert forall|m: Seq<bool>|
                            m.len() == n && #[trigger] self.respected_by(m) && clause_holds(
                                m,
                                conflict@,
                            ) implies Self::some_fails(m, stack@) || clause_holds(
                            m,
                            conflict_clause@,
                        ) by {
                            if Self::some_fails(m, old_stack) {
                                let j = choose|j: int|
                                    0 <= j < old_stack.len() && !lit_holds(
                                        m,
                                        #[trigger] old_stack[j],
                                    );
                                if j < rest.len() {
                                    assert(!lit_holds(m, rest[j]));
                                } else {
                                    crate::logic::lemma_complement_holds(m, lit);
                                    assert(lit_holds(m, conflict_clause@[old_cc.len() as int]));
                                }
                            } else {
                                let j = choose|j: int|
                                    0 <= j < old_cc.len() && lit_holds(m, #[trigger] old_cc[j]);
                                assert(lit_holds(m, conflict_clause@[j]));
                            }
                        }
                    }
                }
            } else {
                let reasons = &self.impl_graph.0[vi];
                let mut k: usize = 0;
                while k < reasons.len()
                    invariant
                        self.wf(),
                        n == self.num_vars(),
                        vi < n,
                        k <= reasons@.len(),
                        reasons@ == self.reasons(vi as int),
                        stack@ == rest + reasons@.take(k as int),
                        self.stack_cost(stack@) == self.stack_cost(rest) + self.walk(
                            vi as int,
                            k as int,
                        ) - 1,
                    decreases reasons@.len() - k,
                {
                    proof {
                        self.lemma_walk_step(vi as int, k as int);
                        self.lemma_stack_cost_push(stack@, reasons@[k as int]);
                        assert(reasons@.take(k + 1) =~= reasons@.take(k as int).push(
                            reasons@[k as int],
                        ));
                    }
                    stack.push(reasons[k]);
                    proof {
                        assert(stack@ =~= rest + reasons@.take(k + 1));
                    }
                    k += 1;
                }
                proof {
                    assert(reasons@.take(reasons@.len() as int) =~= reasons@);
                    assert(self.origin(conflict@, lit));
                    assert forall|t: int| 0 <= t < stack@.len() implies self.origin(
                        conflict@,
                        #[trigger] stack@[t],
                    ) by {
                        if t < rest.len() {
                            assert(stack@[t] == old_stack[t]);
                        } else {
                            self.lemma_origin_on(conflict@, lit, t - rest.len());
                        }
                    }
                    assert forall|r: Lit| #[trigger] self.root_of(conflict@, r) implies conflict_clause@.contains(
                        r.complement(),
                    ) || self.pending(stack@, r) by {
                        if !old_cc.contains(r.complement()) {
                            let t = choose|t: int|
                                0 <= t < old_stack.len() && self.traces_to(
                                    #[trigger] old_stack[t],
                                    r,
                                );
                            if t < rest.len() {
                                assert(stack@[t] == old_stack[t]);
                                assert(self.traces_to(stack@[t], r));
                            } else {
                                assert(old_stack[t] == lit);
                                let k = choose|k: nat| self.leads(lit, r, k);
                                if k == 0 {
                                    // a literal without reasons that was met before
                                    assert(r == lit);
                                    assert(old_cc.contains(negated));
                                } else {
                                    let j = self.lemma_leads_first(lit, r, k);
                                    assert(stack@[rest.len() + j] == self.reasons(lit.var_id())[j]);
                                    assert(self.leads(stack@[rest.len() + j], r, (k - 1) as nat));
                                    assert(self.traces_to(stack@[rest.len() + j], r));
                                }
                            }
                        }
                    }
                    assert forall|j: int| 0 <= j < stack@.len() implies (#[trigger] stack@[j]).var_id()
                        < n by {
                        if j < rest.len() {
                            assert(stack@[j] == old_stack[j]);
                        } else {
                            assert(self.supports(self.reasons(vi as int)[j - rest.len()], vi as int));
                        }
                    }
                    if falsified {
                        assert forall|j: int| 0 <= j < stack@.len() implies lit_value(
                            self.values(),
                            #[trigger] stack@[j],
                        ) == BoolValue::True by {
                            if j < rest.len() {
                                assert(stack@[j] == old_stack[j]);
                            } else {
                                assert(self.supports(
                                    self.reasons(vi as int)[j - rest.len()],
                                    vi as int,
                                ));
                            }
                        }
                        assert forall|m: Seq<bool>|
                            m.len() == n && #[trigger] self.respected_by(m) && clause_holds(
                                m,
                                conflict@,
                            ) implies Self::some_fails(m, stack@) || clause_holds(
                            m,
                            conflict_clause@,
                        ) by {
                            if Self::some_fails(m, old_stack) {
                                let j = choose|j: int|
                                    0 <= j < old_stack.len() && !lit_holds(
                                        m,
                                        #[trigger] old_stack[j],
                                    );
                                if j < rest.len() {
                                    assert(!lit_holds(m, stack@[j]));
                                } else if reasons@.len() == 0 {
                                    assert(old_cc.contains(negated));
                                    let c = choose|c: int|
                                        0 <= c < old_cc.len() && old_cc[c] == negated;
                                    crate::logic::lemma_complement_holds(m, lit);
                                    assert(lit_holds(m, conflict_clause@[c]));
                                } else {
                                    assert(lit_value(self.values(), lit) == BoolValue::True);
                                    assert(m[vi as int] != (self.value_of(vi as int)
                                        == BoolValue::True));
                                    assert(self.reasons(vi as int).len() > 0);
                                    let r = choose|r: int|
                                        0 <= r < self.reasons(vi as int).len() && !lit_holds(
                                            m,
                                            #[trigger] self.reasons(vi as int)[r],
                                        );
                                    assert(stack@[rest.len() + r] == self.reasons(vi as int)[r]);
                                    assert(!lit_holds(m, stack@[rest.len() + r]));
                                }
                            }
                        }
                    }
                }
            }
        }
        proof {
            assert forall|l: Lit| #[trigger] conflict_clause@.contains(l) implies self.root_of(
                conflict@,
                l.complement(),
            ) by {
                let j = choose|j: int| 0 <= j < conflict_clause@.len() && conflict_clause@[j] == l;
                l.lemma_complement();
                l.lemma_var_range();
                assert(self.origin(conflict@, conflict_clause@[j].complement()));
                assert(self.reasons(conflict_clause@[j].var_id()).len() == 0);
                assert(conflict_clause@[j].var_id() < self.num_vars());
            }
            assert forall|l: Lit| self.root_of(conflict@, l.complement()) implies #[trigger] conflict_clause@.contains(
                l,
            ) by {
                l.lemma_complement();
                assert(!self.pending(stack@, l.complement()));
            }
        }
        conflict_clause
    }

    /// The state of a clause under the model: true if some literal is true,
    /// false if all are false, undefined otherwise.
    pub fn state_clause(&self, clause: &Clause) -> (b: BoolValue)
        requires
            self.wf(),
            clause_in_range(clause@, self.num_vars()),
        ensures
            b == clause_value(self.values(), clause@),
    {
        let mut state_clause = BoolValue::False;
        let mut i: usize = 0;
        while i < clause.len()
            invariant
                i <= clause@.len(),
                self.wf(),
                clause_in_range(clause@, self.num_vars()),
                forall|j: int|
                    0 <= j < i ==> lit_value(self.values(), #[trigger] clause@[j])
                        != BoolValue::True,
                state_clause == BoolValue::False || state_clause == BoolValue::Undefined,
                state_clause == BoolValue::False <==> forall|j: int|
                    0 <= j < i ==> lit_value(self.values(), #[trigger] clause@[j])
                        == BoolValue::False,
            decreases clause@.len() - i,
        {
            match self.eval(clause[i]) {
                BoolValue::True => {
                    return BoolValue::True;
                },
                BoolValue::Undefined => {
                    state_clause = BoolValue::Undefined;
                },
                _ => {},
            }
            i += 1;
        }
        state_clause
    }

    /// The state of a formula under the model: false if some clause is false,
    /// true if all are true, undefined otherwise.
    pub fn state_formula(&self, formula: &AllClauses) -> (b: BoolValue)
        requires
            self.wf(),
            formula_in_range(formula.formula(), self.num_vars()),
        ensures
            b == formula_value(self.values(), formula.formula()),
    {
        let mut is_undefined = false;
        let mut i: usize = 0;
        while i < formula.clauses.len()
            invariant
                i <= formula.formula().len(),
                formula.formula().len() == formula.clauses@.len(),
                self.wf(),
                formula_in_range(formula.formula(), self.num_vars()),
                forall|k: int|
                    0 <= k < i ==> clause_value(self.values(), #[trigger] formula.formula()[k])
                        != BoolValue::False,
                !is_undefined <==> forall|k: int|
                    0 <= k < i ==> clause_value(self.values(), #[trigger] formula.formula()[k])
                        == BoolValue::True,
            decreases formula.formula().len() - i,
        {
            assert(formula.formula()[i as int] == formula.clauses@[i as int]@);
            match self.state_clause(&formula.clauses[i]) {
                BoolValue::False => return BoolValue::False,
                BoolValue::Undefined => is_undefined = true,
                _ => {},
            }
            i += 1;
        }
        if is_undefined {
            BoolValue::Undefined
        } else {
            BoolValue::True
        }
    }

    /// The first clause of the formula that is false under the model, if any.
    pub fn conflicting(&self, formula: &AllClauses) -> (r: Option<Clause>)
        requires
            self.wf(),
            formula_in_range(formula.formula(), self.num_vars()),
        ensures
            match r {
                Some(c) => exists|i: int|
                    {
                        &&& 0 <= i < formula.formula().len()
                        &&& c@ == #[trigger] formula.formula()[i]
                        &&& clause_value(self.values(), c@) == BoolValue::False
                        &&& forall|k: int|
                            0 <= k < i ==> clause_value(
                                self.values(),
                                #[trigger] formula.formula()[k],
                            ) != BoolValue::False
                    },
                None => formula_value(self.values(), formula.formula()) != BoolValue::False,
            },
    {
        let mut i: usize = 0;
        while i < formula.clauses.len()
            invariant
                i <= formula.formula().len(),
                formula.formula().len() == formula.clauses@.len(),
                self.wf(),
                formula_in_range(formula.formula(), self.num_vars()),
                forall|k: int|
                    0 <= k < i ==> clause_value(self.values(), #[trigger] formula.formula()[k])
                        != BoolValue::False,
            decreases formula.formula().len() - i,
        {
            assert(formula.formula()[i as int] == formula.clauses@[i as int]@);
            if self.state_clause(&formula.clauses[i]) == BoolValue::False {
                let c = formula.clauses[i].clone();
                assert(c@ =~= formula.formula()[i as int]);
                return Some(c);
            }
            i += 1;
        }
        None
    }

    /// The literal that a unit clause forces: if exactly one literal of the
    /// clause is undefined and all others are false, that literal.
    pub fn is_unit_clause(&self, clause: &Clause) -> (r: Option<Lit>)
        requires
            self.wf(),
            clause_in_range(clause@, self.num_vars()),
        ensures
            r == unit_literal(self.values(), clause@),
            match r {
                Some(l) => exists|j: int| unit_at(self.values(), clause@, j) && clause@[j] == l,
                None => !is_unit(self.values(), clause@),
            },
    {
        let mut undefined_lit: Option<Lit> = None;
        let ghost mut at: int = 0;
        let mut i: usize = 0;
        while i < clause.len()
            invariant
                i <= clause@.len(),
                self.wf(),
                clause_in_range(clause@, self.num_vars()),
                match undefined_lit {
                    Some(l) => {
                        &&& 0 <= at < i
                        &&& clause@[at] == l
                        &&& lit_value(self.values(), l) == BoolValue::Undefined
                        &&& forall|k: int|
                            0 <= k < i && k != at ==> lit_value(
                                self.values(),
                                #[trigger] clause@[k],
                            ) == BoolValue::False
                    },
                    None => forall|k: int|
                        0 <= k < i ==> lit_value(self.values(), #[trigger] clause@[k])
                            == BoolValue::False,
                },
            decreases clause@.len() - i,
        {
            match self.eval(clause[i]) {
                BoolValue::True => {
                    assert forall|j: int| !unit_at(self.values(), clause@, j) by {
                        if unit_at(self.values(), clause@, j) {
                            assert(lit_value(self.values(), clause@[i as int]) == BoolValue::True);
                        }
                    }
                    return None;
                },
                BoolValue::Undefined => {
                    if undefined_lit.is_some() {
                        assert forall|j: int| !unit_at(self.values(), clause@, j) by {
                            if unit_at(self.values(), clause@, j) {
                                assert(lit_value(self.values(), clause@[i as int])
                                    == BoolValue::Undefined);
                                assert(lit_value(self.values(), clause@[at])
                                    == BoolValue::Undefined);
                            }
                        }
                        return None;
                    } else {
                        undefined_lit = Some(clause[i]);
                        proof {
                            at = i as int;
                        }
                    }
                },
                _ => {},
            }
            i += 1;
        }
        proof {
            match undefined_lit {
                Some(l) => {
                    assert(unit_at(self.values(), clause@, at));
                    let j = choose|j: int| unit_at(self.values(), clause@, j);
                    assert(j == at);
                },
                None => {
                    assert forall|j: int| !unit_at(self.values(), clause@, j) by {
                        if unit_at(self.values(), clause@, j) {
                            assert(lit_value(self.values(), clause@[j]) == BoolValue::False);
                        }
                    }
                },
            }
        }
        undefined_lit
    }

    /// The first variable without a value, if any.
    #[allow(dead_code)]
    pub fn next_unassigned(&self) -> (r: Option<Var>)
        requires
            self.wf(),
        ensures
            match r {
                Some(v) => {
                    &&& 0 <= v.id() < self.num_vars()
                    &&& self.value_of(v.id()) == BoolValue::Undefined
                    &&& forall|u: int| 0 <= u < v.id() ==> self.value_of(u) != BoolValue::Undefined
                },
                None => forall|u: int|
                    0 <= u < self.num_vars() ==> self.value_of(u) != BoolValue::Undefined,
            },
    {
        let mut i: usize = 0;
        while i < self.assigns.len()
            invariant
                i <= self.num_vars() <= MAX_VARS,
                self.values().len() == self.num_vars(),
                forall|u: int| 0 <= u < i ==> self.value_of(u) != BoolValue::Undefined,
            decreases self.num_vars() - i,
        {
            if self.assigns[i] == BoolValue::Undefined {
                return Some(Var::from_id(i));
            }
            i += 1;
        }
        None
    }

    /// A model that differs from a well-formed one only in its queue is well
    /// formed if the queue is.
    proof fn lemma_queue_changed(&self, before: &WorkingModel)
        requires
            before.wf(),
            self.same_assignment(before),
            self.queue().wf(),
            self.queue().capacity() >= self.num_vars(),
            forall|v: int| self.queue().has(v) ==> before.queue().has(v),
        ensures
            self.wf(),
            before.queue_covers() && (forall|v: int|
                before.queue().has(v) ==> self.queue().has(v)) ==> self.queue_covers(),
    {
        assert forall|v: int| 0 <= v < self.num_vars() implies #[trigger] self.rank(v)
            < self.now() by {
            assert(before.rank(v) < before.now());
        }
        assert forall|v: int|
            0 <= v < self.num_vars() && #[trigger] self.value_of(v)
                == BoolValue::Undefined implies self.level_of(v) == 0 && self.reasons(v).len()
            == 0 by {
            assert(before.value_of(v) == BoolValue::Undefined);
        }
        assert forall|v: int, j: int|
            0 <= v < self.num_vars() && 0 <= j < self.reasons(v).len() implies self.supports(
            #[trigger] self.reasons(v)[j],
            v,
        ) by {
            assert(before.supports(before.reasons(v)[j], v));
        }
        assert forall|v: int| #[trigger] self.queue().has(v) implies 0 <= v < self.num_vars() by {
            assert(before.queue().has(v));
        }
        if before.queue_covers() && (forall|v: int|
            before.queue().has(v) ==> self.queue().has(v)) {
            assert forall|v: int|
                0 <= v < self.num_vars() && #[trigger] self.value_of(v)
                    == BoolValue::Undefined implies self.queue().has(v) by {
                assert(before.value_of(v) == BoolValue::Undefined);
            }
        }
    }

    /// Takes a variable of greatest activity out of the queue of variables to
    /// decide; `None` if the queue is empty.
    pub fn pop_queue(&mut self) -> (r: Option<Var>)
        requires
            old(self).wf(),
        ensures
            final(self).wf(),
            final(self).same_assignment(old(self)),
            final(self).queue().same_activities(&old(self).queue()),
            final(self).queue().popped_from(&old(self).queue(), r),
            match r {
                None => forall|v: int| !old(self).queue().has(v) && !final(self).queue().has(v),
                Some(x) => {
                    &&& 0 <= x.id() < old(self).num_vars()
                    &&& old(self).queue().has(x.id())
                    &&& final(self).queue().size() == old(self).queue().size() - 1
                    &&& forall|v: int|
                        final(self).queue().has(v) <==> old(self).queue().has(v) && v != x.id()
                    &&& forall|v: int|
                        old(self).queue().has(v) ==> old(self).queue().activity_of(v) <= old(
                            self,
                        ).queue().activity_of(x.id())
                },
            },
    {
        let r = self.heap.pop();
        proof {
            assert(self.all_reasons() =~= old(self).all_reasons());
            self.lemma_queue_changed(old(self));
        }
        r
    }

    /// Raises the activity of variable `v` by the current bump value.
    pub fn bump_activity(&mut self, v: Var)
        requires
            old(self).wf(),
            v.id() < old(self).num_vars(),
        ensures
            final(self).wf(),
            final(self).same_assignment(old(self)),
            final(self).queue().same_members(&old(self).queue()),
            old(self).queue_covers() ==> final(self).queue_covers(),
            ({
                let raised = old(self).queue().activity_of(v.id()) + old(self).queue().bump();
                if raised < ACTIVITY_LIMIT {
                    &&& final(self).queue().bump() == old(self).queue().bump()
                    &&& final(self).queue().activity_of(v.id()) == raised
                    &&& forall|u: int|
                        u != v.id() ==> final(self).queue().activity_of(u) == old(
                            self,
                        ).queue().activity_of(u)
                } else {
                    &&& final(self).queue().bump() == old(self).queue().bump() / (
                    ACTIVITY_RESCALE as int)
                    &&& final(self).queue().activity_of(v.id()) == raised / (
                    ACTIVITY_RESCALE as int)
                    &&& forall|u: int|
                        u != v.id() ==> final(self).queue().activity_of(u) == old(
                            self,
                        ).queue().activity_of(u) / (ACTIVITY_RESCALE as int)
                }
            }),
    {
        self.heap.incr_activity(v);
        proof {
            assert(self.all_reasons() =~= old(self).all_reasons());
            self.lemma_queue_changed(old(self));
        }
    }

    /// Raises the bump value, so that later bumps weigh more.
    pub fn decay_activity(&mut self)
        requires
            old(self).wf(),
        ensures
            final(self).wf(),
            final(self).same_assignment(old(self)),
            final(self).queue().same_members(&old(self).queue()),
            old(self).queue_covers() ==> final(self).queue_covers(),
            ({
                let raised = old(self).queue().bump() + old(self).queue().bump() / 20 + 1;
                if raised < ACTIVITY_LIMIT {
                    &&& final(self).queue().bump() == raised
                    &&& forall|v: int|
                        final(self).queue().activity_of(v) == old(self).queue().activity_of(v)
                } else {
                    &&& final(self).queue().bump() == raised / (ACTIVITY_RESCALE as int)
                    &&& forall|v: int|
                        final(self).queue().activity_of(v) == old(self).queue().activity_of(v) / (
                        ACTIVITY_RESCALE as int)
                }
            }),
    {
        self.heap.decay_inc();
        proof {
            assert(self.all_reasons() =~= old(self).all_reasons());
            self.lemma_queue_changed(old(self));
        }
    }

    /// The variables without a value, in rising order.
    pub fn unassigned(&self) -> (vars: Vec<Var>)
        requires
            self.wf(),
        ensures
            forall|k: int|
                0 <= k < vars@.len() ==> 0 <= (#[trigger] vars@[k]).id() < self.num_vars()
                    && self.value_of(vars@[k].id()) == BoolValue::Undefined,
            forall|j: int, k: int| 0 <= j < k < vars@.len() ==> vars@[j].id() < vars@[k].id(),
            forall|v: int|
                0 <= v < self.num_vars() && self.value_of(v) == BoolValue::Undefined
                    ==> exists|k: int| 0 <= k < vars@.len() && (#[trigger] vars@[k]).id() == v,
    {
        let mut vars: Vec<Var> = Vec::new();
        let mut i: usize = 0;
        while i < self.assigns.len()
            invariant
                i <= self.num_vars() <= MAX_VARS,
                self.values().len() == self.num_vars(),
                forall|k: int|
                    0 <= k < vars@.len() ==> 0 <= (#[trigger] vars@[k]).id() < i && self.value_of(
                        vars@[k].id(),
                    ) == BoolValue::Undefined,
                forall|j: int, k: int| 0 <= j < k < vars@.len() ==> vars@[j].id() < vars@[k].id(),
                forall|v: int|
                    0 <= v < i && self.value_of(v) == BoolValue::Undefined ==> exists|k: int|
                        0 <= k < vars@.len() && (#[trigger] vars@[k]).id() == v,
            decreases self.num_vars() - i,
        {
            if self.assigns[i] == BoolValue::Undefined {
                let ghost before = vars@;
                vars.push(Var::from_id(i));
                proof {
                    assert(vars@[before.len() as int].id() == i);
                    assert forall|v: int|
                        0 <= v < i + 1 && self.value_of(v) == BoolValue::Undefined implies exists|
                        k: int,
                    | 0 <= k < vars@.len() && (#[trigger] vars@[k]).id() == v by {
                        if v < i {
                            let k = choose|k: int|
                                0 <= k < before.len() && (#[trigger] before[k]).id() == v;
                            assert(vars@[k].id() == v);
                        }
                    }
                }
            }
            i += 1;
        }
        vars
    }

    /// A variable without a value, picked at random. There must be one.
    #[allow(dead_code)]
    pub fn random_unassigned(&self) -> (v: Var)
        requires
            self.wf(),
            exists|u: int|
                0 <= u < self.num_vars() && #[trigger] self.value_of(u) == BoolValue::Undefined,
        ensures
            0 <= v.id() < self.num_vars(),
            self.value_of(v.id()) == BoolValue::Undefined,
    {
        let candidates = self.unassigned();
        let mut rng = rand::thread_rng();
        match crate::random::choose_among(&mut rng, &candidates) {
            Some(v) => {
                proof {
                    let k = choose|k: int| 0 <= k < candidates@.len() && candidates@[k] == v;
                    assert(0 <= candidates@[k].id() < self.num_vars());
                }
                v
            },
            None => {
                proof {
                    let u = choose|u: int|
                        0 <= u < self.num_vars() && #[trigger] self.value_of(u)
                            == BoolValue::Undefined;
                    let k = choose|k: int|
                        0 <= k < candidates@.len() && (#[trigger] candidates@[k]).id() == u;
                }
                vstd::pervasive::unreached()
            },
        }
    }

    /// The value of each variable.
    pub fn get_assigned(&self) -> (a: &Vec<BoolValue>)
        ensures
            a@ == self.values(),
    {
        &self.assigns
    }

    /// Takes back every assignment made above decision level `level`: such a
    /// variable loses its value, its level and its reasons, and is put back
    /// into the queue of variables to decide.
    pub fn backtracking(&mut self, level: usize)
        requires
            old(self).wf(),
        ensures
            final(self).wf(),
            final(self).went_back(old(self), level as int),
            old(self).queue_covers() ==> final(self).queue_covers(),
    {
        let mut ind: usize = 0;
        while ind < self.assigns.len()
            invariant
                ind <= self.num_vars(),
                (forall|v: int| 0 <= v < old(self).num_vars() ==> old(self).level_of(v) <= level)
                    ==> self.heap == old(self).heap,
                self.num_vars() == old(self).num_vars(),
                old(self).wf(),
                self.values().len() == self.num_vars(),
                self.levels().len() == self.num_vars(),
                self.all_reasons().len() == self.num_vars(),
                self.queue().wf(),
                self.queue().capacity() >= self.num_vars(),
                self.ranks() == old(self).ranks(),
                self.now() == old(self).now(),
                self.queue().same_activities(&old(self).queue()),
                forall|v: int|
                    0 <= v < ind ==> #[trigger] self.values()[v] == values_after_backtrack(
                        old(self).values(),
                        old(self).levels(),
                        level as int,
                    )[v],
                forall|v: int|
                    0 <= v < ind ==> #[trigger] self.levels()[v] == levels_after_backtrack(
                        old(self).levels(),
                        level as int,
                    )[v],
                forall|v: int|
                    0 <= v < ind ==> #[trigger] self.all_reasons()[v] == reasons_after_backtrack(
                        old(self).all_reasons(),
                        old(self).levels(),
                        level as int,
                    )[v],
                forall|v: int|
                    ind <= v < self.num_vars() ==> #[trigger] self.values()[v] == old(
                        self,
                    ).values()[v],
                forall|v: int|
                    ind <= v < self.num_vars() ==> #[trigger] self.levels()[v] == old(
                        self,
                    ).levels()[v],
                forall|v: int|
                    ind <= v < self.num_vars() ==> #[trigger] self.all_reasons()[v] == old(
                        self,
                    ).all_reasons()[v],
                forall|v: int|
                    self.queue().has(v) <==> old(self).queue().has(v) || (0 <= v < ind && old(
                        self,
                    ).level_of(v) > level),
            decreases self.num_vars() - ind,
        {
            if self.decision_level[ind] > level {
                proof {
                    assert(self.levels()[ind as int] == old(self).levels()[ind as int]);
                    assert(old(self).level_of(ind as int) > level);
                }
                if !self.heap.contains(Var::from_id(ind)) {
                    self.heap.push(Var::from_id(ind));
                }
                self.decision_level[ind] = 0;
                self.assigns[ind] = BoolValue::Undefined;
                let ghost before = *self;
                self.impl_graph.0[ind] = Vec::new();
                proof {
                    assert forall|v: int| 0 <= v < self.num_vars() && v != ind implies (
                    #[trigger] self.all_reasons()[v]) == before.all_reasons()[v] by {}
                    assert(self.all_reasons()[ind as int] =~= Seq::<Lit>::empty());
                }
            }
            ind += 1;
        }
        proof {
            assert(self.values() =~= values_after_backtrack(
                old(self).values(),
                old(self).levels(),
                level as int,
            ));
            assert(self.levels() =~= levels_after_backtrack(old(self).levels(), level as int));
            assert(self.all_reasons() =~= reasons_after_backtrack(
                old(self).all_reasons(),
                old(self).levels(),
                level as int,
            ));
            assert forall|v: int, j: int|
                0 <= v < self.num_vars() && 0 <= j < self.reasons(v).len() implies self.supports(
                #[trigger] self.reasons(v)[j],
                v,
            ) by {
                let r = self.reasons(v)[j];
                assert(self.all_reasons()[v] == reasons_after_backtrack(
                    old(self).all_reasons(),
                    old(self).levels(),
                    level as int,
                )[v]);
                assert(old(self).levels()[v] <= level);
                assert(old(self).supports(old(self).reasons(v)[j], v));
                assert(old(self).level_of(r.var_id()) <= level);
                assert(self.values()[r.var_id()] == old(self).values()[r.var_id()]);
                assert(self.levels()[r.var_id()] == old(self).levels()[r.var_id()]);
                assert(self.levels()[v] == old(self).levels()[v]);
            }
            assert forall|v: int|
                0 <= v < self.num_vars() && #[trigger] self.value_of(v)
                    == BoolValue::Undefined implies self.level_of(v) == 0 && self.reasons(v).len()
                == 0 by {
                if old(self).levels()[v] > level {
                } else {
                    assert(old(self).value_of(v) == BoolValue::Undefined);
                }
            }
            assert forall|v: int| 0 <= v < self.num_vars() implies #[trigger] self.rank(v)
                < self.now() by {
                assert(old(self).rank(v) < old(self).now());
            }
            assert forall|v: int| #[trigger] self.queue().has(v) implies 0 <= v
                < self.num_vars() by {
                if old(self).queue().has(v) {
                }
            }
            if old(self).queue_covers() {
                assert forall|v: int|
                    0 <= v < self.num_vars() && #[trigger] self.value_of(v)
                        == BoolValue::Undefined implies self.queue().has(v) by {
                    if old(self).levels()[v] > level {
                    } else {
                        assert(old(self).value_of(v) == BoolValue::Undefined);
                    }
                }
            }
        }
    }
}

/// Whether literal `l` occurs in `v`.
pub fn contains_lit(v: &Vec<Lit>, l: Lit) -> (b: bool)
    ensures
        b == v@.contains(l),
{
    let mut i: usize = 0;
    while i < v.len()
        invariant
            i <= v@.len(),
            forall|j: int| 0 <= j < i ==> v@[j] != l,
        decreases v@.len() - i,
    {
        if v[i] == l {
            return true;
        }
        i += 1;
    }
    false
}

} // verus!

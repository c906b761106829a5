use crate::all_types::BoolValue;
use vstd::prelude::*;

verus! {

/// The sum of `f(0), ..., f(n - 1)`.
pub open spec fn sum(f: spec_fn(int) -> int, n: int) -> int
    decreases n,
{
    if n <= 0 {
        0
    } else {
        sum(f, n - 1) + f(n - 1)
    }
}

/// `b` to the power `e`; 1 when `e` is not positive.
pub open spec fn power(b: int, e: int) -> int
    decreases e,
{
    if e <= 0 {
        1
    } else {
        b * power(b, e - 1)
    }
}

/// A power of a positive number is positive.
pub proof fn lemma_power_positive(b: int, e: int)
    requires
        b >= 1,
    ensures
        power(b, e) >= 1,
    decreases e,
{
    if e > 0 {
        lemma_power_positive(b, e - 1);
        assert(b * power(b, e - 1) >= 1) by (nonlinear_arith)
            requires
                b >= 1,
                power(b, e - 1) >= 1,
        ;
    }
}

/// A power of a positive number does not fall when the exponent grows.
pub proof fn lemma_power_monotone(b: int, e1: int, e2: int)
    requires
        b >= 1,
        e1 <= e2,
    ensures
        power(b, e1) <= power(b, e2),
    decreases e2,
{
    lemma_power_positive(b, e1);
    lemma_power_positive(b, e2);
    if e2 <= 0 {
    } else if e1 == e2 {
    } else {
        lemma_power_monotone(b, e1, e2 - 1);
        lemma_power_positive(b, e2 - 1);
        assert(b * power(b, e2 - 1) >= power(b, e2 - 1)) by (nonlinear_arith)
            requires
                b >= 1,
                power(b, e2 - 1) >= 1,
        ;
    }
}

/// Where no term of one sum is above the term of another, neither is the sum.
pub proof fn lemma_sum_le(f: spec_fn(int) -> int, g: spec_fn(int) -> int, n: int)
    requires
        forall|i: int| 0 <= i < n ==> #[trigger] f(i) <= g(i),
    ensures
        sum(f, n) <= sum(g, n),
    decreases n,
{
    if n > 0 {
        lemma_sum_le(f, g, n - 1);
        assert(f(n - 1) <= g(n - 1));
    }
}

/// Where no term of one sum is above the term of another, and one term is
/// below by `d`, so is the sum.
pub proof fn lemma_sum_gap(f: spec_fn(int) -> int, g: spec_fn(int) -> int, n: int, v: int, d: int)
    requires
        forall|i: int| 0 <= i < n ==> #[trigger] f(i) <= g(i),
        0 <= v < n,
        f(v) + d <= g(v),
    ensures
        sum(f, n) + d <= sum(g, n),
    decreases n,
{
    assert(f(n - 1) <= g(n - 1));
    if v == n - 1 {
        lemma_sum_le(f, g, n - 1);
    } else {
        lemma_sum_gap(f, g, n - 1, v, d);
    }
}

/// A sum of `n` terms, none above `c`, is not above `n * c`.
pub proof fn lemma_sum_bound(f: spec_fn(int) -> int, n: int, c: int)
    requires
        0 <= n,
        forall|i: int| 0 <= i < n ==> #[trigger] f(i) <= c,
    ensures
        sum(f, n) <= n * c,
    decreases n,
{
    if n > 0 {
        lemma_sum_bound(f, n - 1, c);
        assert(f(n - 1) <= c);
        assert((n - 1) * c + c == n * c) by (nonlinear_arith);
    } else {
        assert(n * c == 0) by (nonlinear_arith)
            requires
                n == 0,
        ;
    }
}

/// Where each term of a sum is the sum of two terms, the sum is the sum of
/// the two sums.
pub proof fn lemma_sum_split(
    f: spec_fn(int) -> int,
    g: spec_fn(int) -> int,
    h: spec_fn(int) -> int,
    n: int,
)
    requires
        forall|i: int| 0 <= i < n ==> #[trigger] f(i) == g(i) + h(i),
    ensures
        sum(f, n) == sum(g, n) + sum(h, n),
    decreases n,
{
    if n > 0 {
        lemma_sum_split(f, g, h, n - 1);
        assert(f(n - 1) == g(n - 1) + h(n - 1));
    }
}

/// What variable `v` adds to the weight of an assignment: nothing if it has
/// no value, and more the lower its decision level is.
pub open spec fn term(values: Seq<BoolValue>, levels: Seq<usize>, v: int) -> int {
    if values[v] != BoolValue::Undefined {
        power(values.len() as int + 1, values.len() - levels[v])
    } else {
        0
    }
}

/// The weight of an assignment. It grows whenever a variable gets a value,
/// and whenever the assignments above some level are traded for one more
/// assignment at or below that level.
pub open spec fn weight(values: Seq<BoolValue>, levels: Seq<usize>) -> int {
    sum(|v: int| term(values, levels, v), values.len() as int)
}

/// No assignment weighs more than this.
pub open spec fn weight_limit(n: int) -> int {
    n * power(n + 1, n)
}

/// `(values2, levels2)` keeps every assignment of `(values1, levels1)`.
pub open spec fn extends(
    values1: Seq<BoolValue>,
    levels1: Seq<usize>,
    values2: Seq<BoolValue>,
    levels2: Seq<usize>,
) -> bool {
    &&& values2.len() == values1.len()
    &&& levels2.len() == levels1.len()
    &&& forall|v: int|
        0 <= v < values1.len() && #[trigger] values1[v] != BoolValue::Undefined ==> values2[v]
            == values1[v] && levels2[v] == levels1[v]
}

/// The weight of an assignment is neither negative nor above the limit.
pub proof fn lemma_weight_limit(values: Seq<BoolValue>, levels: Seq<usize>)
    requires
        values.len() == levels.len(),
    ensures
        0 <= weight(values, levels) <= weight_limit(values.len() as int),
{
    let n = values.len() as int;
    let f = |v: int| term(values, levels, v);
    let zero = |v: int| 0int;
    assert forall|i: int| 0 <= i < n implies #[trigger] f(i) <= power(n + 1, n) by {
        lemma_power_positive(n + 1, n);
        lemma_power_monotone(n + 1, n - levels[i], n);
    }
    lemma_sum_bound(f, n, power(n + 1, n));
    assert forall|i: int| 0 <= i < n implies #[trigger] zero(i) <= f(i) by {
        lemma_power_positive(n + 1, n - levels[i]);
    }
    lemma_sum_le(zero, f, n);
    lemma_sum_bound(zero, n, 0);
    lemma_sum_zero(n);
}

/// A sum of zeros is zero.
proof fn lemma_sum_zero(n: int)
    ensures
        sum(|v: int| 0int, n) == 0,
    decreases n,
{
    if n > 0 {
        lemma_sum_zero(n - 1);
    }
}

/// An assignment that keeps every assignment of another weighs at least as much.
pub proof fn lemma_weight_extends(
    values1: Seq<BoolValue>,
    levels1: Seq<usize>,
    values2: Seq<BoolValue>,
    levels2: Seq<usize>,
)
    requires
        values1.len() == levels1.len(),
        extends(values1, levels1, values2, levels2),
    ensures
        weight(values1, levels1) <= weight(values2, levels2),
{
    let n = values1.len() as int;
    let f = |v: int| term(values1, levels1, v);
    let g = |v: int| term(values2, levels2, v);
    assert forall|i: int| 0 <= i < n implies #[trigger] f(i) <= g(i) by {
        lemma_power_positive(n + 1, n - levels2[i]);
    }
    lemma_sum_le(f, g, n);
}

/// An assignment that keeps every assignment of another and gives one more
/// variable a value weighs more.
pub proof fn lemma_weight_grows(
    values1: Seq<BoolValue>,
    levels1: Seq<usize>,
    values2: Seq<BoolValue>,
    levels2: Seq<usize>,
    u: int,
)
    requires
        values1.len() == levels1.len(),
        extends(values1, levels1, values2, levels2),
        0 <= u < values1.len(),
        values1[u] == BoolValue::Undefined,
        values2[u] != BoolValue::Undefined,
    ensures
        weight(values1, levels1) + power(values1.len() as int + 1, values1.len() - levels2[u]) <= weight(
            values2,
            levels2,
        ),
        weight(values1, levels1) < weight(values2, levels2),
{
    let n = values1.len() as int;
    let f = |v: int| term(values1, levels1, v);
    let g = |v: int| term(values2, levels2, v);
    assert forall|i: int| 0 <= i < n implies #[trigger] f(i) <= g(i) by {
        lemma_power_positive(n + 1, n - levels2[i]);
    }
    lemma_power_positive(n + 1, n - levels2[u]);
    lemma_sum_gap(f, g, n, u, power(n + 1, n - levels2[u]));
}

/// Taking back the assignments above `level` costs less weight than one
/// assignment at or below `level` brings.
pub proof fn lemma_weight_backjump(
    values0: Seq<BoolValue>,
    levels0: Seq<usize>,
    values1: Seq<BoolValue>,
    levels1: Seq<usize>,
    level: int,
)
    requires
        values0.len() == levels0.len(),
        values1.len() == values0.len(),
        levels1.len() == levels0.len(),
        0 <= level < values0.len(),
        forall|v: int|
            0 <= v < values0.len() && levels0[v] <= level ==> #[trigger] values1[v] == values0[v]
                && levels1[v] == levels0[v],
    ensures
        weight(values0, levels0) < weight(values1, levels1) + power(
            values0.len() as int + 1,
            values0.len() - level,
        ),
{
    let n = values0.len() as int;
    let b = n + 1;
    let f = |v: int| term(values0, levels0, v);
    let kept = |v: int|
        if levels0[v] <= level {
            term(values0, levels0, v)
        } else {
            0
        };
    let lost = |v: int|
        if levels0[v] <= level {
            0
        } else {
            term(values0, levels0, v)
        };
    let g = |v: int| term(values1, levels1, v);
    let cap = power(b, n - level - 1);
    lemma_power_positive(b, n - level - 1);
    assert forall|i: int| 0 <= i < n implies #[trigger] f(i) == kept(i) + lost(i) by {}
    lemma_sum_split(f, kept, lost, n);
    assert forall|i: int| 0 <= i < n implies #[trigger] lost(i) <= cap by {
        if levels0[i] > level {
            lemma_power_monotone(b, n - levels0[i], n - level - 1);
        }
    }
    lemma_sum_bound(lost, n, cap);
    assert forall|i: int| 0 <= i < n implies #[trigger] kept(i) <= g(i) by {
        lemma_power_positive(b, n - levels1[i]);
    }
    lemma_sum_le(kept, g, n);
    assert(power(b, n - level) == b * cap);
    assert(n * cap < b * cap) by (nonlinear_arith)
        requires
            b == n + 1,
            cap >= 1,
    ;
}

/// A sequence of distinct numbers below `n` has at most `n` entries.
pub proof fn lemma_distinct_bounded(s: Seq<int>, n: int)
    requires
        0 <= n,
        s.no_duplicates(),
        forall|k: int| 0 <= k < s.len() ==> 0 <= #[trigger] s[k] < n,
    ensures
        s.len() <= n,
{
    s.unique_seq_to_set();
    vstd::set_lib::lemma_int_range(0, n);
    assert(s.to_set().subset_of(vstd::set_lib::set_int_range(0, n))) by {
        assert forall|x: int| s.to_set().contains(x) implies vstd::set_lib::set_int_range(
            0,
            n,
        ).contains(x) by {
            let k = choose|k: int| 0 <= k < s.len() && s[k] == x;
            assert(0 <= s[k] < n);
        }
    }
    vstd::set_lib::lemma_len_subset(s.to_set(), vstd::set_lib::set_int_range(0, n));
}

} // verus!

use crate::all_types::Var;
use vstd::prelude::*;

verus! {

/// Activities are fixed-point numbers kept strictly below this limit.
pub const ACTIVITY_LIMIT: u64 = 0x1000_0000_0000_0000;

/// When an activity or the bump value reaches the limit, every activity and
/// the bump value are divided by this factor.
pub const ACTIVITY_RESCALE: u64 = 0x100_0000_0000;

/// The activities after the variables of `vars` were bumped in turn,
/// starting from the activities `act` and the bump value `bump`. A bump
/// adds the bump value to the activity of the variable; if that reaches the
/// limit, every activity and the bump value are divided by the rescaling
/// factor.
pub open spec fn activities_after(act: spec_fn(int) -> int, bump: int, vars: Seq<int>) -> spec_fn(
    int,
) -> int
    decreases vars.len(),
{
    if vars.len() == 0 {
        act
    } else {
        let before = activities_after(act, bump, vars.drop_last());
        let step = bump_after(act, bump, vars.drop_last());
        let v = vars.last();
        let raised = before(v) + step;
        |u: int|
            {
                let a = if u == v {
                    raised
                } else {
                    before(u)
                };
                if raised < ACTIVITY_LIMIT {
                    a
                } else {
                    a / (ACTIVITY_RESCALE as int)
                }
            }
    }
}

/// The bump value after the variables of `vars` were bumped in turn.
pub open spec fn bump_after(act: spec_fn(int) -> int, bump: int, vars: Seq<int>) -> int
    decreases vars.len(),
{
    if vars.len() == 0 {
        bump
    } else {
        let before = activities_after(act, bump, vars.drop_last());
        let step = bump_after(act, bump, vars.drop_last());
        if before(vars.last()) + step < ACTIVITY_LIMIT {
            step
        } else {
            step / (ACTIVITY_RESCALE as int)
        }
    }
}

/// The bump value after a decay: a twentieth of itself and one more are
/// added; if that reaches the limit, it is divided by the rescaling factor.
pub open spec fn bump_decayed(bump: int) -> int {
    let raised = bump + bump / 20 + 1;
    if raised < ACTIVITY_LIMIT {
        raised
    } else {
        raised / (ACTIVITY_RESCALE as int)
    }
}

/// The activities after a decay: as they were, unless the bump value
/// reached the limit; then each is divided by the rescaling factor.
pub open spec fn activities_decayed(act: spec_fn(int) -> int, bump: int) -> spec_fn(int) -> int {
    |u: int|
        if bump + bump / 20 + 1 < ACTIVITY_LIMIT {
            act(u)
        } else {
            act(u) / (ACTIVITY_RESCALE as int)
        }
}

/// The parent of position `i > 0` in the array that holds the binary heap.
pub open spec fn parent(i: int) -> int {
    (i - 1) / 2
}

/// No position but the root holds a greater key than its parent, except that
/// position `skip` is not compared with its parent.
pub open spec fn keys_ordered_except(keys: Seq<int>, skip: int) -> bool {
    forall|i: int| 0 < i < keys.len() && i != skip ==> keys[parent(i)] >= #[trigger] keys[i]
}

/// The children of position `i` hold no greater key than the parent of `i`.
pub open spec fn keys_bridged(keys: Seq<int>, i: int) -> bool {
    0 < i < keys.len() ==> forall|c: int|
        0 < c < keys.len() && parent(c) == i ==> keys[parent(i)] >= #[trigger] keys[c]
}

/// No position holds a greater key than its parent, except that the children
/// of position `skip` are not compared with it.
pub open spec fn keys_ordered_below(keys: Seq<int>, skip: int) -> bool {
    forall|i: int| 0 < i < keys.len() && parent(i) != skip ==> keys[parent(i)] >= #[trigger] keys[i]
}

/// The sequence with the entries at positions `i` and `j` exchanged.
pub open spec fn exchanged(keys: Seq<int>, i: int, j: int) -> Seq<int> {
    keys.update(i, keys[j]).update(j, keys[i])
}

/// Exchanging a position with its parent, where the position holds the
/// greater key, moves the one place where the order may fail to the parent.
pub proof fn lemma_exchange_up(keys: Seq<int>, index: int)
    requires
        0 < index < keys.len(),
        keys_ordered_except(keys, index),
        keys_bridged(keys, index),
        keys[index] > keys[parent(index)],
    ensures
        keys_ordered_except(exchanged(keys, index, parent(index)), parent(index)),
        keys_bridged(exchanged(keys, index, parent(index)), parent(index)),
{
    let par = parent(index);
    let after = exchanged(keys, index, par);
    assert forall|k: int| 0 < k < after.len() && k != par implies after[parent(k)] >= #[trigger] after[k] by {
        if k == index {
        } else if parent(k) == index {
            assert(keys[parent(index)] >= keys[k]);
        } else {
            assert(keys[parent(k)] >= keys[k]);
        }
    }
    if par > 0 {
        assert forall|c: int| 0 < c < after.len() && parent(c) == par implies after[parent(par)]
            >= #[trigger] after[c] by {
            assert(keys[parent(par)] >= keys[par]);
            if c != index {
                assert(keys[parent(c)] >= keys[c]);
            }
        }
    }
}

/// Exchanging a position with its greater child, where that child holds the
/// greater key, moves the one place where the order may fail to that child.
pub proof fn lemma_exchange_down(keys: Seq<int>, index: int, child: int)
    requires
        0 <= index < keys.len(),
        keys_ordered_below(keys, index),
        keys_bridged(keys, index),
        child == 2 * index + 1 || child == 2 * index + 2,
        child < keys.len(),
        keys[child] > keys[index],
        2 * index + 1 < keys.len() ==> keys[child] >= keys[2 * index + 1],
        2 * index + 2 < keys.len() ==> keys[child] >= keys[2 * index + 2],
    ensures
        keys_ordered_below(exchanged(keys, index, child), child),
        keys_bridged(exchanged(keys, index, child), child),
{
    let after = exchanged(keys, index, child);
    assert forall|k: int| 0 < k < after.len() && parent(k) != child implies after[parent(k)]
        >= #[trigger] after[k] by {
        if k == index {
            assert(keys[parent(index)] >= keys[child]);
        } else if k == child {
        } else if parent(k) == index {
            assert(k == 2 * index + 1 || k == 2 * index + 2);
        } else {
            assert(keys[parent(k)] >= keys[k]);
        }
    }
    assert forall|c: int| 0 < c < after.len() && parent(c) == child implies after[parent(child)]
        >= #[trigger] after[c] by {
        assert(keys[parent(c)] >= keys[c]);
    }
}

/// Where no child of a position holds a greater key than the position, the
/// order holds everywhere.
pub proof fn lemma_settled(keys: Seq<int>, index: int)
    requires
        0 <= index < keys.len(),
        keys_ordered_below(keys, index),
        2 * index + 1 < keys.len() ==> keys[index] >= keys[2 * index + 1],
        2 * index + 2 < keys.len() ==> keys[index] >= keys[2 * index + 2],
    ensures
        keys_ordered_except(keys, 0),
{
    assert forall|k: int| 0 < k < keys.len() implies keys[parent(k)] >= #[trigger] keys[k] by {
        if parent(k) == index {
            assert(k == 2 * index + 1 || k == 2 * index + 2);
        }
    }
}

/// Where every position but the root holds no greater key than its parent,
/// the root holds the greatest key.
pub proof fn lemma_root_greatest(keys: Seq<int>, i: int)
    requires
        keys_ordered_except(keys, 0),
        0 <= i < keys.len(),
    ensures
        keys[0] >= keys[i],
    decreases i,
{
    if i > 0 {
        lemma_root_greatest(keys, parent(i));
    }
}

/// Putting the last key in the place of the root and taking the last
/// position away leaves the order as it was everywhere but between the root
/// and its children.
pub proof fn lemma_root_replaced(before: Seq<int>, after: Seq<int>)
    requires
        before.len() > 0,
        keys_ordered_except(before, 0),
        after == exchanged(before, 0, before.len() - 1).drop_last(),
    ensures
        keys_ordered_below(after, 0),
        keys_bridged(after, 0),
        after.len() <= 1 ==> keys_ordered_except(after, 0),
{
    assert forall|k: int| 0 < k < after.len() && parent(k) != 0 implies after[parent(k)]
        >= #[trigger] after[k] by {
        assert(0 < parent(k) < k);
        assert(after[k] == before[k]);
        assert(after[parent(k)] == before[parent(k)]);
        assert(before[parent(k)] >= before[k]);
    }
}

/// One more key at the end leaves the order as it was everywhere but between
/// the new position and its parent.
pub proof fn lemma_key_appended(before: Seq<int>, key: int)
    requires
        keys_ordered_except(before, 0),
    ensures
        keys_ordered_except(before.push(key), before.len() as int),
        keys_bridged(before.push(key), before.len() as int),
{
    let after = before.push(key);
    let pos = before.len() as int;
    assert forall|i: int| 0 < i < after.len() && i != pos implies after[parent(i)]
        >= #[trigger] after[i] by {
        assert(0 <= parent(i) < i);
        assert(after[i] == before[i]);
        assert(after[parent(i)] == before[parent(i)]);
        assert(before[parent(i)] >= before[i]);
    }
    if 0 < pos < after.len() {
        assert forall|c: int| 0 < c < after.len() && parent(c) == pos implies after[parent(pos)]
            >= #[trigger] after[c] by {
            assert(c >= 2 * pos + 1);
        }
    }
}

/// Applying a function that keeps the order of keys to every key keeps the
/// order of the heap.
pub proof fn lemma_keys_mapped(keys: Seq<int>, mapped: Seq<int>, skip: int)
    requires
        mapped.len() == keys.len(),
        forall|i: int, j: int|
            0 <= i < keys.len() && 0 <= j < keys.len() && keys[i] >= keys[j] ==> #[trigger] mapped[i]
                >= #[trigger] mapped[j],
    ensures
        keys_ordered_except(keys, skip) ==> keys_ordered_except(mapped, skip),
        keys_bridged(keys, skip) ==> keys_bridged(mapped, skip),
{
    if keys_ordered_except(keys, skip) {
        assert forall|i: int| 0 < i < mapped.len() && i != skip implies mapped[parent(i)]
            >= #[trigger] mapped[i] by {
            assert(keys[parent(i)] >= keys[i]);
        }
    }
    if keys_bridged(keys, skip) && 0 < skip < keys.len() {
        assert forall|c: int| 0 < c < mapped.len() && parent(c) == skip implies mapped[parent(skip)]
            >= #[trigger] mapped[c] by {
            assert(keys[parent(skip)] >= keys[c]);
        }
    }
}

/// A binary max-heap of variables ordered by activity, with a table that gives
/// the position of each variable in the heap.
#[derive(Debug, Clone)]
pub struct Heap {
    heap: Vec<Var>,
    indices: Vec<Option<usize>>,
    activity: Vec<u64>,
    bump_inc: u64,
}

impl Heap {
    /// Whether variable `v` is in the heap.
    pub closed spec fn has(&self, v: int) -> bool {
        0 <= v < self.indices.len() && self.indices[v] is Some
    }

    /// The activity of variable `v`; zero for a variable the heap has never seen.
    pub closed spec fn activity_of(&self, v: int) -> int {
        if 0 <= v < self.activity.len() {
            self.activity[v] as int
        } else {
            0
        }
    }

    /// The activity of each variable.
    pub open spec fn activities(&self) -> spec_fn(int) -> int {
        |v: int| self.activity_of(v)
    }

    /// The amount by which a bump raises an activity.
    pub closed spec fn bump(&self) -> int {
        self.bump_inc as int
    }

    /// The number of variables in the heap.
    pub closed spec fn size(&self) -> nat {
        self.heap.len() as nat
    }

    /// The number of variables for which the heap holds an activity.
    pub closed spec fn capacity(&self) -> nat {
        self.indices.len() as nat
    }

    /// The activity of the variable at each position of the heap array.
    spec fn keys(&self) -> Seq<int> {
        Seq::new(self.heap.len() as nat, |i: int| self.activity[self.heap[i].id()] as int)
    }

    /// The heap array and the position table describe each other.
    spec fn consistent(&self) -> bool {
        &&& self.activity.len() == self.indices.len()
        &&& self.bump_inc < ACTIVITY_LIMIT
        &&& forall|v: int| 0 <= v < self.activity.len() ==> #[trigger] self.activity[v] < ACTIVITY_LIMIT
        &&& forall|i: int|
            0 <= i < self.heap.len() ==> (#[trigger] self.heap[i]).id() < self.indices.len()
                && self.indices[self.heap[i].id()] == Some(i as usize)
        &&& forall|v: int|
            0 <= v < self.indices.len() ==> match #[trigger] self.indices[v] {
                Some(i) => i < self.heap.len() && self.heap[i as int].id() == v,
                None => true,
            }
    }

    /// The heap is well formed: the position table matches the heap array, no
    /// position holds more activity than its parent, and activities and the
    /// bump value are below the limit.
    pub closed spec fn wf(&self) -> bool {
        &&& self.consistent()
        &&& keys_ordered_except(self.keys(), 0)
    }

    /// Two heaps agree on which variables they hold.
    pub open spec fn same_members(&self, other: &Heap) -> bool {
        forall|v: int| self.has(v) == other.has(v)
    }

    /// Two heaps agree on every activity and on the bump value.
    pub open spec fn same_activities(&self, other: &Heap) -> bool {
        &&& self.bump() == other.bump()
        &&& forall|v: int| self.activity_of(v) == other.activity_of(v)
    }

    /// `self` is what taking a variable of greatest activity out makes of
    /// `pre`, with `r` the variable taken out; where `r` is none, `pre` was
    /// empty and `self` is.
    pub open spec fn popped_from(&self, pre: &Heap, r: Option<Var>) -> bool {
        &&& self.same_activities(pre)
        &&& self.capacity() == pre.capacity()
        &&& match r {
            None => pre.size() == 0 && self.size() == 0 && (forall|v: int| !pre.has(v)) && (
            forall|v: int| !self.has(v)),
            Some(x) => {
                &&& pre.has(x.id())
                &&& self.size() == pre.size() - 1
                &&& forall|v: int| self.has(v) <==> pre.has(v) && v != x.id()
                &&& forall|v: int| pre.has(v) ==> pre.activity_of(v) <= pre.activity_of(x.id())
            },
        }
    }

    /// A heap of the variables `0 .. n`, all with activity zero.
    pub fn new(n: usize, bump_inc: u64) -> (h: Heap)
        requires
            n <= u32::MAX,
            bump_inc < ACTIVITY_LIMIT,
        ensures
            h.wf(),
            h.capacity() == n,
            h.size() == n,
            h.bump() == bump_inc,
            forall|v: int| h.has(v) <==> 0 <= v < n,
            forall|v: int| h.activity_of(v) == 0,
    {
        let mut heap: Vec<Var> = Vec::new();
        let mut indices: Vec<Option<usize>> = Vec::new();
        let mut activity: Vec<u64> = Vec::new();
        let mut i: usize = 0;
        while i < n
            invariant
                i <= n <= u32::MAX,
                heap.len() == i,
                indices.len() == i,
                activity.len() == i,
                forall|k: int| 0 <= k < i ==> (#[trigger] heap[k]).id() == k,
                forall|k: int| 0 <= k < i ==> #[trigger] indices[k] == Some(k as usize),
                forall|k: int| 0 <= k < i ==> #[trigger] activity[k] == 0,
            decreases n - i,
        {
            heap.push(Var::from_id(i));
            indices.push(Some(i));
            activity.push(0);
            i += 1;
        }
        Heap { heap, indices, activity, bump_inc }
    }

    /// Whether `left` has more activity than `right`.
    fn gt(&self, left: Var, right: Var) -> (b: bool)
        requires
            left.id() < self.activity.len(),
            right.id() < self.activity.len(),
        ensures
            b == (self.activity[left.id()] > self.activity[right.id()]),
    {
        self.activity[left.0 as usize] > self.activity[right.0 as usize]
    }

    /// Divides every activity and the bump value by the rescaling factor.
    fn rescale(&mut self)
        requires
            old(self).activity.len() == old(self).indices.len(),
        ensures
            final(self).heap == old(self).heap,
            final(self).indices == old(self).indices,
            final(self).activity.len() == old(self).activity.len(),
            final(self).bump_inc == old(self).bump_inc / ACTIVITY_RESCALE,
            forall|v: int|
                0 <= v < old(self).activity.len() ==> #[trigger] final(self).activity[v] == old(
                    self,
                ).activity[v] / ACTIVITY_RESCALE,
    {
        let mut k: usize = 0;
        while k < self.activity.len()
            invariant
                k <= self.activity.len(),
                self.heap == old(self).heap,
                self.indices == old(self).indices,
                self.bump_inc == old(self).bump_inc,
                self.activity.len() == old(self).activity.len(),
                forall|v: int|
                    0 <= v < k ==> #[trigger] self.activity[v] == old(self).activity[v]
                        / ACTIVITY_RESCALE,
                forall|v: int|
                    k <= v < self.activity.len() ==> #[trigger] self.activity[v] == old(
                        self,
                    ).activity[v],
            decreases self.activity.len() - k,
        {
            let a: u64 = self.activity[k];
            self.activity[k] = a / ACTIVITY_RESCALE;
            k += 1;
        }
        self.bump_inc = self.bump_inc / ACTIVITY_RESCALE;
    }

    /// Dividing every activity by the rescaling factor keeps the order of the heap.
    proof fn lemma_rescale_keeps_order(before: &Heap, after: &Heap, skip: int)
        requires
            before.activity.len() == before.indices.len(),
            forall|i: int|
                0 <= i < before.heap.len() ==> (#[trigger] before.heap[i]).id()
                    < before.indices.len(),
            after.heap == before.heap,
            after.indices == before.indices,
            after.activity.len() == before.activity.len(),
            forall|v: int|
                0 <= v < before.activity.len() ==> #[trigger] after.activity[v]
                    == before.activity[v] / ACTIVITY_RESCALE,
        ensures
            keys_ordered_except(before.keys(), skip) ==> keys_ordered_except(after.keys(), skip),
            keys_bridged(before.keys(), skip) ==> keys_bridged(after.keys(), skip),
    {
        let keys = before.keys();
        let mapped = after.keys();
        assert forall|i: int, j: int|
            0 <= i < keys.len() && 0 <= j < keys.len() && keys[i] >= keys[j] implies #[trigger] mapped[i]
            >= #[trigger] mapped[j] by {
            let a = before.heap[i].id();
            let b = before.heap[j].id();
            assert(after.activity[a] == before.activity[a] / ACTIVITY_RESCALE);
            assert(after.activity[b] == before.activity[b] / ACTIVITY_RESCALE);
        }
        lemma_keys_mapped(keys, mapped, skip);
    }

    /// Raises the bump value by a twentieth of itself and one more, so that
    /// later bumps weigh more than earlier ones; rescales when the bump value
    /// reaches the limit.
    pub fn decay_inc(&mut self)
        requires
            old(self).wf(),
        ensures
            final(self).wf(),
            final(self).same_members(old(self)),
            final(self).size() == old(self).size(),
            final(self).capacity() == old(self).capacity(),
            ({
                let raised = old(self).bump() + old(self).bump() / 20 + 1;
                if raised < ACTIVITY_LIMIT {
                    &&& final(self).bump() == raised
                    &&& forall|v: int| final(self).activity_of(v) == old(self).activity_of(v)
                } else {
                    &&& final(self).bump() == raised / (ACTIVITY_RESCALE as int)
                    &&& forall|v: int|
                        final(self).activity_of(v) == old(self).activity_of(v) / (
                        ACTIVITY_RESCALE as int)
                }
            }),
    {
        self.bump_inc = self.bump_inc + self.bump_inc / 20 + 1;
        let ghost raised = *self;
        assert(raised.keys() =~= old(self).keys());
        if self.bump_inc >= ACTIVITY_LIMIT {
            self.rescale();
            proof {
                Heap::lemma_rescale_keeps_order(&raised, self, 0);
            }
        }
    }

    /// Whether variable `v` is in the heap.
    pub fn contains(&self, v: Var) -> (b: bool)
        ensures
            b == self.has(v.id()),
    {
        (v.0 as usize) < self.indices.len() && self.indices[v.0 as usize].is_some()
    }

    /// Exchanges the variables at positions `i` and `j` and their table entries.
    fn swap_entries(&mut self, i: usize, j: usize)
        requires
            old(self).consistent(),
            i < old(self).heap.len(),
            j < old(self).heap.len(),
        ensures
            final(self).consistent(),
            final(self).keys() == exchanged(old(self).keys(), i as int, j as int),
            final(self).heap.len() == old(self).heap.len(),
            final(self).activity == old(self).activity,
            final(self).bump_inc == old(self).bump_inc,
            final(self).indices.len() == old(self).indices.len(),
            final(self).heap[i as int] == old(self).heap[j as int],
            final(self).heap[j as int] == old(self).heap[i as int],
            forall|v: int| final(self).has(v) == old(self).has(v),
    {
        let a = self.heap[i];
        let b = self.heap[j];
        self.heap[i] = b;
        self.heap[j] = a;
        self.indices[b.0 as usize] = Some(i);
        self.indices[a.0 as usize] = Some(j);
        assert(self.keys() =~= exchanged(old(self).keys(), i as int, j as int));
    }

    /// Moves the variable at position `i` towards the root until its parent
    /// holds at least as much activity.
    fn increase(&mut self, i: usize)
        requires
            old(self).consistent(),
            i < old(self).heap.len(),
            keys_ordered_except(old(self).keys(), i as int),
            keys_bridged(old(self).keys(), i as int),
        ensures
            final(self).wf(),
            final(self).same_members(old(self)),
            final(self).activity == old(self).activity,
            final(self).bump_inc == old(self).bump_inc,
            final(self).heap.len() == old(self).heap.len(),
            final(self).indices.len() == old(self).indices.len(),
    {
        let mut index: usize = i;
        while index > 0
            invariant
                self.consistent(),
                index < self.heap.len(),
                keys_ordered_except(self.keys(), index as int),
                keys_bridged(self.keys(), index as int),
                self.same_members(old(self)),
                self.activity == old(self).activity,
                self.bump_inc == old(self).bump_inc,
                self.heap.len() == old(self).heap.len(),
                self.indices.len() == old(self).indices.len(),
            ensures
                keys_ordered_except(self.keys(), 0),
            decreases index,
        {
            let par: usize = (index - 1) >> 1;
            assert((index - 1) as usize >> 1 == (index - 1) as usize / 2) by (bit_vector);
            assert(par == parent(index as int));
            let x = self.heap[index];
            let p = self.heap[par];
            let ghost keys = self.keys();
            if !self.gt(x, p) {
                proof {
                    assert(keys[par as int] >= keys[index as int]);
                    assert forall|k: int| 0 < k < keys.len() implies keys[parent(k)] >= #[trigger] keys[k] by {
                    }
                }
                break ;
            }
            proof {
                assert(keys[index as int] > keys[par as int]);
                lemma_exchange_up(keys, index as int);
            }
            self.swap_entries(index, par);
            index = par;
        }
    }

    /// Moves the variable at position `i` away from the root until no child
    /// holds more activity.
    fn decrease(&mut self, i: usize)
        requires
            old(self).consistent(),
            i < old(self).heap.len(),
            keys_ordered_below(old(self).keys(), i as int),
            keys_bridged(old(self).keys(), i as int),
        ensures
            final(self).wf(),
            final(self).same_members(old(self)),
            final(self).activity == old(self).activity,
            final(self).bump_inc == old(self).bump_inc,
            final(self).heap.len() == old(self).heap.len(),
            final(self).indices.len() == old(self).indices.len(),
    {
        let mut index: usize = i;
        while index < self.heap.len() / 2
            invariant
                self.consistent(),
                index < self.heap.len(),
                keys_ordered_below(self.keys(), index as int),
                keys_bridged(self.keys(), index as int),
                self.same_members(old(self)),
                self.activity == old(self).activity,
                self.bump_inc == old(self).bump_inc,
                self.heap.len() == old(self).heap.len(),
                self.indices.len() == old(self).indices.len(),
            ensures
                keys_ordered_except(self.keys(), 0),
            decreases self.heap.len() - index,
        {
            let left: usize = 2 * index + 1;
            let right: usize = left + 1;
            let ghost keys = self.keys();
            let child: usize = if right < self.heap.len() && self.gt(
                self.heap[right],
                self.heap[left],
            ) {
                right
            } else {
                left
            };
            proof {
                assert(keys[child as int] >= keys[left as int]);
                if right < self.heap.len() {
                    assert(keys[child as int] >= keys[right as int]);
                }
            }
            if self.gt(self.heap[child], self.heap[index]) {
                proof {
                    assert(keys[child as int] > keys[index as int]);
                    lemma_exchange_down(keys, index as int, child as int);
                }
                self.swap_entries(index, child);
                index = child;
            } else {
                proof {
                    assert(keys[index as int] >= keys[child as int]);
                    lemma_settled(keys, index as int);
                }
                break ;
            }
        }
        proof {
            if index >= self.heap.len() / 2 {
                lemma_settled(self.keys(), index as int);
            }
        }
    }

    /// Adds the bump value to the activity of `v`, leaving the heap array as it is.
    fn raise(&mut self, v: Var) -> (raised: u64)
        requires
            old(self).wf(),
            v.id() < old(self).capacity(),
        ensures
            final(self).heap == old(self).heap,
            final(self).indices == old(self).indices,
            final(self).bump_inc == old(self).bump_inc,
            final(self).activity@ == old(self).activity@.update(v.id(), raised),
            raised == old(self).activity[v.id()] + old(self).bump_inc,
            old(self).has(v.id()) ==> keys_ordered_except(
                final(self).keys(),
                old(self).indices[v.id()].unwrap() as int,
            ) && keys_bridged(final(self).keys(), old(self).indices[v.id()].unwrap() as int),
            !old(self).has(v.id()) ==> keys_ordered_except(final(self).keys(), 0),
    {
        let vi: usize = v.0 as usize;
        let raised: u64 = self.activity[vi] + self.bump_inc;
        self.activity[vi] = raised;
        proof {
            let before = old(self).keys();
            let after = self.keys();
            if old(self).has(v.id()) {
                let index = old(self).indices[v.id()].unwrap() as int;
                assert forall|k: int| 0 <= k < after.len() && k != index implies after[k]
                    == before[k] by {
                    assert(old(self).heap[k].id() != vi);
                }
                assert(after[index] >= before[index]);
                assert forall|k: int| 0 < k < after.len() && k != index implies after[parent(k)]
                    >= #[trigger] after[k] by {
                    assert(before[parent(k)] >= before[k]);
                }
                if 0 < index < after.len() {
                    assert forall|c: int| 0 < c < after.len() && parent(c) == index implies after[parent(
                        index,
                    )] >= #[trigger] after[c] by {
                        assert(before[parent(c)] >= before[c]);
                        assert(before[parent(index)] >= before[index]);
                    }
                }
            } else {
                assert forall|k: int| 0 <= k < after.len() implies after[k] == before[k] by {
                    assert(old(self).heap[k].id() != vi);
                }
                assert(after =~= before);
            }
        }
        raised
    }

    /// Adds the current bump value to the activity of `v`, rescales every
    /// activity and the bump value if that activity reaches the limit, and
    /// restores the heap order.
    pub fn incr_activity(&mut self, v: Var)
        requires
            old(self).wf(),
            v.id() < old(self).capacity(),
        ensures
            final(self).wf(),
            final(self).same_members(old(self)),
            final(self).size() == old(self).size(),
            final(self).capacity() == old(self).capacity(),
            ({
                let raised = old(self).activity_of(v.id()) + old(self).bump();
                if raised < ACTIVITY_LIMIT {
                    &&& final(self).bump() == old(self).bump()
                    &&& final(self).activity_of(v.id()) == raised
                    &&& forall|u: int|
                        u != v.id() ==> final(self).activity_of(u) == old(self).activity_of(u)
                } else {
                    &&& final(self).bump() == old(self).bump() / (ACTIVITY_RESCALE as int)
                    &&& final(self).activity_of(v.id()) == raised / (ACTIVITY_RESCALE as int)
                    &&& forall|u: int|
                        u != v.id() ==> final(self).activity_of(u) == old(self).activity_of(u) / (
                        ACTIVITY_RESCALE as int)
                }
            }),
    {
        let vi: usize = v.0 as usize;
        let raised: u64 = self.raise(v);
        let ghost skip: int = if old(self).has(v.id()) {
            old(self).indices[v.id()].unwrap() as int
        } else {
            0
        };
        if raised >= ACTIVITY_LIMIT {
            let ghost mid = *self;
            self.rescale();
            proof {
                Heap::lemma_rescale_keeps_order(&mid, self, skip);
            }
        }
        assert(self.consistent());
        if self.contains(v) {
            let index: usize = self.indices[vi].unwrap();
            self.increase(index);
        }
    }

    /// Removes a variable of greatest activity from the heap and returns it;
    /// `None` if the heap is empty.
    pub fn pop(&mut self) -> (r: Option<Var>)
        requires
            old(self).wf(),
        ensures
            final(self).wf(),
            final(self).popped_from(old(self), r),
    {
        if self.heap.len() == 0 {
            return None;
        }
        let x = self.heap[0];
        proof {
            assert forall|v: int| old(self).has(v) implies old(self).activity_of(v) <= old(
                self,
            ).activity_of(x.id()) by {
                let i = old(self).indices[v].unwrap() as int;
                lemma_root_greatest(old(self).keys(), i);
                assert(old(self).keys()[i] == old(self).activity[v] as int);
            }
        }
        let last: usize = self.heap.len() - 1;
        self.swap_entries(0, last);
        self.remove_last();
        proof {
            lemma_root_replaced(old(self).keys(), self.keys());
        }
        if self.heap.len() > 1 {
            self.decrease(0);
        }
        Some(x)
    }

    /// Takes the variable at the last position out of the heap array and
    /// out of the position table.
    fn remove_last(&mut self)
        requires
            old(self).consistent(),
            old(self).heap.len() > 0,
        ensures
            final(self).consistent(),
            final(self).keys() == old(self).keys().drop_last(),
            final(self).heap.len() == old(self).heap.len() - 1,
            final(self).activity == old(self).activity,
            final(self).bump_inc == old(self).bump_inc,
            final(self).indices.len() == old(self).indices.len(),
            forall|v: int|
                final(self).has(v) <==> old(self).has(v) && v != old(self).heap[old(
                    self,
                ).heap.len() - 1].id(),
    {
        let last: usize = self.heap.len() - 1;
        let x = self.heap[last];
        let ghost xi = x.id();
        assert(old(self).indices[xi] == Some(last));
        self.heap.pop();
        self.indices[x.0 as usize] = None;
        proof {
            assert(self.heap@ =~= old(self).heap@.drop_last());
            assert(self.indices@ == old(self).indices@.update(xi, None));
            assert forall|i: int| 0 <= i < self.heap.len() implies (#[trigger] self.heap[i]).id()
                < self.indices.len() && self.indices[self.heap[i].id()] == Some(i as usize) by {
                let v = old(self).heap[i].id();
                assert(self.heap[i] == old(self).heap[i]);
                assert(old(self).indices[v] == Some(i as usize));
                assert(v != xi);
            }
            assert forall|v: int| 0 <= v < self.indices.len() implies match #[trigger] self.indices[v] {
                Some(i) => i < self.heap.len() && self.heap[i as int].id() == v,
                None => true,
            } by {
                if v != xi {
                    assert(self.indices[v] == old(self).indices[v]);
                    match old(self).indices[v] {
                        Some(i) => {
                            assert(old(self).heap[i as int].id() == v);
                            assert(i != last);
                            assert(self.heap[i as int] == old(self).heap[i as int]);
                        },
                        None => {},
                    }
                }
            }
            assert(self.keys() =~= old(self).keys().drop_last()) by {
                assert forall|i: int| 0 <= i < self.heap.len() implies self.keys()[i] == old(
                    self,
                ).keys()[i] by {
                    assert(self.heap[i] == old(self).heap[i]);
                }
            }
            assert forall|v: int|
                self.has(v) <==> old(self).has(v) && v != xi by {
                if 0 <= v < self.indices.len() && v != xi {
                    assert(self.indices[v] == old(self).indices[v]);
                }
            }
        }
    }

    /// Puts variable `v` into the heap unless it is there already; a variable
    /// the heap has not seen before starts with activity zero.
    pub fn push(&mut self, v: Var)
        requires
            old(self).wf(),
        ensures
            final(self).wf(),
            final(self).same_activities(old(self)),
            final(self).capacity() == if v.id() < old(self).capacity() {
                old(self).capacity()
            } else {
                (v.id() + 1) as nat
            },
            final(self).size() == if old(self).has(v.id()) {
                old(self).size()
            } else {
                old(self).size() + 1
            },
            forall|u: int| final(self).has(u) <==> old(self).has(u) || u == v.id(),
    {
        if self.contains(v) {
            return ;
        }
        while (v.0 as usize) >= self.indices.len()
            invariant
                self.consistent(),
                self.keys() == old(self).keys(),
                self.bump_inc == old(self).bump_inc,
                forall|u: int| self.activity_of(u) == old(self).activity_of(u),
                forall|u: int| self.has(u) == old(self).has(u),
                self.heap == old(self).heap,
                old(self).indices.len() <= self.indices.len(),
                self.indices.len() <= v.id() + 1 || self.indices.len() == old(self).indices.len(),
            decreases v.id() + 1 - self.indices.len(),
        {
            self.add_slot();
        }
        let ghost before = *self;
        let pos: usize = self.heap.len();
        self.append(v);
        let ghost appended = *self;
        proof {
            let keys = before.keys();
            let key = before.activity[v.id()] as int;
            lemma_key_appended(keys, key);
            assert(keys.len() == pos);
            assert(self.keys() == keys.push(key));
        }
        self.increase(pos);
        proof {
            assert forall|u: int| self.activity_of(u) == old(self).activity_of(u) by {
                assert(appended.activity_of(u) == before.activity_of(u));
            }
            assert forall|u: int| self.has(u) <==> old(self).has(u) || u == v.id() by {
                assert(self.has(u) == appended.has(u));
                assert(appended.has(u) <==> before.has(u) || u == v.id());
                assert(before.has(u) == old(self).has(u));
            }
        }
    }

    /// Makes room for one more variable, which is not in the heap and has
    /// activity zero.
    fn add_slot(&mut self)
        requires
            old(self).consistent(),
        ensures
            final(self).consistent(),
            final(self).keys() == old(self).keys(),
            final(self).heap == old(self).heap,
            final(self).bump_inc == old(self).bump_inc,
            final(self).indices.len() == old(self).indices.len() + 1,
            forall|u: int| final(self).activity_of(u) == old(self).activity_of(u),
            forall|u: int| final(self).has(u) == old(self).has(u),
    {
        let ghost n = self.indices.len() as int;
        self.indices.push(None);
        self.activity.push(0);
        proof {
            assert(self.indices@ == old(self).indices@.push(None));
            assert(self.activity@ == old(self).activity@.push(0));
            assert forall|u: int| 0 <= u < self.activity.len() implies #[trigger] self.activity[u]
                < ACTIVITY_LIMIT by {
                if u < n {
                    assert(self.activity[u] == old(self).activity[u]);
                }
            }
            assert forall|i: int| 0 <= i < self.heap.len() implies (#[trigger] self.heap[i]).id()
                < self.indices.len() && self.indices[self.heap[i].id()] == Some(i as usize) by {
                let u = old(self).heap[i].id();
                assert(u < n);
                assert(self.indices[u] == old(self).indices[u]);
            }
            assert forall|u: int| 0 <= u < self.indices.len() implies match #[trigger] self.indices[u] {
                Some(i) => i < self.heap.len() && self.heap[i as int].id() == u,
                None => true,
            } by {
                if u < n {
                    assert(self.indices[u] == old(self).indices[u]);
                }
            }
            assert(self.keys() =~= old(self).keys()) by {
                assert forall|i: int| 0 <= i < self.heap.len() implies self.keys()[i] == old(
                    self,
                ).keys()[i] by {
                    let u = old(self).heap[i].id();
                    assert(u < n);
                    assert(self.activity[u] == old(self).activity[u]);
                }
            }
            assert forall|u: int| self.activity_of(u) == old(self).activity_of(u) by {
                if 0 <= u < n {
                    assert(self.activity[u] == old(self).activity[u]);
                }
            }
            assert forall|u: int| self.has(u) == old(self).has(u) by {
                if 0 <= u < n {
                    assert(self.indices[u] == old(self).indices[u]);
                }
            }
        }
    }

    /// Puts variable `v`, which is not in the heap, at the end of the heap
    /// array and enters that position in the position table.
    fn append(&mut self, v: Var)
        requires
            old(self).consistent(),
            v.id() < old(self).indices.len(),
            !old(self).has(v.id()),
        ensures
            final(self).consistent(),
            final(self).keys() == old(self).keys().push(old(self).activity[v.id()] as int),
            final(self).heap.len() == old(self).heap.len() + 1,
            final(self).activity == old(self).activity,
            final(self).bump_inc == old(self).bump_inc,
            final(self).indices.len() == old(self).indices.len(),
            forall|u: int| final(self).has(u) <==> old(self).has(u) || u == v.id(),
    {
        let ghost vi = v.id();
        let pos: usize = self.heap.len();
        self.indices[v.0 as usize] = Some(pos);
        self.heap.push(v);
        proof {
            assert(self.heap@ == old(self).heap@.push(v));
            assert(self.indices@ == old(self).indices@.update(vi, Some(pos)));
            assert(old(self).indices[vi] is None);
            assert forall|i: int| 0 <= i < self.heap.len() implies (#[trigger] self.heap[i]).id()
                < self.indices.len() && self.indices[self.heap[i].id()] == Some(i as usize) by {
                if i < pos {
                    let u = old(self).heap[i].id();
                    assert(self.heap[i] == old(self).heap[i]);
                    assert(old(self).indices[u] == Some(i as usize));
                    assert(u != vi);
                } else {
                    assert(self.heap[i] == v);
                }
            }
            assert forall|u: int| 0 <= u < self.indices.len() implies match #[trigger] self.indices[u] {
                Some(i) => i < self.heap.len() && self.heap[i as int].id() == u,
                None => true,
            } by {
                if u != vi {
                    assert(self.indices[u] == old(self).indices[u]);
                    match old(self).indices[u] {
                        Some(i) => {
                            assert(self.heap[i as int] == old(self).heap[i as int]);
                        },
                        None => {},
                    }
                } else {
                    assert(self.heap[pos as int] == v);
                }
            }
            assert(self.keys() =~= old(self).keys().push(old(self).activity[vi] as int)) by {
                assert forall|i: int| 0 <= i < self.heap.len() implies self.keys()[i] == old(
                    self,
                ).keys().push(old(self).activity[vi] as int)[i] by {
                    if i < pos {
                        assert(self.heap[i] == old(self).heap[i]);
                    } else {
                        assert(self.heap[i] == v);
                    }
                }
            }
            assert forall|u: int| self.has(u) <==> old(self).has(u) || u == vi by {
                if 0 <= u < self.indices.len() && u != vi {
                    assert(self.indices[u] == old(self).indices[u]);
                }
            }
        }
    }
}

/// Whether variable `v` is what came out at place `k` of `taken`.
pub open spec fn came_out(taken: Seq<Option<Var>>, k: int, v: int) -> bool {
    match taken[k] {
        Some(x) => x.id() == v,
        None => false,
    }
}

/// Whether variable `v` came out at one of the first `upto` places of `taken`.
pub open spec fn came_out_before(taken: Seq<Option<Var>>, upto: int, v: int) -> bool {
    exists|k: int| 0 <= k < upto && #[trigger] came_out(taken, k, v)
}

/// `heaps` and `taken` record pops in a row: each heap but the first is
/// what a pop makes of the heap before it, and `taken` holds what came out.
pub open spec fn pops_in_a_row(heaps: Seq<Heap>, taken: Seq<Option<Var>>) -> bool {
    &&& heaps.len() == taken.len() + 1
    &&& forall|i: int|
        0 <= i < taken.len() ==> heaps[i + 1].popped_from(&heaps[i], #[trigger] taken[i])
}

/// As long as the heap is not empty each pop hands out a variable that was
/// in the heap at first and has not come out before, and leaves in the heap
/// the variables that have not come out.
proof fn lemma_pops_prefix(heaps: Seq<Heap>, taken: Seq<Option<Var>>, k: int)
    requires
        pops_in_a_row(heaps, taken),
        0 <= k <= taken.len(),
        k <= heaps[0].size(),
    ensures
        heaps[k].size() == heaps[0].size() - k,
        forall|v: int|
            #[trigger] heaps[k].has(v) <==> heaps[0].has(v) && !came_out_before(taken, k, v),
        forall|i: int|
            0 <= i < k ==> match #[trigger] taken[i] {
                Some(x) => heaps[0].has(x.id()) && !came_out_before(taken, i, x.id()),
                None => false,
            },
    decreases k,
{
    if k == 0 {
        assert forall|v: int| !came_out_before(taken, 0, v) by {}
    } else {
        lemma_pops_prefix(heaps, taken, k - 1);
        let pre = heaps[k - 1];
        let r = taken[k - 1];
        assert(heaps[k - 1 + 1].popped_from(&heaps[k - 1], taken[k - 1]));
        assert(pre.size() >= 1);
        match r {
            None => {
                assert(false);
            },
            Some(x) => {
                assert(came_out(taken, k - 1, x.id()));
                assert(pre.has(x.id()));
                assert(heaps[0].has(x.id()) && !came_out_before(taken, k - 1, x.id()));
                assert forall|i: int| 0 <= i < k implies match #[trigger] taken[i] {
                    Some(y) => heaps[0].has(y.id()) && !came_out_before(taken, i, y.id()),
                    None => false,
                } by {
                    if i == k - 1 {
                        assert(taken[i] == Some(x));
                    }
                }
                assert forall|v: int|
                    #[trigger] heaps[k].has(v) <==> heaps[0].has(v) && !came_out_before(
                        taken,
                        k,
                        v,
                    ) by {
                    assert(heaps[k].has(v) <==> pre.has(v) && v != x.id());
                    assert(pre.has(v) <==> heaps[0].has(v) && !came_out_before(taken, k - 1, v));
                    if v == x.id() {
                        assert(came_out_before(taken, k, v));
                    }
                    if came_out_before(taken, k, v) {
                        let i = choose|i: int| 0 <= i < k && #[trigger] came_out(taken, i, v);
                        if i < k - 1 {
                            assert(came_out_before(taken, k - 1, v));
                        }
                    }
                    if came_out_before(taken, k - 1, v) {
                        let i = choose|i: int| 0 <= i < k - 1 && #[trigger] came_out(taken, i, v);
                        assert(came_out(taken, i, v));
                    }
                }
            },
        }
    }
}

/// Pops in a row, one more than the heap holds variables, hand out every
/// variable of the heap once, and the last of them hands out nothing.
pub proof fn lemma_pops_drain(heaps: Seq<Heap>, taken: Seq<Option<Var>>)
    requires
        pops_in_a_row(heaps, taken),
        taken.len() == heaps[0].size() + 1,
    ensures
        forall|i: int| 0 <= i < taken.len() - 1 ==> #[trigger] taken[i] is Some,
        taken.last() is None,
        forall|v: int| heaps[0].has(v) <==> came_out_before(taken, taken.len() - 1, v),
        forall|i: int, j: int| 0 <= i < j < taken.len() - 1 ==> taken[i] != taken[j],
{
    let n = taken.len() - 1;
    lemma_pops_prefix(heaps, taken, n);
    assert(heaps[n + 1].popped_from(&heaps[n], taken[n]));
    assert(taken[n] is None);
    assert forall|v: int| heaps[0].has(v) <==> came_out_before(taken, n, v) by {
        assert(!heaps[n].has(v));
        assert(heaps[n].has(v) <==> heaps[0].has(v) && !came_out_before(taken, n, v));
        if came_out_before(taken, n, v) {
            let i = choose|i: int| 0 <= i < n && #[trigger] came_out(taken, i, v);
            assert(taken[i] is Some);
        }
    }
    assert forall|i: int, j: int| 0 <= i < j < n implies taken[i] != taken[j] by {
        if taken[i] == taken[j] {
            assert(taken[j] is Some);
            let x = taken[j].unwrap();
            assert(came_out(taken, i, x.id()));
            assert(came_out_before(taken, j, x.id()));
        }
    }
}

} // verus!

//! Archetype descriptors: a strictly sorted sequence of component-type
//! identifiers with a parallel sequence of per-component byte sizes.

use vstd::prelude::*;

verus! {

/// A process-wide unique identifier for a component type. Two occurrences of
/// the same underlying type must produce equal identifiers; distinct types
/// must produce distinct identifiers.
pub type ComponentId = u64;

/// Errors raised by archetype and world operations on component sets.
#[derive(Clone, Copy, Debug, PartialEq, Eq, Structural)]
pub enum EcsError {
    /// The component type is already present in the archetype.
    DuplicateComponent,
    /// The component type is not present in the archetype.
    UnknownComponent,
}

/// Sum of the first `n` sizes, as a mathematical integer.
pub open spec fn sum_prefix(sizes: Seq<usize>, n: int) -> int
    decreases n,
{
    if n <= 0 {
        0
    } else {
        sum_prefix(sizes, n - 1) + sizes[n - 1]
    }
}

/// Sum of all sizes: the number of bytes one row occupies.
pub open spec fn stride_of(sizes: Seq<usize>) -> int {
    sum_prefix(sizes, sizes.len() as int)
}

/// The number of identifiers in `ids` that are strictly below `id`; for a
/// strictly sorted sequence this is both the index of `id` when present and
/// the position where `id` must be inserted to keep the order.
pub open spec fn rank(ids: Seq<ComponentId>, id: ComponentId) -> int
    decreases ids.len(),
{
    if ids.len() == 0 {
        0
    } else {
        rank(ids.drop_last(), id) + if ids.last() < id {
            1int
        } else {
            0int
        }
    }
}

/// Strict ascending order: no duplicates.
pub open spec fn strictly_sorted(ids: Seq<ComponentId>) -> bool {
    forall|i: int, j: int| 0 <= i < j < ids.len() ==> ids[i] < ids[j]
}

pub proof fn lemma_sum_prefix_nonneg(sizes: Seq<usize>, n: int)
    ensures
        0 <= sum_prefix(sizes, n),
    decreases n,
{
    if n > 0 {
        lemma_sum_prefix_nonneg(sizes, n - 1);
    }
}

pub proof fn lemma_sum_prefix_mono(sizes: Seq<usize>, m: int, n: int)
    requires
        0 <= m <= n,
    ensures
        sum_prefix(sizes, m) <= sum_prefix(sizes, n),
    decreases n,
{
    if m < n {
        lemma_sum_prefix_mono(sizes, m, n - 1);
    }
}

/// Inserting a size at position `p` shifts prefix sums past `p` up by `v`.
pub proof fn lemma_sum_prefix_insert(sizes: Seq<usize>, p: int, v: usize, n: int)
    requires
        0 <= p <= sizes.len(),
        n <= sizes.len() + 1,
    ensures
        sum_prefix(sizes.insert(p, v), n) == if n <= p {
            sum_prefix(sizes, n)
        } else {
            sum_prefix(sizes, n - 1) + v
        },
    decreases n,
{
    if n > 0 {
        lemma_sum_prefix_insert(sizes, p, v, n - 1);
        if n <= p {
            assert(sizes.insert(p, v)[n - 1] == sizes[n - 1]);
        } else if n - 1 == p {
            assert(sizes.insert(p, v)[n - 1] == v);
        } else {
            assert(sizes.insert(p, v)[n - 1] == sizes[n - 2]);
        }
    }
}

/// Removing the size at position `p` shifts prefix sums past `p` down.
pub proof fn lemma_sum_prefix_remove(sizes: Seq<usize>, p: int, n: int)
    requires
        0 <= p < sizes.len(),
        n <= sizes.len() - 1,
    ensures
        sum_prefix(sizes.remove(p), n) == if n <= p {
            sum_prefix(sizes, n)
        } else {
            sum_prefix(sizes, n + 1) - sizes[p]
        },
    decreases n,
{
    if n > 0 {
        lemma_sum_prefix_remove(sizes, p, n - 1);
        if n <= p {
            assert(sizes.remove(p)[n - 1] == sizes[n - 1]);
        } else {
            assert(sizes.remove(p)[n - 1] == sizes[n]);
            assert(sum_prefix(sizes, n + 1) == sum_prefix(sizes, n) + sizes[n]);
            assert(sum_prefix(sizes, n) == sum_prefix(sizes, n - 1) + sizes[n - 1]);
        }
    }
}

/// For a strictly sorted sequence, everything below the rank of `id` is
/// smaller than `id` and everything from the rank on is at least `id`.
pub proof fn lemma_rank_sorted(ids: Seq<ComponentId>, id: ComponentId)
    requires
        strictly_sorted(ids),
    ensures
        0 <= rank(ids, id) <= ids.len(),
        forall|i: int| 0 <= i < rank(ids, id) ==> ids[i] < id,
        forall|i: int| rank(ids, id) <= i < ids.len() ==> ids[i] >= id,
    decreases ids.len(),
{
    if ids.len() > 0 {
        let dl = ids.drop_last();
        assert(forall|i: int| 0 <= i < dl.len() ==> dl[i] == ids[i]);
        assert(strictly_sorted(dl));
        lemma_rank_sorted(dl, id);
        let r = rank(dl, id);
        if ids.last() < id {
            // everything sits below the last element, hence below id
            if r < dl.len() {
                assert(dl[r] >= id);
                assert(ids[r] < ids[ids.len() - 1]);
                assert(false);
            }
            assert(rank(ids, id) == dl.len() + 1);
            assert forall|i: int| 0 <= i < rank(ids, id) implies ids[i] < id by {
                if i < ids.len() - 1 {
                    assert(ids[i] < ids[ids.len() - 1]);
                }
            }
        } else {
            assert(rank(ids, id) == r);
            assert forall|i: int| r <= i < ids.len() implies ids[i] >= id by {
                if i < ids.len() - 1 {
                    assert(dl[i] >= id);
                }
            }
        }
    }
}

/// In a strictly sorted sequence an element's index equals its rank.
pub proof fn lemma_rank_index(ids: Seq<ComponentId>, id: ComponentId, p: int)
    requires
        strictly_sorted(ids),
        0 <= p < ids.len(),
        ids[p] == id,
    ensures
        rank(ids, id) == p,
{
    lemma_rank_sorted(ids, id);
    let r = rank(ids, id);
    if r < p {
        assert(ids[r] >= id);
        assert(ids[r] < ids[p]);
        assert(false);
    }
    if r > p {
        assert(ids[p] < id);
        assert(false);
    }
}

/// The rank of `id` in a sequence does not depend on where some other value
/// was inserted, only on how it compares with `id`.
pub proof fn lemma_rank_insert(ids: Seq<ComponentId>, p: int, a: ComponentId, b: ComponentId)
    requires
        0 <= p <= ids.len(),
    ensures
        rank(ids.insert(p, a), b) == rank(ids, b) + if a < b {
            1int
        } else {
            0int
        },
    decreases ids.len(),
{
    let grown = ids.insert(p, a);
    if p == ids.len() {
        assert(grown.drop_last() =~= ids);
        assert(grown.last() == a);
    } else {
        assert(grown.drop_last() =~= ids.drop_last().insert(p, a));
        assert(grown.last() == ids.last());
        lemma_rank_insert(ids.drop_last(), p, a, b);
    }
}

/// Ranks are monotone in the identifier compared against.
pub proof fn lemma_rank_le(ids: Seq<ComponentId>, a: ComponentId, b: ComponentId)
    requires
        a <= b,
    ensures
        rank(ids, a) <= rank(ids, b),
    decreases ids.len(),
{
    if ids.len() > 0 {
        lemma_rank_le(ids.drop_last(), a, b);
    }
}

/// Two insertions into a sequence commute when performed at compatible
/// positions: inserting at `p1` first shifts the later position `p2` up by
/// one.
pub proof fn lemma_insert_insert<T>(xs: Seq<T>, p1: int, x1: T, p2: int, x2: T)
    requires
        0 <= p1 <= p2 <= xs.len(),
    ensures
        xs.insert(p1, x1).insert(p2 + 1, x2) == xs.insert(p2, x2).insert(p1, x1),
{
    let l = xs.insert(p1, x1).insert(p2 + 1, x2);
    let r = xs.insert(p2, x2).insert(p1, x1);
    assert forall|i: int| 0 <= i < l.len() implies l[i] == r[i] by {
        if i < p1 {
            assert(l[i] == xs[i] && r[i] == xs[i]);
        } else if i == p1 {
            assert(l[i] == x1 && r[i] == x1);
        } else if i < p2 + 1 {
            assert(l[i] == xs[i - 1] && r[i] == xs[i - 1]);
        } else if i == p2 + 1 {
            assert(l[i] == x2 && r[i] == x2);
        } else {
            assert(l[i] == xs[i - 2] && r[i] == xs[i - 2]);
        }
    }
    assert(l =~= r);
}

/// Inserting a fresh identifier at its rank keeps the order strict.
pub proof fn lemma_insert_sorted(ids: Seq<ComponentId>, id: ComponentId)
    requires
        strictly_sorted(ids),
        !ids.contains(id),
    ensures
        strictly_sorted(ids.insert(rank(ids, id), id)),
{
    lemma_rank_sorted(ids, id);
    let r = rank(ids, id);
    let grown = ids.insert(r, id);
    assert(forall|i: int| r <= i < ids.len() ==> ids[i] != id) by {
        assert(forall|i: int| 0 <= i < ids.len() ==> ids[i] == id ==> ids.contains(id));
    }
    assert forall|i: int, j: int| 0 <= i < j < grown.len() implies grown[i] < grown[j] by {
        if i < r && j < r {
            assert(grown[i] == ids[i] && grown[j] == ids[j]);
        } else if i < r && j == r {
            assert(grown[i] == ids[i] && grown[j] == id);
        } else if i < r && j > r {
            assert(grown[i] == ids[i] && grown[j] == ids[j - 1]);
            if ids[j - 1] < id {
                assert(j - 1 < r);
                assert(false);
            }
            if ids[j - 1] == id {
                assert(false);
            }
        } else if i == r {
            assert(grown[i] == id && grown[j] == ids[j - 1]);
            assert(ids[j - 1] >= id);
            assert(ids[j - 1] != id);
        } else {
            assert(grown[i] == ids[i - 1] && grown[j] == ids[j - 1]);
        }
    }
}

/// Removing an entry keeps the order strict.
pub proof fn lemma_remove_sorted(ids: Seq<ComponentId>, p: int)
    requires
        strictly_sorted(ids),
        0 <= p < ids.len(),
    ensures
        strictly_sorted(ids.remove(p)),
{
    let shrunk = ids.remove(p);
    assert forall|i: int, j: int| 0 <= i < j < shrunk.len() implies shrunk[i] < shrunk[j] by {
        let i0: int = if i < p { i } else { i + 1 };
        let j0: int = if j < p { j } else { j + 1 };
        assert(shrunk[i] == ids[i0] && shrunk[j] == ids[j0]);
    }
}

/// A sorted sequence of component-type identifiers with a parallel sequence
/// of per-component sizes in bytes. Equality of archetypes is equality of the
/// identifier sequences; the empty archetype is the canonical "no components"
/// state.
pub struct Archetype {
    pub ids: Vec<ComponentId>,
    pub size: Vec<usize>,
}

impl Archetype {
    /// Invariant: the identifier sequence is strictly sorted (no
    /// duplicates), the sizes run parallel to it, and a full row fits in a
    /// machine-sized byte buffer.
    pub open spec fn wf(self) -> bool {
        &&& self.ids@.len() == self.size@.len()
        &&& strictly_sorted(self.ids@)
        &&& stride_of(self.size@) <= usize::MAX
    }

    /// Whether the component type is part of this archetype.
    pub open spec fn has(self, id: ComponentId) -> bool {
        self.ids@.contains(id)
    }

    pub open spec fn spec_len(self) -> int {
        self.ids@.len() as int
    }

    /// The number of bytes one row of this archetype occupies.
    pub open spec fn spec_stride(self) -> int {
        stride_of(self.size@)
    }

    /// Byte offset of the component slot at `index` within a row.
    pub open spec fn spec_offset(self, index: int) -> int {
        sum_prefix(self.size@, index)
    }

    /// The archetype with no components.
    pub fn new() -> (r: Archetype)
        ensures
            r.ids@ == Seq::<ComponentId>::empty(),
            r.size@ == Seq::<usize>::empty(),
            r.wf(),
    {
        Archetype { ids: Vec::new(), size: Vec::new() }
    }

    /// An element-wise copy of this archetype.
    pub fn duplicate(&self) -> (r: Archetype)
        ensures
            r.ids@ == self.ids@,
            r.size@ == self.size@,
    {
        let mut ids: Vec<ComponentId> = Vec::new();
        let mut size: Vec<usize> = Vec::new();
        let mut i: usize = 0;
        while i < self.ids.len()
            invariant
                i <= self.ids@.len(),
                ids@ == self.ids@.take(i as int),
            decreases self.ids@.len() - i,
        {
            ids.push(self.ids[i]);
            assert(ids@ =~= self.ids@.take(i + 1));
            i = i + 1;
        }
        assert(ids@ =~= self.ids@);
        let mut j: usize = 0;
        while j < self.size.len()
            invariant
                j <= self.size@.len(),
                size@ == self.size@.take(j as int),
            decreases self.size@.len() - j,
        {
            size.push(self.size[j]);
            assert(size@ =~= self.size@.take(j + 1));
            j = j + 1;
        }
        assert(size@ =~= self.size@);
        Archetype { ids, size }
    }

    pub fn len(&self) -> (r: usize)
        ensures
            r == self.spec_len(),
    {
        self.ids.len()
    }

    pub fn is_empty(&self) -> (r: bool)
        ensures
            r == (self.spec_len() == 0),
    {
        self.ids.len() == 0
    }

    pub fn get_by_index(&self, index: usize) -> (r: ComponentId)
        requires
            index < self.spec_len(),
        ensures
            r == self.ids@[index as int],
    {
        self.ids[index]
    }

    /// Binary search for `id` over the sorted identifier sequence.
    pub fn index_of(&self, id: ComponentId) -> (r: Option<usize>)
        requires
            self.wf(),
        ensures
            match r {
                Some(p) => p < self.spec_len() && self.ids@[p as int] == id && p == rank(
                    self.ids@,
                    id,
                ),
                None => !self.has(id),
            },
    {
        proof {
            lemma_rank_sorted(self.ids@, id);
        }
        let mut lo: usize = 0;
        let mut hi: usize = self.ids.len();
        while lo < hi
            invariant
                lo <= hi <= self.ids@.len(),
                forall|i: int| 0 <= i < lo ==> self.ids@[i] < id,
                forall|i: int| hi <= i < self.ids@.len() ==> self.ids@[i] >= id,
                self.wf(),
            decreases hi - lo,
        {
            let mid: usize = lo + (hi - lo) / 2;
            if self.ids[mid] < id {
                lo = mid + 1;
            } else {
                hi = mid;
            }
        }
        if lo < self.ids.len() && self.ids[lo] == id {
            proof {
                lemma_rank_index(self.ids@, id, lo as int);
            }
            Some(lo)
        } else {
            proof {
                if self.ids@.contains(id) {
                    let w: int = choose|w: int|
                        0 <= w < self.ids@.len() && self.ids@[w] == id;
                    assert(self.ids@[w] == id);
                }
            }
            None
        }
    }

    /// Byte offset of the component slot at `index` within a row: the prefix
    /// sum of the sizes before it. `None` when `index` is past the end.
    pub fn offset_of(&self, index: usize) -> (r: Option<usize>)
        requires
            self.wf(),
        ensures
            match r {
                Some(o) => index <= self.spec_len() && o == self.spec_offset(index as int),
                None => index > self.spec_len(),
            },
    {
        if index > self.size.len() {
            return None;
        }
        let mut total: usize = 0;
        let mut i: usize = 0;
        while i < index
            invariant
                i <= index <= self.size@.len(),
                total == sum_prefix(self.size@, i as int),
                self.wf(),
            decreases index - i,
        {
            proof {
                lemma_sum_prefix_mono(self.size@, i + 1, self.size@.len() as int);
                lemma_sum_prefix_nonneg(self.size@, i as int);
            }
            total = total + self.size[i];
            i = i + 1;
        }
        Some(total)
    }

    /// Total of the component sizes: the row stride in bytes.
    pub fn size(&self) -> (r: usize)
        requires
            self.wf(),
        ensures
            r == self.spec_stride(),
    {
        let mut total: usize = 0;
        let mut i: usize = 0;
        while i < self.size.len()
            invariant
                i <= self.size@.len(),
                total == sum_prefix(self.size@, i as int),
                self.wf(),
            decreases self.size@.len() - i,
        {
            proof {
                lemma_sum_prefix_mono(self.size@, i + 1, self.size@.len() as int);
                lemma_sum_prefix_nonneg(self.size@, i as int);
            }
            total = total + self.size[i];
            i = i + 1;
        }
        total
    }

    /// Insert `(id, size)` keeping the identifiers sorted; rejected with
    /// `DuplicateComponent` when `id` is already present.
    pub fn add(&mut self, id: ComponentId, size: usize) -> (r: Result<(), EcsError>)
        requires
            old(self).wf(),
            old(self).spec_stride() + size <= usize::MAX,
        ensures
            final(self).wf(),
            match r {
                Ok(()) => !old(self).has(id) && final(self).ids@ == old(self).ids@.insert(
                    rank(old(self).ids@, id),
                    id,
                ) && final(self).size@ == old(self).size@.insert(rank(old(self).ids@, id), size)
                    && final(self).spec_stride() == old(self).spec_stride() + size,
                Err(e) => e == EcsError::DuplicateComponent && old(self).has(id) && *final(self)
                    == *old(self),
            },
    {
        proof {
            lemma_rank_sorted(self.ids@, id);
        }
        let ghost pre = *self;
        let mut lo: usize = 0;
        let mut hi: usize = self.ids.len();
        while lo < hi
            invariant
                lo <= hi <= self.ids@.len(),
                forall|i: int| 0 <= i < lo ==> self.ids@[i] < id,
                forall|i: int| hi <= i < self.ids@.len() ==> self.ids@[i] >= id,
                self.wf(),
                *self == pre,
            decreases hi - lo,
        {
            let mid: usize = lo + (hi - lo) / 2;
            if self.ids[mid] < id {
                lo = mid + 1;
            } else {
                hi = mid;
            }
        }
        if lo < self.ids.len() && self.ids[lo] == id {
            proof {
                assert(self.has(id));
            }
            return Err(EcsError::DuplicateComponent);
        }
        proof {
            if self.ids@.contains(id) {
                let w: int = choose|w: int| 0 <= w < self.ids@.len() && self.ids@[w] == id;
                assert(self.ids@[w] == id);
                assert(false);
            }
            assert(lo as int == rank(self.ids@, id)) by {
                let r = rank(self.ids@, id);
                if r < lo {
                    assert(self.ids@[r] < id);
                    assert(self.ids@[r] >= id);
                }
                if r > lo {
                    assert(self.ids@[lo as int] >= id);
                    assert(self.ids@[lo as int] < id);
                }
            }
            lemma_insert_sorted(self.ids@, id);
            lemma_sum_prefix_insert(pre.size@, lo as int, size, pre.size@.len() as int + 1);
        }
        self.ids.insert(lo, id);
        self.size.insert(lo, size);
        Ok(())
    }

    /// Remove the slot for `id`; rejected with `UnknownComponent` when the
    /// component type is not present.
    pub fn remove(&mut self, id: ComponentId) -> (r: Result<(), EcsError>)
        requires
            old(self).wf(),
        ensures
            final(self).wf(),
            match r {
                Ok(()) => old(self).has(id) && final(self).ids@ == old(self).ids@.remove(
                    rank(old(self).ids@, id),
                ) && final(self).size@ == old(self).size@.remove(rank(old(self).ids@, id)),
                Err(e) => e == EcsError::UnknownComponent && !old(self).has(id) && *final(self)
                    == *old(self),
            },
    {
        match self.index_of(id) {
            Some(index) => {
                self.remove_by_index(index);
                Ok(())
            },
            None => Err(EcsError::UnknownComponent),
        }
    }

    /// Remove the identifier and size at `index`, returning the identifier.
    pub fn remove_by_index(&mut self, index: usize) -> (r: ComponentId)
        requires
            old(self).wf(),
            index < old(self).spec_len(),
        ensures
            final(self).wf(),
            r == old(self).ids@[index as int],
            final(self).ids@ == old(self).ids@.remove(index as int),
            final(self).size@ == old(self).size@.remove(index as int),
            final(self).spec_stride() == old(self).spec_stride() - old(self).size@[index as int],
    {
        proof {
            lemma_remove_sorted(self.ids@, index as int);
            lemma_sum_prefix_remove(self.size@, index as int, self.size@.len() - 1);
            lemma_sum_prefix_nonneg(self.size@.remove(index as int), self.size@.len() - 1);
        }
        let id = self.ids.remove(index);
        self.size.remove(index);
        id
    }
}

} // verus!

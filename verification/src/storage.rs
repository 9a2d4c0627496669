//! Per-archetype column arenas and the staging values that describe a row
//! entering or leaving one.
//!
//! A `Storage` is a contiguous byte buffer holding `n * row_stride` bytes
//! beside a parallel array mapping each row to its owning entity. Rows are
//! appended at the end and removed by swap-remove: the last row's bytes are
//! copied over the vacated row and the buffer shrinks by one stride.

use vstd::prelude::*;

use crate::archetype::{
    lemma_rank_index, lemma_rank_sorted, lemma_sum_prefix_insert, lemma_sum_prefix_mono, lemma_sum_prefix_nonneg,
    lemma_sum_prefix_remove, rank, sum_prefix, Archetype, ComponentId, EcsError,
};
use crate::entities::{ComponentIndex, Entity};

verus! {

/// The bytes of row `r` inside a buffer of rows of `stride` bytes each.
pub open spec fn spec_row(data: Seq<u8>, stride: int, r: int) -> Seq<u8> {
    data.subrange(r * stride, (r + 1) * stride)
}

pub proof fn lemma_mul_succ(n: int, s: int)
    ensures
        (n + 1) * s == n * s + s,
{
    assert((n + 1) * s == n * s + s) by (nonlinear_arith);
}

pub proof fn lemma_mul_mono(a: int, b: int, s: int)
    requires
        a <= b,
        0 <= s,
    ensures
        a * s <= b * s,
{
    assert(a * s <= b * s) by (nonlinear_arith)
        requires
            a <= b,
            0 <= s,
    ;
}

pub proof fn lemma_mul_nonneg(a: int, s: int)
    requires
        0 <= a,
        0 <= s,
    ensures
        0 <= a * s,
{
    assert(0 <= a * s) by (nonlinear_arith)
        requires
            0 <= a,
            0 <= s,
    ;
}

/// An immutable staging value describing a row to be added to a Storage: the
/// destination archetype, the owning entity, and the row bytes.
pub struct Insertion {
    pub archetype: Archetype,
    pub entity: Entity,
    pub data: Vec<u8>,
}

impl Insertion {
    /// Invariant: the buffer length always equals the archetype's row
    /// stride.
    pub open spec fn wf(self) -> bool {
        &&& self.archetype.wf()
        &&& self.data@.len() == self.archetype.spec_stride()
    }

    /// An empty row owned by `entity`: no components, no bytes.
    pub fn new(entity: Entity) -> (r: Insertion)
        ensures
            r.entity == entity,
            r.archetype.ids@ == Seq::<ComponentId>::empty(),
            r.archetype.size@ == Seq::<usize>::empty(),
            r.data@ == Seq::<u8>::empty(),
            r.wf(),
    {
        Insertion { archetype: Archetype::new(), entity, data: Vec::new() }
    }

    /// Extend the archetype by a component and splice the value's bytes into
    /// the row at the offset the sorted position dictates. Rejected with
    /// `DuplicateComponent` when the component is already present.
    pub fn add(&mut self, id: ComponentId, value: &Vec<u8>) -> (r: Result<(), EcsError>)
        requires
            old(self).wf(),
            old(self).archetype.spec_stride() + value@.len() <= usize::MAX,
        ensures
            final(self).wf(),
            final(self).entity == old(self).entity,
            match r {
                Ok(()) => {
                    let p = rank(old(self).archetype.ids@, id);
                    let off = old(self).archetype.spec_offset(p);
                    &&& !old(self).archetype.has(id)
                    &&& final(self).archetype.ids@ == old(self).archetype.ids@.insert(p, id)
                    &&& final(self).archetype.size@ == old(self).archetype.size@.insert(
                        p,
                        value@.len() as usize,
                    )
                    &&& final(self).data@ == old(self).data@.subrange(0, off) + value@ + old(
                        self,
                    ).data@.subrange(off, old(self).data@.len() as int)
                },
                Err(e) => e == EcsError::DuplicateComponent && old(self).archetype.has(id)
                    && *final(self) == *old(self),
            },
    {
        let sz = value.len();
        let ghost pre = *self;
        match self.archetype.add(id, sz) {
            Err(e) => {
                return Err(e);
            },
            Ok(()) => {},
        }
        let ghost p = rank(pre.archetype.ids@, id);
        let pos = match self.archetype.index_of(id) {
            Some(pos) => pos,
            None => {
                proof {
                    lemma_rank_sorted(pre.archetype.ids@, id);
                    assert(pre.archetype.ids@.insert(p, id)[p] == id);
                    assert(self.archetype.has(id));
                    assert(false);
                }
                0
            },
        };
        proof {
            lemma_rank_sorted(pre.archetype.ids@, id);
            assert(pre.archetype.ids@.insert(p, id)[p] == id);
            lemma_rank_index(self.archetype.ids@, id, p);
            assert(pos as int == p);
        }
        let offset = match self.archetype.offset_of(pos) {
            Some(offset) => offset,
            None => {
                proof {
                    assert(false);
                }
                0
            },
        };
        proof {
            lemma_sum_prefix_insert(pre.archetype.size@, p, sz, p);
            assert(offset == pre.archetype.spec_offset(p));
            lemma_sum_prefix_mono(pre.archetype.size@, p, pre.archetype.size@.len() as int);
            lemma_sum_prefix_nonneg(pre.archetype.size@, p);
            assert(offset <= pre.data@.len());
        }
        let ghost off = offset as int;
        let ghost grown = self.archetype;
        let mut j: usize = 0;
        while j < value.len()
            invariant
                j <= value@.len(),
                off == offset as int,
                offset + value@.len() <= usize::MAX,
                off <= pre.data@.len(),
                self.data@.len() == pre.data@.len() + j,
                self.data@ == pre.data@.subrange(0, off) + value@.subrange(0, j as int)
                    + pre.data@.subrange(off, pre.data@.len() as int),
                self.archetype == grown,
                self.entity == pre.entity,
            decreases value@.len() - j,
        {
            self.data.insert(offset + j, value[j]);
            proof {
                assert(self.data@ =~= pre.data@.subrange(0, off) + value@.subrange(0, j + 1)
                    + pre.data@.subrange(off, pre.data@.len() as int));
            }
            j = j + 1;
        }
        proof {
            assert(value@.subrange(0, value@.len() as int) =~= value@);
            assert(self.data@ =~= pre.data@.subrange(0, off) + value@ + pre.data@.subrange(
                off,
                pre.data@.len() as int,
            ));
            lemma_sum_prefix_insert(
                pre.archetype.size@,
                p,
                sz,
                pre.archetype.size@.len() as int + 1,
            );
        }
        Ok(())
    }

    /// The archetype this row is staged for.
    pub fn archetype(&self) -> (r: &Archetype)
        ensures
            *r == self.archetype,
    {
        &self.archetype
    }

    /// Surrender the staged row bytes.
    pub fn into_data(self) -> (r: Vec<u8>)
        ensures
            r == self.data,
    {
        self.data
    }
}

/// Report that the row formerly at the end of a Storage was relocated to row
/// `to`, so that the owning entity's slot can be fixed up.
pub struct Swap {
    pub to: ComponentIndex,
    pub entity: Entity,
}

/// The result of pulling a row out of a Storage: the archetype of the row,
/// its raw bytes, and the relocation the swap-remove performed, if any.
pub struct Removal {
    pub archetype: Archetype,
    pub data: Vec<u8>,
    pub swap: Option<Swap>,
}

impl Removal {
    /// Invariant: the buffer length always equals the archetype's row
    /// stride.
    pub open spec fn wf(self) -> bool {
        &&& self.archetype.wf()
        &&& self.data@.len() == self.archetype.spec_stride()
    }

    /// Splice the bytes of one component out of the row and shrink the
    /// archetype, returning the departing component's bytes in isolation.
    pub fn remove(&mut self, id: ComponentId) -> (r: Vec<u8>)
        requires
            old(self).wf(),
            old(self).archetype.has(id),
        ensures
            final(self).wf(),
            ({
                let p = rank(old(self).archetype.ids@, id);
                let off = old(self).archetype.spec_offset(p);
                let sz = old(self).archetype.size@[p];
                &&& r@ == old(self).data@.subrange(off, off + sz)
                &&& final(self).archetype.ids@ == old(self).archetype.ids@.remove(p)
                &&& final(self).archetype.size@ == old(self).archetype.size@.remove(p)
                &&& final(self).data@ == old(self).data@.subrange(0, off) + old(
                    self,
                ).data@.subrange(off + sz, old(self).data@.len() as int)
                &&& final(self).swap == old(self).swap
            }),
    {
        let ghost pre = *self;
        let pos = match self.archetype.index_of(id) {
            Some(pos) => pos,
            None => {
                proof {
                    assert(false);
                }
                0
            },
        };
        let ghost p = pos as int;
        let offset = match self.archetype.offset_of(pos) {
            Some(offset) => offset,
            None => {
                proof {
                    assert(false);
                }
                0
            },
        };
        let sz = self.archetype.size[pos];
        let dlen = self.data.len();
        proof {
            assert(sum_prefix(pre.archetype.size@, p + 1) == sum_prefix(pre.archetype.size@, p)
                + sz);
            lemma_sum_prefix_mono(pre.archetype.size@, p + 1, pre.archetype.size@.len() as int);
            lemma_sum_prefix_nonneg(pre.archetype.size@, p);
            assert(offset + sz <= dlen);
        }
        let ghost off = offset as int;
        let mut out: Vec<u8> = Vec::new();
        let mut k: usize = 0;
        while k < sz
            invariant
                k <= sz,
                off == offset as int,
                off + sz <= dlen,
                dlen == self.data@.len(),
                out@ == self.data@.subrange(off, off + k),
                *self == pre,
            decreases sz - k,
        {
            out.push(self.data[offset + k]);
            proof {
                assert(out@ =~= self.data@.subrange(off, off + k + 1));
            }
            k = k + 1;
        }
        let mut k: usize = 0;
        while k < sz
            invariant
                k <= sz,
                off == offset as int,
                off + sz <= pre.data@.len(),
                self.data@ == pre.data@.subrange(0, off) + pre.data@.subrange(
                    off + k,
                    pre.data@.len() as int,
                ),
                self.archetype == pre.archetype,
                self.swap == pre.swap,
            decreases sz - k,
        {
            proof {
                assert(self.data@.len() == pre.data@.len() - k);
            }
            self.data.remove(offset);
            proof {
                assert(self.data@ =~= pre.data@.subrange(0, off) + pre.data@.subrange(
                    off + k + 1,
                    pre.data@.len() as int,
                ));
            }
            k = k + 1;
        }
        self.archetype.remove_by_index(pos);
        proof {
            lemma_sum_prefix_remove(
                pre.archetype.size@,
                p,
                pre.archetype.size@.len() as int - 1,
            );
        }
        out
    }
}

/// A per-archetype arena: a contiguous byte buffer of fixed-stride rows and a
/// parallel array mapping each row to its owning entity.
pub struct Storage {
    pub archetype: Archetype,
    pub data: Vec<u8>,
    pub entities: Vec<Entity>,
}

impl Storage {
    /// Invariant: the buffer holds exactly one stride of bytes for
    /// every row listed in the entity array.
    pub open spec fn wf(self) -> bool {
        &&& self.archetype.wf()
        &&& self.data@.len() == self.entities@.len() * self.archetype.spec_stride()
    }

    /// The number of rows held.
    pub open spec fn spec_rows(self) -> int {
        self.entities@.len() as int
    }

    /// The bytes of row `r`.
    pub open spec fn row(self, r: int) -> Seq<u8> {
        spec_row(self.data@, self.archetype.spec_stride(), r)
    }

    /// An empty arena for `archetype`.
    pub fn new(archetype: Archetype) -> (r: Storage)
        requires
            archetype.wf(),
        ensures
            r.archetype == archetype,
            r.data@ == Seq::<u8>::empty(),
            r.entities@ == Seq::<Entity>::empty(),
            r.wf(),
    {
        Storage { archetype, data: Vec::with_capacity(50000), entities: Vec::new() }
    }

    /// Append a staged row; the returned row index equals the number of rows
    /// present before the insertion. The insertion's archetype must match
    /// this arena's archetype.
    pub fn insert(&mut self, insertion: Insertion) -> (row: usize)
        requires
            old(self).wf(),
            insertion.wf(),
            insertion.archetype.ids@ == old(self).archetype.ids@,
            insertion.archetype.size@ == old(self).archetype.size@,
        ensures
            final(self).wf(),
            final(self).archetype == old(self).archetype,
            row == old(self).spec_rows(),
            final(self).entities@ == old(self).entities@.push(insertion.entity),
            final(self).data@ == old(self).data@ + insertion.data@,
            final(self).spec_rows() == old(self).spec_rows() + 1,
            final(self).row(row as int) == insertion.data@,
            forall|r: int| 0 <= r < old(self).spec_rows() ==> final(self).row(r) == old(self).row(r),
    {
        let row = self.entities.len();
        self.entities.push(insertion.entity);
        let mut incoming = insertion.into_data();
        self.data.append(&mut incoming);
        proof {
            let stride = self.archetype.spec_stride();
            let n = old(self).spec_rows();
            lemma_mul_succ(n, stride);
            lemma_sum_prefix_nonneg(self.archetype.size@, self.archetype.size@.len() as int);
            lemma_mul_nonneg(n, stride);
            assert(self.data@.len() == (n + 1) * stride);
            assert(self.row(n) =~= insertion.data@);
            assert forall|r: int| 0 <= r < n implies self.row(r) == old(self).row(r) by {
                lemma_mul_mono(r + 1, n, stride);
                lemma_mul_mono(0, r, stride);
                lemma_mul_succ(r, stride);
                assert(self.row(r) =~= old(self).row(r));
            }
        }
        row
    }

    /// The byte index within the arena of the sub-slice at `offset` inside
    /// row `row`; valid until the next structural mutation of this storage.
    pub fn location(&self, row: usize, offset: usize) -> (r: usize)
        requires
            self.wf(),
            row < self.spec_rows(),
            offset <= self.archetype.spec_stride(),
        ensures
            r == row * self.archetype.spec_stride() + offset,
    {
        let stride = self.archetype.size();
        let dlen = self.data.len();
        proof {
            let st = self.archetype.spec_stride();
            lemma_sum_prefix_nonneg(self.archetype.size@, self.archetype.size@.len() as int);
            lemma_mul_nonneg(row as int, st);
            lemma_mul_succ(row as int, st);
            lemma_mul_mono(row as int, row as int + 1, st);
            lemma_mul_mono(row as int + 1, self.entities@.len() as int, st);
            assert(row as int * st + offset <= dlen);
        }
        row * stride + offset
    }

    /// Swap-remove row `index`: copy its bytes out; when it is not the last
    /// row, overwrite it with the bytes of the last row (a raw byte copy — no
    /// destructor runs, the last row's owner is being moved, not destroyed)
    /// and report which entity was relocated; then drop the last stride of
    /// the buffer.
    pub fn remove(&mut self, index: usize) -> (removal: Removal)
        requires
            old(self).wf(),
            index < old(self).spec_rows(),
        ensures
            final(self).wf(),
            final(self).archetype == old(self).archetype,
            final(self).spec_rows() == old(self).spec_rows() - 1,
            removal.wf(),
            removal.archetype.ids@ == old(self).archetype.ids@,
            removal.archetype.size@ == old(self).archetype.size@,
            removal.data@ == old(self).row(index as int),
            match removal.swap {
                None => {
                    &&& index == old(self).spec_rows() - 1
                    &&& final(self).entities@ == old(self).entities@.drop_last()
                    &&& forall|r: int|
                        0 <= r < final(self).spec_rows() ==> final(self).row(r) == old(self).row(r)
                },
                Some(s) => {
                    &&& index < old(self).spec_rows() - 1
                    &&& s.to == index
                    &&& s.entity == old(self).entities@.last()
                    &&& final(self).entities@ == old(self).entities@.update(
                        index as int,
                        old(self).entities@.last(),
                    ).drop_last()
                    &&& forall|r: int|
                        0 <= r < final(self).spec_rows() ==> final(self).row(r) == if r
                            == index as int {
                            old(self).row(old(self).spec_rows() - 1)
                        } else {
                            old(self).row(r)
                        }
                },
            },
    {
        let stride = self.archetype.size();
        let n = self.entities.len();
        let dlen = self.data.len();
        let ghost pre = *self;
        let ghost st = self.archetype.spec_stride();
        proof {
            lemma_sum_prefix_nonneg(self.archetype.size@, self.archetype.size@.len() as int);
            lemma_mul_nonneg(index as int, st);
            lemma_mul_succ(index as int, st);
            lemma_mul_mono(index as int, index as int + 1, st);
            lemma_mul_mono(index as int + 1, n as int, st);
            assert(index as int * st + st <= dlen);
        }
        let base = index * stride;
        let mut out: Vec<u8> = Vec::new();
        let mut k: usize = 0;
        while k < stride
            invariant
                k <= stride,
                base == index * st,
                stride == st,
                base + stride <= dlen,
                dlen == self.data@.len(),
                out@ == self.data@.subrange(base as int, base + k),
                *self == pre,
            decreases stride - k,
        {
            out.push(self.data[base + k]);
            proof {
                assert(out@ =~= self.data@.subrange(base as int, base + k + 1));
            }
            k = k + 1;
        }
        proof {
            assert(out@ =~= pre.row(index as int));
        }
        let swap: Option<Swap>;
        if index + 1 < n {
            proof {
                lemma_mul_mono(index as int + 1, n as int - 1, st);
                lemma_mul_mono(n as int - 1, n as int, st);
                lemma_mul_succ(n as int - 1, st);
                assert((n - 1) as int * st + st <= dlen);
            }
            let from = (n - 1) * stride;
            let mut k: usize = 0;
            while k < stride
                invariant
                    k <= stride,
                    base == index * st,
                    from == (n as int - 1) * st,
                    stride == st,
                    base + stride <= from,
                    from + stride <= dlen,
                    dlen == self.data@.len(),
                    self.data@.len() == pre.data@.len(),
                    forall|m: int|
                        0 <= m < self.data@.len() ==> #[trigger] self.data@[m] == if base <= m
                            < base + k {
                            pre.data@[from + (m - base)]
                        } else {
                            pre.data@[m]
                        },
                    self.archetype == pre.archetype,
                    self.entities == pre.entities,
                decreases stride - k,
            {
                let b = self.data[from + k];
                proof {
                    assert(self.data@[from + k] == pre.data@[from + k]);
                }
                self.data[base + k] = b;
                k = k + 1;
            }
            let moved = self.entities[n - 1];
            self.entities.swap_remove(index);
            swap = Some(Swap { to: index, entity: moved });
        } else {
            self.entities.pop();
            swap = None;
        }
        proof {
            lemma_mul_succ(n as int - 1, st);
            lemma_mul_nonneg(n as int - 1, st);
        }
        self.data.truncate((n - 1) * stride);
        let removal = Removal { archetype: self.archetype.duplicate(), data: out, swap };
        proof {
            let fin = *self;
            assert(fin.data@.len() == (n as int - 1) * st);
            assert forall|r: int| 0 <= r < fin.spec_rows() implies fin.row(r) == if r
                == index as int && index as int != n as int - 1 {
                pre.row(n as int - 1)
            } else {
                pre.row(r)
            } by {
                lemma_mul_nonneg(r, st);
                lemma_mul_succ(r, st);
                lemma_mul_mono(r + 1, n as int - 1, st);
                lemma_mul_mono(r + 1, n as int, st);
                if r == index as int && index as int != n as int - 1 {
                    assert(fin.row(r) =~= pre.row(n as int - 1));
                } else {
                    if r < index as int {
                        lemma_mul_mono(r + 1, index as int, st);
                    } else {
                        lemma_mul_mono(index as int + 1, r, st);
                    }
                    assert(fin.row(r) =~= pre.row(r));
                }
            }
        }
        removal
    }
}

} // verus!

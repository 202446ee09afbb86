//! Bookkeeping of a shared byte region: a first-fit allocator with a sorted,
//! coalesced free list, and the table of objects stored in the region.

use vstd::prelude::*;

use crate::object::{ObjectId, ObjectType};

verus! {

/// One extent of the region: `(offset, length)`.
pub type Extent = (usize, usize);

/// End of an extent, one past its last byte.
pub open spec fn ext_end(e: Extent) -> int {
    e.0 as int + e.1 as int
}

/// Two extents share no byte.
pub open spec fn ext_disjoint(a: Extent, b: Extent) -> bool {
    ext_end(a) <= b.0 as int || ext_end(b) <= a.0 as int
}

/// Sum of the lengths of a sequence of extents.
pub open spec fn sum_lens(s: Seq<Extent>) -> int
    decreases s.len(),
{
    if s.len() == 0 {
        0
    } else {
        sum_lens(s.drop_last()) + s.last().1 as int
    }
}

/// Sorted by offset, and no two extents overlap.
pub open spec fn sorted_nonoverlapping(s: Seq<Extent>) -> bool {
    forall|i: int, j: int| 0 <= i < j < s.len() ==> ext_end(#[trigger] s[i]) <= (#[trigger] s[j]).0
}

/// Sorted by offset, and no two extents overlap or touch: adjacent free
/// extents have been merged.
pub open spec fn sorted_coalesced(s: Seq<Extent>) -> bool {
    forall|i: int, j: int| 0 <= i < j < s.len() ==> ext_end(#[trigger] s[i]) < (#[trigger] s[j]).0
}

/// Every extent is non-empty and lies inside `[0, total)`.
pub open spec fn extents_within(s: Seq<Extent>, total: int) -> bool {
    forall|i: int| 0 <= i < s.len() ==> (#[trigger] s[i]).1 > 0 && ext_end(s[i]) <= total
}

pub proof fn lemma_sum_lens_nonneg(s: Seq<Extent>)
    ensures
        sum_lens(s) >= 0,
    decreases s.len(),
{
    if s.len() > 0 {
        lemma_sum_lens_nonneg(s.drop_last());
    }
}

pub proof fn lemma_sum_lens_update(s: Seq<Extent>, i: int, v: Extent)
    requires
        0 <= i < s.len(),
    ensures
        sum_lens(s.update(i, v)) == sum_lens(s) - s[i].1 + v.1,
    decreases s.len(),
{
    if i == s.len() - 1 {
        assert(s.update(i, v).drop_last() =~= s.drop_last());
    } else {
        lemma_sum_lens_update(s.drop_last(), i, v);
        assert(s.update(i, v).drop_last() =~= s.drop_last().update(i, v));
    }
}

pub proof fn lemma_sum_lens_remove(s: Seq<Extent>, i: int)
    requires
        0 <= i < s.len(),
    ensures
        sum_lens(s.remove(i)) == sum_lens(s) - s[i].1,
    decreases s.len(),
{
    if i == s.len() - 1 {
        assert(s.remove(i) =~= s.drop_last());
    } else {
        lemma_sum_lens_remove(s.drop_last(), i);
        assert(s.remove(i).drop_last() =~= s.drop_last().remove(i));
    }
}

pub proof fn lemma_sum_lens_insert(s: Seq<Extent>, i: int, v: Extent)
    requires
        0 <= i <= s.len(),
    ensures
        sum_lens(s.insert(i, v)) == sum_lens(s) + v.1,
    decreases s.len(),
{
    if i == s.len() {
        assert(s.insert(i, v) =~= s.push(v));
        assert(s.push(v).drop_last() =~= s);
    } else {
        lemma_sum_lens_insert(s.drop_last(), i, v);
        assert(s.insert(i, v).drop_last() =~= s.drop_last().insert(i, v));
    }
}

pub proof fn lemma_sum_lens_prefix(s: Seq<Extent>, i: int)
    requires
        0 <= i <= s.len(),
    ensures
        0 <= sum_lens(s.take(i)) <= sum_lens(s),
    decreases s.len(),
{
    lemma_sum_lens_nonneg(s.take(i));
    if i < s.len() {
        assert(s.drop_last().take(i) =~= s.take(i));
        lemma_sum_lens_prefix(s.drop_last(), i);
    } else {
        assert(s.take(i) =~= s);
    }
}

/// First-fit allocator over a region of `total_size` bytes.
pub struct SharedAllocator {
    total_size: usize,
    allocations: Vec<Extent>,
    free_blocks: Vec<Extent>,
}

/// Why an allocator operation was refused.
#[derive(Debug, Clone, Copy, PartialEq, Eq)]
pub enum AllocError {
    /// No free extent is large enough.
    OutOfMemory,
    /// A request for zero bytes.
    ZeroSize,
    /// No live allocation has that offset and length.
    InvalidDeallocation,
}

impl SharedAllocator {
    pub closed spec fn total(&self) -> nat {
        self.total_size as nat
    }

    /// The live allocations, in the order they were made.
    pub closed spec fn allocations(&self) -> Seq<Extent> {
        self.allocations@
    }

    /// The free extents, sorted by offset.
    pub closed spec fn free_blocks(&self) -> Seq<Extent> {
        self.free_blocks@
    }

    /// Allocations and free extents together partition `[0, total)`:
    /// pairwise disjoint, inside the region, and their lengths add up to it.
    pub closed spec fn wf(&self) -> bool {
        &&& extents_within(self.allocations@, self.total_size as int)
        &&& extents_within(self.free_blocks@, self.total_size as int)
        &&& sorted_coalesced(self.free_blocks@)
        &&& forall|i: int, j: int|
            0 <= i < self.allocations@.len() && 0 <= j < self.allocations@.len() && i != j
                ==> ext_disjoint(#[trigger] self.allocations@[i], #[trigger] self.allocations@[j])
        &&& forall|i: int, j: int|
            0 <= i < self.allocations@.len() && 0 <= j < self.free_blocks@.len()
                ==> ext_disjoint(#[trigger] self.allocations@[i], #[trigger] self.free_blocks@[j])
        &&& sum_lens(self.allocations@) + sum_lens(self.free_blocks@) == self.total_size as int
    }

    /// In every state of the allocator, the lengths of the live allocations
    /// and of the free extents add up to the capacity, and the free list is
    /// sorted by offset with no two adjacent extents left unmerged.
    pub proof fn law_free_list_accounting(&self)
        requires
            self.wf(),
        ensures
            extents_within(self.allocations(), self.total() as int),
            extents_within(self.free_blocks(), self.total() as int),
            sorted_coalesced(self.free_blocks()),
            sum_lens(self.allocations()) + sum_lens(self.free_blocks()) == self.total(),
            forall|i: int, j: int| 0 <= i < self.allocations().len() && 0 <= j < self.allocations().len() && i != j
                ==> ext_disjoint(#[trigger] self.allocations()[i], #[trigger] self.allocations()[j]),
            forall|i: int, j: int| 0 <= i < self.allocations().len() && 0 <= j < self.free_blocks().len()
                ==> ext_disjoint(#[trigger] self.allocations()[i], #[trigger] self.free_blocks()[j]),
    {
    }

    /// A fresh allocator: one free extent covering the whole region.
    pub fn new(total_size: usize) -> (r: Self)
        ensures
            r.wf(),
            r.total() == total_size,
            r.allocations() == Seq::<Extent>::empty(),
            total_size > 0 ==> r.free_blocks() == seq![(0usize, total_size)],
            total_size == 0 ==> r.free_blocks() == Seq::<Extent>::empty(),
    {
        let mut free_blocks: Vec<Extent> = Vec::new();
        if total_size > 0 {
            free_blocks.push((0, total_size));
        }
        let r = SharedAllocator { total_size, allocations: Vec::new(), free_blocks };
        proof {
            if total_size > 0 {
                assert(r.free_blocks@.drop_last() =~= Seq::<Extent>::empty());
            }
        }
        r
    }

    /// First fit: the first free extent, in offset order, that holds `size`
    /// bytes is split; the allocation takes its start and the remainder stays
    /// free in its place.
    pub fn allocate(&mut self, size: usize) -> (r: Result<usize, AllocError>)
        requires
            old(self).wf(),
        ensures
            final(self).wf(),
            final(self).total() == old(self).total(),
            size == 0 ==> r == Err::<usize, AllocError>(AllocError::ZeroSize),
            size > 0 && (forall|j: int| 0 <= j < old(self).free_blocks().len()
                ==> (#[trigger] old(self).free_blocks()[j]).1 < size)
                ==> r == Err::<usize, AllocError>(AllocError::OutOfMemory),
            size > 0 && (exists|j: int| 0 <= j < old(self).free_blocks().len()
                && (#[trigger] old(self).free_blocks()[j]).1 >= size) ==> r is Ok,
            r is Err ==> *final(self) == *old(self),
            r matches Ok(off) ==> size > 0 && exists|i: int| {
                &&& 0 <= i < old(self).free_blocks().len()
                &&& (#[trigger] old(self).free_blocks()[i]).0 == off
                &&& old(self).free_blocks()[i].1 >= size
                &&& (forall|j: int| 0 <= j < i ==> (#[trigger] old(self).free_blocks()[j]).1 < size)
                &&& final(self).free_blocks() == if old(self).free_blocks()[i].1 == size {
                    old(self).free_blocks().remove(i)
                } else {
                    old(self).free_blocks().update(
                        i,
                        ((off + size) as usize, (old(self).free_blocks()[i].1 - size) as usize),
                    )
                }
            },
            r matches Ok(off) ==> final(self).allocations() == old(self).allocations().push((off, size)),
    {
        if size == 0 {
            return Err(AllocError::ZeroSize);
        }
        let n = self.free_blocks.len();
        let mut i: usize = 0;
        while i < n
            invariant
                self.wf(),
                *self == *old(self),
                n == self.free_blocks@.len(),
                0 <= i <= n,
                size > 0,
                forall|j: int| 0 <= j < i ==> (#[trigger] self.free_blocks@[j]).1 < size,
            decreases n - i,
        {
            let (offset, block_size) = self.free_blocks[i];
            if block_size >= size {
                let ghost old_free = self.free_blocks@;
                let ghost old_alloc = self.allocations@;
                let new_ext: Extent = (offset, size);
                if block_size == size {
                    self.free_blocks.remove(i);
                    proof {
                        lemma_sum_lens_remove(old_free, i as int);
                        assert forall|a: int, b: int|
                            0 <= a < b < self.free_blocks@.len() implies
                            ext_end(#[trigger] self.free_blocks@[a]) < (#[trigger] self.free_blocks@[b]).0 by {
                            let a0 = if a < i { a } else { a + 1 };
                            let b0 = if b < i { b } else { b + 1 };
                            assert(old_free[a0] == self.free_blocks@[a]);
                            assert(old_free[b0] == self.free_blocks@[b]);
                        }
                        assert forall|k: int| 0 <= k < self.free_blocks@.len() implies
                            (#[trigger] self.free_blocks@[k]).1 > 0 && ext_end(self.free_blocks@[k]) <= self.total_size by {
                            let k0 = if k < i { k } else { k + 1 };
                            assert(old_free[k0] == self.free_blocks@[k]);
                        }
                    }
                } else {
                    self.free_blocks.set(i, (offset + size, block_size - size));
                    proof {
                        lemma_sum_lens_update(old_free, i as int, ((offset + size) as usize, (block_size - size) as usize));
                        assert forall|a: int, b: int|
                            0 <= a < b < self.free_blocks@.len() implies
                            ext_end(#[trigger] self.free_blocks@[a]) < (#[trigger] self.free_blocks@[b]).0 by {
                            assert(ext_end(old_free[a]) < old_free[b].0);
                        }
                    }
                }
                self.allocations.push(new_ext);
                proof {
                    assert(self.allocations@.drop_last() =~= old_alloc);
                    assert forall|a: int, b: int|
                        0 <= a < self.allocations@.len() && 0 <= b < self.allocations@.len() && a != b
                            implies ext_disjoint(#[trigger] self.allocations@[a], #[trigger] self.allocations@[b]) by {
                        if a < old_alloc.len() && b < old_alloc.len() {
                        } else if a < old_alloc.len() {
                            assert(ext_disjoint(old_alloc[a], old_free[i as int]));
                        } else {
                            assert(ext_disjoint(old_alloc[b], old_free[i as int]));
                        }
                    }
                    assert forall|a: int, b: int|
                        0 <= a < self.allocations@.len() && 0 <= b < self.free_blocks@.len()
                            implies ext_disjoint(#[trigger] self.allocations@[a], #[trigger] self.free_blocks@[b]) by {
                        let b0 = if block_size == size && b >= i { b + 1 } else { b };
                        if a < old_alloc.len() {
                            assert(ext_disjoint(old_alloc[a], old_free[b0]));
                            assert(ext_disjoint(old_alloc[a], old_free[i as int]));
                        } else if b0 != i {
                            if b0 < i {
                                assert(ext_end(old_free[b0]) < old_free[i as int].0);
                            } else {
                                assert(ext_end(old_free[i as int]) < old_free[b0].0);
                            }
                        }
                    }
                }
                assert(old_free[i as int].1 >= size);
                assert(old(self).free_blocks()[i as int].0 == offset);
                return Ok(offset);
            }
            i += 1;
        }
        Err(AllocError::OutOfMemory)
    }

    /// Merges every pair of offset-adjacent free extents. The free list must
    /// already be sorted and free of overlaps.
    fn coalesce_free_blocks(&mut self)
        requires
            extents_within(old(self).free_blocks@, old(self).total_size as int),
            extents_within(old(self).allocations@, old(self).total_size as int),
            sorted_nonoverlapping(old(self).free_blocks@),
            forall|i: int, j: int|
                0 <= i < old(self).allocations@.len() && 0 <= j < old(self).free_blocks@.len()
                    ==> ext_disjoint(#[trigger] old(self).allocations@[i], #[trigger] old(self).free_blocks@[j]),
        ensures
            final(self).total_size == old(self).total_size,
            final(self).allocations@ == old(self).allocations@,
            extents_within(final(self).free_blocks@, final(self).total_size as int),
            sorted_coalesced(final(self).free_blocks@),
            sum_lens(final(self).free_blocks@) == sum_lens(old(self).free_blocks@),
            forall|i: int, j: int|
                0 <= i < final(self).allocations@.len() && 0 <= j < final(self).free_blocks@.len()
                    ==> ext_disjoint(#[trigger] final(self).allocations@[i], #[trigger] final(self).free_blocks@[j]),
    {
        let blocks = &self.free_blocks;
        let n = blocks.len();
        let ghost allocs = self.allocations@;
        let mut out: Vec<Extent> = Vec::new();
        let mut i: usize = 0;
        while i < n
            invariant
                n == blocks@.len(),
                blocks@ == old(self).free_blocks@,
                allocs == self.allocations@,
                *self == *old(self),
                0 <= i <= n,
                extents_within(blocks@, self.total_size as int),
                extents_within(allocs, self.total_size as int),
                sorted_nonoverlapping(blocks@),
                forall|a: int, j: int| 0 <= a < allocs.len() && 0 <= j < blocks@.len()
                    ==> ext_disjoint(#[trigger] allocs[a], #[trigger] blocks@[j]),
                extents_within(out@, self.total_size as int),
                sorted_coalesced(out@),
                i == 0 <==> out@.len() == 0,
                i > 0 ==> ext_end(out@.last()) == ext_end(blocks@[i - 1]),
                sum_lens(out@) == sum_lens(blocks@.take(i as int)),
                forall|a: int, k: int| 0 <= a < allocs.len() && 0 <= k < out@.len()
                    ==> ext_disjoint(#[trigger] allocs[a], #[trigger] out@[k]),
            decreases n - i,
        {
            let b = blocks[i];
            let ghost prev_out = out@;
            assert(blocks@.take(i + 1).drop_last() =~= blocks@.take(i as int));
            if i > 0 {
                assert(ext_end(blocks@[i - 1]) <= b.0);
            }
            let last = out.len();
            if last > 0 && out[last - 1].0 + out[last - 1].1 == b.0 {
                let (o, l) = out[last - 1];
                out.set(last - 1, (o, l + b.1));
                proof {
                    lemma_sum_lens_update(prev_out, last - 1, (o, (l + b.1) as usize));
                    assert(sum_lens(prev_out.update(last - 1, (o, (l + b.1) as usize))) == sum_lens(blocks@.take(i + 1)));
                    assert forall|a: int, k: int| 0 <= a < allocs.len() && 0 <= k < out@.len()
                        implies ext_disjoint(#[trigger] allocs[a], #[trigger] out@[k]) by {
                        assert(ext_disjoint(allocs[a], prev_out[k]));
                        assert(ext_disjoint(allocs[a], blocks@[i as int]));
                    }
                    assert forall|x: int, y: int| 0 <= x < y < out@.len()
                        implies ext_end(#[trigger] out@[x]) < (#[trigger] out@[y]).0 by {
                        assert(ext_end(prev_out[x]) < prev_out[y].0);
                    }
                }
            } else {
                out.push(b);
                proof {
                    assert(out@.drop_last() =~= prev_out);
                    assert forall|a: int, k: int| 0 <= a < allocs.len() && 0 <= k < out@.len()
                        implies ext_disjoint(#[trigger] allocs[a], #[trigger] out@[k]) by {
                        if k < prev_out.len() {
                            assert(ext_disjoint(allocs[a], prev_out[k]));
                        } else {
                            assert(ext_disjoint(allocs[a], blocks@[i as int]));
                        }
                    }
                    assert forall|x: int, y: int| 0 <= x < y < out@.len()
                        implies ext_end(#[trigger] out@[x]) < (#[trigger] out@[y]).0 by {
                        if y == out@.len() - 1 && x < y {
                            assert(ext_end(prev_out[x]) <= ext_end(prev_out.last())) by {
                                if x < prev_out.len() - 1 {
                                    assert(ext_end(prev_out[x]) < prev_out.last().0);
                                }
                            }
                        } else {
                            assert(ext_end(prev_out[x]) < prev_out[y].0);
                        }
                    }
                }
            }
            i += 1;
        }
        assert(blocks@.take(n as int) =~= blocks@);
        self.free_blocks = out;
    }

    /// Returns the allocation `(offset, size)` to the free list and merges it
    /// with its offset-adjacent free neighbours.
    pub fn deallocate(&mut self, offset: usize, size: usize) -> (r: Result<(), AllocError>)
        requires
            old(self).wf(),
        ensures
            final(self).wf(),
            final(self).total() == old(self).total(),
            r is Ok <==> old(self).allocations().contains((offset, size)),
            r is Err ==> r == Err::<(), AllocError>(AllocError::InvalidDeallocation) && *final(self) == *old(self),
            r is Ok ==> exists|k: int| 0 <= k < old(self).allocations().len()
                && #[trigger] old(self).allocations()[k] == (offset, size)
                && final(self).allocations() == old(self).allocations().remove(k),
            r is Ok ==> sum_lens(final(self).free_blocks()) == sum_lens(old(self).free_blocks()) + size,
            r is Ok ==> !final(self).allocations().contains((offset, size)),
    {
        let n = self.allocations.len();
        let mut k: usize = 0;
        while k < n && self.allocations[k].0 != offset
            invariant
                self.wf(),
                *self == *old(self),
                n == self.allocations@.len(),
                0 <= k <= n,
                forall|j: int| 0 <= j < k ==> (#[trigger] self.allocations@[j]).0 != offset,
            decreases n - k,
        {
            k += 1;
        }
        if k == n || self.allocations[k].1 != size {
            proof {
                if old(self).allocations().contains((offset, size)) {
                    let j = choose|j: int| 0 <= j < self.allocations@.len() && self.allocations@[j] == (offset, size);
                    if k < n {
                        assert(ext_disjoint(self.allocations@[j], self.allocations@[k as int]));
                    }
                }
            }
            return Err(AllocError::InvalidDeallocation);
        }
        let ghost old_alloc = self.allocations@;
        let ghost old_free = self.free_blocks@;
        let ghost freed: Extent = (offset, size);
        assert(old_alloc[k as int] == freed);
        self.allocations.remove(k);
        proof {
            lemma_sum_lens_remove(old_alloc, k as int);
            assert forall|a: int, b: int|
                0 <= a < self.allocations@.len() && 0 <= b < self.allocations@.len() && a != b
                    implies ext_disjoint(#[trigger] self.allocations@[a], #[trigger] self.allocations@[b]) by {
                let a0 = if a < k { a } else { a + 1 };
                let b0 = if b < k { b } else { b + 1 };
                assert(old_alloc[a0] == self.allocations@[a]);
                assert(old_alloc[b0] == self.allocations@[b]);
            }
            assert forall|a: int| 0 <= a < self.allocations@.len() implies
                (#[trigger] self.allocations@[a]).1 > 0 && ext_end(self.allocations@[a]) <= self.total_size
                && ext_disjoint(self.allocations@[a], freed)
                && (forall|b: int| 0 <= b < old_free.len() ==> ext_disjoint(self.allocations@[a], #[trigger] old_free[b])) by {
                let a0 = if a < k { a } else { a + 1 };
                assert(old_alloc[a0] == self.allocations@[a]);
                assert(ext_disjoint(old_alloc[a0], old_alloc[k as int]));
                assert forall|b: int| 0 <= b < old_free.len() implies ext_disjoint(self.allocations@[a], #[trigger] old_free[b]) by {
                    assert(ext_disjoint(old_alloc[a0], old_free[b]));
                }
            }
        }
        let m = self.free_blocks.len();
        let mut p: usize = 0;
        while p < m && self.free_blocks[p].0 <= offset
            invariant
                self.free_blocks@ == old_free,
                m == old_free.len(),
                0 <= p <= m,
                forall|j: int| 0 <= j < p ==> (#[trigger] old_free[j]).0 <= offset,
            decreases m - p,
        {
            p += 1;
        }
        self.free_blocks.insert(p, (offset, size));
        proof {
            lemma_sum_lens_insert(old_free, p as int, freed);
            let nf = self.free_blocks@;
            assert forall|j: int| 0 <= j < old_free.len() implies
                (j < p ==> ext_end(#[trigger] old_free[j]) <= offset) && (j >= p ==> offset + size <= old_free[j].0) by {
                assert(ext_disjoint(old_alloc[k as int], old_free[j]));
                if j > p {
                    assert(ext_end(old_free[p as int]) < old_free[j].0);
                }
            }
            assert forall|a: int, b: int| 0 <= a < b < nf.len()
                implies ext_end(#[trigger] nf[a]) <= (#[trigger] nf[b]).0 by {
                if a < p && b < p {
                    assert(ext_end(old_free[a]) < old_free[b].0);
                } else if a < p && b > p {
                    assert(ext_end(old_free[a]) < old_free[b - 1].0);
                } else if a > p {
                    assert(ext_end(old_free[a - 1]) < old_free[b - 1].0);
                }
            }
            assert forall|j: int| 0 <= j < nf.len() implies
                (#[trigger] nf[j]).1 > 0 && ext_end(nf[j]) <= self.total_size by {
                if j < p {
                    assert(nf[j] == old_free[j]);
                } else if j > p {
                    assert(nf[j] == old_free[j - 1]);
                }
            }
            assert forall|a: int, b: int| 0 <= a < self.allocations@.len() && 0 <= b < nf.len()
                implies ext_disjoint(#[trigger] self.allocations@[a], #[trigger] nf[b]) by {
                if b < p {
                    assert(nf[b] == old_free[b]);
                } else if b > p {
                    assert(nf[b] == old_free[b - 1]);
                }
            }
        }
        self.coalesce_free_blocks();
        assert(old(self).allocations()[k as int] == (offset, size));
        proof {
            if self.allocations@.contains((offset, size)) {
                let w = choose|w: int| 0 <= w < self.allocations@.len() && self.allocations@[w] == (offset, size);
                let w0 = if w < k { w } else { w + 1 };
                assert(old_alloc[w0] == self.allocations@[w]);
                assert(ext_disjoint(old_alloc[w0], old_alloc[k as int]));
            }
        }
        Ok(())
    }

    /// The free extents, sorted by offset.
    pub fn free_extents(&self) -> (r: &Vec<Extent>)
        ensures
            r@ == self.free_blocks(),
    {
        &self.free_blocks
    }

    /// Total length of the live allocations.
    pub fn used(&self) -> (r: usize)
        requires
            self.wf(),
        ensures
            r == sum_lens(self.allocations()),
    {
        let n = self.allocations.len();
        let mut total: usize = 0;
        let mut i: usize = 0;
        while i < n
            invariant
                self.wf(),
                n == self.allocations@.len(),
                0 <= i <= n,
                total == sum_lens(self.allocations@.take(i as int)),
            decreases n - i,
        {
            proof {
                assert(self.allocations@.take(i + 1).drop_last() =~= self.allocations@.take(i as int));
                lemma_sum_lens_nonneg(self.free_blocks@);
                lemma_sum_lens_prefix(self.allocations@, i + 1);
            }
            total = total + self.allocations[i].1;
            i += 1;
        }
        assert(self.allocations@.take(n as int) =~= self.allocations@);
        total
    }

    /// Bytes not covered by a live allocation.
    pub fn free(&self) -> (r: usize)
        requires
            self.wf(),
        ensures
            r == self.total() - sum_lens(self.allocations()),
            r == sum_lens(self.free_blocks()),
    {
        let u = self.used();
        proof {
            lemma_sum_lens_nonneg(self.free_blocks@);
        }
        self.total_size - u
    }
}

/// Configuration of a shared region: its capacity and its name.
#[derive(Debug, Clone)]
pub struct ShmConfig {
    pub size: usize,
    pub name: String,
}

/// Default capacity of a region: 1 GiB.
pub const DEFAULT_ARENA_SIZE: usize = 1073741824;

/// Figures of an arena: `used_size + free_size == total_size` always.
#[derive(Debug, Clone, Copy, PartialEq, Eq)]
pub struct ShmStats {
    pub total_size: usize,
    pub used_size: usize,
    pub free_size: usize,
    pub object_count: usize,
}

/// Where an object lies in the region.
#[derive(Debug, Clone, Copy, PartialEq, Eq)]
pub struct SharedObject {
    pub id: ObjectId,
    pub offset: usize,
    pub size: usize,
    pub object_type: ObjectType,
}

/// Why an arena operation was refused.
#[derive(Debug, Clone, Copy, PartialEq, Eq)]
pub enum ArenaError {
    /// No free extent is large enough for the object's bytes.
    OutOfMemory,
    /// An object has no bytes.
    ZeroSize,
    /// An object with this id is already stored.
    AlreadyExists,
}

/// The extent that a table entry occupies.
pub open spec fn extent_of(o: SharedObject) -> Extent {
    (o.offset, o.size)
}

/// Metadata of a shared region: the allocator and the object table. The
/// bytes themselves live in the region, which the caller copies into and
/// out of at the offsets given here.
pub struct SharedArena {
    allocator: SharedAllocator,
    objects: Vec<SharedObject>,
}

impl SharedArena {
    pub closed spec fn allocator(&self) -> SharedAllocator {
        self.allocator
    }

    /// The object table, in the order of storing.
    pub closed spec fn objects(&self) -> Seq<SharedObject> {
        self.objects@
    }

    /// Whether an object with this id is stored.
    pub open spec fn has(&self, id: ObjectId) -> bool {
        exists|i: int| 0 <= i < self.objects().len() && (#[trigger] self.objects()[i]).id == id
    }

    /// The allocator is well formed, table ids are unique, and each table
    /// entry owns exactly one live allocation of its own length.
    pub closed spec fn wf(&self) -> bool {
        &&& self.allocator.wf()
        &&& self.allocator.allocations() == self.objects@.map_values(|o: SharedObject| extent_of(o))
        &&& forall|i: int, j: int| 0 <= i < j < self.objects@.len()
            ==> (#[trigger] self.objects@[i]).id != (#[trigger] self.objects@[j]).id
    }

    pub fn new(capacity: usize) -> (r: Self)
        ensures
            r.wf(),
            r.allocator().total() == capacity,
            r.objects().len() == 0,
    {
        let r = SharedArena { allocator: SharedAllocator::new(capacity), objects: Vec::new() };
        assert(r.objects@.map_values(|o: SharedObject| extent_of(o)) =~= Seq::<Extent>::empty());
        r
    }

    /// Reserves `len` bytes for object `id` (first fit) and records
    /// `{offset, len, kind}` under the id. Nothing changes on failure.
    pub fn store_object(&mut self, id: ObjectId, object_type: ObjectType, len: usize) -> (r: Result<usize, ArenaError>)
        requires
            old(self).wf(),
        ensures
            final(self).wf(),
            final(self).allocator().total() == old(self).allocator().total(),
            old(self).has(id) ==> r == Err::<usize, ArenaError>(ArenaError::AlreadyExists),
            !old(self).has(id) && len == 0 ==> r == Err::<usize, ArenaError>(ArenaError::ZeroSize),
            !old(self).has(id) && len > 0 && (forall|j: int| 0 <= j < old(self).allocator().free_blocks().len()
                ==> (#[trigger] old(self).allocator().free_blocks()[j]).1 < len)
                ==> r == Err::<usize, ArenaError>(ArenaError::OutOfMemory),
            !old(self).has(id) && len > 0 && (exists|j: int| 0 <= j < old(self).allocator().free_blocks().len()
                && (#[trigger] old(self).allocator().free_blocks()[j]).1 >= len) ==> r is Ok,
            r is Err ==> *final(self) == *old(self),
            r matches Ok(off) ==> final(self).objects() == old(self).objects().push(
                SharedObject { id, offset: off, size: len, object_type },
            ),
            r matches Ok(off) ==> final(self).allocator().allocations()
                == old(self).allocator().allocations().push((off, len)),
    {
        let n = self.objects.len();
        let mut i: usize = 0;
        while i < n
            invariant
                self.wf(),
                *self == *old(self),
                n == self.objects@.len(),
                0 <= i <= n,
                forall|j: int| 0 <= j < i ==> (#[trigger] self.objects@[j]).id != id,
            decreases n - i,
        {
            if self.objects[i].id == id {
                return Err(ArenaError::AlreadyExists);
            }
            i += 1;
        }
        assert(self.allocator == old(self).allocator());
        assert(self.allocator.free_blocks() == old(self).allocator().free_blocks());
        match self.allocator.allocate(len) {
            Ok(offset) => {
                let ghost old_objects = self.objects@;
                self.objects.push(SharedObject { id, offset, size: len, object_type });
                assert(self.objects@.map_values(|o: SharedObject| extent_of(o))
                    =~= old_objects.map_values(|o: SharedObject| extent_of(o)).push((offset, len)));
                Ok(offset)
            },
            Err(AllocError::ZeroSize) => Err(ArenaError::ZeroSize),
            Err(_) => Err(ArenaError::OutOfMemory),
        }
    }

    /// In every state of the arena, the allocator's live extents are exactly
    /// those of the stored objects, their lengths and those of the free
    /// extents add up to the capacity, and no two free extents are left
    /// adjacent.
    pub proof fn law_arena_accounting(&self)
        requires
            self.wf(),
        ensures
            self.allocator().wf(),
            self.allocator().allocations() == self.objects().map_values(|o: SharedObject| extent_of(o)),
            sum_lens(self.allocator().allocations()) + sum_lens(self.allocator().free_blocks()) == self.allocator().total(),
            sorted_coalesced(self.allocator().free_blocks()),
    {
        self.allocator.law_free_list_accounting();
    }

    /// The allocator of the region.
    pub fn allocator_ref(&self) -> (r: &SharedAllocator)
        ensures
            *r == self.allocator(),
    {
        &self.allocator
    }

    /// The recorded `(offset, len)` of object `id`.
    pub fn locate(&self, id: ObjectId) -> (r: Option<(usize, usize)>)
        requires
            self.wf(),
        ensures
            r is None <==> !self.has(id),
            r matches Some(e) ==> exists|i: int| 0 <= i < self.objects().len()
                && (#[trigger] self.objects()[i]).id == id && e == extent_of(self.objects()[i]),
    {
        let n = self.objects.len();
        let mut i: usize = 0;
        while i < n
            invariant
                self.wf(),
                n == self.objects@.len(),
                0 <= i <= n,
                forall|j: int| 0 <= j < i ==> (#[trigger] self.objects@[j]).id != id,
            decreases n - i,
        {
            if self.objects[i].id == id {
                assert(self.objects()[i as int].id == id);
                return Some((self.objects[i].offset, self.objects[i].size));
            }
            i += 1;
        }
        None
    }

    /// Frees the extent of object `id` and drops its entry; `Ok(false)` when
    /// no such object is stored.
    pub fn remove_object(&mut self, id: ObjectId) -> (r: Result<bool, AllocError>)
        requires
            old(self).wf(),
        ensures
            final(self).wf(),
            final(self).allocator().total() == old(self).allocator().total(),
            r == Ok::<bool, AllocError>(old(self).has(id)),
            !old(self).has(id) ==> *final(self) == *old(self),
            old(self).has(id) ==> !final(self).has(id),
            old(self).has(id) ==> exists|k: int| 0 <= k < old(self).objects().len()
                && (#[trigger] old(self).objects()[k]).id == id
                && final(self).objects() == old(self).objects().remove(k),
    {
        let n = self.objects.len();
        let mut i: usize = 0;
        while i < n
            invariant
                self.wf(),
                *self == *old(self),
                n == self.objects@.len(),
                0 <= i <= n,
                forall|j: int| 0 <= j < i ==> (#[trigger] self.objects@[j]).id != id,
            decreases n - i,
        {
            if self.objects[i].id == id {
                let ghost old_objects = self.objects@;
                let ghost old_allocs = self.allocator.allocations();
                let o = self.objects.remove(i);
                assert(old_allocs[i as int] == (o.offset, o.size));
                assert(old_allocs.contains((o.offset, o.size)));
                let res = self.allocator.deallocate(o.offset, o.size);
                proof {
                    let k = choose|k: int| 0 <= k < old_allocs.len()
                        && #[trigger] old_allocs[k] == (o.offset, o.size)
                        && self.allocator.allocations() == old_allocs.remove(k);
                    if k != i {
                        assert(ext_disjoint(old_allocs[k], old_allocs[i as int]));
                    }
                    assert(self.objects@.map_values(|o: SharedObject| extent_of(o))
                        =~= old_allocs.remove(i as int));
                    assert forall|a: int, b: int| 0 <= a < b < self.objects@.len()
                        implies (#[trigger] self.objects@[a]).id != (#[trigger] self.objects@[b]).id by {
                        let a0 = if a < i { a } else { a + 1 };
                        let b0 = if b < i { b } else { b + 1 };
                        assert(old_objects[a0] == self.objects@[a]);
                        assert(old_objects[b0] == self.objects@[b]);
                    }
                    assert forall|a: int| 0 <= a < self.objects@.len()
                        implies (#[trigger] self.objects@[a]).id != id by {
                        let a0 = if a < i { a } else { a + 1 };
                        assert(old_objects[a0] == self.objects@[a]);
                    }
                }
                return Ok(true);
            }
            i += 1;
        }
        Ok(false)
    }

    /// Totals of the arena.
    pub fn stats(&self) -> (r: ShmStats)
        requires
            self.wf(),
        ensures
            r.total_size == self.allocator().total(),
            r.used_size == sum_lens(self.allocator().allocations()),
            r.free_size == sum_lens(self.allocator().free_blocks()),
            r.used_size + r.free_size == r.total_size,
            r.object_count == self.objects().len(),
    {
        let used = self.allocator.used();
        let free = self.allocator.free();
        ShmStats {
            total_size: self.allocator.total_size,
            used_size: used,
            free_size: free,
            object_count: self.objects.len(),
        }
    }
}

} // verus!

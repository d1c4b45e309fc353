//! Physical memory: a contiguous pool of page frames with a frame allocator.
//!
//! Every frame is seen in two ways: as 512 page-table entries when it serves as a
//! page-table node, and as 4096 bytes when it backs user data. The kernel never
//! uses one frame both ways, so the two views are kept as separate arrays.
use vstd::prelude::*;

use crate::config::{PAGE_SIZE, PPN_LIMIT, PTES_PER_FRAME};
use crate::page_table::PageTableEntry;

verus! {

/// Splitting a flat index into a frame number and an offset is injective.
proof fn lemma_flat_index(a: int, b: int, c: int, d: int, w: int)
    requires
        w > 0,
        0 <= b < w,
        0 <= d < w,
        0 <= a,
        0 <= c,
    ensures
        (a * w + b == c * w + d) <==> (a == c && b == d),
{
    if a < c {
        assert(a * w + w <= c * w) by (nonlinear_arith)
            requires
                a < c,
                w > 0,
        ;
    } else if c < a {
        assert(c * w + w <= a * w) by (nonlinear_arith)
            requires
                c < a,
                w > 0,
        ;
    }
}

/// A flat index of an in-range frame and offset lies inside the array.
proof fn lemma_flat_bound(a: int, b: int, n: int, w: int)
    requires
        w > 0,
        0 <= b < w,
        0 <= a < n,
    ensures
        0 <= a * w + b < n * w,
{
    assert(a * w + b < n * w) by (nonlinear_arith)
        requires
            0 <= b < w,
            0 <= a < n,
    ;
    assert(0 <= a * w) by (nonlinear_arith)
        requires
            0 <= a,
            w > 0,
    ;
}

/// The physical frames `[base, base + nframes)` with their contents and allocator.
pub struct PhysMem {
    base: u64,
    nframes: usize,
    current: u64,
    recycled: Vec<u64>,
    ptes: Vec<PageTableEntry>,
    bytes: Vec<u8>,
}

impl PhysMem {
    /// Well-formedness: array sizes match the pool, and the allocator's state is sane.
    pub closed spec fn wf(&self) -> bool {
        &&& self.base + self.nframes <= PPN_LIMIT
        &&& self.nframes * PAGE_SIZE <= usize::MAX
        &&& self.nframes <= u64::MAX
        &&& self.ptes@.len() == self.nframes * PTES_PER_FRAME
        &&& self.bytes@.len() == self.nframes * PAGE_SIZE
        &&& self.base <= self.current <= self.base + self.nframes
        &&& self.recycled@.no_duplicates()
        &&& forall|k: int|
            0 <= k < self.recycled@.len() ==> self.base <= #[trigger] self.recycled@[k]
                < self.current
    }

    /// `p` names a frame of this pool.
    pub closed spec fn in_range(&self, p: int) -> bool {
        self.base <= p < self.base + self.nframes
    }

    /// `p` is handed out by the allocator and not yet returned.
    pub closed spec fn allocated(&self, p: int) -> bool {
        self.base <= p < self.current && !self.recycled@.contains(p as u64)
    }

    /// How many frames the allocator can still hand out.
    pub closed spec fn free_count(&self) -> int {
        self.recycled@.len() + (self.base + self.nframes - self.current)
    }

    /// The allocator has no frame left to give.
    pub open spec fn exhausted(&self) -> bool {
        self.free_count() == 0
    }

    /// Entry `i` of frame `p` read as a page-table node.
    pub closed spec fn entry(&self, p: int, i: int) -> PageTableEntry {
        self.ptes@[((p - self.base) as usize) * PTES_PER_FRAME + i]
    }

    /// Byte `i` of frame `p` read as data.
    pub closed spec fn byte(&self, p: int, i: int) -> u8 {
        self.bytes@[((p - self.base) as usize) * PAGE_SIZE + i]
    }

    /// `self` and `other` hold the same page-table entries in every frame but `p`.
    pub open spec fn same_entries_except(&self, other: &PhysMem, p: int) -> bool {
        forall|q: int, i: int|
            q != p && self.in_range(q) && 0 <= i < PTES_PER_FRAME ==> #[trigger] self.entry(q, i)
                == other.entry(q, i)
    }

    /// `self` and `other` hold the same bytes in every frame but `p`.
    pub open spec fn same_bytes_except(&self, other: &PhysMem, p: int) -> bool {
        forall|q: int, i: int|
            q != p && self.in_range(q) && 0 <= i < PAGE_SIZE ==> #[trigger] self.byte(q, i)
                == other.byte(q, i)
    }

    /// `self` and `other` hold the same page-table entries in every frame.
    pub open spec fn same_entries(&self, other: &PhysMem) -> bool {
        forall|q: int, i: int|
            self.in_range(q) && 0 <= i < PTES_PER_FRAME ==> #[trigger] self.entry(q, i) == other.entry(
                q,
                i,
            )
    }

    /// `self` and `other` hold the same bytes in every frame.
    pub open spec fn same_bytes(&self, other: &PhysMem) -> bool {
        forall|q: int, i: int|
            self.in_range(q) && 0 <= i < PAGE_SIZE ==> #[trigger] self.byte(q, i) == other.byte(q, i)
    }

    /// Same pool, same allocator state.
    pub closed spec fn same_pool(&self, other: &PhysMem) -> bool {
        &&& self.base == other.base
        &&& self.nframes == other.nframes
        &&& self.current == other.current
        &&& self.recycled == other.recycled
    }

    /// A pool of `nframes` zeroed frames starting at physical page `base`.
    pub fn new(base: u64, nframes: usize) -> (r: PhysMem)
        requires
            base + nframes <= PPN_LIMIT,
            nframes * PAGE_SIZE <= usize::MAX,
        ensures
            r.wf(),
            r.free_count() == nframes,
            forall|p: int| r.in_range(p) <==> base <= p < base + nframes,
            forall|p: int| !r.allocated(p),
            forall|p: int, i: int|
                r.in_range(p) && 0 <= i < PTES_PER_FRAME ==> (#[trigger] r.entry(p, i)).bits == 0,
            forall|p: int, i: int|
                r.in_range(p) && 0 <= i < PAGE_SIZE ==> #[trigger] r.byte(p, i) == 0,
    {
        let n_ptes: usize = nframes * PTES_PER_FRAME;
        let n_bytes: usize = nframes * PAGE_SIZE;
        let mut ptes: Vec<PageTableEntry> = Vec::new();
        let mut k: usize = 0;
        while k < n_ptes
            invariant
                k <= n_ptes,
                ptes@.len() == k,
                forall|j: int| 0 <= j < k ==> (#[trigger] ptes@[j]).bits == 0,
            decreases n_ptes - k,
        {
            ptes.push(PageTableEntry { bits: 0 });
            k = k + 1;
        }
        let mut bytes: Vec<u8> = Vec::new();
        let mut k: usize = 0;
        while k < n_bytes
            invariant
                k <= n_bytes,
                bytes@.len() == k,
                forall|j: int| 0 <= j < k ==> #[trigger] bytes@[j] == 0,
            decreases n_bytes - k,
        {
            bytes.push(0);
            k = k + 1;
        }
        let r = PhysMem { base, nframes, current: base, recycled: Vec::new(), ptes, bytes };
        assert forall|p: int, i: int| r.in_range(p) && 0 <= i < PTES_PER_FRAME implies (
        #[trigger] r.entry(p, i)).bits == 0 by {
            lemma_flat_bound(p - base, i, nframes as int, PTES_PER_FRAME as int);
        }
        assert forall|p: int, i: int| r.in_range(p) && 0 <= i < PAGE_SIZE implies #[trigger] r.byte(
            p,
            i,
        ) == 0 by {
            lemma_flat_bound(p - base, i, nframes as int, PAGE_SIZE as int);
        }
        r
    }

    pub proof fn lemma_in_range_bound(&self, p: int)
        requires
            self.wf(),
            self.in_range(p),
        ensures
            0 <= p < PPN_LIMIT,
    {
    }

    /// An allocated frame belongs to the pool.
    pub proof fn lemma_allocated_in_range(&self, p: int)
        requires
            self.wf(),
            self.allocated(p),
        ensures
            self.in_range(p),
    {
    }

    /// How many frames the allocator can still hand out, capped at `u64::MAX`.
    pub fn free_frames(&self) -> (r: u64)
        requires
            self.wf(),
        ensures
            r == if self.free_count() > u64::MAX {
                u64::MAX as int
            } else {
                self.free_count()
            },
    {
        let a = self.recycled.len() as u64;
        let b = self.base + self.nframes as u64 - self.current;
        if a > u64::MAX - b {
            u64::MAX
        } else {
            a + b
        }
    }

    /// Whether `p` names a frame of this pool.
    pub fn contains(&self, p: u64) -> (r: bool)
        requires
            self.wf(),
        ensures
            r == self.in_range(p as int),
    {
        self.base <= p && p - self.base < self.nframes as u64
    }

    /// Reads entry `i` of node frame `p`.
    pub fn read_pte(&self, p: u64, i: usize) -> (r: PageTableEntry)
        requires
            self.wf(),
            self.in_range(p as int),
            i < PTES_PER_FRAME,
        ensures
            r == self.entry(p as int, i as int),
    {
        proof {
            lemma_flat_bound(p - self.base, i as int, self.nframes as int, PTES_PER_FRAME as int);
        }
        self.ptes[((p - self.base) as usize) * PTES_PER_FRAME + i]
    }

    /// Writes entry `i` of node frame `p`; nothing else changes.
    pub fn write_pte(&mut self, p: u64, i: usize, e: PageTableEntry)
        requires
            old(self).wf(),
            old(self).in_range(p as int),
            i < PTES_PER_FRAME,
        ensures
            final(self).wf(),
            final(self).same_pool(old(self)),
            final(self).free_count() == old(self).free_count(),
            forall|q: int| final(self).in_range(q) == old(self).in_range(q),
            forall|q: int| final(self).allocated(q) == old(self).allocated(q),
            final(self).entry(p as int, i as int) == e,
            forall|j: int|
                0 <= j < PTES_PER_FRAME && j != i ==> #[trigger] final(self).entry(p as int, j)
                    == old(self).entry(p as int, j),
            final(self).same_entries_except(old(self), p as int),
            final(self).same_bytes(old(self)),
    {
        let ghost o = *self;
        proof {
            lemma_flat_bound(p - self.base, i as int, self.nframes as int, PTES_PER_FRAME as int);
        }
        let k = ((p - self.base) as usize) * PTES_PER_FRAME + i;
        self.ptes.set(k, e);
        assert forall|q: int, j: int|
            self.in_range(q) && 0 <= j < PTES_PER_FRAME && (q != p || j != i) implies #[trigger] self.entry(
            q,
            j,
        ) == o.entry(q, j) by {
            lemma_flat_bound(q - self.base, j, self.nframes as int, PTES_PER_FRAME as int);
            lemma_flat_index(q - self.base, j, p - self.base, i as int, PTES_PER_FRAME as int);
        }
    }

    /// Reads byte `i` of data frame `p`.
    pub fn read_byte(&self, p: u64, i: usize) -> (r: u8)
        requires
            self.wf(),
            self.in_range(p as int),
            i < PAGE_SIZE,
        ensures
            r == self.byte(p as int, i as int),
    {
        proof {
            lemma_flat_bound(p - self.base, i as int, self.nframes as int, PAGE_SIZE as int);
        }
        self.bytes[((p - self.base) as usize) * PAGE_SIZE + i]
    }

    /// Writes byte `i` of data frame `p`; nothing else changes.
    pub fn write_byte(&mut self, p: u64, i: usize, b: u8)
        requires
            old(self).wf(),
            old(self).in_range(p as int),
            i < PAGE_SIZE,
        ensures
            final(self).wf(),
            final(self).same_pool(old(self)),
            final(self).free_count() == old(self).free_count(),
            forall|q: int| final(self).in_range(q) == old(self).in_range(q),
            forall|q: int| final(self).allocated(q) == old(self).allocated(q),
            final(self).byte(p as int, i as int) == b,
            forall|j: int|
                0 <= j < PAGE_SIZE && j != i ==> #[trigger] final(self).byte(p as int, j)
                    == old(self).byte(p as int, j),
            final(self).same_bytes_except(old(self), p as int),
            final(self).same_entries(old(self)),
    {
        let ghost o = *self;
        proof {
            lemma_flat_bound(p - self.base, i as int, self.nframes as int, PAGE_SIZE as int);
        }
        let k = ((p - self.base) as usize) * PAGE_SIZE + i;
        self.bytes.set(k, b);
        assert forall|q: int, j: int|
            self.in_range(q) && 0 <= j < PAGE_SIZE && (q != p || j != i) implies #[trigger] self.byte(
            q,
            j,
        ) == o.byte(q, j) by {
            lemma_flat_bound(q - self.base, j, self.nframes as int, PAGE_SIZE as int);
            lemma_flat_index(q - self.base, j, p - self.base, i as int, PAGE_SIZE as int);
        }
    }

    /// Hands out a free frame, zeroed in both views, or `None` when none is left.
    pub fn frame_alloc(&mut self) -> (r: Option<u64>)
        requires
            old(self).wf(),
        ensures
            final(self).wf(),
            forall|q: int| final(self).in_range(q) == old(self).in_range(q),
            r.is_none() <==> old(self).exhausted(),
            r.is_none() ==> *final(self) == *old(self),
            r matches Some(p) ==> {
                &&& final(self).free_count() == old(self).free_count() - 1
                &&& old(self).in_range(p as int)
                &&& !old(self).allocated(p as int)
                &&& final(self).allocated(p as int)
                &&& forall|q: int| q != p ==> final(self).allocated(q) == old(self).allocated(q)
                &&& forall|i: int|
                    0 <= i < PTES_PER_FRAME ==> (#[trigger] final(self).entry(p as int, i)).bits
                        == 0
                &&& forall|i: int|
                    0 <= i < PAGE_SIZE ==> #[trigger] final(self).byte(p as int, i) == 0
                &&& final(self).same_entries_except(old(self), p as int)
                &&& final(self).same_bytes_except(old(self), p as int)
            },
    {
        let ghost o = *self;
        let p: u64;
        if self.recycled.len() > 0 {
            let q = self.recycled.pop().unwrap();
            proof {
                let rs = o.recycled@;
                assert(rs[rs.len() - 1] == q);
                assert(self.recycled@ == rs.drop_last());
                assert forall|a: int, b: int|
                    0 <= a < self.recycled@.len() && 0 <= b < self.recycled@.len() && a != b implies self.recycled@[a]
                    != self.recycled@[b] by {
                    assert(self.recycled@[a] == rs[a]);
                    assert(self.recycled@[b] == rs[b]);
                }
                assert(!self.recycled@.contains(q)) by {
                    if self.recycled@.contains(q) {
                        let k = choose|k: int| 0 <= k < self.recycled@.len() && self.recycled@[k] == q;
                        assert(rs[k] == rs[rs.len() - 1]);
                    }
                }
                assert forall|x: u64| x != q implies self.recycled@.contains(x) == rs.contains(x) by {
                    if rs.contains(x) {
                        let k = choose|k: int| 0 <= k < rs.len() && rs[k] == x;
                        assert(self.recycled@[k] == x);
                    }
                }
                assert(o.recycled@.contains(q));
            }
            p = q;
        } else if self.current - self.base < self.nframes as u64 {
            p = self.current;
            self.current = self.current + 1;
        } else {
            return None;
        }
        let ghost mid = *self;
        let mut i: usize = 0;
        while i < PTES_PER_FRAME
            invariant
                self.wf(),
                mid.wf(),
                self.same_pool(&mid),
                mid.in_range(p as int),
                i <= PTES_PER_FRAME,
                forall|j: int| 0 <= j < i ==> (#[trigger] self.entry(p as int, j)).bits == 0,
                self.same_entries_except(&o, p as int),
                self.same_bytes(&o),
                forall|q: int| self.in_range(q) == o.in_range(q),
                forall|q: int| self.allocated(q) == mid.allocated(q),
            decreases PTES_PER_FRAME - i,
        {
            self.write_pte(p, i, PageTableEntry { bits: 0 });
            i = i + 1;
        }
        let mut i: usize = 0;
        while i < PAGE_SIZE
            invariant
                self.wf(),
                mid.wf(),
                self.same_pool(&mid),
                mid.in_range(p as int),
                i <= PAGE_SIZE,
                forall|j: int| 0 <= j < PTES_PER_FRAME ==> (#[trigger] self.entry(p as int, j)).bits == 0,
                forall|j: int| 0 <= j < i ==> #[trigger] self.byte(p as int, j) == 0,
                self.same_entries_except(&o, p as int),
                self.same_bytes_except(&o, p as int),
                forall|q: int| self.in_range(q) == o.in_range(q),
                forall|q: int| self.allocated(q) == mid.allocated(q),
            decreases PAGE_SIZE - i,
        {
            self.write_byte(p, i, 0);
            i = i + 1;
        }
        Some(p)
    }

    /// Returns an allocated frame to the pool. Its contents stay until it is handed out again.
    pub fn frame_dealloc(&mut self, p: u64)
        requires
            old(self).wf(),
            old(self).allocated(p as int),
        ensures
            final(self).wf(),
            forall|q: int| final(self).in_range(q) == old(self).in_range(q),
            !final(self).allocated(p as int),
            forall|q: int| q != p ==> final(self).allocated(q) == old(self).allocated(q),
            final(self).free_count() == old(self).free_count() + 1,
            final(self).same_entries(old(self)),
            final(self).same_bytes(old(self)),
    {
        let ghost o = *self;
        self.recycled.push(p);
        proof {
            let rs = o.recycled@;
            assert(self.recycled@ == rs.push(p));
            assert(self.recycled@[rs.len() as int] == p);
            assert forall|x: u64| x != p implies self.recycled@.contains(x) == rs.contains(x) by {
                if rs.contains(x) {
                    let k = choose|k: int| 0 <= k < rs.len() && rs[k] == x;
                    assert(self.recycled@[k] == x);
                }
                if self.recycled@.contains(x) {
                    let k = choose|k: int| 0 <= k < self.recycled@.len() && self.recycled@[k] == x;
                    assert(rs[k] == x);
                }
            }
            assert forall|a: int, b: int|
                0 <= a < self.recycled@.len() && 0 <= b < self.recycled@.len() && a != b implies self.recycled@[a]
                != self.recycled@[b] by {
                if a < rs.len() && b < rs.len() {
                    assert(self.recycled@[a] == rs[a]);
                    assert(self.recycled@[b] == rs[b]);
                } else if a < rs.len() {
                    assert(rs.contains(rs[a]));
                } else if b < rs.len() {
                    assert(rs.contains(rs[b]));
                }
            }
        }
    }
}

} // verus!

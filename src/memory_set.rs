//! Address spaces: a page table plus the framed areas mapped in it.
use vstd::prelude::*;

use crate::config::{PAGE_SIZE, PPN_LIMIT, PTES_PER_FRAME, VA_LIMIT, VPN_LIMIT};
use crate::frame::PhysMem;
use crate::page_table::{lemma_entry_round_trip, lemma_lookup_frame, PTEFlags, PageTable, FLAG_U, FLAG_V};

verus! {

/// A half-open range of virtual pages with one permission set. Each page is
/// backed by a frame of its own, the one its leaf entry names.
#[derive(Clone, Copy, PartialEq, Eq, Structural)]
pub struct MapArea {
    pub start_vpn: u64,
    pub end_vpn: u64,
    pub perm: u8,
}

pub open spec fn in_area(a: MapArea, v: int) -> bool {
    a.start_vpn <= v < a.end_vpn
}

/// Some area of `areas` holds page `v`.
pub open spec fn covered(areas: Seq<MapArea>, v: int) -> bool {
    exists|i: int| 0 <= i < areas.len() && in_area(#[trigger] areas[i], v)
}

/// The permission bits that an mmap port asks for: bit 0 readable, bit 1
/// writable, bit 2 executable, always user-accessible.
pub open spec fn port_perm(port: int) -> u8 {
    ((port % 8) * 2 + FLAG_U) as u8
}

/// The page holding address `va`.
pub open spec fn floor_vpn(va: int) -> int {
    va / PAGE_SIZE as int
}

/// The first page at or above address `va`.
pub open spec fn ceil_vpn(va: int) -> int {
    (va + PAGE_SIZE - 1) / PAGE_SIZE as int
}

/// Area `a` shares a page with `[s, e)`.
pub open spec fn touches(a: MapArea, s: int, e: int) -> bool {
    a.start_vpn < e && s < a.end_vpn
}

/// Area `a` lies inside `[s, e)`.
pub open spec fn inside(a: MapArea, s: int, e: int) -> bool {
    s <= a.start_vpn && a.end_vpn <= e
}

/// The number of pages in a list of areas.
pub open spec fn areas_pages(a: Seq<MapArea>) -> int
    decreases a.len(),
{
    if a.len() == 0 {
        0
    } else {
        (a[0].end_vpn - a[0].start_vpn) + areas_pages(a.drop_first())
    }
}

/// Frames that copying an address space may need: a root node, and per page a
/// data frame and up to two interior nodes.
pub open spec fn fork_need(ms: &MemorySet) -> int {
    1 + 3 * areas_pages(ms.area_seq())
}

/// One address space.
pub struct MemorySet {
    page_table: PageTable,
    areas: Vec<MapArea>,
}

impl MemorySet {
    pub closed spec fn table(&self) -> PageTable {
        self.page_table
    }

    pub closed spec fn area_seq(&self) -> Seq<MapArea> {
        self.areas@
    }

    /// What page `v` is mapped to.
    pub open spec fn lookup(&self, mem: &PhysMem, v: int) -> Option<crate::page_table::PageTableEntry> {
        self.table().lookup(mem, v)
    }

    /// The frame backing mapped page `v`.
    pub open spec fn data_frame(&self, mem: &PhysMem, v: int) -> int {
        self.lookup(mem, v).unwrap().ppn_of()
    }

    /// Areas are nonempty, inside the address space and disjoint; the mapped pages
    /// are exactly the pages of the areas, with each area's permissions; each page
    /// has an allocated frame of its own that is no page-table node.
    pub closed spec fn wf(&self, mem: &PhysMem) -> bool {
        let a = self.areas@;
        &&& self.page_table.wf(mem)
        &&& forall|i: int| 0 <= i < a.len() ==> (#[trigger] a[i]).start_vpn < a[i].end_vpn <= VPN_LIMIT
        &&& forall|i: int, j: int, v: int|
            0 <= i < a.len() && 0 <= j < a.len() && i != j && #[trigger] in_area(a[i], v) ==> !#[trigger] in_area(
                a[j],
                v,
            )
        &&& forall|v: int|
            0 <= v < VPN_LIMIT ==> (#[trigger] self.page_table.lookup(mem, v).is_some() <==> covered(a, v))
        &&& forall|i: int, v: int|
            0 <= i < a.len() && #[trigger] in_area(a[i], v) ==> self.page_table.lookup(mem, v).unwrap().flags_of() == (a[i].perm | FLAG_V)
        &&& forall|v: int| 0 <= v < VPN_LIMIT && #[trigger] self.page_table.lookup(mem, v).is_some() ==> {
            let p = self.page_table.lookup(mem, v).unwrap().ppn_of();
            &&& mem.allocated(p)
            &&& mem.in_range(p)
            &&& !self.page_table.owns(p)
        }
        &&& forall|v: int, w: int|
            0 <= v < VPN_LIMIT && 0 <= w < VPN_LIMIT && v != w && (#[trigger] self.page_table.lookup(mem, v)).is_some() && (#[trigger] self.page_table.lookup(mem, w)).is_some()
                ==> self.page_table.lookup(mem, v).unwrap().ppn_of() != self.page_table.lookup(mem, w).unwrap().ppn_of()
    }

    /// An empty address space with a fresh root node; `None` when memory is exhausted.
    pub fn new_bare(mem: &mut PhysMem) -> (r: Option<MemorySet>)
        requires
            old(mem).wf(),
        ensures
            r.is_none() <==> old(mem).exhausted(),
            r.is_none() ==> *final(mem) == *old(mem),
            r matches Some(ms) ==> {
                &&& ms.wf(final(mem))
                &&& final(mem).free_count() == old(mem).free_count() - 1
                &&& forall|q: int| #[trigger] ms.table().owns(q) ==> !old(mem).allocated(q)
                &&& forall|q: int| #[trigger] old(mem).allocated(q) ==> final(mem).allocated(q)
                &&& forall|q: int| final(mem).in_range(q) == old(mem).in_range(q)
                &&& forall|q: int, j: int| old(mem).allocated(q) && 0 <= j < PTES_PER_FRAME ==> #[trigger] final(mem).entry(q, j) == old(mem).entry(q, j)
                &&& forall|q: int, j: int| old(mem).allocated(q) && 0 <= j < PAGE_SIZE ==> #[trigger] final(mem).byte(q, j) == old(mem).byte(q, j)
                &&& ms.area_seq().len() == 0
                &&& forall|v: int| ms.lookup(final(mem), v).is_none()
            },
    {
        match PageTable::new(mem) {
            None => None,
            Some(pt) => {
                let ms = MemorySet { page_table: pt, areas: Vec::new() };
                proof {
                    pt.lemma_wf_mem(mem);
                    assert forall|q: int| #[trigger] old(mem).allocated(q) implies mem.allocated(q) by {
                        assert(q != pt.root());
                    }
                    assert forall|q: int, j: int| old(mem).allocated(q) && 0 <= j < PTES_PER_FRAME implies #[trigger] mem.entry(q, j) == old(mem).entry(q, j) by {
                        old(mem).lemma_allocated_in_range(q);
                        assert(q != pt.root());
                    }
                    assert forall|q: int, j: int| old(mem).allocated(q) && 0 <= j < PAGE_SIZE implies #[trigger] mem.byte(q, j) == old(mem).byte(q, j) by {
                        old(mem).lemma_allocated_in_range(q);
                        assert(q != pt.root());
                    }
                    assert forall|v: int| 0 <= v < VPN_LIMIT implies (#[trigger] ms.page_table.lookup(mem, v).is_some() <==> covered(ms.areas@, v)) by {
                        assert(ms.page_table.lookup(mem, v).is_none());
                    }
                }
                Some(ms)
            },
        }
    }

    /// The token of this address space's page table.
    pub fn token(&self) -> (r: u64)
        ensures
            (r as int) % (PPN_LIMIT as int) == self.table().root() % (PPN_LIMIT as int),
    {
        self.page_table.token()
    }

    /// Whether any page of `[s, e)` is mapped.
    fn any_mapped(&self, mem: &PhysMem, s: u64, e: u64) -> (r: bool)
        requires
            self.wf(mem),
            s <= e <= VPN_LIMIT,
        ensures
            r == exists|v: int| s <= v < e && (#[trigger] self.lookup(mem, v)).is_some(),
    {
        proof {
            self.page_table.lemma_wf_mem(mem);
        }
        let mut v = s;
        while v < e
            invariant
                mem.wf(),
                self.wf(mem),
                s <= v <= e,
                e <= VPN_LIMIT,
                forall|w: int| s <= w < v ==> (#[trigger] self.lookup(mem, w)).is_none(),
            decreases e - v,
        {
            if self.page_table.translate(mem, v).is_some() {
                assert(self.lookup(mem, v as int).is_some());
                return true;
            }
            v = v + 1;
        }
        false
    }

    /// Maps the pages covering `[start_va, end_va)` to fresh frames with the
    /// permissions of `port`, as a new area. Returns 0 on success; -1, changing
    /// nothing, when a page of the range is already mapped or when memory could
    /// run short (fewer than three free frames per page).
    pub fn mmap(&mut self, mem: &mut PhysMem, start_va: u64, end_va: u64, port: u64) -> (r: isize)
        requires
            old(self).wf(old(mem)),
            start_va < end_va <= VA_LIMIT,
        ensures
            final(self).wf(final(mem)),
            r == 0 || r == -1,
            r == -1 ==> *final(self) == *old(self) && *final(mem) == *old(mem),
            old(mem).free_count() >= 3 * (ceil_vpn(end_va as int) - floor_vpn(start_va as int)) ==> (r == 0
                <==> forall|v: int|
                floor_vpn(start_va as int) <= v < ceil_vpn(end_va as int) ==> (#[trigger] old(self).lookup(old(mem), v)).is_none()),
            r == 0 ==> forall|v: int| floor_vpn(start_va as int) <= v < ceil_vpn(end_va as int) ==> (#[trigger] old(self).lookup(old(mem), v)).is_none(),
            r == 0 ==> final(self).area_seq() == old(self).area_seq().push(
                MapArea {
                    start_vpn: (floor_vpn(start_va as int)) as u64,
                    end_vpn: ceil_vpn(end_va as int) as u64,
                    perm: port_perm(port as int),
                },
            ),
            r == 0 ==> forall|v: int|
                floor_vpn(start_va as int) <= v < ceil_vpn(end_va as int) ==> (#[trigger] final(self).lookup(final(mem), v)) is Some
                    && final(self).lookup(final(mem), v).unwrap().flags_of() == (port_perm(port as int) | FLAG_V),
            r == 0 ==> forall|v: int|
                0 <= v < VPN_LIMIT && !(floor_vpn(start_va as int) <= v < ceil_vpn(end_va as int)) ==> #[trigger] final(self).lookup(final(mem), v)
                    == old(self).lookup(old(mem), v),
    {
        let s = start_va / 4096;
        let e = (end_va + 4095) / 4096;
        let perm = ((port % 8) * 2 + 16) as u8;
        self.map_area(mem, s, e, perm)
    }

    /// Maps pages `[s, e)` to fresh frames with `perm` as a new area; -1, changing
    /// nothing, when a page is mapped or fewer than three free frames per page remain.
    pub(crate) fn map_area(&mut self, mem: &mut PhysMem, s: u64, e: u64, perm: u8) -> (r: isize)
        requires
            old(self).wf(old(mem)),
            s < e <= VPN_LIMIT,
        ensures
            final(self).wf(final(mem)),
            r == 0 || r == -1,
            r == -1 ==> *final(self) == *old(self) && *final(mem) == *old(mem),
            old(mem).free_count() >= 3 * (e - s) ==> (r == 0 <==> forall|v: int| s <= v < e ==> (#[trigger] old(self).lookup(old(mem), v)).is_none()),
            r == 0 ==> forall|v: int| s <= v < e ==> (#[trigger] old(self).lookup(old(mem), v)).is_none(),
            r == 0 ==> final(self).area_seq() == old(self).area_seq().push(MapArea { start_vpn: s, end_vpn: e, perm }),
            r == 0 ==> forall|v: int| s <= v < e ==> (#[trigger] final(self).lookup(final(mem), v)) is Some
                && final(self).lookup(final(mem), v).unwrap().flags_of() == (perm | FLAG_V)
                && !old(mem).allocated(final(self).data_frame(final(mem), v)),
            r == 0 ==> forall|v: int| 0 <= v < VPN_LIMIT && !(s <= v < e) ==> #[trigger] final(self).lookup(final(mem), v) == old(self).lookup(old(mem), v),
            r == 0 ==> final(mem).free_count() >= old(mem).free_count() - 3 * (e - s),
            forall|q: int| final(mem).in_range(q) == old(mem).in_range(q),
            forall|q: int| #[trigger] old(mem).allocated(q) ==> final(mem).allocated(q),
            forall|q: int, j: int| old(mem).allocated(q) && !old(self).table().owns(q) && 0 <= j < PTES_PER_FRAME ==> #[trigger] final(mem).entry(q, j) == old(mem).entry(q, j),
            forall|q: int, j: int| old(mem).allocated(q) && 0 <= j < PAGE_SIZE ==> #[trigger] final(mem).byte(q, j) == old(mem).byte(q, j),
            forall|q: int| #[trigger] final(self).table().owns(q) ==> old(self).table().owns(q) || !old(mem).allocated(q),
    {
        let n = e - s;
        proof {
            self.page_table.lemma_wf_mem(mem);
        }
        if mem.free_frames() / 3 < n {
            return -1;
        }
        if self.any_mapped(mem, s, e) {
            return -1;
        }
        let ghost m0 = *mem;
        let ghost t0 = self.page_table;
        proof {
            assert forall|w: int| s <= w < e implies (#[trigger] t0.lookup(&m0, w)).is_none() by {
                assert(self.lookup(mem, w) == t0.lookup(&m0, w));
            }
        }
        let mut v = s;
        while v < e
            invariant
                mem.wf(),
                self.areas == old(self).areas,
                old(self).wf(&m0),
                t0 == old(self).page_table,
                s <= v <= e,
                e <= VPN_LIMIT,
                mem.free_count() >= 3 * (e - v),
                mem.free_count() >= m0.free_count() - 3 * (v - s),
                forall|q: int| mem.in_range(q) == m0.in_range(q),
                forall|q: int| #[trigger] m0.allocated(q) ==> mem.allocated(q),
                forall|q: int, j: int| m0.allocated(q) && !t0.owns(q) && 0 <= j < PTES_PER_FRAME ==> #[trigger] mem.entry(q, j) == m0.entry(q, j),
                forall|q: int, j: int| m0.allocated(q) && 0 <= j < PAGE_SIZE ==> #[trigger] mem.byte(q, j) == m0.byte(q, j),
                forall|q: int| #[trigger] self.page_table.owns(q) ==> t0.owns(q) || !m0.allocated(q),
                forall|w: int| s <= w < v ==> !m0.allocated(#[trigger] self.page_table.lookup(mem, w).unwrap().ppn_of()),
                self.page_table.wf(mem),
                forall|w: int| s <= w < e ==> (#[trigger] t0.lookup(&m0, w)).is_none(),
                forall|w: int| s <= w < v ==> (#[trigger] self.page_table.lookup(mem, w)) is Some
                    && self.page_table.lookup(mem, w).unwrap().flags_of() == (perm | FLAG_V),
                forall|w: int| 0 <= w < VPN_LIMIT && !(s <= w < v) ==> #[trigger] self.page_table.lookup(mem, w) == t0.lookup(&m0, w),
                forall|w: int| 0 <= w < VPN_LIMIT && #[trigger] self.page_table.lookup(mem, w).is_some() ==> {
                    let p = self.page_table.lookup(mem, w).unwrap().ppn_of();
                    &&& mem.allocated(p)
                    &&& mem.in_range(p)
                    &&& !self.page_table.owns(p)
                },
                forall|w: int, x: int|
                    0 <= w < VPN_LIMIT && 0 <= x < VPN_LIMIT && w != x && (#[trigger] self.page_table.lookup(mem, w)).is_some() && (#[trigger] self.page_table.lookup(mem, x)).is_some()
                        ==> self.page_table.lookup(mem, w).unwrap().ppn_of() != self.page_table.lookup(mem, x).unwrap().ppn_of(),
            decreases e - v,
        {
            let ghost m1 = *mem;
            let ghost t1 = self.page_table;
            proof {
                self.page_table.lemma_wf_mem(mem);
            }
            let f = mem.frame_alloc().unwrap();
            proof {
                lemma_lookup_frame(&self.page_table, &m1, mem);
                mem.lemma_in_range_bound(f as int);
            }
            let ghost m2 = *mem;
            let ok = self.page_table.map(mem, v, f, PTEFlags { bits: perm });
            proof {
                assert(!m0.allocated(f as int));
                assert forall|q: int| #[trigger] m0.allocated(q) implies mem.allocated(q) by {
                    assert(m1.allocated(q));
                    assert(q != f as int);
                    assert(m2.allocated(q));
                }
                assert forall|q: int, j: int| m0.allocated(q) && !t0.owns(q) && 0 <= j < PTES_PER_FRAME implies #[trigger] mem.entry(q, j) == m0.entry(q, j) by {
                    assert(m1.allocated(q));
                    t1.lemma_wf_mem(&m1);
                    m1.lemma_allocated_in_range(q);
                    assert(q != f as int);
                    assert(!t1.owns(q));
                    assert(m2.allocated(q));
                    assert(!self.page_table.owns(q));
                    assert(m1.entry(q, j) == m0.entry(q, j));
                    assert(m2.entry(q, j) == m1.entry(q, j));
                }
                assert forall|q: int, j: int| m0.allocated(q) && 0 <= j < PAGE_SIZE implies #[trigger] mem.byte(q, j) == m0.byte(q, j) by {
                    assert(m1.allocated(q));
                    m1.lemma_allocated_in_range(q);
                    assert(q != f as int);
                    assert(m2.allocated(q));
                    assert(m1.byte(q, j) == m0.byte(q, j));
                    assert(m2.byte(q, j) == m1.byte(q, j));
                }
                assert forall|q: int| #[trigger] self.page_table.owns(q) implies t0.owns(q) || !m0.allocated(q) by {
                    if !t1.owns(q) {
                        assert(!m2.allocated(q));
                        assert(!m1.allocated(q));
                    }
                }
                lemma_entry_round_trip(f as int, perm | FLAG_V);
                let t = self.page_table;
                assert(t.lookup(mem, v as int) == Some(crate::page_table::PageTableEntry::spec_new(f as int, perm | FLAG_V)));
                assert forall|w: int| 0 <= w < VPN_LIMIT && #[trigger] t.lookup(mem, w).is_some() implies {
                    let p = t.lookup(mem, w).unwrap().ppn_of();
                    &&& mem.allocated(p)
                    &&& mem.in_range(p)
                    &&& !t.owns(p)
                } by {
                    if w != v as int {
                        assert(t.lookup(mem, w) == t1.lookup(&m1, w));
                        let p = t.lookup(mem, w).unwrap().ppn_of();
                        assert(m1.allocated(p));
                        assert(m2.allocated(p));
                    }
                }
                assert forall|w: int, x: int|
                    0 <= w < VPN_LIMIT && 0 <= x < VPN_LIMIT && w != x && (#[trigger] t.lookup(mem, w)).is_some() && (#[trigger] t.lookup(mem, x)).is_some()
                        implies t.lookup(mem, w).unwrap().ppn_of() != t.lookup(mem, x).unwrap().ppn_of() by {
                    if w != v as int {
                        assert(t.lookup(mem, w) == t1.lookup(&m1, w));
                        assert(m1.allocated(t.lookup(mem, w).unwrap().ppn_of()));
                    }
                    if x != v as int {
                        assert(t.lookup(mem, x) == t1.lookup(&m1, x));
                        assert(m1.allocated(t.lookup(mem, x).unwrap().ppn_of()));
                    }
                }
                t.lemma_wf_mem(mem);
            }
            proof {
                assert forall|w: int| s <= w < v + 1 implies !m0.allocated(#[trigger] self.page_table.lookup(mem, w).unwrap().ppn_of()) by {
                    if w < v {
                        assert(self.page_table.lookup(mem, w) == t1.lookup(&m1, w));
                    }
                }
            }
            v = v + 1;
        }
        let ghost a0 = self.areas@;
        let na = MapArea { start_vpn: s, end_vpn: e, perm };
        self.areas.push(na);
        proof {
            let a = self.areas@;
            let t = self.page_table;
            assert(a == a0.push(na));
            assert forall|i: int| 0 <= i < a.len() implies (#[trigger] a[i]).start_vpn < a[i].end_vpn <= VPN_LIMIT by {
                if i < a0.len() {
                    assert(a[i] == a0[i]);
                }
            }
            assert forall|i: int, j: int, w: int|
                0 <= i < a.len() && 0 <= j < a.len() && i != j && #[trigger] in_area(a[i], w) implies !#[trigger] in_area(a[j], w) by {
                if i < a0.len() && j < a0.len() {
                    assert(a[i] == a0[i]);
                    assert(a[j] == a0[j]);
                } else if i < a0.len() {
                    assert(a[i] == a0[i]);
                    assert(covered(a0, w));
                    assert(t0.lookup(&m0, w).is_some());
                } else {
                    assert(a[j] == a0[j]);
                    if in_area(a[j], w) {
                        assert(covered(a0, w));
                        assert(t0.lookup(&m0, w).is_some());
                    }
                }
            }
            assert forall|w: int| 0 <= w < VPN_LIMIT implies (#[trigger] t.lookup(mem, w).is_some() <==> covered(a, w)) by {
                if s <= w < e {
                    assert(in_area(a[a0.len() as int], w));
                } else {
                    assert(t.lookup(mem, w) == t0.lookup(&m0, w));
                    if covered(a, w) {
                        let i = choose|i: int| 0 <= i < a.len() && in_area(#[trigger] a[i], w);
                        assert(a[i] == a0[i]);
                    }
                    if covered(a0, w) {
                        let i = choose|i: int| 0 <= i < a0.len() && in_area(#[trigger] a0[i], w);
                        assert(a[i] == a0[i]);
                    }
                }
            }
            assert forall|i: int, w: int| 0 <= i < a.len() && #[trigger] in_area(a[i], w) implies t.lookup(mem, w).unwrap().flags_of() == (a[i].perm | FLAG_V) by {
                if i < a0.len() {
                    assert(a[i] == a0[i]);
                    assert(a0[i].end_vpn <= VPN_LIMIT);
                    assert(covered(a0, w));
                    assert(t0.lookup(&m0, w).is_some());
                    assert(!(s <= w < e));
                    assert(t.lookup(mem, w) == t0.lookup(&m0, w));
                }
            }
        }
        0
    }

    /// Unmaps the pages covering `[start_va, end_va)` and frees their frames.
    /// Returns 0 when every page of the range is mapped and the range is exactly a
    /// union of areas (each area it touches lies inside it); otherwise -1, changing nothing.
    pub fn munmap(&mut self, mem: &mut PhysMem, start_va: u64, end_va: u64) -> (r: isize)
        requires
            old(self).wf(old(mem)),
            start_va < end_va <= VA_LIMIT,
        ensures
            final(self).wf(final(mem)),
            r == 0 || r == -1,
            r == -1 ==> *final(self) == *old(self) && *final(mem) == *old(mem),
            r == 0 <==> {
                &&& forall|v: int| floor_vpn(start_va as int) <= v < ceil_vpn(end_va as int) ==> (#[trigger] old(self).lookup(old(mem), v)).is_some()
                &&& forall|i: int| 0 <= i < old(self).area_seq().len() && #[trigger] touches(old(self).area_seq()[i], floor_vpn(start_va as int), ceil_vpn(end_va as int))
                    ==> inside(old(self).area_seq()[i], floor_vpn(start_va as int), ceil_vpn(end_va as int))
            },
            r == 0 ==> forall|v: int|
                floor_vpn(start_va as int) <= v < ceil_vpn(end_va as int) ==> (#[trigger] final(self).lookup(final(mem), v)).is_none(),
            r == 0 ==> forall|v: int|
                0 <= v < VPN_LIMIT && !(floor_vpn(start_va as int) <= v < ceil_vpn(end_va as int)) ==> #[trigger] final(self).lookup(final(mem), v)
                    == old(self).lookup(old(mem), v),
            r == 0 ==> forall|v: int|
                floor_vpn(start_va as int) <= v < ceil_vpn(end_va as int) ==> !final(mem).allocated(#[trigger] old(self).data_frame(old(mem), v)),
            r == 0 ==> forall|q: int| #[trigger] final(mem).allocated(q) ==> old(mem).allocated(q),
            r == 0 ==> final(mem).free_count() == old(mem).free_count() + (ceil_vpn(end_va as int) - floor_vpn(start_va as int)),
            r == 0 ==> forall|v: int| #[trigger] covered(final(self).area_seq(), v) <==> covered(old(self).area_seq(), v)
                && !(floor_vpn(start_va as int) <= v < ceil_vpn(end_va as int)),
    {
        let s = start_va / 4096;
        let e = (end_va + 4095) / 4096;
        proof {
            self.page_table.lemma_wf_mem(mem);
        }
        let mut v = s;
        while v < e
            invariant
                mem.wf(),
                self.wf(mem),
                *self == *old(self),
                *mem == *old(mem),
                s == floor_vpn(start_va as int),
                e == ceil_vpn(end_va as int),
                s <= v <= e,
                e <= VPN_LIMIT,
                forall|w: int| s <= w < v ==> (#[trigger] self.lookup(mem, w)).is_some(),
            decreases e - v,
        {
            if self.page_table.translate(mem, v).is_none() {
                assert(old(self).lookup(old(mem), v as int).is_none());
                assert(floor_vpn(start_va as int) <= v < ceil_vpn(end_va as int));
                return -1;
            }
            v = v + 1;
        }
        let mut i: usize = 0;
        while i < self.areas.len()
            invariant
                self.wf(mem),
                *self == *old(self),
                *mem == *old(mem),
                s == floor_vpn(start_va as int),
                e == ceil_vpn(end_va as int),
                i <= self.areas@.len(),
                forall|j: int| 0 <= j < i && #[trigger] touches(self.areas@[j], s as int, e as int) ==> inside(self.areas@[j], s as int, e as int),
            decreases self.areas@.len() - i,
        {
            let a = self.areas[i];
            if a.start_vpn < e && s < a.end_vpn && !(s <= a.start_vpn && a.end_vpn <= e) {
                assert(touches(old(self).area_seq()[i as int], floor_vpn(start_va as int), ceil_vpn(end_va as int)));
                assert(!inside(old(self).area_seq()[i as int], floor_vpn(start_va as int), ceil_vpn(end_va as int)));
                return -1;
            }
            i = i + 1;
        }
        let ghost m0 = *mem;
        let ghost t0 = self.page_table;
        let ghost a0 = self.areas@;
        proof {
            assert forall|w: int| s <= w < e implies (#[trigger] t0.lookup(&m0, w)).is_some() by {
                assert(self.lookup(mem, w) == t0.lookup(&m0, w));
            }
        }
        let mut v = s;
        while v < e
            invariant
                mem.wf(),
                self.areas@ == a0,
                old(self).wf(&m0),
                t0 == old(self).page_table,
                a0 == old(self).areas@,
                s <= v <= e,
                e <= VPN_LIMIT,
                self.page_table.wf(mem),
                forall|w: int| s <= w < e ==> (#[trigger] t0.lookup(&m0, w)).is_some(),
                forall|w: int| s <= w < v ==> (#[trigger] self.page_table.lookup(mem, w)).is_none(),
                forall|w: int| s <= w < v ==> !mem.allocated(#[trigger] t0.lookup(&m0, w).unwrap().ppn_of()),
                forall|q: int| #[trigger] mem.allocated(q) ==> m0.allocated(q),
                mem.free_count() == m0.free_count() + (v - s),
                forall|w: int| 0 <= w < VPN_LIMIT && !(s <= w < v) ==> #[trigger] self.page_table.lookup(mem, w) == t0.lookup(&m0, w),
                forall|w: int| 0 <= w < VPN_LIMIT && #[trigger] self.page_table.lookup(mem, w).is_some() ==> {
                    let p = self.page_table.lookup(mem, w).unwrap().ppn_of();
                    &&& mem.allocated(p)
                    &&& mem.in_range(p)
                    &&& !self.page_table.owns(p)
                },
                forall|w: int, x: int|
                    0 <= w < VPN_LIMIT && 0 <= x < VPN_LIMIT && w != x && (#[trigger] self.page_table.lookup(mem, w)).is_some() && (#[trigger] self.page_table.lookup(mem, x)).is_some()
                        ==> self.page_table.lookup(mem, w).unwrap().ppn_of() != self.page_table.lookup(mem, x).unwrap().ppn_of(),
            decreases e - v,
        {
            let ghost m1 = *mem;
            let ghost t1 = self.page_table;
            assert(self.page_table.lookup(mem, v as int) == t0.lookup(&m0, v as int));
            let p = self.page_table.translate(mem, v).unwrap().ppn();
            self.page_table.unmap(mem, v);
            let ghost m2 = *mem;
            proof {
                self.page_table.lemma_wf_mem(mem);
                assert(mem.allocated(p as int));
            }
            mem.frame_dealloc(p);
            proof {
                assert forall|w: int| s <= w < v + 1 implies !mem.allocated(#[trigger] t0.lookup(&m0, w).unwrap().ppn_of()) by {
                    if w < v {
                        assert(!m2.allocated(t0.lookup(&m0, w).unwrap().ppn_of()));
                    }
                }
                let t = self.page_table;
                assert forall|q: int| #[trigger] t.owns(q) implies mem.allocated(q) by {
                    assert(t1.owns(q));
                    t1.lemma_wf_mem(&m1);
                }
                lemma_lookup_frame(&t, &m2, mem);
                assert forall|w: int| 0 <= w < VPN_LIMIT && #[trigger] t.lookup(mem, w).is_some() implies {
                    let q = t.lookup(mem, w).unwrap().ppn_of();
                    &&& mem.allocated(q)
                    &&& mem.in_range(q)
                    &&& !t.owns(q)
                } by {
                    assert(t.lookup(mem, w) == t1.lookup(&m1, w));
                    assert(w != v as int);
                    assert(t1.lookup(&m1, v as int).is_some());
                }
                t.lemma_wf_mem(mem);
            }
            v = v + 1;
        }
        let mut kept: Vec<MapArea> = Vec::new();
        let ghost from: Seq<int> = Seq::empty();
        let mut i: usize = 0;
        while i < self.areas.len()
            invariant
                self.areas@ == a0,
                i <= a0.len(),
                kept@.len() == from.len(),
                forall|k: int| 0 <= k < from.len() ==> 0 <= #[trigger] from[k] < i && kept@[k] == a0[from[k]] && !inside(a0[from[k]], s as int, e as int),
                forall|k: int, l: int| 0 <= k < l < from.len() ==> #[trigger] from[k] < #[trigger] from[l],
                forall|j: int| 0 <= j < i && !inside(#[trigger] a0[j], s as int, e as int) ==> exists|k: int| 0 <= k < from.len() && from[k] == j,
            decreases a0.len() - i,
        {
            let a = self.areas[i];
            if !(s <= a.start_vpn && a.end_vpn <= e) {
                kept.push(a);
                proof {
                    let old_from = from;
                    from = from.push(i as int);
                    assert forall|j: int| 0 <= j < i + 1 && !inside(#[trigger] a0[j], s as int, e as int) implies exists|k: int| 0 <= k < from.len() && from[k] == j by {
                        if j < i {
                            let k = choose|k: int| 0 <= k < old_from.len() && old_from[k] == j;
                            assert(from[k] == j);
                        } else {
                            assert(from[old_from.len() as int] == j);
                        }
                    }
                }
            }
            i = i + 1;
        }
        self.areas = kept;
        proof {
            let a = self.areas@;
            let t = self.page_table;
            assert forall|k: int| 0 <= k < a.len() implies (#[trigger] a[k]).start_vpn < a[k].end_vpn <= VPN_LIMIT by {
                assert(a[k] == a0[from[k]]);
            }
            assert forall|k: int, l: int, w: int|
                0 <= k < a.len() && 0 <= l < a.len() && k != l && #[trigger] in_area(a[k], w) implies !#[trigger] in_area(a[l], w) by {
                assert(a[k] == a0[from[k]]);
                assert(a[l] == a0[from[l]]);
                if k < l {
                    assert(from[k] < from[l]);
                } else {
                    assert(from[l] < from[k]);
                }
            }
            assert forall|w: int| #[trigger] covered(a, w) <==> covered(a0, w) && !(s <= w < e) by {
                if covered(a, w) {
                    let k = choose|k: int| 0 <= k < a.len() && in_area(#[trigger] a[k], w);
                    assert(a[k] == a0[from[k]]);
                    let j = from[k];
                    assert(in_area(a0[j], w));
                    if s <= w < e {
                        assert(touches(a0[j], s as int, e as int));
                    }
                }
                if covered(a0, w) && !(s <= w < e) {
                    let j = choose|j: int| 0 <= j < a0.len() && in_area(#[trigger] a0[j], w);
                    assert(!inside(a0[j], s as int, e as int));
                    let k = choose|k: int| 0 <= k < from.len() && from[k] == j;
                    assert(a[k] == a0[j]);
                }
            }
            assert forall|w: int| 0 <= w < VPN_LIMIT implies (#[trigger] t.lookup(mem, w).is_some() <==> covered(a, w)) by {
                assert(covered(a, w) <==> covered(a0, w) && !(s <= w < e));
                if !(s <= w < e) {
                    assert(t.lookup(mem, w) == t0.lookup(&m0, w));
                }
            }
            assert forall|k: int, w: int| 0 <= k < a.len() && #[trigger] in_area(a[k], w) implies t.lookup(mem, w).unwrap().flags_of() == (a[k].perm | FLAG_V) by {
                assert(a[k] == a0[from[k]]);
                let j = from[k];
                assert(in_area(a0[j], w));
                assert(a0[j].end_vpn <= VPN_LIMIT);
                if s <= w < e {
                    assert(touches(a0[j], s as int, e as int));
                }
                assert(t.lookup(mem, w) == t0.lookup(&m0, w));
            }
        }
        0
    }

    /// In a well-formed address space a page is mapped exactly when some area holds it.
    pub proof fn lemma_mapped_iff_in_area(&self, mem: &PhysMem, v: int)
        requires
            self.wf(mem),
            0 <= v < VPN_LIMIT,
        ensures
            self.lookup(mem, v).is_some() <==> covered(self.area_seq(), v),
    {
    }

    /// Each mapped page of an area carries the area's permissions and the valid bit.
    pub proof fn lemma_area_flags(&self, mem: &PhysMem, i: int, v: int)
        requires
            self.wf(mem),
            0 <= i < self.area_seq().len(),
            in_area(self.area_seq()[i], v),
        ensures
            self.lookup(mem, v).is_some(),
            self.lookup(mem, v).unwrap().flags_of() == (self.area_seq()[i].perm | FLAG_V),
    {
        assert(self.area_seq()[i].end_vpn <= VPN_LIMIT);
        assert(covered(self.areas@, v));
    }

    /// An address space stays well formed, with the same translations, in a memory
    /// that keeps its allocated frames and the entries of its nodes.
    pub proof fn lemma_wf_frame(&self, m1: &PhysMem, m2: &PhysMem)
        requires
            self.wf(m1),
            m2.wf(),
            forall|q: int| m2.in_range(q) == m1.in_range(q),
            forall|q: int| #[trigger] m1.allocated(q) ==> m2.allocated(q),
            forall|q: int, j: int| self.table().owns(q) && 0 <= j < PTES_PER_FRAME ==> #[trigger] m2.entry(q, j) == m1.entry(q, j),
        ensures
            self.wf(m2),
            forall|v: int| #[trigger] self.lookup(m2, v) == self.lookup(m1, v),
    {
        let t = self.page_table;
        t.lemma_wf_mem(m1);
        assert forall|q: int| #[trigger] t.owns(q) implies m2.allocated(q) by {
            assert(m1.allocated(q));
        }
        lemma_lookup_frame(&t, m1, m2);
        assert forall|v: int| 0 <= v < VPN_LIMIT && #[trigger] t.lookup(m2, v).is_some() implies {
            let p = t.lookup(m2, v).unwrap().ppn_of();
            &&& m2.allocated(p)
            &&& m2.in_range(p)
            &&& !t.owns(p)
        } by {
            assert(t.lookup(m2, v) == t.lookup(m1, v));
        }
        assert forall|v: int| 0 <= v < VPN_LIMIT implies (#[trigger] t.lookup(m2, v).is_some() <==> covered(self.areas@, v)) by {
            assert(t.lookup(m2, v) == t.lookup(m1, v));
        }
        assert forall|i: int, v: int| 0 <= i < self.areas@.len() && #[trigger] in_area(self.areas@[i], v) implies t.lookup(m2, v).unwrap().flags_of() == (self.areas@[i].perm | FLAG_V) by {
            assert(t.lookup(m2, v) == t.lookup(m1, v));
        }
        assert forall|v: int, w: int|
            0 <= v < VPN_LIMIT && 0 <= w < VPN_LIMIT && v != w && (#[trigger] t.lookup(m2, v)).is_some() && (#[trigger] t.lookup(m2, w)).is_some()
                implies t.lookup(m2, v).unwrap().ppn_of() != t.lookup(m2, w).unwrap().ppn_of() by {
            assert(t.lookup(m2, v) == t.lookup(m1, v));
            assert(t.lookup(m2, w) == t.lookup(m1, w));
        }
    }


    /// Mapped pages have allocated frames of the pool, no page-table node among
    /// them, and no two pages share one.
    pub proof fn lemma_data_frames(&self, mem: &PhysMem)
        requires
            self.wf(mem),
        ensures
            mem.wf(),
            forall|q: int| #[trigger] self.table().owns(q) ==> mem.allocated(q) && mem.in_range(q),
            forall|v: int| 0 <= v < VPN_LIMIT && (#[trigger] self.lookup(mem, v)).is_some() ==> {
                &&& mem.allocated(self.data_frame(mem, v))
                &&& mem.in_range(self.data_frame(mem, v))
                &&& !self.table().owns(self.data_frame(mem, v))
            },
            forall|v: int, w: int|
                0 <= v < VPN_LIMIT && 0 <= w < VPN_LIMIT && v != w && (#[trigger] self.lookup(mem, v)).is_some() && (#[trigger] self.lookup(mem, w)).is_some()
                    ==> self.data_frame(mem, v) != self.data_frame(mem, w),
    {
        self.page_table.lemma_wf_mem(mem);
    }

    /// The areas, in order.
    pub fn areas(&self) -> (r: &Vec<MapArea>)
        ensures
            r@ == self.area_seq(),
    {
        &self.areas
    }

    /// What page `vpn` is mapped to.
    pub fn translate(&self, mem: &PhysMem, vpn: u64) -> (r: Option<crate::page_table::PageTableEntry>)
        requires
            mem.wf(),
        ensures
            r == self.lookup(mem, vpn as int),
    {
        self.page_table.translate(mem, vpn)
    }

    /// Areas of a well-formed address space are nonempty and inside the address space.
    pub proof fn lemma_area_bounds(&self, mem: &PhysMem, i: int)
        requires
            self.wf(mem),
            0 <= i < self.area_seq().len(),
        ensures
            self.area_seq()[i].start_vpn < self.area_seq()[i].end_vpn <= VPN_LIMIT,
    {
    }

    /// Two areas of a well-formed address space share no page.
    pub proof fn lemma_areas_disjoint(&self, mem: &PhysMem, i: int, j: int, v: int)
        requires
            self.wf(mem),
            0 <= i < self.area_seq().len(),
            0 <= j < self.area_seq().len(),
            i != j,
            in_area(self.area_seq()[i], v),
        ensures
            !in_area(self.area_seq()[j], v),
    {
    }

    /// Unmaps every page of every area, frees their frames, and drops the areas.
    /// The page-table nodes stay with the table.
    #[verifier::rlimit(100)]
    #[verifier::spinoff_prover]
    pub fn recycle_data_pages(&mut self, mem: &mut PhysMem)
        requires
            old(self).wf(old(mem)),
        ensures
            final(self).wf(final(mem)),
            final(self).area_seq().len() == 0,
            forall|v: int| 0 <= v < VPN_LIMIT ==> (#[trigger] final(self).lookup(final(mem), v)).is_none(),
            forall|v: int| 0 <= v < VPN_LIMIT && (#[trigger] old(self).lookup(old(mem), v)).is_some()
                ==> !final(mem).allocated(old(self).data_frame(old(mem), v)),
            forall|q: int| #[trigger] final(mem).allocated(q) ==> old(mem).allocated(q),
    {
        let ghost m0 = *mem;
        let ghost t0 = self.page_table;
        let ghost a0 = self.areas@;
        proof {
            self.page_table.lemma_wf_mem(mem);
        }
        let n = self.areas.len();
        let mut i: usize = 0;
        while i < n
            invariant
                m0 == *old(mem),
                mem.wf(),
                self.areas@ == a0,
                n == a0.len(),
                old(self).wf(&m0),
                t0 == old(self).page_table,
                a0 == old(self).areas@,
                i <= n,
                self.page_table.wf(mem),
                forall|w: int| 0 <= w < VPN_LIMIT ==> ((#[trigger] self.page_table.lookup(mem, w)).is_some()
                    <==> t0.lookup(&m0, w).is_some() && !(exists|j: int| 0 <= j < i && in_area(#[trigger] a0[j], w))),
                forall|w: int| 0 <= w < VPN_LIMIT && (#[trigger] self.page_table.lookup(mem, w)).is_some() ==> self.page_table.lookup(mem, w) == t0.lookup(&m0, w),
                forall|w: int| 0 <= w < VPN_LIMIT && t0.lookup(&m0, w).is_some() && (#[trigger] self.page_table.lookup(mem, w)).is_none()
                    ==> !mem.allocated(t0.lookup(&m0, w).unwrap().ppn_of()),
                forall|q: int| #[trigger] mem.allocated(q) ==> m0.allocated(q),
                forall|w: int| 0 <= w < VPN_LIMIT && #[trigger] self.page_table.lookup(mem, w).is_some() ==> {
                    let p = self.page_table.lookup(mem, w).unwrap().ppn_of();
                    &&& mem.allocated(p)
                    &&& mem.in_range(p)
                    &&& !self.page_table.owns(p)
                },
            decreases n - i,
        {
            let a = self.areas[i];
            proof {
                assert(a.start_vpn < a.end_vpn <= VPN_LIMIT);
            }
            let mut v = a.start_vpn;
            while v < a.end_vpn
                invariant
                    mem.wf(),
                    self.areas@ == a0,
                    n == a0.len(),
                    old(self).wf(&m0),
                    t0 == old(self).page_table,
                    i < n,
                    a == a0[i as int],
                    a.start_vpn <= v <= a.end_vpn,
                    a.end_vpn <= VPN_LIMIT,
                    self.page_table.wf(mem),
                    forall|w: int| 0 <= w < VPN_LIMIT ==> ((#[trigger] self.page_table.lookup(mem, w)).is_some()
                        <==> t0.lookup(&m0, w).is_some() && !(exists|j: int| 0 <= j < i && in_area(#[trigger] a0[j], w)) && !(a.start_vpn <= w < v)),
                    forall|w: int| 0 <= w < VPN_LIMIT && (#[trigger] self.page_table.lookup(mem, w)).is_some() ==> self.page_table.lookup(mem, w) == t0.lookup(&m0, w),
                    forall|w: int| 0 <= w < VPN_LIMIT && t0.lookup(&m0, w).is_some() && (#[trigger] self.page_table.lookup(mem, w)).is_none()
                        ==> !mem.allocated(t0.lookup(&m0, w).unwrap().ppn_of()),
                    forall|q: int| #[trigger] mem.allocated(q) ==> m0.allocated(q),
                    forall|w: int| 0 <= w < VPN_LIMIT && #[trigger] self.page_table.lookup(mem, w).is_some() ==> {
                        let p = self.page_table.lookup(mem, w).unwrap().ppn_of();
                        &&& mem.allocated(p)
                        &&& mem.in_range(p)
                        &&& !self.page_table.owns(p)
                    },
                decreases a.end_vpn - v,
            {
                let ghost m1 = *mem;
                let ghost t1 = self.page_table;
                match self.page_table.translate(mem, v) {
                    None => {},
                    Some(e) => {
                        let p = e.ppn();
                        self.page_table.unmap(mem, v);
                        let ghost m2 = *mem;
                        proof {
                            self.page_table.lemma_wf_mem(mem);
                            assert(mem.allocated(p as int));
                        }
                        mem.frame_dealloc(p);
                        proof {
                            let t = self.page_table;
                            assert forall|q: int| #[trigger] t.owns(q) implies mem.allocated(q) by {
                                assert(t1.owns(q));
                                t1.lemma_wf_mem(&m1);
                            }
                            lemma_lookup_frame(&t, &m2, mem);
                            assert forall|w: int| 0 <= w < VPN_LIMIT && #[trigger] t.lookup(mem, w).is_some() implies {
                                let q = t.lookup(mem, w).unwrap().ppn_of();
                                &&& mem.allocated(q)
                                &&& mem.in_range(q)
                                &&& !t.owns(q)
                            } by {
                                assert(t.lookup(mem, w) == t1.lookup(&m1, w));
                            }
                            assert forall|w: int| 0 <= w < VPN_LIMIT && t0.lookup(&m0, w).is_some() && (#[trigger] t.lookup(mem, w)).is_none()
                                implies !mem.allocated(t0.lookup(&m0, w).unwrap().ppn_of()) by {
                                if w != v as int {
                                    assert(t.lookup(mem, w) == t1.lookup(&m1, w));
                                    assert(!m1.allocated(t0.lookup(&m0, w).unwrap().ppn_of()));
                                } else {
                                    assert(t1.lookup(&m1, w) == t0.lookup(&m0, w));
                                }
                            }
                            t.lemma_wf_mem(mem);
                        }
                    },
                }
                proof {
                    assert forall|w: int| 0 <= w < VPN_LIMIT implies ((#[trigger] self.page_table.lookup(mem, w)).is_some()
                        <==> t0.lookup(&m0, w).is_some() && !(exists|j: int| 0 <= j < i && in_area(#[trigger] a0[j], w)) && !(a.start_vpn <= w < v + 1)) by {
                        assert(self.page_table.lookup(mem, w) == t1.lookup(&m1, w) || w == v as int);
                    }
                }
                v = v + 1;
            }
            proof {
                assert forall|w: int| 0 <= w < VPN_LIMIT implies ((#[trigger] self.page_table.lookup(mem, w)).is_some()
                    <==> t0.lookup(&m0, w).is_some() && !(exists|j: int| 0 <= j < i + 1 && in_area(#[trigger] a0[j], w))) by {
                    if exists|j: int| 0 <= j < i + 1 && in_area(#[trigger] a0[j], w) {
                        let j = choose|j: int| 0 <= j < i + 1 && in_area(#[trigger] a0[j], w);
                        if j == i {
                            assert(a.start_vpn <= w < a.end_vpn);
                        }
                    }
                }
            }
            i = i + 1;
        }
        self.areas = Vec::new();
        proof {
            assert forall|w: int| 0 <= w < VPN_LIMIT implies (#[trigger] self.page_table.lookup(mem, w)).is_none() by {
                if t0.lookup(&m0, w).is_some() {
                    assert(covered(a0, w));
                    let j = choose|j: int| 0 <= j < a0.len() && in_area(#[trigger] a0[j], w);
                }
            }
            assert forall|w: int| 0 <= w < VPN_LIMIT implies (#[trigger] self.page_table.lookup(mem, w).is_some() <==> covered(self.areas@, w)) by {
            }
            assert forall|w: int| 0 <= w < VPN_LIMIT && (#[trigger] old(self).lookup(old(mem), w)).is_some()
                implies !mem.allocated(old(self).data_frame(old(mem), w)) by {
                assert(self.page_table.lookup(mem, w).is_none());
            }
        }
    }
}

} // verus!

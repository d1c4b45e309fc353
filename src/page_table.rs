//! Page-table entries and three-level page tables over [`PhysMem`].
use vstd::prelude::*;

use crate::config::{PAGE_SIZE, PPN_LIMIT, PTES_PER_FRAME, SATP_MODE_SV39, VA_LIMIT, VPN_LIMIT};
use crate::frame::PhysMem;

verus! {

/// Valid.
pub const FLAG_V: u8 = 1;

/// Readable.
pub const FLAG_R: u8 = 2;

/// Writable.
pub const FLAG_W: u8 = 4;

/// Executable.
pub const FLAG_X: u8 = 8;

/// Accessible from user mode.
pub const FLAG_U: u8 = 16;

/// Global.
pub const FLAG_G: u8 = 32;

/// Accessed.
pub const FLAG_A: u8 = 64;

/// Dirty.
pub const FLAG_D: u8 = 128;

/// The eight flag bits of a page-table entry.
#[derive(Clone, Copy, PartialEq, Eq, Structural)]
pub struct PTEFlags {
    pub bits: u8,
}

impl PTEFlags {
    pub fn from_bits(bits: u8) -> (r: PTEFlags)
        ensures
            r.bits == bits,
    {
        PTEFlags { bits }
    }

    pub fn empty() -> (r: PTEFlags)
        ensures
            r.bits == 0,
    {
        PTEFlags { bits: 0 }
    }

    /// The flags of both.
    pub fn union(self, other: PTEFlags) -> (r: PTEFlags)
        ensures
            r.bits == self.bits | other.bits,
    {
        PTEFlags { bits: self.bits | other.bits }
    }

    /// Whether every bit of `other` is set in `self`.
    pub fn contains(self, other: PTEFlags) -> (r: bool)
        ensures
            r == (self.bits & other.bits == other.bits),
    {
        self.bits & other.bits == other.bits
    }
}

/// One 64-bit page-table entry: bits [53:10] hold a PPN, bits [7:0] the flags.
#[derive(Clone, Copy, PartialEq, Eq, Structural)]
pub struct PageTableEntry {
    pub bits: u64,
}

/// Index into the root node (bits 26..18 of a VPN).
pub open spec fn idx2(v: int) -> int {
    (v / 0x40000) % 512
}

/// Index into the middle node (bits 17..9 of a VPN).
pub open spec fn idx1(v: int) -> int {
    (v / 512) % 512
}

/// Index into the leaf node (bits 8..0 of a VPN).
pub open spec fn idx0(v: int) -> int {
    v % 512
}

/// An entry built from a page number and flags gives both back.
pub proof fn lemma_entry_round_trip(ppn: int, flags: u8)
    requires
        0 <= ppn < PPN_LIMIT,
    ensures
        PageTableEntry::spec_new(ppn, flags).ppn_of() == ppn,
        PageTableEntry::spec_new(ppn, flags).flags_of() == flags,
        PageTableEntry::spec_new(ppn, flags).valid() == (flags % 2 == 1),
{
    let f = flags as int;
    assert((ppn * 1024 + f) / 1024 == ppn) by (nonlinear_arith)
        requires
            0 <= f < 256,
            0 <= ppn,
    ;
    assert((ppn * 1024 + f) % 256 == f) by (nonlinear_arith)
        requires
            0 <= f < 256,
            0 <= ppn,
    ;
    assert((ppn * 1024 + f) % 2 == f % 2) by (nonlinear_arith)
        requires
            0 <= f < 256,
            0 <= ppn,
    ;
    assert(ppn * 1024 + f < 0x1_0000_0000_0000_0000) by (nonlinear_arith)
        requires
            0 <= f < 256,
            0 <= ppn < 0x1000_0000_0000,
    ;
}

/// A table reads only the nodes it owns: where a memory keeps those entries, the
/// table stays well formed and every lookup stays the same.
pub proof fn lemma_lookup_frame(t: &PageTable, m1: &PhysMem, m2: &PhysMem)
    requires
        t.wf(m1),
        m2.wf(),
        forall|q: int| m2.in_range(q) == m1.in_range(q),
        forall|q: int| #[trigger] t.owns(q) ==> m2.allocated(q),
        forall|q: int, j: int| t.owns(q) && 0 <= j < PTES_PER_FRAME ==> #[trigger] m2.entry(q, j) == m1.entry(q, j),
    ensures
        t.wf(m2),
        forall|v: int| #[trigger] t.lookup(m2, v) == t.lookup(m1, v),
{
    let tg = t.tags@;
    let root = t.root();
    assert forall|p: int| #[trigger] tg.contains_key(p) implies m2.allocated(p) && m2.in_range(p) by {
        assert(t.owns(p));
    }
    assert forall|v: int| #[trigger] t.lookup(m2, v) == t.lookup(m1, v) by {
        let e2 = m1.entry(root, idx2(v));
        assert(m2.entry(root, idx2(v)) == e2);
        if e2.valid() {
            assert(tg.contains_key(e2.ppn_of()));
            let e1 = m1.entry(e2.ppn_of(), idx1(v));
            assert(m2.entry(e2.ppn_of(), idx1(v)) == e1);
            if e1.valid() {
                assert(tg.contains_key(e1.ppn_of()));
                assert(m2.entry(e1.ppn_of(), idx0(v)) == m1.entry(e1.ppn_of(), idx0(v)));
            }
        }
    }
    assert forall|j: int| 0 <= j < 512 && (#[trigger] m2.entry(root, j)).valid() implies {
        &&& tg.contains_key(m2.entry(root, j).ppn_of())
        &&& tg[m2.entry(root, j).ppn_of()] == (1int, j, 0int)
    } by {
        assert(m2.entry(root, j) == m1.entry(root, j));
    }
    assert forall|p: int, j: int|
        tg.contains_key(p) && tg[p].0 == 1 && 0 <= j < 512 && (#[trigger] m2.entry(p, j)).valid() implies {
            &&& tg.contains_key(m2.entry(p, j).ppn_of())
            &&& tg[m2.entry(p, j).ppn_of()] == (0int, tg[p].1, j)
        } by {
        assert(m2.entry(p, j) == m1.entry(p, j));
    }
}

/// A VPN is determined by its three indices.
proof fn lemma_vpn_split(v: int)
    requires
        0 <= v < VPN_LIMIT,
    ensures
        v == idx2(v) * 0x40000 + idx1(v) * 512 + idx0(v),
{
    assert(v == idx2(v) * 0x40000 + idx1(v) * 512 + idx0(v)) by (nonlinear_arith)
        requires
            0 <= v < 0x800_0000,
    ;
}

/// The three node indices of a VPN, root first.
pub fn vpn_indexes(vpn: u64) -> (r: [usize; 3])
    ensures
        r[0] as int == idx2(vpn as int),
        r[1] as int == idx1(vpn as int),
        r[2] as int == idx0(vpn as int),
{
    [((vpn / 0x40000) % 512) as usize, ((vpn / 512) % 512) as usize, (vpn % 512) as usize]
}

impl PageTableEntry {
    /// The physical page number held in bits [53:10].
    pub open spec fn ppn_of(self) -> int {
        (self.bits / 1024) as int % (PPN_LIMIT as int)
    }

    /// The flag byte held in bits [7:0].
    pub open spec fn flags_of(self) -> u8 {
        (self.bits % 256) as u8
    }

    pub open spec fn valid(self) -> bool {
        self.bits % 2 == 1
    }

    /// The entry built from a page number and flags.
    pub open spec fn spec_new(ppn: int, flags: u8) -> PageTableEntry {
        PageTableEntry { bits: (ppn * 1024 + flags) as u64 }
    }

    pub fn new(ppn: u64, flags: PTEFlags) -> (r: PageTableEntry)
        requires
            ppn < PPN_LIMIT,
        ensures
            r == PageTableEntry::spec_new(ppn as int, flags.bits),
            r.ppn_of() == ppn,
            r.flags_of() == flags.bits,
            r.valid() == (flags.bits % 2 == 1),
    {
        let r = PageTableEntry { bits: ppn * 1024 + flags.bits as u64 };
        proof {
            lemma_entry_round_trip(ppn as int, flags.bits);
        }
        r
    }

    pub fn empty() -> (r: PageTableEntry)
        ensures
            r.bits == 0,
            !r.valid(),
    {
        PageTableEntry { bits: 0 }
    }

    pub fn ppn(&self) -> (r: u64)
        ensures
            r == self.ppn_of(),
            r < PPN_LIMIT,
    {
        (self.bits / 1024) % PPN_LIMIT
    }

    pub fn flags(&self) -> (r: PTEFlags)
        ensures
            r.bits == self.flags_of(),
    {
        PTEFlags { bits: (self.bits % 256) as u8 }
    }

    pub fn is_valid(&self) -> (r: bool)
        ensures
            r == self.valid(),
    {
        self.bits % 2 == 1
    }

    pub fn readable(&self) -> (r: bool)
        ensures
            r == (self.flags_of() & FLAG_R != 0),
    {
        self.flags().bits & FLAG_R != 0
    }

    pub fn writable(&self) -> (r: bool)
        ensures
            r == (self.flags_of() & FLAG_W != 0),
    {
        self.flags().bits & FLAG_W != 0
    }

    pub fn executable(&self) -> (r: bool)
        ensures
            r == (self.flags_of() & FLAG_X != 0),
    {
        self.flags().bits & FLAG_X != 0
    }
}

/// The leaf entry that a walk from `root` reaches for `v`, if every level is valid.
/// An interior entry that points outside the pool ends the walk.
pub open spec fn walk(mem: &PhysMem, root: int, v: int) -> Option<PageTableEntry> {
    if !mem.in_range(root) {
        None
    } else {
        let e2 = mem.entry(root, idx2(v));
        if !e2.valid() || !mem.in_range(e2.ppn_of()) {
            None
        } else {
            let e1 = mem.entry(e2.ppn_of(), idx1(v));
            if !e1.valid() || !mem.in_range(e1.ppn_of()) {
                None
            } else {
                let e0 = mem.entry(e1.ppn_of(), idx0(v));
                if e0.valid() {
                    Some(e0)
                } else {
                    None
                }
            }
        }
    }
}

/// A page table: a root node and the interior nodes that it owns.
pub struct PageTable {
    root_ppn: u64,
    frames: Vec<u64>,
    /// For each owned node: its level (2 root, 1 middle, 0 leaf) and the indices leading to it.
    tags: Ghost<Map<int, (int, int, int)>>,
}

impl PageTable {
    pub closed spec fn root(&self) -> int {
        self.root_ppn as int
    }

    /// The node frame `p` belongs to this table.
    pub closed spec fn owns(&self, p: int) -> bool {
        self.tags@.contains_key(p)
    }

    /// What this table maps `v` to, read from `mem`.
    pub open spec fn lookup(&self, mem: &PhysMem, v: int) -> Option<PageTableEntry> {
        walk(mem, self.root(), v)
    }

    /// The tree shape: each valid interior entry carries the valid flag only and
    /// leads to an owned node one level down, tagged with the indices that lead to
    /// it; owned nodes are allocated.
    pub closed spec fn wf(&self, mem: &PhysMem) -> bool {
        let t = self.tags@;
        let root = self.root_ppn as int;
        &&& mem.wf()
        &&& mem.in_range(root)
        &&& root < PPN_LIMIT
        &&& t.contains_key(root)
        &&& t[root] == (2int, 0int, 0int)
        &&& forall|p: int| #[trigger] t.contains_key(p) ==> mem.allocated(p) && mem.in_range(p)
        &&& forall|p: int| #[trigger] t.contains_key(p) && t[p].0 == 2 ==> p == root
        &&& forall|p: int| #[trigger] t.contains_key(p) ==> 0 <= t[p].0 <= 2
        &&& forall|i: int|
            0 <= i < 512 && (#[trigger] mem.entry(root, i)).valid() ==> {
                &&& t.contains_key(mem.entry(root, i).ppn_of())
                &&& t[mem.entry(root, i).ppn_of()] == (1int, i, 0int)
                &&& mem.entry(root, i).flags_of() == FLAG_V
            }
        &&& forall|p: int, i: int|
            t.contains_key(p) && t[p].0 == 1 && 0 <= i < 512 && (#[trigger] mem.entry(
                p,
                i,
            )).valid() ==> {
                &&& t.contains_key(mem.entry(p, i).ppn_of())
                &&& t[mem.entry(p, i).ppn_of()] == (0int, t[p].1, i)
                &&& mem.entry(p, i).flags_of() == FLAG_V
            }
        &&& forall|p: u64| t.contains_key(p as int) <==> #[trigger] self.frames@.contains(p)
    }

    /// `f` is the leaf node on the walk of `v`, reached through valid interior entries.
    closed spec fn leaf_slot(&self, mem: &PhysMem, v: int, f: int) -> bool {
        let e2 = mem.entry(self.root(), idx2(v));
        let e1 = mem.entry(e2.ppn_of(), idx1(v));
        &&& e2.valid()
        &&& mem.in_range(e2.ppn_of())
        &&& e1.valid()
        &&& e1.ppn_of() == f
        &&& mem.in_range(f)
        &&& self.tags@.contains_key(f)
        &&& self.tags@[f] == (0int, idx2(v), idx1(v))
    }

    /// A well-formed table sits in a well-formed memory, and its nodes are allocated frames.
    pub proof fn lemma_wf_mem(&self, mem: &PhysMem)
        requires
            self.wf(mem),
        ensures
            mem.wf(),
            forall|q: int| #[trigger] self.owns(q) ==> mem.allocated(q) && mem.in_range(q),
    {
    }

    /// A page table with one fresh zeroed root node, or `None` when memory is exhausted.
    pub fn new(mem: &mut PhysMem) -> (r: Option<PageTable>)
        requires
            old(mem).wf(),
        ensures
            r.is_none() <==> old(mem).exhausted(),
            r.is_none() ==> *final(mem) == *old(mem),
            r matches Some(t) ==> {
                &&& t.wf(final(mem))
                &&& !old(mem).allocated(t.root())
                &&& final(mem).free_count() == old(mem).free_count() - 1
                &&& forall|q: int| q != t.root() ==> #[trigger] final(mem).allocated(q) == old(mem).allocated(q)
                &&& forall|q: int| final(mem).in_range(q) == old(mem).in_range(q)
                &&& forall|q: int| #[trigger] t.owns(q) <==> q == t.root()
                &&& forall|v: int| t.lookup(final(mem), v).is_none()
                &&& final(mem).same_entries_except(old(mem), t.root())
                &&& final(mem).same_bytes_except(old(mem), t.root())
            },
    {
        match mem.frame_alloc() {
            None => None,
            Some(root) => {
                let mut frames: Vec<u64> = Vec::new();
                frames.push(root);
                let t = PageTable {
                    root_ppn: root,
                    frames,
                    tags: Ghost(Map::empty().insert(root as int, (2int, 0int, 0int))),
                };
                proof {
                    assert forall|p: u64| t.tags@.contains_key(p as int) <==> #[trigger] t.frames@.contains(p) by {
                        if t.frames@.contains(p) {
                            let k = choose|k: int| 0 <= k < t.frames@.len() && t.frames@[k] == p;
                            assert(t.frames@[k] == root);
                        }
                        if p == root {
                            assert(t.frames@[0] == root);
                        }
                    }
                    assert forall|i: int| 0 <= i < 512 implies !(#[trigger] mem.entry(root as int, i)).valid() by {
                        assert(mem.entry(root as int, i).bits == 0);
                    }
                    mem.lemma_in_range_bound(root as int);
                    assert(t.wf(mem));
                    assert forall|v: int| t.lookup(mem, v).is_none() by {
                        assert(!mem.entry(root as int, idx2(v)).valid());
                    }
                }
                Some(t)
            },
        }
    }

    /// A view of the table whose root is named by a satp-format token. It owns no
    /// frames and is meant only for reading another address space.
    pub fn from_token(satp: u64) -> (r: PageTable)
        ensures
            r.root() == (satp as int) % (PPN_LIMIT as int),
            forall|q: int| !r.owns(q),
    {
        PageTable { root_ppn: satp % PPN_LIMIT, frames: Vec::new(), tags: Ghost(Map::empty()) }
    }

    /// The satp-format token naming this table: mode bits over the root PPN.
    pub fn token(&self) -> (r: u64)
        ensures
            r as int == SATP_MODE_SV39 as int + self.root() % (PPN_LIMIT as int),
            (r as int) % (PPN_LIMIT as int) == self.root() % (PPN_LIMIT as int),
    {
        SATP_MODE_SV39 + self.root_ppn % PPN_LIMIT
    }

    /// The leaf entry for `vpn` if every level of the walk is valid, else `None`.
    pub fn translate(&self, mem: &PhysMem, vpn: u64) -> (r: Option<PageTableEntry>)
        requires
            mem.wf(),
        ensures
            r == self.lookup(mem, vpn as int),
    {
        let idx = vpn_indexes(vpn);
        let root = self.root_ppn;
        if !mem.contains(root) {
            return None;
        }
        let e2 = mem.read_pte(root, idx[0]);
        if !e2.is_valid() || !mem.contains(e2.ppn()) {
            return None;
        }
        let e1 = mem.read_pte(e2.ppn(), idx[1]);
        if !e1.is_valid() || !mem.contains(e1.ppn()) {
            return None;
        }
        let e0 = mem.read_pte(e1.ppn(), idx[2]);
        if e0.is_valid() {
            Some(e0)
        } else {
            None
        }
    }

    /// Makes sure that entry `i` of node `parent` leads to a node one level down,
    /// allocating a zeroed node when it does not; `None` when memory runs out.
    fn child_node(&mut self, mem: &mut PhysMem, parent: u64, i: usize, tag: Ghost<(int, int, int)>) -> (r:
        Option<u64>)
        requires
            old(self).wf(old(mem)),
            old(self).owns(parent as int),
            i < 512,
            0 <= tag@.0 <= 1,
            old(self).tags@[parent as int].0 == tag@.0 + 1,
            tag@.0 == 1 ==> old(self).tags@[parent as int] == (2int, 0int, 0int) && tag@ == (1int, i as int, 0int),
            tag@.0 == 0 ==> old(self).tags@[parent as int].0 == 1 && tag@ == (0int, old(self).tags@[parent as int].1, i as int),
        ensures
            final(self).wf(final(mem)),
            final(self).root() == old(self).root(),
            forall|q: int| old(self).owns(q) ==> #[trigger] final(self).owns(q) && final(self).tags@[q] == old(self).tags@[q],
            forall|q: int| #[trigger] final(self).owns(q) && !old(self).owns(q) ==> !old(mem).allocated(q),
            forall|q: int| #[trigger] final(mem).allocated(q) <==> old(mem).allocated(q) || (final(self).owns(q) && !old(self).owns(q)),
            forall|q: int| final(mem).in_range(q) == old(mem).in_range(q),
            forall|q: int, j: int| !final(self).owns(q) && old(mem).in_range(q) && 0 <= j < PTES_PER_FRAME ==> #[trigger] final(mem).entry(q, j) == old(mem).entry(q, j),
            forall|q: int, j: int| !(final(self).owns(q) && !old(self).owns(q)) && old(mem).in_range(q) && 0 <= j < PAGE_SIZE ==> #[trigger] final(mem).byte(q, j) == old(mem).byte(q, j),
            forall|v: int| #[trigger] final(self).lookup(final(mem), v) == old(self).lookup(old(mem), v),
            forall|q: int, j: int| old(self).owns(q) && 0 <= j < 512 && (q != parent || j != i) ==> #[trigger] final(mem).entry(q, j) == old(mem).entry(q, j),
            r.is_none() ==> old(mem).exhausted() && *final(mem) == *old(mem) && *final(self) == *old(self),
            old(mem).free_count() >= 1 ==> r.is_some(),
            r matches Some(c) ==> {
                &&& final(mem).entry(parent as int, i as int).valid()
                &&& final(mem).entry(parent as int, i as int).ppn_of() == c
                &&& final(self).owns(c as int)
                &&& final(self).tags@[c as int] == tag@
                &&& final(mem).in_range(c as int)
            },
            final(mem).free_count() >= old(mem).free_count() - 1,
    {
        let ghost om = *mem;
        let ghost ot = *self;
        let e = mem.read_pte(parent, i);
        if e.is_valid() {
            let c = e.ppn();
            proof {
                assert(ot.tags@.contains_key(parent as int));
                if tag@.0 == 1 {
                    assert(parent as int == ot.root());
                    assert(om.entry(ot.root(), i as int).valid());
                    assert(ot.tags@.contains_key(c as int));
                } else {
                    assert(ot.tags@[parent as int].0 == 1);
                    assert(om.entry(parent as int, i as int).valid());
                    assert(ot.tags@.contains_key(c as int));
                }
            }
            return Some(c);
        }
        match mem.frame_alloc() {
            None => None,
            Some(c) => {
                let ghost am = *mem;
                proof {
                    mem.lemma_in_range_bound(c as int);
                }
                mem.write_pte(parent, i, PageTableEntry::new(c, PTEFlags { bits: FLAG_V }));
                self.frames.push(c);
                self.tags = Ghost(self.tags@.insert(c as int, tag@));
                proof {
                    let t = self.tags@;
                    assert(!ot.tags@.contains_key(c as int));
                    assert forall|q: int| #[trigger] mem.allocated(q) <==> om.allocated(q) || (t.contains_key(q) && !ot.tags@.contains_key(q)) by {}
                    assert forall|p: u64| t.contains_key(p as int) <==> #[trigger] self.frames@.contains(p) by {
                        if self.frames@.contains(p) && p != c {
                            let k = choose|k: int| 0 <= k < self.frames@.len() && self.frames@[k] == p;
                            assert(ot.frames@[k] == p);
                        }
                        if ot.frames@.contains(p) {
                            let k = choose|k: int| 0 <= k < ot.frames@.len() && ot.frames@[k] == p;
                            assert(self.frames@[k] == p);
                        }
                        if p == c {
                            assert(self.frames@[ot.frames@.len() as int] == c);
                        }
                    }
                    assert forall|j: int| 0 <= j < 512 implies !(#[trigger] mem.entry(c as int, j)).valid() by {
                        assert(am.entry(c as int, j).bits == 0);
                    }
                    assert forall|q: int, j: int| ot.tags@.contains_key(q) && 0 <= j < 512 && (q != parent || j != i) implies #[trigger] mem.entry(q, j) == om.entry(q, j) by {
                        assert(q != c);
                    }
                    let root = self.root();
                    assert forall|j: int| 0 <= j < 512 && (#[trigger] mem.entry(root, j)).valid() implies {
                        &&& t.contains_key(mem.entry(root, j).ppn_of())
                        &&& t[mem.entry(root, j).ppn_of()] == (1int, j, 0int)
                    } by {
                        if root == parent as int && j == i as int {
                        } else {
                            assert(mem.entry(root, j) == om.entry(root, j));
                            assert(ot.tags@.contains_key(om.entry(root, j).ppn_of()));
                        }
                    }
                    assert forall|p: int, j: int|
                        t.contains_key(p) && t[p].0 == 1 && 0 <= j < 512 && (#[trigger] mem.entry(p, j)).valid() implies {
                            &&& t.contains_key(mem.entry(p, j).ppn_of())
                            &&& t[mem.entry(p, j).ppn_of()] == (0int, t[p].1, j)
                        } by {
                        if p == c as int {
                        } else if p == parent as int && j == i as int {
                        } else {
                            assert(mem.entry(p, j) == om.entry(p, j));
                            assert(ot.tags@.contains_key(om.entry(p, j).ppn_of()));
                        }
                    }
                    assert forall|p: int| #[trigger] t.contains_key(p) implies mem.allocated(p) && mem.in_range(p) by {
                    }
                    assert(mem.wf());
                    assert(mem.in_range(root));
                    assert(t.contains_key(root));
                    assert(t[root] == (2int, 0int, 0int));
                    assert(forall|p: int| #[trigger] t.contains_key(p) && t[p].0 == 2 ==> p == root);
                    assert(forall|p: int| #[trigger] t.contains_key(p) ==> 0 <= t[p].0 <= 2);
                    assert(self.wf(mem));
                    assert forall|q: int, j: int| !(t.contains_key(q) && !ot.tags@.contains_key(q)) && om.in_range(q) && 0 <= j < PAGE_SIZE
                        implies #[trigger] mem.byte(q, j) == om.byte(q, j) by {
                        assert(q != c as int);
                        assert(am.in_range(q));
                        assert(mem.in_range(q));
                        assert(am.byte(q, j) == om.byte(q, j));
                        assert(mem.byte(q, j) == am.byte(q, j));
                    }
                    assert forall|v: int| #[trigger] self.lookup(mem, v) == ot.lookup(&om, v) by {
                        let r = self.root();
                        let i2 = idx2(v);
                        let i1 = idx1(v);
                        let i0 = idx0(v);
                        let oe2 = om.entry(r, i2);
                        if tag@.0 == 1 {
                            if i2 != i as int && oe2.valid() {
                                let f1 = oe2.ppn_of();
                                assert(ot.tags@.contains_key(f1));
                                let oe1 = om.entry(f1, i1);
                                if oe1.valid() {
                                    assert(ot.tags@.contains_key(oe1.ppn_of()));
                                    assert(mem.entry(oe1.ppn_of(), i0) == om.entry(oe1.ppn_of(), i0));
                                }
                            }
                            if i2 == i as int {
                                assert(!mem.entry(c as int, i1).valid());
                            }
                        } else {
                            if oe2.valid() {
                                let f1 = oe2.ppn_of();
                                assert(ot.tags@.contains_key(f1));
                                let oe1 = om.entry(f1, i1);
                                if f1 == parent && i1 == i as int {
                                    assert(!mem.entry(c as int, i0).valid());
                                } else if oe1.valid() {
                                    assert(ot.tags@.contains_key(oe1.ppn_of()));
                                    assert(mem.entry(oe1.ppn_of(), i0) == om.entry(oe1.ppn_of(), i0));
                                }
                            }
                        }
                    }
                }
                Some(c)
            },
        }
    }

    /// Walks to the leaf node of `vpn`, creating missing interior nodes on the way.
    fn find_pte_create(&mut self, mem: &mut PhysMem, vpn: u64) -> (r: Option<u64>)
        requires
            old(self).wf(old(mem)),
        ensures
            final(self).wf(final(mem)),
            final(self).root() == old(self).root(),
            forall|q: int| old(self).owns(q) ==> #[trigger] final(self).owns(q),
            forall|q: int| #[trigger] final(self).owns(q) && !old(self).owns(q) ==> !old(mem).allocated(q),
            forall|q: int| #[trigger] final(mem).allocated(q) <==> old(mem).allocated(q) || (final(self).owns(q) && !old(self).owns(q)),
            forall|q: int| final(mem).in_range(q) == old(mem).in_range(q),
            forall|q: int, j: int| !final(self).owns(q) && old(mem).in_range(q) && 0 <= j < PTES_PER_FRAME ==> #[trigger] final(mem).entry(q, j) == old(mem).entry(q, j),
            forall|q: int, j: int| !(final(self).owns(q) && !old(self).owns(q)) && old(mem).in_range(q) && 0 <= j < PAGE_SIZE ==> #[trigger] final(mem).byte(q, j) == old(mem).byte(q, j),
            forall|v: int| #[trigger] final(self).lookup(final(mem), v) == old(self).lookup(old(mem), v),
            old(mem).free_count() >= 2 ==> r.is_some(),
            final(mem).free_count() >= old(mem).free_count() - 2,
            r matches Some(f) ==> final(self).leaf_slot(final(mem), vpn as int, f as int),
    {
        let idx = vpn_indexes(vpn);
        let root = self.root_ppn;
        let f1 = match self.child_node(mem, root, idx[0], Ghost((1int, idx[0] as int, 0int))) {
            None => return None,
            Some(f1) => f1,
        };
        let ghost m1 = *mem;
        let f0 = match self.child_node(mem, f1, idx[1], Ghost((0int, idx[0] as int, idx[1] as int))) {
            None => return None,
            Some(f0) => f0,
        };
        proof {
            assert(mem.entry(root as int, idx[0] as int) == m1.entry(root as int, idx[0] as int));
        }
        Some(f0)
    }

    /// Maps `vpn` to `ppn` with `flags` and the valid bit. Returns `false`, with every
    /// translation unchanged, only when physical memory runs out for an interior node.
    pub fn map(&mut self, mem: &mut PhysMem, vpn: u64, ppn: u64, flags: PTEFlags) -> (r: bool)
        requires
            old(self).wf(old(mem)),
            vpn < VPN_LIMIT,
            ppn < PPN_LIMIT,
            old(self).lookup(old(mem), vpn as int).is_none(),
        ensures
            final(self).wf(final(mem)),
            final(self).root() == old(self).root(),
            old(mem).free_count() >= 2 ==> r,
            final(mem).free_count() >= old(mem).free_count() - 2,
            r ==> final(self).lookup(final(mem), vpn as int) == Some(
                PageTableEntry::spec_new(ppn as int, flags.bits | FLAG_V),
            ),
            !r ==> final(self).lookup(final(mem), vpn as int).is_none(),
            forall|v: int|
                0 <= v < VPN_LIMIT && v != vpn ==> #[trigger] final(self).lookup(final(mem), v)
                    == old(self).lookup(old(mem), v),
            forall|q: int| old(self).owns(q) ==> #[trigger] final(self).owns(q),
            forall|q: int| #[trigger] final(self).owns(q) && !old(self).owns(q) ==> !old(mem).allocated(q),
            forall|q: int| #[trigger] final(mem).allocated(q) <==> old(mem).allocated(q) || (final(self).owns(q) && !old(self).owns(q)),
            forall|q: int| final(mem).in_range(q) == old(mem).in_range(q),
            forall|q: int, j: int| !final(self).owns(q) && old(mem).in_range(q) && 0 <= j < PTES_PER_FRAME ==> #[trigger] final(mem).entry(q, j) == old(mem).entry(q, j),
            forall|q: int, j: int| !(final(self).owns(q) && !old(self).owns(q)) && old(mem).in_range(q) && 0 <= j < PAGE_SIZE ==> #[trigger] final(mem).byte(q, j) == old(mem).byte(q, j),
    {
        let f0 = match self.find_pte_create(mem, vpn) {
            None => return false,
            Some(f0) => f0,
        };
        let ghost m0 = *mem;
        let idx = vpn_indexes(vpn);
        let e = PageTableEntry::new(ppn, flags.union(PTEFlags { bits: FLAG_V }));
        proof {
            let fl = flags.bits;
            assert((fl | FLAG_V) % 2 == 1) by (bit_vector)
                requires
                    FLAG_V == 1u8,
            ;
        }
        mem.write_pte(f0, idx[2], e);
        proof {
            let t = self.tags@;
            let root = self.root();
            assert(m0.entry(f0 as int, idx[2] as int) == m0.entry(f0 as int, idx0(vpn as int)));
            assert forall|j: int| 0 <= j < 512 && (#[trigger] mem.entry(root, j)).valid() implies {
                &&& t.contains_key(mem.entry(root, j).ppn_of())
                &&& t[mem.entry(root, j).ppn_of()] == (1int, j, 0int)
            } by {
                assert(mem.entry(root, j) == m0.entry(root, j));
            }
            assert forall|p: int, j: int|
                t.contains_key(p) && t[p].0 == 1 && 0 <= j < 512 && (#[trigger] mem.entry(p, j)).valid() implies {
                    &&& t.contains_key(mem.entry(p, j).ppn_of())
                    &&& t[mem.entry(p, j).ppn_of()] == (0int, t[p].1, j)
                } by {
                assert(mem.entry(p, j) == m0.entry(p, j));
            }
            assert(self.wf(mem));
            let e2 = mem.entry(root, idx2(vpn as int));
            assert(e2 == m0.entry(root, idx2(vpn as int)));
            assert(mem.entry(e2.ppn_of(), idx1(vpn as int)) == m0.entry(e2.ppn_of(), idx1(vpn as int)));
            assert forall|v: int|
                0 <= v < VPN_LIMIT && v != vpn implies #[trigger] self.lookup(mem, v) == self.lookup(&m0, v) by {
                let oe2 = m0.entry(root, idx2(v));
                if oe2.valid() {
                    let f1 = oe2.ppn_of();
                    assert(t.contains_key(f1));
                    assert(mem.entry(root, idx2(v)) == oe2);
                    assert(mem.entry(f1, idx1(v)) == m0.entry(f1, idx1(v)));
                    let oe1 = m0.entry(f1, idx1(v));
                    if oe1.valid() {
                        let g = oe1.ppn_of();
                        assert(t.contains_key(g));
                        if g == f0 as int {
                            lemma_vpn_split(v);
                            lemma_vpn_split(vpn as int);
                            assert(idx0(v) != idx0(vpn as int));
                        }
                        assert(mem.entry(g, idx0(v)) == m0.entry(g, idx0(v)));
                    }
                }
            }
        }
        true
    }

    /// Clears the leaf entry of a mapped `vpn`. Interior nodes stay with the table.
    pub fn unmap(&mut self, mem: &mut PhysMem, vpn: u64)
        requires
            old(self).wf(old(mem)),
            vpn < VPN_LIMIT,
            old(self).lookup(old(mem), vpn as int).is_some(),
        ensures
            final(self).wf(final(mem)),
            final(self).root() == old(self).root(),
            final(self).lookup(final(mem), vpn as int).is_none(),
            forall|v: int|
                0 <= v < VPN_LIMIT && v != vpn ==> #[trigger] final(self).lookup(final(mem), v)
                    == old(self).lookup(old(mem), v),
            forall|q: int| #[trigger] final(self).owns(q) == old(self).owns(q),
            forall|q: int| #[trigger] final(mem).allocated(q) == old(mem).allocated(q),
            forall|q: int| final(mem).in_range(q) == old(mem).in_range(q),
            final(mem).free_count() == old(mem).free_count(),
            forall|q: int, j: int| !final(self).owns(q) && old(mem).in_range(q) && 0 <= j < PTES_PER_FRAME ==> #[trigger] final(mem).entry(q, j) == old(mem).entry(q, j),
            final(mem).same_bytes(old(mem)),
    {
        let ghost m0 = *mem;
        let idx = vpn_indexes(vpn);
        let root = self.root_ppn;
        let e2 = mem.read_pte(root, idx[0]);
        let f1 = e2.ppn();
        let e1 = mem.read_pte(f1, idx[1]);
        let f0 = e1.ppn();
        proof {
            assert(self.tags@.contains_key(f1 as int));
            assert(self.tags@.contains_key(f0 as int));
        }
        mem.write_pte(f0, idx[2], PageTableEntry::empty());
        proof {
            let t = self.tags@;
            let root = self.root();
            assert forall|j: int| 0 <= j < 512 && (#[trigger] mem.entry(root, j)).valid() implies {
                &&& t.contains_key(mem.entry(root, j).ppn_of())
                &&& t[mem.entry(root, j).ppn_of()] == (1int, j, 0int)
            } by {
                assert(mem.entry(root, j) == m0.entry(root, j));
            }
            assert forall|p: int, j: int|
                t.contains_key(p) && t[p].0 == 1 && 0 <= j < 512 && (#[trigger] mem.entry(p, j)).valid() implies {
                    &&& t.contains_key(mem.entry(p, j).ppn_of())
                    &&& t[mem.entry(p, j).ppn_of()] == (0int, t[p].1, j)
                } by {
                assert(mem.entry(p, j) == m0.entry(p, j));
            }
            assert(self.wf(mem));
            assert(mem.entry(root, idx2(vpn as int)) == m0.entry(root, idx2(vpn as int)));
            assert(mem.entry(f1 as int, idx1(vpn as int)) == m0.entry(f1 as int, idx1(vpn as int)));
            assert forall|v: int|
                0 <= v < VPN_LIMIT && v != vpn implies #[trigger] self.lookup(mem, v) == self.lookup(&m0, v) by {
                let oe2 = m0.entry(root, idx2(v));
                if oe2.valid() {
                    let g1 = oe2.ppn_of();
                    assert(t.contains_key(g1));
                    assert(mem.entry(root, idx2(v)) == oe2);
                    assert(mem.entry(g1, idx1(v)) == m0.entry(g1, idx1(v)));
                    let oe1 = m0.entry(g1, idx1(v));
                    if oe1.valid() {
                        let g = oe1.ppn_of();
                        assert(t.contains_key(g));
                        if g == f0 as int {
                            lemma_vpn_split(v);
                            lemma_vpn_split(vpn as int);
                            assert(idx0(v) != idx0(vpn as int));
                        }
                        assert(mem.entry(g, idx0(v)) == m0.entry(g, idx0(v)));
                    }
                }
            }
        }
    }

    /// The physical address of `va`: its page translated, its offset kept.
    pub fn translate_va(&self, mem: &PhysMem, va: u64) -> (r: Option<u64>)
        requires
            mem.wf(),
            va < VA_LIMIT,
        ensures
            r == match self.lookup(mem, va as int / PAGE_SIZE as int) {
                Some(e) => Some((e.ppn_of() * PAGE_SIZE as int + va as int % PAGE_SIZE as int) as u64),
                None => None,
            },
    {
        match self.translate(mem, va / 4096) {
            Some(e) => {
                let p = e.ppn();
                Some(p * 4096 + va % 4096)
            },
            None => None,
        }
    }

    /// A page just mapped to `ppn` with `flags` translates to `ppn` with `flags` and
    /// the valid bit; once unmapped it translates to nothing.
    pub proof fn lemma_map_round_trip(&self, mem: &PhysMem, vpn: int, ppn: int, flags: u8)
        requires
            0 <= ppn < PPN_LIMIT,
            self.lookup(mem, vpn) == Some(PageTableEntry::spec_new(ppn, flags | FLAG_V)),
        ensures
            self.lookup(mem, vpn).unwrap().ppn_of() == ppn,
            self.lookup(mem, vpn).unwrap().flags_of() == flags | FLAG_V,
            self.lookup(mem, vpn).unwrap().valid(),
    {
        lemma_entry_round_trip(ppn, flags | FLAG_V);
        assert((flags | FLAG_V) % 2 == 1) by (bit_vector)
            requires
                FLAG_V == 1u8,
        ;
    }
}

} // verus!

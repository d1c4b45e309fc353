//! Copying an address space for fork.
use vstd::prelude::*;

use crate::config::{PAGE_SIZE, PTES_PER_FRAME, VPN_LIMIT};
use crate::frame::PhysMem;
use crate::memory_set::{areas_pages, covered, fork_need, in_area, MapArea, MemorySet};

verus! {

proof fn lemma_areas_pages_split(a: Seq<MapArea>, i: int)
    requires
        0 <= i < a.len(),
    ensures
        areas_pages(a.subrange(i, a.len() as int)) == (a[i].end_vpn - a[i].start_vpn) + areas_pages(a.subrange(i + 1, a.len() as int)),
{
    assert(a.subrange(i, a.len() as int).drop_first() =~= a.subrange(i + 1, a.len() as int));
}

proof fn lemma_areas_pages_nonneg(a: Seq<MapArea>)
    requires
        forall|k: int| 0 <= k < a.len() ==> (#[trigger] a[k]).start_vpn <= a[k].end_vpn,
    ensures
        areas_pages(a) >= 0,
    decreases a.len(),
{
    if a.len() > 0 {
        let r = a.drop_first();
        assert forall|k: int| 0 <= k < r.len() implies (#[trigger] r[k]).start_vpn <= r[k].end_vpn by {
            assert(r[k] == a[k + 1]);
        }
        lemma_areas_pages_nonneg(r);
    }
}

/// Copies the bytes of frame `from` into frame `to`; no other frame changes.
fn copy_page(mem: &mut PhysMem, from: u64, to: u64)
    requires
        old(mem).wf(),
        old(mem).in_range(from as int),
        old(mem).in_range(to as int),
        from != to,
    ensures
        final(mem).wf(),
        forall|q: int| final(mem).in_range(q) == old(mem).in_range(q),
        forall|q: int| #[trigger] final(mem).allocated(q) == old(mem).allocated(q),
        final(mem).free_count() == old(mem).free_count(),
        final(mem).same_entries(old(mem)),
        final(mem).same_bytes_except(old(mem), to as int),
        forall|o: int| 0 <= o < PAGE_SIZE ==> #[trigger] final(mem).byte(to as int, o) == old(mem).byte(from as int, o),
{
    let ghost m0 = *mem;
    let mut o: usize = 0;
    while o < 4096
        invariant
            mem.wf(),
            m0.wf(),
            m0.in_range(from as int),
            m0.in_range(to as int),
            from != to,
            o <= PAGE_SIZE,
            forall|q: int| mem.in_range(q) == m0.in_range(q),
            forall|q: int| #[trigger] mem.allocated(q) == m0.allocated(q),
            mem.free_count() == m0.free_count(),
            mem.same_entries(&m0),
            mem.same_bytes_except(&m0, to as int),
            forall|k: int| 0 <= k < o ==> #[trigger] mem.byte(to as int, k) == m0.byte(from as int, k),
        decreases PAGE_SIZE - o,
    {
        let b = mem.read_byte(from, o);
        proof {
            assert(mem.byte(from as int, o as int) == m0.byte(from as int, o as int));
        }
        let ghost before = *mem;
        mem.write_byte(to, o, b);
        proof {
            assert forall|q: int, i: int| q != to && mem.in_range(q) && 0 <= i < PAGE_SIZE implies #[trigger] mem.byte(q, i) == m0.byte(q, i) by {
                assert(before.byte(q, i) == m0.byte(q, i));
            }
            assert forall|q: int, i: int| mem.in_range(q) && 0 <= i < PTES_PER_FRAME implies #[trigger] mem.entry(q, i) == m0.entry(q, i) by {
                assert(before.entry(q, i) == m0.entry(q, i));
            }
        }
        o = o + 1;
    }
}



/// Copies, for each page of `[s, e)`, the parent's bytes into the child's frame.
#[verifier::rlimit(100)]
#[verifier::spinoff_prover]
fn copy_area(parent: &MemorySet, child: &MemorySet, mem: &mut PhysMem, s: u64, e: u64, m0: Ghost<PhysMem>)
    requires
        old(mem).wf(),
        m0@.wf(),
        parent.wf(&m0@),
        parent.wf(old(mem)),
        child.wf(old(mem)),
        s <= e <= VPN_LIMIT,
        forall|q: int| old(mem).in_range(q) == m0@.in_range(q),
        forall|w: int| #[trigger] parent.lookup(old(mem), w) == parent.lookup(&m0@, w),
        forall|q: int| #[trigger] m0@.allocated(q) ==> old(mem).allocated(q),
        forall|q: int| #[trigger] child.table().owns(q) ==> !m0@.allocated(q),
        forall|w: int| s <= w < e ==> (#[trigger] child.lookup(old(mem), w)).is_some() && parent.lookup(old(mem), w).is_some(),
        forall|w: int| 0 <= w < VPN_LIMIT && (#[trigger] child.lookup(old(mem), w)).is_some() ==> !m0@.allocated(child.data_frame(old(mem), w)),
    ensures
        final(mem).wf(),
        parent.wf(final(mem)),
        child.wf(final(mem)),
        forall|q: int| final(mem).in_range(q) == old(mem).in_range(q),
        forall|q: int| #[trigger] final(mem).allocated(q) == old(mem).allocated(q),
        final(mem).free_count() == old(mem).free_count(),
        forall|w: int| #[trigger] parent.lookup(final(mem), w) == parent.lookup(old(mem), w),
        forall|w: int| #[trigger] child.lookup(final(mem), w) == child.lookup(old(mem), w),
        forall|q: int, j: int| m0@.allocated(q) && 0 <= j < PAGE_SIZE ==> #[trigger] final(mem).byte(q, j) == old(mem).byte(q, j),
        forall|w: int, j: int| 0 <= w < VPN_LIMIT && child.lookup(old(mem), w).is_some() && !(s <= w < e) && 0 <= j < PAGE_SIZE ==>
            #[trigger] final(mem).byte(child.data_frame(old(mem), w), j) == old(mem).byte(child.data_frame(old(mem), w), j),
        forall|w: int, o: int| s <= w < e && 0 <= o < PAGE_SIZE ==>
            #[trigger] final(mem).byte(child.data_frame(final(mem), w), o) == final(mem).byte(parent.data_frame(final(mem), w), o),
{
    let ghost m1 = *mem;
    let mut v = s;
    while v < e
        invariant
            mem.wf(),
            m0@.wf(),
            parent.wf(&m0@),
            parent.wf(mem),
            child.wf(mem),
            s <= v <= e,
            e <= VPN_LIMIT,
            forall|q: int| mem.in_range(q) == m1.in_range(q),
            forall|q: int| m1.in_range(q) == m0@.in_range(q),
            forall|q: int| #[trigger] mem.allocated(q) == m1.allocated(q),
            mem.free_count() == m1.free_count(),
            forall|q: int| #[trigger] m0@.allocated(q) ==> m1.allocated(q),
            forall|q: int| #[trigger] child.table().owns(q) ==> !m0@.allocated(q),
            forall|w: int| #[trigger] parent.lookup(mem, w) == parent.lookup(&m1, w),
            forall|w: int| #[trigger] parent.lookup(&m1, w) == parent.lookup(&m0@, w),
            forall|w: int| #[trigger] child.lookup(mem, w) == child.lookup(&m1, w),
            forall|w: int| s <= w < e ==> (#[trigger] child.lookup(&m1, w)).is_some() && parent.lookup(&m1, w).is_some(),
            forall|w: int| 0 <= w < VPN_LIMIT && (#[trigger] child.lookup(&m1, w)).is_some() ==> !m0@.allocated(child.data_frame(&m1, w)),
            forall|q: int, j: int| m0@.allocated(q) && 0 <= j < PAGE_SIZE ==> #[trigger] mem.byte(q, j) == m1.byte(q, j),
            forall|w: int, j: int| 0 <= w < VPN_LIMIT && child.lookup(&m1, w).is_some() && !(s <= w < v) && 0 <= j < PAGE_SIZE ==>
                #[trigger] mem.byte(child.data_frame(&m1, w), j) == m1.byte(child.data_frame(&m1, w), j),
            forall|w: int, o: int| s <= w < v && 0 <= o < PAGE_SIZE ==>
                #[trigger] mem.byte(child.data_frame(&m1, w), o) == mem.byte(parent.data_frame(&m1, w), o),
        decreases e - v,
    {
        proof {
            assert(child.lookup(mem, v as int) == child.lookup(&m1, v as int));
            assert(parent.lookup(mem, v as int) == parent.lookup(&m1, v as int));
        }
        let pf = parent.translate(mem, v).unwrap().ppn();
        let cf = child.translate(mem, v).unwrap().ppn();
        let ghost m2 = *mem;
        proof {
            assert(!m0@.allocated(cf as int));
            assert(m0@.allocated(pf as int) && m0@.in_range(pf as int)) by {
                parent.lemma_data_frames(&m0@);
                assert(parent.lookup(&m0@, v as int).is_some());
                m0@.lemma_allocated_in_range(pf as int);
            }
            assert(m2.in_range(cf as int)) by {
                child.lemma_data_frames(&m2);
            }
        }
        copy_page(mem, pf, cf);
        proof {
            assert forall|q: int, j: int| parent.table().owns(q) && 0 <= j < PTES_PER_FRAME implies #[trigger] mem.entry(q, j) == m2.entry(q, j) by {
                parent.lemma_data_frames(&m2);
                assert(m2.in_range(q));
            }
            assert forall|q: int, j: int| child.table().owns(q) && 0 <= j < PTES_PER_FRAME implies #[trigger] mem.entry(q, j) == m2.entry(q, j) by {
                child.lemma_data_frames(&m2);
                assert(m2.in_range(q));
            }
            parent.lemma_wf_frame(&m2, mem);
            child.lemma_wf_frame(&m2, mem);
            assert forall|q: int, j: int| m0@.allocated(q) && 0 <= j < PAGE_SIZE implies #[trigger] mem.byte(q, j) == m1.byte(q, j) by {
                m0@.lemma_allocated_in_range(q);
                assert(q != cf as int);
                assert(mem.byte(q, j) == m2.byte(q, j));
            }
            assert forall|w: int, j: int| 0 <= w < VPN_LIMIT && child.lookup(&m1, w).is_some() && !(s <= w < v + 1) && 0 <= j < PAGE_SIZE implies
                #[trigger] mem.byte(child.data_frame(&m1, w), j) == m1.byte(child.data_frame(&m1, w), j) by {
                let cw = child.data_frame(&m1, w);
                assert(child.lookup(&m2, w) == child.lookup(&m1, w));
                assert(child.lookup(&m2, v as int) == child.lookup(&m1, v as int));
                assert(w != v as int);
                assert(cw != cf as int) by {
                    child.lemma_data_frames(&m2);
                }
                assert(m2.in_range(cw)) by {
                    child.lemma_data_frames(&m2);
                }
                assert(mem.byte(cw, j) == m2.byte(cw, j));
            }
            assert forall|w: int, o: int| s <= w < v + 1 && 0 <= o < PAGE_SIZE implies
                #[trigger] mem.byte(child.data_frame(&m1, w), o) == mem.byte(parent.data_frame(&m1, w), o) by {
                let cw = child.data_frame(&m1, w);
                let pw = parent.data_frame(&m1, w);
                assert(child.lookup(&m2, w) == child.lookup(&m1, w));
                assert(parent.lookup(&m2, w) == parent.lookup(&m1, w));
                if w == v as int {
                    assert(mem.byte(pf as int, o) == m2.byte(pf as int, o));
                } else {
                    assert(w != v as int);
                    assert(cw != cf as int && m2.in_range(cw)) by {
                        child.lemma_data_frames(&m2);
                    }
                    assert(m0@.allocated(pw) && m0@.in_range(pw)) by {
                        parent.lemma_data_frames(&m0@);
                        assert(parent.lookup(&m0@, w).is_some());
                        m0@.lemma_allocated_in_range(pw);
                    }
                    assert(mem.byte(cw, o) == m2.byte(cw, o));
                    assert(mem.byte(pw, o) == m2.byte(pw, o));
                }
            }
        }
        v = v + 1;
    }
}

impl MemorySet {
    /// A copy of address space `parent`: the same areas, each page backed by a fresh
    /// frame holding the same bytes. The parent keeps its translations and bytes.
    /// `None` when memory runs short; the frames taken by then stay allocated.
    #[verifier::rlimit(100)]
    #[verifier::spinoff_prover]
    pub fn from_existed_user(parent: &MemorySet, mem: &mut PhysMem) -> (r: Option<MemorySet>)
        requires
            parent.wf(old(mem)),
        ensures
            parent.wf(final(mem)),
            forall|v: int| #[trigger] parent.lookup(final(mem), v) == parent.lookup(old(mem), v),
            forall|q: int, j: int| old(mem).allocated(q) && 0 <= j < PAGE_SIZE ==> #[trigger] final(mem).byte(q, j) == old(mem).byte(q, j),
            old(mem).free_count() >= fork_need(parent) ==> r.is_some(),
            r matches Some(c) ==> {
                &&& c.wf(final(mem))
                &&& forall|v: int, w: int|
                    0 <= v < VPN_LIMIT && 0 <= w < VPN_LIMIT && (#[trigger] parent.lookup(final(mem), v)).is_some() && (#[trigger] parent.lookup(final(mem), w)).is_some()
                        ==> c.data_frame(final(mem), v) != parent.data_frame(final(mem), w)
                &&& c.area_seq() == parent.area_seq()
                &&& forall|v: int| 0 <= v < VPN_LIMIT ==> (#[trigger] c.lookup(final(mem), v)).is_some() == parent.lookup(final(mem), v).is_some()
                &&& forall|v: int| 0 <= v < VPN_LIMIT && parent.lookup(final(mem), v).is_some() ==>
                    (#[trigger] c.lookup(final(mem), v)).unwrap().flags_of() == parent.lookup(final(mem), v).unwrap().flags_of()
                &&& forall|v: int, o: int| 0 <= v < VPN_LIMIT && parent.lookup(final(mem), v).is_some() && 0 <= o < PAGE_SIZE ==>
                    #[trigger] final(mem).byte(c.data_frame(final(mem), v), o) == final(mem).byte(parent.data_frame(final(mem), v), o)
            },
    {
        let ghost m0 = *mem;
        let ghost pa = parent.area_seq();
        proof {
            parent.lemma_data_frames(mem);
            assert(m0 == *old(mem));
        }
        proof {
            assert forall|k: int| 0 <= k < pa.len() implies (#[trigger] pa[k]).start_vpn <= pa[k].end_vpn by {
                parent.lemma_area_bounds(&m0, k);
            }
            lemma_areas_pages_nonneg(pa);
        }
        let mut child = match MemorySet::new_bare(mem) {
            None => {
                return None;
            },
            Some(c) => c,
        };
        proof {
            child.lemma_data_frames(mem);
            assert forall|q: int, j: int| parent.table().owns(q) && 0 <= j < PTES_PER_FRAME implies #[trigger] mem.entry(q, j) == m0.entry(q, j) by {
                parent.lemma_data_frames(&m0);
            }
            parent.lemma_wf_frame(&m0, mem);
            child.lemma_data_frames(mem);
            assert(pa.subrange(0, pa.len() as int) =~= pa);
        }
        let mut i: usize = 0;
        while i < parent.areas().len()
            invariant
                m0 == *old(mem),
                mem.wf(),
                m0.wf(),
                parent.wf(&m0),
                parent.wf(mem),
                child.wf(mem),
                pa == parent.area_seq(),
                i <= pa.len(),
                forall|k: int| 0 <= k < pa.len() ==> (#[trigger] pa[k]).start_vpn <= pa[k].end_vpn,
                m0.free_count() >= fork_need(parent) ==> mem.free_count() >= 3 * areas_pages(pa.subrange(i as int, pa.len() as int)),
                forall|q: int| mem.in_range(q) == m0.in_range(q),
                forall|v: int| #[trigger] parent.lookup(mem, v) == parent.lookup(&m0, v),
                forall|q: int| #[trigger] m0.allocated(q) ==> mem.allocated(q),
                forall|q: int, j: int| m0.allocated(q) && 0 <= j < PAGE_SIZE ==> #[trigger] mem.byte(q, j) == m0.byte(q, j),
                forall|q: int| #[trigger] child.table().owns(q) ==> !m0.allocated(q),
                child.area_seq() == pa.subrange(0, i as int),
                forall|v: int| 0 <= v < VPN_LIMIT && (#[trigger] child.lookup(mem, v)).is_some() ==> !m0.allocated(child.data_frame(mem, v)),
                forall|v: int| 0 <= v < VPN_LIMIT && (#[trigger] child.lookup(mem, v)).is_some() ==> {
                    &&& parent.lookup(mem, v).is_some()
                    &&& child.lookup(mem, v).unwrap().flags_of() == parent.lookup(mem, v).unwrap().flags_of()
                    &&& forall|o: int| 0 <= o < PAGE_SIZE ==> #[trigger] mem.byte(child.data_frame(mem, v), o) == mem.byte(parent.data_frame(mem, v), o)
                },
            decreases pa.len() - i,
        {
            let a = parent.areas()[i];
            proof {
                parent.lemma_area_bounds(&m0, i as int);
            }
            let ghost m1 = *mem;
            let ghost c1 = child;
            proof {
                lemma_areas_pages_split(pa, i as int);
                let rest = pa.subrange(i as int + 1, pa.len() as int);
                assert forall|k: int| 0 <= k < rest.len() implies (#[trigger] rest[k]).start_vpn <= rest[k].end_vpn by {
                    assert(rest[k] == pa[k + i + 1]);
                }
                lemma_areas_pages_nonneg(rest);
                assert forall|w: int| a.start_vpn <= w < a.end_vpn implies (#[trigger] c1.lookup(&m1, w)).is_none() by {
                    c1.lemma_mapped_iff_in_area(&m1, w);
                    if covered(c1.area_seq(), w) {
                        let j = choose|j: int| 0 <= j < c1.area_seq().len() && in_area(#[trigger] c1.area_seq()[j], w);
                        assert(c1.area_seq()[j] == pa[j]);
                        parent.lemma_areas_disjoint(&m0, i as int, j, w);
                    }
                }
            }
            if child.map_area(mem, a.start_vpn, a.end_vpn, a.perm) != 0 {
                proof {
                    assert(*mem == m1);
                    assert forall|w: int| #[trigger] parent.lookup(mem, w) == parent.lookup(&m0, w) by {
                        assert(parent.lookup(&m1, w) == parent.lookup(&m0, w));
                    }
                    assert forall|q: int, j: int| m0.allocated(q) && 0 <= j < PAGE_SIZE implies #[trigger] mem.byte(q, j) == m0.byte(q, j) by {
                        assert(m1.byte(q, j) == m0.byte(q, j));
                    }
                }
                return None;
            }
            proof {
                assert forall|q: int, j: int| parent.table().owns(q) && 0 <= j < PTES_PER_FRAME implies #[trigger] mem.entry(q, j) == m1.entry(q, j) by {
                    parent.lemma_data_frames(&m1);
                    assert(m1.allocated(q));
                    parent.lemma_data_frames(&m0);
                    assert(m0.allocated(q));
                    assert(!c1.table().owns(q));
                }
                child.lemma_data_frames(mem);
                parent.lemma_wf_frame(&m1, mem);
            }
            proof {
                assert forall|w: int| a.start_vpn <= w < a.end_vpn implies (#[trigger] child.lookup(mem, w)).is_some() && parent.lookup(mem, w).is_some() by {
                    assert(in_area(pa[i as int], w));
                    assert(covered(child.area_seq(), w)) by {
                        assert(child.area_seq()[i as int] == pa[i as int]);
                    }
                    assert(covered(parent.area_seq(), w));
                    child.lemma_mapped_iff_in_area(mem, w);
                    parent.lemma_mapped_iff_in_area(mem, w);
                }
                assert forall|w: int| 0 <= w < VPN_LIMIT && (#[trigger] child.lookup(mem, w)).is_some() && !(a.start_vpn <= w < a.end_vpn) implies {
                    &&& parent.lookup(mem, w).is_some()
                    &&& child.lookup(mem, w).unwrap().flags_of() == parent.lookup(mem, w).unwrap().flags_of()
                    &&& forall|o: int| 0 <= o < PAGE_SIZE ==> #[trigger] mem.byte(child.data_frame(mem, w), o) == mem.byte(parent.data_frame(mem, w), o)
                } by {
                    assert(child.lookup(mem, w) == c1.lookup(&m1, w));
                    assert(parent.lookup(mem, w) == parent.lookup(&m1, w));
                    let cw = child.data_frame(mem, w);
                    let pw = parent.data_frame(mem, w);
                    assert(m1.allocated(cw) && m1.in_range(cw)) by {
                        c1.lemma_data_frames(&m1);
                    }
                    assert(m0.allocated(pw) && m0.in_range(pw)) by {
                        parent.lemma_data_frames(&m0);
                        m0.lemma_allocated_in_range(pw);
                    }
                    assert forall|o: int| 0 <= o < PAGE_SIZE implies #[trigger] mem.byte(cw, o) == mem.byte(pw, o) by {
                        assert(mem.byte(cw, o) == m1.byte(cw, o));
                        assert(mem.byte(pw, o) == m1.byte(pw, o));
                    }
                }
            }
            let ghost m3 = *mem;
            copy_area(parent, &child, mem, a.start_vpn, a.end_vpn, Ghost(m0));
            proof {
                assert(mem.free_count() == m3.free_count());
                assert(child.area_seq() =~= pa.subrange(0, i as int + 1));
                assert forall|w: int| 0 <= w < VPN_LIMIT && (#[trigger] child.lookup(mem, w)).is_some() implies {
                    &&& parent.lookup(mem, w).is_some()
                    &&& child.lookup(mem, w).unwrap().flags_of() == parent.lookup(mem, w).unwrap().flags_of()
                    &&& forall|o: int| 0 <= o < PAGE_SIZE ==> #[trigger] mem.byte(child.data_frame(mem, w), o) == mem.byte(parent.data_frame(mem, w), o)
                } by {
                    assert(child.lookup(mem, w) == child.lookup(&m3, w));
                    assert(parent.lookup(mem, w) == parent.lookup(&m3, w));
                    if !(a.start_vpn <= w < a.end_vpn) {
                        let cw = child.data_frame(mem, w);
                        let pw = parent.data_frame(mem, w);
                        assert(m0.allocated(pw)) by {
                            parent.lemma_data_frames(&m0);
                            assert(parent.lookup(&m0, w).is_some());
                        }
                        assert forall|o: int| 0 <= o < PAGE_SIZE implies #[trigger] mem.byte(cw, o) == mem.byte(pw, o) by {
                            assert(mem.byte(cw, o) == m3.byte(cw, o));
                            assert(mem.byte(pw, o) == m3.byte(pw, o));
                            assert(m3.byte(cw, o) == m3.byte(pw, o));
                        }
                    } else {
                        parent.lemma_area_flags(mem, i as int, w);
                        assert forall|o: int| 0 <= o < PAGE_SIZE implies #[trigger] mem.byte(child.data_frame(mem, w), o) == mem.byte(parent.data_frame(mem, w), o) by {
                            assert(mem.byte(child.data_frame(mem, w), o) == mem.byte(parent.data_frame(mem, w), o));
                        }
                    }
                }
            }
            i = i + 1;
        }
        proof {
            assert(pa.subrange(0, pa.len() as int) =~= pa);
            assert forall|v: int, w: int|
                0 <= v < VPN_LIMIT && 0 <= w < VPN_LIMIT && (#[trigger] parent.lookup(mem, v)).is_some() && (#[trigger] parent.lookup(mem, w)).is_some()
                    implies child.data_frame(mem, v) != parent.data_frame(mem, w) by {
                parent.lemma_mapped_iff_in_area(mem, v);
                child.lemma_mapped_iff_in_area(mem, v);
                assert(child.lookup(mem, v).is_some());
                assert(!m0.allocated(child.data_frame(mem, v)));
                parent.lemma_data_frames(&m0);
                assert(parent.lookup(&m0, w).is_some());
            }
            assert forall|v: int| 0 <= v < VPN_LIMIT implies (#[trigger] child.lookup(mem, v)).is_some() == parent.lookup(mem, v).is_some() by {
                parent.lemma_mapped_iff_in_area(mem, v);
                child.lemma_mapped_iff_in_area(mem, v);
            }
        }
        Some(child)
    }
}

} // verus!

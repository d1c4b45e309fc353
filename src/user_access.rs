//! Reading and writing another address space given only its token.
use vstd::prelude::*;

use crate::config::{PAGE_SIZE, PPN_LIMIT, VA_LIMIT};
use crate::frame::PhysMem;
use crate::page_table::{walk, PageTable};

verus! {

/// A kernel-addressable piece of user memory: bytes `[start, end)` of frame `ppn`.
#[derive(Clone, Copy, PartialEq, Eq, Structural)]
pub struct UserSlice {
    pub ppn: u64,
    pub start: usize,
    pub end: usize,
}

impl UserSlice {
    pub open spec fn len_spec(self) -> int {
        self.end - self.start
    }

    pub fn len(&self) -> (r: usize)
        requires
            self.start <= self.end,
        ensures
            r == self.len_spec(),
    {
        self.end - self.start
    }
}

/// The pieces of the user range `[a, a + len)` split at page boundaries, in order:
/// each is (virtual page, first offset, end offset).
pub open spec fn chunks(a: int, len: int) -> Seq<(int, int, int)>
    decreases len,
{
    if len <= 0 {
        Seq::empty()
    } else {
        let off = a % PAGE_SIZE as int;
        let n = if PAGE_SIZE - off < len {
            PAGE_SIZE - off
        } else {
            len
        };
        seq![(a / PAGE_SIZE as int, off, off + n)].add(chunks(a + n, len - n))
    }
}

/// The total length of a list of pieces.
pub open spec fn chunks_total(cs: Seq<(int, int, int)>) -> int
    decreases cs.len(),
{
    if cs.len() == 0 {
        0
    } else {
        (cs[0].2 - cs[0].1) + chunks_total(cs.drop_first())
    }
}

/// The root PPN named by a satp-format token.
pub open spec fn token_root(token: int) -> int {
    token % PPN_LIMIT as int
}

/// The frame backing user page `vpn`, as the table under `token` maps it.
pub open spec fn backing(mem: &PhysMem, token: int, vpn: int) -> int {
    walk(mem, token_root(token), vpn).unwrap().ppn_of()
}

/// Every page of the user range is mapped under `token`, to a frame of the pool.
pub open spec fn range_mapped(mem: &PhysMem, token: int, a: int, len: int) -> bool {
    forall|k: int|
        0 <= k < chunks(a, len).len() ==> {
            &&& (#[trigger] walk(mem, token_root(token), chunks(a, len)[k].0)).is_some()
            &&& mem.in_range(backing(mem, token, chunks(a, len)[k].0))
        }
}

/// The total length of a list of slices.
pub open spec fn slices_total(s: Seq<UserSlice>) -> int
    decreases s.len(),
{
    if s.len() == 0 {
        0
    } else {
        s[0].len_spec() + slices_total(s.drop_first())
    }
}

/// The slice that stands for one piece.
pub open spec fn slice_of(mem: &PhysMem, token: int, c: (int, int, int)) -> UserSlice {
    UserSlice { ppn: backing(mem, token, c.0) as u64, start: c.1 as usize, end: c.2 as usize }
}

/// The pieces of a range cover it exactly: their lengths add up to its length,
/// and each lies inside one page.
pub proof fn lemma_chunks_cover(a: int, len: int)
    requires
        0 <= a,
        0 <= len,
    ensures
        chunks_total(chunks(a, len)) == len,
        forall|k: int|
            0 <= k < chunks(a, len).len() ==> 0 <= (#[trigger] chunks(a, len)[k]).1 < chunks(
                a,
                len,
            )[k].2 <= PAGE_SIZE,
    decreases len,
{
    if len > 0 {
        let off = a % PAGE_SIZE as int;
        let n = if PAGE_SIZE - off < len {
            PAGE_SIZE - off
        } else {
            len
        };
        lemma_chunks_cover(a + n, len - n);
        let cs = chunks(a, len);
        assert(cs.drop_first() =~= chunks(a + n, len - n));
        assert forall|k: int| 0 <= k < cs.len() implies 0 <= (#[trigger] cs[k]).1 < cs[k].2 <= PAGE_SIZE by {
            if k > 0 {
                assert(cs[k] == chunks(a + n, len - n)[k - 1]);
            }
        }
    }
}

/// Splits the user range `[ptr, ptr + len)` of the address space under `token`
/// into kernel-addressable slices, one per page touched, in order.
pub fn translated_byte_buffer(mem: &PhysMem, token: u64, ptr: u64, len: u64) -> (r: Vec<UserSlice>)
    requires
        mem.wf(),
        ptr + len <= VA_LIMIT,
        range_mapped(mem, token as int, ptr as int, len as int),
    ensures
        r@ == chunks(ptr as int, len as int).map_values(|c| slice_of(mem, token as int, c)),
        slices_ok(mem, r@),
        slices_total(r@) == len,
        targets(r@).len() == len,
{
    let page_table = PageTable::from_token(token);
    let mut start = ptr;
    let end = ptr + len;
    let mut v: Vec<UserSlice> = Vec::new();
    let ghost all = chunks(ptr as int, len as int);
    let ghost done: Seq<(int, int, int)> = Seq::empty();
    while start < end
        invariant
            mem.wf(),
            ptr <= start <= end,
            end == ptr + len,
            end <= VA_LIMIT,
            page_table.root() == token_root(token as int),
            all == chunks(ptr as int, len as int),
            range_mapped(mem, token as int, ptr as int, len as int),
            all == done + chunks(start as int, end - start),
            v@ == done.map_values(|c| slice_of(mem, token as int, c)),
        decreases end - start,
    {
        let ghost rest = chunks(start as int, end - start);
        let ghost k = done.len() as int;
        assert(all[k] == rest[0]);
        let vpn = start / 4096;
        let e = page_table.translate(mem, vpn);
        assert(walk(mem, token_root(token as int), all[k].0).is_some());
        let ppn = e.unwrap().ppn();
        let off = start % 4096;
        let step = if 4096 - off < end - start {
            4096 - off
        } else {
            end - start
        };
        v.push(UserSlice { ppn, start: off as usize, end: (off + step) as usize });
        proof {
            assert(rest.drop_first() =~= chunks(start + step, end - (start + step)));
            assert(all =~= done.push(rest[0]) + rest.drop_first());
            done = done.push(rest[0]);
            assert(v@ =~= done.map_values(|c| slice_of(mem, token as int, c)));
        }
        start = start + step;
    }
    proof {
        assert(done =~= all);
        lemma_chunks_cover(ptr as int, len as int);
        lemma_slices_total(mem, token as int, ptr as int, len as int);
        lemma_targets_total(v@);
        assert forall|k: int| 0 <= k < v@.len() implies (#[trigger] v@[k]).start <= v@[k].end <= PAGE_SIZE && mem.in_range(v@[k].ppn as int) by {
            let c = all[k];
            assert(v@[k] == slice_of(mem, token as int, c));
            lemma_backing_bound(mem, token as int, c.0);
        }
    }
    v
}

proof fn lemma_backing_bound(mem: &PhysMem, token: int, vpn: int)
    requires
        mem.wf(),
        mem.in_range(backing(mem, token, vpn)),
    ensures
        0 <= backing(mem, token, vpn) < PPN_LIMIT,
{
    mem.lemma_in_range_bound(backing(mem, token, vpn));
}

/// The slices of a range have lengths adding up to the range's length.
pub proof fn lemma_slices_total(mem: &PhysMem, token: int, a: int, len: int)
    requires
        0 <= a,
        0 <= len,
    ensures
        slices_total(chunks(a, len).map_values(|c| slice_of(mem, token, c))) == len,
    decreases len,
{
    if len > 0 {
        let off = a % PAGE_SIZE as int;
        let n = if PAGE_SIZE - off < len {
            PAGE_SIZE - off
        } else {
            len
        };
        lemma_slices_total(mem, token, a + n, len - n);
        let s = chunks(a, len).map_values(|c| slice_of(mem, token, c));
        assert(s.drop_first() =~= chunks(a + n, len - n).map_values(|c| slice_of(mem, token, c)));
    }
}

/// The physical bytes of a list of slices are as many as their total length.
proof fn lemma_targets_total(s: Seq<UserSlice>)
    requires
        forall|k: int| 0 <= k < s.len() ==> (#[trigger] s[k]).start <= s[k].end,
    ensures
        targets(s).len() == slices_total(s),
    decreases s.len(),
{
    if s.len() > 0 {
        let r = s.drop_first();
        assert forall|k: int| 0 <= k < r.len() implies (#[trigger] r[k]).start <= r[k].end by {
            assert(r[k] == s[k + 1]);
        }
        lemma_targets_total(r);
        let h = seq![s[0]];
        assert(s =~= h + r);
        lemma_targets_append(h, r);
        assert(h.drop_last() =~= Seq::<UserSlice>::empty());
        assert(targets(h.drop_last()).len() == 0);
        assert(h.last() == s[0]);
        assert(s[0].start <= s[0].end);
        assert(targets(h).len() == s[0].end - s[0].start);
    }
}

/// The slices for a value of `size` bytes at user address `ptr`, which may span pages.
pub fn translated_large_type(mem: &PhysMem, token: u64, ptr: u64, size: u64) -> (r: Vec<UserSlice>)
    requires
        mem.wf(),
        ptr + size <= VA_LIMIT,
        range_mapped(mem, token as int, ptr as int, size as int),
    ensures
        r@ == translated_spec(mem, token as int, ptr as int, size as int),
        slices_ok(mem, r@),
        slices_total(r@) == size,
        targets(r@).len() == size,
{
    translated_byte_buffer(mem, token, ptr, size)
}

/// The physical bytes, as (frame, offset), that a list of slices covers, in order.
pub open spec fn targets(s: Seq<UserSlice>) -> Seq<(int, int)>
    decreases s.len(),
{
    if s.len() == 0 {
        Seq::empty()
    } else {
        let l = s.last();
        targets(s.drop_last()) + Seq::new(
            (l.end - l.start) as nat,
            |k: int| (l.ppn as int, l.start + k),
        )
    }
}

/// Every slice lies inside one frame of the pool.
pub open spec fn slices_ok(mem: &PhysMem, s: Seq<UserSlice>) -> bool {
    forall|k: int|
        0 <= k < s.len() ==> {
            &&& (#[trigger] s[k]).start <= s[k].end <= PAGE_SIZE
            &&& mem.in_range(s[k].ppn as int)
        }
}

proof fn lemma_targets_in_range(mem: &PhysMem, s: Seq<UserSlice>)
    requires
        slices_ok(mem, s),
    ensures
        forall|i: int|
            0 <= i < targets(s).len() ==> mem.in_range(#[trigger] targets(s)[i].0) && 0 <= targets(
                s,
            )[i].1 < PAGE_SIZE,
    decreases s.len(),
{
    if s.len() > 0 {
        let d = s.drop_last();
        assert forall|k: int| 0 <= k < d.len() implies (#[trigger] d[k]).start <= d[k].end <= PAGE_SIZE && mem.in_range(d[k].ppn as int) by {
            assert(d[k] == s[k]);
        }
        lemma_targets_in_range(mem, d);
        assert(s[s.len() - 1] == s.last());
        assert forall|i: int| 0 <= i < targets(s).len() implies mem.in_range(#[trigger] targets(s)[i].0) && 0 <= targets(s)[i].1 < PAGE_SIZE by {
            if i < targets(d).len() {
                assert(targets(s)[i] == targets(d)[i]);
            }
        }
    }
}

/// Copies `data` across `bufs` in order. Where two slices cover the same physical
/// byte, the later write stays; every byte outside the slices is unchanged.
pub fn copy_type_into_bufs(mem: &mut PhysMem, data: &Vec<u8>, bufs: &Vec<UserSlice>)
    requires
        old(mem).wf(),
        slices_ok(old(mem), bufs@),
        targets(bufs@).len() == data@.len(),
    ensures
        final(mem).wf(),
        final(mem).free_count() == old(mem).free_count(),
        forall|q: int| final(mem).in_range(q) == old(mem).in_range(q),
        forall|q: int| final(mem).allocated(q) == old(mem).allocated(q),
        final(mem).same_entries(old(mem)),
        forall|i: int|
            0 <= i < data@.len() && (forall|j: int|
                i < j < data@.len() ==> targets(bufs@)[j] != targets(bufs@)[i]) ==> final(mem).byte(
                #[trigger] targets(bufs@)[i].0,
                targets(bufs@)[i].1,
            ) == data@[i],
        forall|q: int, o: int|
            old(mem).in_range(q) && 0 <= o < PAGE_SIZE && !targets(bufs@).contains((q, o))
                ==> #[trigger] final(mem).byte(q, o) == old(mem).byte(q, o),
{
    let ghost m0 = *mem;
    let ghost t = targets(bufs@);
    let n = data.len();
    let mut offset: usize = 0;
    let mut s: usize = 0;
    proof {
        lemma_targets_in_range(&m0, bufs@);
    }
    while s < bufs.len()
        invariant
            mem.wf(),
            mem.free_count() == m0.free_count(),
            forall|q: int| mem.in_range(q) == m0.in_range(q),
            forall|q: int| mem.allocated(q) == m0.allocated(q),
            mem.same_entries(&m0),
            slices_ok(&m0, bufs@),
            t == targets(bufs@),
            t.len() == data@.len(),
            n == data@.len(),
            s <= bufs@.len(),
            offset == targets(bufs@.subrange(0, s as int)).len(),
            t.subrange(0, offset as int) == targets(bufs@.subrange(0, s as int)),
            forall|i: int|
                0 <= i < offset && (forall|j: int| i < j < offset ==> t[j] != t[i]) ==> mem.byte(
                    #[trigger] t[i].0,
                    t[i].1,
                ) == data@[i],
            forall|q: int, o: int|
                m0.in_range(q) && 0 <= o < PAGE_SIZE && !t.subrange(0, offset as int).contains((q, o))
                    ==> #[trigger] mem.byte(q, o) == m0.byte(q, o),
        decreases bufs@.len() - s,
    {
        let b = bufs[s];
        let ghost pre = bufs@.subrange(0, s as int);
        let ghost nxt = bufs@.subrange(0, s as int + 1);
        proof {
            assert(nxt.drop_last() =~= pre);
            assert(nxt.last() == b);
            assert(bufs@ =~= nxt + bufs@.subrange(s as int + 1, bufs@.len() as int));
            lemma_targets_append(nxt, bufs@.subrange(s as int + 1, bufs@.len() as int));
            assert(t.subrange(0, targets(nxt).len() as int) =~= targets(nxt));
            assert(targets(nxt) == targets(pre) + Seq::new((b.end - b.start) as nat, |j: int| (b.ppn as int, b.start + j)));
        }
        let mut k: usize = b.start;
        while k < b.end
            invariant
                mem.wf(),
                mem.free_count() == m0.free_count(),
                forall|q: int| mem.in_range(q) == m0.in_range(q),
                forall|q: int| mem.allocated(q) == m0.allocated(q),
                mem.same_entries(&m0),
                slices_ok(&m0, bufs@),
                t == targets(bufs@),
                t.len() == data@.len(),
                n == data@.len(),
                s < bufs@.len(),
                b == bufs@[s as int],
                b.start <= k <= b.end,
                pre == bufs@.subrange(0, s as int),
                nxt == bufs@.subrange(0, s as int + 1),
                targets(nxt) == targets(pre) + Seq::new((b.end - b.start) as nat, |j: int| (b.ppn as int, b.start + j)),
                t.subrange(0, targets(nxt).len() as int) == targets(nxt),
                targets(nxt).len() <= t.len(),
                offset == targets(pre).len() + (k - b.start),
                forall|i: int|
                    0 <= i < offset && (forall|j: int| i < j < offset ==> t[j] != t[i]) ==> mem.byte(
                        #[trigger] t[i].0,
                        t[i].1,
                    ) == data@[i],
                forall|q: int, o: int|
                    m0.in_range(q) && 0 <= o < PAGE_SIZE && !t.subrange(0, offset as int).contains((q, o))
                        ==> #[trigger] mem.byte(q, o) == m0.byte(q, o),
            decreases b.end - k,
        {
            let ghost before = *mem;
            proof {
                assert(t[offset as int] == targets(nxt)[offset as int]);
                assert(t[offset as int] == (b.ppn as int, k as int));
            }
            assert(offset < data@.len());
            mem.write_byte(b.ppn, k, data[offset]);
            proof {
                let w = offset as int;
                assert forall|i: int|
                    0 <= i < w + 1 && (forall|j: int| i < j < w + 1 ==> t[j] != t[i]) implies mem.byte(
                        #[trigger] t[i].0,
                        t[i].1,
                    ) == data@[i] by {
                    if i < w {
                        assert(t[w] != t[i]);
                        lemma_targets_in_range(&m0, bufs@);
                        assert(m0.in_range(t[i].0));
                        if t[i].0 == b.ppn as int {
                            assert(t[i].1 != k as int);
                        }
                    }
                }
                assert forall|q: int, o: int|
                    m0.in_range(q) && 0 <= o < PAGE_SIZE && !t.subrange(0, w + 1).contains((q, o))
                        implies #[trigger] mem.byte(q, o) == m0.byte(q, o) by {
                    assert(t.subrange(0, w + 1)[w] == t[w]);
                    if t.subrange(0, w).contains((q, o)) {
                        let z = choose|z: int| 0 <= z < w && t.subrange(0, w)[z] == (q, o);
                        assert(t.subrange(0, w + 1)[z] == (q, o));
                    }
                    assert(before.byte(q, o) == m0.byte(q, o));
                }
            }
            offset = offset + 1;
            k = k + 1;
        }
        s = s + 1;
    }
    proof {
        assert(bufs@.subrange(0, s as int) =~= bufs@);
    }
}

proof fn lemma_targets_append(a: Seq<UserSlice>, b: Seq<UserSlice>)
    ensures
        targets(a + b) == targets(a) + targets(b),
    decreases b.len(),
{
    if b.len() == 0 {
        assert(a + b =~= a);
        assert(targets(a) + targets(b) =~= targets(a));
    } else {
        let c = a + b;
        assert(c.drop_last() =~= a + b.drop_last());
        assert(c.last() == b.last());
        lemma_targets_append(a, b.drop_last());
        let l = b.last();
        let tail = Seq::new((l.end - l.start) as nat, |k: int| (l.ppn as int, l.start + k));
        assert(targets(a) + targets(b.drop_last()) + tail =~= targets(a) + (targets(b.drop_last()) + tail));
    }
}

/// The byte at user address `va` under `token`, if its page is mapped to a frame of the pool.
pub open spec fn user_byte(mem: &PhysMem, token: int, va: int) -> Option<u8> {
    if !(0 <= va < VA_LIMIT) {
        None
    } else {
        match walk(mem, token_root(token), va / PAGE_SIZE as int) {
            Some(e) => if mem.in_range(e.ppn_of()) {
                Some(mem.byte(e.ppn_of(), va % PAGE_SIZE as int))
            } else {
                None
            },
            None => None,
        }
    }
}

/// Reads one user byte.
pub fn read_user_byte(mem: &PhysMem, token: u64, va: u64) -> (r: Option<u8>)
    requires
        mem.wf(),
    ensures
        r == user_byte(mem, token as int, va as int),
{
    if va >= VA_LIMIT {
        return None;
    }
    let page_table = PageTable::from_token(token);
    match page_table.translate(mem, va / 4096) {
        Some(e) => {
            let p = e.ppn();
            if mem.contains(p) {
                Some(mem.read_byte(p, (va % 4096) as usize))
            } else {
                None
            }
        },
        None => None,
    }
}

/// `s` is the NUL-terminated user string at `ptr`: its bytes are readable and
/// nonzero, and a readable NUL follows them.
pub open spec fn is_user_str(mem: &PhysMem, token: int, ptr: int, s: Seq<u8>) -> bool {
    &&& forall|i: int| 0 <= i < s.len() ==> user_byte(mem, token, ptr + i) == Some(#[trigger] s[i]) && s[i] != 0
    &&& user_byte(mem, token, ptr + s.len()) == Some(0u8)
}

/// The NUL-terminated user string at `ptr`, without the NUL, if it can be read.
pub open spec fn user_str(mem: &PhysMem, token: int, ptr: int) -> Option<Seq<u8>> {
    if exists|s: Seq<u8>| is_user_str(mem, token, ptr, s) {
        Some(choose|s: Seq<u8>| is_user_str(mem, token, ptr, s))
    } else {
        None
    }
}

/// At most one string sits at an address.
pub proof fn lemma_user_str_unique(mem: &PhysMem, token: int, ptr: int, s1: Seq<u8>, s2: Seq<u8>)
    requires
        is_user_str(mem, token, ptr, s1),
        is_user_str(mem, token, ptr, s2),
    ensures
        s1 == s2,
{
    if s1.len() < s2.len() {
        assert(user_byte(mem, token, ptr + s1.len()) == Some(s2[s1.len() as int]));
    } else if s2.len() < s1.len() {
        assert(user_byte(mem, token, ptr + s2.len()) == Some(s1[s2.len() as int]));
    } else {
        assert forall|i: int| 0 <= i < s1.len() implies s1[i] == s2[i] by {
            assert(user_byte(mem, token, ptr + i) == Some(s1[i]));
            assert(user_byte(mem, token, ptr + i) == Some(s2[i]));
        }
        assert(s1 =~= s2);
    }
}

/// Reads the NUL-terminated user string at `ptr`, without the NUL. `None` when a
/// byte before the NUL cannot be read.
pub fn translated_str(mem: &PhysMem, token: u64, ptr: u64) -> (r: Option<Vec<u8>>)
    requires
        mem.wf(),
    ensures
        r matches Some(s) ==> {
            &&& forall|i: int|
                0 <= i < s@.len() ==> user_byte(mem, token as int, ptr + i) == Some(#[trigger] s@[i])
                    && s@[i] != 0
            &&& user_byte(mem, token as int, ptr + s@.len()) == Some(0u8)
        },
        match r {
            Some(s) => user_str(mem, token as int, ptr as int) == Some(s@),
            None => user_str(mem, token as int, ptr as int).is_none(),
        },
        r.is_none() ==> exists|n: int|
            0 <= n && (#[trigger] user_byte(mem, token as int, ptr + n)).is_none() && forall|i: int|
                0 <= i < n ==> ((#[trigger] user_byte(mem, token as int, ptr + i)) matches Some(b) && b != 0),
{
    let mut s: Vec<u8> = Vec::new();
    let mut va = ptr;
    loop
        invariant
            mem.wf(),
            va == ptr + s@.len(),
            forall|i: int|
                0 <= i < s@.len() ==> user_byte(mem, token as int, ptr + i) == Some(#[trigger] s@[i])
                    && s@[i] != 0,
        decreases u64::MAX - va,
    {
        match read_user_byte(mem, token, va) {
            None => {
                proof {
                    let n = s@.len() as int;
                    assert forall|i: int| 0 <= i < n implies ((#[trigger] user_byte(mem, token as int, ptr + i)) matches Some(b) && b != 0) by {
                        assert(user_byte(mem, token as int, ptr + i) == Some(s@[i]));
                    }
                    assert(user_byte(mem, token as int, ptr + n).is_none());
                    if exists|t: Seq<u8>| is_user_str(mem, token as int, ptr as int, t) {
                        let t = choose|t: Seq<u8>| is_user_str(mem, token as int, ptr as int, t);
                        if t.len() < n {
                            assert(user_byte(mem, token as int, ptr + t.len()) == Some(s@[t.len() as int]));
                        } else if t.len() > n {
                            assert(user_byte(mem, token as int, ptr + n) == Some(t[n]));
                        }
                    }
                }
                return None;
            },
            Some(ch) => {
                if ch == 0 {
                    proof {
                        assert(is_user_str(mem, token as int, ptr as int, s@));
                        let t = choose|t: Seq<u8>| is_user_str(mem, token as int, ptr as int, t);
                        lemma_user_str_unique(mem, token as int, ptr as int, s@, t);
                    }
                    return Some(s);
                }
                // a readable byte lies below the end of the address space, so `va + 1` fits
                s.push(ch);
                va = va + 1;
            },
        }
    }
}

/// Writes `data` to user memory at `ptr` under `token`, split across pages.
pub fn write_user_bytes(mem: &mut PhysMem, token: u64, ptr: u64, data: &Vec<u8>)
    requires
        old(mem).wf(),
        ptr + data@.len() <= VA_LIMIT,
        range_mapped(old(mem), token as int, ptr as int, data@.len() as int),
    ensures
        final(mem).wf(),
        final(mem).free_count() == old(mem).free_count(),
        forall|q: int| final(mem).in_range(q) == old(mem).in_range(q),
        forall|q: int| final(mem).allocated(q) == old(mem).allocated(q),
        final(mem).same_entries(old(mem)),
        forall|i: int|
            0 <= i < data@.len() && (forall|j: int|
                i < j < data@.len() ==> targets(translated_spec(old(mem), token as int, ptr as int, data@.len() as int))[j]
                    != targets(translated_spec(old(mem), token as int, ptr as int, data@.len() as int))[i])
                ==> final(mem).byte(
                #[trigger] targets(translated_spec(old(mem), token as int, ptr as int, data@.len() as int))[i].0,
                targets(translated_spec(old(mem), token as int, ptr as int, data@.len() as int))[i].1,
            ) == data@[i],
        forall|q: int, o: int|
            old(mem).in_range(q) && 0 <= o < PAGE_SIZE && !targets(translated_spec(old(mem), token as int, ptr as int, data@.len() as int)).contains((q, o))
                ==> #[trigger] final(mem).byte(q, o) == old(mem).byte(q, o),
{
    let bufs = translated_byte_buffer(mem, token, ptr, data.len() as u64);
    copy_type_into_bufs(mem, data, &bufs);
}

/// The slices that [`translated_byte_buffer`] returns.
pub open spec fn translated_spec(mem: &PhysMem, token: int, ptr: int, len: int) -> Seq<UserSlice> {
    chunks(ptr, len).map_values(|c| slice_of(mem, token, c))
}

/// Whether the user range `[ptr, ptr + len)` lies in the address space and every
/// page of it is mapped under `token` to a frame of the pool.
pub fn user_range_mapped(mem: &PhysMem, token: u64, ptr: u64, len: u64) -> (r: bool)
    requires
        mem.wf(),
    ensures
        r == (ptr + len <= VA_LIMIT && range_mapped(mem, token as int, ptr as int, len as int)),
{
    if ptr > VA_LIMIT || len > VA_LIMIT - ptr {
        return false;
    }
    let page_table = PageTable::from_token(token);
    let mut start = ptr;
    let end = ptr + len;
    let ghost all = chunks(ptr as int, len as int);
    let ghost done: Seq<(int, int, int)> = Seq::empty();
    while start < end
        invariant
            mem.wf(),
            ptr <= start <= end,
            end == ptr + len,
            end <= VA_LIMIT,
            page_table.root() == token_root(token as int),
            all == chunks(ptr as int, len as int),
            all == done + chunks(start as int, end - start),
            forall|k: int| 0 <= k < done.len() ==> {
                &&& (#[trigger] walk(mem, token_root(token as int), all[k].0)).is_some()
                &&& mem.in_range(backing(mem, token as int, all[k].0))
            },
        decreases end - start,
    {
        let ghost rest = chunks(start as int, end - start);
        let ghost k = done.len() as int;
        assert(all[k] == rest[0]);
        let vpn = start / 4096;
        assert(all[k].0 == vpn as int);
        assert(0 <= k < all.len());
        match page_table.translate(mem, vpn) {
            None => {
                assert(walk(mem, token_root(token as int), all[k].0).is_none());
                return false;
            },
            Some(e) => {
                if !mem.contains(e.ppn()) {
                    assert(!mem.in_range(backing(mem, token as int, all[k].0)));
                    return false;
                }
            },
        }
        let off = start % 4096;
        let step = if 4096 - off < end - start {
            4096 - off
        } else {
            end - start
        };
        proof {
            assert(rest.drop_first() =~= chunks(start + step, end - (start + step)));
            assert(all =~= done.push(rest[0]) + rest.drop_first());
            done = done.push(rest[0]);
        }
        start = start + step;
    }
    proof {
        assert(done =~= all);
    }
    true
}

} // verus!

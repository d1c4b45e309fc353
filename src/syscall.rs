//! Process syscalls: argument checks, the core operations, and results written
//! back to user memory.
use vstd::prelude::*;

use crate::config::{MAX_SYSCALL_NUM, PAGE_SIZE, VA_LIMIT, VPN_LIMIT};
use crate::frame::PhysMem;
use crate::memory_set::{fork_need, ceil_vpn, floor_vpn, inside, port_perm, touches, MemorySet};
use crate::page_table::FLAG_V;
use crate::scheduler::{Processor, TaskManager};
use crate::task::{TaskControlBlock, TaskStatus, TaskTable, DEFAULT_PRIORITY, INIT_PID};
use crate::user_access::{user_str, range_mapped, targets, translated_spec, translated_str, user_range_mapped, write_user_bytes};

verus! {

/// Seconds and microseconds.
pub struct TimeVal {
    pub sec: u64,
    pub usec: u64,
}

/// What `sys_task_info` reports.
pub struct TaskInfo {
    pub status: TaskStatus,
    pub syscall_times: Vec<u32>,
    pub time: u64,
}

/// The `n` low bytes of `x`, least significant first.
pub open spec fn le_bytes(x: nat, n: nat) -> Seq<u8>
    decreases n,
{
    if n == 0 {
        Seq::empty()
    } else {
        seq![(x % 256) as u8] + le_bytes(x / 256, (n - 1) as nat)
    }
}

/// Appends the eight little-endian bytes of `x`.
fn push_u64_le(out: &mut Vec<u8>, x: u64)
    ensures
        final(out)@ == old(out)@ + le_bytes(x as nat, 8),
{
    let mut cur = x;
    let mut i: usize = 0;
    while i < 8
        invariant
            i <= 8,
            old(out)@ + le_bytes(x as nat, 8) == out@ + le_bytes(cur as nat, (8 - i) as nat),
        decreases 8 - i,
    {
        proof {
            let rest = le_bytes(cur as nat, (8 - i) as nat);
            assert(rest == seq![(cur % 256) as u8] + le_bytes((cur / 256) as nat, (8 - i - 1) as nat));
            assert(out@ + rest =~= out@.push((cur % 256) as u8) + le_bytes((cur / 256) as nat, (8 - i - 1) as nat));
        }
        out.push((cur % 256) as u8);
        cur = cur / 256;
        i = i + 1;
    }
    proof {
        assert(le_bytes(cur as nat, 0) =~= Seq::<u8>::empty());
        assert(out@ + Seq::<u8>::empty() =~= out@);
    }
}

/// Appends the four little-endian bytes of `x`.
fn push_u32_le(out: &mut Vec<u8>, x: u32)
    ensures
        final(out)@ == old(out)@ + le_bytes(x as nat, 4),
{
    let mut cur = x;
    let mut i: usize = 0;
    while i < 4
        invariant
            i <= 4,
            old(out)@ + le_bytes(x as nat, 4) == out@ + le_bytes(cur as nat, (4 - i) as nat),
        decreases 4 - i,
    {
        proof {
            let rest = le_bytes(cur as nat, (4 - i) as nat);
            assert(rest == seq![(cur % 256) as u8] + le_bytes((cur / 256) as nat, (4 - i - 1) as nat));
            assert(out@ + rest =~= out@.push((cur % 256) as u8) + le_bytes((cur / 256) as nat, (4 - i - 1) as nat));
        }
        out.push((cur % 256) as u8);
        cur = cur / 256;
        i = i + 1;
    }
    proof {
        assert(le_bytes(cur as nat, 0) =~= Seq::<u8>::empty());
        assert(out@ + Seq::<u8>::empty() =~= out@);
    }
}

impl TimeVal {
    /// The value for `us` microseconds.
    pub fn from_us(us: u64) -> (r: TimeVal)
        ensures
            r.sec == us / 1_000_000,
            r.usec == us % 1_000_000,
    {
        TimeVal { sec: us / 1_000_000, usec: us % 1_000_000 }
    }

    /// The in-memory layout: `sec` then `usec`, each eight bytes little-endian.
    pub fn to_bytes(&self) -> (r: Vec<u8>)
        ensures
            r@ == le_bytes(self.sec as nat, 8) + le_bytes(self.usec as nat, 8),
            r@.len() == 16,
    {
        let mut out: Vec<u8> = Vec::new();
        push_u64_le(&mut out, self.sec as u64);
        push_u64_le(&mut out, self.usec as u64);
        proof {
            lemma_le_bytes_len(self.sec as nat, 8);
            lemma_le_bytes_len(self.usec as nat, 8);
            assert(Seq::<u8>::empty() + le_bytes(self.sec as nat, 8) =~= le_bytes(self.sec as nat, 8));
        }
        out
    }
}

proof fn lemma_le_bytes_len(x: nat, n: nat)
    ensures
        le_bytes(x, n).len() == n,
    decreases n,
{
    if n > 0 {
        lemma_le_bytes_len(x / 256, (n - 1) as nat);
    }
}

/// The 32-bit code of a task status.
pub open spec fn status_code(s: TaskStatus) -> u32 {
    match s {
        TaskStatus::Ready => 1,
        TaskStatus::Running => 2,
        TaskStatus::Zombie => 3,
    }
}

/// The counters' bytes, in order.
pub open spec fn counters_bytes(c: Seq<u32>) -> Seq<u8>
    decreases c.len(),
{
    if c.len() == 0 {
        Seq::empty()
    } else {
        counters_bytes(c.drop_last()) + le_bytes(c.last() as nat, 4)
    }
}

impl TaskInfo {
    /// The in-memory layout: the status code in four bytes, the counters in four
    /// bytes each, four bytes of padding, then `time` in eight bytes; all little-endian.
    pub fn to_bytes(&self) -> (r: Vec<u8>)
        ensures
            r@ == le_bytes(status_code(self.status) as nat, 4) + counters_bytes(self.syscall_times@)
                + le_bytes(0, 4) + le_bytes(self.time as nat, 8),
    {
        let mut out: Vec<u8> = Vec::new();
        let code: u32 = match self.status {
            TaskStatus::Ready => 1,
            TaskStatus::Running => 2,
            TaskStatus::Zombie => 3,
        };
        push_u32_le(&mut out, code);
        proof {
            assert(Seq::<u8>::empty() + le_bytes(code as nat, 4) =~= le_bytes(code as nat, 4));
        }
        let ghost head = out@;
        let mut i: usize = 0;
        while i < self.syscall_times.len()
            invariant
                i <= self.syscall_times@.len(),
                out@ == head + counters_bytes(self.syscall_times@.subrange(0, i as int)),
            decreases self.syscall_times@.len() - i,
        {
            push_u32_le(&mut out, self.syscall_times[i]);
            proof {
                let s = self.syscall_times@.subrange(0, i as int + 1);
                assert(s.drop_last() =~= self.syscall_times@.subrange(0, i as int));
                assert(s.last() == self.syscall_times@[i as int]);
            }
            i = i + 1;
        }
        proof {
            assert(self.syscall_times@.subrange(0, i as int) =~= self.syscall_times@);
        }
        push_u32_le(&mut out, 0);
        push_u64_le(&mut out, self.time as u64);
        out
    }
}

/// An mmap or munmap range: page-aligned start, inside the address space.
pub open spec fn range_ok(start: int, len: int) -> bool {
    start % PAGE_SIZE as int == 0 && start + len <= VA_LIMIT
}

/// Maps `[start, start + len)` with the permissions of `port` in address space
/// `ms`. Returns -1 for a misaligned start, a range past the address space, a
/// `port` with bits beyond the low three or none of them, an already mapped page,
/// or too little free memory; 0 for an empty range (no effect) or on success.
pub fn sys_mmap(ms: &mut MemorySet, mem: &mut PhysMem, start: usize, len: usize, port: usize) -> (r: isize)
    requires
        old(ms).wf(old(mem)),
    ensures
        final(ms).wf(final(mem)),
        r == 0 || r == -1,
        start % PAGE_SIZE != 0 || !(0 < port < 8) ==> r == -1,
        len > 0 && !range_ok(start as int, len as int) ==> r == -1,
        r == -1 || len == 0 ==> *final(ms) == *old(ms) && *final(mem) == *old(mem),
        start % PAGE_SIZE == 0 && 0 < port < 8 && len == 0 ==> r == 0,
        r == 0 && len > 0 ==> forall|v: int| floor_vpn(start as int) <= v < ceil_vpn(start + len) ==> (#[trigger] old(ms).lookup(old(mem), v)).is_none(),
        range_ok(start as int, len as int) && 0 < port < 8 && len > 0 && old(mem).free_count() >= 3 * (ceil_vpn(start + len) - floor_vpn(start as int)) ==> (r == 0
            <==> forall|v: int| floor_vpn(start as int) <= v < ceil_vpn(start + len) ==> (#[trigger] old(ms).lookup(old(mem), v)).is_none()),
        r == 0 && len > 0 ==> forall|v: int|
            floor_vpn(start as int) <= v < ceil_vpn(start + len) ==> (#[trigger] final(ms).lookup(final(mem), v)) is Some
                && final(ms).lookup(final(mem), v).unwrap().flags_of() == (port_perm(port as int) | FLAG_V),
        r == 0 && len > 0 ==> forall|v: int|
            0 <= v < VPN_LIMIT && !(floor_vpn(start as int) <= v < ceil_vpn(start + len)) ==> #[trigger] final(ms).lookup(final(mem), v)
                == old(ms).lookup(old(mem), v),
{
    let s = start as u64;
    let n = len as u64;
    if s % 4096 != 0 || port >= 8 || port == 0 {
        return -1;
    }
    if len == 0 {
        return 0;
    }
    if s > VA_LIMIT || n > VA_LIMIT - s {
        return -1;
    }
    ms.mmap(mem, s, s + n, port as u64)
}

/// Unmaps `[start, start + len)` from address space `ms`. Returns -1 for a
/// misaligned start, a range past the address space, an unmapped page, or a range
/// that cuts through an area; 0 for an empty range (no effect) or on success.
pub fn sys_munmap(ms: &mut MemorySet, mem: &mut PhysMem, start: usize, len: usize) -> (r: isize)
    requires
        old(ms).wf(old(mem)),
    ensures
        final(ms).wf(final(mem)),
        r == 0 || r == -1,
        start % PAGE_SIZE != 0 ==> r == -1,
        len > 0 && !range_ok(start as int, len as int) ==> r == -1,
        r == -1 || len == 0 ==> *final(ms) == *old(ms) && *final(mem) == *old(mem),
        start % PAGE_SIZE == 0 && len == 0 ==> r == 0,
        range_ok(start as int, len as int) && len > 0 ==> (r == 0 <==> {
            &&& forall|v: int| floor_vpn(start as int) <= v < ceil_vpn(start + len) ==> (#[trigger] old(ms).lookup(old(mem), v)).is_some()
            &&& forall|i: int| 0 <= i < old(ms).area_seq().len() && #[trigger] touches(old(ms).area_seq()[i], floor_vpn(start as int), ceil_vpn(start + len))
                ==> inside(old(ms).area_seq()[i], floor_vpn(start as int), ceil_vpn(start + len))
        }),
        r == 0 && len > 0 ==> forall|v: int|
            floor_vpn(start as int) <= v < ceil_vpn(start + len) ==> (#[trigger] final(ms).lookup(final(mem), v)).is_none(),
        r == 0 && len > 0 ==> forall|v: int|
            floor_vpn(start as int) <= v < ceil_vpn(start + len) ==> !final(mem).allocated(#[trigger] old(ms).data_frame(old(mem), v)),
        r == 0 && len > 0 ==> forall|v: int|
            0 <= v < VPN_LIMIT && !(floor_vpn(start as int) <= v < ceil_vpn(start + len)) ==> #[trigger] final(ms).lookup(final(mem), v)
                == old(ms).lookup(old(mem), v),
{
    let s = start as u64;
    let n = len as u64;
    if s % 4096 != 0 {
        return -1;
    }
    if len == 0 {
        return 0;
    }
    if s > VA_LIMIT || n > VA_LIMIT - s {
        return -1;
    }
    ms.munmap(mem, s, s + n)
}

/// Writes the time `us` (microseconds) as a [`TimeVal`] to user address `ts`,
/// split across pages as needed. Returns 0, or -1, writing nothing, when the
/// destination is not mapped.
pub fn sys_get_time(mem: &mut PhysMem, token: u64, ts: u64, us: u64) -> (r: isize)
    requires
        old(mem).wf(),
    ensures
        final(mem).wf(),
        r == 0 <==> ts + 16 <= VA_LIMIT && range_mapped(old(mem), token as int, ts as int, 16),
        r == -1 ==> *final(mem) == *old(mem),
        r == 0 ==> {
            let t = targets(translated_spec(old(mem), token as int, ts as int, 16));
            let b = le_bytes((us / 1_000_000) as nat, 8) + le_bytes((us % 1_000_000) as nat, 8);
            &&& forall|i: int|
                0 <= i < 16 && (forall|j: int| i < j < 16 ==> t[j] != t[i]) ==> final(mem).byte(#[trigger] t[i].0, t[i].1) == b[i]
            &&& forall|q: int, o: int|
                old(mem).in_range(q) && 0 <= o < PAGE_SIZE && !t.contains((q, o)) ==> #[trigger] final(mem).byte(q, o) == old(mem).byte(q, o)
            &&& final(mem).same_entries(old(mem))
        },
{
    if !user_range_mapped(mem, token, ts, 16) {
        return -1;
    }
    let tv = TimeVal::from_us(us);
    let bytes = tv.to_bytes();
    write_user_bytes(mem, token, ts, &bytes);
    0
}

/// Milliseconds from `start_us` to `now_us`, 0 when the clock reads earlier.
pub open spec fn elapsed_ms(start_us: u64, now_us: u64) -> u64 {
    if now_us >= start_us {
        ((now_us - start_us) / 1000) as u64
    } else {
        0
    }
}

/// The bytes that `sys_task_info` writes for task `t` at time `now_us`.
pub open spec fn task_info_bytes(t: TaskControlBlock, now_us: u64) -> Seq<u8> {
    le_bytes(status_code(t.status) as nat, 4) + counters_bytes(t.syscall_times@) + le_bytes(0, 4)
        + le_bytes(elapsed_ms(t.start_time, now_us) as nat, 8)
}

/// Writes the current task's status, syscall counters and the milliseconds since
/// its first schedule to user address `ti`. Returns 0, or -1, writing nothing,
/// when the destination is not mapped.
pub fn sys_task_info(mem: &mut PhysMem, token: u64, ti: u64, tasks: &TaskTable, cur: usize, now_us: u64) -> (r: isize)
    requires
        old(mem).wf(),
        tasks.live(cur as int),
    ensures
        final(mem).wf(),
        r == 0 || r == -1,
        r == -1 ==> *final(mem) == *old(mem),
        ({
            let b = task_info_bytes(tasks.get(cur as int), now_us);
            &&& r == 0 <==> ti + b.len() <= VA_LIMIT && range_mapped(old(mem), token as int, ti as int, b.len() as int)
            &&& r == 0 ==> {
                let t = targets(translated_spec(old(mem), token as int, ti as int, b.len() as int));
                &&& forall|i: int|
                    0 <= i < b.len() && (forall|j: int| i < j < b.len() ==> t[j] != t[i]) ==> final(mem).byte(#[trigger] t[i].0, t[i].1) == b[i]
                &&& forall|q: int, o: int|
                    old(mem).in_range(q) && 0 <= o < PAGE_SIZE && !t.contains((q, o)) ==> #[trigger] final(mem).byte(q, o) == old(mem).byte(q, o)
                &&& final(mem).same_entries(old(mem))
            }
        }),
{
    let t = tasks.task(cur);
    let mut times: Vec<u32> = Vec::new();
    let mut i: usize = 0;
    while i < t.syscall_times.len()
        invariant
            i <= t.syscall_times@.len(),
            times@ == t.syscall_times@.subrange(0, i as int),
        decreases t.syscall_times@.len() - i,
    {
        times.push(t.syscall_times[i]);
        proof {
            assert(t.syscall_times@.subrange(0, i as int + 1) =~= t.syscall_times@.subrange(0, i as int).push(t.syscall_times@[i as int]));
        }
        i = i + 1;
    }
    let elapsed = if now_us >= t.start_time {
        now_us - t.start_time
    } else {
        0
    };
    let info = TaskInfo { status: t.status, syscall_times: times, time: elapsed / 1000 };
    let bytes = info.to_bytes();
    proof {
        assert(times@ =~= t.syscall_times@);
        assert(bytes@ == task_info_bytes(tasks.get(cur as int), now_us));
    }
    let n = bytes.len() as u64;
    if !user_range_mapped(mem, token, ti, n) {
        return -1;
    }
    write_user_bytes(mem, token, ti, &bytes);
    0
}

/// The PID of task `cur`.
pub fn sys_getpid(tasks: &TaskTable, cur: usize) -> (r: isize)
    requires
        tasks.wf(),
        tasks.live(cur as int),
    ensures
        r == cur,
{
    proof {
        tasks.lemma_pid_bound(cur as int);
    }
    tasks.task(cur).getpid() as isize
}

/// Sets the priority of task `cur`: returns `prio` when it is at least 2, else -1
/// with the task unchanged.
pub fn sys_set_priority(tasks: &mut TaskTable, cur: usize, prio: isize) -> (r: isize)
    requires
        old(tasks).wf(),
        old(tasks).live(cur as int),
    ensures
        final(tasks).wf(),
        forall|p: int| #[trigger] final(tasks).live(p) == old(tasks).live(p),
        prio < 2 ==> r == -1 && *final(tasks) == *old(tasks),
        prio >= 2 ==> r == prio && final(tasks).get(cur as int) == (TaskControlBlock { priority: prio as u64, ..old(tasks).get(cur as int) }),
        forall|p: int| p != cur && old(tasks).live(p) ==> #[trigger] final(tasks).get(p) == old(tasks).get(p),
{
    tasks.set_priority(cur, prio)
}

/// Forks task `cur`, whose address space is `space`: the child gets the next
/// PID, a byte-for-byte copy of the address space, 0 as its return value, and a
/// place in the ready queue; the parent gets the child's PID. -1, with no task
/// created, when memory runs short for the copy.
pub fn sys_fork(tasks: &mut TaskTable, manager: &mut TaskManager, cur: usize, space: &MemorySet, mem: &mut PhysMem) -> (r: (isize, Option<MemorySet>))
    requires
        old(tasks).wf(),
        old(tasks).live(cur as int),
        old(tasks).get(cur as int).status != TaskStatus::Zombie,
        old(tasks).slot_count() < isize::MAX,
        space.wf(old(mem)),
    ensures
        final(tasks).wf(),
        space.wf(final(mem)),
        forall|v: int| #[trigger] space.lookup(final(mem), v) == space.lookup(old(mem), v),
        forall|q: int, j: int| old(mem).allocated(q) && 0 <= j < PAGE_SIZE ==> #[trigger] final(mem).byte(q, j) == old(mem).byte(q, j),
        r.0 == -1 <==> r.1.is_none(),
        old(mem).free_count() >= fork_need(space) ==> r.0 != -1,
        r.0 == -1 ==> *final(tasks) == *old(tasks) && final(manager).queue() == old(manager).queue(),
        r.0 != -1 ==> {
            &&& final(tasks).get(cur as int) == (TaskControlBlock {
                children: final(tasks).get(cur as int).children,
                ..old(tasks).get(cur as int)
            })
            &&& forall|p: int| p != cur && old(tasks).live(p) ==> #[trigger] final(tasks).get(p) == old(tasks).get(p)
            &&& r.0 == old(tasks).slot_count()
            &&& r.0 > 0
            &&& !old(tasks).live(r.0 as int)
            &&& forall|p: int| #[trigger] final(tasks).live(p) <==> old(tasks).live(p) || p == r.0
            &&& final(tasks).get(r.0 as int).parent == Some(cur)
            &&& final(tasks).get(r.0 as int).syscall_ret == 0
            &&& final(tasks).get(r.0 as int).status == TaskStatus::Ready
            &&& final(tasks).get(cur as int).children@ == old(tasks).get(cur as int).children@.push(r.0 as usize)
            &&& final(manager).queue() == old(manager).queue().push(r.0 as usize)
        },
        r.1 matches Some(c) ==> {
            &&& c.wf(final(mem))
            &&& c.area_seq() == space.area_seq()
            &&& forall|v: int, w: int|
                0 <= v < VPN_LIMIT && 0 <= w < VPN_LIMIT && (#[trigger] space.lookup(final(mem), v)).is_some() && (#[trigger] space.lookup(final(mem), w)).is_some()
                    ==> c.data_frame(final(mem), v) != space.data_frame(final(mem), w)
            &&& forall|v: int| 0 <= v < VPN_LIMIT ==> (#[trigger] c.lookup(final(mem), v)).is_some() == space.lookup(final(mem), v).is_some()
            &&& forall|v: int| 0 <= v < VPN_LIMIT && space.lookup(final(mem), v).is_some() ==>
                (#[trigger] c.lookup(final(mem), v)).unwrap().flags_of() == space.lookup(final(mem), v).unwrap().flags_of()
            &&& forall|v: int, o: int| 0 <= v < VPN_LIMIT && space.lookup(final(mem), v).is_some() && 0 <= o < PAGE_SIZE ==>
                #[trigger] final(mem).byte(c.data_frame(final(mem), v), o) == final(mem).byte(space.data_frame(final(mem), v), o)
        },
{
    let copy = match MemorySet::from_existed_user(space, mem) {
        None => return (-1, None),
        Some(c) => c,
    };
    proof {
        old(tasks).lemma_pid_bound(cur as int);
    }
    let child = tasks.fork(cur);
    manager.add(child);
    (child as isize, Some(copy))
}

/// Gives up the CPU: the current task goes back to the ready queue. Returns 0.
pub fn sys_yield(processor: &mut Processor, manager: &mut TaskManager, tasks: &mut TaskTable) -> (r: isize)
    requires
        old(tasks).wf(),
        old(processor).current_spec() matches Some(c) ==> old(tasks).live(c as int) && old(tasks).get(c as int).status != TaskStatus::Zombie,
    ensures
        r == 0,
        final(tasks).wf(),
        final(processor).current_spec().is_none(),
        old(processor).current_spec() matches Some(c) ==> final(manager).queue() == old(manager).queue().push(c)
            && final(tasks).get(c as int).status == TaskStatus::Ready,
{
    processor.suspend_current(manager, tasks);
    0
}

/// Ends task `cur` with `exit_code`: it becomes a zombie, its children pass to the
/// initial task, and it leaves the processor. Returns `false` when `cur` is the
/// initial task, which shuts the kernel down, leaving everything unchanged.
pub fn sys_exit(tasks: &mut TaskTable, processor: &mut Processor, cur: usize, exit_code: i32) -> (r: bool)
    requires
        old(tasks).wf(),
        old(tasks).live(cur as int),
        old(tasks).live(INIT_PID as int),
        old(tasks).get(INIT_PID as int).status != TaskStatus::Zombie,
    ensures
        final(tasks).wf(),
        r == (cur != INIT_PID),
        !r ==> *final(tasks) == *old(tasks) && *final(processor) == *old(processor),
        r ==> {
            &&& final(tasks).get(cur as int).status == TaskStatus::Zombie
            &&& final(tasks).get(cur as int).exit_code == exit_code
            &&& final(tasks).get(cur as int).children@.len() == 0
            &&& final(tasks).get(INIT_PID as int).children@ == old(tasks).get(INIT_PID as int).children@ + old(tasks).get(cur as int).children@
            &&& forall|k: int| 0 <= k < old(tasks).get(cur as int).children@.len() ==>
                final(tasks).get(#[trigger] old(tasks).get(cur as int).children@[k] as int).parent == Some(INIT_PID)
            &&& forall|p: int| #[trigger] final(tasks).live(p) == old(tasks).live(p)
            &&& final(processor).current_spec().is_none()
        },
{
    if cur == INIT_PID {
        return false;
    }
    tasks.exit(cur, exit_code);
    processor.take_current();
    true
}

/// Reaps a zombie child of `cur` answering `pid` and writes its exit code to user
/// address `exit_code_ptr`. Returns -1 when no child answers, -2 when some answer
/// but none has exited, and -1 when one has exited but the destination is not
/// mapped; otherwise reaps the first answering zombie in `cur`'s children order and
/// returns its PID.
pub fn sys_waitpid(tasks: &mut TaskTable, mem: &mut PhysMem, token: u64, cur: usize, pid: isize, exit_code_ptr: u64) -> (r: isize)
    requires
        old(tasks).wf(),
        old(tasks).live(cur as int),
        old(mem).wf(),
    ensures
        final(tasks).wf(),
        final(mem).wf(),
        ({
            let ch = old(tasks).get(cur as int).children@;
            let any = exists|k: int| 0 <= k < ch.len() && TaskTable::wait_matches(#[trigger] ch[k], pid);
            let none_exited = forall|k: int| 0 <= k < ch.len() ==> !#[trigger] old(tasks).reapable(ch[k], pid);
            let mapped = exit_code_ptr + 4 <= VA_LIMIT && range_mapped(old(mem), token as int, exit_code_ptr as int, 4);
            &&& r == -1 <==> !any || (!none_exited && !mapped)
            &&& r == -2 <==> any && none_exited
            &&& r == -1 || r == -2 || r >= 0
            &&& r < 0 ==> *final(tasks) == *old(tasks) && *final(mem) == *old(mem)
            &&& r >= 0 ==> exists|k: int| {
                &&& 0 <= k < ch.len()
                &&& #[trigger] old(tasks).reapable(ch[k], pid)
                &&& forall|j: int| 0 <= j < k ==> !#[trigger] old(tasks).reapable(ch[j], pid)
                &&& r == ch[k] as int
                &&& final(tasks).get(cur as int).children@ == ch.remove(k)
            }
        }),
        r >= 0 ==> {
            &&& old(tasks).get(r as int).status == TaskStatus::Zombie
            &&& !final(tasks).live(r as int)
            &&& forall|p: int| #[trigger] final(tasks).live(p) <==> old(tasks).live(p) && p != r
            &&& forall|p: int| #[trigger] final(tasks).live(p) ==> !final(tasks).get(p).children@.contains(r as usize)
            &&& forall|p: int| p != cur && p != r && old(tasks).live(p) ==> #[trigger] final(tasks).get(p) == old(tasks).get(p)
            &&& final(mem).same_entries(old(mem))
            &&& {
                let t = targets(translated_spec(old(mem), token as int, exit_code_ptr as int, 4));
                let b = le_bytes(old(tasks).get(r as int).exit_code as u32 as nat, 4);
                &&& forall|i: int|
                    0 <= i < 4 && (forall|j: int| i < j < 4 ==> t[j] != t[i]) ==> final(mem).byte(#[trigger] t[i].0, t[i].1) == b[i]
                &&& forall|q: int, o: int|
                    old(mem).in_range(q) && 0 <= o < PAGE_SIZE && !t.contains((q, o)) ==> #[trigger] final(mem).byte(q, o) == old(mem).byte(q, o)
            }
        },
{
    let st = tasks.wait_status(cur, pid);
    if st < 0 {
        return st;
    }
    if !user_range_mapped(mem, token, exit_code_ptr, 4) {
        return -1;
    }
    let (r, code) = tasks.waitpid(cur, pid);
    let mut bytes: Vec<u8> = Vec::new();
    push_u32_le(&mut bytes, code as u32);
    proof {
        lemma_le_bytes_len(code as u32 as nat, 4);
        assert(Seq::<u8>::empty() + le_bytes(code as u32 as nat, 4) =~= le_bytes(code as u32 as nat, 4));
        let ch = old(tasks).get(cur as int).children@;
        let k = choose|k: int| {
            &&& 0 <= k < ch.len()
            &&& #[trigger] old(tasks).reapable(ch[k], pid)
            &&& forall|j: int| 0 <= j < k ==> !#[trigger] old(tasks).reapable(ch[j], pid)
            &&& r as int == ch[k] as int
            &&& code == old(tasks).get(ch[k] as int).exit_code
            &&& tasks.get(cur as int).children@ == ch.remove(k)
        };
        assert(ch[k] == r as usize);
    }
    write_user_bytes(mem, token, exit_code_ptr, &bytes);
    r
}

/// The index of the first application named `name`.
pub fn find_app(app_names: &Vec<Vec<u8>>, name: &Vec<u8>) -> (r: Option<usize>)
    ensures
        r matches Some(i) ==> i < app_names@.len() && app_names@[i as int]@ == name@ && forall|j: int| 0 <= j < i ==> (#[trigger] app_names@[j])@ != name@,
        r.is_none() ==> forall|j: int| 0 <= j < app_names@.len() ==> (#[trigger] app_names@[j])@ != name@,
{
    let mut i: usize = 0;
    while i < app_names.len()
        invariant
            i <= app_names@.len(),
            forall|j: int| 0 <= j < i ==> (#[trigger] app_names@[j])@ != name@,
        decreases app_names@.len() - i,
    {
        if bytes_equal(&app_names[i], name) {
            return Some(i);
        }
        i = i + 1;
    }
    None
}

fn bytes_equal(a: &Vec<u8>, b: &Vec<u8>) -> (r: bool)
    ensures
        r == (a@ == b@),
{
    if a.len() != b.len() {
        return false;
    }
    let mut i: usize = 0;
    while i < a.len()
        invariant
            a@.len() == b@.len(),
            i <= a@.len(),
            forall|j: int| 0 <= j < i ==> a@[j] == b@[j],
        decreases a@.len() - i,
    {
        if a[i] != b[i] {
            return false;
        }
        i = i + 1;
    }
    assert(a@ =~= b@);
    true
}

/// Replaces the program of task `cur` with the application whose name is the user
/// string at `path`: the task's syscall counters and first-schedule time start
/// over. Returns 0, or -1 when the name cannot be read or names no application.
/// Loading the image into the address space is the caller's.
pub fn sys_exec(mem: &PhysMem, token: u64, path: u64, app_names: &Vec<Vec<u8>>, tasks: &mut TaskTable, cur: usize) -> (r: isize)
    requires
        mem.wf(),
        old(tasks).wf(),
        old(tasks).live(cur as int),
    ensures
        final(tasks).wf(),
        r == 0 <==> (user_str(mem, token as int, path as int) matches Some(name)
            && exists|j: int| 0 <= j < app_names@.len() && (#[trigger] app_names@[j])@ == name),
        r == -1 ==> *final(tasks) == *old(tasks),
        r == 0 ==> final(tasks).get(cur as int).start_time == 0
            && forall|k: int| 0 <= k < MAX_SYSCALL_NUM ==> #[trigger] final(tasks).get(cur as int).syscall_times@[k] == 0,
        r == 0 || r == -1,
{
    let name = match translated_str(mem, token, path) {
        None => return -1,
        Some(s) => s,
    };
    match find_app(app_names, &name) {
        None => -1,
        Some(_) => {
            tasks.reset_for_exec(cur);
            0
        },
    }
}

/// Starts the application whose name is the user string at `path` as a new child
/// of `cur` with the default priority, without copying `cur`'s address space. Returns the child's PID, or
/// -1 when the name cannot be read or names no application.
pub fn sys_spawn(mem: &PhysMem, token: u64, path: u64, app_names: &Vec<Vec<u8>>, tasks: &mut TaskTable, manager: &mut TaskManager, cur: usize) -> (r: isize)
    requires
        mem.wf(),
        old(tasks).wf(),
        old(tasks).live(cur as int),
        old(tasks).get(cur as int).status != TaskStatus::Zombie,
        old(tasks).slot_count() < isize::MAX,
    ensures
        final(tasks).wf(),
        r != -1 <==> (user_str(mem, token as int, path as int) matches Some(name)
            && exists|j: int| 0 <= j < app_names@.len() && (#[trigger] app_names@[j])@ == name),
        r == -1 ==> *final(tasks) == *old(tasks) && final(manager).queue() == old(manager).queue(),
        r != -1 ==> {
            &&& r > 0
            &&& final(tasks).get(r as int).priority == DEFAULT_PRIORITY
            &&& final(tasks).get(r as int).status == TaskStatus::Ready
            &&& forall|p: int| #[trigger] final(tasks).live(p) <==> old(tasks).live(p) || p == r
            &&& r == old(tasks).slot_count()
            &&& final(tasks).live(r as int)
            &&& final(tasks).get(r as int).parent == Some(cur)
            &&& final(tasks).get(cur as int).children@ == old(tasks).get(cur as int).children@.push(r as usize)
            &&& final(manager).queue() == old(manager).queue().push(r as usize)
        },
{
    let name = match translated_str(mem, token, path) {
        None => return -1,
        Some(s) => s,
    };
    match find_app(app_names, &name) {
        None => -1,
        Some(_) => {
            proof {
                old(tasks).lemma_pid_bound(cur as int);
            }
            let child = tasks.fork(cur);
            tasks.set_priority(child, DEFAULT_PRIORITY as isize);
            manager.add(child);
            child as isize
        },
    }
}

} // verus!

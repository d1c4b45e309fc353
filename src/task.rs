//! Tasks: stride passes, the task table with parent/child accounting, the ready
//! queue and the processor's current slot.
use vstd::prelude::*;

use crate::config::{BIG_STRIDE, MAX_SYSCALL_NUM};

verus! {

/// Priority given to a task when it is created.
pub const DEFAULT_PRIORITY: u64 = 16;

/// PID of the initial task, which adopts orphans.
pub const INIT_PID: usize = 0;

#[derive(Clone, Copy, PartialEq, Eq, Structural, Debug)]
pub enum TaskStatus {
    Ready,
    Running,
    Zombie,
}

/// The step that a task of priority `prio` adds to its pass.
pub open spec fn stride_of(prio: int) -> int {
    if BIG_STRIDE as int / prio == 0 {
        1
    } else {
        BIG_STRIDE as int / prio
    }
}

pub open spec fn abs_diff(a: int, b: int) -> int {
    if a <= b {
        b - a
    } else {
        a - b
    }
}

/// Pass `a` comes before pass `b` on the circle of 64-bit values: plain order,
/// flipped when the two lie more than half a big stride apart.
pub open spec fn pass_lt(a: u64, b: u64) -> bool {
    (a <= b) != (abs_diff(a as int, b as int) > BIG_STRIDE as int / 2)
}

/// A stride-scheduling pass value.
#[derive(Clone, Copy)]
pub struct Pass(pub u64);

impl Pass {
    pub fn new() -> (r: Pass)
        ensures
            r.0 == 0,
    {
        Pass(0)
    }

    /// Advances the pass by the stride of `priority`, wrapping at 2^64.
    pub fn step_by_prio(&mut self, priority: u64)
        requires
            priority >= 1,
        ensures
            final(self).0 == (old(self).0 + stride_of(priority as int)) % 0x1_0000_0000_0000_0000,
    {
        let q = BIG_STRIDE / priority;
        let stride: u64 = if q == 0 {
            1
        } else {
            q
        };
        if self.0 > u64::MAX - stride {
            self.0 = self.0 - (u64::MAX - stride) - 1;
        } else {
            self.0 = self.0 + stride;
        }
    }

    /// Whether this pass comes before `other` under the wrap-around rule.
    pub fn less_than(&self, other: &Pass) -> (r: bool)
        ensures
            r == pass_lt(self.0, other.0),
    {
        let d = if self.0 <= other.0 {
            other.0 - self.0
        } else {
            self.0 - other.0
        };
        let overflow = d > BIG_STRIDE / 2;
        let order = self.0 <= other.0;
        order != overflow
    }
}

/// A task's pass, after the step of a priority of at least 2, comes after the old
/// one, is different from it, and the old one does not come after it.
pub proof fn lemma_pass_advances(p: u64, prio: int)
    requires
        prio >= 2,
    ensures
        pass_lt(p, ((p + stride_of(prio)) % 0x1_0000_0000_0000_0000) as u64),
        !pass_lt(((p + stride_of(prio)) % 0x1_0000_0000_0000_0000) as u64, p),
        ((p + stride_of(prio)) % 0x1_0000_0000_0000_0000) as u64 != p,
{
    let s = stride_of(prio);
    assert(1 <= s <= BIG_STRIDE / 2) by {
        assert(0x10_0000int / prio <= 0x10_0000int / 2) by (nonlinear_arith)
            requires
                prio >= 2,
        ;
        assert(0x10_0000int / prio >= 0) by (nonlinear_arith)
            requires
                prio >= 2,
        ;
    }
}

/// Per-task state.
pub struct TaskControlBlock {
    pub pid: usize,
    pub status: TaskStatus,
    pub parent: Option<usize>,
    pub children: Vec<usize>,
    pub exit_code: i32,
    pub priority: u64,
    pub pass: Pass,
    /// Microseconds at the first schedule, 0 before it.
    pub start_time: u64,
    pub syscall_times: Vec<u32>,
    /// The value the task finds in its return register when it next runs.
    pub syscall_ret: isize,
}

impl TaskControlBlock {
    /// A fresh Ready task with no parent, no children and zeroed counters.
    pub fn new(pid: usize) -> (r: TaskControlBlock)
        ensures
            r.pid == pid,
            r.status == TaskStatus::Ready,
            r.parent.is_none(),
            r.children@.len() == 0,
            r.exit_code == 0,
            r.priority == DEFAULT_PRIORITY,
            r.pass.0 == 0,
            r.start_time == 0,
            r.syscall_times@.len() == MAX_SYSCALL_NUM,
            forall|k: int| 0 <= k < MAX_SYSCALL_NUM ==> #[trigger] r.syscall_times@[k] == 0,
            r.syscall_ret == 0,
    {
        let mut syscall_times: Vec<u32> = Vec::new();
        let mut k: usize = 0;
        while k < MAX_SYSCALL_NUM
            invariant
                k <= MAX_SYSCALL_NUM,
                syscall_times@.len() == k,
                forall|j: int| 0 <= j < k ==> #[trigger] syscall_times@[j] == 0,
            decreases MAX_SYSCALL_NUM - k,
        {
            syscall_times.push(0);
            k = k + 1;
        }
        TaskControlBlock {
            pid,
            status: TaskStatus::Ready,
            parent: None,
            children: Vec::new(),
            exit_code: 0,
            priority: DEFAULT_PRIORITY,
            pass: Pass::new(),
            start_time: 0,
            syscall_times,
            syscall_ret: 0,
        }
    }

    pub fn getpid(&self) -> (r: usize)
        ensures
            r == self.pid,
    {
        self.pid
    }

    pub fn is_zombie(&self) -> (r: bool)
        ensures
            r == (self.status == TaskStatus::Zombie),
    {
        self.status == TaskStatus::Zombie
    }
}

/// Sets a task's priority when it is at least 2. Returns 0, or -1 leaving the task unchanged.
pub fn set_priority(task: &mut TaskControlBlock, priority: isize) -> (r: isize)
    ensures
        priority < 2 ==> r == -1 && *final(task) == *old(task),
        priority >= 2 ==> r == 0 && *final(task) == (TaskControlBlock { priority: priority as u64, ..*old(task) }),
{
    if priority < 2 {
        -1
    } else {
        task.priority = priority as u64;
        0
    }
}

/// All tasks, indexed by PID; a reaped task leaves an empty slot.
pub struct TaskTable {
    slots: Vec<Option<TaskControlBlock>>,
}

impl TaskTable {
    pub closed spec fn slot_count(&self) -> int {
        self.slots@.len() as int
    }

    /// A task with PID `p` exists.
    pub closed spec fn live(&self, p: int) -> bool {
        0 <= p < self.slots@.len() && self.slots@[p].is_some()
    }

    /// The task with PID `p`.
    pub closed spec fn get(&self, p: int) -> TaskControlBlock {
        self.slots@[p].unwrap()
    }

    /// Each task sits under its own PID; children lists hold no repeats and name
    /// live tasks whose parent is the owner; a zombie has no children.
    pub closed spec fn wf(&self) -> bool {
        &&& self.slots@.len() <= isize::MAX
        &&& forall|p: int| #[trigger] self.live(p) ==> self.get(p).pid == p
        &&& forall|p: int| #[trigger] self.live(p) ==> self.get(p).children@.no_duplicates()
        &&& forall|p: int, k: int|
            #[trigger] self.live(p) && 0 <= k < self.get(p).children@.len() ==> {
                let c = #[trigger] self.get(p).children@[k] as int;
                &&& self.live(c)
                &&& self.get(c).parent == Some(p as usize)
            }
        &&& forall|p: int| #[trigger] self.live(p) && self.get(p).status == TaskStatus::Zombie ==> self.get(p).children@.len() == 0
        &&& forall|p: int| #[trigger] self.live(p) ==> self.get(p).parent != Some(p as usize)
        &&& self.live(INIT_PID as int) ==> self.get(INIT_PID as int).parent.is_none()
        &&& forall|p: int| #[trigger] self.live(p) ==> self.get(p).priority >= 2
    }

    /// PIDs fit in `isize`.
    pub proof fn lemma_pid_bound(&self, p: int)
        requires
            self.wf(),
            self.live(p),
        ensures
            0 <= p < self.slot_count() <= isize::MAX,
            self.get(p).pid == p,
    {
    }

    /// A table holding only the initial task.
    pub fn new() -> (r: TaskTable)
        ensures
            r.wf(),
            r.live(INIT_PID as int),
            forall|p: int| #[trigger] r.live(p) <==> p == INIT_PID,
            r.get(INIT_PID as int).status == TaskStatus::Ready,
    {
        let mut slots: Vec<Option<TaskControlBlock>> = Vec::new();
        slots.push(Some(TaskControlBlock::new(INIT_PID)));
        TaskTable { slots }
    }

    pub fn is_live(&self, pid: usize) -> (r: bool)
        ensures
            r == self.live(pid as int),
    {
        pid < self.slots.len() && self.slots[pid].is_some()
    }

    /// The task with PID `pid`.
    pub fn task(&self, pid: usize) -> (r: &TaskControlBlock)
        requires
            self.live(pid as int),
        ensures
            *r == self.get(pid as int),
    {
        self.slots[pid].as_ref().unwrap()
    }

    /// Takes task `pid` out of its slot for an update; `put` brings it back.
    fn take(&mut self, pid: usize) -> (r: TaskControlBlock)
        requires
            old(self).live(pid as int),
        ensures
            r == old(self).get(pid as int),
            final(self).slots@ == old(self).slots@.update(pid as int, None),
    {
        let t = self.slots.remove(pid);
        self.slots.insert(pid, None);
        assert(self.slots@ =~= old(self).slots@.update(pid as int, None));
        t.unwrap()
    }

    fn put(&mut self, pid: usize, t: TaskControlBlock)
        requires
            pid < old(self).slots@.len(),
        ensures
            final(self).slots@ == old(self).slots@.update(pid as int, Some(t)),
    {
        self.slots.remove(pid);
        self.slots.insert(pid, Some(t));
        assert(self.slots@ =~= old(self).slots@.update(pid as int, Some(t)));
    }

    /// Replaces task `pid` by `t`, which keeps its identity, family and invariants.
    fn update(&mut self, pid: usize, t: TaskControlBlock, orig: Ghost<TaskTable>)
        requires
            orig@.wf(),
            orig@.live(pid as int),
            old(self).slots@ == orig@.slots@.update(pid as int, None),
            t.pid == pid,
            t.parent == orig@.get(pid as int).parent,
            t.children == orig@.get(pid as int).children,
            t.status == TaskStatus::Zombie ==> t.children@.len() == 0,
            t.priority >= 2,
        ensures
            final(self).wf(),
            forall|p: int| #[trigger] final(self).live(p) == orig@.live(p),
            final(self).get(pid as int) == t,
            forall|p: int| p != pid && orig@.live(p) ==> #[trigger] final(self).get(p) == orig@.get(p),
    {
        self.put(pid, t);
        assert(self.slots@ == orig@.slots@.update(pid as int, Some(t)));
        proof {
            assert forall|p: int| p != pid && orig@.live(p) implies #[trigger] self.get(p) == orig@.get(p) by {}
            assert forall|p: int, k: int|
                #[trigger] self.live(p) && 0 <= k < self.get(p).children@.len() implies {
                    let c = #[trigger] self.get(p).children@[k] as int;
                    &&& self.live(c)
                    &&& self.get(c).parent == Some(p as usize)
                } by {
                assert(orig@.live(p));
                let c = self.get(p).children@[k] as int;
                assert(orig@.get(p).children@[k] as int == c);
                assert(orig@.live(c));
                assert(self.get(c).parent == orig@.get(c).parent);
            }
            assert forall|p: int| #[trigger] self.live(p) implies self.get(p).pid == p by {
                assert(orig@.live(p));
            }
            assert forall|p: int| #[trigger] self.live(p) implies self.get(p).children@.no_duplicates() by {
                assert(orig@.live(p));
            }
            assert forall|p: int| #[trigger] self.live(p) && self.get(p).status == TaskStatus::Zombie implies self.get(p).children@.len() == 0 by {
                assert(orig@.live(p));
            }
            assert forall|p: int| #[trigger] self.live(p) implies self.get(p).parent != Some(p as usize) by {
                assert(orig@.live(p));
            }
            assert forall|p: int| #[trigger] self.live(p) implies self.get(p).priority >= 2 by {
                assert(orig@.live(p));
            }
            if self.live(INIT_PID as int) {
                assert(orig@.live(INIT_PID as int));
            }
        }
    }

    /// Sets the status of task `pid`.
    pub fn set_status(&mut self, pid: usize, status: TaskStatus)
        requires
            old(self).wf(),
            old(self).live(pid as int),
            status == TaskStatus::Zombie ==> old(self).get(pid as int).children@.len() == 0,
        ensures
            final(self).wf(),
            forall|p: int| #[trigger] final(self).live(p) == old(self).live(p),
            final(self).get(pid as int) == (TaskControlBlock { status, ..old(self).get(pid as int) }),
            forall|p: int| p != pid && old(self).live(p) ==> #[trigger] final(self).get(p) == old(self).get(p),
    {
        let mut t = self.take(pid);
        t.status = status;
        self.update(pid, t, Ghost(*old(self)));
    }

    /// `sys_set_priority` on task `pid`: a priority of at least 2 is stored and
    /// returned; anything lower returns -1 and changes nothing.
    pub fn set_priority(&mut self, pid: usize, priority: isize) -> (r: isize)
        requires
            old(self).wf(),
            old(self).live(pid as int),
        ensures
            final(self).wf(),
            forall|p: int| #[trigger] final(self).live(p) == old(self).live(p),
            priority < 2 ==> r == -1 && *final(self) == *old(self),
            priority >= 2 ==> r == priority && final(self).get(pid as int) == (TaskControlBlock { priority: priority as u64, ..old(self).get(pid as int) }),
            forall|p: int| p != pid && old(self).live(p) ==> #[trigger] final(self).get(p) == old(self).get(p),
    {
        if priority < 2 {
            return -1;
        }
        let mut t = self.take(pid);
        set_priority(&mut t, priority);
        self.update(pid, t, Ghost(*old(self)));
        priority
    }

    /// Advances the pass of task `pid` by its stride.
    pub fn step_pass(&mut self, pid: usize)
        requires
            old(self).wf(),
            old(self).live(pid as int),
        ensures
            final(self).wf(),
            forall|p: int| #[trigger] final(self).live(p) == old(self).live(p),
            final(self).get(pid as int) == (TaskControlBlock {
                pass: Pass(((old(self).get(pid as int).pass.0 + stride_of(old(self).get(pid as int).priority as int)) % 0x1_0000_0000_0000_0000) as u64),
                ..old(self).get(pid as int)
            }),
            forall|p: int| p != pid && old(self).live(p) ==> #[trigger] final(self).get(p) == old(self).get(p),
    {
        let mut t = self.take(pid);
        let prio = t.priority;
        t.pass.step_by_prio(prio);
        self.update(pid, t, Ghost(*old(self)));
    }

    /// Marks task `pid` Running and stamps its first-schedule time when unset.
    pub fn mark_running(&mut self, pid: usize, now_us: u64)
        requires
            old(self).wf(),
            old(self).live(pid as int),
            old(self).get(pid as int).status != TaskStatus::Zombie,
        ensures
            final(self).wf(),
            forall|p: int| #[trigger] final(self).live(p) == old(self).live(p),
            final(self).get(pid as int) == (TaskControlBlock {
                status: TaskStatus::Running,
                start_time: if old(self).get(pid as int).start_time == 0 { now_us } else { old(self).get(pid as int).start_time },
                ..old(self).get(pid as int)
            }),
            forall|p: int| p != pid && old(self).live(p) ==> #[trigger] final(self).get(p) == old(self).get(p),
    {
        let mut t = self.take(pid);
        if t.start_time == 0 {
            t.start_time = now_us;
        }
        t.status = TaskStatus::Running;
        self.update(pid, t, Ghost(*old(self)));
    }

    /// Creates a Ready child of `parent` under the next PID and returns that PID.
    /// The child starts with a return value of 0; the parent's children gain it.
    pub fn fork(&mut self, parent: usize) -> (r: usize)
        requires
            old(self).wf(),
            old(self).live(parent as int),
            old(self).get(parent as int).status != TaskStatus::Zombie,
            old(self).slot_count() < isize::MAX,
        ensures
            final(self).wf(),
            r == old(self).slot_count(),
            !old(self).live(r as int),
            forall|p: int| #[trigger] final(self).live(p) <==> old(self).live(p) || p == r,
            final(self).get(r as int).parent == Some(parent),
            final(self).get(r as int).status == TaskStatus::Ready,
            final(self).get(r as int).syscall_ret == 0,
            final(self).get(r as int).children@.len() == 0,
            final(self).get(r as int).priority == old(self).get(parent as int).priority,
            final(self).get(parent as int) == (TaskControlBlock {
                children: final(self).get(parent as int).children,
                ..old(self).get(parent as int)
            }),
            final(self).get(parent as int).children@ == old(self).get(parent as int).children@.push(r),
            forall|p: int| p != parent && old(self).live(p) ==> #[trigger] final(self).get(p) == old(self).get(p),
    {
        let pid = self.slots.len();
        let mut child = TaskControlBlock::new(pid);
        child.parent = Some(parent);
        child.priority = self.slots[parent].as_ref().unwrap().priority;
        self.slots.push(Some(child));
        let mut t = self.take(parent);
        t.children.push(pid);
        self.put(parent, t);
        proof {
            let o = old(self);
            assert(forall|p: int| p != parent && o.live(p) ==> #[trigger] self.get(p) == o.get(p));
            assert forall|p: int| #[trigger] self.live(p) implies self.get(p).children@.no_duplicates() by {
                if p != parent as int && p != pid as int {
                    assert(o.live(p));
                }
                if p == parent as int {
                    let ch = self.get(p).children@;
                    let och = o.get(p).children@;
                    assert(ch == och.push(pid));
                    assert forall|a: int, b: int| 0 <= a < ch.len() && 0 <= b < ch.len() && a != b implies ch[a] != ch[b] by {
                        if a < och.len() && b < och.len() {
                        } else if a < och.len() {
                            assert(o.live(och[a] as int));
                        } else {
                            assert(o.live(och[b] as int));
                        }
                    }
                }
            }
            assert forall|p: int, k: int|
                #[trigger] self.live(p) && 0 <= k < self.get(p).children@.len() implies {
                    let c = #[trigger] self.get(p).children@[k] as int;
                    &&& self.live(c)
                    &&& self.get(c).parent == Some(p as usize)
                } by {
                if p == parent as int {
                    let och = o.get(p).children@;
                    if k < och.len() {
                        assert(self.get(p).children@[k] == och[k]);
                        assert(o.live(och[k] as int));
                    }
                } else if p != pid as int {
                    assert(o.live(p));
                    let c = self.get(p).children@[k] as int;
                    assert(o.live(c));
                }
            }
            assert forall|p: int| #[trigger] self.live(p) implies self.get(p).pid == p by {
                if p != pid as int {
                    assert(o.live(p));
                }
            }
            assert forall|p: int| #[trigger] self.live(p) && self.get(p).status == TaskStatus::Zombie implies self.get(p).children@.len() == 0 by {
                if p != pid as int {
                    assert(o.live(p));
                }
            }
            assert forall|p: int| #[trigger] self.live(p) implies self.get(p).parent != Some(p as usize) by {
                if p != pid as int {
                    assert(o.live(p));
                }
            }
            if self.live(INIT_PID as int) {
                assert(pid != INIT_PID);
                assert(o.live(INIT_PID as int));
            }
            assert forall|p: int| #[trigger] self.live(p) implies self.get(p).priority >= 2 by {
                if p != pid as int {
                    assert(o.live(p));
                }
            }
        }
        pid
    }

    /// Child `c` answers a wait for `pid`: any child when `pid` is -1, else the one with that PID.
    pub open spec fn wait_matches(c: usize, pid: isize) -> bool {
        pid == -1 || c as int == pid as int
    }

    /// Child `c` has exited and answers a wait for `pid`.
    pub open spec fn reapable(&self, c: usize, pid: isize) -> bool {
        Self::wait_matches(c, pid) && self.get(c as int).status == TaskStatus::Zombie
    }

    /// What a wait for `pid` by `cur` would give, without reaping: -1 when no child
    /// answers, -2 when some answer but none has exited, else the PID of the first
    /// answering zombie in `cur`'s children order.
    pub fn wait_status(&self, cur: usize, pid: isize) -> (r: isize)
        requires
            self.wf(),
            self.live(cur as int),
        ensures
            ({
                let ch = self.get(cur as int).children@;
                let any = exists|k: int| 0 <= k < ch.len() && Self::wait_matches(#[trigger] ch[k], pid);
                &&& r == -1 <==> !any
                &&& r == -2 <==> any && forall|k: int| 0 <= k < ch.len() ==> !#[trigger] self.reapable(ch[k], pid)
                &&& r == -1 || r == -2 || r >= 0
                &&& r >= 0 ==> exists|k: int| 0 <= k < ch.len() && #[trigger] self.reapable(ch[k], pid) && r == ch[k] as int
            }),
    {
        let ghost ch = self.get(cur as int).children@;
        let n = self.slots[cur].as_ref().unwrap().children.len();
        let mut any = false;
        let mut found: Option<usize> = None;
        let mut i: usize = 0;
        while i < n && found.is_none()
            invariant
                self.wf(),
                self.live(cur as int),
                ch == self.get(cur as int).children@,
                n == ch.len(),
                i <= n,
                any <==> exists|k: int| 0 <= k < i && Self::wait_matches(#[trigger] ch[k], pid),
                found.is_none() ==> forall|k: int| 0 <= k < i ==> !#[trigger] self.reapable(ch[k], pid),
                found matches Some(k) ==> k < i && self.reapable(ch[k as int], pid),
            decreases n - i,
        {
            let c = self.slots[cur].as_ref().unwrap().children[i];
            proof {
                assert(self.live(c as int));
                assert(ch[i as int] == c);
            }
            if pid == -1 || (pid >= 0 && c == pid as usize) {
                any = true;
                if self.slots[c].as_ref().unwrap().is_zombie() {
                    found = Some(i);
                }
            } else {
                assert(!Self::wait_matches(c, pid));
            }
            i = i + 1;
        }
        if !any {
            assert forall|k: int| 0 <= k < ch.len() implies !Self::wait_matches(#[trigger] ch[k], pid) by {
                if found.is_none() {
                    assert(i == n);
                } else {
                    assert(false);
                }
            }
            return -1;
        }
        match found {
            None => {
                assert(i == n);
                -2
            },
            Some(k) => {
                let c = self.slots[cur].as_ref().unwrap().children[k];
                proof {
                    self.lemma_pid_bound(c as int);
                    assert(ch[k as int] == c);
                }
                c as isize
            },
        }
    }

    /// Reaps a zombie child of `cur` that answers `pid`: the first in `cur`'s children
    /// order. Returns its PID and exit code; -1 when no child answers; -2 when some
    /// answer but none has exited. A reaped child leaves the table and every
    /// children list.
    pub fn waitpid(&mut self, cur: usize, pid: isize) -> (r: (isize, i32))
        requires
            old(self).wf(),
            old(self).live(cur as int),
        ensures
            final(self).wf(),
            ({
                let ch = old(self).get(cur as int).children@;
                let any = exists|k: int| 0 <= k < ch.len() && Self::wait_matches(#[trigger] ch[k], pid);
                &&& r.0 == -1 <==> !any
                &&& r.0 == -2 <==> any && forall|k: int| 0 <= k < ch.len() ==> !#[trigger] old(self).reapable(ch[k], pid)
                &&& (r.0 == -1 || r.0 == -2) ==> *final(self) == *old(self)
                &&& r.0 >= 0 ==> exists|k: int| {
                    &&& 0 <= k < ch.len()
                    &&& #[trigger] old(self).reapable(ch[k], pid)
                    &&& forall|j: int| 0 <= j < k ==> !#[trigger] old(self).reapable(ch[j], pid)
                    &&& r.0 == ch[k] as int
                    &&& r.1 == old(self).get(ch[k] as int).exit_code
                    &&& final(self).get(cur as int).children@ == ch.remove(k)
                }
            }),
            r.0 == -1 || r.0 == -2 || r.0 >= 0,
            r.0 >= 0 ==> {
                &&& old(self).live(r.0 as int)
                &&& !final(self).live(r.0 as int)
                &&& forall|p: int| #[trigger] final(self).live(p) ==> !final(self).get(p).children@.contains(r.0 as usize)
                &&& forall|p: int| #[trigger] final(self).live(p) <==> old(self).live(p) && p != r.0
                &&& forall|p: int| p != cur && p != r.0 && old(self).live(p) ==> #[trigger] final(self).get(p) == old(self).get(p)
                &&& final(self).get(cur as int) == (TaskControlBlock {
                    children: final(self).get(cur as int).children,
                    ..old(self).get(cur as int)
                })
            },
    {
        let ghost o = *self;
        let ghost ch = self.get(cur as int).children@;
        let n = self.slots[cur].as_ref().unwrap().children.len();
        let mut any = false;
        let mut found: Option<usize> = None;
        let mut i: usize = 0;
        while i < n && found.is_none()
            invariant
                *self == o,
                o.wf(),
                o.live(cur as int),
                ch == o.get(cur as int).children@,
                n == ch.len(),
                i <= n,
                any <==> exists|k: int| 0 <= k < i && Self::wait_matches(#[trigger] ch[k], pid),
                found.is_none() ==> forall|k: int| 0 <= k < i ==> !#[trigger] old(self).reapable(ch[k], pid),
                found matches Some(k) ==> k < i && o.reapable(ch[k as int], pid) && (forall|j: int| 0 <= j < k ==> !#[trigger] o.reapable(ch[j], pid)),
            decreases n - i,
        {
            let c = self.slots[cur].as_ref().unwrap().children[i];
            proof {
                assert(o.live(c as int));
                assert(ch[i as int] == c);
            }
            if pid == -1 || (pid >= 0 && c == pid as usize) {
                any = true;
                if self.slots[c].as_ref().unwrap().is_zombie() {
                    found = Some(i);
                }
            } else {
                assert(!Self::wait_matches(c, pid));
            }
            i = i + 1;
        }
        if !any {
            assert forall|k: int| 0 <= k < ch.len() implies !Self::wait_matches(#[trigger] ch[k], pid) by {
                if found.is_none() {
                    assert(i == n);
                } else {
                    assert(false);
                }
            }
            return (-1, 0);
        }
        let k = match found {
            None => {
                assert(i == n);
                return (-2, 0);
            },
            Some(k) => k,
        };
        assert(o.reapable(ch[k as int], pid));
        let mut t = self.take(cur);
        let child = t.children.remove(k);
        let code = self.slots[child].as_ref().unwrap().exit_code;
        self.put(cur, t);
        self.slots.set(child, None);
        proof {
            let c = child as int;
            assert(o.live(c));
            assert(o.get(c).parent == Some(cur));
            assert(c != cur as int);
            assert forall|p: int| #[trigger] self.live(p) implies !self.get(p).children@.contains(child) by {
                assert(o.live(p));
                if p == cur as int {
                    let och = o.get(p).children@;
                    let nch = self.get(p).children@;
                    assert(nch == och.remove(k as int));
                    if nch.contains(child) {
                        let j = choose|j: int| 0 <= j < nch.len() && nch[j] == child;
                        if j < k {
                            assert(och[j] == child);
                        } else {
                            assert(och[j + 1] == child);
                        }
                    }
                } else {
                    if self.get(p).children@.contains(child) {
                        let j = choose|j: int| 0 <= j < self.get(p).children@.len() && self.get(p).children@[j] == child;
                        assert(o.get(p).children@[j] == child);
                    }
                }
            }
            assert forall|p: int| #[trigger] self.live(p) implies self.get(p).pid == p by {
                assert(o.live(p));
            }
            assert forall|p: int| #[trigger] self.live(p) implies self.get(p).children@.no_duplicates() by {
                assert(o.live(p));
                if p == cur as int {
                    let och = o.get(p).children@;
                    let nch = self.get(p).children@;
                    assert forall|a: int, b: int| 0 <= a < nch.len() && 0 <= b < nch.len() && a != b implies nch[a] != nch[b] by {
                        let a2 = if a < k { a } else { a + 1 };
                        let b2 = if b < k { b } else { b + 1 };
                        assert(nch[a] == och[a2]);
                        assert(nch[b] == och[b2]);
                    }
                }
            }
            assert forall|p: int, j: int|
                #[trigger] self.live(p) && 0 <= j < self.get(p).children@.len() implies {
                    let c2 = #[trigger] self.get(p).children@[j] as int;
                    &&& self.live(c2)
                    &&& self.get(c2).parent == Some(p as usize)
                } by {
                assert(o.live(p));
                let nch = self.get(p).children@;
                assert(nch.contains(nch[j]));
                if p == cur as int {
                    let och = o.get(p).children@;
                    let j2 = if j < k { j } else { j + 1 };
                    assert(nch[j] == och[j2]);
                    assert(o.live(och[j2] as int));
                } else {
                    assert(o.get(p).children@[j] == nch[j]);
                    assert(o.live(nch[j] as int));
                }
            }
            assert forall|p: int| #[trigger] self.live(p) && self.get(p).status == TaskStatus::Zombie implies self.get(p).children@.len() == 0 by {
                assert(o.live(p));
            }
            assert forall|p: int| #[trigger] self.live(p) implies self.get(p).parent != Some(p as usize) by {
                assert(o.live(p));
            }
            if self.live(INIT_PID as int) {
                assert(o.live(INIT_PID as int));
            }
            assert forall|p: int| #[trigger] self.live(p) implies self.get(p).priority >= 2 by {
                assert(o.live(p));
            }
            assert(ch[k as int] == child);
        }
        (child as isize, code)
    }

    /// Turns task `pid` into a zombie holding `exit_code`, and hands its children
    /// to the initial task, which appends them to its own in order.
    pub fn exit(&mut self, pid: usize, exit_code: i32)
        requires
            old(self).wf(),
            old(self).live(pid as int),
            old(self).live(INIT_PID as int),
            pid != INIT_PID,
            old(self).get(INIT_PID as int).status != TaskStatus::Zombie,
        ensures
            final(self).wf(),
            forall|p: int| #[trigger] final(self).live(p) == old(self).live(p),
            final(self).get(pid as int).status == TaskStatus::Zombie,
            final(self).get(pid as int).exit_code == exit_code,
            final(self).get(pid as int).children@.len() == 0,
            final(self).get(pid as int).parent == old(self).get(pid as int).parent,
            final(self).get(INIT_PID as int).children@ == old(self).get(INIT_PID as int).children@ + old(self).get(pid as int).children@,
            forall|k: int| 0 <= k < old(self).get(pid as int).children@.len() ==>
                final(self).get(#[trigger] old(self).get(pid as int).children@[k] as int).parent == Some(INIT_PID),
            forall|p: int| old(self).live(p) && p != pid && p != INIT_PID && !old(self).get(pid as int).children@.contains(p as usize) ==> #[trigger] final(self).get(p) == old(self).get(p),
    {
        let ghost o = *self;
        let mut t = self.take(pid);
        let mut kids: Vec<usize> = Vec::new();
        std::mem::swap(&mut kids, &mut t.children);
        t.status = TaskStatus::Zombie;
        t.exit_code = exit_code;
        self.put(pid, t);
        let ghost ok = kids@;
        proof {
            assert forall|k: int| 0 <= k < ok.len() implies #[trigger] ok[k] != pid by {
                assert(o.get(ok[k] as int).parent == Some(pid));
            }
            assert forall|k: int| 0 <= k < ok.len() implies self.get(#[trigger] ok[k] as int) == o.get(ok[k] as int) by {
                assert(ok[k] != pid);
            }
        }
        let mut i: usize = 0;
        while i < kids.len()
            invariant
                ok == kids@,
                ok == o.get(pid as int).children@,
                o.wf(),
                o.live(pid as int),
                pid != INIT_PID,
                i <= ok.len(),
                self.slots@.len() == o.slots@.len(),
                forall|p: int| #[trigger] self.live(p) == o.live(p),
                self.get(pid as int).status == TaskStatus::Zombie,
                self.get(pid as int).exit_code == exit_code,
                self.get(pid as int).children@.len() == 0,
                self.get(pid as int).parent == o.get(pid as int).parent,
                self.get(pid as int).pid == pid,
                self.get(pid as int).priority == o.get(pid as int).priority,
                forall|k: int| 0 <= k < i ==> self.get(#[trigger] ok[k] as int) == (TaskControlBlock { parent: Some(INIT_PID), ..o.get(ok[k] as int) }),
                forall|k: int| i <= k < ok.len() ==> self.get(#[trigger] ok[k] as int) == o.get(ok[k] as int),
                forall|p: int| o.live(p) && p != pid && !ok.contains(p as usize) ==> #[trigger] self.get(p) == o.get(p),
            decreases ok.len() - i,
        {
            let c = kids[i];
            let ghost before = *self;
            proof {
                assert(o.live(c as int));
                assert(ok.contains(c));
                assert(c != pid) by {
                    assert(o.get(c as int).parent == Some(pid));
                }
            }
            let mut ct = self.take(c);
            ct.parent = Some(INIT_PID);
            self.put(c, ct);
            proof {
                assert forall|p: int| #[trigger] self.live(p) == o.live(p) by {
                    assert(before.live(p) == o.live(p));
                    if p == c as int {
                        assert(self.slots@[p].is_some());
                    }
                }
                assert forall|p: int| o.live(p) && p != pid && !ok.contains(p as usize) implies #[trigger] self.get(p) == o.get(p) by {
                    assert(p != c as int);
                    assert(before.get(p) == o.get(p));
                }
                assert forall|k: int| 0 <= k < i + 1 implies self.get(#[trigger] ok[k] as int) == (TaskControlBlock { parent: Some(INIT_PID), ..o.get(ok[k] as int) }) by {
                    if k < i {
                        assert(ok[k] != c);
                    }
                }
                assert forall|k: int| i + 1 <= k < ok.len() implies self.get(#[trigger] ok[k] as int) == o.get(ok[k] as int) by {
                    assert(ok[k] != c);
                    assert(o.live(ok[k] as int));
                }
            }
            i = i + 1;
        }
        let ghost after_loop = *self;
        proof {
            assert(o.live(INIT_PID as int));
            assert(after_loop.live(INIT_PID as int));
        }
        let mut it = self.take(INIT_PID);
        let ghost init_old = it.children@;
        let ghost it0 = it;
        let mut j: usize = 0;
        while j < kids.len()
            invariant
                it.priority == it0.priority,
                it.pid == it0.pid,
                it.status == it0.status,
                it.parent == it0.parent,
                ok == kids@,
                j <= ok.len(),
                it.children@ == init_old + ok.subrange(0, j as int),
            decreases ok.len() - j,
        {
            it.children.push(kids[j]);
            proof {
                assert(ok.subrange(0, j as int + 1) == ok.subrange(0, j as int).push(ok[j as int]));
            }
            j = j + 1;
        }
        self.put(INIT_PID, it);
        proof {
            assert forall|p: int| #[trigger] self.live(p) == o.live(p) by {
                assert(after_loop.live(p) == o.live(p));
            }
            assert forall|p: int| p != INIT_PID && o.live(p) implies #[trigger] self.get(p) == after_loop.get(p) by {}
            assert(ok.subrange(0, ok.len() as int) == ok);
            assert(!ok.contains(INIT_PID)) by {
                if ok.contains(INIT_PID) {
                    let k = choose|k: int| 0 <= k < ok.len() && ok[k] == INIT_PID;
                    assert(o.live(INIT_PID as int));
                    assert(o.get(ok[k] as int).parent == Some(pid));
                }
            }
            assert(init_old == o.get(INIT_PID as int).children@) by {
                assert(!ok.contains(INIT_PID));
            }
            let nc = self.get(INIT_PID as int).children@;
            assert forall|p: int| #[trigger] self.live(p) implies self.get(p).pid == p by {
                assert(o.live(p));
                if p == INIT_PID as int {
                    assert(it0 == after_loop.get(INIT_PID as int));
                    assert(after_loop.get(INIT_PID as int) == o.get(INIT_PID as int));
                } else if ok.contains(p as usize) {
                    let k = choose|k: int| 0 <= k < ok.len() && ok[k] == p as usize;
                    assert(self.get(ok[k] as int).pid == o.get(ok[k] as int).pid);
                }
            }
            assert forall|p: int| #[trigger] self.live(p) implies self.get(p).children@.no_duplicates() by {
                assert(o.live(p));
                if p == INIT_PID as int {
                    assert forall|a: int, b: int| 0 <= a < nc.len() && 0 <= b < nc.len() && a != b implies nc[a] != nc[b] by {
                        let il = init_old.len() as int;
                        if a < il && b >= il {
                            assert(o.get(nc[a] as int).parent == Some(INIT_PID));
                            assert(o.get(ok[b - il] as int).parent == Some(pid));
                        } else if a >= il && b < il {
                            assert(o.get(nc[b] as int).parent == Some(INIT_PID));
                            assert(o.get(ok[a - il] as int).parent == Some(pid));
                        }
                    }
                } else if ok.contains(p as usize) {
                    let k = choose|k: int| 0 <= k < ok.len() && ok[k] == p as usize;
                    assert(self.get(ok[k] as int).children == o.get(ok[k] as int).children);
                }
            }
            assert forall|p: int, k: int|
                #[trigger] self.live(p) && 0 <= k < self.get(p).children@.len() implies {
                    let c2 = #[trigger] self.get(p).children@[k] as int;
                    &&& self.live(c2)
                    &&& self.get(c2).parent == Some(p as usize)
                } by {
                assert(o.live(p));
                let c2 = self.get(p).children@[k];
                if p == INIT_PID as int {
                    let il = init_old.len() as int;
                    if k < il {
                        assert(o.live(c2 as int));
                        assert(o.get(c2 as int).parent == Some(INIT_PID));
                        if ok.contains(c2) {
                            let m = choose|m: int| 0 <= m < ok.len() && ok[m] == c2;
                            assert(o.get(ok[m] as int).parent == Some(pid));
                        }
                    } else {
                        assert(c2 == ok[k - il]);
                        assert(o.live(c2 as int));
                    }
                } else if p == pid as int {
                } else {
                    let pc = if ok.contains(p as usize) {
                        let m = choose|m: int| 0 <= m < ok.len() && ok[m] == p as usize;
                        assert(self.get(ok[m] as int).children == o.get(ok[m] as int).children);
                        m
                    } else { 0 };
                    assert(self.get(p).children == o.get(p).children);
                    assert(o.live(c2 as int));
                    assert(o.get(c2 as int).parent == Some(p as usize));
                    if ok.contains(c2) {
                        let m = choose|m: int| 0 <= m < ok.len() && ok[m] == c2;
                        assert(o.get(ok[m] as int).parent == Some(pid));
                    }
                }
            }
            assert forall|p: int| #[trigger] self.live(p) implies self.get(p).priority >= 2 by {
                assert(o.live(p));
                if p == INIT_PID as int {
                    assert(it0 == after_loop.get(INIT_PID as int));
                    assert(after_loop.get(INIT_PID as int) == o.get(INIT_PID as int));
                } else if ok.contains(p as usize) {
                    let k = choose|k: int| 0 <= k < ok.len() && ok[k] == p as usize;
                    assert(self.get(ok[k] as int).priority == o.get(ok[k] as int).priority);
                }
            }
            assert forall|p: int| #[trigger] self.live(p) && self.get(p).status == TaskStatus::Zombie implies self.get(p).children@.len() == 0 by {
                assert(o.live(p));
                if ok.contains(p as usize) {
                    let k = choose|k: int| 0 <= k < ok.len() && ok[k] == p as usize;
                    assert(self.get(ok[k] as int).status == o.get(ok[k] as int).status);
                }
            }
        }
    }

    /// Clears the syscall counters and the first-schedule time of task `pid`, as a
    /// fresh program image starts in it.
    pub fn reset_for_exec(&mut self, pid: usize)
        requires
            old(self).wf(),
            old(self).live(pid as int),
        ensures
            final(self).wf(),
            forall|p: int| #[trigger] final(self).live(p) == old(self).live(p),
            final(self).get(pid as int).start_time == 0,
            final(self).get(pid as int).syscall_times@.len() == MAX_SYSCALL_NUM,
            forall|k: int| 0 <= k < MAX_SYSCALL_NUM ==> #[trigger] final(self).get(pid as int).syscall_times@[k] == 0,
            final(self).get(pid as int).pid == pid,
            final(self).get(pid as int).status == old(self).get(pid as int).status,
            final(self).get(pid as int).priority == old(self).get(pid as int).priority,
            final(self).get(pid as int).pass == old(self).get(pid as int).pass,
            forall|p: int| p != pid && old(self).live(p) ==> #[trigger] final(self).get(p) == old(self).get(p),
    {
        let mut t = self.take(pid);
        let fresh = TaskControlBlock::new(pid);
        t.syscall_times = fresh.syscall_times;
        t.start_time = 0;
        self.update(pid, t, Ghost(*old(self)));
    }
}

} // verus!

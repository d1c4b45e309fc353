//! The ready queue with stride selection, and the processor's current slot.
use vstd::prelude::*;

use crate::config::BIG_STRIDE;
use crate::task::{abs_diff, pass_lt, stride_of, Pass, TaskControlBlock, TaskStatus, TaskTable};

verus! {

/// The pass of the task at position `k` of the queue.
pub open spec fn queued_pass(tasks: &TaskTable, q: Seq<usize>, k: int) -> u64 {
    tasks.get(q[k] as int).pass.0
}

/// The position that selection picks among the first `n` queued tasks: the first
/// one whose pass no later pass comes strictly before; equal passes keep the earlier.
pub open spec fn pick(tasks: &TaskTable, q: Seq<usize>, n: int) -> int
    decreases n,
{
    if n <= 1 {
        0
    } else {
        let m = pick(tasks, q, n - 1);
        let a = queued_pass(tasks, q, n - 1);
        let b = queued_pass(tasks, q, m);
        if a != b && pass_lt(a, b) {
            n - 1
        } else {
            m
        }
    }
}

/// Selection picks a position among the first `n`.
pub proof fn lemma_pick_bound(tasks: &TaskTable, q: Seq<usize>, n: int)
    requires
        n >= 1,
    ensures
        0 <= pick(tasks, q, n) < n,
    decreases n,
{
    if n > 1 {
        lemma_pick_bound(tasks, q, n - 1);
    }
}

/// When the first `n` queued passes lie within half a big stride of each other,
/// selection picks the smallest pass, and the first among equal ones.
pub proof fn lemma_pick_is_min(tasks: &TaskTable, q: Seq<usize>, n: int)
    requires
        1 <= n <= q.len(),
        forall|j: int, k: int|
            0 <= j < n && 0 <= k < n ==> abs_diff(#[trigger] queued_pass(tasks, q, j) as int, #[trigger] queued_pass(tasks, q, k) as int)
                <= BIG_STRIDE as int / 2,
    ensures
        0 <= pick(tasks, q, n) < n,
        forall|k: int| 0 <= k < n ==> queued_pass(tasks, q, pick(tasks, q, n)) <= #[trigger] queued_pass(tasks, q, k),
        forall|k: int| 0 <= k < pick(tasks, q, n) ==> queued_pass(tasks, q, pick(tasks, q, n)) < #[trigger] queued_pass(tasks, q, k),
    decreases n,
{
    if n > 1 {
        lemma_pick_is_min(tasks, q, n - 1);
        let m = pick(tasks, q, n - 1);
        let a = queued_pass(tasks, q, n - 1);
        let b = queued_pass(tasks, q, m);
        assert(abs_diff(a as int, b as int) <= BIG_STRIDE as int / 2);
    }
}

/// The ready queue, holding PIDs.
pub struct TaskManager {
    ready_queue: Vec<usize>,
}

impl TaskManager {
    pub closed spec fn queue(&self) -> Seq<usize> {
        self.ready_queue@
    }

    pub fn new() -> (r: TaskManager)
        ensures
            r.queue().len() == 0,
    {
        TaskManager { ready_queue: Vec::new() }
    }

    /// Puts a task at the back of the queue.
    pub fn add(&mut self, pid: usize)
        ensures
            final(self).queue() == old(self).queue().push(pid),
    {
        self.ready_queue.push(pid)
    }

    /// The queued PIDs, front first.
    pub fn pids(&self) -> (r: &Vec<usize>)
        ensures
            r@ == self.queue(),
    {
        &self.ready_queue
    }

    pub fn len(&self) -> (r: usize)
        ensures
            r == self.queue().len(),
    {
        self.ready_queue.len()
    }

    /// Takes out the task with the smallest pass (see [`pick`]), moving the last
    /// queued task into its place; `None` when the queue is empty.
    pub fn fetch(&mut self, tasks: &TaskTable) -> (r: Option<usize>)
        requires
            forall|k: int| 0 <= k < old(self).queue().len() ==> tasks.live(#[trigger] old(self).queue()[k] as int),
        ensures
            r.is_none() <==> old(self).queue().len() == 0,
            r.is_none() ==> final(self).queue() == old(self).queue(),
            r matches Some(p) ==> {
                let q = old(self).queue();
                let i = pick(tasks, q, q.len() as int);
                &&& 0 <= i < q.len()
                &&& p == q[i]
                &&& final(self).queue() == q.update(i, q.last()).drop_last()
            },
    {
        let n = self.ready_queue.len();
        if n == 0 {
            return None;
        }
        let ghost q = self.ready_queue@;
        proof {
            assert forall|k: int| 0 <= k < q.len() implies tasks.live(#[trigger] q[k] as int) by {
                assert(old(self).queue()[k] == q[k]);
            }
            assert(tasks.live(q[0] as int));
        }
        let mut min_i: usize = 0;
        let mut min_pass: u64 = tasks.task(self.ready_queue[0]).pass.0;
        let mut i: usize = 1;
        while i < n
            invariant
                self.ready_queue@ == q,
                n == q.len(),
                1 <= i <= n,
                forall|k: int| 0 <= k < q.len() ==> tasks.live(#[trigger] q[k] as int),
                min_i as int == pick(tasks, q, i as int),
                min_i < i,
                min_pass == queued_pass(tasks, q, min_i as int),
            decreases n - i,
        {
            let p = tasks.task(self.ready_queue[i]).pass;
            if p.0 != min_pass && p.less_than(&Pass(min_pass)) {
                min_i = i;
                min_pass = p.0;
            }
            i = i + 1;
        }
        proof {
            lemma_pick_bound(tasks, q, n as int);
        }
        Some(self.ready_queue.swap_remove(min_i))
    }
}

/// Puts a task at the back of the ready queue.
pub fn add_task(manager: &mut TaskManager, pid: usize)
    ensures
        final(manager).queue() == old(manager).queue().push(pid),
{
    manager.add(pid);
}

/// Takes the next task from the queue and advances its pass by its stride.
pub fn fetch_task(manager: &mut TaskManager, tasks: &mut TaskTable) -> (r: Option<usize>)
    requires
        old(tasks).wf(),
        forall|k: int| 0 <= k < old(manager).queue().len() ==> old(tasks).live(#[trigger] old(manager).queue()[k] as int),
    ensures
        final(tasks).wf(),
        forall|p: int| #[trigger] final(tasks).live(p) == old(tasks).live(p),
        r.is_none() <==> old(manager).queue().len() == 0,
        r.is_none() ==> *final(tasks) == *old(tasks) && final(manager).queue() == old(manager).queue(),
        r matches Some(p) ==> {
            let q = old(manager).queue();
            let i = pick(old(tasks), q, q.len() as int);
            let t = old(tasks).get(p as int);
            &&& 0 <= i < q.len()
            &&& p == q[i]
            &&& final(manager).queue() == q.update(i, q.last()).drop_last()
            &&& final(tasks).get(p as int) == (TaskControlBlock {
                pass: Pass(((t.pass.0 + stride_of(t.priority as int)) % 0x1_0000_0000_0000_0000) as u64),
                ..t
            })
            &&& forall|o: int| o != p && old(tasks).live(o) ==> #[trigger] final(tasks).get(o) == old(tasks).get(o)
        },
{
    match manager.fetch(tasks) {
        None => None,
        Some(p) => {
            proof {
                let q = old(manager).queue();
                lemma_pick_bound(old(tasks), q, q.len() as int);
            }
            tasks.step_pass(p);
            Some(p)
        },
    }
}

/// The single CPU's current task.
pub struct Processor {
    current: Option<usize>,
}

impl Processor {
    pub closed spec fn current_spec(&self) -> Option<usize> {
        self.current
    }

    pub fn new() -> (r: Processor)
        ensures
            r.current_spec().is_none(),
    {
        Processor { current: None }
    }

    /// Takes the current task out, leaving none.
    pub fn take_current(&mut self) -> (r: Option<usize>)
        ensures
            r == old(self).current_spec(),
            final(self).current_spec().is_none(),
    {
        self.current.take()
    }

    pub fn current(&self) -> (r: Option<usize>)
        ensures
            r == self.current_spec(),
    {
        self.current
    }

    /// One round of the idle loop: fetch the next task, mark it Running, stamp
    /// its first-schedule time and make it current. The caller then switches to
    /// it. `None`, changing nothing, when no task is ready.
    pub fn run_next(&mut self, manager: &mut TaskManager, tasks: &mut TaskTable, now_us: u64) -> (r: Option<usize>)
        requires
            old(tasks).wf(),
            forall|k: int| 0 <= k < old(manager).queue().len() ==> old(tasks).live(#[trigger] old(manager).queue()[k] as int),
            forall|k: int| 0 <= k < old(manager).queue().len() ==> old(tasks).get(#[trigger] old(manager).queue()[k] as int).status != TaskStatus::Zombie,
        ensures
            final(tasks).wf(),
            forall|p: int| #[trigger] final(tasks).live(p) == old(tasks).live(p),
            r.is_none() <==> old(manager).queue().len() == 0,
            r.is_none() ==> *final(tasks) == *old(tasks) && *final(self) == *old(self),
            r matches Some(p) ==> {
                let q = old(manager).queue();
                let i = pick(old(tasks), q, q.len() as int);
                let t = old(tasks).get(p as int);
                &&& 0 <= i < q.len()
                &&& p == q[i]
                &&& final(manager).queue() == q.update(i, q.last()).drop_last()
                &&& final(self).current_spec() == Some(p)
                &&& final(tasks).get(p as int) == (TaskControlBlock {
                    pass: Pass(((t.pass.0 + stride_of(t.priority as int)) % 0x1_0000_0000_0000_0000) as u64),
                    status: TaskStatus::Running,
                    start_time: if t.start_time == 0 { now_us } else { t.start_time },
                    ..t
                })
                &&& forall|o: int| o != p && old(tasks).live(o) ==> #[trigger] final(tasks).get(o) == old(tasks).get(o)
            },
    {
        match fetch_task(manager, tasks) {
            None => None,
            Some(p) => {
                proof {
                    let q = old(manager).queue();
                    lemma_pick_bound(old(tasks), q, q.len() as int);
                    assert(old(tasks).get(q[pick(old(tasks), q, q.len() as int)] as int).status != TaskStatus::Zombie);
                }
                tasks.mark_running(p, now_us);
                self.current = Some(p);
                Some(p)
            },
        }
    }

    /// Puts the current task back in the queue as Ready, leaving no current task.
    /// Returns the task, or `None` when there was none.
    pub fn suspend_current(&mut self, manager: &mut TaskManager, tasks: &mut TaskTable) -> (r: Option<usize>)
        requires
            old(tasks).wf(),
            old(self).current_spec() matches Some(c) ==> old(tasks).live(c as int) && old(tasks).get(c as int).status != TaskStatus::Zombie,
        ensures
            final(tasks).wf(),
            forall|p: int| #[trigger] final(tasks).live(p) == old(tasks).live(p),
            r == old(self).current_spec(),
            final(self).current_spec().is_none(),
            r.is_none() ==> *final(tasks) == *old(tasks) && final(manager).queue() == old(manager).queue(),
            r matches Some(c) ==> {
                &&& final(manager).queue() == old(manager).queue().push(c)
                &&& final(tasks).get(c as int) == (TaskControlBlock { status: TaskStatus::Ready, ..old(tasks).get(c as int) })
                &&& forall|o: int| o != c && old(tasks).live(o) ==> #[trigger] final(tasks).get(o) == old(tasks).get(o)
            },
    {
        match self.current.take() {
            None => None,
            Some(c) => {
                tasks.set_status(c, TaskStatus::Ready);
                manager.add(c);
                Some(c)
            },
        }
    }
}

} // verus!

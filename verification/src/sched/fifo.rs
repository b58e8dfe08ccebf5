//! First-in first-out scheduler.
//!
//! The scheduler's state is the run queue of ready tasks, the task that is
//! currently running (none while the idle loop runs) and the wait queue of
//! blocked tasks. Each operation here is a transition of that state; it also
//! says between which saved contexts the CPU must switch, and the caller
//! performs the switch.
use vstd::prelude::*;

use crate::sched::circular_queue::CircularQueue;
use crate::sched::task::{with_status, TaskStatus, TaskStruct};

verus! {

/// Capacity of the run queue and of the wait queue.
pub const QUEUE_CAP: usize = 64;

/// Errors returned by the scheduler.
#[derive(Debug, PartialEq, Eq, Structural)]
pub enum SchedError {
    NotRunnable,
    EmptyRq,
    PopRq,
    Full,
}

/// Scheduling policy.
pub enum SchedType {
    FIFO,
    RR,
    CFS,
}

/// A place that holds a saved task context.
#[derive(Debug, Clone, Copy, PartialEq, Eq, Structural)]
pub enum ContextSlot {
    /// The idle loop's context.
    Idle,
    /// The context of the task that is now current.
    Current,
    /// The context of the task at the back of the run queue.
    RunQueueBack,
    /// The context of the task at the back of the wait queue.
    WaitQueueBack,
}

/// A context switch: save the running context into `from`, then resume the
/// context in `to`.
#[derive(Debug, Clone, Copy, PartialEq, Eq, Structural)]
pub struct Switch {
    pub from: ContextSlot,
    pub to: ContextSlot,
}

pub struct Scheduler {
    pub method: SchedType,
    pub run_queue: CircularQueue<TaskStruct, 64>,
}

/// Preemption: the task at the front of the run queue becomes the running
/// task; the task that was running (if any) goes, ready, to the back of the
/// run queue, else the idle loop's context is saved. With an empty run queue
/// nothing changes and no switch happens.
pub open spec fn schedule_step(rq: Seq<TaskStruct>, cur: Option<TaskStruct>) -> (
    Option<Switch>,
    Seq<TaskStruct>,
    Option<TaskStruct>,
) {
    if rq.len() == 0 {
        (None, rq, cur)
    } else {
        let next = Some(with_status(rq[0], TaskStatus::Running));
        match cur {
            None => (
                Some(Switch { from: ContextSlot::Idle, to: ContextSlot::Current }),
                rq.drop_first(),
                next,
            ),
            Some(p) => (
                Some(Switch { from: ContextSlot::RunQueueBack, to: ContextSlot::Current }),
                rq.drop_first().push(with_status(p, TaskStatus::Ready)),
                next,
            ),
        }
    }
}

/// Blocking: the running task goes, blocked, to the back of the wait queue
/// and the task at the front of the run queue (if any) starts running, else
/// the idle loop resumes. With no running task nothing changes.
pub open spec fn block_step(rq: Seq<TaskStruct>, cur: Option<TaskStruct>, wq: Seq<TaskStruct>) -> (
    Option<Switch>,
    Seq<TaskStruct>,
    Option<TaskStruct>,
    Seq<TaskStruct>,
) {
    match cur {
        None => (None, rq, cur, wq),
        Some(p) => {
            let wq2 = wq.push(with_status(p, TaskStatus::Blocked));
            if rq.len() == 0 {
                (Some(Switch { from: ContextSlot::WaitQueueBack, to: ContextSlot::Idle }), rq, None, wq2)
            } else {
                (
                    Some(Switch { from: ContextSlot::WaitQueueBack, to: ContextSlot::Current }),
                    rq.drop_first(),
                    Some(with_status(rq[0], TaskStatus::Running)),
                    wq2,
                )
            }
        },
    }
}

/// Position of the first task in `q` with identity `pid`, if any.
pub open spec fn first_with_pid(q: Seq<TaskStruct>, pid: u16) -> Option<int>
    decreases q.len(),
{
    if q.len() == 0 {
        None
    } else {
        match first_with_pid(q.drop_last(), pid) {
            Some(k) => Some(k),
            None => if q.last().pid == pid {
                Some(q.len() - 1)
            } else {
                None
            },
        }
    }
}

/// Waking: the first blocked task with identity `pid` leaves the wait queue
/// and goes, ready, to the back of the run queue. Without such a task
/// nothing changes.
pub open spec fn wake_step(rq: Seq<TaskStruct>, wq: Seq<TaskStruct>, pid: u16) -> (
    Seq<TaskStruct>,
    Seq<TaskStruct>,
) {
    match first_with_pid(wq, pid) {
        None => (rq, wq),
        Some(k) => (rq.push(with_status(wq[k], TaskStatus::Ready)), wq.remove(k)),
    }
}

/// `first_with_pid` finds the lowest position holding `pid`.
pub proof fn lemma_first_with_pid(q: Seq<TaskStruct>, pid: u16)
    ensures
        match first_with_pid(q, pid) {
            Some(k) => 0 <= k < q.len() && q[k].pid == pid && forall|j: int|
                0 <= j < k ==> #[trigger] q[j].pid != pid,
            None => forall|j: int| 0 <= j < q.len() ==> #[trigger] q[j].pid != pid,
        },
    decreases q.len(),
{
    if q.len() > 0 {
        lemma_first_with_pid(q.drop_last(), pid);
        assert forall|j: int| 0 <= j < q.len() - 1 implies q.drop_last()[j] == q[j] by {}
    }
}

impl Scheduler {
    /// The run queue is well formed.
    pub open spec fn wf(&self) -> bool {
        self.run_queue.wf()
    }

    /// A scheduler with policy `sched_type` and an empty run queue.
    pub fn init(sched_type: SchedType) -> (r: Self)
        ensures
            r.wf(),
            r.method == sched_type,
            r.run_queue@ == Seq::<TaskStruct>::empty(),
    {
        Self { method: sched_type, run_queue: CircularQueue::new() }
    }

    /// Puts a ready task at the back of the run queue. Fails with
    /// `NotRunnable` for a task that is not ready and with `Full` when the
    /// run queue is full; on failure nothing changes.
    pub fn enqueue_task(&mut self, new_task: TaskStruct) -> (r: Result<(), SchedError>)
        requires
            old(self).wf(),
        ensures
            final(self).wf(),
            final(self).method == old(self).method,
            new_task.status != TaskStatus::Ready ==> r == Err::<(), SchedError>(
                SchedError::NotRunnable,
            ) && final(self).run_queue@ == old(self).run_queue@,
            new_task.status == TaskStatus::Ready && old(self).run_queue@.len() == QUEUE_CAP ==> r
                == Err::<(), SchedError>(SchedError::Full) && final(self).run_queue@ == old(
                self,
            ).run_queue@,
            new_task.status == TaskStatus::Ready && old(self).run_queue@.len() < QUEUE_CAP ==> r
                is Ok && final(self).run_queue@ == old(self).run_queue@.push(new_task),
    {
        if !new_task.is_runnable() {
            return Err(SchedError::NotRunnable);
        }
        match self.run_queue.push_back(new_task) {
            Ok(()) => Ok(()),
            Err(_) => Err(SchedError::Full),
        }
    }

    /// Takes the task at the front of the run queue; `EmptyRq` when there
    /// is none.
    fn sched_dequeue_task(&mut self) -> (r: Result<TaskStruct, SchedError>)
        requires
            old(self).wf(),
        ensures
            final(self).wf(),
            final(self).method == old(self).method,
            old(self).run_queue@.len() == 0 ==> r == Err::<TaskStruct, SchedError>(
                SchedError::EmptyRq,
            ) && final(self).run_queue@ == old(self).run_queue@,
            old(self).run_queue@.len() > 0 ==> r == Ok::<TaskStruct, SchedError>(
                old(self).run_queue@[0],
            ) && final(self).run_queue@ == old(self).run_queue@.drop_first(),
    {
        self.run_queue.pop_front().ok_or(SchedError::EmptyRq)
    }
}

/// Picks the next task from the run queue and makes it current (timer
/// preemption). Returns the context switch to perform, or `None` to stay
/// on the running context: when the scheduler is not set up yet or the run
/// queue is empty.
pub fn schedule(sched: &mut Option<Scheduler>, current: &mut Option<TaskStruct>) -> (r: Option<
    Switch,
>)
    requires
        (*old(sched)) is Some ==> (*old(sched))->0.wf(),
    ensures
        match *old(sched) {
            None => r is None && *final(sched) == *old(sched) && *final(current) == *old(current),
            Some(s) => {
                &&& (*final(sched)) is Some
                &&& (*final(sched))->0.wf()
                &&& (*final(sched))->0.method == s.method
                &&& (r, (*final(sched))->0.run_queue@, *final(current)) == schedule_step(
                    s.run_queue@,
                    *old(current),
                )
            },
        },
{
    let s = match sched {
        Some(s) => s,
        None => return None,
    };
    proof {
        s.run_queue.lemma_len_bound();
    }
    let mut next = match s.sched_dequeue_task() {
        Ok(task) => task,
        Err(_) => return None,
    };
    let from = match current.take() {
        Some(mut prev) => {
            prev.change_state(TaskStatus::Ready).unwrap();
            // Cannot be full: it just handed out `next`.
            s.run_queue.push_back(prev).unwrap();
            ContextSlot::RunQueueBack
        },
        None => ContextSlot::Idle,
    };
    next.change_state(TaskStatus::Running).unwrap();
    *current = Some(next);
    Some(Switch { from, to: ContextSlot::Current })
}

/// Blocks the running task: it moves, blocked, to the back of the wait
/// queue and the next ready task (or the idle loop) runs. Returns the
/// context switch to perform, or `None` when the scheduler is not set up
/// yet or no task is running.
pub fn block_current(
    sched: &mut Option<Scheduler>,
    current: &mut Option<TaskStruct>,
    wait: &mut Option<CircularQueue<TaskStruct, 64>>,
) -> (r: Option<Switch>)
    requires
        (*old(sched)) is Some ==> (*old(sched))->0.wf(),
        (*old(wait)) is Some ==> (*old(wait))->0.wf(),
        (*old(sched)) is Some && (*old(current)) is Some ==> (*old(wait)) is Some && (*old(wait))->0@.len()
            < QUEUE_CAP,
    ensures
        (*old(sched)) is None ==> r is None && *final(sched) == *old(sched) && *final(current) == *old(
            current,
        ) && *final(wait) == *old(wait),
        (*old(sched)) is Some && (*old(current)) is None ==> r is None && *final(sched) == *old(sched)
            && *final(current) == *old(current) && *final(wait) == *old(wait),
        (*old(sched)) is Some && (*old(current)) is Some ==> {
            &&& (*final(sched)) is Some
            &&& (*final(sched))->0.wf()
            &&& (*final(sched))->0.method == (*old(sched))->0.method
            &&& (*final(wait)) is Some
            &&& (*final(wait))->0.wf()
            &&& (r, (*final(sched))->0.run_queue@, *final(current), (*final(wait))->0@) == block_step(
                (*old(sched))->0.run_queue@,
                *old(current),
                (*old(wait))->0@,
            )
        },
{
    let s = match sched {
        Some(s) => s,
        None => return None,
    };
    let mut prev = match current.take() {
        Some(t) => t,
        None => return None,
    };
    prev.change_state(TaskStatus::Blocked).unwrap();
    let wait_q = wait.as_mut().unwrap();
    wait_q.push_back(prev).unwrap();
    let to = match s.sched_dequeue_task() {
        Ok(mut task) => {
            task.change_state(TaskStatus::Running).unwrap();
            *current = Some(task);
            ContextSlot::Current
        },
        Err(_) => ContextSlot::Idle,
    };
    Some(Switch { from: ContextSlot::WaitQueueBack, to })
}

/// Whether a task with identity `pid` waits in `wait`.
pub fn is_blocked(pid: u16, wait: &CircularQueue<TaskStruct, 64>) -> (r: bool)
    requires
        wait.wf(),
    ensures
        r == first_with_pid(wait@, pid) is Some,
        r == exists|j: int| 0 <= j < wait@.len() && #[trigger] wait@[j].pid == pid,
{
    proof {
        lemma_first_with_pid(wait@, pid);
    }
    let n = wait.len();
    let mut i: usize = 0;
    while i < n
        invariant
            wait.wf(),
            n == wait@.len(),
            i <= n,
            forall|j: int| 0 <= j < i ==> #[trigger] wait@[j].pid != pid,
        decreases n - i,
    {
        if wait.get(i).pid == pid {
            proof {
                lemma_first_with_pid(wait@, pid);
            }
            assert(wait@[i as int].pid == pid);
            return true;
        }
        i += 1;
    }
    false
}

/// Wakes the first blocked task with identity `pid`: it leaves the wait
/// queue and goes, ready, to the back of the run queue. Does nothing if no
/// task with `pid` is blocked or the scheduler is not set up yet.
pub fn wake_up(
    pid: u16,
    sched: &mut Option<Scheduler>,
    wait: &mut Option<CircularQueue<TaskStruct, 64>>,
)
    requires
        (*old(sched)) is Some ==> (*old(sched))->0.wf(),
        (*old(wait)) is Some ==> (*old(wait))->0.wf(),
        (*old(sched)) is Some && (*old(wait)) is Some && first_with_pid((*old(wait))->0@, pid) is Some
            ==> (*old(sched))->0.run_queue@.len() < QUEUE_CAP,
    ensures
        (*old(sched)) is None || (*old(wait)) is None ==> *final(sched) == *old(sched) && *final(wait)
            == *old(wait),
        (*old(sched)) is Some && (*old(wait)) is Some ==> {
            &&& (*final(sched)) is Some
            &&& (*final(sched))->0.wf()
            &&& (*final(sched))->0.method == (*old(sched))->0.method
            &&& (*final(wait)) is Some
            &&& (*final(wait))->0.wf()
            &&& ((*final(sched))->0.run_queue@, (*final(wait))->0@) == wake_step(
                (*old(sched))->0.run_queue@,
                (*old(wait))->0@,
                pid,
            )
        },
{
    let s = match sched {
        Some(s) => s,
        None => return ,
    };
    let wait_q = match wait {
        Some(q) => q,
        None => return ,
    };
    let ghost wq = wait_q@;
    let has_pid = |t: &TaskStruct| -> (b: bool)
        ensures
            b == (t.pid == pid),
        {
            t.pid == pid
        };
    let found = wait_q.remove_if(has_pid);
    proof {
        lemma_first_with_pid(wq, pid);
    }
    if let Some(mut task) = found {
        task.change_state(TaskStatus::Ready).unwrap();
        s.enqueue_task(task).unwrap();
    }
}

} // verus!

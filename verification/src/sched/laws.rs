//! Properties of the ring queue and the scheduler that span several
//! operations.
use vstd::multiset::Multiset;
use vstd::prelude::*;

use crate::sched::fifo::{
    block_step, first_with_pid, lemma_first_with_pid, schedule_step, wake_step, ContextSlot,
};
use crate::sched::task::{with_status, TaskStatus, TaskStruct};

verus! {

broadcast use vstd::seq_lib::group_to_multiset_ensures;

/// Identities of the tasks in `q`, with multiplicity.
pub open spec fn queue_pids(q: Seq<TaskStruct>) -> Multiset<u16> {
    q.map_values(|t: TaskStruct| t.pid).to_multiset()
}

/// Identity of the running task, if any.
pub open spec fn current_pids(c: Option<TaskStruct>) -> Multiset<u16> {
    match c {
        Some(t) => Multiset::singleton(t.pid),
        None => Multiset::empty(),
    }
}

/// Every task of `q` has status `s`.
pub open spec fn all_status(q: Seq<TaskStruct>, s: TaskStatus) -> bool {
    forall|i: int| 0 <= i < q.len() ==> #[trigger] q[i].status == s
}

/// The scheduler's status discipline: the run queue holds ready tasks, the
/// running task is running and the wait queue holds blocked tasks.
pub open spec fn status_discipline(rq: Seq<TaskStruct>, cur: Option<TaskStruct>, wq: Seq<TaskStruct>) -> bool {
    &&& all_status(rq, TaskStatus::Ready)
    &&& cur matches Some(t) ==> t.status == TaskStatus::Running
    &&& all_status(wq, TaskStatus::Blocked)
}

proof fn lemma_pids_push(q: Seq<TaskStruct>, t: TaskStruct)
    ensures
        queue_pids(q.push(t)) =~= queue_pids(q).insert(t.pid),
{
    assert(q.push(t).map_values(|t: TaskStruct| t.pid) =~= q.map_values(|t: TaskStruct| t.pid).push(
        t.pid,
    ));
}

proof fn lemma_pids_remove(q: Seq<TaskStruct>, k: int)
    requires
        0 <= k < q.len(),
    ensures
        queue_pids(q.remove(k)) =~= queue_pids(q).remove(q[k].pid),
{
    let f = |t: TaskStruct| t.pid;
    assert(q.remove(k).map_values(f) =~= q.map_values(f).remove(k));
}

proof fn lemma_pids_drop_first(q: Seq<TaskStruct>)
    requires
        q.len() > 0,
    ensures
        queue_pids(q.drop_first()) =~= queue_pids(q).remove(q[0].pid),
{
    assert(q.drop_first() =~= q.remove(0));
    lemma_pids_remove(q, 0);
}

/// Items leave a queue in the order they entered it: pushing `x` onto the
/// items `s` and popping hands out the front of `s` (or `x` itself when `s`
/// is empty), and `x` stays behind everything that was there before.
pub proof fn lemma_queue_fifo<T>(s: Seq<T>, x: T)
    ensures
        s.len() == 0 ==> s.push(x)[0] == x && s.push(x).drop_first() =~= s,
        s.len() > 0 ==> s.push(x)[0] == s[0] && s.push(x).drop_first() =~= s.drop_first().push(x),
{
}

/// Preemption neither loses nor invents a task.
pub proof fn lemma_schedule_keeps_tasks(rq: Seq<TaskStruct>, cur: Option<TaskStruct>)
    ensures
        ({
            let (_, rq2, cur2) = schedule_step(rq, cur);
            queue_pids(rq2).add(current_pids(cur2)) =~= queue_pids(rq).add(current_pids(cur))
        }),
{
    if rq.len() > 0 {
        lemma_pids_drop_first(rq);
        assert(queue_pids(rq).count(rq[0].pid) > 0) by {
            assert(rq.map_values(|t: TaskStruct| t.pid)[0] == rq[0].pid);
            assert(rq.map_values(|t: TaskStruct| t.pid).contains(rq[0].pid));
        }
        if let Some(p) = cur {
            lemma_pids_push(rq.drop_first(), with_status(p, TaskStatus::Ready));
        }
    }
}

/// Blocking neither loses nor invents a task.
pub proof fn lemma_block_keeps_tasks(rq: Seq<TaskStruct>, cur: Option<TaskStruct>, wq: Seq<TaskStruct>)
    ensures
        ({
            let (_, rq2, cur2, wq2) = block_step(rq, cur, wq);
            queue_pids(rq2).add(current_pids(cur2)).add(queue_pids(wq2)) =~= queue_pids(rq).add(
                current_pids(cur),
            ).add(queue_pids(wq))
        }),
{
    if let Some(p) = cur {
        lemma_pids_push(wq, with_status(p, TaskStatus::Blocked));
        if rq.len() > 0 {
            lemma_pids_drop_first(rq);
            assert(queue_pids(rq).count(rq[0].pid) > 0) by {
                assert(rq.map_values(|t: TaskStruct| t.pid)[0] == rq[0].pid);
                assert(rq.map_values(|t: TaskStruct| t.pid).contains(rq[0].pid));
            }
        }
    }
}

/// Waking neither loses nor invents a task.
pub proof fn lemma_wake_keeps_tasks(rq: Seq<TaskStruct>, wq: Seq<TaskStruct>, pid: u16)
    ensures
        ({
            let (rq2, wq2) = wake_step(rq, wq, pid);
            queue_pids(rq2).add(queue_pids(wq2)) =~= queue_pids(rq).add(queue_pids(wq))
        }),
{
    lemma_first_with_pid(wq, pid);
    if let Some(k) = first_with_pid(wq, pid) {
        lemma_pids_remove(wq, k);
        lemma_pids_push(rq, with_status(wq[k], TaskStatus::Ready));
        assert(queue_pids(wq).count(wq[k].pid) > 0) by {
            assert(wq.map_values(|t: TaskStruct| t.pid)[k] == wq[k].pid);
            assert(wq.map_values(|t: TaskStruct| t.pid).contains(wq[k].pid));
        }
    }
}

/// Preemption keeps the status discipline.
pub proof fn lemma_schedule_keeps_discipline(
    rq: Seq<TaskStruct>,
    cur: Option<TaskStruct>,
    wq: Seq<TaskStruct>,
)
    requires
        status_discipline(rq, cur, wq),
    ensures
        ({
            let (_, rq2, cur2) = schedule_step(rq, cur);
            status_discipline(rq2, cur2, wq)
        }),
{
    if rq.len() > 0 {
        let (_, rq2, cur2) = schedule_step(rq, cur);
        assert forall|i: int| 0 <= i < rq2.len() implies #[trigger] rq2[i].status
            == TaskStatus::Ready by {
            if i < rq.len() - 1 {
                assert(rq2[i] == rq[i + 1]);
            }
        }
    }
}

/// Blocking keeps the status discipline.
pub proof fn lemma_block_keeps_discipline(
    rq: Seq<TaskStruct>,
    cur: Option<TaskStruct>,
    wq: Seq<TaskStruct>,
)
    requires
        status_discipline(rq, cur, wq),
    ensures
        ({
            let (_, rq2, cur2, wq2) = block_step(rq, cur, wq);
            status_discipline(rq2, cur2, wq2)
        }),
{
    if cur is Some {
        let (_, rq2, cur2, wq2) = block_step(rq, cur, wq);
        assert forall|i: int| 0 <= i < wq2.len() implies #[trigger] wq2[i].status
            == TaskStatus::Blocked by {
            if i < wq.len() {
                assert(wq2[i] == wq[i]);
            }
        }
        assert forall|i: int| 0 <= i < rq2.len() implies #[trigger] rq2[i].status
            == TaskStatus::Ready by {
            if rq.len() > 0 {
                assert(rq2[i] == rq[i + 1]);
            }
        }
    }
}

/// Waking keeps the status discipline.
pub proof fn lemma_wake_keeps_discipline(
    rq: Seq<TaskStruct>,
    cur: Option<TaskStruct>,
    wq: Seq<TaskStruct>,
    pid: u16,
)
    requires
        status_discipline(rq, cur, wq),
    ensures
        ({
            let (rq2, wq2) = wake_step(rq, wq, pid);
            status_discipline(rq2, cur, wq2)
        }),
{
    lemma_first_with_pid(wq, pid);
    if let Some(k) = first_with_pid(wq, pid) {
        let (rq2, wq2) = wake_step(rq, wq, pid);
        assert forall|i: int| 0 <= i < rq2.len() implies #[trigger] rq2[i].status
            == TaskStatus::Ready by {
            if i < rq.len() {
                assert(rq2[i] == rq[i]);
            }
        }
        assert forall|i: int| 0 <= i < wq2.len() implies #[trigger] wq2[i].status
            == TaskStatus::Blocked by {
            if i < k {
                assert(wq2[i] == wq[i]);
            } else {
                assert(wq2[i] == wq[i + 1]);
            }
        }
    }
}

/// Waking an identity that no blocked task has changes nothing.
pub proof fn lemma_wake_absent_is_noop(rq: Seq<TaskStruct>, wq: Seq<TaskStruct>, pid: u16)
    requires
        forall|j: int| 0 <= j < wq.len() ==> #[trigger] wq[j].pid != pid,
    ensures
        wake_step(rq, wq, pid) == (rq, wq),
{
    lemma_first_with_pid(wq, pid);
    if first_with_pid(wq, pid) is Some {
        let k = first_with_pid(wq, pid)->0;
        assert(wq[k].pid == pid);
    }
}

/// Waking the task that just blocked puts it back, ready, at the end of the
/// run queue and restores the wait queue, provided no other blocked task
/// has its identity.
pub proof fn lemma_block_then_wake(rq: Seq<TaskStruct>, p: TaskStruct, wq: Seq<TaskStruct>)
    requires
        forall|j: int| 0 <= j < wq.len() ==> #[trigger] wq[j].pid != p.pid,
    ensures
        ({
            let (_, rq1, _, wq1) = block_step(rq, Some(p), wq);
            wake_step(rq1, wq1, p.pid) == (rq1.push(with_status(p, TaskStatus::Ready)), wq)
        }),
{
    let (_, rq1, _, wq1) = block_step(rq, Some(p), wq);
    lemma_first_with_pid(wq1, p.pid);
    let k = first_with_pid(wq1, p.pid)->0;
    if k < wq.len() {
        assert(wq1[k] == wq[k]);
    }
    assert(k == wq.len());
    assert(wq1.remove(k) =~= wq);
    assert(with_status(with_status(p, TaskStatus::Blocked), TaskStatus::Ready) == with_status(
        p,
        TaskStatus::Ready,
    ));
}

/// Preemption with a non-empty run queue always switches: the task that
/// waited longest (the front of the run queue) runs next, the run queue
/// loses it, and a task that was running goes, ready, behind everything
/// that waited; with nothing running, the idle loop's context is saved.
/// With an empty run queue nothing changes and no switch happens.
pub proof fn lemma_schedule_behaviour(rq: Seq<TaskStruct>, cur: Option<TaskStruct>)
    ensures
        ({
            let (sw, rq2, cur2) = schedule_step(rq, cur);
            &&& rq.len() == 0 ==> sw is None && rq2 == rq && cur2 == cur
            &&& rq.len() > 0 ==> {
                &&& sw is Some
                &&& sw->0.to == ContextSlot::Current
                &&& cur2 is Some
                &&& cur2->0.pid == rq[0].pid
                &&& cur2->0.status == TaskStatus::Running
                &&& cur2->0.nice == rq[0].nice
                &&& cur2->0.context == rq[0].context
                &&& match cur {
                    None => {
                        &&& sw->0.from == ContextSlot::Idle
                        &&& rq2.len() == rq.len() - 1
                        &&& forall|i: int| 0 <= i < rq2.len() ==> #[trigger] rq2[i] == rq[i + 1]
                    },
                    Some(p) => {
                        &&& sw->0.from == ContextSlot::RunQueueBack
                        &&& rq2.len() == rq.len()
                        &&& forall|i: int| 0 <= i < rq.len() - 1 ==> #[trigger] rq2[i] == rq[i + 1]
                        &&& rq2[rq.len() - 1].pid == p.pid
                        &&& rq2[rq.len() - 1].status == TaskStatus::Ready
                        &&& rq2[rq.len() - 1].nice == p.nice
                        &&& rq2[rq.len() - 1].context == p.context
                    },
                }
            }
        }),
{
}

/// Blocking moves the running task, blocked, behind everything in the wait
/// queue and leaves the rest of the wait queue as it was; the task that
/// waited longest in the run queue (if any) runs next, else the idle loop.
/// With no running task nothing changes and no switch happens.
pub proof fn lemma_block_behaviour(rq: Seq<TaskStruct>, cur: Option<TaskStruct>, wq: Seq<TaskStruct>)
    ensures
        ({
            let (sw, rq2, cur2, wq2) = block_step(rq, cur, wq);
            &&& cur is None ==> sw is None && rq2 == rq && cur2 == cur && wq2 == wq
            &&& cur matches Some(p) ==> {
                &&& sw is Some
                &&& sw->0.from == ContextSlot::WaitQueueBack
                &&& wq2.len() == wq.len() + 1
                &&& forall|i: int| 0 <= i < wq.len() ==> #[trigger] wq2[i] == wq[i]
                &&& wq2[wq.len() as int].pid == p.pid
                &&& wq2[wq.len() as int].status == TaskStatus::Blocked
                &&& wq2[wq.len() as int].context == p.context
                &&& rq.len() == 0 ==> sw->0.to == ContextSlot::Idle && cur2 is None && rq2 == rq
                &&& rq.len() > 0 ==> {
                    &&& sw->0.to == ContextSlot::Current
                    &&& cur2 is Some
                    &&& cur2->0.pid == rq[0].pid
                    &&& cur2->0.status == TaskStatus::Running
                    &&& cur2->0.context == rq[0].context
                    &&& rq2.len() == rq.len() - 1
                    &&& forall|i: int| 0 <= i < rq2.len() ==> #[trigger] rq2[i] == rq[i + 1]
                }
            }
        }),
{
}

/// Waking `pid` when some blocked task has it moves the first such task
/// (the one that blocked earliest), ready, behind everything in the run
/// queue, and takes exactly that task out of the wait queue, keeping the
/// order of the others. When no blocked task has `pid`, nothing changes.
pub proof fn lemma_wake_behaviour(rq: Seq<TaskStruct>, wq: Seq<TaskStruct>, pid: u16, k: int)
    requires
        0 <= k < wq.len(),
        wq[k].pid == pid,
        forall|j: int| 0 <= j < k ==> #[trigger] wq[j].pid != pid,
    ensures
        ({
            let (rq2, wq2) = wake_step(rq, wq, pid);
            &&& rq2.len() == rq.len() + 1
            &&& forall|i: int| 0 <= i < rq.len() ==> #[trigger] rq2[i] == rq[i]
            &&& rq2[rq.len() as int].pid == pid
            &&& rq2[rq.len() as int].status == TaskStatus::Ready
            &&& rq2[rq.len() as int].nice == wq[k].nice
            &&& rq2[rq.len() as int].context == wq[k].context
            &&& wq2.len() == wq.len() - 1
            &&& forall|i: int| 0 <= i < k ==> #[trigger] wq2[i] == wq[i]
            &&& forall|i: int| k <= i < wq2.len() ==> #[trigger] wq2[i] == wq[i + 1]
        }),
{
    lemma_first_with_pid(wq, pid);
    let f = first_with_pid(wq, pid)->0;
    if f < k {
        assert(wq[f].pid != pid);
    }
    if f > k {
        assert(wq[k].pid != pid);
    }
}

} // verus!

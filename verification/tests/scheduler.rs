use rand_kernel::sched::circular_queue::CircularQueue;
use rand_kernel::sched::fifo::{
    block_current, is_blocked, schedule, wake_up, ContextSlot, SchedError, SchedType, Scheduler, Switch,
};
use rand_kernel::sched::task::{TaskContext, TaskStatus, TaskStruct};

fn task(pid: u16) -> TaskStruct {
    TaskStruct::new(pid, TaskContext { sp: 0x1000 * pid as usize })
}

fn pids(q: &mut CircularQueue<TaskStruct, 64>) -> Vec<(u16, TaskStatus)> {
    let mut out = Vec::new();
    let n = q.len();
    for _ in 0..n {
        let t = q.pop_front().unwrap();
        out.push((t.pid, t.status));
        q.push_back(t).unwrap();
    }
    out
}

#[test]
fn enqueue_accepts_only_ready_tasks() {
    let mut s = Scheduler::init(SchedType::FIFO);
    assert_eq!(s.enqueue_task(task(1)), Ok(()));
    let mut t = task(2);
    t.change_state(TaskStatus::Blocked).unwrap();
    assert_eq!(s.enqueue_task(t), Err(SchedError::NotRunnable));
    assert_eq!(s.run_queue.len(), 1);
}

#[test]
fn enqueue_into_full_run_queue_fails() {
    let mut s = Scheduler::init(SchedType::RR);
    for pid in 0..64 {
        assert_eq!(s.enqueue_task(task(pid)), Ok(()));
    }
    assert_eq!(s.enqueue_task(task(64)), Err(SchedError::Full));
}

#[test]
fn schedule_without_scheduler_or_tasks_stays() {
    let mut none: Option<Scheduler> = None;
    let mut cur = None;
    assert_eq!(schedule(&mut none, &mut cur), None);
    let mut sched = Some(Scheduler::init(SchedType::FIFO));
    assert_eq!(schedule(&mut sched, &mut cur), None);
    assert!(cur.is_none());
}

#[test]
fn schedule_round_robins_in_fifo_order() {
    let mut sched = Some(Scheduler::init(SchedType::FIFO));
    for pid in 1..=3 {
        sched.as_mut().unwrap().enqueue_task(task(pid)).unwrap();
    }
    let mut cur = None;
    // From the idle loop to task 1.
    assert_eq!(
        schedule(&mut sched, &mut cur),
        Some(Switch { from: ContextSlot::Idle, to: ContextSlot::Current })
    );
    assert_eq!(cur.as_ref().unwrap().pid, 1);
    assert!(cur.as_ref().unwrap().status == TaskStatus::Running);
    // Task 1 is preempted and goes to the back.
    let mut order = Vec::new();
    for _ in 0..6 {
        assert_eq!(
            schedule(&mut sched, &mut cur),
            Some(Switch { from: ContextSlot::RunQueueBack, to: ContextSlot::Current })
        );
        order.push(cur.as_ref().unwrap().pid);
    }
    assert_eq!(order, vec![2, 3, 1, 2, 3, 1]);
    let rq = pids(&mut sched.as_mut().unwrap().run_queue);
    assert_eq!(rq, vec![(2, TaskStatus::Ready), (3, TaskStatus::Ready)]);
}

#[test]
fn block_and_wake() {
    let mut sched = Some(Scheduler::init(SchedType::FIFO));
    let mut wait = Some(CircularQueue::<TaskStruct, 64>::new());
    sched.as_mut().unwrap().enqueue_task(task(1)).unwrap();
    sched.as_mut().unwrap().enqueue_task(task(2)).unwrap();
    let mut cur = None;
    schedule(&mut sched, &mut cur);
    assert_eq!(cur.as_ref().unwrap().pid, 1);

    // Task 1 blocks; task 2 runs.
    assert_eq!(
        block_current(&mut sched, &mut cur, &mut wait),
        Some(Switch { from: ContextSlot::WaitQueueBack, to: ContextSlot::Current })
    );
    assert_eq!(cur.as_ref().unwrap().pid, 2);
    assert_eq!(pids(wait.as_mut().unwrap()), vec![(1, TaskStatus::Blocked)]);

    // Task 2 blocks; nothing is ready, so the idle loop runs.
    assert_eq!(
        block_current(&mut sched, &mut cur, &mut wait),
        Some(Switch { from: ContextSlot::WaitQueueBack, to: ContextSlot::Idle })
    );
    assert!(cur.is_none());
    // Blocking from the idle loop does nothing.
    assert_eq!(block_current(&mut sched, &mut cur, &mut wait), None);

    // Waking an unknown pid does nothing.
    wake_up(7, &mut sched, &mut wait);
    assert_eq!(wait.as_ref().unwrap().len(), 2);

    // Waking task 2 moves it, ready, to the run queue.
    wake_up(2, &mut sched, &mut wait);
    assert_eq!(pids(wait.as_mut().unwrap()), vec![(1, TaskStatus::Blocked)]);
    assert_eq!(pids(&mut sched.as_mut().unwrap().run_queue), vec![(2, TaskStatus::Ready)]);
}

#[test]
fn wake_without_queues_does_nothing() {
    let mut none: Option<Scheduler> = None;
    let mut wait = Some(CircularQueue::<TaskStruct, 64>::new());
    wait.as_mut().unwrap().push_back(task(3)).unwrap();
    wake_up(3, &mut none, &mut wait);
    assert_eq!(wait.as_ref().unwrap().len(), 1);
    let mut sched = Some(Scheduler::init(SchedType::CFS));
    let mut no_wait: Option<CircularQueue<TaskStruct, 64>> = None;
    wake_up(3, &mut sched, &mut no_wait);
    assert!(sched.as_ref().unwrap().run_queue.is_empty());
}

#[test]
fn is_blocked_finds_waiting_tasks() {
    let mut wait = CircularQueue::<TaskStruct, 64>::new();
    assert!(!is_blocked(1, &wait));
    wait.push_back(task(1)).unwrap();
    wait.push_back(task(2)).unwrap();
    assert!(is_blocked(2, &wait));
    assert!(!is_blocked(3, &wait));
    assert_eq!(wait.get(1).pid, 2);
}

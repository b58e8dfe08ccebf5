//! Tasks: their state, identity and saved CPU context.
use vstd::prelude::*;

verus! {

/// Size in bytes of a task's kernel stack.
pub const STACK_SIZE: usize = 16 * 1024;

/// Bytes of the initial frame on a fresh stack: the six callee-saved
/// registers that the context switch pops, then the entry address it
/// returns to.
pub const INITIAL_FRAME_SIZE: usize = 56;

/// Priority of a new task.
pub const TASK_NICE_DEFAULT: i8 = 0;

/// Errors caused by a task operation.
#[derive(Debug)]
pub enum TaskError {
    IncorrectStatus,
}

/// Scheduling state of a task.
#[derive(Debug, Clone, Copy, PartialEq, Eq, Structural)]
pub enum TaskStatus {
    Ready,
    Running,
    Blocked,
    Terminated,
}

/// Saved CPU context of a task: its stack pointer while it is switched out.
pub struct TaskContext {
    pub sp: usize,
}

impl TaskContext {
    /// The context of a fresh task whose stack occupies
    /// `[base, base + STACK_SIZE)`: the stack pointer is 16-byte aligned and
    /// leaves room above it for the initial frame.
    pub fn for_stack(base: usize) -> (r: Self)
        requires
            base + STACK_SIZE <= usize::MAX,
        ensures
            r.sp == (base + STACK_SIZE - INITIAL_FRAME_SIZE) / 16 * 16,
            r.sp % 16 == 0,
            base <= r.sp,
            r.sp + INITIAL_FRAME_SIZE <= base + STACK_SIZE,
    {
        let top = base + STACK_SIZE - INITIAL_FRAME_SIZE;
        proof {
            assert(16usize == 1usize << 4usize) by (bit_vector);
            crate::memory::lemma_round_down_pow2(top, 16, 4);
            crate::memory::lemma_round_up_bounds(top as int, 16);
            vstd::arithmetic::div_mod::lemma_fundamental_div_mod(top as int, 16);
            vstd::arithmetic::div_mod::lemma_mod_multiples_basic(top as int / 16, 16);
        }
        let sp = top & !15;
        TaskContext { sp }
    }
}

/// A task.
pub struct TaskStruct {
    pub status: TaskStatus,
    pub pid: u16,
    pub nice: i8,
    pub context: TaskContext,
}

/// `t` with its status replaced by `status`.
pub open spec fn with_status(t: TaskStruct, status: TaskStatus) -> TaskStruct {
    TaskStruct { status, pid: t.pid, nice: t.nice, context: t.context }
}

impl TaskStruct {
    /// A new ready task with identity `pid`, default priority and the saved
    /// context `context`.
    pub fn new(pid: u16, context: TaskContext) -> (r: Self)
        ensures
            r.status == TaskStatus::Ready,
            r.pid == pid,
            r.nice == TASK_NICE_DEFAULT,
            r.context == context,
    {
        Self { status: TaskStatus::Ready, pid, nice: TASK_NICE_DEFAULT, context }
    }

    /// Marks the task terminated.
    pub fn destory(&mut self) -> (r: Result<(), TaskError>)
        ensures
            r is Ok,
            *final(self) == with_status(*old(self), TaskStatus::Terminated),
    {
        self.status = TaskStatus::Terminated;
        Ok(())
    }

    /// Whether the task may be put on the run queue.
    pub fn is_runnable(&self) -> (r: bool)
        ensures
            r == (self.status == TaskStatus::Ready),
    {
        if self.status == TaskStatus::Ready {
            return true;
        }
        false
    }

    /// Moves the task to `status`.
    pub fn change_state(&mut self, status: TaskStatus) -> (r: Result<(), TaskError>)
        ensures
            r is Ok,
            *final(self) == with_status(*old(self), status),
    {
        self.status = status;
        Ok(())
    }
}

} // verus!

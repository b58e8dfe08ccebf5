use rand_kernel::memory::align_up;
use rand_kernel::memory::heap::{BumpAllocator, HEAP_SIZE};
use rand_kernel::qemu::ExitCode;
use rand_kernel::sched::task::{TaskContext, TaskStatus, TaskStruct, STACK_SIZE, TASK_NICE_DEFAULT};

#[test]
fn align_up_rounds_to_power_of_two() {
    assert_eq!(align_up(0, 4096), 0);
    assert_eq!(align_up(1, 4096), 4096);
    assert_eq!(align_up(4096, 4096), 4096);
    assert_eq!(align_up(4097, 4096), 8192);
    assert_eq!(align_up(13, 8), 16);
    assert_eq!(align_up(13, 1), 13);
    // The last aligned address of the address space rounds to itself.
    assert_eq!(align_up(usize::MAX - 4095, 4096), usize::MAX - 4095);
}

#[test]
fn bump_allocator_hands_out_aligned_disjoint_blocks() {
    let mut heap = BumpAllocator::new();
    assert_eq!(heap.allocate(3, 1), Some(0));
    assert_eq!(heap.allocate(8, 8), Some(8));
    assert_eq!(heap.allocate(1, 4096), Some(4096));
    assert_eq!(heap.allocate(16, 16), Some(4112));
}

#[test]
fn bump_allocator_runs_out() {
    let mut heap = BumpAllocator::new();
    assert_eq!(heap.allocate(HEAP_SIZE - 16, 1), Some(0));
    assert_eq!(heap.allocate(32, 1), None);
    assert_eq!(heap.allocate(16, 1), Some(HEAP_SIZE - 16));
    assert_eq!(heap.allocate(1, 1), None);
    assert_eq!(heap.allocate(usize::MAX - 8, 1), None);
}

#[test]
fn exit_codes() {
    assert_eq!(ExitCode::Success.code(), 0x10);
    assert_eq!(ExitCode::Failure.code(), 0x11);
}

#[test]
fn task_state_changes() {
    let mut t = TaskStruct::new(5, TaskContext { sp: 0x8000 });
    assert!(t.status == TaskStatus::Ready);
    assert_eq!(t.pid, 5);
    assert_eq!(t.nice, TASK_NICE_DEFAULT);
    assert!(t.is_runnable());
    t.change_state(TaskStatus::Running).unwrap();
    assert!(!t.is_runnable());
    t.destory().unwrap();
    assert!(t.status == TaskStatus::Terminated);
    assert_eq!(t.context.sp, 0x8000);
}

#[test]
fn fresh_stack_pointer() {
    let ctx = TaskContext::for_stack(0x10000);
    // (0x10000 + 16 KiB - 56) rounded down to 16 bytes.
    assert_eq!(ctx.sp, 0x13fc0);
    assert_eq!(ctx.sp % 16, 0);
    assert!(ctx.sp + 56 <= 0x10000 + STACK_SIZE);
    let odd = TaskContext::for_stack(0x10008);
    assert_eq!(odd.sp, 0x13fd0);
}

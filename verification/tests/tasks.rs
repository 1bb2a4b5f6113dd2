use anasos_kernel::boot::validate_handoff;
use anasos_kernel::boot::BootError;
use anasos_kernel::boot::BOOT_MAGIC;
use anasos_kernel::executor::Executor;
use anasos_kernel::scancode::ScancodeQueue;
use anasos_kernel::task::ImmediateTask;
use anasos_kernel::task::KernelFuture;
use anasos_kernel::task::KernelTask;
use anasos_kernel::task::KeyboardTask;
use anasos_kernel::task::PollResult;

#[test]
fn scancode_queue_is_fifo_up_to_capacity() {
    let mut q = ScancodeQueue::new(4);
    q.register_waker(7);
    for s in [0x1eu8, 0x30, 0x2e] {
        assert_eq!(q.push_scancode(s), Some(7));
    }
    assert_eq!(q.pop(), Some(0x1e));
    assert_eq!(q.pop(), Some(0x30));
    assert_eq!(q.pop(), Some(0x2e));
    assert_eq!(q.pop(), None);
}

#[test]
fn scancode_queue_drops_overflow_without_corruption() {
    let mut q = ScancodeQueue::new(2);
    q.register_waker(3);
    assert_eq!(q.push_scancode(1), Some(3));
    assert_eq!(q.push_scancode(2), Some(3));
    // full: dropped, and nobody is woken for a dropped scancode
    assert_eq!(q.push_scancode(9), None);
    assert_eq!(q.len(), 2);
    assert_eq!(q.pop(), Some(1));
    assert_eq!(q.pop(), Some(2));
    assert_eq!(q.pop(), None);
}

#[test]
fn push_without_registered_waker_wakes_nobody() {
    let mut q = ScancodeQueue::new(4);
    assert_eq!(q.push_scancode(5), None);
    assert_eq!(q.pop(), Some(5));
}

#[test]
fn keyboard_task_drains_in_order_and_stays_pending() {
    let mut q = ScancodeQueue::new(8);
    let mut task = KeyboardTask::new();
    for s in [10u8, 20, 30] {
        q.push_scancode(s);
    }
    let r = task.poll(0, &mut q);
    assert_eq!(r, PollResult::Pending);
    assert_eq!(task.received().as_slice(), &[10, 20, 30]);
    assert_eq!(q.len(), 0);
    // more input, drained on the next poll, still in arrival order
    q.push_scancode(40);
    let r2 = task.poll(0, &mut q);
    assert_eq!(r2, PollResult::Pending);
    assert_eq!(task.received().as_slice(), &[10, 20, 30, 40]);
}

#[test]
fn immediately_ready_task_completes_in_one_pass() {
    let mut q = ScancodeQueue::new(4);
    let mut ex: Executor<KernelTask> = Executor::new();
    let id = ex.spawn(KernelTask::Immediate(ImmediateTask::new()));
    assert!(!ex.task_done(id));
    ex.run_ready_tasks(&mut q);
    assert!(ex.task_done(id));
    assert!(!ex.has_runnable());
}

#[test]
fn woken_task_is_polled_again() {
    let mut q = ScancodeQueue::new(8);
    let mut ex: Executor<KernelTask> = Executor::new();
    let kb = ex.spawn(KernelTask::Keyboard(KeyboardTask::new()));
    ex.run_ready_tasks(&mut q);
    // suspended now; an interrupt pushes a scancode and wakes the task
    assert!(!ex.has_runnable());
    let wake = q.push_scancode(0x2a);
    assert_eq!(wake, Some(kb));
    ex.wake(kb);
    // waking is idempotent per pending wake
    ex.wake(kb);
    assert!(ex.has_runnable());
    ex.run_ready_tasks(&mut q);
    match ex.task_ref(kb) {
        Some(KernelTask::Keyboard(t)) => assert_eq!(t.received().as_slice(), &[0x2a]),
        _ => panic!("keyboard task should still be alive"),
    }
    // the keyboard task never completes
    assert!(!ex.task_done(kb));
}

#[test]
fn suspended_task_is_not_polled_without_a_wake() {
    let mut q = ScancodeQueue::new(8);
    let mut ex: Executor<KernelTask> = Executor::new();
    let kb = ex.spawn(KernelTask::Keyboard(KeyboardTask::new()));
    ex.run_ready_tasks(&mut q);
    // data arrives but nothing wakes the task: it stays suspended
    q.push(0x10);
    ex.run_ready_tasks(&mut q);
    assert_eq!(q.len(), 1);
    match ex.task_ref(kb) {
        Some(KernelTask::Keyboard(t)) => assert_eq!(t.received().len(), 0),
        _ => panic!("keyboard task should still be alive"),
    }
    // once woken, the next pass drains the queue
    ex.wake(kb);
    ex.run_ready_tasks(&mut q);
    match ex.task_ref(kb) {
        Some(KernelTask::Keyboard(t)) => assert_eq!(t.received().as_slice(), &[0x10]),
        _ => panic!("keyboard task should still be alive"),
    }
}

#[test]
fn waking_unknown_or_done_tasks_changes_nothing() {
    let mut q = ScancodeQueue::new(4);
    let mut ex: Executor<KernelTask> = Executor::new();
    let id = ex.spawn(KernelTask::Immediate(ImmediateTask::new()));
    ex.run_ready_tasks(&mut q);
    ex.wake(id);
    ex.wake(99);
    assert!(!ex.has_runnable());
}

#[test]
fn mixed_tasks_one_pass() {
    let mut q = ScancodeQueue::new(8);
    let mut ex: Executor<KernelTask> = Executor::new();
    let a = ex.spawn(KernelTask::Immediate(ImmediateTask::new()));
    let kb = ex.spawn(KernelTask::Keyboard(KeyboardTask::new()));
    q.push_scancode(1);
    q.push_scancode(2);
    ex.run_ready_tasks(&mut q);
    assert!(ex.task_done(a));
    assert!(!ex.task_done(kb));
    match ex.task_ref(kb) {
        Some(KernelTask::Keyboard(t)) => assert_eq!(t.received().as_slice(), &[1, 2]),
        _ => panic!("keyboard task should still be alive"),
    }
}

#[test]
fn handoff_validation_order_and_success() {
    assert_eq!(validate_handoff(0, true, true), Err(BootError::InvalidMagic));
    assert_eq!(validate_handoff(BOOT_MAGIC, false, true), Err(BootError::MissingMemoryMap));
    assert_eq!(validate_handoff(BOOT_MAGIC, true, false), Err(BootError::MissingFramebuffer));
    assert_eq!(validate_handoff(BOOT_MAGIC, false, false), Err(BootError::MissingMemoryMap));
    assert_eq!(validate_handoff(BOOT_MAGIC, true, true), Ok(()));
    assert_eq!(BOOT_MAGIC, 0x36d76289);
}

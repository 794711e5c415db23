use rvos::ppn_manager::PPNManager;
use rvos::task_manager::{can_handle_trap, handle_trap};
use rvos::trap::TrapAction;
use rvos::syscall::SyscallWork;
use rvos::ecall::shutdown;
use rvos::task_manager::build_next_trap_context;
use rvos::elf::{ElfImage, ElfSegment};
use rvos::ppn_manager::PPNManagerImpl;
use rvos::task::TaskState;
use rvos::task_manager::{TaskManager, MAX_TASK_NUM, MAX_TASK_SIZE, TASK_RUNNING_ADDR};

fn allocator_with_pages(n: usize) -> PPNManagerImpl {
    let mut a = PPNManagerImpl::new();
    a.add_memory(0x8000_0000, 0x8000_0000 + n * 4096);
    a
}

fn images() -> Vec<Result<ElfImage, &'static str>> {
    let mut v = Vec::new();
    for i in 0..MAX_TASK_NUM {
        v.push(Ok(ElfImage {
            entry_point: 0x10000,
            segments: vec![ElfSegment {
                is_load: true,
                read: true,
                write: false,
                execute: true,
                virtual_addr: 0x10000,
                mem_size: 0x100,
                data: vec![i as u8; 8],
            }],
        }));
    }
    v
}

#[test]
fn new_manager_has_no_task() {
    let mut m = TaskManager::new();
    let mut a = allocator_with_pages(4);
    for i in 0..MAX_TASK_NUM {
        assert!(m.get_task(i).is_none());
    }
    assert_eq!(m.switch_to_next_task(0, &mut a, &images()), Err("no more task"));
}

#[test]
fn init_tasks_places_images_one_after_another() {
    let mut m = TaskManager::new();
    let mut a = allocator_with_pages(16);
    m.init_tasks(3, &mut a);
    for i in 0..3 {
        let t = m.get_task(i).unwrap();
        assert_eq!(t.start_addr, TASK_RUNNING_ADDR + (i + 1) * MAX_TASK_SIZE);
        assert!(t.is_runnable());
    }
    assert!(m.get_task(3).is_none());
}

#[test]
fn switch_goes_round_the_table() {
    let mut m = TaskManager::new();
    let mut a = allocator_with_pages(64);
    m.init_tasks(3, &mut a);
    let imgs = images();
    assert_eq!(m.switch_to_next_task(1, &mut a, &imgs), Ok(1));
    m.get_task_mut(1).unwrap().set_state(TaskState::Stopped);
    assert_eq!(m.switch_to_next_task(2, &mut a, &imgs), Ok(2));
    m.get_task_mut(2).unwrap().set_state(TaskState::Stopped);
    // from slot 3 the search wraps round to slot 0
    assert_eq!(m.switch_to_next_task(3, &mut a, &imgs), Ok(0));
    m.get_task_mut(0).unwrap().set_state(TaskState::Stopped);
    assert_eq!(m.switch_to_next_task(0, &mut a, &imgs), Err("no more task"));
}

#[test]
fn switch_marks_the_task_running() {
    let mut m = TaskManager::new();
    let mut a = allocator_with_pages(16);
    m.init_tasks(1, &mut a);
    assert_eq!(m.switch_to_next_task(MAX_TASK_NUM + 5, &mut a, &images()), Ok(0));
    assert!(m.get_task(0).unwrap().is_runnable());
    // a running task is chosen again
    assert_eq!(m.switch_to_next_task(0, &mut a, &images()), Ok(0));
}

#[test]
fn switch_reports_the_load_error() {
    let mut m = TaskManager::new();
    let mut a = allocator_with_pages(16);
    m.init_tasks(2, &mut a);
    let mut imgs = images();
    imgs[0] = Err("bad elf");
    assert_eq!(m.switch_to_next_task(0, &mut a, &imgs), Err("bad elf"));
    // a task whose load failed has a page table but no pages: it cannot be
    // loaded again
    assert!(!m.can_switch(0, &a, &imgs));
    assert!(m.can_switch(1, &a, &imgs));
    assert_eq!(m.switch_to_next_task(1, &mut a, &imgs), Ok(1));
}

#[test]
fn next_trap_context_or_shutdown() {
    let mut m = TaskManager::new();
    let mut a = allocator_with_pages(16);
    m.init_tasks(2, &mut a);
    let imgs = images();
    assert_eq!(build_next_trap_context(&mut m, 0, &mut a, &imgs), Ok(1));
    m.get_task_mut(1).unwrap().set_state(TaskState::Stopped);
    assert_eq!(build_next_trap_context(&mut m, 1, &mut a, &imgs), Ok(0));
    m.get_task_mut(0).unwrap().set_state(TaskState::Stopped);
    assert_eq!(build_next_trap_context(&mut m, 0, &mut a, &imgs), Err(shutdown()));
}

#[test]
fn exit_stops_the_task_and_starts_the_next() {
    let mut m = TaskManager::new();
    let mut a = allocator_with_pages(32);
    m.init_tasks(2, &mut a);
    let imgs = images();
    assert_eq!(m.switch_to_next_task(0, &mut a, &imgs), Ok(0));
    assert!(can_handle_trap(&m, 0, &TrapAction::TaskExit, &a, &imgs));
    assert_eq!(handle_trap(&mut m, 0, &TrapAction::TaskExit, &mut a, &imgs), Ok(1));
    assert!(!m.get_task(0).unwrap().is_runnable());
    assert_eq!(handle_trap(&mut m, 1, &TrapAction::UnsupportedSyscall(9), &mut a, &imgs), Err(shutdown()));
    assert!(!m.get_task(1).unwrap().is_runnable());
}

#[test]
fn timer_switches_without_stopping() {
    let mut m = TaskManager::new();
    let mut a = allocator_with_pages(32);
    m.init_tasks(2, &mut a);
    let imgs = images();
    let timer = TrapAction::Timer { next_timer_ms: 500 };
    assert_eq!(handle_trap(&mut m, 0, &timer, &mut a, &imgs), Ok(1));
    assert_eq!(handle_trap(&mut m, 1, &timer, &mut a, &imgs), Ok(0));
    assert!(m.get_task(1).unwrap().is_runnable());
    assert!(m.get_task(0).unwrap().is_runnable());
}

#[test]
fn only_task_runs_again_after_a_timer() {
    let mut m = TaskManager::new();
    let mut a = allocator_with_pages(16);
    m.init_tasks(1, &mut a);
    let imgs = images();
    assert_eq!(handle_trap(&mut m, 0, &TrapAction::Timer { next_timer_ms: 500 }, &mut a, &imgs), Ok(0));
    assert_eq!(handle_trap(&mut m, 0, &TrapAction::UnsupportedInterrupt(3), &mut a, &imgs), Err(shutdown()));
}

#[test]
fn syscall_resumes_the_same_task() {
    let mut m = TaskManager::new();
    let mut a = allocator_with_pages(16);
    m.init_tasks(1, &mut a);
    let imgs = images();
    let action = TrapAction::Syscall(SyscallWork::ReadTimeMs);
    assert!(can_handle_trap(&m, 0, &action, &a, &imgs));
    assert_eq!(handle_trap(&mut m, 0, &action, &mut a, &imgs), Ok(0));
    assert!(m.get_task(0).unwrap().is_runnable());
}

#[test]
fn can_handle_trap_sees_missing_frames() {
    let mut m = TaskManager::new();
    let mut a = allocator_with_pages(4);
    m.init_tasks(1, &mut a);
    // two frames are left; loading the task needs a root table, a code page
    // and a stack page
    assert!(!can_handle_trap(&m, 0, &TrapAction::Timer { next_timer_ms: 500 }, &a, &images()));
    let mut a = allocator_with_pages(5);
    let mut m = TaskManager::new();
    m.init_tasks(1, &mut a);
    assert!(can_handle_trap(&m, 0, &TrapAction::Timer { next_timer_ms: 500 }, &a, &images()));
}

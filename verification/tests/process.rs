use oscore::kernel::Kernel;
use oscore::syscall::current_pid;
use oscore::syscall::read_user_byte;
use oscore::syscall::sys_exec;
use oscore::syscall::sys_exit;
use oscore::syscall::sys_fork;
use oscore::syscall::sys_getpid;
use oscore::syscall::sys_mmap;
use oscore::syscall::sys_sbrk;
use oscore::syscall::sys_spawn;
use oscore::syscall::sys_waitpid;
use oscore::syscall::sys_yield;
use oscore::syscall::write_user_byte;
use oscore::task::TaskStatus;
use oscore::PAGE_SIZE;
use oscore::USER_BASE_VPN;

const SCRATCH: usize = 64 * 4096;

fn proc_write_str(k: &mut Kernel, addr: usize, s: &[u8]) {
    for (i, b) in s.iter().enumerate() {
        assert_eq!(write_user_byte(k, addr + i, *b), 0);
    }
    assert_eq!(write_user_byte(k, addr + s.len(), 0), 0);
}

fn proc_read_i32(k: &Kernel, addr: usize) -> i32 {
    let mut v: u32 = 0;
    for i in 0..4 {
        let b = read_user_byte(k, addr + i).expect("exit code bytes must be mapped");
        v |= (b as u32) << (8 * i);
    }
    v as i32
}

#[test]
fn getpid_root_is_zero() {
    let mut k = Kernel::boot();
    assert_eq!(sys_getpid(&mut k), 0);
}

#[test]
fn yield_alone_reschedules_self() {
    let mut k = Kernel::boot();
    assert_eq!(sys_yield(&mut k), 0);
    assert_eq!(current_pid(&k), Some(0));
}

#[test]
fn fork_child_sees_zero_parent_sees_pid() {
    let mut k = Kernel::boot();
    let r = sys_fork(&mut k);
    assert_eq!(r, 1);
    assert!(r > 0);
    assert_eq!(k.task_a0(1), Some(0));
    assert_eq!(k.task_status_of(1), Some(TaskStatus::Ready));
    assert_eq!(current_pid(&k), Some(0));
}

#[test]
fn fork_address_spaces_are_independent() {
    let mut k = Kernel::boot();
    assert_eq!(sys_mmap(&mut k, SCRATCH, PAGE_SIZE, 3), 0);
    assert_eq!(write_user_byte(&mut k, SCRATCH, 7), 0);
    assert_eq!(sys_fork(&mut k), 1);
    // the copy saw the byte
    assert_eq!(k.read_task_byte(1, SCRATCH), Some(7));
    // a later write by the parent is not observed in the child
    assert_eq!(write_user_byte(&mut k, SCRATCH, 42), 0);
    assert_eq!(k.read_task_byte(0, SCRATCH), Some(42));
    assert_eq!(k.read_task_byte(1, SCRATCH), Some(7));
}

#[test]
fn waitpid_two_children_lifecycle() {
    let mut k = Kernel::boot();
    assert_eq!(sys_mmap(&mut k, SCRATCH, PAGE_SIZE, 3), 0);
    assert_eq!(sys_fork(&mut k), 1);
    assert_eq!(sys_fork(&mut k), 2);
    // neither child has exited
    assert_eq!(sys_waitpid(&mut k, -1, SCRATCH), -2);
    // run child 1; it exits with code 5
    assert_eq!(sys_yield(&mut k), 0);
    assert_eq!(current_pid(&k), Some(1));
    sys_exit(&mut k, 5);
    assert_eq!(current_pid(&k), Some(2));
    // run child 2 back to the parent
    assert_eq!(sys_yield(&mut k), 0);
    assert_eq!(current_pid(&k), Some(0));
    // the exited child is reaped with its code
    assert_eq!(sys_waitpid(&mut k, -1, SCRATCH), 1);
    assert_eq!(proc_read_i32(&k, SCRATCH), 5);
    assert_eq!(k.task_status_of(1), None);
    // the other child is still alive
    assert_eq!(sys_waitpid(&mut k, -1, SCRATCH), -2);
    assert_eq!(sys_yield(&mut k), 0);
    assert_eq!(current_pid(&k), Some(2));
    sys_exit(&mut k, -9);
    assert_eq!(current_pid(&k), Some(0));
    assert_eq!(sys_waitpid(&mut k, -1, SCRATCH), 2);
    assert_eq!(proc_read_i32(&k, SCRATCH), -9);
    // both reaped: no child matches any more
    assert_eq!(sys_waitpid(&mut k, -1, SCRATCH), -1);
}

#[test]
fn waitpid_specific_pid_and_no_such_child() {
    let mut k = Kernel::boot();
    assert_eq!(sys_mmap(&mut k, SCRATCH, PAGE_SIZE, 3), 0);
    assert_eq!(sys_waitpid(&mut k, -1, SCRATCH), -1);
    assert_eq!(sys_fork(&mut k), 1);
    assert_eq!(sys_waitpid(&mut k, 7, SCRATCH), -1);
    assert_eq!(sys_waitpid(&mut k, 1, SCRATCH), -2);
    assert_eq!(sys_yield(&mut k), 0);
    sys_exit(&mut k, 3);
    assert_eq!(sys_waitpid(&mut k, 1, SCRATCH), 1);
    assert_eq!(proc_read_i32(&k, SCRATCH), 3);
}

#[test]
fn exec_unknown_name_fails_and_changes_nothing() {
    let mut k = Kernel::boot();
    assert_eq!(sys_mmap(&mut k, SCRATCH, PAGE_SIZE, 3), 0);
    proc_write_str(&mut k, SCRATCH, b"nosuch");
    assert_eq!(sys_exec(&mut k, SCRATCH), -1);
    // the address space is untouched
    assert_eq!(read_user_byte(&k, SCRATCH), Some(b'n'));
}

#[test]
fn exec_unmapped_path_fails() {
    let mut k = Kernel::boot();
    assert_eq!(sys_exec(&mut k, SCRATCH), -1);
}

#[test]
fn exec_replaces_image_and_keeps_pid() {
    let mut k = Kernel::boot();
    assert!(k.register_image(b"hello".to_vec(), 2));
    assert_eq!(sys_mmap(&mut k, SCRATCH, PAGE_SIZE, 3), 0);
    proc_write_str(&mut k, SCRATCH, b"hello");
    assert_eq!(sys_exec(&mut k, SCRATCH), 0);
    assert_eq!(sys_getpid(&mut k), 0);
    // the old mapping is gone, the image's pages are zero-filled
    assert_eq!(read_user_byte(&k, SCRATCH), None);
    assert_eq!(read_user_byte(&k, USER_BASE_VPN * PAGE_SIZE), Some(0));
    assert_eq!(k.task_a0(0), Some(0));
    // the break sits at the end of the two image pages
    assert_eq!(sys_sbrk(&mut k, 0), ((USER_BASE_VPN + 2) * PAGE_SIZE) as isize);
}

#[test]
fn spawn_builds_child_from_image() {
    let mut k = Kernel::boot();
    assert!(k.register_image(b"init".to_vec(), 1));
    assert_eq!(sys_mmap(&mut k, SCRATCH, PAGE_SIZE, 3), 0);
    proc_write_str(&mut k, SCRATCH, b"init");
    let child = sys_spawn(&mut k, SCRATCH);
    assert_eq!(child, 1);
    assert_eq!(k.task_status_of(1), Some(TaskStatus::Ready));
    assert_eq!(k.task_a0(1), Some(0));
    // the child's space comes from the image, not from the parent
    assert_eq!(k.read_task_byte(1, SCRATCH), None);
    assert_eq!(k.read_task_byte(1, USER_BASE_VPN * PAGE_SIZE), Some(0));
    // run it to completion and reap it
    assert_eq!(sys_yield(&mut k), 0);
    assert_eq!(current_pid(&k), Some(1));
    sys_exit(&mut k, 11);
    assert_eq!(current_pid(&k), Some(0));
    assert_eq!(sys_waitpid(&mut k, 1, SCRATCH), 1);
    assert_eq!(proc_read_i32(&k, SCRATCH), 11);
}

#[test]
fn spawn_unknown_name_creates_no_task() {
    let mut k = Kernel::boot();
    assert_eq!(sys_mmap(&mut k, SCRATCH, PAGE_SIZE, 3), 0);
    proc_write_str(&mut k, SCRATCH, b"ghost");
    assert_eq!(sys_spawn(&mut k, SCRATCH), -1);
    assert_eq!(k.task_status_of(1), None);
}

use oscore::kernel::Kernel;
use oscore::syscall::current_pid;
use oscore::syscall::read_user_byte;
use oscore::syscall::sys_fork;
use oscore::syscall::sys_mmap;
use oscore::syscall::sys_set_priority;
use oscore::syscall::sys_task_info;
use oscore::syscall::sys_yield;
use oscore::task::TaskStatus;
use oscore::MAX_SYSCALL_NUM;
use oscore::PAGE_SIZE;
use oscore::SYSCALL_MMAP;
use oscore::SYSCALL_TASK_INFO;
use oscore::SYSCALL_YIELD;

const ACC_BASE: usize = 64 * 4096;

fn acc_read_u64(k: &Kernel, addr: usize) -> u64 {
    let mut v: u64 = 0;
    for i in 0..8 {
        let b = read_user_byte(k, addr + i).expect("byte must be mapped");
        v |= (b as u64) << (8 * i);
    }
    v
}

fn acc_read_u32(k: &Kernel, addr: usize) -> u32 {
    let mut v: u32 = 0;
    for i in 0..4 {
        let b = read_user_byte(k, addr + i).expect("byte must be mapped");
        v |= (b as u32) << (8 * i);
    }
    v
}

fn acc_info_counter(k: &Kernel, base: usize, id: usize) -> u32 {
    acc_read_u32(k, base + 8 + 4 * id)
}

#[test]
fn task_info_unmapped_destination_fails() {
    let mut k = Kernel::boot();
    assert_eq!(sys_task_info(&mut k, ACC_BASE), -1);
}

#[test]
fn syscall_counters_count_each_invocation() {
    let mut k = Kernel::boot();
    assert_eq!(sys_mmap(&mut k, ACC_BASE, PAGE_SIZE, 3), 0);
    assert_eq!(sys_yield(&mut k), 0);
    assert_eq!(sys_yield(&mut k), 0);
    assert_eq!(sys_yield(&mut k), 0);
    assert_eq!(sys_task_info(&mut k, ACC_BASE), 0);
    // status code: the caller is running
    assert_eq!(acc_read_u64(&k, ACC_BASE), 1);
    assert_eq!(acc_info_counter(&k, ACC_BASE, SYSCALL_YIELD), 3);
    assert_eq!(acc_info_counter(&k, ACC_BASE, SYSCALL_MMAP), 1);
    // the snapshot already counts the call that took it
    assert_eq!(acc_info_counter(&k, ACC_BASE, SYSCALL_TASK_INFO), 1);
    // an identifier never invoked stays zero
    assert_eq!(acc_info_counter(&k, ACC_BASE, 93), 0);
}

#[test]
fn syscall_counters_are_per_task() {
    let mut k = Kernel::boot();
    assert_eq!(sys_yield(&mut k), 0);
    assert_eq!(sys_fork(&mut k), 1);
    // the parent's invocations are not charged to the child
    assert_eq!(k.task_syscall_count(0, SYSCALL_YIELD), Some(1));
    assert_eq!(k.task_syscall_count(1, SYSCALL_YIELD), Some(0));
    for id in 0..MAX_SYSCALL_NUM {
        assert_eq!(k.task_syscall_count(1, id), Some(0));
    }
    // the child's own invocations are not charged to the parent
    assert_eq!(sys_yield(&mut k), 0);
    assert_eq!(current_pid(&k), Some(1));
    assert_eq!(sys_yield(&mut k), 0);
    assert_eq!(k.task_syscall_count(1, SYSCALL_YIELD), Some(1));
    assert_eq!(k.task_syscall_count(0, SYSCALL_YIELD), Some(2));
}

#[test]
fn task_info_time_is_monotonic() {
    let mut k = Kernel::boot();
    assert_eq!(sys_mmap(&mut k, ACC_BASE, PAGE_SIZE, 3), 0);
    k.tick(5_000);
    assert_eq!(sys_task_info(&mut k, ACC_BASE), 0);
    let t1 = acc_read_u64(&k, ACC_BASE + 8 + 4 * MAX_SYSCALL_NUM as usize);
    assert_eq!(t1, 5);
    k.tick(2_500);
    assert_eq!(sys_task_info(&mut k, ACC_BASE), 0);
    let t2 = acc_read_u64(&k, ACC_BASE + 8 + 4 * MAX_SYSCALL_NUM as usize);
    assert_eq!(t2, 7);
    assert!(t1 <= t2);
}

#[test]
fn task_info_across_two_pages() {
    let mut k = Kernel::boot();
    // two separately created mappings; the structure straddles the boundary
    assert_eq!(sys_mmap(&mut k, ACC_BASE, PAGE_SIZE, 3), 0);
    assert_eq!(sys_mmap(&mut k, ACC_BASE + PAGE_SIZE, PAGE_SIZE, 3), 0);
    let dest = ACC_BASE + PAGE_SIZE - 1000;
    k.tick(3_000);
    assert_eq!(sys_task_info(&mut k, dest), 0);
    assert_eq!(acc_read_u64(&k, dest), 1);
    assert_eq!(acc_read_u64(&k, dest + 8 + 4 * MAX_SYSCALL_NUM), 3);
    assert_eq!(acc_info_counter(&k, dest, SYSCALL_TASK_INFO), 1);
}

#[test]
fn set_priority_floor_is_two() {
    let mut k = Kernel::boot();
    assert_eq!(sys_set_priority(&mut k, 1), -1);
    assert_eq!(k.task_priority_of(0), Some(16));
    assert_eq!(sys_set_priority(&mut k, 0), -1);
    assert_eq!(sys_set_priority(&mut k, -3), -1);
    assert_eq!(k.task_priority_of(0), Some(16));
    assert_eq!(sys_set_priority(&mut k, 10), 10);
    assert_eq!(k.task_priority_of(0), Some(10));
    assert_eq!(sys_set_priority(&mut k, 2), 2);
    assert_eq!(k.task_priority_of(0), Some(2));
}

#[test]
fn stride_scheduling_favors_weight_proportionally() {
    let mut k = Kernel::boot();
    assert_eq!(sys_fork(&mut k), 1);
    assert_eq!(sys_fork(&mut k), 2);
    // child 1 takes weight 10; child 2 keeps the default 16
    assert_eq!(sys_yield(&mut k), 0);
    assert_eq!(current_pid(&k), Some(1));
    assert_eq!(sys_set_priority(&mut k, 10), 10);
    let mut c1: u64 = 0;
    let mut c2: u64 = 0;
    for _ in 0..13_000 {
        assert_eq!(sys_yield(&mut k), 0);
        match current_pid(&k) {
            Some(1) => c1 += 1,
            Some(2) => c2 += 1,
            _ => {}
        }
    }
    // dispatch counts settle near the weight ratio 10 : 16
    assert!(c1 > 0 && c2 > 0);
    let lhs = c1 * 16 * 100;
    let rhs = c2 * 10 * 100;
    assert!(lhs >= rhs * 95 / 100, "ratio too low: {c1} vs {c2}");
    assert!(lhs <= rhs * 105 / 100, "ratio too high: {c1} vs {c2}");
}

#[test]
fn zombie_status_is_observable() {
    let mut k = Kernel::boot();
    assert_eq!(sys_fork(&mut k), 1);
    assert_eq!(sys_yield(&mut k), 0);
    assert_eq!(current_pid(&k), Some(1));
    oscore::syscall::sys_exit(&mut k, 0);
    assert_eq!(k.task_status_of(1), Some(TaskStatus::Zombie));
    assert_eq!(current_pid(&k), Some(0));
}

use oscore::kernel::Kernel;
use oscore::syscall::read_user_byte;
use oscore::syscall::sys_get_time;
use oscore::syscall::sys_mmap;
use oscore::syscall::sys_munmap;
use oscore::syscall::sys_sbrk;
use oscore::syscall::write_user_byte;
use oscore::PAGE_SIZE;

const MEM_BASE: usize = 64 * 4096;

fn mem_read_u64(k: &Kernel, addr: usize) -> u64 {
    let mut v: u64 = 0;
    for i in 0..8 {
        let b = read_user_byte(k, addr + i).expect("byte must be mapped");
        v |= (b as u64) << (8 * i);
    }
    v
}

#[test]
fn mmap_misaligned_start_fails_without_effect() {
    let mut k = Kernel::boot();
    assert_eq!(sys_mmap(&mut k, MEM_BASE + 1, PAGE_SIZE, 3), -1);
    assert_eq!(read_user_byte(&k, MEM_BASE), None);
    assert_eq!(read_user_byte(&k, MEM_BASE + PAGE_SIZE), None);
}

#[test]
fn mmap_bad_port_fails() {
    let mut k = Kernel::boot();
    assert_eq!(sys_mmap(&mut k, MEM_BASE, PAGE_SIZE, 0), -1);
    assert_eq!(sys_mmap(&mut k, MEM_BASE, PAGE_SIZE, 8), -1);
    assert_eq!(sys_mmap(&mut k, MEM_BASE, PAGE_SIZE, 9), -1);
    assert_eq!(read_user_byte(&k, MEM_BASE), None);
}

#[test]
fn mmap_overlap_fails_and_first_mapping_survives() {
    let mut k = Kernel::boot();
    assert_eq!(sys_mmap(&mut k, MEM_BASE, 2 * PAGE_SIZE, 3), 0);
    assert_eq!(write_user_byte(&mut k, MEM_BASE + PAGE_SIZE, 99), 0);
    assert_eq!(sys_mmap(&mut k, MEM_BASE + PAGE_SIZE, PAGE_SIZE, 1), -1);
    assert_eq!(read_user_byte(&k, MEM_BASE + PAGE_SIZE), Some(99));
    assert_eq!(read_user_byte(&k, MEM_BASE), Some(0));
}

#[test]
fn mmap_zero_fills_pages() {
    let mut k = Kernel::boot();
    assert_eq!(sys_mmap(&mut k, MEM_BASE, PAGE_SIZE, 7), 0);
    for off in [0usize, 1, 100, PAGE_SIZE - 1] {
        assert_eq!(read_user_byte(&k, MEM_BASE + off), Some(0));
    }
    assert_eq!(read_user_byte(&k, MEM_BASE + PAGE_SIZE), None);
}

#[test]
fn munmap_unmapped_range_fails() {
    let mut k = Kernel::boot();
    assert_eq!(sys_munmap(&mut k, MEM_BASE, PAGE_SIZE), -1);
}

#[test]
fn munmap_exact_then_repeat_fails() {
    let mut k = Kernel::boot();
    assert_eq!(sys_mmap(&mut k, MEM_BASE, 2 * PAGE_SIZE, 3), 0);
    assert_eq!(sys_munmap(&mut k, MEM_BASE, 2 * PAGE_SIZE), 0);
    assert_eq!(read_user_byte(&k, MEM_BASE), None);
    // unmapping the same range again must fail, not silently succeed
    assert_eq!(sys_munmap(&mut k, MEM_BASE, 2 * PAGE_SIZE), -1);
}

#[test]
fn munmap_partial_range_fails_and_keeps_mapping() {
    let mut k = Kernel::boot();
    assert_eq!(sys_mmap(&mut k, MEM_BASE, 2 * PAGE_SIZE, 3), 0);
    assert_eq!(sys_munmap(&mut k, MEM_BASE, PAGE_SIZE), -1);
    assert_eq!(sys_munmap(&mut k, MEM_BASE + 1, PAGE_SIZE), -1);
    assert_eq!(read_user_byte(&k, MEM_BASE), Some(0));
    assert_eq!(read_user_byte(&k, MEM_BASE + 2 * PAGE_SIZE - 1), Some(0));
}

#[test]
fn munmap_union_of_two_mappings_succeeds() {
    let mut k = Kernel::boot();
    assert_eq!(sys_mmap(&mut k, MEM_BASE, PAGE_SIZE, 3), 0);
    assert_eq!(sys_mmap(&mut k, MEM_BASE + PAGE_SIZE, PAGE_SIZE, 3), 0);
    assert_eq!(sys_munmap(&mut k, MEM_BASE, 2 * PAGE_SIZE), 0);
    assert_eq!(read_user_byte(&k, MEM_BASE), None);
    assert_eq!(read_user_byte(&k, MEM_BASE + PAGE_SIZE), None);
}

#[test]
fn sbrk_moves_break_and_reports_old_value() {
    let mut k = Kernel::boot();
    assert_eq!(sys_sbrk(&mut k, 100), 0);
    assert_eq!(sys_sbrk(&mut k, 0), 100);
    assert_eq!(sys_sbrk(&mut k, -50), 100);
    assert_eq!(sys_sbrk(&mut k, 0), 50);
    // shrinking below the segment floor is rejected without effect
    assert_eq!(sys_sbrk(&mut k, -100), -1);
    assert_eq!(sys_sbrk(&mut k, 0), 50);
}

#[test]
fn sbrk_grow_maps_zeroed_heap() {
    let mut k = Kernel::boot();
    // before any growth the break's page does not translate
    assert_eq!(read_user_byte(&k, 0), None);
    assert_eq!(sys_sbrk(&mut k, 100), 0);
    // the grown page translates, zero-filled and writable
    assert_eq!(read_user_byte(&k, 0), Some(0));
    assert_eq!(read_user_byte(&k, PAGE_SIZE - 1), Some(0));
    assert_eq!(write_user_byte(&mut k, 0, 9), 0);
    assert_eq!(read_user_byte(&k, 0), Some(9));
    // growth is page-rounded: the next page is still unmapped
    assert_eq!(read_user_byte(&k, PAGE_SIZE), None);
    assert_eq!(sys_sbrk(&mut k, PAGE_SIZE as i32), 100);
    assert_eq!(read_user_byte(&k, PAGE_SIZE), Some(0));
}

#[test]
fn sbrk_shrink_releases_pages() {
    let mut k = Kernel::boot();
    assert_eq!(sys_sbrk(&mut k, 2 * PAGE_SIZE as i32), 0);
    assert_eq!(write_user_byte(&mut k, 0, 5), 0);
    assert_eq!(write_user_byte(&mut k, PAGE_SIZE, 6), 0);
    // shrinking releases the page above the new break and keeps the rest
    assert_eq!(sys_sbrk(&mut k, -(PAGE_SIZE as i32)), 2 * PAGE_SIZE as isize);
    assert_eq!(read_user_byte(&k, PAGE_SIZE), None);
    assert_eq!(read_user_byte(&k, 0), Some(5));
    assert_eq!(sys_sbrk(&mut k, -(PAGE_SIZE as i32)), PAGE_SIZE as isize);
    assert_eq!(read_user_byte(&k, 0), None);
}

#[test]
fn sbrk_grow_blocked_by_existing_mapping() {
    let mut k = Kernel::boot();
    assert_eq!(sys_mmap(&mut k, 0, PAGE_SIZE, 3), 0);
    assert_eq!(sys_sbrk(&mut k, 100), -1);
    assert_eq!(sys_sbrk(&mut k, 0), 0);
}

#[test]
fn mmap_over_heap_fails_as_overlap() {
    let mut k = Kernel::boot();
    assert_eq!(sys_sbrk(&mut k, PAGE_SIZE as i32), 0);
    assert_eq!(sys_mmap(&mut k, 0, PAGE_SIZE, 3), -1);
    assert_eq!(read_user_byte(&k, 0), Some(0));
}

#[test]
fn get_time_into_heap_memory() {
    let mut k = Kernel::boot();
    assert_eq!(sys_sbrk(&mut k, PAGE_SIZE as i32), 0);
    k.tick(7);
    assert_eq!(sys_get_time(&mut k, 16, 0), 0);
    assert_eq!(mem_read_u64(&k, 16), 0);
    assert_eq!(mem_read_u64(&k, 24), 7);
}

#[test]
fn get_time_unmapped_destination_fails() {
    let mut k = Kernel::boot();
    assert_eq!(sys_get_time(&mut k, MEM_BASE, 0), -1);
}

#[test]
fn get_time_writes_split_microseconds() {
    let mut k = Kernel::boot();
    assert_eq!(sys_mmap(&mut k, MEM_BASE, PAGE_SIZE, 3), 0);
    k.tick(1_500_000);
    assert_eq!(sys_get_time(&mut k, MEM_BASE, 0), 0);
    assert_eq!(mem_read_u64(&k, MEM_BASE), 1);
    assert_eq!(mem_read_u64(&k, MEM_BASE + 8), 500_000);
}

#[test]
fn get_time_is_monotonic() {
    let mut k = Kernel::boot();
    assert_eq!(sys_mmap(&mut k, MEM_BASE, PAGE_SIZE, 3), 0);
    k.tick(999_999);
    assert_eq!(sys_get_time(&mut k, MEM_BASE, 0), 0);
    let t1 = mem_read_u64(&k, MEM_BASE) * 1_000_000 + mem_read_u64(&k, MEM_BASE + 8);
    k.tick(2);
    assert_eq!(sys_get_time(&mut k, MEM_BASE, 0), 0);
    let t2 = mem_read_u64(&k, MEM_BASE) * 1_000_000 + mem_read_u64(&k, MEM_BASE + 8);
    assert!(t1 <= t2);
    assert_eq!(t1, 999_999);
    assert_eq!(t2, 1_000_001);
}

#[test]
fn get_time_across_two_pages() {
    let mut k = Kernel::boot();
    // two separately created mappings; the structure straddles the boundary
    assert_eq!(sys_mmap(&mut k, MEM_BASE, PAGE_SIZE, 3), 0);
    assert_eq!(sys_mmap(&mut k, MEM_BASE + PAGE_SIZE, PAGE_SIZE, 3), 0);
    let dest = MEM_BASE + PAGE_SIZE - 8;
    k.tick(42);
    assert_eq!(sys_get_time(&mut k, dest, 0), 0);
    assert_eq!(mem_read_u64(&k, dest), 0);
    assert_eq!(mem_read_u64(&k, dest + 8), 42);
}

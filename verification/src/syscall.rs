//! The syscall surface. Every operation acts for the calling task — the
//! one `current` names — counts itself in that task's invocation table,
//! and reaches user memory only through the task's own address space.
use vstd::prelude::*;
use crate::kernel::build_image_aspace;
use crate::kernel::counter_step;
use crate::kernel::image_ok;
use crate::kernel::is_image_aspace;
use crate::kernel::lemma_wf_new_child;
use crate::kernel::lemma_wf_park;
use crate::kernel::lemma_wf_reap;
use crate::kernel::lemma_wf_task_replace;
use crate::kernel::next_stride;
use crate::kernel::pick_ok;
use crate::kernel::queue_strides;
use crate::kernel::sched_pick;
use crate::kernel::zero_counters;
use crate::kernel::Image;
use crate::kernel::Kernel;
use crate::task::TaskInfo;
use crate::task::TaskStatus;
use crate::task::TimeVal;
use crate::task::TrapContext;
use crate::task::bumped;
use crate::task::Task;
use crate::codec::encode_task_info;
use crate::codec::copy_counters;
use crate::codec::le_byte;
use crate::codec::time_val_of;
use crate::codec::push_le_bytes;
use crate::codec::encode_time_val;
use crate::codec::task_info_bytes;
use crate::codec::time_val_bytes;
use vstd::arithmetic::div_mod::lemma_div_is_ordered;
use vstd::arithmetic::div_mod::lemma_fundamental_div_mod_converse;
use crate::mem::end_page;
use crate::mem::page_of;
use crate::mem::port_perm;
use crate::mem::AddressSpace;
use crate::DEFAULT_PRIORITY;
use crate::MAX_SYSCALL_NUM;
use crate::PAGE_SIZE;
use crate::PERM_RWU;
use crate::SYSCALL_EXEC;
use crate::SYSCALL_EXIT;
use crate::SYSCALL_FORK;
use crate::SYSCALL_GETPID;
use crate::SYSCALL_GET_TIME;
use crate::SYSCALL_TASK_INFO;
use crate::SYSCALL_MMAP;
use crate::SYSCALL_MUNMAP;
use crate::SYSCALL_SBRK;
use crate::SYSCALL_SET_PRIORITY;
use crate::SYSCALL_SPAWN;
use crate::SYSCALL_WAITPID;
use crate::SYSCALL_YIELD;
use crate::USER_BASE_VPN;

verus! {

/// The pid of the calling task (meaningful when some task is running).
pub open spec fn cur(k: Kernel) -> int {
    k.current.unwrap() as int
}

/// Count one invocation of syscall `id` in a counter table.
fn bump_counter(t: &mut Task, id: usize)
    requires
        id < MAX_SYSCALL_NUM,
        old(t).syscall_times@.len() == MAX_SYSCALL_NUM,
    ensures
        final(t).syscall_times@ == bumped(old(t).syscall_times@, id as int),
        final(t).syscall_times@.len() == MAX_SYSCALL_NUM,
        *final(t) == (Task { syscall_times: final(t).syscall_times, ..*old(t) }),
{
    let c = t.syscall_times[id];
    let nc = if c == u32::MAX {
        c
    } else {
        c + 1
    };
    t.syscall_times[id] = nc;
    proof {
        assert(final(t).syscall_times@ =~= bumped(old(t).syscall_times@, id as int));
    }
}

/// Return the calling task's pid; always succeeds.
pub fn sys_getpid(k: &mut Kernel) -> (r: isize)
    requires
        old(k).wf(),
        old(k).current is Some,
    ensures
        final(k).wf(),
        r == old(k).task(cur(*old(k))).pid,
        r >= 0,
        final(k).current == old(k).current,
        final(k).ready@ == old(k).ready@,
        final(k).images@ == old(k).images@,
        final(k).now_us == old(k).now_us,
        final(k).tasks@.len() == old(k).tasks@.len(),
        forall|q: int|
            0 <= q < old(k).tasks@.len() && q != cur(*old(k))
                ==> final(k).tasks@[q] == old(k).tasks@[q],
        final(k).task(cur(*old(k))).syscall_times@ == bumped(
            old(k).task(cur(*old(k))).syscall_times@,
            SYSCALL_GETPID as int,
        ),
        counter_step(*old(k), *final(k), cur(*old(k)), SYSCALL_GETPID as int),
        final(k).task(cur(*old(k))) == (Task {
            syscall_times: final(k).task(cur(*old(k))).syscall_times,
            ..old(k).task(cur(*old(k)))
        }),
{
    let c = k.current.unwrap();
    let mut t = k.tasks.remove(c).unwrap();
    bump_counter(&mut t, SYSCALL_GETPID);
    let pid = t.pid;
    k.tasks.insert(c, Some(t));
    proof {
        assert(k.tasks@ =~= old(k).tasks@.update(c as int, k.tasks@[c as int]));
        lemma_wf_task_replace(*old(k), *k, c as int);
    }
    pid as isize
}

/// Set the calling task's scheduling weight. A request below the floor of
/// 2 is rejected with no effect; otherwise the weight is stored and echoed
/// back.
pub fn sys_set_priority(k: &mut Kernel, prio: isize) -> (r: isize)
    requires
        old(k).wf(),
        old(k).current is Some,
    ensures
        final(k).wf(),
        (r == -1) == (prio < 2),
        prio >= 2 ==> r == prio,
        final(k).task(cur(*old(k))).priority == if prio < 2 {
            old(k).task(cur(*old(k))).priority
        } else {
            prio as usize
        },
        final(k).current == old(k).current,
        final(k).ready@ == old(k).ready@,
        final(k).images@ == old(k).images@,
        final(k).now_us == old(k).now_us,
        final(k).tasks@.len() == old(k).tasks@.len(),
        forall|q: int|
            0 <= q < old(k).tasks@.len() && q != cur(*old(k))
                ==> final(k).tasks@[q] == old(k).tasks@[q],
        final(k).task(cur(*old(k))).syscall_times@ == bumped(
            old(k).task(cur(*old(k))).syscall_times@,
            SYSCALL_SET_PRIORITY as int,
        ),
        counter_step(*old(k), *final(k), cur(*old(k)), SYSCALL_SET_PRIORITY as int),
        final(k).task(cur(*old(k))) == (Task {
            priority: final(k).task(cur(*old(k))).priority,
            syscall_times: final(k).task(cur(*old(k))).syscall_times,
            ..old(k).task(cur(*old(k)))
        }),
{
    let c = k.current.unwrap();
    let mut t = k.tasks.remove(c).unwrap();
    bump_counter(&mut t, SYSCALL_SET_PRIORITY);
    let r = if prio < 2 {
        -1
    } else {
        t.priority = prio as usize;
        prio
    };
    k.tasks.insert(c, Some(t));
    proof {
        assert(k.tasks@ =~= old(k).tasks@.update(c as int, k.tasks@[c as int]));
        lemma_wf_task_replace(*old(k), *k, c as int);
    }
    r
}

/// When a break adjustment by `size` can be satisfied: the new break
/// stays between the segment floor and the representable ceiling; growing
/// needs the pages up to the new break free; shrinking needs the released
/// page range to be exactly mapped (heap pages always are).
pub open spec fn can_sbrk(t: Task, size: int) -> bool {
    let nt = t.heap_top + size;
    &&& t.heap_base <= nt <= isize::MAX
    &&& {
        let op = end_page(t.heap_top as int, 0);
        let np = end_page(nt, 0);
        if np >= op {
            forall|vpn: int| op <= vpn < np ==> !(#[trigger] t.aspace.is_mapped(vpn))
        } else {
            t.aspace.can_munmap(np * (PAGE_SIZE as int), (op - np) * (PAGE_SIZE as int))
        }
    }
}

/// Adjust the calling task's program break by a signed byte delta,
/// returning the previous break. Growing extends the framed heap mapping
/// page by page, zero-initialized; shrinking releases the pages above the
/// new break. Fails, changing nothing, when the new break would sink
/// below the segment's floor, leave the representable range, or collide
/// with an existing mapping.
pub fn sys_sbrk(k: &mut Kernel, size: i32) -> (r: isize)
    requires
        old(k).wf(),
        old(k).current is Some,
    ensures
        final(k).wf(),
        (r == -1) == !can_sbrk(old(k).task(cur(*old(k))), size as int),
        r != -1 ==> r == old(k).task(cur(*old(k))).heap_top
            && final(k).task(cur(*old(k))).heap_top
                == old(k).task(cur(*old(k))).heap_top + size,
        r == -1 ==> final(k).task(cur(*old(k))) == (Task {
            syscall_times: final(k).task(cur(*old(k))).syscall_times,
            ..old(k).task(cur(*old(k)))
        }),
        final(k).task(cur(*old(k))).heap_base == old(k).task(cur(*old(k))).heap_base,
        // growing: the new heap pages translate, zero-filled, user
        // read/write; everything outside them is kept
        r != -1 && end_page(old(k).task(cur(*old(k))).heap_top + size, 0)
            >= end_page(old(k).task(cur(*old(k))).heap_top as int, 0) ==> {
            let op = end_page(old(k).task(cur(*old(k))).heap_top as int, 0);
            let np = end_page(old(k).task(cur(*old(k))).heap_top + size, 0);
            &&& forall|vpn: int|
                op <= vpn < np
                    ==> #[trigger] final(k).task(cur(*old(k))).aspace.is_mapped(vpn)
                        && final(k).task(cur(*old(k))).aspace.perm_of(vpn) == PERM_RWU
            &&& forall|vpn: int|
                !(op <= vpn < np)
                    ==> #[trigger] final(k).task(cur(*old(k))).aspace.is_mapped(vpn)
                        == old(k).task(cur(*old(k))).aspace.is_mapped(vpn)
            &&& forall|a: int|
                op <= page_of(a) < np
                    ==> #[trigger] final(k).task(cur(*old(k))).aspace.byte_at(a) == 0
            &&& forall|a: int|
                !(op <= page_of(a) < np)
                    && #[trigger] old(k).task(cur(*old(k))).aspace.addr_mapped(a)
                    ==> final(k).task(cur(*old(k))).aspace.byte_at(a)
                        == old(k).task(cur(*old(k))).aspace.byte_at(a)
        },
        // shrinking: the pages above the new break no longer translate;
        // everything below is preserved
        r != -1 && end_page(old(k).task(cur(*old(k))).heap_top + size, 0)
            < end_page(old(k).task(cur(*old(k))).heap_top as int, 0) ==> {
            let op = end_page(old(k).task(cur(*old(k))).heap_top as int, 0);
            let np = end_page(old(k).task(cur(*old(k))).heap_top + size, 0);
            &&& forall|vpn: int|
                #[trigger] final(k).task(cur(*old(k))).aspace.is_mapped(vpn)
                    == (old(k).task(cur(*old(k))).aspace.is_mapped(vpn) && !(np <= vpn < op))
            &&& forall|a: int|
                #[trigger] final(k).task(cur(*old(k))).aspace.addr_mapped(a)
                    ==> final(k).task(cur(*old(k))).aspace.byte_at(a)
                        == old(k).task(cur(*old(k))).aspace.byte_at(a)
        },
        final(k).current == old(k).current,
        final(k).ready@ == old(k).ready@,
        final(k).images@ == old(k).images@,
        final(k).now_us == old(k).now_us,
        final(k).tasks@.len() == old(k).tasks@.len(),
        forall|q: int|
            0 <= q < old(k).tasks@.len() && q != cur(*old(k))
                ==> final(k).tasks@[q] == old(k).tasks@[q],
        final(k).task(cur(*old(k))).syscall_times@ == bumped(
            old(k).task(cur(*old(k))).syscall_times@,
            SYSCALL_SBRK as int,
        ),
        counter_step(*old(k), *final(k), cur(*old(k)), SYSCALL_SBRK as int),
        final(k).task(cur(*old(k))) == (Task {
            heap_top: final(k).task(cur(*old(k))).heap_top,
            aspace: final(k).task(cur(*old(k))).aspace,
            syscall_times: final(k).task(cur(*old(k))).syscall_times,
            ..old(k).task(cur(*old(k)))
        }),
{
    let c = k.current.unwrap();
    proof {
        assert(old(k).live(c as int));
        assert(old(k).task(c as int).wf());
    }
    let mut t = k.tasks.remove(c).unwrap();
    bump_counter(&mut t, SYSCALL_SBRK);
    let old_top = t.heap_top;
    let new_top: Option<usize> = if size >= 0 {
        match t.heap_top.checked_add(size as usize) {
            Some(n) => {
                if n <= isize::MAX as usize {
                    Some(n)
                } else {
                    None
                }
            },
            None => None,
        }
    } else {
        let mag = (-(size as i64)) as usize;
        t.heap_top.checked_sub(mag)
    };
    let r: isize = match new_top {
        Some(nt) => {
            if nt < t.heap_base {
                -1
            } else {
                let op = (old_top + (PAGE_SIZE - 1)) / PAGE_SIZE;
                let np = (nt + (PAGE_SIZE - 1)) / PAGE_SIZE;
                proof {
                    assert(op == end_page(old_top as int, 0));
                    assert(np == end_page(nt as int, 0));
                    assert(isize::MAX as int + (PAGE_SIZE - 1) <= usize::MAX);
                    lemma_div_is_ordered(
                        nt as int + (PAGE_SIZE - 1),
                        usize::MAX as int,
                        PAGE_SIZE as int,
                    );
                    lemma_div_is_ordered(
                        old_top as int + (PAGE_SIZE - 1),
                        usize::MAX as int,
                        PAGE_SIZE as int,
                    );
                }
                if np >= op {
                    if t.aspace.map_page_run(op, np, PERM_RWU) {
                        t.heap_top = nt;
                        old_top as isize
                    } else {
                        -1
                    }
                } else {
                    proof {
                        lemma_page_run_bytes(np as int, op as int);
                    }
                    if t.aspace.munmap(np * PAGE_SIZE, (op - np) * PAGE_SIZE) == 0 {
                        t.heap_top = nt;
                        old_top as isize
                    } else {
                        -1
                    }
                }
            }
        },
        None => -1,
    };
    k.tasks.insert(c, Some(t));
    proof {
        assert(k.tasks@ =~= old(k).tasks@.update(c as int, k.tasks@[c as int]));
        lemma_wf_task_replace(*old(k), *k, c as int);
    }
    r
}

/// The byte range of a whole page run: its start page and rounded end page
/// are the run's own bounds.
proof fn lemma_page_run_bytes(np: int, op: int)
    requires
        0 <= np < op,
        op * PAGE_SIZE + (PAGE_SIZE - 1) <= usize::MAX,
    ensures
        page_of(np * PAGE_SIZE) == np,
        end_page(np * PAGE_SIZE, (op - np) * PAGE_SIZE) == op,
        np * PAGE_SIZE + (op - np) * PAGE_SIZE == op * PAGE_SIZE,
{
    let p = PAGE_SIZE as int;
    assert(np * p + (op - np) * p == op * p) by (nonlinear_arith);
    lemma_fundamental_div_mod_converse(np * p, p, np, 0);
    lemma_fundamental_div_mod_converse(op * p + (p - 1), p, op, p - 1);
}

/// Map a zero-initialized, user-accessible region into the calling task's
/// address space; fails, leaving the address space unchanged, on a
/// misaligned start, malformed permission bits, or overlap.
pub fn sys_mmap(k: &mut Kernel, start: usize, len: usize, port: usize) -> (r: isize)
    requires
        old(k).wf(),
        old(k).current is Some,
    ensures
        final(k).wf(),
        r == 0 || r == -1,
        (r == 0) == old(k).task(cur(*old(k))).aspace.can_mmap(
            start as int,
            len as int,
            port as int,
        ),
        r == -1 ==> final(k).task(cur(*old(k))).aspace == old(k).task(cur(*old(k))).aspace,
        r == 0 ==> forall|vpn: int|
            page_of(start as int) <= vpn < end_page(start as int, len as int)
                ==> #[trigger] final(k).task(cur(*old(k))).aspace.is_mapped(vpn)
                    && final(k).task(cur(*old(k))).aspace.perm_of(vpn) == port_perm(port as int),
        r == 0 ==> forall|vpn: int|
            !(page_of(start as int) <= vpn < end_page(start as int, len as int))
                ==> #[trigger] final(k).task(cur(*old(k))).aspace.is_mapped(vpn)
                    == old(k).task(cur(*old(k))).aspace.is_mapped(vpn),
        r == 0 ==> forall|a: int|
            page_of(start as int) <= page_of(a) < end_page(start as int, len as int)
                ==> #[trigger] final(k).task(cur(*old(k))).aspace.byte_at(a) == 0,
        r == 0 ==> forall|a: int|
            !(page_of(start as int) <= page_of(a) < end_page(start as int, len as int))
                && #[trigger] old(k).task(cur(*old(k))).aspace.addr_mapped(a)
                ==> final(k).task(cur(*old(k))).aspace.byte_at(a)
                    == old(k).task(cur(*old(k))).aspace.byte_at(a),
        final(k).current == old(k).current,
        final(k).ready@ == old(k).ready@,
        final(k).images@ == old(k).images@,
        final(k).now_us == old(k).now_us,
        final(k).tasks@.len() == old(k).tasks@.len(),
        forall|q: int|
            0 <= q < old(k).tasks@.len() && q != cur(*old(k))
                ==> final(k).tasks@[q] == old(k).tasks@[q],
        final(k).task(cur(*old(k))).syscall_times@ == bumped(
            old(k).task(cur(*old(k))).syscall_times@,
            SYSCALL_MMAP as int,
        ),
        counter_step(*old(k), *final(k), cur(*old(k)), SYSCALL_MMAP as int),
        final(k).task(cur(*old(k))) == (Task {
            aspace: final(k).task(cur(*old(k))).aspace,
            syscall_times: final(k).task(cur(*old(k))).syscall_times,
            ..old(k).task(cur(*old(k)))
        }),
{
    let c = k.current.unwrap();
    let mut t = k.tasks.remove(c).unwrap();
    bump_counter(&mut t, SYSCALL_MMAP);
    let r = t.aspace.mmap(start, len, port);
    k.tasks.insert(c, Some(t));
    proof {
        assert(k.tasks@ =~= old(k).tasks@.update(c as int, k.tasks@[c as int]));
        lemma_wf_task_replace(*old(k), *k, c as int);
    }
    r
}

/// Unmap an exactly-mapped page range from the calling task's address
/// space; fails, leaving it unchanged, on a misaligned start or a range
/// that is not precisely the union of mapped regions.
pub fn sys_munmap(k: &mut Kernel, start: usize, len: usize) -> (r: isize)
    requires
        old(k).wf(),
        old(k).current is Some,
    ensures
        final(k).wf(),
        r == 0 || r == -1,
        (r == 0) == old(k).task(cur(*old(k))).aspace.can_munmap(start as int, len as int),
        r == -1 ==> final(k).task(cur(*old(k))).aspace == old(k).task(cur(*old(k))).aspace,
        r == 0 ==> forall|vpn: int|
            #[trigger] final(k).task(cur(*old(k))).aspace.is_mapped(vpn)
                == (old(k).task(cur(*old(k))).aspace.is_mapped(vpn)
                    && !(page_of(start as int) <= vpn < end_page(start as int, len as int))),
        r == 0 ==> forall|a: int|
            #[trigger] final(k).task(cur(*old(k))).aspace.addr_mapped(a)
                ==> final(k).task(cur(*old(k))).aspace.byte_at(a)
                    == old(k).task(cur(*old(k))).aspace.byte_at(a),
        final(k).current == old(k).current,
        final(k).ready@ == old(k).ready@,
        final(k).images@ == old(k).images@,
        final(k).now_us == old(k).now_us,
        final(k).tasks@.len() == old(k).tasks@.len(),
        forall|q: int|
            0 <= q < old(k).tasks@.len() && q != cur(*old(k))
                ==> final(k).tasks@[q] == old(k).tasks@[q],
        final(k).task(cur(*old(k))).syscall_times@ == bumped(
            old(k).task(cur(*old(k))).syscall_times@,
            SYSCALL_MUNMAP as int,
        ),
        counter_step(*old(k), *final(k), cur(*old(k)), SYSCALL_MUNMAP as int),
        final(k).task(cur(*old(k))) == (Task {
            aspace: final(k).task(cur(*old(k))).aspace,
            syscall_times: final(k).task(cur(*old(k))).syscall_times,
            ..old(k).task(cur(*old(k)))
        }),
{
    let c = k.current.unwrap();
    let mut t = k.tasks.remove(c).unwrap();
    bump_counter(&mut t, SYSCALL_MUNMAP);
    let r = t.aspace.munmap(start, len);
    k.tasks.insert(c, Some(t));
    proof {
        assert(k.tasks@ =~= old(k).tasks@.update(c as int, k.tasks@[c as int]));
        lemma_wf_task_replace(*old(k), *k, c as int);
    }
    r
}

/// A store by the running user program to its own memory, through
/// translation: fails, writing nothing, when the address is unmapped.
/// Only the calling task's address space can be touched.
pub fn write_user_byte(k: &mut Kernel, addr: usize, val: u8) -> (r: isize)
    requires
        old(k).wf(),
        old(k).current is Some,
    ensures
        final(k).wf(),
        r == 0 || r == -1,
        (r == 0) == old(k).task(cur(*old(k))).aspace.addr_mapped(addr as int),
        r == -1 ==> final(k).task(cur(*old(k))).aspace == old(k).task(cur(*old(k))).aspace,
        final(k).task(cur(*old(k))).aspace.same_mapping(old(k).task(cur(*old(k))).aspace),
        r == 0 ==> forall|a: int|
            #[trigger] old(k).task(cur(*old(k))).aspace.addr_mapped(a)
                ==> final(k).task(cur(*old(k))).aspace.byte_at(a) == if a == addr {
                    val
                } else {
                    old(k).task(cur(*old(k))).aspace.byte_at(a)
                },
        final(k).current == old(k).current,
        final(k).ready@ == old(k).ready@,
        final(k).images@ == old(k).images@,
        final(k).now_us == old(k).now_us,
        final(k).tasks@.len() == old(k).tasks@.len(),
        forall|q: int|
            0 <= q < old(k).tasks@.len() && q != cur(*old(k))
                ==> final(k).tasks@[q] == old(k).tasks@[q],
        final(k).task(cur(*old(k))) == (Task {
            aspace: final(k).task(cur(*old(k))).aspace,
            ..old(k).task(cur(*old(k)))
        }),
{
    let c = k.current.unwrap();
    let mut t = k.tasks.remove(c).unwrap();
    let ok = t.aspace.write_byte(addr, val);
    k.tasks.insert(c, Some(t));
    proof {
        assert(k.tasks@ =~= old(k).tasks@.update(c as int, k.tasks@[c as int]));
        lemma_wf_task_replace(*old(k), *k, c as int);
    }
    if ok {
        0
    } else {
        -1
    }
}

/// A load by the running user program from its own memory, through
/// translation: absent when the address is unmapped.
pub fn read_user_byte(k: &Kernel, addr: usize) -> (r: Option<u8>)
    requires
        k.wf(),
        k.current is Some,
    ensures
        r == if k.task(cur(*k)).aspace.addr_mapped(addr as int) {
            Some(k.task(cur(*k)).aspace.byte_at(addr as int))
        } else {
            None::<u8>
        },
{
    let c = k.current.unwrap();
    match &k.tasks[c] {
        Some(t) => t.aspace.read_byte(addr),
        None => {
            proof {
                assert(false);
            }
            None
        },
    }
}

/// How a completed yield relates the kernel before and after: the caller
/// `c` re-enters the queue as `Ready`, its invocation counter counts the
/// call, and the scheduler's choice from the enlarged queue is dispatched
/// (possibly `c` itself).
pub open spec fn yield_post(pre: Kernel, post: Kernel) -> bool {
    let c = cur(pre);
    let rq = pre.ready@.push(pre.current.unwrap());
    let ss = queue_strides(pre.tasks@, rq);
    let i = sched_pick(ss);
    let d = rq[i] as int;
    &&& pick_ok(ss, i)
    &&& post.current == Some(rq[i])
    &&& post.ready@ == rq.remove(i)
    &&& post.tasks@.len() == pre.tasks@.len()
    &&& forall|q: int| 0 <= q < pre.tasks@.len() && q != c && q != d ==> post.tasks@[q] == pre.tasks@[q]
    &&& post.live(c)
    &&& post.live(d)
    &&& if d == c {
        post.task(c) == (Task {
            status: TaskStatus::Running,
            stride: next_stride(pre.task(c)),
            syscall_times: post.task(c).syscall_times,
            ..pre.task(c)
        }) && post.task(c).syscall_times@ == bumped(pre.task(c).syscall_times@, SYSCALL_YIELD as int)
    } else {
        post.task(c) == (Task {
            status: TaskStatus::Ready,
            syscall_times: post.task(c).syscall_times,
            ..pre.task(c)
        }) && post.task(c).syscall_times@ == bumped(pre.task(c).syscall_times@, SYSCALL_YIELD as int)
            && post.task(d) == (Task {
            status: TaskStatus::Running,
            stride: next_stride(pre.task(d)),
            ..pre.task(d)
        })
    }
    &&& post.images@ == pre.images@
    &&& post.now_us == pre.now_us
}

/// Give up the processor: the calling task turns `Ready`, re-enters the
/// queue, and the scheduler dispatches its choice; the call reports 0 to
/// the caller once it runs again.
pub fn sys_yield(k: &mut Kernel) -> (r: isize)
    requires
        old(k).wf(),
        old(k).current is Some,
    ensures
        final(k).wf(),
        r == 0,
        yield_post(*old(k), *final(k)),
        counter_step(*old(k), *final(k), cur(*old(k)), SYSCALL_YIELD as int),
{
    let c = k.current.unwrap();
    let mut t = k.tasks.remove(c).unwrap();
    bump_counter(&mut t, SYSCALL_YIELD);
    t.status = TaskStatus::Ready;
    k.tasks.insert(c, Some(t));
    k.ready.push(c);
    k.current = None;
    let ghost mid = *k;
    proof {
        assert(k.tasks@ =~= old(k).tasks@.update(c as int, k.tasks@[c as int]));
        lemma_wf_park(*old(k), *k, c as int);
        assert(queue_strides(mid.tasks@, mid.ready@)
            =~= queue_strides(old(k).tasks@, old(k).ready@.push(c)));
    }
    k.dispatch();
    proof {
        let pre = *old(k);
        let rq = pre.ready@.push(c);
        let ss = queue_strides(pre.tasks@, rq);
        assert(mid.ready@ == rq);
        assert(queue_strides(mid.tasks@, mid.ready@) == ss);
        assert(mid.ready@.len() > 0);
        let i = sched_pick(ss);
        assert(pick_ok(ss, i));
        let d = rq[i] as int;
        assert(k.current == Some(rq[i]));
        assert(k.ready@ == rq.remove(i));
        if d == c as int {
            assert(k.task(d) == (Task {
                status: TaskStatus::Running,
                stride: next_stride(mid.task(d)),
                ..mid.task(d)
            }));
            assert(next_stride(mid.task(d)) == next_stride(pre.task(d)));
        } else {
            assert(mid.task(d) == pre.task(d));
            assert(k.task(c as int) == mid.task(c as int));
        }
        assert(yield_post(pre, *k));
    }
    0
}

/// How a completed exit relates the kernel before and after: the caller
/// `c` turns `Zombie` carrying `code`, leaves scheduling for good, and the
/// scheduler dispatches its choice from the remaining queue — or the core
/// idles when no task is eligible. Control never returns to the caller.
pub open spec fn exit_post(pre: Kernel, post: Kernel, code: i32) -> bool {
    let c = cur(pre);
    let ss = queue_strides(pre.tasks@, pre.ready@);
    let i = sched_pick(ss);
    let d = pre.ready@[i] as int;
    &&& post.tasks@.len() == pre.tasks@.len()
    &&& post.live(c)
    &&& post.task(c) == (Task {
        status: TaskStatus::Zombie,
        exit_code: code,
        syscall_times: post.task(c).syscall_times,
        ..pre.task(c)
    })
    &&& post.task(c).syscall_times@ == bumped(pre.task(c).syscall_times@, SYSCALL_EXIT as int)
    &&& if pre.ready@.len() == 0 {
        post.current is None && post.ready@.len() == 0 && forall|q: int|
            0 <= q < pre.tasks@.len() && q != c ==> post.tasks@[q] == pre.tasks@[q]
    } else {
        &&& pick_ok(ss, i)
        &&& post.current == Some(pre.ready@[i])
        &&& post.ready@ == pre.ready@.remove(i)
        &&& forall|q: int|
            0 <= q < pre.tasks@.len() && q != c && q != d ==> post.tasks@[q] == pre.tasks@[q]
        &&& post.live(d)
        &&& post.task(d) == (Task {
            status: TaskStatus::Running,
            stride: next_stride(pre.task(d)),
            ..pre.task(d)
        })
    }
    &&& post.images@ == pre.images@
    &&& post.now_us == pre.now_us
}

/// Terminate the calling task: record `code`, turn `Zombie` (to be reaped
/// by the parent), and hand the processor to the scheduler's next choice.
pub fn sys_exit(k: &mut Kernel, code: i32)
    requires
        old(k).wf(),
        old(k).current is Some,
    ensures
        final(k).wf(),
        exit_post(*old(k), *final(k), code),
        counter_step(*old(k), *final(k), cur(*old(k)), SYSCALL_EXIT as int),
{
    let c = k.current.unwrap();
    let mut t = k.tasks.remove(c).unwrap();
    bump_counter(&mut t, SYSCALL_EXIT);
    t.status = TaskStatus::Zombie;
    t.exit_code = code;
    k.tasks.insert(c, Some(t));
    k.current = None;
    let ghost mid = *k;
    proof {
        assert(k.tasks@ =~= old(k).tasks@.update(c as int, k.tasks@[c as int]));
        lemma_wf_park(*old(k), *k, c as int);
        assert(queue_strides(mid.tasks@, mid.ready@)
            =~= queue_strides(old(k).tasks@, old(k).ready@));
    }
    k.dispatch();
    proof {
        let pre = *old(k);
        let ss = queue_strides(pre.tasks@, pre.ready@);
        assert(mid.ready@ == pre.ready@);
        assert(queue_strides(mid.tasks@, mid.ready@) == ss);
        if pre.ready@.len() == 0 {
            assert(*k == mid);
        } else {
            let i = sched_pick(ss);
            assert(pick_ok(ss, i));
            let d = pre.ready@[i] as int;
            assert(mid.ready@[i] == pre.ready@[i]);
            assert(d != c as int);
            assert(mid.task(d) == pre.task(d));
            assert(k.task(c as int) == mid.task(c as int));
        }
        assert(exit_post(pre, *k, code));
    }
}

/// How a completed fork relates the kernel before and after: a fresh task
/// takes the next pid with an exact copy of the caller's address space,
/// trap context and break, except that its return-value register is forced
/// to zero; it starts `Ready` in the queue, a child of the caller, with
/// fresh accounting; the caller gets the new pid back.
pub open spec fn fork_post(pre: Kernel, post: Kernel, r: isize) -> bool {
    let c = cur(pre);
    let n = pre.tasks@.len() as int;
    &&& r == n
    &&& post.tasks@.len() == n + 1
    &&& forall|q: int| 0 <= q < n && q != c ==> post.tasks@[q] == pre.tasks@[q]
    &&& post.live(c)
    &&& post.task(c) == (Task {
        children: post.task(c).children,
        syscall_times: post.task(c).syscall_times,
        ..pre.task(c)
    })
    &&& post.task(c).children@ == pre.task(c).children@.push(pre.tasks@.len() as usize)
    &&& post.task(c).syscall_times@ == bumped(pre.task(c).syscall_times@, SYSCALL_FORK as int)
    &&& post.live(n)
    &&& post.task(n).pid == n
    &&& post.task(n).status == TaskStatus::Ready
    &&& post.task(n).trap.a0 == 0
    &&& post.task(n).parent == Some(pre.current.unwrap())
    &&& post.task(n).children@.len() == 0
    &&& post.task(n).exit_code == 0
    &&& post.task(n).priority == pre.task(c).priority
    &&& post.task(n).stride == 0
    &&& post.task(n).syscall_times@.len() == MAX_SYSCALL_NUM
    &&& forall|i: int| 0 <= i < MAX_SYSCALL_NUM ==> post.task(n).syscall_times@[i] == 0
    &&& post.task(n).start_time_ms == post.now_ms()
    &&& post.task(n).heap_base == pre.task(c).heap_base
    &&& post.task(n).heap_top == pre.task(c).heap_top
    &&& pre.task(c).aspace.models(post.task(n).aspace)
    &&& post.task(n).aspace.wf()
    &&& post.ready@ == pre.ready@.push(pre.tasks@.len() as usize)
    &&& post.current == pre.current
    &&& post.images@ == pre.images@
    &&& post.now_us == pre.now_us
}

/// Duplicate the calling task: deep-copy its whole address space and trap
/// context into a new child whose return-value register is zeroed, so the
/// two sides can tell each other apart; the caller sees the child's pid.
pub fn sys_fork(k: &mut Kernel) -> (r: isize)
    requires
        old(k).wf(),
        old(k).current is Some,
        old(k).tasks@.len() < isize::MAX,
    ensures
        final(k).wf(),
        fork_post(*old(k), *final(k), r),
        counter_step(*old(k), *final(k), cur(*old(k)), SYSCALL_FORK as int),
{
    let c = k.current.unwrap();
    let n = k.tasks.len();
    let mut t = k.tasks.remove(c).unwrap();
    bump_counter(&mut t, SYSCALL_FORK);
    let child_aspace = t.aspace.duplicate();
    let child = Task {
        pid: n,
        status: TaskStatus::Ready,
        trap: TrapContext { a0: 0 },
        aspace: child_aspace,
        parent: Some(c),
        children: Vec::new(),
        exit_code: 0,
        priority: t.priority,
        stride: 0,
        syscall_times: zero_counters(),
        start_time_ms: k.now_us / 1000,
        heap_base: t.heap_base,
        heap_top: t.heap_top,
    };
    t.children.push(n);
    k.tasks.insert(c, Some(t));
    k.tasks.push(Some(child));
    k.ready.push(n);
    proof {
        let pre = *old(k);
        let ci = c as int;
        let ni = n as int;
        assert(k.tasks@ =~= pre.tasks@.update(ci, k.tasks@[ci]).push(k.tasks@[ni]));
        assert forall|q: int| 0 <= q < ni && q != ci
            implies k.tasks@[q] == pre.tasks@[q] by {}
        assert forall|q: int| #[trigger] k.live(q)
            implies k.task(q).pid == q && k.task(q).wf()
                && k.task(q).start_time_ms <= k.now_ms() by {
            if q < ni {
                assert(pre.live(q));
                if q != ci {
                    assert(k.task(q) == pre.task(q));
                }
            } else {
                assert(q == ni);
            }
        }
        assert(k.wf_tasks());
        assert forall|q: int|
            #[trigger] k.live(q) && k.task(q).status == TaskStatus::Running
                implies k.current == Some(q as usize) by {
            if q < ni {
                assert(pre.live(q));
                if q != ci {
                    assert(pre.task(q).status == TaskStatus::Running);
                }
            }
        }
        assert forall|j: int| 0 <= j < k.ready@.len()
            implies k.live(#[trigger] k.ready@[j] as int)
                && k.task(k.ready@[j] as int).status == TaskStatus::Ready by {
            if j < pre.ready@.len() {
                assert(pre.live(pre.ready@[j] as int));
                assert(pre.ready@[j] as int != ci);
            } else {
                assert(k.ready@[j] == n);
            }
        }
        assert forall|j1: int, j2: int|
            #![trigger k.ready@[j1], k.ready@[j2]]
            0 <= j1 < k.ready@.len() && 0 <= j2 < k.ready@.len() && j1 != j2
                implies k.ready@[j1] != k.ready@[j2] by {
            if j1 < pre.ready@.len() && j2 < pre.ready@.len() {
                assert(pre.ready@[j1] != pre.ready@[j2]);
            } else if j1 < pre.ready@.len() {
                assert(pre.live(pre.ready@[j1] as int));
            } else if j2 < pre.ready@.len() {
                assert(pre.live(pre.ready@[j2] as int));
            }
        }
        assert(k.wf_sched());
        assert forall|q: int, j: int|
            #[trigger] k.live(q) && 0 <= j < k.task(q).children@.len()
                implies k.live(#[trigger] k.task(q).children@[j] as int)
                    && k.task(k.task(q).children@[j] as int).parent == Some(q as usize) by {
            if q == ni {
                assert(k.task(q).children@.len() == 0);
            } else {
                assert(pre.live(q));
                if q == ci {
                    if j < pre.task(ci).children@.len() {
                        let ch = pre.task(ci).children@[j] as int;
                        assert(pre.live(ch) && pre.task(ch).parent == Some(c));
                        assert(ch != ni);
                        assert(ch != ci ==> k.task(ch) == pre.task(ch));
                        assert(ch == ci ==> k.task(ch).parent == pre.task(ch).parent);
                    } else {
                        assert(k.task(ci).children@[j] == n);
                    }
                } else {
                    let ch = pre.task(q).children@[j] as int;
                    assert(pre.live(ch) && pre.task(ch).parent == Some(q as usize));
                    assert(ch != ni);
                    assert(ch != ci ==> k.task(ch) == pre.task(ch));
                }
            }
        }
        assert forall|q: int, j1: int, j2: int|
            #![trigger k.task(q).children@[j1], k.task(q).children@[j2]]
            k.live(q) && 0 <= j1 < k.task(q).children@.len()
                && 0 <= j2 < k.task(q).children@.len() && j1 != j2
                implies k.task(q).children@[j1] != k.task(q).children@[j2] by {
            if q != ni {
                assert(pre.live(q));
                if q == ci {
                    if j1 < pre.task(ci).children@.len() && j2 < pre.task(ci).children@.len() {
                        assert(pre.task(ci).children@[j1] != pre.task(ci).children@[j2]);
                    } else if j1 < pre.task(ci).children@.len() {
                        assert(pre.live(pre.task(ci).children@[j1] as int));
                    } else if j2 < pre.task(ci).children@.len() {
                        assert(pre.live(pre.task(ci).children@[j2] as int));
                    }
                } else {
                    assert(pre.task(q).children@[j1] != pre.task(q).children@[j2]);
                }
            }
        }
        assert(k.wf_tree());
        assert(fork_post(pre, *k, n as isize));
    }
    n as isize
}

/// Whether every byte of the `len`-byte structure at `ptr` translates in
/// address space `a` — the condition for the kernel to write it there.
pub open spec fn range_ok(a: AddressSpace, ptr: int, len: int) -> bool {
    &&& ptr + len <= usize::MAX
    &&& forall|x: int| ptr <= x < ptr + len ==> (#[trigger] a.addr_mapped(x))
}

/// Write the current wall-clock time (seconds and microseconds) into the
/// user structure at `ts`, translating byte by byte so the structure may
/// straddle separately mapped pages; fails, writing nothing, when any
/// byte of the destination does not translate.
pub fn sys_get_time(k: &mut Kernel, ts: usize, _tz: usize) -> (r: isize)
    requires
        old(k).wf(),
        old(k).current is Some,
    ensures
        final(k).wf(),
        r == 0 || r == -1,
        (r == 0) == range_ok(old(k).task(cur(*old(k))).aspace, ts as int, 16),
        r == -1 ==> final(k).task(cur(*old(k))).aspace == old(k).task(cur(*old(k))).aspace,
        final(k).task(cur(*old(k))).aspace.same_mapping(old(k).task(cur(*old(k))).aspace),
        r == 0 ==> forall|a: int|
            #[trigger] old(k).task(cur(*old(k))).aspace.addr_mapped(a)
                ==> final(k).task(cur(*old(k))).aspace.byte_at(a) == if ts <= a < ts + 16 {
                    time_val_bytes(
                        old(k).now_us as int / 1000000,
                        old(k).now_us as int % 1000000,
                    )[a - ts]
                } else {
                    old(k).task(cur(*old(k))).aspace.byte_at(a)
                },
        final(k).current == old(k).current,
        final(k).ready@ == old(k).ready@,
        final(k).images@ == old(k).images@,
        final(k).now_us == old(k).now_us,
        final(k).tasks@.len() == old(k).tasks@.len(),
        forall|q: int|
            0 <= q < old(k).tasks@.len() && q != cur(*old(k))
                ==> final(k).tasks@[q] == old(k).tasks@[q],
        final(k).task(cur(*old(k))).syscall_times@ == bumped(
            old(k).task(cur(*old(k))).syscall_times@,
            SYSCALL_GET_TIME as int,
        ),
        counter_step(*old(k), *final(k), cur(*old(k)), SYSCALL_GET_TIME as int),
        final(k).task(cur(*old(k))) == (Task {
            aspace: final(k).task(cur(*old(k))).aspace,
            syscall_times: final(k).task(cur(*old(k))).syscall_times,
            ..old(k).task(cur(*old(k)))
        }),
{
    let c = k.current.unwrap();
    let us = k.now_us;
    let mut t = k.tasks.remove(c).unwrap();
    bump_counter(&mut t, SYSCALL_GET_TIME);
    let r: isize = if ts <= usize::MAX - 16 && t.aspace.range_mapped(ts, 16) {
        let tv = time_val_of(us);
        let bytes = encode_time_val(&tv);
        t.aspace.write_bytes(ts, &bytes);
        0
    } else {
        -1
    };
    k.tasks.insert(c, Some(t));
    proof {
        assert(k.tasks@ =~= old(k).tasks@.update(c as int, k.tasks@[c as int]));
        lemma_wf_task_replace(*old(k), *k, c as int);
    }
    r
}

/// Write a snapshot of the calling task — status, the whole per-syscall
/// invocation table (this call already counted), and elapsed run time in
/// milliseconds — into the user structure at `ti`, translating byte by
/// byte; fails, writing nothing, when the destination does not translate.
pub fn sys_task_info(k: &mut Kernel, ti: usize) -> (r: isize)
    requires
        old(k).wf(),
        old(k).current is Some,
    ensures
        final(k).wf(),
        r == 0 || r == -1,
        (r == 0) == range_ok(
            old(k).task(cur(*old(k))).aspace,
            ti as int,
            16 + 4 * (MAX_SYSCALL_NUM as int),
        ),
        r == -1 ==> final(k).task(cur(*old(k))).aspace == old(k).task(cur(*old(k))).aspace,
        final(k).task(cur(*old(k))).aspace.same_mapping(old(k).task(cur(*old(k))).aspace),
        r == 0 ==> forall|a: int|
            #[trigger] old(k).task(cur(*old(k))).aspace.addr_mapped(a)
                ==> final(k).task(cur(*old(k))).aspace.byte_at(a)
                    == if ti <= a < ti + 16 + 4 * (MAX_SYSCALL_NUM as int) {
                    task_info_bytes(
                        old(k).task(cur(*old(k))).status,
                        bumped(
                            old(k).task(cur(*old(k))).syscall_times@,
                            SYSCALL_TASK_INFO as int,
                        ),
                        old(k).now_ms() - old(k).task(cur(*old(k))).start_time_ms,
                    )[a - ti]
                } else {
                    old(k).task(cur(*old(k))).aspace.byte_at(a)
                },
        final(k).current == old(k).current,
        final(k).ready@ == old(k).ready@,
        final(k).images@ == old(k).images@,
        final(k).now_us == old(k).now_us,
        final(k).tasks@.len() == old(k).tasks@.len(),
        forall|q: int|
            0 <= q < old(k).tasks@.len() && q != cur(*old(k))
                ==> final(k).tasks@[q] == old(k).tasks@[q],
        final(k).task(cur(*old(k))).syscall_times@ == bumped(
            old(k).task(cur(*old(k))).syscall_times@,
            SYSCALL_TASK_INFO as int,
        ),
        counter_step(*old(k), *final(k), cur(*old(k)), SYSCALL_TASK_INFO as int),
        final(k).task(cur(*old(k))) == (Task {
            aspace: final(k).task(cur(*old(k))).aspace,
            syscall_times: final(k).task(cur(*old(k))).syscall_times,
            ..old(k).task(cur(*old(k)))
        }),
{
    let c = k.current.unwrap();
    let now_ms = k.now_us / 1000;
    let mut t = k.tasks.remove(c).unwrap();
    bump_counter(&mut t, SYSCALL_TASK_INFO);
    proof {
        assert(old(k).live(c as int));
        assert(t.start_time_ms <= now_ms);
    }
    let elapsed = now_ms - t.start_time_ms;
    let info_len = 16 + 4 * MAX_SYSCALL_NUM;
    let r: isize = if ti <= usize::MAX - info_len && t.aspace.range_mapped(ti, info_len) {
        let info = TaskInfo {
            status: t.status,
            syscall_times: copy_counters(&t.syscall_times),
            time: elapsed,
        };
        let bytes = encode_task_info(&info);
        t.aspace.write_bytes(ti, &bytes);
        0
    } else {
        -1
    };
    k.tasks.insert(c, Some(t));
    proof {
        assert(k.tasks@ =~= old(k).tasks@.update(c as int, k.tasks@[c as int]));
        lemma_wf_task_replace(*old(k), *k, c as int);
    }
    r
}

/// `s` is the NUL-terminated byte string a user pointer `addr` denotes in
/// address space `a`: its bytes are mapped and non-zero, and a mapped zero
/// byte follows.
pub open spec fn is_cstr_at(a: AddressSpace, addr: int, s: Seq<u8>) -> bool {
    &&& addr + s.len() <= usize::MAX
    &&& forall|i: int|
        0 <= i < s.len()
            ==> (#[trigger] a.addr_mapped(addr + i)) && a.byte_at(addr + i) == s[i] && s[i] != 0
    &&& a.addr_mapped(addr + s.len())
    &&& a.byte_at(addr + s.len()) == 0
}

/// No NUL-terminated string can be read at `addr`: translation fails
/// before a terminator is reached.
pub open spec fn no_cstr_at(a: AddressSpace, addr: int) -> bool {
    forall|s: Seq<u8>| !is_cstr_at(a, addr, s)
}

/// At one address there is at most one NUL-terminated string.
pub proof fn lemma_cstr_unique(a: AddressSpace, addr: int, s1: Seq<u8>, s2: Seq<u8>)
    requires
        is_cstr_at(a, addr, s1),
        is_cstr_at(a, addr, s2),
    ensures
        s1 == s2,
{
    if s1.len() < s2.len() {
        assert(a.addr_mapped(addr + s1.len()));
        assert(a.byte_at(addr + s1.len()) == s2[s1.len() as int]);
        assert(s2[s1.len() as int] != 0);
    }
    if s2.len() < s1.len() {
        assert(a.addr_mapped(addr + s2.len()));
        assert(a.byte_at(addr + s2.len()) == s1[s2.len() as int]);
        assert(s1[s2.len() as int] != 0);
    }
    assert(s1.len() == s2.len());
    assert forall|i: int| 0 <= i < s1.len() implies s1[i] == s2[i] by {
        assert(a.addr_mapped(addr + i));
        assert(a.byte_at(addr + i) == s1[i]);
        assert(a.byte_at(addr + i) == s2[i]);
    }
    assert(s1 =~= s2);
}

/// Read the NUL-terminated string a user pointer denotes, through
/// translation; absent when translation fails before a terminator.
fn read_cstr(a: &AddressSpace, addr: usize) -> (r: Option<Vec<u8>>)
    requires
        a.wf(),
    ensures
        match r {
            Some(s) => is_cstr_at(*a, addr as int, s@),
            None => no_cstr_at(*a, addr as int),
        },
{
    let mut out: Vec<u8> = Vec::new();
    let mut pos = addr;
    loop
        invariant
            a.wf(),
            pos == addr + out@.len(),
            addr + out@.len() <= usize::MAX,
            forall|i: int|
                0 <= i < out@.len()
                    ==> (#[trigger] a.addr_mapped(addr + i)) && a.byte_at(addr + i) == out@[i]
                        && out@[i] != 0,
        decreases usize::MAX - pos,
    {
        match a.read_byte(pos) {
            None => {
                proof {
                    assert forall|s: Seq<u8>| !is_cstr_at(*a, addr as int, s) by {
                        if is_cstr_at(*a, addr as int, s) {
                            if s.len() < out@.len() {
                                assert(a.byte_at(addr + s.len()) == out@[s.len() as int]);
                                assert(a.addr_mapped(addr + s.len()));
                                assert(out@[s.len() as int] != 0);
                            } else {
                                let i = out@.len() as int;
                                if i < s.len() {
                                    assert(a.addr_mapped(addr + i));
                                } else {
                                    assert(a.addr_mapped(addr + s.len()));
                                }
                            }
                        }
                    }
                }
                return None;
            },
            Some(b) => {
                if b == 0 {
                    return Some(out);
                }
                proof {
                    assert(a.addr_mapped(addr + out@.len()));
                    assert(a.byte_at(addr + out@.len()) == b);
                }
                out.push(b);
                if pos == usize::MAX {
                    proof {
                        assert forall|s: Seq<u8>| !is_cstr_at(*a, addr as int, s) by {
                            if is_cstr_at(*a, addr as int, s) {
                                if s.len() < out@.len() {
                                    assert(a.byte_at(addr + s.len()) == out@[s.len() as int]);
                                    assert(out@[s.len() as int] != 0);
                                } else {
                                    assert(addr + s.len() >= addr + out@.len());
                                    assert(addr + out@.len() > usize::MAX);
                                }
                            }
                        }
                    }
                    return None;
                }
                pos = pos + 1;
            },
        }
    }
}

/// Whether two byte strings hold the same bytes.
fn bytes_eq(a: &Vec<u8>, b: &Vec<u8>) -> (r: bool)
    ensures
        r == (a@ == b@),
{
    if a.len() != b.len() {
        return false;
    }
    let n = a.len();
    let mut i: usize = 0;
    while i < n
        invariant
            n == a@.len(),
            n == b@.len(),
            i <= n,
            forall|j: int| 0 <= j < i ==> a@[j] == b@[j],
        decreases n - i,
    {
        if a[i] != b[i] {
            return false;
        }
        i = i + 1;
    }
    proof {
        assert(a@ =~= b@);
    }
    true
}

/// `i` is where the loader finds `name`: the first image so called.
pub open spec fn image_at(images: Seq<Image>, name: Seq<u8>, i: int) -> bool {
    &&& 0 <= i < images.len()
    &&& images[i].name@ == name
    &&& forall|j: int| 0 <= j < i ==> (#[trigger] images[j].name@) != name
}

/// Whether the loader finds `name` at all.
pub open spec fn has_image(images: Seq<Image>, name: Seq<u8>) -> bool {
    exists|i: int| #[trigger] image_at(images, name, i)
}

/// Look a name up in the image table: the first match, if any.
fn find_image(images: &Vec<Image>, name: &Vec<u8>) -> (r: Option<usize>)
    ensures
        match r {
            Some(i) => image_at(images@, name@, i as int) && has_image(images@, name@),
            None => !has_image(images@, name@),
        },
{
    let n = images.len();
    let mut i: usize = 0;
    while i < n
        invariant
            n == images@.len(),
            i <= n,
            forall|j: int| 0 <= j < i ==> (#[trigger] images@[j].name@) != name@,
        decreases n - i,
    {
        if bytes_eq(&images[i].name, name) {
            proof {
                assert(image_at(images@, name@, i as int));
            }
            return Some(i);
        }
        i = i + 1;
    }
    proof {
        assert forall|j: int| !image_at(images@, name@, j) by {
            if image_at(images@, name@, j) {
                assert(images@[j].name@ != name@);
            }
        }
    }
    None
}

/// Replace the calling task's program image: look the NUL-terminated name
/// at `path` up with the loader and, when found, rebuild the task's
/// address space, trap context, break and start time from that image,
/// keeping pid, parent, children, priority and the invocation counters.
/// When the name does not translate or no image carries it, the task is
/// unchanged and the call fails. This call never creates a task.
pub fn sys_exec(k: &mut Kernel, path: usize) -> (r: isize)
    requires
        old(k).wf(),
        old(k).current is Some,
    ensures
        final(k).wf(),
        r == 0 || r == -1,
        no_cstr_at(old(k).task(cur(*old(k))).aspace, path as int) ==> r == -1,
        forall|s: Seq<u8>|
            #[trigger] is_cstr_at(old(k).task(cur(*old(k))).aspace, path as int, s)
                ==> ((r == 0) == has_image(old(k).images@, s)),
        r == -1 ==> final(k).task(cur(*old(k))) == (Task {
            syscall_times: final(k).task(cur(*old(k))).syscall_times,
            ..old(k).task(cur(*old(k)))
        }),
        r == 0 ==> forall|s: Seq<u8>|
            #[trigger] is_cstr_at(old(k).task(cur(*old(k))).aspace, path as int, s)
                ==> forall|i: int|
                #[trigger] image_at(old(k).images@, s, i)
                    ==> is_image_aspace(
                        final(k).task(cur(*old(k))).aspace,
                        old(k).images@[i].pages as int,
                    ) && final(k).task(cur(*old(k))).heap_base
                        == (USER_BASE_VPN + old(k).images@[i].pages) * PAGE_SIZE,
        r == 0 ==> final(k).task(cur(*old(k))).trap.a0 == 0
            && final(k).task(cur(*old(k))).start_time_ms == old(k).now_ms()
            && final(k).task(cur(*old(k))).heap_top == final(k).task(cur(*old(k))).heap_base
            && final(k).task(cur(*old(k))) == (Task {
            aspace: final(k).task(cur(*old(k))).aspace,
            trap: (TrapContext { a0: 0 }),
            start_time_ms: final(k).task(cur(*old(k))).start_time_ms,
            heap_base: final(k).task(cur(*old(k))).heap_base,
            heap_top: final(k).task(cur(*old(k))).heap_top,
            syscall_times: final(k).task(cur(*old(k))).syscall_times,
            ..old(k).task(cur(*old(k)))
        }),
        final(k).current == old(k).current,
        final(k).ready@ == old(k).ready@,
        final(k).images@ == old(k).images@,
        final(k).now_us == old(k).now_us,
        final(k).tasks@.len() == old(k).tasks@.len(),
        forall|q: int|
            0 <= q < old(k).tasks@.len() && q != cur(*old(k))
                ==> final(k).tasks@[q] == old(k).tasks@[q],
        final(k).task(cur(*old(k))).syscall_times@ == bumped(
            old(k).task(cur(*old(k))).syscall_times@,
            SYSCALL_EXEC as int,
        ),
        counter_step(*old(k), *final(k), cur(*old(k)), SYSCALL_EXEC as int),
{
    let c = k.current.unwrap();
    let now_ms = k.now_us / 1000;
    let mut t = k.tasks.remove(c).unwrap();
    bump_counter(&mut t, SYSCALL_EXEC);
    let r: isize = match read_cstr(&t.aspace, path) {
        None => -1,
        Some(name) => {
            match find_image(&k.images, &name) {
                None => {
                    proof {
                        assert forall|s: Seq<u8>|
                            #[trigger] is_cstr_at(old(k).task(c as int).aspace, path as int, s)
                                implies !has_image(old(k).images@, s) by {
                            lemma_cstr_unique(old(k).task(c as int).aspace, path as int, s, name@);
                        }
                    }
                    -1
                },
                Some(i) => {
                    let pages = k.images[i].pages;
                    proof {
                        assert(old(k).live(c as int));
                        assert(image_ok(old(k).images@[i as int]));
                        assert((USER_BASE_VPN + pages) * PAGE_SIZE <= isize::MAX);
                        assert(isize::MAX <= usize::MAX);
                    }
                    t.aspace = build_image_aspace(pages);
                    t.trap = TrapContext { a0: 0 };
                    t.start_time_ms = now_ms;
                    let hb = (USER_BASE_VPN + pages) * PAGE_SIZE;
                    t.heap_base = hb;
                    t.heap_top = hb;
                    proof {
                        assert forall|s: Seq<u8>|
                            #[trigger] is_cstr_at(old(k).task(c as int).aspace, path as int, s)
                                implies has_image(old(k).images@, s) && (forall|i2: int|
                                #[trigger] image_at(old(k).images@, s, i2) ==> i2 == i) by {
                            lemma_cstr_unique(old(k).task(c as int).aspace, path as int, s, name@);
                            assert forall|i2: int| #[trigger] image_at(old(k).images@, s, i2)
                                implies i2 == i by {
                                if i2 < i {
                                    assert(old(k).images@[i2].name@ != name@);
                                } else if i < i2 {
                                    assert(old(k).images@[i as int].name@ != name@);
                                }
                            }
                        }
                    }
                    0
                },
            }
        },
    };
    k.tasks.insert(c, Some(t));
    proof {
        assert(k.tasks@ =~= old(k).tasks@.update(c as int, k.tasks@[c as int]));
        lemma_wf_task_replace(*old(k), *k, c as int);
    }
    r
}

/// Create a child running a named image directly: the loader's image
/// builds the new task's address space (nothing is copied from the
/// caller), it joins the task tree and the ready queue, and its pid comes
/// back; fails with no task created when the name does not translate or
/// no image carries it.
pub fn sys_spawn(k: &mut Kernel, path: usize) -> (r: isize)
    requires
        old(k).wf(),
        old(k).current is Some,
        old(k).tasks@.len() < isize::MAX,
    ensures
        final(k).wf(),
        r == -1 || r == old(k).tasks@.len(),
        no_cstr_at(old(k).task(cur(*old(k))).aspace, path as int) ==> r == -1,
        forall|s: Seq<u8>|
            #[trigger] is_cstr_at(old(k).task(cur(*old(k))).aspace, path as int, s)
                ==> ((r != -1) == has_image(old(k).images@, s)),
        r == -1 ==> final(k).tasks@.len() == old(k).tasks@.len()
            && final(k).ready@ == old(k).ready@
            && final(k).task(cur(*old(k))) == (Task {
            syscall_times: final(k).task(cur(*old(k))).syscall_times,
            ..old(k).task(cur(*old(k)))
        }),
        r != -1 ==> spawn_created(*old(k), *final(k)),
        r != -1 ==> forall|s: Seq<u8>|
            #[trigger] is_cstr_at(old(k).task(cur(*old(k))).aspace, path as int, s)
                ==> forall|i: int|
                #[trigger] image_at(old(k).images@, s, i)
                    ==> is_image_aspace(
                        final(k).task(old(k).tasks@.len() as int).aspace,
                        old(k).images@[i].pages as int,
                    ) && final(k).task(old(k).tasks@.len() as int).heap_base
                        == (USER_BASE_VPN + old(k).images@[i].pages) * PAGE_SIZE,
        final(k).current == old(k).current,
        final(k).images@ == old(k).images@,
        final(k).now_us == old(k).now_us,
        forall|q: int|
            0 <= q < old(k).tasks@.len() && q != cur(*old(k))
                ==> final(k).tasks@[q] == old(k).tasks@[q],
        final(k).task(cur(*old(k))).syscall_times@ == bumped(
            old(k).task(cur(*old(k))).syscall_times@,
            SYSCALL_SPAWN as int,
        ),
        counter_step(*old(k), *final(k), cur(*old(k)), SYSCALL_SPAWN as int),
{
    let c = k.current.unwrap();
    let n = k.tasks.len();
    let now_ms = k.now_us / 1000;
    let mut t = k.tasks.remove(c).unwrap();
    bump_counter(&mut t, SYSCALL_SPAWN);
    let found: Option<usize> = match read_cstr(&t.aspace, path) {
        None => None,
        Some(name) => {
            match find_image(&k.images, &name) {
                None => {
                    proof {
                        assert forall|s: Seq<u8>|
                            #[trigger] is_cstr_at(old(k).task(c as int).aspace, path as int, s)
                                implies !has_image(old(k).images@, s) by {
                            lemma_cstr_unique(old(k).task(c as int).aspace, path as int, s, name@);
                        }
                    }
                    None
                },
                Some(i) => {
                    proof {
                        assert forall|s: Seq<u8>|
                            #[trigger] is_cstr_at(old(k).task(c as int).aspace, path as int, s)
                                implies has_image(old(k).images@, s) && (forall|i2: int|
                                #[trigger] image_at(old(k).images@, s, i2) ==> i2 == i) by {
                            lemma_cstr_unique(old(k).task(c as int).aspace, path as int, s, name@);
                            assert forall|i2: int| #[trigger] image_at(old(k).images@, s, i2)
                                implies i2 == i by {
                                if i2 < i {
                                    assert(old(k).images@[i2].name@ != name@);
                                } else if i < i2 {
                                    assert(old(k).images@[i as int].name@ != name@);
                                }
                            }
                        }
                    }
                    Some(i)
                },
            }
        },
    };
    let r: isize = match found {
        None => {
            k.tasks.insert(c, Some(t));
            proof {
                assert(k.tasks@ =~= old(k).tasks@.update(c as int, k.tasks@[c as int]));
                lemma_wf_task_replace(*old(k), *k, c as int);
            }
            -1
        },
        Some(i) => {
            let pages = k.images[i].pages;
            proof {
                assert(image_ok(old(k).images@[i as int]));
                assert((USER_BASE_VPN + pages) * PAGE_SIZE <= isize::MAX);
                assert(isize::MAX <= usize::MAX);
            }
            let hb = (USER_BASE_VPN + pages) * PAGE_SIZE;
            let child = Task {
                pid: n,
                status: TaskStatus::Ready,
                trap: TrapContext { a0: 0 },
                aspace: build_image_aspace(pages),
                parent: Some(c),
                children: Vec::new(),
                exit_code: 0,
                priority: DEFAULT_PRIORITY,
                stride: 0,
                syscall_times: zero_counters(),
                start_time_ms: now_ms,
                heap_base: hb,
                heap_top: hb,
            };
            t.children.push(n);
            k.tasks.insert(c, Some(t));
            k.tasks.push(Some(child));
            k.ready.push(n);
            proof {
                lemma_wf_new_child(*old(k), *k, c as int, n as int);
            }
            n as isize
        },
    };
    r
}

/// What holds of the kernel after a child was created for the caller `c`
/// with the next pid: the caller's children and counters grew, the child
/// is `Ready` in the queue with the default weight, fresh accounting and a
/// zeroed return-value register, and everything else is kept.
pub open spec fn spawn_created(pre: Kernel, post: Kernel) -> bool {
    let c = cur(pre);
    let n = pre.tasks@.len() as int;
    &&& post.tasks@.len() == n + 1
    &&& post.live(c)
    &&& post.task(c) == (Task {
        children: post.task(c).children,
        syscall_times: post.task(c).syscall_times,
        ..pre.task(c)
    })
    &&& post.task(c).children@ == pre.task(c).children@.push(pre.tasks@.len() as usize)
    &&& post.live(n)
    &&& post.task(n).pid == n
    &&& post.task(n).status == TaskStatus::Ready
    &&& post.task(n).trap.a0 == 0
    &&& post.task(n).parent == Some(pre.current.unwrap())
    &&& post.task(n).children@.len() == 0
    &&& post.task(n).exit_code == 0
    &&& post.task(n).priority == DEFAULT_PRIORITY
    &&& post.task(n).stride == 0
    &&& post.task(n).syscall_times@.len() == MAX_SYSCALL_NUM
    &&& forall|i: int| 0 <= i < MAX_SYSCALL_NUM ==> post.task(n).syscall_times@[i] == 0
    &&& post.task(n).start_time_ms == post.now_ms()
    &&& post.task(n).heap_top == post.task(n).heap_base
    &&& post.ready@ == pre.ready@.push(pre.tasks@.len() as usize)
}

/// Whether a wait target accepts a child: `-1` is the wildcard, anything
/// else names one pid.
pub open spec fn wait_matches(pid: isize, child: int) -> bool {
    pid == -1 || pid == child
}

/// No child of `c` passes the wait filter at all.
pub open spec fn no_wait_candidate(k: Kernel, c: int, pid: isize) -> bool {
    forall|j: int|
        0 <= j < k.task(c).children@.len()
            ==> !wait_matches(pid, #[trigger] k.task(c).children@[j] as int)
}

/// No child of `c` both passes the wait filter and has exited.
pub open spec fn no_zombie_match(k: Kernel, c: int, pid: isize) -> bool {
    forall|j: int|
        0 <= j < k.task(c).children@.len()
            ==> !(wait_matches(pid, #[trigger] k.task(c).children@[j] as int)
                && k.task(k.task(c).children@[j] as int).status == TaskStatus::Zombie)
}

/// `j` is the position wait selects: the first child, in list order, that
/// passes the filter and has exited.
pub open spec fn zombie_match_at(k: Kernel, c: int, pid: isize, j: int) -> bool {
    &&& 0 <= j < k.task(c).children@.len()
    &&& wait_matches(pid, k.task(c).children@[j] as int)
    &&& k.task(k.task(c).children@[j] as int).status == TaskStatus::Zombie
    &&& forall|j2: int|
        0 <= j2 < j
            ==> !(wait_matches(pid, #[trigger] k.task(c).children@[j2] as int)
                && k.task(k.task(c).children@[j2] as int).status == TaskStatus::Zombie)
}

/// The four bytes wait writes for an exit code.
pub open spec fn exit_bytes(code: i32) -> Seq<u8> {
    Seq::new(4, |i: int| le_byte(code as u32 as int, i))
}

/// Reap one exited child. With `pid` as target (`-1` for any child):
/// fails with -1 when no child passes the filter; with -2 when some does
/// but none has exited; otherwise selects the first exited match in child
/// order, removes it from the children list, destroys it, writes its exit
/// code through translation at `exit_code_ptr`, and returns its pid. When
/// the exit-code destination does not translate, -1 comes back and
/// nothing — neither the task tree nor memory — changes. This is the only
/// path that destroys a zombie.
#[verifier::rlimit(30)]
pub fn sys_waitpid(k: &mut Kernel, pid: isize, exit_code_ptr: usize) -> (r: isize)
    requires
        old(k).wf(),
        old(k).current is Some,
    ensures
        final(k).wf(),
        no_wait_candidate(*old(k), cur(*old(k)), pid) ==> r == -1,
        !no_wait_candidate(*old(k), cur(*old(k)), pid) && no_zombie_match(
            *old(k),
            cur(*old(k)),
            pid,
        ) ==> r == -2,
        r == -1 || r == -2 ==> final(k).tasks@.len() == old(k).tasks@.len()
            && (forall|q: int|
            0 <= q < old(k).tasks@.len() && q != cur(*old(k))
                ==> final(k).tasks@[q] == old(k).tasks@[q])
            && final(k).task(cur(*old(k))) == (Task {
            syscall_times: final(k).task(cur(*old(k))).syscall_times,
            ..old(k).task(cur(*old(k)))
        }),
        forall|j: int|
            #[trigger] zombie_match_at(*old(k), cur(*old(k)), pid, j) ==> if !range_ok(
                old(k).task(cur(*old(k))).aspace,
                exit_code_ptr as int,
                4,
            ) {
                r == -1
            } else {
                &&& r == old(k).task(cur(*old(k))).children@[j]
                &&& final(k).tasks@.len() == old(k).tasks@.len()
                &&& final(k).tasks@[old(k).task(cur(*old(k))).children@[j] as int] is None
                &&& final(k).task(cur(*old(k))).children@
                    == old(k).task(cur(*old(k))).children@.remove(j)
                &&& final(k).task(cur(*old(k))) == (Task {
                    children: final(k).task(cur(*old(k))).children,
                    aspace: final(k).task(cur(*old(k))).aspace,
                    syscall_times: final(k).task(cur(*old(k))).syscall_times,
                    ..old(k).task(cur(*old(k)))
                })
                &&& final(k).task(cur(*old(k))).aspace.same_mapping(
                    old(k).task(cur(*old(k))).aspace,
                )
                &&& forall|a: int|
                    #[trigger] old(k).task(cur(*old(k))).aspace.addr_mapped(a)
                        ==> final(k).task(cur(*old(k))).aspace.byte_at(a)
                            == if exit_code_ptr <= a < exit_code_ptr + 4 {
                            exit_bytes(
                                old(k).task(
                                    old(k).task(cur(*old(k))).children@[j] as int,
                                ).exit_code,
                            )[a - exit_code_ptr]
                        } else {
                            old(k).task(cur(*old(k))).aspace.byte_at(a)
                        }
                &&& forall|q: int|
                    0 <= q < old(k).tasks@.len() && q != cur(*old(k))
                        && q != old(k).task(cur(*old(k))).children@[j] as int
                        ==> final(k).tasks@[q] == old(k).tasks@[q]
            },
        final(k).task(cur(*old(k))).syscall_times@ == bumped(
            old(k).task(cur(*old(k))).syscall_times@,
            SYSCALL_WAITPID as int,
        ),
        counter_step(*old(k), *final(k), cur(*old(k)), SYSCALL_WAITPID as int),
        final(k).current == old(k).current,
        final(k).ready@ == old(k).ready@,
        final(k).images@ == old(k).images@,
        final(k).now_us == old(k).now_us,
{
    let c = k.current.unwrap();
    let ghost pre = *old(k);
    let ghost ci = c as int;
    let mut any: bool = false;
    let mut found: Option<usize> = None;
    let mut dest_ok: bool = false;
    let mut child_pid: usize = 0;
    let mut child_code: i32 = 0;
    {
        let t = match &k.tasks[c] {
            Some(t) => t,
            None => {
                proof {
                    assert(false);
                }
                return -1;
            },
        };
        let n = t.children.len();
        let mut j: usize = 0;
        while j < n
            invariant
                k == old(k),
                pre == *old(k),
                pre.wf(),
                pre.current == Some(c as usize),
                ci == c as int,
                t == pre.task(ci),
                n == t.children@.len(),
                j <= n,
                any == !(forall|j2: int|
                    0 <= j2 < j ==> !wait_matches(pid, #[trigger] t.children@[j2] as int)),
            decreases n - j,
        {
            let ch = t.children[j];
            if pid == -1 || (pid >= 0 && pid as usize == ch) {
                any = true;
            }
            j = j + 1;
        }
        let mut j2: usize = 0;
        while j2 < n && found.is_none()
            invariant
                k == old(k),
                pre == *old(k),
                pre.wf(),
                pre.current == Some(c as usize),
                ci == c as int,
                t == pre.task(ci),
                n == t.children@.len(),
                j2 <= n,
                match found {
                    Some(jz) => zombie_match_at(pre, ci, pid, jz as int),
                    None => forall|m: int|
                        0 <= m < j2
                            ==> !(wait_matches(pid, #[trigger] t.children@[m] as int)
                                && pre.task(t.children@[m] as int).status == TaskStatus::Zombie),
                },
            decreases n - j2,
        {
            let ch = t.children[j2];
            proof {
                assert(pre.live(ci));
                assert(pre.task(ci).children@[j2 as int] == ch);
                assert(pre.live(pre.task(ci).children@[j2 as int] as int));
                assert(pre.live(ch as int));
            }
            if pid == -1 || (pid >= 0 && pid as usize == ch) {
                let zombie = match &k.tasks[ch] {
                    Some(ct) => matches!(ct.status, TaskStatus::Zombie),
                    None => {
                        proof {
                            assert(false);
                        }
                        false
                    },
                };
                if zombie {
                    found = Some(j2);
                    proof {
                        assert(zombie_match_at(pre, ci, pid, j2 as int));
                    }
                }
            }
            j2 = j2 + 1;
        }
        if let Some(jz) = found {
            child_pid = t.children[jz];
            proof {
                assert(pre.live(child_pid as int));
            }
            child_code = match &k.tasks[child_pid] {
                Some(ct) => ct.exit_code,
                None => {
                    proof {
                        assert(false);
                    }
                    0
                },
            };
            let t2 = match &k.tasks[c] {
                Some(t2) => t2,
                None => {
                    proof {
                        assert(false);
                    }
                    return -1;
                },
            };
            dest_ok = exit_code_ptr <= usize::MAX - 4 && t2.aspace.range_mapped(exit_code_ptr, 4);
        }
    }
    let mut t = k.tasks.remove(c).unwrap();
    bump_counter(&mut t, SYSCALL_WAITPID);
    if !any {
        k.tasks.insert(c, Some(t));
        proof {
            assert(k.tasks@ =~= pre.tasks@.update(ci, k.tasks@[ci]));
            lemma_wf_task_replace(pre, *k, ci);
            assert(no_wait_candidate(pre, ci, pid));
            assert forall|j: int| #[trigger] zombie_match_at(pre, ci, pid, j)
                implies false by {
                assert(wait_matches(pid, pre.task(ci).children@[j] as int));
            }
        }
        return -1;
    }
    let jz = match found {
        None => {
            k.tasks.insert(c, Some(t));
            proof {
                assert(k.tasks@ =~= pre.tasks@.update(ci, k.tasks@[ci]));
                lemma_wf_task_replace(pre, *k, ci);
                assert(!no_wait_candidate(pre, ci, pid));
                assert(no_zombie_match(pre, ci, pid));
                assert forall|j: int| #[trigger] zombie_match_at(pre, ci, pid, j)
                    implies false by {}
            }
            return -2;
        },
        Some(jz) => jz,
    };
    if !dest_ok {
        k.tasks.insert(c, Some(t));
        proof {
            assert(k.tasks@ =~= pre.tasks@.update(ci, k.tasks@[ci]));
            lemma_wf_task_replace(pre, *k, ci);
            assert(!no_wait_candidate(pre, ci, pid));
            assert(!no_zombie_match(pre, ci, pid));
            assert(!range_ok(pre.task(ci).aspace, exit_code_ptr as int, 4));
            assert forall|j: int| #[trigger] zombie_match_at(pre, ci, pid, j)
                implies j == jz as int by {
                lemma_zombie_match_unique(pre, ci, pid, j, jz as int);
            }
        }
        return -1;
    }
    t.children.remove(jz);
    let mut bytes: Vec<u8> = Vec::new();
    let bits: u32 = #[verifier::truncate] (child_code as u32);
    push_le_bytes(&mut bytes, bits as u64, 4);
    proof {
        assert(bytes@ =~= exit_bytes(child_code));
    }
    t.aspace.write_bytes(exit_code_ptr, &bytes);
    k.tasks.insert(c, Some(t));
    k.tasks[child_pid] = None;
    proof {
        assert(k.tasks@ =~= pre.tasks@.update(ci, k.tasks@[ci]).update(
            child_pid as int,
            None,
        ));
        assert(child_pid as int != ci);
        lemma_wf_reap(pre, *k, ci, child_pid as int, jz as int);
        assert(!no_wait_candidate(pre, ci, pid));
        assert(!no_zombie_match(pre, ci, pid));
        assert forall|j: int| #[trigger] zombie_match_at(pre, ci, pid, j)
            implies j == jz as int by {
            lemma_zombie_match_unique(pre, ci, pid, j, jz as int);
        }
    }
    child_pid as isize
}

/// Wait selects at most one position.
proof fn lemma_zombie_match_unique(k: Kernel, c: int, pid: isize, j1: int, j2: int)
    requires
        zombie_match_at(k, c, pid, j1),
        zombie_match_at(k, c, pid, j2),
    ensures
        j1 == j2,
{
    if j1 < j2 {
        assert(wait_matches(pid, k.task(c).children@[j1] as int));
    }
    if j2 < j1 {
        assert(wait_matches(pid, k.task(c).children@[j2] as int));
    }
}

/// The pid of the running task, if any (how a test or an embedding
/// observes who was dispatched).
pub fn current_pid(k: &Kernel) -> (r: Option<usize>)
    ensures
        r == k.current,
{
    k.current
}

} // verus!

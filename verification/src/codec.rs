//! Byte layout of the structures the kernel writes into user memory.
//! Everything is little-endian; a structure is written field by field so
//! that it may straddle separately mapped pages.
use vstd::prelude::*;
use vstd::arithmetic::div_mod::lemma_fundamental_div_mod_converse;
use crate::task::TaskInfo;
use crate::task::TaskStatus;
use crate::task::TimeVal;
use crate::MAX_SYSCALL_NUM;

verus! {

/// Byte `i` of the little-endian encoding of `v`.
pub open spec fn le_byte(v: int, i: int) -> u8
    decreases i,
{
    if i <= 0 {
        (v % 256) as u8
    } else {
        le_byte(v / 256, i - 1)
    }
}

/// The bytes of the wall-clock structure: seconds, then the microsecond
/// remainder, each eight bytes.
pub open spec fn time_val_bytes(sec: int, usec: int) -> Seq<u8> {
    Seq::new(
        16,
        |i: int|
            if i < 8 {
                le_byte(sec, i)
            } else {
                le_byte(usec, i - 8)
            },
    )
}

/// The wall-clock structure for microsecond count `us`.
pub fn time_val_of(us: usize) -> (tv: TimeVal)
    ensures
        tv.sec == us as int / 1000000,
        tv.usec == us as int % 1000000,
{
    TimeVal { sec: us / 1000000, usec: us % 1000000 }
}

/// The numeric code a task status is written as.
pub open spec fn status_code(s: TaskStatus) -> int {
    match s {
        TaskStatus::Ready => 0,
        TaskStatus::Running => 1,
        TaskStatus::Blocked => 2,
        TaskStatus::Zombie => 3,
    }
}

/// The bytes of the task-information structure: the status code (eight
/// bytes), the per-syscall invocation counters (four bytes each), then the
/// elapsed run time in milliseconds (eight bytes).
pub open spec fn task_info_bytes(status: TaskStatus, times: Seq<u32>, time: int) -> Seq<u8> {
    Seq::new(
        (16 + 4 * (MAX_SYSCALL_NUM as int)) as nat,
        |i: int|
            if i < 8 {
                le_byte(status_code(status), i)
            } else if i < 8 + 4 * (MAX_SYSCALL_NUM as int) {
                le_byte(times[(i - 8) / 4] as int, (i - 8) % 4)
            } else {
                le_byte(time, i - (8 + 4 * (MAX_SYSCALL_NUM as int)))
            },
    )
}

/// Append the `nbytes`-byte little-endian encoding of `v`.
pub fn push_le_bytes(out: &mut Vec<u8>, v: u64, nbytes: usize)
    ensures
        final(out)@.len() == old(out)@.len() + nbytes,
        forall|i: int|
            0 <= i < old(out)@.len() ==> final(out)@[i] == old(out)@[i],
        forall|i: int|
            0 <= i < nbytes ==> final(out)@[old(out)@.len() + i] == le_byte(v as int, i),
{
    let mut cur: u64 = v;
    let mut j: usize = 0;
    while j < nbytes
        invariant
            j <= nbytes,
            out@.len() == old(out)@.len() + j,
            forall|i: int| 0 <= i < old(out)@.len() ==> out@[i] == old(out)@[i],
            forall|i: int| 0 <= i < j ==> out@[old(out)@.len() + i] == le_byte(v as int, i),
            forall|m: int| 0 <= m ==> #[trigger] le_byte(cur as int, m) == le_byte(v as int, j + m),
        decreases nbytes - j,
    {
        let b = (cur % 256) as u8;
        proof {
            assert(le_byte(cur as int, 0) == (cur as int % 256) as u8);
            assert(b == le_byte(v as int, j as int));
        }
        out.push(b);
        let ghost prev = cur;
        cur = cur / 256;
        proof {
            assert forall|m: int| 0 <= m
                implies #[trigger] le_byte(cur as int, m) == le_byte(v as int, j + 1 + m) by {
                assert(le_byte(prev as int, m + 1) == le_byte(prev as int / 256, m));
                assert(le_byte(prev as int, m + 1) == le_byte(v as int, j + (m + 1)));
            }
        }
        j = j + 1;
    }
}

/// A wall-clock structure as the bytes written into user memory.
pub fn encode_time_val(tv: &TimeVal) -> (v: Vec<u8>)
    ensures
        v@ == time_val_bytes(tv.sec as int, tv.usec as int),
{
    let mut v: Vec<u8> = Vec::new();
    push_le_bytes(&mut v, tv.sec as u64, 8);
    push_le_bytes(&mut v, tv.usec as u64, 8);
    proof {
        assert(v@ =~= time_val_bytes(tv.sec as int, tv.usec as int));
    }
    v
}

/// The numeric code a task status is written as.
pub fn status_code_of(s: TaskStatus) -> (r: u64)
    ensures
        r == status_code(s),
{
    match s {
        TaskStatus::Ready => 0,
        TaskStatus::Running => 1,
        TaskStatus::Blocked => 2,
        TaskStatus::Zombie => 3,
    }
}

/// A copy of a counter table.
pub fn copy_counters(v: &Vec<u32>) -> (r: Vec<u32>)
    ensures
        r@ == v@,
{
    let n = v.len();
    let mut r: Vec<u32> = Vec::new();
    let mut i: usize = 0;
    while i < n
        invariant
            n == v@.len(),
            i <= n,
            r@ == v@.subrange(0, i as int),
        decreases n - i,
    {
        r.push(v[i]);
        proof {
            assert(r@ =~= v@.subrange(0, i + 1));
        }
        i = i + 1;
    }
    proof {
        assert(r@ =~= v@);
    }
    r
}

/// A task-information structure as the bytes written into user memory.
pub fn encode_task_info(ti: &TaskInfo) -> (v: Vec<u8>)
    requires
        ti.syscall_times@.len() == MAX_SYSCALL_NUM,
    ensures
        v@ == task_info_bytes(ti.status, ti.syscall_times@, ti.time as int),
{
    let status = ti.status;
    let times = &ti.syscall_times;
    let time = ti.time as u64;
    let mut v: Vec<u8> = Vec::new();
    push_le_bytes(&mut v, status_code_of(status), 8);
    let mut j: usize = 0;
    while j < MAX_SYSCALL_NUM
        invariant
            j <= MAX_SYSCALL_NUM,
            times@.len() == MAX_SYSCALL_NUM,
            v@.len() == 8 + 4 * j,
            forall|i: int| 0 <= i < 8 ==> v@[i] == le_byte(status_code(status), i),
            forall|i: int|
                8 <= i < 8 + 4 * j
                    ==> v@[i] == le_byte(times@[(i - 8) / 4] as int, (i - 8) % 4),
        decreases MAX_SYSCALL_NUM - j,
    {
        let ghost entry_len = v@.len();
        push_le_bytes(&mut v, times[j] as u64, 4);
        proof {
            assert forall|i: int| 8 <= i < 8 + 4 * (j + 1)
                implies v@[i] == le_byte(times@[(i - 8) / 4] as int, (i - 8) % 4) by {
                if i >= 8 + 4 * j {
                    let b = i - 8 - 4 * j;
                    assert(0 <= b < 4);
                    assert(v@[entry_len + b] == le_byte(times@[j as int] as int, b));
                    lemma_fundamental_div_mod_converse(i - 8, 4, j as int, b);
                }
            }
        }
        j = j + 1;
    }
    push_le_bytes(&mut v, time, 8);
    proof {
        assert forall|i: int| 0 <= i < v@.len()
            implies v@[i] == task_info_bytes(status, times@, time as int)[i] by {
            if 8 <= i < 8 + 4 * (MAX_SYSCALL_NUM as int) {
                assert(v@[i] == le_byte(times@[(i - 8) / 4] as int, (i - 8) % 4));
            }
        }
        assert(v@ =~= task_info_bytes(status, times@, time as int));
    }
    v
}

} // verus!

//! Task control blocks: identity, lifecycle status, saved user context,
//! address space, tree links, scheduling metadata and accounting.
use vstd::prelude::*;
use crate::mem::AddressSpace;
use crate::MAX_SYSCALL_NUM;

verus! {

/// Lifecycle status of a task.
#[derive(Clone, Copy, Debug, PartialEq, Eq, Structural)]
pub enum TaskStatus {
    Ready,
    Running,
    Blocked,
    Zombie,
}

/// Saved user-mode register state. Only the designated return-value
/// register is modeled: it is what distinguishes the two sides of a fork.
#[derive(Clone, Copy, Debug, PartialEq, Eq, Structural)]
pub struct TrapContext {
    pub a0: usize,
}

/// One task control block.
pub struct Task {
    /// Process-unique identity; equals the task's slot in the task table
    /// and is never reused.
    pub pid: usize,
    pub status: TaskStatus,
    pub trap: TrapContext,
    /// Exclusively owned; never shared between tasks.
    pub aspace: AddressSpace,
    /// Non-owning back-reference to the parent, if any.
    pub parent: Option<usize>,
    /// Ordered strong references to children, by pid.
    pub children: Vec<usize>,
    /// Meaningful once `status` is `Zombie`.
    pub exit_code: i32,
    /// Scheduling weight, at least 2; larger is dispatched more often.
    pub priority: usize,
    /// Accumulated stride; the scheduler dispatches the smallest.
    pub stride: u64,
    /// Per-syscall invocation counts, indexed by syscall identifier.
    pub syscall_times: Vec<u32>,
    /// Creation (or image-replacement) timestamp, milliseconds.
    pub start_time_ms: usize,
    /// Floor of the growable data segment, bytes.
    pub heap_base: usize,
    /// Current program break, bytes.
    pub heap_top: usize,
}

impl Task {
    pub open spec fn wf(self) -> bool {
        &&& self.priority >= 2
        &&& self.syscall_times@.len() == MAX_SYSCALL_NUM
        &&& self.aspace.wf()
        &&& self.heap_base <= self.heap_top <= isize::MAX as usize
    }
}

/// A syscall identifier's counter table after one more invocation of `id`
/// (the count sticks at its ceiling rather than wrapping).
pub open spec fn bumped(times: Seq<u32>, id: int) -> Seq<u32> {
    times.update(
        id,
        if times[id] == u32::MAX {
            times[id]
        } else {
            (times[id] + 1) as u32
        },
    )
}

/// Wall-clock time as user space receives it from the time syscall.
#[derive(Clone, Copy, Debug, PartialEq, Eq, Structural)]
pub struct TimeVal {
    pub sec: usize,
    pub usec: usize,
}

/// Task snapshot as user space receives it from the introspection syscall.
pub struct TaskInfo {
    pub status: TaskStatus,
    pub syscall_times: Vec<u32>,
    pub time: usize,
}

} // verus!

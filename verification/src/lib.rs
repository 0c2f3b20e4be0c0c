//! Process/task management and virtual-memory core of a cooperative
//! teaching-kernel: task control blocks, a stride scheduler, per-task
//! address spaces with byte-granular translation, and the POSIX-like
//! syscall surface that drives them.
use vstd::prelude::*;

pub mod codec;
pub mod kernel;
pub mod laws;
pub mod mem;
pub mod syscall;
pub mod task;

verus! {

/// Size of one virtual page, in bytes.
pub const PAGE_SIZE: usize = 4096;

/// Number of syscall identifiers tracked in each task's invocation table.
pub const MAX_SYSCALL_NUM: usize = 500;

/// Mapped-region permission bit: readable.
pub const PERM_R: u8 = 2;
/// Mapped-region permission bit: writable.
pub const PERM_W: u8 = 4;
/// Mapped-region permission bit: executable.
pub const PERM_X: u8 = 8;
/// Mapped-region permission bit: user-accessible.
pub const PERM_U: u8 = 16;

/// The full permission mask a fresh program image is mapped with.
pub const PERM_RWXU: u8 = 30;

/// The permission mask heap pages are mapped with: read, write, user.
pub const PERM_RWU: u8 = 22;

/// First page of a fresh program image's address space.
pub const USER_BASE_VPN: usize = 16;

/// Stride numerator: a task's pass per dispatch is this over its weight.
pub const BIG_STRIDE: u64 = 65536;

/// Scheduling weight given to tasks that never asked for another.
pub const DEFAULT_PRIORITY: usize = 16;

/// Syscall identifiers, as user space passes them.
pub const SYSCALL_EXIT: usize = 93;
pub const SYSCALL_YIELD: usize = 124;
pub const SYSCALL_SET_PRIORITY: usize = 140;
pub const SYSCALL_GET_TIME: usize = 169;
pub const SYSCALL_GETPID: usize = 172;
pub const SYSCALL_SBRK: usize = 214;
pub const SYSCALL_MUNMAP: usize = 215;
pub const SYSCALL_FORK: usize = 220;
pub const SYSCALL_EXEC: usize = 221;
pub const SYSCALL_MMAP: usize = 222;
pub const SYSCALL_WAITPID: usize = 260;
pub const SYSCALL_SPAWN: usize = 400;
pub const SYSCALL_TASK_INFO: usize = 410;

} // verus!

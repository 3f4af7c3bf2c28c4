//! Core of a small teaching kernel: task identities, saved register
//! contexts, per-process address spaces over a frame arena, program
//! loading, process lifecycle, the syscall registry and the round-robin
//! scheduler that decides what runs next.

pub mod ids;
pub mod context;
pub mod mm;
pub mod vm;
pub mod elf;
pub mod process;
pub mod syscall;
pub mod sched;

pub use ids::{Caller, ClockId, SyscallId, TaskId, TaskIdCounter};
pub use context::{ForeignContext, LocalContext, TrapCause};
pub use mm::PhysMemory;
pub use vm::{AddressSpace, PageEntry};
pub use elf::{ElfHeader, Segment};
pub use process::Process;
pub use syscall::{
    init_clock, init_io, init_process, init_scheduling, SyscallContext, SyscallResult, Syscalls,
    TimeSpec,
};
pub use sched::{dispatch, handle_syscall, Scheduler, SchedulingEvent, Verdict};

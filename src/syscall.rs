use vstd::prelude::*;
use crate::context::LocalContext;
use crate::ids::{
    Caller, ClockId, SyscallId, CLOCK_MONOTONIC, SYS_CLOCK_GETTIME, SYS_EXIT, SYS_SCHED_YIELD,
    SYS_WRITE,
};

verus! {

/// The process-exit service.
pub trait Process {
    /// What `exit` returns.
    spec fn exit_spec(&self, caller: Caller, status: usize) -> isize;

    fn exit(&self, caller: Caller, status: usize) -> (r: isize)
        ensures
            r == self.exit_spec(caller, status),
    ;
}

/// The I/O service.
pub trait IO {
    /// What `write` returns.
    spec fn write_spec(&self, caller: Caller, fd: usize, buf: usize, count: usize) -> isize;

    fn write(&self, caller: Caller, fd: usize, buf: usize, count: usize) -> (r: isize)
        ensures
            r == self.write_spec(caller, fd, buf, count),
    ;
}

/// The scheduling-control service.
pub trait Scheduling {
    /// What `sched_yield` returns.
    spec fn sched_yield_spec(&self, caller: Caller) -> isize;

    fn sched_yield(&self, caller: Caller) -> (r: isize)
        ensures
            r == self.sched_yield_spec(caller),
    ;
}

/// The clock service.
pub trait Clock {
    /// What `clock_gettime` returns.
    spec fn clock_gettime_spec(&self, caller: Caller, clock_id: ClockId, tp: usize) -> isize;

    fn clock_gettime(&self, caller: Caller, clock_id: ClockId, tp: usize) -> (r: isize)
        ensures
            r == self.clock_gettime_spec(caller, clock_id, tp),
    ;
}

/// Outcome of dispatching a syscall.
#[derive(Debug, PartialEq, Eq, Structural)]
pub enum SyscallResult {
    /// A service ran and returned this value.
    Done(isize),
    /// No service is registered for this id.
    Unsupported(SyscallId),
}

/// The syscall registry: one slot per service category, each set at most
/// once (the first registration wins).
pub struct Syscalls<P, I, S, C> {
    process: Option<P>,
    io: Option<I>,
    scheduling: Option<S>,
    clock: Option<C>,
}

impl<P: Process, I: IO, S: Scheduling, C: Clock> Syscalls<P, I, S, C> {
    pub closed spec fn process_slot(&self) -> Option<P> {
        self.process
    }

    pub closed spec fn io_slot(&self) -> Option<I> {
        self.io
    }

    pub closed spec fn scheduling_slot(&self) -> Option<S> {
        self.scheduling
    }

    pub closed spec fn clock_slot(&self) -> Option<C> {
        self.clock
    }

    /// Whether a service is registered for syscall number `id`.
    pub open spec fn serves(&self, id: usize) -> bool {
        if id == SYS_EXIT {
            self.process_slot() is Some
        } else if id == SYS_WRITE {
            self.io_slot() is Some
        } else if id == SYS_SCHED_YIELD {
            self.scheduling_slot() is Some
        } else if id == SYS_CLOCK_GETTIME {
            self.clock_slot() is Some
        } else {
            false
        }
    }

    /// What the service for syscall number `id` returns when called by
    /// `caller` with argument words `args`.
    pub open spec fn served(&self, caller: Caller, id: usize, args: Seq<usize>) -> isize {
        if id == SYS_EXIT {
            self.process_slot()->0.exit_spec(caller, args[0])
        } else if id == SYS_WRITE {
            self.io_slot()->0.write_spec(caller, args[0], args[1], args[2])
        } else if id == SYS_SCHED_YIELD {
            self.scheduling_slot()->0.sched_yield_spec(caller)
        } else {
            self.clock_slot()->0.clock_gettime_spec(caller, ClockId(args[0]), args[1])
        }
    }

    pub fn new() -> (r: Self)
        ensures
            r.process_slot() is None,
            r.io_slot() is None,
            r.scheduling_slot() is None,
            r.clock_slot() is None,
    {
        Syscalls { process: None, io: None, scheduling: None, clock: None }
    }

    /// Looks up the service for `id` and calls it with `caller` and the
    /// argument words it takes; `Unsupported(id)` when there is none.
    pub fn handle(&self, caller: Caller, id: SyscallId, args: [usize; 6]) -> (r: SyscallResult)
        ensures
            !self.serves(id.0) ==> r == SyscallResult::Unsupported(id),
            self.serves(id.0) ==> r == SyscallResult::Done(self.served(caller, id.0, args@)),
    {
        if id.0 == SYS_EXIT {
            match &self.process {
                Some(p) => SyscallResult::Done(p.exit(caller, args[0])),
                None => SyscallResult::Unsupported(id),
            }
        } else if id.0 == SYS_WRITE {
            match &self.io {
                Some(io) => SyscallResult::Done(io.write(caller, args[0], args[1], args[2])),
                None => SyscallResult::Unsupported(id),
            }
        } else if id.0 == SYS_SCHED_YIELD {
            match &self.scheduling {
                Some(s) => SyscallResult::Done(s.sched_yield(caller)),
                None => SyscallResult::Unsupported(id),
            }
        } else if id.0 == SYS_CLOCK_GETTIME {
            match &self.clock {
                Some(c) => SyscallResult::Done(c.clock_gettime(caller, ClockId(args[0]), args[1])),
                None => SyscallResult::Unsupported(id),
            }
        } else {
            SyscallResult::Unsupported(id)
        }
    }
}

/// Registers the process-exit service, unless one already is.
pub fn init_process<P: Process, I: IO, S: Scheduling, C: Clock>(reg: &mut Syscalls<P, I, S, C>, process: P)
    ensures
        final(reg).process_slot() == if old(reg).process_slot() is None {
            Some(process)
        } else {
            old(reg).process_slot()
        },
        final(reg).io_slot() == old(reg).io_slot(),
        final(reg).scheduling_slot() == old(reg).scheduling_slot(),
        final(reg).clock_slot() == old(reg).clock_slot(),
{
    if reg.process.is_none() {
        reg.process = Some(process);
    }
}

/// Registers the I/O service, unless one already is.
pub fn init_io<P: Process, I: IO, S: Scheduling, C: Clock>(reg: &mut Syscalls<P, I, S, C>, io: I)
    ensures
        final(reg).io_slot() == if old(reg).io_slot() is None {
            Some(io)
        } else {
            old(reg).io_slot()
        },
        final(reg).process_slot() == old(reg).process_slot(),
        final(reg).scheduling_slot() == old(reg).scheduling_slot(),
        final(reg).clock_slot() == old(reg).clock_slot(),
{
    if reg.io.is_none() {
        reg.io = Some(io);
    }
}

/// Registers the scheduling-control service, unless one already is.
pub fn init_scheduling<P: Process, I: IO, S: Scheduling, C: Clock>(
    reg: &mut Syscalls<P, I, S, C>,
    scheduling: S,
)
    ensures
        final(reg).scheduling_slot() == if old(reg).scheduling_slot() is None {
            Some(scheduling)
        } else {
            old(reg).scheduling_slot()
        },
        final(reg).process_slot() == old(reg).process_slot(),
        final(reg).io_slot() == old(reg).io_slot(),
        final(reg).clock_slot() == old(reg).clock_slot(),
{
    if reg.scheduling.is_none() {
        reg.scheduling = Some(scheduling);
    }
}

/// Registers the clock service, unless one already is.
pub fn init_clock<P: Process, I: IO, S: Scheduling, C: Clock>(reg: &mut Syscalls<P, I, S, C>, clock: C)
    ensures
        final(reg).clock_slot() == if old(reg).clock_slot() is None {
            Some(clock)
        } else {
            old(reg).clock_slot()
        },
        final(reg).process_slot() == old(reg).process_slot(),
        final(reg).io_slot() == old(reg).io_slot(),
        final(reg).scheduling_slot() == old(reg).scheduling_slot(),
{
    if reg.clock.is_none() {
        reg.clock = Some(clock);
    }
}

/// Seconds and nanoseconds.
#[derive(Clone, Copy, Debug, PartialEq, Eq, Structural)]
pub struct TimeSpec {
    pub tv_sec: u64,
    pub tv_nsec: u64,
}

/// Nanoseconds per tick of the 12.5 MHz free-running counter
/// (10000 / 125).
pub const NS_PER_TICK: u64 = 80;

/// Nanoseconds since boot after `ticks` counter ticks.
pub open spec fn ticks_to_ns(ticks: u64) -> int {
    ticks * NS_PER_TICK
}

/// The services that need no device: exit, yield, and the arithmetic of
/// write and clock_gettime.
#[derive(Clone, Copy, Debug)]
pub struct SyscallContext;

impl SyscallContext {
    /// Result of a write of `count` bytes to `fd`: only fd 0 (the console)
    /// is served, and all bytes go out; any other fd gives -1.
    pub fn write_status(fd: usize, count: usize) -> (r: isize)
        requires
            count <= isize::MAX,
        ensures
            r == if fd == 0 {
                count as int
            } else {
                -1
            },
    {
        if fd == 0 {
            count as isize
        } else {
            -1
        }
    }

    /// The monotonic clock after `ticks` counter ticks.
    pub fn monotonic_time(ticks: u64) -> (r: TimeSpec)
        requires
            ticks <= u64::MAX / NS_PER_TICK,
        ensures
            r.tv_sec == ticks_to_ns(ticks) / 1_000_000_000,
            r.tv_nsec == ticks_to_ns(ticks) % 1_000_000_000,
    {
        let ns = ticks * NS_PER_TICK;
        TimeSpec { tv_sec: ns / 1_000_000_000, tv_nsec: ns % 1_000_000_000 }
    }

    /// Reads clock `clock_id` after `ticks` counter ticks: only the
    /// monotonic clock exists.
    pub fn clock_time(clock_id: ClockId, ticks: u64) -> (r: Option<TimeSpec>)
        requires
            ticks <= u64::MAX / NS_PER_TICK,
        ensures
            r is Some <==> clock_id.0 == CLOCK_MONOTONIC,
            r is Some ==> r->0.tv_sec == ticks_to_ns(ticks) / 1_000_000_000 && r->0.tv_nsec
                == ticks_to_ns(ticks) % 1_000_000_000,
    {
        if clock_id.0 == CLOCK_MONOTONIC {
            Some(SyscallContext::monotonic_time(ticks))
        } else {
            None
        }
    }
}

impl Process for SyscallContext {
    /// Exiting always succeeds.
    open spec fn exit_spec(&self, caller: Caller, status: usize) -> isize {
        0
    }

    fn exit(&self, _caller: Caller, _status: usize) -> (r: isize) {
        0
    }
}

impl Scheduling for SyscallContext {
    /// Yielding always succeeds.
    open spec fn sched_yield_spec(&self, caller: Caller) -> isize {
        0
    }

    fn sched_yield(&self, _caller: Caller) -> (r: isize) {
        0
    }
}

} // verus!

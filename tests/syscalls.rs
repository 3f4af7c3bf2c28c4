use tutorial_kernel::ids::{CLOCK_MONOTONIC, CLOCK_REALTIME, SYS_CLOCK_GETTIME, SYS_EXIT, SYS_WRITE};
use tutorial_kernel::syscall::{Clock, Process, Scheduling, IO};
use tutorial_kernel::{
    init_clock, init_io, init_process, init_scheduling, Caller, ClockId, SyscallContext,
    SyscallId, SyscallResult, Syscalls, TimeSpec,
};

struct Fixed(isize);

impl Process for Fixed {
    fn exit_spec(&self, _caller: Caller, status: usize) -> isize {
        self.0 + status as isize
    }

    fn exit(&self, _caller: Caller, status: usize) -> isize {
        self.0 + status as isize
    }
}

impl IO for Fixed {
    fn write_spec(&self, _caller: Caller, fd: usize, _buf: usize, count: usize) -> isize {
        SyscallContext::write_status(fd, count) + self.0
    }

    fn write(&self, _caller: Caller, fd: usize, _buf: usize, count: usize) -> isize {
        SyscallContext::write_status(fd, count) + self.0
    }
}

impl Scheduling for Fixed {
    fn sched_yield_spec(&self, _caller: Caller) -> isize {
        self.0
    }

    fn sched_yield(&self, _caller: Caller) -> isize {
        self.0
    }
}

impl Clock for Fixed {
    fn clock_gettime_spec(&self, _caller: Caller, clock_id: ClockId, _tp: usize) -> isize {
        if clock_id.0 == CLOCK_MONOTONIC { self.0 } else { -1 }
    }

    fn clock_gettime(&self, _caller: Caller, clock_id: ClockId, _tp: usize) -> isize {
        if clock_id.0 == CLOCK_MONOTONIC { self.0 } else { -1 }
    }
}

fn caller() -> Caller {
    Caller { entity: 0, flow: 0 }
}

#[test]
fn empty_registry_reports_unsupported() {
    let reg: Syscalls<Fixed, Fixed, Fixed, Fixed> = Syscalls::new();
    let id = SyscallId(SYS_WRITE);
    assert_eq!(reg.handle(caller(), id, [0; 6]), SyscallResult::Unsupported(id));
}

#[test]
fn unknown_syscall_reports_unsupported() {
    let mut reg: Syscalls<Fixed, Fixed, Fixed, Fixed> = Syscalls::new();
    init_process(&mut reg, Fixed(0));
    init_io(&mut reg, Fixed(0));
    init_scheduling(&mut reg, Fixed(0));
    init_clock(&mut reg, Fixed(0));
    let id = SyscallId(1234);
    assert_eq!(reg.handle(caller(), id, [0; 6]), SyscallResult::Unsupported(id));
}

#[test]
fn first_registration_wins() {
    let mut reg: Syscalls<Fixed, Fixed, Fixed, Fixed> = Syscalls::new();
    init_process(&mut reg, Fixed(100));
    init_process(&mut reg, Fixed(200));
    assert_eq!(reg.handle(caller(), SyscallId(SYS_EXIT), [5, 0, 0, 0, 0, 0]), SyscallResult::Done(105));
}

#[test]
fn dispatch_passes_arguments() {
    let mut reg: Syscalls<Fixed, Fixed, Fixed, Fixed> = Syscalls::new();
    init_io(&mut reg, Fixed(0));
    init_clock(&mut reg, Fixed(7));
    let write = SyscallId(SYS_WRITE);
    assert_eq!(reg.handle(caller(), write, [0, 0x1000, 12, 0, 0, 0]), SyscallResult::Done(12));
    assert_eq!(reg.handle(caller(), write, [1, 0x1000, 12, 0, 0, 0]), SyscallResult::Done(-1));
    let clock = SyscallId(SYS_CLOCK_GETTIME);
    assert_eq!(reg.handle(caller(), clock, [CLOCK_MONOTONIC, 0, 0, 0, 0, 0]), SyscallResult::Done(7));
    assert_eq!(reg.handle(caller(), clock, [CLOCK_REALTIME, 0, 0, 0, 0, 0]), SyscallResult::Done(-1));
}

#[test]
fn write_status_counts_console_bytes_only() {
    assert_eq!(SyscallContext::write_status(0, 17), 17);
    assert_eq!(SyscallContext::write_status(0, 0), 0);
    assert_eq!(SyscallContext::write_status(1, 17), -1);
    assert_eq!(SyscallContext::write_status(3, 0), -1);
}

#[test]
fn monotonic_clock_converts_ticks() {
    assert_eq!(SyscallContext::monotonic_time(0), TimeSpec { tv_sec: 0, tv_nsec: 0 });
    assert_eq!(SyscallContext::monotonic_time(125), TimeSpec { tv_sec: 0, tv_nsec: 10000 });
    assert_eq!(SyscallContext::monotonic_time(12_500_001), TimeSpec { tv_sec: 1, tv_nsec: 80 });
    assert_eq!(
        SyscallContext::clock_time(ClockId(CLOCK_MONOTONIC), 25_000_000),
        Some(TimeSpec { tv_sec: 2, tv_nsec: 0 })
    );
    assert_eq!(SyscallContext::clock_time(ClockId(CLOCK_REALTIME), 25_000_000), None);
}

#[test]
fn builtin_exit_and_yield_return_zero() {
    let mut reg: Syscalls<SyscallContext, Fixed, SyscallContext, Fixed> = Syscalls::new();
    init_process(&mut reg, SyscallContext);
    init_scheduling(&mut reg, SyscallContext);
    assert_eq!(reg.handle(caller(), SyscallId(SYS_EXIT), [3, 0, 0, 0, 0, 0]), SyscallResult::Done(0));
    assert_eq!(
        reg.handle(caller(), SyscallId(tutorial_kernel::ids::SYS_SCHED_YIELD), [0; 6]),
        SyscallResult::Done(0)
    );
}

#[test]
fn handle_returns_service_result_for_each_id() {
    let mut reg: Syscalls<Fixed, Fixed, Fixed, Fixed> = Syscalls::new();
    init_process(&mut reg, Fixed(1));
    init_io(&mut reg, Fixed(2));
    init_scheduling(&mut reg, Fixed(3));
    init_clock(&mut reg, Fixed(4));
    assert_eq!(reg.handle(caller(), SyscallId(SYS_EXIT), [10, 0, 0, 0, 0, 0]), SyscallResult::Done(11));
    assert_eq!(reg.handle(caller(), SyscallId(SYS_WRITE), [0, 0, 5, 0, 0, 0]), SyscallResult::Done(7));
    assert_eq!(
        reg.handle(caller(), SyscallId(tutorial_kernel::ids::SYS_SCHED_YIELD), [0; 6]),
        SyscallResult::Done(3)
    );
    assert_eq!(
        reg.handle(caller(), SyscallId(SYS_CLOCK_GETTIME), [CLOCK_MONOTONIC, 0, 0, 0, 0, 0]),
        SyscallResult::Done(4)
    );
}

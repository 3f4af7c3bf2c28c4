use tutorial_kernel::ids::{SYS_EXIT, SYS_SCHED_YIELD, SYS_WRITE};
use tutorial_kernel::syscall::{Clock, IO};
use tutorial_kernel::ClockId;
use tutorial_kernel::{
    dispatch, init_io, init_process, init_scheduling, Caller, LocalContext, Scheduler,
    SchedulingEvent, SyscallContext, SyscallId, Syscalls, TrapCause, Verdict,
};

struct Console;

impl IO for Console {
    fn write_spec(&self, _caller: Caller, fd: usize, _buf: usize, count: usize) -> isize {
        SyscallContext::write_status(fd, count)
    }

    fn write(&self, _caller: Caller, fd: usize, _buf: usize, count: usize) -> isize {
        SyscallContext::write_status(fd, count)
    }
}

struct NoClock;

impl Clock for NoClock {
    fn clock_gettime_spec(&self, _caller: Caller, _clock_id: ClockId, _tp: usize) -> isize {
        -1
    }

    fn clock_gettime(&self, _caller: Caller, _clock_id: ClockId, _tp: usize) -> isize {
        -1
    }
}

fn registry() -> Syscalls<SyscallContext, Console, SyscallContext, NoClock> {
    let mut reg = Syscalls::new();
    init_process(&mut reg, SyscallContext);
    init_io(&mut reg, Console);
    init_scheduling(&mut reg, SyscallContext);
    reg
}

fn caller() -> Caller {
    Caller { entity: 0, flow: 0 }
}

fn ctx_calling(id: usize, a0: u64, pc: u64) -> LocalContext {
    let mut ctx = LocalContext::user(pc);
    ctx.a_set(7, id as u64);
    ctx.a_set(0, a0);
    ctx
}

#[test]
fn yield_resume_cycles_keep_registers() {
    let reg = registry();
    let mut ctx = ctx_calling(SYS_SCHED_YIELD, 5, 0x1000);
    for i in 1..=31 {
        if i != 10 && i != 17 {
            ctx.x_set(i, 1000 + i as u64);
        }
    }
    for _ in 0..1000 {
        let (v, e) = dispatch(TrapCause::SystemCall, &mut ctx, &reg, caller());
        assert_eq!(v, Verdict::Switch);
        assert_eq!(e, Some(SchedulingEvent::Yield));
    }
    assert_eq!(ctx.pc(), 0x1000 + 4 * 1000);
    assert_eq!(ctx.a(0), 0);
    assert_eq!(ctx.a(7), SYS_SCHED_YIELD as u64);
    for i in 1..=31 {
        if i != 10 && i != 17 {
            assert_eq!(ctx.x(i), 1000 + i as u64);
        }
    }
}

#[test]
fn exit_42_finishes_exactly_once() {
    let reg = registry();
    let mut sched = Scheduler::new(2);
    let task = sched.next_task().unwrap();
    assert_eq!(task, 0);
    let mut ctx = ctx_calling(SYS_EXIT, 42, 0x2000);
    let (v, e) = dispatch(TrapCause::SystemCall, &mut ctx, &reg, caller());
    assert_eq!(e, Some(SchedulingEvent::Exit(42)));
    assert_eq!(v, Verdict::Finish);
    assert_eq!(ctx.pc(), 0x2000);
    sched.apply(task, v);
    assert_eq!(sched.remaining_tasks(), 1);
    assert!(sched.is_finished(0));
    assert!(!sched.is_finished(1));
    assert_eq!(sched.next_task(), Some(1));
    assert_eq!(sched.next_task(), Some(1));
}

#[test]
fn write_syscall_returns_count_or_minus_one() {
    let reg = registry();
    let mut ctx = ctx_calling(SYS_WRITE, 0, 0x3000);
    ctx.a_set(2, 9);
    let (v, e) = dispatch(TrapCause::SystemCall, &mut ctx, &reg, caller());
    assert_eq!((v, e), (Verdict::Rerun, Some(SchedulingEvent::Continue)));
    assert_eq!(ctx.a(0), 9);
    assert_eq!(ctx.pc(), 0x3004);
    let mut ctx = ctx_calling(SYS_WRITE, 1, 0x3000);
    ctx.a_set(2, 9);
    dispatch(TrapCause::SystemCall, &mut ctx, &reg, caller());
    assert_eq!(ctx.a(0) as i64, -1);
}

#[test]
fn unsupported_syscall_finishes_task() {
    let reg = registry();
    let mut ctx = ctx_calling(999, 0, 0x4000);
    let (v, e) = dispatch(TrapCause::SystemCall, &mut ctx, &reg, caller());
    assert_eq!(v, Verdict::Finish);
    assert_eq!(e, Some(SchedulingEvent::UnsupportedSyscall(SyscallId(999))));
    assert_eq!(ctx.pc(), 0x4000);
}

#[test]
fn faults_finish_and_timer_switches() {
    let reg = registry();
    let mut ctx = ctx_calling(SYS_WRITE, 0, 0x4000);
    for cause in [
        TrapCause::IllegalInstruction,
        TrapCause::PageFault,
        TrapCause::OtherException(3),
        TrapCause::OtherInterrupt(9),
    ] {
        assert_eq!(dispatch(cause, &mut ctx, &reg, caller()), (Verdict::Finish, None));
    }
    assert_eq!(dispatch(TrapCause::TimerInterrupt, &mut ctx, &reg, caller()), (Verdict::Switch, None));
    assert_eq!(ctx.pc(), 0x4000);
}

#[test]
fn preempted_busy_task_lets_others_run() {
    let mut sched = Scheduler::new(3);
    let mut order = Vec::new();
    for _ in 0..6 {
        let t = sched.next_task().unwrap();
        order.push(t);
        sched.apply(t, Verdict::Switch);
    }
    assert_eq!(order, vec![0, 1, 2, 0, 1, 2]);
    assert_eq!(sched.next_task(), Some(0));
    sched.apply(0, Verdict::Rerun);
    assert_eq!(sched.next_task(), Some(0));
    sched.apply(0, Verdict::Finish);
    assert_eq!(sched.next_task(), Some(1));
    sched.apply(1, Verdict::Finish);
    assert_eq!(sched.next_task(), Some(2));
    sched.apply(2, Verdict::Switch);
    assert_eq!(sched.next_task(), Some(2));
    sched.apply(2, Verdict::Finish);
    assert_eq!(sched.remaining_tasks(), 0);
    assert_eq!(sched.next_task(), None);
}

#[test]
fn program_counter_wraps_at_top() {
    let reg = registry();
    let mut ctx = ctx_calling(SYS_SCHED_YIELD, 0, u64::MAX - 1);
    dispatch(TrapCause::SystemCall, &mut ctx, &reg, caller());
    assert_eq!(ctx.pc(), 2);
}

#[test]
fn trap_codes_decode() {
    assert_eq!(TrapCause::from_raw(true, 5), TrapCause::TimerInterrupt);
    assert_eq!(TrapCause::from_raw(true, 9), TrapCause::OtherInterrupt(9));
    assert_eq!(TrapCause::from_raw(false, 8), TrapCause::SystemCall);
    assert_eq!(TrapCause::from_raw(false, 2), TrapCause::IllegalInstruction);
    assert_eq!(TrapCause::from_raw(false, 13), TrapCause::PageFault);
    assert_eq!(TrapCause::from_raw(false, 5), TrapCause::OtherException(5));
}

#[test]
fn empty_table_has_nothing_to_run() {
    let mut sched = Scheduler::new(0);
    assert_eq!(sched.remaining_tasks(), 0);
    assert_eq!(sched.next_task(), None);
}

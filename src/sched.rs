use vstd::prelude::*;
use crate::context::{next_pc, LocalContext, TrapCause};
use crate::ids::{Caller, SyscallId, SYS_EXIT, SYS_SCHED_YIELD};
use crate::syscall::{Clock, Process, Scheduling, SyscallResult, Syscalls, IO};

verus! {

/// What a task's syscall means for scheduling.
#[derive(Clone, Copy, Debug, PartialEq, Eq, Structural)]
pub enum SchedulingEvent {
    /// Served; the task goes on running.
    Continue,
    /// The task gives up the processor.
    Yield,
    /// The task exits with this code.
    Exit(usize),
    /// No service for this syscall.
    UnsupportedSyscall(SyscallId),
}

/// What the scheduler does with the task that trapped.
#[derive(Clone, Copy, Debug, PartialEq, Eq, Structural)]
pub enum Verdict {
    /// Resume the same task at once.
    Rerun,
    /// The task stays ready; move on to the next one.
    Switch,
    /// The task is finished; move on to the next one.
    Finish,
}

/// The saved context after a served syscall returned `ret`: `a0` holds the
/// return value and execution goes on after the 4-byte trapping instruction.
pub open spec fn resumed_after(regs: Seq<u64>, pc: u64, ret: u64) -> (Seq<u64>, u64) {
    (regs.update(9, ret), next_pc(pc))
}

/// The saved context after `n` yields that each returned `ret`.
pub open spec fn after_yields(regs: Seq<u64>, pc: u64, ret: u64, n: nat) -> (Seq<u64>, u64)
    decreases n,
{
    if n == 0 {
        (regs, pc)
    } else {
        let (r, p) = after_yields(regs, pc, ret, (n - 1) as nat);
        resumed_after(r, p, ret)
    }
}

/// Any number of yield and resume cycles leaves every register but `a0`
/// as it was, and each cycle moves the program counter one instruction on.
pub proof fn lemma_yield_cycles(regs: Seq<u64>, pc: u64, ret: u64, n: nat)
    requires
        regs.len() == 31,
    ensures
        after_yields(regs, pc, ret, n).0.len() == 31,
        forall|i: int|
            0 <= i < 31 && i != 9 ==> #[trigger] after_yields(regs, pc, ret, n).0[i] == regs[i],
        n > 0 ==> after_yields(regs, pc, ret, n).0[9] == ret,
        after_yields(regs, pc, ret, n).1 == (pc + 4 * n) % (u64::MAX as int + 1),
    decreases n,
{
    if n > 0 {
        lemma_yield_cycles(regs, pc, ret, (n - 1) as nat);
        let m = u64::MAX as int + 1;
        let x = pc + 4 * (n - 1);
        assert((x % m + 4) % m == (x + 4) % m) by {
            vstd::arithmetic::div_mod::lemma_add_mod_noop(x, 4, m);
            vstd::arithmetic::div_mod::lemma_small_mod(4, m as nat);
            vstd::arithmetic::div_mod::lemma_mod_bound(x, m);
            vstd::arithmetic::div_mod::lemma_mod_twice(x, m);
        }
    } else {
        assert((pc as int) % (u64::MAX as int + 1) == pc);
    }
}

/// The argument words of a syscall: `a0` to `a5`.
pub open spec fn syscall_args(ctx: LocalContext) -> Seq<usize> {
    seq![
        ctx.reg(10) as usize,
        ctx.reg(11) as usize,
        ctx.reg(12) as usize,
        ctx.reg(13) as usize,
        ctx.reg(14) as usize,
        ctx.reg(15) as usize,
    ]
}

/// A task with context `before` made the syscall numbered in its `a7`, and
/// serving it through `reg` left context `after` and event `e`. An exit or
/// an unsupported number leaves the context as it was; any other served
/// call puts the service's result in `a0` and moves past the trapping
/// instruction.
pub open spec fn syscall_handled<P: Process, I: IO, S: Scheduling, C: Clock>(
    before: LocalContext,
    after: LocalContext,
    reg: &Syscalls<P, I, S, C>,
    caller: Caller,
    e: SchedulingEvent,
) -> bool {
    let id = before.reg(17) as usize;
    &&& after.wf()
    &&& after.is_user() == before.is_user()
    &&& if !reg.serves(id) {
        &&& e == SchedulingEvent::UnsupportedSyscall(SyscallId(id))
        &&& after == before
    } else if id == SYS_EXIT {
        &&& e == SchedulingEvent::Exit(before.reg(10) as usize)
        &&& after == before
    } else {
        &&& e == if id == SYS_SCHED_YIELD {
            SchedulingEvent::Yield
        } else {
            SchedulingEvent::Continue
        }
        &&& (after.regs(), after.pc_spec()) == resumed_after(
            before.regs(),
            before.pc_spec(),
            reg.served(caller, id, syscall_args(before)) as u64,
        )
    }
}

/// Serves the syscall that the task with context `ctx` trapped on: the
/// number is in `a7`, the arguments in `a0` to `a5`. An exit or an
/// unsupported number leaves the context as it was; any other served call
/// puts its return value in `a0` and moves past the trapping instruction.
pub fn handle_syscall<P: Process, I: IO, S: Scheduling, C: Clock>(
    ctx: &mut LocalContext,
    reg: &Syscalls<P, I, S, C>,
    caller: Caller,
) -> (r: SchedulingEvent)
    requires
        old(ctx).wf(),
    ensures
        syscall_handled(*old(ctx), *final(ctx), reg, caller, r),
{
    let id = SyscallId(ctx.a(7) as usize);
    let args: [usize; 6] = [
        ctx.a(0) as usize,
        ctx.a(1) as usize,
        ctx.a(2) as usize,
        ctx.a(3) as usize,
        ctx.a(4) as usize,
        ctx.a(5) as usize,
    ];
    assert(args@ =~= syscall_args(*old(ctx)));
    match reg.handle(caller, id, args) {
        SyscallResult::Done(ret) => {
            if id.0 == SYS_EXIT {
                SchedulingEvent::Exit(ctx.a(0) as usize)
            } else {
                ctx.a_set(0, ret as u64);
                ctx.move_next();
                if id.0 == SYS_SCHED_YIELD {
                    SchedulingEvent::Yield
                } else {
                    SchedulingEvent::Continue
                }
            }
        },
        SyscallResult::Unsupported(_) => SchedulingEvent::UnsupportedSyscall(id),
    }
}

/// The verdict on a task that trapped with `cause`, where `event` is what
/// its syscall meant (looked at only for a syscall).
pub open spec fn verdict_of(cause: TrapCause, event: SchedulingEvent) -> Verdict {
    match cause {
        TrapCause::TimerInterrupt => Verdict::Switch,
        TrapCause::SystemCall => match event {
            SchedulingEvent::Continue => Verdict::Rerun,
            SchedulingEvent::Yield => Verdict::Switch,
            SchedulingEvent::Exit(_) => Verdict::Finish,
            SchedulingEvent::UnsupportedSyscall(_) => Verdict::Finish,
        },
        _ => Verdict::Finish,
    }
}

/// Decides what becomes of the task with context `ctx` that trapped with
/// `cause`, serving its syscall if it made one. A timer interrupt preempts
/// it; any fault or other interrupt finishes it.
pub fn dispatch<P: Process, I: IO, S: Scheduling, C: Clock>(
    cause: TrapCause,
    ctx: &mut LocalContext,
    reg: &Syscalls<P, I, S, C>,
    caller: Caller,
) -> (r: (Verdict, Option<SchedulingEvent>))
    requires
        old(ctx).wf(),
    ensures
        final(ctx).wf(),
        cause != TrapCause::SystemCall ==> r.1 is None && *final(ctx) == *old(ctx) && r.0
            == verdict_of(cause, SchedulingEvent::Continue),
        cause == TrapCause::SystemCall ==> {
            &&& r.1 is Some
            &&& syscall_handled(*old(ctx), *final(ctx), reg, caller, r.1->0)
            &&& r.0 == verdict_of(cause, r.1->0)
        },
{
    match cause {
        TrapCause::TimerInterrupt => (Verdict::Switch, None),
        TrapCause::SystemCall => {
            let event = handle_syscall(ctx, reg, caller);
            let verdict = match event {
                SchedulingEvent::Continue => Verdict::Rerun,
                SchedulingEvent::Yield => Verdict::Switch,
                SchedulingEvent::Exit(_) => Verdict::Finish,
                SchedulingEvent::UnsupportedSyscall(_) => Verdict::Finish,
            };
            (verdict, Some(event))
        },
        _ => (Verdict::Finish, None),
    }
}

/// Number of tasks in `s` that are not finished.
pub open spec fn live(s: Seq<bool>) -> nat
    decreases s.len(),
{
    if s.len() == 0 {
        0
    } else {
        live(s.drop_last()) + if s.last() {
            0nat
        } else {
            1nat
        }
    }
}

proof fn lemma_live_finish(s: Seq<bool>, k: int)
    requires
        0 <= k < s.len(),
        !s[k],
    ensures
        live(s.update(k, true)) + 1 == live(s),
    decreases s.len(),
{
    if k == s.len() - 1 {
        assert(s.update(k, true).drop_last() =~= s.drop_last());
    } else {
        assert(s.update(k, true).drop_last() =~= s.drop_last().update(k, true));
        lemma_live_finish(s.drop_last(), k);
    }
}

proof fn lemma_live_some(s: Seq<bool>)
    requires
        live(s) > 0,
    ensures
        exists|k: int| 0 <= k < s.len() && !s[k],
    decreases s.len(),
{
    if !s.last() {
        assert(!s[s.len() - 1]);
    } else {
        lemma_live_some(s.drop_last());
        let k = choose|k: int| 0 <= k < s.drop_last().len() && !s.drop_last()[k];
        assert(!s[k]);
    }
}

/// Position `d` steps after `c` in a ring of `n` slots.
pub open spec fn ring(c: int, d: int, n: int) -> int {
    if c + d < n {
        c + d
    } else {
        c + d - n
    }
}

/// Steps from `c` forward to `j` in a ring of `n` slots.
pub open spec fn ring_dist(c: int, j: int, n: int) -> int {
    if j >= c {
        j - c
    } else {
        n - c + j
    }
}

/// Steps forward from `a` to `b` round a ring of `n` slots, between 1 and
/// `n` (a full turn when `b == a`).
pub open spec fn ahead(a: int, b: int, n: int) -> int {
    if b > a {
        b - a
    } else {
        n - a + b
    }
}

/// `b` is the first unfinished slot after `a`, going forward round the ring
/// of `s.len()` slots.
pub open spec fn next_after(s: Seq<bool>, a: int, b: int) -> bool {
    let n = s.len() as int;
    &&& 0 <= b < n
    &&& !s[b]
    &&& forall|d: int| 1 <= d < ahead(a, b, n) ==> #[trigger] s[ring(a, d, n)]
}

/// Round-robin over a fixed table of tasks: which are finished, how many
/// are not, and the slot the rotation stands at.
pub struct Scheduler {
    finished: Vec<bool>,
    remain: usize,
    cursor: usize,
}

impl Scheduler {
    pub closed spec fn finished_view(&self) -> Seq<bool> {
        self.finished@
    }

    pub closed spec fn remaining(&self) -> nat {
        self.remain as nat
    }

    pub closed spec fn cursor_at(&self) -> int {
        self.cursor as int
    }

    pub open spec fn wf(&self) -> bool {
        &&& self.finished_view().len() > 0 ==> 0 <= self.cursor_at() < self.finished_view().len()
        &&& self.finished_view().len() == 0 ==> self.cursor_at() == 0
        &&& self.remaining() == live(self.finished_view())
    }

    /// `n` tasks, none finished, the rotation at the first.
    pub fn new(n: usize) -> (r: Scheduler)
        ensures
            r.wf(),
            r.finished_view() == Seq::new(n as nat, |i: int| false),
            r.remaining() == n,
            r.cursor_at() == 0,
    {
        let mut finished: Vec<bool> = Vec::new();
        let mut k: usize = 0;
        while k < n
            invariant
                k <= n,
                finished@ == Seq::new(k as nat, |i: int| false),
                live(finished@) == k,
            decreases n - k,
        {
            finished.push(false);
            k = k + 1;
            assert(finished@.drop_last() =~= Seq::new((k - 1) as nat, |i: int| false));
            assert(finished@ =~= Seq::new(k as nat, |i: int| false));
        }
        Scheduler { finished, remain: n, cursor: 0 }
    }

    pub fn remaining_tasks(&self) -> (r: usize)
        ensures
            r == self.remaining(),
    {
        self.remain
    }

    pub fn is_finished(&self, task: usize) -> (r: bool)
        requires
            task < self.finished_view().len(),
        ensures
            r == self.finished_view()[task as int],
    {
        self.finished[task]
    }

    /// Moves the rotation to the first unfinished task at or after the
    /// current slot and returns it; `None` once every task is finished.
    pub fn next_task(&mut self) -> (r: Option<usize>)
        requires
            old(self).wf(),
        ensures
            final(self).wf(),
            final(self).finished_view() == old(self).finished_view(),
            final(self).remaining() == old(self).remaining(),
            r is None <==> old(self).remaining() == 0,
            r is None ==> *final(self) == *old(self),
            r is Some ==> {
                let j = r->0 as int;
                let n = old(self).finished_view().len() as int;
                &&& 0 <= j < n
                &&& !old(self).finished_view()[j]
                &&& final(self).cursor_at() == j
                &&& forall|d: int|
                    0 <= d < ring_dist(old(self).cursor_at(), j, n) ==> #[trigger] old(
                        self,
                    ).finished_view()[ring(old(self).cursor_at(), d, n)]
            },
    {
        if self.remain == 0 {
            return None;
        }
        proof {
            if self.finished@.len() == 0 {
                assert(live(self.finished@) == 0);
            }
        }
        let n = self.finished.len();
        let c = self.cursor;
        let mut d: usize = 0;
        let mut idx: usize = c;
        while d < n
            invariant
                self.finished@ == old(self).finished@,
                self.remain == old(self).remain,
                self.remain > 0,
                self.remain == live(self.finished@),
                n == self.finished@.len(),
                c == self.cursor,
                c == old(self).cursor,
                c < n,
                d <= n,
                d < n ==> idx == ring(c as int, d as int, n as int),
                forall|e: int| 0 <= e < d ==> #[trigger] self.finished@[ring(c as int, e as int, n as int)],
            decreases n - d,
        {
            if !self.finished[idx] {
                self.cursor = idx;
                proof {
                    assert(ring_dist(c as int, idx as int, n as int) == d);
                    assert forall|e: int| 0 <= e < d implies #[trigger] old(self).finished_view()[ring(
                        c as int,
                        e,
                        n as int,
                    )] by {
                        assert(self.finished@[ring(c as int, e, n as int)]);
                    }
                }
                return Some(idx);
            }
            d = d + 1;
            idx = if idx + 1 == n {
                0
            } else {
                idx + 1
            };
        }
        proof {
            lemma_live_some(self.finished@);
            let k = choose|k: int| 0 <= k < self.finished@.len() && !self.finished@[k];
            let e = ring_dist(c as int, k, n as int);
            assert(ring(c as int, e, n as int) == k);
            assert(self.finished@[ring(c as int, e, n as int)]);
        }
        None
    }

    /// Applies `verdict` to `task`, the task the rotation stands at: a
    /// finished task is marked and no longer counted; unless the task is to
    /// run again, the rotation moves on by one slot.
    pub fn apply(&mut self, task: usize, verdict: Verdict)
        requires
            old(self).wf(),
            task == old(self).cursor_at(),
            task < old(self).finished_view().len(),
            !old(self).finished_view()[task as int],
        ensures
            final(self).wf(),
            ({
                let n = old(self).finished_view().len();
                let next = if task + 1 == n {
                    0
                } else {
                    task + 1
                };
                match verdict {
                    Verdict::Rerun => *final(self) == *old(self),
                    Verdict::Switch => {
                        &&& final(self).finished_view() == old(self).finished_view()
                        &&& final(self).remaining() == old(self).remaining()
                        &&& final(self).cursor_at() == next
                    },
                    Verdict::Finish => {
                        &&& final(self).finished_view() == old(self).finished_view().update(
                            task as int,
                            true,
                        )
                        &&& final(self).remaining() + 1 == old(self).remaining()
                        &&& final(self).cursor_at() == next
                    },
                }
            }),
    {
        let n = self.finished.len();
        let next = if task + 1 == n {
            0
        } else {
            task + 1
        };
        match verdict {
            Verdict::Rerun => {},
            Verdict::Switch => {
                self.cursor = next;
            },
            Verdict::Finish => {
                proof {
                    lemma_live_finish(self.finished@, task as int);
                }
                self.finished.set(task, true);
                self.remain = self.remain - 1;
                self.cursor = next;
            },
        }
    }
}

/// Once a task has been switched away from or finished, the next task to
/// run is the first unfinished one after it in ring order: no unfinished
/// task is passed over, and the same task runs again only when no other is
/// unfinished. So every other unfinished task gets its turn within one
/// rotation.
pub proof fn lemma_rotation_moves_on(before: Scheduler, after: Scheduler, task: usize, picked: usize)
    requires
        before.wf(),
        after.wf(),
        task == before.cursor_at(),
        after.finished_view().len() == before.finished_view().len(),
        after.cursor_at() == if task + 1 == before.finished_view().len() {
            0
        } else {
            task + 1
        },
        0 <= picked < after.finished_view().len(),
        !after.finished_view()[picked as int],
        forall|d: int|
            0 <= d < ring_dist(after.cursor_at(), picked as int, after.finished_view().len() as int)
                ==> #[trigger] after.finished_view()[ring(
                after.cursor_at(),
                d,
                after.finished_view().len() as int,
            )],
    ensures
        (exists|i: int|
            0 <= i < after.finished_view().len() && i != task && !after.finished_view()[i])
            ==> picked != task,
        forall|i: int|
            0 <= i < after.finished_view().len() && !after.finished_view()[i] ==> ring_dist(
                after.cursor_at(),
                picked as int,
                after.finished_view().len() as int,
            ) <= ring_dist(after.cursor_at(), i, after.finished_view().len() as int),
        next_after(after.finished_view(), task as int, picked as int),
{
    let n0 = after.finished_view().len() as int;
    let c0 = after.cursor_at();
    assert forall|i: int| 0 <= i < n0 && !after.finished_view()[i] implies ring_dist(
        c0,
        picked as int,
        n0,
    ) <= ring_dist(c0, i, n0) by {
        let e = ring_dist(c0, i, n0);
        assert(ring(c0, e, n0) == i);
        if e < ring_dist(c0, picked as int, n0) {
            assert(after.finished_view()[ring(c0, e, n0)]);
        }
    }
    let n = after.finished_view().len() as int;
    let c = after.cursor_at();
    if picked == task && exists|i: int| 0 <= i < n && i != task && !after.finished_view()[i] {
        let i = choose|i: int| 0 <= i < n && i != task && !after.finished_view()[i];
        let e = ring_dist(c, i, n);
        assert(ring(c, e, n) == i);
        assert(after.finished_view()[ring(c, e, n)]);
    }
    assert forall|d: int| 1 <= d < ahead(task as int, picked as int, n) implies #[trigger] after.finished_view()[ring(
        task as int,
        d,
        n,
    )] by {
        assert(ring(task as int, d, n) == ring(c, d - 1, n));
        assert(after.finished_view()[ring(c, d - 1, n)]);
    }
}

/// Round-robin visits every unfinished task within one rotation: take the
/// task `k` that was just preempted and the tasks picked after it, each the
/// first unfinished one after the one before, none of them `k` again. Every
/// unfinished task up to the last pick, in ring order from `k`, has been
/// picked; and once the pick after the last one is `k` again, every
/// unfinished task has had its turn.
pub proof fn lemma_full_rotation(s: Seq<bool>, k: int, picks: Seq<int>)
    requires
        0 <= k < s.len(),
        !s[k],
        picks.len() >= 1,
        picks[0] == k,
        forall|t: int| 0 <= t < picks.len() - 1 ==> next_after(s, picks[t], #[trigger] picks[t + 1]),
        forall|t: int| 1 <= t < picks.len() ==> #[trigger] picks[t] != k,
    ensures
        0 <= picks.last() < s.len(),
        forall|i: int|
            0 <= i < s.len() && !s[i] && ring_dist(k, i, s.len() as int) <= ring_dist(
                k,
                picks.last(),
                s.len() as int,
            ) ==> exists|t: int| 0 <= t < picks.len() && #[trigger] picks[t] == i,
        next_after(s, picks.last(), k) ==> forall|i: int|
            0 <= i < s.len() && !s[i] ==> exists|t: int| 0 <= t < picks.len() && #[trigger] picks[t] == i,
    decreases picks.len(),
{
    let n = s.len() as int;
    if picks.len() > 1 {
        let prev = picks.drop_last();
        assert forall|t: int| 0 <= t < prev.len() - 1 implies next_after(s, prev[t], #[trigger] prev[t + 1]) by {
            assert(next_after(s, picks[t], picks[t + 1]));
        }
        assert forall|t: int| 1 <= t < prev.len() implies #[trigger] prev[t] != k by {
            assert(picks[t] != k);
        }
        lemma_full_rotation(s, k, prev);
        let a = prev.last();
        let b = picks.last();
        let t0 = picks.len() - 2;
        assert(next_after(s, picks[t0], picks[t0 + 1]));
        assert(picks[t0] == a && picks[t0 + 1] == b);
        assert(b != k);
        // Going from `a` to `b` does not pass `k`, which is unfinished.
        if ring_dist(k, a, n) + ahead(a, b, n) >= n {
            let d = n - ring_dist(k, a, n);
            assert(ring(a, d, n) == k);
            if d < ahead(a, b, n) {
                assert(s[ring(a, d, n)]);
            }
        }
        assert(ring_dist(k, b, n) == ring_dist(k, a, n) + ahead(a, b, n));
        assert forall|i: int|
            0 <= i < n && !s[i] && ring_dist(k, i, n) <= ring_dist(k, b, n) implies exists|t: int|
            0 <= t < picks.len() && #[trigger] picks[t] == i by {
            if ring_dist(k, i, n) <= ring_dist(k, a, n) {
                let t = choose|t: int| 0 <= t < prev.len() && #[trigger] prev[t] == i;
                assert(picks[t] == i);
            } else if i == b {
                assert(picks[picks.len() - 1] == i);
            } else {
                let d = ring_dist(k, i, n) - ring_dist(k, a, n);
                assert(ring(a, d, n) == i);
                assert(s[ring(a, d, n)]);
            }
        }
    }
    let last = picks.last();
    if next_after(s, last, k) {
        assert forall|i: int| 0 <= i < n && !s[i] implies exists|t: int|
            0 <= t < picks.len() && #[trigger] picks[t] == i by {
            if ring_dist(k, i, n) > ring_dist(k, last, n) {
                let d = ring_dist(k, i, n) - ring_dist(k, last, n);
                assert(ring(last, d, n) == i);
                assert(s[ring(last, d, n)]);
            }
        }
    }
}

} // verus!

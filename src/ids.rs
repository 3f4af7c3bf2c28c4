use vstd::prelude::*;

verus! {

/// Identity of a task; used both as process id and as thread id.
#[derive(Clone, Copy, Debug, PartialEq, Eq, Structural, Hash, PartialOrd, Ord)]
pub struct TaskId(pub usize);

/// Source of fresh task identities: hands out 0, 1, 2, ... in order.
pub struct TaskIdCounter {
    next: usize,
}

impl TaskIdCounter {
    pub closed spec fn next_value(&self) -> nat {
        self.next as nat
    }

    /// The identity that the next `TaskId::generate` hands out.
    pub fn peek(&self) -> (r: usize)
        ensures
            r == self.next_value(),
    {
        self.next
    }

    pub fn new() -> (r: TaskIdCounter)
        ensures
            r.next_value() == 0,
    {
        TaskIdCounter { next: 0 }
    }
}

impl TaskId {
    pub open spec fn val(&self) -> usize {
        self.0
    }

    /// Allocates the next identity of `counter`. Identities are never
    /// reused: every later call returns a strictly larger one.
    pub fn generate(counter: &mut TaskIdCounter) -> (r: TaskId)
        requires
            old(counter).next_value() < usize::MAX,
        ensures
            r.val() == old(counter).next_value(),
            final(counter).next_value() == old(counter).next_value() + 1,
    {
        let id = counter.next;
        counter.next = id + 1;
        TaskId(id)
    }

    pub fn from(v: usize) -> (r: Self)
        ensures
            r == TaskId(v),
    {
        TaskId(v)
    }

    pub fn get_val(&self) -> (r: usize)
        ensures
            r == self.val(),
    {
        self.0
    }
}

/// Who issued a trapped service request.
#[derive(Clone, Copy, Debug, PartialEq, Eq, Structural)]
pub struct Caller {
    /// The resource set of the caller (its process).
    pub entity: usize,
    /// The control flow of the caller (its thread).
    pub flow: usize,
}

/// A syscall number of the kernel's ABI.
#[derive(Clone, Copy, Debug, PartialEq, Eq, Structural)]
pub struct SyscallId(pub usize);

pub const SYS_WRITE: usize = 64;
pub const SYS_EXIT: usize = 93;
pub const SYS_CLOCK_GETTIME: usize = 113;
pub const SYS_SCHED_YIELD: usize = 124;

/// A clock selector for `CLOCK_GETTIME`.
#[derive(Clone, Copy, Debug, PartialEq, Eq, Structural)]
pub struct ClockId(pub usize);

pub const CLOCK_REALTIME: usize = 0;
pub const CLOCK_MONOTONIC: usize = 1;

} // verus!

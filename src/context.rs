use vstd::prelude::*;

verus! {

/// Number of general-purpose registers saved (x1 ..= x31).
pub const NUM_REGS: usize = 31;

/// The address of the instruction after a 4-byte one at `pc`, wrapping
/// around the top of the address space.
pub open spec fn next_pc(pc: u64) -> u64 {
    ((pc + 4) % (u64::MAX as int + 1)) as u64
}

/// Saved register image of a task: x1 ..= x31 and the program counter.
#[derive(Debug)]
pub struct LocalContext {
    x: Vec<u64>,
    sepc: u64,
    supervisor: bool,
}

impl LocalContext {
    pub open spec fn wf(&self) -> bool {
        self.regs().len() == NUM_REGS
    }

    /// Register `x(i)` for `1 <= i <= 31`.
    pub open spec fn reg(&self, i: int) -> u64 {
        self.regs()[i - 1]
    }

    pub closed spec fn regs(&self) -> Seq<u64> {
        self.x@
    }

    pub closed spec fn pc_spec(&self) -> u64 {
        self.sepc
    }

    pub closed spec fn is_user(&self) -> bool {
        !self.supervisor
    }

    /// A context that starts in user mode at `entry`, all registers zero.
    pub fn user(entry: u64) -> (r: LocalContext)
        ensures
            r.wf(),
            r.is_user(),
            r.pc_spec() == entry,
            forall|i: int| 0 <= i < NUM_REGS ==> r.regs()[i] == 0,
    {
        let mut x: Vec<u64> = Vec::new();
        let mut k: usize = 0;
        while k < NUM_REGS
            invariant
                k <= NUM_REGS,
                x@.len() == k,
                forall|i: int| 0 <= i < k ==> x@[i] == 0,
            decreases NUM_REGS - k,
        {
            x.push(0);
            k = k + 1;
        }
        LocalContext { x, sepc: entry, supervisor: false }
    }

    /// A verbatim copy of this context.
    pub fn duplicate(&self) -> (r: LocalContext)
        ensures
            r.regs() == self.regs(),
            r.pc_spec() == self.pc_spec(),
            r.is_user() == self.is_user(),
    {
        let mut x: Vec<u64> = Vec::new();
        let mut k: usize = 0;
        while k < self.x.len()
            invariant
                k <= self.x@.len(),
                x@ == self.x@.subrange(0, k as int),
            decreases self.x@.len() - k,
        {
            x.push(self.x[k]);
            k = k + 1;
        }
        assert(x@ =~= self.x@);
        LocalContext { x, sepc: self.sepc, supervisor: self.supervisor }
    }

    pub fn x(&self, i: usize) -> (r: u64)
        requires
            self.wf(),
            1 <= i <= NUM_REGS,
        ensures
            r == self.reg(i as int),
    {
        self.x[i - 1]
    }

    pub fn x_set(&mut self, i: usize, v: u64)
        requires
            old(self).wf(),
            1 <= i <= NUM_REGS,
        ensures
            final(self).wf(),
            final(self).regs() == old(self).regs().update(i - 1, v),
            final(self).pc_spec() == old(self).pc_spec(),
            final(self).is_user() == old(self).is_user(),
    {
        self.x.set(i - 1, v);
    }

    /// Argument register `a(n)`, which is `x(10 + n)`.
    pub fn a(&self, n: usize) -> (r: u64)
        requires
            self.wf(),
            n < 8,
        ensures
            r == self.reg(10 + n),
    {
        self.x(10 + n)
    }

    pub fn a_set(&mut self, n: usize, v: u64)
        requires
            old(self).wf(),
            n < 8,
        ensures
            final(self).wf(),
            final(self).regs() == old(self).regs().update(9 + n, v),
            final(self).pc_spec() == old(self).pc_spec(),
            final(self).is_user() == old(self).is_user(),
    {
        self.x_set(10 + n, v);
    }

    /// The stack pointer, `x(2)`.
    pub fn sp(&self) -> (r: u64)
        requires
            self.wf(),
        ensures
            r == self.reg(2),
    {
        self.x(2)
    }

    pub fn sp_set(&mut self, v: u64)
        requires
            old(self).wf(),
        ensures
            final(self).wf(),
            final(self).regs() == old(self).regs().update(1, v),
            final(self).pc_spec() == old(self).pc_spec(),
            final(self).is_user() == old(self).is_user(),
    {
        self.x_set(2, v);
    }

    pub fn pc(&self) -> (r: u64)
        ensures
            r == self.pc_spec(),
    {
        self.sepc
    }

    pub fn pc_set(&mut self, v: u64)
        ensures
            final(self).regs() == old(self).regs(),
            final(self).pc_spec() == v,
            final(self).is_user() == old(self).is_user(),
    {
        self.sepc = v;
    }

    /// Steps past the 4-byte trapping instruction, so that resuming continues
    /// at the instruction after it.
    pub fn move_next(&mut self)
        ensures
            final(self).regs() == old(self).regs(),
            final(self).pc_spec() == next_pc(old(self).pc_spec()),
            final(self).is_user() == old(self).is_user(),
    {
        if self.sepc <= u64::MAX - 4 {
            self.sepc = self.sepc + 4;
        } else {
            self.sepc = self.sepc - (u64::MAX - 3);
        }
    }
}

/// A saved context together with the address-space selector that must be
/// active while it runs.
#[derive(Debug)]
pub struct ForeignContext {
    pub context: LocalContext,
    pub satp: u64,
}

/// Why control came back to the kernel.
#[derive(Clone, Copy, Debug, PartialEq, Eq, Structural)]
pub enum TrapCause {
    TimerInterrupt,
    OtherInterrupt(usize),
    SystemCall,
    IllegalInstruction,
    PageFault,
    OtherException(usize),
}

/// Interrupt code of the supervisor timer.
pub const IRQ_SUPERVISOR_TIMER: usize = 5;

/// Exception codes.
pub const EXC_ILLEGAL_INSTRUCTION: usize = 2;
pub const EXC_USER_ENV_CALL: usize = 8;
pub const EXC_INSTRUCTION_PAGE_FAULT: usize = 12;
pub const EXC_LOAD_PAGE_FAULT: usize = 13;
pub const EXC_STORE_PAGE_FAULT: usize = 15;

/// The cause that a trap register reports as interrupt-or-exception and code.
pub open spec fn trap_of(interrupt: bool, code: usize) -> TrapCause {
    if interrupt {
        if code == IRQ_SUPERVISOR_TIMER {
            TrapCause::TimerInterrupt
        } else {
            TrapCause::OtherInterrupt(code)
        }
    } else if code == EXC_USER_ENV_CALL {
        TrapCause::SystemCall
    } else if code == EXC_ILLEGAL_INSTRUCTION {
        TrapCause::IllegalInstruction
    } else if code == EXC_INSTRUCTION_PAGE_FAULT || code == EXC_LOAD_PAGE_FAULT || code
        == EXC_STORE_PAGE_FAULT {
        TrapCause::PageFault
    } else {
        TrapCause::OtherException(code)
    }
}

impl TrapCause {
    /// Decodes a trap cause; codes it does not name come back verbatim.
    pub fn from_raw(interrupt: bool, code: usize) -> (r: TrapCause)
        ensures
            r == trap_of(interrupt, code),
    {
        if interrupt {
            if code == IRQ_SUPERVISOR_TIMER {
                TrapCause::TimerInterrupt
            } else {
                TrapCause::OtherInterrupt(code)
            }
        } else if code == EXC_USER_ENV_CALL {
            TrapCause::SystemCall
        } else if code == EXC_ILLEGAL_INSTRUCTION {
            TrapCause::IllegalInstruction
        } else if code == EXC_INSTRUCTION_PAGE_FAULT || code == EXC_LOAD_PAGE_FAULT || code
            == EXC_STORE_PAGE_FAULT {
            TrapCause::PageFault
        } else {
            TrapCause::OtherException(code)
        }
    }
}

} // verus!

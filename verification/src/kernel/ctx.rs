//! Saved register sets: the callee-saved registers of a kernel task switch
//! and the full user register frame of a trap.

use vstd::prelude::*;

verus! {

/// Registers saved when switching between kernel tasks.
#[derive(Clone, Copy, Default, Debug)]
pub struct Context {
    pub ra: u64,
    pub sp: u64,
    pub s0: u64,
    pub s1: u64,
    pub s2: u64,
    pub s3: u64,
    pub s4: u64,
    pub s5: u64,
    pub s6: u64,
    pub s7: u64,
    pub s8: u64,
    pub s9: u64,
    pub s10: u64,
    pub s11: u64,
}

impl Context {
    /// A context that starts at `entry` with stack pointer `sp`, every other
    /// register zero.
    pub fn new(entry: u64, sp: u64) -> (r: Self)
        ensures
            r == (Context {
                ra: entry,
                sp,
                s0: 0,
                s1: 0,
                s2: 0,
                s3: 0,
                s4: 0,
                s5: 0,
                s6: 0,
                s7: 0,
                s8: 0,
                s9: 0,
                s10: 0,
                s11: 0,
            }),
    {
        Context {
            ra: entry,
            sp,
            s0: 0,
            s1: 0,
            s2: 0,
            s3: 0,
            s4: 0,
            s5: 0,
            s6: 0,
            s7: 0,
            s8: 0,
            s9: 0,
            s10: 0,
            s11: 0,
        }
    }
}

/// The registers of a user task saved on a trap, with the kernel stack,
/// hart id, `sstatus` and the return pc.
#[derive(Debug, Default, Clone, Copy)]
pub struct Trapframe {
    pub ra: u64,
    pub sp: u64,
    pub gp: u64,
    pub tp: u64,
    pub t0: u64,
    pub t1: u64,
    pub t2: u64,
    pub t3: u64,
    pub t4: u64,
    pub t5: u64,
    pub t6: u64,
    pub a0: u64,
    pub a1: u64,
    pub a2: u64,
    pub a3: u64,
    pub a4: u64,
    pub a5: u64,
    pub a6: u64,
    pub a7: u64,
    pub s0: u64,
    pub s1: u64,
    pub s2: u64,
    pub s3: u64,
    pub s4: u64,
    pub s5: u64,
    pub s6: u64,
    pub s7: u64,
    pub s8: u64,
    pub s9: u64,
    pub s10: u64,
    pub s11: u64,
    pub kernel_stack: u64,
    pub hartid: u64,
    pub sstatus: u64,
    pub sepc: u64,
}

/// The frame with every register zero.
pub open spec fn zero_trapframe() -> Trapframe {
    Trapframe {
        ra: 0,
        sp: 0,
        gp: 0,
        tp: 0,
        t0: 0,
        t1: 0,
        t2: 0,
        t3: 0,
        t4: 0,
        t5: 0,
        t6: 0,
        a0: 0,
        a1: 0,
        a2: 0,
        a3: 0,
        a4: 0,
        a5: 0,
        a6: 0,
        a7: 0,
        s0: 0,
        s1: 0,
        s2: 0,
        s3: 0,
        s4: 0,
        s5: 0,
        s6: 0,
        s7: 0,
        s8: 0,
        s9: 0,
        s10: 0,
        s11: 0,
        kernel_stack: 0,
        hartid: 0,
        sstatus: 0,
        sepc: 0,
    }
}

impl Trapframe {
    /// A frame with every register zero.
    pub fn new() -> (r: Self)
        ensures
            r == zero_trapframe(),
    {
        Trapframe {
            ra: 0,
            sp: 0,
            gp: 0,
            tp: 0,
            t0: 0,
            t1: 0,
            t2: 0,
            t3: 0,
            t4: 0,
            t5: 0,
            t6: 0,
            a0: 0,
            a1: 0,
            a2: 0,
            a3: 0,
            a4: 0,
            a5: 0,
            a6: 0,
            a7: 0,
            s0: 0,
            s1: 0,
            s2: 0,
            s3: 0,
            s4: 0,
            s5: 0,
            s6: 0,
            s7: 0,
            s8: 0,
            s9: 0,
            s10: 0,
            s11: 0,
            kernel_stack: 0,
            hartid: 0,
            sstatus: 0,
            sepc: 0,
        }
    }

    /// Sets the value a system call returns (`a0`).
    pub fn set_return_val(&mut self, val: u64)
        ensures
            *final(self) == (Trapframe { a0: val, ..*old(self) }),
    {
        self.a0 = val;
    }

    /// The first argument register (`a0`).
    pub fn arg0(&mut self) -> (r: u64)
        ensures
            r == old(self).a0,
            *final(self) == *old(self),
    {
        self.a0
    }

    /// Sets the first argument register (`a0`).
    pub fn set_arg0(&mut self, val: u64)
        ensures
            *final(self) == (Trapframe { a0: val, ..*old(self) }),
    {
        self.a0 = val;
    }

    /// The second argument register (`a1`).
    pub fn arg1(&mut self) -> (r: u64)
        ensures
            r == old(self).a1,
            *final(self) == *old(self),
    {
        self.a1
    }

    /// Sets the second argument register (`a1`).
    pub fn set_arg1(&mut self, val: u64)
        ensures
            *final(self) == (Trapframe { a1: val, ..*old(self) }),
    {
        self.a1 = val;
    }

    /// The stack pointer.
    pub fn sp(&self) -> (r: u64)
        ensures
            r == self.sp,
    {
        self.sp
    }

    /// Sets the stack pointer.
    pub fn set_sp(&mut self, sp: u64)
        ensures
            *final(self) == (Trapframe { sp, ..*old(self) }),
    {
        self.sp = sp;
    }

    /// Sets the pc the trap returns to (`sepc`).
    pub fn set_ret_pc(&mut self, ret_pc: u64)
        ensures
            *final(self) == (Trapframe { sepc: ret_pc, ..*old(self) }),
    {
        self.sepc = ret_pc;
    }
}

} // verus!

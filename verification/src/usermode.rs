//! Ring 3: the user programs the kernel runs, where they are mapped, and how an
//! excursion to ring 3 returns. A `SYS_EXIT`, or a fault the CPU raised against
//! ring-3 code, ends the excursion by rewriting the saved interrupt frame so
//! the handler's `iretq` lands back in the kernel rather than in the user
//! program. Entering ring 3 and the `iretq` itself are the caller's part.
use vstd::prelude::*;
use crate::gdt::{KERNEL_CODE, KERNEL_DATA};
use crate::interrupts::InterruptContext;

verus! {

/// Where a user program's code is mapped: 1.25 GiB, above the identity window.
pub const UVA_CODE: u64 = 0x5000_0000;
/// Where its stack page is mapped, 1 MiB above the code.
pub const UVA_STACK: u64 = 0x5010_0000;
/// The 16-byte aligned top of that stack.
pub const UVA_STACK_TOP: u64 = 0x5010_1000;
/// The flags a resumed kernel runs with: the reserved bit 1 only, interrupts
/// off.
pub const RESUME_RFLAGS: u64 = 0x2;

/// The program that proves the syscall path: `SYS_PRINT` of 'Z', then
/// `SYS_EXIT`, then a spin that must never be reached. Position-independent.
pub fn syscall_program() -> (p: Vec<u8>)
    ensures
        p@ == seq![
            0xB8u8, 0x01, 0x00, 0x00, 0x00,
            0xBF, 0x5A, 0x00, 0x00, 0x00,
            0xCD, 0x80,
            0xB8, 0x02, 0x00, 0x00, 0x00,
            0xCD, 0x80,
            0xEB, 0xFE,
        ],
{
    let p: Vec<u8> = vec![
        0xB8u8, 0x01, 0x00, 0x00, 0x00,
        0xBF, 0x5A, 0x00, 0x00, 0x00,
        0xCD, 0x80,
        0xB8, 0x02, 0x00, 0x00, 0x00,
        0xCD, 0x80,
        0xEB, 0xFE,
    ];
    p
}

/// The program whose `cli` a ring-3 CPU refuses with #GP.
pub fn cli_program() -> (p: Vec<u8>)
    ensures
        p@ == seq![0xFAu8, 0xEB, 0xFE],
{
    let p: Vec<u8> = vec![0xFAu8, 0xEB, 0xFE];
    p
}

/// The program whose read of the kernel-only page 0xb8000 a ring-3 CPU
/// refuses with #PF.
pub fn kernel_read_program() -> (p: Vec<u8>)
    ensures
        p@ == seq![0x48u8, 0xA1, 0x00, 0x80, 0x0B, 0x00, 0x00, 0x00, 0x00, 0x00, 0xEB, 0xFE],
{
    let p: Vec<u8> = vec![0x48u8, 0xA1, 0x00, 0x80, 0x0B, 0x00, 0x00, 0x00, 0x00, 0x00, 0xEB, 0xFE];
    p
}

/// The frame `ctx` rewritten to return into the kernel at `resume_rip` on the
/// stack `kernel_rsp`, under the kernel's code and stack segments, with
/// interrupts off; the general registers are kept.
pub open spec fn resumed(ctx: InterruptContext, resume_rip: u64, kernel_rsp: u64) -> InterruptContext {
    InterruptContext {
        rip: resume_rip,
        cs: KERNEL_CODE as u64,
        ss: KERNEL_DATA as u64,
        rflags: RESUME_RFLAGS,
        rsp: kernel_rsp,
        ..ctx
    }
}

/// End a ring-3 excursion from its `SYS_EXIT`: rewrite the saved frame so the
/// handler's `iretq` returns to the kernel at `resume_rip`, on the stack
/// `kernel_rsp` saved when the excursion began. Only a genuine ring-3 caller
/// may be resumed this way: the saved code segment must show privilege 3.
pub fn resume_kernel(ctx: &mut InterruptContext, resume_rip: u64, kernel_rsp: u64)
    requires
        old(ctx).cs & 3 == 3,
    ensures
        *final(ctx) == resumed(*old(ctx), resume_rip, kernel_rsp),
{
    ctx.rip = resume_rip;
    ctx.cs = KERNEL_CODE as u64;
    ctx.ss = KERNEL_DATA as u64;
    ctx.rflags = RESUME_RFLAGS;
    ctx.rsp = kernel_rsp;
}

/// The vector of the last ring-3 violation caught (13 = #GP, 14 = #PF), or 0.
pub struct ViolationLog {
    last: u64,
}

impl ViolationLog {
    /// The recorded vector.
    pub closed spec fn last(&self) -> u64 {
        self.last
    }

    /// Nothing caught yet.
    pub fn new() -> (l: ViolationLog)
        ensures
            l.last() == 0,
    {
        ViolationLog { last: 0 }
    }

    /// Forget the last violation before a new run.
    pub fn clear(&mut self)
        ensures
            final(self).last() == 0,
    {
        self.last = 0;
    }

    /// The vector last caught.
    pub fn caught(&self) -> (v: u64)
        ensures
            v == self.last(),
    {
        self.last
    }
}

/// A fault taken in ring 3: record its vector in `log`, then unwind the
/// excursion back to the kernel as `SYS_EXIT` does.
pub fn recover_from_violation(
    log: &mut ViolationLog,
    ctx: &mut InterruptContext,
    vector: u64,
    resume_rip: u64,
    kernel_rsp: u64,
)
    requires
        old(ctx).cs & 3 == 3,
    ensures
        final(log).last() == vector,
        *final(ctx) == resumed(*old(ctx), resume_rip, kernel_rsp),
{
    log.last = vector;
    resume_kernel(ctx, resume_rip, kernel_rsp);
}

} // verus!

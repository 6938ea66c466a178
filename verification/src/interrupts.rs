//! Interrupt and exception logic: the 16-byte IDT gate encoding, how the
//! dispatcher classifies each trap, the syscall numbers and the `SYS_WRITE`
//! checks, the page-fault error-code decoding, and the capture of the bytes
//! the last `SYS_WRITE` emitted.
use vstd::prelude::*;
use crate::paging::{ADDR_MASK, reads_as, user_range_ok, user_range_spec};
use crate::usermode::{resume_kernel, resumed};

verus! {

/// The vector the timer's IRQ0 is remapped to.
pub const TIMER_VECTOR: u64 = 0x20;
/// The vector the keyboard's IRQ1 is remapped to.
pub const KEYBOARD_VECTOR: u64 = 0x21;
/// The software-interrupt vector ring-3 code uses to call the kernel.
pub const SYSCALL_VECTOR: u64 = 0x80;
/// First vector of the remapped PICs' range (16 vectors).
pub const PIC_BASE_VECTOR: u64 = 0x20;
/// Print one character (`rdi` = the byte).
pub const SYS_PRINT: u64 = 1;
/// The user excursion is finished.
pub const SYS_EXIT: u64 = 2;
/// Write `rsi` bytes from the user buffer at `rdi`, after checking the caller
/// could read them itself.
pub const SYS_WRITE: u64 = 3;
/// `SYS_WRITE` with the copy-from-user check omitted.
pub const SYS_WRITE_UNCHECKED: u64 = 4;
/// Upper bound on a single `SYS_WRITE`.
pub const MAX_WRITE: usize = 256;
/// The code segment selector every gate runs under.
pub const KERNEL_CODE_SELECTOR: u16 = 0x08;

/// The register state the entry stub saves, in the order it lies in memory.
#[derive(Clone, Copy, Debug, PartialEq, Eq, Structural)]
pub struct InterruptContext {
    pub r15: u64,
    pub r14: u64,
    pub r13: u64,
    pub r12: u64,
    pub r11: u64,
    pub r10: u64,
    pub r9: u64,
    pub r8: u64,
    pub rbp: u64,
    pub rdi: u64,
    pub rsi: u64,
    pub rdx: u64,
    pub rcx: u64,
    pub rbx: u64,
    pub rax: u64,
    pub vector: u64,
    pub error_code: u64,
    pub rip: u64,
    pub cs: u64,
    pub rflags: u64,
    pub rsp: u64,
    pub ss: u64,
}

/// A single 16-byte IDT gate descriptor; the handler address is split across
/// three fields.
#[derive(Clone, Copy, Debug, PartialEq, Eq, Structural)]
pub struct IdtEntry {
    pub offset_low: u16,
    pub selector: u16,
    pub ist: u8,
    pub type_attr: u8,
    pub offset_mid: u16,
    pub offset_high: u32,
    pub reserved: u32,
}

/// The handler address a gate's three offset fields spell.
pub open spec fn gate_handler(e: IdtEntry) -> int {
    e.offset_low as int + 65536 * (e.offset_mid as int) + 4294967296 * (e.offset_high as int)
}

impl IdtEntry {
    /// An absent gate: every field zero.
    pub fn missing() -> (e: IdtEntry)
        ensures
            e == (IdtEntry {
                offset_low: 0,
                selector: 0,
                ist: 0,
                type_attr: 0,
                offset_mid: 0,
                offset_high: 0,
                reserved: 0,
            }),
    {
        IdtEntry {
            offset_low: 0,
            selector: 0,
            ist: 0,
            type_attr: 0,
            offset_mid: 0,
            offset_high: 0,
            reserved: 0,
        }
    }

    /// Point this gate at `handler`, under code segment `selector`, with the
    /// given `type_attr` (present bit | DPL | gate type).
    pub fn set_gate(&mut self, handler: u64, selector: u16, type_attr: u8)
        ensures
            gate_handler(*final(self)) == handler,
            final(self).offset_low == handler % 0x1_0000,
            final(self).offset_mid == (handler / 0x1_0000) % 0x1_0000,
            final(self).offset_high == handler / 0x1_0000_0000,
            final(self).selector == selector,
            final(self).ist == 0,
            final(self).type_attr == type_attr,
            final(self).reserved == 0,
    {
        self.offset_low = (handler & 0xFFFF) as u16;
        self.offset_mid = ((handler >> 16) & 0xFFFF) as u16;
        self.offset_high = (handler >> 32) as u32;
        self.selector = selector;
        self.ist = 0;
        self.type_attr = type_attr;
        self.reserved = 0;
        proof {
            assert(handler & 0xFFFF == handler % 0x1_0000) by (bit_vector);
            assert((handler >> 16) & 0xFFFF == (handler / 0x1_0000) % 0x1_0000) by (bit_vector);
            assert(handler >> 32 == handler / 0x1_0000_0000) by (bit_vector);
            let lo = handler % 0x1_0000;
            let mid = (handler / 0x1_0000) % 0x1_0000;
            let hi = handler / 0x1_0000_0000;
            assert(lo + 65536 * mid + 4294967296 * hi == handler) by (nonlinear_arith)
                requires
                    lo == handler % 0x1_0000,
                    mid == (handler / 0x1_0000) % 0x1_0000,
                    hi == handler / 0x1_0000_0000,
            ;
        }
    }

    /// A ring-0-only interrupt gate: 0x8E = present | DPL 0 | 64-bit
    /// interrupt gate.
    pub fn set_handler(&mut self, handler: u64, selector: u16)
        ensures
            gate_handler(*final(self)) == handler,
            final(self).selector == selector,
            final(self).ist == 0,
            final(self).type_attr == 0x8E,
            final(self).reserved == 0,
    {
        self.set_gate(handler, selector, 0x8E);
    }

    /// A gate ring-3 code may invoke with `int`: 0xEE = present | DPL 3 |
    /// 64-bit interrupt gate.
    pub fn set_user_handler(&mut self, handler: u64, selector: u16)
        ensures
            gate_handler(*final(self)) == handler,
            final(self).selector == selector,
            final(self).ist == 0,
            final(self).type_attr == 0xEE,
            final(self).reserved == 0,
    {
        self.set_gate(handler, selector, 0xEE);
    }
}

/// Build the 256-gate table from the entry stubs' addresses: every vector a
/// ring-0-only gate to its stub, except the syscall vector, which ring 3 may
/// invoke.
pub fn build_idt(stubs: &Vec<u64>) -> (idt: Vec<IdtEntry>)
    requires
        stubs@.len() == 256,
    ensures
        idt@.len() == 256,
        forall|v: int|
            0 <= v < 256 ==> {
                &&& gate_handler(#[trigger] idt@[v]) == stubs@[v]
                &&& idt@[v].selector == KERNEL_CODE_SELECTOR
                &&& idt@[v].ist == 0
                &&& idt@[v].type_attr == if v == 0x80 {
                    0xEEu8
                } else {
                    0x8Eu8
                }
            },
{
    let mut idt: Vec<IdtEntry> = Vec::new();
    let mut v: usize = 0;
    while v < 256
        invariant
            v <= 256,
            stubs@.len() == 256,
            idt@.len() == v,
            forall|j: int|
                0 <= j < v ==> {
                    &&& gate_handler(#[trigger] idt@[j]) == stubs@[j]
                    &&& idt@[j].selector == KERNEL_CODE_SELECTOR
                    &&& idt@[j].ist == 0
                    &&& idt@[j].type_attr == if j == 0x80 {
                        0xEEu8
                    } else {
                        0x8Eu8
                    }
                },
        decreases 256 - v,
    {
        let mut e = IdtEntry::missing();
        if v == 0x80 {
            e.set_user_handler(stubs[v], KERNEL_CODE_SELECTOR);
        } else {
            e.set_handler(stubs[v], KERNEL_CODE_SELECTOR);
        }
        idt.push(e);
        v = v + 1;
    }
    idt
}

/// How the dispatcher handles a trap.
#[derive(Clone, Copy, Debug, PartialEq, Eq, Structural)]
pub enum Trap {
    /// `int3`: report and resume.
    Breakpoint,
    /// A #GP (13) or #PF (14) taken from ring 3: report and unwind to ring 0.
    RingViolation(u64),
    /// A page fault in ring 0: report and halt.
    PageFault,
    /// Timer IRQ0: tick, acknowledge, preempt.
    Timer,
    /// Keyboard IRQ1: queue the byte, acknowledge.
    Keyboard,
    /// The `int 0x80` syscall gate.
    Syscall,
    /// Another vector of the PICs' range: a spurious IRQ, ignored without EOI.
    Spurious,
    /// Anything else: report and halt.
    Fatal,
}

/// How the dispatcher handles the trap `vector` taken with saved code segment `cs`.
pub open spec fn classify_spec(vector: u64, cs: u64) -> Trap {
    if vector == 3 {
        Trap::Breakpoint
    } else if (vector == 13 || vector == 14) && cs & 3 == 3 {
        Trap::RingViolation(vector)
    } else if vector == 14 {
        Trap::PageFault
    } else if vector == TIMER_VECTOR {
        Trap::Timer
    } else if vector == KEYBOARD_VECTOR {
        Trap::Keyboard
    } else if vector == SYSCALL_VECTOR {
        Trap::Syscall
    } else if PIC_BASE_VECTOR <= vector < PIC_BASE_VECTOR + 16 {
        Trap::Spurious
    } else {
        Trap::Fatal
    }
}

/// Decide how to handle the trap `vector` taken with saved code segment `cs`.
/// The privilege the trap came from is `cs & 3`.
pub fn classify(vector: u64, cs: u64) -> (t: Trap)
    ensures
        t == classify_spec(vector, cs),
{
    if vector == 3 {
        Trap::Breakpoint
    } else if (vector == 13 || vector == 14) && cs & 3 == 3 {
        Trap::RingViolation(vector)
    } else if vector == 14 {
        Trap::PageFault
    } else if vector == TIMER_VECTOR {
        Trap::Timer
    } else if vector == KEYBOARD_VECTOR {
        Trap::Keyboard
    } else if vector == SYSCALL_VECTOR {
        Trap::Syscall
    } else if PIC_BASE_VECTOR <= vector && vector < PIC_BASE_VECTOR + 16 {
        Trap::Spurious
    } else {
        Trap::Fatal
    }
}

/// A syscall, by its number in `rax`.
#[derive(Clone, Copy, Debug, PartialEq, Eq, Structural)]
pub enum Syscall {
    Print,
    Exit,
    Write,
    WriteUnchecked,
    Unknown,
}

/// The syscall `number` names.
pub fn classify_syscall(number: u64) -> (s: Syscall)
    ensures
        number == SYS_PRINT ==> s == Syscall::Print,
        number == SYS_EXIT ==> s == Syscall::Exit,
        number == SYS_WRITE ==> s == Syscall::Write,
        number == SYS_WRITE_UNCHECKED ==> s == Syscall::WriteUnchecked,
        !(1 <= number <= 4) ==> s == Syscall::Unknown,
{
    if number == SYS_PRINT {
        Syscall::Print
    } else if number == SYS_EXIT {
        Syscall::Exit
    } else if number == SYS_WRITE {
        Syscall::Write
    } else if number == SYS_WRITE_UNCHECKED {
        Syscall::WriteUnchecked
    } else {
        Syscall::Unknown
    }
}

/// What a `SYS_WRITE` does with its request.
#[derive(Clone, Copy, Debug, PartialEq, Eq, Structural)]
pub enum WriteDecision {
    /// The length exceeds `MAX_WRITE`: rejected before anything is touched.
    TooLong,
    /// The range is not readable by the caller: rejected by the check.
    NotUserReadable,
    /// Copy this many bytes.
    Emit(usize),
}

/// Decide a `SYS_WRITE` of `len` bytes: the length is bounded first, then,
/// when `validate`, the caller must be able to read the whole range itself
/// (`range_ok`, found by walking the page tables).
pub open spec fn write_decision_spec(len: u64, validate: bool, range_ok: bool) -> WriteDecision {
    if len > MAX_WRITE {
        WriteDecision::TooLong
    } else if validate && !range_ok {
        WriteDecision::NotUserReadable
    } else {
        WriteDecision::Emit(len as usize)
    }
}

/// Decide a `SYS_WRITE` of `len` bytes: the length is bounded first, then,
/// when `validate`, the caller must be able to read the whole range itself
/// (`range_ok`, found by walking the page tables).
pub fn sys_write_decision(len: u64, validate: bool, range_ok: bool) -> (d: WriteDecision)
    ensures
        d == write_decision_spec(len, validate, range_ok),
{
    if len > MAX_WRITE as u64 {
        return WriteDecision::TooLong;
    }
    if validate && !range_ok {
        return WriteDecision::NotUserReadable;
    }
    WriteDecision::Emit(len as usize)
}

/// What servicing a syscall leaves for the caller to do once the saved frame
/// has been updated.
#[derive(Clone, Copy, Debug, PartialEq, Eq, Structural)]
pub enum SyscallEffect {
    /// Print this character; the call returns 0.
    Print(u8),
    /// The ring-3 excursion is over: the frame now returns into the kernel.
    Exit,
    /// Copy `len` bytes from the user address `ptr`, print them and record
    /// them; the call returns `len`.
    Emit { ptr: u64, len: usize },
    /// A write refused for this reason; the call returns -1.
    Refused(WriteDecision),
    /// An unknown syscall number; the call returns -1.
    Unknown(u64),
}

/// The frame `ctx` with `rax`, the syscall's return value, set to `rax`.
pub open spec fn returning(ctx: InterruptContext, rax: u64) -> InterruptContext {
    InterruptContext { rax, ..ctx }
}

/// A `SYS_WRITE` of `ctx.rsi` bytes from `ctx.rdi`, checked when `validate`,
/// where `range_ok` tells whether ring 3 could read that range itself: the
/// effect, and the frame it returns with.
pub open spec fn write_outcome(ctx: InterruptContext, validate: bool, range_ok: bool) -> (
    SyscallEffect,
    InterruptContext,
) {
    match write_decision_spec(ctx.rsi, validate, range_ok) {
        WriteDecision::Emit(n) => (SyscallEffect::Emit { ptr: ctx.rdi, len: n }, returning(ctx, ctx.rsi)),
        d => (SyscallEffect::Refused(d), returning(ctx, u64::MAX)),
    }
}

/// A checked write never emits a range ring 3 could not read itself, and
/// never more than `MAX_WRITE` bytes; only the unchecked write can be made to
/// emit kernel memory.
pub proof fn law_checked_write(ctx: InterruptContext, range_ok: bool)
    ensures
        write_outcome(ctx, true, range_ok).0 is Emit ==> range_ok && ctx.rsi <= MAX_WRITE,
        write_outcome(ctx, false, range_ok).0 is Emit <==> ctx.rsi <= MAX_WRITE,
{
}

/// Service a `SYS_WRITE` (`validate`) or `SYS_WRITE_UNCHECKED`: bound the
/// length, then, when validating, check by walking the page tables (through
/// `read_entry`, from `cr3`) that ring 3 could read the whole range itself.
/// Without the check the kernel would read whatever the caller points it at,
/// kernel pages included.
pub fn sys_write<F: Fn(u64, usize) -> u64>(
    ctx: &mut InterruptContext,
    validate: bool,
    read_entry: &F,
    cr3: u64,
) -> (e: SyscallEffect)
    requires
        forall|t: u64, i: usize| read_entry.requires((t, i)),
    ensures
        forall|mem: spec_fn(u64, int) -> u64| #[trigger]
            reads_as(read_entry, mem) ==> (e, *final(ctx)) == write_outcome(
                *old(ctx),
                validate,
                user_range_spec(mem, cr3 & ADDR_MASK, old(ctx).rdi, old(ctx).rsi),
            ),
        !validate ==> (e, *final(ctx)) == write_outcome(*old(ctx), false, true),
{
    let ptr = ctx.rdi;
    let len = ctx.rsi;
    if len > MAX_WRITE as u64 {
        ctx.rax = u64::MAX;
        return SyscallEffect::Refused(WriteDecision::TooLong);
    }
    let range_ok = if validate {
        user_range_ok(read_entry, cr3, ptr, len)
    } else {
        true
    };
    match sys_write_decision(len, validate, range_ok) {
        WriteDecision::Emit(n) => {
            ctx.rax = len;
            SyscallEffect::Emit { ptr, len: n }
        },
        d => {
            ctx.rax = u64::MAX;
            SyscallEffect::Refused(d)
        },
    }
}

/// Service an `int 0x80`: the number is in `rax`, the arguments in `rdi` and
/// `rsi`, and the return value goes back into the saved `rax`. `SYS_EXIT`
/// rewrites the frame to resume the kernel at `resume_rip` on `kernel_rsp`;
/// it is only ever serviced for a caller in ring 3.
pub fn syscall<F: Fn(u64, usize) -> u64>(
    ctx: &mut InterruptContext,
    read_entry: &F,
    cr3: u64,
    resume_rip: u64,
    kernel_rsp: u64,
) -> (e: SyscallEffect)
    requires
        forall|t: u64, i: usize| read_entry.requires((t, i)),
        old(ctx).rax == SYS_EXIT ==> old(ctx).cs & 3 == 3,
    ensures
        old(ctx).rax == SYS_PRINT ==> e == SyscallEffect::Print(old(ctx).rdi as u8) && *final(ctx)
            == returning(*old(ctx), 0),
        old(ctx).rax == SYS_EXIT ==> e == SyscallEffect::Exit && *final(ctx) == resumed(
            *old(ctx),
            resume_rip,
            kernel_rsp,
        ),
        old(ctx).rax == SYS_WRITE ==> forall|mem: spec_fn(u64, int) -> u64| #[trigger]
            reads_as(read_entry, mem) ==> (e, *final(ctx)) == write_outcome(
                *old(ctx),
                true,
                user_range_spec(mem, cr3 & ADDR_MASK, old(ctx).rdi, old(ctx).rsi),
            ),
        old(ctx).rax == SYS_WRITE_UNCHECKED ==> (e, *final(ctx)) == write_outcome(
            *old(ctx),
            false,
            true,
        ),
        !(1 <= old(ctx).rax <= 4) ==> e == SyscallEffect::Unknown(old(ctx).rax) && *final(ctx)
            == returning(*old(ctx), u64::MAX),
{
    let number = ctx.rax;
    if number == SYS_PRINT {
        ctx.rax = 0;
        SyscallEffect::Print(ctx.rdi as u8)
    } else if number == SYS_EXIT {
        resume_kernel(ctx, resume_rip, kernel_rsp);
        SyscallEffect::Exit
    } else if number == SYS_WRITE {
        sys_write(ctx, true, read_entry, cr3)
    } else if number == SYS_WRITE_UNCHECKED {
        sys_write(ctx, false, read_entry, cr3)
    } else {
        ctx.rax = u64::MAX;
        SyscallEffect::Unknown(number)
    }
}

/// Decode the page-fault error code: bit 0 tells a protection violation from a
/// non-present page, bit 1 a write from a read.
pub fn describe_page_fault(code: u64) -> (s: &'static str)
    ensures
        code & 1 == 0 && code & 2 == 0 ==> s@ == "read from a non-present page"@,
        code & 1 == 0 && code & 2 != 0 ==> s@ == "write to a non-present page"@,
        code & 1 != 0 && code & 2 == 0 ==> s@ == "read that violated page protection"@,
        code & 1 != 0 && code & 2 != 0 ==> s@ == "write that violated page protection"@,
{
    let present = code & 1 != 0;
    let write = code & 2 != 0;
    if !present && !write {
        "read from a non-present page"
    } else if !present && write {
        "write to a non-present page"
    } else if present && !write {
        "read that violated page protection"
    } else {
        "write that violated page protection"
    }
}

/// The bytes the most recent `SYS_WRITE` emitted.
pub struct WriteCapture {
    buf: [u8; 256],
    len: usize,
}

impl View for WriteCapture {
    type V = Seq<u8>;

    closed spec fn view(&self) -> Seq<u8> {
        self.buf@.take(self.len as int)
    }
}

impl WriteCapture {
    /// Every byte of the capture buffer, whether or not it is part of the
    /// last write.
    pub closed spec fn stored(&self) -> Seq<u8> {
        self.buf@
    }

    /// The capture's storage is in shape.
    pub closed spec fn wf(&self) -> bool {
        self.len <= MAX_WRITE && self.buf@.len() == MAX_WRITE
    }

    /// An empty capture, its whole buffer zero.
    pub fn new() -> (c: WriteCapture)
        ensures
            c.wf(),
            c@ == Seq::<u8>::empty(),
            c.stored() == Seq::new(MAX_WRITE as nat, |i: int| 0u8),
    {
        let c = WriteCapture { buf: [0u8; 256], len: 0 };
        proof {
            assert(c@ =~= Seq::<u8>::empty());
            assert(c.buf@ =~= Seq::new(MAX_WRITE as nat, |i: int| 0u8));
        }
        c
    }

    /// Record what a write emitted: its bytes, at most `MAX_WRITE` of them.
    pub fn record(&mut self, bytes: &[u8])
        requires
            old(self).wf(),
            bytes@.len() <= MAX_WRITE,
        ensures
            final(self).wf(),
            final(self)@ == bytes@,
    {
        self.len = 0;
        let mut i: usize = 0;
        while i < bytes.len()
            invariant
                i <= bytes@.len() <= MAX_WRITE,
                self.buf@.len() == MAX_WRITE,
                self.len == 0,
                forall|j: int| 0 <= j < i ==> #[trigger] self.buf@[j] == bytes@[j],
            decreases bytes@.len() - i,
        {
            self.buf[i] = bytes[i];
            i = i + 1;
        }
        self.len = bytes.len();
        proof {
            assert(self@ =~= bytes@);
        }
    }
}

/// Clear the capture, bytes and length, so a stale value cannot pass for
/// a fresh one and nothing captured stays resident.
pub fn reset_last_write(cap: &mut WriteCapture)
    requires
        old(cap).wf(),
    ensures
        final(cap).wf(),
        final(cap)@ == Seq::<u8>::empty(),
        final(cap).stored() == Seq::new(MAX_WRITE as nat, |i: int| 0u8),
{
    let mut i: usize = 0;
    while i < MAX_WRITE
        invariant
            i <= MAX_WRITE,
            cap.buf@.len() == MAX_WRITE,
            cap.len <= MAX_WRITE,
            forall|j: int| 0 <= j < i ==> #[trigger] cap.buf@[j] == 0,
        decreases MAX_WRITE - i,
    {
        cap.buf[i] = 0;
        i = i + 1;
    }
    cap.len = 0;
    proof {
        assert(cap@ =~= Seq::<u8>::empty());
        assert(cap.buf@ =~= Seq::new(MAX_WRITE as nat, |i: int| 0u8));
    }
}

/// Copy the captured bytes into `out`, as many as fit, and return how many.
pub fn last_write_into(cap: &WriteCapture, out: &mut [u8]) -> (n: usize)
    requires
        cap.wf(),
    ensures
        n == if cap@.len() < old(out)@.len() {
            cap@.len()
        } else {
            old(out)@.len() as nat
        },
        final(out)@.len() == old(out)@.len(),
        final(out)@.take(n as int) == cap@.take(n as int),
        final(out)@.skip(n as int) == old(out)@.skip(n as int),
{
    let n = if cap.len < out.len() {
        cap.len
    } else {
        out.len()
    };
    let mut i: usize = 0;
    while i < n
        invariant
            i <= n,
            n <= cap.len,
            n <= out@.len(),
            cap.wf(),
            out@.len() == old(out)@.len(),
            forall|j: int| 0 <= j < i ==> #[trigger] out@[j] == cap.buf@[j],
            forall|j: int| n <= j < out@.len() ==> #[trigger] out@[j] == old(out)@[j],
        decreases n - i,
    {
        out[i] = cap.buf[i];
        i = i + 1;
    }
    proof {
        assert(out@.take(n as int) =~= cap@.take(n as int));
        assert(out@.skip(n as int) =~= old(out)@.skip(n as int));
    }
    n
}

} // verus!

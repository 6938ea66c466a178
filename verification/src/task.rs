//! Tasks: a task is a stack and the stack pointer its execution is parked at.
//! A new task's stack is prepared so that the first switch into it — six
//! register pops and a `ret` — lands in the start-up trampoline with the
//! task's entry point in `r15`. Switching itself is the caller's part.
use vstd::prelude::*;
use crate::multiboot::le_u64;

verus! {

/// Bytes of each task's stack.
pub const STACK_SIZE: usize = 16384;
/// Bytes of the parked frame: r15, r14, r13, r12, rbx, rbp, return address.
pub const FRAME_BYTES: u64 = 56;

/// The top of a stack whose lowest byte is at `base`: its end, rounded down to
/// a 16-byte boundary, as the System V ABI wants the stack at a call.
pub open spec fn stack_top(base: u64) -> int {
    let end = base + STACK_SIZE;
    end - end % 16
}

/// The eight little-endian bytes of `v`.
pub open spec fn le64_bytes(v: u64) -> Seq<u8> {
    seq![
        (v % 0x100) as u8,
        ((v / 0x100) % 0x100) as u8,
        ((v / 0x1_0000) % 0x100) as u8,
        ((v / 0x100_0000) % 0x100) as u8,
        ((v / 0x1_0000_0000) % 0x100) as u8,
        ((v / 0x100_0000_0000) % 0x100) as u8,
        ((v / 0x1_0000_0000_0000) % 0x100) as u8,
        ((v / 0x100_0000_0000_0000) % 0x100) as u8,
    ]
}

/// The parked frame of a new task, lowest address first: `entry` in the r15
/// slot, zeros for r14, r13, r12, rbx and rbp, then `trampoline` as the
/// return address.
pub open spec fn frame_bytes(entry: u64, trampoline: u64) -> Seq<u8> {
    le64_bytes(entry) + le64_bytes(0) + le64_bytes(0) + le64_bytes(0) + le64_bytes(0) + le64_bytes(0)
        + le64_bytes(trampoline)
}

/// A schedulable task: its id, its parked stack pointer, and the stack that
/// pointer lies in, which the task owns for as long as it can run.
pub struct Task {
    pub id: u64,
    pub saved_sp: u64,
    pub stack: Vec<u8>,
}

/// Append the little-endian bytes of `v`.
fn push_le64(out: &mut Vec<u8>, v: u64)
    ensures
        final(out)@ == old(out)@ + le64_bytes(v),
{
    out.push((v % 0x100) as u8);
    out.push(((v / 0x100) % 0x100) as u8);
    out.push(((v / 0x1_0000) % 0x100) as u8);
    out.push(((v / 0x100_0000) % 0x100) as u8);
    out.push(((v / 0x1_0000_0000) % 0x100) as u8);
    out.push(((v / 0x100_0000_0000) % 0x100) as u8);
    out.push(((v / 0x1_0000_0000_0000) % 0x100) as u8);
    out.push(((v / 0x100_0000_0000_0000) % 0x100) as u8);
    proof {
        assert(out@ =~= old(out)@ + le64_bytes(v));
    }
}

/// The bytes of a new task's parked frame.
fn frame(entry: u64, trampoline: u64) -> (f: Vec<u8>)
    ensures
        f@ == frame_bytes(entry, trampoline),
{
    let mut f: Vec<u8> = Vec::new();
    push_le64(&mut f, entry);
    push_le64(&mut f, 0);
    push_le64(&mut f, 0);
    push_le64(&mut f, 0);
    push_le64(&mut f, 0);
    push_le64(&mut f, 0);
    push_le64(&mut f, trampoline);
    f
}

/// Copy `bytes` into `stack` at `off`.
fn store(stack: &mut Vec<u8>, off: usize, bytes: &Vec<u8>)
    requires
        off + bytes@.len() <= old(stack)@.len(),
    ensures
        final(stack)@ == old(stack)@.subrange(0, off as int) + bytes@ + old(stack)@.subrange(
            off + bytes@.len(),
            old(stack)@.len() as int,
        ),
{
    let _total = stack.len();
    let mut i: usize = 0;
    while i < bytes.len()
        invariant
            i <= bytes@.len(),
            off + bytes@.len() <= old(stack)@.len(),
            old(stack)@.len() <= usize::MAX,
            stack@.len() == old(stack)@.len(),
            forall|j: int| 0 <= j < off ==> #[trigger] stack@[j] == old(stack)@[j],
            forall|j: int|
                off + bytes@.len() <= j < stack@.len() ==> #[trigger] stack@[j] == old(stack)@[j],
            forall|j: int| off <= j < off + i ==> #[trigger] stack@[j] == bytes@[j - off],
        decreases bytes@.len() - i,
    {
        stack.set(off + i, bytes[i]);
        i = i + 1;
    }
    proof {
        assert(stack@ =~= old(stack)@.subrange(0, off as int) + bytes@ + old(stack)@.subrange(
            off + bytes@.len(),
            old(stack)@.len() as int,
        ));
    }
}

/// Reading back the eight bytes of `v` gives `v`.
pub proof fn lemma_le64_roundtrip(s: Seq<u8>, off: int, v: u64)
    requires
        0 <= off,
        off + 8 <= s.len(),
        s.subrange(off, off + 8) == le64_bytes(v),
    ensures
        le_u64(s, off) == v,
{
    let b = le64_bytes(v);
    assert(s[off] == b[0] && s[off + 1] == b[1] && s[off + 2] == b[2] && s[off + 3] == b[3]);
    assert(s[off + 4] == b[4] && s[off + 5] == b[5] && s[off + 6] == b[6] && s[off + 7] == b[7]);
    assert(v == v % 0x100 + 0x100 * ((v / 0x100) % 0x100) + 0x1_0000 * ((v / 0x1_0000) % 0x100)
        + 0x100_0000 * ((v / 0x100_0000) % 0x100) + 0x1_0000_0000 * ((v / 0x1_0000_0000) % 0x100)
        + 0x100_0000_0000 * ((v / 0x100_0000_0000) % 0x100) + 0x1_0000_0000_0000 * ((v
        / 0x1_0000_0000_0000) % 0x100) + 0x100_0000_0000_0000 * ((v / 0x100_0000_0000_0000) % 0x100))
        by (bit_vector);
}

impl Task {
    /// Make task `id` from `stack`, a fresh stack of `STACK_SIZE` bytes that
    /// starts at address `base`: the parked frame goes just under the stack's
    /// 16-byte aligned top, so that the first switch into the task pops it and
    /// returns into `trampoline` with `entry` in `r15`, leaving the stack
    /// pointer exactly at the aligned top.
    pub fn new(id: u64, stack: Vec<u8>, base: u64, entry: u64, trampoline: u64) -> (t: Task)
        requires
            stack@.len() == STACK_SIZE,
            base + STACK_SIZE <= u64::MAX,
        ensures
            t.id == id,
            t.saved_sp == stack_top(base) - FRAME_BYTES,
            (t.saved_sp + FRAME_BYTES) % 16 == 0,
            ({
                let off = t.saved_sp - base;
                &&& base <= t.saved_sp
                &&& off + FRAME_BYTES <= STACK_SIZE
                &&& t.stack@ == stack@.subrange(0, off) + frame_bytes(entry, trampoline)
                    + stack@.subrange(off + FRAME_BYTES, STACK_SIZE as int)
                &&& le_u64(t.stack@, off) == entry
                &&& le_u64(t.stack@, off + 48) == trampoline
            }),
    {
        let end = base + STACK_SIZE as u64;
        let top = end & !0xFu64;
        assert(top == end - end % 16) by (bit_vector)
            requires
                top == end & !0xFu64,
        ;
        let saved_sp = top - FRAME_BYTES;
        let off = (saved_sp - base) as usize;
        let mut stack = stack;
        let f = frame(entry, trampoline);
        store(&mut stack, off, &f);
        proof {
            let o = off as int;
            let fb = frame_bytes(entry, trampoline);
            assert(stack@.subrange(o, o + 8) =~= le64_bytes(entry));
            assert(stack@.subrange(o + 48, o + 56) =~= le64_bytes(trampoline));
            lemma_le64_roundtrip(stack@, o, entry);
            lemma_le64_roundtrip(stack@, o + 48, trampoline);
        }
        Task { id, saved_sp, stack }
    }
}

} // verus!

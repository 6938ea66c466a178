//! The Global Descriptor Table the kernel installs for ring 3: the null
//! descriptor, flat 64-bit code and data segments for ring 0 and ring 3, and
//! the 16-byte system descriptor of the Task State Segment, whose `rsp0` is
//! the stack the CPU switches to when an interrupt drags execution from ring 3
//! back to ring 0. Loading the table (`lgdt`, `ltr`) is the caller's part.
use vstd::prelude::*;

verus! {

/// Ring-0 code selector.
pub const KERNEL_CODE: u16 = 0x08;
/// Ring-0 data/stack selector.
pub const KERNEL_DATA: u16 = 0x10;
/// Ring-3 code selector (used as `0x18 | 3`).
pub const USER_CODE: u16 = 0x18;
/// Ring-3 data/stack selector (used as `0x20 | 3`).
pub const USER_DATA: u16 = 0x20;
/// The TSS descriptor's selector; it occupies slots 5 and 6.
pub const TSS_SELECTOR: u16 = 0x28;
/// Slots in the table: null, kernel code, kernel data, user code, user data,
/// and the two halves of the TSS descriptor.
pub const GDT_LEN: usize = 7;
/// The table's limit as `lgdt` takes it: its size in bytes minus one.
pub const GDT_LIMIT: u16 = 55;
/// The size of a 64-bit TSS in bytes.
pub const TSS_SIZE: u16 = 104;

/// Ring-0 code: executable (43), code/data (44), present (47), 64-bit (53).
pub const KERNEL_CODE_DESCRIPTOR: u64 = 0x0020_9800_0000_0000;
/// Ring-0 data: writable (41), code/data (44), present (47).
pub const KERNEL_DATA_DESCRIPTOR: u64 = 0x0000_9200_0000_0000;
/// Ring-3 code: the ring-0 code descriptor with DPL 3 (bits 45..46).
pub const USER_CODE_DESCRIPTOR: u64 = 0x0020_F800_0000_0000;
/// Ring-3 data: the ring-0 data descriptor with DPL 3.
pub const USER_DATA_DESCRIPTOR: u64 = 0x0000_F200_0000_0000;

/// The base address a TSS system descriptor `(low, high)` holds, gathered
/// from its five pieces.
pub open spec fn descriptor_base(low: u64, high: u64) -> int {
    ((low >> 16u64) & 0xffff) as int + ((low >> 32u64) & 0xff) as int * 0x1_0000 + (low >> 56u64) as int
        * 0x100_0000 + (high & 0xffff_ffff) as int * 0x1_0000_0000
}

/// The 20-bit limit a system descriptor's low half holds.
pub open spec fn descriptor_limit(low: u64) -> int {
    (low & 0xffff) as int + ((low >> 48u64) & 0xf) as int * 0x1_0000
}

/// The system descriptor of a TSS at `base` with byte limit `limit`: type 9
/// (available 64-bit TSS), DPL 0, present, the base split across bits
/// 16..39 and 56..63 of the low half and the whole high half, the limit across
/// bits 0..15 and 48..51.
pub fn tss_descriptor(base: u64, limit: u64) -> (d: (u64, u64))
    ensures
        descriptor_base(d.0, d.1) == base,
        descriptor_limit(d.0) == limit % 0x10_0000,
        (d.0 >> 40u64) & 0xf == 9,
        (d.0 >> 44u64) & 0x7 == 0,
        (d.0 >> 47u64) & 1 == 1,
        (d.0 >> 52u64) & 0xf == 0,
        d.1 >> 32u64 == 0,
{
    let low: u64 = (limit & 0xffff) | ((base & 0xffff) << 16u64) | (((base >> 16u64) & 0xff)
        << 32u64) | (0x9u64 << 40u64) | (1u64 << 47u64) | (((limit >> 16u64) & 0xf) << 48u64) | (((
    base >> 24u64) & 0xff) << 56u64);
    let high: u64 = (base >> 32u64) & 0xffff_ffff;
    proof {
        let l = low;
        assert((l >> 16u64) & 0xffff == base & 0xffff && (l >> 32u64) & 0xff == (base >> 16u64)
            & 0xff && l >> 56u64 == (base >> 24u64) & 0xff && (l >> 40u64) & 0xf == 9 && (l >> 44u64)
            & 0x7 == 0 && (l >> 47u64) & 1 == 1 && (l >> 52u64) & 0xf == 0 && l & 0xffff == limit
            & 0xffff && (l >> 48u64) & 0xf == (limit >> 16u64) & 0xf) by (bit_vector)
            requires
                l == (limit & 0xffff) | ((base & 0xffff) << 16u64) | (((base >> 16u64) & 0xff)
                    << 32u64) | (0x9u64 << 40u64) | (1u64 << 47u64) | (((limit >> 16u64) & 0xf)
                    << 48u64) | (((base >> 24u64) & 0xff) << 56u64),
        ;
        assert(high & 0xffff_ffff == base >> 32u64 && high >> 32u64 == 0) by (bit_vector)
            requires
                high == (base >> 32u64) & 0xffff_ffff,
        ;
        assert(base & 0xffff == base % 0x1_0000 && (base >> 16u64) & 0xff == (base / 0x1_0000)
            % 0x100 && (base >> 24u64) & 0xff == (base / 0x100_0000) % 0x100 && base >> 32u64 == base
            / 0x1_0000_0000) by (bit_vector);
        assert(limit & 0xffff == limit % 0x1_0000 && (limit >> 16u64) & 0xf == (limit / 0x1_0000)
            % 0x10) by (bit_vector);
        let b = base as int;
        assert(b % 0x1_0000 + ((b / 0x1_0000) % 0x100) * 0x1_0000 + ((b / 0x100_0000) % 0x100)
            * 0x100_0000 + (b / 0x1_0000_0000) * 0x1_0000_0000 == b) by (nonlinear_arith)
            requires
                b >= 0,
        ;
        let m = limit as int;
        assert(m % 0x1_0000 + ((m / 0x1_0000) % 0x10) * 0x1_0000 == m % 0x10_0000)
            by (nonlinear_arith)
            requires
                m >= 0,
        ;
    }
    (low, high)
}

/// The table for a TSS at `tss_base` with byte limit `tss_limit`, slot by slot.
pub fn gdt_table(tss_base: u64, tss_limit: u64) -> (t: Vec<u64>)
    ensures
        t@.len() == GDT_LEN,
        t@[0] == 0,
        t@[1] == KERNEL_CODE_DESCRIPTOR,
        t@[2] == KERNEL_DATA_DESCRIPTOR,
        t@[3] == USER_CODE_DESCRIPTOR,
        t@[4] == USER_DATA_DESCRIPTOR,
        descriptor_base(t@[5], t@[6]) == tss_base,
        descriptor_limit(t@[5]) == tss_limit % 0x10_0000,
        (t@[5] >> 40u64) & 0xf == 9,
        (t@[5] >> 44u64) & 0x7 == 0,
        (t@[5] >> 47u64) & 1 == 1,
        (t@[5] >> 52u64) & 0xf == 0,
        t@[6] >> 32u64 == 0,
{
    let (lo, hi) = tss_descriptor(tss_base, tss_limit);
    let code: u64 = (1u64 << 43u64) | (1u64 << 44u64) | (1u64 << 47u64) | (1u64 << 53u64);
    let data: u64 = (1u64 << 41u64) | (1u64 << 44u64) | (1u64 << 47u64);
    let user_code: u64 = code | (3u64 << 45u64);
    let user_data: u64 = data | (3u64 << 45u64);
    assert(code == 0x0020_9800_0000_0000u64 && data == 0x0000_9200_0000_0000u64) by (bit_vector)
        requires
            code == (1u64 << 43u64) | (1u64 << 44u64) | (1u64 << 47u64) | (1u64 << 53u64),
            data == (1u64 << 41u64) | (1u64 << 44u64) | (1u64 << 47u64),
    ;
    assert(user_code == 0x0020_F800_0000_0000u64 && user_data == 0x0000_F200_0000_0000u64)
        by (bit_vector)
        requires
            code == 0x0020_9800_0000_0000u64,
            data == 0x0000_9200_0000_0000u64,
            user_code == code | (3u64 << 45u64),
            user_data == data | (3u64 << 45u64),
    ;
    let mut t: Vec<u64> = Vec::new();
    t.push(0);
    t.push(code);
    t.push(data);
    t.push(user_code);
    t.push(user_data);
    t.push(lo);
    t.push(hi);
    t
}

/// The 64-bit Task State Segment: the ring-0/1/2 stack pointers, the seven
/// interrupt stacks, and the offset of the I/O permission bitmap.
#[derive(Clone, Copy, Debug, PartialEq, Eq, Structural)]
pub struct Tss {
    pub reserved0: u32,
    pub rsp0: u64,
    pub rsp1: u64,
    pub rsp2: u64,
    pub reserved1: u64,
    pub ist1: u64,
    pub ist2: u64,
    pub ist3: u64,
    pub ist4: u64,
    pub ist5: u64,
    pub ist6: u64,
    pub ist7: u64,
    pub reserved2: u64,
    pub reserved3: u16,
    pub iomap_base: u16,
}

/// The all-zero TSS.
pub open spec fn zero_tss() -> Tss {
    Tss {
        reserved0: 0,
        rsp0: 0,
        rsp1: 0,
        rsp2: 0,
        reserved1: 0,
        ist1: 0,
        ist2: 0,
        ist3: 0,
        ist4: 0,
        ist5: 0,
        ist6: 0,
        ist7: 0,
        reserved2: 0,
        reserved3: 0,
        iomap_base: 0,
    }
}

impl Tss {
    /// A TSS with every field zero.
    pub fn new() -> (t: Tss)
        ensures
            t == zero_tss(),
    {
        Tss {
            reserved0: 0,
            rsp0: 0,
            rsp1: 0,
            rsp2: 0,
            reserved1: 0,
            ist1: 0,
            ist2: 0,
            ist3: 0,
            ist4: 0,
            ist5: 0,
            ist6: 0,
            ist7: 0,
            reserved2: 0,
            reserved3: 0,
            iomap_base: 0,
        }
    }

    /// The kernel's TSS: ring-0 entries switch to `priv_top`, the first
    /// interrupt stack is `df_top`, and the bitmap offset equals the TSS size,
    /// meaning no I/O bitmap (ring 3 gets no port access).
    pub fn for_kernel(priv_top: u64, df_top: u64) -> (t: Tss)
        ensures
            t == (Tss { rsp0: priv_top, ist1: df_top, iomap_base: TSS_SIZE, ..zero_tss() }),
    {
        let mut t = Tss::new();
        t.rsp0 = priv_top;
        t.ist1 = df_top;
        t.iomap_base = TSS_SIZE;
        t
    }
}

/// The self-test's check of what `str` and the TSS read back: the task
/// register holds the TSS selector, and `rsp0` is a non-null 16-byte aligned
/// stack pointer.
pub fn tables_loaded(tr: u16, rsp0: u64) -> (ok: bool)
    ensures
        ok == (tr == TSS_SELECTOR && rsp0 != 0 && rsp0 % 16 == 0),
{
    tr == TSS_SELECTOR && rsp0 != 0 && rsp0 % 16 == 0
}

} // verus!

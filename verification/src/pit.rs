//! The 8253/8254 Programmable Interval Timer: channel 0 counts down from a
//! reload value at 1.193182 MHz and raises IRQ0 each time it reaches zero, so
//! the reload value chooses the tick rate. Also the kernel's tick counter.
use vstd::prelude::*;
use crate::port::{PortWrite, write_of, port_write};

verus! {

/// Channel 0's data port: the counter wired to IRQ0.
pub const PIT_CH0_DATA: u16 = 0x40;
/// The mode/command register.
pub const PIT_COMMAND: u16 = 0x43;
/// The PIT's input frequency in Hz.
pub const PIT_FREQ_HZ: u32 = 1_193_182;
/// Channel 0, low byte then high byte, mode 2 (rate generator), binary.
pub const MODE_RATE_GENERATOR: u8 = 0x34;

/// The full reload value for `target_hz`: the input frequency divided by the
/// rate (a rate of 0 taken as 1), clamped to the 16-bit counter's range
/// 1..=65536.
pub open spec fn divisor_spec(target_hz: u32) -> int {
    let t: int = if target_hz == 0 { 1 } else { target_hz as int };
    let d = PIT_FREQ_HZ as int / t;
    if d < 1 {
        1
    } else if d > 0x1_0000 {
        0x1_0000
    } else {
        d
    }
}

/// The reload value to program for `target_hz`.
pub fn divisor(target_hz: u32) -> (d: u32)
    ensures
        d == divisor_spec(target_hz),
        1 <= d <= 0x1_0000,
{
    let t: u32 = if target_hz == 0 {
        1
    } else {
        target_hz
    };
    let d = PIT_FREQ_HZ / t;
    if d < 1 {
        1
    } else if d > 0x1_0000 {
        0x1_0000
    } else {
        d
    }
}

/// The rate a reload value actually produces, in Hz.
pub fn rate_hz(divisor: u32) -> (r: u32)
    requires
        divisor >= 1,
    ensures
        r == PIT_FREQ_HZ / divisor,
{
    PIT_FREQ_HZ / divisor
}

/// The programming sequence for reload value `divisor` (1..=65536): the mode
/// byte, then the counter's low and high bytes. The counter is 16 bits wide
/// and reads a written 0 as 65536.
pub open spec fn program_spec(divisor: int) -> Seq<PortWrite> {
    let v = divisor % 0x1_0000;
    seq![
        write_of(PIT_COMMAND, MODE_RATE_GENERATOR),
        write_of(PIT_CH0_DATA, (v % 256) as u8),
        write_of(PIT_CH0_DATA, (v / 256) as u8),
    ]
}

/// Program channel 0 to raise IRQ0 at about `target_hz`: the reload value,
/// and the port writes that set it, in the order the chip requires.
pub fn init(target_hz: u32) -> (r: (u32, Vec<PortWrite>))
    ensures
        r.0 == divisor_spec(target_hz),
        r.1@ == program_spec(r.0 as int),
{
    let full = divisor(target_hz);
    let reload: u16 = (full % 0x1_0000) as u16;
    let low: u8 = (reload & 0xff) as u8;
    let high: u8 = (reload >> 8u16) as u8;
    assert(reload & 0xff == reload % 256 && reload >> 8u16 == reload / 256) by (bit_vector);
    let mut w: Vec<PortWrite> = Vec::new();
    w.push(port_write(PIT_COMMAND, MODE_RATE_GENERATOR));
    w.push(port_write(PIT_CH0_DATA, low));
    w.push(port_write(PIT_CH0_DATA, high));
    proof {
        assert(w@ =~= program_spec(full as int));
    }
    (full, w)
}

/// Ticks since the timer came online. The count wraps at 2^64.
pub struct Ticks {
    count: u64,
}

impl Ticks {
    /// The number of ticks counted.
    pub closed spec fn count(&self) -> u64 {
        self.count
    }

    /// No ticks yet.
    pub fn new() -> (t: Ticks)
        ensures
            t.count() == 0,
    {
        Ticks { count: 0 }
    }

}

/// Count one timer interrupt.
pub fn handle_interrupt(t: &mut Ticks)
    ensures
        final(t).count() == (old(t).count() + 1) % 0x1_0000_0000_0000_0000,
{
    t.count = t.count.wrapping_add(1);
}

/// Ticks observed so far: the kernel's coarse clock.
pub fn ticks(t: &Ticks) -> (n: u64)
    ensures
        n == t.count(),
{
    t.count
}

} // verus!

//! The two chained 8259 PICs: remapping IRQ 0..15 to vectors 0x20..0x2F, the
//! masks, and end-of-interrupt. Each function gives the port writes to make,
//! in order.
use vstd::prelude::*;
use crate::port::{PortWrite, write_of, port_write};

verus! {

/// Master PIC command port.
pub const PIC1_COMMAND: u16 = 0x20;
/// Master PIC data port.
pub const PIC1_DATA: u16 = 0x21;
/// Slave PIC command port.
pub const PIC2_COMMAND: u16 = 0xa0;
/// Slave PIC data port.
pub const PIC2_DATA: u16 = 0xa1;
/// The vector the master's IRQ0 is remapped to.
pub const PIC1_OFFSET: u8 = 0x20;
/// The vector the slave's first IRQ (IRQ8) is remapped to.
pub const PIC2_OFFSET: u8 = 0x28;
/// ICW1: begin initialisation, ICW4 follows.
pub const CMD_INIT: u8 = 0x11;
/// ICW4: 8086/88 mode.
pub const MODE_8086: u8 = 0x01;
/// The end-of-interrupt command.
pub const CMD_EOI: u8 = 0x20;
/// The unused POST port a throwaway write to gives an old PIC time to latch.
pub const WAIT_PORT: u16 = 0x80;

/// The initialisation handshake: ICW1 to both chips, the vector offsets,
/// the cascade wiring (slave on the master's line 2), 8086 mode, each write
/// followed by a wait write; then the masks, which leave only the timer (IRQ0)
/// and the keyboard (IRQ1) unmasked.
pub open spec fn init_spec() -> Seq<PortWrite> {
    seq![
        write_of(PIC1_COMMAND, CMD_INIT), write_of(WAIT_PORT, 0),
        write_of(PIC2_COMMAND, CMD_INIT), write_of(WAIT_PORT, 0),
        write_of(PIC1_DATA, PIC1_OFFSET), write_of(WAIT_PORT, 0),
        write_of(PIC2_DATA, PIC2_OFFSET), write_of(WAIT_PORT, 0),
        write_of(PIC1_DATA, 4), write_of(WAIT_PORT, 0),
        write_of(PIC2_DATA, 2), write_of(WAIT_PORT, 0),
        write_of(PIC1_DATA, MODE_8086), write_of(WAIT_PORT, 0),
        write_of(PIC2_DATA, MODE_8086), write_of(WAIT_PORT, 0),
        write_of(PIC1_DATA, 0xFC), write_of(PIC2_DATA, 0xFF),
    ]
}

/// The writes that remap and mask both PICs, in order.
pub fn init() -> (w: Vec<PortWrite>)
    ensures
        w@ == init_spec(),
{
    let mut w: Vec<PortWrite> = Vec::new();
    w.push(port_write(PIC1_COMMAND, CMD_INIT));
    w.push(port_write(WAIT_PORT, 0));
    w.push(port_write(PIC2_COMMAND, CMD_INIT));
    w.push(port_write(WAIT_PORT, 0));
    w.push(port_write(PIC1_DATA, PIC1_OFFSET));
    w.push(port_write(WAIT_PORT, 0));
    w.push(port_write(PIC2_DATA, PIC2_OFFSET));
    w.push(port_write(WAIT_PORT, 0));
    w.push(port_write(PIC1_DATA, 4));
    w.push(port_write(WAIT_PORT, 0));
    w.push(port_write(PIC2_DATA, 2));
    w.push(port_write(WAIT_PORT, 0));
    w.push(port_write(PIC1_DATA, MODE_8086));
    w.push(port_write(WAIT_PORT, 0));
    w.push(port_write(PIC2_DATA, MODE_8086));
    w.push(port_write(WAIT_PORT, 0));
    let mask: u8 = 0xff & !((1u8 << 1u8) | (1u8 << 0u8));
    assert(mask == 0xFC) by (bit_vector)
        requires
            mask == 0xff & !((1u8 << 1u8) | (1u8 << 0u8)),
    ;
    w.push(port_write(PIC1_DATA, mask));
    w.push(port_write(PIC2_DATA, 0xff));
    proof {
        assert(w@ =~= init_spec());
    }
    w
}

/// Acknowledge `irq`: an IRQ of the slave (8 and up) needs an EOI to both
/// chips, slave first; one of the master only to the master.
pub fn send_eoi(irq: u8) -> (w: Vec<PortWrite>)
    ensures
        irq >= 8 ==> w@ == seq![write_of(PIC2_COMMAND, CMD_EOI), write_of(PIC1_COMMAND, CMD_EOI)],
        irq < 8 ==> w@ == seq![write_of(PIC1_COMMAND, CMD_EOI)],
{
    let mut w: Vec<PortWrite> = Vec::new();
    if irq >= 8 {
        w.push(port_write(PIC2_COMMAND, CMD_EOI));
    }
    w.push(port_write(PIC1_COMMAND, CMD_EOI));
    proof {
        if irq >= 8 {
            assert(w@ =~= seq![write_of(PIC2_COMMAND, CMD_EOI), write_of(PIC1_COMMAND, CMD_EOI)]);
        } else {
            assert(w@ =~= seq![write_of(PIC1_COMMAND, CMD_EOI)]);
        }
    }
    w
}

} // verus!

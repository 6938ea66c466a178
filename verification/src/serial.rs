//! The 16550 UART on COM1: 38400 baud, 8N1, programmed lazily on first use;
//! a bare line feed goes out as CR LF. Each operation gives the port writes
//! to make and the bytes to transmit; waiting for the transmitter to drain
//! before each byte is the caller's part.
use vstd::prelude::*;
use crate::port::{PortWrite, write_of, port_write};

verus! {

/// The first serial port's base I/O port.
pub const COM1: u16 = 0x3f8;

/// The programming sequence of a UART at `base`: interrupts off, the divisor
/// latch on, divisor 3 (38400 baud), 8 bits / no parity / one stop bit, the
/// FIFOs enabled and cleared, RTS/DSR set.
pub open spec fn init_spec(base: u16) -> Seq<PortWrite> {
    seq![
        write_of((base + 1) as u16, 0x00),
        write_of((base + 3) as u16, 0x80),
        write_of(base, 0x03),
        write_of((base + 1) as u16, 0x00),
        write_of((base + 3) as u16, 0x03),
        write_of((base + 2) as u16, 0xc7),
        write_of((base + 4) as u16, 0x0b),
    ]
}

/// The bytes that go on the wire for `byte`: a line feed is preceded by a
/// carriage return.
pub open spec fn wire_bytes(byte: u8) -> Seq<u8> {
    if byte == 10 {
        seq![13u8, 10u8]
    } else {
        seq![byte]
    }
}

/// What sending one byte takes: the programming writes (only the first time)
/// and the bytes to transmit, in order.
pub struct SendPlan {
    pub writes: Vec<PortWrite>,
    pub transmit: Vec<u8>,
}

/// A UART and whether it has been programmed yet.
pub struct SerialPort {
    base: u16,
    initialised: bool,
}

impl SerialPort {
    /// The UART's base port.
    pub closed spec fn base_port(&self) -> u16 {
        self.base
    }

    /// Whether the UART has been programmed.
    pub closed spec fn is_initialised(&self) -> bool {
        self.initialised
    }

    /// The UART at `base`, not programmed yet.
    pub fn new(base: u16) -> (p: SerialPort)
        ensures
            p.base_port() == base,
            !p.is_initialised(),
    {
        SerialPort { base, initialised: false }
    }

    /// The base port.
    pub fn base(&self) -> (b: u16)
        ensures
            b == self.base_port(),
    {
        self.base
    }

    /// The line-status register, whose bit 5 tells that the transmitter can
    /// take a byte.
    pub fn line_status_port(&self) -> (p: u16)
        requires
            self.base_port() + 5 <= u16::MAX,
        ensures
            p == self.base_port() + 5,
    {
        self.base + 5
    }

    /// The transmitter can take a byte, going by line-status value `status`.
    pub fn is_transmit_empty(status: u8) -> (b: bool)
        ensures
            b == (status & 0x20 != 0),
    {
        status & 0x20 != 0
    }

    /// Program the UART; afterwards it counts as initialised.
    pub fn init(&mut self) -> (w: Vec<PortWrite>)
        requires
            old(self).base_port() + 4 <= u16::MAX,
        ensures
            w@ == init_spec(old(self).base_port()),
            final(self).base_port() == old(self).base_port(),
            final(self).is_initialised(),
    {
        let b = self.base;
        let mut w: Vec<PortWrite> = Vec::new();
        w.push(port_write(b + 1, 0x00));
        w.push(port_write(b + 3, 0x80));
        w.push(port_write(b, 0x03));
        w.push(port_write(b + 1, 0x00));
        w.push(port_write(b + 3, 0x03));
        w.push(port_write(b + 2, 0xc7));
        w.push(port_write(b + 4, 0x0b));
        self.initialised = true;
        proof {
            assert(w@ =~= init_spec(b));
        }
        w
    }

    /// Send one byte: program the UART first if this is the first use, then
    /// transmit the byte, a line feed as CR LF.
    pub fn send(&mut self, byte: u8) -> (plan: SendPlan)
        requires
            old(self).base_port() + 4 <= u16::MAX,
        ensures
            final(self).base_port() == old(self).base_port(),
            final(self).is_initialised(),
            plan.writes@ == if old(self).is_initialised() {
                Seq::<PortWrite>::empty()
            } else {
                init_spec(old(self).base_port())
            },
            plan.transmit@ == wire_bytes(byte),
    {
        let writes = if !self.initialised {
            self.init()
        } else {
            Vec::new()
        };
        let mut transmit: Vec<u8> = Vec::new();
        if byte == 10 {
            transmit.push(13);
        }
        transmit.push(byte);
        proof {
            assert(transmit@ =~= wire_bytes(byte));
        }
        SendPlan { writes, transmit }
    }
}

} // verus!

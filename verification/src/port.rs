//! x86 port-mapped I/O, as data: the byte writes a device's programming
//! sequence consists of. Performing them (`out dx, al`) is the caller's part.
use vstd::prelude::*;

verus! {

/// One byte written to one I/O port.
#[derive(Clone, Copy, Debug, PartialEq, Eq, Structural)]
pub struct PortWrite {
    pub port: u16,
    pub value: u8,
}

/// The write of `value` to `port`.
pub open spec fn write_of(port: u16, value: u8) -> PortWrite {
    PortWrite { port, value }
}

/// Build the write of `value` to `port`.
pub fn port_write(port: u16, value: u8) -> (w: PortWrite)
    ensures
        w == write_of(port, value),
{
    PortWrite { port, value }
}

} // verus!

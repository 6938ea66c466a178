//! Ziran OS kernel logic: the data structures, parsers and decision rules of a
//! small x86-64 teaching kernel, each stated and proved with Verus. The
//! hardware edges (port I/O, control registers, raw memory, the global locks)
//! stand outside this crate and hand it plain values.
use vstd::prelude::*;

pub mod frame_allocator;
pub mod fs;
pub mod fw_cfg;
pub mod gdt;
pub mod heap;
pub mod interrupts;
pub mod keyboard;
pub mod multiboot;
pub mod net;
pub mod paging;
pub mod pic;
pub mod pit;
pub mod port;
pub mod serial;
pub mod shell;
pub mod task;
pub mod usermode;
pub mod vga_buffer;

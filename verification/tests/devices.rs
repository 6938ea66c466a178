use ziran::fw_cfg::{be_u16, be_u32, read_file, read_flag, FwStep, FILE_DIR, MAX_ENTRIES, MAX_ITEM_BYTES};
use ziran::gdt::{gdt_table, tables_loaded, tss_descriptor, Tss, KERNEL_CODE_DESCRIPTOR, TSS_SELECTOR, TSS_SIZE, USER_DATA_DESCRIPTOR};
use ziran::keyboard::{handle_interrupt as key_event, translate, InputRing, Keyboard, LSHIFT_BREAK, LSHIFT_MAKE, RING_CAPACITY, RSHIFT_MAKE};
use ziran::pic::{send_eoi, PIC1_COMMAND, PIC2_COMMAND};
use ziran::pit::{divisor, handle_interrupt as tick, init as pit_init, rate_hz, ticks, Ticks};
use ziran::port::PortWrite;
use ziran::serial::{SerialPort, COM1};
use ziran::task::{Task, FRAME_BYTES, STACK_SIZE};
use ziran::vga_buffer::{attr, clear_screen, Color, Writer, DEFAULT_ATTR};

#[test]
fn keyboard_translates_with_and_without_shift() {
    assert_eq!(translate(0x1e, false), Some('a'));
    assert_eq!(translate(0x1e, true), Some('A'));
    assert_eq!(translate(0x02, true), Some('!'));
    assert_eq!(translate(0x28, true), Some('"'));
    assert_eq!(translate(0x0e, true), Some('\u{8}'));
    assert_eq!(translate(0x1c, false), Some('\n'));
    assert_eq!(translate(0x39, true), Some(' '));
    assert_eq!(translate(0x3b, false), None);
    for code in 0..=255u8 {
        for shift in [false, true] {
            if let Some(c) = translate(code, shift) {
                assert!(c.is_ascii());
            }
        }
    }
}

#[test]
fn keyboard_tracks_shift() {
    let mut k = Keyboard::new();
    assert_eq!(key_event(&mut k, 0x10), Some('q'));
    assert_eq!(key_event(&mut k, LSHIFT_MAKE), None);
    assert!(k.shift_held());
    assert_eq!(key_event(&mut k, 0x10), Some('Q'));
    assert_eq!(key_event(&mut k, 0x90), None);
    assert_eq!(key_event(&mut k, LSHIFT_BREAK), None);
    assert!(!k.shift_held());
    assert_eq!(key_event(&mut k, RSHIFT_MAKE), None);
    assert_eq!(key_event(&mut k, 0x35), Some('?'));
}

#[test]
fn pic_eoi_goes_to_the_right_chips() {
    assert_eq!(send_eoi(1), vec![PortWrite { port: PIC1_COMMAND, value: 0x20 }]);
    assert_eq!(
        send_eoi(12),
        vec![PortWrite { port: PIC2_COMMAND, value: 0x20 }, PortWrite { port: PIC1_COMMAND, value: 0x20 }]
    );
}

#[test]
fn pic_init_masks_all_but_timer_and_keyboard() {
    let w = ziran::pic::init();
    assert_eq!(w.len(), 18);
    assert_eq!(w[0], PortWrite { port: 0x20, value: 0x11 });
    assert_eq!(w[4], PortWrite { port: 0x21, value: 0x20 });
    assert_eq!(w[6], PortWrite { port: 0xa1, value: 0x28 });
    assert_eq!(w[16], PortWrite { port: 0x21, value: 0xFC });
    assert_eq!(w[17], PortWrite { port: 0xa1, value: 0xFF });
}

#[test]
fn pit_divisor_for_100_hz() {
    assert_eq!(divisor(100), 11931);
    assert_eq!(rate_hz(11931), 100);
    let (d, w) = pit_init(100);
    assert_eq!(d, 11931);
    assert_eq!(
        w,
        vec![
            PortWrite { port: 0x43, value: 0x34 },
            PortWrite { port: 0x40, value: (11931 & 0xff) as u8 },
            PortWrite { port: 0x40, value: (11931 >> 8) as u8 },
        ]
    );
}

#[test]
fn pit_divisor_is_clamped() {
    assert_eq!(divisor(0), 0x1_0000);
    assert_eq!(divisor(1), 0x1_0000);
    assert_eq!(divisor(2_000_000), 1);
    let (_, w) = pit_init(1);
    assert_eq!(w[1].value, 0);
    assert_eq!(w[2].value, 0);
}

#[test]
fn ticks_count_and_wrap() {
    let mut t = Ticks::new();
    assert_eq!(ticks(&t), 0);
    tick(&mut t);
    tick(&mut t);
    assert_eq!(ticks(&t), 2);
}

#[test]
fn serial_programs_once_and_sends_crlf() {
    let mut p = SerialPort::new(COM1);
    let first = p.send(b'\n');
    assert_eq!(first.writes.len(), 7);
    assert_eq!(first.writes[1], PortWrite { port: COM1 + 3, value: 0x80 });
    assert_eq!(first.writes[2], PortWrite { port: COM1, value: 0x03 });
    assert_eq!(first.transmit, vec![b'\r', b'\n']);
    let second = p.send(b'x');
    assert!(second.writes.is_empty());
    assert_eq!(second.transmit, vec![b'x']);
    assert_eq!(p.line_status_port(), COM1 + 5);
    assert!(SerialPort::is_transmit_empty(0x20));
    assert!(!SerialPort::is_transmit_empty(0x1f));
}

#[test]
fn tss_descriptor_scatters_the_base() {
    let base = 0xFFFF_8000_1234_5678u64;
    let (lo, hi) = tss_descriptor(base, 103);
    assert_eq!(lo & 0xffff, 103);
    assert_eq!((lo >> 16) & 0xffff, 0x5678);
    assert_eq!((lo >> 32) & 0xff, 0x34);
    assert_eq!((lo >> 40) & 0xf, 9);
    assert_eq!((lo >> 47) & 1, 1);
    assert_eq!(lo >> 56, 0x12);
    assert_eq!(hi, 0xFFFF_8000);
}

#[test]
fn gdt_table_layout() {
    let t = gdt_table(0x1000, 103);
    assert_eq!(t.len(), 7);
    assert_eq!(t[0], 0);
    assert_eq!(t[1], KERNEL_CODE_DESCRIPTOR);
    assert_eq!(t[1], (1 << 43) | (1 << 44) | (1 << 47) | (1 << 53));
    assert_eq!(t[4], USER_DATA_DESCRIPTOR);
    assert_eq!(t[4], (1 << 41) | (1 << 44) | (1 << 47) | (3 << 45));
    assert_eq!(t[6], 0);
    // The TSS descriptor is a system descriptor: S bit and the high flags clear.
    assert_eq!((t[5] >> 44) & 0x7, 0);
    assert_eq!((t[5] >> 52) & 0xf, 0);
    assert_eq!((t[5] >> 40) & 0xf, 9);
}

#[test]
fn kernel_tss_and_self_test_check() {
    let t = Tss::for_kernel(0x9000, 0xA000);
    assert_eq!(t.rsp0, 0x9000);
    assert_eq!(t.ist1, 0xA000);
    assert_eq!(t.iomap_base, TSS_SIZE);
    assert_eq!(Tss::new().rsp0, 0);
    assert!(tables_loaded(TSS_SELECTOR, 0x9000));
    assert!(!tables_loaded(0x08, 0x9000));
    assert!(!tables_loaded(TSS_SELECTOR, 0x9008));
    assert!(!tables_loaded(TSS_SELECTOR, 0));
}

#[test]
fn vga_attribute_packs_colours() {
    assert_eq!(attr(Color::LightGreen, Color::Black), DEFAULT_ATTR);
    assert_eq!(attr(Color::White, Color::Blue), 0x1F);
}

#[test]
fn vga_writes_wrap_and_scroll() {
    let mut w = Writer::new();
    w.write_str("hi\n");
    assert_eq!(w.buffer()[0], b'h');
    assert_eq!(w.buffer()[1], DEFAULT_ATTR);
    assert_eq!(w.buffer()[2], b'i');
    assert_eq!(w.cursor(), (1, 0));
    // A non-ASCII character is drawn as boxes, one per byte.
    w.write_str("é");
    assert_eq!(w.buffer()[160], 0xfe);
    assert_eq!(w.buffer()[162], 0xfe);
    assert_eq!(w.cursor(), (1, 2));
    // Fill the rest of the screen; the first line scrolls away.
    for _ in 0..24 {
        w.write_str("\n");
    }
    assert_eq!(w.cursor(), (24, 0));
    assert_eq!(w.buffer()[0], 0xfe);
    // An 81st character on a row wraps to the next one.
    let mut v = Writer::new();
    for _ in 0..81 {
        v.write_byte(b'x');
    }
    assert_eq!(v.cursor(), (1, 1));
    assert_eq!(v.buffer()[160], b'x');
}

#[test]
fn vga_clear_blanks_everything() {
    let mut w = Writer::new();
    w.write_str("text");
    clear_screen(&mut w);
    assert!(w.buffer().chunks(2).all(|c| c[0] == b' ' && c[1] == DEFAULT_ATTR));
    assert_eq!(w.cursor(), (0, 0));
}

fn dir_entry(size: u32, select: u16, name: &str) -> Vec<u8> {
    let mut e = Vec::new();
    e.extend_from_slice(&size.to_be_bytes());
    e.extend_from_slice(&select.to_be_bytes());
    e.extend_from_slice(&0u16.to_be_bytes());
    let mut field = [0u8; 56];
    field[..name.len()].copy_from_slice(name.as_bytes());
    e.extend_from_slice(&field);
    e
}

#[test]
fn fw_cfg_big_endian_fields() {
    assert_eq!(be_u32(&[0x12, 0x34, 0x56, 0x78]), 0x1234_5678);
    assert_eq!(be_u16(&[0, 0xAB, 0xCD], 1), 0xABCD);
}

#[test]
fn fw_cfg_finds_the_flag() {
    let (mut lk, step) = read_flag();
    assert!(matches!(step, FwStep::Read { select: Some(FILE_DIR), len: 4 }));
    let step = lk.on_data(2u32.to_be_bytes().to_vec());
    assert!(matches!(step, FwStep::Read { select: None, len: 64 }));
    let step = lk.on_data(dir_entry(9, 0x20, "etc/boot-order"));
    assert!(matches!(step, FwStep::Read { select: None, len: 64 }));
    let step = lk.on_data(dir_entry(10, 0x21, "opt/flag"));
    assert!(matches!(step, FwStep::Read { select: Some(0x21), len: 10 }));
    match lk.on_data(b"FLAG{demo}".to_vec()) {
        FwStep::Done(Some(v)) => assert_eq!(v, b"FLAG{demo}".to_vec()),
        other => panic!("unexpected {:?}", other),
    }
}

#[test]
fn fw_cfg_missing_file_is_none() {
    let (mut lk, _) = read_file(b"opt/none");
    lk.on_data(1u32.to_be_bytes().to_vec());
    assert!(matches!(lk.on_data(dir_entry(3, 0x20, "opt/flag")), FwStep::Done(None)));
    let (mut empty, _) = read_file(b"x");
    assert!(matches!(empty.on_data(vec![0, 0, 0, 0]), FwStep::Done(None)));
}

#[test]
fn fw_cfg_caps_garbage_sizes() {
    let (mut lk, _) = read_file(b"big");
    let step = lk.on_data(vec![0xFF; 4]);
    assert!(matches!(step, FwStep::Read { select: None, len: 64 }));
    let step = lk.on_data(dir_entry(u32::MAX, 0x30, "big"));
    assert!(matches!(step, FwStep::Read { select: Some(0x30), len } if len == MAX_ITEM_BYTES));
    assert_eq!(MAX_ENTRIES, 4096);
}

#[test]
fn new_task_stack_frame() {
    let base = 0x10_0008u64;
    let t = Task::new(7, vec![0u8; STACK_SIZE], base, 0xAAAA_BBBB, 0xCCCC_DDDD);
    assert_eq!(t.id, 7);
    let top = (base + STACK_SIZE as u64) & !0xF;
    assert_eq!(t.saved_sp, top - FRAME_BYTES);
    assert_eq!((t.saved_sp + FRAME_BYTES) % 16, 0);
    let off = (t.saved_sp - base) as usize;
    let word = |k: usize| u64::from_le_bytes(t.stack[off + 8 * k..off + 8 * k + 8].try_into().unwrap());
    assert_eq!(word(0), 0xAAAA_BBBB);
    for k in 1..6 {
        assert_eq!(word(k), 0);
    }
    assert_eq!(word(6), 0xCCCC_DDDD);
}

#[test]
fn input_ring_is_fifo() {
    let mut r = InputRing::new();
    assert!(r.push(b'x'));
    assert!(r.push(b'y'));
    assert_eq!(r.pop(), Some(b'x'));
    assert_eq!(r.pop(), Some(b'y'));
    assert_eq!(r.pop(), None);
}

#[test]
fn input_ring_drops_when_full_and_wraps() {
    let mut r = InputRing::new();
    for i in 0..RING_CAPACITY {
        assert!(r.push(i as u8));
    }
    assert!(!r.push(0xAA));
    assert_eq!(r.pop(), Some(0));
    assert!(r.push(0xBB));
    for i in 1..RING_CAPACITY {
        assert_eq!(r.pop(), Some(i as u8));
    }
    assert_eq!(r.pop(), Some(0xBB));
    assert_eq!(r.pop(), None);
}

//! PS/2 keyboard decoding: scancode set 1, US QWERTY. A key press sends its
//! make code; a release sends the same code with the high bit set (its break
//! code). Only the Shift keys' releases matter: they end the shifted state.
//! Reading the data port (0x60) is the caller's part; this module decides
//! what the byte it read means.
use vstd::prelude::*;

verus! {

/// The PS/2 data port a scancode is read from.
pub const DATA_PORT: u16 = 0x60;
/// Left Shift pressed.
pub const LSHIFT_MAKE: u8 = 0x2a;
/// Right Shift pressed.
pub const RSHIFT_MAKE: u8 = 0x36;
/// Left Shift released.
pub const LSHIFT_BREAK: u8 = 0xaa;
/// Right Shift released.
pub const RSHIFT_BREAK: u8 = 0xb6;

/// The (unshifted, shifted) characters of a make code whose output depends on
/// Shift, or `None` for a code outside the mapped block.
pub open spec fn keymap(code: u8) -> Option<(char, char)> {
    match code {
        0x02u8 => Some(('1', '!')),
        0x03u8 => Some(('2', '@')),
        0x04u8 => Some(('3', '#')),
        0x05u8 => Some(('4', '$')),
        0x06u8 => Some(('5', '%')),
        0x07u8 => Some(('6', '^')),
        0x08u8 => Some(('7', '&')),
        0x09u8 => Some(('8', '*')),
        0x0au8 => Some(('9', '(')),
        0x0bu8 => Some(('0', ')')),
        0x0cu8 => Some(('-', '_')),
        0x0du8 => Some(('=', '+')),
        0x10u8 => Some(('q', 'Q')),
        0x11u8 => Some(('w', 'W')),
        0x12u8 => Some(('e', 'E')),
        0x13u8 => Some(('r', 'R')),
        0x14u8 => Some(('t', 'T')),
        0x15u8 => Some(('y', 'Y')),
        0x16u8 => Some(('u', 'U')),
        0x17u8 => Some(('i', 'I')),
        0x18u8 => Some(('o', 'O')),
        0x19u8 => Some(('p', 'P')),
        0x1au8 => Some(('[', '{')),
        0x1bu8 => Some((']', '}')),
        0x1eu8 => Some(('a', 'A')),
        0x1fu8 => Some(('s', 'S')),
        0x20u8 => Some(('d', 'D')),
        0x21u8 => Some(('f', 'F')),
        0x22u8 => Some(('g', 'G')),
        0x23u8 => Some(('h', 'H')),
        0x24u8 => Some(('j', 'J')),
        0x25u8 => Some(('k', 'K')),
        0x26u8 => Some(('l', 'L')),
        0x27u8 => Some((';', ':')),
        0x28u8 => Some(('\'', '"')),
        0x29u8 => Some(('`', '~')),
        0x2bu8 => Some(('\\', '|')),
        0x2cu8 => Some(('z', 'Z')),
        0x2du8 => Some(('x', 'X')),
        0x2eu8 => Some(('c', 'C')),
        0x2fu8 => Some(('v', 'V')),
        0x30u8 => Some(('b', 'B')),
        0x31u8 => Some(('n', 'N')),
        0x32u8 => Some(('m', 'M')),
        0x33u8 => Some((',', '<')),
        0x34u8 => Some(('.', '>')),
        0x35u8 => Some(('/', '?')),
        _ => None,
    }
}

/// The character a make code produces with Shift held or not: Backspace,
/// Enter and Space ignore Shift, the mapped block picks its shifted or
/// unshifted character, every other key produces nothing.
pub open spec fn translate_spec(code: u8, shift: bool) -> Option<char> {
    if code == 0x0e {
        Some('\u{8}')
    } else if code == 0x1c {
        Some('\n')
    } else if code == 0x39 {
        Some(' ')
    } else {
        match keymap(code) {
            Some((lo, hi)) => Some(
                if shift {
                    hi
                } else {
                    lo
                },
            ),
            None => None,
        }
    }
}

/// The US QWERTY layout of set 1, row by row, as the keys sit on the board:
/// the number row from `1` (make code 0x02), the top letter row from `q`
/// (0x10), the home row from `a` (0x1e) and the bottom row from `z` (0x2c).
/// Each key gives its own character without Shift and, with Shift, its
/// capital or its symbol; for a letter, Shift gives the same letter capitalised.
pub proof fn law_us_qwerty_layout(i: int)
    ensures
        0 <= i < 10 ==> translate_spec((0x02 + i) as u8, false) == Some(
            seq!['1', '2', '3', '4', '5', '6', '7', '8', '9', '0'][i],
        ) && translate_spec((0x02 + i) as u8, true) == Some(
            seq!['!', '@', '#', '$', '%', '^', '&', '*', '(', ')'][i],
        ),
        0 <= i < 10 ==> translate_spec((0x10 + i) as u8, false) == Some(
            seq!['q', 'w', 'e', 'r', 't', 'y', 'u', 'i', 'o', 'p'][i],
        ) && translate_spec((0x10 + i) as u8, true) == Some(
            seq!['Q', 'W', 'E', 'R', 'T', 'Y', 'U', 'I', 'O', 'P'][i],
        ),
        0 <= i < 9 ==> translate_spec((0x1e + i) as u8, false) == Some(
            seq!['a', 's', 'd', 'f', 'g', 'h', 'j', 'k', 'l'][i],
        ) && translate_spec((0x1e + i) as u8, true) == Some(
            seq!['A', 'S', 'D', 'F', 'G', 'H', 'J', 'K', 'L'][i],
        ),
        0 <= i < 7 ==> translate_spec((0x2c + i) as u8, false) == Some(
            seq!['z', 'x', 'c', 'v', 'b', 'n', 'm'][i],
        ) && translate_spec((0x2c + i) as u8, true) == Some(
            seq!['Z', 'X', 'C', 'V', 'B', 'N', 'M'][i],
        ),
{
    if 0 <= i < 10 {
        assert(i == 0 || i == 1 || i == 2 || i == 3 || i == 4 || i == 5 || i == 6 || i == 7 || i
            == 8 || i == 9);
    }
}

/// Shift capitalises a letter: wherever a key gives a lower-case letter
/// without Shift, with Shift it gives that letter in upper case, and a key
/// that gives a letter at all gives one either way.
pub proof fn law_shift_capitalises(code: u8)
    ensures
        match (translate_spec(code, false), translate_spec(code, true)) {
            (Some(lo), Some(hi)) => ('a' <= lo <= 'z' ==> hi as u32 + 32 == lo as u32) && ('A' <= hi
                <= 'Z' ==> hi as u32 + 32 == lo as u32),
            (None, None) => true,
            _ => false,
        },
{
}

/// Translate a set-1 make code to a character, honoring Shift. Everything it
/// produces is ASCII.
pub fn translate(code: u8, shift: bool) -> (r: Option<char>)
    ensures
        r == translate_spec(code, shift),
        r matches Some(c) ==> (c as u32) < 128,
{
    if code == 0x0e {
        return Some('\u{8}');
    }
    if code == 0x1c {
        return Some('\n');
    }
    if code == 0x39 {
        return Some(' ');
    }
    let pair: Option<(char, char)> = match code {
        0x02 => Some(('1', '!')),
        0x03 => Some(('2', '@')),
        0x04 => Some(('3', '#')),
        0x05 => Some(('4', '$')),
        0x06 => Some(('5', '%')),
        0x07 => Some(('6', '^')),
        0x08 => Some(('7', '&')),
        0x09 => Some(('8', '*')),
        0x0a => Some(('9', '(')),
        0x0b => Some(('0', ')')),
        0x0c => Some(('-', '_')),
        0x0d => Some(('=', '+')),
        0x10 => Some(('q', 'Q')),
        0x11 => Some(('w', 'W')),
        0x12 => Some(('e', 'E')),
        0x13 => Some(('r', 'R')),
        0x14 => Some(('t', 'T')),
        0x15 => Some(('y', 'Y')),
        0x16 => Some(('u', 'U')),
        0x17 => Some(('i', 'I')),
        0x18 => Some(('o', 'O')),
        0x19 => Some(('p', 'P')),
        0x1a => Some(('[', '{')),
        0x1b => Some((']', '}')),
        0x1e => Some(('a', 'A')),
        0x1f => Some(('s', 'S')),
        0x20 => Some(('d', 'D')),
        0x21 => Some(('f', 'F')),
        0x22 => Some(('g', 'G')),
        0x23 => Some(('h', 'H')),
        0x24 => Some(('j', 'J')),
        0x25 => Some(('k', 'K')),
        0x26 => Some(('l', 'L')),
        0x27 => Some((';', ':')),
        0x28 => Some(('\'', '"')),
        0x29 => Some(('`', '~')),
        0x2b => Some(('\\', '|')),
        0x2c => Some(('z', 'Z')),
        0x2d => Some(('x', 'X')),
        0x2e => Some(('c', 'C')),
        0x2f => Some(('v', 'V')),
        0x30 => Some(('b', 'B')),
        0x31 => Some(('n', 'N')),
        0x32 => Some(('m', 'M')),
        0x33 => Some((',', '<')),
        0x34 => Some(('.', '>')),
        0x35 => Some(('/', '?')),
        _ => None,
    };
    match pair {
        Some((lo, hi)) => Some(
            if shift {
                hi
            } else {
                lo
            },
        ),
        None => None,
    }
}

/// The keyboard's one piece of state: whether a Shift key is held.
pub struct Keyboard {
    shift: bool,
}

impl Keyboard {
    /// Shift is held.
    pub closed spec fn shifted(&self) -> bool {
        self.shift
    }

    /// A keyboard with no key held.
    pub fn new() -> (k: Keyboard)
        ensures
            !k.shifted(),
    {
        Keyboard { shift: false }
    }

    /// Whether a Shift key is held.
    pub fn shift_held(&self) -> (b: bool)
        ensures
            b == self.shifted(),
    {
        self.shift
    }
}

/// Decode one scancode read from the data port: a Shift press or release
/// updates the Shift state and produces nothing, any other release
/// produces nothing, a press produces its character under the current
/// Shift state.
pub fn handle_interrupt(kb: &mut Keyboard, code: u8) -> (r: Option<char>)
    ensures
        (code == LSHIFT_MAKE || code == RSHIFT_MAKE) ==> final(kb).shifted() && r is None,
        (code == LSHIFT_BREAK || code == RSHIFT_BREAK) ==> !final(kb).shifted() && r is None,
        !(code == LSHIFT_MAKE || code == RSHIFT_MAKE || code == LSHIFT_BREAK || code
            == RSHIFT_BREAK) ==> {
            &&& final(kb).shifted() == old(kb).shifted()
            &&& r == if code >= 0x80 {
                None
            } else {
                translate_spec(code, old(kb).shifted())
            }
        },
{
    if code == LSHIFT_MAKE || code == RSHIFT_MAKE {
        kb.shift = true;
        return None;
    }
    if code == LSHIFT_BREAK || code == RSHIFT_BREAK {
        kb.shift = false;
        return None;
    }
    if code >= 0x80 {
        return None;
    }
    translate(code, kb.shift)
}

/// Bytes the input ring holds at most.
pub const RING_CAPACITY: usize = 256;

/// The keyboard input ring: the interrupt handler pushes decoded bytes, the
/// shell pops them, oldest first. A byte pushed while the ring is full is
/// dropped.
pub struct InputRing {
    buf: Vec<u8>,
    head: usize,
    len: usize,
}

impl View for InputRing {
    type V = Seq<u8>;

    closed spec fn view(&self) -> Seq<u8> {
        Seq::new(self.len as nat, |k: int| self.buf@[(self.head + k) % (RING_CAPACITY as int)])
    }
}

impl InputRing {
    /// The ring's storage is in shape.
    pub closed spec fn wf(&self) -> bool {
        &&& self.buf@.len() == RING_CAPACITY
        &&& self.head < RING_CAPACITY
        &&& self.len <= RING_CAPACITY
    }

    /// An empty ring.
    pub fn new() -> (r: InputRing)
        ensures
            r.wf(),
            r@ == Seq::<u8>::empty(),
    {
        let r = InputRing { buf: vec![0u8; RING_CAPACITY], head: 0, len: 0 };
        proof {
            assert(r@ =~= Seq::<u8>::empty());
        }
        r
    }

    /// Queue `byte` behind the others; `false`, and nothing queued, when the
    /// ring is full.
    pub fn push(&mut self, byte: u8) -> (ok: bool)
        requires
            old(self).wf(),
        ensures
            final(self).wf(),
            ok == (old(self)@.len() < RING_CAPACITY),
            ok ==> final(self)@ == old(self)@.push(byte),
            !ok ==> final(self)@ == old(self)@,
    {
        if self.len == RING_CAPACITY {
            return false;
        }
        let slot = (self.head + self.len) % RING_CAPACITY;
        self.buf.set(slot, byte);
        self.len = self.len + 1;
        proof {
            assert(self@ =~= old(self)@.push(byte));
        }
        true
    }

    /// Take the oldest byte, or `None` when the ring is empty.
    pub fn pop(&mut self) -> (r: Option<u8>)
        requires
            old(self).wf(),
        ensures
            final(self).wf(),
            old(self)@.len() == 0 ==> r is None && final(self)@ == old(self)@,
            old(self)@.len() > 0 ==> r == Some(old(self)@[0]) && final(self)@ == old(self)@.drop_first(),
    {
        if self.len == 0 {
            return None;
        }
        let b = self.buf[self.head];
        self.head = (self.head + 1) % RING_CAPACITY;
        self.len = self.len - 1;
        proof {
            assert(self@ =~= old(self)@.drop_first());
        }
        Some(b)
    }
}

} // verus!

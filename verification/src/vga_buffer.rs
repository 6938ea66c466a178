//! VGA text mode: an 80x25 grid of cells, each a character byte and a colour
//! attribute byte (background nibble << 4 | foreground nibble). The writer
//! keeps the cursor and an image of the grid, laid out byte for byte as the
//! hardware buffer at 0xb8000 is; copying the image there is the caller's
//! part.
use vstd::prelude::*;
use vstd::string::StringSliceAdditionalSpecFns;

verus! {

/// Columns on the screen.
pub const BUFFER_WIDTH: usize = 80;
/// Rows on the screen.
pub const BUFFER_HEIGHT: usize = 25;
/// Bytes in the text buffer: two per cell.
pub const BUFFER_BYTES: usize = 4000;
/// Bytes in one row.
pub const ROW_BYTES: usize = 160;
/// Light green on black.
pub const DEFAULT_ATTR: u8 = 0x0A;
/// The glyph that stands in for a byte outside printable ASCII: a filled box.
pub const NON_PRINTABLE: u8 = 0xfe;

/// The 16 colours an attribute nibble can name.
#[derive(Clone, Copy, Debug, PartialEq, Eq, Structural)]
pub enum Color {
    Black,
    Blue,
    Green,
    Cyan,
    Red,
    Magenta,
    Brown,
    LightGray,
    DarkGray,
    LightBlue,
    LightGreen,
    LightCyan,
    LightRed,
    Pink,
    Yellow,
    White,
}

/// The 4-bit code of a colour.
pub open spec fn color_code(c: Color) -> u8 {
    match c {
        Color::Black => 0,
        Color::Blue => 1,
        Color::Green => 2,
        Color::Cyan => 3,
        Color::Red => 4,
        Color::Magenta => 5,
        Color::Brown => 6,
        Color::LightGray => 7,
        Color::DarkGray => 8,
        Color::LightBlue => 9,
        Color::LightGreen => 10,
        Color::LightCyan => 11,
        Color::LightRed => 12,
        Color::Pink => 13,
        Color::Yellow => 14,
        Color::White => 15,
    }
}

impl Color {
    /// The colour's 4-bit code.
    pub fn code(self) -> (v: u8)
        ensures
            v == color_code(self),
    {
        match self {
            Color::Black => 0,
            Color::Blue => 1,
            Color::Green => 2,
            Color::Cyan => 3,
            Color::Red => 4,
            Color::Magenta => 5,
            Color::Brown => 6,
            Color::LightGray => 7,
            Color::DarkGray => 8,
            Color::LightBlue => 9,
            Color::LightGreen => 10,
            Color::LightCyan => 11,
            Color::LightRed => 12,
            Color::Pink => 13,
            Color::Yellow => 14,
            Color::White => 15,
        }
    }
}

/// Pack a foreground and a background colour into an attribute byte.
pub fn attr(fg: Color, bg: Color) -> (a: u8)
    ensures
        a == color_code(bg) * 16 + color_code(fg),
{
    let f = fg.code();
    let b = bg.code();
    let a = (b << 4u8) | f;
    assert(a == b * 16 + f) by (bit_vector)
        requires
            a == (b << 4u8) | f,
            b < 16,
            f < 16,
    ;
    a
}

/// The byte that is drawn for `byte`: printable ASCII and the line feed pass,
/// anything else becomes the filled box.
pub open spec fn glyph(byte: u8) -> u8 {
    if (0x20 <= byte <= 0x7e) || byte == 10 {
        byte
    } else {
        NON_PRINTABLE
    }
}

/// The screen as the writer sees it: the buffer's bytes, the cursor, and the
/// attribute new characters get.
pub struct Screen {
    pub cells: Seq<u8>,
    pub row: int,
    pub col: int,
    pub attr: u8,
}

/// The buffer offset of cell (`row`, `col`)'s character byte.
pub open spec fn cell_offset(row: int, col: int) -> int {
    (row * 80 + col) * 2
}

/// `cells` with cell (`row`, `col`) set to `byte` in attribute `a`.
pub open spec fn put_cell_spec(cells: Seq<u8>, row: int, col: int, byte: u8, a: u8) -> Seq<u8> {
    cells.update(cell_offset(row, col), byte).update(cell_offset(row, col) + 1, a)
}

/// `cells` with row `row` all spaces in attribute `a`.
pub open spec fn blank_row_spec(cells: Seq<u8>, row: int, a: u8) -> Seq<u8> {
    Seq::new(
        cells.len(),
        |k: int|
            if row * 160 <= k < row * 160 + 160 {
                if k % 2 == 0 {
                    32u8
                } else {
                    a
                }
            } else {
                cells[k]
            },
    )
}

/// `cells` with every row moved up by one and the bottom row blank in
/// attribute `a`.
pub open spec fn scroll_spec(cells: Seq<u8>, a: u8) -> Seq<u8> {
    Seq::new(
        cells.len(),
        |k: int|
            if k < 3840 {
                cells[k + 160]
            } else if k % 2 == 0 {
                32u8
            } else {
                a
            },
    )
}

/// A whole screen of spaces in attribute `a`.
pub open spec fn blank_screen(a: u8) -> Seq<u8> {
    Seq::new(
        4000,
        |k: int|
            if k % 2 == 0 {
                32u8
            } else {
                a
            },
    )
}

/// A line break: back to column 0 of the next row, scrolling when the cursor
/// is on the bottom row.
pub open spec fn new_line_spec(s: Screen) -> Screen {
    if s.row + 1 < 25 {
        Screen { row: s.row + 1, col: 0, ..s }
    } else {
        Screen { cells: scroll_spec(s.cells, s.attr), row: 24, col: 0, ..s }
    }
}

/// Writing one byte: a line feed breaks the line; any other byte is drawn at
/// the cursor, after a line break if the row is full, and the cursor moves
/// one column right.
pub open spec fn write_byte_spec(s: Screen, byte: u8) -> Screen {
    if byte == 10 {
        new_line_spec(s)
    } else {
        let t = if s.col >= 80 {
            new_line_spec(s)
        } else {
            s
        };
        Screen { cells: put_cell_spec(t.cells, t.row, t.col, byte, t.attr), col: t.col + 1, ..t }
    }
}

/// Writing `bytes` one after the other, each as its glyph.
pub open spec fn write_bytes_spec(s: Screen, bytes: Seq<u8>) -> Screen
    decreases bytes.len(),
{
    if bytes.len() == 0 {
        s
    } else {
        write_byte_spec(write_bytes_spec(s, bytes.drop_last()), glyph(bytes.last()))
    }
}

/// A well-formed screen: a full buffer, the cursor on a row, at most one past
/// the last column.
pub open spec fn screen_wf(s: Screen) -> bool {
    &&& s.cells.len() == 4000
    &&& 0 <= s.row < 25
    &&& 0 <= s.col <= 80
}

/// The character byte of cell (`row`, `col`) in the buffer `cells`.
pub open spec fn char_at(cells: Seq<u8>, row: int, col: int) -> u8 {
    cells[(row * 80 + col) * 2]
}

/// The attribute byte of cell (`row`, `col`) in the buffer `cells`.
pub open spec fn attr_at(cells: Seq<u8>, row: int, col: int) -> u8 {
    cells[(row * 80 + col) * 2 + 1]
}

proof fn lemma_cell_offsets(row: int, col: int)
    requires
        0 <= row < 25,
        0 <= col < 80,
    ensures
        0 <= (row * 80 + col) * 2,
        (row * 80 + col) * 2 + 1 < 4000,
        (row * 80 + col) * 2 % 2 == 0,
        row < 24 ==> (row * 80 + col) * 2 < 3840 && (row * 80 + col) * 2 + 160 == ((row + 1) * 80
            + col) * 2,
        row == 24 ==> 3840 <= (row * 80 + col) * 2,
{
    assert(0 <= row * 80 <= 24 * 80) by (nonlinear_arith)
        requires
            0 <= row < 25,
    ;
    if row < 24 {
        assert(row * 80 <= 23 * 80) by (nonlinear_arith)
            requires
                0 <= row < 24,
        ;
    }
}

/// Scrolling moves the screen up one row and clears the bottom row: every
/// cell of rows 0 to 23 shows what the cell below it showed, and every cell of
/// row 24 is a space in the writer's attribute, whatever it held before.
pub proof fn law_scroll_moves_up_and_blanks_bottom(cells: Seq<u8>, a: u8)
    requires
        cells.len() == 4000,
    ensures
        scroll_spec(cells, a).len() == 4000,
        forall|col: int|
            0 <= col < 80 ==> #[trigger] char_at(scroll_spec(cells, a), 24, col) == 32u8 && attr_at(
                scroll_spec(cells, a),
                24,
                col,
            ) == a,
        forall|row: int, col: int|
            0 <= row < 24 && 0 <= col < 80 ==> #[trigger] char_at(scroll_spec(cells, a), row, col)
                == char_at(cells, row + 1, col) && attr_at(scroll_spec(cells, a), row, col)
                == attr_at(cells, row + 1, col),
{
    let t = scroll_spec(cells, a);
    assert forall|col: int| 0 <= col < 80 implies #[trigger] char_at(t, 24, col) == 32u8 && attr_at(
        t,
        24,
        col,
    ) == a by {
        lemma_cell_offsets(24, col);
    }
    assert forall|row: int, col: int| 0 <= row < 24 && 0 <= col < 80 implies #[trigger] char_at(
        t,
        row,
        col,
    ) == char_at(cells, row + 1, col) && attr_at(t, row, col) == attr_at(cells, row + 1, col) by {
        lemma_cell_offsets(row, col);
    }
}

/// A line break on the bottom row leaves nothing of the bottom row behind:
/// the cursor is at the start of row 24 and every cell of row 24 is a space in
/// the writer's attribute; elsewhere a line break moves the cursor down a row
/// and changes no cell.
pub proof fn law_new_line_at_bottom(s: Screen)
    requires
        screen_wf(s),
    ensures
        s.row == 24 ==> {
            let t = new_line_spec(s);
            &&& t.row == 24 && t.col == 0 && t.attr == s.attr
            &&& forall|col: int|
                0 <= col < 80 ==> #[trigger] char_at(t.cells, 24, col) == 32u8 && attr_at(
                    t.cells,
                    24,
                    col,
                ) == s.attr
        },
        s.row < 24 ==> new_line_spec(s) == (Screen { row: s.row + 1, col: 0, ..s }),
{
    law_scroll_moves_up_and_blanks_bottom(s.cells, s.attr);
}

/// A cursor over the text buffer and the buffer's image.
pub struct Writer {
    cells: Vec<u8>,
    col: usize,
    row: usize,
    attr: u8,
}

impl View for Writer {
    type V = Screen;

    closed spec fn view(&self) -> Screen {
        Screen { cells: self.cells@, row: self.row as int, col: self.col as int, attr: self.attr }
    }
}

impl Writer {
    /// The writer is well formed.
    pub closed spec fn wf(&self) -> bool {
        screen_wf(self@)
    }

    /// A blank screen in the default colours, the cursor at the top left.
    pub fn new() -> (w: Writer)
        ensures
            w.wf(),
            w@ == (Screen { cells: blank_screen(DEFAULT_ATTR), row: 0, col: 0, attr: DEFAULT_ATTR }),
    {
        let mut cells: Vec<u8> = Vec::new();
        let mut k: usize = 0;
        while k < BUFFER_BYTES
            invariant
                k <= BUFFER_BYTES,
                cells@.len() == k,
                forall|j: int| 0 <= j < k ==> #[trigger] cells@[j] == blank_screen(DEFAULT_ATTR)[j],
            decreases BUFFER_BYTES - k,
        {
            if k % 2 == 0 {
                cells.push(32u8);
            } else {
                cells.push(DEFAULT_ATTR);
            }
            k = k + 1;
        }
        let w = Writer { cells, col: 0, row: 0, attr: DEFAULT_ATTR };
        proof {
            assert(w@.cells =~= blank_screen(DEFAULT_ATTR));
        }
        w
    }

    /// The buffer's bytes, laid out as the hardware buffer is.
    pub fn buffer(&self) -> (b: &[u8])
        ensures
            b@ == self@.cells,
    {
        self.cells.as_slice()
    }

    /// The cursor: the row and column the next character goes to.
    pub fn cursor(&self) -> (rc: (usize, usize))
        ensures
            rc.0 == self@.row,
            rc.1 == self@.col,
    {
        (self.row, self.col)
    }

    /// Write cell (`row`, `col`): a character and its attribute.
    pub fn put_cell(&mut self, row: usize, col: usize, byte: u8, attribute: u8)
        requires
            old(self).wf(),
            row < BUFFER_HEIGHT,
            col < BUFFER_WIDTH,
        ensures
            final(self).wf(),
            final(self)@ == (Screen {
                cells: put_cell_spec(old(self)@.cells, row as int, col as int, byte, attribute),
                ..old(self)@
            }),
    {
        let offset = (row * BUFFER_WIDTH + col) * 2;
        self.cells.set(offset, byte);
        self.cells.set(offset + 1, attribute);
    }

    /// Blank row `row`: spaces in the writer's attribute.
    pub fn blank_row(&mut self, row: usize)
        requires
            old(self).wf(),
            row < BUFFER_HEIGHT,
        ensures
            final(self).wf(),
            final(self)@ == (Screen {
                cells: blank_row_spec(old(self)@.cells, row as int, old(self)@.attr),
                ..old(self)@
            }),
    {
        let ghost start = self@;
        let mut col: usize = 0;
        while col < BUFFER_WIDTH
            invariant
                col <= BUFFER_WIDTH,
                row < BUFFER_HEIGHT,
                self.wf(),
                start.cells.len() == 4000,
                self@.row == start.row,
                self@.col == start.col,
                self@.attr == start.attr,
                forall|k: int|
                    0 <= k < 4000 ==> #[trigger] self@.cells[k] == if row * 160 <= k < row * 160 + 2
                        * col {
                        blank_row_spec(start.cells, row as int, start.attr)[k]
                    } else {
                        start.cells[k]
                    },
            decreases BUFFER_WIDTH - col,
        {
            let a = self.attr;
            let ghost before = self@.cells;
            self.put_cell(row, col, 32u8, a);
            proof {
                let o = cell_offset(row as int, col as int);
                assert(o == row * 160 + 2 * col);
                assert(o % 2 == 0 && (o + 1) % 2 == 1) by (nonlinear_arith)
                    requires
                        o == 2 * (row * 80 + col),
                ;
                assert forall|k: int| 0 <= k < 4000 implies #[trigger] self@.cells[k] == if row * 160
                    <= k < row * 160 + 2 * (col + 1) {
                    blank_row_spec(start.cells, row as int, start.attr)[k]
                } else {
                    start.cells[k]
                } by {
                    if k != o && k != o + 1 {
                        assert(self@.cells[k] == before[k]);
                    } else {
                        assert(row * 160 <= k < row * 160 + 160);
                    }
                }
            }
            col = col + 1;
        }
        proof {
            assert(self@.cells =~= blank_row_spec(start.cells, row as int, start.attr));
        }
    }

    /// Move every row up by one and blank the bottom row; the cursor goes to
    /// the bottom row.
    pub fn scroll_up(&mut self)
        requires
            old(self).wf(),
        ensures
            final(self).wf(),
            final(self)@ == (Screen {
                cells: scroll_spec(old(self)@.cells, old(self)@.attr),
                row: 24,
                ..old(self)@
            }),
    {
        let ghost start = self@;
        let mut k: usize = 0;
        while k < 3840
            invariant
                k <= 3840,
                self.wf(),
                self@.row == start.row,
                self@.col == start.col,
                self@.attr == start.attr,
                forall|j: int|
                    0 <= j < 4000 ==> #[trigger] self@.cells[j] == if j < k {
                        start.cells[j + 160]
                    } else {
                        start.cells[j]
                    },
            decreases 3840 - k,
        {
            let v = self.cells[k + 160];
            self.cells.set(k, v);
            k = k + 1;
        }
        self.blank_row(BUFFER_HEIGHT - 1);
        self.row = BUFFER_HEIGHT - 1;
        proof {
            assert(self@.cells =~= scroll_spec(start.cells, start.attr));
        }
    }

    /// Break the line: column 0 of the next row, scrolling at the bottom.
    pub fn new_line(&mut self)
        requires
            old(self).wf(),
        ensures
            final(self).wf(),
            final(self)@ == new_line_spec(old(self)@),
    {
        self.col = 0;
        if self.row + 1 < BUFFER_HEIGHT {
            self.row = self.row + 1;
        } else {
            self.scroll_up();
        }
    }

    /// Write one byte at the cursor; a line feed breaks the line.
    pub fn write_byte(&mut self, byte: u8)
        requires
            old(self).wf(),
        ensures
            final(self).wf(),
            final(self)@ == write_byte_spec(old(self)@, byte),
    {
        if byte == 10 {
            self.new_line();
        } else {
            if self.col >= BUFFER_WIDTH {
                self.new_line();
            }
            let (r, c, a) = (self.row, self.col, self.attr);
            self.put_cell(r, c, byte, a);
            self.col = self.col + 1;
        }
    }

    /// Blank the whole screen and put the cursor at the top left.
    pub fn clear(&mut self)
        requires
            old(self).wf(),
        ensures
            final(self).wf(),
            final(self)@ == (Screen { cells: blank_screen(old(self)@.attr), row: 0, col: 0, ..old(self)@ }),
    {
        let ghost start = self@;
        let mut row: usize = 0;
        while row < BUFFER_HEIGHT
            invariant
                row <= BUFFER_HEIGHT,
                self.wf(),
                self@.attr == start.attr,
                self@.row == start.row,
                self@.col == start.col,
                forall|k: int|
                    0 <= k < 4000 ==> #[trigger] self@.cells[k] == if k < row * 160 {
                        blank_screen(start.attr)[k]
                    } else {
                        start.cells[k]
                    },
            decreases BUFFER_HEIGHT - row,
        {
            self.blank_row(row);
            row = row + 1;
        }
        self.col = 0;
        self.row = 0;
        proof {
            assert(self@.cells =~= blank_screen(start.attr));
        }
    }

    /// Write `bytes`, each as its glyph: anything outside printable ASCII and
    /// the line feed is drawn as a filled box.
    pub fn write_bytes(&mut self, bytes: &[u8])
        requires
            old(self).wf(),
        ensures
            final(self).wf(),
            final(self)@ == write_bytes_spec(old(self)@, bytes@),
    {
        let ghost start = self@;
        let mut i: usize = 0;
        while i < bytes.len()
            invariant
                i <= bytes@.len(),
                self.wf(),
                self@ == write_bytes_spec(start, bytes@.take(i as int)),
            decreases bytes@.len() - i,
        {
            let byte = bytes[i];
            let out: u8 = if (0x20 <= byte && byte <= 0x7e) || byte == 10 {
                byte
            } else {
                NON_PRINTABLE
            };
            self.write_byte(out);
            proof {
                assert(bytes@.take(i + 1).drop_last() =~= bytes@.take(i as int));
            }
            i = i + 1;
        }
        proof {
            assert(bytes@.take(bytes@.len() as int) =~= bytes@);
        }
    }

    /// Write the bytes of `s` as [`Writer::write_bytes`] does.
    pub fn write_str(&mut self, s: &str)
        requires
            old(self).wf(),
        ensures
            final(self).wf(),
            final(self)@ == write_bytes_spec(old(self)@, s.spec_bytes()),
    {
        self.write_bytes(s.as_bytes());
    }
}

/// Clear the screen and put the cursor at the top left.
pub fn clear_screen(w: &mut Writer)
    requires
        old(w).wf(),
    ensures
        final(w).wf(),
        final(w)@ == (Screen { cells: blank_screen(old(w)@.attr), row: 0, col: 0, ..old(w)@ }),
{
    w.clear();
}

} // verus!

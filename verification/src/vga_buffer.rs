//! The text screen: 25 rows of 80 characters, written from the last row
//! upwards.

use vstd::prelude::*;
use vstd::string::StringSliceAdditionalSpecFns;

verus! {

/// The sixteen colours of the text screen.
#[allow(dead_code)]
#[derive(Clone, Copy, Debug, PartialEq, Eq, Structural)]
pub enum Color {
    Black,
    Blue,
    Green,
    Cyan,
    Red,
    Magenta,
    Brown,
    LightGray,
    DarkGray,
    LightBlue,
    LightGreen,
    LightCyan,
    LightRed,
    Pink,
    Yellow,
    White,
}

impl Color {
    /// The number of the colour, from 0 for black to 15 for white.
    pub open spec fn spec_code(self) -> u8 {
        match self {
            Color::Black => 0,
            Color::Blue => 1,
            Color::Green => 2,
            Color::Cyan => 3,
            Color::Red => 4,
            Color::Magenta => 5,
            Color::Brown => 6,
            Color::LightGray => 7,
            Color::DarkGray => 8,
            Color::LightBlue => 9,
            Color::LightGreen => 10,
            Color::LightCyan => 11,
            Color::LightRed => 12,
            Color::Pink => 13,
            Color::Yellow => 14,
            Color::White => 15,
        }
    }

    /// The number of the colour, from 0 for black to 15 for white.
    #[verifier::when_used_as_spec(spec_code)]
    pub fn code(self) -> (r: u8)
        ensures
            r == self.spec_code(),
            r < 16,
    {
        match self {
            Color::Black => 0,
            Color::Blue => 1,
            Color::Green => 2,
            Color::Cyan => 3,
            Color::Red => 4,
            Color::Magenta => 5,
            Color::Brown => 6,
            Color::LightGray => 7,
            Color::DarkGray => 8,
            Color::LightBlue => 9,
            Color::LightGreen => 10,
            Color::LightCyan => 11,
            Color::LightRed => 12,
            Color::Pink => 13,
            Color::Yellow => 14,
            Color::White => 15,
        }
    }
}

/// Colours of a character: the background in the high four bits, the
/// foreground in the low four.
#[derive(Clone, Copy, Debug, PartialEq, Eq, Structural)]
pub struct ColorCode(pub u8);

impl ColorCode {
    /// The colour code for `foreground` on `background`.
    pub fn new(foreground: Color, background: Color) -> (r: ColorCode)
        ensures
            r.0 == background.code() * 16 + foreground.code(),
    {
        let b: u8 = background.code();
        let f: u8 = foreground.code();
        assert((b << 4) | f == b * 16 + f) by (bit_vector)
            requires
                b < 16,
                f < 16,
        ;
        ColorCode((b << 4) | f)
    }
}

/// A cell of the screen.
#[derive(Clone, Copy, Debug, PartialEq, Eq, Structural)]
pub struct ScreenChar {
    pub ascii_char: u8,
    pub color_code: ColorCode,
}

/// Number of rows of the screen.
pub const BUFFER_HEIGHT: usize = 25;

/// Number of columns of the screen.
pub const BUFFER_WIDTH: usize = 80;

/// Number of cells of the screen.
pub const BUFFER_CELLS: usize = 2000;

/// Index of the first cell of the last row.
pub const LAST_ROW: usize = 1920;

/// The byte shown for a byte that cannot be printed.
pub const UNPRINTABLE: u8 = 0xfe;

/// The cells of a screen, row by row, and the column that the next
/// character goes to.
pub struct Screen {
    pub cells: Seq<ScreenChar>,
    pub column: nat,
    pub color_code: ColorCode,
}

impl Screen {
    /// The screen has all its cells, and the column lies in a row or just
    /// behind it.
    pub open spec fn wf(self) -> bool {
        self.cells.len() == BUFFER_CELLS && self.column <= BUFFER_WIDTH
    }

    /// An empty cell.
    pub open spec fn blank(self) -> ScreenChar {
        ScreenChar { ascii_char: 0x20, color_code: self.color_code }
    }

    /// The cell in `row` and `col`.
    pub open spec fn cell(self, row: int, col: int) -> ScreenChar {
        self.cells[row * BUFFER_WIDTH + col]
    }

    /// The screen after a line feed: every row has moved up by one, the
    /// first row is gone, the last row is empty, and writing goes on in the
    /// first column.
    pub open spec fn new_line(self) -> Screen {
        Screen {
            cells: self.cells.skip(BUFFER_WIDTH as int) + Seq::new(BUFFER_WIDTH as nat, |i: int| self.blank()),
            column: 0,
            color_code: self.color_code,
        }
    }

    /// The screen after `byte` was written: a line feed for the byte 10;
    /// any other byte goes to the last row at the column, after a line feed
    /// where the row is full, and the column moves on.
    pub open spec fn write_byte(self, byte: u8) -> Screen {
        if byte == 0x0a {
            self.new_line()
        } else {
            let at = if self.column >= BUFFER_WIDTH {
                self.new_line()
            } else {
                self
            };
            Screen {
                cells: at.cells.update(
                    LAST_ROW + at.column,
                    ScreenChar { ascii_char: byte, color_code: self.color_code },
                ),
                column: at.column + 1,
                color_code: self.color_code,
            }
        }
    }

    /// The byte that is written for `byte` of a string: the byte itself
    /// where it is a line feed or can be printed, else a filled box.
    pub open spec fn shown(byte: u8) -> u8 {
        if (0x20 <= byte <= 0x7e) || byte == 0x0a {
            byte
        } else {
            UNPRINTABLE
        }
    }

    /// The screen after the bytes of a string were written one by one.
    pub open spec fn write_bytes(self, bytes: Seq<u8>) -> Screen
        decreases bytes.len(),
    {
        if bytes.len() == 0 {
            self
        } else {
            self.write_bytes(bytes.drop_last()).write_byte(Self::shown(bytes.last()))
        }
    }
}

/// Writing keeps the screen whole and the column within a row.
pub proof fn lemma_write_keeps_wf(screen: Screen, byte: u8)
    requires
        screen.wf(),
    ensures
        screen.new_line().wf(),
        screen.write_byte(byte).wf(),
        screen.new_line().color_code == screen.color_code,
        screen.write_byte(byte).color_code == screen.color_code,
{
}

/// A line feed moves each row up by one and empties the last row.
pub proof fn lemma_new_line_rows(screen: Screen, row: int, col: int)
    requires
        screen.wf(),
        0 <= row < BUFFER_HEIGHT,
        0 <= col < BUFFER_WIDTH,
    ensures
        screen.new_line().cell(row, col) == if row < BUFFER_HEIGHT - 1 {
            screen.cell(row + 1, col)
        } else {
            screen.blank()
        },
{
}

/// Writes to the text screen.
pub struct Writer {
    column_position: usize,
    color_code: ColorCode,
    buffer: Vec<ScreenChar>,
}

impl Writer {
    /// What the screen shows and where writing goes on.
    pub closed spec fn screen(&self) -> Screen {
        Screen { cells: self.buffer@, column: self.column_position as nat, color_code: self.color_code }
    }

    /// The screen is whole.
    pub open spec fn wf(&self) -> bool {
        self.screen().wf()
    }

    /// A writer on an empty screen, in the first column.
    pub fn new(color_code: ColorCode) -> (r: Writer)
        ensures
            r.wf(),
            r.screen().column == 0,
            r.screen().color_code == color_code,
            r.screen().cells == Seq::new(BUFFER_CELLS as nat, |i: int| r.screen().blank()),
    {
        let blank = ScreenChar { ascii_char: 0x20, color_code };
        let mut buffer: Vec<ScreenChar> = Vec::new();
        let mut i: usize = 0;
        while i < BUFFER_CELLS
            invariant
                0 <= i <= BUFFER_CELLS,
                buffer@.len() == i,
                forall|k: int| 0 <= k < i ==> buffer@[k] == blank,
            decreases BUFFER_CELLS - i,
        {
            buffer.push(blank);
            i = i + 1;
        }
        let r = Writer { column_position: 0, color_code, buffer };
        proof {
            assert(r.screen().cells =~= Seq::new(BUFFER_CELLS as nat, |i: int| r.screen().blank()));
        }
        r
    }

    /// The cell in `row` and `col`.
    pub fn read(&self, row: usize, col: usize) -> (r: ScreenChar)
        requires
            self.wf(),
            row < BUFFER_HEIGHT,
            col < BUFFER_WIDTH,
        ensures
            r == self.screen().cell(row as int, col as int),
    {
        self.buffer[row * BUFFER_WIDTH + col]
    }

    /// The column that the next character goes to.
    pub fn column(&self) -> (r: usize)
        ensures
            r == self.screen().column,
    {
        self.column_position
    }

    /// Moves every row up by one, empties the last row and goes to its
    /// first column.
    fn new_line(&mut self)
        requires
            old(self).wf(),
        ensures
            final(self).wf(),
            final(self).screen() == old(self).screen().new_line(),
    {
        let ghost before = self.buffer@;
        let mut i: usize = 0;
        while i < LAST_ROW
            invariant
                0 <= i <= LAST_ROW,
                self.buffer@.len() == BUFFER_CELLS,
                self.color_code == old(self).color_code,
                self.column_position == old(self).column_position,
                before == old(self).buffer@,
                forall|k: int| 0 <= k < i ==> self.buffer@[k] == before[k + BUFFER_WIDTH],
                forall|k: int| i <= k < BUFFER_CELLS ==> self.buffer@[k] == before[k],
            decreases LAST_ROW - i,
        {
            let moved: ScreenChar = self.buffer[i + BUFFER_WIDTH];
            self.buffer.set(i, moved);
            i = i + 1;
        }
        let blank = ScreenChar { ascii_char: 0x20, color_code: self.color_code };
        while i < BUFFER_CELLS
            invariant
                LAST_ROW <= i <= BUFFER_CELLS,
                self.buffer@.len() == BUFFER_CELLS,
                self.color_code == old(self).color_code,
                self.column_position == old(self).column_position,
                before == old(self).buffer@,
                blank == old(self).screen().blank(),
                forall|k: int| 0 <= k < LAST_ROW ==> self.buffer@[k] == before[k + BUFFER_WIDTH],
                forall|k: int| LAST_ROW <= k < i ==> self.buffer@[k] == blank,
            decreases BUFFER_CELLS - i,
        {
            self.buffer.set(i, blank);
            i = i + 1;
        }
        self.column_position = 0;
        proof {
            assert(self.buffer@ =~= old(self).screen().new_line().cells);
        }
    }

    /// Writes one byte: a line feed for the byte 10, any other byte into
    /// the last row.
    pub fn write_byte(&mut self, byte: u8)
        requires
            old(self).wf(),
        ensures
            final(self).wf(),
            final(self).screen() == old(self).screen().write_byte(byte),
    {
        if byte == 0x0a {
            self.new_line();
        } else {
            if self.column_position >= BUFFER_WIDTH {
                self.new_line();
            }
            let col: usize = self.column_position;
            self.buffer.set(LAST_ROW + col, ScreenChar { ascii_char: byte, color_code: self.color_code });
            self.column_position = col + 1;
        }
    }

    /// Writes the bytes of `s` one by one, a filled box in place of each
    /// byte that is neither a line feed nor printable.
    pub fn write_string(&mut self, s: &str)
        requires
            old(self).wf(),
        ensures
            final(self).wf(),
            final(self).screen() == old(self).screen().write_bytes(s.spec_bytes()),
    {
        let bytes: &[u8] = s.as_bytes();
        let n: usize = bytes.len();
        let mut i: usize = 0;
        while i < n
            invariant
                0 <= i <= n,
                n == bytes@.len(),
                self.wf(),
                self.screen() == old(self).screen().write_bytes(bytes@.take(i as int)),
            decreases n - i,
        {
            let b: u8 = bytes[i];
            proof {
                assert(bytes@.take(i + 1).drop_last() =~= bytes@.take(i as int));
                assert(bytes@.take(i + 1).last() == b);
            }
            if (0x20 <= b && b <= 0x7e) || b == 0x0a {
                self.write_byte(b);
            } else {
                self.write_byte(UNPRINTABLE);
            }
            i = i + 1;
        }
        proof {
            assert(bytes@.take(n as int) =~= bytes@);
        }
    }
}

} // verus!

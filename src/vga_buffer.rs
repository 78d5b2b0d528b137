use vstd::prelude::*;
use vstd::string::StringSliceAdditionalSpecFns;

verus! {

/// The sixteen colors of the text-mode palette.
#[derive(Clone, Copy, Debug, PartialEq, Eq, Structural)]
pub enum Color {
    Black,
    Blue,
    Green,
    Cyan,
    Red,
    Magenta,
    Brown,
    LightGray,
    DarkGray,
    LightBlue,
    LightGreen,
    LightCyan,
    LightRed,
    Pink,
    Yellow,
    White,
}

/// The 4-bit hardware value of a palette color.
pub open spec fn color_value(c: Color) -> nat {
    match c {
        Color::Black => 0,
        Color::Blue => 1,
        Color::Green => 2,
        Color::Cyan => 3,
        Color::Red => 4,
        Color::Magenta => 5,
        Color::Brown => 6,
        Color::LightGray => 7,
        Color::DarkGray => 8,
        Color::LightBlue => 9,
        Color::LightGreen => 10,
        Color::LightCyan => 11,
        Color::LightRed => 12,
        Color::Pink => 13,
        Color::Yellow => 14,
        Color::White => 15,
    }
}

impl Color {
    /// The 4-bit hardware value of this color.
    pub fn value(self) -> (r: u8)
        ensures
            r as nat == color_value(self),
            r < 16,
    {
        match self {
            Color::Black => 0,
            Color::Blue => 1,
            Color::Green => 2,
            Color::Cyan => 3,
            Color::Red => 4,
            Color::Magenta => 5,
            Color::Brown => 6,
            Color::LightGray => 7,
            Color::DarkGray => 8,
            Color::LightBlue => 9,
            Color::LightGreen => 10,
            Color::LightCyan => 11,
            Color::LightRed => 12,
            Color::Pink => 13,
            Color::Yellow => 14,
            Color::White => 15,
        }
    }
}

/// A foreground/background pair packed into one attribute byte:
/// background in the high nibble, foreground in the low nibble.
#[derive(Clone, Copy, Debug, PartialEq, Eq, Structural)]
pub struct ColorCode(pub u8);

impl ColorCode {
    pub fn new(foreground: Color, background: Color) -> (r: ColorCode)
        ensures
            r.0 as nat == color_value(background) * 16 + color_value(foreground),
    {
        let f = foreground.value();
        let b = background.value();
        let packed = (b << 4u8) | f;
        assert(packed == b * 16 + f) by (bit_vector)
            requires
                f < 16u8,
                b < 16u8,
                packed == (b << 4u8) | f,
        ;
        ColorCode(packed)
    }
}


/// Number of text rows on the screen.
pub const BUFFER_HEIGHT: usize = 25;

/// Number of character cells in one row.
pub const BUFFER_WIDTH: usize = 80;

/// Number of cells in the whole grid.
pub const BUFFER_CELLS: usize = 2000;

/// One cell of the text grid: a character byte and its attribute byte.
#[derive(Clone, Copy, Debug, PartialEq, Eq, Structural)]
pub struct ScreenChar {
    pub ascii_character: u8,
    pub color_code: ColorCode,
}

/// The cell that a cleared position holds: a space in the given colors.
pub open spec fn blank(color: ColorCode) -> ScreenChar {
    ScreenChar { ascii_character: 32, color_code: color }
}

/// Abstract state of a writer: cursor column on the last row, current
/// colors, and the grid in row-major order.
pub struct WriterState {
    pub column: nat,
    pub color: ColorCode,
    pub grid: Seq<ScreenChar>,
}

/// Index of the cell at `row`, `col` in the row-major grid.
pub open spec fn cell_index(row: int, col: int) -> int {
    row * BUFFER_WIDTH + col
}

/// The state after one scroll: every row moves up by one, the last row is
/// blank in the current colors, and the cursor returns to column 0.
pub open spec fn scrolled(s: WriterState) -> WriterState {
    WriterState {
        column: 0,
        color: s.color,
        grid: s.grid.subrange(BUFFER_WIDTH as int, BUFFER_CELLS as int) + Seq::new(
            BUFFER_WIDTH as nat,
            |i: int| blank(s.color),
        ),
    }
}

/// The state after drawing `b` at the cursor on the last row.
pub open spec fn drawn(s: WriterState, b: u8) -> WriterState {
    WriterState {
        column: s.column + 1,
        color: s.color,
        grid: s.grid.update(
            cell_index(BUFFER_HEIGHT - 1, s.column as int),
            ScreenChar { ascii_character: b, color_code: s.color },
        ),
    }
}

/// The state after writing one byte: a newline scrolls; any other byte
/// scrolls first when the row is full, then is drawn.
pub open spec fn after_byte(s: WriterState, b: u8) -> WriterState {
    if b == 10 {
        scrolled(s)
    } else if s.column >= BUFFER_WIDTH {
        drawn(scrolled(s), b)
    } else {
        drawn(s, b)
    }
}

/// The state after writing the bytes of `bs` in order.
pub open spec fn after_bytes(s: WriterState, bs: Seq<u8>) -> WriterState
    decreases bs.len(),
{
    if bs.len() == 0 {
        s
    } else {
        after_byte(after_bytes(s, bs.drop_last()), bs.last())
    }
}

/// A text-mode console that appends bytes on its last row and scrolls.
pub struct Writer {
    column_position: usize,
    color_code: ColorCode,
    chars: Vec<ScreenChar>,
}

impl View for Writer {
    type V = WriterState;

    closed spec fn view(&self) -> WriterState {
        WriterState {
            column: self.column_position as nat,
            color: self.color_code,
            grid: self.chars@,
        }
    }
}

impl Writer {
    /// The grid has its full size and the cursor never passes the row's end.
    pub open spec fn wf(&self) -> bool {
        &&& self@.grid.len() == BUFFER_CELLS
        &&& self@.column <= BUFFER_WIDTH
    }

    /// A writer over a blank grid in the given colors, cursor at column 0.
    pub fn new(color_code: ColorCode) -> (w: Writer)
        ensures
            w.wf(),
            w@.column == 0,
            w@.color == color_code,
            w@.grid == Seq::new(BUFFER_CELLS as nat, |i: int| blank(color_code)),
    {
        let mut chars: Vec<ScreenChar> = Vec::new();
        let mut i: usize = 0;
        while i < BUFFER_CELLS
            invariant
                i <= BUFFER_CELLS,
                chars@.len() == i,
                forall|k: int| 0 <= k < i ==> chars@[k] == blank(color_code),
            decreases BUFFER_CELLS - i,
        {
            chars.push(ScreenChar { ascii_character: 0x20u8, color_code });
            i = i + 1;
        }
        let w = Writer { column_position: 0, color_code, chars };
        assert(w@.grid =~= Seq::new(BUFFER_CELLS as nat, |i: int| blank(color_code)));
        w
    }

    /// Fills row `row` with blanks in the current colors.
    fn clear_row(&mut self, row: usize)
        requires
            old(self).wf(),
            row < BUFFER_HEIGHT,
        ensures
            final(self).wf(),
            final(self).column_position == old(self).column_position,
            final(self).color_code == old(self).color_code,
            final(self).chars@.len() == old(self).chars@.len(),
            forall|k: int|
                0 <= k < BUFFER_CELLS ==> #[trigger] final(self).chars@[k] == if cell_index(
                    row as int,
                    0,
                ) <= k < cell_index(row as int + 1, 0) {
                    blank(old(self).color_code)
                } else {
                    old(self).chars@[k]
                },
    {
        let blank_char = ScreenChar { ascii_character: 0x20u8, color_code: self.color_code };
        let start: usize = row * BUFFER_WIDTH;
        let mut col: usize = 0;
        while col < BUFFER_WIDTH
            invariant
                self.wf(),
                self.column_position == old(self).column_position,
                self.color_code == old(self).color_code,
                blank_char == blank(self.color_code),
                start == cell_index(row as int, 0),
                row < BUFFER_HEIGHT,
                col <= BUFFER_WIDTH,
                forall|k: int|
                    0 <= k < BUFFER_CELLS ==> #[trigger] self.chars@[k] == if start <= k < start
                        + col {
                        blank(old(self).color_code)
                    } else {
                        old(self).chars@[k]
                    },
            decreases BUFFER_WIDTH - col,
        {
            self.chars.set(start + col, blank_char);
            col = col + 1;
        }
    }

    /// Scrolls the grid up by one row, blanks the last row in the current
    /// colors and returns the cursor to column 0.
    pub fn new_line(&mut self)
        requires
            old(self).wf(),
        ensures
            final(self).wf(),
            final(self)@ == scrolled(old(self)@),
    {
        let mut i: usize = 0;
        while i < BUFFER_CELLS - BUFFER_WIDTH
            invariant
                self.wf(),
                self.column_position == old(self).column_position,
                self.color_code == old(self).color_code,
                i <= BUFFER_CELLS - BUFFER_WIDTH,
                forall|k: int|
                    0 <= k < BUFFER_CELLS ==> #[trigger] self.chars@[k] == if k < i {
                        old(self).chars@[k + BUFFER_WIDTH]
                    } else {
                        old(self).chars@[k]
                    },
            decreases BUFFER_CELLS - BUFFER_WIDTH - i,
        {
            let c = self.chars[i + BUFFER_WIDTH];
            self.chars.set(i, c);
            i = i + 1;
        }
        self.clear_row(BUFFER_HEIGHT - 1);
        self.column_position = 0;
        assert(self@.grid =~= scrolled(old(self)@).grid);
    }

    /// Appends one byte: a newline scrolls; any other byte is drawn at the
    /// cursor in the current colors, after a scroll when the row is full.
    pub fn write_byte(&mut self, byte: u8)
        requires
            old(self).wf(),
        ensures
            final(self).wf(),
            final(self)@ == after_byte(old(self)@, byte),
    {
        if byte == 0x0au8 {
            self.new_line();
        } else {
            if self.column_position >= BUFFER_WIDTH {
                self.new_line();
            }
            let row: usize = BUFFER_HEIGHT - 1;
            let col: usize = self.column_position;
            let c = ScreenChar { ascii_character: byte, color_code: self.color_code };
            self.chars.set(row * BUFFER_WIDTH + col, c);
            self.column_position = self.column_position + 1;
        }
    }

    /// Appends every byte of `s` in order, as `write_byte` does; no byte is
    /// checked or converted.
    pub fn write_str(&mut self, s: &str)
        requires
            old(self).wf(),
        ensures
            final(self).wf(),
            final(self)@ == after_bytes(old(self)@, s.spec_bytes()),
    {
        let bytes = s.as_bytes();
        let mut i: usize = 0;
        while i < bytes.len()
            invariant
                self.wf(),
                i <= bytes@.len(),
                bytes@ == s.spec_bytes(),
                self@ == after_bytes(old(self)@, bytes@.take(i as int)),
            decreases bytes@.len() - i,
        {
            let b = bytes[i];
            self.write_byte(b);
            assert(bytes@.take(i as int + 1).drop_last() =~= bytes@.take(i as int));
            i = i + 1;
        }
        assert(bytes@.take(i as int) =~= bytes@);
    }

    /// Scrolls once per row, which leaves every cell blank in the current
    /// colors and the cursor at column 0.
    pub fn clear_screen(&mut self)
        requires
            old(self).wf(),
        ensures
            final(self).wf(),
            final(self)@.column == 0,
            final(self)@.color == old(self)@.color,
            forall|k: int|
                0 <= k < BUFFER_CELLS ==> #[trigger] final(self)@.grid[k] == blank(
                    old(self)@.color,
                ),
    {
        let mut i: usize = 0;
        while i < BUFFER_HEIGHT
            invariant
                self.wf(),
                i <= BUFFER_HEIGHT,
                self@.color == old(self)@.color,
                i > 0 ==> self@.column == 0,
                forall|k: int|
                    cell_index(BUFFER_HEIGHT - i, 0) <= k < BUFFER_CELLS ==> #[trigger] self@.grid[k]
                        == blank(old(self)@.color),
            decreases BUFFER_HEIGHT - i,
        {
            self.new_line();
            i = i + 1;
        }
    }

    /// Column of the cursor on the last row.
    pub fn column_position(&self) -> (r: usize)
        ensures
            r == self@.column,
    {
        self.column_position
    }

    /// Colors that the next byte is drawn in.
    pub fn color_code(&self) -> (r: ColorCode)
        ensures
            r == self@.color,
    {
        self.color_code
    }

    /// The cell at `row`, `col`.
    pub fn char_at(&self, row: usize, col: usize) -> (r: ScreenChar)
        requires
            self.wf(),
            row < BUFFER_HEIGHT,
            col < BUFFER_WIDTH,
        ensures
            r == self@.grid[cell_index(row as int, col as int)],
    {
        self.chars[row * BUFFER_WIDTH + col]
    }
}

/// Writing bytes from column 0 that hold no newline and do not pass the end
/// of the row draws them in order on the last row, with no scroll.
proof fn lemma_fill_last_row(s: WriterState, bs: Seq<u8>)
    requires
        s.column == 0,
        s.grid.len() == BUFFER_CELLS,
        bs.len() <= BUFFER_WIDTH,
        forall|i: int| 0 <= i < bs.len() ==> bs[i] != 10,
    ensures
        after_bytes(s, bs).column == bs.len(),
        after_bytes(s, bs).color == s.color,
        after_bytes(s, bs).grid.len() == BUFFER_CELLS,
        forall|k: int|
            0 <= k < BUFFER_CELLS ==> #[trigger] after_bytes(s, bs).grid[k] == if cell_index(
                BUFFER_HEIGHT - 1,
                0,
            ) <= k < cell_index(BUFFER_HEIGHT - 1, bs.len() as int) {
                ScreenChar {
                    ascii_character: bs[k - cell_index(BUFFER_HEIGHT - 1, 0)],
                    color_code: s.color,
                }
            } else {
                s.grid[k]
            },
    decreases bs.len(),
{
    if bs.len() > 0 {
        lemma_fill_last_row(s, bs.drop_last());
    }
}

/// A newline always costs exactly one scroll, wherever the cursor is; and
/// from column 0, a full row of bytes without newlines followed by one more
/// such byte costs exactly one scroll, taken just before the extra byte is
/// drawn: the full row ends up one row above the last, and the extra byte
/// starts the last row, which is otherwise blank.
pub proof fn lemma_scroll_on_overflow(s: WriterState, bs: Seq<u8>)
    requires
        s.grid.len() == BUFFER_CELLS,
    ensures
        after_byte(s, 10) == scrolled(s),
        (s.column == 0 && bs.len() == BUFFER_WIDTH + 1 && forall|i: int|
            0 <= i < bs.len() ==> bs[i] != 10) ==> {
            let t = after_bytes(s, bs);
            &&& t.column == 1
            &&& t.color == s.color
            &&& t.grid.len() == BUFFER_CELLS
            &&& forall|r: int, c: int|
                0 <= r < BUFFER_HEIGHT - 2 && 0 <= c < BUFFER_WIDTH ==> #[trigger] t.grid[cell_index(
                    r,
                    c,
                )] == s.grid[cell_index(r + 1, c)]
            &&& forall|c: int|
                0 <= c < BUFFER_WIDTH ==> #[trigger] t.grid[cell_index(BUFFER_HEIGHT - 2, c)]
                    == ScreenChar { ascii_character: bs[c], color_code: s.color }
            &&& t.grid[cell_index(BUFFER_HEIGHT - 1, 0)] == ScreenChar {
                ascii_character: bs[BUFFER_WIDTH as int],
                color_code: s.color,
            }
            &&& forall|c: int|
                1 <= c < BUFFER_WIDTH ==> #[trigger] t.grid[cell_index(BUFFER_HEIGHT - 1, c)]
                    == blank(s.color)
        },
{
    if s.column == 0 && bs.len() == BUFFER_WIDTH + 1 && forall|i: int|
        0 <= i < bs.len() ==> bs[i] != 10 {
        let row = bs.take(BUFFER_WIDTH as int);
        lemma_fill_last_row(s, row);
        assert(bs.drop_last() =~= row);
        let t0 = after_bytes(s, row);
        let t = after_bytes(s, bs);
        assert(t == drawn(scrolled(t0), bs[BUFFER_WIDTH as int]));
        assert forall|r: int, c: int|
            0 <= r < BUFFER_HEIGHT - 2 && 0 <= c < BUFFER_WIDTH implies #[trigger] t.grid[cell_index(
                r,
                c,
            )] == s.grid[cell_index(r + 1, c)] by {
            assert(t0.grid[cell_index(r + 1, c)] == s.grid[cell_index(r + 1, c)]);
        }
        assert forall|c: int|
            0 <= c < BUFFER_WIDTH implies #[trigger] t.grid[cell_index(BUFFER_HEIGHT - 2, c)]
                == ScreenChar { ascii_character: bs[c], color_code: s.color } by {
            assert(t0.grid[cell_index(BUFFER_HEIGHT - 1, c)] == ScreenChar {
                ascii_character: row[c],
                color_code: s.color,
            });
        }
    }
}

} // verus!

//! Model of the text-mode screen: a fixed grid of colored characters that the
//! writer fills from the bottom line, scrolling lines upward on overflow.

use vstd::prelude::*;
use vstd::string::StringSliceAdditionalSpecFns;

verus! {

pub const BUFFER_HEIGHT: usize = 25;
pub const BUFFER_WIDTH: usize = 80;

#[allow(dead_code)]
#[derive(Debug, Clone, Copy, PartialEq, Eq, Structural)]
pub enum Colors {
    Black,
    Blue,
    Green,
    Cyan,
    Red,
    Magenta,
    Brown,
    LightGray,
    DarkGray,
    LightBlue,
    LightGreen,
    LightCyan,
    LightRed,
    Pink,
    Yellow,
    White,
}

pub open spec fn color_value(c: Colors) -> u8 {
    match c {
        Colors::Black => 0,
        Colors::Blue => 1,
        Colors::Green => 2,
        Colors::Cyan => 3,
        Colors::Red => 4,
        Colors::Magenta => 5,
        Colors::Brown => 6,
        Colors::LightGray => 7,
        Colors::DarkGray => 8,
        Colors::LightBlue => 9,
        Colors::LightGreen => 10,
        Colors::LightCyan => 11,
        Colors::LightRed => 12,
        Colors::Pink => 13,
        Colors::Yellow => 14,
        Colors::White => 15,
    }
}

impl Colors {
    /// Numeric value of this color in the 4-bit palette.
    pub fn value(self) -> (v: u8)
        ensures
            v == color_value(self),
    {
        match self {
            Colors::Black => 0,
            Colors::Blue => 1,
            Colors::Green => 2,
            Colors::Cyan => 3,
            Colors::Red => 4,
            Colors::Magenta => 5,
            Colors::Brown => 6,
            Colors::LightGray => 7,
            Colors::DarkGray => 8,
            Colors::LightBlue => 9,
            Colors::LightGreen => 10,
            Colors::LightCyan => 11,
            Colors::LightRed => 12,
            Colors::Pink => 13,
            Colors::Yellow => 14,
            Colors::White => 15,
        }
    }
}

/// A foreground/background color pair packed into one byte, background in the
/// high nibble.
#[derive(Debug, Clone, Copy, PartialEq, Eq, Structural)]
pub struct ColorCode(pub u8);

impl ColorCode {
    pub fn new(foreground: Colors, background: Colors) -> (c: ColorCode)
        ensures
            c.0 == color_value(background) * 16 + color_value(foreground),
    {
        ColorCode(background.value() * 16 + foreground.value())
    }
}

/// One screen cell: a code-page byte together with its color pair.
#[derive(Debug, Clone, Copy, PartialEq, Eq, Structural)]
pub struct ScreenChar {
    pub ascii_character: u8,
    pub color_code: ColorCode,
}

/// Mathematical state of the screen: the grid of cells, the cursor column on
/// the bottom line, and the color used for new cells.
#[verifier::ext_equal]
pub struct ScreenModel {
    pub rows: Seq<Seq<ScreenChar>>,
    pub col: int,
    pub color: ColorCode,
}

pub open spec fn blank_char(color: ColorCode) -> ScreenChar {
    ScreenChar { ascii_character: 32u8, color_code: color }
}

pub open spec fn blank_row(color: ColorCode) -> Seq<ScreenChar> {
    Seq::new(BUFFER_WIDTH as nat, |c: int| blank_char(color))
}

pub open spec fn model_wf(m: ScreenModel) -> bool {
    &&& m.rows.len() == BUFFER_HEIGHT
    &&& forall|r: int| 0 <= r < BUFFER_HEIGHT ==> (#[trigger] m.rows[r]).len() == BUFFER_WIDTH
    &&& 0 <= m.col <= BUFFER_WIDTH
}

/// Every line moves one row up, the bottom line is cleared, and the cursor
/// returns to the left edge.
pub open spec fn new_line_spec(m: ScreenModel) -> ScreenModel {
    ScreenModel {
        rows: Seq::new(
            BUFFER_HEIGHT as nat,
            |r: int|
                if r < BUFFER_HEIGHT - 1 {
                    m.rows[r + 1]
                } else {
                    blank_row(m.color)
                },
        ),
        col: 0,
        color: m.color,
    }
}

/// A newline scrolls; any other byte lands at the cursor on the bottom line,
/// scrolling first if the line is full.
pub open spec fn write_byte_spec(m: ScreenModel, byte: u8) -> ScreenModel {
    if byte == 10u8 {
        new_line_spec(m)
    } else {
        let base = if m.col >= BUFFER_WIDTH {
            new_line_spec(m)
        } else {
            m
        };
        let cell = ScreenChar { ascii_character: byte, color_code: m.color };
        ScreenModel {
            rows: base.rows.update(
                BUFFER_HEIGHT - 1,
                base.rows[BUFFER_HEIGHT - 1].update(base.col, cell),
            ),
            col: base.col + 1,
            color: m.color,
        }
    }
}

/// A byte outside the printable range (and other than newline) is shown as the
/// fallback glyph 0xfe.
pub open spec fn printable_or_fallback(byte: u8) -> u8 {
    if (0x20 <= byte && byte <= 0x7e) || byte == 10u8 {
        byte
    } else {
        0xfeu8
    }
}

pub open spec fn write_bytes_spec(m: ScreenModel, bytes: Seq<u8>) -> ScreenModel
    decreases bytes.len(),
{
    if bytes.len() == 0 {
        m
    } else {
        write_bytes_spec(write_byte_spec(m, printable_or_fallback(bytes[0])), bytes.drop_first())
    }
}

/// Writing a concatenation of two byte sequences is writing the first and
/// then the second.
pub proof fn lemma_write_bytes_append(m: ScreenModel, a: Seq<u8>, b: Seq<u8>)
    ensures
        write_bytes_spec(m, a + b) == write_bytes_spec(write_bytes_spec(m, a), b),
    decreases a.len(),
{
    if a.len() == 0 {
        assert(a + b =~= b);
        assert(write_bytes_spec(m, a) == m);
    } else {
        assert((a + b)[0] == a[0]);
        assert((a + b).drop_first() =~= a.drop_first() + b);
        lemma_write_bytes_append(write_byte_spec(m, printable_or_fallback(a[0])), a.drop_first(), b);
    }
}

/// The lower-case hexadecimal digit for a value below 16.
pub open spec fn hex_digit(d: int) -> u8 {
    if d < 10 {
        (48 + d) as u8
    } else {
        (87 + d) as u8
    }
}

/// The last `n` hexadecimal digits of `v`, most significant first.
pub open spec fn hex_bytes(v: u64, n: nat) -> Seq<u8>
    decreases n,
{
    if n == 0 {
        Seq::empty()
    } else {
        hex_bytes(v / 16, (n - 1) as nat) + seq![hex_digit((v % 16) as int)]
    }
}

pub open spec fn pow16(k: nat) -> int
    decreases k,
{
    if k == 0 {
        1
    } else {
        16 * pow16((k - 1) as nat)
    }
}

proof fn lemma_pow16_pos(k: nat)
    ensures
        pow16(k) >= 1,
    decreases k,
{
    if k > 0 {
        lemma_pow16_pos((k - 1) as nat);
    }
}

/// Digit `k` from the right of the rendering is the low nibble of `v`
/// shifted right `k` nibbles.
proof fn lemma_hex_bytes_index(v: u64, n: nat, k: nat)
    requires
        k < n,
    ensures
        hex_bytes(v, n).len() == n,
        hex_bytes(v, n)[n - 1 - k] == hex_digit((v as int / pow16(k)) % 16),
    decreases n,
{
    lemma_hex_bytes_len(v, n);
    if k == 0 {
        assert(v as int / pow16(0) == v as int);
    } else {
        lemma_hex_bytes_index(v / 16, (n - 1) as nat, (k - 1) as nat);
        lemma_hex_bytes_len(v / 16, (n - 1) as nat);
        lemma_pow16_pos((k - 1) as nat);
        vstd::arithmetic::div_mod::lemma_div_denominator(v as int, 16, pow16((k - 1) as nat));
        assert(16 * pow16((k - 1) as nat) == pow16(k));
        assert(hex_bytes(v, n)[n - 1 - k] == hex_bytes(v / 16, (n - 1) as nat)[n - 1 - k]);
    }
}

proof fn lemma_hex_bytes_len(v: u64, n: nat)
    ensures
        hex_bytes(v, n).len() == n,
    decreases n,
{
    if n > 0 {
        lemma_hex_bytes_len(v / 16, (n - 1) as nat);
    }
}

/// The screen writer: always writes to the bottom line of the grid and shifts
/// lines up when a line is full or on a newline.
pub struct Writer {
    pub column_position: usize,
    pub color_code: ColorCode,
    pub buffer: Vec<Vec<ScreenChar>>,
}

impl View for Writer {
    type V = ScreenModel;

    open spec fn view(&self) -> ScreenModel {
        ScreenModel {
            rows: Seq::new(BUFFER_HEIGHT as nat, |r: int| self.buffer[r]@),
            col: self.column_position as int,
            color: self.color_code,
        }
    }
}

impl Writer {
    pub open spec fn wf(&self) -> bool {
        &&& self.buffer@.len() == BUFFER_HEIGHT
        &&& forall|r: int|
            0 <= r < BUFFER_HEIGHT ==> (#[trigger] self.buffer@[r])@.len() == BUFFER_WIDTH
        &&& self.column_position <= BUFFER_WIDTH
    }

    /// A writer over a blank screen, with the cursor at the left edge.
    #[verifier::loop_isolation(false)]
    pub fn new(color_code: ColorCode) -> (w: Writer)
        ensures
            w.wf(),
            w@.col == 0,
            w@.color == color_code,
            w@.rows =~~= Seq::new(BUFFER_HEIGHT as nat, |r: int| blank_row(color_code)),
    {
        let blank = ScreenChar { ascii_character: 32u8, color_code };
        let mut buffer: Vec<Vec<ScreenChar>> = Vec::new();
        while buffer.len() < BUFFER_HEIGHT
            invariant
                buffer@.len() <= BUFFER_HEIGHT,
                forall|r: int| 0 <= r < buffer@.len() ==> (#[trigger] buffer@[r])@ =~= blank_row(
                    color_code,
                ),
            decreases BUFFER_HEIGHT - buffer@.len(),
        {
            let row: Vec<ScreenChar> = vec![blank; BUFFER_WIDTH];
            assert(row@ =~= blank_row(color_code));
            buffer.push(row);
        }
        let w = Writer { column_position: 0, color_code, buffer };
        assert(w@.rows =~~= Seq::new(BUFFER_HEIGHT as nat, |r: int| blank_row(color_code)));
        w
    }

    /// The cell shown at the given position.
    pub fn char_at(&self, row: usize, col: usize) -> (c: ScreenChar)
        requires
            self.wf(),
            row < BUFFER_HEIGHT,
            col < BUFFER_WIDTH,
        ensures
            c == self@.rows[row as int][col as int],
    {
        self.buffer[row][col]
    }

    /// The cursor column on the bottom line.
    pub fn column(&self) -> (c: usize)
        ensures
            c == self@.col,
    {
        self.column_position
    }

    #[verifier::loop_isolation(false)]
    fn clear_row(&mut self, row: usize)
        requires
            old(self).wf(),
            row < BUFFER_HEIGHT,
        ensures
            final(self).wf(),
            final(self)@.rows =~~= old(self)@.rows.update(row as int, blank_row(old(self)@.color)),
            final(self)@.col == old(self)@.col,
            final(self)@.color == old(self)@.color,
    {
        let blank = ScreenChar { ascii_character: 32u8, color_code: self.color_code };
        let mut col: usize = 0;
        while col < BUFFER_WIDTH
            invariant
                self.wf(),
                col <= BUFFER_WIDTH,
                row < BUFFER_HEIGHT,
                blank == blank_char(old(self)@.color),
                self.column_position == old(self).column_position,
                self.color_code == old(self).color_code,
                self.buffer@.len() == BUFFER_HEIGHT,
                forall|r: int|
                    0 <= r < BUFFER_HEIGHT && r != row ==> (#[trigger] self.buffer@[r])@ == old(
                        self,
                    ).buffer@[r]@,
                forall|c: int|
                    0 <= c < col ==> (#[trigger] self.buffer@[row as int]@[c]) == blank_char(
                        old(self)@.color,
                    ),
                forall|c: int|
                    col <= c < BUFFER_WIDTH ==> (#[trigger] self.buffer@[row as int]@[c]) == old(
                        self,
                    ).buffer@[row as int]@[c],
            decreases BUFFER_WIDTH - col,
        {
            self.buffer[row][col] = blank;
            col += 1;
        }
        assert(self.buffer@[row as int]@ =~= blank_row(old(self)@.color));
        assert(self@.rows =~~= old(self)@.rows.update(row as int, blank_row(old(self)@.color)));
    }

    #[verifier::loop_isolation(false)]
    fn new_line(&mut self)
        requires
            old(self).wf(),
        ensures
            final(self).wf(),
            final(self)@ =~~= new_line_spec(old(self)@),
    {
        let mut row: usize = 1;
        while row < BUFFER_HEIGHT
            invariant
                self.wf(),
                1 <= row <= BUFFER_HEIGHT,
                self.column_position == old(self).column_position,
                self.color_code == old(self).color_code,
                forall|r: int|
                    0 <= r < row - 1 ==> (#[trigger] self.buffer@[r])@ == old(self).buffer@[r + 1]@,
                forall|r: int|
                    row - 1 <= r < BUFFER_HEIGHT ==> (#[trigger] self.buffer@[r])@ == old(
                        self,
                    ).buffer@[r]@,
            decreases BUFFER_HEIGHT - row,
        {
            let mut col: usize = 0;
            while col < BUFFER_WIDTH
                invariant
                    self.wf(),
                    1 <= row < BUFFER_HEIGHT,
                    col <= BUFFER_WIDTH,
                    self.column_position == old(self).column_position,
                    self.color_code == old(self).color_code,
                    forall|r: int|
                        0 <= r < row - 1 ==> (#[trigger] self.buffer@[r])@ == old(
                            self,
                        ).buffer@[r + 1]@,
                    forall|r: int|
                        row <= r < BUFFER_HEIGHT ==> (#[trigger] self.buffer@[r])@ == old(
                            self,
                        ).buffer@[r]@,
                    forall|c: int|
                        0 <= c < col ==> (#[trigger] self.buffer@[row - 1]@[c]) == old(
                            self,
                        ).buffer@[row as int]@[c],
                    forall|c: int|
                        col <= c < BUFFER_WIDTH ==> (#[trigger] self.buffer@[row - 1]@[c]) == old(
                            self,
                        ).buffer@[row - 1]@[c],
                decreases BUFFER_WIDTH - col,
            {
                let character: ScreenChar = self.buffer[row][col];
                assert(character == old(self).buffer@[row as int]@[col as int]);
                self.buffer[row - 1][col] = character;
                col += 1;
            }
            assert(self.buffer@[row - 1]@ =~= old(self).buffer@[row as int]@);
            row += 1;
        }
        self.clear_row(BUFFER_HEIGHT - 1);
        self.column_position = 0;
        assert(self@.rows =~~= new_line_spec(old(self)@).rows);
        assert(self@ =~~= new_line_spec(old(self)@));
    }

    /// Writes one byte at the cursor; a newline (or a full bottom line)
    /// scrolls the screen first.
    pub fn write_byte(&mut self, byte: u8)
        requires
            old(self).wf(),
        ensures
            final(self).wf(),
            final(self)@ =~~= write_byte_spec(old(self)@, byte),
    {
        if byte == 10u8 {
            self.new_line();
        } else {
            if self.column_position >= BUFFER_WIDTH {
                self.new_line();
            }
            let ghost base = self@;
            let row = BUFFER_HEIGHT - 1;
            let col = self.column_position;
            let color_code = self.color_code;
            self.buffer[row][col] = ScreenChar { ascii_character: byte, color_code };
            self.column_position += 1;
            proof {
                let cell = ScreenChar { ascii_character: byte, color_code: old(self)@.color };
                assert(self@.rows =~~= base.rows.update(
                    BUFFER_HEIGHT - 1,
                    base.rows[BUFFER_HEIGHT - 1].update(base.col, cell),
                ));
                assert(self@ =~~= write_byte_spec(old(self)@, byte));
            }
        }
    }

    /// Writes a whole string, substituting the fallback glyph for bytes the
    /// screen cannot show.
    pub fn write_string(&mut self, s: &str)
        requires
            old(self).wf(),
        ensures
            final(self).wf(),
            final(self)@ =~~= write_bytes_spec(old(self)@, s.spec_bytes()),
    {
        let bytes: &[u8] = s.as_bytes();
        self.write_byte_slice(bytes);
    }

    /// Writes a sequence of bytes with the same substitution rule.
    #[verifier::loop_isolation(false)]
    pub fn write_byte_slice(&mut self, bytes: &[u8])
        requires
            old(self).wf(),
        ensures
            final(self).wf(),
            final(self)@ =~~= write_bytes_spec(old(self)@, bytes@),
    {
        let n: usize = bytes.len();
        let mut i: usize = 0;
        proof {
            assert(bytes@.skip(0) =~= bytes@);
        }
        while i < n
            invariant
                self.wf(),
                i <= n,
                n == bytes@.len(),
                write_bytes_spec(self@, bytes@.skip(i as int)) == write_bytes_spec(
                    old(self)@,
                    bytes@,
                ),
            decreases n - i,
        {
            proof {
                assert(bytes@.skip(i as int)[0] == bytes@[i as int]);
                assert(bytes@.skip(i as int).drop_first() =~= bytes@.skip(i as int + 1));
            }
            let b: u8 = bytes[i];
            if (0x20 <= b && b <= 0x7e) || b == 10u8 {
                self.write_byte(b);
            } else {
                self.write_byte(0xfeu8);
            }
            i += 1;
        }
        proof {
            assert(bytes@.skip(n as int) =~= Seq::<u8>::empty());
        }
    }
}

impl Writer {
    /// Writes the 16 hexadecimal digits of `v`, most significant first.
    #[verifier::loop_isolation(false)]
    pub fn write_hex(&mut self, v: u64)
        requires
            old(self).wf(),
        ensures
            final(self).wf(),
            final(self)@ == write_bytes_spec(old(self)@, hex_bytes(v, 16)),
    {
        let mut rev: Vec<u8> = Vec::new();
        let mut x: u64 = v;
        proof {
            assert(x as int == v as int / pow16(0));
        }
        while rev.len() < 16
            invariant
                rev@.len() <= 16,
                x as int == v as int / pow16(rev@.len() as nat),
                forall|k: int|
                    0 <= k < rev@.len() ==> #[trigger] rev@[k] == hex_digit(
                        (v as int / pow16(k as nat)) % 16,
                    ),
            decreases 16 - rev@.len(),
        {
            let d: u8 = (x % 16) as u8;
            let digit: u8 = if d < 10 {
                48 + d
            } else {
                87 + d
            };
            proof {
                let i = rev@.len() as nat;
                assert(digit == hex_digit((v as int / pow16(i)) % 16));
                lemma_pow16_pos(i);
                vstd::arithmetic::div_mod::lemma_div_denominator(v as int, pow16(i), 16);
                assert(pow16(i) * 16 == pow16((i + 1) as nat));
                assert((x / 16) as int == v as int / pow16((i + 1) as nat));
            }
            rev.push(digit);
            x = x / 16;
        }
        let ghost s = hex_bytes(v, 16);
        proof {
            lemma_hex_bytes_len(v, 16);
            assert forall|j: int| 0 <= j < 16 implies #[trigger] s[j] == rev@[15 - j] && 0x20 <= s[
                j
            ] <= 0x7e && s[j] != 10 by {
                lemma_hex_bytes_index(v, 16, (15 - j) as nat);
                lemma_pow16_pos((15 - j) as nat);
            }
            assert(s.take(0) =~= Seq::<u8>::empty());
        }
        let mut j: usize = 0;
        while j < 16
            invariant
                j <= 16,
                self.wf(),
                rev@.len() == 16,
                self@ == write_bytes_spec(old(self)@, s.take(j as int)),
            decreases 16 - j,
        {
            let b: u8 = rev[15 - j];
            proof {
                assert(b == s[j as int]);
                assert(printable_or_fallback(s[j as int]) == b);
                let one = seq![s[j as int]];
                assert(s.take(j + 1) =~= s.take(j as int) + one);
                lemma_write_bytes_append(old(self)@, s.take(j as int), one);
                assert(one.len() == 1 && one[0] == s[j as int]);
                assert(one.drop_first() =~= Seq::<u8>::empty());
                assert(write_bytes_spec(self@, one) == write_bytes_spec(
                    write_byte_spec(self@, printable_or_fallback(one[0])),
                    one.drop_first(),
                ));
                assert(write_bytes_spec(write_byte_spec(self@, b), Seq::<u8>::empty())
                    == write_byte_spec(self@, b));
                assert(write_bytes_spec(self@, one) == write_byte_spec(self@, b));
            }
            self.write_byte(b);
            j += 1;
        }
        proof {
            assert(s.take(16) =~= s);
        }
    }
}

/// Writes a string through the given writer; the screen sink itself never
/// fails.
pub fn _print(w: &mut Writer, s: &str)
    requires
        old(w).wf(),
    ensures
        final(w).wf(),
        final(w)@ =~~= write_bytes_spec(old(w)@, s.spec_bytes()),
{
    w.write_string(s);
}

} // verus!

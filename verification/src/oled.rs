//! The SSD1306 128x64 OLED driver: the transfers (command and data bytes)
//! that initialise the display, clear it, and show characters, strings and
//! numbers in a grid of 4 lines of 16 characters, each 8x16 pixels.
//!
//! The driver queues its transfers; whoever owns the pins sends them, in
//! order, with `i2c::encode_transfers`.
use vstd::prelude::*;
use crate::arith::{pow, power, lemma_power_monotone, lemma_power_positive};
use crate::i2c::Transfer;
use crate::text::{digits_text, signed_text, sign_char, magnitude, lemma_digits_text_chars};

verus! {

/// Number of glyphs in a font: the visible ASCII characters `' '..='~'`.
pub const FONT_GLYPHS: usize = 95;

/// A visible ASCII character, the ones a font has a glyph for.
pub open spec fn is_visible_ascii(ch: char) -> bool {
    ' ' <= ch && ch <= '~'
}

/// The 16 bytes of the glyph of `ch`: 8 columns of the upper page, then 8
/// columns of the lower page.
pub open spec fn glyph_of(font: Seq<[u8; 16]>, ch: char) -> Seq<u8> {
    font[ch as int - ' ' as int]@
}

/// The commands that put the RAM pointer at `page` (0..8) and column `x`
/// (0..128): page start address, column high nibble, column low nibble.
pub open spec fn cursor_transfers(page: int, x: int) -> Seq<Transfer> {
    seq![
        Transfer::Command((0xB0 + page) as u8),
        Transfer::Command((0x10 + x / 16) as u8),
        Transfer::Command((x % 16) as u8),
    ]
}

/// Data transfers of `bytes`, in order.
pub open spec fn data_transfers(bytes: Seq<u8>) -> Seq<Transfer> {
    Seq::new(bytes.len(), |i: int| Transfer::Data(bytes[i]))
}

/// Command transfers of `bytes`, in order.
pub open spec fn command_transfers(bytes: Seq<u8>) -> Seq<Transfer> {
    Seq::new(bytes.len(), |i: int| Transfer::Command(bytes[i]))
}

/// The first page (0..8) of text line `line` (1..=4).
pub open spec fn line_page(line: int) -> int {
    (line - 1) * 2
}

/// The first pixel column of text column `col` (1..=16).
pub open spec fn col_x(col: int) -> int {
    (col - 1) * 8
}

/// The transfers that draw one glyph at text position (`line`, `col`).
pub open spec fn char_transfers(glyph: Seq<u8>, line: int, col: int) -> Seq<Transfer> {
    cursor_transfers(line_page(line), col_x(col)) + data_transfers(glyph.subrange(0, 8))
        + cursor_transfers(line_page(line) + 1, col_x(col)) + data_transfers(glyph.subrange(8, 16))
}

/// The transfers that draw `text` from text position (`line`, `col`) on,
/// one character per column.
pub open spec fn text_transfers(font: Seq<[u8; 16]>, line: int, col: int, text: Seq<char>) -> Seq<
    Transfer,
>
    decreases text.len(),
{
    if text.len() == 0 {
        Seq::empty()
    } else {
        text_transfers(font, line, col, text.drop_last()) + char_transfers(
            glyph_of(font, text.last()),
            line,
            col + text.len() - 1,
        )
    }
}

/// A text of `len` characters from (`line`, `col`) stays inside the 4x16 grid.
pub open spec fn text_fits(line: int, col: int, len: int) -> bool {
    1 <= line <= 4 && 1 <= col && col + len <= 17
}

/// The initialisation commands, in the order the panel needs them.
pub open spec fn init_commands() -> Seq<u8> {
    seq![
        0xAEu8, // display off
        0xD5, 0x80, // clock divide ratio and oscillator frequency
        0xA8, 0x3F, // multiplex ratio 1/64
        0xD3, 0x00, // display offset 0
        0x40, // display start line 0
        0xA1, // segment remap: left to right
        0xC8, // COM scan direction: top to bottom
        0xDA, 0x12, // COM pins hardware configuration
        0x81, 0xCF, // contrast
        0xD9, 0xF1, // pre-charge period
        0xDB, 0x30, // VCOMH deselect level
        0xA4, // display follows RAM
        0xA6, // normal, not inverted
        0x8D, 0x14, // charge pump on
        0xAF, // display on
    ]
}

/// The transfers that zero one page of display RAM.
pub open spec fn clear_page_transfers(page: int) -> Seq<Transfer> {
    cursor_transfers(page, 0) + data_transfers(Seq::new(128, |i: int| 0u8))
}

/// The transfers that zero the first `n` pages.
pub open spec fn clear_pages_transfers(n: nat) -> Seq<Transfer>
    decreases n,
{
    if n == 0 {
        Seq::empty()
    } else {
        clear_pages_transfers((n - 1) as nat) + clear_page_transfers(n - 1)
    }
}

/// The transfers that zero all 8 pages.
pub open spec fn clear_transfers() -> Seq<Transfer> {
    clear_pages_transfers(8)
}

/// The transfers of the initialisation: the commands, then a cleared screen.
pub open spec fn init_transfers() -> Seq<Transfer> {
    command_transfers(init_commands()) + clear_transfers()
}

/// What showing one character sends: for character `ch` at text position
/// (`line`, `col`), the page address `0xB0 + 2 * (line - 1)`, the column
/// address `8 * (col - 1)` as high nibble (`0x10 + ...`) and low nibble, the
/// first 8 bytes of font entry `ch - ' '`; then page `0xB0 + 2 * (line - 1) + 1`,
/// the same column, and bytes 8..16 of that entry. Nothing else is sent.
pub proof fn lemma_char_transfers_bytes(font: Seq<[u8; 16]>, line: int, col: int, ch: char)
    requires
        font.len() == FONT_GLYPHS,
        1 <= line <= 4,
        1 <= col <= 16,
        is_visible_ascii(ch),
    ensures
        ({
            let ts = char_transfers(glyph_of(font, ch), line, col);
            let g = font[ch as int - ' ' as int]@;
            let x = 8 * (col - 1);
            &&& ts.len() == 22
            &&& ts[0] == Transfer::Command((0xB0 + 2 * (line - 1)) as u8)
            &&& ts[1] == Transfer::Command((0x10 + x / 16) as u8)
            &&& ts[2] == Transfer::Command((x % 16) as u8)
            &&& forall|j: int| 0 <= j < 8 ==> #[trigger] ts[3 + j] == Transfer::Data(g[j])
            &&& ts[11] == Transfer::Command((0xB0 + 2 * (line - 1) + 1) as u8)
            &&& ts[12] == Transfer::Command((0x10 + x / 16) as u8)
            &&& ts[13] == Transfer::Command((x % 16) as u8)
            &&& forall|j: int| 0 <= j < 8 ==> #[trigger] ts[14 + j] == Transfer::Data(g[8 + j])
        }),
{
    let g = glyph_of(font, ch);
    assert(g.len() == 16);
    let ts = char_transfers(g, line, col);
    assert forall|j: int| 0 <= j < 8 implies #[trigger] ts[3 + j] == Transfer::Data(g[j]) by {}
    assert forall|j: int| 0 <= j < 8 implies #[trigger] ts[14 + j] == Transfer::Data(g[8 + j]) by {}
}

/// Putting a character in front of a text draws it first, one column left of
/// the rest.
pub proof fn lemma_text_transfers_prepend(font: Seq<[u8; 16]>, line: int, col: int, ch: char, text: Seq<char>)
    ensures
        text_transfers(font, line, col, seq![ch] + text) == char_transfers(glyph_of(font, ch), line, col)
            + text_transfers(font, line, col + 1, text),
    decreases text.len(),
{
    if text.len() == 0 {
        assert(seq![ch] + text =~= seq![ch]);
        assert(seq![ch].drop_last() =~= Seq::<char>::empty());
        assert(seq![ch].last() == ch);
        assert(text_transfers(font, line, col, Seq::<char>::empty()) == Seq::<Transfer>::empty());
        assert(text_transfers(font, line, col + 1, text) == Seq::<Transfer>::empty());
        let a = char_transfers(glyph_of(font, ch), line, col);
        assert(text_transfers(font, line, col, seq![ch]) == Seq::<Transfer>::empty() + a);
        assert(Seq::<Transfer>::empty() + a =~= a);
        assert(a + Seq::<Transfer>::empty() =~= a);
    } else {
        lemma_text_transfers_prepend(font, line, col, ch, text.drop_last());
        assert((seq![ch] + text).drop_last() == seq![ch] + text.drop_last());
        assert((seq![ch] + text).last() == text.last());
        let a = char_transfers(glyph_of(font, ch), line, col);
        let b = text_transfers(font, line, col + 1, text.drop_last());
        let c = char_transfers(glyph_of(font, text.last()), line, col + 1 + text.len() - 1);
        assert(text_transfers(font, line, col + 1, text) == b + c);
        assert(text_transfers(font, line, col, seq![ch] + text) == (a + b) + c);
        assert((a + b) + c =~= a + (b + c));
    }
}

proof fn lemma_text_transfers_take(font: Seq<[u8; 16]>, line: int, col: int, text: Seq<char>, i: int)
    requires
        0 <= i < text.len(),
    ensures
        text_transfers(font, line, col, text.take(i + 1)) == text_transfers(font, line, col, text.take(i))
            + char_transfers(glyph_of(font, text[i]), line, col + i),
{
    assert(text.take(i + 1).drop_last() == text.take(i));
}

proof fn lemma_power_bounds()
    ensures
        power(10, 9) == 1_000_000_000,
        power(16, 7) == 0x1000_0000,
        power(2, 31) == 0x8000_0000,
{
    reveal_with_fuel(power, 32);
}

/// The OLED driver. It holds the font it draws with and the transfers it has
/// queued and not yet handed out.
pub struct Oled {
    font: Vec<[u8; 16]>,
    pending: Vec<Transfer>,
}

impl Oled {
    #[verifier::type_invariant]
    spec fn font_complete(self) -> bool {
        self.font@.len() == FONT_GLYPHS
    }

    /// The glyphs, indexed by character code minus `' '`.
    pub closed spec fn font(self) -> Seq<[u8; 16]> {
        self.font@
    }

    /// The transfers queued so far, oldest first.
    pub closed spec fn pending(self) -> Seq<Transfer> {
        self.pending@
    }

    /// A driver drawing with `font` (one glyph per visible ASCII character),
    /// with nothing queued.
    pub fn new(font: Vec<[u8; 16]>) -> (oled: Oled)
        requires
            font@.len() == FONT_GLYPHS,
        ensures
            oled.font() == font@,
            oled.pending() == Seq::<Transfer>::empty(),
    {
        Oled { font, pending: Vec::new() }
    }

    /// Hands out the queued transfers, oldest first, and empties the queue.
    pub fn take_transfers(&mut self) -> (out: Vec<Transfer>)
        ensures
            out@ == old(self).pending(),
            final(self).pending() == Seq::<Transfer>::empty(),
            final(self).font() == old(self).font(),
    {
        proof {
            use_type_invariant(&*self);
        }
        let mut out: Vec<Transfer> = Vec::new();
        std::mem::swap(&mut out, &mut self.pending);
        out
    }

    fn write_cmd(&mut self, cmd: u8)
        ensures
            final(self).pending() == old(self).pending().push(Transfer::Command(cmd)),
            final(self).font() == old(self).font(),
    {
        proof {
            use_type_invariant(&*self);
        }
        let mut queue: Vec<Transfer> = Vec::new();
        std::mem::swap(&mut queue, &mut self.pending);
        queue.push(Transfer::Command(cmd));
        self.pending = queue;
    }

    fn write_data(&mut self, data: u8)
        ensures
            final(self).pending() == old(self).pending().push(Transfer::Data(data)),
            final(self).font() == old(self).font(),
    {
        proof {
            use_type_invariant(&*self);
        }
        let mut queue: Vec<Transfer> = Vec::new();
        std::mem::swap(&mut queue, &mut self.pending);
        queue.push(Transfer::Data(data));
        self.pending = queue;
    }

    /// Moves the RAM pointer to page `y` (0..8, top to bottom) and pixel column
    /// `x` (0..128, left to right).
    fn set_cursor(&mut self, y: u8, x: u8)
        requires
            y < 8,
            x < 128,
        ensures
            final(self).pending() == old(self).pending() + cursor_transfers(y as int, x as int),
            final(self).font() == old(self).font(),
    {
        let page = 0xB0u8 | y;
        let high = 0x10u8 | ((x & 0xF0u8) >> 4u8);
        let low = 0x00u8 | (x & 0x0Fu8);
        assert((0xB0u8 | y) == 0xB0 + y && (0x10u8 | ((x & 0xF0u8) >> 4u8)) == 0x10 + x / 16 && (0x00u8 | (
            x & 0x0Fu8)) == x % 16) by (bit_vector)
            requires
                y < 8,
                x < 128,
        ;
        self.write_cmd(page);
        self.write_cmd(high);
        self.write_cmd(low);
        assert(final(self).pending() =~= old(self).pending() + cursor_transfers(y as int, x as int));
    }

    /// Queues the initialisation commands, then clears the screen.
    pub fn init(&mut self)
        ensures
            final(self).pending() == old(self).pending() + init_transfers(),
            final(self).font() == old(self).font(),
    {
        let ghost start = self.pending();
        self.write_cmd(0xAE);
        self.write_cmd(0xD5);
        self.write_cmd(0x80);
        self.write_cmd(0xA8);
        self.write_cmd(0x3F);
        self.write_cmd(0xD3);
        self.write_cmd(0x00);
        self.write_cmd(0x40);
        self.write_cmd(0xA1);
        self.write_cmd(0xC8);
        self.write_cmd(0xDA);
        self.write_cmd(0x12);
        self.write_cmd(0x81);
        self.write_cmd(0xCF);
        self.write_cmd(0xD9);
        self.write_cmd(0xF1);
        self.write_cmd(0xDB);
        self.write_cmd(0x30);
        self.write_cmd(0xA4);
        self.write_cmd(0xA6);
        self.write_cmd(0x8D);
        self.write_cmd(0x14);
        self.write_cmd(0xAF);
        assert(self.pending() =~= start + command_transfers(init_commands()));
        self.clear_screen();
        assert(self.pending() =~= start + init_transfers());
    }

    /// Queues the transfers that set every pixel of the screen off.
    pub fn clear_screen(&mut self)
        ensures
            final(self).pending() == old(self).pending() + clear_transfers(),
            final(self).font() == old(self).font(),
    {
        let ghost start = self.pending();
        let mut i: u8 = 0;
        while i < 8
            invariant
                i <= 8,
                self.pending() == start + clear_pages_transfers(i as nat),
                self.font() == old(self).font(),
            decreases 8 - i,
        {
            let ghost before = self.pending();
            self.set_cursor(i, 0);
            let mut j: u8 = 0;
            while j < 128
                invariant
                    j <= 128,
                    self.pending() == before + cursor_transfers(i as int, 0) + data_transfers(
                        Seq::new(j as nat, |k: int| 0u8),
                    ),
                    self.font() == old(self).font(),
                decreases 128 - j,
            {
                self.write_data(0x00);
                assert(data_transfers(Seq::new((j + 1) as nat, |k: int| 0u8)) =~= data_transfers(
                    Seq::new(j as nat, |k: int| 0u8),
                ).push(Transfer::Data(0u8)));
                j = j + 1;
            }
            assert(self.pending() =~= start + clear_pages_transfers((i + 1) as nat));
            i = i + 1;
        }
    }

    /// Shows character `ch` at text line `line` (1..=4, top to bottom) and
    /// text column `col` (1..=16, left to right).
    pub fn show_char(&mut self, line: u8, col: u8, ch: char)
        requires
            1 <= line <= 4,
            1 <= col <= 16,
            is_visible_ascii(ch),
        ensures
            final(self).pending() == old(self).pending() + char_transfers(
                glyph_of(old(self).font(), ch),
                line as int,
                col as int,
            ),
            final(self).font() == old(self).font(),
    {
        proof {
            use_type_invariant(&*self);
        }
        let ghost start = self.pending();
        let ghost glyph = glyph_of(self.font(), ch);
        let idx = (ch as u32 - ' ' as u32) as usize;
        let page = (line - 1) * 2;
        let x = (col - 1) * 8;
        self.set_cursor(page, x);
        let ghost mid = self.pending();
        let mut i: usize = 0;
        while i < 8
            invariant
                i <= 8,
                idx < self.font@.len(),
                self.font() == old(self).font(),
                glyph == self.font@[idx as int]@,
                self.pending() == mid + data_transfers(glyph.subrange(0, i as int)),
            decreases 8 - i,
        {
            let b = self.font[idx][i];
            self.write_data(b);
            assert(data_transfers(glyph.subrange(0, i + 1)) =~= data_transfers(glyph.subrange(0, i as int)).push(Transfer::Data(b)));
            i = i + 1;
        }
        self.set_cursor(page + 1, x);
        let ghost mid2 = self.pending();
        let mut i: usize = 0;
        while i < 8
            invariant
                i <= 8,
                idx < self.font@.len(),
                self.font() == old(self).font(),
                glyph == self.font@[idx as int]@,
                self.pending() == mid2 + data_transfers(glyph.subrange(8, 8 + i as int)),
            decreases 8 - i,
        {
            let b = self.font[idx][i + 8];
            self.write_data(b);
            assert(data_transfers(glyph.subrange(8, 8 + i + 1)) =~= data_transfers(glyph.subrange(8, 8 + i as int)).push(Transfer::Data(b)));
            i = i + 1;
        }
        assert(self.pending() =~= start + char_transfers(glyph, line as int, col as int));
    }

    /// Shows the characters of `s` from text position (`line`, `col`) on,
    /// one per column.
    pub fn show_string(&mut self, line: u8, col: u8, s: &str)
        requires
            text_fits(line as int, col as int, s@.len() as int),
            forall|k: int| 0 <= k < s@.len() ==> is_visible_ascii(#[trigger] s@[k]),
        ensures
            final(self).pending() == old(self).pending() + text_transfers(
                old(self).font(),
                line as int,
                col as int,
                s@,
            ),
            final(self).font() == old(self).font(),
    {
        broadcast use vstd::string::axiom_spec_iter;

        let ghost start = self.pending();
        let ghost text = s@;
        let mut i: u8 = 0;
        for ch in it: s.chars()
            invariant
                text == s@,
                it.seq() == text,
                i as int == it.index(),
                text_fits(line as int, col as int, text.len() as int),
                forall|k: int| 0 <= k < text.len() ==> is_visible_ascii(#[trigger] text[k]),
                self.font() == old(self).font(),
                self.pending() == start + text_transfers(self.font(), line as int, col as int, text.take(i as int)),
        {
            proof {
                lemma_text_transfers_take(self.font(), line as int, col as int, text, i as int);
            }
            self.show_char(line, col + i, ch);
            i = i + 1;
        }
        assert(text.take(text.len() as int) == text);
    }

    /// Shows the `len` lowest digits of `num` in base `radix`, most
    /// significant first, from text position (`line`, `col`) on.
    fn show_digits(&mut self, line: u8, col: u8, num: u32, len: u8, radix: u32)
        requires
            text_fits(line as int, col as int, len as int),
            2 <= radix <= 16,
            len == 0 || power(radix as int, (len - 1) as nat) <= u32::MAX,
        ensures
            final(self).pending() == old(self).pending() + text_transfers(
                old(self).font(),
                line as int,
                col as int,
                digits_text(num as nat, len as nat, radix as nat),
            ),
            final(self).font() == old(self).font(),
    {
        let ghost start = self.pending();
        let ghost text = digits_text(num as nat, len as nat, radix as nat);
        let mut i: u8 = 0;
        while i < len
            invariant
                i <= len,
                text_fits(line as int, col as int, len as int),
                2 <= radix <= 16,
                len == 0 || power(radix as int, (len - 1) as nat) <= u32::MAX,
                text == digits_text(num as nat, len as nat, radix as nat),
                self.font() == old(self).font(),
                self.pending() == start + text_transfers(self.font(), line as int, col as int, text.take(i as int)),
            decreases len - i,
        {
            let e = (len - i - 1) as u32;
            proof {
                lemma_power_monotone(radix as int, e as nat, (len - 1) as nat);
                lemma_power_positive(radix as int, e as nat);
            }
            let p = pow(radix, e);
            let d = ((num / p) % radix) as u8;
            let ch = if d < 10 {
                (d + 48u8) as char
            } else {
                (d - 10 + 65u8) as char
            };
            proof {
                lemma_digits_text_chars(num as nat, len as nat, radix as nat, i as int);
                assert(ch == text[i as int]);
                lemma_text_transfers_take(self.font(), line as int, col as int, text, i as int);
            }
            self.show_char(line, col + i, ch);
            i = i + 1;
        }
        assert(text.take(len as int) == text);
    }

    /// Shows `num` in decimal with exactly `len` digits (1..=10), zero-padded
    /// on the left, from text position (`line`, `col`) on.
    pub fn show_number(&mut self, line: u8, col: u8, num: u32, len: u8)
        requires
            text_fits(line as int, col as int, len as int),
            len <= 10,
        ensures
            final(self).pending() == old(self).pending() + text_transfers(
                old(self).font(),
                line as int,
                col as int,
                digits_text(num as nat, len as nat, 10),
            ),
            final(self).font() == old(self).font(),
    {
        proof {
            lemma_power_bounds();
            if len > 0 {
                lemma_power_monotone(10, (len - 1) as nat, 9);
            }
        }
        self.show_digits(line, col, num, len, 10);
    }

    /// Shows the sign of `num` (`'+'` for zero and above, `'-'` below), then
    /// its magnitude in decimal with exactly `len` digits (1..=10),
    /// zero-padded, from text position (`line`, `col`) on.
    pub fn show_singed_number(&mut self, line: u8, col: u8, num: i32, len: u8)
        requires
            text_fits(line as int, col as int, len as int + 1),
            len <= 10,
        ensures
            final(self).pending() == old(self).pending() + text_transfers(
                old(self).font(),
                line as int,
                col as int,
                signed_text(num as int, len as nat),
            ),
            final(self).font() == old(self).font(),
    {
        let ghost start = self.pending();
        let number: u32;
        if num >= 0 {
            self.show_char(line, col, '+');
            number = num as u32;
        } else {
            self.show_char(line, col, '-');
            number = (0i64 - num as i64) as u32;
        }
        assert(number == magnitude(num as int));
        proof {
            lemma_power_bounds();
            if len > 0 {
                lemma_power_monotone(10, (len - 1) as nat, 9);
            }
        }
        self.show_digits(line, col + 1, number, len, 10);
        proof {
            lemma_text_transfers_prepend(
                self.font(),
                line as int,
                col as int,
                sign_char(num as int),
                digits_text(magnitude(num as int), len as nat, 10),
            );
        }
    }

    /// Shows `num` in hexadecimal (`0-9`, `A-F`) with exactly `len` digits
    /// (1..=8), zero-padded, from text position (`line`, `col`) on.
    pub fn show_hex_number(&mut self, line: u8, col: u8, num: u32, len: u8)
        requires
            text_fits(line as int, col as int, len as int),
            len <= 8,
        ensures
            final(self).pending() == old(self).pending() + text_transfers(
                old(self).font(),
                line as int,
                col as int,
                digits_text(num as nat, len as nat, 16),
            ),
            final(self).font() == old(self).font(),
    {
        proof {
            lemma_power_bounds();
            if len > 0 {
                lemma_power_monotone(16, (len - 1) as nat, 7);
            }
        }
        self.show_digits(line, col, num, len, 16);
    }

    /// Shows `num` in binary with exactly `len` digits, zero-padded, from
    /// text position (`line`, `col`) on.
    pub fn show_binary_number(&mut self, line: u8, col: u8, num: u32, len: u8)
        requires
            text_fits(line as int, col as int, len as int),
        ensures
            final(self).pending() == old(self).pending() + text_transfers(
                old(self).font(),
                line as int,
                col as int,
                digits_text(num as nat, len as nat, 2),
            ),
            final(self).font() == old(self).font(),
    {
        proof {
            lemma_power_bounds();
            if len > 0 {
                lemma_power_monotone(2, (len - 1) as nat, 31);
            }
        }
        self.show_digits(line, col, num, len, 2);
    }
}

} // verus!

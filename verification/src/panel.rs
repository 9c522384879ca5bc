//! What the panel does with the transfers it receives: a model of the SSD1306
//! display RAM (8 pages of 128 columns, one byte per column and page, each
//! byte 8 vertical pixels) in page addressing mode, and the proofs that the
//! driver's transfers put the right bytes in it.
//!
//! The model covers the commands the driver sends: page start address
//! (0xB0..=0xB7), column address low nibble (0x00..=0x0F) and high nibble
//! (0x10..=0x17), and the two-byte commands whose second byte is an argument
//! and no address. Every other command leaves RAM and pointer alone.
use vstd::prelude::*;
use crate::i2c::Transfer;
use crate::arith::power;
use crate::text::{digits_text, text_value, lemma_digits_text_chars, lemma_digits_text_value};
use crate::oled::{clear_page_transfers, clear_pages_transfers, clear_transfers, init_transfers, command_transfers, init_commands, FONT_GLYPHS, is_visible_ascii, glyph_of, cursor_transfers, data_transfers, line_page, col_x, char_transfers, text_transfers, text_fits};

verus! {

/// The panel's display RAM and addressing state.
pub ghost struct Panel {
    /// `ram[page][column]`.
    pub ram: Seq<Seq<u8>>,
    pub page: int,
    pub column: int,
    /// The last command byte was a two-byte command: the next command byte
    /// is its argument.
    pub awaiting_argument: bool,
}

pub open spec fn panel_wf(p: Panel) -> bool {
    &&& p.ram.len() == 8
    &&& forall|pg: int| 0 <= pg < 8 ==> #[trigger] p.ram[pg].len() == 128
    &&& 0 <= p.page < 8
    &&& 0 <= p.column < 128
}

/// The commands that take one argument byte among those the driver sends:
/// contrast, charge pump, multiplex ratio, display offset, clock, pre-charge,
/// COM pins and VCOMH level.
pub open spec fn takes_argument(c: u8) -> bool {
    c == 0x81 || c == 0x8D || c == 0xA8 || c == 0xD3 || c == 0xD5 || c == 0xD9 || c == 0xDA || c == 0xDB
}

/// The panel after receiving one transfer.
pub open spec fn apply_transfer(p: Panel, t: Transfer) -> Panel {
    match t {
        Transfer::Command(c) => if p.awaiting_argument {
            Panel { awaiting_argument: false, ..p }
        } else if 0xB0 <= c <= 0xB7 {
            Panel { page: c - 0xB0, ..p }
        } else if c <= 0x0F {
            Panel { column: p.column - p.column % 16 + c, ..p }
        } else if 0x10 <= c <= 0x17 {
            Panel { column: (c - 0x10) * 16 + p.column % 16, ..p }
        } else if takes_argument(c) {
            Panel { awaiting_argument: true, ..p }
        } else {
            p
        },
        Transfer::Data(d) => Panel {
            ram: p.ram.update(p.page, p.ram[p.page].update(p.column, d)),
            column: (p.column + 1) % 128,
            ..p
        },
    }
}

/// The panel after receiving `ts`, in order.
pub open spec fn apply_transfers(p: Panel, ts: Seq<Transfer>) -> Panel
    decreases ts.len(),
{
    if ts.len() == 0 {
        p
    } else {
        apply_transfer(apply_transfers(p, ts.drop_last()), ts.last())
    }
}

/// RAM with `bytes` written into page `page` from column `x` on.
pub open spec fn write_row(ram: Seq<Seq<u8>>, page: int, x: int, bytes: Seq<u8>) -> Seq<Seq<u8>> {
    Seq::new(
        ram.len(),
        |pg: int|
            Seq::new(
                ram[pg].len(),
                |c: int|
                    if pg == page && x <= c < x + bytes.len() {
                        bytes[c - x]
                    } else {
                        ram[pg][c]
                    },
            ),
    )
}

/// RAM with the 8x16 glyph drawn at text position (`line`, `col`).
pub open spec fn draw_glyph(ram: Seq<Seq<u8>>, line: int, col: int, glyph: Seq<u8>) -> Seq<Seq<u8>> {
    write_row(
        write_row(ram, line_page(line), col_x(col), glyph.subrange(0, 8)),
        line_page(line) + 1,
        col_x(col),
        glyph.subrange(8, 16),
    )
}

/// RAM with `text` drawn from text position (`line`, `col`) on.
pub open spec fn draw_text(ram: Seq<Seq<u8>>, font: Seq<[u8; 16]>, line: int, col: int, text: Seq<char>) -> Seq<
    Seq<u8>,
>
    decreases text.len(),
{
    if text.len() == 0 {
        ram
    } else {
        draw_glyph(
            draw_text(ram, font, line, col, text.drop_last()),
            line,
            col + text.len() - 1,
            glyph_of(font, text.last()),
        )
    }
}

/// Receiving two sequences of transfers one after the other is receiving
/// their concatenation.
pub proof fn lemma_apply_concat(p: Panel, a: Seq<Transfer>, b: Seq<Transfer>)
    ensures
        apply_transfers(p, a + b) == apply_transfers(apply_transfers(p, a), b),
    decreases b.len(),
{
    if b.len() == 0 {
        assert(a + b =~= a);
    } else {
        lemma_apply_concat(p, a, b.drop_last());
        assert((a + b).drop_last() =~= a + b.drop_last());
        assert((a + b).last() == b.last());
    }
}

proof fn lemma_apply_single(p: Panel, t: Transfer)
    ensures
        apply_transfers(p, seq![t]) == apply_transfer(p, t),
{
    assert(seq![t].drop_last() =~= Seq::<Transfer>::empty());
    assert(seq![t].last() == t);
    assert(apply_transfers(p, Seq::<Transfer>::empty()) == p);
}

/// The cursor commands move the pointer and nothing else.
proof fn lemma_cursor(p: Panel, page: int, x: int)
    requires
        panel_wf(p),
        !p.awaiting_argument,
        0 <= page < 8,
        0 <= x < 128,
    ensures
        apply_transfers(p, cursor_transfers(page, x)) == (Panel { page, column: x, ..p }),
{
    let ts = cursor_transfers(page, x);
    let t0 = ts[0];
    let t1 = ts[1];
    let t2 = ts[2];
    assert(ts =~= seq![t0] + seq![t1] + seq![t2]);
    lemma_apply_concat(p, seq![t0] + seq![t1], seq![t2]);
    lemma_apply_concat(p, seq![t0], seq![t1]);
    lemma_apply_single(p, t0);
    let p1 = apply_transfer(p, t0);
    lemma_apply_single(p1, t1);
    let p2 = apply_transfer(p1, t1);
    lemma_apply_single(p2, t2);
    assert(p1 == Panel { page, ..p });
    assert(p2.column == (x / 16) * 16 + p.column % 16);
    assert(p2.column % 16 == p.column % 16);
}

/// Data transfers fill the current page from the current column on.
proof fn lemma_data(p: Panel, bytes: Seq<u8>)
    requires
        panel_wf(p),
        p.column + bytes.len() <= 128,
    ensures
        apply_transfers(p, data_transfers(bytes)) == (Panel {
            ram: write_row(p.ram, p.page, p.column, bytes),
            column: (p.column + bytes.len()) % 128,
            ..p
        }),
    decreases bytes.len(),
{
    if bytes.len() == 0 {
        assert(write_row(p.ram, p.page, p.column, bytes) =~~= p.ram);
        assert(data_transfers(bytes) =~= Seq::<Transfer>::empty());
    } else {
        let n = bytes.len() - 1;
        lemma_data(p, bytes.drop_last());
        assert(data_transfers(bytes).drop_last() =~= data_transfers(bytes.drop_last()));
        let q = apply_transfers(p, data_transfers(bytes.drop_last()));
        assert(q.column == p.column + n);
        let r = apply_transfer(q, Transfer::Data(bytes.last()));
        assert(r.ram =~~= write_row(p.ram, p.page, p.column, bytes));
    }
}

/// Writing a row keeps the shape of RAM.
proof fn lemma_write_row_wf(p: Panel, page: int, x: int, bytes: Seq<u8>)
    requires
        panel_wf(p),
    ensures
        panel_wf(Panel { ram: write_row(p.ram, page, x, bytes), ..p }),
{
}

/// Receiving the transfers of one character draws its glyph in the two
/// pages of its text line and the eight columns of its text column, and
/// changes no other byte of RAM.
pub proof fn lemma_char_drawn(p: Panel, glyph: Seq<u8>, line: int, col: int)
    requires
        panel_wf(p),
        !p.awaiting_argument,
        glyph.len() == 16,
        1 <= line <= 4,
        1 <= col <= 16,
    ensures
        apply_transfers(p, char_transfers(glyph, line, col)).ram == draw_glyph(p.ram, line, col, glyph),
        panel_wf(apply_transfers(p, char_transfers(glyph, line, col))),
        !apply_transfers(p, char_transfers(glyph, line, col)).awaiting_argument,
{
    let pg = line_page(line);
    let x = col_x(col);
    let c1 = cursor_transfers(pg, x);
    let d1 = data_transfers(glyph.subrange(0, 8));
    let c2 = cursor_transfers(pg + 1, x);
    let d2 = data_transfers(glyph.subrange(8, 16));
    lemma_apply_concat(p, c1 + d1 + c2, d2);
    lemma_apply_concat(p, c1 + d1, c2);
    lemma_apply_concat(p, c1, d1);
    lemma_cursor(p, pg, x);
    let p1 = apply_transfers(p, c1);
    lemma_data(p1, glyph.subrange(0, 8));
    let p2 = apply_transfers(p1, d1);
    lemma_write_row_wf(p1, pg, x, glyph.subrange(0, 8));
    lemma_cursor(p2, pg + 1, x);
    let p3 = apply_transfers(p2, c2);
    lemma_data(p3, glyph.subrange(8, 16));
    lemma_write_row_wf(p3, pg + 1, x, glyph.subrange(8, 16));
}

/// Receiving the transfers of a text draws the text, glyph after glyph.
pub proof fn lemma_text_drawn(p: Panel, font: Seq<[u8; 16]>, line: int, col: int, text: Seq<char>)
    requires
        panel_wf(p),
        !p.awaiting_argument,
        font.len() == FONT_GLYPHS,
        text_fits(line, col, text.len() as int),
        forall|k: int| 0 <= k < text.len() ==> is_visible_ascii(#[trigger] text[k]),
    ensures
        apply_transfers(p, text_transfers(font, line, col, text)).ram == draw_text(p.ram, font, line, col, text),
        panel_wf(apply_transfers(p, text_transfers(font, line, col, text))),
        !apply_transfers(p, text_transfers(font, line, col, text)).awaiting_argument,
    decreases text.len(),
{
    if text.len() > 0 {
        let init = text.drop_last();
        lemma_text_drawn(p, font, line, col, init);
        let q = apply_transfers(p, text_transfers(font, line, col, init));
        let ch = text.last();
        assert(is_visible_ascii(text[text.len() - 1]));
        let g = glyph_of(font, ch);
        assert(g.len() == 16);
        lemma_apply_concat(p, text_transfers(font, line, col, init), char_transfers(g, line, col + text.len() - 1));
        lemma_char_drawn(q, g, line, col + text.len() - 1);
    }
}


/// RAM with every byte zero: every pixel off.
pub open spec fn blank_ram() -> Seq<Seq<u8>> {
    Seq::new(8, |pg: int| Seq::new(128, |c: int| 0u8))
}

/// RAM with the first `n` pages zeroed.
pub open spec fn ram_cleared_upto(ram: Seq<Seq<u8>>, n: int) -> Seq<Seq<u8>> {
    Seq::new(ram.len(), |pg: int| if pg < n { Seq::new(128, |c: int| 0u8) } else { ram[pg] })
}

proof fn lemma_clear_pages(p: Panel, n: nat)
    requires
        panel_wf(p),
        !p.awaiting_argument,
        n <= 8,
    ensures
        panel_wf(apply_transfers(p, clear_pages_transfers(n))),
        !apply_transfers(p, clear_pages_transfers(n)).awaiting_argument,
        apply_transfers(p, clear_pages_transfers(n)).ram == ram_cleared_upto(p.ram, n as int),
    decreases n,
{
    if n == 0 {
        assert(ram_cleared_upto(p.ram, 0) =~~= p.ram);
    } else {
        let m = (n - 1) as nat;
        lemma_clear_pages(p, m);
        let q = apply_transfers(p, clear_pages_transfers(m));
        lemma_apply_concat(p, clear_pages_transfers(m), clear_page_transfers(m as int));
        let zeros = Seq::new(128, |i: int| 0u8);
        lemma_apply_concat(q, cursor_transfers(m as int, 0), data_transfers(zeros));
        lemma_cursor(q, m as int, 0);
        let q1 = apply_transfers(q, cursor_transfers(m as int, 0));
        lemma_data(q1, zeros);
        let r = apply_transfers(q1, data_transfers(zeros));
        assert(r.ram =~~= ram_cleared_upto(p.ram, n as int));
    }
}

/// Receiving the transfers of `clear_screen` sets every byte of RAM to zero.
pub proof fn lemma_screen_cleared(p: Panel)
    requires
        panel_wf(p),
        !p.awaiting_argument,
    ensures
        apply_transfers(p, clear_transfers()).ram == blank_ram(),
        panel_wf(apply_transfers(p, clear_transfers())),
        !apply_transfers(p, clear_transfers()).awaiting_argument,
{
    lemma_clear_pages(p, 8);
    assert(ram_cleared_upto(p.ram, 8) =~~= blank_ram());
}


/// A command that moves the RAM pointer: page start address or a column
/// address nibble.
pub open spec fn moves_pointer(c: u8) -> bool {
    (0xB0 <= c <= 0xB7) || c <= 0x17
}

/// A command sequence that only configures the panel: every two-byte command
/// comes with its argument, and no command moves the RAM pointer.
pub open spec fn configures_only(cmds: Seq<u8>) -> bool
    decreases cmds.len(),
{
    if cmds.len() == 0 {
        true
    } else if takes_argument(cmds[0]) {
        cmds.len() >= 2 && configures_only(cmds.skip(2))
    } else {
        !moves_pointer(cmds[0]) && configures_only(cmds.skip(1))
    }
}

/// A configuring command sequence leaves RAM, RAM pointer and argument state
/// as they were.
proof fn lemma_configuring_keeps_panel(p: Panel, cmds: Seq<u8>)
    requires
        !p.awaiting_argument,
        configures_only(cmds),
    ensures
        apply_transfers(p, command_transfers(cmds)) == p,
    decreases cmds.len(),
{
    if cmds.len() > 0 {
        let n: int = if takes_argument(cmds[0]) { 2 } else { 1 };
        let head = command_transfers(cmds.take(n));
        let rest = cmds.skip(n);
        assert(command_transfers(cmds) =~= head + command_transfers(rest));
        lemma_apply_concat(p, head, command_transfers(rest));
        if n == 2 {
            assert(head =~= seq![head[0]] + seq![head[1]]);
            lemma_apply_concat(p, seq![head[0]], seq![head[1]]);
            lemma_apply_single(p, head[0]);
            lemma_apply_single(apply_transfer(p, head[0]), head[1]);
        } else {
            assert(head =~= seq![head[0]]);
            lemma_apply_single(p, head[0]);
        }
        lemma_configuring_keeps_panel(p, rest);
    } else {
        assert(command_transfers(cmds) =~= Seq::<Transfer>::empty());
    }
}

/// The initialisation commands configure the panel and leave its RAM and
/// RAM pointer as they were.
proof fn lemma_init_commands_keep_ram(p: Panel)
    requires
        panel_wf(p),
        !p.awaiting_argument,
    ensures
        apply_transfers(p, command_transfers(init_commands())) == p,
{
    assert(configures_only(init_commands())) by {
        reveal_with_fuel(configures_only, 17);
    }
    lemma_configuring_keeps_panel(p, init_commands());
}

/// After receiving the transfers of `init`, every byte of RAM is zero: the
/// screen is blank.
pub proof fn lemma_init_blank(p: Panel)
    requires
        panel_wf(p),
        !p.awaiting_argument,
    ensures
        apply_transfers(p, init_transfers()).ram == blank_ram(),
        panel_wf(apply_transfers(p, init_transfers())),
        !apply_transfers(p, init_transfers()).awaiting_argument,
{
    lemma_init_commands_keep_ram(p);
    lemma_apply_concat(p, command_transfers(init_commands()), clear_transfers());
    lemma_screen_cleared(p);
}

/// Showing one character: once the panel has received the transfers of
/// character `ch` at text position (`line`, `col`), page `2 * (line - 1)`
/// holds bytes 0..8 of font entry `ch - ' '` in pixel columns
/// `8 * (col - 1) .. 8 * col`, page `2 * (line - 1) + 1` holds bytes 8..16 of
/// that entry in the same columns, and every other byte is as it was.
pub proof fn lemma_char_cells(p: Panel, font: Seq<[u8; 16]>, line: int, col: int, ch: char)
    requires
        panel_wf(p),
        !p.awaiting_argument,
        font.len() == FONT_GLYPHS,
        1 <= line <= 4,
        1 <= col <= 16,
        is_visible_ascii(ch),
    ensures
        ({
            let q = apply_transfers(p, char_transfers(glyph_of(font, ch), line, col));
            let g = font[ch as int - ' ' as int]@;
            &&& panel_wf(q)
            &&& !q.awaiting_argument
            &&& forall|pg: int, c: int|
                0 <= pg < 8 && 0 <= c < 128 ==> #[trigger] q.ram[pg][c] == (if pg == 2 * (line - 1) && 8
                    * (col - 1) <= c < 8 * col {
                    g[c - 8 * (col - 1)]
                } else if pg == 2 * (line - 1) + 1 && 8 * (col - 1) <= c < 8 * col {
                    g[8 + c - 8 * (col - 1)]
                } else {
                    p.ram[pg][c]
                })
        }),
{
    let g = glyph_of(font, ch);
    assert(g.len() == 16);
    lemma_char_drawn(p, g, line, col);
}

/// The byte at page `pg` and column `c` once `text` is drawn over `ram` from
/// text position (`line`, `col`) on. Text line `line` covers pages
/// `2 * (line - 1)` (upper half) and `2 * (line - 1) + 1` (lower half); text
/// column `col` covers pixel columns `8 * (col - 1)` to `8 * col - 1`. The
/// `k`-th character `text[k]` is drawn with font entry `text[k] - ' '`: its
/// bytes 0..8 fill the upper page of its cell, bytes 8..16 the lower page.
/// Outside the text the old byte stays.
pub open spec fn text_cell(ram: Seq<Seq<u8>>, font: Seq<[u8; 16]>, line: int, col: int, text: Seq<char>, pg: int, c: int) -> u8 {
    let p0 = 2 * (line - 1);
    let x0 = 8 * (col - 1);
    if (pg == p0 || pg == p0 + 1) && x0 <= c < x0 + 8 * text.len() {
        font[text[(c - x0) / 8] as int - ' ' as int]@[(pg - p0) * 8 + (c - x0) % 8]
    } else {
        ram[pg][c]
    }
}

/// Reading RAM after a text is drawn gives, in each character cell, the
/// glyph of that character, and elsewhere the bytes that were there before.
pub proof fn lemma_text_cells(ram: Seq<Seq<u8>>, font: Seq<[u8; 16]>, line: int, col: int, text: Seq<char>)
    requires
        ram.len() == 8,
        forall|pg: int| 0 <= pg < 8 ==> #[trigger] ram[pg].len() == 128,
        font.len() == FONT_GLYPHS,
        text_fits(line, col, text.len() as int),
        forall|k: int| 0 <= k < text.len() ==> is_visible_ascii(#[trigger] text[k]),
    ensures
        draw_text(ram, font, line, col, text).len() == 8,
        forall|pg: int, c: int|
            0 <= pg < 8 && 0 <= c < 128 ==> #[trigger] draw_text(ram, font, line, col, text)[pg][c]
                == text_cell(ram, font, line, col, text, pg, c),
        forall|pg: int| 0 <= pg < 8 ==> #[trigger] draw_text(ram, font, line, col, text)[pg].len() == 128,
    decreases text.len(),
{
    if text.len() > 0 {
        let n = text.len() - 1;
        let init = text.drop_last();
        lemma_text_cells(ram, font, line, col, init);
        let prev = draw_text(ram, font, line, col, init);
        let g = glyph_of(font, text.last());
        let p0 = line_page(line);
        let x0 = col_x(col);
        let xl = col_x(col + n);
        assert(xl == x0 + 8 * n);
        assert forall|pg: int, c: int| 0 <= pg < 8 && 0 <= c < 128 implies #[trigger] draw_text(ram, font, line, col, text)[pg][c]
            == text_cell(ram, font, line, col, text, pg, c) by {
            if (pg == p0 || pg == p0 + 1) && xl <= c < xl + 8 {
                assert((c - x0) / 8 == n);
                assert((c - x0) % 8 == c - xl);
            } else if (pg == p0 || pg == p0 + 1) && x0 <= c < xl {
                assert((c - x0) / 8 < n);
                assert(text[(c - x0) / 8] == init[(c - x0) / 8]);
            }
        }
    }
}


/// Every character of a number's text has a glyph.
proof fn lemma_digits_visible(num: nat, len: nat, radix: nat)
    requires
        2 <= radix <= 16,
    ensures
        forall|k: int| 0 <= k < len ==> is_visible_ascii(#[trigger] digits_text(num, len, radix)[k]),
{
    assert forall|k: int| 0 <= k < len implies is_visible_ascii(#[trigger] digits_text(num, len, radix)[k]) by {
        lemma_digits_text_chars(num, len, radix, k);
    }
}

/// After receiving the transfers of a number shown with `len` digits in base
/// `radix`, each of the `len` cells holds the glyph of its digit, every other
/// byte of RAM is as it was, and the digits read back as the number when it
/// fits in `len` digits.
pub proof fn lemma_number_shown(p: Panel, font: Seq<[u8; 16]>, line: int, col: int, num: nat, len: nat, radix: nat)
    requires
        panel_wf(p),
        !p.awaiting_argument,
        font.len() == FONT_GLYPHS,
        text_fits(line, col, len as int),
        2 <= radix <= 16,
        num < power(radix as int, len),
    ensures
        ({
            let text = digits_text(num, len, radix);
            let q = apply_transfers(p, text_transfers(font, line, col, text));
            &&& forall|pg: int, c: int|
                0 <= pg < 8 && 0 <= c < 128 ==> #[trigger] q.ram[pg][c] == text_cell(p.ram, font, line, col, text, pg, c)
            &&& text_value(text, radix) == num
        }),
{
    let text = digits_text(num, len, radix);
    lemma_digits_visible(num, len, radix);
    lemma_text_drawn(p, font, line, col, text);
    lemma_text_cells(p.ram, font, line, col, text);
    lemma_digits_text_value(num, len, radix);
}

} // verus!

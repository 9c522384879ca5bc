use stm32_utils::i2c::Transfer;
use stm32_utils::oled::{Oled, FONT_GLYPHS};

/// A font in which every byte of the glyph of `c` is the code of `c`, so the
/// data bytes spell the characters drawn.
fn code_font() -> Vec<[u8; 16]> {
    (0..FONT_GLYPHS).map(|i| [(i as u8) + b' '; 16]).collect()
}

/// A font whose glyph bytes are all different, to check byte order.
fn counting_font() -> Vec<[u8; 16]> {
    (0..FONT_GLYPHS)
        .map(|i| {
            let mut g = [0u8; 16];
            for (j, b) in g.iter_mut().enumerate() {
                *b = (i as u8).wrapping_mul(16).wrapping_add(j as u8);
            }
            g
        })
        .collect()
}

/// A model panel: 8 pages of 128 columns in page addressing mode.
struct Panel {
    ram: [[u8; 128]; 8],
    page: usize,
    column: usize,
    awaiting_argument: bool,
}

impl Panel {
    fn new() -> Self {
        Panel { ram: [[0xFF; 128]; 8], page: 0, column: 0, awaiting_argument: false }
    }

    fn receive(&mut self, ts: &[Transfer]) {
        for t in ts {
            match *t {
                Transfer::Command(c) => {
                    if self.awaiting_argument {
                        self.awaiting_argument = false;
                    } else if (0xB0..=0xB7).contains(&c) {
                        self.page = (c - 0xB0) as usize;
                    } else if c <= 0x0F {
                        self.column = self.column / 16 * 16 + c as usize;
                    } else if (0x10..=0x17).contains(&c) {
                        self.column = (c as usize - 0x10) * 16 + self.column % 16;
                    } else if [0x81, 0x8D, 0xA8, 0xD3, 0xD5, 0xD9, 0xDA, 0xDB].contains(&c) {
                        self.awaiting_argument = true;
                    }
                }
                Transfer::Data(d) => {
                    self.ram[self.page][self.column] = d;
                    self.column = (self.column + 1) % 128;
                }
            }
        }
    }

    /// The `n` characters shown on line `line` (1..=4) from column `col`
    /// (1..=16) on, read through the code font.
    fn line_text(&self, line: usize, col: usize, n: usize) -> String {
        let page = (line - 1) * 2;
        (col - 1..col - 1 + n).map(|c| self.ram[page][c * 8] as char).collect()
    }
}

fn data_text(ts: &[Transfer]) -> String {
    let mut s = String::new();
    let data: Vec<u8> = ts
        .iter()
        .filter_map(|t| match t {
            Transfer::Data(d) => Some(*d),
            _ => None,
        })
        .collect();
    for chunk in data.chunks(16) {
        s.push(chunk[0] as char);
    }
    s
}

#[test]
fn new_driver_has_nothing_queued() {
    let mut oled = Oled::new(code_font());
    assert!(oled.take_transfers().is_empty());
}

#[test]
fn init_sends_configuration_then_clears() {
    let mut oled = Oled::new(code_font());
    oled.init();
    let ts = oled.take_transfers();
    let expected: Vec<Transfer> = [
        0xAE, 0xD5, 0x80, 0xA8, 0x3F, 0xD3, 0x00, 0x40, 0xA1, 0xC8, 0xDA, 0x12, 0x81, 0xCF, 0xD9,
        0xF1, 0xDB, 0x30, 0xA4, 0xA6, 0x8D, 0x14, 0xAF,
    ]
    .iter()
    .map(|&c| Transfer::Command(c))
    .collect();
    assert_eq!(&ts[..23], &expected[..]);
    assert_eq!(ts.len(), 23 + 8 * (3 + 128));
    let mut panel = Panel::new();
    panel.receive(&ts);
    assert!(panel.ram.iter().all(|row| row.iter().all(|&b| b == 0)));
    assert!(!panel.awaiting_argument);
}

#[test]
fn clear_screen_zeroes_every_page() {
    let mut oled = Oled::new(code_font());
    oled.clear_screen();
    let ts = oled.take_transfers();
    assert_eq!(ts.len(), 8 * 131);
    for page in 0..8 {
        let base = page * 131;
        assert_eq!(ts[base], Transfer::Command(0xB0 + page as u8));
        assert_eq!(ts[base + 1], Transfer::Command(0x10));
        assert_eq!(ts[base + 2], Transfer::Command(0x00));
        assert!(ts[base + 3..base + 131].iter().all(|t| *t == Transfer::Data(0)));
    }
    let mut panel = Panel::new();
    panel.receive(&ts);
    assert!(panel.ram.iter().all(|row| row.iter().all(|&b| b == 0)));
}

#[test]
fn show_char_draws_glyph_at_its_cell() {
    let font = counting_font();
    let mut oled = Oled::new(font.clone());
    oled.show_char(2, 3, 'I');
    let ts = oled.take_transfers();
    let g = font[('I' as u8 - b' ') as usize];
    // page 2, column 16: high nibble 1, low nibble 0
    assert_eq!(&ts[0..3], &[Transfer::Command(0xB2), Transfer::Command(0x11), Transfer::Command(0x00)]);
    for i in 0..8 {
        assert_eq!(ts[3 + i], Transfer::Data(g[i]));
    }
    assert_eq!(&ts[11..14], &[Transfer::Command(0xB3), Transfer::Command(0x11), Transfer::Command(0x00)]);
    for i in 0..8 {
        assert_eq!(ts[14 + i], Transfer::Data(g[8 + i]));
    }
    assert_eq!(ts.len(), 22);
    let mut panel = Panel::new();
    panel.receive(&ts);
    for i in 0..8 {
        assert_eq!(panel.ram[2][16 + i], g[i]);
        assert_eq!(panel.ram[3][16 + i], g[8 + i]);
    }
    assert_eq!(panel.ram[2][15], 0xFF);
    assert_eq!(panel.ram[2][24], 0xFF);
}

#[test]
fn show_char_in_last_cell() {
    let mut oled = Oled::new(code_font());
    oled.show_char(4, 16, '~');
    let ts = oled.take_transfers();
    assert_eq!(&ts[0..3], &[Transfer::Command(0xB6), Transfer::Command(0x17), Transfer::Command(0x08)]);
    let mut panel = Panel::new();
    panel.receive(&ts);
    assert!(panel.ram[6][120..128].iter().all(|&b| b == b'~'));
    assert!(panel.ram[7][120..128].iter().all(|&b| b == b'~'));
}

#[test]
fn show_string_draws_each_character() {
    let mut oled = Oled::new(code_font());
    oled.show_string(1, 3, "Fuck you!");
    let ts = oled.take_transfers();
    assert_eq!(ts.len(), 9 * 22);
    assert_eq!(data_text(&ts), "Fuck you!");
    let mut panel = Panel::new();
    panel.receive(&ts);
    assert_eq!(panel.line_text(1, 3, 9), "Fuck you!");
}

#[test]
fn show_string_empty_queues_nothing() {
    let mut oled = Oled::new(code_font());
    oled.show_string(1, 1, "");
    assert!(oled.take_transfers().is_empty());
}

#[test]
fn show_number_pads_and_truncates() {
    let mut oled = Oled::new(code_font());
    oled.show_number(2, 1, 12345, 5);
    assert_eq!(data_text(&oled.take_transfers()), "12345");
    oled.show_number(1, 7, 42, 5);
    assert_eq!(data_text(&oled.take_transfers()), "00042");
    oled.show_number(1, 1, 12345, 3);
    assert_eq!(data_text(&oled.take_transfers()), "345");
    oled.show_number(1, 1, u32::MAX, 10);
    assert_eq!(data_text(&oled.take_transfers()), "4294967295");
    oled.show_number(1, 1, 7, 0);
    assert!(oled.take_transfers().is_empty());
}

#[test]
fn show_number_on_panel() {
    let mut oled = Oled::new(code_font());
    oled.show_string(2, 1, "Max:");
    oled.show_number(2, 5, 65535, 10);
    let mut panel = Panel::new();
    panel.receive(&oled.take_transfers());
    assert_eq!(panel.line_text(2, 1, 14), "Max:0000065535");
}

#[test]
fn show_signed_number_shows_sign_and_magnitude() {
    let mut oled = Oled::new(code_font());
    oled.show_singed_number(2, 7, -66, 2);
    assert_eq!(data_text(&oled.take_transfers()), "-66");
    oled.show_singed_number(1, 7, 0, 5);
    assert_eq!(data_text(&oled.take_transfers()), "+00000");
    oled.show_singed_number(1, 1, 123, 5);
    assert_eq!(data_text(&oled.take_transfers()), "+00123");
    oled.show_singed_number(1, 1, i32::MIN, 10);
    assert_eq!(data_text(&oled.take_transfers()), "-2147483648");
    oled.show_singed_number(1, 1, i32::MAX, 10);
    assert_eq!(data_text(&oled.take_transfers()), "+2147483647");
}

#[test]
fn show_hex_number_uses_upper_case_digits() {
    let mut oled = Oled::new(code_font());
    oled.show_hex_number(3, 1, 0xAA55, 4);
    assert_eq!(data_text(&oled.take_transfers()), "AA55");
    oled.show_hex_number(3, 1, 0xDEADBEEF, 8);
    assert_eq!(data_text(&oled.take_transfers()), "DEADBEEF");
    oled.show_hex_number(3, 1, 0x1F, 4);
    assert_eq!(data_text(&oled.take_transfers()), "001F");
}

#[test]
fn show_binary_number_shows_bits() {
    let mut oled = Oled::new(code_font());
    oled.show_binary_number(4, 1, 0b111101011, 9);
    assert_eq!(data_text(&oled.take_transfers()), "111101011");
    oled.show_binary_number(4, 1, 5, 16);
    assert_eq!(data_text(&oled.take_transfers()), "0000000000000101");
}

#[test]
fn take_transfers_empties_queue() {
    let mut oled = Oled::new(code_font());
    oled.show_char(1, 1, 'A');
    assert_eq!(oled.take_transfers().len(), 22);
    assert!(oled.take_transfers().is_empty());
}

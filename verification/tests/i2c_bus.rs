use stm32_utils::arith::pow;
use stm32_utils::i2c::{
    encode_transfers, start_i2c, stop_i2c, write_byte_i2c, write_cmd, write_data, BusLine, PinWrite,
    Transfer,
};

#[derive(Debug, PartialEq)]
enum Seen {
    Start,
    Stop,
    Bit(bool),
}

/// What a receiver watching the two lines observes, starting from a free bus.
fn watch(writes: &[PinWrite]) -> (Vec<Seen>, bool, bool) {
    let (mut scl, mut sda) = (true, true);
    let mut seen = Vec::new();
    for w in writes {
        match w.line {
            BusLine::Scl => {
                if !scl && w.high {
                    seen.push(Seen::Bit(sda));
                }
                scl = w.high;
            }
            BusLine::Sda => {
                if scl && sda && !w.high {
                    seen.push(Seen::Start);
                }
                if scl && !sda && w.high {
                    seen.push(Seen::Stop);
                }
                sda = w.high;
            }
        }
    }
    (seen, scl, sda)
}

fn byte_from(bits: &[Seen]) -> u8 {
    let mut v: u8 = 0;
    for b in bits {
        match b {
            Seen::Bit(x) => v = (v << 1) | (*x as u8),
            _ => panic!("not a bit"),
        }
    }
    v
}

/// Reads transfers back off the wire the way the display does.
fn decode(writes: &[PinWrite]) -> Vec<Transfer> {
    let (seen, scl, sda) = watch(writes);
    assert!(scl && sda, "bus not released");
    assert_eq!(seen.len() % 30, 0);
    let mut out = Vec::new();
    for frame in seen.chunks(30) {
        assert_eq!(frame[0], Seen::Start);
        assert_eq!(frame[29], Seen::Stop);
        assert_eq!(byte_from(&frame[1..9]), 0x78);
        let control = byte_from(&frame[10..18]);
        let payload = byte_from(&frame[19..27]);
        out.push(match control {
            0x00 => Transfer::Command(payload),
            0x40 => Transfer::Data(payload),
            other => panic!("bad control byte {other:#x}"),
        });
    }
    out
}

#[test]
fn pow_gives_exact_powers() {
    assert_eq!(pow(10, 0), 1);
    assert_eq!(pow(10, 3), 1000);
    assert_eq!(pow(10, 9), 1_000_000_000);
    assert_eq!(pow(16, 7), 0x1000_0000);
    assert_eq!(pow(2, 31), 0x8000_0000);
    assert_eq!(pow(0, 0), 1);
    assert_eq!(pow(0, 5), 0);
    assert_eq!(pow(1, 31), 1);
}

#[test]
fn start_and_stop_conditions() {
    let mut out = Vec::new();
    start_i2c(&mut out);
    assert_eq!(
        out,
        vec![
            PinWrite { line: BusLine::Sda, high: true },
            PinWrite { line: BusLine::Scl, high: true },
            PinWrite { line: BusLine::Sda, high: false },
            PinWrite { line: BusLine::Scl, high: false },
        ]
    );
    let mut out = Vec::new();
    stop_i2c(&mut out);
    assert_eq!(
        out,
        vec![
            PinWrite { line: BusLine::Sda, high: false },
            PinWrite { line: BusLine::Scl, high: true },
            PinWrite { line: BusLine::Sda, high: true },
        ]
    );
}

#[test]
fn byte_is_clocked_msb_first_with_ack_clock() {
    let mut out = Vec::new();
    write_byte_i2c(&mut out, 0xA5);
    assert_eq!(out.len(), 26);
    let sda: Vec<bool> = (0..8).map(|i| out[3 * i].high).collect();
    assert_eq!(sda, vec![true, false, true, false, false, true, false, true]);
    for i in 0..8 {
        assert_eq!(out[3 * i].line, BusLine::Sda);
        assert_eq!(out[3 * i + 1], PinWrite { line: BusLine::Scl, high: true });
        assert_eq!(out[3 * i + 2], PinWrite { line: BusLine::Scl, high: false });
    }
    assert_eq!(out[24], PinWrite { line: BusLine::Scl, high: true });
    assert_eq!(out[25], PinWrite { line: BusLine::Scl, high: false });
}

#[test]
fn command_and_data_frames_decode_back() {
    let mut out = Vec::new();
    write_cmd(&mut out, 0xAF);
    assert_eq!(out.len(), 4 + 3 * 26 + 3);
    assert_eq!(decode(&out), vec![Transfer::Command(0xAF)]);
    let mut out = Vec::new();
    write_data(&mut out, 0x3C);
    assert_eq!(decode(&out), vec![Transfer::Data(0x3C)]);
}

#[test]
fn every_byte_round_trips_over_the_wire() {
    for b in 0..=255u8 {
        let ts = [Transfer::Command(b), Transfer::Data(b)];
        let writes = encode_transfers(&ts);
        assert_eq!(decode(&writes), ts.to_vec());
    }
}

#[test]
fn encode_empty_is_empty() {
    assert!(encode_transfers(&[]).is_empty());
}

#[test]
fn lone_byte_moves_sda_only_while_scl_low() {
    for b in [0x00u8, 0xFF, 0xA5, 0x5A, 0x78] {
        let mut out = Vec::new();
        write_byte_i2c(&mut out, b);
        // start with SCL low, as after a start condition
        let (mut scl, mut sda) = (false, true);
        let mut bits = Vec::new();
        for w in &out {
            match w.line {
                BusLine::Sda => {
                    assert!(!scl, "SDA moved while SCL high");
                    sda = w.high;
                }
                BusLine::Scl => {
                    assert_ne!(scl, w.high, "SCL write did not flip the clock");
                    if w.high {
                        bits.push(sda);
                    }
                    scl = w.high;
                }
            }
        }
        assert!(!scl);
        assert_eq!(bits.len(), 9);
        let value = bits[..8].iter().fold(0u8, |v, &x| (v << 1) | x as u8);
        assert_eq!(value, b);
        assert_eq!(bits[8], b & 1 == 1);
    }
}

//! Bit-banged I2C as the OLED driver drives it: two open-drain lines, SCL and
//! SDA, each set high or low in turn. This module says which pin writes make
//! up a start condition, a stop condition, one byte and one whole display
//! transfer, and proves what a receiver watching the two lines sees.
use vstd::prelude::*;

verus! {

/// The two lines of the bus.
#[derive(Clone, Copy, PartialEq, Eq, Structural, Debug)]
pub enum BusLine {
    Scl,
    Sda,
}

/// One write to one pin: drive `line` high (`true`) or low (`false`).
#[derive(Clone, Copy, PartialEq, Eq, Structural, Debug)]
pub struct PinWrite {
    pub line: BusLine,
    pub high: bool,
}

/// What one I2C transaction to the display carries: a command byte or a byte
/// of display RAM.
#[derive(Clone, Copy, PartialEq, Eq, Structural, Debug)]
pub enum Transfer {
    Command(u8),
    Data(u8),
}

/// The 8-bit write address of the display (slave address 0x3C, SA0 low).
pub const OLED_ADDRESS: u8 = 0x78;

/// Control byte announcing a command byte.
pub const CONTROL_COMMAND: u8 = 0x00;

/// Control byte announcing a data byte.
pub const CONTROL_DATA: u8 = 0x40;

pub open spec fn pw(line: BusLine, high: bool) -> PinWrite {
    PinWrite { line, high }
}

/// Bit `i` of `b`, counted from the most significant bit (`i == 0`) down.
pub open spec fn msb_bit(b: u8, i: int) -> bool {
    (b >> ((7 - i) as u8)) & 1u8 == 1u8
}

/// Start condition: SDA falls while SCL is high, then SCL is pulled low.
pub open spec fn start_seq() -> Seq<PinWrite> {
    seq![pw(BusLine::Sda, true), pw(BusLine::Scl, true), pw(BusLine::Sda, false), pw(BusLine::Scl, false)]
}

/// Stop condition: SDA rises while SCL is high.
pub open spec fn stop_seq() -> Seq<PinWrite> {
    seq![pw(BusLine::Sda, false), pw(BusLine::Scl, true), pw(BusLine::Sda, true)]
}

/// One data bit: set SDA, then pulse SCL.
pub open spec fn bit_seq(b: u8, i: int) -> Seq<PinWrite> {
    seq![pw(BusLine::Sda, msb_bit(b, i)), pw(BusLine::Scl, true), pw(BusLine::Scl, false)]
}

/// The first `n` bits of `b`, most significant first.
pub open spec fn bits_seq(b: u8, n: nat) -> Seq<PinWrite>
    decreases n,
{
    if n == 0 {
        Seq::empty()
    } else {
        bits_seq(b, (n - 1) as nat) + bit_seq(b, n - 1)
    }
}

/// A whole byte: eight bits, then one more SCL pulse for the acknowledge slot.
pub open spec fn byte_seq(b: u8) -> Seq<PinWrite> {
    bits_seq(b, 8) + seq![pw(BusLine::Scl, true), pw(BusLine::Scl, false)]
}

/// One transaction: start, address, control byte, payload, stop.
pub open spec fn frame_seq(control: u8, payload: u8) -> Seq<PinWrite> {
    start_seq() + byte_seq(OLED_ADDRESS) + byte_seq(control) + byte_seq(payload) + stop_seq()
}

pub open spec fn transfer_control(t: Transfer) -> u8 {
    match t {
        Transfer::Command(_) => CONTROL_COMMAND,
        Transfer::Data(_) => CONTROL_DATA,
    }
}

pub open spec fn transfer_payload(t: Transfer) -> u8 {
    match t {
        Transfer::Command(c) => c,
        Transfer::Data(d) => d,
    }
}

/// The pin writes of one transfer.
pub open spec fn transfer_seq(t: Transfer) -> Seq<PinWrite> {
    frame_seq(transfer_control(t), transfer_payload(t))
}

/// The pin writes of a sequence of transfers, one after another.
pub open spec fn transfers_seq(ts: Seq<Transfer>) -> Seq<PinWrite>
    decreases ts.len(),
{
    if ts.len() == 0 {
        Seq::empty()
    } else {
        transfers_seq(ts.drop_last()) + transfer_seq(ts.last())
    }
}

// ---------------------------------------------------------------------------
// Executable encoders
// ---------------------------------------------------------------------------

/// Appends a start condition.
pub fn start_i2c(out: &mut Vec<PinWrite>)
    ensures
        final(out)@ == old(out)@ + start_seq(),
{
    out.push(PinWrite { line: BusLine::Sda, high: true });
    out.push(PinWrite { line: BusLine::Scl, high: true });
    out.push(PinWrite { line: BusLine::Sda, high: false });
    out.push(PinWrite { line: BusLine::Scl, high: false });
}

/// Appends a stop condition.
pub fn stop_i2c(out: &mut Vec<PinWrite>)
    ensures
        final(out)@ == old(out)@ + stop_seq(),
{
    out.push(PinWrite { line: BusLine::Sda, high: false });
    out.push(PinWrite { line: BusLine::Scl, high: true });
    out.push(PinWrite { line: BusLine::Sda, high: true });
}

/// Appends the clocking of one byte, most significant bit first, followed by
/// the acknowledge clock.
pub fn write_byte_i2c(out: &mut Vec<PinWrite>, byte: u8)
    ensures
        final(out)@ == old(out)@ + byte_seq(byte),
{
    let ghost start = out@;
    let mut i: u8 = 0;
    while i < 8
        invariant
            i <= 8,
            out@ == start + bits_seq(byte, i as nat),
        decreases 8 - i,
    {
        let high = (byte & (0x80u8 >> i)) != 0;
        assert(high == msb_bit(byte, i as int)) by {
            assert((byte & (0x80u8 >> i)) != 0 <==> (byte >> (7u8 - i) as u8) & 1u8 == 1u8)
                by (bit_vector)
                requires
                    i < 8,
            ;
        }
        out.push(PinWrite { line: BusLine::Sda, high });
        out.push(PinWrite { line: BusLine::Scl, high: true });
        out.push(PinWrite { line: BusLine::Scl, high: false });
        assert(out@ == start + bits_seq(byte, (i + 1) as nat));
        i = i + 1;
    }
    out.push(PinWrite { line: BusLine::Scl, high: true });
    out.push(PinWrite { line: BusLine::Scl, high: false });
}

/// Appends one transaction carrying `control` and `payload`.
fn write_frame(out: &mut Vec<PinWrite>, control: u8, payload: u8)
    ensures
        final(out)@ == old(out)@ + frame_seq(control, payload),
{
    start_i2c(out);
    write_byte_i2c(out, OLED_ADDRESS);
    write_byte_i2c(out, control);
    write_byte_i2c(out, payload);
    stop_i2c(out);
}

/// Appends the transaction that sends command byte `cmd` to the display.
pub fn write_cmd(out: &mut Vec<PinWrite>, cmd: u8)
    ensures
        final(out)@ == old(out)@ + transfer_seq(Transfer::Command(cmd)),
{
    write_frame(out, CONTROL_COMMAND, cmd);
}

/// Appends the transaction that writes `data` to display RAM.
pub fn write_data(out: &mut Vec<PinWrite>, data: u8)
    ensures
        final(out)@ == old(out)@ + transfer_seq(Transfer::Data(data)),
{
    write_frame(out, CONTROL_DATA, data);
}

/// Appends the transaction of `t`.
pub fn write_transfer(out: &mut Vec<PinWrite>, t: Transfer)
    ensures
        final(out)@ == old(out)@ + transfer_seq(t),
{
    match t {
        Transfer::Command(c) => write_cmd(out, c),
        Transfer::Data(d) => write_data(out, d),
    }
}

/// The pin writes that carry `ts` to the display, in order.
pub fn encode_transfers(ts: &[Transfer]) -> (out: Vec<PinWrite>)
    ensures
        out@ == transfers_seq(ts@),
{
    let mut out: Vec<PinWrite> = Vec::new();
    let mut i: usize = 0;
    while i < ts.len()
        invariant
            i <= ts@.len(),
            out@ == transfers_seq(ts@.subrange(0, i as int)),
        decreases ts@.len() - i,
    {
        write_transfer(&mut out, ts[i]);
        assert(ts@.subrange(0, i + 1).drop_last() == ts@.subrange(0, i as int));
        i = i + 1;
    }
    assert(ts@.subrange(0, ts@.len() as int) == ts@);
    out
}


// ---------------------------------------------------------------------------
// What a receiver sees on the wire
// ---------------------------------------------------------------------------

/// The levels of the two lines.
#[derive(Clone, Copy, PartialEq, Eq, Structural, Debug)]
pub struct BusState {
    pub scl: bool,
    pub sda: bool,
}

/// What a receiver on the bus observes: a start condition (SDA falls while
/// SCL is high), a stop condition (SDA rises while SCL is high), or a rising
/// SCL edge, on which it samples SDA.
#[derive(Clone, Copy, PartialEq, Eq, Structural, Debug)]
pub enum BusEvent {
    Start,
    Stop,
    Sample(bool),
}

/// Both lines released high: the bus is free.
pub open spec fn bus_idle() -> BusState {
    BusState { scl: true, sda: true }
}

pub open spec fn next_state(s: BusState, w: PinWrite) -> BusState {
    match w.line {
        BusLine::Scl => BusState { scl: w.high, sda: s.sda },
        BusLine::Sda => BusState { scl: s.scl, sda: w.high },
    }
}

/// The events that one pin write causes, from bus state `s`.
pub open spec fn step_events(s: BusState, w: PinWrite) -> Seq<BusEvent> {
    match w.line {
        BusLine::Scl => if !s.scl && w.high {
            seq![BusEvent::Sample(s.sda)]
        } else {
            Seq::empty()
        },
        BusLine::Sda => if s.scl && s.sda && !w.high {
            seq![BusEvent::Start]
        } else if s.scl && !s.sda && w.high {
            seq![BusEvent::Stop]
        } else {
            Seq::empty()
        },
    }
}

/// The bus state after the writes `ws`, from `s`.
pub open spec fn run_state(s: BusState, ws: Seq<PinWrite>) -> BusState
    decreases ws.len(),
{
    if ws.len() == 0 {
        s
    } else {
        next_state(run_state(s, ws.drop_last()), ws.last())
    }
}

/// Everything a receiver observes during the writes `ws`, from `s`.
pub open spec fn run_events(s: BusState, ws: Seq<PinWrite>) -> Seq<BusEvent>
    decreases ws.len(),
{
    if ws.len() == 0 {
        Seq::empty()
    } else {
        run_events(s, ws.drop_last()) + step_events(run_state(s, ws.drop_last()), ws.last())
    }
}

/// The nine clocks of one byte as sampled: its eight bits, most significant
/// first, then the acknowledge clock, during which SDA keeps the last bit.
pub open spec fn byte_samples(b: u8) -> Seq<BusEvent> {
    Seq::new(8, |i: int| BusEvent::Sample(msb_bit(b, i))).push(BusEvent::Sample(msb_bit(b, 7)))
}

/// What a receiver observes during one transfer from a free bus.
pub open spec fn transfer_events(t: Transfer) -> Seq<BusEvent> {
    seq![BusEvent::Start] + byte_samples(OLED_ADDRESS) + byte_samples(transfer_control(t))
        + byte_samples(transfer_payload(t)) + seq![BusEvent::Sample(false), BusEvent::Stop]
}

/// What a receiver observes during a sequence of transfers from a free bus.
pub open spec fn transfers_events(ts: Seq<Transfer>) -> Seq<BusEvent>
    decreases ts.len(),
{
    if ts.len() == 0 {
        Seq::empty()
    } else {
        transfers_events(ts.drop_last()) + transfer_events(ts.last())
    }
}

/// The number that a sequence of bits spells, most significant first.
pub open spec fn bits_value(bits: Seq<bool>) -> int
    decreases bits.len(),
{
    if bits.len() == 0 {
        0
    } else {
        2 * bits_value(bits.drop_last()) + if bits.last() { 1int } else { 0int }
    }
}

/// Running two write sequences one after the other is running their
/// concatenation.
pub proof fn lemma_run_concat(s: BusState, a: Seq<PinWrite>, b: Seq<PinWrite>)
    ensures
        run_state(s, a + b) == run_state(run_state(s, a), b),
        run_events(s, a + b) == run_events(s, a) + run_events(run_state(s, a), b),
    decreases b.len(),
{
    if b.len() == 0 {
        assert(a + b == a);
    } else {
        lemma_run_concat(s, a, b.drop_last());
        assert((a + b).drop_last() == a + b.drop_last());
        assert((a + b).last() == b.last());
    }
}

proof fn lemma_bits_run(b: u8, n: nat, s: BusState)
    requires
        !s.scl,
        n <= 8,
    ensures
        run_state(s, bits_seq(b, n)) == (if n == 0 {
            s
        } else {
            BusState { scl: false, sda: msb_bit(b, n - 1) }
        }),
        run_events(s, bits_seq(b, n)) == Seq::new(n, |i: int| BusEvent::Sample(msb_bit(b, i))),
    decreases n,
{
    if n > 0 {
        let m = (n - 1) as nat;
        lemma_bits_run(b, m, s);
        lemma_run_concat(s, bits_seq(b, m), bit_seq(b, m as int));
        let s1 = run_state(s, bits_seq(b, m));
        let w = bit_seq(b, m as int);
        reveal_with_fuel(run_state, 4);
        reveal_with_fuel(run_events, 4);
        assert(w.drop_last().drop_last().drop_last() == Seq::<PinWrite>::empty());
        assert(w.drop_last().drop_last() == seq![w[0]]);
        assert(w.drop_last() == seq![w[0], w[1]]);
        assert(run_events(s1, w) == seq![BusEvent::Sample(msb_bit(b, m as int))]);
        assert(run_events(s, bits_seq(b, n)) =~= Seq::new(n, |i: int| BusEvent::Sample(msb_bit(b, i))));
    }
}

proof fn lemma_byte_run(b: u8, s: BusState)
    requires
        !s.scl,
    ensures
        run_state(s, byte_seq(b)) == (BusState { scl: false, sda: msb_bit(b, 7) }),
        run_events(s, byte_seq(b)) == byte_samples(b),
{
    lemma_bits_run(b, 8, s);
    let ack = seq![pw(BusLine::Scl, true), pw(BusLine::Scl, false)];
    lemma_run_concat(s, bits_seq(b, 8), ack);
    let s1 = run_state(s, bits_seq(b, 8));
    reveal_with_fuel(run_state, 3);
    reveal_with_fuel(run_events, 3);
    assert(ack.drop_last().drop_last() == Seq::<PinWrite>::empty());
    assert(ack.drop_last() == seq![ack[0]]);
    assert(run_events(s1, ack) == seq![BusEvent::Sample(msb_bit(b, 7))]);
    assert(run_events(s, byte_seq(b)) =~= byte_samples(b));
}

proof fn lemma_start_run()
    ensures
        run_state(bus_idle(), start_seq()) == (BusState { scl: false, sda: false }),
        run_events(bus_idle(), start_seq()) == seq![BusEvent::Start],
{
    let w = start_seq();
    reveal_with_fuel(run_state, 5);
    reveal_with_fuel(run_events, 5);
    assert(w.drop_last().drop_last().drop_last().drop_last() == Seq::<PinWrite>::empty());
    assert(w.drop_last().drop_last().drop_last() == seq![w[0]]);
    assert(w.drop_last().drop_last() == seq![w[0], w[1]]);
    assert(w.drop_last() == seq![w[0], w[1], w[2]]);
    assert(run_events(bus_idle(), w) =~= seq![BusEvent::Start]);
}

proof fn lemma_stop_run(s: BusState)
    requires
        !s.scl,
    ensures
        run_state(s, stop_seq()) == bus_idle(),
        run_events(s, stop_seq()) == seq![BusEvent::Sample(false), BusEvent::Stop],
{
    let w = stop_seq();
    reveal_with_fuel(run_state, 4);
    reveal_with_fuel(run_events, 4);
    assert(w.drop_last().drop_last().drop_last() == Seq::<PinWrite>::empty());
    assert(w.drop_last().drop_last() == seq![w[0]]);
    assert(w.drop_last() == seq![w[0], w[1]]);
    assert(run_events(s, w) =~= seq![BusEvent::Sample(false), BusEvent::Stop]);
}

/// Every write to SDA happens while SCL is low, so data never looks like a
/// start or stop condition.
pub open spec fn sda_moves_only_while_scl_low(s: BusState, ws: Seq<PinWrite>) -> bool {
    forall|k: int|
        0 <= k < ws.len() && (#[trigger] ws[k]).line == BusLine::Sda ==> !run_state(s, ws.take(k)).scl
}

/// Every write to SCL changes its level: the clock goes high, then low,
/// then high, and so on.
pub open spec fn scl_alternates(s: BusState, ws: Seq<PinWrite>) -> bool {
    forall|k: int|
        0 <= k < ws.len() && (#[trigger] ws[k]).line == BusLine::Scl ==> ws[k].high == !run_state(
            s,
            ws.take(k),
        ).scl
}

proof fn lemma_bits_seq_index(b: u8, n: nat, i: int, j: int)
    requires
        0 <= i < n,
        0 <= j < 3,
    ensures
        bits_seq(b, n).len() == 3 * n,
        bits_seq(b, n)[3 * i + j] == bit_seq(b, i)[j],
    decreases n,
{
    lemma_bits_seq_len(b, n);
    if i < n - 1 {
        lemma_bits_seq_index(b, (n - 1) as nat, i, j);
        lemma_bits_seq_len(b, (n - 1) as nat);
    } else {
        lemma_bits_seq_len(b, (n - 1) as nat);
    }
}

proof fn lemma_bits_seq_len(b: u8, n: nat)
    ensures
        bits_seq(b, n).len() == 3 * n,
    decreases n,
{
    if n > 0 {
        lemma_bits_seq_len(b, (n - 1) as nat);
    }
}

/// The `k`-th write of a byte: SDA for the bit, SCL high, SCL low, eight
/// times, then SCL high and low for the acknowledge clock.
proof fn lemma_byte_seq_index(b: u8, k: int)
    requires
        0 <= k < 26,
    ensures
        byte_seq(b).len() == 26,
        byte_seq(b)[k] == (if k == 24 {
            pw(BusLine::Scl, true)
        } else if k == 25 {
            pw(BusLine::Scl, false)
        } else if k % 3 == 0 {
            pw(BusLine::Sda, msb_bit(b, k / 3))
        } else if k % 3 == 1 {
            pw(BusLine::Scl, true)
        } else {
            pw(BusLine::Scl, false)
        }),
{
    lemma_bits_seq_len(b, 8);
    if k < 24 {
        lemma_bits_seq_index(b, 8, k / 3, k % 3);
        assert(3 * (k / 3) + k % 3 == k);
    }
}

/// SCL is high exactly after the clock-high write of each pulse.
proof fn lemma_byte_prefix_scl(b: u8, s: BusState, k: int)
    requires
        !s.scl,
        0 <= k <= 26,
    ensures
        run_state(s, byte_seq(b).take(k)).scl == ((k < 24 && k % 3 == 2) || k == 25),
    decreases k,
{
    let ws = byte_seq(b);
    lemma_byte_seq_index(b, 0);
    if k == 0 {
        assert(ws.take(0) =~= Seq::<PinWrite>::empty());
    } else {
        lemma_byte_prefix_scl(b, s, k - 1);
        lemma_byte_seq_index(b, k - 1);
        assert(ws.take(k).drop_last() =~= ws.take(k - 1));
        assert(ws.take(k).last() == ws[k - 1]);
    }
}

/// A byte written on its own from a bus with SCL low: SDA moves only while
/// SCL is low, every SCL write flips the clock, the receiver sees no start
/// or stop but exactly nine clocks (the eight bits, most significant first,
/// and the acknowledge clock), and SCL is low again at the end, with SDA at
/// the byte's last bit.
pub proof fn lemma_byte_on_wire(b: u8, s: BusState)
    requires
        !s.scl,
    ensures
        run_state(s, byte_seq(b)) == (BusState { scl: false, sda: msb_bit(b, 7) }),
        run_events(s, byte_seq(b)) == byte_samples(b),
        sda_moves_only_while_scl_low(s, byte_seq(b)),
        scl_alternates(s, byte_seq(b)),
{
    lemma_byte_run(b, s);
    let ws = byte_seq(b);
    lemma_byte_seq_index(b, 0);
    assert forall|k: int| 0 <= k < ws.len() && (#[trigger] ws[k]).line == BusLine::Sda implies !run_state(
        s,
        ws.take(k),
    ).scl by {
        lemma_byte_seq_index(b, k);
        lemma_byte_prefix_scl(b, s, k);
    }
    assert forall|k: int| 0 <= k < ws.len() && (#[trigger] ws[k]).line == BusLine::Scl implies ws[k].high
        == !run_state(s, ws.take(k)).scl by {
        lemma_byte_seq_index(b, k);
        lemma_byte_prefix_scl(b, s, k);
    }
}

/// One transfer, sent from a free bus, is seen by a receiver as exactly one
/// start condition, the address byte, the control byte and the payload byte
/// (each as its eight bits, most significant first, plus the acknowledge
/// clock), one more clock and exactly one stop condition; and it leaves the
/// bus free again. SDA therefore never changes while SCL is high except for
/// the start and the stop.
pub proof fn lemma_transfer_on_wire(t: Transfer)
    ensures
        run_state(bus_idle(), transfer_seq(t)) == bus_idle(),
        run_events(bus_idle(), transfer_seq(t)) == transfer_events(t),
{
    let c = transfer_control(t);
    let p = transfer_payload(t);
    let s0 = bus_idle();
    let a = start_seq();
    let b1 = byte_seq(OLED_ADDRESS);
    let b2 = byte_seq(c);
    let b3 = byte_seq(p);
    let z = stop_seq();
    lemma_start_run();
    let s1 = run_state(s0, a);
    lemma_byte_run(OLED_ADDRESS, s1);
    let s2 = run_state(s1, b1);
    lemma_byte_run(c, s2);
    let s3 = run_state(s2, b2);
    lemma_byte_run(p, s3);
    let s4 = run_state(s3, b3);
    lemma_stop_run(s4);
    lemma_run_concat(s0, a, b1);
    lemma_run_concat(s0, a + b1, b2);
    lemma_run_concat(s0, a + b1 + b2, b3);
    lemma_run_concat(s0, a + b1 + b2 + b3, z);
}

/// A sequence of transfers sent from a free bus is seen as the transfers one
/// after another, and leaves the bus free.
pub proof fn lemma_transfers_on_wire(ts: Seq<Transfer>)
    ensures
        run_state(bus_idle(), transfers_seq(ts)) == bus_idle(),
        run_events(bus_idle(), transfers_seq(ts)) == transfers_events(ts),
    decreases ts.len(),
{
    if ts.len() > 0 {
        lemma_transfers_on_wire(ts.drop_last());
        lemma_run_concat(bus_idle(), transfers_seq(ts.drop_last()), transfer_seq(ts.last()));
        lemma_transfer_on_wire(ts.last());
    } else {
        assert(run_events(bus_idle(), Seq::<PinWrite>::empty()) == Seq::<BusEvent>::empty());
    }
}

proof fn lemma_byte_from_bits(b: u8)
    by (bit_vector)
    ensures
        b as int == ((b >> 7u8) & 1u8) as int * 128 + ((b >> 6u8) & 1u8) as int * 64 + ((b >> 5u8)
            & 1u8) as int * 32 + ((b >> 4u8) & 1u8) as int * 16 + ((b >> 3u8) & 1u8) as int * 8 + ((b
            >> 2u8) & 1u8) as int * 4 + ((b >> 1u8) & 1u8) as int * 2 + ((b >> 0u8) & 1u8) as int,
        ((b >> 7u8) & 1u8) <= 1,
        ((b >> 6u8) & 1u8) <= 1,
        ((b >> 5u8) & 1u8) <= 1,
        ((b >> 4u8) & 1u8) <= 1,
        ((b >> 3u8) & 1u8) <= 1,
        ((b >> 2u8) & 1u8) <= 1,
        ((b >> 1u8) & 1u8) <= 1,
        ((b >> 0u8) & 1u8) <= 1,
{
}

/// The eight bits that a receiver samples for a byte spell that byte back.
pub proof fn lemma_sampled_bits_spell_byte(b: u8)
    ensures
        bits_value(Seq::new(8, |i: int| msb_bit(b, i))) == b,
{
    let bits = Seq::new(8, |i: int| msb_bit(b, i));
    reveal_with_fuel(bits_value, 9);
    assert(bits.drop_last() =~= Seq::new(7, |i: int| msb_bit(b, i)));
    assert(bits.drop_last().drop_last() =~= Seq::new(6, |i: int| msb_bit(b, i)));
    assert(bits.drop_last().drop_last().drop_last() =~= Seq::new(5, |i: int| msb_bit(b, i)));
    assert(bits.drop_last().drop_last().drop_last().drop_last() =~= Seq::new(4, |i: int| msb_bit(b, i)));
    assert(bits.drop_last().drop_last().drop_last().drop_last().drop_last() =~= Seq::new(3, |i: int| msb_bit(b, i)));
    assert(bits.drop_last().drop_last().drop_last().drop_last().drop_last().drop_last() =~= Seq::new(2, |i: int| msb_bit(b, i)));
    assert(bits.drop_last().drop_last().drop_last().drop_last().drop_last().drop_last().drop_last() =~= Seq::new(1, |i: int| msb_bit(b, i)));
    assert(bits.drop_last().drop_last().drop_last().drop_last().drop_last().drop_last().drop_last().drop_last() =~= Seq::<bool>::empty());
    lemma_byte_from_bits(b);
}


/// The level a receiver read at a clock edge (`false` for anything else).
pub open spec fn sample_level(e: BusEvent) -> bool {
    match e {
        BusEvent::Sample(b) => b,
        _ => false,
    }
}

/// The byte a receiver reads from the eight clocks starting at `start`.
pub open spec fn frame_byte(events: Seq<BusEvent>, start: int) -> int {
    bits_value(Seq::new(8, |i: int| sample_level(events[start + i])))
}

/// How the display reads one transaction off the wire: a start condition,
/// its own address, a control byte that says command (0x00) or data (0x40),
/// the payload byte, and a stop condition.
pub open spec fn decode_transfer(events: Seq<BusEvent>) -> Option<Transfer> {
    if events.len() == 30 && events[0] == BusEvent::Start && events[29] == BusEvent::Stop
        && frame_byte(events, 1) == OLED_ADDRESS as int {
        let control = frame_byte(events, 10);
        let payload = frame_byte(events, 19) as u8;
        if control == CONTROL_COMMAND as int {
            Some(Transfer::Command(payload))
        } else if control == CONTROL_DATA as int {
            Some(Transfer::Data(payload))
        } else {
            None
        }
    } else {
        None
    }
}

proof fn lemma_frame_byte_at(events: Seq<BusEvent>, start: int, b: u8)
    requires
        0 <= start,
        start + 8 <= events.len(),
        forall|i: int| 0 <= i < 8 ==> #[trigger] events[start + i] == BusEvent::Sample(msb_bit(b, i)),
    ensures
        frame_byte(events, start) == b,
{
    assert(Seq::new(8, |i: int| sample_level(events[start + i])) =~= Seq::new(8, |i: int| msb_bit(b, i)));
    lemma_sampled_bits_spell_byte(b);
}

/// The display reads back from the wire exactly the transfer that was sent.
pub proof fn lemma_decode_transfer(t: Transfer)
    ensures
        decode_transfer(transfer_events(t)) == Some(t),
{
    let c = transfer_control(t);
    let p = transfer_payload(t);
    let e = transfer_events(t);
    let a = seq![BusEvent::Start];
    let b1 = byte_samples(OLED_ADDRESS);
    let b2 = byte_samples(c);
    let b3 = byte_samples(p);
    let z = seq![BusEvent::Sample(false), BusEvent::Stop];
    assert(e.len() == 30);
    assert forall|i: int| 0 <= i < 8 implies #[trigger] e[1 + i] == BusEvent::Sample(msb_bit(OLED_ADDRESS, i)) by {
        assert(e[1 + i] == b1[i]);
    }
    assert forall|i: int| 0 <= i < 8 implies #[trigger] e[10 + i] == BusEvent::Sample(msb_bit(c, i)) by {
        assert(e[10 + i] == b2[i]);
    }
    assert forall|i: int| 0 <= i < 8 implies #[trigger] e[19 + i] == BusEvent::Sample(msb_bit(p, i)) by {
        assert(e[19 + i] == b3[i]);
    }
    lemma_frame_byte_at(e, 1, OLED_ADDRESS);
    lemma_frame_byte_at(e, 10, c);
    lemma_frame_byte_at(e, 19, p);
    assert(e[0] == BusEvent::Start);
    assert(e[29] == BusEvent::Stop);
}


/// How the display reads a run of transactions off the wire, thirty events
/// per transaction; `None` if any of them does not read as a transfer.
pub open spec fn decode_transfers(events: Seq<BusEvent>) -> Option<Seq<Transfer>>
    decreases events.len(),
{
    if events.len() == 0 {
        Some(Seq::empty())
    } else if events.len() < 30 {
        None
    } else {
        let n = events.len() - 30;
        match (decode_transfers(events.take(n)), decode_transfer(events.skip(n))) {
            (Some(ts), Some(t)) => Some(ts.push(t)),
            _ => None,
        }
    }
}

proof fn lemma_transfers_events_len(ts: Seq<Transfer>)
    ensures
        transfers_events(ts).len() == 30 * ts.len(),
    decreases ts.len(),
{
    if ts.len() > 0 {
        lemma_transfers_events_len(ts.drop_last());
    }
}

/// Whatever sequence of transfers the driver sends from a free bus, the
/// display reads exactly that sequence back off the wire.
pub proof fn lemma_transfers_read_back(ts: Seq<Transfer>)
    ensures
        decode_transfers(run_events(bus_idle(), transfers_seq(ts))) == Some(ts),
    decreases ts.len(),
{
    lemma_transfers_on_wire(ts);
    let e = transfers_events(ts);
    if ts.len() == 0 {
        assert(e.len() == 0);
    } else {
        let init = ts.drop_last();
        lemma_transfers_read_back(init);
        lemma_transfers_on_wire(init);
        lemma_transfers_events_len(init);
        lemma_transfers_events_len(ts);
        let n = e.len() - 30;
        assert(e.take(n) =~= transfers_events(init));
        assert(e.skip(n) =~= transfer_events(ts.last()));
        lemma_decode_transfer(ts.last());
        assert(init.push(ts.last()) =~= ts);
    }
}

} // verus!

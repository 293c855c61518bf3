//! What the target sees of the queued line operations: the level of SDAT at each rising edge
//! of SCLK, the start and stop conditions (SDAT changing while SCLK is high), and how and how
//! many times SDAT is sampled.
use vstd::prelude::*;
use crate::wire::{
    PinOp, Line, Timing, msb_first_bits, bit, send_bit_ops, send_bits_ops, send_byte_ops, send_bytes_ops,
    dummy_clock_ops, start_condition_ops, stop_condition_ops, frame_ops, read_bit_ops, read_bits_ops,
    read_byte_ops, read_bytes_ops, read_ops, read_smart_option_ops, write_ops, write_all_ops,
};

verus! {

/// The levels of SCLK and SDAT, and whether SDAT's input buffer and output driver are on.
pub struct Lines {
    pub sclk: bool,
    pub sdat: bool,
    pub input: bool,
    pub output: bool,
}

/// The levels after one operation.
pub open spec fn apply_op(l: Lines, op: PinOp) -> Lines {
    match op {
        PinOp::SetHigh(Line::Sclk) => Lines { sclk: true, ..l },
        PinOp::SetLow(Line::Sclk) => Lines { sclk: false, ..l },
        PinOp::SetHigh(Line::Sdat) => Lines { sdat: true, ..l },
        PinOp::SetLow(Line::Sdat) => Lines { sdat: false, ..l },
        PinOp::SdatInputEnable(on) => Lines { input: on, ..l },
        PinOp::SdatOutputEnable(on) => Lines { output: on, ..l },
        _ => l,
    }
}

/// The SDAT level clocked in by one operation: one level when it raises SCLK from low.
pub open spec fn edge(l: Lines, op: PinOp) -> Seq<bool> {
    if op == PinOp::SetHigh(Line::Sclk) && !l.sclk {
        seq![l.sdat]
    } else {
        Seq::empty()
    }
}

/// The levels after a sequence of operations, starting from `l`.
pub open spec fn lines_after(l: Lines, ops: Seq<PinOp>) -> Lines
    decreases ops.len(),
{
    if ops.len() == 0 {
        l
    } else {
        apply_op(lines_after(l, ops.drop_last()), ops.last())
    }
}

/// The SDAT levels at the rising edges of SCLK during `ops`, starting from `l`.
pub open spec fn clocked_levels(l: Lines, ops: Seq<PinOp>) -> Seq<bool>
    decreases ops.len(),
{
    if ops.len() == 0 {
        Seq::empty()
    } else {
        clocked_levels(l, ops.drop_last()) + edge(lines_after(l, ops.drop_last()), ops.last())
    }
}

/// How many times `ops` samples SDAT.
pub open spec fn sample_count(ops: Seq<PinOp>) -> nat
    decreases ops.len(),
{
    if ops.len() == 0 {
        0
    } else {
        sample_count(ops.drop_last()) + if ops.last() == PinOp::SampleSdat {
            1nat
        } else {
            0nat
        }
    }
}

/// What a receiver clocks in for a sequence of bytes: each byte's 8 bits, most significant
/// first, then the dummy clock's high level.
pub open spec fn byte_stream(s: Seq<u8>) -> Seq<bool>
    decreases s.len(),
{
    if s.len() == 0 {
        Seq::empty()
    } else {
        byte_stream(s.drop_last()) + msb_first_bits(s.last()).push(true)
    }
}

proof fn lemma_concat(l: Lines, a: Seq<PinOp>, b: Seq<PinOp>)
    ensures
        lines_after(l, a + b) == lines_after(lines_after(l, a), b),
        clocked_levels(l, a + b) == clocked_levels(l, a) + clocked_levels(lines_after(l, a), b),
        sample_count(a + b) == sample_count(a) + sample_count(b),
    decreases b.len(),
{
    if b.len() == 0 {
        assert(a + b =~= a);
    } else {
        assert((a + b).drop_last() =~= a + b.drop_last());
        assert((a + b).last() == b.last());
        lemma_concat(l, a, b.drop_last());
    }
}

proof fn lemma_one(l: Lines, op: PinOp)
    ensures
        lines_after(l, seq![op]) == apply_op(l, op),
        clocked_levels(l, seq![op]) == edge(l, op),
        sample_count(seq![op]) == (if op == PinOp::SampleSdat { 1nat } else { 0nat }),
{
    assert(seq![op].drop_last() =~= Seq::<PinOp>::empty());
    assert(lines_after(l, Seq::<PinOp>::empty()) == l);
    assert(clocked_levels(l, Seq::<PinOp>::empty()) == Seq::<bool>::empty());
    assert(sample_count(Seq::<PinOp>::empty()) == 0);
    assert(Seq::<bool>::empty() + edge(l, op) =~= edge(l, op));
}

/// Adding one operation at the front.
proof fn lemma_cons(l: Lines, op: PinOp, rest: Seq<PinOp>)
    ensures
        lines_after(l, seq![op] + rest) == lines_after(apply_op(l, op), rest),
        clocked_levels(l, seq![op] + rest) == edge(l, op) + clocked_levels(apply_op(l, op), rest),
        sample_count(seq![op] + rest) == sample_count(rest) + (if op == PinOp::SampleSdat {
            1nat
        } else {
            0nat
        }),
{
    lemma_one(l, op);
    lemma_concat(l, seq![op], rest);
}


/// Splitting off the first operation.
proof fn lemma_first(l: Lines, ops: Seq<PinOp>)
    requires
        ops.len() > 0,
    ensures
        lines_after(l, ops) == lines_after(apply_op(l, ops[0]), ops.drop_first()),
        clocked_levels(l, ops) == edge(l, ops[0]) + clocked_levels(apply_op(l, ops[0]), ops.drop_first()),
        sample_count(ops) == sample_count(ops.drop_first()) + (if ops[0] == PinOp::SampleSdat {
            1nat
        } else {
            0nat
        }),
{
    assert(ops =~= seq![ops[0]] + ops.drop_first());
    lemma_cons(l, ops[0], ops.drop_first());
}

proof fn lemma_empty(l: Lines)
    ensures
        lines_after(l, Seq::<PinOp>::empty()) == l,
        clocked_levels(l, Seq::<PinOp>::empty()) == Seq::<bool>::empty(),
        sample_count(Seq::<PinOp>::empty()) == 0,
{
}


/// The SDAT levels clocked in, the lines after, and the samples of `ops`, computed from the
/// first operation on.
spec fn trace(l: Lines, ops: Seq<PinOp>) -> (Seq<bool>, Lines, nat)
    decreases ops.len(),
{
    if ops.len() == 0 {
        (Seq::empty(), l, 0)
    } else {
        let rest = trace(apply_op(l, ops[0]), ops.drop_first());
        (
            edge(l, ops[0]) + rest.0,
            rest.1,
            rest.2 + if ops[0] == PinOp::SampleSdat {
                1nat
            } else {
                0nat
            },
        )
    }
}

/// `trace` agrees with `clocked_levels`, `lines_after` and `sample_count`.
proof fn lemma_trace(l: Lines, ops: Seq<PinOp>)
    ensures
        trace(l, ops) == (clocked_levels(l, ops), lines_after(l, ops), sample_count(ops)),
    decreases ops.len(),
{
    if ops.len() == 0 {
        lemma_empty(l);
    } else {
        lemma_first(l, ops);
        lemma_trace(apply_op(l, ops[0]), ops.drop_first());
    }
}

/// Clocking out one bit clocks in that bit and leaves SCLK high.
proof fn lemma_send_bit(l: Lines, t: Timing, b: u8, i: u8)
    ensures
        clocked_levels(l, send_bit_ops(t, b, i)) == seq![bit(b, i)],
        lines_after(l, send_bit_ops(t, b, i)).sclk,
        sample_count(send_bit_ops(t, b, i)) == 0,
{
    lemma_trace(l, send_bit_ops(t, b, i));
    reveal_with_fuel(trace, 6);
    assert(trace(l, send_bit_ops(t, b, i)).0 =~= seq![bit(b, i)]);
}

/// Clocking out the first `n` bits clocks in those bits, most significant first.
proof fn lemma_send_bits(l: Lines, t: Timing, b: u8, n: nat)
    requires
        n <= 8,
    ensures
        clocked_levels(l, send_bits_ops(t, b, n)) == msb_first_bits(b).take(n as int),
        n > 0 ==> lines_after(l, send_bits_ops(t, b, n)).sclk,
        sample_count(send_bits_ops(t, b, n)) == 0,
    decreases n,
{
    if n == 0 {
        assert(msb_first_bits(b).take(0) =~= Seq::<bool>::empty());
    } else {
        let prev = send_bits_ops(t, b, (n - 1) as nat);
        lemma_send_bits(l, t, b, (n - 1) as nat);
        lemma_concat(l, prev, send_bit_ops(t, b, (8 - n) as u8));
        lemma_send_bit(lines_after(l, prev), t, b, (8 - n) as u8);
        assert(msb_first_bits(b).take(n as int) =~= msb_first_bits(b).take(n - 1).push(
            bit(b, (8 - n) as u8),
        ));
    }
}

/// The dummy clock clocks in one high level and leaves SCLK high.
proof fn lemma_dummy_clock(l: Lines, t: Timing)
    ensures
        clocked_levels(l, dummy_clock_ops(t)) == seq![true],
        lines_after(l, dummy_clock_ops(t)).sclk,
        sample_count(dummy_clock_ops(t)) == 0,
{
    lemma_trace(l, dummy_clock_ops(t));
    reveal_with_fuel(trace, 10);
    assert(trace(l, dummy_clock_ops(t)).0 =~= seq![true]);
}

/// Law: `send_byte` clocks in the byte's 8 bits, most significant first, then the dummy
/// clock's high level, whatever the lines were before; SCLK is left high, and nothing is
/// sampled.
pub proof fn lemma_send_byte_clocks_bits(l: Lines, t: Timing, b: u8)
    ensures
        clocked_levels(l, send_byte_ops(t, b)) == msb_first_bits(b).push(true),
        lines_after(l, send_byte_ops(t, b)).sclk,
        sample_count(send_byte_ops(t, b)) == 0,
{
    let head = seq![PinOp::SdatInputEnable(false), PinOp::SdatOutputEnable(true)];
    let bits = send_bits_ops(t, b, 8);
    let dummy = dummy_clock_ops(t);
    lemma_trace(l, head);
    reveal_with_fuel(trace, 3);
    assert(clocked_levels(l, head) =~= Seq::<bool>::empty());
    lemma_concat(l, head, bits);
    lemma_send_bits(lines_after(l, head), t, b, 8);
    lemma_concat(l, head + bits, dummy);
    lemma_dummy_clock(lines_after(l, head + bits), t);
    assert(msb_first_bits(b).take(8) =~= msb_first_bits(b));
    assert(clocked_levels(l, send_byte_ops(t, b)) =~= msb_first_bits(b).push(true));
}


/// Sending bytes clocks in each byte's bits and dummy level in turn.
proof fn lemma_send_bytes(l: Lines, t: Timing, s: Seq<u8>)
    ensures
        clocked_levels(l, send_bytes_ops(t, s)) == byte_stream(s),
        s.len() > 0 ==> lines_after(l, send_bytes_ops(t, s)).sclk,
        sample_count(send_bytes_ops(t, s)) == 0,
    decreases s.len(),
{
    if s.len() == 0 {
        lemma_empty(l);
    } else {
        let prev = send_bytes_ops(t, s.drop_last());
        lemma_send_bytes(l, t, s.drop_last());
        lemma_concat(l, prev, send_byte_ops(t, s.last()));
        lemma_send_byte_clocks_bits(lines_after(l, prev), t, s.last());
    }
}

/// The start condition clocks in one low level and leaves SCLK high.
proof fn lemma_start_condition(l: Lines, t: Timing)
    ensures
        clocked_levels(l, start_condition_ops(t)) == seq![false],
        lines_after(l, start_condition_ops(t)).sclk,
        sample_count(start_condition_ops(t)) == 0,
{
    lemma_trace(l, start_condition_ops(t));
    reveal_with_fuel(trace, 10);
    assert(trace(l, start_condition_ops(t)).0 =~= seq![false]);
}

/// With SCLK high, the stop condition clocks nothing in.
proof fn lemma_stop_condition(l: Lines)
    requires
        l.sclk,
    ensures
        clocked_levels(l, stop_condition_ops()) == Seq::<bool>::empty(),
        sample_count(stop_condition_ops()) == 0,
{
    lemma_trace(l, stop_condition_ops());
    reveal_with_fuel(trace, 9);
    assert(trace(l, stop_condition_ops()).0 =~= Seq::<bool>::empty());
}

/// Law: a command frame clocks in the start condition's low level, then each byte's 8 bits
/// (most significant first) and its dummy clock's high level, and nothing else; it samples
/// nothing. This holds whatever the lines were before.
pub proof fn lemma_frame_clocks_bytes(l: Lines, t: Timing, bytes: Seq<u8>)
    ensures
        clocked_levels(l, frame_ops(t, bytes)) == seq![false] + byte_stream(bytes),
        sample_count(frame_ops(t, bytes)) == 0,
{
    let a = start_condition_ops(t);
    let b = send_bytes_ops(t, bytes);
    lemma_start_condition(l, t);
    lemma_concat(l, a, b);
    lemma_send_bytes(lines_after(l, a), t, bytes);
    lemma_concat(lines_after(l, a), b, Seq::empty());
    assert(b + Seq::<PinOp>::empty() =~= b);
    lemma_empty(lines_after(l, a));
    lemma_concat(l, a + b, stop_condition_ops());
    lemma_concat(lines_after(l, a), b, stop_condition_ops());
    if bytes.len() == 0 {
        assert(b =~= Seq::<PinOp>::empty());
        assert(a + b =~= a);
    }
    lemma_stop_condition(lines_after(l, a + b));
    assert(clocked_levels(l, frame_ops(t, bytes)) =~= seq![false] + byte_stream(bytes));
}

proof fn lemma_read_bit(l: Lines, t: Timing)
    ensures
        sample_count(read_bit_ops(t)) == 1,
{
    lemma_trace(l, read_bit_ops(t));
    reveal_with_fuel(trace, 7);
}

proof fn lemma_read_bits(l: Lines, t: Timing, n: nat)
    ensures
        sample_count(read_bits_ops(t, n)) == n,
    decreases n,
{
    if n == 0 {
        lemma_empty(l);
    } else {
        lemma_read_bits(l, t, (n - 1) as nat);
        lemma_concat(l, read_bits_ops(t, (n - 1) as nat), read_bit_ops(t));
        lemma_read_bit(l, t);
    }
}

proof fn lemma_read_byte(l: Lines, t: Timing)
    ensures
        sample_count(read_byte_ops(t)) == 8,
{
    let head = seq![PinOp::SdatInputEnable(true), PinOp::SdatOutputEnable(false)];
    assert(head =~= seq![PinOp::SdatInputEnable(true)] + seq![PinOp::SdatOutputEnable(false)]);
    lemma_cons(l, PinOp::SdatInputEnable(true), seq![PinOp::SdatOutputEnable(false)]);
    lemma_one(l, PinOp::SdatOutputEnable(false));
    lemma_concat(l, head, read_bits_ops(t, 8));
    lemma_read_bits(l, t, 8);
    lemma_concat(l, head + read_bits_ops(t, 8), dummy_clock_ops(t));
    lemma_dummy_clock(l, t);
}

proof fn lemma_read_bytes(l: Lines, t: Timing, n: nat)
    ensures
        sample_count(read_bytes_ops(t, n)) == 8 * n,
    decreases n,
{
    if n == 0 {
        lemma_empty(l);
    } else {
        lemma_read_bytes(l, t, (n - 1) as nat);
        lemma_concat(l, read_bytes_ops(t, (n - 1) as nat), read_byte_ops(t));
        lemma_read_byte(l, t);
    }
}

/// Law: `read(addr, len)` samples SDAT exactly `8 * len` times (the samples `decode_read`
/// takes), and `read_smart_option` exactly 8 times (the samples `decode_byte` takes).
pub proof fn lemma_read_sample_counts(t: Timing, addr: u16, len: nat, option_addr: usize)
    ensures
        sample_count(read_ops(t, addr, len)) == 8 * len,
        sample_count(read_smart_option_ops(t, option_addr)) == 8,
{
    let l = Lines { sclk: false, sdat: false, input: false, output: true };
    let cmd = seq![crate::wire::CMD_READ, crate::wire::addr_hi(addr as int), crate::wire::addr_lo(addr as int)];
    lemma_start_condition(l, t);
    lemma_send_bytes(l, t, cmd);
    lemma_read_bytes(l, t, len);
    lemma_stop_condition(Lines { sclk: true, sdat: false, input: false, output: true });
    let a = start_condition_ops(t);
    let b = send_bytes_ops(t, cmd);
    let c = read_bytes_ops(t, len);
    lemma_concat(l, a, b);
    lemma_concat(l, a + b, c);
    lemma_concat(l, a + b + c, stop_condition_ops());
    let cmd2 = seq![
        crate::wire::CMD_OPTION_READ,
        crate::wire::addr_hi(option_addr as int),
        crate::wire::addr_lo(option_addr as int),
    ];
    let b2 = send_bytes_ops(t, cmd2);
    lemma_send_bytes(l, t, cmd2);
    lemma_read_byte(l, t);
    lemma_concat(l, a, b2);
    lemma_concat(l, a + b2, read_byte_ops(t));
    lemma_concat(l, a + b2 + read_byte_ops(t), stop_condition_ops());
}


/// Law: the byte `decode_byte` makes of the first 8 levels that `send_byte(b)` clocks out
/// is `b`: a byte read back bit for bit as it was sent is the byte sent.
pub proof fn lemma_decode_inverts_send(l: Lines, t: Timing, b: u8, r: u8)
    requires
        msb_first_bits(r) == clocked_levels(l, send_byte_ops(t, b)).take(8),
    ensures
        r == b,
{
    lemma_send_byte_clocks_bits(l, t, b);
    assert(msb_first_bits(b).push(true).take(8) =~= msb_first_bits(b));
    crate::wire::lemma_bits_determine_byte(r, b);
}

/// Law: writing one byte is writing a block of length 1 that starts with that byte; both
/// put the same operations on the lines.
pub proof fn lemma_write_is_block_of_one(t: Timing, addr: u16, byte: u8, bytes: Seq<u8>)
    requires
        bytes.len() >= 1,
        bytes[0] == byte,
    ensures
        write_ops(t, addr, byte) == write_all_ops(t, addr as usize, bytes, 1),
{
    assert(seq![
        crate::wire::CMD_WRITE,
        crate::wire::addr_hi(addr as int),
        crate::wire::addr_lo(addr as int),
        byte,
        crate::wire::END_OF_DATA,
    ] =~= seq![
        crate::wire::CMD_WRITE,
        crate::wire::addr_hi((addr as usize) as int),
        crate::wire::addr_lo((addr as usize) as int),
    ] + bytes.take(1) + seq![crate::wire::END_OF_DATA]);
}


/// Operations none of which samples SDAT sample nothing.
proof fn lemma_no_samples(ops: Seq<PinOp>)
    requires
        forall|i: int| 0 <= i < ops.len() ==> ops[i] != PinOp::SampleSdat,
    ensures
        sample_count(ops) == 0,
    decreases ops.len(),
{
    if ops.len() > 0 {
        lemma_no_samples(ops.drop_last());
    }
}

proof fn lemma_write_smart_option_samples(t: Timing, addr: usize, byte: u8)
    ensures
        sample_count(crate::wire::write_smart_option_ops(t, addr, byte)) == 0,
{
    let l = Lines { sclk: true, sdat: false, input: false, output: true };
    let a = start_condition_ops(t);
    let bytes = seq![
        crate::wire::CMD_OPTION_WRITE,
        crate::wire::addr_hi(addr as int),
        crate::wire::addr_lo(addr as int),
        byte,
        crate::wire::END_OF_DATA,
    ];
    let b = send_bytes_ops(t, bytes);
    let c = seq![PinOp::SetHigh(Line::Sclk), PinOp::DelayMillis(30)];
    let d = stop_condition_ops();
    let e = seq![PinOp::DelayMillis(20)];
    lemma_start_condition(l, t);
    lemma_send_bytes(l, t, bytes);
    lemma_no_samples(c);
    lemma_stop_condition(l);
    lemma_no_samples(e);
    lemma_concat(l, a, b);
    lemma_concat(l, a + b, c);
    lemma_concat(l, a + b + c, d);
    lemma_concat(l, a + b + c + d, e);
}

/// Law: the self-test samples SDAT 88 times: the smart option's 8 samples come first, then
/// the `8 * TEST_READ_LEN` samples of the block read back; erasing and programming sample
/// nothing.
pub proof fn lemma_self_test_samples(t: Timing)
    ensures
        sample_count(crate::commands::self_test_ops(t)) == 8 + 8 * crate::commands::TEST_READ_LEN,
        sample_count(crate::commands::prepare_ops(t) + crate::wire::erase_ops(t)
            + crate::commands::prepare_ops(t) + crate::wire::write_smart_option_ops(
            t,
            crate::program::SMART_OPTION_ADDRESS,
            crate::program::SMART_OPTION_VALUE,
        ) + seq![PinOp::DelayMillis(10)] + crate::commands::prepare_ops(t)) == 0,
{
    let l = Lines { sclk: true, sdat: false, input: false, output: true };
    let p = crate::commands::prepare_ops(t);
    let er = crate::wire::erase_ops(t);
    let ws = crate::wire::write_smart_option_ops(
        t,
        crate::program::SMART_OPTION_ADDRESS,
        crate::program::SMART_OPTION_VALUE,
    );
    let d10 = seq![PinOp::DelayMillis(10)];
    let rs = crate::wire::read_smart_option_ops(t, crate::program::SMART_OPTION_ADDRESS);
    let pattern = Seq::new(255, |i: int| crate::commands::TEST_PATTERN);
    let wa = crate::wire::write_all_ops(t, 0, pattern, 255);
    let st = start_condition_ops(t);
    let rd = read_ops(t, 0, 10);
    let sp = stop_condition_ops();
    lemma_no_samples(crate::wire::init_ops());
    lemma_no_samples(crate::wire::enter_program_mode_ops(t));
    lemma_concat(l, crate::wire::init_ops(), crate::wire::enter_program_mode_ops(t));
    lemma_frame_clocks_bytes(l, t, crate::wire::erase_bytes());
    lemma_no_samples(seq![PinOp::DelayMillis(2000)]);
    lemma_concat(l, frame_ops(t, crate::wire::erase_bytes()), seq![PinOp::DelayMillis(2000)]);
    lemma_write_smart_option_samples(
        t,
        crate::program::SMART_OPTION_ADDRESS,
        crate::program::SMART_OPTION_VALUE,
    );
    lemma_no_samples(d10);
    lemma_read_sample_counts(t, 0, 10, crate::program::SMART_OPTION_ADDRESS);
    lemma_frame_clocks_bytes(
        l,
        t,
        seq![
            crate::wire::CMD_WRITE,
            crate::wire::addr_hi(0),
            crate::wire::addr_lo(0),
        ] + pattern.take(255) + seq![crate::wire::END_OF_DATA],
    );
    lemma_start_condition(l, t);
    lemma_stop_condition(l);
    lemma_concat(l, p, er);
    lemma_concat(l, p + er, p);
    lemma_concat(l, p + er + p, ws);
    lemma_concat(l, p + er + p + ws, d10);
    lemma_concat(l, p + er + p + ws + d10, p);
    lemma_concat(l, p + er + p + ws + d10 + p, rs);
    lemma_concat(l, p + er + p + ws + d10 + p + rs, p);
    lemma_concat(l, p + er + p + ws + d10 + p + rs + p, er);
    lemma_concat(l, p + er + p + ws + d10 + p + rs + p + er, wa);
    lemma_concat(l, p + er + p + ws + d10 + p + rs + p + er + wa, p);
    lemma_concat(l, p + er + p + ws + d10 + p + rs + p + er + wa + p, st);
    lemma_concat(l, p + er + p + ws + d10 + p + rs + p + er + wa + p + st, rd);
    lemma_concat(l, p + er + p + ws + d10 + p + rs + p + er + wa + p + st + rd, sp);
}


proof fn lemma_prepare_samples(t: Timing)
    ensures
        sample_count(crate::commands::prepare_ops(t)) == 0,
{
    let l = Lines { sclk: true, sdat: false, input: false, output: true };
    lemma_no_samples(crate::wire::init_ops());
    lemma_no_samples(crate::wire::enter_program_mode_ops(t));
    lemma_concat(l, crate::wire::init_ops(), crate::wire::enter_program_mode_ops(t));
}

proof fn lemma_blocks_samples(t: Timing, f: crate::record::FileView, blocks: Seq<(usize, u16, usize)>)
    ensures
        sample_count(crate::commands::blocks_ops(t, f, blocks)) == 0,
    decreases blocks.len(),
{
    let l = Lines { sclk: true, sdat: false, input: false, output: true };
    if blocks.len() == 0 {
        lemma_empty(l);
    } else {
        let b = blocks.last();
        let rec = f.records[b.0 as int];
        let addr = b.1;
        let len = b.2 as nat;
        lemma_blocks_samples(t, f, blocks.drop_last());
        lemma_prepare_samples(t);
        lemma_frame_clocks_bytes(
            l,
            t,
            seq![
                crate::wire::CMD_WRITE,
                crate::wire::addr_hi(addr as usize as int),
                crate::wire::addr_lo(addr as usize as int),
            ] + rec.data.take(len as int) + seq![crate::wire::END_OF_DATA],
        );
        let p = crate::commands::prepare_ops(t);
        let w = crate::wire::write_all_ops(t, addr as usize, rec.data, len);
        let d = seq![PinOp::DelayMillis(10)];
        lemma_no_samples(d);
        lemma_concat(l, p, w);
        lemma_concat(l, p + w, d);
        lemma_concat(l, crate::commands::blocks_ops(t, f, blocks.drop_last()), p + w + d);
    }
}

/// Law: for any file whose first end-of-file record is record `k` and whose data records
/// before `k` fit in 16 bits with the segment base in effect, the program command is defined
/// and consists of one block write (prepare, `write_all` of the record's data at its load
/// offset plus the segment base, 10 ms) for each data record before `k`, in order, then the
/// smart-option write; it samples nothing (no read).
pub proof fn lemma_program_file(t: Timing, f: crate::record::FileView, k: nat)
    requires
        f.records.len() == crate::record::RECORDS,
        crate::program::first_end_at(f, k),
        crate::program::addresses_fit(f, k),
    ensures
        crate::program::walk_ok(crate::program::RecordWalker { record_index: 0, address: 0 }, f),
        crate::commands::program_ops(t, f) == crate::commands::blocks_ops(
            t,
            f,
            crate::program::data_records_between(f, 0, k),
        ) + crate::commands::finish_ops(t),
        sample_count(crate::commands::program_ops(t, f)) == 0,
{
    let l = Lines { sclk: true, sdat: false, input: false, output: true };
    crate::program::lemma_walk_file(f, k);
    let bs = crate::program::data_records_between(f, 0, k);
    lemma_blocks_samples(t, f, bs);
    lemma_prepare_samples(t);
    lemma_write_smart_option_samples(
        t,
        crate::program::SMART_OPTION_ADDRESS,
        crate::program::SMART_OPTION_VALUE,
    );
    let p = crate::commands::prepare_ops(t);
    let ws = crate::wire::write_smart_option_ops(
        t,
        crate::program::SMART_OPTION_ADDRESS,
        crate::program::SMART_OPTION_VALUE,
    );
    let d = seq![PinOp::DelayMillis(10)];
    lemma_no_samples(d);
    lemma_concat(l, p, ws);
    lemma_concat(l, p + ws, d);
    lemma_concat(l, crate::commands::blocks_ops(t, f, bs), p + ws + d);
}


/// The start (`true`) or stop (`false`) condition one operation makes: SDAT rising, or
/// falling, while SCLK is high.
pub open spec fn condition(l: Lines, op: PinOp) -> Seq<bool> {
    if l.sclk && op == PinOp::SetHigh(Line::Sdat) && !l.sdat {
        seq![true]
    } else if l.sclk && op == PinOp::SetLow(Line::Sdat) && l.sdat {
        seq![false]
    } else {
        Seq::empty()
    }
}

/// Where the lines stand when one operation samples SDAT: SCLK's level, and whether SDAT's
/// input buffer and output driver are on.
pub open spec fn sample_state(l: Lines, op: PinOp) -> Seq<(bool, bool, bool)> {
    if op == PinOp::SampleSdat {
        seq![(l.sclk, l.input, l.output)]
    } else {
        Seq::empty()
    }
}

/// The start and stop conditions made during `ops`, in order, starting from `l`.
pub open spec fn conditions(l: Lines, ops: Seq<PinOp>) -> Seq<bool>
    decreases ops.len(),
{
    if ops.len() == 0 {
        Seq::empty()
    } else {
        conditions(l, ops.drop_last()) + condition(lines_after(l, ops.drop_last()), ops.last())
    }
}

/// Where the lines stand at each sample taken during `ops`, starting from `l`.
pub open spec fn sample_states(l: Lines, ops: Seq<PinOp>) -> Seq<(bool, bool, bool)>
    decreases ops.len(),
{
    if ops.len() == 0 {
        Seq::empty()
    } else {
        sample_states(l, ops.drop_last()) + sample_state(lines_after(l, ops.drop_last()), ops.last())
    }
}

proof fn lemma_concat2(l: Lines, a: Seq<PinOp>, b: Seq<PinOp>)
    ensures
        conditions(l, a + b) == conditions(l, a) + conditions(lines_after(l, a), b),
        sample_states(l, a + b) == sample_states(l, a) + sample_states(lines_after(l, a), b),
    decreases b.len(),
{
    lemma_concat(l, a, b);
    if b.len() == 0 {
        assert(a + b =~= a);
    } else {
        assert((a + b).drop_last() =~= a + b.drop_last());
        assert((a + b).last() == b.last());
        lemma_concat2(l, a, b.drop_last());
        lemma_concat(l, a, b.drop_last());
    }
}

proof fn lemma_first2(l: Lines, ops: Seq<PinOp>)
    requires
        ops.len() > 0,
    ensures
        conditions(l, ops) == condition(l, ops[0]) + conditions(apply_op(l, ops[0]), ops.drop_first()),
        sample_states(l, ops) == sample_state(l, ops[0]) + sample_states(
            apply_op(l, ops[0]),
            ops.drop_first(),
        ),
{
    let op = ops[0];
    assert(ops =~= seq![op] + ops.drop_first());
    lemma_concat2(l, seq![op], ops.drop_first());
    lemma_one(l, op);
    assert(seq![op].drop_last() =~= Seq::<PinOp>::empty());
    assert(conditions(l, Seq::<PinOp>::empty()) == Seq::<bool>::empty());
    assert(sample_states(l, Seq::<PinOp>::empty()) == Seq::<(bool, bool, bool)>::empty());
    assert(lines_after(l, Seq::<PinOp>::empty()) == l);
    assert(conditions(l, seq![op]) =~= condition(l, op));
    assert(sample_states(l, seq![op]) =~= sample_state(l, op));
}

/// The conditions and sample states of `ops`, computed from the first operation on.
spec fn trace2(l: Lines, ops: Seq<PinOp>) -> (Seq<bool>, Seq<(bool, bool, bool)>)
    decreases ops.len(),
{
    if ops.len() == 0 {
        (Seq::empty(), Seq::empty())
    } else {
        let rest = trace2(apply_op(l, ops[0]), ops.drop_first());
        (condition(l, ops[0]) + rest.0, sample_state(l, ops[0]) + rest.1)
    }
}

proof fn lemma_trace2(l: Lines, ops: Seq<PinOp>)
    ensures
        trace2(l, ops) == (conditions(l, ops), sample_states(l, ops)),
        trace(l, ops) == (clocked_levels(l, ops), lines_after(l, ops), sample_count(ops)),
    decreases ops.len(),
{
    lemma_trace(l, ops);
    if ops.len() > 0 {
        lemma_first2(l, ops);
        lemma_trace2(apply_op(l, ops[0]), ops.drop_first());
    }
}

/// Law: the start condition raises SCLK and then SDAT, making exactly one start condition
/// (after a stop condition if both lines were high before); it leaves both lines high, SDAT
/// an output, and clocks in one low level.
pub proof fn lemma_start_condition_law(l: Lines, t: Timing)
    ensures
        conditions(l, start_condition_ops(t)) == (if l.sclk && l.sdat {
            seq![false]
        } else {
            Seq::empty()
        }) + seq![true],
        lines_after(l, start_condition_ops(t)) == (Lines {
            sclk: true,
            sdat: true,
            input: false,
            output: true,
        }),
        clocked_levels(l, start_condition_ops(t)) == seq![false],
{
    lemma_trace2(l, start_condition_ops(t));
    reveal_with_fuel(trace, 10);
    reveal_with_fuel(trace2, 10);
    assert(trace2(l, start_condition_ops(t)).0 =~= (if l.sclk && l.sdat {
        seq![false]
    } else {
        Seq::empty()
    }) + seq![true]);
    assert(trace(l, start_condition_ops(t)).0 =~= seq![false]);
}

/// Law: the stop condition makes exactly one stop condition, SDAT falling while SCLK is
/// high (after a start condition if SCLK was high and SDAT low before); it leaves SCLK high
/// and SDAT low.
pub proof fn lemma_stop_condition_law(l: Lines)
    ensures
        conditions(l, stop_condition_ops()) == (if l.sclk && !l.sdat {
            seq![true]
        } else {
            Seq::empty()
        }) + seq![false],
        lines_after(l, stop_condition_ops()).sclk,
        !lines_after(l, stop_condition_ops()).sdat,
{
    lemma_trace2(l, stop_condition_ops());
    reveal_with_fuel(trace, 9);
    reveal_with_fuel(trace2, 9);
    assert(trace2(l, stop_condition_ops()).0 =~= (if l.sclk && !l.sdat {
        seq![true]
    } else {
        Seq::empty()
    }) + seq![false]);
}

proof fn lemma_send_bit_quiet(l: Lines, t: Timing, b: u8, i: u8)
    ensures
        conditions(l, send_bit_ops(t, b, i)) == Seq::<bool>::empty(),
        lines_after(l, send_bit_ops(t, b, i)).input == l.input,
        lines_after(l, send_bit_ops(t, b, i)).output == l.output,
{
    lemma_trace2(l, send_bit_ops(t, b, i));
    reveal_with_fuel(trace, 6);
    reveal_with_fuel(trace2, 6);
    assert(trace2(l, send_bit_ops(t, b, i)).0 =~= Seq::<bool>::empty());
}

proof fn lemma_send_bits_quiet(l: Lines, t: Timing, b: u8, n: nat)
    ensures
        conditions(l, send_bits_ops(t, b, n)) == Seq::<bool>::empty(),
    decreases n,
{
    if n == 0 || n > 8 {
        assert(conditions(l, Seq::<PinOp>::empty()) == Seq::<bool>::empty());
    } else {
        let prev = send_bits_ops(t, b, (n - 1) as nat);
        lemma_send_bits_quiet(l, t, b, (n - 1) as nat);
        lemma_concat2(l, prev, send_bit_ops(t, b, (8 - n) as u8));
        lemma_send_bit_quiet(lines_after(l, prev), t, b, (8 - n) as u8);
        assert(Seq::<bool>::empty() + Seq::<bool>::empty() =~= Seq::<bool>::empty());
    }
}

/// Law: `send_byte` changes SDAT only while SCLK is low: it makes no start or stop condition,
/// whatever the lines were before; it leaves both lines high and SDAT an output.
pub proof fn lemma_send_byte_quiet(l: Lines, t: Timing, b: u8)
    ensures
        conditions(l, send_byte_ops(t, b)) == Seq::<bool>::empty(),
        lines_after(l, send_byte_ops(t, b)) == (Lines {
            sclk: true,
            sdat: true,
            input: false,
            output: true,
        }),
{
    let head = seq![PinOp::SdatInputEnable(false), PinOp::SdatOutputEnable(true)];
    let bits = send_bits_ops(t, b, 8);
    let dummy = dummy_clock_ops(t);
    lemma_trace2(l, head);
    reveal_with_fuel(trace2, 3);
    reveal_with_fuel(trace, 3);
    assert(trace2(l, head).0 =~= Seq::<bool>::empty());
    lemma_concat2(l, head, bits);
    lemma_send_bits_quiet(lines_after(l, head), t, b, 8);
    lemma_concat2(l, head + bits, dummy);
    lemma_concat(l, head + bits, dummy);
    let l2 = lines_after(l, head + bits);
    lemma_trace2(l2, dummy);
    reveal_with_fuel(trace2, 10);
    reveal_with_fuel(trace, 10);
    assert(trace2(l2, dummy).0 =~= Seq::<bool>::empty());
    assert(conditions(l, send_byte_ops(t, b)) =~= Seq::<bool>::empty());
}

proof fn lemma_send_bytes_quiet(l: Lines, t: Timing, s: Seq<u8>)
    ensures
        conditions(l, send_bytes_ops(t, s)) == Seq::<bool>::empty(),
        s.len() > 0 ==> lines_after(l, send_bytes_ops(t, s)) == (Lines {
            sclk: true,
            sdat: true,
            input: false,
            output: true,
        }),
        s.len() == 0 ==> lines_after(l, send_bytes_ops(t, s)) == l,
    decreases s.len(),
{
    if s.len() == 0 {
        lemma_empty(l);
        assert(conditions(l, Seq::<PinOp>::empty()) == Seq::<bool>::empty());
    } else {
        let prev = send_bytes_ops(t, s.drop_last());
        lemma_send_bytes_quiet(l, t, s.drop_last());
        lemma_concat2(l, prev, send_byte_ops(t, s.last()));
        lemma_concat(l, prev, send_byte_ops(t, s.last()));
        lemma_send_byte_quiet(lines_after(l, prev), t, s.last());
        assert(Seq::<bool>::empty() + Seq::<bool>::empty() =~= Seq::<bool>::empty());
    }
}

/// Law: a command frame, begun with SCLK or SDAT low, makes exactly one start condition and
/// then exactly one stop condition: the bytes between change SDAT only while SCLK is low.
pub proof fn lemma_frame_conditions(l: Lines, t: Timing, bytes: Seq<u8>)
    requires
        !(l.sclk && l.sdat),
    ensures
        conditions(l, frame_ops(t, bytes)) == seq![true, false],
{
    let a = start_condition_ops(t);
    let b = send_bytes_ops(t, bytes);
    lemma_start_condition_law(l, t);
    let l1 = lines_after(l, a);
    lemma_concat2(l, a, b);
    lemma_concat(l, a, b);
    lemma_send_bytes_quiet(l1, t, bytes);
    lemma_concat2(l, a + b, stop_condition_ops());
    lemma_stop_condition_law(lines_after(l, a + b));
    assert(conditions(l, frame_ops(t, bytes)) =~= seq![true, false]);
}

proof fn lemma_read_bit_states(l: Lines, t: Timing)
    ensures
        sample_states(l, read_bit_ops(t)) == seq![(true, l.input, l.output)],
        lines_after(l, read_bit_ops(t)).input == l.input,
        lines_after(l, read_bit_ops(t)).output == l.output,
{
    lemma_trace2(l, read_bit_ops(t));
    reveal_with_fuel(trace, 7);
    reveal_with_fuel(trace2, 7);
    assert(trace2(l, read_bit_ops(t)).1 =~= seq![(true, l.input, l.output)]);
}

proof fn lemma_read_bits_states(l: Lines, t: Timing, n: nat)
    ensures
        sample_states(l, read_bits_ops(t, n)) == Seq::new(n, |i: int| (true, l.input, l.output)),
        lines_after(l, read_bits_ops(t, n)).input == l.input,
        lines_after(l, read_bits_ops(t, n)).output == l.output,
    decreases n,
{
    if n == 0 {
        lemma_empty(l);
        assert(sample_states(l, Seq::<PinOp>::empty()) =~= Seq::new(0, |i: int| (true, l.input, l.output)));
    } else {
        let prev = read_bits_ops(t, (n - 1) as nat);
        lemma_read_bits_states(l, t, (n - 1) as nat);
        lemma_concat2(l, prev, read_bit_ops(t));
        lemma_concat(l, prev, read_bit_ops(t));
        lemma_read_bit_states(lines_after(l, prev), t);
        assert(sample_states(l, read_bits_ops(t, n)) =~= Seq::new(n, |i: int| (true, l.input, l.output)));
    }
}

/// Law: `read_byte` samples SDAT 8 times, each time with SCLK high, SDAT's input buffer on
/// and its output driver off, whatever the lines were before.
pub proof fn lemma_read_byte_samples_as_input(l: Lines, t: Timing)
    ensures
        sample_states(l, read_byte_ops(t)) == Seq::new(8, |i: int| (true, true, false)),
        lines_after(l, read_byte_ops(t)).output,
        !lines_after(l, read_byte_ops(t)).input,
{
    let head = seq![PinOp::SdatInputEnable(true), PinOp::SdatOutputEnable(false)];
    let bits = read_bits_ops(t, 8);
    let dummy = dummy_clock_ops(t);
    lemma_trace2(l, head);
    reveal_with_fuel(trace2, 3);
    reveal_with_fuel(trace, 3);
    assert(trace2(l, head).1 =~= Seq::<(bool, bool, bool)>::empty());
    let l1 = lines_after(l, head);
    assert(l1.input && !l1.output);
    lemma_concat2(l, head, bits);
    lemma_concat(l, head, bits);
    lemma_read_bits_states(l1, t, 8);
    lemma_concat2(l, head + bits, dummy);
    lemma_concat(l, head + bits, dummy);
    let l2 = lines_after(l, head + bits);
    lemma_trace2(l2, dummy);
    reveal_with_fuel(trace2, 10);
    reveal_with_fuel(trace, 10);
    assert(trace2(l2, dummy).1 =~= Seq::<(bool, bool, bool)>::empty());
    assert(sample_states(l, read_byte_ops(t)) =~= Seq::new(8, |i: int| (true, true, false)));
}


/// Operations that sample nothing have no sample states.
proof fn lemma_no_states(l: Lines, ops: Seq<PinOp>)
    requires
        sample_count(ops) == 0,
    ensures
        sample_states(l, ops) == Seq::<(bool, bool, bool)>::empty(),
    decreases ops.len(),
{
    if ops.len() > 0 {
        lemma_no_states(l, ops.drop_last());
        assert(sample_states(l, ops) =~= Seq::<(bool, bool, bool)>::empty());
    }
}

proof fn lemma_read_bytes_states(l: Lines, t: Timing, n: nat)
    ensures
        sample_states(l, read_bytes_ops(t, n)) == Seq::new(8 * n, |i: int| (true, true, false)),
    decreases n,
{
    if n == 0 {
        lemma_empty(l);
        assert(sample_states(l, Seq::<PinOp>::empty()) =~= Seq::new(0, |i: int| (true, true, false)));
    } else {
        let prev = read_bytes_ops(t, (n - 1) as nat);
        lemma_read_bytes_states(l, t, (n - 1) as nat);
        lemma_concat2(l, prev, read_byte_ops(t));
        lemma_read_byte_samples_as_input(lines_after(l, prev), t);
        assert(sample_states(l, read_bytes_ops(t, n)) =~= Seq::new(8 * n, |i: int| (true, true, false)));
    }
}

/// Law: `read(addr, len)` samples SDAT `8 * len` times, each time with SCLK high, SDAT's
/// input buffer on and its output driver off, whatever the lines were before.
pub proof fn lemma_read_samples_as_input(l: Lines, t: Timing, addr: u16, len: nat)
    ensures
        sample_states(l, read_ops(t, addr, len)) == Seq::new(8 * len, |i: int| (true, true, false)),
{
    let a = start_condition_ops(t);
    let cmd = seq![crate::wire::CMD_READ, crate::wire::addr_hi(addr as int), crate::wire::addr_lo(addr as int)];
    let b = send_bytes_ops(t, cmd);
    let c = read_bytes_ops(t, len);
    let d = stop_condition_ops();
    lemma_start_condition(l, t);
    lemma_send_bytes(l, t, cmd);
    lemma_stop_condition(Lines { sclk: true, sdat: false, input: false, output: true });
    lemma_concat(l, a, b);
    lemma_no_states(l, a + b);
    lemma_concat2(l, a + b, c);
    lemma_read_bytes_states(lines_after(l, a + b), t, len);
    lemma_concat2(l, a + b + c, d);
    lemma_no_states(lines_after(l, a + b + c), d);
    assert(sample_states(l, read_ops(t, addr, len)) =~= Seq::new(8 * len, |i: int| (true, true, false)));
}

proof fn lemma_byte_stream_len(s: Seq<u8>)
    ensures
        byte_stream(s).len() == 9 * s.len(),
    decreases s.len(),
{
    if s.len() > 0 {
        lemma_byte_stream_len(s.drop_last());
    }
}

/// Law (verify reads each block where it lies): when the verify command's walk meets a data
/// record, the block is that record, at its load offset plus the segment base, with its
/// length; the target first clocks in a start condition's low level and then the read
/// command 0x61 with the block address's high and low byte, and the step samples SDAT
/// `8 * len` times, each with SCLK high and SDAT an input. Nothing else is clocked in before
/// the read bytes.
pub proof fn lemma_verify_block_read(
    l: Lines,
    t: Timing,
    w: crate::program::RecordWalker,
    f: crate::record::FileView,
)
    requires
        crate::program::can_step(w, f),
        f.records[w.record_index as int].record_type == crate::record::RecordType::Data,
    ensures
        ({
            let rec = f.records[w.record_index as int];
            let st = crate::program::walk(w, f).1;
            let addr = (rec.address + w.address) as u16;
            let ops = crate::commands::verify_step_ops(t, st);
            &&& st == crate::program::WalkStep::Block {
                index: w.record_index,
                addr,
                len: rec.byte_count as usize,
            }
            &&& clocked_levels(l, ops).take(28) == seq![false] + byte_stream(
                seq![0x61u8, (addr / 256) as u8, (addr % 256) as u8],
            )
            &&& sample_states(l, ops) == Seq::new(8 * (rec.byte_count as nat), |i: int| (true, true, false))
        }),
{
    let rec = f.records[w.record_index as int];
    let addr = (rec.address + w.address) as u16;
    let len = rec.byte_count as nat;
    let p = crate::commands::prepare_ops(t);
    let a = start_condition_ops(t);
    let cmd = seq![crate::wire::CMD_READ, crate::wire::addr_hi(addr as int), crate::wire::addr_lo(addr as int)];
    let b = send_bytes_ops(t, cmd);
    let rest = read_bytes_ops(t, len) + stop_condition_ops();
    let r = read_ops(t, addr, len);
    assert(r =~= a + b + rest);
    lemma_trace(l, p);
    reveal_with_fuel(trace, 11);
    assert(trace(l, p).0 =~= Seq::<bool>::empty());
    assert(trace(l, p).2 == 0);
    let l1 = lines_after(l, p);
    lemma_concat(l, p, r);
    lemma_concat2(l, p, r);
    lemma_no_states(l, p);
    lemma_read_samples_as_input(l1, t, addr, len);
    lemma_start_condition(l1, t);
    lemma_concat(l1, a, b);
    lemma_send_bytes(lines_after(l1, a), t, cmd);
    lemma_concat(l1, a + b, rest);
    assert(crate::wire::addr_hi(addr as int) == (addr / 256) as u8);
    assert(crate::wire::addr_lo(addr as int) == (addr % 256) as u8);
    lemma_byte_stream_len(cmd);
    let head = seq![false] + byte_stream(cmd);
    assert(clocked_levels(l, p + r) =~= head + clocked_levels(lines_after(l1, a + b), rest));
    assert((head + clocked_levels(lines_after(l1, a + b), rest)).take(28) =~= head);
}

} // verus!

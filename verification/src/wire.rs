//! The serial programming interface of the S3 target: four lines (RESET, VPP, SCLK and the
//! bidirectional SDAT) driven bit by bit.
//!
//! Each operation of `S3interface` queues the line operations it consists of; the queue is
//! handed to whatever drives the lines (`take_ops`), which performs them in order and reports
//! the SDAT level at each `SampleSdat`. Those levels are turned back into bytes by
//! `decode_byte` and `decode_read`.
use vstd::prelude::*;
use crate::record::MEM_SIZE;

verus! {

/// The four lines of the interface.
#[derive(Clone, Copy, PartialEq, Eq, Structural, Debug)]
pub enum Line {
    Reset,
    Vpp,
    Sclk,
    Sdat,
}

/// One operation on the lines.
#[derive(Clone, Copy, PartialEq, Eq, Structural, Debug)]
pub enum PinOp {
    /// Drive a line high.
    SetHigh(Line),
    /// Drive a line low.
    SetLow(Line),
    /// Enable or disable SDAT's input buffer.
    SdatInputEnable(bool),
    /// Enable or disable SDAT's output driver.
    SdatOutputEnable(bool),
    /// Wait this many microseconds.
    DelayMicros(u32),
    /// Wait this many nanoseconds.
    DelayNanos(u32),
    /// Wait this many milliseconds.
    DelayMillis(u32),
    /// Read SDAT's level (high is `true`) and report it.
    SampleSdat,
}

/// The interface's timing parameters.
pub struct Timing {
    pub setup_start: u32,
    pub setup_hold: u32,
    pub clk_low: u32,
    pub clk_high: u32,
    pub dummy_low: u32,
    pub dummy_high: u32,
}

/// Bit `i` of `b` (bit 0 is the least significant).
pub open spec fn bit(b: u8, i: u8) -> bool {
    (b >> i) & 1u8 == 1u8
}

/// The 8 bits of `b`, most significant first.
pub open spec fn msb_first_bits(b: u8) -> Seq<bool> {
    Seq::new(8, |k: int| bit(b, (7 - k) as u8))
}

/// Drive SDAT to `high`.
pub open spec fn drive_sdat(high: bool) -> PinOp {
    if high {
        PinOp::SetHigh(Line::Sdat)
    } else {
        PinOp::SetLow(Line::Sdat)
    }
}

pub open spec fn init_ops() -> Seq<PinOp> {
    seq![
        PinOp::SetHigh(Line::Reset),
        PinOp::SetLow(Line::Vpp),
        PinOp::SetLow(Line::Sclk),
        PinOp::SdatInputEnable(false),
        PinOp::SdatOutputEnable(true),
        PinOp::SetLow(Line::Sdat),
    ]
}

pub open spec fn enter_program_mode_ops(t: Timing) -> Seq<PinOp> {
    seq![
        PinOp::SetLow(Line::Reset),
        PinOp::DelayMicros(t.setup_start),
        PinOp::SetHigh(Line::Vpp),
        PinOp::DelayMicros(t.setup_hold),
    ]
}

pub open spec fn dummy_clock_ops(t: Timing) -> Seq<PinOp> {
    seq![
        PinOp::SdatInputEnable(false),
        PinOp::SdatOutputEnable(true),
        PinOp::SetLow(Line::Sclk),
        PinOp::DelayMicros(1),
        PinOp::SetHigh(Line::Sdat),
        PinOp::SetLow(Line::Sclk),
        PinOp::DelayMicros(t.dummy_low),
        PinOp::SetHigh(Line::Sclk),
        PinOp::DelayMicros(t.dummy_high),
    ]
}

pub open spec fn start_condition_ops(t: Timing) -> Seq<PinOp> {
    seq![
        PinOp::SdatInputEnable(false),
        PinOp::SdatOutputEnable(true),
        PinOp::SetLow(Line::Sdat),
        PinOp::SetLow(Line::Sclk),
        PinOp::DelayMillis(1),
        PinOp::SetHigh(Line::Sclk),
        PinOp::DelayNanos(t.setup_start),
        PinOp::SetHigh(Line::Sdat),
        PinOp::DelayNanos(t.setup_hold),
    ]
}

pub open spec fn stop_condition_ops() -> Seq<PinOp> {
    seq![
        PinOp::SdatInputEnable(false),
        PinOp::SdatOutputEnable(true),
        PinOp::SetHigh(Line::Sdat),
        PinOp::DelayMicros(1),
        PinOp::SetHigh(Line::Sclk),
        PinOp::DelayMicros(1),
        PinOp::SetLow(Line::Sdat),
        PinOp::DelayMicros(1),
    ]
}

/// Clocking out bit `i` of `b`: SCLK low, SDAT to the bit, then SCLK high.
pub open spec fn send_bit_ops(t: Timing, b: u8, i: u8) -> Seq<PinOp> {
    seq![
        PinOp::SetLow(Line::Sclk),
        drive_sdat(bit(b, i)),
        PinOp::DelayMicros(t.clk_low),
        PinOp::SetHigh(Line::Sclk),
        PinOp::DelayMicros(t.clk_high),
    ]
}

/// Clocking out the first `n` bits of `b`, most significant first.
pub open spec fn send_bits_ops(t: Timing, b: u8, n: nat) -> Seq<PinOp>
    decreases n,
{
    if n == 0 || n > 8 {
        Seq::empty()
    } else {
        send_bits_ops(t, b, (n - 1) as nat) + send_bit_ops(t, b, (8 - n) as u8)
    }
}

pub open spec fn send_byte_ops(t: Timing, b: u8) -> Seq<PinOp> {
    seq![PinOp::SdatInputEnable(false), PinOp::SdatOutputEnable(true)] + send_bits_ops(t, b, 8)
        + dummy_clock_ops(t)
}

/// Sending the bytes of `s` one after the other.
pub open spec fn send_bytes_ops(t: Timing, s: Seq<u8>) -> Seq<PinOp>
    decreases s.len(),
{
    if s.len() == 0 {
        Seq::empty()
    } else {
        send_bytes_ops(t, s.drop_last()) + send_byte_ops(t, s.last())
    }
}

/// Reading one bit: SCLK low, SCLK high, SDAT sampled halfway through the high phase.
pub open spec fn read_bit_ops(t: Timing) -> Seq<PinOp> {
    seq![
        PinOp::SetLow(Line::Sclk),
        PinOp::DelayMicros(t.clk_low),
        PinOp::SetHigh(Line::Sclk),
        PinOp::DelayMicros(t.clk_high / 2),
        PinOp::SampleSdat,
        PinOp::DelayMicros(t.clk_high / 2),
    ]
}

pub open spec fn read_bits_ops(t: Timing, n: nat) -> Seq<PinOp>
    decreases n,
{
    if n == 0 {
        Seq::empty()
    } else {
        read_bits_ops(t, (n - 1) as nat) + read_bit_ops(t)
    }
}

pub open spec fn read_byte_ops(t: Timing) -> Seq<PinOp> {
    seq![PinOp::SdatInputEnable(true), PinOp::SdatOutputEnable(false)] + read_bits_ops(t, 8)
        + dummy_clock_ops(t)
}

/// Reading `n` bytes one after the other.
pub open spec fn read_bytes_ops(t: Timing, n: nat) -> Seq<PinOp>
    decreases n,
{
    if n == 0 {
        Seq::empty()
    } else {
        read_bytes_ops(t, (n - 1) as nat) + read_byte_ops(t)
    }
}

/// High byte of a 16-bit address.
pub open spec fn addr_hi(addr: int) -> u8 {
    ((addr / 256) % 256) as u8
}

/// Low byte of an address.
pub open spec fn addr_lo(addr: int) -> u8 {
    (addr % 256) as u8
}

/// A command frame: start condition, the bytes, stop condition.
pub open spec fn frame_ops(t: Timing, bytes: Seq<u8>) -> Seq<PinOp> {
    start_condition_ops(t) + send_bytes_ops(t, bytes) + stop_condition_ops()
}

/// Command byte of a memory read.
pub const CMD_READ: u8 = 0x61;
/// Command byte of a memory write.
pub const CMD_WRITE: u8 = 0x00;
/// Command byte of a smart-option (and erase) write.
pub const CMD_OPTION_WRITE: u8 = 0xE0;
/// Command byte of a smart-option read.
pub const CMD_OPTION_READ: u8 = 0xE1;
/// Byte that ends the data of a write command.
pub const END_OF_DATA: u8 = 0xFF;

pub open spec fn read_ops(t: Timing, addr: u16, len: nat) -> Seq<PinOp> {
    start_condition_ops(t) + send_bytes_ops(t, seq![CMD_READ, addr_hi(addr as int), addr_lo(addr as int)])
        + read_bytes_ops(t, len) + stop_condition_ops()
}

pub open spec fn write_ops(t: Timing, addr: u16, byte: u8) -> Seq<PinOp> {
    frame_ops(t, seq![CMD_WRITE, addr_hi(addr as int), addr_lo(addr as int), byte, END_OF_DATA])
}

pub open spec fn write_all_ops(t: Timing, addr: usize, bytes: Seq<u8>, len: nat) -> Seq<PinOp> {
    frame_ops(
        t,
        seq![CMD_WRITE, addr_hi(addr as int), addr_lo(addr as int)] + bytes.take(len as int) + seq![
            END_OF_DATA,
        ],
    )
}

pub open spec fn write_smart_option_ops(t: Timing, addr: usize, byte: u8) -> Seq<PinOp> {
    start_condition_ops(t) + send_bytes_ops(
        t,
        seq![CMD_OPTION_WRITE, addr_hi(addr as int), addr_lo(addr as int), byte, END_OF_DATA],
    ) + seq![PinOp::SetHigh(Line::Sclk), PinOp::DelayMillis(30)] + stop_condition_ops() + seq![
        PinOp::DelayMillis(20),
    ]
}

pub open spec fn read_smart_option_ops(t: Timing, addr: usize) -> Seq<PinOp> {
    start_condition_ops(t) + send_bytes_ops(
        t,
        seq![CMD_OPTION_READ, addr_hi(addr as int), addr_lo(addr as int)],
    ) + read_byte_ops(t) + stop_condition_ops()
}

/// The bytes of the erase command.
pub open spec fn erase_bytes() -> Seq<u8> {
    seq![CMD_OPTION_WRITE, 0x55u8, 0x15u8, 0xAAu8, END_OF_DATA]
}

pub open spec fn erase_ops(t: Timing) -> Seq<PinOp> {
    frame_ops(t, erase_bytes()) + seq![PinOp::DelayMillis(2000)]
}


/// Sending one more byte appends that byte's operations.
pub proof fn lemma_send_bytes_push(t: Timing, s: Seq<u8>, x: u8)
    ensures
        send_bytes_ops(t, s.push(x)) == send_bytes_ops(t, s) + send_byte_ops(t, x),
{
    assert(s.push(x).drop_last() =~= s);
    if s.len() == 0 {
        assert(send_bytes_ops(t, s) =~= Seq::empty());
        assert(send_bytes_ops(t, s.push(x)) =~= send_bytes_ops(t, s) + send_byte_ops(t, x));
    }
}

/// The high and low address bytes as the interface computes them.
pub proof fn lemma_address_bytes(addr: usize)
    ensures
        ((addr >> 8usize) as u8) == addr_hi(addr as int),
        (addr as u8) == addr_lo(addr as int),
{
    assert(((addr >> 8usize) as u8) == ((addr / 256) % 256) as u8) by (bit_vector);
    assert((addr as u8) == (addr % 256) as u8) by (bit_vector);
}


/// Setting bit `i` of `x` sets that bit and leaves the others.
proof fn lemma_set_bit(x: u8, i: u8, j: u8)
    requires
        i < 8,
        j < 8,
    ensures
        bit(x | (1u8 << i), j) == (bit(x, j) || i == j),
{
    assert(bit(x | (1u8 << i), j) == (bit(x, j) || i == j)) by (bit_vector)
        requires
            i < 8,
            j < 8,
    ;
}

/// Two bytes with the same bits are equal.
pub proof fn lemma_bits_determine_byte(a: u8, b: u8)
    requires
        msb_first_bits(a) == msb_first_bits(b),
    ensures
        a == b,
{
    assert forall|i: u8| i < 8 implies bit(a, i) == bit(b, i) by {
        let k: int = 7 - i;
        assert(((7 - k) as u8) == i);
        assert(msb_first_bits(a)[k] == bit(a, i));
        assert(msb_first_bits(b)[k] == bit(b, i));
        assert(msb_first_bits(a)[k] == msb_first_bits(b)[k]);
    }
    let (b0, b1, b2, b3) = (bit(a, 0) == bit(b, 0), bit(a, 1) == bit(b, 1), bit(a, 2) == bit(b, 2), bit(a, 3) == bit(b, 3));
    let (b4, b5, b6, b7) = (bit(a, 4) == bit(b, 4), bit(a, 5) == bit(b, 5), bit(a, 6) == bit(b, 6), bit(a, 7) == bit(b, 7));
    assert(b0 && b1 && b2 && b3 && b4 && b5 && b6 && b7);
    assert(a == b) by (bit_vector)
        requires
            bit(a, 0) == bit(b, 0),
            bit(a, 1) == bit(b, 1),
            bit(a, 2) == bit(b, 2),
            bit(a, 3) == bit(b, 3),
            bit(a, 4) == bit(b, 4),
            bit(a, 5) == bit(b, 5),
            bit(a, 6) == bit(b, 6),
            bit(a, 7) == bit(b, 7),
    ;
}

/// The byte whose bits, most significant first, are `samples[at..at + 8]`.
fn byte_at(samples: &[bool], at: usize) -> (r: u8)
    requires
        at + 8 <= samples@.len(),
    ensures
        msb_first_bits(r) == samples@.subrange(at as int, at + 8),
{
    let mut readed: u8 = 0;
    let mut k: u8 = 0;
    assert forall|j: u8| j < 8 implies !bit(0u8, j) by {
        assert(!bit(0u8, j)) by (bit_vector);
    }
    while k < 8
        invariant
            k <= 8,
            at + 8 <= samples.len(),
            forall|j: int| 0 <= j < k ==> #[trigger] bit(readed, (7 - j) as u8) == samples@[at + j],
            forall|j: int| k <= j < 8 ==> !#[trigger] bit(readed, (7 - j) as u8),
        decreases 8 - k,
    {
        let i: u8 = 7 - k;
        let ghost before = readed;
        if samples[at + k as usize] {
            readed = readed | (0x01u8 << i);
        }
        proof {
            assert forall|j: int| 0 <= j < 8 implies #[trigger] bit(readed, (7 - j) as u8) == (if j == k {
                samples@[at + k]
            } else {
                bit(before, (7 - j) as u8)
            }) by {
                lemma_set_bit(before, i, (7 - j) as u8);
            }
        }
        k = k + 1;
    }
    assert(msb_first_bits(readed) =~= samples@.subrange(at as int, at + 8));
    readed
}

/// The byte a `read_byte` returns: `samples` are the 8 SDAT levels it sampled, in order,
/// and become the byte's bits from the most significant down.
pub fn decode_byte(samples: &[bool]) -> (r: u8)
    requires
        samples@.len() == 8,
    ensures
        msb_first_bits(r) == samples@,
{
    let r = byte_at(samples, 0);
    assert(samples@.subrange(0, 8) =~= samples@);
    r
}

/// The memory a `read(addr, len)` returns: `samples` are the `8 * len` SDAT levels it
/// sampled, in order; byte `i` is decoded from samples `8 * i` to `8 * i + 7`, and the bytes
/// from `len` on are 0.
pub fn decode_read(samples: &[bool], len: usize) -> (mem: [u8; 255])
    requires
        len <= MEM_SIZE,
        samples@.len() == 8 * len,
    ensures
        forall|i: int|
            0 <= i < len ==> msb_first_bits(#[trigger] mem@[i]) == samples@.subrange(
                8 * i,
                8 * i + 8,
            ),
        forall|i: int| len <= i < MEM_SIZE ==> #[trigger] mem@[i] == 0,
{
    let mut mem: [u8; 255] = [0; 255];
    let mut i: usize = 0;
    while i < len
        invariant
            i <= len,
            len <= MEM_SIZE,
            samples@.len() == 8 * len,
            forall|j: int|
                0 <= j < i ==> msb_first_bits(#[trigger] mem@[j]) == samples@.subrange(
                    8 * j,
                    8 * j + 8,
                ),
            forall|j: int| i <= j < MEM_SIZE ==> #[trigger] mem@[j] == 0,
        decreases len - i,
    {
        mem[i] = byte_at(samples, 8 * i);
        i = i + 1;
    }
    mem
}

/// The programming interface: its timing parameters and the line operations queued so far.
pub struct S3interface {
    time_setup_start: u32,
    time_setup_hold: u32,
    time_clk_low: u32,
    time_clk_high: u32,
    time_dummy_low: u32,
    time_dummy_high: u32,
    pending: Vec<PinOp>,
}

impl S3interface {
    pub closed spec fn timing(&self) -> Timing {
        Timing {
            setup_start: self.time_setup_start,
            setup_hold: self.time_setup_hold,
            clk_low: self.time_clk_low,
            clk_high: self.time_clk_high,
            dummy_low: self.time_dummy_low,
            dummy_high: self.time_dummy_high,
        }
    }

    /// The line operations queued and not yet taken.
    pub closed spec fn queued(&self) -> Seq<PinOp> {
        self.pending@
    }

    /// An interface with the standard timing (100 ns setup start and hold, 200 µs for each
    /// phase of the clock and of the dummy clock) and nothing queued.
    pub fn new() -> (s: S3interface)
        ensures
            s.timing() == (Timing {
                setup_start: 100,
                setup_hold: 100,
                clk_low: 200,
                clk_high: 200,
                dummy_low: 200,
                dummy_high: 200,
            }),
            s.queued() == Seq::<PinOp>::empty(),
    {
        S3interface {
            time_setup_start: 100,
            time_setup_hold: 100,
            time_clk_low: 200,
            time_clk_high: 200,
            time_dummy_low: 200,
            time_dummy_high: 200,
            pending: Vec::new(),
        }
    }

    /// Hands out the queued operations, in order, and empties the queue.
    pub fn take_ops(&mut self) -> (ops: Vec<PinOp>)
        ensures
            ops@ == old(self).queued(),
            final(self).queued() == Seq::<PinOp>::empty(),
            final(self).timing() == old(self).timing(),
    {
        let mut ops = Vec::new();
        std::mem::swap(&mut ops, &mut self.pending);
        ops
    }

    fn push(&mut self, op: PinOp)
        ensures
            final(self).queued() == old(self).queued().push(op),
            final(self).timing() == old(self).timing(),
    {
        self.pending.push(op);
    }

    /// Queues a wait of `ms` milliseconds.
    pub fn delay_millis(&mut self, ms: u32)
        ensures
            final(self).queued() == old(self).queued().push(PinOp::DelayMillis(ms)),
            final(self).timing() == old(self).timing(),
    {
        self.push(PinOp::DelayMillis(ms));
    }

    /// Puts the lines in their idle state: RESET high, VPP low, SCLK low, SDAT an output, low.
    pub fn init(&mut self)
        ensures
            final(self).queued() == old(self).queued() + init_ops(),
            final(self).timing() == old(self).timing(),
    {
        self.push(PinOp::SetHigh(Line::Reset));
        self.push(PinOp::SetLow(Line::Vpp));
        self.push(PinOp::SetLow(Line::Sclk));
        self.push(PinOp::SdatInputEnable(false));
        self.push(PinOp::SdatOutputEnable(true));
        self.push(PinOp::SetLow(Line::Sdat));
        assert(final(self).queued() =~= old(self).queued() + init_ops());
    }

    /// Enters programming mode: RESET low, then VPP high after the setup-start time.
    pub fn enter_program_mode(&mut self)
        ensures
            final(self).queued() == old(self).queued() + enter_program_mode_ops(old(self).timing()),
            final(self).timing() == old(self).timing(),
    {
        self.push(PinOp::SetLow(Line::Reset));
        self.push(PinOp::DelayMicros(self.time_setup_start));
        self.push(PinOp::SetHigh(Line::Vpp));
        self.push(PinOp::DelayMicros(self.time_setup_hold));
        assert(final(self).queued() =~= old(self).queued() + enter_program_mode_ops(old(self).timing()));
    }

    /// One extra clock with SDAT driven high, which follows every byte.
    pub fn dummy_clock(&mut self)
        ensures
            final(self).queued() == old(self).queued() + dummy_clock_ops(old(self).timing()),
            final(self).timing() == old(self).timing(),
    {
        self.push(PinOp::SdatInputEnable(false));
        self.push(PinOp::SdatOutputEnable(true));
        self.push(PinOp::SetLow(Line::Sclk));
        self.push(PinOp::DelayMicros(1));
        self.push(PinOp::SetHigh(Line::Sdat));
        self.push(PinOp::SetLow(Line::Sclk));
        self.push(PinOp::DelayMicros(self.time_dummy_low));
        self.push(PinOp::SetHigh(Line::Sclk));
        self.push(PinOp::DelayMicros(self.time_dummy_high));
        assert(final(self).queued() =~= old(self).queued() + dummy_clock_ops(old(self).timing()));
    }

    /// Start condition: SCLK pulsed high with SDAT low, then SDAT rises while SCLK is high.
    pub fn start_condition(&mut self)
        ensures
            final(self).queued() == old(self).queued() + start_condition_ops(old(self).timing()),
            final(self).timing() == old(self).timing(),
    {
        self.push(PinOp::SdatInputEnable(false));
        self.push(PinOp::SdatOutputEnable(true));
        self.push(PinOp::SetLow(Line::Sdat));
        self.push(PinOp::SetLow(Line::Sclk));
        self.push(PinOp::DelayMillis(1));
        self.push(PinOp::SetHigh(Line::Sclk));
        self.push(PinOp::DelayNanos(self.time_setup_start));
        self.push(PinOp::SetHigh(Line::Sdat));
        self.push(PinOp::DelayNanos(self.time_setup_hold));
        assert(final(self).queued() =~= old(self).queued() + start_condition_ops(old(self).timing()));
    }

    /// Stop condition: SDAT high, SCLK high, then SDAT falls while SCLK is high.
    pub fn stop_condition(&mut self)
        ensures
            final(self).queued() == old(self).queued() + stop_condition_ops(),
            final(self).timing() == old(self).timing(),
    {
        self.push(PinOp::SdatInputEnable(false));
        self.push(PinOp::SdatOutputEnable(true));
        self.push(PinOp::SetHigh(Line::Sdat));
        self.push(PinOp::DelayMicros(1));
        self.push(PinOp::SetHigh(Line::Sclk));
        self.push(PinOp::DelayMicros(1));
        self.push(PinOp::SetLow(Line::Sdat));
        self.push(PinOp::DelayMicros(1));
        assert(final(self).queued() =~= old(self).queued() + stop_condition_ops());
    }

    /// Clocks out `byte`, most significant bit first, followed by the dummy clock.
    pub fn send_byte(&mut self, byte: u8)
        ensures
            final(self).queued() == old(self).queued() + send_byte_ops(old(self).timing(), byte),
            final(self).timing() == old(self).timing(),
    {
        let ghost t = self.timing();
        let ghost start = self.queued();
        self.push(PinOp::SdatInputEnable(false));
        self.push(PinOp::SdatOutputEnable(true));
        let ghost head = self.queued();
        assert(head =~= start + seq![PinOp::SdatInputEnable(false), PinOp::SdatOutputEnable(true)]);
        let mut k: u8 = 0;
        while k < 8
            invariant
                k <= 8,
                self.timing() == t,
                self.queued() =~= head + send_bits_ops(t, byte, k as nat),
            decreases 8 - k,
        {
            let i: u8 = 7 - k;
            self.push(PinOp::SetLow(Line::Sclk));
            if ((0x01u8 << i) & byte) != 0 {
                assert(bit(byte, i)) by (bit_vector)
                    requires
                        i < 8,
                        ((1u8 << i) & byte) != 0,
                ;
                self.push(PinOp::SetHigh(Line::Sdat));
            } else {
                assert(!bit(byte, i)) by (bit_vector)
                    requires
                        i < 8,
                        ((1u8 << i) & byte) == 0,
                ;
                self.push(PinOp::SetLow(Line::Sdat));
            }
            self.push(PinOp::DelayMicros(self.time_clk_low));
            self.push(PinOp::SetHigh(Line::Sclk));
            self.push(PinOp::DelayMicros(self.time_clk_high));
            assert(send_bits_ops(t, byte, (k + 1) as nat) == send_bits_ops(t, byte, k as nat)
                + send_bit_ops(t, byte, i));
            k = k + 1;
        }
        self.dummy_clock();
        assert(final(self).queued() =~= start + send_byte_ops(t, byte));
    }

    /// Reads one byte: 8 clocks with SDAT as an input, sampled in each clock's high phase,
    /// most significant bit first, then the dummy clock. The samples become the byte with
    /// `decode_byte`.
    pub fn read_byte(&mut self)
        ensures
            final(self).queued() == old(self).queued() + read_byte_ops(old(self).timing()),
            final(self).timing() == old(self).timing(),
    {
        let ghost t = self.timing();
        let ghost start = self.queued();
        self.push(PinOp::SdatInputEnable(true));
        self.push(PinOp::SdatOutputEnable(false));
        let ghost head = self.queued();
        assert(head =~= start + seq![PinOp::SdatInputEnable(true), PinOp::SdatOutputEnable(false)]);
        let mut k: u8 = 0;
        while k < 8
            invariant
                k <= 8,
                self.timing() == t,
                self.queued() =~= head + read_bits_ops(t, k as nat),
            decreases 8 - k,
        {
            self.push(PinOp::SetLow(Line::Sclk));
            self.push(PinOp::DelayMicros(self.time_clk_low));
            self.push(PinOp::SetHigh(Line::Sclk));
            self.push(PinOp::DelayMicros(self.time_clk_high / 2));
            self.push(PinOp::SampleSdat);
            self.push(PinOp::DelayMicros(self.time_clk_high / 2));
            assert(read_bits_ops(t, (k + 1) as nat) == read_bits_ops(t, k as nat) + read_bit_ops(t));
            k = k + 1;
        }
        self.dummy_clock();
        assert(final(self).queued() =~= start + read_byte_ops(t));
    }


    /// Reads `len` bytes of memory starting at `addr`: start condition, the read command
    /// (`CMD_READ`, address high byte, address low byte), `len` byte reads, stop condition.
    /// The `8 * len` samples become the bytes with `decode_read`.
    pub fn read(&mut self, addr: u16, len: usize)
        requires
            len <= MEM_SIZE,
        ensures
            final(self).queued() == old(self).queued() + read_ops(old(self).timing(), addr, len as nat),
            final(self).timing() == old(self).timing(),
    {
        let ghost t = self.timing();
        let ghost start = self.queued();
        let byte1: u8 = CMD_READ;
        self.start_condition();
        let hi = (addr >> 8) as u8;
        let lo = addr as u8;
        proof {
            lemma_address_bytes(addr as usize);
        }
        self.send_all(&[byte1, hi, lo]);
        let ghost head = self.queued();
        assert(head =~= start + start_condition_ops(t) + send_bytes_ops(t, seq![byte1, hi, lo]));
        let mut i: usize = 0;
        while i < len
            invariant
                i <= len,
                self.timing() == t,
                self.queued() =~= head + read_bytes_ops(t, i as nat),
            decreases len - i,
        {
            self.read_byte();
            assert(read_bytes_ops(t, (i + 1) as nat) == read_bytes_ops(t, i as nat) + read_byte_ops(t));
            i = i + 1;
        }
        self.stop_condition();
        assert(final(self).queued() =~= start + read_ops(t, addr, len as nat));
    }

    /// Writes one byte of memory: the frame `CMD_WRITE`, address high, address low, the byte,
    /// `END_OF_DATA`.
    pub fn write(&mut self, addr: u16, byte: u8)
        ensures
            final(self).queued() == old(self).queued() + write_ops(old(self).timing(), addr, byte),
            final(self).timing() == old(self).timing(),
    {
        let ghost t = self.timing();
        let ghost start = self.queued();
        self.start_condition();
        let hi = (addr >> 8) as u8;
        let lo = addr as u8;
        proof {
            lemma_address_bytes(addr as usize);
        }
        self.send_all(&[CMD_WRITE, hi, lo, byte, END_OF_DATA]);
        self.stop_condition();
        assert(final(self).queued() =~= start + write_ops(t, addr, byte));
    }

    /// Writes the first `len` bytes of `bytes` to memory starting at `addr`: the frame
    /// `CMD_WRITE`, address high, address low, the bytes, `END_OF_DATA`.
    pub fn write_all(&mut self, addr: usize, bytes: [u8; 255], len: usize)
        requires
            len <= MEM_SIZE,
        ensures
            final(self).queued() == old(self).queued() + write_all_ops(
                old(self).timing(),
                addr,
                bytes@,
                len as nat,
            ),
            final(self).timing() == old(self).timing(),
    {
        let ghost t = self.timing();
        let ghost start = self.queued();
        self.start_condition();
        let hi = (addr >> 8) as u8;
        let lo = addr as u8;
        proof {
            lemma_address_bytes(addr);
        }
        self.send_all(&[CMD_WRITE, hi, lo]);
        let ghost head = seq![CMD_WRITE, hi, lo];
        let mut idx: usize = 0;
        while idx < len
            invariant
                idx <= len,
                len <= MEM_SIZE,
                self.timing() == t,
                self.queued() =~= start + start_condition_ops(t) + send_bytes_ops(
                    t,
                    head + bytes@.take(idx as int),
                ),
            decreases len - idx,
        {
            let byte = bytes[idx];
            self.send_byte(byte);
            proof {
                lemma_send_bytes_push(t, head + bytes@.take(idx as int), byte);
                assert((head + bytes@.take(idx as int)).push(byte) =~= head + bytes@.take(
                    idx + 1,
                ));
            }
            idx = idx + 1;
        }
        self.send_byte(END_OF_DATA);
        proof {
            lemma_send_bytes_push(t, head + bytes@.take(len as int), END_OF_DATA);
            assert((head + bytes@.take(len as int)).push(END_OF_DATA) =~= seq![
                CMD_WRITE,
                addr_hi(addr as int),
                addr_lo(addr as int),
            ] + bytes@.take(len as int) + seq![END_OF_DATA]);
        }
        self.stop_condition();
        assert(final(self).queued() =~= start + write_all_ops(t, addr, bytes@, len as nat));
    }

    /// Writes a smart-option byte at `addr`: the frame `CMD_OPTION_WRITE`, address high,
    /// address low, the byte, `END_OF_DATA`, then SCLK held high for 30 ms before the stop
    /// condition, and 20 ms more.
    pub fn write_smart_option(&mut self, addr: usize, byte: u8)
        ensures
            final(self).queued() == old(self).queued() + write_smart_option_ops(
                old(self).timing(),
                addr,
                byte,
            ),
            final(self).timing() == old(self).timing(),
    {
        let ghost t = self.timing();
        let ghost start = self.queued();
        self.start_condition();
        let hi = (addr >> 8) as u8;
        let lo = addr as u8;
        proof {
            lemma_address_bytes(addr);
        }
        self.send_all(&[CMD_OPTION_WRITE, hi, lo, byte, END_OF_DATA]);
        self.push(PinOp::SetHigh(Line::Sclk));
        self.push(PinOp::DelayMillis(30));
        self.stop_condition();
        self.push(PinOp::DelayMillis(20));
        assert(final(self).queued() =~= start + write_smart_option_ops(t, addr, byte));
    }

    /// Reads the smart-option byte at `addr`: the command `CMD_OPTION_READ`, address high,
    /// address low, then one byte read; its 8 samples become the byte with `decode_byte`.
    pub fn read_smart_option(&mut self, addr: usize)
        ensures
            final(self).queued() == old(self).queued() + read_smart_option_ops(
                old(self).timing(),
                addr,
            ),
            final(self).timing() == old(self).timing(),
    {
        let ghost t = self.timing();
        let ghost start = self.queued();
        self.start_condition();
        let hi = (addr >> 8) as u8;
        let lo = addr as u8;
        proof {
            lemma_address_bytes(addr);
        }
        self.send_all(&[CMD_OPTION_READ, hi, lo]);
        self.read_byte();
        self.stop_condition();
        assert(final(self).queued() =~= start + read_smart_option_ops(t, addr));
    }

    /// Erases the whole memory: the frame `CMD_OPTION_WRITE`, 0x55, 0x15, 0xAA, `END_OF_DATA`,
    /// then a 2 s wait.
    pub fn erase(&mut self)
        ensures
            final(self).queued() == old(self).queued() + erase_ops(old(self).timing()),
            final(self).timing() == old(self).timing(),
    {
        let ghost t = self.timing();
        let ghost start = self.queued();
        self.start_condition();
        self.send_all(&[0xE0, 0x55, 0x15, 0xAA, 0xFF]);
        self.stop_condition();
        self.push(PinOp::DelayMillis(2000));
        assert(final(self).queued() =~= start + erase_ops(t));
    }


    /// Sends the bytes one after the other.
    fn send_all(&mut self, bytes: &[u8])
        ensures
            final(self).queued() == old(self).queued() + send_bytes_ops(old(self).timing(), bytes@),
            final(self).timing() == old(self).timing(),
    {
        let ghost t = self.timing();
        let ghost start = self.queued();
        let mut i: usize = 0;
        assert(send_bytes_ops(t, bytes@.take(0)) =~= Seq::empty());
        while i < bytes.len()
            invariant
                i <= bytes.len(),
                self.timing() == t,
                self.queued() =~= start + send_bytes_ops(t, bytes@.take(i as int)),
            decreases bytes.len() - i,
        {
            self.send_byte(bytes[i]);
            proof {
                lemma_send_bytes_push(t, bytes@.take(i as int), bytes@[i as int]);
                assert(bytes@.take(i as int).push(bytes@[i as int]) =~= bytes@.take(i + 1));
            }
            i = i + 1;
        }
        assert(bytes@.take(bytes.len() as int) =~= bytes@);
    }

}

} // verus!

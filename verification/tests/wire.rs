use s3prog::wire::{decode_byte, decode_read, Line, PinOp, S3interface};

/// The SDAT levels at the rising edges of SCLK, starting with SCLK low.
fn clocked(ops: &[PinOp]) -> Vec<bool> {
    let mut sclk = false;
    let mut sdat = false;
    let mut out = Vec::new();
    for op in ops {
        match op {
            PinOp::SetHigh(Line::Sclk) => {
                if !sclk {
                    out.push(sdat);
                }
                sclk = true;
            }
            PinOp::SetLow(Line::Sclk) => sclk = false,
            PinOp::SetHigh(Line::Sdat) => sdat = true,
            PinOp::SetLow(Line::Sdat) => sdat = false,
            _ => {}
        }
    }
    out
}

fn bits(b: u8) -> Vec<bool> {
    (0..8).map(|k| (b >> (7 - k)) & 1 == 1).collect()
}

fn samples(ops: &[PinOp]) -> usize {
    ops.iter().filter(|o| **o == PinOp::SampleSdat).count()
}

#[test]
fn init_sequence() {
    let mut s3 = S3interface::new();
    s3.init();
    assert_eq!(
        s3.take_ops(),
        vec![
            PinOp::SetHigh(Line::Reset),
            PinOp::SetLow(Line::Vpp),
            PinOp::SetLow(Line::Sclk),
            PinOp::SdatInputEnable(false),
            PinOp::SdatOutputEnable(true),
            PinOp::SetLow(Line::Sdat),
        ]
    );
    assert!(s3.take_ops().is_empty());
}

#[test]
fn enter_program_mode_uses_setup_times() {
    let mut s3 = S3interface::new();
    s3.enter_program_mode();
    assert_eq!(
        s3.take_ops(),
        vec![
            PinOp::SetLow(Line::Reset),
            PinOp::DelayMicros(100),
            PinOp::SetHigh(Line::Vpp),
            PinOp::DelayMicros(100),
        ]
    );
}

#[test]
fn dummy_clock_sequence() {
    let mut s3 = S3interface::new();
    s3.dummy_clock();
    let ops = s3.take_ops();
    assert_eq!(ops.len(), 9);
    assert_eq!(ops[4], PinOp::SetHigh(Line::Sdat));
    assert_eq!(ops[6], PinOp::DelayMicros(200));
    assert_eq!(ops[8], PinOp::DelayMicros(200));
    assert_eq!(clocked(&ops), vec![true]);
}

#[test]
fn send_byte_clocks_msb_first_then_dummy() {
    for b in [0x00u8, 0xA5, 0x61, 0xFF, 0x80, 0x01] {
        let mut s3 = S3interface::new();
        s3.send_byte(b);
        let ops = s3.take_ops();
        assert_eq!(ops.len(), 2 + 8 * 5 + 9);
        assert_eq!(ops[0], PinOp::SdatInputEnable(false));
        assert_eq!(ops[1], PinOp::SdatOutputEnable(true));
        let mut expected = bits(b);
        expected.push(true);
        assert_eq!(clocked(&ops), expected);
        assert_eq!(samples(&ops), 0);
        assert_eq!(decode_byte(&clocked(&ops)[..8]), b);
    }
}

#[test]
fn read_byte_samples_eight_times() {
    let mut s3 = S3interface::new();
    s3.read_byte();
    let ops = s3.take_ops();
    assert_eq!(ops[0], PinOp::SdatInputEnable(true));
    assert_eq!(ops[1], PinOp::SdatOutputEnable(false));
    assert_eq!(samples(&ops), 8);
    assert_eq!(ops[5], PinOp::DelayMicros(100));
    assert_eq!(ops[6], PinOp::SampleSdat);
    assert_eq!(ops.len(), 2 + 8 * 6 + 9);
}

#[test]
fn decode_byte_msb_first() {
    assert_eq!(decode_byte(&[true, false, true, false, false, true, false, true]), 0xA5);
    assert_eq!(decode_byte(&[false; 8]), 0);
    assert_eq!(decode_byte(&[true; 8]), 0xFF);
    assert_eq!(decode_byte(&[false, false, false, false, false, false, false, true]), 1);
}

#[test]
fn decode_read_fills_and_zeroes() {
    let mut s = bits(0x12);
    s.extend(bits(0xFE));
    let mem = decode_read(&s, 2);
    assert_eq!(mem[0], 0x12);
    assert_eq!(mem[1], 0xFE);
    assert!(mem[2..].iter().all(|b| *b == 0));
    let mem = decode_read(&[], 0);
    assert!(mem.iter().all(|b| *b == 0));
}

#[test]
fn write_frame() {
    let mut s3 = S3interface::new();
    s3.write(0x1234, 0x5A);
    let ops = s3.take_ops();
    let mut expected = vec![false];
    for b in [0x00u8, 0x12, 0x34, 0x5A, 0xFF] {
        expected.extend(bits(b));
        expected.push(true);
    }
    assert_eq!(clocked(&ops), expected);
    assert_eq!(ops[0], PinOp::SdatInputEnable(false));
    assert_eq!(ops[4], PinOp::DelayMillis(1));
    assert_eq!(ops[6], PinOp::DelayNanos(100));
    let n = ops.len();
    assert_eq!(&ops[n - 3..], &[PinOp::DelayMicros(1), PinOp::SetLow(Line::Sdat), PinOp::DelayMicros(1)]);
}

#[test]
fn write_is_write_all_of_one_byte() {
    let mut a = S3interface::new();
    a.write(0x0456, 0x99);
    let mut b = S3interface::new();
    let mut bytes = [0u8; 255];
    bytes[0] = 0x99;
    bytes[1] = 0x11;
    b.write_all(0x0456, bytes, 1);
    assert_eq!(a.take_ops(), b.take_ops());
}

#[test]
fn write_all_frame() {
    let mut s3 = S3interface::new();
    let mut bytes = [0u8; 255];
    bytes[0] = 0xDE;
    bytes[1] = 0xAD;
    bytes[2] = 0xBE;
    s3.write_all(0x1_0203, bytes, 2);
    let mut expected = vec![false];
    for b in [0x00u8, 0x02, 0x03, 0xDE, 0xAD, 0xFF] {
        expected.extend(bits(b));
        expected.push(true);
    }
    assert_eq!(clocked(&s3.take_ops()), expected);
}

#[test]
fn read_frame_and_samples() {
    let mut s3 = S3interface::new();
    s3.read(0xABCD, 10);
    let ops = s3.take_ops();
    assert_eq!(samples(&ops), 80);
    let c = clocked(&ops);
    let mut head = vec![false];
    for b in [0x61u8, 0xAB, 0xCD] {
        head.extend(bits(b));
        head.push(true);
    }
    assert_eq!(&c[..head.len()], &head[..]);
}

#[test]
fn erase_frame() {
    let mut s3 = S3interface::new();
    s3.erase();
    let ops = s3.take_ops();
    let mut expected = vec![false];
    for b in [0xE0u8, 0x55, 0x15, 0xAA, 0xFF] {
        expected.extend(bits(b));
        expected.push(true);
    }
    assert_eq!(clocked(&ops), expected);
    assert_eq!(*ops.last().unwrap(), PinOp::DelayMillis(2000));
}

#[test]
fn smart_option_frames() {
    let mut s3 = S3interface::new();
    s3.write_smart_option(0x0E39, 0xA7);
    let ops = s3.take_ops();
    let mut expected = vec![false];
    for b in [0xE0u8, 0x0E, 0x39, 0xA7, 0xFF] {
        expected.extend(bits(b));
        expected.push(true);
    }
    assert_eq!(clocked(&ops), expected);
    assert_eq!(*ops.last().unwrap(), PinOp::DelayMillis(20));
    assert!(ops.contains(&PinOp::DelayMillis(30)));

    s3.read_smart_option(0x0E39);
    let ops = s3.take_ops();
    assert_eq!(samples(&ops), 8);
    let c = clocked(&ops);
    let mut head = vec![false];
    for b in [0xE1u8, 0x0E, 0x39] {
        head.extend(bits(b));
        head.push(true);
    }
    assert_eq!(&c[..head.len()], &head[..]);
}

#[test]
fn delay_is_queued_in_order() {
    let mut s3 = S3interface::new();
    s3.stop_condition();
    s3.delay_millis(10);
    let ops = s3.take_ops();
    assert_eq!(ops.len(), 9);
    assert_eq!(ops[8], PinOp::DelayMillis(10));
}

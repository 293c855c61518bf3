use s3prog::commands::Verifier;
use s3prog::program::WalkStep;
use s3prog::program::{SMART_OPTION_ADDRESS, SMART_OPTION_VALUE};
use s3prog::record::HexRecord;
use s3prog::wire::{decode_byte, decode_read, Line, PinOp, S3interface};

fn samples(ops: &[PinOp]) -> usize {
    ops.iter().filter(|o| **o == PinOp::SampleSdat).count()
}

fn concat(parts: Vec<Vec<PinOp>>) -> Vec<PinOp> {
    parts.into_iter().flatten().collect()
}

fn ops_of(f: impl Fn(&mut S3interface)) -> Vec<PinOp> {
    let mut s3 = S3interface::new();
    f(&mut s3);
    s3.take_ops()
}

#[test]
fn erase_command() {
    let expected = concat(vec![ops_of(|s| s.init()), ops_of(|s| s.enter_program_mode()), ops_of(|s| s.erase())]);
    assert_eq!(ops_of(|s| s.erase_chip()), expected);
}

#[test]
fn program_block_writes_the_record_data() {
    let mut rec = HexRecord::new();
    rec.byte_count = 3;
    rec.data[0] = 1;
    rec.data[1] = 2;
    rec.data[2] = 3;
    let data = rec.data;
    let got = ops_of(|s| s.program_block(&rec, 0x0100));
    let expected = concat(vec![
        ops_of(|s| s.prepare()),
        ops_of(|s| s.write_all(0x0100, data, 3)),
        vec![PinOp::DelayMillis(10)],
    ]);
    assert_eq!(got, expected);
}

#[test]
fn finish_programming_writes_the_smart_option() {
    let expected = concat(vec![
        ops_of(|s| s.prepare()),
        ops_of(|s| s.write_smart_option(SMART_OPTION_ADDRESS, SMART_OPTION_VALUE)),
        vec![PinOp::DelayMillis(10)],
    ]);
    assert_eq!(ops_of(|s| s.finish_programming()), expected);
}

#[test]
fn read_block_and_option_back() {
    let ops = ops_of(|s| s.read_block(0x0200, 16));
    assert_eq!(samples(&ops), 128);
    assert_eq!(ops[0], PinOp::SetHigh(Line::Reset));
    let ops = ops_of(|s| s.read_option_back());
    assert_eq!(samples(&ops), 8);
}

#[test]
fn self_test_samples_option_then_block() {
    let ops = ops_of(|s| s.self_test());
    assert_eq!(samples(&ops), 88);
    // A target that answers 0xA7 and then ten 0x0A bytes.
    let mut levels = Vec::new();
    for b in [0xA7u8].iter().chain([0x0Au8; 10].iter()) {
        for k in 0..8 {
            levels.push((b >> (7 - k)) & 1 == 1);
        }
    }
    assert_eq!(decode_byte(&levels[..8]), 0xA7);
    let mem = decode_read(&levels[8..], 10);
    assert!(mem[..10].iter().all(|b| *b == 0x0A));
    assert_eq!(mem[10], 0);
}

fn load(text: &[u8]) -> s3prog::record::HexFile {
    let mut parser = s3prog::upload::HexParser::new();
    let mut file = s3prog::record::HexFile::new();
    for b in text {
        if parser.is_done() {
            break;
        }
        assert!(parser.accepts(*b));
        parser.feed(&mut file, *b);
    }
    file
}

#[test]
fn program_file_writes_each_data_record_then_the_option() {
    let file = load(b":0400000300003800C1\r\n:0201000011229A\r\n:0101100033BB\r\n:00000001FF\r\n");
    assert!(s3prog::program::walk_defined(&file));
    let got = ops_of(|s| s.program_file(&file));
    let expected = concat(vec![
        ops_of(|s| s.program_block(&file.records[1], 0x0100)),
        ops_of(|s| s.program_block(&file.records[2], 0x0110)),
        ops_of(|s| s.finish_programming()),
    ]);
    assert_eq!(got, expected);
    assert_eq!(samples(&got), 0);
    assert!(!got.contains(&PinOp::DelayMillis(2000)));
}

#[test]
fn program_file_of_an_empty_file_only_writes_the_option() {
    let file = s3prog::record::HexFile::new();
    assert!(s3prog::program::walk_defined(&file));
    assert_eq!(ops_of(|s| s.program_file(&file)), ops_of(|s| s.finish_programming()));
}

#[test]
fn walk_defined_detects_missing_end_and_overflow() {
    let mut file = s3prog::record::HexFile::new();
    for r in file.records.iter_mut() {
        r.record_type = s3prog::record::RecordType::StartLinearAddress;
    }
    assert!(!s3prog::program::walk_defined(&file));
    let mut file = load(b":020000021000EC\r\n:01FFF00042AD\r\n:00000001FF\r\n");
    assert!(s3prog::program::walk_defined(&file));
    file.records[0].data[3] = 0x01;
    assert!(!s3prog::program::walk_defined(&file));
}

#[test]
fn verifier_reads_only_and_flags_differences() {
    let file = load(b":0201000011229A\r\n:0400000300003800C1\r\n:0101100033BB\r\n:00000001FF\r\n");
    let mut v = Verifier::new();
    let mut s3 = S3interface::new();

    let st = v.next(&mut s3, &file);
    assert_eq!(st, WalkStep::Block { index: 0, addr: 0x0100, len: 2 });
    let ops = s3.take_ops();
    assert_eq!(ops, ops_of(|s| s.read_block(0x0100, 2)));
    let mut readed = [0u8; 255];
    readed[0] = 0x11;
    readed[1] = 0x22;
    assert!(v.on_block_read(&file.records[0], &readed, 2).is_empty());
    assert!(!v.verify_false);

    assert_eq!(v.next(&mut s3, &file), WalkStep::Skip);
    assert!(s3.take_ops().is_empty());

    assert_eq!(v.next(&mut s3, &file), WalkStep::Block { index: 2, addr: 0x0110, len: 1 });
    assert_eq!(samples(&s3.take_ops()), 8);
    let readed = [0u8; 255];
    assert_eq!(v.on_block_read(&file.records[2], &readed, 1), vec![0]);
    assert!(v.verify_false);

    assert_eq!(v.next(&mut s3, &file), WalkStep::End);
    assert_eq!(s3.take_ops(), ops_of(|s| s.read_option_back()));
    assert!(v.verify_false);
}

#[test]
fn program_file_carries_the_segment_base() {
    let mut file = load(b":020000021000EC\r\n:0100100042AD\r\n:00000001FF\r\n");
    file.records[0].data[2] = 0x00;
    file.records[0].data[3] = 0x20;
    assert!(s3prog::program::walk_defined(&file));
    let got = ops_of(|s| s.program_file(&file));
    let expected = concat(vec![
        ops_of(|s| s.program_block(&file.records[1], 0x0200 + 0x0010)),
        ops_of(|s| s.finish_programming()),
    ]);
    assert_eq!(got, expected);
}

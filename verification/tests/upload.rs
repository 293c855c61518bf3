use s3prog::record::{HexFile, RecordType};
use s3prog::upload::{admit_upload, record_type_from_code, HexParser, HexStage};

/// Reads `text` byte by byte; `false` at the first byte the parser refuses.
fn read_text(parser: &mut HexParser, file: &mut HexFile, text: &[u8]) -> bool {
    for b in text {
        if parser.is_done() {
            break;
        }
        if !parser.accepts(*b) {
            return false;
        }
        parser.feed(file, *b);
    }
    true
}

const SAMPLE: &[u8] = b":10010000214601360121470136007EFE09D2190140\r\n:100110002146017E17C20001FF5F16002148011928\r\n:00000001FF\r\n";

#[test]
fn upload_admission() {
    assert_eq!(admit_upload(0), Some(0));
    assert_eq!(admit_upload(1234), Some(12340));
    assert_eq!(admit_upload(2_000_000), Some(20_000_000));
    assert_eq!(admit_upload(2_000_001), None);
}

#[test]
fn record_type_codes() {
    assert_eq!(record_type_from_code(0), Some(RecordType::Data));
    assert_eq!(record_type_from_code(1), Some(RecordType::Eof));
    assert_eq!(record_type_from_code(2), Some(RecordType::ExtendedSegmentAddress));
    assert_eq!(record_type_from_code(3), Some(RecordType::StartSegmentAddress));
    assert_eq!(record_type_from_code(4), Some(RecordType::ExtendedLinearAddress));
    assert_eq!(record_type_from_code(5), Some(RecordType::StartLinearAddress));
    assert_eq!(record_type_from_code(6), None);
    assert_eq!(record_type_from_code(255), None);
}

#[test]
fn reads_a_whole_file() {
    let mut parser = HexParser::new();
    let mut file = HexFile::new();
    assert!(read_text(&mut parser, &mut file, SAMPLE));
    assert!(parser.is_done());
    assert_eq!(file.record_count, 3);

    let r0 = &file.records[0];
    assert_eq!(r0.record_type, RecordType::Data);
    assert_eq!(r0.byte_count, 0x10);
    assert_eq!(r0.address, 0x0100);
    assert_eq!(
        &r0.data[..16],
        &[0x21, 0x46, 0x01, 0x36, 0x01, 0x21, 0x47, 0x01, 0x36, 0x00, 0x7E, 0xFE, 0x09, 0xD2, 0x19, 0x01]
    );
    assert!(r0.data[16..].iter().all(|b| *b == 0));

    let r1 = &file.records[1];
    assert_eq!(r1.record_type, RecordType::Data);
    assert_eq!(r1.address, 0x0110);
    assert_eq!(r1.data[0], 0x21);
    assert_eq!(r1.data[15], 0x19);

    // The end-of-file record announces no data: its checksum digits are read as its first data byte.
    let r2 = &file.records[2];
    assert_eq!(r2.record_type, RecordType::Eof);
    assert_eq!(r2.byte_count, 0);
    assert_eq!(r2.address, 0);
    assert_eq!(r2.data[0], 0xFF);
}

#[test]
fn text_after_the_end_is_ignored() {
    let mut parser = HexParser::new();
    let mut file = HexFile::new();
    let mut text = SAMPLE.to_vec();
    text.extend_from_slice(b":0400000055555555AC\r\nnot hex at all");
    assert!(read_text(&mut parser, &mut file, &text));
    assert_eq!(file.record_count, 3);
    assert_eq!(file.records[3].byte_count, 0);
    // A done parser accepts and ignores anything.
    assert!(parser.accepts(b'z'));
    parser.feed(&mut file, b'z');
    assert_eq!(file.record_count, 3);
}

#[test]
fn lower_case_digits_and_bare_newlines() {
    let mut parser = HexParser::new();
    let mut file = HexFile::new();
    assert!(read_text(&mut parser, &mut file, b":02abcd00beef00\n:00000001ff\n"));
    assert_eq!(file.record_count, 2);
    assert_eq!(file.records[0].address, 0xABCD);
    assert_eq!(file.records[0].data[0], 0xBE);
    assert_eq!(file.records[0].data[1], 0xEF);
}

#[test]
fn garbage_before_the_start_code_is_skipped() {
    let mut parser = HexParser::new();
    let mut file = HexFile::new();
    assert!(read_text(&mut parser, &mut file, b"xyz\r\n:0100000042BD\r\n:00000001FF\r\n"));
    assert_eq!(file.record_count, 2);
    assert_eq!(file.records[0].data[0], 0x42);
}

#[test]
fn without_an_end_record_the_count_stays() {
    let mut parser = HexParser::new();
    let mut file = HexFile::new();
    file.record_count = 7;
    assert!(read_text(&mut parser, &mut file, b":0100000042BD\r\n"));
    assert!(!parser.is_done());
    assert_eq!(parser.record_index, 1);
    assert_eq!(parser.stage, HexStage::StartCode);
    assert_eq!(file.record_count, 7);
    assert_eq!(file.records[0].record_type, RecordType::Data);
}

#[test]
fn bad_digit_is_refused() {
    let mut parser = HexParser::new();
    let mut file = HexFile::new();
    assert!(!read_text(&mut parser, &mut file, b":1G"));
    let mut parser = HexParser::new();
    let mut file = HexFile::new();
    assert!(!read_text(&mut parser, &mut file, b":0100X0"));
}

#[test]
fn unknown_record_type_is_refused() {
    let mut parser = HexParser::new();
    let mut file = HexFile::new();
    assert!(read_text(&mut parser, &mut file, b":01000000"));
    assert!(!read_text(&mut parser, &mut file, b":0100000"));
    let mut parser = HexParser::new();
    let mut file = HexFile::new();
    assert!(!read_text(&mut parser, &mut file, b":01000006"));
}

#[test]
fn more_records_than_the_file_holds_is_refused() {
    let mut parser = HexParser::new();
    let mut file = HexFile::new();
    let mut text = Vec::new();
    for _ in 0..100 {
        text.extend_from_slice(b":0100000042BD\r\n");
    }
    assert!(read_text(&mut parser, &mut file, &text));
    assert_eq!(parser.record_index, 100);
    assert!(!read_text(&mut parser, &mut file, b":01"));
}

#[test]
fn records_keep_old_data_beyond_their_length() {
    let mut parser = HexParser::new();
    let mut file = HexFile::new();
    file.records[0].data[1] = 0x77;
    assert!(read_text(&mut parser, &mut file, b":0100000042BD\r\n:00000001FF\r\n"));
    assert_eq!(file.records[0].data[0], 0x42);
    assert_eq!(file.records[0].data[1], 0x77);
}

#[test]
fn one_character_after_the_end_record_finishes() {
    let mut parser = HexParser::new();
    let mut file = HexFile::new();
    assert!(read_text(&mut parser, &mut file, b":0100000042BD\n:00000001ff"));
    assert!(!parser.is_done());
    assert_eq!(file.record_count, 0);
    assert!(read_text(&mut parser, &mut file, b"x"));
    assert!(parser.is_done());
    assert_eq!(file.record_count, 2);
}

#[test]
fn empty_record_needs_cr_lf() {
    // A record without data ended by a lone LF makes the next start code go unseen.
    let mut parser = HexParser::new();
    let mut file = HexFile::new();
    assert!(read_text(&mut parser, &mut file, b":0000000300\n:0100000042BD\n:00000001FF\n"));
    assert!(parser.is_done());
    assert_eq!(file.record_count, 2);
    assert_eq!(file.records[1].record_type, RecordType::Eof);
    assert_eq!(file.records[1].data[0], 0xFF);
    let mut parser = HexParser::new();
    let mut file = HexFile::new();
    assert!(read_text(&mut parser, &mut file, b":0000000300\r\n:0100000042BD\n:00000001FF\n"));
    assert!(parser.is_done());
    assert_eq!(file.record_count, 3);
}

#[test]
fn mixed_case_digits_and_cr_endings() {
    let mut parser = HexParser::new();
    let mut file = HexFile::new();
    assert!(read_text(&mut parser, &mut file, b":02aBcD00bEeF00\r:0000000300\r\r:00000001Ff\r"));
    assert!(parser.is_done());
    assert_eq!(file.record_count, 3);
    assert_eq!(file.records[0].address, 0xABCD);
    assert_eq!(file.records[0].data[0], 0xBE);
    assert_eq!(file.records[0].data[1], 0xEF);
    assert_eq!(file.records[1].record_type, RecordType::StartSegmentAddress);
}

#[test]
fn same_up_to_one_character_after_the_end_gives_the_same_file() {
    let head: &[u8] = b":0100000042BD\n:00000001FF\r";
    let mut a = HexParser::new();
    let mut fa = HexFile::new();
    let mut ta = head.to_vec();
    ta.extend_from_slice(b"\n:0100000099AA\n");
    assert!(read_text(&mut a, &mut fa, &ta));
    let mut b = HexParser::new();
    let mut fb = HexFile::new();
    let mut tb = head.to_vec();
    tb.extend_from_slice(b"zz");
    assert!(read_text(&mut b, &mut fb, &tb));
    assert_eq!(fa.record_count, fb.record_count);
    assert_eq!(fa.records[0].data, fb.records[0].data);
    assert_eq!(fa.records[2].data, fb.records[2].data);
}

use s3prog::program::{is_expected_smart_option, mismatches, RecordWalker, WalkStep, SMART_OPTION_ADDRESS, SMART_OPTION_VALUE};
use s3prog::record::{HexFile, HexRecord, RecordType};
use s3prog::upload::HexParser;

fn load(text: &[u8]) -> HexFile {
    let mut parser = HexParser::new();
    let mut file = HexFile::new();
    for b in text {
        if parser.is_done() {
            break;
        }
        assert!(parser.accepts(*b));
        parser.feed(&mut file, *b);
    }
    file
}

fn walk_all(file: &HexFile) -> Vec<WalkStep> {
    let mut w = RecordWalker::new();
    let mut steps = Vec::new();
    loop {
        assert!(w.can_step(file));
        let s = w.step(file);
        steps.push(s);
        if s == WalkStep::End {
            return steps;
        }
    }
}

#[test]
fn smart_option_constants() {
    assert_eq!(SMART_OPTION_ADDRESS, 0x0E39);
    assert_eq!(SMART_OPTION_VALUE, 0xA7);
    assert!(is_expected_smart_option(0xA7));
    assert!(!is_expected_smart_option(0xA6));
}

#[test]
fn walk_yields_data_blocks_in_order() {
    let file = load(b":10010000214601360121470136007EFE09D2190140\r\n:100110002146017E17C20001FF5F16002148011928\r\n:00000001FF\r\n");
    let steps = walk_all(&file);
    assert_eq!(
        steps,
        vec![
            WalkStep::Block { index: 0, addr: 0x0100, len: 16 },
            WalkStep::Block { index: 1, addr: 0x0110, len: 16 },
            WalkStep::End
        ]
    );
}

#[test]
fn other_records_are_skipped() {
    let file = load(b":0400000300003800C1\r\n:0100200042FD\r\n:00000001FF\r\n");
    let steps = walk_all(&file);
    assert_eq!(
        steps,
        vec![WalkStep::Skip, WalkStep::Block { index: 1, addr: 0x0020, len: 1 }, WalkStep::End]
    );
}

#[test]
fn segment_base_comes_from_the_third_and_fourth_data_bytes() {
    // An extended segment address record carries two data bytes; the base is taken from data
    // bytes 2 and 3 of the slot, which hold what an earlier upload left there.
    let mut file = load(b":020000021000EC\r\n:0100100042AD\r\n:00000001FF\r\n");
    let steps = walk_all(&file);
    assert_eq!(steps[0], WalkStep::Skip);
    assert_eq!(steps[1], WalkStep::Block { index: 1, addr: 0x0010, len: 1 });
    file.records[0].data[2] = 0x12;
    file.records[0].data[3] = 0x34;
    let steps = walk_all(&file);
    assert_eq!(steps[1], WalkStep::Block { index: 1, addr: 0x2340 + 0x10, len: 1 });
    // The base is shifted within 16 bits.
    file.records[0].data[2] = 0xF1;
    file.records[0].data[3] = 0x00;
    let steps = walk_all(&file);
    assert_eq!(steps[1], WalkStep::Block { index: 1, addr: 0x1000 + 0x10, len: 1 });
}

#[test]
fn address_overflow_stops_the_walk() {
    let mut file = load(b":020000021000EC\r\n:01FFF00042AD\r\n:00000001FF\r\n");
    file.records[0].data[3] = 0x01;
    let mut w = RecordWalker::new();
    assert!(w.can_step(&file));
    assert_eq!(w.step(&file), WalkStep::Skip);
    assert_eq!(w.address, 0x0010);
    assert!(!w.can_step(&file));
}

#[test]
fn walk_without_end_record_runs_out() {
    let mut file = HexFile::new();
    for r in file.records.iter_mut() {
        r.record_type = RecordType::StartLinearAddress;
    }
    let mut w = RecordWalker::new();
    for _ in 0..100 {
        assert!(w.can_step(&file));
        assert_eq!(w.step(&file), WalkStep::Skip);
    }
    assert!(!w.can_step(&file));
}

#[test]
fn end_record_keeps_the_position() {
    let file = HexFile::new();
    let mut w = RecordWalker::new();
    assert_eq!(w.step(&file), WalkStep::End);
    assert_eq!(w.record_index, 0);
}

#[test]
fn mismatch_positions() {
    let mut expected = HexRecord::new();
    expected.data[0] = 1;
    expected.data[1] = 2;
    expected.data[2] = 3;
    let mut readed = [0u8; 255];
    readed[0] = 1;
    readed[1] = 9;
    readed[2] = 3;
    readed[5] = 4;
    assert_eq!(mismatches(&expected, &readed, 3), Vec::<usize>::new().into_iter().chain([1]).collect::<Vec<_>>());
    assert_eq!(mismatches(&expected, &readed, 6), vec![1, 5]);
    assert_eq!(mismatches(&expected, &readed, 0), Vec::<usize>::new());
}

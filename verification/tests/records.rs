use s3prog::record::{HexFile, HexRecord, RecordType, MEM_SIZE, RECORDS};

#[test]
fn blank_record() {
    let r = HexRecord::new();
    assert_eq!(r.record_type, RecordType::Eof);
    assert_eq!(r.byte_count, 0);
    assert_eq!(r.address, 0);
    assert_eq!(r.data.len(), MEM_SIZE);
    assert!(r.data.iter().all(|b| *b == 0));
}

#[test]
fn empty_file() {
    let f = HexFile::new();
    assert_eq!(f.record_count, 0);
    assert_eq!(f.records.len(), RECORDS);
    for r in f.records.iter() {
        assert_eq!(r.record_type, RecordType::Eof);
        assert_eq!(r.byte_count, 0);
        assert_eq!(r.address, 0);
        assert!(r.data.iter().all(|b| *b == 0));
    }
}

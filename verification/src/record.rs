//! The records of an Intel HEX file, as the uploaded file is kept in memory.
use vstd::prelude::*;

verus! {

/// Number of data bytes a record can hold.
pub const MEM_SIZE: usize = 255;

/// Number of records a file can hold.
pub const RECORDS: usize = 100;

/// The six record types of the Intel HEX format, in the order of their type codes 0 to 5.
#[derive(Clone, Copy, PartialEq, Eq, Structural, Debug)]
pub enum RecordType {
    Data,
    Eof,
    ExtendedSegmentAddress,
    StartSegmentAddress,
    ExtendedLinearAddress,
    StartLinearAddress,
}

/// The record type with the given type code, for codes 0 to 5.
pub open spec fn record_type_of(code: nat) -> RecordType {
    if code == 0 {
        RecordType::Data
    } else if code == 1 {
        RecordType::Eof
    } else if code == 2 {
        RecordType::ExtendedSegmentAddress
    } else if code == 3 {
        RecordType::StartSegmentAddress
    } else if code == 4 {
        RecordType::ExtendedLinearAddress
    } else {
        RecordType::StartLinearAddress
    }
}

/// One record: its type, how many data bytes it has, its 16-bit load offset and its data.
#[derive(Clone, Copy)]
pub struct HexRecord {
    pub record_type: RecordType,
    pub byte_count: u8,
    pub address: u16,
    pub data: [u8; 255],
}

/// A record as a mathematical value.
#[verifier::ext_equal]
pub struct RecordView {
    pub record_type: RecordType,
    pub byte_count: u8,
    pub address: u16,
    pub data: Seq<u8>,
}

impl View for HexRecord {
    type V = RecordView;

    open spec fn view(&self) -> RecordView {
        RecordView {
            record_type: self.record_type,
            byte_count: self.byte_count,
            address: self.address,
            data: self.data@,
        }
    }
}

/// The record that a fresh file holds in every slot: an end-of-file record with no data.
pub open spec fn blank_record() -> RecordView {
    RecordView {
        record_type: RecordType::Eof,
        byte_count: 0,
        address: 0,
        data: Seq::new(255, |i: int| 0u8),
    }
}

impl HexRecord {
    /// A blank record: end-of-file type, no data, offset 0, all data bytes 0.
    pub fn new() -> (r: HexRecord)
        ensures
            r@ == blank_record(),
    {
        let r = HexRecord {
            record_type: (RecordType::Eof),
            byte_count: (0u8),
            address: (0u16),
            data: ([0u8; 255]),
        };
        assert(r.data@ =~= Seq::new(255, |i: int| 0u8));
        r
    }
}

/// The records of an uploaded file, and how many of them the last complete upload had.
pub struct HexFile {
    pub records: [HexRecord; 100],
    pub record_count: usize,
}

/// A file as a mathematical value.
#[verifier::ext_equal]
pub struct FileView {
    pub records: Seq<RecordView>,
    pub record_count: nat,
}

impl View for HexFile {
    type V = FileView;

    open spec fn view(&self) -> FileView {
        FileView {
            records: self.records@.map_values(|r: HexRecord| r@),
            record_count: self.record_count as nat,
        }
    }
}

impl FileView {
    /// The shape that every file has: 100 records of 255 data bytes each.
    pub open spec fn wf(self) -> bool {
        &&& self.records.len() == RECORDS
        &&& forall|i: int| 0 <= i < RECORDS ==> (#[trigger] self.records[i]).data.len() == MEM_SIZE
    }
}

impl HexFile {
    /// An empty file: 100 blank records and a record count of 0.
    pub fn new() -> (f: HexFile)
        ensures
            f@.records == Seq::new(100, |i: int| blank_record()),
            f@.record_count == 0,
    {
        let f = HexFile { records: ([HexRecord::new(); 100]), record_count: 0usize };
        assert(f@.records =~= Seq::new(100, |i: int| blank_record()));
        f
    }

    /// Every file has the shape `FileView::wf` describes.
    pub proof fn lemma_wf(&self)
        ensures
            self@.wf(),
    {
        assert forall|i: int| 0 <= i < RECORDS implies (#[trigger] self@.records[i]).data.len()
            == MEM_SIZE by {
            assert(self@.records[i] == self.records@[i]@);
        }
    }
}

} // verus!

//! Reading an uploaded Intel HEX file, one byte at a time, into a `HexFile`.
use vstd::prelude::*;
use crate::hex::{
    is_hex_digit, two_digit_value, four_digit_value, str2u8, str2u16,
};
use crate::record::{
    RecordType, record_type_of, HexFile, FileView, RecordView, RECORDS, MEM_SIZE,
};

verus! {

/// Largest upload, in bytes, that is read at all.
pub const MAX_UPLOAD: usize = 2000000;

/// Decides whether an upload of `content_length` bytes is read: `None` when it is larger than
/// `MAX_UPLOAD` (the request is answered "payload too large"), otherwise the time the whole
/// body may take to arrive, in microseconds (10 per byte).
pub fn admit_upload(content_length: usize) -> (r: Option<u64>)
    ensures
        r == (if content_length > MAX_UPLOAD {
            None::<u64>
        } else {
            Some((content_length * 10) as u64)
        }),
{
    if content_length > MAX_UPLOAD {
        None
    } else {
        Some(content_length as u64 * 10)
    }
}

/// The field of a record that the next characters belong to.
#[derive(Clone, Copy, PartialEq, Eq, Structural, Debug)]
pub enum HexStage {
    StartCode,
    ByteCount,
    Address,
    RecordType,
    Data,
    Checksum,
}

/// The record type for a type code; `None` for a code above 5.
pub fn record_type_from_code(code: u8) -> (r: Option<RecordType>)
    ensures
        r == (if code <= 5 {
            Some(record_type_of(code as nat))
        } else {
            None::<RecordType>
        }),
{
    match code {
        0u8 => Some(RecordType::Data),
        1u8 => Some(RecordType::Eof),
        2u8 => Some(RecordType::ExtendedSegmentAddress),
        3u8 => Some(RecordType::StartSegmentAddress),
        4u8 => Some(RecordType::ExtendedLinearAddress),
        5u8 => Some(RecordType::StartLinearAddress),
        _ => None,
    }
}

/// Where the reading of an upload stands: the field being read, the characters of that field
/// read so far, the record being filled, the next data byte's position, and whether the
/// end-of-file record has been read.
#[derive(Clone, Copy)]
pub struct HexParser {
    pub stage: HexStage,
    pub field_buffer: [u8; 4],
    pub field_buffer_seek: usize,
    pub record_index: usize,
    pub data_seek: usize,
    pub read_done_flag: bool,
}

/// A parser as a mathematical value.
#[verifier::ext_equal]
pub struct ParserView {
    pub stage: HexStage,
    pub buffer: Seq<u8>,
    pub seek: nat,
    pub record_index: nat,
    pub data_seek: nat,
    pub done: bool,
}

impl View for HexParser {
    type V = ParserView;

    open spec fn view(&self) -> ParserView {
        ParserView {
            stage: self.stage,
            buffer: self.field_buffer@,
            seek: self.field_buffer_seek as nat,
            record_index: self.record_index as nat,
            data_seek: self.data_seek as nat,
            done: self.read_done_flag,
        }
    }
}

/// The parser together with the file it fills.
#[verifier::ext_equal]
pub struct UploadState {
    pub parser: ParserView,
    pub file: FileView,
}

/// Whether reading byte `c` in state `p` is defined: the field buffer has room, a completed
/// field holds hexadecimal digits, a record type code is at most 5, and the record and data
/// positions lie inside the file.
pub open spec fn accepts(p: ParserView, c: u8) -> bool {
    p.done || (p.seek < 4 && {
        let buf = p.buffer.update(p.seek as int, c);
        let seek = p.seek + 1;
        match p.stage {
            HexStage::StartCode => true,
            HexStage::ByteCount => seek == 2 ==> {
                &&& is_hex_digit(buf[0])
                &&& is_hex_digit(buf[1])
                &&& p.record_index < RECORDS
            },
            HexStage::Address => seek == 4 ==> {
                &&& is_hex_digit(buf[0])
                &&& is_hex_digit(buf[1])
                &&& is_hex_digit(buf[2])
                &&& is_hex_digit(buf[3])
                &&& p.record_index < RECORDS
            },
            HexStage::RecordType => seek == 2 ==> {
                &&& is_hex_digit(buf[0])
                &&& is_hex_digit(buf[1])
                &&& two_digit_value(buf[0], buf[1]) <= 5
                &&& p.record_index < RECORDS
            },
            HexStage::Data => seek == 2 ==> {
                &&& is_hex_digit(buf[0])
                &&& is_hex_digit(buf[1])
                &&& p.record_index < RECORDS
                &&& p.data_seek < MEM_SIZE
            },
            HexStage::Checksum => p.record_index < RECORDS,
        }
    })
}

/// What reading byte `c` does to the parser and the file.
///
/// Once the end-of-file record is read, further bytes change nothing. Otherwise the byte is
/// stored in the field buffer. In the start-code stage the buffer is emptied and reading moves
/// on to the byte count when the buffer's first byte is `:`. The byte count (2 digits),
/// load offset (4 digits) and type code (2 digits) are stored in the current record when
/// their last digit arrives. Each pair of data digits stores one data byte; after the
/// `byte_count`-th (or after the first, for a record that announces no data) the next byte
/// is taken as the checksum's: the record is complete, the next record becomes current, and
/// an end-of-file record ends the upload and sets the file's record count.
pub open spec fn step(s: UploadState, c: u8) -> UploadState {
    let p = s.parser;
    if p.done {
        s
    } else {
        let buf = p.buffer.update(p.seek as int, c);
        let seek = p.seek + 1;
        let ri = p.record_index as int;
        let rec = s.file.records[ri];
        match p.stage {
            HexStage::StartCode => UploadState {
                parser: ParserView {
                    stage: if buf[0] == 0x3Au8 {
                        HexStage::ByteCount
                    } else {
                        HexStage::StartCode
                    },
                    buffer: buf,
                    seek: 0,
                    ..p
                },
                file: s.file,
            },
            HexStage::ByteCount => if seek == 2 {
                UploadState {
                    parser: ParserView { stage: HexStage::Address, buffer: buf, seek: 0, ..p },
                    file: FileView {
                        records: s.file.records.update(
                            ri,
                            RecordView {
                                byte_count: two_digit_value(buf[0], buf[1]) as u8,
                                ..rec
                            },
                        ),
                        ..s.file
                    },
                }
            } else {
                UploadState { parser: ParserView { buffer: buf, seek, ..p }, file: s.file }
            },
            HexStage::Address => if seek == 4 {
                UploadState {
                    parser: ParserView { stage: HexStage::RecordType, buffer: buf, seek: 0, ..p },
                    file: FileView {
                        records: s.file.records.update(
                            ri,
                            RecordView {
                                address: four_digit_value(buf[0], buf[1], buf[2], buf[3]) as u16,
                                ..rec
                            },
                        ),
                        ..s.file
                    },
                }
            } else {
                UploadState { parser: ParserView { buffer: buf, seek, ..p }, file: s.file }
            },
            HexStage::RecordType => if seek == 2 {
                UploadState {
                    parser: ParserView {
                        stage: HexStage::Data,
                        buffer: buf,
                        seek: 0,
                        data_seek: 0,
                        ..p
                    },
                    file: FileView {
                        records: s.file.records.update(
                            ri,
                            RecordView {
                                record_type: record_type_of(two_digit_value(buf[0], buf[1])),
                                ..rec
                            },
                        ),
                        ..s.file
                    },
                }
            } else {
                UploadState { parser: ParserView { buffer: buf, seek, ..p }, file: s.file }
            },
            HexStage::Data => if seek == 2 {
                let ds = p.data_seek;
                UploadState {
                    parser: ParserView {
                        stage: if ds + 1 >= rec.byte_count {
                            HexStage::Checksum
                        } else {
                            HexStage::Data
                        },
                        buffer: buf,
                        seek: 0,
                        data_seek: ds + 1,
                        ..p
                    },
                    file: FileView {
                        records: s.file.records.update(
                            ri,
                            RecordView {
                                data: rec.data.update(
                                    ds as int,
                                    two_digit_value(buf[0], buf[1]) as u8,
                                ),
                                ..rec
                            },
                        ),
                        ..s.file
                    },
                }
            } else {
                UploadState { parser: ParserView { buffer: buf, seek, ..p }, file: s.file }
            },
            HexStage::Checksum => {
                let eof = rec.record_type == RecordType::Eof;
                UploadState {
                    parser: ParserView {
                        stage: HexStage::StartCode,
                        buffer: buf,
                        seek,
                        record_index: p.record_index + 1,
                        done: eof,
                        ..p
                    },
                    file: FileView {
                        record_count: if eof {
                            p.record_index + 1
                        } else {
                            s.file.record_count
                        },
                        ..s.file
                    },
                }
            },
        }
    }
}

impl HexParser {
    /// The state at the start of an upload: looking for a start code, first record, nothing read.
    pub fn new() -> (p: HexParser)
        ensures
            p@.stage == HexStage::StartCode,
            p@.buffer == seq![0u8, 0u8, 0u8, 0u8],
            p@.seek == 0,
            p@.record_index == 0,
            p@.data_seek == 0,
            !p@.done,
    {
        let p = HexParser {
            stage: HexStage::StartCode,
            field_buffer: [0u8; 4],
            field_buffer_seek: 0,
            record_index: 0,
            data_seek: 0,
            read_done_flag: false,
        };
        assert(p.field_buffer@ =~= seq![0u8, 0u8, 0u8, 0u8]);
        p
    }

    /// Whether the end-of-file record has been read.
    pub fn is_done(&self) -> (r: bool)
        ensures
            r == self@.done,
    {
        self.read_done_flag
    }

    /// Whether `feed` is defined on byte `c` in this state (see `accepts`).
    pub fn accepts(&self, c: u8) -> (r: bool)
        ensures
            r == accepts(self@, c),
    {
        if self.read_done_flag {
            return true;
        }
        if self.field_buffer_seek >= 4 {
            return false;
        }
        let mut buf = self.field_buffer;
        buf[self.field_buffer_seek] = c;
        let seek = self.field_buffer_seek + 1;
        let in_file = self.record_index < RECORDS;
        match self.stage {
            HexStage::StartCode => true,
            HexStage::ByteCount => seek != 2 || (is_hex(buf[0]) && is_hex(buf[1]) && in_file),
            HexStage::Address => seek != 4 || (is_hex(buf[0]) && is_hex(buf[1]) && is_hex(buf[2])
                && is_hex(buf[3]) && in_file),
            HexStage::RecordType => seek != 2 || (is_hex(buf[0]) && is_hex(buf[1]) && in_file
                && str2u8([buf[0], buf[1]]).unwrap() <= 5),
            HexStage::Data => seek != 2 || (is_hex(buf[0]) && is_hex(buf[1]) && in_file
                && self.data_seek < MEM_SIZE),
            HexStage::Checksum => in_file,
        }
    }

    /// Reads one byte of the upload into the parser and the file, as `step` describes.
    pub fn feed(&mut self, file: &mut HexFile, c: u8)
        requires
            accepts(old(self)@, c),
        ensures
            (UploadState { parser: final(self)@, file: final(file)@ }) == step(
                UploadState { parser: old(self)@, file: old(file)@ },
                c,
            ),
    {
        if self.read_done_flag {
            return;
        }
        self.field_buffer[self.field_buffer_seek] = c;
        self.field_buffer_seek = self.field_buffer_seek + 1;
        let ri = self.record_index;
        match self.stage {
            HexStage::StartCode => {
                self.field_buffer_seek = 0;
                if self.field_buffer[0] == ':' as u8 {
                    self.stage = HexStage::ByteCount;
                }
            },
            HexStage::ByteCount => {
                if self.field_buffer_seek == 2 {
                    let v = str2u8([self.field_buffer[0], self.field_buffer[1]]).unwrap();
                    let mut rec = file.records[ri];
                    rec.byte_count = v;
                    file.records[ri] = rec;
                    self.stage = HexStage::Address;
                    self.field_buffer_seek = 0;
                }
            },
            HexStage::Address => {
                if self.field_buffer_seek == 4 {
                    self.stage = HexStage::RecordType;
                    let v = str2u16(self.field_buffer).unwrap();
                    let mut rec = file.records[ri];
                    rec.address = v;
                    file.records[ri] = rec;
                    self.field_buffer_seek = 0;
                }
            },
            HexStage::RecordType => {
                if self.field_buffer_seek == 2 {
                    self.stage = HexStage::Data;
                    let code = str2u8([self.field_buffer[0], self.field_buffer[1]]).unwrap();
                    let record_type = record_type_from_code(code).unwrap();
                    let mut rec = file.records[ri];
                    rec.record_type = record_type;
                    file.records[ri] = rec;
                    self.data_seek = 0;
                    self.field_buffer_seek = 0;
                }
            },
            HexStage::Data => {
                if self.field_buffer_seek == 2 {
                    self.field_buffer_seek = 0;
                    let data = str2u8([self.field_buffer[0], self.field_buffer[1]]).unwrap();
                    let mut rec = file.records[ri];
                    rec.data[self.data_seek] = data;
                    file.records[ri] = rec;
                    self.data_seek = self.data_seek + 1;
                    if self.data_seek >= rec.byte_count as usize {
                        self.stage = HexStage::Checksum;
                    }
                }
            },
            HexStage::Checksum => {
                self.stage = HexStage::StartCode;
                if file.records[ri].record_type == RecordType::Eof {
                    self.read_done_flag = true;
                    file.record_count = ri + 1;
                }
                self.record_index = ri + 1;
            },
        }
    }
}

fn is_hex(c: u8) -> (r: bool)
    ensures
        r == is_hex_digit(c),
{
    crate::hex::u8char2num(c).is_some()
}

} // verus!

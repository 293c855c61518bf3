//! Intel HEX text, and what reading it with `HexParser` yields.
use vstd::prelude::*;
use crate::hex::{two_digit_value, four_digit_value, is_hex_digit};
use crate::record::{RecordType, record_type_of, FileView, RecordView, RECORDS, MEM_SIZE};
use crate::upload::{HexStage, ParserView, UploadState, accepts, step};

verus! {

/// Reading a text byte by byte from state `s`.
pub open spec fn run(s: UploadState, text: Seq<u8>) -> UploadState
    decreases text.len(),
{
    if text.len() == 0 {
        s
    } else {
        run(step(s, text[0]), text.drop_first())
    }
}

/// Whether every byte of the text is accepted when read in turn from state `s`.
pub open spec fn run_ok(s: UploadState, text: Seq<u8>) -> bool
    decreases text.len(),
{
    text.len() == 0 || (accepts(s.parser, text[0]) && run_ok(step(s, text[0]), text.drop_first()))
}

/// Reading a text in two parts is reading it whole.
pub proof fn lemma_run_concat(s: UploadState, a: Seq<u8>, b: Seq<u8>)
    ensures
        run(s, a + b) == run(run(s, a), b),
        run_ok(s, a + b) == (run_ok(s, a) && run_ok(run(s, a), b)),
    decreases a.len(),
{
    if a.len() == 0 {
        assert(a + b =~= b);
    } else {
        assert((a + b).drop_first() =~= a.drop_first() + b);
        assert((a + b)[0] == a[0]);
        lemma_run_concat(step(s, a[0]), a.drop_first(), b);
    }
}

proof fn lemma_run_one(s: UploadState, c: u8)
    ensures
        run(s, seq![c]) == step(s, c),
        run_ok(s, seq![c]) == accepts(s.parser, c),
{
    assert(seq![c].drop_first() =~= Seq::<u8>::empty());
    assert(seq![c][0] == c);
    assert(run(step(s, c), Seq::<u8>::empty()) == step(s, c));
    assert(run_ok(step(s, c), Seq::<u8>::empty()));
}

/// Reading one byte more.
proof fn lemma_run_push(s: UploadState, a: Seq<u8>, c: u8)
    ensures
        run(s, a.push(c)) == step(run(s, a), c),
        run_ok(s, a.push(c)) == (run_ok(s, a) && accepts(run(s, a).parser, c)),
{
    assert(a.push(c) =~= a + seq![c]);
    lemma_run_concat(s, a, seq![c]);
    lemma_run_one(run(s, a), c);
}

/// Once the end-of-file record is read, the rest of the text changes nothing.
pub proof fn lemma_done_absorbs(s: UploadState, text: Seq<u8>)
    requires
        s.parser.done,
    ensures
        run(s, text) == s,
        run_ok(s, text),
    decreases text.len(),
{
    if text.len() > 0 {
        lemma_done_absorbs(step(s, text[0]), text.drop_first());
    }
}


/// The parser waits at the start of field `stage` of record `ri`, with nothing of the field
/// read yet.
pub open spec fn parser_at(p: ParserView, stage: HexStage, ri: nat) -> bool {
    &&& p.stage == stage
    &&& p.seek == 0
    &&& !p.done
    &&& p.buffer.len() == 4
    &&& p.record_index == ri
}

/// Reading two bytes.
proof fn lemma_run_two(s: UploadState, c1: u8, c2: u8)
    ensures
        run(s, seq![c1, c2]) == step(step(s, c1), c2),
        run_ok(s, seq![c1, c2]) == (accepts(s.parser, c1) && accepts(step(s, c1).parser, c2)),
{
    assert(seq![c1, c2] =~= seq![c1].push(c2));
    lemma_run_push(s, seq![c1], c2);
    lemma_run_one(s, c1);
}

proof fn lemma_start_code(s: UploadState)
    requires
        parser_at(s.parser, HexStage::StartCode, s.parser.record_index),
    ensures
        run_ok(s, seq![0x3Au8]),
        parser_at(run(s, seq![0x3Au8]).parser, HexStage::ByteCount, s.parser.record_index),
        run(s, seq![0x3Au8]).parser.data_seek == s.parser.data_seek,
        run(s, seq![0x3Au8]).file == s.file,
{
    lemma_run_one(s, 0x3Au8);
}

/// `d` is `n` hexadecimal digits (of either case).
pub open spec fn digits_ok(d: Seq<u8>, n: nat) -> bool {
    &&& d.len() == n
    &&& forall|i: int| 0 <= i < n ==> is_hex_digit(#[trigger] d[i])
}

/// The byte written by digits `2 * j` and `2 * j + 1` of `d`.
pub open spec fn pair_value(d: Seq<u8>, j: int) -> u8 {
    two_digit_value(d[2 * j], d[2 * j + 1]) as u8
}

/// The bytes written by the digit pairs of `d`.
pub open spec fn data_values(d: Seq<u8>) -> Seq<u8> {
    Seq::new(d.len() / 2, |j: int| pair_value(d, j))
}

proof fn lemma_byte_count(s: UploadState, d: Seq<u8>)
    requires
        parser_at(s.parser, HexStage::ByteCount, s.parser.record_index),
        s.parser.record_index < RECORDS,
        s.file.records.len() == RECORDS,
        digits_ok(d, 2),
    ensures
        ({
            let ri = s.parser.record_index as int;
            let t = run(s, d);
            &&& run_ok(s, d)
            &&& parser_at(t.parser, HexStage::Address, s.parser.record_index)
            &&& t.parser.data_seek == s.parser.data_seek
            &&& t.file == (FileView {
                records: s.file.records.update(
                    ri,
                    RecordView { byte_count: two_digit_value(d[0], d[1]) as u8, ..s.file.records[ri] },
                ),
                ..s.file
            })
        }),
{
    assert(is_hex_digit(d[0]) && is_hex_digit(d[1]));
    assert(d =~= seq![d[0], d[1]]);
    lemma_run_two(s, d[0], d[1]);
    let s1 = step(s, d[0]);
    assert(s1.parser.buffer[0] == d[0]);
    let s2 = step(s1, d[1]);
    assert(s2.parser.buffer[0] == d[0] && s2.parser.buffer[1] == d[1]);
}

proof fn lemma_run_four(s: UploadState, c1: u8, c2: u8, c3: u8, c4: u8)
    ensures
        run(s, seq![c1, c2, c3, c4]) == step(step(step(step(s, c1), c2), c3), c4),
        run_ok(s, seq![c1, c2, c3, c4]) == (accepts(s.parser, c1) && accepts(step(s, c1).parser, c2)
            && accepts(step(step(s, c1), c2).parser, c3) && accepts(
            step(step(step(s, c1), c2), c3).parser,
            c4,
        )),
{
    assert(seq![c1, c2, c3, c4] =~= seq![c1, c2] + seq![c3, c4]);
    lemma_run_concat(s, seq![c1, c2], seq![c3, c4]);
    lemma_run_two(s, c1, c2);
    lemma_run_two(step(step(s, c1), c2), c3, c4);
}

proof fn lemma_address(s: UploadState, d: Seq<u8>)
    requires
        parser_at(s.parser, HexStage::Address, s.parser.record_index),
        s.parser.record_index < RECORDS,
        s.file.records.len() == RECORDS,
        digits_ok(d, 4),
    ensures
        ({
            let ri = s.parser.record_index as int;
            let t = run(s, d);
            &&& run_ok(s, d)
            &&& parser_at(t.parser, HexStage::RecordType, s.parser.record_index)
            &&& t.parser.data_seek == s.parser.data_seek
            &&& t.file == (FileView {
                records: s.file.records.update(
                    ri,
                    RecordView {
                        address: four_digit_value(d[0], d[1], d[2], d[3]) as u16,
                        ..s.file.records[ri]
                    },
                ),
                ..s.file
            })
        }),
{
    assert(is_hex_digit(d[0]) && is_hex_digit(d[1]) && is_hex_digit(d[2]) && is_hex_digit(d[3]));
    assert(d =~= seq![d[0], d[1], d[2], d[3]]);
    lemma_run_four(s, d[0], d[1], d[2], d[3]);
    let s1 = step(s, d[0]);
    let s2 = step(s1, d[1]);
    let s3 = step(s2, d[2]);
    let s4 = step(s3, d[3]);
    assert(s4.parser.buffer[0] == d[0] && s4.parser.buffer[1] == d[1] && s4.parser.buffer[2]
        == d[2] && s4.parser.buffer[3] == d[3]);
}

proof fn lemma_record_type(s: UploadState, d: Seq<u8>)
    requires
        parser_at(s.parser, HexStage::RecordType, s.parser.record_index),
        s.parser.record_index < RECORDS,
        s.file.records.len() == RECORDS,
        digits_ok(d, 2),
        two_digit_value(d[0], d[1]) <= 5,
    ensures
        ({
            let ri = s.parser.record_index as int;
            let t = run(s, d);
            &&& run_ok(s, d)
            &&& parser_at(t.parser, HexStage::Data, s.parser.record_index)
            &&& t.parser.data_seek == 0
            &&& t.file == (FileView {
                records: s.file.records.update(
                    ri,
                    RecordView {
                        record_type: record_type_of(two_digit_value(d[0], d[1])),
                        ..s.file.records[ri]
                    },
                ),
                ..s.file
            })
        }),
{
    assert(is_hex_digit(d[0]) && is_hex_digit(d[1]));
    assert(d =~= seq![d[0], d[1]]);
    lemma_run_two(s, d[0], d[1]);
    let s1 = step(s, d[0]);
    let s2 = step(s1, d[1]);
    assert(s2.parser.buffer[0] == d[0] && s2.parser.buffer[1] == d[1]);
}

/// Reading the two digits of one data byte.
proof fn lemma_data_byte(s: UploadState, d: Seq<u8>)
    requires
        parser_at(s.parser, HexStage::Data, s.parser.record_index),
        s.parser.record_index < RECORDS,
        s.parser.data_seek < MEM_SIZE,
        s.file.records.len() == RECORDS,
        digits_ok(d, 2),
    ensures
        ({
            let ri = s.parser.record_index as int;
            let k = s.parser.data_seek;
            let rec = s.file.records[ri];
            let t = run(s, d);
            &&& run_ok(s, d)
            &&& parser_at(
                t.parser,
                if k + 1 >= rec.byte_count {
                    HexStage::Checksum
                } else {
                    HexStage::Data
                },
                s.parser.record_index,
            )
            &&& t.parser.data_seek == k + 1
            &&& t.file == (FileView {
                records: s.file.records.update(
                    ri,
                    RecordView {
                        data: rec.data.update(k as int, two_digit_value(d[0], d[1]) as u8),
                        ..rec
                    },
                ),
                ..s.file
            })
        }),
{
    assert(is_hex_digit(d[0]) && is_hex_digit(d[1]));
    assert(d =~= seq![d[0], d[1]]);
    lemma_run_two(s, d[0], d[1]);
    let s1 = step(s, d[0]);
    let s2 = step(s1, d[1]);
    assert(s2.parser.buffer[0] == d[0] && s2.parser.buffer[1] == d[1]);
}

/// Reading the digits of the first `j` data bytes of a record that announced
/// `dd.len() / 2` bytes.
proof fn lemma_data(s: UploadState, dd: Seq<u8>, n: nat, j: nat)
    requires
        parser_at(s.parser, HexStage::Data, s.parser.record_index),
        s.parser.data_seek == 0,
        s.parser.record_index < RECORDS,
        s.file.records.len() == RECORDS,
        s.file.records[s.parser.record_index as int].data.len() == MEM_SIZE,
        s.file.records[s.parser.record_index as int].byte_count == n,
        1 <= n <= MEM_SIZE,
        digits_ok(dd, 2 * n),
        j <= n,
    ensures
        ({
            let ri = s.parser.record_index as int;
            let rec = s.file.records[ri];
            let t = run(s, dd.take(2 * (j as int)));
            &&& run_ok(s, dd.take(2 * (j as int)))
            &&& parser_at(
                t.parser,
                if j >= n {
                    HexStage::Checksum
                } else {
                    HexStage::Data
                },
                s.parser.record_index,
            )
            &&& t.parser.data_seek == j
            &&& t.file == (FileView {
                records: s.file.records.update(
                    ri,
                    RecordView {
                        data: data_values(dd).take(j as int) + rec.data.skip(j as int),
                        ..rec
                    },
                ),
                ..s.file
            })
        }),
    decreases j,
{
    let ri = s.parser.record_index as int;
    let rec = s.file.records[ri];
    if j == 0 {
        assert(dd.take(0) =~= Seq::<u8>::empty());
        assert(data_values(dd).take(0) + rec.data.skip(0) =~= rec.data);
        assert(s.file.records.update(ri, RecordView { data: rec.data, ..rec }) =~= s.file.records);
    } else {
        let jm = (j - 1) as nat;
        lemma_data(s, dd, n, jm);
        let pair = seq![dd[2 * (jm as int)], dd[2 * (jm as int) + 1]];
        assert(dd.take(2 * (j as int)) =~= dd.take(2 * (jm as int)) + pair);
        lemma_run_concat(s, dd.take(2 * (jm as int)), pair);
        let m = run(s, dd.take(2 * (jm as int)));
        assert(is_hex_digit(dd[2 * (jm as int)]) && is_hex_digit(dd[2 * (jm as int) + 1]));
        lemma_data_byte(m, pair);
        assert(data_values(dd)[jm as int] == pair_value(dd, jm as int));
        assert((data_values(dd).take(jm as int) + rec.data.skip(jm as int)).update(
            jm as int,
            pair_value(dd, jm as int),
        ) =~= data_values(dd).take(j as int) + rec.data.skip(j as int));
        assert(m.file.records.update(
            ri,
            RecordView {
                data: (data_values(dd).take(jm as int) + rec.data.skip(jm as int)).update(
                    jm as int,
                    pair_value(dd, jm as int),
                ),
                ..m.file.records[ri]
            },
        ) =~= s.file.records.update(
            ri,
            RecordView { data: data_values(dd).take(j as int) + rec.data.skip(j as int), ..rec },
        ));
    }
}

/// Between records, text without a `:` is passed over.
proof fn lemma_skip(s: UploadState, junk: Seq<u8>)
    requires
        parser_at(s.parser, HexStage::StartCode, s.parser.record_index),
        !junk.contains(0x3Au8),
    ensures
        run_ok(s, junk),
        parser_at(run(s, junk).parser, HexStage::StartCode, s.parser.record_index),
        run(s, junk).file == s.file,
    decreases junk.len(),
{
    if junk.len() > 0 {
        assert(junk[0] != 0x3Au8);
        let s1 = step(s, junk[0]);
        assert(s1.parser.buffer[0] == junk[0]);
        assert forall|i: int| 0 <= i < junk.drop_first().len() implies junk.drop_first()[i] != 0x3Au8 by {
            assert(junk.drop_first()[i] == junk[i + 1]);
        }
        lemma_skip(s1, junk.drop_first());
    }
}

/// The checksum digits and what follows a record with data: the record is complete. Anything
/// may follow an end-of-file record; text without a `:` any other.
proof fn lemma_tail_after_data(s: UploadState, c: Seq<u8>, end: Seq<u8>)
    requires
        parser_at(s.parser, HexStage::Checksum, s.parser.record_index),
        s.parser.record_index < RECORDS,
        s.file.records.len() == RECORDS,
        digits_ok(c, 2),
        s.file.records[s.parser.record_index as int].record_type == RecordType::Eof
            || !end.contains(0x3Au8),
    ensures
        ({
            let ri = s.parser.record_index;
            let eof = s.file.records[ri as int].record_type == RecordType::Eof;
            let text = c + end;
            let t = run(s, text);
            &&& run_ok(s, text)
            &&& t.file.records == s.file.records
            &&& eof ==> t.parser.done && t.file.record_count == ri + 1
            &&& !eof ==> parser_at(t.parser, HexStage::StartCode, ri + 1) && t.file.record_count
                == s.file.record_count
        }),
{
    assert(is_hex_digit(c[0]) && is_hex_digit(c[1]));
    assert(c =~= seq![c[0], c[1]]);
    lemma_run_two(s, c[0], c[1]);
    lemma_run_concat(s, c, end);
    let s1 = step(s, c[0]);
    assert(s1.parser.buffer[0] == c[0]);
    let s2 = run(s, c);
    if s2.parser.done {
        lemma_done_absorbs(s2, end);
    } else {
        lemma_skip(s2, end);
    }
}

/// The checksum digits and what follows a record without data: the checksum's byte is
/// stored as the record's first data byte, and the record is complete. Anything nonempty may
/// follow an end-of-file record; at least two characters without a `:` any other.
proof fn lemma_tail_no_data(s: UploadState, c: Seq<u8>, end: Seq<u8>)
    requires
        parser_at(s.parser, HexStage::Data, s.parser.record_index),
        s.parser.data_seek == 0,
        s.parser.record_index < RECORDS,
        s.file.records.len() == RECORDS,
        s.file.records[s.parser.record_index as int].data.len() == MEM_SIZE,
        s.file.records[s.parser.record_index as int].byte_count == 0,
        digits_ok(c, 2),
        end.len() >= 1,
        s.file.records[s.parser.record_index as int].record_type == RecordType::Eof || (
        !end.contains(0x3Au8) && end.len() >= 2),
    ensures
        ({
            let ri = s.parser.record_index;
            let rec = s.file.records[ri as int];
            let eof = rec.record_type == RecordType::Eof;
            let text = c + end;
            let t = run(s, text);
            &&& run_ok(s, text)
            &&& t.file.records == s.file.records.update(
                ri as int,
                RecordView { data: rec.data.update(0, two_digit_value(c[0], c[1]) as u8), ..rec },
            )
            &&& eof ==> t.parser.done && t.file.record_count == ri + 1
            &&& !eof ==> parser_at(t.parser, HexStage::StartCode, ri + 1) && t.file.record_count
                == s.file.record_count
        }),
{
    lemma_data_byte(s, c);
    let m = run(s, c);
    lemma_run_concat(s, c, end);
    assert(end =~= seq![end[0]] + end.drop_first());
    lemma_run_concat(m, seq![end[0]], end.drop_first());
    lemma_run_one(m, end[0]);
    let m1 = step(m, end[0]);
    assert(m1.parser.buffer[0] == end[0]);
    if m1.parser.done {
        lemma_done_absorbs(m1, end.drop_first());
    } else {
        let rest = end.drop_first();
        assert(end[0] != 0x3Au8);
        assert(rest =~= seq![rest[0]] + rest.drop_first());
        lemma_run_concat(m1, seq![rest[0]], rest.drop_first());
        lemma_run_one(m1, rest[0]);
        let m2 = step(m1, rest[0]);
        assert forall|i: int| 0 <= i < rest.drop_first().len() implies rest.drop_first()[i] != 0x3Au8 by {
            assert(rest.drop_first()[i] == end[i + 2]);
        }
        lemma_skip(m2, rest.drop_first());
    }
}

/// One record line of Intel HEX text, as written: the digits of its length, load offset,
/// type code, data and checksum (each digit of either case), and what follows the line.
pub struct HexLine {
    pub count: Seq<u8>,
    pub address: Seq<u8>,
    pub code: Seq<u8>,
    pub data: Seq<u8>,
    pub checksum: Seq<u8>,
    pub end: Seq<u8>,
}

/// The data length a line announces.
pub open spec fn count_of(r: HexLine) -> nat {
    two_digit_value(r.count[0], r.count[1])
}

/// The type code of a line.
pub open spec fn code_of(r: HexLine) -> nat {
    two_digit_value(r.code[0], r.code[1])
}

/// The load offset of a line.
pub open spec fn address_of(r: HexLine) -> nat {
    four_digit_value(r.address[0], r.address[1], r.address[2], r.address[3])
}

/// A line whose fields are hexadecimal digits of the right lengths, whose data has as many
/// bytes as it announces, and whose type code names a record type.
pub open spec fn line_ok(r: HexLine) -> bool {
    &&& digits_ok(r.count, 2)
    &&& digits_ok(r.address, 4)
    &&& digits_ok(r.code, 2)
    &&& digits_ok(r.checksum, 2)
    &&& digits_ok(r.data, 2 * count_of(r))
    &&& code_of(r) <= 5
}

/// What may follow a line's checksum: after an end-of-file line, anything (nonempty if the
/// line has no data); after any other line, text without a `:`, at least two characters long
/// if the line has no data (a single character there would hide the next `:`).
pub open spec fn end_ok(r: HexLine, end: Seq<u8>) -> bool {
    if code_of(r) == 1 {
        count_of(r) == 0 ==> end.len() >= 1
    } else {
        &&& !end.contains(0x3Au8)
        &&& count_of(r) == 0 ==> end.len() >= 2
    }
}

/// A line up to its checksum: `:`, then the digits of the length, load offset, type code,
/// data and checksum.
pub open spec fn line_body(r: HexLine) -> Seq<u8> {
    seq![0x3Au8] + r.count + r.address + r.code + r.data + r.checksum
}

/// The text of a line, with what follows it.
pub open spec fn hex_line(r: HexLine) -> Seq<u8> {
    line_body(r) + r.end
}

/// The record a line leaves in a slot that held `old`: its type, length and offset, and its
/// data over the start of the old data. A line without data leaves its checksum's byte as
/// the first data byte.
pub open spec fn loaded(old: RecordView, r: HexLine) -> RecordView {
    RecordView {
        record_type: record_type_of(code_of(r)),
        byte_count: count_of(r) as u8,
        address: address_of(r) as u16,
        data: if count_of(r) == 0 {
            old.data.update(0, two_digit_value(r.checksum[0], r.checksum[1]) as u8)
        } else {
            data_values(r.data) + old.data.skip(count_of(r) as int)
        },
    }
}

/// Law: reading one well-formed record line at the start of a record fills that record slot
/// as `loaded` says and nothing else; an end-of-file line, with what may follow it, ends the
/// upload and sets the record count to the number of records read; any other line, with what
/// may follow it, leaves the parser waiting for the next record's start code and the record
/// count as it was.
pub proof fn lemma_read_line(s: UploadState, r: HexLine, end: Seq<u8>)
    requires
        parser_at(s.parser, HexStage::StartCode, s.parser.record_index),
        s.parser.record_index < RECORDS,
        s.file.wf(),
        line_ok(r),
        end_ok(r, end),
    ensures
        ({
            let ri = s.parser.record_index;
            let text = line_body(r) + end;
            let t = run(s, text);
            &&& run_ok(s, text)
            &&& t.file.records == s.file.records.update(ri as int, loaded(s.file.records[ri as int], r))
            &&& code_of(r) == 1 ==> t.parser.done && t.file.record_count == ri + 1
            &&& code_of(r) != 1 ==> parser_at(t.parser, HexStage::StartCode, ri + 1)
                && t.file.record_count == s.file.record_count
        }),
{
    let ri = s.parser.record_index;
    let n = count_of(r);
    let old_rec = s.file.records[ri as int];
    let p0 = seq![0x3Au8];
    let p5 = r.checksum + end;
    assert(line_body(r) + end =~= p0 + r.count + r.address + r.code + r.data + p5);
    lemma_run_concat(s, p0, r.count);
    lemma_run_concat(s, p0 + r.count, r.address);
    lemma_run_concat(s, p0 + r.count + r.address, r.code);
    lemma_run_concat(s, p0 + r.count + r.address + r.code, r.data);
    lemma_run_concat(s, p0 + r.count + r.address + r.code + r.data, p5);
    lemma_start_code(s);
    let s1 = run(s, p0);
    assert(is_hex_digit(r.count[0]) && is_hex_digit(r.count[1]));
    assert(n <= 255);
    lemma_byte_count(s1, r.count);
    let s2 = run(s1, r.count);
    lemma_address(s2, r.address);
    let s3 = run(s2, r.address);
    lemma_record_type(s3, r.code);
    let s4 = run(s3, r.code);
    let rec4 = RecordView {
        record_type: record_type_of(code_of(r)),
        byte_count: n as u8,
        address: address_of(r) as u16,
        data: old_rec.data,
    };
    assert(s4.file.records =~= s.file.records.update(ri as int, rec4));
    assert(old_rec.data.len() == MEM_SIZE);
    assert(record_type_of(code_of(r)) == RecordType::Eof <==> code_of(r) == 1);
    if n == 0 {
        assert(r.data =~= Seq::<u8>::empty());
        assert(run(s4, r.data) == s4);
        assert(run_ok(s4, r.data));
        lemma_tail_no_data(s4, r.checksum, end);
        assert(run(s4, p5).file.records =~= s.file.records.update(
            ri as int,
            loaded(old_rec, r),
        ));
    } else {
        lemma_data(s4, r.data, n, n);
        assert(r.data.take(2 * (n as int)) =~= r.data);
        assert(data_values(r.data).take(n as int) =~= data_values(r.data));
        let s5 = run(s4, r.data);
        lemma_tail_after_data(s5, r.checksum, end);
        assert(s5.file.records =~= s.file.records.update(ri as int, loaded(old_rec, r)));
    }
}

/// The text of several record lines, one after the other.
pub open spec fn hex_text(lines: Seq<HexLine>) -> Seq<u8>
    decreases lines.len(),
{
    if lines.len() == 0 {
        Seq::empty()
    } else {
        hex_text(lines.drop_last()) + hex_line(lines.last())
    }
}

/// The parser at the start of an upload (as `HexParser::new` makes it).
pub open spec fn initial_parser() -> ParserView {
    ParserView {
        stage: HexStage::StartCode,
        buffer: seq![0u8, 0u8, 0u8, 0u8],
        seek: 0,
        record_index: 0,
        data_seek: 0,
        done: false,
    }
}

/// The records of `f` with the first `k` slots filled from `lines`.
pub open spec fn loaded_records(f: FileView, lines: Seq<HexLine>, k: nat) -> Seq<RecordView> {
    Seq::new(
        f.records.len(),
        |i: int|
            if i < k {
                loaded(f.records[i], lines[i])
            } else {
                f.records[i]
            },
    )
}

/// A well-formed Intel HEX file of at most `RECORDS` lines: every line well-formed, only the
/// last one an end-of-file record, and each other line followed by what may follow it.
pub open spec fn file_text_ok(lines: Seq<HexLine>) -> bool {
    &&& 1 <= lines.len() <= RECORDS
    &&& forall|i: int| 0 <= i < lines.len() ==> line_ok(#[trigger] lines[i])
    &&& forall|i: int|
        0 <= i < lines.len() - 1 ==> code_of(#[trigger] lines[i]) != 1 && end_ok(
            lines[i],
            lines[i].end,
        )
    &&& code_of(lines.last()) == 1
}

proof fn lemma_loaded_wf(f: FileView, lines: Seq<HexLine>, k: nat)
    requires
        f.wf(),
        file_text_ok(lines),
        k <= lines.len(),
    ensures
        (FileView { records: loaded_records(f, lines, k), ..f }).wf(),
{
    let g = FileView { records: loaded_records(f, lines, k), ..f };
    assert forall|i: int| 0 <= i < RECORDS implies (#[trigger] g.records[i]).data.len()
        == MEM_SIZE by {
        if i < k {
            assert(line_ok(lines[i]));
            let r = lines[i];
            assert(is_hex_digit(r.count[0]) && is_hex_digit(r.count[1]));
            assert(count_of(r) <= 255);
        }
    }
}

proof fn lemma_read_lines(f: FileView, lines: Seq<HexLine>, k: nat)
    requires
        f.wf(),
        file_text_ok(lines),
        k < lines.len(),
    ensures
        ({
            let s0 = UploadState { parser: initial_parser(), file: f };
            let t = run(s0, hex_text(lines.take(k as int)));
            &&& run_ok(s0, hex_text(lines.take(k as int)))
            &&& parser_at(t.parser, HexStage::StartCode, k)
            &&& t.file.records == loaded_records(f, lines, k)
            &&& t.file.record_count == f.record_count
        }),
    decreases k,
{
    let s0 = UploadState { parser: initial_parser(), file: f };
    if k == 0 {
        assert(lines.take(0) =~= Seq::<HexLine>::empty());
        assert(hex_text(lines.take(0)) =~= Seq::<u8>::empty());
        assert(loaded_records(f, lines, 0) =~= f.records);
    } else {
        let km = (k - 1) as nat;
        lemma_read_lines(f, lines, km);
        assert(lines.take(k as int).drop_last() =~= lines.take(km as int));
        let prev = hex_text(lines.take(km as int));
        let r = lines[km as int];
        lemma_run_concat(s0, prev, hex_line(r));
        let m = run(s0, prev);
        lemma_loaded_wf(f, lines, km);
        assert(m.file == FileView { records: loaded_records(f, lines, km), ..f });
        assert(line_ok(r));
        assert(code_of(r) != 1 && end_ok(r, r.end));
        lemma_read_line(m, r, r.end);
        assert(run(m, hex_line(r)).file.records =~= loaded_records(f, lines, k));
    }
}

/// Law (what an upload is for): reading a well-formed Intel HEX file (digits of either case,
/// anything without a `:` between lines) into a file that held any records, up to the
/// end-of-file line's checksum and at least one character after it, accepts every byte, ends
/// the upload, sets the record count to the number of lines, fills slot `i` from line `i` as
/// `loaded` says and leaves the slots after the last line as they were; and whatever follows
/// that first character changes nothing.
pub proof fn lemma_read_file(f: FileView, lines: Seq<HexLine>, rest: Seq<u8>)
    requires
        f.wf(),
        file_text_ok(lines),
        rest.len() >= 1,
    ensures
        ({
            let s0 = UploadState { parser: initial_parser(), file: f };
            let text = hex_text(lines.drop_last()) + line_body(lines.last());
            let t = run(s0, text + rest);
            &&& run_ok(s0, text + rest)
            &&& t.parser.done
            &&& t.file.record_count == lines.len()
            &&& t.file.records == loaded_records(f, lines, lines.len())
            &&& t == run(s0, text + rest.take(1))
        }),
{
    let s0 = UploadState { parser: initial_parser(), file: f };
    let n = lines.len();
    let km = (n - 1) as nat;
    lemma_read_lines(f, lines, km);
    assert(lines.drop_last() =~= lines.take(km as int));
    let prev = hex_text(lines.take(km as int));
    let last = lines.last();
    let m = run(s0, prev);
    lemma_loaded_wf(f, lines, km);
    assert(m.file == FileView { records: loaded_records(f, lines, km), ..f });
    assert(line_ok(lines[km as int]));
    lemma_read_line(m, last, rest);
    lemma_read_line(m, last, rest.take(1));
    assert(line_body(last) + rest =~= (line_body(last) + rest.take(1)) + rest.skip(1));
    lemma_run_concat(m, line_body(last) + rest.take(1), rest.skip(1));
    lemma_done_absorbs(run(m, line_body(last) + rest.take(1)), rest.skip(1));
    assert(prev + line_body(last) + rest =~= prev + (line_body(last) + rest));
    assert(prev + line_body(last) + rest.take(1) =~= prev + (line_body(last) + rest.take(1)));
    lemma_run_concat(s0, prev, line_body(last) + rest);
    lemma_run_concat(s0, prev, line_body(last) + rest.take(1));
    assert(run(m, line_body(last) + rest).file.records =~= loaded_records(f, lines, n));
}

/// Law: two uploads that agree up to the end-of-file line's checksum and one character after
/// it leave the same parser and file, whatever else they hold.
pub proof fn lemma_text_after_end_ignored(
    f: FileView,
    lines: Seq<HexLine>,
    rest1: Seq<u8>,
    rest2: Seq<u8>,
)
    requires
        f.wf(),
        file_text_ok(lines),
        rest1.len() >= 1,
        rest2.len() >= 1,
        rest1[0] == rest2[0],
    ensures
        ({
            let s0 = UploadState { parser: initial_parser(), file: f };
            let text = hex_text(lines.drop_last()) + line_body(lines.last());
            run(s0, text + rest1) == run(s0, text + rest2)
        }),
{
    lemma_read_file(f, lines, rest1);
    lemma_read_file(f, lines, rest2);
    assert(rest1.take(1) =~= rest2.take(1));
}

} // verus!

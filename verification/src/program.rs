//! Walking the records of an uploaded file to program or verify the target: which blocks of
//! memory to write (or read back), at which addresses, and how a read-back block compares.
use vstd::prelude::*;
use crate::record::{RecordType, HexFile, HexRecord, FileView, RecordView, RECORDS, MEM_SIZE};

verus! {

/// Address of the smart-option byte.
pub const SMART_OPTION_ADDRESS: usize = 0x0E39;

/// The smart-option value written after programming.
pub const SMART_OPTION_VALUE: u8 = 0xA7;

/// Whether a smart-option byte read back is the value programming writes.
pub fn is_expected_smart_option(value: u8) -> (r: bool)
    ensures
        r == (value == SMART_OPTION_VALUE),
{
    value == SMART_OPTION_VALUE
}

/// The segment base an extended-segment-address record sets: the 16-bit value
/// `256 * data[2] + data[3]`, shifted left by 4 within 16 bits.
pub open spec fn segment_base(rec: RecordView) -> u16 {
    (((256 * rec.data[2] + rec.data[3]) * 16) % 0x10000) as u16
}

/// What one step of the walk does.
#[derive(Clone, Copy, PartialEq, Eq, Structural, Debug)]
pub enum WalkStep {
    /// Record `index` is a data record: its first `len` data bytes go to address `addr`.
    Block { index: usize, addr: u16, len: usize },
    /// The record carries no data; the walk goes on.
    Skip,
    /// The end-of-file record: the walk is over.
    End,
}

/// The walk's position: the record to look at next and the current segment base.
#[derive(Clone, Copy)]
pub struct RecordWalker {
    pub record_index: usize,
    pub address: u16,
}

/// Whether the next step is defined: the record lies inside the file, and for a data record
/// its offset plus the segment base fits in 16 bits.
pub open spec fn can_step(w: RecordWalker, f: FileView) -> bool {
    &&& w.record_index < RECORDS
    &&& f.records[w.record_index as int].record_type == RecordType::Data ==> f.records[
        w.record_index as int].address + w.address <= 0xFFFF
}

/// One step of the walk over record `w.record_index`: a data record yields its block at
/// offset plus segment base; the end-of-file record ends the walk (the position stays); an
/// extended-segment-address record sets the segment base; other records are skipped.
pub open spec fn walk(w: RecordWalker, f: FileView) -> (RecordWalker, WalkStep) {
    let i = w.record_index;
    let rec = f.records[i as int];
    let next = RecordWalker { record_index: (i + 1) as usize, ..w };
    match rec.record_type {
        RecordType::Data => (
            next,
            WalkStep::Block {
                index: i,
                addr: (rec.address + w.address) as u16,
                len: rec.byte_count as usize,
            },
        ),
        RecordType::Eof => (w, WalkStep::End),
        RecordType::ExtendedSegmentAddress => (
            RecordWalker { address: segment_base(rec), ..next },
            WalkStep::Skip,
        ),
        _ => (next, WalkStep::Skip),
    }
}

impl RecordWalker {
    /// The walk's start: the first record, segment base 0.
    pub fn new() -> (w: RecordWalker)
        ensures
            w.record_index == 0,
            w.address == 0,
    {
        RecordWalker { record_index: 0, address: 0 }
    }

    /// Whether `step` is defined here (see `can_step`).
    pub fn can_step(&self, file: &HexFile) -> (r: bool)
        ensures
            r == can_step(*self, file@),
    {
        if self.record_index >= RECORDS {
            return false;
        }
        let rec = &file.records[self.record_index];
        proof {
            assert(file@.records[self.record_index as int] == rec@);
        }
        match rec.record_type {
            RecordType::Data => rec.address as u32 + self.address as u32 <= 0xFFFF,
            _ => true,
        }
    }

    /// Looks at the next record and moves on, as `walk` describes.
    pub fn step(&mut self, file: &HexFile) -> (r: WalkStep)
        requires
            can_step(*old(self), file@),
        ensures
            (*final(self), r) == walk(*old(self), file@),
    {
        let ri = self.record_index;
        let rec = &file.records[ri];
        proof {
            assert(file@.records[ri as int] == rec@);
        }
        match rec.record_type {
            RecordType::Data => {
                let addr = rec.address + self.address;
                let len = rec.byte_count as usize;
                self.record_index = ri + 1;
                WalkStep::Block { index: ri, addr, len }
            },
            RecordType::Eof => WalkStep::End,
            RecordType::ExtendedSegmentAddress => {
                let a = (rec.data[0] as u32) << 24u32;
                let b = (rec.data[1] as u32) << 16u32;
                let c = (rec.data[2] as u32) << 8u32;
                let d = rec.data[3] as u32;
                let (d0, d1, d2, d3) = (rec.data[0], rec.data[1], rec.data[2], rec.data[3]);
                assert(a + b + c + d <= 0xFFFF_FFFF && (((a + b + c + d) as u16) << 4u16) == (((
                256 * d2 + d3) * 16) % 0x10000) as u16) by (bit_vector)
                    requires
                        a == (d0 as u32) << 24u32,
                        b == (d1 as u32) << 16u32,
                        c == (d2 as u32) << 8u32,
                        d == d3 as u32,
                ;
                let mut address = (a + b + c + d) as u16;
                address = address << 4u16;
                self.address = address;
                self.record_index = ri + 1;
                WalkStep::Skip
            },
            _ => {
                self.record_index = ri + 1;
                WalkStep::Skip
            },
        }
    }
}


/// Whether every step of the walk from the first record is defined (`walk_ok`), found by
/// walking it.
pub fn walk_defined(file: &HexFile) -> (r: bool)
    ensures
        r == walk_ok(RecordWalker { record_index: 0, address: 0 }, file@),
{
    let mut w = RecordWalker::new();
    loop
        invariant
            walk_ok(RecordWalker { record_index: 0, address: 0 }, file@) == walk_ok(w, file@),
        decreases RECORDS - w.record_index,
    {
        if !w.can_step(file) {
            return false;
        }
        let ghost before = w;
        let st = w.step(file);
        if st == WalkStep::End {
            return true;
        }
        assert(w.record_index == before.record_index + 1);
    }
}

/// The positions below `n` where `a` and `b` differ, in increasing order.
pub open spec fn mismatch_positions(a: Seq<u8>, b: Seq<u8>, n: nat) -> Seq<usize>
    decreases n,
{
    if n == 0 {
        Seq::empty()
    } else {
        mismatch_positions(a, b, (n - 1) as nat) + if a[n - 1] != b[n - 1] {
            seq![(n - 1) as usize]
        } else {
            Seq::empty()
        }
    }
}

/// The positions among the first `len` bytes where the bytes read back differ from the
/// record's data, in increasing order.
pub fn mismatches(expected: &HexRecord, readed: &[u8; 255], len: usize) -> (r: Vec<usize>)
    requires
        len <= MEM_SIZE,
    ensures
        r@ == mismatch_positions(readed@, expected.data@, len as nat),
{
    let mut r: Vec<usize> = Vec::new();
    let mut idx: usize = 0;
    while idx < len
        invariant
            idx <= len,
            len <= MEM_SIZE,
            r@ == mismatch_positions(readed@, expected.data@, idx as nat),
        decreases len - idx,
    {
        if readed[idx] != expected.data[idx] {
            r.push(idx);
        }
        proof {
            let n = (idx + 1) as nat;
            assert(mismatch_positions(readed@, expected.data@, n) == mismatch_positions(
                readed@,
                expected.data@,
                idx as nat,
            ) + if readed@[idx as int] != expected.data@[idx as int] {
                seq![idx]
            } else {
                Seq::empty()
            });
        }
        idx = idx + 1;
        assert(r@ =~= mismatch_positions(readed@, expected.data@, idx as nat));
    }
    r
}


/// Whether every step of the walk from `w` is defined until it ends.
pub open spec fn walk_ok(w: RecordWalker, f: FileView) -> bool
    decreases RECORDS - w.record_index,
{
    can_step(w, f) && ({
        let (w2, st) = walk(w, f);
        st != WalkStep::End ==> (w2.record_index > w.record_index && walk_ok(w2, f))
    })
}

/// The blocks the walk from `w` yields, in order, until it ends: record index, address, length.
pub open spec fn walk_blocks(w: RecordWalker, f: FileView) -> Seq<(usize, u16, usize)>
    decreases RECORDS - w.record_index,
{
    if w.record_index >= RECORDS {
        Seq::empty()
    } else {
        let (w2, st) = walk(w, f);
        if w2.record_index <= w.record_index {
            Seq::empty()
        } else {
            match st {
                WalkStep::Block { index, addr, len } => seq![(index, addr, len)] + walk_blocks(w2, f),
                _ => walk_blocks(w2, f),
            }
        }
    }
}

/// Law: the positions `mismatches` reports are exactly the positions below `n` where the two
/// blocks differ, each once and in increasing order; so none are reported exactly when the
/// first `n` bytes agree.
pub proof fn lemma_mismatch_positions(a: Seq<u8>, b: Seq<u8>, n: nat)
    requires
        n <= a.len(),
        n <= b.len(),
        n <= usize::MAX,
    ensures
        forall|p: usize| #[trigger] mismatch_positions(a, b, n).contains(p) <==> (p < n && a[p as int]
            != b[p as int]),
        forall|i: int, j: int|
            0 <= i < j < mismatch_positions(a, b, n).len() ==> mismatch_positions(a, b, n)[i]
                < mismatch_positions(a, b, n)[j],
        (mismatch_positions(a, b, n).len() == 0) <==> (a.take(n as int) == b.take(n as int)),
    decreases n,
{
    let m = mismatch_positions(a, b, n);
    if n == 0 {
        assert(a.take(0) =~= b.take(0));
    } else {
        let k = (n - 1) as nat;
        lemma_mismatch_positions(a, b, k);
        let prev = mismatch_positions(a, b, k);
        let tail: Seq<usize> = if a[k as int] != b[k as int] {
            seq![k as usize]
        } else {
            Seq::empty()
        };
        assert(m == prev + tail);
        assert forall|i: int| 0 <= i < prev.len() implies #[trigger] m[i] == prev[i] && prev[i] < k by {
            assert(prev.contains(prev[i]));
        }
        assert forall|p: usize| #[trigger] m.contains(p) <==> (p < n && a[p as int] != b[p as int]) by {
            if m.contains(p) {
                let i = choose|i: int| 0 <= i < m.len() && m[i] == p;
                if i < prev.len() {
                    assert(prev.contains(p));
                } else {
                    assert(tail[i - prev.len()] == p);
                }
            }
            if p < n && a[p as int] != b[p as int] {
                if p < k {
                    assert(prev.contains(p));
                    let i = choose|i: int| 0 <= i < prev.len() && prev[i] == p;
                    assert(m[i] == p);
                } else {
                    assert(m[m.len() - 1] == p);
                }
            }
        }
        assert forall|i: int, j: int| 0 <= i < j < m.len() implies m[i] < m[j] by {
            if j >= prev.len() {
                assert(m[j] == k);
            }
        }
        if m.len() == 0 {
            assert(a.take(n as int) =~= b.take(n as int)) by {
                assert(prev.len() == 0);
                assert(a.take(k as int) == b.take(k as int));
                assert forall|i: int| 0 <= i < n implies a.take(n as int)[i] == b.take(n as int)[i] by {
                    if i < k {
                        assert(a.take(k as int)[i] == b.take(k as int)[i]);
                    }
                }
            }
        } else {
            let p = m[0];
            assert(m.contains(p));
            assert(a.take(n as int)[p as int] != b.take(n as int)[p as int]);
        }
    }
}


/// The first end-of-file record of `f` is record `k`.
pub open spec fn first_end_at(f: FileView, k: nat) -> bool {
    &&& k < RECORDS
    &&& f.records[k as int].record_type == RecordType::Eof
    &&& forall|i: int| 0 <= i < k ==> (#[trigger] f.records[i]).record_type != RecordType::Eof
}

/// The segment base in effect at record `j`: the one the last extended-segment-address
/// record before `j` set, or 0.
pub open spec fn base_before(f: FileView, j: nat) -> u16
    decreases j,
{
    if j == 0 {
        0
    } else if f.records[j - 1].record_type == RecordType::ExtendedSegmentAddress {
        segment_base(f.records[j - 1])
    } else {
        base_before(f, (j - 1) as nat)
    }
}

/// Every data record before `k` has its load offset plus the segment base in effect within
/// 16 bits.
pub open spec fn addresses_fit(f: FileView, k: nat) -> bool {
    forall|j: int|
        0 <= j < k && (#[trigger] f.records[j]).record_type == RecordType::Data ==> f.records[j].address
            + base_before(f, j as nat) <= 0xFFFF
}

/// The data records among records `i` to `k - 1`, in order: index, load offset plus the
/// segment base in effect, length.
pub open spec fn data_records_between(f: FileView, i: nat, k: nat) -> Seq<(usize, u16, usize)>
    decreases k - i,
{
    if i >= k {
        Seq::empty()
    } else {
        (if f.records[i as int].record_type == RecordType::Data {
            seq![
                (
                    i as usize,
                    (f.records[i as int].address + base_before(f, i)) as u16,
                    f.records[i as int].byte_count as usize,
                ),
            ]
        } else {
            Seq::empty()
        }) + data_records_between(f, i + 1, k)
    }
}

proof fn lemma_walk_from(f: FileView, k: nat, i: nat)
    requires
        f.records.len() == RECORDS,
        first_end_at(f, k),
        addresses_fit(f, k),
        i <= k,
    ensures
        ({
            let w = RecordWalker { record_index: i as usize, address: base_before(f, i) };
            &&& walk_ok(w, f)
            &&& walk_blocks(w, f) == data_records_between(f, i, k)
        }),
    decreases k - i,
{
    let rec = f.records[i as int];
    if i < k {
        assert(rec.record_type != RecordType::Eof);
        assert(base_before(f, i + 1) == if rec.record_type == RecordType::ExtendedSegmentAddress {
            segment_base(rec)
        } else {
            base_before(f, i)
        });
        lemma_walk_from(f, k, i + 1);
    }
}

/// Law: for any file whose first end-of-file record is record `k` and whose data records
/// before `k` fit in 16 bits with the segment base in effect, the walk from the start is
/// defined at every step and yields exactly the data records before `k`, in order, each at
/// its load offset plus the segment base in effect and with its length.
pub proof fn lemma_walk_file(f: FileView, k: nat)
    requires
        f.records.len() == RECORDS,
        first_end_at(f, k),
        addresses_fit(f, k),
    ensures
        walk_ok(RecordWalker { record_index: 0, address: 0 }, f),
        walk_blocks(RecordWalker { record_index: 0, address: 0 }, f) == data_records_between(
            f,
            0,
            k,
        ),
{
    lemma_walk_from(f, k, 0);
}


/// Law: the walk skips an extended-segment-address record and makes the segment base
/// `4096 * (data[2] mod 16) + 16 * data[3]`: data bytes 2 and 3 of its slot, shifted left by
/// 4 within 16 bits, whatever data bytes 0 and 1 hold.
pub proof fn lemma_segment_base_law(w: RecordWalker, f: FileView)
    requires
        can_step(w, f),
        f.wf(),
        f.records[w.record_index as int].record_type == RecordType::ExtendedSegmentAddress,
    ensures
        ({
            let d = f.records[w.record_index as int].data;
            let (w2, st) = walk(w, f);
            &&& st == WalkStep::Skip
            &&& w2.record_index == w.record_index + 1
            &&& w2.address == 4096 * (d[2] % 16) + 16 * d[3]
        }),
{
    let d = f.records[w.record_index as int].data;
    let d2 = d[2] as int;
    let d3 = d[3] as int;
    assert(((256 * d2 + d3) * 16) % 0x10000 == 4096 * (d2 % 16) + 16 * d3) by (nonlinear_arith)
        requires
            0 <= d2 < 256,
            0 <= d3 < 256,
    {
        assert(d2 == 16 * (d2 / 16) + d2 % 16);
        assert((256 * d2 + d3) * 16 == 0x10000 * (d2 / 16) + (4096 * (d2 % 16) + 16 * d3));
        assert(0 <= 4096 * (d2 % 16) + 16 * d3 < 0x10000);
    }
}

} // verus!

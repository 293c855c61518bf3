//! What each command of the web interface does on the lines: erasing, programming a block,
//! reading a block back, the smart option, and the self-test.
use vstd::prelude::*;
use crate::program::{
    SMART_OPTION_ADDRESS, SMART_OPTION_VALUE, RecordWalker, WalkStep, walk, walk_ok, walk_blocks,
    can_step, mismatch_positions, mismatches, first_end_at, addresses_fit,
    base_before, lemma_walk_file, lemma_mismatch_positions,
};
use crate::record::{HexRecord, HexFile, FileView, RecordView, MEM_SIZE, RECORDS};
use crate::wire::{
    S3interface, PinOp, Timing, init_ops, enter_program_mode_ops, erase_ops, write_all_ops,
    write_smart_option_ops, read_ops, read_smart_option_ops, start_condition_ops,
    stop_condition_ops,
};

verus! {

/// Lines idle, then programming mode.
pub open spec fn prepare_ops(t: Timing) -> Seq<PinOp> {
    init_ops() + enter_program_mode_ops(t)
}

/// The byte the self-test writes to every cell.
pub const TEST_PATTERN: u8 = 0x0A;

/// How many bytes the self-test reads back.
pub const TEST_READ_LEN: usize = 10;

/// The self-test: erase; write the smart option and read it back; erase again; write
/// `TEST_PATTERN` to all 255 cells from address 0; read back the first `TEST_READ_LEN` cells
/// inside an extra start/stop pair.
pub open spec fn self_test_ops(t: Timing) -> Seq<PinOp> {
    prepare_ops(t) + erase_ops(t) + prepare_ops(t) + write_smart_option_ops(
        t,
        SMART_OPTION_ADDRESS,
        SMART_OPTION_VALUE,
    ) + seq![PinOp::DelayMillis(10)] + prepare_ops(t) + read_smart_option_ops(
        t,
        SMART_OPTION_ADDRESS,
    ) + prepare_ops(t) + erase_ops(t) + write_all_ops(
        t,
        0,
        Seq::new(255, |i: int| TEST_PATTERN),
        MEM_SIZE as nat,
    ) + prepare_ops(t) + start_condition_ops(t) + read_ops(t, 0, TEST_READ_LEN as nat)
        + stop_condition_ops()
}


/// Programming one block: prepare, write the record's first `len` data bytes at `addr`,
/// wait 10 ms.
pub open spec fn block_ops(t: Timing, rec: RecordView, addr: u16, len: nat) -> Seq<PinOp> {
    prepare_ops(t) + write_all_ops(t, addr as usize, rec.data, len) + seq![PinOp::DelayMillis(10)]
}

/// Programming the blocks one after the other.
pub open spec fn blocks_ops(t: Timing, f: FileView, blocks: Seq<(usize, u16, usize)>) -> Seq<PinOp>
    decreases blocks.len(),
{
    if blocks.len() == 0 {
        Seq::empty()
    } else {
        blocks_ops(t, f, blocks.drop_last()) + block_ops(
            t,
            f.records[blocks.last().0 as int],
            blocks.last().1,
            blocks.last().2 as nat,
        )
    }
}

/// Ending programming: prepare, write the smart option, wait 10 ms.
pub open spec fn finish_ops(t: Timing) -> Seq<PinOp> {
    prepare_ops(t) + write_smart_option_ops(t, SMART_OPTION_ADDRESS, SMART_OPTION_VALUE) + seq![
        PinOp::DelayMillis(10),
    ]
}

/// The program command: each block of the walk from the first record, in order, then the
/// smart option.
pub open spec fn program_ops(t: Timing, f: FileView) -> Seq<PinOp> {
    blocks_ops(t, f, walk_blocks(RecordWalker { record_index: 0, address: 0 }, f)) + finish_ops(t)
}

impl S3interface {
    /// Lines idle, then programming mode.
    pub fn prepare(&mut self)
        ensures
            final(self).queued() == old(self).queued() + prepare_ops(old(self).timing()),
            final(self).timing() == old(self).timing(),
    {
        self.init();
        self.enter_program_mode();
        assert(final(self).queued() =~= old(self).queued() + prepare_ops(old(self).timing()));
    }

    /// The erase command: prepare, then erase the memory.
    pub fn erase_chip(&mut self)
        ensures
            final(self).queued() == old(self).queued() + prepare_ops(old(self).timing()) + erase_ops(
                old(self).timing(),
            ),
            final(self).timing() == old(self).timing(),
    {
        self.prepare();
        self.erase();
    }

    /// Programs one data record at `addr`: prepare, write its `byte_count` data bytes, wait
    /// 10 ms.
    pub fn program_block(&mut self, rec: &HexRecord, addr: u16)
        ensures
            final(self).queued() == old(self).queued() + prepare_ops(old(self).timing())
                + write_all_ops(old(self).timing(), addr as usize, rec.data@, rec.byte_count as nat)
                + seq![PinOp::DelayMillis(10)],
            final(self).timing() == old(self).timing(),
    {
        self.prepare();
        self.write_all(addr as usize, rec.data, rec.byte_count as usize);
        self.delay_millis(10);
    }

    /// Ends programming: prepare, write `SMART_OPTION_VALUE` to the smart option, wait 10 ms.
    pub fn finish_programming(&mut self)
        ensures
            final(self).queued() == old(self).queued() + prepare_ops(old(self).timing())
                + write_smart_option_ops(old(self).timing(), SMART_OPTION_ADDRESS, SMART_OPTION_VALUE)
                + seq![PinOp::DelayMillis(10)],
            final(self).timing() == old(self).timing(),
    {
        self.prepare();
        self.write_smart_option(SMART_OPTION_ADDRESS, SMART_OPTION_VALUE);
        self.delay_millis(10);
    }

    /// Reads a block back for verification: prepare, then read `len` bytes at `addr`
    /// (`8 * len` samples, decoded by `decode_read`).
    pub fn read_block(&mut self, addr: u16, len: usize)
        requires
            len <= MEM_SIZE,
        ensures
            final(self).queued() == old(self).queued() + prepare_ops(old(self).timing()) + read_ops(
                old(self).timing(),
                addr,
                len as nat,
            ),
            final(self).timing() == old(self).timing(),
    {
        self.prepare();
        self.read(addr, len);
    }

    /// Reads the smart option back: prepare, then read it (8 samples, decoded by
    /// `decode_byte`).
    pub fn read_option_back(&mut self)
        ensures
            final(self).queued() == old(self).queued() + prepare_ops(old(self).timing())
                + read_smart_option_ops(old(self).timing(), SMART_OPTION_ADDRESS),
            final(self).timing() == old(self).timing(),
    {
        self.prepare();
        self.read_smart_option(SMART_OPTION_ADDRESS);
    }

    /// The self-test (see `self_test_ops`). Its 88 samples are the smart option's 8, then
    /// the `TEST_READ_LEN` bytes read back.
    pub fn self_test(&mut self)
        ensures
            final(self).queued() == old(self).queued() + self_test_ops(old(self).timing()),
            final(self).timing() == old(self).timing(),
    {
        let ghost t = self.timing();
        let ghost q0 = self.queued();
        self.prepare();
        self.erase();
        self.prepare();
        self.write_smart_option(SMART_OPTION_ADDRESS, SMART_OPTION_VALUE);
        self.delay_millis(10);
        self.prepare();
        self.read_smart_option(SMART_OPTION_ADDRESS);
        self.prepare();
        self.erase();
        let bytes = [TEST_PATTERN; 255];
        assert(bytes@ =~= Seq::new(255, |i: int| TEST_PATTERN));
        self.write_all(0, bytes, MEM_SIZE);
        self.prepare();
        self.start_condition();
        self.read(0, TEST_READ_LEN);
        self.stop_condition();
        assert(final(self).queued() =~= q0 + self_test_ops(t));
    }

    /// The program command: walks the records from the first, programs each data block
    /// (`program_block`) in order until the end-of-file record, then writes the smart option
    /// (`finish_programming`). Every step of the walk must be defined (`walk_ok`).
    pub fn program_file(&mut self, file: &HexFile)
        requires
            walk_ok(RecordWalker { record_index: 0, address: 0 }, file@),
        ensures
            final(self).queued() == old(self).queued() + program_ops(old(self).timing(), file@),
            final(self).timing() == old(self).timing(),
    {
        let ghost t = self.timing();
        let ghost q0 = self.queued();
        let ghost f = file@;
        let ghost w0 = RecordWalker { record_index: 0, address: 0 };
        let ghost mut done: Seq<(usize, u16, usize)> = Seq::empty();
        let mut walker = RecordWalker::new();
        assert(blocks_ops(t, f, done) =~= Seq::<PinOp>::empty());
        assert(walk_blocks(w0, f) =~= done + walk_blocks(walker, f));
        loop
            invariant_except_break
                self.timing() == t,
                f == file@,
                walk_ok(walker, f),
                self.queued() =~= q0 + blocks_ops(t, f, done),
                walk_blocks(w0, f) =~= done + walk_blocks(walker, f),
            ensures
                self.timing() == t,
                self.queued() =~= q0 + blocks_ops(t, f, walk_blocks(w0, f)),
            decreases RECORDS - walker.record_index,
        {
            let ghost before = walker;
            let st = walker.step(file);
            match st {
                WalkStep::Block { index, addr, len } => {
                    proof {
                        file.lemma_wf();
                        assert(file@.records[index as int] == file.records@[index as int]@);
                    }
                    self.program_block(&file.records[index], addr);
                    proof {
                        let b = (index, addr, len);
                        assert(walk_blocks(before, f) == seq![b] + walk_blocks(walker, f));
                        assert(blocks_ops(t, f, done.push(b)) == blocks_ops(t, f, done) + block_ops(
                            t,
                            f.records[index as int],
                            addr,
                            len as nat,
                        )) by {
                            assert(done.push(b).drop_last() =~= done);
                        }
                        done = done.push(b);
                    }
                },
                WalkStep::Skip => {},
                WalkStep::End => {
                    assert(walk_blocks(before, f) =~= Seq::<(usize, u16, usize)>::empty());
                    assert(done + walk_blocks(before, f) =~= done);
                    break;
                },
            }
        }
        self.finish_programming();
        assert(final(self).queued() =~= q0 + program_ops(t, f));
    }

}

/// What one step of the verify command queues: for a block, prepare and read the block back;
/// at the end-of-file record, prepare and read the smart option back; nothing otherwise.
/// Only reads: nothing is written or erased.
pub open spec fn verify_step_ops(t: Timing, st: WalkStep) -> Seq<PinOp> {
    match st {
        WalkStep::Block { index, addr, len } => prepare_ops(t) + read_ops(t, addr, len as nat),
        WalkStep::End => prepare_ops(t) + read_smart_option_ops(t, SMART_OPTION_ADDRESS),
        WalkStep::Skip => Seq::empty(),
    }
}

/// Whether the block read back for record `index` differs from the record's first `len` data
/// bytes.
pub open spec fn block_differs(f: FileView, back: Seq<Seq<u8>>, index: usize, len: usize) -> bool {
    mismatch_positions(back[index as int], f.records[index as int].data, len as nat).len() > 0
}

/// The verdict of the verify command from walker `w` on, starting from `flag`, when reading
/// record `i` back gives `back[i]`: whether `flag` is set or some block still to come reads
/// back differently.
pub open spec fn verify_flag_from(w: RecordWalker, f: FileView, back: Seq<Seq<u8>>, flag: bool) -> bool
    decreases RECORDS - w.record_index,
{
    if w.record_index >= RECORDS {
        flag
    } else {
        let (w2, st) = walk(w, f);
        if w2.record_index <= w.record_index {
            flag
        } else {
            match st {
                WalkStep::Block { index, addr, len } => verify_flag_from(
                    w2,
                    f,
                    back,
                    flag || block_differs(f, back, index, len),
                ),
                _ => verify_flag_from(w2, f, back, flag),
            }
        }
    }
}

/// The state of the verify command: the walk's position and whether a block has read back
/// differently so far.
pub struct Verifier {
    pub walker: RecordWalker,
    pub verify_false: bool,
}

impl Verifier {
    /// Verification from the first record, with nothing found different yet.
    pub fn new() -> (v: Verifier)
        ensures
            v.walker == (RecordWalker { record_index: 0, address: 0 }),
            !v.verify_false,
    {
        Verifier { walker: RecordWalker::new(), verify_false: false }
    }

    /// One step: looks at the next record (as `walk` describes) and queues what verifying it
    /// takes (`verify_step_ops`): a block is read back, the end-of-file record has the smart
    /// option read back.
    pub fn next(&mut self, s3: &mut S3interface, file: &HexFile) -> (r: WalkStep)
        requires
            can_step(old(self).walker, file@),
        ensures
            (final(self).walker, r) == walk(old(self).walker, file@),
            final(self).verify_false == old(self).verify_false,
            final(s3).queued() == old(s3).queued() + verify_step_ops(old(s3).timing(), r),
            final(s3).timing() == old(s3).timing(),
    {
        let st = self.walker.step(file);
        match st {
            WalkStep::Block { index, addr, len } => {
                proof {
                    file.lemma_wf();
                    assert(file@.records[index as int] == file.records@[index as int]@);
                }
                s3.read_block(addr, len);
            },
            WalkStep::End => {
                s3.read_option_back();
            },
            WalkStep::Skip => {
                assert(s3.queued() =~= s3.queued() + verify_step_ops(s3.timing(), st));
            },
        }
        st
    }

    /// Takes in the bytes a block read back: returns the positions among the first `len`
    /// where they differ from the record's data, and notes whether there were any.
    pub fn on_block_read(&mut self, expected: &HexRecord, readed: &[u8; 255], len: usize) -> (r: Vec<
        usize,
    >)
        requires
            len <= MEM_SIZE,
        ensures
            r@ == mismatch_positions(readed@, expected.data@, len as nat),
            final(self).verify_false == (old(self).verify_false || r@.len() > 0),
            final(self).walker == old(self).walker,
    {
        let r = mismatches(expected, readed, len);
        if r.len() > 0 {
            self.verify_false = true;
        }
        r
    }
}

proof fn lemma_verify_from(f: FileView, back: Seq<Seq<u8>>, k: nat, i: nat, flag: bool)
    requires
        f.wf(),
        first_end_at(f, k),
        addresses_fit(f, k),
        back.len() == RECORDS,
        forall|j: int| 0 <= j < RECORDS ==> (#[trigger] back[j]).len() == MEM_SIZE,
        i <= k,
    ensures
        verify_flag_from(
            RecordWalker { record_index: i as usize, address: base_before(f, i) },
            f,
            back,
            flag,
        ) == (
        flag || exists|j: int, idx: int|
            #![trigger f.records[j], back[j][idx]]
            i <= j < k && f.records[j].record_type == crate::record::RecordType::Data && 0 <= idx
                < f.records[j].byte_count && back[j][idx] != f.records[j].data[idx]),
    decreases k - i,
{
    if i < k {
        let rec = f.records[i as int];
        assert(rec.record_type != crate::record::RecordType::Eof);
        assert(base_before(f, i + 1) == if rec.record_type
            == crate::record::RecordType::ExtendedSegmentAddress {
            crate::program::segment_base(rec)
        } else {
            base_before(f, i)
        });
        let here = rec.record_type == crate::record::RecordType::Data && block_differs(
            f,
            back,
            i as usize,
            rec.byte_count as usize,
        );
        lemma_verify_from(f, back, k, i + 1, flag || here);
        if rec.record_type == crate::record::RecordType::Data {
            lemma_mismatch_positions(back[i as int], rec.data, rec.byte_count as nat);
            assert(rec.data.len() == MEM_SIZE);
            if here {
                let p = mismatch_positions(back[i as int], rec.data, rec.byte_count as nat)[0];
                assert(mismatch_positions(back[i as int], rec.data, rec.byte_count as nat).contains(p));
                assert(back[i as int][p as int] != f.records[i as int].data[p as int]);
            } else {
                assert forall|idx: int| 0 <= idx < rec.byte_count implies back[i as int][idx]
                    == rec.data[idx] by {
                    assert(back[i as int].take(rec.byte_count as int)[idx] == rec.data.take(
                        rec.byte_count as int,
                    )[idx]);
                }
            }
        }
    }
}

/// Law (what verifying is for): for a file whose first end-of-file record is record `k` and
/// whose data records before `k` fit in 16 bits with the segment base in effect, when reading record `i` back gives
/// `back[i]`, the verify command's verdict (`verify_false` after each block's `on_block_read`)
/// is set exactly when some data record before `k` reads back differently in one of its
/// `byte_count` bytes.
pub proof fn lemma_verify_verdict(f: FileView, back: Seq<Seq<u8>>, k: nat)
    requires
        f.wf(),
        first_end_at(f, k),
        addresses_fit(f, k),
        back.len() == RECORDS,
        forall|j: int| 0 <= j < RECORDS ==> (#[trigger] back[j]).len() == MEM_SIZE,
    ensures
        walk_ok(RecordWalker { record_index: 0, address: 0 }, f),
        verify_flag_from(RecordWalker { record_index: 0, address: 0 }, f, back, false) == exists|
            j: int,
            idx: int,
        |
            #![trigger f.records[j], back[j][idx]]
            0 <= j < k && f.records[j].record_type == crate::record::RecordType::Data && 0 <= idx
                < f.records[j].byte_count && back[j][idx] != f.records[j].data[idx],
{
    lemma_walk_file(f, k);
    lemma_verify_from(f, back, k, 0, false);
}

} // verus!

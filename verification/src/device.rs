//! The programmer device interface, the sequences in which an image is
//! flashed and verified through it, and a fake programmer that models the
//! bridge and the target's program memory.
use crate::flash::{
    lemma_packed_pairs, packed, word14,
    flash_limit, plan_error, plan_rows, row_base, row_is_needed, row_word_map, verify_map,
    FlashPlan, FlashRow,
    F18877_ERASED_WORD, F18877_ROW_WORDS,
};
use crate::hex::HexImage;
use crate::text::{hex_padded, push_hex};
use crate::{is_device_error, Error, Result};
use std::collections::BTreeMap;
use vstd::prelude::*;

verus! {

pub const F18877_DEVICE_ID: u16 = 0x3075;

pub const MAX_HID_CHUNK_BYTES: usize = 48;

/// What a probe reports about the bridge and its target.
#[derive(Debug, Clone, PartialEq, Eq)]
pub struct ProbeInfo {
    pub bridge_name: String,
    pub protocol_version: u16,
    pub target_name: String,
}

/// A command issued to a programmer, with what identifies it.
#[derive(Debug, Clone, PartialEq, Eq)]
pub enum DeviceEvent {
    Probe,
    ResetTarget,
    ReadTargetId,
    BeginFlash { row_count: u32 },
    EraseRow { base_word_address: u32 },
    WriteChunk { base_word_address: u32, offset_bytes: u8, len: usize },
    CommitRow { base_word_address: u32 },
    VerifyRange { base_word_address: u32, word_count: usize },
    ReadWords { base_word_address: u32, word_count: usize },
    RunTarget,
}

/// A command issued to a programmer, with all the data it carries.
pub enum DeviceOp {
    Probe,
    ResetTarget,
    ReadTargetId,
    BeginFlash { row_count: u32 },
    EraseRow { base_word_address: u32 },
    WriteChunk { base_word_address: u32, offset_bytes: u8, data: Seq<u8> },
    CommitRow { base_word_address: u32 },
    VerifyRange { base_word_address: u32, expected: Seq<u16> },
    ReadWords { base_word_address: u32, word_count: usize },
    RunTarget,
    /// A change of a fake programmer's own settings: no command reaches a
    /// device.
    Configure { target_id: u16, fail_verify: bool },
}

/// What a programmer command returned, as far as a command sequence reads
/// it: success, a device id read, or an error.
pub enum CallReply {
    Done,
    Id(u16),
    Failed(Error),
}

/// The reply of a command whose value the sequences do not read.
pub open spec fn reply_of<T>(r: Result<T>) -> CallReply {
    match r {
        Ok(_) => CallReply::Done,
        Err(e) => CallReply::Failed(e),
    }
}

/// The reply of a device-id read.
pub open spec fn id_reply(r: Result<u16>) -> CallReply {
    match r {
        Ok(id) => CallReply::Id(id),
        Err(e) => CallReply::Failed(e),
    }
}

/// The event that identifies a command (none for a settings change).
pub open spec fn event_of(op: DeviceOp) -> Option<DeviceEvent> {
    match op {
        DeviceOp::Probe => Some(DeviceEvent::Probe),
        DeviceOp::ResetTarget => Some(DeviceEvent::ResetTarget),
        DeviceOp::ReadTargetId => Some(DeviceEvent::ReadTargetId),
        DeviceOp::BeginFlash { row_count } => Some(DeviceEvent::BeginFlash { row_count }),
        DeviceOp::EraseRow { base_word_address } => Some(
            DeviceEvent::EraseRow { base_word_address },
        ),
        DeviceOp::WriteChunk { base_word_address, offset_bytes, data } => Some(
            DeviceEvent::WriteChunk { base_word_address, offset_bytes, len: data.len() as usize },
        ),
        DeviceOp::CommitRow { base_word_address } => Some(
            DeviceEvent::CommitRow { base_word_address },
        ),
        DeviceOp::VerifyRange { base_word_address, expected } => Some(
            DeviceEvent::VerifyRange { base_word_address, word_count: expected.len() as usize },
        ),
        DeviceOp::ReadWords { base_word_address, word_count } => Some(
            DeviceEvent::ReadWords { base_word_address, word_count },
        ),
        DeviceOp::RunTarget => Some(DeviceEvent::RunTarget),
        DeviceOp::Configure { .. } => None,
    }
}

/// A programmer: the bridge that resets, flashes and runs the target.
///
/// Each method issues one command; `history` is the sequence of commands
/// issued so far, each with its reply. What a command returns is the
/// device's to decide.
pub trait ProgrammerDevice {
    /// The commands issued so far, in order, with their replies.
    spec fn history(&self) -> Seq<(DeviceOp, CallReply)>;

    fn probe(&mut self) -> (r: Result<ProbeInfo>)
        ensures
            final(self).history() == old(self).history().push((DeviceOp::Probe, reply_of(r))),
    ;

    fn reset_target(&mut self) -> (r: Result<()>)
        ensures
            final(self).history() == old(self).history().push(
                (DeviceOp::ResetTarget, reply_of(r)),
            ),
    ;

    fn read_target_id(&mut self) -> (r: Result<u16>)
        ensures
            final(self).history() == old(self).history().push(
                (DeviceOp::ReadTargetId, id_reply(r)),
            ),
    ;

    fn begin_flash(&mut self, row_count: u32) -> (r: Result<()>)
        ensures
            final(self).history() == old(self).history().push(
                (DeviceOp::BeginFlash { row_count }, reply_of(r)),
            ),
    ;

    /// Erases the row of 32 words at `base_word_address`.
    fn erase_row(&mut self, base_word_address: u32) -> (r: Result<()>)
        ensures
            final(self).history() == old(self).history().push(
                (DeviceOp::EraseRow { base_word_address }, reply_of(r)),
            ),
    ;

    fn write_chunk(&mut self, base_word_address: u32, offset_bytes: u8, data: &[u8]) -> (r: Result<
        (),
    >)
        ensures
            final(self).history() == old(self).history().push(
                (DeviceOp::WriteChunk { base_word_address, offset_bytes, data: data@ }, reply_of(r)),
            ),
    ;

    fn commit_row(&mut self, base_word_address: u32) -> (r: Result<()>)
        ensures
            final(self).history() == old(self).history().push(
                (DeviceOp::CommitRow { base_word_address }, reply_of(r)),
            ),
    ;

    /// Checks the words from `base_word_address` against `expected`.
    fn verify_range(&mut self, base_word_address: u32, expected: &[u16]) -> (r: Result<()>)
        ensures
            final(self).history() == old(self).history().push(
                (DeviceOp::VerifyRange { base_word_address, expected: expected@ }, reply_of(r)),
            ),
    ;

    /// Reads `word_count` words from `base_word_address`.
    fn read_words(&mut self, base_word_address: u32, word_count: usize) -> (r: Result<Vec<u16>>)
        ensures
            final(self).history() == old(self).history().push(
                (DeviceOp::ReadWords { base_word_address, word_count }, reply_of(r)),
            ),
    ;

    fn run_target(&mut self) -> (r: Result<()>)
        ensures
            final(self).history() == old(self).history().push((DeviceOp::RunTarget, reply_of(r))),
    ;
}

/// Whether a command sequence goes on after this reply: it succeeded, and a
/// device id read is the PIC16F18877's.
pub open spec fn passes(c: CallReply) -> bool {
    match c {
        CallReply::Done => true,
        CallReply::Id(id) => id == F18877_DEVICE_ID,
        CallReply::Failed(_) => false,
    }
}

/// `e` is the error that a sequence ends with after this reply: the
/// command's own error, or the device-id error for another target.
pub open spec fn call_error(c: CallReply, e: Error) -> bool {
    match c {
        CallReply::Done => false,
        CallReply::Id(id) => id != F18877_DEVICE_ID && is_device_error(e, target_id_message(id)),
        CallReply::Failed(x) => e == x,
    }
}

/// `after` is `before` followed by calls of the first commands of
/// `planned`, in order, each but the last one passing.
pub open spec fn ran_in_order(
    before: Seq<(DeviceOp, CallReply)>,
    after: Seq<(DeviceOp, CallReply)>,
    planned: Seq<DeviceOp>,
) -> bool {
    &&& before.len() <= after.len() <= before.len() + planned.len()
    &&& after.take(before.len() as int) == before
    &&& forall|i: int|
        before.len() <= i < after.len() ==> (#[trigger] after[i]).0 == planned[i - before.len()]
    &&& forall|i: int| before.len() <= i < after.len() - 1 ==> passes((#[trigger] after[i]).1)
}

/// Every command of `planned` was issued after `before`, and each passed.
pub open spec fn completed(
    before: Seq<(DeviceOp, CallReply)>,
    after: Seq<(DeviceOp, CallReply)>,
    planned: Seq<DeviceOp>,
) -> bool {
    &&& ran_in_order(before, after, planned)
    &&& after.len() == before.len() + planned.len()
    &&& planned.len() > 0 ==> passes(after.last().1)
}

/// A command was issued after `before`, and the last one ended the
/// sequence with `e`.
pub open spec fn stopped_at(
    before: Seq<(DeviceOp, CallReply)>,
    after: Seq<(DeviceOp, CallReply)>,
    e: Error,
) -> bool {
    after.len() > before.len() && call_error(after.last().1, e)
}

/// A command sequence that runs `planned` in order and stops at the first
/// reply that does not pass: it returns `Ok` exactly when every command
/// ran and passed, and otherwise the error that the last reply gives.
pub open spec fn run_outcome<T>(
    before: Seq<(DeviceOp, CallReply)>,
    after: Seq<(DeviceOp, CallReply)>,
    planned: Seq<DeviceOp>,
    r: Result<T>,
) -> bool {
    &&& ran_in_order(before, after, planned)
    &&& (r is Ok <==> completed(before, after, planned))
    &&& (r matches Err(e) ==> stopped_at(before, after, e))
}

/// The number of chunks of at most 48 bytes that `n` bytes take.
pub open spec fn chunk_count(n: nat) -> nat {
    (n + 47) / 48
}

/// The chunks sent for `n` bytes: at most six, since a chunk's offset is
/// one byte.
pub open spec fn sent_chunks(n: nat) -> nat {
    if chunk_count(n) <= 6 {
        chunk_count(n)
    } else {
        6
    }
}

/// The end of chunk `k` of `n` bytes.
pub open spec fn chunk_end(n: nat, k: int) -> int {
    if n - 48 * k < 48 {
        n as int
    } else {
        48 * k + 48
    }
}

/// The chunk writes of `bytes` for the row at `base`: chunk `k` holds the
/// bytes from `48k`, 48 of them, the last chunk fewer.
pub open spec fn chunk_ops(base: u32, bytes: Seq<u8>, count: nat) -> Seq<DeviceOp> {
    Seq::new(
        count,
        |k: int|
            DeviceOp::WriteChunk {
                base_word_address: base,
                offset_bytes: (48 * k) as u8,
                data: bytes.subrange(48 * k, chunk_end(bytes.len(), k)),
            },
    )
}

/// The commands that program one row: erase, the chunk writes of its
/// packed bytes, commit, verify against its words. A row of more than six
/// chunks stops after the sixth chunk.
pub open spec fn row_ops(row: FlashRow) -> Seq<DeviceOp> {
    let bytes = packed(row.words@);
    let base = row.base_word_address;
    seq![DeviceOp::EraseRow { base_word_address: base }] + chunk_ops(
        base,
        bytes,
        sent_chunks(bytes.len()),
    ) + if chunk_count(bytes.len()) <= 6 {
        seq![
            DeviceOp::CommitRow { base_word_address: base },
            DeviceOp::VerifyRange { base_word_address: base, expected: row.words@ },
        ]
    } else {
        Seq::empty()
    }
}

/// The commands that program the rows in order.
pub open spec fn rows_ops(rows: Seq<FlashRow>) -> Seq<DeviceOp>
    decreases rows.len(),
{
    if rows.len() == 0 {
        Seq::empty()
    } else {
        rows_ops(rows.drop_last()) + row_ops(rows.last())
    }
}

/// The commands that open a session of `row_count` rows: probe, reset,
/// read the target id, begin.
pub open spec fn session_ops(row_count: u32) -> Seq<DeviceOp> {
    seq![
        DeviceOp::Probe,
        DeviceOp::ResetTarget,
        DeviceOp::ReadTargetId,
        DeviceOp::BeginFlash { row_count },
    ]
}

/// The commands that flash a plan: open a session, program each row, run.
pub open spec fn flash_ops(rows: Seq<FlashRow>) -> Seq<DeviceOp> {
    session_ops(rows.len() as u32) + rows_ops(rows) + seq![DeviceOp::RunTarget]
}

/// The commands that verify a flashed plan: open a session, verify each
/// row's words, run.
pub open spec fn verify_ops(rows: Seq<FlashRow>) -> Seq<DeviceOp> {
    session_ops(rows.len() as u32) + Seq::new(
        rows.len(),
        |j: int|
            DeviceOp::VerifyRange {
                base_word_address: rows[j].base_word_address,
                expected: rows[j].words@,
            },
    ) + seq![DeviceOp::RunTarget]
}

/// Message of the error for a target whose device id is not the PIC16F18877's.
pub open spec fn target_id_message(id: u16) -> Seq<char> {
    "unexpected target device id 0x"@ + hex_padded(id as nat, 4)
        + "; expected PIC16F18877 0x3075"@
}

/// Accepts the PIC16F18877's device id and refuses any other.
pub fn check_target_id(id: u16) -> (r: Result<()>)
    ensures
        id == F18877_DEVICE_ID ==> r is Ok,
        id != F18877_DEVICE_ID ==> (r matches Err(e) && is_device_error(e, target_id_message(id))),
{
    if id != F18877_DEVICE_ID {
        let mut m = String::new();
        m.append("unexpected target device id 0x");
        push_hex(&mut m, id as u64, 4);
        m.append("; expected PIC16F18877 0x3075");
        return Err(Error::Device(m));
    }
    Ok(())
}

} // verus!

verus! {

/// `after` is `before` followed by calls of the first `m` commands of
/// `planned`, each passing.
spec fn done_upto(
    before: Seq<(DeviceOp, CallReply)>,
    after: Seq<(DeviceOp, CallReply)>,
    planned: Seq<DeviceOp>,
    m: int,
) -> bool {
    &&& 0 <= m <= planned.len()
    &&& after.len() == before.len() + m
    &&& after.take(before.len() as int) == before
    &&& forall|i: int|
        before.len() <= i < after.len() ==> (#[trigger] after[i]).0 == planned[i - before.len()]
            && passes(after[i].1)
}

proof fn lemma_done_start(before: Seq<(DeviceOp, CallReply)>, planned: Seq<DeviceOp>)
    ensures
        done_upto(before, before, planned, 0),
{
    assert(before.take(before.len() as int) =~= before);
}

/// Calling the next planned command keeps the calls in order; a passing
/// reply extends the passing prefix, any other reply ends the sequence.
proof fn lemma_done_step(
    before: Seq<(DeviceOp, CallReply)>,
    h: Seq<(DeviceOp, CallReply)>,
    planned: Seq<DeviceOp>,
    m: int,
    rep: CallReply,
)
    requires
        done_upto(before, h, planned, m),
        m < planned.len(),
    ensures
        ran_in_order(before, h.push((planned[m], rep)), planned),
        passes(rep) ==> done_upto(before, h.push((planned[m], rep)), planned, m + 1),
        passes(rep) && m + 1 == planned.len() ==> completed(
            before,
            h.push((planned[m], rep)),
            planned,
        ),
        !passes(rep) ==> !completed(before, h.push((planned[m], rep)), planned),
        h.push((planned[m], rep)).len() > before.len(),
        h.push((planned[m], rep)).last().1 == rep,
{
    let h2 = h.push((planned[m], rep));
    assert(h2.take(before.len() as int) =~= before) by {
        assert(h2.take(before.len() as int) =~= h.take(before.len() as int));
    }
    assert forall|i: int| before.len() <= i < h2.len() implies (#[trigger] h2[i]).0 == planned[i
        - before.len()] by {
        if i < h.len() {
            assert(h2[i] == h[i]);
        }
    }
    assert forall|i: int| before.len() <= i < h2.len() - 1 implies passes((#[trigger] h2[i]).1) by {
        assert(h2[i] == h[i]);
    }
    if passes(rep) {
        assert forall|i: int| before.len() <= i < h2.len() implies (#[trigger] h2[i]).0
            == planned[i - before.len()] && passes(h2[i].1) by {
            if i < h.len() {
                assert(h2[i] == h[i]);
            }
        }
    }
}

proof fn lemma_done_ran(
    before: Seq<(DeviceOp, CallReply)>,
    h: Seq<(DeviceOp, CallReply)>,
    planned: Seq<DeviceOp>,
    m: int,
)
    requires
        done_upto(before, h, planned, m),
    ensures
        ran_in_order(before, h, planned),
        m == planned.len() && m > 0 ==> completed(before, h, planned),
{
    assert forall|i: int| before.len() <= i < h.len() implies (#[trigger] h[i]).0 == planned[i
        - before.len()] by {}
    assert forall|i: int| before.len() <= i < h.len() - 1 implies passes((#[trigger] h[i]).1) by {}
}

/// A part of the plan run after a passing prefix of it: the calls stay in
/// order, a completed part extends the prefix, and an unfinished part
/// leaves the plan unfinished.
proof fn lemma_done_chain(
    before: Seq<(DeviceOp, CallReply)>,
    mid: Seq<(DeviceOp, CallReply)>,
    after: Seq<(DeviceOp, CallReply)>,
    planned: Seq<DeviceOp>,
    m: int,
    part: Seq<DeviceOp>,
)
    requires
        done_upto(before, mid, planned, m),
        m + part.len() <= planned.len(),
        planned.subrange(m, m + part.len() as int) == part,
        part.len() > 0,
        ran_in_order(mid, after, part),
    ensures
        ran_in_order(before, after, planned),
        completed(mid, after, part) ==> done_upto(before, after, planned, m + part.len()),
        !completed(mid, after, part) ==> !completed(before, after, planned),
        after.len() >= mid.len() >= before.len(),
{
    assert(after.take(before.len() as int) =~= before) by {
        assert(after.take(before.len() as int) =~= after.take(mid.len() as int).take(
            before.len() as int,
        ));
    }
    assert forall|i: int| before.len() <= i < mid.len() implies after[i] == mid[i] by {
        assert(after.take(mid.len() as int)[i] == after[i]);
    }
    assert forall|i: int| before.len() <= i < after.len() implies (#[trigger] after[i]).0
        == planned[i - before.len()] by {
        if i < mid.len() {
            assert(after[i] == mid[i]);
        } else {
            assert(after[i].0 == part[i - mid.len()]);
            assert(part[i - mid.len()] == planned.subrange(m, m + part.len() as int)[i - mid.len()]);
        }
    }
    assert forall|i: int| before.len() <= i < after.len() - 1 implies passes((#[trigger] after[i]).1) by {
        if i < mid.len() {
            assert(after[i] == mid[i]);
            assert(passes(mid[i].1));
        }
    }
    if completed(mid, after, part) {
        assert forall|i: int| before.len() <= i < after.len() implies (#[trigger] after[i]).0
            == planned[i - before.len()] && passes(after[i].1) by {
            if i < mid.len() {
                assert(after[i] == mid[i]);
                assert(passes(mid[i].1));
            } else {
                assert(after[i].0 == part[i - mid.len()]);
                assert(part[i - mid.len()] == planned.subrange(m, m + part.len() as int)[i
                    - mid.len()]);
            }
        }
    }
}

proof fn lemma_chunk_count(n: nat, k: nat)
    ensures
        48 * k < n ==> k < chunk_count(n),
        48 * k < n && 48 * (k + 1) >= n ==> k + 1 == chunk_count(n),
        48 * k < n && 48 * (k + 1) < n ==> k + 1 < chunk_count(n),
        k == 0 && n == 0 ==> chunk_count(n) == 0,
{
    assert(48 * k < n ==> k < (n + 47) / 48) by (nonlinear_arith);
    assert(48 * k < n && 48 * (k + 1) >= n ==> k + 1 == (n + 47) / 48) by (nonlinear_arith);
    assert(48 * k < n && 48 * (k + 1) < n ==> k + 1 < (n + 47) / 48) by (nonlinear_arith);
}

/// The layout of a row's commands.
proof fn lemma_row_ops_shape(row: FlashRow)
    ensures
        ({
            let bytes = packed(row.words@);
            let n = bytes.len();
            let s = sent_chunks(n);
            let p = row_ops(row);
            let base = row.base_word_address;
            &&& n == 2 * row.words@.len()
            &&& s <= 6
            &&& p.len() == 1 + s + (if chunk_count(n) <= 6 {
                2int
            } else {
                0int
            })
            &&& p[0] == DeviceOp::EraseRow { base_word_address: base }
            &&& forall|k: int|
                0 <= k < s ==> #[trigger] p[1 + k] == DeviceOp::WriteChunk {
                    base_word_address: base,
                    offset_bytes: (48 * k) as u8,
                    data: bytes.subrange(48 * k, chunk_end(n, k)),
                }
            &&& chunk_count(n) <= 6 ==> p[(1 + s) as int] == DeviceOp::CommitRow { base_word_address: base }
                && p[(2 + s) as int] == DeviceOp::VerifyRange {
                base_word_address: base,
                expected: row.words@,
            }
        }),
{
    let bytes = packed(row.words@);
    let n = bytes.len();
    let s = sent_chunks(n);
    let base = row.base_word_address;
    let head = seq![DeviceOp::EraseRow { base_word_address: base }];
    let chunks = chunk_ops(base, bytes, s);
    let tail = if chunk_count(n) <= 6 {
        seq![
            DeviceOp::CommitRow { base_word_address: base },
            DeviceOp::VerifyRange { base_word_address: base, expected: row.words@ },
        ]
    } else {
        Seq::<DeviceOp>::empty()
    };
    let p = row_ops(row);
    assert(p == head + chunks + tail);
    assert forall|k: int| 0 <= k < s implies #[trigger] p[1 + k] == chunks[k] by {
        assert((head + chunks)[1 + k] == chunks[k]);
    }
    if chunk_count(n) <= 6 {
        assert(p[(1 + s) as int] == tail[0]);
        assert(p[(2 + s) as int] == tail[1]);
    }
}

fn copy_chunk(bytes: &Vec<u8>, start: usize, end: usize) -> (chunk: Vec<u8>)
    requires
        start <= end <= bytes.len(),
    ensures
        chunk@ == bytes@.subrange(start as int, end as int),
{
    let mut chunk: Vec<u8> = Vec::new();
    let mut i = start;
    while i < end
        invariant
            start <= i <= end <= bytes.len(),
            chunk@ == bytes@.subrange(start as int, i as int),
        decreases end - i,
    {
        chunk.push(bytes[i]);
        i = i + 1;
        assert(chunk@ =~= bytes@.subrange(start as int, i as int));
    }
    chunk
}

/// Message of the error for a row whose chunk offsets do not fit in a byte.
pub open spec fn chunk_offset_message() -> Seq<char> {
    "row chunk offset exceeded u8"@
}

/// Programs one row: erase it, write its packed bytes in chunks of 48,
/// commit it, verify it; the first reply that fails ends the sequence, and
/// a row that needs more than six chunks is refused after the sixth.
fn program_row<D: ProgrammerDevice + ?Sized>(device: &mut D, row: &FlashRow) -> (r: Result<()>)
    ensures
        ran_in_order(old(device).history(), final(device).history(), row_ops(*row)),
        r is Ok <==> (chunk_count(2 * row.words@.len()) <= 6 && completed(
            old(device).history(),
            final(device).history(),
            row_ops(*row),
        )),
        r matches Err(e) ==> stopped_at(old(device).history(), final(device).history(), e) || (
        chunk_count(2 * row.words@.len()) > 6 && completed(
            old(device).history(),
            final(device).history(),
            row_ops(*row),
        ) && is_device_error(e, chunk_offset_message())),
{
    let ghost before = device.history();
    let ghost planned = row_ops(*row);
    let ghost bytes = packed(row.words@);
    let ghost n: nat = bytes.len();
    let ghost s = sent_chunks(n);
    proof {
        lemma_done_start(before, planned);
        lemma_row_ops_shape(*row);
        lemma_chunk_count(n, 0);
    }
    let base = row.base_word_address;
    let erased = device.erase_row(base);
    proof {
        lemma_done_step(before, before, planned, 0, reply_of(erased));
    }
    if erased.is_err() {
        return erased;
    }
    let packed_bytes = row.packed_bytes();
    let mut index: usize = 0;
    let mut start: usize = 0;
    while start < packed_bytes.len()
        invariant
            packed_bytes@ == bytes,
            bytes == packed(row.words@),
            n == bytes.len(),
            n == 2 * row.words@.len(),
            s == sent_chunks(n),
            s <= 6,
            planned == row_ops(*row),
            old(device).history() == before,
            base == row.base_word_address,
            index <= s,
            start == (if 48 * index < n {
                48 * index
            } else {
                n as int
            }),
            48 * index < n ==> index < chunk_count(n),
            48 * index >= n ==> index == chunk_count(n),
            done_upto(before, device.history(), planned, 1 + index),
        decreases n - start,
    {
        proof {
            lemma_row_ops_shape(*row);
        }
        if index > 5 {
            proof {
                lemma_done_ran(before, device.history(), planned, 1 + index as int);
            }
            return Err(Error::Device(String::from_str("row chunk offset exceeded u8")));
        }
        let end = if packed_bytes.len() - start < MAX_HID_CHUNK_BYTES {
            packed_bytes.len()
        } else {
            start + MAX_HID_CHUNK_BYTES
        };
        let chunk = copy_chunk(&packed_bytes, start, end);
        let offset = (index * MAX_HID_CHUNK_BYTES) as u8;
        let ghost h = device.history();
        let written = device.write_chunk(base, offset, chunk.as_slice());
        proof {
            assert(index < s);
            assert(end == chunk_end(n, index as int));
            assert(planned[1 + index as int] == DeviceOp::WriteChunk {
                base_word_address: base,
                offset_bytes: offset,
                data: chunk@,
            });
            lemma_done_step(before, h, planned, 1 + index as int, reply_of(written));
        }
        if written.is_err() {
            return written;
        }
        proof {
            lemma_chunk_count(n, index as nat);
        }
        index = index + 1;
        start = end;
    }
    proof {
        lemma_row_ops_shape(*row);
        assert(index == chunk_count(n));
        assert(index == s);
    }
    let ghost h = device.history();
    let committed = device.commit_row(base);
    proof {
        lemma_done_step(before, h, planned, 1 + index as int, reply_of(committed));
    }
    if committed.is_err() {
        return committed;
    }
    let ghost h = device.history();
    let verified = device.verify_range(base, row.words.as_slice());
    proof {
        lemma_done_step(before, h, planned, 2 + index as int, reply_of(verified));
    }
    verified
}

/// Opens a session of `row_count` rows, the first four commands of
/// `planned`: probe, reset, read and check the target id, begin.
fn start_session<D: ProgrammerDevice + ?Sized>(
    device: &mut D,
    row_count: u32,
    Ghost(planned): Ghost<Seq<DeviceOp>>,
) -> (r: Result<()>)
    requires
        planned.len() > 4,
        planned.take(4) == session_ops(row_count),
    ensures
        ran_in_order(old(device).history(), final(device).history(), planned),
        !completed(old(device).history(), final(device).history(), planned),
        r is Ok ==> done_upto(old(device).history(), final(device).history(), planned, 4),
        r matches Err(e) ==> stopped_at(old(device).history(), final(device).history(), e),
{
    let ghost before = device.history();
    proof {
        lemma_done_start(before, planned);
        assert(planned[0] == planned.take(4)[0]);
        assert(planned[1] == planned.take(4)[1]);
        assert(planned[2] == planned.take(4)[2]);
        assert(planned[3] == planned.take(4)[3]);
    }
    let probed = device.probe();
    proof {
        lemma_done_step(before, before, planned, 0, reply_of(probed));
    }
    if let Err(e) = probed {
        return Err(e);
    }
    let ghost h = device.history();
    let reset = device.reset_target();
    proof {
        lemma_done_step(before, h, planned, 1, reply_of(reset));
    }
    if let Err(e) = reset {
        return Err(e);
    }
    let ghost h = device.history();
    let id = device.read_target_id();
    proof {
        lemma_done_step(before, h, planned, 2, id_reply(id));
    }
    match id {
        Ok(id) => {
            if let Err(e) = check_target_id(id) {
                return Err(e);
            }
        },
        Err(e) => {
            return Err(e);
        },
    }
    let ghost h = device.history();
    let begun = device.begin_flash(row_count);
    proof {
        lemma_done_step(before, h, planned, 3, reply_of(begun));
        if begun is Ok {
            lemma_done_ran(before, device.history(), planned, 4);
        }
    }
    if let Err(e) = begun {
        return Err(e);
    }
    Ok(())
}

proof fn lemma_rows_ops_step(rows: Seq<FlashRow>, j: int)
    requires
        0 <= j < rows.len(),
    ensures
        rows_ops(rows.take(j + 1)) == rows_ops(rows.take(j)) + row_ops(rows[j]),
{
    assert(rows.take(j + 1).drop_last() =~= rows.take(j));
    assert(rows.take(j + 1).last() == rows[j]);
}

proof fn lemma_rows_ops_take(rows: Seq<FlashRow>, k: int)
    requires
        0 <= k <= rows.len(),
    ensures
        rows_ops(rows.take(k)).len() <= rows_ops(rows).len(),
        rows_ops(rows).take(rows_ops(rows.take(k)).len() as int) == rows_ops(rows.take(k)),
    decreases rows.len(),
{
    if k == rows.len() {
        assert(rows.take(k) =~= rows);
    } else {
        let shorter = rows.drop_last();
        lemma_rows_ops_take(shorter, k);
        assert(shorter.take(k) =~= rows.take(k));
        assert(rows_ops(rows) == rows_ops(shorter) + row_ops(rows.last()));
        let p = rows_ops(rows.take(k));
        assert(rows_ops(rows).take(p.len() as int) =~= rows_ops(shorter).take(p.len() as int));
    }
}

/// Each row of a plan with no byte beyond program flash lies below word
/// 0x8000.
proof fn lemma_plan_rows_in_flash(rows: Seq<FlashRow>, image: Map<u32, u8>, j: int)
    requires
        plan_rows(rows, image, F18877_ROW_WORDS as nat, F18877_ERASED_WORD),
        plan_error(image, F18877_ROW_WORDS as nat) is None,
        0 <= j < rows.len(),
    ensures
        rows[j].base_word_address < 0x8000,
        rows[j].words@.len() == F18877_ROW_WORDS,
{
    assert(rows[j].words@.len() == F18877_ROW_WORDS);
    assert(row_is_needed(image, F18877_ROW_WORDS as nat, rows[j].base_word_address));
    let a = choose|a: u32|
        #[trigger] image.contains_key(a) && row_base((a / 2) as int, 32) == rows[j].base_word_address;
    assert(!(exists|b: u32| image.contains_key(b) && b >= flash_limit()));
    assert(a < flash_limit());
    assert(row_base((a / 2) as int, 32) <= (a / 2) as int);
}

/// Flashes an image: plans its rows for the PIC16F18877 (a planning error
/// issues no command), then probes, resets, reads and checks the target id,
/// begins a flash session of as many rows as planned, programs each row
/// (erase, chunked writes, commit, verify) and runs the target. The first
/// failing reply, or a target of another device id, ends the sequence with
/// its error; when every command passes, the plan is returned.
#[verifier::spinoff_prover]
#[verifier::rlimit(40)]
pub fn flash_image<D: ProgrammerDevice + ?Sized>(device: &mut D, image: &HexImage) -> (r: Result<
    FlashPlan,
>)
    ensures
        match plan_error(image@, F18877_ROW_WORDS as nat) {
            Some(msg) => r matches Err(e) && is_device_error(e, msg) && final(device).history()
                == old(device).history(),
            None => exists|rows: Seq<FlashRow>|
                #[trigger] plan_rows(rows, image@, F18877_ROW_WORDS as nat, F18877_ERASED_WORD)
                    && run_outcome(old(device).history(), final(device).history(), flash_ops(rows), r)
                    && (r matches Ok(plan) ==> plan.rows@ == rows),
        },
        r matches Ok(plan) ==> plan.row_words == F18877_ROW_WORDS && plan.fill_word
            == F18877_ERASED_WORD && plan_rows(
            plan.rows@,
            image@,
            F18877_ROW_WORDS as nat,
            F18877_ERASED_WORD,
        ),
{
    let plan = match FlashPlan::f18877_from_image(image) {
        Ok(plan) => plan,
        Err(e) => {
            return Err(e);
        },
    };
    let ghost before = device.history();
    let ghost rows = plan.rows@;
    let ghost planned = flash_ops(rows);
    proof {
        assert(planned.take(4) =~= session_ops(plan.rows.len() as u32));
        assert(plan_rows(rows, image@, F18877_ROW_WORDS as nat, F18877_ERASED_WORD));
    }
    let started = start_session(device, plan.rows.len() as u32, Ghost(planned));
    if let Err(e) = started {
        return Err(e);
    }
    let mut j: usize = 0;
    while j < plan.rows.len()
        invariant
            j <= plan.rows@.len(),
            rows == plan.rows@,
            planned == flash_ops(rows),
            plan_rows(rows, image@, F18877_ROW_WORDS as nat, F18877_ERASED_WORD),
            plan_error(image@, F18877_ROW_WORDS as nat) is None,
            plan.row_words == F18877_ROW_WORDS,
            plan.fill_word == F18877_ERASED_WORD,
            old(device).history() == before,
            done_upto(before, device.history(), planned, 4 + rows_ops(rows.take(j as int)).len() as int),
        decreases plan.rows@.len() - j,
    {
        let ghost mid = device.history();
        let ghost m: int = 4 + rows_ops(rows.take(j as int)).len() as int;
        let ghost part = row_ops(rows[j as int]);
        proof {
            lemma_plan_rows_in_flash(rows, image@, j as int);
            lemma_rows_ops_step(rows, j as int);
            lemma_rows_ops_take(rows, j + 1);
            lemma_row_ops_shape(rows[j as int]);
            let ro = rows_ops(rows);
            assert(planned == session_ops(rows.len() as u32) + ro + seq![DeviceOp::RunTarget]);
            assert(planned.subrange(m, m + part.len() as int) =~= part) by {
                assert forall|i: int| 0 <= i < part.len() implies planned.subrange(
                    m,
                    m + part.len() as int,
                )[i] == part[i] by {
                    assert(ro.take(rows_ops(rows.take(j + 1)).len() as int)[m - 4 + i] == part[i]);
                }
            }
        }
        let programmed = program_row(device, &plan.rows[j]);
        proof {
            lemma_done_chain(before, mid, device.history(), planned, m, part);
        }
        if let Err(e) = programmed {
            return Err(e);
        }
        j = j + 1;
    }
    proof {
        assert(rows.take(rows.len() as int) =~= rows);
    }
    let ghost h = device.history();
    let ran = device.run_target();
    proof {
        lemma_done_step(before, h, planned, 4 + rows_ops(rows).len() as int, reply_of(ran));
    }
    if let Err(e) = ran {
        return Err(e);
    }
    Ok(plan)
}

/// Verifies a flashed image without writing it: plans its rows for the
/// PIC16F18877 (a planning error issues no command), then probes, resets,
/// reads and checks the target id, begins a session of as many rows as
/// planned, verifies each row's words and runs the target. The first
/// failing reply, or a target of another device id, ends the sequence with
/// its error; when every command passes, the plan is returned.
#[verifier::spinoff_prover]
#[verifier::rlimit(40)]
pub fn verify_image<D: ProgrammerDevice + ?Sized>(device: &mut D, image: &HexImage) -> (r: Result<
    FlashPlan,
>)
    ensures
        match plan_error(image@, F18877_ROW_WORDS as nat) {
            Some(msg) => r matches Err(e) && is_device_error(e, msg) && final(device).history()
                == old(device).history(),
            None => exists|rows: Seq<FlashRow>|
                #[trigger] plan_rows(rows, image@, F18877_ROW_WORDS as nat, F18877_ERASED_WORD)
                    && run_outcome(old(device).history(), final(device).history(), verify_ops(rows), r)
                    && (r matches Ok(plan) ==> plan.rows@ == rows),
        },
        r matches Ok(plan) ==> plan.row_words == F18877_ROW_WORDS && plan.fill_word
            == F18877_ERASED_WORD && plan_rows(
            plan.rows@,
            image@,
            F18877_ROW_WORDS as nat,
            F18877_ERASED_WORD,
        ),
{
    let plan = match FlashPlan::f18877_from_image(image) {
        Ok(plan) => plan,
        Err(e) => {
            return Err(e);
        },
    };
    let ghost before = device.history();
    let ghost rows = plan.rows@;
    let ghost planned = verify_ops(rows);
    proof {
        assert(planned.take(4) =~= session_ops(plan.rows.len() as u32));
        assert(plan_rows(rows, image@, F18877_ROW_WORDS as nat, F18877_ERASED_WORD));
    }
    let started = start_session(device, plan.rows.len() as u32, Ghost(planned));
    if let Err(e) = started {
        return Err(e);
    }
    let mut j: usize = 0;
    while j < plan.rows.len()
        invariant
            j <= plan.rows@.len(),
            rows == plan.rows@,
            planned == verify_ops(rows),
            plan_rows(rows, image@, F18877_ROW_WORDS as nat, F18877_ERASED_WORD),
            plan_error(image@, F18877_ROW_WORDS as nat) is None,
            plan.row_words == F18877_ROW_WORDS,
            plan.fill_word == F18877_ERASED_WORD,
            old(device).history() == before,
            done_upto(before, device.history(), planned, 4 + j),
        decreases plan.rows@.len() - j,
    {
        proof {
            lemma_plan_rows_in_flash(rows, image@, j as int);
        }
        let row = &plan.rows[j];
        let ghost h = device.history();
        let checked = device.verify_range(row.base_word_address, row.words.as_slice());
        proof {
            assert(planned[4 + j as int] == DeviceOp::VerifyRange {
                base_word_address: rows[j as int].base_word_address,
                expected: rows[j as int].words@,
            });
            lemma_done_step(before, h, planned, 4 + j as int, reply_of(checked));
        }
        if let Err(e) = checked {
            return Err(e);
        }
        j = j + 1;
    }
    let ghost h = device.history();
    let ran = device.run_target();
    proof {
        assert(planned[4 + rows.len() as int] == DeviceOp::RunTarget);
        lemma_done_step(before, h, planned, 4 + rows.len() as int, reply_of(ran));
    }
    if let Err(e) = ran {
        return Err(e);
    }
    Ok(plan)
}

} // verus!

verus! {

/// A programmer without hardware: it records every command, keeps the
/// target's program memory (an absent word reads as erased, `0x3fff`) and
/// one 64-byte buffer per erased row, and can be made to fail verification
/// or report another device id.
pub struct FakeProgrammer {
    info: ProbeInfo,
    memory: BTreeMap<u32, u16>,
    row_buffers: RowBuffers,
    events: Vec<DeviceEvent>,
    target_id: u16,
    fail_verify: bool,
    log: Ghost<Seq<(DeviceOp, CallReply)>>,
}

/// The fake's row buffers: 64 bytes each, for rows within the 32-bit word
/// address space.
#[derive(Debug)]
struct RowBuffers {
    rows: BTreeMap<u32, Vec<u8>>,
}

impl Clone for RowBuffers {
    fn clone(&self) -> (r: Self)
        ensures
            r.view() == self.view(),
    {
        proof {
            use_type_invariant(self);
        }
        RowBuffers { rows: self.rows.clone() }
    }
}

impl RowBuffers {
    #[verifier::type_invariant]
    spec fn buffers_fit(self) -> bool {
        forall|b: u32| #[trigger]
            self.rows@.contains_key(b) ==> self.rows@[b]@.len() == 2 * F18877_ROW_WORDS && b
                + F18877_ROW_WORDS <= 0x1_0000_0000
    }

    pub closed spec fn view(&self) -> Map<u32, Seq<u8>> {
        Map::new(|b: u32| self.rows@.contains_key(b), |b: u32| self.rows@[b]@)
    }

    fn new() -> (r: Self)
        ensures
            r.view() == Map::<u32, Seq<u8>>::empty(),
    {
        let r = RowBuffers { rows: BTreeMap::new() };
        assert(r.view() =~= Map::<u32, Seq<u8>>::empty());
        r
    }

    fn clear(&mut self)
        ensures
            final(self).view() == Map::<u32, Seq<u8>>::empty(),
    {
        self.rows = BTreeMap::new();
        assert(self.view() =~= Map::<u32, Seq<u8>>::empty());
    }

    /// Sets the buffer of the row at `base`.
    fn put(&mut self, base: u32, row: Vec<u8>)
        requires
            row@.len() == 2 * F18877_ROW_WORDS,
            base + F18877_ROW_WORDS <= 0x1_0000_0000,
        ensures
            final(self).view() == old(self).view().insert(base, row@),
    {
        broadcast use vstd::std_specs::btree::group_btree_axioms;

        proof {
            use_type_invariant(&*self);
            crate::order::lemma_u32_laws();
        }
        let mut rows: BTreeMap<u32, Vec<u8>> = BTreeMap::new();
        std::mem::swap(&mut rows, &mut self.rows);
        rows.insert(base, row);
        self.rows = rows;
        assert(self.view() =~= old(self).view().insert(base, row@));
    }

    /// Removes and returns the buffer of the row at `base`.
    fn take(&mut self, base: u32) -> (r: Option<Vec<u8>>)
        ensures
            final(self).view() == old(self).view().remove(base),
            match old(self).view().get(base) {
                None => r is None,
                Some(row) => r matches Some(v) && v@ == row && row.len() == 2 * F18877_ROW_WORDS
                    && base + F18877_ROW_WORDS <= 0x1_0000_0000,
            },
    {
        broadcast use vstd::std_specs::btree::group_btree_axioms;

        proof {
            use_type_invariant(&*self);
            crate::order::lemma_u32_laws();
        }
        let mut rows: BTreeMap<u32, Vec<u8>> = BTreeMap::new();
        std::mem::swap(&mut rows, &mut self.rows);
        let r = rows.remove(&base);
        self.rows = rows;
        assert(self.view() =~= old(self).view().remove(base));
        r
    }
}

/// The word that memory `mem` holds at word address `a`: absent words
/// read as erased.
pub open spec fn stored_word(mem: Map<u32, u16>, a: int) -> u16 {
    if 0 <= a < 0x1_0000_0000 && mem.contains_key(a as u32) {
        mem[a as u32]
    } else {
        F18877_ERASED_WORD
    }
}

/// The word addresses of the row at `base`.
pub open spec fn row_addresses(base: u32) -> Set<u32> {
    Set::new(|a: u32| base <= a < base + F18877_ROW_WORDS)
}

/// A freshly erased row buffer.
pub open spec fn erased_buffer() -> Seq<u8> {
    Seq::new(2 * F18877_ROW_WORDS as nat, |i: int| 0xffu8)
}

/// The 14-bit words of a row buffer, little-endian byte pairs, placed from
/// word address `base`.
pub open spec fn buffer_words(base: u32, row: Seq<u8>) -> Map<u32, u16> {
    Map::new(
        |a: u32| base <= a < base + row.len() / 2,
        |a: u32|
            ((row[2 * (a - base) + 1] * 256 + row[2 * (a - base)]) % 0x4000) as u16,
    )
}

/// The state of a fake programmer: its memory, its row buffers, the device
/// id it reports and whether verification is made to fail.
pub struct FakeState {
    pub memory: Map<u32, u16>,
    pub buffers: Map<u32, Seq<u8>>,
    pub target_id: u16,
    pub fail_verify: bool,
}

/// A fresh fake: erased memory, no row buffer, the PIC16F18877's id, and
/// verification that compares memory.
pub open spec fn fake_start() -> FakeState {
    FakeState {
        memory: Map::empty(),
        buffers: Map::empty(),
        target_id: F18877_DEVICE_ID,
        fail_verify: false,
    }
}

/// Message of the fake's refusal of addresses beyond the 32-bit word space.
pub open spec fn fake_range_message() -> Seq<char> {
    "fake address outside the word address space"@
}

/// What one command does to a fake's state.
pub open spec fn fake_step(s: FakeState, op: DeviceOp) -> FakeState {
    match op {
        DeviceOp::Configure { target_id, fail_verify } => FakeState {
            memory: s.memory,
            buffers: s.buffers,
            target_id,
            fail_verify,
        },
        DeviceOp::BeginFlash { .. } => FakeState {
            memory: s.memory,
            buffers: Map::empty(),
            target_id: s.target_id,
            fail_verify: s.fail_verify,
        },
        DeviceOp::EraseRow { base_word_address: b } => if b + F18877_ROW_WORDS > 0x1_0000_0000 {
            s
        } else {
            FakeState {
                memory: s.memory.remove_keys(row_addresses(b)),
                buffers: s.buffers.insert(b, erased_buffer()),
                target_id: s.target_id,
                fail_verify: s.fail_verify,
            }
        },
        DeviceOp::WriteChunk { base_word_address: b, offset_bytes: off, data } => match s.buffers.get(
            b,
        ) {
            None => s,
            Some(row) => if off + data.len() > row.len() {
                s
            } else {
                FakeState {
                    memory: s.memory,
                    buffers: s.buffers.insert(
                        b,
                        row.take(off as int) + data + row.skip(off + data.len()),
                    ),
                    target_id: s.target_id,
                    fail_verify: s.fail_verify,
                }
            },
        },
        DeviceOp::CommitRow { base_word_address: b } => FakeState {
            memory: match s.buffers.get(b) {
                None => s.memory,
                Some(row) => s.memory.union_prefer_right(buffer_words(b, row)),
            },
            buffers: s.buffers.remove(b),
            target_id: s.target_id,
            fail_verify: s.fail_verify,
        },
        _ => s,
    }
}

/// Whether `rep` is what a fake in state `s` replies to `op`.
pub open spec fn fake_reply_ok(s: FakeState, op: DeviceOp, rep: CallReply) -> bool {
    match op {
        DeviceOp::ReadTargetId => rep == CallReply::Id(s.target_id),
        DeviceOp::EraseRow { base_word_address: b } => if b + F18877_ROW_WORDS > 0x1_0000_0000 {
            rep matches CallReply::Failed(e) && is_device_error(e, fake_range_message())
        } else {
            rep == CallReply::Done
        },
        DeviceOp::WriteChunk { base_word_address: b, offset_bytes: off, data } => match s.buffers.get(
            b,
        ) {
            None => rep matches CallReply::Failed(e) && is_device_error(
                e,
                "fake row was not erased before write"@,
            ),
            Some(row) => if off + data.len() > row.len() {
                rep matches CallReply::Failed(e) && is_device_error(
                    e,
                    "fake row chunk exceeds row size"@,
                )
            } else {
                rep == CallReply::Done
            },
        },
        DeviceOp::CommitRow { base_word_address: b } => match s.buffers.get(b) {
            None => rep matches CallReply::Failed(e) && is_device_error(
                e,
                "fake row was not buffered"@,
            ),
            Some(_) => rep == CallReply::Done,
        },
        DeviceOp::VerifyRange { base_word_address: b, expected } => if !s.fail_verify && b
            + expected.len() <= 0x1_0000_0000 && fake_matches(s.memory, b, expected) {
            rep == CallReply::Done
        } else {
            rep matches CallReply::Failed(e) && is_device_error(e, fake_verify_message())
        },
        DeviceOp::ReadWords { base_word_address: b, word_count } => if b + word_count
            > 0x1_0000_0000 {
            rep matches CallReply::Failed(e) && is_device_error(e, fake_range_message())
        } else {
            rep == CallReply::Done
        },
        _ => rep == CallReply::Done,
    }
}

/// A fake's state after the commands `h`, from a fresh fake.
pub open spec fn fake_state(h: Seq<(DeviceOp, CallReply)>) -> FakeState
    decreases h.len(),
{
    if h.len() == 0 {
        fake_start()
    } else {
        fake_step(fake_state(h.drop_last()), h.last().0)
    }
}

/// Whether each command of `h` got the reply that a fake gives.
pub open spec fn fake_run(h: Seq<(DeviceOp, CallReply)>) -> bool
    decreases h.len(),
{
    h.len() == 0 || (fake_run(h.drop_last()) && fake_reply_ok(
        fake_state(h.drop_last()),
        h.last().0,
        h.last().1,
    ))
}

/// The events of the commands of `h`, settings changes left out.
pub open spec fn fake_events(h: Seq<(DeviceOp, CallReply)>) -> Seq<DeviceEvent>
    decreases h.len(),
{
    if h.len() == 0 {
        Seq::empty()
    } else {
        fake_events(h.drop_last()) + match event_of(h.last().0) {
            Some(e) => seq![e],
            None => Seq::empty(),
        }
    }
}

proof fn lemma_fake_push(h: Seq<(DeviceOp, CallReply)>, op: DeviceOp, rep: CallReply)
    requires
        fake_run(h),
        fake_reply_ok(fake_state(h), op, rep),
    ensures
        fake_run(h.push((op, rep))),
        fake_state(h.push((op, rep))) == fake_step(fake_state(h), op),
        event_of(op) matches Some(e) ==> fake_events(h.push((op, rep))) == fake_events(h).push(e),
        event_of(op) is None ==> fake_events(h.push((op, rep))) == fake_events(h),
{
    assert(h.push((op, rep)).drop_last() =~= h);
    match event_of(op) {
        Some(e) => {
            assert(fake_events(h) + seq![e] =~= fake_events(h).push(e));
        },
        None => {
            assert(fake_events(h) + Seq::<DeviceEvent>::empty() =~= fake_events(h));
        },
    }
}

impl FakeProgrammer {
    /// Every command got the reply that the fake's state gives, and the
    /// fake's fields are what its commands left.
    #[verifier::type_invariant]
    pub open spec fn well_formed(self) -> bool {
        &&& fake_run(self.history())
        &&& self.fields_agree()
    }

    /// The fields hold the state and the events of the command history.
    pub closed spec fn fields_agree(self) -> bool {
        let s = fake_state(self.log@);
        &&& self.memory@ == s.memory
        &&& self.row_buffers.view() == s.buffers
        &&& self.target_id == s.target_id
        &&& self.fail_verify == s.fail_verify
        &&& self.events@ == fake_events(self.log@)
    }

    /// The target's program memory.
    pub open spec fn memory_view(&self) -> Map<u32, u16> {
        fake_state(self.history()).memory
    }

    /// The row buffers, by base word address.
    pub open spec fn buffers_view(&self) -> Map<u32, Seq<u8>> {
        fake_state(self.history()).buffers
    }

    /// The commands received so far.
    pub open spec fn event_log(&self) -> Seq<DeviceEvent> {
        fake_events(self.history())
    }

    /// The device id that the target reports.
    pub open spec fn target_view(&self) -> u16 {
        fake_state(self.history()).target_id
    }

    /// Whether verification is made to fail.
    pub open spec fn fails_verify(&self) -> bool {
        fake_state(self.history()).fail_verify
    }

    /// What a probe reports.
    pub closed spec fn probe_view(&self) -> ProbeInfo {
        self.info
    }

    /// The commands received so far.
    pub fn events(&self) -> (r: &[DeviceEvent])
        ensures
            r@ == self.event_log(),
    {
        proof {
            use_type_invariant(self);
        }
        self.events.as_slice()
    }

    /// The target's program memory.
    pub fn memory(&self) -> (r: &BTreeMap<u32, u16>)
        ensures
            r@ == self.memory_view(),
    {
        proof {
            use_type_invariant(self);
        }
        &self.memory
    }

    fn placeholder() -> (r: Self) {
        let row_buffers = RowBuffers::new();
        FakeProgrammer {
            info: ProbeInfo {
                bridge_name: String::new(),
                protocol_version: 0,
                target_name: String::new(),
            },
            memory: BTreeMap::new(),
            row_buffers,
            events: Vec::new(),
            target_id: F18877_DEVICE_ID,
            fail_verify: false,
            log: Ghost(Seq::empty()),
        }
    }

    /// Makes verification fail (or succeed again); the change is recorded
    /// as a settings change.
    pub fn set_fail_verify(&mut self, fail_verify: bool)
        ensures
            final(self).history() == old(self).history().push(
                (
                    DeviceOp::Configure { target_id: old(self).target_view(), fail_verify },
                    CallReply::Done,
                ),
            ),
            final(self).fails_verify() == fail_verify,
            final(self).memory_view() == old(self).memory_view(),
            final(self).buffers_view() == old(self).buffers_view(),
            final(self).event_log() == old(self).event_log(),
            final(self).target_view() == old(self).target_view(),
            final(self).probe_view() == old(self).probe_view(),
    {
        proof {
            use_type_invariant(&*self);
        }
        let mut fake = Self::placeholder();
        std::mem::swap(self, &mut fake);
        let FakeProgrammer { info, memory, row_buffers, events, target_id, fail_verify: _, log } =
            fake;
        let ghost op = DeviceOp::Configure { target_id, fail_verify };
        proof {
            lemma_fake_push(log@, op, CallReply::Done);
        }
        *self = FakeProgrammer {
            info,
            memory,
            row_buffers,
            events,
            target_id,
            fail_verify,
            log: Ghost(log@.push((op, CallReply::Done))),
        };
    }

    /// Sets the device id that the target reports; the change is recorded
    /// as a settings change.
    pub fn set_target_id(&mut self, target_id: u16)
        ensures
            final(self).history() == old(self).history().push(
                (
                    DeviceOp::Configure { target_id, fail_verify: old(self).fails_verify() },
                    CallReply::Done,
                ),
            ),
            final(self).target_view() == target_id,
            final(self).memory_view() == old(self).memory_view(),
            final(self).buffers_view() == old(self).buffers_view(),
            final(self).event_log() == old(self).event_log(),
            final(self).fails_verify() == old(self).fails_verify(),
            final(self).probe_view() == old(self).probe_view(),
    {
        proof {
            use_type_invariant(&*self);
        }
        let mut fake = Self::placeholder();
        std::mem::swap(self, &mut fake);
        let FakeProgrammer { info, memory, row_buffers, events, target_id: _, fail_verify, log } =
            fake;
        let ghost op = DeviceOp::Configure { target_id, fail_verify };
        proof {
            lemma_fake_push(log@, op, CallReply::Done);
        }
        *self = FakeProgrammer {
            info,
            memory,
            row_buffers,
            events,
            target_id,
            fail_verify,
            log: Ghost(log@.push((op, CallReply::Done))),
        };
    }
}

fn copy_event(e: &DeviceEvent) -> (r: DeviceEvent)
    ensures
        r == *e,
{
    match e {
        DeviceEvent::Probe => DeviceEvent::Probe,
        DeviceEvent::ResetTarget => DeviceEvent::ResetTarget,
        DeviceEvent::ReadTargetId => DeviceEvent::ReadTargetId,
        DeviceEvent::BeginFlash { row_count } => DeviceEvent::BeginFlash { row_count: *row_count },
        DeviceEvent::EraseRow { base_word_address } => DeviceEvent::EraseRow {
            base_word_address: *base_word_address,
        },
        DeviceEvent::WriteChunk { base_word_address, offset_bytes, len } => DeviceEvent::WriteChunk {
            base_word_address: *base_word_address,
            offset_bytes: *offset_bytes,
            len: *len,
        },
        DeviceEvent::CommitRow { base_word_address } => DeviceEvent::CommitRow {
            base_word_address: *base_word_address,
        },
        DeviceEvent::VerifyRange { base_word_address, word_count } => DeviceEvent::VerifyRange {
            base_word_address: *base_word_address,
            word_count: *word_count,
        },
        DeviceEvent::ReadWords { base_word_address, word_count } => DeviceEvent::ReadWords {
            base_word_address: *base_word_address,
            word_count: *word_count,
        },
        DeviceEvent::RunTarget => DeviceEvent::RunTarget,
    }
}

impl Clone for FakeProgrammer {
    /// A fake with the same history, state and probe information.
    fn clone(&self) -> (r: Self)
        ensures
            r.history() == self.history(),
    {
        proof {
            use_type_invariant(self);
        }
        let mut events: Vec<DeviceEvent> = Vec::new();
        let mut i: usize = 0;
        while i < self.events.len()
            invariant
                i <= self.events@.len(),
                events@ == self.events@.take(i as int),
            decreases self.events@.len() - i,
        {
            events.push(copy_event(&self.events[i]));
            i = i + 1;
            assert(events@ =~= self.events@.take(i as int));
        }
        assert(self.events@.take(self.events@.len() as int) =~= self.events@);
        FakeProgrammer {
            info: self.info.clone(),
            memory: self.memory.clone(),
            row_buffers: self.row_buffers.clone(),
            events,
            target_id: self.target_id,
            fail_verify: self.fail_verify,
            log: Ghost(self.log@),
        }
    }
}

impl Default for FakeProgrammer {
    /// A fake PIC16F18877 behind a fake bridge (protocol version 2), with
    /// erased memory, no row buffer and no command received.
    fn default() -> (r: Self)
        ensures
            r.probe_view().bridge_name@ == "fake-programmer-bridge"@,
            r.probe_view().protocol_version == 2,
            r.probe_view().target_name@ == "fake-pic16f18877"@,
            r.history() == Seq::<(DeviceOp, CallReply)>::empty(),
            r.memory_view() == Map::<u32, u16>::empty(),
            r.buffers_view() == Map::<u32, Seq<u8>>::empty(),
            r.event_log() == Seq::<DeviceEvent>::empty(),
            r.target_view() == F18877_DEVICE_ID,
            !r.fails_verify(),
    {
        FakeProgrammer {
            info: ProbeInfo {
                bridge_name: String::from_str("fake-programmer-bridge"),
                protocol_version: 2,
                target_name: String::from_str("fake-pic16f18877"),
            },
            memory: BTreeMap::new(),
            row_buffers: RowBuffers::new(),
            events: Vec::new(),
            target_id: F18877_DEVICE_ID,
            fail_verify: false,
            log: Ghost(Seq::empty()),
        }
    }
}

} // verus!

verus! {

/// Message of the fake's verification failure.
pub open spec fn fake_verify_message() -> Seq<char> {
    "fake verify failed"@
}

/// The fake's memory holds the 14-bit value of each expected word.
pub open spec fn fake_matches(mem: Map<u32, u16>, base: u32, expected: Seq<u16>) -> bool {
    forall|i: int|
        0 <= i < expected.len() ==> #[trigger] stored_word(mem, base + i) == (expected[i]
            % 0x4000) as u16
}

fn erased_row_buffer() -> (v: Vec<u8>)
    ensures
        v@ == erased_buffer(),
{
    let mut v: Vec<u8> = Vec::new();
    let mut i: usize = 0;
    while i < 2 * F18877_ROW_WORDS
        invariant
            i <= 2 * F18877_ROW_WORDS,
            v@ == Seq::new(i as nat, |j: int| 0xffu8),
        decreases 2 * F18877_ROW_WORDS - i,
    {
        v.push(0xff);
        i = i + 1;
        assert(v@ =~= Seq::new(i as nat, |j: int| 0xffu8));
    }
    v
}

fn read_memory(memory: &BTreeMap<u32, u16>, a: u32) -> (w: u16)
    ensures
        w == stored_word(memory@, a as int),
{
    broadcast use vstd::std_specs::btree::group_btree_axioms;

    proof {
        crate::order::lemma_u32_laws();
    }
    match memory.get(&a) {
        Some(w) => *w,
        None => F18877_ERASED_WORD,
    }
}

fn remove_row(memory: &mut BTreeMap<u32, u16>, base_word_address: u32)
    requires
        base_word_address + F18877_ROW_WORDS <= 0x1_0000_0000,
    ensures
        final(memory)@ == old(memory)@.remove_keys(row_addresses(base_word_address)),
{
    broadcast use vstd::std_specs::btree::group_btree_axioms;

    proof {
        crate::order::lemma_u32_laws();
    }
    let ghost start = memory@;
    let mut index: usize = 0;
    while index < F18877_ROW_WORDS
        invariant
            index <= F18877_ROW_WORDS,
            base_word_address + F18877_ROW_WORDS <= 0x1_0000_0000,
            memory@ == start.remove_keys(
                Set::new(|a: u32| base_word_address <= a < base_word_address + index),
            ),
        decreases F18877_ROW_WORDS - index,
    {
        memory.remove(&(base_word_address + index as u32));
        index = index + 1;
        assert(memory@ =~= start.remove_keys(
            Set::new(|a: u32| base_word_address <= a < base_word_address + index),
        ));
    }
    assert(Set::new(|a: u32| base_word_address <= a < base_word_address + index) =~= row_addresses(
        base_word_address,
    ));
}

fn store_row(memory: &mut BTreeMap<u32, u16>, base_word_address: u32, row: &Vec<u8>)
    requires
        row@.len() == 2 * F18877_ROW_WORDS,
        base_word_address + F18877_ROW_WORDS <= 0x1_0000_0000,
    ensures
        final(memory)@ == old(memory)@.union_prefer_right(buffer_words(base_word_address, row@)),
{
    broadcast use vstd::std_specs::btree::group_btree_axioms;

    proof {
        crate::order::lemma_u32_laws();
    }
    let ghost start = memory@;
    let mut index: usize = 0;
    while index < F18877_ROW_WORDS
        invariant
            index <= F18877_ROW_WORDS,
            row@.len() == 2 * F18877_ROW_WORDS,
            base_word_address + F18877_ROW_WORDS <= 0x1_0000_0000,
            memory@ == start.union_prefer_right(
                buffer_words(base_word_address, row@).restrict(
                    Set::new(|a: u32| a < base_word_address + index),
                ),
            ),
        decreases F18877_ROW_WORDS - index,
    {
        let low = row[2 * index];
        let high = row[2 * index + 1];
        let word = ((high as u16) << 8u16) | (low as u16);
        let masked = word & F18877_ERASED_WORD;
        assert((((high as u16) << 8u16) | (low as u16)) & 0x3fffu16 == (high as u16 * 256
            + low as u16) % 0x4000) by (bit_vector);
        memory.insert(base_word_address + index as u32, masked);
        index = index + 1;
        assert(memory@ =~= start.union_prefer_right(
            buffer_words(base_word_address, row@).restrict(
                Set::new(|a: u32| a < base_word_address + index),
            ),
        ));
    }
    assert(buffer_words(base_word_address, row@).restrict(
        Set::new(|a: u32| a < base_word_address + index),
    ) =~= buffer_words(base_word_address, row@));
}

fn memory_matches(memory: &BTreeMap<u32, u16>, base_word_address: u32, expected: &[u16]) -> (b: bool)
    requires
        base_word_address + expected@.len() <= 0x1_0000_0000,
    ensures
        b == fake_matches(memory@, base_word_address, expected@),
{
    let mut index: usize = 0;
    while index < expected.len()
        invariant
            index <= expected@.len(),
            base_word_address + expected@.len() <= 0x1_0000_0000,
            forall|i: int|
                0 <= i < index ==> #[trigger] stored_word(memory@, base_word_address + i) == (
                expected@[i] % 0x4000) as u16,
        decreases expected@.len() - index,
    {
        let address = base_word_address + index as u32;
        let exp = expected[index];
        let want = exp & F18877_ERASED_WORD;
        assert(exp & 0x3fffu16 == exp % 0x4000) by (bit_vector);
        if read_memory(memory, address) != want {
            assert(stored_word(memory@, base_word_address + index) != (expected@[index as int]
                % 0x4000) as u16);
            return false;
        }
        index = index + 1;
    }
    true
}

fn read_range(memory: &BTreeMap<u32, u16>, base_word_address: u32, word_count: usize) -> (words:
    Vec<u16>)
    requires
        base_word_address + word_count <= 0x1_0000_0000,
    ensures
        words@ == Seq::new(
            word_count as nat,
            |i: int| stored_word(memory@, base_word_address + i),
        ),
{
    let mut words: Vec<u16> = Vec::new();
    let mut index: usize = 0;
    while index < word_count
        invariant
            index <= word_count,
            base_word_address + word_count <= 0x1_0000_0000,
            words@ == Seq::new(index as nat, |i: int| stored_word(memory@, base_word_address + i)),
        decreases word_count - index,
    {
        words.push(read_memory(memory, base_word_address + index as u32));
        index = index + 1;
        assert(words@ =~= Seq::new(
            index as nat,
            |i: int| stored_word(memory@, base_word_address + i),
        ));
    }
    words
}

impl ProgrammerDevice for FakeProgrammer {
    closed spec fn history(&self) -> Seq<(DeviceOp, CallReply)> {
        self.log@
    }

    /// Reports the fake bridge's probe information.
    fn probe(&mut self) -> (r: Result<ProbeInfo>)
        ensures
            r matches Ok(p) && p.bridge_name@ == old(self).probe_view().bridge_name@
                && p.protocol_version == old(self).probe_view().protocol_version
                && p.target_name@ == old(self).probe_view().target_name@,
            final(self).probe_view() == old(self).probe_view(),
    {
        proof {
            use_type_invariant(&*self);
        }
        let mut fake = Self::placeholder();
        std::mem::swap(self, &mut fake);
        let FakeProgrammer { info, memory, row_buffers, mut events, target_id, fail_verify, log } =
            fake;
        events.push(DeviceEvent::Probe);
        let r = Ok(
            ProbeInfo {
                bridge_name: info.bridge_name.clone(),
                protocol_version: info.protocol_version,
                target_name: info.target_name.clone(),
            },
        );
        let ghost op = DeviceOp::Probe;
        proof {
            lemma_fake_push(log@, op, reply_of(r));
        }
        *self = FakeProgrammer {
            info,
            memory,
            row_buffers,
            events,
            target_id,
            fail_verify,
            log: Ghost(log@.push((op, reply_of(r)))),
        };
        r
    }

    fn reset_target(&mut self) -> (r: Result<()>)
        ensures
            r is Ok,
            final(self).probe_view() == old(self).probe_view(),
    {
        proof {
            use_type_invariant(&*self);
        }
        let mut fake = Self::placeholder();
        std::mem::swap(self, &mut fake);
        let FakeProgrammer { info, memory, row_buffers, mut events, target_id, fail_verify, log } =
            fake;
        events.push(DeviceEvent::ResetTarget);
        let ghost op = DeviceOp::ResetTarget;
        proof {
            lemma_fake_push(log@, op, CallReply::Done);
        }
        *self = FakeProgrammer {
            info,
            memory,
            row_buffers,
            events,
            target_id,
            fail_verify,
            log: Ghost(log@.push((op, CallReply::Done))),
        };
        Ok(())
    }

    /// Reports the configured device id.
    fn read_target_id(&mut self) -> (r: Result<u16>)
        ensures
            r == Ok::<u16, Error>(old(self).target_view()),
            final(self).probe_view() == old(self).probe_view(),
    {
        proof {
            use_type_invariant(&*self);
        }
        let mut fake = Self::placeholder();
        std::mem::swap(self, &mut fake);
        let FakeProgrammer { info, memory, row_buffers, mut events, target_id, fail_verify, log } =
            fake;
        events.push(DeviceEvent::ReadTargetId);
        let ghost op = DeviceOp::ReadTargetId;
        proof {
            lemma_fake_push(log@, op, CallReply::Id(target_id));
        }
        *self = FakeProgrammer {
            info,
            memory,
            row_buffers,
            events,
            target_id,
            fail_verify,
            log: Ghost(log@.push((op, CallReply::Id(target_id)))),
        };
        Ok(target_id)
    }

    /// Starts a session: every row buffer is dropped.
    fn begin_flash(&mut self, row_count: u32) -> (r: Result<()>)
        ensures
            r is Ok,
            final(self).probe_view() == old(self).probe_view(),
    {
        proof {
            use_type_invariant(&*self);
        }
        let mut fake = Self::placeholder();
        std::mem::swap(self, &mut fake);
        let FakeProgrammer {
            info,
            memory,
            mut row_buffers,
            mut events,
            target_id,
            fail_verify,
            log,
        } = fake;
        events.push(DeviceEvent::BeginFlash { row_count });
        row_buffers.clear();
        let ghost op = DeviceOp::BeginFlash { row_count };
        proof {
            lemma_fake_push(log@, op, CallReply::Done);
        }
        *self = FakeProgrammer {
            info,
            memory,
            row_buffers,
            events,
            target_id,
            fail_verify,
            log: Ghost(log@.push((op, CallReply::Done))),
        };
        Ok(())
    }

    /// Erases the row's words from memory and gives it a buffer of 64
    /// `0xff` bytes; a row reaching beyond the 32-bit word space is refused.
    fn erase_row(&mut self, base_word_address: u32) -> (r: Result<()>)
        ensures
            base_word_address + F18877_ROW_WORDS > 0x1_0000_0000 ==> (r matches Err(e)
                && is_device_error(e, fake_range_message())),
            base_word_address + F18877_ROW_WORDS <= 0x1_0000_0000 ==> r is Ok,
            final(self).probe_view() == old(self).probe_view(),
    {
        proof {
            use_type_invariant(&*self);
            crate::order::lemma_u32_laws();
        }
        let mut fake = Self::placeholder();
        std::mem::swap(self, &mut fake);
        let FakeProgrammer {
            info,
            mut memory,
            mut row_buffers,
            mut events,
            target_id,
            fail_verify,
            log,
        } = fake;
        events.push(DeviceEvent::EraseRow { base_word_address });
        let r = if base_word_address > 0xffff_ffff - 31 {
            Err(Error::Device(String::from_str("fake address outside the word address space")))
        } else {
            remove_row(&mut memory, base_word_address);
            row_buffers.put(base_word_address, erased_row_buffer());
            Ok(())
        };
        let ghost op = DeviceOp::EraseRow { base_word_address };
        proof {
            lemma_fake_push(log@, op, reply_of(r));
        }
        *self = FakeProgrammer {
            info,
            memory,
            row_buffers,
            events,
            target_id,
            fail_verify,
            log: Ghost(log@.push((op, reply_of(r)))),
        };
        r
    }

    /// Copies `data` into the row's buffer from byte `offset_bytes`; the row
    /// must have been erased and the data must fit in its 64 bytes.
    fn write_chunk(&mut self, base_word_address: u32, offset_bytes: u8, data: &[u8]) -> (r: Result<
        (),
    >)
        ensures
            forall|b: u32| #[trigger]
                old(self).buffers_view().contains_key(b) ==> old(self).buffers_view()[b].len() == 2
                    * F18877_ROW_WORDS,
            match old(self).buffers_view().get(base_word_address) {
                None => r matches Err(e) && is_device_error(
                    e,
                    "fake row was not erased before write"@,
                ),
                Some(row) => if offset_bytes + data@.len() > row.len() {
                    r matches Err(e) && is_device_error(e, "fake row chunk exceeds row size"@)
                } else {
                    r is Ok
                },
            },
            final(self).probe_view() == old(self).probe_view(),
    {
        proof {
            use_type_invariant(&*self);
            use_type_invariant(&self.row_buffers);
            crate::order::lemma_u32_laws();
        }
        let mut fake = Self::placeholder();
        std::mem::swap(self, &mut fake);
        let FakeProgrammer {
            info,
            memory,
            mut row_buffers,
            mut events,
            target_id,
            fail_verify,
            log,
        } = fake;
        events.push(
            DeviceEvent::WriteChunk { base_word_address, offset_bytes, len: data.len() },
        );
        let ghost bufs = row_buffers.view();
        let r = match row_buffers.take(base_word_address) {
            None => {
                assert(row_buffers.view() =~= bufs);
                Err(Error::Device(String::from_str("fake row was not erased before write")))
            },
            Some(mut row) => {
                let start = offset_bytes as usize;
                if data.len() > row.len() || start > row.len() - data.len() {
                    row_buffers.put(base_word_address, row);
                    assert(row_buffers.view() =~= bufs);
                    Err(Error::Device(String::from_str("fake row chunk exceeds row size")))
                } else {
                    let ghost before = row@;
                    let mut i: usize = 0;
                    while i < data.len()
                        invariant
                            i <= data@.len(),
                            start + data.len() <= row.len(),
                            before.len() == row@.len(),
                            row@ == before.take(start as int) + data@.take(i as int) + before.skip(
                                start + i,
                            ),
                        decreases data@.len() - i,
                    {
                        row.set(start + i, data[i]);
                        i = i + 1;
                        assert(row@ =~= before.take(start as int) + data@.take(i as int)
                            + before.skip(start + i));
                    }
                    assert(data@.take(data@.len() as int) =~= data@);
                    row_buffers.put(base_word_address, row);
                    assert(row_buffers.view() =~= bufs.insert(
                        base_word_address,
                        before.take(start as int) + data@ + before.skip(start + data@.len()),
                    ));
                    Ok(())
                }
            },
        };
        let ghost op = DeviceOp::WriteChunk { base_word_address, offset_bytes, data: data@ };
        proof {
            lemma_fake_push(log@, op, reply_of(r));
        }
        *self = FakeProgrammer {
            info,
            memory,
            row_buffers,
            events,
            target_id,
            fail_verify,
            log: Ghost(log@.push((op, reply_of(r)))),
        };
        r
    }

    /// Moves the row's buffer into memory as 14-bit words; the row must
    /// have a buffer.
    fn commit_row(&mut self, base_word_address: u32) -> (r: Result<()>)
        ensures
            match old(self).buffers_view().get(base_word_address) {
                None => r matches Err(e) && is_device_error(e, "fake row was not buffered"@),
                Some(row) => r is Ok,
            },
            final(self).probe_view() == old(self).probe_view(),
    {
        proof {
            use_type_invariant(&*self);
            crate::order::lemma_u32_laws();
        }
        let mut fake = Self::placeholder();
        std::mem::swap(self, &mut fake);
        let FakeProgrammer {
            info,
            mut memory,
            mut row_buffers,
            mut events,
            target_id,
            fail_verify,
            log,
        } = fake;
        events.push(DeviceEvent::CommitRow { base_word_address });
        let ghost bufs = row_buffers.view();
        let r = match row_buffers.take(base_word_address) {
            None => {
                assert(row_buffers.view() =~= bufs.remove(base_word_address));
                Err(Error::Device(String::from_str("fake row was not buffered")))
            },
            Some(row) => {
                store_row(&mut memory, base_word_address, &row);
                Ok(())
            },
        };
        let ghost op = DeviceOp::CommitRow { base_word_address };
        proof {
            lemma_fake_push(log@, op, reply_of(r));
        }
        *self = FakeProgrammer {
            info,
            memory,
            row_buffers,
            events,
            target_id,
            fail_verify,
            log: Ghost(log@.push((op, reply_of(r)))),
        };
        r
    }

    /// Compares each expected word's 14-bit value with memory, unless
    /// verification is made to fail; a range reaching beyond the 32-bit
    /// word space does not match.
    fn verify_range(&mut self, base_word_address: u32, expected: &[u16]) -> (r: Result<()>)
        ensures
            r is Ok <==> !old(self).fails_verify() && base_word_address + expected@.len()
                <= 0x1_0000_0000 && fake_matches(
                old(self).memory_view(),
                base_word_address,
                expected@,
            ),
            r matches Err(e) ==> is_device_error(e, fake_verify_message()),
            final(self).probe_view() == old(self).probe_view(),
    {
        proof {
            use_type_invariant(&*self);
        }
        let mut fake = Self::placeholder();
        std::mem::swap(self, &mut fake);
        let FakeProgrammer { info, memory, row_buffers, mut events, target_id, fail_verify, log } =
            fake;
        events.push(
            DeviceEvent::VerifyRange { base_word_address, word_count: expected.len() },
        );
        let r = if fail_verify || expected.len() as u64 > (0xffff_ffff - base_word_address) as u64 + 1
            || !memory_matches(&memory, base_word_address, expected) {
            Err(Error::Device(String::from_str("fake verify failed")))
        } else {
            Ok(())
        };
        let ghost op = DeviceOp::VerifyRange { base_word_address, expected: expected@ };
        proof {
            lemma_fake_push(log@, op, reply_of(r));
        }
        *self = FakeProgrammer {
            info,
            memory,
            row_buffers,
            events,
            target_id,
            fail_verify,
            log: Ghost(log@.push((op, reply_of(r)))),
        };
        r
    }

    /// Reads words from memory; an absent word reads as erased, and a range
    /// reaching beyond the 32-bit word space is refused.
    fn read_words(&mut self, base_word_address: u32, word_count: usize) -> (r: Result<Vec<u16>>)
        ensures
            base_word_address + word_count > 0x1_0000_0000 ==> (r matches Err(e)
                && is_device_error(e, fake_range_message())),
            base_word_address + word_count <= 0x1_0000_0000 ==> (r matches Ok(words) && words@
                == Seq::new(
                word_count as nat,
                |i: int| stored_word(old(self).memory_view(), base_word_address + i),
            )),
            final(self).probe_view() == old(self).probe_view(),
    {
        proof {
            use_type_invariant(&*self);
        }
        let mut fake = Self::placeholder();
        std::mem::swap(self, &mut fake);
        let FakeProgrammer { info, memory, row_buffers, mut events, target_id, fail_verify, log } =
            fake;
        events.push(DeviceEvent::ReadWords { base_word_address, word_count });
        let r = if word_count as u64 > (0xffff_ffff - base_word_address) as u64 + 1 {
            Err(Error::Device(String::from_str("fake address outside the word address space")))
        } else {
            Ok(read_range(&memory, base_word_address, word_count))
        };
        let ghost op = DeviceOp::ReadWords { base_word_address, word_count };
        proof {
            lemma_fake_push(log@, op, reply_of(r));
        }
        *self = FakeProgrammer {
            info,
            memory,
            row_buffers,
            events,
            target_id,
            fail_verify,
            log: Ghost(log@.push((op, reply_of(r)))),
        };
        r
    }

    fn run_target(&mut self) -> (r: Result<()>)
        ensures
            r is Ok,
            final(self).probe_view() == old(self).probe_view(),
    {
        proof {
            use_type_invariant(&*self);
        }
        let mut fake = Self::placeholder();
        std::mem::swap(self, &mut fake);
        let FakeProgrammer { info, memory, row_buffers, mut events, target_id, fail_verify, log } =
            fake;
        events.push(DeviceEvent::RunTarget);
        let ghost op = DeviceOp::RunTarget;
        proof {
            lemma_fake_push(log@, op, CallReply::Done);
        }
        *self = FakeProgrammer {
            info,
            memory,
            row_buffers,
            events,
            target_id,
            fail_verify,
            log: Ghost(log@.push((op, CallReply::Done))),
        };
        Ok(())
    }
}

} // verus!

verus! {

/// A row erased, written with its packed bytes in the two chunks that
/// `flash_image` sends (48 bytes at offset 0, 16 at offset 48) and
/// committed, reads back as the 14-bit value of each word, so that verifying
/// the row against its words succeeds.
pub proof fn lemma_fake_row_round_trip(mem: Map<u32, u16>, base: u32, words: Seq<u16>)
    requires
        words.len() == F18877_ROW_WORDS,
        base + F18877_ROW_WORDS <= 0x1_0000_0000,
    ensures
        ({
            let p = packed(words);
            let erased = erased_buffer();
            let first = erased.take(0) + p.subrange(0, 48) + erased.skip(48);
            let second = first.take(48) + p.subrange(48, 64) + first.skip(64);
            let after = mem.remove_keys(row_addresses(base)).union_prefer_right(
                buffer_words(base, second),
            );
            &&& second == p
            &&& forall|i: int|
                0 <= i < F18877_ROW_WORDS ==> #[trigger] stored_word(after, base + i) == word14(
                    words[i],
                )
            &&& fake_matches(after, base, words)
        }),
{
    let p = packed(words);
    let erased = erased_buffer();
    let first = erased.take(0) + p.subrange(0, 48) + erased.skip(48);
    let second = first.take(48) + p.subrange(48, 64) + first.skip(64);
    assert(second =~= p);
    let after = mem.remove_keys(row_addresses(base)).union_prefer_right(buffer_words(base, second));
    assert forall|i: int| 0 <= i < F18877_ROW_WORDS implies #[trigger] stored_word(after, base + i)
        == word14(words[i]) by {
        lemma_packed_pairs(words, i);
        let a = (base + i) as u32;
        assert(buffer_words(base, second).contains_key(a));
        assert(a - base == i);
    }
    assert forall|i: int| 0 <= i < words.len() implies #[trigger] stored_word(after, base + i) == (
    words[i] % 0x4000) as u16 by {
        assert(stored_word(after, base + i) == word14(words[i]));
    }
}

} // verus!

verus! {

/// A fake's state after the commands `ops`, from state `s`.
pub open spec fn replay_ops(s: FakeState, ops: Seq<DeviceOp>) -> FakeState
    decreases ops.len(),
{
    if ops.len() == 0 {
        s
    } else {
        fake_step(replay_ops(s, ops.drop_last()), ops.last())
    }
}

/// The commands of a history.
pub open spec fn ops_of(h: Seq<(DeviceOp, CallReply)>) -> Seq<DeviceOp> {
    h.map_values(|c: (DeviceOp, CallReply)| c.0)
}

/// The events of commands, settings changes left out.
pub open spec fn op_events(ops: Seq<DeviceOp>) -> Seq<DeviceEvent>
    decreases ops.len(),
{
    if ops.len() == 0 {
        Seq::empty()
    } else {
        op_events(ops.drop_last()) + match event_of(ops.last()) {
            Some(e) => seq![e],
            None => Seq::empty(),
        }
    }
}

/// Whether a fake in state `s` replies to `op` with a reply that passes.
pub open spec fn fake_passes(s: FakeState, op: DeviceOp) -> bool {
    match op {
        DeviceOp::ReadTargetId => s.target_id == F18877_DEVICE_ID,
        DeviceOp::EraseRow { base_word_address: b } => b + F18877_ROW_WORDS <= 0x1_0000_0000,
        DeviceOp::WriteChunk { base_word_address: b, offset_bytes: off, data } => match s.buffers.get(
            b,
        ) {
            None => false,
            Some(row) => off + data.len() <= row.len(),
        },
        DeviceOp::CommitRow { base_word_address: b } => s.buffers.contains_key(b),
        DeviceOp::VerifyRange { base_word_address: b, expected } => !s.fail_verify && b
            + expected.len() <= 0x1_0000_0000 && fake_matches(s.memory, b, expected),
        DeviceOp::ReadWords { base_word_address: b, word_count } => b + word_count
            <= 0x1_0000_0000,
        _ => true,
    }
}

/// Every command of `ops`, run from `s`, gets a passing reply.
pub open spec fn all_pass(s: FakeState, ops: Seq<DeviceOp>) -> bool {
    forall|i: int| 0 <= i < ops.len() ==> #[trigger] fake_passes(replay_ops(s, ops.take(i)), ops[i])
}

proof fn lemma_replay_step(s: FakeState, ops: Seq<DeviceOp>, k: int)
    requires
        0 <= k < ops.len(),
    ensures
        replay_ops(s, ops.take(k + 1)) == fake_step(replay_ops(s, ops.take(k)), ops[k]),
{
    assert(ops.take(k + 1).drop_last() =~= ops.take(k));
}

proof fn lemma_replay_concat(s: FakeState, a: Seq<DeviceOp>, b: Seq<DeviceOp>)
    ensures
        replay_ops(s, a + b) == replay_ops(replay_ops(s, a), b),
        op_events(a + b) == op_events(a) + op_events(b),
    decreases b.len(),
{
    if b.len() == 0 {
        assert(a + b =~= a);
        assert(op_events(a) + op_events(b) =~= op_events(a));
    } else {
        assert((a + b).drop_last() =~= a + b.drop_last());
        lemma_replay_concat(s, a, b.drop_last());
        let tail = match event_of(b.last()) {
            Some(e) => seq![e],
            None => Seq::<DeviceEvent>::empty(),
        };
        assert(op_events(a) + op_events(b.drop_last()) + tail =~= op_events(a) + (op_events(
            b.drop_last(),
        ) + tail));
    }
}

proof fn lemma_all_pass_concat(s: FakeState, a: Seq<DeviceOp>, b: Seq<DeviceOp>)
    requires
        all_pass(s, a),
        all_pass(replay_ops(s, a), b),
    ensures
        all_pass(s, a + b),
{
    assert forall|i: int| 0 <= i < (a + b).len() implies #[trigger] fake_passes(
        replay_ops(s, (a + b).take(i)),
        (a + b)[i],
    ) by {
        if i < a.len() {
            assert((a + b).take(i) =~= a.take(i));
        } else {
            assert((a + b).take(i) =~= a + b.take(i - a.len()));
            lemma_replay_concat(s, a, b.take(i - a.len()));
            assert(fake_passes(replay_ops(replay_ops(s, a), b.take(i - a.len())), b[i - a.len()]));
        }
    }
}

/// A history extended by commands: the state and the events move by the
/// commands, and each added command got the reply the fake gives.
proof fn lemma_fake_split(h: Seq<(DeviceOp, CallReply)>, c: Seq<(DeviceOp, CallReply)>)
    requires
        fake_run(h + c),
    ensures
        fake_state(h + c) == replay_ops(fake_state(h), ops_of(c)),
        fake_events(h + c) == fake_events(h) + op_events(ops_of(c)),
        forall|i: int|
            0 <= i < c.len() ==> fake_reply_ok(
                replay_ops(fake_state(h), ops_of(c).take(i)),
                c[i].0,
                #[trigger] c[i].1,
            ),
    decreases c.len(),
{
    if c.len() == 0 {
        assert(h + c =~= h);
        assert(ops_of(c) =~= Seq::<DeviceOp>::empty());
        assert(fake_events(h) + Seq::<DeviceEvent>::empty() =~= fake_events(h));
    } else {
        let c2 = c.drop_last();
        assert((h + c).drop_last() =~= h + c2);
        assert(ops_of(c2) =~= ops_of(c).drop_last());
        lemma_fake_split(h, c2);
        assert(ops_of(c).last() == c.last().0);
        let tail = match event_of(c.last().0) {
            Some(e) => seq![e],
            None => Seq::<DeviceEvent>::empty(),
        };
        assert(fake_events(h) + op_events(ops_of(c2)) + tail =~= fake_events(h) + (op_events(
            ops_of(c2),
        ) + tail));
        assert forall|i: int| 0 <= i < c.len() implies fake_reply_ok(
            replay_ops(fake_state(h), ops_of(c).take(i)),
            c[i].0,
            #[trigger] c[i].1,
        ) by {
            if i < c2.len() {
                assert(ops_of(c).take(i) =~= ops_of(c2).take(i));
                assert(c[i] == c2[i]);
            } else {
                assert(ops_of(c).take(i) =~= ops_of(c2));
            }
        }
    }
}

proof fn lemma_reply_passes(s: FakeState, op: DeviceOp, rep: CallReply)
    requires
        fake_reply_ok(s, op, rep),
    ensures
        passes(rep) == fake_passes(s, op),
{
}

/// Programming one planned row on a fake: every command passes, and the
/// row's 14-bit words land in memory.
proof fn lemma_fake_row(s: FakeState, row: FlashRow)
    requires
        row.words@.len() == F18877_ROW_WORDS,
        row.base_word_address + F18877_ROW_WORDS <= 0x1_0000_0000,
    ensures
        row_ops(row).len() == 5,
        forall|i: int|
            0 <= i < 4 ==> #[trigger] fake_passes(replay_ops(s, row_ops(row).take(i)), row_ops(row)[i]),
        !s.fail_verify ==> all_pass(s, row_ops(row)),
        s.fail_verify ==> !fake_passes(replay_ops(s, row_ops(row).take(4)), row_ops(row)[4]),
        row_ops(row)[4] is VerifyRange,
        replay_ops(s, row_ops(row)) == (FakeState {
            memory: s.memory.union_prefer_right(row_word_map(row)),
            buffers: s.buffers.remove(row.base_word_address),
            target_id: s.target_id,
            fail_verify: s.fail_verify,
        }),
{
    let ops = row_ops(row);
    let b = row.base_word_address;
    let words = row.words@;
    let p = packed(words);
    lemma_row_ops_shape(row);
    assert(chunk_count(64) == 2);
    assert(sent_chunks(64) == 2);
    assert(chunk_end(64, 0) == 48);
    assert(chunk_end(64, 1) == 64);
    assert(ops.len() == 5);
    assert(ops.take(0) =~= Seq::<DeviceOp>::empty());
    lemma_replay_step(s, ops, 0);
    lemma_replay_step(s, ops, 1);
    lemma_replay_step(s, ops, 2);
    lemma_replay_step(s, ops, 3);
    lemma_replay_step(s, ops, 4);
    lemma_fake_row_round_trip(s.memory, b, words);
    let erased = erased_buffer();
    let first = erased.take(0) + p.subrange(0, 48) + erased.skip(48);
    let second = first.take(48) + p.subrange(48, 64) + first.skip(64);
    let s1 = replay_ops(s, ops.take(1));
    let s2 = replay_ops(s, ops.take(2));
    let s3 = replay_ops(s, ops.take(3));
    let s4 = replay_ops(s, ops.take(4));
    assert(s1.buffers == s.buffers.insert(b, erased));
    assert(s1.memory == s.memory.remove_keys(row_addresses(b)));
    assert(ops[1] == DeviceOp::WriteChunk {
        base_word_address: b,
        offset_bytes: 0,
        data: p.subrange(0, 48),
    });
    assert(s2.buffers == s.buffers.insert(b, erased).insert(b, first));
    assert(first.len() == 64);
    assert(ops[2] == DeviceOp::WriteChunk {
        base_word_address: b,
        offset_bytes: 48,
        data: p.subrange(48, 64),
    });
    assert(s3.buffers == s2.buffers.insert(b, second));
    assert(s3.memory == s1.memory);
    assert(s4.memory == s1.memory.union_prefer_right(buffer_words(b, second)));
    assert(s4.buffers == s3.buffers.remove(b));
    assert forall|i: int| 0 <= i < 4 implies #[trigger] fake_passes(
        replay_ops(s, ops.take(i)),
        ops[i],
    ) by {
        if i == 0 {
        } else if i == 1 {
        } else if i == 2 {
        } else {
        }
    }
    if !s.fail_verify {
        assert forall|i: int| 0 <= i < ops.len() implies #[trigger] fake_passes(
            replay_ops(s, ops.take(i)),
            ops[i],
        ) by {
            if i == 4 {
            }
        }
    }
    assert(ops.take(5) =~= ops);
    assert(buffer_words(b, second) =~= row_word_map(row)) by {
        assert forall|a: u32| #[trigger] buffer_words(b, second).contains_key(a) implies buffer_words(
            b,
            second,
        )[a] == row_word_map(row)[a] by {
            lemma_packed_pairs(words, a - b);
        }
    }
    assert(s4.memory =~= s.memory.union_prefer_right(row_word_map(row)));
    assert(s4.buffers =~= s.buffers.remove(b));
}

proof fn lemma_fake_rows(s: FakeState, rows: Seq<FlashRow>, image: Map<u32, u8>, j: int)
    requires
        plan_rows(rows, image, F18877_ROW_WORDS as nat, F18877_ERASED_WORD),
        plan_error(image, F18877_ROW_WORDS as nat) is None,
        0 <= j <= rows.len(),
        !s.fail_verify,
    ensures
        all_pass(s, rows_ops(rows.take(j))),
        replay_ops(s, rows_ops(rows.take(j))).memory == s.memory.union_prefer_right(
            verify_map(rows.take(j)),
        ),
        replay_ops(s, rows_ops(rows.take(j))).target_id == s.target_id,
        replay_ops(s, rows_ops(rows.take(j))).fail_verify == s.fail_verify,
    decreases j,
{
    if j == 0 {
        assert(rows.take(0) =~= Seq::<FlashRow>::empty());
        assert(rows_ops(rows.take(0)) =~= Seq::<DeviceOp>::empty());
        assert(s.memory.union_prefer_right(verify_map(rows.take(0))) =~= s.memory);
    } else {
        lemma_fake_rows(s, rows, image, j - 1);
        lemma_rows_ops_step(rows, j - 1);
        lemma_plan_rows_in_flash(rows, image, j - 1);
        let before = rows_ops(rows.take(j - 1));
        let s1 = replay_ops(s, before);
        lemma_fake_row(s1, rows[j - 1]);
        assert(all_pass(s1, row_ops(rows[j - 1])));
        lemma_replay_concat(s, before, row_ops(rows[j - 1]));
        lemma_all_pass_concat(s, before, row_ops(rows[j - 1]));
        assert(rows.take(j).drop_last() =~= rows.take(j - 1));
        assert(rows.take(j).last() == rows[j - 1]);
        assert(verify_map(rows.take(j)) == verify_map(rows.take(j - 1)).union_prefer_right(
            row_word_map(rows[j - 1]),
        ));
        assert(s.memory.union_prefer_right(verify_map(rows.take(j - 1))).union_prefer_right(
            row_word_map(rows[j - 1]),
        ) =~= s.memory.union_prefer_right(verify_map(rows.take(j))));
    }
}

/// Flashing a planned image on a fake that reports the PIC16F18877's id
/// and does not fail verification: every command passes, so the flash
/// succeeds; the fake records the flash's events, and its memory then holds
/// every planned 14-bit word over what it held before.
pub proof fn lemma_fake_flash(
    before: Seq<(DeviceOp, CallReply)>,
    after: Seq<(DeviceOp, CallReply)>,
    rows: Seq<FlashRow>,
    image: Map<u32, u8>,
    r: Result<FlashPlan>,
)
    requires
        fake_run(after),
        plan_rows(rows, image, F18877_ROW_WORDS as nat, F18877_ERASED_WORD),
        plan_error(image, F18877_ROW_WORDS as nat) is None,
        run_outcome(before, after, flash_ops(rows), r),
        fake_state(before).target_id == F18877_DEVICE_ID,
        !fake_state(before).fail_verify,
    ensures
        r is Ok,
        ops_of(after.skip(before.len() as int)) == flash_ops(rows),
        fake_events(after) == fake_events(before) + op_events(flash_ops(rows)),
        fake_state(after).memory == fake_state(before).memory.union_prefer_right(verify_map(rows)),
{
    let planned = flash_ops(rows);
    let s0 = fake_state(before);
    let n = rows.len() as u32;
    let head = session_ops(n);
    let ro = rows_ops(rows);
    let tail = seq![DeviceOp::RunTarget];
    // The session's commands pass and leave memory and settings as they were.
    assert forall|i: int| 0 <= i < head.len() implies #[trigger] fake_passes(
        replay_ops(s0, head.take(i)),
        head[i],
    ) by {
        if i >= 1 {
            lemma_replay_step(s0, head, 0);
        }
        if i >= 2 {
            lemma_replay_step(s0, head, 1);
        }
        assert(head.take(0) =~= Seq::<DeviceOp>::empty());
    }
    lemma_replay_step(s0, head, 0);
    lemma_replay_step(s0, head, 1);
    lemma_replay_step(s0, head, 2);
    lemma_replay_step(s0, head, 3);
    assert(head.take(0) =~= Seq::<DeviceOp>::empty());
    assert(head.take(4) =~= head);
    let s1 = replay_ops(s0, head);
    assert(s1.memory == s0.memory && s1.target_id == s0.target_id && !s1.fail_verify);
    assert(rows.take(rows.len() as int) =~= rows);
    lemma_fake_rows(s1, rows, image, rows.len() as int);
    let s2 = replay_ops(s1, ro);
    assert(all_pass(s2, tail)) by {
        assert forall|i: int| 0 <= i < tail.len() implies #[trigger] fake_passes(
            replay_ops(s2, tail.take(i)),
            tail[i],
        ) by {}
    }
    lemma_all_pass_concat(s0, head, ro);
    lemma_replay_concat(s0, head, ro);
    lemma_all_pass_concat(s0, head + ro, tail);
    lemma_replay_concat(s0, head + ro, tail);
    assert(planned == head + ro + tail);
    assert(tail.drop_last() =~= Seq::<DeviceOp>::empty());
    assert(replay_ops(s2, Seq::<DeviceOp>::empty()) == s2);
    assert(replay_ops(s2, tail) == fake_step(s2, DeviceOp::RunTarget));
    // The recorded commands are a prefix of the plan, each with a passing reply.
    let c = after.skip(before.len() as int);
    assert(after =~= before + c);
    lemma_fake_split(before, c);
    assert forall|i: int| 0 <= i < c.len() implies passes(#[trigger] c[i].1) by {
        assert(after[before.len() + i] == c[i]);
        assert(c[i].0 == planned[i]);
        assert(ops_of(c).take(i) =~= planned.take(i)) by {
            assert forall|k: int| 0 <= k < i implies ops_of(c)[k] == planned[k] by {
                assert(after[before.len() + k] == c[k]);
            }
        }
        lemma_reply_passes(replay_ops(s0, planned.take(i)), planned[i], c[i].1);
    }
    if r is Err {
        assert(after.last() == c[c.len() - 1]);
        assert(passes(c[c.len() - 1].1));
    }
    assert(c.len() == planned.len());
    assert(ops_of(c) =~= planned) by {
        assert forall|k: int| 0 <= k < planned.len() implies ops_of(c)[k] == planned[k] by {
            assert(after[before.len() + k] == c[k]);
        }
    }
}

/// A flash on a fake that reports another device id stops after reading
/// it, with the device-id error: the fake records a probe, a reset and the
/// id read, and its memory is unchanged.
pub proof fn lemma_fake_flash_wrong_target(
    before: Seq<(DeviceOp, CallReply)>,
    after: Seq<(DeviceOp, CallReply)>,
    rows: Seq<FlashRow>,
    r: Result<FlashPlan>,
)
    requires
        fake_run(after),
        run_outcome(before, after, flash_ops(rows), r),
        fake_state(before).target_id != F18877_DEVICE_ID,
    ensures
        r matches Err(e) && is_device_error(e, target_id_message(fake_state(before).target_id)),
        fake_events(after) == fake_events(before) + seq![
            DeviceEvent::Probe,
            DeviceEvent::ResetTarget,
            DeviceEvent::ReadTargetId,
        ],
        fake_state(after).memory == fake_state(before).memory,
{
    let planned = flash_ops(rows);
    let s0 = fake_state(before);
    let c = after.skip(before.len() as int);
    assert(after =~= before + c);
    lemma_fake_split(before, c);
    let head = session_ops(rows.len() as u32);
    assert(planned[0] == DeviceOp::Probe && planned[1] == DeviceOp::ResetTarget && planned[2]
        == DeviceOp::ReadTargetId);
    assert forall|k: int| 0 <= k < c.len() implies (#[trigger] c[k]).0 == planned[k] by {
        assert(after[before.len() + k] == c[k]);
    }
    assert(planned.take(0) =~= Seq::<DeviceOp>::empty());
    lemma_replay_step(s0, planned, 0);
    lemma_replay_step(s0, planned, 1);
    lemma_replay_step(s0, planned, 2);
    assert forall|i: int| 0 <= i <= c.len() implies #[trigger] ops_of(c).take(i) == planned.take(
        i,
    ) by {
        assert(ops_of(c).take(i) =~= planned.take(i));
    }
    if c.len() >= 1 {
        assert(ops_of(c).take(0) == planned.take(0));
        lemma_reply_passes(replay_ops(s0, planned.take(0)), planned[0], c[0].1);
    }
    if c.len() >= 2 {
        assert(ops_of(c).take(1) == planned.take(1));
        lemma_reply_passes(replay_ops(s0, planned.take(1)), planned[1], c[1].1);
    }
    if c.len() >= 3 {
        assert(ops_of(c).take(2) == planned.take(2));
        assert(c[2].1 == CallReply::Id(s0.target_id));
        assert(!passes(c[2].1));
        if c.len() > 3 {
            assert(after[before.len() + 2int] == c[2]);
            assert(passes(after[before.len() + 2int].1));
        }
    }
    if c.len() < 3 {
        assert(!completed(before, after, planned));
        if r is Err {
            assert(after.last() == c[c.len() - 1]);
        }
    }
    assert(c.len() == 3);
    assert(after.last() == c[2]);
    assert(ops_of(c) =~= seq![DeviceOp::Probe, DeviceOp::ResetTarget, DeviceOp::ReadTargetId]);
    lemma_session_prefix_events(s0);
}

proof fn lemma_session_prefix_events(s0: FakeState)
    ensures
        op_events(seq![DeviceOp::Probe, DeviceOp::ResetTarget, DeviceOp::ReadTargetId]) == seq![
            DeviceEvent::Probe,
            DeviceEvent::ResetTarget,
            DeviceEvent::ReadTargetId,
        ],
        replay_ops(s0, seq![DeviceOp::Probe, DeviceOp::ResetTarget, DeviceOp::ReadTargetId]) == s0,
{
    let e = Seq::<DeviceOp>::empty();
    let o1 = e.push(DeviceOp::Probe);
    let o2 = o1.push(DeviceOp::ResetTarget);
    let o3 = o2.push(DeviceOp::ReadTargetId);
    assert(o3 =~= seq![DeviceOp::Probe, DeviceOp::ResetTarget, DeviceOp::ReadTargetId]);
    assert(o1.drop_last() =~= e);
    assert(o2.drop_last() =~= o1);
    assert(o3.drop_last() =~= o2);
    assert(op_events(e) == Seq::<DeviceEvent>::empty());
    assert(replay_ops(s0, e) == s0);
    assert(replay_ops(s0, o1) == s0);
    assert(replay_ops(s0, o2) == s0);
    assert(replay_ops(s0, o3) == s0);
    assert(op_events(o1) =~= seq![DeviceEvent::Probe]);
    assert(op_events(o2) =~= seq![DeviceEvent::Probe, DeviceEvent::ResetTarget]);
    assert(op_events(o3) =~= seq![
        DeviceEvent::Probe,
        DeviceEvent::ResetTarget,
        DeviceEvent::ReadTargetId,
    ]);
}

/// With verification made to fail, the first eight commands of a flash
/// pass on the fake and the ninth, the first row's verification, does not.
proof fn lemma_fail_first_row(s0: FakeState, rows: Seq<FlashRow>, image: Map<u32, u8>)
    requires
        plan_rows(rows, image, F18877_ROW_WORDS as nat, F18877_ERASED_WORD),
        plan_error(image, F18877_ROW_WORDS as nat) is None,
        rows.len() > 0,
        s0.target_id == F18877_DEVICE_ID,
        s0.fail_verify,
    ensures
        flash_ops(rows).len() > 9,
        flash_ops(rows)[8] is VerifyRange,
        forall|i: int|
            0 <= i < 9 ==> (i < 8 <==> #[trigger] fake_passes(
                replay_ops(s0, flash_ops(rows).take(i)),
                flash_ops(rows)[i],
            )),
{
    let planned = flash_ops(rows);
    let head = session_ops(rows.len() as u32);
    let row0 = row_ops(rows[0]);
    lemma_plan_rows_in_flash(rows, image, 0);
    lemma_rows_ops_step(rows, 0);
    lemma_rows_ops_take(rows, 1);
    assert(rows.take(0) =~= Seq::<FlashRow>::empty());
    assert(rows_ops(rows.take(0)) =~= Seq::<DeviceOp>::empty());
    assert(rows_ops(rows.take(1)) =~= row0);
    let ro = rows_ops(rows);
    assert(planned == head + ro + seq![DeviceOp::RunTarget]);
    // The first nine planned commands: the session, then the first row.
    let first = head + row0;
    assert(first.len() == 9) by {
        lemma_fake_row(s0, rows[0]);
    }
    assert forall|i: int| 0 <= i < 9 implies planned[i] == #[trigger] first[i] by {
        if i >= 4 {
            assert(ro.take(row0.len() as int)[i - 4] == row0[i - 4]);
        }
    }
    assert forall|i: int| 0 <= i <= 9 implies #[trigger] planned.take(i) == first.take(i) by {
        assert(planned.take(i) =~= first.take(i));
    }
    // The session passes and leaves the settings.
    assert(head.take(0) =~= Seq::<DeviceOp>::empty());
    lemma_replay_step(s0, head, 0);
    lemma_replay_step(s0, head, 1);
    lemma_replay_step(s0, head, 2);
    lemma_replay_step(s0, head, 3);
    assert(head.take(4) =~= head);
    let s1 = replay_ops(s0, head);
    lemma_fake_row(s1, rows[0]);
    assert(replay_ops(s0, Seq::<DeviceOp>::empty()) == s0);
    assert(replay_ops(s0, head.take(1)) == s0);
    assert(replay_ops(s0, head.take(2)) == s0);
    assert(replay_ops(s0, head.take(3)) == s0);
    assert forall|i: int| 0 <= i < 9 implies (i < 8 <==> #[trigger] fake_passes(
        replay_ops(s0, planned.take(i)),
        planned[i],
    )) by {
        assert(planned.take(i) == first.take(i));
        assert(planned[i] == first[i]);
        if i < 4 {
            assert(first.take(i) =~= head.take(i));
            assert(first[i] == head[i]);
        } else {
            let k = i - 4;
            assert(first.take(i) =~= head + row0.take(k));
            lemma_replay_concat(s0, head, row0.take(k));
            assert(first[i] == row0[k]);
            assert(replay_ops(s0, planned.take(i)) == replay_ops(s1, row0.take(k)));
            if k < 4 {
                assert(fake_passes(replay_ops(s1, row0.take(k)), row0[k]));
            }
        }
    }
    lemma_rows_ops_take(rows, 1);
}

/// A flash on a fake made to fail verification, of an image with at least
/// one row, stops at the first row's verification with the fake's verify
/// error.
#[verifier::spinoff_prover]
#[verifier::rlimit(40)]
pub proof fn lemma_fake_flash_verify_fails(
    before: Seq<(DeviceOp, CallReply)>,
    after: Seq<(DeviceOp, CallReply)>,
    rows: Seq<FlashRow>,
    image: Map<u32, u8>,
    r: Result<FlashPlan>,
)
    requires
        fake_run(after),
        plan_rows(rows, image, F18877_ROW_WORDS as nat, F18877_ERASED_WORD),
        plan_error(image, F18877_ROW_WORDS as nat) is None,
        rows.len() > 0,
        run_outcome(before, after, flash_ops(rows), r),
        fake_state(before).target_id == F18877_DEVICE_ID,
        fake_state(before).fail_verify,
    ensures
        r matches Err(e) && is_device_error(e, fake_verify_message()),
        after.len() == before.len() + 9,
{
    let planned = flash_ops(rows);
    let s0 = fake_state(before);
    lemma_fail_first_row(s0, rows, image);
    // The recorded commands follow the plan; all but the ninth pass.
    let c = after.skip(before.len() as int);
    assert(after =~= before + c);
    lemma_fake_split(before, c);
    assert forall|k: int| 0 <= k < c.len() implies (#[trigger] c[k]).0 == planned[k] by {
        assert(after[before.len() + k] == c[k]);
    }
    assert forall|i: int| 0 <= i <= c.len() implies #[trigger] ops_of(c).take(i) == planned.take(
        i,
    ) by {
        assert(ops_of(c).take(i) =~= planned.take(i));
    }
    assert forall|i: int| 0 <= i < c.len() && i < 9 implies (i < 8 <==> passes(
        #[trigger] c[i].1,
    )) by {
        assert(ops_of(c).take(i) == planned.take(i));
        lemma_reply_passes(replay_ops(s0, planned.take(i)), planned[i], c[i].1);
    }
    if c.len() > 9 {
        assert(after[before.len() + 8int] == c[8]);
        assert(!passes(c[8].1));
    }
    if c.len() < 9 {
        assert(!completed(before, after, planned));
        if r is Err {
            assert(after.last() == c[c.len() - 1]);
        }
    }
    assert(c.len() == 9);
    assert(after.last() == c[8]);
    assert(ops_of(c).take(8) == planned.take(8));
}

/// Only the PIC16F18877's device id, 0x3075, lets a sequence go on; any
/// other id ends it with the device-id error.
pub proof fn lemma_target_id_gate(id: u16, e: Error)
    ensures
        F18877_DEVICE_ID == 0x3075,
        MAX_HID_CHUNK_BYTES == 48,
        passes(CallReply::Id(id)) <==> id == 0x3075,
        call_error(CallReply::Id(id), e) <==> (id != 0x3075 && is_device_error(
            e,
            target_id_message(id),
        )),
{
}

/// A 32-word row is programmed as: erase, its first 48 packed bytes at
/// offset 0, its last 16 at offset 48, commit, and verify against its words.
pub proof fn lemma_row_commands(row: FlashRow)
    requires
        row.words@.len() == 32,
    ensures
        row_ops(row) == seq![
            DeviceOp::EraseRow { base_word_address: row.base_word_address },
            DeviceOp::WriteChunk {
                base_word_address: row.base_word_address,
                offset_bytes: 0,
                data: packed(row.words@).subrange(0, 48),
            },
            DeviceOp::WriteChunk {
                base_word_address: row.base_word_address,
                offset_bytes: 48,
                data: packed(row.words@).subrange(48, 64),
            },
            DeviceOp::CommitRow { base_word_address: row.base_word_address },
            DeviceOp::VerifyRange { base_word_address: row.base_word_address, expected: row.words@ },
        ],
        packed(row.words@).len() == 64,
{
    lemma_row_ops_shape(row);
    assert(chunk_count(64) == 2);
    assert(sent_chunks(64) == 2);
    assert(chunk_end(64, 0) == 48);
    assert(chunk_end(64, 1) == 64);
    assert(row_ops(row) =~= seq![
        DeviceOp::EraseRow { base_word_address: row.base_word_address },
        DeviceOp::WriteChunk {
            base_word_address: row.base_word_address,
            offset_bytes: 0,
            data: packed(row.words@).subrange(0, 48),
        },
        DeviceOp::WriteChunk {
            base_word_address: row.base_word_address,
            offset_bytes: 48,
            data: packed(row.words@).subrange(48, 64),
        },
        DeviceOp::CommitRow { base_word_address: row.base_word_address },
        DeviceOp::VerifyRange { base_word_address: row.base_word_address, expected: row.words@ },
    ]);
}

} // verus!

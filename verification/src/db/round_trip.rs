use crate::db::log_format;
use crate::db::log_format::RecordType;
use crate::db::log_format::BLOCK_SIZE;
use crate::db::log_reader;
use crate::db::log_reader::FrameKind;
use crate::db::log_reader::WindowScan;
use crate::util::coding;
use crate::util::hash;
use vstd::prelude::*;

verus! {

/// The four bytes that a header holds of a log's number give back the low
/// half of the number.
pub proof fn lemma_log_number_bytes(log_number: u64)
    ensures
        log_format::log_number_bytes(log_number).len() == 4,
        coding::fixed32_value(log_format::log_number_bytes(log_number)) == log_reader::low_half(
            log_number,
        ),
{
    let low = log_reader::low_half(log_number);
    coding::lemma_fixed32_round_trip(low);
    assert(log_format::log_number_bytes(log_number) =~= coding::fixed32_bytes(low));
}

/// A frame that is written is the frame that is read: where the unread rest of
/// a block starts with the frame of a fragment, the scan gives the fragment's
/// kind and payload and uses up the frame.
pub proof fn lemma_scan_frame(
    w: Seq<u8>,
    last: bool,
    t: RecordType,
    log_number: u64,
    payload: Seq<u8>,
    checksum: bool,
)
    requires
        t != RecordType::Zero,
        payload.len() < 65536,
        log_format::frame(t, log_number, payload).len() <= w.len(),
        w.subrange(0, log_format::frame(t, log_number, payload).len() as int) == log_format::frame(
            t,
            log_number,
            payload,
        ),
    ensures
        log_reader::scan_window(w, last, log_number, checksum) == (WindowScan {
            kind: log_reader::kind_of_type(t.byte()),
            payload: payload,
            used: log_format::frame(t, log_number, payload).len(),
        }),
        log_format::frame(t, log_number, payload).len() == log_format::header_size(t.recyclable())
            + payload.len(),
{
    reveal(log_format::frame);
    reveal(log_reader::scan_window);
    let f = log_format::frame(t, log_number, payload);
    let hs = log_format::header_size(t.recyclable());
    let number = log_format::log_number_bytes(log_number);
    let crc = log_format::frame_checksum(t.byte(), number, payload);
    lemma_log_number_bytes(log_number);
    coding::lemma_fixed32_round_trip(crc);
    assert(f.len() == hs + payload.len());
    assert forall|i: int| 0 <= i < f.len() implies w[i] == f[i] by {
        assert(w.subrange(0, f.len() as int)[i] == w[i]);
    }
    assert(w.subrange(0, 4) =~= coding::fixed32_bytes(crc));
    assert(w[4] == (payload.len() % 256) as u8);
    assert(w[5] == (payload.len() / 256) as u8);
    assert(w[6] == t.byte());
    assert((w[4] as nat) + 256 * (w[5] as nat) == payload.len());
    if t.recyclable() {
        assert(w.subrange(7, 11) =~= number);
    }
    assert(w.subrange(6, (hs + payload.len()) as int) =~= log_format::checksummed(
        t.byte(),
        number,
        payload,
    ));
    assert(w.subrange(hs as int, (hs + payload.len()) as int) =~= payload);
}

/// Padding is passed without a word: where the rest of a block is zeros and
/// too short for a header of the log, a reader between records goes on with
/// the next block.
pub proof fn lemma_scan_padding(w: Seq<u8>, log_number: u64, checksum: bool)
    requires
        0 < w.len() < log_format::RECYCLABLE_HEADER_SIZE,
        forall|i: int| 0 <= i < w.len() ==> w[i] == 0,
    ensures
        log_reader::scan_window(w, false, log_number, checksum).used == w.len(),
        log_reader::scan_window(w, false, log_number, checksum).kind == FrameKind::Trailer
            || log_reader::scan_window(w, false, log_number, checksum).kind == FrameKind::Foreign,
        forall|mode: crate::env::WALRecoveryMode|
            (#[trigger] log_reader::decide(
                mode,
                log_reader::Progress::Idle,
                log_reader::scan_window(w, false, log_number, checksum).kind,
            )) == (log_reader::Decision { action: log_reader::Action::Pass, damage: false }),
{
    reveal(log_reader::scan_window);
}

/// A frame of another log is no frame of this log: a sound frame that holds
/// the number of another log is foreign and is passed whole, and a foreign
/// frame neither starts nor completes a record, nor is it damage.
pub proof fn lemma_scan_stale_frame(
    w: Seq<u8>,
    last: bool,
    t: RecordType,
    written_for: u64,
    log_number: u64,
    payload: Seq<u8>,
    checksum: bool,
)
    requires
        t.recyclable(),
        log_reader::low_half(written_for) != log_reader::low_half(log_number),
        payload.len() < 65536,
        log_format::frame(t, written_for, payload).len() <= w.len(),
        w.subrange(0, log_format::frame(t, written_for, payload).len() as int)
            == log_format::frame(t, written_for, payload),
    ensures
        log_reader::scan_window(w, last, log_number, checksum) == (WindowScan {
            kind: FrameKind::Foreign,
            payload: Seq::<u8>::empty(),
            used: log_format::frame(t, written_for, payload).len(),
        }),
        forall|mode: crate::env::WALRecoveryMode, progress: log_reader::Progress|
            (#[trigger] log_reader::decide(mode, progress, FrameKind::Foreign)) == log_reader::clean(
                if progress == log_reader::Progress::Idle {
                    log_reader::Action::Pass
                } else {
                    log_reader::Action::Poison
                },
            ),
{
    lemma_scan_frame(w, last, t, written_for, payload, checksum);
    reveal(log_reader::scan_window);
    reveal(log_format::frame);
    lemma_log_number_bytes(written_for);
    let f = log_format::frame(t, written_for, payload);
    assert forall|i: int| 0 <= i < f.len() implies w[i] == f[i] by {
        assert(w.subrange(0, f.len() as int)[i] == w[i]);
    }
    assert(w.subrange(7, 11) =~= log_format::log_number_bytes(written_for));
}

/// A changed byte is damage: where one byte of a frame is changed, and be it in
/// one bit, in the checksum, the log number or the payload, a reader that
/// verifies checksums finds a bad checksum and gives up the rest of the block.
/// That is an error where damage is not accepted, and is passed over, with
/// what was gathered of a record, where damage is passed over.
pub proof fn lemma_changed_byte_is_damage(
    w: Seq<u8>,
    last: bool,
    t: RecordType,
    log_number: u64,
    payload: Seq<u8>,
    j: int,
    value: u8,
)
    requires
        t != RecordType::Zero,
        payload.len() < 65536,
        log_format::frame(t, log_number, payload).len() <= w.len(),
        w.subrange(0, log_format::frame(t, log_number, payload).len() as int) == log_format::frame(
            t,
            log_number,
            payload,
        ),
        0 <= j < 4 || 7 <= j < log_format::frame(t, log_number, payload).len(),
        value != w[j],
    ensures
        log_reader::scan_window(w.update(j, value), last, log_number, true) == (WindowScan {
            kind: FrameKind::BadChecksum,
            payload: Seq::<u8>::empty(),
            used: w.len(),
        }),
        forall|mode: crate::env::WALRecoveryMode, progress: log_reader::Progress|
            (#[trigger] log_reader::decide(mode, progress, FrameKind::BadChecksum))
                == (log_reader::Decision {
                action: if log_reader::passes_over(mode) {
                    log_reader::Action::Discard
                } else {
                    log_reader::Action::Fail
                },
                damage: true,
            }),
{
    reveal(log_format::frame);
    reveal(log_reader::scan_window);
    let f = log_format::frame(t, log_number, payload);
    let hs = log_format::header_size(t.recyclable());
    let number = log_format::log_number_bytes(log_number);
    let crc = log_format::frame_checksum(t.byte(), number, payload);
    let changed = w.update(j, value);
    lemma_log_number_bytes(log_number);
    coding::lemma_fixed32_round_trip(crc);
    assert(f.len() == hs + payload.len());
    assert forall|i: int| 0 <= i < f.len() implies w[i] == f[i] by {
        assert(w.subrange(0, f.len() as int)[i] == w[i]);
    }
    assert(w.subrange(0, 4) =~= coding::fixed32_bytes(crc));
    assert((changed[4] as nat) + 256 * (changed[5] as nat) == payload.len());
    assert(changed[6] == t.byte());
    let covered = w.subrange(6, (hs + payload.len()) as int);
    assert(covered =~= log_format::checksummed(t.byte(), number, payload));
    if j < 4 {
        assert(changed.subrange(6, (hs + payload.len()) as int) =~= covered);
        if coding::fixed32_value(changed.subrange(0, 4)) == crc {
            coding::lemma_fixed32_one_to_one(changed.subrange(0, 4), w.subrange(0, 4));
            assert(changed.subrange(0, 4)[j] == w.subrange(0, 4)[j]);
        }
    } else {
        assert(changed.subrange(0, 4) =~= w.subrange(0, 4));
        assert(changed.subrange(6, (hs + payload.len()) as int) =~= covered.update(j - 6, value));
        hash::lemma_crc32_tells_changed_byte(0, covered, j - 6, value);
    }
}

/// The unread rest of a block starts with the bytes that lie at the place, as
/// far as they lie in the block.
proof fn lemma_window_holds(data: Seq<u8>, pos: nat, k: nat)
    requires
        k > 0,
        pos + k <= data.len(),
        pos % (BLOCK_SIZE as nat) + k <= BLOCK_SIZE,
    ensures
        log_reader::window(data, pos).len() >= k,
        log_reader::window(data, pos).subrange(0, k as int) == data.subrange(
            pos as int,
            (pos + k) as int,
        ),
        pos % (BLOCK_SIZE as nat) + k == BLOCK_SIZE ==> log_reader::window(data, pos).len() == k
            && !log_reader::in_last_block(data.len(), pos),
{
    let b = BLOCK_SIZE as nat;
    let full = (pos / b + 1) * b;
    assert(full == pos - pos % b + b);
    assert(log_reader::window(data, pos).subrange(0, k as int) =~= data.subrange(
        pos as int,
        (pos + k) as int,
    ));
}

/// The `len` bytes of `data` from `from` on.
pub open spec fn part(data: Seq<u8>, from: nat, len: nat) -> Seq<u8> {
    data.subrange(from as int, (from + len) as int)
}

/// How far a reader is into a record of which something or nothing is
/// written.
pub open spec fn progress_of(begin: bool) -> log_reader::Progress {
    if begin {
        log_reader::Progress::Idle
    } else {
        log_reader::Progress::InFragment
    }
}

/// Where the parts of a record lie in a log that holds the record at `pos`:
/// the padding, the first frame and what follows it.
proof fn lemma_record_layout(
    data: Seq<u8>,
    pos: nat,
    block_offset: nat,
    recycle: bool,
    log_number: u64,
    payload: Seq<u8>,
    begin: bool,
)
    requires
        block_offset <= BLOCK_SIZE,
        pos % (BLOCK_SIZE as nat) == block_offset % (BLOCK_SIZE as nat),
        pos + log_format::record_bytes(block_offset, recycle, log_number, payload, begin).len()
            <= data.len(),
        part(
            data,
            pos,
            log_format::record_bytes(block_offset, recycle, log_number, payload, begin).len(),
        ) == log_format::record_bytes(block_offset, recycle, log_number, payload, begin),
    ensures
        ({
            let b = BLOCK_SIZE as nat;
            let hs = log_format::header_size(recycle);
            let total = log_format::record_bytes(block_offset, recycle, log_number, payload, begin);
            let pad = log_format::padding(block_offset, recycle);
            let start = log_format::frame_start(block_offset, recycle);
            let n = log_format::fragment_len(block_offset, recycle, payload.len());
            let end = n == payload.len();
            let t = log_format::fragment_type(recycle, begin, end);
            let f = log_format::frame(t, log_number, payload.take(n as int));
            let tail = if end {
                Seq::<u8>::empty()
            } else {
                log_format::record_bytes(
                    start + hs + n,
                    recycle,
                    log_number,
                    payload.skip(n as int),
                    false,
                )
            };
            &&& total.len() == pad + f.len() + tail.len()
            &&& f.len() == hs + n
            &&& start + hs + n <= b
            &&& !end ==> start + hs + n == b
            &&& pad > 0 ==> pos % b + pad == b
            &&& part(data, pos, pad) == log_format::zeros(pad)
            &&& (pos + pad) % b == start
            &&& part(data, pos + pad, f.len()) == f
            &&& part(data, pos + pad + f.len(), tail.len()) == tail
            &&& !end ==> (pos + pad + f.len()) % b == 0
        }),
{
    let b = BLOCK_SIZE as nat;
    let hs = log_format::header_size(recycle);
    let total = log_format::record_bytes(block_offset, recycle, log_number, payload, begin);
    let pad = log_format::padding(block_offset, recycle);
    let start = log_format::frame_start(block_offset, recycle);
    let n = log_format::fragment_len(block_offset, recycle, payload.len());
    let end = n == payload.len();
    let t = log_format::fragment_type(recycle, begin, end);
    let z = log_format::zeros(pad);
    let f = log_format::frame(t, log_number, payload.take(n as int));
    let tail = if end {
        Seq::<u8>::empty()
    } else {
        log_format::record_bytes(start + hs + n, recycle, log_number, payload.skip(n as int), false)
    };
    log_format::lemma_record_bytes_step(block_offset, recycle, log_number, payload, begin);
    log_format::lemma_frame_len(t, log_number, payload.take(n as int));
    assert(total == z + f + tail);
    let at = pos + pad;
    let next = at + f.len();
    let whole = part(data, pos, total.len());
    assert(part(data, pos, pad) =~= whole.subrange(0, pad as int));
    assert(part(data, at, f.len()) =~= whole.subrange(pad as int, (pad + f.len()) as int));
    assert(part(data, next, tail.len()) =~= whole.subrange(
        (pad + f.len()) as int,
        total.len() as int,
    ));
    assert(total.subrange(0, pad as int) =~= z);
    assert(total.subrange(pad as int, (pad + f.len()) as int) =~= f);
    assert(total.subrange((pad + f.len()) as int, total.len() as int) =~= tail);
    assert(at % b == start);
    if !end {
        assert(next % b == 0) by {
            assert(at == b * (at / b) + start);
            assert(next == b * (at / b + 1));
        }
    }
}

/// The padding before a record's first frame is passed by a reader between
/// records: it reads on as if it stood behind the padding, and what it has
/// met so far is no damage.
pub proof fn lemma_pass_padding(
    data: Seq<u8>,
    pos: nat,
    pad: nat,
    log_number: u64,
    checksum: bool,
    mode: crate::env::WALRecoveryMode,
    partial: Seq<u8>,
    damage: bool,
)
    requires
        0 < pad < log_format::RECYCLABLE_HEADER_SIZE,
        pos % (BLOCK_SIZE as nat) + pad == BLOCK_SIZE,
        pos + pad <= data.len(),
        part(data, pos, pad) == log_format::zeros(pad),
    ensures
        log_reader::assemble(
            data,
            log_number,
            checksum,
            mode,
            pos,
            log_reader::Progress::Idle,
            partial,
            damage,
        ) == log_reader::assemble(
            data,
            log_number,
            checksum,
            mode,
            pos + pad,
            log_reader::Progress::Idle,
            partial,
            damage,
        ),
{
    lemma_window_holds(data, pos, pad);
    let w = log_reader::window(data, pos);
    assert(w =~= data.subrange(pos as int, (pos + pad) as int));
    lemma_scan_padding(w, log_number, checksum);
    let d = log_reader::decide(
        mode,
        log_reader::Progress::Idle,
        log_reader::scan_window(w, false, log_number, checksum).kind,
    );
    assert(d == (log_reader::Decision { action: log_reader::Action::Pass, damage: false }));
    log_reader::lemma_assemble_on(
        data,
        log_number,
        checksum,
        mode,
        pos,
        log_reader::Progress::Idle,
        partial,
        damage,
    );
}

/// A fragment that comes in its turn is taken: the frame of a fragment that
/// is or is not the first and the last of its record, met by a reader that is
/// or is not within the record.
proof fn lemma_fragment_in_turn(
    recycle: bool,
    begin: bool,
    end: bool,
    mode: crate::env::WALRecoveryMode,
)
    ensures
        log_format::fragment_type(recycle, begin, end) != RecordType::Zero,
        log_format::fragment_type(recycle, begin, end).recyclable() == recycle,
        log_reader::decide(
            mode,
            progress_of(begin),
            log_reader::kind_of_type(log_format::fragment_type(recycle, begin, end).byte()),
        ) == log_reader::clean(
            if begin && end {
                log_reader::Action::Deliver
            } else if begin {
                log_reader::Action::Begin
            } else if end {
                log_reader::Action::DeliverJoined
            } else {
                log_reader::Action::Extend
            },
        ),
{
}


/// What a reader finds where a frame lies within its block.
proof fn lemma_scan_at_frame(
    data: Seq<u8>,
    at: nat,
    t: RecordType,
    log_number: u64,
    payload: Seq<u8>,
    checksum: bool,
)
    requires
        t != RecordType::Zero,
        payload.len() < 65536,
        at + log_format::frame(t, log_number, payload).len() <= data.len(),
        at % (BLOCK_SIZE as nat) + log_format::frame(t, log_number, payload).len() <= BLOCK_SIZE,
        part(data, at, log_format::frame(t, log_number, payload).len()) == log_format::frame(
            t,
            log_number,
            payload,
        ),
    ensures
        log_reader::scan(data, at, log_number, checksum) == (WindowScan {
            kind: log_reader::kind_of_type(t.byte()),
            payload: payload,
            used: log_format::frame(t, log_number, payload).len(),
        }),
{
    log_format::lemma_frame_len(t, log_number, payload);
    lemma_window_holds(data, at, log_format::frame(t, log_number, payload).len());
    lemma_scan_frame(
        log_reader::window(data, at),
        log_reader::in_last_block(data.len(), at),
        t,
        log_number,
        payload,
        checksum,
    );
}

/// Reading gives back what was written, one record: where the log holds at
/// `pos` the bytes that a writer at `block_offset` of a block writes for the
/// rest `payload` of a record, a reader that has gathered `partial` of the
/// record hands out `partial` and `payload` as a record, and stands behind
/// those bytes.
pub proof fn lemma_read_record(
    data: Seq<u8>,
    pos: nat,
    block_offset: nat,
    recycle: bool,
    log_number: u64,
    payload: Seq<u8>,
    begin: bool,
    partial: Seq<u8>,
    checksum: bool,
    mode: crate::env::WALRecoveryMode,
    damage: bool,
)
    requires
        block_offset <= BLOCK_SIZE,
        pos % (BLOCK_SIZE as nat) == block_offset % (BLOCK_SIZE as nat),
        !begin ==> block_offset == BLOCK_SIZE,
        begin ==> partial == Seq::<u8>::empty(),
        pos + log_format::record_bytes(block_offset, recycle, log_number, payload, begin).len()
            <= data.len(),
        part(
            data,
            pos,
            log_format::record_bytes(block_offset, recycle, log_number, payload, begin).len(),
        ) == log_format::record_bytes(block_offset, recycle, log_number, payload, begin),
    ensures
        log_reader::assemble(
            data,
            log_number,
            checksum,
            mode,
            pos,
            progress_of(begin),
            partial,
            damage,
        ) == (log_reader::Assembled {
            record: Some(partial + payload),
            pos: pos + log_format::record_bytes(
                block_offset,
                recycle,
                log_number,
                payload,
                begin,
            ).len(),
            failed: false,
            damage: damage,
        }),
    decreases payload.len(), log_format::padding(block_offset, recycle) + BLOCK_SIZE - block_offset,
{
    let b = BLOCK_SIZE as nat;
    let pad = log_format::padding(block_offset, recycle);
    let n = log_format::fragment_len(block_offset, recycle, payload.len());
    let end = n == payload.len();
    let t = log_format::fragment_type(recycle, begin, end);
    let f = log_format::frame(t, log_number, payload.take(n as int));
    let at = pos + pad;
    let next = at + f.len();
    let progress = progress_of(begin);
    lemma_record_layout(data, pos, block_offset, recycle, log_number, payload, begin);
    if pad > 0 {
        lemma_pass_padding(data, pos, pad, log_number, checksum, mode, partial, damage);
    }
    lemma_fragment_in_turn(recycle, begin, end, mode);
    lemma_scan_at_frame(data, at, t, log_number, payload.take(n as int), checksum);
    log_reader::lemma_assemble_on(data, log_number, checksum, mode, at, progress, partial, damage);
    if end {
        assert(payload.take(n as int) =~= payload);
        assert(Seq::<u8>::empty() + payload =~= payload);
    } else {
        let gathered = if begin {
            payload.take(n as int)
        } else {
            partial + payload.take(n as int)
        };
        lemma_read_record(
            data,
            next,
            b,
            recycle,
            log_number,
            payload.skip(n as int),
            false,
            gathered,
            checksum,
            mode,
            damage,
        );
        assert(payload.take(n as int) + payload.skip(n as int) =~= payload);
        assert(gathered + payload.skip(n as int) =~= partial + payload);
    }
}

/// What a reader has come to that has read the first `count` records of a
/// sound log and stands at `pos`.
pub open spec fn reader_after(count: nat, pos: nat) -> log_reader::ReaderModel {
    log_reader::ReaderModel {
        pos: pos,
        failed: false,
        damaged: false,
        delivered: count > 0,
        last_good: pos,
    }
}

/// Reading gives back what was written. Let a log hold the bytes that a
/// writer, with or without log numbers in its frames, has written for
/// `records`, from the start of a block on. A reader of that log, with the
/// log's number, with or without verifying checksums and in any mode of
/// recovery, that has read `count` of the records, is handed the next record
/// as it was written. After the last record it is handed nothing, and has not
/// failed.
pub proof fn lemma_round_trip(
    records: Seq<Seq<u8>>,
    recycle: bool,
    log_number: u64,
    checksum: bool,
    mode: crate::env::WALRecoveryMode,
    count: nat,
)
    requires
        count <= records.len(),
    ensures
        ({
            let data = log_format::log_bytes(0, recycle, log_number, records);
            let pos = log_format::log_bytes(0, recycle, log_number, records.take(count as int)).len();
            let next = log_format::log_bytes(
                0,
                recycle,
                log_number,
                records.take((count + 1) as int),
            ).len();
            log_reader::read_record_spec(
                data,
                log_number,
                checksum,
                mode,
                reader_after(count, pos),
            ) == if count < records.len() {
                (Some(records[count as int]), reader_after(count + 1, next))
            } else {
                (None::<Seq<u8>>, reader_after(count, data.len()))
            }
        }),
{
    let data = log_format::log_bytes(0, recycle, log_number, records);
    let read = records.take(count as int);
    let pos = log_format::log_bytes(0, recycle, log_number, read).len();
    log_format::lemma_log_end(0, recycle, log_number, records, count);
    if count < records.len() {
        let more = records.take((count + 1) as int);
        let next = log_format::log_bytes(0, recycle, log_number, more).len();
        let at = log_format::log_end(0, recycle, read);
        let added = log_format::record_bytes(at, recycle, log_number, records[count as int], true);
        assert(more =~= read.push(records[count as int]));
        log_format::lemma_log_bytes_push(0, recycle, log_number, read, records[count as int]);
        log_format::lemma_log_end(0, recycle, log_number, read, 0);
        log_format::lemma_log_end(0, recycle, log_number, records, count + 1);
        let whole = log_format::log_bytes(0, recycle, log_number, more);
        assert(whole == log_format::log_bytes(0, recycle, log_number, read) + added);
        assert(part(data, pos, added.len()) =~= added) by {
            assert(data.take(next as int) == whole);
            assert(part(data, pos, added.len()) =~= data.take(next as int).subrange(
                pos as int,
                next as int,
            ));
        }
        lemma_read_record(
            data,
            pos,
            at,
            recycle,
            log_number,
            records[count as int],
            true,
            Seq::<u8>::empty(),
            checksum,
            mode,
            false,
        );
        assert(Seq::<u8>::empty() + records[count as int] =~= records[count as int]);
    } else {
        assert(read =~= records);
        log_reader::lemma_scan_advances(data, pos, log_number, checksum);
        log_reader::lemma_assemble_on(
            data,
            log_number,
            checksum,
            mode,
            pos,
            log_reader::Progress::Idle,
            Seq::<u8>::empty(),
            false,
        );
    }
}

} // verus!

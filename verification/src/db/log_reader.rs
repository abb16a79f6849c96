use crate::db::log_format;
use crate::db::log_format::BLOCK_SIZE;
use crate::db::log_format::HEADER_SIZE;
use crate::db::log_format::RECYCLABLE_HEADER_SIZE;
use crate::env::SequentialFile;
use crate::env::WALRecoveryMode;
use crate::util::coding;
use crate::util::coding::decode_fixed32;
use crate::util::file_reader_writer::SequentialFileReader;
use crate::util::hash::crc32;
use crate::util::status::Code;
use crate::util::status::State;
use vstd::prelude::*;
use vstd::slice::slice_subrange;
use vstd::slice::slice_to_vec;

verus! {

/// What a reader finds at one place of the log.
#[derive(Clone, Copy, Debug, PartialEq, Eq, Structural)]
pub enum FrameKind {
    /// A frame that holds a whole record.
    Full,
    /// A frame that holds the first fragment of a record.
    First,
    /// A frame that holds a fragment between the first and the last.
    Middle,
    /// A frame that holds the last fragment of a record.
    Last,
    /// The end of a block, too short for a header.
    Trailer,
    /// A frame that is not of this log: reserved room that was never written,
    /// a type that is not known, or the number of another log.
    Foreign,
    /// A frame whose length reaches beyond its block.
    BadLength,
    /// A frame whose checksum does not match.
    BadChecksum,
    /// The file ends within a frame.
    Truncated,
    /// Nothing is left of the file.
    Eof,
}

/// What was found in the unread rest of a block: the kind, the payload of a
/// fragment, and how many bytes are done with.
pub struct WindowScan {
    pub kind: FrameKind,
    pub payload: Seq<u8>,
    pub used: nat,
}

/// The low half of a log's number, which is what a header holds of it.
pub open spec fn low_half(log_number: u64) -> u32 {
    (log_number % 0x1_0000_0000) as u32
}

/// The kind of a frame with a good header, by its type byte.
pub open spec fn kind_of_type(type_byte: u8) -> FrameKind {
    if type_byte == 1 || type_byte == 5 {
        FrameKind::Full
    } else if type_byte == 2 || type_byte == 6 {
        FrameKind::First
    } else if type_byte == 3 || type_byte == 7 {
        FrameKind::Middle
    } else if type_byte == 4 || type_byte == 8 {
        FrameKind::Last
    } else {
        FrameKind::Foreign
    }
}

/// What the end of a block or of the file is when it cuts a frame short.
pub open spec fn cut_short(last: bool) -> FrameKind {
    if last {
        FrameKind::Truncated
    } else {
        FrameKind::Trailer
    }
}

/// Reads one frame from `w`, the unread rest of a block; `last` says that the
/// file ends with this block. The header gives the payload's length and the
/// type. A length beyond the block and, where checksums are verified, a
/// checksum that does not match are damage, and the rest of the block goes
/// with them. An empty frame of type zero is room that was never written, and
/// the rest of the block goes with it. A sound frame with the number of another
/// log or of unknown type is foreign.
#[verifier::opaque]
pub open spec fn scan_window(w: Seq<u8>, last: bool, log_number: u64, checksum: bool) -> WindowScan {
    let none = Seq::<u8>::empty();
    if w.len() == 0 {
        WindowScan { kind: FrameKind::Eof, payload: none, used: 0 }
    } else if w.len() < HEADER_SIZE {
        WindowScan { kind: cut_short(last), payload: none, used: w.len() }
    } else {
        let length = (w[4] as nat) + 256 * (w[5] as nat);
        let type_byte = w[6];
        let recyclable = log_format::byte_recyclable(type_byte);
        let hs = log_format::header_size(recyclable);
        if w.len() < hs {
            WindowScan { kind: cut_short(last), payload: none, used: w.len() }
        } else if hs + length > w.len() {
            WindowScan {
                kind: if last {
                    FrameKind::Truncated
                } else {
                    FrameKind::BadLength
                },
                payload: none,
                used: w.len(),
            }
        } else if type_byte == 0 && length == 0 {
            WindowScan { kind: FrameKind::Foreign, payload: none, used: w.len() }
        } else if checksum && coding::fixed32_value(w.subrange(0, 4)) != crate::util::hash::crc32_spec(
            0,
            w.subrange(6, (hs + length) as int),
        ) {
            WindowScan { kind: FrameKind::BadChecksum, payload: none, used: w.len() }
        } else if recyclable && coding::fixed32_value(w.subrange(7, 11)) != low_half(log_number) {
            WindowScan { kind: FrameKind::Foreign, payload: none, used: hs + length }
        } else {
            WindowScan {
                kind: kind_of_type(type_byte),
                payload: if kind_of_type(type_byte) == FrameKind::Foreign {
                    none
                } else {
                    w.subrange(hs as int, (hs + length) as int)
                },
                used: hs + length,
            }
        }
    }
}

/// A scan uses no more than the window holds, and something of a window that
/// is not empty.
pub proof fn lemma_scan_window_used(w: Seq<u8>, last: bool, log_number: u64, checksum: bool)
    ensures
        scan_window(w, last, log_number, checksum).used <= w.len(),
        w.len() > 0 ==> scan_window(w, last, log_number, checksum).used > 0,
        scan_window(w, last, log_number, checksum).kind == FrameKind::Eof <==> w.len() == 0,
        scan_window(w, last, log_number, checksum).payload.len() < 65536,
        scan_window(w, last, log_number, checksum).kind == FrameKind::Truncated ==> last
            && scan_window(w, last, log_number, checksum).used == w.len(),
{
    reveal(scan_window);
}

/// Reads one frame from `w`, the unread rest of a block.
pub fn parse_window(w: &[u8], last: bool, log_number: u64, checksum: bool) -> (r: (
    FrameKind,
    Vec<u8>,
    usize,
))
    ensures
        r.0 == scan_window(w@, last, log_number, checksum).kind,
        r.1@ == scan_window(w@, last, log_number, checksum).payload,
        r.2 == scan_window(w@, last, log_number, checksum).used,
{
    reveal(scan_window);
    let n = w.len();
    let short = if last {
        FrameKind::Truncated
    } else {
        FrameKind::Trailer
    };
    if n == 0 {
        return (FrameKind::Eof, Vec::new(), 0);
    }
    if n < HEADER_SIZE {
        return (short, Vec::new(), n);
    }
    let a: usize = w[4] as usize;
    let b: usize = w[5] as usize;
    let type_byte: u8 = w[6];
    let length: usize = a + 256 * b;
    let recyclable = 5 <= type_byte && type_byte <= 8;
    let hs: usize = if recyclable {
        RECYCLABLE_HEADER_SIZE
    } else {
        HEADER_SIZE
    };
    if n < hs {
        return (short, Vec::new(), n);
    }
    if length > n - hs {
        let kind = if last {
            FrameKind::Truncated
        } else {
            FrameKind::BadLength
        };
        return (kind, Vec::new(), n);
    }
    if type_byte == 0 && length == 0 {
        return (FrameKind::Foreign, Vec::new(), n);
    }
    if checksum {
        let expected = decode_fixed32(slice_subrange(w, 0, 4));
        let actual = crc32(0, slice_subrange(w, 6, hs + length));
        if actual != expected {
            return (FrameKind::BadChecksum, Vec::new(), n);
        }
    }
    if recyclable {
        let number = decode_fixed32(slice_subrange(w, 7, 11));
        let own: u32 = (log_number & 0xffff_ffff) as u32;
        assert(log_number & 0xffff_ffff == log_number % 0x1_0000_0000) by (bit_vector);
        if number != own {
            return (FrameKind::Foreign, Vec::new(), hs + length);
        }
    }
    let kind = if type_byte == 1 || type_byte == 5 {
        FrameKind::Full
    } else if type_byte == 2 || type_byte == 6 {
        FrameKind::First
    } else if type_byte == 3 || type_byte == 7 {
        FrameKind::Middle
    } else if type_byte == 4 || type_byte == 8 {
        FrameKind::Last
    } else {
        FrameKind::Foreign
    };
    let payload = if kind == FrameKind::Foreign {
        Vec::new()
    } else {
        slice_to_vec(slice_subrange(w, hs, hs + length))
    };
    (kind, payload, hs + length)
}

/// Where the block that holds `pos` ends, in a file of `len` bytes.
pub open spec fn block_end(len: nat, pos: nat) -> nat {
    let full = (pos / (BLOCK_SIZE as nat) + 1) * BLOCK_SIZE;
    if len < full {
        len
    } else {
        full as nat
    }
}

/// Whether the file ends in the block that holds `pos`, short of the block's
/// end.
pub open spec fn in_last_block(len: nat, pos: nat) -> bool {
    len < (pos / (BLOCK_SIZE as nat) + 1) * BLOCK_SIZE
}

/// What of the block that holds `pos` lies at and after `pos`.
pub open spec fn window(data: Seq<u8>, pos: nat) -> Seq<u8> {
    if pos >= data.len() {
        Seq::<u8>::empty()
    } else {
        data.subrange(pos as int, block_end(data.len(), pos) as int)
    }
}

/// What a reader finds at `pos` of the log `data`.
pub open spec fn scan(data: Seq<u8>, pos: nat, log_number: u64, checksum: bool) -> WindowScan {
    scan_window(window(data, pos), in_last_block(data.len(), pos), log_number, checksum)
}

/// A scan moves on within the file, unless the file is at its end.
pub proof fn lemma_scan_advances(data: Seq<u8>, pos: nat, log_number: u64, checksum: bool)
    requires
        pos <= data.len(),
    ensures
        pos + scan(data, pos, log_number, checksum).used <= block_end(data.len(), pos)
            <= data.len(),
        pos < data.len() ==> scan(data, pos, log_number, checksum).used > 0,
        scan(data, pos, log_number, checksum).kind == FrameKind::Eof <==> pos == data.len(),
{
    lemma_scan_window_used(
        window(data, pos),
        in_last_block(data.len(), pos),
        log_number,
        checksum,
    );
    lemma_block_end(data.len(), pos);
}

/// The block of `pos` ends after `pos`, at most a block's length on.
pub proof fn lemma_block_end(len: nat, pos: nat)
    ensures
        pos < len ==> pos < block_end(len, pos) <= len,
        block_end(len, pos) <= pos + BLOCK_SIZE,
        pos % (BLOCK_SIZE as nat) == 0 ==> block_end(len, pos) == if len < pos + BLOCK_SIZE {
            len as int
        } else {
            pos + BLOCK_SIZE
        },
{
}

/// How far a reader is into a record.
#[derive(Clone, Copy, Debug, PartialEq, Eq, Structural)]
pub enum Progress {
    /// Between records.
    Idle,
    /// After the first fragment of a record and before its last.
    InFragment,
    /// Within a record into which a foreign frame has come: the record
    /// cannot be completed any more.
    Broken,
}

/// What a reader does with what it found.
#[derive(Clone, Copy, Debug, PartialEq, Eq, Structural)]
pub enum Action {
    /// Hand out the payload as a record.
    Deliver,
    /// Hand out the gathered fragments and the payload as a record.
    DeliverJoined,
    /// Start to gather a record with the payload.
    Begin,
    /// Add the payload to what is gathered.
    Extend,
    /// Go on.
    Pass,
    /// Go on; the record that is being gathered cannot be completed any more.
    Poison,
    /// Drop what is gathered and go on between records.
    Discard,
    /// Stop with an error.
    Fail,
    /// Stop: the log has ended.
    Finish,
}

/// An action, and whether damage was met on the way to it.
#[derive(Clone, Copy, Debug, PartialEq, Eq, Structural)]
pub struct Decision {
    pub action: Action,
    pub damage: bool,
}

/// Whether damage is passed over in the mode.
pub open spec fn passes_over(mode: WALRecoveryMode) -> bool {
    mode == WALRecoveryMode::SkipAnyCorruptedRecords || mode
        == WALRecoveryMode::PointInTimeRecovery
}

/// What damage within the log leads to: it is passed over, or it is an error.
pub open spec fn on_damage(mode: WALRecoveryMode, passing: Action) -> Decision {
    Decision {
        action: if passes_over(mode) {
            passing
        } else {
            Action::Fail
        },
        damage: true,
    }
}

/// What damage at the end of the log leads to: it ends the log, except where
/// no damage at all is accepted.
pub open spec fn on_torn_tail(mode: WALRecoveryMode) -> Decision {
    Decision {
        action: if mode == WALRecoveryMode::AbsoluteConsistency {
            Action::Fail
        } else {
            Action::Finish
        },
        damage: true,
    }
}

/// What is done where all is well.
pub open spec fn clean(action: Action) -> Decision {
    Decision { action, damage: false }
}

/// What a reader that is `progress` into a record does with a frame of kind
/// `kind`. A fragment out of turn, a bad length and a bad checksum are damage
/// within the log. A file that ends within a frame or within a record is damage
/// at the end of the log. A foreign frame is passed, but the record into which
/// it has come will not be completed.
pub open spec fn decide(mode: WALRecoveryMode, progress: Progress, kind: FrameKind) -> Decision {
    match kind {
        FrameKind::Full => if progress == Progress::Idle {
            clean(Action::Deliver)
        } else {
            on_damage(mode, Action::Deliver)
        },
        FrameKind::First => if progress == Progress::Idle {
            clean(Action::Begin)
        } else {
            on_damage(mode, Action::Begin)
        },
        FrameKind::Middle => if progress == Progress::InFragment {
            clean(Action::Extend)
        } else {
            on_damage(mode, Action::Discard)
        },
        FrameKind::Last => if progress == Progress::InFragment {
            clean(Action::DeliverJoined)
        } else {
            on_damage(mode, Action::Discard)
        },
        FrameKind::Trailer => clean(Action::Pass),
        FrameKind::Foreign => if progress == Progress::Idle {
            clean(Action::Pass)
        } else {
            clean(Action::Poison)
        },
        FrameKind::BadLength => on_damage(mode, Action::Discard),
        FrameKind::BadChecksum => on_damage(mode, Action::Discard),
        FrameKind::Truncated => on_torn_tail(mode),
        FrameKind::Eof => if progress == Progress::Idle {
            clean(Action::Finish)
        } else {
            on_torn_tail(mode)
        },
    }
}

/// What a reader does with what it found.
pub fn decide_action(mode: WALRecoveryMode, progress: Progress, kind: FrameKind) -> (d: Decision)
    ensures
        d == decide(mode, progress, kind),
{
    let passing = match mode {
        WALRecoveryMode::SkipAnyCorruptedRecords => true,
        WALRecoveryMode::PointInTimeRecovery => true,
        _ => false,
    };
    let strict = match mode {
        WALRecoveryMode::AbsoluteConsistency => true,
        _ => false,
    };
    let idle = match progress {
        Progress::Idle => true,
        _ => false,
    };
    let gathering = match progress {
        Progress::InFragment => true,
        _ => false,
    };
    let torn = Decision {
        action: if strict {
            Action::Fail
        } else {
            Action::Finish
        },
        damage: true,
    };
    let (in_turn, wanted) = match kind {
        FrameKind::Full => (idle, Action::Deliver),
        FrameKind::First => (idle, Action::Begin),
        FrameKind::Middle => (gathering, Action::Extend),
        FrameKind::Last => (gathering, Action::DeliverJoined),
        FrameKind::Trailer => (true, Action::Pass),
        FrameKind::Foreign => (true, if idle {
            Action::Pass
        } else {
            Action::Poison
        }),
        FrameKind::BadLength => (false, Action::Discard),
        FrameKind::BadChecksum => (false, Action::Discard),
        FrameKind::Truncated => {
            return torn;
        },
        FrameKind::Eof => {
            if idle {
                return Decision { action: Action::Finish, damage: false };
            }
            return torn;
        },
    };
    if in_turn {
        Decision { action: wanted, damage: false }
    } else if !passing {
        Decision { action: Action::Fail, damage: true }
    } else {
        let action = match kind {
            FrameKind::Full => Action::Deliver,
            FrameKind::First => Action::Begin,
            _ => Action::Discard,
        };
        Decision { action, damage: true }
    }
}

/// How one call for a record ends: with a record or without, at a place of
/// the log, failed or not, and whether damage was met.
pub struct Assembled {
    pub record: Option<Seq<u8>>,
    pub pos: nat,
    pub failed: bool,
    pub damage: bool,
}

/// Reads frames from `pos` on until a record is complete or the reading ends,
/// starting `progress` into a record of which `partial` is gathered.
#[verifier::opaque]
pub open spec fn assemble(
    data: Seq<u8>,
    log_number: u64,
    checksum: bool,
    mode: WALRecoveryMode,
    pos: nat,
    progress: Progress,
    partial: Seq<u8>,
    damage: bool,
) -> Assembled
    decreases data.len() - pos,
    via assemble_decreases
{
    let found = scan(data, pos, log_number, checksum);
    let d = decide(mode, progress, found.kind);
    let next = pos + found.used;
    let damage = damage || d.damage;
    if pos > data.len() {
        Assembled { record: None, pos, failed: false, damage }
    } else {
        match d.action {
            Action::Deliver => Assembled {
                record: Some(found.payload),
                pos: next,
                failed: false,
                damage,
            },
            Action::DeliverJoined => Assembled {
                record: Some(partial + found.payload),
                pos: next,
                failed: false,
                damage,
            },
            Action::Begin => assemble(
                data,
                log_number,
                checksum,
                mode,
                next,
                Progress::InFragment,
                found.payload,
                damage,
            ),
            Action::Extend => assemble(
                data,
                log_number,
                checksum,
                mode,
                next,
                Progress::InFragment,
                partial + found.payload,
                damage,
            ),
            Action::Pass => assemble(
                data,
                log_number,
                checksum,
                mode,
                next,
                progress,
                partial,
                damage,
            ),
            Action::Poison => assemble(
                data,
                log_number,
                checksum,
                mode,
                next,
                Progress::Broken,
                partial,
                damage,
            ),
            Action::Discard => assemble(
                data,
                log_number,
                checksum,
                mode,
                next,
                Progress::Idle,
                Seq::<u8>::empty(),
                damage,
            ),
            Action::Fail => Assembled { record: None, pos: next, failed: true, damage },
            Action::Finish => Assembled { record: None, pos: next, failed: false, damage },
        }
    }
}

#[via_fn]
proof fn assemble_decreases(
    data: Seq<u8>,
    log_number: u64,
    checksum: bool,
    mode: WALRecoveryMode,
    pos: nat,
    progress: Progress,
    partial: Seq<u8>,
    damage: bool,
) {
    if pos <= data.len() {
        lemma_scan_advances(data, pos, log_number, checksum);
    }
}

/// After a frame that goes on with a record, the reading goes on behind the
/// frame.
pub proof fn lemma_assemble_on(
    data: Seq<u8>,
    log_number: u64,
    checksum: bool,
    mode: WALRecoveryMode,
    pos: nat,
    progress: Progress,
    partial: Seq<u8>,
    damage: bool,
)
    requires
        pos <= data.len(),
        !decide(mode, progress, scan(data, pos, log_number, checksum).kind).damage,
    ensures
        ({
            let found = scan(data, pos, log_number, checksum);
            let next = pos + found.used;
            let whole = Assembled { record: None, pos: next, failed: false, damage };
            assemble(data, log_number, checksum, mode, pos, progress, partial, damage) == match decide(
                mode,
                progress,
                found.kind,
            ).action {
                Action::Deliver => Assembled { record: Some(found.payload), ..whole },
                Action::DeliverJoined => Assembled { record: Some(partial + found.payload), ..whole },
                Action::Begin => assemble(
                    data,
                    log_number,
                    checksum,
                    mode,
                    next,
                    Progress::InFragment,
                    found.payload,
                    damage,
                ),
                Action::Extend => assemble(
                    data,
                    log_number,
                    checksum,
                    mode,
                    next,
                    Progress::InFragment,
                    partial + found.payload,
                    damage,
                ),
                Action::Pass => assemble(
                    data,
                    log_number,
                    checksum,
                    mode,
                    next,
                    progress,
                    partial,
                    damage,
                ),
                Action::Poison => assemble(
                    data,
                    log_number,
                    checksum,
                    mode,
                    next,
                    Progress::Broken,
                    partial,
                    damage,
                ),
                Action::Discard => assemble(
                    data,
                    log_number,
                    checksum,
                    mode,
                    next,
                    Progress::Idle,
                    Seq::<u8>::empty(),
                    damage,
                ),
                Action::Fail => Assembled { failed: true, ..whole },
                Action::Finish => whole,
            }
        }),
{
    reveal(assemble);
}

/// What a reader has come to between two calls.
pub struct ReaderModel {
    /// How many bytes of the log are done with.
    pub pos: nat,
    /// Whether the reading has ended with an error.
    pub failed: bool,
    /// Whether damage was met.
    pub damaged: bool,
    /// Whether a record was handed out.
    pub delivered: bool,
    /// Where the last record ended that was handed out before any damage was
    /// met: up to here the log is sound.
    pub last_good: nat,
}

/// What one call for a record gives, and what the reader has come to then. A
/// reader that has failed gives nothing more. A reader that recovers to a
/// point in time fails where the log ends and all it has met is damage.
pub open spec fn read_record_spec(
    data: Seq<u8>,
    log_number: u64,
    checksum: bool,
    mode: WALRecoveryMode,
    m: ReaderModel,
) -> (Option<Seq<u8>>, ReaderModel) {
    if m.failed {
        (None, m)
    } else {
        let a = assemble(
            data,
            log_number,
            checksum,
            mode,
            m.pos,
            Progress::Idle,
            Seq::<u8>::empty(),
            false,
        );
        let damaged = m.damaged || a.damage;
        let delivered = m.delivered || a.record.is_some();
        let lost = mode == WALRecoveryMode::PointInTimeRecovery && a.record.is_none() && damaged
            && !delivered;
        (
            a.record,
            ReaderModel {
                pos: a.pos,
                failed: a.failed || lost,
                damaged,
                delivered,
                last_good: if a.record.is_some() && !damaged {
                    a.pos
                } else {
                    m.last_good
                },
            },
        )
    }
}

/// What becomes of a read of a block that the file answered with `ok` and
/// with `got` bytes, when the blocks before it ended at `end_of_buffer_offset`:
/// where the block ends and whether the file ends with it, or nothing where
/// the read has failed. A read has failed where the file says so, where it
/// gave more than a block, and where the file is longer than an offset can
/// tell.
pub open spec fn block_taken(ok: bool, got: nat, end_of_buffer_offset: nat) -> Option<(nat, bool)> {
    if ok && got <= BLOCK_SIZE && end_of_buffer_offset + got <= u64::MAX {
        Some((end_of_buffer_offset + got, got < BLOCK_SIZE))
    } else {
        None
    }
}

/// What becomes of a read of a block.
pub fn after_block_read(ok: bool, got: usize, end_of_buffer_offset: u64) -> (r: Option<
    (u64, bool),
>)
    ensures
        match block_taken(ok, got as nat, end_of_buffer_offset as nat) {
            Some((end, last)) => r == Some((end as u64, last)),
            None => r.is_none(),
        },
{
    if !ok || got > BLOCK_SIZE || got as u64 > u64::MAX - end_of_buffer_offset {
        None
    } else {
        Some((end_of_buffer_offset + got as u64, got < BLOCK_SIZE))
    }
}

/// Reads the records of a log back, block by block.
pub struct Reader<T: SequentialFile> {
    file_: SequentialFileReader<T>,
    log_number_: u64,
    checksum_: bool,
    buffer_: Vec<u8>,
    buffer_pos_: usize,
    eof_: bool,
    read_error_: bool,
    end_of_buffer_offset_: u64,
    failed_: bool,
    damaged_: bool,
    delivered_: bool,
    last_record_end_: u64,
}

impl<T: SequentialFile> View for Reader<T> {
    type V = ReaderModel;

    closed spec fn view(&self) -> ReaderModel {
        ReaderModel {
            pos: (self.end_of_buffer_offset_ - (self.buffer_@.len() - self.buffer_pos_)) as nat,
            failed: self.failed_,
            damaged: self.damaged_,
            delivered: self.delivered_,
            last_good: self.last_record_end_ as nat,
        }
    }
}

proof fn lemma_block_of(start: nat, within: nat)
    requires
        start % (BLOCK_SIZE as nat) == 0,
        within < BLOCK_SIZE,
    ensures
        ((start + within) / (BLOCK_SIZE as nat) + 1) * BLOCK_SIZE == start + BLOCK_SIZE,
{
}

impl<T: SequentialFile> Reader<T> {
    /// The bytes of the log.
    pub closed spec fn log(&self) -> Seq<u8> {
        self.file_.file().contents()
    }

    /// The number of the log that is read.
    pub closed spec fn log_number(&self) -> u64 {
        self.log_number_
    }

    /// Whether checksums are verified.
    pub closed spec fn checksum(&self) -> bool {
        self.checksum_
    }

    /// Whether the file has failed. Nothing is known of the log from then on.
    pub closed spec fn io_failed(&self) -> bool {
        self.read_error_
    }

    /// The file never fails to be read, and is no longer than an offset can
    /// tell. A reader of such a file never comes to fail by its file.
    pub closed spec fn sound_file(&self) -> bool {
        self.file_.file().dependable() && self.file_.file().contents().len() <= u64::MAX
    }

    /// How many bytes of the file the reader has asked for.
    pub closed spec fn fetched(&self) -> nat {
        self.file_.file().position()
    }

    /// The file is read block by block: what the reader has asked for ends
    /// with a block or with the file, and is less than a block ahead of the
    /// place where the reader stands.
    pub open spec fn reads_by_blocks(&self) -> bool {
        &&& self@.pos <= self.fetched() <= self.log().len()
        &&& self.fetched() - self@.pos <= BLOCK_SIZE
        &&& self.fetched() % (BLOCK_SIZE as nat) == 0 || self.fetched() == self.log().len()
    }

    /// The file is read to its end, and nothing of it waits in the buffer. A
    /// reader that has come so far asks nothing more of its file.
    pub closed spec fn exhausted(&self) -> bool {
        self.eof_ && self.buffer_pos_ == self.buffer_@.len()
    }

    /// The buffer holds the block in which the reader stands, as the file has
    /// it.
    pub closed spec fn wf(&self) -> bool {
        &&& self.buffer_pos_ <= self.buffer_@.len() <= BLOCK_SIZE
        &&& self.buffer_@.len() <= self.end_of_buffer_offset_
        &&& self.last_record_end_ <= self@.pos
        &&& !self.read_error_ ==> {
            &&& self.file_.file().position() == self.end_of_buffer_offset_
            &&& self.end_of_buffer_offset_ <= self.log().len()
            &&& self.buffer_@ == self.log().subrange(
                self.end_of_buffer_offset_ - self.buffer_@.len(),
                self.end_of_buffer_offset_ as int,
            )
            &&& (self.end_of_buffer_offset_ - self.buffer_@.len()) % (BLOCK_SIZE as int) == 0
            &&& self.eof_ ==> self.end_of_buffer_offset_ == self.log().len() && self.buffer_@.len()
                < BLOCK_SIZE
            &&& !self.eof_ ==> self.buffer_@.len() == BLOCK_SIZE || (self.buffer_@.len() == 0
                && self.end_of_buffer_offset_ == 0)
        }
    }

    proof fn lemma_reads_by_blocks(&self)
        requires
            self.wf(),
            !self.read_error_,
        ensures
            self.reads_by_blocks(),
    {
    }

    /// A reader at the start of the log that `file` holds.
    pub fn new(file: SequentialFileReader<T>, log_number: u64, checksum: bool) -> (r: Reader<T>)
        requires
            file.file().position() == 0,
        ensures
            r.wf(),
            !r.io_failed(),
            !r.exhausted(),
            r.fetched() == 0,
            r.sound_file() == (file.file().dependable() && file.file().contents().len()
                <= u64::MAX),
            r.log() == file.file().contents(),
            r.log_number() == log_number,
            r.checksum() == checksum,
            r@ == (ReaderModel {
                pos: 0,
                failed: false,
                damaged: false,
                delivered: false,
                last_good: 0,
            }),
    {
        let r = Reader {
            file_: file,
            log_number_: log_number,
            checksum_: checksum,
            buffer_: Vec::new(),
            buffer_pos_: 0,
            eof_: false,
            read_error_: false,
            end_of_buffer_offset_: 0,
            failed_: false,
            damaged_: false,
            delivered_: false,
            last_record_end_: 0,
        };
        assert(r.buffer_@ =~= r.log().subrange(0, 0));
        r
    }

    /// Whether the reading has ended with an error: damage that the mode of
    /// recovery does not accept, or a failure of the file.
    pub fn status(&self) -> (s: State)
        ensures
            s.is_ok() <==> !self@.failed && !self.io_failed(),
            self.io_failed() ==> s.code() == Code::KIOError,
            !self.io_failed() && self@.failed ==> s.code() == Code::KCorruption,
    {
        if self.read_error_ {
            State::new(Code::KIOError, "log read failed".to_string(), "".to_string())
        } else if self.failed_ {
            State::new(Code::KCorruption, "log is damaged".to_string(), "".to_string())
        } else {
            State::ok()
        }
    }

    /// Where the last record ended that was handed out before any damage was
    /// met: a log cut there is sound. The offset lies within the log, at or
    /// before the place where the reader stands.
    pub fn last_good_offset(&self) -> (n: u64)
        requires
            self.wf(),
        ensures
            n == self@.last_good,
            n <= self@.pos,
            !self.io_failed() ==> n <= self.log().len(),
    {
        self.last_record_end_
    }

    /// Fetches the next block where the buffer is used up.
    fn fill_buffer(&mut self)
        requires
            old(self).wf(),
            !old(self).read_error_,
        ensures
            final(self).wf(),
            final(self).log() == old(self).log(),
            final(self).log_number_ == old(self).log_number_,
            final(self).checksum_ == old(self).checksum_,
            final(self).failed_ == old(self).failed_,
            final(self).damaged_ == old(self).damaged_,
            final(self).delivered_ == old(self).delivered_,
            final(self).last_record_end_ == old(self).last_record_end_,
            final(self).sound_file() == old(self).sound_file(),
            !final(self).read_error_ ==> final(self).fetched() >= old(self).fetched(),
            old(self).sound_file() || old(self).exhausted() || old(self).buffer_pos_
                < old(self).buffer_@.len() ==> !final(self).read_error_,
            !final(self).read_error_ ==> final(self)@ == old(self)@,
            !final(self).read_error_ ==> final(self).buffer_pos_ < final(self).buffer_@.len() || (
            final(self).eof_ && final(self)@.pos == final(self).log().len()),
            !final(self).read_error_ && final(self).buffer_pos_ == final(self).buffer_@.len()
                ==> final(self).eof_,
    {
        if self.buffer_pos_ < self.buffer_.len() || self.eof_ {
            return ;
        }
        let ghost data = self.log();
        let ghost at = self.end_of_buffer_offset_ as nat;
        let mut scratch: Vec<u8> = Vec::new();
        let s = self.file_.read(BLOCK_SIZE, &mut self.buffer_, &mut scratch);
        let got = self.buffer_.len();
        match after_block_read(s.is_ok(), got, self.end_of_buffer_offset_) {
            None => {
                self.read_error_ = true;
                self.buffer_ = Vec::new();
                self.buffer_pos_ = 0;
                self.end_of_buffer_offset_ = self.last_record_end_;
                return ;
            },
            Some((end, last)) => {
                self.end_of_buffer_offset_ = end;
                self.buffer_pos_ = 0;
                if last {
                    self.eof_ = true;
                }
            },
        }
        assert(self.buffer_@ =~= data.subrange(at as int, at + got));
    }

    /// Reads the frame at which the reader stands.
    fn read_physical_record(&mut self) -> (r: (FrameKind, Vec<u8>))
        requires
            old(self).wf(),
            !old(self).read_error_,
        ensures
            final(self).wf(),
            final(self).log() == old(self).log(),
            final(self).log_number_ == old(self).log_number_,
            final(self).checksum_ == old(self).checksum_,
            final(self).failed_ == old(self).failed_,
            final(self).damaged_ == old(self).damaged_,
            final(self).delivered_ == old(self).delivered_,
            final(self).last_record_end_ == old(self).last_record_end_,
            final(self).sound_file() == old(self).sound_file(),
            !final(self).read_error_ ==> final(self).fetched() >= old(self).fetched(),
            old(self).sound_file() || old(self).exhausted() ==> !final(self).read_error_,
            old(self).exhausted() ==> final(self).exhausted(),
            !final(self).read_error_ && (r.0 == FrameKind::Eof || r.0 == FrameKind::Truncated)
                ==> final(self).exhausted(),
            !final(self).read_error_ ==> {
                let found = scan(
                    old(self).log(),
                    old(self)@.pos,
                    old(self).log_number_,
                    old(self).checksum_,
                );
                &&& old(self)@.pos <= old(self).log().len()
                &&& r.0 == found.kind
                &&& r.1@ == found.payload
                &&& final(self)@.pos == old(self)@.pos + found.used
            },
    {
        self.fill_buffer();
        if self.read_error_ {
            return (FrameKind::Eof, Vec::new());
        }
        let ghost data = self.log();
        let ghost pos = self@.pos;
        proof {
            let start = (self.end_of_buffer_offset_ - self.buffer_@.len()) as nat;
            if self.buffer_pos_ < self.buffer_@.len() {
                lemma_block_of(start, self.buffer_pos_ as nat);
                assert(block_end(data.len(), pos) == self.end_of_buffer_offset_);
                assert(in_last_block(data.len(), pos) == self.eof_);
                assert(window(data, pos) =~= self.buffer_@.subrange(
                    self.buffer_pos_ as int,
                    self.buffer_@.len() as int,
                ));
            } else {
                assert(window(data, pos) =~= self.buffer_@.subrange(
                    self.buffer_pos_ as int,
                    self.buffer_@.len() as int,
                ));
            }
        }
        let rest = slice_subrange(self.buffer_.as_slice(), self.buffer_pos_, self.buffer_.len());
        let (kind, payload, used) = parse_window(rest, self.eof_, self.log_number_, self.checksum_);
        proof {
            lemma_scan_window_used(rest@, self.eof_, self.log_number_, self.checksum_);
            lemma_scan_window_used(
                rest@,
                in_last_block(data.len(), pos),
                self.log_number_,
                self.checksum_,
            );
        }
        self.buffer_pos_ = self.buffer_pos_ + used;
        (kind, payload)
    }

    /// Notes how a call for a record has ended.
    fn conclude(&mut self, got: bool, hard: bool, damage: bool, mode: WALRecoveryMode)
        requires
            old(self).wf(),
            got ==> !hard,
        ensures
            final(self).wf(),
            final(self).log() == old(self).log(),
            final(self).log_number_ == old(self).log_number_,
            final(self).checksum_ == old(self).checksum_,
            final(self).read_error_ == old(self).read_error_,
            final(self).sound_file() == old(self).sound_file(),
            final(self).exhausted() == old(self).exhausted(),
            final(self).fetched() == old(self).fetched(),
            !final(self).read_error_ ==> final(self).reads_by_blocks(),
            final(self)@ == (ReaderModel {
                pos: old(self)@.pos,
                failed: old(self)@.failed || hard || (mode == WALRecoveryMode::PointInTimeRecovery
                    && !got && (old(self)@.damaged || damage) && !old(self)@.delivered),
                damaged: old(self)@.damaged || damage,
                delivered: old(self)@.delivered || got,
                last_good: if got && !(old(self)@.damaged || damage) {
                    old(self)@.pos
                } else {
                    old(self)@.last_good
                },
            }),
    {
        proof {
            if !self.read_error_ {
                self.lemma_reads_by_blocks();
            }
        }
        if damage {
            self.damaged_ = true;
        }
        if hard {
            self.failed_ = true;
        }
        if got {
            self.delivered_ = true;
            if !self.damaged_ {
                self.last_record_end_ = self.end_of_buffer_offset_ - (self.buffer_.len()
                    - self.buffer_pos_) as u64;
            }
        } else {
            let to_a_point = match mode {
                WALRecoveryMode::PointInTimeRecovery => true,
                _ => false,
            };
            if to_a_point && self.damaged_ && !self.delivered_ {
                self.failed_ = true;
            }
        }
    }

    /// Reads the next record of the log into `record` and says whether there
    /// was one. The fragments of a record are gathered in `scratch`, which is
    /// left empty. What is damage and what becomes of it is told by `decide`
    /// for the mode of recovery `recovery_mode`.
    #[verifier::rlimit(40)]
    pub fn read_record(
        &mut self,
        record: &mut Vec<u8>,
        scratch: &mut Vec<u8>,
        recovery_mode: WALRecoveryMode,
    ) -> (got: bool)
        requires
            old(self).wf(),
        ensures
            final(self).wf(),
            final(self).log() == old(self).log(),
            final(self).log_number() == old(self).log_number(),
            final(self).checksum() == old(self).checksum(),
            final(self).sound_file() == old(self).sound_file(),
            old(self).io_failed() ==> final(self).io_failed(),
            !old(self).io_failed() && (old(self).sound_file() || old(self).exhausted()
                || old(self)@.failed) ==> !final(self).io_failed(),
            !got && !final(self).io_failed() && !final(self)@.failed ==> final(self).exhausted(),
            !final(self).io_failed() ==> final(self).reads_by_blocks() && final(self).fetched()
                >= old(self).fetched(),
            final(self).io_failed() ==> !got,
            final(scratch)@.len() == 0,
            !got ==> final(record)@.len() == 0,
            !final(self).io_failed() ==> {
                let (found, then) = read_record_spec(
                    old(self).log(),
                    old(self).log_number(),
                    old(self).checksum(),
                    recovery_mode,
                    old(self)@,
                );
                &&& final(self)@ == then
                &&& got == found.is_some()
                &&& got ==> final(record)@ == found.unwrap()
            },
    {
        scratch.clear();
        record.clear();
        if self.read_error_ || self.failed_ {
            proof {
                if !self.read_error_ {
                    self.lemma_reads_by_blocks();
                }
            }
            return false;
        }
        let ghost data = self.log();
        let ghost target = assemble(
            data,
            self.log_number_,
            self.checksum_,
            recovery_mode,
            self@.pos,
            Progress::Idle,
            Seq::<u8>::empty(),
            false,
        );
        let mut progress = Progress::Idle;
        let mut damage = false;
        loop
            invariant
                self.wf(),
                !self.read_error_,
                !self.failed_,
                self.log() == data,
                data == old(self).log(),
                self.log_number_ == old(self).log_number_,
                self.checksum_ == old(self).checksum_,
                self.damaged_ == old(self).damaged_,
                self.delivered_ == old(self).delivered_,
                self.last_record_end_ == old(self).last_record_end_,
                !old(self).read_error_,
                !old(self).failed_,
                self.sound_file() == old(self).sound_file(),
                self.fetched() >= old(self).fetched(),
                old(self).exhausted() ==> self.exhausted(),
                record@.len() == 0,
                target == assemble(
                    data,
                    old(self).log_number_,
                    old(self).checksum_,
                    recovery_mode,
                    old(self)@.pos,
                    Progress::Idle,
                    Seq::<u8>::empty(),
                    false,
                ),
                target == assemble(
                    data,
                    self.log_number_,
                    self.checksum_,
                    recovery_mode,
                    self@.pos,
                    progress,
                    scratch@,
                    damage,
                ),
            decreases data.len() - self@.pos,
        {
            reveal(assemble);
            let ghost before = self@.pos;
            let (kind, mut fragment) = self.read_physical_record();
            if self.read_error_ {
                scratch.clear();
                return false;
            }
            proof {
                lemma_scan_advances(data, before, self.log_number_, self.checksum_);
            }
            let d = decide_action(recovery_mode, progress, kind);
            damage = damage || d.damage;
            match d.action {
                Action::Deliver => {
                    scratch.clear();
                    *record = fragment;
                    self.conclude(true, false, damage, recovery_mode);
                    return true;
                },
                Action::DeliverJoined => {
                    scratch.append(&mut fragment);
                    core::mem::swap(record, scratch);
                    scratch.clear();
                    self.conclude(true, false, damage, recovery_mode);
                    return true;
                },
                Action::Begin => {
                    *scratch = fragment;
                    progress = Progress::InFragment;
                },
                Action::Extend => {
                    scratch.append(&mut fragment);
                },
                Action::Pass => {},
                Action::Poison => {
                    progress = Progress::Broken;
                },
                Action::Discard => {
                    scratch.clear();
                    progress = Progress::Idle;
                },
                Action::Fail => {
                    scratch.clear();
                    self.conclude(false, true, damage, recovery_mode);
                    return false;
                },
                Action::Finish => {
                    scratch.clear();
                    self.conclude(false, false, damage, recovery_mode);
                    return false;
                },
            }
        }
    }
}

} // verus!

use crate::util::coding;
use crate::util::hash;
use vstd::prelude::*;

verus! {

/// The log is written in blocks of this many bytes.
pub const BLOCK_SIZE: usize = 32768;

/// A frame's header: checksum (4), length (2), type (1).
pub const HEADER_SIZE: usize = 7;

/// The header of a frame that names its log: checksum (4), length (2), type
/// (1), log number (4).
pub const RECYCLABLE_HEADER_SIZE: usize = 11;

/// The largest byte that stands for a record type.
pub const MAX_RECORD_TYPE: u8 = 8;

/// What a frame is of a record: all of it, or its first, a middle or its last
/// fragment. The recyclable kinds carry the number of their log.
#[derive(Clone, Copy, Debug, PartialEq, Eq, Structural)]
pub enum RecordType {
    /// Stands in room that was reserved and never written.
    Zero,
    Full,
    First,
    Middle,
    Last,
    RecyclableFull,
    RecyclableFirst,
    RecyclableMiddle,
    RecyclableLast,
}

impl RecordType {
    /// The byte that stands for the type in a header.
    pub open spec fn byte(self) -> u8 {
        match self {
            RecordType::Zero => 0,
            RecordType::Full => 1,
            RecordType::First => 2,
            RecordType::Middle => 3,
            RecordType::Last => 4,
            RecordType::RecyclableFull => 5,
            RecordType::RecyclableFirst => 6,
            RecordType::RecyclableMiddle => 7,
            RecordType::RecyclableLast => 8,
        }
    }

    /// Whether frames of the type carry a log number.
    pub open spec fn recyclable(self) -> bool {
        byte_recyclable(self.byte())
    }

    pub fn as_byte(self) -> (b: u8)
        ensures
            b == self.byte(),
            b <= MAX_RECORD_TYPE,
    {
        match self {
            RecordType::Zero => 0,
            RecordType::Full => 1,
            RecordType::First => 2,
            RecordType::Middle => 3,
            RecordType::Last => 4,
            RecordType::RecyclableFull => 5,
            RecordType::RecyclableFirst => 6,
            RecordType::RecyclableMiddle => 7,
            RecordType::RecyclableLast => 8,
        }
    }

    /// The type that `b` stands for, if any.
    pub fn from_byte(b: u8) -> (t: Option<RecordType>)
        ensures
            b <= MAX_RECORD_TYPE ==> t.is_some() && t.unwrap().byte() == b,
            b > MAX_RECORD_TYPE ==> t.is_none(),
    {
        match b {
            0 => Some(RecordType::Zero),
            1 => Some(RecordType::Full),
            2 => Some(RecordType::First),
            3 => Some(RecordType::Middle),
            4 => Some(RecordType::Last),
            5 => Some(RecordType::RecyclableFull),
            6 => Some(RecordType::RecyclableFirst),
            7 => Some(RecordType::RecyclableMiddle),
            8 => Some(RecordType::RecyclableLast),
            _ => None,
        }
    }
}

/// Whether a type byte is one of the recyclable kinds.
pub open spec fn byte_recyclable(b: u8) -> bool {
    5 <= b <= 8
}

/// The size of a frame's header.
pub open spec fn header_size(recyclable: bool) -> nat {
    if recyclable {
        RECYCLABLE_HEADER_SIZE as nat
    } else {
        HEADER_SIZE as nat
    }
}

/// `n` zero bytes.
pub open spec fn zeros(n: nat) -> Seq<u8> {
    Seq::new(n, |i: int| 0u8)
}

/// The four bytes that stand for a log in a header: the low half of its
/// number.
pub open spec fn log_number_bytes(log_number: u64) -> Seq<u8> {
    coding::fixed64_bytes(log_number).take(4)
}

/// What a frame's checksum covers: the type byte, the log number if the type
/// carries one, and the payload.
pub open spec fn checksummed(type_byte: u8, log_number: Seq<u8>, payload: Seq<u8>) -> Seq<u8> {
    seq![type_byte] + (if byte_recyclable(type_byte) {
        log_number
    } else {
        Seq::<u8>::empty()
    }) + payload
}

/// The checksum of a frame.
pub open spec fn frame_checksum(type_byte: u8, log_number: Seq<u8>, payload: Seq<u8>) -> u32 {
    hash::crc32_spec(0, checksummed(type_byte, log_number, payload))
}

/// The header of a frame.
pub open spec fn frame_header(t: RecordType, log_number: u64, payload: Seq<u8>) -> Seq<u8> {
    coding::fixed32_bytes(frame_checksum(t.byte(), log_number_bytes(log_number), payload)) + seq![
        (payload.len() % 256) as u8,
        (payload.len() / 256) as u8,
    ] + seq![t.byte()] + (if t.recyclable() {
        log_number_bytes(log_number)
    } else {
        Seq::<u8>::empty()
    })
}

/// A frame: header, then payload. The payload is shorter than 65536 bytes.
#[verifier::opaque]
pub open spec fn frame(t: RecordType, log_number: u64, payload: Seq<u8>) -> Seq<u8> {
    frame_header(t, log_number, payload) + payload
}

/// The type of a fragment that is or is not the first and the last of its
/// record.
pub open spec fn fragment_type(recycle: bool, begin: bool, end: bool) -> RecordType {
    if begin && end {
        if recycle {
            RecordType::RecyclableFull
        } else {
            RecordType::Full
        }
    } else if begin {
        if recycle {
            RecordType::RecyclableFirst
        } else {
            RecordType::First
        }
    } else if end {
        if recycle {
            RecordType::RecyclableLast
        } else {
            RecordType::Last
        }
    } else {
        if recycle {
            RecordType::RecyclableMiddle
        } else {
            RecordType::Middle
        }
    }
}

/// How many zero bytes fill the block before the next frame: all that is left
/// of the block, where that is less than a header.
pub open spec fn padding(block_offset: nat, recycle: bool) -> nat {
    if BLOCK_SIZE - block_offset < header_size(recycle) {
        (BLOCK_SIZE - block_offset) as nat
    } else {
        0
    }
}

/// Where in its block the next frame starts.
pub open spec fn frame_start(block_offset: nat, recycle: bool) -> nat {
    if BLOCK_SIZE - block_offset < header_size(recycle) {
        0
    } else {
        block_offset
    }
}

/// How much of `left` bytes of payload the next frame takes: what the block
/// has room for after the header.
pub open spec fn fragment_len(block_offset: nat, recycle: bool, left: nat) -> nat {
    let avail = (BLOCK_SIZE - frame_start(block_offset, recycle) - header_size(recycle)) as nat;
    if left < avail {
        left
    } else {
        avail
    }
}

/// The bytes that a record adds to a log whose last block holds
/// `block_offset` bytes: padding where no header fits, then a frame with as
/// much of the payload as the block takes, and so on until the payload is out.
/// `begin` says that nothing of the record has been written yet. A record
/// without payload is one frame without payload.
#[verifier::opaque]
pub open spec fn record_bytes(
    block_offset: nat,
    recycle: bool,
    log_number: u64,
    payload: Seq<u8>,
    begin: bool,
) -> Seq<u8>
    decreases payload.len(), padding(block_offset, recycle) + BLOCK_SIZE - block_offset,
{
    if block_offset > BLOCK_SIZE {
        Seq::<u8>::empty()
    } else {
        let start = frame_start(block_offset, recycle);
        let n = fragment_len(block_offset, recycle, payload.len());
        let end = n == payload.len();
        zeros(padding(block_offset, recycle)) + frame(
            fragment_type(recycle, begin, end),
            log_number,
            payload.take(n as int),
        ) + (if end {
            Seq::<u8>::empty()
        } else {
            record_bytes(
                start + header_size(recycle) + n,
                recycle,
                log_number,
                payload.skip(n as int),
                false,
            )
        })
    }
}

/// A frame is as long as its header and its payload.
pub proof fn lemma_frame_len(t: RecordType, log_number: u64, payload: Seq<u8>)
    ensures
        frame(t, log_number, payload).len() == header_size(t.recyclable()) + payload.len(),
{
    reveal(frame);
}

/// The bytes of a record, one frame at a time.
pub proof fn lemma_record_bytes_step(
    block_offset: nat,
    recycle: bool,
    log_number: u64,
    payload: Seq<u8>,
    begin: bool,
)
    requires
        block_offset <= BLOCK_SIZE,
    ensures
        record_bytes(block_offset, recycle, log_number, payload, begin) == zeros(
            padding(block_offset, recycle),
        ) + frame(
            fragment_type(
                recycle,
                begin,
                fragment_len(block_offset, recycle, payload.len()) == payload.len(),
            ),
            log_number,
            payload.take(fragment_len(block_offset, recycle, payload.len()) as int),
        ) + (if fragment_len(block_offset, recycle, payload.len()) == payload.len() {
            Seq::<u8>::empty()
        } else {
            record_bytes(
                frame_start(block_offset, recycle) + header_size(recycle) + fragment_len(
                    block_offset,
                    recycle,
                    payload.len(),
                ),
                recycle,
                log_number,
                payload.skip(fragment_len(block_offset, recycle, payload.len()) as int),
                false,
            )
        }),
{
    reveal(record_bytes);
}

/// How many bytes the last block holds after a record of `left` bytes of
/// payload was added at `block_offset`.
pub open spec fn end_offset(block_offset: nat, recycle: bool, left: nat) -> nat
    decreases left, padding(block_offset, recycle) + BLOCK_SIZE - block_offset,
{
    if block_offset > BLOCK_SIZE {
        block_offset
    } else {
        let start = frame_start(block_offset, recycle);
        let n = fragment_len(block_offset, recycle, left);
        if n == left {
            start + header_size(recycle) + n
        } else {
            end_offset(start + header_size(recycle) + n, recycle, (left - n) as nat)
        }
    }
}

/// Where a record ends in its block: the last block is not overfull after a
/// record, and holds as many bytes as `end_offset` says.
pub proof fn lemma_record_end(
    block_offset: nat,
    recycle: bool,
    log_number: u64,
    payload: Seq<u8>,
    begin: bool,
)
    requires
        block_offset <= BLOCK_SIZE,
    ensures
        header_size(recycle) <= end_offset(block_offset, recycle, payload.len()) <= BLOCK_SIZE,
        (block_offset + record_bytes(block_offset, recycle, log_number, payload, begin).len()) % (
        BLOCK_SIZE as nat) == end_offset(block_offset, recycle, payload.len()) % (
        BLOCK_SIZE as nat),
        record_bytes(block_offset, recycle, log_number, payload, begin).len() >= header_size(
            recycle,
        ) + payload.len(),
    decreases payload.len(), padding(block_offset, recycle) + BLOCK_SIZE - block_offset,
{
    let hs = header_size(recycle);
    let pad = padding(block_offset, recycle);
    let start = frame_start(block_offset, recycle);
    let n = fragment_len(block_offset, recycle, payload.len());
    let end = n == payload.len();
    let t = fragment_type(recycle, begin, end);
    lemma_record_bytes_step(block_offset, recycle, log_number, payload, begin);
    lemma_frame_len(t, log_number, payload.take(n as int));
    if !end {
        let rest = payload.skip(n as int);
        lemma_record_end(BLOCK_SIZE as nat, recycle, log_number, rest, false);
        let tail = record_bytes(BLOCK_SIZE as nat, recycle, log_number, rest, false);
        let e = end_offset(BLOCK_SIZE as nat, recycle, rest.len());
        let b = BLOCK_SIZE as nat;
        assert(block_offset + pad + hs + n == b || block_offset + pad + hs + n == 2 * b);
        assert((b + tail.len()) % b == e % b);
        assert((2 * b + tail.len()) % b == (b + tail.len()) % b);
    }
}

/// Where a record becomes two frames: a payload that the block has room for
/// is one frame that holds the whole record, up to the payload that fills the
/// block exactly. A payload that is longer, by one byte or by up to a block's
/// worth, is a first fragment that fills the block and a last fragment at the
/// start of the next block.
pub proof fn lemma_fragmentation_boundary(
    block_offset: nat,
    recycle: bool,
    log_number: u64,
    payload: Seq<u8>,
)
    requires
        block_offset + header_size(recycle) <= BLOCK_SIZE,
    ensures
        payload.len() <= BLOCK_SIZE - block_offset - header_size(recycle) ==> record_bytes(
            block_offset,
            recycle,
            log_number,
            payload,
            true,
        ) == frame(fragment_type(recycle, true, true), log_number, payload),
        BLOCK_SIZE - block_offset - header_size(recycle) < payload.len() <= BLOCK_SIZE
            - block_offset - header_size(recycle) + BLOCK_SIZE - header_size(recycle)
            ==> record_bytes(block_offset, recycle, log_number, payload, true) == frame(
            fragment_type(recycle, true, false),
            log_number,
            payload.take(BLOCK_SIZE - block_offset - header_size(recycle)),
        ) + frame(
            fragment_type(recycle, false, true),
            log_number,
            payload.skip(BLOCK_SIZE - block_offset - header_size(recycle)),
        ),
{
    let hs = header_size(recycle);
    let avail = (BLOCK_SIZE - block_offset - hs) as nat;
    lemma_record_bytes_step(block_offset, recycle, log_number, payload, true);
    assert(zeros(0) =~= Seq::<u8>::empty());
    if payload.len() <= avail {
        let f = frame(fragment_type(recycle, true, true), log_number, payload);
        assert(payload.take(payload.len() as int) =~= payload);
        assert(Seq::<u8>::empty() + f + Seq::<u8>::empty() =~= f);
    } else if payload.len() <= avail + BLOCK_SIZE - hs {
        let rest = payload.skip(avail as int);
        let first = frame(fragment_type(recycle, true, false), log_number, payload.take(avail as int));
        let last = frame(fragment_type(recycle, false, true), log_number, rest);
        lemma_record_bytes_step(BLOCK_SIZE as nat, recycle, log_number, rest, false);
        assert(rest.take(rest.len() as int) =~= rest);
        assert(Seq::<u8>::empty() + last + Seq::<u8>::empty() =~= last);
        assert(Seq::<u8>::empty() + first + last =~= first + last);
    }
}

/// How many bytes the last block holds after `records` were added one after
/// the other, from `block_offset` on.
pub open spec fn log_end(block_offset: nat, recycle: bool, records: Seq<Seq<u8>>) -> nat
    decreases records.len(),
{
    if records.len() == 0 {
        block_offset
    } else {
        end_offset(
            log_end(block_offset, recycle, records.drop_last()),
            recycle,
            records.last().len(),
        )
    }
}

/// The bytes that `records` add to a log, one after the other, from
/// `block_offset` on.
pub open spec fn log_bytes(
    block_offset: nat,
    recycle: bool,
    log_number: u64,
    records: Seq<Seq<u8>>,
) -> Seq<u8>
    decreases records.len(),
{
    if records.len() == 0 {
        Seq::<u8>::empty()
    } else {
        log_bytes(block_offset, recycle, log_number, records.drop_last()) + record_bytes(
            log_end(block_offset, recycle, records.drop_last()),
            recycle,
            log_number,
            records.last(),
            true,
        )
    }
}

/// A log grows by the bytes of the record that is added to it.
pub proof fn lemma_log_bytes_push(
    block_offset: nat,
    recycle: bool,
    log_number: u64,
    records: Seq<Seq<u8>>,
    record: Seq<u8>,
)
    ensures
        log_bytes(block_offset, recycle, log_number, records.push(record)) == log_bytes(
            block_offset,
            recycle,
            log_number,
            records,
        ) + record_bytes(log_end(block_offset, recycle, records), recycle, log_number, record, true),
        log_end(block_offset, recycle, records.push(record)) == end_offset(
            log_end(block_offset, recycle, records),
            recycle,
            record.len(),
        ),
{
    assert(records.push(record).drop_last() =~= records);
}

/// Where a log ends in its block, and that a log begins with the log of
/// fewer of its records.
pub proof fn lemma_log_end(
    block_offset: nat,
    recycle: bool,
    log_number: u64,
    records: Seq<Seq<u8>>,
    k: nat,
)
    requires
        block_offset <= BLOCK_SIZE,
        k <= records.len(),
    ensures
        log_end(block_offset, recycle, records) <= BLOCK_SIZE,
        (block_offset + log_bytes(block_offset, recycle, log_number, records).len()) % (
        BLOCK_SIZE as nat) == log_end(block_offset, recycle, records) % (BLOCK_SIZE as nat),
        log_bytes(block_offset, recycle, log_number, records.take(k as int)).len() <= log_bytes(
            block_offset,
            recycle,
            log_number,
            records,
        ).len(),
        log_bytes(block_offset, recycle, log_number, records).take(
            log_bytes(block_offset, recycle, log_number, records.take(k as int)).len() as int,
        ) == log_bytes(block_offset, recycle, log_number, records.take(k as int)),
    decreases records.len(),
{
    let b = BLOCK_SIZE as nat;
    if records.len() == 0 {
        assert(records.take(k as int) =~= records);
        assert(log_bytes(block_offset, recycle, log_number, records).take(0) =~= Seq::<u8>::empty());
    } else {
        let front = records.drop_last();
        let before = log_bytes(block_offset, recycle, log_number, front);
        let at = log_end(block_offset, recycle, front);
        let added = record_bytes(at, recycle, log_number, records.last(), true);
        if k == records.len() {
            lemma_log_end(block_offset, recycle, log_number, front, 0);
            assert(records.take(k as int) =~= records);
            assert((before + added).take((before + added).len() as int) =~= before + added);
        } else {
            lemma_log_end(block_offset, recycle, log_number, front, k);
            assert(front.take(k as int) =~= records.take(k as int));
            let part = log_bytes(block_offset, recycle, log_number, records.take(k as int));
            assert((before + added).take(part.len() as int) =~= before.take(part.len() as int));
        }
        lemma_record_end(at, recycle, log_number, records.last(), true);
        let e = end_offset(at, recycle, records.last().len());
        assert((block_offset + before.len() + added.len()) % b == e % b) by {
            let x = block_offset + before.len();
            assert(x % b == at % b);
            assert((at + added.len()) % b == e % b);
            vstd::arithmetic::div_mod::lemma_add_mod_noop(x as int, added.len() as int, b as int);
            vstd::arithmetic::div_mod::lemma_add_mod_noop(at as int, added.len() as int, b as int);
        }
    }
}

} // verus!

use crate::db::log_format;
use crate::db::log_format::RecordType;
use crate::db::log_format::BLOCK_SIZE;
use crate::db::log_format::HEADER_SIZE;
use crate::db::log_format::MAX_RECORD_TYPE;
use crate::db::log_format::RECYCLABLE_HEADER_SIZE;
use crate::env::WritableFile;
use crate::util::coding::encode_fixed32;
use crate::util::coding::encode_fixed64;
use crate::util::file_reader_writer::WritableFileWriter;
use crate::util::hash;
use crate::util::hash::crc32;
use crate::util::status::State;
use vstd::prelude::*;
use vstd::slice::slice_subrange;
use vstd::slice::slice_to_vec;

verus! {

proof fn lemma_concat(a: Seq<u8>, z: Seq<u8>, f: Seq<u8>, t: Seq<u8>)
    ensures
        a + (z + f + t) == a + z + f + t,
        (z + f + t).len() == z.len() + f.len() + t.len(),
        a + z + f + Seq::<u8>::empty() == a + z + f,
        a + Seq::<u8>::empty() == a,
{
    assert(a + (z + f + t) =~= a + z + f + t);
    assert(a + z + f + Seq::<u8>::empty() =~= a + z + f);
    assert(a + Seq::<u8>::empty() =~= a);
}

/// Writes records to a log, as frames that never cross a block's end.
pub struct Writer<T: WritableFile> {
    dest_: WritableFileWriter<T>,
    block_offset_: usize,
    log_number_: u64,
    recycle_log_files_: bool,
    manual_flush_: bool,
    type_crc_: Vec<u32>,
}

/// The type of a fragment that is or is not the first and the last of its
/// record.
fn fragment_type(recycle: bool, begin: bool, end: bool) -> (t: RecordType)
    ensures
        t == log_format::fragment_type(recycle, begin, end),
        t.recyclable() == recycle,
{
    if begin && end {
        if recycle {
            RecordType::RecyclableFull
        } else {
            RecordType::Full
        }
    } else if begin {
        if recycle {
            RecordType::RecyclableFirst
        } else {
            RecordType::First
        }
    } else if end {
        if recycle {
            RecordType::RecyclableLast
        } else {
            RecordType::Last
        }
    } else {
        if recycle {
            RecordType::RecyclableMiddle
        } else {
            RecordType::Middle
        }
    }
}

impl<T: WritableFile> Writer<T> {
    /// The file writer underneath.
    pub closed spec fn dest(&self) -> WritableFileWriter<T> {
        self.dest_
    }

    /// How many bytes the log's last block holds.
    pub closed spec fn block_offset(&self) -> nat {
        self.block_offset_ as nat
    }

    pub closed spec fn log_number(&self) -> u64 {
        self.log_number_
    }

    /// Whether the frames carry the log's number.
    pub closed spec fn recycle_log_files(&self) -> bool {
        self.recycle_log_files_
    }

    /// Whether every frame is flushed as soon as it is written.
    pub closed spec fn manual_flush(&self) -> bool {
        self.manual_flush_
    }

    /// The last block is not overfull, and the table holds the checksum of
    /// each type byte.
    #[verifier::opaque]
    pub closed spec fn wf(&self) -> bool {
        &&& self.dest_.wf()
        &&& self.block_offset_ <= BLOCK_SIZE
        &&& self.type_crc_@.len() == MAX_RECORD_TYPE + 1
        &&& forall|i: int|
            0 <= i <= MAX_RECORD_TYPE ==> #[trigger] self.type_crc_@[i] == hash::crc32_spec(
                0,
                seq![i as u8],
            )
    }

    /// What `wf` says of the parts that can be seen.
    pub proof fn lemma_wf(&self)
        requires
            self.wf(),
        ensures
            self.dest().wf(),
            self.block_offset() <= BLOCK_SIZE,
    {
        reveal(Writer::wf);
    }

    /// A writer at the start of a block of the log `log_number`.
    pub fn new(
        dest: WritableFileWriter<T>,
        log_number: u64,
        recycle_log_files: bool,
        manual_flush: bool,
    ) -> (w: Writer<T>)
        requires
            dest.wf(),
        ensures
            w.wf(),
            w.dest() == dest,
            w.block_offset() == 0,
            w.log_number() == log_number,
            w.recycle_log_files() == recycle_log_files,
            w.manual_flush() == manual_flush,
    {
        reveal(Writer::wf);
        let mut type_crc: Vec<u32> = Vec::new();
        let mut x: u8 = 0;
        while x <= MAX_RECORD_TYPE
            invariant
                x <= MAX_RECORD_TYPE + 1,
                type_crc@.len() == x,
                forall|i: int|
                    0 <= i < x ==> #[trigger] type_crc@[i] == hash::crc32_spec(0, seq![i as u8]),
            decreases MAX_RECORD_TYPE + 1 - x,
        {
            let mut one: Vec<u8> = Vec::new();
            one.push(x);
            assert(one@ =~= seq![x]);
            type_crc.push(crc32(0, one.as_slice()));
            x = x + 1;
        }
        Writer {
            dest_: dest,
            block_offset_: 0,
            log_number_: log_number,
            recycle_log_files_: recycle_log_files,
            manual_flush_: manual_flush,
            type_crc_: type_crc,
        }
    }

    /// The file writer underneath.
    pub fn file_writer(&self) -> (d: &WritableFileWriter<T>)
        ensures
            *d == self.dest(),
    {
        &self.dest_
    }

    /// Ends the writing, as the file writer's `close` does.
    pub fn close(&mut self) -> (s: State)
        requires
            old(self).wf(),
        ensures
            final(self).wf(),
            final(self).block_offset() == old(self).block_offset(),
            final(self).log_number() == old(self).log_number(),
            final(self).recycle_log_files() == old(self).recycle_log_files(),
            final(self).manual_flush() == old(self).manual_flush(),
            final(self).dest().file().direct_io() == old(self).dest().file().direct_io(),
            final(self).dest().file_size() == old(self).dest().file_size(),
            final(self).dest().pending() == old(self).dest().pending(),
            final(self).dest().write_offset() == old(self).dest().write_offset(),
            final(self).dest().synced_to() == old(self).dest().synced_to(),
            !old(self).dest().file().direct_io() ==> final(self).dest().file().contents()
                == old(self).dest().file().contents(),
            s.is_ok() && old(self).dest().file().direct_io()
                ==> final(self).dest().file().contents() == crate::env::resized(
                old(self).dest().file().contents(),
                old(self).dest().file_size(),
            ),
            s.is_ok() && old(self).dest().file().direct_io() && old(self).dest().flushed()
                && old(self).dest().file_size() == old(self).dest().stream().len()
                ==> final(self).dest().file().contents() == old(self).dest().stream(),
    {
        reveal(Writer::wf);
        self.dest_.close()
    }

    /// Adds the record `slice` to the log: as one frame where the block has
    /// room for it, else as a first, middle and last fragments that fill one
    /// block after the other. The first failure of the file ends the writing
    /// and is returned.
    #[verifier::rlimit(40)]
    pub fn add_record(&mut self, slice: Vec<u8>) -> (s: State)
        requires
            old(self).wf(),
        ensures
            final(self).wf(),
            final(self).log_number() == old(self).log_number(),
            final(self).recycle_log_files() == old(self).recycle_log_files(),
            final(self).manual_flush() == old(self).manual_flush(),
            final(self).dest().file().direct_io() == old(self).dest().file().direct_io(),
            s.is_ok() ==> final(self).block_offset() == log_format::end_offset(
                old(self).block_offset(),
                old(self).recycle_log_files(),
                slice@.len(),
            ),
            s.is_ok() && old(self).block_offset() % (BLOCK_SIZE as nat)
                == old(self).dest().file_size() % (BLOCK_SIZE as nat)
                ==> final(self).block_offset() % (BLOCK_SIZE as nat)
                == final(self).dest().file_size() % (BLOCK_SIZE as nat),
            s.is_ok() ==> final(self).dest().file_size() == old(self).dest().file_size()
                + log_format::record_bytes(
                old(self).block_offset(),
                old(self).recycle_log_files(),
                old(self).log_number(),
                slice@,
                true,
            ).len(),
            s.is_ok() && old(self).dest().consistent() ==> final(self).dest().consistent()
                && final(self).dest().stream()
                == old(self).dest().stream() + log_format::record_bytes(
                old(self).block_offset(),
                old(self).recycle_log_files(),
                old(self).log_number(),
                slice@,
                true,
            ),
            s.is_ok() && old(self).dest().consistent() && old(self).manual_flush()
                ==> final(self).dest().flushed(),
            !old(self).manual_flush() && old(self).dest().has_room(
                log_format::record_bytes(
                    old(self).block_offset(),
                    old(self).recycle_log_files(),
                    old(self).log_number(),
                    slice@,
                    true,
                ).len(),
            ) ==> s.is_ok() && final(self).dest().capacity() == old(self).dest().capacity()
                && final(self).dest().pending().len() == old(self).dest().pending().len()
                + log_format::record_bytes(
                old(self).block_offset(),
                old(self).recycle_log_files(),
                old(self).log_number(),
                slice@,
                true,
            ).len(),
    {
        let mut ptr: usize = 0;
        let mut left: usize = slice.len();
        let mut begin = true;
        let ghost recycle = self.recycle_log_files_;
        let ghost number = self.log_number_;
        let ghost total = log_format::record_bytes(
            old(self).block_offset(),
            recycle,
            number,
            slice@,
            true,
        );
        assert(slice@.skip(0) =~= slice@);
        proof {
            lemma_concat(self.dest().stream(), total, Seq::<u8>::empty(), Seq::<u8>::empty());
        }
        proof {
            old(self).lemma_wf();
        }
        loop
            invariant
                self.wf(),
                old(self).block_offset() <= BLOCK_SIZE,
                ptr + left == slice@.len() <= usize::MAX,
                begin || left > 0,
                self.recycle_log_files_ == recycle,
                self.log_number_ == number,
                recycle == old(self).recycle_log_files_,
                number == old(self).log_number_,
                total == log_format::record_bytes(
                    old(self).block_offset(),
                    recycle,
                    number,
                    slice@,
                    true,
                ),
                self.manual_flush_ == old(self).manual_flush_,
                self.dest().file().direct_io() == old(self).dest().file().direct_io(),
                log_format::end_offset(old(self).block_offset(), recycle, slice@.len())
                    == log_format::end_offset(self.block_offset(), recycle, left as nat),
                self.dest().file_size() + log_format::record_bytes(
                    self.block_offset(),
                    recycle,
                    number,
                    slice@.skip(ptr as int),
                    begin,
                ).len() == old(self).dest().file_size() + total.len(),
                old(self).dest().consistent() ==> self.dest().consistent() && self.dest().stream()
                    + log_format::record_bytes(
                    self.block_offset(),
                    recycle,
                    number,
                    slice@.skip(ptr as int),
                    begin,
                ) == old(self).dest().stream() + total,
                !old(self).manual_flush_ && old(self).dest().has_room(total.len())
                    ==> self.dest().capacity() == old(self).dest().capacity()
                    && self.dest().pending().len() + log_format::record_bytes(
                    self.block_offset(),
                    recycle,
                    number,
                    slice@.skip(ptr as int),
                    begin,
                ).len() == old(self).dest().pending().len() + total.len(),
                !old(self).manual_flush_ && old(self).dest().has_room(total.len())
                    ==> self.dest().has_room(
                    log_format::record_bytes(
                        self.block_offset(),
                        recycle,
                        number,
                        slice@.skip(ptr as int),
                        begin,
                    ).len(),
                ),
            decreases
                    left,
                    log_format::padding(self.block_offset(), recycle) + BLOCK_SIZE
                        - self.block_offset(),
        {
            let ghost at_entry = *self;
            let ghost rest = slice@.skip(ptr as int);
            proof {
                self.lemma_wf();
                log_format::lemma_record_bytes_step(
                    self.block_offset(),
                    recycle,
                    number,
                    rest,
                    begin,
                );
                log_format::lemma_frame_len(
                    log_format::fragment_type(
                        recycle,
                        begin,
                        log_format::fragment_len(self.block_offset(), recycle, left as nat)
                            == left,
                    ),
                    number,
                    rest.take(
                        log_format::fragment_len(self.block_offset(), recycle, left as nat) as int,
                    ),
                );
            }
            let s = self.pad_block();
            if !s.is_ok() {
                return s;
            }
            let ghost padded = *self;
            let header_size: usize = if self.recycle_log_files_ {
                RECYCLABLE_HEADER_SIZE
            } else {
                HEADER_SIZE
            };
            let avail: usize = BLOCK_SIZE - self.block_offset_ - header_size;
            let fragment_length: usize = if left < avail {
                left
            } else {
                avail
            };
            let end: bool = left == fragment_length;
            let rtype = fragment_type(self.recycle_log_files_, begin, end);
            let fragment = slice_subrange(slice.as_slice(), ptr, ptr + fragment_length);
            assert(fragment@.take(fragment_length as int) =~= fragment@);
            assert(fragment@ =~= rest.take(fragment_length as int));
            let s = self.emit_physical_record(rtype, fragment, fragment_length);
            if !s.is_ok() {
                return s;
            }
            proof {
                let n = fragment_length as nat;
                let f = log_format::frame(rtype, number, rest.take(n as int));
                let z = log_format::zeros(log_format::padding(at_entry.block_offset(), recycle));
                let tail = if end {
                    Seq::<u8>::empty()
                } else {
                    log_format::record_bytes(
                        self.block_offset(),
                        recycle,
                        number,
                        rest.skip(n as int),
                        false,
                    )
                };
                assert(slice@.skip(ptr + fragment_length) =~= rest.skip(n as int));
                log_format::lemma_record_bytes_step(
                    at_entry.block_offset(),
                    recycle,
                    number,
                    rest,
                    begin,
                );
                log_format::lemma_frame_len(rtype, number, rest.take(n as int));
                assert(log_format::record_bytes(
                    at_entry.block_offset(),
                    recycle,
                    number,
                    rest,
                    begin,
                ) == z + f + tail);
                lemma_concat(at_entry.dest().stream(), z, f, tail);
            }
            ptr += fragment_length;
            left -= fragment_length;
            begin = false;
            if left == 0 {
                proof {
                    let b = BLOCK_SIZE as int;
                    log_format::lemma_record_end(
                        old(self).block_offset(),
                        recycle,
                        number,
                        slice@,
                        true,
                    );
                    vstd::arithmetic::div_mod::lemma_add_mod_noop(
                        old(self).dest().file_size() as int,
                        total.len() as int,
                        b,
                    );
                    vstd::arithmetic::div_mod::lemma_add_mod_noop(
                        old(self).block_offset() as int,
                        total.len() as int,
                        b,
                    );
                }
                return s;
            }
        }
    }

    /// Fills what is left of the block with zeros where no header fits in it,
    /// and starts the next block.
    fn pad_block(&mut self) -> (s: State)
        requires
            old(self).wf(),
        ensures
            final(self).wf(),
            final(self).log_number_ == old(self).log_number_,
            final(self).recycle_log_files_ == old(self).recycle_log_files_,
            final(self).manual_flush_ == old(self).manual_flush_,
            final(self).dest().file().direct_io() == old(self).dest().file().direct_io(),
            s.is_ok() ==> final(self).block_offset() == log_format::frame_start(
                old(self).block_offset(),
                old(self).recycle_log_files_,
            ),
            s.is_ok() ==> final(self).dest().file_size() == old(self).dest().file_size()
                + log_format::padding(old(self).block_offset(), old(self).recycle_log_files_),
            s.is_ok() && old(self).dest().consistent() ==> final(self).dest().consistent()
                && final(self).dest().stream() == old(self).dest().stream() + log_format::zeros(
                log_format::padding(old(self).block_offset(), old(self).recycle_log_files_),
            ),
            old(self).dest().has_room(
                log_format::padding(old(self).block_offset(), old(self).recycle_log_files_),
            ) ==> s.is_ok() && final(self).dest().capacity() == old(self).dest().capacity()
                && final(self).dest().pending().len() == old(self).dest().pending().len()
                + log_format::padding(old(self).block_offset(), old(self).recycle_log_files_),
    {
        reveal(Writer::wf);
        let header_size: usize = if self.recycle_log_files_ {
            RECYCLABLE_HEADER_SIZE
        } else {
            HEADER_SIZE
        };
        let leftover: usize = BLOCK_SIZE - self.block_offset_;
        if leftover < header_size {
            if leftover > 0 {
                let mut fill: Vec<u8> = Vec::new();
                let mut k: usize = 0;
                while k < leftover
                    invariant
                        k <= leftover,
                        fill@ == log_format::zeros(k as nat),
                    decreases leftover - k,
                {
                    fill.push(0u8);
                    assert(fill@ =~= log_format::zeros((k + 1) as nat));
                    k = k + 1;
                }
                let s = self.dest_.append(fill);
                if !s.is_ok() {
                    return s;
                }
            } else {
                proof {
                    lemma_concat(
                        self.dest().stream(),
                        Seq::<u8>::empty(),
                        Seq::<u8>::empty(),
                        Seq::<u8>::empty(),
                    );
                    assert(log_format::zeros(0) =~= Seq::<u8>::empty());
                }
            }
            self.block_offset_ = 0;
        } else {
            proof {
                lemma_concat(
                    self.dest().stream(),
                    Seq::<u8>::empty(),
                    Seq::<u8>::empty(),
                    Seq::<u8>::empty(),
                );
                assert(log_format::zeros(0) =~= Seq::<u8>::empty());
            }
        }
        State::ok()
    }

    /// Writes the frame of type `t` with the first `n` bytes of `ptr` as its
    /// payload, and flushes it where every frame is to be flushed.
    #[verifier::rlimit(40)]
    fn emit_physical_record(&mut self, t: RecordType, ptr: &[u8], n: usize) -> (s: State)
        requires
            old(self).wf(),
            n <= ptr@.len(),
            t.recyclable() == old(self).recycle_log_files_,
            old(self).block_offset_ + log_format::header_size(t.recyclable()) + n <= BLOCK_SIZE,
        ensures
            final(self).wf(),
            final(self).log_number_ == old(self).log_number_,
            final(self).recycle_log_files_ == old(self).recycle_log_files_,
            final(self).manual_flush_ == old(self).manual_flush_,
            final(self).dest().file().direct_io() == old(self).dest().file().direct_io(),
            final(self).block_offset_ == old(self).block_offset_ + log_format::header_size(
                t.recyclable(),
            ) + n,
            s.is_ok() ==> final(self).dest().file_size() == old(self).dest().file_size()
                + log_format::frame(t, old(self).log_number_, ptr@.take(n as int)).len(),
            s.is_ok() && old(self).dest().consistent() ==> final(self).dest().consistent()
                && final(self).dest().stream() == old(self).dest().stream() + log_format::frame(
                t,
                old(self).log_number_,
                ptr@.take(n as int),
            ),
            s.is_ok() && old(self).dest().consistent() && old(self).manual_flush_
                ==> final(self).dest().flushed(),
            !old(self).manual_flush_ && old(self).dest().has_room(
                (log_format::header_size(t.recyclable()) + n) as nat,
            ) ==> s.is_ok() && final(self).dest().capacity() == old(self).dest().capacity()
                && final(self).dest().pending().len() == old(self).dest().pending().len()
                + log_format::header_size(t.recyclable()) + n,
    {
        reveal(log_format::frame);
        reveal(Writer::wf);
        let type_byte = t.as_byte();
        let payload = slice_to_vec(slice_subrange(ptr, 0, n));
        assert(payload@ =~= ptr@.take(n as int));
        let mut crc: u32 = self.type_crc_[type_byte as usize];
        let ghost number_bytes = log_format::log_number_bytes(self.log_number_);
        let mut number: Vec<u8> = Vec::new();
        if type_byte >= 5 {
            let ln_slice = encode_fixed64(self.log_number_);
            number.push(ln_slice[0]);
            number.push(ln_slice[1]);
            number.push(ln_slice[2]);
            number.push(ln_slice[3]);
            assert(number@ =~= number_bytes);
            crc = crc32(crc, number.as_slice());
            proof {
                hash::lemma_crc32_extend(0, seq![type_byte], number@);
            }
        } else {
            assert(seq![type_byte] + Seq::<u8>::empty() =~= seq![type_byte]);
        }
        let ghost covered = seq![type_byte] + (if log_format::byte_recyclable(type_byte) {
            number_bytes
        } else {
            Seq::<u8>::empty()
        });
        assert(crc == hash::crc32_spec(0, covered));
        crc = crc32(crc, payload.as_slice());
        proof {
            hash::lemma_crc32_extend(0, covered, payload@);
        }
        assert(crc == log_format::frame_checksum(type_byte, number_bytes, payload@));
        let mut buf = encode_fixed32(crc);
        let n32: u32 = n as u32;
        assert((n32 & 0xff) == n32 % 256 && (n32 >> 8) == n32 / 256 && (n32 >> 8) < 256) by (bit_vector)
            requires
                n32 <= 32768,
        ;
        buf.push((n32 & 0xff) as u8);
        buf.push((n32 >> 8) as u8);
        buf.push(type_byte);
        buf.append(&mut number);
        assert(buf@ =~= log_format::frame_header(t, self.log_number_, payload@));
        let ghost header = buf@;
        let ghost before = self.dest_;

        let header_size: usize = if type_byte < 5 {
            HEADER_SIZE
        } else {
            RECYCLABLE_HEADER_SIZE
        };
        self.block_offset_ += header_size + n;
        let mut s = self.dest_.append(buf);
        if s.is_ok() {
            s = self.dest_.append(payload);
            if s.is_ok() {
                assert(before.consistent() ==> self.dest_.stream() =~= before.stream()
                    + log_format::frame(t, self.log_number_, ptr@.take(n as int)));
                if self.manual_flush_ {
                    s = self.dest_.flush()
                }
            }
        }
        return s;
    }
}

} // verus!

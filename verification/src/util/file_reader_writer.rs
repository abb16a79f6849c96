use crate::env::EnvOptions;
use crate::env::SequentialFile;
use crate::env::WritableFile;
use crate::util::aligned_buffer;
use crate::util::aligned_buffer::truncate_to_page_boundary;
use crate::util::aligned_buffer::AlignedBuffer;
use crate::util::status::Code;
use crate::util::status::State;
use vstd::prelude::*;
use vstd::slice::slice_subrange;
use vstd::slice::slice_to_vec;

verus! {

/// The newest bytes of a file are left out of a range sync: so many of them.
pub const K_BYTES_NOT_SYNC_RANGE: usize = 1024 * 1024;

/// A range sync ends on a multiple of this.
pub const K_BYTES_ALIGN_WHEN_SYNC: usize = 4096;

/// The alignment of a file writer's buffer.
pub const K_BUFFER_ALIGNMENT: usize = 4096;

/// The capacity with which a file writer's buffer starts.
pub const K_INITIAL_BUFFER_SIZE: usize = 65536;

/// The capacity that a buffer of capacity `cap`, holding `cur` bytes, is given
/// to take `left` more: the capacity is doubled, but not beyond `max`, until
/// the bytes fit or `max` is reached. A buffer at `max` or beyond stays.
pub open spec fn grown_capacity(cap: nat, cur: nat, left: nat, max: nat) -> nat
    decreases max - cap,
{
    if cap == 0 || cap >= max {
        cap
    } else {
        let desired = if 2 * cap < max {
            2 * cap
        } else {
            max
        };
        if desired - cur >= left || desired == max {
            desired
        } else {
            grown_capacity(2 * cap, cur, left, max)
        }
    }
}

/// The capacity of a buffer for which `desired` bytes are asked: `desired`
/// rounded up to whole pages or, where that is more than a machine can
/// address, rounded down.
pub open spec fn buffer_capacity_for(desired: nat) -> nat {
    if aligned_buffer::round_up(desired, K_BUFFER_ALIGNMENT as nat) <= usize::MAX {
        aligned_buffer::round_up(desired, K_BUFFER_ALIGNMENT as nat)
    } else {
        aligned_buffer::page_floor(K_BUFFER_ALIGNMENT as nat, desired)
    }
}

/// Up to where a file of `filesize` bytes is synced by a flush, when it was
/// synced up to `last_sync` before: up to the last multiple of 4096 that leaves
/// out the newest 1 MiB, if that is at least `bytes_per_sync` further and can
/// be handed to the system as a signed offset; else no further than before.
pub open spec fn sync_target(filesize: nat, last_sync: nat, bytes_per_sync: nat) -> nat {
    if bytes_per_sync > 0 && filesize > K_BYTES_NOT_SYNC_RANGE {
        let target = aligned_buffer::page_floor(
            K_BYTES_ALIGN_WHEN_SYNC as nat,
            (filesize - K_BYTES_NOT_SYNC_RANGE) as nat,
        );
        if target > 0 && target >= last_sync && target - last_sync >= bytes_per_sync && target
            <= i64::MAX {
            target
        } else {
            last_sync
        }
    } else {
        last_sync
    }
}

/// A range sync never reaches into the newest 1 MiB of the file, ends on a
/// multiple of 4096, and never moves back.
pub proof fn lemma_sync_target_window(filesize: nat, last_sync: nat, bytes_per_sync: nat)
    ensures
        sync_target(filesize, last_sync, bytes_per_sync) >= last_sync,
        sync_target(filesize, last_sync, bytes_per_sync) != last_sync ==> {
            &&& sync_target(filesize, last_sync, bytes_per_sync) + K_BYTES_NOT_SYNC_RANGE
                <= filesize
            &&& sync_target(filesize, last_sync, bytes_per_sync) % (K_BYTES_ALIGN_WHEN_SYNC as nat)
                == 0
            &&& sync_target(filesize, last_sync, bytes_per_sync) - last_sync >= bytes_per_sync
            &&& filesize - K_BYTES_NOT_SYNC_RANGE - sync_target(filesize, last_sync, bytes_per_sync)
                < K_BYTES_ALIGN_WHEN_SYNC
        },
{
    if filesize > K_BYTES_NOT_SYNC_RANGE {
        aligned_buffer::lemma_rounding(
            (filesize - K_BYTES_NOT_SYNC_RANGE) as nat,
            K_BYTES_ALIGN_WHEN_SYNC as nat,
        );
    }
}

/// Which bytes of a file of `filesize` bytes to hand to a range sync, as
/// offset and number, when the file was synced up to `last_sync` before: those
/// from there up to where `sync_target` says, if there are any.
pub fn range_to_sync(filesize: usize, last_sync: usize, bytes_per_sync: usize) -> (r: Option<
    (i64, i64),
>)
    ensures
        ({
            let target = sync_target(filesize as nat, last_sync as nat, bytes_per_sync as nat);
            if target == last_sync {
                r.is_none()
            } else {
                r == Some((last_sync as i64, (target - last_sync) as i64))
            }
        }),
{
    if bytes_per_sync == 0 || filesize <= K_BYTES_NOT_SYNC_RANGE {
        return None;
    }
    let mut offset_sync_to: usize = filesize - K_BYTES_NOT_SYNC_RANGE;
    offset_sync_to -= offset_sync_to % K_BYTES_ALIGN_WHEN_SYNC;
    if offset_sync_to > 0 && offset_sync_to >= last_sync && offset_sync_to - last_sync
        >= bytes_per_sync && offset_sync_to as u64 <= 0x7fff_ffff_ffff_ffffu64 {
        Some((last_sync as i64, (offset_sync_to - last_sync) as i64))
    } else {
        None
    }
}

fn next_capacity(cap: usize, cur: usize, left: usize, max: usize) -> (r: usize)
    requires
        cur <= cap,
    ensures
        r == grown_capacity(cap as nat, cur as nat, left as nat, max as nat),
        cap < max && cap > 0 ==> cap < r <= max,
        !(cap < max && cap > 0) ==> r == cap,
{
    if cap == 0 {
        return cap;
    }
    let mut c: usize = cap;
    while c < max
        invariant
            c > 0,
            cur <= cap <= c,
            cap < max ==> c <= max,
            grown_capacity(c as nat, cur as nat, left as nat, max as nat) == grown_capacity(
                cap as nat,
                cur as nat,
                left as nat,
                max as nat,
            ),
        decreases max - c,
    {
        let desired = if c >= max - c {
            max
        } else {
            c * 2
        };
        if desired - cur >= left || desired == max {
            return desired;
        }
        c = desired;
    }
    c
}

/// What a file holds after the bytes that waited for it were written at the
/// write offset, filled up to whole pages: the stream as before, if the last
/// page that is not full is counted as waiting still, and that page in the
/// file as well.
proof fn lemma_direct_flush(
    held: Seq<u8>,
    offset: nat,
    waiting: Seq<u8>,
    advance: nat,
    padded: Seq<u8>,
)
    requires
        offset <= held.len(),
        advance <= waiting.len() <= padded.len(),
        padded.take(waiting.len() as int) == waiting,
    ensures
        ({
            let after = crate::env::written_at(held, offset, padded);
            &&& offset + waiting.len() <= after.len()
            &&& after.take((offset + advance) as int) + waiting.skip(advance as int) == held.take(
                offset as int,
            ) + waiting
            &&& after.subrange((offset + advance) as int, (offset + waiting.len()) as int)
                == waiting.skip(advance as int)
        }),
{
    let after = crate::env::written_at(held, offset, padded);
    assert forall|i: int| 0 <= i < waiting.len() implies after[offset + i] == waiting[i] by {
        assert(padded.take(waiting.len() as int)[i] == padded[i]);
    }
    assert(after.take((offset + advance) as int) + waiting.skip(advance as int) =~= held.take(
        offset as int,
    ) + waiting);
    assert(after.subrange((offset + advance) as int, (offset + waiting.len()) as int)
        =~= waiting.skip(advance as int));
}

/// Where nothing waits, the file holds all that waits.
proof fn lemma_nothing_waits(held: Seq<u8>, offset: nat, waiting: Seq<u8>)
    requires
        waiting.len() == 0,
    ensures
        waiting == Seq::<u8>::empty(),
        held + waiting == held,
        offset <= held.len() ==> held.subrange(offset as int, (offset + waiting.len()) as int)
            == waiting,
        held.take(offset as int) + waiting == held.take(offset as int),
{
    assert(waiting =~= Seq::<u8>::empty());
    assert(held + waiting =~= held);
    assert(held.take(offset as int) + waiting =~= held.take(offset as int));
    if offset <= held.len() {
        assert(held.subrange(offset as int, (offset + waiting.len()) as int) =~= waiting);
    }
}

/// A writer that gathers bytes in an aligned buffer and hands them to a file.
pub struct WritableFileWriter<T: WritableFile> {
    writable_file_: T,
    filesize_: usize,
    max_buffer_size_: usize,
    pending_sync_: bool,
    buf_: AlignedBuffer,
    bytes_per_sync_: usize,
    last_sync_size_: usize,
    next_write_offset_: usize,
}

impl<T: WritableFile> WritableFileWriter<T> {
    /// The file underneath.
    pub closed spec fn file(&self) -> T {
        self.writable_file_
    }

    /// The bytes that wait in the buffer.
    pub closed spec fn pending(&self) -> Seq<u8> {
        self.buf_@.contents()
    }

    /// The buffer's capacity.
    pub closed spec fn capacity(&self) -> nat {
        self.buf_@.capacity()
    }

    /// How many bytes were appended with success.
    pub closed spec fn file_size(&self) -> nat {
        self.filesize_ as nat
    }

    /// In a file written in whole pages: where the next write goes. The buffer
    /// holds what belongs from there on.
    pub closed spec fn write_offset(&self) -> nat {
        self.next_write_offset_ as nat
    }

    /// Up to where the file has been handed to a range sync.
    pub closed spec fn synced_to(&self) -> nat {
        self.last_sync_size_ as nat
    }

    pub closed spec fn max_buffer_size(&self) -> nat {
        self.max_buffer_size_ as nat
    }

    pub closed spec fn bytes_per_sync(&self) -> nat {
        self.bytes_per_sync_ as nat
    }

    /// Whether bytes were taken since the writer was made that no sync of the
    /// whole file has covered.
    pub closed spec fn pending_sync(&self) -> bool {
        self.pending_sync_
    }

    /// What holds of a writer whatever happened to its file.
    pub closed spec fn wf(&self) -> bool {
        &&& self.buf_.wf()
        &&& self.buf_@.alignment == K_BUFFER_ALIGNMENT
        &&& self.buf_@.capacity() > 0
        &&& self.next_write_offset_ % K_BUFFER_ALIGNMENT == 0
        &&& (self.last_sync_size_ == 0 || (self.last_sync_size_ % K_BYTES_ALIGN_WHEN_SYNC == 0
            && self.last_sync_size_ + K_BYTES_NOT_SYNC_RANGE <= self.filesize_))
    }

    /// The bytes written through this writer so far, as a reader of the file
    /// will find them once they are flushed: what the file holds (in a file
    /// written in whole pages, up to the write offset), then what waits in the
    /// buffer.
    #[verifier::opaque]
    pub open spec fn stream(&self) -> Seq<u8> {
        if self.file().direct_io() {
            self.file().contents().take(self.write_offset() as int) + self.pending()
        } else {
            self.file().contents() + self.pending()
        }
    }

    /// The file reaches as far as the writer believes. It holds of a new writer
    /// and as long as no operation has failed.
    #[verifier::opaque]
    pub open spec fn consistent(&self) -> bool {
        self.file().direct_io() ==> self.write_offset() <= self.file().contents().len()
    }

    /// Nothing waits for the file: the buffer is empty or, in a file written
    /// in whole pages, the file already holds the buffer's bytes at the write
    /// offset.
    #[verifier::opaque]
    pub open spec fn flushed(&self) -> bool {
        if self.file().direct_io() {
            &&& self.write_offset() + self.pending().len() <= self.file().contents().len()
            &&& self.file().contents().subrange(
                self.write_offset() as int,
                (self.write_offset() + self.pending().len()) as int,
            ) == self.pending()
        } else {
            self.pending().len() == 0
        }
    }

    /// The buffer takes `n` more bytes as it is, and the count of bytes does
    /// not run over.
    pub open spec fn has_room(&self, n: nat) -> bool {
        n <= self.capacity() - self.pending().len() && self.file_size() + n <= usize::MAX
    }

    /// The window of a range sync: what has been synced leaves out the newest
    /// 1 MiB of what was appended and ends on a multiple of 4096.
    pub proof fn lemma_sync_window(&self)
        requires
            self.wf(),
        ensures
            self.synced_to() == 0 || (self.synced_to() % (K_BYTES_ALIGN_WHEN_SYNC as nat) == 0
                && self.synced_to() + K_BYTES_NOT_SYNC_RANGE <= self.file_size()),
            self.capacity() > 0,
            self.pending().len() <= self.capacity(),
    {
        self.buf_.lemma_wf();
    }

    /// A writer over `writable_file` with an empty buffer of 64 KiB.
    pub fn new(writable_file: T, options: EnvOptions) -> (w: WritableFileWriter<T>)
        ensures
            w.wf(),
            w.consistent(),
            w.file() == writable_file,
            w.pending() == Seq::<u8>::empty(),
            w.capacity() == K_INITIAL_BUFFER_SIZE,
            w.file_size() == 0,
            w.write_offset() == 0,
            w.synced_to() == 0,
            w.max_buffer_size() == options.writable_file_max_buffer_size,
            w.bytes_per_sync() == options.bytes_per_sync,
            !w.pending_sync(),
    {
        reveal(WritableFileWriter::stream);
        reveal(WritableFileWriter::consistent);
        reveal(WritableFileWriter::flushed);
        let mut buf: AlignedBuffer = Default::default();
        assert(aligned_buffer::is_power_of_two(4096usize)) by {
            assert(4096usize & ((4096usize - 1) as usize) == 0) by (bit_vector);
        }
        buf.alignment(4 * 1024);
        buf.allocate_new_buffer(65536, false);
        WritableFileWriter {
            writable_file_: writable_file,
            filesize_: 0,
            max_buffer_size_: options.writable_file_max_buffer_size,
            pending_sync_: false,
            buf_: buf,
            bytes_per_sync_: options.bytes_per_sync,
            last_sync_size_: 0,
            next_write_offset_: 0,
        }
    }

    /// The file underneath.
    pub fn writable_file(&self) -> (f: &T)
        ensures
            *f == self.file(),
    {
        &self.writable_file_
    }

    pub fn get_file_size(&self) -> (n: usize)
        ensures
            n == self.file_size(),
    {
        return self.filesize_;
    }

    /// The capacity of the buffer.
    pub fn get_buffer_capacity(&self) -> (n: usize)
        ensures
            n == self.capacity(),
    {
        self.buf_.get_capacity()
    }

    /// How many bytes wait in the buffer.
    pub fn get_buffered_size(&self) -> (n: usize)
        requires
            self.wf(),
        ensures
            n == self.pending().len(),
    {
        proof {
            self.buf_.lemma_wf();
        }
        self.buf_.get_current_size()
    }

    /// Up to where the file has been handed to a range sync.
    pub fn get_last_sync_size(&self) -> (n: usize)
        ensures
            n == self.synced_to(),
    {
        self.last_sync_size_
    }

    fn range_sync(&mut self, offset: i64, nbytes: i64) -> (s: State)
        ensures
            *final(self) == *old(self),
    {
        return self.writable_file_.range_sync(offset, nbytes);
    }

    /// Hands the first `size` bytes of `data` to the file and empties the
    /// buffer.
    fn write_buffered(&mut self, data: Vec<u8>, size: usize) -> (s: State)
        requires
            old(self).wf(),
            size <= data@.len(),
        ensures
            final(self).wf(),
            final(self).file().direct_io() == old(self).file().direct_io(),
            final(self).filesize_ == old(self).filesize_,
            final(self).max_buffer_size_ == old(self).max_buffer_size_,
            final(self).bytes_per_sync_ == old(self).bytes_per_sync_,
            final(self).pending_sync_ == old(self).pending_sync_,
            final(self).last_sync_size_ == old(self).last_sync_size_,
            final(self).next_write_offset_ == old(self).next_write_offset_,
            final(self).capacity() == old(self).capacity(),
            s.is_ok() ==> final(self).pending().len() == 0 && final(self).file().contents()
                == old(self).file().contents() + data@.take(size as int),
            !s.is_ok() ==> final(self).buf_ == old(self).buf_,
    {
        let mut src: usize = 0;
        let mut left: usize = size;
        while left > 0
            invariant
                self.wf(),
                src + left == size,
                size <= data@.len(),
                self.file().direct_io() == old(self).file().direct_io(),
                self.filesize_ == old(self).filesize_,
                self.max_buffer_size_ == old(self).max_buffer_size_,
                self.bytes_per_sync_ == old(self).bytes_per_sync_,
                self.pending_sync_ == old(self).pending_sync_,
                self.last_sync_size_ == old(self).last_sync_size_,
                self.next_write_offset_ == old(self).next_write_offset_,
                self.buf_ == old(self).buf_,
                self.file().contents() == old(self).file().contents() + data@.take(src as int),
            decreases left,
        {
            let allowed = left;
            let chunk = slice_to_vec(slice_subrange(data.as_slice(), src, src + allowed));
            let s = self.writable_file_.append(chunk);
            if !s.is_ok() {
                return s;
            }
            assert(data@.take(src as int) + data@.subrange(src as int, src + allowed) =~= data@.take(
                src + allowed,
            ));
            left -= allowed;
            src += allowed;
        }
        proof {
            self.buf_.lemma_wf();
        }
        self.buf_.size(0);
        State::ok()
    }

    /// Writes the buffer, padded with zeros to whole pages, at the write
    /// offset, and keeps in the buffer the bytes of the last page if it is
    /// not full: they are written again with what follows them.
    fn write_direct(&mut self) -> (s: State)
        requires
            old(self).wf(),
            old(self).pending().len() > 0,
        ensures
            final(self).wf(),
            final(self).file().direct_io() == old(self).file().direct_io(),
            final(self).filesize_ == old(self).filesize_,
            final(self).max_buffer_size_ == old(self).max_buffer_size_,
            final(self).bytes_per_sync_ == old(self).bytes_per_sync_,
            final(self).pending_sync_ == old(self).pending_sync_,
            final(self).last_sync_size_ == old(self).last_sync_size_,
            final(self).capacity() == old(self).capacity(),
            s.is_ok() ==> {
                &&& final(self).write_offset() == old(self).write_offset()
                    + aligned_buffer::page_floor(
                    K_BUFFER_ALIGNMENT as nat,
                    old(self).pending().len(),
                )
                &&& final(self).pending() == old(self).pending().skip(
                    aligned_buffer::page_floor(K_BUFFER_ALIGNMENT as nat, old(self).pending().len())
                        as int,
                )
                &&& final(self).file().contents() == crate::env::written_at(
                    old(self).file().contents(),
                    old(self).write_offset(),
                    old(self).pending() + Seq::new(
                        (aligned_buffer::round_up(
                            old(self).pending().len(),
                            K_BUFFER_ALIGNMENT as nat,
                        ) - old(self).pending().len()) as nat,
                        |i: int| 0u8,
                    ),
                )
            },
            !s.is_ok() ==> final(self).pending() == old(self).pending()
                && final(self).next_write_offset_ == old(self).next_write_offset_,
    {
        proof {
            self.buf_.lemma_wf();
            aligned_buffer::lemma_rounding(
                self.buf_@.size,
                K_BUFFER_ALIGNMENT as nat,
            );
        }
        let alignment: usize = self.buf_.get_alignment();
        let file_advance = truncate_to_page_boundary(alignment, self.buf_.get_current_size());
        if self.next_write_offset_ > usize::MAX - file_advance {
            return State::new(
                Code::KIOError,
                "write offset out of range".to_string(),
                "".to_string(),
            );
        }
        let leftover_tail = self.buf_.get_current_size() - file_advance;
        let ghost before = self.buf_@.contents();
        self.buf_.pad_to_alignment_with(0);
        let write_offset = self.next_write_offset_;
        let left = self.buf_.get_current_size();
        let write_context = self.buf_.read(0, left);
        assert(write_context@ =~= self.buf_@.contents());
        let s = self.writable_file_.positioned_append(write_context, write_offset);
        if !s.is_ok() {
            let ghost padded = self.buf_@;
            self.buf_.size(file_advance + leftover_tail);
            assert(self.buf_@.contents() =~= before) by {
                assert(self.buf_@.contents() =~= padded.contents().take(before.len() as int));
            }
            return s;
        }
        let ghost padded = self.buf_@;
        proof {
            self.buf_.lemma_wf();
        }
        self.buf_.refit_tail(file_advance, leftover_tail);
        assert(self.buf_@.contents() =~= before.skip(file_advance as int)) by {
            assert(padded.contents() =~= padded.storage.take(padded.size as int));
            assert forall|k: int| file_advance <= k < file_advance + leftover_tail implies padded.storage[k]
                == before[k] by {
                assert(padded.contents()[k] == before[k]);
            }
        }
        proof {
            vstd::arithmetic::div_mod::lemma_mod_adds(
                self.next_write_offset_ as int,
                file_advance as int,
                K_BUFFER_ALIGNMENT as int,
            );
        }
        self.next_write_offset_ = self.next_write_offset_ + file_advance;
        State::ok()
    }

    /// Hands what waits in the buffer to the file.
    fn flush_buffer(&mut self) -> (s: State)
        requires
            old(self).wf(),
        ensures
            final(self).wf(),
            final(self).file().direct_io() == old(self).file().direct_io(),
            final(self).filesize_ == old(self).filesize_,
            final(self).max_buffer_size_ == old(self).max_buffer_size_,
            final(self).bytes_per_sync_ == old(self).bytes_per_sync_,
            final(self).pending_sync_ == old(self).pending_sync_,
            final(self).last_sync_size_ == old(self).last_sync_size_,
            final(self).capacity() == old(self).capacity(),
            s.is_ok() ==> final(self).pending().len() < final(self).capacity(),
            s.is_ok() && !old(self).file().direct_io() ==> final(self).pending().len() == 0,
            s.is_ok() && old(self).consistent() ==> final(self).consistent()
                && final(self).flushed() && final(self).stream() == old(self).stream(),
    {
        reveal(WritableFileWriter::stream);
        reveal(WritableFileWriter::consistent);
        reveal(WritableFileWriter::flushed);
        proof {
            self.buf_.lemma_wf();
            aligned_buffer::lemma_rounding(self.buf_@.size, K_BUFFER_ALIGNMENT as nat);
        }
        if self.buf_.get_current_size() == 0 {
            proof {
                lemma_nothing_waits(self.file().contents(), self.write_offset(), self.pending());
            }
            return State::ok();
        }
        if self.writable_file_.use_direct_io() {
            let ghost waiting = self.pending();
            let ghost fill = Seq::new(
                (aligned_buffer::round_up(waiting.len(), K_BUFFER_ALIGNMENT as nat)
                    - waiting.len()) as nat,
                |i: int| 0u8,
            );
            let s = self.write_direct();
            proof {
                self.buf_.lemma_wf();
                if s.is_ok() && old(self).consistent() {
                    assert((waiting + fill).take(waiting.len() as int) =~= waiting);
                    assert(waiting + fill =~= waiting + Seq::new(
                        (aligned_buffer::round_up(waiting.len(), K_BUFFER_ALIGNMENT as nat)
                            - waiting.len()) as nat,
                        |i: int| 0u8,
                    ));
                    lemma_direct_flush(
                        old(self).file().contents(),
                        old(self).write_offset(),
                        waiting,
                        aligned_buffer::page_floor(K_BUFFER_ALIGNMENT as nat, waiting.len()),
                        waiting + fill,
                    );
                }
            }
            s
        } else {
            let buf_len = self.buf_.get_current_size();
            let read_result = self.buf_.read(0, buf_len);
            assert(read_result@ =~= self.pending());
            assert(read_result@.take(buf_len as int) =~= self.pending());
            let s = self.write_buffered(read_result, buf_len);
            proof {
                self.buf_.lemma_wf();
                if s.is_ok() {
                    lemma_nothing_waits(
                        self.file().contents(),
                        self.write_offset(),
                        self.pending(),
                    );
                }
            }
            s
        }
    }

    /// Hands what waits in the buffer to the file, and the file's own buffer to
    /// the system. A file written through the system's cache is then asked to
    /// write back what `sync_target` names.
    pub fn flush(&mut self) -> (s: State)
        requires
            old(self).wf(),
        ensures
            final(self).wf(),
            final(self).file().direct_io() == old(self).file().direct_io(),
            final(self).file_size() == old(self).file_size(),
            final(self).max_buffer_size() == old(self).max_buffer_size(),
            final(self).bytes_per_sync() == old(self).bytes_per_sync(),
            final(self).pending_sync() == old(self).pending_sync(),
            final(self).capacity() == old(self).capacity(),
            final(self).synced_to() >= old(self).synced_to(),
            s.is_ok() ==> final(self).pending().len() < final(self).capacity(),
            s.is_ok() && !old(self).file().direct_io() ==> final(self).pending().len() == 0,
            s.is_ok() && old(self).consistent() ==> final(self).consistent()
                && final(self).flushed() && final(self).stream() == old(self).stream(),
            final(self).synced_to() == old(self).synced_to() || (!old(self).file().direct_io()
                && final(self).synced_to() == sync_target(
                old(self).file_size(),
                old(self).synced_to(),
                old(self).bytes_per_sync(),
            )),
            s.is_ok() ==> final(self).synced_to() == if old(self).file().direct_io() {
                old(self).synced_to()
            } else {
                sync_target(old(self).file_size(), old(self).synced_to(), old(self).bytes_per_sync())
            },
    {
        let written = self.flush_buffer();
        if !written.is_ok() {
            return written;
        }
        let ghost flushed = *self;
        let mut s = self.writable_file_.flush();
        if !s.is_ok() {
            return s;
        }
        if !self.writable_file_.use_direct_io() {
            match range_to_sync(self.filesize_, self.last_sync_size_, self.bytes_per_sync_) {
                Some((offset, nbytes)) => {
                    s = self.range_sync(offset, nbytes);
                    self.last_sync_size_ = self.last_sync_size_ + nbytes as usize;
                },
                None => {},
            }
        }
        proof {
            reveal(WritableFileWriter::stream);
            reveal(WritableFileWriter::consistent);
            reveal(WritableFileWriter::flushed);
            assert(self.stream() == flushed.stream());
            assert(self.consistent() == flushed.consistent());
            assert(self.flushed() == flushed.flushed());
        }
        s
    }

    /// Takes `slice` into the stream. A file written through the system's
    /// cache has its buffer grown, as `grown_capacity` says, where the bytes
    /// do not fit, is flushed where they still do not, and is handed the
    /// bytes directly where they are more than the whole buffer takes. A
    /// file written in whole pages gets every byte through the buffer, which
    /// is flushed whenever it is full.
    #[verifier::rlimit(40)]
    pub fn append(&mut self, slice: Vec<u8>) -> (s: State)
        requires
            old(self).wf(),
        ensures
            final(self).wf(),
            final(self).file().direct_io() == old(self).file().direct_io(),
            final(self).max_buffer_size() == old(self).max_buffer_size(),
            final(self).bytes_per_sync() == old(self).bytes_per_sync(),
            old(self).file_size() + slice@.len() <= usize::MAX ==> final(self).pending_sync(),
            final(self).synced_to() >= old(self).synced_to(),
            old(self).file_size() + slice@.len() > usize::MAX ==> !s.is_ok() && *final(self)
                == *old(self),
            s.is_ok() ==> final(self).file_size() == old(self).file_size() + slice@.len(),
            s.is_ok() ==> final(self).synced_to() == if !old(self).file().direct_io()
                && slice@.len() > final(self).capacity() - old(self).pending().len()
                && old(self).pending().len() > 0 {
                sync_target(
                    old(self).file_size(),
                    old(self).synced_to(),
                    old(self).bytes_per_sync(),
                )
            } else {
                old(self).synced_to()
            },
            !s.is_ok() ==> final(self).file_size() == old(self).file_size(),
            s.is_ok() && old(self).consistent() ==> final(self).consistent() && final(self).stream()
                == old(self).stream() + slice@,
            old(self).has_room(slice@.len()) ==> s.is_ok() && final(self).pending()
                == old(self).pending() + slice@ && final(self).file().contents()
                == old(self).file().contents()
                && final(self).write_offset() == old(self).write_offset() && final(self).synced_to()
                    == old(self).synced_to(),
            s.is_ok() && !old(self).file().direct_io() ==> {
                let room = final(self).capacity() - old(self).pending().len();
                let none = Seq::<u8>::empty();
                &&& final(self).pending() == if slice@.len() <= room {
                    old(self).pending() + slice@
                } else if slice@.len() <= final(self).capacity() {
                    slice@
                } else {
                    none
                }
                &&& final(self).file().contents() == old(self).file().contents() + (if slice@.len()
                    <= room {
                    none
                } else {
                    old(self).pending()
                }) + (if slice@.len() <= final(self).capacity() {
                    none
                } else {
                    slice@
                })
            },
            old(self).file_size() + slice@.len() <= usize::MAX ==> final(self).capacity()
                == if !old(self).file().direct_io()
                && old(self).capacity() - old(self).pending().len()
                < slice@.len() && old(self).capacity() < old(self).max_buffer_size() {
                buffer_capacity_for(
                    grown_capacity(
                        old(self).capacity(),
                        old(self).pending().len(),
                        slice@.len(),
                        old(self).max_buffer_size(),
                    ),
                )
            } else {
                old(self).capacity()
            },
    {
        reveal(WritableFileWriter::stream);
        reveal(WritableFileWriter::consistent);
        reveal(WritableFileWriter::flushed);
        let len = slice.len();
        if self.filesize_ > usize::MAX - len {
            return State::new(Code::KIOError, "file size out of range".to_string(), "".to_string());
        }
        proof {
            self.buf_.lemma_wf();
        }
        let mut src: usize = 0;
        let mut left: usize = len;
        self.pending_sync_ = true;
        let fsize = self.get_file_size();
        self.writable_file_.prepare_write(fsize, left);
        let direct = self.writable_file_.use_direct_io();
        assert(self.stream() == old(self).stream());
        if !direct && self.buf_.get_capacity() - self.buf_.get_current_size() < left {
            let cap = self.buf_.get_capacity();
            let desired = next_capacity(
                cap,
                self.buf_.get_current_size(),
                left,
                self.max_buffer_size_,
            );
            if desired > cap {
                let rem = desired % K_BUFFER_ALIGNMENT;
                let request = if rem != 0 && desired - rem > usize::MAX - K_BUFFER_ALIGNMENT {
                    desired - rem
                } else {
                    desired
                };
                proof {
                    aligned_buffer::lemma_rounding(desired as nat, K_BUFFER_ALIGNMENT as nat);
                    aligned_buffer::lemma_rounding(request as nat, K_BUFFER_ALIGNMENT as nat);
                }
                self.buf_.allocate_new_buffer(request, true);
            }
            if self.buf_.get_capacity() - self.buf_.get_current_size() < left {
                if self.buf_.get_current_size() > 0 {
                    let s = self.flush();
                    if !s.is_ok() {
                        return s;
                    }
                }
            }
        }
        proof {
            self.buf_.lemma_wf();
        }
        let ghost mid = *self;
        let ghost expected_capacity = self.capacity();
        let ghost none = Seq::<u8>::empty();
        let ghost room = len <= expected_capacity - old(self).pending().len();
        let ghost fits = len <= mid.capacity() - mid.pending().len();
        let ghost synced = if !direct && !room && old(self).pending().len() > 0 {
            sync_target(old(self).file_size(), old(self).synced_to(), old(self).bytes_per_sync())
        } else {
            old(self).synced_to()
        };
        assert(mid.synced_to() == synced);
        assert(old(self).consistent() ==> mid.consistent() && mid.stream() == old(self).stream());
        assert(mid.pending() + slice@.take(0) =~= mid.pending());
        assert(!direct ==> mid.pending() == (if room {
            old(self).pending()
        } else {
            none
        }) && mid.file().contents() =~= old(self).file().contents() + (if room {
            none
        } else {
            old(self).pending()
        }));
        assert(old(self).has_room(len as nat) ==> fits && mid.pending() == old(self).pending()
            && mid.file().contents() == old(self).file().contents() && mid.next_write_offset_
            == old(self).next_write_offset_ && mid.last_sync_size_ == old(self).last_sync_size_);
        assert(!direct && mid.capacity() >= len ==> fits);
        if direct || self.buf_.get_capacity() >= left {
            while left > 0
                invariant
                    self.wf(),
                    mid.wf(),
                    src + left == len,
                    len == slice@.len(),
                    old(self).filesize_ + len <= usize::MAX,
                    mid.file().direct_io() == old(self).file().direct_io(),
                    mid.filesize_ == old(self).filesize_,
                    mid.max_buffer_size_ == old(self).max_buffer_size_,
                    mid.bytes_per_sync_ == old(self).bytes_per_sync_,
                    mid.pending_sync_,
                    mid.last_sync_size_ >= old(self).last_sync_size_,
                    mid.capacity() == expected_capacity,
                    expected_capacity == if !old(self).file().direct_io() && old(self).capacity()
                        - old(self).pending().len() < slice@.len()
                            && old(self).capacity() < old(self).max_buffer_size() {
                        buffer_capacity_for(
                    grown_capacity(
                        old(self).capacity(),
                        old(self).pending().len(),
                        slice@.len(),
                        old(self).max_buffer_size(),
                    ),
                )
                    } else {
                        old(self).capacity()
                    },
                    old(self).consistent() ==> mid.consistent() && mid.stream() == old(self).stream(),
                    direct == self.file().direct_io(),
                    self.file().direct_io() == mid.file().direct_io(),
                    self.filesize_ == mid.filesize_,
                    self.max_buffer_size_ == mid.max_buffer_size_,
                    self.bytes_per_sync_ == mid.bytes_per_sync_,
                    self.pending_sync_ == mid.pending_sync_,
                    self.capacity() == mid.capacity(),
                    self.last_sync_size_ >= mid.last_sync_size_,
                    self.pending().len() <= self.capacity(),
                    self.capacity() > 0,
                    mid.consistent() ==> self.consistent() && self.stream() == mid.stream()
                        + slice@.take(src as int),
                    old(self).has_room(len as nat) ==> fits,
                    mid.last_sync_size_ == synced,
                    direct || fits ==> self.last_sync_size_ == mid.last_sync_size_,
                    synced == if !old(self).file().direct_io() && slice@.len() > expected_capacity
                        - old(self).pending().len() && old(self).pending().len() > 0 {
                        sync_target(
                            old(self).file_size(),
                            old(self).synced_to(),
                            old(self).bytes_per_sync(),
                        )
                    } else {
                        old(self).synced_to()
                    },
                    !direct ==> fits,
                    fits ==> self.pending() == mid.pending() + slice@.take(src as int) && left
                        <= self.capacity() - self.pending().len() && self.file().contents()
                        == mid.file().contents() && self.next_write_offset_
                        == mid.next_write_offset_ && self.last_sync_size_ == mid.last_sync_size_,
                decreases
                        left,
                        (if self.pending().len() == self.capacity() {
                            1int
                        } else {
                            0int
                        }),
            {
                reveal(WritableFileWriter::stream);
                reveal(WritableFileWriter::consistent);
                let ghost prev = *self;
                let appended = self.buf_.append(
                    slice_subrange(slice.as_slice(), src, len),
                    left,
                );
                assert(slice@.subrange(src as int, len as int).take(appended as int) =~= slice@.subrange(
                    src as int,
                    src + appended,
                ));
                assert(slice@.take(src as int) + slice@.subrange(src as int, src + appended)
                    =~= slice@.take(src + appended));
                assert(prev.consistent() ==> self.stream() =~= prev.stream() + slice@.subrange(
                    src as int,
                    src + appended,
                ));
                assert(fits ==> self.pending() =~= mid.pending() + slice@.take(src + appended));
                assert(fits ==> appended == left) by {
                    prev.buf_.lemma_wf();
                }
                left -= appended;
                src += appended;
                proof {
                    self.buf_.lemma_wf();
                }
                if left > 0 {
                    let s = self.flush();
                    if !s.is_ok() {
                        return s;
                    }
                }
            }
            assert(slice@.take(src as int) =~= slice@);
            assert(!direct ==> self.file().contents() =~= mid.file().contents() + none);
            assert(!direct && !room ==> self.pending() =~= slice@);
        } else {
            let s = self.write_buffered(slice, left);
            if !s.is_ok() {
                return s;
            }
            assert(slice@.take(left as int) =~= slice@);
            assert(mid.pending().len() == 0);
            assert(mid.consistent() ==> self.stream() =~= mid.stream() + slice@);
            assert(self.pending() =~= none);
        }
        self.filesize_ += len;
        State::ok()
    }

    /// Ends the writing, if the handle says that it is still open: see
    /// `close_handle`.
    pub fn close(&mut self) -> (s: State)
        requires
            old(self).wf(),
        ensures
            final(self).wf(),
            final(self).file().direct_io() == old(self).file().direct_io(),
            final(self).file_size() == old(self).file_size(),
            final(self).pending() == old(self).pending(),
            final(self).write_offset() == old(self).write_offset(),
            final(self).synced_to() == old(self).synced_to(),
            final(self).pending_sync() == old(self).pending_sync(),
            !old(self).file().direct_io() ==> final(self).file().contents()
                == old(self).file().contents(),
            s.is_ok() && old(self).file().direct_io() ==> final(self).file().contents()
                == crate::env::resized(old(self).file().contents(), old(self).file_size()),
            s.is_ok() && old(self).file().direct_io() && old(self).flushed()
                && old(self).file_size() == old(self).stream().len()
                ==> final(self).file().contents() == old(self).stream(),
    {
        let open = self.writable_file_.fcntl();
        self.close_handle(open)
    }

    /// Ends the writing on a handle that is or is not `open`. One that is not
    /// is an error, and nothing is done. A file that was written in whole
    /// pages is cut to the bytes that were appended, so that the zeros that
    /// filled up its last page go, and is synced. What still waits in the
    /// buffer is not written: flush first.
    pub fn close_handle(&mut self, open: bool) -> (s: State)
        requires
            old(self).wf(),
        ensures
            final(self).wf(),
            final(self).file().direct_io() == old(self).file().direct_io(),
            final(self).file_size() == old(self).file_size(),
            final(self).pending() == old(self).pending(),
            final(self).write_offset() == old(self).write_offset(),
            final(self).synced_to() == old(self).synced_to(),
            final(self).pending_sync() == old(self).pending_sync(),
            !open ==> s.code() == Code::KIOError && *final(self) == *old(self),
            open && !old(self).file().direct_io() ==> s.is_ok() && *final(self) == *old(self),
            s.is_ok() && old(self).file().direct_io() ==> final(self).file().contents()
                == crate::env::resized(old(self).file().contents(), old(self).file_size()),
            s.is_ok() && old(self).file().direct_io() && old(self).flushed()
                && old(self).file_size() == old(self).stream().len()
                ==> final(self).file().contents() == old(self).stream(),
    {
        reveal(WritableFileWriter::stream);
        reveal(WritableFileWriter::consistent);
        reveal(WritableFileWriter::flushed);
        if !open {
            return State::new(
                Code::KIOError,
                "writeable_file_ has closed".to_string(),
                "".to_string(),
            );
        }
        if self.writable_file_.use_direct_io() {
            let interim = self.writable_file_.truncate(self.filesize_);
            if !interim.is_ok() {
                return interim;
            }
            proof {
                if old(self).flushed() && old(self).file_size() == old(self).stream().len() {
                    assert(self.file().contents() =~= old(self).stream());
                }
            }
            let synced = self.writable_file_.sync();
            if !synced.is_ok() {
                return synced;
            }
        }
        State::ok()
    }
}

/// A cursor that moves forward over a file.
pub struct SequentialFileReader<T: SequentialFile> {
    file_: T,
}

impl<T: SequentialFile> SequentialFileReader<T> {
    /// The file underneath.
    pub closed spec fn file(&self) -> T {
        self.file_
    }

    pub fn new(file: T) -> (r: SequentialFileReader<T>)
        ensures
            r.file() == file,
    {
        SequentialFileReader { file_: file }
    }

    /// Moves the cursor by `n` bytes.
    pub fn skip(&mut self, n: i64) -> (s: State)
        ensures
            final(self).file().contents() == old(self).file().contents(),
            final(self).file().dependable() == old(self).file().dependable(),
            s.is_ok() ==> final(self).file().position() == old(self).file().position() + n,
    {
        self.file_.skip(n)
    }

    /// Reads up to `n` bytes into `result`, fewer only where the file ends.
    pub fn read(&mut self, n: usize, result: &mut Vec<u8>, scratch: &mut Vec<u8>) -> (s: State)
        ensures
            final(self).file().contents() == old(self).file().contents(),
            final(self).file().dependable() == old(self).file().dependable(),
            old(self).file().dependable() ==> s.is_ok(),
            s.is_ok() ==> final(result)@ == crate::env::bytes_read(
                old(self).file().contents(),
                old(self).file().position(),
                n as nat,
            ) && final(self).file().position() == old(self).file().position() + final(result)@.len(),
    {
        self.file_.read(n, result, scratch)
    }
}

} // verus!

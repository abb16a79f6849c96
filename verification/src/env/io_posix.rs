use crate::env::EnvOptions;
use crate::env::K_DEFAULT_PAGE_SIZE;
use crate::util::status::Code;
use crate::util::status::State;
use vstd::prelude::*;

verus! {

/// The sector size that is assumed of the device.
pub fn get_logical_buffer_size() -> (n: usize)
    ensures
        n == K_DEFAULT_PAGE_SIZE,
{
    K_DEFAULT_PAGE_SIZE
}

/// Whether `off` is a multiple of the sector size.
pub fn is_sector_aligned(off: usize, sector_size: usize) -> (b: bool)
    requires
        sector_size > 0,
    ensures
        b == (off % sector_size == 0),
{
    off % sector_size == 0
}

/// Whether a file is to be read past the system's cache: where direct reads
/// are asked for and the file is not mapped into memory.
pub fn wants_direct_reads(options: &EnvOptions) -> (b: bool)
    ensures
        b == (options.use_direct_reads && !options.use_mmap_reads),
{
    options.use_direct_reads && !options.use_mmap_reads
}

/// What the system's answer to a call means: a negative answer is a
/// failure, which is told with the words `what`.
pub fn io_status(answer: i64, what: &str) -> (s: State)
    ensures
        s.is_ok() <==> answer >= 0,
        answer < 0 ==> s.code() == Code::KIOError && s.text()@ == what@,
{
    if answer < 0 {
        State::new(Code::KIOError, what.to_string(), "".to_string())
    } else {
        State::ok()
    }
}

/// What to do after a call that the system may interrupt.
#[derive(Clone, Copy, Debug, PartialEq, Eq, Structural)]
pub enum Attempt {
    /// The call was interrupted before it did anything: make it again, as it
    /// was.
    Retry,
    /// The call did something of what was asked: go on with the rest.
    Continue,
    /// All is done.
    Finished,
    /// The call failed.
    Failed,
}

/// What to do after a call that opens a file: an interruption is no failure.
pub fn after_open(failed: bool, interrupted: bool) -> (a: Attempt)
    ensures
        a == if !failed {
            Attempt::Finished
        } else if interrupted {
            Attempt::Retry
        } else {
            Attempt::Failed
        },
{
    if !failed {
        Attempt::Finished
    } else if interrupted {
        Attempt::Retry
    } else {
        Attempt::Failed
    }
}

/// What to do after a read of `n` bytes that gave `got` bytes. A read that was
/// interrupted before it gave anything is made again. Fewer bytes than were
/// asked for are all right at the end of the file only.
pub fn after_read(n: usize, got: usize, error: bool, interrupted: bool, at_eof: bool) -> (a: Attempt)
    ensures
        a == read_attempt(n as nat, got as nat, error, interrupted, at_eof),
{
    if error && interrupted && got == 0 {
        Attempt::Retry
    } else if got < n && !at_eof {
        Attempt::Failed
    } else {
        Attempt::Finished
    }
}

/// What to do after a read of `n` bytes that gave `got` bytes.
pub open spec fn read_attempt(n: nat, got: nat, error: bool, interrupted: bool, at_eof: bool) -> Attempt {
    if error && interrupted && got == 0 {
        Attempt::Retry
    } else if got < n && !at_eof {
        Attempt::Failed
    } else {
        Attempt::Finished
    }
}

/// Which part of a file to reserve before a write of `len` bytes at `offset`:
/// the blocks of `block_size` bytes that the write reaches and that are not
/// reserved yet, as offset and length. Nothing where no blocks are reserved
/// ahead, where the write stays within what is reserved, or where the numbers
/// do not fit the system's signed offsets.
pub open spec fn preallocation(
    block_size: nat,
    last_block: nat,
    offset: nat,
    len: nat,
) -> Option<(int, int)> {
    if block_size == 0 {
        None
    } else {
        let reach = (offset + len + block_size - 1) / (block_size as int);
        if reach > last_block && offset + len + block_size - 1 <= usize::MAX && block_size * reach
            <= i64::MAX {
            Some(((block_size * last_block) as int, block_size * (reach - last_block)))
        } else {
            None
        }
    }
}

/// What is kept of a file that is open for writing.
#[derive(Debug)]
pub struct PosixWritableFile {
    filename_: String,
    use_direct_io_: bool,
    fd_: i32,
    preallocation_block_size_: usize,
    last_preallocated_block_: usize,
    filesize_: usize,
    logical_sector_size_: usize,
}

impl PosixWritableFile {
    pub closed spec fn fd(&self) -> i32 {
        self.fd_
    }

    /// The name under which the file was opened.
    pub closed spec fn name(&self) -> Seq<char> {
        self.filename_@
    }

    pub closed spec fn direct_io(&self) -> bool {
        self.use_direct_io_
    }

    /// How many bytes the file holds, as far as this handle has written it.
    pub closed spec fn file_size(&self) -> nat {
        self.filesize_ as nat
    }

    /// The size of the blocks that are reserved ahead of the writing; 0 for
    /// none.
    pub closed spec fn block_size(&self) -> nat {
        self.preallocation_block_size_ as nat
    }

    /// How many blocks are reserved.
    pub closed spec fn last_block(&self) -> nat {
        self.last_preallocated_block_ as nat
    }

    pub closed spec fn sector_size(&self) -> nat {
        self.logical_sector_size_ as nat
    }

    /// The state of a file that was just opened with the descriptor `fd`, to
    /// be written past the system's cache.
    pub fn new(filename: String, fd: i32, preallocation_block_size: usize) -> (f: PosixWritableFile)
        ensures
            f.fd() == fd,
            f.name() == filename@,
            f.direct_io(),
            f.file_size() == 0,
            f.block_size() == preallocation_block_size,
            f.last_block() == 0,
            f.sector_size() == K_DEFAULT_PAGE_SIZE,
    {
        PosixWritableFile {
            filename_: filename,
            use_direct_io_: true,
            fd_: fd,
            preallocation_block_size_: preallocation_block_size,
            last_preallocated_block_: 0,
            filesize_: 0,
            logical_sector_size_: get_logical_buffer_size(),
        }
    }

    pub fn descriptor(&self) -> (fd: i32)
        ensures
            fd == self.fd(),
    {
        self.fd_
    }

    pub fn use_direct_io(&self) -> (b: bool)
        ensures
            b == self.direct_io(),
    {
        return self.use_direct_io_;
    }

    pub fn get_required_buffer_alignment(&self) -> (n: usize)
        ensures
            n == self.sector_size(),
    {
        self.logical_sector_size_
    }

    pub fn get_file_size(&self) -> (n: usize)
        ensures
            n == self.file_size(),
    {
        self.filesize_
    }

    /// Notes a write of `len` bytes at `offset` that is about to be made, and
    /// says which part of the file to reserve for it, if any.
    pub fn prepare_write(&mut self, offset: usize, len: usize) -> (r: Option<(i64, i64)>)
        ensures
            final(self).fd() == old(self).fd(),
            final(self).name() == old(self).name(),
            final(self).direct_io() == old(self).direct_io(),
            final(self).file_size() == old(self).file_size(),
            final(self).block_size() == old(self).block_size(),
            final(self).sector_size() == old(self).sector_size(),
            match preallocation(old(self).block_size(), old(self).last_block(), offset as nat, len as nat) {
                Some((at, count)) => r == Some((at as i64, count as i64)) && final(self).last_block()
                    * old(self).block_size() == at + count,
                None => r.is_none() && final(self).last_block() == old(self).last_block(),
            },
    {
        if self.preallocation_block_size_ == 0 {
            return None;
        }
        let block_size = self.preallocation_block_size_;
        if offset > usize::MAX - len || offset + len > usize::MAX - (block_size - 1) {
            return None;
        }
        let new_last_preallocated_block = (offset + len + (block_size - 1)) / block_size;
        if new_last_preallocated_block > self.last_preallocated_block_ {
            let num_spanned_blocks = new_last_preallocated_block - self.last_preallocated_block_;
            let last = self.last_preallocated_block_;
            proof {
                vstd::arithmetic::div_mod::lemma_fundamental_div_mod(
                    (offset + len + block_size - 1) as int,
                    block_size as int,
                );
                vstd::arithmetic::div_mod::lemma_mod_bound(
                    (offset + len + block_size - 1) as int,
                    block_size as int,
                );
                let reach = new_last_preallocated_block as int;
                assert(block_size * reach <= usize::MAX);
                assert(block_size * last <= block_size * reach) by (nonlinear_arith)
                    requires
                        last <= reach,
                        block_size > 0,
                ;
                assert(block_size * (reach - last) == block_size * reach - block_size * last)
                    by (nonlinear_arith);
                assert(0 <= block_size * (reach - last)) by (nonlinear_arith)
                    requires
                        last <= reach,
                        block_size > 0,
                ;
                assert(last * block_size == block_size * last) by (nonlinear_arith);
                assert(reach * block_size == block_size * reach) by (nonlinear_arith);
            }
            let end = block_size * new_last_preallocated_block;
            if end as u64 > 0x7fff_ffff_ffff_ffffu64 {
                return None;
            }
            let at = block_size * last;
            let count = block_size * num_spanned_blocks;
            self.last_preallocated_block_ = new_last_preallocated_block;
            return Some((at as i64, count as i64));
        }
        None
    }

    /// Notes that `n` bytes were added at the end of the file.
    pub fn appended(&mut self, n: usize)
        requires
            old(self).file_size() + n <= usize::MAX,
        ensures
            final(self).file_size() == old(self).file_size() + n,
            final(self).fd() == old(self).fd(),
            final(self).name() == old(self).name(),
            final(self).direct_io() == old(self).direct_io(),
            final(self).block_size() == old(self).block_size(),
            final(self).last_block() == old(self).last_block(),
            final(self).sector_size() == old(self).sector_size(),
    {
        self.filesize_ += n;
    }

    /// Notes that the file was cut or extended to `size` bytes, or written up
    /// to there.
    pub fn resized(&mut self, size: usize)
        ensures
            final(self).file_size() == size,
            final(self).fd() == old(self).fd(),
            final(self).name() == old(self).name(),
            final(self).direct_io() == old(self).direct_io(),
            final(self).block_size() == old(self).block_size(),
            final(self).last_block() == old(self).last_block(),
            final(self).sector_size() == old(self).sector_size(),
    {
        self.filesize_ = size;
    }
}

/// How far a write has come that puts `len` bytes into a file: `written` of
/// them are in the file, and the next goes to `offset`.
pub struct WriteProgress {
    pub len: nat,
    pub written: nat,
    pub offset: nat,
}

/// What becomes of a write when the system answers a call with `done`, the
/// number of bytes that it took, or less than 1 where it took none. A call
/// that was interrupted changes nothing and is made again. A call that took
/// nothing for another reason has failed, and so has one that claims more
/// than was left.
pub open spec fn write_step(m: WriteProgress, done: int, interrupted: bool) -> (
    WriteProgress,
    Attempt,
) {
    if m.written >= m.len {
        (m, Attempt::Finished)
    } else if done < 1 {
        (
            m,
            if interrupted {
                Attempt::Retry
            } else {
                Attempt::Failed
            },
        )
    } else if done > m.len - m.written || m.offset + done > usize::MAX {
        (m, Attempt::Failed)
    } else {
        (
            WriteProgress {
                len: m.len,
                written: (m.written + done) as nat,
                offset: (m.offset + done) as nat,
            },
            if m.written + done == m.len {
                Attempt::Finished
            } else {
                Attempt::Continue
            },
        )
    }
}

/// A write of a run of bytes at an offset of a file, made by as many calls as
/// the system needs.
#[derive(Debug)]
pub struct PositionedWrite {
    len_: usize,
    written_: usize,
    offset_: usize,
}

impl View for PositionedWrite {
    type V = WriteProgress;

    closed spec fn view(&self) -> WriteProgress {
        WriteProgress {
            len: self.len_ as nat,
            written: self.written_ as nat,
            offset: self.offset_ as nat,
        }
    }
}

impl PositionedWrite {
    /// A write of `len` bytes at `offset`, of which nothing is written.
    pub fn new(len: usize, offset: usize) -> (w: PositionedWrite)
        ensures
            w@ == (WriteProgress { len: len as nat, written: 0, offset: offset as nat }),
    {
        PositionedWrite { len_: len, written_: 0, offset_: offset }
    }

    /// How many bytes are still to be written.
    pub fn left(&self) -> (n: usize)
        ensures
            n == if self@.written <= self@.len {
                self@.len - self@.written
            } else {
                0
            },
    {
        if self.written_ <= self.len_ {
            self.len_ - self.written_
        } else {
            0
        }
    }

    /// Where in the bytes the next call starts.
    pub fn written(&self) -> (n: usize)
        ensures
            n == self@.written,
    {
        self.written_
    }

    /// Where in the file the next call writes.
    pub fn offset(&self) -> (n: usize)
        ensures
            n == self@.offset,
    {
        self.offset_
    }

    /// Takes the system's answer to a call that was handed the bytes from
    /// `written` on, to be written at `offset`.
    pub fn on_result(&mut self, done: i64, interrupted: bool) -> (a: Attempt)
        ensures
            (final(self)@, a) == write_step(old(self)@, done as int, interrupted),
    {
        if self.written_ >= self.len_ {
            return Attempt::Finished;
        }
        if done < 1 {
            if interrupted {
                return Attempt::Retry;
            }
            return Attempt::Failed;
        }
        let left = self.len_ - self.written_;
        if done as u64 > left as u64 || done as u64 > (usize::MAX - self.offset_) as u64 {
            return Attempt::Failed;
        }
        let step = done as usize;
        self.written_ = self.written_ + step;
        self.offset_ = self.offset_ + step;
        if self.written_ == self.len_ {
            Attempt::Finished
        } else {
            Attempt::Continue
        }
    }
}

/// What the system answers to one call.
pub struct WriteAnswer {
    pub done: int,
    pub interrupted: bool,
}

/// How a write of `data` goes on when the system gives `answers` to the calls
/// that are made one after the other: how far the write comes, what the
/// file holds then, and what is to be done next. A call that takes `done`
/// bytes puts the first `done` of the bytes that it was handed at the offset
/// that it was given.
pub open spec fn replay(
    m: WriteProgress,
    file: Seq<u8>,
    data: Seq<u8>,
    answers: Seq<WriteAnswer>,
) -> (WriteProgress, Seq<u8>, Attempt)
    decreases answers.len(),
{
    if m.written >= m.len {
        (m, file, Attempt::Finished)
    } else if answers.len() == 0 {
        (m, file, Attempt::Continue)
    } else {
        let (then, attempt) = write_step(m, answers[0].done, answers[0].interrupted);
        if attempt == Attempt::Failed {
            (m, file, Attempt::Failed)
        } else if attempt == Attempt::Retry {
            replay(m, file, data, answers.skip(1))
        } else {
            replay(
                then,
                crate::env::written_at(
                    file,
                    m.offset,
                    data.subrange(m.written as int, then.written as int),
                ),
                data,
                answers.skip(1),
            )
        }
    }
}

/// Interruptions cost nothing: however the system interrupts the calls and
/// however few bytes it takes with each, a write has put the bytes that it has
/// written so far, each once and in their order, at the offset that was asked
/// for, and a write that has finished has put all of them there.
pub proof fn lemma_interrupted_write(
    m: WriteProgress,
    file: Seq<u8>,
    at: nat,
    before: Seq<u8>,
    data: Seq<u8>,
    answers: Seq<WriteAnswer>,
)
    requires
        m.len == data.len(),
        m.written <= m.len,
        m.offset == at + m.written,
        file == if m.written > 0 {
            crate::env::written_at(before, at, data.take(m.written as int))
        } else {
            before
        },
    ensures
        ({
            let (end, after, attempt) = replay(m, file, data, answers);
            &&& end.len == data.len()
            &&& m.written <= end.written <= end.len
            &&& end.offset == at + end.written
            &&& attempt != Attempt::Retry
            &&& attempt == Attempt::Finished <==> end.written == end.len
            &&& after == if end.written > 0 {
                crate::env::written_at(before, at, data.take(end.written as int))
            } else {
                before
            }
        }),
    decreases answers.len(),
{
    if m.written < m.len && answers.len() > 0 {
        let (then, attempt) = write_step(m, answers[0].done, answers[0].interrupted);
        if attempt == Attempt::Retry {
            lemma_interrupted_write(m, file, at, before, data, answers.skip(1));
        } else if attempt != Attempt::Failed {
            let chunk = data.subrange(m.written as int, then.written as int);
            let file2 = crate::env::written_at(file, m.offset, chunk);
            assert(file2 =~= crate::env::written_at(before, at, data.take(then.written as int)));
            lemma_interrupted_write(then, file2, at, before, data, answers.skip(1));
        }
    }
}

/// A write succeeds in the end: after any number of interruptions, a call
/// that takes all that is left finishes the write, and the file holds the
/// bytes once.
pub proof fn lemma_write_after_interruptions(
    m: WriteProgress,
    file: Seq<u8>,
    data: Seq<u8>,
    answers: Seq<WriteAnswer>,
    interruptions: nat,
)
    requires
        m.len == data.len(),
        m.written < m.len,
        m.offset + (m.len - m.written) <= usize::MAX,
        interruptions < answers.len(),
        forall|i: int|
            0 <= i < interruptions ==> (#[trigger] answers[i]).done < 1 && answers[i].interrupted,
        answers[interruptions as int].done == m.len - m.written,
    ensures
        replay(m, file, data, answers) == (
            WriteProgress { len: m.len, written: m.len, offset: (m.offset + m.len - m.written) as nat },
            crate::env::written_at(file, m.offset, data.subrange(m.written as int, m.len as int)),
            Attempt::Finished,
        ),
    decreases interruptions,
{
    reveal_with_fuel(replay, 2);
    if interruptions > 0 {
        let rest = answers.skip(1);
        assert forall|i: int| 0 <= i < interruptions - 1 implies (#[trigger] rest[i]).done < 1
            && rest[i].interrupted by {
            assert(rest[i] == answers[i + 1]);
        }
        assert(rest[interruptions - 1] == answers[interruptions as int]);
        assert(answers[0].done < 1 && answers[0].interrupted);
        lemma_write_after_interruptions(m, file, data, rest, (interruptions - 1) as nat);
    }
}

} // verus!

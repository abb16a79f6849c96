use crate::util::status::State;
use vstd::prelude::*;

pub mod io_posix;
pub mod mem;

verus! {

/// The page size assumed where the device's sector size is not asked for.
pub const K_DEFAULT_PAGE_SIZE: usize = 4096;

/// How a reader of the log treats damage that it meets.
#[derive(Clone, Copy, Debug, PartialEq, Eq, Structural)]
pub enum WALRecoveryMode {
    /// Damage at the end of the log is a torn last write and ends the log
    /// quietly; damage before the end is an error.
    TolerateCorruptedTailRecords,
    /// Any damage is an error.
    AbsoluteConsistency,
    /// Damaged records are passed over, and the end of the undamaged prefix
    /// of the log is remembered.
    PointInTimeRecovery,
    /// Damaged records are passed over.
    SkipAnyCorruptedRecords,
}

/// Options for the files of a store.
#[derive(Clone, Copy, Debug)]
pub struct EnvOptions {
    pub use_mmap_reads: bool,
    pub use_direct_reads: bool,
    pub set_fd_cloexec: bool,
    /// The largest capacity to which a file writer grows its buffer.
    pub writable_file_max_buffer_size: usize,
    /// Ask the system to write back every so many bytes; 0 for never.
    pub bytes_per_sync: usize,
}

impl Default for EnvOptions {
    fn default() -> (o: EnvOptions)
        ensures
            o.use_mmap_reads == false,
            o.use_direct_reads == false,
            o.set_fd_cloexec == true,
            o.writable_file_max_buffer_size == 1024 * 1024,
            o.bytes_per_sync == 0,
    {
        EnvOptions {
            use_mmap_reads: false,
            use_direct_reads: false,
            set_fd_cloexec: true,
            writable_file_max_buffer_size: 1024 * 1024,
            bytes_per_sync: 0,
        }
    }
}

/// `file` after `data` has been written at `offset`: the file grows as far as
/// the write reaches, and a gap between its old end and `offset` reads as
/// zeros.
pub open spec fn written_at(file: Seq<u8>, offset: nat, data: Seq<u8>) -> Seq<u8> {
    Seq::new(
        if file.len() >= offset + data.len() {
            file.len()
        } else {
            offset + data.len()
        },
        |i: int|
            if offset <= i < offset + data.len() {
                data[i - offset]
            } else if i < file.len() {
                file[i]
            } else {
                0u8
            },
    )
}

/// `file` cut or extended with zeros to `size` bytes.
pub open spec fn resized(file: Seq<u8>, size: nat) -> Seq<u8> {
    Seq::new(
        size,
        |i: int|
            if i < file.len() {
                file[i]
            } else {
                0u8
            },
    )
}

/// A file that is written from front to back. What is asked of an
/// implementation is what its methods ensure: a success means that the bytes
/// are in the file as stated. Of a failure nothing is known.
///
/// `contents` and `direct_io` say what the file holds and how it is written.
/// An implementation in verified code defines them, and what is proved of a
/// writer over such a file holds of it. The bodies given here are there so
/// that code which is not verified can implement the trait at all: they are
/// one value for every file of the type, and say nothing of a file of the
/// operating system. Of a type that keeps them nothing is proved: what its
/// methods really do is not held against what they ensure here.
pub trait WritableFile: Sized {
    /// The bytes of the file.
    open spec fn contents(&self) -> Seq<u8> {
        arbitrary()
    }

    /// Whether the file is written past the system's cache, in whole pages.
    open spec fn direct_io(&self) -> bool {
        arbitrary()
    }

    /// Adds `data` at the end of the file.
    fn append(&mut self, data: Vec<u8>) -> (s: State)
        ensures
            final(self).direct_io() == old(self).direct_io(),
            s.is_ok() ==> final(self).contents() == old(self).contents() + data@,
    ;

    /// Writes `data` at `offset`, over what is there. A file that is written
    /// past the system's cache is written in whole pages only.
    fn positioned_append(&mut self, data: Vec<u8>, offset: usize) -> (s: State)
        requires
            old(self).direct_io() ==> offset % K_DEFAULT_PAGE_SIZE == 0 && data@.len()
                % (K_DEFAULT_PAGE_SIZE as nat) == 0,
        ensures
            final(self).direct_io() == old(self).direct_io(),
            s.is_ok() ==> final(self).contents() == written_at(
                old(self).contents(),
                offset as nat,
                data@,
            ),
    ;

    /// Cuts or extends the file to `size` bytes.
    fn truncate(&mut self, size: usize) -> (s: State)
        ensures
            final(self).direct_io() == old(self).direct_io(),
            s.is_ok() ==> final(self).contents() == resized(old(self).contents(), size as nat),
    ;

    /// Announces a write of `len` bytes at `offset`, so that room can be
    /// reserved. The file's bytes stay as they are.
    fn prepare_write(&mut self, offset: usize, len: usize)
        ensures
            final(self).direct_io() == old(self).direct_io(),
            final(self).contents() == old(self).contents(),
    ;

    /// Reserves room for `len` bytes at `offset` without changing the file.
    fn allocate(&self, offset: i64, len: i64) -> State;

    /// Hands what the file object holds back to the system.
    fn flush(&self) -> State;

    /// Waits until the file's bytes are on the device.
    fn sync(&self) -> State;

    /// Starts writing back the `nbytes` bytes at `offset`.
    fn range_sync(&self, offset: i64, nbytes: i64) -> State;

    /// Gives up the handle.
    fn close(&self) -> State;

    fn use_direct_io(&self) -> (b: bool)
        ensures
            b == self.direct_io(),
    ;

    /// Whether the handle is still open.
    fn fcntl(&self) -> bool;

    /// The alignment that the device asks of direct writes.
    fn get_required_buffer_alignment(&self) -> usize;
}

/// A file that is read from front to back. `contents` and `position` say
/// what the file holds and where its cursor is. As in `WritableFile`, an
/// implementation in verified code defines them, and of a type that keeps
/// the bodies given here nothing is proved.
pub trait SequentialFile: Sized {
    /// The bytes of the file.
    open spec fn contents(&self) -> Seq<u8> {
        arbitrary()
    }

    /// How many bytes lie before the read cursor.
    open spec fn position(&self) -> nat {
        arbitrary()
    }

    /// Whether a read of the file never fails. It is so of a file in memory.
    /// Of a file of the operating system it is not: its reads may fail.
    open spec fn dependable(&self) -> bool {
        false
    }

    /// Moves the cursor by `n` bytes.
    fn skip(&mut self, n: i64) -> (s: State)
        ensures
            final(self).contents() == old(self).contents(),
            final(self).dependable() == old(self).dependable(),
            s.is_ok() ==> final(self).position() == old(self).position() + n,
    ;

    /// Reads up to `n` bytes into `result`, fewer only where the file ends.
    fn read(&mut self, n: usize, result: &mut Vec<u8>, scratch: &mut Vec<u8>) -> (s: State)
        ensures
            final(self).contents() == old(self).contents(),
            final(self).dependable() == old(self).dependable(),
            old(self).dependable() ==> s.is_ok(),
            s.is_ok() ==> final(result)@ == bytes_read(
                old(self).contents(),
                old(self).position(),
                n as nat,
            ) && final(self).position() == old(self).position() + final(result)@.len(),
    ;
}

/// The bytes that a read of `n` bytes at `position` gives.
pub open spec fn bytes_read(file: Seq<u8>, position: nat, n: nat) -> Seq<u8> {
    if position >= file.len() {
        Seq::<u8>::empty()
    } else if position + n <= file.len() {
        file.subrange(position as int, (position + n) as int)
    } else {
        file.subrange(position as int, file.len() as int)
    }
}

} // verus!

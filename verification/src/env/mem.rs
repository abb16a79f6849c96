use crate::env::SequentialFile;
use crate::env::WritableFile;
use crate::util::status::Code;
use crate::util::status::State;
use vstd::prelude::*;
use vstd::slice::slice_subrange;
use vstd::slice::slice_to_vec;

verus! {

/// A writable file held in memory.
#[derive(Debug)]
pub struct MemWritableFile {
    filename_: String,
    data_: Vec<u8>,
    use_direct_io_: bool,
    preallocation_block_size_: usize,
}

impl MemWritableFile {
    /// The name that the file was given.
    pub closed spec fn name(&self) -> Seq<char> {
        self.filename_@
    }

    /// The size of the blocks that were asked to be reserved ahead of the
    /// writing. A file in memory reserves nothing.
    pub closed spec fn block_size(&self) -> nat {
        self.preallocation_block_size_ as nat
    }

    /// An empty file, written in whole pages as a device file would be. A file
    /// in memory has nothing to open again: `reopen` makes no difference.
    pub fn new(filename: String, reopen: bool, preallocation_block_size: usize) -> (f:
        MemWritableFile)
        ensures
            f.contents() == Seq::<u8>::empty(),
            f.direct_io(),
            f.name() == filename@,
            f.block_size() == preallocation_block_size,
    {
        MemWritableFile {
            filename_: filename,
            data_: Vec::new(),
            use_direct_io_: true,
            preallocation_block_size_: preallocation_block_size,
        }
    }

    /// An empty file that is written through the system's cache.
    pub fn buffered(filename: String) -> (f: MemWritableFile)
        ensures
            f.contents() == Seq::<u8>::empty(),
            !f.direct_io(),
            f.name() == filename@,
            f.block_size() == 0,
    {
        MemWritableFile {
            filename_: filename,
            data_: Vec::new(),
            use_direct_io_: false,
            preallocation_block_size_: 0,
        }
    }

    /// The name that the file was given.
    pub fn filename(&self) -> (name: &String)
        ensures
            name@ == self.name(),
    {
        &self.filename_
    }

    /// A copy of the file's bytes.
    pub fn data(&self) -> (out: Vec<u8>)
        ensures
            out@ == self.contents(),
    {
        slice_to_vec(self.data_.as_slice())
    }
}

impl WritableFile for MemWritableFile {
    closed spec fn contents(&self) -> Seq<u8> {
        self.data_@
    }

    closed spec fn direct_io(&self) -> bool {
        self.use_direct_io_
    }

    /// Fails where the file would grow beyond what memory can address, and
    /// only there; the file then stays as it is.
    fn append(&mut self, data: Vec<u8>) -> (s: State)
        ensures
            s.is_ok() <==> old(self).contents().len() + data@.len() <= usize::MAX,
            !s.is_ok() ==> s.code() == Code::KIOError && *final(self) == *old(self),
            final(self).name() == old(self).name(),
            final(self).block_size() == old(self).block_size(),
    {
        if data.len() > usize::MAX - self.data_.len() {
            return State::new(Code::KIOError, "cannot append".to_string(), "".to_string());
        }
        let mut i: usize = 0;
        while i < data.len()
            invariant
                i <= data@.len(),
                self.data_@ == old(self).data_@ + data@.take(i as int),
                self.use_direct_io_ == old(self).use_direct_io_,
                self.filename_ == old(self).filename_,
                self.preallocation_block_size_ == old(self).preallocation_block_size_,
            decreases data@.len() - i,
        {
            self.data_.push(data[i]);
            assert(data@.take(i + 1) =~= data@.take(i as int).push(data@[i as int]));
            i = i + 1;
        }
        assert(data@.take(i as int) =~= data@);
        State::ok()
    }

    /// Fails where the write would reach beyond what memory can address, and
    /// only there; the file then stays as it is.
    fn positioned_append(&mut self, data: Vec<u8>, offset: usize) -> (s: State)
        ensures
            s.is_ok() <==> offset + data@.len() <= usize::MAX,
            !s.is_ok() ==> s.code() == Code::KIOError && *final(self) == *old(self),
            final(self).name() == old(self).name(),
            final(self).block_size() == old(self).block_size(),
    {
        if data.len() > usize::MAX - offset {
            return State::new(
                Code::KIOError,
                "While pwrite to file at offset".to_string(),
                "".to_string(),
            );
        }
        let end = offset + data.len();
        if self.data_.len() < end {
            self.data_.resize(end, 0u8);
        }
        let ghost grown = self.data_@;
        assert forall|j: int| 0 <= j < grown.len() implies grown[j] == (if j < old(self).data_@.len() {
            old(self).data_@[j]
        } else {
            0u8
        }) by {
            if j < old(self).data_@.len() && old(self).data_@.len() < end {
                assert(grown.subrange(0, old(self).data_@.len() as int)[j] == grown[j]);
            }
        }
        let mut i: usize = 0;
        while i < data.len()
            invariant
                i <= data@.len(),
                end == offset + data@.len(),
                self.data_@.len() == grown.len(),
                end <= grown.len(),
                forall|j: int| 0 <= j < i ==> self.data_@[offset + j] == data@[j],
                forall|j: int|
                    0 <= j < grown.len() && !(offset <= j < offset + i) ==> self.data_@[j]
                        == grown[j],
                self.use_direct_io_ == old(self).use_direct_io_,
                self.filename_ == old(self).filename_,
                self.preallocation_block_size_ == old(self).preallocation_block_size_,
            decreases data@.len() - i,
        {
            self.data_.set(offset + i, data[i]);
            i = i + 1;
        }
        let ghost want = crate::env::written_at(old(self).data_@, offset as nat, data@);
        assert(self.data_@.len() == want.len());
        assert forall|j: int| 0 <= j < want.len() implies self.data_@[j] == want[j] by {
            if offset <= j < offset + data@.len() {
                assert(self.data_@[offset + (j - offset)] == data@[j - offset]);
            } else {
                assert(self.data_@[j] == grown[j]);
            }
        }
        assert(self.data_@ =~= want);
        State::ok()
    }

    /// Never fails.
    fn truncate(&mut self, size: usize) -> (s: State)
        ensures
            s.is_ok(),
            final(self).name() == old(self).name(),
            final(self).block_size() == old(self).block_size(),
    {
        self.data_.resize(size, 0u8);
        assert forall|j: int| 0 <= j < size implies self.data_@[j] == (if j < old(self).data_@.len() {
            old(self).data_@[j]
        } else {
            0u8
        }) by {
            if j < old(self).data_@.len() && old(self).data_@.len() < size {
                assert(self.data_@.subrange(0, old(self).data_@.len() as int)[j] == self.data_@[j]);
            }
        }
        assert(self.data_@ =~= crate::env::resized(old(self).data_@, size as nat));
        State::ok()
    }

    /// A file in memory reserves nothing: it stays as it is.
    fn prepare_write(&mut self, offset: usize, len: usize)
        ensures
            *final(self) == *old(self),
    {
    }

    /// A file in memory reserves nothing, and that never fails.
    fn allocate(&self, offset: i64, len: i64) -> (s: State)
        ensures
            s.is_ok(),
    {
        State::ok()
    }

    /// A file in memory holds nothing back, so that this never fails.
    fn flush(&self) -> (s: State)
        ensures
            s.is_ok(),
    {
        State::ok()
    }

    /// A file in memory has no device to wait for, so that this never fails.
    fn sync(&self) -> (s: State)
        ensures
            s.is_ok(),
    {
        State::ok()
    }

    /// A file in memory has no device to write back to, so that this never
    /// fails.
    fn range_sync(&self, offset: i64, nbytes: i64) -> (s: State)
        ensures
            s.is_ok(),
    {
        State::ok()
    }

    /// A file in memory has no handle to give up, so that this never fails.
    fn close(&self) -> (s: State)
        ensures
            s.is_ok(),
    {
        State::ok()
    }

    fn use_direct_io(&self) -> (b: bool) {
        self.use_direct_io_
    }

    /// A file in memory is always open.
    fn fcntl(&self) -> (open: bool)
        ensures
            open,
    {
        true
    }

    /// A file in memory asks for the page size that is assumed of a device.
    fn get_required_buffer_alignment(&self) -> (n: usize)
        ensures
            n == crate::env::K_DEFAULT_PAGE_SIZE,
    {
        crate::env::K_DEFAULT_PAGE_SIZE
    }
}

/// A file in memory that is read from front to back.
#[derive(Debug)]
pub struct MemSequentialFile {
    data_: Vec<u8>,
    pos_: usize,
}

impl MemSequentialFile {
    /// A file that holds `data`, with the cursor at its start.
    pub fn new(data: Vec<u8>) -> (f: MemSequentialFile)
        ensures
            f.contents() == data@,
            f.contents().len() <= usize::MAX,
            f.position() == 0,
            f.dependable(),
    {
        proof {
            vstd::std_specs::vec::axiom_spec_len(&data);
        }
        MemSequentialFile { data_: data, pos_: 0 }
    }
}

impl SequentialFile for MemSequentialFile {
    closed spec fn contents(&self) -> Seq<u8> {
        self.data_@
    }

    closed spec fn position(&self) -> nat {
        self.pos_ as nat
    }

    closed spec fn dependable(&self) -> bool {
        true
    }

    /// Fails where the cursor would come before the start of the file or
    /// beyond what memory can address, and only there; the cursor then stays.
    fn skip(&mut self, n: i64) -> (s: State)
        ensures
            s.is_ok() <==> 0 <= old(self).position() + n <= usize::MAX,
            !s.is_ok() ==> s.code() == Code::KIOError && *final(self) == *old(self),
    {
        if n >= 0 {
            let step = n as u64;
            if step > (usize::MAX - self.pos_) as u64 {
                return State::new(Code::KIOError, "While fseek to skip".to_string(), "".to_string());
            }
            self.pos_ = self.pos_ + step as usize;
        } else {
            let back = (-(n + 1)) as u64;
            if back >= self.pos_ as u64 {
                return State::new(Code::KIOError, "While fseek to skip".to_string(), "".to_string());
            }
            self.pos_ = self.pos_ - back as usize - 1;
        }
        State::ok()
    }

    /// Never fails. `scratch` is left as it is.
    fn read(&mut self, n: usize, result: &mut Vec<u8>, scratch: &mut Vec<u8>) -> (s: State)
        ensures
            s.is_ok(),
            *final(scratch) == *old(scratch),
    {
        if self.pos_ >= self.data_.len() {
            result.clear();
            return State::ok();
        }
        let room = self.data_.len() - self.pos_;
        let k = if n < room {
            n
        } else {
            room
        };
        *result = slice_to_vec(slice_subrange(self.data_.as_slice(), self.pos_, self.pos_ + k));
        self.pos_ = self.pos_ + k;
        State::ok()
    }
}

} // verus!

use vstd::prelude::*;
use vstd::slice::slice_subrange;
use vstd::slice::slice_to_vec;

verus! {

/// `s` rounded down to a multiple of `page_size`.
pub open spec fn page_floor(page_size: nat, s: nat) -> nat {
    if page_size == 0 {
        s
    } else {
        (s - s % page_size) as nat
    }
}

/// `x` rounded up to a multiple of `y`.
pub open spec fn round_up(x: nat, y: nat) -> nat {
    if y == 0 || x % y == 0 {
        x
    } else {
        (x - x % y + y) as nat
    }
}

/// A power of two, as a bit pattern: exactly one bit is set.
pub open spec fn is_power_of_two(a: usize) -> bool {
    a > 0 && a & ((a - 1) as usize) == 0
}

/// Remainders by a positive number: their range, and what is left without
/// them.
pub proof fn lemma_remainder(x: nat, y: nat)
    requires
        y > 0,
    ensures
        x % y < y,
        x % y <= x,
        0nat % y == 0,
        (x - x % y) % (y as int) == 0,
        (x - x % y + y) % (y as int) == 0,
{
    let q = (x as int) / (y as int);
    let r = (x as int) % (y as int);
    vstd::arithmetic::div_mod::lemma_fundamental_div_mod(x as int, y as int);
    vstd::arithmetic::div_mod::lemma_mod_bound(x as int, y as int);
    vstd::arithmetic::div_mod::lemma_div_pos_is_pos(x as int, y as int);
    vstd::arithmetic::mul::lemma_mul_nonnegative(y as int, q);
    vstd::arithmetic::div_mod::lemma_mod_multiples_basic(q, y as int);
    vstd::arithmetic::mul::lemma_mul_is_commutative(q, y as int);
    vstd::arithmetic::div_mod::lemma_mod_add_multiples_vanish(x - r, y as int);
    vstd::arithmetic::div_mod::lemma_small_mod(0, y);
}

/// Rounding meets the multiple it names and moves less than one step.
pub proof fn lemma_rounding(x: nat, y: nat)
    requires
        y > 0,
    ensures
        page_floor(y, x) % y == 0,
        page_floor(y, x) <= x < page_floor(y, x) + y,
        round_up(x, y) % y == 0,
        x <= round_up(x, y) < x + y,
        round_up(x, y) == if x % y == 0 { x } else { page_floor(y, x) + y },
{
    lemma_remainder(x, y);
}

/// A multiple of `y` that is at least `x` is at least `x` rounded up.
pub proof fn lemma_round_up_fits(x: nat, y: nat, c: nat)
    requires
        y > 0,
        x <= c,
        c % y == 0,
    ensures
        round_up(x, y) <= c,
{
    lemma_rounding(x, y);
    if x % y != 0 {
        let f = page_floor(y, x);
        vstd::arithmetic::div_mod::lemma_fundamental_div_mod(f as int, y as int);
        vstd::arithmetic::div_mod::lemma_fundamental_div_mod(c as int, y as int);
        let qf = (f as int) / (y as int);
        let qc = (c as int) / (y as int);
        assert(qf < qc) by (nonlinear_arith)
            requires
                f == y * qf,
                c == y * qc,
                f < c,
                y > 0,
        ;
        assert(f + y <= c) by (nonlinear_arith)
            requires
                f == y * qf,
                c == y * qc,
                qf < qc,
                y > 0,
        ;
    }
}

/// `s` rounded down to a multiple of `page_size`.
pub fn truncate_to_page_boundary(page_size: usize, s: usize) -> (r: usize)
    requires
        page_size > 0,
    ensures
        r == page_floor(page_size as nat, s as nat),
{
    proof {
        lemma_remainder(s as nat, page_size as nat);
    }
    s - s % page_size
}

/// What an aligned buffer holds: its storage, of which the first `size` bytes
/// are in use.
pub struct BufferModel {
    pub alignment: nat,
    pub storage: Seq<u8>,
    pub size: nat,
}

impl BufferModel {
    /// The bytes in use.
    pub open spec fn contents(self) -> Seq<u8> {
        self.storage.take(self.size as int)
    }

    pub open spec fn capacity(self) -> nat {
        self.storage.len()
    }
}

/// A byte buffer whose capacity is a multiple of its alignment, with a write
/// cursor.
#[derive(Debug)]
pub struct AlignedBuffer {
    alignment_: usize,
    buf_: Vec<u8>,
    cursize_: usize,
}

impl View for AlignedBuffer {
    type V = BufferModel;

    closed spec fn view(&self) -> BufferModel {
        BufferModel {
            alignment: self.alignment_ as nat,
            storage: self.buf_@,
            size: self.cursize_ as nat,
        }
    }
}

impl Default for AlignedBuffer {
    fn default() -> (b: AlignedBuffer)
        ensures
            b.wf(),
            b@.alignment == 1,
            b@.storage.len() == 0,
            b@.size == 0,
    {
        assert(1usize & ((1usize - 1) as usize) == 0) by (bit_vector);
        proof {
            lemma_remainder(0, 1);
        }
        AlignedBuffer { alignment_: 1, buf_: Vec::new(), cursize_: 0 }
    }
}

impl AlignedBuffer {
    /// The alignment is a power of two, the capacity a multiple of it, and the
    /// cursor is within the capacity.
    pub closed spec fn wf(&self) -> bool {
        &&& is_power_of_two(self.alignment_)
        &&& self.buf_@.len() % (self.alignment_ as nat) == 0
        &&& self.cursize_ <= self.buf_@.len() <= usize::MAX
    }

    /// What `wf` says, over the view.
    pub proof fn lemma_wf(&self)
        requires
            self.wf(),
        ensures
            self@.alignment > 0,
            is_power_of_two(self@.alignment as usize),
            self@.capacity() % self@.alignment == 0,
            self@.size <= self@.capacity(),
            self@.capacity() <= usize::MAX,
            self@.contents().len() == self@.size,
    {
    }

    /// Sets the alignment. The buffer is left without storage, to be allocated
    /// anew.
    pub fn alignment(&mut self, alignment: usize)
        requires
            is_power_of_two(alignment),
        ensures
            final(self).wf(),
            final(self)@.alignment == alignment,
            final(self)@.storage.len() == 0,
            final(self)@.size == 0,
    {
        proof {
            lemma_remainder(0, alignment as nat);
        }
        self.alignment_ = alignment;
        self.buf_ = Vec::new();
        self.cursize_ = 0;
    }

    pub fn get_alignment(&self) -> (a: usize)
        ensures
            a == self@.alignment,
    {
        self.alignment_
    }

    pub fn get_capacity(&self) -> (c: usize)
        ensures
            c == self@.capacity(),
    {
        self.buf_.len()
    }

    pub fn get_current_size(&self) -> (n: usize)
        ensures
            n == self@.size,
    {
        self.cursize_
    }

    /// Replaces the storage by one of `requested_capacity` rounded up to the
    /// alignment, filled with zeros. With `copy_data` the bytes in use are kept,
    /// and a request below their number is ignored; without it the buffer is
    /// emptied.
    pub fn allocate_new_buffer(&mut self, requested_capacity: usize, copy_data: bool)
        requires
            old(self).wf(),
            round_up(requested_capacity as nat, old(self)@.alignment) <= usize::MAX,
        ensures
            final(self).wf(),
            final(self)@.alignment == old(self)@.alignment,
            copy_data && requested_capacity < old(self)@.size ==> final(self)@ == old(self)@,
            !(copy_data && requested_capacity < old(self)@.size) ==> {
                &&& final(self)@.capacity() == round_up(
                    requested_capacity as nat,
                    old(self)@.alignment,
                )
                &&& final(self)@.size == if copy_data {
                    old(self)@.size
                } else {
                    0
                }
                &&& final(self)@.contents() == if copy_data {
                    old(self)@.contents()
                } else {
                    Seq::<u8>::empty()
                }
                &&& forall|i: int|
                    final(self)@.size <= i < final(self)@.capacity() ==> final(self)@.storage[i]
                        == 0
            },
    {
        if copy_data && requested_capacity < self.cursize_ {
            return ;
        }
        proof {
            lemma_rounding(requested_capacity as nat, self.alignment_ as nat);
            lemma_remainder(requested_capacity as nat, self.alignment_ as nat);
        }
        let rem = requested_capacity % self.alignment_;
        let new_capacity = if rem == 0 {
            requested_capacity
        } else {
            requested_capacity - rem + self.alignment_
        };
        let mut storage: Vec<u8> = if copy_data {
            slice_to_vec(slice_subrange(self.buf_.as_slice(), 0, self.cursize_))
        } else {
            Vec::new()
        };
        let kept = storage.len();
        let ghost kept_bytes = storage@;
        storage.resize(new_capacity, 0u8);
        assert(storage@.subrange(0, kept as int) == kept_bytes);
        self.buf_ = storage;
        self.cursize_ = kept;
        assert(self@.contents() =~= kept_bytes);
        assert(old(self)@.contents() =~= old(self).buf_@.subrange(0, old(self).cursize_ as int));
    }

    /// Copies as much of the first `append_size` bytes of `src` as the free
    /// space takes, and says how many that was.
    pub fn append(&mut self, src: &[u8], append_size: usize) -> (copied: usize)
        requires
            old(self).wf(),
            append_size <= src@.len(),
        ensures
            final(self).wf(),
            final(self)@.alignment == old(self)@.alignment,
            final(self)@.capacity() == old(self)@.capacity(),
            copied == if append_size <= old(self)@.capacity() - old(self)@.size {
                append_size as int
            } else {
                old(self)@.capacity() - old(self)@.size
            },
            final(self)@.size == old(self)@.size + copied,
            final(self)@.contents() == old(self)@.contents() + src@.take(copied as int),
            forall|i: int|
                final(self)@.size <= i < final(self)@.capacity() ==> final(self)@.storage[i]
                    == old(self)@.storage[i],
    {
        let buffer_remaining = self.buf_.len() - self.cursize_;
        let to_copy = if append_size < buffer_remaining {
            append_size
        } else {
            buffer_remaining
        };
        let base = self.cursize_;
        let mut i: usize = 0;
        while i < to_copy
            invariant
                i <= to_copy,
                to_copy <= src@.len(),
                base + to_copy <= self.buf_@.len() <= usize::MAX,
                self.buf_@.len() == old(self).buf_@.len(),
                self.alignment_ == old(self).alignment_,
                self.cursize_ == base,
                base == old(self).cursize_,
                self.buf_@.take(base as int) == old(self).buf_@.take(base as int),
                forall|j: int| 0 <= j < i ==> self.buf_@[base + j] == src@[j],
                forall|j: int|
                    base + i <= j < self.buf_@.len() ==> self.buf_@[j] == old(self).buf_@[j],
            decreases to_copy - i,
        {
            let ghost before = self.buf_@;
            self.buf_.set(base + i, src[i]);
            assert(self.buf_@.take(base as int) =~= before.take(base as int));
            i = i + 1;
        }
        self.cursize_ = base + to_copy;
        assert(self@.contents() =~= old(self)@.contents() + src@.take(to_copy as int));
        to_copy
    }

    /// The bytes in use from `offset` on, at most `read_size` of them.
    pub fn read(&self, offset: usize, read_size: usize) -> (out: Vec<u8>)
        requires
            self.wf(),
        ensures
            out@ == if offset < self@.size {
                self@.contents().subrange(
                    offset as int,
                    if read_size <= self@.size - offset {
                        offset + read_size
                    } else {
                        self@.size as int
                    },
                )
            } else {
                Seq::<u8>::empty()
            },
    {
        if offset < self.cursize_ {
            let room = self.cursize_ - offset;
            let to_read = if read_size < room {
                read_size
            } else {
                room
            };
            let out = slice_to_vec(slice_subrange(self.buf_.as_slice(), offset, offset + to_read));
            assert(out@ =~= self@.contents().subrange(offset as int, offset + to_read));
            out
        } else {
            Vec::new()
        }
    }

    /// Fills the storage from the cursor up to the next multiple of the
    /// alignment with `padding`, and moves the cursor there.
    pub fn pad_to_alignment_with(&mut self, padding: u8)
        requires
            old(self).wf(),
        ensures
            final(self).wf(),
            final(self)@.alignment == old(self)@.alignment,
            final(self)@.capacity() == old(self)@.capacity(),
            final(self)@.size == round_up(old(self)@.size, old(self)@.alignment),
            final(self)@.contents() == old(self)@.contents() + Seq::new(
                (final(self)@.size - old(self)@.size) as nat,
                |i: int| padding,
            ),
            forall|i: int|
                final(self)@.size <= i < final(self)@.capacity() ==> final(self)@.storage[i]
                    == old(self)@.storage[i],
    {
        proof {
            lemma_rounding(self.cursize_ as nat, self.alignment_ as nat);
            lemma_round_up_fits(
                self.cursize_ as nat,
                self.alignment_ as nat,
                self.buf_@.len() as nat,
            );
            lemma_remainder(self.cursize_ as nat, self.alignment_ as nat);
        }
        let rem = self.cursize_ % self.alignment_;
        let total_size = if rem == 0 {
            self.cursize_
        } else {
            self.cursize_ - rem + self.alignment_
        };
        let base = self.cursize_;
        let mut i: usize = base;
        while i < total_size
            invariant
                base <= i <= total_size <= self.buf_@.len(),
                self.buf_@.len() == old(self).buf_@.len(),
                self.alignment_ == old(self).alignment_,
                self.cursize_ == base,
                base == old(self).cursize_,
                forall|j: int| 0 <= j < base ==> self.buf_@[j] == old(self).buf_@[j],
                forall|j: int| base <= j < i ==> self.buf_@[j] == padding,
                forall|j: int| i <= j < self.buf_@.len() ==> self.buf_@[j] == old(self).buf_@[j],
            decreases total_size - i,
        {
            self.buf_.set(i, padding);
            i = i + 1;
        }
        self.cursize_ = total_size;
        assert(self@.contents() =~= old(self)@.contents() + Seq::new(
            (total_size - base) as nat,
            |i: int| padding,
        ));
    }

    /// Moves the `tail_size` bytes at `tail_offset` to the front; they become
    /// the bytes in use.
    pub fn refit_tail(&mut self, tail_offset: usize, tail_size: usize)
        requires
            old(self).wf(),
            tail_offset + tail_size <= old(self)@.capacity(),
        ensures
            final(self).wf(),
            final(self)@.alignment == old(self)@.alignment,
            final(self)@.capacity() == old(self)@.capacity(),
            final(self)@.size == tail_size,
            final(self)@.contents() == old(self)@.storage.subrange(
                tail_offset as int,
                tail_offset + tail_size,
            ),
            forall|i: int|
                tail_size <= i < final(self)@.capacity() ==> final(self)@.storage[i]
                    == old(self)@.storage[i],
    {
        let mut i: usize = 0;
        while i < tail_size
            invariant
                i <= tail_size,
                tail_offset + tail_size <= self.buf_@.len() <= usize::MAX,
                self.buf_@.len() == old(self).buf_@.len(),
                self.alignment_ == old(self).alignment_,
                self.cursize_ == old(self).cursize_,
                forall|j: int| 0 <= j < i ==> self.buf_@[j] == old(self).buf_@[tail_offset + j],
                forall|j: int| i <= j < self.buf_@.len() ==> self.buf_@[j] == old(self).buf_@[j],
            decreases tail_size - i,
        {
            let b = self.buf_[tail_offset + i];
            self.buf_.set(i, b);
            i = i + 1;
        }
        self.cursize_ = tail_size;
        assert(self@.contents() =~= old(self)@.storage.subrange(
            tail_offset as int,
            tail_offset + tail_size,
        ));
    }

    /// Moves the cursor to `cursize`; the storage is untouched.
    pub fn size(&mut self, cursize: usize)
        requires
            old(self).wf(),
            cursize <= old(self)@.capacity(),
        ensures
            final(self).wf(),
            final(self)@.alignment == old(self)@.alignment,
            final(self)@.storage == old(self)@.storage,
            final(self)@.size == cursize,
    {
        self.cursize_ = cursize;
    }
}

} // verus!

//! Growable byte-buffer bookkeeping: contents are padded to the copy
//! alignment, and capacity grows to the next power of two when exceeded.
//! The caller performs the actual writes; a write never preserves old
//! contents across a reallocation, and the buffer handle may change then.
use vstd::prelude::*;

verus! {

/// The alignment, in bytes, every buffer write is padded to.
pub const COPY_BUFFER_ALIGNMENT: u64 = 4;

/// The capacity a fresh buffer starts with.
pub const INITIAL_BUFFER_SIZE: u64 = 4096;

/// `len` rounded up to the copy alignment.
pub open spec fn spec_padded_len(len: int) -> int {
    len + ((4 - len % 4) % 4)
}

/// Whether `n` is a power of two.
pub open spec fn is_pow2(n: int) -> bool
    decreases n,
{
    if n <= 0 {
        false
    } else if n == 1 {
        true
    } else {
        n % 2 == 0 && is_pow2(n / 2)
    }
}

/// The byte length a write of `len` bytes occupies after padding.
pub fn padded_len(len: usize) -> (r: usize)
    requires
        len + 3 <= usize::MAX,
    ensures
        r == spec_padded_len(len as int),
        r % 4 == 0,
        len <= r < len + 4,
{
    len + ((4 - len % 4) % 4)
}

/// The contents of a write after padding: the bytes themselves, then zeros
/// up to the copy alignment.
pub fn pad_contents(contents: &Vec<u8>) -> (r: Vec<u8>)
    requires
        contents.len() + 3 <= usize::MAX,
    ensures
        r@.len() == spec_padded_len(contents@.len() as int),
        r@.subrange(0, contents@.len() as int) == contents@,
        forall|i: int| contents@.len() <= i < r@.len() ==> r@[i] == 0,
{
    let mut r: Vec<u8> = Vec::new();
    let mut i: usize = 0;
    while i < contents.len()
        invariant
            i <= contents.len(),
            r@ == contents@.subrange(0, i as int),
        decreases contents.len() - i,
    {
        r.push(contents[i]);
        i += 1;
    }
    proof {
        assert(r@ =~= contents@);
    }
    let target = padded_len(contents.len());
    while r.len() < target
        invariant
            contents@.len() <= r@.len() <= target,
            target == spec_padded_len(contents@.len() as int),
            r@.subrange(0, contents@.len() as int) =~= contents@,
            forall|j: int| contents@.len() <= j < r@.len() ==> r@[j] == 0,
        decreases target - r.len(),
    {
        r.push(0);
    }
    proof {
        assert(r@.subrange(0, contents@.len() as int) =~= contents@);
    }
    r
}

/// The smallest aligned power-of-two capacity at least `size`, never under
/// the copy alignment.
pub fn next_copy_buffer_size(size: u64) -> (r: u64)
    requires
        size <= 0x8000_0000_0000_0000,
    ensures
        is_pow2(r as int),
        r >= size,
        r >= COPY_BUFFER_ALIGNMENT,
        r as int % 4 == 0,
        r == COPY_BUFFER_ALIGNMENT || r / 2 < size,
{
    let mut p: u64 = 4;
    proof {
        assert(is_pow2(1));
        assert(is_pow2(2));
        assert(is_pow2(4));
    }
    while p < size
        invariant
            4 <= p,
            is_pow2(p as int),
            p as int % 4 == 0,
            p == 4 || p / 2 < size,
            size <= 0x8000_0000_0000_0000,
            p < size ==> p <= 0x8000_0000_0000_0000,
        decreases (if p < size { size - p } else { 0 }) as int,
    {
        let old_p: Ghost<u64> = Ghost(p);
        p = p * 2;
        proof {
            assert(p as int / 2 == old_p@ as int);
            assert(is_pow2(p as int));
            assert(p as int % 4 == 0) by {
                assert(old_p@ as int % 2 == 0);
                let k = old_p@ as int / 2;
                assert(old_p@ as int == 2 * k);
                assert(p as int == 4 * k);
                assert((4 * k) % 4 == 0) by {
                    vstd::arithmetic::div_mod::lemma_mod_multiples_basic(k, 4);
                }
            }
        }
    }
    p
}

/// What a write does to the underlying buffer: an update in place, or a
/// reallocation to a new capacity (old contents are discarded and the
/// buffer handle changes).
#[derive(Debug, Clone, Copy, PartialEq, Eq, Structural)]
pub enum WriteAction {
    InPlace,
    Reallocate(u64),
}

/// The capacity bookkeeping of a growable byte buffer.
#[derive(Debug, Clone, Copy, PartialEq, Eq, Structural)]
pub struct DynamicBuffer {
    /// The current capacity, in bytes.
    pub size: u64,
}

impl DynamicBuffer {
    /// A fresh buffer at the initial capacity.
    pub fn new() -> (r: DynamicBuffer)
        ensures
            r.size == INITIAL_BUFFER_SIZE,
    {
        DynamicBuffer { size: INITIAL_BUFFER_SIZE }
    }

    /// Record a write of `len` content bytes: after it, the capacity holds
    /// the padded contents. A write within capacity is an update in place;
    /// one beyond it reallocates to the smallest aligned power of two that
    /// fits, and the result names that new capacity.
    pub fn write_buffer(&mut self, len: usize) -> (r: WriteAction)
        requires
            len + 3 <= 0x8000_0000_0000_0000,
        ensures
            final(self).size >= spec_padded_len(len as int),
            old(self).size >= spec_padded_len(len as int) ==> {
                &&& r == WriteAction::InPlace
                &&& *final(self) == *old(self)
            },
            old(self).size < spec_padded_len(len as int) ==> {
                &&& r == WriteAction::Reallocate(final(self).size)
                &&& is_pow2(final(self).size as int)
                &&& final(self).size == COPY_BUFFER_ALIGNMENT
                    || final(self).size / 2 < spec_padded_len(len as int)
            },
    {
        let padded: u64 = (len as u64) + ((4 - (len as u64) % 4) % 4);
        if self.size >= padded {
            WriteAction::InPlace
        } else {
            let ns = next_copy_buffer_size(padded);
            self.size = ns;
            WriteAction::Reallocate(ns)
        }
    }
}

} // verus!

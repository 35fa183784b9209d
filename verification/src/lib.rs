//! A small heap for programs without an operating system: a fixed buffer,
//! carved into blocks by headers stored in the buffer itself.
//!
//! [`RawAllocator`] manages the buffer and speaks in offsets. [`Allocator`]
//! puts it behind a spin lock and speaks in addresses and alignments.
//! The module [`block`] describes the block list, [`layout`] how it is kept
//! in the buffer, and [`laws`] what holds of it whatever is asked.
pub mod align;
pub mod block;
pub mod laws;
pub mod layout;
mod lock;
pub mod raw_allocator;

use crate::align::{align_up, lemma_align_up, lemma_pow2_and_header, raw_request};
use crate::block::{
    after_allocate, after_free, first_fit, lemma_block_in_bounds, lemma_first_fit,
    lemma_offsets_aligned, lemma_owner_bounds, lemma_too_large, payload_offset, round_up,
    HEADER_SIZE,
};
use crate::lock::{guard_mut, mutex_lock, mutex_new};
use crate::raw_allocator::{verdict, RawAllocator};
use vstd::arithmetic::power2::is_pow2;
use vstd::prelude::*;

verus! {

/// The allocator behind its lock.
///
/// The buffer is addressed from `base`: the address that offset 0 of the
/// buffer stands for. The caller passes it with every call and passes the
/// same one every time. Address 0 is the null pointer: no allocation has it,
/// since every payload lies behind a header.
#[verifier::reject_recursive_types(N)]
pub struct Allocator<const N: usize> {
    raw: spin::Mutex<RawAllocator<N>>,
}

impl<const N: usize> Allocator<N> {
    /// Where a buffer of `N` bytes can stand: at a multiple of the header
    /// size, and low enough for its end to be an address.
    pub open spec fn valid_base(base: usize) -> bool {
        base % 4 == 0 && base + N <= usize::MAX
    }

    /// A lock around a fresh raw allocator; `RawAllocator::new` states what that one holds.
    pub fn new() -> (allocator: Self)
        requires
            RawAllocator::<N>::valid_size(),
    {
        Allocator { raw: mutex_new(RawAllocator::new()) }
    }

    /// The smallest address from `addr` on that is a multiple of `align`.
    pub fn align_to(addr: usize, align: usize) -> (aligned: usize)
        requires
            is_pow2(align as int),
            align_up(addr as int, align as int) <= usize::MAX,
        ensures
            aligned == align_up(addr as int, align as int),
            aligned % align == 0,
            addr <= aligned < addr + align,
    {
        proof {
            lemma_pow2_and_header(align as int);
            lemma_align_up(addr as int, align as int);
        }
        let mismatch: usize = addr % align;
        if mismatch != 0 {
            addr + (align - mismatch)
        } else {
            addr
        }
    }

    /// Takes the lock and allocates `size` bytes aligned to `align`. Returns the
    /// address, or 0 when the allocator behind the lock has no block that
    /// fits. What the lock holds is not known here, so this states what holds
    /// of every outcome; `allocate_in` says which outcome it is for a given
    /// allocator.
    pub fn allocate(&self, base: usize, size: usize, align: usize) -> (ptr: usize)
        requires
            is_pow2(align as int),
            Self::valid_base(base),
        ensures
            ptr == 0 || (ptr % align == 0 && base + HEADER_SIZE <= ptr && ptr + size <= base + N),
            raw_request(size as int, align as int) > N - HEADER_SIZE ==> ptr == 0,
    {
        let mut guard = mutex_lock(&self.raw);
        let raw = guard_mut(&mut guard);
        Self::allocate_in(raw, base, size, align)
    }

    /// Allocates from `raw`: asks it for `raw_request(size, align)` bytes and
    /// returns the first address in the payload that is aligned to `align`,
    /// or 0 when no block fits.
    pub fn allocate_in(raw: &mut RawAllocator<N>, base: usize, size: usize, align: usize) -> (ptr:
        usize)
        requires
            is_pow2(align as int),
            Self::valid_base(base),
        ensures
            old(raw).wf(),
            final(raw).wf(),
            final(raw)@ == after_allocate(old(raw)@, raw_request(size as int, align as int)),
            match first_fit(old(raw)@, round_up(raw_request(size as int, align as int))) {
                Some(i) => {
                    &&& ptr == align_up(base + payload_offset(old(raw)@, i), align as int)
                    &&& base + payload_offset(old(raw)@, i) <= ptr
                    &&& ptr + size <= base + payload_offset(old(raw)@, i) + final(raw)@[i].size
                },
                None => ptr == 0 && *final(raw) == *old(raw),
            },
            ptr == 0 || (ptr % align == 0 && base + HEADER_SIZE <= ptr && ptr + size <= base + N),
            raw_request(size as int, align as int) > N - HEADER_SIZE ==> ptr == 0,
    {
        proof {
            lemma_pow2_and_header(align as int);
        }
        let ghost s = raw@;
        let ghost need = round_up(raw_request(size as int, align as int));
        // a sum beyond the address space is a request that no buffer serves
        let request: usize = if align > HEADER_SIZE {
            size.saturating_add(align)
        } else {
            size
        };
        proof {
            lemma_first_fit(s, need);
            lemma_first_fit(s, round_up(request as int));
        }
        match raw.allocate(request) {
            Some(region) => {
                proof {
                    let i = first_fit(s, need)->Some_0;
                    lemma_block_in_bounds(s, N as int, i);
                    lemma_offsets_aligned(s, i);
                    lemma_align_up(base + region.start, align as int);
                }
                Self::align_to(base + region.start, align)
            },
            None => {
                proof {
                    if raw_request(size as int, align as int) > N - HEADER_SIZE {
                        lemma_too_large(s, N as int, need);
                    }
                }
                0
            },
        }
    }

    /// Takes the lock and gives back the block that `ptr` points into. A
    /// pointer that belongs to no used block is ignored. What this does to a
    /// given allocator is stated by `dealloc_in`.
    pub fn dealloc(&self, base: usize, ptr: usize) {
        let mut guard = mutex_lock(&self.raw);
        let raw = guard_mut(&mut guard);
        Self::dealloc_in(raw, base, ptr)
    }

    /// Gives the block that `ptr` points into back to `raw`. Any address in
    /// the payload names the block, so a pointer that was moved up for
    /// alignment needs no correction. A pointer that belongs to no used block
    /// changes nothing.
    pub fn dealloc_in(raw: &mut RawAllocator<N>, base: usize, ptr: usize)
        ensures
            old(raw).wf(),
            final(raw).wf(),
            final(raw)@ == after_free(old(raw)@, ptr - base),
            verdict(old(raw)@, ptr - base) is Err ==> *final(raw) == *old(raw),
    {
        // an address below the buffer is no more part of it than the address
        // of its end
        let offset: usize = if ptr >= base {
            ptr - base
        } else {
            N
        };
        let ghost before = raw@;
        let _ = raw.free(offset);
        proof {
            if ptr < base {
                lemma_owner_bounds(before, N as int, ptr - base);
                lemma_owner_bounds(before, N as int, N as int);
            }
        }
    }
}

} // verus!

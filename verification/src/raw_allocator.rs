//! The allocator proper: a buffer of `N` bytes and the block list kept in it.
//!
//! Callers name memory by its offset from the start of the buffer. Alignment
//! beyond the header size and real addresses are the business of the layer
//! above.
use crate::block::{
    after_allocate, after_free, first_fit, first_fit_from, header_offset, lemma_offset_ends,
    lemma_offsets_aligned, lemma_too_large, owner, owner_from, partitions, payload_offset, place, pristine, release,
    round_up, Block, State, HEADER_SIZE,
};
use crate::layout::{
    holds, lemma_cut, lemma_fresh, lemma_holds_block, lemma_holds_partitions, lemma_holds_walk,
    lemma_payload_write, lemma_rewrite, lemma_walk_holds, load, store, stored, valid_size, walk,
    walkable,
};
use vstd::prelude::*;

verus! {

/// Why a pointer could not be given back.
#[derive(Clone, Copy, Debug, PartialEq, Eq, Structural)]
pub enum FreeError {
    /// The offset lies in no payload: outside the buffer, or inside a header.
    NotAllocated,
    /// The offset lies in the payload of a block that is free already.
    DoubleFree,
}

/// What giving back offset `p` comes to on list `s`: accepted if `p` lies in
/// the payload of a used block, refused with the reason otherwise.
pub open spec fn verdict(s: Seq<Block>, p: int) -> Result<(), FreeError> {
    match owner(s, p) {
        Some(i) => if s[i].state == State::Used {
            Ok(())
        } else {
            Err(FreeError::DoubleFree)
        },
        None => Err(FreeError::NotAllocated),
    }
}

/// The payload handed out by an allocation, as a range of buffer offsets.
#[derive(Clone, Copy, Debug, PartialEq, Eq, Structural)]
pub struct Region {
    /// Offset of the first payload byte.
    pub start: usize,
    /// Number of payload bytes: the request rounded up, or more where the
    /// whole block was taken.
    pub len: usize,
}

/// A buffer of `N` bytes managed as a list of blocks.
pub struct RawAllocator<const N: usize> {
    buffer: [u8; N],
}

impl<const N: usize> View for RawAllocator<N> {
    type V = Seq<Block>;

    /// The block list, read off the buffer from offset 0.
    closed spec fn view(&self) -> Seq<Block> {
        walk(self.buffer@, 0)
    }
}

impl<const N: usize> RawAllocator<N> {
    /// `N` is a buffer size that an allocator can have.
    pub open spec fn valid_size() -> bool {
        valid_size(N as int)
    }

    #[verifier::type_invariant]
    spec fn inv(self) -> bool {
        Self::valid_size() && walkable(self.buffer@, 0)
    }

    /// The block list tiles the buffer.
    pub open spec fn wf(&self) -> bool {
        Self::valid_size() && partitions(self@, N as int)
    }

    /// An allocator whose buffer is one free block.
    pub fn new() -> (raw: Self)
        requires
            Self::valid_size(),
        ensures
            raw.wf(),
            raw@ == pristine(N as int),
    {
        let mut buffer: [u8; N] = [0u8; N];
        proof {
            lemma_fresh(buffer@);
        }
        store(&mut buffer, 0, Block { state: State::Free, size: N - HEADER_SIZE });
        proof {
            lemma_holds_walk(buffer@, pristine(N as int));
            lemma_holds_partitions(buffer@, pristine(N as int));
        }
        RawAllocator { buffer }
    }

    /// Hands out the first free block whose payload has room for `size` bytes,
    /// rounded up to a multiple of the header size. The block is cut in two
    /// where at least a header's worth is left over. Returns the payload, or
    /// nothing and leaves the allocator as it was when no block fits.
    pub fn allocate(&mut self, size: usize) -> (region: Option<Region>)
        ensures
            old(self).wf(),
            final(self).wf(),
            final(self)@ == after_allocate(old(self)@, size as int),
            match first_fit(old(self)@, round_up(size as int)) {
                Some(i) => {
                    &&& region matches Some(r)
                    &&& r.start == payload_offset(old(self)@, i)
                    &&& r.len == final(self)@[i].size
                    &&& r.start % HEADER_SIZE == 0
                    &&& size <= r.len
                    &&& r.start + r.len <= N
                },
                None => region is None && *final(self) == *old(self),
            },
            size > N - HEADER_SIZE ==> region is None,
    {
        proof {
            use_type_invariant(&*self);
            lemma_walk_holds(self.buffer@);
            lemma_holds_partitions(self.buffer@, self@);
            lemma_offset_ends(self@);
        }
        let ghost s = self@;
        if size > N - HEADER_SIZE {
            proof {
                lemma_too_large(s, N as int, round_up(size as int));
            }
            return None;
        }
        let need: usize = (size + (HEADER_SIZE - 1)) / HEADER_SIZE * HEADER_SIZE;
        let mut at: usize = 0;
        let ghost mut k: int = 0;
        while at < N
            invariant
                *self == *old(self),
                s == old(self)@,
                Self::valid_size(),
                holds(self.buffer@, s),
                partitions(s, N as int),
                need == round_up(size as int),
                0 <= k <= s.len(),
                at == header_offset(s, k),
                at <= N,
                at == N <==> k == s.len(),
                first_fit(s, need as int) == first_fit_from(s, need as int, k),
            decreases N - at,
        {
            proof {
                lemma_holds_block(self.buffer@, s, k);
                lemma_offsets_aligned(s, k);
            }
            let b = load(&self.buffer, at);
            if b.state == State::Free && b.size >= need {
                let rest: usize = b.size - need;
                let len: usize = if rest >= HEADER_SIZE {
                    let left = Block { state: State::Free, size: rest - HEADER_SIZE };
                    let taken = Block { state: State::Used, size: need };
                    let behind: usize = at + HEADER_SIZE + need;
                    proof {
                        let between = stored(self.buffer@, behind as int, left);
                        let after = stored(between, at as int, taken);
                        lemma_payload_write(self.buffer@, s, k, behind as int, left);
                        lemma_holds_walk(between, s);
                        lemma_cut(self.buffer@, s, k, need as int);
                        lemma_holds_walk(after, place(s, k, need as int));
                    }
                    store(&mut self.buffer, behind, left);
                    store(&mut self.buffer, at, taken);
                    need
                } else {
                    let taken = Block { state: State::Used, size: b.size };
                    proof {
                        let after = stored(self.buffer@, at as int, taken);
                        lemma_rewrite(self.buffer@, s, k, 1, taken);
                        lemma_holds_walk(after, place(s, k, need as int));
                    }
                    store(&mut self.buffer, at, taken);
                    b.size
                };
                proof {
                    lemma_holds_walk(self.buffer@, place(s, k, need as int));
                    lemma_holds_partitions(self.buffer@, place(s, k, need as int));
                }
                return Some(Region { start: at + HEADER_SIZE, len });
            }
            at = at + HEADER_SIZE + b.size;
            proof {
                k = k + 1;
            }
        }
        None
    }

    /// Gives back the block whose payload contains `offset`; any byte of the
    /// payload names the block. The block becomes free and absorbs its right
    /// neighbour if that one is free. An offset that lies in no payload, or in
    /// the payload of a free block, is refused and changes nothing.
    pub fn free(&mut self, offset: usize) -> (outcome: Result<(), FreeError>)
        ensures
            old(self).wf(),
            final(self).wf(),
            final(self)@ == after_free(old(self)@, offset as int),
            outcome == verdict(old(self)@, offset as int),
            outcome is Err ==> *final(self) == *old(self),
    {
        proof {
            use_type_invariant(&*self);
            lemma_walk_holds(self.buffer@);
            lemma_holds_partitions(self.buffer@, self@);
            lemma_offset_ends(self@);
        }
        let ghost s = self@;
        let mut at: usize = 0;
        let ghost mut k: int = 0;
        while at < N
            invariant
                *self == *old(self),
                s == old(self)@,
                Self::valid_size(),
                holds(self.buffer@, s),
                partitions(s, N as int),
                0 <= k <= s.len(),
                at == header_offset(s, k),
                at <= N,
                at == N <==> k == s.len(),
                owner(s, offset as int) == owner_from(s, offset as int, k),
            decreases N - at,
        {
            proof {
                lemma_holds_block(self.buffer@, s, k);
            }
            let b = load(&self.buffer, at);
            let next: usize = at + HEADER_SIZE + b.size;
            if at + HEADER_SIZE <= offset && offset < next {
                if b.state == State::Free {
                    return Err(FreeError::DoubleFree);
                }
                let mut size: usize = b.size;
                let ghost mut count: int = 1;
                if next < N {
                    proof {
                        lemma_holds_block(self.buffer@, s, k + 1);
                    }
                    let neighbour = load(&self.buffer, next);
                    if neighbour.state == State::Free {
                        size = size + HEADER_SIZE + neighbour.size;
                        proof {
                            count = 2;
                        }
                    }
                }
                let freed = Block { state: State::Free, size };
                proof {
                    lemma_rewrite(self.buffer@, s, k, count, freed);
                    lemma_holds_walk(stored(self.buffer@, at as int, freed), release(s, k));
                }
                store(&mut self.buffer, at, freed);
                proof {
                    lemma_holds_walk(self.buffer@, release(s, k));
                    lemma_holds_partitions(self.buffer@, release(s, k));
                }
                return Ok(());
            }
            at = next;
            proof {
                k = k + 1;
            }
        }
        Err(FreeError::NotAllocated)
    }

    /// The block list, in buffer order.
    pub fn blocks(&self) -> (list: Vec<Block>)
        ensures
            list@ == self@,
            self.wf(),
    {
        proof {
            use_type_invariant(self);
            lemma_walk_holds(self.buffer@);
            lemma_holds_partitions(self.buffer@, self@);
            lemma_offset_ends(self@);
        }
        let ghost s = self@;
        let mut list: Vec<Block> = Vec::new();
        let mut at: usize = 0;
        while at < N
            invariant
                s == self@,
                holds(self.buffer@, s),
                partitions(s, N as int),
                list@.len() <= s.len(),
                list@ == s.take(list@.len() as int),
                at == header_offset(s, list@.len() as int),
                at <= N,
                at == N <==> list@.len() == s.len(),
            decreases N - at,
        {
            let ghost k = list@.len() as int;
            proof {
                lemma_holds_block(self.buffer@, s, k);
            }
            let b = load(&self.buffer, at);
            list.push(b);
            at = at + HEADER_SIZE + b.size;
            proof {
                assert(list@ =~= s.take(k + 1));
            }
        }
        proof {
            assert(s.take(s.len() as int) =~= s);
        }
        list
    }
}

} // verus!

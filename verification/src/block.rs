//! The block list as a mathematical object.
//!
//! The heap is a sequence of blocks laid out back to back. Each block is a
//! header of [`HEADER_SIZE`] bytes followed by its payload. Everything the
//! allocator promises is stated over `Seq<Block>`: where a block starts, which
//! block a request lands in, and what the list looks like afterwards.
use vstd::prelude::*;

verus! {

/// Bytes taken by the header that precedes every payload.
pub const HEADER_SIZE: usize = 4;

/// Whether a block is available or handed out.
#[derive(Clone, Copy, Debug, PartialEq, Eq, Structural)]
pub enum State {
    Free,
    Used,
}

/// One element of the block list: what its header records.
#[derive(Clone, Copy, Debug, PartialEq, Eq, Structural)]
pub struct Block {
    pub state: State,
    /// Payload length in bytes.
    pub size: usize,
}

impl Block {
    /// Bytes the block occupies, header included.
    pub open spec fn footprint(self) -> int {
        HEADER_SIZE + self.size
    }

    /// A block can serve a request of `need` bytes iff it is free and large enough.
    pub open spec fn fits(self, need: int) -> bool {
        self.state == State::Free && self.size >= need
    }
}

/// Total bytes occupied by the blocks of `s`.
#[verifier::opaque]
pub open spec fn span(s: Seq<Block>) -> int
    decreases s.len(),
{
    if s.len() == 0 {
        0
    } else {
        span(s.drop_last()) + s.last().footprint()
    }
}

/// Offset of the header of block `i`: the bytes of all blocks before it.
pub open spec fn header_offset(s: Seq<Block>, i: int) -> int {
    span(s.take(i))
}

/// Offset of the first payload byte of block `i`.
pub open spec fn payload_offset(s: Seq<Block>, i: int) -> int {
    header_offset(s, i) + HEADER_SIZE
}

/// `s` tiles a buffer of `n` bytes: the footprints add up to exactly `n`, and
/// every payload length is a multiple of the header size.
pub open spec fn partitions(s: Seq<Block>, n: int) -> bool {
    &&& span(s) == n
    &&& forall|i: int| 0 <= i < s.len() ==> (#[trigger] s[i]).size % 4 == 0
}

/// The list a fresh buffer of `n` bytes holds: one free block spanning it all.
pub open spec fn pristine(n: int) -> Seq<Block> {
    seq![Block { state: State::Free, size: (n - HEADER_SIZE) as usize }]
}

/// `n` rounded up to the next multiple of the header size.
pub open spec fn round_up(n: int) -> int {
    (n + 3) / 4 * 4
}

/// Index of the first block at or after `i` that fits `need`, if any.
pub open spec fn first_fit_from(s: Seq<Block>, need: int, i: int) -> Option<int>
    decreases s.len() - i,
{
    if i < 0 || i >= s.len() {
        None
    } else if s[i].fits(need) {
        Some(i)
    } else {
        first_fit_from(s, need, i + 1)
    }
}

/// Index of the first block that fits `need`, if any.
pub open spec fn first_fit(s: Seq<Block>, need: int) -> Option<int> {
    first_fit_from(s, need, 0)
}

/// `s` with the `count` blocks from index `i` on replaced by the blocks of `by`.
pub open spec fn splice(s: Seq<Block>, i: int, count: int, by: Seq<Block>) -> Seq<Block> {
    s.take(i) + by + s.skip(i + count)
}

/// The blocks that take the place of block `b` when it is handed out for
/// `need` bytes: if at least a header's worth is left over, a used block of
/// `need` bytes and a free one with the remainder; otherwise the whole block,
/// used.
pub open spec fn placed(b: Block, need: int) -> Seq<Block> {
    if b.size - need >= HEADER_SIZE {
        seq![
            Block { state: State::Used, size: need as usize },
            Block { state: State::Free, size: (b.size - need - HEADER_SIZE) as usize },
        ]
    } else {
        seq![Block { state: State::Used, size: b.size }]
    }
}

/// The list after block `i` has been handed out for `need` bytes.
pub open spec fn place(s: Seq<Block>, i: int, need: int) -> Seq<Block> {
    splice(s, i, 1, placed(s[i], need))
}

/// The payload of block `i` contains offset `p`.
pub open spec fn owns(s: Seq<Block>, i: int, p: int) -> bool {
    payload_offset(s, i) <= p < payload_offset(s, i) + s[i].size
}

/// Index of the first block at or after `i` whose payload contains `p`, if any.
pub open spec fn owner_from(s: Seq<Block>, p: int, i: int) -> Option<int>
    decreases s.len() - i,
{
    if i < 0 || i >= s.len() {
        None
    } else if owns(s, i, p) {
        Some(i)
    } else {
        owner_from(s, p, i + 1)
    }
}

/// Index of the block whose payload contains offset `p`, if any.
pub open spec fn owner(s: Seq<Block>, p: int) -> Option<int> {
    owner_from(s, p, 0)
}

/// How many blocks become one when block `i` is given back: the block
/// itself, and its right neighbour where that one is free.
pub open spec fn merged(s: Seq<Block>, i: int) -> int {
    if i + 1 < s.len() && s[i + 1].state == State::Free {
        2
    } else {
        1
    }
}

/// The block that stands in place of block `i` once it has been given back:
/// free, and as large as the blocks it is made of.
pub open spec fn released(s: Seq<Block>, i: int) -> Block {
    if merged(s, i) == 2 {
        Block { state: State::Free, size: (s[i].size + s[i + 1].footprint()) as usize }
    } else {
        Block { state: State::Free, size: s[i].size }
    }
}

/// The list after block `i` has been given back: it becomes free and swallows
/// its right neighbour if that one is free too. Nothing to its left changes.
pub open spec fn release(s: Seq<Block>, i: int) -> Seq<Block> {
    splice(s, i, merged(s, i), seq![released(s, i)])
}

/// The list after a request for `size` bytes: the first block that fits the
/// rounded size is placed; where none fits the list stays as it is.
pub open spec fn after_allocate(s: Seq<Block>, size: int) -> Seq<Block> {
    match first_fit(s, round_up(size)) {
        Some(i) => place(s, i, round_up(size)),
        None => s,
    }
}

/// The list after offset `p` has been given back: the used block whose payload
/// contains `p` is released; where there is none the list stays as it is.
pub open spec fn after_free(s: Seq<Block>, p: int) -> Seq<Block> {
    match owner(s, p) {
        Some(i) => if s[i].state == State::Used {
            release(s, i)
        } else {
            s
        },
        None => s,
    }
}

/// Number of used blocks in `s`.
#[verifier::opaque]
pub open spec fn used_count(s: Seq<Block>) -> int
    decreases s.len(),
{
    if s.len() == 0 {
        0
    } else {
        used_count(s.drop_last()) + if s.last().state == State::Used {
            1int
        } else {
            0int
        }
    }
}

/// Number of places where two free blocks sit side by side.
#[verifier::opaque]
pub open spec fn free_pairs(s: Seq<Block>) -> int
    decreases s.len(),
{
    if s.len() <= 1 {
        0
    } else {
        free_pairs(s.drop_last()) + if s[s.len() - 2].state == State::Free && s.last().state
            == State::Free {
            1int
        } else {
            0int
        }
    }
}

/// 1 if `a` ends in a free block and `b` begins with one, else 0: the pair of
/// free neighbours that putting `b` behind `a` creates.
pub open spec fn junction(a: Seq<Block>, b: Seq<Block>) -> int {
    if a.len() > 0 && b.len() > 0 && a.last().state == State::Free && b.first().state
        == State::Free {
        1
    } else {
        0
    }
}

/// The span of a concatenation is the sum of the spans.
pub proof fn lemma_span_concat(a: Seq<Block>, b: Seq<Block>)
    ensures
        span(a + b) == span(a) + span(b),
    decreases b.len(),
{
    reveal(span);
    if b.len() == 0 {
        assert(a + b =~= a);
    } else {
        assert((a + b).drop_last() =~= a + b.drop_last());
        assert((a + b).last() == b.last());
        lemma_span_concat(a, b.drop_last());
    }
}

/// The span of a one-block list is that block's footprint.
pub proof fn lemma_span_single(b: Block)
    ensures
        span(seq![b]) == b.footprint(),
{
    reveal(span);
    assert(seq![b].drop_last() =~= Seq::<Block>::empty());
    assert(span(seq![b].drop_last()) == 0);
}

/// The first block starts at offset 0, and the list ends where its span ends.
pub proof fn lemma_offset_ends(s: Seq<Block>)
    ensures
        header_offset(s, 0) == 0,
        header_offset(s, s.len() as int) == span(s),
{
    reveal(span);
    assert(s.take(s.len() as int) =~= s);
    assert(s.take(0) =~= Seq::<Block>::empty());
}

/// Each block starts where the previous one ends.
pub proof fn lemma_next_offset(s: Seq<Block>, i: int)
    requires
        0 <= i < s.len(),
    ensures
        header_offset(s, i + 1) == header_offset(s, i) + s[i].footprint(),
        header_offset(s, 0) == 0,
        header_offset(s, s.len() as int) == span(s),
{
    reveal(span);
    lemma_offset_ends(s);
    assert(s.take(i + 1).drop_last() =~= s.take(i));
    assert(s.take(i + 1).last() == s[i]);
}

/// Blocks never share a byte: a block ends at or before the start of every
/// later block. In particular no two blocks start at the same offset, however
/// small their payloads are.
pub proof fn lemma_offsets_increase(s: Seq<Block>, i: int, j: int)
    requires
        0 <= i < j <= s.len(),
    ensures
        header_offset(s, i) + s[i].footprint() <= header_offset(s, j),
    decreases j - i,
{
    lemma_next_offset(s, i);
    if i + 1 < j {
        lemma_offsets_increase(s, i + 1, j);
        lemma_next_offset(s, i + 1);
    }
}

/// Every block of a list that tiles `n` bytes lies inside those `n` bytes.
pub proof fn lemma_block_in_bounds(s: Seq<Block>, n: int, i: int)
    requires
        span(s) == n,
        0 <= i < s.len(),
    ensures
        0 <= header_offset(s, i),
        header_offset(s, i) + s[i].footprint() <= n,
{
    lemma_offsets_increase(s, i, s.len() as int);
    lemma_next_offset(s, i);
    lemma_span_nonnegative(s.take(i));
}

/// In a list whose payload lengths are multiples of the header size, every
/// block starts at a multiple of the header size.
pub proof fn lemma_offsets_aligned(s: Seq<Block>, i: int)
    requires
        forall|j: int| 0 <= j < s.len() ==> (#[trigger] s[j]).size % 4 == 0,
        0 <= i <= s.len(),
    ensures
        header_offset(s, i) % 4 == 0,
        header_offset(s, i) >= 0,
    decreases i,
{
    if i == 0 {
        lemma_offset_ends(s);
    } else {
        lemma_offsets_aligned(s, i - 1);
        lemma_next_offset(s, i - 1);
    }
}

/// A span is never negative.
pub proof fn lemma_span_nonnegative(s: Seq<Block>)
    ensures
        span(s) >= 0,
    decreases s.len(),
{
    reveal(span);
    if s.len() > 0 {
        lemma_span_nonnegative(s.drop_last());
    }
}

/// What `first_fit_from` returns: the least index from `from` on whose block
/// fits, or nothing when no block from `from` on fits.
pub proof fn lemma_first_fit_from(s: Seq<Block>, need: int, from: int)
    requires
        0 <= from,
    ensures
        match first_fit_from(s, need, from) {
            Some(i) => {
                &&& from <= i < s.len()
                &&& s[i].fits(need)
                &&& forall|j: int| from <= j < i ==> !(#[trigger] s[j]).fits(need)
            },
            None => forall|j: int| from <= j < s.len() ==> !(#[trigger] s[j]).fits(need),
        },
    decreases s.len() - from,
{
    if from < s.len() && !s[from].fits(need) {
        lemma_first_fit_from(s, need, from + 1);
    }
}

/// `first_fit` is the least index whose block fits, and nothing exactly when no
/// block fits.
pub proof fn lemma_first_fit(s: Seq<Block>, need: int)
    ensures
        match first_fit(s, need) {
            Some(i) => {
                &&& 0 <= i < s.len()
                &&& s[i].fits(need)
                &&& forall|j: int| 0 <= j < i ==> !(#[trigger] s[j]).fits(need)
            },
            None => forall|j: int| 0 <= j < s.len() ==> !(#[trigger] s[j]).fits(need),
        },
{
    lemma_first_fit_from(s, need, 0);
}

/// What `owner_from` returns: the least index from `from` on whose payload
/// contains `p`, or nothing when no payload from `from` on contains it.
pub proof fn lemma_owner_from(s: Seq<Block>, p: int, from: int)
    requires
        0 <= from,
    ensures
        match owner_from(s, p, from) {
            Some(i) => {
                &&& from <= i < s.len()
                &&& owns(s, i, p)
                &&& forall|j: int| from <= j < i ==> !owns(s, j, p)
            },
            None => forall|j: int| from <= j < s.len() ==> !owns(s, j, p),
        },
    decreases s.len() - from,
{
    if from < s.len() && !owns(s, from, p) {
        lemma_owner_from(s, p, from + 1);
    }
}

/// At most one payload contains a given offset, so `owner` names the block
/// that owns `p` whenever there is one.
pub proof fn lemma_owner(s: Seq<Block>, p: int, i: int)
    requires
        0 <= i < s.len(),
        owns(s, i, p),
    ensures
        owner(s, p) == Some(i),
{
    lemma_owner_from(s, p, 0);
    let j = owner(s, p)->Some_0;
    if j < i {
        lemma_offsets_increase(s, j, i);
    }
}

/// Only offsets behind the first header and before the end of the buffer lie
/// in a payload.
pub proof fn lemma_owner_bounds(s: Seq<Block>, n: int, p: int)
    requires
        span(s) == n,
        p < HEADER_SIZE || p >= n,
    ensures
        owner(s, p) is None,
{
    lemma_owner_from(s, p, 0);
    if owner(s, p) is Some {
        let i = owner(s, p)->Some_0;
        lemma_block_in_bounds(s, n, i);
    }
}

/// Every block of a list that tiles `n` bytes has a payload of at most
/// `n - HEADER_SIZE` bytes, so a larger request fits nowhere.
pub proof fn lemma_too_large(s: Seq<Block>, n: int, need: int)
    requires
        span(s) == n,
        need > n - HEADER_SIZE,
    ensures
        first_fit(s, need) is None,
{
    lemma_first_fit(s, need);
    if first_fit(s, need) is Some {
        lemma_block_in_bounds(s, n, first_fit(s, need)->Some_0);
    }
}

/// Where the blocks of a spliced list start. Replacing `count` blocks by
/// blocks that fill the same bytes moves no other block: those before keep
/// their offsets, the new ones follow from the offset of block `i`, and those
/// behind stay where they were.
pub proof fn lemma_splice_offsets(s: Seq<Block>, i: int, count: int, by: Seq<Block>, x: int)
    requires
        0 <= i,
        0 <= count,
        i + count <= s.len(),
        span(by) == span(s.subrange(i, i + count)),
        0 <= x <= splice(s, i, count, by).len(),
    ensures
        splice(s, i, count, by).len() == s.len() - count + by.len(),
        span(splice(s, i, count, by)) == span(s),
        x <= i ==> header_offset(splice(s, i, count, by), x) == header_offset(s, x),
        i <= x <= i + by.len() ==> header_offset(splice(s, i, count, by), x) == header_offset(s, i)
            + header_offset(by, x - i),
        i + by.len() <= x ==> header_offset(splice(s, i, count, by), x) == header_offset(
            s,
            x - by.len() + count,
        ),
{
    let t = splice(s, i, count, by);
    let head = s.take(i);
    let mid = s.subrange(i, i + count);
    let tail = s.skip(i + count);
    assert(s =~= head + mid + tail);
    lemma_span_concat(head, mid);
    lemma_span_concat(head + mid, tail);
    lemma_span_concat(head, by);
    lemma_span_concat(head + by, tail);
    if x <= i {
        assert(t.take(x) =~= s.take(x));
    }
    if i <= x <= i + by.len() {
        assert(t.take(x) =~= head + by.take(x - i));
        lemma_span_concat(head, by.take(x - i));
    }
    if i + by.len() <= x {
        let y = x - by.len() + count;
        let part = s.subrange(i + count, y);
        assert(t.take(x) =~= head + by + part);
        assert(s.take(y) =~= head + mid + part);
        lemma_span_concat(head + by, part);
        lemma_span_concat(head + mid, part);
    }
}

/// The used blocks of a concatenation are those of its parts.
pub proof fn lemma_used_count_concat(a: Seq<Block>, b: Seq<Block>)
    ensures
        used_count(a + b) == used_count(a) + used_count(b),
    decreases b.len(),
{
    reveal(used_count);
    if b.len() == 0 {
        assert(a + b =~= a);
    } else {
        assert((a + b).drop_last() =~= a + b.drop_last());
        assert((a + b).last() == b.last());
        lemma_used_count_concat(a, b.drop_last());
    }
}

/// Used blocks in lists of no, one and two blocks.
pub proof fn lemma_used_count_small(x: Block, y: Block)
    ensures
        used_count(Seq::<Block>::empty()) == 0,
        used_count(seq![x]) == if x.state == State::Used { 1int } else { 0int },
        used_count(seq![x, y]) == used_count(seq![x]) + used_count(seq![y]),
{
    reveal(used_count);
    assert(used_count(Seq::<Block>::empty()) == 0);
    assert(seq![x].drop_last() =~= Seq::<Block>::empty());
    assert(seq![y].drop_last() =~= Seq::<Block>::empty());
    assert(seq![x, y].drop_last() =~= seq![x]);
    assert(seq![x, y].last() == y);
}

/// The pairs of free neighbours in a concatenation are those of its parts and
/// the one where they meet.
pub proof fn lemma_free_pairs_concat(a: Seq<Block>, b: Seq<Block>)
    ensures
        free_pairs(a + b) == free_pairs(a) + free_pairs(b) + junction(a, b),
    decreases b.len(),
{
    reveal(free_pairs);
    if b.len() == 0 {
        assert(a + b =~= a);
    } else if b.len() == 1 {
        assert((a + b).drop_last() =~= a);
        assert((a + b).last() == b.last());
        if a.len() > 0 {
            assert((a + b)[(a + b).len() - 2] == a.last());
        }
    } else {
        assert((a + b).drop_last() =~= a + b.drop_last());
        assert((a + b).last() == b.last());
        assert((a + b)[(a + b).len() - 2] == b[b.len() - 2]);
        lemma_free_pairs_concat(a, b.drop_last());
    }
}

/// Pairs of free neighbours in lists of no, one and two blocks.
pub proof fn lemma_free_pairs_small(x: Block, y: Block)
    ensures
        free_pairs(Seq::<Block>::empty()) == 0,
        free_pairs(seq![x]) == 0,
        free_pairs(seq![x, y]) == if x.state == State::Free && y.state == State::Free {
            1int
        } else {
            0int
        },
{
    reveal(free_pairs);
    assert(free_pairs(seq![x]) == 0);
    assert(seq![x, y].drop_last() =~= seq![x]);
}

/// A list without used blocks is made of free blocks only, so each block but
/// the first forms a pair with the one before it.
pub proof fn lemma_all_free(s: Seq<Block>)
    requires
        used_count(s) == 0,
    ensures
        forall|i: int| 0 <= i < s.len() ==> (#[trigger] s[i]).state == State::Free,
        s.len() > 0 ==> free_pairs(s) == s.len() - 1,
    decreases s.len(),
{
    reveal(used_count);
    reveal(free_pairs);
    if s.len() > 0 {
        lemma_used_count_nonnegative(s.drop_last());
        lemma_all_free(s.drop_last());
        assert forall|i: int| 0 <= i < s.len() implies (#[trigger] s[i]).state
            == State::Free by {
            if i < s.len() - 1 {
                assert(s.drop_last()[i] == s[i]);
            }
        }
        if s.len() > 1 {
            assert(s.drop_last()[s.len() - 2] == s[s.len() - 2]);
        }
    }
}

/// A count of pairs is never negative.
pub proof fn lemma_free_pairs_nonnegative(s: Seq<Block>)
    ensures
        0 <= free_pairs(s),
    decreases s.len(),
{
    reveal(free_pairs);
    if s.len() > 1 {
        lemma_free_pairs_nonnegative(s.drop_last());
    }
}

/// A count of blocks is never negative.
pub proof fn lemma_used_count_nonnegative(s: Seq<Block>)
    ensures
        0 <= used_count(s) <= s.len(),
    decreases s.len(),
{
    reveal(used_count);
    if s.len() > 0 {
        lemma_used_count_nonnegative(s.drop_last());
    }
}

} // verus!

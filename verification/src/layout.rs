//! How the block list is kept inside the buffer itself.
//!
//! Every block starts with a header: one 32-bit word, stored little-endian.
//! The top bit says whether the block is used, the low 31 bits hold the payload
//! length. There are no links: the next header sits right behind the payload,
//! so the list is read by walking from offset 0.
use crate::block::{
    header_offset, lemma_block_in_bounds, lemma_next_offset, lemma_offset_ends,
    lemma_offsets_increase, lemma_span_concat, lemma_span_nonnegative, lemma_span_single,
    lemma_splice_offsets, partitions, payload_offset, place, pristine, span, splice, Block, State,
    HEADER_SIZE,
};
use vstd::prelude::*;

verus! {

/// Header bit that marks a block as used.
pub const USED_BIT: u32 = 0x8000_0000;

/// The largest payload length a header can record, plus one.
pub const SIZE_LIMIT: usize = 0x8000_0000;

/// The smallest buffer that can serve an allocation: one header and one
/// payload of the smallest size.
pub const MIN_BUFFER_SIZE: usize = 8;

/// Buffer sizes that an allocator can have: room for one header and one
/// payload, a multiple of the header size, and small enough for a header to
/// record any payload length that occurs.
pub open spec fn valid_size(n: int) -> bool {
    MIN_BUFFER_SIZE <= n <= SIZE_LIMIT && n % 4 == 0
}

/// The 32-bit word stored little-endian in the four bytes at `at`.
pub open spec fn word_at(buf: Seq<u8>, at: int) -> int {
    buf[at] + 0x100 * buf[at + 1] + 0x1_0000 * buf[at + 2] + 0x100_0000 * buf[at + 3]
}

/// The header word that records `b`.
pub open spec fn encode(b: Block) -> int {
    b.size + if b.state == State::Used {
        USED_BIT as int
    } else {
        0
    }
}

/// The block that a header word records.
pub open spec fn decode(word: int) -> Block {
    if word >= USED_BIT {
        Block { state: State::Used, size: (word - USED_BIT) as usize }
    } else {
        Block { state: State::Free, size: word as usize }
    }
}

/// The block recorded by the header at offset `at`.
#[verifier::opaque]
pub open spec fn block_at(buf: Seq<u8>, at: int) -> Block {
    decode(word_at(buf, at))
}

/// Byte `k` of a 32-bit word, counted from the least significant one.
#[verifier::opaque]
pub open spec fn byte_of(word: int, k: int) -> int {
    if k == 0 {
        word % 0x100
    } else if k == 1 {
        word / 0x100 % 0x100
    } else if k == 2 {
        word / 0x1_0000 % 0x100
    } else {
        word / 0x100_0000 % 0x100
    }
}

/// The buffer after the header of `b` has been written at offset `at`.
#[verifier::opaque]
pub open spec fn stored(buf: Seq<u8>, at: int, b: Block) -> Seq<u8> {
    let word = encode(b);
    buf.update(at, byte_of(word, 0) as u8).update(at + 1, byte_of(word, 1) as u8).update(
        at + 2,
        byte_of(word, 2) as u8,
    ).update(at + 3, byte_of(word, 3) as u8)
}

/// The buffer can be walked from `at` to its very end: each header met on the
/// way records a payload length that is a multiple of the header size, and the
/// last block ends exactly where the buffer ends.
pub open spec fn walkable(buf: Seq<u8>, at: int) -> bool
    decreases buf.len() - at,
{
    if at == buf.len() {
        true
    } else if 0 <= at && at + HEADER_SIZE <= buf.len() {
        let b = block_at(buf, at);
        b.size % 4 == 0 && at + b.footprint() <= buf.len() && walkable(buf, at + b.footprint())
    } else {
        false
    }
}

/// The blocks met when walking the buffer from offset `at`.
pub open spec fn walk(buf: Seq<u8>, at: int) -> Seq<Block>
    decreases buf.len() - at,
{
    if 0 <= at && at + block_at(buf, at).footprint() <= buf.len() {
        let b = block_at(buf, at);
        seq![b].add(walk(buf, at + b.footprint()))
    } else {
        Seq::empty()
    }
}

/// The buffer holds exactly the list `s`: the header of every block of `s`
/// stands at that block's offset, the payload lengths are multiples of the
/// header size, and the blocks fill the buffer.
#[verifier::opaque]
pub open spec fn holds(buf: Seq<u8>, s: Seq<Block>) -> bool {
    &&& span(s) == buf.len()
    &&& forall|i: int|
        0 <= i < s.len() ==> {
            &&& (#[trigger] s[i]).size % 4 == 0
            &&& block_at(buf, header_offset(s, i)) == s[i]
        }
}

/// Reads the header at offset `at`.
pub fn load<const N: usize>(buf: &[u8; N], at: usize) -> (b: Block)
    requires
        at + HEADER_SIZE <= N,
    ensures
        b == block_at(buf@, at as int),
{
    proof {
        reveal(block_at);
    }
    let b0: u32 = buf[at] as u32;
    let b1: u32 = buf[at + 1] as u32;
    let b2: u32 = buf[at + 2] as u32;
    let b3: u32 = buf[at + 3] as u32;
    let word: u32 = b0 + 0x100 * b1 + 0x1_0000 * b2 + 0x100_0000 * b3;
    if word >= USED_BIT {
        Block { state: State::Used, size: (word - USED_BIT) as usize }
    } else {
        Block { state: State::Free, size: word as usize }
    }
}

/// Writes the header of `b` at offset `at`.
pub fn store<const N: usize>(buf: &mut [u8; N], at: usize, b: Block)
    requires
        at + HEADER_SIZE <= N,
        b.size < SIZE_LIMIT,
    ensures
        final(buf)@ == stored(old(buf)@, at as int, b),
    no_unwind
{
    proof {
        reveal(stored);
        reveal(byte_of);
    }
    let word: u32 = match b.state {
        State::Used => b.size as u32 + USED_BIT,
        State::Free => b.size as u32,
    };
    buf[at] = (word % 0x100) as u8;
    buf[at + 1] = (word / 0x100 % 0x100) as u8;
    buf[at + 2] = (word / 0x1_0000 % 0x100) as u8;
    buf[at + 3] = (word / 0x100_0000 % 0x100) as u8;
}

/// The four bytes of a 32-bit word are bytes, and make up the word.
pub proof fn lemma_bytes_of(word: int)
    requires
        0 <= word < 0x1_0000_0000,
    ensures
        forall|k: int| 0 <= #[trigger] byte_of(word, k) < 0x100,
        word == byte_of(word, 0) + 0x100 * byte_of(word, 1) + 0x1_0000 * byte_of(word, 2)
            + 0x100_0000 * byte_of(word, 3),
{
    reveal(byte_of);
}

/// A header that was written is read back unchanged, and a write touches no
/// other header: one that lies wholly before or wholly behind the four bytes
/// written reads as it did.
pub proof fn lemma_stored(buf: Seq<u8>, at: int, b: Block)
    requires
        0 <= at,
        at + HEADER_SIZE <= buf.len(),
        b.size < SIZE_LIMIT,
    ensures
        stored(buf, at, b).len() == buf.len(),
        block_at(stored(buf, at, b), at) == b,
        forall|q: int|
            0 <= q && q + HEADER_SIZE <= buf.len() && (q + HEADER_SIZE <= at || at + HEADER_SIZE
                <= q) ==> #[trigger] block_at(stored(buf, at, b), q) == block_at(buf, q),
{
    reveal(stored);
    reveal(block_at);
    let after = stored(buf, at, b);
    let word = encode(b);
    lemma_bytes_of(word);
    assert(after[at] == byte_of(word, 0));
    assert(after[at + 1] == byte_of(word, 1));
    assert(after[at + 2] == byte_of(word, 2));
    assert(after[at + 3] == byte_of(word, 3));
    assert(word_at(after, at) == word);
    assert forall|q: int|
        0 <= q && q + HEADER_SIZE <= buf.len() && (q + HEADER_SIZE <= at || at + HEADER_SIZE
            <= q) implies #[trigger] block_at(after, q) == block_at(buf, q) by {
        assert(after[q] == buf[q]);
        assert(after[q + 1] == buf[q + 1]);
        assert(after[q + 2] == buf[q + 2]);
        assert(after[q + 3] == buf[q + 3]);
    }
}

/// A buffer that can be walked from the start holds the list that the walk
/// yields from offset `header_offset(s, k)` on, for every `k`.
pub proof fn lemma_walk_from(buf: Seq<u8>, k: int)
    requires
        walkable(buf, 0),
        0 <= k <= walk(buf, 0).len(),
    ensures
        0 <= header_offset(walk(buf, 0), k) <= buf.len(),
        walkable(buf, header_offset(walk(buf, 0), k)),
        walk(buf, header_offset(walk(buf, 0), k)) == walk(buf, 0).skip(k),
        k == walk(buf, 0).len() <==> header_offset(walk(buf, 0), k) == buf.len(),
    decreases k,
{
    let s = walk(buf, 0);
    lemma_offset_ends(s);
    if k == 0 {
        assert(s.skip(0) =~= s);
        if buf.len() != 0 {
            let b = block_at(buf, 0);
            assert(walk(buf, 0) == seq![b].add(walk(buf, b.footprint())));
        }
    } else {
        lemma_walk_from(buf, k - 1);
        let at = header_offset(s, k - 1);
        lemma_next_offset(s, k - 1);
        assert(at != buf.len());
        let b = block_at(buf, at);
        assert(walk(buf, at) == seq![b].add(walk(buf, at + b.footprint())));
        assert(s.skip(k - 1)[0] == s[k - 1]);
        assert(s[k - 1] == b);
        assert(s.skip(k) =~= s.skip(k - 1).skip(1));
        assert(walk(buf, at).skip(1) =~= walk(buf, at + b.footprint()));
        let next = at + b.footprint();
        assert(walkable(buf, next));
        if next != buf.len() {
            let after = block_at(buf, next);
            assert(walk(buf, next) == seq![after].add(walk(buf, next + after.footprint())));
            assert(walk(buf, next).len() > 0);
        } else {
            assert(walk(buf, next).len() == 0);
        }
    }
}

/// A buffer that can be walked from the start holds the list that the walk
/// yields.
pub proof fn lemma_walk_holds(buf: Seq<u8>)
    requires
        walkable(buf, 0),
    ensures
        holds(buf, walk(buf, 0)),
{
    reveal(holds);
    let s = walk(buf, 0);
    lemma_walk_from(buf, s.len() as int);
    lemma_offset_ends(s);
    assert forall|i: int| 0 <= i < s.len() implies (#[trigger] s[i]).size % 4 == 0 && block_at(
        buf,
        header_offset(s, i),
    ) == s[i] by {
        lemma_walk_from(buf, i);
        let at = header_offset(s, i);
        assert(walk(buf, at)[0] == s.skip(i)[0]);
    }
}

/// Walking from the header of block `k` of a list that the buffer holds
/// succeeds and yields the blocks from `k` on.
pub proof fn lemma_holds_from(buf: Seq<u8>, s: Seq<Block>, k: int)
    requires
        holds(buf, s),
        0 <= k <= s.len(),
    ensures
        walkable(buf, header_offset(s, k)),
        walk(buf, header_offset(s, k)) == s.skip(k),
    decreases s.len() - k,
{
    reveal(holds);
    let at = header_offset(s, k);
    lemma_span_nonnegative(s.take(k));
    lemma_offset_ends(s);
    if k == s.len() {
        assert(s.skip(k) =~= Seq::<Block>::empty());
    } else {
        lemma_next_offset(s, k);
        lemma_block_in_bounds(s, buf.len() as int, k);
        lemma_holds_from(buf, s, k + 1);
        assert(block_at(buf, at) == s[k]);
        assert(s.skip(k) =~= seq![s[k]].add(s.skip(k + 1)));
    }
}

/// A buffer holds at most one list: the one that walking it yields.
pub proof fn lemma_holds_walk(buf: Seq<u8>, s: Seq<Block>)
    requires
        holds(buf, s),
    ensures
        walkable(buf, 0),
        walk(buf, 0) == s,
{
    lemma_holds_from(buf, s, 0);
    lemma_offset_ends(s);
    assert(s.skip(0) =~= s);
}

/// Rewriting a stretch of the list in place. If `after` differs from `before`
/// only between the header of block `i` and the header of block `i + count`,
/// and there holds the headers of the blocks of `by`, which fill the same
/// bytes, then `after` holds the list with those `count` blocks replaced by `by`.
pub proof fn lemma_splice_holds(
    before: Seq<u8>,
    after: Seq<u8>,
    s: Seq<Block>,
    i: int,
    count: int,
    by: Seq<Block>,
)
    requires
        holds(before, s),
        0 <= i,
        0 <= count,
        i + count <= s.len(),
        after.len() == before.len(),
        span(by) == span(s.subrange(i, i + count)),
        forall|q: int|
            0 <= q && q + HEADER_SIZE <= before.len() && (q + HEADER_SIZE <= header_offset(s, i)
                || header_offset(s, i + count) <= q) ==> #[trigger] block_at(after, q)
                == block_at(before, q),
        forall|j: int|
            0 <= j < by.len() ==> {
                &&& (#[trigger] by[j]).size % 4 == 0
                &&& block_at(after, header_offset(s, i) + header_offset(by, j)) == by[j]
            },
    ensures
        holds(after, splice(s, i, count, by)),
{
    reveal(holds);
    let t = splice(s, i, count, by);
    let n = before.len() as int;
    lemma_splice_offsets(s, i, count, by, 0);
    assert forall|x: int| 0 <= x < t.len() implies (#[trigger] t[x]).size % 4 == 0 && block_at(
        after,
        header_offset(t, x),
    ) == t[x] by {
        lemma_splice_offsets(s, i, count, by, x);
        if x < i {
            assert(t[x] == s[x]);
            lemma_offsets_increase(s, x, i);
            lemma_block_in_bounds(s, n, x);
        } else if x < i + by.len() {
            assert(t[x] == by[x - i]);
        } else {
            let y = x - by.len() + count;
            assert(t[x] == s[y]);
            if i + count < y {
                lemma_offsets_increase(s, i + count, y);
                lemma_next_offset(s, i + count);
            }
            lemma_block_in_bounds(s, n, y);
        }
    }
}

/// What a buffer that holds `s` says about block `k`: its header stands at
/// its offset, and the block lies inside the buffer.
pub proof fn lemma_holds_block(buf: Seq<u8>, s: Seq<Block>, k: int)
    requires
        holds(buf, s),
        0 <= k < s.len(),
    ensures
        span(s) == buf.len(),
        0 <= header_offset(s, k),
        header_offset(s, k) + s[k].footprint() == header_offset(s, k + 1),
        header_offset(s, k + 1) <= buf.len(),
        k + 1 == s.len() <==> header_offset(s, k + 1) == buf.len(),
        block_at(buf, header_offset(s, k)) == s[k],
        s[k].size % 4 == 0,
{
    reveal(holds);
    lemma_next_offset(s, k);
    lemma_block_in_bounds(s, buf.len() as int, k);
    lemma_offset_ends(s);
    if k + 1 < s.len() {
        lemma_block_in_bounds(s, buf.len() as int, k + 1);
    }
}

/// A buffer that holds a list is tiled by it.
pub proof fn lemma_holds_partitions(buf: Seq<u8>, s: Seq<Block>)
    requires
        holds(buf, s),
    ensures
        partitions(s, buf.len() as int),
{
    reveal(holds);
}

/// A fresh buffer: writing the header of one free block that spans the whole
/// buffer at offset 0 makes the buffer hold the pristine list.
pub proof fn lemma_fresh(blank: Seq<u8>)
    requires
        HEADER_SIZE <= blank.len() <= SIZE_LIMIT,
        blank.len() % 4 == 0,
    ensures
        holds(
            stored(
                blank,
                0,
                Block { state: State::Free, size: (blank.len() - HEADER_SIZE) as usize },
            ),
            pristine(blank.len() as int),
        ),
{
    reveal(holds);
    let whole = Block { state: State::Free, size: (blank.len() - HEADER_SIZE) as usize };
    let s = pristine(blank.len() as int);
    lemma_stored(blank, 0, whole);
    lemma_span_single(whole);
    lemma_offset_ends(s);
}

/// A header written wholly inside the payload of block `k` changes no header
/// of the list: the buffer still holds `s`.
pub proof fn lemma_payload_write(before: Seq<u8>, s: Seq<Block>, k: int, at: int, b: Block)
    requires
        holds(before, s),
        0 <= k < s.len(),
        b.size < SIZE_LIMIT,
        payload_offset(s, k) <= at,
        at + HEADER_SIZE <= header_offset(s, k + 1),
    ensures
        holds(stored(before, at, b), s),
{
    lemma_holds_block(before, s, k);
    lemma_stored(before, at, b);
    reveal(holds);
    let after = stored(before, at, b);
    assert forall|x: int| 0 <= x < s.len() implies block_at(after, header_offset(s, x))
        == #[trigger] s[x] by {
        lemma_block_in_bounds(s, before.len() as int, x);
        if x < k {
            lemma_offsets_increase(s, x, k);
        } else if x > k {
            if k + 1 < x {
                lemma_offsets_increase(s, k + 1, x);
                lemma_next_offset(s, k + 1);
            }
        }
    }
}

/// Cutting block `k` in two. With the header of the free remainder written
/// behind the first `need` payload bytes, and then the header of the used
/// part written over the block's own, the buffer holds the list with block
/// `k` placed.
pub proof fn lemma_cut(before: Seq<u8>, s: Seq<Block>, k: int, need: int)
    requires
        holds(before, s),
        before.len() <= SIZE_LIMIT,
        0 <= k < s.len(),
        0 <= need,
        need % 4 == 0,
        s[k].size - need >= HEADER_SIZE,
    ensures
        ({
            let at = header_offset(s, k);
            let taken = Block { state: State::Used, size: need as usize };
            let left = Block {
                state: State::Free,
                size: (s[k].size - need - HEADER_SIZE) as usize,
            };
            let between = stored(before, at + HEADER_SIZE + need, left);
            holds(stored(between, at, taken), place(s, k, need))
        }),
{
    let at = header_offset(s, k);
    let taken = Block { state: State::Used, size: need as usize };
    let left = Block { state: State::Free, size: (s[k].size - need - HEADER_SIZE) as usize };
    let between = stored(before, at + HEADER_SIZE + need, left);
    let after = stored(between, at, taken);
    let by = seq![taken, left];
    lemma_holds_block(before, s, k);
    lemma_stored(before, at + HEADER_SIZE + need, left);
    lemma_stored(between, at, taken);
    assert(s.subrange(k, k + 1) =~= seq![s[k]]);
    lemma_span_single(s[k]);
    lemma_span_single(taken);
    lemma_span_single(left);
    lemma_span_concat(seq![taken], seq![left]);
    assert(by =~= seq![taken] + seq![left]);
    lemma_offset_ends(by);
    lemma_next_offset(by, 0);
    assert forall|j: int| 0 <= j < by.len() implies (#[trigger] by[j]).size % 4 == 0 && block_at(
        after,
        at + header_offset(by, j),
    ) == by[j] by {
        if j == 0 {
            assert(block_at(after, at) == taken);
        } else {
            assert(block_at(between, at + HEADER_SIZE + need) == left);
            assert(block_at(after, at + HEADER_SIZE + need) == block_at(
                between,
                at + HEADER_SIZE + need,
            ));
        }
    }
    assert forall|q: int|
        0 <= q && q + HEADER_SIZE <= before.len() && (q + HEADER_SIZE <= header_offset(s, k)
            || header_offset(s, k + 1) <= q) implies #[trigger] block_at(after, q) == block_at(
        before,
        q,
    ) by {
        assert(block_at(after, q) == block_at(between, q));
        assert(block_at(between, q) == block_at(before, q));
    }
    lemma_splice_holds(before, after, s, k, 1, by);
}

/// Rewriting the header of block `k` so that it covers the same bytes, or
/// those of block `k` and its right neighbour together, makes the buffer hold
/// the list with those blocks replaced by the one written.
pub proof fn lemma_rewrite(before: Seq<u8>, s: Seq<Block>, k: int, count: int, b: Block)
    requires
        holds(before, s),
        before.len() <= SIZE_LIMIT,
        0 <= k < s.len(),
        b.size % 4 == 0,
        count == 1 && b.size == s[k].size || count == 2 && k + 1 < s.len() && b.size
            == s[k].size + s[k + 1].footprint(),
    ensures
        holds(stored(before, header_offset(s, k), b), splice(s, k, count, seq![b])),
{
    let at = header_offset(s, k);
    let after = stored(before, at, b);
    let by = seq![b];
    lemma_holds_block(before, s, k);
    lemma_span_single(b);
    lemma_span_single(s[k]);
    lemma_offset_ends(by);
    if count == 2 {
        lemma_holds_block(before, s, k + 1);
        assert(s.subrange(k, k + 2) =~= seq![s[k]] + seq![s[k + 1]]);
        lemma_span_concat(seq![s[k]], seq![s[k + 1]]);
        lemma_span_single(s[k + 1]);
    } else {
        assert(s.subrange(k, k + 1) =~= seq![s[k]]);
    }
    lemma_stored(before, at, b);
    lemma_splice_holds(before, after, s, k, count, by);
}

} // verus!

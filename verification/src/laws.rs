//! What holds of the block list whatever is asked of the allocator.
//!
//! The allocator's operations are stated over the block list: an allocation
//! turns the list `s` into `after_allocate(s, size)`, a deallocation turns it
//! into `after_free(s, offset)`. The lemmas here are about those two
//! functions, and about lists reached from a fresh buffer by any sequence of
//! them.
use crate::align::{align_up, lemma_align_up, lemma_pow2_and_header, raw_request};
use crate::block::{
    after_allocate, after_free, first_fit, free_pairs, header_offset, junction,
    lemma_block_in_bounds, lemma_first_fit, lemma_free_pairs_concat, lemma_free_pairs_small,
    lemma_next_offset, lemma_offsets_increase, lemma_owner, lemma_owner_from, lemma_span_single,
    lemma_splice_offsets, lemma_used_count_concat, lemma_used_count_small, merged, owner, owns,
    partitions, payload_offset, place, placed, pristine, release, released, round_up, span, splice,
    used_count, Block, State, HEADER_SIZE,
};
use crate::layout::{valid_size, SIZE_LIMIT};
use vstd::arithmetic::power2::is_pow2;
use vstd::prelude::*;

verus! {

/// Placing and releasing keep the bytes covered: what is put into the list
/// spans what is taken out.
pub proof fn lemma_as_splice(s: Seq<Block>, n: int, i: int, need: int)
    requires
        partitions(s, n),
        n <= SIZE_LIMIT,
        0 <= i < s.len(),
    ensures
        0 <= need <= s[i].size ==> span(placed(s[i], need)) == span(s.subrange(i, i + 1)),
        span(seq![released(s, i)]) == span(s.subrange(i, i + merged(s, i))),
{
    lemma_block_in_bounds(s, n, i);
    assert(s.subrange(i, i + 1) =~= seq![s[i]]);
    lemma_span_single(s[i]);
    lemma_span_single(released(s, i));
    if 0 <= need <= s[i].size {
        let by = placed(s[i], need);
        if s[i].size - need >= HEADER_SIZE {
            assert(by =~= seq![by[0]] + seq![by[1]]);
            crate::block::lemma_span_concat(seq![by[0]], seq![by[1]]);
            lemma_span_single(by[0]);
            lemma_span_single(by[1]);
        } else {
            lemma_span_single(by[0]);
        }
    }
    if merged(s, i) == 2 {
        lemma_block_in_bounds(s, n, i + 1);
        assert(s.subrange(i, i + 2) =~= seq![s[i]] + seq![s[i + 1]]);
        crate::block::lemma_span_concat(seq![s[i]], seq![s[i + 1]]);
        lemma_span_single(s[i + 1]);
    }
}

/// Placing a block that fits keeps the list a tiling of the buffer.
pub proof fn lemma_place_partitions(s: Seq<Block>, n: int, i: int, need: int)
    requires
        partitions(s, n),
        n <= SIZE_LIMIT,
        0 <= i < s.len(),
        s[i].fits(need),
        0 <= need,
        need % 4 == 0,
    ensures
        partitions(place(s, i, need), n),
{
    lemma_as_splice(s, n, i, need);
    let by = placed(s[i], need);
    lemma_splice_offsets(s, i, 1, by, 0);
    let t = place(s, i, need);
    assert forall|x: int| 0 <= x < t.len() implies (#[trigger] t[x]).size % 4 == 0 by {
        if x < i {
            assert(t[x] == s[x]);
        } else if x < i + by.len() {
            assert(t[x] == by[x - i]);
        } else {
            assert(t[x] == s[x - by.len() + 1]);
        }
    }
}

/// Releasing a block keeps the list a tiling of the buffer.
pub proof fn lemma_release_partitions(s: Seq<Block>, n: int, i: int)
    requires
        partitions(s, n),
        n <= SIZE_LIMIT,
        0 <= i < s.len(),
    ensures
        partitions(release(s, i), n),
{
    lemma_as_splice(s, n, i, 0);
    let by = seq![released(s, i)];
    let count = merged(s, i);
    lemma_splice_offsets(s, i, count, by, 0);
    let t = release(s, i);
    lemma_block_in_bounds(s, n, i);
    if count == 2 {
        lemma_block_in_bounds(s, n, i + 1);
    }
    assert forall|x: int| 0 <= x < t.len() implies (#[trigger] t[x]).size % 4 == 0 by {
        if x < i {
            assert(t[x] == s[x]);
        } else if x == i {
            assert(t[x] == by[0]);
        } else {
            assert(t[x] == s[x - 1 + count]);
        }
    }
}

/// Whatever is asked for and whether or not it is granted, the list tiles the
/// buffer afterwards as it did before.
pub proof fn lemma_after_allocate_partitions(s: Seq<Block>, n: int, size: nat)
    requires
        partitions(s, n),
        n <= SIZE_LIMIT,
    ensures
        partitions(after_allocate(s, size as int), n),
{
    lemma_first_fit(s, round_up(size as int));
    if first_fit(s, round_up(size as int)) is Some {
        lemma_place_partitions(
            s,
            n,
            first_fit(s, round_up(size as int))->Some_0,
            round_up(size as int),
        );
    }
}

/// Whatever is given back and whether or not it is accepted, the list tiles
/// the buffer afterwards as it did before.
pub proof fn lemma_after_free_partitions(s: Seq<Block>, n: int, p: int)
    requires
        partitions(s, n),
        n <= SIZE_LIMIT,
    ensures
        partitions(after_free(s, p), n),
{
    lemma_owner_from(s, p, 0);
    if owner(s, p) is Some {
        lemma_release_partitions(s, n, owner(s, p)->Some_0);
    }
}

/// One thing asked of the allocator.
pub enum Request {
    /// An allocation of so many bytes.
    Allocate(nat),
    /// The deallocation of the block that holds this offset.
    Free(int),
}

/// The list after one request.
pub open spec fn step(s: Seq<Block>, request: Request) -> Seq<Block> {
    match request {
        Request::Allocate(size) => after_allocate(s, size as int),
        Request::Free(p) => after_free(s, p),
    }
}

/// The list that a fresh buffer of `n` bytes holds after `requests`, in order.
pub open spec fn replay(n: int, requests: Seq<Request>) -> Seq<Block>
    decreases requests.len(),
{
    if requests.len() == 0 {
        pristine(n)
    } else {
        step(replay(n, requests.drop_last()), requests.last())
    }
}

/// After any sequence of requests the blocks tile the buffer: their
/// footprints add up to its size, so a walk from offset 0 ends exactly at its
/// end, and every payload length is a multiple of the header size.
pub proof fn lemma_replay_partitions(n: int, requests: Seq<Request>)
    requires
        valid_size(n),
    ensures
        partitions(replay(n, requests), n),
    decreases requests.len(),
{
    if requests.len() == 0 {
        lemma_span_single(pristine(n)[0]);
    } else {
        let before = replay(n, requests.drop_last());
        lemma_replay_partitions(n, requests.drop_last());
        match requests.last() {
            Request::Allocate(size) => lemma_after_allocate_partitions(before, n, size),
            Request::Free(p) => lemma_after_free_partitions(before, n, p),
        }
    }
}

/// How a splice changes the counts: the used blocks and the free pairs of the
/// list before and after, told apart by the part that was replaced.
pub proof fn lemma_splice_counts(s: Seq<Block>, i: int, count: int, by: Seq<Block>)
    requires
        0 <= i,
        0 <= count,
        i + count <= s.len(),
    ensures
        used_count(splice(s, i, count, by)) - used_count(by) == used_count(s) - used_count(
            s.subrange(i, i + count),
        ),
        free_pairs(splice(s, i, count, by)) - free_pairs(by) - junction(s.take(i), by) - junction(
            s.take(i) + by,
            s.skip(i + count),
        ) == free_pairs(s) - free_pairs(s.subrange(i, i + count)) - junction(
            s.take(i),
            s.subrange(i, i + count),
        ) - junction(s.take(i) + s.subrange(i, i + count), s.skip(i + count)),
{
    let head = s.take(i);
    let mid = s.subrange(i, i + count);
    let tail = s.skip(i + count);
    assert(s =~= head + mid + tail);
    lemma_used_count_concat(head, mid);
    lemma_used_count_concat(head + mid, tail);
    lemma_used_count_concat(head, by);
    lemma_used_count_concat(head + by, tail);
    lemma_free_pairs_concat(head, mid);
    lemma_free_pairs_concat(head + mid, tail);
    lemma_free_pairs_concat(head, by);
    lemma_free_pairs_concat(head + by, tail);
}

/// Placing a block adds one used block and no pair of free neighbours.
pub proof fn lemma_place_counts(s: Seq<Block>, n: int, i: int, need: int)
    requires
        partitions(s, n),
        n <= SIZE_LIMIT,
        0 <= i < s.len(),
        s[i].fits(need),
        0 <= need,
    ensures
        used_count(place(s, i, need)) == used_count(s) + 1,
        free_pairs(place(s, i, need)) <= free_pairs(s),
{
    lemma_as_splice(s, n, i, need);
    let by = placed(s[i], need);
    let head = s.take(i);
    let mid = s.subrange(i, i + 1);
    let tail = s.skip(i + 1);
    lemma_splice_counts(s, i, 1, by);
    assert(mid =~= seq![s[i]]);
    lemma_used_count_small(s[i], s[i]);
    lemma_free_pairs_small(s[i], s[i]);
    assert((head + mid).last() == s[i]);
    if by.len() == 2 {
        assert(by =~= seq![by[0], by[1]]);
        lemma_used_count_small(by[0], by[1]);
        lemma_used_count_small(by[1], by[1]);
        lemma_free_pairs_small(by[0], by[1]);
        assert((head + by).last() == by[1]);
    } else {
        assert(by =~= seq![by[0]]);
        lemma_used_count_small(by[0], by[0]);
        lemma_free_pairs_small(by[0], by[0]);
        assert((head + by).last() == by[0]);
    }
}

/// The block to the left of block `i` is free.
pub open spec fn left_is_free(s: Seq<Block>, i: int) -> bool {
    0 < i < s.len() && s[i - 1].state == State::Free
}

/// Releasing a used block takes one used block away. It adds a pair of free
/// neighbours exactly when the block to its left is free: to the right the
/// block merges, to the left it does not.
pub proof fn lemma_release_counts(s: Seq<Block>, n: int, i: int)
    requires
        partitions(s, n),
        n <= SIZE_LIMIT,
        0 <= i < s.len(),
        s[i].state == State::Used,
    ensures
        used_count(release(s, i)) == used_count(s) - 1,
        free_pairs(release(s, i)) == free_pairs(s) + if left_is_free(s, i) {
            1int
        } else {
            0int
        },
{
    lemma_as_splice(s, n, i, 0);
    let b = released(s, i);
    let by = seq![b];
    let count = merged(s, i);
    let head = s.take(i);
    let mid = s.subrange(i, i + count);
    let tail = s.skip(i + count);
    lemma_splice_counts(s, i, count, by);
    lemma_used_count_small(b, b);
    lemma_free_pairs_small(b, b);
    assert((head + by).last() == b);
    if i > 0 {
        assert(head.last() == s[i - 1]);
    }
    if count == 2 {
        assert(mid =~= seq![s[i], s[i + 1]]);
        lemma_used_count_small(s[i], s[i + 1]);
        lemma_used_count_small(s[i + 1], s[i + 1]);
        lemma_free_pairs_small(s[i], s[i + 1]);
        assert((head + mid).last() == s[i + 1]);
    } else {
        assert(mid =~= seq![s[i]]);
        lemma_used_count_small(s[i], s[i]);
        lemma_free_pairs_small(s[i], s[i]);
        assert((head + mid).last() == s[i]);
        if tail.len() > 0 {
            assert(tail.first() == s[i + 1]);
        }
    }
}

/// The request is an allocation that list `s` can serve.
pub open spec fn granted(s: Seq<Block>, request: Request) -> bool {
    request matches Request::Allocate(size) && first_fit(s, round_up(size as int)) is Some
}

/// The request gives back an offset that lies in a used block of `s`.
pub open spec fn accepted(s: Seq<Block>, request: Request) -> bool {
    request matches Request::Free(p) && owner(s, p) matches Some(i) && s[i].state == State::Used
}

/// The request gives back a used block of `s` whose left neighbour is free:
/// the two stay apart, since a block merges to its right only.
pub open spec fn leaves_pair(s: Seq<Block>, request: Request) -> bool {
    request matches Request::Free(p) && owner(s, p) matches Some(i) && s[i].state == State::Used
        && left_is_free(s, i)
}

/// Allocations granted and not yet given back after `requests`.
pub open spec fn outstanding(n: int, requests: Seq<Request>) -> int
    decreases requests.len(),
{
    if requests.len() == 0 {
        0
    } else {
        let before = replay(n, requests.drop_last());
        outstanding(n, requests.drop_last()) + if granted(before, requests.last()) {
            1int
        } else if accepted(before, requests.last()) {
            -1int
        } else {
            0int
        }
    }
}

/// How often, during `requests`, a block was given back while its left
/// neighbour was free.
pub open spec fn missed_merges(n: int, requests: Seq<Request>) -> int
    decreases requests.len(),
{
    if requests.len() == 0 {
        0
    } else {
        missed_merges(n, requests.drop_last()) + if leaves_pair(
            replay(n, requests.drop_last()),
            requests.last(),
        ) {
            1int
        } else {
            0int
        }
    }
}

/// After any sequence of requests, the used blocks are exactly the
/// allocations that were granted and not given back, and there are no more
/// pairs of free neighbours than blocks that were given back beside a free
/// left neighbour.
pub proof fn lemma_replay_counts(n: int, requests: Seq<Request>)
    requires
        valid_size(n),
    ensures
        used_count(replay(n, requests)) == outstanding(n, requests),
        0 <= free_pairs(replay(n, requests)) <= missed_merges(n, requests),
    decreases requests.len(),
{
    if requests.len() == 0 {
        lemma_used_count_small(pristine(n)[0], pristine(n)[0]);
        lemma_free_pairs_small(pristine(n)[0], pristine(n)[0]);
        assert(pristine(n) =~= seq![pristine(n)[0]]);
    } else {
        let before = replay(n, requests.drop_last());
        lemma_replay_counts(n, requests.drop_last());
        lemma_replay_partitions(n, requests.drop_last());
        match requests.last() {
            Request::Allocate(size) => {
                lemma_first_fit(before, round_up(size as int));
                if first_fit(before, round_up(size as int)) is Some {
                    lemma_place_counts(
                        before,
                        n,
                        first_fit(before, round_up(size as int))->Some_0,
                        round_up(size as int),
                    );
                }
            },
            Request::Free(p) => {
                lemma_owner_from(before, p, 0);
                if accepted(before, requests.last()) {
                    lemma_release_counts(before, n, owner(before, p)->Some_0);
                }
            },
        }
        crate::block::lemma_free_pairs_nonnegative(replay(n, requests));
    }
}

/// Once every allocation that was granted has been given back, no block is
/// used, and the free blocks are at most one more than the times a block was
/// given back beside a free left neighbour.
pub proof fn lemma_all_returned(n: int, requests: Seq<Request>)
    requires
        valid_size(n),
        outstanding(n, requests) == 0,
    ensures
        forall|i: int|
            0 <= i < replay(n, requests).len() ==> (#[trigger] replay(n, requests)[i]).state
                == State::Free,
        replay(n, requests).len() <= 1 + missed_merges(n, requests),
{
    lemma_replay_counts(n, requests);
    crate::block::lemma_all_free(replay(n, requests));
}

/// `first_fit` names block `i` if it fits and no block before it does.
pub proof fn lemma_first_fit_is(s: Seq<Block>, need: int, i: int)
    requires
        0 <= i < s.len(),
        s[i].fits(need),
        forall|j: int| 0 <= j < i ==> !(#[trigger] s[j]).fits(need),
    ensures
        first_fit(s, need) == Some(i),
{
    lemma_first_fit(s, need);
}

/// A request for no bytes is served exactly when some block is free, be it
/// one without payload.
pub proof fn lemma_zero_request(s: Seq<Block>)
    ensures
        round_up(0) == 0,
        first_fit(s, 0) is Some <==> exists|i: int|
            0 <= i < s.len() && (#[trigger] s[i]).state == State::Free,
{
    lemma_first_fit(s, 0);
    if first_fit(s, 0) is Some {
        let i = first_fit(s, 0)->Some_0;
        assert(s[i].state == State::Free);
    }
}

/// Two different blocks share no byte, headers included.
pub proof fn lemma_blocks_disjoint(s: Seq<Block>, i: int, j: int)
    requires
        0 <= i < s.len(),
        0 <= j < s.len(),
        i != j,
    ensures
        header_offset(s, i) + s[i].footprint() <= header_offset(s, j) || header_offset(s, j)
            + s[j].footprint() <= header_offset(s, i),
{
    if i < j {
        lemma_offsets_increase(s, i, j);
    } else {
        lemma_offsets_increase(s, j, i);
    }
}

/// The block that an allocation hands out: it is used, stands where the
/// chosen block stood, has room for what was asked, and its payload lies
/// within the payload of the chosen block, which was free.
pub proof fn lemma_placed_block(s: Seq<Block>, n: int, i: int, need: int)
    requires
        partitions(s, n),
        n <= SIZE_LIMIT,
        0 <= i < s.len(),
        s[i].fits(need),
        0 <= need,
    ensures
        i < place(s, i, need).len(),
        place(s, i, need)[i].state == State::Used,
        need <= place(s, i, need)[i].size <= s[i].size,
        need <= s[i].size - HEADER_SIZE ==> place(s, i, need)[i].size == need,
        header_offset(place(s, i, need), i) == header_offset(s, i),
{
    lemma_as_splice(s, n, i, need);
    lemma_splice_offsets(s, i, 1, placed(s[i], need), i);
}

/// Where block `j` of the list stands after block `i` has been placed.
pub open spec fn index_after_place(s: Seq<Block>, i: int, need: int, j: int) -> int {
    if j <= i {
        j
    } else {
        j + placed(s[i], need).len() - 1
    }
}

/// An allocation moves and changes no block but the one it is placed in:
/// what was handed out before stays handed out, at the same offset and with
/// the same length.
pub proof fn lemma_place_frame(s: Seq<Block>, n: int, i: int, need: int, j: int)
    requires
        partitions(s, n),
        n <= SIZE_LIMIT,
        0 <= i < s.len(),
        s[i].fits(need),
        0 <= need,
        0 <= j < s.len(),
        j != i,
    ensures
        0 <= index_after_place(s, i, need, j) < place(s, i, need).len(),
        place(s, i, need)[index_after_place(s, i, need, j)] == s[j],
        header_offset(place(s, i, need), index_after_place(s, i, need, j)) == header_offset(s, j),
{
    lemma_as_splice(s, n, i, need);
    lemma_splice_offsets(s, i, 1, placed(s[i], need), index_after_place(s, i, need, j));
}

/// The payload that an allocation hands out shares no byte with any other
/// block of the list, used or free, header or payload.
pub proof fn lemma_allocation_apart(s: Seq<Block>, n: int, i: int, need: int, k: int)
    requires
        partitions(s, n),
        n <= SIZE_LIMIT,
        0 <= i < s.len(),
        s[i].fits(need),
        0 <= need,
        0 <= k < place(s, i, need).len(),
        k != i,
    ensures
        header_offset(place(s, i, need), k) + place(s, i, need)[k].footprint() <= payload_offset(
            place(s, i, need),
            i,
        ) || payload_offset(place(s, i, need), i) + place(s, i, need)[i].size <= header_offset(
            place(s, i, need),
            k,
        ),
{
    lemma_placed_block(s, n, i, need);
    lemma_blocks_disjoint(place(s, i, need), i, k);
}

/// Where block `j` of the list stands after block `i` has been released.
pub open spec fn index_after_release(s: Seq<Block>, i: int, j: int) -> int {
    if j <= i {
        j
    } else {
        j - merged(s, i) + 1
    }
}

/// A deallocation moves and changes no block but the one it releases and the
/// free right neighbour it absorbs.
pub proof fn lemma_release_frame(s: Seq<Block>, n: int, i: int, j: int)
    requires
        partitions(s, n),
        n <= SIZE_LIMIT,
        0 <= i < s.len(),
        0 <= j < s.len(),
        j < i || i + merged(s, i) <= j,
    ensures
        0 <= index_after_release(s, i, j) < release(s, i).len(),
        release(s, i)[index_after_release(s, i, j)] == s[j],
        header_offset(release(s, i), index_after_release(s, i, j)) == header_offset(s, j),
{
    lemma_as_splice(s, n, i, 0);
    lemma_splice_offsets(
        s,
        i,
        merged(s, i),
        seq![released(s, i)],
        index_after_release(s, i, j),
    );
}

/// The block that a deallocation leaves: it is free, stands where the
/// released block stood, and has absorbed the right neighbour if that one was
/// free. Its new right neighbour is used, unless two free blocks followed the
/// released one: the merge takes one step.
pub proof fn lemma_released_block(s: Seq<Block>, n: int, i: int)
    requires
        partitions(s, n),
        n <= SIZE_LIMIT,
        0 <= i < s.len(),
    ensures
        i < release(s, i).len(),
        release(s, i)[i] == released(s, i),
        release(s, i).len() == s.len() - merged(s, i) + 1,
        header_offset(release(s, i), i) == header_offset(s, i),
        merged(s, i) == 2 ==> release(s, i)[i].size == s[i].size + HEADER_SIZE + s[i + 1].size,
        i + 1 < release(s, i).len() && release(s, i)[i + 1].state == State::Free ==> i + 2
            < s.len() && s[i + 1].state == State::Free && s[i + 2].state == State::Free,
{
    lemma_as_splice(s, n, i, 0);
    lemma_splice_offsets(s, i, merged(s, i), seq![released(s, i)], i);
    lemma_block_in_bounds(s, n, i);
    if merged(s, i) == 2 {
        lemma_block_in_bounds(s, n, i + 1);
    }
    if i + 1 < release(s, i).len() {
        assert(release(s, i)[i + 1] == s[i + merged(s, i)]);
    }
}

/// Giving an allocation back and asking for the same again. If block `i` was
/// handed out for `need` bytes and is given back, by any offset in its
/// payload, before anything else happens, then the same request is served
/// again, by the block at the same place.
pub proof fn lemma_free_then_allocate(s: Seq<Block>, n: int, need: int, i: int, p: int)
    requires
        partitions(s, n),
        n <= SIZE_LIMIT,
        0 <= need,
        need % 4 == 0,
        first_fit(s, need) == Some(i),
        owns(place(s, i, need), i, p),
    ensures
        after_free(place(s, i, need), p) == release(place(s, i, need), i),
        first_fit(after_free(place(s, i, need), p), need) == Some(i),
        header_offset(after_free(place(s, i, need), p), i) == header_offset(s, i),
{
    lemma_first_fit(s, need);
    let t = place(s, i, need);
    lemma_placed_block(s, n, i, need);
    lemma_place_partitions(s, n, i, need);
    lemma_owner(t, p, i);
    let u = release(t, i);
    lemma_released_block(t, n, i);
    assert forall|j: int| 0 <= j < i implies !(#[trigger] u[j]).fits(need) by {
        lemma_place_frame(s, n, i, need, j);
        lemma_release_frame(t, n, i, j);
    }
    lemma_first_fit_is(u, need, i);
}

/// Some block behind block `i` is free.
pub open spec fn free_behind(s: Seq<Block>, i: int) -> bool {
    exists|j: int| i < j < s.len() && (#[trigger] s[j]).state == State::Free
}

/// The address handed out for a request that is not empty lies in the payload
/// of the block placed for it, so giving it back releases that block.
pub proof fn lemma_pointer_in_payload(
    s: Seq<Block>,
    n: int,
    base: int,
    size: nat,
    align: int,
    i: int,
)
    requires
        partitions(s, n),
        n <= SIZE_LIMIT,
        0 <= base,
        base % 4 == 0,
        is_pow2(align),
        first_fit(s, round_up(raw_request(size as int, align))) == Some(i),
    ensures
        ({
            let need = round_up(raw_request(size as int, align));
            let ptr = align_up(base + payload_offset(s, i), align);
            &&& base + payload_offset(s, i) <= ptr
            &&& ptr + size <= base + payload_offset(s, i) + place(s, i, need)[i].size
            &&& raw_request(size as int, align) > 0 ==> owns(place(s, i, need), i, ptr - base)
        }),
{
    let need = round_up(raw_request(size as int, align));
    lemma_first_fit(s, need);
    lemma_placed_block(s, n, i, need);
    lemma_pow2_and_header(align);
    crate::block::lemma_offsets_aligned(s, i);
    lemma_align_up(base + payload_offset(s, i), align);
}

/// Giving back what was just allocated and asking for the same again. The
/// second request is served, and unless it asks for nothing it is served at
/// the same address. One case is left out: a request for no bytes, with an
/// alignment that the header size covers, that landed in a block without
/// payload while no block behind it was free. The address of such an
/// allocation lies in no payload, so giving it back releases nothing.
pub proof fn lemma_dealloc_then_allocate(s: Seq<Block>, n: int, base: int, size: nat, align: int)
    requires
        partitions(s, n),
        n <= SIZE_LIMIT,
        0 <= base,
        base % 4 == 0,
        is_pow2(align),
        first_fit(s, round_up(raw_request(size as int, align))) is Some,
        ({
            let i = first_fit(s, round_up(raw_request(size as int, align)))->Some_0;
            raw_request(size as int, align) > 0 || s[i].size > 0 || free_behind(s, i)
        }),
    ensures
        ({
            let request = raw_request(size as int, align);
            let i = first_fit(s, round_up(request))->Some_0;
            let ptr = align_up(base + payload_offset(s, i), align);
            let again = after_free(after_allocate(s, request), ptr - base);
            &&& first_fit(again, round_up(request)) is Some
            &&& request > 0 ==> first_fit(again, round_up(request)) == Some(i) && payload_offset(
                again,
                i,
            ) == payload_offset(s, i)
        }),
{
    let request = raw_request(size as int, align);
    let need = round_up(request);
    let i = first_fit(s, need)->Some_0;
    let ptr = align_up(base + payload_offset(s, i), align);
    let t = place(s, i, need);
    lemma_first_fit(s, need);
    lemma_pointer_in_payload(s, n, base, size, align, i);
    lemma_place_partitions(s, n, i, need);
    lemma_placed_block(s, n, i, need);
    if request > 0 {
        lemma_free_then_allocate(s, n, need, i, ptr - base);
    } else {
        lemma_pow2_and_header(align);
        crate::block::lemma_offsets_aligned(s, i);
        lemma_align_up(base + payload_offset(s, i), align);
        let p = payload_offset(s, i);
        assert(ptr - base == p);
        lemma_owner_from(t, p, 0);
        if owner(t, p) is Some {
            let k = owner(t, p)->Some_0;
            lemma_next_offset(t, i);
            if k < i {
                lemma_offsets_increase(t, k, i);
            } else if k > i {
                lemma_offsets_increase(t, i, k);
            }
        }
        assert(after_free(t, p) == t);
        lemma_first_fit(t, need);
        if s[i].size > 0 {
            lemma_as_splice(s, n, i, need);
            assert(t[i + 1].fits(need));
        } else {
            let j = choose|j: int| i < j < s.len() && (#[trigger] s[j]).state == State::Free;
            lemma_place_frame(s, n, i, need, j);
            assert(t[index_after_place(s, i, need, j)].fits(need));
        }
    }
}

} // verus!

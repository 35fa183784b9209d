use emballoc::block::{Block, State};
use emballoc::raw_allocator::{FreeError, RawAllocator, Region};

fn used(size: usize) -> Block {
    Block { state: State::Used, size }
}

fn free(size: usize) -> Block {
    Block { state: State::Free, size }
}

/// Walks the list as a caller would and checks what must always hold: the
/// footprints add up to the buffer size and every payload length is a
/// multiple of 4.
fn check_tiling<const N: usize>(raw: &RawAllocator<N>) {
    let blocks = raw.blocks();
    let mut offset = 0;
    for block in &blocks {
        assert_eq!(block.size % 4, 0);
        offset += 4 + block.size;
    }
    assert_eq!(offset, N);
}

fn after_two_splits() -> RawAllocator<32> {
    let mut raw = RawAllocator::<32>::new();
    assert_eq!(raw.allocate(8), Some(Region { start: 4, len: 8 }));
    assert_eq!(raw.allocate(4), Some(Region { start: 16, len: 4 }));
    raw
}

fn after_filling() -> RawAllocator<32> {
    let mut raw = after_two_splits();
    assert_eq!(raw.allocate(5), Some(Region { start: 24, len: 8 }));
    raw
}

#[test]
fn fresh_buffer_is_one_free_block() {
    let raw = RawAllocator::<32>::new();
    assert_eq!(raw.blocks(), vec![free(28)]);
    check_tiling(&raw);
}

#[test]
fn fresh_split() {
    let mut raw = RawAllocator::<32>::new();
    let region = raw.allocate(8);
    assert_eq!(region, Some(Region { start: 4, len: 8 }));
    assert_eq!(raw.blocks(), vec![used(8), free(16)]);
    check_tiling(&raw);
}

#[test]
fn second_split() {
    let mut raw = RawAllocator::<32>::new();
    raw.allocate(8);
    let region = raw.allocate(4);
    assert_eq!(region, Some(Region { start: 16, len: 4 }));
    assert_eq!(raw.blocks(), vec![used(8), used(4), free(8)]);
    check_tiling(&raw);
}

#[test]
fn exhaustion() {
    let mut raw = after_two_splits();
    assert_eq!(raw.allocate(16), None);
    assert_eq!(raw.blocks(), vec![used(8), used(4), free(8)]);
    check_tiling(&raw);
}

#[test]
fn rounding_absorbs_tail() {
    let mut raw = after_two_splits();
    let region = raw.allocate(5);
    assert_eq!(region, Some(Region { start: 24, len: 8 }));
    assert_eq!(raw.blocks(), vec![used(8), used(4), used(8)]);
    check_tiling(&raw);
}

#[test]
fn full_buffer_serves_nothing() {
    let mut raw = after_filling();
    assert_eq!(raw.allocate(1), None);
    assert_eq!(raw.blocks(), vec![used(8), used(4), used(8)]);
}

#[test]
fn right_coalesce_on_free() {
    let mut raw = after_filling();
    assert_eq!(raw.free(24), Ok(()));
    assert_eq!(raw.blocks(), vec![used(8), used(4), free(8)]);
    assert_eq!(raw.free(16), Ok(()));
    assert_eq!(raw.blocks(), vec![used(8), free(16)]);
    check_tiling(&raw);
}

#[test]
fn free_of_middle_block_after_filling() {
    let mut raw = after_filling();
    assert_eq!(raw.free(16), Ok(()));
    assert_eq!(raw.blocks(), vec![used(8), free(4), used(8)]);
    check_tiling(&raw);
}

#[test]
fn free_absorbs_free_right_neighbour() {
    let mut raw = after_filling();
    raw.free(24).unwrap();
    raw.free(16).unwrap();
    assert_eq!(raw.blocks(), vec![used(8), free(16)]);
    // the right neighbour of the first block is free: 8 + 4 + 16
    assert_eq!(raw.free(4), Ok(()));
    assert_eq!(raw.blocks(), vec![free(28)]);
    check_tiling(&raw);
}

fn two_free_neighbours() -> RawAllocator<32> {
    let mut raw = after_filling();
    raw.free(24).unwrap();
    raw.free(16).unwrap();
    assert_eq!(raw.allocate(8), Some(Region { start: 16, len: 8 }));
    assert_eq!(raw.blocks(), vec![used(8), used(8), free(4)]);
    assert_eq!(raw.free(4), Ok(()));
    assert_eq!(raw.blocks(), vec![free(8), used(8), free(4)]);
    assert_eq!(raw.free(16), Ok(()));
    raw
}

#[test]
fn no_left_coalesce() {
    let raw = two_free_neighbours();
    assert_eq!(raw.blocks(), vec![free(8), free(16)]);
    check_tiling(&raw);
}

#[test]
fn double_free_detection() {
    let mut raw = two_free_neighbours();
    for offset in 4..12 {
        assert_eq!(raw.free(offset), Err(FreeError::DoubleFree));
        assert_eq!(raw.blocks(), vec![free(8), free(16)]);
    }
    assert_eq!(raw.free(20), Err(FreeError::DoubleFree));
    assert_eq!(raw.blocks(), vec![free(8), free(16)]);
    check_tiling(&raw);
}

#[test]
fn free_accepts_any_payload_byte() {
    for offset in 16..20 {
        let mut raw = after_filling();
        assert_eq!(raw.free(offset), Ok(()));
        assert_eq!(raw.blocks(), vec![used(8), free(4), used(8)]);
    }
}

#[test]
fn free_outside_any_payload_is_not_allocated() {
    let mut raw = after_filling();
    // in a header
    for offset in [0, 1, 3, 12, 15, 20, 23] {
        assert_eq!(raw.free(offset), Err(FreeError::NotAllocated));
    }
    // behind the buffer
    for offset in [32, 33, 1000, usize::MAX] {
        assert_eq!(raw.free(offset), Err(FreeError::NotAllocated));
    }
    assert_eq!(raw.blocks(), vec![used(8), used(4), used(8)]);
    check_tiling(&raw);
}

#[test]
fn merge_takes_one_step_only() {
    // used 4, free 4, free 4, used 4: freeing the first block absorbs one
    // neighbour and leaves the next one apart
    let mut raw = RawAllocator::<32>::new();
    raw.allocate(4);
    raw.allocate(4);
    raw.allocate(4);
    raw.allocate(4);
    assert_eq!(raw.blocks(), vec![used(4), used(4), used(4), used(4)]);
    raw.free(12).unwrap();
    raw.free(20).unwrap();
    assert_eq!(raw.blocks(), vec![used(4), free(4), free(4), used(4)]);
    raw.free(4).unwrap();
    assert_eq!(raw.blocks(), vec![free(12), free(4), used(4)]);
    check_tiling(&raw);
}

#[test]
fn first_fit_takes_the_first_of_two() {
    let mut raw = after_filling();
    raw.free(24).unwrap();
    raw.free(4).unwrap();
    assert_eq!(raw.blocks(), vec![free(8), used(4), free(8)]);
    // 12 contiguous bytes are nowhere
    assert_eq!(raw.allocate(12), None);
    assert_eq!(raw.allocate(8), Some(Region { start: 4, len: 8 }));
    assert_eq!(raw.blocks(), vec![used(8), used(4), free(8)]);
}

#[test]
fn exact_fit_split_leaves_block_without_payload() {
    let mut raw = RawAllocator::<32>::new();
    assert_eq!(raw.allocate(24), Some(Region { start: 4, len: 24 }));
    assert_eq!(raw.blocks(), vec![used(24), free(0)]);
    check_tiling(&raw);
    // giving it back absorbs the empty block
    assert_eq!(raw.free(4), Ok(()));
    assert_eq!(raw.blocks(), vec![free(28)]);
}

#[test]
fn whole_block_is_taken_when_it_fits_exactly() {
    let mut raw = RawAllocator::<32>::new();
    assert_eq!(raw.allocate(28), Some(Region { start: 4, len: 28 }));
    assert_eq!(raw.blocks(), vec![used(28)]);
    assert_eq!(raw.allocate(0), None);
}

#[test]
fn request_is_rounded_up_to_a_multiple_of_four() {
    for (size, len) in [(0, 0), (1, 4), (2, 4), (3, 4), (4, 4), (5, 8), (8, 8), (9, 12)] {
        let mut raw = RawAllocator::<32>::new();
        assert_eq!(raw.allocate(size), Some(Region { start: 4, len }));
        assert_eq!(raw.blocks(), vec![used(len), free(24 - len)]);
    }
}

#[test]
fn zero_size_request_needs_only_a_free_block() {
    let mut raw = RawAllocator::<12>::new();
    assert_eq!(raw.allocate(4), Some(Region { start: 4, len: 4 }));
    assert_eq!(raw.blocks(), vec![used(4), free(0)]);
    // the only free block has no payload; it still serves a request for nothing
    assert_eq!(raw.allocate(0), Some(Region { start: 12, len: 0 }));
    assert_eq!(raw.blocks(), vec![used(4), used(0)]);
    assert_eq!(raw.allocate(0), None);
    check_tiling(&raw);
    // double free detection still applies
    assert_eq!(raw.free(4), Ok(()));
    assert_eq!(raw.free(4), Err(FreeError::DoubleFree));
}

#[test]
fn zero_size_request_splits_a_larger_block() {
    let mut raw = RawAllocator::<32>::new();
    assert_eq!(raw.allocate(0), Some(Region { start: 4, len: 0 }));
    assert_eq!(raw.blocks(), vec![used(0), free(24)]);
    // its address lies in no payload
    assert_eq!(raw.free(4), Err(FreeError::NotAllocated));
    check_tiling(&raw);
}

#[test]
fn request_larger_than_the_buffer_fails() {
    let mut raw = RawAllocator::<32>::new();
    assert_eq!(raw.allocate(29), None);
    assert_eq!(raw.allocate(32), None);
    assert_eq!(raw.allocate(usize::MAX), None);
    assert_eq!(raw.allocate(usize::MAX - 2), None);
    assert_eq!(raw.blocks(), vec![free(28)]);
    assert_eq!(raw.allocate(28), Some(Region { start: 4, len: 28 }));
}

#[test]
fn smallest_buffer_serves_one_allocation() {
    for size in 0..=4 {
        let mut raw = RawAllocator::<8>::new();
        assert_eq!(raw.blocks(), vec![free(4)]);
        let region = raw.allocate(size).unwrap();
        assert_eq!(region.start, 4);
        if size == 0 {
            // the empty request leaves a free block without payload behind
            assert_eq!(raw.blocks(), vec![used(0), free(0)]);
        } else {
            assert_eq!(raw.blocks(), vec![used(4)]);
            assert_eq!(raw.allocate(0), None);
        }
        assert_eq!(raw.allocate(1), None);
        check_tiling(&raw);
    }
    let mut raw = RawAllocator::<8>::new();
    assert_eq!(raw.allocate(5), None);
}

#[test]
fn free_then_allocate_again_gives_the_same_region() {
    let mut raw = after_two_splits();
    let before = raw.blocks();
    let region = raw.allocate(6).unwrap();
    assert_eq!(raw.free(region.start + 3), Ok(()));
    assert_eq!(raw.blocks(), before);
    assert_eq!(raw.allocate(6), Some(region));
}

#[test]
fn regions_handed_out_do_not_overlap() {
    let mut raw = RawAllocator::<128>::new();
    let mut regions: Vec<Region> = Vec::new();
    for size in [3, 8, 1, 12, 7, 4, 16, 2] {
        regions.push(raw.allocate(size).unwrap());
    }
    raw.free(regions.remove(3).start).unwrap();
    raw.free(regions.remove(1).start).unwrap();
    regions.push(raw.allocate(10).unwrap());
    regions.push(raw.allocate(5).unwrap());
    for (i, a) in regions.iter().enumerate() {
        assert_eq!(a.start % 4, 0);
        assert!(a.start >= 4 && a.start + a.len <= 128);
        for b in &regions[i + 1..] {
            assert!(a.start + a.len <= b.start || b.start + b.len <= a.start);
        }
    }
    // each region is the payload of a used block, and no free block reaches into one
    let mut offset = 0;
    let mut used_payloads: Vec<Region> = Vec::new();
    for block in raw.blocks() {
        if block.state == State::Used {
            used_payloads.push(Region { start: offset + 4, len: block.size });
        }
        offset += 4 + block.size;
    }
    regions.sort_by_key(|r| r.start);
    assert_eq!(used_payloads, regions);
    check_tiling(&raw);
}

#[test]
fn everything_given_back_leaves_no_used_block() {
    let mut raw = RawAllocator::<64>::new();
    let a = raw.allocate(8).unwrap();
    let b = raw.allocate(8).unwrap();
    let c = raw.allocate(8).unwrap();
    let d = raw.allocate(8).unwrap();
    // count the blocks given back while their left neighbour is free
    let mut beside_free_left = 0;
    for region in [b, a, d, c] {
        let blocks = raw.blocks();
        let mut offset = 0;
        let mut left_free = false;
        for block in &blocks {
            if offset + 4 == region.start {
                if left_free {
                    beside_free_left += 1;
                }
                break;
            }
            left_free = block.state == State::Free;
            offset += 4 + block.size;
        }
        raw.free(region.start).unwrap();
    }
    let blocks = raw.blocks();
    assert!(blocks.iter().all(|block| block.state == State::Free));
    assert_eq!(blocks, vec![free(20), free(36)]);
    assert_eq!(beside_free_left, 1);
    assert!(blocks.len() <= 1 + beside_free_left);
    check_tiling(&raw);
}

#[test]
fn given_back_in_reverse_order_restores_the_fresh_buffer() {
    let mut raw = RawAllocator::<64>::new();
    let a = raw.allocate(8).unwrap();
    let b = raw.allocate(8).unwrap();
    let c = raw.allocate(8).unwrap();
    for region in [c, b, a] {
        raw.free(region.start).unwrap();
    }
    assert_eq!(raw.blocks(), vec![free(60)]);
}

#[test]
fn tiling_holds_after_every_call() {
    let mut raw = RawAllocator::<256>::new();
    let mut live: Vec<usize> = Vec::new();
    let mut seed: usize = 12345;
    for _ in 0..2000 {
        seed = seed.wrapping_mul(1103515245).wrapping_add(12345) % (1 << 31);
        let choice = (seed >> 8) % 8;
        if choice < 4 {
            if let Some(region) = raw.allocate((seed >> 12) % 40) {
                if region.len > 0 {
                    live.push(region.start);
                }
            }
        } else if choice < 7 && !live.is_empty() {
            let index = (seed >> 12) % live.len();
            let start = live.swap_remove(index);
            assert_eq!(raw.free(start), Ok(()));
        } else {
            // anything at all: refused or not, the list stays sound
            let _ = raw.free((seed >> 12) % 300);
            live.retain(|&start| {
                let mut offset = 0;
                for block in raw.blocks() {
                    if offset + 4 == start {
                        return block.state == State::Used;
                    }
                    offset += 4 + block.size;
                }
                false
            });
        }
        check_tiling(&raw);
    }
}

#[test]
fn header_survives_large_sizes() {
    // payload lengths that need every byte of the header word
    let mut raw = Box::new(RawAllocator::<{ 0x0102_0304 + 8 }>::new());
    assert_eq!(raw.blocks(), vec![free(0x0102_0304 + 4)]);
    assert_eq!(raw.allocate(0x0102_0304), Some(Region { start: 4, len: 0x0102_0304 }));
    assert_eq!(raw.blocks(), vec![used(0x0102_0304), free(0)]);
    assert_eq!(raw.free(0x0102_0304), Ok(()));
    assert_eq!(raw.blocks(), vec![free(0x0102_0304 + 4)]);
}

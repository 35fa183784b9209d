use emballoc::Allocator;
use std::alloc::Layout;

/// Address that offset 0 of the buffer stands for: a multiple of 4 and of
/// nothing larger.
const BASE: usize = 0x1004;

#[test]
fn alignment_of_align_to() {
    let ptr_0x10: usize = 0x10;
    let ptr_0x11: usize = 0x11;
    let ptr_0x14: usize = 0x14;
    let ptr_0x1c: usize = 0x1c;
    let ptr_0x20: usize = 0x20;

    assert_eq!(Allocator::<8>::align_to(ptr_0x11, 4), ptr_0x14);
    assert_eq!(Allocator::<8>::align_to(ptr_0x10, 4), ptr_0x10);

    assert_eq!(Allocator::<8>::align_to(ptr_0x11, 1), ptr_0x11);

    assert_eq!(Allocator::<8>::align_to(ptr_0x1c, 16), ptr_0x20);
}

#[test]
fn small_alignments() {
    let allocator = Allocator::<32>::new();

    let layout = Layout::from_size_align(8, 2).unwrap();
    let ptr = allocator.allocate(BASE, layout.size(), layout.align());
    assert_eq!(ptr % 1, 0, "Alignment not fulfilled");

    let layout = Layout::from_size_align(4, 4).unwrap();
    let ptr = allocator.allocate(BASE, layout.size(), layout.align());
    assert_eq!(ptr % 4, 0, "Alignment not fulfilled");
}

#[test]
fn medium_alignments() {
    let allocator = Allocator::<128>::new();

    let layout = Layout::from_size_align(4, 8).unwrap();
    let ptr = allocator.allocate(BASE, layout.size(), layout.align());
    assert_eq!(ptr % 8, 0, "Alignment not fulfilled");

    let layout = Layout::from_size_align(4, 32).unwrap();
    let ptr = allocator.allocate(BASE, layout.size(), layout.align());
    assert_eq!(ptr % 32, 0, "Alignment not fulfilled");
}

#[test]
fn huge_alignment() {
    const FOUR_MEG: usize = 4 * 1024 * 1024;

    // on the heap: the buffer is too large for the stack
    let allocator = Box::new(Allocator::<{ 10 * 1024 * 1024 }>::new());
    let layout = Layout::from_size_align(4, FOUR_MEG).unwrap();
    let ptr = allocator.allocate(BASE, layout.size(), layout.align());

    assert_eq!(ptr % FOUR_MEG, 0, "Alignment not fulfilled");
}

#[test]
fn example_usage() {
    let allocator = Allocator::<4096>::new();

    let layout1 = Layout::new::<u32>();
    let ptr1 = allocator.allocate(BASE, layout1.size(), layout1.align());
    assert_ne!(ptr1, 0);

    let layout2 = Layout::new::<f64>();
    let ptr2 = allocator.allocate(BASE, layout2.size(), layout2.align());
    assert_ne!(ptr2, 0);

    let layout3 = Layout::new::<[u16; 12]>();
    let ptr3 = allocator.allocate(BASE, layout3.size(), layout3.align());
    assert_ne!(ptr3, 0);

    allocator.dealloc(BASE, ptr2);

    let layout4 = Layout::new::<[u128; 3]>();
    let ptr4 = allocator.allocate(BASE, layout4.size(), layout4.align());
    assert_ne!(ptr4, 0);

    let layout5 = Layout::new::<f32>();
    let ptr5 = allocator.allocate(BASE, layout5.size(), layout5.align());
    assert_ne!(ptr5, 0);

    allocator.dealloc(BASE, ptr3);
    allocator.dealloc(BASE, ptr4);
    allocator.dealloc(BASE, ptr5);
    allocator.dealloc(BASE, ptr1);
}

use memory_ordering::custom_allocations::{Bump, Layout};

#[test]
fn test() {
    let mut bump = Bump::new(1024);
    let x = bump.allocate::<f64>(&12.5f64.to_ne_bytes());
    let mut bytes = [0u8; 8];
    bytes.copy_from_slice(x);
    assert_eq!(f64::from_ne_bytes(bytes), 12.5);
    println!("{}", f64::from_ne_bytes(bytes))
}

#[test]
fn blocks_are_aligned_and_disjoint() {
    let mut bump = Bump::new(64);
    assert_eq!(bump.alloc_raw(Layout { size: 3, align: 1 }), Some(0));
    assert_eq!(bump.alloc_raw(Layout { size: 8, align: 8 }), Some(8));
    assert_eq!(bump.alloc_raw(Layout { size: 1, align: 2 }), Some(16));
    assert_eq!(bump.alloc_raw(Layout { size: 4, align: 16 }), Some(32));
    assert_eq!(bump.alloc_raw(Layout { size: 0, align: 4 }), Some(36));
}

#[test]
fn a_full_buffer_hands_out_nothing() {
    let mut bump = Bump::new(16);
    assert_eq!(bump.alloc_raw(Layout { size: 17, align: 1 }), None);
    assert_eq!(bump.alloc_raw(Layout { size: 9, align: 1 }), Some(0));
    // Only the padding stands in the way.
    assert_eq!(bump.alloc_raw(Layout { size: 1, align: 16 }), None);
    assert_eq!(bump.alloc_raw(Layout { size: 0, align: 16 }), Some(16));
    assert_eq!(bump.alloc_raw(Layout { size: 1, align: 1 }), None);
    assert_eq!(bump.alloc_raw(Layout { size: isize::MAX as usize, align: 1 }), None);
    assert_eq!(bump.alloc_raw(Layout { size: 0, align: 1 << 62 }), None);
}

#[test]
fn a_refusal_takes_nothing() {
    let mut bump = Bump::new(16);
    assert_eq!(bump.alloc_raw(Layout { size: 20, align: 1 }), None);
    assert_eq!(bump.alloc_raw(Layout { size: 16, align: 1 }), Some(0));
}

#[test]
fn a_reset_frees_everything() {
    let mut bump = Bump::new(16);
    assert_eq!(bump.alloc_raw(Layout { size: 16, align: 1 }), Some(0));
    assert_eq!(bump.alloc_raw(Layout { size: 1, align: 1 }), None);
    bump.reset();
    assert_eq!(bump.alloc_raw(Layout { size: 16, align: 16 }), Some(0));
}

#[test]
fn values_can_be_changed_in_place_and_are_kept() {
    let mut bump = Bump::new(32);
    assert_eq!(bump.block(0, 32), &[0u8; 32]);
    let byte = bump.allocate::<u8>(&[7]);
    byte[0] = 9;
    let word = bump.allocate::<u64>(&0x0102_0304_0506_0708u64.to_be_bytes());
    assert_eq!(word, &[1, 2, 3, 4, 5, 6, 7, 8]);
    word[7] = 88;
    assert_eq!(bump.block(0, 1), &[9]);
    assert_eq!(bump.block(8, 8), &[1, 2, 3, 4, 5, 6, 7, 88]);
    assert_eq!(bump.alloc_raw(Layout { size: 1, align: 1 }), Some(16));
}

#[test]
fn layouts_are_those_of_the_type() {
    let layout = Layout::of::<u64>();
    assert_eq!((layout.size, layout.align), (8, std::mem::align_of::<u64>()));
    let layout = Layout::of::<[u8; 5]>();
    assert_eq!((layout.size, layout.align), (5, 1));
    let layout = Layout::of::<()>();
    assert_eq!((layout.size, layout.align), (0, 1));
}

use blockpool::block::Block;
use blockpool::block::Size;
use blockpool::ptr::Pointer;

/// A block of `size` bytes at a fixed place.
fn sbrk(size: Size) -> Block {
    Block::from_raw_parts(Pointer::new(0x4000), size)
}

#[test]
fn array() {
    let block = sbrk(26);

    // Test split.
    let (mut lorem, mut rest) = block.split(5);
    assert_eq!(lorem.size(), 5);
    assert_eq!(lorem.size() + rest.size(), 26);
    assert!(lorem < rest);
    assert!(lorem.left_to(&rest));

    assert_eq!(lorem, lorem);
    assert!(!rest.is_empty());
    assert!(lorem.align(2).unwrap().1.aligned_to(2));
    assert!(rest.align(15).unwrap().1.aligned_to(15));
    assert_eq!(Pointer::from(lorem).get() + 5, Pointer::from(rest).get());
}

#[test]
fn merge() {
    let block = sbrk(26);

    let (mut lorem, mut rest) = block.split(5);
    lorem.merge_right(&mut rest).unwrap();

    let mut tmp = rest.split(0).0;
    assert!(tmp.is_empty());
    lorem.split(2).0.merge_right(&mut tmp).unwrap();
}

#[test]
fn empty_lr() {
    let block = sbrk(26);

    assert!(block.empty_left().is_empty());
    assert!(block.empty_right().is_empty());
    assert_eq!(Pointer::from(block.empty_left()).get(), 0x4000);
    assert_eq!(block.empty_right(), block.split(26).1);
}

#[test]
fn empty() {
    assert!(Block::empty(Pointer::new(0x7ffc_0010)).is_empty());
    assert_eq!(Block::empty(Pointer::new(0x7ffc_0010)).size(), 0);
}

#[test]
fn split_gives_both_halves() {
    let block = Block::from_raw_parts(Pointer::new(0x1000), 10);
    let (head, tail) = block.split(4);
    assert_eq!(head.address(), 0x1000);
    assert_eq!(head.size(), 4);
    assert_eq!(tail.address(), 0x1004);
    assert_eq!(tail.size(), 6);
}

#[test]
fn split_at_the_edges() {
    let (head, tail) = Block::from_raw_parts(Pointer::new(0x1000), 10).split(0);
    assert!(head.is_empty());
    assert_eq!((tail.address(), tail.size()), (0x1000, 10));
    let (head, tail) = Block::from_raw_parts(Pointer::new(0x1000), 10).split(10);
    assert_eq!((head.address(), head.size()), (0x1000, 10));
    assert!(tail.is_empty());
    assert_eq!(tail.address(), 0x100a);
}

#[test]
fn split_then_merge_restores() {
    for pos in 0..=10 {
        let (mut head, mut tail) = Block::from_raw_parts(Pointer::new(0x1000), 10).split(pos);
        assert!(head.merge_right(&mut tail).is_ok());
        assert_eq!((head.address(), head.size()), (0x1000, 10));
        assert!(tail.is_empty());
        assert_eq!(tail.address(), 0x1000 + pos);
    }
}

#[test]
fn left_to_goes_by_the_edges() {
    let a = Block::from_raw_parts(Pointer::new(0x1000), 16);
    let b = Block::from_raw_parts(Pointer::new(0x1010), 16);
    let c = Block::from_raw_parts(Pointer::new(0x1011), 16);
    assert!(a.left_to(&b));
    assert!(!a.left_to(&c));
    assert!(!b.left_to(&a));
    assert!(!a.left_to(&a));
    assert!(Block::empty(Pointer::new(0x1010)).left_to(&b));
}

#[test]
fn merge_apart_fails_and_changes_nothing() {
    let mut a = Block::from_raw_parts(Pointer::new(0x1000), 16);
    let mut c = Block::from_raw_parts(Pointer::new(0x1011), 16);
    assert_eq!(a.merge_right(&mut c), Err(()));
    assert_eq!((a.address(), a.size()), (0x1000, 16));
    assert_eq!((c.address(), c.size()), (0x1011, 16));
    // The order matters: the block to the left takes the one to the right.
    let mut b = Block::from_raw_parts(Pointer::new(0x1010), 1);
    assert_eq!(b.merge_right(&mut a), Err(()));
    assert_eq!(a.merge_right(&mut b), Ok(()));
    assert_eq!((a.address(), a.size()), (0x1000, 17));
    assert_eq!((b.address(), b.size()), (0x1010, 0));
}

#[test]
fn merge_with_empty_is_a_no_op() {
    let mut a = Block::from_raw_parts(Pointer::new(0x1000), 16);
    let mut far = Block::empty(Pointer::new(0x9000));
    assert_eq!(a.merge_right(&mut far), Ok(()));
    assert_eq!((a.address(), a.size()), (0x1000, 16));
    assert_eq!((far.address(), far.size()), (0x9000, 0));
    assert_eq!(a.merge_right(&mut far), Ok(()));
    assert_eq!((a.address(), a.size()), (0x1000, 16));
}

#[test]
fn align_pads_as_little_as_it_can() {
    let mut block = Block::from_raw_parts(Pointer::new(0x1003), 32);
    let (pre, post) = block.align(8).unwrap();
    assert_eq!((pre.address(), pre.size()), (0x1003, 5));
    assert_eq!((post.address(), post.size()), (0x1008, 27));
    assert_eq!(post.address() % 8, 0);
    assert_eq!(pre.size() + post.size(), 32);
    assert!(block.is_empty());
    assert_eq!(block.address(), 0x1003);
}

#[test]
fn align_of_an_aligned_block_pads_nothing() {
    let mut block = Block::from_raw_parts(Pointer::new(0x1000), 32);
    let (pre, post) = block.align(16).unwrap();
    assert_eq!((pre.address(), pre.size()), (0x1000, 0));
    assert_eq!((post.address(), post.size()), (0x1000, 32));
}

#[test]
fn align_fails_where_the_padding_takes_all() {
    let mut block = Block::from_raw_parts(Pointer::new(0x1001), 15);
    assert!(block.align(16).is_err());
    assert_eq!((block.address(), block.size()), (0x1001, 15));
    let mut longer = Block::from_raw_parts(Pointer::new(0x1001), 16);
    let (pre, post) = longer.align(16).unwrap();
    assert_eq!((pre.address(), pre.size()), (0x1001, 15));
    assert_eq!((post.address(), post.size()), (0x1010, 1));
    let mut nothing = Block::empty(Pointer::new(0x1000));
    assert!(nothing.align(16).is_err());
}

#[test]
fn pop_leaves_the_left_edge() {
    let mut block = Block::from_raw_parts(Pointer::new(0x2000), 48);
    let taken = block.pop();
    assert_eq!((taken.address(), taken.size()), (0x2000, 48));
    assert_eq!((block.address(), block.size()), (0x2000, 0));
    let again = block.pop();
    assert_eq!((again.address(), again.size()), (0x2000, 0));
}

#[test]
fn edges_are_empty_and_in_place() {
    let block = Block::from_raw_parts(Pointer::new(0x2000), 48);
    assert_eq!(block.empty_left().address(), 0x2000);
    assert_eq!(block.empty_right().address(), 0x2030);
    assert_eq!(block.empty_right().size(), 0);
}

#[test]
fn blocks_compare_by_address() {
    let low = Block::from_raw_parts(Pointer::new(0x1000), 64);
    let high = Block::from_raw_parts(Pointer::new(0x2000), 8);
    let twin = Block::from_raw_parts(Pointer::new(0x1000), 1);
    assert!(low < high);
    assert!(high > low);
    assert!(low <= twin && low >= twin);
    assert_eq!(low, twin);
    assert_ne!(low, high);
}

#[test]
fn marks_pass_the_block_through() {
    let block = Block::from_raw_parts(Pointer::new(0x2000), 48).mark_free();
    assert_eq!((block.address(), block.size()), (0x2000, 48));
    let block = block.mark_uninitialized();
    assert_eq!((block.address(), block.size()), (0x2000, 48));
}

#[test]
fn aligned_to_tests_the_start() {
    let block = Block::from_raw_parts(Pointer::new(0x1008), 8);
    assert!(block.aligned_to(8));
    assert!(block.aligned_to(1));
    assert!(!block.aligned_to(16));
    assert!(!block.aligned_to(15));
}

#[test]
fn pointer_offsets_both_ways() {
    assert_eq!(Pointer::new(0x1000).offset(16).get(), 0x1010);
    assert_eq!(Pointer::new(0x1000).offset(-16).get(), 0xff0);
    assert_eq!(Pointer::new(0x1000).offset(0).get(), 0x1000);
    assert_eq!(Pointer::new(1).offset(-1).get(), 0);
    assert_eq!(Pointer::new(0).offset(isize::MAX).get(), isize::MAX as usize);
}

#[test]
fn pointers_compare_by_address() {
    let low = Pointer::new(0x1000);
    let high = Pointer::new(0x1001);
    assert!(low < high);
    assert!(low != high);
    assert!(low == low.clone());
    assert!(low.aligned_to(0x1000));
    assert!(!high.aligned_to(2));
}

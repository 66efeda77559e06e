use blockpool::bk::pool::Pool;
use blockpool::bk::seek::Anchor;
use blockpool::bk::shortcut::generate_level;
use blockpool::bk::shortcut::Cursor;
use blockpool::bk::shortcut::LEVELS;
use blockpool::block::Block;
use blockpool::ptr::Pointer;
use blockpool::random::Generator;

fn block(addr: usize, size: usize) -> Block {
    Block::from_raw_parts(Pointer::new(addr), size)
}

/// Insert a block that the pool holds no byte of.
fn give(pool: &mut Pool, addr: usize, size: usize) {
    let fresh = block(addr, size);
    assert!(pool.admits(&fresh));
    pool.insert(fresh);
}

/// The slot of the last block that starts below `target`, by a plain scan.
fn scan(blocks: &[(usize, usize)], target: usize) -> Option<(usize, usize)> {
    let mut last = None;
    for &(addr, size) in blocks {
        if addr < target {
            last = Some((addr, size));
        }
    }
    last
}

fn shape(pool: &Pool, anchor: Anchor) -> Option<(usize, usize)> {
    pool.block_at(anchor).map(|found| (found.address(), found.size()))
}

/// In address order, with a gap between any two.
fn assert_coalesced(blocks: &[(usize, usize)]) {
    for pair in blocks.windows(2) {
        assert!(pair[0].0 + pair[0].1 < pair[1].0);
    }
    for &(_, size) in blocks {
        assert!(size > 0);
    }
}

#[test]
fn new_pool_is_empty() {
    let pool = Pool::new(7);
    assert_eq!(pool.blocks(), vec![]);
    for level in 1..=LEVELS {
        assert_eq!(pool.blocks_at(level), vec![]);
    }
}

#[test]
fn adjacent_inserts_leave_one_block() {
    let mut pool = Pool::new(1);
    give(&mut pool, 0x1000, 16);
    give(&mut pool, 0x1010, 16);
    assert_eq!(pool.blocks(), vec![(0x1000, 32)]);
}

#[test]
fn insert_in_front_of_a_block_merges_too() {
    let mut pool = Pool::new(1);
    give(&mut pool, 0x1010, 16);
    give(&mut pool, 0x1000, 16);
    assert_eq!(pool.blocks(), vec![(0x1000, 32)]);
}

#[test]
fn insert_between_two_blocks_joins_them() {
    let mut pool = Pool::new(3);
    give(&mut pool, 0x1000, 16);
    give(&mut pool, 0x1020, 16);
    give(&mut pool, 0x3000, 16);
    assert_eq!(pool.blocks(), vec![(0x1000, 16), (0x1020, 16), (0x3000, 16)]);
    give(&mut pool, 0x1010, 16);
    assert_eq!(pool.blocks(), vec![(0x1000, 48), (0x3000, 16)]);
}

#[test]
fn apart_inserts_keep_address_order() {
    let mut pool = Pool::new(99);
    give(&mut pool, 0x3000, 16);
    give(&mut pool, 0x1000, 16);
    give(&mut pool, 0x2000, 16);
    assert_eq!(pool.blocks(), vec![(0x1000, 16), (0x2000, 16), (0x3000, 16)]);
}

#[test]
fn empty_block_is_let_go() {
    let mut pool = Pool::new(5);
    give(&mut pool, 0x1000, 16);
    pool.insert(Block::empty(Pointer::new(0x1010)));
    pool.insert(Block::empty(Pointer::new(0x1008)));
    pool.insert(Block::empty(Pointer::new(0x10)));
    assert_eq!(pool.blocks(), vec![(0x1000, 16)]);
}

#[test]
fn search_finds_the_base_predecessor() {
    let mut pool = Pool::new(11);
    give(&mut pool, 0x1000, 16);
    give(&mut pool, 0x2000, 16);
    give(&mut pool, 0x3000, 16);
    let seek = pool.search(&Block::empty(Pointer::new(0x2500)));
    assert_eq!(shape(&pool, seek.node), Some((0x2000, 16)));
    assert_eq!(seek.predecessor(1), seek.node);
}

#[test]
fn search_in_an_empty_pool_finds_the_sentinel() {
    let pool = Pool::new(11);
    let seek = pool.search(&Block::empty(Pointer::new(0x2500)));
    assert_eq!(seek.node, Anchor::Head);
    assert_eq!(seek.back_look.len(), LEVELS);
    for level in 1..=LEVELS {
        assert_eq!(seek.predecessor(level), Anchor::Head);
    }
}

#[test]
fn search_below_everything_finds_the_sentinel() {
    let mut pool = Pool::new(11);
    give(&mut pool, 0x1000, 16);
    give(&mut pool, 0x2000, 16);
    let seek = pool.search(&Block::empty(Pointer::new(0x800)));
    assert_eq!(seek.node, Anchor::Head);
    for level in 1..=LEVELS {
        assert_eq!(seek.predecessor(level), Anchor::Head);
    }
    // A block is no predecessor of its own address.
    let seek = pool.search(&Block::empty(Pointer::new(0x1000)));
    assert_eq!(seek.node, Anchor::Head);
    let seek = pool.search(&Block::empty(Pointer::new(0x1001)));
    assert_eq!(shape(&pool, seek.node), Some((0x1000, 16)));
}

#[test]
fn search_matches_a_linear_scan() {
    let mut pool = Pool::new(0xfeed);
    let mut source = Generator::new(0xbeef);
    for _ in 0..200 {
        let addr = (source.get() % 4096) as usize * 64 + 64;
        let size = (source.get() % 48) as usize + 1;
        let fresh = block(addr, size);
        if pool.admits(&fresh) {
            pool.insert(fresh);
        }
    }
    let blocks = pool.blocks();
    assert!(blocks.len() > 50);
    assert_coalesced(&blocks);
    for step in 0..600 {
        let target = step * 449 + 1;
        let seek = pool.search(&Block::empty(Pointer::new(target)));
        assert_eq!(shape(&pool, seek.node), scan(&blocks, target));
        let mut lower: Option<(usize, usize)> = shape(&pool, seek.predecessor(1));
        for level in 1..=LEVELS {
            let here = shape(&pool, seek.predecessor(level));
            assert_eq!(here, scan(&pool.blocks_at(level), target));
            if let Some((addr, _)) = here {
                assert!(addr < target);
                let (below, _) = lower.unwrap();
                assert!(addr <= below);
            }
            lower = here;
        }
    }
}

#[test]
fn levels_nest() {
    let mut pool = Pool::new(0x5eed);
    for i in 0..300 {
        give(&mut pool, 0x1000 + i * 0x100, 0x40);
    }
    let mut below = pool.blocks();
    assert_eq!(below.len(), 300);
    for level in 2..=LEVELS {
        let here = pool.blocks_at(level);
        assert!(here.len() <= below.len());
        assert_coalesced(&here);
        for entry in &here {
            assert!(below.contains(entry));
        }
        below = here;
    }
    // Fair flips leave about half of the nodes on the second level.
    let second = pool.blocks_at(2).len();
    assert!(second > 100 && second < 200);
}

#[test]
fn forced_flips_set_the_level() {
    let mut pool = Pool::new(1);
    pool.insert_with(block(0x1000, 16), 0);
    pool.insert_with(block(0x2000, 16), u64::MAX);
    pool.insert_with(block(0x3000, 16), 0b0011);
    assert_eq!(pool.blocks(), vec![(0x1000, 16), (0x2000, 16), (0x3000, 16)]);
    assert_eq!(pool.blocks_at(2), vec![(0x2000, 16), (0x3000, 16)]);
    assert_eq!(pool.blocks_at(3), vec![(0x2000, 16), (0x3000, 16)]);
    assert_eq!(pool.blocks_at(4), vec![(0x2000, 16)]);
    assert_eq!(pool.blocks_at(LEVELS), vec![(0x2000, 16)]);
    let seek = pool.search(&Block::empty(Pointer::new(0x3800)));
    assert_eq!(shape(&pool, seek.predecessor(1)), Some((0x3000, 16)));
    assert_eq!(shape(&pool, seek.predecessor(3)), Some((0x3000, 16)));
    assert_eq!(shape(&pool, seek.predecessor(4)), Some((0x2000, 16)));
    assert_eq!(shape(&pool, seek.predecessor(LEVELS)), Some((0x2000, 16)));
    let seek = pool.search(&Block::empty(Pointer::new(0x1800)));
    assert_eq!(shape(&pool, seek.predecessor(1)), Some((0x1000, 16)));
    assert_eq!(seek.predecessor(2), Anchor::Head);
}

#[test]
fn merging_keeps_the_levels_of_the_nodes() {
    let mut pool = Pool::new(1);
    pool.insert_with(block(0x1000, 16), u64::MAX);
    pool.insert_with(block(0x1020, 16), 0b0001);
    pool.insert_with(block(0x1040, 16), 0);
    // Joins the first two: the node of the first stays, that of the second goes.
    pool.insert_with(block(0x1010, 16), 0);
    assert_eq!(pool.blocks(), vec![(0x1000, 48), (0x1040, 16)]);
    assert_eq!(pool.blocks_at(2), vec![(0x1000, 48)]);
    assert_eq!(pool.blocks_at(LEVELS), vec![(0x1000, 48)]);
    // Grows the last block to the left: its node stays on the base level.
    pool.insert_with(block(0x1038, 8), u64::MAX);
    assert_eq!(pool.blocks(), vec![(0x1000, 48), (0x1038, 24)]);
    assert_eq!(pool.blocks_at(2), vec![(0x1000, 48)]);
}

#[test]
fn remove_takes_the_first_fit() {
    let mut pool = Pool::new(21);
    give(&mut pool, 0x1000, 8);
    give(&mut pool, 0x2000, 64);
    give(&mut pool, 0x3000, 64);
    let taken = pool.remove(32, 1).unwrap();
    assert_eq!((taken.address(), taken.size()), (0x2000, 64));
    assert_eq!(pool.blocks(), vec![(0x1000, 8), (0x3000, 64)]);
    let taken = pool.remove(1, 1).unwrap();
    assert_eq!((taken.address(), taken.size()), (0x1000, 8));
    assert_eq!(pool.blocks(), vec![(0x3000, 64)]);
}

#[test]
fn remove_counts_the_padding() {
    let mut pool = Pool::new(21);
    give(&mut pool, 0x1008, 60);
    give(&mut pool, 0x2000, 64);
    // 56 bytes to pad the first block to 64: 4 are left, 8 are asked for.
    let taken = pool.remove(8, 64).unwrap();
    assert_eq!((taken.address(), taken.size()), (0x2000, 64));
    give(&mut pool, 0x2000, 64);
    let mut taken = pool.remove(4, 64).unwrap();
    assert_eq!((taken.address(), taken.size()), (0x1008, 60));
    let (pre, post) = taken.align(64).unwrap();
    assert_eq!((pre.address(), pre.size()), (0x1008, 56));
    assert_eq!((post.address(), post.size()), (0x1040, 4));
}

#[test]
fn remove_without_a_fit_changes_nothing() {
    let mut pool = Pool::new(21);
    assert!(pool.remove(1, 1).is_none());
    give(&mut pool, 0x1000, 8);
    give(&mut pool, 0x2001, 15);
    assert!(pool.remove(9, 8).is_none());
    assert!(pool.remove(16, 1).is_none());
    assert_eq!(pool.blocks(), vec![(0x1000, 8), (0x2001, 15)]);
    // A block that only pads fits nothing, not even a request for no bytes.
    let mut pool = Pool::new(21);
    give(&mut pool, 0x2001, 15);
    assert!(pool.remove(0, 16).is_none());
    assert!(pool.remove(0, 1).is_some());
}

#[test]
fn removed_remainder_goes_back() {
    let mut pool = Pool::new(8);
    give(&mut pool, 0x1000, 0x100);
    let taken = pool.remove(0x40, 1).unwrap();
    let (used, rest) = taken.split(0x40);
    assert_eq!((used.address(), used.size()), (0x1000, 0x40));
    assert!(pool.admits(&rest));
    pool.insert(rest);
    assert_eq!(pool.blocks(), vec![(0x1040, 0xc0)]);
    assert!(pool.admits(&used));
    pool.insert(used);
    assert_eq!(pool.blocks(), vec![(0x1000, 0x100)]);
}

#[test]
fn slots_are_used_again() {
    let mut pool = Pool::new(8);
    for round in 0..50 {
        for i in 0..20 {
            give(&mut pool, 0x1000 + i * 0x100, 0x10 + round);
        }
        assert_eq!(pool.blocks().len(), 20);
        for i in 0..20 {
            let taken = pool.remove(1, 1).unwrap();
            assert_eq!((taken.address(), taken.size()), (0x1000 + i * 0x100, 0x10 + round));
        }
        assert_eq!(pool.blocks(), vec![]);
    }
}

#[test]
fn pool_stays_ordered_and_coalesced() {
    let mut pool = Pool::new(0xabcdef);
    let mut source = Generator::new(0x1234_5678);
    let mut bytes: usize = 0;
    for _ in 0..2000 {
        let roll = source.get();
        if roll % 3 == 0 {
            let min_size = (source.get() % 64) as usize;
            let align = 1usize << (source.get() % 7);
            let before = pool.blocks();
            let first = before
                .iter()
                .find(|&&(addr, size)| {
                    let padding = (align - addr % align) % align;
                    padding < size && min_size <= size - padding
                })
                .copied();
            let taken = pool.remove(min_size, align);
            assert_eq!(taken.as_ref().map(|b| (b.address(), b.size())), first);
            if let Some(found) = taken {
                bytes -= found.size();
            }
        } else {
            let addr = (source.get() % 512) as usize * 32 + 32;
            let size = (source.get() % 96) as usize + 1;
            let fresh = block(addr, size);
            if pool.admits(&fresh) {
                pool.insert(fresh);
                bytes += size;
            }
        }
        let blocks = pool.blocks();
        assert_coalesced(&blocks);
        assert_eq!(blocks.iter().map(|&(_, size)| size).sum::<usize>(), bytes);
    }
}

#[test]
fn admits_tells_overlap_from_touch() {
    let mut pool = Pool::new(8);
    give(&mut pool, 0x1000, 0x100);
    give(&mut pool, 0x3000, 0x100);
    assert!(pool.admits(&block(0x1100, 0x100)));
    assert!(pool.admits(&block(0x2f00, 0x100)));
    assert!(pool.admits(&block(0x1100, 0x1f00)));
    assert!(pool.admits(&block(0x800, 0x800)));
    assert!(pool.admits(&Block::empty(Pointer::new(0x1080))));
    assert!(!pool.admits(&block(0x10ff, 1)));
    assert!(!pool.admits(&block(0x1000, 1)));
    assert!(!pool.admits(&block(0xfff, 2)));
    assert!(!pool.admits(&block(0x2fff, 2)));
    assert!(!pool.admits(&block(0x800, 0x3000)));
    assert!(!pool.admits(&block(0x1100, 0x1f01)));
}

#[test]
fn block_at_knows_live_slots_only() {
    let mut pool = Pool::new(8);
    assert!(pool.block_at(Anchor::Head).is_none());
    assert!(pool.block_at(Anchor::Slot(0)).is_none());
    give(&mut pool, 0x1000, 0x100);
    let seek = pool.search(&Block::empty(Pointer::new(0x8000)));
    assert_eq!(shape(&pool, seek.node), Some((0x1000, 0x100)));
    let taken = pool.remove(1, 1).unwrap();
    assert_eq!(taken.size(), 0x100);
    assert!(pool.block_at(seek.node).is_none());
}

#[test]
fn levels_come_from_the_low_bits() {
    assert_eq!(generate_level(0), 1);
    assert_eq!(generate_level(0b10), 1);
    assert_eq!(generate_level(0b01), 2);
    assert_eq!(generate_level(0b0111), 4);
    assert_eq!(generate_level(0b1011), 3);
    assert_eq!(generate_level(0x7f), 8);
    assert_eq!(generate_level(0x3f), 7);
    assert_eq!(generate_level(u64::MAX), LEVELS);
    assert_eq!(LEVELS, 8);
}

#[test]
fn generator_replays_its_seed() {
    let mut source = Generator::new(1);
    assert_eq!(source.get(), 0x4082_2041);
    assert_eq!(source.get(), 0x1000_4106_0c01_1441);
    assert_eq!(source.get(), 0x9b1e_842f_6e86_2629);
    let mut other = Generator::new(42);
    assert_eq!(other.get(), 0xa_9551_4aaa);
    let mut zero = Generator::new(0);
    assert_eq!(zero.get(), 0x7f6c_280b_eaa8_e3e7);
}

#[test]
fn insert_draws_the_level_from_the_seed() {
    // Seeded with 1, the first flips are 0x40822041: heads, then tails.
    let mut pool = Pool::new(1);
    assert_eq!(generate_level(0x4082_2041), 2);
    pool.insert(block(0x1000, 16));
    assert_eq!(pool.blocks_at(2), vec![(0x1000, 16)]);
    assert_eq!(pool.blocks_at(3), vec![]);
    // The second flips are 0x100041060c011441: heads, then tails.
    // The third are 0x9b1e842f6e862629: heads, then tails again.
    pool.insert(block(0x2000, 16));
    pool.insert(block(0x3000, 16));
    assert_eq!(pool.blocks_at(2).len(), 3);
    assert_eq!(pool.blocks_at(3), vec![]);
    // A pool seeded with 42 starts with 0xa95514aaa: tails at once.
    let mut pool = Pool::new(42);
    pool.insert(block(0x1000, 16));
    assert_eq!(pool.blocks(), vec![(0x1000, 16)]);
    assert_eq!(pool.blocks_at(2), vec![]);
}

#[test]
fn remove_takes_the_node_out_of_every_level() {
    let mut pool = Pool::new(1);
    pool.insert_with(block(0x1000, 16), 0b0001);
    pool.insert_with(block(0x2000, 64), u64::MAX);
    pool.insert_with(block(0x3000, 16), 0b0111);
    let taken = pool.remove(32, 1).unwrap();
    assert_eq!((taken.address(), taken.size()), (0x2000, 64));
    assert_eq!(pool.blocks(), vec![(0x1000, 16), (0x3000, 16)]);
    assert_eq!(pool.blocks_at(2), vec![(0x1000, 16), (0x3000, 16)]);
    assert_eq!(pool.blocks_at(3), vec![(0x3000, 16)]);
    assert_eq!(pool.blocks_at(4), vec![(0x3000, 16)]);
    assert_eq!(pool.blocks_at(5), vec![]);
    let seek = pool.search(&Block::empty(Pointer::new(0x2800)));
    assert_eq!(shape(&pool, seek.predecessor(2)), Some((0x1000, 16)));
    assert_eq!(seek.predecessor(3), Anchor::Head);
}

#[test]
fn cursor_steps_down_in_place() {
    let mut pool = Pool::new(1);
    pool.insert_with(block(0x1000, 16), 0b0001);
    pool.insert_with(block(0x2000, 16), 0b0011);
    pool.insert_with(block(0x3000, 16), 0);
    pool.insert_with(block(0x4000, 16), 0b0001);
    let mut cursor: Cursor = pool.shortcuts(3);
    assert_eq!(cursor.at, Anchor::Head);
    pool.advance(&mut cursor, 0x3800);
    assert_eq!(shape(&pool, cursor.at), Some((0x2000, 16)));
    assert_eq!(cursor.decrement_level(), 3);
    assert_eq!(cursor.level, 2);
    assert_eq!(shape(&pool, cursor.at), Some((0x2000, 16)));
    pool.advance(&mut cursor, 0x3800);
    assert_eq!(shape(&pool, cursor.at), Some((0x2000, 16)));
    assert_eq!(cursor.decrement_level(), 2);
    pool.advance(&mut cursor, 0x3800);
    assert_eq!(shape(&pool, cursor.at), Some((0x3000, 16)));
    assert_eq!(cursor.decrement_level(), 1);
    assert_eq!(cursor.level, 0);
    // Along a level the cursor passes over the nodes that do not reach it.
    let mut cursor = pool.shortcuts(2);
    pool.advance(&mut cursor, 0x5000);
    assert_eq!(shape(&pool, cursor.at), Some((0x4000, 16)));
    let mut cursor = pool.shortcuts(2);
    pool.advance(&mut cursor, 0x1000);
    assert_eq!(cursor.at, Anchor::Head);
}

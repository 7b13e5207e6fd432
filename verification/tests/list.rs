use kernel_core::allocator::layout::Layout;
use kernel_core::allocator::list::{LinkedListAllocator, ListNode, MIN_NODE_SIZE, NODE_ALIGN};

fn layout(size: usize, align: usize) -> Layout {
    Layout::from_size_align(size, align).unwrap()
}

/// The free blocks as pairs of start and size, the block tried first in front.
fn free_blocks(a: &LinkedListAllocator) -> Vec<(usize, usize)> {
    a.dump_free_list().blocks.iter().map(|b| (b.start_addr(), b.size())).collect()
}

fn request(a: &mut LinkedListAllocator, l: Layout) -> Option<usize> {
    assert!(a.splits_cleanly(l));
    a.allocate(l)
}

fn release(a: &mut LinkedListAllocator, ptr: usize, l: Layout) {
    assert!(a.can_dealloc(ptr, l));
    a.dealloc(ptr, l);
}

fn assert_well_formed(a: &LinkedListAllocator) {
    let r = a.dump_free_list();
    for (i, b) in r.blocks.iter().enumerate() {
        assert!(b.size() >= MIN_NODE_SIZE);
        assert_eq!(b.start_addr() % NODE_ALIGN, 0);
        assert!(r.heap_start <= b.start_addr());
        assert!(b.end_addr() <= r.heap_end);
        for c in &r.blocks[i + 1..] {
            assert!(b.end_addr() <= c.start_addr() || c.end_addr() <= b.start_addr());
        }
    }
}

#[test]
fn list_scenario_page_heap() {
    let mut a = LinkedListAllocator::new();
    a.init(0x1000, 4096);
    assert_eq!(request(&mut a, layout(64, 8)), Some(0x1000));
    assert_eq!(request(&mut a, layout(4096 - 64 + 1, 1)), None);
    release(&mut a, 0x1000, layout(64, 8));
    assert_eq!(request(&mut a, layout(64, 8)), Some(0x1000));
}

#[test]
fn list_new_has_no_heap_and_no_block() {
    let a = LinkedListAllocator::new();
    let r = a.dump_free_list();
    assert_eq!((r.heap_start, r.heap_end), (0, 0));
    assert!(r.blocks.is_empty());
}

#[test]
fn list_before_init_every_request_fails() {
    let mut a = LinkedListAllocator::new();
    assert_eq!(request(&mut a, layout(1, 1)), None);
    assert_eq!(request(&mut a, layout(0, 1)), None);
    assert!(free_blocks(&a).is_empty());
}

#[test]
fn list_init_makes_the_heap_one_free_block() {
    let mut a = LinkedListAllocator::new();
    a.init(0x1000, 4096);
    let r = a.dump_free_list();
    assert_eq!((r.heap_start, r.heap_end), (0x1000, 0x2000));
    assert_eq!(r.blocks.len(), 1);
    assert_eq!(r.blocks[0], ListNode::new(0x1000, 4096));
    assert_eq!(r.blocks[0].start_addr(), 0x1000);
    assert_eq!(r.blocks[0].end_addr(), 0x2000);
    assert_eq!(r.blocks[0].size(), 4096);
}

#[test]
fn list_split_leaves_the_unused_tail() {
    let mut a = LinkedListAllocator::new();
    a.init(0x1000, 4096);
    assert_eq!(request(&mut a, layout(64, 8)), Some(0x1000));
    assert_eq!(free_blocks(&a), vec![(0x1040, 4096 - 64)]);
    assert_eq!(a.dump_free_list().blocks[0].end_addr(), 0x2000);
    assert_eq!(request(&mut a, layout(100, 8)), Some(0x1040));
    assert_eq!(free_blocks(&a), vec![(0x1040 + 104, 4096 - 64 - 104)]);
}

#[test]
fn list_exact_fit_leaves_no_tail() {
    let mut a = LinkedListAllocator::new();
    a.init(0x1000, 64);
    assert_eq!(request(&mut a, layout(64, 8)), Some(0x1000));
    assert!(free_blocks(&a).is_empty());
    assert_eq!(request(&mut a, layout(1, 1)), None);
}

#[test]
fn list_tail_too_short_for_a_block_is_not_split_off() {
    let mut a = LinkedListAllocator::new();
    a.init(0x1000, 64);
    // 56 bytes would leave 8, less than a free block needs
    assert_eq!(request(&mut a, layout(56, 8)), None);
    assert_eq!(free_blocks(&a), vec![(0x1000, 64)]);
    // 48 bytes leave 16, just enough
    assert_eq!(request(&mut a, layout(48, 8)), Some(0x1000));
    assert_eq!(free_blocks(&a), vec![(0x1030, 16)]);
}

#[test]
fn list_size_align_adjusts_the_request() {
    assert_eq!(LinkedListAllocator::size_align(layout(0, 1)), Some((16, 8)));
    assert_eq!(LinkedListAllocator::size_align(layout(1, 1)), Some((16, 8)));
    assert_eq!(LinkedListAllocator::size_align(layout(16, 8)), Some((16, 8)));
    assert_eq!(LinkedListAllocator::size_align(layout(17, 1)), Some((24, 8)));
    assert_eq!(LinkedListAllocator::size_align(layout(64, 8)), Some((64, 8)));
    assert_eq!(LinkedListAllocator::size_align(layout(100, 16)), Some((112, 16)));
    assert_eq!(LinkedListAllocator::size_align(layout(1, 64)), Some((64, 64)));
    assert_eq!(LinkedListAllocator::size_align(layout(4033, 1)), Some((4040, 8)));
}

#[test]
fn list_size_align_reports_a_size_out_of_range() {
    let max = isize::MAX as usize;
    assert_eq!(LinkedListAllocator::size_align(layout(max, 1)), None);
    assert_eq!(LinkedListAllocator::size_align(layout(max - 6, 2)), None);
    assert_eq!(LinkedListAllocator::size_align(layout(max - 7, 1)), Some((max - 7, 8)));
    let mut a = LinkedListAllocator::new();
    a.init(0x1000, 4096);
    assert_eq!(request(&mut a, layout(max, 1)), None);
    assert_eq!(free_blocks(&a), vec![(0x1000, 4096)]);
}

#[test]
fn list_check_block_accepts_and_rejects() {
    let block = ListNode::new(0x1000, 64);
    assert_eq!(LinkedListAllocator::check_block_for_alloc(&block, 64, 8), Ok(0x1000));
    assert_eq!(LinkedListAllocator::check_block_for_alloc(&block, 48, 8), Ok(0x1000));
    assert_eq!(LinkedListAllocator::check_block_for_alloc(&block, 16, 8), Ok(0x1000));
    assert_eq!(LinkedListAllocator::check_block_for_alloc(&block, 56, 8), Err(()));
    assert_eq!(LinkedListAllocator::check_block_for_alloc(&block, 63, 1), Err(()));
    assert_eq!(LinkedListAllocator::check_block_for_alloc(&block, 65, 8), Err(()));
    assert_eq!(LinkedListAllocator::check_block_for_alloc(&block, 72, 8), Err(()));
}

#[test]
fn list_check_block_rounds_the_start_up() {
    let block = ListNode::new(0x1008, 64);
    assert_eq!(LinkedListAllocator::check_block_for_alloc(&block, 16, 32), Ok(0x1020));
    assert_eq!(LinkedListAllocator::check_block_for_alloc(&block, 40, 32), Ok(0x1020));
    assert_eq!(LinkedListAllocator::check_block_for_alloc(&block, 32, 32), Err(()));
    assert_eq!(LinkedListAllocator::check_block_for_alloc(&block, 16, 128), Err(()));
}

#[test]
fn list_check_block_takes_overflow_as_misfit() {
    let top = usize::MAX - 63;
    let block = ListNode::new(top, 63);
    assert_eq!(LinkedListAllocator::check_block_for_alloc(&block, usize::MAX, 1), Err(()));
    assert_eq!(LinkedListAllocator::check_block_for_alloc(&block, 64, 8), Err(()));
    assert_eq!(LinkedListAllocator::check_block_for_alloc(&block, 16, 128), Err(()));
    assert_eq!(LinkedListAllocator::check_block_for_alloc(&block, 63, 8), Ok(top));
}

#[test]
fn list_freed_block_is_tried_first() {
    let mut a = LinkedListAllocator::new();
    a.init(0x1000, 256);
    let l = layout(32, 8);
    let first = request(&mut a, l).unwrap();
    let second = request(&mut a, l).unwrap();
    let third = request(&mut a, l).unwrap();
    assert_eq!((first, second, third), (0x1000, 0x1020, 0x1040));
    assert_eq!(free_blocks(&a), vec![(0x1060, 160)]);
    release(&mut a, first, l);
    assert_eq!(free_blocks(&a), vec![(0x1000, 32), (0x1060, 160)]);
    release(&mut a, third, l);
    assert_eq!(free_blocks(&a), vec![(0x1040, 32), (0x1000, 32), (0x1060, 160)]);
    assert_eq!(request(&mut a, l), Some(0x1040));
    assert_eq!(free_blocks(&a), vec![(0x1000, 32), (0x1060, 160)]);
}

#[test]
fn list_first_fit_skips_blocks_that_are_too_small() {
    let mut a = LinkedListAllocator::new();
    a.init(0x1000, 256);
    let l = layout(32, 8);
    let first = request(&mut a, l).unwrap();
    let _second = request(&mut a, l).unwrap();
    release(&mut a, first, l);
    assert_eq!(free_blocks(&a), vec![(0x1000, 32), (0x1040, 192)]);
    assert_eq!(request(&mut a, layout(48, 8)), Some(0x1040));
    // the tail of the block that was split stands in front
    assert_eq!(free_blocks(&a), vec![(0x1070, 144), (0x1000, 32)]);
}

#[test]
fn list_find_free_block_takes_the_first_fit_out() {
    let mut a = LinkedListAllocator::new();
    a.init(0x1000, 256);
    let l = layout(32, 8);
    let first = request(&mut a, l).unwrap();
    let _second = request(&mut a, l).unwrap();
    release(&mut a, first, l);
    assert_eq!(a.find_free_block(4096, 8), None);
    assert_eq!(free_blocks(&a), vec![(0x1000, 32), (0x1040, 192)]);
    assert_eq!(a.find_free_block(64, 8), Some(ListNode::new(0x1040, 192)));
    assert_eq!(free_blocks(&a), vec![(0x1000, 32)]);
    assert_eq!(a.find_free_block(32, 8), Some(ListNode::new(0x1000, 32)));
    assert!(free_blocks(&a).is_empty());
    assert_eq!(a.find_free_block(16, 8), None);
}

#[test]
fn list_neighbours_are_not_merged() {
    let mut a = LinkedListAllocator::new();
    a.init(0x1000, 64);
    let l = layout(32, 8);
    let first = request(&mut a, l).unwrap();
    let second = request(&mut a, l).unwrap();
    release(&mut a, first, l);
    release(&mut a, second, l);
    assert_eq!(free_blocks(&a), vec![(0x1020, 32), (0x1000, 32)]);
    assert_eq!(request(&mut a, layout(64, 8)), None);
    assert_eq!(request(&mut a, layout(33, 8)), None);
    assert_eq!(request(&mut a, l), Some(0x1020));
}

#[test]
fn list_round_trip_returns_the_same_address() {
    let mut a = LinkedListAllocator::new();
    a.init(0x1000, 4096);
    let _other = request(&mut a, layout(200, 8)).unwrap();
    for (size, align) in [(1, 1), (24, 8), (100, 4), (512, 8), (7, 2)] {
        let l = layout(size, align);
        let p = request(&mut a, l).unwrap();
        let after_first = free_blocks(&a);
        release(&mut a, p, l);
        assert_eq!(request(&mut a, l), Some(p));
        assert_eq!(free_blocks(&a), after_first);
        release(&mut a, p, l);
    }
}

#[test]
fn list_failed_request_changes_nothing() {
    let mut a = LinkedListAllocator::new();
    a.init(0x1000, 128);
    assert_eq!(request(&mut a, layout(64, 8)), Some(0x1000));
    let before = free_blocks(&a);
    assert_eq!(request(&mut a, layout(65, 8)), None);
    assert_eq!(request(&mut a, layout(128, 8)), None);
    assert_eq!(request(&mut a, layout(8, 128)), None);
    assert_eq!(free_blocks(&a), before);
    assert_eq!(request(&mut a, layout(64, 8)), Some(0x1040));
}

#[test]
fn list_large_alignment_can_leave_a_tail_that_is_too_short() {
    let mut a = LinkedListAllocator::new();
    a.init(8, 24);
    // the block [8, 32) holds 16 bytes at 16, but cut at 8 it would leave 8
    assert!(!a.splits_cleanly(layout(16, 16)));
    assert!(a.splits_cleanly(layout(16, 8)));
    assert_eq!(a.allocate(layout(16, 8)), None);
    assert!(a.splits_cleanly(layout(24, 8)));
    assert_eq!(a.allocate(layout(24, 8)), Some(8));
}

#[test]
fn list_large_alignment_returns_the_start_of_the_block() {
    let mut a = LinkedListAllocator::new();
    a.init(8, 48);
    let l = layout(16, 16);
    assert!(a.splits_cleanly(l));
    assert_eq!(a.allocate(l), Some(8));
    assert_eq!(free_blocks(&a), vec![(24, 32)]);
    // freed and asked for again, the block no longer fits at 16
    release(&mut a, 8, l);
    assert_eq!(free_blocks(&a), vec![(8, 16), (24, 32)]);
    assert_eq!(request(&mut a, l), None);
}

#[test]
fn list_can_dealloc_tells_what_may_come_back() {
    let mut a = LinkedListAllocator::new();
    a.init(0x1000, 256);
    let l = layout(32, 8);
    let p = request(&mut a, l).unwrap();
    assert!(a.can_dealloc(p, l));
    // overlaps the free tail
    assert!(!a.can_dealloc(p + 8, l));
    assert!(!a.can_dealloc(p, layout(40, 8)));
    // not a multiple of the node alignment
    assert!(!a.can_dealloc(p + 4, layout(8, 4)));
    // outside the heap
    assert!(!a.can_dealloc(0x0FF8, layout(8, 8)));
    assert!(!a.can_dealloc(0x1100, l));
    assert!(!a.can_dealloc(usize::MAX - 7, l));
    a.dealloc(p, l);
    // a block cannot come back twice
    assert!(!a.can_dealloc(p, l));
}

#[test]
fn list_free_bytes_follow_the_requests() {
    let mut a = LinkedListAllocator::new();
    a.init(0x1000, 1024);
    let total = |a: &LinkedListAllocator| free_blocks(a).iter().map(|b| b.1).sum::<usize>();
    assert_eq!(total(&a), 1024);
    let l1 = layout(100, 8);
    let l2 = layout(1, 1);
    let large = request(&mut a, l1).unwrap();
    assert_eq!(total(&a), 1024 - 104);
    let small = request(&mut a, l2).unwrap();
    assert_eq!(total(&a), 1024 - 104 - 16);
    assert_eq!(request(&mut a, layout(2048, 8)), None);
    assert_eq!(total(&a), 1024 - 104 - 16);
    release(&mut a, large, l1);
    assert_eq!(total(&a), 1024 - 16);
    release(&mut a, small, l2);
    assert_eq!(total(&a), 1024);
}

#[test]
fn list_stays_well_formed_under_churn() {
    let mut a = LinkedListAllocator::new();
    a.init(0x10000, 8192);
    let mut live: Vec<(usize, Layout)> = Vec::new();
    let mut seed: u32 = 12345;
    for _ in 0..2000 {
        seed = seed.wrapping_mul(1103515245).wrapping_add(12345);
        let pick = (seed >> 16) as usize;
        if pick % 3 != 0 || live.is_empty() {
            let l = layout(1 + pick % 200, 1 << (pick % 4));
            if let Some(p) = request(&mut a, l) {
                assert_eq!(p % l.align(), 0);
                for (q, m) in &live {
                    let (size, _) = LinkedListAllocator::size_align(*m).unwrap();
                    let (mine, _) = LinkedListAllocator::size_align(l).unwrap();
                    assert!(p + mine <= *q || q + size <= p);
                }
                live.push((p, l));
            }
        } else {
            let (p, l) = live.swap_remove(pick % live.len());
            release(&mut a, p, l);
        }
        assert_well_formed(&a);
        let free_total: usize = free_blocks(&a).iter().map(|b| b.1).sum();
        let live_total: usize =
            live.iter().map(|(_, l)| LinkedListAllocator::size_align(*l).unwrap().0).sum();
        assert_eq!(free_total + live_total, 8192);
    }
}

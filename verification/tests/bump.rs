use kernel_core::allocator::bump::{BumpAllocator, BumpReport};
use kernel_core::allocator::layout::Layout;

fn layout(size: usize, align: usize) -> Layout {
    Layout::from_size_align(size, align).unwrap()
}

fn report(heap_start: usize, heap_end: usize, next: usize, allocations: usize) -> BumpReport {
    BumpReport { heap_start, heap_end, next, allocations }
}

#[test]
fn bump_scenario_small_heap() {
    let mut a = BumpAllocator::new();
    a.init(0x2000, 128);
    assert_eq!(a.allocate(layout(100, 1)), Some(0x2000));
    assert_eq!(a.allocate(layout(50, 1)), None);
    assert_eq!(a.dump_free_list().allocations, 1);
    assert_eq!(a.dump_free_list(), report(0x2000, 0x2080, 0x2064, 1));
}

#[test]
fn bump_new_has_no_heap() {
    let a = BumpAllocator::new();
    assert_eq!(a.dump_free_list(), report(0, 0, 0, 0));
}

#[test]
fn bump_before_init_every_request_fails() {
    let mut a = BumpAllocator::new();
    assert_eq!(a.allocate(layout(1, 1)), None);
    assert_eq!(a.allocate(layout(64, 8)), None);
    assert_eq!(a.dump_free_list(), report(0, 0, 0, 0));
}

#[test]
fn bump_init_sets_region_and_cursor() {
    let mut a = BumpAllocator::new();
    a.init(0x4000, 0x1000);
    assert_eq!(a.dump_free_list(), report(0x4000, 0x5000, 0x4000, 0));
}

#[test]
fn bump_addresses_increase_and_are_counted() {
    let mut a = BumpAllocator::new();
    a.init(0x1000, 1024);
    let mut last = 0;
    for n in 1..=10usize {
        let p = a.allocate(layout(24, 8)).unwrap();
        assert!(p > last);
        assert_eq!(p, 0x1000 + (n - 1) * 24);
        last = p;
        assert_eq!(a.dump_free_list().allocations, n);
    }
    assert_eq!(a.dump_free_list().next, 0x1000 + 240);
}

#[test]
fn bump_pads_to_alignment() {
    let mut a = BumpAllocator::new();
    a.init(0x1000, 256);
    assert_eq!(a.allocate(layout(3, 1)), Some(0x1000));
    assert_eq!(a.allocate(layout(8, 16)), Some(0x1010));
    assert_eq!(a.allocate(layout(1, 64)), Some(0x1040));
    assert_eq!(a.dump_free_list(), report(0x1000, 0x1100, 0x1041, 3));
}

#[test]
fn bump_exact_fit_then_full() {
    let mut a = BumpAllocator::new();
    a.init(0x1000, 64);
    assert_eq!(a.allocate(layout(64, 8)), Some(0x1000));
    assert_eq!(a.allocate(layout(1, 1)), None);
    assert_eq!(a.allocate(layout(0, 1)), Some(0x1040));
    assert_eq!(a.dump_free_list(), report(0x1000, 0x1040, 0x1040, 2));
}

#[test]
fn bump_failed_request_changes_nothing() {
    let mut a = BumpAllocator::new();
    a.init(0x2000, 128);
    assert_eq!(a.allocate(layout(100, 1)), Some(0x2000));
    let before = a.dump_free_list();
    assert_eq!(a.allocate(layout(29, 1)), None);
    assert_eq!(a.allocate(layout(8, 64)), None);
    assert_eq!(a.dump_free_list(), before);
    assert_eq!(a.allocate(layout(28, 1)), Some(0x2064));
    assert_eq!(a.dump_free_list(), report(0x2000, 0x2080, 0x2080, 2));
}

#[test]
fn bump_dealloc_changes_nothing() {
    let mut a = BumpAllocator::new();
    a.init(0x2000, 128);
    let l = layout(32, 8);
    let p = a.allocate(l).unwrap();
    let before = a.dump_free_list();
    a.dealloc(p, l);
    assert_eq!(a.dump_free_list(), before);
    assert_eq!(a.allocate(l), Some(0x2020));
}

#[test]
fn bump_address_overflow_is_a_failure() {
    let mut a = BumpAllocator::new();
    let top = usize::MAX - 15;
    a.init(top, 15);
    assert_eq!(a.allocate(layout(8, 1)), Some(top));
    assert_eq!(a.allocate(layout(1, 4096)), None);
    assert_eq!(a.allocate(layout(16, 1)), None);
    assert_eq!(a.dump_free_list(), report(top, usize::MAX, top + 8, 1));
}

#[test]
fn bump_granted_bytes_stay_within_capacity() {
    let mut a = BumpAllocator::new();
    a.init(0x1003, 500);
    let mut granted = 0;
    for n in 0..100usize {
        let before = a.dump_free_list().next;
        if a.allocate(layout(1 + n % 7, 1 << (n % 5))).is_some() {
            granted += a.dump_free_list().next - before;
        }
        let r = a.dump_free_list();
        assert!(r.heap_start <= r.next && r.next <= r.heap_end);
    }
    assert!(granted <= 500);
    assert_eq!(granted, a.dump_free_list().next - 0x1003);
}

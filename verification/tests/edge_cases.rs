use region_alloc::RegionAllocator;

#[test]
fn starts_empty() {
    let mut alloc = RegionAllocator::new();
    assert_eq!(alloc.len(), 0);
    assert!(alloc.is_empty());
    assert!(!alloc.check_point(0));
    assert!(!alloc.check_region(0, 0));
    assert!(!alloc.allocate_by_addr(0, 0));
    assert_eq!(alloc.allocate_by_size(0, 1), None);
    // subtracting from the empty set is a no-op
    alloc.subtract(0, 10);
    assert!(alloc.is_empty());
}

#[test]
fn zero_size_add_is_stored() {
    let mut alloc = RegionAllocator::new();
    alloc.add(5, 0);
    assert_eq!(alloc.len(), 1);
    assert!(alloc.check_region(5, 0));
    assert!(alloc.check_point(5));
    assert!(!alloc.check_point(4));
    assert!(!alloc.check_point(6));
    // adding it again merges with itself
    alloc.add(5, 0);
    assert_eq!(alloc.len(), 1);
    // a range ending at its base absorbs it
    alloc.add(3, 2);
    assert_eq!(alloc.len(), 1);
    assert!(alloc.check_region(3, 2));
}

#[test]
fn zero_size_subtract_splits_in_place() {
    let mut alloc = RegionAllocator::new();
    alloc.add(0, 10);
    // a zero-size cut strictly inside a region splits it into two adjacent
    // halves that together cover exactly what the region covered
    alloc.subtract(5, 0);
    assert_eq!(alloc.len(), 2);
    assert!(alloc.check_region(0, 5));
    assert!(alloc.check_region(5, 5));
    for p in 0..10 {
        assert!(alloc.check_point(p));
    }
}

#[test]
fn adjacent_regions_merge() {
    let mut alloc = RegionAllocator::new();
    alloc.add(0, 10);
    alloc.add(10, 10);
    assert_eq!(alloc.len(), 1);
    assert!(alloc.check_region(0, 20));
}

#[test]
fn subtract_consumes_whole_region() {
    let mut alloc = RegionAllocator::new();
    alloc.add(10, 5);
    alloc.subtract(0, 100);
    assert!(alloc.is_empty());
    assert!(!alloc.check_point(12));
}

#[test]
fn check_region_is_exact_match_only() {
    let mut alloc = RegionAllocator::new();
    alloc.add(0, 100);
    // a sub-range of a stored region is not a stored region
    assert!(!alloc.check_region(0, 50));
    assert!(!alloc.check_region(10, 20));
    assert!(alloc.check_region(0, 100));
}

#[test]
fn allocate_by_addr_needs_one_containing_region() {
    let mut alloc = RegionAllocator::new();
    alloc.add(0, 40);
    alloc.add(45, 40);
    // the request spans the gap between two stored regions
    assert!(!alloc.allocate_by_addr(30, 20));
    // the request reaches outside the tracked set
    assert!(!alloc.allocate_by_addr(80, 20));
    // a request on a region boundary, half-open, is granted
    assert!(alloc.allocate_by_addr(20, 20));
    assert!(alloc.check_region(0, 20));
}

#[test]
fn top_of_address_space() {
    let mut alloc = RegionAllocator::new();
    alloc.add(usize::MAX - 10, 10);
    assert!(alloc.check_region(usize::MAX - 10, 10));
    assert!(alloc.check_point(usize::MAX - 1));
    assert!(alloc.check_point(usize::MAX));
    assert!(alloc.allocate_by_addr(usize::MAX - 5, 5));
    assert!(alloc.check_region(usize::MAX - 10, 5));
}

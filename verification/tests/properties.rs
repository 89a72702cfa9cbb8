use region_alloc::RegionAllocator;

#[test]
fn coverage_after_add() {
    let mut alloc = RegionAllocator::new();
    alloc.add(10, 5);
    assert!(!alloc.check_point(9));
    assert!(alloc.check_point(10));
    assert!(alloc.check_point(12));
    assert!(alloc.check_point(14));
    // the point test is inclusive at the right boundary too
    assert!(alloc.check_point(15));
    assert!(!alloc.check_point(16));
}

#[test]
fn coverage_preserved_by_add() {
    let mut alloc = RegionAllocator::new();
    alloc.add(0, 4);
    alloc.add(20, 4);
    alloc.add(10, 2);
    // old coverage is intact, the new range is covered
    assert!(alloc.check_point(0));
    assert!(alloc.check_point(3));
    assert!(alloc.check_point(21));
    assert!(alloc.check_point(10));
    assert!(alloc.check_point(11));
    assert!(!alloc.check_point(8));
    assert!(!alloc.check_point(15));
}

#[test]
fn coverage_after_subtract() {
    let mut alloc = RegionAllocator::new();
    alloc.add(0, 10);
    alloc.subtract(3, 4);
    assert_eq!(alloc.len(), 2);
    assert!(alloc.check_region(0, 3));
    assert!(alloc.check_region(7, 3));
    // the interior of the subtracted range is no longer covered
    assert!(!alloc.check_point(4));
    assert!(!alloc.check_point(5));
    assert!(!alloc.check_point(6));
    // but the left cut point stays covered by the inclusive point test
    assert!(alloc.check_point(3));
    assert!(alloc.check_point(7));
    // coverage outside the range is unchanged
    assert!(alloc.check_point(0));
    assert!(alloc.check_point(2));
    assert!(alloc.check_point(8));
    assert!(alloc.check_point(9));
}

#[test]
fn round_trip_disjoint() {
    let mut alloc = RegionAllocator::new();
    alloc.add(0, 10);
    alloc.add(20, 10);
    // a range that overlaps nothing comes and goes without a trace
    alloc.add(40, 5);
    alloc.subtract(40, 5);
    assert_eq!(alloc.len(), 2);
    assert!(alloc.check_region(0, 10));
    assert!(alloc.check_region(20, 10));
    // a range that merely touches a stored region is restored too
    alloc.add(10, 5);
    alloc.subtract(10, 5);
    assert_eq!(alloc.len(), 2);
    assert!(alloc.check_region(0, 10));
    assert!(alloc.check_region(20, 10));
}

#[test]
fn round_trip_overlap() {
    let mut alloc = RegionAllocator::new();
    alloc.add(0, 10);
    // the range overlapped a stored region: the round trip leaves the prior
    // set minus the range
    alloc.add(5, 10);
    alloc.subtract(5, 10);
    assert_eq!(alloc.len(), 1);
    assert!(alloc.check_region(0, 5));
}

#[test]
fn allocation_exclusive_by_size() {
    let mut alloc = RegionAllocator::new();
    alloc.add(0, 100);
    let first = alloc.allocate_by_size(10, 8).unwrap();
    let second = alloc.allocate_by_size(10, 8).unwrap();
    assert_eq!(first, (0, 10));
    assert_eq!(second, (16, 10));
    // the two allocated ranges do not overlap
    assert!(first.0 + first.1 <= second.0);
}

#[test]
fn allocation_exclusive_by_addr() {
    let mut alloc = RegionAllocator::new();
    alloc.add(0, 100);
    assert!(alloc.allocate_by_addr(30, 20));
    // the exact same request cannot be granted twice
    assert!(!alloc.allocate_by_addr(30, 20));
    assert_eq!(alloc.len(), 2);
    assert!(alloc.check_region(0, 30));
    assert!(alloc.check_region(50, 50));
}

#[test]
fn alignment_must_be_a_power_of_two() {
    let mut alloc = RegionAllocator::new();
    alloc.add(0, 1000);
    assert_eq!(alloc.allocate_by_size(1, 0), None);
    assert_eq!(alloc.allocate_by_size(1, 3), None);
    assert_eq!(alloc.allocate_by_size(1, 12), None);
    // the set is untouched by the rejected requests
    assert!(alloc.check_region(0, 1000));
    assert_eq!(alloc.allocate_by_size(1, 1), Some((0, 1)));
}

#[test]
fn allocate_by_size_picks_lowest_feasible_base() {
    let mut alloc = RegionAllocator::new();
    alloc.add(0, 5);
    alloc.add(10, 20);
    // the first region is too small, the second hosts an aligned block
    assert_eq!(alloc.allocate_by_size(8, 4), Some((12, 8)));
    assert!(alloc.check_region(0, 5));
    assert!(alloc.check_region(10, 2));
    assert!(alloc.check_region(20, 10));
}

#[test]
fn allocate_by_size_skips_region_without_aligned_room() {
    let mut alloc = RegionAllocator::new();
    alloc.add(6, 11);
    alloc.add(32, 16);
    // [6, 17) holds 11 addresses but only 9 past the aligned base 8
    assert_eq!(alloc.allocate_by_size(10, 8), Some((32, 10)));
    assert!(alloc.check_region(6, 11));
    assert!(alloc.check_region(42, 6));
}

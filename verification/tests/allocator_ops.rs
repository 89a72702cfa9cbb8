use region_alloc::RegionAllocator;

#[test]
fn add_test_2() {
    let mut alloc = RegionAllocator::new();
    alloc.add(0, 500);
    alloc.add(600, 100);
    assert!(alloc.check_region(0, 500));
    assert!(alloc.check_region(600, 100));
    alloc.add(500, 100);
    assert!(alloc.check_region(0, 700));
}

#[test]
fn add_test() {
    let mut alloc = RegionAllocator::new();
    // Case 1: not intersecting
    alloc.add(0, 100);
    alloc.add(200, 300);
    alloc.add(600, 100);
    assert!(alloc.check_region(0, 100));
    assert!(alloc.check_region(200, 300));
    assert!(alloc.check_region(600, 100));
    // Case 2: extending tail
    alloc.add(100, 50);
    assert!(!alloc.check_region(0, 100));
    assert!(alloc.check_region(0, 150));
    assert!(alloc.check_region(200, 300));
    assert!(alloc.check_region(600, 100));
    alloc.add(100, 60);
    assert!(alloc.check_region(0, 160));
    // Case 3: extending head
    alloc.add(180, 20);
    assert!(alloc.check_region(180, 320));
    alloc.add(165, 60);
    assert!(alloc.check_region(165, 335));
    assert!(alloc.check_region(600, 100));
    // Case 4: merging two blocks
    alloc.add(160, 5);
    assert!(alloc.check_region(0, 500));
    assert!(alloc.check_region(600, 100));
    alloc.add(500, 100);
    assert!(alloc.check_region(0, 700));
}

#[test]
fn sub_test() {
    let mut alloc = RegionAllocator::new();
    alloc.add(0, 100);
    alloc.add(200, 300);
    alloc.add(600, 100);
    // Case 1: not intersecting
    alloc.subtract(500, 100);
    assert_eq!(alloc.len(), 3);
    // Case 2: trimming head
    alloc.subtract(500, 150);
    assert!(alloc.check_region(650, 50));
    assert!(!alloc.check_region(600, 50));
    // Case 3: trimming tail
    alloc.subtract(680, 44);
    assert!(alloc.check_region(650, 30));
    // Case 4: removing a whole
    alloc.subtract(500, 300);
    assert!(!alloc.check_region(650, 50));
    assert_eq!(alloc.len(), 2);
    // Case 5: trimming both head and tail
    alloc.subtract(50, 200);
    assert!(alloc.check_region(0, 50));
    assert!(alloc.check_region(250, 250));
    assert_eq!(alloc.len(), 2);
    // Case 6: cut in the middle
    alloc.subtract(300, 100);
    assert!(alloc.check_region(250, 50));
    assert!(alloc.check_region(400, 100));
    assert_eq!(alloc.len(), 3);
}

#[test]
fn alloc_test() {
    let mut alloc = RegionAllocator::new();
    alloc.add(0, 100);
    alloc.add(200, 300);
    alloc.add(600, 200);
    // Case 1: successful alloc
    assert_eq!(alloc.allocate_by_addr(10, 10), true);
    assert_eq!(alloc.allocate_by_size(12, 1 << 3), Some((24, 12)));
    // Case 2: invalid args
    assert_eq!(alloc.allocate_by_size(1, 9), None);
    // Case 3: unsuccessful alloc
    assert_eq!(alloc.allocate_by_addr(0, 20), false);
    assert_eq!(alloc.allocate_by_addr(30, 20), false);
    assert_eq!(alloc.allocate_by_size(400, 1), None);
    assert_eq!(alloc.allocate_by_size(300, 1 << 5), None);
    // Change regions and alloc again
    alloc.add(500, 100);
    assert_eq!(alloc.allocate_by_size(400, 1 << 6), Some((256, 400)));
}

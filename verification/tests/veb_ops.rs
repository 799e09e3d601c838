use jangal::vEB;

#[test]
fn test_veb_core_operations() {
    let mut veb = vEB::new(16).unwrap();

    // Test empty state
    assert_eq!(veb.minimum(), None);
    assert_eq!(veb.maximum(), None);
    assert!(!veb.contains(&5));

    // Test insertion and basic properties
    veb.insert(5).unwrap();
    veb.insert(3).unwrap();
    veb.insert(7).unwrap();

    assert_eq!(veb.minimum(), Some(3));
    assert_eq!(veb.maximum(), Some(7));
    assert!(veb.contains(&3));
    assert!(veb.contains(&5));
    assert!(veb.contains(&7));
    assert!(!veb.contains(&4));
}

#[test]
fn test_veb_universe_size_2() {
    // Test that universe size 2 is valid and works correctly
    let mut veb = vEB::new(2).unwrap();

    // Verify the vEB tree was created successfully
    assert_eq!(veb.universe_size(), 2);
    assert_eq!(veb.size(), 0);
    assert!(veb.is_empty());

    // Test insertion of valid elements (0 and 1)
    veb.insert(0).unwrap();
    assert_eq!(veb.size(), 1);
    assert!(veb.contains(&0));
    assert!(!veb.contains(&1));
    assert_eq!(veb.minimum(), Some(0));
    assert_eq!(veb.maximum(), Some(0));

    veb.insert(1).unwrap();
    assert_eq!(veb.size(), 2);
    assert!(veb.contains(&0));
    assert!(veb.contains(&1));
    assert_eq!(veb.minimum(), Some(0));
    assert_eq!(veb.maximum(), Some(1));
}

#[test]
#[should_panic]
fn test_veb_universe_size_1_panics() {
    // Universe size 1 must fail construction
    let _veb = vEB::new(1).unwrap();
}

#[test]
#[should_panic]
fn test_veb_universe_size_3_panics() {
    // Universe size 3 (not a power of 2) must fail construction
    let _veb = vEB::new(3).unwrap();
}

#[test]
fn test_veb_tree_access_methods() {
    let mut veb = vEB::new(16).unwrap();
    veb.insert(5).unwrap();
    veb.insert(3).unwrap();
    veb.insert(7).unwrap();

    // Test the vEB tree's own size method
    assert_eq!(veb.size(), 3);
    assert!(!veb.is_empty());
}

#[test]
fn test_veb_advanced_operations() {
    let mut veb = vEB::new(32).unwrap();

    // Insert sequence for successor/predecessor testing
    for i in 0..10 {
        veb.insert(i).unwrap();
    }

    // Test successor chain
    let mut current = veb.minimum().unwrap();
    for expected in 1..10 {
        current = veb.successor(&current).unwrap();
        assert_eq!(current, expected);
    }
    assert_eq!(veb.successor(&current), None);

    // Test predecessor chain
    let mut current = veb.maximum().unwrap();
    for expected in (0..9).rev() {
        current = veb.predecessor(&current).unwrap();
        assert_eq!(current, expected);
    }
    assert_eq!(veb.predecessor(&current), None);
}

#[test]
fn test_veb_deletion_and_recovery() {
    let mut veb = vEB::new(16).unwrap();

    // Build tree
    veb.insert(3).unwrap();
    veb.insert(5).unwrap();
    veb.insert(7).unwrap();

    // Delete middle element
    veb.delete(&5);

    assert!(!veb.contains(&5));
    assert_eq!(veb.minimum(), Some(3));
    assert_eq!(veb.maximum(), Some(7));

    // Reinsert and verify restoration
    veb.insert(5).unwrap();
    assert!(veb.contains(&5));
    assert_eq!(veb.successor(&3), Some(5));
    assert_eq!(veb.successor(&5), Some(7));
    assert_eq!(veb.predecessor(&7), Some(5));
}

#[test]
fn test_veb_cluster_size() {
    let mut veb = vEB::new(4).unwrap();
    assert_eq!(veb.universe_size(), 4);
    assert_eq!(veb.cluster_size(), 2);
    let num_clusters = veb.universe_size() / veb.cluster_size();
    assert_eq!(num_clusters, 2);

    veb.insert(0).unwrap();
    assert_eq!(veb.size(), 1);
    assert_eq!(veb.minimum(), Some(0));
    assert_eq!(veb.maximum(), Some(0));

    veb.insert(1).unwrap();
    assert_eq!(veb.size(), 2);
    assert_eq!(veb.minimum(), Some(0));
    assert_eq!(veb.maximum(), Some(1));

    veb.insert(2).unwrap();
    assert_eq!(veb.size(), 3);
    assert_eq!(veb.minimum(), Some(0));
    assert_eq!(veb.maximum(), Some(2));

    veb.insert(3).unwrap();
    assert_eq!(veb.size(), 4);
    assert_eq!(veb.minimum(), Some(0));
    assert_eq!(veb.maximum(), Some(3));
}

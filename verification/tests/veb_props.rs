use jangal::vEB;
use jangal::VebError;

#[test]
fn test_round_trip_membership() {
    let mut veb = vEB::new(64).unwrap();
    veb.insert(17).unwrap();
    assert!(veb.contains(&17));
    veb.insert(4).unwrap();
    veb.insert(63).unwrap();
    veb.delete(&4);
    assert!(veb.contains(&17));
    veb.delete(&17);
    assert!(!veb.contains(&17));
}

#[test]
fn test_insert_idempotent() {
    let mut veb = vEB::new(16).unwrap();
    assert_eq!(veb.insert(9), Ok(true));
    assert_eq!(veb.size(), 1);
    assert_eq!(veb.insert(9), Ok(false));
    assert_eq!(veb.size(), 1);
    // an interior value, routed into a cluster, is absorbed the same way
    veb.insert(2).unwrap();
    veb.insert(14).unwrap();
    assert_eq!(veb.size(), 3);
    assert_eq!(veb.insert(9), Ok(false));
    assert_eq!(veb.size(), 3);
}

#[test]
fn test_count_accuracy() {
    let mut veb = vEB::new(32).unwrap();
    let values = [5, 1, 30, 1, 5, 12];
    // 4 distinct values inserted
    for v in values {
        veb.insert(v).unwrap();
    }
    assert_eq!(veb.size(), 4);
    veb.delete(&1);
    assert_eq!(veb.size(), 3);
    // deleting an absent value does not change the count
    veb.delete(&1);
    assert_eq!(veb.size(), 3);
    veb.delete(&5);
    veb.delete(&12);
    veb.delete(&30);
    assert_eq!(veb.size(), 0);
    assert!(veb.is_empty());
}

#[test]
fn test_universe_two_boundary() {
    let mut veb = vEB::new(2).unwrap();
    veb.insert(0).unwrap();
    veb.insert(1).unwrap();
    assert_eq!(veb.min(), Some(0));
    assert_eq!(veb.max(), Some(1));
    veb.delete(&0);
    assert_eq!(veb.min(), Some(1));
    assert_eq!(veb.max(), Some(1));
    veb.delete(&1);
    assert!(veb.is_empty());
    assert_eq!(veb.min(), None);
    assert_eq!(veb.max(), None);
}

#[test]
fn test_invalid_universe() {
    assert_eq!(vEB::new(0).unwrap_err(), VebError::InvalidUniverse);
    assert_eq!(vEB::new(1).unwrap_err(), VebError::InvalidUniverse);
    assert_eq!(vEB::new(3).unwrap_err(), VebError::InvalidUniverse);
    assert_eq!(vEB::new(12).unwrap_err(), VebError::InvalidUniverse);
    assert_eq!(vEB::new(usize::MAX).unwrap_err(), VebError::InvalidUniverse);
}

#[test]
fn test_insert_out_of_range() {
    let mut veb = vEB::new(16).unwrap();
    assert_eq!(veb.insert(16), Err(VebError::OutOfRange));
    assert_eq!(veb.insert(100), Err(VebError::OutOfRange));
    assert_eq!(veb.size(), 0);
    // queries treat out-of-range values as benign
    assert!(!veb.contains(&16));
    assert_eq!(veb.successor(&16), None);
    assert_eq!(veb.predecessor(&16), None);
    veb.delete(&16);
    assert_eq!(veb.size(), 0);
}

#[test]
fn test_scenario_sixteen() {
    let mut veb = vEB::new(16).unwrap();
    veb.insert(3).unwrap();
    veb.insert(5).unwrap();
    veb.insert(7).unwrap();
    veb.insert(9).unwrap();
    assert_eq!(veb.successor(&2), Some(3));
    assert_eq!(veb.successor(&9), None);
    assert_eq!(veb.predecessor(&10), Some(9));
    assert_eq!(veb.predecessor(&3), None);
    veb.delete(&5);
    assert!(!veb.contains(&5));
    assert_eq!(veb.successor(&3), Some(7));
}

#[test]
fn test_scenario_multiples_of_seven() {
    let mut veb = vEB::new(1024).unwrap();
    let mut expected: usize = 0;
    let mut count: usize = 0;
    while expected < 1024 {
        veb.insert(expected).unwrap();
        expected += 7;
        count += 1;
    }
    assert_eq!(count, 147);
    assert_eq!(veb.size(), 147);
    // the successor chain reproduces the multiples in order
    let mut current = veb.min().unwrap();
    assert_eq!(current, 0);
    let mut seen: usize = 1;
    while let Some(next) = veb.successor(&current) {
        assert_eq!(next, current + 7);
        current = next;
        seen += 1;
    }
    assert_eq!(current, 1022);
    assert_eq!(seen, 147);
}

#[test]
fn test_split_round_trip_odd_universes() {
    // universes whose exponent is odd exercise the asymmetric split
    for u in [8usize, 32, 128] {
        let mut veb = vEB::new(u).unwrap();
        let mut v: usize = 0;
        while v < u {
            veb.insert(v).unwrap();
            v += 3;
        }
        let mut w: usize = 0;
        while w < u {
            assert_eq!(veb.contains(&w), w % 3 == 0);
            w += 1;
        }
        // every inserted value is recovered, in order, by the chain
        let mut current = veb.min().unwrap();
        assert_eq!(current, 0);
        while let Some(next) = veb.successor(&current) {
            assert_eq!(next, current + 3);
            current = next;
        }
        assert_eq!(current, (u - 1) / 3 * 3);
    }
}

#[test]
fn test_cluster_size_values() {
    assert_eq!(vEB::new(2).unwrap().cluster_size(), 1);
    assert_eq!(vEB::new(4).unwrap().cluster_size(), 2);
    assert_eq!(vEB::new(8).unwrap().cluster_size(), 2);
    assert_eq!(vEB::new(16).unwrap().cluster_size(), 4);
    assert_eq!(vEB::new(32).unwrap().cluster_size(), 4);
    assert_eq!(vEB::new(64).unwrap().cluster_size(), 8);
    assert_eq!(vEB::new(1024).unwrap().cluster_size(), 32);
}

#[test]
fn test_delete_min_promotion() {
    let mut veb = vEB::new(64).unwrap();
    veb.insert(10).unwrap();
    veb.insert(20).unwrap();
    veb.insert(30).unwrap();
    // deleting the minimum promotes the smallest stored value
    veb.delete(&10);
    assert_eq!(veb.min(), Some(20));
    assert_eq!(veb.max(), Some(30));
    veb.delete(&30);
    assert_eq!(veb.min(), Some(20));
    assert_eq!(veb.max(), Some(20));
    veb.delete(&20);
    assert!(veb.is_empty());
}

#[test]
fn test_delete_max_recompute() {
    let mut veb = vEB::new(64).unwrap();
    for v in [3usize, 9, 11, 40, 41] {
        veb.insert(v).unwrap();
    }
    veb.delete(&41);
    assert_eq!(veb.max(), Some(40));
    veb.delete(&40);
    assert_eq!(veb.max(), Some(11));
    assert_eq!(veb.predecessor(&40), Some(11));
    assert_eq!(veb.size(), 3);
}

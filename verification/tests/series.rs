use chartbuf::util::{Bounds, Data};

#[test]
fn bounds_update() {
    let mut b = Bounds::from_value(0, 0);
    b.update(1, 1);
    b.update(2, -1);
    assert_eq!(
        b,
        Bounds {
            max: 1,
            min: -1,
            max_index: 1,
            min_index: 2,
        }
    );
}

#[test]
fn data_cap() {
    let mut data = Data::with_capacity(3);
    assert_eq!(data.push(2), None);
    assert_eq!(data.push(1), None);
    assert_eq!(data.push(-1), None);
    assert_eq!(
        data.bounds(),
        Some(Bounds {
            max: 2,
            min: -1,
            max_index: 0,
            min_index: 2,
        })
    );
    assert_eq!(data.push(0), Some(2));
    assert_eq!(data.iter(), vec![1, -1, 0]);
    assert_eq!(data.get(0), None);
    assert_eq!(data.get(3), Some(0));
    assert_eq!(
        data.bounds(),
        Some(Bounds {
            max: 1,
            min: -1,
            max_index: 1,
            min_index: 2,
        })
    );
}

#[test]
fn bounds_ties_keep_earliest() {
    let mut b = Bounds::from_value(0, 7);
    b.update(1, 7);
    assert_eq!(b.max_index, 0);
    assert_eq!(b.min_index, 0);
    b.update(2, 9);
    b.update(3, 9);
    assert_eq!(b.max, 9);
    assert_eq!(b.max_index, 2);
}

#[test]
fn update_max_min_report_strict_improvement() {
    let mut b = Bounds::from_value(0, 5);
    assert!(!b.update_max(1, 5));
    assert!(b.update_max(2, 6));
    assert!(!b.update_min(3, 5));
    assert!(b.update_min(4, 4));
    assert_eq!(
        b,
        Bounds {
            max: 6,
            min: 4,
            max_index: 2,
            min_index: 4,
        }
    );
}

#[test]
fn window_retains_most_recent() {
    let mut data = Data::with_capacity(2);
    for v in 0..5 {
        data.push(v);
        assert!(data.len() <= 2);
    }
    // five pushes through capacity 2: logical indices 0..3 are gone
    for i in 0..3 {
        assert_eq!(data.get(i), None);
    }
    assert_eq!(data.get(3), Some(3));
    assert_eq!(data.get(4), Some(4));
    assert_eq!(data.get(5), None);
    assert_eq!(data.iter(), vec![3, 4]);
    assert_eq!(data.enumerate(), vec![(3, 3), (4, 4)]);
}

#[test]
fn eviction_rescan_finds_new_element() {
    // the evicted element held the maximum, and the new element is the
    // largest among what remains
    let mut data = Data::with_capacity(2);
    data.push(5);
    data.push(1);
    assert_eq!(data.push(3), Some(5));
    assert_eq!(data.iter(), vec![1, 3]);
    assert_eq!(
        data.bounds(),
        Some(Bounds {
            max: 3,
            min: 1,
            max_index: 2,
            min_index: 1,
        })
    );
}

#[test]
fn eviction_rescan_tie_keeps_earliest() {
    // two copies of the maximum: evicting the first leaves the record to
    // the earliest retained copy
    let mut data = Data::with_capacity(3);
    data.push(5);
    data.push(5);
    data.push(1);
    assert_eq!(data.push(2), Some(5));
    assert_eq!(
        data.bounds(),
        Some(Bounds {
            max: 5,
            min: 1,
            max_index: 1,
            min_index: 2,
        })
    );
}

#[test]
fn eviction_of_minimum() {
    let mut data = Data::with_capacity(3);
    data.push(-4);
    data.push(2);
    data.push(8);
    assert_eq!(data.push(0), Some(-4));
    assert_eq!(
        data.bounds(),
        Some(Bounds {
            max: 8,
            min: 0,
            max_index: 2,
            min_index: 3,
        })
    );
}

#[test]
fn zero_capacity_is_inert() {
    let mut data = Data::with_capacity(0);
    assert_eq!(data.push(1), None);
    assert_eq!(data.push(-7), None);
    assert_eq!(data.len(), 0);
    assert_eq!(data.bounds(), None);
    assert_eq!(data.get(0), None);
    assert_eq!(data.iter(), Vec::<i32>::new());
}

#[test]
fn unbounded_never_evicts() {
    let mut data = Data::new();
    for v in 0..100 {
        assert_eq!(data.push(v), None);
    }
    assert_eq!(data.len(), 100);
    assert_eq!(data.get(0), Some(0));
    assert_eq!(data.get(99), Some(99));
    assert_eq!(
        data.bounds(),
        Some(Bounds {
            max: 99,
            min: 0,
            max_index: 99,
            min_index: 0,
        })
    );
}

#[test]
fn clear_resets_logical_indices() {
    let mut data = Data::with_capacity(3);
    data.push(10);
    data.push(20);
    data.clear();
    assert_eq!(data.len(), 0);
    assert_eq!(data.bounds(), None);
    assert_eq!(data.get(0), None);
    // a fresh push gets logical index 0 again
    data.push(7);
    assert_eq!(data.get(0), Some(7));
    assert_eq!(
        data.bounds(),
        Some(Bounds {
            max: 7,
            min: 7,
            max_index: 0,
            min_index: 0,
        })
    );
}

#[test]
fn single_element_bounds_coincide() {
    let mut data = Data::with_capacity(5);
    data.push(42);
    let b = data.bounds().unwrap();
    assert_eq!(b.max, b.min);
    assert_eq!(b.max_index, b.min_index);
}

#[test]
fn update_iter_rescans_window() {
    let mut data = Data::with_capacity(3);
    data.push(2);
    data.push(9);
    data.push(4);
    let mut b = Bounds::from_value(0, 0);
    b.update_max_iter(&data);
    b.update_min_iter(&data);
    assert_eq!(
        b,
        Bounds {
            max: 9,
            min: 2,
            max_index: 1,
            min_index: 0,
        }
    );
}

#[test]
fn bounds_track_true_extrema() {
    let mut data = Data::with_capacity(4);
    let samples = [3, -1, 4, -1, 5, 9, -2, 6, 5, 3];
    for (i, &v) in samples.iter().enumerate() {
        data.push(v);
        let retained = data.iter();
        let b = data.bounds().unwrap();
        let true_max: i32 = retained.iter().copied().max().unwrap();
        let true_min: i32 = retained.iter().copied().min().unwrap();
        assert_eq!(b.max, true_max);
        assert_eq!(b.min, true_min);
        // the recorded index is the first retained position attaining it
        let start: usize = i.saturating_sub(3);
        let first_max: usize = start + retained.iter().position(|&v| v == true_max).unwrap();
        let first_min: usize = start + retained.iter().position(|&v| v == true_min).unwrap();
        assert_eq!(b.max_index, first_max);
        assert_eq!(b.min_index, first_min);
    }
}

use chartbuf::model::{Bounds, Model};

#[test]
fn box_new_and_from() {
    assert_eq!(
        Bounds::new(),
        Bounds {
            x_min: 0,
            y_min: 0,
            x_max: 0,
            y_max: 0,
        }
    );
    assert_eq!(
        Bounds::from(3, -2),
        Bounds {
            x_min: 3,
            y_min: -2,
            x_max: 3,
            y_max: -2,
        }
    );
}

#[test]
fn box_update_expands() {
    let b = Bounds::from(1, 1).update(4, -3).update(-2, 2);
    assert_eq!(
        b,
        Bounds {
            x_min: -2,
            y_min: -3,
            x_max: 4,
            y_max: 2,
        }
    );
    assert_eq!(b.x_range(), 6);
    assert_eq!(b.y_range(), 5);
}

#[test]
fn box_range_of_extremes() {
    let b = Bounds::from(i32::MAX, i32::MAX).update(i32::MIN, i32::MIN);
    assert_eq!(b.x_range(), (i32::MAX as i64) - (i32::MIN as i64));
    assert_eq!(b.y_range(), (i32::MAX as i64) - (i32::MIN as i64));
}

#[test]
fn model_tracks_windows_and_sums() {
    let mut m = Model::with_capacity(3);
    m.push(1, 10);
    m.push(2, 20);
    m.push(3, 30);
    m.push(4, 40);
    assert_eq!(m.len(), 3);
    assert_eq!(m.xs(), vec![2, 3, 4]);
    assert_eq!(m.ys(), vec![20, 30, 40]);
    assert_eq!(m.sum(), 90);
    assert_eq!(m.sqsum(), 400 + 900 + 1600);
    let b = m.bounds().unwrap();
    assert_eq!(
        b,
        Bounds {
            x_min: 2,
            y_min: 20,
            x_max: 4,
            y_max: 40,
        }
    );
}

#[test]
fn model_mean_matches_direct_scan() {
    let mut m = Model::with_capacity(4);
    let samples = [(0, 3), (1, -7), (2, 12), (3, 5), (4, -1), (5, 8), (6, 0)];
    for &(x, y) in samples.iter() {
        m.push(x, y);
        let ys: Vec<i32> = m.ys();
        let n: usize = m.len();
        assert_eq!(n, ys.len());
        let direct: i128 = ys.iter().map(|&v| v as i128).sum();
        assert_eq!(m.sum(), direct);
        let mean = m.sum() as f64 / n as f64;
        let direct_mean = direct as f64 / n as f64;
        assert!((mean - direct_mean).abs() < 1e-9);
    }
}

#[test]
fn model_variance_from_sums() {
    let mut m = Model::new();
    for &y in [2, 4, 4, 4, 5, 5, 7, 9].iter() {
        m.push(0, y);
    }
    let n = m.len() as f64;
    let mean = m.sum() as f64 / n;
    let var = m.sqsum() as f64 / n - mean * mean;
    assert!((mean - 5.0).abs() < 1e-9);
    assert!((var - 4.0).abs() < 1e-9);
    assert!((var.sqrt() - 2.0).abs() < 1e-9);
}

#[test]
fn model_zero_capacity_is_inert() {
    let mut m = Model::with_capacity(0);
    m.push(1, 2);
    m.push(3, 4);
    assert_eq!(m.len(), 0);
    assert_eq!(m.sum(), 0);
    assert_eq!(m.bounds(), None);
    assert_eq!(m.xs(), Vec::<i32>::new());
}

#[test]
fn model_clear_restarts() {
    let mut m = Model::with_capacity(5);
    m.push(1, 2);
    m.push(3, 4);
    m.clear();
    assert_eq!(m.len(), 0);
    assert_eq!(m.sum(), 0);
    assert_eq!(m.sqsum(), 0);
    assert_eq!(m.bounds(), None);
    m.push(9, -9);
    assert_eq!(m.len(), 1);
    assert_eq!(m.sum(), -9);
}

#[test]
fn single_sample_centers_both_axes() {
    let mut m = Model::with_capacity(10);
    m.push(6, -3);
    let b = m.bounds().unwrap();
    assert_eq!(b.x_max, b.x_min);
    assert_eq!(b.y_max, b.y_min);
    assert_eq!(b.x_range(), 0);
    assert_eq!(b.y_range(), 0);
}

#[test]
fn model_eviction_keeps_sums_consistent() {
    let mut m = Model::with_capacity(2);
    m.push(0, i32::MAX);
    m.push(1, i32::MIN);
    m.push(2, 100);
    assert_eq!(m.ys(), vec![i32::MIN, 100]);
    assert_eq!(m.sum(), (i32::MIN as i128) + 100);
    let b = m.bounds().unwrap();
    assert_eq!(b.y_max, 100);
    assert_eq!(b.y_min, i32::MIN);
}

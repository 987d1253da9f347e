use chartbuf::stats::RunningStats;

#[test]
fn record_accumulates_sums() {
    let mut st = RunningStats::new();
    assert_eq!(st.count(), 0);
    assert_eq!(st.sum(), 0);
    assert_eq!(st.sqsum(), 0);
    st.record(3, None);
    st.record(-4, None);
    assert_eq!(st.count(), 2);
    assert_eq!(st.sum(), -1);
    assert_eq!(st.sqsum(), 25);
}

#[test]
fn record_subtracts_evicted_contribution() {
    let mut st = RunningStats::new();
    st.record(10, None);
    st.record(20, None);
    st.record(30, None);
    // the paired series evicts its oldest element, 10
    st.record(40, Some(10));
    assert_eq!(st.count(), 3);
    assert_eq!(st.sum(), (20 + 30 + 40) as i128);
    assert_eq!(st.sqsum(), (400 + 900 + 1600) as i128);
}

#[test]
fn clear_forgets_everything() {
    let mut st = RunningStats::new();
    st.record(5, None);
    st.record(6, None);
    st.clear();
    assert_eq!(st.count(), 0);
    assert_eq!(st.sum(), 0);
    assert_eq!(st.sqsum(), 0);
}

#[test]
fn extreme_values_do_not_overflow() {
    let mut st = RunningStats::new();
    for _ in 0..1000 {
        st.record(i32::MIN, None);
    }
    for _ in 0..1000 {
        st.record(i32::MAX, Some(i32::MIN));
    }
    assert_eq!(st.count(), 1000);
    assert_eq!(st.sum(), 1000 * (i32::MAX as i128));
    assert_eq!(st.sqsum(), 1000 * (i32::MAX as i128) * (i32::MAX as i128));
}

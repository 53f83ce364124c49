use netwayste::filter::ping::{LatencyFilter, LATENCY_FILTER_DEPTH};

#[test]
fn test_latency_filter_under_filled_does_not_set_latency() {
    let mut pf = LatencyFilter::new();

    (0..(LATENCY_FILTER_DEPTH - 1)).into_iter().for_each(|id| {
        pf.start(id);
        pf.set_start_time(id, 500);
        pf.update(id);
    });

    assert_eq!(pf.get_millis(), None);
}

#[test]
fn test_latency_filter_filled_sets_latency() {
    let mut pf = LatencyFilter::new();

    (0..LATENCY_FILTER_DEPTH).into_iter().for_each(|id| {
        pf.start(id);
        pf.set_start_time(id, 500);
        pf.update(id);
    });

    assert_eq!(pf.get_millis(), Some(250));

    // A few more, for good measure.
    (0..=LATENCY_FILTER_DEPTH).into_iter().for_each(|x| {
        let id = x + 100;
        pf.start(id);
        pf.set_start_time(id, 500);
        pf.update(id);
    });

    assert_eq!(pf.get_millis(), Some(250));
}

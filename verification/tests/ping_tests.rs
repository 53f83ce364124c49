use netwayste::utils::ping::{PingFilter, PING_FILTER_DEPTH};

#[test]
fn test_ping_filter_under_filled_does_not_set_latency() {
    let mut pf = PingFilter::new();

    (0..PING_FILTER_DEPTH).into_iter().for_each(|_| {
        pf.set_start_time(500);
        pf.update();
    });

    assert_eq!(pf.average_latency_ms, 0);
}

#[test]
fn test_ping_filter_filled_sets_latency() {
    let mut pf = PingFilter::new();

    (0..=PING_FILTER_DEPTH).into_iter().for_each(|_| {
        pf.set_start_time(500);
        pf.update();
    });

    assert_eq!(pf.average_latency_ms, 500);

    // Twelve more, for good measure.
    (0..=PING_FILTER_DEPTH).into_iter().for_each(|_| {
        pf.set_start_time(500);
        pf.update();
    });

    assert_eq!(pf.average_latency_ms, 500);
}

#[test]
fn test_ping_filter_filled_sets_latency_with_varying_pings() {
    let mut pf = PingFilter::new();

    (0..=PING_FILTER_DEPTH * 100).step_by(100).into_iter().for_each(|i| {
        pf.set_start_time(i as u64);
        pf.update();
    });

    assert_eq!(pf.average_latency_ms, 650);
}

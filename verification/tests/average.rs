use erldash::average::{AverageAccumulator, WindowedAggregator};
use erldash::metrics::{Metrics, MetricValue, Rate};

#[test]
fn accumulator_tracks_sum_and_count() {
    let mut acc = AverageAccumulator::new(10_000);
    assert_eq!(acc.average(), Some(10_000));
    acc.insert(20_000);
    assert_eq!(acc.running_sum, 30_000);
    assert_eq!(acc.member_count, 2);
    assert_eq!(acc.average(), Some(15_000));
    acc.evict(10_000);
    assert_eq!(acc.average(), Some(20_000));
    acc.evict(20_000);
    assert_eq!(acc.member_count, 0);
    assert_eq!(acc.average(), None);
}

#[test]
fn gauge_average_over_trailing_window() {
    // One-second polling with a window that holds two samples: after the
    // third insert the first sample ages out, and the average of the
    // gauge 10, 12, 11 sequence is (12 + 11) / 2 = 11.5.
    let second = 1_000_000u64;
    let mut agg = WindowedAggregator::new(second + second / 2);
    for (i, v) in [10u64, 12, 11].iter().enumerate() {
        let mut m = Metrics::new(0, i as u64 * second);
        m.insert("count.processes", MetricValue::gauge(*v));
        agg.on_insert(m);
        agg.evict_expired();
    }
    assert_eq!(agg.history.len(), 2);
    assert_eq!(agg.average("count.processes"), Some(11_500)); // 11.5
}

#[test]
fn average_is_absent_for_unknown_names() {
    let agg = WindowedAggregator::new(1_000_000);
    assert_eq!(agg.average("nothing"), None);
}

#[test]
fn counters_without_a_rate_are_not_counted() {
    let mut agg = WindowedAggregator::new(10_000_000);
    let mut first = Metrics::new(0, 0);
    first.insert("c", MetricValue::counter(100));
    agg.on_insert(first);
    // The first snapshot of a session projects nothing for the counter.
    assert_eq!(agg.average("c"), None);
    let mut second = Metrics::new(0, 1_000_000);
    second.insert(
        "c",
        MetricValue::Counter {
            raw_value: 400,
            rate_per_sec: Some(Rate { delta: 300, dt_micros: 1_000_000 }),
            parent: None,
        },
    );
    agg.on_insert(second);
    // Only the rated snapshot counts: 300.0 per second.
    assert_eq!(agg.average("c"), Some(300_000));
}

#[test]
fn eviction_subtracts_the_recorded_values() {
    let mut agg = WindowedAggregator::new(1_000_000);
    let mut a = Metrics::new(0, 0);
    a.insert("g", MetricValue::gauge(5));
    let mut b = Metrics::new(0, 10_000_000);
    b.insert("g", MetricValue::gauge(9));
    agg.on_insert(a);
    agg.on_insert(b);
    assert_eq!(agg.average("g"), Some(7_000));
    agg.evict_expired();
    // The first snapshot is far older than the window; only 9 remains.
    assert_eq!(agg.history.len(), 1);
    assert_eq!(agg.average("g"), Some(9_000));
}

#[test]
fn mixed_names_keep_independent_accumulators() {
    let mut agg = WindowedAggregator::new(60_000_000);
    let mut a = Metrics::new(0, 0);
    a.insert("x", MetricValue::gauge(1));
    a.insert("y", MetricValue::utilization(30_000));
    let mut b = Metrics::new(0, 1_000_000);
    b.insert("x", MetricValue::gauge(3));
    b.insert("y", MetricValue::utilization(70_000));
    agg.on_insert(a);
    agg.on_insert(b);
    assert_eq!(agg.average("x"), Some(2_000));
    assert_eq!(agg.average("y"), Some(50_000));
}

use erldash::metrics::{Metrics, MetricValue, Rate};
use erldash::text::{format_u64, format_u64_zero_padded};

fn counter_rate(m: &Metrics, name: &str) -> Option<Rate> {
    match m.get(name) {
        Some(MetricValue::Counter { rate_per_sec, .. }) => *rate_per_sec,
        other => panic!("expected a counter for {name}, got {other:?}"),
    }
}

#[test]
fn insert_and_get_behaves_like_a_map() {
    let mut m = Metrics::new(0, 0);
    m.insert("b", MetricValue::gauge(2));
    m.insert("a", MetricValue::gauge(1));
    m.insert("c", MetricValue::gauge(3));
    assert_eq!(m.len(), 3);
    match m.get("a") {
        Some(MetricValue::Gauge { value, .. }) => assert_eq!(*value, 1),
        other => panic!("unexpected {other:?}"),
    }
    m.insert("a", MetricValue::gauge(9));
    assert_eq!(m.len(), 3);
    match m.get("a") {
        Some(MetricValue::Gauge { value, .. }) => assert_eq!(*value, 9),
        other => panic!("unexpected {other:?}"),
    }
    assert!(m.get("d").is_none());
}

#[test]
fn entries_are_kept_in_name_order() {
    let mut m = Metrics::new(0, 0);
    m.insert("b.two", MetricValue::gauge(2));
    m.insert("a.one", MetricValue::gauge(1));
    m.insert("b.one", MetricValue::gauge(3));
    let names: Vec<&str> = (0..m.len()).map(|i| m.item_at(i).name.as_str()).collect();
    assert_eq!(names, vec!["a.one", "b.one", "b.two"]);
}

#[test]
fn fresh_counters_have_no_rate() {
    let mut m = Metrics::new(0, 0);
    m.insert("statistics.runtime", MetricValue::counter(1000));
    assert_eq!(counter_rate(&m, "statistics.runtime"), None);
}

#[test]
fn counter_rate_sequence_over_a_session() {
    // Raw values 1000, 1500, 1500, 2200 at one-second spacing give rates
    // absent, 500.0, 0.0, 700.0 per second.
    let raws = [1000u64, 1500, 1500, 2200];
    let second = 1_000_000u64;
    let mut rates: Vec<Option<Rate>> = Vec::new();
    let mut prev: Option<Metrics> = None;
    for (i, raw) in raws.iter().enumerate() {
        let mut m = Metrics::new(0, (i as u64 + 1) * second);
        m.insert("statistics.runtime", MetricValue::counter(*raw));
        if let Some(p) = &prev {
            m.calc_delta(p);
        }
        rates.push(counter_rate(&m, "statistics.runtime"));
        prev = Some(m);
    }
    assert_eq!(rates[0], None);
    let r1 = rates[1].unwrap();
    assert_eq!((r1.delta, r1.dt_micros), (500, second));
    assert_eq!(r1.millis(), 500_000); // 500.0 per second
    let r2 = rates[2].unwrap();
    assert_eq!((r2.delta, r2.dt_micros), (0, second));
    assert_eq!(r2.millis(), 0); // 0.0 per second
    let r3 = rates[3].unwrap();
    assert_eq!((r3.delta, r3.dt_micros), (700, second));
    assert_eq!(r3.millis(), 700_000); // 700.0 per second
}

#[test]
fn counter_reset_leaves_the_rate_absent() {
    let mut first = Metrics::new(0, 1_000_000);
    first.insert("c", MetricValue::counter(900));
    let mut second = Metrics::new(0, 2_000_000);
    second.insert("c", MetricValue::counter(100));
    second.calc_delta(&first);
    assert_eq!(counter_rate(&second, "c"), None);
}

#[test]
fn rate_spans_longer_intervals_exactly() {
    let mut first = Metrics::new(0, 0);
    first.insert("c", MetricValue::counter(0));
    let mut second = Metrics::new(0, 4_000_000);
    second.insert("c", MetricValue::counter(10));
    second.calc_delta(&first);
    let r = counter_rate(&second, "c").unwrap();
    assert_eq!(r.millis(), 2_500); // 2.5 per second
}

#[test]
fn projections_scale_to_thousandths() {
    let g = MetricValue::gauge(10);
    assert_eq!(g.projected_milli(), Some(10_000));
    let u = MetricValue::utilization(47_500);
    assert_eq!(u.projected_milli(), Some(47_500));
    let c = MetricValue::counter(5);
    assert_eq!(c.projected_milli(), None);
}

#[test]
fn dangling_parent_counts_as_root() {
    // An entry naming a parent that the snapshot does not contain is
    // still enumerable as a root.
    let mut m = Metrics::new(0, 0);
    m.insert("orphan", MetricValue::gauge_with_parent(1, "missing.parent"));
    m.insert("plain", MetricValue::gauge(2));
    let roots = m.root_items();
    let names: Vec<&str> = roots.iter().map(|i| m.item_at(*i).name.as_str()).collect();
    assert_eq!(names, vec!["orphan", "plain"]);
}

#[test]
fn children_are_grouped_under_their_parent() {
    let mut m = Metrics::new(0, 0);
    m.insert("mem", MetricValue::gauge(10));
    m.insert("mem.a", MetricValue::gauge_with_parent(4, "mem"));
    m.insert("mem.b", MetricValue::gauge_with_parent(6, "mem"));
    m.insert("other", MetricValue::gauge(1));
    let roots = m.root_items();
    let root_names: Vec<&str> = roots.iter().map(|i| m.item_at(*i).name.as_str()).collect();
    assert_eq!(root_names, vec!["mem", "other"]);
    let children = m.child_items("mem");
    let child_names: Vec<&str> = children.iter().map(|i| m.item_at(*i).name.as_str()).collect();
    assert_eq!(child_names, vec!["mem.a", "mem.b"]);
}

#[test]
fn duplicate_copies_every_entry() {
    let mut m = Metrics::new(7, 9);
    m.insert("a", MetricValue::counter(3));
    m.insert("b", MetricValue::utilization_with_parent(50_000, "a"));
    let d = m.duplicate();
    assert_eq!(d.wall_time_ms, 7);
    assert_eq!(d.timestamp_micros, 9);
    assert_eq!(d.len(), 2);
    match d.get("b") {
        Some(MetricValue::Utilization { percent_milli, parent }) => {
            assert_eq!(*percent_milli, 50_000);
            assert_eq!(parent.as_deref(), Some("a"));
        },
        other => panic!("unexpected {other:?}"),
    }
}

#[test]
fn format_u64_groups_thousands() {
    assert_eq!(format_u64(0, "  ").as_str(), "0  ");
    assert_eq!(format_u64(999, "").as_str(), "999");
    assert_eq!(format_u64(1000, "").as_str(), "1,000");
    assert_eq!(format_u64(1234567, "/s").as_str(), "1,234,567/s");
    assert_eq!(format_u64(u64::MAX, "").as_str(), "18,446,744,073,709,551,615");
}

#[test]
fn zero_padding_widens_short_numbers() {
    assert_eq!(format_u64_zero_padded(7, 3).as_str(), "007");
    assert_eq!(format_u64_zero_padded(42, 2).as_str(), "42");
    assert_eq!(format_u64_zero_padded(1234, 2).as_str(), "1234");
}

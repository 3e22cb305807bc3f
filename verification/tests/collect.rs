use erldash::collect::{build_snapshot, CollectedSample, CollectError};
use erldash::erlang::MSAccThread;
use erldash::metrics::MetricValue;

fn thread(id: u64, kind: &str, sleep: u64, busy: u64) -> MSAccThread {
    MSAccThread {
        thread_id: id,
        thread_type: String::from(kind),
        counters: vec![
            (String::from("emulator"), busy),
            (String::from("sleep"), sleep),
        ],
    }
}

fn sample() -> CollectedSample {
    CollectedSample {
        msacc_threads: vec![
            thread(1, "scheduler", 500_000, 500_000),
            thread(2, "scheduler", 900_000, 100_000),
            thread(1, "aux", 750_000, 250_000),
        ],
        process_count: 120,
        port_count: 4,
        atom_count: 9000,
        ets_count: 41,
        context_switches: 1000,
        exact_reductions: 2000,
        garbage_collection: 300,
        runtime: 5000,
        io_input_bytes: 700,
        io_output_bytes: 300,
        run_queue_lengths: vec![1, 0, 2],
        memory: vec![
            (String::from("total"), 1_000_000),
            (String::from("processes"), 600_000),
            (String::from("binary"), 150_000),
        ],
    }
}

fn gauge_of(m: &erldash::metrics::Metrics, name: &str) -> u64 {
    match m.get(name) {
        Some(MetricValue::Gauge { value, .. }) => *value,
        other => panic!("expected a gauge for {name}, got {other:?}"),
    }
}

#[test]
fn snapshot_carries_the_fixed_entries() {
    let m = build_snapshot(&sample(), 77, 88).expect("building");
    assert_eq!(m.wall_time_ms, 77);
    assert_eq!(m.timestamp_micros, 88);
    assert_eq!(gauge_of(&m, "system_info.processe_count"), 120);
    assert_eq!(gauge_of(&m, "system_info.port_count"), 4);
    assert_eq!(gauge_of(&m, "system_info.atom_count"), 9000);
    assert_eq!(gauge_of(&m, "system_info.ets_count"), 41);
    match m.get("statistics.context_switches") {
        Some(MetricValue::Counter { raw_value, rate_per_sec, .. }) => {
            assert_eq!(*raw_value, 1000);
            assert!(rate_per_sec.is_none());
        },
        other => panic!("unexpected {other:?}"),
    }
    match m.get("statistics.io.total_bytes") {
        Some(MetricValue::Counter { raw_value, .. }) => assert_eq!(*raw_value, 1000),
        other => panic!("unexpected {other:?}"),
    }
    match m.get("statistics.io.input_bytes") {
        Some(MetricValue::Counter { raw_value, parent, .. }) => {
            assert_eq!(*raw_value, 700);
            assert_eq!(parent.as_deref(), Some("statistics.io.total_bytes"));
        },
        other => panic!("unexpected {other:?}"),
    }
}

fn utilization_of(m: &erldash::metrics::Metrics, name: &str) -> (u64, Option<String>) {
    match m.get(name) {
        Some(MetricValue::Utilization { percent_milli, parent }) => {
            (*percent_milli, parent.clone())
        },
        other => panic!("expected a utilization for {name}, got {other:?}"),
    }
}

#[test]
fn snapshot_aggregates_utilization_per_thread_kind() {
    let m = build_snapshot(&sample(), 0, 0).expect("building");
    // The two schedulers were busy 600 ms of 2 s: 30%.
    assert_eq!(utilization_of(&m, "utilization.scheduler"), (30_000, None));
    // The aux thread was busy 250 ms of 1 s: 25%.
    assert_eq!(utilization_of(&m, "utilization.aux"), (25_000, None));
}

#[test]
fn snapshot_breaks_utilization_down_by_state() {
    let m = build_snapshot(&sample(), 0, 0).expect("building");
    // The schedulers spent 600 ms of their 2 s in the emulator: 30%.
    assert_eq!(
        utilization_of(&m, "utilization.scheduler.state.emulator"),
        (30_000, Some(String::from("utilization.scheduler"))),
    );
    // And 1.4 s of 2 s asleep: 70%.
    assert_eq!(
        utilization_of(&m, "utilization.scheduler.state.sleep"),
        (70_000, Some(String::from("utilization.scheduler"))),
    );
    assert_eq!(
        utilization_of(&m, "utilization.aux.state.emulator"),
        (25_000, Some(String::from("utilization.aux"))),
    );
}

#[test]
fn snapshot_breaks_utilization_down_by_thread() {
    let m = build_snapshot(&sample(), 0, 0).expect("building");
    // Scheduler 1 was busy half of its second; scheduler 2 a tenth.
    assert_eq!(
        utilization_of(&m, "utilization.scheduler.thread.1"),
        (50_000, Some(String::from("utilization.scheduler"))),
    );
    assert_eq!(
        utilization_of(&m, "utilization.scheduler.thread.2"),
        (10_000, Some(String::from("utilization.scheduler"))),
    );
    assert_eq!(
        utilization_of(&m, "utilization.aux.thread.1"),
        (25_000, Some(String::from("utilization.aux"))),
    );
}

#[test]
fn thread_children_share_a_padded_id_width() {
    let mut s = sample();
    s.msacc_threads.push(thread(12, "scheduler", 1_000_000, 0));
    let m = build_snapshot(&s, 0, 0).expect("building");
    // One scheduler id has two digits, so every scheduler id is padded
    // to two.
    assert!(m.get("utilization.scheduler.thread.01").is_some());
    assert!(m.get("utilization.scheduler.thread.12").is_some());
    assert!(m.get("utilization.scheduler.thread.1").is_none());
    // Other kinds keep their own width.
    assert!(m.get("utilization.aux.thread.1").is_some());
}

#[test]
fn every_declared_parent_is_an_entry() {
    let m = build_snapshot(&sample(), 0, 0).expect("building");
    for i in 0..m.len() {
        let item = m.item_at(i);
        if let Some(p) = item.value.parent() {
            assert!(m.get(p.as_str()).is_some(), "dangling parent {p} of {}", item.name);
        }
    }
}

#[test]
fn snapshot_sums_the_run_queues() {
    let m = build_snapshot(&sample(), 0, 0).expect("building");
    assert_eq!(gauge_of(&m, "statistics.run_queue"), 3);
    assert_eq!(gauge_of(&m, "statistics.run_queue.0"), 1);
    assert_eq!(gauge_of(&m, "statistics.run_queue.1"), 0);
    assert_eq!(gauge_of(&m, "statistics.run_queue.2"), 2);
    match m.get("statistics.run_queue.1") {
        Some(MetricValue::Gauge { parent, .. }) => {
            assert_eq!(parent.as_deref(), Some("statistics.run_queue"));
        },
        other => panic!("unexpected {other:?}"),
    }
}

#[test]
fn snapshot_files_memory_under_its_total() {
    let m = build_snapshot(&sample(), 0, 0).expect("building");
    assert_eq!(gauge_of(&m, "memory.total_bytes"), 1_000_000);
    assert_eq!(gauge_of(&m, "memory.processes_bytes"), 600_000);
    assert_eq!(gauge_of(&m, "memory.binary_bytes"), 150_000);
    match m.get("memory.binary_bytes") {
        Some(MetricValue::Gauge { parent, .. }) => {
            assert_eq!(parent.as_deref(), Some("memory.total_bytes"));
        },
        other => panic!("unexpected {other:?}"),
    }
}

#[test]
fn missing_memory_total_fails_the_cycle() {
    let mut s = sample();
    s.memory.retain(|(k, _)| k != "total");
    assert_eq!(build_snapshot(&s, 0, 0).unwrap_err(), CollectError::MissingMemoryTotal);
}

#[test]
fn overflowing_io_sum_fails_the_cycle() {
    let mut s = sample();
    s.io_input_bytes = u64::MAX;
    s.io_output_bytes = 1;
    assert_eq!(build_snapshot(&s, 0, 0).unwrap_err(), CollectError::ValueOverflow);
}

#[test]
fn overflowing_run_queue_sum_fails_the_cycle() {
    let mut s = sample();
    s.run_queue_lengths = vec![u64::MAX, u64::MAX];
    assert_eq!(build_snapshot(&s, 0, 0).unwrap_err(), CollectError::ValueOverflow);
}

#[test]
fn idle_thread_kind_has_zero_utilization() {
    let mut s = sample();
    s.msacc_threads = vec![thread(1, "dirty_io", 1_000_000, 0)];
    let m = build_snapshot(&s, 0, 0).expect("building");
    match m.get("utilization.dirty_io") {
        Some(MetricValue::Utilization { percent_milli, .. }) => assert_eq!(*percent_milli, 0),
        other => panic!("unexpected {other:?}"),
    }
}

use erldash::codec::{decode_store, encode_entry, encode_store, encode_store_header};
use erldash::metrics::{Metrics, MetricValue};
use erldash::replay::{scrub_back, scrub_forward, ReplayStore};

fn snapshot(elapsed_micros: u64, gauge: u64) -> Metrics {
    let mut m = Metrics::new(1_700_000_000_000 + elapsed_micros / 1000, elapsed_micros);
    m.insert("count.processes", MetricValue::gauge(gauge));
    m.insert("statistics.runtime", MetricValue::counter(gauge * 10));
    m
}

fn recorded_session(seconds: &[u64]) -> ReplayStore {
    let mut store = ReplayStore::new(1_700_000_000_000, String::from("Erlang/OTP 25"));
    for s in seconds {
        let e = s * 1_000_000;
        store.append(e, snapshot(e, 100 + s));
    }
    store
}

#[test]
fn recording_round_trips_through_the_byte_format() {
    let store = recorded_session(&[0, 1, 2]);
    let bytes = encode_store(&store);
    let decoded = decode_store(&bytes).expect("decoding an encoded store");
    assert_eq!(decoded.header.start_wall_time_ms, 1_700_000_000_000);
    assert_eq!(decoded.header.system_version.as_str(), "Erlang/OTP 25");
    assert_eq!(decoded.len(), 3);
    for i in 0..3 {
        let orig = store.entry_at(i);
        let back = decoded.entry_at(i);
        assert_eq!(back.elapsed_micros, orig.elapsed_micros);
        assert_eq!(back.metrics.len(), orig.metrics.len());
        for k in 0..orig.metrics.len() {
            let a = orig.metrics.item_at(k);
            let b = back.metrics.item_at(k);
            assert_eq!(a.name.as_str(), b.name.as_str());
            assert_eq!(format!("{:?}", a.value), format!("{:?}", b.value));
        }
    }
}

#[test]
fn replaying_a_full_recording_yields_every_snapshot() {
    let store = recorded_session(&[0, 1, 2, 3, 4]);
    let last = store.last_elapsed().unwrap();
    let all = store.range(0, last + 1);
    assert_eq!(all.len(), 5);
    for (i, m) in all.iter().enumerate() {
        assert_eq!(m.timestamp_micros, i as u64 * 1_000_000);
        match m.get("count.processes") {
            Some(MetricValue::Gauge { value, .. }) => assert_eq!(*value, 100 + i as u64),
            other => panic!("unexpected {other:?}"),
        }
    }
}

#[test]
fn scrubbing_clamps_to_the_recorded_bounds() {
    // A 120-second session scrubbed to 65 s with a 60-second window must
    // return only what was recorded: elapsed times in [65 s, 120 s].
    let seconds: Vec<u64> = (0..=120).collect();
    let store = recorded_session(&seconds);
    let cursor = 65 * 1_000_000u64;
    let window = 60 * 1_000_000u64;
    let shown = store.range(cursor, cursor + window);
    assert_eq!(shown.len(), 56); // 65 s through 120 s inclusive
    assert_eq!(shown.first().unwrap().timestamp_micros, 65 * 1_000_000);
    assert_eq!(shown.last().unwrap().timestamp_micros, 120 * 1_000_000);
}

#[test]
fn range_is_empty_outside_the_recording() {
    let store = recorded_session(&[0, 1, 2]);
    assert_eq!(store.range(10_000_000, 20_000_000).len(), 0);
}

#[test]
fn malformed_bytes_are_rejected() {
    assert!(decode_store(&vec![]).is_err());
    assert!(decode_store(&vec![1, 2, 3, 4, 5, 6]).is_err());
    let store = recorded_session(&[0, 1]);
    let mut bytes = encode_store(&store);
    bytes.pop();
    assert!(decode_store(&bytes).is_err());
    let mut wrong_magic = encode_store(&store);
    wrong_magic[0] = 0;
    assert!(decode_store(&wrong_magic).is_err());
}

#[test]
fn empty_store_still_round_trips() {
    let store = ReplayStore::new(5, String::from("v"));
    let decoded = decode_store(&encode_store(&store)).expect("decoding");
    assert_eq!(decoded.len(), 0);
    assert_eq!(decoded.header.start_wall_time_ms, 5);
    assert!(store.last_elapsed().is_none());
}

#[test]
fn appending_entry_bytes_extends_a_recording() {
    // A recording is the header bytes followed by each entry's bytes in
    // order: appending a snapshot never rewrites what was written.
    let store = recorded_session(&[0, 1, 2]);
    let mut incremental = encode_store_header(&store.header);
    for i in 0..store.len() {
        let e = store.entry_at(i);
        incremental.extend_from_slice(&encode_entry(e.elapsed_micros, &e.metrics.duplicate()));
    }
    assert_eq!(incremental, encode_store(&store));
    // Every prefix that ends on an entry boundary is itself a loadable
    // recording.
    let partial = encode_store(&recorded_session(&[0, 1]));
    assert!(decode_store(&partial).is_ok());
}

#[test]
fn cursor_scrubbing_saturates() {
    assert_eq!(scrub_back(5_000_000, 1_000_000), 4_000_000);
    assert_eq!(scrub_back(400_000, 1_000_000), 0);
    assert_eq!(scrub_forward(3_000_000, 1_000_000, 10_000_000), 4_000_000);
    assert_eq!(scrub_forward(9_500_000, 1_000_000, 10_000_000), 9_500_000);
    assert_eq!(scrub_forward(10_000_000, 1_000_000, 10_000_000), 10_000_000);
}

use erldash::erlang::memory::MemoryStats;
use erldash::erlang::msacc::{MsaccData, MsaccDataThread};
use erldash::erlang::stats::Stats;
use erldash::erlang::{MSAccThread, SystemVersion};

#[test]
fn system_version_hands_back_its_string() {
    let v = SystemVersion::new(String::from("Erlang/OTP 26 [erts-14.0]"));
    assert_eq!(v.get(), "Erlang/OTP 26 [erts-14.0]");
}

#[test]
fn memory_stats_iterate_in_a_fixed_order() {
    let stats = MemoryStats {
        total: 100,
        processes: 50,
        processes_used: 40,
        system: 50,
        atom: 10,
        atom_used: 8,
        binary: 12,
        code: 20,
        ets: 5,
        unknowns: vec![
            (String::from("atom_table"), 2),
            (String::from("persistent_term"), 3),
        ],
    };
    let items = stats.iter();
    assert_eq!(items.len(), 11);
    assert_eq!(items[0], ("total", 100));
    assert_eq!(items[3], ("system", 50));
    assert_eq!(items[8], ("ets", 5));
    assert_eq!(items[9], ("atom_table", 2));
    assert_eq!(items[10], ("persistent_term", 3));
}

#[test]
fn stats_iterate_in_a_fixed_order() {
    let stats = Stats {
        processes: 10,
        ports: 2,
        context_switches: 100,
        garbage_collection: 7,
        in_bytes: 300,
        out_bytes: 400,
        run_queue: 1,
    };
    let items = stats.iter();
    assert_eq!(items.len(), 7);
    assert_eq!(items[0], ("processes", 10));
    assert_eq!(items[2], ("context-switches", 100));
    assert_eq!(items[6], ("run_queue", 1));
}

#[test]
fn msacc_thread_reads_its_sleep_state() {
    let t = MsaccDataThread {
        thread_id: 3,
        thread_type: String::from("scheduler"),
        counters: vec![
            (String::from("emulator"), 700),
            (String::from("sleep"), 250),
            (String::from("gc"), 50),
        ],
    };
    assert_eq!(t.sleep_time(), 250);
    let without = MsaccDataThread {
        thread_id: 4,
        thread_type: String::from("aux"),
        counters: vec![(String::from("emulator"), 10)],
    };
    assert_eq!(without.sleep_time(), 0);
    let data = MsaccData::new(vec![t], 1_000_000);
    assert_eq!(data.threads.len(), 1);
    assert_eq!(data.duration_micros, 1_000_000);
}

#[test]
fn collector_thread_reads_its_sleep_state() {
    let t = MSAccThread {
        thread_id: 1,
        thread_type: String::from("scheduler"),
        counters: vec![(String::from("sleep"), 111), (String::from("emulator"), 9)],
    };
    assert_eq!(t.sleep_micros(), 111);
}

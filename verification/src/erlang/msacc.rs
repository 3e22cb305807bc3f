//! A standalone microstate-accounting sample: per-thread time spent in
//! each execution state over a sampling window.

use crate::erlang::{pair_lookup, pairs_total};
use vstd::prelude::*;

verus! {

/// One sampled microstate-accounting run.
#[derive(Debug)]
pub struct MsaccData {
    /// The sampled threads.
    pub threads: Vec<MsaccDataThread>,
    /// How long the sample ran, in microseconds.
    pub duration_micros: u64,
}

impl MsaccData {
    /// A sample over the given threads and duration.
    pub fn new(threads: Vec<MsaccDataThread>, duration_micros: u64) -> (r: Self)
        ensures
            r.threads@ == threads@,
            r.duration_micros == duration_micros,
    {
        MsaccData { threads, duration_micros }
    }
}

/// One thread of a microstate-accounting sample.
#[derive(Debug)]
pub struct MsaccDataThread {
    /// The runtime's id for the thread.
    pub thread_id: i32,
    /// The thread's kind, such as a scheduler or an async worker.
    pub thread_type: String,
    /// Microseconds per execution state name.
    pub counters: Vec<(String, u64)>,
}

impl MsaccDataThread {
    /// Total time accounted to the thread, over all states.
    pub open spec fn total_micros(&self) -> int {
        pairs_total(self.counters@)
    }

    /// Time the thread spent sleeping, or 0 when no sleep state was
    /// reported.
    pub fn sleep_time(&self) -> (r: u64)
        ensures
            r == match pair_lookup(self.counters@, "sleep"@) {
                Some(v) => v as int,
                None => 0,
            },
    {
        let n = self.counters.len();
        let mut i: usize = 0;
        proof {
            assert(self.counters@.skip(0) =~= self.counters@);
        }
        while i < n
            invariant
                i <= n,
                n == self.counters@.len(),
                pair_lookup(self.counters@, "sleep"@) == pair_lookup(
                    self.counters@.skip(i as int),
                    "sleep"@,
                ),
            decreases n - i,
        {
            proof {
                assert(self.counters@.skip(i as int)[0] == self.counters@[i as int]);
            }
            if crate::lex::name_eq(self.counters[i].0.as_str(), "sleep") {
                return self.counters[i].1;
            }
            proof {
                assert(self.counters@.skip(i as int).skip(1) =~= self.counters@.skip(i + 1));
            }
            i = i + 1;
        }
        proof {
            assert(self.counters@.skip(n as int).len() == 0);
        }
        0
    }
}

} // verus!

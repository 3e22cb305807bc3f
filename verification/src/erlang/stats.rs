//! A compact bundle of the runtime's headline statistics.

use vstd::prelude::*;

verus! {

/// Headline statistics of one reading.
#[derive(Debug, Default)]
pub struct Stats {
    pub processes: u64,
    pub ports: u64,
    pub context_switches: u64,
    pub garbage_collection: u64,
    pub in_bytes: u64,
    pub out_bytes: u64,
    pub run_queue: u64,
}

impl Stats {
    /// The readings as name/value pairs, in a fixed order.
    pub fn iter(&self) -> (r: Vec<(&str, u64)>)
        ensures
            r@.len() == 7,
            r@[0].0@ == "processes"@ && r@[0].1 == self.processes,
            r@[1].0@ == "ports"@ && r@[1].1 == self.ports,
            r@[2].0@ == "context-switches"@ && r@[2].1 == self.context_switches,
            r@[3].0@ == "gc"@ && r@[3].1 == self.garbage_collection,
            r@[4].0@ == "in"@ && r@[4].1 == self.in_bytes,
            r@[5].0@ == "out"@ && r@[5].1 == self.out_bytes,
            r@[6].0@ == "run_queue"@ && r@[6].1 == self.run_queue,
    {
        let mut r: Vec<(&str, u64)> = Vec::new();
        r.push(("processes", self.processes));
        r.push(("ports", self.ports));
        r.push(("context-switches", self.context_switches));
        r.push(("gc", self.garbage_collection));
        r.push(("in", self.in_bytes));
        r.push(("out", self.out_bytes));
        r.push(("run_queue", self.run_queue));
        r
    }
}

} // verus!

//! The runtime's memory breakdown, by allocation category.

use crate::lex::lex_lt;
use vstd::prelude::*;

verus! {

/// The well-known memory categories, in bytes, plus any categories this
/// crate does not know by name.
#[derive(Debug, Default)]
pub struct MemoryStats {
    pub total: u64,
    pub processes: u64,
    pub processes_used: u64,
    pub system: u64,
    pub atom: u64,
    pub atom_used: u64,
    pub binary: u64,
    pub code: u64,
    pub ets: u64,
    pub unknowns: Vec<(String, u64)>,
}

impl MemoryStats {
    /// The unknown categories are kept strictly sorted by name, so they
    /// are unique and [`Self::iter`] yields them in ascending key order.
    pub open spec fn wf(&self) -> bool {
        forall|i: int, j: int|
            0 <= i < j < self.unknowns@.len() ==> lex_lt(
                (#[trigger] self.unknowns@[i]).0@,
                (#[trigger] self.unknowns@[j]).0@,
            )
    }

    /// The categories as name/value pairs: the nine known ones in a fixed
    /// order, then the unknown ones in ascending key order.
    pub fn iter(&self) -> (r: Vec<(&str, u64)>)
        requires
            self.wf(),
        ensures
            r@.len() == 9 + self.unknowns@.len(),
            r@[0].0@ == "total"@ && r@[0].1 == self.total,
            r@[1].0@ == "processes"@ && r@[1].1 == self.processes,
            r@[2].0@ == "processes_used"@ && r@[2].1 == self.processes_used,
            r@[3].0@ == "system"@ && r@[3].1 == self.system,
            r@[4].0@ == "atom"@ && r@[4].1 == self.atom,
            r@[5].0@ == "atom_used"@ && r@[5].1 == self.atom_used,
            r@[6].0@ == "binary"@ && r@[6].1 == self.binary,
            r@[7].0@ == "code"@ && r@[7].1 == self.code,
            r@[8].0@ == "ets"@ && r@[8].1 == self.ets,
            forall|k: int|
                0 <= k < self.unknowns@.len() ==> (#[trigger] r@[9 + k]).0@
                    == self.unknowns@[k].0@ && r@[9 + k].1 == self.unknowns@[k].1,
            forall|k1: int, k2: int|
                0 <= k1 < k2 < self.unknowns@.len() ==> lex_lt(
                    (#[trigger] r@[9 + k1]).0@,
                    (#[trigger] r@[9 + k2]).0@,
                ),
    {
        let mut r: Vec<(&str, u64)> = Vec::new();
        r.push(("total", self.total));
        r.push(("processes", self.processes));
        r.push(("processes_used", self.processes_used));
        r.push(("system", self.system));
        r.push(("atom", self.atom));
        r.push(("atom_used", self.atom_used));
        r.push(("binary", self.binary));
        r.push(("code", self.code));
        r.push(("ets", self.ets));
        let n = self.unknowns.len();
        let mut i: usize = 0;
        while i < n
            invariant
                i <= n,
                n == self.unknowns@.len(),
                r@.len() == 9 + i,
                r@[0].0@ == "total"@ && r@[0].1 == self.total,
                r@[1].0@ == "processes"@ && r@[1].1 == self.processes,
                r@[2].0@ == "processes_used"@ && r@[2].1 == self.processes_used,
                r@[3].0@ == "system"@ && r@[3].1 == self.system,
                r@[4].0@ == "atom"@ && r@[4].1 == self.atom,
                r@[5].0@ == "atom_used"@ && r@[5].1 == self.atom_used,
                r@[6].0@ == "binary"@ && r@[6].1 == self.binary,
                r@[7].0@ == "code"@ && r@[7].1 == self.code,
                r@[8].0@ == "ets"@ && r@[8].1 == self.ets,
                forall|k: int|
                    0 <= k < i ==> (#[trigger] r@[9 + k]).0@ == self.unknowns@[k].0@ && r@[9
                        + k].1 == self.unknowns@[k].1,
            decreases n - i,
        {
            r.push((self.unknowns[i].0.as_str(), self.unknowns[i].1));
            i = i + 1;
        }
        r
    }
}

} // verus!

//! Plain-value models of the data the remote Erlang runtime reports.
//!
//! The RPC client that talks to the runtime lives outside this crate; the
//! collector receives each reply already decoded into the plain types of
//! this module.

pub mod memory;
pub mod msacc;
pub mod stats;

use vstd::prelude::*;

verus! {

/// The remote runtime's version banner.
#[derive(Debug)]
pub struct SystemVersion {
    version: String,
}

impl View for SystemVersion {
    type V = Seq<char>;

    closed spec fn view(&self) -> Seq<char> {
        self.version@
    }
}

impl SystemVersion {
    /// Wraps the version string the runtime reported.
    pub fn new(version: String) -> (r: Self)
        ensures
            r@ == version@,
    {
        SystemVersion { version }
    }

    /// The version string.
    pub fn get(&self) -> (r: &str)
        ensures
            r@ == self@,
    {
        self.version.as_str()
    }
}

/// One thread's microstate-accounting reading: how many microseconds the
/// thread spent in each execution state since the last reset.
#[derive(Debug)]
pub struct MSAccThread {
    /// The runtime's id for the thread.
    pub thread_id: u64,
    /// The thread's kind, such as a scheduler or an async worker.
    pub thread_type: String,
    /// Microseconds per execution state name.
    pub counters: Vec<(String, u64)>,
}

/// The sum of the counter values of a state list.
pub open spec fn pairs_total(cs: Seq<(String, u64)>) -> int
    decreases cs.len(),
{
    if cs.len() == 0 {
        0
    } else {
        pairs_total(cs.drop_last()) + cs.last().1
    }
}

/// The first value registered under a state name, if any.
pub open spec fn pair_lookup(cs: Seq<(String, u64)>, n: Seq<char>) -> Option<u64>
    decreases cs.len(),
{
    if cs.len() == 0 {
        None
    } else if cs[0].0@ == n {
        Some(cs[0].1)
    } else {
        pair_lookup(cs.skip(1), n)
    }
}

/// A state list's total is nonnegative.
pub proof fn lemma_pairs_total_nonneg(cs: Seq<(String, u64)>)
    ensures
        pairs_total(cs) >= 0,
    decreases cs.len(),
{
    if cs.len() > 0 {
        lemma_pairs_total_nonneg(cs.drop_last());
    }
}

/// Each state's value is within the list's total.
pub proof fn lemma_member_le_total(cs: Seq<(String, u64)>, i: int)
    requires
        0 <= i < cs.len(),
    ensures
        cs[i].1 <= pairs_total(cs),
    decreases cs.len(),
{
    if i == cs.len() - 1 {
        lemma_pairs_total_nonneg(cs.drop_last());
    } else {
        lemma_member_le_total(cs.drop_last(), i);
        assert(cs.drop_last()[i] == cs[i]);
    }
}

/// The total decomposes over the first state and the rest.
pub proof fn lemma_pairs_front(cs: Seq<(String, u64)>)
    requires
        cs.len() > 0,
    ensures
        pairs_total(cs) == cs[0].1 + pairs_total(cs.skip(1)),
    decreases cs.len(),
{
    if cs.len() == 1 {
        assert(cs.drop_last() =~= Seq::<(String, u64)>::empty());
        assert(cs.skip(1) =~= Seq::<(String, u64)>::empty());
    } else {
        lemma_pairs_front(cs.drop_last());
        assert(cs.drop_last()[0] == cs[0]);
        assert(cs.skip(1).drop_last() =~= cs.drop_last().skip(1));
        assert(cs.skip(1).last() == cs.last());
    }
}

/// The total is nonnegative and bounds any looked-up state value.
pub proof fn lemma_pair_bounds(cs: Seq<(String, u64)>, n: Seq<char>)
    ensures
        pairs_total(cs) >= 0,
        match pair_lookup(cs, n) {
            Some(v) => v <= pairs_total(cs),
            None => true,
        },
    decreases cs.len(),
{
    lemma_pairs_total_nonneg(cs);
    if cs.len() > 0 {
        if cs[0].0@ == n {
            lemma_member_le_total(cs, 0);
        } else {
            lemma_pair_bounds(cs.skip(1), n);
            lemma_pairs_front(cs);
        }
    }
}

/// A prefix of the state list totals at most the whole list.
pub proof fn lemma_pairs_total_take(cs: Seq<(String, u64)>, k: int)
    requires
        0 <= k <= cs.len(),
    ensures
        0 <= pairs_total(cs.take(k)) <= pairs_total(cs),
    decreases cs.len() - k,
{
    lemma_pairs_total_nonneg(cs.take(k));
    if k == cs.len() {
        assert(cs.take(k) =~= cs);
    } else {
        lemma_pairs_total_take(cs, k + 1);
        assert(cs.take(k + 1).drop_last() =~= cs.take(k));
        assert(cs.take(k + 1).last() == cs[k]);
    }
}

impl MSAccThread {
    /// Total time accounted to the thread, over all states.
    pub open spec fn total_micros(&self) -> int {
        pairs_total(self.counters@)
    }

    /// Time the thread spent sleeping, or 0 when no sleep state was
    /// reported.
    pub open spec fn spec_sleep_micros(&self) -> int {
        match pair_lookup(self.counters@, "sleep"@) {
            Some(v) => v as int,
            None => 0,
        }
    }

    /// Time the thread spent sleeping, or 0 when no sleep state was
    /// reported.
    pub fn sleep_micros(&self) -> (r: u64)
        ensures
            r == self.spec_sleep_micros(),
    {
        let n = self.counters.len();
        let mut i: usize = 0;
        proof {
            assert(self.counters@.skip(0) =~= self.counters@);
        }
        while i < n
            invariant
                i <= n,
                n == self.counters@.len(),
                pair_lookup(self.counters@, "sleep"@) == pair_lookup(
                    self.counters@.skip(i as int),
                    "sleep"@,
                ),
            decreases n - i,
        {
            proof {
                assert(self.counters@.skip(i as int)[0] == self.counters@[i as int]);
            }
            if crate::lex::name_eq(self.counters[i].0.as_str(), "sleep") {
                return self.counters[i].1;
            }
            proof {
                assert(self.counters@.skip(i as int).skip(1) =~= self.counters@.skip(i + 1));
            }
            i = i + 1;
        }
        proof {
            assert(self.counters@.skip(n as int).len() == 0);
        }
        0
    }
}

} // verus!

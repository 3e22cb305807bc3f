//! The snapshot collector: turns one poll cycle's decoded replies into a
//! complete, well-formed snapshot.
//!
//! The surrounding application performs the runtime calls of a cycle in
//! their fixed order and hands the decoded plain values here as one
//! [`CollectedSample`]; this module derives the composite entries and
//! assembles the name-sorted snapshot.  Counters of a fresh snapshot
//! carry no rate; the rate calculator fills them in from the previous
//! snapshot of the session.

use crate::erlang::{pairs_total, MSAccThread};
use crate::lex::name_eq;
use crate::metrics::{Metrics, MetricValue, MetricValueView, MetricsView};
use crate::text::format_u64_zero_padded;
use vstd::prelude::*;

verus! {

/// The decoded replies of one poll cycle.
#[derive(Debug)]
pub struct CollectedSample {
    /// The microstate-accounting breakdown, one entry per thread.
    pub msacc_threads: Vec<MSAccThread>,
    pub process_count: u64,
    pub port_count: u64,
    pub atom_count: u64,
    pub ets_count: u64,
    pub context_switches: u64,
    pub exact_reductions: u64,
    pub garbage_collection: u64,
    pub runtime: u64,
    pub io_input_bytes: u64,
    pub io_output_bytes: u64,
    /// Run-queue length per scheduler, in scheduler order.
    pub run_queue_lengths: Vec<u64>,
    /// The memory breakdown; must carry a `total` category.
    pub memory: Vec<(String, u64)>,
}

/// Why a cycle's replies could not be assembled into a snapshot.  Either
/// error is fatal to the cycle: the scheduler terminates the session on
/// it, so a contract-violating reply fails fast rather than being
/// repaired or retried.
#[derive(Clone, Copy, Debug, PartialEq, Eq, Structural)]
pub enum CollectError {
    /// A derived sum exceeded the value range.
    ValueOverflow,
    /// The memory reply lacked its `total` category, which the model
    /// promises: a programming-contract violation of the remote reply,
    /// surfaced as this error because verified code does not panic; the
    /// cycle fails fast on it.
    MissingMemoryTotal,
}

/// A name without dots: a single segment of a dotted path.
pub open spec fn dot_free(s: Seq<char>) -> bool {
    forall|i: int| 0 <= i < s.len() ==> (#[trigger] s[i]) != '.'
}

/// The sample's structural validity, which the application checks before
/// handing a cycle's replies over and fails the cycle on otherwise:
/// - every thread kind is a single path segment (dot-free), so the
///   two-level dotted-name tree stays unambiguous — a kind containing a
///   dot would let one kind's root name collide with another kind's
///   child name;
/// - every thread reports a `sleep` state, which the accounting model
///   promises; a reply without one is a contract violation and the
///   cycle fails fast rather than understate the thread's sleep time;
/// - memory categories are uniquely named, as a decoded mapping.
pub open spec fn sample_wf(s: &CollectedSample) -> bool {
    &&& forall|i: int|
        0 <= i < s.msacc_threads@.len() ==> dot_free(
            (#[trigger] s.msacc_threads@[i]).thread_type@,
        )
    &&& forall|i: int|
        0 <= i < s.msacc_threads@.len() ==> crate::erlang::pair_lookup(
            (#[trigger] s.msacc_threads@[i]).counters@,
            "sleep"@,
        ) is Some
    &&& forall|i: int, j: int|
        0 <= i < s.memory@.len() && 0 <= j < s.memory@.len() && i != j ==> (
        #[trigger] s.memory@[i]).0@ != (#[trigger] s.memory@[j]).0@
}

/// The sum of a run-queue reply.
pub open spec fn u64_seq_sum(s: Seq<u64>) -> int
    decreases s.len(),
{
    if s.len() == 0 {
        0
    } else {
        u64_seq_sum(s.drop_last()) + s.last()
    }
}

/// The total time accounted across all threads of the sample.
pub open spec fn grand_total(ts: Seq<MSAccThread>) -> int
    decreases ts.len(),
{
    if ts.len() == 0 {
        0
    } else {
        grand_total(ts.drop_last()) + ts.last().total_micros()
    }
}

/// The total time accounted to the threads of one kind.
pub open spec fn type_realtime(ts: Seq<MSAccThread>, ty: Seq<char>) -> int
    decreases ts.len(),
{
    if ts.len() == 0 {
        0
    } else {
        type_realtime(ts.drop_last(), ty) + if ts.last().thread_type@ == ty {
            ts.last().total_micros()
        } else {
            0
        }
    }
}

/// The non-sleeping time accounted to the threads of one kind.
pub open spec fn type_runtime(ts: Seq<MSAccThread>, ty: Seq<char>) -> int
    decreases ts.len(),
{
    if ts.len() == 0 {
        0
    } else {
        type_runtime(ts.drop_last(), ty) + if ts.last().thread_type@ == ty {
            ts.last().total_micros() - ts.last().spec_sleep_micros()
        } else {
            0
        }
    }
}

/// Utilization in thousandths of a percent: the busy share of the
/// accounted time, or 0 when nothing was accounted.
pub open spec fn spec_util_permilli(run: int, realt: int) -> int {
    if realt > 0 {
        run * 100_000 / realt
    } else {
        0
    }
}

/// The root entry name of one thread kind's utilization.
pub open spec fn util_root_name(ty: Seq<char>) -> Seq<char> {
    "utilization."@ + ty
}

/// The child entry name of one scheduler's run-queue length.
pub open spec fn run_queue_child_name(i: u64, width: int) -> Seq<char> {
    "statistics.run_queue."@ + crate::text::spec_zero_padded(i, width).map_values(
        |b: u8| b as char,
    )
}

/// The child entry name of one memory category.
pub open spec fn memory_child_name(k: Seq<char>) -> Seq<char> {
    "memory."@ + k + "_bytes"@
}

/// No value the snapshot maps to carries a rate.
pub open spec fn rates_absent(m: MetricsView) -> bool {
    forall|n: Seq<char>|
        match #[trigger] m.get(n) {
            Some(v) => v.counter_rate() is None,
            None => true,
        }
}


/// Every declared parent names an entry of the same snapshot.
pub open spec fn parents_present(m: MetricsView) -> bool {
    forall|n: Seq<char>|
        match #[trigger] m.get(n) {
            Some(v) => match v.parent_of() {
                Some(p) => m.contains(p),
                None => true,
            },
            None => true,
        }
}

/// Inserting an entry whose declared parent is already present keeps
/// every parent present.
proof fn lemma_parents_step(
    a: MetricsView,
    b: MetricsView,
    nm: Seq<char>,
    inserted_parent: Option<Seq<char>>,
)
    requires
        parents_present(a),
        forall|n: Seq<char>| n != nm ==> b.get(n) == a.get(n),
        b.get(nm) is Some,
        b.get(nm).unwrap().parent_of() == inserted_parent,
        match inserted_parent {
            Some(p) => a.get(p) is Some || p == nm,
            None => true,
        },
    ensures
        parents_present(b),
{
    assert forall|n: Seq<char>|
        match #[trigger] b.get(n) {
            Some(v) => match v.parent_of() {
                Some(p) => b.contains(p),
                None => true,
            },
            None => true,
        } by {
        if b.get(n) is Some {
            let p_opt = b.get(n).unwrap().parent_of();
            if p_opt is Some {
                let p = p_opt.unwrap();
                if n == nm {
                    if p != nm {
                        assert(b.get(p) == a.get(p));
                    }
                    assert(b.get(p) is Some);
                } else {
                    assert(b.get(n) == a.get(n));
                    assert(a.contains(p));
                    assert(a.get(p) is Some);
                    if p != nm {
                        assert(b.get(p) == a.get(p));
                    }
                    assert(b.get(p) is Some);
                }
                assert(b.contains(p));
            }
        }
    }
}

/// A name starts with the given prefix.
pub open spec fn has_prefix(n: Seq<char>, p: Seq<char>) -> bool {
    n.len() >= p.len() && n.take(p.len() as int) == p
}

/// Taking a concatenation's prefix gives the first part back.
pub proof fn lemma_concat_parts(a: Seq<char>, s: Seq<char>)
    ensures
        (a + s).take(a.len() as int) == a,
        (a + s).skip(a.len() as int) == s,
        (a + s).len() == a.len() + s.len(),
{
    assert((a + s).take(a.len() as int) =~= a);
    assert((a + s).skip(a.len() as int) =~= s);
}

/// Every intermediate microstate sum stays within the grand total.
proof fn lemma_type_sums(ts: Seq<MSAccThread>, ty: Seq<char>)
    ensures
        0 <= type_runtime(ts, ty) <= type_realtime(ts, ty) <= grand_total(ts),
        forall|i: int|
            0 <= i < ts.len() ==> 0 <= (#[trigger] ts[i]).spec_sleep_micros()
                <= ts[i].total_micros(),
        forall|i: int| 0 <= i < ts.len() ==> (#[trigger] ts[i]).total_micros() >= 0,
    decreases ts.len(),
{
    assert forall|i: int|
        0 <= i < ts.len() implies 0 <= (#[trigger] ts[i]).spec_sleep_micros()
        <= ts[i].total_micros() && ts[i].total_micros() >= 0 by {
        crate::erlang::lemma_pair_bounds(ts[i].counters@, "sleep"@);
    }
    if ts.len() > 0 {
        lemma_type_sums(ts.drop_last(), ty);
        assert(forall|i: int| 0 <= i < ts.len() - 1 ==> ts.drop_last()[i] == ts[i]);
        crate::erlang::lemma_pair_bounds(ts.last().counters@, "sleep"@);
    }
}

/// A take of the thread list keeps its sums within those of the full
/// list.
proof fn lemma_type_sums_take(ts: Seq<MSAccThread>, ty: Seq<char>, k: int)
    requires
        0 <= k <= ts.len(),
    ensures
        type_realtime(ts.take(k), ty) <= grand_total(ts),
        grand_total(ts.take(k)) <= grand_total(ts),
    decreases ts.len() - k,
{
    if k == ts.len() {
        assert(ts.take(k) =~= ts);
        lemma_type_sums(ts, ty);
    } else {
        lemma_type_sums_take(ts, ty, k + 1);
        assert(ts.take(k + 1).drop_last() =~= ts.take(k));
        assert(ts.take(k + 1).last() == ts[k]);
        lemma_type_sums(ts.take(k + 1), ty);
        lemma_type_sums(ts.take(k), ty);
        crate::erlang::lemma_pair_bounds(ts[k].counters@, "sleep"@);
    }
}

/// Computes the total of one thread's counters.
fn thread_total_exec(t: &MSAccThread) -> (r: u64)
    requires
        pairs_total(t.counters@) <= u64::MAX,
    ensures
        r == t.total_micros(),
{
    let n = t.counters.len();
    let mut sum: u64 = 0;
    let mut i: usize = 0;
    while i < n
        invariant
            i <= n,
            n == t.counters@.len(),
            pairs_total(t.counters@) <= u64::MAX,
            sum == pairs_total(t.counters@.take(i as int)),
        decreases n - i,
    {
        proof {
            assert(t.counters@.take(i + 1).drop_last() =~= t.counters@.take(i as int));
            assert(t.counters@.take(i + 1).last() == t.counters@[i as int]);
            crate::erlang::lemma_pairs_total_take(t.counters@, i + 1);
            crate::erlang::lemma_pair_bounds(t.counters@.take(i + 1), "sleep"@);
        }
        sum = sum + t.counters[i].1;
        i = i + 1;
    }
    proof {
        assert(t.counters@.take(n as int) =~= t.counters@);
    }
    sum
}

/// Computes the utilization of one thread kind, in thousandths of a
/// percent.
fn util_permilli(runtime: u64, realtime: u64) -> (r: u64)
    requires
        runtime <= realtime,
    ensures
        r == spec_util_permilli(runtime as int, realtime as int),
        r <= 100_000,
{
    if realtime == 0 {
        0
    } else {
        proof {
            vstd::arithmetic::mul::lemma_mul_inequality(
                runtime as int,
                realtime as int,
                100_000,
            );
            vstd::arithmetic::div_mod::lemma_div_is_ordered(
                runtime as int * 100_000,
                realtime as int * 100_000,
                realtime as int,
            );
            vstd::arithmetic::div_mod::lemma_div_by_multiple(100_000, realtime as int);
            vstd::arithmetic::div_mod::lemma_div_pos_is_pos(
                runtime as int * 100_000,
                realtime as int,
            );
        }
        ((runtime as u128 * 100_000) / (realtime as u128)) as u64
    }
}



/// The state name appears somewhere in the list.
pub open spec fn state_in(states: Seq<String>, s: Seq<char>) -> bool {
    exists|t: int| 0 <= t < states.len() && (#[trigger] states[t])@ == s
}

/// The id appears somewhere in the list.
pub open spec fn id_in(ids: Seq<u64>, id: u64) -> bool {
    exists|t: int| 0 <= t < ids.len() && (#[trigger] ids[t]) == id
}

/// Every state of every thread of the kind, among the first `upto`
/// threads, appears in `states`.
pub open spec fn states_cover(
    ts: Seq<MSAccThread>,
    upto: int,
    ty: Seq<char>,
    states: Seq<String>,
) -> bool {
    forall|k: int, p: int|
        0 <= k < upto && 0 <= p < ts[k].counters@.len() && ts[k].thread_type@ == ty
            ==> state_in(states, (#[trigger] ts[k].counters@[p]).0@)
}

/// Every thread id of the kind, among the first `upto` threads, appears
/// in `ids`.
pub open spec fn ids_cover(ts: Seq<MSAccThread>, upto: int, ty: Seq<char>, ids: Seq<u64>) -> bool {
    forall|k: int|
        0 <= k < upto && (#[trigger] ts[k]).thread_type@ == ty ==> id_in(ids, ts[k].thread_id)
}

/// A listed state stays listed when the list grows at the end.
proof fn lemma_state_in_extend(s1: Seq<String>, s2: Seq<String>, x: Seq<char>)
    requires
        state_in(s1, x),
        s1.len() <= s2.len(),
        forall|t: int| 0 <= t < s1.len() ==> (#[trigger] s2[t]) == s1[t],
    ensures
        state_in(s2, x),
{
    let t0 = choose|t: int| 0 <= t < s1.len() && (#[trigger] s1[t])@ == x;
    assert(s2[t0]@ == x);
}

/// The distinct execution states reported by the threads of the kind of
/// thread `i`, each once.
fn collect_type_states(threads: &Vec<MSAccThread>, i: usize) -> (states: Vec<String>)
    requires
        i < threads@.len(),
    ensures
        forall|t1: int, t2: int|
            0 <= t1 < t2 < states@.len() ==> (#[trigger] states@[t1])@ != (
            #[trigger] states@[t2])@,
        states_cover(
            threads@,
            threads@.len() as int,
            threads@[i as int].thread_type@,
            states@,
        ),
    {
    let ghost ty = threads@[i as int].thread_type@;
    let n = threads.len();
    let mut states: Vec<String> = Vec::new();
    let mut k: usize = 0;
    while k < n
        invariant
            k <= n,
            i < n,
            n == threads@.len(),
            ty == threads@[i as int].thread_type@,
            forall|t1: int, t2: int|
                0 <= t1 < t2 < states@.len() ==> (#[trigger] states@[t1])@ != (
                #[trigger] states@[t2])@,
            states_cover(threads@, k as int, ty, states@),
        decreases n - k,
    {
        if name_eq(threads[k].thread_type.as_str(), threads[i].thread_type.as_str()) {
            let cs = &threads[k].counters;
            let cn = cs.len();
            let mut p: usize = 0;
            while p < cn
                invariant
                    p <= cn,
                    k < n,
                    i < n,
                    n == threads@.len(),
                    cn == threads@[k as int].counters@.len(),
                    cs@ == threads@[k as int].counters@,
                    ty == threads@[i as int].thread_type@,
                    forall|t1: int, t2: int|
                        0 <= t1 < t2 < states@.len() ==> (#[trigger] states@[t1])@ != (
                        #[trigger] states@[t2])@,
                    states_cover(threads@, k as int, ty, states@),
                    forall|p2: int|
                        0 <= p2 < p ==> state_in(
                            states@,
                            (#[trigger] threads@[k as int].counters@[p2]).0@,
                        ),
                decreases cn - p,
            {
                let s = &cs[p].0;
                let mut found = false;
                let sn = states.len();
                let mut t: usize = 0;
                while t < sn
                    invariant
                        t <= sn,
                        sn == states@.len(),
                        found == exists|t2: int|
                            0 <= t2 < t && (#[trigger] states@[t2])@ == s@,
                    decreases sn - t,
                {
                    let eq = name_eq(states[t].as_str(), s.as_str());
                    if eq {
                        found = true;
                    }
                    proof {
                        if found {
                            if eq {
                                assert(0 <= t < t + 1 && (#[trigger] states@[t as int])@ == s@);
                            } else {
                                let t0 = choose|t2: int|
                                    0 <= t2 < t && (#[trigger] states@[t2])@ == s@;
                                assert(0 <= t0 < t + 1 && states@[t0]@ == s@);
                            }
                        } else {
                            if exists|t2: int| 0 <= t2 < t + 1 && (#[trigger] states@[t2])@
                                == s@ {
                                let t0 = choose|t2: int|
                                    0 <= t2 < t + 1 && (#[trigger] states@[t2])@ == s@;
                                assert(t0 != t);
                                assert(false);
                            }
                        }
                    }
                    t = t + 1;
                }
                let ghost old_states = states@;
                if !found {
                    states.push(s.clone());
                }
                proof {
                    assert(forall|t2: int|
                        0 <= t2 < old_states.len() ==> (#[trigger] states@[t2]) == old_states[
                        t2]);
                    assert(state_in(states@, s@)) by {
                        if found {
                            let t0 = choose|t2: int|
                                0 <= t2 < old_states.len() && (#[trigger] old_states[t2])@ == s@;
                            assert(states@[t0]@ == s@);
                        } else {
                            assert(states@[states@.len() - 1]@ == s@);
                        }
                    }
                    assert forall|k2: int, p2: int|
                        0 <= k2 < k && 0 <= p2 < threads@[k2].counters@.len()
                            && threads@[k2].thread_type@ == ty implies state_in(
                        states@,
                        (#[trigger] threads@[k2].counters@[p2]).0@,
                    ) by {
                        lemma_state_in_extend(
                            old_states,
                            states@,
                            threads@[k2].counters@[p2].0@,
                        );
                    }
                    assert forall|p2: int| 0 <= p2 < p + 1 implies state_in(
                        states@,
                        (#[trigger] threads@[k as int].counters@[p2]).0@,
                    ) by {
                        if p2 < p {
                            lemma_state_in_extend(
                                old_states,
                                states@,
                                threads@[k as int].counters@[p2].0@,
                            );
                        }
                    }
                }
                p = p + 1;
            }
            proof {
                assert forall|k2: int, p2: int|
                    0 <= k2 < k + 1 && 0 <= p2 < threads@[k2].counters@.len()
                        && threads@[k2].thread_type@ == ty implies state_in(
                    states@,
                    (#[trigger] threads@[k2].counters@[p2]).0@,
                ) by {}
                assert(states_cover(threads@, k + 1, ty, states@));
            }
        } else {
            proof {
                assert forall|k2: int, p2: int|
                    0 <= k2 < k + 1 && 0 <= p2 < threads@[k2].counters@.len()
                        && threads@[k2].thread_type@ == ty implies state_in(
                    states@,
                    (#[trigger] threads@[k2].counters@[p2]).0@,
                ) by {
                    assert(k2 != k);
                }
                assert(states_cover(threads@, k + 1, ty, states@));
            }
        }
        k = k + 1;
    }
    states
}

/// The distinct thread ids of the kind of thread `i`, each once.
fn collect_type_ids(threads: &Vec<MSAccThread>, i: usize) -> (ids: Vec<u64>)
    requires
        i < threads@.len(),
    ensures
        forall|t1: int, t2: int|
            0 <= t1 < t2 < ids@.len() ==> (#[trigger] ids@[t1]) != (#[trigger] ids@[t2]),
        ids_cover(threads@, threads@.len() as int, threads@[i as int].thread_type@, ids@),
    {
    let ghost ty = threads@[i as int].thread_type@;
    let n = threads.len();
    let mut ids: Vec<u64> = Vec::new();
    let mut k: usize = 0;
    while k < n
        invariant
            k <= n,
            i < n,
            n == threads@.len(),
            ty == threads@[i as int].thread_type@,
            forall|t1: int, t2: int|
                0 <= t1 < t2 < ids@.len() ==> (#[trigger] ids@[t1]) != (#[trigger] ids@[t2]),
            ids_cover(threads@, k as int, ty, ids@),
        decreases n - k,
    {
        if name_eq(threads[k].thread_type.as_str(), threads[i].thread_type.as_str()) {
            let id = threads[k].thread_id;
            let mut found = false;
            let tn = ids.len();
            let mut t: usize = 0;
            while t < tn
                invariant
                    t <= tn,
                    tn == ids@.len(),
                    found == exists|t2: int| 0 <= t2 < t && (#[trigger] ids@[t2]) == id,
                decreases tn - t,
            {
                let eq = ids[t] == id;
                if eq {
                    found = true;
                }
                proof {
                    if found {
                        if eq {
                            assert(0 <= t < t + 1 && (#[trigger] ids@[t as int]) == id);
                        } else {
                            let t0 = choose|t2: int| 0 <= t2 < t && (#[trigger] ids@[t2]) == id;
                            assert(0 <= t0 < t + 1 && ids@[t0] == id);
                        }
                    } else {
                        if exists|t2: int| 0 <= t2 < t + 1 && (#[trigger] ids@[t2]) == id {
                            let t0 = choose|t2: int|
                                0 <= t2 < t + 1 && (#[trigger] ids@[t2]) == id;
                            assert(t0 != t);
                            assert(false);
                        }
                    }
                }
                t = t + 1;
            }
            let ghost old_ids = ids@;
            if !found {
                ids.push(id);
            }
            proof {
                assert(forall|t2: int|
                    0 <= t2 < old_ids.len() ==> (#[trigger] ids@[t2]) == old_ids[t2]);
                assert(id_in(ids@, id)) by {
                    if found {
                        let t0 = choose|t2: int|
                            0 <= t2 < old_ids.len() && (#[trigger] old_ids[t2]) == id;
                        assert(ids@[t0] == id);
                    } else {
                        assert(ids@[ids@.len() - 1] == id);
                    }
                }
                assert forall|k2: int|
                    0 <= k2 < k + 1 && (#[trigger] threads@[k2]).thread_type@
                        == ty implies id_in(ids@, threads@[k2].thread_id) by {
                    if k2 < k {
                        assert(id_in(old_ids, threads@[k2].thread_id));
                        let t0 = choose|t2: int|
                            0 <= t2 < old_ids.len() && (#[trigger] old_ids[t2])
                                == threads@[k2].thread_id;
                        assert(ids@[t0] == threads@[k2].thread_id);
                    }
                }
                assert(ids_cover(threads@, k + 1, ty, ids@));
            }
        } else {
            proof {
                assert forall|k2: int|
                    0 <= k2 < k + 1 && (#[trigger] threads@[k2]).thread_type@
                        == ty implies id_in(ids@, threads@[k2].thread_id) by {
                    assert(k2 != k);
                }
                assert(ids_cover(threads@, k + 1, ty, ids@));
            }
        }
        k = k + 1;
    }
    ids
}

/// The time one thread accounts to a single state, summed over duplicate
/// entries of that state name.
pub open spec fn pair_state_sum(cs: Seq<(String, u64)>, s: Seq<char>) -> int
    decreases cs.len(),
{
    if cs.len() == 0 {
        0
    } else {
        pair_state_sum(cs.drop_last(), s) + if cs.last().0@ == s {
            cs.last().1 as int
        } else {
            0
        }
    }
}

/// The time the threads of one kind account to a single state.
pub open spec fn state_time(ts: Seq<MSAccThread>, ty: Seq<char>, s: Seq<char>) -> int
    decreases ts.len(),
{
    if ts.len() == 0 {
        0
    } else {
        state_time(ts.drop_last(), ty, s) + if ts.last().thread_type@ == ty {
            pair_state_sum(ts.last().counters@, s)
        } else {
            0
        }
    }
}

/// The total time accounted to the entries of one thread id of one kind.
pub open spec fn thread_realtime(ts: Seq<MSAccThread>, ty: Seq<char>, id: u64) -> int
    decreases ts.len(),
{
    if ts.len() == 0 {
        0
    } else {
        thread_realtime(ts.drop_last(), ty, id) + if ts.last().thread_type@ == ty
            && ts.last().thread_id == id {
            ts.last().total_micros()
        } else {
            0
        }
    }
}

/// The non-sleeping time accounted to the entries of one thread id of
/// one kind.
pub open spec fn thread_runtime(ts: Seq<MSAccThread>, ty: Seq<char>, id: u64) -> int
    decreases ts.len(),
{
    if ts.len() == 0 {
        0
    } else {
        thread_runtime(ts.drop_last(), ty, id) + if ts.last().thread_type@ == ty
            && ts.last().thread_id == id {
            ts.last().total_micros() - ts.last().spec_sleep_micros()
        } else {
            0
        }
    }
}

/// The digit width used for a kind's thread-id child names.
pub open spec fn type_id_width(ts: Seq<MSAccThread>, ty: Seq<char>) -> int
    decreases ts.len(),
{
    if ts.len() == 0 {
        1
    } else {
        let w = type_id_width(ts.drop_last(), ty);
        if ts.last().thread_type@ == ty && ts.last().thread_id / 10 + 1 > w {
            ts.last().thread_id / 10 + 1
        } else {
            w
        }
    }
}

/// The zero-padded decimal characters of a thread id.
pub open spec fn padded_chars(id: u64, w: int) -> Seq<char> {
    crate::text::spec_zero_padded(id, w).map_values(|b: u8| b as char)
}

/// The child entry name of one execution state of one thread kind.
pub open spec fn util_state_name(ty: Seq<char>, s: Seq<char>) -> Seq<char> {
    "utilization."@ + (ty + (".state."@ + s))
}

/// The child entry name of one thread of one thread kind.
pub open spec fn util_thread_name(ty: Seq<char>, id: u64, w: int) -> Seq<char> {
    "utilization."@ + (ty + (".thread."@ + padded_chars(id, w)))
}

/// One state's share is within the thread's total.
proof fn lemma_pair_state_bounds(cs: Seq<(String, u64)>, s: Seq<char>)
    ensures
        0 <= pair_state_sum(cs, s) <= pairs_total(cs),
    decreases cs.len(),
{
    if cs.len() > 0 {
        lemma_pair_state_bounds(cs.drop_last(), s);
    }
}

/// A prefix of the state list contributes at most the whole list.
proof fn lemma_pair_state_take(cs: Seq<(String, u64)>, s: Seq<char>, p: int)
    requires
        0 <= p <= cs.len(),
    ensures
        0 <= pair_state_sum(cs.take(p), s) <= pair_state_sum(cs, s),
    decreases cs.len() - p,
{
    lemma_pair_state_bounds(cs.take(p), s);
    if p == cs.len() {
        assert(cs.take(p) =~= cs);
    } else {
        lemma_pair_state_take(cs, s, p + 1);
        assert(cs.take(p + 1).drop_last() =~= cs.take(p));
        assert(cs.take(p + 1).last() == cs[p]);
    }
}

/// A state's time is within its kind's accounted total.
proof fn lemma_state_sums(ts: Seq<MSAccThread>, ty: Seq<char>, s: Seq<char>)
    ensures
        0 <= state_time(ts, ty, s) <= type_realtime(ts, ty),
    decreases ts.len(),
{
    if ts.len() > 0 {
        lemma_state_sums(ts.drop_last(), ty, s);
        lemma_pair_state_bounds(ts.last().counters@, s);
    }
}

/// A partial pass over one kind's state sums stays within the grand
/// total.
proof fn lemma_state_partial(ts: Seq<MSAccThread>, ty: Seq<char>, s: Seq<char>, k: int, p: int)
    requires
        0 <= k < ts.len(),
        ts[k].thread_type@ == ty,
        0 <= p <= ts[k].counters@.len(),
    ensures
        state_time(ts.take(k), ty, s) + pair_state_sum(ts[k].counters@.take(p), s)
            <= grand_total(ts),
        state_time(ts.take(k), ty, s) >= 0,
{
    assert(ts.take(k + 1).drop_last() =~= ts.take(k));
    assert(ts.take(k + 1).last() == ts[k]);
    lemma_pair_state_take(ts[k].counters@, s, p);
    lemma_state_sums(ts.take(k), ty, s);
    lemma_state_sums(ts.take(k + 1), ty, s);
    lemma_type_sums_take(ts, ty, k + 1);
    lemma_type_sums(ts.take(k + 1), ty);
}

/// One thread id's times are within its kind's accounted total.
proof fn lemma_thread_sums(ts: Seq<MSAccThread>, ty: Seq<char>, id: u64)
    ensures
        0 <= thread_runtime(ts, ty, id) <= thread_realtime(ts, ty, id) <= type_realtime(ts, ty),
    decreases ts.len(),
{
    if ts.len() > 0 {
        lemma_thread_sums(ts.drop_last(), ty, id);
        crate::erlang::lemma_pair_bounds(ts.last().counters@, "sleep"@);
    }
}

/// A partial pass over one id's sums stays within the grand total.
proof fn lemma_thread_partial(ts: Seq<MSAccThread>, ty: Seq<char>, id: u64, k: int)
    requires
        0 <= k <= ts.len(),
    ensures
        0 <= thread_runtime(ts.take(k), ty, id) <= thread_realtime(ts.take(k), ty, id)
            <= grand_total(ts),
{
    lemma_thread_sums(ts.take(k), ty, id);
    lemma_type_sums(ts.take(k), ty);
    lemma_type_sums_take(ts, ty, k);
}

/// The id width is at least one digit.
proof fn lemma_type_id_width_pos(ts: Seq<MSAccThread>, ty: Seq<char>)
    ensures
        1 <= type_id_width(ts, ty) <= u64::MAX,
    decreases ts.len(),
{
    if ts.len() > 0 {
        lemma_type_id_width_pos(ts.drop_last(), ty);
    }
}

/// Dot-free segments split a dotted concatenation uniquely.
proof fn lemma_segment_split(a1: Seq<char>, z1: Seq<char>, a2: Seq<char>, z2: Seq<char>)
    requires
        dot_free(a1),
        dot_free(a2),
        z1.len() > 0,
        z2.len() > 0,
        z1[0] == '.',
        z2[0] == '.',
        a1 + z1 == a2 + z2,
    ensures
        a1 == a2,
        z1 == z2,
{
    if a1.len() < a2.len() {
        assert((a1 + z1)[a1.len() as int] == z1[0]);
        assert((a2 + z2)[a1.len() as int] == a2[a1.len() as int]);
        assert(false);
    } else if a1.len() > a2.len() {
        assert((a2 + z2)[a2.len() as int] == z2[0]);
        assert((a1 + z1)[a2.len() as int] == a1[a2.len() as int]);
        assert(false);
    } else {
        lemma_concat_parts(a1, z1);
        lemma_concat_parts(a2, z2);
    }
}

/// Two kind-scoped child names are equal only kind-by-kind and
/// part-by-part.
proof fn lemma_msacc_child_names(ty1: Seq<char>, z1: Seq<char>, ty2: Seq<char>, z2: Seq<char>)
    requires
        dot_free(ty1),
        dot_free(ty2),
        z1.len() > 0,
        z2.len() > 0,
        z1[0] == '.',
        z2[0] == '.',
        "utilization."@ + (ty1 + z1) == "utilization."@ + (ty2 + z2),
    ensures
        ty1 == ty2,
        z1 == z2,
{
    lemma_concat_parts("utilization."@, ty1 + z1);
    lemma_concat_parts("utilization."@, ty2 + z2);
    lemma_segment_split(ty1, z1, ty2, z2);
}

/// A kind-scoped child name never equals a kind's root name.
proof fn lemma_child_vs_root(ty1: Seq<char>, z1: Seq<char>, ty2: Seq<char>)
    requires
        dot_free(ty2),
        z1.len() > 0,
        z1[0] == '.',
    ensures
        "utilization."@ + (ty1 + z1) != util_root_name(ty2),
{
    if "utilization."@ + (ty1 + z1) == util_root_name(ty2) {
        lemma_concat_parts("utilization."@, ty1 + z1);
        lemma_concat_parts("utilization."@, ty2);
        assert(ty1 + z1 == ty2);
        assert((ty1 + z1)[ty1.len() as int] == z1[0]);
        assert(ty2[ty1.len() as int] != '.');
    }
}

/// A name under the utilization prefix is untouched by the other entry
/// families.
proof fn lemma_util_prefixed_survives(nm: Seq<char>)
    requires
        has_prefix(nm, "utilization."@),
    ensures
        !is_fixed_name(nm),
        nm != "statistics.run_queue"@,
        !has_prefix(nm, "statistics.run_queue."@),
        !has_prefix(nm, "memory."@),
{
    reveal_strlit("system_info.processe_count");
    reveal_strlit("system_info.port_count");
    reveal_strlit("system_info.atom_count");
    reveal_strlit("system_info.ets_count");
    reveal_strlit("statistics.context_switches");
    reveal_strlit("statistics.exact_reductions");
    reveal_strlit("statistics.garbage_collection");
    reveal_strlit("statistics.runtime");
    reveal_strlit("statistics.io.total_bytes");
    reveal_strlit("statistics.io.input_bytes");
    reveal_strlit("statistics.io.output_bytes");
    reveal_strlit("statistics.run_queue");
    reveal_strlit("statistics.run_queue.");
    reveal_strlit("memory.");
    reveal_strlit("utilization.");
    lemma_prefix_index(nm, "utilization."@, 0);
    assert(nm[0] == 'u');
    if has_prefix(nm, "statistics.run_queue."@) {
        lemma_prefix_index(nm, "statistics.run_queue."@, 0);
    }
    if has_prefix(nm, "memory."@) {
        lemma_prefix_index(nm, "memory."@, 0);
    }
}

/// Some thread among the first `i` already carries this kind.
pub open spec fn type_seen(ts: Seq<MSAccThread>, i: int, ty: Seq<char>) -> bool {
    exists|q: int| 0 <= q < i && (#[trigger] ts[q]).thread_type@ == ty
}

/// A prefix of the run-queue reply sums at most the whole reply.
proof fn lemma_u64_sum_take(s: Seq<u64>, k: int)
    requires
        0 <= k <= s.len(),
    ensures
        0 <= u64_seq_sum(s.take(k)) <= u64_seq_sum(s),
    decreases s.len() - k,
{
    lemma_u64_sum_nonneg(s.take(k));
    if k == s.len() {
        assert(s.take(k) =~= s);
    } else {
        lemma_u64_sum_take(s, k + 1);
        assert(s.take(k + 1).drop_last() =~= s.take(k));
        assert(s.take(k + 1).last() == s[k]);
    }
}

/// A run-queue sum is nonnegative.
proof fn lemma_u64_sum_nonneg(s: Seq<u64>)
    ensures
        u64_seq_sum(s) >= 0,
    decreases s.len(),
{
    if s.len() > 0 {
        lemma_u64_sum_nonneg(s.drop_last());
    }
}

/// Sums the run-queue lengths, detecting overflow.
fn checked_u64_sum(s: &Vec<u64>) -> (r: Option<u64>)
    ensures
        match r {
            Some(v) => v == u64_seq_sum(s@) && u64_seq_sum(s@) <= u64::MAX,
            None => u64_seq_sum(s@) > u64::MAX,
        },
{
    let n = s.len();
    let mut acc: u64 = 0;
    let mut i: usize = 0;
    while i < n
        invariant
            i <= n,
            n == s@.len(),
            acc == u64_seq_sum(s@.take(i as int)),
        decreases n - i,
    {
        proof {
            assert(s@.take(i + 1).drop_last() =~= s@.take(i as int));
            assert(s@.take(i + 1).last() == s@[i as int]);
            lemma_u64_sum_take(s@, i + 1);
        }
        match acc.checked_add(s[i]) {
            Some(v) => {
                acc = v;
            },
            None => {
                return None;
            },
        }
        i = i + 1;
    }
    proof {
        assert(s@.take(n as int) =~= s@);
    }
    Some(acc)
}

/// A partial pass over the sample's counters stays within the grand
/// total.
proof fn lemma_grand_partial(ts: Seq<MSAccThread>, t: int, p: int)
    requires
        0 <= t < ts.len(),
        0 <= p <= ts[t].counters@.len(),
    ensures
        grand_total(ts.take(t)) + pairs_total(ts[t].counters@.take(p)) <= grand_total(ts),
{
    assert(ts.take(t + 1).drop_last() =~= ts.take(t));
    assert(ts.take(t + 1).last() == ts[t]);
    crate::erlang::lemma_pairs_total_take(ts[t].counters@, p);
    lemma_type_sums_take(ts, Seq::<char>::empty(), t + 1);
}

/// Sums every counter of every thread, detecting overflow.
fn checked_grand_total(ts: &Vec<MSAccThread>) -> (r: Option<u64>)
    ensures
        match r {
            Some(v) => v == grand_total(ts@) && grand_total(ts@) <= u64::MAX,
            None => grand_total(ts@) > u64::MAX,
        },
{
    let n = ts.len();
    let mut acc: u64 = 0;
    let mut t: usize = 0;
    while t < n
        invariant
            t <= n,
            n == ts@.len(),
            acc == grand_total(ts@.take(t as int)),
        decreases n - t,
    {
        let cs = &ts[t].counters;
        let cn = cs.len();
        let mut p: usize = 0;
        while p < cn
            invariant
                p <= cn,
                t < n,
                n == ts@.len(),
                cn == ts@[t as int].counters@.len(),
                cs@ == ts@[t as int].counters@,
                acc == grand_total(ts@.take(t as int)) + pairs_total(
                    ts@[t as int].counters@.take(p as int),
                ),
            decreases cn - p,
        {
            proof {
                assert(cs@.take(p + 1).drop_last() =~= cs@.take(p as int));
                assert(cs@.take(p + 1).last() == cs@[p as int]);
                lemma_grand_partial(ts@, t as int, p + 1);
            }
            match acc.checked_add(cs[p].1) {
                Some(v) => {
                    acc = v;
                },
                None => {
                    proof {
                        lemma_grand_partial(ts@, t as int, p + 1);
                    }
                    return None;
                },
            }
            p = p + 1;
        }
        proof {
            assert(cs@.take(cn as int) =~= ts@[t as int].counters@);
            assert(ts@.take(t + 1).drop_last() =~= ts@.take(t as int));
            assert(ts@.take(t + 1).last() == ts@[t as int]);
        }
        t = t + 1;
    }
    proof {
        assert(ts@.take(n as int) =~= ts@);
    }
    Some(acc)
}

/// One of the eleven fixed entry names of a snapshot.
pub open spec fn is_fixed_name(n: Seq<char>) -> bool {
    ||| n == "system_info.processe_count"@
    ||| n == "system_info.port_count"@
    ||| n == "system_info.atom_count"@
    ||| n == "system_info.ets_count"@
    ||| n == "statistics.context_switches"@
    ||| n == "statistics.exact_reductions"@
    ||| n == "statistics.garbage_collection"@
    ||| n == "statistics.runtime"@
    ||| n == "statistics.io.total_bytes"@
    ||| n == "statistics.io.input_bytes"@
    ||| n == "statistics.io.output_bytes"@
}

/// A name sharing a nonempty prefix shares its characters.
pub proof fn lemma_prefix_index(n: Seq<char>, p: Seq<char>, k: int)
    requires
        has_prefix(n, p),
        0 <= k < p.len(),
    ensures
        n[k] == p[k],
{
    assert(n.take(p.len() as int)[k] == n[k]);
}

/// Inserts the fixed gauge and counter entries of one cycle.
#[verifier::rlimit(100)]
pub fn insert_fixed_metrics(m: &mut Metrics, sample: &CollectedSample, io_total: u64)
    requires
        old(m)@.wf(),
    ensures
        final(m)@.wf(),
        final(m).wall_time_ms == old(m).wall_time_ms,
        final(m).timestamp_micros == old(m).timestamp_micros,
        final(m)@.get("system_info.processe_count"@) == Some(
            MetricValueView::Gauge { value: sample.process_count, parent: None },
        ),
        final(m)@.get("system_info.port_count"@) == Some(
            MetricValueView::Gauge { value: sample.port_count, parent: None },
        ),
        final(m)@.get("system_info.atom_count"@) == Some(
            MetricValueView::Gauge { value: sample.atom_count, parent: None },
        ),
        final(m)@.get("system_info.ets_count"@) == Some(
            MetricValueView::Gauge { value: sample.ets_count, parent: None },
        ),
        final(m)@.get("statistics.context_switches"@) == Some(
            MetricValueView::Counter {
                raw_value: sample.context_switches,
                rate_per_sec: None,
                parent: None,
            },
        ),
        final(m)@.get("statistics.exact_reductions"@) == Some(
            MetricValueView::Counter {
                raw_value: sample.exact_reductions,
                rate_per_sec: None,
                parent: None,
            },
        ),
        final(m)@.get("statistics.garbage_collection"@) == Some(
            MetricValueView::Counter {
                raw_value: sample.garbage_collection,
                rate_per_sec: None,
                parent: None,
            },
        ),
        final(m)@.get("statistics.runtime"@) == Some(
            MetricValueView::Counter {
                raw_value: sample.runtime,
                rate_per_sec: None,
                parent: None,
            },
        ),
        final(m)@.get("statistics.io.total_bytes"@) == Some(
            MetricValueView::Counter { raw_value: io_total, rate_per_sec: None, parent: None },
        ),
        final(m)@.get("statistics.io.input_bytes"@) == Some(
            MetricValueView::Counter {
                raw_value: sample.io_input_bytes,
                rate_per_sec: None,
                parent: Some("statistics.io.total_bytes"@),
            },
        ),
        final(m)@.get("statistics.io.output_bytes"@) == Some(
            MetricValueView::Counter {
                raw_value: sample.io_output_bytes,
                rate_per_sec: None,
                parent: Some("statistics.io.total_bytes"@),
            },
        ),
        forall|n: Seq<char>| !is_fixed_name(n) ==> final(m)@.get(n) == old(m)@.get(n),
        rates_absent(old(m)@) ==> rates_absent(final(m)@),
        parents_present(old(m)@) ==> parents_present(final(m)@),
{
    proof {
        reveal_strlit("system_info.processe_count");
        reveal_strlit("system_info.port_count");
        reveal_strlit("system_info.atom_count");
        reveal_strlit("system_info.ets_count");
        reveal_strlit("statistics.context_switches");
        reveal_strlit("statistics.exact_reductions");
        reveal_strlit("statistics.garbage_collection");
        reveal_strlit("statistics.runtime");
        reveal_strlit("statistics.io.total_bytes");
        reveal_strlit("statistics.io.input_bytes");
        reveal_strlit("statistics.io.output_bytes");
        assert("system_info.port_count"@[12] != "system_info.atom_count"@[12]);
        assert("statistics.context_switches"@[11] != "statistics.exact_reductions"@[11]);
        assert("statistics.io.total_bytes"@[14] != "statistics.io.input_bytes"@[14]);
        assert("system_info.processe_count"@[1] != "statistics.io.output_bytes"@[1]);
    }
    let ghost f0 = m@;
    m.insert("system_info.processe_count", MetricValue::gauge(sample.process_count));
    let ghost f1 = m@;
    m.insert("system_info.port_count", MetricValue::gauge(sample.port_count));
    let ghost f2 = m@;
    m.insert("system_info.atom_count", MetricValue::gauge(sample.atom_count));
    let ghost f3 = m@;
    m.insert("system_info.ets_count", MetricValue::gauge(sample.ets_count));
    let ghost f4 = m@;
    m.insert("statistics.context_switches", MetricValue::counter(sample.context_switches));
    let ghost f5 = m@;
    m.insert("statistics.exact_reductions", MetricValue::counter(sample.exact_reductions));
    let ghost f6 = m@;
    m.insert("statistics.garbage_collection", MetricValue::counter(sample.garbage_collection));
    let ghost f7 = m@;
    m.insert("statistics.runtime", MetricValue::counter(sample.runtime));
    let ghost f8 = m@;
    m.insert("statistics.io.total_bytes", MetricValue::counter(io_total));
    let ghost f9 = m@;
    m.insert(
        "statistics.io.input_bytes",
        MetricValue::counter_with_parent(sample.io_input_bytes, "statistics.io.total_bytes"),
    );
    let ghost f10 = m@;
    m.insert(
        "statistics.io.output_bytes",
        MetricValue::counter_with_parent(sample.io_output_bytes, "statistics.io.total_bytes"),
    );
    proof {
        if parents_present(old(m)@) {
            lemma_parents_step(f0, f1, "system_info.processe_count"@, None);
            lemma_parents_step(f1, f2, "system_info.port_count"@, None);
            lemma_parents_step(f2, f3, "system_info.atom_count"@, None);
            lemma_parents_step(f3, f4, "system_info.ets_count"@, None);
            lemma_parents_step(f4, f5, "statistics.context_switches"@, None);
            lemma_parents_step(f5, f6, "statistics.exact_reductions"@, None);
            lemma_parents_step(f6, f7, "statistics.garbage_collection"@, None);
            lemma_parents_step(f7, f8, "statistics.runtime"@, None);
            lemma_parents_step(f8, f9, "statistics.io.total_bytes"@, None);
            lemma_parents_step(
                f9,
                f10,
                "statistics.io.input_bytes"@,
                Some("statistics.io.total_bytes"@),
            );
            lemma_parents_step(
                f10,
                m@,
                "statistics.io.output_bytes"@,
                Some("statistics.io.total_bytes"@),
            );
        }
        if rates_absent(old(m)@) {
            assert forall|n2: Seq<char>|
                match #[trigger] m@.get(n2) {
                    Some(v) => v.counter_rate() is None,
                    None => true,
                } by {
                if !is_fixed_name(n2) {
                    assert(m@.get(n2) == old(m)@.get(n2));
                }
            }
        }
    }
}

/// Distinct scheduler positions get distinct child names.
proof fn lemma_rq_child_names_injective(i1: u64, i2: u64, w: int)
    requires
        run_queue_child_name(i1, w) == run_queue_child_name(i2, w),
    ensures
        i1 == i2,
{
    let p1 = crate::text::spec_zero_padded(i1, w).map_values(|b: u8| b as char);
    let p2 = crate::text::spec_zero_padded(i2, w).map_values(|b: u8| b as char);
    lemma_concat_parts("statistics.run_queue."@, p1);
    lemma_concat_parts("statistics.run_queue."@, p2);
    assert(p1 == p2);
    let b1 = crate::text::spec_zero_padded(i1, w);
    let b2 = crate::text::spec_zero_padded(i2, w);
    assert forall|t: int| 0 <= t < b1.len() implies b1[t] == b2[t] by {
        assert(p1[t] == p2[t]);
        crate::text::lemma_byte_char_injective(b1[t], b2[t]);
    }
    assert(b1 =~= b2);
    crate::text::lemma_zero_padded_injective(i1, i2, w);
}

/// Inserts the run-queue total and one child entry per scheduler.
pub fn insert_run_queue_metrics(m: &mut Metrics, lengths: &Vec<u64>, total: u64)
    requires
        old(m)@.wf(),
        total == u64_seq_sum(lengths@),
    ensures
        final(m)@.wf(),
        final(m).wall_time_ms == old(m).wall_time_ms,
        final(m).timestamp_micros == old(m).timestamp_micros,
        final(m)@.get("statistics.run_queue"@) == Some(
            MetricValueView::Gauge { value: total, parent: None },
        ),
        forall|i: int|
            0 <= i < lengths@.len() ==> final(m)@.get(
                run_queue_child_name(i as u64, lengths@.len() as int / 10 + 1),
            ) == Some(
                MetricValueView::Gauge {
                    value: (#[trigger] lengths@[i]),
                    parent: Some("statistics.run_queue"@),
                },
            ),
        forall|n: Seq<char>|
            n != "statistics.run_queue"@ && !has_prefix(n, "statistics.run_queue."@) ==> final(m)@.get(n) == old(m)@.get(n),
        rates_absent(old(m)@) ==> rates_absent(final(m)@),
        parents_present(old(m)@) ==> parents_present(final(m)@),
{
    proof {
        reveal_strlit("statistics.run_queue");
        reveal_strlit("statistics.run_queue.");
    }
    let ghost rq0 = m@;
    m.insert("statistics.run_queue", MetricValue::gauge(total));
    proof {
        if parents_present(old(m)@) {
            lemma_parents_step(rq0, m@, "statistics.run_queue"@, None);
        }
    }
    let n = lengths.len();
    let width = n / 10 + 1;
    let ghost w = lengths@.len() as int / 10 + 1;
    proof {
        assert(w == width);
    }
    let mut i: usize = 0;
    while i < n
        invariant
            i <= n,
            n == lengths@.len(),
            w == width,
            width == n as int / 10 + 1,
            m@.wf(),
            m.wall_time_ms == old(m).wall_time_ms,
            m.timestamp_micros == old(m).timestamp_micros,
            m@.get("statistics.run_queue"@) == Some(
                MetricValueView::Gauge { value: total, parent: None },
            ),
            forall|k: int|
                0 <= k < i ==> m@.get(run_queue_child_name(k as u64, w)) == Some(
                    MetricValueView::Gauge {
                        value: (#[trigger] lengths@[k]),
                        parent: Some("statistics.run_queue"@),
                    },
                ),
            forall|n2: Seq<char>|
                n2 != "statistics.run_queue"@ && !has_prefix(n2, "statistics.run_queue."@)
                    ==> m@.get(n2) == old(m)@.get(n2),
            rates_absent(old(m)@) ==> rates_absent(m@),
            parents_present(old(m)@) ==> parents_present(m@),
        decreases n - i,
    {
        let padded = format_u64_zero_padded(i as u64, width as u64);
        let mut name: String = "statistics.run_queue.".to_owned();
        name.append(padded.as_str());
        proof {
            reveal_strlit("statistics.run_queue");
            reveal_strlit("statistics.run_queue.");
            assert(name@ == run_queue_child_name(i as u64, w));
            lemma_concat_parts(
                "statistics.run_queue."@,
                crate::text::spec_zero_padded(i as u64, w).map_values(|b: u8| b as char),
            );
            assert(has_prefix(name@, "statistics.run_queue."@));
            assert(name@ != "statistics.run_queue"@) by {
                crate::text::lemma_dec_bytes_ascii((i as u64) as nat);
                assert(name@.len() >= 22);
            }
        }
        let ghost before = m@;
        m.insert(
            name.as_str(),
            MetricValue::gauge_with_parent(lengths[i], "statistics.run_queue"),
        );
        proof {
            assert forall|k: int|
                0 <= k < i + 1 implies m@.get(run_queue_child_name(k as u64, w)) == Some(
                MetricValueView::Gauge {
                    value: (#[trigger] lengths@[k]),
                    parent: Some("statistics.run_queue"@),
                },
            ) by {
                if k < i {
                    assert(run_queue_child_name(k as u64, w) != name@) by {
                        if run_queue_child_name(k as u64, w) == name@ {
                            lemma_rq_child_names_injective(k as u64, i as u64, w);
                        }
                    }
                    assert(m@.get(run_queue_child_name(k as u64, w)) == before.get(
                        run_queue_child_name(k as u64, w),
                    ));
                }
            }
            if rates_absent(old(m)@) {
                assert forall|n2: Seq<char>|
                    match #[trigger] m@.get(n2) {
                        Some(v) => v.counter_rate() is None,
                        None => true,
                    } by {
                    if n2 != name@ {
                        assert(m@.get(n2) == before.get(n2));
                    }
                }
            }
            if parents_present(old(m)@) {
                lemma_parents_step(before, m@, name@, Some("statistics.run_queue"@));
            }
        }
        i = i + 1;
    }
}

/// The value registered under a memory category, if any.
pub open spec fn mem_lookup(ms: Seq<(String, u64)>, k: Seq<char>) -> Option<u64>
    decreases ms.len(),
{
    if ms.len() == 0 {
        None
    } else if ms[0].0@ == k {
        Some(ms[0].1)
    } else {
        mem_lookup(ms.skip(1), k)
    }
}

/// Distinct memory categories get distinct child names.
proof fn lemma_memory_child_names_injective(k1: Seq<char>, k2: Seq<char>)
    requires
        memory_child_name(k1) == memory_child_name(k2),
    ensures
        k1 == k2,
{
    lemma_concat_parts("memory."@, k1 + "_bytes"@);
    lemma_concat_parts("memory."@, k2 + "_bytes"@);
    assert(memory_child_name(k1) == "memory."@ + (k1 + "_bytes"@)) by {
        assert("memory."@ + k1 + "_bytes"@ =~= "memory."@ + (k1 + "_bytes"@));
    }
    assert(memory_child_name(k2) == "memory."@ + (k2 + "_bytes"@)) by {
        assert("memory."@ + k2 + "_bytes"@ =~= "memory."@ + (k2 + "_bytes"@));
    }
    assert(k1 + "_bytes"@ == k2 + "_bytes"@);
    lemma_concat_parts(k1, "_bytes"@);
    lemma_concat_parts(k2, "_bytes"@);
    assert(k1.len() == k2.len());
    assert(k1 == (k1 + "_bytes"@).take(k1.len() as int));
}

/// A memory child name is never the total entry's name.
proof fn lemma_memory_child_not_total(k: Seq<char>)
    requires
        k != "total"@,
    ensures
        memory_child_name(k) != "memory.total_bytes"@,
{
    reveal_strlit("memory.");
    reveal_strlit("_bytes");
    reveal_strlit("total");
    reveal_strlit("memory.total_bytes");
    if memory_child_name(k) == "memory.total_bytes"@ {
        assert("memory.total_bytes"@ =~= "memory."@ + ("total"@ + "_bytes"@));
        assert(memory_child_name(k) == "memory."@ + (k + "_bytes"@)) by {
            assert("memory."@ + k + "_bytes"@ =~= "memory."@ + (k + "_bytes"@));
        }
        lemma_concat_parts("memory."@, k + "_bytes"@);
        lemma_concat_parts("memory."@, "total"@ + "_bytes"@);
        assert(k + "_bytes"@ == "total"@ + "_bytes"@);
        lemma_concat_parts(k, "_bytes"@);
        lemma_concat_parts("total"@, "_bytes"@);
        assert(k.len() == "total"@.len());
        assert(k == (k + "_bytes"@).take(k.len() as int));
        assert("total"@ == ("total"@ + "_bytes"@).take("total"@.len() as int));
    }
}

/// Inserts the memory total and one child entry per other category.
/// Fails, leaving the snapshot unchanged, when the reply lacks its
/// `total` category.
pub fn insert_memory_metrics(m: &mut Metrics, memory: &Vec<(String, u64)>) -> (r: Result<
    (),
    CollectError,
>)
    requires
        old(m)@.wf(),
        forall|i: int, j: int|
            0 <= i < memory@.len() && 0 <= j < memory@.len() && i != j ==> (
            #[trigger] memory@[i]).0@ != (#[trigger] memory@[j]).0@,
    ensures
        final(m)@.wf(),
        final(m).wall_time_ms == old(m).wall_time_ms,
        final(m).timestamp_micros == old(m).timestamp_micros,
        match r {
            Ok(()) => {
                &&& mem_lookup(memory@, "total"@) is Some
                &&& final(m)@.get("memory.total_bytes"@) == Some(
                    MetricValueView::Gauge {
                        value: mem_lookup(memory@, "total"@).unwrap(),
                        parent: None,
                    },
                )
                &&& forall|i: int|
                    0 <= i < memory@.len() && (#[trigger] memory@[i]).0@ != "total"@ ==> final(m)@.get(memory_child_name(memory@[i].0@)) == Some(
                        MetricValueView::Gauge {
                            value: memory@[i].1,
                            parent: Some("memory.total_bytes"@),
                        },
                    )
                &&& forall|n: Seq<char>|
                    !has_prefix(n, "memory."@) ==> final(m)@.get(n) == old(m)@.get(n)
                &&& (rates_absent(old(m)@) ==> rates_absent(final(m)@))
                &&& (parents_present(old(m)@) ==> parents_present(final(m)@))
            },
            Err(e) => {
                &&& e == CollectError::MissingMemoryTotal
                &&& mem_lookup(memory@, "total"@) is None
                &&& final(m)@ == old(m)@
            },
        },
{
    proof {
        reveal_strlit("memory.total_bytes");
        reveal_strlit("memory.");
        reveal_strlit("total");
    }
    let n = memory.len();
    let mut total: Option<u64> = None;
    let mut i: usize = 0;
    proof {
        assert(memory@.skip(0) =~= memory@);
    }
    while i < n
        invariant
            i <= n,
            n == memory@.len(),
            match total {
                Some(v) => mem_lookup(memory@, "total"@) == Some(v),
                None => mem_lookup(memory@, "total"@) == mem_lookup(
                    memory@.skip(i as int),
                    "total"@,
                ),
            },
        decreases n - i,
    {
        if total.is_none() {
            proof {
                assert(memory@.skip(i as int)[0] == memory@[i as int]);
            }
            if name_eq(memory[i].0.as_str(), "total") {
                total = Some(memory[i].1);
            } else {
                proof {
                    assert(memory@.skip(i as int).skip(1) =~= memory@.skip(i + 1));
                }
            }
        }
        i = i + 1;
    }
    let total_v: u64 = match total {
        Some(v) => v,
        None => {
            proof {
                assert(memory@.skip(n as int).len() == 0);
            }
            return Err(CollectError::MissingMemoryTotal);
        },
    };
    let ghost mm0 = m@;
    m.insert("memory.total_bytes", MetricValue::gauge(total_v));
    proof {
        if parents_present(old(m)@) {
            lemma_parents_step(mm0, m@, "memory.total_bytes"@, None);
        }
        lemma_concat_parts("memory."@, "total_bytes"@);
        assert(has_prefix("memory.total_bytes"@, "memory."@)) by {
            reveal_strlit("total_bytes");
            assert("memory.total_bytes"@ =~= "memory."@ + "total_bytes"@);
        }
    }
    let mut j: usize = 0;
    while j < n
        invariant
            j <= n,
            n == memory@.len(),
            m@.wf(),
            m.wall_time_ms == old(m).wall_time_ms,
            m.timestamp_micros == old(m).timestamp_micros,
            forall|a: int, b: int|
                0 <= a < memory@.len() && 0 <= b < memory@.len() && a != b ==> (
                #[trigger] memory@[a]).0@ != (#[trigger] memory@[b]).0@,
            mem_lookup(memory@, "total"@) == Some(total_v),
            m@.get("memory.total_bytes"@) == Some(
                MetricValueView::Gauge { value: total_v, parent: None },
            ),
            forall|k: int|
                0 <= k < j && (#[trigger] memory@[k]).0@ != "total"@ ==> m@.get(
                    memory_child_name(memory@[k].0@),
                ) == Some(
                    MetricValueView::Gauge {
                        value: memory@[k].1,
                        parent: Some("memory.total_bytes"@),
                    },
                ),
            forall|n2: Seq<char>|
                !has_prefix(n2, "memory."@) ==> m@.get(n2) == old(m)@.get(n2),
            rates_absent(old(m)@) ==> rates_absent(m@),
            parents_present(old(m)@) ==> parents_present(m@),
        decreases n - j,
    {
        if !name_eq(memory[j].0.as_str(), "total") {
            let mut name: String = "memory.".to_owned();
            name.append(memory[j].0.as_str());
            name.append("_bytes");
            proof {
                assert(name@ == memory_child_name(memory@[j as int].0@)) by {
                    assert(name@ =~= "memory."@ + memory@[j as int].0@ + "_bytes"@);
                }
                assert(has_prefix(name@, "memory."@)) by {
                    assert(name@ =~= "memory."@ + (memory@[j as int].0@ + "_bytes"@));
                    lemma_concat_parts("memory."@, memory@[j as int].0@ + "_bytes"@);
                }
                lemma_memory_child_not_total(memory@[j as int].0@);
            }
            let ghost before = m@;
            m.insert(
                name.as_str(),
                MetricValue::gauge_with_parent(memory[j].1, "memory.total_bytes"),
            );
            proof {
                assert forall|k: int|
                    0 <= k < j + 1 && (#[trigger] memory@[k]).0@ != "total"@ implies m@.get(
                    memory_child_name(memory@[k].0@),
                ) == Some(
                    MetricValueView::Gauge {
                        value: memory@[k].1,
                        parent: Some("memory.total_bytes"@),
                    },
                ) by {
                    if k < j {
                        assert(memory_child_name(memory@[k].0@) != name@) by {
                            if memory_child_name(memory@[k].0@) == name@ {
                                lemma_memory_child_names_injective(
                                    memory@[k].0@,
                                    memory@[j as int].0@,
                                );
                            }
                        }
                        assert(m@.get(memory_child_name(memory@[k].0@)) == before.get(
                            memory_child_name(memory@[k].0@),
                        ));
                    }
                }
                if rates_absent(old(m)@) {
                    assert forall|n2: Seq<char>|
                        match #[trigger] m@.get(n2) {
                            Some(v) => v.counter_rate() is None,
                            None => true,
                        } by {
                        if n2 != name@ {
                            assert(m@.get(n2) == before.get(n2));
                        }
                    }
                }
                if parents_present(old(m)@) {
                    lemma_parents_step(before, m@, name@, Some("memory.total_bytes"@));
                }
            }
        }
        j = j + 1;
    }
    Ok(())
}


/// The digit width for the kind of thread `i`'s id child names.
fn type_width_exec(threads: &Vec<MSAccThread>, i: usize) -> (w: u64)
    requires
        i < threads@.len(),
    ensures
        w == type_id_width(threads@, threads@[i as int].thread_type@),
        w >= 1,
{
    let ghost ty = threads@[i as int].thread_type@;
    let n = threads.len();
    let mut w: u64 = 1;
    let mut k: usize = 0;
    proof {
        assert(threads@.take(0) =~= Seq::<MSAccThread>::empty());
    }
    while k < n
        invariant
            k <= n,
            i < n,
            n == threads@.len(),
            ty == threads@[i as int].thread_type@,
            w == type_id_width(threads@.take(k as int), ty),
            w >= 1,
        decreases n - k,
    {
        proof {
            assert(threads@.take(k + 1).drop_last() =~= threads@.take(k as int));
            assert(threads@.take(k + 1).last() == threads@[k as int]);
        }
        if name_eq(threads[k].thread_type.as_str(), threads[i].thread_type.as_str()) {
            let cand = threads[k].thread_id / 10 + 1;
            if cand > w {
                w = cand;
            }
        }
        k = k + 1;
    }
    proof {
        assert(threads@.take(n as int) =~= threads@);
    }
    w
}

/// The time the kind of thread `i` accounts to one state.
fn state_sum_exec(threads: &Vec<MSAccThread>, i: usize, s: &str) -> (r: u64)
    requires
        i < threads@.len(),
        grand_total(threads@) <= u64::MAX,
    ensures
        r == state_time(threads@, threads@[i as int].thread_type@, s@),
{
    let ghost ty = threads@[i as int].thread_type@;
    let n = threads.len();
    let mut sum: u64 = 0;
    let mut k: usize = 0;
    proof {
        assert(threads@.take(0) =~= Seq::<MSAccThread>::empty());
    }
    while k < n
        invariant
            k <= n,
            i < n,
            n == threads@.len(),
            grand_total(threads@) <= u64::MAX,
            ty == threads@[i as int].thread_type@,
            sum == state_time(threads@.take(k as int), ty, s@),
        decreases n - k,
    {
        proof {
            assert(threads@.take(k + 1).drop_last() =~= threads@.take(k as int));
            assert(threads@.take(k + 1).last() == threads@[k as int]);
        }
        if name_eq(threads[k].thread_type.as_str(), threads[i].thread_type.as_str()) {
            let cs = &threads[k].counters;
            let cn = cs.len();
            let mut p: usize = 0;
            proof {
                assert(cs@.take(0) =~= Seq::<(String, u64)>::empty());
                lemma_state_partial(threads@, ty, s@, k as int, 0);
            }
            while p < cn
                invariant
                    p <= cn,
                    k < n,
                    i < n,
                    n == threads@.len(),
                    grand_total(threads@) <= u64::MAX,
                    cn == threads@[k as int].counters@.len(),
                    cs@ == threads@[k as int].counters@,
                    ty == threads@[i as int].thread_type@,
                    threads@[k as int].thread_type@ == ty,
                    sum == state_time(threads@.take(k as int), ty, s@) + pair_state_sum(
                        cs@.take(p as int),
                        s@,
                    ),
                decreases cn - p,
            {
                proof {
                    assert(cs@.take(p + 1).drop_last() =~= cs@.take(p as int));
                    assert(cs@.take(p + 1).last() == cs@[p as int]);
                    lemma_state_partial(threads@, ty, s@, k as int, p + 1);
                    lemma_state_partial(threads@, ty, s@, k as int, p as int);
                    lemma_pair_state_bounds(cs@.take(p as int), s@);
                    lemma_pair_state_bounds(cs@.take(p + 1), s@);
                }
                if name_eq(cs[p].0.as_str(), s) {
                    sum = sum + cs[p].1;
                }
                p = p + 1;
            }
            proof {
                assert(cs@.take(cn as int) =~= threads@[k as int].counters@);
            }
        }
        k = k + 1;
    }
    proof {
        assert(threads@.take(n as int) =~= threads@);
    }
    sum
}

/// The accounted and busy time of one thread id of the kind of thread
/// `i`.
fn thread_sums_exec(threads: &Vec<MSAccThread>, i: usize, id: u64) -> (r: (u64, u64))
    requires
        i < threads@.len(),
        grand_total(threads@) <= u64::MAX,
    ensures
        r.0 == thread_realtime(threads@, threads@[i as int].thread_type@, id),
        r.1 == thread_runtime(threads@, threads@[i as int].thread_type@, id),
        r.1 <= r.0,
{
    let ghost ty = threads@[i as int].thread_type@;
    let n = threads.len();
    let mut realtime: u64 = 0;
    let mut runtime: u64 = 0;
    let mut k: usize = 0;
    proof {
        assert(threads@.take(0) =~= Seq::<MSAccThread>::empty());
    }
    while k < n
        invariant
            k <= n,
            i < n,
            n == threads@.len(),
            grand_total(threads@) <= u64::MAX,
            ty == threads@[i as int].thread_type@,
            realtime == thread_realtime(threads@.take(k as int), ty, id),
            runtime == thread_runtime(threads@.take(k as int), ty, id),
        decreases n - k,
    {
        proof {
            assert(threads@.take(k + 1).drop_last() =~= threads@.take(k as int));
            assert(threads@.take(k + 1).last() == threads@[k as int]);
            lemma_thread_partial(threads@, ty, id, k + 1);
            lemma_thread_partial(threads@, ty, id, k as int);
        }
        if threads[k].thread_id == id
            && name_eq(threads[k].thread_type.as_str(), threads[i].thread_type.as_str()) {
            proof {
                crate::erlang::lemma_pair_bounds(threads@[k as int].counters@, "sleep"@);
                lemma_single_le_grand(threads@, k as int);
            }
            let tot = thread_total_exec(&threads[k]);
            let slp = threads[k].sleep_micros();
            realtime = realtime + tot;
            runtime = runtime + (tot - slp);
        }
        k = k + 1;
    }
    proof {
        assert(threads@.take(n as int) =~= threads@);
        lemma_thread_sums(threads@, ty, id);
    }
    (realtime, runtime)
}


/// All thread kinds are dot-free and every thread reports a sleep state.
pub open spec fn threads_wf(ts: Seq<MSAccThread>) -> bool {
    &&& forall|i: int| 0 <= i < ts.len() ==> dot_free((#[trigger] ts[i]).thread_type@)
    &&& forall|i: int|
        0 <= i < ts.len() ==> crate::erlang::pair_lookup(
            (#[trigger] ts[i]).counters@,
            "sleep"@,
        ) is Some
}

/// The utilization root entry a kind gets: its busy share of its
/// accounted time.
pub open spec fn msacc_root_value(ts: Seq<MSAccThread>, ty: Seq<char>) -> MetricValueView {
    MetricValueView::Utilization {
        percent_milli: spec_util_permilli(type_runtime(ts, ty), type_realtime(ts, ty)) as u64,
        parent: None,
    }
}

/// The child entry one execution state gets: the state's share of its
/// kind's accounted time, filed under the kind's root.
pub open spec fn msacc_state_value(
    ts: Seq<MSAccThread>,
    ty: Seq<char>,
    s: Seq<char>,
) -> MetricValueView {
    MetricValueView::Utilization {
        percent_milli: spec_util_permilli(state_time(ts, ty, s), type_realtime(ts, ty)) as u64,
        parent: Some(util_root_name(ty)),
    }
}

/// The child entry one thread id gets: the busy share of the time
/// accounted to that id, filed under the kind's root.
pub open spec fn msacc_thread_value(ts: Seq<MSAccThread>, ty: Seq<char>, id: u64) -> MetricValueView {
    MetricValueView::Utilization {
        percent_milli: spec_util_permilli(
            thread_runtime(ts, ty, id),
            thread_realtime(ts, ty, id),
        ) as u64,
        parent: Some(util_root_name(ty)),
    }
}

/// The snapshot holds, for every kind among the first `upto` threads,
/// its utilization root, one state child per execution state of the
/// kind, and one thread child per id of the kind.
pub open spec fn msacc_facts(m: MetricsView, ts: Seq<MSAccThread>, upto: int) -> bool {
    &&& forall|k: int|
        0 <= k < upto ==> m.get(util_root_name((#[trigger] ts[k]).thread_type@)) == Some(
            msacc_root_value(ts, ts[k].thread_type@),
        )
    &&& forall|k: int, p: int|
        0 <= k < ts.len() && 0 <= p < ts[k].counters@.len() && type_seen(
            ts,
            upto,
            ts[k].thread_type@,
        ) ==> m.get(
            util_state_name(ts[k].thread_type@, (#[trigger] ts[k].counters@[p]).0@),
        ) == Some(msacc_state_value(ts, ts[k].thread_type@, ts[k].counters@[p].0@))
    &&& forall|k: int|
        0 <= k < ts.len() && type_seen(ts, upto, (#[trigger] ts[k]).thread_type@) ==> m.get(
            util_thread_name(
                ts[k].thread_type@,
                ts[k].thread_id,
                type_id_width(ts, ts[k].thread_type@),
            ),
        ) == Some(msacc_thread_value(ts, ts[k].thread_type@, ts[k].thread_id))
}

/// With the whole thread list seen, the facts hold for every thread, so
/// each kind's root, state children and thread children are all present.
pub proof fn lemma_msacc_facts_all(m: MetricsView, ts: Seq<MSAccThread>, k: int, p: int)
    requires
        msacc_facts(m, ts, ts.len() as int),
        0 <= k < ts.len(),
    ensures
        m.get(util_root_name(ts[k].thread_type@)) == Some(
            msacc_root_value(ts, ts[k].thread_type@),
        ),
        0 <= p < ts[k].counters@.len() ==> m.get(
            util_state_name(ts[k].thread_type@, ts[k].counters@[p].0@),
        ) == Some(msacc_state_value(ts, ts[k].thread_type@, ts[k].counters@[p].0@)),
        m.get(
            util_thread_name(
                ts[k].thread_type@,
                ts[k].thread_id,
                type_id_width(ts, ts[k].thread_type@),
            ),
        ) == Some(msacc_thread_value(ts, ts[k].thread_type@, ts[k].thread_id)),
{
    assert(type_seen(ts, ts.len() as int, ts[k].thread_type@)) by {
        assert(0 <= k < ts.len() && (#[trigger] ts[k]).thread_type@ == ts[k].thread_type@);
    }
}

/// Inserting an entry under an unseen kind's name leaves every
/// established fact in place.
proof fn lemma_msacc_facts_frame(
    a: MetricsView,
    b: MetricsView,
    ts: Seq<MSAccThread>,
    upto: int,
    nm: Seq<char>,
    ty_new: Seq<char>,
)
    requires
        msacc_facts(a, ts, upto),
        threads_wf(ts),
        0 <= upto <= ts.len(),
        dot_free(ty_new),
        !type_seen(ts, upto, ty_new),
        forall|n: Seq<char>| n != nm ==> b.get(n) == a.get(n),
        nm == util_root_name(ty_new) || (exists|z: Seq<char>|
            (#[trigger] z[0]) == '.' && z.len() > 0 && nm == "utilization."@ + (ty_new + z)),
    ensures
        msacc_facts(b, ts, upto),
{
    assert forall|k: int|
        0 <= k < upto implies b.get(util_root_name((#[trigger] ts[k]).thread_type@)) == Some(
        msacc_root_value(ts, ts[k].thread_type@),
    ) by {
        let tk = ts[k].thread_type@;
        assert(type_seen(ts, upto, tk)) by {
            assert(0 <= k < upto && (#[trigger] ts[k]).thread_type@ == tk);
        }
        assert(tk != ty_new);
        if nm == util_root_name(ty_new) {
            lemma_concat_parts("utilization."@, tk);
            lemma_concat_parts("utilization."@, ty_new);
            assert(util_root_name(tk) != nm);
        } else {
            let z = choose|z: Seq<char>|
                (#[trigger] z[0]) == '.' && z.len() > 0 && nm == "utilization."@ + (ty_new + z);
            lemma_child_vs_root(ty_new, z, tk);
        }
    }
    assert forall|k: int, p: int|
        0 <= k < ts.len() && 0 <= p < ts[k].counters@.len() && type_seen(
            ts,
            upto,
            ts[k].thread_type@,
        ) implies b.get(
        util_state_name(ts[k].thread_type@, (#[trigger] ts[k].counters@[p]).0@),
    ) == Some(msacc_state_value(ts, ts[k].thread_type@, ts[k].counters@[p].0@)) by {
        let tk = ts[k].thread_type@;
        let q = choose|q: int| 0 <= q < upto && (#[trigger] ts[q]).thread_type@ == tk;
        assert(dot_free(tk));
        assert(tk != ty_new);
        let s = ts[k].counters@[p].0@;
        let zk = ".state."@ + s;
        reveal_strlit(".state.");
        assert(zk[0] == '.');
        if nm == util_root_name(ty_new) {
            lemma_child_vs_root(tk, zk, ty_new);
        } else {
            let z = choose|z: Seq<char>|
                (#[trigger] z[0]) == '.' && z.len() > 0 && nm == "utilization."@ + (ty_new + z);
            if util_state_name(tk, s) == nm {
                lemma_msacc_child_names(tk, zk, ty_new, z);
            }
        }
        assert(util_state_name(tk, s) != nm);
    }
    assert forall|k: int|
        0 <= k < ts.len() && type_seen(ts, upto, (#[trigger] ts[k]).thread_type@) implies b.get(
        util_thread_name(
            ts[k].thread_type@,
            ts[k].thread_id,
            type_id_width(ts, ts[k].thread_type@),
        ),
    ) == Some(msacc_thread_value(ts, ts[k].thread_type@, ts[k].thread_id)) by {
        let tk = ts[k].thread_type@;
        let q = choose|q: int| 0 <= q < upto && (#[trigger] ts[q]).thread_type@ == tk;
        assert(dot_free(tk));
        assert(tk != ty_new);
        let w = type_id_width(ts, tk);
        let zk = ".thread."@ + padded_chars(ts[k].thread_id, w);
        reveal_strlit(".thread.");
        assert(zk[0] == '.');
        if nm == util_root_name(ty_new) {
            lemma_child_vs_root(tk, zk, ty_new);
        } else {
            let z = choose|z: Seq<char>|
                (#[trigger] z[0]) == '.' && z.len() > 0 && nm == "utilization."@ + (ty_new + z);
            if util_thread_name(tk, ts[k].thread_id, w) == nm {
                lemma_msacc_child_names(tk, zk, ty_new, z);
            }
        }
        assert(util_thread_name(tk, ts[k].thread_id, w) != nm);
    }
}


/// Inserts the microstate-accounting entries: one utilization root per
/// thread kind, one state child per execution state of the kind, and
/// one thread child per id of the kind, every child filed under its
/// kind's root.
#[verifier::rlimit(100)]
pub fn insert_msacc_metrics(m: &mut Metrics, threads: &Vec<MSAccThread>)
    requires
        old(m)@.wf(),
        grand_total(threads@) <= u64::MAX,
        threads_wf(threads@),
    ensures
        final(m)@.wf(),
        final(m).wall_time_ms == old(m).wall_time_ms,
        final(m).timestamp_micros == old(m).timestamp_micros,
        msacc_facts(final(m)@, threads@, threads@.len() as int),
        forall|n: Seq<char>|
            !has_prefix(n, "utilization."@) ==> final(m)@.get(n) == old(m)@.get(n),
        rates_absent(old(m)@) ==> rates_absent(final(m)@),
        parents_present(old(m)@) ==> parents_present(final(m)@),
    {
    let n = threads.len();
    let mut i: usize = 0;
    proof {
        assert(msacc_facts(m@, threads@, 0)) by {
            assert(forall|ty: Seq<char>| !type_seen(threads@, 0, ty));
        }
    }
    while i < n
        invariant
            i <= n,
            n == threads@.len(),
            m@.wf(),
            m.wall_time_ms == old(m).wall_time_ms,
            m.timestamp_micros == old(m).timestamp_micros,
            grand_total(threads@) <= u64::MAX,
            threads_wf(threads@),
            msacc_facts(m@, threads@, i as int),
            forall|n2: Seq<char>|
                !has_prefix(n2, "utilization."@) ==> m@.get(n2) == old(m)@.get(n2),
            rates_absent(old(m)@) ==> rates_absent(m@),
            parents_present(old(m)@) ==> parents_present(m@),
        decreases n - i,
    {
        let ty = &threads[i].thread_type;
        let mut seen = false;
        let mut j: usize = 0;
        while j < i
            invariant
                j <= i,
                i < n,
                n == threads@.len(),
                ty@ == threads@[i as int].thread_type@,
                seen == type_seen(threads@, j as int, threads@[i as int].thread_type@),
            decreases i - j,
        {
            let eq = name_eq(threads[j].thread_type.as_str(), ty.as_str());
            if eq {
                seen = true;
            }
            proof {
                if seen {
                    if eq {
                        assert(0 <= j < j + 1 && (#[trigger] threads@[j as int]).thread_type@
                            == threads@[i as int].thread_type@);
                    } else {
                        let q = choose|q: int|
                            0 <= q < j && (#[trigger] threads@[q]).thread_type@
                                == threads@[i as int].thread_type@;
                        assert(0 <= q < j + 1 && threads@[q].thread_type@
                            == threads@[i as int].thread_type@);
                    }
                } else {
                    if type_seen(threads@, j + 1, threads@[i as int].thread_type@) {
                        let q = choose|q: int|
                            0 <= q < j + 1 && (#[trigger] threads@[q]).thread_type@
                                == threads@[i as int].thread_type@;
                        assert(q != j);
                        assert(false);
                    }
                }
            }
            j = j + 1;
        }
        if !seen {
            let ghost tyv = threads@[i as int].thread_type@;
            proof {
                assert(dot_free(tyv));
            }
            let mut realtime: u64 = 0;
            let mut runtime: u64 = 0;
            let mut k: usize = 0;
            while k < n
                invariant
                    k <= n,
                    i < n,
                    n == threads@.len(),
                    grand_total(threads@) <= u64::MAX,
                    realtime == type_realtime(threads@.take(k as int), tyv),
                    runtime == type_runtime(threads@.take(k as int), tyv),
                    tyv == threads@[i as int].thread_type@,
                    ty@ == tyv,
                decreases n - k,
            {
                proof {
                    assert(threads@.take(k + 1).drop_last() =~= threads@.take(k as int));
                    assert(threads@.take(k + 1).last() == threads@[k as int]);
                    lemma_type_sums_take(threads@, tyv, k + 1);
                    lemma_type_sums(threads@.take(k + 1), tyv);
                    lemma_type_sums(threads@, tyv);
                    lemma_type_sums_take(threads@, tyv, k as int);
                }
                if name_eq(threads[k].thread_type.as_str(), ty.as_str()) {
                    proof {
                        crate::erlang::lemma_pair_bounds(threads@[k as int].counters@, "sleep"@);
                        lemma_single_le_grand(threads@, k as int);
                    }
                    let tot = thread_total_exec(&threads[k]);
                    let slp = threads[k].sleep_micros();
                    realtime = realtime + tot;
                    runtime = runtime + (tot - slp);
                }
                k = k + 1;
            }
            proof {
                assert(threads@.take(n as int) =~= threads@);
                lemma_type_sums(threads@, tyv);
            }
            let u = util_permilli(runtime, realtime);
            let mut root_name: String = "utilization.".to_owned();
            root_name.append(ty.as_str());
            proof {
                assert(root_name@ == util_root_name(tyv));
                lemma_concat_parts("utilization."@, tyv);
                assert(has_prefix(root_name@, "utilization."@));
            }
            let ghost before_root = m@;
            m.insert(root_name.as_str(), MetricValue::utilization(u));
            proof {
                lemma_msacc_facts_frame(
                    before_root,
                    m@,
                    threads@,
                    i as int,
                    root_name@,
                    tyv,
                );
                assert(m@.get(util_root_name(tyv)) == Some(msacc_root_value(threads@, tyv)));
                assert forall|n2: Seq<char>|
                    !has_prefix(n2, "utilization."@) implies m@.get(n2) == old(m)@.get(n2) by {
                    assert(n2 != root_name@);
                }
                if rates_absent(old(m)@) {
                    assert forall|n2: Seq<char>|
                        match #[trigger] m@.get(n2) {
                            Some(v) => v.counter_rate() is None,
                            None => true,
                        } by {
                        if n2 != root_name@ {
                            assert(m@.get(n2) == before_root.get(n2));
                        }
                    }
                }
                if parents_present(old(m)@) {
                    lemma_parents_step(before_root, m@, root_name@, None);
                }
            }
            let states = collect_type_states(threads, i);
            let sn = states.len();
            let mut t: usize = 0;
            while t < sn
                invariant
                    t <= sn,
                    i < n,
                    n == threads@.len(),
                    sn == states@.len(),
                    m@.wf(),
                    m.wall_time_ms == old(m).wall_time_ms,
                    m.timestamp_micros == old(m).timestamp_micros,
                    grand_total(threads@) <= u64::MAX,
                    threads_wf(threads@),
                    tyv == threads@[i as int].thread_type@,
                    ty@ == tyv,
                    root_name@ == util_root_name(tyv),
                    realtime == type_realtime(threads@, tyv),
                    !type_seen(threads@, i as int, tyv),
                    forall|t1: int, t2: int|
                        0 <= t1 < t2 < states@.len() ==> (#[trigger] states@[t1])@ != (
                        #[trigger] states@[t2])@,
                    states_cover(threads@, threads@.len() as int, tyv, states@),
                    msacc_facts(m@, threads@, i as int),
                    m@.get(util_root_name(tyv)) == Some(msacc_root_value(threads@, tyv)),
                    forall|tt: int|
                        0 <= tt < t ==> m@.get(util_state_name(tyv, (#[trigger] states@[tt])@))
                            == Some(msacc_state_value(threads@, tyv, states@[tt]@)),
                    forall|n2: Seq<char>|
                        !has_prefix(n2, "utilization."@) ==> m@.get(n2) == old(m)@.get(n2),
                    rates_absent(old(m)@) ==> rates_absent(m@),
                    parents_present(old(m)@) ==> parents_present(m@),
                decreases sn - t,
            {
                let s = &states[t];
                let ssum = state_sum_exec(threads, i, s.as_str());
                proof {
                    lemma_state_sums(threads@, tyv, s@);
                }
                let su = util_permilli(ssum, realtime);
                let mut cname: String = "utilization.".to_owned();
                cname.append(ty.as_str());
                cname.append(".state.");
                cname.append(s.as_str());
                let ghost zc = ".state."@ + s@;
                proof {
                    reveal_strlit(".state.");
                    assert(cname@ =~= "utilization."@ + (tyv + zc));
                    assert(cname@ == util_state_name(tyv, s@)) by {
                        assert(util_state_name(tyv, s@) =~= cname@);
                    }
                    lemma_concat_parts("utilization."@, tyv + zc);
                    assert(has_prefix(cname@, "utilization."@));
                    lemma_child_vs_root(tyv, zc, tyv);
                }
                let ghost before = m@;
                m.insert(
                    cname.as_str(),
                    MetricValue::utilization_with_parent(su, root_name.as_str()),
                );
                proof {
                    assert(zc[0] == '.');
                    lemma_msacc_facts_frame(before, m@, threads@, i as int, cname@, tyv);
                    assert(m@.get(util_root_name(tyv)) == before.get(util_root_name(tyv)));
                    assert forall|tt: int|
                        0 <= tt < t + 1 implies m@.get(
                        util_state_name(tyv, (#[trigger] states@[tt])@),
                    ) == Some(msacc_state_value(threads@, tyv, states@[tt]@)) by {
                        if tt < t {
                            assert(util_state_name(tyv, states@[tt]@) != cname@) by {
                                if util_state_name(tyv, states@[tt]@) == cname@ {
                                    lemma_msacc_child_names(
                                        tyv,
                                        ".state."@ + states@[tt]@,
                                        tyv,
                                        zc,
                                    );
                                    lemma_concat_parts(".state."@, states@[tt]@);
                                    lemma_concat_parts(".state."@, s@);
                                }
                            }
                            assert(m@.get(util_state_name(tyv, states@[tt]@)) == before.get(
                                util_state_name(tyv, states@[tt]@),
                            ));
                        }
                    }
                    assert forall|n2: Seq<char>|
                        !has_prefix(n2, "utilization."@) implies m@.get(n2) == old(m)@.get(
                        n2,
                    ) by {
                        assert(n2 != cname@);
                    }
                    if rates_absent(old(m)@) {
                        assert forall|n2: Seq<char>|
                            match #[trigger] m@.get(n2) {
                                Some(v) => v.counter_rate() is None,
                                None => true,
                            } by {
                            if n2 != cname@ {
                                assert(m@.get(n2) == before.get(n2));
                            }
                        }
                    }
                    if parents_present(old(m)@) {
                        lemma_parents_step(before, m@, cname@, Some(root_name@));
                    }
                }
                t = t + 1;
            }
            let ids = collect_type_ids(threads, i);
            let w = type_width_exec(threads, i);
            let idn = ids.len();
            let mut t2: usize = 0;
            while t2 < idn
                invariant
                    t2 <= idn,
                    i < n,
                    n == threads@.len(),
                    idn == ids@.len(),
                    m@.wf(),
                    m.wall_time_ms == old(m).wall_time_ms,
                    m.timestamp_micros == old(m).timestamp_micros,
                    grand_total(threads@) <= u64::MAX,
                    threads_wf(threads@),
                    tyv == threads@[i as int].thread_type@,
                    ty@ == tyv,
                    root_name@ == util_root_name(tyv),
                    w == type_id_width(threads@, tyv),
                    w >= 1,
                    !type_seen(threads@, i as int, tyv),
                    forall|u1: int, u2: int|
                        0 <= u1 < u2 < ids@.len() ==> (#[trigger] ids@[u1]) != (
                        #[trigger] ids@[u2]),
                    ids_cover(threads@, threads@.len() as int, tyv, ids@),
                    states_cover(threads@, threads@.len() as int, tyv, states@),
                    msacc_facts(m@, threads@, i as int),
                    m@.get(util_root_name(tyv)) == Some(msacc_root_value(threads@, tyv)),
                    forall|tt: int|
                        0 <= tt < states@.len() ==> m@.get(
                            util_state_name(tyv, (#[trigger] states@[tt])@),
                        ) == Some(msacc_state_value(threads@, tyv, states@[tt]@)),
                    forall|tt: int|
                        0 <= tt < t2 ==> m@.get(
                            util_thread_name(tyv, (#[trigger] ids@[tt]), w as int),
                        ) == Some(msacc_thread_value(threads@, tyv, ids@[tt])),
                    forall|n2: Seq<char>|
                        !has_prefix(n2, "utilization."@) ==> m@.get(n2) == old(m)@.get(n2),
                    rates_absent(old(m)@) ==> rates_absent(m@),
                    parents_present(old(m)@) ==> parents_present(m@),
                decreases idn - t2,
            {
                let id = ids[t2];
                let (trt, trn) = thread_sums_exec(threads, i, id);
                let tu = util_permilli(trn, trt);
                let padded = format_u64_zero_padded(id, w);
                let mut cname: String = "utilization.".to_owned();
                cname.append(ty.as_str());
                cname.append(".thread.");
                cname.append(padded.as_str());
                let ghost zc = ".thread."@ + padded_chars(id, w as int);
                proof {
                    reveal_strlit(".thread.");
                    assert(cname@ =~= "utilization."@ + (tyv + zc));
                    assert(cname@ == util_thread_name(tyv, id, w as int)) by {
                        assert(util_thread_name(tyv, id, w as int) =~= cname@);
                    }
                    lemma_concat_parts("utilization."@, tyv + zc);
                    assert(has_prefix(cname@, "utilization."@));
                    lemma_child_vs_root(tyv, zc, tyv);
                }
                let ghost before = m@;
                m.insert(
                    cname.as_str(),
                    MetricValue::utilization_with_parent(tu, root_name.as_str()),
                );
                proof {
                    assert(zc[0] == '.');
                    lemma_msacc_facts_frame(before, m@, threads@, i as int, cname@, tyv);
                    assert(m@.get(util_root_name(tyv)) == before.get(util_root_name(tyv)));
                    assert forall|tt: int|
                        0 <= tt < states@.len() implies m@.get(
                        util_state_name(tyv, (#[trigger] states@[tt])@),
                    ) == Some(msacc_state_value(threads@, tyv, states@[tt]@)) by {
                        assert(util_state_name(tyv, states@[tt]@) != cname@) by {
                            reveal_strlit(".state.");
                            if util_state_name(tyv, states@[tt]@) == cname@ {
                                lemma_msacc_child_names(
                                    tyv,
                                    ".state."@ + states@[tt]@,
                                    tyv,
                                    zc,
                                );
                                assert((".state."@ + states@[tt]@)[1] == (".thread."@
                                    + padded_chars(id, w as int))[1]);
                            }
                        }
                        assert(m@.get(util_state_name(tyv, states@[tt]@)) == before.get(
                            util_state_name(tyv, states@[tt]@),
                        ));
                    }
                    assert forall|tt: int|
                        0 <= tt < t2 + 1 implies m@.get(
                        util_thread_name(tyv, (#[trigger] ids@[tt]), w as int),
                    ) == Some(msacc_thread_value(threads@, tyv, ids@[tt])) by {
                        if tt < t2 {
                            assert(util_thread_name(tyv, ids@[tt], w as int) != cname@) by {
                                if util_thread_name(tyv, ids@[tt], w as int) == cname@ {
                                    lemma_msacc_child_names(
                                        tyv,
                                        ".thread."@ + padded_chars(ids@[tt], w as int),
                                        tyv,
                                        zc,
                                    );
                                    lemma_concat_parts(
                                        ".thread."@,
                                        padded_chars(ids@[tt], w as int),
                                    );
                                    lemma_concat_parts(".thread."@, padded_chars(id, w as int));
                                    lemma_padded_chars_injective(ids@[tt], id, w as int);
                                }
                            }
                            assert(m@.get(util_thread_name(tyv, ids@[tt], w as int))
                                == before.get(util_thread_name(tyv, ids@[tt], w as int)));
                        }
                    }
                    assert forall|n2: Seq<char>|
                        !has_prefix(n2, "utilization."@) implies m@.get(n2) == old(m)@.get(
                        n2,
                    ) by {
                        assert(n2 != cname@);
                    }
                    if rates_absent(old(m)@) {
                        assert forall|n2: Seq<char>|
                            match #[trigger] m@.get(n2) {
                                Some(v) => v.counter_rate() is None,
                                None => true,
                            } by {
                            if n2 != cname@ {
                                assert(m@.get(n2) == before.get(n2));
                            }
                        }
                    }
                    if parents_present(old(m)@) {
                        lemma_parents_step(before, m@, cname@, Some(root_name@));
                    }
                }
                t2 = t2 + 1;
            }
            proof {
                assert(msacc_facts(m@, threads@, i + 1)) by {
                    assert forall|k2: int|
                        0 <= k2 < i + 1 implies m@.get(
                        util_root_name((#[trigger] threads@[k2]).thread_type@),
                    ) == Some(msacc_root_value(threads@, threads@[k2].thread_type@)) by {
                        if threads@[k2].thread_type@ != tyv {
                            assert(k2 < i);
                            assert(type_seen(threads@, i as int, threads@[k2].thread_type@))
                                by {
                                assert(0 <= k2 < i && (#[trigger] threads@[k2]).thread_type@
                                    == threads@[k2].thread_type@);
                            }
                        }
                    }
                    assert forall|k2: int, p2: int|
                        0 <= k2 < threads@.len() && 0 <= p2 < threads@[k2].counters@.len()
                            && type_seen(threads@, i + 1, threads@[k2].thread_type@) implies m@.get(
                        util_state_name(
                            threads@[k2].thread_type@,
                            (#[trigger] threads@[k2].counters@[p2]).0@,
                        ),
                    ) == Some(
                        msacc_state_value(
                            threads@,
                            threads@[k2].thread_type@,
                            threads@[k2].counters@[p2].0@,
                        ),
                    ) by {
                        if threads@[k2].thread_type@ == tyv {
                            let tt = choose|tt: int|
                                0 <= tt < states@.len() && (#[trigger] states@[tt])@
                                    == threads@[k2].counters@[p2].0@;
                            assert(states@[tt]@ == threads@[k2].counters@[p2].0@);
                        } else {
                            let q = choose|q: int|
                                0 <= q < i + 1 && (#[trigger] threads@[q]).thread_type@
                                    == threads@[k2].thread_type@;
                            assert(q != i);
                            assert(type_seen(threads@, i as int, threads@[k2].thread_type@))
                                by {
                                assert(0 <= q < i && (#[trigger] threads@[q]).thread_type@
                                    == threads@[k2].thread_type@);
                            }
                        }
                    }
                    assert forall|k2: int|
                        0 <= k2 < threads@.len() && type_seen(
                            threads@,
                            i + 1,
                            (#[trigger] threads@[k2]).thread_type@,
                        ) implies m@.get(
                        util_thread_name(
                            threads@[k2].thread_type@,
                            threads@[k2].thread_id,
                            type_id_width(threads@, threads@[k2].thread_type@),
                        ),
                    ) == Some(
                        msacc_thread_value(
                            threads@,
                            threads@[k2].thread_type@,
                            threads@[k2].thread_id,
                        ),
                    ) by {
                        if threads@[k2].thread_type@ == tyv {
                            let tt = choose|tt: int|
                                0 <= tt < ids@.len() && (#[trigger] ids@[tt])
                                    == threads@[k2].thread_id;
                            assert(ids@[tt] == threads@[k2].thread_id);
                        } else {
                            let q = choose|q: int|
                                0 <= q < i + 1 && (#[trigger] threads@[q]).thread_type@
                                    == threads@[k2].thread_type@;
                            assert(q != i);
                            assert(type_seen(threads@, i as int, threads@[k2].thread_type@))
                                by {
                                assert(0 <= q < i && (#[trigger] threads@[q]).thread_type@
                                    == threads@[k2].thread_type@);
                            }
                        }
                    }
                }
            }
        } else {
            proof {
                assert(msacc_facts(m@, threads@, i + 1)) by {
                    let k0 = choose|q: int|
                        0 <= q < i && (#[trigger] threads@[q]).thread_type@
                            == threads@[i as int].thread_type@;
                    assert forall|k2: int|
                        0 <= k2 < i + 1 implies m@.get(
                        util_root_name((#[trigger] threads@[k2]).thread_type@),
                    ) == Some(msacc_root_value(threads@, threads@[k2].thread_type@)) by {
                        if k2 == i {
                            assert(m@.get(util_root_name(threads@[k0].thread_type@)) == Some(
                                msacc_root_value(threads@, threads@[k0].thread_type@),
                            ));
                        }
                    }
                    assert forall|ty2: Seq<char>|
                        type_seen(threads@, i + 1, ty2) implies type_seen(
                        threads@,
                        i as int,
                        ty2,
                    ) by {
                        let q = choose|q: int|
                            0 <= q < i + 1 && (#[trigger] threads@[q]).thread_type@ == ty2;
                        if q == i {
                            assert(0 <= k0 < i && (#[trigger] threads@[k0]).thread_type@
                                == ty2);
                        }
                    }
                }
            }
        }
        i = i + 1;
    }
}

/// Distinct ids have distinct padded renderings of one width.
proof fn lemma_padded_chars_injective(id1: u64, id2: u64, w: int)
    requires
        padded_chars(id1, w) == padded_chars(id2, w),
    ensures
        id1 == id2,
{
    let p1 = crate::text::spec_zero_padded(id1, w).map_values(|b: u8| b as char);
    let p2 = crate::text::spec_zero_padded(id2, w).map_values(|b: u8| b as char);
    assert(p1 == p2);
    let b1 = crate::text::spec_zero_padded(id1, w);
    let b2 = crate::text::spec_zero_padded(id2, w);
    assert forall|t: int| 0 <= t < b1.len() implies b1[t] == b2[t] by {
        assert(p1[t] == p2[t]);
        crate::text::lemma_byte_char_injective(b1[t], b2[t]);
    }
    assert(b1 =~= b2);
    crate::text::lemma_zero_padded_injective(id1, id2, w);
}

/// One thread's accounted time is within the grand total.
proof fn lemma_single_le_grand(ts: Seq<MSAccThread>, k: int)
    requires
        0 <= k < ts.len(),
    ensures
        ts[k].total_micros() <= grand_total(ts),
    decreases ts.len(),
{
    lemma_type_sums(ts, ts[k].thread_type@);
    if k == ts.len() - 1 {
        lemma_type_sums(ts.drop_last(), ts[k].thread_type@);
        assert(grand_total(ts) == grand_total(ts.drop_last()) + ts.last().total_micros());
        lemma_grand_nonneg(ts.drop_last());
    } else {
        lemma_single_le_grand(ts.drop_last(), k);
        assert(ts.drop_last()[k] == ts[k]);
        crate::erlang::lemma_pair_bounds(ts.last().counters@, "sleep"@);
    }
}

/// The grand total is nonnegative.
proof fn lemma_grand_nonneg(ts: Seq<MSAccThread>)
    ensures
        grand_total(ts) >= 0,
    decreases ts.len(),
{
    if ts.len() > 0 {
        lemma_grand_nonneg(ts.drop_last());
        crate::erlang::lemma_pair_bounds(ts.last().counters@, "sleep"@);
    }
}

/// A fixed entry name is untouched by the run-queue and memory families.
proof fn lemma_fixed_name_survives(n: Seq<char>)
    requires
        is_fixed_name(n),
    ensures
        n != "statistics.run_queue"@,
        !has_prefix(n, "statistics.run_queue."@),
        !has_prefix(n, "memory."@),
{
    reveal_strlit("system_info.processe_count");
    reveal_strlit("system_info.port_count");
    reveal_strlit("system_info.atom_count");
    reveal_strlit("system_info.ets_count");
    reveal_strlit("statistics.context_switches");
    reveal_strlit("statistics.exact_reductions");
    reveal_strlit("statistics.garbage_collection");
    reveal_strlit("statistics.runtime");
    reveal_strlit("statistics.io.total_bytes");
    reveal_strlit("statistics.io.input_bytes");
    reveal_strlit("statistics.io.output_bytes");
    reveal_strlit("statistics.run_queue");
    reveal_strlit("statistics.run_queue.");
    reveal_strlit("memory.");
    if has_prefix(n, "statistics.run_queue."@) {
        lemma_prefix_index(n, "statistics.run_queue."@, 1);
        lemma_prefix_index(n, "statistics.run_queue."@, 11);
        assert(false);
    }
    if has_prefix(n, "memory."@) {
        lemma_prefix_index(n, "memory."@, 0);
        assert(false);
    }
}

/// A run-queue entry name is untouched by the memory family.
proof fn lemma_rq_name_survives(i: u64, w: int)
    ensures
        !has_prefix("statistics.run_queue"@, "memory."@),
        !has_prefix(run_queue_child_name(i, w), "memory."@),
{
    reveal_strlit("statistics.run_queue");
    reveal_strlit("statistics.run_queue.");
    reveal_strlit("memory.");
    if has_prefix("statistics.run_queue"@, "memory."@) {
        lemma_prefix_index("statistics.run_queue"@, "memory."@, 0);
    }
    let c = run_queue_child_name(i, w);
    assert(c[0] == 's') by {
        assert(("statistics.run_queue."@ + crate::text::spec_zero_padded(i, w).map_values(
            |b: u8| b as char,
        ))[0] == "statistics.run_queue."@[0]);
    }
    if has_prefix(c, "memory."@) {
        lemma_prefix_index(c, "memory."@, 0);
    }
}

/// Assembles one cycle's replies into a complete snapshot: the
/// microstate utilization roots, the fixed gauges and counters, the
/// run-queue total with its per-scheduler children, and the memory total
/// with its per-category children.  Every counter starts without a rate.
#[verifier::rlimit(100)]
pub fn build_snapshot(
    sample: &CollectedSample,
    wall_time_ms: u64,
    timestamp_micros: u64,
) -> (r: Result<Metrics, CollectError>)
    requires
        sample_wf(sample),
    ensures
        match r {
            Ok(m) => {
                &&& m@.wf()
                &&& m.wall_time_ms == wall_time_ms
                &&& m.timestamp_micros == timestamp_micros
                &&& rates_absent(m@)
                &&& parents_present(m@)
                &&& grand_total(sample.msacc_threads@) <= u64::MAX
                &&& sample.io_input_bytes + sample.io_output_bytes <= u64::MAX
                &&& u64_seq_sum(sample.run_queue_lengths@) <= u64::MAX
                &&& mem_lookup(sample.memory@, "total"@) is Some
                &&& m@.get("system_info.processe_count"@) == Some(
                    MetricValueView::Gauge { value: sample.process_count, parent: None },
                )
                &&& m@.get("system_info.port_count"@) == Some(
                    MetricValueView::Gauge { value: sample.port_count, parent: None },
                )
                &&& m@.get("system_info.atom_count"@) == Some(
                    MetricValueView::Gauge { value: sample.atom_count, parent: None },
                )
                &&& m@.get("system_info.ets_count"@) == Some(
                    MetricValueView::Gauge { value: sample.ets_count, parent: None },
                )
                &&& m@.get("statistics.context_switches"@) == Some(
                    MetricValueView::Counter {
                        raw_value: sample.context_switches,
                        rate_per_sec: None,
                        parent: None,
                    },
                )
                &&& m@.get("statistics.exact_reductions"@) == Some(
                    MetricValueView::Counter {
                        raw_value: sample.exact_reductions,
                        rate_per_sec: None,
                        parent: None,
                    },
                )
                &&& m@.get("statistics.garbage_collection"@) == Some(
                    MetricValueView::Counter {
                        raw_value: sample.garbage_collection,
                        rate_per_sec: None,
                        parent: None,
                    },
                )
                &&& m@.get("statistics.runtime"@) == Some(
                    MetricValueView::Counter {
                        raw_value: sample.runtime,
                        rate_per_sec: None,
                        parent: None,
                    },
                )
                &&& m@.get("statistics.io.total_bytes"@) == Some(
                    MetricValueView::Counter {
                        raw_value: (sample.io_input_bytes + sample.io_output_bytes) as u64,
                        rate_per_sec: None,
                        parent: None,
                    },
                )
                &&& m@.get("statistics.io.input_bytes"@) == Some(
                    MetricValueView::Counter {
                        raw_value: sample.io_input_bytes,
                        rate_per_sec: None,
                        parent: Some("statistics.io.total_bytes"@),
                    },
                )
                &&& m@.get("statistics.io.output_bytes"@) == Some(
                    MetricValueView::Counter {
                        raw_value: sample.io_output_bytes,
                        rate_per_sec: None,
                        parent: Some("statistics.io.total_bytes"@),
                    },
                )
                &&& m@.get("statistics.run_queue"@) == Some(
                    MetricValueView::Gauge {
                        value: u64_seq_sum(sample.run_queue_lengths@) as u64,
                        parent: None,
                    },
                )
                &&& forall|i: int|
                    0 <= i < sample.run_queue_lengths@.len() ==> m@.get(
                        run_queue_child_name(
                            i as u64,
                            sample.run_queue_lengths@.len() as int / 10 + 1,
                        ),
                    ) == Some(
                        MetricValueView::Gauge {
                            value: (#[trigger] sample.run_queue_lengths@[i]),
                            parent: Some("statistics.run_queue"@),
                        },
                    )
                &&& m@.get("memory.total_bytes"@) == Some(
                    MetricValueView::Gauge {
                        value: mem_lookup(sample.memory@, "total"@).unwrap(),
                        parent: None,
                    },
                )
                &&& forall|i: int|
                    0 <= i < sample.memory@.len() && (#[trigger] sample.memory@[i]).0@
                        != "total"@ ==> m@.get(memory_child_name(sample.memory@[i].0@)) == Some(
                        MetricValueView::Gauge {
                            value: sample.memory@[i].1,
                            parent: Some("memory.total_bytes"@),
                        },
                    )
                &&& msacc_facts(m@, sample.msacc_threads@, sample.msacc_threads@.len() as int)
            },
            Err(CollectError::ValueOverflow) => grand_total(sample.msacc_threads@) > u64::MAX
                || sample.io_input_bytes + sample.io_output_bytes > u64::MAX || u64_seq_sum(
                sample.run_queue_lengths@,
            ) > u64::MAX,
            Err(CollectError::MissingMemoryTotal) => {
                &&& grand_total(sample.msacc_threads@) <= u64::MAX
                &&& sample.io_input_bytes + sample.io_output_bytes <= u64::MAX
                &&& u64_seq_sum(sample.run_queue_lengths@) <= u64::MAX
                &&& mem_lookup(sample.memory@, "total"@) is None
            },
        },
{
    let _grand = match checked_grand_total(&sample.msacc_threads) {
        Some(v) => v,
        None => {
            return Err(CollectError::ValueOverflow);
        },
    };
    let io_total = match sample.io_input_bytes.checked_add(sample.io_output_bytes) {
        Some(v) => v,
        None => {
            return Err(CollectError::ValueOverflow);
        },
    };
    let rq_total = match checked_u64_sum(&sample.run_queue_lengths) {
        Some(v) => v,
        None => {
            return Err(CollectError::ValueOverflow);
        },
    };
    let mut m = Metrics::new(wall_time_ms, timestamp_micros);
    proof {
        assert(rates_absent(m@)) by {
            assert forall|n2: Seq<char>|
                match #[trigger] m@.get(n2) {
                    Some(v) => v.counter_rate() is None,
                    None => true,
                } by {
                assert(!m@.contains(n2));
            }
        }
        assert(parents_present(m@)) by {
            assert forall|n2: Seq<char>|
                match #[trigger] m@.get(n2) {
                    Some(v) => match v.parent_of() {
                        Some(p) => m@.contains(p),
                        None => true,
                    },
                    None => true,
                } by {
                assert(!m@.contains(n2));
            }
        }
    }
    insert_msacc_metrics(&mut m, &sample.msacc_threads);
    let ghost m1 = m@;
    insert_fixed_metrics(&mut m, sample, io_total);
    let ghost m2 = m@;
    insert_run_queue_metrics(&mut m, &sample.run_queue_lengths, rq_total);
    let ghost m3 = m@;
    match insert_memory_metrics(&mut m, &sample.memory) {
        Err(e) => {
            return Err(e);
        },
        Ok(()) => {},
    }
    proof {
        let ts = sample.msacc_threads@;
        assert(msacc_facts(m@, ts, ts.len() as int)) by {
            assert forall|nm: Seq<char>|
                has_prefix(nm, "utilization."@) implies m@.get(nm) == m1.get(nm) by {
                lemma_util_prefixed_survives(nm);
                assert(m2.get(nm) == m1.get(nm));
                assert(m3.get(nm) == m2.get(nm));
                assert(m@.get(nm) == m3.get(nm));
            }
            assert forall|k: int|
                0 <= k < ts.len() implies m@.get(
                util_root_name((#[trigger] ts[k]).thread_type@),
            ) == Some(msacc_root_value(ts, ts[k].thread_type@)) by {
                lemma_concat_parts("utilization."@, ts[k].thread_type@);
                assert(has_prefix(util_root_name(ts[k].thread_type@), "utilization."@));
            }
            assert forall|k: int, p: int|
                0 <= k < ts.len() && 0 <= p < ts[k].counters@.len() && type_seen(
                    ts,
                    ts.len() as int,
                    ts[k].thread_type@,
                ) implies m@.get(
                util_state_name(ts[k].thread_type@, (#[trigger] ts[k].counters@[p]).0@),
            ) == Some(msacc_state_value(ts, ts[k].thread_type@, ts[k].counters@[p].0@)) by {
                let nm = util_state_name(ts[k].thread_type@, ts[k].counters@[p].0@);
                lemma_concat_parts(
                    "utilization."@,
                    ts[k].thread_type@ + (".state."@ + ts[k].counters@[p].0@),
                );
                assert(has_prefix(nm, "utilization."@));
            }
            assert forall|k: int|
                0 <= k < ts.len() && type_seen(
                    ts,
                    ts.len() as int,
                    (#[trigger] ts[k]).thread_type@,
                ) implies m@.get(
                util_thread_name(
                    ts[k].thread_type@,
                    ts[k].thread_id,
                    type_id_width(ts, ts[k].thread_type@),
                ),
            ) == Some(msacc_thread_value(ts, ts[k].thread_type@, ts[k].thread_id)) by {
                let nm = util_thread_name(
                    ts[k].thread_type@,
                    ts[k].thread_id,
                    type_id_width(ts, ts[k].thread_type@),
                );
                lemma_concat_parts(
                    "utilization."@,
                    ts[k].thread_type@ + (".thread."@ + padded_chars(
                        ts[k].thread_id,
                        type_id_width(ts, ts[k].thread_type@),
                    )),
                );
                assert(has_prefix(nm, "utilization."@));
            }
        }
        assert forall|nf: Seq<char>| is_fixed_name(nf) implies m@.get(nf) == m2.get(nf) by {
            lemma_fixed_name_survives(nf);
            assert(m3.get(nf) == m2.get(nf));
            assert(m@.get(nf) == m3.get(nf));
        }
        assert(is_fixed_name("system_info.processe_count"@));
        assert(is_fixed_name("system_info.port_count"@));
        assert(is_fixed_name("system_info.atom_count"@));
        assert(is_fixed_name("system_info.ets_count"@));
        assert(is_fixed_name("statistics.context_switches"@));
        assert(is_fixed_name("statistics.exact_reductions"@));
        assert(is_fixed_name("statistics.garbage_collection"@));
        assert(is_fixed_name("statistics.runtime"@));
        assert(is_fixed_name("statistics.io.total_bytes"@));
        assert(is_fixed_name("statistics.io.input_bytes"@));
        assert(is_fixed_name("statistics.io.output_bytes"@));
        assert(m@.get("system_info.processe_count"@) == m2.get("system_info.processe_count"@));
        assert(m@.get("system_info.port_count"@) == m2.get("system_info.port_count"@));
        assert(m@.get("system_info.atom_count"@) == m2.get("system_info.atom_count"@));
        assert(m@.get("system_info.ets_count"@) == m2.get("system_info.ets_count"@));
        assert(m@.get("statistics.context_switches"@) == m2.get("statistics.context_switches"@));
        assert(m@.get("statistics.exact_reductions"@) == m2.get("statistics.exact_reductions"@));
        assert(m@.get("statistics.garbage_collection"@) == m2.get(
            "statistics.garbage_collection"@,
        ));
        assert(m@.get("statistics.runtime"@) == m2.get("statistics.runtime"@));
        assert(m@.get("statistics.io.total_bytes"@) == m2.get("statistics.io.total_bytes"@));
        assert(m@.get("statistics.io.input_bytes"@) == m2.get("statistics.io.input_bytes"@));
        assert(m@.get("statistics.io.output_bytes"@) == m2.get("statistics.io.output_bytes"@));
        lemma_rq_name_survives(0, 1);
        assert(m@.get("statistics.run_queue"@) == m3.get("statistics.run_queue"@));
        assert forall|i: int|
            0 <= i < sample.run_queue_lengths@.len() implies m@.get(
            run_queue_child_name(i as u64, sample.run_queue_lengths@.len() as int / 10 + 1),
        ) == Some(
            MetricValueView::Gauge {
                value: (#[trigger] sample.run_queue_lengths@[i]),
                parent: Some("statistics.run_queue"@),
            },
        ) by {
            let w = sample.run_queue_lengths@.len() as int / 10 + 1;
            lemma_rq_name_survives(i as u64, w);
            assert(m@.get(run_queue_child_name(i as u64, w)) == m3.get(
                run_queue_child_name(i as u64, w),
            ));
        }
    }
    Ok(m)
}

} // verus!

//! Trailing-window averages over a stream of snapshots.
//!
//! The aggregator keeps, per metric name, a running sum and member count
//! over the snapshots whose age lies within a fixed time window.  Values
//! are the integer projections of [`crate::metrics::MetricValue`]s, so the
//! sums are exact: at all times each accumulator equals the sum and count
//! of the projections of the windowed snapshots — the invariant is
//! [`WindowedAggregator::inv`].

use crate::metrics::{
    lemma_projection_bound, lemma_sorted_names_unique, max_projection, Metrics, MetricsView,
};
use crate::lex::name_eq;
use vstd::prelude::*;

verus! {

/// A per-name running average, updatable in constant time.
#[derive(Clone, Copy, Debug, PartialEq, Eq, Structural)]
pub struct AverageAccumulator {
    /// Sum of the projections currently counted, in thousandths.
    pub running_sum: u128,
    /// How many windowed snapshots contributed a defined projection.
    pub member_count: usize,
}

impl AverageAccumulator {
    /// An accumulator holding a single member.
    pub fn new(v: u128) -> (r: Self)
        ensures
            r.running_sum == v,
            r.member_count == 1,
    {
        AverageAccumulator { running_sum: v, member_count: 1 }
    }

    /// Counts one more member into the average.
    pub fn insert(&mut self, v: u128)
        requires
            old(self).running_sum + v <= u128::MAX,
            old(self).member_count + 1 <= usize::MAX,
        ensures
            final(self).running_sum == old(self).running_sum + v,
            final(self).member_count == old(self).member_count + 1,
    {
        self.running_sum = self.running_sum + v;
        self.member_count = self.member_count + 1;
    }

    /// Removes one member, by the same value it was inserted with.
    /// Evicting from an empty accumulator is a programming error and is
    /// excluded by contract.
    pub fn evict(&mut self, v: u128)
        requires
            old(self).member_count > 0,
            v <= old(self).running_sum,
        ensures
            final(self).running_sum == old(self).running_sum - v,
            final(self).member_count == old(self).member_count - 1,
    {
        self.running_sum = self.running_sum - v;
        self.member_count = self.member_count - 1;
    }

    /// The average of the counted members, absent while no member is
    /// counted.
    pub fn average(&self) -> (r: Option<u128>)
        ensures
            match r {
                Some(a) => self.member_count > 0 && a == self.running_sum as int
                    / self.member_count as int,
                None => self.member_count == 0,
            },
    {
        if self.member_count == 0 {
            None
        } else {
            Some(self.running_sum / (self.member_count as u128))
        }
    }
}

/// One named accumulator of the aggregator.
#[derive(Debug)]
pub struct AccEntry {
    pub name: String,
    pub acc: AverageAccumulator,
}

/// The accumulator names are pairwise distinct.
pub open spec fn acc_names_unique(s: Seq<AccEntry>) -> bool {
    forall|i: int, j: int|
        0 <= i < s.len() && 0 <= j < s.len() && i != j ==> (#[trigger] s[i].name@) != (
        #[trigger] s[j].name@)
}

/// Whether some accumulator carries the given name.
pub open spec fn acc_contains(s: Seq<AccEntry>, n: Seq<char>) -> bool {
    exists|i: int| 0 <= i < s.len() && (#[trigger] s[i].name@) == n
}

/// The position of the accumulator carrying the given name.
pub open spec fn acc_index(s: Seq<AccEntry>, n: Seq<char>) -> int {
    choose|i: int| 0 <= i < s.len() && (#[trigger] s[i].name@) == n
}

/// The accumulator registered under the given name, if any.
pub open spec fn acc_of(s: Seq<AccEntry>, n: Seq<char>) -> Option<AverageAccumulator> {
    if acc_contains(s, n) {
        Some(s[acc_index(s, n)].acc)
    } else {
        None
    }
}

/// The projection a snapshot defines for a name, if any: absent when the
/// snapshot has no such entry or the entry projects to nothing.
pub open spec fn proj_of(m: MetricsView, n: Seq<char>) -> Option<int> {
    match m.get(n) {
        Some(v) => v.projected(),
        None => None,
    }
}

/// 1 when the snapshot defines a projection for the name, else 0.
pub open spec fn contrib_count(m: MetricsView, n: Seq<char>) -> nat {
    if proj_of(m, n) is Some {
        1
    } else {
        0
    }
}

/// The projection the snapshot defines for the name, or 0.
pub open spec fn contrib_sum(m: MetricsView, n: Seq<char>) -> int {
    match proj_of(m, n) {
        Some(v) => v,
        None => 0,
    }
}

/// How many snapshots of the history define a projection for the name.
pub open spec fn proj_count(h: Seq<MetricsView>, n: Seq<char>) -> nat
    decreases h.len(),
{
    if h.len() == 0 {
        0
    } else {
        proj_count(h.drop_last(), n) + contrib_count(h.last(), n)
    }
}

/// The sum of the projections the history's snapshots define for the name.
pub open spec fn proj_sum(h: Seq<MetricsView>, n: Seq<char>) -> int
    decreases h.len(),
{
    if h.len() == 0 {
        0
    } else {
        proj_sum(h.drop_last(), n) + contrib_sum(h.last(), n)
    }
}

/// Every snapshot of the history is well formed.
pub open spec fn all_wf(h: Seq<MetricsView>) -> bool {
    forall|i: int| 0 <= i < h.len() ==> (#[trigger] h[i]).wf()
}

/// Appending a snapshot adds exactly its contribution for every name.
pub proof fn lemma_proj_push(h: Seq<MetricsView>, m: MetricsView, n: Seq<char>)
    ensures
        proj_count(h.push(m), n) == proj_count(h, n) + contrib_count(m, n),
        proj_sum(h.push(m), n) == proj_sum(h, n) + contrib_sum(m, n),
{
    assert(h.push(m).drop_last() =~= h);
    assert(h.push(m).last() == m);
}

/// Removing the oldest snapshot removes exactly its contribution for
/// every name.
pub proof fn lemma_proj_front(h: Seq<MetricsView>, n: Seq<char>)
    requires
        h.len() > 0,
    ensures
        proj_count(h, n) == contrib_count(h[0], n) + proj_count(h.skip(1), n),
        proj_sum(h, n) == contrib_sum(h[0], n) + proj_sum(h.skip(1), n),
    decreases h.len(),
{
    if h.len() == 1 {
        assert(h.drop_last() =~= Seq::<MetricsView>::empty());
        assert(h.skip(1) =~= Seq::<MetricsView>::empty());
    } else {
        lemma_proj_front(h.drop_last(), n);
        assert(h.drop_last()[0] == h[0]);
        assert(h.skip(1).drop_last() =~= h.drop_last().skip(1));
        assert(h.skip(1).last() == h.last());
    }
}

/// A defined projection of a well-formed snapshot is between 0 and
/// [`max_projection`].
pub proof fn lemma_proj_of_bound(m: MetricsView, n: Seq<char>)
    requires
        m.wf(),
        proj_of(m, n) is Some,
    ensures
        0 <= proj_of(m, n).unwrap() <= max_projection(),
{
    lemma_projection_bound(m.get(n).unwrap());
}

/// Counts are bounded by the history length, and sums by the history
/// length times the largest projection.
pub proof fn lemma_proj_bounds(h: Seq<MetricsView>, n: Seq<char>)
    requires
        all_wf(h),
    ensures
        proj_count(h, n) <= h.len(),
        0 <= proj_sum(h, n) <= h.len() * max_projection(),
    decreases h.len(),
{
    if h.len() == 0 {
    } else {
        assert(all_wf(h.drop_last())) by {
            assert(forall|i: int| 0 <= i < h.len() - 1 ==> h.drop_last()[i] == h[i]);
        }
        lemma_proj_bounds(h.drop_last(), n);
        if proj_of(h.last(), n) is Some {
            lemma_proj_of_bound(h.last(), n);
        }
        assert((h.len() - 1) * max_projection() + max_projection() == h.len() * max_projection())
            by (nonlinear_arith);
    }
}

/// A history that defines no projection for a name sums to zero for it.
pub proof fn lemma_zero_count_zero_sum(h: Seq<MetricsView>, n: Seq<char>)
    requires
        proj_count(h, n) == 0,
    ensures
        proj_sum(h, n) == 0,
    decreases h.len(),
{
    if h.len() > 0 {
        lemma_zero_count_zero_sum(h.drop_last(), n);
    }
}

/// Replacing the accumulator at one position leaves every other name's
/// lookup unchanged.
proof fn lemma_acc_frame_update(a: Seq<AccEntry>, b: Seq<AccEntry>, j: int, nm: Seq<char>)
    requires
        acc_names_unique(a),
        a.len() == b.len(),
        0 <= j < a.len(),
        forall|k: int| 0 <= k < a.len() && k != j ==> a[k] == b[k],
        a[j].name@ == nm,
        b[j].name@ == nm,
    ensures
        acc_names_unique(b),
        acc_of(b, nm) == Some(b[j].acc),
        forall|n: Seq<char>| n != nm ==> acc_of(b, n) == acc_of(a, n),
{
    assert(acc_names_unique(b));
    assert(acc_contains(b, nm));
    assert(acc_index(b, nm) == j);
    assert forall|n: Seq<char>| n != nm implies acc_of(b, n) == acc_of(a, n) by {
        if acc_contains(a, n) {
            let i = acc_index(a, n);
            assert(a[i].name@ == n);
            assert(i != j);
            assert(b[i].name@ == n);
            assert(acc_contains(b, n));
            assert(acc_index(b, n) == i);
        } else {
            if acc_contains(b, n) {
                let i = acc_index(b, n);
                assert(b[i].name@ == n);
                assert(i != j);
                assert(a[i].name@ == n);
            }
        }
    }
}

/// Appending an accumulator under a fresh name leaves every other name's
/// lookup unchanged.
proof fn lemma_acc_frame_push(a: Seq<AccEntry>, b: Seq<AccEntry>, nm: Seq<char>)
    requires
        acc_names_unique(a),
        !acc_contains(a, nm),
        b.len() == a.len() + 1,
        forall|k: int| 0 <= k < a.len() ==> a[k] == b[k],
        b[a.len() as int].name@ == nm,
    ensures
        acc_names_unique(b),
        acc_of(b, nm) == Some(b[a.len() as int].acc),
        forall|n: Seq<char>| n != nm ==> acc_of(b, n) == acc_of(a, n),
{
    assert forall|i: int, j: int|
        0 <= i < b.len() && 0 <= j < b.len() && i != j implies (#[trigger] b[i].name@) != (
    #[trigger] b[j].name@) by {
        if i < a.len() && j < a.len() {
        } else if i == a.len() {
            assert(b[j].name@ == a[j].name@);
        } else {
            assert(b[i].name@ == a[i].name@);
        }
    }
    assert(acc_contains(b, nm));
    assert(acc_index(b, nm) == a.len());
    assert forall|n: Seq<char>| n != nm implies acc_of(b, n) == acc_of(a, n) by {
        if acc_contains(a, n) {
            let i = acc_index(a, n);
            assert(a[i].name@ == n);
            assert(b[i].name@ == n);
            assert(acc_contains(b, n));
            assert(acc_index(b, n) == i);
        } else {
            if acc_contains(b, n) {
                let i = acc_index(b, n);
                assert(b[i].name@ == n);
                assert(i != a.len());
                assert(a[i].name@ == n);
            }
        }
    }
}

/// Adds one projection under a name, creating the accumulator if the name
/// is new.
fn acc_bump(accs: &mut Vec<AccEntry>, name: &str, v: u128)
    requires
        acc_names_unique(old(accs)@),
        match acc_of(old(accs)@, name@) {
            Some(a) => a.running_sum + v <= u128::MAX && a.member_count + 1 <= usize::MAX,
            None => true,
        },
    ensures
        acc_names_unique(final(accs)@),
        acc_of(final(accs)@, name@) == match acc_of(old(accs)@, name@) {
            Some(a) => Some(
                AverageAccumulator {
                    running_sum: (a.running_sum + v) as u128,
                    member_count: (a.member_count + 1) as usize,
                },
            ),
            None => Some(AverageAccumulator { running_sum: v, member_count: 1 }),
        },
        forall|n: Seq<char>| n != name@ ==> acc_of(final(accs)@, n) == acc_of(old(accs)@, n),
{
    let n_entries = accs.len();
    let mut i: usize = 0;
    while i < n_entries
        invariant
            i <= n_entries,
            n_entries == accs@.len(),
            accs@ == old(accs)@,
            acc_names_unique(accs@),
            match acc_of(accs@, name@) {
                Some(a) => a.running_sum + v <= u128::MAX && a.member_count + 1 <= usize::MAX,
                None => true,
            },
            forall|k: int| 0 <= k < i ==> (#[trigger] accs@[k].name@) != name@,
        decreases n_entries - i,
    {
        if name_eq(accs[i].name.as_str(), name) {
            proof {
                assert(accs@[i as int].name@ == name@);
                assert(acc_contains(accs@, name@));
                assert(acc_index(accs@, name@) == i as int);
            }
            let mut acc = accs[i].acc;
            acc.insert(v);
            accs[i] = AccEntry { name: name.to_owned(), acc };
            proof {
                lemma_acc_frame_update(old(accs)@, accs@, i as int, name@);
            }
            return ;
        }
        i = i + 1;
    }
    proof {
        assert(!acc_contains(accs@, name@));
    }
    accs.push(AccEntry { name: name.to_owned(), acc: AverageAccumulator::new(v) });
    proof {
        lemma_acc_frame_push(old(accs)@, accs@, name@);
    }
}

/// Removes one projection under a name; the name must be counted.
fn acc_drop(accs: &mut Vec<AccEntry>, name: &str, v: u128)
    requires
        acc_names_unique(old(accs)@),
        match acc_of(old(accs)@, name@) {
            Some(a) => a.member_count > 0 && v <= a.running_sum,
            None => false,
        },
    ensures
        acc_names_unique(final(accs)@),
        acc_of(final(accs)@, name@) == match acc_of(old(accs)@, name@) {
            Some(a) => Some(
                AverageAccumulator {
                    running_sum: (a.running_sum - v) as u128,
                    member_count: (a.member_count - 1) as usize,
                },
            ),
            None => None,
        },
        forall|n: Seq<char>| n != name@ ==> acc_of(final(accs)@, n) == acc_of(old(accs)@, n),
{
    let n_entries = accs.len();
    let mut i: usize = 0;
    while i < n_entries
        invariant
            i <= n_entries,
            n_entries == accs@.len(),
            accs@ == old(accs)@,
            acc_names_unique(accs@),
            match acc_of(accs@, name@) {
                Some(a) => a.member_count > 0 && v <= a.running_sum,
                None => false,
            },
            forall|k: int| 0 <= k < i ==> (#[trigger] accs@[k].name@) != name@,
        decreases n_entries - i,
    {
        if name_eq(accs[i].name.as_str(), name) {
            proof {
                assert(accs@[i as int].name@ == name@);
                assert(acc_contains(accs@, name@));
                assert(acc_index(accs@, name@) == i as int);
            }
            let mut acc = accs[i].acc;
            acc.evict(v);
            accs[i] = AccEntry { name: name.to_owned(), acc };
            proof {
                lemma_acc_frame_update(old(accs)@, accs@, i as int, name@);
            }
            return ;
        }
        i = i + 1;
    }
    proof {
        assert(!acc_contains(accs@, name@));
        assert(false);
    }
}

/// In a well-formed snapshot, an entry's projection is the projection its
/// name maps to.
pub proof fn lemma_item_proj(m: MetricsView, k: int)
    requires
        m.wf(),
        0 <= k < m.items.len(),
    ensures
        m.get(m.items[k].name) == Some(m.items[k].value),
        proj_of(m, m.items[k].name) == m.items[k].value.projected(),
{
    lemma_sorted_names_unique(m);
    assert(m.contains(m.items[k].name));
    assert(m.index_of(m.items[k].name) == k);
}

/// Some entry among the first `j` of the snapshot carries this name and a
/// defined projection.
spec fn processed(m: MetricsView, j: int, nm: Seq<char>) -> bool {
    exists|k: int|
        0 <= k < j && (#[trigger] m.items[k]).name == nm && m.items[k].value.projected() is Some
}

/// A snapshot defines a projection for a name exactly when one of its
/// entries carries the name and a defined projection.
proof fn lemma_processed_all(m: MetricsView, nm: Seq<char>)
    requires
        m.wf(),
    ensures
        processed(m, m.items.len() as int, nm) == (proj_of(m, nm) is Some),
{
    if processed(m, m.items.len() as int, nm) {
        let k = choose|k: int|
            0 <= k < m.items.len() && (#[trigger] m.items[k]).name == nm
                && m.items[k].value.projected() is Some;
        lemma_item_proj(m, k);
    }
    if proj_of(m, nm) is Some {
        assert(m.contains(nm));
        let k = m.index_of(nm);
        assert(m.items[k].name == nm && m.items[k].value.projected() is Some);
    }
}

/// A name processed among the first `j` entries stays processed among the
/// first `j + 1`.
proof fn lemma_processed_step(m: MetricsView, j: int, nm: Seq<char>)
    requires
        0 <= j,
    ensures
        processed(m, j, nm) ==> processed(m, j + 1, nm),
{
    if processed(m, j, nm) {
        let k = choose|k: int|
            0 <= k < j && (#[trigger] m.items[k]).name == nm && m.items[k].value.projected() is Some;
        assert(0 <= k < j + 1 && m.items[k].name == nm && m.items[k].value.projected() is Some);
    }
}

/// The aggregator: a bounded history of windowed snapshots and one
/// accumulator per metric name seen in them.
#[derive(Debug)]
pub struct WindowedAggregator {
    /// The trailing window, in microseconds of snapshot age.
    pub window_micros: u64,
    /// The snapshots whose projections are currently counted, oldest
    /// first.
    pub history: Vec<Metrics>,
    /// The per-name accumulators.
    pub accs: Vec<AccEntry>,
}

impl WindowedAggregator {
    /// The views of the windowed snapshots, oldest first.
    pub open spec fn hist(self) -> Seq<MetricsView> {
        self.history@.map_values(|m: Metrics| m@)
    }

    /// The aggregator's exactness invariant: every accumulator equals the
    /// sum and count of the projections its name takes in the windowed
    /// snapshots, and every name with a counted projection has an
    /// accumulator.
    pub open spec fn inv(self) -> bool {
        &&& acc_names_unique(self.accs@)
        &&& all_wf(self.hist())
        &&& self.hist().len() <= 0xFFFF_FFFE
        &&& forall|i: int, j: int|
            0 <= i < j < self.hist().len() ==> (#[trigger] self.hist()[i]).timestamp_micros <= (
            #[trigger] self.hist()[j]).timestamp_micros
        &&& forall|k: int|
            0 <= k < self.accs@.len() ==> (#[trigger] self.accs@[k]).acc.running_sum == proj_sum(
                self.hist(),
                self.accs@[k].name@,
            ) && self.accs@[k].acc.member_count == proj_count(self.hist(), self.accs@[k].name@)
        &&& forall|n: Seq<char>| proj_count(self.hist(), n) > 0 ==> acc_contains(self.accs@, n)
    }

    /// An empty aggregator over the given window.
    pub fn new(window_micros: u64) -> (r: Self)
        ensures
            r.inv(),
            r.window_micros == window_micros,
            r.hist().len() == 0,
    {
        let r = WindowedAggregator { window_micros, history: Vec::new(), accs: Vec::new() };
        proof {
            assert(r.hist() =~= Seq::<MetricsView>::empty());
        }
        r
    }

    /// Counts a new snapshot into the window.  Every entry of the
    /// snapshot with a defined projection is added to its name's
    /// accumulator.
    pub fn on_insert(&mut self, m: Metrics)
        requires
            old(self).inv(),
            m@.wf(),
            old(self).hist().len() < 0xFFFF_FFFE,
            old(self).hist().len() > 0 ==> old(self).hist().last().timestamp_micros
                <= m.timestamp_micros,
        ensures
            final(self).inv(),
            final(self).hist() == old(self).hist().push(m@),
            final(self).window_micros == old(self).window_micros,
    {
        let ghost h = old(self).hist();
        let n = m.len();
        let mut j: usize = 0;
        while j < n
            invariant
                j <= n,
                n == m@.items.len(),
                m@.wf(),
                h == old(self).hist(),
                old(self).inv(),
                self.window_micros == old(self).window_micros,
                self.history == old(self).history,
                acc_names_unique(self.accs@),
                forall|nm: Seq<char>|
                    #[trigger] processed(m@, j as int, nm) ==> acc_of(self.accs@, nm) == Some(
                        AverageAccumulator {
                            running_sum: (proj_sum(h, nm) + contrib_sum(m@, nm)) as u128,
                            member_count: (proj_count(h, nm) + 1) as usize,
                        },
                    ),
                forall|nm: Seq<char>|
                    !(#[trigger] processed(m@, j as int, nm)) ==> acc_of(self.accs@, nm) == acc_of(
                        old(self).accs@,
                        nm,
                    ),
            decreases n - j,
        {
            let it = m.item_at(j);
            let ghost nm_j = m@.items[j as int].name;
            proof {
                lemma_sorted_names_unique(m@);
                assert(!processed(m@, j as int, nm_j));
                lemma_item_proj(m@, j as int);
            }
            match it.value.projected_milli() {
                Some(v) => {
                    proof {
                        assert(acc_of(self.accs@, nm_j) == acc_of(old(self).accs@, nm_j));
                        lemma_proj_bounds(h, nm_j);
                        vstd::arithmetic::mul::lemma_mul_inequality(
                            h.len() as int,
                            0xFFFF_FFFE,
                            max_projection(),
                        );
                        if acc_contains(old(self).accs@, nm_j) {
                            let k = acc_index(old(self).accs@, nm_j);
                            assert(old(self).accs@[k].acc.running_sum == proj_sum(h, nm_j));
                        } else {
                            assert(proj_count(h, nm_j) == 0);
                            lemma_zero_count_zero_sum(h, nm_j);
                        }
                    }
                    let ghost accs_before = self.accs@;
                    acc_bump(&mut self.accs, it.name.as_str(), v);
                    proof {
                        assert(contrib_sum(m@, nm_j) == v as int);
                        assert(contrib_count(m@, nm_j) == 1);
                        if !acc_contains(accs_before, nm_j) {
                            assert(proj_count(h, nm_j) == 0);
                            lemma_zero_count_zero_sum(h, nm_j);
                        }
                        assert(acc_of(self.accs@, nm_j) == Some(
                            AverageAccumulator {
                                running_sum: (proj_sum(h, nm_j) + contrib_sum(m@, nm_j)) as u128,
                                member_count: (proj_count(h, nm_j) + 1) as usize,
                            },
                        ));
                        assert forall|nm: Seq<char>| #[trigger]
                            processed(m@, j + 1, nm) implies acc_of(self.accs@, nm) == Some(
                            AverageAccumulator {
                                running_sum: (proj_sum(h, nm) + contrib_sum(m@, nm)) as u128,
                                member_count: (proj_count(h, nm) + 1) as usize,
                            },
                        ) by {
                            if nm != nm_j {
                                let k = choose|k: int|
                                    0 <= k < j + 1 && (#[trigger] m@.items[k]).name == nm
                                        && m@.items[k].value.projected() is Some;
                                assert(k < j);
                                assert(processed(m@, j as int, nm));
                            }
                        }
                        assert forall|nm: Seq<char>|
                            !(#[trigger] processed(m@, j + 1, nm)) implies acc_of(self.accs@, nm)
                            == acc_of(old(self).accs@, nm) by {
                            assert(nm != nm_j) by {
                                if nm == nm_j {
                                    assert(0 <= j < j + 1 && m@.items[j as int].name == nm
                                        && m@.items[j as int].value.projected() is Some);
                                }
                            }
                            lemma_processed_step(m@, j as int, nm);
                            assert(!processed(m@, j as int, nm));
                        }
                    }
                },
                None => {
                    proof {
                        assert forall|nm: Seq<char>| #[trigger]
                            processed(m@, j + 1, nm) implies processed(m@, j as int, nm) by {
                            let k = choose|k: int|
                                0 <= k < j + 1 && (#[trigger] m@.items[k]).name == nm
                                    && m@.items[k].value.projected() is Some;
                            assert(k != j);
                        }
                        assert forall|nm: Seq<char>|
                            !(#[trigger] processed(m@, j + 1, nm)) implies !processed(
                            m@,
                            j as int,
                            nm,
                        ) by {
                            lemma_processed_step(m@, j as int, nm);
                        }
                    }
                },
            }
            j = j + 1;
        }
        self.history.push(m);
        proof {
            assert(self.hist() =~= h.push(m@));
            assert forall|k: int| 0 <= k < self.accs@.len() implies (#[trigger] self.accs@[
                k]).acc.running_sum == proj_sum(self.hist(), self.accs@[k].name@)
                && self.accs@[k].acc.member_count == proj_count(
                self.hist(),
                self.accs@[k].name@,
            ) by {
                let nm = self.accs@[k].name@;
                lemma_proj_push(h, m@, nm);
                lemma_processed_all(m@, nm);
                lemma_proj_bounds(h, nm);
                vstd::arithmetic::mul::lemma_mul_inequality(
                    h.len() as int,
                    0xFFFF_FFFE,
                    max_projection(),
                );
                assert(acc_contains(self.accs@, nm));
                assert(acc_index(self.accs@, nm) == k);
                assert(acc_of(self.accs@, nm) == Some(self.accs@[k].acc));
                if proj_of(m@, nm) is Some {
                    lemma_proj_of_bound(m@, nm);
                    assert(processed(m@, n as int, nm));
                } else {
                    assert(!processed(m@, n as int, nm));
                    assert(acc_of(self.accs@, nm) == acc_of(old(self).accs@, nm));
                    let k0 = acc_index(old(self).accs@, nm);
                    assert(old(self).accs@[k0].acc.running_sum == proj_sum(h, nm));
                }
            }
            assert forall|n2: Seq<char>| proj_count(self.hist(), n2) > 0 implies acc_contains(
                self.accs@,
                n2,
            ) by {
                lemma_proj_push(h, m@, n2);
                lemma_processed_all(m@, n2);
                if proj_of(m@, n2) is Some {
                    assert(processed(m@, n as int, n2));
                    assert(acc_of(self.accs@, n2) is Some);
                } else {
                    assert(proj_count(h, n2) > 0);
                    assert(acc_contains(old(self).accs@, n2));
                    assert(acc_of(old(self).accs@, n2) is Some);
                    assert(!processed(m@, n as int, n2));
                    assert(acc_of(self.accs@, n2) is Some);
                }
            }
            assert(final(self).inv());
        }
    }

    /// Evicts the oldest windowed snapshot.  Every entry of it with a
    /// defined projection is subtracted from its name's accumulator, by
    /// the exact value it was inserted with.
    pub fn on_evict(&mut self)
        requires
            old(self).inv(),
            old(self).hist().len() > 0,
        ensures
            final(self).inv(),
            final(self).hist() == old(self).hist().skip(1),
            final(self).window_micros == old(self).window_micros,
    {
        let ghost h = old(self).hist();
        let ghost rest = h.skip(1);
        proof {
            assert(h[0].wf());
            assert(forall|i: int| 0 <= i < rest.len() ==> rest[i] == h[i + 1]);
            assert(all_wf(rest));
        }
        let m = self.history.remove(0);
        proof {
            assert(self.hist() =~= rest);
            assert(m@ == h[0]);
        }
        let n = m.len();
        let mut j: usize = 0;
        while j < n
            invariant
                j <= n,
                n == m@.items.len(),
                m@ == h[0],
                m@.wf(),
                h == old(self).hist(),
                h.len() > 0,
                rest == h.skip(1),
                all_wf(rest),
                old(self).inv(),
                self.window_micros == old(self).window_micros,
                self.hist() == rest,
                acc_names_unique(self.accs@),
                forall|nm: Seq<char>|
                    #[trigger] processed(m@, j as int, nm) ==> acc_of(self.accs@, nm) == Some(
                        AverageAccumulator {
                            running_sum: (proj_sum(h, nm) - contrib_sum(m@, nm)) as u128,
                            member_count: (proj_count(h, nm) - 1) as usize,
                        },
                    ),
                forall|nm: Seq<char>|
                    !(#[trigger] processed(m@, j as int, nm)) ==> acc_of(self.accs@, nm) == acc_of(
                        old(self).accs@,
                        nm,
                    ),
            decreases n - j,
        {
            let it = m.item_at(j);
            let ghost nm_j = m@.items[j as int].name;
            proof {
                lemma_sorted_names_unique(m@);
                assert(!processed(m@, j as int, nm_j));
                lemma_item_proj(m@, j as int);
            }
            match it.value.projected_milli() {
                Some(v) => {
                    proof {
                        assert(acc_of(self.accs@, nm_j) == acc_of(old(self).accs@, nm_j));
                        lemma_proj_front(h, nm_j);
                        assert(contrib_count(m@, nm_j) == 1);
                        assert(contrib_sum(m@, nm_j) == v as int);
                        assert(proj_count(h, nm_j) >= 1);
                        assert(acc_contains(old(self).accs@, nm_j));
                        let k0 = acc_index(old(self).accs@, nm_j);
                        assert(old(self).accs@[k0].acc.running_sum == proj_sum(h, nm_j));
                        lemma_proj_bounds(rest, nm_j);
                        assert(proj_sum(h, nm_j) >= v as int);
                    }
                    acc_drop(&mut self.accs, it.name.as_str(), v);
                    proof {
                        assert(acc_of(self.accs@, nm_j) == Some(
                            AverageAccumulator {
                                running_sum: (proj_sum(h, nm_j) - contrib_sum(m@, nm_j)) as u128,
                                member_count: (proj_count(h, nm_j) - 1) as usize,
                            },
                        ));
                        assert forall|nm: Seq<char>| #[trigger]
                            processed(m@, j + 1, nm) implies acc_of(self.accs@, nm) == Some(
                            AverageAccumulator {
                                running_sum: (proj_sum(h, nm) - contrib_sum(m@, nm)) as u128,
                                member_count: (proj_count(h, nm) - 1) as usize,
                            },
                        ) by {
                            if nm != nm_j {
                                let k = choose|k: int|
                                    0 <= k < j + 1 && (#[trigger] m@.items[k]).name == nm
                                        && m@.items[k].value.projected() is Some;
                                assert(k < j);
                                assert(processed(m@, j as int, nm));
                            }
                        }
                        assert forall|nm: Seq<char>|
                            !(#[trigger] processed(m@, j + 1, nm)) implies acc_of(self.accs@, nm)
                            == acc_of(old(self).accs@, nm) by {
                            assert(nm != nm_j) by {
                                if nm == nm_j {
                                    assert(0 <= j < j + 1 && m@.items[j as int].name == nm
                                        && m@.items[j as int].value.projected() is Some);
                                }
                            }
                            lemma_processed_step(m@, j as int, nm);
                            assert(!processed(m@, j as int, nm));
                        }
                    }
                },
                None => {
                    proof {
                        assert forall|nm: Seq<char>| #[trigger]
                            processed(m@, j + 1, nm) implies processed(m@, j as int, nm) by {
                            let k = choose|k: int|
                                0 <= k < j + 1 && (#[trigger] m@.items[k]).name == nm
                                    && m@.items[k].value.projected() is Some;
                            assert(k != j);
                        }
                        assert forall|nm: Seq<char>|
                            !(#[trigger] processed(m@, j + 1, nm)) implies !processed(
                            m@,
                            j as int,
                            nm,
                        ) by {
                            lemma_processed_step(m@, j as int, nm);
                        }
                    }
                },
            }
            j = j + 1;
        }
        proof {
            assert forall|k: int| 0 <= k < self.accs@.len() implies (#[trigger] self.accs@[
                k]).acc.running_sum == proj_sum(self.hist(), self.accs@[k].name@)
                && self.accs@[k].acc.member_count == proj_count(
                self.hist(),
                self.accs@[k].name@,
            ) by {
                let nm = self.accs@[k].name@;
                lemma_proj_front(h, nm);
                lemma_processed_all(m@, nm);
                lemma_proj_bounds(rest, nm);
                vstd::arithmetic::mul::lemma_mul_inequality(
                    rest.len() as int,
                    0xFFFF_FFFE,
                    max_projection(),
                );
                assert(acc_contains(self.accs@, nm));
                assert(acc_index(self.accs@, nm) == k);
                assert(acc_of(self.accs@, nm) == Some(self.accs@[k].acc));
                if proj_of(m@, nm) is Some {
                    lemma_proj_of_bound(m@, nm);
                    assert(processed(m@, n as int, nm));
                } else {
                    assert(!processed(m@, n as int, nm));
                    assert(acc_of(self.accs@, nm) == acc_of(old(self).accs@, nm));
                    let k0 = acc_index(old(self).accs@, nm);
                    assert(old(self).accs@[k0].acc.running_sum == proj_sum(h, nm));
                }
            }
            assert forall|n2: Seq<char>| proj_count(self.hist(), n2) > 0 implies acc_contains(
                self.accs@,
                n2,
            ) by {
                lemma_proj_front(h, n2);
                lemma_processed_all(m@, n2);
                assert(proj_count(h, n2) > 0);
                assert(acc_contains(old(self).accs@, n2));
                assert(acc_of(old(self).accs@, n2) is Some);
                if proj_of(m@, n2) is Some {
                    assert(processed(m@, n as int, n2));
                    assert(acc_of(self.accs@, n2) is Some);
                } else {
                    assert(!processed(m@, n as int, n2));
                    assert(acc_of(self.accs@, n2) is Some);
                }
            }
            assert(final(self).inv());
        }
    }

    /// Evicts every snapshot that has aged out of the window, measured
    /// against the newest snapshot's monotonic time.  The newest snapshot
    /// itself always stays.
    pub fn evict_expired(&mut self)
        requires
            old(self).inv(),
        ensures
            final(self).inv(),
            final(self).window_micros == old(self).window_micros,
            old(self).hist().len() == 0 ==> final(self).hist() == old(self).hist(),
            old(self).hist().len() > 0 ==> exists|d: int|
                #![trigger old(self).hist().skip(d)]
                {
                    let h = old(self).hist();
                    let newest = h.last().timestamp_micros;
                    &&& 0 <= d < h.len()
                    &&& final(self).hist() == h.skip(d)
                    &&& forall|i: int|
                        0 <= i < d ==> newest - (#[trigger] h[i]).timestamp_micros > old(
                            self,
                        ).window_micros
                    &&& newest - h[d].timestamp_micros <= old(self).window_micros
                },
    {
        if self.history.len() == 0 {
            return ;
        }
        let newest_ts = self.history[self.history.len() - 1].timestamp_micros;
        let ghost h0 = old(self).hist();
        let ghost mut d: int = 0;
        proof {
            assert(self.hist() =~= h0.skip(0));
            assert(newest_ts == h0.last().timestamp_micros);
        }
        loop
            invariant
                self.inv(),
                self.window_micros == old(self).window_micros,
                h0 == old(self).hist(),
                h0.len() > 0,
                0 <= d < h0.len(),
                self.hist() == h0.skip(d),
                newest_ts == h0.last().timestamp_micros,
                forall|i: int|
                    0 <= i < d ==> newest_ts - (#[trigger] h0[i]).timestamp_micros
                        > self.window_micros,
            decreases h0.len() - d,
        {
            proof {
                assert(self.hist().len() == h0.len() - d);
                assert(self.hist()[0] == h0[d]);
                assert(self.hist().last() == h0.last());
            }
            let oldest_ts = self.history[0].timestamp_micros;
            if newest_ts - oldest_ts <= self.window_micros {
                return ;
            }
            proof {
                assert(d + 1 < h0.len()) by {
                    assert(h0[h0.len() - 1].timestamp_micros == newest_ts);
                    assert(newest_ts - h0[d].timestamp_micros > self.window_micros);
                }
            }
            self.on_evict();
            proof {
                assert(h0.skip(d).skip(1) =~= h0.skip(d + 1));
                d = d + 1;
            }
        }
    }

    /// The windowed average for a name, in thousandths: the exact sum of
    /// the counted projections divided by their number, absent while no
    /// windowed snapshot defines a projection for the name.
    pub fn average(&self, name: &str) -> (r: Option<u128>)
        requires
            self.inv(),
        ensures
            match r {
                Some(a) => proj_count(self.hist(), name@) > 0 && a == proj_sum(self.hist(), name@)
                    / proj_count(self.hist(), name@) as int,
                None => proj_count(self.hist(), name@) == 0,
            },
    {
        let n_entries = self.accs.len();
        let mut i: usize = 0;
        while i < n_entries
            invariant
                i <= n_entries,
                n_entries == self.accs@.len(),
                self.inv(),
                forall|k: int| 0 <= k < i ==> (#[trigger] self.accs@[k].name@) != name@,
            decreases n_entries - i,
        {
            if name_eq(self.accs[i].name.as_str(), name) {
                proof {
                    assert(self.accs@[i as int].acc.running_sum == proj_sum(self.hist(), name@));
                    assert(self.accs@[i as int].acc.member_count == proj_count(
                        self.hist(),
                        name@,
                    ));
                }
                return self.accs[i].acc.average();
            }
            i = i + 1;
        }
        proof {
            assert(!acc_contains(self.accs@, name@));
            if proj_count(self.hist(), name@) > 0 {
                assert(acc_contains(self.accs@, name@));
            }
        }
        None
    }
}

} // verus!

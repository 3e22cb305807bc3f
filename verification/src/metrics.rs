//! The metric model: named values taken at one instant.
//!
//! A [`Metrics`] value is one snapshot of a poll cycle: a monotonic
//! timestamp, a wall-clock stamp, and a name-sorted mapping from dotted
//! metric names to [`MetricValue`]s.  Counters carry a derived per-second
//! rate as the exact ratio of two integers; utilizations are kept in
//! thousandths of a percent.  Nothing here uses floating point, so sums and
//! averages over these values are exact.

use crate::lex::{
    lemma_lex_lt_connected, lemma_lex_lt_irreflexive, lemma_lex_lt_transitive, lex_lt, name_eq,
    name_lt,
};
use vstd::prelude::*;

verus! {

/// Scale factor between a plain quantity and its fixed-point projection.
pub const MILLI: u64 = 1000;

/// A counter's per-second rate: the exact ratio of the observed increment
/// to the elapsed monotonic time.
#[derive(Clone, Copy, Debug, PartialEq, Eq, Structural)]
pub struct Rate {
    /// How much the raw counter grew between the two snapshots.
    pub delta: u64,
    /// The elapsed monotonic time between the two snapshots, in microseconds.
    pub dt_micros: u64,
}

impl Rate {
    /// The rate per second in thousandths, rounded towards zero.
    pub open spec fn spec_millis(self) -> int {
        (self.delta * 1_000_000_000) / (self.dt_micros as int)
    }

    /// The rate is meaningful only over a positive time span.
    pub open spec fn wf(self) -> bool {
        self.dt_micros > 0
    }

    /// The rate per second in thousandths, rounded towards zero.
    pub fn millis(&self) -> (r: u128)
        requires
            self.wf(),
        ensures
            r == self.spec_millis(),
            r <= self.delta * 1_000_000_000,
    {
        proof {
            vstd::arithmetic::div_mod::lemma_div_is_ordered_by_denominator(
                self.delta * 1_000_000_000,
                1,
                self.dt_micros as int,
            );
        }
        (self.delta as u128 * 1_000_000_000) / (self.dt_micros as u128)
    }
}

/// The specification-level shape of a [`MetricValue`].
pub enum MetricValueView {
    Gauge { value: u64, parent: Option<Seq<char>> },
    Counter { raw_value: u64, rate_per_sec: Option<Rate>, parent: Option<Seq<char>> },
    Utilization { percent_milli: u64, parent: Option<Seq<char>> },
}

/// One reading within a snapshot.
///
/// Every variant optionally names a parent entry of the same snapshot,
/// forming a two-level tree of dotted names.
#[derive(Debug)]
pub enum MetricValue {
    /// An instantaneous quantity, such as a process count or a byte size.
    Gauge { value: u64, parent: Option<String> },
    /// A monotonically growing cumulative counter.  The per-second rate is
    /// derived from the previous snapshot and absent until one exists.
    Counter { raw_value: u64, rate_per_sec: Option<Rate>, parent: Option<String> },
    /// A pre-normalized ratio, in thousandths of a percent (0 to 100_000).
    Utilization { percent_milli: u64, parent: Option<String> },
}

/// The view of an optional parent name.
pub open spec fn opt_name_view(p: Option<String>) -> Option<Seq<char>> {
    match p {
        Some(s) => Some(s@),
        None => None,
    }
}

impl View for MetricValue {
    type V = MetricValueView;

    open spec fn view(&self) -> MetricValueView {
        match self {
            MetricValue::Gauge { value, parent } => MetricValueView::Gauge {
                value: *value,
                parent: opt_name_view(*parent),
            },
            MetricValue::Counter { raw_value, rate_per_sec, parent } => MetricValueView::Counter {
                raw_value: *raw_value,
                rate_per_sec: *rate_per_sec,
                parent: opt_name_view(*parent),
            },
            MetricValue::Utilization { percent_milli, parent } => MetricValueView::Utilization {
                percent_milli: *percent_milli,
                parent: opt_name_view(*parent),
            },
        }
    }
}

impl MetricValueView {
    /// The parent name this value declares, if any.
    pub open spec fn parent_of(self) -> Option<Seq<char>> {
        match self {
            MetricValueView::Gauge { parent, .. } => parent,
            MetricValueView::Counter { parent, .. } => parent,
            MetricValueView::Utilization { parent, .. } => parent,
        }
    }

    /// The projected numeric value used for windowed averaging, in
    /// thousandths: a gauge's value scaled, a counter's rate, a
    /// utilization's thousandths of a percent.  A counter without a rate
    /// projects to nothing.
    pub open spec fn projected(self) -> Option<int> {
        match self {
            MetricValueView::Gauge { value, .. } => Some(value * MILLI),
            MetricValueView::Counter { rate_per_sec: Some(r), .. } => Some(r.spec_millis()),
            MetricValueView::Counter { .. } => None,
            MetricValueView::Utilization { percent_milli, .. } => Some(percent_milli as int),
        }
    }

    /// Any rate carried by the value spans a positive time.
    pub open spec fn wf(self) -> bool {
        match self {
            MetricValueView::Counter { rate_per_sec: Some(r), .. } => r.wf(),
            _ => true,
        }
    }
}

/// An upper bound on every defined projection.
pub open spec fn max_projection() -> int {
    u64::MAX * 1_000_000_000
}

/// Every defined projection of a well-formed value fits below
/// [`max_projection`].
pub proof fn lemma_projection_bound(v: MetricValueView)
    requires
        v.wf(),
        v.projected() is Some,
    ensures
        0 <= v.projected().unwrap() <= max_projection(),
{
    match v {
        MetricValueView::Counter { rate_per_sec: Some(r), .. } => {
            vstd::arithmetic::div_mod::lemma_div_is_ordered_by_denominator(
                r.delta * 1_000_000_000,
                1,
                r.dt_micros as int,
            );
            vstd::arithmetic::div_mod::lemma_div_pos_is_pos(r.delta * 1_000_000_000, r.dt_micros as int);
        },
        _ => {},
    }
}

impl MetricValue {
    /// A root utilization value, in thousandths of a percent.
    pub fn utilization(percent_milli: u64) -> (r: Self)
        ensures
            r@ == (MetricValueView::Utilization { percent_milli, parent: None }),
    {
        MetricValue::Utilization { percent_milli, parent: None }
    }

    /// A utilization value filed under a parent entry.
    pub fn utilization_with_parent(percent_milli: u64, parent: &str) -> (r: Self)
        ensures
            r@ == (MetricValueView::Utilization { percent_milli, parent: Some(parent@) }),
    {
        MetricValue::Utilization { percent_milli, parent: Some(parent.to_owned()) }
    }

    /// A root gauge value.
    pub fn gauge(value: u64) -> (r: Self)
        ensures
            r@ == (MetricValueView::Gauge { value, parent: None }),
    {
        MetricValue::Gauge { value, parent: None }
    }

    /// A gauge value filed under a parent entry.
    pub fn gauge_with_parent(value: u64, parent: &str) -> (r: Self)
        ensures
            r@ == (MetricValueView::Gauge { value, parent: Some(parent@) }),
    {
        MetricValue::Gauge { value, parent: Some(parent.to_owned()) }
    }

    /// A freshly observed counter; its rate is absent until a previous
    /// snapshot exists.
    pub fn counter(raw_value: u64) -> (r: Self)
        ensures
            r@ == (MetricValueView::Counter { raw_value, rate_per_sec: None, parent: None }),
    {
        MetricValue::Counter { raw_value, rate_per_sec: None, parent: None }
    }

    /// A freshly observed counter filed under a parent entry.
    pub fn counter_with_parent(raw_value: u64, parent: &str) -> (r: Self)
        ensures
            r@ == (MetricValueView::Counter {
                raw_value,
                rate_per_sec: None,
                parent: Some(parent@),
            }),
    {
        MetricValue::Counter { raw_value, rate_per_sec: None, parent: Some(parent.to_owned()) }
    }

    /// Whether any carried rate spans a positive time.
    pub open spec fn wf(&self) -> bool {
        self@.wf()
    }

    /// The parent name this value declares, if any.
    pub fn parent(&self) -> (r: Option<&String>)
        ensures
            match r {
                Some(p) => self@.parent_of() == Some(p@),
                None => self@.parent_of() is None,
            },
    {
        match self {
            MetricValue::Gauge { parent, .. } => parent.as_ref(),
            MetricValue::Counter { parent, .. } => parent.as_ref(),
            MetricValue::Utilization { parent, .. } => parent.as_ref(),
        }
    }

    /// The projected numeric value used for averaging, in thousandths.
    pub fn projected_milli(&self) -> (r: Option<u128>)
        requires
            self.wf(),
        ensures
            match r {
                Some(v) => self@.projected() == Some(v as int),
                None => self@.projected() is None,
            },
            r is Some ==> r.unwrap() <= max_projection(),
    {
        proof {
            if self@.projected() is Some {
                lemma_projection_bound(self@);
            }
        }
        match self {
            MetricValue::Gauge { value, .. } => Some(*value as u128 * MILLI as u128),
            MetricValue::Counter { rate_per_sec: Some(r), .. } => Some(r.millis()),
            MetricValue::Counter { .. } => None,
            MetricValue::Utilization { percent_milli, .. } => Some(*percent_milli as u128),
        }
    }


    /// Renders the value for display: a gauge as grouped digits, a
    /// utilization as a percentage with one decimal place, a rated
    /// counter as its per-second rate rounded to whole units (saturating
    /// at the largest `u64` for display), and an unrated counter as an
    /// empty string.
    pub fn render(&self) -> (r: String)
        requires
            self.wf(),
        ensures
            r@ == match self@ {
                MetricValueView::Gauge { value, .. } => crate::text::spec_format_u64(
                    value,
                    "  "@,
                ),
                MetricValueView::Utilization { percent_milli, .. } => crate::text::spec_format_u64(
                    (percent_milli / 1000) as u64,
                    ""@,
                ) + "."@ + crate::text::spec_format_u64(
                    (percent_milli % 1000 / 100) as u64,
                    " %"@,
                ),
                MetricValueView::Counter { rate_per_sec: Some(rate), .. } => {
                    let rounded = (rate.spec_millis() + 500) / 1000;
                    crate::text::spec_format_u64(
                        if rounded > u64::MAX {
                            u64::MAX
                        } else {
                            rounded as u64
                        },
                        "/s"@,
                    )
                },
                MetricValueView::Counter { .. } => Seq::<char>::empty(),
            },
    {
        match self {
            MetricValue::Gauge { value, .. } => crate::text::format_u64(*value, "  "),
            MetricValue::Utilization { percent_milli, .. } => {
                let mut s = crate::text::format_u64(percent_milli / 1000, "");
                s.append(".");
                let frac = crate::text::format_u64(percent_milli % 1000 / 100, " %");
                s.append(frac.as_str());
                s
            },
            MetricValue::Counter { rate_per_sec: Some(rate), .. } => {
                let millis = rate.millis();
                let rounded = (millis + 500) / 1000;
                let shown: u64 = if rounded > u64::MAX as u128 {
                    u64::MAX
                } else {
                    rounded as u64
                };
                proof {
                    assert(millis + 500 <= u128::MAX);
                }
                crate::text::format_u64(shown, "/s")
            },
            MetricValue::Counter { .. } => String::new(),
        }
    }

    /// An exact copy of the value.
    pub fn duplicate(&self) -> (r: Self)
        ensures
            r@ == self@,
    {
        match self {
            MetricValue::Gauge { value, parent } => MetricValue::Gauge {
                value: *value,
                parent: clone_parent(parent),
            },
            MetricValue::Counter { raw_value, rate_per_sec, parent } => MetricValue::Counter {
                raw_value: *raw_value,
                rate_per_sec: *rate_per_sec,
                parent: clone_parent(parent),
            },
            MetricValue::Utilization { percent_milli, parent } => MetricValue::Utilization {
                percent_milli: *percent_milli,
                parent: clone_parent(parent),
            },
        }
    }
}

/// An exact copy of an optional parent name.
fn clone_parent(p: &Option<String>) -> (r: Option<String>)
    ensures
        opt_name_view(r) == opt_name_view(*p),
{
    match p {
        Some(s) => Some(s.clone()),
        None => None,
    }
}

/// The specification-level shape of a [`MetricItem`].
pub struct MetricItemView {
    pub name: Seq<char>,
    pub value: MetricValueView,
}

/// One named entry of a snapshot.
#[derive(Debug)]
pub struct MetricItem {
    pub name: String,
    pub value: MetricValue,
}

impl View for MetricItem {
    type V = MetricItemView;

    open spec fn view(&self) -> MetricItemView {
        MetricItemView { name: self.name@, value: self.value@ }
    }
}

/// The specification-level shape of a [`Metrics`] snapshot.
pub struct MetricsView {
    pub wall_time_ms: u64,
    pub timestamp_micros: u64,
    pub items: Seq<MetricItemView>,
}

/// One complete snapshot of a poll cycle.
///
/// Entries are kept strictly sorted by name, so names are unique and the
/// snapshot behaves as an ordered map.
#[derive(Debug)]
pub struct Metrics {
    /// Wall-clock time of the snapshot, in milliseconds since the epoch.
    pub wall_time_ms: u64,
    /// Monotonic time of the snapshot, in microseconds.
    pub timestamp_micros: u64,
    pub items: Vec<MetricItem>,
}

impl View for Metrics {
    type V = MetricsView;

    open spec fn view(&self) -> MetricsView {
        MetricsView {
            wall_time_ms: self.wall_time_ms,
            timestamp_micros: self.timestamp_micros,
            items: self.items@.map_values(|it: MetricItem| it@),
        }
    }
}

impl MetricsView {
    /// Entries are strictly sorted by name.
    pub open spec fn sorted(self) -> bool {
        forall|i: int, j: int|
            0 <= i < j < self.items.len() ==> lex_lt(
                #[trigger] self.items[i].name,
                #[trigger] self.items[j].name,
            )
    }

    /// Entries are sorted and every value is well formed.
    pub open spec fn wf(self) -> bool {
        &&& self.sorted()
        &&& forall|i: int| 0 <= i < self.items.len() ==> (#[trigger] self.items[i].value).wf()
    }

    /// Whether some entry carries the given name.
    pub open spec fn contains(self, n: Seq<char>) -> bool {
        exists|i: int| 0 <= i < self.items.len() && (#[trigger] self.items[i].name) == n
    }

    /// The position of the entry carrying the given name.
    pub open spec fn index_of(self, n: Seq<char>) -> int {
        choose|i: int| 0 <= i < self.items.len() && (#[trigger] self.items[i].name) == n
    }

    /// The value mapped to the given name, if any.
    pub open spec fn get(self, n: Seq<char>) -> Option<MetricValueView> {
        if self.contains(n) {
            Some(self.items[self.index_of(n)].value)
        } else {
            None
        }
    }

    /// An entry counts as a root when it declares no parent, or when its
    /// declared parent names no entry of the same snapshot; a dangling
    /// parent reference is deliberately surfaced rather than hidden.
    pub open spec fn is_root(self, i: int) -> bool {
        match self.items[i].value.parent_of() {
            None => true,
            Some(p) => !self.contains(p),
        }
    }

    /// An entry is a child of `parent` when it names it as parent.
    pub open spec fn is_child_of(self, i: int, parent: Seq<char>) -> bool {
        self.items[i].value.parent_of() == Some(parent)
    }
}

impl MetricValueView {
    /// The raw cumulative value, when the entry is a counter.
    pub open spec fn counter_raw(self) -> Option<u64> {
        match self {
            MetricValueView::Counter { raw_value, .. } => Some(raw_value),
            _ => None,
        }
    }

    /// The derived rate, when the entry is a counter.
    pub open spec fn counter_rate(self) -> Option<Rate> {
        match self {
            MetricValueView::Counter { rate_per_sec, .. } => rate_per_sec,
            _ => None,
        }
    }
}

/// How the rate calculator rewrites one value, given the value recorded
/// under the same name in the previous snapshot and the elapsed monotonic
/// time.  Only counters change: the rate is the raw increment over the
/// elapsed time, absent when there is no previous counter or when the raw
/// value went backwards (a counter reset).
pub open spec fn rated(
    v: MetricValueView,
    prev: Option<MetricValueView>,
    dt_micros: u64,
) -> MetricValueView {
    match v {
        MetricValueView::Counter { raw_value, rate_per_sec: _, parent } => {
            let rate = match prev {
                Some(MetricValueView::Counter { raw_value: p, .. }) => if raw_value >= p {
                    Some(Rate { delta: (raw_value - p) as u64, dt_micros })
                } else {
                    None
                },
                _ => None,
            };
            MetricValueView::Counter { raw_value, rate_per_sec: rate, parent }
        },
        _ => v,
    }
}

/// Between two chronologically ordered snapshots that share a counter
/// name whose raw value did not decrease, the derived rate is exactly the
/// raw increment over the elapsed time.
pub proof fn lemma_rate_of_ordered_counters(
    prev: MetricsView,
    cur: MetricsView,
    name: Seq<char>,
    dt_micros: u64,
)
    requires
        dt_micros > 0,
        prev.get(name) is Some,
        cur.get(name) is Some,
        prev.get(name).unwrap().counter_raw() is Some,
        cur.get(name).unwrap().counter_raw() is Some,
        cur.get(name).unwrap().counter_raw().unwrap() >= prev.get(name).unwrap().counter_raw().unwrap(),
    ensures
        ({
            let raw1 = prev.get(name).unwrap().counter_raw().unwrap();
            let raw2 = cur.get(name).unwrap().counter_raw().unwrap();
            let v = rated(cur.get(name).unwrap(), prev.get(name), dt_micros);
            &&& v.counter_rate() == Some(Rate { delta: (raw2 - raw1) as u64, dt_micros })
            &&& v.counter_rate().unwrap().spec_millis() == ((raw2 - raw1) * 1_000_000_000) / (
            dt_micros as int)
        }),
{
}

/// When the raw value went backwards between the two snapshots (a counter
/// reset or wrap), the derived rate is absent rather than negative.
pub proof fn lemma_rate_of_reset_counter(
    prev: MetricsView,
    cur: MetricsView,
    name: Seq<char>,
    dt_micros: u64,
)
    requires
        dt_micros > 0,
        prev.get(name) is Some,
        cur.get(name) is Some,
        prev.get(name).unwrap().counter_raw() is Some,
        cur.get(name).unwrap().counter_raw() is Some,
        cur.get(name).unwrap().counter_raw().unwrap() < prev.get(name).unwrap().counter_raw().unwrap(),
    ensures
        rated(cur.get(name).unwrap(), prev.get(name), dt_micros).counter_rate() is None,
{
}

/// A derived rate is never negative.
pub proof fn lemma_rate_never_negative(r: Rate)
    requires
        r.wf(),
    ensures
        r.spec_millis() >= 0,
{
    vstd::arithmetic::div_mod::lemma_div_pos_is_pos(r.delta * 1_000_000_000, r.dt_micros as int);
}

/// In a sorted snapshot, distinct positions carry distinct names.
pub proof fn lemma_sorted_names_unique(m: MetricsView)
    requires
        m.sorted(),
    ensures
        forall|i: int, j: int|
            0 <= i < m.items.len() && 0 <= j < m.items.len() && i != j ==> (
            #[trigger] m.items[i].name) != (#[trigger] m.items[j].name),
{
    assert forall|i: int, j: int|
        0 <= i < m.items.len() && 0 <= j < m.items.len() && i != j implies (
    #[trigger] m.items[i].name) != (#[trigger] m.items[j].name) by {
        if i < j {
            lemma_lex_lt_irreflexive(m.items[i].name);
        } else {
            lemma_lex_lt_irreflexive(m.items[j].name);
        }
    }
}

/// Replacing the value at one position leaves every other name's lookup
/// unchanged.
proof fn lemma_frame_after_name_change(a: MetricsView, b: MetricsView, j: int, nm: Seq<char>)
    requires
        a.sorted(),
        b.sorted(),
        a.items.len() == b.items.len(),
        0 <= j < a.items.len(),
        forall|k: int| 0 <= k < a.items.len() && k != j ==> a.items[k] == b.items[k],
        a.items[j].name == nm,
        b.items[j].name == nm,
    ensures
        forall|n: Seq<char>| n != nm ==> a.get(n) == b.get(n),
{
    lemma_sorted_names_unique(a);
    lemma_sorted_names_unique(b);
    assert forall|n: Seq<char>| n != nm implies a.get(n) == b.get(n) by {
        if a.contains(n) {
            let i = a.index_of(n);
            assert(a.items[i].name == n);
            assert(i != j);
            assert(b.items[i].name == n);
            assert(b.contains(n));
            let i2 = b.index_of(n);
            assert(b.items[i2].name == n);
            assert(i2 == i);
            assert(a.items[i].value == b.items[i].value);
        } else {
            if b.contains(n) {
                let i2 = b.index_of(n);
                assert(b.items[i2].name == n);
                assert(i2 != j);
                assert(a.items[i2].name == n);
            }
        }
    }
}

/// Splicing a fresh name into a snapshot leaves every other name's lookup
/// unchanged.
proof fn lemma_frame_after_splice(a: MetricsView, b: MetricsView, j: int, nm: Seq<char>)
    requires
        a.sorted(),
        b.sorted(),
        0 <= j <= a.items.len(),
        b.items.len() == a.items.len() + 1,
        forall|k: int| 0 <= k < j ==> b.items[k] == a.items[k],
        forall|k: int| j <= k < a.items.len() ==> b.items[k + 1] == a.items[k],
        b.items[j].name == nm,
        !a.contains(nm),
    ensures
        forall|n: Seq<char>| n != nm ==> a.get(n) == b.get(n),
{
    lemma_sorted_names_unique(a);
    lemma_sorted_names_unique(b);
    assert forall|n: Seq<char>| n != nm implies a.get(n) == b.get(n) by {
        if a.contains(n) {
            let i = a.index_of(n);
            assert(a.items[i].name == n);
            let i2 = if i < j {
                i
            } else {
                i + 1
            };
            assert(b.items[i2].name == n);
            assert(b.contains(n));
            let ib = b.index_of(n);
            assert(b.items[ib].name == n);
            assert(ib == i2);
            assert(a.items[i].value == b.items[i2].value);
        } else {
            if b.contains(n) {
                let ib = b.index_of(n);
                assert(b.items[ib].name == n);
                assert(ib != j);
                let i = if ib < j {
                    ib
                } else {
                    ib - 1
                };
                assert(a.items[i].name == n);
            }
        }
    }
}

impl Metrics {
    /// Sorted with well-formed values.
    pub open spec fn wf(&self) -> bool {
        self@.wf()
    }

    /// An empty snapshot taken at the given times.
    pub fn new(wall_time_ms: u64, timestamp_micros: u64) -> (r: Self)
        ensures
            r@.wf(),
            r@.items.len() == 0,
            r.wall_time_ms == wall_time_ms,
            r.timestamp_micros == timestamp_micros,
    {
        Metrics { wall_time_ms, timestamp_micros, items: Vec::new() }
    }

    /// How many entries the snapshot holds.
    pub fn len(&self) -> (r: usize)
        ensures
            r == self@.items.len(),
    {
        self.items.len()
    }

    /// A reference to the entry at a position.
    pub fn item_at(&self, i: usize) -> (r: &MetricItem)
        requires
            i < self@.items.len(),
        ensures
            r@ == self@.items[i as int],
    {
        &self.items[i]
    }

    /// The value mapped to the given name, if any.
    pub fn get(&self, name: &str) -> (r: Option<&MetricValue>)
        requires
            self@.wf(),
        ensures
            match r {
                Some(v) => self@.get(name@) == Some(v@),
                None => self@.get(name@) is None,
            },
    {
        let n = self.items.len();
        let mut i: usize = 0;
        while i < n
            invariant
                self@.wf(),
                n == self@.items.len(),
                i <= n,
                forall|k: int| 0 <= k < i ==> (#[trigger] self@.items[k].name) != name@,
            decreases n - i,
        {
            if name_eq(self.items[i].name.as_str(), name) {
                proof {
                    lemma_sorted_names_unique(self@);
                    assert(self@.items[i as int].name == name@);
                    assert(self@.contains(name@));
                    assert(self@.index_of(name@) == i as int);
                }
                return Some(&self.items[i].value);
            }
            i = i + 1;
        }
        proof {
            assert(!self@.contains(name@));
        }
        None
    }

    /// The position at which `name` sits or would be spliced in.
    fn find_slot(&self, name: &str) -> (j: usize)
        requires
            self@.wf(),
        ensures
            j <= self@.items.len(),
            forall|k: int| 0 <= k < j ==> lex_lt(#[trigger] self@.items[k].name, name@),
            j < self@.items.len() ==> !lex_lt(self@.items[j as int].name, name@),
    {
        let n = self.items.len();
        let mut j: usize = 0;
        while j < n
            invariant
                j <= n,
                n == self@.items.len(),
                self@.wf(),
                forall|k: int| 0 <= k < j ==> lex_lt(#[trigger] self@.items[k].name, name@),
            decreases n - j,
        {
            if !name_lt(self.items[j].name.as_str(), name) {
                return j;
            }
            j = j + 1;
        }
        j
    }

    /// Maps `name` to `value`: replaces the entry of that name if one
    /// exists, otherwise splices a new entry into name order.
    pub fn insert(&mut self, name: &str, value: MetricValue)
        requires
            old(self)@.wf(),
            value.wf(),
        ensures
            final(self)@.wf(),
            final(self)@.contains(name@),
            final(self)@.get(name@) == Some(value@),
            forall|n: Seq<char>| n != name@ ==> final(self)@.get(n) == old(self)@.get(n),
            final(self)@.items.len() == old(self)@.items.len() + (if old(self)@.contains(name@) {
                0int
            } else {
                1int
            }),
            final(self).wall_time_ms == old(self).wall_time_ms,
            final(self).timestamp_micros == old(self).timestamp_micros,
    {
        let ghost ov = self@.items;
        let j = self.find_slot(name);
        let item = MetricItem { name: name.to_owned(), value };
        let ghost iv = item@;
        proof {
            lemma_sorted_names_unique(old(self)@);
        }
        if j < self.items.len() && name_eq(self.items[j].name.as_str(), name) {
            proof {
                assert(ov[j as int].name == name@);
                assert(old(self)@.contains(name@));
            }
            self.items[j] = item;
            proof {
                let nv = self@.items;
                assert(nv =~= ov.update(j as int, iv));
                assert(forall|k: int|
                    0 <= k < nv.len() ==> (#[trigger] nv[k].name) == ov[k].name);
                assert(self@.wf());
                lemma_sorted_names_unique(self@);
                assert(self@.items[j as int].name == name@);
                assert(self@.contains(name@));
                assert(self@.index_of(name@) == j as int);
                lemma_frame_after_name_change(old(self)@, self@, j as int, name@);
            }
        } else {
            proof {
                if old(self)@.contains(name@) {
                    let i = old(self)@.index_of(name@);
                    assert(ov[i].name == name@);
                    if i < j {
                        lemma_lex_lt_irreflexive(name@);
                    } else {
                        assert(j < ov.len());
                        assert(ov[j as int].name != name@);
                        assert(i != j);
                        assert(lex_lt(ov[j as int].name, ov[i].name));
                    }
                    assert(false);
                }
            }
            self.items.insert(j, item);
            proof {
                ov.insert_ensures(j as int, iv);
                let nv = self@.items;
                assert(nv =~= ov.insert(j as int, iv));
                assert(nv[j as int] == iv);
                assert(forall|k: int| 0 <= k < j ==> nv[k] == ov[k]);
                assert(forall|k: int| j <= k < ov.len() ==> nv[k + 1] == ov[k]);
                assert forall|p: int, q: int| 0 <= p < q < nv.len() implies lex_lt(
                    #[trigger] nv[p].name,
                    #[trigger] nv[q].name,
                ) by {
                    if j < ov.len() {
                        assert(ov[j as int].name != name@);
                        if !lex_lt(name@, ov[j as int].name) {
                            lemma_lex_lt_connected(ov[j as int].name, name@);
                        }
                        assert(lex_lt(name@, ov[j as int].name));
                    }
                    if p == j && q > j {
                        if q > j + 1 {
                            lemma_lex_lt_transitive(name@, ov[j as int].name, nv[q].name);
                        }
                    } else if p < j && q == j {
                    } else if p < j && q > j {
                        if q == j + 1 {
                        } else {
                            lemma_lex_lt_transitive(nv[p].name, ov[j as int].name, nv[q].name);
                        }
                    }
                }
                assert(self@.wf());
                lemma_sorted_names_unique(self@);
                assert(self@.items[j as int].name == name@);
                assert(self@.contains(name@));
                assert(self@.index_of(name@) == j as int);
                lemma_frame_after_splice(old(self)@, self@, j as int, name@);
            }
        }
    }

    /// Whether some entry carries the given name.
    pub fn contains_name(&self, name: &str) -> (r: bool)
        requires
            self@.wf(),
        ensures
            r == self@.contains(name@),
    {
        match self.get(name) {
            Some(_) => true,
            None => false,
        }
    }

    /// An exact copy of the snapshot.
    pub fn duplicate(&self) -> (r: Self)
        ensures
            r@ == self@,
    {
        let n = self.items.len();
        let mut items: Vec<MetricItem> = Vec::new();
        let mut i: usize = 0;
        while i < n
            invariant
                i <= n,
                n == self.items@.len(),
                items@.len() == i,
                forall|k: int| 0 <= k < i ==> (#[trigger] items@[k])@ == self@.items[k],
            decreases n - i,
        {
            let it = &self.items[i];
            items.push(MetricItem { name: it.name.clone(), value: it.value.duplicate() });
            i = i + 1;
        }
        let r = Metrics {
            wall_time_ms: self.wall_time_ms,
            timestamp_micros: self.timestamp_micros,
            items,
        };
        proof {
            assert(r@.items =~= self@.items);
        }
        r
    }

    /// Decorates the snapshot's counters with their per-second rates,
    /// derived from the immediately preceding snapshot of the session.
    /// Only counters change; a counter whose name the previous snapshot
    /// does not map to a counter, or whose raw value went backwards, is
    /// left without a rate.
    pub fn calc_delta(&mut self, prev: &Metrics)
        requires
            old(self)@.wf(),
            prev@.wf(),
            prev.timestamp_micros < old(self).timestamp_micros,
        ensures
            final(self)@.wf(),
            final(self)@.items.len() == old(self)@.items.len(),
            forall|i: int|
                0 <= i < old(self)@.items.len() ==> {
                    &&& (#[trigger] final(self)@.items[i]).name == old(self)@.items[i].name
                    &&& final(self)@.items[i].value == rated(
                        old(self)@.items[i].value,
                        prev@.get(old(self)@.items[i].name),
                        (old(self).timestamp_micros - prev.timestamp_micros) as u64,
                    )
                },
            final(self).wall_time_ms == old(self).wall_time_ms,
            final(self).timestamp_micros == old(self).timestamp_micros,
    {
        let dt: u64 = self.timestamp_micros - prev.timestamp_micros;
        let n = self.items.len();
        let mut new_items: Vec<MetricItem> = Vec::new();
        let mut i: usize = 0;
        while i < n
            invariant
                i <= n,
                n == self@.items.len(),
                self == old(self),
                self@.wf(),
                prev@.wf(),
                dt == old(self).timestamp_micros - prev.timestamp_micros,
                dt > 0,
                new_items@.len() == i,
                forall|k: int|
                    0 <= k < i ==> {
                        &&& (#[trigger] new_items@[k])@.name == self@.items[k].name
                        &&& new_items@[k]@.value == rated(
                            self@.items[k].value,
                            prev@.get(self@.items[k].name),
                            dt,
                        )
                    },
            decreases n - i,
        {
            let it = &self.items[i];
            let nv: MetricValue = match &it.value {
                MetricValue::Counter { raw_value, parent, .. } => {
                    let rate: Option<Rate> = match prev.get(it.name.as_str()) {
                        Some(MetricValue::Counter { raw_value: p, .. }) => {
                            if *raw_value >= *p {
                                Some(Rate { delta: *raw_value - *p, dt_micros: dt })
                            } else {
                                None
                            }
                        },
                        _ => None,
                    };
                    MetricValue::Counter {
                        raw_value: *raw_value,
                        rate_per_sec: rate,
                        parent: clone_parent(parent),
                    }
                },
                _ => it.value.duplicate(),
            };
            new_items.push(MetricItem { name: it.name.clone(), value: nv });
            i = i + 1;
        }
        self.items = new_items;
        proof {
            assert(forall|k: int|
                0 <= k < self@.items.len() ==> (#[trigger] self@.items[k]).name
                    == old(self)@.items[k].name);
            assert(self@.sorted());
            assert(forall|k: int|
                0 <= k < self@.items.len() ==> (#[trigger] self@.items[k].value).wf());
        }
    }

    /// The positions of the entries that count as roots: entries without
    /// a parent, and entries whose declared parent names no entry of this
    /// snapshot.
    pub fn root_items(&self) -> (r: Vec<usize>)
        requires
            self@.wf(),
        ensures
            forall|t: int|
                0 <= t < r@.len() ==> (#[trigger] r@[t]) < self@.items.len() && self@.is_root(
                    r@[t] as int,
                ),
            forall|i: int|
                0 <= i < self@.items.len() && self@.is_root(i) ==> exists|t: int|
                    0 <= t < r@.len() && (#[trigger] r@[t]) == i,
            forall|t1: int, t2: int| 0 <= t1 < t2 < r@.len() ==> r@[t1] < r@[t2],
    {
        let n = self.items.len();
        let mut r: Vec<usize> = Vec::new();
        let mut i: usize = 0;
        while i < n
            invariant
                i <= n,
                n == self@.items.len(),
                self@.wf(),
                forall|t: int|
                    0 <= t < r@.len() ==> (#[trigger] r@[t]) < i && self@.is_root(r@[t] as int),
                forall|k: int|
                    0 <= k < i && self@.is_root(k) ==> exists|t: int|
                        0 <= t < r@.len() && (#[trigger] r@[t]) == k,
                forall|t1: int, t2: int| 0 <= t1 < t2 < r@.len() ==> r@[t1] < r@[t2],
            decreases n - i,
        {
            let is_root = match self.items[i].value.parent() {
                None => true,
                Some(p) => !self.contains_name(p.as_str()),
            };
            proof {
                assert(is_root == self@.is_root(i as int));
            }
            if is_root {
                let ghost old_r = r@;
                r.push(i);
                proof {
                    assert(r@[r@.len() - 1] == i);
                    assert(forall|t: int| 0 <= t < old_r.len() ==> (#[trigger] r@[t]) == old_r[t]);
                    assert forall|k: int| 0 <= k < i + 1 && self@.is_root(k) implies exists|t: int|
                        0 <= t < r@.len() && (#[trigger] r@[t]) == k by {
                        if k == i {
                            assert(r@[r@.len() - 1] == k);
                        } else {
                            let t = choose|t: int| 0 <= t < old_r.len() && (#[trigger] old_r[t]) == k;
                            assert(r@[t] == k);
                        }
                    }
                }
            }
            i = i + 1;
        }
        r
    }

    /// The positions of the entries that declare `parent` as their parent.
    pub fn child_items(&self, parent: &str) -> (r: Vec<usize>)
        requires
            self@.wf(),
        ensures
            forall|t: int|
                0 <= t < r@.len() ==> (#[trigger] r@[t]) < self@.items.len() && self@.is_child_of(
                    r@[t] as int,
                    parent@,
                ),
            forall|i: int|
                0 <= i < self@.items.len() && self@.is_child_of(i, parent@) ==> exists|t: int|
                    0 <= t < r@.len() && (#[trigger] r@[t]) == i,
            forall|t1: int, t2: int| 0 <= t1 < t2 < r@.len() ==> r@[t1] < r@[t2],
    {
        let n = self.items.len();
        let mut r: Vec<usize> = Vec::new();
        let mut i: usize = 0;
        while i < n
            invariant
                i <= n,
                n == self@.items.len(),
                self@.wf(),
                forall|t: int|
                    0 <= t < r@.len() ==> (#[trigger] r@[t]) < i && self@.is_child_of(
                        r@[t] as int,
                        parent@,
                    ),
                forall|k: int|
                    0 <= k < i && self@.is_child_of(k, parent@) ==> exists|t: int|
                        0 <= t < r@.len() && (#[trigger] r@[t]) == k,
                forall|t1: int, t2: int| 0 <= t1 < t2 < r@.len() ==> r@[t1] < r@[t2],
            decreases n - i,
        {
            let is_child = match self.items[i].value.parent() {
                None => false,
                Some(p) => name_eq(p.as_str(), parent),
            };
            proof {
                assert(is_child == self@.is_child_of(i as int, parent@));
            }
            if is_child {
                let ghost old_r = r@;
                r.push(i);
                proof {
                    assert(r@[r@.len() - 1] == i);
                    assert(forall|t: int| 0 <= t < old_r.len() ==> (#[trigger] r@[t]) == old_r[t]);
                    assert forall|k: int|
                        0 <= k < i + 1 && self@.is_child_of(k, parent@) implies exists|t: int|
                        0 <= t < r@.len() && (#[trigger] r@[t]) == k by {
                        if k == i {
                            assert(r@[r@.len() - 1] == k);
                        } else {
                            let t = choose|t: int| 0 <= t < old_r.len() && (#[trigger] old_r[t]) == k;
                            assert(r@[t] == k);
                        }
                    }
                }
            }
            i = i + 1;
        }
        r
    }
}

} // verus!

//! The byte format of a recorded session.
//!
//! A store is laid out as a magic tag, a format version, the header, and
//! the entries in order, every integer little-endian and every string
//! length-prefixed ASCII.  Encoding is specified by pure functions over
//! the views; decoding is specified by a pure recursive-descent parser;
//! and decoding an encoded store is proved to give back the original, so
//! a recorded session replays exactly.

use crate::lex::lex_lt;
use crate::metrics::{
    lemma_sorted_names_unique, MetricItem, MetricItemView, Metrics, MetricsView, MetricValue,
    MetricValueView, Rate,
};
use crate::replay::{
    RecordedEntry, RecordedEntryView, ReplayHeader, ReplayHeaderView, ReplayStore, ReplayStoreView,
};
use crate::text::string_from_ascii;
use vstd::prelude::*;

verus! {

/// The four magic bytes opening every recorded session.
pub open spec fn magic() -> Seq<u8> {
    seq![69u8, 76u8, 68u8, 83u8]
}

/// The format version byte.
pub const FORMAT_VERSION: u8 = 1;

/// A name can be recorded when it fits a length prefix and every
/// character is ASCII.
pub open spec fn ascii_name(s: Seq<char>) -> bool {
    &&& s.len() <= u64::MAX
    &&& forall|i: int| 0 <= i < s.len() ==> ((#[trigger] s[i]) as u32) < 128
}

/// An optional name is ASCII when present.
pub open spec fn ascii_opt_name(p: Option<Seq<char>>) -> bool {
    match p {
        Some(s) => ascii_name(s),
        None => true,
    }
}

/// The value's parent name, if any, is ASCII.
pub open spec fn value_encodable(v: MetricValueView) -> bool {
    ascii_opt_name(v.parent_of())
}

/// Every name and parent of the snapshot is ASCII and the entry count
/// fits its prefix.
pub open spec fn metrics_encodable(m: MetricsView) -> bool {
    &&& m.items.len() <= u64::MAX
    &&& forall|i: int|
        0 <= i < m.items.len() ==> ascii_name(#[trigger] m.items[i].name) && value_encodable(
            m.items[i].value,
        )
}

/// The store is well formed, every string in it is ASCII, and the counts
/// fit their prefixes.
pub open spec fn store_encodable(sv: ReplayStoreView) -> bool {
    &&& sv.wf()
    &&& ascii_name(sv.header.system_version)
    &&& forall|i: int| 0 <= i < sv.entries.len() ==> metrics_encodable(
            (#[trigger] sv.entries[i]).metrics,
        )
}

/// A `u64` as eight little-endian bytes.
pub open spec fn enc_u64(v: u64) -> Seq<u8> {
    seq![
        (v & 0xff) as u8,
        ((v >> 8) & 0xff) as u8,
        ((v >> 16) & 0xff) as u8,
        ((v >> 24) & 0xff) as u8,
        ((v >> 32) & 0xff) as u8,
        ((v >> 40) & 0xff) as u8,
        ((v >> 48) & 0xff) as u8,
        ((v >> 56) & 0xff) as u8,
    ]
}

/// Eight little-endian bytes as a `u64`.
pub open spec fn u64_of_bytes(
    b0: u8,
    b1: u8,
    b2: u8,
    b3: u8,
    b4: u8,
    b5: u8,
    b6: u8,
    b7: u8,
) -> u64 {
    (b0 as u64) | ((b1 as u64) << 8) | ((b2 as u64) << 16) | ((b3 as u64) << 24) | ((b4 as u64)
        << 32) | ((b5 as u64) << 40) | ((b6 as u64) << 48) | ((b7 as u64) << 56)
}

/// Reassembling the little-endian bytes of a `u64` gives it back.
pub proof fn lemma_u64_bytes_round_trip(v: u64)
    ensures
        u64_of_bytes(
            (v & 0xff) as u8,
            ((v >> 8) & 0xff) as u8,
            ((v >> 16) & 0xff) as u8,
            ((v >> 24) & 0xff) as u8,
            ((v >> 32) & 0xff) as u8,
            ((v >> 40) & 0xff) as u8,
            ((v >> 48) & 0xff) as u8,
            ((v >> 56) & 0xff) as u8,
        ) == v,
{
    assert((((v & 0xff) as u8) as u64) | ((((v >> 8) & 0xff) as u8 as u64) << 8) | ((((v >> 16)
        & 0xff) as u8 as u64) << 16) | ((((v >> 24) & 0xff) as u8 as u64) << 24) | ((((v >> 32)
        & 0xff) as u8 as u64) << 32) | ((((v >> 40) & 0xff) as u8 as u64) << 40) | ((((v >> 48)
        & 0xff) as u8 as u64) << 48) | ((((v >> 56) & 0xff) as u8 as u64) << 56) == v)
        by (bit_vector);
}

/// A name as a length prefix and one byte per character.
pub open spec fn enc_name(s: Seq<char>) -> Seq<u8> {
    enc_u64(s.len() as u64) + s.map_values(|c: char| (c as u32) as u8)
}

/// An optional name as a presence tag and the name.
pub open spec fn enc_opt_name(p: Option<Seq<char>>) -> Seq<u8> {
    match p {
        None => seq![0u8],
        Some(s) => seq![1u8] + enc_name(s),
    }
}

/// An optional rate as a presence tag and its two fields.
pub open spec fn enc_rate(o: Option<Rate>) -> Seq<u8> {
    match o {
        None => seq![0u8],
        Some(r) => seq![1u8] + (enc_u64(r.delta) + enc_u64(r.dt_micros)),
    }
}

/// A metric value as a kind tag and its fields.
pub open spec fn enc_value(v: MetricValueView) -> Seq<u8> {
    match v {
        MetricValueView::Gauge { value, parent } => seq![0u8] + (enc_u64(value) + enc_opt_name(
            parent,
        )),
        MetricValueView::Counter { raw_value, rate_per_sec, parent } => seq![1u8] + (enc_u64(
            raw_value,
        ) + (enc_rate(rate_per_sec) + enc_opt_name(parent))),
        MetricValueView::Utilization { percent_milli, parent } => seq![2u8] + (enc_u64(
            percent_milli,
        ) + enc_opt_name(parent)),
    }
}

/// One snapshot entry as its name and value.
pub open spec fn enc_item(it: MetricItemView) -> Seq<u8> {
    enc_name(it.name) + enc_value(it.value)
}

/// Snapshot entries in order.
pub open spec fn enc_items(items: Seq<MetricItemView>) -> Seq<u8>
    decreases items.len(),
{
    if items.len() == 0 {
        Seq::empty()
    } else {
        enc_item(items[0]) + enc_items(items.skip(1))
    }
}

/// A snapshot as its two timestamps, its entry count, and its entries.
pub open spec fn enc_metrics(m: MetricsView) -> Seq<u8> {
    enc_u64(m.wall_time_ms) + enc_u64(m.timestamp_micros) + enc_u64(m.items.len() as u64)
        + enc_items(m.items)
}

/// A recorded entry as its elapsed time and its snapshot.
pub open spec fn enc_entry(e: RecordedEntryView) -> Seq<u8> {
    enc_u64(e.elapsed_micros) + enc_metrics(e.metrics)
}

/// Recorded entries in order.
pub open spec fn enc_entries(es: Seq<RecordedEntryView>) -> Seq<u8>
    decreases es.len(),
{
    if es.len() == 0 {
        Seq::empty()
    } else {
        enc_entry(es[0]) + enc_entries(es.skip(1))
    }
}

/// The session header as its start time and version string.
pub open spec fn enc_header(h: ReplayHeaderView) -> Seq<u8> {
    enc_u64(h.start_wall_time_ms) + enc_name(h.system_version)
}

/// A whole store: magic, format version, header, then the entries to the
/// end of the buffer.  No count precedes the entries, so recording a new
/// snapshot appends its bytes without rewriting anything before them.
pub open spec fn enc_store(sv: ReplayStoreView) -> Seq<u8> {
    magic() + seq![FORMAT_VERSION] + enc_header(sv.header) + enc_entries(sv.entries)
}

/// Parses a little-endian `u64` at `p`.
pub open spec fn dec_u64_at(b: Seq<u8>, p: int) -> Option<(u64, int)> {
    if 0 <= p && p + 8 <= b.len() {
        Some(
            (
                u64_of_bytes(
                    b[p],
                    b[p + 1],
                    b[p + 2],
                    b[p + 3],
                    b[p + 4],
                    b[p + 5],
                    b[p + 6],
                    b[p + 7],
                ),
                p + 8,
            ),
        )
    } else {
        None
    }
}

/// Parses one byte at `p`.
pub open spec fn dec_u8_at(b: Seq<u8>, p: int) -> Option<(u8, int)> {
    if 0 <= p && p < b.len() {
        Some((b[p], p + 1))
    } else {
        None
    }
}

/// Parses a length-prefixed ASCII name at `p`.
pub open spec fn dec_name_at(b: Seq<u8>, p: int) -> Option<(Seq<char>, int)> {
    match dec_u64_at(b, p) {
        None => None,
        Some((len, p1)) => if p1 + len <= b.len() && (forall|i: int|
            p1 <= i < p1 + len ==> (#[trigger] b[i]) < 128) {
            Some((b.subrange(p1, p1 + len).map_values(|x: u8| (x as u32) as char), p1 + len))
        } else {
            None
        },
    }
}

/// Parses an optional name at `p`: a presence tag, then the name.
pub open spec fn dec_opt_name_at(b: Seq<u8>, p: int) -> Option<(Option<Seq<char>>, int)> {
    match dec_u8_at(b, p) {
        None => None,
        Some((t, p1)) => if t == 0 {
            Some((None, p1))
        } else if t == 1 {
            match dec_name_at(b, p1) {
                None => None,
                Some((s, p2)) => Some((Some(s), p2)),
            }
        } else {
            None
        },
    }
}

/// Parses an optional rate at `p`; a recorded rate must span a positive
/// time.
pub open spec fn dec_rate_at(b: Seq<u8>, p: int) -> Option<(Option<Rate>, int)> {
    match dec_u8_at(b, p) {
        None => None,
        Some((t, p1)) => if t == 0 {
            Some((None, p1))
        } else if t == 1 {
            match dec_u64_at(b, p1) {
                None => None,
                Some((delta, p2)) => match dec_u64_at(b, p2) {
                    None => None,
                    Some((dt, p3)) => if dt > 0 {
                        Some((Some(Rate { delta, dt_micros: dt }), p3))
                    } else {
                        None
                    },
                },
            }
        } else {
            None
        },
    }
}

/// Parses a metric value at `p`: a kind tag, then its fields.
pub open spec fn dec_value_at(b: Seq<u8>, p: int) -> Option<(MetricValueView, int)> {
    match dec_u8_at(b, p) {
        None => None,
        Some((tag, p1)) => if tag == 0 {
            match dec_u64_at(b, p1) {
                None => None,
                Some((value, p2)) => match dec_opt_name_at(b, p2) {
                    None => None,
                    Some((parent, p3)) => Some((MetricValueView::Gauge { value, parent }, p3)),
                },
            }
        } else if tag == 1 {
            match dec_u64_at(b, p1) {
                None => None,
                Some((raw_value, p2)) => match dec_rate_at(b, p2) {
                    None => None,
                    Some((rate_per_sec, p3)) => match dec_opt_name_at(b, p3) {
                        None => None,
                        Some((parent, p4)) => Some(
                            (MetricValueView::Counter { raw_value, rate_per_sec, parent }, p4),
                        ),
                    },
                },
            }
        } else if tag == 2 {
            match dec_u64_at(b, p1) {
                None => None,
                Some((percent_milli, p2)) => match dec_opt_name_at(b, p2) {
                    None => None,
                    Some((parent, p3)) => Some(
                        (MetricValueView::Utilization { percent_milli, parent }, p3),
                    ),
                },
            }
        } else {
            None
        },
    }
}

/// Parses one snapshot entry at `p`.
pub open spec fn dec_item_at(b: Seq<u8>, p: int) -> Option<(MetricItemView, int)> {
    match dec_name_at(b, p) {
        None => None,
        Some((name, p1)) => match dec_value_at(b, p1) {
            None => None,
            Some((value, p2)) => Some((MetricItemView { name, value }, p2)),
        },
    }
}

/// Parses `n` snapshot entries at `p`.
pub open spec fn dec_items_at(b: Seq<u8>, p: int, n: nat) -> Option<(Seq<MetricItemView>, int)>
    decreases n,
{
    if n == 0 {
        Some((Seq::empty(), p))
    } else {
        match dec_item_at(b, p) {
            None => None,
            Some((it, p1)) => match dec_items_at(b, p1, (n - 1) as nat) {
                None => None,
                Some((rest, p2)) => Some((seq![it] + rest, p2)),
            },
        }
    }
}

/// Entry names are strictly sorted.
pub open spec fn sorted_item_names(items: Seq<MetricItemView>) -> bool {
    forall|i: int, j: int|
        0 <= i < j < items.len() ==> lex_lt(
            #[trigger] items[i].name,
            #[trigger] items[j].name,
        )
}

/// Parses one snapshot at `p`; its entries must come name-sorted.
pub open spec fn dec_metrics_at(b: Seq<u8>, p: int) -> Option<(MetricsView, int)> {
    match dec_u64_at(b, p) {
        None => None,
        Some((wall_time_ms, p1)) => match dec_u64_at(b, p1) {
            None => None,
            Some((timestamp_micros, p2)) => match dec_u64_at(b, p2) {
                None => None,
                Some((n, p3)) => match dec_items_at(b, p3, n as nat) {
                    None => None,
                    Some((items, p4)) => if sorted_item_names(items) {
                        Some((MetricsView { wall_time_ms, timestamp_micros, items }, p4))
                    } else {
                        None
                    },
                },
            },
        },
    }
}

/// Parses one recorded entry at `p`.
pub open spec fn dec_entry_at(b: Seq<u8>, p: int) -> Option<(RecordedEntryView, int)> {
    match dec_u64_at(b, p) {
        None => None,
        Some((elapsed_micros, p1)) => match dec_metrics_at(b, p1) {
            None => None,
            Some((metrics, p2)) => Some((RecordedEntryView { elapsed_micros, metrics }, p2)),
        },
    }
}

/// Parses recorded entries from `p` to the end of the buffer.
pub open spec fn dec_entries_to_end(b: Seq<u8>, p: int) -> Option<
    (Seq<RecordedEntryView>, int),
>
    decreases b.len() - p,
{
    if p == b.len() {
        Some((Seq::empty(), p))
    } else if 0 <= p < b.len() {
        match dec_entry_at(b, p) {
            None => None,
            Some((e, p1)) => if p < p1 <= b.len() {
                match dec_entries_to_end(b, p1) {
                    None => None,
                    Some((rest, p2)) => Some((seq![e] + rest, p2)),
                }
            } else {
                None
            },
        }
    } else {
        None
    }
}

/// Recorded entries come in elapsed-time order.
pub open spec fn entries_ordered(es: Seq<RecordedEntryView>) -> bool {
    forall|i: int, j: int|
        0 <= i < j < es.len() ==> (#[trigger] es[i]).elapsed_micros <= (
        #[trigger] es[j]).elapsed_micros
}

/// Parses the session header at `p`.
pub open spec fn dec_header_at(b: Seq<u8>, p: int) -> Option<(ReplayHeaderView, int)> {
    match dec_u64_at(b, p) {
        None => None,
        Some((start_wall_time_ms, p1)) => match dec_name_at(b, p1) {
            None => None,
            Some((system_version, p2)) => Some(
                (ReplayHeaderView { start_wall_time_ms, system_version }, p2),
            ),
        },
    }
}

/// Parses a whole store: all bytes must be consumed, and the entries
/// must come in elapsed-time order.
pub open spec fn dec_store(b: Seq<u8>) -> Option<ReplayStoreView> {
    if b.len() >= 5 && b.subrange(0, 4) == magic() && b[4] == FORMAT_VERSION {
        match dec_header_at(b, 5) {
            None => None,
            Some((header, p1)) => match dec_entries_to_end(b, p1) {
                None => None,
                Some((entries, _p2)) => if entries_ordered(entries) {
                    Some(ReplayStoreView { header, entries })
                } else {
                    None
                },
            },
        }
    } else {
        None
    }
}

/// A buffer slice equal to a concatenation splits into slices equal to
/// the parts.
proof fn lemma_split_subrange(b: Seq<u8>, p: int, a: Seq<u8>, c: Seq<u8>)
    requires
        0 <= p,
        p + a.len() + c.len() <= b.len(),
        b.subrange(p, p + a.len() + c.len()) == a + c,
    ensures
        b.subrange(p, p + a.len()) == a,
        b.subrange(p + a.len(), p + a.len() + c.len()) == c,
{
    let w = b.subrange(p, p + a.len() + c.len());
    assert forall|i: int| 0 <= i < a.len() implies b.subrange(p, p + a.len() as int)[i] == a[i] by {
        assert(b.subrange(p, p + a.len() as int)[i] == b[p + i]);
        assert(w[i] == b[p + i]);
        assert((a + c)[i] == a[i]);
    }
    assert(b.subrange(p, p + a.len() as int) =~= a);
    assert forall|i: int|
        0 <= i < c.len() implies b.subrange(
        p + a.len(),
        p + a.len() + c.len(),
    )[i] == c[i] by {
        assert(b.subrange(p + a.len(), p + a.len() + c.len())[i] == b[p + a.len() + i]);
        assert(w[a.len() + i] == b[p + a.len() + i]);
        assert((a + c)[a.len() + i] == c[i]);
    }
    assert(b.subrange(p + a.len(), p + a.len() + c.len()) =~= c);
}

/// Parsing an encoded `u64` yields the value.
proof fn lemma_dec_enc_u64(b: Seq<u8>, p: int, v: u64)
    requires
        0 <= p,
        p + 8 <= b.len(),
        b.subrange(p, p + 8) == enc_u64(v),
    ensures
        dec_u64_at(b, p) == Some((v, p + 8)),
{
    let w = b.subrange(p, p + 8);
    assert(b[p] == w[0] && b[p + 1] == w[1] && b[p + 2] == w[2] && b[p + 3] == w[3] && b[p + 4]
        == w[4] && b[p + 5] == w[5] && b[p + 6] == w[6] && b[p + 7] == w[7]);
    lemma_u64_bytes_round_trip(v);
}

/// Parsing an encoded name yields the name.
proof fn lemma_dec_enc_name(b: Seq<u8>, p: int, s: Seq<char>)
    requires
        0 <= p,
        ascii_name(s),
        p + enc_name(s).len() <= b.len(),
        b.subrange(p, p + enc_name(s).len()) == enc_name(s),
    ensures
        enc_name(s).len() == 8 + s.len(),
        dec_name_at(b, p) == Some((s, p + enc_name(s).len())),
{
    let payload = s.map_values(|c: char| (c as u32) as u8);
    lemma_split_subrange(b, p, enc_u64(s.len() as u64), payload);
    lemma_dec_enc_u64(b, p, s.len() as u64);
    let p1 = p + 8;
    assert forall|i: int| p1 <= i < p1 + s.len() implies (#[trigger] b[i]) < 128 by {
        let sub = b.subrange(p1, p1 + s.len() as int);
        assert(sub[i - p1] == b[i]);
        assert(payload[i - p1] == ((s[i - p1] as u32) as u8));
        assert((s[i - p1] as u32) < 128);
    }
    let decoded = b.subrange(p1, p1 + s.len() as int).map_values(|x: u8| (x as u32) as char);
    assert forall|i: int| 0 <= i < s.len() implies decoded[i] == s[i] by {
        let x = b.subrange(p1, p1 + s.len() as int)[i];
        assert(x == payload[i]);
        let u = s[i] as u32;
        assert(u < 128);
        assert(x == ((u as u8)));
        assert(x as u32 == u);
        assert(decoded[i] == ((x as u32) as char));
        vstd::utf8::char_u32_cast(s[i], u);
    }
    assert(decoded =~= s);
}

/// Parsing an encoded optional name yields it.
proof fn lemma_dec_enc_opt_name(b: Seq<u8>, p: int, o: Option<Seq<char>>)
    requires
        0 <= p,
        ascii_opt_name(o),
        p + enc_opt_name(o).len() <= b.len(),
        b.subrange(p, p + enc_opt_name(o).len()) == enc_opt_name(o),
    ensures
        dec_opt_name_at(b, p) == Some((o, p + enc_opt_name(o).len())),
{
    match o {
        None => {
            assert(b[p] == b.subrange(p, p + 1)[0]);
        },
        Some(s) => {
            lemma_split_subrange(b, p, seq![1u8], enc_name(s));
            assert(b[p] == b.subrange(p, p + 1)[0]);
            lemma_dec_enc_name(b, p + 1, s);
        },
    }
}

/// Parsing an encoded optional rate yields it.
proof fn lemma_dec_enc_rate(b: Seq<u8>, p: int, o: Option<Rate>)
    requires
        0 <= p,
        match o {
            Some(r) => r.dt_micros > 0,
            None => true,
        },
        p + enc_rate(o).len() <= b.len(),
        b.subrange(p, p + enc_rate(o).len()) == enc_rate(o),
    ensures
        dec_rate_at(b, p) == Some((o, p + enc_rate(o).len())),
{
    match o {
        None => {
            assert(b[p] == b.subrange(p, p + 1)[0]);
        },
        Some(r) => {
            lemma_split_subrange(b, p, seq![1u8], enc_u64(r.delta) + enc_u64(r.dt_micros));
            assert(b[p] == b.subrange(p, p + 1)[0]);
            lemma_split_subrange(b, p + 1, enc_u64(r.delta), enc_u64(r.dt_micros));
            lemma_dec_enc_u64(b, p + 1, r.delta);
            lemma_dec_enc_u64(b, p + 9, r.dt_micros);
        },
    }
}

/// Parsing an encoded value yields it.
proof fn lemma_dec_enc_value(b: Seq<u8>, p: int, v: MetricValueView)
    requires
        0 <= p,
        v.wf(),
        value_encodable(v),
        p + enc_value(v).len() <= b.len(),
        b.subrange(p, p + enc_value(v).len()) == enc_value(v),
    ensures
        dec_value_at(b, p) == Some((v, p + enc_value(v).len())),
{
    match v {
        MetricValueView::Gauge { value, parent } => {
            lemma_split_subrange(b, p, seq![0u8], enc_u64(value) + enc_opt_name(parent));
            assert(b[p] == b.subrange(p, p + 1)[0]);
            lemma_split_subrange(b, p + 1, enc_u64(value), enc_opt_name(parent));
            lemma_dec_enc_u64(b, p + 1, value);
            lemma_dec_enc_opt_name(b, p + 9, parent);
        },
        MetricValueView::Counter { raw_value, rate_per_sec, parent } => {
            let rb = enc_rate(rate_per_sec);
            lemma_split_subrange(
                b,
                p,
                seq![1u8],
                enc_u64(raw_value) + (rb + enc_opt_name(parent)),
            );
            assert(b[p] == b.subrange(p, p + 1)[0]);
            lemma_split_subrange(b, p + 1, enc_u64(raw_value), rb + enc_opt_name(parent));
            lemma_dec_enc_u64(b, p + 1, raw_value);
            lemma_split_subrange(b, p + 9, rb, enc_opt_name(parent));
            lemma_dec_enc_rate(b, p + 9, rate_per_sec);
            lemma_dec_enc_opt_name(b, p + 9 + rb.len(), parent);
        },
        MetricValueView::Utilization { percent_milli, parent } => {
            lemma_split_subrange(b, p, seq![2u8], enc_u64(percent_milli) + enc_opt_name(parent));
            assert(b[p] == b.subrange(p, p + 1)[0]);
            lemma_split_subrange(b, p + 1, enc_u64(percent_milli), enc_opt_name(parent));
            lemma_dec_enc_u64(b, p + 1, percent_milli);
            lemma_dec_enc_opt_name(b, p + 9, parent);
        },
    }
}

/// Parsing an encoded snapshot entry yields it.
proof fn lemma_dec_enc_item(b: Seq<u8>, p: int, it: MetricItemView)
    requires
        0 <= p,
        it.value.wf(),
        ascii_name(it.name),
        value_encodable(it.value),
        p + enc_item(it).len() <= b.len(),
        b.subrange(p, p + enc_item(it).len()) == enc_item(it),
    ensures
        dec_item_at(b, p) == Some((it, p + enc_item(it).len())),
{
    lemma_split_subrange(b, p, enc_name(it.name), enc_value(it.value));
    lemma_dec_enc_name(b, p, it.name);
    lemma_dec_enc_value(b, p + enc_name(it.name).len(), it.value);
}

/// Parsing `n` encoded snapshot entries yields them.
proof fn lemma_dec_enc_items(b: Seq<u8>, p: int, items: Seq<MetricItemView>)
    requires
        0 <= p,
        forall|i: int|
            0 <= i < items.len() ==> (#[trigger] items[i]).value.wf() && ascii_name(items[i].name)
                && value_encodable(items[i].value),
        p + enc_items(items).len() <= b.len(),
        b.subrange(p, p + enc_items(items).len()) == enc_items(items),
    ensures
        dec_items_at(b, p, items.len()) == Some((items, p + enc_items(items).len())),
    decreases items.len(),
{
    if items.len() == 0 {
        assert(items =~= Seq::<MetricItemView>::empty());
    } else {
        let rest = items.skip(1);
        lemma_split_subrange(b, p, enc_item(items[0]), enc_items(rest));
        lemma_dec_enc_item(b, p, items[0]);
        assert(forall|i: int|
            0 <= i < rest.len() ==> (#[trigger] rest[i]) == items[i + 1]);
        lemma_dec_enc_items(b, p + enc_item(items[0]).len(), rest);
        assert(seq![items[0]] + rest =~= items);
    }
}

/// Parsing an encoded snapshot yields it.
proof fn lemma_dec_enc_metrics(b: Seq<u8>, p: int, m: MetricsView)
    requires
        0 <= p,
        m.wf(),
        metrics_encodable(m),
        p + enc_metrics(m).len() <= b.len(),
        b.subrange(p, p + enc_metrics(m).len()) == enc_metrics(m),
    ensures
        dec_metrics_at(b, p) == Some((m, p + enc_metrics(m).len())),
{
    assert(enc_metrics(m) =~= enc_u64(m.wall_time_ms) + (enc_u64(m.timestamp_micros) + (enc_u64(
        m.items.len() as u64,
    ) + enc_items(m.items))));
    lemma_split_subrange(
        b,
        p,
        enc_u64(m.wall_time_ms),
        enc_u64(m.timestamp_micros) + (enc_u64(m.items.len() as u64) + enc_items(m.items)),
    );
    lemma_dec_enc_u64(b, p, m.wall_time_ms);
    lemma_split_subrange(
        b,
        p + 8,
        enc_u64(m.timestamp_micros),
        enc_u64(m.items.len() as u64) + enc_items(m.items),
    );
    lemma_dec_enc_u64(b, p + 8, m.timestamp_micros);
    lemma_split_subrange(b, p + 16, enc_u64(m.items.len() as u64), enc_items(m.items));
    lemma_dec_enc_u64(b, p + 16, m.items.len() as u64);
    lemma_dec_enc_items(b, p + 24, m.items);
    assert(sorted_item_names(m.items));
}

/// Parsing an encoded recorded entry yields it.
proof fn lemma_dec_enc_entry(b: Seq<u8>, p: int, e: RecordedEntryView)
    requires
        0 <= p,
        e.metrics.wf(),
        metrics_encodable(e.metrics),
        p + enc_entry(e).len() <= b.len(),
        b.subrange(p, p + enc_entry(e).len()) == enc_entry(e),
    ensures
        dec_entry_at(b, p) == Some((e, p + enc_entry(e).len())),
{
    lemma_split_subrange(b, p, enc_u64(e.elapsed_micros), enc_metrics(e.metrics));
    lemma_dec_enc_u64(b, p, e.elapsed_micros);
    lemma_dec_enc_metrics(b, p + 8, e.metrics);
}

/// Parsing encoded recorded entries that reach the end of the buffer
/// yields them.
proof fn lemma_dec_enc_entries(b: Seq<u8>, p: int, es: Seq<RecordedEntryView>)
    requires
        0 <= p,
        forall|i: int|
            0 <= i < es.len() ==> (#[trigger] es[i]).metrics.wf() && metrics_encodable(
                es[i].metrics,
            ),
        p + enc_entries(es).len() == b.len(),
        b.subrange(p, p + enc_entries(es).len()) == enc_entries(es),
    ensures
        dec_entries_to_end(b, p) == Some((es, b.len() as int)),
    decreases es.len(),
{
    if es.len() == 0 {
        assert(es =~= Seq::<RecordedEntryView>::empty());
        assert(p == b.len());
    } else {
        let rest = es.skip(1);
        lemma_split_subrange(b, p, enc_entry(es[0]), enc_entries(rest));
        lemma_dec_enc_entry(b, p, es[0]);
        let p1 = p + enc_entry(es[0]).len();
        assert(enc_entry(es[0]).len() >= 8);
        assert(p < p1 <= b.len());
        assert(forall|i: int| 0 <= i < rest.len() ==> (#[trigger] rest[i]) == es[i + 1]);
        lemma_dec_enc_entries(b, p1, rest);
        assert(seq![es[0]] + rest =~= es);
    }
}

/// Decoding an encoded store gives back exactly the original: a recorded
/// session replays as it was written.
#[verifier::rlimit(100)]
pub proof fn lemma_store_round_trip(sv: ReplayStoreView)
    requires
        store_encodable(sv),
    ensures
        dec_store(enc_store(sv)) == Some(sv),
{
    let b = enc_store(sv);
    let tail1 = enc_header(sv.header) + enc_entries(sv.entries);
    assert(b =~= (magic() + seq![FORMAT_VERSION]) + tail1);
    assert(b.len() == 5 + tail1.len());
    assert(b.subrange(0, 4) =~= magic());
    assert(b[4] == FORMAT_VERSION);
    assert(b.subrange(5, 5 + tail1.len() as int) =~= tail1);
    assert(tail1 =~= enc_u64(sv.header.start_wall_time_ms) + (enc_name(sv.header.system_version)
        + enc_entries(sv.entries)));
    lemma_split_subrange(
        b,
        5,
        enc_u64(sv.header.start_wall_time_ms),
        enc_name(sv.header.system_version) + enc_entries(sv.entries),
    );
    lemma_dec_enc_u64(b, 5, sv.header.start_wall_time_ms);
    lemma_split_subrange(b, 13, enc_name(sv.header.system_version), enc_entries(sv.entries));
    lemma_dec_enc_name(b, 13, sv.header.system_version);
    let p1: int = 13 + enc_name(sv.header.system_version).len() as int;
    lemma_dec_enc_entries(b, p1, sv.entries);
    assert(p1 + enc_entries(sv.entries).len() == b.len());
    assert(entries_ordered(sv.entries));
}

/// Encoding one more item appends its encoding.
#[verifier::rlimit(30)]
proof fn lemma_enc_items_snoc(items: Seq<MetricItemView>, it: MetricItemView)
    ensures
        enc_items(items.push(it)) == enc_items(items) + enc_item(it),
    decreases items.len(),
{
    if items.len() == 0 {
        assert(items.push(it) =~= seq![it]);
        assert(enc_items(Seq::<MetricItemView>::empty()) == Seq::<u8>::empty());
        assert(seq![it].skip(1) =~= Seq::<MetricItemView>::empty());
        assert(seq![it][0] == it);
        assert(enc_items(seq![it]) == enc_item(it) + enc_items(Seq::<MetricItemView>::empty()));
        assert(enc_items(seq![it]) =~= enc_item(it));
        assert(enc_items(items) + enc_item(it) =~= enc_item(it));
    } else {
        assert(items.push(it).skip(1) =~= items.skip(1).push(it));
        lemma_enc_items_snoc(items.skip(1), it);
        assert(enc_items(items.push(it)) == enc_item(items[0]) + (enc_items(items.skip(1))
            + enc_item(it)));
        assert(enc_item(items[0]) + (enc_items(items.skip(1)) + enc_item(it)) =~= (enc_item(
            items[0],
        ) + enc_items(items.skip(1))) + enc_item(it));
    }
}

/// Encoding one more entry appends its encoding.
#[verifier::rlimit(30)]
proof fn lemma_enc_entries_snoc(es: Seq<RecordedEntryView>, e: RecordedEntryView)
    ensures
        enc_entries(es.push(e)) == enc_entries(es) + enc_entry(e),
    decreases es.len(),
{
    if es.len() == 0 {
        assert(es.push(e) =~= seq![e]);
        assert(enc_entries(Seq::<RecordedEntryView>::empty()) == Seq::<u8>::empty());
        assert(seq![e].skip(1) =~= Seq::<RecordedEntryView>::empty());
        assert(seq![e][0] == e);
        assert(enc_entries(seq![e]) == enc_entry(e) + enc_entries(Seq::<RecordedEntryView>::empty()));
        assert(enc_entries(seq![e]) =~= enc_entry(e));
        assert(enc_entries(es) + enc_entry(e) =~= enc_entry(e));
    } else {
        assert(es.push(e).skip(1) =~= es.skip(1).push(e));
        lemma_enc_entries_snoc(es.skip(1), e);
        assert(enc_entries(es.push(e)) == enc_entry(es[0]) + (enc_entries(es.skip(1)) + enc_entry(
            e,
        )));
        assert(enc_entry(es[0]) + (enc_entries(es.skip(1)) + enc_entry(e)) =~= (enc_entry(es[0])
            + enc_entries(es.skip(1))) + enc_entry(e));
    }
}

/// Appends the little-endian bytes of `v`.
fn push_u64(out: &mut Vec<u8>, v: u64)
    ensures
        final(out)@ == old(out)@ + enc_u64(v),
{
    out.push((v & 0xff) as u8);
    out.push(((v >> 8) & 0xff) as u8);
    out.push(((v >> 16) & 0xff) as u8);
    out.push(((v >> 24) & 0xff) as u8);
    out.push(((v >> 32) & 0xff) as u8);
    out.push(((v >> 40) & 0xff) as u8);
    out.push(((v >> 48) & 0xff) as u8);
    out.push(((v >> 56) & 0xff) as u8);
    proof {
        assert(out@ =~= old(out)@ + enc_u64(v));
    }
}

/// Appends a length-prefixed ASCII name.
fn push_name(out: &mut Vec<u8>, s: &str)
    requires
        ascii_name(s@),
    ensures
        final(out)@ == old(out)@ + enc_name(s@),
{
    let len = s.unicode_len();
    push_u64(out, len as u64);
    let ghost base = out@;
    let mut i: usize = 0;
    while i < len
        invariant
            i <= len,
            len == s@.len(),
            ascii_name(s@),
            base == old(out)@ + enc_u64(len as u64),
            out@ == base + s@.subrange(0, i as int).map_values(|c: char| (c as u32) as u8),
        decreases len - i,
    {
        let c = s.get_char(i);
        proof {
            assert((s@[i as int] as u32) < 128);
        }
        out.push(((c as u32) as u8));
        proof {
            assert(out@ =~= base + s@.subrange(0, i + 1).map_values(
                |c: char| (c as u32) as u8,
            ));
        }
        i = i + 1;
    }
    proof {
        assert(s@.subrange(0, s@.len() as int) =~= s@);
        assert(s@.subrange(0, s@.len() as int).map_values(|c: char| (c as u32) as u8)
            =~= s@.map_values(|c: char| (c as u32) as u8));
        assert(out@ =~= old(out)@ + enc_name(s@));
    }
}

/// Appends an optional parent name.
fn push_opt_name(out: &mut Vec<u8>, p: &Option<String>)
    requires
        ascii_opt_name(crate::metrics::opt_name_view(*p)),
    ensures
        final(out)@ == old(out)@ + enc_opt_name(crate::metrics::opt_name_view(*p)),
{
    match p {
        None => {
            out.push(0);
            proof {
                assert(out@ =~= old(out)@ + seq![0u8]);
            }
        },
        Some(s) => {
            out.push(1);
            let ghost mid = out@;
            proof {
                assert(mid =~= old(out)@ + seq![1u8]);
            }
            push_name(out, s.as_str());
            proof {
                assert(out@ =~= old(out)@ + (seq![1u8] + enc_name(s@)));
            }
        },
    }
}

/// Appends a metric value.
fn push_value(out: &mut Vec<u8>, v: &MetricValue)
    requires
        value_encodable(v@),
    ensures
        final(out)@ == old(out)@ + enc_value(v@),
{
    match v {
        MetricValue::Gauge { value, parent } => {
            out.push(0);
            push_u64(out, *value);
            push_opt_name(out, parent);
            proof {
                assert(out@ =~= old(out)@ + enc_value(v@));
            }
        },
        MetricValue::Counter { raw_value, rate_per_sec, parent } => {
            out.push(1);
            push_u64(out, *raw_value);
            match rate_per_sec {
                None => {
                    out.push(0);
                },
                Some(r) => {
                    out.push(1);
                    push_u64(out, r.delta);
                    push_u64(out, r.dt_micros);
                },
            }
            push_opt_name(out, parent);
            proof {
                assert(out@ =~= old(out)@ + enc_value(v@));
            }
        },
        MetricValue::Utilization { percent_milli, parent } => {
            out.push(2);
            push_u64(out, *percent_milli);
            push_opt_name(out, parent);
            proof {
                assert(out@ =~= old(out)@ + enc_value(v@));
            }
        },
    }
}

/// Appends a snapshot.
fn push_metrics(out: &mut Vec<u8>, m: &Metrics)
    requires
        metrics_encodable(m@),
    ensures
        final(out)@ == old(out)@ + enc_metrics(m@),
{
    push_u64(out, m.wall_time_ms);
    push_u64(out, m.timestamp_micros);
    let n = m.len();
    push_u64(out, n as u64);
    let ghost base = out@;
    let mut i: usize = 0;
    while i < n
        invariant
            i <= n,
            n == m@.items.len(),
            metrics_encodable(m@),
            base == old(out)@ + enc_u64(m.wall_time_ms) + enc_u64(m.timestamp_micros) + enc_u64(
                n as u64,
            ),
            out@ == base + enc_items(m@.items.subrange(0, i as int)),
        decreases n - i,
    {
        let it = m.item_at(i);
        proof {
            assert(ascii_name(m@.items[i as int].name));
            assert(value_encodable(m@.items[i as int].value));
            assert(it.name@ == m@.items[i as int].name);
        }
        push_name(out, it.name.as_str());
        push_value(out, &it.value);
        proof {
            lemma_enc_items_snoc(m@.items.subrange(0, i as int), m@.items[i as int]);
            assert(m@.items.subrange(0, i + 1) =~= m@.items.subrange(0, i as int).push(
                m@.items[i as int],
            ));
            assert(out@ =~= base + enc_items(m@.items.subrange(0, i + 1)));
        }
        i = i + 1;
    }
    proof {
        assert(m@.items.subrange(0, n as int) =~= m@.items);
        assert(out@ =~= old(out)@ + enc_metrics(m@));
    }
}

/// Serializes a store to its byte format.
/// The opening bytes of a recording: magic, format version, header.
/// During a recording session these bytes are written once, and each
/// snapshot's [`encode_entry`] bytes are then appended as produced.
pub fn encode_store_header(header: &ReplayHeader) -> (r: Vec<u8>)
    requires
        ascii_name(header@.system_version),
    ensures
        r@ == magic() + seq![FORMAT_VERSION] + enc_header(header@),
{
    let mut out: Vec<u8> = Vec::new();
    out.push(69);
    out.push(76);
    out.push(68);
    out.push(83);
    out.push(FORMAT_VERSION);
    push_u64(&mut out, header.start_wall_time_ms);
    push_name(&mut out, header.system_version.as_str());
    proof {
        assert(out@ =~= magic() + seq![FORMAT_VERSION] + enc_header(header@));
    }
    out
}

/// One recorded entry's bytes.
pub fn encode_entry(elapsed_micros: u64, metrics: &Metrics) -> (r: Vec<u8>)
    requires
        metrics_encodable(metrics@),
    ensures
        r@ == enc_entry(RecordedEntryView { elapsed_micros, metrics: metrics@ }),
{
    let mut out: Vec<u8> = Vec::new();
    push_u64(&mut out, elapsed_micros);
    push_metrics(&mut out, metrics);
    proof {
        assert(out@ =~= enc_entry(RecordedEntryView { elapsed_micros, metrics: metrics@ }));
    }
    out
}

/// Appending one snapshot to a recording extends its bytes by exactly
/// that entry's encoding, leaving the earlier bytes untouched.
pub proof fn lemma_append_entry(sv: ReplayStoreView, e: RecordedEntryView)
    ensures
        enc_store(ReplayStoreView { header: sv.header, entries: sv.entries.push(e) })
            == enc_store(sv) + enc_entry(e),
{
    lemma_enc_entries_snoc(sv.entries, e);
    assert(enc_store(ReplayStoreView { header: sv.header, entries: sv.entries.push(e) })
        =~= enc_store(sv) + enc_entry(e));
}

/// Serializes a whole store to its byte format.
pub fn encode_store(store: &ReplayStore) -> (r: Vec<u8>)
    requires
        store_encodable(store@),
    ensures
        r@ == enc_store(store@),
{
    let mut out = encode_store_header(&store.header);
    let ghost base = out@;
    let n = store.len();
    let mut i: usize = 0;
    proof {
        assert(base + enc_entries(store@.entries.subrange(0, 0)) =~= base);
    }
    while i < n
        invariant
            i <= n,
            n == store@.entries.len(),
            store_encodable(store@),
            base == magic() + seq![FORMAT_VERSION] + enc_header(store@.header),
            out@ == base + enc_entries(store@.entries.subrange(0, i as int)),
        decreases n - i,
    {
        let e = store.entry_at(i);
        proof {
            assert(metrics_encodable(store@.entries[i as int].metrics));
            assert(e.metrics@ == store@.entries[i as int].metrics);
        }
        let mut entry_bytes = encode_entry(e.elapsed_micros, &e.metrics);
        out.append(&mut entry_bytes);
        proof {
            lemma_enc_entries_snoc(store@.entries.subrange(0, i as int), store@.entries[i as int]);
            assert(store@.entries.subrange(0, i + 1) =~= store@.entries.subrange(0, i as int).push(
                store@.entries[i as int],
            ));
            assert(out@ =~= base + enc_entries(store@.entries.subrange(0, i + 1)));
        }
        i = i + 1;
    }
    proof {
        assert(store@.entries.subrange(0, n as int) =~= store@.entries);
        assert(out@ =~= enc_store(store@));
    }
    out
}

/// Why a byte buffer failed to decode as a recorded session.
#[derive(Clone, Copy, Debug, PartialEq, Eq, Structural)]
pub enum DecodeError {
    /// The bytes are not a well-formed recorded session.
    Malformed,
}

/// Parses a little-endian `u64`.
fn parse_u64(b: &Vec<u8>, p: usize) -> (r: Option<(u64, usize)>)
    ensures
        match r {
            Some((v, q)) => dec_u64_at(b@, p as int) == Some((v, q as int)) && p <= q <= b@.len(),
            None => dec_u64_at(b@, p as int) is None,
        },
{
    if p > b.len() || b.len() - p < 8 {
        return None;
    }
    let v = (b[p] as u64) | ((b[p + 1] as u64) << 8u64) | ((b[p + 2] as u64) << 16u64) | ((b[p
        + 3] as u64) << 24u64) | ((b[p + 4] as u64) << 32u64) | ((b[p + 5] as u64) << 40u64) | ((
    b[p + 6] as u64) << 48u64) | ((b[p + 7] as u64) << 56u64);
    Some((v, p + 8))
}

/// Parses one byte.
fn parse_u8(b: &Vec<u8>, p: usize) -> (r: Option<(u8, usize)>)
    ensures
        match r {
            Some((v, q)) => dec_u8_at(b@, p as int) == Some((v, q as int)) && p < q <= b@.len(),
            None => dec_u8_at(b@, p as int) is None,
        },
{
    if p < b.len() {
        Some((b[p], p + 1))
    } else {
        None
    }
}

/// Parses a length-prefixed ASCII name.
#[verifier::rlimit(60)]
fn parse_name(b: &Vec<u8>, p: usize) -> (r: Option<(String, usize)>)
    ensures
        match r {
            Some((s, q)) => dec_name_at(b@, p as int) == Some((s@, q as int)) && p <= q
                <= b@.len(),
            None => dec_name_at(b@, p as int) is None,
        },
{
    let blen = b.len();
    match parse_u64(b, p) {
        None => None,
        Some((len, p1)) => {
            if len > (blen - p1) as u64 {
                return None;
            }
            let len_us = len as usize;
            proof {
                assert(len_us == len);
                assert(p1 + len_us <= blen);
            }
            let mut ok = true;
            let mut k: usize = 0;
            while k < len_us
                invariant
                    k <= len_us,
                    p1 + len_us <= blen,
                    blen == b@.len(),
                    ok == (forall|t: int| 0 <= t < k ==> (#[trigger] b@[p1 + t]) < 128),
                decreases len_us - k,
            {
                if b[p1 + k] >= 128 {
                    ok = false;
                    proof {
                        assert(b@[p1 + (k as int)] >= 128);
                    }
                }
                k = k + 1;
            }
            if !ok {
                proof {
                    let t = choose|t: int| !(0 <= t < len_us ==> (#[trigger] b@[p1 + t]) < 128);
                    assert(b@[p1 + t] >= 128);
                    assert(!(forall|i: int| p1 <= i < p1 + len ==> (#[trigger] b@[i]) < 128)) by {
                        assert(p1 <= p1 + t < p1 + len);
                    }
                }
                return None;
            }
            let mut bytes: Vec<u8> = Vec::new();
            let mut j: usize = 0;
            while j < len_us
                invariant
                    j <= len_us,
                    p1 + len_us <= blen,
                    blen == b@.len(),
                    bytes@ == b@.subrange(p1 as int, p1 + j as int),
                decreases len_us - j,
            {
                bytes.push(b[p1 + j]);
                proof {
                    assert(bytes@ =~= b@.subrange(p1 as int, p1 + j + 1));
                }
                j = j + 1;
            }
            proof {
                assert forall|i: int| p1 <= i < p1 + len implies (#[trigger] b@[i]) < 128 by {
                    assert(b@[p1 + (i - p1)] < 128);
                }
                assert(forall|i: int| 0 <= i < bytes@.len() ==> bytes@[i] == b@[p1 + i]);
                assert(forall|i: int| 0 <= i < bytes@.len() ==> bytes@[i] < 128);
            }
            let s = string_from_ascii(bytes);
            proof {
                let expect = b@.subrange(p1 as int, p1 + len as int).map_values(
                    |x: u8| (x as u32) as char,
                );
                assert(s@ =~= expect);
            }
            Some((s, p1 + len_us))
        },
    }
}

/// Parses an optional parent name.
fn parse_opt_name(b: &Vec<u8>, p: usize) -> (r: Option<(Option<String>, usize)>)
    ensures
        match r {
            Some((o, q)) => dec_opt_name_at(b@, p as int) == Some(
                (crate::metrics::opt_name_view(o), q as int),
            ) && p <= q <= b@.len(),
            None => dec_opt_name_at(b@, p as int) is None,
        },
{
    match parse_u8(b, p) {
        None => None,
        Some((t, p1)) => {
            if t == 0 {
                Some((None, p1))
            } else if t == 1 {
                match parse_name(b, p1) {
                    None => None,
                    Some((s, p2)) => Some((Some(s), p2)),
                }
            } else {
                None
            }
        },
    }
}

/// Parses an optional rate.
fn parse_rate(b: &Vec<u8>, p: usize) -> (r: Option<(Option<Rate>, usize)>)
    ensures
        match r {
            Some((o, q)) => dec_rate_at(b@, p as int) == Some((o, q as int)) && p <= q <= b@.len()
                && (o is Some ==> o.unwrap().dt_micros > 0),
            None => dec_rate_at(b@, p as int) is None,
        },
{
    match parse_u8(b, p) {
        None => None,
        Some((t, p1)) => {
            if t == 0 {
                Some((None, p1))
            } else if t == 1 {
                match parse_u64(b, p1) {
                    None => None,
                    Some((delta, p2)) => match parse_u64(b, p2) {
                        None => None,
                        Some((dt, p3)) => {
                            if dt > 0 {
                                Some((Some(Rate { delta, dt_micros: dt }), p3))
                            } else {
                                None
                            }
                        },
                    },
                }
            } else {
                None
            }
        },
    }
}

/// Parses a metric value.
fn parse_value(b: &Vec<u8>, p: usize) -> (r: Option<(MetricValue, usize)>)
    ensures
        match r {
            Some((v, q)) => dec_value_at(b@, p as int) == Some((v@, q as int)) && p <= q
                <= b@.len() && v@.wf(),
            None => dec_value_at(b@, p as int) is None,
        },
{
    match parse_u8(b, p) {
        None => None,
        Some((tag, p1)) => {
            if tag == 0 {
                match parse_u64(b, p1) {
                    None => None,
                    Some((value, p2)) => match parse_opt_name(b, p2) {
                        None => None,
                        Some((parent, p3)) => Some((MetricValue::Gauge { value, parent }, p3)),
                    },
                }
            } else if tag == 1 {
                match parse_u64(b, p1) {
                    None => None,
                    Some((raw_value, p2)) => match parse_rate(b, p2) {
                        None => None,
                        Some((rate_per_sec, p3)) => match parse_opt_name(b, p3) {
                            None => None,
                            Some((parent, p4)) => Some(
                                (MetricValue::Counter { raw_value, rate_per_sec, parent }, p4),
                            ),
                        },
                    },
                }
            } else if tag == 2 {
                match parse_u64(b, p1) {
                    None => None,
                    Some((percent_milli, p2)) => match parse_opt_name(b, p2) {
                        None => None,
                        Some((parent, p3)) => Some(
                            (MetricValue::Utilization { percent_milli, parent }, p3),
                        ),
                    },
                }
            } else {
                None
            }
        },
    }
}

/// Parses one snapshot entry.
fn parse_item(b: &Vec<u8>, p: usize) -> (r: Option<(MetricItem, usize)>)
    ensures
        match r {
            Some((it, q)) => dec_item_at(b@, p as int) == Some((it@, q as int)) && p <= q
                <= b@.len() && it@.value.wf(),
            None => dec_item_at(b@, p as int) is None,
        },
{
    match parse_name(b, p) {
        None => None,
        Some((name, p1)) => match parse_value(b, p1) {
            None => None,
            Some((value, p2)) => Some((MetricItem { name, value }, p2)),
        },
    }
}

/// Parses `n` snapshot entries.
fn parse_items(b: &Vec<u8>, p: usize, n: u64) -> (r: Option<(Vec<MetricItem>, usize)>)
    requires
        p <= b@.len(),
    ensures
        match r {
            Some((items, q)) => dec_items_at(b@, p as int, n as nat) == Some(
                (items@.map_values(|it: MetricItem| it@), q as int),
            ) && p <= q <= b@.len() && (forall|i: int|
                0 <= i < items@.len() ==> (#[trigger] items@[i])@.value.wf()),
            None => dec_items_at(b@, p as int, n as nat) is None,
        },
{
    let mut items: Vec<MetricItem> = Vec::new();
    let mut k: u64 = 0;
    let mut pos: usize = p;
    while k < n
        invariant
            k <= n,
            p <= pos <= b@.len(),
            items@.len() == k,
            forall|i: int| 0 <= i < items@.len() ==> (#[trigger] items@[i])@.value.wf(),
            match dec_items_at(b@, pos as int, (n - k) as nat) {
                Some((rest, q)) => dec_items_at(b@, p as int, n as nat) == Some(
                    (items@.map_values(|it: MetricItem| it@) + rest, q),
                ),
                None => dec_items_at(b@, p as int, n as nat) is None,
            },
        decreases n - k,
    {
        match parse_item(b, pos) {
            None => {
                return None;
            },
            Some((it, q)) => {
                proof {
                    let acc = items@.map_values(|it2: MetricItem| it2@);
                    if dec_items_at(b@, q as int, (n - k - 1) as nat) is Some {
                        let (rest2, q2) = dec_items_at(b@, q as int, (n - k - 1) as nat).unwrap();
                        assert(dec_items_at(b@, pos as int, (n - k) as nat) == Some(
                            (seq![it@] + rest2, q2),
                        ));
                        assert(acc + (seq![it@] + rest2) =~= (acc + seq![it@]) + rest2);
                        assert((items@.push(it)).map_values(|it2: MetricItem| it2@) =~= acc
                            + seq![it@]);
                    } else {
                        assert(dec_items_at(b@, pos as int, (n - k) as nat) is None);
                    }
                }
                items.push(it);
                pos = q;
            },
        }
        k = k + 1;
    }
    proof {
        assert(dec_items_at(b@, pos as int, 0) == Some(
            (Seq::<MetricItemView>::empty(), pos as int),
        ));
        assert(items@.map_values(|it: MetricItem| it@) + Seq::<MetricItemView>::empty()
            =~= items@.map_values(|it: MetricItem| it@));
    }
    Some((items, pos))
}

/// Names strictly ascending between neighbours are strictly ascending
/// everywhere.
proof fn lemma_adjacent_implies_sorted(items: Seq<MetricItemView>, i: int, j: int)
    requires
        forall|k: int|
            0 <= k < items.len() - 1 ==> lex_lt(
                (#[trigger] items[k]).name,
                items[k + 1].name,
            ),
        0 <= i < j < items.len(),
    ensures
        lex_lt(items[i].name, items[j].name),
    decreases j - i,
{
    if j == i + 1 {
        assert(lex_lt(items[i].name, items[i + 1].name));
    } else {
        lemma_adjacent_implies_sorted(items, i, j - 1);
        assert(lex_lt(items[j - 1].name, items[j].name));
        crate::lex::lemma_lex_lt_transitive(items[i].name, items[j - 1].name, items[j].name);
    }
}

/// Whether the parsed entries come strictly name-sorted.
fn check_items_sorted(items: &Vec<MetricItem>) -> (r: bool)
    ensures
        r == sorted_item_names(items@.map_values(|it: MetricItem| it@)),
{
    let ghost iv = items@.map_values(|it: MetricItem| it@);
    let len = items.len();
    if len == 0 {
        return true;
    }
    let mut k: usize = 0;
    while k + 1 < len
        invariant
            len >= 1,
            k < len,
            len == items@.len(),
            iv == items@.map_values(|it: MetricItem| it@),
            forall|t: int| 0 <= t < k ==> lex_lt((#[trigger] iv[t]).name, iv[t + 1].name),
        decreases len - k,
    {
        if !crate::lex::name_lt(items[k].name.as_str(), items[k + 1].name.as_str()) {
            proof {
                assert(iv[k as int].name == items@[k as int].name@);
                assert(!lex_lt(iv[k as int].name, iv[k + 1].name));
                assert(!sorted_item_names(iv));
            }
            return false;
        }
        k = k + 1;
    }
    proof {
        assert forall|i: int, j: int| 0 <= i < j < iv.len() implies lex_lt(
            (#[trigger] iv[i]).name,
            (#[trigger] iv[j]).name,
        ) by {
            lemma_adjacent_implies_sorted(iv, i, j);
        }
        assert(sorted_item_names(iv));
    }
    true
}

/// Parses one snapshot, checking that its entries come name-sorted.
#[verifier::rlimit(60)]
fn parse_metrics(b: &Vec<u8>, p: usize) -> (r: Option<(Metrics, usize)>)
    ensures
        match r {
            Some((m, q)) => dec_metrics_at(b@, p as int) == Some((m@, q as int)) && p <= q
                <= b@.len() && m@.wf(),
            None => dec_metrics_at(b@, p as int) is None,
        },
{
    match parse_u64(b, p) {
        None => None,
        Some((wall_time_ms, p1)) => match parse_u64(b, p1) {
            None => None,
            Some((timestamp_micros, p2)) => match parse_u64(b, p2) {
                None => None,
                Some((n, p3)) => match parse_items(b, p3, n) {
                    None => None,
                    Some((items, p4)) => {
                        let ghost iv = items@.map_values(|it: MetricItem| it@);
                        if !check_items_sorted(&items) {
                            return None;
                        }
                        let m = Metrics { wall_time_ms, timestamp_micros, items };
                        proof {
                            assert(m@.items == iv);
                            assert(m@.wf());
                        }
                        Some((m, p4))
                    },
                },
            },
        },
    }
}

/// Parses one recorded entry.
fn parse_entry(b: &Vec<u8>, p: usize) -> (r: Option<(RecordedEntry, usize)>)
    ensures
        match r {
            Some((e, q)) => dec_entry_at(b@, p as int) == Some((e@, q as int)) && p < q
                <= b@.len() && e@.metrics.wf(),
            None => dec_entry_at(b@, p as int) is None,
        },
{
    match parse_u64(b, p) {
        None => None,
        Some((elapsed_micros, p1)) => match parse_metrics(b, p1) {
            None => None,
            Some((metrics, p2)) => Some((RecordedEntry { elapsed_micros, metrics }, p2)),
        },
    }
}

/// Parses `n` recorded entries.
fn parse_entries_to_end(b: &Vec<u8>, p: usize) -> (r: Option<(Vec<RecordedEntry>, usize)>)
    requires
        p <= b@.len(),
    ensures
        match r {
            Some((es, q)) => dec_entries_to_end(b@, p as int) == Some(
                (es@.map_values(|e: RecordedEntry| e@), q as int),
            ) && p <= q <= b@.len() && (forall|i: int|
                0 <= i < es@.len() ==> (#[trigger] es@[i])@.metrics.wf()),
            None => dec_entries_to_end(b@, p as int) is None,
        },
{
    let blen = b.len();
    let mut es: Vec<RecordedEntry> = Vec::new();
    let mut pos: usize = p;
    while pos < blen
        invariant
            p <= pos <= blen,
            blen == b@.len(),
            forall|i: int| 0 <= i < es@.len() ==> (#[trigger] es@[i])@.metrics.wf(),
            match dec_entries_to_end(b@, pos as int) {
                Some((rest, q)) => dec_entries_to_end(b@, p as int) == Some(
                    (es@.map_values(|e: RecordedEntry| e@) + rest, q),
                ),
                None => dec_entries_to_end(b@, p as int) is None,
            },
        decreases blen - pos,
    {
        match parse_entry(b, pos) {
            None => {
                return None;
            },
            Some((e, q)) => {
                proof {
                    let acc = es@.map_values(|e2: RecordedEntry| e2@);
                    assert(pos < q <= b@.len());
                    if dec_entries_to_end(b@, q as int) is Some {
                        let (rest2, q2) = dec_entries_to_end(b@, q as int).unwrap();
                        assert(dec_entries_to_end(b@, pos as int) == Some(
                            (seq![e@] + rest2, q2),
                        ));
                        assert(acc + (seq![e@] + rest2) =~= (acc + seq![e@]) + rest2);
                        assert((es@.push(e)).map_values(|e2: RecordedEntry| e2@) =~= acc
                            + seq![e@]);
                    } else {
                        assert(dec_entries_to_end(b@, pos as int) is None);
                    }
                }
                es.push(e);
                pos = q;
            },
        }
    }
    proof {
        assert(dec_entries_to_end(b@, pos as int) == Some(
            (Seq::<RecordedEntryView>::empty(), pos as int),
        ));
        assert(es@.map_values(|e: RecordedEntry| e@) + Seq::<RecordedEntryView>::empty()
            =~= es@.map_values(|e: RecordedEntry| e@));
    }
    Some((es, pos))
}

/// Elapsed times nondecreasing between neighbours are nondecreasing
/// everywhere.
proof fn lemma_adjacent_implies_ordered(es: Seq<RecordedEntryView>, i: int, j: int)
    requires
        forall|k: int|
            0 <= k < es.len() - 1 ==> (#[trigger] es[k]).elapsed_micros <= es[k
                + 1].elapsed_micros,
        0 <= i < j < es.len(),
    ensures
        es[i].elapsed_micros <= es[j].elapsed_micros,
    decreases j - i,
{
    if j > i + 1 {
        lemma_adjacent_implies_ordered(es, i, j - 1);
    }
}

/// Whether the parsed entries come in elapsed-time order.
fn check_entries_ordered(entries: &Vec<RecordedEntry>) -> (r: bool)
    ensures
        r == entries_ordered(entries@.map_values(|e: RecordedEntry| e@)),
{
    let ghost ev = entries@.map_values(|e: RecordedEntry| e@);
    let len = entries.len();
    if len == 0 {
        return true;
    }
    let mut k: usize = 0;
    while k + 1 < len
        invariant
            len >= 1,
            k < len,
            len == entries@.len(),
            ev == entries@.map_values(|e: RecordedEntry| e@),
            forall|t: int|
                0 <= t < k ==> (#[trigger] ev[t]).elapsed_micros <= ev[t + 1].elapsed_micros,
        decreases len - k,
    {
        if entries[k].elapsed_micros > entries[k + 1].elapsed_micros {
            proof {
                assert(ev[k as int].elapsed_micros > ev[k + 1].elapsed_micros);
                assert(!entries_ordered(ev));
            }
            return false;
        }
        k = k + 1;
    }
    proof {
        assert forall|i: int, j: int|
            0 <= i < j < ev.len() implies (#[trigger] ev[i]).elapsed_micros <= (
        #[trigger] ev[j]).elapsed_micros by {
            lemma_adjacent_implies_ordered(ev, i, j);
        }
        assert(entries_ordered(ev));
    }
    true
}

/// Deserializes a recorded session from its byte format.  Succeeds
/// exactly on the buffers the format grammar accepts, and then returns a
/// well-formed store.
#[verifier::rlimit(60)]
pub fn decode_store(bytes: &Vec<u8>) -> (r: Result<ReplayStore, DecodeError>)
    ensures
        match r {
            Ok(s) => dec_store(bytes@) == Some(s@) && s@.wf(),
            Err(_) => dec_store(bytes@) is None,
        },
{
    if bytes.len() < 5 {
        return Err(DecodeError::Malformed);
    }
    if !(bytes[0] == 69 && bytes[1] == 76 && bytes[2] == 68 && bytes[3] == 83) {
        proof {
            assert(bytes@.subrange(0, 4) != magic()) by {
                if bytes@.subrange(0, 4) == magic() {
                    assert(bytes@.subrange(0, 4)[0] == bytes@[0]);
                    assert(bytes@.subrange(0, 4)[1] == bytes@[1]);
                    assert(bytes@.subrange(0, 4)[2] == bytes@[2]);
                    assert(bytes@.subrange(0, 4)[3] == bytes@[3]);
                }
            }
        }
        return Err(DecodeError::Malformed);
    }
    proof {
        assert(bytes@.subrange(0, 4) =~= magic());
    }
    if bytes[4] != FORMAT_VERSION {
        return Err(DecodeError::Malformed);
    }
    let (start_wall_time_ms, p0) = match parse_u64(bytes, 5) {
        None => {
            return Err(DecodeError::Malformed);
        },
        Some(x) => x,
    };
    let (system_version, p1) = match parse_name(bytes, p0) {
        None => {
            return Err(DecodeError::Malformed);
        },
        Some(x) => x,
    };
    let (entries, _p2) = match parse_entries_to_end(bytes, p1) {
        None => {
            return Err(DecodeError::Malformed);
        },
        Some(x) => x,
    };
    let ghost ev = entries@.map_values(|e: RecordedEntry| e@);
    if !check_entries_ordered(&entries) {
        return Err(DecodeError::Malformed);
    }
    let s = ReplayStore {
        header: ReplayHeader { start_wall_time_ms, system_version },
        entries,
    };
    proof {
        assert(s@.entries == ev);
        assert(s@.wf());
        assert(dec_store(bytes@) == Some(s@));
    }
    Ok(s)
}

} // verus!

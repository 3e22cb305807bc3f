//! ASCII text helpers: building strings from verified byte sequences and
//! formatting numbers for display names.
//!
//! Metric names are dotted ASCII paths, so the crate works on ASCII bytes
//! wherever a string has to be built or serialized, and crosses between
//! bytes and `String` through the two functions at the top of this file.

use vstd::prelude::*;

verus! {

/// Turns ASCII bytes into the string whose characters are those bytes.
///
/// Relies on `String::from_utf8`: ASCII is valid UTF-8, decoding yields
/// one character per byte, and the conversion succeeds on every ASCII
/// input.
#[verifier::external_body]
pub fn string_from_ascii(bytes: Vec<u8>) -> (r: String)
    requires
        forall|i: int| 0 <= i < bytes@.len() ==> bytes@[i] < 128,
    ensures
        r@ == bytes@.map_values(|b: u8| b as char),
{
    match String::from_utf8(bytes) {
        Ok(s) => s,
        Err(_) => String::new(),
    }
}

/// The decimal digits of `n`, most significant first, as ASCII bytes.
pub open spec fn dec_bytes(n: nat) -> Seq<u8>
    decreases n,
{
    if n < 10 {
        seq![(n + 48) as u8]
    } else {
        dec_bytes(n / 10).push((n % 10 + 48) as u8)
    }
}

/// Decimal digits are ASCII and at least one digit is produced.
pub proof fn lemma_dec_bytes_ascii(n: nat)
    ensures
        dec_bytes(n).len() >= 1,
        forall|i: int| 0 <= i < dec_bytes(n).len() ==> 48 <= #[trigger] dec_bytes(n)[i] <= 57,
    decreases n,
{
    if n >= 10 {
        lemma_dec_bytes_ascii(n / 10);
    }
}

/// `digits` with an ASCII comma spliced in before every group of three
/// digits counted from the right.
pub open spec fn grouped(digits: Seq<u8>) -> Seq<u8>
    decreases digits.len(),
{
    if digits.len() <= 3 {
        digits
    } else {
        grouped(digits.take(digits.len() - 3)) + seq![44u8] + digits.skip(digits.len() - 3)
    }
}

/// Grouping ASCII digits yields ASCII bytes.
pub proof fn lemma_grouped_ascii(digits: Seq<u8>)
    requires
        forall|i: int| 0 <= i < digits.len() ==> #[trigger] digits[i] < 128,
    ensures
        forall|i: int| 0 <= i < grouped(digits).len() ==> #[trigger] grouped(digits)[i] < 128,
    decreases digits.len(),
{
    if digits.len() > 3 {
        let head = digits.take(digits.len() - 3);
        assert(forall|i: int| 0 <= i < head.len() ==> #[trigger] head[i] < 128);
        lemma_grouped_ascii(head);
        let g = grouped(digits);
        assert forall|i: int| 0 <= i < g.len() implies #[trigger] g[i] < 128 by {
            assert(g == grouped(head) + seq![44u8] + digits.skip(digits.len() - 3));
            if i < grouped(head).len() {
                assert(g[i] == grouped(head)[i]);
            } else if i == grouped(head).len() {
                assert(g[i] == 44u8);
            } else {
                assert(g[i] == digits.skip(digits.len() - 3)[i - grouped(head).len() - 1]);
                assert(digits.skip(digits.len() - 3)[i - grouped(head).len() - 1] == digits[
                    digits.len() - 3 + (i - grouped(head).len() - 1)]);
            }
        }
    }
}

/// What [`format_u64`] returns: the decimal digits of `n`, grouped by
/// thousands with commas, followed by the suffix.
pub open spec fn spec_format_u64(n: u64, suffix: Seq<char>) -> Seq<char> {
    grouped(dec_bytes(n as nat)).map_values(|b: u8| b as char) + suffix
}

/// Appends the decimal digits of `n`, most significant first.
fn push_dec_bytes(n: u64, out: &mut Vec<u8>)
    ensures
        final(out)@ == old(out)@ + dec_bytes(n as nat),
    decreases n,
{
    if n >= 10 {
        push_dec_bytes(n / 10, out);
    }
    out.push((n % 10) as u8 + 48);
    proof {
        assert(out@ =~= old(out)@ + dec_bytes(n as nat));
    }
}

/// The decimal digits of `n` as ASCII bytes, most significant first.
pub fn dec_bytes_of(n: u64) -> (r: Vec<u8>)
    ensures
        r@ == dec_bytes(n as nat),
{
    let mut out: Vec<u8> = Vec::new();
    push_dec_bytes(n, &mut out);
    proof {
        assert(out@ =~= dec_bytes(n as nat));
    }
    out
}

/// Appends `digits.take(m)` with commas as [`grouped`] places them.
fn push_grouped(digits: &Vec<u8>, m: usize, out: &mut Vec<u8>)
    requires
        m <= digits@.len(),
    ensures
        final(out)@ == old(out)@ + grouped(digits@.take(m as int)),
    decreases m,
{
    if m <= 3 {
        let ghost base = out@;
        proof {
            assert(base + digits@.subrange(0, 0) =~= base);
        }
        let mut i: usize = 0;
        while i < m
            invariant
                i <= m,
                m <= digits@.len(),
                out@ == base + digits@.subrange(0, i as int),
            decreases m - i,
        {
            out.push(digits[i]);
            proof {
                assert(out@ =~= base + digits@.subrange(0, i + 1));
            }
            i = i + 1;
        }
        proof {
            assert(digits@.subrange(0, m as int) =~= digits@.take(m as int));
            assert(grouped(digits@.take(m as int)) == digits@.take(m as int));
        }
    } else {
        push_grouped(digits, m - 3, out);
        out.push(44);
        let ghost base = out@;
        proof {
            assert(base =~= old(out)@ + grouped(digits@.take(m - 3)) + seq![44u8]);
            assert(base + digits@.subrange(m - 3, m - 3) =~= base);
        }
        let mut i: usize = m - 3;
        while i < m
            invariant
                3 < m,
                m - 3 <= i <= m,
                m <= digits@.len(),
                base == old(out)@ + grouped(digits@.take(m - 3)) + seq![44u8],
                out@ == base + digits@.subrange(m - 3, i as int),
            decreases m - i,
        {
            out.push(digits[i]);
            proof {
                assert(out@ =~= base + digits@.subrange(m - 3, i + 1));
            }
            i = i + 1;
        }
        proof {
            let t = digits@.take(m as int);
            assert(t.take(m - 3) =~= digits@.take(m - 3));
            assert(t.skip(m - 3) =~= digits@.subrange(m - 3, m as int));
            assert(grouped(t) == grouped(digits@.take(m - 3)) + seq![44u8] + t.skip(m - 3));
            assert(out@ =~= old(out)@ + grouped(t));
        }
    }
}

/// Renders `n` in decimal with thousands separated by commas, followed
/// by `suffix`.
pub fn format_u64(n: u64, suffix: &str) -> (r: String)
    ensures
        r@ == spec_format_u64(n, suffix@),
{
    let digits = dec_bytes_of(n);
    let mut grouped_bytes: Vec<u8> = Vec::new();
    push_grouped(&digits, digits.len(), &mut grouped_bytes);
    proof {
        assert(digits@.take(digits@.len() as int) =~= digits@);
        lemma_dec_bytes_ascii(n as nat);
        lemma_grouped_ascii(digits@);
        assert(grouped_bytes@ =~= grouped(digits@));
    }
    let mut s = string_from_ascii(grouped_bytes);
    s.append(suffix);
    s
}

/// The decimal digits of `n`, left-padded with ASCII zeros to `width`.
pub open spec fn spec_zero_padded(n: u64, width: int) -> Seq<u8> {
    let d = dec_bytes(n as nat);
    if d.len() >= width {
        d
    } else {
        Seq::new((width - d.len()) as nat, |i: int| 48u8) + d
    }
}

/// Renders `n` in decimal, left-padded with zeros to at least `width`
/// characters.
pub fn format_u64_zero_padded(n: u64, width: u64) -> (r: String)
    ensures
        r@ == spec_zero_padded(n, width as int).map_values(|b: u8| b as char),
        r@.len() >= width,
{
    let digits = dec_bytes_of(n);
    let mut out: Vec<u8> = Vec::new();
    let mut pad: u64 = 0;
    let npad: u64 = if digits.len() as u64 >= width {
        0
    } else {
        width - digits.len() as u64
    };
    while pad < npad
        invariant
            pad <= npad,
            out@ == Seq::new(pad as nat, |i: int| 48u8),
        decreases npad - pad,
    {
        out.push(48);
        proof {
            assert(out@ =~= Seq::new((pad + 1) as nat, |i: int| 48u8));
        }
        pad = pad + 1;
    }
    let ghost zeros = out@;
    let mut i: usize = 0;
    while i < digits.len()
        invariant
            i <= digits@.len(),
            out@ == zeros + digits@.take(i as int),
        decreases digits@.len() - i,
    {
        out.push(digits[i]);
        proof {
            assert(out@ =~= zeros + digits@.take(i + 1));
        }
        i = i + 1;
    }
    proof {
        assert(digits@.take(digits@.len() as int) =~= digits@);
        assert(out@ =~= spec_zero_padded(n, width as int));
        lemma_dec_bytes_ascii(n as nat);
    }
    string_from_ascii(out)
}

/// Bytes that render as the same character are equal.
pub proof fn lemma_byte_char_injective(b1: u8, b2: u8)
    requires
        ((b1 as u32) as char) == ((b2 as u32) as char),
    ensures
        b1 == b2,
{
}

/// A nonzero number's decimal rendering starts with a nonzero digit.
pub proof fn lemma_dec_bytes_leading(n: nat)
    ensures
        n >= 1 ==> dec_bytes(n)[0] >= 49,
        n < 10 ==> dec_bytes(n).len() == 1,
        n >= 10 ==> dec_bytes(n).len() >= 2,
    decreases n,
{
    if n >= 10 {
        lemma_dec_bytes_leading(n / 10);
    }
}

/// Distinct numbers have distinct decimal renderings.
pub proof fn lemma_dec_bytes_injective(a: nat, b: nat)
    requires
        dec_bytes(a) == dec_bytes(b),
    ensures
        a == b,
    decreases a,
{
    lemma_dec_bytes_leading(a);
    lemma_dec_bytes_leading(b);
    if a < 10 && b < 10 {
        assert(dec_bytes(a)[0] == a + 48);
        assert(dec_bytes(b)[0] == b + 48);
    } else if a >= 10 && b >= 10 {
        assert(dec_bytes(a).last() == a % 10 + 48);
        assert(dec_bytes(b).last() == b % 10 + 48);
        assert(dec_bytes(a).drop_last() =~= dec_bytes(a / 10));
        assert(dec_bytes(b).drop_last() =~= dec_bytes(b / 10));
        lemma_dec_bytes_injective(a / 10, b / 10);
    } else {
        assert(dec_bytes(a).len() == dec_bytes(b).len());
        assert(false);
    }
}

/// Distinct numbers have distinct zero-padded renderings of the same
/// width.
pub proof fn lemma_zero_padded_injective(a: u64, b: u64, w: int)
    requires
        spec_zero_padded(a, w) == spec_zero_padded(b, w),
    ensures
        a == b,
{
    let da = dec_bytes(a as nat);
    let db = dec_bytes(b as nat);
    lemma_dec_bytes_leading(a as nat);
    lemma_dec_bytes_leading(b as nat);
    if da.len() >= w && db.len() >= w {
        lemma_dec_bytes_injective(a as nat, b as nat);
    } else if da.len() < w && db.len() < w {
        if da.len() == db.len() {
            assert forall|i: int| 0 <= i < da.len() implies da[i] == db[i] by {
                assert(spec_zero_padded(a, w)[w - da.len() + i] == da[i]);
                assert(spec_zero_padded(b, w)[w - db.len() + i] == db[i]);
            }
            assert(da =~= db);
            lemma_dec_bytes_injective(a as nat, b as nat);
        } else if da.len() < db.len() {
            assert(b >= 1) by {
                if b == 0 {
                    assert(db.len() == 1);
                }
            }
            assert(spec_zero_padded(a, w)[w - db.len()] == 48);
            assert(spec_zero_padded(b, w)[w - db.len()] == db[0]);
            assert(false);
        } else {
            assert(a >= 1) by {
                if a == 0 {
                    assert(da.len() == 1);
                }
            }
            assert(spec_zero_padded(b, w)[w - da.len()] == 48);
            assert(spec_zero_padded(a, w)[w - da.len()] == da[0]);
            assert(false);
        }
    } else if da.len() >= w {
        assert(spec_zero_padded(a, w).len() == da.len());
        assert(spec_zero_padded(b, w).len() == w);
        assert(da.len() == w);
        assert(w - db.len() >= 1);
        assert(spec_zero_padded(b, w)[0] == 48);
        assert(spec_zero_padded(a, w)[0] == da[0]);
        assert(a >= 1) by {
            if a == 0 {
                assert(da.len() == 1);
                assert(db.len() < 1);
            }
        }
        assert(false);
    } else {
        assert(spec_zero_padded(b, w).len() == db.len());
        assert(spec_zero_padded(a, w).len() == w);
        assert(db.len() == w);
        assert(w - da.len() >= 1);
        assert(spec_zero_padded(a, w)[0] == 48);
        assert(spec_zero_padded(b, w)[0] == db[0]);
        assert(b >= 1) by {
            if b == 0 {
                assert(db.len() == 1);
                assert(da.len() < 1);
            }
        }
        assert(false);
    }
}

} // verus!

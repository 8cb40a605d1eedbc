//! Exact parsing of the numbers that appear in trace lines and in
//! latency threshold strings.

use vstd::prelude::*;
use vstd::string::StringSliceAdditionalSpecFns;

verus! {

/// An ASCII decimal digit.
pub open spec fn is_digit(b: u8) -> bool {
    48 <= b <= 57
}

/// Every byte of `s` is an ASCII decimal digit.
pub open spec fn all_digits(s: Seq<u8>) -> bool {
    forall|i: int| 0 <= i < s.len() ==> is_digit(#[trigger] s[i])
}

/// The value of a string of decimal digits (most significant first).
pub open spec fn dec_value(s: Seq<u8>) -> int
    decreases s.len(),
{
    if s.len() == 0 {
        0
    } else {
        dec_value(s.drop_last()) * 10 + (s.last() - 48)
    }
}

/// The value of an ASCII hexadecimal digit (either case), or -1.
pub open spec fn hex_digit_value(b: u8) -> int {
    if 48 <= b <= 57 {
        b - 48
    } else if 97 <= b <= 102 {
        b - 87
    } else if 65 <= b <= 70 {
        b - 55
    } else {
        -1
    }
}

/// Every byte of `s` is a hexadecimal digit.
pub open spec fn all_hex_digits(s: Seq<u8>) -> bool {
    forall|i: int| 0 <= i < s.len() ==> hex_digit_value(#[trigger] s[i]) >= 0
}

/// The value of a string of hexadecimal digits.
pub open spec fn hex_value(s: Seq<u8>) -> int
    decreases s.len(),
{
    if s.len() == 0 {
        0
    } else {
        hex_value(s.drop_last()) * 16 + hex_digit_value(s.last())
    }
}

/// `s` without one leading `+`.
pub open spec fn strip_plus(s: Seq<u8>) -> Seq<u8> {
    if s.len() > 0 && s[0] == 43 {
        s.drop_first()
    } else {
        s
    }
}

/// What std's `FromStr` for an unsigned integer type with largest value
/// `max` gives: an optional `+` followed by one or more decimal digits
/// whose value does not exceed `max`.
pub open spec fn parse_unsigned_spec(s: Seq<u8>, max: int) -> Option<int> {
    let d = strip_plus(s);
    if d.len() > 0 && all_digits(d) && dec_value(d) <= max {
        Some(dec_value(d))
    } else {
        None
    }
}

/// What std's `FromStr` for `i32` gives: an optional sign followed by one
/// or more decimal digits, within the range of `i32`.
pub open spec fn parse_i32_spec(s: Seq<u8>) -> Option<int> {
    if s.len() > 0 && s[0] == 45 {
        let d = s.drop_first();
        if d.len() > 0 && all_digits(d) && dec_value(d) <= 0x8000_0000 {
            Some(-dec_value(d))
        } else {
            None
        }
    } else {
        parse_unsigned_spec(s, 0x7fff_ffff)
    }
}

/// What `u32::from_str_radix(s, 16)` gives: an optional `+` followed by one
/// or more hexadecimal digits whose value fits in `u32`.
pub open spec fn parse_hex_u32_spec(s: Seq<u8>) -> Option<int> {
    let d = strip_plus(s);
    if d.len() > 0 && all_hex_digits(d) && hex_value(d) <= u32::MAX {
        Some(hex_value(d))
    } else {
        None
    }
}

pub proof fn lemma_dec_value_take(s: Seq<u8>, i: int)
    requires
        0 <= i < s.len(),
    ensures
        dec_value(s.take(i + 1)) == dec_value(s.take(i)) * 10 + (s[i] - 48),
{
    assert(s.take(i + 1).drop_last() =~= s.take(i));
}

pub proof fn lemma_dec_value_nonneg(s: Seq<u8>)
    requires
        all_digits(s),
    ensures
        dec_value(s) >= 0,
    decreases s.len(),
{
    if s.len() > 0 {
        lemma_dec_value_nonneg(s.drop_last());
        assert(is_digit(s[s.len() - 1]));
    }
}

pub proof fn lemma_hex_value_take(s: Seq<u8>, i: int)
    requires
        0 <= i < s.len(),
    ensures
        hex_value(s.take(i + 1)) == hex_value(s.take(i)) * 16 + hex_digit_value(s[i]),
{
    assert(s.take(i + 1).drop_last() =~= s.take(i));
}

/// Folds the decimal digits of `d` into a number, stopping at `max`: the
/// result is `(min(value, max), value > max)`.
pub fn fold_decimal(d: &[u8], max: u128) -> (r: (u128, bool))
    requires
        all_digits(d@),
        max <= 0x1_0000_0000_0000_0000_0000_0000_0000,
    ensures
        r.1 == (dec_value(d@) > max),
        !r.1 ==> r.0 == dec_value(d@),
        r.1 ==> r.0 == max,
{
    let mut v: u128 = 0;
    let mut over: bool = false;
    let mut i: usize = 0;
    assert(d@.take(0) =~= Seq::<u8>::empty());
    while i < d.len()
        invariant
            0 <= i <= d.len(),
            all_digits(d@),
            max <= 0x1_0000_0000_0000_0000_0000_0000_0000,
            dec_value(d@.take(i as int)) >= 0,
            over == (dec_value(d@.take(i as int)) > max),
            !over ==> v == dec_value(d@.take(i as int)),
            over ==> v == max,
        decreases d.len() - i,
    {
        proof {
            lemma_dec_value_take(d@, i as int);
            assert(is_digit(d@[i as int]));
        }
        if !over {
            let next: u128 = v * 10 + (d[i] - 48) as u128;
            if next > max {
                over = true;
                v = max;
            } else {
                v = next;
            }
        }
        i = i + 1;
    }
    assert(d@.take(d.len() as int) =~= d@);
    (v, over)
}

/// Parses an unsigned decimal number as std's `FromStr` does for an
/// unsigned type whose largest value is `max`.
pub fn parse_unsigned(s: &[u8], max: u64) -> (r: Option<u64>)
    ensures
        match r {
            Some(v) => parse_unsigned_spec(s@, max as int) == Some(v as int),
            None => parse_unsigned_spec(s@, max as int) is None,
        },
{
    let start: usize = if s.len() > 0 && s[0] == 43u8 { 1 } else { 0 };
    let d = vstd::slice::slice_subrange(s, start, s.len());
    assert(d@ =~= strip_plus(s@));
    if d.len() == 0 {
        return None;
    }
    let mut i: usize = 0;
    while i < d.len()
        invariant
            0 <= i <= d.len(),
            d@ == strip_plus(s@),
            forall|k: int| 0 <= k < i ==> is_digit(#[trigger] d@[k]),
        decreases d.len() - i,
    {
        if d[i] < 48u8 || d[i] > 57u8 {
            assert(!is_digit(d@[i as int]));
            return None;
        }
        i = i + 1;
    }
    let (v, over) = fold_decimal(d, max as u128);
    if over {
        None
    } else {
        Some(v as u64)
    }
}

/// Parses a `u32` as `str::parse::<u32>` does.
pub fn parse_u32(s: &str) -> (r: Option<u32>)
    ensures
        match r {
            Some(v) => parse_unsigned_spec(s.spec_bytes(), u32::MAX as int) == Some(v as int),
            None => parse_unsigned_spec(s.spec_bytes(), u32::MAX as int) is None,
        },
{
    match parse_unsigned(s.as_bytes(), u32::MAX as u64) {
        Some(v) => Some(v as u32),
        None => None,
    }
}

/// Parses a `u64` as `str::parse::<u64>` does.
pub fn parse_u64(s: &str) -> (r: Option<u64>)
    ensures
        match r {
            Some(v) => parse_unsigned_spec(s.spec_bytes(), u64::MAX as int) == Some(v as int),
            None => parse_unsigned_spec(s.spec_bytes(), u64::MAX as int) is None,
        },
{
    parse_unsigned(s.as_bytes(), u64::MAX)
}

/// Parses an `i32` as `str::parse::<i32>` does.
pub fn parse_i32(s: &str) -> (r: Option<i32>)
    ensures
        match r {
            Some(v) => parse_i32_spec(s.spec_bytes()) == Some(v as int),
            None => parse_i32_spec(s.spec_bytes()) is None,
        },
{
    let b = s.as_bytes();
    if b.len() > 0 && b[0] == 45u8 {
        let d = vstd::slice::slice_subrange(b, 1, b.len());
        assert(d@ =~= b@.drop_first());
        assert(d.len() == 0 || d@[0] != 43u8 || !is_digit(d@[0]));
        assert(strip_plus(d@) =~= d@ || (d@.len() > 0 && d@[0] == 43u8));
        if d.len() > 0 && d[0] == 43u8 {
            return None;
        }
        assert(strip_plus(d@) =~= d@);
        match parse_unsigned(d, 0x8000_0000u64) {
            Some(v) => {
                let r: i64 = 0i64 - v as i64;
                Some(r as i32)
            },
            None => None,
        }
    } else {
        match parse_unsigned(b, 0x7fff_ffffu64) {
            Some(v) => Some(v as i32),
            None => None,
        }
    }
}

/// Parses a `u32` as `u32::from_str_radix(s, 16)` does.
pub fn parse_hex_u32(s: &str) -> (r: Option<u32>)
    ensures
        match r {
            Some(v) => parse_hex_u32_spec(s.spec_bytes()) == Some(v as int),
            None => parse_hex_u32_spec(s.spec_bytes()) is None,
        },
{
    parse_hex_u32_bytes(s.as_bytes())
}

/// Parses the bytes of a `u32` written in hexadecimal, as
/// `u32::from_str_radix(_, 16)` does.
pub fn parse_hex_u32_bytes(b: &[u8]) -> (r: Option<u32>)
    ensures
        match r {
            Some(v) => parse_hex_u32_spec(b@) == Some(v as int),
            None => parse_hex_u32_spec(b@) is None,
        },
{
    let start: usize = if b.len() > 0 && b[0] == 43u8 { 1 } else { 0 };
    let d = vstd::slice::slice_subrange(b, start, b.len());
    assert(d@ =~= strip_plus(b@));
    if d.len() == 0 {
        return None;
    }
    let mut v: u64 = 0;
    let mut i: usize = 0;
    assert(d@.take(0) =~= Seq::<u8>::empty());
    while i < d.len()
        invariant
            0 <= i <= d.len(),
            d@ == strip_plus(b@),
            forall|k: int| 0 <= k < i ==> hex_digit_value(#[trigger] d@[k]) >= 0,
            v == hex_value(d@.take(i as int)),
            v <= u32::MAX,
        decreases d.len() - i,
    {
        let c = d[i];
        let dv: u64 = if 48u8 <= c && c <= 57u8 {
            (c - 48u8) as u64
        } else if 97u8 <= c && c <= 102u8 {
            (c - 87u8) as u64
        } else if 65u8 <= c && c <= 70u8 {
            (c - 55u8) as u64
        } else {
            assert(hex_digit_value(d@[i as int]) < 0);
            return None;
        };
        assert(hex_digit_value(d@[i as int]) == dv);
        proof {
            lemma_hex_value_take(d@, i as int);
        }
        v = v * 16 + dv;
        if v > 0xffff_ffffu64 {
            assert(forall|k: int| 0 <= k < i + 1 ==> hex_digit_value(#[trigger] d@[k]) >= 0);
            proof {
                lemma_hex_prefix_bound(d@, (i + 1) as int);
            }
            return None;
        }
        i = i + 1;
    }
    assert(d@.take(d.len() as int) =~= d@);
    Some(v as u32)
}

/// A longer run of hexadecimal digits never has a smaller value.
pub proof fn lemma_hex_prefix_bound(s: Seq<u8>, i: int)
    requires
        0 <= i <= s.len(),
        forall|k: int| 0 <= k < i ==> hex_digit_value(#[trigger] s[k]) >= 0,
    ensures
        all_hex_digits(s) ==> hex_value(s) >= hex_value(s.take(i)),
    decreases s.len(),
{
    if all_hex_digits(s) && s.len() > i {
        lemma_hex_prefix_bound(s.drop_last(), i);
        assert(s.drop_last().take(i) =~= s.take(i));
        lemma_hex_value_nonneg(s.drop_last());
        assert(hex_digit_value(s[s.len() - 1]) >= 0);
    } else if s.len() == i {
        assert(s.take(i) =~= s);
    }
}

pub proof fn lemma_hex_value_nonneg(s: Seq<u8>)
    requires
        all_hex_digits(s),
    ensures
        hex_value(s) >= 0,
    decreases s.len(),
{
    if s.len() > 0 {
        lemma_hex_value_nonneg(s.drop_last());
        assert(hex_digit_value(s[s.len() - 1]) >= 0);
    }
}

/// The integer part of a decimal written with its point at `k` (or with no
/// point when `k` is its length).
pub open spec fn int_part(d: Seq<u8>, k: int) -> Seq<u8> {
    d.take(k)
}

/// The fractional part of a decimal written with its point at `k`.
pub open spec fn frac_part(d: Seq<u8>, k: int) -> Seq<u8> {
    if k < d.len() {
        d.skip(k + 1)
    } else {
        Seq::<u8>::empty()
    }
}

/// `d` is digits with at most one decimal point, at `k`, and holds at least
/// one digit.
pub open spec fn decimal_at(d: Seq<u8>, k: int) -> bool {
    &&& 0 <= k <= d.len()
    &&& k < d.len() ==> d[k] == 46
    &&& all_digits(int_part(d, k))
    &&& all_digits(frac_part(d, k))
    &&& int_part(d, k).len() + frac_part(d, k).len() > 0
}

/// `d` is a plain decimal number: digits with at most one point.
pub open spec fn is_decimal(d: Seq<u8>) -> bool {
    exists|k: int| decimal_at(d, k)
}

/// The position of the point of a plain decimal (its length when none).
pub open spec fn point_of(d: Seq<u8>) -> int {
    choose|k: int| decimal_at(d, k)
}

/// The digits of `d * 10^scale` rounded down: the integer part followed by
/// the first `scale` fractional digits, padded with zeros.
pub open spec fn scaled_digits(d: Seq<u8>, k: int, scale: nat) -> Seq<u8> {
    let f = frac_part(d, k);
    let t: int = if f.len() < scale { f.len() as int } else { scale as int };
    int_part(d, k) + f.take(t) + Seq::new((scale - t) as nat, |i: int| 48u8)
}

/// The value of the plain decimal `d` times `10^scale`, rounded down.
pub open spec fn scaled_value(d: Seq<u8>, scale: nat) -> int {
    dec_value(scaled_digits(d, point_of(d), scale))
}

pub proof fn lemma_decimal_point_unique(d: Seq<u8>, k1: int, k2: int)
    requires
        decimal_at(d, k1),
        decimal_at(d, k2),
    ensures
        k1 == k2,
{
    if k1 < k2 {
        assert(is_digit(int_part(d, k2)[k1]));
    } else if k2 < k1 {
        assert(is_digit(int_part(d, k1)[k2]));
    }
}

/// Parses a plain decimal number (digits with at most one point and at
/// least one digit) as `value * 10^scale` rounded down, stopping at `max`:
/// `None` when `d` is not a plain decimal, else `(min(v, max), v > max)`.
pub fn parse_scaled_decimal(d: &[u8], scale: usize, max: u128) -> (r: Option<(u128, bool)>)
    requires
        max <= 0x1_0000_0000_0000_0000_0000_0000_0000,
        scale <= 64,
    ensures
        r is Some <==> is_decimal(d@),
        r matches Some(p) ==> {
            &&& p.1 == (scaled_value(d@, scale as nat) > max)
            &&& !p.1 ==> p.0 == scaled_value(d@, scale as nat)
            &&& p.1 ==> p.0 == max
        },
{
    // position of the first point
    let mut k: usize = 0;
    while k < d.len() && d[k] != 46u8
        invariant
            0 <= k <= d.len(),
            forall|j: int| 0 <= j < k ==> d@[j] != 46u8,
        decreases d.len() - k,
    {
        k = k + 1;
    }
    let mut digits: Vec<u8> = Vec::new();
    let mut i: usize = 0;
    while i < k
        invariant
            0 <= i <= k <= d.len(),
            forall|j: int| 0 <= j < k ==> d@[j] != 46u8,
            digits@ == d@.take(i as int),
            all_digits(digits@),
        decreases k - i,
    {
        if d[i] < 48u8 || d[i] > 57u8 {
            proof {
                assert(!is_digit(d@[i as int]));
                assert forall|kk: int| decimal_at(d@, kk) implies false by {
                    if kk <= i {
                        assert(d@[kk] != 46u8);
                    } else {
                        assert(int_part(d@, kk)[i as int] == d@[i as int]);
                    }
                }
            }
            return None;
        }
        digits.push(d[i]);
        i = i + 1;
        assert(digits@ =~= d@.take(i as int));
    }
    let int_len: usize = digits.len();
    let frac_start: usize = if k < d.len() { k + 1 } else { k };
    let mut j: usize = frac_start;
    let mut taken: usize = 0;
    while j < d.len()
        invariant
            0 <= k <= d.len(),
            k < d.len() ==> d@[k as int] == 46u8,
            forall|q: int| 0 <= q < k ==> d@[q] != 46u8,
            frac_start == (if k < d.len() { k + 1 } else { k as int }),
            frac_start <= j <= d.len(),
            int_len == k,
            all_digits(d@.take(k as int)),
            forall|q: int| frac_start <= q < j ==> is_digit(#[trigger] d@[q]),
            taken <= scale,
            taken == (if j - frac_start < scale { j - frac_start } else { scale as int }),
            digits@ == d@.take(k as int) + d@.subrange(frac_start as int, frac_start + taken),
            all_digits(digits@),
        decreases d.len() - j,
    {
        if d[j] < 48u8 || d[j] > 57u8 {
            proof {
                assert(!is_digit(d@[j as int]));
                assert forall|kk: int| decimal_at(d@, kk) implies false by {
                    if kk < k {
                        assert(d@[kk] != 46u8);
                    } else if kk == k {
                        assert(frac_part(d@, kk)[j - k - 1] == d@[j as int]);
                    } else {
                        assert(int_part(d@, kk)[k as int] == d@[k as int]);
                    }
                }
            }
            return None;
        }
        if taken < scale {
            digits.push(d[j]);
            taken = taken + 1;
        }
        j = j + 1;
        assert(digits@ =~= d@.take(k as int) + d@.subrange(frac_start as int, frac_start + taken));
    }
    if int_len == 0 && frac_start >= d.len() {
        proof {
            assert forall|kk: int| decimal_at(d@, kk) implies false by {
                if kk < k {
                    assert(d@[kk] != 46u8);
                } else if kk > k {
                    assert(int_part(d@, kk)[k as int] == d@[k as int]);
                }
            }
        }
        return None;
    }
    let ghost kk: int = k as int;
    assert(decimal_at(d@, kk)) by {
        assert(int_part(d@, kk) =~= d@.take(kk));
        if k < d.len() {
            assert forall|q: int| 0 <= q < frac_part(d@, kk).len() implies is_digit(#[trigger] frac_part(d@, kk)[q]) by {
                assert(frac_part(d@, kk)[q] == d@[frac_start + q]);
            }
        }
    }
    proof {
        assert forall|k2: int| decimal_at(d@, k2) implies k2 == kk by {
            lemma_decimal_point_unique(d@, k2, kk);
        }
        assert(point_of(d@) == kk);
    }
    let mut pad: usize = taken;
    while pad < scale
        invariant
            taken <= pad <= scale,
            all_digits(digits@),
            digits@ == d@.take(k as int) + d@.subrange(frac_start as int, frac_start + taken)
                + Seq::new((pad - taken) as nat, |q: int| 48u8),
        decreases scale - pad,
    {
        digits.push(48u8);
        pad = pad + 1;
        assert(digits@ =~= d@.take(k as int) + d@.subrange(frac_start as int, frac_start + taken)
                + Seq::new((pad - taken) as nat, |q: int| 48u8));
    }
    proof {
        let f = frac_part(d@, kk);
        if k < d.len() {
            assert(f.take(taken as int) =~= d@.subrange(frac_start as int, frac_start + taken));
        } else {
            assert(f.take(taken as int) =~= d@.subrange(frac_start as int, frac_start + taken));
        }
        assert(digits@ =~= scaled_digits(d@, kk, scale as nat));
    }
    let (v, over) = fold_decimal(digits.as_slice(), max);
    Some((v, over))
}

/// Timestamps, in nanoseconds, above this bound are not accepted.
pub const MAX_TIME_NS: u64 = 0x4000_0000_0000_0000;

/// A timestamp in seconds, written as an optional `+` and a plain decimal,
/// in whole nanoseconds (digits below a nanosecond are dropped); `None`
/// when it is not such a decimal or exceeds `MAX_TIME_NS`.
pub open spec fn seconds_ns_spec(s: Seq<u8>) -> Option<int> {
    let d = strip_plus(s);
    if is_decimal(d) && scaled_value(d, 9) <= MAX_TIME_NS {
        Some(scaled_value(d, 9))
    } else {
        None
    }
}

/// Parses a timestamp in seconds (such as `123.456789`) into nanoseconds.
pub fn parse_seconds_ns(s: &str) -> (r: Option<u64>)
    ensures
        match r {
            Some(v) => seconds_ns_spec(s.spec_bytes()) == Some(v as int),
            None => seconds_ns_spec(s.spec_bytes()) is None,
        },
{
    let b = s.as_bytes();
    let start: usize = if b.len() > 0 && b[0] == 43u8 { 1 } else { 0 };
    let d = vstd::slice::slice_subrange(b, start, b.len());
    assert(d@ =~= strip_plus(b@));
    match parse_scaled_decimal(d, 9, MAX_TIME_NS as u128) {
        Some((v, over)) => {
            if over {
                None
            } else {
                Some(v as u64)
            }
        },
        None => None,
    }
}

/// The first failure met when the digits of `d` are read from left to
/// right with values bounded by `max`: `Some(false)` for a byte that is not
/// a digit, `Some(true)` for a prefix whose value exceeds `max`.
pub open spec fn digit_scan_failure(d: Seq<u8>, max: int) -> Option<bool>
    decreases d.len(),
{
    if d.len() == 0 {
        None
    } else {
        let e = digit_scan_failure(d.drop_last(), max);
        if e is Some {
            e
        } else if !is_digit(d.last()) {
            Some(false)
        } else if dec_value(d) > max {
            Some(true)
        } else {
            None
        }
    }
}

/// Digits whose value is within `max` scan without failure.
pub proof fn lemma_digits_scan_clean(d: Seq<u8>, max: int)
    requires
        all_digits(d),
        dec_value(d) <= max,
    ensures
        digit_scan_failure(d, max) is None,
    decreases d.len(),
{
    if d.len() > 0 {
        let e = d.drop_last();
        assert(all_digits(e)) by {
            assert forall|i: int| 0 <= i < e.len() implies is_digit(#[trigger] e[i]) by {
                assert(e[i] == d[i]);
            }
        }
        lemma_dec_value_nonneg(e);
        assert(is_digit(d[d.len() - 1]));
        assert(dec_value(e) <= dec_value(d));
        lemma_digits_scan_clean(e, max);
    }
}

/// Where the strict `i32` reading succeeds, `str::parse::<i32>` gives the
/// same value.
pub proof fn lemma_i32_readings_agree(s: Seq<u8>)
    requires
        parse_i32_spec(s) is Some,
    ensures
        i32_parse_result(s) == Ok::<int, Seq<char>>(parse_i32_spec(s)->0),
{
    if s.len() > 0 && s[0] == 45 {
        lemma_digits_scan_clean(s.drop_first(), 0x8000_0000);
    } else {
        let d = strip_plus(s);
        assert(is_digit(d[0]));
        lemma_digits_scan_clean(d, 0x7fff_ffff);
    }
}

/// What `str::parse::<i32>` gives: the value, or the display text of the
/// error.
pub open spec fn i32_parse_result(s: Seq<u8>) -> Result<int, Seq<char>> {
    if s.len() == 0 {
        Err("cannot parse integer from empty string"@)
    } else if s.len() == 1 && (s[0] == 43 || s[0] == 45) {
        Err("invalid digit found in string"@)
    } else {
        let neg = s[0] == 45;
        let d = if s[0] == 43 || s[0] == 45 { s.drop_first() } else { s };
        let max: int = if neg { 0x8000_0000 } else { 0x7fff_ffff };
        match digit_scan_failure(d, max) {
            Some(false) => Err("invalid digit found in string"@),
            Some(true) => Err(
                if neg {
                    "number too small to fit in target type"@
                } else {
                    "number too large to fit in target type"@
                },
            ),
            None => Ok(if neg { -dec_value(d) } else { dec_value(d) }),
        }
    }
}

/// Parses an `i32` as `str::parse::<i32>` does, with the text of its error.
pub fn parse_i32_or_error(s: &str) -> (r: Result<i32, String>)
    ensures
        match r {
            Ok(v) => i32_parse_result(s.spec_bytes()) == Ok::<int, Seq<char>>(v as int),
            Err(m) => i32_parse_result(s.spec_bytes()) == Err::<int, Seq<char>>(m@),
        },
{
    let b = s.as_bytes();
    if b.len() == 0 {
        return Err("cannot parse integer from empty string".to_owned());
    }
    if b.len() == 1 && (b[0] == 43u8 || b[0] == 45u8) {
        return Err("invalid digit found in string".to_owned());
    }
    let neg: bool = b[0] == 45u8;
    let start: usize = if b[0] == 43u8 || b[0] == 45u8 { 1 } else { 0 };
    let d = vstd::slice::slice_subrange(b, start, b.len());
    let max: u64 = if neg { 0x8000_0000 } else { 0x7fff_ffff };
    let ghost dd: Seq<u8> = if b@[0] == 43 || b@[0] == 45 { b@.drop_first() } else { b@ };
    assert(d@ =~= dd);
    let mut v: u64 = 0;
    let mut i: usize = 0;
    assert(d@.take(0) =~= Seq::<u8>::empty());
    while i < d.len()
        invariant
            0 <= i <= d.len(),
            b@ == s.spec_bytes(),
            b@.len() > 1 || (b@[0] != 43 && b@[0] != 45),
            neg == (b@[0] == 45),
            max == (if neg { 0x8000_0000u64 } else { 0x7fff_ffffu64 }),
            d@ == (if b@[0] == 43 || b@[0] == 45 { b@.drop_first() } else { b@ }),
            digit_scan_failure(d@.take(i as int), max as int) is None,
            v == dec_value(d@.take(i as int)),
            v <= max,
        decreases d.len() - i,
    {
        proof {
            assert(d@.take(i + 1).drop_last() =~= d@.take(i as int));
        }
        let c = d[i];
        if c < 48u8 || c > 57u8 {
            proof {
                lemma_failure_prefix(d@, max as int, i + 1);
            }
            return Err("invalid digit found in string".to_owned());
        }
        proof {
            lemma_dec_value_take(d@, i as int);
        }
        v = v * 10 + (c - 48u8) as u64;
        if v > max {
            proof {
                lemma_failure_prefix(d@, max as int, i + 1);
            }
            if neg {
                return Err("number too small to fit in target type".to_owned());
            } else {
                return Err("number too large to fit in target type".to_owned());
            }
        }
        i = i + 1;
    }
    assert(d@.take(d.len() as int) =~= d@);
    if neg {
        let r: i64 = 0i64 - v as i64;
        Ok(r as i32)
    } else {
        Ok(v as i32)
    }
}

/// A failure met in a prefix is the failure of the whole.
pub proof fn lemma_failure_prefix(d: Seq<u8>, max: int, k: int)
    requires
        0 <= k <= d.len(),
        digit_scan_failure(d.take(k), max) is Some,
    ensures
        digit_scan_failure(d, max) == digit_scan_failure(d.take(k), max),
    decreases d.len(),
{
    if d.len() > k {
        assert(d.drop_last().take(k) =~= d.take(k));
        lemma_failure_prefix(d.drop_last(), max, k);
    } else {
        assert(d.take(k) =~= d);
    }
}

} // verus!

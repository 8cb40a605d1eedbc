//! Latency thresholds written with a unit, such as `"0.5ms"` or `"100us"`.

use vstd::prelude::*;
use crate::numeric::{is_decimal, scaled_value, parse_scaled_decimal};
use crate::text::{str_eq, string_push, concat2};

verus! {

broadcast use vstd::seq_lib::group_seq_properties;

/// Thresholds are held in nanoseconds, capped at this value, which lies
/// above every latency or scaled value that is compared with them.
pub const THRESHOLD_CAP: u128 = 0x10_0000_0000_0000_0000_0000_0000;

/// Characters that make up the number of a threshold.
pub open spec fn is_number_char(c: char) -> bool {
    ('0' <= c && c <= '9') || c == '.'
}

pub open spec fn is_unit_char(c: char) -> bool {
    !is_number_char(c)
}

/// The number of a threshold: its digits and points, in order, as bytes.
pub open spec fn number_bytes(s: Seq<char>) -> Seq<u8> {
    s.filter(|c: char| is_number_char(c)).map_values(|c: char| c as u8)
}

/// The unit of a threshold: every other character, in order.
pub open spec fn unit_chars(s: Seq<char>) -> Seq<char> {
    s.filter(|c: char| is_unit_char(c))
}

/// The power of ten that turns a value in `unit` into nanoseconds.
pub open spec fn unit_scale(unit: Seq<char>) -> Option<nat> {
    if unit == seq!['m', 's'] {
        Some(6)
    } else if unit == seq!['s'] {
        Some(9)
    } else if unit == seq!['u', 's'] {
        Some(3)
    } else if unit == seq!['n', 's'] {
        Some(0)
    } else {
        None
    }
}

/// The message of a number that does not parse.
pub open spec fn number_error(num: Seq<u8>) -> Seq<char> {
    if num.len() == 0 {
        "cannot parse float from empty string"@
    } else {
        "invalid float literal"@
    }
}

/// The threshold written in `s`, in nanoseconds rounded down and capped at
/// `THRESHOLD_CAP`, or the message of the first error: a number that is
/// not a plain decimal, then a unit other than `ms`, `s`, `us` or `ns`.
pub open spec fn threshold_ns_spec(s: Seq<char>) -> Result<int, Seq<char>> {
    let num = number_bytes(s);
    let unit = unit_chars(s);
    if !is_decimal(num) {
        Err(number_error(num))
    } else {
        match unit_scale(unit) {
            Some(sc) => Ok(
                if scaled_value(num, sc) > THRESHOLD_CAP {
                    THRESHOLD_CAP as int
                } else {
                    scaled_value(num, sc)
                },
            ),
            None => Err("Unsupported time unit: "@ + unit),
        }
    }
}

/// Parses a threshold such as `"0.5ms"` into nanoseconds.
pub fn parse_time_to_ns(time_str: &str) -> (r: Result<u128, String>)
    ensures
        match r {
            Ok(v) => threshold_ns_spec(time_str@) == Ok::<int, Seq<char>>(v as int),
            Err(m) => threshold_ns_spec(time_str@) == Err::<int, Seq<char>>(m@),
        },
{
    let mut num: Vec<u8> = Vec::new();
    let mut unit = String::new();
    let ghost s = time_str@;
    for c in it: time_str.chars()
        invariant
            it.seq() == s,
            num@ == number_bytes(s.take(it.index())),
            unit@ == unit_chars(s.take(it.index())),
    {
        proof {
            let p = s.take(it.index());
            assert(s.take(it.index() + 1) =~= p.push(c));
            p.lemma_filter_push(c, |c: char| is_number_char(c));
            p.lemma_filter_push(c, |c: char| is_unit_char(c));
        }
        if ('0' <= c && c <= '9') || c == '.' {
            num.push(c as u8);
            assert(num@ =~= number_bytes(s.take(it.index() + 1)));
        } else {
            string_push(&mut unit, c);
        }
    }
    assert(s.take(s.len() as int) =~= s);
    let parsed = parse_scaled_decimal(num.as_slice(), 0, 0);
    if parsed.is_none() {
        proof {
            reveal_strlit("cannot parse float from empty string");
            reveal_strlit("invalid float literal");
        }
        if num.len() == 0 {
            return Err("cannot parse float from empty string".to_owned());
        } else {
            return Err("invalid float literal".to_owned());
        }
    }
    proof {
        reveal_strlit("ms");
        reveal_strlit("s");
        reveal_strlit("us");
        reveal_strlit("ns");
        reveal_strlit("Unsupported time unit: ");
        assert("ms"@ =~= seq!['m', 's']);
        assert("s"@ =~= seq!['s']);
        assert("us"@ =~= seq!['u', 's']);
        assert("ns"@ =~= seq!['n', 's']);
        assert(is_decimal(num@));
    }
    let scale: usize = if str_eq(unit.as_str(), "ms") {
        6
    } else if str_eq(unit.as_str(), "s") {
        9
    } else if str_eq(unit.as_str(), "us") {
        3
    } else if str_eq(unit.as_str(), "ns") {
        0
    } else {
        return Err(concat2("Unsupported time unit: ", unit.as_str()));
    };
    match parse_scaled_decimal(num.as_slice(), scale, THRESHOLD_CAP) {
        Some((v, _over)) => Ok(v),
        None => Err("invalid float literal".to_owned()),
    }
}

} // verus!

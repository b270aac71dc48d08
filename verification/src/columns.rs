//! The per-row work of reading a geobr parquet table: the conversion of the
//! WKB geometry column to WKT, and the row masks of a column filter.

use vstd::prelude::*;

use crate::metadata::{digit_value, is_digit};
use crate::text::{chars_eq, chars_of, push_str, string_of_chars};
use crate::wkb::{is_wkt_of, read_wkb, wkb_to_wkt};

verus! {

/// Whether a column is converted from WKB to WKT: it is called `geometry`
/// and holds binary values.
pub fn is_geometry_column(name: &str, is_binary: bool) -> (b: bool)
    ensures
        b == (is_binary && name@ == "geometry"@),
{
    if !is_binary {
        return false;
    }
    let n = chars_of(name);
    let g = chars_of("geometry");
    chars_eq(n.as_slice(), g.as_slice())
}

/// The WKT of each value of a geometry column: none for a null value or for
/// a value that is not a geometry the converter reads.
pub fn geometry_texts<F: Fn(u64) -> String>(values: &Vec<Option<Vec<u8>>>, format_coord: &F) -> (r:
    Vec<Option<String>>)
    requires
        forall|b: u64| call_requires(*format_coord, (b,)),
    ensures
        r@.len() == values@.len(),
        forall|i: int|
            0 <= i < values@.len() ==> match #[trigger] values@[i] {
                None => r@[i] is None,
                Some(wkb) => match r@[i] {
                    None => read_wkb(wkb@) is Err,
                    Some(s) => is_wkt_of(wkb@, s@, *format_coord),
                },
            },
{
    let mut out: Vec<Option<String>> = Vec::new();
    let mut i: usize = 0;
    while i < values.len()
        invariant
            forall|b: u64| call_requires(*format_coord, (b,)),
            i <= values.len(),
            out@.len() == i,
            forall|j: int|
                0 <= j < i ==> match #[trigger] values@[j] {
                    None => out@[j] is None,
                    Some(wkb) => match out@[j] {
                        None => read_wkb(wkb@) is Err,
                        Some(s) => is_wkt_of(wkb@, s@, *format_coord),
                    },
                },
        decreases values.len() - i,
    {
        let text = match &values[i] {
            None => None,
            Some(wkb) => match wkb_to_wkt(wkb.as_slice(), format_coord) {
                Ok(s) => Some(s),
                Err(_) => None,
            },
        };
        out.push(text);
        i = i + 1;
    }
    out
}

/// The position of the first column called `name`.
pub fn column_index(names: &Vec<String>, name: &str) -> (r: Option<usize>)
    ensures
        match r {
            Some(i) => i < names@.len() && names@[i as int]@ == name@ && forall|j: int|
                0 <= j < i ==> names@[j]@ != name@,
            None => forall|j: int| 0 <= j < names@.len() ==> names@[j]@ != name@,
        },
{
    let wanted = chars_of(name);
    let mut i: usize = 0;
    while i < names.len()
        invariant
            wanted@ == name@,
            i <= names.len(),
            forall|j: int| 0 <= j < i ==> names@[j]@ != name@,
        decreases names.len() - i,
    {
        let c = chars_of(names[i].as_str());
        if chars_eq(c.as_slice(), wanted.as_slice()) {
            return Some(i);
        }
        i = i + 1;
    }
    None
}

/// The message for a filter on a column that the table does not have.
pub fn missing_column_message(name: &str) -> (m: String)
    ensures
        m@ == "filter column '"@ + name@ + "' not found"@,
{
    let mut v: Vec<char> = Vec::new();
    push_str(&mut v, "filter column '");
    push_str(&mut v, name);
    push_str(&mut v, "' not found");
    string_of_chars(v.as_slice())
}

/// The rows of a text column to keep: those equal to `value` (nulls never).
pub fn text_filter_mask(values: &Vec<Option<String>>, value: &str) -> (mask: Vec<bool>)
    ensures
        mask@.len() == values@.len(),
        forall|i: int|
            0 <= i < values@.len() ==> mask@[i] == (#[trigger] values@[i] matches Some(s) && s@
                == value@),
{
    let wanted = chars_of(value);
    let mut mask: Vec<bool> = Vec::new();
    let mut i: usize = 0;
    while i < values.len()
        invariant
            wanted@ == value@,
            i <= values.len(),
            mask@.len() == i,
            forall|j: int|
                0 <= j < i ==> mask@[j] == (#[trigger] values@[j] matches Some(s) && s@ == value@),
        decreases values.len() - i,
    {
        let keep = match &values[i] {
            None => false,
            Some(s) => {
                let c = chars_of(s.as_str());
                chars_eq(c.as_slice(), wanted.as_slice())
            },
        };
        mask.push(keep);
        i = i + 1;
    }
    mask
}

// ---------------------------------------------------------------------------
// Integers
// ---------------------------------------------------------------------------

/// The number that a string of decimal digits writes.
pub open spec fn digits_value(s: Seq<char>) -> int
    decreases s.len(),
{
    if s.len() == 0 {
        0
    } else {
        digits_value(s.subrange(0, s.len() - 1)) * 10 + digit_value(s.last())
    }
}

pub open spec fn all_digits(s: Seq<char>) -> bool {
    forall|i: int| 0 <= i < s.len() ==> is_digit(#[trigger] s[i])
}

/// What `i64::from_str` gives for `s`, as its documentation says: an
/// optional `+` or `-` sign followed by one or more ASCII digits, whose value
/// must fit in an `i64`.
pub open spec fn parse_i64_spec(s: Seq<char>) -> Option<i64> {
    let signed = s.len() > 0 && (s[0] == '-' || s[0] == '+');
    let neg = s.len() > 0 && s[0] == '-';
    let digits = if signed {
        s.subrange(1, s.len() as int)
    } else {
        s
    };
    if digits.len() == 0 || !all_digits(digits) {
        None
    } else {
        let v = if neg {
            -digits_value(digits)
        } else {
            digits_value(digits)
        };
        if i64::MIN <= v <= i64::MAX {
            Some(v as i64)
        } else {
            None
        }
    }
}

proof fn lemma_digits_value_grows(s: Seq<char>, k: int)
    requires
        0 <= k <= s.len(),
        all_digits(s),
    ensures
        0 <= digits_value(s.subrange(0, k)) <= digits_value(s),
    decreases s.len(),
{
    if s.len() > 0 {
        let init = s.subrange(0, s.len() - 1);
        if k < s.len() {
            assert(init.subrange(0, k) =~= s.subrange(0, k));
            lemma_digits_value_grows(init, k);
        } else {
            assert(s.subrange(0, k) =~= s);
            lemma_digits_value_grows(init, 0);
        }
    } else {
        assert(s.subrange(0, k) =~= s);
    }
}

/// Parses a decimal `i64` as `str::parse::<i64>` does.
pub fn parse_i64(s: &str) -> (r: Option<i64>)
    ensures
        r == parse_i64_spec(s@),
{
    let c = chars_of(s);
    let n = c.len();
    let neg = n > 0 && c[0] == '-';
    let signed = n > 0 && (c[0] == '-' || c[0] == '+');
    let start: usize = if signed {
        1
    } else {
        0
    };
    let ghost digits = c@.subrange(start as int, n as int);
    assert(signed ==> digits =~= s@.subrange(1, s@.len() as int));
    assert(!signed ==> digits =~= s@);
    if start == n {
        return None;
    }
    let mut acc: i128 = 0;
    let mut i: usize = start;
    while i < n
        invariant
            c@ == s@,
            n == c@.len(),
            start <= i <= n,
            digits == c@.subrange(start as int, n as int),
            signed == (s@.len() > 0 && (s@[0] == '-' || s@[0] == '+')),
            neg == (s@.len() > 0 && s@[0] == '-'),
            signed ==> digits == s@.subrange(1, s@.len() as int),
            !signed ==> digits == s@,
            start == (if signed { 1usize } else { 0usize }),
            acc == digits_value(c@.subrange(start as int, i as int)),
            all_digits(c@.subrange(start as int, i as int)),
            0 <= acc <= 0x8000_0000_0000_0000,
        decreases n - i,
    {
        let ch = c[i];
        let ghost pre = c@.subrange(start as int, i as int);
        let ghost next = c@.subrange(start as int, i + 1);
        assert(next.subrange(0, next.len() - 1) =~= pre);
        if !('0' <= ch && ch <= '9') {
            assert(!is_digit(digits[i - start]));
            return None;
        }
        let d = (ch as u32) - ('0' as u32);
        acc = acc * 10 + d as i128;
        assert(all_digits(next)) by {
            assert forall|j: int| 0 <= j < next.len() implies is_digit(#[trigger] next[j]) by {
                if j < next.len() - 1 {
                    assert(next[j] == pre[j]);
                }
            }
        }
        i = i + 1;
        if acc > 0x8000_0000_0000_0000 {
            proof {
                if all_digits(digits) {
                    lemma_digits_value_grows(digits, i - start);
                    assert(digits.subrange(0, i - start) =~= next);
                }
            }
            return None;
        }
    }
    assert(c@.subrange(start as int, n as int) == digits);
    if neg {
        Some((-acc) as i64)
    } else if acc <= 0x7fff_ffff_ffff_ffff {
        Some(acc as i64)
    } else {
        None
    }
}

/// The rows of an integer column to keep: those whose value equals the
/// integer that `value` writes (nulls never); none when `value` is not an
/// integer.
pub fn int_filter_mask(values: &Vec<Option<i64>>, value: &str) -> (mask: Vec<bool>)
    ensures
        mask@.len() == values@.len(),
        forall|i: int|
            0 <= i < values@.len() ==> mask@[i] == (#[trigger] values@[i] matches Some(v)
                && parse_i64_spec(value@) == Some(v)),
{
    let wanted = parse_i64(value);
    let mut mask: Vec<bool> = Vec::new();
    let mut i: usize = 0;
    while i < values.len()
        invariant
            wanted == parse_i64_spec(value@),
            i <= values.len(),
            mask@.len() == i,
            forall|j: int|
                0 <= j < i ==> mask@[j] == (#[trigger] values@[j] matches Some(v) && wanted == Some(
                    v,
                )),
        decreases values.len() - i,
    {
        let keep = match (values[i], wanted) {
            (Some(v), Some(w)) => v == w,
            _ => false,
        };
        mask.push(keep);
        i = i + 1;
    }
    mask
}

} // verus!

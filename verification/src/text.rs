//! Text as bytes.

use vstd::prelude::*;
use vstd::utf8::encode_utf8_decode_utf8;

verus! {

/// The bytes of text that is all ASCII.
pub open spec fn ascii(s: Seq<char>) -> Seq<u8> {
    Seq::new(s.len(), |i: int| s[i] as u8)
}

/// The bytes of text that is all ASCII.
pub fn text(s: &str) -> (r: &[u8])
    requires
        s.is_ascii(),
    ensures
        r@ == ascii(s@),
{
    broadcast use vstd::string::is_ascii_spec_bytes;

    s.as_bytes()
}

/// Whether two byte strings are the same.
pub fn same_bytes(a: &[u8], b: &[u8]) -> (r: bool)
    ensures
        r == (a@ == b@),
{
    if a.len() != b.len() {
        return false;
    }
    let mut i: usize = 0;
    while i < a.len()
        invariant
            i <= a@.len(),
            a@.len() == b@.len(),
            forall|j: int| 0 <= j < i ==> a@[j] == b@[j],
        decreases a@.len() - i,
    {
        if a[i] != b[i] {
            return false;
        }
        i = i + 1;
    }
    assert(a@ =~= b@);
    true
}

/// Whether two texts are the same.
pub fn same_text(a: &str, b: &str) -> (r: bool)
    ensures
        r == (a@ == b@),
{
    proof {
        encode_utf8_decode_utf8(a@);
        encode_utf8_decode_utf8(b@);
    }
    same_bytes(a.as_bytes(), b.as_bytes())
}

/// The byte is one of the ten ASCII digits.
pub open spec fn is_digit(b: u8) -> bool {
    0x30 <= b <= 0x39
}

/// Where the digits that start at `p` end.
pub open spec fn digits_end(s: Seq<u8>, p: int) -> int
    decreases s.len() - p,
{
    if 0 <= p < s.len() && is_digit(s[p]) {
        digits_end(s, p + 1)
    } else {
        p
    }
}

/// The number that decimal digits stand for.
pub open spec fn decimal(s: Seq<u8>) -> nat
    decreases s.len(),
{
    if s.len() == 0 {
        0
    } else {
        decimal(s.drop_last()) * 10 + (s.last() - 0x30) as nat
    }
}

/// Leading digits stand for no larger a number than all of them.
pub proof fn decimal_grows(s: Seq<u8>, i: int)
    requires
        0 <= i <= s.len(),
    ensures
        decimal(s.take(i)) <= decimal(s),
    decreases s.len(),
{
    if i == s.len() {
        assert(s.take(i) =~= s);
    } else {
        assert(s.drop_last().take(i) =~= s.take(i));
        decimal_grows(s.drop_last(), i);
    }
}

pub proof fn digits_end_within(s: Seq<u8>, p: int)
    requires
        0 <= p <= s.len(),
    ensures
        p <= digits_end(s, p) <= s.len(),
    decreases s.len() - p,
{
    if p < s.len() && is_digit(s[p]) {
        digits_end_within(s, p + 1);
    }
}

/// Reads the decimal number at `p`: `None` if it is too large.
pub fn read_decimal(s: &[u8], p: usize) -> (r: Option<usize>)
    requires
        p <= s@.len(),
    ensures
        match r {
            Some(v) => v == decimal(s@.subrange(p as int, digits_end(s@, p as int))),
            None => decimal(s@.subrange(p as int, digits_end(s@, p as int))) > usize::MAX,
        },
{
    let ghost end = digits_end(s@, p as int);
    let ghost digits = s@.subrange(p as int, end);
    proof {
        digits_end_within(s@, p as int);
    }
    let mut i: usize = p;
    let mut v: usize = 0;
    assert(s@.subrange(p as int, p as int) =~= Seq::empty());
    while i < s.len() && s[i] >= 0x30 && s[i] <= 0x39
        invariant
            p <= i <= s@.len(),
            i <= end <= s@.len(),
            end == digits_end(s@, p as int),
            end == digits_end(s@, i as int),
            digits == s@.subrange(p as int, end),
            v == decimal(s@.subrange(p as int, i as int)),
        decreases s@.len() - i,
    {
        let d: usize = (s[i] - 0x30) as usize;
        proof {
            digits_end_within(s@, i + 1);
            let more = s@.subrange(p as int, i + 1);
            assert(more.drop_last() =~= s@.subrange(p as int, i as int));
            assert(digits.take(i + 1 - p) =~= more);
            decimal_grows(digits, i + 1 - p);
            assert(decimal(more) == v * 10 + d);
        }
        if v > (usize::MAX - d) / 10 {
            return None;
        }
        v = v * 10 + d;
        i = i + 1;
    }
    assert(i == end);
    Some(v)
}

/// All bytes are digits.
pub open spec fn all_digits(s: Seq<u8>) -> bool {
    forall|i: int| 0 <= i < s.len() ==> is_digit(#[trigger] s[i])
}

/// The number that text stands for: digits, with at most one sign before them.
/// Only a signed number may have a minus.
pub open spec fn number(s: Seq<u8>, signed: bool) -> Option<int> {
    if s.len() == 0 {
        None
    } else if s[0] == 0x2b || (signed && s[0] == 0x2d) {
        if s.len() > 1 && all_digits(s.skip(1)) {
            Some(
                if s[0] == 0x2b {
                    decimal(s.skip(1)) as int
                } else {
                    -decimal(s.skip(1))
                },
            )
        } else {
            None
        }
    } else if all_digits(s) {
        Some(decimal(s) as int)
    } else {
        None
    }
}

/// The largest number with so many digits, and one more.
spec fn limit(n: nat) -> nat
    decreases n,
{
    if n == 0 {
        1
    } else {
        10 * limit((n - 1) as nat)
    }
}

proof fn decimal_below_limit(s: Seq<u8>)
    requires
        all_digits(s),
    ensures
        decimal(s) < limit(s.len()),
    decreases s.len(),
{
    if s.len() > 0 {
        let t = s.drop_last();
        assert forall|i: int| 0 <= i < t.len() implies is_digit(#[trigger] t[i]) by {
            assert(t[i] == s[i]);
        }
        decimal_below_limit(t);
        assert(is_digit(s[s.len() - 1]));
    }
}

/// A few digits stand for a small number.
pub proof fn few_digits_are_small(s: Seq<u8>)
    requires
        all_digits(s),
        s.len() <= 4,
    ensures
        decimal(s) <= 9999,
        s.len() <= 2 ==> decimal(s) <= 99,
{
    decimal_below_limit(s);
    reveal_with_fuel(limit, 5);
}

/// Reads digits from `p` to the end.
fn read_digits(s: &[u8], p: usize) -> (r: Option<i64>)
    requires
        p < s@.len() <= 4,
    ensures
        match r {
            Some(v) => all_digits(s@.skip(p as int)) && v == decimal(s@.skip(p as int)),
            None => !all_digits(s@.skip(p as int)),
        },
{
    let ghost digits = s@.skip(p as int);
    let mut i: usize = p;
    let mut v: i64 = 0;
    assert(digits.take(0) =~= Seq::empty());
    while i < s.len()
        invariant
            p <= i <= s@.len() <= 4,
            digits == s@.skip(p as int),
            all_digits(digits.take(i - p)),
            v == decimal(digits.take(i - p)),
        decreases s@.len() - i,
    {
        let b: u8 = s[i];
        assert(digits[i - p] == b);
        if b < 0x30 || b > 0x39 {
            return None;
        }
        proof {
            let more = digits.take(i + 1 - p);
            assert(more.drop_last() =~= digits.take(i - p));
            assert forall|j: int| 0 <= j < more.len() implies is_digit(#[trigger] more[j]) by {
                if j < i - p {
                    assert(more[j] == digits.take(i - p)[j]);
                }
            }
            few_digits_are_small(digits.take(i - p));
        }
        v = v * 10 + (b - 0x30) as i64;
        i = i + 1;
    }
    assert(digits.take(i - p) =~= digits);
    Some(v)
}

/// Reads the number that a short text stands for.
pub fn parse_number(s: &[u8], signed: bool) -> (r: Option<i64>)
    requires
        s@.len() <= 4,
    ensures
        match r {
            Some(v) => number(s@, signed) == Some(v as int),
            None => number(s@, signed) is None,
        },
        r matches Some(v) ==> -999 <= v <= 9999,
        r matches Some(v) ==> s@.len() <= 2 ==> -9 <= v <= 99,
        r matches Some(v) ==> !signed ==> v >= 0,
{
    if s.len() == 0 {
        return None;
    }
    if s[0] == 0x2b || (signed && s[0] == 0x2d) {
        if s.len() == 1 {
            return None;
        }
        let r: Option<i64> = read_digits(s, 1);
        proof {
            if r is Some {
                decimal_below_limit(s@.skip(1));
                reveal_with_fuel(limit, 4);
            }
        }
        match r {
            Some(v) => if s[0] == 0x2b {
                Some(v)
            } else {
                Some(-v)
            },
            None => None,
        }
    } else {
        assert(s@.skip(0) =~= s@);
        let r: Option<i64> = read_digits(s, 0);
        proof {
            if r is Some {
                few_digits_are_small(s@);
            }
        }
        r
    }
}

/// The unsigned number of 32 bits that text stands for.
pub open spec fn number32(s: Seq<u8>) -> Option<u32> {
    match number(s, false) {
        Some(v) => if v <= u32::MAX {
            Some(v as u32)
        } else {
            None
        },
        None => None,
    }
}

/// Reads the unsigned number of 32 bits that text stands for.
pub fn parse_u32(s: &[u8]) -> (r: Option<u32>)
    ensures
        r == number32(s@),
{
    if s.len() == 0 {
        return None;
    }
    let p: usize = if s[0] == 0x2b {
        1
    } else {
        0
    };
    if s.len() == p {
        return None;
    }
    let ghost digits = s@.skip(p as int);
    assert(p == 0 ==> digits =~= s@);
    let mut i: usize = p;
    let mut v: u64 = 0;
    assert(digits.take(0) =~= Seq::empty());
    while i < s.len()
        invariant
            p <= i <= s@.len(),
            digits == s@.skip(p as int),
            number32(s@) == if all_digits(digits) && decimal(digits) <= u32::MAX {
                Some(decimal(digits) as u32)
            } else {
                None
            },
            all_digits(digits.take(i - p)),
            v == decimal(digits.take(i - p)),
            v <= u32::MAX,
        decreases s@.len() - i,
    {
        let b: u8 = s[i];
        assert(digits[i - p] == b);
        if b < 0x30 || b > 0x39 {
            return None;
        }
        proof {
            let more = digits.take(i + 1 - p);
            assert(more.drop_last() =~= digits.take(i - p));
            assert forall|j: int| 0 <= j < more.len() implies is_digit(#[trigger] more[j]) by {
                if j < i - p {
                    assert(more[j] == digits.take(i - p)[j]);
                }
            }
            decimal_grows(digits, i + 1 - p);
        }
        v = v * 10 + (b - 0x30) as u64;
        if v > u32::MAX as u64 {
            return None;
        }
        i = i + 1;
    }
    assert(digits.take(i - p) =~= digits);
    Some(v as u32)
}

} // verus!

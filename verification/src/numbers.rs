use vstd::prelude::*;

use crate::text::chars_of;

verus! {

/// An ASCII decimal digit.
pub open spec fn is_ascii_digit(c: char) -> bool {
    0x30 <= (c as u32) <= 0x39
}

pub open spec fn all_digits(d: Seq<char>) -> bool {
    forall|i: int| 0 <= i < d.len() ==> is_ascii_digit(#[trigger] d[i])
}

/// The number that a string of decimal digits spells.
pub open spec fn digits_value(d: Seq<char>) -> nat
    decreases d.len(),
{
    if d.len() == 0 {
        0
    } else {
        digits_value(d.drop_last()) * 10 + ((d.last() as u32) - 0x30) as nat
    }
}

/// The digits of an unsigned number: the text without one leading `+`.
pub open spec fn unsigned_digits(s: Seq<char>) -> Seq<char> {
    if s.len() > 0 && s[0] == '+' {
        s.drop_first()
    } else {
        s
    }
}

/// How `str::parse::<u32>` reads a text: an optional `+` and at least one
/// decimal digit, with a value that fits in `u32`.
pub open spec fn parse_u32_spec(s: Seq<char>) -> Option<u32> {
    let d = unsigned_digits(s);
    if d.len() > 0 && all_digits(d) && digits_value(d) <= u32::MAX {
        Some(digits_value(d) as u32)
    } else {
        None
    }
}

/// Whether `str::parse::<i64>` accepts a text: an optional sign and at
/// least one decimal digit, with a value in the range of `i64`.
pub open spec fn parses_as_i64(s: Seq<char>) -> bool {
    if s.len() > 0 && (s[0] == '+' || s[0] == '-') {
        let d = s.drop_first();
        &&& d.len() > 0
        &&& all_digits(d)
        &&& if s[0] == '-' {
            digits_value(d) <= 0x8000_0000_0000_0000
        } else {
            digits_value(d) <= 0x7fff_ffff_ffff_ffff
        }
    } else {
        s.len() > 0 && all_digits(s) && digits_value(s) <= 0x7fff_ffff_ffff_ffff
    }
}

/// Value of the digits `chars[start..]`, if they are all decimal digits,
/// there is at least one, and the value is at most `cap`.
fn digits_at_most(chars: &Vec<char>, start: usize, cap: u64) -> (r: Option<u64>)
    requires
        start <= chars.len(),
        cap < 0x8000_0000_0000_0001,
    ensures
        ({
            let d = chars@.subrange(start as int, chars@.len() as int);
            if d.len() > 0 && all_digits(d) && digits_value(d) <= cap {
                r == Some(digits_value(d) as u64)
            } else {
                r is None
            }
        }),
{
    let n = chars.len();
    let ghost d = chars@.subrange(start as int, n as int);
    let mut acc: u64 = 0;
    let mut i = start;
    while i < n
        invariant
            start <= i <= n,
            n == chars.len(),
            d == chars@.subrange(start as int, n as int),
            cap < 0x8000_0000_0000_0001,
            all_digits(d.take(i - start)),
            acc == (if digits_value(d.take(i - start)) <= cap {
                digits_value(d.take(i - start))
            } else {
                cap as nat + 1
            }),
        decreases n - i,
    {
        let c = chars[i];
        let u = c as u32;
        if u < 0x30 || u > 0x39 {
            proof {
                assert(d[i - start] == c);
                assert(!all_digits(d));
            }
            return None;
        }
        let digit = (u - 0x30) as u64;
        proof {
            let p = d.take(i - start);
            let q = d.take(i - start + 1);
            assert(q.drop_last() =~= p);
            assert(q.last() == c);
            assert(digits_value(q) == digits_value(p) * 10 + digit);
            assert forall|k: int| 0 <= k < q.len() implies is_ascii_digit(#[trigger] q[k]) by {
                if k < p.len() {
                    assert(q[k] == p[k]);
                }
            }
        }
        if acc <= cap {
            let t: u128 = (acc as u128) * 10 + (digit as u128);
            acc = if t <= (cap as u128) { t as u64 } else { cap + 1 };
        }
        i = i + 1;
    }
    proof {
        assert(d.take(n - start) =~= d);
    }
    if n == start || acc > cap {
        None
    } else {
        Some(acc)
    }
}

/// Reads a text as `str::parse::<u32>` does.
pub fn parse_u32(s: &str) -> (r: Option<u32>)
    ensures
        r == parse_u32_spec(s@),
{
    let chars = chars_of(s);
    let start: usize = if chars.len() > 0 && chars[0] == '+' { 1 } else { 0 };
    proof {
        assert(chars@.subrange(start as int, chars@.len() as int) =~= unsigned_digits(s@));
    }
    match digits_at_most(&chars, start, 0xffff_ffff) {
        Some(v) => Some(v as u32),
        None => None,
    }
}

/// Whether `str::parse::<i64>` accepts the text.
pub fn is_i64_text(s: &str) -> (r: bool)
    ensures
        r == parses_as_i64(s@),
{
    let chars = chars_of(s);
    if chars.len() > 0 && (chars[0] == '+' || chars[0] == '-') {
        let cap: u64 = if chars[0] == '-' { 0x8000_0000_0000_0000 } else { 0x7fff_ffff_ffff_ffff };
        proof {
            assert(chars@.subrange(1, chars@.len() as int) =~= s@.drop_first());
        }
        digits_at_most(&chars, 1, cap).is_some()
    } else {
        proof {
            assert(chars@.subrange(0, chars@.len() as int) =~= s@);
        }
        digits_at_most(&chars, 0, 0x7fff_ffff_ffff_ffff).is_some()
    }
}

/// Ten to the power `n`.
pub open spec fn pow10(n: nat) -> nat
    decreases n,
{
    if n == 0 {
        1
    } else {
        10 * pow10((n - 1) as nat)
    }
}

proof fn lemma_digits_value_bound(d: Seq<char>)
    requires
        all_digits(d),
    ensures
        digits_value(d) < pow10(d.len()),
    decreases d.len(),
{
    if d.len() > 0 {
        let e = d.drop_last();
        assert forall|i: int| 0 <= i < e.len() implies is_ascii_digit(#[trigger] e[i]) by {
            assert(e[i] == d[i]);
        }
        lemma_digits_value_bound(e);
        assert(is_ascii_digit(d[d.len() - 1]));
    }
}

proof fn lemma_pow10_mono(a: nat, b: nat)
    requires
        a <= b,
    ensures
        pow10(a) <= pow10(b),
    decreases b,
{
    if a < b {
        lemma_pow10_mono(a, (b - 1) as nat);
    }
}

/// A text is read as an `i64` only when it is an optional sign followed by
/// decimal digits and nothing else; and every such text of at most 18
/// digits is read as one.
pub proof fn law_integer_text_is_signed_digits(s: Seq<char>)
    ensures
        parses_as_i64(s) ==> s.len() > 0 && forall|i: int|
            0 <= i < s.len() ==> is_ascii_digit(#[trigger] s[i]) || (i == 0 && (s[i] == '+' || s[i]
                == '-')),
        ({
            let d = if s.len() > 0 && (s[0] == '+' || s[0] == '-') {
                s.drop_first()
            } else {
                s
            };
            0 < d.len() <= 18 && all_digits(d) ==> parses_as_i64(s)
        }),
{
    if parses_as_i64(s) {
        if s[0] == '+' || s[0] == '-' {
            let d = s.drop_first();
            assert forall|i: int| 0 <= i < s.len() implies is_ascii_digit(#[trigger] s[i]) || (i == 0
                && (s[i] == '+' || s[i] == '-')) by {
                if i > 0 {
                    assert(s[i] == d[i - 1]);
                }
            }
        }
    }
    let d = if s.len() > 0 && (s[0] == '+' || s[0] == '-') {
        s.drop_first()
    } else {
        s
    };
    if 0 < d.len() <= 18 && all_digits(d) {
        lemma_digits_value_bound(d);
        lemma_pow10_mono(d.len(), 18);
        reveal_with_fuel(pow10, 19);
        assert(pow10(18) == 1000000000000000000);
    }
}

} // verus!

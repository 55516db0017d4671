//! Numbers written in decimal digits.

use crate::text::code_of;
use vstd::prelude::*;

verus! {

/// `c` is one of the digits 0 to 9.
pub open spec fn is_digit(c: char) -> bool {
    0x30 <= c as int <= 0x39
}

/// Every character of `s` is a digit.
pub open spec fn all_digits(s: Seq<char>) -> bool {
    forall|i: int| 0 <= i < s.len() ==> is_digit(#[trigger] s[i])
}

/// The number that the digits of `s` write.
pub open spec fn digits_value(s: Seq<char>) -> int
    decreases s.len(),
{
    if s.len() == 0 {
        0
    } else {
        digits_value(s.drop_last()) * 10 + (s.last() as int - 0x30)
    }
}

/// The number that `s` writes: digits, after a `+` or, where `signed`
/// allows it, a `-`. Anything else writes no number.
pub open spec fn number_of(s: Seq<char>, signed: bool) -> Option<int> {
    if s.len() == 0 {
        None
    } else if s[0] == '+' || (signed && s[0] == '-') {
        let d = s.subrange(1, s.len() as int);
        if d.len() > 0 && all_digits(d) {
            if s[0] == '-' {
                Some(-digits_value(d))
            } else {
                Some(digits_value(d))
            }
        } else {
            None
        }
    } else if all_digits(s) {
        Some(digits_value(s))
    } else {
        None
    }
}

/// The number that `s` writes, where it fits into 16 bits without a sign.
pub open spec fn u16_of(s: Seq<char>) -> Option<u16> {
    match number_of(s, false) {
        Some(v) => if v <= 0xffff {
            Some(v as u16)
        } else {
            None
        },
        None => None,
    }
}

/// The number that `s` writes, where it fits into 32 bits with a sign.
pub open spec fn i32_of(s: Seq<char>) -> Option<i32> {
    match number_of(s, true) {
        Some(v) => if -0x8000_0000 <= v <= 0x7fff_ffff {
            Some(v as i32)
        } else {
            None
        },
        None => None,
    }
}

/// The bound above which the size of a number is no longer followed.
pub open spec fn cap() -> int {
    10_000_000_000
}

/// Reads the digits of `s` from index `from` to its end. `None` where
/// there is no digit or another character; else the number, or the bound
/// where the number is above it.
pub fn magnitude(s: &Vec<char>, from: usize) -> (r: Option<u64>)
    requires
        from <= s.len(),
    ensures
        ({
            let d = s@.subrange(from as int, s@.len() as int);
            match r {
                Some(v) => d.len() > 0 && all_digits(d) && v as int == if digits_value(d) < cap() {
                    digits_value(d)
                } else {
                    cap()
                },
                None => !(d.len() > 0 && all_digits(d)),
            }
        }),
{
    let ghost d = s@.subrange(from as int, s@.len() as int);
    if from == s.len() {
        return None;
    }
    let mut acc: u64 = 0;
    let mut i: usize = from;
    assert(d.take(0) =~= Seq::<char>::empty());
    while i < s.len()
        invariant
            from <= i <= s.len(),
            d == s@.subrange(from as int, s@.len() as int),
            all_digits(d.take(i - from)),
            digits_value(d.take(i - from)) >= 0,
            acc as int == if digits_value(d.take(i - from)) < cap() {
                digits_value(d.take(i - from))
            } else {
                cap()
            },
        decreases s.len() - i,
    {
        let c: char = s[i];
        let n: u32 = code_of(c);
        assert(d[i - from] == c);
        if n < 0x30 || n > 0x39 {
            assert(!is_digit(d[i - from]));
            return None;
        }
        proof {
            let next = d.take(i - from + 1);
            assert(next.drop_last() =~= d.take(i - from));
            assert(next.last() == c);
            assert forall|k: int| 0 <= k < next.len() implies is_digit(#[trigger] next[k]) by {
                if k < i - from {
                    assert(d.take(i - from)[k] == next[k]);
                }
            }
        }
        let digit: u64 = (n - 0x30) as u64;
        let grown: u64 = acc * 10 + digit;
        acc = if grown > 10_000_000_000 {
            10_000_000_000
        } else {
            grown
        };
        i += 1;
    }
    assert(d.take(d.len() as int) =~= d);
    Some(acc)
}

/// Reads a number of 16 bits without a sign.
pub fn parse_u16(s: &Vec<char>) -> (r: Option<u16>)
    ensures
        r == u16_of(s@),
{
    if s.len() == 0 {
        return None;
    }
    let start: usize = if s[0] == '+' {
        1
    } else {
        0
    };
    proof {
        if start == 0 {
            assert(s@.subrange(0, s@.len() as int) =~= s@);
        }
    }
    match magnitude(s, start) {
        Some(v) => if v <= 0xffff {
            Some(v as u16)
        } else {
            None
        },
        None => None,
    }
}

/// Reads a number of 32 bits with a sign.
pub fn parse_i32(s: &Vec<char>) -> (r: Option<i32>)
    ensures
        r == i32_of(s@),
{
    if s.len() == 0 {
        return None;
    }
    let negative: bool = s[0] == '-';
    let start: usize = if s[0] == '+' || negative {
        1
    } else {
        0
    };
    proof {
        if start == 0 {
            assert(s@.subrange(0, s@.len() as int) =~= s@);
        }
    }
    match magnitude(s, start) {
        Some(v) => if negative {
            if v <= 0x8000_0000 {
                Some((0 - (v as i64)) as i32)
            } else {
                None
            }
        } else if v <= 0x7fff_ffff {
            Some(v as i32)
        } else {
            None
        },
        None => None,
    }
}

} // verus!

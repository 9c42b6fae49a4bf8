//! The logged event: one focus change or one `SYSTEM` marker, and the
//! decoding of its timestamp field.

use vstd::prelude::*;

verus! {

/// Whether `c` is an ASCII decimal digit.
pub open spec fn is_digit(c: char) -> bool {
    '0' <= c && c <= '9'
}

/// The value of the decimal digit `c`.
pub open spec fn digit_value(c: char) -> int {
    (c as int) - ('0' as int)
}

/// Whether every character of `s` is a decimal digit.
pub open spec fn all_digits(s: Seq<char>) -> bool {
    forall|i: int| 0 <= i < s.len() ==> is_digit(#[trigger] s[i])
}

/// The number that the digit string `s` denotes (most significant first).
pub open spec fn digits_value(s: Seq<char>) -> int
    decreases s.len(),
{
    if s.len() == 0 {
        0
    } else {
        10 * digits_value(s.drop_last()) + digit_value(s.last())
    }
}

/// The value of an unsigned digit string, if it is one: at least one digit and nothing else.
pub open spec fn unsigned_text(s: Seq<char>) -> Option<int> {
    if s.len() > 0 && all_digits(s) {
        Some(digits_value(s))
    } else {
        None
    }
}

/// The integer that `s` writes in decimal: an optional `+` or `-` sign, then digits.
pub open spec fn int_text(s: Seq<char>) -> Option<int> {
    if s.len() > 0 && s[0] == '-' {
        match unsigned_text(s.subrange(1, s.len() as int)) {
            Some(v) => Some(-v),
            None => None,
        }
    } else if s.len() > 0 && s[0] == '+' {
        unsigned_text(s.subrange(1, s.len() as int))
    } else {
        unsigned_text(s)
    }
}

/// Whether `v` fits in an `i64`.
pub open spec fn fits_i64(v: int) -> bool {
    i64::MIN <= v <= i64::MAX
}

/// The timestamp that the field `s` holds: its decimal value where that fits in an `i64`.
pub open spec fn timestamp_text(s: Seq<char>) -> Option<int> {
    match int_text(s) {
        Some(v) => if fits_i64(v) {
            Some(v)
        } else {
            None
        },
        None => None,
    }
}

proof fn lemma_digits_value_nonneg(s: Seq<char>)
    requires
        all_digits(s),
    ensures
        digits_value(s) >= 0,
    decreases s.len(),
{
    if s.len() > 0 {
        assert(all_digits(s.drop_last())) by {
            assert forall|i: int| 0 <= i < s.drop_last().len() implies is_digit(
                #[trigger] s.drop_last()[i],
            ) by {
                assert(s.drop_last()[i] == s[i]);
            }
        }
        lemma_digits_value_nonneg(s.drop_last());
        assert(is_digit(s[s.len() - 1]));
    }
}

/// Reads a timestamp field: an optional sign and decimal digits whose value fits in an `i64`.
pub fn parse_timestamp(s: &str) -> (r: Option<i64>)
    ensures
        match timestamp_text(s@) {
            Some(v) => r == Some(v as i64),
            None => r is None,
        },
{
    let n = s.unicode_len();
    let mut start: usize = 0;
    let mut negative = false;
    if n > 0 {
        let c0 = s.get_char(0);
        if c0 == '-' {
            negative = true;
            start = 1;
        } else if c0 == '+' {
            start = 1;
        }
    }
    if start == n {
        return None;
    }
    assert(start == 0 ==> s@[0] != '-' && s@[0] != '+');
    let ghost digits = s@.subrange(start as int, n as int);
    let bound: i128 = 9_223_372_036_854_775_808;
    let mut acc: i128 = 0;
    let mut too_big = false;
    let mut j: usize = start;
    while j < n
        invariant
            n == s@.len(),
            start <= j <= n,
            start < n,
            digits == s@.subrange(start as int, n as int),
            all_digits(s@.subrange(start as int, j as int)),
            !too_big ==> acc == digits_value(s@.subrange(start as int, j as int)),
            !too_big ==> 0 <= acc <= bound,
            too_big ==> digits_value(s@.subrange(start as int, j as int)) > bound,
            bound == 9_223_372_036_854_775_808,
            negative ==> start == 1 && s@[0] == '-',
            !negative && start == 1 ==> s@[0] == '+',
            start == 0 ==> s@[0] != '-' && s@[0] != '+',
            start == 0 ==> s@.subrange(0, n as int) =~= s@,
            start <= 1,
        decreases n - j,
    {
        let c = s.get_char(j);
        let ghost prev = s@.subrange(start as int, j as int);
        let ghost next = s@.subrange(start as int, j + 1);
        assert(next.drop_last() =~= prev);
        assert(next.last() == c);
        if !('0' <= c && c <= '9') {
            assert(!all_digits(digits)) by {
                assert(digits[j - start] == c);
            }
            return None;
        }
        assert(all_digits(next)) by {
            assert forall|i: int| 0 <= i < next.len() implies is_digit(#[trigger] next[i]) by {
                if i < prev.len() {
                    assert(next[i] == prev[i]);
                }
            }
        }
        proof {
            lemma_digits_value_nonneg(prev);
        }
        if !too_big {
            let d = (c as u32 - '0' as u32) as i128;
            acc = 10 * acc + d;
            if acc > bound {
                too_big = true;
            }
        }
        j = j + 1;
    }
    assert(s@.subrange(start as int, n as int) =~= digits);
    if too_big {
        return None;
    }
    if negative {
        Some((0 - acc) as i64)
    } else if acc < bound {
        Some(acc as i64)
    } else {
        None
    }
}

} // verus!

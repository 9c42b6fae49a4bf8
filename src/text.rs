//! Building text: decimal numerals, zero padding and whitespace trimming.

use vstd::prelude::*;

verus! {

/// The character of decimal digit `d` (`d < 10`).
pub open spec fn digit_char(d: nat) -> char {
    if d == 0 { '0' } else if d == 1 { '1' } else if d == 2 { '2' } else if d == 3 { '3' } else if d
        == 4 { '4' } else if d == 5 { '5' } else if d == 6 { '6' } else if d == 7 { '7' } else if d
        == 8 { '8' } else { '9' }
}

/// The decimal numeral of `n`, without leading zeros.
pub open spec fn dec(n: nat) -> Seq<char>
    decreases n,
{
    if n < 10 {
        seq![digit_char(n)]
    } else {
        dec(n / 10) + seq![digit_char(n % 10)]
    }
}

/// The decimal numeral of `n`, zero-padded on the left to at least `w` digits.
pub open spec fn padded(n: nat, w: nat) -> Seq<char> {
    let d = dec(n);
    if d.len() >= w {
        d
    } else {
        Seq::new((w - d.len()) as nat, |i: int| '0') + d
    }
}

/// The decimal numeral of the integer `v`, with a `-` sign when negative.
pub open spec fn signed_dec(v: int) -> Seq<char> {
    if v < 0 {
        seq!['-'] + dec((-v) as nat)
    } else {
        dec(v as nat)
    }
}

fn digit_str(d: u64) -> (r: &'static str)
    requires
        d < 10,
    ensures
        r@ == seq![digit_char(d as nat)],
{
    proof {
        reveal_strlit("0");
        reveal_strlit("1");
        reveal_strlit("2");
        reveal_strlit("3");
        reveal_strlit("4");
        reveal_strlit("5");
        reveal_strlit("6");
        reveal_strlit("7");
        reveal_strlit("8");
        reveal_strlit("9");
    }
    match d {
        0 => "0",
        1 => "1",
        2 => "2",
        3 => "3",
        4 => "4",
        5 => "5",
        6 => "6",
        7 => "7",
        8 => "8",
        _ => "9",
    }
}

/// Appends the decimal numeral of `n` to `s`.
pub fn push_decimal(s: &mut String, n: u64)
    ensures
        final(s)@ == old(s)@ + dec(n as nat),
    decreases n,
{
    if n < 10 {
        s.append(digit_str(n));
    } else {
        push_decimal(s, n / 10);
        s.append(digit_str(n % 10));
        proof {
            assert(old(s)@ + dec(n as nat) =~= old(s)@ + dec((n / 10) as nat) + seq![digit_char((n % 10) as nat)]);
        }
    }
}

/// Appends the decimal numeral of `n`, zero-padded to at least `w` digits.
pub fn push_padded(s: &mut String, n: u64, w: usize)
    ensures
        final(s)@ == old(s)@ + padded(n as nat, w as nat),
{
    let mut digits = String::new();
    push_decimal(&mut digits, n);
    let len = digits.as_str().unicode_len();
    let mut k: usize = len;
    while k < w
        invariant
            len == dec(n as nat).len(),
            len <= k <= (if w > len { w } else { len }),
            s@ == old(s)@ + Seq::new((k - len) as nat, |i: int| '0'),
        decreases w - k,
    {
        s.append("0");
        proof {
            reveal_strlit("0");
            assert(s@ =~= old(s)@ + Seq::new((k + 1 - len) as nat, |i: int| '0'));
        }
        k = k + 1;
    }
    s.append(digits.as_str());
    proof {
        if dec(n as nat).len() >= w {
            assert(Seq::new((k - len) as nat, |i: int| '0') =~= Seq::<char>::empty());
            assert(s@ =~= old(s)@ + dec(n as nat));
        } else {
            assert(s@ =~= old(s)@ + (Seq::new((w - len) as nat, |i: int| '0') + dec(n as nat)));
        }
    }
}

/// Appends the decimal numeral of `v`, with a `-` sign when negative.
pub fn push_signed(s: &mut String, v: i64)
    ensures
        final(s)@ == old(s)@ + signed_dec(v as int),
{
    if v < 0 {
        s.append("-");
        let mag: u64 = (0 - (v as i128)) as u64;
        push_decimal(s, mag);
        proof {
            reveal_strlit("-");
            assert(final(s)@ =~= old(s)@ + (seq!['-'] + dec((-v) as nat)));
        }
    } else {
        push_decimal(s, v as u64);
    }
}

/// Whether `c` is white space as Unicode defines it (`char::is_whitespace`).
pub open spec fn is_space(c: char) -> bool {
    ('\u{9}' <= c && c <= '\u{d}') || c == ' ' || c == '\u{85}' || c == '\u{a0}' || c == '\u{1680}' || (
    '\u{2000}' <= c && c <= '\u{200a}') || c == '\u{2028}' || c == '\u{2029}' || c == '\u{202f}' || c
        == '\u{205f}' || c == '\u{3000}'
}

/// Tests `c` for Unicode white space.
pub fn space(c: char) -> (r: bool)
    ensures
        r == is_space(c),
{
    ('\u{9}' <= c && c <= '\u{d}') || c == ' ' || c == '\u{85}' || c == '\u{a0}' || c == '\u{1680}' || (
    '\u{2000}' <= c && c <= '\u{200a}') || c == '\u{2028}' || c == '\u{2029}' || c == '\u{202f}' || c
        == '\u{205f}' || c == '\u{3000}'
}

/// The start of `s` without its leading white space.
pub open spec fn trim_start_at(s: Seq<char>, from: int) -> int
    decreases s.len() - from,
{
    if from >= s.len() || !is_space(s[from]) {
        from
    } else {
        trim_start_at(s, from + 1)
    }
}

/// The end of `s[..to]` without its trailing white space, not before `lo`.
pub open spec fn trim_end_at(s: Seq<char>, lo: int, to: int) -> int
    decreases to - lo,
{
    if to <= lo || !is_space(s[to - 1]) {
        to
    } else {
        trim_end_at(s, lo, to - 1)
    }
}

/// `s` with white space removed at both ends (`str::trim`).
pub open spec fn trimmed(s: Seq<char>) -> Seq<char> {
    let a = trim_start_at(s, 0);
    s.subrange(a, trim_end_at(s, a, s.len() as int))
}

/// The characters of `s`.
pub fn chars_of(s: &str) -> (r: Vec<char>)
    ensures
        r@ == s@,
{
    let n = s.unicode_len();
    let mut v: Vec<char> = Vec::new();
    let mut i: usize = 0;
    while i < n
        invariant
            n == s@.len(),
            i <= n,
            v@ == s@.subrange(0, i as int),
        decreases n - i,
    {
        v.push(s.get_char(i));
        i = i + 1;
        assert(v@ =~= s@.subrange(0, i as int));
    }
    assert(s@.subrange(0, n as int) =~= s@);
    v
}

/// The bounds of `cs[lo..hi]` without white space at either end.
pub fn trim_bounds(cs: &Vec<char>, lo: usize, hi: usize) -> (r: (usize, usize))
    requires
        lo <= hi <= cs@.len(),
    ensures
        lo <= r.0 <= r.1 <= hi,
        cs@.subrange(r.0 as int, r.1 as int) == trimmed(cs@.subrange(lo as int, hi as int)),
        r.0 - lo == trim_start_at(cs@.subrange(lo as int, hi as int), 0),
{
    let ghost sub = cs@.subrange(lo as int, hi as int);
    let mut a = lo;
    while a < hi && space(cs[a])
        invariant
            lo <= a <= hi,
            hi <= cs@.len(),
            sub == cs@.subrange(lo as int, hi as int),
            trim_start_at(sub, 0) == trim_start_at(sub, a - lo),
        decreases hi - a,
    {
        assert(sub[a - lo] == cs@[a as int]);
        a = a + 1;
    }
    assert(a < hi ==> sub[a - lo] == cs@[a as int]);
    assert(trim_start_at(sub, a - lo) == a - lo);
    let mut b = hi;
    while b > a && space(cs[b - 1])
        invariant
            lo <= a <= b <= hi,
            hi <= cs@.len(),
            sub == cs@.subrange(lo as int, hi as int),
            trim_end_at(sub, a - lo, sub.len() as int) == trim_end_at(sub, a - lo, b - lo),
        decreases b - a,
    {
        assert(sub[b - 1 - lo] == cs@[b - 1]);
        b = b - 1;
    }
    assert(b > a ==> sub[b - 1 - lo] == cs@[b - 1]);
    assert(trim_end_at(sub, a - lo, b - lo) == b - lo);
    assert(cs@.subrange(a as int, b as int) =~= sub.subrange(a - lo, b - lo));
    (a, b)
}

} // verus!

//! Human-readable figures for reports: durations and clipped labels.

use vstd::prelude::*;
use crate::text::{chars_of, dec, padded, push_decimal, push_padded};

verus! {

/// `h:m:s` with each part zero-padded to two digits.
pub open spec fn clock_text(h: nat, m: nat, s: nat) -> Seq<char> {
    padded(h, 2) + seq![':'] + padded(m, 2) + seq![':'] + padded(s, 2)
}

/// How a duration of `ms` milliseconds is written: under a second as
/// `<n>ms`; otherwise `[<y>y <d>d ]HH:MM:SS`, or `<d>d HH:MM:SS`, or
/// `HH:MM:SS`, or `MM:SS`, leaving out the leading units that are zero
/// (a year counts 365 days).
pub open spec fn duration_text(ms: nat) -> Seq<char> {
    if ms < 1000 {
        dec(ms) + seq!['m', 's']
    } else {
        let total_secs = ms / 1000;
        let seconds = total_secs % 60;
        let total_mins = total_secs / 60;
        let minutes = total_mins % 60;
        let total_hours = total_mins / 60;
        let hours = total_hours % 24;
        let total_days = total_hours / 24;
        let days = total_days % 365;
        let years = total_days / 365;
        if years > 0 {
            dec(years) + seq!['y', ' '] + dec(days) + seq!['d', ' '] + clock_text(hours, minutes, seconds)
        } else if days > 0 {
            dec(days) + seq!['d', ' '] + clock_text(hours, minutes, seconds)
        } else if hours > 0 {
            clock_text(hours, minutes, seconds)
        } else {
            padded(minutes, 2) + seq![':'] + padded(seconds, 2)
        }
    }
}

fn push_clock(s: &mut String, h: u64, m: u64, sec: u64)
    ensures
        final(s)@ == old(s)@ + clock_text(h as nat, m as nat, sec as nat),
{
    proof {
        reveal_strlit(":");
    }
    push_padded(s, h, 2);
    s.append(":");
    push_padded(s, m, 2);
    s.append(":");
    push_padded(s, sec, 2);
    assert(final(s)@ =~= old(s)@ + clock_text(h as nat, m as nat, sec as nat));
}

/// Writes a duration given in milliseconds (see `duration_text`).
pub fn format_duration(ms: u64) -> (r: String)
    ensures
        r@ == duration_text(ms as nat),
{
    proof {
        reveal_strlit("ms");
        reveal_strlit("y ");
        reveal_strlit("d ");
        reveal_strlit(":");
    }
    let mut s = String::new();
    if ms < 1_000 {
        push_decimal(&mut s, ms);
        s.append("ms");
        assert(s@ =~= duration_text(ms as nat));
        return s;
    }
    let total_secs = ms / 1_000;
    let seconds = total_secs % 60;
    let total_mins = total_secs / 60;
    let minutes = total_mins % 60;
    let total_hours = total_mins / 60;
    let hours = total_hours % 24;
    let total_days = total_hours / 24;
    let days = total_days % 365;
    let years = total_days / 365;
    if years > 0 {
        push_decimal(&mut s, years);
        s.append("y ");
        push_decimal(&mut s, days);
        s.append("d ");
        push_clock(&mut s, hours, minutes, seconds);
    } else if days > 0 {
        push_decimal(&mut s, days);
        s.append("d ");
        push_clock(&mut s, hours, minutes, seconds);
    } else if hours > 0 {
        push_clock(&mut s, hours, minutes, seconds);
    } else {
        push_padded(&mut s, minutes, 2);
        s.append(":");
        push_padded(&mut s, seconds, 2);
    }
    assert(s@ =~= duration_text(ms as nat));
    s
}

/// The number of bytes of `c` in UTF-8.
pub open spec fn utf8_len(c: char) -> int {
    if (c as u32) < 0x80 {
        1
    } else if (c as u32) < 0x800 {
        2
    } else if (c as u32) < 0x10000 {
        3
    } else {
        4
    }
}

/// The number of bytes of `s` in UTF-8 (`str::len`).
pub open spec fn byte_len(s: Seq<char>) -> int
    decreases s.len(),
{
    if s.len() == 0 {
        0
    } else {
        utf8_len(s[0]) + byte_len(s.drop_first())
    }
}

/// How many leading characters of `s` fit in `n` bytes.
pub open spec fn chars_within(s: Seq<char>, n: int) -> int
    decreases s.len(),
{
    if s.len() == 0 || utf8_len(s[0]) > n {
        0
    } else {
        1 + chars_within(s.drop_first(), n - utf8_len(s[0]))
    }
}

/// `s` clipped to `max_len` bytes: kept whole when it fits; else, where
/// `max_len` exceeds 3, the characters that fit in `max_len - 3` bytes
/// followed by `...`; else `max_len` dots.
pub open spec fn truncated(s: Seq<char>, max_len: nat) -> Seq<char> {
    if byte_len(s) <= max_len {
        s
    } else if max_len > 3 {
        s.take(chars_within(s, max_len - 3)) + seq!['.', '.', '.']
    } else {
        Seq::new(max_len, |i: int| '.')
    }
}

/// The number of bytes of `c` in UTF-8.
fn char_bytes(c: char) -> (r: usize)
    ensures
        r == utf8_len(c),
{
    if (c as u32) < 0x80 {
        1
    } else if (c as u32) < 0x800 {
        2
    } else if (c as u32) < 0x10000 {
        3
    } else {
        4
    }
}

/// Whether the characters `cs` take at most `n` bytes.
fn fits_in(cs: &Vec<char>, n: usize) -> (r: bool)
    ensures
        r == (byte_len(cs@) <= n),
{
    let mut i: usize = 0;
    let mut rem: usize = n;
    assert(cs@.skip(0) =~= cs@);
    while i < cs.len()
        invariant
            i <= cs@.len(),
            rem <= n,
            (byte_len(cs@) <= n) == (byte_len(cs@.skip(i as int)) <= rem),
        decreases cs.len() - i,
    {
        let b = char_bytes(cs[i]);
        proof {
            let t = cs@.skip(i as int);
            assert(t[0] == cs@[i as int]);
            assert(t.drop_first() =~= cs@.skip(i + 1));
            lemma_byte_len_nonneg(cs@.skip(i + 1));
        }
        if b > rem {
            return false;
        }
        rem = rem - b;
        i = i + 1;
    }
    assert(cs@.skip(i as int).len() == 0);
    true
}

proof fn lemma_byte_len_nonneg(s: Seq<char>)
    ensures
        byte_len(s) >= 0,
    decreases s.len(),
{
    if s.len() > 0 {
        lemma_byte_len_nonneg(s.drop_first());
    }
}

/// How many leading characters of `cs` fit in `n` bytes (see `chars_within`).
fn count_within(cs: &Vec<char>, n: usize) -> (r: usize)
    ensures
        r == chars_within(cs@, n as int),
        r <= cs@.len(),
{
    let mut i: usize = 0;
    let mut rem: usize = n;
    assert(cs@.skip(0) =~= cs@);
    while i < cs.len()
        invariant
            i <= cs@.len(),
            rem <= n,
            chars_within(cs@, n as int) == i + chars_within(cs@.skip(i as int), rem as int),
        decreases cs.len() - i,
    {
        let b = char_bytes(cs[i]);
        proof {
            let t = cs@.skip(i as int);
            assert(t[0] == cs@[i as int]);
            assert(t.drop_first() =~= cs@.skip(i + 1));
        }
        if b > rem {
            return i;
        }
        rem = rem - b;
        i = i + 1;
    }
    assert(cs@.skip(i as int).len() == 0);
    i
}

/// Clips a label to `max_len` bytes (see `truncated`). A cut never falls
/// inside a character: the last character that does not fit whole is left out.
pub fn truncate_string(s: &str, max_len: usize) -> (r: String)
    ensures
        r@ == truncated(s@, max_len as nat),
{
    proof {
        reveal_strlit("...");
        reveal_strlit(".");
    }
    let cs = chars_of(s);
    if fits_in(&cs, max_len) {
        String::from_str(s)
    } else if max_len > 3 {
        let k = count_within(&cs, max_len - 3);
        let mut r = String::from_str(s.substring_char(0, k));
        r.append("...");
        assert(r@ =~= truncated(s@, max_len as nat));
        r
    } else {
        let mut r = String::new();
        let mut i: usize = 0;
        while i < max_len
            invariant
                i <= max_len,
                r@ == Seq::new(i as nat, |j: int| '.'),
            decreases max_len - i,
        {
            r.append(".");
            proof {
                reveal_strlit(".");
            }
            i = i + 1;
            assert(r@ =~= Seq::new(i as nat, |j: int| '.'));
        }
        r
    }
}

} // verus!

//! Log lines that carry a timestamp: a number of milliseconds since the Unix
//! epoch between square brackets, such as `INFO [1700000000123] started`.

use vstd::prelude::*;
use crate::number::{parse_i64, parse_i64_chars, push_char, push_decimal, push_padded,
    push_signed_padded, decimal, zero_pad, signed_padded, is_number_field, lemma_padded_field};
use crate::text::chars_of;

verus! {

/// The position of the first `c` in `s`.
pub open spec fn find_char(s: Seq<char>, c: char) -> Option<nat>
    decreases s.len(),
{
    if s.len() == 0 {
        None
    } else if s[0] == c {
        Some(0)
    } else {
        match find_char(s.drop_first(), c) {
            Some(i) => Some(i + 1),
            None => None,
        }
    }
}

/// The parts of a stamped line: the text before the first `[`, the number of
/// milliseconds written between it and the first `]` after it, and the text
/// after that `]`. `None` when there is no such pair of brackets or what they
/// enclose does not read as an `i64`.
pub open spec fn stamp_parts(line: Seq<char>) -> Option<(Seq<char>, i64, Seq<char>)> {
    match find_char(line, '[') {
        Some(i) => {
            let after = line.skip(i + 1 as int);
            match find_char(after, ']') {
                Some(j) => match parse_i64(after.take(j as int)) {
                    Some(v) => Some((line.take(i as int), v, after.skip(j + 1 as int))),
                    None => None,
                },
                None => None,
            }
        },
        None => None,
    }
}

/// A line split around its timestamp.
pub struct StampedLine {
    /// The text before the `[`.
    pub before: String,
    /// The milliseconds since the epoch.
    pub millis: i64,
    /// The text after the `]`.
    pub tail: String,
}

proof fn lemma_find_char_props(s: Seq<char>, c: char)
    ensures
        match find_char(s, c) {
            Some(i) => i < s.len() && s[i as int] == c && forall|k: int| 0 <= k < i ==> s[k] != c,
            None => forall|k: int| 0 <= k < s.len() ==> s[k] != c,
        },
    decreases s.len(),
{
    if s.len() > 0 && s[0] != c {
        lemma_find_char_props(s.drop_first(), c);
        assert forall|k: int| 0 < k < s.len() implies s[k] == s.drop_first()[k - 1] by {}
    }
}

proof fn lemma_find_char_unique(s: Seq<char>, c: char, i: int)
    requires
        0 <= i < s.len(),
        s[i] == c,
        forall|k: int| 0 <= k < i ==> s[k] != c,
    ensures
        find_char(s, c) == Some(i as nat),
{
    lemma_find_char_props(s, c);
}

proof fn lemma_find_char_none(s: Seq<char>, c: char)
    requires
        forall|k: int| 0 <= k < s.len() ==> s[k] != c,
    ensures
        find_char(s, c) is None,
{
    lemma_find_char_props(s, c);
}

/// The position of the first `c` in `v` at or after `from`.
fn find_from(v: &Vec<char>, from: usize, c: char) -> (r: Option<usize>)
    requires
        from <= v@.len(),
    ensures
        match r {
            Some(i) => from <= i < v@.len() && v@[i as int] == c && forall|k: int|
                from <= k < i ==> v@[k] != c,
            None => forall|k: int| from <= k < v@.len() ==> v@[k] != c,
        },
{
    let mut i = from;
    while i < v.len()
        invariant
            from <= i <= v@.len(),
            forall|k: int| from <= k < i ==> v@[k] != c,
        decreases v@.len() - i,
    {
        if v[i] == c {
            return Some(i);
        }
        i = i + 1;
    }
    None
}

/// Copies the characters `a..b` of `v` into a new string.
fn string_of(v: &Vec<char>, a: usize, b: usize) -> (r: String)
    requires
        a <= b <= v@.len(),
    ensures
        r@ == v@.subrange(a as int, b as int),
{
    let mut s = String::new();
    let mut i = a;
    while i < b
        invariant
            a <= i <= b <= v@.len(),
            s@ =~= v@.subrange(a as int, i as int),
        decreases b - i,
    {
        push_char(&mut s, v[i]);
        i = i + 1;
    }
    s
}

/// Splits `line` around its timestamp, as `stamp_parts` describes.
pub fn split_stamp(line: &str) -> (r: Option<StampedLine>)
    ensures
        match r {
            Some(p) => stamp_parts(line@) == Some((p.before@, p.millis, p.tail@)),
            None => stamp_parts(line@) is None,
        },
{
    let v = chars_of(line);
    let n = v.len();
    let open = find_from(&v, 0, '[');
    match open {
        None => {
            proof {
                lemma_find_char_none(line@, '[');
            }
            None
        },
        Some(i) => {
            proof {
                lemma_find_char_unique(line@, '[', i as int);
            }
            let ghost after = line@.skip(i + 1);
            let close = find_from(&v, i + 1, ']');
            match close {
                None => {
                    proof {
                        assert forall|k: int| 0 <= k < after.len() implies after[k] != ']' by {
                            assert(after[k] == v@[k + i + 1]);
                        }
                        lemma_find_char_none(after, ']');
                    }
                    None
                },
                Some(j) => {
                    proof {
                        assert forall|k: int| 0 <= k < j - i - 1 implies after[k] != ']' by {
                            assert(after[k] == v@[k + i + 1]);
                        }
                        assert(after[j - i - 1] == v@[j as int]);
                        lemma_find_char_unique(after, ']', j - i - 1);
                    }
                    let mut date: Vec<char> = Vec::new();
                    let mut k = i + 1;
                    while k < j
                        invariant
                            i + 1 <= k <= j < v@.len(),
                            date@ =~= v@.subrange(i + 1, k as int),
                        decreases j - k,
                    {
                        date.push(v[k]);
                        k = k + 1;
                    }
                    assert(date@ =~= after.take(j - i - 1));
                    match parse_i64_chars(&date) {
                        None => None,
                        Some(millis) => {
                            let before = string_of(&v, 0, i);
                            let tail = string_of(&v, j + 1, n);
                            assert(before@ =~= line@.take(i as int));
                            assert(tail@ =~= after.skip(j - i - 1 + 1));
                            Some(StampedLine { before, millis, tail })
                        },
                    }
                },
            }
        },
    }
}

/// The seconds since the epoch shifted by a time-zone offset of `tz_off`
/// minutes, as handed to the calendar conversion: `millis / 1000` (rounded
/// toward zero) plus `60 * tz_off`, taken as an unsigned 64-bit number (a
/// negative sum wraps around).
pub fn stamp_seconds(millis: i64, tz_off: i16) -> (r: u64)
    ensures
        r == ((if millis >= 0 { millis / 1000 } else { -((-millis) / 1000) }) + tz_off * 60) as u64,
{
    let secs: i64 = millis / 1000 + (tz_off as i64) * 60;
    secs as u64
}

/// The milliseconds part of a timestamp: the remainder of `millis` by 1000,
/// with the sign of `millis`.
pub fn stamp_millis(millis: i64) -> (r: i64)
    ensures
        r == millis - 1000 * (if millis >= 0 { millis / 1000 } else { -((-millis) / 1000) }),
        -1000 < r < 1000,
{
    millis % 1000
}

/// The text of a timestamp: month, day, year, hour, minute, second and
/// millisecond, as `"{m}-{d:02}-{y} {h}:{mm:02}:{s:02}.{ms:03}"` writes them.
pub open spec fn stamp_text(y: u64, m: u64, d: u64, h: u64, mm: u64, s: u64, ms: i64) -> Seq<char> {
    decimal(m as nat) + seq!['-'] + zero_pad(decimal(d as nat), 2) + seq!['-'] + decimal(y as nat)
        + seq![' '] + decimal(h as nat) + seq![':'] + zero_pad(decimal(mm as nat), 2) + seq![':']
        + zero_pad(decimal(s as nat), 2) + seq!['.'] + signed_padded(ms as int, 3)
}

/// Writes a timestamp as `stamp_text` describes.
pub fn format_stamp(y: u64, m: u64, d: u64, h: u64, mm: u64, s: u64, ms: i64) -> (r: String)
    ensures
        r@ == stamp_text(y, m, d, h, mm, s, ms),
{
    let mut out = String::new();
    push_decimal(&mut out, m);
    push_char(&mut out, '-');
    push_padded(&mut out, d, 2);
    push_char(&mut out, '-');
    push_decimal(&mut out, y);
    push_char(&mut out, ' ');
    push_decimal(&mut out, h);
    push_char(&mut out, ':');
    push_padded(&mut out, mm, 2);
    push_char(&mut out, ':');
    push_padded(&mut out, s, 2);
    push_char(&mut out, '.');
    push_signed_padded(&mut out, ms, 3);
    assert(out@ =~= stamp_text(y, m, d, h, mm, s, ms));
    out
}

/// The line shown for a stamped line: the text before the timestamp, a space,
/// the (styled) timestamp, a space and the text after it.
pub fn join_stamped(before: &str, stamp: &str, tail: &str) -> (r: String)
    ensures
        r@ == before@ + seq![' '] + stamp@ + seq![' '] + tail@,
{
    let mut out = before.to_owned();
    push_char(&mut out, ' ');
    out.append(stamp);
    push_char(&mut out, ' ');
    out.append(tail);
    assert(out@ =~= before@ + seq![' '] + stamp@ + seq![' '] + tail@);
    out
}

/// A stamped line is the text before its timestamp, `[`, the timestamp's digits,
/// `]` and the text after it; the text before holds no `[`.
pub proof fn lemma_stamp_parts_rebuild(line: Seq<char>)
    requires
        stamp_parts(line) is Some,
    ensures
        ({
            let p = stamp_parts(line).unwrap();
            exists|date: Seq<char>|
                #![trigger parse_i64(date)]
                parse_i64(date) == Some(p.1) && line == p.0 + seq!['['] + date + seq![']'] + p.2
        }),
        forall|k: int| 0 <= k < stamp_parts(line).unwrap().0.len() ==> stamp_parts(line).unwrap().0[k] != '[',
{
    lemma_find_char_props(line, '[');
    let i = find_char(line, '[').unwrap() as int;
    let after = line.skip(i + 1 as int);
    lemma_find_char_props(after, ']');
    let j = find_char(after, ']').unwrap() as int;
    let date = after.take(j);
    assert(line =~= line.take(i) + seq!['['] + date + seq![']'] + after.skip(j + 1));
}

/// The written timestamp reads back field by field: the month, `-`, the day in
/// two digits, `-`, the year, a space, the hour, `:`, the minute in two digits,
/// `:`, the second in two digits, `.`, and the milliseconds: three digits of value
/// `ms` when `ms` is not negative, else `-` and at least two digits of value `-ms`.
pub proof fn lemma_stamp_text_fields(y: u64, m: u64, d: u64, h: u64, mm: u64, s: u64, ms: i64)
    requires
        d < 100,
        mm < 100,
        s < 100,
        -1000 < ms < 1000,
    ensures
        ({
            let t = stamp_text(y, m, d, h, mm, s, ms);
            let lm = decimal(m as nat).len() as int;
            let ly = decimal(y as nat).len() as int;
            let lh = decimal(h as nat).len() as int;
            let p1 = lm + 4 + ly;
            let p2 = p1 + 1 + lh;
            let g = t.skip(p2 + 7);
            &&& t.len() > p2 + 7
            &&& is_number_field(t.take(lm), m as nat)
            &&& t[lm] == '-'
            &&& is_number_field(t.subrange(lm + 1, lm + 3), d as nat)
            &&& t[lm + 3] == '-'
            &&& is_number_field(t.subrange(lm + 4, p1), y as nat)
            &&& t[p1] == ' '
            &&& is_number_field(t.subrange(p1 + 1, p2), h as nat)
            &&& t[p2] == ':'
            &&& is_number_field(t.subrange(p2 + 1, p2 + 3), mm as nat)
            &&& t[p2 + 3] == ':'
            &&& is_number_field(t.subrange(p2 + 4, p2 + 6), s as nat)
            &&& t[p2 + 6] == '.'
            &&& ms >= 0 ==> g.len() == 3 && is_number_field(g, ms as nat)
            &&& ms < 0 ==> g.len() >= 3 && g[0] == '-' && is_number_field(g.drop_first(), (0 - ms) as nat)
        }),
{
    lemma_padded_field(m as nat, 0);
    lemma_padded_field(d as nat, 2);
    lemma_padded_field(y as nat, 0);
    lemma_padded_field(h as nat, 0);
    lemma_padded_field(mm as nat, 2);
    lemma_padded_field(s as nat, 2);
    let fm = decimal(m as nat);
    let fd = zero_pad(decimal(d as nat), 2);
    let fy = decimal(y as nat);
    let fh = decimal(h as nat);
    let fmm = zero_pad(decimal(mm as nat), 2);
    let fs = zero_pad(decimal(s as nat), 2);
    assert(zero_pad(fm, 0) == fm);
    assert(zero_pad(fy, 0) == fy);
    assert(zero_pad(fh, 0) == fh);
    let g = signed_padded(ms as int, 3);
    if ms >= 0 {
        lemma_padded_field(ms as nat, 3);
    } else {
        lemma_padded_field((0 - ms) as nat, 2);
        assert(g.drop_first() =~= zero_pad(decimal((0 - ms) as nat), 2));
    }
    let t = stamp_text(y, m, d, h, mm, s, ms);
    let lm = fm.len() as int;
    let ly = fy.len() as int;
    let lh = fh.len() as int;
    let p1 = lm + 4 + ly;
    let p2 = p1 + 1 + lh;
    assert(t =~= fm + seq!['-'] + fd + seq!['-'] + fy + seq![' '] + fh + seq![':'] + fmm + seq![':'] + fs
        + seq!['.'] + g);
    assert(t.take(lm) =~= fm);
    assert(t.subrange(lm + 1, lm + 3) =~= fd);
    assert(t.subrange(lm + 4, p1) =~= fy);
    assert(t.subrange(p1 + 1, p2) =~= fh);
    assert(t.subrange(p2 + 1, p2 + 3) =~= fmm);
    assert(t.subrange(p2 + 4, p2 + 6) =~= fs);
    assert(t.skip(p2 + 7) =~= g);
}

} // verus!

//! Decimal integers as text: the syntax that `str::parse::<i64>` accepts, and the
//! digits that `format!` writes for an integer, optionally zero-padded.

use vstd::prelude::*;

verus! {

/// An ASCII decimal digit.
pub open spec fn is_digit(c: char) -> bool {
    48 <= (c as u32) <= 57
}

/// The value of a decimal digit character.
pub open spec fn digit_value(c: char) -> nat {
    ((c as u32) - 48) as nat
}

/// Every character of `s` is a decimal digit.
pub open spec fn all_digits(s: Seq<char>) -> bool {
    forall|i: int| 0 <= i < s.len() ==> is_digit(#[trigger] s[i])
}

/// The number written by the decimal digits `s` (most significant first).
pub open spec fn digits_value(s: Seq<char>) -> nat
    decreases s.len(),
{
    if s.len() == 0 {
        0
    } else {
        digits_value(s.drop_last()) * 10 + digit_value(s.last())
    }
}

/// What `str::parse::<i64>` gives for the text `s`: an optional `+` or `-`, then
/// at least one decimal digit and nothing else, with a value that fits in an `i64`.
pub open spec fn parse_i64(s: Seq<char>) -> Option<i64> {
    let neg = s.len() > 0 && s[0] == '-';
    let signed = s.len() > 0 && (s[0] == '-' || s[0] == '+');
    let body = if signed {
        s.drop_first()
    } else {
        s
    };
    if body.len() > 0 && all_digits(body) {
        let v = digits_value(body);
        if neg {
            if v <= 0x8000_0000_0000_0000 {
                Some((0 - v) as i64)
            } else {
                None
            }
        } else if v <= 0x7fff_ffff_ffff_ffff {
            Some(v as i64)
        } else {
            None
        }
    } else {
        None
    }
}

proof fn lemma_digits_value_prefix(s: Seq<char>, k: int)
    requires
        0 <= k <= s.len(),
        all_digits(s),
    ensures
        digits_value(s.take(k)) <= digits_value(s),
    decreases s.len(),
{
    if k < s.len() {
        assert(s.drop_last().take(k) =~= s.take(k));
        assert(all_digits(s.drop_last())) by {
            assert forall|i: int| 0 <= i < s.drop_last().len() implies is_digit(
                #[trigger] s.drop_last()[i],
            ) by {
                assert(s.drop_last()[i] == s[i]);
            }
        }
        lemma_digits_value_prefix(s.drop_last(), k);
    } else {
        assert(s.take(k) =~= s);
    }
}

/// Reads the characters `v` as `str::parse::<i64>` does.
pub fn parse_i64_chars(v: &Vec<char>) -> (r: Option<i64>)
    ensures
        r == parse_i64(v@),
{
    let n = v.len();
    let neg = n > 0 && v[0] == '-';
    let signed = n > 0 && (v[0] == '-' || v[0] == '+');
    let st: usize = if signed {
        1
    } else {
        0
    };
    let ghost body = if signed {
        v@.drop_first()
    } else {
        v@
    };
    assert(body =~= v@.subrange(st as int, n as int));
    if st == n {
        return None;
    }
    let limit: u128 = if neg {
        0x8000_0000_0000_0000
    } else {
        0x7fff_ffff_ffff_ffff
    };
    let mut mag: u128 = 0;
    let mut i: usize = st;
    assert(body.take(0) =~= Seq::<char>::empty());
    while i < n
        invariant
            n == v@.len(),
            st <= i <= n,
            body =~= v@.subrange(st as int, n as int),
            mag == digits_value(body.take(i - st)),
            mag <= limit,
            limit == (if neg { 0x8000_0000_0000_0000u128 } else { 0x7fff_ffff_ffff_ffffu128 }),
            all_digits(body.take(i - st)),
            neg == (v@.len() > 0 && v@[0] == '-'),
            signed == (v@.len() > 0 && (v@[0] == '-' || v@[0] == '+')),
            body == (if signed { v@.drop_first() } else { v@ }),
            st == (if signed { 1usize } else { 0usize }),
        decreases n - i,
    {
        let u = v[i] as u32;
        if u < 48 || u > 57 {
            assert(body[i - st] == v@[i as int]);
            assert(!is_digit(body[i - st]));
            return None;
        }
        let ghost k = (i - st) as int;
        assert(body.take(k + 1).drop_last() =~= body.take(k));
        assert(body.take(k + 1).last() == body[k]);
        let d = (u - 48) as u128;
        let next = mag * 10 + d;
        assert(all_digits(body.take(k + 1))) by {
            assert forall|j: int| 0 <= j < k + 1 implies is_digit(#[trigger] body.take(k + 1)[j]) by {
                if j < k {
                    assert(body.take(k + 1)[j] == body.take(k)[j]);
                }
            }
        }
        if next > limit {
            proof {
                if all_digits(body) {
                    lemma_digits_value_prefix(body, k + 1);
                }
            }
            return None;
        }
        mag = next;
        i = i + 1;
    }
    assert(body.take(n - st) =~= body);
    if neg {
        Some((0 - (mag as i128)) as i64)
    } else {
        Some(mag as i64)
    }
}

/// The decimal digit character for `d < 10`.
pub open spec fn digit_char(d: nat) -> char {
    (d + 48) as char
}

/// The shortest decimal writing of `n`, as `format!("{}", n)` gives it.
pub open spec fn decimal(n: nat) -> Seq<char>
    decreases n,
{
    if n < 10 {
        seq![digit_char(n)]
    } else {
        decimal(n / 10).push(digit_char(n % 10))
    }
}

/// `s` preceded by as many `'0'` as bring it to `width` characters.
pub open spec fn zero_pad(s: Seq<char>, width: nat) -> Seq<char> {
    if s.len() < width {
        Seq::new((width - s.len()) as nat, |i: int| '0') + s
    } else {
        s
    }
}

/// `x` written as `format!("{:0w$}", x)` writes it: the sign first, then the
/// digits, zero-padded so that sign and digits together fill `width` characters.
pub open spec fn signed_padded(x: int, width: nat) -> Seq<char> {
    if x < 0 {
        seq!['-'] + zero_pad(decimal((0 - x) as nat), if width > 0 { (width - 1) as nat } else { 0 })
    } else {
        zero_pad(decimal(x as nat), width)
    }
}

/// Appends one character to `s`.
#[verifier::external_body]
pub(crate) fn push_char(s: &mut String, c: char)
    ensures
        final(s)@ == old(s)@.push(c),
{
    s.push(c);
}

/// The digit character for `d < 10`.
pub fn digit_to_char(d: u32) -> (c: char)
    requires
        d < 10,
    ensures
        c == digit_char(d as nat),
{
    match d {
        0 => '0',
        1 => '1',
        2 => '2',
        3 => '3',
        4 => '4',
        5 => '5',
        6 => '6',
        7 => '7',
        8 => '8',
        _ => '9',
    }
}

/// Appends the decimal writing of `n` to `out`.
pub fn push_decimal(out: &mut String, n: u64)
    ensures
        final(out)@ == old(out)@ + decimal(n as nat),
    decreases n,
{
    let ghost start = out@;
    if n >= 10 {
        push_decimal(out, n / 10);
    }
    push_char(out, digit_to_char((n % 10) as u32));
    assert(out@ =~= start + decimal(n as nat));
}

/// Appends `n` zero-padded to `width` characters, as `{:0width$}` writes it.
pub fn push_padded(out: &mut String, n: u64, width: usize)
    ensures
        final(out)@ == old(out)@ + zero_pad(decimal(n as nat), width as nat),
{
    let ghost start = out@;
    let mut digits = String::new();
    push_decimal(&mut digits, n);
    assert(digits@ =~= decimal(n as nat));
    let len = digits.as_str().unicode_len();
    if len < width {
        let mut k: usize = 0;
        while k < width - len
            invariant
                len < width,
                k <= width - len,
                out@ =~= start + Seq::new(k as nat, |i: int| '0'),
            decreases width - len - k,
        {
            push_char(out, '0');
            k = k + 1;
        }
    }
    out.append(digits.as_str());
    assert(out@ =~= start + zero_pad(decimal(n as nat), width as nat));
}

/// Appends `x` with its sign and zero-padded to `width` characters in all, as
/// `{:0width$}` writes a signed integer.
pub fn push_signed_padded(out: &mut String, x: i64, width: usize)
    ensures
        final(out)@ == old(out)@ + signed_padded(x as int, width as nat),
{
    let ghost start = out@;
    if x < 0 {
        push_char(out, '-');
        let mag: u64 = (0 - (x as i128)) as u64;
        let w = if width > 0 {
            width - 1
        } else {
            0
        };
        push_padded(out, mag, w);
        assert(out@ =~= start + signed_padded(x as int, width as nat));
    } else {
        push_padded(out, x as u64, width);
    }
}

/// `c` in lower case, for the ASCII letters.
pub open spec fn ascii_lower(c: char) -> char {
    if 65 <= (c as u32) <= 90 {
        ((c as u32) + 32) as char
    } else {
        c
    }
}

/// A character allowed in the significand of a floating-point literal.
pub open spec fn is_mantissa_char(c: char) -> bool {
    is_digit(c) || c == '.'
}

/// The significand of a floating-point literal: digits with at most one decimal
/// point, and at least one digit (`1`, `1.`, `.5`, `1.5`).
pub open spec fn is_mantissa(m: Seq<char>) -> bool {
    &&& forall|i: int| 0 <= i < m.len() ==> is_mantissa_char(#[trigger] m[i])
    &&& forall|i: int, j: int| 0 <= i < j < m.len() ==> !(#[trigger] m[i] == '.' && #[trigger] m[j] == '.')
    &&& exists|i: int| 0 <= i < m.len() && is_digit(#[trigger] m[i])
}

/// The exponent digits of a floating-point literal, after the `e`: an optional
/// sign and at least one digit.
pub open spec fn is_exponent(x: Seq<char>) -> bool {
    if x.len() > 0 && (x[0] == '+' || x[0] == '-') {
        x.len() > 1 && all_digits(x.drop_first())
    } else {
        x.len() > 0 && all_digits(x)
    }
}

/// A number, lower-cased: a significand, then optionally `e` and an exponent.
pub open spec fn is_number_literal(l: Seq<char>) -> bool {
    exists|k: int|
        0 <= k <= l.len() && #[trigger] is_mantissa(l.take(k)) && (k == l.len() || (l[k] == 'e'
            && is_exponent(l.skip(k + 1))))
}

/// The texts that `str::parse::<f64>` accepts, by the grammar in its
/// documentation: an optional sign, then `inf`, `infinity`, `nan` or a number,
/// letters in either case, and nothing else (no surrounding whitespace).
pub open spec fn is_float_literal(s: Seq<char>) -> bool {
    let body = if s.len() > 0 && (s[0] == '+' || s[0] == '-') {
        s.drop_first()
    } else {
        s
    };
    let l = body.map_values(|c: char| ascii_lower(c));
    ||| l == seq!['i', 'n', 'f']
    ||| l == seq!['i', 'n', 'f', 'i', 'n', 'i', 't', 'y']
    ||| l == seq!['n', 'a', 'n']
    ||| is_number_literal(l)
}

fn lower_char(c: char) -> (r: char)
    ensures
        r == ascii_lower(c),
{
    let u = c as u32;
    if 65 <= u && u <= 90 {
        let lc = (u + 32) as u8;
        lc as char
    } else {
        c
    }
}

fn is_digit_char(c: char) -> (r: bool)
    ensures
        r == is_digit(c),
{
    let u = c as u32;
    48 <= u && u <= 57
}

fn all_digits_from(v: &Vec<char>, start: usize) -> (r: bool)
    requires
        start <= v@.len(),
    ensures
        r == all_digits(v@.skip(start as int)),
{
    let mut i = start;
    while i < v.len()
        invariant
            start <= i <= v@.len(),
            forall|j: int| start <= j < i ==> is_digit(#[trigger] v@[j]),
        decreases v@.len() - i,
    {
        if !is_digit_char(v[i]) {
            assert(v@.skip(start as int)[i - start] == v@[i as int]);
            return false;
        }
        i = i + 1;
    }
    assert forall|j: int| 0 <= j < v@.skip(start as int).len() implies is_digit(
        #[trigger] v@.skip(start as int)[j],
    ) by {
        assert(v@.skip(start as int)[j] == v@[j + start]);
    }
    true
}

fn exponent_ok(v: &Vec<char>, start: usize) -> (r: bool)
    requires
        start <= v@.len(),
    ensures
        r == is_exponent(v@.skip(start as int)),
{
    let n = v.len();
    if start < n && (v[start] == '+' || v[start] == '-') {
        assert(v@.skip(start as int).drop_first() =~= v@.skip(start + 1));
        start + 1 < n && all_digits_from(v, start + 1)
    } else {
        start < n && all_digits_from(v, start)
    }
}

fn text_is(v: &Vec<char>, w: &str) -> (r: bool)
    ensures
        r == (v@ == w@),
{
    crate::text::same_chars(v, &crate::text::chars_of(w))
}

proof fn lemma_no_split(l: Seq<char>, k: int)
    requires
        0 <= k <= l.len(),
        forall|i: int| 0 <= i < k ==> is_mantissa_char(#[trigger] l[i]),
        k < l.len() ==> !is_mantissa_char(l[k]),
        !(is_mantissa(l.take(k)) && (k == l.len() || (l[k] == 'e' && is_exponent(l.skip(k + 1))))),
    ensures
        !is_number_literal(l),
{
    assert forall|k2: int|
        0 <= k2 <= l.len() && #[trigger] is_mantissa(l.take(k2)) implies !(k2 == l.len() || (
    l[k2] == 'e' && is_exponent(l.skip(k2 + 1)))) by {
        if k2 > k {
            assert(l.take(k2)[k] == l[k]);
        } else if k2 < k {
            assert(is_mantissa_char(l[k2]));
        }
    }
}

/// Tells whether `s` is a text that `str::parse::<f64>` accepts.
pub fn is_float_text(s: &str) -> (r: bool)
    ensures
        r == is_float_literal(s@),
{
    let v = crate::text::chars_of(s);
    let n = v.len();
    let start: usize = if n > 0 && (v[0] == '+' || v[0] == '-') {
        1
    } else {
        0
    };
    let ghost body = if s@.len() > 0 && (s@[0] == '+' || s@[0] == '-') {
        s@.drop_first()
    } else {
        s@
    };
    assert(body =~= v@.skip(start as int));
    let mut l: Vec<char> = Vec::new();
    let mut i = start;
    while i < n
        invariant
            n == v@.len(),
            start <= i <= n,
            l@ =~= v@.subrange(start as int, i as int).map_values(|c: char| ascii_lower(c)),
        decreases n - i,
    {
        l.push(lower_char(v[i]));
        i = i + 1;
    }
    assert(l@ =~= body.map_values(|c: char| ascii_lower(c)));
    let ghost sl = body.map_values(|c: char| ascii_lower(c));
    assert(l@ == sl);
    proof {
        reveal_strlit("inf");
        reveal_strlit("infinity");
        reveal_strlit("nan");
        assert("inf"@ =~= seq!['i', 'n', 'f']);
        assert("infinity"@ =~= seq!['i', 'n', 'f', 'i', 'n', 'i', 't', 'y']);
        assert("nan"@ =~= seq!['n', 'a', 'n']);
    }
    if text_is(&l, "inf") || text_is(&l, "infinity") || text_is(&l, "nan") {
        return true;
    }
    is_number_chars(&l)
}

/// Tells whether the (lower-cased) characters `l` form a number literal.
fn is_number_chars(l: &Vec<char>) -> (r: bool)
    ensures
        r == is_number_literal(l@),
{
    let m = l.len();
    let mut k: usize = 0;
    let mut dots: usize = 0;
    let mut digits: bool = false;
    while k < m && (is_digit_char(l[k]) || l[k] == '.')
        invariant
            m == l@.len(),
            k <= m,
            forall|i: int| 0 <= i < k ==> is_mantissa_char(#[trigger] l@[i]),
            dots <= 1,
            dots == 0 ==> forall|i: int| 0 <= i < k ==> l@[i] != '.',
            dots == 1 ==> exists|i: int| 0 <= i < k && l@[i] == '.',
            dots == 1 ==> forall|i: int, j: int| 0 <= i < j < k ==> !(#[trigger] l@[i] == '.'
                && #[trigger] l@[j] == '.'),
            digits == exists|i: int| 0 <= i < k && is_digit(#[trigger] l@[i]),
        decreases m - k,
    {
        if l[k] == '.' {
            if dots == 1 {
                proof {
                    let d = choose|i: int| 0 <= i < k && l@[i] == '.';
                    assert forall|k2: int|
                        0 <= k2 <= l@.len() && #[trigger] is_mantissa(l@.take(k2)) implies !(k2
                        == l@.len() || (l@[k2] == 'e' && is_exponent(l@.skip(k2 + 1)))) by {
                        if k2 > k {
                            assert(l@.take(k2)[d] == '.' && l@.take(k2)[k as int] == '.');
                        } else {
                            assert(is_mantissa_char(l@[k2]));
                        }
                    }
                }
                return false;
            }
            dots = 1;
        } else {
            digits = true;
        }
        k = k + 1;
    }
    let ghost lt = l@.take(k as int);
    assert forall|i: int| 0 <= i < lt.len() implies is_mantissa_char(#[trigger] lt[i]) by {
        assert(lt[i] == l@[i]);
    }
    let mant = digits;
    proof {
        if digits {
            let w = choose|i: int| 0 <= i < k && is_digit(#[trigger] l@[i]);
            assert(lt[w] == l@[w]);
        } else {
            assert forall|i: int| 0 <= i < lt.len() implies !is_digit(#[trigger] lt[i]) by {
                assert(lt[i] == l@[i]);
            }
        }
        assert forall|i: int, j: int| 0 <= i < j < lt.len() implies !(#[trigger] lt[i] == '.'
            && #[trigger] lt[j] == '.') by {
            assert(lt[i] == l@[i] && lt[j] == l@[j]);
        }
        assert(mant == is_mantissa(lt));
    }
    let r = if k == m {
        mant
    } else if l[k] == 'e' {
        mant && exponent_ok(&l, k + 1)
    } else {
        false
    };
    proof {
        if r {
            assert(is_mantissa(l@.take(k as int)));
        } else {
            lemma_no_split(l@, k as int);
        }
    }
    r
}

proof fn lemma_decimal_digits(n: nat)
    ensures
        decimal(n).len() > 0,
        all_digits(decimal(n)),
        digits_value(decimal(n)) == n,
    decreases n,
{
    let d = n % 10;
    assert(digit_value(digit_char(d)) == d);
    if n >= 10 {
        lemma_decimal_digits(n / 10);
        let s = decimal(n);
        assert(s.drop_last() =~= decimal(n / 10));
        assert(s.last() == digit_char(d));
        assert(digits_value(s) == digits_value(decimal(n / 10)) * 10 + d);
        assert((n / 10) * 10 + n % 10 == n);
        assert forall|i: int| 0 <= i < s.len() implies is_digit(#[trigger] s[i]) by {
            if i < s.len() - 1 {
                assert(s[i] == decimal(n / 10)[i]);
            }
        }
    } else {
        assert(decimal(n).drop_last() =~= Seq::<char>::empty());
        assert(digits_value(Seq::<char>::empty()) == 0);
        assert(decimal(n).last() == digit_char(d));
    }
}

/// Reading back the decimal writing of a number gives the number:
/// `parse::<i64>` undoes `format!("{}", n)` for every `n` that fits in an `i64`.
pub proof fn lemma_parse_decimal(n: nat)
    requires
        n <= 0x7fff_ffff_ffff_ffff,
    ensures
        parse_i64(decimal(n)) == Some(n as i64),
{
    lemma_decimal_digits(n);
    assert(is_digit(decimal(n)[0]));
}

/// Reading back the writing of a negative number, sign included, gives the number.
pub proof fn lemma_parse_negative_decimal(n: nat)
    requires
        0 < n <= 0x8000_0000_0000_0000,
    ensures
        parse_i64(seq!['-'] + decimal(n)) == Some((0 - n) as i64),
{
    lemma_decimal_digits(n);
    assert((seq!['-'] + decimal(n)).drop_first() =~= decimal(n));
}

/// A field of a written record: at least one digit, only digits, and the
/// number `v` as their value.
pub open spec fn is_number_field(f: Seq<char>, v: nat) -> bool {
    f.len() > 0 && all_digits(f) && digits_value(f) == v
}

proof fn lemma_zeros_value(k: nat)
    ensures
        all_digits(Seq::new(k, |i: int| '0')),
        digits_value(Seq::new(k, |i: int| '0')) == 0,
    decreases k,
{
    if k > 0 {
        lemma_zeros_value((k - 1) as nat);
        assert(Seq::new(k, |i: int| '0').drop_last() =~= Seq::new((k - 1) as nat, |i: int| '0'));
    }
}

proof fn lemma_leading_zeros(z: Seq<char>, s: Seq<char>)
    requires
        all_digits(z),
        digits_value(z) == 0,
    ensures
        digits_value(z + s) == digits_value(s),
    decreases s.len(),
{
    if s.len() == 0 {
        assert(z + s =~= z);
    } else {
        assert((z + s).drop_last() =~= z + s.drop_last());
        assert((z + s).last() == s.last());
        lemma_leading_zeros(z, s.drop_last());
    }
}

/// The decimal writing of `n` padded with zeros to `width` characters is a field
/// of value `n`, `width` characters long when `n` has no more digits than that.
pub proof fn lemma_padded_field(n: nat, width: nat)
    ensures
        is_number_field(zero_pad(decimal(n), width), n),
        n < 10 ==> decimal(n).len() == 1,
        n < 100 ==> decimal(n).len() <= 2,
        n < 1000 ==> decimal(n).len() <= 3,
        zero_pad(decimal(n), width).len() == if decimal(n).len() < width {
            width as int
        } else {
            decimal(n).len() as int
        },
{
    lemma_decimal_digits(n);
    if n >= 10 {
        lemma_decimal_digits(n / 10);
        if n / 10 >= 10 {
            lemma_decimal_digits(n / 100);
            assert(n / 10 / 10 == n / 100);
        }
    }
    let d = decimal(n);
    if d.len() < width {
        let z = Seq::new((width - d.len()) as nat, |i: int| '0');
        lemma_zeros_value((width - d.len()) as nat);
        lemma_leading_zeros(z, d);
        assert forall|i: int| 0 <= i < (z + d).len() implies is_digit(#[trigger] (z + d)[i]) by {
            if i < z.len() {
                assert((z + d)[i] == z[i]);
            } else {
                assert((z + d)[i] == d[i - z.len()]);
            }
        }
    }
}

} // verus!

//! Decimal rendering and parsing of integers, with exact character-level
//! specifications. Test file names, generated array inputs and the timing
//! harness protocol all go through these functions.
use vstd::prelude::*;

verus! {

/// The decimal digit character for a value below ten.
pub open spec fn dec_digit(d: int) -> char {
    if d == 0 {
        '0'
    } else if d == 1 {
        '1'
    } else if d == 2 {
        '2'
    } else if d == 3 {
        '3'
    } else if d == 4 {
        '4'
    } else if d == 5 {
        '5'
    } else if d == 6 {
        '6'
    } else if d == 7 {
        '7'
    } else if d == 8 {
        '8'
    } else {
        '9'
    }
}

/// The decimal rendering of a natural number, most significant digit first.
pub open spec fn dec_rep(n: nat) -> Seq<char>
    decreases n,
{
    if n < 10 {
        seq![dec_digit(n as int)]
    } else {
        dec_rep(n / 10).push(dec_digit((n % 10) as int))
    }
}

/// The decimal rendering of an integer, with a leading minus sign when negative.
pub open spec fn int_rep(v: int) -> Seq<char> {
    if v < 0 {
        seq!['-'] + dec_rep((-v) as nat)
    } else {
        dec_rep(v as nat)
    }
}

/// The digit character for `d`, which must be below ten.
pub fn digit_char(d: u64) -> (c: char)
    requires
        d < 10,
    ensures
        c == dec_digit(d as int),
{
    if d == 0 {
        '0'
    } else if d == 1 {
        '1'
    } else if d == 2 {
        '2'
    } else if d == 3 {
        '3'
    } else if d == 4 {
        '4'
    } else if d == 5 {
        '5'
    } else if d == 6 {
        '6'
    } else if d == 7 {
        '7'
    } else if d == 8 {
        '8'
    } else {
        '9'
    }
}

/// Appends the decimal rendering of `n` to `s`.
pub fn push_u64_dec(s: &mut String, n: u64)
    ensures
        final(s)@ == old(s)@ + dec_rep(n as nat),
    decreases n,
{
    if n >= 10 {
        push_u64_dec(s, n / 10);
        crate::text::string_push_char(s, digit_char(n % 10));
    } else {
        crate::text::string_push_char(s, digit_char(n));
    }
    proof {
        assert(final(s)@ =~= old(s)@ + dec_rep(n as nat));
    }
}

/// Appends the decimal rendering of `n` to `v`.
pub fn push_u64_dec_chars(v: &mut Vec<char>, n: u64)
    ensures
        final(v)@ == old(v)@ + dec_rep(n as nat),
    decreases n,
{
    if n >= 10 {
        push_u64_dec_chars(v, n / 10);
        v.push(digit_char(n % 10));
    } else {
        v.push(digit_char(n));
    }
    proof {
        assert(final(v)@ =~= old(v)@ + dec_rep(n as nat));
    }
}

/// Appends the decimal rendering of `v`, sign included, to `s`.
pub fn push_i32_dec(s: &mut String, v: i32)
    ensures
        final(s)@ == old(s)@ + int_rep(v as int),
{
    if v < 0 {
        crate::text::string_push_char(s, '-');
        let m: i64 = -(v as i64);
        push_u64_dec(s, m as u64);
        proof {
            assert(final(s)@ =~= old(s)@ + int_rep(v as int));
        }
    } else {
        push_u64_dec(s, v as u64);
    }
}

/// The decimal rendering of `n` alone.
pub fn u64_to_string(n: u64) -> (r: String)
    ensures
        r@ == dec_rep(n as nat),
{
    let mut s = String::new();
    push_u64_dec(&mut s, n);
    proof {
        assert(s@ =~= dec_rep(n as nat));
    }
    s
}

/// The decimal rendering of `n`, left-padded with zeros to at least `width`
/// characters.
pub open spec fn padded_dec(n: nat, width: nat) -> Seq<char> {
    let d = dec_rep(n);
    if d.len() >= width {
        d
    } else {
        Seq::new((width - d.len()) as nat, |i: int| '0') + d
    }
}

/// Appends the zero-padded decimal rendering of `n` to `s`.
pub fn push_padded_dec(s: &mut String, n: u64, width: usize)
    ensures
        final(s)@ == old(s)@ + padded_dec(n as nat, width as nat),
{
    let mut digits: Vec<char> = Vec::new();
    push_u64_dec_chars(&mut digits, n);
    let d = digits.len();
    if d < width {
        let mut k: usize = 0;
        while k < width - d
            invariant
                d == dec_rep(n as nat).len(),
                d < width,
                k <= width - d,
                s@ == old(s)@ + Seq::new(k as nat, |i: int| '0'),
            decreases width - d - k,
        {
            crate::text::string_push_char(s, '0');
            k = k + 1;
            proof {
                assert(s@ =~= old(s)@ + Seq::new(k as nat, |i: int| '0'));
            }
        }
    }
    let mut j: usize = 0;
    let ghost mid = s@;
    while j < digits.len()
        invariant
            digits@ == dec_rep(n as nat),
            j <= digits@.len(),
            s@ == mid + digits@.take(j as int),
        decreases digits@.len() - j,
    {
        crate::text::string_push_char(s, digits[j]);
        j = j + 1;
        proof {
            assert(s@ =~= mid + digits@.take(j as int));
        }
    }
    proof {
        assert(digits@.take(digits@.len() as int) =~= digits@);
        assert(s@ =~= old(s)@ + padded_dec(n as nat, width as nat));
    }
}

/// True of a decimal digit character.
pub open spec fn is_dec_digit(c: char) -> bool {
    '0' <= c && c <= '9'
}

/// The value of a digit character.
pub open spec fn digit_val(c: char) -> int {
    c as int - '0' as int
}

/// True when every character of `s` is a decimal digit.
pub open spec fn all_digits(s: Seq<char>) -> bool {
    forall|i: int| 0 <= i < s.len() ==> is_dec_digit(#[trigger] s[i])
}

/// The value of a digit string, most significant digit first.
pub open spec fn digits_val(s: Seq<char>) -> int
    decreases s.len(),
{
    if s.len() == 0 {
        0
    } else {
        digits_val(s.drop_last()) * 10 + digit_val(s.last())
    }
}

/// True when `t` has the shape of an integer token: an optional sign followed
/// by at least one digit.
pub open spec fn int_token(t: Seq<char>) -> bool {
    if t.len() == 0 {
        false
    } else if t[0] == '-' || t[0] == '+' {
        t.len() >= 2 && all_digits(t.skip(1))
    } else {
        all_digits(t)
    }
}

/// The integer value of an integer token.
pub open spec fn int_token_val(t: Seq<char>) -> int {
    if t[0] == '-' {
        -digits_val(t.skip(1))
    } else if t[0] == '+' {
        digits_val(t.skip(1))
    } else {
        digits_val(t)
    }
}

/// True when `t` is an integer token whose value fits in an `i32`.
pub open spec fn parses_as_i32(t: Seq<char>) -> bool {
    int_token(t) && i32::MIN <= int_token_val(t) <= i32::MAX
}

proof fn lemma_digits_val_nonneg(s: Seq<char>)
    requires
        all_digits(s),
    ensures
        digits_val(s) >= 0,
    decreases s.len(),
{
    if s.len() > 0 {
        assert(all_digits(s.drop_last()));
        lemma_digits_val_nonneg(s.drop_last());
    }
}

proof fn lemma_digits_val_mono(s: Seq<char>, i: int)
    requires
        all_digits(s),
        0 <= i <= s.len(),
    ensures
        digits_val(s.take(i)) <= digits_val(s),
    decreases s.len() - i,
{
    if i < s.len() {
        lemma_digits_val_mono(s, i + 1);
        let a = s.take(i);
        let b = s.take(i + 1);
        assert(b.drop_last() =~= a);
        assert(all_digits(a));
        lemma_digits_val_nonneg(a);
        assert(digits_val(b) == digits_val(a) * 10 + digit_val(b.last()));
        assert(is_dec_digit(b.last()));
        assert(digits_val(a) <= digits_val(a) * 10) by (nonlinear_arith)
            requires digits_val(a) >= 0;
    } else {
        assert(s.take(i) =~= s);
    }
}

/// Decides whether `c` is a decimal digit.
pub fn dec_digit_char(c: char) -> (r: bool)
    ensures
        r == is_dec_digit(c),
{
    '0' <= c && c <= '9'
}

/// Parses the characters of one token as an `i32`, exactly when the token is
/// an optionally signed decimal numeral whose value fits.
pub fn parse_i32_chars(t: &Vec<char>) -> (r: Option<i32>)
    ensures
        r is Some <==> parses_as_i32(t@),
        r is Some ==> r->0 as int == int_token_val(t@),
{
    let n = t.len();
    if n == 0 {
        return None;
    }
    let c0 = t[0];
    let negative = c0 == '-';
    let signed = negative || c0 == '+';
    let start: usize = if signed {
        1
    } else {
        0
    };
    if n == start {
        return None;
    }
    let ghost digits = t@.skip(start as int);
    let mut acc: u64 = 0;
    let mut i: usize = start;
    while i < n
        invariant
            n == t@.len(),
            start <= i <= n,
            start == 1 || start == 0,
            signed == (start == 1),
            negative ==> signed,
            signed == (t@[0] == '-' || t@[0] == '+'),
            negative == (t@[0] == '-'),
            n > start,
            digits == t@.skip(start as int),
            all_digits(digits.take(i - start)),
            acc as int == digits_val(digits.take(i - start)),
            acc <= 0x8000_0000,
        decreases n - i,
    {
        let c = t[i];
        if !dec_digit_char(c) {
            proof {
                assert(digits[i - start] == c);
                assert(!all_digits(digits));
                if t@[0] != '-' && t@[0] != '+' {
                    assert(digits =~= t@);
                }
            }
            return None;
        }
        let d: u64 = (c as u32 as u64) - ('0' as u32 as u64);
        proof {
            assert(digits.take(i + 1 - start).drop_last() =~= digits.take(i - start));
            assert(digits.take(i + 1 - start).last() == c);
            assert(d as int == digit_val(c));
        }
        let next: u64 = acc * 10 + d;
        if next > 0x8000_0000 {
            proof {
                assert(all_digits(digits.take(i + 1 - start)));
                if int_token(t@) {
                    if t@[0] != '-' && t@[0] != '+' {
                        assert(digits =~= t@);
                    }
                    assert(all_digits(digits));
                    lemma_digits_val_mono(digits, i + 1 - start);
                    assert(digits_val(digits) > 0x8000_0000);
                    if t@[0] == '-' {
                        assert(int_token_val(t@) < i32::MIN);
                    } else {
                        assert(int_token_val(t@) > i32::MAX);
                    }
                }
            }
            return None;
        }
        acc = next;
        i = i + 1;
    }
    proof {
        assert(digits.take(n - start) =~= digits);
        assert(all_digits(digits));
        if t@[0] != '-' && t@[0] != '+' {
            assert(digits =~= t@);
        }
        assert(int_token(t@));
        assert(acc as int == digits_val(digits));
        if t@[0] == '-' {
            assert(int_token_val(t@) == -(acc as int));
        } else {
            assert(int_token_val(t@) == acc as int);
        }
    }
    if negative {
        let v: i64 = -(acc as i64);
        Some(v as i32)
    } else {
        if acc > 0x7fff_ffff {
            proof {
                assert(int_token_val(t@) > i32::MAX);
            }
            return None;
        }
        Some(acc as i32)
    }
}

/// Parses a whole text as an `i32` numeral.
pub fn parse_i32_str(s: &str) -> (r: Option<i32>)
    ensures
        r is Some <==> parses_as_i32(s@),
        r is Some ==> r->0 as int == int_token_val(s@),
{
    let chars = crate::text::chars_of(s);
    parse_i32_chars(&chars)
}

} // verus!

//! The fixed-point numeric format: an optionally signed token of one to three
//! integer digits, a dot and exactly one fraction digit, held as an exact
//! integer number of tenths.

use vstd::prelude::*;

verus! {

/// Decimal point inside a value token.
pub const DOT: u8 = 46;

/// Leading sign of a negative value token.
pub const MINUS: u8 = 45;

pub open spec fn is_ascii_digit(b: u8) -> bool {
    48 <= b <= 57
}

pub open spec fn digit_val(b: u8) -> int {
    b - 48
}

/// An unsigned token: `d.d`, `dd.d` or `ddd.d`.
pub open spec fn valid_unsigned_token(s: Seq<u8>) -> bool {
    ||| (s.len() == 3 && is_ascii_digit(s[0]) && s[1] == DOT && is_ascii_digit(s[2]))
    ||| (s.len() == 4 && is_ascii_digit(s[0]) && is_ascii_digit(s[1]) && s[2] == DOT
        && is_ascii_digit(s[3]))
    ||| (s.len() == 5 && is_ascii_digit(s[0]) && is_ascii_digit(s[1]) && is_ascii_digit(s[2])
        && s[3] == DOT && is_ascii_digit(s[4]))
}

/// Tenths denoted by an unsigned token: the integer part scaled by ten plus
/// the fraction digit.
pub open spec fn unsigned_token_value(s: Seq<u8>) -> int {
    if s.len() == 3 {
        digit_val(s[0]) * 10 + digit_val(s[2])
    } else if s.len() == 4 {
        digit_val(s[0]) * 100 + digit_val(s[1]) * 10 + digit_val(s[3])
    } else {
        digit_val(s[0]) * 1000 + digit_val(s[1]) * 100 + digit_val(s[2]) * 10 + digit_val(s[4])
    }
}

/// A value token: an unsigned token with an optional leading minus.
pub open spec fn valid_token(s: Seq<u8>) -> bool {
    if s.len() > 0 && s[0] == MINUS {
        valid_unsigned_token(s.subrange(1, s.len() as int))
    } else {
        valid_unsigned_token(s)
    }
}

/// Tenths denoted by a value token.
pub open spec fn token_value(s: Seq<u8>) -> int {
    if s.len() > 0 && s[0] == MINUS {
        -unsigned_token_value(s.subrange(1, s.len() as int))
    } else {
        unsigned_token_value(s)
    }
}

/// Every valid token denotes a value within four decimal digits of tenths.
pub proof fn lemma_token_value_range(s: Seq<u8>)
    requires
        valid_token(s),
    ensures
        -9999 <= token_value(s) <= 9999,
{
}

/// Converts a value token to the exact number of tenths it denotes; rejects
/// every byte pattern outside the grammar.
pub fn parse(s: &[u8]) -> (r: Option<i32>)
    ensures
        match r {
            Some(v) => valid_token(s@) && v as int == token_value(s@),
            None => !valid_token(s@),
        },
{
    let n = s.len();
    if n == 0 {
        return None;
    }
    let neg = *vstd::slice::slice_index_get(s, 0) == MINUS;
    let off: usize = if neg { 1 } else { 0 };
    let ghost u = if neg { s@.subrange(1, n as int) } else { s@ };
    assert(u.len() == n - off);
    assert(forall|j: int| 0 <= j < u.len() ==> u[j] == s@[j + off]);
    let m = n - off;
    if m != 3 && m != 4 && m != 5 {
        return None;
    }
    let frac = *vstd::slice::slice_index_get(s, n - 1);
    let dot = *vstd::slice::slice_index_get(s, n - 2);
    if dot != DOT || frac < 48 || frac > 57 {
        return None;
    }
    let d0 = *vstd::slice::slice_index_get(s, off);
    if d0 < 48 || d0 > 57 {
        return None;
    }
    let mut whole: i32 = (d0 - 48) as i32;
    if m >= 4 {
        let d1 = *vstd::slice::slice_index_get(s, off + 1);
        if d1 < 48 || d1 > 57 {
            return None;
        }
        whole = whole * 10 + (d1 - 48) as i32;
    }
    if m == 5 {
        let d2 = *vstd::slice::slice_index_get(s, off + 2);
        if d2 < 48 || d2 > 57 {
            return None;
        }
        whole = whole * 10 + (d2 - 48) as i32;
    }
    let v = whole * 10 + (frac - 48) as i32;
    if neg {
        Some(-v)
    } else {
        Some(v)
    }
}

pub open spec fn digit_byte(d: int) -> u8 {
    (48 + d) as u8
}

/// The decimal digits of a nonnegative number, most significant first.
pub open spec fn dec_digits(n: int) -> Seq<u8>
    decreases n,
{
    if n < 10 {
        seq![digit_byte(n)]
    } else {
        dec_digits(n / 10) + seq![digit_byte(n % 10)]
    }
}

/// A nonnegative number of tenths rendered with one fraction digit.
pub open spec fn render_nonneg_tenths(n: int) -> Seq<u8> {
    dec_digits(n / 10) + seq![DOT, digit_byte(n % 10)]
}

/// A number of tenths rendered in decimal with a sign and one fraction digit.
pub open spec fn render_tenths(v: int) -> Seq<u8> {
    if v < 0 {
        seq![MINUS] + render_nonneg_tenths(-v)
    } else {
        render_nonneg_tenths(v)
    }
}

proof fn lemma_dec_digits_small(n: int)
    requires
        0 <= n <= 999,
    ensures
        1 <= dec_digits(n).len() <= 3,
        forall|i: int| 0 <= i < dec_digits(n).len() ==> is_ascii_digit(#[trigger] dec_digits(n)[i]),
        dec_digits(n).len() == 1 ==> n == digit_val(dec_digits(n)[0]),
        dec_digits(n).len() == 2 ==> n == digit_val(dec_digits(n)[0]) * 10 + digit_val(
            dec_digits(n)[1],
        ),
        dec_digits(n).len() == 3 ==> n == digit_val(dec_digits(n)[0]) * 100 + digit_val(
            dec_digits(n)[1],
        ) * 10 + digit_val(dec_digits(n)[2]),
        dec_digits(n).len() == 1 <==> n <= 9,
        dec_digits(n).len() == 2 <==> 10 <= n <= 99,
        dec_digits(n).len() == 3 <==> 100 <= n,
{
    vstd::arithmetic::div_mod::lemma_fundamental_div_mod(n, 10);
    if n < 10 {
    } else if n < 100 {
        let q = n / 10;
        vstd::arithmetic::div_mod::lemma_fundamental_div_mod(q, 10);
        assert(1 <= q <= 9);
        assert(dec_digits(n) == dec_digits(q) + seq![digit_byte(n % 10)]);
    } else {
        let q = n / 10;
        vstd::arithmetic::div_mod::lemma_fundamental_div_mod(q, 10);
        assert(10 <= q <= 99);
        let q2 = q / 10;
        assert(1 <= q2 <= 9);
        assert(dec_digits(q) == dec_digits(q2) + seq![digit_byte(q % 10)]);
        assert(dec_digits(n) == dec_digits(q) + seq![digit_byte(n % 10)]);
    }
}

/// Re-parsing the canonical rendering of any in-range number of tenths gives
/// the same number back: `parse` is exact on `format`'s output.
pub proof fn lemma_render_parse_round_trip(v: int)
    requires
        -9999 <= v <= 9999,
    ensures
        valid_token(render_tenths(v)),
        token_value(render_tenths(v)) == v,
{
    let n = if v < 0 { -v } else { v };
    vstd::arithmetic::div_mod::lemma_fundamental_div_mod(n, 10);
    let q = n / 10;
    assert(0 <= q <= 999);
    lemma_dec_digits_small(q);
    let ds = dec_digits(q);
    let u = render_nonneg_tenths(n);
    assert(u == ds + seq![DOT, digit_byte(n % 10)]);
    assert(u.len() == ds.len() + 2);
    assert(forall|i: int| 0 <= i < ds.len() ==> u[i] == ds[i]);
    assert(u[u.len() - 2] == DOT);
    assert(u[u.len() - 1] == digit_byte(n % 10));
    assert(valid_unsigned_token(u));
    assert(unsigned_token_value(u) == q * 10 + n % 10);
    assert(unsigned_token_value(u) == n);
    if v < 0 {
        let s = render_tenths(v);
        assert(s == seq![MINUS] + u);
        assert(s[0] == MINUS);
        assert(s.subrange(1, s.len() as int) =~= u);
    } else {
        let s = render_tenths(v);
        assert(s == u);
        assert(s.len() > 0 ==> s[0] != MINUS);
    }
}

fn push_decimal_digits(n: u128, out: &mut Vec<u8>)
    ensures
        final(out)@ == old(out)@ + dec_digits(n as int),
    decreases n,
{
    if n < 10 {
        out.push(48 + (n as u8));
    } else {
        push_decimal_digits(n / 10, out);
        out.push(48 + ((n % 10) as u8));
    }
}

/// Renders a number of tenths with a sign and exactly one fraction digit,
/// e.g. tenths `-5` as `-0.5`.
pub fn format(v: i128) -> (r: Vec<u8>)
    ensures
        r@ == render_tenths(v as int),
{
    let mut out: Vec<u8> = Vec::new();
    let mag: u128 = if v < 0 {
        ((-(v + 1)) as u128) + 1
    } else {
        v as u128
    };
    assert(mag as int == if v < 0 { -(v as int) } else { v as int });
    if v < 0 {
        out.push(MINUS);
    }
    push_decimal_digits(mag / 10, &mut out);
    out.push(DOT);
    out.push(48 + ((mag % 10) as u8));
    proof {
        assert(out@ =~= render_tenths(v as int));
    }
    out
}

} // verus!

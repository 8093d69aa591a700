//! Exact decimal numbers for the numeric-first comparison policy.
//!
//! A filter value such as `"30"` or `"-2.5"` is numeric when it matches the
//! decimal grammar `[+|-] digits [ '.' digits ]` (one side of the point may be
//! empty, not both). Its mathematical value is `dec_num(s) / 10^dec_scale(s)`,
//! and two numeric strings are ordered by comparing those exact rationals via
//! cross multiplication. The executable comparison below is proved equal to
//! that mathematical order, so no rounding is involved anywhere.

use vstd::prelude::*;
use vstd::arithmetic::power::{pow, lemma_pow_positive, lemma_pow_adds, lemma_pow_strictly_increases};
use vstd::string::StringExecFns;

verus! {

/// Whether a character is a decimal digit.
pub open spec fn is_digit(c: char) -> bool {
    48 <= c as u32 && c as u32 <= 57
}

/// The numeric value of a digit character.
pub open spec fn digit_val(c: char) -> int {
    c as u32 - 48
}

/// Whether every character of the sequence is a decimal digit.
pub open spec fn all_digits(s: Seq<char>) -> bool {
    forall|i: int| 0 <= i < s.len() ==> is_digit(#[trigger] s[i])
}

/// The integer denoted by a digit sequence, most significant digit first.
pub open spec fn digits_val(s: Seq<char>) -> int
    decreases s.len(),
{
    if s.len() == 0 {
        0
    } else {
        digits_val(s.drop_last()) * 10 + digit_val(s.last())
    }
}

/// Ten to the given power.
pub open spec fn pow10(n: nat) -> int {
    pow(10, n)
}

/// The index of the first `'.'` in the sequence, or its length if none.
pub open spec fn dot_pos(s: Seq<char>) -> int
    decreases s.len(),
{
    if s.len() == 0 {
        0
    } else if s[0] == '.' {
        0
    } else {
        1 + dot_pos(s.skip(1))
    }
}

pub proof fn lemma_dot_pos(s: Seq<char>)
    ensures
        0 <= dot_pos(s) <= s.len(),
        forall|i: int| 0 <= i < dot_pos(s) ==> s[i] != '.',
        dot_pos(s) < s.len() ==> s[dot_pos(s)] == '.',
    decreases s.len(),
{
    if s.len() == 0 {
    } else if s[0] == '.' {
    } else {
        lemma_dot_pos(s.skip(1));
        assert forall|i: int| 0 <= i < dot_pos(s) implies s[i] != '.' by {
            if i > 0 {
                assert(s.skip(1)[i - 1] != '.');
            }
        }
        if dot_pos(s) < s.len() {
            assert(s.skip(1)[dot_pos(s) - 1] == '.');
        }
    }
}

/// Any index that is the first `'.'` equals `dot_pos`.
pub proof fn lemma_dot_pos_unique(s: Seq<char>, d: int)
    requires
        0 <= d <= s.len(),
        forall|i: int| 0 <= i < d ==> s[i] != '.',
        d < s.len() ==> s[d] == '.',
    ensures
        d == dot_pos(s),
{
    lemma_dot_pos(s);
}

/// The unsigned part of a decimal string: the characters after an optional
/// leading sign.
pub open spec fn unsigned_of(s: Seq<char>) -> Seq<char> {
    if s.len() > 0 && (s[0] == '-' || s[0] == '+') {
        s.skip(1)
    } else {
        s
    }
}

/// Whether the string denotes a negative number.
pub open spec fn is_neg(s: Seq<char>) -> bool {
    s.len() > 0 && s[0] == '-'
}

/// The digits before the decimal point.
pub open spec fn ipart(u: Seq<char>) -> Seq<char> {
    u.take(dot_pos(u))
}

/// The digits after the decimal point.
pub open spec fn fpart(u: Seq<char>) -> Seq<char> {
    if dot_pos(u) == u.len() {
        Seq::<char>::empty()
    } else {
        u.skip(dot_pos(u) + 1)
    }
}

/// Whether an unsigned string matches the decimal grammar.
pub open spec fn is_udec(u: Seq<char>) -> bool {
    &&& all_digits(ipart(u))
    &&& all_digits(fpart(u))
    &&& ipart(u).len() + fpart(u).len() > 0
}

/// Whether a string matches the decimal grammar `[+|-] digits [ '.' digits ]`.
pub open spec fn is_dec(s: Seq<char>) -> bool {
    is_udec(unsigned_of(s))
}

/// All digits of the string, integer part then fractional part.
pub open spec fn dec_digits(s: Seq<char>) -> Seq<char> {
    ipart(unsigned_of(s)) + fpart(unsigned_of(s))
}

/// The number of fractional digits.
pub open spec fn dec_scale(s: Seq<char>) -> nat {
    fpart(unsigned_of(s)).len()
}

/// The signed numerator: the string denotes `dec_num(s) / 10^dec_scale(s)`.
pub open spec fn dec_num(s: Seq<char>) -> int {
    if is_neg(s) {
        -digits_val(dec_digits(s))
    } else {
        digits_val(dec_digits(s))
    }
}

/// The exact numeric order on decimal strings, by cross multiplication.
pub open spec fn dec_lt(a: Seq<char>, b: Seq<char>) -> bool {
    dec_num(a) * pow10(dec_scale(b)) < dec_num(b) * pow10(dec_scale(a))
}

/// The numeric order is transitive; `dec_le` likewise.
pub proof fn lemma_dec_lt_trans(a: Seq<char>, b: Seq<char>, c: Seq<char>)
    requires
        dec_lt(a, b),
        dec_lt(b, c),
    ensures
        dec_lt(a, c),
{
    lemma_pow_positive(10, dec_scale(a));
    lemma_pow_positive(10, dec_scale(b));
    lemma_pow_positive(10, dec_scale(c));
    lemma_cross_trans(
        dec_num(a), pow10(dec_scale(a)),
        dec_num(b), pow10(dec_scale(b)),
        dec_num(c), pow10(dec_scale(c)),
    );
}

proof fn lemma_cross_trans(na: int, pa: int, nb: int, pb: int, nc: int, pc: int)
    by (nonlinear_arith)
    requires
        pa > 0,
        pb > 0,
        pc > 0,
        na * pb < nb * pa,
        nb * pc < nc * pb,
    ensures
        na * pc < nc * pa,
{
}

/// The canonical rendering of a decimal value at a fixed scale: a minus
/// sign exactly for negative values, no plus sign, at least one integer
/// digit with no superfluous leading zero, and a decimal point exactly when
/// there are fractional digits. For a given numerator and scale only one
/// string has this shape.
pub open spec fn canonical_dec(s: Seq<char>) -> bool {
    let u = unsigned_of(s);
    &&& is_dec(s)
    &&& (if dec_num(s) < 0 {
        s.len() > 0 && s[0] == '-'
    } else {
        u == s
    })
    &&& ipart(u).len() > 0
    &&& (ipart(u).len() == 1 || digit_val(ipart(u)[0]) != 0)
    &&& (dec_scale(s) == 0 ==> dot_pos(u) == u.len())
}

// ------------------------------------------------------------------
// Facts about digit values.
// ------------------------------------------------------------------

proof fn lemma_pow10_small()
    ensures
        pow10(0) == 1,
        pow10(1) == 10,
{
    reveal_with_fuel(pow, 2);
}

pub proof fn lemma_digits_val_bounds(s: Seq<char>)
    requires
        all_digits(s),
    ensures
        0 <= digits_val(s) < pow10(s.len()),
    decreases s.len(),
{
    if s.len() == 0 {
        lemma_pow10_small();
    } else {
        assert(all_digits(s.drop_last()));
        lemma_digits_val_bounds(s.drop_last());
        lemma_pow_adds(10, (s.len() - 1) as nat, 1);
        lemma_pow10_small();
        assert(digits_val(s.drop_last()) * 10 + digit_val(s.last()) < pow10(s.len())) by {
            let v = digits_val(s.drop_last());
            let p = pow10((s.len() - 1) as nat);
            assert(v <= p - 1);
            assert(v * 10 <= (p - 1) * 10) by (nonlinear_arith)
                requires v <= p - 1;
            assert(digit_val(s.last()) <= 9);
            assert(pow10(s.len()) == p * 10);
        }
    }
}

/// A digit string with a nonzero leading digit is at least `10^(len-1)`.
pub proof fn lemma_digits_val_lower(s: Seq<char>)
    requires
        all_digits(s),
        s.len() > 0,
        s[0] != '0',
    ensures
        digits_val(s) >= pow10((s.len() - 1) as nat),
    decreases s.len(),
{
    if s.len() == 1 {
        lemma_pow10_small();
        assert(s.last() == s[0]);
        assert(is_digit(s[0]));
        assert(s[0] as u32 != 48) by {
            if s[0] as u32 == 48 {
                char_u32_eq(s[0], '0');
            }
        }
        assert(digit_val(s[0]) >= 1);
        assert(digits_val(s) == digits_val(s.drop_last()) * 10 + digit_val(s.last()));
        assert(digits_val(s.drop_last()) == 0);
    } else {
        let d = s.drop_last();
        assert(all_digits(d));
        assert(d[0] == s[0]);
        lemma_digits_val_lower(d);
        lemma_pow_adds(10, (s.len() - 2) as nat, 1);
        lemma_pow10_small();
        let p = pow10((s.len() - 2) as nat);
        assert(digits_val(d) * 10 >= p * 10) by (nonlinear_arith)
            requires digits_val(d) >= p;
        assert(is_digit(s.last()));
        assert(digit_val(s.last()) >= 0);
        assert(pow10((s.len() - 1) as nat) == p * 10);
    }
}

/// Concatenation of digit strings: the left part is shifted by the length of
/// the right part.
pub proof fn lemma_digits_val_append(s: Seq<char>, t: Seq<char>)
    ensures
        digits_val(s + t) == digits_val(s) * pow10(t.len()) + digits_val(t),
    decreases t.len(),
{
    if t.len() == 0 {
        lemma_pow10_small();
        assert(s + t =~= s);
    } else {
        let t0 = t.drop_last();
        lemma_digits_val_append(s, t0);
        assert((s + t).drop_last() =~= s + t0);
        assert((s + t).last() == t.last());
        lemma_pow_adds(10, t0.len(), 1);
        lemma_pow10_small();
        assert(digits_val(s + t) == (digits_val(s) * pow10(t0.len()) + digits_val(t0)) * 10
            + digit_val(t.last()));
        assert((digits_val(s) * pow10(t0.len())) * 10 == digits_val(s) * (pow10(t0.len()) * 10))
            by (nonlinear_arith);
        assert((digits_val(s) * pow10(t0.len()) + digits_val(t0)) * 10
            == (digits_val(s) * pow10(t0.len())) * 10 + digits_val(t0) * 10) by (nonlinear_arith);
    }
}

/// A sequence of `'0'` characters denotes zero.
pub proof fn lemma_zeros_val(s: Seq<char>)
    requires
        forall|i: int| 0 <= i < s.len() ==> s[i] == '0',
    ensures
        digits_val(s) == 0,
    decreases s.len(),
{
    if s.len() > 0 {
        lemma_zeros_val(s.drop_last());
        assert(s.last() == '0');
    }
}

/// A digit string denotes zero exactly when all its digits are `'0'`.
pub proof fn lemma_zero_iff(s: Seq<char>)
    requires
        all_digits(s),
    ensures
        (digits_val(s) == 0) <==> (forall|i: int| 0 <= i < s.len() ==> s[i] == '0'),
    decreases s.len(),
{
    if s.len() == 0 {
    } else {
        assert(all_digits(s.drop_last()));
        lemma_zero_iff(s.drop_last());
        lemma_digits_val_bounds(s.drop_last());
        if digits_val(s) == 0 {
            assert(digits_val(s.drop_last()) * 10 + digit_val(s.last()) == 0);
            assert(digits_val(s.drop_last()) == 0 && digit_val(s.last()) == 0) by (nonlinear_arith)
                requires
                    digits_val(s.drop_last()) >= 0,
                    0 <= digit_val(s.last()) <= 9,
                    digits_val(s.drop_last()) * 10 + digit_val(s.last()) == 0;
            assert(s.last() as u32 == 48);
            assert(s.last() == '0') by {
                char_u32_eq(s.last(), '0');
            }
            assert forall|i: int| 0 <= i < s.len() implies s[i] == '0' by {
                if i < s.len() - 1 {
                    assert(s.drop_last()[i] == '0');
                } else {
                    assert(s[i] == s.last());
                }
            }
        }
        if forall|i: int| 0 <= i < s.len() ==> s[i] == '0' {
            lemma_zeros_val(s);
        }
    }
}

/// Two characters with the same code point are the same character.
proof fn char_u32_eq(a: char, b: char)
    requires
        a as u32 == b as u32,
    ensures
        a == b,
{
    vstd::utf8::char_u32_cast(a, a as u32);
    vstd::utf8::char_u32_cast(b, b as u32);
}

/// Stripping leading `'0'` characters keeps the value.
pub proof fn lemma_strip_zeros(s: Seq<char>, k: int)
    requires
        0 <= k <= s.len(),
        forall|i: int| 0 <= i < k ==> s[i] == '0',
    ensures
        digits_val(s) == digits_val(s.skip(k)),
{
    let z = s.take(k);
    assert(s =~= z + s.skip(k));
    lemma_digits_val_append(z, s.skip(k));
    lemma_zeros_val(z);
}

/// Appending `k` zero digits multiplies the value by `10^k`.
pub proof fn lemma_pad_zeros(s: Seq<char>, t: Seq<char>)
    requires
        forall|i: int| 0 <= i < t.len() ==> t[i] == '0',
    ensures
        digits_val(s + t) == digits_val(s) * pow10(t.len()),
{
    lemma_digits_val_append(s, t);
    lemma_zeros_val(t);
}

/// Equal-length digit strings with a first difference at `k` are ordered by
/// that digit.
pub proof fn lemma_lex_lt(x: Seq<char>, y: Seq<char>, k: int)
    requires
        all_digits(x),
        all_digits(y),
        x.len() == y.len(),
        0 <= k < x.len(),
        forall|i: int| 0 <= i < k ==> x[i] == y[i],
        digit_val(x[k]) < digit_val(y[k]),
    ensures
        digits_val(x) < digits_val(y),
{
    let n = x.len() as int;
    let m = (n - k - 1) as nat;
    assert(x =~= x.take(k + 1) + x.skip(k + 1));
    assert(y =~= y.take(k + 1) + y.skip(k + 1));
    lemma_digits_val_append(x.take(k + 1), x.skip(k + 1));
    lemma_digits_val_append(y.take(k + 1), y.skip(k + 1));
    assert(x.take(k + 1).drop_last() =~= x.take(k));
    assert(y.take(k + 1).drop_last() =~= y.take(k));
    assert(x.take(k) =~= y.take(k));
    assert(x.take(k + 1).last() == x[k]);
    assert(y.take(k + 1).last() == y[k]);
    let vx = digits_val(x.take(k + 1));
    let vy = digits_val(y.take(k + 1));
    assert(vx == digits_val(x.take(k)) * 10 + digit_val(x[k]));
    assert(vy == digits_val(x.take(k)) * 10 + digit_val(y[k]));
    assert(vx < vy);
    assert(all_digits(x.skip(k + 1))) by {
        assert forall|i: int| 0 <= i < x.skip(k + 1).len() implies is_digit(#[trigger] x.skip(k + 1)[i]) by {
            assert(x.skip(k + 1)[i] == x[k + 1 + i]);
        }
    }
    assert(all_digits(y.skip(k + 1))) by {
        assert forall|i: int| 0 <= i < y.skip(k + 1).len() implies is_digit(#[trigger] y.skip(k + 1)[i]) by {
            assert(y.skip(k + 1)[i] == y[k + 1 + i]);
        }
    }
    lemma_digits_val_bounds(x.skip(k + 1));
    lemma_digits_val_bounds(y.skip(k + 1));
    lemma_pow_positive(10, m);
    assert(digits_val(x) < digits_val(y)) by (nonlinear_arith)
        requires
            digits_val(x) == vx * pow10(m) + digits_val(x.skip(k + 1)),
            digits_val(y) == vy * pow10(m) + digits_val(y.skip(k + 1)),
            vx < vy,
            0 <= digits_val(x.skip(k + 1)) < pow10(m),
            0 <= digits_val(y.skip(k + 1)),
            pow10(m) > 0;
}

// ------------------------------------------------------------------
// Executable parsing and comparison.
// ------------------------------------------------------------------

/// Whether a character is a decimal digit.
pub fn digit_char(c: char) -> (r: bool)
    ensures
        r == is_digit(c),
{
    let cu = c as u32;
    48 <= cu && cu <= 57
}

/// The outcome of a three-way comparison.
pub enum CmpRes {
    Lt,
    Eq,
    Gt,
}

/// A parsed decimal string: sign, all digits, and the number of fractional
/// digits.
pub struct DecParts {
    pub neg: bool,
    pub digits: Vec<char>,
    pub scale: usize,
}

/// The signed numerator a parsed decimal denotes.
pub open spec fn parts_num(p: DecParts) -> int {
    if p.neg {
        -digits_val(p.digits@)
    } else {
        digits_val(p.digits@)
    }
}

/// Whether a parse result faithfully decomposes the source string.
pub open spec fn parts_of(p: DecParts, s: Seq<char>) -> bool {
    &&& p.neg == is_neg(s)
    &&& p.digits@ == dec_digits(s)
    &&& p.scale as nat == dec_scale(s)
    &&& parts_num(p) == dec_num(s)
}

/// Parses a string against the decimal grammar.
pub fn parse_dec(s: &str) -> (r: Option<DecParts>)
    ensures
        r is Some <==> is_dec(s@),
        match r {
            Some(p) => parts_of(p, s@) && all_digits(p.digits@),
            None => true,
        },
{
    let n = s.unicode_len();
    let mut i: usize = 0;
    let mut neg = false;
    if n > 0 {
        let c0 = s.get_char(0);
        if c0 == '-' {
            neg = true;
            i = 1;
        } else if c0 == '+' {
            i = 1;
        }
    }
    let ghost u = unsigned_of(s@);
    proof {
        assert(u =~= s@.skip(i as int));
        lemma_dot_pos(u);
    }
    let mut digits: Vec<char> = Vec::new();
    let mut j: usize = i;
    while j < n && digit_char(s.get_char(j))
        invariant
            i <= j <= n,
            n == s@.len(),
            u == s@.skip(i as int),
            digits@ == u.take(j - i),
            forall|k: int| 0 <= k < j - i ==> is_digit(#[trigger] u[k]),
        decreases n - j,
    {
        let c = s.get_char(j);
        digits.push(c);
        j += 1;
        proof {
            assert(digits@ =~= u.take(j - i));
        }
    }
    // Here `digits` holds the integer-part digits `u.take(j - i)`.
    if j == n {
        // No decimal point: the whole unsigned part must be digits.
        proof {
            lemma_dot_pos_unique(u, u.len() as int);
            assert(ipart(u) =~= u);
            assert(fpart(u) =~= Seq::<char>::empty());
            assert(digits@ =~= u);
            assert(dec_digits(s@) =~= u);
        }
        if digits.len() == 0 {
            return None;
        }
        proof {
            assert(is_dec(s@));
        }
        return Some(DecParts { neg, digits, scale: 0 });
    }
    let cj = s.get_char(j);
    if cj != '.' {
        // Stopped at a character that is neither a digit nor the point.
        proof {
            let d = dot_pos(u);
            let jj = j - i;
            if d < jj {
                assert(u[d] == '.');
                assert(is_digit(u[d]));
            } else if d == jj {
                assert(u[d] == '.');
            } else {
                assert(ipart(u)[jj] == u[jj]);
                assert(!is_digit(ipart(u)[jj]));
            }
            assert(!is_dec(s@));
        }
        return None;
    }
    proof {
        lemma_dot_pos_unique(u, j - i);
        assert(ipart(u) =~= u.take(j - i));
        assert(fpart(u) =~= u.skip(j - i + 1));
    }
    let dot: usize = j;
    j += 1;
    let mut scale: usize = 0;
    while j < n
        invariant
            dot + 1 <= j <= n,
            i <= dot < n,
            n == s@.len(),
            u == s@.skip(i as int),
            u == unsigned_of(s@),
            scale == j - dot - 1,
            dot_pos(u) == dot - i,
            ipart(u) == u.take(dot - i),
            fpart(u) == u.skip(dot - i + 1),
            digits@ == u.take(dot - i) + u.skip(dot - i + 1).take(j - dot - 1),
            forall|k: int| 0 <= k < dot - i ==> is_digit(#[trigger] u[k]),
            forall|k: int| dot - i + 1 <= k < j - i ==> is_digit(#[trigger] u[k]),
        decreases n - j,
    {
        let c = s.get_char(j);
        let cu = c as u32;
        if !(48 <= cu && cu <= 57) {
            // A non-digit after the point: the fractional part is malformed.
            proof {
                assert(fpart(u)[j - dot - 1] == u[j - i]);
                assert(!is_digit(fpart(u)[j - dot - 1]));
                assert(!is_dec(s@));
            }
            return None;
        }
        digits.push(c);
        j += 1;
        scale += 1;
        proof {
            assert(digits@ =~= u.take(dot - i) + u.skip(dot - i + 1).take(j - dot - 1));
        }
    }
    proof {
        assert(u.skip(dot - i + 1).take(n - dot - 1) =~= u.skip(dot - i + 1));
        assert(digits@ =~= dec_digits(s@));
        assert(fpart(u).len() == n - dot - 1);
        assert forall|k: int| 0 <= k < ipart(u).len() implies is_digit(#[trigger] ipart(u)[k]) by {
            assert(ipart(u)[k] == u[k]);
        }
        assert forall|k: int| 0 <= k < fpart(u).len() implies is_digit(#[trigger] fpart(u)[k]) by {
            assert(fpart(u)[k] == u[k + (dot - i) + 1]);
        }
    }
    if digits.len() == 0 {
        proof {
            assert(ipart(u).len() + fpart(u).len() == 0);
        }
        return None;
    }
    proof {
        assert(is_dec(s@));
        assert forall|k: int| 0 <= k < digits@.len() implies is_digit(#[trigger] digits@[k]) by {
            if k < ipart(u).len() {
                assert(digits@[k] == ipart(u)[k]);
            } else {
                assert(digits@[k] == fpart(u)[k - ipart(u).len()]);
            }
        }
    }
    Some(DecParts { neg, digits, scale })
}


/// Whether all digits of a parsed decimal are zero.
pub fn is_zero_digits(digits: &Vec<char>) -> (r: bool)
    requires
        all_digits(digits@),
    ensures
        r == (digits_val(digits@) == 0),
{
    let mut i: usize = 0;
    while i < digits.len()
        invariant
            i <= digits@.len(),
            all_digits(digits@),
            forall|k: int| 0 <= k < i ==> digits@[k] == '0',
        decreases digits@.len() - i,
    {
        if digits[i] as u32 != 48 {
            proof {
                lemma_zero_iff(digits@);
                assert(digits@[i as int] != '0');
            }
            return false;
        }
        proof {
            char_u32_eq(digits@[i as int], '0');
        }
        i += 1;
    }
    proof {
        lemma_zero_iff(digits@);
    }
    true
}

proof fn lemma_mul_pos(x: int, y: int)
    by (nonlinear_arith)
    requires
        x > 0,
        y > 0,
    ensures
        x * y > 0,
{
}

proof fn lemma_mul_cmp_iff(u: int, v: int, c: int)
    by (nonlinear_arith)
    requires
        c > 0,
    ensures
        (u < v) <==> (u * c < v * c),
        (u == v) <==> (u * c == v * c),
{
}

proof fn lemma_mul_zero(x: int, y: int)
    by (nonlinear_arith)
    requires
        x == 0,
    ensures
        x * y == 0,
{
}

proof fn lemma_neg_mul(x: int, y: int)
    by (nonlinear_arith)
    ensures
        (-x) * y == -(x * y),
{
}

/// Comparing magnitudes after padding to a common scale agrees with the
/// cross-multiplied comparison at the original scales.
proof fn lemma_scale_equiv(va: int, vb: int, sa: nat, sb: nat)
    ensures
        ({
            let l = if sa >= sb { sa } else { sb };
            &&& ((va * pow10((l - sa) as nat) < vb * pow10((l - sb) as nat)) <==> (va * pow10(sb)
                < vb * pow10(sa)))
            &&& ((va * pow10((l - sa) as nat) == vb * pow10((l - sb) as nat)) <==> (va * pow10(sb)
                == vb * pow10(sa)))
        }),
{
    let l = if sa >= sb { sa } else { sb };
    let c = pow10((sa + sb - l) as nat);
    lemma_pow_positive(10, (sa + sb - l) as nat);
    lemma_pow_adds(10, (l - sa) as nat, (sa + sb - l) as nat);
    lemma_pow_adds(10, (l - sb) as nat, (sa + sb - l) as nat);
    assert(pow10((l - sa) as nat) * c == pow10(sb));
    assert(pow10((l - sb) as nat) * c == pow10(sa));
    let xa = va * pow10((l - sa) as nat);
    let xb = vb * pow10((l - sb) as nat);
    lemma_mul_cmp_iff(xa, xb, c);
    assert(xa * c == va * pow10(sb)) by (nonlinear_arith)
        requires
            xa == va * pow10((l - sa) as nat),
            pow10((l - sa) as nat) * c == pow10(sb),
    ;
    assert(xb * c == vb * pow10(sa)) by (nonlinear_arith)
        requires
            xb == vb * pow10((l - sb) as nat),
            pow10((l - sb) as nat) * c == pow10(sa),
    ;
}

/// Three-way comparison of two digit strings by value.
fn cmp_digit_seqs(x: &Vec<char>, y: &Vec<char>) -> (r: CmpRes)
    requires
        all_digits(x@),
        all_digits(y@),
    ensures
        r is Lt <==> digits_val(x@) < digits_val(y@),
        r is Gt <==> digits_val(x@) > digits_val(y@),
        r is Eq <==> digits_val(x@) == digits_val(y@),
{
    let mut a: usize = 0;
    while a < x.len() && x[a] as u32 == 48
        invariant
            a <= x@.len(),
            forall|k: int| 0 <= k < a ==> #[trigger] x@[k] == '0',
        decreases x@.len() - a,
    {
        proof {
            char_u32_eq(x@[a as int], '0');
        }
        a += 1;
    }
    let mut b: usize = 0;
    while b < y.len() && y[b] as u32 == 48
        invariant
            b <= y@.len(),
            forall|k: int| 0 <= k < b ==> #[trigger] y@[k] == '0',
        decreases y@.len() - b,
    {
        proof {
            char_u32_eq(y@[b as int], '0');
        }
        b += 1;
    }
    let ghost xs = x@.skip(a as int);
    let ghost ys = y@.skip(b as int);
    proof {
        lemma_strip_zeros(x@, a as int);
        lemma_strip_zeros(y@, b as int);
        assert forall|k: int| 0 <= k < xs.len() implies is_digit(#[trigger] xs[k]) by {
            assert(xs[k] == x@[k + a]);
        }
        assert forall|k: int| 0 <= k < ys.len() implies is_digit(#[trigger] ys[k]) by {
            assert(ys[k] == y@[k + b]);
        }
        lemma_digits_val_bounds(xs);
        lemma_digits_val_bounds(ys);
    }
    let xl = x.len() - a;
    let yl = y.len() - b;
    if xl < yl {
        proof {
            assert(ys[0] == y@[b as int]);
            assert(y@[b as int] != '0');
            lemma_digits_val_lower(ys);
            vstd::arithmetic::power::lemma_pow_increases(10, xl as nat, (yl - 1) as nat);
        }
        return CmpRes::Lt;
    }
    if yl < xl {
        proof {
            assert(xs[0] == x@[a as int]);
            assert(x@[a as int] != '0');
            lemma_digits_val_lower(xs);
            vstd::arithmetic::power::lemma_pow_increases(10, yl as nat, (xl - 1) as nat);
        }
        return CmpRes::Gt;
    }
    let mut k: usize = 0;
    while k < xl
        invariant
            k <= xl,
            a + xl == x@.len(),
            a + xl <= usize::MAX,
            b + yl <= usize::MAX,
            b + yl == y@.len(),
            xl == yl,
            xs == x@.skip(a as int),
            ys == y@.skip(b as int),
            all_digits(xs),
            all_digits(ys),
            digits_val(x@) == digits_val(xs),
            digits_val(y@) == digits_val(ys),
            forall|m: int| 0 <= m < k ==> #[trigger] xs[m] == ys[m],
        decreases xl - k,
    {
        let cx = x[a + k] as u32;
        let cy = y[b + k] as u32;
        proof {
            assert(xs[k as int] == x@[a + k]);
            assert(ys[k as int] == y@[b + k]);
        }
        if cx < cy {
            proof {
                lemma_lex_lt(xs, ys, k as int);
            }
            return CmpRes::Lt;
        }
        if cy < cx {
            proof {
                lemma_lex_lt(ys, xs, k as int);
            }
            return CmpRes::Gt;
        }
        proof {
            char_u32_eq(xs[k as int], ys[k as int]);
        }
        k += 1;
    }
    proof {
        assert(xs =~= ys);
    }
    CmpRes::Eq
}

/// Three-way exact comparison of two parsed decimals: the result reflects the
/// order of `parts_num(a) / 10^a.scale` and `parts_num(b) / 10^b.scale`.
#[verifier::rlimit(50)]
pub fn dec_cmp(a: &DecParts, b: &DecParts) -> (r: CmpRes)
    requires
        all_digits(a.digits@),
        all_digits(b.digits@),
    ensures
        r is Lt <==> parts_num(*a) * pow10(b.scale as nat) < parts_num(*b) * pow10(a.scale as nat),
        r is Gt <==> parts_num(*a) * pow10(b.scale as nat) > parts_num(*b) * pow10(a.scale as nat),
        r is Eq <==> parts_num(*a) * pow10(b.scale as nat) == parts_num(*b) * pow10(a.scale as nat),
{
    proof {
        lemma_pow_positive(10, a.scale as nat);
        lemma_pow_positive(10, b.scale as nat);
        lemma_digits_val_bounds(a.digits@);
        lemma_digits_val_bounds(b.digits@);
    }
    let za = is_zero_digits(&a.digits);
    let zb = is_zero_digits(&b.digits);
    let ghost na = parts_num(*a);
    let ghost nb = parts_num(*b);
    let ghost pa = pow10(a.scale as nat);
    let ghost pb = pow10(b.scale as nat);
    let ghost dva = digits_val(a.digits@);
    let ghost dvb = digits_val(b.digits@);
    proof {
        lemma_neg_mul(dva, pb);
        lemma_neg_mul(dvb, pa);
    }
    if za && zb {
        proof {
            lemma_mul_zero(na, pb);
            lemma_mul_zero(nb, pa);
        }
        return CmpRes::Eq;
    }
    if za {
        // a is zero, b is not.
        proof {
            lemma_mul_zero(na, pb);
            lemma_mul_pos(dvb, pa);
        }
        if b.neg {
            return CmpRes::Gt;
        } else {
            return CmpRes::Lt;
        }
    }
    if zb {
        proof {
            lemma_mul_zero(nb, pa);
            lemma_mul_pos(dva, pb);
        }
        if a.neg {
            return CmpRes::Lt;
        } else {
            return CmpRes::Gt;
        }
    }
    if a.neg && !b.neg {
        proof {
            lemma_mul_pos(dva, pb);
            lemma_mul_pos(dvb, pa);
        }
        return CmpRes::Lt;
    }
    if !a.neg && b.neg {
        proof {
            lemma_mul_pos(dva, pb);
            lemma_mul_pos(dvb, pa);
        }
        return CmpRes::Gt;
    }
    // Same sign, both nonzero: compare magnitudes at a common scale.
    let l = if a.scale >= b.scale { a.scale } else { b.scale };
    let mut xa: Vec<char> = Vec::new();
    let mut i: usize = 0;
    while i < a.digits.len()
        invariant
            i <= a.digits@.len(),
            xa@ == a.digits@.take(i as int),
        decreases a.digits@.len() - i,
    {
        xa.push(a.digits[i]);
        i += 1;
        proof {
            assert(xa@ =~= a.digits@.take(i as int));
        }
    }
    proof {
        assert(xa@ =~= a.digits@);
    }
    let mut j: usize = 0;
    while j < l - a.scale
        invariant
            j <= l - a.scale,
            xa@.len() == a.digits@.len() + j,
            xa@.take(a.digits@.len() as int) == a.digits@,
            forall|k: int| a.digits@.len() <= k < xa@.len() ==> #[trigger] xa@[k] == '0',
        decreases l - a.scale - j,
    {
        xa.push('0');
        j += 1;
        proof {
            assert(xa@.take(a.digits@.len() as int) =~= a.digits@);
        }
    }
    let mut yb: Vec<char> = Vec::new();
    let mut i2: usize = 0;
    while i2 < b.digits.len()
        invariant
            i2 <= b.digits@.len(),
            yb@ == b.digits@.take(i2 as int),
        decreases b.digits@.len() - i2,
    {
        yb.push(b.digits[i2]);
        i2 += 1;
        proof {
            assert(yb@ =~= b.digits@.take(i2 as int));
        }
    }
    proof {
        assert(yb@ =~= b.digits@);
    }
    let mut j2: usize = 0;
    while j2 < l - b.scale
        invariant
            j2 <= l - b.scale,
            yb@.len() == b.digits@.len() + j2,
            yb@.take(b.digits@.len() as int) == b.digits@,
            forall|k: int| b.digits@.len() <= k < yb@.len() ==> #[trigger] yb@[k] == '0',
        decreases l - b.scale - j2,
    {
        yb.push('0');
        j2 += 1;
        proof {
            assert(yb@.take(b.digits@.len() as int) =~= b.digits@);
        }
    }
    proof {
        let za_pad = xa@.skip(a.digits@.len() as int);
        assert(xa@ =~= a.digits@ + za_pad);
        assert(forall|k: int| 0 <= k < za_pad.len() ==> #[trigger] za_pad[k] == '0');
        lemma_pad_zeros(a.digits@, za_pad);
        let zb_pad = yb@.skip(b.digits@.len() as int);
        assert(yb@ =~= b.digits@ + zb_pad);
        assert(forall|k: int| 0 <= k < zb_pad.len() ==> #[trigger] zb_pad[k] == '0');
        lemma_pad_zeros(b.digits@, zb_pad);
        assert forall|k: int| 0 <= k < xa@.len() implies is_digit(#[trigger] xa@[k]) by {
            if k < a.digits@.len() {
                assert(xa@[k] == a.digits@[k]);
            } else {
                assert(xa@[k] == '0');
            }
        }
        assert forall|k: int| 0 <= k < yb@.len() implies is_digit(#[trigger] yb@[k]) by {
            if k < b.digits@.len() {
                assert(yb@[k] == b.digits@[k]);
            } else {
                assert(yb@[k] == '0');
            }
        }
        lemma_scale_equiv(digits_val(a.digits@), digits_val(b.digits@), a.scale as nat,
            b.scale as nat);
    }
    let m = cmp_digit_seqs(&xa, &yb);
    if a.neg {
        proof {
            assert(na * pb == -(digits_val(a.digits@) * pb)) by (nonlinear_arith)
                requires na == -digits_val(a.digits@), pb == pb,
            ;
            assert(nb * pa == -(digits_val(b.digits@) * pa)) by (nonlinear_arith)
                requires nb == -digits_val(b.digits@), pa == pa,
            ;
        }
        match m {
            CmpRes::Lt => CmpRes::Gt,
            CmpRes::Eq => CmpRes::Eq,
            CmpRes::Gt => CmpRes::Lt,
        }
    } else {
        m
    }
}


// ------------------------------------------------------------------
// Integer rendering and reading, for aggregation results.
// ------------------------------------------------------------------

/// A nonempty all-digit string is a decimal number denoting its digit value.
pub proof fn lemma_digits_is_dec(s: Seq<char>)
    requires
        all_digits(s),
        s.len() > 0,
    ensures
        is_dec(s),
        dec_num(s) == digits_val(s),
        dec_scale(s) == 0,
        unsigned_of(s) == s,
        dot_pos(s) == s.len(),
        ipart(s) == s,
{
    assert(s[0] != '-' && s[0] != '+') by {
        assert(is_digit(s[0]));
        if s[0] == '-' {
            assert(s[0] as u32 == 45);
        }
        if s[0] == '+' {
            assert(s[0] as u32 == 43);
        }
    }
    assert(unsigned_of(s) == s);
    assert forall|i: int| 0 <= i < s.len() implies s[i] != '.' by {
        assert(is_digit(s[i]));
        if s[i] == '.' {
            assert(s[i] as u32 == 46);
        }
    }
    lemma_dot_pos_unique(s, s.len() as int);
    assert(ipart(s) =~= s);
    assert(fpart(s) =~= Seq::<char>::empty());
    assert(dec_digits(s) =~= s);
    assert(!is_neg(s));
}

/// A nonempty digit string with no superfluous leading zero is the
/// canonical rendering of its value at scale zero.
pub proof fn lemma_digits_canonical(s: Seq<char>)
    requires
        all_digits(s),
        s.len() > 0,
        s.len() == 1 || digit_val(s[0]) != 0,
    ensures
        canonical_dec(s),
{
    lemma_digits_is_dec(s);
    lemma_digits_val_bounds(s);
}

/// A one-character string slice for each decimal digit.
fn digit_str(d: u8) -> (r: &'static str)
    requires
        d < 10,
    ensures
        r@.len() == 1,
        is_digit(r@[0]),
        digit_val(r@[0]) == d as int,
{
    if d == 0 {
        proof { reveal_strlit("0"); }
        "0"
    } else if d == 1 {
        proof { reveal_strlit("1"); }
        "1"
    } else if d == 2 {
        proof { reveal_strlit("2"); }
        "2"
    } else if d == 3 {
        proof { reveal_strlit("3"); }
        "3"
    } else if d == 4 {
        proof { reveal_strlit("4"); }
        "4"
    } else if d == 5 {
        proof { reveal_strlit("5"); }
        "5"
    } else if d == 6 {
        proof { reveal_strlit("6"); }
        "6"
    } else if d == 7 {
        proof { reveal_strlit("7"); }
        "7"
    } else if d == 8 {
        proof { reveal_strlit("8"); }
        "8"
    } else {
        proof { reveal_strlit("9"); }
        "9"
    }
}

/// The decimal rendering of an unsigned integer.
pub fn u128_to_string(n: u128) -> (s: String)
    ensures
        all_digits(s@),
        s@.len() > 0,
        s@.len() == 1 || digit_val(s@[0]) != 0,
        digits_val(s@) == n,
        is_dec(s@),
        dec_num(s@) == n,
        dec_scale(s@) == 0,
        unsigned_of(s@) == s@,
        dot_pos(s@) == s@.len(),
        ipart(s@) == s@,
        canonical_dec(s@),
    decreases n,
{
    if n < 10 {
        let s = String::from_str(digit_str(n as u8));
        proof {
            assert(s@.drop_last() =~= Seq::<char>::empty());
            assert(digits_val(s@) == digits_val(s@.drop_last()) * 10 + digit_val(s@.last()));
            assert(digits_val(s@.drop_last()) == 0);
            assert(s@.last() == s@[0]);
            assert(digit_val(s@[0]) == n as int);
            lemma_digits_is_dec(s@);
            lemma_digits_canonical(s@);
        }
        s
    } else {
        let mut s = u128_to_string(n / 10);
        let ghost prefix = s@;
        let d = digit_str((n % 10) as u8);
        s.append(d);
        proof {
            assert(s@.drop_last() =~= prefix);
            assert(s@.last() == d@[0]);
            assert(digits_val(s@) == digits_val(prefix) * 10 + (n % 10));
            assert(digits_val(prefix) == n / 10);
            assert((n / 10) * 10 + (n % 10) == n) by {
                vstd::arithmetic::div_mod::lemma_fundamental_div_mod(n as int, 10);
            }
            lemma_digits_is_dec(s@);
            // The leading digit comes from the rendering of n / 10 >= 1.
            assert(s@[0] == prefix[0]);
            assert(digit_val(s@[0]) != 0) by {
                if prefix.len() == 1 {
                    assert(digits_val(prefix) == digits_val(prefix.drop_last()) * 10
                        + digit_val(prefix.last()));
                    assert(prefix.drop_last() =~= Seq::<char>::empty());
                    assert(prefix.last() == prefix[0]);
                }
            }
            lemma_digits_canonical(s@);
        }
        s
    }
}

/// The decimal rendering of a signed integer.
pub fn i128_to_string(n: i128) -> (s: String)
    requires
        n > i128::MIN,
    ensures
        is_dec(s@),
        dec_num(s@) == n,
        dec_scale(s@) == 0,
        canonical_dec(s@),
{
    if n >= 0 {
        u128_to_string(n as u128)
    } else {
        let mag = u128_to_string((-n) as u128);
        let mut s = String::from_str("-");
        s.append(mag.as_str());
        proof {
            reveal_strlit("-");
            assert(s@[0] == '-');
            assert(s@.skip(1) =~= mag@);
            assert(unsigned_of(s@) == mag@);
            assert(is_neg(s@));
            assert(is_udec(mag@));
            assert(dec_digits(s@) == dec_digits(mag@));
            assert(dec_scale(s@) == dec_scale(mag@));
            assert(dec_num(s@) == -dec_num(mag@));
            assert(digits_val(mag@) >= 1);
            assert(dec_num(s@) < 0);
        }
        s
    }
}

/// The signed value of a parsed decimal's numerator, when its magnitude is
/// at most `i64::MAX`.
pub fn parts_numerator(p: &DecParts) -> (r: Option<i64>)
    requires
        all_digits(p.digits@),
    ensures
        match r {
            Some(v) => v as int == parts_num(*p) && -(i64::MAX as int) <= v as int
                <= i64::MAX as int,
            None => !(-(i64::MAX as int) <= parts_num(*p) <= i64::MAX as int),
        },
{
    let mut acc: u128 = 0;
    let mut i: usize = 0;
    let n = p.digits.len();
    while i < n
        invariant
            i <= n,
            n == p.digits@.len(),
            all_digits(p.digits@),
            acc == digits_val(p.digits@.take(i as int)),
            acc <= i64::MAX as u128,
        decreases n - i,
    {
        let c = p.digits[i];
        let d = (c as u32) - 48;
        proof {
            assert(p.digits@.take(i + 1).drop_last() =~= p.digits@.take(i as int));
            assert(p.digits@.take(i + 1).last() == p.digits@[i as int]);
        }
        let next: u128 = acc * 10 + (d as u128);
        if next > i64::MAX as u128 {
            proof {
                let full = p.digits@;
                let pre = full.take(i + 1);
                assert(full =~= pre + full.skip(i + 1));
                lemma_digits_val_append(pre, full.skip(i + 1));
                assert(all_digits(full.skip(i + 1))) by {
                    assert forall|k: int|
                        0 <= k < full.skip(i + 1).len() implies is_digit(
                        #[trigger] full.skip(i + 1)[k]) by {
                        assert(full.skip(i + 1)[k] == full[k + i + 1]);
                    }
                }
                lemma_digits_val_bounds(full.skip(i + 1));
                lemma_pow_positive(10, full.skip(i + 1).len() as nat);
                assert(digits_val(full) >= digits_val(pre)) by (nonlinear_arith)
                    requires
                        digits_val(full) == digits_val(pre) * pow10(full.skip(i + 1).len() as nat)
                            + digits_val(full.skip(i + 1)),
                        digits_val(full.skip(i + 1)) >= 0,
                        digits_val(pre) >= 0,
                        pow10(full.skip(i + 1).len() as nat) >= 1,
                ;
            }
            return None;
        }
        acc = next;
        i += 1;
    }
    proof {
        assert(p.digits@.take(n as int) =~= p.digits@);
    }
    let v = acc as i64;
    if p.neg {
        Some(-v)
    } else {
        Some(v)
    }
}

/// Reads a string as a signed integer when it is an integral decimal whose
/// magnitude is at most `i64::MAX`.
pub fn parse_int(s: &str) -> (r: Option<i64>)
    ensures
        match r {
            Some(v) => is_dec(s@) && dec_scale(s@) == 0 && v as int == dec_num(s@)
                && -(i64::MAX as int) <= v as int <= i64::MAX as int,
            None => !(is_dec(s@) && dec_scale(s@) == 0 && -(i64::MAX as int) <= dec_num(s@)
                <= i64::MAX as int),
        },
{
    let p = match parse_dec(s) {
        Some(p) => p,
        None => {
            return None;
        },
    };
    if p.scale != 0 {
        return None;
    }
    parts_numerator(&p)
}

/// Reads the signed numerator of any decimal string whose numerator's
/// magnitude is at most `i64::MAX`: the string denotes
/// `numerator / 10^dec_scale`.
pub fn parse_numerator(s: &str) -> (r: Option<i64>)
    ensures
        match r {
            Some(v) => is_dec(s@) && v as int == dec_num(s@) && -(i64::MAX as int) <= v as int
                <= i64::MAX as int,
            None => !(is_dec(s@) && -(i64::MAX as int) <= dec_num(s@) <= i64::MAX as int),
        },
{
    let p = match parse_dec(s) {
        Some(p) => p,
        None => {
            return None;
        },
    };
    parts_numerator(&p)
}

/// The canonical rendering of `n / 10^scale` for a nonnegative numerator.
fn render_scaled_mag(n: u128, scale: usize) -> (s: String)
    ensures
        is_dec(s@),
        unsigned_of(s@) == s@,
        dec_num(s@) == n,
        dec_scale(s@) == scale as nat,
        canonical_dec(s@),
{
    let d = u128_to_string(n);
    if scale == 0 {
        return d;
    }
    let dl = d.as_str().unicode_len();
    if dl > scale {
        let ip = d.as_str().substring_char(0, dl - scale);
        let fp = d.as_str().substring_char(dl - scale, dl);
        let mut s = ip.to_owned();
        s.append(".");
        s.append(fp);
        proof {
            reveal_strlit(".");
            assert(s@ =~= d@.subrange(0, dl - scale) + "."@ + d@.subrange(dl - scale, dl as int));
            assert(s@.len() == dl + 1);
            assert(s@[0] == d@[0]);
            assert(is_digit(s@[0]));
            assert(s@[0] != '-' && s@[0] != '+') by {
                if s@[0] == '-' {
                    assert(s@[0] as u32 == 45);
                }
                if s@[0] == '+' {
                    assert(s@[0] as u32 == 43);
                }
            }
            assert(unsigned_of(s@) == s@);
            assert forall|i: int| 0 <= i < dl - scale implies s@[i] != '.' by {
                assert(s@[i] == d@[i]);
                assert(is_digit(d@[i]));
                if s@[i] == '.' {
                    assert(s@[i] as u32 == 46);
                }
            }
            assert(s@[dl - scale] == '.');
            lemma_dot_pos_unique(s@, dl - scale);
            assert(ipart(s@) =~= d@.subrange(0, dl - scale));
            assert(fpart(s@) =~= d@.subrange(dl - scale, dl as int));
            assert forall|i: int| 0 <= i < ipart(s@).len() implies is_digit(
                #[trigger] ipart(s@)[i]) by {
                assert(ipart(s@)[i] == d@[i]);
            }
            assert forall|i: int| 0 <= i < fpart(s@).len() implies is_digit(
                #[trigger] fpart(s@)[i]) by {
                assert(fpart(s@)[i] == d@[i + (dl - scale)]);
            }
            assert(is_udec(s@));
            assert(dec_digits(s@) =~= d@);
            assert(!is_neg(s@));
            assert(dec_num(s@) == digits_val(d@));
            assert(dec_scale(s@) == scale as nat);
            // The leading digit is d's leading digit, which is not zero
            // because the digit string is longer than one character.
            assert(ipart(s@)[0] == d@[0]);
        }
        s
    } else {
        let mut s = String::from_str("0.");
        let mut k: usize = 0;
        proof {
            reveal_strlit("0.");
            reveal_strlit("0");
        }
        while k < scale - dl
            invariant
                k <= scale - dl,
                s@.len() == 2 + k,
                s@[0] == '0',
                s@[1] == '.',
                forall|i: int| 2 <= i < s@.len() ==> #[trigger] s@[i] == '0',
            decreases scale - dl - k,
        {
            s.append("0");
            proof {
                reveal_strlit("0");
            }
            k += 1;
        }
        let ghost prefix = s@;
        s.append(d.as_str());
        proof {
            assert(s@ =~= prefix + d@);
            assert(s@[0] == '0');
            assert(s@[1] == '.');
            assert(unsigned_of(s@) == s@) by {
                if s@[0] == '-' {
                    assert(s@[0] as u32 == 45);
                }
                if s@[0] == '+' {
                    assert(s@[0] as u32 == 43);
                }
            }
            assert(s@[0] != '.') by {
                if s@[0] == '.' {
                    assert(s@[0] as u32 == 46);
                }
            }
            lemma_dot_pos_unique(s@, 1);
            assert(s@.len() == 2 + (scale - dl) + dl);
            assert(ipart(s@) =~= s@.subrange(0, 1));
            assert(ipart(s@).len() == 1);
            assert(ipart(s@)[0] == '0');
            let f = fpart(s@);
            assert(f =~= s@.subrange(2, s@.len() as int));
            assert(f.len() == scale as int);
            assert forall|i: int| 0 <= i < f.len() implies is_digit(#[trigger] f[i]) by {
                assert(f[i] == s@[i + 2]);
                if i < scale - dl {
                    assert(s@[i + 2] == '0');
                } else {
                    assert(s@[i + 2] == d@[i - (scale - dl)]);
                }
            }
            assert(is_udec(s@));
            assert(!is_neg(s@));
            let dd = dec_digits(s@);
            assert(dd.len() == 1 + scale);
            assert forall|i: int| 0 <= i < 1 + (scale - dl) implies #[trigger] dd[i] == '0' by {
                if i == 0 {
                    assert(dd[0] == ipart(s@)[0]);
                } else {
                    assert(dd[i] == f[i - 1]);
                    assert(f[i - 1] == s@[i + 1]);
                }
            }
            lemma_strip_zeros(dd, 1 + (scale - dl));
            assert(dd.skip(1 + (scale - dl)) =~= d@);
            assert(dec_num(s@) == digits_val(d@));
            assert(dec_scale(s@) == scale as nat);
        }
        s
    }
}

/// The canonical rendering of the exact value `num / 10^scale`.
pub fn render_scaled(num: i128, scale: usize) -> (s: String)
    requires
        num > i128::MIN,
    ensures
        is_dec(s@),
        dec_num(s@) == num,
        dec_scale(s@) == scale as nat,
        canonical_dec(s@),
{
    if num >= 0 {
        render_scaled_mag(num as u128, scale)
    } else {
        let mag = render_scaled_mag((-num) as u128, scale);
        let mut s = String::from_str("-");
        s.append(mag.as_str());
        proof {
            reveal_strlit("-");
            assert(s@[0] == '-');
            assert(s@.skip(1) =~= mag@);
            assert(unsigned_of(s@) == mag@);
            assert(is_neg(s@));
            assert(is_udec(mag@));
            assert(dec_digits(s@) == dec_digits(mag@));
            assert(dec_scale(s@) == dec_scale(mag@));
            assert(dec_num(s@) == -dec_num(mag@));
            assert(dec_num(mag@) >= 1);
            assert(dec_num(s@) < 0);
        }
        s
    }
}

} // verus!

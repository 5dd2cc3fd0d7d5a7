//! Exact decimal p-values.
//!
//! A p-value is kept as a sign, a decimal mantissa and a power-of-ten
//! exponent, so `4.9e-8` is `49 * 10^-9`. The representation is normalized
//! (no trailing zero digits in the mantissa, zero is `0 * 10^0` and never
//! negative), which makes equality structural and ordering exact: no
//! rounding is involved anywhere in the significance test.
use vstd::prelude::*;
use vstd::arithmetic::power::{
    pow, lemma_pow_adds, lemma_pow_positive, lemma_pow_increases, lemma_pow0, lemma_pow1,
};
use vstd::arithmetic::mul::{
    lemma_mul_inequality, lemma_mul_strict_inequality, lemma_mul_is_associative,
    lemma_mul_strict_inequality_converse, lemma_mul_basics, lemma_mul_by_zero_is_zero,
    lemma_mul_nonnegative,
};
use vstd::arithmetic::div_mod::{lemma_fundamental_div_mod, lemma_mod_multiples_basic};
use crate::text::{
    is_digit, digit_val, all_digits, digits_value, lemma_digits_value_nonneg, digits_end,
    lemma_digits_end_all_digits, scan_digits, dec_str, u64_to_string,
};

verus! {

pub open spec fn pow10(e: nat) -> int {
    pow(10, e)
}

/// Largest exponent magnitude a stored p-value may carry.
pub const EXP_LIMIT: i32 = 1000000000;

/// 10^19: mantissas are kept strictly below this bound.
pub const MANTISSA_CAP: u64 = 10000000000000000000;

/// 10^10: exponent literals are kept strictly below this bound.
pub const EXP_CAP: u64 = 10000000000;

#[derive(Clone, Copy, Debug, PartialEq, Eq, Hash, Structural)]
pub struct PValue {
    pub neg: bool,
    pub mantissa: u64,
    pub exp: i32,
}

impl PValue {
    /// Normalized representation: no trailing zero digit in the mantissa,
    /// zero is positive with exponent zero, exponent within bounds.
    pub open spec fn wf(self) -> bool {
        &&& (self.mantissa == 0 ==> self.exp == 0 && !self.neg)
        &&& (self.mantissa != 0 ==> self.mantissa % 10 != 0)
        &&& -EXP_LIMIT <= self.exp <= EXP_LIMIT
        &&& self.mantissa < MANTISSA_CAP
    }

    pub open spec fn zero_spec() -> PValue {
        PValue { neg: false, mantissa: 0, exp: 0 }
    }
}

/// The magnitude of `p` scaled by `10^-base`: an integer once `base` is at
/// or below the exponent.
pub open spec fn spec_mag_at(p: PValue, base: int) -> int {
    p.mantissa * pow10((p.exp - base) as nat)
}

/// The signed value of `p` scaled by `10^-base`.
pub open spec fn spec_val_at(p: PValue, base: int) -> int {
    if p.neg {
        -spec_mag_at(p, base)
    } else {
        spec_mag_at(p, base)
    }
}

/// Strict order on magnitudes: `|a| < |b|`.
pub open spec fn spec_abs_lt(a: PValue, b: PValue) -> bool {
    if a.exp >= b.exp {
        a.mantissa * pow10((a.exp - b.exp) as nat) < b.mantissa
    } else {
        (a.mantissa as int) < b.mantissa * pow10((b.exp - a.exp) as nat)
    }
}

/// Strict numeric order on p-values.
pub open spec fn spec_lt(a: PValue, b: PValue) -> bool {
    if a.neg && !b.neg {
        true
    } else if !a.neg && b.neg {
        false
    } else if !a.neg && !b.neg {
        spec_abs_lt(a, b)
    } else {
        spec_abs_lt(b, a)
    }
}

/// The fixed significance threshold, `5 * 10^-8`.
pub open spec fn spec_threshold() -> PValue {
    PValue { neg: false, mantissa: 5, exp: -8i32 }
}

pub fn threshold() -> (r: PValue)
    ensures
        r == spec_threshold(),
        r.wf(),
{
    PValue { neg: false, mantissa: 5, exp: -8i32 }
}

/// Whether a p-value is in normalized form, executably.
pub fn pv_wf(p: &PValue) -> (r: bool)
    ensures
        r == p.wf(),
{
    let zero_ok = p.mantissa != 0 || (p.exp == 0 && !p.neg);
    let norm_ok = p.mantissa == 0 || p.mantissa % 10 != 0;
    zero_ok && norm_ok && -EXP_LIMIT <= p.exp && p.exp <= EXP_LIMIT && p.mantissa < MANTISSA_CAP
}

/// Ground values of the powers of ten that the bounds below lean on.
pub proof fn lemma_pow10_vals()
    ensures
        pow10(19) == 10000000000000000000,
        pow10(20) == 100000000000000000000,
        pow10(38) == 100000000000000000000000000000000000000,
{
    reveal_with_fuel(pow, 6);
    assert(pow10(5) == 100000);
    assert(pow10(4) == 10000);
    lemma_pow_adds(10, 5, 5);
    assert(pow10(10) == 10000000000);
    lemma_pow_adds(10, 10, 10);
    assert(pow10(20) == 100000000000000000000);
    lemma_pow_adds(10, 5, 4);
    assert(pow10(9) == 1000000000);
    lemma_pow_adds(10, 10, 9);
    assert(pow10(19) == 10000000000000000000);
    lemma_pow_adds(10, 19, 19);
    assert(pow10(38) == 100000000000000000000000000000000000000);
}

/// Number of decimal digits of `m` (one for zero).
pub open spec fn ndigits(m: nat) -> nat
    decreases m,
{
    if m < 10 {
        1
    } else {
        1 + ndigits(m / 10)
    }
}

pub proof fn lemma_ndigits_bounds(m: nat)
    requires
        m >= 1,
    ensures
        ndigits(m) >= 1,
        pow10((ndigits(m) - 1) as nat) <= m < pow10(ndigits(m)),
    decreases m,
{
    if m < 10 {
        lemma_pow0(10);
        lemma_pow1(10);
    } else {
        lemma_ndigits_bounds(m / 10);
        let k = ndigits(m / 10);
        lemma_fundamental_div_mod(m as int, 10);
        // lower bound: m >= 10 * (m / 10) >= 10 * 10^(k-1) = 10^k
        lemma_mul_inequality(pow10((k - 1) as nat), (m / 10) as int, 10);
        lemma_pow_adds(10, (k - 1) as nat, 1);
        lemma_pow1(10);
        // upper bound: m < 10 * (m / 10) + 10 <= 10 * 10^k = 10^(k+1)
        lemma_mul_inequality((m / 10) as int + 1, pow10(k), 10);
        lemma_pow_adds(10, k, 1);
    }
}

pub proof fn lemma_ndigits_le_20(m: u64)
    requires
        m >= 1,
    ensures
        1 <= ndigits(m as nat) <= 20,
{
    lemma_ndigits_bounds(m as nat);
    if ndigits(m as nat) > 20 {
        lemma_pow_increases(10, 20, (ndigits(m as nat) - 1) as nat);
        lemma_pow10_vals();
    }
}

/// Digit count, executable.
pub fn num_digits(m: u64) -> (r: usize)
    requires
        m >= 1,
    ensures
        r == ndigits(m as nat),
        1 <= r <= 20,
{
    proof {
        lemma_ndigits_le_20(m);
    }
    let mut n = m;
    let mut d: usize = 1;
    while n >= 10
        invariant
            n >= 1,
            1 <= d <= 20,
            ndigits(m as nat) == (d - 1) + ndigits(n as nat),
            ndigits(m as nat) <= 20,
        decreases n,
    {
        proof {
            lemma_ndigits_le_20(n);
            assert(ndigits(n as nat) == 1 + ndigits((n / 10) as nat));
            if n / 10 >= 1 {
                lemma_ndigits_le_20(n / 10);
            }
        }
        n = n / 10;
        d += 1;
    }
    d
}

/// 10^e as a 128-bit integer, for e up to 38.
pub fn pow10_u128(e: usize) -> (r: u128)
    requires
        e <= 38,
    ensures
        r as int == pow10(e as nat),
{
    let mut i: usize = 0;
    let mut acc: u128 = 1;
    proof {
        lemma_pow0(10);
    }
    while i < e
        invariant
            i <= e,
            e <= 38,
            acc as int == pow10(i as nat),
        decreases e - i,
    {
        proof {
            lemma_pow_adds(10, i as nat, 1);
            lemma_pow1(10);
            lemma_pow_increases(10, (i + 1) as nat, 38);
            lemma_pow10_vals();
        }
        acc = acc * 10;
        i += 1;
    }
    acc
}

/// Scaling both sides by the same positive power keeps the comparison.
pub proof fn lemma_abs_lt_iff_mag(a: PValue, b: PValue, base: int)
    requires
        base <= a.exp,
        base <= b.exp,
    ensures
        spec_abs_lt(a, b) <==> spec_mag_at(a, base) < spec_mag_at(b, base),
{
    if a.exp >= b.exp {
        let d = (a.exp - b.exp) as nat;
        let db = (b.exp - base) as nat;
        lemma_pow_adds(10, d, db);
        lemma_mul_is_associative(a.mantissa as int, pow10(d), pow10(db));
        lemma_pow_positive(10, db);
        assert(spec_mag_at(a, base) == (a.mantissa * pow10(d)) * pow10(db));
        if a.mantissa * pow10(d) < b.mantissa {
            lemma_mul_strict_inequality(a.mantissa * pow10(d), b.mantissa as int, pow10(db));
        }
        if spec_mag_at(a, base) < spec_mag_at(b, base) {
            lemma_mul_strict_inequality_converse(
                a.mantissa * pow10(d),
                b.mantissa as int,
                pow10(db),
            );
        }
    } else {
        let d = (b.exp - a.exp) as nat;
        let da = (a.exp - base) as nat;
        lemma_pow_adds(10, d, da);
        lemma_mul_is_associative(b.mantissa as int, pow10(d), pow10(da));
        lemma_pow_positive(10, da);
        assert(spec_mag_at(b, base) == (b.mantissa * pow10(d)) * pow10(da));
        if (a.mantissa as int) < b.mantissa * pow10(d) {
            lemma_mul_strict_inequality(a.mantissa as int, b.mantissa * pow10(d), pow10(da));
        }
        if spec_mag_at(a, base) < spec_mag_at(b, base) {
            lemma_mul_strict_inequality_converse(
                a.mantissa as int,
                b.mantissa * pow10(d),
                pow10(da),
            );
        }
    }
}

pub proof fn lemma_mag_nonneg(p: PValue, base: int)
    requires
        base <= p.exp,
    ensures
        spec_mag_at(p, base) >= 0,
        p.mantissa >= 1 ==> spec_mag_at(p, base) >= 1,
{
    lemma_pow_positive(10, (p.exp - base) as nat);
    lemma_mul_inequality(0, p.mantissa as int, pow10((p.exp - base) as nat));
    if p.mantissa >= 1 {
        lemma_mul_inequality(1, p.mantissa as int, pow10((p.exp - base) as nat));
        lemma_pow_increases(10, 0, (p.exp - base) as nat);
    }
}

/// The order on p-values agrees with the order of their scaled integer
/// values, for any common scaling base.
pub proof fn lemma_lt_iff_val(a: PValue, b: PValue, base: int)
    requires
        a.wf(),
        b.wf(),
        base <= a.exp,
        base <= b.exp,
    ensures
        spec_lt(a, b) <==> spec_val_at(a, base) < spec_val_at(b, base),
{
    lemma_abs_lt_iff_mag(a, b, base);
    lemma_abs_lt_iff_mag(b, a, base);
    lemma_mag_nonneg(a, base);
    lemma_mag_nonneg(b, base);
}

/// Strict order is transitive.
pub proof fn lemma_lt_trans(a: PValue, b: PValue, c: PValue)
    requires
        a.wf(),
        b.wf(),
        c.wf(),
        spec_lt(a, b),
        spec_lt(b, c),
    ensures
        spec_lt(a, c),
{
    let base = if a.exp <= b.exp && a.exp <= c.exp {
        a.exp as int
    } else if b.exp <= c.exp {
        b.exp as int
    } else {
        c.exp as int
    };
    lemma_lt_iff_val(a, b, base);
    lemma_lt_iff_val(b, c, base);
    lemma_lt_iff_val(a, c, base);
}

/// Well-formed p-values that are not structurally equal are ordered: the
/// normalized representation of a value is unique.
pub proof fn lemma_lt_connected(a: PValue, b: PValue)
    requires
        a.wf(),
        b.wf(),
        a != b,
    ensures
        spec_lt(a, b) || spec_lt(b, a),
{
    let base = if a.exp <= b.exp {
        a.exp as int
    } else {
        b.exp as int
    };
    lemma_lt_iff_val(a, b, base);
    lemma_lt_iff_val(b, a, base);
    if !spec_lt(a, b) && !spec_lt(b, a) {
        assert(spec_val_at(a, base) == spec_val_at(b, base));
        lemma_mag_nonneg(a, base);
        lemma_mag_nonneg(b, base);
        if a.neg != b.neg {
            // a well-formed negative value is strictly negative
            assert(false);
        }
        assert(spec_mag_at(a, base) == spec_mag_at(b, base));
        if a.exp >= b.exp {
            lemma_norm_unique(a, b, base);
        } else {
            lemma_norm_unique(b, a, base);
        }
    }
}

/// Helper for uniqueness: equal magnitudes with `x.exp >= y.exp` force
/// equal fields.
proof fn lemma_norm_unique(x: PValue, y: PValue, base: int)
    requires
        x.wf(),
        y.wf(),
        x.exp >= y.exp,
        base == y.exp,
        x.neg == y.neg,
        spec_mag_at(x, base) == spec_mag_at(y, base),
    ensures
        x == y,
{
    let d = (x.exp - y.exp) as nat;
    lemma_pow0(10);
    assert(spec_mag_at(y, base) == y.mantissa);
    assert(x.mantissa * pow10(d) == y.mantissa);
    if x.mantissa == 0 {
        vstd::arithmetic::mul::lemma_mul_by_zero_is_zero(pow10(d));
        assert(y.mantissa == 0);
        assert(x.exp == 0 && y.exp == 0);
    } else if d == 0 {
        assert(x.mantissa == y.mantissa);
    } else {
        // y.mantissa would end in a zero digit
        lemma_pow_adds(10, (d - 1) as nat, 1);
        lemma_pow1(10);
        lemma_mul_is_associative(x.mantissa as int, pow10((d - 1) as nat), 10);
        lemma_mod_multiples_basic(x.mantissa * pow10((d - 1) as nat), 10);
        lemma_pow_positive(10, (d - 1) as nat);
        lemma_mul_inequality(1, x.mantissa as int, pow10((d - 1) as nat));
        assert(y.mantissa % 10 == 0);
        lemma_mul_inequality(1, x.mantissa * pow10((d - 1) as nat), 10);
        assert(false);
    }
}

/// A strictly smaller magnitude order follows from a smaller digit-count
/// magnitude: if `x` tops out below where `y` starts, `|x| < |y|`.
proof fn lemma_abs_lt_of_mag(a: PValue, b: PValue)
    requires
        a.mantissa >= 1,
        b.mantissa >= 1,
        a.exp + ndigits(a.mantissa as nat) < b.exp + ndigits(b.mantissa as nat),
    ensures
        spec_abs_lt(a, b),
{
    let la = ndigits(a.mantissa as nat);
    let lb = ndigits(b.mantissa as nat);
    lemma_ndigits_bounds(a.mantissa as nat);
    lemma_ndigits_bounds(b.mantissa as nat);
    if a.exp >= b.exp {
        let d = (a.exp - b.exp) as nat;
        // a.m * 10^d < 10^la * 10^d = 10^(la+d) <= 10^(lb-1) <= b.m
        lemma_pow_positive(10, d);
        lemma_mul_strict_inequality(a.mantissa as int, pow10(la), pow10(d));
        lemma_pow_adds(10, la, d);
        lemma_pow_increases(10, la + d, (lb - 1) as nat);
    } else {
        let d = (b.exp - a.exp) as nat;
        // a.m < 10^la <= 10^(lb-1+d) = 10^(lb-1) * 10^d <= b.m * 10^d
        lemma_pow_increases(10, la, ((lb - 1) + d) as nat);
        lemma_pow_adds(10, (lb - 1) as nat, d);
        lemma_pow_positive(10, d);
        lemma_mul_inequality(pow10((lb - 1) as nat), b.mantissa as int, pow10(d));
    }
}

/// Magnitude comparison for nonzero mantissas.
fn abs_lt_pos(a: &PValue, b: &PValue) -> (r: bool)
    requires
        a.mantissa >= 1,
        b.mantissa >= 1,
    ensures
        r == spec_abs_lt(*a, *b),
{
    let la = num_digits(a.mantissa);
    let lb = num_digits(b.mantissa);
    let ma: i64 = a.exp as i64 + la as i64;
    let mb: i64 = b.exp as i64 + lb as i64;
    proof {
        lemma_pow0(10);
        lemma_mul_basics(a.mantissa as int);
        lemma_mul_basics(b.mantissa as int);
    }
    if ma < mb {
        proof {
            lemma_abs_lt_of_mag(*a, *b);
            assert(spec_abs_lt(*a, *b));
        }
        true
    } else if ma > mb {
        proof {
            lemma_abs_lt_of_mag(*b, *a);
            assert(!spec_abs_lt(*a, *b));
        }
        false
    } else if la >= lb {
        // equal magnitude window, a has at least as many digits
        let d = la - lb;
        proof {
            lemma_ndigits_bounds(b.mantissa as nat);
            lemma_pow_positive(10, d as nat);
            lemma_mul_strict_inequality(b.mantissa as int, pow10(lb as nat), pow10(d as nat));
            lemma_pow_adds(10, lb as nat, d as nat);
            lemma_pow_increases(10, (lb + d) as nat, 20);
            lemma_pow10_vals();
        }
        let scaled: u128 = (b.mantissa as u128) * pow10_u128(d);
        proof {
            assert(scaled as int == b.mantissa * pow10(d as nat));
            if a.exp < b.exp {
                assert((b.exp - a.exp) as nat == d as nat);
            } else {
                assert(a.exp == b.exp && d == 0);
            }
            assert(spec_abs_lt(*a, *b) == ((a.mantissa as int) < b.mantissa * pow10(d as nat)));
        }
        (a.mantissa as u128) < scaled
    } else {
        let d = lb - la;
        proof {
            lemma_ndigits_bounds(a.mantissa as nat);
            lemma_pow_positive(10, d as nat);
            lemma_mul_strict_inequality(a.mantissa as int, pow10(la as nat), pow10(d as nat));
            lemma_pow_adds(10, la as nat, d as nat);
            lemma_pow_increases(10, (la + d) as nat, 20);
            lemma_pow10_vals();
            assert((a.exp - b.exp) as nat == d as nat);
        }
        let scaled: u128 = (a.mantissa as u128) * pow10_u128(d);
        proof {
            assert(scaled as int == a.mantissa * pow10(d as nat));
            assert(spec_abs_lt(*a, *b) == (a.mantissa * pow10(d as nat) < b.mantissa as int));
        }
        scaled < (b.mantissa as u128)
    }
}

/// Strict numeric comparison of two p-values.
pub fn pv_lt(a: &PValue, b: &PValue) -> (r: bool)
    ensures
        r == spec_lt(*a, *b),
{
    if a.neg && !b.neg {
        return true;
    }
    if !a.neg && b.neg {
        return false;
    }
    // same sign: compare magnitudes, flipped when both are negative
    let (x, y) = if a.neg {
        (*b, *a)
    } else {
        (*a, *b)
    };
    if x.mantissa == 0 {
        proof {
            lemma_pow0(10);
            if x.exp >= y.exp {
                lemma_mul_by_zero_is_zero(pow10((x.exp - y.exp) as nat));
                assert(x.mantissa * pow10((x.exp - y.exp) as nat) == 0);
            } else {
                lemma_mul_by_zero_is_zero(pow10((y.exp - x.exp) as nat));
                if y.mantissa >= 1 {
                    lemma_pow_positive(10, (y.exp - x.exp) as nat);
                    lemma_mul_strict_inequality(0, y.mantissa as int, pow10((y.exp - x.exp) as nat));
                }
            }
        }
        return y.mantissa > 0;
    }
    if y.mantissa == 0 {
        proof {
            lemma_pow0(10);
            if x.exp >= y.exp {
                lemma_pow_positive(10, (x.exp - y.exp) as nat);
                lemma_mul_basics(pow10((x.exp - y.exp) as nat));
                lemma_mul_inequality(1, x.mantissa as int, pow10((x.exp - y.exp) as nat));
            } else {
                lemma_mul_by_zero_is_zero(pow10((y.exp - x.exp) as nat));
            }
        }
        return false;
    }
    abs_lt_pos(&x, &y)
}

/// Three-way comparison: negative for less, zero for equal, positive for
/// greater (well-formed values that are neither equal nor less are greater).
pub fn pv_cmp(a: &PValue, b: &PValue) -> (r: i8)
    requires
        a.wf(),
        b.wf(),
    ensures
        r == -1 || r == 0 || r == 1,
        (r == -1) <==> spec_lt(*a, *b),
        (r == 0) <==> *a == *b,
        (r == 1) <==> spec_lt(*b, *a),

{
    if pv_lt(a, b) {
        proof {
            if *a == *b {
                lemma_lt_connected_self(*a);
            }
            if spec_lt(*b, *a) {
                lemma_lt_trans(*a, *b, *a);
                lemma_lt_connected_self(*a);
            }
        }
        -1
    } else if a.neg == b.neg && a.mantissa == b.mantissa && a.exp == b.exp {
        proof {
            lemma_lt_connected_self(*a);
        }
        0
    } else {
        proof {
            lemma_lt_connected(*a, *b);
        }
        1
    }
}

/// No value is less than itself.
pub proof fn lemma_lt_connected_self(a: PValue)
    ensures
        !spec_lt(a, a),
{
    lemma_pow0(10);
}

// ---------------------------------------------------------------------------
// Parsing decimal literals.
//
// The accepted grammar is the usual one for decimal floating-point literals:
// an optional sign, digits with an optional point (at least one digit in
// total), and an optional exponent part `e`/`E` with optional sign and at
// least one digit. Mantissas of twenty or more significant digits and
// exponent literals of eleven or more digits are rejected rather than
// rounded, as are values whose final exponent falls outside `EXP_LIMIT`.
// ---------------------------------------------------------------------------
pub open spec fn sign_len(s: Seq<char>) -> int {
    if s.len() > 0 && (s[0] == '-' || s[0] == '+') {
        1
    } else {
        0
    }
}

pub open spec fn is_neg_lit(s: Seq<char>) -> bool {
    s.len() > 0 && s[0] == '-'
}

pub open spec fn int_end(s: Seq<char>) -> int {
    digits_end(s, sign_len(s))
}

pub open spec fn has_dot(s: Seq<char>) -> bool {
    int_end(s) < s.len() && s[int_end(s)] == '.'
}

pub open spec fn frac_start(s: Seq<char>) -> int {
    if has_dot(s) {
        int_end(s) + 1
    } else {
        int_end(s)
    }
}

pub open spec fn frac_end(s: Seq<char>) -> int {
    if has_dot(s) {
        digits_end(s, frac_start(s))
    } else {
        int_end(s)
    }
}

/// The mantissa digits: integer part then fraction part.
pub open spec fn lit_digits(s: Seq<char>) -> Seq<char> {
    s.subrange(sign_len(s), int_end(s)) + s.subrange(frac_start(s), frac_end(s))
}

pub open spec fn frac_len(s: Seq<char>) -> int {
    frac_end(s) - frac_start(s)
}

pub open spec fn has_exp_part(s: Seq<char>) -> bool {
    frac_end(s) < s.len()
}

pub open spec fn exp_sign_neg(s: Seq<char>) -> bool {
    frac_end(s) + 1 < s.len() && s[frac_end(s) + 1] == '-'
}

pub open spec fn exp_digits_start(s: Seq<char>) -> int {
    if frac_end(s) + 1 < s.len() && (s[frac_end(s) + 1] == '-' || s[frac_end(s) + 1] == '+') {
        frac_end(s) + 2
    } else {
        frac_end(s) + 1
    }
}

pub open spec fn exp_digits(s: Seq<char>) -> Seq<char> {
    if exp_digits_start(s) <= s.len() {
        s.subrange(exp_digits_start(s), s.len() as int)
    } else {
        Seq::empty()
    }
}

pub open spec fn tail_ok(s: Seq<char>) -> bool {
    if !has_exp_part(s) {
        true
    } else {
        &&& (s[frac_end(s)] == 'e' || s[frac_end(s)] == 'E')
        &&& exp_digits_start(s) < s.len()
        &&& digits_end(s, exp_digits_start(s)) == s.len()
    }
}

pub open spec fn grammar_ok(s: Seq<char>) -> bool {
    lit_digits(s).len() > 0 && tail_ok(s)
}

pub open spec fn exp_val(s: Seq<char>) -> int {
    if has_exp_part(s) {
        if exp_sign_neg(s) {
            -digits_value(exp_digits(s))
        } else {
            digits_value(exp_digits(s))
        }
    } else {
        0
    }
}

/// Mantissa after stripping trailing zero digits.
pub open spec fn norm_m(d: int) -> int
    decreases d when d >= 0
{
    if d <= 0 {
        0
    } else if d % 10 != 0 {
        d
    } else {
        norm_m(d / 10)
    }
}

/// How many trailing zero digits were stripped.
pub open spec fn norm_sh(d: int) -> int
    decreases d when d >= 0
{
    if d <= 0 {
        0
    } else if d % 10 != 0 {
        0
    } else {
        1 + norm_sh(d / 10)
    }
}

pub proof fn lemma_norm(d: int)
    requires
        1 <= d,
    ensures
        1 <= norm_m(d) <= d,
        norm_m(d) % 10 != 0,
        0 <= norm_sh(d),
    decreases d,
{
    if d % 10 == 0 {
        lemma_norm(d / 10);
    }
}

/// The normalized p-value of sign `neg`, raw mantissa `d` and scale `sc`,
/// unless the final exponent leaves the representable range.
pub open spec fn make_pv(neg: bool, d: int, sc: int) -> Option<PValue> {
    if d == 0 {
        Some(PValue::zero_spec())
    } else {
        let m = norm_m(d);
        let e = sc + norm_sh(d);
        if -(EXP_LIMIT as int) <= e <= EXP_LIMIT as int {
            Some(PValue { neg, mantissa: m as u64, exp: e as i32 })
        } else {
            None
        }
    }
}

/// What a decimal literal denotes, or nothing when it is malformed or out
/// of range.
pub open spec fn parse_pv(s: Seq<char>) -> Option<PValue> {
    if grammar_ok(s) && digits_value(lit_digits(s)) < MANTISSA_CAP as int && (has_exp_part(s)
        ==> digits_value(exp_digits(s)) < EXP_CAP as int) {
        make_pv(is_neg_lit(s), digits_value(lit_digits(s)), exp_val(s) - frac_len(s))
    } else {
        None
    }
}

/// The value of concatenated digit strings.
pub proof fn lemma_dv_concat(a: Seq<char>, b: Seq<char>)
    ensures
        digits_value(a + b) == digits_value(a) * pow10(b.len()) + digits_value(b),
    decreases b.len(),
{
    if b.len() == 0 {
        assert(a + b =~= a);
        lemma_pow0(10);
    } else {
        lemma_dv_concat(a, b.drop_last());
        assert((a + b).drop_last() =~= a + b.drop_last());
        assert((a + b).last() == b.last());
        lemma_pow_adds(10, (b.len() - 1) as nat, 1);
        lemma_pow1(10);
        lemma_mul_is_associative(digits_value(a), pow10((b.len() - 1) as nat), 10);
    }
}

/// Seeded digit totals only grow as the scan extends.
proof fn lemma_total_mono(s: Seq<char>, from: int, j: int, to: int, acc0: int)
    requires
        0 <= from <= j <= to <= s.len(),
        all_digits(s.subrange(from, to)),
        acc0 >= 0,
    ensures
        acc0 * pow10((j - from) as nat) + digits_value(s.subrange(from, j)) <= acc0 * pow10(
            (to - from) as nat,
        ) + digits_value(s.subrange(from, to)),
    decreases to - j,
{
    if j < to {
        lemma_total_mono(s, from, j + 1, to, acc0);
        let p = s.subrange(from, j);
        let q = s.subrange(from, j + 1);
        assert(q.drop_last() =~= p);
        assert(q.last() == s.subrange(from, to)[j - from]);
        assert(is_digit(q.last()));
        assert(all_digits(p)) by {
            assert forall|k: int| 0 <= k < p.len() implies is_digit(#[trigger] p[k]) by {
                assert(p[k] == s.subrange(from, to)[k]);
            }
        }
        lemma_digits_value_nonneg(p);
        lemma_pow_positive(10, (j - from) as nat);
        lemma_mul_nonnegative(acc0, pow10((j - from) as nat));
        lemma_pow_adds(10, (j - from) as nat, 1);
        lemma_pow1(10);
        lemma_mul_is_associative(acc0, pow10((j - from) as nat), 10);
        let tj = acc0 * pow10((j - from) as nat) + digits_value(p);
        assert(tj >= 0);
        // total(j+1) == total(j) * 10 + digit >= total(j)
        assert(acc0 * pow10((j + 1 - from) as nat) + digits_value(q) == tj * 10 + digit_val(
            q.last(),
        ));
        assert(tj * 10 + digit_val(q.last()) >= tj);
    }
}

/// Accumulates the decimal digits `s[from..to)` onto `acc0`, reporting
/// failure once the running total reaches `cap`.
fn acc_digits(s: &str, from: usize, to: usize, acc0: u64, cap: u64) -> (r: Option<u64>)
    requires
        from <= to <= s@.len(),
        all_digits(s@.subrange(from as int, to as int)),
        acc0 < cap,
        cap <= MANTISSA_CAP,
    ensures
        ({
            let total = acc0 * pow10((to - from) as nat) + digits_value(
                s@.subrange(from as int, to as int),
            );
            match r {
                Some(v) => v == total && total < cap,
                None => total >= cap,
            }
        }),
{
    let ghost whole = s@.subrange(from as int, to as int);
    let mut acc = acc0;
    let mut k = from;
    proof {
        lemma_pow0(10);
        assert(s@.subrange(from as int, from as int) =~= Seq::<char>::empty());
    }
    while k < to
        invariant
            from <= k <= to <= s@.len(),
            whole == s@.subrange(from as int, to as int),
            all_digits(whole),
            acc == acc0 * pow10((k - from) as nat) + digits_value(
                s@.subrange(from as int, k as int),
            ),
            acc < cap,
            cap <= MANTISSA_CAP,
            acc0 < cap,
        decreases to - k,
    {
        let c = s.get_char(k);
        proof {
            assert(whole[k - from] == s@[k as int]);
            assert(is_digit(c));
        }
        let v = (c as u32 - 48) as u64;
        let wide = (acc as u128) * 10 + (v as u128);
        proof {
            let p = s@.subrange(from as int, k as int);
            let q = s@.subrange(from as int, k + 1);
            assert(q.drop_last() =~= p);
            assert(q.last() == s@[k as int]);
            lemma_pow_adds(10, (k - from) as nat, 1);
            lemma_pow1(10);
            lemma_mul_is_associative(acc0 as int, pow10((k - from) as nat), 10);
            assert(wide as int == acc0 * pow10((k + 1 - from) as nat) + digits_value(q));
        }
        if wide >= cap as u128 {
            proof {
                lemma_total_mono(s@, from as int, k + 1, to as int, acc0 as int);
            }
            return None;
        }
        acc = wide as u64;
        k += 1;
    }
    proof {
        assert(s@.subrange(from as int, to as int) =~= whole);
    }
    Some(acc)
}

/// Parses a decimal literal into a normalized p-value.
#[verifier::rlimit(100)]
pub fn parse_pvalue(s: &str) -> (r: Option<PValue>)
    ensures
        r == parse_pv(s@),
        r matches Some(p) ==> p.wf(),
{
    let n = s.unicode_len();
    let mut i0: usize = 0;
    let mut neg = false;
    if n > 0 {
        let c = s.get_char(0);
        if c == '-' {
            neg = true;
            i0 = 1;
        } else if c == '+' {
            i0 = 1;
        }
    }
    proof {
        assert(i0 as int == sign_len(s@));
        assert(neg == is_neg_lit(s@));
    }
    let j1 = scan_digits(s, i0);
    let mut f0 = j1;
    let mut j2 = j1;
    if j1 < n && s.get_char(j1) == '.' {
        f0 = j1 + 1;
        j2 = scan_digits(s, f0);
    }
    proof {
        assert(f0 as int == frac_start(s@));
        assert(j2 as int == frac_end(s@));
    }
    if j1 == i0 && j2 == f0 {
        proof {
            assert(lit_digits(s@).len() == 0);
        }
        return None;
    }
    let ghost dd = lit_digits(s@);
    proof {
        lemma_digits_end_all_digits(s@, i0 as int);
        lemma_digits_end_all_digits(s@, f0 as int);
        assert(all_digits(s@.subrange(i0 as int, j1 as int)));
        assert(all_digits(s@.subrange(f0 as int, j2 as int)));
        assert forall|k: int| 0 <= k < dd.len() implies is_digit(#[trigger] dd[k]) by {
            if k < j1 - i0 {
                assert(dd[k] == s@.subrange(i0 as int, j1 as int)[k]);
            } else {
                assert(dd[k] == s@.subrange(f0 as int, j2 as int)[k - (j1 - i0)]);
            }
        }
    }
    // integer-part digits
    let acc_int = match acc_digits(s, i0, j1, 0, MANTISSA_CAP) {
        Some(v) => v,
        None => {
            proof {
                lemma_bail_mantissa(s@, i0 as int, j1 as int, f0 as int, j2 as int);
            }
            return None;
        },
    };
    proof {
        vstd::arithmetic::mul::lemma_mul_by_zero_is_zero(pow10((j1 - i0) as nat));
        assert(acc_int == digits_value(s@.subrange(i0 as int, j1 as int)));
    }
    // fraction-part digits
    let acc_all = match acc_digits(s, f0, j2, acc_int, MANTISSA_CAP) {
        Some(v) => v,
        None => {
            proof {
                lemma_dv_concat(s@.subrange(i0 as int, j1 as int), s@.subrange(f0 as int, j2 as int));
            }
            return None;
        },
    };
    proof {
        lemma_dv_concat(s@.subrange(i0 as int, j1 as int), s@.subrange(f0 as int, j2 as int));
        assert(acc_all == digits_value(dd));
    }
    // exponent part
    let mut eneg = false;
    let mut evalue: u64 = 0;
    if j2 < n {
        let c = s.get_char(j2);
        if !(c == 'e' || c == 'E') {
            proof {
                assert(!tail_ok(s@));
            }
            return None;
        }
        let mut q = j2 + 1;
        if q < n {
            let c2 = s.get_char(q);
            if c2 == '-' {
                eneg = true;
                q += 1;
            } else if c2 == '+' {
                q += 1;
            }
        }
        proof {
            assert(q as int == exp_digits_start(s@));
            assert(eneg == exp_sign_neg(s@));
        }
        if q >= n {
            proof {
                assert(!tail_ok(s@));
            }
            return None;
        }
        let j3 = scan_digits(s, q);
        if j3 < n {
            proof {
                assert(!tail_ok(s@));
            }
            return None;
        }
        proof {
            lemma_digits_end_all_digits(s@, q as int);
            assert(exp_digits(s@) =~= s@.subrange(q as int, n as int));
        }
        evalue = match acc_digits(s, q, n, 0, EXP_CAP) {
            Some(v) => v,
            None => {
                proof {
                    vstd::arithmetic::mul::lemma_mul_by_zero_is_zero(pow10((n - q) as nat));
                }
                return None;
            },
        };
        proof {
            vstd::arithmetic::mul::lemma_mul_by_zero_is_zero(pow10((n - q) as nat));
            assert(evalue == digits_value(exp_digits(s@)));
        }
    }
    proof {
        assert(grammar_ok(s@));
        assert(exp_val(s@) == if eneg {
            -(evalue as int)
        } else {
            evalue as int
        });
    }
    if acc_all == 0 {
        return Some(PValue { neg: false, mantissa: 0, exp: 0 });
    }
    // strip trailing zero digits
    proof {
        lemma_norm(acc_all as int);
        lemma_pow0(10);
    }
    let mut m = acc_all;
    let mut sh: usize = 0;
    while m % 10 == 0
        invariant
            1 <= m <= acc_all < MANTISSA_CAP,
            norm_m(acc_all as int) == norm_m(m as int),
            norm_sh(acc_all as int) == sh + norm_sh(m as int),
            acc_all as int == m * pow10(sh as nat),
            sh <= 19,
        decreases m,
    {
        proof {
            lemma_fundamental_div_mod(m as int, 10);
            lemma_pow_adds(10, sh as nat, 1);
            lemma_pow1(10);
            lemma_mul_is_associative((m / 10) as int, 10, pow10(sh as nat));
            vstd::arithmetic::mul::lemma_mul_is_commutative((m / 10) as int, 10);
            vstd::arithmetic::mul::lemma_mul_is_commutative(pow10(sh as nat), 10);
            lemma_mul_is_associative((m / 10) as int, pow10(sh as nat), 10);
            assert(acc_all as int == (m / 10) * pow10((sh + 1) as nat));
            if sh + 1 > 19 {
                lemma_pow_increases(10, 20, (sh + 1) as nat);
                lemma_pow10_vals();
                lemma_mul_inequality(1, (m / 10) as int, pow10((sh + 1) as nat));
                assert(false);
            }
        }
        m = m / 10;
        sh += 1;
    }
    let fl = j2 - f0;
    let e_wide: i128 = (if eneg {
        -(evalue as i128)
    } else {
        evalue as i128
    }) - (fl as i128) + (sh as i128);
    proof {
        assert(frac_len(s@) == fl as int);
        assert(e_wide as int == exp_val(s@) - frac_len(s@) + norm_sh(acc_all as int));
    }
    if e_wide < -(EXP_LIMIT as i128) || e_wide > EXP_LIMIT as i128 {
        return None;
    }
    Some(PValue { neg, mantissa: m, exp: e_wide as i32 })
}

/// When the integer part alone reaches the mantissa cap, the whole literal
/// does.
proof fn lemma_bail_mantissa(s: Seq<char>, i0: int, j1: int, f0: int, j2: int)
    requires
        0 <= i0 <= j1 <= s.len(),
        0 <= f0 <= j2 <= s.len(),
        all_digits(s.subrange(i0, j1)),
        all_digits(s.subrange(f0, j2)),
        digits_value(s.subrange(i0, j1)) >= MANTISSA_CAP,
    ensures
        digits_value(s.subrange(i0, j1) + s.subrange(f0, j2)) >= MANTISSA_CAP,
{
    let a = s.subrange(i0, j1);
    let b = s.subrange(f0, j2);
    lemma_dv_concat(a, b);
    lemma_pow_positive(10, b.len());
    lemma_pow_increases(10, 0, b.len());
    lemma_pow0(10);
    lemma_mul_inequality(1, pow10(b.len()), digits_value(a));
    vstd::arithmetic::mul::lemma_mul_is_commutative(digits_value(a), pow10(b.len()));
    lemma_digits_value_nonneg(b);
}

// ---------------------------------------------------------------------------
// Rendering in scientific notation.
// ---------------------------------------------------------------------------
/// Scientific-notation text of a p-value: sign, mantissa with a point after
/// the first digit when there is more than one, `e`, signed decimal
/// exponent.
pub open spec fn sci_str(p: PValue) -> Seq<char> {
    let ds = dec_str(p.mantissa as nat);
    let edisp = p.exp + ds.len() - 1;
    let mant = if ds.len() == 1 {
        ds
    } else {
        ds.subrange(0, 1) + seq!['.'] + ds.subrange(1, ds.len() as int)
    };
    let etxt = if edisp >= 0 {
        dec_str(edisp as nat)
    } else {
        seq!['-'] + dec_str((-edisp) as nat)
    };
    (if p.neg {
        seq!['-']
    } else {
        Seq::<char>::empty()
    }) + mant + seq!['e'] + etxt
}

pub proof fn lemma_dec_str_len(n: nat)
    ensures
        dec_str(n).len() == ndigits(n),
    decreases n,
{
    if n >= 10 {
        lemma_dec_str_len(n / 10);
    }
}

/// Renders a p-value in scientific notation.
pub fn to_sci(p: &PValue) -> (r: String)
    requires
        p.wf(),
    ensures
        r@ == sci_str(*p),
{
    proof {
        lemma_dec_str_len(p.mantissa as nat);
        if p.mantissa >= 1 {
            lemma_ndigits_le_20(p.mantissa);
        }
        reveal_strlit("-");
        reveal_strlit(".");
        reveal_strlit("e");
    }
    let ds = u64_to_string(p.mantissa);
    let dlen = ds.as_str().unicode_len();
    let mut out = String::new();
    if p.neg {
        out.append("-");
        proof {
            assert(out@ =~= seq!['-']);
        }
    }
    if dlen == 1 {
        out.append(ds.as_str());
    } else {
        let head = ds.as_str().substring_char(0, 1);
        out.append(head);
        out.append(".");
        let tail = ds.as_str().substring_char(1, dlen);
        out.append(tail);
    }
    out.append("e");
    let edisp: i64 = p.exp as i64 + dlen as i64 - 1;
    if edisp >= 0 {
        let es = u64_to_string(edisp as u64);
        out.append(es.as_str());
    } else {
        out.append("-");
        let neg_disp = -edisp;
        let es = u64_to_string(neg_disp as u64);
        out.append(es.as_str());
    }
    proof {
        assert(out@ =~= sci_str(*p));
    }
    out
}

} // verus!

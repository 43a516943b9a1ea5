//! Exact decimal numbers: `mantissa / 10^scale`.
//!
//! Every number of a G-code program is written in decimal notation, so the
//! library keeps it exactly as written and computes with it exactly.

use vstd::prelude::*;
use vstd::arithmetic::div_mod::{lemma_fundamental_div_mod, lemma_fundamental_div_mod_converse};

use crate::text::{digit_char, push_char};

verus! {

/// The largest scale whose power of ten fits in an `i128`.
pub const MAX_SCALE: u32 = 38;

/// `10^37`: the bound on the magnitude of the mantissa of a sum.
pub const SUM_BOUND: i128 = 10_000_000_000_000_000_000_000_000_000_000_000_000;

/// `10^n` as a mathematical integer.
pub open spec fn pow10(n: nat) -> int
    decreases n,
{
    if n == 0 {
        1
    } else {
        10 * pow10((n - 1) as nat)
    }
}

pub proof fn lemma_pow10_positive(n: nat)
    ensures
        pow10(n) >= 1,
    decreases n,
{
    if n > 0 {
        lemma_pow10_positive((n - 1) as nat);
    }
}

pub proof fn lemma_pow10_monotone(a: nat, b: nat)
    requires
        a <= b,
    ensures
        pow10(a) <= pow10(b),
    decreases b - a,
{
    if a < b {
        lemma_pow10_monotone(a, (b - 1) as nat);
        lemma_pow10_positive((b - 1) as nat);
    }
}

pub proof fn lemma_pow10_max_scale()
    ensures
        pow10(MAX_SCALE as nat) == 100000000000000000000000000000000000000int,
        pow10(MAX_SCALE as nat) <= i128::MAX,
{
    reveal_with_fuel(pow10, 40);
}

pub proof fn lemma_pow10_fits(n: nat)
    requires
        n <= MAX_SCALE,
    ensures
        1 <= pow10(n) <= i128::MAX,
{
    lemma_pow10_max_scale();
    lemma_pow10_monotone(n, MAX_SCALE as nat);
    lemma_pow10_positive(n);
}

/// Whether an integer fits in an `i128`.
pub open spec fn fits_i128(x: int) -> bool {
    i128::MIN <= x <= i128::MAX
}

pub open spec fn abs(x: int) -> int {
    if x < 0 {
        -x
    } else {
        x
    }
}

/// Rounds `m / p` to the nearest integer, halves away from zero.
pub open spec fn round_half_away(m: int, p: int) -> int {
    let a = abs(m);
    let q = a / p;
    let r = a % p;
    let up = if 2 * r >= p {
        q + 1
    } else {
        q
    };
    if m >= 0 {
        up
    } else {
        -up
    }
}

/// The decimal digits of `n`, most significant first, with no leading zero.
pub open spec fn nat_digits(n: nat) -> Seq<char>
    decreases n,
{
    if n < 10 {
        seq![digit_char(n)]
    } else {
        nat_digits(n / 10).push(digit_char(n % 10))
    }
}

/// The last `width` decimal digits of `n`, padded with leading zeros.
pub open spec fn padded_digits(n: nat, width: nat) -> Seq<char>
    decreases width,
{
    if width == 0 {
        Seq::empty()
    } else {
        padded_digits(n / 10, (width - 1) as nat).push(digit_char(n % 10))
    }
}

/// A fraction of `width` digits with its trailing zeros removed.
pub open spec fn trimmed_fraction(f: nat, width: nat) -> (nat, nat)
    decreases width,
{
    if width > 0 && f % 10 == 0 {
        trimmed_fraction(f / 10, (width - 1) as nat)
    } else {
        (f, width)
    }
}

/// A decimal number whose value is `mantissa / 10^scale`. Two decimals are
/// equal when their values are, however they are written: `10` and `10.0`
/// are equal.
#[derive(Clone, Copy, Debug, Eq)]
pub struct Decimal {
    pub mantissa: i128,
    pub scale: u32,
}

impl Decimal {
    /// The scale is small enough that `10^scale` fits in an `i128`.
    pub open spec fn wf(self) -> bool {
        self.scale <= MAX_SCALE
    }

    /// `10^scale`.
    pub open spec fn unit(self) -> int {
        pow10(self.scale as nat)
    }

    /// The value rounded to the nearest integer, halves away from zero.
    pub open spec fn spec_round(self) -> int {
        round_half_away(self.mantissa as int, self.unit())
    }

    /// The value lies within `10^-9` of its rounded integer.
    pub open spec fn spec_near_integer(self) -> bool {
        abs(self.mantissa - self.spec_round() * self.unit()) * 1_000_000_000 <= self.unit()
    }

    /// The text of the value: an optional minus sign, the integer part, and,
    /// when the value is not whole, a point and the fraction without
    /// trailing zeros.
    pub open spec fn spec_text(self) -> Seq<char> {
        let a = abs(self.mantissa as int) as nat;
        let p = self.unit() as nat;
        let ip = a / p;
        let fp = a % p;
        let sign: Seq<char> = if self.mantissa < 0 {
            seq!['-']
        } else {
            Seq::empty()
        };
        if fp == 0 {
            sign + nat_digits(ip)
        } else {
            let (f, w) = trimmed_fraction(fp, self.scale as nat);
            sign + nat_digits(ip) + seq!['.'] + padded_digits(f, w)
        }
    }

    /// The decimal `mantissa / 10^scale`.
    pub fn new(mantissa: i128, scale: u32) -> (r: Decimal)
        ensures
            r.mantissa == mantissa,
            r.scale == scale,
    {
        Decimal { mantissa, scale }
    }

    /// Zero.
    pub fn zero() -> (r: Decimal)
        ensures
            r.mantissa == 0,
            r.scale == 0,
    {
        Decimal { mantissa: 0, scale: 0 }
    }

    /// The value is not negative.
    pub fn is_non_negative(&self) -> (r: bool)
        ensures
            r == (self.mantissa >= 0),
    {
        self.mantissa >= 0
    }

    /// The value rounded to the nearest integer, halves away from zero, and
    /// whether the value lies within `10^-9` of it.
    pub fn round(&self) -> (r: (i128, bool))
        requires
            self.wf(),
        ensures
            r.0 == self.spec_round(),
            r.1 == self.spec_near_integer(),
    {
        proof {
            lemma_pow10_fits(self.scale as nat);
        }
        if self.scale == 0 {
            proof {
                assert(self.unit() == 1);
                lemma_fundamental_div_mod(abs(self.mantissa as int), 1);
            }
            return (self.mantissa, true);
        }
        proof {
            lemma_pow10_monotone(1, self.scale as nat);
            reveal_with_fuel(pow10, 2);
        }
        let p: i128 = pow10_exec(self.scale);
        let a: u128 = magnitude(self.mantissa);
        let pu: u128 = p as u128;
        let q: u128 = a / pu;
        let rem: u128 = a % pu;
        let up: bool = 2 * rem >= pu;
        let up_q: u128 = if up {
            q + 1
        } else {
            q
        };
        let dist: u128 = if up {
            pu - rem
        } else {
            rem
        };
        proof {
            lemma_fundamental_div_mod(a as int, pu as int);
            assert(q * 10 <= a) by (nonlinear_arith)
                requires
                    a == pu * q + rem,
                    pu >= 10,
                    rem >= 0,
                    q >= 0,
            ;
            assert(abs(self.mantissa as int) == a);
            let m = self.mantissa as int;
            let sr = self.spec_round();
            assert(sr == if m >= 0 { up_q as int } else { -(up_q as int) });
            assert(abs(m - sr * pu) == dist) by (nonlinear_arith)
                requires
                    a == pu * q + rem,
                    0 <= rem < pu,
                    up_q == if up { q + 1 } else { q as int },
                    dist == if up { pu - rem } else { rem as int },
                    up == (2 * rem >= pu),
                    a == abs(m),
                    sr == if m >= 0 { up_q as int } else { -(up_q as int) },
            ;
        }
        let rounded: i128 = if self.mantissa >= 0 {
            up_q as i128
        } else {
            -(up_q as i128)
        };
        let limit: u128 = pu / 1_000_000_000;
        proof {
            lemma_fundamental_div_mod(pu as int, 1_000_000_000);
            assert((dist * 1_000_000_000 <= pu) == (dist <= limit)) by (nonlinear_arith)
                requires
                    pu == 1_000_000_000 * limit + pu % 1_000_000_000,
                    0 <= pu % 1_000_000_000 < 1_000_000_000,
                    dist >= 0,
            ;
        }
        (rounded, dist <= limit)
    }
}

impl Decimal {
    /// The text of the value, as [`Decimal::spec_text`] describes it.
    pub fn to_text(&self) -> (r: String)
        requires
            self.wf(),
        ensures
            r@ == self.spec_text(),
    {
        proof {
            lemma_pow10_fits(self.scale as nat);
        }
        let p: u128 = pow10_exec(self.scale) as u128;
        let a: u128 = magnitude(self.mantissa);
        let ip: u128 = a / p;
        let fp: u128 = a % p;
        let mut out = String::new();
        if self.mantissa < 0 {
            push_char(&mut out, '-');
        }
        push_nat_digits(&mut out, ip);
        if fp != 0 {
            let (f, w) = trim_fraction(fp, self.scale);
            push_char(&mut out, '.');
            push_padded_digits(&mut out, f, w);
        }
        proof {
            let sign: Seq<char> = if self.mantissa < 0 { seq!['-'] } else { Seq::empty() };
            if fp == 0 {
                assert(out@ =~= sign + nat_digits(ip as nat));
            } else {
                let (f, w) = trimmed_fraction(fp as nat, self.scale as nat);
                assert(out@ =~= sign + nat_digits(ip as nat) + seq!['.'] + padded_digits(f, w));
            }
        }
        out
    }
}

/// The character of a digit below ten.
fn digit(d: u128) -> (c: char)
    requires
        d < 10,
    ensures
        c == digit_char(d as nat),
{
    ((d as u8) + 48u8) as char
}

/// Appends the decimal digits of `n`.
fn push_nat_digits(s: &mut String, n: u128)
    ensures
        final(s)@ == old(s)@ + nat_digits(n as nat),
    decreases n,
{
    if n >= 10 {
        push_nat_digits(s, n / 10);
    }
    push_char(s, digit(n % 10));
    proof {
        if n >= 10 {
            assert(final(s)@ =~= old(s)@ + nat_digits(n as nat));
        } else {
            assert(final(s)@ =~= old(s)@ + nat_digits(n as nat));
        }
    }
}

/// Appends the last `width` digits of `n`, with leading zeros.
fn push_padded_digits(s: &mut String, n: u128, width: u32)
    ensures
        final(s)@ == old(s)@ + padded_digits(n as nat, width as nat),
    decreases width,
{
    if width == 0 {
        assert(final(s)@ =~= old(s)@ + padded_digits(n as nat, width as nat));
        return;
    }
    push_padded_digits(s, n / 10, width - 1);
    push_char(s, digit(n % 10));
    assert(final(s)@ =~= old(s)@ + padded_digits(n as nat, width as nat));
}

/// Removes the trailing zeros of a fraction of `width` digits.
fn trim_fraction(fraction: u128, width: u32) -> (r: (u128, u32))
    ensures
        (r.0 as nat, r.1 as nat) == trimmed_fraction(fraction as nat, width as nat),
{
    let mut f: u128 = fraction;
    let mut w: u32 = width;
    while w > 0 && f % 10 == 0
        invariant
            trimmed_fraction(f as nat, w as nat) == trimmed_fraction(fraction as nat, width as nat),
        decreases w,
    {
        f = f / 10;
        w = w - 1;
    }
    (f, w)
}

/// `10^n` for a scale whose power fits in an `i128`.
fn pow10_exec(n: u32) -> (r: i128)
    requires
        n <= MAX_SCALE,
    ensures
        r == pow10(n as nat),
{
    proof {
        lemma_pow10_fits(n as nat);
    }
    let mut p: i128 = 1;
    let mut i: u32 = 0;
    while i < n
        invariant
            i <= n <= MAX_SCALE,
            p == pow10(i as nat),
        decreases n - i,
    {
        proof {
            lemma_pow10_fits((i + 1) as nat);
        }
        p = p * 10;
        i = i + 1;
    }
    p
}

/// The magnitude of an `i128`.
fn magnitude(m: i128) -> (r: u128)
    ensures
        r == abs(m as int),
{
    if m >= 0 {
        m as u128
    } else {
        ((-(m + 1)) as u128) + 1
    }
}

pub proof fn lemma_pow10_add(a: nat, b: nat)
    ensures
        pow10(a + b) == pow10(a) * pow10(b),
    decreases b,
{
    if b > 0 {
        lemma_pow10_add(a, (b - 1) as nat);
        assert(pow10(a + b) == 10 * pow10((a + b - 1) as nat));
        assert(pow10(a) * (10 * pow10((b - 1) as nat)) == 10 * (pow10(a) * pow10((b - 1) as nat)))
            by (nonlinear_arith);
    }
}

/// `t / 10^k` rounded to the nearest integer, halves upward.
pub open spec fn round_digits(t: int, k: nat) -> int {
    if k == 0 {
        t
    } else {
        (t + 5 * pow10((k - 1) as nat)) / pow10(k)
    }
}

/// The larger scale of two decimals.
pub open spec fn sum_scale(a: Decimal, b: Decimal) -> nat {
    if a.scale >= b.scale {
        a.scale as nat
    } else {
        b.scale as nat
    }
}

/// The exact sum of two decimals, as a mantissa at their [`sum_scale`].
pub open spec fn exact_sum(a: Decimal, b: Decimal) -> int {
    let s = sum_scale(a, b);
    a.mantissa * pow10((s - a.scale) as nat) + b.mantissa * pow10((s - b.scale) as nat)
}

/// The number `t / 10^s` with its last `k` or more digits rounded away:
/// as few as keep the mantissa within [`SUM_BOUND`]; when not even the
/// integer part stays within it, the bound with the sign of the number.
pub open spec fn fit_sum(t: int, s: nat, k: nat) -> Decimal
    decreases s - k,
{
    let q = round_digits(t, k);
    if abs(q) <= SUM_BOUND {
        Decimal { mantissa: q as i128, scale: (s - k) as u32 }
    } else if k >= s {
        Decimal {
            mantissa: (if q > 0 {
                SUM_BOUND as int
            } else {
                -SUM_BOUND
            }) as i128,
            scale: 0,
        }
    } else {
        fit_sum(t, s, k + 1)
    }
}

/// The sum of two decimals: exact at the larger of their scales when its
/// mantissa stays within [`SUM_BOUND`], else rounded, halves upward, to the
/// most digits after the point that keep it within the bound.
pub open spec fn spec_rounded_add(a: Decimal, b: Decimal) -> Decimal {
    fit_sum(exact_sum(a, b), sum_scale(a, b), 0)
}

proof fn lemma_fit_sum_bounded(t: int, s: nat, k: nat)
    requires
        k <= s <= MAX_SCALE,
    ensures
        fit_sum(t, s, k).bounded(),
    decreases s - k,
{
    if abs(round_digits(t, k)) > SUM_BOUND && k < s {
        lemma_fit_sum_bounded(t, s, k + 1);
    }
}

/// A rounded sum of bounded decimals is bounded.
pub proof fn lemma_rounded_add_bounded(a: Decimal, b: Decimal)
    requires
        a.bounded(),
        b.bounded(),
    ensures
        spec_rounded_add(a, b).bounded(),
{
    lemma_fit_sum_bounded(exact_sum(a, b), sum_scale(a, b), 0);
}

proof fn lemma_fit_sum_exact(t: int, s: nat, j: nat, k: nat, c: int)
    requires
        j <= k <= s <= MAX_SCALE,
        t == c * pow10(k),
        abs(c) <= SUM_BOUND,
    ensures
        ({
            let r = fit_sum(t, s, j);
            &&& j <= s - r.scale <= k
            &&& r.mantissa * pow10((s - r.scale) as nat) == t
        }),
    decreases k - j,
{
    let q = round_digits(t, j);
    let pj = pow10(j);
    let n = c * pow10((k - j) as nat);
    lemma_pow10_add((k - j) as nat, j);
    assert((k - j) as nat + j == k);
    assert(t == n * pj) by (nonlinear_arith)
        requires
            t == c * pow10(k),
            pow10(k) == pow10((k - j) as nat) * pj,
            n == c * pow10((k - j) as nat),
    ;
    if j > 0 {
        let h = 5 * pow10((j - 1) as nat);
        lemma_pow10_positive((j - 1) as nat);
        assert(pj == 10 * pow10((j - 1) as nat));
        lemma_fundamental_div_mod_converse(h, pj, 0, h);
        lemma_div_shift(h, n, pj);
        assert(t + h == h + n * pj);
    } else {
        assert(pj == 1);
    }
    assert(q == n);
    if abs(q) > SUM_BOUND {
        if j == k {
            assert(pow10(0) == 1);
        }
        lemma_fit_sum_exact(t, s, j + 1, k, c);
    } else {
        let r = fit_sum(t, s, j);
        assert(r.mantissa == q);
        assert(r.scale == s - j);
        assert((s - r.scale) as nat == j);
        assert(r.mantissa * pow10(j) == t);
    }
}

/// A sum is exact whenever its value has a form with at most the larger
/// scale of the two decimals and a mantissa within [`SUM_BOUND`]: then
/// the rounded sum has the value of the exact sum.
pub proof fn law_rounded_add_exact(a: Decimal, b: Decimal, k: nat, c: int)
    requires
        a.bounded(),
        b.bounded(),
        k <= sum_scale(a, b),
        exact_sum(a, b) == c * pow10(k),
        abs(c) <= SUM_BOUND,
    ensures
        ({
            let r = spec_rounded_add(a, b);
            &&& r.scale <= sum_scale(a, b)
            &&& r.mantissa * pow10((sum_scale(a, b) - r.scale) as nat) == exact_sum(a, b)
        }),
{
    lemma_fit_sum_exact(exact_sum(a, b), sum_scale(a, b), 0, k, c);
}

proof fn lemma_div_shift(t: int, n: int, p: int)
    requires
        p > 0,
    ensures
        (t + n * p) / p == t / p + n,
{
    lemma_fundamental_div_mod(t, p);
    let q = t / p;
    let r = t % p;
    assert(t + n * p == (q + n) * p + r) by (nonlinear_arith)
        requires
            t == p * q + r,
    ;
    lemma_fundamental_div_mod_converse(t + n * p, p, q + n, r);
}

proof fn lemma_div_nested(x: int, p: int, c: int)
    requires
        p > 0,
        c > 0,
    ensures
        x / (p * c) == (x / p) / c,
{
    lemma_fundamental_div_mod(x, p);
    let q1 = x / p;
    let r1 = x % p;
    lemma_fundamental_div_mod(q1, c);
    let q2 = q1 / c;
    let r2 = q1 % c;
    assert(x == q2 * (p * c) + (p * r2 + r1) && 0 <= p * r2 + r1 < p * c) by (nonlinear_arith)
        requires
            x == p * q1 + r1,
            q1 == c * q2 + r2,
            0 <= r1 < p,
            0 <= r2 < c,
    ;
    assert(p * c > 0) by (nonlinear_arith)
        requires
            p > 0,
            c > 0,
    ;
    lemma_fundamental_div_mod_converse(x, p * c, q2, p * r2 + r1);
}

proof fn lemma_floor_div_bound(x: int, p: int)
    requires
        p >= 1,
    ensures
        abs(x / p) <= abs(x),
{
    lemma_fundamental_div_mod(x, p);
    let q = x / p;
    let r = x % p;
    assert(abs(q) <= abs(x)) by (nonlinear_arith)
        requires
            x == p * q + r,
            0 <= r < p,
            p >= 1,
    ;
}

proof fn lemma_round_digits_bound(x: int, k: nat)
    ensures
        abs(round_digits(x, k)) <= abs(x),
{
    if k > 0 {
        let h = 5 * pow10((k - 1) as nat);
        let p = pow10(k);
        lemma_pow10_positive((k - 1) as nat);
        assert(p == 10 * pow10((k - 1) as nat));
        lemma_fundamental_div_mod(x + h, p);
        let q = (x + h) / p;
        let r = (x + h) % p;
        assert(abs(q) <= abs(x)) by (nonlinear_arith)
            requires
                x + h == p * q + r,
                0 <= r < p,
                0 < h,
                2 * h == p,
        ;
    }
}

/// The rounded sum at `k` rounded digits, from the operand of the larger
/// scale and the other, while `k` stays within their difference of scales.
proof fn lemma_round_sum_low(hm: int, lm: int, d: nat, k: nat)
    requires
        k <= d,
    ensures
        round_digits(hm + lm * pow10(d), k) == lm * pow10((d - k) as nat) + round_digits(hm, k),
{
    lemma_pow10_add((d - k) as nat, k);
    assert((d - k) as nat + k == d);
    if k > 0 {
        let p = pow10(k);
        let h = 5 * pow10((k - 1) as nat);
        lemma_pow10_positive(k);
        let n = lm * pow10((d - k) as nat);
        assert(hm + lm * pow10(d) + h == (hm + h) + n * p) by (nonlinear_arith)
            requires
                pow10(d) == pow10((d - k) as nat) * p,
                n == lm * pow10((d - k) as nat),
        ;
        lemma_div_shift(hm + h, n, p);
    } else {
        assert(pow10(0) == 1);
    }
}

/// The rounded sum at `k` rounded digits once `k` exceeds the difference
/// `d` of scales: the larger-scale operand floored to the other's scale,
/// plus the other, rounded at `k - d` digits.
proof fn lemma_round_sum_high(hm: int, lm: int, d: nat, k: nat)
    requires
        k > d,
    ensures
        round_digits(hm + lm * pow10(d), k) == round_digits(hm / pow10(d) + lm, (k - d) as nat),
{
    let j = (k - d) as nat;
    let pd = pow10(d);
    let pj = pow10(j);
    lemma_pow10_positive(d);
    lemma_pow10_positive(j);
    lemma_pow10_add(d, j);
    assert(d + j == k);
    lemma_pow10_add(d, (j - 1) as nat);
    assert(d + (j - 1) as nat == (k - 1) as nat);
    let hj = 5 * pow10((j - 1) as nat);
    let hk = 5 * pow10((k - 1) as nat);
    assert(hk == hj * pd) by (nonlinear_arith)
        requires
            hk == 5 * pow10((k - 1) as nat),
            hj == 5 * pow10((j - 1) as nat),
            pow10((k - 1) as nat) == pd * pow10((j - 1) as nat),
    ;
    let x = hm + lm * pd + hk;
    assert(x == hm + (lm + hj) * pd) by (nonlinear_arith)
        requires
            x == hm + lm * pd + hk,
            hk == hj * pd,
    ;
    lemma_div_shift(hm, lm + hj, pd);
    lemma_div_nested(x, pd, pj);
}

/// The quotient of `x` by `p`, rounded down.
fn floor_div(x: i128, p: i128) -> (r: i128)
    requires
        p > 0,
    ensures
        r == x / p,
{
    if x >= 0 {
        let q: u128 = (x as u128) / (p as u128);
        proof {
            lemma_floor_div_bound(x as int, p as int);
        }
        q as i128
    } else {
        let n: u128 = magnitude(x);
        let a: u128 = (n - 1) / (p as u128);
        let b: u128 = (n - 1) % (p as u128);
        proof {
            lemma_fundamental_div_mod((n - 1) as int, p as int);
            assert(a <= n - 1) by (nonlinear_arith)
                requires
                    n - 1 == p * a + b,
                    p >= 1,
                    b >= 0,
                    a >= 0,
            ;
            assert(x == (-(a as int) - 1) * p + (p - b - 1)) by (nonlinear_arith)
                requires
                    x == -(n as int),
                    n - 1 == p * a + b,
            ;
            lemma_fundamental_div_mod_converse(x as int, p as int, -(a as int) - 1, p - b - 1);
        }
        -(a as i128) - 1
    }
}

/// `x / 10^k` rounded to the nearest integer, halves upward.
fn round_exec(x: i128, k: u32) -> (r: i128)
    requires
        abs(x as int) <= 2 * SUM_BOUND,
        k <= MAX_SCALE,
    ensures
        r == round_digits(x as int, k as nat),
{
    if k == 0 {
        return x;
    }
    proof {
        lemma_pow10_fits(k as nat);
        lemma_pow10_max_scale();
        lemma_pow10_monotone((k - 1) as nat, 37);
        assert(pow10(38) == 10 * pow10(37));
        assert(pow10(k as nat) == 10 * pow10((k - 1) as nat));
    }
    let h: i128 = 5 * pow10_exec(k - 1);
    let p: i128 = pow10_exec(k);
    floor_div(x + h, p)
}

impl Decimal {
    /// The mantissa lies within [`SUM_BOUND`] and the scale within
    /// [`MAX_SCALE`].
    pub open spec fn bounded(self) -> bool {
        abs(self.mantissa as int) <= SUM_BOUND && self.scale <= MAX_SCALE
    }

    /// The sum, as [`spec_rounded_add`] says: exact when its mantissa fits,
    /// else rounded to as many digits after the point as fit.
    pub fn rounded_add(&self, other: &Decimal) -> (r: Decimal)
        requires
            self.bounded(),
            other.bounded(),
        ensures
            r == spec_rounded_add(*self, *other),
            r.bounded(),
    {
        let (hi, lo) = if self.scale >= other.scale {
            (*self, *other)
        } else {
            (*other, *self)
        };
        let s: u32 = hi.scale;
        let d: u32 = hi.scale - lo.scale;
        let ghost t = exact_sum(*self, *other);
        proof {
            assert(pow10(0) == 1);
            lemma_pow10_fits(d as nat);
            let pd = pow10(d as nat);
            if self.scale >= other.scale {
                assert(sum_scale(*self, *other) == self.scale);
                assert(t == self.mantissa * pow10(0) + other.mantissa * pd);
                assert(self.mantissa * pow10(0) == self.mantissa);
            } else {
                assert(sum_scale(*self, *other) == other.scale);
                assert(t == self.mantissa * pd + other.mantissa * pow10(0));
                assert(other.mantissa * pow10(0) == other.mantissa);
            }
            assert(t == hi.mantissa + lo.mantissa * pd);
        }
        let pd: i128 = pow10_exec(d);
        let hq: i128 = floor_div(hi.mantissa, pd);
        proof {
            lemma_floor_div_bound(hi.mantissa as int, pd as int);
        }
        let v: i128 = hq + lo.mantissa;
        let mut k: u32 = 0;
        loop
            invariant
                k <= s,
                s == sum_scale(*self, *other),
                s <= MAX_SCALE,
                d <= s,
                hi.bounded(),
                lo.bounded(),
                t == hi.mantissa + lo.mantissa * pow10(d as nat),
                v == (hi.mantissa as int) / pow10(d as nat) + lo.mantissa,
                abs(v as int) <= 2 * SUM_BOUND,
                fit_sum(t, s as nat, k as nat) == spec_rounded_add(*self, *other),
            decreases s - k,
        {
            let q: Option<i128> = if k <= d {
                proof {
                    lemma_pow10_fits((d - k) as nat);
                    lemma_round_sum_low(hi.mantissa as int, lo.mantissa as int, d as nat, k as nat);
                    lemma_round_digits_bound(hi.mantissa as int, k as nat);
                }
                let p: i128 = pow10_exec(d - k);
                let rh: i128 = round_exec(hi.mantissa, k);
                match lo.mantissa.checked_mul(p) {
                    Some(y) => y.checked_add(rh),
                    None => None,
                }
            } else {
                proof {
                    lemma_round_sum_high(hi.mantissa as int, lo.mantissa as int, d as nat, k as nat);
                }
                Some(round_exec(v, k - d))
            };
            proof {
                lemma_pow10_max_scale();
                if q is None {
                    assert(abs(round_digits(t, k as nat)) > SUM_BOUND);
                }
                if k == s {
                    if k <= d {
                        assert(d - k == 0);
                        assert(pow10(0) == 1);
                    }
                    assert(q is Some);
                }
            }
            if let Some(x) = q {
                if -SUM_BOUND <= x && x <= SUM_BOUND {
                    return Decimal { mantissa: x, scale: s - k };
                }
            }
            if k == s {
                let x: i128 = q.unwrap();
                return Decimal {
                    mantissa: if x > 0 {
                        SUM_BOUND
                    } else {
                        -SUM_BOUND
                    },
                    scale: 0,
                };
            }
            k = k + 1;
        }
    }
}

/// The two decimals have the same value.
pub open spec fn same_value(a: Decimal, b: Decimal) -> bool {
    let s = sum_scale(a, b);
    a.mantissa * pow10((s - a.scale) as nat) == b.mantissa * pow10((s - b.scale) as nat)
}

/// Whether two decimals have the same value, as [`same_value`] says.
pub fn equal_values(a: Decimal, b: Decimal) -> (r: bool)
    ensures
        r == same_value(a, b),
{
    let (hi, lo) = if a.scale >= b.scale {
        (a, b)
    } else {
        (b, a)
    };
    let d: u32 = hi.scale - lo.scale;
    let ghost pd = pow10(d as nat);
    proof {
        assert(pow10(0) == 1);
        lemma_pow10_positive(d as nat);
        if a.scale >= b.scale {
            assert(sum_scale(a, b) == a.scale);
            assert(a.mantissa * pow10(0) == a.mantissa);
        } else {
            assert(sum_scale(a, b) == b.scale);
            assert(b.mantissa * pow10(0) == b.mantissa);
        }
        assert(same_value(a, b) == (hi.mantissa == lo.mantissa * pd));
    }
    if lo.mantissa == 0 {
        return hi.mantissa == 0;
    }
    let mut p: i128 = 1;
    let mut i: u32 = 0;
    while i < d
        invariant
            i <= d,
            p == pow10(i as nat),
            pd == pow10(d as nat),
            lo.mantissa != 0,
            same_value(a, b) == (hi.mantissa == lo.mantissa * pd),
        decreases d - i,
    {
        proof {
            lemma_pow10_positive(i as nat);
        }
        match p.checked_mul(10) {
            Some(q) => {
                p = q;
            },
            None => {
                proof {
                    lemma_pow10_monotone((i + 1) as nat, d as nat);
                    assert(pow10((i + 1) as nat) == 10 * p);
                    assert(10 * p != 170141183460469231731687303715884105728int);
                    let m = lo.mantissa as int;
                    let h = hi.mantissa as int;
                    assert(m * pd != h) by (nonlinear_arith)
                        requires
                            m != 0,
                            pd > 170141183460469231731687303715884105728int,
                            -170141183460469231731687303715884105728int <= h
                                <= 170141183460469231731687303715884105727int,
                    ;
                }
                return false;
            },
        }
        i = i + 1;
    }
    match lo.mantissa.checked_mul(p) {
        Some(x) => x == hi.mantissa,
        None => false,
    }
}

impl PartialEq for Decimal {
    fn eq(&self, other: &Self) -> (r: bool) {
        equal_values(*self, *other)
    }
}

impl vstd::std_specs::cmp::PartialEqSpecImpl for Decimal {
    open spec fn obeys_eq_spec() -> bool {
        true
    }

    open spec fn eq_spec(&self, other: &Decimal) -> bool {
        same_value(*self, *other)
    }
}

} // verus!

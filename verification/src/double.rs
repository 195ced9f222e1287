//! Binary floating point numbers of 64 bits, kept as their bits.
//!
//! Answers give times as numbers of seconds or of samples. What they come to in milliseconds is
//! worked out here on integers, with the rounding that the arithmetic of such numbers has: the
//! nearest number of 53 binary digits, and of two that are equally near the even one.

use vstd::prelude::*;

verus! {

/// The largest fraction field of a number, and one.
pub const UNIT: u64 = 0x10_0000_0000_0000;

/// The number 16000.
pub const SIXTEEN_THOUSAND: u64 = 0x40CF_4000_0000_0000;

/// The exponent field of a number.
pub open spec fn exponent_field(bits: u64) -> int {
    (bits / UNIT) as int % 2048
}

/// The fraction field of a number.
pub open spec fn fraction_field(bits: u64) -> int {
    (bits % UNIT) as int
}

/// Whether a number is more than zero. What is no number is not.
pub open spec fn positive(bits: u64) -> bool {
    0 < bits <= 2047 * UNIT
}

/// Whether a number that is more than zero has no end.
pub open spec fn endless(bits: u64) -> bool {
    exponent_field(bits) == 2047
}

/// The digits of a number, as a whole number.
pub open spec fn digits(bits: u64) -> nat {
    if exponent_field(bits) == 0 {
        fraction_field(bits) as nat
    } else {
        (fraction_field(bits) + UNIT) as nat
    }
}

/// The power of two that the digits of a number are multiplied by.
pub open spec fn scale(bits: u64) -> int {
    if exponent_field(bits) == 0 {
        -1074
    } else {
        exponent_field(bits) - 1075
    }
}

/// How far a quotient is from having 53 digits.
pub open spec fn distance(p: nat, q: nat) -> int {
    if p < 0x10_0000_0000_0000 * q {
        0x10_0000_0000_0000 * q - p
    } else if p >= 0x20_0000_0000_0000 * q {
        p - 0x10_0000_0000_0000 * q
    } else {
        0
    }
}

/// A quotient `p / q` with one side doubled until it has 53 binary digits in front of the
/// point, and the power of two that takes it back.
pub open spec fn aligned(p: nat, q: nat, t: int) -> (nat, nat, int)
    decreases distance(p, q),
{
    if p == 0 || q == 0 {
        (p, q, t)
    } else if p < 0x10_0000_0000_0000 * q {
        aligned(2 * p, q, t - 1)
    } else if p >= 0x20_0000_0000_0000 * q {
        aligned(p, 2 * q, t + 1)
    } else {
        (p, q, t)
    }
}

/// The whole number nearest to `a / b`, and of two that are equally near the even one.
pub open spec fn half_even(a: nat, b: nat) -> nat {
    if 2 * (a % b) > b || (2 * (a % b) == b && a / b % 2 == 1) {
        a / b + 1
    } else {
        a / b
    }
}

/// The number of 53 binary digits nearest to `p / q`: its digits, and the power of two that
/// they are multiplied by.
pub open spec fn nearest(p: nat, q: nat) -> (nat, int) {
    let (a, b, t) = aligned(p, q, 0);
    (half_even(a, b), t)
}

/// `m` times the power `e` of two, without what stands behind the point.
pub open spec fn shifted(m: nat, e: int) -> nat
    decreases
            if e < 0 {
                -e
            } else {
                e
            },
{
    if e > 0 {
        shifted(2 * m, e - 1)
    } else if e < 0 {
        shifted(m / 2, e + 1)
    } else {
        m
    }
}

/// As much of a whole number as 64 bits can say.
pub open spec fn capped(n: nat) -> nat {
    if n <= u64::MAX {
        n
    } else {
        u64::MAX as nat
    }
}

/// A thousand times a number: its digits, and the power of two that they are multiplied by.
pub open spec fn thousandfold(bits: u64) -> (nat, int) {
    let (r, t) = nearest(1000 * digits(bits), 1);
    (r, t + scale(bits))
}

/// Whether a number with these digits, 53 of them, is past the last one that has an end.
pub open spec fn overflows(r: nat, e: int) -> bool {
    e > 971 || (e == 971 && r == 2 * UNIT)
}

/// A time in seconds, in whole milliseconds. One before the start is at the start.
pub open spec fn whole_ms(seconds: u64) -> nat {
    let (r, e) = thousandfold(seconds);
    if !positive(seconds) {
        0
    } else if endless(seconds) || overflows(r, e) {
        u64::MAX as nat
    } else {
        capped(shifted(r, e))
    }
}

/// A time in samples, so many of them a second, in whole milliseconds. One before the start is
/// at the start.
pub open spec fn whole_ms_at(samples: u64, rate: u64) -> nat {
    let (r, e) = thousandfold(samples);
    let (d, t) = nearest(r, digits(rate));
    if !positive(samples) || endless(rate) {
        0
    } else if endless(samples) || overflows(r, e) {
        u64::MAX as nat
    } else {
        capped(shifted(d, t + e - scale(rate)))
    }
}

/// Whether a number is more than zero.
pub fn is_positive(bits: u64) -> (r: bool)
    ensures
        r == positive(bits),
{
    0 < bits && bits <= 2047 * UNIT
}

fn is_endless(bits: u64) -> (r: bool)
    ensures
        r == endless(bits),
{
    (bits / UNIT) % 2048 == 2047
}

fn digits_of(bits: u64) -> (r: u64)
    ensures
        r == digits(bits),
        r < 2 * UNIT,
{
    if (bits / UNIT) % 2048 == 0 {
        bits % UNIT
    } else {
        bits % UNIT + UNIT
    }
}

fn scale_of(bits: u64) -> (r: i128)
    ensures
        r == scale(bits),
        -1074 <= r <= 972,
{
    let field: u64 = (bits / UNIT) % 2048;
    if field == 0 {
        -1074
    } else {
        field as i128 - 1075
    }
}

fn half_even_of(a: u128, b: u128) -> (r: u128)
    requires
        b > 0,
        2 * b <= u128::MAX,
        a < u128::MAX,
    ensures
        r == half_even(a as nat, b as nat),
{
    let d: u128 = a / b;
    let left: u128 = a % b;
    assert(d <= a) by (nonlinear_arith)
        requires
            d == a / b,
            b > 0,
    ;
    if 2 * left > b || (2 * left == b && d % 2 == 1) {
        d + 1
    } else {
        d
    }
}

fn nearest_of(p: u64, q: u64) -> (r: (u128, i128))
    requires
        0 < p <= 0x7fff_ffff_ffff_ffff,
        0 < q < 2 * UNIT,
    ensures
        r.0 == nearest(p as nat, q as nat).0,
        r.1 == nearest(p as nat, q as nat).1,
        UNIT <= r.0 <= 2 * UNIT,
        -0x1_0000_0000_0000_0000_0000_0000_0000 <= r.1 <= 0x8000_0000_0000_0000,
{
    let mut a: u128 = p as u128;
    let mut b: u128 = q as u128;
    let mut t: i128 = 0;
    while a < 0x10_0000_0000_0000 * b
        invariant
            b == q,
            0 < q < 2 * UNIT,
            0 < a,
            a < 0x20_0000_0000_0000 * b || (t == 0 && a == p),
            p <= 0x7fff_ffff_ffff_ffff,
            a <= 0x8000_0000_0000_0000 || a < 0x20_0000_0000_0000 * b,
            t <= 0,
            1 - t <= a,
            aligned(p as nat, q as nat, 0) == aligned(a as nat, b as nat, t as int),
        decreases 0x20_0000_0000_0000 * b - a,
    {
        a = 2 * a;
        t = t - 1;
    }
    assert(t < 0 ==> a < 0x20_0000_0000_0000 * b);
    while a >= 0x20_0000_0000_0000 * b
        invariant
            0 < b,
            0x10_0000_0000_0000 * b <= a,
            t > 0 ==> b <= 0x8000_0000_0000_0000,
            b < 0x20_0000_0000_0000 || 0x20_0000_0000_0000 * b <= 2 * a,
            a <= 0x8000_0000_0000_0000 || a < 0x20_0000_0000_0000 * b,
            a < 0x4000_0000_0000_0000_0000_0000_0000,
            -0x1_0000_0000_0000_0000_0000_0000_0000 <= t <= b,
            t <= 0x8000_0000_0000_0000,
            aligned(p as nat, q as nat, 0) == aligned(a as nat, b as nat, t as int),
        decreases a - 0x10_0000_0000_0000 * b,
    {
        b = 2 * b;
        t = t + 1;
    }
    let r = half_even_of(a, b);
    proof {
        lemma_half_even(a as nat, b as nat);
    }
    (r, t)
}

/// What [`half_even`] picks is no further than half a unit away, and lies between the whole
/// numbers that the quotient lies between.
pub proof fn lemma_half_even(a: nat, b: nat)
    requires
        b > 0,
    ensures
        2 * (a - half_even(a, b) * b) <= b,
        2 * (half_even(a, b) * b - a) <= b,
        a >= 0x10_0000_0000_0000 * b ==> half_even(a, b) >= UNIT,
        a < 0x20_0000_0000_0000 * b ==> half_even(a, b) <= 2 * UNIT,
{
    let d = a / b;
    assert(a == d * b + a % b) by (nonlinear_arith)
        requires
            d == a / b,
            b > 0,
    ;
    assert((d + 1) * b == d * b + b) by (nonlinear_arith);
    assert(a % b < b);
    if a >= 0x10_0000_0000_0000 * b {
        assert(d >= UNIT) by (nonlinear_arith)
            requires
                a >= 0x10_0000_0000_0000 * b,
                a < d * b + b,
                b > 0,
        ;
    }
    if a < 0x20_0000_0000_0000 * b {
        assert(d < 2 * UNIT) by (nonlinear_arith)
            requires
                a < 0x20_0000_0000_0000 * b,
                a >= d * b,
                b > 0,
        ;
    }
}

proof fn lemma_shifted_up(m: nat, e: int)
    requires
        e >= 0,
    ensures
        shifted(m, e) >= m,
        m == 0 ==> shifted(m, e) == 0,
    decreases e,
{
    if e > 0 {
        lemma_shifted_up(2 * m, e - 1);
    }
}

proof fn lemma_shifted_nothing(e: int)
    requires
        e <= 0,
    ensures
        shifted(0, e) == 0,
    decreases -e,
{
    if e < 0 {
        lemma_shifted_nothing(e + 1);
    }
}

fn whole_of(m: u128, e: i128) -> (r: u64)
    requires
        m <= u64::MAX,
    ensures
        r == capped(shifted(m as nat, e as int)),
{
    let mut v: u128 = m;
    let mut k: i128 = e;
    while k > 0 && 0 < v && v <= u64::MAX as u128
        invariant
            e <= 0 ==> k == e,
            e > 0 ==> k >= 0,
            v <= 2 * u64::MAX as u128,
            e <= 0 ==> v <= u64::MAX,
            shifted(m as nat, e as int) == shifted(v as nat, k as int),
        decreases k,
    {
        v = 2 * v;
        k = k - 1;
    }
    if k >= 0 {
        proof {
            lemma_shifted_up(v as nat, k as int);
        }
        if v > u64::MAX as u128 {
            return u64::MAX;
        }
        return v as u64;
    }
    while k < 0 && v > 0
        invariant
            k <= 0,
            v <= u64::MAX,
            shifted(m as nat, e as int) == shifted(v as nat, k as int),
        decreases -k,
    {
        v = v / 2;
        k = k + 1;
    }
    proof {
        if v == 0 {
            lemma_shifted_nothing(k as int);
        }
    }
    v as u64
}

fn thousandfold_of(bits: u64) -> (r: (u128, i128))
    requires
        positive(bits),
        !endless(bits),
    ensures
        r.0 == thousandfold(bits).0,
        r.1 == thousandfold(bits).1,
        UNIT <= r.0 <= 2 * UNIT,
        -0x2_0000_0000_0000_0000_0000_0000_0000 <= r.1 <= 0x1_0000_0000_0000_0000,
{
    let m = digits_of(bits);
    let (r, t) = nearest_of(1000 * m, 1);
    (r, t + scale_of(bits))
}

fn does_overflow(r: u128, e: i128) -> (y: bool)
    ensures
        y == overflows(r as nat, e as int),
{
    e > 971 || (e == 971 && r == 2 * UNIT as u128)
}

/// A time in seconds, in whole milliseconds.
pub fn milliseconds(seconds: u64) -> (r: u64)
    ensures
        r == whole_ms(seconds),
{
    if !is_positive(seconds) {
        return 0;
    }
    if is_endless(seconds) {
        return u64::MAX;
    }
    let (r, e) = thousandfold_of(seconds);
    if does_overflow(r, e) {
        return u64::MAX;
    }
    whole_of(r, e)
}

/// A time in samples, so many of them a second, in whole milliseconds.
pub fn milliseconds_at(samples: u64, rate: u64) -> (r: u64)
    requires
        positive(rate),
    ensures
        r == whole_ms_at(samples, rate),
{
    if !is_positive(samples) || is_endless(rate) {
        return 0;
    }
    if is_endless(samples) {
        return u64::MAX;
    }
    let (r, e) = thousandfold_of(samples);
    if does_overflow(r, e) {
        return u64::MAX;
    }
    let (d, t) = nearest_of(r as u64, digits_of(rate));
    whole_of(d, t + e - scale_of(rate))
}

/// Two to the power of `n`.
pub open spec fn power(n: nat) -> nat
    decreases n,
{
    if n == 0 {
        1
    } else {
        2 * power((n - 1) as nat)
    }
}

proof fn lemma_power_adds(a: nat, b: nat)
    ensures
        power(a + b) == power(a) * power(b),
        power(a) > 0,
    decreases a,
{
    if a > 0 {
        lemma_power_adds((a - 1) as nat, b);
        let x = power((a - 1) as nat) as int;
        let y = power(b) as int;
        assert(power(a + b) == 2 * power((a - 1 + b) as nat));
        assert(2 * (x * y) == (2 * x) * y) by (nonlinear_arith);
    } else {
        assert(1 * power(b) == power(b)) by (nonlinear_arith);
    }
}

proof fn lemma_power_grows(a: nat, b: nat)
    requires
        a <= b,
    ensures
        0 < power(a) <= power(b),
    decreases b,
{
    if a < b {
        lemma_power_grows(a, (b - 1) as nat);
    } else if a > 0 {
        lemma_power_grows((a - 1) as nat, (a - 1) as nat);
    }
}

proof fn lemma_small_powers()
    ensures
        power(8) == 256,
        power(9) == 512,
        power(10) == 1024,
        power(11) == 2048,
        power(13) == 8192,
{
    reveal_with_fuel(power, 14);
}

/// What is left of a quotient once it has 53 digits: one side is as it was, and the other was
/// doubled as often as the power says.
proof fn lemma_aligned(p: nat, q: nat, t: int)
    requires
        p > 0,
        q > 0,
    ensures
        ({
            let (a, b, u) = aligned(p, q, t);
            &&& 0x10_0000_0000_0000 * b <= a < 0x20_0000_0000_0000 * b
            &&& u <= t ==> a == p * power((t - u) as nat) && b == q
            &&& u >= t ==> b == q * power((u - t) as nat) && a == p
        }),
    decreases distance(p, q),
{
    let (a, b, u) = aligned(p, q, t);
    if p < 0x10_0000_0000_0000 * q {
        lemma_aligned(2 * p, q, t - 1);
        if u <= t - 1 {
            let n = (t - 1 - u) as nat;
            assert(power((t - u) as nat) == 2 * power(n));
            assert((2 * p) * power(n) == p * (2 * power(n))) by (nonlinear_arith);
        } else {
            let n = (u - (t - 1)) as nat;
            lemma_power_grows(1, n);
            assert(power(1) == 2) by {
                reveal_with_fuel(power, 2);
            }
            assert(q * power(n) >= q * 2) by (nonlinear_arith)
                requires
                    power(n) >= 2,
            ;
        }
    } else if p >= 0x20_0000_0000_0000 * q {
        lemma_aligned(p, 2 * q, t + 1);
        if u >= t + 1 {
            let n = (u - t - 1) as nat;
            assert(power((u - t) as nat) == 2 * power(n));
            assert((2 * q) * power(n) == q * (2 * power(n))) by (nonlinear_arith);
        } else {
            let n = (t + 1 - u) as nat;
            lemma_power_grows(1, n);
            assert(power(1) == 2) by {
                reveal_with_fuel(power, 2);
            }
            assert(p * power(n) >= p * 2) by (nonlinear_arith)
                requires
                    power(n) >= 2,
            ;
        }
    } else {
        assert(power(0) == 1);
        assert(p * 1 == p && q * 1 == q) by (nonlinear_arith);
    }
}

proof fn lemma_shifted(m: nat, e: int)
    ensures
        e >= 0 ==> shifted(m, e) == m * power(e as nat),
        e < 0 ==> {
            let p = power((-e) as nat);
            shifted(m, e) * p <= m && m < (shifted(m, e) + 1) * p
        },
    decreases
            if e < 0 {
                -e
            } else {
                e
            },
{
    if e > 0 {
        lemma_shifted(2 * m, e - 1);
        let p = power((e - 1) as nat);
        assert((2 * m) * p == m * (2 * p)) by (nonlinear_arith);
    } else if e < 0 {
        lemma_shifted(m / 2, e + 1);
        let s = shifted(m, e) as int;
        let half = (m / 2) as int;
        let p = power((-e) as nat) as int;
        let q = power((-e - 1) as nat) as int;
        assert(p == 2 * q);
        if e == -1 {
            assert(q == 1);
            assert(half * 1 == half) by (nonlinear_arith);
        } else {
            assert(s * q <= half && half < (s + 1) * q);
        }
        assert(s * p <= m && m < (s + 1) * p) by (nonlinear_arith)
            requires
                p == 2 * q,
                s * q <= half,
                half + 1 <= (s + 1) * q,
                2 * half <= m,
                m < 2 * half + 2,
        ;
    } else {
        assert(m * 1 == m) by (nonlinear_arith);
    }
}

/// What a thousand times 53 digits is rounded to: 53 digits again, with 9 or 10 dropped.
proof fn lemma_thousand(d: nat)
    requires
        0x10_0000_0000_0000 <= d < 0x20_0000_0000_0000,
    ensures
        ({
            let (r, t) = nearest(1000 * d, 1);
            &&& 9 <= t <= 10
            &&& 0x10_0000_0000_0000 <= r <= 0x20_0000_0000_0000
            &&& 2 * (1000 * d - r * power(t as nat)) <= power(t as nat)
            &&& 2 * (r * power(t as nat) - 1000 * d) <= power(t as nat)
            &&& 0x10_0000_0000_0000 * power(t as nat) <= 1000 * d
        }),
{
    let (a, b, u) = aligned(1000 * d, 1, 0);
    lemma_aligned(1000 * d, 1, 0);
    lemma_small_powers();
    if u <= 0 {
        let n = (-u) as nat;
        lemma_power_grows(0, n);
        assert((1000 * d) * power(n) >= 1000 * d) by (nonlinear_arith)
            requires
                power(n) >= 1,
        ;
    }
    assert(b == power(u as nat));
    if u > 10 {
        lemma_power_grows(11, u as nat);
    }
    if u < 9 {
        lemma_power_grows(u as nat, 8);
    }
    lemma_half_even(a, b);
}

/// A time in seconds comes out in whole milliseconds. A number with the exponent field `e` and
/// the fraction field `f` is `2^52 + f` times `2^(e - 1075)`; a thousand times that, rounded to
/// 53 binary digits, which moves it by no more than 512 of its last places, and cut off behind
/// the point, is what comes out.
pub proof fn seconds_come_out_in_milliseconds(bits: u64, e: nat, f: nat)
    requires
        1 <= e <= 1075,
        f < 0x10_0000_0000_0000,
        bits == e * 0x10_0000_0000_0000 + f,
    ensures
        ({
            let ms = whole_ms(bits);
            let d = 0x10_0000_0000_0000 + f;
            let one = power((1075 - e) as nat);
            &&& ms * one <= 1000 * d + 512
            &&& 1000 * d < (ms + 1) * one + 512
        }),
{
    lemma_fields(bits, e, f);
    let d = (0x10_0000_0000_0000 + f) as nat;
    let (r, t) = nearest(1000 * d, 1);
    lemma_thousand(d);
    lemma_small_powers();
    let n = (1075 - e) as nat;
    let one = power(n);
    let x = t - n;
    lemma_shifted(r, x);
    let m = shifted(r, x);
    let tt = power(t as nat);
    lemma_power_grows(0, n);
    if x >= 0 {
        lemma_power_adds(x as nat, n);
        let y = power(x as nat);
        assert(x + n == t);
        assert((r * y) * one == r * (y * one)) by (nonlinear_arith);
        assert(m * one == r * tt);
        assert((m + 1) * one == m * one + one) by (nonlinear_arith);
    } else {
        let y = power((-x) as nat);
        lemma_power_adds((-x) as nat, t as nat);
        assert(y * tt == one);
        assert(m * one <= r * tt && r * tt < (m + 1) * one) by (nonlinear_arith)
            requires
                y * tt == one,
                m * y <= r,
                r < (m + 1) * y,
                tt > 0,
        ;
    }
    assert(m <= m * one) by (nonlinear_arith)
        requires
            one >= 1,
            m >= 0,
    ;
    assert(m <= u64::MAX);
}

proof fn lemma_fields(bits: u64, e: nat, f: nat)
    requires
        1 <= e <= 2046,
        f < 0x10_0000_0000_0000,
        bits == e * 0x10_0000_0000_0000 + f,
    ensures
        exponent_field(bits) == e,
        fraction_field(bits) == f,
        positive(bits),
        !endless(bits),
        digits(bits) == 0x10_0000_0000_0000 + f,
        scale(bits) == e - 1075,
{
    assert(UNIT == 0x10_0000_0000_0000);
    assert(bits / 0x10_0000_0000_0000 == e);
    assert(bits % 0x10_0000_0000_0000 == f);
}

/// A time before the start, the start itself and what is no number come out as the start; a time
/// without an end comes out as the last there is.
pub proof fn odd_times_come_out_at_an_end(bits: u64, rate: u64)
    ensures
        bits == 0 || bits > 0x7FF0_0000_0000_0000 ==> whole_ms(bits) == 0 && whole_ms_at(bits, rate)
            == 0,
        bits == 0x7FF0_0000_0000_0000 ==> whole_ms(bits) == u64::MAX,
        whole_ms(bits) <= u64::MAX,
        whole_ms_at(bits, rate) <= u64::MAX,
{
    assert(UNIT == 0x10_0000_0000_0000);
}

/// Rounding picks the whole number that is nearest, and of two that are as near the even one.
pub proof fn ties_go_to_the_even(a: nat, b: nat)
    requires
        b > 0,
    ensures
        ({
            let r = half_even(a, b);
            &&& 2 * (a - r * b) <= b
            &&& 2 * (r * b - a) <= b
            &&& 2 * (a - r * b) == b || 2 * (r * b - a) == b ==> r % 2 == 0
        }),
{
    lemma_half_even(a, b);
    let d = a / b;
    assert(a == d * b + a % b) by (nonlinear_arith)
        requires
            d == a / b,
            b > 0,
    ;
    assert((d + 1) * b == d * b + b) by (nonlinear_arith);
}

/// A time in samples comes out in whole milliseconds: a thousand times the samples over the rate,
/// rounded to 53 binary digits after the multiplication and again after the division, each of
/// which moves it by no more than one part in `2^53`, and cut off behind the point.
pub proof fn samples_come_out_in_milliseconds(
    samples: u64,
    rate: u64,
    e1: nat,
    f1: nat,
    e2: nat,
    f2: nat,
)
    requires
        1 <= e1 <= 2035,
        1 <= e2 <= 2046,
        f1 < 0x10_0000_0000_0000,
        f2 < 0x10_0000_0000_0000,
        samples == e1 * 0x10_0000_0000_0000 + f1,
        rate == e2 * 0x10_0000_0000_0000 + f2,
    ensures
        ({
            let ms = whole_ms_at(samples, rate);
            let w: nat = 0x20_0000_0000_0000;
            let above = 1000 * (0x10_0000_0000_0000 + f1) * if e1 >= e2 {
                power((e1 - e2) as nat)
            } else {
                1
            };
            let below = (0x10_0000_0000_0000 + f2) * if e1 >= e2 {
                1
            } else {
                power((e2 - e1) as nat)
            };
            &&& (ms * below) * (w * w) <= above * ((w + 1) * (w + 1))
            &&& ms < u64::MAX ==> above * ((w - 1) * (w - 1)) < ((ms + 1) * below) * (w * w)
        }),
{
    lemma_fields(samples, e1, f1);
    lemma_fields(rate, e2, f2);
    let n0 = (1000 * (0x10_0000_0000_0000 + f1)) as nat;
    let dr = (0x10_0000_0000_0000 + f2) as nat;
    let d1 = (0x10_0000_0000_0000 + f1) as nat;
    let (r, t) = nearest(1000 * d1, 1);
    lemma_thousand(d1);
    lemma_small_powers();
    let tt = power(t as nat);
    let (a, b, u) = aligned(r, dr, 0);
    lemma_aligned(r, dr, 0);
    if u > 0 {
        lemma_power_grows(1, u as nat);
        assert(power(1) == 2) by {
            reveal_with_fuel(power, 2);
        }
        assert(dr * power(u as nat) >= dr * 2) by (nonlinear_arith)
            requires
                power(u as nat) >= 2,
        ;
    }
    let k = (-u) as nat;
    let kk = power(k);
    assert(a == r * kk && b == dr);
    if k <= 10 {
        lemma_power_grows(k, 10);
        assert(r * kk <= r * 1024) by (nonlinear_arith)
            requires
                kk <= 1024,
        ;
    }
    lemma_half_even(a, b);
    let q = half_even(a, b);
    assert(nearest(r, dr) == (q, u));
    let x = u + (t + (e1 - 1075)) - (e2 - 1075);
    let m = shifted(q, x);
    lemma_shifted(q, x);
    lemma_power_grows(0, k);
    let up = if e1 >= e2 {
        power((e1 - e2) as nat)
    } else {
        1
    };
    let down = if e1 >= e2 {
        1
    } else {
        power((e2 - e1) as nat)
    };
    assert(up > 0 && down > 0) by {
        if e1 >= e2 {
            lemma_power_grows(0, (e1 - e2) as nat);
        } else {
            lemma_power_grows(0, (e2 - e1) as nat);
        }
    }
    assert((m * (kk * down)) <= q * (tt * up) && q * (tt * up) < (m + 1) * (kk * down)) by {
        if x >= 0 {
            let y = power(x as nat);
            let s = (e1 - e2) as nat;
            lemma_power_adds(x as nat, k);
            lemma_power_adds(t as nat, s);
            assert(x + k == t + s);
            assert(y * kk == tt * up);
            assert((q * y) * (kk * 1) == q * (y * kk)) by (nonlinear_arith);
            assert((m + 1) * (kk * down) == m * (kk * down) + kk * down) by (nonlinear_arith);
            assert(kk * 1 == kk) by (nonlinear_arith);
        } else {
            let y = power((-x) as nat);
            assert(y * (tt * up) == kk * down) by {
                if e1 >= e2 {
                    let s = (e1 - e2) as nat;
                    lemma_power_adds(t as nat, s);
                    lemma_power_adds((-x) as nat, (t + s) as nat);
                    assert(-x + t + s == k);
                    assert(kk * 1 == kk) by (nonlinear_arith);
                } else {
                    let s = (e2 - e1) as nat;
                    lemma_power_adds((-x) as nat, t as nat);
                    lemma_power_adds(k, s);
                    assert(-x + t == k + s);
                    assert(tt * 1 == tt) by (nonlinear_arith);
                }
            }
            let z = tt * up;
            let v = kk * down;
            assert(z > 0) by (nonlinear_arith)
                requires
                    z == tt * up,
                    tt > 0,
                    up > 0,
            ;
            assert(m * v <= q * z && q * z < (m + 1) * v) by (nonlinear_arith)
                requires
                    y * z == v,
                    m * y <= q,
                    q < (m + 1) * y,
                    z > 0,
            ;
        }
    }
    lemma_two_roundings(
        m as int,
        kk as int,
        dr as int,
        up as int,
        down as int,
        q as int,
        r as int,
        tt as int,
        n0 as int,
    );
    let w: int = 0x20_0000_0000_0000;
    let above = n0 * up;
    let below = dr * down;
    if m > u64::MAX {
        let c = u64::MAX as int;
        assert((c * below) * (w * w) <= (m * below) * (w * w)) by (nonlinear_arith)
            requires
                c <= m,
                below >= 0,
                w * w >= 0,
        ;
    }
}

/// Two roundings in a row: what is cut off from the second is within both of the true quotient.
proof fn lemma_two_roundings(
    m: int,
    k: int,
    dr: int,
    up: int,
    down: int,
    q: int,
    r: int,
    t: int,
    n: int,
)
    requires
        m >= 0,
        k > 0,
        dr > 0,
        up > 0,
        down > 0,
        q >= 0,
        r > 0,
        t > 0,
        n > 0,
        m * (k * down) <= q * (t * up),
        q * (t * up) < (m + 1) * (k * down),
        2 * (r * k - q * dr) <= dr,
        2 * (q * dr - r * k) <= dr,
        0x10_0000_0000_0000 * dr <= r * k,
        2 * (n - r * t) <= t,
        2 * (r * t - n) <= t,
        0x10_0000_0000_0000 * t <= n,
    ensures
        ({
            let w: int = 0x20_0000_0000_0000;
            &&& (m * (dr * down)) * (w * w) <= (n * up) * ((w + 1) * (w + 1))
            &&& (n * up) * ((w - 1) * (w - 1)) < ((m + 1) * (dr * down)) * (w * w)
        }),
{
    let w: int = 0x20_0000_0000_0000;
    let y = q * dr;
    let z = r * k;
    let v = r * t;
    assert(w * y <= (w + 1) * z && (w - 1) * z <= w * y) by {
        assert(w == 2 * 0x10_0000_0000_0000);
    }
    assert(w * v <= (w + 1) * n && (w - 1) * n <= w * v);
    // The cut, in terms of the rounded quotient.
    let ky = k * (m * (dr * down));
    let ky1 = k * ((m + 1) * (dr * down));
    let yt = y * (t * up);
    assert(ky <= yt && yt < ky1) by (nonlinear_arith)
        requires
            m * (k * down) <= q * (t * up),
            q * (t * up) < (m + 1) * (k * down),
            dr > 0,
            ky == k * (m * (dr * down)),
            ky1 == k * ((m + 1) * (dr * down)),
            yt == (q * dr) * (t * up),
    ;
    let g = t * up;
    assert(g > 0) by (nonlinear_arith)
        requires
            g == t * up,
            t > 0,
            up > 0,
    ;
    // The quotient, in terms of the rounded product.
    assert(w * yt <= (w + 1) * (z * g) && (w - 1) * (z * g) <= w * yt) by (nonlinear_arith)
        requires
            yt == y * g,
            g > 0,
            w * y <= (w + 1) * z,
            (w - 1) * z <= w * y,
    ;
    let h = k * up;
    assert(z * g == v * h) by (nonlinear_arith)
        requires
            z == r * k,
            g == t * up,
            v == r * t,
            h == k * up,
    ;
    assert(h > 0) by (nonlinear_arith)
        requires
            h == k * up,
            k > 0,
            up > 0,
    ;
    // The product, in terms of the samples.
    assert(w * (v * h) <= (w + 1) * (n * h) && (w - 1) * (n * h) <= w * (v * h)) by (nonlinear_arith)
        requires
            h > 0,
            w * v <= (w + 1) * n,
            (w - 1) * n <= w * v,
    ;
    let nh = n * h;
    let vh = v * h;
    let a = m * (dr * down);
    let c = (m + 1) * (dr * down);
    assert(nh == k * (n * up)) by (nonlinear_arith)
        requires
            nh == n * h,
            h == k * up,
    ;
    assert(w * (w * yt) <= w * ((w + 1) * vh) && w * ((w - 1) * vh) <= w * (w * yt));
    assert(w * ((w + 1) * vh) == (w + 1) * (w * vh) && w * ((w - 1) * vh) == (w - 1) * (w * vh));
    assert((w + 1) * (w * vh) <= (w + 1) * ((w + 1) * nh));
    assert((w - 1) * ((w - 1) * nh) <= (w - 1) * (w * vh));
    let ww = w * w;
    let wp = (w + 1) * (w + 1);
    let wm = (w - 1) * (w - 1);
    assert(ky * ww <= nh * wp && nh * wm < ky1 * ww) by {
        assert(w * (w * yt) == yt * ww);
        assert((w + 1) * ((w + 1) * nh) == nh * wp);
        assert((w - 1) * ((w - 1) * nh) == nh * wm);
        assert(ky * ww <= yt * ww && yt * ww < ky1 * ww) by (nonlinear_arith)
            requires
                ky <= yt,
                yt < ky1,
                ww > 0,
        ;
    }
    let nu = n * up;
    assert(a * ww <= nu * wp) by (nonlinear_arith)
        requires
            (k * a) * ww <= (k * nu) * wp,
            k > 0,
    ;
    assert(nu * wm < c * ww) by (nonlinear_arith)
        requires
            (k * nu) * wm < (k * c) * ww,
            k > 0,
    ;
}

/// A time of so many seconds that they have no fraction comes out within the rounding too, as long
/// as there is a millisecond of that number; where there is none it comes out as the last there is.
pub proof fn long_times_come_out_in_milliseconds(bits: u64, e: nat, f: nat)
    requires
        1075 < e <= 2046,
        f < 0x10_0000_0000_0000,
        bits == e * 0x10_0000_0000_0000 + f,
    ensures
        ({
            let ms = whole_ms(bits);
            let d = 0x10_0000_0000_0000 + f;
            let one = power((e - 1075) as nat);
            &&& ms <= (1000 * d + 512) * one
            &&& ms < u64::MAX ==> (1000 * d - 512) * one <= ms
        }),
{
    lemma_fields(bits, e, f);
    let d = (0x10_0000_0000_0000 + f) as nat;
    let (r, t) = nearest(1000 * d, 1);
    lemma_thousand(d);
    lemma_small_powers();
    let n = (e - 1075) as nat;
    let one = power(n);
    let tt = power(t as nat);
    let x = t + n;
    lemma_shifted(r, x);
    lemma_power_adds(t as nat, n);
    let m = shifted(r, x);
    assert(m == (r * tt) * one) by {
        assert(r * (tt * one) == (r * tt) * one) by (nonlinear_arith);
    }
    let a = (r * tt) as int;
    let lo = 1000 * d - 512;
    let hi = 1000 * d + 512;
    assert(lo * one <= a * one && a * one <= hi * one) by (nonlinear_arith)
        requires
            lo <= a,
            a <= hi,
            one >= 0,
    ;
    if n >= 13 {
        lemma_power_grows(13, n);
        assert(hi * one >= hi * 8192) by (nonlinear_arith)
            requires
                one >= 8192,
                hi >= 0,
        ;
    }
}

/// A time of less than any number with all its digits is none.
pub proof fn the_smallest_times_are_none(bits: u64)
    requires
        bits < 0x10_0000_0000_0000,
    ensures
        whole_ms(bits) == 0,
{
    assert(UNIT == 0x10_0000_0000_0000);
    assert(bits / 0x10_0000_0000_0000 == 0);
    assert(bits % 0x10_0000_0000_0000 == bits);
    if bits > 0 {
        let p = (1000 * bits) as nat;
        let (a, b, u) = aligned(p, 1, 0);
        lemma_aligned(p, 1, 0);
        lemma_small_powers();
        if u > 10 {
            lemma_power_grows(11, u as nat);
        }
        lemma_half_even(a, b);
        let r = half_even(a, b);
        let x = u - 1074;
        let m = shifted(r, x);
        lemma_shifted(r, x);
        lemma_power_grows(54, (-x) as nat);
        assert(power(54) > 0x20_0000_0000_0000) by {
            lemma_power_adds(13, 41);
            lemma_power_adds(13, 28);
            lemma_power_adds(13, 15);
            lemma_power_adds(13, 2);
            assert(power(2) == 4) by {
                reveal_with_fuel(power, 3);
            }
        }
        let y = power((-x) as nat);
        if m > 0 {
            assert(m * y >= y) by (nonlinear_arith)
                requires
                    m >= 1,
                    y >= 0,
            ;
        }
    }
}

} // verus!

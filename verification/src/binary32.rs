//! Single-precision rounding on integers.
//!
//! A single-precision number carries 24 significant bits. Every quantity that
//! the sub-pixel stage handles is an integer multiple of one small fixed unit
//! and far from the subnormal range, so an operation on it rounds exactly like
//! an integer operation that keeps the 24 leading bits, the nearest value
//! winning and a tie going to the even neighbour.

use vstd::prelude::*;
use vstd::arithmetic::div_mod::{
    lemma_div_is_ordered, lemma_div_nonincreasing, lemma_fundamental_div_mod,
    lemma_fundamental_div_mod_converse, lemma_mod_multiples_basic,
};
use vstd::arithmetic::power2::{
    lemma2_to64, lemma_pow2_adds, lemma_pow2_pos, lemma_pow2_unfold, pow2,
};

verus! {

/// One more than the largest integer that 24 bits hold.
pub const SIGNIFICAND_END: u128 = 0x100_0000;

/// Bound under which the executable rounding cannot overflow.
pub const ROUNDING_LIMIT: u128 = 0x4000_0000_0000_0000_0000_0000_0000_0000;

/// The spacing of the values with 24 significant bits around `q`: the smallest
/// power of two whose multiples reach `q` with a factor below 2^24.
pub open spec fn ulp(q: nat) -> nat
    decreases q,
{
    if q < SIGNIFICAND_END {
        1
    } else {
        2 * ulp(q / 2)
    }
}

/// The integer nearest to `n / d`, the even one of two that are equally near.
pub open spec fn round_half_even(n: nat, d: nat) -> nat {
    let q = n / d;
    let r = n % d;
    if 2 * r < d {
        q
    } else if 2 * r > d {
        q + 1
    } else {
        q + q % 2
    }
}

/// The value of `n / d` rounded to 24 significant bits, on the grid of the
/// integers where fewer than 24 bits stand before the point.
pub open spec fn round_ratio(n: nat, d: nat) -> nat {
    let u = ulp(n / d);
    round_half_even(n, d * u) * u
}

/// The value of `n` rounded to 24 significant bits.
pub open spec fn round_nat(n: nat) -> nat {
    round_ratio(n, 1)
}

/// The value of `x` rounded to 24 significant bits, with its sign.
pub open spec fn round_int(x: int) -> int {
    if x < 0 {
        -(round_nat((-x) as nat) as int)
    } else {
        round_nat(x as nat) as int
    }
}

/// Whether 24 significant bits hold `n`.
pub open spec fn representable(n: nat) -> bool {
    n % ulp(n) == 0
}

/// The spacing is at least one, and no larger than the value over 2^23.
pub proof fn lemma_ulp_bounds(q: nat)
    ensures
        1 <= ulp(q),
        q < SIGNIFICAND_END * ulp(q),
        ulp(q) == 1 || 0x80_0000 * ulp(q) <= q,
    decreases q,
{
    if q >= SIGNIFICAND_END {
        lemma_ulp_bounds(q / 2);
    }
}

/// A larger value never has a finer spacing.
pub proof fn lemma_ulp_monotone(a: nat, b: nat)
    requires
        a <= b,
    ensures
        ulp(a) <= ulp(b),
    decreases b,
{
    lemma_ulp_bounds(b);
    if a >= SIGNIFICAND_END {
        lemma_ulp_monotone(a / 2, b / 2);
    }
}

/// Rounding to the nearest integer never crosses an integer.
pub proof fn lemma_round_half_even_between(n: nat, d: nat, lo: nat, hi: nat)
    requires
        d > 0,
        lo * d <= n <= hi * d,
    ensures
        lo <= round_half_even(n, d) <= hi,
{
    let q = n / d;
    let r = n % d;
    lemma_fundamental_div_mod(n as int, d as int);
    assert(n == d * q + r);
    assert(lo <= q) by (nonlinear_arith)
        requires
            lo * d <= n,
            n == d * q + r,
            0 <= r < d,
    ;
    assert(q <= hi) by (nonlinear_arith)
        requires
            n <= hi * d,
            n == d * q + r,
            0 <= r < d,
    ;
    if q == hi {
        assert(r == 0) by (nonlinear_arith)
            requires
                n <= hi * d,
                n == d * q + r,
                q == hi,
                0 <= r,
        ;
    }
}

/// Twice the distance between `n` and the multiple of `d` it rounds to is at
/// most `d`.
pub proof fn lemma_round_half_even_near(n: nat, d: nat)
    requires
        d > 0,
    ensures
        2 * (n as int - round_half_even(n, d) * d) <= d,
        2 * (round_half_even(n, d) * d - n as int) <= d,
{
    let q = n / d;
    let r = n % d;
    lemma_fundamental_div_mod(n as int, d as int);
    assert((q + 1) * d == q * d + d) by (nonlinear_arith);
    assert(q * d == d * q) by (nonlinear_arith);
    assert(0 <= r < d);
    if round_half_even(n, d) == q + 1 {
    } else {
        assert(round_half_even(n, d) == q);
    }
}

/// An integer below 2^24 is its own rounding.
pub proof fn lemma_round_small(n: nat)
    requires
        n < SIGNIFICAND_END,
    ensures
        round_nat(n) == n,
{
    assert(ulp(n / 1) == 1);
    assert(round_half_even(n, 1) == n);
    assert(round_nat(n) == round_half_even(n, 1 * 1) * 1);
}

/// A signed integer below 2^24 in magnitude is its own rounding.
pub proof fn lemma_round_int_small(x: int)
    requires
        -(SIGNIFICAND_END as int) < x < SIGNIFICAND_END,
    ensures
        round_int(x) == x,
{
    if x < 0 {
        lemma_round_small((-x) as nat);
    } else {
        lemma_round_small(x as nat);
    }
}

/// Rounding to 24 significant bits moves a value by at most one part in 2^24,
/// or by half a unit where the spacing is one.
pub proof fn law_round_error(n: nat, d: nat)
    requires
        d > 0,
    ensures
        ({
            let x = round_ratio(n, d);
            let e = if x * d >= n {
                x * d - n
            } else {
                n - x * d
            };
            0x100_0000 * e <= n || 2 * e <= d
        }),
{
    let u = ulp(n / d);
    lemma_ulp_bounds(n / d);
    let m = round_half_even(n, d * u);
    assert(d * u > 0) by (nonlinear_arith)
        requires
            d > 0,
            u >= 1,
    ;
    lemma_round_half_even_near(n, d * u);
    assert(m * (d * u) == (m * u) * d) by (nonlinear_arith);
    if u > 1 {
        lemma_fundamental_div_mod(n as int, d as int);
        assert(0x80_0000 * (d * u) <= n) by (nonlinear_arith)
            requires
                0x80_0000 * u <= n / d,
                n == d * (n / d) + n % d,
                n % d >= 0,
                d > 0,
        ;
    } else {
        assert(d * u == d) by (nonlinear_arith)
            requires
                u == 1,
        ;
    }
}

/// Rounding an integer moves it by at most one part in 2^24.
pub proof fn law_round_int_error(x: int)
    ensures
        x >= 0 ==> 0x100_0000 * (round_int(x) - x) <= x && 0x100_0000 * (x - round_int(x)) <= x,
        x < 0 ==> 0x100_0000 * (round_int(x) - x) <= -x && 0x100_0000 * (x - round_int(x)) <= -x,
{
    let n = if x < 0 {
        (-x) as nat
    } else {
        x as nat
    };
    law_round_error(n, 1);
    if n < SIGNIFICAND_END {
        lemma_round_small(n);
    }
}

/// The spacing around a value is a power of two.
pub proof fn lemma_ulp_is_pow2(q: nat) -> (k: nat)
    ensures
        ulp(q) == pow2(k),
    decreases q,
{
    if q < SIGNIFICAND_END {
        lemma2_to64();
        0
    } else {
        let k = lemma_ulp_is_pow2(q / 2);
        lemma_pow2_unfold(k + 1);
        k + 1
    }
}

/// The spacing around a value below `2^(24+k)` divides `2^k`.
pub proof fn lemma_ulp_divides(q: nat, k: nat)
    requires
        q < SIGNIFICAND_END * pow2(k),
    ensures
        pow2(k) % ulp(q) == 0,
    decreases k,
{
    lemma_ulp_bounds(q);
    if q >= SIGNIFICAND_END {
        if k == 0 {
            lemma2_to64();
        } else {
            lemma_pow2_unfold(k);
            let j = (k - 1) as nat;
            lemma_ulp_divides(q / 2, j);
            lemma_ulp_bounds(q / 2);
            lemma_fundamental_div_mod(pow2(j) as int, ulp(q / 2) as int);
            let f = pow2(j) / ulp(q / 2);
            assert(2 * (ulp(q / 2) * f) == f * (2 * ulp(q / 2))) by (nonlinear_arith);
            lemma_mod_multiples_basic(f as int, ulp(q) as int);
        }
    } else {
        assert(pow2(k) % 1 == 0);
    }
}

/// The spacing around a value of at least `2^(24+k)` is a multiple of `2^k`.
pub proof fn lemma_ulp_multiple(q: nat, k: nat)
    requires
        q >= SIGNIFICAND_END * pow2(k),
    ensures
        ulp(q) % pow2(k) == 0,
    decreases k,
{
    lemma_pow2_pos(k);
    if k == 0 {
        lemma2_to64();
    } else {
        lemma_pow2_unfold(k);
        let j = (k - 1) as nat;
        lemma_pow2_pos(j);
        assert(q >= SIGNIFICAND_END);
        lemma_ulp_multiple(q / 2, j);
        lemma_fundamental_div_mod(ulp(q / 2) as int, pow2(j) as int);
        let f = ulp(q / 2) / pow2(j);
        assert(2 * (pow2(j) * f) == f * (2 * pow2(j))) by (nonlinear_arith);
        lemma_mod_multiples_basic(f as int, pow2(k) as int);
    }
}

/// A product of an integer of at most 2^24 and a power of two has 24
/// significant bits.
pub proof fn lemma_representable(m: nat, k: nat)
    requires
        m <= SIGNIFICAND_END,
    ensures
        representable(m * pow2(k)),
{
    let n = m * pow2(k);
    lemma_pow2_pos(k);
    let (f, j) = if m == SIGNIFICAND_END {
        (1nat, k + 24)
    } else {
        (m, k)
    };
    if m == SIGNIFICAND_END {
        lemma_pow2_adds(k, 24);
        lemma2_to64();
        assert(n == 1 * pow2(j)) by (nonlinear_arith)
            requires
                n == m * pow2(k),
                m == 0x100_0000,
                pow2(j) == pow2(k) * 0x100_0000,
        ;
        lemma_pow2_pos(j);
    }
    assert(n == f * pow2(j));
    assert(n < SIGNIFICAND_END * pow2(j)) by (nonlinear_arith)
        requires
            n == f * pow2(j),
            f < SIGNIFICAND_END,
            pow2(j) > 0,
    ;
    lemma_ulp_divides(n, j);
    lemma_ulp_bounds(n);
    lemma_fundamental_div_mod(pow2(j) as int, ulp(n) as int);
    let g = pow2(j) / ulp(n);
    assert(f * (ulp(n) * g) == (f * g) * ulp(n)) by (nonlinear_arith);
    lemma_mod_multiples_basic((f * g) as int, ulp(n) as int);
}

/// A rounded value is an integer of at most 2^24 times the spacing.
pub proof fn lemma_round_ratio_factor(n: nat, d: nat) -> (m: nat)
    requires
        d > 0,
    ensures
        round_ratio(n, d) == m * ulp(n / d),
        m <= SIGNIFICAND_END,
{
    let q = n / d;
    let u = ulp(q);
    lemma_ulp_bounds(q);
    lemma_fundamental_div_mod(n as int, d as int);
    assert(n <= SIGNIFICAND_END * (d * u)) by (nonlinear_arith)
        requires
            n == d * q + n % d,
            n % d < d,
            q + 1 <= SIGNIFICAND_END * u,
            d > 0,
    ;
    assert(d * u > 0) by (nonlinear_arith)
        requires
            d > 0,
            u >= 1,
    ;
    assert(0 * (d * u) == 0);
    lemma_round_half_even_between(n, d * u, 0, SIGNIFICAND_END as nat);
    round_half_even(n, d * u)
}

/// A rounded value has 24 significant bits.
pub proof fn law_rounded_is_representable(n: nat, d: nat)
    requires
        d > 0,
    ensures
        representable(round_ratio(n, d)),
{
    let m = lemma_round_ratio_factor(n, d);
    let k = lemma_ulp_is_pow2(n / d);
    lemma_representable(m, k);
}

/// Rounding does not cross a multiple of the spacing.
pub proof fn lemma_round_ratio_between(n: nat, d: nat, lo: nat, hi: nat)
    requires
        d > 0,
        lo * d <= n <= hi * d,
        lo % ulp(n / d) == 0,
        hi % ulp(n / d) == 0,
    ensures
        lo <= round_ratio(n, d) <= hi,
{
    let u = ulp(n / d);
    lemma_ulp_bounds(n / d);
    lemma_fundamental_div_mod(lo as int, u as int);
    lemma_fundamental_div_mod(hi as int, u as int);
    let a = lo / u;
    let b = hi / u;
    assert(d * u > 0) by (nonlinear_arith)
        requires
            d > 0,
            u >= 1,
    ;
    assert(a * (d * u) == (u * a) * d) by (nonlinear_arith);
    assert(b * (d * u) == (u * b) * d) by (nonlinear_arith);
    lemma_round_half_even_between(n, d * u, a, b);
    let m = round_half_even(n, d * u);
    assert(u * a <= m * u <= u * b) by (nonlinear_arith)
        requires
            a <= m <= b,
            u >= 1,
    ;
}

/// A coarser spacing is at least twice as coarse.
pub proof fn lemma_ulp_doubles(a: nat, b: nat)
    requires
        ulp(a) < ulp(b),
    ensures
        2 * ulp(a) <= ulp(b),
    decreases a + b,
{
    lemma_ulp_bounds(a);
    lemma_ulp_bounds(b);
    if a >= SIGNIFICAND_END && b >= SIGNIFICAND_END {
        lemma_ulp_doubles(a / 2, b / 2);
    } else if b >= SIGNIFICAND_END {
        lemma_ulp_bounds(b / 2);
    }
}

/// Rounding keeps the order of two integers.
pub proof fn law_round_monotone(a: nat, b: nat)
    requires
        a <= b,
    ensures
        round_nat(a) <= round_nat(b),
{
    let u = ulp(a);
    let t = ulp(b);
    assert(a / 1 == a && b / 1 == b);
    lemma_ulp_bounds(a);
    lemma_ulp_bounds(b);
    lemma_ulp_monotone(a, b);
    lemma_fundamental_div_mod(a as int, u as int);
    lemma_fundamental_div_mod(b as int, t as int);
    let m = round_half_even(a, 1 * u);
    let k = round_half_even(b, 1 * t);
    if u == t {
        let p = a / u;
        let q = b / u;
        lemma_div_is_ordered(a as int, b as int, u as int);
        assert(p <= q);
        if p == q {
            assert(a % u <= b % u);
        }
        assert(m <= k);
        assert(m * u <= k * u) by (nonlinear_arith)
            requires
                m <= k,
        ;
    } else {
        lemma_ulp_doubles(a, b);
        lemma_round_half_even_between(a, u, 0, SIGNIFICAND_END as nat);
        assert(b <= SIGNIFICAND_END * t);
        lemma_round_half_even_between(b, t, 0x80_0000, SIGNIFICAND_END as nat);
        assert(m * u <= k * t) by (nonlinear_arith)
            requires
                m <= 0x100_0000,
                0x80_0000 <= k,
                2 * u <= t,
                u >= 1,
        ;
    }
}

/// Integers round like fractions over 1, and rounding commutes with the sign.
pub proof fn law_round_int_is_odd(x: int)
    ensures
        x >= 0 ==> round_int(x) == round_ratio(x as nat, 1),
        round_int(-x) == -round_int(x),
{
    lemma_round_small(0);
}

/// No multiple of `d` is nearer to `n` than the one it rounds to.
proof fn lemma_nearest_multiple(n: nat, d: nat, t: int)
    requires
        d > 0,
    ensures
        ({
            let r = round_half_even(n, d) * d;
            let near = if r >= n {
                r - n
            } else {
                n - r
            };
            near <= t * d - n || near <= n - t * d
        }),
{
    lemma_round_half_even_near(n, d);
    let r = round_half_even(n, d) as int;
    if t > r {
        assert(t * d >= r * d + d) by (nonlinear_arith)
            requires
                t >= r + 1,
                d > 0,
        ;
    } else if t < r {
        assert(t * d + d <= r * d) by (nonlinear_arith)
            requires
                t + 1 <= r,
                d > 0,
        ;
    }
}

/// A rounded value has 24 significant bits: it is an integer of at most 2^24
/// times a power of two.
pub proof fn law_rounded_form(n: nat, d: nat) -> (f: (nat, nat))
    requires
        d > 0,
    ensures
        f.0 <= 0x100_0000,
        round_ratio(n, d) == f.0 * pow2(f.1),
{
    let m = lemma_round_ratio_factor(n, d);
    let k = lemma_ulp_is_pow2(n / d);
    (m, k)
}

/// Rounding takes the nearest value: no integer of at most 2^24 times a power of
/// two is nearer to `n / d` than its rounding.
pub proof fn law_round_is_nearest(n: nat, d: nat, m: nat, k: nat)
    requires
        d > 0,
        m <= 0x100_0000,
    ensures
        ({
            let x = round_ratio(n, d) * d;
            let y = m * pow2(k) * d;
            let near = if x >= n {
                x - n
            } else {
                n - x
            };
            let far = if y >= n {
                y - n
            } else {
                n - y
            };
            near <= far
        }),
{
    let q = n / d;
    let u = ulp(q);
    lemma_ulp_bounds(q);
    let step = d * u;
    assert(step > 0) by (nonlinear_arith)
        requires
            step == d * u,
            d > 0,
            u >= 1,
    ;
    let r = round_half_even(n, step);
    assert(r * step == r * u * d) by (nonlinear_arith)
        requires
            step == d * u,
    ;
    let e = lemma_ulp_is_pow2(q);
    let y = m * pow2(k);
    if e <= k {
        lemma_pow2_adds(e, (k - e) as nat);
        let t = m * pow2((k - e) as nat);
        let p = pow2((k - e) as nat);
        assert(t * step == y * d) by (nonlinear_arith)
            requires
                t == m * p,
                y == m * pow2(k),
                pow2(k) == u * p,
                step == d * u,
        ;
        lemma_nearest_multiple(n, step, t as int);
    } else {
        lemma_pow2_adds(k, (e - k) as nat);
        lemma_pow2_unfold((e - k) as nat);
        lemma_pow2_pos((e - k - 1) as nat);
        lemma_pow2_pos(k);
        let p = pow2((e - k) as nat);
        assert(p >= 2);
        assert(u >= 2) by (nonlinear_arith)
            requires
                u == pow2(k) * p,
                p >= 2,
                pow2(k) >= 1,
        ;
        assert(y <= 0x80_0000 * u) by (nonlinear_arith)
            requires
                y == m * pow2(k),
                m <= 0x100_0000,
                u == pow2(k) * p,
                p >= 2,
        ;
        let t = 0x80_0000int;
        lemma_fundamental_div_mod(n as int, d as int);
        assert(t * step <= n) by (nonlinear_arith)
            requires
                step == d * u,
                0x80_0000 * u <= q,
                t == 0x80_0000,
                n == d * q + n as int % d as int,
                n as int % d as int >= 0,
                d > 0,
        ;
        assert(y * d <= t * step) by (nonlinear_arith)
            requires
                y <= 0x80_0000 * u,
                t == 0x80_0000,
                step == d * u,
                d > 0,
        ;
        lemma_nearest_multiple(n, step, t);
    }
}

/// A tie goes to the even neighbour: a value midway between two values with 24
/// significant bits rounds to the one with the even factor.
pub proof fn law_tie_goes_to_even(n: nat, d: nat, t: nat, k: nat)
    requires
        d > 0,
        t < 0x100_0000,
        k == 0 || 0x80_0000 <= t,
        2 * n == (2 * t + 1) * pow2(k) * d,
    ensures
        round_ratio(n, d) == (t + t % 2) * pow2(k),
{
    let q = n / d;
    let s = pow2(k);
    lemma_pow2_pos(k);
    lemma_fundamental_div_mod(n as int, d as int);
    assert(t * s <= q < (t + 1) * s) by {
        assert(t * s * d <= n < (t + 1) * s * d) by (nonlinear_arith)
            requires
                2 * n == (2 * t + 1) * s * d,
                s > 0,
                d > 0,
        ;
        assert(t * s <= q) by (nonlinear_arith)
            requires
                t * s * d <= n,
                n == d * q + n as int % d as int,
                n as int % (d as int) < d,
                d > 0,
        ;
        assert(q < (t + 1) * s) by (nonlinear_arith)
            requires
                n < (t + 1) * s * d,
                n == d * q + n as int % d as int,
                n as int % (d as int) >= 0,
                d > 0,
        ;
    }
    lemma_ulp_bounds(q);
    let e = lemma_ulp_is_pow2(q);
    assert(q < 0x100_0000 * s) by (nonlinear_arith)
        requires
            q < (t + 1) * s,
            t + 1 <= 0x100_0000,
            s > 0,
    ;
    if k > 0 {
        assert(0x80_0000 * s <= q) by (nonlinear_arith)
            requires
                t * s <= q,
                0x80_0000 <= t,
                s > 0,
        ;
    }
    if e < k {
        lemma_pow2_adds(e, (k - e) as nat);
        lemma_pow2_unfold((k - e) as nat);
        lemma_pow2_pos((k - e - 1) as nat);
        lemma_pow2_pos(e);
        let p = pow2((k - e) as nat);
        assert(s >= 2 * pow2(e)) by (nonlinear_arith)
            requires
                s == pow2(e) * p,
                p >= 2,
                pow2(e) >= 1,
        ;
    } else if e > k {
        lemma_pow2_adds(k, (e - k) as nat);
        lemma_pow2_unfold((e - k) as nat);
        lemma_pow2_pos((e - k - 1) as nat);
        let p = pow2((e - k) as nat);
        assert(ulp(q) >= 2 * s) by (nonlinear_arith)
            requires
                ulp(q) == s * p,
                p >= 2,
                s >= 1,
        ;
    }
    assert(ulp(q) == s);
    let step = d * s;
    assert(step > 0) by (nonlinear_arith)
        requires
            step == d * s,
            d > 0,
            s > 0,
    ;
    assert(2 * n == 2 * (t * step) + step) by (nonlinear_arith)
        requires
            2 * n == (2 * t + 1) * s * d,
            step == d * s,
    ;
    lemma_fundamental_div_mod_converse(n as int, step as int, t as int, n - t * step);
}

/// Doubling a value doubles its rounding.
proof fn lemma_round_doubles(n: nat)
    ensures
        round_nat(2 * n) == 2 * round_nat(n),
{
    assert(n / 1 == n && (2 * n) / 1 == 2 * n);
    if 2 * n < SIGNIFICAND_END {
        lemma_round_small(n);
        lemma_round_small(2 * n);
    } else {
        let u = ulp(n);
        assert((2 * n) / 2 == n);
        assert(ulp(2 * n) == 2 * u);
        lemma_ulp_bounds(n);
        lemma_fundamental_div_mod(n as int, u as int);
        let q = n / u;
        let r = n % u;
        assert(2 * (u * q) == (2 * u) * q) by (nonlinear_arith);
        assert(q * (2 * u) == (2 * u) * q) by (nonlinear_arith);
        lemma_fundamental_div_mod_converse((2 * n) as int, (2 * u) as int, q as int, (2 * r) as int);
        let m = round_half_even(n, 1 * u);
        assert(round_half_even(2 * n, 1 * (2 * u)) == m);
        assert(m * (2 * u) == 2 * (m * u)) by (nonlinear_arith);
    }
}

/// Scaling a value by a power of two scales its rounding.
pub proof fn lemma_round_scaled(n: nat, k: nat)
    ensures
        round_nat(n * pow2(k)) == round_nat(n) * pow2(k),
    decreases k,
{
    if k == 0 {
        lemma2_to64();
        assert(n * 1 == n && round_nat(n) * 1 == round_nat(n)) by (nonlinear_arith);
    } else {
        let j = (k - 1) as nat;
        lemma_round_scaled(n, j);
        lemma_pow2_unfold(k);
        lemma_round_doubles(n * pow2(j));
        assert(n * (2 * pow2(j)) == 2 * (n * pow2(j))) by (nonlinear_arith);
        assert(round_nat(n) * (2 * pow2(j)) == 2 * (round_nat(n) * pow2(j))) by (nonlinear_arith);
    }
}

/// Rounds `n / d` to 24 significant bits.
pub fn round_quotient(n: u128, d: u128) -> (r: u128)
    requires
        d > 0,
        n < ROUNDING_LIMIT,
    ensures
        r == round_ratio(n as nat, d as nat),
        r <= 2 * n,
{
    let whole: u128 = n / d;
    proof {
        lemma_div_nonincreasing(n as int, d as int);
    }
    let mut rest: u128 = whole;
    let mut scale: u128 = 1;
    while rest >= SIGNIFICAND_END
        invariant
            whole <= n < ROUNDING_LIMIT,
            1 <= scale,
            scale * rest <= whole,
            ulp(whole as nat) == scale * ulp(rest as nat),
        decreases rest,
    {
        proof {
            let half = rest / 2;
            let down = ulp(half as nat);
            assert(ulp(rest as nat) == 2 * down);
            assert(scale * (2 * down) == (2 * scale) * down) by (nonlinear_arith);
            assert((2 * scale) * half <= scale * rest) by (nonlinear_arith)
                requires
                    2 * half <= rest,
                    1 <= scale,
            ;
            assert(2 * scale <= scale * rest) by (nonlinear_arith)
                requires
                    2 <= rest,
                    1 <= scale,
            ;
        }
        rest = rest / 2;
        scale = scale * 2;
    }
    proof {
        assert(ulp(rest as nat) == 1);
        assert(scale * ulp(rest as nat) == scale) by (nonlinear_arith)
            requires
                ulp(rest as nat) == 1,
        ;
        assert(scale == ulp(whole as nat));
        lemma_ulp_bounds(whole as nat);
        lemma_fundamental_div_mod(n as int, d as int);
        assert(d * scale <= n || scale == 1) by (nonlinear_arith)
            requires
                scale == 1 || 0x80_0000 * scale <= whole,
                n == d * whole + n % d,
                n % d >= 0,
                d > 0,
                scale >= 1,
        ;
        assert(d * scale >= d) by (nonlinear_arith)
            requires
                d > 0,
                scale >= 1,
        ;
        assert(d * 1 == d);
    }
    let step: u128 = d * scale;
    let q: u128 = n / step;
    let r: u128 = n % step;
    proof {
        lemma_fundamental_div_mod(n as int, step as int);
        assert(q * step <= n) by (nonlinear_arith)
            requires
                n == step * q + r,
                r >= 0,
        ;
        assert(q * scale <= q * step) by (nonlinear_arith)
            requires
                step == d * scale,
                d > 0,
                q >= 0,
                scale >= 0,
        ;
        assert((q + 1) * scale == q * scale + scale) by (nonlinear_arith);
    }
    let up: bool = if r < step - r {
        false
    } else if r > step - r {
        true
    } else {
        q % 2 == 1
    };
    proof {
        if up {
            assert(scale <= n) by (nonlinear_arith)
                requires
                    step == d * scale,
                    2 * r >= step,
                    r <= n,
                    scale == 1 || step <= n,
                    r >= 1,
                    d >= 1,
            ;
        }
    }
    if up {
        (q + 1) * scale
    } else {
        q * scale
    }
}

/// Rounds `x` to 24 significant bits, keeping its sign.
pub fn round_signed(x: i128) -> (r: i128)
    requires
        -0x4000_0000_0000_0000_0000_0000 < x < 0x4000_0000_0000_0000_0000_0000,
    ensures
        r == round_int(x as int),
{
    if x < 0 {
        -(round_quotient((-x) as u128, 1) as i128)
    } else {
        round_quotient(x as u128, 1) as i128
    }
}

} // verus!

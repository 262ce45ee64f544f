//! Integer square roots, rounded quotients and powers.

use vstd::prelude::*;

verus! {

/// `r` is the largest natural number whose square does not exceed `n`.
pub open spec fn is_floor_root(n: nat, r: nat) -> bool {
    r * r <= n < (r + 1) * (r + 1)
}

/// The square root of `n`, rounded down.
pub closed spec fn floor_root(n: nat) -> nat {
    choose|r: nat| is_floor_root(n, r)
}

/// Half the square root of `m`, rounded to the nearest natural number.
pub open spec fn half_root(m: nat) -> nat {
    (floor_root(m) + 1) / 2
}

/// The square root of `n`, rounded to the nearest natural number.
pub open spec fn rounded_root(n: nat) -> nat {
    half_root(4 * n)
}

/// Every natural number has a floor root.
proof fn lemma_floor_root_exists(n: nat) -> (r: nat)
    ensures
        is_floor_root(n, r),
    decreases n,
{
    if n == 0 {
        assert(is_floor_root(0, 0)) by (nonlinear_arith);
        0
    } else {
        let p = lemma_floor_root_exists((n - 1) as nat);
        let q: nat = p + 1;
        assert((q + 1) * (q + 1) == q * q + 2 * q + 1) by (nonlinear_arith);
        if q * q <= n {
            assert(is_floor_root(n, q));
            q
        } else {
            assert(is_floor_root(n, p));
            p
        }
    }
}

/// Squaring is strictly monotonic on the natural numbers.
pub proof fn lemma_square_strictly_monotonic(a: nat, b: nat)
    requires
        a < b,
    ensures
        a * a < b * b,
{
    assert(a * a < b * b) by (nonlinear_arith)
        requires
            a < b,
    ;
}

/// `floor_root(n)` is a floor root of `n`.
pub proof fn lemma_floor_root(n: nat)
    ensures
        is_floor_root(n, floor_root(n)),
{
    let r = lemma_floor_root_exists(n);
    assert(is_floor_root(n, r));
}

/// A number has only one floor root.
pub proof fn lemma_floor_root_unique(n: nat, r: nat)
    requires
        is_floor_root(n, r),
    ensures
        r == floor_root(n),
{
    lemma_floor_root(n);
    let s = floor_root(n);
    if r < s {
        assert((r + 1) * (r + 1) <= s * s) by (nonlinear_arith)
            requires
                r + 1 <= s,
        ;
    } else if s < r {
        assert((s + 1) * (s + 1) <= r * r) by (nonlinear_arith)
            requires
                s + 1 <= r,
        ;
    }
}

/// Computes the square root of `n`, rounded down.
pub fn floor_sqrt(n: u128) -> (r: u64)
    ensures
        r == floor_root(n as nat),
{
    let mut lo: u128 = 0;
    let mut hi: u128 = 0x1_0000_0000_0000_0000;
    assert(0x1_0000_0000_0000_0000u128 * 0x1_0000_0000_0000_0000u128 > u128::MAX) by (nonlinear_arith);
    while hi - lo > 1
        invariant
            lo < hi <= 0x1_0000_0000_0000_0000,
            lo * lo <= n,
            n < hi * hi,
        decreases hi - lo,
    {
        let mid: u128 = lo + (hi - lo) / 2;
        assert(mid * mid <= 0xffff_ffff_ffff_ffff * 0xffff_ffff_ffff_ffff) by (nonlinear_arith)
            requires
                0 <= mid <= 0xffff_ffff_ffff_ffff,
        ;
        assert(0xffff_ffff_ffff_ffffu128 * 0xffff_ffff_ffff_ffffu128 < u128::MAX) by (nonlinear_arith);
        if mid * mid <= n {
            lo = mid;
        } else {
            hi = mid;
        }
    }
    proof {
        assert(hi == lo + 1);
        lemma_floor_root_unique(n as nat, lo as nat);
    }
    lo as u64
}

/// Computes half the square root of `m`, rounded to the nearest natural number.
pub fn half_sqrt(m: u128) -> (r: u64)
    ensures
        r == half_root(m as nat),
{
    let f: u64 = floor_sqrt(m);
    if f == u64::MAX {
        0x8000_0000_0000_0000
    } else {
        (f + 1) / 2
    }
}

/// Computes the square root of `n`, rounded to the nearest natural number.
pub fn rounded_sqrt(n: u128) -> (r: u64)
    requires
        4 * n <= u128::MAX,
    ensures
        r == rounded_root(n as nat),
{
    half_sqrt(4 * n)
}

/// A number that does not exceed a square has a floor root that does not
/// exceed the squared number.
pub proof fn lemma_floor_root_below(n: nat, k: nat)
    requires
        n <= k * k,
    ensures
        floor_root(n) <= k,
{
    lemma_floor_root(n);
    let r = floor_root(n);
    if k < r {
        lemma_square_strictly_monotonic(k, r);
    }
}

/// Whether `q` is `a` divided by the positive `d`, rounded down.
pub open spec fn is_floor_quotient(a: int, d: int, q: int) -> bool {
    q * d <= a < (q + 1) * d
}

/// Rounding down the quotient of `a` by a positive `d` gives `a / d`, and
/// nothing else does.
pub proof fn lemma_floor_quotient(a: int, d: int, q: int)
    requires
        d > 0,
    ensures
        is_floor_quotient(a, d, q) <==> q == a / d,
{
    let e = a / d;
    assert(a == d * e + a % d && 0 <= a % d < d) by {
        vstd::arithmetic::div_mod::lemma_fundamental_div_mod(a, d);
        vstd::arithmetic::div_mod::lemma_mod_bound(a, d);
    }
    assert(e * d == d * e) by (nonlinear_arith);
    assert((e + 1) * d == d * e + d) by (nonlinear_arith);
    if is_floor_quotient(a, d, q) {
        if q < e {
            assert((q + 1) * d <= e * d) by (nonlinear_arith)
                requires
                    q + 1 <= e,
                    d > 0,
            ;
        } else if q > e {
            assert((e + 1) * d <= q * d) by (nonlinear_arith)
                requires
                    e + 1 <= q,
                    d > 0,
            ;
        }
    }
}

/// Divides `a` by the positive `d`, rounding down.
pub fn floor_div(a: i128, d: i128) -> (q: i128)
    requires
        d > 0,
        a > i128::MIN + d,
    ensures
        q == a / d,
{
    if a >= 0 {
        a / d
    } else {
        let n: i128 = -a;
        let c: i128 = (n + (d - 1)) / d;
        proof {
            let ci = c as int;
            let di = d as int;
            let m = n as int + (di - 1);
            assert(m == di * ci + m % di && 0 <= m % di < di) by {
                vstd::arithmetic::div_mod::lemma_fundamental_div_mod(m, di);
                vstd::arithmetic::div_mod::lemma_mod_bound(m, di);
            }
            assert((-ci) * di == -(di * ci)) by (nonlinear_arith);
            assert((-ci + 1) * di == -(di * ci) + di) by (nonlinear_arith);
            lemma_floor_quotient(a as int, di, -ci);
        }
        -c
    }
}

/// The quotient of `a` by the positive `d`, rounded to the nearest integer
/// (halves round up).
pub open spec fn rounded_quotient(a: int, d: int) -> int {
    (2 * a + d) / (2 * d)
}

/// A rounded quotient of a number between `lo * d` and `hi * d` lies
/// between `lo` and `hi`.
pub proof fn lemma_rounded_quotient_between(a: int, d: int, lo: int, hi: int)
    requires
        d > 0,
        lo * d <= a <= hi * d,
    ensures
        lo <= rounded_quotient(a, d) <= hi,
{
    let q = rounded_quotient(a, d);
    lemma_floor_quotient(2 * a + d, 2 * d, q);
    assert(q <= hi) by (nonlinear_arith)
        requires
            q * (2 * d) <= 2 * a + d,
            a <= hi * d,
            d > 0,
    ;
    assert(lo <= q) by (nonlinear_arith)
        requires
            2 * a + d < (q + 1) * (2 * d),
            lo * d <= a,
            d > 0,
    ;
}

/// Divides `a` by the positive `d`, rounding to the nearest integer.
pub fn round_div(a: i128, d: i128) -> (q: i128)
    requires
        0 < d <= 0x2000_0000_0000_0000_0000_0000_0000_0000,
        -0x2000_0000_0000_0000_0000_0000_0000_0000 <= a <= 0x2000_0000_0000_0000_0000_0000_0000_0000,
    ensures
        q == rounded_quotient(a as int, d as int),
{
    floor_div(2 * a + d, 2 * d)
}

/// `base` multiplied by itself `exp` times.
pub open spec fn power(base: nat, exp: nat) -> nat
    decreases exp,
{
    if exp == 0 {
        1
    } else {
        base * power(base, (exp - 1) as nat)
    }
}

/// A power grows with its base and, from a base of one on, with its
/// exponent.
pub proof fn lemma_power_monotonic(a: nat, m: nat, b: nat, n: nat)
    requires
        a <= b,
        m <= n,
        1 <= b,
    ensures
        power(a, m) <= power(b, n),
        1 <= power(b, n),
    decreases n,
{
    if n == 0 {
    } else if m == 0 {
        lemma_power_monotonic(a, 0, b, (n - 1) as nat);
        assert(1 <= b * power(b, (n - 1) as nat)) by (nonlinear_arith)
            requires
                1 <= b,
                1 <= power(b, (n - 1) as nat),
        ;
    } else {
        lemma_power_monotonic(a, (m - 1) as nat, b, (n - 1) as nat);
        assert(a * power(a, (m - 1) as nat) <= b * power(b, (n - 1) as nat)) by (nonlinear_arith)
            requires
                a <= b,
                power(a, (m - 1) as nat) <= power(b, (n - 1) as nat),
        ;
        assert(1 <= b * power(b, (n - 1) as nat)) by (nonlinear_arith)
            requires
                1 <= b,
                1 <= power(b, (n - 1) as nat),
        ;
    }
}

/// Computes a power that does not exceed 2 to the 64th.
pub fn raise(base: u128, exp: u8) -> (r: u128)
    requires
        power(base as nat, exp as nat) <= 0x1_0000_0000_0000_0000,
    ensures
        r == power(base as nat, exp as nat),
{
    let mut r: u128 = 1;
    let mut i: u8 = 0;
    while i < exp
        invariant
            i <= exp,
            r == power(base as nat, i as nat),
            power(base as nat, exp as nat) <= 0x1_0000_0000_0000_0000,
        decreases exp - i,
    {
        proof {
            if base >= 1 {
                lemma_power_monotonic(base as nat, (i + 1) as nat, base as nat, exp as nat);
            }
            assert(base * power(base as nat, i as nat) == power(base as nat, (i + 1) as nat));
            assert(r * base == base * r) by (nonlinear_arith);
            assert(base == 0 ==> base * r == 0) by (nonlinear_arith);
        }
        r = r * base;
        i += 1;
    }
    r
}

} // verus!

//! Integer facts behind the fixed-point arithmetic: powers of ten and two,
//! the floor of the binary logarithm, and the integer square root.
use vstd::prelude::*;

verus! {

/// `10^n`.
pub open spec fn pow10(n: nat) -> nat
    decreases n,
{
    if n == 0 {
        1
    } else {
        10 * pow10((n - 1) as nat)
    }
}

/// `2^n`.
pub open spec fn two_pow(n: nat) -> nat
    decreases n,
{
    if n == 0 {
        1
    } else {
        2 * two_pow((n - 1) as nat)
    }
}

/// The floor of the binary logarithm of `v` (0 for `v < 2`).
pub open spec fn log2_floor(v: nat) -> nat
    decreases v,
{
    if v < 2 {
        0
    } else {
        1 + log2_floor(v / 2)
    }
}

/// `r` is the integer square root of `n`.
pub open spec fn is_isqrt(n: nat, r: nat) -> bool {
    r * r <= n && n < (r + 1) * (r + 1)
}

/// The integer square root: the `r` with `r * r <= n < (r + 1) * (r + 1)`.
pub open spec fn isqrt(n: nat) -> nat {
    choose|r: nat| #[trigger] is_isqrt(n, r)
}

pub proof fn lemma_pow10_positive(n: nat)
    ensures
        pow10(n) >= 1,
    decreases n,
{
    if n > 0 {
        lemma_pow10_positive((n - 1) as nat);
    }
}

pub proof fn lemma_pow10_monotonic(a: nat, b: nat)
    requires
        a <= b,
    ensures
        pow10(a) <= pow10(b),
    decreases b,
{
    if a < b {
        lemma_pow10_monotonic(a, (b - 1) as nat);
        lemma_pow10_positive((b - 1) as nat);
    }
}

/// `10^(a + b) == 10^a * 10^b`.
pub proof fn lemma_pow10_adds(a: nat, b: nat)
    ensures
        pow10(a + b) == pow10(a) * pow10(b),
    decreases b,
{
    if b > 0 {
        let b1 = (b - 1) as nat;
        lemma_pow10_adds(a, b1);
        assert(((a + b) - 1) as nat == a + b1);
        assert(pow10(a + b) == 10 * pow10(a + b1));
        assert(pow10(b) == 10 * pow10(b1));
        assert(pow10(a) * (10 * pow10(b1)) == 10 * (pow10(a) * pow10(b1))) by (nonlinear_arith);
        assert(pow10(a) * pow10(b) == 10 * (pow10(a) * pow10(b1)));
    } else {
        assert(pow10(b) == 1);
        assert(a + b == a);
    }
}

/// The largest power of ten that fits in a `u128`, and the first that does not.
pub proof fn lemma_pow10_u128_range()
    ensures
        pow10(38) == 100_000_000_000_000_000_000_000_000_000_000_000_000nat,
        pow10(38) <= u128::MAX,
        pow10(18) == 1_000_000_000_000_000_000nat,
        pow10(6) == 1_000_000nat,
        pow10(8) == 100_000_000nat,
        pow10(10) == 10_000_000_000nat,
        pow10(2) == 100nat,
{
    reveal_with_fuel(pow10, 40);
}

pub proof fn lemma_two_pow_positive(n: nat)
    ensures
        two_pow(n) >= 1,
    decreases n,
{
    if n > 0 {
        lemma_two_pow_positive((n - 1) as nat);
    }
}

/// `2^(a + b) == 2^a * 2^b`.
pub proof fn lemma_two_pow_adds(a: nat, b: nat)
    ensures
        two_pow(a + b) == two_pow(a) * two_pow(b),
    decreases b,
{
    if b > 0 {
        let b1 = (b - 1) as nat;
        lemma_two_pow_adds(a, b1);
        assert(((a + b) - 1) as nat == a + b1);
        assert(two_pow(a + b) == 2 * two_pow(a + b1));
        assert(two_pow(b) == 2 * two_pow(b1));
        assert(two_pow(a) * (2 * two_pow(b1)) == 2 * (two_pow(a) * two_pow(b1))) by (nonlinear_arith);
        assert(two_pow(a) * two_pow(b) == 2 * (two_pow(a) * two_pow(b1)));
    } else {
        assert(two_pow(b) == 1);
        assert(a + b == a);
    }
}

pub proof fn lemma_two_pow_monotonic(a: nat, b: nat)
    requires
        a <= b,
    ensures
        two_pow(a) <= two_pow(b),
    decreases b,
{
    if a < b {
        lemma_two_pow_monotonic(a, (b - 1) as nat);
        lemma_two_pow_positive((b - 1) as nat);
    }
}

pub proof fn lemma_two_pow_values()
    ensures
        two_pow(26) == 67_108_864nat,
        two_pow(27) == 134_217_728nat,
        two_pow(60) == 1_152_921_504_606_846_976nat,
        two_pow(61) == 2_305_843_009_213_693_952nat,
        two_pow(64) == 18_446_744_073_709_551_616nat,
        two_pow(128) == u128::MAX + 1,
{
    reveal_with_fuel(two_pow, 11);
    assert(two_pow(10) == 1024);
    lemma_two_pow_adds(10, 10);
    assert(two_pow(20) == 1_048_576);
    assert(two_pow(6) == 64);
    assert(two_pow(7) == 128);
    lemma_two_pow_adds(20, 6);
    lemma_two_pow_adds(20, 7);
    lemma_two_pow_adds(20, 20);
    assert(two_pow(40) == 1_099_511_627_776);
    lemma_two_pow_adds(40, 20);
    assert(two_pow(60) == 1_152_921_504_606_846_976nat);
    lemma_two_pow_adds(60, 1);
    lemma_two_pow_adds(60, 4);
    assert(two_pow(4) == 16);
    assert(two_pow(64) == 18_446_744_073_709_551_616nat);
    lemma_two_pow_adds(64, 64);
    assert(two_pow(128) == 340_282_366_920_938_463_463_374_607_431_768_211_456nat);
}

/// `2^m <= v < 2^(m + 1)` for `m` the floor of the binary logarithm of `v >= 1`.
pub proof fn lemma_log2_floor_bounds(v: nat)
    requires
        v >= 1,
    ensures
        two_pow(log2_floor(v)) <= v,
        v < two_pow(log2_floor(v) + 1),
    decreases v,
{
    if v >= 2 {
        lemma_log2_floor_bounds(v / 2);
    }
}

/// A `u128` has a binary logarithm of at most 127.
pub proof fn lemma_log2_floor_u128(v: nat)
    requires
        1 <= v <= u128::MAX,
    ensures
        log2_floor(v) <= 127,
{
    lemma_log2_floor_bounds(v);
    lemma_two_pow_values();
    if log2_floor(v) >= 128 {
        lemma_two_pow_monotonic(128, log2_floor(v));
    }
}

/// Every natural number has an integer square root.
pub proof fn lemma_isqrt_witness(n: nat) -> (r: nat)
    ensures
        is_isqrt(n, r),
    decreases n,
{
    if n == 0 {
        assert(is_isqrt(0, 0)) by (nonlinear_arith);
        0
    } else {
        let r = lemma_isqrt_witness((n - 1) as nat);
        if (r + 1) * (r + 1) <= n {
            let s = r + 1;
            assert(n < (s + 1) * (s + 1)) by (nonlinear_arith)
                requires
                    n - 1 < (r + 1) * (r + 1),
                    s == r + 1,
            ;
            assert(is_isqrt(n, s));
            s
        } else {
            assert(r * r <= n);
            assert(is_isqrt(n, r));
            r
        }
    }
}

/// `isqrt(n)` is an integer square root of `n`.
pub proof fn lemma_isqrt(n: nat)
    ensures
        isqrt(n) * isqrt(n) <= n,
        n < (isqrt(n) + 1) * (isqrt(n) + 1),
{
    let r = lemma_isqrt_witness(n);
    assert(is_isqrt(n, r));
    assert(is_isqrt(n, isqrt(n)));
}

/// The integer square root is unique, and `isqrt` names it.
pub proof fn lemma_isqrt_unique(n: nat, r: nat)
    requires
        r * r <= n,
        n < (r + 1) * (r + 1),
    ensures
        isqrt(n) == r,
{
    assert(is_isqrt(n, r));
    let s = isqrt(n);
    assert(s * s <= n && n < (s + 1) * (s + 1));
    if s < r {
        assert((s + 1) * (s + 1) <= r * r) by (nonlinear_arith)
            requires
                s < r,
        ;
    }
    if r < s {
        assert((r + 1) * (r + 1) <= s * s) by (nonlinear_arith)
            requires
                r < s,
        ;
    }
}

/// Floor division lies between `lo` and `hi` when `a` lies between
/// `lo * b` and `hi * b`.
pub proof fn lemma_div_between(a: int, b: int, lo: int, hi: int)
    requires
        b > 0,
        lo * b <= a,
        a < hi * b,
    ensures
        lo <= a / b,
        a / b < hi,
{
    vstd::arithmetic::div_mod::lemma_fundamental_div_mod(a, b);
    vstd::arithmetic::div_mod::lemma_mod_bound(a, b);
    let q = a / b;
    let r = a % b;
    assert(lo <= q && q < hi) by (nonlinear_arith)
        requires
            a == b * q + r,
            0 <= r < b,
            lo * b <= a,
            a < hi * b,
            b > 0,
    ;
}

/// Floor division by `b` times `b` does not exceed the dividend.
pub proof fn lemma_div_mul_le(a: int, b: int)
    requires
        a >= 0,
        b > 0,
    ensures
        (a / b) * b <= a,
        a / b >= 0,
        a / b <= a,
{
    vstd::arithmetic::div_mod::lemma_fundamental_div_mod(a, b);
    vstd::arithmetic::div_mod::lemma_mod_bound(a, b);
    let q = a / b;
    let r = a % b;
    assert(q * b <= a && q >= 0 && q <= a) by (nonlinear_arith)
        requires
            a == b * q + r,
            0 <= r < b,
            a >= 0,
            b > 0,
    ;
}

/// Floor division: `(a / b) * b <= a < (a / b + 1) * b`.
pub proof fn lemma_floor_div_bounds(a: nat, b: nat)
    requires
        b > 0,
    ensures
        (a / b) * b <= a,
        a < (a / b + 1) * b,
{
    vstd::arithmetic::div_mod::lemma_fundamental_div_mod(a as int, b as int);
    vstd::arithmetic::div_mod::lemma_mod_bound(a as int, b as int);
    let q = a / b;
    let r = a % b;
    assert(q * b <= a && a < (q + 1) * b) by (nonlinear_arith)
        requires
            a == b * q + r,
            0 <= r < b,
    ;
}

/// A rate `n / d <= 1` applied with truncation stays below its argument, and
/// grows by no more than the argument does.
pub proof fn lemma_truncated_rate_step(a1: nat, a2: nat, n: nat, d: nat)
    requires
        0 < d,
        n <= d,
        a1 <= a2,
    ensures
        (a1 * n) / d <= a1,
        (a1 * n) / d <= (a2 * n) / d,
        (a2 * n) / d - (a1 * n) / d <= a2 - a1,
{
    lemma_floor_div_bounds(a1 * n, d);
    lemma_floor_div_bounds(a2 * n, d);
    let q1 = (a1 * n) / d;
    let q2 = (a2 * n) / d;
    assert(q1 <= a1) by (nonlinear_arith)
        requires
            q1 * d <= a1 * n,
            n <= d,
            0 < d,
    ;
    assert(a1 * n <= a2 * n) by (nonlinear_arith)
        requires
            a1 <= a2,
    ;
    vstd::arithmetic::div_mod::lemma_div_is_ordered((a1 * n) as int, (a2 * n) as int, d as int);
    assert(q2 - q1 <= a2 - a1) by (nonlinear_arith)
        requires
            q2 * d <= a2 * n,
            a1 * n < (q1 + 1) * d,
            n <= d,
            a1 <= a2,
            0 < d,
    ;
}

/// The integer square root is monotone.
pub proof fn lemma_isqrt_monotone(n1: nat, n2: nat)
    requires
        n1 <= n2,
    ensures
        isqrt(n1) <= isqrt(n2),
{
    lemma_isqrt(n1);
    lemma_isqrt(n2);
    let r1 = isqrt(n1);
    let r2 = isqrt(n2);
    if r1 > r2 {
        assert((r2 + 1) * (r2 + 1) <= r1 * r1) by (nonlinear_arith)
            requires
                r1 > r2,
        ;
    }
}

/// `q * b <= a` bounds `q` by the floor of `a / b`.
pub proof fn lemma_le_floor_div(q: int, a: int, b: int)
    requires
        b > 0,
        a >= 0,
        q * b <= a,
    ensures
        q <= a / b,
{
    lemma_floor_div_bounds(a as nat, b as nat);
    let f = a / b;
    assert(q <= f) by (nonlinear_arith)
        requires
            q * b <= a,
            a < (f + 1) * b,
            b > 0,
    ;
}

/// The floor of the binary logarithm is the `m` with `2^m <= v < 2^(m + 1)`.
pub proof fn lemma_log2_floor_unique(v: nat, m: nat)
    requires
        two_pow(m) <= v,
        v < two_pow(m + 1),
    ensures
        log2_floor(v) == m,
{
    lemma_two_pow_positive(m);
    lemma_log2_floor_bounds(v);
    let l = log2_floor(v);
    if l < m {
        lemma_two_pow_monotonic(l + 1, m);
    }
    if l > m {
        lemma_two_pow_monotonic(m + 1, l);
    }
}

/// Truncated scaling `x·n/m` is additive up to one unit.
pub proof fn lemma_floor_scale_add(x: nat, y: nat, n: nat, m: nat)
    requires
        m > 0,
    ensures
        (x * n) / m + (y * n) / m <= ((x + y) * n) / m,
        ((x + y) * n) / m <= (x * n) / m + (y * n) / m + 1,
{
    lemma_floor_div_bounds(x * n, m);
    lemma_floor_div_bounds(y * n, m);
    lemma_floor_div_bounds((x + y) * n, m);
    let a = (x * n) / m;
    let b = (y * n) / m;
    let c = ((x + y) * n) / m;
    assert((x + y) * n == x * n + y * n) by (nonlinear_arith);
    assert(a + b <= c && c <= a + b + 1) by (nonlinear_arith)
        requires
            a * m <= x * n,
            x * n < (a + 1) * m,
            b * m <= y * n,
            y * n < (b + 1) * m,
            c * m <= (x + y) * n,
            (x + y) * n < (c + 1) * m,
            (x + y) * n == x * n + y * n,
            m > 0,
    ;
}

/// Truncated scaling `u·n/m` grows by at most `n/m + 1` when `u` grows by one.
pub proof fn lemma_floor_scale_step(u: nat, n: nat, m: nat)
    requires
        m > 0,
    ensures
        (u * n) / m <= ((u + 1) * n) / m,
        ((u + 1) * n) / m <= (u * n) / m + n / m + 1,
{
    lemma_floor_scale_add(u, 1, n, m);
    assert(1 * n == n);
}

/// `10^n` as a `u128`, for the exponents where it fits.
pub fn pow10_u128(n: u8) -> (r: u128)
    requires
        n <= 38,
    ensures
        r == pow10(n as nat),
{
    let mut r: u128 = 1;
    let mut i: u8 = 0;
    while i < n
        invariant
            i <= n <= 38,
            r == pow10(i as nat),
        decreases n - i,
    {
        proof {
            lemma_pow10_monotonic((i + 1) as nat, 38);
            lemma_pow10_u128_range();
        }
        r = r * 10;
        i = i + 1;
    }
    r
}

/// `2^n` as a `u128`, for `n <= 127`.
pub fn two_pow_u128(n: u32) -> (r: u128)
    requires
        n <= 127,
    ensures
        r == two_pow(n as nat),
{
    let mut r: u128 = 1;
    let mut i: u32 = 0;
    while i < n
        invariant
            i <= n <= 127,
            r == two_pow(i as nat),
        decreases n - i,
    {
        proof {
            lemma_two_pow_monotonic((i + 1) as nat, 127);
            lemma_two_pow_values();
            assert(two_pow(128) == 2 * two_pow(127));
        }
        r = r * 2;
        i = i + 1;
    }
    r
}

/// The floor of the binary logarithm of a positive `u128`.
pub fn log2_floor_u128(v: u128) -> (m: u32)
    requires
        v >= 1,
    ensures
        m == log2_floor(v as nat),
        m <= 127,
{
    let mut t: u128 = v;
    let mut m: u32 = 0;
    proof {
        lemma_log2_floor_u128(v as nat);
    }
    while t >= 2
        invariant
            1 <= t <= v,
            log2_floor(v as nat) == m + log2_floor(t as nat),
            log2_floor(v as nat) <= 127,
        decreases t,
    {
        t = t / 2;
        m = m + 1;
    }
    m
}

/// The integer square root of a `u128`, by bisection.
pub fn isqrt_u128(n: u128) -> (r: u128)
    ensures
        r * r <= n,
        n < (r + 1) * (r + 1),
        r == isqrt(n as nat),
        r <= n,
{
    let mut lo: u128 = 0;
    let mut hi: u128 = 18_446_744_073_709_551_616;
    proof {
        lemma_two_pow_values();
        assert(n < hi * hi) by (nonlinear_arith)
            requires
                hi == 18_446_744_073_709_551_616u128,
                n <= u128::MAX,
        ;
    }
    while hi - lo > 1
        invariant
            lo < hi <= 18_446_744_073_709_551_616u128,
            lo * lo <= n,
            n < hi * hi,
        decreases hi - lo,
    {
        let mid = lo + (hi - lo) / 2;
        assert(mid * mid <= u128::MAX) by (nonlinear_arith)
            requires
                mid < 18_446_744_073_709_551_616u128,
        ;
        if mid * mid <= n {
            lo = mid;
        } else {
            hi = mid;
        }
    }
    proof {
        assert(hi == lo + 1);
        lemma_isqrt_unique(n as nat, lo as nat);
        assert(lo <= n) by (nonlinear_arith)
            requires
                lo * lo <= n,
        ;
    }
    lo
}

} // verus!

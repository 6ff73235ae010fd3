//! Non-negative single-precision arithmetic on exact fractions.
//!
//! A single-precision number has a significand of 24 bits. The result of an operation is the exact
//! result rounded to the nearest such number, and to the one with an even significand where two are
//! equally near. All the numbers here lie far inside the range of exponents, so that the significand
//! alone decides. A number is held as a fraction whose denominator is a power of two.

use vstd::arithmetic::power2::{
    lemma2_to64, lemma_pow2_adds, lemma_pow2_pos, lemma_pow2_unfold, pow2,
};
use vstd::prelude::*;

verus! {

/// The integer nearest to `n / d`, and the even one where two are equally near.
pub open spec fn nearest(n: nat, d: nat) -> nat
    recommends
        d > 0,
{
    if 2 * (n % d) < d || 2 * (n % d) == d && (n / d) % 2 == 0 {
        n / d
    } else {
        n / d + 1
    }
}

/// How far `n / d` is from having a whole part of exactly 24 bits.
pub open spec fn distance(n: nat, d: nat) -> nat {
    if n >= d * 0x100_0000 {
        n / d
    } else if n < d * 0x80_0000 {
        (d * 0x80_0000 - n) as nat
    } else {
        0
    }
}

/// The single-precision number nearest to `n / d`, as numerator and denominator: `n / d` is scaled
/// by a power of two until its whole part has exactly 24 bits, rounded to an integer, and scaled
/// back.
pub open spec fn rounded(n: nat, d: nat) -> (nat, nat)
    decreases distance(n, d),
    when n > 0 && d > 0
{
    proof {
        lemma_distance(n, d);
    }
    if n >= d * 0x100_0000 {
        let r = rounded(n, 2 * d);
        (2 * r.0, r.1)
    } else if n < d * 0x80_0000 {
        let r = rounded(2 * n, d);
        (r.0, 2 * r.1)
    } else {
        (nearest(n, d), 1)
    }
}

/// Scaling brings a fraction closer to a whole part of 24 bits.
pub proof fn lemma_distance(n: nat, d: nat)
    requires
        n > 0,
        d > 0,
    ensures
        n >= d * 0x100_0000 ==> distance(n, 2 * d) < distance(n, d),
        n < d * 0x80_0000 ==> distance(2 * n, d) < distance(n, d),
{
    if n >= d * 0x100_0000 {
        assert(n / d >= 0x100_0000) by (nonlinear_arith)
            requires
                n >= d * 0x100_0000,
                d > 0,
        ;
        if n >= (2 * d) * 0x100_0000 {
            assert(n / (2 * d) < n / d) by (nonlinear_arith)
                requires
                    n / d >= 0x100_0000,
                    d > 0,
                    n > 0,
            ;
        }
    }
}

/// Rounding errs by at most one part in two to the 24th, up or down.
pub proof fn lemma_rounded_error(n: nat, d: nat)
    requires
        n > 0,
        d > 0,
    ensures
        rounded(n, d).1 > 0,
        rounded(n, d).0 * d * 0x100_0000 <= n * rounded(n, d).1 * 0x100_0001,
        rounded(n, d).0 * d * 0x100_0000 >= n * rounded(n, d).1 * 0xff_ffff,
    decreases distance(n, d),
{
    lemma_distance(n, d);
    let (a, b) = rounded(n, d);
    if n >= d * 0x100_0000 {
        lemma_rounded_error(n, 2 * d);
        let r = rounded(n, 2 * d);
        assert(a * d * 0x100_0000 == r.0 * (2 * d) * 0x100_0000) by (nonlinear_arith)
            requires
                a == 2 * r.0,
        ;
    } else if n < d * 0x80_0000 {
        lemma_rounded_error(2 * n, d);
        let r = rounded(2 * n, d);
        assert(n * b * 0x100_0001 == (2 * n) * r.1 * 0x100_0001 && n * b * 0xff_ffff == (2 * n)
            * r.1 * 0xff_ffff) by (nonlinear_arith)
            requires
                b == 2 * r.1,
        ;
    } else {
        let q = n / d;
        let r = n % d;
        vstd::arithmetic::div_mod::lemma_fundamental_div_mod(n as int, d as int);
        assert(2 * n - d <= 2 * (a * d) <= 2 * n + d) by (nonlinear_arith)
            requires
                n == d * q + r,
                0 <= r < d,
                a == q && 2 * r <= d || (a == q + 1 && 2 * r >= d),
        ;
        assert(a * d * 0x100_0000 >= n * 1 * 0xff_ffff) by (nonlinear_arith)
            requires
                2 * n - d <= 2 * (a * d),
                n >= d * 0x80_0000,
        ;
        assert(a * d * 0x100_0000 <= n * 1 * 0x100_0001) by (nonlinear_arith)
            requires
                2 * (a * d) <= 2 * n + d,
                n >= d * 0x80_0000,
        ;
    }
}

/// How far two fractions lie apart, times both denominators.
pub open spec fn gap(a: nat, b: nat, n: nat, d: nat) -> int {
    if a * d >= n * b {
        a * d - n * b
    } else {
        n * b - a * d
    }
}

/// No integer is nearer to a fraction than the nearest.
proof fn lemma_nearest(n: nat, d: nat, c: nat)
    requires
        d > 0,
    ensures
        gap(nearest(n, d), 1, n, d) <= gap(c, 1, n, d),
{
    let (q, r, a) = (n / d, n % d, nearest(n, d));
    vstd::arithmetic::div_mod::lemma_fundamental_div_mod(n as int, d as int);
    assert(n * 1 == n);
    if c <= q {
        assert(c * d <= n - r) by (nonlinear_arith)
            requires
                c <= q,
                n == d * q + r,
        ;
    } else {
        assert(c * d >= n - r + d) by (nonlinear_arith)
            requires
                c >= q + 1,
                n == d * q + r,
        ;
    }
    assert(a * d == if a == q {
        n - r
    } else {
        n - r + d
    }) by (nonlinear_arith)
        requires
            a == q || a == q + 1,
            n == d * q + r,
    ;
}

/// No number with a significand of 24 bits, `k` times a power of two, is nearer to a fraction than
/// the one that the fraction is rounded to.
pub proof fn lemma_rounded_nearest(n: nat, d: nat, k: nat, i: nat, j: nat)
    requires
        n > 0,
        d > 0,
        k <= 0x100_0000,
    ensures
        gap(rounded(n, d).0, rounded(n, d).1, n, d) * pow2(j) <= gap(k * pow2(i), pow2(j), n, d)
            * rounded(n, d).1,
    decreases distance(n, d),
{
    lemma_distance(n, d);
    lemma_pow2_pos(i);
    lemma_pow2_pos(j);
    let (a, b) = rounded(n, d);
    let (p, t) = (pow2(i), pow2(j));
    let c = k * p;
    let (near, far) = (gap(a, b, n, d), gap(c, t, n, d));
    if n >= d * 0x100_0000 {
        let r = rounded(n, 2 * d);
        lemma_rounded_nearest(n, 2 * d, k, i, j + 1);
        lemma_pow2_unfold(j + 1);
        assert(pow2(j + 1) == 2 * t);
        assert(r.0 * (2 * d) == a * d) by (nonlinear_arith)
            requires
                a == 2 * r.0,
        ;
        assert(c * (2 * d) == 2 * (c * d) && n * (2 * t) == 2 * (n * t)) by (nonlinear_arith);
        assert(near * (2 * t) == 2 * (near * t) && (2 * far) * b == 2 * (far * b))
            by (nonlinear_arith);
    } else if n < d * 0x80_0000 {
        let r = rounded(2 * n, d);
        lemma_rounded_nearest(2 * n, d, k, i + 1, j);
        lemma_pow2_unfold(i + 1);
        assert(pow2(i + 1) == 2 * p);
        assert(k * (2 * p) == 2 * c) by (nonlinear_arith)
            requires
                c == k * p,
        ;
        assert((2 * n) * r.1 == n * b) by (nonlinear_arith)
            requires
                b == 2 * r.1,
        ;
        assert((2 * c) * d == 2 * (c * d) && (2 * n) * t == 2 * (n * t)) by (nonlinear_arith);
        assert((2 * far) * r.1 == far * b) by (nonlinear_arith)
            requires
                b == 2 * r.1,
        ;
    } else {
        assert(n * 1 == n);
        if i >= j {
            let more = pow2((i - j) as nat);
            lemma_pow2_adds((i - j) as nat, j);
            let whole_number = k * more;
            lemma_nearest(n, d, whole_number);
            let other = gap(whole_number, 1, n, d);
            assert(c * d == (whole_number * d) * t && far == other * t) by (nonlinear_arith)
                requires
                    c == k * p,
                    p == more * t,
                    whole_number == k * more,
                    t > 0,
                    far == if c * d >= n * t {
                        c * d - n * t
                    } else {
                        n * t - c * d
                    },
                    other == if whole_number * d >= n {
                        whole_number * d - n
                    } else {
                        n - whole_number * d
                    },
            {
                assert(c * d == (whole_number * d) * t);
                if whole_number * d >= n {
                    assert((whole_number * d) * t >= n * t);
                    assert((whole_number * d - n) * t == (whole_number * d) * t - n * t);
                } else {
                    assert((whole_number * d) * t < n * t);
                    assert((n - whole_number * d) * t == n * t - (whole_number * d) * t);
                }
            }
            assert(near * t <= other * t) by (nonlinear_arith)
                requires
                    near <= other,
                    t > 0,
            ;
        } else {
            let more = pow2((j - i) as nat);
            lemma_pow2_adds((j - i) as nat, i);
            lemma_pow2_unfold((j - i) as nat);
            lemma_pow2_pos((j - i - 1) as nat);
            assert(more >= 2);
            lemma_nearest(n, d, 0x80_0000);
            let other = gap(0x80_0000, 1, n, d);
            assert(other == n - 0x80_0000 * d);
            assert(c * d <= (0x80_0000 * d) * t) by (nonlinear_arith)
                requires
                    c == k * p,
                    k <= 0x100_0000,
                    t == more * p,
                    more >= 2,
            {
                assert(k * p <= 0x100_0000 * p);
                assert(0x100_0000 * p <= 0x80_0000 * t);
                assert(c <= 0x80_0000 * t);
                assert(c * d <= (0x80_0000 * t) * d);
            }
            assert((0x80_0000 * d) * t <= n * t && n * t - (0x80_0000 * d) * t == other * t)
                by (nonlinear_arith)
                requires
                    other == n - 0x80_0000 * d,
                    n >= 0x80_0000 * d,
            ;
            assert(near * t <= other * t) by (nonlinear_arith)
                requires
                    near <= other,
                    t > 0,
            ;
        }
        assert(far * 1 == far);
    }
}

/// What a fraction is rounded to is a number with a significand of 24 bits: the significand and the
/// powers of two are those that come back.
pub proof fn lemma_rounded_is_single(n: nat, d: nat) -> (res: (nat, nat, nat))
    requires
        n > 0,
        d > 0,
    ensures
        0x80_0000 <= res.0 <= 0x100_0000,
        rounded(n, d) == (res.0 * pow2(res.1), pow2(res.2)),
    decreases distance(n, d),
{
    lemma_distance(n, d);
    if n >= d * 0x100_0000 {
        let (k, i, j) = lemma_rounded_is_single(n, 2 * d);
        lemma_pow2_unfold(i + 1);
        let p = pow2(i);
        assert(k * (2 * p) == 2 * (k * p)) by (nonlinear_arith);
        (k, i + 1, j)
    } else if n < d * 0x80_0000 {
        let (k, i, j) = lemma_rounded_is_single(2 * n, d);
        lemma_pow2_unfold(j + 1);
        (k, i, j + 1)
    } else {
        lemma_rounded_large(n, d);
        lemma2_to64();
        let k = nearest(n, d);
        assert(n / d < 0x100_0000) by (nonlinear_arith)
            requires
                n < d * 0x100_0000,
                d > 0,
        ;
        assert(k * 1 == k);
        (k, 0, 0)
    }
}

/// A fraction of at least 24 bits stays so, and is rounded to an integer.
proof fn lemma_rounded_large(n: nat, d: nat)
    requires
        d > 0,
        n >= d * 0x80_0000,
    ensures
        rounded(n, d).0 >= 0x80_0000,
        n >= d * 0x100_0000 ==> rounded(n, d).0 >= 0x100_0000,
        rounded(n, d).1 == 1,
    decreases distance(n, d),
{
    assert(n > 0) by (nonlinear_arith)
        requires
            d > 0,
            n >= d * 0x80_0000,
    ;
    lemma_distance(n, d);
    if n >= d * 0x100_0000 {
        lemma_rounded_large(n, 2 * d);
    } else {
        assert(n / d >= 0x80_0000) by (nonlinear_arith)
            requires
                n >= d * 0x80_0000,
                d > 0,
        ;
    }
}

/// A larger fraction is not rounded to a smaller number.
proof fn lemma_rounded_monotone(n1: nat, n2: nat, d: nat)
    requires
        d > 0,
        d * 0x80_0000 <= n1 <= n2,
    ensures
        rounded(n1, d).0 <= rounded(n2, d).0,
    decreases distance(n2, d),
{
    assert(n1 > 0) by (nonlinear_arith)
        requires
            d > 0,
            n1 >= d * 0x80_0000,
    ;
    lemma_distance(n2, d);
    if n1 >= d * 0x100_0000 {
        lemma_rounded_monotone(n1, n2, 2 * d);
    } else {
        let q1 = n1 / d;
        let q2 = n2 / d;
        vstd::arithmetic::div_mod::lemma_fundamental_div_mod(n1 as int, d as int);
        vstd::arithmetic::div_mod::lemma_fundamental_div_mod(n2 as int, d as int);
        vstd::arithmetic::div_mod::lemma_div_is_ordered(n1 as int, n2 as int, d as int);
        if n2 >= d * 0x100_0000 {
            lemma_rounded_large(n2, d);
            assert(q1 < 0x100_0000) by (nonlinear_arith)
                requires
                    n1 < d * 0x100_0000,
                    d > 0,
                    q1 == n1 / d,
            ;
        } else if q1 == q2 {
            assert(n1 % d <= n2 % d);
        }
    }
}

/// An integer as a single-precision number, which is again an integer: up to 24 bits it is exact.
pub open spec fn whole(x: nat) -> nat {
    if x < 0x100_0000 {
        x
    } else {
        rounded(x, 1).0
    }
}

/// A larger integer does not become a smaller number.
pub proof fn lemma_whole_monotone(x: nat, y: nat)
    requires
        x <= y,
    ensures
        whole(x) <= whole(y),
{
    if y >= 0x100_0000 {
        lemma_rounded_large(y, 1);
        if x >= 0x100_0000 {
            lemma_rounded_monotone(x, y, 1);
        }
    }
}

/// The single-precision product of an integer and the single-precision quotient of two others, cut
/// off behind the point: `x * (a / b)`.
pub open spec fn scaled(x: nat, a: nat, b: nat) -> nat {
    if x == 0 || a == 0 {
        0
    } else {
        let scale = rounded(whole(a), whole(b));
        let product = rounded(whole(x) * scale.0, scale.1);
        product.0 / product.1
    }
}

/// An integer as a single-precision number errs by at most one part in two to the 24th.
proof fn lemma_whole_error(x: nat)
    ensures
        x * 0xff_ffff <= whole(x) * 0x100_0000 <= x * 0x100_0001,
{
    if x >= 0x100_0000 {
        lemma_rounded_error(x, 1);
        lemma_rounded_large(x, 1);
        let r = rounded(x, 1);
        assert(r.0 * 1 * 0x100_0000 == r.0 * 0x100_0000);
        assert(x * r.1 * 0x100_0001 == x * 0x100_0001 && x * r.1 * 0xff_ffff == x * 0xff_ffff)
            by (nonlinear_arith)
            requires
                r.1 == 1,
        ;
    }
}

/// Scaling gives the product of the integer and the quotient, cut off behind the point, but for less
/// than one part in two to the 21st.
pub proof fn lemma_scaled_ratio(x: nat, a: nat, b: nat)
    requires
        b > 0,
        a < 0x100_0000,
    ensures
        scaled(x, a, b) * b * 0x20_0000 <= x * a * 0x20_0001,
        (scaled(x, a, b) + 1) * b * 0x20_0000 > x * a * 0x1f_ffff,
{
    if x == 0 || a == 0 {
        let none = scaled(x, a, b);
        assert(x * a == 0 && none * b == 0 && (none + 1) * b == b) by (nonlinear_arith)
            requires
                x == 0 || a == 0,
                none == 0,
        ;
    } else {
        let (w, m) = (whole(x), whole(b));
        lemma_whole_error(x);
        lemma_whole_error(b);
        lemma_whole_positive(x);
        lemma_whole_positive(b);
        let s = rounded(a, m);
        lemma_rounded_error(a, m);
        lemma_rounded_positive(a, m);
        let n = w * s.0;
        assert(n > 0) by (nonlinear_arith)
            requires
                n == w * s.0,
                w > 0,
                s.0 > 0,
        ;
        let p = rounded(n, s.1);
        lemma_rounded_error(n, s.1);
        let q = p.0 / p.1;
        vstd::arithmetic::div_mod::lemma_fundamental_div_mod(p.0 as int, p.1 as int);
        vstd::arithmetic::div_mod::lemma_mod_bound(p.0 as int, p.1 as int);
        let rest = p.0 % p.1;
        assert(q * p.1 <= p.0 < (q + 1) * p.1) by (nonlinear_arith)
            requires
                p.0 == p.1 * q + rest,
                0 <= rest < p.1,
        ;
        lemma_ratio_above(p.0, p.1, s.0, s.1, w, m, x, a, b);
        lemma_ratio_below(p.0, p.1, s.0, s.1, w, m, x, a, b);
        assert(q * b * 0x20_0000 <= x * a * 0x20_0001) by (nonlinear_arith)
            requires
                p.0 * b * 0x20_0000 <= x * a * p.1 * 0x20_0001,
                q * p.1 <= p.0,
                p.1 > 0,
        {
            assert((q * b * 0x20_0000) * p.1 <= (x * a * 0x20_0001) * p.1);
        }
        assert((q + 1) * b * 0x20_0000 > x * a * 0x1f_ffff) by (nonlinear_arith)
            requires
                p.0 * b * 0x20_0000 >= x * a * p.1 * 0x1f_ffff,
                (q + 1) * p.1 > p.0,
                p.1 > 0,
                b > 0,
        {
            assert(((q + 1) * p.1) * (b * 0x20_0000) > p.0 * (b * 0x20_0000));
            assert(((q + 1) * b * 0x20_0000) * p.1 > (x * a * 0x1f_ffff) * p.1);
        }
    }
}

/// The four roundings of scaling together, upwards.
proof fn lemma_ratio_above(
    p0: nat,
    p1: nat,
    s0: nat,
    s1: nat,
    w: nat,
    m: nat,
    x: nat,
    a: nat,
    b: nat,
)
    requires
        s1 > 0,
        s0 * m * 0x100_0000 <= a * s1 * 0x100_0001,
        p0 * s1 * 0x100_0000 <= (w * s0) * p1 * 0x100_0001,
        w * 0x100_0000 <= x * 0x100_0001,
        m * 0x100_0000 >= b * 0xff_ffff,
    ensures
        p0 * b * 0x20_0000 <= x * a * p1 * 0x20_0001,
{
    let (u, hi, lo) = (0x100_0000int, 0x100_0001int, 0xff_ffffint);
    // The second bound times `m`, with the first put in and `s1` cancelled.
    let k = w * p1 * hi;
    assert((p0 * s1 * u) * (m * u) <= ((w * s0) * p1 * hi) * (m * u)) by (nonlinear_arith)
        requires
            p0 * s1 * u <= (w * s0) * p1 * hi,
            u > 0,
    ;
    assert(((w * s0) * p1 * hi) * (m * u) == k * (s0 * m * u)) by (nonlinear_arith)
        requires
            k == w * p1 * hi,
    ;
    assert(k * (s0 * m * u) <= k * (a * s1 * hi)) by (nonlinear_arith)
        requires
            s0 * m * u <= a * s1 * hi,
            k == w * p1 * hi,
            hi > 0,
    ;
    assert(k * (a * s1 * hi) == (w * p1 * a * (hi * hi)) * s1) by (nonlinear_arith)
        requires
            k == w * p1 * hi,
    ;
    assert((p0 * s1 * u) * (m * u) == (p0 * m * (u * u)) * s1) by (nonlinear_arith);
    assert(p0 * m * (u * u) <= w * p1 * a * (hi * hi)) by (nonlinear_arith)
        requires
            (p0 * m * (u * u)) * s1 <= (w * p1 * a * (hi * hi)) * s1,
            s1 > 0,
    ;
    // Both integers put in for their single-precision numbers.
    let (k1, k2) = (p0 * u * u, p1 * a * (hi * hi));
    let (t1, t2) = (p0 * m * (u * u), w * p1 * a * (hi * hi));
    assert(k1 >= 0 && k2 >= 0) by (nonlinear_arith)
        requires
            k1 == p0 * u * u,
            k2 == p1 * a * (hi * hi),
            u > 0,
            hi > 0,
    ;
    assert(k1 * (b * lo) <= k1 * (m * u)) by (nonlinear_arith)
        requires
            b * lo <= m * u,
            k1 >= 0,
    ;
    assert(k1 * (m * u) == t1 * u) by (nonlinear_arith)
        requires
            k1 == p0 * u * u,
            t1 == p0 * m * (u * u),
    ;
    assert(t1 * u <= t2 * u) by (nonlinear_arith)
        requires
            t1 <= t2,
            u > 0,
    ;
    assert(t2 * u == k2 * (w * u)) by (nonlinear_arith)
        requires
            t2 == w * p1 * a * (hi * hi),
            k2 == p1 * a * (hi * hi),
    ;
    assert(k2 * (w * u) <= k2 * (x * hi)) by (nonlinear_arith)
        requires
            w * u <= x * hi,
            k2 >= 0,
    ;
    assert(k2 * (x * hi) == x * a * p1 * (hi * hi * hi)) by (nonlinear_arith)
        requires
            k2 == p1 * a * (hi * hi),
    ;
    assert(k1 * (b * lo) == p0 * b * (lo * u * u)) by (nonlinear_arith)
        requires
            k1 == p0 * u * u,
    ;
    let (c, e) = (lo * u * u, hi * hi * hi);
    assert(e * 0x20_0000 <= c * 0x20_0001);
    assert(c > 0);
    let (l, r) = ((p0 * b) as int, (x * a * p1) as int);
    assert(l * 0x20_0000 <= r * 0x20_0001) by (nonlinear_arith)
        requires
            l * c <= r * e,
            e * 0x20_0000 <= c * 0x20_0001,
            c > 0,
            r >= 0,
    {
        assert((l * c) * 0x20_0000 <= (r * e) * 0x20_0000);
        assert(r * (e * 0x20_0000) <= r * (c * 0x20_0001));
        assert((l * 0x20_0000) * c <= (r * 0x20_0001) * c);
    }
}

/// The four roundings of scaling together, downwards.
proof fn lemma_ratio_below(
    p0: nat,
    p1: nat,
    s0: nat,
    s1: nat,
    w: nat,
    m: nat,
    x: nat,
    a: nat,
    b: nat,
)
    requires
        s1 > 0,
        s0 * m * 0x100_0000 >= a * s1 * 0xff_ffff,
        p0 * s1 * 0x100_0000 >= (w * s0) * p1 * 0xff_ffff,
        w * 0x100_0000 >= x * 0xff_ffff,
        m * 0x100_0000 <= b * 0x100_0001,
    ensures
        p0 * b * 0x20_0000 >= x * a * p1 * 0x1f_ffff,
{
    let (u, hi, lo) = (0x100_0000int, 0x100_0001int, 0xff_ffffint);
    let k = w * p1 * lo;
    assert((p0 * s1 * u) * (m * u) >= ((w * s0) * p1 * lo) * (m * u)) by (nonlinear_arith)
        requires
            p0 * s1 * u >= (w * s0) * p1 * lo,
            u > 0,
    ;
    assert(((w * s0) * p1 * lo) * (m * u) == k * (s0 * m * u)) by (nonlinear_arith)
        requires
            k == w * p1 * lo,
    ;
    assert(k * (s0 * m * u) >= k * (a * s1 * lo)) by (nonlinear_arith)
        requires
            s0 * m * u >= a * s1 * lo,
            k == w * p1 * lo,
            lo > 0,
    ;
    assert(k * (a * s1 * lo) == (w * p1 * a * (lo * lo)) * s1) by (nonlinear_arith)
        requires
            k == w * p1 * lo,
    ;
    assert((p0 * s1 * u) * (m * u) == (p0 * m * (u * u)) * s1) by (nonlinear_arith);
    assert(p0 * m * (u * u) >= w * p1 * a * (lo * lo)) by (nonlinear_arith)
        requires
            (p0 * m * (u * u)) * s1 >= (w * p1 * a * (lo * lo)) * s1,
            s1 > 0,
    ;
    let (k1, k2) = (p0 * u * u, p1 * a * (lo * lo));
    let (t1, t2) = (p0 * m * (u * u), w * p1 * a * (lo * lo));
    assert(k1 >= 0 && k2 >= 0) by (nonlinear_arith)
        requires
            k1 == p0 * u * u,
            k2 == p1 * a * (lo * lo),
            u > 0,
            lo > 0,
    ;
    assert(k1 * (b * hi) >= k1 * (m * u)) by (nonlinear_arith)
        requires
            b * hi >= m * u,
            k1 >= 0,
    ;
    assert(k1 * (m * u) == t1 * u) by (nonlinear_arith)
        requires
            k1 == p0 * u * u,
            t1 == p0 * m * (u * u),
    ;
    assert(t1 * u >= t2 * u) by (nonlinear_arith)
        requires
            t1 >= t2,
            u > 0,
    ;
    assert(t2 * u == k2 * (w * u)) by (nonlinear_arith)
        requires
            t2 == w * p1 * a * (lo * lo),
            k2 == p1 * a * (lo * lo),
    ;
    assert(k2 * (w * u) >= k2 * (x * lo)) by (nonlinear_arith)
        requires
            w * u >= x * lo,
            k2 >= 0,
    ;
    assert(k2 * (x * lo) == x * a * p1 * (lo * lo * lo)) by (nonlinear_arith)
        requires
            k2 == p1 * a * (lo * lo),
    ;
    assert(k1 * (b * hi) == p0 * b * (hi * u * u)) by (nonlinear_arith)
        requires
            k1 == p0 * u * u,
    ;
    let (c, e) = (hi * u * u, lo * lo * lo);
    assert(e * 0x20_0000 >= c * 0x1f_ffff);
    assert(c > 0);
    let (l, r) = ((p0 * b) as int, (x * a * p1) as int);
    assert(l * 0x20_0000 >= r * 0x1f_ffff) by (nonlinear_arith)
        requires
            l * c >= r * e,
            e * 0x20_0000 >= c * 0x1f_ffff,
            c > 0,
            r >= 0,
    {
        assert((l * c) * 0x20_0000 >= (r * e) * 0x20_0000);
        assert(r * (e * 0x20_0000) >= r * (c * 0x1f_ffff));
        assert((l * 0x20_0000) * c >= (r * 0x1f_ffff) * c);
    }
}

/// The product is below one exactly where nothing stands before its point.
pub proof fn lemma_scaled_floor(x: nat, a: nat, b: nat)
    requires
        x > 0,
        0 < a < 0x100_0000,
        b > 0,
    ensures
        ({
            let factor = rounded(a, whole(b));
            let product = rounded(whole(x) * factor.0, factor.1);
            &&& product.1 > 0
            &&& scaled(x, a, b) == product.0 / product.1
            &&& scaled(x, a, b) == 0 <==> product.0 < product.1
        }),
{
    let (w, m) = (whole(x), whole(b));
    lemma_whole_positive(x);
    lemma_whole_positive(b);
    let s = rounded(a, m);
    lemma_rounded_error(a, m);
    lemma_rounded_positive(a, m);
    let n = w * s.0;
    assert(n > 0) by (nonlinear_arith)
        requires
            n == w * s.0,
            w > 0,
            s.0 > 0,
    ;
    let p = rounded(n, s.1);
    lemma_rounded_error(n, s.1);
    let q = p.0 / p.1;
    vstd::arithmetic::div_mod::lemma_fundamental_div_mod(p.0 as int, p.1 as int);
    let rest = p.0 % p.1;
    assert(q == 0 <==> p.0 < p.1) by (nonlinear_arith)
        requires
            p.0 == p.1 * q + rest,
            0 <= rest < p.1,
            q >= 0,
    ;
}

/// A larger integer is not scaled to a smaller one.
pub proof fn lemma_scaled_monotone(x: nat, y: nat, a: nat, b: nat)
    requires
        x <= y,
        b > 0,
    ensures
        scaled(x, a, b) <= scaled(y, a, b),
{
    if x > 0 && a > 0 {
        lemma_whole_monotone(x, y);
        lemma_whole_positive(x);
        lemma_whole_positive(a);
        lemma_whole_positive(b);
        let s = rounded(whole(a), whole(b));
        lemma_rounded_error(whole(a), whole(b));
        lemma_rounded_positive(whole(a), whole(b));
        let (m, n) = (whole(x) * s.0, whole(y) * s.0);
        assert(0 < m <= n) by (nonlinear_arith)
            requires
                m == whole(x) * s.0,
                n == whole(y) * s.0,
                0 < whole(x) <= whole(y),
                s.0 > 0,
        ;
        lemma_rounded_ordered(m, n, s.1);
        let (p, q) = (rounded(m, s.1), rounded(n, s.1));
        lemma_rounded_error(m, s.1);
        lemma_rounded_error(n, s.1);
        vstd::arithmetic::div_mod::lemma_fundamental_div_mod(p.0 as int, p.1 as int);
        vstd::arithmetic::div_mod::lemma_fundamental_div_mod(q.0 as int, q.1 as int);
        let (i, j, r, t) = (p.0 / p.1, q.0 / q.1, p.0 % p.1, q.0 % q.1);
        assert(i <= j) by (nonlinear_arith)
            requires
                p.0 == p.1 * i + r,
                0 <= r < p.1,
                q.0 == q.1 * j + t,
                0 <= t < q.1,
                p.0 * q.1 <= q.0 * p.1,
        {
            assert((p.1 * i) * q.1 <= p.0 * q.1);
            assert(q.0 * p.1 < (q.1 * (j + 1)) * p.1);
            assert(i * (p.1 * q.1) < (j + 1) * (p.1 * q.1));
        }
    }
}

/// A larger fraction is not rounded to a smaller number.
pub proof fn lemma_rounded_ordered(m: nat, n: nat, d: nat)
    requires
        0 < m <= n,
        d > 0,
    ensures
        rounded(m, d).0 * rounded(n, d).1 <= rounded(n, d).0 * rounded(m, d).1,
    decreases distance(m, d),
{
    lemma_distance(m, d);
    let (p, q) = (rounded(m, d), rounded(n, d));
    if m >= d * 0x80_0000 {
        lemma_rounded_monotone(m, n, d);
        lemma_rounded_large(m, d);
        lemma_rounded_large(n, d);
    } else {
        lemma_rounded_ordered(2 * m, 2 * n, d);
        lemma_rounded_doubles(n, d);
        let (p2, q2) = (rounded(2 * m, d), rounded(2 * n, d));
        lemma_rounded_error(n, d);
        lemma_rounded_error(2 * n, d);
        lemma_rounded_error(2 * m, d);
        assert(p.0 * q.1 <= q.0 * p.1) by (nonlinear_arith)
            requires
                p.0 == p2.0,
                p.1 == 2 * p2.1,
                p2.0 * q2.1 <= q2.0 * p2.1,
                q2.0 * q.1 == 2 * (q.0 * q2.1),
                q2.1 > 0,
        {
            assert((p2.0 * q2.1) * q.1 <= (q2.0 * p2.1) * q.1);
            assert((q2.0 * p2.1) * q.1 == p2.1 * (q2.0 * q.1));
            assert(p2.1 * (q2.0 * q.1) == (q.0 * (2 * p2.1)) * q2.1);
            assert((p.0 * q.1) * q2.1 <= (q.0 * p.1) * q2.1);
        }
    }
}

/// Twice a fraction is rounded to twice the number.
pub proof fn lemma_rounded_doubles(n: nat, d: nat)
    requires
        n > 0,
        d > 0,
    ensures
        rounded(2 * n, d).0 * rounded(n, d).1 == 2 * (rounded(n, d).0 * rounded(2 * n, d).1),
    decreases distance(2 * n, d),
{
    lemma_distance(n, d);
    lemma_distance(2 * n, d);
    let (p, q) = (rounded(n, d), rounded(2 * n, d));
    if n < d * 0x80_0000 {
        assert(q.0 * p.1 == 2 * (p.0 * q.1)) by (nonlinear_arith)
            requires
                p.0 == q.0,
                p.1 == 2 * q.1,
        ;
    } else {
        lemma_rounded_halves(n, d);
        let r = rounded(2 * n, 2 * d);
        assert(q.0 * p.1 == 2 * (p.0 * q.1)) by (nonlinear_arith)
            requires
                q.0 == 2 * r.0,
                q.1 == r.1,
                r == p,
        ;
    }
}

/// Both parts of a fraction times two make the same number.
proof fn lemma_rounded_halves(n: nat, d: nat)
    requires
        n > 0,
        d > 0,
    ensures
        rounded(2 * n, 2 * d) == rounded(n, d),
    decreases distance(n, d),
{
    lemma_distance(n, d);
    if n >= d * 0x100_0000 {
        lemma_rounded_halves(n, 2 * d);
    } else if n < d * 0x80_0000 {
        lemma_rounded_halves(2 * n, d);
    } else {
        let (q, r) = (n / d, n % d);
        vstd::arithmetic::div_mod::lemma_fundamental_div_mod(n as int, d as int);
        assert(2 * n == q * (2 * d) + 2 * r) by (nonlinear_arith)
            requires
                n == d * q + r,
        ;
        vstd::arithmetic::div_mod::lemma_fundamental_div_mod_converse(
            (2 * n) as int,
            (2 * d) as int,
            q as int,
            (2 * r) as int,
        );
    }
}

/// Where the quotient is below two to the 23rd and at most one whole is taken of it, scaling does
/// not go beyond the dividend. From there on the spacing of single-precision numbers is a whole
/// unit.
pub proof fn lemma_scaled_bound(x: nat, a: nat, b: nat)
    requires
        x <= b,
        b > 0,
        a < 0x80_0000,
    ensures
        scaled(x, a, b) <= a,
{
    if x > 0 && a > 0 {
        let (w, m) = (whole(x), whole(b));
        lemma_whole_monotone(x, b);
        lemma_whole_positive(x);
        lemma_whole_positive(b);
        let s = rounded(a, m);
        lemma_rounded_error(a, m);
        lemma_rounded_positive(a, m);
        let n = w * s.0;
        assert(n > 0) by (nonlinear_arith)
            requires
                n == w * s.0,
                w > 0,
                s.0 > 0,
        ;
        let p = rounded(n, s.1);
        lemma_rounded_error(n, s.1);
        lemma_product_bound(p.0, p.1, s.0, s.1, w, m, a);
        assert(p.0 / p.1 <= a) by (nonlinear_arith)
            requires
                p.0 < (a + 1) * p.1,
                p.1 > 0,
        ;
    }
}

/// Two roundings together do not reach the next integer.
proof fn lemma_product_bound(p0: nat, p1: nat, s0: nat, s1: nat, w: nat, m: nat, a: nat)
    requires
        p1 > 0,
        s1 > 0,
        0 < w <= m,
        a < 0x80_0000,
        s0 * m * 0x100_0000 <= a * s1 * 0x100_0001,
        p0 * s1 * 0x100_0000 <= (w * s0) * p1 * 0x100_0001,
    ensures
        p0 < (a + 1) * p1,
{
    // Both sides of the second bound times `m`, with the first bound put in, and `s1` cancelled.
    assert((p0 * m * 0x1_0000_0000_0000) * s1 <= (w * p1 * a * 0x1_0000_0200_0001) * s1) by (
        nonlinear_arith)
        requires
            s0 * m * 0x100_0000 <= a * s1 * 0x100_0001,
            p0 * s1 * 0x100_0000 <= (w * s0) * p1 * 0x100_0001,
    {
        let k = w * p1 * 0x100_0001;
        assert((p0 * s1 * 0x100_0000) * (m * 0x100_0000) <= ((w * s0) * p1 * 0x100_0001) * (m
            * 0x100_0000));
        assert(((w * s0) * p1 * 0x100_0001) * (m * 0x100_0000) == k * (s0 * m * 0x100_0000));
        assert(k * (s0 * m * 0x100_0000) <= k * (a * s1 * 0x100_0001));
        assert(k * (a * s1 * 0x100_0001) == (w * p1 * a * 0x1_0000_0200_0001) * s1);
        assert((p0 * s1 * 0x100_0000) * (m * 0x100_0000) == (p0 * m * 0x1_0000_0000_0000) * s1);
    }
    assert(p0 * m * 0x1_0000_0000_0000 <= w * p1 * a * 0x1_0000_0200_0001) by (nonlinear_arith)
        requires
            (p0 * m * 0x1_0000_0000_0000) * s1 <= (w * p1 * a * 0x1_0000_0200_0001) * s1,
            s1 > 0,
    ;
    assert((p0 * 0x1_0000_0000_0000) * m <= (p1 * a * 0x1_0000_0200_0001) * m) by (nonlinear_arith)
        requires
            p0 * m * 0x1_0000_0000_0000 <= w * p1 * a * 0x1_0000_0200_0001,
            w <= m,
    ;
    assert(p0 * 0x1_0000_0000_0000 <= p1 * a * 0x1_0000_0200_0001) by (nonlinear_arith)
        requires
            (p0 * 0x1_0000_0000_0000) * m <= (p1 * a * 0x1_0000_0200_0001) * m,
            m > 0,
    ;
    assert(a * 0x1_0000_0200_0001 < (a + 1) * 0x1_0000_0000_0000);
    assert(p0 < (a + 1) * p1) by (nonlinear_arith)
        requires
            p0 * 0x1_0000_0000_0000 <= p1 * a * 0x1_0000_0200_0001,
            a * 0x1_0000_0200_0001 < (a + 1) * 0x1_0000_0000_0000,
            p1 > 0,
    ;
}

/// A positive fraction is not rounded to zero.
proof fn lemma_rounded_positive(n: nat, d: nat)
    requires
        n > 0,
        d > 0,
    ensures
        rounded(n, d).0 > 0,
    decreases distance(n, d),
{
    lemma_distance(n, d);
    if n >= d * 0x100_0000 {
        lemma_rounded_positive(n, 2 * d);
    } else if n < d * 0x80_0000 {
        lemma_rounded_positive(2 * n, d);
    } else {
        lemma_rounded_large(n, d);
    }
}

/// A positive integer does not become zero.
proof fn lemma_whole_positive(x: nat)
    requires
        x > 0,
    ensures
        whole(x) > 0,
{
    if x >= 0x100_0000 {
        lemma_rounded_positive(x, 1);
    }
}

/// The integer nearest to `n / d`, and the even one where two are equally near.
fn nearest_int(n: u128, d: u128) -> (res: u128)
    requires
        0 < d <= 0x1_0000_0000_0000_0000_0000_0000,
        n < 0x1_0000_0000_0000_0000_0000_0000,
    ensures
        res == nearest(n as nat, d as nat),
{
    let q = n / d;
    let r = n % d;
    assert(q <= n) by (nonlinear_arith)
        requires
            q == n / d,
            d > 0,
    ;
    if 2 * r < d || 2 * r == d && q % 2 == 0 {
        q
    } else {
        q + 1
    }
}

/// The single-precision number nearest to `n / d`, as numerator and denominator.
fn round(n: u128, d: u128) -> (res: (u128, u128))
    requires
        0 < n <= 0x40_0000_0000_0000_0000,
        0 < d <= 0x400_0000_0000_0000,
    ensures
        rounded(n as nat, d as nat) == (res.0 as nat, res.1 as nat),
        res.0 <= 2 * n + 0x100_0000,
        0 < res.1 <= d * 0x100_0000,
{
    let mut x = n;
    let mut y = d;
    let mut up: u128 = 1;
    let mut down: u128 = 1;
    while x >= y * 0x100_0000
        invariant
            x == n,
            0 < n <= 0x40_0000_0000_0000_0000,
            0 < d,
            0 < y <= 0x400_0000_0000_0000,
            0 < up <= y,
            up == 1 ==> y == d,
            up > 1 ==> up * 0x80_0000 <= n && x >= y * 0x80_0000,
            rounded(n as nat, d as nat) == (
                up as nat * rounded(x as nat, y as nat).0,
                rounded(x as nat, y as nat).1,
            ),
        decreases x - y,
    {
        let ghost r = rounded(x as nat, (2 * y) as nat);
        assert(up * (2 * r.0) == (2 * up) * r.0) by (nonlinear_arith);
        y = 2 * y;
        up = 2 * up;
    }
    while x < y * 0x80_0000
        invariant
            0 < n,
            0 < d,
            0 < x < y * 0x100_0000,
            0 < y <= 0x400_0000_0000_0000,
            0 < down <= x,
            up == 1 ==> y == d,
            up > 1 ==> down == 1 && up * 0x80_0000 <= n && x >= y * 0x80_0000,
            rounded(n as nat, d as nat) == (
                up as nat * rounded(x as nat, y as nat).0,
                down as nat * rounded(x as nat, y as nat).1,
            ),
        decreases y * 0x100_0000 - x,
    {
        let ghost r = rounded((2 * x) as nat, y as nat);
        assert(down * (2 * r.1) == (2 * down) * r.1) by (nonlinear_arith);
        x = 2 * x;
        down = 2 * down;
    }
    let q = nearest_int(x, y);
    assert(q <= 0x100_0000) by {
        assert(x / y < 0x100_0000) by (nonlinear_arith)
            requires
                x < y * 0x100_0000,
                y > 0,
        ;
    }
    assert(up * q <= up * 0x100_0000) by (nonlinear_arith)
        requires
            q <= 0x100_0000,
    ;
    (up * q, down)
}

/// An integer as a single-precision number.
fn whole_number(x: u32) -> (res: u128)
    ensures
        res == whole(x as nat),
        res < 0x2_0000_0000,
        x > 0 ==> res > 0,
{
    if x < 0x100_0000 {
        x as u128
    } else {
        proof {
            lemma_rounded_error(x as nat, 1);
            lemma_rounded_large(x as nat, 1);
        }
        round(x as u128, 1).0
    }
}

/// The single-precision `x * (a / b)`, cut off behind the point. What exceeds 32 bits gives the
/// largest number of 32 bits.
pub fn scale(x: u32, a: u32, b: u32) -> (res: u32)
    requires
        b > 0,
    ensures
        res == if scaled(x as nat, a as nat, b as nat) <= u32::MAX {
            scaled(x as nat, a as nat, b as nat) as u32
        } else {
            u32::MAX
        },
{
    if x == 0 || a == 0 {
        return 0;
    }
    let w = whole_number(x);
    let quotient = round(whole_number(a), whole_number(b));
    proof {
        lemma_rounded_positive(whole(a as nat), whole(b as nat));
    }
    assert(0 < w * quotient.0 <= 0x40_0000_0000_0000_0000) by (nonlinear_arith)
        requires
            0 < w < 0x2_0000_0000,
            0 < quotient.0 <= 0x4_0000_0000 + 0x100_0000,
    {
    }
    let product = round(w * quotient.0, quotient.1);
    let whole_part = product.0 / product.1;
    if whole_part <= 0xffff_ffff {
        whole_part as u32
    } else {
        0xffff_ffff
    }
}

} // verus!

//! How steep the tangents of the average line can be.

use crate::accuracy;
use crate::binary64;
use crate::binary64::{Binary64, IMPLICIT, INFINITE, MANTISSA_END};
use crate::chart;
use crate::interpolation;
use crate::rounding;
use vstd::arithmetic::power2::*;
use vstd::prelude::*;

verus! {

/// The parts in which small excesses are counted.
pub const PARTS: u64 = 0x100_0000_0000;

/// Half of the parts.
pub const HALF: u64 = 0x80_0000_0000;

/// Whether `x` is more than `y` by at most `k` parts of `y`.
pub open spec fn about(x: int, y: int, k: int) -> bool {
    PARTS * x <= (PARTS + k) * y
}

proof fn lemma_about_chain(x: int, y: int, z: int, j: int, k: int)
    requires
        about(x, y, j),
        about(y, z, k),
        0 <= j <= 1000,
        0 <= k <= 1000,
        0 <= z,
    ensures
        about(x, z, j + k + 1),
{
    assert((PARTS + j) * (PARTS * y) <= (PARTS + j) * ((PARTS + k) * z)) by (nonlinear_arith)
        requires
            PARTS * y <= (PARTS + k) * z,
            PARTS + j >= 0,
    ;
    assert(PARTS * (PARTS * x) <= PARTS * ((PARTS + j) * y)) by (nonlinear_arith)
        requires
            PARTS * x <= (PARTS + j) * y,
            PARTS >= 0,
    ;
    assert(PARTS * ((PARTS + j) * y) == (PARTS + j) * (PARTS * y)) by (nonlinear_arith);
    assert((PARTS + j) * ((PARTS + k) * z) <= PARTS * ((PARTS + (j + k + 1)) * z)) by {
        assert((PARTS + j) * (PARTS + k) <= PARTS * (PARTS + (j + k + 1))) by (nonlinear_arith)
            requires
                0 <= j <= 1000,
                0 <= k <= 1000,
                PARTS >= 1_000_000,
        ;
        assert((PARTS + j) * ((PARTS + k) * z) == ((PARTS + j) * (PARTS + k)) * z)
            by (nonlinear_arith);
        assert(PARTS * ((PARTS + (j + k + 1)) * z) == (PARTS * (PARTS + (j + k + 1))) * z)
            by (nonlinear_arith);
        assert(((PARTS + j) * (PARTS + k)) * z <= (PARTS * (PARTS + (j + k + 1))) * z)
            by (nonlinear_arith)
            requires
                (PARTS + j) * (PARTS + k) <= PARTS * (PARTS + (j + k + 1)),
                z >= 0,
        ;
    }
    assert(PARTS * x <= (PARTS + (j + k + 1)) * z) by (nonlinear_arith)
        requires
            PARTS * (PARTS * x) <= PARTS * ((PARTS + (j + k + 1)) * z),
            PARTS > 0,
    ;
}

proof fn lemma_about_multiple(x: int, y: int, k: int, c: int)
    requires
        about(x, y, k),
        c >= 0,
    ensures
        about(x * c, y * c, k),
        about(c * x, c * y, k),
{
    assert(PARTS * (x * c) <= (PARTS + k) * (y * c)) by (nonlinear_arith)
        requires
            PARTS * x <= (PARTS + k) * y,
            c >= 0,
    ;
    assert(x * c == c * x && y * c == c * y) by (nonlinear_arith);
}

proof fn lemma_about_cancel(x: int, y: int, k: int, c: int)
    requires
        about(x * c, y * c, k),
        c > 0,
    ensures
        about(x, y, k),
{
    assert(PARTS * x <= (PARTS + k) * y) by (nonlinear_arith)
        requires
            PARTS * (x * c) <= (PARTS + k) * (y * c),
            c > 0,
    ;
}

proof fn lemma_about_root(x: int, y: int, k: int)
    requires
        about(x * x, y * y, k),
        0 <= x,
        0 <= y,
        0 <= k,
    ensures
        about(x, y, k),
{
    let (e, f) = (PARTS as int, PARTS + k);
    if e * x > f * y {
        assert((e * x) * (e * x) > (f * y) * (f * y)) by (nonlinear_arith)
            requires
                e * x > f * y,
                f * y >= 0,
        {
        }
        assert((e * x) * (e * x) == e * (e * (x * x))) by (nonlinear_arith);
        assert((f * y) * (f * y) == f * (f * (y * y))) by (nonlinear_arith);
        assert(f * (f * (y * y)) >= f * (e * (x * x))) by (nonlinear_arith)
            requires
                e * (x * x) <= f * (y * y),
                f >= 0,
        ;
        assert(f * (e * (x * x)) >= e * (e * (x * x))) by (nonlinear_arith)
            requires
                f >= e,
                e * (x * x) >= 0,
        ;
    }
}

proof fn lemma_about_more(x: int, y: int, j: int, k: int)
    requires
        about(x, y, j),
        j <= k,
        0 <= y,
    ensures
        about(x, y, k),
{
    assert((PARTS + j) * y <= (PARTS + k) * y) by (nonlinear_arith)
        requires
            j <= k,
            0 <= y,
    ;
}

proof fn lemma_about_least(x: int, y: int, k: int)
    requires
        x <= y,
        0 <= y,
        0 <= k,
    ensures
        about(x, y, k),
{
    assert(PARTS * x <= (PARTS + k) * y) by (nonlinear_arith)
        requires
            x <= y,
            0 <= y,
            0 <= k,
            PARTS >= 0,
    ;
}

/// What rounding to a number that is not tiny changes.
proof fn lemma_about_rounded(x: int, y: int, r: int)
    requires
        MANTISSA_END * accuracy::size(x - y) <= y + r,
        r <= 4000 * y,
        0 <= y,
    ensures
        about(x, y, 1),
        about(y, x, 1),
{
    let e = accuracy::size(x - y);
    assert(0x200_0000_0000 * e <= y);
    assert(about(x, y, 1));
    assert(about(y, x, 1));
}

/// Powers of two grow with their exponents.
proof fn lemma_powers(low: nat, high: nat)
    requires
        low <= high,
    ensures
        0 < pow2(low) <= pow2(high),
{
    lemma_pow2_pos(low);
    if low < high {
        lemma_pow2_strictly_increases(low, high);
    }
}

/// The number one, in smallest steps.
proof fn lemma_one()
    ensures
        binary64::one() == pow2(1074),
        binary64::one() >= 0x1000_0000_0000_0000,
{
    accuracy::lemma_one_is_large();
}

/// A number is zero if its pattern is, and only then.
proof fn lemma_zeros(number: Binary64)
    requires
        number.is_finite(),
    ensures
        number.pattern() == 0 <==> number.value() == 0,
{
    let pattern = number.pattern();
    if pattern == 0 {
        assert(number.magnitude() == 0) by (nonlinear_arith)
            requires
                number.magnitude() == 0 * pow2(binary64::scale_of(pattern)),
        ;
    } else {
        binary64::lemma_magnitude_grows(0, pattern);
    }
}

/// The gap to the next number is at most a small part of a number that is not tiny.
proof fn lemma_gap(pattern: nat)
    requires
        IMPLICIT <= pattern < INFINITE,
    ensures
        binary64::magnitude_of(pattern) < binary64::magnitude_of(pattern + 1),
        IMPLICIT * (binary64::magnitude_of(pattern + 1) - binary64::magnitude_of(pattern))
            <= binary64::magnitude_of(pattern),
{
    binary64::lemma_magnitude_grows(pattern, pattern + 1);
    let scale = binary64::scale_of(pattern);
    let unit = pow2(scale);
    lemma_pow2_pos(scale);
    lemma_pow2_unfold(scale + 1);
    let mantissa = binary64::mantissa_of(pattern);
    assert(mantissa >= IMPLICIT);
    if pattern % (IMPLICIT as nat) + 1 < IMPLICIT {
        assert((pattern + 1) % (IMPLICIT as nat) == pattern % (IMPLICIT as nat) + 1);
        assert((pattern + 1) / (IMPLICIT as nat) == pattern / (IMPLICIT as nat));
        assert(binary64::mantissa_of(pattern + 1) == mantissa + 1);
        assert(binary64::scale_of(pattern + 1) == scale);
    } else {
        assert((pattern + 1) % (IMPLICIT as nat) == 0);
        assert((pattern + 1) / (IMPLICIT as nat) == pattern / (IMPLICIT as nat) + 1);
        assert(binary64::mantissa_of(pattern + 1) == IMPLICIT);
        assert(binary64::scale_of(pattern + 1) == scale + 1);
        assert(mantissa + 1 == 2 * IMPLICIT);
        assert(IMPLICIT * (2 * unit) == (mantissa + 1) * unit) by (nonlinear_arith)
            requires
                mantissa + 1 == 2 * IMPLICIT,
        ;
    }
    assert((mantissa + 1) * unit == mantissa * unit + unit) by (nonlinear_arith);
    assert(IMPLICIT * unit <= mantissa * unit) by (nonlinear_arith)
        requires
            IMPLICIT <= mantissa,
    ;
}

/// There is a number nearest to a root.
proof fn lemma_root_exists(pattern: nat, num: nat)
    requires
        pattern < INFINITE,
        4 * num < binary64::square(
            binary64::magnitude_of(pattern) + binary64::magnitude_of(pattern + 1),
        ),
    ensures
        exists|root: nat| binary64::is_root_pattern(root, num),
    decreases pattern,
{
    if pattern == 0 || binary64::square(
        binary64::magnitude_of((pattern - 1) as nat) + binary64::magnitude_of(pattern),
    ) <= 4 * num {
        assert(binary64::is_root_pattern(pattern, num));
    } else {
        assert(pattern - 1 + 1 == pattern);
        lemma_root_exists((pattern - 1) as nat, num);
    }
}

/// The number nearest to the root of a number from one on.
proof fn lemma_root_found(s: Binary64) -> (root: nat)
    requires
        s.is_finite(),
        s.value() >= binary64::one(),
    ensures
        IMPLICIT < root < INFINITE,
        binary64::is_root_pattern(root, s.magnitude() * binary64::one()),
        binary64::root_of(s) == binary64::with_sign(false, root),
{
    lemma_one();
    let n = s.magnitude();
    let u = binary64::one();
    binary64::lemma_magnitude_grows(s.pattern(), s.pattern() + 1);
    let next = binary64::magnitude_of(s.pattern() + 1);
    assert(4 * (n * u) < (n + next) * (n + next)) by (nonlinear_arith)
        requires
            u <= n < next,
    ;
    lemma_root_exists(s.pattern(), n * u);
    let root = binary64::root_pattern(n * u);
    assert(binary64::is_root_pattern(root, n * u));
    if root <= IMPLICIT {
        binary64::lemma_edges();
        let edge = (IMPLICIT + 1) as nat;
        assert(binary64::mantissa_of(edge) == IMPLICIT + 1 && binary64::scale_of(edge) == 0);
        assert(binary64::magnitude_of(edge) == IMPLICIT + 1) by (nonlinear_arith)
            requires
                binary64::magnitude_of(edge) == (IMPLICIT + 1) * 1,
        ;
        if root + 1 < edge {
            binary64::lemma_magnitude_grows(root + 1, edge);
        }
        binary64::lemma_magnitude_grows(root, root + 1);
        let sum = binary64::magnitude_of(root) + binary64::magnitude_of(root + 1);
        assert(sum * sum <= 4 * (n * u)) by (nonlinear_arith)
            requires
                sum <= 2 * (IMPLICIT + 1),
                u >= 0x1000_0000_0000_0000,
                IMPLICIT == 0x10_0000_0000_0000,
                n >= u,
        ;
    }
    root
}

/// How far a root is from the exact one.
proof fn lemma_root_near(s: Binary64)
    requires
        s.is_finite(),
        s.value() >= binary64::one(),
    ensures
        ({
            let root = binary64::root_of(s);
            let u = binary64::one() as int;
            &&& root.is_finite()
            &&& !root.negative()
            &&& root.value() > 0
            &&& about(s.value() * u, root.value() * root.value(), 1)
            &&& about(root.value() * root.value(), s.value() * u, 1)
        }),
{
    let pattern = lemma_root_found(s);
    rounding::lemma_with_sign(false, pattern);
    let root = binary64::root_of(s);
    let before = (pattern - 1) as nat;
    lemma_gap(pattern);
    lemma_gap(before);
    assert(before + 1 == pattern);
    let r = root.value();
    assert(r == binary64::magnitude_of(pattern));
    let low = binary64::magnitude_of(before) as int;
    let high = binary64::magnitude_of(pattern + 1) as int;
    let num = s.value() * binary64::one();
    assert((low + r) * (low + r) <= 4 * num < (r + high) * (r + high)) by (nonlinear_arith)
        requires
            num == s.value() * binary64::one(),
            s.value() == s.magnitude(),
            r == binary64::magnitude_of(pattern),
            low == binary64::magnitude_of(before),
            high == binary64::magnitude_of(pattern + 1),
            binary64::square(binary64::magnitude_of(before) + binary64::magnitude_of(pattern)) <= 4
                * (s.magnitude() * binary64::one()) < binary64::square(
                binary64::magnitude_of(pattern) + binary64::magnitude_of(pattern + 1),
            ),
    ;
    lemma_root_bounds(r, low, high, num);
}

/// The square of a number, given that a root lies next to it.
proof fn lemma_root_bounds(r: int, low: int, high: int, num: int)
    requires
        0 <= low < r < high,
        IMPLICIT * (r - low) <= low,
        IMPLICIT * (high - r) <= r,
        (low + r) * (low + r) <= 4 * num < (r + high) * (r + high),
    ensures
        about(num, r * r, 1),
        about(r * r, num, 1),
{
    let square = r * r;
    let (g, h) = (high - r, r - low);
    let (rg, rh) = (r * g, r * h);
    assert((r + high) * (r + high) <= 4 * square + 5 * rg) by (nonlinear_arith)
        requires
            g == high - r,
            0 < g <= r,
            square == r * r,
            rg == r * g,
    ;
    assert(IMPLICIT * rg <= square) by (nonlinear_arith)
        requires
            IMPLICIT * g <= r,
            rg == r * g,
            square == r * r,
            r > 0,
    ;
    assert((low + r) * (low + r) >= 4 * square - 4 * rh) by (nonlinear_arith)
        requires
            h == r - low,
            square == r * r,
            rh == r * h,
    ;
    assert(IMPLICIT * rh <= square) by (nonlinear_arith)
        requires
            IMPLICIT * h <= r,
            rh == r * h,
            square == r * r,
            r > 0,
    ;
}

/// Whether a secant rises or falls, and not too much.
pub open spec fn is_slope(d: Binary64) -> bool {
    &&& d.is_finite()
    &&& d.pattern() != 0
    &&& 7 * accuracy::size(d.value()) <= 2 * accuracy::limit()
}

/// Whether a tangent is level or goes the way of a secant.
pub open spec fn goes_with(m: Binary64, d: Binary64) -> bool {
    &&& m.is_finite()
    &&& m.value() > 0 ==> d.value() > 0
    &&& m.value() < 0 ==> d.value() < 0
}

/// Whether a tangent is not so steep that its ratio to a secant reaches the infinity.
pub open spec fn is_within(m: Binary64, d: Binary64) -> bool {
    accuracy::size(m.value()) <= pow2(1023) * accuracy::size(d.value())
}

/// What the ratio of a tangent to its secant is.
pub open spec fn is_ratio(alpha: Binary64, m: Binary64, d: Binary64) -> bool {
    let u = binary64::one() as int;
    let (am, ad) = (accuracy::size(m.value()), accuracy::size(d.value()));
    &&& alpha.is_finite()
    &&& 0 <= alpha.value()
    &&& alpha.value() < u ==> am <= 2 * ad
    &&& alpha.value() >= u ==> about(am * u, alpha.value() * ad, 1)
    &&& MANTISSA_END * (alpha.value() * ad) <= (MANTISSA_END + 1) * (am * u) + IMPLICIT * ad
    &&& m.value() == 0 ==> alpha.value() == 0
    &&& m.value() != 0 ==> alpha.negative() == (m.negative() != d.negative())
}

proof fn lemma_ratio(m: Binary64, d: Binary64)
    requires
        is_slope(d),
        goes_with(m, d),
        is_within(m, d),
    ensures
        is_ratio(binary64::quotient_of(m, d), m, d),
{
    lemma_one();
    lemma_zeros(d);
    let u = binary64::one() as int;
    let (am, ad) = (accuracy::size(m.value()), accuracy::size(d.value()));
    let most = pow2(1023) as int;
    assert(am * u <= (most * u) * ad) by (nonlinear_arith)
        requires
            am <= most * ad,
            u > 0,
    ;
    lemma_pow2_adds(1023, 1074);
    lemma_powers(2097, 2097);
    accuracy::lemma_limit();
    assert((most * u) * ad <= accuracy::limit() * ad) by (nonlinear_arith)
        requires
            most * u <= accuracy::limit(),
            ad >= 0,
    ;
    accuracy::law_quotient_error(m, d);
    let alpha = binary64::quotient_of(m, d);
    let al = alpha.value();
    let exact = m.value() * u;
    if m.value() == 0 {
        assert(exact == 0) by (nonlinear_arith)
            requires
                exact == m.value() * u,
                m.value() == 0,
        ;
        assert(am * u == 0) by (nonlinear_arith)
            requires
                am == 0,
        ;
        let e = accuracy::size(al * d.value());
        assert(MANTISSA_END * e <= IMPLICIT * ad);
        assert(e == accuracy::size(al) * ad) by (nonlinear_arith)
            requires
                e == accuracy::size(al * d.value()),
                ad == accuracy::size(d.value()),
                accuracy::size(al * d.value()) == (if al * d.value() < 0 {
                    -(al * d.value())
                } else {
                    al * d.value()
                }),
                accuracy::size(d.value()) == (if d.value() < 0 {
                    -d.value()
                } else {
                    d.value()
                }),
                accuracy::size(al) == (if al < 0 {
                    -al
                } else {
                    al
                }),
        ;
        assert(accuracy::size(al) == 0) by (nonlinear_arith)
            requires
                MANTISSA_END * e <= IMPLICIT * ad,
                e == accuracy::size(al) * ad,
                accuracy::size(al) >= 0,
                ad > 0,
                MANTISSA_END == 2 * IMPLICIT,
                IMPLICIT > 0,
        ;
    } else {
        assert(al >= 0);
        assert(accuracy::size(al * d.value() - exact) == accuracy::size(al * ad - am * u))
            by (nonlinear_arith)
            requires
                d.value() > 0 ==> ad == d.value() && am == m.value(),
                d.value() < 0 ==> ad == -d.value() && am == -m.value(),
                d.value() != 0,
                exact == m.value() * u,
                accuracy::size(al * d.value() - exact) == (if al * d.value() - exact < 0 {
                    -(al * d.value() - exact)
                } else {
                    al * d.value() - exact
                }),
                accuracy::size(al * ad - am * u) == (if al * ad - am * u < 0 {
                    -(al * ad - am * u)
                } else {
                    al * ad - am * u
                }),
        ;
    }
    lemma_ratio_steps(am, ad, al, u);
}

/// What follows for a ratio from its error.
proof fn lemma_ratio_steps(am: int, ad: int, al: int, u: int)
    requires
        0 <= am,
        0 < ad,
        0 <= al,
        0x1000_0000_0000_0000 <= u,
        MANTISSA_END * accuracy::size(al * ad - am * u) <= am * u + IMPLICIT * ad,
    ensures
        al < u ==> am <= 2 * ad,
        al >= u ==> about(am * u, al * ad, 1),
        MANTISSA_END * (al * ad) <= (MANTISSA_END + 1) * (am * u) + IMPLICIT * ad,
{
    let (x, y) = (al * ad, am * u);
    let e = accuracy::size(x - y);
    assert(MANTISSA_END * x <= (MANTISSA_END + 1) * y + IMPLICIT * ad) by (nonlinear_arith)
        requires
            MANTISSA_END * e <= y + IMPLICIT * ad,
            x - y <= e,
            MANTISSA_END >= 0,
    ;
    if al < u {
        assert(y <= 2 * x + ad) by (nonlinear_arith)
            requires
                MANTISSA_END * e <= y + IMPLICIT * ad,
                y - x <= e,
                MANTISSA_END == 2 * IMPLICIT,
                IMPLICIT >= 1,
                x >= 0,
                y >= 0,
                ad > 0,
        ;
        assert(am <= 2 * ad) by (nonlinear_arith)
            requires
                am * u <= x * 2 + ad,
                x == al * ad,
                al < u,
                ad > 0,
                u > 0,
        ;
    } else {
        assert(u * ad <= x) by (nonlinear_arith)
            requires
                x == al * ad,
                al >= u,
                ad > 0,
        ;
        assert(0x1000_0000_0000_0000 * ad <= u * ad) by (nonlinear_arith)
            requires
                0x1000_0000_0000_0000 <= u,
                ad > 0,
        ;
        lemma_about_rounded(x, y, IMPLICIT * ad);
    }
}

/// The square of a ratio.
proof fn lemma_square(alpha: Binary64)
    requires
        alpha.is_finite(),
        0 <= alpha.value(),
    ensures
        ({
            let square = binary64::product_of(alpha, alpha);
            let u = binary64::one() as int;
            &&& !square.is_nan()
            &&& !square.negative()
            &&& square.is_finite() && alpha.value() >= u ==> about(
                alpha.value() * alpha.value(),
                square.value() * u,
                1,
            )
            &&& square.is_finite() && alpha.value() >= u ==> 2 * square.value() >= u
        }),
{
    lemma_one();
    let u = binary64::one() as int;
    let al = alpha.value();
    let exact = al * al;
    accuracy::law_product_error(alpha, alpha);
    let square = binary64::product_of(alpha, alpha);
    let (v, vu) = (square.value(), square.value() * u);
    if square.is_finite() && al >= u {
        assert(exact >= 0x1000_0000_0000_0000 * u) by (nonlinear_arith)
            requires
                al >= u,
                u >= 0x1000_0000_0000_0000,
                exact == al * al,
        ;
        assert(exact >= u * u) by (nonlinear_arith)
            requires
                al >= u,
                u > 0,
                exact == al * al,
        ;
        lemma_about_rounded(vu, exact, IMPLICIT * u);
        assert(exact <= 2 * vu);
        assert(2 * v >= u) by (nonlinear_arith)
            requires
                u * u <= 2 * (v * u),
                u > 0,
        ;
    }
}

/// The sum of the squares of two ratios.
pub open spec fn squares(alpha: Binary64, beta: Binary64) -> Binary64 {
    binary64::sum_of(binary64::product_of(alpha, alpha), binary64::product_of(beta, beta))
}

proof fn lemma_squares(alpha: Binary64, beta: Binary64)
    requires
        alpha.is_finite(),
        0 <= alpha.value(),
        beta.is_finite(),
        0 <= beta.value(),
    ensures
        ({
            let s = squares(alpha, beta);
            let u = binary64::one() as int;
            &&& !s.is_nan()
            &&& !s.negative()
            &&& s.is_finite() && alpha.value() >= u ==> about(
                alpha.value() * alpha.value(),
                s.value() * u,
                3,
            )
            &&& s.is_finite() && beta.value() >= u ==> about(
                beta.value() * beta.value(),
                s.value() * u,
                3,
            )
        }),
{
    lemma_one();
    let u = binary64::one() as int;
    lemma_square(alpha);
    lemma_square(beta);
    let p = binary64::product_of(alpha, alpha);
    let q = binary64::product_of(beta, beta);
    let s = squares(alpha, beta);
    if p.is_finite() && q.is_finite() {
        accuracy::law_sum_error(p, q);
        let exact = p.value() + q.value();
        rounding::lemma_with_sign(false, 0);
        rounding::lemma_with_sign(false, binary64::nearest_pattern(exact as nat, 1));
        if s.is_finite() {
            if alpha.value() >= u {
                lemma_about_rounded(s.value(), exact, IMPLICIT as int);
                lemma_about_share(alpha.value(), p.value(), q.value(), s.value(), u);
            }
            if beta.value() >= u {
                lemma_about_rounded(s.value(), exact, IMPLICIT as int);
                lemma_about_share(beta.value(), q.value(), p.value(), s.value(), u);
            }
        }
    }
}

/// A ratio's share in the sum of the squares.
proof fn lemma_about_share(al: int, p: int, q: int, s: int, u: int)
    requires
        about(al * al, p * u, 1),
        about(p + q, s, 1),
        0 <= p,
        0 <= q,
        0 <= s,
        0 < u,
    ensures
        about(al * al, s * u, 3),
{
    assert(about(p, s, 1));
    lemma_about_multiple(p, s, 1, u);
    assert(0 <= s * u) by (nonlinear_arith)
        requires
            0 <= s,
            0 < u,
    ;
    lemma_about_chain(al * al, p * u, s * u, 1, 1);
}

proof fn lemma_about_higher(x: int, y: int, z: int, k: int)
    requires
        about(x, y, k),
        y <= z,
        0 <= k,
    ensures
        about(x, z, k),
{
    assert((PARTS + k) * y <= (PARTS + k) * z) by (nonlinear_arith)
        requires
            y <= z,
            PARTS + k >= 0,
    ;
}

/// A tangent that is not held back is at most three times as steep as its secant.
proof fn lemma_kept(m: Binary64, d: Binary64, alpha: Binary64, s: Binary64)
    requires
        is_slope(d),
        is_ratio(alpha, m, d),
        alpha.value() >= binary64::one() ==> about(
            alpha.value() * alpha.value(),
            s.value() * binary64::one(),
            3,
        ),
        s.value() <= 9 * binary64::one(),
    ensures
        about(accuracy::size(m.value()), 3 * accuracy::size(d.value()), 5),
{
    lemma_one();
    let u = binary64::one() as int;
    let (am, ad) = (accuracy::size(m.value()), accuracy::size(d.value()));
    let al = alpha.value();
    if al < u {
        lemma_about_least(am, 3 * ad, 5);
    } else {
        let su = s.value() * u;
        let three = 3 * u;
        assert(su <= three * three) by (nonlinear_arith)
            requires
                s.value() <= 9 * u,
                su == s.value() * u,
                three == 3 * u,
                u > 0,
        ;
        lemma_about_higher(al * al, su, three * three, 3);
        lemma_about_root(al, three, 3);
        lemma_about_multiple(al, three, 3, ad);
        assert(0 <= three * ad) by (nonlinear_arith)
            requires
                0 <= three,
                0 <= ad,
        ;
        lemma_about_chain(am * u, al * ad, three * ad, 1, 3);
        assert(three * ad == (3 * ad) * u) by (nonlinear_arith)
            requires
                three == 3 * u,
        ;
        lemma_about_cancel(am, 3 * ad, 5, u);
    }
}

/// By what the tangents of a segment are multiplied.
pub open spec fn factor(s: Binary64) -> Binary64 {
    binary64::quotient_of(binary64::whole(false, 3), binary64::root_of(s))
}

proof fn lemma_factor(s: Binary64)
    requires
        s.is_finite(),
        9 * binary64::one() < s.value(),
    ensures
        ({
            let u = binary64::one() as int;
            let (root, tau) = (binary64::root_of(s), factor(s));
            &&& root.is_finite()
            &&& root.value() > 0
            &&& about(s.value() * u, root.value() * root.value(), 1)
            &&& about(3 * u, root.value(), 1)
            &&& tau.is_finite()
            &&& !tau.negative()
            &&& about(tau.value() * root.value(), (3 * u) * u, 1)
            &&& about(tau.value(), u, 3)
        }),
{
    lemma_one();
    let u = binary64::one() as int;
    lemma_root_near(s);
    let root = binary64::root_of(s);
    let r = root.value();
    let three = 3 * u;
    let su = s.value() * u;
    assert(three * three <= su) by (nonlinear_arith)
        requires
            9 * u <= s.value(),
            su == s.value() * u,
            three == 3 * u,
            u > 0,
    ;
    assert(about(three * three, r * r, 1));
    lemma_about_root(three, r, 1);
    assert(r >= u);
    // The root is not too large.
    let p1587 = pow2(1587) as int;
    lemma_powers(0, 1587);
    lemma_pow2_adds(1587, 1587);
    lemma_pow2_adds(2098, 1074);
    lemma_powers(3173, 3174);
    lemma_pow2_adds(1, 3172);
    lemma2_to64();
    accuracy::lemma_limit();
    accuracy::lemma_finite_numbers_are_within(s);
    assert(su <= pow2(2098) * u) by (nonlinear_arith)
        requires
            s.value() <= pow2(2098),
            su == s.value() * u,
            u > 0,
    ;
    assert(r * r <= 2 * su);
    assert(r <= p1587) by (nonlinear_arith)
        requires
            r * r <= p1587 * p1587,
            r > 0,
            p1587 > 0,
    ;
    // The quotient.
    rounding::law_whole_numbers_are_held(false, 3);
    let top = binary64::whole(false, 3);
    assert(top.value() == three);
    lemma_powers(1076, 2097);
    lemma_pow2_adds(2, 1074);
    assert(three * u <= accuracy::limit() * r) by (nonlinear_arith)
        requires
            three <= accuracy::limit(),
            0 < u <= r,
    ;
    lemma_zeros(root);
    accuracy::law_quotient_error(top, root);
    let tau = factor(s);
    let t = tau.value();
    let exact = three * u;
    lemma_pow2_adds(52, 1587);
    lemma_pow2_adds(1074, 1074);
    lemma_powers(1639, 2148);
    binary64::lemma_edges();
    assert(IMPLICIT * r <= IMPLICIT * p1587) by (nonlinear_arith)
        requires
            r <= p1587,
    ;
    assert(u * u <= exact) by (nonlinear_arith)
        requires
            exact == three * u,
            three == 3 * u,
            u > 0,
    ;
    lemma_about_rounded(t * r, exact, IMPLICIT * r);
    // The factor is at most one, or hardly more.
    lemma_about_multiple(three, r, 1, t);
    assert(0 <= exact);
    lemma_about_chain(t * three, t * r, exact, 1, 1);
    assert(exact == u * three) by (nonlinear_arith)
        requires
            exact == three * u,
    ;
    lemma_about_cancel(t, u, 3, three);
}

/// Rounding adds little to what is already about a bound.
proof fn lemma_about_up(v: int, x: int, bound: int, r: int, k: int)
    requires
        MANTISSA_END * v <= MANTISSA_END * x + x + r,
        about(x, bound, k),
        0 <= x,
        0 <= r <= bound,
        0 <= k <= 100,
    ensures
        about(v, bound, k + 2),
{
    assert(x <= 2 * bound) by (nonlinear_arith)
        requires
            PARTS * x <= (PARTS + k) * bound,
            k <= 100,
            PARTS >= 100,
            bound >= 0,
    ;
    assert((PARTS + (k + 2)) * bound == (PARTS + k) * bound + 2 * bound) by (nonlinear_arith);
    assert(MANTISSA_END * v <= MANTISSA_END * x + 3 * bound);
    assert(PARTS * v <= PARTS * x + 2 * bound);
}

/// What rounding adds to a product with a factor of about one.
proof fn lemma_step_up(w: int, t: int, al: int, u: int)
    requires
        MANTISSA_END * (w * u) <= MANTISSA_END * (t * al) + t * al + IMPLICIT * u,
        about(t, u, 3),
        0 <= t,
        0 <= al,
        0 < u,
    ensures
        PARTS * w <= (PARTS + 5) * al + PARTS,
{
    let x = t * al;
    lemma_about_multiple(t, u, 3, al);
    let ual = u * al;
    assert(0 <= ual) by (nonlinear_arith)
        requires
            0 < u,
            0 <= al,
            ual == u * al,
    ;
    assert((PARTS + 3) * ual == PARTS * ual + 3 * ual) by (nonlinear_arith);
    assert(x <= 2 * ual);
    assert(PARTS * (w * u) <= PARTS * x + 2 * ual + PARTS * u);
    assert(PARTS * (w * u) <= PARTS * ual + 5 * ual + PARTS * u);
    assert(PARTS * w <= (PARTS + 5) * al + PARTS) by (nonlinear_arith)
        requires
            PARTS * (w * u) <= PARTS * (u * al) + 5 * (u * al) + PARTS * u,
            u > 0,
    ;
}

/// A tangent that is held back does not grow by more than rounding.
proof fn lemma_no_growth(mm: int, w: int, al: int, am: int, ad: int, u: int)
    requires
        PARTS * w <= (PARTS + 5) * al + PARTS,
        MANTISSA_END * (al * ad) <= MANTISSA_END * (am * u) + am * u + IMPLICIT * ad,
        MANTISSA_END * (mm * u) <= MANTISSA_END * (w * ad) + w * ad + IMPLICIT * u,
        0 <= w,
        0 <= al,
        0 <= am,
        0 < ad,
        0 < u,
    ensures
        PARTS * (mm * u) <= (PARTS + 9) * (am * u) + 4 * (PARTS * ad) + HALF * u,
{
    let (z, y, v) = (al * ad, w * ad, am * u);
    assert(0 <= v) by (nonlinear_arith)
        requires
            0 <= am,
            0 < u,
            v == am * u,
    ;
    assert(0 <= z) by (nonlinear_arith)
        requires
            0 <= al,
            0 < ad,
            z == al * ad,
    ;
    assert(PARTS * y <= PARTS * z + 5 * z + PARTS * ad) by (nonlinear_arith)
        requires
            PARTS * w <= (PARTS + 5) * al + PARTS,
            y == w * ad,
            z == al * ad,
            ad > 0,
    ;
    assert(PARTS * z <= PARTS * v + v + PARTS * ad);
    assert(z <= 2 * v + ad);
    assert(5 * z <= 5 * v + v + 5 * ad + 5 * ad);
    assert(PARTS * y <= PARTS * v + 7 * v + 3 * (PARTS * ad));
    assert(y <= 2 * v + 3 * ad);
    assert(PARTS * (mm * u) <= PARTS * v + 9 * v + 4 * (PARTS * ad) + HALF * u);
    assert((PARTS + 9) * v == PARTS * v + 9 * v) by (nonlinear_arith);
}

/// What becomes of a tangent that is held back.
pub open spec fn held(m: Binary64, d: Binary64, s: Binary64) -> Binary64 {
    binary64::product_of(binary64::product_of(factor(s), binary64::quotient_of(m, d)), d)
}

/// The first product of a tangent that is held back.
proof fn lemma_held_ratio(m: Binary64, d: Binary64, s: Binary64)
    requires
        is_slope(d),
        goes_with(m, d),
        is_within(m, d),
        s.is_finite(),
        9 * binary64::one() < s.value(),
        ({
            let al = binary64::quotient_of(m, d).value();
            al >= binary64::one() ==> about(al * al, s.value() * binary64::one(), 3)
        }),
    ensures
        ({
            let u = binary64::one() as int;
            let alpha = binary64::quotient_of(m, d);
            let w = binary64::product_of(factor(s), alpha);
            &&& w.is_finite()
            &&& w.value() >= 0
            &&& about(w.value(), 3 * u, 9)
            &&& PARTS * w.value() <= (PARTS + 5) * alpha.value() + PARTS
            &&& m.value() == 0 ==> w.value() == 0
            &&& m.value() != 0 ==> !w.negative()
        }),
{
    lemma_one();
    lemma_ratio(m, d);
    lemma_factor(s);
    let u = binary64::one() as int;
    let alpha = binary64::quotient_of(m, d);
    let tau = factor(s);
    let (al, t, r) = (alpha.value(), tau.value(), binary64::root_of(s).value());
    // The ratio is at most the root.
    if al >= u {
        assert(0 <= r * r) by (nonlinear_arith);
        lemma_about_chain(al * al, s.value() * u, r * r, 3, 1);
        lemma_about_root(al, r, 5);
    } else {
        lemma_about_more(3 * u, r, 1, 5);
        assert(about(al, r, 5));
    }
    let three = 3 * u;
    let bound = three * u;
    let x = t * al;
    lemma_about_multiple(al, r, 5, t);
    assert(bound >= 0x1000_0000_0000_0000 * u) by (nonlinear_arith)
        requires
            bound == three * u,
            three == 3 * u,
            u >= 0x1000_0000_0000_0000,
    ;
    lemma_about_chain(x, t * r, bound, 5, 1);
    assert(0 <= x) by (nonlinear_arith)
        requires
            0 <= t,
            0 <= al,
            x == t * al,
    ;
    assert(x <= 2 * bound) by (nonlinear_arith)
        requires
            PARTS * x <= (PARTS + 7) * bound,
            PARTS >= 7,
            bound >= 0,
    ;
    lemma_pow2_adds(3, 1074);
    lemma2_to64();
    lemma_powers(1077, 2097);
    accuracy::lemma_limit();
    assert(2 * bound <= accuracy::limit() * u) by (nonlinear_arith)
        requires
            bound == three * u,
            three == 3 * u,
            8 * u <= accuracy::limit(),
            u > 0,
    ;
    accuracy::law_product_error(tau, alpha);
    let w = binary64::product_of(tau, alpha);
    if m.value() == 0 {
        lemma_zeros(alpha);
        rounding::lemma_times_zero(tau, alpha);
        lemma_zeros(w);
    }
    let e = accuracy::size(w.value() * u - x);
    assert(MANTISSA_END * (w.value() * u) <= MANTISSA_END * x + x + IMPLICIT * u)
        by (nonlinear_arith)
        requires
            MANTISSA_END * e <= x + IMPLICIT * u,
            w.value() * u - x <= e,
            MANTISSA_END >= 0,
    ;
    lemma_about_up(w.value() * u, x, bound, IMPLICIT * u, 7);
    lemma_about_cancel(w.value(), three, 9, u);
    lemma_step_up(w.value(), t, al, u);
}

/// A rounded half step is lost where it is less than a whole one, or is a small part.
proof fn lemma_whole_steps(v: int, bound: int, k: int)
    requires
        PARTS * v <= (PARTS + k) * bound + HALF,
        0 <= bound,
        0 <= k,
    ensures
        about(v, bound, 2 * k),
{
    assert((PARTS + k) * bound == PARTS * bound + k * bound) by (nonlinear_arith);
    assert((PARTS + 2 * k) * bound == PARTS * bound + 2 * (k * bound)) by (nonlinear_arith);
    assert(k * bound >= 0) by (nonlinear_arith)
        requires
            0 <= bound,
            0 <= k,
    ;
    if v > bound {
        assert(HALF <= k * bound);
    }
}

/// Holding a tangent back keeps its way, makes it at most three times as steep as its secant, and
/// never makes it steeper but for rounding.
proof fn lemma_held(m: Binary64, d: Binary64, s: Binary64)
    requires
        is_slope(d),
        goes_with(m, d),
        is_within(m, d),
        s.is_finite(),
        9 * binary64::one() < s.value(),
        ({
            let al = binary64::quotient_of(m, d).value();
            al >= binary64::one() ==> about(al * al, s.value() * binary64::one(), 3)
        }),
    ensures
        ({
            let new = held(m, d, s);
            let (am, ad) = (accuracy::size(m.value()), accuracy::size(d.value()));
            &&& goes_with(new, d)
            &&& m.value() == 0 ==> new.value() == 0
            &&& m.value() > 0 ==> new.value() >= 0
            &&& m.value() < 0 ==> new.value() <= 0
            &&& about(accuracy::size(new.value()), 3 * ad, 22)
            &&& PARTS * (accuracy::size(new.value()) * binary64::one()) <= (PARTS + 9) * (am
                * binary64::one()) + 4 * (PARTS * ad) + HALF * binary64::one()
        }),
{
    lemma_one();
    lemma_ratio(m, d);
    lemma_held_ratio(m, d, s);
    let u = binary64::one() as int;
    let alpha = binary64::quotient_of(m, d);
    let product = binary64::product_of(factor(s), alpha);
    let w = product.value();
    let (am, ad) = (accuracy::size(m.value()), accuracy::size(d.value()));
    let exact = w * d.value();
    let y = w * ad;
    assert(accuracy::size(exact) == y) by (nonlinear_arith)
        requires
            w >= 0,
            exact == w * d.value(),
            y == w * ad,
            ad == (if d.value() < 0 {
                -d.value()
            } else {
                d.value()
            }),
            accuracy::size(exact) == (if exact < 0 {
                -exact
            } else {
                exact
            }),
    ;
    let three = 3 * u;
    let bound = three * ad;
    lemma_about_multiple(w, three, 9, ad);
    assert(0 <= y) by (nonlinear_arith)
        requires
            0 <= w,
            0 <= ad,
            y == w * ad,
    ;
    assert(0 <= bound == (3 * ad) * u) by (nonlinear_arith)
        requires
            0 <= ad,
            0 <= u,
            three == 3 * u,
            bound == three * ad,
    ;
    assert((PARTS + 9) * bound == PARTS * bound + 9 * bound) by (nonlinear_arith);
    assert(100 * y <= 101 * bound);
    assert(7 * bound <= 6 * (accuracy::limit() * u)) by (nonlinear_arith)
        requires
            bound == (3 * ad) * u,
            7 * ad <= 2 * accuracy::limit(),
            u > 0,
            ad >= 0,
    ;
    accuracy::law_product_error(product, d);
    let new = held(m, d, s);
    let v = accuracy::size(new.value());
    let e = accuracy::size(new.value() * u - exact);
    if m.value() == 0 {
        lemma_zeros(product);
        rounding::law_zero_times(product, d);
        lemma_zeros(new);
    } else {
        assert(new.negative() == d.negative());
    }
    assert(v * u - y <= e) by (nonlinear_arith)
        requires
            d.value() >= 0 ==> new.value() >= 0 && v == new.value() && ad == d.value(),
            d.value() < 0 ==> new.value() <= 0 && v == -new.value() && ad == -d.value(),
            y == w * ad,
            exact == w * d.value(),
            e == (if new.value() * u - exact < 0 {
                -(new.value() * u - exact)
            } else {
                new.value() * u - exact
            }),
    ;
    assert(MANTISSA_END * (v * u) <= MANTISSA_END * y + y + IMPLICIT * u) by (nonlinear_arith)
        requires
            MANTISSA_END * e <= y + IMPLICIT * u,
            v * u - y <= e,
            MANTISSA_END >= 0,
    ;
    let b = 3 * ad;
    assert(PARTS * v <= (PARTS + 11) * b + HALF) by {
        let bu = b * u;
        assert((PARTS + 9) * bu == PARTS * bu + 9 * bu) by (nonlinear_arith);
        assert(PARTS * (v * u) <= PARTS * bu + 11 * bu + HALF * u);
        assert(PARTS * v <= (PARTS + 11) * b + HALF) by (nonlinear_arith)
            requires
                PARTS * (v * u) <= PARTS * (b * u) + 11 * (b * u) + HALF * u,
                u > 0,
        ;
    }
    lemma_whole_steps(v, b, 11);
    assert((MANTISSA_END + 1) * (am * u) == MANTISSA_END * (am * u) + am * u) by (nonlinear_arith);
    lemma_zeros(d);
    lemma_no_growth(v, w, alpha.value(), am, ad, u);
}

/// Whether a tangent goes the way of an earlier one, and is hardly steeper.
pub open spec fn follows(new: Binary64, m: Binary64, d: Binary64) -> bool {
    let u = binary64::one() as int;
    &&& new.is_finite()
    &&& m.value() == 0 ==> new.value() == 0
    &&& m.value() > 0 ==> new.value() >= 0
    &&& m.value() < 0 ==> new.value() <= 0
    &&& PARTS * (accuracy::size(new.value()) * u) <= (PARTS + 9) * (accuracy::size(m.value()) * u)
        + 4 * (PARTS * accuracy::size(d.value())) + HALF * u
}

/// Whether secants are level, or rise or fall, and not too much.
pub open spec fn are_slopes(d: Seq<Binary64>) -> bool {
    forall|i: int| 0 <= i < d.len() ==> (#[trigger] d[i]).pattern() == 0 || is_slope(d[i])
}

/// Whether neither of two secants that are not level is too steep for the other.
pub open spec fn are_near(a: Binary64, b: Binary64) -> bool {
    a.pattern() != 0 && b.pattern() != 0 ==> {
        &&& accuracy::size(a.value()) <= pow2(1021) * accuracy::size(b.value())
        &&& accuracy::size(b.value()) <= pow2(1021) * accuracy::size(a.value())
    }
}

/// Whether no secant is too steep for the next one.
pub open spec fn are_all_near(d: Seq<Binary64>) -> bool {
    forall|i: int| 0 <= i < d.len() - 1 ==> #[trigger] are_near(d[i], d[i + 1])
}

/// Where the squares reach the infinity, the tangents become level.
proof fn lemma_levelled(m: Binary64, d: Binary64, s: Binary64)
    requires
        s.is_infinite(),
        !s.negative(),
        d.is_finite(),
        binary64::quotient_of(m, d).is_finite(),
    ensures
        held(m, d, s).is_finite(),
        held(m, d, s).value() == 0,
{
    rounding::law_whole_numbers_are_held(false, 3);
    let tau = factor(s);
    rounding::lemma_with_sign(false, 0);
    assert(binary64::root_of(s) == s);
    assert(tau.pattern() == 0);
    let alpha = binary64::quotient_of(m, d);
    rounding::law_zero_times(tau, alpha);
    rounding::law_zero_times(binary64::product_of(tau, alpha), d);
    lemma_zeros(held(m, d, s));
}

/// Holding back the tangents of one segment.
proof fn lemma_segment(d: Seq<Binary64>, m: Seq<Binary64>, i: int)
    requires
        m.len() == d.len() + 1,
        0 <= i < d.len(),
        d[i].pattern() == 0 || is_slope(d[i]),
        m[i].is_finite(),
        m[i + 1].is_finite(),
        d[i].pattern() != 0 ==> goes_with(m[i], d[i]) && goes_with(m[i + 1], d[i]),
        d[i].pattern() != 0 ==> is_within(m[i], d[i]) && is_within(m[i + 1], d[i]),
    ensures
        ({
            let new = interpolation::held_back(d, m, i);
            &&& new.len() == m.len()
            &&& forall|j: int|
                0 <= j < m.len() && j != i && j != i + 1 ==> #[trigger] new[j] == m[j]
            &&& follows(new[i], m[i], d[i])
            &&& follows(new[i + 1], m[i + 1], d[i])
            &&& about(accuracy::size(new[i].value()), 3 * accuracy::size(d[i].value()), 22)
            &&& about(accuracy::size(new[i + 1].value()), 3 * accuracy::size(d[i].value()), 22)
        }),
{
    let new = interpolation::held_back(d, m, i);
    lemma_one();
    let u = binary64::one() as int;
    let (a, b) = (accuracy::size(m[i].value()), accuracy::size(m[i + 1].value()));
    assert((PARTS + 9) * (a * u) >= PARTS * (a * u) >= 0 && (PARTS + 9) * (b * u) >= PARTS * (b * u)
        >= 0) by (nonlinear_arith)
        requires
            a >= 0,
            b >= 0,
            u > 0,
            PARTS > 0,
    ;
    assert(0 * u == 0) by (nonlinear_arith);
    let zero = chart::zero();
    lemma_zeros(zero);
    lemma_about_least(0, 3 * accuracy::size(d[i].value()), 22);
    if d[i].pattern() == 0 {
        lemma_zeros(d[i]);
        assert(new[i] == zero && new[i + 1] == zero);
    } else {
        lemma_ratio(m[i], d[i]);
        lemma_ratio(m[i + 1], d[i]);
        let alpha = binary64::quotient_of(m[i], d[i]);
        let beta = binary64::quotient_of(m[i + 1], d[i]);
        lemma_squares(alpha, beta);
        let s = squares(alpha, beta);
        rounding::law_whole_numbers_are_held(false, 9);
        let nine = binary64::whole(false, 9);
        if s.is_infinite() {
            binary64::lemma_magnitude_grows(nine.pattern(), INFINITE as nat);
            assert(binary64::below(nine, s));
            lemma_levelled(m[i], d[i], s);
            lemma_levelled(m[i + 1], d[i], s);
            assert(new[i] == held(m[i], d[i], s));
            assert(new[i + 1] == held(m[i + 1], d[i], s));
        } else if binary64::below(nine, s) {
            lemma_held(m[i], d[i], s);
            lemma_held(m[i + 1], d[i], s);
            assert(new[i] == held(m[i], d[i], s));
            assert(new[i + 1] == held(m[i + 1], d[i], s));
        } else {
            lemma_kept(m[i], d[i], alpha, s);
            lemma_kept(m[i + 1], d[i], beta, s);
            lemma_about_more(a, 3 * accuracy::size(d[i].value()), 5, 22);
            lemma_about_more(b, 3 * accuracy::size(d[i].value()), 5, 22);
        }
    }
}

/// Whether the tangents at both ends of a segment are level or go the way of its secant.
pub open spec fn both_go_with(d: Seq<Binary64>, m: Seq<Binary64>, i: int) -> bool {
    d[i].pattern() != 0 ==> goes_with(m[i], d[i]) && goes_with(m[i + 1], d[i])
}

/// Whether the tangents at both ends of a segment are at most three times as steep as its secant,
/// but for a few parts.
pub open spec fn both_are_held(d: Seq<Binary64>, m: Seq<Binary64>, i: int) -> bool {
    &&& about(accuracy::size(m[i].value()), 3 * accuracy::size(d[i].value()), 66)
    &&& about(accuracy::size(m[i + 1].value()), 3 * accuracy::size(d[i].value()), 66)
}

/// What the tangents are like when the first `count` segments have been held back.
pub open spec fn are_held(d: Seq<Binary64>, m: Seq<Binary64>, count: int) -> bool {
    &&& m.len() == d.len() + 1
    &&& forall|j: int| 0 <= j < m.len() ==> (#[trigger] m[j]).is_finite()
    &&& forall|i: int| 0 <= i < d.len() ==> #[trigger] both_go_with(d, m, i)
    &&& forall|i: int| 0 <= i < count ==> #[trigger] both_are_held(d, m, i)
    &&& 0 < count ==> about(
        accuracy::size(m[count].value()),
        3 * accuracy::size(d[count - 1].value()),
        22,
    )
    &&& count == 0 ==> m[0] == interpolation::first_tangent(d, 0)
    &&& forall|j: int|
        count < j < m.len() ==> #[trigger] m[j] == interpolation::first_tangent(d, j)
}

/// A tangent that follows another one is hardly steeper, as seen from the segment before it.
proof fn lemma_follower(new: Binary64, m: Binary64, before: Binary64, d: Binary64)
    requires
        follows(new, m, d),
        before.pattern() == 0 || is_slope(before),
        d.pattern() == 0 || is_slope(d),
        are_near(before, d),
        about(accuracy::size(m.value()), 3 * accuracy::size(before.value()), 22),
    ensures
        about(accuracy::size(new.value()), 3 * accuracy::size(before.value()), 66),
{
    let (v, am) = (accuracy::size(new.value()), accuracy::size(m.value()));
    let (ad, ap) = (accuracy::size(d.value()), accuracy::size(before.value()));
    let bound = 3 * ap;
    lemma_zeros(before);
    lemma_zeros(d);
    if before.pattern() == 0 {
        assert(am <= 0) by (nonlinear_arith)
            requires
                PARTS * am <= (PARTS + 22) * bound,
                bound == 0,
                PARTS > 0,
        ;
        lemma_about_least(v, bound, 66);
    } else {
        lemma_one();
        let u = binary64::one() as int;
        lemma_pow2_adds(42, 1021);
        lemma_powers(1063, 1074);
        lemma2_to64_rest();
        assert(4 * (PARTS * ad) <= u * ap) by {
            let p = pow2(1021) as int;
            if d.pattern() == 0 {
                assert(u * ap >= 0) by (nonlinear_arith)
                    requires
                        u > 0,
                        ap >= 0,
                ;
            } else {
                assert(4 * (PARTS * ad) <= (0x400_0000_0000 * p) * ap) by (nonlinear_arith)
                    requires
                        ad <= p * ap,
                        PARTS == 0x100_0000_0000,
                ;
                assert((0x400_0000_0000 * p) * ap <= u * ap) by (nonlinear_arith)
                    requires
                        0x400_0000_0000 * p <= u,
                        ap >= 0,
                ;
            }
        }
        assert(PARTS * v <= (PARTS + 9) * am + bound + HALF) by (nonlinear_arith)
            requires
                PARTS * (v * u) <= (PARTS + 9) * (am * u) + u * ap + HALF * u,
                bound == 3 * ap,
                ap >= 0,
                u > 0,
        ;
        assert((PARTS + 9) * am <= (PARTS + 32) * bound) by {
            assert((PARTS + 9) * (PARTS * am) <= (PARTS + 9) * ((PARTS + 22) * bound))
                by (nonlinear_arith)
                requires
                    PARTS * am <= (PARTS + 22) * bound,
            ;
            assert((PARTS + 9) * am <= (PARTS + 32) * bound) by (nonlinear_arith)
                requires
                    (PARTS + 9) * (PARTS * am) <= (PARTS + 9) * ((PARTS + 22) * bound),
                    bound >= 0,
                    PARTS >= 1000,
            ;
        }
        assert((PARTS + 33) * bound == (PARTS + 32) * bound + bound) by (nonlinear_arith);
        lemma_whole_steps(v, bound, 33);
    }
}

/// The tangents at the ends of the next segment are not too steep for it.
proof fn lemma_next_within(d: Seq<Binary64>, m: Seq<Binary64>, i: int)
    requires
        0 <= i < d.len(),
        are_slopes(d),
        are_all_near(d),
        are_held(d, m, i),
        d[i].pattern() != 0,
    ensures
        is_within(m[i], d[i]),
        is_within(m[i + 1], d[i]),
{
    lemma_first_tangent(d, i + 1);
    assert(m[i + 1] == interpolation::first_tangent(d, i + 1));
    if i == 0 {
        lemma_first_tangent(d, 0);
    } else {
        let before = d[i - 1];
        assert(are_near(d[i - 1], d[i - 1 + 1]));
        assert(before.pattern() == 0 || is_slope(before));
        lemma_zeros(before);
        lemma_zeros(d[i]);
        let (am, ap, ad) = (
            accuracy::size(m[i].value()),
            accuracy::size(before.value()),
            accuracy::size(d[i].value()),
        );
        assert(am <= 4 * ap) by (nonlinear_arith)
            requires
                PARTS * am <= (PARTS + 22) * (3 * ap),
                PARTS >= 100,
                ap >= 0,
        ;
        lemma_pow2_adds(2, 1021);
        lemma2_to64();
        let p = pow2(1021) as int;
        assert((4 * p) * ad == 4 * (p * ad)) by (nonlinear_arith);
        if before.pattern() == 0 {
            assert(p * ad >= 0) by (nonlinear_arith)
                requires
                    p >= 0,
                    ad >= 0,
            ;
        }
    }
}

proof fn lemma_hold_back(d: Seq<Binary64>, m: Seq<Binary64>, i: int)
    requires
        0 <= i < d.len(),
        are_slopes(d),
        are_all_near(d),
        are_held(d, m, i),
    ensures
        are_held(d, interpolation::held_back(d, m, i), i + 1),
{
    assert(both_go_with(d, m, i));
    if d[i].pattern() != 0 {
        lemma_next_within(d, m, i);
    }
    assert(d[i].pattern() == 0 || is_slope(d[i]));
    lemma_segment(d, m, i);
    let new = interpolation::held_back(d, m, i);
    assert forall|j: int| 0 <= j < new.len() implies (#[trigger] new[j]).is_finite() by {
        if j != i && j != i + 1 {
            assert(new[j] == m[j]);
        }
    }
    assert forall|j: int| i + 1 < j < new.len() implies #[trigger] new[j]
        == interpolation::first_tangent(d, j) by {
        assert(new[j] == m[j]);
    }
    assert forall|k: int| 0 <= k < d.len() implies #[trigger] both_go_with(d, new, k) by {
        assert(both_go_with(d, m, k));
        if k != i && k != i + 1 {
            assert(new[k] == m[k]);
        }
        if k + 1 != i && k + 1 != i + 1 {
            assert(new[k + 1] == m[k + 1]);
        }
    }
    let level = 3 * accuracy::size(d[i].value());
    lemma_about_more(accuracy::size(new[i].value()), level, 22, 66);
    lemma_about_more(accuracy::size(new[i + 1].value()), level, 22, 66);
    assert forall|k: int| 0 <= k < i + 1 implies #[trigger] both_are_held(d, new, k) by {
        if k < i {
            assert(both_are_held(d, m, k));
            assert(new[k] == m[k]);
            if k == i - 1 {
                assert(are_near(d[k], d[k + 1]));
                assert(d[k].pattern() == 0 || is_slope(d[k]));
                lemma_follower(new[i], m[i], d[k], d[i]);
            } else {
                assert(new[k + 1] == m[k + 1]);
            }
        }
    }
}

proof fn lemma_hold_back_upto(d: Seq<Binary64>, m: Seq<Binary64>, count: nat)
    requires
        count <= d.len(),
        are_slopes(d),
        are_all_near(d),
        are_held(d, m, 0),
    ensures
        are_held(d, interpolation::held_back_upto(d, m, count), count as int),
    decreases count,
{
    if count > 0 {
        lemma_hold_back_upto(d, m, (count - 1) as nat);
        lemma_hold_back(
            d,
            interpolation::held_back_upto(d, m, (count - 1) as nat),
            count - 1,
        );
    }
}

/// Whether values are of a size at which neither their differences nor the ratios of those reach the
/// infinity: none beyond an eighth of the largest number, and of two rises or falls that follow
/// each other neither 2 to the power of 1020 times as large as the other.
pub open spec fn are_ordinary(ys: Seq<Binary64>) -> bool {
    &&& forall|j: int|
        0 <= j < ys.len() ==> (#[trigger] ys[j]).is_finite() && 8 * accuracy::size(ys[j].value())
            <= accuracy::limit()
    &&& forall|i: int|
        0 <= i < ys.len() - 2 ==> #[trigger] are_comparable(
            ys[i + 1].value() - ys[i].value(),
            ys[i + 2].value() - ys[i + 1].value(),
        )
}

/// Whether one of two rises or falls is level, or neither is 2 to the power of 1020 times as large
/// as the other.
pub open spec fn are_comparable(a: int, b: int) -> bool {
    a != 0 && b != 0 ==> {
        &&& accuracy::size(a) <= pow2(1020) * accuracy::size(b)
        &&& accuracy::size(b) <= pow2(1020) * accuracy::size(a)
    }
}

/// The difference between two values.
proof fn lemma_secant(a: Binary64, b: Binary64)
    requires
        a.is_finite() && 8 * accuracy::size(a.value()) <= accuracy::limit(),
        b.is_finite() && 8 * accuracy::size(b.value()) <= accuracy::limit(),
    ensures
        ({
            let d = binary64::difference_of(b, a);
            let exact = b.value() - a.value();
            &&& exact == 0 ==> d.pattern() == 0
            &&& exact != 0 ==> is_slope(d)
            &&& exact > 0 ==> d.value() > 0
            &&& exact < 0 ==> d.value() < 0
            &&& about(accuracy::size(d.value()), accuracy::size(exact), 1)
            &&& about(accuracy::size(exact), accuracy::size(d.value()), 1)
        }),
{
    rounding::lemma_negated(a);
    let c = binary64::negated(a);
    let exact = b.value() - a.value();
    let d = binary64::difference_of(b, a);
    accuracy::law_sum_error(b, c);
    if exact == 0 {
        rounding::lemma_with_sign(b.negative() && c.negative(), 0);
        lemma_zeros(d);
        lemma_about_least(0, 0, 1);
    } else {
        let (x, y) = (accuracy::size(d.value()), accuracy::size(exact));
        let e = accuracy::size(d.value() - exact);
        assert(MANTISSA_END * e <= y + IMPLICIT);
        assert(4 * e <= y);
        assert(accuracy::size(x - y) == e);
        if e == 0 {
            lemma_about_least(x, y, 1);
        } else {
            lemma_about_rounded(x, y, IMPLICIT as int);
        }
        lemma_zeros(d);
    }
}

/// Comparable rises or falls are rounded to secants that are near.
proof fn lemma_near(r: int, q: int, a: Binary64, b: Binary64)
    requires
        are_comparable(r, q),
        r == 0 ==> a.pattern() == 0,
        q == 0 ==> b.pattern() == 0,
        about(accuracy::size(a.value()), accuracy::size(r), 1),
        about(accuracy::size(r), accuracy::size(a.value()), 1),
        about(accuracy::size(b.value()), accuracy::size(q), 1),
        about(accuracy::size(q), accuracy::size(b.value()), 1),
    ensures
        are_near(a, b),
{
    if r != 0 && q != 0 {
        lemma_pow2_adds(1, 1020);
        lemma2_to64();
        lemma_powers(0, 1020);
        lemma_near_steps(
            accuracy::size(r),
            accuracy::size(q),
            accuracy::size(a.value()),
            accuracy::size(b.value()),
            pow2(1020) as int,
        );
        lemma_near_steps(
            accuracy::size(q),
            accuracy::size(r),
            accuracy::size(b.value()),
            accuracy::size(a.value()),
            pow2(1020) as int,
        );
    }
}

proof fn lemma_near_steps(r: int, q: int, a: int, b: int, p: int)
    requires
        0 <= r <= p * q,
        0 <= q,
        0 <= a,
        0 <= b,
        0 < p,
        about(a, r, 1),
        about(q, b, 1),
    ensures
        a <= (2 * p) * b,
{
    lemma_about_least(r, p * q, 0);
    lemma_about_multiple(q, b, 1, p);
    assert(0 <= p * b && 0 <= p * q) by (nonlinear_arith)
        requires
            0 < p,
            0 <= b,
            0 <= q,
    ;
    lemma_about_chain(r, p * q, p * b, 0, 1);
    lemma_about_chain(a, r, p * b, 1, 2);
    assert(a <= (2 * p) * b) by (nonlinear_arith)
        requires
            PARTS * a <= (PARTS + 4) * (p * b),
            0 <= p * b,
            PARTS >= 4,
    ;
}

proof fn lemma_secants(ys: Seq<Binary64>)
    requires
        ys.len() >= 2,
        are_ordinary(ys),
    ensures
        are_slopes(interpolation::secants(ys)),
        are_all_near(interpolation::secants(ys)),
{
    let d = interpolation::secants(ys);
    assert forall|i: int| 0 <= i < d.len() implies (#[trigger] d[i]).pattern() == 0 || is_slope(
        d[i],
    ) by {
        lemma_secant(ys[i], ys[i + 1]);
    }
    assert forall|i: int| 0 <= i < d.len() - 1 implies #[trigger] are_near(d[i], d[i + 1]) by {
        lemma_secant(ys[i], ys[i + 1]);
        lemma_secant(ys[i + 1], ys[i + 2]);
        let r = ys[i + 1].value() - ys[i].value();
        let q = ys[i + 2].value() - ys[i + 1].value();
        assert(are_comparable(r, q));
        lemma_near(r, q, d[i], d[i + 1]);
    }
}

/// A tangent between two secants of the same way.
proof fn lemma_middle(a: Binary64, b: Binary64)
    requires
        is_slope(a),
        is_slope(b),
        are_near(a, b),
        a.value() > 0 <==> b.value() > 0,
    ensures
        ({
            let m = binary64::quotient_of(binary64::sum_of(a, b), binary64::whole(false, 2));
            &&& goes_with(m, a) && goes_with(m, b)
            &&& is_within(m, a) && is_within(m, b)
        }),
{
    lemma_one();
    lemma_zeros(a);
    lemma_zeros(b);
    let u = binary64::one() as int;
    let exact = a.value() + b.value();
    accuracy::law_sum_error(a, b);
    let sum = binary64::sum_of(a, b);
    let e = accuracy::size(sum.value() - exact);
    assert(MANTISSA_END * e <= accuracy::size(exact) + IMPLICIT);
    assert(4 * e <= accuracy::size(exact));
    rounding::law_whole_numbers_are_held(false, 2);
    let two = binary64::whole(false, 2);
    lemma_zeros(two);
    let v = accuracy::size(sum.value());
    assert(2 * v <= 3 * accuracy::size(exact));
    assert(v * u <= accuracy::limit() * (2 * u)) by (nonlinear_arith)
        requires
            v <= 2 * accuracy::limit(),
            u > 0,
    ;
    accuracy::law_quotient_error(sum, two);
    let m = binary64::quotient_of(sum, two);
    let q = accuracy::size(m.value());
    let error = accuracy::size(m.value() * (2 * u) - sum.value() * u);
    assert(q * (2 * u) <= v * u + error) by (nonlinear_arith)
        requires
            q == accuracy::size(m.value()),
            v == accuracy::size(sum.value()),
            error == accuracy::size(m.value() * (2 * u) - sum.value() * u),
            accuracy::size(m.value()) == (if m.value() < 0 {
                -m.value()
            } else {
                m.value()
            }),
            accuracy::size(sum.value()) == (if sum.value() < 0 {
                -sum.value()
            } else {
                sum.value()
            }),
            accuracy::size(m.value() * (2 * u) - sum.value() * u) == (if m.value() * (2 * u)
                - sum.value() * u < 0 {
                -(m.value() * (2 * u) - sum.value() * u)
            } else {
                m.value() * (2 * u) - sum.value() * u
            }),
            u > 0,
    ;
    assert(q <= v + 1) by (nonlinear_arith)
        requires
            q * (2 * u) <= v * u + error,
            MANTISSA_END * error <= v * u + IMPLICIT * (2 * u),
            MANTISSA_END == 2 * IMPLICIT,
            IMPLICIT >= 1,
            v >= 0,
            u > 0,
    ;
    lemma_middle_within(q, accuracy::size(a.value()), accuracy::size(b.value()));
    lemma_middle_within(q, accuracy::size(b.value()), accuracy::size(a.value()));
}

/// The mean of two near secants is not too steep for either.
proof fn lemma_middle_within(q: int, a: int, b: int)
    requires
        0 < a,
        0 < b <= pow2(1021) * a,
        2 * q <= 3 * (a + b) + 2,
    ensures
        q <= pow2(1023) * a,
{
    lemma_pow2_adds(2, 1021);
    lemma_powers(2, 1021);
    lemma2_to64();
    let p = pow2(1021) as int;
    assert((4 * p) * a == 4 * (p * a)) by (nonlinear_arith);
    assert(4 * a <= p * a) by (nonlinear_arith)
        requires
            4 <= p,
            0 < a,
    ;
}

/// A first tangent goes the way of the secants on both sides of it.
proof fn lemma_first_tangent(d: Seq<Binary64>, i: int)
    requires
        d.len() >= 1,
        are_slopes(d),
        are_all_near(d),
        0 <= i <= d.len(),
    ensures
        ({
            let m = interpolation::first_tangent(d, i);
            &&& m.is_finite()
            &&& 0 < i && d[i - 1].pattern() != 0 ==> goes_with(m, d[i - 1]) && is_within(m, d[i - 1])
            &&& i < d.len() && d[i].pattern() != 0 ==> goes_with(m, d[i]) && is_within(m, d[i])
        }),
{
    lemma_zeros(chart::zero());
    lemma_powers(0, 1023);
    lemma2_to64();
    if i == 0 {
        assert(d[0].is_finite());
        lemma_times_at_least(accuracy::size(d[0].value()), pow2(1023) as int);
    } else if i == d.len() {
        let last = d[d.len() - 1];
        assert(last.is_finite());
        lemma_times_at_least(accuracy::size(last.value()), pow2(1023) as int);
    } else {
        let (a, b) = (d[i - 1], d[i]);
        assert(a.is_finite() && b.is_finite());
        assert(are_near(d[i - 1], d[i - 1 + 1]));
        lemma_secants_product(a, b);
        lemma_times_at_least(accuracy::size(a.value()), pow2(1023) as int);
        lemma_times_at_least(accuracy::size(b.value()), pow2(1023) as int);
        if !binary64::at_most(binary64::product_of(a, b), chart::zero()) {
            lemma_middle(a, b);
        }
    }
}

proof fn lemma_times_at_least(x: int, times: int)
    by (nonlinear_arith)
    requires
        0 <= x,
        1 <= times,
    ensures
        0 <= x <= times * x,
{
}

/// The product of two secants is positive only if they go the same way.
proof fn lemma_secants_product(a: Binary64, b: Binary64)
    requires
        a.pattern() == 0 || is_slope(a),
        b.pattern() == 0 || is_slope(b),
    ensures
        !binary64::at_most(binary64::product_of(a, b), chart::zero()) ==> is_slope(a) && is_slope(b)
            && (a.value() > 0 <==> b.value() > 0),
{
    lemma_zeros(chart::zero());
    lemma_zeros(a);
    lemma_zeros(b);
    accuracy::law_product_error(a, b);
    let product = binary64::product_of(a, b);
    if a.pattern() == 0 {
        rounding::law_zero_times(a, b);
        lemma_zeros(product);
    } else if b.pattern() == 0 {
        rounding::lemma_times_zero(a, b);
        lemma_zeros(product);
    }
}

proof fn lemma_first_tangents(d: Seq<Binary64>)
    requires
        d.len() >= 1,
        are_slopes(d),
        are_all_near(d),
    ensures
        are_held(d, interpolation::first_tangents(d), 0),
{
    let m = interpolation::first_tangents(d);
    assert forall|j: int| 0 <= j < m.len() implies (#[trigger] m[j]).is_finite() by {
        lemma_first_tangent(d, j);
    }
    assert forall|i: int| 0 <= i < d.len() implies #[trigger] both_go_with(d, m, i) by {
        lemma_first_tangent(d, i);
        lemma_first_tangent(d, i + 1);
    }
}

/// Whether a tangent is level or goes the way of a rise or fall, and is at most three times as
/// steep, but for rounding.
pub open spec fn is_held(m: Binary64, rise: int) -> bool {
    &&& m.is_finite()
    &&& m.value() > 0 ==> rise > 0
    &&& m.value() < 0 ==> rise < 0
    &&& 0x100_0000 * accuracy::size(m.value()) <= 0x300_0001 * accuracy::size(rise)
}

/// The tangents at both ends of a segment are level or go the way of the segment, and are at most
/// three times as steep, but for rounding.
pub proof fn law_tangents_are_held_back(ys: Seq<Binary64>, i: int)
    requires
        are_ordinary(ys),
        0 <= i < ys.len() - 1,
    ensures
        is_held(interpolation::tangents_of(ys)[i], ys[i + 1].value() - ys[i].value()),
        is_held(interpolation::tangents_of(ys)[i + 1], ys[i + 1].value() - ys[i].value()),
{
    let d = interpolation::secants(ys);
    lemma_secants(ys);
    lemma_first_tangents(d);
    lemma_hold_back_upto(d, interpolation::first_tangents(d), d.len());
    let m = interpolation::tangents_of(ys);
    lemma_secant(ys[i], ys[i + 1]);
    assert(both_go_with(d, m, i));
    assert(both_are_held(d, m, i));
    lemma_held_by_rise(m[i], d[i], ys[i + 1].value() - ys[i].value());
    lemma_held_by_rise(m[i + 1], d[i], ys[i + 1].value() - ys[i].value());
}

/// What is held by the secant is held by the rise or fall that the secant is rounded from.
proof fn lemma_held_by_rise(m: Binary64, d: Binary64, rise: int)
    requires
        m.is_finite(),
        rise == 0 ==> d.pattern() == 0,
        rise != 0 ==> is_slope(d),
        rise > 0 ==> d.value() > 0,
        rise < 0 ==> d.value() < 0,
        d.pattern() != 0 ==> goes_with(m, d),
        about(accuracy::size(d.value()), accuracy::size(rise), 1),
        about(accuracy::size(m.value()), 3 * accuracy::size(d.value()), 66),
    ensures
        is_held(m, rise),
{
    let (am, ad, ar) = (
        accuracy::size(m.value()),
        accuracy::size(d.value()),
        accuracy::size(rise),
    );
    lemma_about_multiple(ad, ar, 1, 3);
    lemma_about_chain(am, 3 * ad, 3 * ar, 66, 1);
    assert((PARTS + 68) * (3 * ar) == PARTS * (3 * ar) + 204 * ar) by (nonlinear_arith);
    assert(0x100_0000 * am <= 0x300_0001 * ar) by (nonlinear_arith)
        requires
            PARTS * am <= PARTS * (3 * ar) + 204 * ar,
            PARTS == 0x1_0000 * 0x100_0000,
            ar >= 0,
    ;
    if rise == 0 {
        assert(am == 0);
    }
}

/// The tangents of ordinary values are finite.
pub proof fn law_ordinary_values_are_tame(ys: Seq<Binary64>)
    requires
        are_ordinary(ys),
    ensures
        interpolation::is_tame(ys),
{
    let m = interpolation::tangents_of(ys);
    assert forall|i: int| 0 <= i < ys.len() implies (#[trigger] m[i]).is_finite() by {
        if ys.len() == 1 {
            assert(m[0] == chart::zero());
        } else if i < ys.len() - 1 {
            law_tangents_are_held_back(ys, i);
        } else {
            law_tangents_are_held_back(ys, i - 1);
        }
    }
}

/// Where the data turns or stands still, the tangent is level.
pub proof fn law_turning_points_are_level(ys: Seq<Binary64>, i: int)
    requires
        are_ordinary(ys),
        0 < i < ys.len() - 1,
        ys[i - 1].value() >= ys[i].value() <= ys[i + 1].value() || ys[i - 1].value() <= ys[i].value()
            >= ys[i + 1].value(),
    ensures
        interpolation::tangents_of(ys)[i].value() == 0,
{
    law_tangents_are_held_back(ys, i);
    law_tangents_are_held_back(ys, i - 1);
}

/// Whether data rises all the way, or falls all the way, and no step is more than twice as large as
/// one next to it, or so small that the product of two vanishes.
pub open spec fn is_gentle(ys: Seq<Binary64>) -> bool {
    &&& forall|i: int|
        0 <= i < ys.len() - 1 ==> accuracy::size((#[trigger] ys[i]).value() - ys[i + 1].value())
            >= pow2(538)
    &&& forall|i: int|
        0 <= i < ys.len() - 2 ==> {
            let (r, q) = (
                (#[trigger] ys[i + 1]).value() - ys[i].value(),
                ys[i + 2].value() - ys[i + 1].value(),
            );
            &&& r > 0 <==> q > 0
            &&& accuracy::size(r) <= 2 * accuracy::size(q)
            &&& accuracy::size(q) <= 2 * accuracy::size(r)
        }
}

/// Whether a tangent is at most twice as steep as a secant that it goes with.
spec fn is_moderate(m: Binary64, d: Binary64) -> bool {
    &&& goes_with(m, d)
    &&& accuracy::size(m.value()) <= 2 * accuracy::size(d.value())
}

/// The square of a ratio of at most two.
proof fn lemma_moderate_square(m: Binary64, d: Binary64)
    requires
        is_slope(d),
        is_moderate(m, d),
    ensures
        ({
            let alpha = binary64::quotient_of(m, d);
            let square = binary64::product_of(alpha, alpha);
            &&& square.is_finite()
            &&& 0 <= square.value()
            &&& 100 * square.value() <= 410 * binary64::one()
        }),
{
    lemma_one();
    lemma_zeros(d);
    let u = binary64::one() as int;
    let (am, ad) = (accuracy::size(m.value()), accuracy::size(d.value()));
    lemma_pow2_adds(1, 1022);
    lemma_powers(0, 1022);
    lemma2_to64();
    assert(am <= pow2(1023) * ad) by (nonlinear_arith)
        requires
            am <= 2 * ad,
            pow2(1023) >= 2,
            ad >= 0,
    ;
    lemma_ratio(m, d);
    let alpha = binary64::quotient_of(m, d);
    let al = alpha.value();
    assert(100 * al <= 201 * u) by (nonlinear_arith)
        requires
            MANTISSA_END * (al * ad) <= (MANTISSA_END + 1) * (am * u) + IMPLICIT * ad,
            am <= 2 * ad,
            ad > 0,
            u >= 0x1000_0000_0000_0000,
            MANTISSA_END == 0x20_0000_0000_0000,
            IMPLICIT == 0x10_0000_0000_0000,
    ;
    let exact = al * al;
    assert(0 <= 10_000 * exact <= 40_401 * (u * u)) by (nonlinear_arith)
        requires
            exact == al * al,
            0 <= al,
            100 * al <= 201 * u,
    ;
    accuracy::lemma_one_is_large();
    assert(exact <= accuracy::limit() * u) by (nonlinear_arith)
        requires
            10_000 * exact <= 40_401 * (u * u),
            100 * u <= accuracy::limit(),
            u > 0,
    ;
    accuracy::law_product_error(alpha, alpha);
    let v = binary64::product_of(alpha, alpha).value();
    assert(100 * v <= 410 * u) by (nonlinear_arith)
        requires
            MANTISSA_END * accuracy::size(v * u - exact) <= exact + IMPLICIT * u,
            v * u - exact <= accuracy::size(v * u - exact),
            10_000 * exact <= 40_401 * (u * u),
            u >= 0x1000_0000_0000_0000,
            MANTISSA_END == 0x20_0000_0000_0000,
            IMPLICIT == 0x10_0000_0000_0000,
    ;
}

/// Tangents that are not too steep for a segment stay as they are.
proof fn lemma_moderate_stay(d: Seq<Binary64>, m: Seq<Binary64>, i: int)
    requires
        m.len() == d.len() + 1,
        0 <= i < d.len(),
        is_slope(d[i]),
        is_moderate(m[i], d[i]),
        is_moderate(m[i + 1], d[i]),
    ensures
        interpolation::held_back(d, m, i) == m,
{
    lemma_one();
    lemma_moderate_square(m[i], d[i]);
    lemma_moderate_square(m[i + 1], d[i]);
    let alpha = binary64::quotient_of(m[i], d[i]);
    let beta = binary64::quotient_of(m[i + 1], d[i]);
    let (p, q) = (binary64::product_of(alpha, alpha), binary64::product_of(beta, beta));
    accuracy::lemma_one_is_large();
    accuracy::law_sum_error(p, q);
    rounding::law_whole_numbers_are_held(false, 9);
    let s = binary64::sum_of(p, q);
    assert(s.value() <= 9 * binary64::one());
    assert(!binary64::below(binary64::whole(false, 9), s));
}

proof fn lemma_moderate_upto(d: Seq<Binary64>, m: Seq<Binary64>, count: nat)
    requires
        m.len() == d.len() + 1,
        count <= d.len(),
        forall|i: int|
            0 <= i < d.len() ==> is_slope(#[trigger] d[i]) && is_moderate(m[i], d[i]) && is_moderate(
                m[i + 1],
                d[i],
            ),
    ensures
        interpolation::held_back_upto(d, m, count) == m,
    decreases count,
{
    if count > 0 {
        lemma_moderate_upto(d, m, (count - 1) as nat);
        let i = count - 1;
        assert(is_slope(d[i]));
        lemma_moderate_stay(d, m, i);
    }
}

/// The mean of two secants of one way, of which neither is much more than twice as steep as the other.
proof fn lemma_mean_of_secants(a: Binary64, b: Binary64)
    requires
        is_slope(a),
        is_slope(b),
        a.value() > 0 <==> b.value() > 0,
        100 * accuracy::size(a.value()) <= 201 * accuracy::size(b.value()),
        100 * accuracy::size(b.value()) <= 201 * accuracy::size(a.value()),
    ensures
        ({
            let m = binary64::quotient_of(binary64::sum_of(a, b), binary64::whole(false, 2));
            let exact = a.value() + b.value();
            &&& is_moderate(m, a) && is_moderate(m, b)
            &&& 0x4_0000_0000_0000 * accuracy::size(2 * m.value() - exact) <= accuracy::size(exact)
                + 0x4_0000_0000_0000
        }),
{
    lemma_one();
    lemma_zeros(a);
    lemma_zeros(b);
    let u = binary64::one() as int;
    let exact = a.value() + b.value();
    accuracy::law_sum_error(a, b);
    let sum = binary64::sum_of(a, b);
    assert(MANTISSA_END * accuracy::size(sum.value() - exact) <= accuracy::size(exact));
    rounding::law_whole_numbers_are_held(false, 2);
    let two = binary64::whole(false, 2);
    lemma_zeros(two);
    let v = accuracy::size(sum.value());
    assert(v * u <= accuracy::limit() * (2 * u)) by (nonlinear_arith)
        requires
            v <= 2 * accuracy::limit(),
            u > 0,
    ;
    accuracy::law_quotient_error(sum, two);
    let m = binary64::quotient_of(sum, two);
    let e = 2 * m.value() - sum.value();
    assert(m.value() * (2 * u) - sum.value() * u == e * u) by (nonlinear_arith)
        requires
            e == 2 * m.value() - sum.value(),
    ;
    assert(accuracy::size(e * u) == accuracy::size(e) * u) by (nonlinear_arith)
        requires
            u > 0,
            accuracy::size(e) == (if e < 0 {
                -e
            } else {
                e
            }),
            accuracy::size(e * u) == (if e * u < 0 {
                -(e * u)
            } else {
                e * u
            }),
    ;
    assert(MANTISSA_END * accuracy::size(e) <= v + 2 * IMPLICIT) by (nonlinear_arith)
        requires
            MANTISSA_END * (accuracy::size(e) * u) <= v * u + IMPLICIT * (2 * u),
            u > 0,
    ;
    assert(MANTISSA_END * accuracy::size(e) <= 2 * accuracy::size(exact) + MANTISSA_END);
    lemma_mean_bound(
        accuracy::size(m.value()),
        accuracy::size(exact),
        accuracy::size(a.value()),
        accuracy::size(b.value()),
    );
    lemma_mean_bound(
        accuracy::size(m.value()),
        accuracy::size(exact),
        accuracy::size(b.value()),
        accuracy::size(a.value()),
    );
}

proof fn lemma_mean_bound(m: int, exact: int, a: int, b: int)
    requires
        0 < a,
        0 < b,
        exact == a + b,
        100 * b <= 201 * a,
        MANTISSA_END * (2 * m - exact) <= 3 * exact + MANTISSA_END,
    ensures
        m <= 2 * a,
{
    if a == 1 {
        assert(b <= 2);
    }
}

/// Where data rises or falls gently, the tangent at a point is half of what the data rises from the
/// point before it to the point after it, and at the ends what it rises to the only point next to it,
/// but for rounding.
pub proof fn law_tangents_of_gentle_data_are_central_differences(ys: Seq<Binary64>, i: int)
    requires
        are_ordinary(ys),
        is_gentle(ys),
        ys.len() >= 2,
        0 <= i < ys.len(),
    ensures
        ({
            let m = interpolation::tangents_of(ys)[i].value();
            let n = ys.len() as int;
            let rise = if i == 0 {
                2 * (ys[1].value() - ys[0].value())
            } else if i == n - 1 {
                2 * (ys[n - 1].value() - ys[n - 2].value())
            } else {
                ys[i + 1].value() - ys[i - 1].value()
            };
            &&& interpolation::tangents_of(ys)[i].is_finite()
            &&& 0x100_0000_0000 * accuracy::size(2 * m - rise) <= accuracy::size(rise)
                + 0x200_0000_0000
        }),
{
    let d = interpolation::secants(ys);
    let first = interpolation::first_tangents(d);
    let n = ys.len() as int;
    lemma_secants(ys);
    assert forall|k: int| 0 <= k < d.len() implies is_slope(#[trigger] d[k]) && is_moderate(
        first[k],
        d[k],
    ) && is_moderate(first[k + 1], d[k]) by {
        lemma_gentle_tangent(ys, k);
        lemma_gentle_tangent(ys, k + 1);
    }
    lemma_moderate_upto(d, first, d.len());
    assert(interpolation::tangents_of(ys) == first);
    lemma_gentle_tangent(ys, i);
}

/// What a first tangent of gentle data is.
spec fn is_gentle_tangent(m: Binary64, rise: int) -> bool {
    &&& m.is_finite()
    &&& 0x100_0000_0000 * accuracy::size(2 * m.value() - rise) <= accuracy::size(rise)
        + 0x200_0000_0000
}

/// The secant of a step of gentle data.
proof fn lemma_gentle_step(a: Binary64, b: Binary64)
    requires
        a.is_finite() && 8 * accuracy::size(a.value()) <= accuracy::limit(),
        b.is_finite() && 8 * accuracy::size(b.value()) <= accuracy::limit(),
        accuracy::size(a.value() - b.value()) >= pow2(538),
    ensures
        ({
            let d = binary64::difference_of(b, a);
            let r = b.value() - a.value();
            &&& is_slope(d)
            &&& is_moderate(d, d)
            &&& r > 0 <==> d.value() > 0
            &&& accuracy::size(d.value()) >= pow2(537)
            &&& 0x800_0000_0000 * accuracy::size(d.value() - r) <= accuracy::size(r)
            &&& is_gentle_tangent(d, 2 * r)
        }),
{
    lemma_pow2_adds(1, 537);
    lemma_powers(0, 537);
    lemma2_to64();
    lemma_secant(a, b);
    rounding::lemma_negated(a);
    accuracy::law_sum_error(b, binary64::negated(a));
    let d = binary64::difference_of(b, a);
    let r = b.value() - a.value();
    assert(MANTISSA_END * accuracy::size(d.value() - r) <= accuracy::size(r));
    lemma_zeros(d);
}

/// The tangent between two steps of gentle data.
proof fn lemma_gentle_middle(x: Binary64, y: Binary64, z: Binary64)
    requires
        x.is_finite() && 8 * accuracy::size(x.value()) <= accuracy::limit(),
        y.is_finite() && 8 * accuracy::size(y.value()) <= accuracy::limit(),
        z.is_finite() && 8 * accuracy::size(z.value()) <= accuracy::limit(),
        accuracy::size(x.value() - y.value()) >= pow2(538),
        accuracy::size(y.value() - z.value()) >= pow2(538),
        ({
            let (r, q) = (y.value() - x.value(), z.value() - y.value());
            &&& r > 0 <==> q > 0
            &&& accuracy::size(r) <= 2 * accuracy::size(q)
            &&& accuracy::size(q) <= 2 * accuracy::size(r)
        }),
    ensures
        ({
            let (a, b) = (binary64::difference_of(y, x), binary64::difference_of(z, y));
            let m = binary64::quotient_of(binary64::sum_of(a, b), binary64::whole(false, 2));
            &&& !binary64::at_most(binary64::product_of(a, b), chart::zero())
            &&& is_moderate(m, a)
            &&& is_moderate(m, b)
            &&& is_gentle_tangent(m, z.value() - x.value())
        }),
{
    let (a, b) = (binary64::difference_of(y, x), binary64::difference_of(z, y));
    let (r, q) = (y.value() - x.value(), z.value() - y.value());
    lemma_gentle_step(x, y);
    lemma_gentle_step(y, z);
    lemma_gentle_secants(r, q, a.value(), b.value());
    lemma_gentle_secants(q, r, b.value(), a.value());
    lemma_mean_of_secants(a, b);
    lemma_mean_is_taken(a, b);
    let m = binary64::quotient_of(binary64::sum_of(a, b), binary64::whole(false, 2));
    lemma_gentle_error(m.value(), a.value(), b.value(), r, q);
}

proof fn lemma_gentle_error(m: int, a: int, b: int, r: int, q: int)
    requires
        r > 0 <==> q > 0,
        r != 0,
        q != 0,
        0x800_0000_0000 * accuracy::size(a - r) <= accuracy::size(r),
        0x800_0000_0000 * accuracy::size(b - q) <= accuracy::size(q),
        0x4_0000_0000_0000 * accuracy::size(2 * m - (a + b)) <= accuracy::size(a + b)
            + 0x4_0000_0000_0000,
    ensures
        0x100_0000_0000 * accuracy::size(2 * m - (r + q)) <= accuracy::size(r + q)
            + 0x200_0000_0000,
{
    assert(accuracy::size(r + q) == accuracy::size(r) + accuracy::size(q));
    assert(accuracy::size(a + b) <= 2 * accuracy::size(r + q));
    assert(0x800_0000_0000 * accuracy::size(a + b - (r + q)) <= accuracy::size(r + q));
}

proof fn lemma_gentle_tangent(ys: Seq<Binary64>, i: int)
    requires
        are_ordinary(ys),
        is_gentle(ys),
        ys.len() >= 2,
        0 <= i < ys.len(),
    ensures
        ({
            let d = interpolation::secants(ys);
            let m = interpolation::first_tangent(d, i);
            let n = ys.len() as int;
            let rise = if i == 0 {
                2 * (ys[1].value() - ys[0].value())
            } else if i == n - 1 {
                2 * (ys[n - 1].value() - ys[n - 2].value())
            } else {
                ys[i + 1].value() - ys[i - 1].value()
            };
            &&& is_gentle_tangent(m, rise)
            &&& i > 0 ==> is_slope(d[i - 1]) && is_moderate(m, d[i - 1])
            &&& i < n - 1 ==> is_slope(d[i]) && is_moderate(m, d[i])
        }),
{
    let n = ys.len() as int;
    assert(ys[i].is_finite());
    if i > 0 {
        assert(ys[i - 1].is_finite());
        assert(ys[i - 1 + 1] == ys[i]);
        lemma_gentle_step(ys[i - 1], ys[i]);
    }
    if i < n - 1 {
        assert(ys[i + 1].is_finite());
        lemma_gentle_step(ys[i], ys[i + 1]);
    }
    if 0 < i < n - 1 {
        assert(ys[i - 1 + 1] == ys[i] && ys[i - 1 + 2] == ys[i + 1]);
        lemma_gentle_middle(ys[i - 1], ys[i], ys[i + 1]);
    }
}

proof fn lemma_gentle_secants(r: int, q: int, a: int, b: int)
    requires
        accuracy::size(r) <= 2 * accuracy::size(q),
        0x800_0000_0000 * accuracy::size(a - r) <= accuracy::size(r),
        0x800_0000_0000 * accuracy::size(b - q) <= accuracy::size(q),
    ensures
        100 * accuracy::size(a) <= 201 * accuracy::size(b),
{
}

/// The product of two secants of one way is above zero, unless it vanishes.
proof fn lemma_mean_is_taken(a: Binary64, b: Binary64)
    requires
        is_slope(a),
        is_slope(b),
        a.value() > 0 <==> b.value() > 0,
        accuracy::size(a.value()) >= pow2(537),
        accuracy::size(b.value()) >= pow2(537),
    ensures
        !binary64::at_most(binary64::product_of(a, b), chart::zero()),
{
    lemma_one();
    lemma_zeros(chart::zero());
    lemma_zeros(a);
    lemma_zeros(b);
    let (x, y) = (a.magnitude(), b.magnitude());
    lemma_pow2_adds(537, 537);
    assert(x * y >= pow2(537) * pow2(537)) by (nonlinear_arith)
        requires
            x >= pow2(537),
            y >= pow2(537),
    ;
    assert(binary64::magnitude_of(1) == 1) by {
        binary64::lemma_edges();
        assert(binary64::mantissa_of(1) == 1 && binary64::scale_of(1) == 0);
    }
    let found = binary64::nearest_pattern(x * y, binary64::one());
    rounding::law_rounding_stops_at_held_numbers(x * y, binary64::one(), 1);
    rounding::lemma_with_sign(false, found);
    let product = binary64::product_of(a, b);
    rounding::lemma_patterns_by_magnitude(product.pattern(), 0);
}

} // verus!

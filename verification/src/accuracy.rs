//! How far a rounded number lies from what it was rounded from.

use crate::screen;
use crate::single::{self, Single};
use vstd::arithmetic::mul::*;
use vstd::arithmetic::power2::*;
use vstd::prelude::*;

verus! {

broadcast use group_mul_basics;

/// Distance of two integers.
pub open spec fn distance(a: int, b: int) -> int {
    if a < b {
        b - a
    } else {
        a - b
    }
}

/// Parts of one, in units.
pub proof fn lemma_units()
    ensures
        pow2(125) > 0,
        pow2(128) == 8 * pow2(125),
        pow2(139) == 0x4000 * pow2(125),
        pow2(144) == 0x8_0000 * pow2(125),
        pow2(147) == 0x40_0000 * pow2(125),
        pow2(148) == 0x80_0000 * pow2(125),
        pow2(149) == 0x100_0000 * pow2(125),
        pow2(24) == 0x100_0000,
        pow2(125) >= 0x1_0000_0000_0000_0000,
        pow2(200) == 0x8_0000_0000_0000 * pow2(149),
{
    lemma_pow2_pos(125);
    lemma2_to64();
    lemma2_to64_rest();
    lemma_pow2_adds(3, 125);
    lemma_pow2_adds(14, 125);
    lemma_pow2_adds(19, 125);
    lemma_pow2_adds(22, 125);
    lemma_pow2_adds(23, 125);
    lemma_pow2_adds(24, 125);
    lemma_pow2_adds(51, 149);
    screen::lemma_pow2_increases(64, 125);
}

/// Neighbours of numbers below `2^24` times a power of two are no further apart
/// than that power.
proof fn lemma_gap(b: nat, e: nat)
    requires
        single::magnitude(b) < 0x100_0000 * pow2(e),
    ensures
        pow2(single::shift(b)) <= pow2(e),
{
    let n = single::shift(b);
    if n > e {
        screen::lemma_pow2_increases(e + 1, n);
        lemma_pow2_unfold(e + 1);
        let p = pow2(e) as int;
        let m = single::significand(b) as int;
        assert(m * pow2(n) >= 0x80_0000 * (2 * p)) by (nonlinear_arith)
            requires
                m >= 0x80_0000,
                pow2(n) >= 2 * p,
                p >= 0,
        ;
    } else {
        screen::lemma_pow2_increases(n, e);
    }
}

/// A fraction of at most `2^24` times a power of two is off by half of that
/// power at most.
#[verifier::spinoff_prover]
pub proof fn lemma_near(num: nat, den: nat, e: nat)
    requires
        den > 0,
        e <= 200,
        num <= (0x100_0000 * pow2(e)) * den,
    ensures
        ({
            let b = single::nearest(num, den);
            let m = single::magnitude(b);
            &&& single::rounds_to(num, den, b)
            &&& b < single::INFINITY
            &&& m <= 0x100_0000 * pow2(e)
            &&& 2 * distance((m * den) as int, num as int) <= pow2(e) * den
        }),
{
    let b = single::nearest(num, den);
    let m = single::magnitude(b) as int;
    let p = pow2(e) as int;
    single::lemma_nearest_exists(num, den);
    lemma_pow2_pos(e);
    lemma2_to64();
    let limit = 0x100_0000 * p;
    assert(limit >= pow2(24)) by (nonlinear_arith)
        requires
            limit == 0x100_0000 * p,
            p >= 1,
            pow2(24) == 0x100_0000,
    ;
    let top = screen::lemma_representable(0x100_0000, e);
    single::lemma_nearest_exact(1, top);
    assert(num * 1 <= limit * den);
    single::lemma_rounding_monotone(num, den, b, limit as nat, 1, top);
    single::lemma_magnitude_increases(b, top);
    let d = den as int;
    if m < limit {
        lemma_gap(b, e);
        single::lemma_middle(b);
        let g = pow2(single::shift(b)) as int;
        let s = single::significand(b) as int;
        assert((2 * s + 1) * g == 2 * m + g) by (nonlinear_arith)
            requires
                m == s * g,
        ;
        assert(2 * num <= 2 * (m * d) + p * d) by (nonlinear_arith)
            requires
                2 * num <= (2 * m + g) * d,
                g <= p,
                d > 0,
        ;
    } else {
        assert(m == limit);
        assert(num <= m * d);
        assert(p * d >= 0) by (nonlinear_arith)
            requires
                p >= 0,
                d > 0,
        ;
    }
    if b > 0 {
        let a = (b - 1) as nat;
        let n = single::magnitude(a) as int;
        single::lemma_middle(a);
        lemma_gap(a, e);
        let g = pow2(single::shift(a)) as int;
        let s = single::significand(a) as int;
        assert((2 * s + 1) * g == 2 * n + g) by (nonlinear_arith)
            requires
                n == s * g,
        ;
        assert(m == n + g);
        assert(2 * num >= 2 * (m * d) - p * d) by (nonlinear_arith)
            requires
                2 * num >= (2 * m - g) * d,
                g <= p,
                d > 0,
        ;
    } else {
        assert(m == 0);
        assert(p * d >= 0) by (nonlinear_arith)
            requires
                p >= 0,
                d > 0,
        ;
    }
}

/// A fraction that is neither tiny nor huge is off by one part in `2^24` at
/// most.
#[verifier::spinoff_prover]
pub proof fn lemma_relative(num: nat, den: nat)
    requires
        den > 0,
        0x100_0000 * den <= num <= (0x100_0000 * pow2(200)) * den,
    ensures
        ({
            let b = single::nearest(num, den);
            let m = single::magnitude(b);
            &&& single::rounds_to(num, den, b)
            &&& b < single::INFINITY
            &&& m >= 0x100_0000
            &&& 0xff_ffff * (m * den) <= 0x100_0000 * num <= 0x100_0001 * (m * den)
        }),
{
    let b = single::nearest(num, den);
    let m = single::magnitude(b) as int;
    let d = den as int;
    lemma_near(num, den, 200);
    lemma2_to64();
    // The significand is full.
    let low = screen::lemma_representable(0x100_0000, 0);
    single::lemma_nearest_exact(1, low);
    assert(single::magnitude(low) == 0x100_0000);
    single::lemma_rounding_monotone(0x100_0000, 1, low, num, den, b);
    single::lemma_magnitude_increases(low, b);
    if b < 0x80_0000 {
        assert(single::significand(b) == b && single::shift(b) == 0);
        assert(pow2(0) == 1);
    }
    let g = pow2(single::shift(b)) as int;
    let s = single::significand(b) as int;
    assert(s >= 0x80_0000);
    assert(0x80_0000 * g <= m) by (nonlinear_arith)
        requires
            m == s * g,
            s >= 0x80_0000,
            g >= 0,
    ;
    single::lemma_middle(b);
    assert((2 * s + 1) * g == 2 * m + g) by (nonlinear_arith)
        requires
            m == s * g,
    ;
    assert(0x100_0000 * num <= 0x100_0001 * (m * d)) by (nonlinear_arith)
        requires
            2 * num <= (2 * m + g) * d,
            0x80_0000 * g <= m,
            d > 0,
    {
        assert((2 * m + g) * d == 2 * (m * d) + g * d);
        assert(0x80_0000 * (g * d) <= m * d);
    }
    let a = (b - 1) as nat;
    let n = single::magnitude(a) as int;
    let h = pow2(single::shift(a)) as int;
    let t = single::significand(a) as int;
    single::lemma_middle(a);
    assert((2 * t + 1) * h == 2 * n + h) by (nonlinear_arith)
        requires
            n == t * h,
    ;
    assert(m == n + h);
    assert(h <= g) by {
        screen::lemma_pow2_increases(single::shift(a), single::shift(b));
    }
    assert(0xff_ffff * (m * d) <= 0x100_0000 * num) by (nonlinear_arith)
        requires
            2 * num >= (2 * m - h) * d,
            h <= g,
            0x80_0000 * g <= m,
            d > 0,
    {
        assert((2 * m - h) * d == 2 * (m * d) - h * d);
        assert(h * d <= g * d);
        assert(0x80_0000 * (g * d) <= m * d);
    }
}

/// An integer that a number is rounded to lies half a unit of place away at
/// most.
pub proof fn lemma_rounded_near(size: nat)
    ensures
        2 * distance((single::rounded_size(size) * pow2(149)) as int, size as int) <= pow2(149),
{
    let u = pow2(149) as int;
    let n = single::rounded_size(size) as int;
    lemma_pow2_pos(149);
    lemma_pow2_unfold(150);
    let x = 2 * size + u;
    vstd::arithmetic::div_mod::lemma_fundamental_div_mod(x, 2 * u);
    vstd::arithmetic::div_mod::lemma_mod_bound(x, 2 * u);
    assert((2 * u) * n == 2 * (n * u)) by (nonlinear_arith);
}

/// An integer that lies less than half a unit of place away is the one that a
/// number is rounded to.
pub proof fn lemma_rounds_back(size: nat, n: nat)
    requires
        2 * distance((n * pow2(149)) as int, size as int) < pow2(149),
    ensures
        single::rounded_size(size) == n,
{
    let u = pow2(149) as int;
    let r = single::rounded_size(size) as int;
    lemma_pow2_pos(149);
    lemma_rounded_near(size);
    assert(r == n) by (nonlinear_arith)
        requires
            2 * distance(n * u, size as int) < u,
            2 * distance(r * u, size as int) <= u,
            u > 0,
    {
        if r < n {
            assert(n * u - r * u >= u);
        }
        if r > n {
            assert(r * u - n * u >= u);
        }
    }
}

/// Steps of one part in `2^24` around a number.
pub open spec fn within_part(m: int, exact: int) -> bool {
    0xff_ffff * m <= 0x100_0000 * exact <= 0x100_0001 * m
}

/// The quotient of two integers.
#[verifier::spinoff_prover]
pub proof fn lemma_integers_divided(a: u32, b: u32)
    requires
        1 <= a <= 0x100_0000,
        1 <= b <= 0x100_0000,
    ensures
        ({
            let q = single::quotient(single::of_integer(a as nat), single::of_integer(b as nat));
            &&& q.finite() && !q.negative()
            &&& within_part((q.size() * b) as int, (a * pow2(149)) as int)
            &&& pow2(125) <= 2 * q.size()
            &&& q.size() <= 0x200_0000 * pow2(149)
        }),
{
    let x = single::of_integer(a as nat);
    let y = single::of_integer(b as nat);
    let u = pow2(149) as int;
    let v = pow2(125) as int;
    screen::lemma_small_integer(a);
    screen::lemma_small_integer(b);
    lemma_units();
    let num = (a * u) * u;
    let den = b * u;
    assert(0x100_0000 * den <= num && num <= (0x100_0000 * pow2(200)) * den && den > 0)
        by (nonlinear_arith)
        requires
            num == (a * u) * u,
            den == b * u,
            1 <= a <= 0x100_0000,
            1 <= b <= 0x100_0000,
            u >= 0x1_0000_0000_0000_0000,
            pow2(200) == 0x8_0000_0000_0000 * u,
    {
        assert(den <= 0x100_0000 * u);
        assert(0x100_0000 * den <= 0x1_0000_0000_0000 * u);
        assert(num >= u * u);
        assert(u * u >= 0x1_0000_0000_0000 * u);
        assert(num <= (0x100_0000 * u) * u);
        assert(den >= u);
        assert((0x100_0000 * pow2(200)) * den >= (0x100_0000 * pow2(200)) * u);
        assert((0x100_0000 * pow2(200)) * u >= (0x100_0000 * u) * u);
    }
    lemma_relative(num as nat, den as nat);
    let q = single::quotient(x, y);
    let m = single::magnitude(single::nearest(num as nat, den as nat)) as int;
    assert(x.size() * u == num);
    assert(q == single::signed(false, single::nearest(num as nat, den as nat)));
    assert(q.size() == m);
    assert(within_part(m * b, a * u)) by (nonlinear_arith)
        requires
            0xff_ffff * (m * (b * u)) <= 0x100_0000 * ((a * u) * u) <= 0x100_0001 * (m * (b * u)),
            u > 0,
    {
        assert(m * (b * u) == (m * b) * u);
        assert((0xff_ffff * (m * b)) * u <= (0x100_0000 * (a * u)) * u);
        assert((0x100_0000 * (a * u)) * u <= (0x100_0001 * (m * b)) * u);
    }
    assert(v <= 2 * m && m <= 0x200_0000 * u) by (nonlinear_arith)
        requires
            0xff_ffff * (m * b) <= 0x100_0000 * (a * u) <= 0x100_0001 * (m * b),
            1 <= a <= 0x100_0000,
            1 <= b <= 0x100_0000,
            u == 0x100_0000 * v,
            m >= 0,
            v > 0,
    {
        assert(m * b <= m * 0x100_0000);
        assert(a * u >= u);
        assert(0x100_0001 * (m * 0x100_0000) >= 0x100_0000 * (0x100_0000 * v));
        assert(m <= m * b);
        assert(a * u <= 0x100_0000 * u);
        assert(0xff_ffff * m <= 0x100_0000 * (0x100_0000 * u));
    }
}

/// The product of two numbers that are neither tiny nor huge.
#[verifier::spinoff_prover]
pub proof fn lemma_multiplied(a: Single, b: Single)
    requires
        a.finite(),
        b.finite(),
        !a.negative(),
        !b.negative(),
        0x100_0000 * pow2(149) <= a.size() * b.size() <= (0x100_0000 * pow2(200)) * pow2(149),
    ensures
        ({
            let p = single::product(a, b);
            &&& p.finite() && !p.negative()
            &&& within_part((p.size() * pow2(149)) as int, (a.size() * b.size()) as int)
        }),
{
    lemma_units();
    let x = (a.size() * b.size()) as nat;
    lemma_relative(x, pow2(149));
    assert(single::product(a, b) == single::signed(false, single::nearest(x, pow2(149))));
}

/// An integer divided by a number that is neither tiny nor huge.
#[verifier::spinoff_prover]
pub proof fn lemma_divided(n: u32, by: Single)
    requires
        1 <= n <= 0x100_0000,
        by.finite(),
        !by.negative(),
        by.size() > 0,
        0x100_0000 * by.size() <= (n * pow2(149)) * pow2(149) <= (0x100_0000 * pow2(200))
            * by.size(),
    ensures
        ({
            let q = single::quotient(single::of_integer(n as nat), by);
            &&& q.finite() && !q.negative()
            &&& within_part((q.size() * by.size()) as int, ((n * pow2(149)) * pow2(149)) as int)
        }),
{
    screen::lemma_small_integer(n);
    lemma_units();
    let x = single::of_integer(n as nat);
    let num = ((n * pow2(149)) * pow2(149)) as nat;
    lemma_relative(num, by.size());
    assert(x.size() * pow2(149) == num);
    assert(single::quotient(x, by) == single::signed(false, single::nearest(num, by.size())));
}

/// Three steps of rounding, undone: `c` is one of `n` parts of `size`, `q` is
/// `base / size`, `x` is `c * q`, and `y` is `area / x`, where `area` is `k` of
/// the `n` parts of `base`. Then `y` is about `k`.
#[verifier::spinoff_prover]
proof fn lemma_parts_counted(
    u: int,
    base: int,
    size: int,
    area: int,
    n: int,
    k: int,
    c: int,
    q: int,
    x: int,
    y: int,
)
    requires
        u > 0,
        base >= 1,
        size >= 1,
        area >= 1,
        n >= 1,
        c >= 0,
        q >= 0,
        x >= 0,
        y >= 0,
        n * c == size * u,
        area * n == k * base,
        within_part(q * size, base * u),
        within_part(x * u, c * q),
        within_part(y * x, (area * u) * u),
    ensures
        (0xff_ffff * 0x100_0000) * y <= (0x100_0001 * 0x100_0001) * (k * u),
        (0x100_0001 * 0x100_0000) * y >= (0xff_ffff * 0xff_ffff) * (k * u),
{
    // In steps: first `x` goes, then `q`, then `c`.
    assert(0xff_ffff * (y * (c * q)) <= 0x100_0001 * ((area * u) * u * u)) by (nonlinear_arith)
        requires
            0xff_ffff * (y * x) <= 0x100_0000 * ((area * u) * u),
            0x100_0000 * (c * q) <= 0x100_0001 * (x * u),
            y >= 0,
            u > 0,
    {
        assert(y * (0x100_0000 * (c * q)) <= y * (0x100_0001 * (x * u)));
        assert(y * (0x100_0001 * (x * u)) == 0x100_0001 * ((y * x) * u));
        assert((0xff_ffff * (y * x)) * u <= (0x100_0000 * ((area * u) * u)) * u);
    }
    assert(0x100_0001 * (y * (c * q)) >= 0xff_ffff * ((area * u) * u * u)) by (nonlinear_arith)
        requires
            0x100_0001 * (y * x) >= 0x100_0000 * ((area * u) * u),
            0x100_0000 * (c * q) >= 0xff_ffff * (x * u),
            y >= 0,
            u > 0,
    {
        assert(y * (0x100_0000 * (c * q)) >= y * (0xff_ffff * (x * u)));
        assert(y * (0xff_ffff * (x * u)) == 0xff_ffff * ((y * x) * u));
        assert((0x100_0001 * (y * x)) * u >= (0x100_0000 * ((area * u) * u)) * u);
    }
    let t = (area * u) * u * u;
    let yc = y * c;
    assert(y * (c * q) == yc * q) by (nonlinear_arith)
        requires
            yc == y * c,
    ;
    assert(yc >= 0) by (nonlinear_arith)
        requires
            yc == y * c,
            y >= 0,
            c >= 0,
    ;
    assert((0xff_ffff * 0x100_0000) * (yc * (base * u)) <= (0x100_0001 * 0x100_0001) * (t * size))
        by (nonlinear_arith)
        requires
            0xff_ffff * (yc * q) <= 0x100_0001 * t,
            0x100_0000 * (base * u) <= 0x100_0001 * (q * size),
            yc >= 0,
            size >= 1,
    {
        assert(yc * (0x100_0000 * (base * u)) <= yc * (0x100_0001 * (q * size)));
        assert(yc * (0x100_0001 * (q * size)) == 0x100_0001 * ((yc * q) * size));
        assert((0xff_ffff * (yc * q)) * size <= (0x100_0001 * t) * size);
    }
    assert((0x100_0001 * 0x100_0000) * (yc * (base * u)) >= (0xff_ffff * 0xff_ffff) * (t * size))
        by (nonlinear_arith)
        requires
            0x100_0001 * (yc * q) >= 0xff_ffff * t,
            0x100_0000 * (base * u) >= 0xff_ffff * (q * size),
            yc >= 0,
            size >= 1,
    {
        assert(yc * (0x100_0000 * (base * u)) >= yc * (0xff_ffff * (q * size)));
        assert(yc * (0xff_ffff * (q * size)) == 0xff_ffff * ((yc * q) * size));
        assert((0x100_0001 * (yc * q)) * size >= (0xff_ffff * t) * size);
    }
    // Both sides have `base`, `size` and two units in common.
    let w = base * size * u * u;
    assert(w > 0) by (nonlinear_arith)
        requires
            w == base * size * u * u,
            base >= 1,
            size >= 1,
            u > 0,
    ;
    assert(n * (yc * (base * u)) == y * w) by (nonlinear_arith)
        requires
            yc == y * c,
            n * c == size * u,
            w == base * size * u * u,
    {
        assert(n * (yc * (base * u)) == y * ((n * c) * (base * u)));
    }
    let r = u * u * u * size;
    assert(n * (t * size) == (area * n) * r) by (nonlinear_arith)
        requires
            t == (area * u) * u * u,
            r == u * u * u * size,
    ;
    assert((k * u) * w == (k * base) * r) by (nonlinear_arith)
        requires
            w == base * size * u * u,
            r == u * u * u * size,
    ;
    assert(n * (t * size) == (k * u) * w);
    assert((0xff_ffff * 0x100_0000) * y <= (0x100_0001 * 0x100_0001) * (k * u))
        by (nonlinear_arith)
        requires
            (0xff_ffff * 0x100_0000) * (yc * (base * u)) <= (0x100_0001 * 0x100_0001) * (t * size),
            n * (yc * (base * u)) == y * w,
            n * (t * size) == (k * u) * w,
            n >= 1,
            w > 0,
    {
        assert(n * ((0xff_ffff * 0x100_0000) * (yc * (base * u))) <= n * ((0x100_0001
            * 0x100_0001) * (t * size)));
        assert(((0xff_ffff * 0x100_0000) * y) * w <= ((0x100_0001 * 0x100_0001) * (k * u)) * w);
    }
    assert((0x100_0001 * 0x100_0000) * y >= (0xff_ffff * 0xff_ffff) * (k * u))
        by (nonlinear_arith)
        requires
            (0x100_0001 * 0x100_0000) * (yc * (base * u)) >= (0xff_ffff * 0xff_ffff) * (t * size),
            n * (yc * (base * u)) == y * w,
            n * (t * size) == (k * u) * w,
            n >= 1,
            w > 0,
    {
        assert(n * ((0x100_0001 * 0x100_0000) * (yc * (base * u))) >= n * ((0xff_ffff * 0xff_ffff)
            * (t * size)));
        assert(((0x100_0001 * 0x100_0000) * y) * w >= ((0xff_ffff * 0xff_ffff) * (k * u)) * w);
    }
}

/// Pixels of a part of a picture, counted by the size of one in a scaled copy:
/// if `n` pixels of size `cell` span the copy, which is `size` wide and shows
/// `base`, and `area` is the width of `k` of them, `k` pixels are counted.
#[verifier::spinoff_prover]
pub proof fn lemma_pixels_counted(
    cell: Single,
    base: u32,
    size: u32,
    area: u32,
    n: u32,
    k: u32,
)
    requires
        cell.finite(),
        !cell.negative(),
        1 <= base <= 0x100_0000,
        1 <= size <= 0x100_0000,
        1 <= area <= base,
        1 <= n <= 0x1_0000,
        1 <= k,
        n * cell.size() == size * pow2(149),
        area * n == k * base,
    ensures
        ({
            let q = single::quotient(
                single::of_integer(base as nat),
                single::of_integer(size as nat),
            );
            let x = single::product(cell, q);
            screen::pixels(single::quotient(single::of_integer(area as nat), x)) == k
        }),
{
    let u = pow2(149) as int;
    let v = pow2(125) as int;
    let c = cell.size() as int;
    lemma_units();
    lemma_integers_divided(base, size);
    let qq = single::quotient(single::of_integer(base as nat), single::of_integer(size as nat));
    let q = qq.size() as int;
    assert(0x100 * v <= c && c <= 0x100_0000 * u) by (nonlinear_arith)
        requires
            n * c == size * u,
            1 <= n <= 0x1_0000,
            1 <= size <= 0x100_0000,
            u == 0x100_0000 * v,
            c >= 0,
            v > 0,
    {
        assert(n * c <= 0x1_0000 * c);
        assert(size * u >= u);
        assert(c <= n * c);
        assert(size * u <= 0x100_0000 * u);
    }
    assert(0x100_0000 * u <= c * q && c * q <= (0x100_0000 * pow2(200)) * u) by (nonlinear_arith)
        requires
            0x100 * v <= c <= 0x100_0000 * u,
            v <= 2 * q,
            q <= 0x200_0000 * u,
            u == 0x100_0000 * v,
            v >= 0x1_0000_0000_0000_0000,
            pow2(200) == 0x8_0000_0000_0000 * u,
    {
        assert(c * q >= (0x100 * v) * q);
        assert((0x100 * v) * (2 * q) >= (0x100 * v) * v);
        assert((0x100 * v) * v >= (0x100 * v) * 0x1_0000_0000_0000_0000);
        assert(c * q <= (0x100_0000 * u) * q);
        assert((0x100_0000 * u) * q <= (0x100_0000 * u) * (0x200_0000 * u));
        assert((0x100_0000 * pow2(200)) * u == (0x100_0000 * 0x8_0000_0000_0000) * (u * u));
    }
    lemma_multiplied(cell, qq);
    let xx = single::product(cell, qq);
    let x = xx.size() as int;
    // The size of a pixel in the picture is `base / n`, about.
    assert(v <= x && x <= 0x1000_0000 * u) by (nonlinear_arith)
        requires
            0xff_ffff * (x * u) <= 0x100_0000 * (c * q) <= 0x100_0001 * (x * u),
            0xff_ffff * (q * size) <= 0x100_0000 * (base * u) <= 0x100_0001 * (q * size),
            n * c == size * u,
            1 <= n <= 0x1_0000,
            1 <= base <= 0x100_0000,
            1 <= size,
            u == 0x100_0000 * v,
            v > 0,
            x >= 0,
            q >= 0,
            c >= 0,
    {
        let s = q * size;
        assert(n * (c * q) == (n * c) * q);
        assert((n * c) * q == s * u);
        // n x u is about s u, so n x is about s, and s is about base u.
        assert(0xff_ffff * ((n * x) * u) <= 0x100_0000 * (s * u)) by {
            assert(n * (0xff_ffff * (x * u)) <= n * (0x100_0000 * (c * q)));
        }
        assert(0x100_0000 * (s * u) <= 0x100_0001 * ((n * x) * u)) by {
            assert(n * (0x100_0000 * (c * q)) <= n * (0x100_0001 * (x * u)));
        }
        assert(0xff_ffff * (n * x) <= 0x100_0000 * s);
        assert(0x100_0000 * s <= 0x100_0001 * (n * x));
        assert(base * u >= u);
        assert(base * u <= 0x100_0000 * u);
        assert(n * x <= 0x1_0000 * x);
        assert(x <= n * x);
    }
    assert(0x100_0000 * x <= (area * u) * u && (area * u) * u <= (0x100_0000 * pow2(200)) * x)
        by (nonlinear_arith)
        requires
            v <= x <= 0x1000_0000 * u,
            1 <= area <= 0x100_0000,
            u == 0x100_0000 * v,
            v >= 0x1_0000_0000_0000_0000,
            pow2(200) == 0x8_0000_0000_0000 * u,
    {
        assert((area * u) * u >= u * u);
        assert(u * u >= 0x1_0000_0000_0000_0000 * u);
        assert((area * u) * u <= (0x100_0000 * u) * u);
        assert((0x100_0000 * pow2(200)) * x >= (0x100_0000 * pow2(200)) * v);
        assert((0x100_0000 * pow2(200)) * v == (0x8_0000_0000_0000 * u) * u);
    }
    lemma_divided(area, xx);
    let yy = single::quotient(single::of_integer(area as nat), xx);
    let y = yy.size() as int;
    lemma_parts_counted(
        u,
        base as int,
        size as int,
        area as int,
        n as int,
        k as int,
        c,
        q,
        x,
        y,
    );
    assert(k <= n) by (nonlinear_arith)
        requires
            area * n == k * base,
            area <= base,
            n >= 1,
            base >= 1,
    {
        assert(area * n <= base * n);
        if k > n {
            assert(k * base > n * base);
        }
    }
    assert(k * u <= 0x1_0000 * u) by (nonlinear_arith)
        requires
            k <= 0x1_0000,
            u > 0,
    ;
    assert(k * u >= u) by (nonlinear_arith)
        requires
            k >= 1,
            u > 0,
    ;
    let z = k * u;
    assert(2 * y < 2 * z + u) by (nonlinear_arith)
        requires
            (0xff_ffff * 0x100_0000) * y <= (0x100_0001 * 0x100_0001) * z,
            z <= 0x1_0000 * u,
            u > 0,
            y >= 0,
    ;
    assert(2 * y > 2 * z - u) by (nonlinear_arith)
        requires
            (0x100_0001 * 0x100_0000) * y >= (0xff_ffff * 0xff_ffff) * z,
            z <= 0x1_0000 * u,
            u > 0,
            y >= 0,
    ;
    lemma_rounds_back(yy.size(), k as nat);
}

/// Whole pixels of an integer divided by a number: the quotient to the closest
/// pixel, and one pixel at least.
#[verifier::spinoff_prover]
pub proof fn lemma_pixels_of_quotient(n: u32, by: Single)
    requires
        1 <= n <= 0x100_0000,
        by.finite(),
        !by.negative(),
        by.size() > 0,
        n * pow2(149) <= 0x100_0000 * by.size(),
    ensures
        ({
            let w = screen::pixels(single::quotient(single::of_integer(n as nat), by));
            ||| distance(w * by.size(), (n * pow2(149)) as int) <= by.size()
            ||| w == 1 && n * pow2(149) <= by.size()
        }),
{
    let u = pow2(149) as int;
    let d = by.size() as int;
    screen::lemma_small_integer(n);
    lemma_pow2_pos(149);
    let num = (n * u) * u;
    assert(num <= (0x100_0000 * u) * d && num >= 0) by (nonlinear_arith)
        requires
            num == (n * u) * u,
            0 <= n * u <= 0x100_0000 * d,
            u > 0,
    ;
    lemma_near(num as nat, by.size(), 149);
    let x = single::of_integer(n as nat);
    let q = single::quotient(x, by);
    let m = single::magnitude(single::nearest(num as nat, by.size())) as int;
    assert(x.size() * u == num);
    assert(q == single::signed(false, single::nearest(num as nat, by.size())));
    assert(q.size() == m);
    lemma_rounded_near(q.size());
    let r = single::rounded(q);
    assert(0 <= r <= 0x200_0000) by (nonlinear_arith)
        requires
            2 * distance(r * u, m) <= u,
            0 <= m <= 0x100_0000 * u,
            r >= 0,
            u > 0,
    ;
    let t = n * u;
    assert(distance(r * d, t) <= d) by (nonlinear_arith)
        requires
            2 * distance(m * d, t * u) <= u * d,
            2 * distance(r * u, m) <= u,
            u > 0,
            d > 0,
    {
        let x = r * d - t;
        assert(2 * ((r * u) * d) <= 2 * (m * d) + u * d);
        assert(2 * ((r * u) * d) >= 2 * (m * d) - u * d);
        assert((r * u) * d == (r * d) * u);
        assert(x * u == (r * d) * u - t * u);
        assert(x * u <= u * d && x * u >= -(u * d));
        if x > d {
            assert(x * u > d * u);
        }
        if x < -d {
            assert(x * u < (-d) * u);
        }
    }
}

/// Whole pixels of an integer times a number.
#[verifier::spinoff_prover]
pub proof fn lemma_pixels_of_product(n: u32, a: Single)
    requires
        1 <= n <= 0x100_0000,
        a.finite(),
        !a.negative(),
        n * a.size() <= 0x100_0000 * pow2(149),
    ensures
        ({
            let w = screen::pixels(single::product(single::of_integer(n as nat), a));
            ||| distance((w * pow2(149)) as int, (n * a.size()) as int) <= pow2(149)
            ||| w == 1 && n * a.size() <= pow2(149)
        }),
{
    let u = pow2(149) as int;
    screen::lemma_small_integer(n);
    lemma_pow2_pos(149);
    let t = n * a.size();
    let num = (n * u) * a.size();
    assert(num <= (0x100_0000 * u) * u && num >= 0 && num == t * u) by (nonlinear_arith)
        requires
            num == (n * u) * a.size(),
            t == n * a.size(),
            0 <= t <= 0x100_0000 * u,
            u > 0,
    ;
    lemma_near(num as nat, pow2(149), 149);
    let x = single::of_integer(n as nat);
    let q = single::product(x, a);
    let m = single::magnitude(single::nearest(num as nat, pow2(149))) as int;
    assert(q == single::signed(false, single::nearest(num as nat, pow2(149))));
    assert(q.size() == m);
    lemma_rounded_near(q.size());
    let r = single::rounded(q);
    assert(0 <= r <= 0x200_0000) by (nonlinear_arith)
        requires
            2 * distance(r * u, m) <= u,
            0 <= m <= 0x100_0000 * u,
            r >= 0,
            u > 0,
    ;
    assert(2 * distance(m, t) <= u) by (nonlinear_arith)
        requires
            2 * distance(m * u, t * u) <= u * u,
            u > 0,
    {
        if m < t {
            assert(t * u - m * u == (t - m) * u);
            assert((2 * (t - m)) * u <= u * u);
        } else {
            assert(m * u - t * u == (m - t) * u);
            assert((2 * (m - t)) * u <= u * u);
        }
    }
}

/// A number compared with 1, as it is computed.
#[verifier::spinoff_prover]
pub proof fn lemma_off_one(a: Single)
    requires
        a.finite(),
        !a.negative(),
        a.size() <= 0x100_0000 * pow2(149),
    ensures
        ({
            let d = single::absolute(single::difference(a, single::of_integer(1)));
            let off = distance(a.size() as int, pow2(149) as int);
            &&& d.finite() && !d.negative()
            &&& a.size() <= 8 * pow2(149) ==> distance(d.size() as int, off) <= 4 * pow2(125)
            &&& 2 * distance(d.size() as int, off) <= pow2(149)
        }),
{
    let one = single::of_integer(1);
    let off = distance(a.size() as int, pow2(149) as int) as nat;
    screen::lemma_small_integer(1);
    lemma_units();
    lemma_near(off, 1, 149);
    if a.size() <= 8 * pow2(149) {
        lemma_near(off, 1, 128);
    }
    single::lemma_nearest_exact(1, 0);
    let exact = a.units() - one.units();
    let e = single::difference(a, one);
    assert(e.pattern() == single::nearest(off, 1)) by {
        if exact == 0 {
            assert(off == 0);
        }
    }
}

/// Zero is nothing.
pub proof fn lemma_zero()
    ensures
        single::of_integer(0).units() == 0,
        single::of_integer(0).finite(),
        single::of_integer(0) == (Single { bits: 0 }),
        single::magnitude(0) == 0,
        single::nearest(0, 1) == 0,
{
    single::lemma_nearest_exact(1, 0);
    assert(single::magnitude(0) == 0);
}

/// How far apart two numbers are, as it is computed.
pub proof fn lemma_difference_size(a: Single, b: Single)
    requires
        a.finite(),
        b.finite(),
    ensures
        ({
            let d = single::absolute(single::difference(a, b));
            let off = distance(a.units(), b.units()) as nat;
            &&& single::rounds_to(off, 1, single::nearest(off, 1))
            &&& d.pattern() == single::nearest(off, 1)
            &&& single::difference(a, b).pattern() == single::nearest(off, 1)
            &&& !d.negative() && !d.nan()
        }),
{
    let off = distance(a.units(), b.units()) as nat;
    lemma_zero();
    single::lemma_nearest_exists(off, 1);
    if a.units() == b.units() {
        assert(off == 0);
    }
}

/// One of the numbers is infinite or none.
#[verifier::spinoff_prover]
proof fn lemma_difference_unbounded(a: Single, b: Single)
    requires
        !(a.finite() && b.finite()),
    ensures
        single::difference(a, b).pattern() == if a.nan() || b.nan() || (a.infinite()
            && b.infinite() && a.negative() == b.negative()) {
            0x7fc0_0000nat
        } else {
            single::INFINITY as nat
        },
{
}

/// What is subtracted does not matter for how far apart two numbers are.
#[verifier::spinoff_prover]
pub proof fn lemma_difference_symmetric(a: Single, b: Single)
    ensures
        single::absolute(single::difference(a, b)) == single::absolute(single::difference(b, a)),
{
    assert(single::difference(a, b).pattern() == single::difference(b, a).pattern()) by {
        if a.finite() && b.finite() {
            lemma_difference_size(a, b);
            lemma_difference_size(b, a);
        } else {
            lemma_difference_unbounded(a, b);
            lemma_difference_unbounded(b, a);
        }
    }
}

} // verus!

//! Regions of the screen: where the picture is, and where it is drawn.

use crate::accuracy;
use crate::ipc::{Extent, Factors, Offset, Rect};
use crate::single::{self, Single};
use crate::source::SourceRect;
use vstd::arithmetic::div_mod::*;
use vstd::arithmetic::mul::*;
use vstd::arithmetic::power2::*;
use vstd::prelude::*;

verus! {

broadcast use group_mul_basics;

/// `a` as a number of pixels, at least one.
pub open spec fn pixels(a: Single) -> u32 {
    let n = single::clamped(single::rounded(a), 0, 0xffff_ffff);
    if n < 1 {
        1
    } else {
        n as u32
    }
}

pub fn to_pixels(a: Single) -> (r: u32)
    ensures
        r == pixels(a),
{
    let n: u32 = a.rounded_u32();
    if n < 1 {
        1
    } else {
        n
    }
}

/// Largest size of aspect ratio `ratio` in an image of size `extent`, to the
/// closest pixel.
pub open spec fn aspect_size(ratio: Single, extent: Extent) -> Extent {
    let w = single::of_integer(extent.width as nat);
    let h = single::of_integer(extent.height as nat);
    if ratio.before(single::quotient(w, h)) {
        Extent { width: pixels(single::product(h, ratio)), height: pixels(h) }
    } else {
        Extent { width: pixels(w), height: pixels(single::quotient(w, ratio)) }
    }
}

/// The region can be placed in an image of size `extent`.
pub open spec fn region_fits(spec: SourceRect, extent: Extent) -> bool {
    match spec {
        SourceRect::Full => true,
        SourceRect::Aspect(ratio) => aspect_size(ratio, extent).width <= extent.width
            && aspect_size(ratio, extent).height <= extent.height,
        SourceRect::Explicit(_) => extent.width > 0 && extent.height > 0,
    }
}

/// `x` moved into an image of `total` pixels.
pub open spec fn moved_in(x: int, total: u32) -> int {
    single::clamped(x, 0, total - 1)
}

/// The region of an image of size `extent` that `spec` stands for: an aspect
/// ratio is centred, a rectangle is cut at the edges of the image.
pub open spec fn region_of(spec: SourceRect, extent: Extent) -> Rect {
    match spec {
        SourceRect::Full => Rect { offset: Offset { x: 0, y: 0 }, extent },
        SourceRect::Aspect(ratio) => {
            let size = aspect_size(ratio, extent);
            Rect {
                offset: Offset {
                    x: ((extent.width - size.width) / 2) as i32,
                    y: ((extent.height - size.height) / 2) as i32,
                },
                extent: size,
            }
        },
        SourceRect::Explicit(r) => {
            let x = moved_in(r.offset.x as int, extent.width);
            let y = moved_in(r.offset.y as int, extent.height);
            Rect {
                offset: Offset { x: x as i32, y: y as i32 },
                extent: Extent {
                    width: single::clamped(r.extent.width as int, 0, extent.width - x) as u32,
                    height: single::clamped(r.extent.height as int, 0, extent.height - y) as u32,
                },
            }
        },
    }
}

/// The rectangle lies in an image of size `extent`.
pub open spec fn inside(r: Rect, extent: Extent) -> bool {
    &&& r.offset.x >= 0
    &&& r.offset.y >= 0
    &&& r.offset.x + r.extent.width <= extent.width
    &&& r.offset.y + r.extent.height <= extent.height
}

/// The rectangle holds a pixel.
pub open spec fn holds_pixels(r: Rect) -> bool {
    r.extent.width > 0 && r.extent.height > 0
}

/// A rectangle, if it is one, with pixels in it.
pub open spec fn proper(spec: SourceRect) -> bool {
    match spec {
        SourceRect::Full => true,
        SourceRect::Aspect(ratio) => ratio.finite() && single::of_integer(0).before(ratio),
        SourceRect::Explicit(r) => holds_pixels(r),
    }
}

/// A region never leaves the image and is never empty.
pub proof fn lemma_region_inside(spec: SourceRect, extent: Extent)
    requires
        region_fits(spec, extent),
        extent.width > 0,
        extent.height > 0,
    ensures
        inside(region_of(spec, extent), extent),
        proper(spec) ==> holds_pixels(region_of(spec, extent)),
{
}

/// The region of an image of size `extent` that `spec` stands for.
pub fn region(spec: SourceRect, extent: Extent) -> (r: Rect)
    requires
        region_fits(spec, extent),
    ensures
        r == region_of(spec, extent),
{
    match spec {
        SourceRect::Full => Rect { offset: Offset { x: 0, y: 0 }, extent },
        SourceRect::Aspect(ratio) => {
            let w: Single = Single::of_u32(extent.width);
            let h: Single = Single::of_u32(extent.height);
            let (rw, rh) = if ratio.is_before(w.over(h)) {
                (h.times(ratio), h)
            } else {
                (w, w.over(ratio))
            };
            let width: u32 = to_pixels(rw);
            let height: u32 = to_pixels(rh);
            Rect {
                offset: Offset {
                    x: ((extent.width - width) / 2) as i32,
                    y: ((extent.height - height) / 2) as i32,
                },
                extent: Extent { width, height },
            }
        },
        SourceRect::Explicit(r) => {
            let x: u32 = put_in(r.offset.x, extent.width);
            let y: u32 = put_in(r.offset.y, extent.height);
            Rect {
                offset: Offset { x: x as i32, y: y as i32 },
                extent: Extent {
                    width: least(r.extent.width, extent.width - x),
                    height: least(r.extent.height, extent.height - y),
                },
            }
        },
    }
}

/// Whether the region can be placed in an image of size `extent`.
pub fn fits(spec: SourceRect, extent: Extent) -> (r: bool)
    ensures
        r == region_fits(spec, extent),
{
    match spec {
        SourceRect::Full => true,
        SourceRect::Aspect(ratio) => {
            let w: Single = Single::of_u32(extent.width);
            let h: Single = Single::of_u32(extent.height);
            let (rw, rh) = if ratio.is_before(w.over(h)) {
                (h.times(ratio), h)
            } else {
                (w, w.over(ratio))
            };
            to_pixels(rw) <= extent.width && to_pixels(rh) <= extent.height
        },
        SourceRect::Explicit(_) => extent.width > 0 && extent.height > 0,
    }
}

fn put_in(x: i32, total: u32) -> (r: u32)
    requires
        total > 0,
    ensures
        r == moved_in(x as int, total),
        r <= 0x7fff_ffff,
{
    if x < 0 {
        0
    } else if x as u32 > total - 1 {
        total - 1
    } else {
        x as u32
    }
}

fn least(a: u32, b: u32) -> (r: u32)
    ensures
        r == if a < b { a } else { b },
{
    if a < b {
        a
    } else {
        b
    }
}

/// What a region is like. An aspect ratio touches both edges of one axis and is
/// centred on the other; a rectangle that lies in the image is itself, and
/// every region, taken as a rectangle, is itself again.
pub proof fn lemma_region_shape(spec: SourceRect, extent: Extent)
    requires
        proper(spec),
        1 <= extent.width <= 0x40_0000,
        1 <= extent.height <= 0x40_0000,
    ensures
        ({
            let r = region_of(spec, extent);
            &&& region_fits(spec, extent)
            &&& inside(r, extent)
            &&& holds_pixels(r)
            &&& spec is Full ==> r.offset == (Offset { x: 0, y: 0 }) && r.extent == extent
            &&& spec is Aspect ==> r.extent.width == extent.width || r.extent.height
                == extent.height
            &&& spec is Aspect ==> r.offset.x == (extent.width - r.extent.width) / 2 && r.offset.y
                == (extent.height - r.extent.height) / 2
            &&& spec is Explicit && inside(spec->Explicit_0, extent) ==> r == spec->Explicit_0
            &&& region_of(SourceRect::Explicit(r), extent) == r
        }),
{
    lemma_region_fits(spec, extent);
    lemma_region_inside(spec, extent);
    lemma_small_integer(extent.width);
    lemma_small_integer(extent.height);
}

/// A rectangle that reaches out of the image begins at the closest pixel and
/// keeps its size as far as the image goes.
pub proof fn lemma_rectangle_cut(r: Rect, extent: Extent)
    requires
        placeable(extent),
    ensures
        ({
            let c = region_of(SourceRect::Explicit(r), extent);
            &&& r.offset.x < 0 ==> c.offset.x == 0
            &&& 0 <= r.offset.x < extent.width ==> c.offset.x == r.offset.x
            &&& r.offset.x >= extent.width ==> c.offset.x == extent.width - 1
            &&& r.offset.y < 0 ==> c.offset.y == 0
            &&& 0 <= r.offset.y < extent.height ==> c.offset.y == r.offset.y
            &&& r.offset.y >= extent.height ==> c.offset.y == extent.height - 1
            &&& c.extent.width == r.extent.width || (c.extent.width < r.extent.width && c.offset.x
                + c.extent.width == extent.width)
            &&& c.extent.height == r.extent.height || (c.extent.height < r.extent.height
                && c.offset.y + c.extent.height == extent.height)
            &&& inside(c, extent)
        }),
{
}

/// A region of an aspect ratio has that ratio, to the closest pixel: along one
/// axis it spans the image, and along the other it is as long as the ratio asks
/// for, and one pixel at least.
#[verifier::spinoff_prover]
pub proof fn lemma_region_ratio(ratio: Single, extent: Extent)
    requires
        proper(SourceRect::Aspect(ratio)),
        1 <= extent.width <= 0x40_0000,
        1 <= extent.height <= 0x40_0000,
    ensures
        ({
            let r = region_of(SourceRect::Aspect(ratio), extent).extent;
            let u = single::one_in_units() as int;
            let q = ratio.units();
            ||| r.height == extent.height && (accuracy::distance(r.width * u, extent.height * q)
                <= u || (r.width == 1 && extent.height * q <= u))
            ||| r.width == extent.width && (accuracy::distance(r.height * q, extent.width * u) <= q
                || (r.height == 1 && extent.width * u <= q))
        }),
{
    let w = single::of_integer(extent.width as nat);
    let h = single::of_integer(extent.height as nat);
    let (wi, hi) = (extent.width as int, extent.height as int);
    let one = pow2(149) as int;
    lemma_small_integer(extent.width);
    lemma_small_integer(extent.height);
    lemma_pow2_pos(149);
    lemma_positive(ratio);
    let num = wi * one * one;
    let den = hi * one;
    assert(num > 0 && den > 0 && wi * one > 0) by (nonlinear_arith)
        requires
            num == wi * one * one,
            den == hi * one,
            wi >= 1,
            hi >= 1,
            one > 0,
    ;
    let q = single::nearest(num as nat, den as nat);
    single::lemma_nearest_exists(num as nat, den as nat);
    let p = ratio.pattern();
    let quot = single::quotient(w, h);
    assert(w.size() * one == num);
    assert(quot == single::signed(false, q));
    assert(quot.pattern() == q && !quot.negative() && !quot.nan());
    if ratio.before(quot) {
        if q <= p {
            single::lemma_magnitude_increases(q, p);
        }
        lemma_below_quotient(wi, hi, one, p, q);
        assert(hi * ratio.size() <= 0x100_0000 * one) by (nonlinear_arith)
            requires
                single::magnitude(p) * hi <= wi * one,
                ratio.size() == single::magnitude(p),
                wi <= 0x40_0000,
                one > 0,
        ;
        accuracy::lemma_pixels_of_product(extent.height, ratio);
    } else {
        if p < q {
            single::lemma_magnitude_increases(p, q);
        }
        lemma_above_quotient(wi, hi, q);
        single::lemma_magnitude_increases(q, p);
        assert(wi * one <= 0x100_0000 * ratio.size()) by (nonlinear_arith)
            requires
                4 * (wi * one) <= (4 * hi + 1) * single::magnitude(q),
                single::magnitude(q) <= ratio.size(),
                hi <= 0x40_0000,
                hi >= 1,
        {
            assert((4 * hi + 1) * single::magnitude(q) <= (4 * hi + 1) * ratio.size());
            assert((4 * hi + 1) * ratio.size() <= 0x100_0001 * ratio.size());
        }
        accuracy::lemma_pixels_of_quotient(extent.width, ratio);
    }
}

/// There is a pattern for every 24-bit integer times a power of two that is
/// neither too small nor too large.
pub proof fn lemma_representable(m: nat, s: nat) -> (b: nat)
    requires
        1 <= m <= 0x100_0000,
        s <= 200,
        pow2(24) <= m * pow2(s),
    ensures
        b < single::INFINITY,
        single::magnitude(b) == m * pow2(s),
    decreases 0x100_0000 - m,
{
    lemma2_to64();
    if m == 0x100_0000 {
        let b = (s + 2) * 0x80_0000;
        lemma_pow2_unfold((s + 1) as nat);
        assert(b / 0x80_0000 == s + 2 && b % 0x80_0000 == 0) by (nonlinear_arith)
            requires
                b == (s + 2) * 0x80_0000,
        ;
        assert(0x80_0000 * (2 * pow2(s)) == 0x100_0000 * pow2(s)) by (nonlinear_arith);
        b as nat
    } else if m >= 0x80_0000 {
        let b = (s + 1) * 0x80_0000 + (m - 0x80_0000);
        assert(b / 0x80_0000 == s + 1 && b % 0x80_0000 == m - 0x80_0000) by (nonlinear_arith)
            requires
                b == (s + 1) * 0x80_0000 + (m - 0x80_0000),
                0x80_0000 <= m < 0x100_0000,
        ;
        b as nat
    } else {
        if s == 0 {
            assert(pow2(0) == 1);
        }
        lemma_pow2_unfold(s);
        let p = pow2((s - 1) as nat) as int;
        assert(m * (2 * p) == (2 * m) * p) by (nonlinear_arith);
        lemma_representable(2 * m, (s - 1) as nat)
    }
}

/// Small integers are numbers of their own.
pub proof fn lemma_small_integer(n: u32)
    requires
        1 <= n <= 0x100_0000,
    ensures
        single::of_integer(n as nat).finite(),
        !single::of_integer(n as nat).negative(),
        single::of_integer(n as nat).size() == n * pow2(149),
        single::of_integer(n as nat).pattern() == single::nearest(n as nat * pow2(149), 1),
        pixels(single::of_integer(n as nat)) == n,
{
    lemma_pow2_increases(24, 149);
    lemma_pow2_pos(149);
    assert(n * pow2(149) >= pow2(149)) by (nonlinear_arith)
        requires
            n >= 1,
            pow2(149) > 0,
    ;
    let b = lemma_representable(n as nat, 149);
    single::lemma_nearest_exact(1, b);
    lemma_pow2_unfold(148);
    lemma_pow2_unfold(149);
    let p = pow2(147) as int;
    assert((4 * n) * p == n * (4 * p)) by (nonlinear_arith);
    lemma_rounded_quarters((4 * n) as nat);
}

pub proof fn lemma_pow2_increases(a: nat, b: nat)
    requires
        a <= b,
    ensures
        pow2(a) <= pow2(b),
    decreases b - a,
{
    if a < b {
        lemma_pow2_unfold(b);
        lemma_pow2_increases(a, (b - 1) as nat);
    }
}

/// A number of quarters, rounded.
proof fn lemma_rounded_quarters(n: nat)
    ensures
        single::rounded_size(n * pow2(147)) == (n + 2) / 4,
{
    let p = pow2(147) as int;
    lemma_pow2_pos(147);
    lemma_pow2_unfold(148);
    lemma_pow2_unfold(149);
    lemma_pow2_unfold(150);
    let q = 2 * p;
    assert(2 * (n * p) + pow2(149) == q * (n + 2)) by (nonlinear_arith)
        requires
            q == 2 * p,
            pow2(149) == 4 * p,
    ;
    assert(pow2(150) == q * 4);
    lemma_truncate_middle_ratio((n + 2) as int, q, 4);
}

proof fn lemma_truncate_middle_ratio(x: int, q: int, d: int)
    requires
        x >= 0,
        q > 0,
        d > 0,
    ensures
        (q * x) / (q * d) == x / d,
{
    lemma_div_denominator(q * x, q, d);
    lemma_div_multiples_vanish(x, q);
    assert(q * x == x * q) by (nonlinear_arith);
}

/// Smaller sizes round to smaller integers.
pub proof fn lemma_rounded_order(a: nat, b: nat)
    requires
        a <= b,
    ensures
        single::rounded_size(a) <= single::rounded_size(b),
{
    lemma_pow2_pos(150);
    lemma_div_is_ordered((2 * a + pow2(149)) as int, (2 * b + pow2(149)) as int, pow2(150) as int);
}

/// Every aspect ratio fits into an image that is at most four million pixels
/// wide and high: rounding never carries the region over an edge.
#[verifier::spinoff_prover]
pub proof fn lemma_region_fits(spec: SourceRect, extent: Extent)
    requires
        proper(spec),
        1 <= extent.width <= 0x40_0000,
        1 <= extent.height <= 0x40_0000,
    ensures
        region_fits(spec, extent),
{
    if let SourceRect::Aspect(ratio) = spec {
        let w = single::of_integer(extent.width as nat);
        let h = single::of_integer(extent.height as nat);
        lemma_small_integer(extent.width);
        lemma_small_integer(extent.height);
        lemma_pow2_pos(149);
        let one = pow2(149) as int;
        let num = w.size() * one;
        let den = h.size();
        let (wi, hi) = (extent.width as int, extent.height as int);
        assert(num == wi * one * one && den == hi * one);
        assert(den > 0) by (nonlinear_arith)
            requires
                den == hi * one,
                hi >= 1,
                one > 0,
        ;
        assert(wi * one > 0) by (nonlinear_arith)
            requires
                wi >= 1,
                one > 0,
        ;
        let q = single::nearest(num as nat, den as nat);
        single::lemma_nearest_exists(num as nat, den as nat);
        let p = ratio.pattern();
        lemma_positive(ratio);
        let quot = single::quotient(w, h);
        assert(quot == single::signed(false, q));
        assert(quot.pattern() == q && !quot.negative() && !quot.nan());
        if ratio.before(quot) {
            if q <= p {
                single::lemma_magnitude_increases(q, p);
            }
            assert(p < q);
            lemma_below_quotient(wi, hi, one, p, q);
            // h * ratio stays below w, so it rounds to w at most.
            let x = h.size() * ratio.size();
            let b = single::nearest(x, pow2(149));
            single::lemma_nearest_exists(x, pow2(149));
            single::lemma_nearest_exists(w.size(), 1);
            assert(x * 1 <= w.size() * pow2(149)) by (nonlinear_arith)
                requires
                    x == (hi * one) * ratio.size(),
                    w.size() == wi * one,
                    one == pow2(149),
                    single::magnitude(p) * hi <= wi * one,
                    ratio.size() == single::magnitude(p),
                    one > 0,
            ;
            single::lemma_rounding_monotone(x, pow2(149), b, w.size(), 1, w.pattern());
            single::lemma_magnitude_increases(b, w.pattern());
            let prod = single::product(h, ratio);
            assert(prod == single::signed(false, b));
            assert(prod.size() <= w.size());
            lemma_rounded_order(prod.size(), w.size());
        } else {
            if p < q {
                single::lemma_magnitude_increases(p, q);
            }
            assert(q <= p);
            lemma_above_quotient(wi, hi, q);
            single::lemma_magnitude_increases(q, p);
            // w / ratio stays below h + 1/4.
            let t = pow2(147) as int;
            lemma_pow2_unfold(148);
            lemma_pow2_unfold(149);
            assert(one == 4 * t);
            lemma_pow2_increases(24, 147);
            lemma_pow2_pos(147);
            let c = lemma_quarter_above(extent.height);
            let y = ((4 * hi + 1) * t) as nat;
            let x = (w.size() * one) as nat;
            let d = ratio.size();
            let b = single::nearest(x, d);
            single::lemma_magnitude_increases(0, p);
            single::lemma_nearest_exists(x, d);
            assert(x * 1 <= y * d) by (nonlinear_arith)
                requires
                    x == wi * one * one,
                    one == 4 * t,
                    y == (4 * hi + 1) * t,
                    4 * (wi * one) <= (4 * hi + 1) * single::magnitude(q),
                    single::magnitude(q) <= d,
                    t > 0,
                    hi >= 1,
            {
                assert(4 * (wi * one) * t <= (4 * hi + 1) * single::magnitude(q) * t);
                assert((4 * hi + 1) * single::magnitude(q) * t == ((4 * hi + 1) * t)
                    * single::magnitude(q));
                assert(((4 * hi + 1) * t) * single::magnitude(q) <= ((4 * hi + 1) * t) * d);
                assert(wi * one * one == 4 * (wi * one) * t);
            }
            single::lemma_rounding_monotone(x, d, b, y, 1, c);
            single::lemma_magnitude_increases(b, c);
            let quo = single::quotient(w, ratio);
            assert(quo == single::signed(false, b));
            lemma_rounded_order(quo.size(), single::magnitude(c));
        }
    }
}

/// The pattern closest to a quarter above `h`, which rounds back to `h`.
proof fn lemma_quarter_above(h: u32) -> (c: nat)
    requires
        1 <= h <= 0x40_0000,
    ensures
        c < single::INFINITY,
        single::rounds_to(((4 * h + 1) * pow2(147)) as nat, 1, c),
        single::rounded_size(single::magnitude(c)) <= h,
{
    let t = pow2(147) as int;
    let n = 4 * h + 1;
    lemma_pow2_increases(24, 147);
    lemma_pow2_pos(147);
    assert(n * t >= t) by (nonlinear_arith)
        requires
            n >= 1,
            t > 0,
    ;
    if h < 0x40_0000 {
        let c = lemma_representable(n as nat, 147);
        single::lemma_nearest_exact(1, c);
        lemma_rounded_quarters(n as nat);
        c
    } else {
        // The middle of two neighbours: the tie goes to the even one.
        let c = 149 * 0x80_0000nat;
        lemma_pow2_unfold(148);
        lemma2_to64();
        assert(c / 0x80_0000 == 149 && c % 0x80_0000 == 0);
        assert(single::magnitude(c) == 0x80_0000 * pow2(148));
        single::lemma_middle(c);
        assert((2 * 0x80_0000 + 1) * (2 * t) == 2 * ((4 * 0x40_0000 + 1) * t)) by (nonlinear_arith);
        let below = (c - 1) as nat;
        single::lemma_middle(below);
        assert(single::magnitude(below) + single::magnitude(c) < 2 * single::magnitude(c));
        assert(2 * (0x80_0000 * (2 * t)) < 2 * ((4 * 0x40_0000 + 1) * t)) by (nonlinear_arith)
            requires
                t > 0,
        ;
        assert(0x80_0000 * (2 * t) == (4 * 0x40_0000) * t) by (nonlinear_arith);
        lemma_rounded_quarters(4 * 0x40_0000);
        c
    }
}

/// A number above zero has no sign and a size.
proof fn lemma_positive(x: Single)
    requires
        single::of_integer(0).before(x),
    ensures
        !x.negative(),
        x.size() > 0,
{
    single::lemma_magnitude_increases(0, single::of_integer(0).pattern());
    single::lemma_nearest_exact(1, 0);
    single::lemma_magnitude_increases(0, x.pattern());
}

/// What rounds to `q` lies above every smaller pattern.
proof fn lemma_below_quotient(w: int, h: int, one: int, p: nat, q: nat)
    requires
        p < q,
        w > 0,
        h > 0,
        one == pow2(149),
        single::rounds_to((w * one * one) as nat, (h * one) as nat, q),
    ensures
        single::magnitude(p) * h <= w * one,
{
    let k = (q - 1) as nat;
    let m = single::magnitude(k) as int;
    lemma_pow2_pos(149);
    single::lemma_magnitude_increases(p, k);
    single::lemma_magnitude_increases(k, q);
    assert(w * one * one >= 0 && h * one >= 0) by (nonlinear_arith)
        requires
            w > 0,
            h > 0,
            one > 0,
    ;
    assert(m * h <= w * one) by (nonlinear_arith)
        requires
            2 * (w * one * one) >= (m + single::magnitude(q)) * (h * one),
            single::magnitude(q) >= m,
            h > 0,
            one > 0,
    {
        assert((m + single::magnitude(q)) * (h * one) >= (2 * m) * (h * one));
        assert((2 * m) * (h * one) == 2 * ((m * h) * one));
        assert((w * one) * one >= (m * h) * one);
    }
    assert(single::magnitude(p) * h <= m * h) by (nonlinear_arith)
        requires
            single::magnitude(p) <= m,
            h > 0,
    ;
}

/// What rounds to `q` lies at most one part in `2^24` above it.
proof fn lemma_above_quotient(w: int, h: int, q: nat)
    requires
        1 <= w <= 0x40_0000,
        1 <= h <= 0x40_0000,
        single::rounds_to((w * pow2(149) * pow2(149)) as nat, (h * pow2(149)) as nat, q),
    ensures
        4 * (w * pow2(149)) <= (4 * h + 1) * single::magnitude(q),
{
    let one = pow2(149) as int;
    let num = w * one * one;
    let den = h * one;
    lemma_pow2_pos(149);
    assert(num > 0 && den > 0) by (nonlinear_arith)
        requires
            num == w * one * one,
            den == h * one,
            w >= 1,
            h >= 1,
            one > 0,
    ;
    // q is at least 2^-22, so its significand is full.
    lemma2_to64();
    lemma_pow2_increases(24, 127);
    let b0 = lemma_representable(1, 127);
    single::lemma_nearest_exact(1, b0);
    single::lemma_nearest_exists(pow2(127), 1);
    lemma_pow2_adds(22, 127);
    assert(pow2(127) * den <= num * 1) by (nonlinear_arith)
        requires
            num == w * one * one,
            den == h * one,
            w >= 1,
            h <= 0x40_0000,
            one == 0x40_0000 * pow2(127),
            one > 0,
    {
        assert(pow2(127) * h <= pow2(127) * 0x40_0000);
        assert(pow2(127) * (h * one) == (pow2(127) * h) * one);
        assert((pow2(127) * h) * one <= one * one);
        assert(one * one <= w * (one * one));
    }
    single::lemma_rounding_monotone(pow2(127), 1, b0, num as nat, den as nat, q);
    if q < 0x80_0000 {
        assert(b0 < 0x80_0000);
        assert(single::magnitude(b0) == b0 * pow2(0));
        assert(pow2(0) == 1);
    }
    let sig = single::significand(q) as int;
    let p = pow2(single::shift(q)) as int;
    let m = single::magnitude(q) as int;
    assert(q != single::INFINITY) by {
        // The quotient is at most w.
        lemma_small_integer(w as u32);
        let top = single::of_integer(w as nat).pattern();
        single::lemma_nearest_exists((w * one) as nat, 1);
        assert(num * 1 <= (w * one) * den) by (nonlinear_arith)
            requires
                num == w * one * one,
                den == h * one,
                h >= 1,
                w >= 1,
                one > 0,
        ;
        single::lemma_rounding_monotone(num as nat, den as nat, q, (w * one) as nat, 1, top);
    }
    single::lemma_middle(q);
    lemma_pow2_pos(single::shift(q));
    assert(2 * num <= ((2 * sig + 1) * p) * den);
    assert(2 * (w * one) <= (2 * sig + 1) * p * h) by (nonlinear_arith)
        requires
            2 * (w * one * one) <= ((2 * sig + 1) * p) * (h * one),
            one > 0,
    {
        assert(((2 * sig + 1) * p) * (h * one) == ((2 * sig + 1) * p * h) * one);
        assert(2 * (w * one * one) == (2 * (w * one)) * one);
    }
    assert(4 * (w * one) <= (4 * h + 1) * m) by (nonlinear_arith)
        requires
            2 * (w * one) <= (2 * sig + 1) * p * h,
            m == sig * p,
            sig >= 0x80_0000,
            1 <= h <= 0x40_0000,
            p > 0,
    {
        assert(2 * ((2 * sig + 1) * p * h) == 4 * h * (sig * p) + 2 * (p * h));
        assert(2 * (p * h) <= sig * p);
    }
}

// --------------------------------------------------------------------- scaling

/// Part of an axis: where it starts and how long it is.
pub struct Span {
    pub start: int,
    pub length: int,
}

/// A span scaled around its centre. A scale that differs from 1 by less than a
/// thousandth leaves it alone.
pub open spec fn stretched(start: int, length: u32, scale: Single) -> Span {
    let one = single::of_integer(1);
    if single::absolute(single::difference(scale, one)).before(single::of_fraction(1, 1000)) {
        Span { start, length: length as int }
    } else {
        let l = single::of_integer(length as nat);
        let s = single::larger(single::product(l, scale), one);
        let shift = single::quotient(single::difference(l, s), single::of_integer(2));
        Span {
            start: start + single::clamped(single::rounded(shift), -0x8000_0000, 0x7fff_ffff),
            length: single::clamped(single::rounded(s), 0, 0xffff_ffff),
        }
    }
}

/// The part of a span that lies on an axis of `total` pixels; the closest
/// pixel if no part does.
pub open spec fn visible(s: Span, total: u32) -> Span {
    let a = moved_in(s.start, total);
    let b = if s.start + s.length < total {
        s.start + s.length
    } else {
        total as int
    };
    Span {
        start: a,
        length: if b > a {
            b - a
        } else {
            1
        },
    }
}

/// `n` of `length` parts of `whole`, whole pixels only.
pub open spec fn share(whole: u32, n: int, length: int) -> int {
    if n <= 0 || length <= 0 {
        0
    } else {
        whole * n / length
    }
}

/// What is left of a picture of `whole` pixels, drawn over the span `s`, when
/// only the span `v` of it can be seen.
pub open spec fn kept(whole: u32, s: Span, v: Span) -> Span {
    let left = single::clamped(share(whole, v.start - s.start, s.length), 0, whole - 1);
    let right = share(whole, (s.start + s.length) - (v.start + v.length), s.length);
    Span { start: left, length: single::clamped(whole - left - right, 1, whole - left) }
}

/// The area drawn into: `base` scaled, as far as it lies on the screen.
pub open spec fn drawn_area(base: Rect, scale: Factors, extent: Extent) -> Rect {
    let h = visible(stretched(base.offset.x as int, base.extent.width, scale.x), extent.width);
    let v = visible(stretched(base.offset.y as int, base.extent.height, scale.y), extent.height);
    Rect {
        offset: Offset { x: h.start as i32, y: v.start as i32 },
        extent: Extent { width: h.length as u32, height: v.length as u32 },
    }
}

/// What is left of a picture of `whole` pixels along an axis of `total` pixels,
/// drawn over the span `s` that an area of `length` pixels was scaled to. An
/// area that is shorter than the axis grows until it reaches the edges and
/// keeps the whole picture; one that cannot grow loses what lies outside.
pub open spec fn drawn_span(whole: u32, length: u32, s: Span, total: u32) -> Span {
    if length < total {
        Span { start: 0, length: whole as int }
    } else {
        kept(whole, s, visible(s, total))
    }
}

/// The part of `picture` that is drawn when `base`, scaled, does not fit on
/// the screen.
pub open spec fn drawn_part(picture: Rect, base: Rect, scale: Factors, extent: Extent) -> Rect {
    let h = stretched(base.offset.x as int, base.extent.width, scale.x);
    let v = stretched(base.offset.y as int, base.extent.height, scale.y);
    let x = drawn_span(picture.extent.width, base.extent.width, h, extent.width);
    let y = drawn_span(picture.extent.height, base.extent.height, v, extent.height);
    Rect {
        offset: Offset {
            x: (picture.offset.x + x.start) as i32,
            y: (picture.offset.y + y.start) as i32,
        },
        extent: Extent { width: x.length as u32, height: y.length as u32 },
    }
}

/// A screen whose pixels have places.
pub open spec fn placeable(extent: Extent) -> bool {
    0 < extent.width <= 0x7fff_ffff && 0 < extent.height <= 0x7fff_ffff
}

/// The drawn area never overflows the screen, whatever the scale.
pub proof fn lemma_drawn_inside(base: Rect, scale: Factors, extent: Extent)
    requires
        placeable(extent),
    ensures
        inside(drawn_area(base, scale, extent), extent),
        holds_pixels(drawn_area(base, scale, extent)),
{
}

/// What is drawn of a picture is a part of it.
pub proof fn lemma_part_inside(picture: Rect, base: Rect, scale: Factors, extent: Extent)
    requires
        placeable(extent),
        inside(picture, extent),
        holds_pixels(picture),
    ensures
        ({
            let r = drawn_part(picture, base, scale, extent);
            &&& holds_pixels(r)
            &&& picture.offset.x <= r.offset.x
            &&& picture.offset.y <= r.offset.y
            &&& r.offset.x + r.extent.width <= picture.offset.x + picture.extent.width
            &&& r.offset.y + r.extent.height <= picture.offset.y + picture.extent.height
        }),
{
    let h = stretched(base.offset.x as int, base.extent.width, scale.x);
    let v = stretched(base.offset.y as int, base.extent.height, scale.y);
    lemma_kept(picture.extent.width, h, visible(h, extent.width));
    lemma_kept(picture.extent.height, v, visible(v, extent.height));
}

proof fn lemma_share(whole: u32, n: int, length: int)
    ensures
        0 <= share(whole, n, length),
{
    if n > 0 && length > 0 {
        assert(whole * n >= 0) by (nonlinear_arith)
            requires
                n > 0,
                whole >= 0,
        ;
        lemma_div_pos_is_pos(whole * n, length);
    }
}

proof fn lemma_kept(whole: u32, s: Span, v: Span)
    requires
        whole > 0,
    ensures
        0 <= kept(whole, s, v).start,
        1 <= kept(whole, s, v).length,
        kept(whole, s, v).start + kept(whole, s, v).length <= whole,
{
    lemma_share(whole, v.start - s.start, s.length);
    lemma_share(whole, (s.start + s.length) - (v.start + v.length), s.length);
}

/// Along an axis on which the scaled area fits on the screen, all of it is
/// drawn, and the picture is not cropped.
pub proof fn lemma_drawn_whole(picture: Rect, base: Rect, scale: Factors, extent: Extent)
    requires
        placeable(extent),
        inside(picture, extent),
        holds_pixels(picture),
    ensures
        ({
            let h = stretched(base.offset.x as int, base.extent.width, scale.x);
            let v = stretched(base.offset.y as int, base.extent.height, scale.y);
            let d = drawn_area(base, scale, extent);
            let r = drawn_part(picture, base, scale, extent);
            &&& h.start >= 0 && h.length > 0 && h.start + h.length <= extent.width ==> {
                &&& d.offset.x == h.start
                &&& d.extent.width == h.length
                &&& r.offset.x == picture.offset.x
                &&& r.extent.width == picture.extent.width
            }
            &&& v.start >= 0 && v.length > 0 && v.start + v.length <= extent.height ==> {
                &&& d.offset.y == v.start
                &&& d.extent.height == v.length
                &&& r.offset.y == picture.offset.y
                &&& r.extent.height == picture.extent.height
            }
        }),
{
}

/// The picture is cropped only on an axis that could not grow: along one on
/// which the unscaled area is shorter than the screen, no scale loses anything
/// of it. An area as high as the screen loses its top and bottom, never its
/// sides.
pub proof fn lemma_cropped_only_at_edges(
    picture: Rect,
    base: Rect,
    scale: Factors,
    extent: Extent,
)
    requires
        placeable(extent),
        inside(picture, extent),
        holds_pixels(picture),
    ensures
        ({
            let d = drawn_area(base, scale, extent);
            let r = drawn_part(picture, base, scale, extent);
            &&& base.extent.width < extent.width ==> r.offset.x == picture.offset.x
                && r.extent.width == picture.extent.width
            &&& base.extent.height < extent.height ==> r.offset.y == picture.offset.y
                && r.extent.height == picture.extent.height
            &&& inside(d, extent)
        }),
{
}

/// The span has a pixel on an axis of `total` pixels.
pub open spec fn shows(s: Span, total: u32) -> bool {
    s.length > 0 && s.start < total && s.start + s.length > 0
}

/// The pixel is one of the span's.
pub open spec fn on(s: Span, x: int) -> bool {
    s.start <= x < s.start + s.length
}

/// What is drawn into is what of the scaled area lies on the screen, pixel by
/// pixel.
pub proof fn lemma_drawn_pixels(base: Rect, scale: Factors, extent: Extent, x: int, y: int)
    requires
        placeable(extent),
        0 <= x < extent.width,
        0 <= y < extent.height,
    ensures
        ({
            let h = stretched(base.offset.x as int, base.extent.width, scale.x);
            let v = stretched(base.offset.y as int, base.extent.height, scale.y);
            let d = drawn_area(base, scale, extent);
            &&& shows(h, extent.width) ==> (d.offset.x <= x < d.offset.x + d.extent.width <==> on(
                h,
                x,
            ))
            &&& shows(v, extent.height) ==> (d.offset.y <= y < d.offset.y + d.extent.height
                <==> on(v, y))
        }),
{
}

/// `n` parts out of `length` of `whole`, rounded down.
pub open spec fn part_of(whole: int, n: int, length: int, r: int) -> bool {
    r * length <= whole * n < (r + 1) * length
}

proof fn lemma_share_of(whole: u32, n: int, length: int)
    requires
        0 <= n,
        0 < length,
    ensures
        part_of(whole as int, n, length, share(whole, n, length)),
        n < length && whole > 0 ==> share(whole, n, length) < whole,
{
    let x = whole * n;
    if n > 0 {
        assert(x >= 0) by (nonlinear_arith)
            requires
                x == whole * n,
                n > 0,
                whole >= 0,
        ;
    }
    let q = x / length;
    lemma_fundamental_div_mod(x, length);
    lemma_mod_bound(x, length);
    assert(q * length == length * q) by (nonlinear_arith);
    assert((q + 1) * length == q * length + length) by (nonlinear_arith);
    if n == 0 {
        assert(share(whole, n, length) == 0);
    } else {
        assert(share(whole, n, length) == q);
        if n < length && whole > 0 {
            assert(q < whole) by (nonlinear_arith)
                requires
                    q * length <= whole * n,
                    0 < n < length,
                    whole > 0,
            {
                if q >= whole {
                    assert(q * length >= whole * length);
                    assert(whole * length > whole * n);
                }
            }
        }
    }
}

/// Along an axis that is cropped, the picture loses at each end the share of it
/// that the area has beyond that edge of the screen.
pub proof fn lemma_cropped_in_proportion(whole: u32, length: u32, s: Span, total: u32)
    requires
        whole > 0,
        total > 0,
        length >= total,
        shows(s, total),
    ensures
        ({
            let k = drawn_span(whole, length, s, total);
            let before = if s.start < 0 {
                -s.start
            } else {
                0
            };
            let after = if s.start + s.length > total {
                s.start + s.length - total
            } else {
                0
            };
            &&& part_of(whole as int, before, s.length, k.start)
            &&& part_of(whole as int, after, s.length, whole - k.start - k.length)
        }),
{
    let v = visible(s, total);
    let before = v.start - s.start;
    let after = (s.start + s.length) - (v.start + v.length);
    assert(0 <= before && 0 <= after && before + after < s.length);
    lemma_share_of(whole, before, s.length);
    lemma_share_of(whole, after, s.length);
    let left = share(whole, before, s.length);
    let right = share(whole, after, s.length);
    let n = s.length;
    assert(left + right < whole) by (nonlinear_arith)
        requires
            left * n <= whole * before,
            right * n <= whole * after,
            before + after < n,
            whole > 0,
            n > 0,
    {
        if left + right >= whole {
            assert((left + right) * n >= whole * n);
            assert((left + right) * n == left * n + right * n);
            assert(whole * (before + after) == whole * before + whole * after);
            assert(whole * (before + after) < whole * n);
        }
    }
}

/// A scaled length is a number without a sign, finite for moderate scales.
#[verifier::spinoff_prover]
proof fn lemma_scaled_finite(length: u32, scale: Single)
    requires
        1 <= length <= 0x100_0000,
        scale.finite(),
        !scale.negative(),
        scale.size() <= 0x100 * pow2(149),
    ensures
        ({
            let x = length * pow2(149) * scale.size();
            let b = single::nearest(x as nat, pow2(149));
            &&& single::rounds_to(x as nat, pow2(149), b)
            &&& b < single::INFINITY
            &&& single::product(single::of_integer(length as nat), scale) == single::signed(
                false,
                b,
            )
        }),
{
    let l = single::of_integer(length as nat);
    lemma_small_integer(length);
    lemma_pow2_pos(149);
    let unit = pow2(149) as int;
    let x = l.size() * scale.size();
    let b = single::nearest(x, pow2(149));
    single::lemma_nearest_exists(x, pow2(149));
    // The product is at most 2^32.
    lemma2_to64();
    lemma_pow2_pos(157);
    assert(0x100_0000 * pow2(157) >= 0x100_0000) by (nonlinear_arith)
        requires
            pow2(157) > 0,
    ;
    let top = lemma_representable(0x100_0000, 157);
    lemma_pow2_adds(8, 149);
    single::lemma_nearest_exact(1, top);
    let m = single::magnitude(top) as int;
    let z = scale.size() as int;
    assert(x * 1 <= m * unit) by (nonlinear_arith)
        requires
            x == (length * unit) * z,
            0 <= length <= 0x100_0000,
            0 <= z <= 0x100 * unit,
            m == 0x100_0000 * (0x100 * unit),
            unit > 0,
    {
        assert((length * unit) * z <= (0x100_0000 * unit) * z);
        assert((0x100_0000 * unit) * z <= (0x100_0000 * unit) * (0x100 * unit));
        assert((0x100_0000 * unit) * (0x100 * unit) == (0x100_0000 * (0x100 * unit)) * unit);
    }
    single::lemma_rounding_monotone(x, pow2(149), b, m as nat, 1, top);
}

/// Scaled by less than 1 a length does not grow, by more it does not shrink.
#[verifier::spinoff_prover]
proof fn lemma_scaled_size(length: u32, scale: Single)
    requires
        1 <= length <= 0x100_0000,
        scale.finite(),
        !scale.negative(),
        scale.size() <= 0x100 * pow2(149),
    ensures
        ({
            let p = single::product(single::of_integer(length as nat), scale);
            &&& p.finite()
            &&& !p.negative()
            &&& scale.size() <= pow2(149) ==> p.size() <= length * pow2(149)
            &&& scale.size() >= pow2(149) ==> p.size() >= length * pow2(149)
        }),
{
    let l = single::of_integer(length as nat);
    lemma_small_integer(length);
    lemma_scaled_finite(length, scale);
    lemma_pow2_pos(149);
    let unit = pow2(149) as int;
    let z = scale.size() as int;
    let size = l.size() as int;
    let x = (size * z) as nat;
    let b = single::nearest(x, pow2(149));
    single::lemma_nearest_exists(l.size(), 1);
    if z <= unit {
        assert(size * z <= size * unit) by (nonlinear_arith)
            requires
                z <= unit,
                size >= 0,
        ;
        single::lemma_rounding_monotone(x, pow2(149), b, l.size(), 1, l.pattern());
        single::lemma_magnitude_increases(b, l.pattern());
    }
    if z >= unit {
        assert(size * unit <= size * z) by (nonlinear_arith)
            requires
                z >= unit,
                size >= 0,
        ;
        single::lemma_rounding_monotone(l.size(), 1, l.pattern(), x, pow2(149), b);
        single::lemma_magnitude_increases(l.pattern(), b);
    }
}

/// Below 1 a scale shrinks the area along its axis, above 1 it makes it grow.
#[verifier::spinoff_prover]
pub proof fn lemma_scale_direction(start: int, length: u32, scale: Single)
    requires
        1 <= length <= 0x100_0000,
        scale.finite(),
        !scale.negative(),
        scale.up_to(single::of_integer(0x100)),
    ensures
        scale.up_to(single::of_integer(1)) ==> stretched(start, length, scale).length <= length,
        single::of_integer(1).up_to(scale) ==> stretched(start, length, scale).length >= length,
{
    let one = single::of_integer(1);
    let l = single::of_integer(length as nat);
    lemma_small_integer(1);
    lemma_small_integer(length);
    lemma_small_integer(0x100);
    lemma_scaled_size(length, scale);
    lemma_pow2_pos(149);
    let unit = pow2(149) as int;
    let s = single::larger(single::product(l, scale), one);
    lemma_pow2_unfold(148);
    lemma_pow2_unfold(149);
    let t = pow2(147) as int;
    assert((4 * length) * t == length * (4 * t)) by (nonlinear_arith);
    lemma_rounded_quarters((4 * length) as nat);
    assert(single::rounded_size(l.size()) == length);
    assert(unit <= length * unit) by (nonlinear_arith)
        requires
            length >= 1,
            unit > 0,
    ;
    if scale.up_to(one) {
        lemma_rounded_order(s.size(), l.size());
    }
    if one.up_to(scale) {
        lemma_rounded_order(l.size(), s.size());
    }
}

/// The limits of an allowed scale.
proof fn lemma_scale_limits(scale: Single)
    requires
        crate::source::scale_allowed(scale),
    ensures
        !scale.negative(),
        0 < scale.size() <= 4 * pow2(149),
{
    lemma_small_integer(4);
    let tenth = single::of_fraction(1, 10);
    accuracy::lemma_units();
    accuracy::lemma_near(pow2(149), 10, 125);
    assert(tenth == single::signed(false, single::nearest(pow2(149), 10)));
    assert(tenth.size() > 0 && !tenth.negative());
}

/// A length times an allowed scale, before it is rounded to pixels.
#[verifier::spinoff_prover]
proof fn lemma_length_scaled(length: u32, scale: Single)
    requires
        1 <= length <= 0x40_0000,
        crate::source::scale_allowed(scale),
    ensures
        ({
            let u = pow2(149) as int;
            let l = single::of_integer(length as nat);
            let p = single::product(l, scale);
            &&& l.size() == length * u
            &&& l.finite() && !l.negative()
            &&& p.finite() && !p.negative()
            &&& p.size() <= 0x100_0000 * u
            &&& 2 * accuracy::distance(p.size() as int, (length * scale.size()) as int) <= u
        }),
{
    let u = pow2(149) as int;
    let l = single::of_integer(length as nat);
    let z = scale.size() as int;
    lemma_small_integer(length);
    lemma_scale_limits(scale);
    lemma_pow2_pos(149);
    let x = l.size() * z;
    assert(x <= (0x100_0000 * u) * u && x == (length * z) * u) by (nonlinear_arith)
        requires
            x == (length * u) * z,
            0 <= length <= 0x40_0000,
            0 <= z <= 4 * u,
            u > 0,
    {
        assert(length * u <= 0x40_0000 * u);
        assert((length * u) * z <= (0x40_0000 * u) * z);
        assert((0x40_0000 * u) * z <= (0x40_0000 * u) * (4 * u));
        assert((0x40_0000 * u) * (4 * u) == (0x100_0000 * u) * u);
    }
    accuracy::lemma_near(x as nat, pow2(149), 149);
    let p = single::product(l, scale);
    let m = p.size() as int;
    assert(p == single::signed(false, single::nearest(x as nat, pow2(149))));
    let y = length * z;
    assert(2 * accuracy::distance(m, y) <= u) by (nonlinear_arith)
        requires
            2 * accuracy::distance(m * u, y * u) <= u * u,
            u > 0,
    {
        if m < y {
            assert(y * u - m * u == (y - m) * u);
            assert((2 * (y - m)) * u <= u * u);
        } else {
            assert(m * u - y * u == (m - y) * u);
            assert((2 * (m - y)) * u <= u * u);
        }
    }
}

/// Half the difference of two lengths, in whole pixels.
#[verifier::spinoff_prover]
proof fn lemma_half_difference(l: Single, s: Single)
    requires
        l.finite(),
        s.finite(),
        !l.negative(),
        !s.negative(),
        l.size() <= 0x100_0000 * pow2(149),
        s.size() <= 0x100_0000 * pow2(149),
    ensures
        ({
            let u = pow2(149) as int;
            let d = single::difference(l, s);
            let n = single::rounded(single::quotient(d, single::of_integer(2)));
            &&& accuracy::distance(2 * (n * u), l.size() - s.size()) <= 2 * u
            &&& -0x1000_0000 <= n <= 0x1000_0000
        }),
{
    let u = pow2(149) as int;
    let exact = l.size() - s.size();
    let e = accuracy::distance(exact, 0) as nat;
    let two = single::of_integer(2);
    lemma_small_integer(2);
    lemma_pow2_pos(149);
    lemma_pow2_pos(148);
    lemma_pow2_unfold(149);
    let d = single::difference(l, s);
    accuracy::lemma_near(e, 1, 149);
    let m = single::magnitude(single::nearest(e, 1)) as int;
    single::lemma_nearest_exact(1, 0);
    assert(d.finite() && d.size() == m && (exact != 0 ==> d.negative() == (exact < 0)));
    let x = m * u;
    let h = pow2(148) as int;
    assert(x <= (0x100_0000 * h) * (2 * u)) by (nonlinear_arith)
        requires
            x == m * u,
            m <= 0x100_0000 * u,
            u == 2 * h,
            h > 0,
    ;
    accuracy::lemma_near(x as nat, (2 * u) as nat, 148);
    let q = single::quotient(d, two);
    let k = single::magnitude(single::nearest(x as nat, (2 * u) as nat)) as int;
    assert(two.size() == 2 * u);
    assert(q == single::signed(d.negative(), single::nearest(x as nat, (2 * u) as nat)));
    assert(q.size() == k && q.finite() && q.negative() == d.negative());
    assert(2 * accuracy::distance(2 * k, m) <= u) by (nonlinear_arith)
        requires
            2 * accuracy::distance(k * (2 * u), m * u) <= h * (2 * u),
            u == 2 * h,
            h > 0,
    {
        assert(k * (2 * u) == (2 * k) * u);
        if 2 * k < m {
            assert(m * u - (2 * k) * u == (m - 2 * k) * u);
            assert((2 * (m - 2 * k)) * u <= u * u);
        } else {
            assert((2 * k) * u - m * u == (2 * k - m) * u);
            assert((2 * (2 * k - m)) * u <= u * u);
        }
    }
    accuracy::lemma_rounded_near(k as nat);
    let r = single::rounded_size(k as nat) as int;
    let n = single::rounded(q);
    assert(accuracy::distance(2 * (r * u), e as int) <= 2 * u);
    assert(n == if d.negative() { -r } else { r });
    assert((-r) * u == -(r * u)) by (nonlinear_arith);
    if exact == 0 {
        assert(m == 0);
        single::lemma_nearest_exact((2 * u) as nat, 0);
        assert(k == 0);
        assert(r == 0) by (nonlinear_arith)
            requires
                2 * accuracy::distance(r * u, 0) <= u,
                r >= 0,
                u > 0,
        ;
    }
    assert(r <= 0x1000_0000) by (nonlinear_arith)
        requires
            2 * (r * u) <= e + 2 * u,
            e <= 0x100_0000 * u,
            u > 0,
    ;
}

/// The longer of a scaled length and one pixel.
proof fn lemma_at_least_one(p: Single)
    requires
        p.finite(),
        !p.negative(),
    ensures
        ({
            let s = single::larger(p, single::of_integer(1));
            &&& s.finite() && !s.negative()
            &&& s.size() == if p.size() < pow2(149) {
                pow2(149)
            } else {
                p.size()
            }
        }),
{
    lemma_small_integer(1);
}

/// A scaled span keeps its centre: twice the middle moves by two pixels at
/// most, which is what rounding the start and the length can do.
#[verifier::spinoff_prover]
pub proof fn lemma_keeps_centre(start: int, length: u32, scale: Single)
    requires
        1 <= length <= 0x40_0000,
        crate::source::scale_allowed(scale),
    ensures
        ({
            let s = stretched(start, length, scale);
            accuracy::distance(2 * s.start + s.length, 2 * start + length) <= 2
        }),
{
    let u = pow2(149) as int;
    let one = single::of_integer(1);
    let l = single::of_integer(length as nat);
    let p = single::product(l, scale);
    let s = single::larger(p, one);
    lemma_length_scaled(length, scale);
    lemma_at_least_one(p);
    lemma_pow2_pos(149);
    assert(length * u <= 0x100_0000 * u) by (nonlinear_arith)
        requires
            length <= 0x40_0000,
            u > 0,
    ;
    lemma_half_difference(l, s);
    accuracy::lemma_rounded_near(s.size());
    let r = single::rounded(s);
    let n = single::rounded(
        single::quotient(single::difference(l, s), single::of_integer(2)),
    );
    assert(0 <= r <= 0x1000_0000) by (nonlinear_arith)
        requires
            2 * accuracy::distance(r * u, s.size() as int) <= u,
            s.size() <= 0x100_0000 * u,
            r >= 0,
            u > 0,
    ;
    assert(accuracy::distance(2 * n + r, length as int) <= 2) by (nonlinear_arith)
        requires
            accuracy::distance(2 * (n * u), length * u - s.size()) <= 2 * u,
            2 * accuracy::distance(r * u, s.size() as int) <= u,
            u > 0,
    {
        let x = 2 * n + r - length;
        assert(x * u == 2 * (n * u) + r * u - length * u);
        assert(2 * (x * u) <= 5 * u && 2 * (x * u) >= -5 * u);
        if x >= 3 {
            assert(x * u >= 3 * u);
        }
        if x <= -3 {
            assert(x * u <= -3 * u);
        }
    }
}

/// A scaled length is the length times the scale, to the closest pixel, and one
/// pixel at least. A scale within a thousandth of 1 changes nothing.
#[verifier::spinoff_prover]
pub proof fn lemma_scales_length(start: int, length: u32, scale: Single)
    requires
        1 <= length <= 0x40_0000,
        crate::source::scale_allowed(scale),
    ensures
        ({
            let u = single::one_in_units() as int;
            let s = stretched(start, length, scale);
            let off = accuracy::distance(scale.units(), u);
            &&& 1001 * off <= u ==> s.start == start && s.length == length
            &&& 999 * off >= u ==> {
                ||| accuracy::distance(s.length * u, length * scale.units()) <= u
                ||| s.length == 1 && length * scale.units() <= 2 * u
            }
        }),
{
    let u = pow2(149) as int;
    let one = single::of_integer(1);
    let z = scale.size() as int;
    let off = accuracy::distance(z, u);
    let l = single::of_integer(length as nat);
    let p = single::product(l, scale);
    let s = single::larger(p, one);
    lemma_small_integer(1);
    lemma_scale_limits(scale);
    lemma_length_scaled(length, scale);
    lemma_at_least_one(p);
    lemma_pow2_pos(149);
    accuracy::lemma_rounded_near(s.size());
    // The difference from 1, and a thousandth, as they are compared.
    let d = single::absolute(single::difference(scale, one));
    let t = single::of_fraction(1, 1000);
    let v = pow2(125) as int;
    lemma_near_thousandth();
    accuracy::lemma_off_one(scale);
    accuracy::lemma_units();
    if 1001 * off <= u {
        assert(d.before(t));
    }
    if 999 * off >= u {
        assert(!d.before(t));
        let r = single::rounded(s);
        assert(0 <= r <= 0x1000_0000) by (nonlinear_arith)
            requires
                2 * accuracy::distance(r * u, s.size() as int) <= u,
                s.size() <= 0x100_0000 * u,
                r >= 0,
                u > 0,
        ;
        if p.size() < u {
            assert(r == 1) by (nonlinear_arith)
                requires
                    2 * accuracy::distance(r * u, u) <= u,
                    u > 0,
            {
                if r <= 0 {
                    assert(r * u <= 0);
                }
                if r >= 2 {
                    assert(r * u >= 2 * u);
                }
            }
        }
    }
}

/// A thousandth, to one part in sixteen millions of one.
pub proof fn lemma_near_thousandth()
    ensures
        ({
            let t = single::of_fraction(1, 1000);
            &&& t.finite() && !t.negative()
            &&& accuracy::distance((1000 * t.size()) as int, pow2(149) as int) <= 1000 * pow2(125)
        }),
{
    accuracy::lemma_units();
    accuracy::lemma_near(pow2(149), 1000, 125);
    let b = single::nearest(pow2(149), 1000);
    assert(single::of_fraction(1, 1000) == single::signed(false, b));
}

/// A scale of 1 changes nothing.
pub proof fn lemma_unscaled(base: Rect, picture: Rect, extent: Extent)
    requires
        placeable(extent),
        inside(base, extent),
        holds_pixels(base),
        inside(picture, extent),
        holds_pixels(picture),
    ensures
        drawn_area(base, crate::ipc::unscaled(), extent) == base,
        drawn_part(picture, base, crate::ipc::unscaled(), extent) == picture,
{
    let one = single::of_integer(1);
    lemma_small_integer(1);
    let d = single::absolute(single::difference(one, one));
    assert(d.pattern() == 0);
    assert(single::magnitude(0) == 0);
    let e = single::of_fraction(1, 1000);
    lemma_pow2_pos(149);
    single::lemma_nearest_exists(1 * pow2(149), 1000);
    // A thousandth is more than nothing.
    lemma_pow2_increases(24, 139);
    let low = lemma_representable(1, 139);
    single::lemma_nearest_exact(1, low);
    lemma2_to64();
    lemma_pow2_adds(10, 139);
    single::lemma_rounding_monotone(pow2(139), 1, low, pow2(149), 1000, e.pattern());
    single::lemma_magnitude_increases(low, e.pattern());
    assert(d.before(e));
    lemma_drawn_whole(picture, base, crate::ipc::unscaled(), extent);
}

/// A span in executable form.
struct Wanted {
    start: i64,
    length: u32,
}

fn stretch(start: i32, length: u32, scale: Single) -> (r: Wanted)
    ensures
        r.start == stretched(start as int, length, scale).start,
        r.length == stretched(start as int, length, scale).length,
        -0x1_0000_0000 <= r.start <= 0xffff_ffff,
{
    let one: Single = Single::of_u32(1);
    if scale.minus(one).abs().is_before(Single::fraction(1, 1000)) {
        Wanted { start: start as i64, length }
    } else {
        let l: Single = Single::of_u32(length);
        let s: Single = l.times(scale).max(one);
        let shift: i32 = l.minus(s).over(Single::of_u32(2)).rounded_i32();
        Wanted { start: start as i64 + shift as i64, length: s.rounded_u32() }
    }
}

fn see(w: &Wanted, total: u32) -> (r: (u32, u32))
    requires
        total > 0,
        -0x1_0000_0000 <= w.start <= 0xffff_ffff,
    ensures
        r.0 == visible(Span { start: w.start as int, length: w.length as int }, total).start,
        r.1 == visible(Span { start: w.start as int, length: w.length as int }, total).length,
        r.0 + r.1 <= total,
{
    let a: i64 = if w.start < 0 {
        0
    } else if w.start > total as i64 - 1 {
        total as i64 - 1
    } else {
        w.start
    };
    let end: i64 = w.start + w.length as i64;
    let b: i64 = if end < total as i64 {
        end
    } else {
        total as i64
    };
    if b > a {
        (a as u32, (b - a) as u32)
    } else {
        (a as u32, 1)
    }
}

fn share_of(whole: u32, n: i64, length: u32) -> (r: i128)
    requires
        -0x4_0000_0000 <= n <= 0x4_0000_0000,
    ensures
        r == share(whole, n as int, length as int),
        0 <= r <= 0x4_0000_0000 * 0xffff_ffff,
{
    if n <= 0 || length == 0 {
        0
    } else {
        assert(0 <= whole * n <= 0x4_0000_0000 * 0xffff_ffff) by (nonlinear_arith)
            requires
                0 <= whole <= 0xffff_ffff,
                0 < n <= 0x4_0000_0000,
        ;
        proof {
            lemma_div_pos_is_pos(whole * n, length as int);
            lemma_div_is_ordered_by_denominator(whole * n, 1, length as int);
        }
        (whole as i128 * n as i128) / (length as i128)
    }
}

fn keep(whole: u32, w: &Wanted, v: (u32, u32)) -> (r: (u32, u32))
    requires
        whole > 0,
        -0x1_0000_0000 <= w.start <= 0xffff_ffff,
    ensures
        ({
            let k = kept(
                whole,
                Span { start: w.start as int, length: w.length as int },
                Span { start: v.0 as int, length: v.1 as int },
            );
            r.0 == k.start && r.1 == k.length
        }),
        r.0 + r.1 <= whole,
{
    let cut: i128 = share_of(whole, v.0 as i64 - w.start, w.length);
    let left: i128 = if cut > whole as i128 - 1 {
        whole as i128 - 1
    } else {
        cut
    };
    let right: i128 = share_of(
        whole,
        w.start + w.length as i64 - (v.0 as i64 + v.1 as i64),
        w.length,
    );
    let rest: i128 = whole as i128 - left - right;
    if rest < 1 {
        (left as u32, 1)
    } else {
        (left as u32, rest as u32)
    }
}

fn keep_along(whole: u32, length: u32, w: &Wanted, total: u32) -> (r: (u32, u32))
    requires
        whole > 0,
        total > 0,
        -0x1_0000_0000 <= w.start <= 0xffff_ffff,
    ensures
        ({
            let s = Span { start: w.start as int, length: w.length as int };
            let k = drawn_span(whole, length, s, total);
            r.0 == k.start && r.1 == k.length
        }),
        r.0 + r.1 <= whole,
{
    if length < total {
        (0, whole)
    } else {
        keep(whole, w, see(w, total))
    }
}

/// The area drawn into: `base` scaled, as far as it lies on the screen.
pub fn draw_area(base: Rect, scale: Factors, extent: Extent) -> (r: Rect)
    requires
        placeable(extent),
    ensures
        r == drawn_area(base, scale, extent),
{
    let h: (u32, u32) = see(&stretch(base.offset.x, base.extent.width, scale.x), extent.width);
    let v: (u32, u32) = see(&stretch(base.offset.y, base.extent.height, scale.y), extent.height);
    Rect {
        offset: Offset { x: h.0 as i32, y: v.0 as i32 },
        extent: Extent { width: h.1, height: v.1 },
    }
}

/// The part of `picture` that is drawn.
pub fn draw_part(picture: Rect, base: Rect, scale: Factors, extent: Extent) -> (r: Rect)
    requires
        placeable(extent),
        inside(picture, extent),
        holds_pixels(picture),
    ensures
        r == drawn_part(picture, base, scale, extent),
{
    let h: Wanted = stretch(base.offset.x, base.extent.width, scale.x);
    let v: Wanted = stretch(base.offset.y, base.extent.height, scale.y);
    let x: (u32, u32) = keep_along(picture.extent.width, base.extent.width, &h, extent.width);
    let y: (u32, u32) = keep_along(picture.extent.height, base.extent.height, &v, extent.height);
    Rect {
        offset: Offset { x: picture.offset.x + x.0 as i32, y: picture.offset.y + y.0 as i32 },
        extent: Extent { width: x.1, height: y.1 },
    }
}

} // verus!

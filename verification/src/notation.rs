//! Writing single precision numbers.
//!
//! The written form is the shortest one that reads back as the same number.

use crate::decimal;
use crate::natural::{Natural, Order};
use crate::single::{self, nearest_pattern, Single, INFINITY, SIGN};
use crate::text;
use vstd::arithmetic::mul::*;
use vstd::arithmetic::power2::*;
use vstd::prelude::*;

verus! {

broadcast use group_mul_basics;

/// How far `d * 10^e` lies from the number of pattern `b`, in `10^-149`
/// units.
pub open spec fn gap(d: nat, e: int, b: nat) -> int {
    let x = d * decimal::ten((149 + e) as nat) - single::magnitude(b) * decimal::five(149);
    if x < 0 {
        -x
    } else {
        x
    }
}

/// `d * 10^e` reads as the pattern `b`, no multiple of a higher power of ten
/// does, and no other multiple of this one lies closer (or as close and
/// above).
pub open spec fn shortest(b: nat, d: nat, e: int) -> bool {
    &&& -149 <= e <= 38
    &&& decimal::decimal_pattern(d, e) == b
    &&& forall|d2: nat, e2: int|
        e2 > e ==> #[trigger] decimal::decimal_pattern(d2, e2) != b
    &&& forall|d2: nat|
        #[trigger] decimal::decimal_pattern(d2, e) == b ==> gap(d, e, b) < gap(d2, e, b) || (gap(
            d,
            e,
            b,
        ) == gap(d2, e, b) && d2 <= d)
}

/// The integer and the power of ten that the pattern `b` is written with.
pub open spec fn short_form(b: nat) -> (nat, int) {
    choose|p: (nat, int)| shortest(b, p.0, p.1)
}

/// `n` zeros.
pub open spec fn zeros(n: nat) -> Seq<char> {
    Seq::new(n, |i: int| '0')
}

/// `d * 10^e` without an exponent.
pub open spec fn placed(d: nat, e: int) -> Seq<char> {
    let s = text::decimal(d);
    let n = -e;
    if e >= 0 {
        s + zeros(e as nat)
    } else if s.len() > n {
        s.take(s.len() - n) + seq!['.'] + s.skip(s.len() - n)
    } else {
        seq!['0', '.'] + zeros((n - s.len()) as nat) + s
    }
}

/// The pattern `b` in decimal notation.
pub open spec fn pattern_text(b: nat) -> Seq<char> {
    if b == INFINITY {
        "inf"@
    } else if b == 0 {
        "0"@
    } else {
        placed(short_form(b).0, short_form(b).1)
    }
}

/// A number in decimal notation.
pub open spec fn shown(x: Single) -> Seq<char> {
    if x.nan() {
        "NaN"@
    } else if x.negative() {
        "-"@ + pattern_text(x.pattern())
    } else {
        pattern_text(x.pattern())
    }
}

/// The integer part of the fraction that `d * 10^e` is a multiple of.
spec fn upper(d: nat, e: int) -> nat {
    if e >= 0 {
        d * decimal::ten(e as nat) * pow2(149)
    } else {
        d * pow2(149)
    }
}

spec fn lower(e: int) -> nat {
    if e >= 0 {
        1
    } else {
        decimal::ten((-e) as nat)
    }
}

proof fn lemma_lower_positive(e: int)
    ensures
        lower(e) > 0,
{
    if e < 0 {
        decimal::lemma_ten_positive((-e) as nat);
    }
}

proof fn lemma_pattern(d: nat, e: int)
    ensures
        single::rounds_to(upper(d, e), lower(e), decimal::decimal_pattern(d, e)),
{
    lemma_lower_positive(e);
    single::lemma_nearest_exists(upper(d, e), lower(e));
}

/// A larger multiple reads as a pattern at least as large.
proof fn lemma_pattern_order(d: nat, d2: nat, e: int)
    requires
        d <= d2,
    ensures
        decimal::decimal_pattern(d, e) <= decimal::decimal_pattern(d2, e),
{
    lemma_lower_positive(e);
    lemma_pattern(d, e);
    lemma_pattern(d2, e);
    lemma_pow2_pos(149);
    let p = pow2(149) as int;
    let l = lower(e) as int;
    if e >= 0 {
        let t = decimal::ten(e as nat) as int;
        decimal::lemma_ten_positive(e as nat);
        assert(d * t * p * 1 <= d2 * t * p * 1) by (nonlinear_arith)
            requires
                d <= d2,
                t >= 0,
                p >= 0,
        ;
    } else {
        assert(d * p * l <= d2 * p * l) by (nonlinear_arith)
            requires
                d <= d2,
                l >= 0,
                p >= 0,
        ;
    }
    single::lemma_rounding_monotone(
        upper(d, e),
        lower(e),
        decimal::decimal_pattern(d, e),
        upper(d2, e),
        lower(e),
        decimal::decimal_pattern(d2, e),
    );
}

proof fn lemma_five_two(n: nat)
    ensures
        decimal::five(n) * pow2(n) == decimal::ten(n),
    decreases n,
{
    if n == 0 {
        lemma2_to64();
    } else {
        let k = (n - 1) as nat;
        lemma_five_two(k);
        lemma_pow2_unfold(n);
        let f = decimal::five(k) as int;
        let p = pow2(k) as int;
        assert((5 * f) * (2 * p) == 10 * (f * p)) by (nonlinear_arith);
    }
}

/// Multiples at most as large as the number of pattern `b` read as patterns
/// at most `b`, and the others as patterns at least `b`.
proof fn lemma_against(d: nat, e: int, b: nat)
    requires
        -149 <= e,
        b <= INFINITY,
    ensures
        d * decimal::ten((149 + e) as nat) <= single::magnitude(b) * decimal::five(149)
            ==> decimal::decimal_pattern(d, e) <= b,
        d * decimal::ten((149 + e) as nat) >= single::magnitude(b) * decimal::five(149)
            ==> decimal::decimal_pattern(d, e) >= b,
{
    let m = single::magnitude(b);
    let t = decimal::ten((149 + e) as nat) as int;
    let f = decimal::five(149) as int;
    let p = pow2(149) as int;
    let u = upper(d, e) as int;
    let l = lower(e) as int;
    lemma_pow2_pos(149);
    lemma_five_two(149);
    lemma_lower_positive(e);
    lemma_pattern(d, e);
    single::lemma_nearest_exact(1, b);
    decimal::lemma_ten_positive(149);
    decimal::lemma_ten_positive((149 + e) as nat);
    let w = decimal::ten(149) as int;
    // t p scales both sides to u and m l.
    let c = if e >= 0 {
        w
    } else {
        t
    };
    assert(c > 0 && d * t * p == u * c && m * f * p == m * l * c) by {
        if e >= 0 {
            decimal::lemma_ten_adds(149, e as nat);
            let te = decimal::ten(e as nat) as int;
            assert(d * (w * te) * p == d * te * p * w) by (nonlinear_arith);
            assert(m * f * p == m * (f * p)) by (nonlinear_arith);
        } else {
            decimal::lemma_ten_adds((149 + e) as nat, (-e) as nat);
            assert(d * t * p == d * p * t) by (nonlinear_arith);
            assert(m * f * p == m * l * t) by (nonlinear_arith)
                requires
                    f * p == t * l,
            ;
        }
    }
    if d * t <= m * f {
        assert(u * 1 <= m * l) by (nonlinear_arith)
            requires
                d * t <= m * f,
                p > 0,
                c > 0,
                d * t * p == u * c,
                m * f * p == m * l * c,
        ;
        single::lemma_rounding_monotone(
            upper(d, e),
            lower(e),
            decimal::decimal_pattern(d, e),
            m,
            1,
            b,
        );
    }
    if d * t >= m * f {
        assert(m * l <= u * 1) by (nonlinear_arith)
            requires
                d * t >= m * f,
                p > 0,
                c > 0,
                d * t * p == u * c,
                m * f * p == m * l * c,
        ;
        single::lemma_rounding_monotone(
            m,
            1,
            b,
            upper(d, e),
            lower(e),
            decimal::decimal_pattern(d, e),
        );
    }
}

/// There is one shortest form.
proof fn lemma_short_form(b: nat, d: nat, e: int)
    requires
        shortest(b, d, e),
    ensures
        short_form(b) == (d, e),
{
    let p = (d, e);
    assert(shortest(b, p.0, p.1));
    let q = short_form(b);
    assert(shortest(b, q.0, q.1));
    if q.1 > e {
        assert(decimal::decimal_pattern(q.0, q.1) != b);
    } else if q.1 < e {
        assert(decimal::decimal_pattern(d, e) != b);
    } else {
        assert(decimal::decimal_pattern(q.0, e) == b);
        assert(decimal::decimal_pattern(d, q.1) == b);
    }
}

/// Multiples of high powers of ten are zero or out of range.
proof fn lemma_no_high_power(d: nat, e: int, b: nat)
    requires
        e > 38,
        0 < b < INFINITY,
    ensures
        decimal::decimal_pattern(d, e) != b,
{
    lemma_pattern(d, e);
    if d == 0 {
        decimal::lemma_underflow(0, 1);
        single::lemma_nearest(0, 1, 0);
        assert(upper(0, e) == 0);
    } else {
        decimal::lemma_ten_increases(39, e as nat);
        lemma_pow2_pos(149);
        let t = decimal::ten(e as nat) as int;
        let p = pow2(149) as int;
        assert(d * t * p >= decimal::ten(39) * p * 1) by (nonlinear_arith)
            requires
                d >= 1,
                t >= decimal::ten(39),
                p >= 0,
        ;
        decimal::lemma_overflow(upper(d, e), 1);
        single::lemma_nearest(upper(d, e), 1, INFINITY as nat);
    }
}

/// Whether `d * 10^e` reads as the pattern `b`.
fn reads_as(d: &Natural, e: i32, b: u32) -> (r: bool)
    requires
        -149 <= e <= 38,
    ensures
        r == (decimal::decimal_pattern(d@, e as int) == b),
{
    if e >= 0 {
        let num: Natural = decimal::scaled_by_tens(d.scaled(1, 0), e as u128).shifted(149);
        let one: Natural = Natural::from_u64(1);
        nearest_pattern(&num, &one) == b
    } else {
        let num: Natural = d.shifted(149);
        let den: Natural = decimal::scaled_by_tens(Natural::from_u64(1), (-e) as u128);
        proof {
            decimal::lemma_ten_positive((-e) as nat);
        }
        nearest_pattern(&num, &den) == b
    }
}

/// `x * 5^149`.
fn times_five_149(x: Natural) -> (r: Natural)
    ensures
        r@ == x@ * decimal::five(149),
{
    let ghost start = x@;
    let mut r: Natural = x;
    let mut i: u32 = 0;
    while i < 149
        invariant
            i <= 149,
            r@ == start * decimal::five(i as nat),
        decreases 149 - i,
    {
        r = r.scaled(5, 0);
        proof {
            let f = decimal::five(i as nat) as int;
            assert(start * f * 5 == start * (5 * f)) by (nonlinear_arith);
        }
        i = i + 1;
    }
    r
}

/// A multiple reads as `b` only if one next to the number itself does.
proof fn lemma_neighbours(b: nat, e: int, q: nat)
    requires
        -149 <= e <= 38,
        b <= INFINITY,
        q * decimal::ten((149 + e) as nat) <= single::magnitude(b) * decimal::five(149),
        (q + 1) * decimal::ten((149 + e) as nat) >= single::magnitude(b) * decimal::five(149),
    ensures
        forall|d: nat|
            #[trigger] decimal::decimal_pattern(d, e) == b && d <= q ==> decimal::decimal_pattern(q, e)
                == b,
        forall|d: nat|
            #[trigger] decimal::decimal_pattern(d, e) == b && d > q ==> decimal::decimal_pattern(
                q + 1,
                e,
            ) == b,
{
    lemma_against(q, e, b);
    lemma_against(q + 1, e, b);
    assert forall|d: nat| #[trigger]
        decimal::decimal_pattern(d, e) == b && d <= q implies decimal::decimal_pattern(q, e) == b by {
        lemma_pattern_order(d, q, e);
    }
    assert forall|d: nat| #[trigger]
        decimal::decimal_pattern(d, e) == b && d > q implies decimal::decimal_pattern(q + 1, e)
        == b by {
        lemma_pattern_order(q + 1, d, e);
    }
}

/// `d` is closer to the number than every multiple beyond it.
proof fn lemma_gap_order(b: nat, e: int, q: nat, d: nat)
    requires
        -149 <= e,
        q * decimal::ten((149 + e) as nat) <= single::magnitude(b) * decimal::five(149),
        (q + 1) * decimal::ten((149 + e) as nat) >= single::magnitude(b) * decimal::five(149),
    ensures
        d < q ==> gap(q, e, b) < gap(d, e, b),
        d > q + 1 ==> gap(q + 1, e, b) < gap(d, e, b),
{
    let t = decimal::ten((149 + e) as nat) as int;
    decimal::lemma_ten_positive((149 + e) as nat);
    if d < q {
        assert(d * t < q * t) by (nonlinear_arith)
            requires
                d < q,
                t > 0,
        ;
    }
    if d > q + 1 {
        assert(d * t > (q + 1) * t) by (nonlinear_arith)
            requires
                d > q + 1,
                t > 0,
        ;
    }
}

/// The digits and the power of ten that the pattern `b` is written with.
fn find_short_form(b: u32) -> (r: (Natural, i32))
    requires
        0 < b < INFINITY,
    ensures
        (r.0@, r.1 as int) == short_form(b as nat),
        shortest(b as nat, r.0@, r.1 as int),
{
    let value: Natural = times_five_149(Single { bits: b }.natural());
    let whole: Natural = decimal::scaled_by_tens(Natural::from_u64(1), 187);
    let ghost v = single::magnitude(b as nat) * decimal::five(149);
    let mut e: i32 = 39;
    let mut q: Natural = Natural::from_u64(0);
    let mut r: Natural = value;
    proof {
        decimal::lemma_ten_positive(187);
        // v < 2^277 5^149 = 2^128 10^149 <= 10^188.
        decimal::lemma_limits();
        single::lemma_magnitude_increases(b as nat, INFINITY as nat);
        lemma_five_two(149);
        decimal::lemma_ten_adds(39, 149);
        let m = single::magnitude(b as nat) as int;
        let f = decimal::five(149) as int;
        let p = pow2(149) as int;
        let h = pow2(128) as int;
        let w = decimal::ten(149) as int;
        assert(m * f < decimal::ten(39) * w) by (nonlinear_arith)
            requires
                m < h * p,
                f * p == w,
                h <= decimal::ten(39),
                f > 0,
                w >= 0,
        {
            assert(m * f < (h * p) * f);
            assert((h * p) * f == h * (f * p));
            assert(h * w <= decimal::ten(39) * w);
        }
        assert(decimal::ten(188) == 10 * decimal::ten(187));
        assert forall|d2: nat, e2: int| e2 > 38 implies #[trigger] decimal::decimal_pattern(d2, e2)
            != b by {
            lemma_no_high_power(d2, e2, b as nat);
        }
    }
    // The first step does not scale the remainder: it enters at 10^38.
    let mut first: bool = true;
    loop
        invariant
            0 < b < INFINITY,
            -148 <= e <= 39,
            v == single::magnitude(b as nat) * decimal::five(149),
            whole@ == decimal::ten(187),
            decimal::ten(187) > 0,
            first == (e == 39),
            first ==> q@ == 0 && r@ == v && v < 10 * decimal::ten(187),
            !first ==> v * decimal::ten((38 - e) as nat) == q@ * decimal::ten(187) + r@ && r@
                < decimal::ten(187),
            forall|d2: nat, e2: int|
                e2 >= e ==> #[trigger] decimal::decimal_pattern(d2, e2) != b,
        decreases e + 149,
    {
        if !first {
            r = r.scaled(10, 0);
        }
        let ghost full = r@;
        let ghost old_q = q@;
        let ghost old_e = e as int;
        let mut digit: u32 = 0;
        let mut below: bool = false;
        while !below
            invariant
                whole@ == decimal::ten(187),
                decimal::ten(187) > 0,
                full < 10 * decimal::ten(187),
                digit <= 9,
                full == digit * decimal::ten(187) + r@,
                below ==> r@ < decimal::ten(187),
            decreases r@ + (if below { 0nat } else { 1nat }),
        {
            match r.against(&whole) {
                Order::Less => {
                    below = true;
                },
                _ => {
                    proof {
                        let w = decimal::ten(187) as int;
                        assert(digit < 9) by (nonlinear_arith)
                            requires
                                full < 10 * w,
                                full == digit * w + r@,
                                r@ >= w,
                                w > 0,
                        ;
                        assert((digit + 1) * w == digit * w + w) by (nonlinear_arith);
                    }
                    r = r.less(&whole);
                    digit = digit + 1;
                },
            }
        }
        q = q.scaled(10, digit);
        e = e - 1;
        let ghost k = (38 - e) as nat;
        proof {
            let w = decimal::ten(187) as int;
            if first {
                assert(decimal::ten(k) == 1);
                assert(q@ == digit);
            } else {
                let t = decimal::ten((k - 1) as nat) as int;
                assert(v * (10 * t) == (old_q * 10 + digit) * w + r@) by (nonlinear_arith)
                    requires
                        v * t * 10 == (old_q * w) * 10 + full,
                        full == digit * w + r@,
                ;
                assert(v * t * 10 == (old_q * w) * 10 + full) by (nonlinear_arith)
                    requires
                        10 * (v * t) == 10 * (old_q * w) + full,
                ;
            }
            assert(v * decimal::ten(k) == q@ * w + r@);
            // Back to the scale of 10^(149 + e).
            decimal::lemma_ten_adds((149 + e) as nat, k);
            decimal::lemma_ten_positive(k);
            let te = decimal::ten((149 + e) as nat) as int;
            let tk = decimal::ten(k) as int;
            assert(q@ * te <= v && (q@ + 1) * te > v) by (nonlinear_arith)
                requires
                    v * tk == q@ * w + r@,
                    0 <= r@ < w,
                    w == te * tk,
                    tk > 0,
            ;
            lemma_neighbours(b as nat, e as int, q@);
            // 2 r against w decides which neighbour is closer.
            assert((2 * r@ >= w) == (2 * v >= (2 * q@ + 1) * te)) by (nonlinear_arith)
                requires
                    v * tk == q@ * w + r@,
                    w == te * tk,
                    tk > 0,
            ;
            assert((2 * q@ + 1) * te == q@ * te + (q@ + 1) * te) by (nonlinear_arith);
        }
        first = false;
        let down: bool = reads_as(&q, e, b);
        let above: Natural = q.scaled(1, 1);
        let up: bool = reads_as(&above, e, b);
        if down || up {
            let half: bool = match r.scaled(2, 0).against(&whole) {
                Order::Less => false,
                _ => true,
            };
            if up && (!down || half) {
                proof {
                    lemma_chosen(b as nat, e as int, q@, q@ + 1);
                    lemma_short_form(b as nat, q@ + 1, e as int);
                }
                return (above, e);
            }
            proof {
                lemma_chosen(b as nat, e as int, q@, q@);
                lemma_short_form(b as nat, q@, e as int);
            }
            return (q, e);
        }
        proof {
            assert forall|d2: nat, e2: int| e2 >= e implies #[trigger] decimal::decimal_pattern(d2, e2)
                != b by {
                if e2 == e {
                    if d2 <= q@ {
                    } else {
                    }
                } else {
                    assert(e2 >= old_e);
                }
            }
            if e == -149 {
                assert(decimal::ten(0) == 1);
                lemma_exact_form(b as nat);
                assert(decimal::decimal_pattern(v, -149) == b);
            }
        }
    }
}

/// The closer one of the two neighbours that read as `b` is the form looked
/// for.
proof fn lemma_chosen(b: nat, e: int, q: nat, d: nat)
    requires
        -149 <= e <= 38,
        b <= INFINITY,
        d == q || d == q + 1,
        decimal::decimal_pattern(d, e) == b,
        q * decimal::ten((149 + e) as nat) <= single::magnitude(b) * decimal::five(149),
        (q + 1) * decimal::ten((149 + e) as nat) >= single::magnitude(b) * decimal::five(149),
        d == q ==> decimal::decimal_pattern(q + 1, e) != b || gap(q, e, b) < gap(q + 1, e, b),
        d == q + 1 ==> decimal::decimal_pattern(q, e) != b || gap(q + 1, e, b) <= gap(q, e, b),
        forall|d2: nat, e2: int| e2 > e ==> #[trigger] decimal::decimal_pattern(d2, e2) != b,
    ensures
        shortest(b, d, e),
{
    lemma_neighbours(b, e, q);
    assert forall|d2: nat| #[trigger] decimal::decimal_pattern(d2, e) == b implies gap(d, e, b) < gap(
        d2,
        e,
        b,
    ) || (gap(d, e, b) == gap(d2, e, b) && d2 <= d) by {
        lemma_gap_order(b, e, q, d2);
    }
}

/// With all its decimals a number reads as itself.
proof fn lemma_exact_form(b: nat)
    requires
        b <= INFINITY,
    ensures
        decimal::decimal_pattern(single::magnitude(b) * decimal::five(149), -149) == b,
{
    let v = single::magnitude(b) * decimal::five(149);
    assert(decimal::ten(0) == 1);
    lemma_against(v, -149, b);
}

/// Every finite number other than zero has a shortest form.
pub proof fn lemma_short_form_exists(b: nat)
    requires
        0 < b < INFINITY,
    ensures
        shortest(b, short_form(b).0, short_form(b).1),
{
    assert forall|d2: nat, e2: int| e2 > 38 implies #[trigger] decimal::decimal_pattern(d2, e2) != b by {
        lemma_no_high_power(d2, e2, b);
    }
    lemma_short_form_from(b, 38);
}

proof fn lemma_short_form_from(b: nat, e: int)
    requires
        0 < b < INFINITY,
        -149 <= e <= 38,
        forall|d2: nat, e2: int| e2 > e ==> #[trigger] decimal::decimal_pattern(d2, e2) != b,
    ensures
        shortest(b, short_form(b).0, short_form(b).1),
    decreases e + 149,
{
    let v = single::magnitude(b) * decimal::five(149);
    let t = decimal::ten((149 + e) as nat);
    decimal::lemma_ten_positive((149 + e) as nat);
    let q = v / t;
    vstd::arithmetic::div_mod::lemma_fundamental_div_mod(v as int, t as int);
    lemma_mul_is_commutative(t as int, q as int);
    assert((q + 1) * t == q * t + t) by (nonlinear_arith);
    assert(q * t <= v && (q + 1) * t >= v);
    lemma_neighbours(b, e, q);
    let down = decimal::decimal_pattern(q, e) == b;
    let up = decimal::decimal_pattern(q + 1, e) == b;
    if up && (!down || gap(q + 1, e, b) <= gap(q, e, b)) {
        lemma_chosen(b, e, q, q + 1);
        lemma_short_form(b, q + 1, e);
    } else if down {
        lemma_chosen(b, e, q, q);
        lemma_short_form(b, q, e);
    } else {
        assert forall|d2: nat, e2: int| e2 > e - 1 implies #[trigger] decimal::decimal_pattern(d2, e2)
            != b by {
            if e2 == e && d2 <= q {
            }
        }
        if e == -149 {
            lemma_exact_form(b);
            assert(decimal::decimal_pattern(v, -149) == b);
        } else {
            lemma_short_form_from(b, e - 1);
        }
    }
}

/// A row of digits with a point before the last `after` of them.
spec fn plain(s: Seq<char>, whole: Seq<char>, part: Seq<char>) -> bool {
    &&& text::all_digits(whole)
    &&& text::all_digits(part)
    &&& whole.len() > 0
    &&& s == whole + seq!['.'] + part || (part.len() == 0 && s == whole)
}

/// What such a row is read as.
proof fn lemma_plain_value(s: Seq<char>, whole: Seq<char>, part: Seq<char>, negative: bool)
    requires
        plain(s, whole, part),
    ensures
        decimal::written(if negative {
            "-"@ + s
        } else {
            s
        }) == Some(
            single::signed(
                negative,
                decimal::decimal_pattern(text::numeral(whole + part), -(part.len() as int)),
            ),
        ),
{
    let all = if negative {
        "-"@ + s
    } else {
        s
    };
    reveal_strlit("-");
    reveal_strlit("inf");
    reveal_strlit("infinity");
    reveal_strlit("nan");
    assert(text::digit(whole[0]));
    assert(s[0] == whole[0]);
    if negative {
        assert(all.drop_first() == s);
    }
    assert(decimal::unsigned_part(all) == s);
    assert(text::lowered(s)[0] == s[0]);
    assert(text::lowered("inf"@)[0] == 'i');
    assert(text::lowered("infinity"@)[0] == 'i');
    assert(text::lowered("nan"@)[0] == 'n');
    let w = whole.len() as int;
    assert forall|i: int| 0 <= i < s.len() implies s[i] != 'e' && s[i] != 'E' by {
        if i < w {
            assert(text::digit(whole[i]));
        } else if i > w {
            assert(s[i] == part[i - w - 1]);
            assert(text::digit(part[i - w - 1]));
        }
    }
    text::lemma_run(s, 'e', 'E', s.len());
    assert(s.take(s.len() as int) == s);
    assert forall|i: int| 0 <= i < w implies s[i] != '.' by {
        assert(text::digit(whole[i]));
    }
    text::lemma_run(s, '.', '.', w as nat);
    assert(s.take(w) == whole);
    if s.len() > w {
        assert(s.skip(w + 1) == part);
    } else {
        assert(part == Seq::<char>::empty());
        assert(whole + part == whole);
    }
}

proof fn lemma_zeros_after(s: Seq<char>, n: nat)
    requires
        text::all_digits(s),
    ensures
        text::all_digits(s + zeros(n)),
        text::numeral(s + zeros(n)) == text::numeral(s) * decimal::ten(n),
    decreases n,
{
    let t = s + zeros(n);
    if n == 0 {
        assert(t == s);
    } else {
        lemma_zeros_after(s, (n - 1) as nat);
        assert(t.drop_last() == s + zeros((n - 1) as nat));
        assert(t.last() == '0');
        let x = text::numeral(s) as int;
        let y = decimal::ten((n - 1) as nat) as int;
        assert(10 * (x * y) == x * (10 * y)) by (nonlinear_arith);
        assert forall|i: int| 0 <= i < t.len() implies text::digit(#[trigger] t[i]) by {
            if i < s.len() {
                assert(t[i] == s[i]);
            }
        }
    }
}

proof fn lemma_zeros_before(s: Seq<char>, n: nat)
    requires
        text::all_digits(s),
    ensures
        text::all_digits(zeros(n) + s),
        text::numeral(zeros(n) + s) == text::numeral(s),
{
    let t = zeros(n) + s;
    decimal::lemma_numeral_zeros(t, n as int);
    assert(t.skip(n as int) == s);
    assert forall|i: int| 0 <= i < t.len() implies text::digit(#[trigger] t[i]) by {
        if i >= n {
            assert(t[i] == s[i - n]);
        }
    }
}

/// A number reads back from what is written for it, be it infinite.
pub proof fn lemma_written_shown(x: Single)
    requires
        !x.nan(),
    ensures
        decimal::written(shown(x)) == Some(x),
{
    let b = x.pattern();
    let none = Seq::<char>::empty();
    assert(single::signed(x.negative(), b) == x);
    if b == INFINITY {
        reveal_strlit("inf");
        reveal_strlit("-");
        assert(shown(x)[0] == if x.negative() { '-' } else { 'i' });
        assert(decimal::unsigned_part(shown(x)) =~= "inf"@);
    } else if b == 0 {
        reveal_strlit("0");
        let s = "0"@;
        assert(text::all_digits(s));
        assert(plain(s, s, none));
        lemma_plain_value(s, s, none, x.negative());
        assert(s + none == s);
        assert(s.drop_last() == none);
        assert(s.last() == '0');
        assert(text::numeral(none) == 0);
        assert(text::numeral(s) == 0);
        decimal::lemma_underflow(0, 1);
        single::lemma_nearest(0, 1, 0);
    } else {
        lemma_short_form_exists(b);
        let (d, e) = short_form(b);
        let s = text::decimal(d);
        text::lemma_decimal(d);
        let n = -e;
        if e >= 0 {
            lemma_zeros_after(s, e as nat);
            let t = s + zeros(e as nat);
            assert(plain(t, t, none));
            lemma_plain_value(t, t, none, x.negative());
            assert(t + none == t);
            assert(decimal::ten(0) == 1);
            assert(decimal::decimal_pattern(d * decimal::ten(e as nat), 0) == b);
        } else if s.len() > n {
            let whole = s.take(s.len() - n);
            let part = s.skip(s.len() - n);
            assert(plain(placed(d, e), whole, part));
            lemma_plain_value(placed(d, e), whole, part, x.negative());
            assert(whole + part == s);
        } else {
            let whole = seq!['0'];
            let part = zeros((n - s.len()) as nat) + s;
            lemma_zeros_before(s, (n - s.len()) as nat);
            assert(placed(d, e) == whole + seq!['.'] + part);
            assert(plain(placed(d, e), whole, part));
            lemma_plain_value(placed(d, e), whole, part, x.negative());
            let k = (n - s.len() + 1) as nat;
            assert(whole + part == zeros(k) + s);
            lemma_zeros_before(s, k);
        }
    }
}

/// A finite number is written with digits, at most with a point and a sign.
pub proof fn lemma_shown_characters(x: Single)
    requires
        x.finite(),
    ensures
        shown(x).len() > 0,
        forall|i: int|
            0 <= i < shown(x).len() ==> text::digit(#[trigger] shown(x)[i]) || shown(x)[i] == '.'
                || shown(x)[i] == '-',
        !x.negative() ==> text::digit(shown(x)[0]),
        text::digit(shown(x).last()),
{
    let b = x.pattern();
    reveal_strlit("0");
    reveal_strlit("-");
    if b != 0 {
        lemma_short_form_exists(b);
        let (d, e) = short_form(b);
        text::lemma_decimal(d);
        let s = text::decimal(d);
        let p = placed(d, e);
        assert(text::digit('0'));
        if e >= 0 {
            assert(forall|i: int| 0 <= i < p.len() ==> p[i] == s[i] || p[i] == '0');
            assert(p[0] == s[0]);
        } else if s.len() > -e {
            let k = s.len() + e;
            assert(p.last() == s.last());
            assert(forall|i: int| 0 <= i < k ==> p[i] == s[i]);
            assert(p[k] == '.');
            assert(forall|i: int| k < i < p.len() ==> p[i] == s[i - 1]);
        } else {
            let k = 2 + (-e - s.len());
            assert(p.last() == s.last());
            assert(forall|i: int| 2 <= i < k ==> p[i] == '0');
            assert(forall|i: int| k <= i < p.len() ==> p[i] == s[i - k]);
        }
    }
}

/// `n` in decimal.
fn write_natural(n: Natural) -> (r: Vec<char>)
    ensures
        r@ == text::decimal(n@),
    decreases n@,
{
    let (rest, last) = n.tenth();
    let c: char = (last as u8 + 48) as char;
    match n.against(&Natural::from_u64(10)) {
        Order::Less => {
            let mut out: Vec<char> = Vec::new();
            out.push(c);
            assert(out@ == text::decimal(n@));
            out
        },
        _ => {
            let mut out: Vec<char> = write_natural(rest);
            out.push(c);
            out
        },
    }
}

/// Puts `n` zeros at the end of `out`.
fn append_zeros(out: &mut Vec<char>, n: usize)
    ensures
        final(out)@ == old(out)@ + zeros(n as nat),
{
    let mut i: usize = 0;
    assert(old(out)@ + zeros(0) == old(out)@);
    while i < n
        invariant
            i <= n,
            out@ == old(out)@ + zeros(i as nat),
        decreases n - i,
    {
        out.push('0');
        i = i + 1;
        assert(out@ == old(out)@ + zeros(i as nat));
    }
}

/// `d * 10^e` without an exponent.
fn place(d: Natural, e: i32) -> (r: Vec<char>)
    requires
        -149 <= e <= 38,
    ensures
        r@ == placed(d@, e as int),
{
    let s: Vec<char> = write_natural(d);
    if e >= 0 {
        let mut out: Vec<char> = s;
        append_zeros(&mut out, e as usize);
        out
    } else {
        let n: usize = (-e) as usize;
        if s.len() > n {
            let k: usize = s.len() - n;
            let mut out: Vec<char> = text::copied(vstd::slice::slice_subrange(s.as_slice(), 0, k));
            assert(out@ == s@.take(k as int));
            out.push('.');
            text::append(&mut out, vstd::slice::slice_subrange(s.as_slice(), k, s.len()));
            assert(s@.subrange(k as int, s@.len() as int) == s@.skip(k as int));
            assert(out@ == s@.take(k as int) + seq!['.'] + s@.skip(k as int));
            out
        } else {
            let mut out: Vec<char> = Vec::new();
            out.push('0');
            out.push('.');
            assert(out@ == seq!['0', '.']);
            append_zeros(&mut out, n - s.len());
            text::append(&mut out, s.as_slice());
            out
        }
    }
}

impl Single {
    /// The number in decimal notation.
    pub fn show(self) -> (r: Vec<char>)
        ensures
            r@ == shown(self),
    {
        if self.is_nan() {
            return text::chars_of("NaN");
        }
        let mut out: Vec<char> = Vec::new();
        if self.is_negative() {
            text::append_text(&mut out, "-");
        }
        let ghost sign = out@;
        let b: u32 = self.bits % SIGN;
        if b == INFINITY {
            text::append_text(&mut out, "inf");
        } else if b == 0 {
            text::append_text(&mut out, "0");
        } else {
            let (d, e) = find_short_form(b);
            let s: Vec<char> = place(d, e);
            text::append(&mut out, s.as_slice());
        }
        proof {
            assert(out@ == sign + pattern_text(b as nat));
            assert(Seq::<char>::empty() + "-"@ == "-"@);
            assert(Seq::<char>::empty() + pattern_text(b as nat) == pattern_text(b as nat));
        }
        out
    }
}

} // verus!

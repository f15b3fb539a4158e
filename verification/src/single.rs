//! Single precision numbers (IEEE 754 binary32), kept as bit patterns.
//!
//! Settings such as aspect ratios, divisors and shader parameters travel as
//! single precision numbers. Here each of them has a meaning: a finite one is
//! an integer number of units, a unit being `2^-149`, the smallest positive
//! value. Every operation is stated by the exact result and the rounding rule
//! (to nearest, ties to even), so a contract can say which pixel a size ends
//! on.

use crate::natural::{Natural, Order};
use vstd::arithmetic::div_mod::*;
use vstd::arithmetic::mul::*;
use vstd::arithmetic::power2::*;
use vstd::prelude::*;

verus! {

broadcast use group_mul_basics;

/// Bits of positive infinity; larger patterns without a sign are not numbers.
pub const INFINITY: u32 = 0x7f80_0000;

/// Weight of the sign bit.
pub const SIGN: u32 = 0x8000_0000;

/// A single precision number.
#[derive(Clone, Copy, PartialEq, Eq, Debug, Structural)]
pub struct Single {
    pub bits: u32,
}

/// Significand of the pattern `b` (sign left out), as an integer.
pub open spec fn significand(b: nat) -> nat {
    if b / 0x80_0000 == 0 {
        b
    } else {
        0x80_0000 + b % 0x80_0000
    }
}

/// Power of two that the significand of `b` is multiplied by, in units.
pub open spec fn shift(b: nat) -> nat {
    if b / 0x80_0000 == 0 {
        0
    } else {
        (b / 0x80_0000 - 1) as nat
    }
}

/// Absolute value of the pattern `b` in units. Infinity counts as the value
/// that would follow the largest finite one.
pub open spec fn magnitude(b: nat) -> nat {
    significand(b) * pow2(shift(b))
}

/// Whether `num / den` lies beyond the middle of `b` and its successor, or on
/// it when the tie goes to the successor.
pub open spec fn past(num: nat, den: nat, b: nat) -> bool {
    let middle = (magnitude(b) + magnitude(b + 1)) * den;
    2 * num > middle || (2 * num == middle && b % 2 == 1)
}

/// `b` is the pattern closest to `num / den` units, the even one on a tie.
pub open spec fn rounds_to(num: nat, den: nat, b: nat) -> bool {
    &&& b <= INFINITY
    &&& b == 0 || past(num, den, (b - 1) as nat)
    &&& b == INFINITY || !past(num, den, b)
}

/// The pattern closest to `num / den` units.
pub open spec fn nearest(num: nat, den: nat) -> nat {
    choose|b: nat| rounds_to(num, den, b)
}

/// The number of pattern `b` with the given sign.
pub open spec fn signed(negative: bool, b: nat) -> Single {
    Single {
        bits: (if negative {
            b + SIGN
        } else {
            b as int
        }) as u32,
    }
}

/// What an operation without a result gives.
pub open spec fn not_a_number() -> Single {
    Single { bits: 0x7fc0_0000 }
}

impl Single {
    pub open spec fn negative(self) -> bool {
        self.bits >= SIGN
    }

    /// The pattern without its sign.
    pub open spec fn pattern(self) -> nat {
        (self.bits % SIGN) as nat
    }

    pub open spec fn nan(self) -> bool {
        self.pattern() > INFINITY
    }

    pub open spec fn infinite(self) -> bool {
        self.pattern() == INFINITY
    }

    pub open spec fn finite(self) -> bool {
        self.pattern() < INFINITY
    }

    /// Absolute value in units.
    pub open spec fn size(self) -> nat {
        magnitude(self.pattern())
    }

    /// Value in units.
    pub open spec fn units(self) -> int {
        if self.negative() {
            -self.size()
        } else {
            self.size() as int
        }
    }

    pub open spec fn before(self, other: Single) -> bool {
        !self.nan() && !other.nan() && self.units() < other.units()
    }

    pub open spec fn up_to(self, other: Single) -> bool {
        !self.nan() && !other.nan() && self.units() <= other.units()
    }
}

/// One, in units.
pub open spec fn one_in_units() -> nat {
    pow2(149)
}

/// The integer `n`, rounded.
pub open spec fn of_integer(n: nat) -> Single {
    signed(false, nearest(n * one_in_units(), 1))
}

/// The fraction `n / d`, rounded.
pub open spec fn of_fraction(n: nat, d: nat) -> Single {
    signed(false, nearest(n * one_in_units(), d))
}

/// `a * b`, rounded.
pub open spec fn product(a: Single, b: Single) -> Single {
    let negative = a.negative() != b.negative();
    if a.nan() || b.nan() {
        not_a_number()
    } else if a.infinite() || b.infinite() {
        if a.size() == 0 || b.size() == 0 {
            not_a_number()
        } else {
            signed(negative, INFINITY as nat)
        }
    } else {
        signed(negative, nearest(a.size() * b.size(), one_in_units()))
    }
}

/// `a / b`, rounded.
pub open spec fn quotient(a: Single, b: Single) -> Single {
    let negative = a.negative() != b.negative();
    if a.nan() || b.nan() || (a.infinite() && b.infinite()) || (a.size() == 0 && b.size() == 0) {
        not_a_number()
    } else if a.infinite() || b.size() == 0 {
        signed(negative, INFINITY as nat)
    } else if b.infinite() {
        signed(negative, 0)
    } else {
        signed(negative, nearest(a.size() * one_in_units(), b.size()))
    }
}

/// `a - b`, rounded.
pub open spec fn difference(a: Single, b: Single) -> Single {
    let exact = a.units() - b.units();
    if a.nan() || b.nan() || (a.infinite() && b.infinite() && a.negative() == b.negative()) {
        not_a_number()
    } else if a.infinite() {
        a
    } else if b.infinite() {
        signed(!b.negative(), INFINITY as nat)
    } else if exact < 0 {
        signed(true, nearest((-exact) as nat, 1))
    } else if exact > 0 {
        signed(false, nearest(exact as nat, 1))
    } else {
        signed(a.negative() && !b.negative(), 0)
    }
}

/// The larger one; a number wins over what is not one.
pub open spec fn larger(a: Single, b: Single) -> Single {
    if a.nan() || a.before(b) {
        b
    } else {
        a
    }
}

/// The smaller one; a number wins over what is not one.
pub open spec fn smaller(a: Single, b: Single) -> Single {
    if a.nan() || b.before(a) {
        b
    } else {
        a
    }
}

/// `x` moved into `lo..=hi`; what is not a number stays.
pub open spec fn confined(x: Single, lo: Single, hi: Single) -> Single {
    if x.before(lo) {
        lo
    } else if hi.before(x) {
        hi
    } else {
        x
    }
}

/// Two numbers of the same value.
pub open spec fn equal(a: Single, b: Single) -> bool {
    a.up_to(b) && b.up_to(a)
}

/// The same number without its sign.
pub open spec fn absolute(a: Single) -> Single {
    signed(false, a.pattern())
}

/// `size` units rounded to an integer, halves away from zero.
pub open spec fn rounded_size(size: nat) -> nat {
    (2 * size + pow2(149)) / pow2(150)
}

/// Closest integer, halves away from zero; zero for what is not a number.
pub open spec fn rounded(a: Single) -> int {
    if a.nan() {
        0
    } else if a.negative() {
        -rounded_size(a.size())
    } else {
        rounded_size(a.size()) as int
    }
}

/// `x` moved into `lo..=hi`.
pub open spec fn clamped(x: int, lo: int, hi: int) -> int {
    if x < lo {
        lo
    } else if x > hi {
        hi
    } else {
        x
    }
}

/// The middle of two neighbours is an odd multiple of half their gap.
pub proof fn lemma_middle(b: nat)
    ensures
        magnitude(b) + magnitude(b + 1) == (2 * significand(b) + 1) * pow2(shift(b)),
        magnitude(b) < magnitude(b + 1),
{
    let e = b / 0x80_0000;
    let f = b % 0x80_0000;
    let p = pow2(shift(b)) as int;
    let m = significand(b) as int;
    lemma_pow2_pos(shift(b));
    if f == 0x80_0000 - 1 {
        assert((b + 1) / 0x80_0000 == e + 1 && (b + 1) % 0x80_0000 == 0);
        assert(significand(b + 1) == 0x80_0000);
        if e == 0 {
            assert(shift(b + 1) == 0);
        } else {
            lemma_pow2_unfold(e as nat);
            assert(pow2(shift(b + 1)) == 2 * p);
            assert(0x80_0000 * (2 * p) == (m + 1) * p) by (nonlinear_arith)
                requires
                    m == 0x100_0000 - 1,
            ;
        }
        assert(magnitude(b + 1) == (m + 1) * p);
    } else {
        assert((b + 1) / 0x80_0000 == e && (b + 1) % 0x80_0000 == f + 1);
        assert(significand(b + 1) == m + 1);
    }
    assert(m * p + (m + 1) * p == (2 * m + 1) * p && m * p + p == (m + 1) * p) by (nonlinear_arith);
}

/// Patterns are ordered as the values they stand for.
pub proof fn lemma_magnitude_increases(a: nat, b: nat)
    requires
        a <= b,
    ensures
        magnitude(a) <= magnitude(b),
        a < b ==> magnitude(a) < magnitude(b),
    decreases b - a,
{
    if a < b {
        lemma_magnitude_increases(a, (b - 1) as nat);
        lemma_middle((b - 1) as nat);
    }
}

/// What lies past a pattern lies past the smaller ones, and stays past it
/// when it grows.
proof fn lemma_past_order(num: nat, den: nat, num2: nat, den2: nat, a: nat, b: nat)
    requires
        a <= b,
        den > 0,
        den2 > 0,
        num * den2 <= num2 * den,
        past(num, den, b),
    ensures
        past(num2, den2, a),
{
    let ma = (magnitude(a) + magnitude(a + 1)) as int;
    let mb = (magnitude(b) + magnitude(b + 1)) as int;
    lemma_magnitude_increases(a, b);
    lemma_magnitude_increases(a + 1, b + 1);
    // 2 num >= mb den and num / den <= num2 / den2, so 2 num2 >= mb den2.
    assert(2 * num2 >= mb * den2) by (nonlinear_arith)
        requires
            2 * num >= mb * den,
            num * den2 <= num2 * den,
            den > 0,
            den2 > 0,
    ;
    if a < b {
        assert(2 * num2 > ma * den2) by (nonlinear_arith)
            requires
                2 * num2 >= mb * den2,
                mb > ma,
                den2 > 0,
        ;
    } else if 2 * num > mb * den {
        assert(2 * num2 > mb * den2) by (nonlinear_arith)
            requires
                2 * num > mb * den,
                num * den2 <= num2 * den,
                den > 0,
                den2 > 0,
        ;
    }
}

/// Rounding keeps the order of what it rounds.
pub proof fn lemma_rounding_monotone(num: nat, den: nat, b: nat, num2: nat, den2: nat, b2: nat)
    requires
        den > 0,
        den2 > 0,
        num * den2 <= num2 * den,
        rounds_to(num, den, b),
        rounds_to(num2, den2, b2),
    ensures
        b <= b2,
{
    if b2 < b {
        lemma_past_order(num, den, num2, den2, b2, (b - 1) as nat);
    }
}

/// There is a closest pattern.
pub proof fn lemma_nearest_exists(num: nat, den: nat)
    requires
        den > 0,
    ensures
        rounds_to(num, den, nearest(num, den)),
{
    lemma_nearest_from(num, den, 0);
}

proof fn lemma_nearest_from(num: nat, den: nat, b: nat)
    requires
        b <= INFINITY,
        b == 0 || past(num, den, (b - 1) as nat),
    ensures
        exists|c: nat| rounds_to(num, den, c),
    decreases INFINITY - b,
{
    if b == INFINITY || !past(num, den, b) {
        assert(rounds_to(num, den, b));
    } else {
        lemma_nearest_from(num, den, b + 1);
    }
}

/// There is one closest pattern.
pub proof fn lemma_nearest(num: nat, den: nat, b: nat)
    requires
        den > 0,
        rounds_to(num, den, b),
    ensures
        nearest(num, den) == b,
{
    let c = nearest(num, den);
    assert(rounds_to(num, den, c));
    lemma_rounding_monotone(num, den, b, num, den, c);
    lemma_rounding_monotone(num, den, c, num, den, b);
}

/// A value that has a pattern rounds to that pattern.
pub proof fn lemma_nearest_exact(den: nat, b: nat)
    requires
        den > 0,
        b <= INFINITY,
    ensures
        rounds_to(magnitude(b) * den, den, b),
        nearest(magnitude(b) * den, den) == b,
{
    let num = magnitude(b) * den;
    lemma_middle(b);
    assert(2 * num < (magnitude(b) + magnitude(b + 1)) * den) by (nonlinear_arith)
        requires
            num == magnitude(b) * den,
            magnitude(b) < magnitude(b + 1),
            den > 0,
    ;
    if b > 0 {
        let a = (b - 1) as nat;
        lemma_middle(a);
        assert(2 * num > (magnitude(a) + magnitude(b)) * den) by (nonlinear_arith)
            requires
                num == magnitude(b) * den,
                magnitude(a) < magnitude(b),
                den > 0,
        ;
    }
    lemma_nearest(num, den, b);
}

/// The significand of `b`.
fn significand_of(b: u32) -> (r: u32)
    requires
        b <= INFINITY,
    ensures
        r == significand(b as nat),
        r < 0x100_0000,
{
    if b / 0x80_0000 == 0 {
        b
    } else {
        0x80_0000 + b % 0x80_0000
    }
}

/// The power of two that goes with it.
fn shift_of(b: u32) -> (r: u32)
    requires
        b <= INFINITY,
    ensures
        r == shift(b as nat),
        r <= 254,
{
    if b / 0x80_0000 == 0 {
        0
    } else {
        b / 0x80_0000 - 1
    }
}

/// The pattern closest to `num / den` units.
pub fn nearest_pattern(num: &Natural, den: &Natural) -> (r: u32)
    requires
        den@ > 0,
    ensures
        rounds_to(num@, den@, r as nat),
        r == nearest(num@, den@),
{
    let twice: Natural = num.scaled(2, 0);
    let mut lo: u32 = 0;
    let mut hi: u32 = INFINITY;
    while lo < hi
        invariant
            lo <= hi <= INFINITY,
            den@ > 0,
            twice@ == 2 * num@,
            lo == 0 || past(num@, den@, (lo - 1) as nat),
            hi == INFINITY || !past(num@, den@, hi as nat),
        decreases hi - lo,
    {
        let mid: u32 = lo + (hi - lo) / 2;
        let m: u32 = significand_of(mid);
        let s: u32 = shift_of(mid);
        let odd: Natural = den.scaled(2 * m + 1, 0);
        let middle: Natural = odd.shifted(s);
        proof {
            lemma_middle(mid as nat);
            let p = pow2(s as nat) as int;
            let d = den@ as int;
            assert(d * (2 * m + 1) * p == (2 * m + 1) * p * d) by (nonlinear_arith);
        }
        let o: Order = twice.against(&middle);
        let beyond: bool = match o {
            Order::Greater => true,
            Order::Equal => mid % 2 == 1,
            Order::Less => false,
        };
        if beyond {
            lo = mid + 1;
        } else {
            hi = mid;
        }
    }
    proof {
        lemma_nearest(num@, den@, lo as nat);
    }
    lo
}

impl Single {
    /// The number with the given bit pattern.
    pub fn from_bits(bits: u32) -> (r: Single)
        ensures
            r.bits == bits,
    {
        Single { bits }
    }

    fn pattern_of(self) -> (r: u32)
        ensures
            r == self.pattern(),
            r < SIGN,
    {
        self.bits % SIGN
    }

    pub fn is_negative(self) -> (r: bool)
        ensures
            r == self.negative(),
    {
        self.bits >= SIGN
    }

    pub fn is_nan(self) -> (r: bool)
        ensures
            r == self.nan(),
    {
        self.bits % SIGN > INFINITY
    }

    pub fn is_infinite(self) -> (r: bool)
        ensures
            r == self.infinite(),
    {
        self.bits % SIGN == INFINITY
    }

    pub fn is_finite(self) -> (r: bool)
        ensures
            r == self.finite(),
    {
        self.bits % SIGN < INFINITY
    }

    fn with_sign(negative: bool, b: u32) -> (r: Single)
        requires
            b <= INFINITY,
        ensures
            r == signed(negative, b as nat),
    {
        if negative {
            Single { bits: b + SIGN }
        } else {
            Single { bits: b }
        }
    }

    fn nothing() -> (r: Single)
        ensures
            r == not_a_number(),
    {
        Single { bits: 0x7fc0_0000 }
    }

    /// Absolute value in units.
    pub(crate) fn natural(self) -> (r: Natural)
        requires
            self.finite(),
        ensures
            r@ == self.size(),
    {
        let b: u32 = self.pattern_of();
        Natural::from_u64(significand_of(b) as u64).shifted(shift_of(b))
    }

    fn is_zero(self) -> (r: bool)
        ensures
            r == (self.size() == 0),
    {
        proof {
            lemma_magnitude_increases(0, self.pattern());
        }
        self.bits % SIGN == 0
    }

    /// `n`, rounded.
    pub fn of_u32(n: u32) -> (r: Single)
        ensures
            r == of_integer(n as nat),
    {
        let num: Natural = Natural::from_u64(n as u64).shifted(149);
        let den: Natural = Natural::from_u64(1);
        Single::with_sign(false, nearest_pattern(&num, &den))
    }

    /// The fraction `n / d`, rounded.
    pub fn fraction(n: u32, d: u32) -> (r: Single)
        requires
            d > 0,
        ensures
            r == of_fraction(n as nat, d as nat),
    {
        let num: Natural = Natural::from_u64(n as u64).shifted(149);
        let den: Natural = Natural::from_u64(d as u64);
        Single::with_sign(false, nearest_pattern(&num, &den))
    }

    /// `self * other`, rounded.
    pub fn times(self, other: Single) -> (r: Single)
        ensures
            r == product(self, other),
    {
        let negative: bool = self.is_negative() != other.is_negative();
        if self.is_nan() || other.is_nan() {
            return Single::nothing();
        }
        if self.is_infinite() || other.is_infinite() {
            if self.is_zero() || other.is_zero() {
                return Single::nothing();
            }
            return Single::with_sign(negative, INFINITY);
        }
        let a: u32 = self.pattern_of();
        let b: u32 = other.pattern_of();
        let ma: u32 = significand_of(a);
        let mb: u32 = significand_of(b);
        let sa: u32 = shift_of(a);
        let sb: u32 = shift_of(b);
        assert(ma * mb < 0x1_0000_0000_0000) by (nonlinear_arith)
            requires
                ma < 0x100_0000,
                mb < 0x100_0000,
        ;
        let num: Natural = Natural::from_u64(ma as u64 * mb as u64).shifted(sa + sb);
        let den: Natural = Natural::from_u64(1).shifted(149);
        proof {
            lemma_pow2_adds(sa as nat, sb as nat);
            lemma_pow2_pos(149);
            let p = pow2(sa as nat) as int;
            let q = pow2(sb as nat) as int;
            assert((ma * mb) * (p * q) == (ma * p) * (mb * q)) by (nonlinear_arith);
        }
        Single::with_sign(negative, nearest_pattern(&num, &den))
    }

    /// `self / other`, rounded.
    pub fn over(self, other: Single) -> (r: Single)
        ensures
            r == quotient(self, other),
    {
        let negative: bool = self.is_negative() != other.is_negative();
        if self.is_nan() || other.is_nan() || (self.is_infinite() && other.is_infinite()) || (
        self.is_zero() && other.is_zero()) {
            return Single::nothing();
        }
        if self.is_infinite() || other.is_zero() {
            return Single::with_sign(negative, INFINITY);
        }
        if other.is_infinite() {
            return Single::with_sign(negative, 0);
        }
        let num: Natural = self.natural().shifted(149);
        let den: Natural = other.natural();
        Single::with_sign(negative, nearest_pattern(&num, &den))
    }

    /// `self - other`, rounded.
    pub fn minus(self, other: Single) -> (r: Single)
        ensures
            r == difference(self, other),
    {
        if self.is_nan() || other.is_nan() || (self.is_infinite() && other.is_infinite()
            && self.is_negative() == other.is_negative()) {
            return Single::nothing();
        }
        if self.is_infinite() {
            return self;
        }
        if other.is_infinite() {
            return Single::with_sign(!other.is_negative(), INFINITY);
        }
        let a: Natural = self.natural();
        let b: Natural = other.natural();
        let one: Natural = Natural::from_u64(1);
        if self.is_negative() == other.is_negative() {
            match a.against(&b) {
                Order::Greater => {
                    let d: Natural = a.less(&b);
                    Single::with_sign(self.is_negative(), nearest_pattern(&d, &one))
                },
                Order::Less => {
                    let d: Natural = b.less(&a);
                    Single::with_sign(!self.is_negative(), nearest_pattern(&d, &one))
                },
                Order::Equal => Single::with_sign(false, 0),
            }
        } else {
            // Opposite signs: the sizes add up.
            let sum: Natural = a.plus(&b);
            if self.is_zero() && other.is_zero() {
                Single::with_sign(self.is_negative(), 0)
            } else {
                Single::with_sign(self.is_negative(), nearest_pattern(&sum, &one))
            }
        }
    }

    /// `self < other`.
    pub fn is_before(self, other: Single) -> (r: bool)
        ensures
            r == self.before(other),
    {
        if self.is_nan() || other.is_nan() {
            return false;
        }
        let a: u32 = self.pattern_of();
        let b: u32 = other.pattern_of();
        proof {
            lemma_magnitude_increases(0, a as nat);
            lemma_magnitude_increases(0, b as nat);
            if a <= b {
                lemma_magnitude_increases(a as nat, b as nat);
            } else {
                lemma_magnitude_increases(b as nat, a as nat);
            }
        }
        if self.is_negative() {
            if other.is_negative() {
                b < a
            } else {
                a != 0 || b != 0
            }
        } else {
            !other.is_negative() && a < b
        }
    }

    /// `self <= other`.
    pub fn is_up_to(self, other: Single) -> (r: bool)
        ensures
            r == self.up_to(other),
    {
        !self.is_nan() && !other.is_nan() && !other.is_before(self)
    }

    /// The larger one; a number wins over what is not one.
    pub fn max(self, other: Single) -> (r: Single)
        ensures
            r == larger(self, other),
    {
        if self.is_nan() || self.is_before(other) {
            other
        } else {
            self
        }
    }

    /// The smaller one; a number wins over what is not one.
    pub fn min(self, other: Single) -> (r: Single)
        ensures
            r == smaller(self, other),
    {
        if self.is_nan() || other.is_before(self) {
            other
        } else {
            self
        }
    }

    /// `self` moved into `lo..=hi`.
    pub fn confine(self, lo: Single, hi: Single) -> (r: Single)
        ensures
            r == confined(self, lo, hi),
    {
        if self.is_before(lo) {
            lo
        } else if hi.is_before(self) {
            hi
        } else {
            self
        }
    }

    /// Whether the values are the same.
    pub fn equals(self, other: Single) -> (r: bool)
        ensures
            r == equal(self, other),
    {
        self.is_up_to(other) && other.is_up_to(self)
    }

    /// The same number without its sign.
    pub fn abs(self) -> (r: Single)
        ensures
            r == absolute(self),
    {
        Single { bits: self.bits % SIGN }
    }

    /// Closest integer to the absolute value, at most `2^40`.
    fn rounded_natural(self) -> (r: u64)
        requires
            !self.nan(),
        ensures
            r == clamped(rounded_size(self.size()) as int, 0, 0x100_0000_0000),
    {
        let b: u32 = self.pattern_of();
        let m: u32 = significand_of(b);
        let s: u32 = shift_of(b);
        if s >= 166 {
            proof {
                lemma_rounded_large(self.pattern());
            }
            0x100_0000_0000
        } else if s >= 149 {
            proof {
                lemma_rounded_whole(self.pattern());
                lemma_pow2_bound((s - 149) as nat, 16);
                assert(m * pow2((s - 149) as nat) < 0x100_0000_0000) by (nonlinear_arith)
                    requires
                        m < 0x100_0000,
                        pow2((s - 149) as nat) <= 0x1_0000,
                ;
                vstd::bits::lemma_u64_shl_is_mul(m as u64, (s - 149) as u64);
            }
            (m as u64) << ((s - 149) as u64)
        } else if s >= 125 {
            let k: u32 = 149 - s;
            proof {
                lemma_rounded_part(self.pattern());
                lemma_pow2_bound((k - 1) as nat, 23);
                vstd::bits::lemma_u64_shl_is_mul(1u64, (k - 1) as u64);
                lemma_pow2_pos(k as nat);
            }
            let half: u64 = 1u64 << ((k - 1) as u64);
            let sum: u64 = m as u64 + half;
            proof {
                vstd::bits::lemma_u64_shr_is_div(sum, k as u64);
                lemma_div_decreases_or_same(sum as int, pow2(k as nat) as int);
            }
            sum >> (k as u64)
        } else {
            proof {
                lemma_rounded_small(self.pattern());
            }
            0
        }
    }

    /// Closest integer, halves away from zero, moved into range.
    pub fn rounded_u32(self) -> (r: u32)
        ensures
            r == clamped(rounded(self), 0, 0xffff_ffff),
    {
        if self.is_nan() || self.is_negative() {
            return 0;
        }
        let n: u64 = self.rounded_natural();
        if n > 0xffff_ffff {
            0xffff_ffff
        } else {
            n as u32
        }
    }

    /// Closest integer, halves away from zero, moved into range.
    pub fn rounded_i32(self) -> (r: i32)
        ensures
            r == clamped(rounded(self), -0x8000_0000, 0x7fff_ffff),
    {
        if self.is_nan() {
            return 0;
        }
        let n: u64 = self.rounded_natural();
        if self.is_negative() {
            if n > 0x8000_0000 {
                -0x8000_0000
            } else {
                (-(n as i64)) as i32
            }
        } else if n > 0x7fff_ffff {
            0x7fff_ffff
        } else {
            n as i32
        }
    }
}

proof fn lemma_pow2_bound(a: nat, b: nat)
    requires
        a <= b,
        b <= 32,
    ensures
        0 < pow2(a) <= pow2(b),
        b == 16 ==> pow2(b) == 0x1_0000,
        b == 23 ==> pow2(b) == 0x80_0000,
{
    lemma2_to64();
    lemma_pow2_pos(a);
    if a < b {
        lemma_pow2_strictly_increases(a, b);
    }
}

proof fn lemma_div_decreases_or_same(x: int, d: int)
    requires
        x >= 0,
        d > 0,
    ensures
        0 <= x / d <= x,
{
    lemma_div_pos_is_pos(x, d);
    lemma_div_nonincreasing(x, d);
}

/// A size of whole integers rounds to itself.
proof fn lemma_rounded_whole(b: nat)
    requires
        shift(b) >= 149,
    ensures
        rounded_size(magnitude(b)) == significand(b) * pow2((shift(b) - 149) as nat),
{
    let m = significand(b) as int;
    let n = m * pow2((shift(b) - 149) as nat);
    lemma_pow2_adds((shift(b) - 149) as nat, 149);
    lemma_pow2_unfold(150);
    lemma_pow2_pos(149);
    lemma_mul_is_associative(m, pow2((shift(b) - 149) as nat) as int, pow2(149) as int);
    let q = pow2(149) as int;
    assert(magnitude(b) == n * q);
    assert(2 * (n * q) + q == n * (2 * q) + q) by (nonlinear_arith);
    lemma_fundamental_div_mod_converse(2 * (n * q) + q, 2 * q, n, q);
}

proof fn lemma_rounded_large(b: nat)
    requires
        shift(b) >= 166,
    ensures
        rounded_size(magnitude(b)) >= 0x100_0000_0000,
{
    lemma_rounded_whole(b);
    lemma2_to64();
    let s = (shift(b) - 149) as nat;
    if s > 17 {
        lemma_pow2_strictly_increases(17, s);
    }
    let m = significand(b) as int;
    assert(m * pow2(s) >= 0x80_0000 * 0x2_0000) by (nonlinear_arith)
        requires
            m >= 0x80_0000,
            pow2(s) >= 0x2_0000,
    ;
}

/// Rounding a size that has a fractional part.
proof fn lemma_rounded_part(b: nat)
    requires
        shift(b) < 149,
    ensures
        rounded_size(magnitude(b)) == (significand(b) + pow2((148 - shift(b)) as nat)) / pow2(
            (149 - shift(b)) as nat,
        ),
{
    let s = shift(b);
    let k = (149 - s) as nat;
    let m = significand(b) as int;
    let p = pow2(s + 1) as int;
    lemma_pow2_unfold(s + 1);
    lemma_pow2_adds((k - 1) as nat, s + 1);
    lemma_pow2_adds(k, s + 1);
    lemma_pow2_pos(s + 1);
    lemma_pow2_pos(k);
    let h = pow2((k - 1) as nat) as int;
    let d = pow2(k) as int;
    let half = pow2(s) as int;
    assert(2 * (m * half) + h * p == (m + h) * p) by (nonlinear_arith)
        requires
            p == 2 * half,
    ;
    lemma_div_multiples_vanish_quotient(p, m + h, d);
    lemma_mul_is_commutative(p, m + h);
    lemma_mul_is_commutative(p, d);
}

proof fn lemma_rounded_small(b: nat)
    requires
        shift(b) < 125,
    ensures
        rounded_size(magnitude(b)) == 0,
{
    lemma_rounded_part(b);
    let k = (149 - shift(b)) as nat;
    lemma2_to64();
    lemma_pow2_unfold(k);
    if k > 25 {
        lemma_pow2_strictly_increases(24, (k - 1) as nat);
    }
    lemma_basic_div((significand(b) + pow2((k - 1) as nat)) as int, pow2(k) as int);
}

} // verus!

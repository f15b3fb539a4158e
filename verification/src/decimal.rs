//! Single precision numbers in decimal notation.
//!
//! Reading gives the closest number, whatever the length of the numeral.
//! Writing gives the shortest numeral that reads back as the same number.

use crate::natural::Natural;
use crate::single::{self, nearest_pattern, Single, INFINITY, SIGN};
use crate::text::{self, are_digits, is_alike_text, run_length};
use vstd::arithmetic::mul::*;
use vstd::arithmetic::power2::*;
use vstd::prelude::*;

verus! {

broadcast use group_mul_basics;

/// `10^n`.
pub open spec fn ten(n: nat) -> nat
    decreases n,
{
    if n == 0 {
        1
    } else {
        10 * ten((n - 1) as nat)
    }
}

/// `5^n`.
pub open spec fn five(n: nat) -> nat
    decreases n,
{
    if n == 0 {
        1
    } else {
        5 * five((n - 1) as nat)
    }
}

/// The pattern closest to `d * 10^e`.
pub open spec fn decimal_pattern(d: nat, e: int) -> nat {
    if e >= 0 {
        single::nearest(d * ten(e as nat) * pow2(149), 1)
    } else {
        single::nearest(d * pow2(149), ten((-e) as nat))
    }
}

/// `s` without a sign in front.
pub open spec fn unsigned_part(s: Seq<char>) -> Seq<char> {
    if s.len() > 0 && (s[0] == '+' || s[0] == '-') {
        s.drop_first()
    } else {
        s
    }
}

/// The exponent that stands after the letter `e`: digits with an optional
/// sign.
pub open spec fn exponent_value(s: Seq<char>) -> Option<int> {
    let d = unsigned_part(s);
    if d.len() == 0 || !text::all_digits(d) {
        None
    } else if s[0] == '-' {
        Some(-text::numeral(d))
    } else {
        Some(text::numeral(d) as int)
    }
}

/// The digits of a numeral without its exponent, and how many of them stand
/// after the point.
pub open spec fn point_value(s: Seq<char>) -> Option<(Seq<char>, nat)> {
    let n = text::run(s, '.', '.') as int;
    let whole = s.take(n);
    let part = if n < s.len() {
        s.skip(n + 1)
    } else {
        seq![]
    };
    if text::all_digits(whole) && text::all_digits(part) && whole.len() + part.len() > 0 {
        Some((whole + part, part.len()))
    } else {
        None
    }
}

/// The integer and the power of ten whose product a numeral without a sign
/// stands for.
pub open spec fn scientific(s: Seq<char>) -> Option<(nat, int)> {
    let n = text::run(s, 'e', 'E') as int;
    let exponent = if n < s.len() {
        exponent_value(s.skip(n + 1))
    } else {
        Some(0int)
    };
    match (point_value(s.take(n)), exponent) {
        (Some((digits, after)), Some(e)) => Some((text::numeral(digits), e - after)),
        _ => None,
    }
}

/// The number written in `s`: a numeral with an optional sign, point and
/// exponent, or one of the words `inf`, `infinity` and `nan`.
pub open spec fn written(s: Seq<char>) -> Option<Single> {
    let negative = s.len() > 0 && s[0] == '-';
    let body = unsigned_part(s);
    if text::alike(body, "inf"@) || text::alike(body, "infinity"@) {
        Some(single::signed(negative, INFINITY as nat))
    } else if text::alike(body, "nan"@) {
        Some(single::signed(negative, 0x7fc0_0000))
    } else {
        match scientific(body) {
            Some((d, e)) => Some(single::signed(negative, decimal_pattern(d, e))),
            None => None,
        }
    }
}

pub proof fn lemma_ten_positive(n: nat)
    ensures
        ten(n) > 0,
    decreases n,
{
    if n > 0 {
        lemma_ten_positive((n - 1) as nat);
    }
}

pub proof fn lemma_ten_adds(a: nat, b: nat)
    ensures
        ten(a + b) == ten(a) * ten(b),
    decreases b,
{
    if b > 0 {
        lemma_ten_adds(a, (b - 1) as nat);
        assert(ten(a + b) == 10 * ten((a + b - 1) as nat));
        assert(10 * (ten(a) * ten((b - 1) as nat)) == ten(a) * (10 * ten((b - 1) as nat)))
            by (nonlinear_arith);
    }
}

pub proof fn lemma_ten_increases(a: nat, b: nat)
    requires
        a <= b,
    ensures
        ten(a) <= ten(b),
{
    lemma_ten_adds(a, (b - a) as nat);
    lemma_ten_positive(a);
    lemma_ten_positive((b - a) as nat);
    assert(ten(a) * ten((b - a) as nat) >= ten(a)) by (nonlinear_arith)
        requires
            ten((b - a) as nat) >= 1,
    ;
}

/// `n` digits stand for less than `10^n`, and for at least `10^(n - 1)` if the
/// first one is not zero.
proof fn lemma_numeral_bounds(s: Seq<char>)
    requires
        text::all_digits(s),
    ensures
        text::numeral(s) < ten(s.len()),
        s.len() > 0 && s[0] != '0' ==> text::numeral(s) >= ten((s.len() - 1) as nat),
    decreases s.len(),
{
    if s.len() > 0 {
        let t = s.drop_last();
        assert(forall|i: int| 0 <= i < t.len() ==> t[i] == s[i]);
        lemma_numeral_bounds(t);
        assert(text::digit(s.last()));
        if s.len() == 1 {
            assert(t == Seq::<char>::empty());
            assert(text::digit(s[0]));
        }
    }
}

pub proof fn lemma_numeral_zeros(s: Seq<char>, k: int)
    requires
        0 <= k <= s.len(),
        forall|i: int| 0 <= i < k ==> s[i] == '0',
    ensures
        text::numeral(s) == text::numeral(s.skip(k)),
    decreases s.len(),
{
    if s.len() > 0 {
        let t = s.drop_last();
        if k == s.len() {
            lemma_numeral_zeros(t, k - 1);
            assert(t.skip(k - 1) == Seq::<char>::empty());
            assert(s.skip(k) == Seq::<char>::empty());
        } else {
            lemma_numeral_zeros(t, k);
            assert(s.skip(k).drop_last() == t.skip(k));
        }
    } else {
        assert(s.skip(k) == s);
    }
}

/// `2^277`, the value that would follow the largest finite one, and two more
/// powers that bound the numerals worth computing.
pub proof fn lemma_limits()
    ensures
        single::magnitude(INFINITY as nat) == pow2(277),
        pow2(277) == pow2(128) * pow2(149),
        pow2(128) <= ten(39),
        2 * pow2(149) <= ten(51),
        pow2(149) <= ten(45),
{
    lemma2_to64();
    lemma2_to64_rest();
    lemma_pow2_adds(64, 64);
    lemma_pow2_adds(128, 149);
    lemma_pow2_adds(23, 254);
    lemma_pow2_adds(128, 21);
    reveal_with_fuel(ten, 52);
    assert(pow2(64) == 0x1_0000_0000_0000_0000);
    assert(pow2(128) == 0x1_0000_0000_0000_0000 * 0x1_0000_0000_0000_0000);
    assert(pow2(149) == pow2(128) * pow2(21));
}

/// A decimal of at least `10^40` is out of range.
pub proof fn lemma_overflow(num: nat, den: nat)
    requires
        den > 0,
        num >= ten(39) * pow2(149) * den,
    ensures
        single::rounds_to(num, den, INFINITY as nat),
{
    lemma_limits();
    single::lemma_middle((INFINITY - 1) as nat);
    let top = pow2(277) as int;
    let m = single::magnitude((INFINITY - 1) as nat) as int;
    let t = ten(39) as int;
    let p = pow2(149) as int;
    assert(num >= top * den) by (nonlinear_arith)
        requires
            num >= t * p * den,
            top == pow2(128) * p,
            pow2(128) <= t,
            p >= 0,
            den > 0,
    ;
    assert(2 * num > (m + top) * den) by (nonlinear_arith)
        requires
            num >= top * den,
            m < top,
            den > 0,
    ;
}

/// A quantity of at most half a unit rounds to zero.
pub proof fn lemma_underflow(num: nat, den: nat)
    requires
        2 * num <= den,
    ensures
        single::rounds_to(num, den, 0),
{
    single::lemma_middle(0);
    lemma2_to64();
}

/// `x * 10^n`.
pub(crate) fn scaled_by_tens(x: Natural, n: u128) -> (r: Natural)
    ensures
        r@ == x@ * ten(n as nat),
{
    let ghost start = x@;
    let mut r: Natural = x;
    let mut i: u128 = 0;
    while i < n
        invariant
            i <= n,
            r@ == start * ten(i as nat),
        decreases n - i,
    {
        r = r.scaled(10, 0);
        proof {
            let t = ten(i as nat) as int;
            assert(start * t * 10 == start * (10 * t)) by (nonlinear_arith);
        }
        i = i + 1;
    }
    r
}

/// The number that digits stand for, of any size.
fn numeral_of(s: &[char]) -> (r: Natural)
    requires
        text::all_digits(s@),
    ensures
        r@ == text::numeral(s@),
{
    let mut r: Natural = Natural::from_u64(0);
    let mut i: usize = 0;
    while i < s.len()
        invariant
            i <= s@.len(),
            text::all_digits(s@),
            r@ == text::numeral(s@.take(i as int)),
        decreases s@.len() - i,
    {
        let c: char = s[i];
        assert(text::digit(s@[i as int]));
        assert(s@.take(i as int + 1).drop_last() == s@.take(i as int));
        r = r.scaled(10, c as u32 - 48);
        i = i + 1;
    }
    assert(s@.take(i as int) == s@);
    r
}

/// Exponents beyond this one all mean the same.
pub const FAR: u128 = 1_000_000_000_000_000_000_000_000_000_000;

/// The number that digits stand for, at most `FAR`.
fn capped_numeral(s: &[char]) -> (r: u128)
    requires
        text::all_digits(s@),
    ensures
        r == (if text::numeral(s@) < FAR {
            text::numeral(s@)
        } else {
            FAR as nat
        }),
{
    let mut n: u128 = 0;
    let mut i: usize = 0;
    while i < s.len()
        invariant
            i <= s@.len(),
            text::all_digits(s@),
            n <= FAR,
            n == (if text::numeral(s@.take(i as int)) < FAR {
                text::numeral(s@.take(i as int))
            } else {
                FAR as nat
            }),
        decreases s@.len() - i,
    {
        let c: char = s[i];
        assert(text::digit(s@[i as int]));
        assert(s@.take(i as int + 1).drop_last() == s@.take(i as int));
        n = 10 * n + (c as u32 - 48) as u128;
        if n > FAR {
            n = FAR;
        }
        i = i + 1;
    }
    assert(s@.take(i as int) == s@);
    n
}

/// `s` without a sign in front.
fn unsigned_slice(s: &[char]) -> (r: &[char])
    ensures
        r@ == unsigned_part(s@),
{
    if s.len() > 0 && (s[0] == '+' || s[0] == '-') {
        assert(s@.drop_first() == s@.subrange(1, s@.len() as int));
        vstd::slice::slice_subrange(s, 1, s.len())
    } else {
        s
    }
}

/// The exponent in `s`, moved into `-FAR..=FAR`.
fn parse_exponent(s: &[char]) -> (r: Option<i128>)
    ensures
        match r {
            Some(e) => exponent_value(s@) is Some && e == single::clamped(
                exponent_value(s@)->Some_0,
                -FAR,
                FAR as int,
            ),
            None => exponent_value(s@) is None,
        },
{
    let d: &[char] = unsigned_slice(s);
    if d.len() == 0 || !are_digits(d) {
        return None;
    }
    let n: u128 = capped_numeral(d);
    if s[0] == '-' {
        Some(-(n as i128))
    } else {
        Some(n as i128)
    }
}

/// The digits in `s`, and how many of them stand after the point.
fn parse_point(s: &[char]) -> (r: Option<(Vec<char>, usize)>)
    ensures
        match r {
            Some((d, n)) => point_value(s@) == Some((d@, n as nat)),
            None => point_value(s@) is None,
        },
{
    let n: usize = run_length(s, '.', '.');
    let whole: &[char] = vstd::slice::slice_subrange(s, 0, n);
    assert(whole@ == s@.take(n as int));
    let part: &[char] = if n < s.len() {
        assert(s@.skip(n as int + 1) == s@.subrange(n as int + 1, s@.len() as int));
        vstd::slice::slice_subrange(s, n + 1, s.len())
    } else {
        assert(s@.subrange(n as int, n as int) == Seq::<char>::empty());
        vstd::slice::slice_subrange(s, n, n)
    };
    if !are_digits(whole) || !are_digits(part) || (whole.len() == 0 && part.len() == 0) {
        return None;
    }
    let mut digits: Vec<char> = text::copied(whole);
    text::append(&mut digits, part);
    Some((digits, part.len()))
}

/// The pattern closest to the number that `digits` stand for, times `10^e`.
fn pattern_of_decimal(digits: &[char], e: i128, Ghost(exact): Ghost<int>) -> (r: u32)
    requires
        digits@.len() > 0,
        text::all_digits(digits@),
        -FAR - 0xffff_ffff_ffff_ffff <= e <= FAR,
        e == exact || (e <= -FAR && exact <= e) || (e >= FAR - 0xffff_ffff_ffff_ffff && exact >= e),
    ensures
        r == decimal_pattern(text::numeral(digits@), exact),
        r <= INFINITY,
{
    let mut zeros: usize = 0;
    while zeros < digits.len() && digits[zeros] == '0'
        invariant
            zeros <= digits@.len(),
            forall|i: int| 0 <= i < zeros ==> digits@[i] == '0',
        decreases digits@.len() - zeros,
    {
        zeros = zeros + 1;
    }
    let ghost d = text::numeral(digits@);
    proof {
        lemma_numeral_zeros(digits@, zeros as int);
        lemma_limits();
        lemma_pow2_pos(149);
    }
    let significant: &[char] = vstd::slice::slice_subrange(digits, zeros, digits.len());
    assert(significant@ == digits@.skip(zeros as int));
    let ghost p = pow2(149) as int;
    if significant.len() == 0 {
        proof {
            assert(significant@ == Seq::<char>::empty());
            assert(d == 0);
            if exact >= 0 {
                assert(0 * ten(exact as nat) * pow2(149) == 0);
                lemma_underflow(0, 1);
                single::lemma_nearest(0, 1, 0);
            } else {
                lemma_ten_positive((-exact) as nat);
                lemma_underflow(0, ten((-exact) as nat));
                single::lemma_nearest(0, ten((-exact) as nat), 0);
            }
        }
        return 0;
    }
    let n: i128 = significant.len() as i128;
    proof {
        assert(text::all_digits(significant@));
        lemma_numeral_bounds(significant@);
    }
    if n + e > 40 {
        proof {
            lemma_ten_positive(39);
            if exact >= 0 {
                lemma_ten_adds((n - 1) as nat, exact as nat);
                lemma_ten_increases(39, (n - 1 + exact) as nat);
                let t = ten(exact as nat) as int;
                let u = ten((n - 1) as nat) as int;
                assert(d * t * p >= ten(39) * p * 1) by (nonlinear_arith)
                    requires
                        d >= u,
                        u * t >= ten(39),
                        t >= 0,
                        p >= 0,
                ;
                lemma_overflow(d * ten(exact as nat) * pow2(149), 1);
                single::lemma_nearest(d * ten(exact as nat) * pow2(149), 1, INFINITY as nat);
            } else {
                let k = (-exact) as nat;
                lemma_ten_positive(k);
                lemma_ten_adds(39, k);
                lemma_ten_increases(39 + k, (n - 1) as nat);
                let t = ten(k) as int;
                assert(d * p >= ten(39) * p * t) by (nonlinear_arith)
                    requires
                        d >= ten(39) * t,
                        p >= 0,
                ;
                lemma_overflow(d * pow2(149), ten(k));
                single::lemma_nearest(d * pow2(149), ten(k), INFINITY as nat);
            }
        }
        return INFINITY;
    }
    if n + e < -50 {
        proof {
            let k = (-exact) as nat;
            lemma_ten_positive(k);
            lemma_ten_adds(n as nat, 51);
            lemma_ten_increases(n as nat + 51, k);
            assert(2 * (d * p) <= ten(k)) by (nonlinear_arith)
                requires
                    d <= ten(n as nat),
                    ten(n as nat) * ten(51) <= ten(k),
                    2 * p <= ten(51),
                    p >= 0,
            ;
            lemma_underflow(d * pow2(149), ten(k));
            single::lemma_nearest(d * pow2(149), ten(k), 0);
        }
        return 0;
    }
    let value: Natural = numeral_of(significant);
    if e >= 0 {
        let num: Natural = scaled_by_tens(value, e as u128).shifted(149);
        let one: Natural = Natural::from_u64(1);
        nearest_pattern(&num, &one)
    } else {
        let num: Natural = value.shifted(149);
        let den: Natural = scaled_by_tens(Natural::from_u64(1), (-e) as u128);
        proof {
            lemma_ten_positive((-e) as nat);
        }
        nearest_pattern(&num, &den)
    }
}

impl Single {
    /// Reads a number in decimal notation.
    pub fn parse(s: &[char]) -> (r: Option<Single>)
        ensures
            r == written(s@),
    {
        let negative: bool = s.len() > 0 && s[0] == '-';
        let body: &[char] = unsigned_slice(s);
        let pattern: u32;
        if is_alike_text(body, "inf") || is_alike_text(body, "infinity") {
            pattern = INFINITY;
        } else if is_alike_text(body, "nan") {
            pattern = 0x7fc0_0000;
        } else {
            let n: usize = run_length(body, 'e', 'E');
            let front: &[char] = vstd::slice::slice_subrange(body, 0, n);
            assert(front@ == body@.take(n as int));
            let exponent: Option<i128> = if n < body.len() {
                assert(body@.skip(n as int + 1) == body@.subrange(n as int + 1, body@.len() as int));
                parse_exponent(vstd::slice::slice_subrange(body, n + 1, body.len()))
            } else {
                Some(0)
            };
            match (parse_point(front), exponent) {
                (Some((digits, after)), Some(e)) => {
                    let ghost exact = (if n < body@.len() {
                        exponent_value(body@.skip(n as int + 1))->Some_0
                    } else {
                        0
                    }) - after;
                    proof {
                        lemma_point_digits(front@);
                    }
                    pattern = pattern_of_decimal(digits.as_slice(), e - after as i128, Ghost(exact));
                },
                _ => {
                    return None;
                },
            }
        }
        if negative {
            Some(Single { bits: pattern + SIGN })
        } else {
            Some(Single { bits: pattern })
        }
    }
}

proof fn lemma_point_digits(s: Seq<char>)
    ensures
        match point_value(s) {
            Some((d, n)) => d.len() > 0 && text::all_digits(d) && n <= d.len(),
            None => true,
        },
{
}

} // verus!

//! Natural numbers of any size, kept as 32-bit limbs, least significant first.
//!
//! Single precision values are integers in units of the smallest positive
//! one, so rounding a product, a quotient or a decimal numeral is a matter of
//! comparing naturals of a few hundred bits.

use vstd::arithmetic::mul::*;
use vstd::arithmetic::power2::*;
use vstd::prelude::*;

verus! {

broadcast use group_mul_basics;

/// The limb of weight `2^(32 i)`; limbs past the end are zero.
pub open spec fn limb(s: Seq<u32>, i: int) -> nat {
    if 0 <= i < s.len() {
        s[i] as nat
    } else {
        0
    }
}

/// The number that the `n` least significant limbs stand for.
pub open spec fn low(s: Seq<u32>, n: nat) -> nat
    decreases n,
{
    if n == 0 {
        0
    } else {
        low(s, (n - 1) as nat) + limb(s, n - 1) * pow2((32 * (n - 1)) as nat)
    }
}

/// Which of two numbers is larger.
#[derive(Clone, Copy, PartialEq, Eq, Debug, Structural)]
pub enum Order {
    Less,
    Equal,
    Greater,
}

/// How `a` relates to `b`.
pub open spec fn order_of(a: int, b: int) -> Order {
    if a < b {
        Order::Less
    } else if a == b {
        Order::Equal
    } else {
        Order::Greater
    }
}

pub struct Natural {
    limbs: Vec<u32>,
}

impl View for Natural {
    type V = nat;

    closed spec fn view(&self) -> nat {
        low(self.limbs@, self.limbs@.len())
    }
}

proof fn lemma_word(n: nat)
    requires
        n > 0,
    ensures
        pow2(32 * n) == 0x1_0000_0000 * pow2((32 * (n - 1)) as nat),
        pow2((32 * (n - 1)) as nat) > 0,
{
    lemma2_to64();
    lemma_pow2_adds(32, (32 * (n - 1)) as nat);
    lemma_pow2_pos((32 * (n - 1)) as nat);
}

/// The low limbs stay under the weight of the next one.
proof fn lemma_low_bound(s: Seq<u32>, n: nat)
    ensures
        low(s, n) < pow2(32 * n),
    decreases n,
{
    if n == 0 {
        lemma2_to64();
    } else {
        let k = (n - 1) as nat;
        lemma_low_bound(s, k);
        lemma_word(n);
        let p = pow2(32 * k);
        let x = limb(s, k as int);
        assert(x * p + p <= 0x1_0000_0000 * p) by (nonlinear_arith)
            requires
                x <= 0xffff_ffff,
                p > 0,
        ;
    }
}

/// Limbs past the end add nothing.
proof fn lemma_low_past_end(s: Seq<u32>, n: nat)
    requires
        n >= s.len(),
    ensures
        low(s, n) == low(s, s.len()),
    decreases n,
{
    if n > s.len() {
        lemma_low_past_end(s, (n - 1) as nat);
    }
}

/// Equal low limbs stand for equal numbers.
proof fn lemma_low_prefix(s: Seq<u32>, t: Seq<u32>, n: nat)
    requires
        forall|i: int| 0 <= i < n ==> limb(s, i) == limb(t, i),
    ensures
        low(s, n) == low(t, n),
    decreases n,
{
    if n > 0 {
        lemma_low_prefix(s, t, (n - 1) as nat);
    }
}

proof fn lemma_low_push(s: Seq<u32>, x: u32)
    ensures
        low(s.push(x), s.len() + 1) == low(s, s.len()) + x * pow2(32 * s.len()),
{
    lemma_low_prefix(s.push(x), s, s.len());
}

impl Natural {
    /// The number `x`.
    pub fn from_u64(x: u64) -> (r: Natural)
        ensures
            r@ == x,
    {
        let lo: u32 = (x & 0xffff_ffff) as u32;
        let hi: u32 = (x >> 32) as u32;
        let mut limbs: Vec<u32> = Vec::new();
        limbs.push(lo);
        limbs.push(hi);
        proof {
            assert(x == (x & 0xffff_ffff) + (x >> 32) * 0x1_0000_0000 && (x & 0xffff_ffff)
                <= 0xffff_ffff && (x >> 32) <= 0xffff_ffff) by (bit_vector);
            lemma2_to64();
            reveal_with_fuel(low, 3);
            assert(low(limbs@, 1) == lo);
            assert(low(limbs@, 2) == lo + hi * pow2(32));
        }
        Natural { limbs }
    }

    /// `self * m + c`.
    pub fn scaled(&self, m: u32, c: u32) -> (r: Natural)
        ensures
            r@ == self@ * m + c,
    {
        let mut out: Vec<u32> = Vec::new();
        let mut carry: u64 = c as u64;
        let mut i: usize = 0;
        proof {
            lemma2_to64();
        }
        while i < self.limbs.len()
            invariant
                i <= self.limbs@.len(),
                out@.len() == i,
                carry <= 0xffff_ffff,
                low(out@, i as nat) + carry * pow2((32 * i) as nat) == low(self.limbs@, i as nat) * m
                    + c,
            decreases self.limbs@.len() - i,
        {
            let x: u32 = self.limbs[i];
            assert(x as u64 * m as u64 <= 0xffff_ffff * 0xffff_ffff) by (nonlinear_arith)
                requires
                    x <= 0xffff_ffff,
                    m <= 0xffff_ffff,
            ;
            let t: u64 = x as u64 * m as u64 + carry;
            let digit: u32 = (t & 0xffff_ffff) as u32;
            let next: u64 = t >> 32;
            proof {
                assert(t == (t & 0xffff_ffff) + (t >> 32) * 0x1_0000_0000 && (t & 0xffff_ffff)
                    <= 0xffff_ffff && (t >> 32) <= 0xffff_ffff) by (bit_vector);
                lemma_low_push(out@, digit);
                lemma_word((i + 1) as nat);
                let p = pow2((32 * i) as nat) as int;
                let l = low(self.limbs@, i as nat) as int;
                let lo = low(out@, i as nat) as int;
                assert(lo + digit * p + next * (0x1_0000_0000 * p) == (l + x * p) * m + c)
                    by (nonlinear_arith)
                    requires
                        lo + carry * p == l * m + c,
                        x * m + carry == digit + next * 0x1_0000_0000,
                ;
            }
            out.push(digit);
            carry = next;
            i = i + 1;
        }
        proof {
            lemma_low_push(out@, carry as u32);
        }
        out.push(carry as u32);
        Natural { limbs: out }
    }

    /// `self * 2^k`.
    pub fn shifted(&self, k: u32) -> (r: Natural)
        ensures
            r@ == self@ * pow2(k as nat),
    {
        let whole: u32 = k / 32;
        let part: u32 = k % 32;
        let mut limbs: Vec<u32> = Vec::new();
        let mut i: u32 = 0;
        while i < whole
            invariant
                i <= whole,
                limbs@.len() == i,
                forall|j: int| 0 <= j < i ==> limbs@[j] == 0,
            decreases whole - i,
        {
            limbs.push(0u32);
            i = i + 1;
        }
        let ghost zeros = limbs@;
        let mut j: usize = 0;
        while j < self.limbs.len()
            invariant
                j <= self.limbs@.len(),
                zeros.len() == whole,
                forall|j: int| 0 <= j < whole ==> zeros[j] == 0,
                limbs@ == zeros + self.limbs@.take(j as int),
            decreases self.limbs@.len() - j,
        {
            limbs.push(self.limbs[j]);
            j = j + 1;
            assert(limbs@ == zeros + self.limbs@.take(j as int));
        }
        proof {
            assert(self.limbs@.take(j as int) == self.limbs@);
            lemma_low_zeros(zeros, self.limbs@, self.limbs@.len());
        }
        let moved: Natural = Natural { limbs };
        assert(part < 32 ==> 1u32 << part > 0) by (bit_vector);
        let factor: u32 = 1u32 << part;
        proof {
            lemma_factor(part);
            lemma_pow2_adds((32 * whole) as nat, part as nat);
            assert(k == 32 * whole + part);
            assert(moved@ == self@ * pow2((32 * whole) as nat));
            lemma_mul_is_associative(self@ as int, pow2((32 * whole) as nat) as int, pow2(part as nat) as int);
        }
        moved.scaled(factor, 0)
    }

    /// How `self` relates to `other`.
    pub fn against(&self, other: &Natural) -> (r: Order)
        ensures
            r == order_of(self@ as int, other@ as int),
    {
        let n: usize = if self.limbs.len() < other.limbs.len() {
            other.limbs.len()
        } else {
            self.limbs.len()
        };
        let mut r: Order = Order::Equal;
        let mut i: usize = 0;
        while i < n
            invariant
                i <= n,
                r == order_of(low(self.limbs@, i as nat) as int, low(other.limbs@, i as nat) as int),
            decreases n - i,
        {
            let a: u32 = if i < self.limbs.len() {
                self.limbs[i]
            } else {
                0
            };
            let b: u32 = if i < other.limbs.len() {
                other.limbs[i]
            } else {
                0
            };
            proof {
                lemma_low_bound(self.limbs@, i as nat);
                lemma_low_bound(other.limbs@, i as nat);
                let p = pow2((32 * i) as nat) as int;
                if a < b {
                    assert(a * p + p <= b * p) by (nonlinear_arith)
                        requires
                            a < b,
                            p > 0,
                    ;
                } else if b < a {
                    assert(b * p + p <= a * p) by (nonlinear_arith)
                        requires
                            b < a,
                            p > 0,
                    ;
                }
            }
            if a < b {
                r = Order::Less;
            } else if b < a {
                r = Order::Greater;
            }
            i = i + 1;
        }
        proof {
            lemma_low_past_end(self.limbs@, n as nat);
            lemma_low_past_end(other.limbs@, n as nat);
        }
        r
    }

    /// `self - other`, for an `other` that is not larger.
    pub fn less(&self, other: &Natural) -> (r: Natural)
        requires
            other@ <= self@,
        ensures
            r@ == self@ - other@,
    {
        let n: usize = if self.limbs.len() < other.limbs.len() {
            other.limbs.len()
        } else {
            self.limbs.len()
        };
        let mut out: Vec<u32> = Vec::new();
        let mut borrow: u64 = 0;
        let mut i: usize = 0;
        proof {
            lemma2_to64();
        }
        while i < n
            invariant
                i <= n,
                out@.len() == i,
                borrow <= 1,
                low(self.limbs@, i as nat) + borrow * pow2((32 * i) as nat) == low(
                    other.limbs@,
                    i as nat,
                ) + low(out@, i as nat),
            decreases n - i,
        {
            let a: u32 = if i < self.limbs.len() {
                self.limbs[i]
            } else {
                0
            };
            let b: u32 = if i < other.limbs.len() {
                other.limbs[i]
            } else {
                0
            };
            let need: u64 = b as u64 + borrow;
            let ghost before = borrow;
            let digit: u32;
            if a as u64 >= need {
                digit = (a as u64 - need) as u32;
                borrow = 0;
            } else {
                digit = (a as u64 + 0x1_0000_0000u64 - need) as u32;
                borrow = 1;
            }
            proof {
                lemma_low_push(out@, digit);
                lemma_word((i + 1) as nat);
                let p = pow2((32 * i) as nat) as int;
                let la = low(self.limbs@, i as nat) as int;
                let lb = low(other.limbs@, i as nat) as int;
                let lo = low(out@, i as nat) as int;
                assert(la + a * p + borrow * (0x1_0000_0000 * p) == lb + b * p + (lo + digit * p))
                    by (nonlinear_arith)
                    requires
                        la + before * p == lb + lo,
                        a + borrow * 0x1_0000_0000 == b + before + digit,
                ;
            }
            out.push(digit);
            i = i + 1;
        }
        proof {
            lemma_low_past_end(self.limbs@, n as nat);
            lemma_low_past_end(other.limbs@, n as nat);
            lemma_low_bound(out@, n as nat);
            if borrow == 1 {
                assert(false);
            }
        }
        Natural { limbs: out }
    }

    /// `self + other`.
    pub fn plus(&self, other: &Natural) -> (r: Natural)
        ensures
            r@ == self@ + other@,
    {
        let n: usize = if self.limbs.len() < other.limbs.len() {
            other.limbs.len()
        } else {
            self.limbs.len()
        };
        let mut out: Vec<u32> = Vec::new();
        let mut carry: u64 = 0;
        let mut i: usize = 0;
        proof {
            lemma2_to64();
        }
        while i < n
            invariant
                i <= n,
                out@.len() == i,
                carry <= 1,
                low(out@, i as nat) + carry * pow2((32 * i) as nat) == low(self.limbs@, i as nat) + low(
                    other.limbs@,
                    i as nat,
                ),
            decreases n - i,
        {
            let a: u32 = if i < self.limbs.len() {
                self.limbs[i]
            } else {
                0
            };
            let b: u32 = if i < other.limbs.len() {
                other.limbs[i]
            } else {
                0
            };
            let t: u64 = a as u64 + b as u64 + carry;
            let ghost before = carry;
            let digit: u32;
            if t >= 0x1_0000_0000 {
                digit = (t - 0x1_0000_0000) as u32;
                carry = 1;
            } else {
                digit = t as u32;
                carry = 0;
            }
            proof {
                lemma_low_push(out@, digit);
                lemma_word((i + 1) as nat);
                let p = pow2((32 * i) as nat) as int;
                let la = low(self.limbs@, i as nat) as int;
                let lb = low(other.limbs@, i as nat) as int;
                let lo = low(out@, i as nat) as int;
                assert(lo + digit * p + carry * (0x1_0000_0000 * p) == la + a * p + (lb + b * p))
                    by (nonlinear_arith)
                    requires
                        lo + before * p == la + lb,
                        a + b + before == digit + carry * 0x1_0000_0000,
                ;
            }
            out.push(digit);
            i = i + 1;
        }
        proof {
            lemma_low_past_end(self.limbs@, n as nat);
            lemma_low_past_end(other.limbs@, n as nat);
            lemma_low_push(out@, carry as u32);
        }
        out.push(carry as u32);
        Natural { limbs: out }
    }

    /// Quotient and remainder of the division by ten.
    pub fn tenth(&self) -> (r: (Natural, u32))
        ensures
            r.0@ == self@ / 10,
            r.1 == self@ % 10,
    {
        let n: usize = self.limbs.len();
        let mut out: Vec<u32> = Vec::new();
        let mut i: usize = 0;
        while i < n
            invariant
                i <= n,
                out@.len() == i,
            decreases n - i,
        {
            out.push(0u32);
            i = i + 1;
        }
        let mut rem: u32 = 0;
        while i > 0
            invariant
                i <= n,
                n == self.limbs@.len(),
                out@.len() == n,
                rem < 10,
                10 * high(out@, i as nat, n as nat) + rem * pow2((32 * i) as nat) == high(
                    self.limbs@,
                    i as nat,
                    n as nat,
                ),
            decreases i,
        {
            let ghost before = out@;
            let ghost carried = rem;
            i = i - 1;
            let t: u64 = rem as u64 * 0x1_0000_0000 + self.limbs[i] as u64;
            let digit: u32 = (t / 10) as u32;
            rem = (t % 10) as u32;
            out.set(i, digit);
            proof {
                lemma_high_prefix(out@, before, (i + 1) as nat, n as nat);
                lemma_word((i + 1) as nat);
                lemma_high_step(self.limbs@, i as nat, n as nat);
                lemma_high_step(out@, i as nat, n as nat);
                let p = pow2((32 * i) as nat) as int;
                let x = self.limbs@[i as int] as int;
                let h = high(before, (i + 1) as nat, n as nat) as int;
                assert(10 * (digit * p + h) + rem * p == x * p + (10 * h + carried * (0x1_0000_0000
                    * p))) by (nonlinear_arith)
                    requires
                        10 * digit + rem == carried * 0x1_0000_0000 + x,
                ;
            }
        }
        proof {
            lemma2_to64();
            lemma_high_all(self.limbs@, n as nat);
            lemma_high_all(out@, n as nat);
        }
        (Natural { limbs: out }, rem)
    }
}

/// The number that the limbs from `i` to `n` stand for.
spec fn high(s: Seq<u32>, i: nat, n: nat) -> nat
    decreases n - i,
{
    if i >= n {
        0
    } else {
        limb(s, i as int) * pow2(32 * i) + high(s, i + 1, n)
    }
}

proof fn lemma_high_step(s: Seq<u32>, i: nat, n: nat)
    requires
        i < n,
    ensures
        high(s, i, n) == limb(s, i as int) * pow2(32 * i) + high(s, i + 1, n),
{
}

proof fn lemma_high_prefix(s: Seq<u32>, t: Seq<u32>, i: nat, n: nat)
    requires
        forall|j: int| i <= j < n ==> limb(s, j) == limb(t, j),
    ensures
        high(s, i, n) == high(t, i, n),
    decreases n - i,
{
    if i < n {
        lemma_high_prefix(s, t, i + 1, n);
    }
}

proof fn lemma_high_all(s: Seq<u32>, n: nat)
    ensures
        high(s, 0, n) == low(s, n),
{
    lemma_high_low(s, 0, n);
}

proof fn lemma_high_low(s: Seq<u32>, i: nat, n: nat)
    requires
        i <= n,
    ensures
        low(s, i) + high(s, i, n) == low(s, n),
    decreases n - i,
{
    if i < n {
        lemma_high_low(s, i + 1, n);
    }
}

proof fn lemma_factor(part: u32)
    requires
        part < 32,
    ensures
        1u32 << part == pow2(part as nat),
{
    lemma2_to64();
    vstd::bits::lemma_u32_shl_is_mul(1, part);
}

/// Zero limbs put below a number multiply it.
proof fn lemma_low_zeros(zeros: Seq<u32>, s: Seq<u32>, n: nat)
    requires
        forall|j: int| 0 <= j < zeros.len() ==> zeros[j] == 0,
        n <= s.len(),
    ensures
        low(zeros + s, zeros.len() + n) == low(s, n) * pow2(32 * zeros.len()),
    decreases n,
{
    let z = zeros.len();
    if n == 0 {
        lemma_low_all_zero(zeros + s, z);
    } else {
        let k = (n - 1) as nat;
        lemma_low_zeros(zeros, s, k);
        lemma_pow2_adds(32 * k, 32 * z);
        let pk = pow2(32 * k) as int;
        let pz = pow2(32 * z) as int;
        let x = limb(s, k as int) as int;
        assert(limb(zeros + s, (z + k) as int) == x);
        assert(32 * (z + n - 1) == 32 * k + 32 * z);
        assert((low(s, k) + x * pk) * pz == low(s, k) * pz + x * (pk * pz)) by (nonlinear_arith);
    }
}

proof fn lemma_low_all_zero(s: Seq<u32>, n: nat)
    requires
        n <= s.len(),
        forall|j: int| 0 <= j < n ==> s[j] == 0,
    ensures
        low(s, n) == 0,
    decreases n,
{
    if n > 0 {
        lemma_low_all_zero(s, (n - 1) as nat);
    }
}

} // verus!

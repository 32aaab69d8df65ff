//! Natural numbers of any size, for the exact arithmetic behind decimal
//! conversion.
use vstd::prelude::*;

verus! {

/// One more than the largest limb.
pub open spec fn limb_base() -> nat {
    0x1_0000_0000_0000_0000
}

/// The weight of limb `i`.
pub open spec fn weight(i: nat) -> nat
    decreases i,
{
    if i == 0 {
        1
    } else {
        limb_base() * weight((i - 1) as nat)
    }
}

/// Limb `i` of a number, zero past its end.
pub open spec fn limb(s: Seq<u64>, i: int) -> nat {
    if 0 <= i < s.len() {
        s[i] as nat
    } else {
        0
    }
}

/// The value of the `i` lowest limbs.
pub open spec fn low(s: Seq<u64>, i: nat) -> nat
    decreases i,
{
    if i == 0 {
        0
    } else {
        low(s, (i - 1) as nat) + limb(s, i - 1) * weight((i - 1) as nat)
    }
}

proof fn lemma_low_agrees(s: Seq<u64>, t: Seq<u64>, i: nat)
    requires
        forall|j: int| 0 <= j < i ==> limb(s, j) == limb(t, j),
    ensures
        low(s, i) == low(t, i),
    decreases i,
{
    if i > 0 {
        lemma_low_agrees(s, t, (i - 1) as nat);
        assert(limb(s, i - 1) == limb(t, i - 1));
    }
}

proof fn lemma_low_past(s: Seq<u64>, i: nat)
    requires
        i >= s.len(),
    ensures
        low(s, i) == low(s, s.len()),
    decreases i,
{
    if i > s.len() {
        lemma_low_past(s, (i - 1) as nat);
        assert(limb(s, i - 1) * weight((i - 1) as nat) == 0) by (nonlinear_arith)
            requires
                limb(s, i - 1) == 0,
        ;
    }
}

proof fn lemma_low_push(s: Seq<u64>, x: u64)
    ensures
        low(s.push(x), s.len() + 1) == low(s, s.len()) + x * weight(s.len()),
{
    lemma_low_agrees(s.push(x), s, s.len());
}

proof fn lemma_low_bound(s: Seq<u64>, i: nat)
    ensures
        low(s, i) < weight(i),
    decreases i,
{
    if i > 0 {
        lemma_low_bound(s, (i - 1) as nat);
        let w = weight((i - 1) as nat);
        let x = limb(s, i - 1);
        assert(x * w <= (limb_base() - 1) * w) by (nonlinear_arith)
            requires
                x <= limb_base() - 1,
                w >= 0,
        ;
        assert((limb_base() - 1) * w + w == limb_base() * w) by (nonlinear_arith);
    }
}

proof fn lemma_low_cons(x: u64, s: Seq<u64>, i: nat)
    ensures
        low(seq![x] + s, i + 1) == x + limb_base() * low(s, i),
    decreases i,
{
    let t = seq![x] + s;
    if i == 0 {
        assert(limb(t, 0) == x);
        assert(low(t, 1) == low(t, 0) + limb(t, 0) * weight(0));
        assert(limb(t, 0) * weight(0) == x) by (nonlinear_arith)
            requires
                limb(t, 0) == x,
                weight(0) == 1,
        ;
        assert(limb_base() * low(s, 0) == 0);
    } else {
        lemma_low_cons(x, s, (i - 1) as nat);
        assert(limb(t, i as int) == limb(s, i - 1));
        let l = limb(s, i - 1);
        let w = weight((i - 1) as nat);
        let p = low(s, (i - 1) as nat);
        assert(x + limb_base() * p + l * (limb_base() * w) == x + limb_base() * (p + l * w))
            by (nonlinear_arith);
    }
}

/// A natural number.
pub struct Natural {
    limbs: Vec<u64>,
}

impl View for Natural {
    type V = nat;

    closed spec fn view(&self) -> nat {
        low(self.limbs@, self.limbs@.len())
    }
}

impl Natural {
    pub fn new(v: u64) -> (r: Natural)
        ensures
            r@ == v,
    {
        let mut limbs: Vec<u64> = Vec::new();
        limbs.push(v);
        proof {
            lemma_low_push(Seq::empty(), v);
            assert(limbs@ =~= Seq::empty().push(v));
            assert(v * weight(0) == v) by (nonlinear_arith)
                requires
                    weight(0) == 1,
            ;
        }
        Natural { limbs }
    }

    pub fn copy(&self) -> (r: Natural)
        ensures
            r@ == self@,
    {
        let mut limbs: Vec<u64> = Vec::new();
        let n: usize = self.limbs.len();
        let mut i: usize = 0;
        while i < n
            invariant
                i <= n,
                n == self.limbs@.len(),
                limbs@ =~= self.limbs@.take(i as int),
            decreases n - i,
        {
            limbs.push(self.limbs[i]);
            i = i + 1;
        }
        assert(limbs@ =~= self.limbs@);
        Natural { limbs }
    }

    /// `self * m + c`.
    pub fn times_plus(&self, m: u64, c: u64) -> (r: Natural)
        ensures
            r@ == self@ * m + c,
    {
        let mut limbs: Vec<u64> = Vec::new();
        let mut carry: u64 = c;
        let n: usize = self.limbs.len();
        let mut i: usize = 0;
        assert(carry * weight(0) == low(self.limbs@, 0) * m + c) by (nonlinear_arith)
            requires
                weight(0) == 1,
                low(self.limbs@, 0) == 0,
                carry == c,
        ;
        while i < n
            invariant
                i <= n,
                n == self.limbs@.len(),
                limbs@.len() == i,
                low(limbs@, i as nat) + carry * weight(i as nat) == low(self.limbs@, i as nat) * m
                    + c,
            decreases n - i,
        {
            let x: u64 = self.limbs[i];
            assert(x * m + carry <= 0xFFFF_FFFF_FFFF_FFFF * 0xFFFF_FFFF_FFFF_FFFF
                + 0xFFFF_FFFF_FFFF_FFFF) by (nonlinear_arith)
                requires
                    x <= 0xFFFF_FFFF_FFFF_FFFF,
                    m <= 0xFFFF_FFFF_FFFF_FFFF,
                    carry <= 0xFFFF_FFFF_FFFF_FFFF,
            ;
            assert(0 <= x * m) by (nonlinear_arith)
                requires
                    x >= 0,
                    m >= 0,
            ;
            let t: u128 = x as u128 * m as u128 + carry as u128;
            let digit: u64 = (t % 0x1_0000_0000_0000_0000) as u64;
            let next: u64 = (t / 0x1_0000_0000_0000_0000) as u64;
            let ghost before = limbs@;
            limbs.push(digit);
            proof {
                lemma_low_push(before, digit);
                let w = weight(i as nat);
                let l = low(self.limbs@, i as nat);
                let p = low(before, i as nat);
                assert(t == digit + next * limb_base());
                assert(limb(self.limbs@, i as int) == x);
                assert(p + digit * w + next * (limb_base() * w) == (l + x * w) * m + c)
                    by (nonlinear_arith)
                    requires
                        p + carry * w == l * m + c,
                        x * m + carry == digit + next * limb_base(),
                ;
            }
            carry = next;
            i = i + 1;
        }
        let ghost before = limbs@;
        if carry != 0 {
            limbs.push(carry);
            proof {
                lemma_low_push(before, carry);
            }
        } else {
            proof {
                vstd::arithmetic::mul::lemma_mul_basics(weight(n as nat) as int);
            }
        }
        Natural { limbs }
    }

    /// `self + other`.
    pub fn plus(&self, other: &Natural) -> (r: Natural)
        ensures
            r@ == self@ + other@,
    {
        let mut limbs: Vec<u64> = Vec::new();
        let mut carry: u64 = 0;
        let n: usize = if self.limbs.len() < other.limbs.len() {
            other.limbs.len()
        } else {
            self.limbs.len()
        };
        let mut i: usize = 0;
        assert(weight(0) == 1);
        while i < n
            invariant
                i <= n,
                carry <= 1,
                limbs@.len() == i,
                low(limbs@, i as nat) + carry * weight(i as nat) == low(self.limbs@, i as nat)
                    + low(other.limbs@, i as nat),
            decreases n - i,
        {
            let x: u64 = self.limb_at(i);
            let y: u64 = other.limb_at(i);
            let t: u128 = x as u128 + y as u128 + carry as u128;
            let digit: u64 = (t % 0x1_0000_0000_0000_0000) as u64;
            let next: u64 = (t / 0x1_0000_0000_0000_0000) as u64;
            let ghost before = limbs@;
            limbs.push(digit);
            proof {
                lemma_low_push(before, digit);
                let w = weight(i as nat);
                assert(t == digit + next * limb_base());
                assert(digit * w + next * (limb_base() * w) == x * w + y * w + carry * w)
                    by (nonlinear_arith)
                    requires
                        x + y + carry == digit + next * limb_base(),
                ;
            }
            carry = next;
            i = i + 1;
        }
        let ghost before = limbs@;
        if carry != 0 {
            limbs.push(carry);
        }
        proof {
            if carry != 0 {
                lemma_low_push(before, carry);
            } else {
                vstd::arithmetic::mul::lemma_mul_basics(weight(n as nat) as int);
            }
            lemma_low_past(self.limbs@, n as nat);
            lemma_low_past(other.limbs@, n as nat);
        }
        Natural { limbs }
    }

    fn limb_at(&self, i: usize) -> (x: u64)
        ensures
            x == limb(self.limbs@, i as int),
    {
        if i < self.limbs.len() {
            self.limbs[i]
        } else {
            0
        }
    }

    /// Whether `self < other`, and whether they are equal.
    fn order(&self, other: &Natural) -> (r: (bool, bool))
        ensures
            r.0 == (self@ < other@),
            r.1 == (self@ == other@),
    {
        let n: usize = if self.limbs.len() < other.limbs.len() {
            other.limbs.len()
        } else {
            self.limbs.len()
        };
        let mut less = false;
        let mut same = true;
        let mut i: usize = 0;
        while i < n
            invariant
                i <= n,
                less == (low(self.limbs@, i as nat) < low(other.limbs@, i as nat)),
                same == (low(self.limbs@, i as nat) == low(other.limbs@, i as nat)),
            decreases n - i,
        {
            let x: u64 = self.limb_at(i);
            let y: u64 = other.limb_at(i);
            proof {
                lemma_low_bound(self.limbs@, i as nat);
                lemma_low_bound(other.limbs@, i as nat);
                let w = weight(i as nat);
                assert(x < y ==> x * w + w <= y * w) by (nonlinear_arith)
                    requires
                        w >= 0,
                ;
                assert(y < x ==> y * w + w <= x * w) by (nonlinear_arith)
                    requires
                        w >= 0,
                ;
            }
            if x < y {
                less = true;
                same = false;
            } else if y < x {
                less = false;
                same = false;
            }
            i = i + 1;
        }
        proof {
            lemma_low_past(self.limbs@, n as nat);
            lemma_low_past(other.limbs@, n as nat);
        }
        (less, same)
    }

    /// `self < other`, or `self <= other` where `inclusive`.
    pub fn below(&self, other: &Natural, inclusive: bool) -> (r: bool)
        ensures
            r == (self@ < other@ || (inclusive && self@ == other@)),
    {
        let (less, same) = self.order(other);
        less || (inclusive && same)
    }

    pub fn is_zero(&self) -> (r: bool)
        ensures
            r == (self@ == 0),
    {
        let zero = Natural::new(0);
        let (_, same) = self.order(&zero);
        same
    }

    /// The number, where it fits 64 bits.
    pub fn to_u64(&self) -> (r: Option<u64>)
        ensures
            r is Some <==> self@ < limb_base(),
            r matches Some(v) ==> v == self@,
    {
        let limit = Natural::new(1).raised();
        if !self.below(&limit, false) {
            return None;
        }
        let ghost s = self.limbs@;
        if self.limbs.len() == 0 {
            return Some(0);
        }
        proof {
            let rest = s.skip(1);
            assert(s =~= seq![s[0]] + rest);
            lemma_low_cons(s[0], rest, rest.len());
            assert(low(rest, rest.len()) == 0) by (nonlinear_arith)
                requires
                    s[0] + limb_base() * low(rest, rest.len()) < limb_base(),
                    s[0] >= 0,
            ;
        }
        Some(self.limbs[0])
    }

    /// `self * 2^64`.
    fn raised(&self) -> (r: Natural)
        ensures
            r@ == self@ * limb_base(),
    {
        let mut limbs: Vec<u64> = Vec::new();
        limbs.push(0);
        let n: usize = self.limbs.len();
        let mut i: usize = 0;
        while i < n
            invariant
                i <= n,
                n == self.limbs@.len(),
                limbs@ =~= seq![0u64] + self.limbs@.take(i as int),
            decreases n - i,
        {
            limbs.push(self.limbs[i]);
            i = i + 1;
        }
        proof {
            assert(limbs@ =~= seq![0u64] + self.limbs@);
            lemma_low_cons(0, self.limbs@, self.limbs@.len());
            assert(limb_base() * self@ == self@ * limb_base()) by (nonlinear_arith);
        }
        Natural { limbs }
    }

    /// The quotient and the remainder of `self` by `d`.
    pub fn divided(&self, d: u64) -> (r: (Natural, u64))
        requires
            d > 0,
        ensures
            self@ == r.0@ * d + r.1,
            r.1 < d,
    {
        let mut quotient: Vec<u64> = Vec::new();
        let mut rest: u64 = 0;
        let mut i: usize = self.limbs.len();
        let ghost a = self.limbs@;
        proof {
            assert(low(quotient@, 0) * d == 0) by (nonlinear_arith)
                requires
                    low(quotient@, 0) == 0,
            ;
        }
        while i > 0
            invariant
                i <= a.len(),
                a == self.limbs@,
                rest < d,
                low(a.skip(i as int), (a.len() - i) as nat) == low(quotient@, quotient@.len()) * d
                    + rest,
            decreases i,
        {
            let x: u64 = self.limbs[i - 1];
            let ghost old_rest = rest;
            let (digit, left) = divided_limb(rest, x, d);
            let ghost before = quotient@;
            rest = left;
            // The highest limb is not zero.
            if digit != 0 || quotient.len() > 0 {
                quotient.insert(0, digit);
                assert(quotient@ =~= seq![digit] + before);
            }
            proof {
                lemma_low_cons(digit, before, before.len());
                if quotient@.len() == 0 {
                    assert(low(before, 0) == 0);
                }
                assert(a.skip(i - 1) =~= seq![x] + a.skip(i as int));
                lemma_low_cons(x, a.skip(i as int), (a.len() - i) as nat);
                let s = low(a.skip(i as int), (a.len() - i) as nat);
                let p = low(before, before.len());
                assert(x + limb_base() * s == (digit + limb_base() * p) * d + rest)
                    by (nonlinear_arith)
                    requires
                        s == p * d + old_rest,
                        old_rest * limb_base() + x == digit * d + rest,
                ;
            }
            i = i - 1;
        }
        assert(a.skip(0) =~= a);
        (Natural { limbs: quotient }, rest)
    }

    /// `self * 2^k`.
    pub fn doubled(&self, k: u32) -> (r: Natural)
        ensures
            r@ == self@ * vstd::arithmetic::power2::pow2(k as nat),
    {
        let mut r = self.copy();
        let mut left: u32 = k;
        proof {
            vstd::arithmetic::power2::lemma2_to64();
            assert(self@ * 1 == self@);
        }
        while left >= 64
            invariant
                left <= k,
                r@ == self@ * vstd::arithmetic::power2::pow2((k - left) as nat),
            decreases left,
        {
            let ghost before = r@;
            r = r.raised();
            proof {
                vstd::arithmetic::power2::lemma_pow2_adds((k - left) as nat, 64);
                vstd::arithmetic::power2::lemma2_to64();
                let p = vstd::arithmetic::power2::pow2((k - left) as nat);
                assert(vstd::arithmetic::power2::pow2(64) == limb_base());
                assert((self@ * p) * limb_base() == self@ * (p * limb_base()))
                    by (nonlinear_arith);
            }
            left = left - 64;
        }
        while left > 0
            invariant
                left <= k,
                left < 64,
                r@ == self@ * vstd::arithmetic::power2::pow2((k - left) as nat),
            decreases left,
        {
            let step: u32 = if left >= 32 {
                32
            } else {
                1
            };
            let m: u64 = if left >= 32 {
                0x1_0000_0000
            } else {
                2
            };
            r = r.times_plus(m, 0);
            proof {
                vstd::arithmetic::power2::lemma_pow2_adds((k - left) as nat, step as nat);
                vstd::arithmetic::power2::lemma2_to64();
                let p = vstd::arithmetic::power2::pow2((k - left) as nat);
                assert((self@ * p) * m == self@ * (p * m)) by (nonlinear_arith);
            }
            left = left - step;
        }
        r
    }

    /// `self * b^k`.
    pub fn times_power(&self, b: u64, k: u128) -> (r: Natural)
        ensures
            r@ == self@ * vstd::arithmetic::power::pow(b as int, k as nat),
    {
        let mut r = self.copy();
        let mut i: u128 = 0;
        proof {
            vstd::arithmetic::power::lemma_pow0(b as int);
            assert(self@ * 1 == self@);
        }
        while i < k
            invariant
                i <= k,
                r@ == self@ * vstd::arithmetic::power::pow(b as int, i as nat),
            decreases k - i,
        {
            r = r.times_plus(b, 0);
            proof {
                let p = vstd::arithmetic::power::pow(b as int, i as nat);
                reveal(vstd::arithmetic::power::pow);
                assert((self@ * p) * b == self@ * (b * p)) by (nonlinear_arith);
            }
            i = i + 1;
        }
        r
    }
}

/// One step of a long division: `rest` limbs of the base and `x`, by `d`.
fn divided_limb(rest: u64, x: u64, d: u64) -> (r: (u64, u64))
    requires
        rest < d,
    ensures
        rest * limb_base() + x == r.0 * d + r.1,
        r.1 < d,
{
    proof {
        lemma_quotient_fits(rest, x, d);
    }
    if d <= 0xFFFF_FFFF {
        // Two steps of half a limb each stay within 64 bits.
        let hi: u64 = x / 0x1_0000_0000;
        let lo: u64 = x % 0x1_0000_0000;
        assert(rest * 0x1_0000_0000 + hi < d * 0x1_0000_0000) by (nonlinear_arith)
            requires
                rest + 1 <= d,
                hi < 0x1_0000_0000,
        ;
        assert(rest * 0x1_0000_0000 + hi <= 0xFFFF_FFFF_FFFF_FFFF);
        let t: u64 = rest * 0x1_0000_0000 + hi;
        let q: u64 = t / d;
        let m: u64 = t % d;
        proof {
            lemma_half_limb(rest, hi, d, t, q, m);
            assert(m * 0x1_0000_0000 + lo < d * 0x1_0000_0000) by (nonlinear_arith)
                requires
                    m + 1 <= d,
                    lo < 0x1_0000_0000,
            ;
        }
        let u: u64 = m * 0x1_0000_0000 + lo;
        let p: u64 = u / d;
        let n: u64 = u % d;
        proof {
            lemma_half_limb(m, lo, d, u, p, n);
            assert(rest * limb_base() + x == (q * 0x1_0000_0000 + p) * d + n) by (nonlinear_arith)
                requires
                    x == hi * 0x1_0000_0000 + lo,
                    rest * 0x1_0000_0000 + hi == q * d + m,
                    m * 0x1_0000_0000 + lo == p * d + n,
                    limb_base() == 0x1_0000_0000 * 0x1_0000_0000,
            ;
        }
        (q * 0x1_0000_0000 + p, n)
    } else {
        let t: u128 = rest as u128 * 0x1_0000_0000_0000_0000 + x as u128;
        let digit: u64 = (t / d as u128) as u64;
        let left: u64 = (t % d as u128) as u64;
        proof {
            let q = t as int / d as int;
            vstd::arithmetic::div_mod::lemma_fundamental_div_mod(t as int, d as int);
            vstd::arithmetic::mul::lemma_mul_is_commutative(q, d as int);
        }
        (digit, left)
    }
}

/// The quotient of half a step is half a limb.
proof fn lemma_half_limb(rest: u64, h: u64, d: u64, t: u64, q: u64, m: u64)
    requires
        rest < d,
        h < 0x1_0000_0000,
        t == rest * 0x1_0000_0000 + h,
        t < d * 0x1_0000_0000,
        q == t / d,
        m == t % d,
    ensures
        t == q * d + m,
        m < d,
        q < 0x1_0000_0000,
{
    vstd::arithmetic::div_mod::lemma_fundamental_div_mod(t as int, d as int);
    vstd::arithmetic::mul::lemma_mul_is_commutative(t as int / d as int, d as int);
    vstd::arithmetic::div_mod::lemma_mod_bound(t as int, d as int);
    assert(q < 0x1_0000_0000) by (nonlinear_arith)
        requires
            q * d <= t,
            t < d * 0x1_0000_0000,
            d > 0,
    ;
}

proof fn lemma_quotient_fits(rest: u64, x: u64, d: u64)
    requires
        rest < d,
    ensures
        rest * limb_base() + x < 0x1_0000_0000_0000_0000_0000_0000_0000_0000,
        0 <= (rest * limb_base() + x) / (d as int) < limb_base(),
{
    let t = rest * limb_base() + x;
    assert(t < d * limb_base()) by (nonlinear_arith)
        requires
            t == rest * limb_base() + x,
            rest <= d - 1,
            x < limb_base(),
    ;
    vstd::arithmetic::div_mod::lemma_div_by_multiple_is_strongly_ordered(
        t,
        d * limb_base(),
        limb_base() as int,
        d as int,
    );
    vstd::arithmetic::div_mod::lemma_div_multiples_vanish(limb_base() as int, d as int);
    vstd::arithmetic::div_mod::lemma_div_pos_is_pos(t, d as int);
}

} // verus!

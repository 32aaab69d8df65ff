//! Numbers as documents spell them: the text of a double and of a rounded
//! single, and the double that a numeral stands for.
use crate::decimal;
use crate::decimal::{decimal_magnitude, shortest_decimal};
use crate::ieee;
use crate::ieee::{Binary32, Binary64, HIDDEN_32, TOP_32, TOP_64};
use crate::natural::Natural;
use crate::text;
use vstd::arithmetic::div_mod::*;
use vstd::arithmetic::mul::*;
use vstd::arithmetic::power::*;
use vstd::arithmetic::power2::*;
use vstd::prelude::*;
use vstd::utf8::*;

verus! {

// ---------------------------------------------------------------------
// Numbers to text.
// ---------------------------------------------------------------------
/// The `q` lowest decimal digits of `v`.
pub open spec fn low_digits(v: nat, q: nat) -> Seq<char>
    decreases q,
{
    if q == 0 {
        Seq::empty()
    } else {
        low_digits(v / 10, (q - 1) as nat).push(text::digit_char((v % 10) as int))
    }
}

/// `c * 10^e` written out in full, with a point where `e` is negative.
pub open spec fn plain(c: nat, e: int) -> Seq<char> {
    if e >= 0 {
        text::decimal(c * decimal::tenfold(e))
    } else {
        text::decimal(c / decimal::tenfold(-e)) + seq!['.'] + low_digits(c, (-e) as nat)
    }
}

/// A minus sign, where there is one.
pub open spec fn sign(negative: bool) -> Seq<char> {
    if negative {
        seq!['-']
    } else {
        Seq::empty()
    }
}

/// Digits that were split off from the low end, in reading order.
spec fn reading_order(digits: Seq<u8>) -> Seq<char> {
    Seq::new(digits.len(), |i: int| text::digit_char(digits[digits.len() - 1 - i] as int))
}

proof fn lemma_reading_order(digits: Seq<u8>, d: u8)
    ensures
        reading_order(digits.push(d)) == seq![text::digit_char(d as int)] + reading_order(digits),
{
    assert(reading_order(digits.push(d)) =~= seq![text::digit_char(d as int)] + reading_order(
        digits,
    ));
}

fn push_reading_order(out: &mut String, digits: &Vec<u8>)
    requires
        forall|i: int| 0 <= i < digits@.len() ==> digits@[i] < 10,
    ensures
        final(out)@ == old(out)@ + reading_order(digits@),
{
    let mut i: usize = digits.len();
    while i > 0
        invariant
            i <= digits@.len(),
            forall|j: int| 0 <= j < digits@.len() ==> digits@[j] < 10,
            out@ =~= old(out)@ + reading_order(digits@).take(digits@.len() - i),
        decreases i,
    {
        i = i - 1;
        out.push((48 + digits[i]) as char);
    }
    assert(reading_order(digits@).take(digits@.len() as int) =~= reading_order(digits@));
}

/// Append a natural number in decimal.
fn push_natural(out: &mut String, n: &Natural)
    ensures
        final(out)@ == old(out)@ + text::decimal(n@),
{
    let (q, d) = n.divided(10);
    let mut digits: Vec<u8> = Vec::new();
    digits.push(d as u8);
    let mut rest = q;
    proof {
        lemma_reading_order(Seq::empty(), d as u8);
        assert(digits@ =~= Seq::empty().push(d as u8));
        assert(reading_order(digits@) =~= seq![text::digit_char(d as int)]);
        lemma_tens(n@, q@, d as nat);
        if rest@ > 0 {
            assert(text::decimal(n@) =~= text::decimal(rest@) + reading_order(digits@));
        }
    }
    while !rest.is_zero()
        invariant
            forall|i: int| 0 <= i < digits@.len() ==> digits@[i] < 10,
            rest@ == 0 ==> text::decimal(n@) == reading_order(digits@),
            rest@ > 0 ==> text::decimal(n@) == text::decimal(rest@) + reading_order(digits@),
        decreases rest@,
    {
        let (q, d) = rest.divided(10);
        let ghost before = digits@;
        digits.push(d as u8);
        proof {
            lemma_reading_order(before, d as u8);
            lemma_tens(rest@, q@, d as nat);
            let first = seq![text::digit_char(d as int)];
            if q@ > 0 {
                assert(text::decimal(q@) + first + reading_order(before) =~= text::decimal(q@) + (
                first + reading_order(before)));
                assert(text::decimal(rest@) =~= text::decimal(q@) + first);
            } else {
                assert(text::decimal(rest@) =~= first);
            }
        }
        rest = q;
    }
    push_reading_order(out, &digits);
}

proof fn lemma_tens(n: nat, q: nat, d: nat)
    requires
        n == q * 10 + d,
        d < 10,
    ensures
        n / 10 == q,
        n % 10 == d,
        q == 0 ==> text::decimal(n) == seq![text::digit_char(d as int)],
        q > 0 ==> text::decimal(n) == text::decimal(q).push(text::digit_char(d as int)),
{
}

/// Append `c * 10^e`, written out in full.
fn push_plain(out: &mut String, c: &Natural, e: i32)
    requires
        -2000 <= e <= 2000,
    ensures
        final(out)@ == old(out)@ + plain(c@, e as int),
{
    if e >= 0 {
        proof {
            decimal::lemma_tenfold(e as int);
        }
        push_natural(out, &c.times_power(10, e as u128));
    } else {
        let q: u32 = (-e) as u32;
        let mut digits: Vec<u8> = Vec::new();
        let mut rest = c.copy();
        let mut k: u32 = 0;
        proof {
            lemma_pow0(10);
            lemma_div_basics(c@ as int);
            assert(low_digits(c@, q as nat) =~= low_digits(rest@, q as nat) + reading_order(
                digits@,
            ));
        }
        while k < q
            invariant
                k <= q,
                forall|i: int| 0 <= i < digits@.len() ==> digits@[i] < 10,
                rest@ == c@ as int / pow(10, k as nat),
                low_digits(c@, q as nat) == low_digits(rest@, (q - k) as nat) + reading_order(
                    digits@,
                ),
            decreases q - k,
        {
            let (next, d) = rest.divided(10);
            let ghost before = digits@;
            digits.push(d as u8);
            proof {
                lemma_tens(rest@, next@, d as nat);
                lemma_reading_order(before, d as u8);
                let first = seq![text::digit_char(d as int)];
                let upper = low_digits(next@, (q - k - 1) as nat);
                assert(low_digits(rest@, (q - k) as nat) =~= upper + first);
                assert(upper + first + reading_order(before) =~= upper + (first + reading_order(
                    before,
                )));
                lemma_pow_positive(10, k as nat);
                lemma_div_denominator(c@ as int, pow(10, k as nat), 10);
                reveal(pow);
                lemma_mul_is_commutative(pow(10, k as nat), 10);
            }
            rest = next;
            k = k + 1;
        }
        proof {
            decimal::lemma_tenfold(q as int);
        }
        push_natural(out, &rest);
        out.push('.');
        push_reading_order(out, &digits);
        assert(out@ =~= old(out)@ + plain(c@, e as int));
    }
}

fn push_sign(out: &mut String, negative: bool)
    ensures
        final(out)@ == old(out)@ + sign(negative),
{
    if negative {
        out.push('-');
    }
    assert(out@ =~= old(out)@ + sign(negative));
}

proof fn lemma_low_digits_ascii(v: nat, q: nat)
    ensures
        is_ascii_chars(low_digits(v, q)),
    decreases q,
{
    if q > 0 {
        lemma_low_digits_ascii(v / 10, (q - 1) as nat);
        let s = low_digits(v, q);
        let t = low_digits(v / 10, (q - 1) as nat);
        assert forall|i: int| 0 <= i < s.len() implies '\0' <= #[trigger] s[i] <= '\u{7f}' by {
            if i < t.len() {
                assert(s[i] == t[i]);
            }
        }
    }
}

/// Numbers print as ASCII.
pub proof fn lemma_display_ascii(n: Binary64)
    ensures
        is_ascii_chars(n.display()),
{
    let (c, e) = decimal::shortest(n.magnitude());
    if e >= 0 {
        text::lemma_numeral_ascii(c * decimal::tenfold(e), 10);
    } else {
        text::lemma_numeral_ascii(c / decimal::tenfold(-e), 10);
        lemma_low_digits_ascii(c, (-e) as nat);
    }
}

impl Binary64 {
    /// The number in decimal: the fewest digits that give the number back,
    /// written out in full.
    pub open spec fn display(self) -> Seq<char> {
        let mag = self.magnitude();
        let (c, e) = decimal::shortest(mag);
        if self.nan() {
            seq!['N', 'a', 'N']
        } else {
            sign(self.negative()) + if mag == TOP_64 {
                seq!['i', 'n', 'f']
            } else if mag == 0 {
                seq!['0']
            } else {
                plain(c, e)
            }
        }
    }

    /// Append the number in decimal.
    pub fn push_display(&self, out: &mut String)
        ensures
            final(out)@ == old(out)@ + self.display(),
    {
        let mag: u64 = self.bits % 0x8000_0000_0000_0000;
        if mag > TOP_64 {
            out.push('N');
            out.push('a');
            out.push('N');
        } else {
            push_sign(out, self.bits >= 0x8000_0000_0000_0000);
            if mag == TOP_64 {
                out.push('i');
                out.push('n');
                out.push('f');
            } else if mag == 0 {
                out.push('0');
            } else {
                let (c, e) = shortest_decimal(mag);
                push_plain(out, &c, e);
            }
        }
        assert(out@ =~= old(out)@ + self.display());
    }
}

/// `n / d` rounded to an integer, halves to the even one.
pub open spec fn half_even(n: nat, d: nat) -> nat {
    let q = n / d;
    let r = n % d;
    if 2 * r < d || (2 * r == d && q % 2 == 0) {
        q
    } else {
        q + 1
    }
}

impl Binary32 {
    /// The number with `places` decimals, rounded.
    pub open spec fn fixed(self, places: nat) -> Seq<char> {
        let mag = self.magnitude();
        if self.nan() {
            seq!['N', 'a', 'N']
        } else {
            sign(self.negative()) + if mag == TOP_32 {
                seq!['i', 'n', 'f']
            } else {
                plain(
                    half_even(
                        ieee::units_32(mag) * decimal::tenfold(places as int),
                        ieee::one_32(),
                    ),
                    -places,
                )
            }
        }
    }

    /// Append the number with `places` decimals.
    pub fn push_fixed(&self, out: &mut String, places: u32)
        requires
            places <= 1,
        ensures
            final(out)@ == old(out)@ + self.fixed(places as nat),
    {
        let mag: u32 = self.bits % 0x8000_0000;
        if mag as u64 > TOP_32 {
            out.push('N');
            out.push('a');
            out.push('N');
        } else {
            push_sign(out, self.bits >= 0x8000_0000);
            if mag as u64 == TOP_32 {
                out.push('i');
                out.push('n');
                out.push('f');
            } else {
                let t = fixed_magnitude(mag, places);
                push_plain(out, &t, -(places as i32));
            }
        }
        assert(out@ =~= old(out)@ + self.fixed(places as nat));
    }
}

/// A single-precision magnitude with `places` decimals, counted in units of
/// the last.
fn fixed_magnitude(mag: u32, places: u32) -> (t: Natural)
    requires
        mag < TOP_32,
        places <= 1,
    ensures
        t@ == half_even(
            ieee::units_32(mag as nat) * decimal::tenfold(places as int),
            ieee::one_32(),
        ),
{
    let (s, e): (u32, u32) = if mag < 0x80_0000 {
        (mag, 0)
    } else {
        (0x80_0000 + mag % 0x80_0000, mag / 0x80_0000 - 1)
    };
    let ten: u64 = if places == 1 {
        10
    } else {
        1
    };
    proof {
        lemma_pow1(10);
        assert(ten == decimal::tenfold(places as int));
        assert(s == ieee::significand(HIDDEN_32 as nat, mag as nat));
        assert(e == ieee::exponent(HIDDEN_32 as nat, mag as nat));
    }
    let x: u64 = if places == 1 {
        s as u64 * 10
    } else {
        s as u64
    };
    let ghost u = ieee::units_32(mag as nat);
    let ghost one = ieee::one_32();
    proof {
        lemma_pow2_pos(149);
        let p = pow2(e as nat);
        assert(u * ten == x * p) by (nonlinear_arith)
            requires
                u == s * p,
                x == s * ten,
        ;
    }
    if e >= 149 {
        let t = Natural::new(x).doubled(e - 149);
        proof {
            let k = (e - 149) as nat;
            lemma_pow2_adds(k, 149);
            assert(x * pow2(e as nat) == t@ * one) by (nonlinear_arith)
                requires
                    t@ == x * pow2(k),
                    pow2(e as nat) == pow2(k) * one,
            ;
            lemma_fundamental_div_mod_converse((u * ten) as int, one as int, t@ as int, 0);
        }
        t
    } else {
        let k: u32 = 149 - e;
        proof {
            lemma_pow2_adds(k as nat, e as nat);
            lemma_pow2_pos(e as nat);
            lemma_pow2_pos(k as nat);
            lemma_half_even_cancel(x as nat, pow2(k as nat), pow2(e as nat));
            lemma2_to64();
        }
        if k >= 30 {
            proof {
                if k > 30 {
                    lemma_pow2_strictly_increases(30, k as nat);
                }
                lemma_basic_div(x as int, pow2(k as nat) as int);
                lemma_small_mod(x as nat, pow2(k as nat));
            }
            Natural::new(0)
        } else {
            proof {
                lemma_pow2_strictly_increases(k as nat, 32);
                vstd::bits::lemma_u64_shl_is_mul(1, k as u64);
            }
            let d: u64 = 1u64 << k as u64;
            let q: u64 = x / d;
            let r: u64 = x % d;
            let t: u64 = if 2 * r < d || (2 * r == d && q % 2 == 0) {
                q
            } else {
                q + 1
            };
            Natural::new(t)
        }
    }
}

proof fn lemma_half_even_cancel(x: nat, d: nat, c: nat)
    requires
        d > 0,
        c > 0,
    ensures
        half_even(x * c, d * c) == half_even(x, d),
{
    ieee::lemma_cancel(x, d, c);
    let r = x % d;
    assert(2 * (r * c) < d * c <==> 2 * r < d) by (nonlinear_arith)
        requires
            c > 0,
    ;
    assert(2 * (r * c) == d * c <==> 2 * r == d) by (nonlinear_arith)
        requires
            c > 0,
    ;
}

// ---------------------------------------------------------------------
// Text to numbers.
// ---------------------------------------------------------------------
/// An octet that is a decimal digit.
pub open spec fn is_digit(b: u8) -> bool {
    48 <= b <= 57
}

/// How many digits `s` opens with.
pub open spec fn leading(s: Seq<u8>) -> nat
    decreases s.len(),
{
    if s.len() > 0 && is_digit(s[0]) {
        1 + leading(s.skip(1))
    } else {
        0
    }
}

/// The number that digits spell.
pub open spec fn spelled(s: Seq<u8>) -> nat
    decreases s.len(),
{
    if s.len() == 0 {
        0
    } else {
        10 * spelled(s.drop_last()) + (s.last() - 48) as nat
    }
}

/// One digit or more, and nothing else.
pub open spec fn all_digits(s: Seq<u8>) -> Option<nat> {
    if s.len() > 0 && leading(s) == s.len() {
        Some(spelled(s))
    } else {
        None
    }
}

/// An integer with a sign or without one.
pub open spec fn signed_digits(s: Seq<u8>) -> Option<int> {
    if s.len() > 0 && s[0] == 45 {
        match all_digits(s.skip(1)) {
            Some(v) => Some(-(v as int)),
            None => None,
        }
    } else if s.len() > 0 && s[0] == 43 {
        match all_digits(s.skip(1)) {
            Some(v) => Some(v as int),
            None => None,
        }
    } else {
        match all_digits(s) {
            Some(v) => Some(v as int),
            None => None,
        }
    }
}

/// The exponent that closes a numeral: `e` and an integer, or nothing.
pub open spec fn exponent_part(s: Seq<u8>) -> Option<int> {
    if s.len() == 0 {
        Some(0)
    } else if s[0] == 101 || s[0] == 69 {
        signed_digits(s.skip(1))
    } else {
        None
    }
}

/// What `s` spells without a sign, as `c * 10^e`: digits, of which some may
/// stand behind a point, and an exponent.
pub open spec fn unsigned_part(s: Seq<u8>) -> Option<(nat, int)> {
    let i = leading(s) as int;
    let point = i < s.len() && s[i] == 46;
    let j = if point {
        leading(s.skip(i + 1)) as int
    } else {
        0
    };
    let digits = if point {
        s.take(i) + s.subrange(i + 1, i + 1 + j)
    } else {
        s.take(i)
    };
    let rest = if point {
        s.skip(i + 1 + j)
    } else {
        s.skip(i)
    };
    if digits.len() == 0 {
        None
    } else {
        match exponent_part(rest) {
            Some(x) => Some((spelled(digits), x - j)),
            None => None,
        }
    }
}

/// The double that a numeral stands for.
pub open spec fn read_number(s: Seq<u8>) -> Option<Binary64> {
    let negative = s.len() > 0 && s[0] == 45;
    let body = if negative || (s.len() > 0 && s[0] == 43) {
        s.skip(1)
    } else {
        s
    };
    match unsigned_part(body) {
        Some((c, e)) => Some(Binary64::signed(negative, decimal::nearest_decimal(c, e))),
        None => None,
    }
}

/// A numeral of the JSON grammar: a minus sign or none; digits, the first of
/// them no zero where there is another; a point with digits behind it, or
/// none; an exponent or none.
pub open spec fn well_formed(s: Seq<u8>) -> bool {
    let t = if s.len() > 0 && s[0] == 45 {
        s.skip(1)
    } else {
        s
    };
    let i = leading(t) as int;
    i > 0 && (t[0] == 48 ==> i == 1) && fraction_part(t.skip(i))
}

/// What may stand behind the digits before the point.
pub open spec fn fraction_part(s: Seq<u8>) -> bool {
    if s.len() > 0 && s[0] == 46 {
        let q = leading(s.skip(1)) as int;
        q > 0 && exponent_part(s.skip(1).skip(q)) is Some
    } else {
        exponent_part(s) is Some
    }
}

pub proof fn lemma_leading(s: Seq<u8>)
    ensures
        leading(s) <= s.len(),
        forall|i: int| 0 <= i < leading(s) ==> is_digit(#[trigger] s[i]),
        leading(s) < s.len() ==> !is_digit(s[leading(s) as int]),
    decreases s.len(),
{
    if s.len() > 0 && is_digit(s[0]) {
        lemma_leading(s.skip(1));
        assert forall|i: int| 0 <= i < leading(s) implies is_digit(#[trigger] s[i]) by {
            if i > 0 {
                assert(s.skip(1)[i - 1] == s[i]);
            }
        }
    }
}

/// Digits up to something else are what a text opens with.
pub proof fn lemma_leading_is(s: Seq<u8>, n: nat)
    requires
        n <= s.len(),
        forall|i: int| 0 <= i < n ==> is_digit(#[trigger] s[i]),
        n < s.len() ==> !is_digit(s[n as int]),
    ensures
        leading(s) == n,
{
    lemma_leading(s);
    if leading(s) < n {
        assert(is_digit(s[leading(s) as int]));
    }
    if n < leading(s) {
        assert(is_digit(s[n as int]));
    }
}

pub proof fn lemma_spelled_bound(s: Seq<u8>)
    requires
        forall|i: int| 0 <= i < s.len() ==> is_digit(#[trigger] s[i]),
    ensures
        spelled(s) < pow(10, s.len()),
    decreases s.len(),
{
    reveal(pow);
    if s.len() > 0 {
        lemma_spelled_bound(s.drop_last());
        assert(is_digit(s[s.len() - 1]));
    }
}

fn count_digits(b: &[u8]) -> (n: usize)
    ensures
        n == leading(b@),
        n <= b@.len(),
{
    let mut n: usize = 0;
    while n < b.len() && 48 <= b[n] && b[n] <= 57
        invariant
            n <= b@.len(),
            forall|i: int| 0 <= i < n ==> is_digit(#[trigger] b@[i]),
        decreases b.len() - n,
    {
        n = n + 1;
    }
    proof {
        lemma_leading_is(b@, n as nat);
    }
    n
}

/// The part of `b` from `i` on.
fn tail(b: &[u8], i: usize) -> (t: &[u8])
    requires
        i <= b@.len(),
    ensures
        t@ == b@.skip(i as int),
{
    let t = &b[i..b.len()];
    assert(t@ =~= b@.skip(i as int));
    t
}

fn take_digits(n: Natural, b: &[u8], Ghost(before): Ghost<Seq<u8>>) -> (r: Natural)
    requires
        forall|i: int| 0 <= i < b@.len() ==> is_digit(#[trigger] b@[i]),
        n@ == spelled(before),
    ensures
        r@ == spelled(before + b@),
{
    let mut r = n;
    let mut i: usize = 0;
    assert(before + b@.take(0) =~= before);
    while i < b.len()
        invariant
            i <= b@.len(),
            forall|j: int| 0 <= j < b@.len() ==> is_digit(#[trigger] b@[j]),
            r@ == spelled(before + b@.take(i as int)),
        decreases b.len() - i,
    {
        r = r.times_plus(10, (b[i] - 48) as u64);
        proof {
            let s = before + b@.take(i + 1);
            assert(s.drop_last() =~= before + b@.take(i as int));
            assert(s.last() == b@[i as int]);
        }
        i = i + 1;
    }
    assert(b@.take(b@.len() as int) =~= b@);
    r
}

/// A bound that no exponent of a finite, nonzero double comes near.
spec fn far() -> int {
    1_000_000_000_000_000_000_000_000_000_000
}

/// The value of `e` stands for the integer `exact`.
spec fn stands_for(e: int, exact: int) -> bool {
    ||| e == exact
    ||| e >= far() && exact >= far()
    ||| e <= -far() && exact <= -far()
}

fn digits_capped(b: &[u8]) -> (r: Option<u128>)
    ensures
        r is Some <==> all_digits(b@) is Some,
        r matches Some(v) ==> v <= far() && stands_for(v as int, all_digits(b@)->0 as int),
{
    if b.len() == 0 || count_digits(b) != b.len() {
        return None;
    }
    proof {
        lemma_leading(b@);
    }
    let mut v: u128 = 0;
    let mut i: usize = 0;
    while i < b.len()
        invariant
            i <= b@.len(),
            forall|j: int| 0 <= j < b@.len() ==> is_digit(#[trigger] b@[j]),
            v <= far(),
            v == spelled(b@.take(i as int)) || (v == far() && spelled(b@.take(i as int)) >= far()),
        decreases b.len() - i,
    {
        proof {
            let s = b@.take(i + 1);
            assert(s.drop_last() =~= b@.take(i as int));
            assert(s.last() == b@[i as int]);
        }
        v = v * 10 + (b[i] - 48) as u128;
        if v > 1_000_000_000_000_000_000_000_000_000_000 {
            v = 1_000_000_000_000_000_000_000_000_000_000;
        }
        i = i + 1;
    }
    assert(b@.take(b@.len() as int) =~= b@);
    Some(v)
}

fn read_exponent(b: &[u8]) -> (r: Option<i128>)
    ensures
        r is Some <==> exponent_part(b@) is Some,
        r matches Some(e) ==> -far() <= e <= far() && stands_for(e as int, exponent_part(b@)->0),
{
    if b.len() == 0 {
        return Some(0);
    }
    if b[0] != 101 && b[0] != 69 {
        return None;
    }
    let u = tail(b, 1);
    if u.len() > 0 && u[0] == 45 {
        match digits_capped(tail(u, 1)) {
            Some(v) => Some(-(v as i128)),
            None => None,
        }
    } else if u.len() > 0 && u[0] == 43 {
        match digits_capped(tail(u, 1)) {
            Some(v) => Some(v as i128),
            None => None,
        }
    } else {
        match digits_capped(u) {
            Some(v) => Some(v as i128),
            None => None,
        }
    }
}

fn read_unsigned(b: &[u8]) -> (r: Option<u64>)
    ensures
        r is Some <==> unsigned_part(b@) is Some,
        r matches Some(mag) ==> mag <= TOP_64 && mag == decimal::nearest_decimal(
            (unsigned_part(b@)->Some_0).0,
            (unsigned_part(b@)->Some_0).1,
        ),
{
    let i: usize = count_digits(b);
    let point = i < b.len() && b[i] == 46;
    let whole = &b[0..i];
    assert(whole@ =~= b@.take(i as int));
    proof {
        lemma_leading(b@);
    }
    let zero = Natural::new(0);
    let n = take_digits(zero, whole, Ghost(Seq::empty()));
    assert(Seq::empty() + whole@ =~= whole@);
    if point {
        let after = tail(b, i + 1);
        let j: usize = count_digits(after);
        let fraction = &after[0..j];
        proof {
            lemma_leading(after@);
            assert(fraction@ =~= b@.subrange(i + 1, i + 1 + j));
        }
        let n = take_digits(n, fraction, Ghost(whole@));
        let rest = tail(after, j);
        assert(rest@ =~= b@.skip(i + 1 + j));
        if i == 0 && j == 0 {
            return None;
        }
        let ghost digits = whole@ + fraction@;
        proof {
            lemma_spelled_bound(digits);
        }
        match read_exponent(rest) {
            Some(x) => Some(
                decimal_magnitude(
                    &n,
                    i + j,
                    x - j as i128,
                    Ghost(exponent_part(rest@)->0 - j),
                ),
            ),
            None => None,
        }
    } else {
        let rest = tail(b, i);
        if i == 0 {
            return None;
        }
        proof {
            lemma_spelled_bound(whole@);
        }
        match read_exponent(rest) {
            Some(x) => Some(decimal_magnitude(&n, i, x, Ghost(exponent_part(rest@)->0))),
            None => None,
        }
    }
}

/// Is this a numeral of the JSON grammar?
pub fn is_well_formed(b: &[u8]) -> (r: bool)
    ensures
        r == well_formed(b@),
{
    let t = if b.len() > 0 && b[0] == 45 {
        tail(b, 1)
    } else {
        b
    };
    let i: usize = count_digits(t);
    if i == 0 || (t[0] == 48 && i > 1) {
        return false;
    }
    let rest = tail(t, i);
    if rest.len() > 0 && rest[0] == 46 {
        let behind = tail(rest, 1);
        let q: usize = count_digits(behind);
        q > 0 && read_exponent(tail(behind, q)).is_some()
    } else {
        read_exponent(rest).is_some()
    }
}

/// Read a numeral.
pub fn parse_number(b: &[u8]) -> (r: Option<Binary64>)
    ensures
        r == read_number(b@),
{
    let negative = b.len() > 0 && b[0] == 45;
    let signed = negative || (b.len() > 0 && b[0] == 43);
    let body = if signed {
        tail(b, 1)
    } else {
        b
    };
    match read_unsigned(body) {
        Some(mag) => Some(
            Binary64 {
                bits: if negative {
                    0x8000_0000_0000_0000 + mag
                } else {
                    mag
                },
            },
        ),
        None => None,
    }
}

// ---------------------------------------------------------------------
// Division.
// ---------------------------------------------------------------------
/// `v / d`, rounded towards negative infinity.
pub fn floor_div(v: i64, d: i64) -> (q: i64)
    requires
        0 < d,
    ensures
        q == v as int / d as int,
{
    if v >= 0 {
        v / d
    } else {
        let n: i64 = -(v + 1);
        let q: i64 = n / d;
        proof {
            lemma_div_nonincreasing(n as int, d as int);
            lemma_div_pos_is_pos(n as int, d as int);
            lemma_fundamental_div_mod(n as int, d as int);
            let r = n as int % d as int;
            assert(0 <= r < d);
            assert(v as int == (-1 - q) * d + (d - 1 - r)) by (nonlinear_arith)
                requires
                    v as int == -1 - n,
                    n as int == d * q + r,
            ;
            lemma_fundamental_div_mod_converse(
                v as int,
                d as int,
                -1 - q,
                d - 1 - r,
            );
        }
        -1 - q
    }
}

} // verus!

//! Decimal numbers and double precision: the nearest double of a decimal,
//! and the shortest decimal of a double.
use crate::ieee;
use crate::ieee::{nearest_magnitude, parts_64, HIDDEN_64, TOP_64};
use crate::natural::Natural;
use vstd::arithmetic::div_mod::*;
use vstd::arithmetic::mul::*;
use vstd::arithmetic::power::*;
use vstd::arithmetic::power2::*;
use vstd::prelude::*;

verus! {

/// Ten to the power of `e`, where that is an integer.
pub open spec fn tenfold(e: int) -> nat {
    if e > 0 {
        pow(10, e as nat) as nat
    } else {
        1
    }
}

/// `c * 10^e` lies nearest to the double-precision magnitude `mag`.
pub open spec fn decimal_rounds_to(c: nat, e: int, mag: nat) -> bool {
    ieee::rounds_to(
        HIDDEN_64 as nat,
        TOP_64 as nat,
        c * tenfold(e) * ieee::one_64(),
        tenfold(-e),
        mag,
    )
}

/// The double-precision magnitude nearest to `c * 10^e`.
pub open spec fn nearest_decimal(c: nat, e: int) -> nat {
    ieee::nearest(
        HIDDEN_64 as nat,
        TOP_64 as nat,
        c * tenfold(e) * ieee::one_64(),
        tenfold(-e),
    )
}

pub proof fn lemma_tenfold(e: int)
    ensures
        tenfold(e) > 0,
        e >= 0 ==> tenfold(e + 1) == 10 * tenfold(e),
        e >= 0 ==> tenfold(e) == pow(10, e as nat),
{
    if e > 0 {
        lemma_pow_positive(10, e as nat);
    }
    if e >= 0 {
        lemma_pow0(10);
        reveal(pow);
    }
}

proof fn lemma_powers(k: nat)
    ensures
        pow(10, k) >= pow2(3 * k),
        0 < pow(5, k) <= pow2(3 * k),
        pow(10, k) == pow2(k) * pow(5, k),
    decreases k,
{
    reveal(pow);
    if k == 0 {
        lemma2_to64();
    } else {
        lemma_powers((k - 1) as nat);
        lemma_pow2_unfold(k);
        lemma_pow2_adds((3 * (k - 1)) as nat, 3);
        lemma2_to64();
        let a = pow2((k - 1) as nat) as int;
        let b = pow(5, (k - 1) as nat);
        assert(10 * (a * b) == (2 * a) * (5 * b)) by (nonlinear_arith);
    }
}

proof fn lemma_pow10_monotone(a: nat, b: nat)
    requires
        a <= b,
    ensures
        pow(10, a) <= pow(10, b),
{
    lemma_pow_increases(10, a, b);
}

/// Everything above the largest double rounds to infinity, and everything
/// far below the smallest to zero, whatever the digits.
proof fn lemma_extremes(c: nat, places: nat, e: int)
    requires
        c < pow(10, places),
    ensures
        c == 0 ==> nearest_decimal(c, e) == 0,
        c > 0 && e > 400 ==> nearest_decimal(c, e) == TOP_64,
        e < -400 - places ==> nearest_decimal(c, e) == 0,
{
    let m = HIDDEN_64 as nat;
    let top = TOP_64 as nat;
    let one = ieee::one_64();
    let n = c * tenfold(e) * one;
    let d = tenfold(-e);
    lemma_tenfold(e);
    lemma_tenfold(-e);
    lemma_pow2_pos(1074);
    assert(ieee::units(m, 0) == 0) by {
        lemma_mul_basics(pow2(0) as int);
    }
    assert(ieee::units(m, 1) == 1) by {
        lemma2_to64();
        lemma_mul_basics(pow2(0) as int);
    }
    lemma_mul_basics(d as int);
    if c == 0 {
        assert(n == 0) by (nonlinear_arith)
            requires
                n == c * tenfold(e) * one,
                c == 0,
        ;
        assert((ieee::units(m, 0) + ieee::units(m, 1)) * d == d);
        ieee::lemma_nearest_unique(m, top, n, d, 0);
    } else if e > 400 {
        lemma_pow10_monotone(400, e as nat);
        lemma_powers(400);
        lemma_pow2_strictly_increases(1024, 1200);
        lemma_pow2_adds(52, 2046);
        lemma_pow2_adds(1024, 1074);
        lemma2_to64_rest();
        assert(ieee::units(m, top) == pow2(2098));
        let t = tenfold(e);
        assert(n >= pow2(1024) * one) by (nonlinear_arith)
            requires
                n == c * t * one,
                c >= 1,
                t >= pow2(1024),
                one >= 0,
        ;
        ieee::lemma_overflows(m, top, n, d);
        ieee::lemma_nearest_unique(m, top, n, d, top);
    } else if e < -400 - places {
        let k = (-e - places) as nat;
        lemma_pow_adds(10, places, k);
        lemma_pow10_monotone(401, k);
        lemma_powers(401);
        lemma_pow2_strictly_increases(1075, 1203);
        lemma_pow2_unfold(1075);
        assert(pow(10, k) >= 2 * one);
        let a = pow(10, places);
        let b = pow(10, k);
        assert(2 * n < d) by (nonlinear_arith)
            requires
                n == c * 1 * one,
                d == a * b,
                c < a,
                b >= 2 * one,
                one > 0,
        ;
        assert((ieee::units(m, 0) + ieee::units(m, 1)) * d == d);
        ieee::lemma_nearest_unique(m, top, n, d, 0);
    }
}

/// The double-precision magnitude of an integer below two to the fifty-third,
/// which is exact.
fn integer_magnitude(v: u64) -> (mag: u64)
    requires
        0 < v < 0x20_0000_0000_0000,
    ensures
        mag == nearest_decimal(v as nat, 0),
        mag <= TOP_64,
{
    let mut s: u64 = v;
    let mut e: u64 = 1074;
    proof {
        lemma2_to64();
    }
    while s < HIDDEN_64
        invariant
            0 < s < 0x20_0000_0000_0000,
            e <= 1074,
            s * pow2(e as nat) == v * ieee::one_64(),
            s >= pow2((1074 - e) as nat),
        decreases 0x20_0000_0000_0000 - s,
    {
        proof {
            if e == 0 {
                lemma2_to64_rest();
                lemma_pow2_strictly_increases(53, 1074);
            }
            lemma_pow2_unfold(e as nat);
            lemma_pow2_unfold((1074 - e + 1) as nat);
            let a = pow2((e - 1) as nat);
            assert(s * (2 * a) == (2 * s) * a) by (nonlinear_arith);
        }
        s = 2 * s;
        e = e - 1;
    }
    let mag: u64 = (e + 1) * HIDDEN_64 + (s - HIDDEN_64);
    proof {
        let m = HIDDEN_64 as nat;
        lemma_fundamental_div_mod_converse(mag as int, m as int, e + 1, s - m);
        assert(ieee::units_64(mag as nat) == s * pow2(e as nat));
        lemma_mul_basics(v as int);
        lemma_mul_basics(v * ieee::one_64());
        ieee::lemma_exact(m, TOP_64 as nat, (v * ieee::one_64()) as nat, 1, mag as nat);
    }
    mag
}

/// The double-precision magnitude nearest to `c * 10^e`, for a `c` of at
/// most `places` digits. An exponent past either end of the range stands
/// for any other there.
pub(crate) fn decimal_magnitude(c: &Natural, places: usize, e: i128, Ghost(exact): Ghost<int>) -> (mag:
    u64)
    requires
        c@ < pow(10, places as nat),
        e == exact || (e > 400 && exact > 400) || (e < -400 - places && exact < -400 - places),
    ensures
        mag == nearest_decimal(c@, exact),
        mag <= TOP_64,
{
    proof {
        lemma_extremes(c@, places as nat, exact);
    }
    if c.is_zero() {
        return 0;
    }
    if e > 400 {
        return TOP_64;
    }
    if e < -400 - places as i128 {
        return 0;
    }
    if e == 0 {
        if let Some(v) = c.to_u64() {
            if v < 0x20_0000_0000_0000 {
                return integer_magnitude(v);
            }
        }
    }
    let one = Natural::new(1);
    let up: u128 = if e > 0 {
        e as u128
    } else {
        0
    };
    let down: u128 = if e < 0 {
        (-e) as u128
    } else {
        0
    };
    let n = c.times_power(10, up).doubled(1074);
    let d = one.times_power(10, down);
    proof {
        lemma_tenfold(up as int);
        lemma_tenfold(down as int);
        lemma_mul_basics(pow(10, down as nat));
        lemma_mul_basics(c@ as int);
        assert(d@ == tenfold(-exact));
        assert(n@ == c@ * tenfold(exact) * ieee::one_64());
    }
    nearest_magnitude(&n, &d, HIDDEN_64, TOP_64)
}

// ---------------------------------------------------------------------
// The shortest decimal.
// ---------------------------------------------------------------------
/// How far `c * 10^e` lies from a magnitude, on a scale that `e` fixes.
pub open spec fn gap(c: nat, e: int, mag: nat) -> nat {
    ieee::distance(c * tenfold(e) * ieee::one_64(), ieee::units_64(mag) * tenfold(-e))
}

/// No multiple of `10^e` rounds to `mag`.
pub open spec fn no_decimal(e: int, mag: nat) -> bool {
    forall|x: nat| !decimal_rounds_to(x, e, mag)
}

/// `c * 10^e` is the shortest decimal that rounds to `mag`: none with a
/// greater exponent does, and of those with this one it is the nearest,
/// the greater one of two that are equally near.
pub open spec fn is_shortest(c: nat, e: int, mag: nat) -> bool {
    &&& decimal_rounds_to(c, e, mag)
    &&& no_decimal(e + 1, mag)
    &&& forall|x: nat| #[trigger]
        decimal_rounds_to(x, e, mag) ==> gap(c, e, mag) < gap(x, e, mag) || (gap(c, e, mag) == gap(
            x,
            e,
            mag,
        ) && x <= c)
}

/// The shortest decimal of a magnitude: its digits and its exponent.
pub open spec fn shortest(mag: nat) -> (nat, int) {
    choose|p: (nat, int)| #[trigger] is_shortest(p.0, p.1, mag)
}

/// One more place, and a zero in it, is the same number.
proof fn lemma_one_place(c: nat, e: int, mag: nat)
    ensures
        decimal_rounds_to(c, e, mag) == decimal_rounds_to(10 * c, e - 1, mag),
        gap(10 * c, e - 1, mag) == gap(c, e, mag) * if e > 0 {
            1int
        } else {
            10
        },
{
    let one = ieee::one_64();
    let n = c * tenfold(e) * one;
    let n1 = (10 * c) * tenfold(e - 1) * one;
    let d = tenfold(-e);
    let d1 = tenfold(-(e - 1));
    let u = ieee::units_64(mag);
    if e > 0 {
        lemma_tenfold(e - 1);
        let t = tenfold(e - 1);
        assert(c * (10 * t) * one == (10 * c) * t * one) by (nonlinear_arith);
        lemma_mul_basics(gap(c, e, mag) as int);
    } else {
        lemma_tenfold(-e);
        assert(n1 == 10 * n) by (nonlinear_arith)
            requires
                n == c * 1 * one,
                n1 == (10 * c) * 1 * one,
        ;
        assert(d1 == 10 * d);
        let m = HIDDEN_64 as nat;
        let above = ieee::units(m, mag) + ieee::units(m, mag + 1);
        assert(above * d1 == 10 * (above * d)) by (nonlinear_arith)
            requires
                d1 == 10 * d,
        ;
        if mag > 0 {
            let below = ieee::units(m, (mag - 1) as nat) + ieee::units(m, mag);
            assert(below * d1 == 10 * (below * d)) by (nonlinear_arith)
                requires
                    d1 == 10 * d,
            ;
        }
        assert(u * d1 == 10 * (u * d)) by (nonlinear_arith)
            requires
                d1 == 10 * d,
        ;
    }
}

/// By how much `gap` grows where `i` places are added to exponent `e`.
spec fn places_factor(e: int, i: nat) -> nat
    decreases i,
{
    if i == 0 {
        1
    } else {
        places_factor(e, (i - 1) as nat) * if e - (i - 1) > 0 {
            1
        } else {
            10nat
        }
    }
}

/// More places, and zeros in them, are the same number.
proof fn lemma_places(c: nat, e: int, i: nat, mag: nat)
    ensures
        decimal_rounds_to(c, e, mag) == decimal_rounds_to(
            (c * pow(10, i)) as nat,
            e - i,
            mag,
        ),
        gap((c * pow(10, i)) as nat, e - i, mag) == gap(c, e, mag) * places_factor(e, i),
        places_factor(e, i) > 0,
    decreases i,
{
    if i == 0 {
        lemma_pow0(10);
        lemma_mul_basics(c as int);
        lemma_mul_basics(gap(c, e, mag) as int);
    } else {
        let j = (i - 1) as nat;
        lemma_places(c, e, j, mag);
        lemma_pow_positive(10, j);
        let x = (c * pow(10, j)) as nat;
        lemma_one_place(x, e - j, mag);
        reveal(pow);
        let p = pow(10, j);
        assert(c * (10 * p) == 10 * (c * p)) by (nonlinear_arith);
        let g = gap(c, e, mag) as int;
        let f = places_factor(e, j) as int;
        let k = if e - j > 0 {
            1int
        } else {
            10
        };
        assert((g * f) * k == g * (f * k)) by (nonlinear_arith);
        assert(f * k > 0) by (nonlinear_arith)
            requires
                f > 0,
                k > 0,
        ;
    }
}

/// There is one shortest decimal.
pub proof fn lemma_shortest_unique(c: nat, e: int, mag: nat)
    requires
        is_shortest(c, e, mag),
    ensures
        shortest(mag) == (c, e),
{
    let p: (nat, int) = (c, e);
    assert(is_shortest(p.0, p.1, mag));
    let (c1, e1) = shortest(mag);
    assert(is_shortest(c1, e1, mag));
    if e < e1 {
        lemma_places(c1, e1, (e1 - e - 1) as nat, mag);
        lemma_pow_positive(10, (e1 - e - 1) as nat);
    } else if e1 < e {
        lemma_places(c, e, (e - e1 - 1) as nat, mag);
        lemma_pow_positive(10, (e - e1 - 1) as nat);
    }
}

/// What rounds to a magnitude of significand `s`, counted in quarters of
/// its step `w`; the step below it is `w / 2` where it opens a binade.
spec fn within(s: nat, w: nat, opens: bool, even: bool, x: nat) -> bool {
    let v = s * w;
    let below = if opens {
        w
    } else {
        2 * w
    };
    &&& 4 * v < 4 * x + below || (even && 4 * v == 4 * x + below)
    &&& 4 * x < 4 * v + 2 * w || (even && 4 * x == 4 * v + 2 * w)
}

/// The step of a magnitude and the places that it takes to write the
/// magnitude down in full: `s * w * 10^-places` is its value.
proof fn lemma_step(e: nat, w: nat, places: nat)
    requires
        e <= 1074 ==> places == 1074 - e && w == pow(5, places),
        e > 1074 ==> places == 0 && w == pow2((e - 1074) as nat),
    ensures
        pow2(e) * tenfold(places as int) == w * ieee::one_64(),
        w > 0,
{
    lemma_tenfold(places as int);
    if e <= 1074 {
        lemma_powers(places);
        lemma_pow2_adds(e, places);
        let a = pow2(e) as int;
        let b = pow2(places) as int;
        let f = pow(5, places);
        assert(a * (b * f) == f * (a * b)) by (nonlinear_arith);
    } else {
        lemma_pow0(10);
        lemma_pow2_adds((e - 1074) as nat, 1074);
        lemma_pow2_pos((e - 1074) as nat);
        lemma_mul_basics(pow2(e) as int);
    }
}

/// At full length, rounding to a magnitude is lying within its reach.
#[verifier::spinoff_prover]
proof fn lemma_within(mag: nat, w: nat, places: nat, x: nat)
    requires
        0 < mag < TOP_64,
        ({
            let e = ieee::exponent(HIDDEN_64 as nat, mag);
            &&& e <= 1074 ==> places == 1074 - e && w == pow(5, places)
            &&& e > 1074 ==> places == 0 && w == pow2((e - 1074) as nat)
        }),
    ensures
        ({
            let m = HIDDEN_64 as nat;
            let s = ieee::significand(m, mag);
            let e = ieee::exponent(m, mag);
            &&& decimal_rounds_to(x, -places, mag) == within(
                s,
                w,
                s == m && e > 0,
                mag % 2 == 0,
                x,
            )
            &&& gap(x, -places, mag) == if x < s * w {
                (s * w - x) * ieee::one_64()
            } else {
                (x - s * w) * ieee::one_64()
            }
        }),
{
    let m = HIDDEN_64 as nat;
    let s = ieee::significand(m, mag);
    let e = ieee::exponent(m, mag);
    let opens = s == m && e > 0;
    let one = ieee::one_64();
    let p = pow2(e);
    lemma_pow2_pos(1074);
    lemma_step(e, w, places);
    ieee::lemma_previous(m, mag);
    ieee::lemma_next(m, mag);
    let d = tenfold(places as int);
    assert(-(-places) == places);
    lemma_mul_basics(x as int);
    let n = x * one;
    assert(x * tenfold(-places) * one == n);
    let below = (ieee::units(m, (mag - 1) as nat) + ieee::units(m, mag)) as int;
    let above = (ieee::units(m, mag) + ieee::units(m, mag + 1)) as int;
    let k = if opens {
        1int
    } else {
        2
    };
    assert(2 * (below * d) == (4 * s - k) * (w * one)) by (nonlinear_arith)
        requires
            2 * below == (4 * s - k) * p,
            p * d == w * one,
    ;
    assert(2 * (above * d) == (4 * s + 2) * (w * one)) by (nonlinear_arith)
        requires
            above == s * p + (s + 1) * p,
            p * d == w * one,
    ;
    let v = s * w;
    let r = k * w;
    assert((4 * s - k) * (w * one) == (4 * v - r) * one) by (nonlinear_arith)
        requires
            v == s * w,
            r == k * w,
    ;
    assert((4 * s + 2) * (w * one) == (4 * v + 2 * w) * one) by (nonlinear_arith)
        requires
            v == s * w,
    ;
    lemma_scaled_order(4 * v - r, (4 * x) as int, one as int);
    lemma_scaled_order((4 * x) as int, (4 * v + 2 * w) as int, one as int);
    assert(4 * n == (4 * x) * one) by (nonlinear_arith)
        requires
            n == x * one,
    ;
    assert(ieee::units_64(mag) * d == v * one) by (nonlinear_arith)
        requires
            ieee::units_64(mag) == s * p,
            p * d == w * one,
            v == s * w,
    ;
    lemma_scaled_order(x as int, v as int, one as int);
    assert((v - x) * one == v * one - x * one) by (nonlinear_arith);
    assert((x - v) * one == x * one - v * one) by (nonlinear_arith);
}

/// A positive factor keeps an order.
pub proof fn lemma_scaled_order(a: int, b: int, k: int)
    requires
        k > 0,
    ensures
        (a < b) == (a * k < b * k),
        (a == b) == (a * k == b * k),
{
    assert(a < b ==> a * k < b * k) by (nonlinear_arith)
        requires
            k > 0,
    ;
    assert(b < a ==> b * k < a * k) by (nonlinear_arith)
        requires
            k > 0,
    ;
}

/// Of the multiples of `q`, those nearest to `v` on either side decide
/// whether any is within reach.
proof fn lemma_neighbours(s: nat, w: nat, opens: bool, even: bool, q: nat, c: nat, r: nat, x: nat)
    requires
        s * w == c * q + r,
        r < q,
        within(s, w, opens, even, x * q),
    ensures
        x <= c ==> within(s, w, opens, even, c * q),
        x > c ==> within(s, w, opens, even, (c + 1) * q),
{
    assert((c + 1) * q == c * q + q) by (nonlinear_arith);
    if x <= c {
        assert(x * q <= c * q) by (nonlinear_arith)
            requires
                x <= c,
        ;
    } else {
        assert((c + 1) * q <= x * q) by (nonlinear_arith)
            requires
                c + 1 <= x,
        ;
    }
}

/// The state of the search for the shortest decimal: `v` split at `10^i`.
spec fn split_at(v: nat, i: nat, q: nat, c: nat, r: nat) -> bool {
    &&& q == pow(10, i)
    &&& v == c * q + r
    &&& r < q
}

/// The last digits of a split number, one more of them.
proof fn lemma_split_next(v: nat, i: nat, q: nat, c: nat, r: nat, c1: nat, digit: nat)
    requires
        split_at(v, i, q, c, r),
        c == c1 * 10 + digit,
        digit < 10,
    ensures
        split_at(v, i + 1, q * 10, c1, r + q * digit),
{
    reveal(pow);
    assert(v == c1 * (q * 10) + (r + q * digit)) by (nonlinear_arith)
        requires
            v == c * q + r,
            c == c1 * 10 + digit,
    ;
    assert(r + q * digit < q * 10) by (nonlinear_arith)
        requires
            r < q,
            digit <= 9,
    ;
}

/// Whether the multiples of `10^i` beside a split number are within reach:
/// the one below it, and the one above it.
fn reach(
    w: &Natural,
    opens: bool,
    even: bool,
    q: &Natural,
    r: &Natural,
    Ghost(s): Ghost<nat>,
    Ghost(c): Ghost<nat>,
) -> (b: (bool, bool))
    requires
        s * w@ == c * q@ + r@,
        r@ < q@,
    ensures
        b.0 == within(s, w@, opens, even, c * q@),
        b.1 == within(s, w@, opens, even, (c + 1) * q@),
{
    let rest = r.times_plus(4, 0);
    let step = w.times_plus(2, 0);
    let down = if opens {
        rest.below(w, even)
    } else {
        rest.below(&step, even)
    };
    let up = q.times_plus(4, 0).below(&step.plus(&rest), even);
    assert((c + 1) * q@ == c * q@ + q@) by (nonlinear_arith);
    (down, up)
}

/// A number too small to have digits left is out of the next power's reach.
proof fn lemma_out_of_reach(s: nat, w: nat, opens: bool, even: bool, q: nat)
    requires
        s > 0,
        w > 0,
        s * w < q,
    ensures
        !within(s, w, opens, even, 0),
        !within(s, w, opens, even, 10 * q),
{
    assert(s * w >= w) by (nonlinear_arith)
        requires
            s >= 1,
            w >= 0,
    ;
}

proof fn lemma_size(s: nat, e: nat, w: nat, places: nat)
    requires
        s < 0x20_0000_0000_0000,
        e <= 2046,
        e <= 1074 ==> places == 1074 - e && w == pow(5, places),
        e > 1074 ==> places == 0 && w == pow2((e - 1074) as nat),
    ensures
        s * w < pow2(3300),
{
    lemma2_to64_rest();
    lemma_pow2_pos(3240);
    let k = if e <= 1074 {
        3 * places
    } else {
        (e - 1074) as nat
    };
    if e <= 1074 {
        lemma_powers(places);
    }
    if k < 3240 {
        lemma_pow2_strictly_increases(k, 3240);
    }
    lemma_pow2_adds(60, 3240);
    lemma_pow2_strictly_increases(53, 60);
    let a = pow2(60);
    let b = pow2(3240);
    assert(s * w < a * b) by (nonlinear_arith)
        requires
            s < a,
            w <= b,
            b > 0,
    ;
}

/// The shortest decimal of a magnitude.
#[verifier::spinoff_prover]
pub fn shortest_decimal(mag: u64) -> (r: (Natural, i32))
    requires
        0 < mag < TOP_64,
    ensures
        is_shortest(r.0@, r.1 as int, mag as nat),
        shortest(mag as nat) == (r.0@, r.1 as int),
        -1074 <= r.1 <= 1100,
{
    let (s, e) = parts_64(mag);
    let opens = s == HIDDEN_64 && e > 0;
    let even = mag % 2 == 0;
    let one = Natural::new(1);
    let places: u32 = if e <= 1074 {
        1074 - e
    } else {
        0
    };
    let w = if e <= 1074 {
        one.times_power(5, places as u128)
    } else {
        one.doubled(e - 1074)
    };
    proof {
        lemma_mul_basics(w@ as int);
        lemma_mul_basics(pow(5, places as nat));
        lemma_mul_basics(pow2((e - 1074) as nat) as int);
        lemma_step(e as nat, w@, places as nat);
        lemma_size(s as nat, e as nat, w@, places as nat);
    }
    let mut c = w.times_plus(s, 0);
    let ghost v = (s * w@) as nat;
    let mut r = Natural::new(0);
    let mut q = Natural::new(1);
    let mut i: u32 = 0;
    proof {
        lemma_mul_is_commutative(w@ as int, s as int);
        lemma_pow0(10);
        lemma_mul_basics(v as int);
        lemma_mul_basics((v + 1) as int);
        if s == 0 {
            assert(mag == 0);
        }
    }
    let mut found: (bool, bool) = reach(&w, opens, even, &q, &r, Ghost(s as nat), Ghost(c@));
    loop
        invariant
            i <= 1100,
            0 < mag < TOP_64,
            s > 0,
            w@ > 0,
            v == s * w@,
            v < pow2(3300),
            even == (mag % 2 == 0),
            split_at(v, i as nat, q@, c@, r@),
            found.0 == within(s as nat, w@, opens, even, c@ * q@),
            found.1 == within(s as nat, w@, opens, even, (c@ + 1) * q@),
            found.0 || found.1,
        ensures
            forall|x: nat|
                !within(
                    s as nat,
                    w@,
                    opens,
                    even,
                    #[trigger] (x * (q@ * 10)),
                ),
        decreases c@,
    {
        let (c1, digit) = c.divided(10);
        let r1 = r.plus(&q.times_plus(digit, 0));
        let q1 = q.times_plus(10, 0);
        proof {
            lemma_split_next(v, i as nat, q@, c@, r@, c1@, digit as nat);
        }
        let next = reach(&w, opens, even, &q1, &r1, Ghost(s as nat), Ghost(c1@));
        if !next.0 && !next.1 {
            assert forall|x: nat|
                !within(s as nat, w@, opens, even, #[trigger] (x * (q@ * 10))) by {
                if within(s as nat, w@, opens, even, x * q1@) {
                    lemma_neighbours(s as nat, w@, opens, even, q1@, c1@, r1@, x);
                }
            }
            break ;
        }
        proof {
            if c@ == 0 {
                assert(v == r@) by (nonlinear_arith)
                    requires
                        v == c@ * q@ + r@,
                        c@ == 0,
                ;
                assert(c1@ == 0);
                lemma_out_of_reach(s as nat, w@, opens, even, q@);
                lemma_mul_basics(q1@ as int);
            }
            lemma_powers(i as nat);
            assert(v >= q@) by (nonlinear_arith)
                requires
                    v == c@ * q@ + r@,
                    c@ >= 1,
                    q@ >= 0,
                    r@ >= 0,
            ;
            if i >= 1100 {
                assert(3 * i == 3300);
            }
        }
        found = next;
        c = c1;
        r = r1;
        q = q1;
        i = i + 1;
    }
    let up = found.1 && (!found.0 || q.below(&r.times_plus(2, 0), true));
    let ghost low = c@;
    let digits = if up {
        c.times_plus(1, 1)
    } else {
        c
    };
    let exp: i32 = i as i32 - places as i32;
    proof {
        lemma_is_shortest(
            mag as nat,
            w@,
            places as nat,
            i as nat,
            q@,
            low,
            r@,
            up,
        );
        lemma_shortest_unique(digits@, exp as int, mag as nat);
    }
    (digits, exp)
}

/// The neighbour that the search picks is the shortest decimal.
#[verifier::spinoff_prover]
proof fn lemma_is_shortest(
    mag: nat,
    w: nat,
    places: nat,
    i: nat,
    q: nat,
    c: nat,
    r: nat,
    up: bool,
)
    requires
        0 < mag < TOP_64,
        ({
            let m = HIDDEN_64 as nat;
            let s = ieee::significand(m, mag);
            let e = ieee::exponent(m, mag);
            let opens = s == m && e > 0;
            let even = mag % 2 == 0;
            &&& e <= 1074 ==> places == 1074 - e && w == pow(5, places)
            &&& e > 1074 ==> places == 0 && w == pow2((e - 1074) as nat)
            &&& split_at(s * w, i, q, c, r)
            &&& within(s, w, opens, even, c * q) || within(s, w, opens, even, (c + 1) * q)
            &&& up == (within(s, w, opens, even, (c + 1) * q) && (!within(
                s,
                w,
                opens,
                even,
                c * q,
            ) || q <= 2 * r))
            &&& forall|x: nat| !within(s, w, opens, even, #[trigger] (x * (q * 10)))
        }),
    ensures
        is_shortest(if up {
            c + 1
        } else {
            c
        }, i - places, mag),
{
    let m = HIDDEN_64 as nat;
    let s = ieee::significand(m, mag);
    let e = ieee::exponent(m, mag);
    let opens = s == m && e > 0;
    let even = mag % 2 == 0;
    let v = s * w;
    let one = ieee::one_64();
    let exp = i - places;
    let pick = if up {
        c + 1
    } else {
        c
    };
    lemma_pow2_pos(1074);
    assert((c + 1) * q == c * q + q) by (nonlinear_arith);
    lemma_places(pick, exp, i, mag);
    lemma_within(mag, w, places, pick * q);
    let over = exp + 1;
    assert forall|x: nat| !decimal_rounds_to(x, over, mag) by {
        lemma_places(x, over, i + 1, mag);
        reveal(pow);
        assert(pow(10, i + 1) == 10 * pow(10, i));
        assert(over - (i + 1) == -places);
        lemma_within(mag, w, places, x * (q * 10));
    }
    assert(no_decimal(over, mag));
    assert forall|x: nat| #[trigger] decimal_rounds_to(x, exp, mag) implies gap(pick, exp, mag)
        < gap(x, exp, mag) || (gap(pick, exp, mag) == gap(x, exp, mag) && x <= pick) by {
        lemma_places(x, exp, i, mag);
        lemma_within(mag, w, places, x * q);
        lemma_neighbours(s, w, opens, even, q, c, r, x);
        let f = places_factor(exp, i) as int;
        let a = if pick * q < v {
            v - pick * q
        } else {
            pick * q - v
        };
        let b = if x * q < v {
            v - x * q
        } else {
            x * q - v
        };
        let g = gap(pick, exp, mag) as int;
        let h = gap(x, exp, mag) as int;
        assert(g * f == a * one);
        assert(h * f == b * one);
        lemma_scaled_order(g, h, f);
        lemma_scaled_order(a, b, one as int);
        if x < c {
            assert(x * q + q <= c * q) by (nonlinear_arith)
                requires
                    x + 1 <= c,
            ;
        } else if x > c + 1 {
            assert((c + 1) * q + q <= x * q) by (nonlinear_arith)
                requires
                    c + 2 <= x,
            ;
        }
    }
}

/// The search finds a shortest decimal, wherever it starts.
#[verifier::spinoff_prover]
proof fn lemma_search(mag: nat, w: nat, places: nat, i: nat, q: nat, c: nat, r: nat)
    requires
        0 < mag < TOP_64,
        ({
            let m = HIDDEN_64 as nat;
            let s = ieee::significand(m, mag);
            let e = ieee::exponent(m, mag);
            let opens = s == m && e > 0;
            let even = mag % 2 == 0;
            &&& e <= 1074 ==> places == 1074 - e && w == pow(5, places)
            &&& e > 1074 ==> places == 0 && w == pow2((e - 1074) as nat)
            &&& s > 0
            &&& w > 0
            &&& split_at(s * w, i, q, c, r)
            &&& within(s, w, opens, even, c * q) || within(s, w, opens, even, (c + 1) * q)
        }),
    ensures
        exists|x: nat, y: int| is_shortest(x, y, mag),
    decreases c,
{
    let m = HIDDEN_64 as nat;
    let s = ieee::significand(m, mag);
    let e = ieee::exponent(m, mag);
    let opens = s == m && e > 0;
    let even = mag % 2 == 0;
    let c1 = c / 10;
    let digit = c % 10;
    let r1 = r + q * digit;
    let q1 = q * 10;
    lemma_split_next(s * w, i, q, c, r, c1, digit);
    if within(s, w, opens, even, c1 * q1) || within(s, w, opens, even, (c1 + 1) * q1) {
        if c == 0 {
            assert(s * w == r) by (nonlinear_arith)
                requires
                    s * w == c * q + r,
                    c == 0,
            ;
            lemma_out_of_reach(s, w, opens, even, q);
            lemma_mul_basics(q1 as int);
        }
        lemma_search(mag, w, places, i + 1, q1, c1, r1);
    } else {
        assert forall|x: nat| !within(s, w, opens, even, #[trigger] (x * (q * 10))) by {
            if within(s, w, opens, even, x * q1) {
                lemma_neighbours(s, w, opens, even, q1, c1, r1, x);
            }
        }
        let up = within(s, w, opens, even, (c + 1) * q) && (!within(s, w, opens, even, c * q) || q
            <= 2 * r);
        lemma_is_shortest(mag, w, places, i, q, c, r, up);
    }
}

/// Every finite magnitude but zero has a shortest decimal.
pub proof fn lemma_shortest(mag: nat)
    requires
        0 < mag < TOP_64,
    ensures
        is_shortest(shortest(mag).0, shortest(mag).1, mag),
{
    let m = HIDDEN_64 as nat;
    let s = ieee::significand(m, mag);
    let e = ieee::exponent(m, mag);
    let places = if e <= 1074 {
        (1074 - e) as nat
    } else {
        0
    };
    let w: nat = if e <= 1074 {
        lemma_pow_positive(5, places);
        pow(5, places) as nat
    } else {
        pow2((e - 1074) as nat)
    };
    lemma_step(e, w, places);
    let v = s * w;
    lemma_pow0(10);
    lemma_mul_basics(v as int);
    lemma_search(mag, w, places, 0, 1, v, 0);
    let (x, y) = choose|x: nat, y: int| is_shortest(x, y, mag);
    lemma_shortest_unique(x, y, mag);
}

} // verus!

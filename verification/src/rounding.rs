//! Whole numbers and their quotients, rounded as double precision numbers are.

use crate::number::{Number, EXPONENT_UNIT, SIGN_BIT};
use vstd::arithmetic::power2;
use vstd::prelude::*;

verus! {

/// Two to the number of binary digits that are kept.
pub const PRECISION: u64 = 0x0020_0000_0000_0000;

/// The whole number nearest to a quotient; of two equally near ones the even one.
pub open spec fn half_even(p: nat, q: nat) -> nat {
    let d = p / q;
    let r = p % q;
    if 2 * r > q || (2 * r == q && d % 2 == 1) {
        d + 1
    } else {
        d
    }
}

/// What a shift by binary places to the left multiplies by.
pub open spec fn up(places: int) -> nat {
    if places > 0 {
        power2::pow2(places as nat)
    } else {
        1
    }
}

/// What a shift by binary places to the left divides by, where it goes to the right.
pub open spec fn down(places: int) -> nat {
    up(-places)
}

/// Shifted by so many places, a quotient has as many binary digits before the point as are
/// kept.
pub open spec fn is_shift(p: nat, q: nat, places: int) -> bool {
    q * down(places) * EXPONENT_UNIT as nat <= p * up(places) < q * down(places)
        * PRECISION as nat
}

/// The places by which a quotient is shifted to have as many binary digits before the point as
/// are kept.
pub open spec fn shift(p: nat, q: nat) -> int {
    choose|places: int| is_shift(p, q, places)
}

/// The digits of a quotient that are kept.
pub open spec fn significand(p: nat, q: nat) -> nat {
    half_even(p * up(shift(p, q)), q * down(shift(p, q)))
}

/// A whole number as a double precision number holds it.
pub open spec fn whole(n: nat) -> nat {
    if n < PRECISION {
        n
    } else {
        significand(n, 1) * down(shift(n, 1))
    }
}

/// The double precision number nearest to a quotient of positive whole numbers.
pub open spec fn quotient(p: nat, q: nat) -> Number {
    Number {
        bits: ((1074 - shift(p, q)) * EXPONENT_UNIT + significand(p, q)) as u64,
    }
}

/// The quotient of positive whole numbers, each held as a double precision number.
pub open spec fn ratio(p: nat, q: nat) -> Number {
    quotient(whole(p), whole(q))
}

/// The whole part of the product of a whole number with a quotient of whole numbers, where each
/// number, the quotient and the product are double precision numbers.
pub open spec fn multiple(i: nat, p: nat, q: nat) -> nat {
    let places = shift(whole(p), whole(q));
    whole(whole(i) * significand(whole(p), whole(q))) * down(places) / up(places)
}

/// A shift by more places multiplies by at least twice as much.
proof fn lemma_more_places(s: int, t: int)
    requires
        s < t,
    ensures
        up(t) * down(s) >= 2 * (up(s) * down(t)),
        up(s) > 0,
        down(s) > 0,
        up(t) > 0,
        down(t) > 0,
{
    power2::lemma_pow2(1);
    power2::lemma2_to64();
    if s > 0 {
        power2::lemma_pow2_pos(s as nat);
    } else if s < 0 {
        power2::lemma_pow2_pos((-s) as nat);
    }
    if t > 0 {
        power2::lemma_pow2_pos(t as nat);
    } else if t < 0 {
        power2::lemma_pow2_pos((-t) as nat);
    }
    if s >= 0 {
        lemma_twice(s as nat, t as nat);
        assert(down(s) == 1 && down(t) == 1);
        assert(up(t) * 1 == up(t) && up(s) * 1 == up(s));
    } else if t <= 0 {
        lemma_twice((-t) as nat, (-s) as nat);
        assert(up(s) == 1 && up(t) == 1);
        assert(1 * down(t) == down(t) && 1 * down(s) == down(s));
    } else {
        lemma_twice(0, t as nat);
        assert(up(t) * down(s) >= 2 * 1) by (nonlinear_arith)
            requires
                up(t) >= 2,
                down(s) >= 1,
        ;
    }
}

/// A greater power of two is at least twice as great.
proof fn lemma_twice(a: nat, b: nat)
    requires
        a < b,
    ensures
        power2::pow2(b) >= 2 * power2::pow2(a),
        power2::pow2(0) == 1,
{
    power2::lemma2_to64();
    power2::lemma_pow2_unfold((a + 1) as nat);
    if a + 1 < b {
        power2::lemma_pow2_strictly_increases((a + 1) as nat, b);
    }
}

/// Only one shift gives a quotient its digits.
proof fn lemma_one_shift(p: nat, q: nat, places: int)
    requires
        is_shift(p, q, places),
    ensures
        shift(p, q) == places,
{
    let other = shift(p, q);
    assert(is_shift(p, q, other));
    if other < places {
        lemma_no_greater_shift(p, q, other, places);
    } else if places < other {
        lemma_no_greater_shift(p, q, places, other);
    }
}

proof fn lemma_no_greater_shift(p: nat, q: nat, s: int, t: int)
    requires
        is_shift(p, q, s),
        s < t,
    ensures
        !is_shift(p, q, t),
{
    lemma_more_places(s, t);
    let (us, ds, ut, dt) = (up(s), down(s), up(t), down(t));
    if is_shift(p, q, t) {
        let unit = EXPONENT_UNIT as nat;
        assert(q * dt * (2 * unit) * ds > p * ut * ds) by (nonlinear_arith)
            requires
                p * ut < q * dt * (2 * unit),
                ds > 0,
        ;
        assert(p * ut * ds >= p * (2 * (us * dt))) by (nonlinear_arith)
            requires
                ut * ds >= 2 * (us * dt),
        ;
        assert(p * us * (2 * dt) >= q * ds * unit * (2 * dt)) by (nonlinear_arith)
            requires
                p * us >= q * ds * unit,
        ;
        assert(p * (2 * (us * dt)) == p * us * (2 * dt)) by (nonlinear_arith);
        assert(q * ds * unit * (2 * dt) == q * dt * (2 * unit) * ds) by (nonlinear_arith);
    }
}

/// One more place to the left multiplies by two.
proof fn lemma_next_place(k: nat)
    ensures
        up(k as int + 1) == 2 * up(k as int),
        up(k as int) > 0,
{
    power2::lemma2_to64();
    power2::lemma_pow2_pos(k);
    power2::lemma_pow2_unfold((k + 1) as nat);
}

proof fn lemma_search_up(p: nat, q: nat, k: nat)
    requires
        p > 0,
        q > 0,
        p * up(k as int) < q * PRECISION,
    ensures
        exists|places: int| is_shift(p, q, places),
    decreases q * PRECISION - p * up(k as int),
{
    lemma_next_place(k);
    let n = p * up(k as int);
    assert(n > 0) by (nonlinear_arith)
        requires
            p > 0,
            up(k as int) > 0,
            n == p * up(k as int),
    ;
    assert(p * up(k as int + 1) == 2 * n) by (nonlinear_arith)
        requires
            up(k as int + 1) == 2 * up(k as int),
            n == p * up(k as int),
    ;
    if n >= q * EXPONENT_UNIT {
        assert(q * 1 == q);
        assert(is_shift(p, q, k as int));
    } else {
        lemma_search_up(p, q, (k + 1) as nat);
    }
}

proof fn lemma_search_down(p: nat, q: nat, k: nat)
    requires
        p > 0,
        q > 0,
        p >= q * up(k as int) * EXPONENT_UNIT,
    ensures
        exists|places: int| is_shift(p, q, places),
    decreases p - q * up(k as int) * EXPONENT_UNIT,
{
    lemma_next_place(k);
    let d = q * up(k as int);
    assert(d > 0) by (nonlinear_arith)
        requires
            q > 0,
            up(k as int) > 0,
            d == q * up(k as int),
    ;
    assert(q * up(k as int + 1) == 2 * d) by (nonlinear_arith)
        requires
            up(k as int + 1) == 2 * up(k as int),
            d == q * up(k as int),
    ;
    if p < d * PRECISION {
        assert(up(-k) == 1);
        assert(p * 1 == p);
        assert(is_shift(p, q, -k));
    } else {
        lemma_search_down(p, q, (k + 1) as nat);
    }
}

/// Some shift gives a quotient its digits.
proof fn lemma_shift(p: nat, q: nat)
    requires
        p > 0,
        q > 0,
    ensures
        is_shift(p, q, shift(p, q)),
{
    assert(up(0) == 1);
    assert(p * 1 == p && q * 1 == q);
    if p < q * EXPONENT_UNIT {
        lemma_search_up(p, q, 0);
    } else {
        lemma_search_down(p, q, 0);
    }
}

/// A rounded quotient is off by at most a half.
proof fn lemma_half_even(p: nat, q: nat)
    requires
        q > 0,
    ensures
        2 * (half_even(p, q) * q) <= 2 * p + q,
        2 * p <= 2 * (half_even(p, q) * q) + q,
{
    let d = p / q;
    let r = p % q;
    vstd::arithmetic::div_mod::lemma_fundamental_div_mod(p as int, q as int);
    assert(q * d + r == p);
    assert((d + 1) * q == q * d + q) by (nonlinear_arith);
    assert(d * q == q * d) by (nonlinear_arith);
}

/// The whole number nearest to a quotient; of two equally near ones the even one.
fn round_half_even(p: u128, q: u128) -> (d: u128)
    requires
        1 < q || p < u128::MAX,
        q > 0,
    ensures
        d == half_even(p as nat, q as nat),
{
    let d: u128 = p / q;
    let r: u128 = p % q;
    let rest: u128 = q - r;
    if r > rest || (r == rest && d % 2 == 1) {
        assert(d < u128::MAX) by {
            if q > 1 {
                assert(p as int / q as int <= p as int / 2) by (nonlinear_arith)
                    requires
                        q >= 2,
                        p >= 0,
                ;
            }
        }
        d + 1
    } else {
        d
    }
}

/// A power of two that is not great has no great exponent.
proof fn lemma_small_places(places: int, n: int)
    requires
        up(places) <= n < 0x100_0000_0000_0000_0000_0000_0000_0000,
    ensures
        places < 120,
{
    if places >= 120 {
        power2::lemma2_to64();
        power2::lemma2_to64_rest();
        power2::lemma_pow2_adds(60, 60);
        if places > 120 {
            power2::lemma_pow2_strictly_increases(120, places as nat);
        }
    }
}

/// The digits of a quotient that are kept, and the places by which it was shifted.
struct Rounded {
    significand: u64,
    places: i32,
    up: u128,
    down: u128,
}

/// Rounds a quotient of positive whole numbers.
fn round_quotient(p: u128, q: u128) -> (r: Rounded)
    requires
        0 < p < 0x40_0000_0000_0000_0000_0000_0000_0000,
        0 < q <= 0x2_0000_0000_0000_0000,
    ensures
        is_shift(p as nat, q as nat, r.places as int),
        r.places == shift(p as nat, q as nat),
        r.significand == significand(p as nat, q as nat),
        r.up == up(r.places as int),
        r.down == down(r.places as int),
        EXPONENT_UNIT <= r.significand <= PRECISION,
        -120 <= r.places <= 120,
{
    let mut num: u128 = p;
    let mut den: u128 = q;
    let mut up_by: u128 = 1;
    let mut down_by: u128 = 1;
    let mut places: i32 = 0;
    let unit: u128 = EXPONENT_UNIT as u128;
    let limit: u128 = PRECISION as u128;
    while num < den * unit
        invariant
            unit == EXPONENT_UNIT,
            limit == PRECISION,
            0 < p < 0x40_0000_0000_0000_0000_0000_0000_0000,
            0 < q <= 0x2_0000_0000_0000_0000,
            den == q,
            0 <= places,
            up_by == up(places as int),
            num == p * up_by,
            0 < up_by <= num,
            places <= 120,
            places > 0 ==> num < den * limit,
        decreases 2 * (den * unit) - num,
    {
        proof {
            power2::lemma_pow2_unfold((places + 1) as nat);
            power2::lemma2_to64();
            assert(p * (2 * up_by) == 2 * (p * up_by)) by (nonlinear_arith);
            lemma_small_places(places as int, num as int);
        }
        num = 2 * num;
        up_by = 2 * up_by;
        places += 1;
    }
    assert(places <= 120 && (places > 0 ==> num < den * limit));
    while num >= den * limit
        invariant
            unit == EXPONENT_UNIT,
            limit == PRECISION,
            0 < q,
            num < 0x40_0000_0000_0000_0000_0000_0000_0000 || num < den * limit,
            num >= den * unit,
            den == q * down_by,
            down_by == down(places as int),
            up_by == up(places as int),
            0 < down_by <= den,
            num == p * up_by,
            places > 0 ==> num < den * limit,
            den <= 0x10_0000_0000_0000_0000,
            -120 <= places <= 120,
        decreases 2 * num - den * limit,
    {
        proof {
            power2::lemma_pow2_unfold((1 - places) as nat);
            power2::lemma2_to64();
            assert(q * (2 * down_by) == 2 * (q * down_by)) by (nonlinear_arith);
            lemma_small_places(-places as int, den as int);
        }
        assert((2 * den) * limit == 2 * (den * limit)) by (nonlinear_arith);
        assert(den * limit > 0) by (nonlinear_arith)
            requires
                den > 0,
                limit > 0,
        ;
        den = 2 * den;
        down_by = 2 * down_by;
        places -= 1;
    }
    proof {
        lemma_one_shift(p as nat, q as nat, places as int);
        lemma_half_even(num as nat, den as nat);
    }
    let d: u128 = round_half_even(num, den);
    assert(EXPONENT_UNIT <= d <= PRECISION) by (nonlinear_arith)
        requires
            2 * (d * den) <= 2 * num + den,
            2 * num <= 2 * (d * den) + den,
            den * EXPONENT_UNIT <= num,
            num < den * PRECISION,
            den > 0,
    ;
    Rounded { significand: d as u64, places, up: up_by, down: down_by }
}

/// A whole number as a double precision number holds it.
fn round_whole(n: u128) -> (w: u128)
    requires
        n < 0x40_0000_0000_0000_0000_0000_0000_0000,
    ensures
        w == whole(n as nat),
        w <= 2 * n,
{
    proof {
        lemma_whole(n as nat);
    }
    if n < PRECISION as u128 {
        n
    } else {
        let r = round_quotient(n, 1);
        r.significand as u128 * r.down
    }
}

/// A whole number is held up to one part in two to the power of 53.
proof fn lemma_whole(n: nat)
    ensures
        whole(n) * PRECISION <= n * (PRECISION + 1),
        n > 0 ==> whole(n) > 0,
        whole(n) <= 2 * n,
{
    if n >= PRECISION {
        let places = shift(n, 1);
        law_quotient_is_nearest(n, 1);
        if places >= 0 {
            lemma_more_places(-1, places);
            assert(n * up(places) >= n) by (nonlinear_arith)
                requires
                    up(places) >= 1,
            ;
        }
        let d = down(places);
        let m = significand(n, 1);
        assert(up(places) == 1);
        assert(n * 1 == n && 1 * d == d);
        assert(whole(n) == m * d);
        assert(m * d > 0) by (nonlinear_arith)
            requires
                m >= EXPONENT_UNIT,
                d > 0,
        ;
    }
}

/// The quotient of positive whole numbers, each held as a double precision number.
pub fn ratio_of(p: u64, q: u64) -> (n: Number)
    requires
        p > 0,
        q > 0,
    ensures
        n == ratio(p as nat, q as nat),
        n.bits < SIGN_BIT,
        !n.is_nan(),
{
    proof {
        lemma_whole(p as nat);
        lemma_whole(q as nat);
    }
    let r = round_quotient(round_whole(p as u128), round_whole(q as u128));
    let e: u64 = (1074 - r.places) as u64;
    assert(e * EXPONENT_UNIT + PRECISION < 0x7FE0_0000_0000_0000) by (nonlinear_arith)
        requires
            e <= 1194,
    ;
    Number { bits: e * EXPONENT_UNIT + r.significand }
}

/// A quotient is off by at most half a unit of its last digit.
pub proof fn law_quotient_is_nearest(p: nat, q: nat)
    requires
        p > 0,
        q > 0,
    ensures
        is_shift(p, q, shift(p, q)),
        EXPONENT_UNIT <= significand(p, q) <= PRECISION,
        2 * (significand(p, q) * (q * down(shift(p, q)))) <= 2 * (p * up(shift(p, q))) + q * down(
            shift(p, q),
        ),
        2 * (p * up(shift(p, q))) <= 2 * (significand(p, q) * (q * down(shift(p, q)))) + q * down(
            shift(p, q),
        ),
{
    let places = shift(p, q);
    lemma_shift(p, q);
    lemma_more_places(places, places + 1);
    let num = p * up(places);
    let den = q * down(places);
    assert(den > 0) by (nonlinear_arith)
        requires
            q > 0,
            down(places) > 0,
            den == q * down(places),
    ;
    lemma_half_even(num, den);
    let d = significand(p, q);
    assert(EXPONENT_UNIT <= d <= PRECISION) by (nonlinear_arith)
        requires
            2 * (d * den) <= 2 * num + den,
            2 * num <= 2 * (d * den) + den,
            den * EXPONENT_UNIT <= num,
            num < den * PRECISION,
            den > 0,
    ;
}

/// The whole part of the product of a whole number with a quotient of whole numbers, where each
/// number, the quotient and the product are double precision numbers.
pub fn multiple_of(i: u64, p: u64, q: u64) -> (n: u64)
    requires
        p > 0,
        q > 0,
        multiple(i as nat, p as nat, q as nat) <= u64::MAX,
    ensures
        n == multiple(i as nat, p as nat, q as nat),
{
    proof {
        lemma_whole(i as nat);
        assert(whole(i as nat) <= 0x1_0000_0000_0000_0800) by (nonlinear_arith)
            requires
                whole(i as nat) * PRECISION <= i * (PRECISION + 1),
                i <= u64::MAX,
        ;
        lemma_whole(p as nat);
        lemma_whole(q as nat);
    }
    let p: u128 = round_whole(p as u128);
    let q: u128 = round_whole(q as u128);
    let i: u128 = round_whole(i as u128);
    let r = round_quotient(p, q);
    let m: u128 = r.significand as u128;
    assert(i * m <= 0x1_0000_0000_0000_0800 * PRECISION) by (nonlinear_arith)
        requires
            i <= 0x1_0000_0000_0000_0800,
            m <= PRECISION,
    ;
    let product: u128 = round_whole(i * m);
    assert(product * r.down / r.up as int <= u64::MAX);
    proof {
        lemma_more_places(r.places as int, r.places + 1);
        if r.places >= 0 {
            assert(product * 1 == product);
        } else {
            assert(product * r.down / 1 == product * r.down);
        }
    }
    let n: u128 = product * r.down / r.up;
    n as u64
}

/// The multiple by zero is zero.
pub proof fn lemma_first_multiple(p: nat, q: nat)
    ensures
        multiple(0, p, q) == 0,
{
    let places = shift(whole(p), whole(q));
    lemma_more_places(places, places + 1);
    let m = significand(whole(p), whole(q));
    assert(0 * m == 0 && 0 * down(places) == 0);
    vstd::arithmetic::div_mod::lemma_basic_div(0, up(places) as int);
}

/// The multiples of a quotient stay below the dividend as long as the factor stays below the
/// divisor, for divisors up to two to the power of 50.
pub proof fn law_multiples_stay_within(i: nat, p: nat, q: nat)
    requires
        i < q <= 0x4_0000_0000_0000,
        0 < p,
    ensures
        multiple(i, p, q) < p,
{
    let one = PRECISION as nat;
    let more = PRECISION as nat + 1;
    let pr = whole(p);
    assert(whole(q) == q && whole(i) == i);
    lemma_whole(p);
    law_quotient_is_nearest(pr, q);
    let places = shift(pr, q);
    let m = significand(pr, q);
    let (u, d) = (up(places), down(places));
    lemma_more_places(places, places + 1);
    let product = i * m;
    let w = whole(product);
    lemma_whole(product);
    let num = pr * u;
    let den = q * d;
    assert(m * den * one <= num * more) by (nonlinear_arith)
        requires
            2 * (m * den) <= 2 * num + den,
            den * EXPONENT_UNIT <= num,
            one == 2 * EXPONENT_UNIT,
            more == one + 1,
    ;
    assert(w * d * q * one <= i * (m * den) * more) by (nonlinear_arith)
        requires
            w * one <= product * more,
            product == i * m,
            den == q * d,
            d >= 0,
            q >= 0,
    ;
    assert(i * (m * den) * more * one <= i * (num * more) * more) by (nonlinear_arith)
        requires
            m * den * one <= num * more,
            i >= 0,
            more >= 0,
    ;
    assert(i * (num * more) * more * one <= i * (p * u * more * more) * more) by (nonlinear_arith)
        requires
            pr * one <= p * more,
            num == pr * u,
            i >= 0,
            u >= 0,
            more >= 0,
    ;
    let below = w * d;
    let above = p * u;
    assert(below * q * (one * one * one) <= i * above * (more * more * more)) by (nonlinear_arith)
        requires
            below * q * one <= i * (m * den) * more,
            i * (m * den) * more * one <= i * (num * more) * more,
            i * (num * more) * more * one <= i * (above * more * more) * more,
            one > 0,
    ;
    let cube = 730750818665451459101842416358141509827966271488int;
    let excess = 243388915243820072108964779655169int;
    assert(one * one * one == cube && more * more * more == cube + excess) by (nonlinear_arith)
        requires
            one == 0x20_0000_0000_0000,
            more == one + 1,
            cube == 730750818665451459101842416358141509827966271488int,
            excess == 243388915243820072108964779655169int,
    ;
    assert(i * (cube + excess) < q * cube) by (nonlinear_arith)
        requires
            0 <= i <= q - 1,
            q <= 0x4_0000_0000_0000,
            cube == 730750818665451459101842416358141509827966271488int,
            excess == 243388915243820072108964779655169int,
    ;
    assert(above > 0) by (nonlinear_arith)
        requires
            p > 0,
            u > 0,
            above == p * u,
    ;
    assert(below < above) by (nonlinear_arith)
        requires
            below * q * (one * one * one) <= i * above * (more * more * more),
            i * (more * more * more) < q * (one * one * one),
            above > 0,
            q > 0,
            one > 0,
    ;
    assert(below / u < p) by (nonlinear_arith)
        requires
            below < p * u,
            u > 0,
    ;
}

/// A quotient is a number with the rounded digits as its significand and the exponent that the
/// shift gives it.
pub proof fn law_quotient_is_made_of_its_digits(p: nat, q: nat)
    requires
        p > 0,
        q > 0,
        -120 <= shift(p, q) <= 120,
        significand(p, q) < 0x0020_0000_0000_0000,
    ensures
        quotient(p, q).bits < SIGN_BIT,
        quotient(p, q).exponent() == 1075 - shift(p, q),
        quotient(p, q).significand() == significand(p, q),
{
    law_quotient_is_nearest(p, q);
    let places = shift(p, q);
    let m = significand(p, q);
    let bits = (1075 - places) * EXPONENT_UNIT + (m - EXPONENT_UNIT);
    assert(bits == (1074 - places) * EXPONENT_UNIT + m);
    assert(0 <= bits < SIGN_BIT);
}

/// Numbers of up to 53 bits are their own roundings.
pub proof fn law_short_numbers_are_exact(n: nat)
    requires
        n < 0x0020_0000_0000_0000,
    ensures
        whole(n) == n,
{
}

/// Halves are rounded to the even neighbour and everything else to the nearer one.
pub proof fn law_halves_go_to_the_even(p: nat, q: nat)
    requires
        q > 0,
    ensures
        ({
            let d = half_even(p, q);
            &&& 2 * (d * q) <= 2 * p + q
            &&& 2 * p <= 2 * (d * q) + q
            &&& (2 * (d * q) == 2 * p + q || 2 * p == 2 * (d * q) + q) ==> d % 2 == 0
        }),
{
    let d = p / q;
    let r = p % q;
    assert(p == d * q + r && r < q) by (nonlinear_arith)
        requires
            q > 0,
            d == p / q,
            r == p % q,
    ;
    assert((d + 1) * q == d * q + q) by (nonlinear_arith);
    assert((d - 1) * q == d * q - q) by (nonlinear_arith);
}

} // verus!

//! Double-precision arithmetic on the few values that range scaling needs,
//! reproduced exactly in integers.
//!
//! Every quantity is a non-negative multiple of 2^-83 and is held as that
//! multiple, a natural number. Rounding keeps the 53 most significant bits,
//! to nearest and with ties to the even neighbour, as the binary64 format of
//! IEEE 754 does. All values that occur lie between 2^-31 and 2^33, far from
//! the format's subnormal and overflow ranges, so no other case of the format
//! arises.

use vstd::prelude::*;

verus! {

/// 2^83: the number of units in the value one.
pub const UNIT: u128 = 0x8_0000_0000_0000_0000_0000;

/// 2^53: a quantity below this bound is held without rounding.
pub const SIGNIFICAND_BOUND: u128 = 0x20_0000_0000_0000;

/// The largest value a draw can take, and the divisor that maps draws into
/// the interval from zero to one.
pub const DRAW_MAX: u32 = 0x7fff_ffff;

/// The power of two by which a quantity of floor `t` is divided so that 53
/// significant bits remain.
pub open spec fn scale_of(t: nat) -> nat
    decreases t,
{
    if t < 0x20_0000_0000_0000 {
        1
    } else {
        2 * scale_of(t / 2)
    }
}

/// The integer nearest to `a / d`, the even one of two that are equally near.
pub open spec fn nearest_even_quotient(a: nat, d: nat) -> nat {
    let q = a / d;
    let r = a % d;
    if 2 * r > d || (2 * r == d && q % 2 == 1) {
        q + 1
    } else {
        q
    }
}

/// The quotient `a / b` rounded to 53 significant bits.
pub open spec fn round_ratio(a: nat, b: nat) -> nat {
    let s = scale_of(a / b);
    nearest_even_quotient(a, b * s) * s
}

/// A draw `r` mapped into the range from `min` to `max`, as double-precision
/// arithmetic computes `min + (max - min + 1) * (r / DRAW_MAX)` and then drops
/// the fractional part: the quotient is rounded, then the product, then the
/// sum, and a result above the largest 32-bit value becomes that value.
/// Where `max` is below `min` the product is negative and the same steps
/// apply to its magnitude.
pub open spec fn scale_into_range(min: u32, max: u32, r: u32) -> u32 {
    let q = round_ratio(r as nat * UNIT as nat, DRAW_MAX as nat);
    let s = if min <= max {
        round_ratio(min as nat * UNIT as nat + round_ratio((max - min + 1) as nat * q, 1), 1)
    } else {
        round_ratio(
            (min as nat * UNIT as nat - round_ratio((min - max - 1) as nat * q, 1)) as nat,
            1,
        )
    };
    let t = s / UNIT as nat;
    if t > u32::MAX {
        u32::MAX
    } else {
        t as u32
    }
}

/// 2^k.
pub open spec fn two_to(k: nat) -> nat
    decreases k,
{
    if k == 0 {
        1
    } else {
        2 * two_to((k - 1) as nat)
    }
}

/// The unit and the bound on significands are the powers of two that their
/// names say.
pub proof fn lemma_two_to_83()
    ensures
        two_to(83) == UNIT,
        two_to(53) == SIGNIFICAND_BOUND,
{
    reveal_with_fuel(two_to, 84);
}

/// The scale of a quantity below 2^(53+k) divides 2^k.
pub proof fn lemma_scale_divides(t: nat, k: nat)
    requires
        t < 0x20_0000_0000_0000 * two_to(k),
    ensures
        scale_of(t) >= 1,
        two_to(k) % scale_of(t) == 0,
    decreases k,
{
    if t < 0x20_0000_0000_0000 {
    } else {
        assert(k > 0);
        let h = (t / 2) as nat;
        lemma_scale_divides(h, (k - 1) as nat);
        let s = scale_of(h);
        let c = two_to((k - 1) as nat) / s;
        assert(two_to((k - 1) as nat) == s * c) by {
            vstd::arithmetic::div_mod::lemma_fundamental_div_mod(two_to((k - 1) as nat) as int, s as int);
        }
        assert(two_to(k) == (2 * s) * c) by (nonlinear_arith)
            requires
                two_to(k) == 2 * two_to((k - 1) as nat),
                two_to((k - 1) as nat) == s * c,
        ;
        assert(((2 * s) * c) % (2 * s) == 0) by (nonlinear_arith)
            requires
                s >= 1,
        ;
    }
}

/// If `s` divides `m` then `s` divides `x * m`.
pub proof fn lemma_multiple_divisible(x: nat, m: nat, s: nat)
    requires
        s >= 1,
        m % s == 0,
    ensures
        (x * m) % s == 0,
{
    let c = m / s;
    assert(m == s * c) by {
        vstd::arithmetic::div_mod::lemma_fundamental_div_mod(m as int, s as int);
    }
    assert((x * m) % s == 0) by (nonlinear_arith)
        requires
            m == s * c,
            s >= 1,
    {
        assert(x * m == (x * c) * s);
        vstd::arithmetic::div_mod::lemma_mod_multiples_basic((x * c) as int, s as int);
    }
}

/// Rounding stays between two bounds that are themselves multiples of the
/// scale, hence held exactly.
pub proof fn lemma_round_ratio_bounds(a: nat, b: nat, lo: nat, hi: nat)
    requires
        b > 0,
        scale_of(a / b) >= 1,
        lo % scale_of(a / b) == 0,
        hi % scale_of(a / b) == 0,
        b * lo <= a <= b * hi,
    ensures
        lo <= round_ratio(a, b) <= hi,
{
    let s = scale_of(a / b);
    let d = b * s;
    let l = lo / s;
    let h = hi / s;
    vstd::arithmetic::div_mod::lemma_fundamental_div_mod(lo as int, s as int);
    vstd::arithmetic::div_mod::lemma_fundamental_div_mod(hi as int, s as int);
    assert(lo == s * l);
    assert(hi == s * h);
    assert(d > 0) by (nonlinear_arith)
        requires
            d == b * s,
            b > 0,
            s >= 1,
    ;
    assert(d * l <= a && a <= d * h) by (nonlinear_arith)
        requires
            d == b * s,
            lo == s * l,
            hi == s * h,
            b * lo <= a <= b * hi,
    ;
    let q = a / d;
    let r = a % d;
    vstd::arithmetic::div_mod::lemma_fundamental_div_mod(a as int, d as int);
    assert(a == d * q + r && 0 <= r < d);
    assert(l <= q) by (nonlinear_arith)
        requires
            d * l <= a,
            a == d * q + r,
            0 <= r < d,
            d > 0,
    ;
    assert(q <= h && (q == h ==> r == 0)) by (nonlinear_arith)
        requires
            a <= d * h,
            a == d * q + r,
            0 <= r < d,
            d > 0,
    ;
    let m = nearest_even_quotient(a, d);
    assert(l <= m <= h);
    assert(s * l <= m * s && m * s <= s * h) by (nonlinear_arith)
        requires
            l <= m <= h,
            s >= 1,
    ;
}

/// The scale of any quantity that range scaling meets divides every whole
/// number of units.
pub proof fn lemma_whole_is_held(a: nat, b: nat, x: nat)
    requires
        b > 0,
        a < 0x1_0000_0000_0000_0000_0000_0000_0000_0000,
    ensures
        scale_of(a / b) >= 1,
        (x * UNIT as nat) % scale_of(a / b) == 0,
{
    lemma_two_to_83();
    let t = a / b;
    assert(t <= a) by (nonlinear_arith)
        requires
            t == a / b,
            b > 0,
    ;
    lemma_scale_divides(t, 83);
    lemma_multiple_divisible(x, UNIT as nat, scale_of(t));
}

/// The quotient `a / b` rounded to 53 significant bits.
fn rounded_ratio(a: u128, b: u128) -> (out: u128)
    requires
        0 < b < 0x1_0000_0000,
        a < 0x100_0000_0000_0000_0000_0000_0000_0000,
    ensures
        out == round_ratio(a as nat, b as nat),
{
    let t = a / b;
    assert(t <= a) by (nonlinear_arith)
        requires
            t == a / b,
            b > 0,
    ;
    let mut u = t;
    let mut s: u128 = 1;
    while u >= SIGNIFICAND_BOUND
        invariant
            1 <= s <= 0x10_0000_0000_0000_0000,
            s * scale_of(u as nat) == scale_of(t as nat),
            u * s <= t,
            t < 0x100_0000_0000_0000_0000_0000_0000_0000,
        decreases u,
    {
        assert(s < 0x8_0000_0000_0000_0000) by (nonlinear_arith)
            requires
                u >= 0x20_0000_0000_0000,
                u * s <= t,
                t < 0x100_0000_0000_0000_0000_0000_0000_0000,
        ;
        assert((2 * s) * scale_of((u / 2) as nat) == s * scale_of(u as nat) && (u / 2) * (2 * s)
            <= u * s) by (nonlinear_arith)
            requires
                scale_of(u as nat) == 2 * scale_of((u / 2) as nat),
                s >= 1,
        ;
        u = u / 2;
        s = s * 2;
    }
    assert(s == scale_of(t as nat)) by (nonlinear_arith)
        requires
            s * scale_of(u as nat) == scale_of(t as nat),
            scale_of(u as nat) == 1,
    ;
    assert(0 < b * s < 0x10_0000_0000_0000_0000_0000_0000) by (nonlinear_arith)
        requires
            0 < b < 0x1_0000_0000,
            1 <= s <= 0x10_0000_0000_0000_0000,
    ;
    let d = b * s;
    let q = a / d;
    let rem = a % d;
    proof {
        vstd::arithmetic::div_mod::lemma_fundamental_div_mod(a as int, d as int);
        assert(q * s <= a) by (nonlinear_arith)
            requires
                a == d * q + rem,
                d == b * s,
                b >= 1,
                s >= 1,
                q >= 0,
                rem >= 0,
        ;
    }
    let m = if 2 * rem > d || (2 * rem == d && q % 2 == 1) {
        q + 1
    } else {
        q
    };
    assert(m * s <= a + s) by (nonlinear_arith)
        requires
            q * s <= a,
            m <= q + 1,
            s >= 1,
    ;
    m * s
}

/// Maps a draw `r` into the range from `min` to `max`, exactly as
/// double-precision arithmetic does. The smallest draw yields `min`. The
/// largest draw yields `max + 1`, one above the range, or the largest 32-bit
/// value where `max` is that value already.
pub fn scale(min: u32, max: u32, r: u32) -> (out: u32)
    requires
        r <= DRAW_MAX,
    ensures
        out == scale_into_range(min, max, r),
        min <= max ==> min <= out <= max + 1,
        min > max ==> max < out <= min,
        r == 0 ==> out == min,
        r == DRAW_MAX && max < u32::MAX ==> out == max + 1,
        r == DRAW_MAX && max == u32::MAX ==> out == u32::MAX,
{
    let unit_r = (r as u128) * UNIT;
    let q = rounded_ratio(unit_r, DRAW_MAX as u128);
    proof {
        lemma_whole_is_held(unit_r as nat, DRAW_MAX as nat, 0);
        lemma_whole_is_held(unit_r as nat, DRAW_MAX as nat, 1);
        lemma_round_ratio_bounds(unit_r as nat, DRAW_MAX as nat, 0, UNIT as nat);
        if r == 0 {
            lemma_round_ratio_bounds(0, DRAW_MAX as nat, 0, 0);
        }
        if r == DRAW_MAX {
            lemma_round_ratio_bounds(unit_r as nat, DRAW_MAX as nat, UNIT as nat, UNIT as nat);
        }
    }
    if min <= max {
        let n = (max - min) as u128 + 1;
        assert(n * q <= n * UNIT && n * UNIT <= 0x1_0000_0000 * UNIT) by (nonlinear_arith)
            requires
                q <= UNIT,
                n <= 0x1_0000_0000,
        ;
        let p = rounded_ratio(n * q, 1);
        proof {
            lemma_whole_is_held((n * q) as nat, 1, 0);
            lemma_whole_is_held((n * q) as nat, 1, n as nat);
            lemma_round_ratio_bounds((n * q) as nat, 1, 0, (n * UNIT) as nat);
        }
        let base = (min as u128) * UNIT;
        let s = rounded_ratio(base + p, 1);
        proof {
            lemma_whole_is_held((base + p) as nat, 1, min as nat);
            lemma_whole_is_held((base + p) as nat, 1, (min + n) as nat);
            assert((min + n) * UNIT == base + n * UNIT) by (nonlinear_arith)
                requires
                    base == min * UNIT,
            ;
            lemma_round_ratio_bounds(
                (base + p) as nat,
                1,
                base as nat,
                ((min + n) * UNIT) as nat,
            );
            if r == 0 {
                assert(n * q == 0) by (nonlinear_arith)
                    requires
                        q == 0,
                ;
                lemma_round_ratio_bounds(0, 1, 0, 0);
                lemma_round_ratio_bounds(base as nat, 1, base as nat, base as nat);
            }
            if r == DRAW_MAX {
                lemma_round_ratio_bounds((n * q) as nat, 1, (n * UNIT) as nat, (n * UNIT) as nat);
                lemma_round_ratio_bounds(
                    (base + p) as nat,
                    1,
                    ((min + n) * UNIT) as nat,
                    ((min + n) * UNIT) as nat,
                );
            }
        }
        let t = s / UNIT;
        assert(min <= t <= min + n && (s == base ==> t == min));
        assert(s == (min + n) * UNIT ==> t == min + n);
        if t > u32::MAX as u128 {
            u32::MAX
        } else {
            t as u32
        }
    } else {
        let n = (min - max - 1) as u128;
        assert(n * q <= n * UNIT && n * UNIT <= 0x1_0000_0000 * UNIT) by (nonlinear_arith)
            requires
                q <= UNIT,
                n <= 0x1_0000_0000,
        ;
        let p = rounded_ratio(n * q, 1);
        proof {
            lemma_whole_is_held((n * q) as nat, 1, 0);
            lemma_whole_is_held((n * q) as nat, 1, n as nat);
            lemma_round_ratio_bounds((n * q) as nat, 1, 0, (n * UNIT) as nat);
        }
        let base = (min as u128) * UNIT;
        assert(base - n * UNIT == (min - n) * UNIT) by (nonlinear_arith)
            requires
                base == min * UNIT,
        ;
        assert((min - n) * UNIT >= 0) by (nonlinear_arith)
            requires
                min - n >= 0,
        ;
        let s = rounded_ratio(base - p, 1);
        proof {
            lemma_whole_is_held((base - p) as nat, 1, min as nat);
            lemma_whole_is_held((base - p) as nat, 1, (min - n) as nat);
            lemma_round_ratio_bounds(
                (base - p) as nat,
                1,
                ((min - n) * UNIT) as nat,
                base as nat,
            );
            if r == 0 {
                assert(n * q == 0) by (nonlinear_arith)
                    requires
                        q == 0,
                ;
                lemma_round_ratio_bounds(0, 1, 0, 0);
                lemma_round_ratio_bounds(base as nat, 1, base as nat, base as nat);
            }
            if r == DRAW_MAX {
                lemma_round_ratio_bounds((n * q) as nat, 1, (n * UNIT) as nat, (n * UNIT) as nat);
                lemma_round_ratio_bounds(
                    (base - p) as nat,
                    1,
                    ((min - n) * UNIT) as nat,
                    ((min - n) * UNIT) as nat,
                );
            }
        }
        let t = s / UNIT;
        assert(min - n <= t <= min && (s == base ==> t == min));
        assert(s == (min - n) * UNIT ==> t == min - n);
        t as u32
    }
}

} // verus!

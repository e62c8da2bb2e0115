//! Colorspace conversions between the four color representations.
//!
//! Exactly one authoritative formula exists per direction:
//! [`RgbFloatColor::to_hsv`] and [`HsvFloatColor::to_rgb`] hold the RGB/HSV
//! math, and the int/float rescalings hold the range changes. Every other
//! conversion composes these, so `HsvIntColor -> RgbIntColor` runs
//! `HsvIntColor -> HsvFloatColor -> RgbFloatColor -> RgbIntColor`.
//!
//! No conversion fails: out-of-range channels are carried through the
//! formulas as they come, saturating only at the fixed-point range itself,
//! and conversions to integer channels saturate at the channel's range.

use vstd::prelude::*;
use crate::color::{HsvFloatColor, HsvIntColor, RgbFloatColor, RgbIntColor, Color};
use crate::fixed::{abs_i, fclamp, rdiv, Fixed, FIXED_MAX, SCALE};

verus! {

/// `x` held into the range `lo..=hi`.
pub open spec fn sat(x: int, lo: int, hi: int) -> int {
    if x < lo {
        lo
    } else if x > hi {
        hi
    } else {
        x
    }
}

/// An integer channel rescaled into millionths of full scale.
pub open spec fn channel_up(n: int, den: int) -> int {
    fclamp(rdiv(n * (SCALE as int), den))
}

/// A fractional channel rescaled to an integer channel of range `max`,
/// rounded to the nearest integer and saturated at the channel's range.
pub open spec fn channel_down(m: int, max: int) -> int {
    sat(rdiv(m * max, SCALE as int), 0, max)
}

/// Integer RGB rescaled to fractional RGB.
pub open spec fn spec_rgb_up(c: RgbIntColor) -> RgbFloatColor {
    RgbFloatColor {
        red: Fixed { micros: channel_up(c.red as int, 255) as i64 },
        green: Fixed { micros: channel_up(c.green as int, 255) as i64 },
        blue: Fixed { micros: channel_up(c.blue as int, 255) as i64 },
    }
}

/// Fractional RGB rescaled to integer RGB.
pub open spec fn spec_rgb_down(c: RgbFloatColor) -> RgbIntColor {
    RgbIntColor {
        red: channel_down(c.red.micros as int, 255) as u8,
        green: channel_down(c.green.micros as int, 255) as u8,
        blue: channel_down(c.blue.micros as int, 255) as u8,
    }
}

/// Integer HSV rescaled to fractional HSV; the hue becomes a fraction of a
/// full turn, so 360 degrees is exactly `1.0`.
pub open spec fn spec_hsv_up(c: HsvIntColor) -> HsvFloatColor {
    HsvFloatColor {
        hue: Fixed { micros: channel_up(c.hue as int, 360) as i64 },
        saturation: Fixed { micros: channel_up(c.saturation as int, 255) as i64 },
        value: Fixed { micros: channel_up(c.value as int, 255) as i64 },
    }
}

/// Fractional HSV rescaled to integer HSV; the hue returns to degrees.
pub open spec fn spec_hsv_down(c: HsvFloatColor) -> HsvIntColor {
    HsvIntColor {
        hue: sat(rdiv(c.hue.micros * 360, SCALE as int), 0, 0xffff) as u16,
        saturation: channel_down(c.saturation.micros as int, 255) as u8,
        value: channel_down(c.value.micros as int, 255) as u8,
    }
}

/// The larger of two integers.
pub open spec fn max_i(a: int, b: int) -> int {
    if a >= b {
        a
    } else {
        b
    }
}

/// The smaller of two integers.
pub open spec fn min_i(a: int, b: int) -> int {
    if a <= b {
        a
    } else {
        b
    }
}

/// Fractional RGB converted to fractional HSV: the value is the largest
/// channel, the saturation is the chroma over the value, and the hue is
/// the standard 60-degree-sector formula, normalized into one turn.
pub open spec fn spec_rgb_to_hsv(c: RgbFloatColor) -> HsvFloatColor {
    let r = c.red.micros as int;
    let g = c.green.micros as int;
    let b = c.blue.micros as int;
    let cmax = max_i(r, max_i(g, b));
    let cmin = min_i(r, min_i(g, b));
    let delta = cmax - cmin;
    let s = if cmax == 0 {
        0
    } else {
        fclamp(rdiv(delta * (SCALE as int), cmax))
    };
    let h = if delta == 0 {
        0
    } else if cmax == r {
        rdiv((g - b) * (SCALE as int), 6 * delta) % (SCALE as int)
    } else if cmax == g {
        rdiv((b - r + 2 * delta) * (SCALE as int), 6 * delta) % (SCALE as int)
    } else {
        rdiv((r - g + 4 * delta) * (SCALE as int), 6 * delta) % (SCALE as int)
    };
    HsvFloatColor {
        hue: Fixed { micros: h as i64 },
        saturation: Fixed { micros: s as i64 },
        value: Fixed { micros: cmax as i64 },
    }
}

/// Fractional HSV converted to fractional RGB: the hue is reduced into one
/// turn and split into six sectors; the chroma `c` and the secondary
/// channel `x` place the triple, and the lightness offset `m` lifts it.
pub open spec fn spec_hsv_to_rgb(c: HsvFloatColor) -> RgbFloatColor {
    let h6 = c.hue.micros as int * 6;
    let hm = h6 % (6 * (SCALE as int));
    let sector = hm / (SCALE as int);
    let t = abs_i(hm % (2 * (SCALE as int)) - (SCALE as int));
    let cc = fclamp(rdiv(c.value.micros * c.saturation.micros, SCALE as int));
    let x = fclamp(rdiv(cc * ((SCALE as int) - t), SCALE as int));
    let m = fclamp(c.value.micros - cc);
    let rgb: (int, int, int) = if sector == 0 {
        (cc, x, 0)
    } else if sector == 1 {
        (x, cc, 0)
    } else if sector == 2 {
        (0, cc, x)
    } else if sector == 3 {
        (0, x, cc)
    } else if sector == 4 {
        (x, 0, cc)
    } else {
        (cc, 0, x)
    };
    RgbFloatColor {
        red: Fixed { micros: fclamp(rgb.0 + m) as i64 },
        green: Fixed { micros: fclamp(rgb.1 + m) as i64 },
        blue: Fixed { micros: fclamp(rgb.2 + m) as i64 },
    }
}

/// Any color reduced to integer RGB, routed through the authoritative
/// formulas for its variant.
pub open spec fn spec_to_rgb_int(c: Color) -> RgbIntColor {
    match c {
        Color::RgbInt(x) => x,
        Color::RgbFloat(x) => spec_rgb_down(x),
        Color::HsvInt(x) => spec_rgb_down(spec_hsv_to_rgb(spec_hsv_up(x))),
        Color::HsvFloat(x) => spec_rgb_down(spec_hsv_to_rgb(x)),
    }
}

/// A bounded multiple bounds the factor: division by a positive `d`.
proof fn lemma_div_bound(d: int, x: int, c: int)
    requires
        d >= 1,
        -(d * c) <= d * x <= d * c,
    ensures
        -c <= x <= c,
{
    assert(-c <= x <= c) by (nonlinear_arith)
        requires
            d >= 1,
            -(d * c) <= d * x <= d * c,
    ;
}

/// Comparing multiples of a positive factor compares the multipliers.
proof fn lemma_div_le(d: int, x: int, y: int)
    requires
        d >= 1,
        d * x <= d * y,
    ensures
        x <= y,
{
    assert(x <= y) by (nonlinear_arith)
        requires
            d >= 1,
            d * x <= d * y,
    ;
}

/// The quotient of a value between two multiples is the lower multiplier.
proof fn lemma_div_in(k: int, x: int, d: int)
    requires
        d > 0,
        k * d <= x < (k + 1) * d,
    ensures
        x / d == k,
{
    assert(x / d == k) by (nonlinear_arith)
        requires
            d > 0,
            k * d <= x < (k + 1) * d,
    ;
}

/// Rounding division keeps the dividend's sign.
proof fn lemma_rdiv_sign(a: int, b: int)
    requires
        b > 0,
    ensures
        a >= 0 ==> rdiv(a, b) >= 0,
        a < 0 ==> rdiv(a, b) <= 0,
{
    let q0 = (2 * abs_i(a) + b) / (2 * b);
    assert(q0 >= 0) by (nonlinear_arith)
        requires
            b > 0,
            abs_i(a) >= 0,
            q0 == (2 * abs_i(a) + b) / (2 * b),
    ;
}

/// A fractional channel near an integer channel's exact image scales back
/// to exactly that integer.
proof fn lemma_channel_return(n: int, chan: int)
    requires
        0 <= n <= 255,
        abs_i(chan - rdiv(n * (SCALE as int), 255)) <= 100,
    ensures
        channel_down(chan, 255) == n,
{
    let sc = SCALE as int;
    let big = rdiv(n * sc, 255);
    crate::fixed::lemma_rdiv_err(n * sc, 255);
    assert(2 * abs_i(255 * big - n * sc) <= 255);
    assert(abs_i(chan * 255 - big * 255) <= 25_500) by (nonlinear_arith)
        requires
            abs_i(chan - big) <= 100,
    ;
    assert(255 * big == big * 255) by (nonlinear_arith);
    assert(2 * abs_i(chan * 255 - n * sc) < sc);
    crate::fixed::lemma_rdiv_near(chan * 255, n, sc);
}

/// The saturation computed from a chroma and the chroma recovered from it
/// stay within one millionth of each other.
proof fn lemma_chroma(cmax: int, delta: int)
    requires
        1 <= cmax <= SCALE as int,
        0 <= delta <= cmax,
    ensures
        0 <= fclamp(rdiv(delta * (SCALE as int), cmax)) <= SCALE as int,
        abs_i(
            fclamp(rdiv(cmax * fclamp(rdiv(delta * (SCALE as int), cmax)), SCALE as int)) - delta,
        ) <= 1,
{
    let sc = SCALE as int;
    let s0 = rdiv(delta * sc, cmax);
    lemma_rdiv_sign(delta * sc, cmax);
    assert(delta * sc >= 0) by (nonlinear_arith)
        requires
            delta >= 0,
            sc > 0,
    ;
    crate::fixed::lemma_rdiv_err(delta * sc, cmax);
    assert(2 * abs_i(cmax * s0 - delta * sc) <= cmax);
    assert(s0 <= sc) by (nonlinear_arith)
        requires
            cmax >= 1,
            2 * (cmax * s0 - delta * sc) <= cmax,
            delta <= cmax,
            sc >= 1,
            delta * sc <= cmax * sc,
    ;
    assert(delta * sc <= cmax * sc) by (nonlinear_arith)
        requires
            delta <= cmax,
            sc >= 0,
    ;
    let s = fclamp(s0);
    assert(s == s0);
    let cc0 = rdiv(cmax * s, sc);
    crate::fixed::lemma_rdiv_err(cmax * s, sc);
    assert(2 * abs_i(sc * cc0 - cmax * s) <= sc);
    assert(sc * (cc0 - delta) == (sc * cc0 - cmax * s) + (cmax * s0 - delta * sc)) by (nonlinear_arith)
        requires
            s == s0,
    ;
    assert(abs_i(sc * (cc0 - delta)) <= sc);
    lemma_div_bound(sc, cc0 - delta, 1);
    assert(fclamp(cc0) == cc0);
}

/// The rounded hue numerator: its scaled error, magnitude, and sign, for a
/// numerator of at most `k` chromas.
proof fn lemma_hueq(num: int, delta: int, k: int)
    requires
        1 <= delta <= SCALE as int,
        1 <= k <= 5,
        -(k * delta) <= num <= k * delta,
    ensures
        2 * abs_i((6 * delta) * rdiv(num * (SCALE as int), 6 * delta) - num * (SCALE as int)) <= 6
            * delta,
        6 * abs_i(rdiv(num * (SCALE as int), 6 * delta)) <= k * (SCALE as int) + 3,
        num >= 0 ==> rdiv(num * (SCALE as int), 6 * delta) >= 0,
        num < 0 ==> rdiv(num * (SCALE as int), 6 * delta) <= 0,
{
    let sc = SCALE as int;
    let q = rdiv(num * sc, 6 * delta);
    crate::fixed::lemma_rdiv_err(num * sc, 6 * delta);
    lemma_rdiv_sign(num * sc, 6 * delta);
    assert(num >= 0 ==> num * sc >= 0) by (nonlinear_arith)
        requires
            sc > 0,
    ;
    assert(num < 0 ==> num * sc < 0) by (nonlinear_arith)
        requires
            sc > 0,
    ;
    assert(abs_i(num * sc) <= (k * delta) * sc) by (nonlinear_arith)
        requires
            -(k * delta) <= num <= k * delta,
            sc > 0,
    ;
    assert(delta * (6 * abs_i(q)) <= delta * (k * sc + 3)) by (nonlinear_arith)
        requires
            2 * abs_i((6 * delta) * q - num * sc) <= 6 * delta,
            abs_i(num * sc) <= (k * delta) * sc,
            delta >= 1,
            k >= 1,
            sc > 0,
    ;
    lemma_div_le(delta, 6 * abs_i(q), k * sc + 3);
}

/// Recovering a channel from the chroma and a sector weight lands within
/// eleven millionths of the intended value.
proof fn lemma_x_est(cc: int, w: int, target: int)
    requires
        0 <= cc <= SCALE as int + 1,
        0 <= w <= SCALE as int,
        -(SCALE as int) <= target <= 2 * (SCALE as int),
        abs_i(cc * w - target * (SCALE as int)) <= 10_000_000,
    ensures
        abs_i(fclamp(rdiv(cc * w, SCALE as int)) - target) <= 11,
{
    let sc = SCALE as int;
    let x0 = rdiv(cc * w, sc);
    crate::fixed::lemma_rdiv_err(cc * w, sc);
    assert(2 * abs_i(sc * x0 - cc * w) <= sc);
    assert(abs_i(sc * (x0 - target)) <= 10_500_000) by (nonlinear_arith)
        requires
            2 * abs_i(sc * x0 - cc * w) <= sc,
            abs_i(cc * w - target * sc) <= 10_000_000,
            sc == 1_000_000,
    ;
    assert(sc * 11 >= 10_500_000);
    lemma_div_bound(sc, x0 - target, 11);
    assert(fclamp(x0) == x0);
}

/// The conversion cycle keeps every channel within fifty millionths when
/// the red channel is the largest.
proof fn lemma_cycle_red(c: RgbFloatColor)
    requires
        0 <= c.green.micros,
        0 <= c.blue.micros,
        c.green.micros <= c.red.micros,
        c.blue.micros <= c.red.micros,
        c.red.micros <= SCALE,
    ensures
        ({
            let back = spec_hsv_to_rgb(spec_rgb_to_hsv(c));
            &&& abs_i(back.red.micros - c.red.micros) <= 50
            &&& abs_i(back.green.micros - c.green.micros) <= 50
            &&& abs_i(back.blue.micros - c.blue.micros) <= 50
        }),
{
    let sc = SCALE as int;
    let r = c.red.micros as int;
    let g = c.green.micros as int;
    let b = c.blue.micros as int;
    let mn = min_i(r, min_i(g, b));
    let delta = r - mn;
    let hsv = spec_rgb_to_hsv(c);
    let back = spec_hsv_to_rgb(hsv);
    assert(max_i(r, max_i(g, b)) == r);
    assert(mn == min_i(g, b));
    if delta == 0 {
        assert(g == r && b == r);
        assert(hsv.hue.micros == 0);
        if r != 0 {
            assert(0 * sc == 0) by (nonlinear_arith);
            crate::fixed::lemma_rdiv_near(0, 0, r);
            assert(hsv.saturation.micros == 0);
        }
        assert(hsv.saturation.micros == 0);
        assert(hsv.value.micros as int == r);
        let prod = hsv.value.micros as int * hsv.saturation.micros as int;
        assert(prod == 0) by (nonlinear_arith)
            requires
                prod == hsv.value.micros as int * hsv.saturation.micros as int,
                hsv.saturation.micros as int == 0,
        ;
        crate::fixed::lemma_rdiv_near(0, 0, sc);
        let t0 = abs_i((0int) % (2 * sc) - sc);
        assert(t0 == sc);
        let cc = fclamp(rdiv(prod, sc));
        assert(cc == 0);
        assert(cc * (sc - t0) == 0) by (nonlinear_arith)
            requires
                cc == 0,
        ;
        let m = fclamp(hsv.value.micros as int - cc);
        assert(m == r);
        assert(back.red.micros as int == fclamp(cc + m));
        assert(back.green.micros as int == fclamp(fclamp(rdiv(cc * (sc - t0), sc)) + m));
        assert(back.blue.micros as int == fclamp(0 + m));
        assert(back.red.micros as int == r);
        assert(back.green.micros as int == r);
        assert(back.blue.micros as int == r);
    } else {
        assert(1 <= delta <= r);
        lemma_chroma(r, delta);
        let s = fclamp(rdiv(delta * sc, r));
        assert(hsv.saturation.micros as int == s);
        assert(hsv.value.micros as int == r);
        let num = g - b;
        assert(-delta <= num <= delta);
        lemma_hueq(num, delta, 1);
        assert(1 * delta == delta) by (nonlinear_arith);
        assert(1 * sc == sc) by (nonlinear_arith);
        let q = rdiv(num * sc, 6 * delta);
        assert(hsv.hue.micros as int == q % sc);
        assert(6 * abs_i(q) <= sc + 3);
        // the chroma and offset recovered on the way back
        let prod = hsv.value.micros as int * hsv.saturation.micros as int;
        assert(prod == r * s);
        let cc = fclamp(rdiv(prod, sc));
        assert(abs_i(cc - delta) <= 1);
        assert(0 <= cc <= sc + 1);
        let m = fclamp(hsv.value.micros as int - cc);
        assert(m == r - cc);
        assert(abs_i(m - mn) <= 1);
        assert((6 * delta) * q == delta * (6 * q)) by (nonlinear_arith);
        assert(2 * abs_i(delta * (6 * q) - num * sc) <= 6 * delta);
        assert(abs_i(delta * (6 * q) - num * sc) <= 3 * sc) by {
            assert(3 * delta <= 3 * sc);
        }
        if q >= 0 {
            vstd::arithmetic::div_mod::lemma_small_mod(q as nat, sc as nat);
            assert(hsv.hue.micros as int == q);
            let h6 = hsv.hue.micros as int * 6;
            assert(h6 == 6 * q);
            assert(0 <= h6 <= sc + 3);
            vstd::arithmetic::div_mod::lemma_small_mod(h6 as nat, (6 * sc) as nat);
            let hm = h6 % (6 * sc);
            assert(hm == h6);
            vstd::arithmetic::div_mod::lemma_small_mod(h6 as nat, (2 * sc) as nat);
            assert(hm % (2 * sc) == h6);
            if num < 0 {
                // a negative numerator with a non-negative rounded hue is tiny
                assert(q == 0);
                assert(sc * (-num) <= 3 * delta) by (nonlinear_arith)
                    requires
                        2 * abs_i(delta * (6 * 0) - num * sc) <= 6 * delta,
                ;
                assert(sc * (-num) <= sc * 3);
                lemma_div_le(sc, -num, 3);
            }
            if h6 < sc {
                // first sector: red is the chroma channel, green the ramp
                lemma_div_in(0, h6, sc);
                assert(hm / sc == 0);
                let t = abs_i(h6 - sc);
                assert(t == sc - h6);
                assert(sc - t == 6 * q);
                assert(abs_i(cc * (6 * q) - num * sc) <= 10_000_000) by (nonlinear_arith)
                    requires
                        abs_i(delta * (6 * q) - num * sc) <= 3 * sc,
                        abs_i(cc - delta) <= 1,
                        0 <= 6 * q <= sc + 3,
                        sc == 1_000_000,
                ;
                lemma_x_est(cc, 6 * q, num);
                let x = fclamp(rdiv(cc * (sc - t), sc));
                assert(abs_i(x - num) <= 11);
                assert(back.red.micros as int == fclamp(cc + m));
                assert(back.green.micros as int == fclamp(x + m));
                assert(back.blue.micros as int == fclamp(0 + m));
                assert(abs_i(back.red.micros - r) <= 2);
                if num >= 0 {
                    assert(mn == b);
                    assert(abs_i(back.green.micros - g) <= 13);
                    assert(abs_i(back.blue.micros - b) <= 1);
                } else {
                    assert(mn == g);
                    assert(abs_i(back.green.micros - g) <= 16);
                    assert(abs_i(back.blue.micros - b) <= 4);
                }
            } else {
                // boundary into the second sector: the hue rounded up to
                // one sixth of a turn, so the ramp is nearly the chroma
                lemma_div_in(1, h6, sc);
                assert(hm / sc == 1);
                let t = abs_i(h6 - sc);
                assert(t == h6 - sc);
                assert(0 <= t <= 3);
                assert(abs_i(cc * (sc - t) - delta * sc) <= 10_000_000) by (nonlinear_arith)
                    requires
                        abs_i(cc - delta) <= 1,
                        0 <= t <= 3,
                        0 <= cc <= sc + 1,
                        0 <= delta <= sc,
                        sc == 1_000_000,
                ;
                lemma_x_est(cc, sc - t, delta);
                let x = fclamp(rdiv(cc * (sc - t), sc));
                assert(abs_i(x - delta) <= 11);
                // the numerator is nearly the full chroma
                assert(sc * (delta - num) <= 3 * delta) by (nonlinear_arith)
                    requires
                        2 * abs_i(delta * (6 * q) - num * sc) <= 6 * delta,
                        6 * q >= sc,
                        delta >= 1,
                ;
                assert(sc * (delta - num) <= sc * 3);
                lemma_div_le(sc, delta - num, 3);
                assert(back.red.micros as int == fclamp(x + m));
                assert(back.green.micros as int == fclamp(cc + m));
                assert(back.blue.micros as int == fclamp(0 + m));
                assert(abs_i(back.red.micros - r) <= 12);
                if num >= 0 {
                    assert(mn == b);
                    assert(g == num + b);
                    assert(abs_i(back.green.micros - g) <= 5);
                    assert(abs_i(back.blue.micros - b) <= 1);
                } else {
                    assert(mn == g);
                    assert(delta <= num + 3);
                    assert(abs_i(back.green.micros - g) <= 7);
                    assert(abs_i(back.blue.micros - b) <= 6);
                }
            }
        } else {
            // negative rounded hue: reduce into the last sixth of the turn
            assert(num <= -1);
            assert(mn == g);
            assert(b == g + (-num));
            vstd::arithmetic::div_mod::lemma_mod_multiples_vanish(1, q, sc);
            vstd::arithmetic::div_mod::lemma_small_mod((q + sc) as nat, sc as nat);
            assert(hsv.hue.micros as int == q + sc);
            let h6 = hsv.hue.micros as int * 6;
            assert(h6 == 6 * q + 6 * sc);
            assert(5 * sc - 3 <= h6 < 6 * sc);
            vstd::arithmetic::div_mod::lemma_small_mod(h6 as nat, (6 * sc) as nat);
            let hm = h6 % (6 * sc);
            assert(hm == h6);
            vstd::arithmetic::div_mod::lemma_mod_multiples_vanish(2, h6 - 4 * sc, 2 * sc);
            vstd::arithmetic::div_mod::lemma_small_mod((h6 - 4 * sc) as nat, (2 * sc) as nat);
            assert(hm % (2 * sc) == h6 - 4 * sc);
            if h6 >= 5 * sc {
                // last sector: red is the chroma channel, blue the ramp
                lemma_div_in(5, h6, sc);
                assert(hm / sc == 5);
                let t = abs_i(h6 - 4 * sc - sc);
                assert(t == h6 - 5 * sc);
                assert(sc - t == 6 * (-q));
                assert((6 * delta) * (-q) == delta * (6 * (-q))) by (nonlinear_arith);
                assert(abs_i(delta * (6 * (-q)) - (-num) * sc) <= 3 * sc) by (nonlinear_arith)
                    requires
                        abs_i(delta * (6 * q) - num * sc) <= 3 * sc,
                ;
                assert(abs_i(cc * (6 * (-q)) - (-num) * sc) <= 10_000_000) by (nonlinear_arith)
                    requires
                        abs_i(delta * (6 * (-q)) - (-num) * sc) <= 3 * sc,
                        abs_i(cc - delta) <= 1,
                        0 <= 6 * (-q) <= sc + 3,
                        sc == 1_000_000,
                ;
                lemma_x_est(cc, 6 * (-q), -num);
                let x = fclamp(rdiv(cc * (sc - t), sc));
                assert(abs_i(x - (-num)) <= 11);
                assert(back.red.micros as int == fclamp(cc + m));
                assert(back.green.micros as int == fclamp(0 + m));
                assert(back.blue.micros as int == fclamp(x + m));
                assert(abs_i(back.red.micros - r) <= 2);
                assert(abs_i(back.green.micros - g) <= 1);
                assert(abs_i(back.blue.micros - b) <= 12);
            } else {
                // boundary into the fifth sector: the ramp is nearly the
                // chroma, and blue nearly reaches red
                lemma_div_in(4, h6, sc);
                assert(hm / sc == 4);
                let t = abs_i(h6 - 4 * sc - sc);
                assert(t == 5 * sc - h6);
                assert(0 <= t <= 3);
                assert(abs_i(cc * (sc - t) - delta * sc) <= 10_000_000) by (nonlinear_arith)
                    requires
                        abs_i(cc - delta) <= 1,
                        0 <= t <= 3,
                        0 <= cc <= sc + 1,
                        0 <= delta <= sc,
                        sc == 1_000_000,
                ;
                lemma_x_est(cc, sc - t, delta);
                let x = fclamp(rdiv(cc * (sc - t), sc));
                assert(abs_i(x - delta) <= 11);
                assert(sc * (delta - (-num)) <= 3 * delta) by (nonlinear_arith)
                    requires
                        2 * abs_i(delta * (6 * q) - num * sc) <= 6 * delta,
                        6 * q <= -sc,
                        delta >= 1,
                ;
                assert(sc * (delta - (-num)) <= sc * 3);
                lemma_div_le(sc, delta - (-num), 3);
                assert(back.red.micros as int == fclamp(x + m));
                assert(back.green.micros as int == fclamp(0 + m));
                assert(back.blue.micros as int == fclamp(cc + m));
                assert(abs_i(back.red.micros - r) <= 12);
                assert(abs_i(back.green.micros - g) <= 1);
                assert(abs_i(back.blue.micros - b) <= 6);
            }
        }
    }
}

/// The conversion cycle keeps every channel within fifty millionths when
/// the green channel is strictly the largest.
proof fn lemma_cycle_green(c: RgbFloatColor)
    requires
        0 <= c.red.micros,
        0 <= c.blue.micros,
        c.red.micros < c.green.micros,
        c.blue.micros <= c.green.micros,
        c.green.micros <= SCALE,
    ensures
        ({
            let back = spec_hsv_to_rgb(spec_rgb_to_hsv(c));
            &&& abs_i(back.red.micros - c.red.micros) <= 50
            &&& abs_i(back.green.micros - c.green.micros) <= 50
            &&& abs_i(back.blue.micros - c.blue.micros) <= 50
        }),
{
    let sc = SCALE as int;
    let r = c.red.micros as int;
    let g = c.green.micros as int;
    let b = c.blue.micros as int;
    let mn = min_i(r, min_i(g, b));
    let delta = g - mn;
    let hsv = spec_rgb_to_hsv(c);
    let back = spec_hsv_to_rgb(hsv);
    assert(max_i(r, max_i(g, b)) == g);
    assert(max_i(r, max_i(g, b)) != r);
    assert(mn == min_i(r, b));
    assert(1 <= delta <= g);
    lemma_chroma(g, delta);
    let s = fclamp(rdiv(delta * sc, g));
    assert(hsv.saturation.micros as int == s);
    assert(hsv.value.micros as int == g);
    let num = b - r + 2 * delta;
    assert(delta <= num <= 3 * delta);
    lemma_hueq(num, delta, 3);
    let q = rdiv(num * sc, 6 * delta);
    assert(hsv.hue.micros as int == q % sc);
    assert(q >= 0);
    assert(6 * q <= 3 * sc + 3);
    let prod = hsv.value.micros as int * hsv.saturation.micros as int;
    assert(prod == g * s);
    let cc = fclamp(rdiv(prod, sc));
    assert(abs_i(cc - delta) <= 1);
    assert(0 <= cc <= sc + 1);
    let m = fclamp(hsv.value.micros as int - cc);
    assert(m == g - cc);
    assert(abs_i(m - mn) <= 1);
    assert((6 * delta) * q == delta * (6 * q)) by (nonlinear_arith);
    assert(2 * abs_i(delta * (6 * q) - num * sc) <= 6 * delta);
    assert(abs_i(delta * (6 * q) - num * sc) <= 3 * sc);
    // the hue is at least a sixth of a turn, less rounding
    assert(delta * (sc - 3) <= delta * (6 * q)) by (nonlinear_arith)
        requires
            2 * abs_i(delta * (6 * q) - num * sc) <= 6 * delta,
            delta * sc <= num * sc,
            delta >= 1,
    ;
    assert(delta * sc <= num * sc) by (nonlinear_arith)
        requires
            delta <= num,
            sc > 0,
    ;
    lemma_div_le(delta, sc - 3, 6 * q);
    assert(6 * q >= sc - 3);
    assert(q < sc);
    vstd::arithmetic::div_mod::lemma_small_mod(q as nat, sc as nat);
    assert(hsv.hue.micros as int == q);
    let h6 = hsv.hue.micros as int * 6;
    assert(h6 == 6 * q);
    assert(sc - 3 <= h6 <= 3 * sc + 3);
    vstd::arithmetic::div_mod::lemma_small_mod(h6 as nat, (6 * sc) as nat);
    let hm = h6 % (6 * sc);
    assert(hm == h6);
    if h6 < 2 * sc {
        vstd::arithmetic::div_mod::lemma_small_mod(h6 as nat, (2 * sc) as nat);
        assert(hm % (2 * sc) == h6);
    } else {
        vstd::arithmetic::div_mod::lemma_mod_multiples_vanish(1, h6 - 2 * sc, 2 * sc);
        vstd::arithmetic::div_mod::lemma_small_mod((h6 - 2 * sc) as nat, (2 * sc) as nat);
        assert(hm % (2 * sc) == h6 - 2 * sc);
    }
    if h6 < sc {
        // boundary below the second sector: the ramp nearly equals the
        // chroma, and red nearly reaches green
        lemma_div_in(0, h6, sc);
        let t = abs_i(h6 - sc);
        assert(t == sc - h6);
        assert(0 <= t <= 3);
        assert(abs_i(cc * (sc - t) - delta * sc) <= 10_000_000) by (nonlinear_arith)
            requires
                abs_i(cc - delta) <= 1,
                0 <= t <= 3,
                0 <= cc <= sc + 1,
                0 <= delta <= sc,
                sc == 1_000_000,
        ;
        lemma_x_est(cc, sc - t, delta);
        let x = fclamp(rdiv(cc * (sc - t), sc));
        assert(abs_i(x - delta) <= 11);
        // both gaps to the maximum are tiny here
        assert(sc * (num - delta) <= 3 * delta) by (nonlinear_arith)
            requires
                2 * abs_i(delta * (6 * q) - num * sc) <= 6 * delta,
                6 * q <= sc - 1,
                delta >= 1,
        ;
        assert(sc * (num - delta) <= sc * 3);
        lemma_div_le(sc, num - delta, 3);
        assert((b - mn) + (g - r) <= 3);
        assert(g - r >= 0 && b - mn >= 0);
        assert(back.red.micros as int == fclamp(cc + m));
        assert(back.green.micros as int == fclamp(x + m));
        assert(back.blue.micros as int == fclamp(0 + m));
        assert(abs_i(back.red.micros - r) <= 6);
        assert(abs_i(back.green.micros - g) <= 12);
        assert(abs_i(back.blue.micros - b) <= 4);
    } else if h6 < 2 * sc {
        // second sector: green is the chroma channel, red the falling ramp
        lemma_div_in(1, h6, sc);
        let t = abs_i(h6 - sc);
        assert(t == h6 - sc);
        let w = sc - t;
        assert(w == 2 * sc - 6 * q);
        assert(0 <= w <= sc);
        assert(abs_i(delta * w - (2 * delta - num) * sc) <= 3 * sc) by (nonlinear_arith)
            requires
                abs_i(delta * (6 * q) - num * sc) <= 3 * sc,
                w == 2 * sc - 6 * q,
        ;
        assert(abs_i(cc * w - (2 * delta - num) * sc) <= 10_000_000) by (nonlinear_arith)
            requires
                abs_i(delta * w - (2 * delta - num) * sc) <= 3 * sc,
                abs_i(cc - delta) <= 1,
                0 <= w <= sc,
                sc == 1_000_000,
        ;
        assert(2 * delta - num == r - b + 0) by {
            assert(num == b - r + 2 * delta);
        }
        lemma_x_est(cc, w, r - b);
        let x = fclamp(rdiv(cc * w, sc));
        assert(abs_i(x - (r - b)) <= 11);
        // blue exceeds red by at most rounding here
        assert(sc * (num - 2 * delta) <= 3 * delta) by (nonlinear_arith)
            requires
                2 * abs_i(delta * (6 * q) - num * sc) <= 6 * delta,
                6 * q <= 2 * sc - 1,
                delta >= 1,
        ;
        assert(sc * (num - 2 * delta) <= sc * 3);
        lemma_div_le(sc, num - 2 * delta, 3);
        assert(b - r <= 3);
        assert(mn <= b && mn <= r && b - 3 <= mn);
        assert(back.red.micros as int == fclamp(x + m));
        assert(back.green.micros as int == fclamp(cc + m));
        assert(back.blue.micros as int == fclamp(0 + m));
        assert(abs_i(back.red.micros - r) <= 16);
        assert(abs_i(back.green.micros - g) <= 2);
        assert(abs_i(back.blue.micros - b) <= 4);
    } else if h6 < 3 * sc {
        // third sector: green is the chroma channel, blue the rising ramp
        lemma_div_in(2, h6, sc);
        let t = abs_i(h6 - 2 * sc - sc);
        assert(t == 3 * sc - h6);
        let w = sc - t;
        assert(w == 6 * q - 2 * sc);
        assert(0 <= w <= sc);
        assert(abs_i(delta * w - (num - 2 * delta) * sc) <= 3 * sc) by (nonlinear_arith)
            requires
                abs_i(delta * (6 * q) - num * sc) <= 3 * sc,
                w == 6 * q - 2 * sc,
        ;
        assert(abs_i(cc * w - (num - 2 * delta) * sc) <= 10_000_000) by (nonlinear_arith)
            requires
                abs_i(delta * w - (num - 2 * delta) * sc) <= 3 * sc,
                abs_i(cc - delta) <= 1,
                0 <= w <= sc,
                sc == 1_000_000,
        ;
        assert(num - 2 * delta == b - r);
        lemma_x_est(cc, w, b - r);
        let x = fclamp(rdiv(cc * w, sc));
        assert(abs_i(x - (b - r)) <= 11);
        assert(sc * (2 * delta - num) <= 3 * delta) by (nonlinear_arith)
            requires
                2 * abs_i(delta * (6 * q) - num * sc) <= 6 * delta,
                6 * q >= 2 * sc,
                delta >= 1,
        ;
        assert(sc * (2 * delta - num) <= sc * 3);
        lemma_div_le(sc, 2 * delta - num, 3);
        assert(r - b <= 3);
        assert(mn <= b && mn <= r && r - 3 <= mn);
        assert(back.red.micros as int == fclamp(0 + m));
        assert(back.green.micros as int == fclamp(cc + m));
        assert(back.blue.micros as int == fclamp(x + m));
        assert(abs_i(back.red.micros - r) <= 4);
        assert(abs_i(back.green.micros - g) <= 2);
        assert(abs_i(back.blue.micros - b) <= 16);
    } else {
        // boundary into the fourth sector: blue nearly reaches green
        lemma_div_in(3, h6, sc);
        let t = abs_i(h6 - 2 * sc - sc);
        assert(t == h6 - 3 * sc);
        assert(0 <= t <= 3);
        assert(abs_i(cc * (sc - t) - delta * sc) <= 10_000_000) by (nonlinear_arith)
            requires
                abs_i(cc - delta) <= 1,
                0 <= t <= 3,
                0 <= cc <= sc + 1,
                0 <= delta <= sc,
                sc == 1_000_000,
        ;
        lemma_x_est(cc, sc - t, delta);
        let x = fclamp(rdiv(cc * (sc - t), sc));
        assert(abs_i(x - delta) <= 11);
        assert(sc * (3 * delta - num) <= 3 * delta) by (nonlinear_arith)
            requires
                2 * abs_i(delta * (6 * q) - num * sc) <= 6 * delta,
                6 * q >= 3 * sc,
                delta >= 1,
        ;
        assert(sc * (3 * delta - num) <= sc * 3);
        lemma_div_le(sc, 3 * delta - num, 3);
        assert(b - r >= delta - 3);
        assert(mn <= r && mn <= b && b - mn <= delta && b >= mn + delta - 3);
        assert(r - 3 <= mn) by {
            if b < r {
                assert(mn == b);
                assert(b >= r + delta - 3);
            }
        }
        assert(back.red.micros as int == fclamp(0 + m));
        assert(back.green.micros as int == fclamp(x + m));
        assert(back.blue.micros as int == fclamp(cc + m));
        assert(abs_i(back.red.micros - r) <= 4);
        assert(abs_i(back.green.micros - g) <= 12);
        assert(abs_i(back.blue.micros - b) <= 6);
    }
}

/// The conversion cycle keeps every channel within fifty millionths when
/// the blue channel is strictly the largest.
proof fn lemma_cycle_blue(c: RgbFloatColor)
    requires
        0 <= c.red.micros,
        0 <= c.green.micros,
        c.red.micros < c.blue.micros,
        c.green.micros < c.blue.micros,
        c.blue.micros <= SCALE,
    ensures
        ({
            let back = spec_hsv_to_rgb(spec_rgb_to_hsv(c));
            &&& abs_i(back.red.micros - c.red.micros) <= 50
            &&& abs_i(back.green.micros - c.green.micros) <= 50
            &&& abs_i(back.blue.micros - c.blue.micros) <= 50
        }),
{
    let sc = SCALE as int;
    let r = c.red.micros as int;
    let g = c.green.micros as int;
    let b = c.blue.micros as int;
    let mn = min_i(r, min_i(g, b));
    let delta = b - mn;
    let hsv = spec_rgb_to_hsv(c);
    let back = spec_hsv_to_rgb(hsv);
    assert(max_i(r, max_i(g, b)) == b);
    assert(max_i(r, max_i(g, b)) != r);
    assert(max_i(r, max_i(g, b)) != g);
    assert(mn == min_i(r, g));
    assert(1 <= delta <= b);
    lemma_chroma(b, delta);
    let s = fclamp(rdiv(delta * sc, b));
    assert(hsv.saturation.micros as int == s);
    assert(hsv.value.micros as int == b);
    let num = r - g + 4 * delta;
    assert(3 * delta <= num <= 5 * delta);
    lemma_hueq(num, delta, 5);
    let q = rdiv(num * sc, 6 * delta);
    assert(hsv.hue.micros as int == q % sc);
    assert(q >= 0);
    assert(6 * q <= 5 * sc + 3);
    let prod = hsv.value.micros as int * hsv.saturation.micros as int;
    assert(prod == b * s);
    let cc = fclamp(rdiv(prod, sc));
    assert(abs_i(cc - delta) <= 1);
    assert(0 <= cc <= sc + 1);
    let m = fclamp(hsv.value.micros as int - cc);
    assert(m == b - cc);
    assert(abs_i(m - mn) <= 1);
    assert((6 * delta) * q == delta * (6 * q)) by (nonlinear_arith);
    assert(2 * abs_i(delta * (6 * q) - num * sc) <= 6 * delta);
    assert(abs_i(delta * (6 * q) - num * sc) <= 3 * sc);
    // the hue is at least half a turn, less rounding
    assert(delta * (3 * sc - 3) <= delta * (6 * q)) by (nonlinear_arith)
        requires
            2 * abs_i(delta * (6 * q) - num * sc) <= 6 * delta,
            delta * (3 * sc) <= num * sc,
            delta >= 1,
    ;
    assert(delta * (3 * sc) <= num * sc) by (nonlinear_arith)
        requires
            3 * delta <= num,
            sc > 0,
    ;
    lemma_div_le(delta, 3 * sc - 3, 6 * q);
    assert(6 * q >= 3 * sc - 3);
    assert(q < sc);
    vstd::arithmetic::div_mod::lemma_small_mod(q as nat, sc as nat);
    assert(hsv.hue.micros as int == q);
    let h6 = hsv.hue.micros as int * 6;
    assert(h6 == 6 * q);
    assert(3 * sc - 3 <= h6 <= 5 * sc + 3);
    vstd::arithmetic::div_mod::lemma_small_mod(h6 as nat, (6 * sc) as nat);
    let hm = h6 % (6 * sc);
    assert(hm == h6);
    if h6 < 4 * sc {
        vstd::arithmetic::div_mod::lemma_mod_multiples_vanish(1, h6 - 2 * sc, 2 * sc);
        vstd::arithmetic::div_mod::lemma_small_mod((h6 - 2 * sc) as nat, (2 * sc) as nat);
        assert(hm % (2 * sc) == h6 - 2 * sc);
    } else {
        vstd::arithmetic::div_mod::lemma_mod_multiples_vanish(2, h6 - 4 * sc, 2 * sc);
        vstd::arithmetic::div_mod::lemma_small_mod((h6 - 4 * sc) as nat, (2 * sc) as nat);
        assert(hm % (2 * sc) == h6 - 4 * sc);
    }
    if h6 < 3 * sc {
        // boundary below the fourth sector: green nearly reaches blue
        lemma_div_in(2, h6, sc);
        let t = abs_i(h6 - 2 * sc - sc);
        assert(t == 3 * sc - h6);
        assert(0 <= t <= 3);
        assert(abs_i(cc * (sc - t) - delta * sc) <= 10_000_000) by (nonlinear_arith)
            requires
                abs_i(cc - delta) <= 1,
                0 <= t <= 3,
                0 <= cc <= sc + 1,
                0 <= delta <= sc,
                sc == 1_000_000,
        ;
        lemma_x_est(cc, sc - t, delta);
        let x = fclamp(rdiv(cc * (sc - t), sc));
        assert(abs_i(x - delta) <= 11);
        assert(sc * (num - 3 * delta) <= 3 * delta) by (nonlinear_arith)
            requires
                2 * abs_i(delta * (6 * q) - num * sc) <= 6 * delta,
                6 * q <= 3 * sc - 1,
                delta >= 1,
        ;
        assert(sc * (num - 3 * delta) <= sc * 3);
        lemma_div_le(sc, num - 3 * delta, 3);
        assert(g - r >= delta - 3);
        assert(mn <= r && mn <= g && g - mn <= delta && g >= mn + delta - 3);
        assert(r - 2 <= mn) by {
            if g < r {
                assert(mn == g);
                assert(g >= r + delta - 3);
            }
        }
        assert(back.red.micros as int == fclamp(0 + m));
        assert(back.green.micros as int == fclamp(cc + m));
        assert(back.blue.micros as int == fclamp(x + m));
        assert(abs_i(back.red.micros - r) <= 3);
        assert(abs_i(back.green.micros - g) <= 5);
        assert(abs_i(back.blue.micros - b) <= 12);
    } else if h6 < 4 * sc {
        // fourth sector: blue is the chroma channel, green the falling ramp
        lemma_div_in(3, h6, sc);
        let t = abs_i(h6 - 2 * sc - sc);
        assert(t == h6 - 3 * sc);
        let w = sc - t;
        assert(w == 4 * sc - 6 * q);
        assert(0 <= w <= sc);
        assert(abs_i(delta * w - (4 * delta - num) * sc) <= 3 * sc) by (nonlinear_arith)
            requires
                abs_i(delta * (6 * q) - num * sc) <= 3 * sc,
                w == 4 * sc - 6 * q,
        ;
        assert(abs_i(cc * w - (4 * delta - num) * sc) <= 10_000_000) by (nonlinear_arith)
            requires
                abs_i(delta * w - (4 * delta - num) * sc) <= 3 * sc,
                abs_i(cc - delta) <= 1,
                0 <= w <= sc,
                sc == 1_000_000,
        ;
        assert(4 * delta - num == g - r);
        lemma_x_est(cc, w, g - r);
        let x = fclamp(rdiv(cc * w, sc));
        assert(abs_i(x - (g - r)) <= 11);
        assert(sc * (num - 4 * delta) <= 3 * delta) by (nonlinear_arith)
            requires
                2 * abs_i(delta * (6 * q) - num * sc) <= 6 * delta,
                6 * q <= 4 * sc - 1,
                delta >= 1,
        ;
        assert(sc * (num - 4 * delta) <= sc * 3);
        lemma_div_le(sc, num - 4 * delta, 3);
        assert(r - g <= 3);
        assert(mn <= r && mn <= g && r - 3 <= mn);
        assert(back.red.micros as int == fclamp(0 + m));
        assert(back.green.micros as int == fclamp(x + m));
        assert(back.blue.micros as int == fclamp(cc + m));
        assert(abs_i(back.red.micros - r) <= 4);
        assert(abs_i(back.green.micros - g) <= 16);
        assert(abs_i(back.blue.micros - b) <= 2);
    } else if h6 < 5 * sc {
        // fifth sector: blue is the chroma channel, red the rising ramp
        lemma_div_in(4, h6, sc);
        let t = abs_i(h6 - 4 * sc - sc);
        assert(t == 5 * sc - h6);
        let w = sc - t;
        assert(w == 6 * q - 4 * sc);
        assert(0 <= w <= sc);
        assert(abs_i(delta * w - (num - 4 * delta) * sc) <= 3 * sc) by (nonlinear_arith)
            requires
                abs_i(delta * (6 * q) - num * sc) <= 3 * sc,
                w == 6 * q - 4 * sc,
        ;
        assert(abs_i(cc * w - (num - 4 * delta) * sc) <= 10_000_000) by (nonlinear_arith)
            requires
                abs_i(delta * w - (num - 4 * delta) * sc) <= 3 * sc,
                abs_i(cc - delta) <= 1,
                0 <= w <= sc,
                sc == 1_000_000,
        ;
        assert(num - 4 * delta == r - g);
        lemma_x_est(cc, w, r - g);
        let x = fclamp(rdiv(cc * w, sc));
        assert(abs_i(x - (r - g)) <= 11);
        assert(sc * (4 * delta - num) <= 3 * delta) by (nonlinear_arith)
            requires
                2 * abs_i(delta * (6 * q) - num * sc) <= 6 * delta,
                6 * q >= 4 * sc,
                delta >= 1,
        ;
        assert(sc * (4 * delta - num) <= sc * 3);
        lemma_div_le(sc, 4 * delta - num, 3);
        assert(g - r <= 3);
        assert(mn <= r && mn <= g && g - 3 <= mn);
        assert(back.red.micros as int == fclamp(x + m));
        assert(back.green.micros as int == fclamp(0 + m));
        assert(back.blue.micros as int == fclamp(cc + m));
        assert(abs_i(back.red.micros - r) <= 16);
        assert(abs_i(back.green.micros - g) <= 4);
        assert(abs_i(back.blue.micros - b) <= 2);
    } else {
        // boundary into the sixth sector: red nearly reaches blue
        lemma_div_in(5, h6, sc);
        let t = abs_i(h6 - 4 * sc - sc);
        assert(t == h6 - 5 * sc);
        assert(0 <= t <= 3);
        assert(abs_i(cc * (sc - t) - delta * sc) <= 10_000_000) by (nonlinear_arith)
            requires
                abs_i(cc - delta) <= 1,
                0 <= t <= 3,
                0 <= cc <= sc + 1,
                0 <= delta <= sc,
                sc == 1_000_000,
        ;
        lemma_x_est(cc, sc - t, delta);
        let x = fclamp(rdiv(cc * (sc - t), sc));
        assert(abs_i(x - delta) <= 11);
        assert(sc * (5 * delta - num) <= 3 * delta) by (nonlinear_arith)
            requires
                2 * abs_i(delta * (6 * q) - num * sc) <= 6 * delta,
                6 * q >= 5 * sc,
                delta >= 1,
        ;
        assert(sc * (5 * delta - num) <= sc * 3);
        lemma_div_le(sc, 5 * delta - num, 3);
        assert(r - g >= delta - 3);
        assert(mn <= r && mn <= g && r - mn <= delta && r >= mn + delta - 3);
        assert(g - 2 <= mn) by {
            if r < g {
                assert(mn == r);
                assert(r >= g + delta - 3);
            }
        }
        assert(back.red.micros as int == fclamp(cc + m));
        assert(back.green.micros as int == fclamp(0 + m));
        assert(back.blue.micros as int == fclamp(x + m));
        assert(abs_i(back.red.micros - r) <= 5);
        assert(abs_i(back.green.micros - g) <= 3);
        assert(abs_i(back.blue.micros - b) <= 12);
    }
}

/// Round-trip of the colorspace conversions: an integer RGB color taken to
/// fractional HSV and back returns unchanged, for every input — the
/// fixed-point rounding never moves a channel by even one unit.
pub proof fn lemma_rgb_hsv_round_trip(c: RgbIntColor)
    ensures
        spec_rgb_down(spec_hsv_to_rgb(spec_rgb_to_hsv(spec_rgb_up(c)))) == c,
{
    let sc = SCALE as int;
    crate::fixed::lemma_scale_round(c.red as int, 255);
    crate::fixed::lemma_scale_round(c.green as int, 255);
    crate::fixed::lemma_scale_round(c.blue as int, 255);
    let up = spec_rgb_up(c);
    let rr = rdiv(c.red as int * sc, 255);
    let gg = rdiv(c.green as int * sc, 255);
    let bb = rdiv(c.blue as int * sc, 255);
    assert(up.red.micros as int == rr);
    assert(up.green.micros as int == gg);
    assert(up.blue.micros as int == bb);
    let back = spec_hsv_to_rgb(spec_rgb_to_hsv(up));
    if gg <= rr && bb <= rr {
        lemma_cycle_red(up);
    } else if rr < gg && bb <= gg {
        lemma_cycle_green(up);
    } else {
        assert(rr < bb && gg < bb);
        lemma_cycle_blue(up);
    }
    assert(abs_i(back.red.micros - rr) <= 50);
    assert(abs_i(back.green.micros - gg) <= 50);
    assert(abs_i(back.blue.micros - bb) <= 50);
    lemma_channel_return(c.red as int, back.red.micros as int);
    lemma_channel_return(c.green as int, back.green.micros as int);
    lemma_channel_return(c.blue as int, back.blue.micros as int);
    let down = spec_rgb_down(back);
    assert(down.red == c.red);
    assert(down.green == c.green);
    assert(down.blue == c.blue);
}

/// Euclidean remainder of `a` modulo `m`, on machine integers.
fn emod_i128(a: i128, m: i64) -> (r: i64)
    requires
        0 < m,
        -0x1000_0000_0000_0000_0000_0000_0000 <= a <= 0x1000_0000_0000_0000_0000_0000_0000,
    ensures
        r as int == (a as int) % (m as int),
        0 <= r < m,
{
    if a >= 0 {
        let r = ((a as u128) % (m as u128)) as i64;
        r
    } else {
        let mm = (((-a) as u128) % (m as u128)) as i64;
        proof {
            let b = -(a as int);
            let mi = m as int;
            vstd::arithmetic::div_mod::lemma_mod_multiples_vanish(b / mi + 1, a as int, mi);
            vstd::arithmetic::div_mod::lemma_fundamental_div_mod(b, mi);
            assert(mi * (b / mi + 1) + a == mi - b % mi) by (nonlinear_arith)
                requires
                    b == mi * (b / mi) + b % mi,
                    a as int == -b,
            ;
            if mm == 0 {
                assert((mi - b % mi) % mi == 0) by {
                    vstd::arithmetic::div_mod::lemma_mod_self_0(mi);
                }
            } else {
                vstd::arithmetic::div_mod::lemma_small_mod((mi - b % mi) as nat, mi as nat);
            }
        }
        if mm == 0 {
            0
        } else {
            m - mm
        }
    }
}

impl RgbIntColor {
    /// Rescales the integer channels into fractions of full scale.
    pub fn to_float(&self) -> (r: RgbFloatColor)
        ensures
            r == spec_rgb_up(*self),
            r.wf(),
    {
        RgbFloatColor {
            red: Fixed::from_ratio(self.red as i64, 255),
            green: Fixed::from_ratio(self.green as i64, 255),
            blue: Fixed::from_ratio(self.blue as i64, 255),
        }
    }

    /// Converts to fractional HSV, by way of fractional RGB.
    pub fn to_hsv_float(&self) -> (r: HsvFloatColor)
        ensures
            r == spec_rgb_to_hsv(spec_rgb_up(*self)),
            r.wf(),
    {
        self.to_float().to_hsv()
    }
}

impl RgbFloatColor {
    /// Rescales the fractional channels to integers in 0..=255, rounding
    /// to the nearest and saturating at the channel range.
    pub fn to_int(&self) -> (r: RgbIntColor)
        requires
            self.wf(),
        ensures
            r == spec_rgb_down(*self),
    {
        RgbIntColor {
            red: channel_to_byte(self.red),
            green: channel_to_byte(self.green),
            blue: channel_to_byte(self.blue),
        }
    }

    /// Converts to fractional HSV: the authoritative RGB-to-HSV formula.
    pub fn to_hsv(&self) -> (r: HsvFloatColor)
        requires
            self.wf(),
        ensures
            r == spec_rgb_to_hsv(*self),
            r.wf(),
    {
        let r = self.red.micros;
        let g = self.green.micros;
        let b = self.blue.micros;
        let cmax = if r >= g && r >= b {
            r
        } else if g >= b {
            g
        } else {
            b
        };
        let cmin = if r <= g && r <= b {
            r
        } else if g <= b {
            g
        } else {
            b
        };
        proof {
            assert(cmax == max_i(r as int, max_i(g as int, b as int)));
            assert(cmin == min_i(r as int, min_i(g as int, b as int)));
        }
        let delta = cmax - cmin;
        proof {
            crate::fixed::lemma_mul_bound(
                delta as int,
                SCALE as int,
                2 * (FIXED_MAX as int),
                1_000_000,
            );
            crate::fixed::lemma_mul_bound(
                g as int - b as int,
                SCALE as int,
                2 * (FIXED_MAX as int),
                1_000_000,
            );
            crate::fixed::lemma_mul_bound(
                b as int - r as int + 2 * delta as int,
                SCALE as int,
                6 * (FIXED_MAX as int),
                1_000_000,
            );
            crate::fixed::lemma_mul_bound(
                r as int - g as int + 4 * delta as int,
                SCALE as int,
                10 * (FIXED_MAX as int),
                1_000_000,
            );
        }
        let s: i64 = if cmax == 0 {
            0
        } else {
            crate::fixed::clamp_wide(crate::fixed::rdiv_wide(
                delta as i128 * SCALE as i128,
                cmax as i128,
            ))
        };
        let hue: i64 = if delta == 0 {
            0
        } else if cmax == r {
            emod_i128(
                crate::fixed::rdiv_wide((g as i128 - b as i128) * SCALE as i128, 6 * delta as i128),
                SCALE,
            )
        } else if cmax == g {
            emod_i128(
                crate::fixed::rdiv_wide(
                    (b as i128 - r as i128 + 2 * delta as i128) * SCALE as i128,
                    6 * delta as i128,
                ),
                SCALE,
            )
        } else {
            emod_i128(
                crate::fixed::rdiv_wide(
                    (r as i128 - g as i128 + 4 * delta as i128) * SCALE as i128,
                    6 * delta as i128,
                ),
                SCALE,
            )
        };
        HsvFloatColor {
            hue: Fixed { micros: hue },
            saturation: Fixed { micros: s },
            value: Fixed { micros: cmax },
        }
    }
}

impl HsvIntColor {
    /// Rescales the integer channels into fractions of full scale; a hue
    /// of 360 degrees becomes exactly one full turn.
    pub fn to_float(&self) -> (r: HsvFloatColor)
        ensures
            r == spec_hsv_up(*self),
            r.wf(),
    {
        HsvFloatColor {
            hue: Fixed::from_ratio(self.hue as i64, 360),
            saturation: Fixed::from_ratio(self.saturation as i64, 255),
            value: Fixed::from_ratio(self.value as i64, 255),
        }
    }

    /// Converts to integer RGB, by way of fractional HSV and RGB.
    pub fn to_rgb_int(&self) -> (r: RgbIntColor)
        ensures
            r == spec_rgb_down(spec_hsv_to_rgb(spec_hsv_up(*self))),
    {
        self.to_float().to_rgb().to_int()
    }
}

impl HsvFloatColor {
    /// Rescales the fractional channels to the integer HSV ranges: degrees
    /// for the hue, 0..=255 for saturation and value.
    pub fn to_int(&self) -> (r: HsvIntColor)
        requires
            self.wf(),
        ensures
            r == spec_hsv_down(*self),
    {
        let hq = self.hue.scale_int(360);
        let hue: u16 = if hq < 0 {
            0
        } else if hq > 0xffff {
            0xffff
        } else {
            hq as u16
        };
        HsvIntColor {
            hue,
            saturation: channel_to_byte(self.saturation),
            value: channel_to_byte(self.value),
        }
    }

    /// Converts to fractional RGB: the authoritative HSV-to-RGB formula.
    pub fn to_rgb(&self) -> (r: RgbFloatColor)
        requires
            self.wf(),
        ensures
            r == spec_hsv_to_rgb(*self),
            r.wf(),
    {
        let h6: i64 = self.hue.micros * 6;
        let hm: i64 = emod_i128(h6 as i128, 6 * SCALE);
        let sector: u64 = (hm as u64) / (SCALE as u64);
        let d: i64 = ((hm as u64) % (2 * SCALE as u64)) as i64 - SCALE;
        let t: i64 = if d < 0 {
            -d
        } else {
            d
        };
        proof {
            assert(t as int == abs_i(hm as int % (2 * (SCALE as int)) - (SCALE as int)));
        }
        proof {
            crate::fixed::lemma_mul_bound(
                self.value.micros as int,
                self.saturation.micros as int,
                FIXED_MAX as int,
                FIXED_MAX as int,
            );
        }
        let cc: i64 = crate::fixed::clamp_wide(crate::fixed::rdiv_wide(
            self.value.micros as i128 * self.saturation.micros as i128,
            SCALE as i128,
        ));
        proof {
            crate::fixed::lemma_mul_bound(
                cc as int,
                (SCALE as int) - t as int,
                FIXED_MAX as int,
                1_000_000,
            );
        }
        let x: i64 = crate::fixed::clamp_wide(crate::fixed::rdiv_wide(
            cc as i128 * (SCALE as i128 - t as i128),
            SCALE as i128,
        ));
        let m: i64 = crate::fixed::clamp_wide(self.value.micros as i128 - cc as i128);
        let (cr, cg, cb): (i64, i64, i64) = if sector == 0 {
            (cc, x, 0)
        } else if sector == 1 {
            (x, cc, 0)
        } else if sector == 2 {
            (0, cc, x)
        } else if sector == 3 {
            (0, x, cc)
        } else if sector == 4 {
            (x, 0, cc)
        } else {
            (cc, 0, x)
        };
        proof {
            assert(sector as int == (hm as int) / (SCALE as int));
            assert(0 <= (hm as int) / (SCALE as int) < 6) by {
                assert(0 <= hm < 6 * SCALE);
            }
        }
        RgbFloatColor {
            red: Fixed { micros: crate::fixed::clamp_wide(cr as i128 + m as i128) },
            green: Fixed { micros: crate::fixed::clamp_wide(cg as i128 + m as i128) },
            blue: Fixed { micros: crate::fixed::clamp_wide(cb as i128 + m as i128) },
        }
    }

    /// Converts to integer RGB, by way of fractional RGB.
    pub fn to_rgb_int(&self) -> (r: RgbIntColor)
        requires
            self.wf(),
        ensures
            r == spec_rgb_down(spec_hsv_to_rgb(*self)),
    {
        self.to_rgb().to_int()
    }
}

impl Color {
    /// Reduces any variant to integer RGB — the canonical form a display
    /// layer works with.
    pub fn to_rgb_int(&self) -> (r: RgbIntColor)
        requires
            self.wf(),
        ensures
            r == spec_to_rgb_int(*self),
    {
        match self {
            Color::RgbInt(x) => *x,
            Color::RgbFloat(x) => x.to_int(),
            Color::HsvInt(x) => x.to_rgb_int(),
            Color::HsvFloat(x) => x.to_rgb_int(),
        }
    }
}

/// One fractional channel rescaled to 0..=255.
fn channel_to_byte(c: Fixed) -> (r: u8)
    requires
        c.wf(),
    ensures
        r as int == channel_down(c.micros as int, 255),
{
    let q = c.scale_int(255);
    if q < 0 {
        0
    } else if q > 255 {
        255
    } else {
        q as u8
    }
}

} // verus!

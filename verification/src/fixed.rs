//! Fixed-point decimal numbers with six decimal places.
//!
//! A [`Fixed`] stores a signed number as a count of millionths, so `0.5` is
//! `Fixed { micros: 500_000 }`. The representable range is clamped to
//! [`FIXED_MAX`] millionths in magnitude; every arithmetic helper saturates
//! at that range instead of failing, mirroring how a floating-point channel
//! would degrade rather than crash on out-of-range data. All rounding is
//! round-half-away-from-zero, stated exactly by [`rdiv`].

use vstd::prelude::*;
use vstd::string::*;
use crate::numeric::{
    all_digits, digits_val, is_digit, is_int_literal, pow10, uint_digits, uint_digits_pad,
    format_uint, format_uint_pad, push_char, lemma_digits_val_nonneg, lemma_digits_val_upper,
    lemma_pow10_pos, lemma_uint_digits_val, lemma_uint_digits_pad_val,
};

verus! {

/// Millionths per unit: the fixed-point scale.
pub const SCALE: i64 = 1_000_000;

/// Largest magnitude, in millionths, a `Fixed` can hold (one billion units).
pub const FIXED_MAX: i64 = 1_000_000_000_000_000;

/// Magnitude of an integer.
pub open spec fn abs_i(a: int) -> int {
    if a < 0 {
        -a
    } else {
        a
    }
}

/// Quotient of `a / b`, rounded half away from zero.
pub open spec fn rdiv(a: int, b: int) -> int
    recommends
        b != 0,
{
    let q = (2 * abs_i(a) + abs_i(b)) / (2 * abs_i(b));
    if (a < 0) == (b < 0) {
        q
    } else {
        -q
    }
}

/// Saturates a value at the representable fixed-point range.
pub open spec fn fclamp(x: int) -> int {
    if x > FIXED_MAX as int {
        FIXED_MAX as int
    } else if x < -(FIXED_MAX as int) {
        -(FIXED_MAX as int)
    } else {
        x
    }
}

/// A product is bounded by the product of the factors' bounds.
pub(crate) proof fn lemma_mul_bound(a: int, b: int, ma: int, mb: int)
    requires
        -ma <= a <= ma,
        -mb <= b <= mb,
        0 <= ma,
        0 <= mb,
    ensures
        -(ma * mb) <= a * b <= ma * mb,
{
    assert(-(ma * mb) <= a * b <= ma * mb) by (nonlinear_arith)
        requires
            -ma <= a <= ma,
            -mb <= b <= mb,
            0 <= ma,
            0 <= mb,
    ;
}

/// A value within half a divisor of a multiple rounds to that multiple.
pub proof fn lemma_rdiv_near(a: int, n: int, b: int)
    requires
        b > 0,
        2 * abs_i(a - n * b) < b,
    ensures
        rdiv(a, b) == n,
{
    let e = a - n * b;
    if n == 0 {
        let q = (2 * abs_i(a) + b) / (2 * b);
        assert(q == 0) by (nonlinear_arith)
            requires
                b > 0,
                2 * abs_i(a) < b,
                abs_i(a) >= 0,
                q == (2 * abs_i(a) + b) / (2 * b),
        ;
    } else if n > 0 {
        assert(2 * a == 2 * (n * b) + 2 * e);
        assert(a > 0) by (nonlinear_arith)
            requires
                n >= 1,
                b > 0,
                2 * e > -b,
                a == n * b + e,
        ;
        assert((2 * a + b) / (2 * b) == n) by (nonlinear_arith)
            requires
                b > 0,
                a == n * b + e,
                0 < 2 * e + b < 2 * b,
        ;
    } else {
        let aa = -a;
        assert(a < 0) by (nonlinear_arith)
            requires
                n <= -1,
                b > 0,
                2 * e < b,
                a == n * b + e,
        ;
        assert(aa + e + n * b == 0);
        assert((2 * aa + b) / (2 * b) == -n) by (nonlinear_arith)
            requires
                b > 0,
                n <= -1,
                aa + e + n * b == 0,
                0 < b - 2 * e,
                b - 2 * e < 2 * b,
        ;
    }
}

/// Rounding division lands within half a divisor of the dividend.
pub proof fn lemma_rdiv_err(a: int, b: int)
    requires
        b > 0,
    ensures
        2 * abs_i(b * rdiv(a, b) - a) <= b,
{
    let aa = abs_i(a);
    let q0 = (2 * aa + b) / (2 * b);
    assert(2 * (b * q0) <= 2 * aa + b && 2 * aa + b < 2 * (b * q0) + 2 * b) by (nonlinear_arith)
        requires
            b > 0,
            aa >= 0,
            q0 == (2 * aa + b) / (2 * b),
    ;
    assert(2 * abs_i(b * q0 - aa) <= b);
    if a >= 0 {
        assert(rdiv(a, b) == q0);
        assert(b * q0 - a == b * q0 - aa);
    } else {
        assert(rdiv(a, b) == -q0);
        assert(b * (-q0) - a == -(b * q0 - aa)) by (nonlinear_arith)
            requires
                aa == -a,
        ;
    }
}

/// Scaling an integer channel up to millionths and back is exact.
pub proof fn lemma_scale_round(n: int, max: int)
    requires
        0 <= n <= max,
        0 < max,
        2 * max < SCALE as int,
    ensures
        0 <= rdiv(n * SCALE, max) <= SCALE as int,
        rdiv(rdiv(n * SCALE, max) * max, SCALE as int) == n,
{
    let r = rdiv(n * SCALE, max);
    lemma_rdiv_err(n * SCALE, max);
    assert(2 * abs_i(r * max - n * SCALE) <= max) by {
        assert(max * r == r * max) by (nonlinear_arith);
        assert(2 * abs_i(max * r - n * (SCALE as int)) <= max);
    }
    lemma_rdiv_near(r * max, n, SCALE as int);
    assert(r >= 0) by (nonlinear_arith)
        requires
            2 * abs_i(r * max - n * SCALE) <= max,
            0 <= n,
            max > 0,
            SCALE as int > 0,
    ;
    assert(r <= SCALE as int) by (nonlinear_arith)
        requires
            2 * abs_i(r * max - n * SCALE) <= max,
            n <= max,
            max > 0,
            2 * max < SCALE as int,
    ;
}

/// Quotient of `a / b` rounded half away from zero, on machine integers.
pub(crate) fn rdiv_wide(a: i128, b: i128) -> (q: i128)
    requires
        b != 0,
        -0x1000_0000_0000_0000_0000_0000_0000 <= a <= 0x1000_0000_0000_0000_0000_0000_0000,
        -0x1000_0000_0000_0000_0000_0000_0000 <= b <= 0x1000_0000_0000_0000_0000_0000_0000,
    ensures
        q == rdiv(a as int, b as int),
        abs_i(q as int) <= abs_i(a as int) / abs_i(b as int) + 1,
{
    let au: u128 = if a < 0 {
        (-a) as u128
    } else {
        a as u128
    };
    let bu: u128 = if b < 0 {
        (-b) as u128
    } else {
        b as u128
    };
    let qu: u128 = (2 * au + bu) / (2 * bu);
    proof {
        assert(qu <= au / bu + 1) by (nonlinear_arith)
            requires
                bu > 0,
                qu == (2 * au + bu) / (2 * bu),
        ;
    }
    let q = qu as i128;
    if (a < 0) != (b < 0) {
        -q
    } else {
        q
    }
}

/// Saturates a wide intermediate value back into the fixed-point range.
pub(crate) fn clamp_wide(x: i128) -> (r: i64)
    ensures
        r as int == fclamp(x as int),
{
    if x > FIXED_MAX as i128 {
        FIXED_MAX
    } else if x < -(FIXED_MAX as i128) {
        -FIXED_MAX
    } else {
        x as i64
    }
}

/// The literal starts with a minus sign.
pub open spec fn fixed_neg(s: Seq<char>) -> bool {
    s.len() > 0 && s[0] == '-'
}

/// The literal with any leading minus sign removed.
pub open spec fn fixed_body(s: Seq<char>) -> Seq<char> {
    if fixed_neg(s) {
        s.skip(1)
    } else {
        s
    }
}

/// Index of the first decimal point, or `-1` if there is none.
pub open spec fn dot_pos(s: Seq<char>) -> int
    decreases s.len(),
{
    if s.len() == 0 {
        -1
    } else if s[0] == '.' {
        0
    } else if dot_pos(s.skip(1)) < 0 {
        -1
    } else {
        dot_pos(s.skip(1)) + 1
    }
}

/// An unsigned fixed-point literal: digits, optionally followed by a
/// decimal point and at least one more digit.
pub open spec fn body_ok(b: Seq<char>) -> bool {
    if dot_pos(b) < 0 {
        is_int_literal(b)
    } else {
        is_int_literal(b.take(dot_pos(b))) && is_int_literal(b.skip(dot_pos(b) + 1))
    }
}

/// A fixed-point literal: an optional minus sign before an unsigned literal.
pub open spec fn is_fixed_literal(s: Seq<char>) -> bool {
    body_ok(fixed_body(s))
}

/// Millionths denoted by a fraction digit string; digits beyond the sixth
/// are truncated.
pub open spec fn frac_micros(f: Seq<char>) -> int {
    if f.len() >= 6 {
        digits_val(f.take(6))
    } else {
        digits_val(f) * pow10((6 - f.len()) as nat)
    }
}

/// Millionths denoted by an unsigned fixed-point literal.
pub open spec fn fixed_mag(b: Seq<char>) -> int {
    if dot_pos(b) < 0 {
        digits_val(b) * (SCALE as int)
    } else {
        digits_val(b.take(dot_pos(b))) * (SCALE as int) + frac_micros(b.skip(dot_pos(b) + 1))
    }
}

/// Millionths denoted by a fixed-point literal, sign included.
pub open spec fn fixed_val(s: Seq<char>) -> int {
    if fixed_neg(s) {
        -fixed_mag(fixed_body(s))
    } else {
        fixed_mag(fixed_body(s))
    }
}

/// Canonical text of a count of millionths: sign, integer part, decimal
/// point, six fraction digits.
pub open spec fn fixed_text(m: int) -> Seq<char> {
    let sign: Seq<char> = if m < 0 {
        seq!['-']
    } else {
        Seq::empty()
    };
    sign + uint_digits((abs_i(m) / (SCALE as int)) as nat) + seq!['.'] + uint_digits_pad(
        (abs_i(m) % (SCALE as int)) as nat,
        6,
    )
}

/// A found decimal point is in range, is a point, and is the first one.
pub proof fn lemma_dot_pos_found(s: Seq<char>)
    requires
        dot_pos(s) >= 0,
    ensures
        0 <= dot_pos(s) < s.len(),
        s[dot_pos(s)] == '.',
        forall|j: int| 0 <= j < dot_pos(s) ==> s[j] != '.',
    decreases s.len(),
{
    if s.len() == 0 {
    } else if s[0] == '.' {
    } else {
        lemma_dot_pos_found(s.skip(1));
        assert forall|j: int| 0 <= j < dot_pos(s) implies s[j] != '.' by {
            if j > 0 {
                assert(s.skip(1)[j - 1] == s[j]);
            }
        }
    }
}

/// The first decimal point of digits, then a point, then anything, is
/// right after the digits.
pub proof fn lemma_dot_pos_concat(a: Seq<char>, b: Seq<char>)
    requires
        forall|j: int| 0 <= j < a.len() ==> is_digit(#[trigger] a[j]),
    ensures
        dot_pos(a + seq!['.'] + b) == a.len(),
    decreases a.len(),
{
    let t = a + seq!['.'] + b;
    if a.len() == 0 {
        assert(t[0] == '.');
    } else {
        assert(is_digit(t[0]));
        assert(t[0] != '.');
        lemma_dot_pos_concat(a.skip(1), b);
        assert(t.skip(1) =~= a.skip(1) + seq!['.'] + b);
    }
}

/// A body that stops being digits at `q` (other than at a first decimal
/// point) is no fixed-point literal.
proof fn lemma_unparseable_body(b: Seq<char>, q: int)
    requires
        0 <= q <= b.len(),
        q == 0 || q < b.len(),
        forall|k: int| 0 <= k < q ==> is_digit(#[trigger] b[k]),
        q < b.len() ==> !is_digit(b[q]),
        0 < q < b.len() ==> b[q] != '.',
    ensures
        !body_ok(b),
{
    if b.len() == 0 {
        return ;
    }
    let d = dot_pos(b);
    if d < 0 {
        assert(!is_digit(b[q]));
    } else {
        lemma_dot_pos_found(b);
        if d < q {
            assert(is_digit(b[d]));
            assert(false);
        } else if d == q {
            if q > 0 {
                assert(false);
            } else {
                assert(b.take(0).len() == 0);
            }
        } else {
            assert(b.take(d)[q] == b[q]);
        }
    }
}

/// An integer part of more than a billion saturates the magnitude.
proof fn lemma_mag_over(dv: int, fm: int)
    requires
        dv > 1_000_000_000,
        0 <= fm,
    ensures
        fclamp(dv * (SCALE as int) + fm) == FIXED_MAX as int,
{
    assert(dv * (SCALE as int) >= 1_000_000_001 * (SCALE as int)) by (nonlinear_arith)
        requires
            dv >= 1_000_000_001,
    ;
}

/// Powers of ten grow with the exponent.
proof fn lemma_pow10_mono(a: nat, b: nat)
    requires
        a <= b,
    ensures
        pow10(a) <= pow10(b),
    decreases b,
{
    if a < b {
        lemma_pow10_mono(a, (b - 1) as nat);
        lemma_pow10_pos((b - 1) as nat);
    }
}

/// Powers of ten multiply by adding exponents.
proof fn lemma_pow10_add(a: nat, b: nat)
    ensures
        pow10(a + b) == pow10(a) * pow10(b),
    decreases a,
{
    if a == 0 {
    } else {
        lemma_pow10_add((a - 1) as nat, b);
        assert((a - 1 + b) as nat == ((a + b) - 1) as nat);
        assert(10 * (pow10((a - 1) as nat) * pow10(b)) == (10 * pow10((a - 1) as nat)) * pow10(b))
            by (nonlinear_arith);
    }
}

/// A fraction digit string denotes fewer than a million millionths.
pub proof fn lemma_frac_micros_bounds(f: Seq<char>)
    requires
        all_digits(f),
    ensures
        0 <= frac_micros(f) < 1_000_000,
{
    reveal_with_fuel(pow10, 8);
    if f.len() >= 6 {
        let t = f.take(6);
        assert(all_digits(t)) by {
            assert(forall|k: int| 0 <= k < 6 ==> #[trigger] t[k] == f[k]);
        }
        lemma_digits_val_upper(t);
        lemma_digits_val_nonneg(t);
    } else {
        lemma_digits_val_upper(f);
        lemma_digits_val_nonneg(f);
        lemma_pow10_pos((6 - f.len()) as nat);
        lemma_pow10_add(f.len(), (6 - f.len()) as nat);
        let v = digits_val(f);
        let pa = pow10(f.len());
        let pb = pow10((6 - f.len()) as nat);
        assert(v * pb <= (pa - 1) * pb) by (nonlinear_arith)
            requires
                v <= pa - 1,
                pb >= 0,
        ;
        assert((pa - 1) * pb == pa * pb - pb) by (nonlinear_arith);
        assert(0 <= v * pb) by (nonlinear_arith)
            requires
                0 <= v,
                0 <= pb,
        ;
    }
}

/// The canonical text of a representable value parses back to that value:
/// it is a fixed-point literal and no integer literal, and it denotes
/// exactly the millionths it was built from.
pub proof fn lemma_fixed_text_parse(m: int)
    requires
        -(FIXED_MAX as int) <= m <= FIXED_MAX as int,
    ensures
        is_fixed_literal(fixed_text(m)),
        fixed_val(fixed_text(m)) == m,
        !is_int_literal(fixed_text(m)),
        fixed_text(m).len() >= 8,
{
    reveal_with_fuel(pow10, 8);
    let t = fixed_text(m);
    let q = (abs_i(m) / (SCALE as int)) as nat;
    let r6 = (abs_i(m) % (SCALE as int)) as nat;
    let ip = uint_digits(q);
    let fp = uint_digits_pad(r6, 6);
    lemma_uint_digits_val(q);
    lemma_uint_digits_pad_val(r6, 6);
    vstd::arithmetic::div_mod::lemma_fundamental_div_mod(abs_i(m), SCALE as int);
    let b = fixed_body(t);
    if m < 0 {
        assert(t[0] == '-');
        assert(fixed_neg(t));
        assert(b =~= ip + seq!['.'] + fp);
    } else {
        assert(t[0] == ip[0]);
        assert(is_digit(t[0]));
        assert(t[0] != '-');
        assert(!fixed_neg(t));
        assert(b =~= ip + seq!['.'] + fp);
    }
    lemma_dot_pos_concat(ip, fp);
    let d = dot_pos(b);
    assert(d == ip.len());
    assert(b.take(d) =~= ip);
    assert(b.skip(d + 1) =~= fp);
    assert(fp.len() == 6);
    assert(frac_micros(fp) == digits_val(fp.take(6)));
    assert(fp.take(6) =~= fp);
    assert(r6 < pow10(6)) by {
        assert(abs_i(m) % (SCALE as int) < SCALE as int);
    }
    assert(digits_val(fp) == r6 % (pow10(6) as nat));
    assert(r6 % (pow10(6) as nat) == r6) by {
        vstd::arithmetic::div_mod::lemma_small_mod(r6, pow10(6) as nat);
    }
    assert(fixed_mag(b) == q * (SCALE as int) + r6);
    assert(q * (SCALE as int) == (SCALE as int) * q) by (nonlinear_arith);
    assert(fixed_mag(b) == abs_i(m));
    assert(fixed_val(t) == m);
    assert(!is_int_literal(t)) by {
        let di: int = if m < 0 {
            1 + ip.len() as int
        } else {
            ip.len() as int
        };
        assert(t[di] == '.');
        assert(!is_digit(t[di]));
    }
    assert(ip.len() >= 1);
}

/// Scans a run of digits from `from`, accumulating their value; a value
/// beyond `cap` is reported as an overflow instead.
fn scan_digits(s: &str, from: usize, cap: u64) -> (r: (usize, u64, bool))
    requires
        from as int <= s@.len(),
        1 <= cap <= 1_000_000_000_000_000_000,
    ensures
        ({
            let (end, v, over) = r;
            &&& from <= end <= s@.len()
            &&& (forall|k: int| from <= k < end ==> is_digit(#[trigger] s@[k]))
            &&& (end < s@.len() ==> !is_digit(s@[end as int]))
            &&& (!over ==> v == digits_val(s@.subrange(from as int, end as int)) && v <= cap)
            &&& (over ==> digits_val(s@.subrange(from as int, end as int)) > cap)
        }),
{
    let n = s.unicode_len();
    let mut i = from;
    let mut v: u64 = 0;
    let mut over = false;
    while i < n
        invariant
            from <= i <= n,
            n == s@.len(),
            1 <= cap <= 1_000_000_000_000_000_000,
            forall|k: int| from <= k < i ==> is_digit(#[trigger] s@[k]),
            !over ==> v == digits_val(s@.subrange(from as int, i as int)) && v <= cap,
            over ==> digits_val(s@.subrange(from as int, i as int)) > cap,
        decreases n - i,
    {
        let c = s.get_char(i) as u32;
        if c < 48 || c > 57 {
            return (i, v, over);
        }
        let d = (c - 48) as u64;
        proof {
            let pre = s@.subrange(from as int, i as int);
            let nxt = s@.subrange(from as int, i + 1);
            assert(nxt.drop_last() =~= pre);
            assert(nxt.last() == s@[i as int]);
            assert(digits_val(nxt) == digits_val(pre) * 10 + d);
            if over {
                assert(all_digits(pre)) by {
                    assert(forall|k: int| 0 <= k < pre.len() ==> #[trigger] pre[k] == s@[k + from]);
                }
                lemma_digits_val_nonneg(pre);
            }
        }
        if !over {
            let t = v * 10 + d;
            if t > cap {
                over = true;
            } else {
                v = t;
            }
        }
        i += 1;
    }
    (n, v, over)
}

/// Scans a run of fraction digits from `from`, yielding the millionths
/// they denote (digits beyond the sixth are truncated).
fn scan_frac(s: &str, from: usize) -> (r: (usize, u64))
    requires
        from as int <= s@.len(),
    ensures
        ({
            let (end, v) = r;
            &&& from <= end <= s@.len()
            &&& (forall|k: int| from <= k < end ==> is_digit(#[trigger] s@[k]))
            &&& (end < s@.len() ==> !is_digit(s@[end as int]))
            &&& v == frac_micros(s@.subrange(from as int, end as int))
            &&& v < 1_000_000
        }),
{
    proof {
        reveal_with_fuel(pow10, 8);
    }
    let n = s.unicode_len();
    let mut i = from;
    let mut v: u64 = 0;
    let mut cnt: usize = 0;
    loop
        invariant_except_break
            from <= i <= n,
            n == s@.len(),
            cnt == i - from,
            forall|k: int| from <= k < i ==> is_digit(#[trigger] s@[k]),
            cnt <= 6 ==> v == digits_val(s@.subrange(from as int, i as int)) && v
                < pow10(cnt as nat),
            cnt > 6 ==> v == digits_val(s@.subrange(from as int, from + 6)) && v < pow10(6),
        ensures
            from <= i <= n,
            n == s@.len(),
            cnt == i - from,
            forall|k: int| from <= k < i ==> is_digit(#[trigger] s@[k]),
            i < n ==> !is_digit(s@[i as int]),
            cnt <= 6 ==> v == digits_val(s@.subrange(from as int, i as int)) && v
                < pow10(cnt as nat),
            cnt > 6 ==> v == digits_val(s@.subrange(from as int, from + 6)) && v < pow10(6),
        decreases n - i,
    {
        if i >= n {
            break ;
        }
        let c = s.get_char(i) as u32;
        if c < 48 || c > 57 {
            proof {
                assert(!is_digit(s@[i as int]));
            }
            break ;
        }
        let d = (c - 48) as u64;
        proof {
            reveal_with_fuel(pow10, 8);
            let pre = s@.subrange(from as int, i as int);
            let nxt = s@.subrange(from as int, i + 1);
            assert(nxt.drop_last() =~= pre);
            assert(nxt.last() == s@[i as int]);
            assert(digits_val(nxt) == digits_val(pre) * 10 + d);
            if cnt < 6 {
                lemma_pow10_mono((cnt + 1) as nat, 6);
            }
            if cnt + 1 > 6 && cnt <= 6 {
                assert(s@.subrange(from as int, i as int) =~= s@.subrange(from as int, from + 6));
            }
        }
        if cnt < 6 {
            v = v * 10 + d;
        }
        cnt += 1;
        i += 1;
    }
    proof {
        reveal_with_fuel(pow10, 8);
    }
    let f = if cnt >= 6 {
        proof {
            let fr = s@.subrange(from as int, i as int);
            assert(fr.take(6) =~= s@.subrange(from as int, from + 6));
        }
        v
    } else {
        let mult: u64 = match cnt {
            0 => 1_000_000,
            1 => 100_000,
            2 => 10_000,
            3 => 1_000,
            4 => 100,
            _ => 10,
        };
        proof {
            assert(mult == pow10((6 - cnt) as nat));
            let fr = s@.subrange(from as int, i as int);
            assert(v * mult == digits_val(fr) * pow10((6 - fr.len()) as nat));
            lemma_pow10_add(cnt as nat, (6 - cnt) as nat);
            assert(v * mult < pow10(cnt as nat) * mult) by (nonlinear_arith)
                requires
                    v < pow10(cnt as nat),
                    mult > 0,
                    v >= 0,
            ;
        }
        v * mult
    };
    (i, f)
}

/// A signed fixed-point number counted in millionths.
#[derive(Debug, Clone, Copy, PartialEq, Eq, Structural, Hash)]
pub struct Fixed {
    /// The number of millionths; `1.0` is `1_000_000`.
    pub micros: i64,
}

impl Fixed {
    /// The value is within the representable fixed-point range.
    pub open spec fn wf(self) -> bool {
        -(FIXED_MAX as int) <= self.micros as int <= FIXED_MAX as int
    }

    /// The fixed-point value of the fraction `num / den`.
    pub fn from_ratio(num: i64, den: i64) -> (r: Fixed)
        requires
            den > 0,
            -1_000_000_000_000 <= num <= 1_000_000_000_000,
        ensures
            r.micros as int == fclamp(rdiv(num * SCALE, den as int)),
            r.wf(),
    {
        proof {
            lemma_mul_bound(num as int, SCALE as int, 1_000_000_000_000, 1_000_000);
        }
        let q = rdiv_wide(num as i128 * SCALE as i128, den as i128);
        Fixed { micros: clamp_wide(q) }
    }

    /// Parses a fixed-point literal: an optional minus sign, one or more
    /// digits, and optionally a decimal point followed by one or more
    /// digits. Fraction digits beyond the sixth are truncated; magnitudes
    /// beyond the representable range saturate at [`FIXED_MAX`].
    pub fn parse(s: &str) -> (r: Option<Fixed>)
        ensures
            match r {
                Some(f) => is_fixed_literal(s@) && f.micros as int == fclamp(fixed_val(s@))
                    && f.wf(),
                None => !is_fixed_literal(s@),
            },
    {
        let n = s.unicode_len();
        if n == 0 {
            return None;
        }
        let neg = s.get_char(0) == '-';
        let start: usize = if neg {
            1
        } else {
            0
        };
        let ghost b = fixed_body(s@);
        proof {
            assert(b =~= s@.skip(start as int));
        }
        let (ie, intval, over) = scan_digits(s, start, 1_000_000_000);
        if ie == start {
            proof {
                lemma_unparseable_body(b, 0);
            }
            return None;
        }
        let ghost q = ie - start;
        let ghost ip = b.take(q as int);
        proof {
            assert(ip =~= s@.subrange(start as int, ie as int));
            lemma_digits_val_nonneg(ip);
        }
        let mag: u64;
        let ghost mval: int;
        if ie == n {
            // a pure integer literal
            proof {
                if dot_pos(b) >= 0 {
                    lemma_dot_pos_found(b);
                    assert(is_digit(b[dot_pos(b)]));
                    assert(false);
                }
                assert(b =~= ip);
                mval = fixed_mag(b);
            }
            if over {
                proof {
                    lemma_mag_over(digits_val(b), 0);
                }
                mag = FIXED_MAX as u64;
            } else {
                mag = intval * 1_000_000;
                proof {
                    assert(mval == mag);
                }
            }
        } else {
            let c = s.get_char(ie);
            if c != '.' {
                proof {
                    lemma_unparseable_body(b, q);
                }
                return None;
            }
            proof {
                assert(b.skip(q + 1) =~= b.skip(q + 1));
                lemma_dot_pos_concat(ip, b.skip(q + 1));
                assert(ip + seq!['.'] + b.skip(q + 1) =~= b);
                assert(dot_pos(b) == q);
            }
            let (fe, fracval) = scan_frac(s, ie + 1);
            let ghost fr = b.skip(q + 1);
            if fe == ie + 1 || fe < n {
                proof {
                    assert(fr =~= s@.subrange(ie + 1, n as int));
                    if fe == ie + 1 && fe == n {
                        assert(fr.len() == 0);
                    } else {
                        let bad = fe - start - (q + 1);
                        assert(fr[bad as int] == s@[fe as int]);
                        assert(!is_digit(fr[bad as int]));
                    }
                    assert(!is_int_literal(b.skip(dot_pos(b) + 1)));
                }
                return None;
            }
            proof {
                assert(fr =~= s@.subrange(ie + 1, n as int));
                assert(all_digits(fr)) by {
                    assert(forall|k: int|
                        0 <= k < fr.len() ==> #[trigger] fr[k] == s@[k + ie + 1]);
                }
                lemma_frac_micros_bounds(fr);
                mval = fixed_mag(b);
            }
            if over {
                proof {
                    lemma_mag_over(digits_val(ip), frac_micros(fr));
                }
                mag = FIXED_MAX as u64;
            } else {
                mag = intval * 1_000_000 + fracval;
                proof {
                    assert(mval == mag);
                }
            }
        }
        let mag = if mag > FIXED_MAX as u64 {
            FIXED_MAX as u64
        } else {
            mag
        };
        proof {
            assert(mag == fclamp(mval));
        }
        let micros: i64 = if neg {
            -(mag as i64)
        } else {
            mag as i64
        };
        Some(Fixed { micros })
    }

    /// Formats the value as a decimal literal with a sign for negative
    /// values, the integer part without leading zeros, a decimal point, and
    /// exactly six fraction digits.
    pub fn format(self) -> (r: String)
        requires
            self.wf(),
        ensures
            r@ == fixed_text(self.micros as int),
    {
        let neg = self.micros < 0;
        let mag: u64 = if neg {
            (-self.micros) as u64
        } else {
            self.micros as u64
        };
        let mut s = String::new();
        if neg {
            push_char(&mut s, '-');
        }
        let ipart = format_uint(mag / 1_000_000);
        s.append(ipart.as_str());
        push_char(&mut s, '.');
        let fpart = format_uint_pad(mag % 1_000_000, 6);
        s.append(fpart.as_str());
        proof {
            let m = self.micros as int;
            let sign: Seq<char> = if m < 0 {
                seq!['-']
            } else {
                Seq::empty()
            };
            assert(mag == abs_i(m));
            assert(s@ =~= sign + uint_digits((abs_i(m) / (SCALE as int)) as nat) + seq!['.']
                + uint_digits_pad((abs_i(m) % (SCALE as int)) as nat, 6));
        }
        s
    }

    /// The value scaled by `max` and rounded to the nearest integer.
    pub fn scale_int(self, max: i64) -> (r: i64)
        requires
            self.wf(),
            0 < max <= 100_000,
        ensures
            r as int == rdiv(self.micros * max, SCALE as int),
    {
        proof {
            lemma_mul_bound(self.micros as int, max as int, FIXED_MAX as int, 100_000);
        }
        let q = rdiv_wide(self.micros as i128 * max as i128, SCALE as i128);
        proof {
            let a = self.micros as int * max as int;
            assert(abs_i(a) / (SCALE as int) + 1 <= 0x7fff_ffff_ffff_ffff) by (nonlinear_arith)
                requires
                    -((FIXED_MAX as int) * 100_000) <= a <= (FIXED_MAX as int) * 100_000,
            ;
        }
        q as i64
    }
}

} // verus!

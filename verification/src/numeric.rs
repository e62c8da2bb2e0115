//! Decimal digit strings: their meaning as numbers, parsing and formatting.
//!
//! Everything in the codec that touches numeric text goes through this
//! module: an unsigned integer literal is a non-empty run of decimal digits,
//! and its value is given by [`digits_val`].

use vstd::prelude::*;
use vstd::string::*;

verus! {

/// `c` is a decimal digit.
pub open spec fn is_digit(c: char) -> bool {
    48 <= c as int && c as int <= 57
}

/// Numeric value of a digit character.
pub open spec fn digit_val(c: char) -> int {
    c as int - 48
}

/// Every character of `s` is a decimal digit.
pub open spec fn all_digits(s: Seq<char>) -> bool {
    forall|i: int| 0 <= i < s.len() ==> is_digit(#[trigger] s[i])
}

/// `s` is an unsigned integer literal: one or more decimal digits.
pub open spec fn is_int_literal(s: Seq<char>) -> bool {
    s.len() > 0 && all_digits(s)
}

/// The number denoted by a digit string (most significant digit first).
pub open spec fn digits_val(s: Seq<char>) -> int
    decreases s.len(),
{
    if s.len() == 0 {
        0
    } else {
        digits_val(s.drop_last()) * 10 + digit_val(s.last())
    }
}

/// Ten to the `k`.
pub open spec fn pow10(k: nat) -> int
    decreases k,
{
    if k == 0 {
        1
    } else {
        10 * pow10((k - 1) as nat)
    }
}

/// The digit character for a value in 0..=9 (and '0' elsewhere).
pub open spec fn digit_char_s(d: int) -> char {
    if d == 1 {
        '1'
    } else if d == 2 {
        '2'
    } else if d == 3 {
        '3'
    } else if d == 4 {
        '4'
    } else if d == 5 {
        '5'
    } else if d == 6 {
        '6'
    } else if d == 7 {
        '7'
    } else if d == 8 {
        '8'
    } else if d == 9 {
        '9'
    } else {
        '0'
    }
}

/// The canonical (no leading zero) digit string of `n`.
pub open spec fn uint_digits(n: nat) -> Seq<char>
    decreases n,
{
    if n < 10 {
        seq![digit_char_s(n as int)]
    } else {
        uint_digits(n / 10).push(digit_char_s((n % 10) as int))
    }
}

/// The digit string of `n % 10^k`, zero-padded to exactly `k` digits.
pub open spec fn uint_digits_pad(n: nat, k: nat) -> Seq<char>
    decreases k,
{
    if k == 0 {
        Seq::empty()
    } else {
        uint_digits_pad(n / 10, (k - 1) as nat).push(digit_char_s((n % 10) as int))
    }
}

proof fn lemma_digit_char_s(d: int)
    requires
        0 <= d <= 9,
    ensures
        is_digit(digit_char_s(d)),
        digit_val(digit_char_s(d)) == d,
{
}

/// The value of a digit string is non-negative.
pub proof fn lemma_digits_val_nonneg(s: Seq<char>)
    requires
        all_digits(s),
    ensures
        digits_val(s) >= 0,
    decreases s.len(),
{
    if s.len() > 0 {
        assert(all_digits(s.drop_last())) by {
            assert(forall|i: int|
                0 <= i < s.len() - 1 ==> #[trigger] s.drop_last()[i] == s[i]);
        }
        lemma_digits_val_nonneg(s.drop_last());
    }
}

/// Appending digits never shrinks the value.
pub proof fn lemma_digits_val_prefix_le(s: Seq<char>, i: int, j: int)
    requires
        all_digits(s),
        0 <= i <= j <= s.len(),
    ensures
        digits_val(s.take(i)) <= digits_val(s.take(j)),
    decreases j - i,
{
    if i < j {
        lemma_digits_val_prefix_le(s, i, j - 1);
        assert(s.take(j).drop_last() =~= s.take(j - 1));
        assert(s.take(j).last() == s[j - 1]);
        assert(all_digits(s.take(j - 1))) by {
            assert(forall|k: int| 0 <= k < j - 1 ==> #[trigger] s.take(j - 1)[k] == s[k]);
        }
        lemma_digits_val_nonneg(s.take(j - 1));
        assert(digits_val(s.take(j)) == digits_val(s.take(j - 1)) * 10 + digit_val(s[j - 1]));
        assert(digits_val(s.take(j - 1)) * 10 >= digits_val(s.take(j - 1))) by {
            lemma_digits_val_nonneg(s.take(j - 1));
        }
    }
}

/// The canonical digit string means the number it was built from.
pub proof fn lemma_uint_digits_val(n: nat)
    ensures
        is_int_literal(uint_digits(n)),
        digits_val(uint_digits(n)) == n,
        uint_digits(n).len() >= 1,
    decreases n,
{
    if n < 10 {
        lemma_digit_char_s(n as int);
        let u = uint_digits(n);
        assert(u.drop_last() =~= Seq::<char>::empty());
        assert(u.last() == digit_char_s(n as int));
        assert(digits_val(u) == digits_val(Seq::<char>::empty()) * 10 + digit_val(
            digit_char_s(n as int),
        ));
    } else {
        lemma_uint_digits_val(n / 10);
        lemma_digit_char_s((n % 10) as int);
        let u = uint_digits(n / 10);
        assert(u.push(digit_char_s((n % 10) as int)).drop_last() =~= u);
        assert(digits_val(uint_digits(n)) == digits_val(u) * 10 + (n % 10));
        assert((n / 10) * 10 + (n % 10) == n) by (nonlinear_arith);
        assert(all_digits(uint_digits(n))) by {
            assert(forall|i: int|
                0 <= i < u.len() ==> #[trigger] u.push(digit_char_s((n % 10) as int))[i] == u[i]);
        }
    }
}

/// The padded digit string has exactly `k` digits and means `n % 10^k`.
pub proof fn lemma_uint_digits_pad_val(n: nat, k: nat)
    ensures
        all_digits(uint_digits_pad(n, k)),
        uint_digits_pad(n, k).len() == k,
        digits_val(uint_digits_pad(n, k)) == n % (pow10(k) as nat),
    decreases k,
{
    lemma_pow10_pos(k);
    if k == 0 {
        assert(n % 1nat == 0) by (nonlinear_arith);
    } else {
        lemma_uint_digits_pad_val(n / 10, (k - 1) as nat);
        lemma_digit_char_s((n % 10) as int);
        lemma_pow10_pos((k - 1) as nat);
        let u = uint_digits_pad(n / 10, (k - 1) as nat);
        assert(u.push(digit_char_s((n % 10) as int)).drop_last() =~= u);
        assert(all_digits(uint_digits_pad(n, k))) by {
            assert(forall|i: int|
                0 <= i < u.len() ==> #[trigger] u.push(digit_char_s((n % 10) as int))[i] == u[i]);
        }
        assert(digits_val(uint_digits_pad(n, k)) == ((n / 10) % (pow10((k - 1) as nat) as nat)) * 10
            + (n % 10));
        vstd::arithmetic::div_mod::lemma_mod_breakdown(
            n as int,
            10,
            pow10((k - 1) as nat),
        );
        assert(pow10(k) == 10 * pow10((k - 1) as nat));
    }
}

/// A digit string of length `k` denotes a number below `10^k`.
pub proof fn lemma_digits_val_upper(s: Seq<char>)
    requires
        all_digits(s),
    ensures
        digits_val(s) < pow10(s.len()),
    decreases s.len(),
{
    lemma_pow10_pos(s.len());
    if s.len() > 0 {
        assert(all_digits(s.drop_last())) by {
            assert(forall|i: int|
                0 <= i < s.len() - 1 ==> #[trigger] s.drop_last()[i] == s[i]);
        }
        lemma_digits_val_upper(s.drop_last());
        lemma_digits_val_nonneg(s.drop_last());
        let v = digits_val(s.drop_last());
        let p = pow10((s.len() - 1) as nat);
        assert(v * 10 + digit_val(s.last()) < p * 10) by (nonlinear_arith)
            requires
                0 <= v,
                v < p,
                digit_val(s.last()) <= 9,
        ;
        assert(pow10(s.len()) == 10 * p);
    }
}

/// Ten to the `k` is positive.
pub proof fn lemma_pow10_pos(k: nat)
    ensures
        pow10(k) >= 1,
    decreases k,
{
    if k > 0 {
        lemma_pow10_pos((k - 1) as nat);
    }
}

/// The digit character for a value in 0..=9.
pub fn digit_char(d: u8) -> (c: char)
    requires
        d < 10,
    ensures
        c == digit_char_s(d as int),
{
    match d {
        0 => '0',
        1 => '1',
        2 => '2',
        3 => '3',
        4 => '4',
        5 => '5',
        6 => '6',
        7 => '7',
        8 => '8',
        _ => '9',
    }
}

/// Appends one character to a string.
///
/// Relies on `String::push`: it appends exactly the given character.
#[verifier::external_body]
pub fn push_char(s: &mut String, c: char)
    ensures
        final(s)@ == old(s)@.push(c),
{
    s.push(c);
}

/// Formats `n` as its canonical decimal digit string.
pub fn format_uint(n: u64) -> (r: String)
    ensures
        r@ == uint_digits(n as nat),
    decreases n,
{
    if n < 10 {
        let mut s = String::new();
        push_char(&mut s, digit_char(n as u8));
        proof {
            assert(s@ =~= uint_digits(n as nat));
        }
        s
    } else {
        let mut s = format_uint(n / 10);
        push_char(&mut s, digit_char((n % 10) as u8));
        s
    }
}

/// Formats `n % 10^k` as exactly `k` decimal digits, zero-padded.
pub fn format_uint_pad(n: u64, k: u8) -> (r: String)
    ensures
        r@ == uint_digits_pad(n as nat, k as nat),
    decreases k,
{
    if k == 0 {
        let s = String::new();
        proof {
            assert(s@ =~= uint_digits_pad(n as nat, 0));
        }
        s
    } else {
        let mut s = format_uint_pad(n / 10, k - 1);
        push_char(&mut s, digit_char((n % 10) as u8));
        s
    }
}

/// Parses an unsigned integer literal, rejecting values above `max`.
///
/// Returns the value exactly when `s` is a digit string denoting a number
/// of at most `max`.
pub fn parse_uint(s: &str, max: u64) -> (r: Option<u64>)
    requires
        max <= 1_000_000_000_000_000_000,
    ensures
        match r {
            Some(v) => is_int_literal(s@) && v == digits_val(s@) && v <= max,
            None => !(is_int_literal(s@) && digits_val(s@) <= max),
        },
{
    let n = s.unicode_len();
    if n == 0 {
        return None;
    }
    let mut acc: u64 = 0;
    let mut i: usize = 0;
    while i < n
        invariant
            0 <= i <= n,
            n == s@.len(),
            max <= 1_000_000_000_000_000_000,
            all_digits(s@.take(i as int)),
            acc == digits_val(s@.take(i as int)),
            acc <= max,
        decreases n - i,
    {
        let c = s.get_char(i);
        let code = c as u32;
        if code < 48 || code > 57 {
            proof {
                assert(!is_digit(s@[i as int]));
            }
            return None;
        }
        let d = (code - 48) as u64;
        proof {
            assert(s@.take(i + 1).drop_last() =~= s@.take(i as int));
            assert(s@.take(i + 1).last() == s@[i as int]);
            assert(all_digits(s@.take(i + 1))) by {
                assert(forall|k: int|
                    0 <= k < i + 1 ==> #[trigger] s@.take(i + 1)[k] == s@[k]);
            }
            assert(digits_val(s@.take(i + 1)) == acc * 10 + d);
        }
        let t = acc * 10 + d;
        if t > max {
            proof {
                if is_int_literal(s@) {
                    lemma_digits_val_prefix_le(s@, i + 1, s@.len() as int);
                    assert(s@.take(s@.len() as int) =~= s@);
                }
            }
            return None;
        }
        acc = t;
        i = i + 1;
        proof {
            assert(all_digits(s@.take(i as int))) by {
                assert(forall|k: int|
                    0 <= k < i ==> #[trigger] s@.take(i as int)[k] == s@[k]);
            }
        }
    }
    proof {
        assert(s@.take(n as int) =~= s@);
    }
    Some(acc)
}

} // verus!

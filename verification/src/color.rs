//! The polymorphic color value and its token codec.
//!
//! A color field's value in the data files is a short sequence of tokens in
//! one of four shapes:
//!
//! - `{ <int> <int> <int> }` — an untagged RGB triple of integers in 0..=255;
//! - `rgb { <int> <int> <int> }` — the same triple under the `rgb` tag;
//! - `hsv { <float> <float> <float> }` — a float HSV triple, each channel
//!   conventionally in `[0, 1]`, the hue a fraction of a full turn;
//! - `hsv360 { <int 0..=360> <int 0..=255> <int 0..=255> }` — an integer HSV
//!   triple with the hue in degrees.
//!
//! [`Color::decode`] dispatches on the first token: the known tags are tried
//! first, and only then is the token read as the first number of an untagged
//! triple, so mod files that omit the `rgb` tag keep working. An untagged
//! triple is integer RGB exactly when all three tokens are integer literals
//! in range; any fractional token makes it float RGB. [`Color::encode`]
//! writes each variant back in its own shape: integer RGB untagged, float
//! RGB untagged with six fraction digits on every channel, and the HSV
//! variants under their tags, so a decoded value re-encodes tag-for-tag.

use vstd::prelude::*;
use vstd::string::*;
use crate::fixed::{
    Fixed, FIXED_MAX, fclamp, fixed_text, fixed_val, is_fixed_literal, lemma_fixed_text_parse,
};
use crate::numeric::{
    digits_val, format_uint, is_digit, is_int_literal, lemma_uint_digits_val, parse_uint,
    uint_digits,
};
use crate::text::str_eq;

verus! {

/// An RGB color with integer channels in 0..=255.
#[derive(Debug, Clone, Copy, PartialEq, Eq, Structural, Hash)]
pub struct RgbIntColor {
    pub red: u8,
    pub green: u8,
    pub blue: u8,
}

/// An RGB color with fractional channels, conventionally in `[0, 1]`.
#[derive(Debug, Clone, Copy, PartialEq, Eq, Structural)]
pub struct RgbFloatColor {
    pub red: Fixed,
    pub green: Fixed,
    pub blue: Fixed,
}

/// An HSV color with the hue in degrees (0..=360) and integer saturation
/// and value channels in 0..=255.
#[derive(Debug, Clone, Copy, PartialEq, Eq, Structural, Hash)]
pub struct HsvIntColor {
    pub hue: u16,
    pub saturation: u8,
    pub value: u8,
}

/// An HSV color with fractional channels, conventionally in `[0, 1]`; the
/// hue is a fraction of a full turn.
#[derive(Debug, Clone, Copy, PartialEq, Eq, Structural)]
pub struct HsvFloatColor {
    pub hue: Fixed,
    pub saturation: Fixed,
    pub value: Fixed,
}

/// A color as it appears in a data file: exactly one variant is active, and
/// the variant records which textual shape the value was written in.
#[derive(Debug, Clone, Copy, PartialEq, Eq, Structural)]
pub enum Color {
    RgbInt(RgbIntColor),
    RgbFloat(RgbFloatColor),
    HsvInt(HsvIntColor),
    HsvFloat(HsvFloatColor),
}

/// Names one of the four color variants.
#[derive(Debug, Clone, Copy, PartialEq, Eq, Structural)]
pub enum ColorKind {
    RgbInt,
    RgbFloat,
    HsvInt,
    HsvFloat,
}

impl RgbFloatColor {
    /// All channels are within the representable fixed-point range.
    pub open spec fn wf(self) -> bool {
        self.red.wf() && self.green.wf() && self.blue.wf()
    }
}

impl HsvIntColor {
    /// The hue is at most a full circle; 360 itself is representable.
    pub open spec fn wf(self) -> bool {
        self.hue <= 360
    }
}

impl HsvFloatColor {
    /// All channels are within the representable fixed-point range.
    pub open spec fn wf(self) -> bool {
        self.hue.wf() && self.saturation.wf() && self.value.wf()
    }
}

impl Color {
    /// The active variant's own validity condition.
    pub open spec fn wf(self) -> bool {
        match self {
            Color::RgbInt(_) => true,
            Color::RgbFloat(c) => c.wf(),
            Color::HsvInt(c) => c.wf(),
            Color::HsvFloat(c) => c.wf(),
        }
    }

    /// Which variant is active.
    pub open spec fn spec_kind(&self) -> ColorKind {
        match self {
            Color::RgbInt(_) => ColorKind::RgbInt,
            Color::RgbFloat(_) => ColorKind::RgbFloat,
            Color::HsvInt(_) => ColorKind::HsvInt,
            Color::HsvFloat(_) => ColorKind::HsvFloat,
        }
    }

    /// Which variant is active.
    #[verifier::when_used_as_spec(spec_kind)]
    pub fn kind(&self) -> (k: ColorKind)
        ensures
            k == self.spec_kind(),
    {
        match self {
            Color::RgbInt(_) => ColorKind::RgbInt,
            Color::RgbFloat(_) => ColorKind::RgbFloat,
            Color::HsvInt(_) => ColorKind::HsvInt,
            Color::HsvFloat(_) => ColorKind::HsvFloat,
        }
    }
}

/// Why a color failed to decode, or which variant was wrongly extracted.
#[derive(Debug, Clone, PartialEq, Eq)]
pub enum ColorError {
    /// The token sequence has the wrong number of tokens for its shape.
    Missing { expected: usize, found: usize },
    /// The first token is neither a known tag nor a number.
    UnknownVariant { token: String },
    /// A token that had to be a number of the required range is not one.
    InvalidNumber { token: String },
    /// A caller demanded one variant and the value holds another.
    WrongVariant { expected: ColorKind, actual: ColorKind },
}

/// The mathematical content of a [`ColorError`]: the same cases over
/// character sequences.
pub enum ColorErrorView {
    Missing { expected: int, found: int },
    UnknownVariant { token: Seq<char> },
    InvalidNumber { token: Seq<char> },
    WrongVariant { expected: ColorKind, actual: ColorKind },
}

impl View for ColorError {
    type V = ColorErrorView;

    open spec fn view(&self) -> ColorErrorView {
        match self {
            ColorError::Missing { expected, found } => ColorErrorView::Missing {
                expected: *expected as int,
                found: *found as int,
            },
            ColorError::UnknownVariant { token } => ColorErrorView::UnknownVariant {
                token: token@,
            },
            ColorError::InvalidNumber { token } => ColorErrorView::InvalidNumber {
                token: token@,
            },
            ColorError::WrongVariant { expected, actual } => ColorErrorView::WrongVariant {
                expected: *expected,
                actual: *actual,
            },
        }
    }
}

/// The character sequences of a token list.
pub open spec fn token_views(ts: Seq<String>) -> Seq<Seq<char>> {
    ts.map_values(|t: String| t@)
}

/// `t` is an integer literal whose value is at most `max`.
pub open spec fn int_token(t: Seq<char>, max: int) -> bool {
    is_int_literal(t) && digits_val(t) <= max
}

/// The fixed-point channel a float token denotes.
pub open spec fn fixed_of(t: Seq<char>) -> Fixed {
    Fixed { micros: fclamp(fixed_val(t)) as i64 }
}

/// Decoding of a `rgb`-tagged token sequence (the tag is `ts[0]`).
pub open spec fn spec_decode_rgb(ts: Seq<Seq<char>>) -> Result<Color, ColorErrorView> {
    if ts.len() != 4 {
        Err(ColorErrorView::Missing { expected: 4, found: ts.len() as int })
    } else if !int_token(ts[1], 255) {
        Err(ColorErrorView::InvalidNumber { token: ts[1] })
    } else if !int_token(ts[2], 255) {
        Err(ColorErrorView::InvalidNumber { token: ts[2] })
    } else if !int_token(ts[3], 255) {
        Err(ColorErrorView::InvalidNumber { token: ts[3] })
    } else {
        Ok(
            Color::RgbInt(
                RgbIntColor {
                    red: digits_val(ts[1]) as u8,
                    green: digits_val(ts[2]) as u8,
                    blue: digits_val(ts[3]) as u8,
                },
            ),
        )
    }
}

/// Decoding of an `hsv`-tagged token sequence (the tag is `ts[0]`).
pub open spec fn spec_decode_hsv(ts: Seq<Seq<char>>) -> Result<Color, ColorErrorView> {
    if ts.len() != 4 {
        Err(ColorErrorView::Missing { expected: 4, found: ts.len() as int })
    } else if !is_fixed_literal(ts[1]) {
        Err(ColorErrorView::InvalidNumber { token: ts[1] })
    } else if !is_fixed_literal(ts[2]) {
        Err(ColorErrorView::InvalidNumber { token: ts[2] })
    } else if !is_fixed_literal(ts[3]) {
        Err(ColorErrorView::InvalidNumber { token: ts[3] })
    } else {
        Ok(
            Color::HsvFloat(
                HsvFloatColor {
                    hue: fixed_of(ts[1]),
                    saturation: fixed_of(ts[2]),
                    value: fixed_of(ts[3]),
                },
            ),
        )
    }
}

/// Decoding of an `hsv360`-tagged token sequence (the tag is `ts[0]`).
pub open spec fn spec_decode_hsv360(ts: Seq<Seq<char>>) -> Result<Color, ColorErrorView> {
    if ts.len() != 4 {
        Err(ColorErrorView::Missing { expected: 4, found: ts.len() as int })
    } else if !int_token(ts[1], 360) {
        Err(ColorErrorView::InvalidNumber { token: ts[1] })
    } else if !int_token(ts[2], 255) {
        Err(ColorErrorView::InvalidNumber { token: ts[2] })
    } else if !int_token(ts[3], 255) {
        Err(ColorErrorView::InvalidNumber { token: ts[3] })
    } else {
        Ok(
            Color::HsvInt(
                HsvIntColor {
                    hue: digits_val(ts[1]) as u16,
                    saturation: digits_val(ts[2]) as u8,
                    value: digits_val(ts[3]) as u8,
                },
            ),
        )
    }
}

/// Decoding of an untagged token sequence: integer RGB when every token is
/// an integer literal in range, float RGB when every token is at least a
/// fixed-point literal.
pub open spec fn spec_decode_untagged(ts: Seq<Seq<char>>) -> Result<Color, ColorErrorView> {
    if !is_fixed_literal(ts[0]) {
        Err(ColorErrorView::UnknownVariant { token: ts[0] })
    } else if ts.len() != 3 {
        Err(ColorErrorView::Missing { expected: 3, found: ts.len() as int })
    } else if int_token(ts[0], 255) && int_token(ts[1], 255) && int_token(ts[2], 255) {
        Ok(
            Color::RgbInt(
                RgbIntColor {
                    red: digits_val(ts[0]) as u8,
                    green: digits_val(ts[1]) as u8,
                    blue: digits_val(ts[2]) as u8,
                },
            ),
        )
    } else if !is_fixed_literal(ts[1]) {
        Err(ColorErrorView::InvalidNumber { token: ts[1] })
    } else if !is_fixed_literal(ts[2]) {
        Err(ColorErrorView::InvalidNumber { token: ts[2] })
    } else {
        Ok(
            Color::RgbFloat(
                RgbFloatColor {
                    red: fixed_of(ts[0]),
                    green: fixed_of(ts[1]),
                    blue: fixed_of(ts[2]),
                },
            ),
        )
    }
}

/// What a token sequence decodes to: tag dispatch on the first token, with
/// the untagged numeric reading as the fallback.
pub open spec fn spec_decode(ts: Seq<Seq<char>>) -> Result<Color, ColorErrorView> {
    if ts.len() == 0 {
        Err(ColorErrorView::Missing { expected: 1, found: 0 })
    } else if ts[0] == "rgb"@ {
        spec_decode_rgb(ts)
    } else if ts[0] == "hsv"@ {
        spec_decode_hsv(ts)
    } else if ts[0] == "hsv360"@ {
        spec_decode_hsv360(ts)
    } else {
        spec_decode_untagged(ts)
    }
}

/// The token sequence a color serializes to.
pub open spec fn spec_encode(c: Color) -> Seq<Seq<char>> {
    match c {
        Color::RgbInt(x) => seq![
            uint_digits(x.red as nat),
            uint_digits(x.green as nat),
            uint_digits(x.blue as nat),
        ],
        Color::RgbFloat(x) => seq![
            fixed_text(x.red.micros as int),
            fixed_text(x.green.micros as int),
            fixed_text(x.blue.micros as int),
        ],
        Color::HsvInt(x) => seq![
            "hsv360"@,
            uint_digits(x.hue as nat),
            uint_digits(x.saturation as nat),
            uint_digits(x.value as nat),
        ],
        Color::HsvFloat(x) => seq![
            "hsv"@,
            fixed_text(x.hue.micros as int),
            fixed_text(x.saturation.micros as int),
            fixed_text(x.value.micros as int),
        ],
    }
}

impl Color {
    /// Parses one color value from its token sequence.
    ///
    /// The first token picks the variant: the tags `rgb`, `hsv` and
    /// `hsv360` are tried first, and any other token is read as the first
    /// number of an untagged triple. A first token that is neither fails
    /// with an unknown-variant error; a non-numeric later token fails with
    /// an invalid-number error; a wrong token count fails with an arity
    /// error. [`spec_decode`] states the exact result for every input.
    pub fn decode(tokens: &Vec<String>) -> (r: Result<Color, ColorError>)
        ensures
            ({
                let ts = token_views(tokens@);
                match r {
                    Ok(c) => spec_decode(ts) == Ok::<Color, ColorErrorView>(c) && c.wf(),
                    Err(e) => spec_decode(ts) == Err::<Color, ColorErrorView>(e@),
                }
            }),
    {
        let ghost ts = token_views(tokens@);
        proof {
            assert(ts.len() == tokens@.len());
        }
        if tokens.len() == 0 {
            return Err(ColorError::Missing { expected: 1, found: 0 });
        }
        proof {
            assert(ts[0] == tokens@[0]@);
        }
        if str_eq(tokens[0].as_str(), "rgb") {
            if tokens.len() != 4 {
                return Err(ColorError::Missing { expected: 4, found: tokens.len() });
            }
            let red = match parse_uint(tokens[1].as_str(), 255) {
                Some(v) => v,
                None => {
                    return Err(ColorError::InvalidNumber { token: tokens[1].clone() });
                },
            };
            let green = match parse_uint(tokens[2].as_str(), 255) {
                Some(v) => v,
                None => {
                    return Err(ColorError::InvalidNumber { token: tokens[2].clone() });
                },
            };
            let blue = match parse_uint(tokens[3].as_str(), 255) {
                Some(v) => v,
                None => {
                    return Err(ColorError::InvalidNumber { token: tokens[3].clone() });
                },
            };
            Ok(
                Color::RgbInt(
                    RgbIntColor { red: red as u8, green: green as u8, blue: blue as u8 },
                ),
            )
        } else if str_eq(tokens[0].as_str(), "hsv") {
            if tokens.len() != 4 {
                return Err(ColorError::Missing { expected: 4, found: tokens.len() });
            }
            let hue = match Fixed::parse(tokens[1].as_str()) {
                Some(f) => f,
                None => {
                    return Err(ColorError::InvalidNumber { token: tokens[1].clone() });
                },
            };
            let saturation = match Fixed::parse(tokens[2].as_str()) {
                Some(f) => f,
                None => {
                    return Err(ColorError::InvalidNumber { token: tokens[2].clone() });
                },
            };
            let value = match Fixed::parse(tokens[3].as_str()) {
                Some(f) => f,
                None => {
                    return Err(ColorError::InvalidNumber { token: tokens[3].clone() });
                },
            };
            Ok(Color::HsvFloat(HsvFloatColor { hue, saturation, value }))
        } else if str_eq(tokens[0].as_str(), "hsv360") {
            if tokens.len() != 4 {
                return Err(ColorError::Missing { expected: 4, found: tokens.len() });
            }
            let hue = match parse_uint(tokens[1].as_str(), 360) {
                Some(v) => v,
                None => {
                    return Err(ColorError::InvalidNumber { token: tokens[1].clone() });
                },
            };
            let saturation = match parse_uint(tokens[2].as_str(), 255) {
                Some(v) => v,
                None => {
                    return Err(ColorError::InvalidNumber { token: tokens[2].clone() });
                },
            };
            let value = match parse_uint(tokens[3].as_str(), 255) {
                Some(v) => v,
                None => {
                    return Err(ColorError::InvalidNumber { token: tokens[3].clone() });
                },
            };
            Ok(
                Color::HsvInt(
                    HsvIntColor {
                        hue: hue as u16,
                        saturation: saturation as u8,
                        value: value as u8,
                    },
                ),
            )
        } else {
            let red = match Fixed::parse(tokens[0].as_str()) {
                Some(f) => f,
                None => {
                    return Err(ColorError::UnknownVariant { token: tokens[0].clone() });
                },
            };
            if tokens.len() != 3 {
                return Err(ColorError::Missing { expected: 3, found: tokens.len() });
            }
            let i0 = parse_uint(tokens[0].as_str(), 255);
            let i1 = parse_uint(tokens[1].as_str(), 255);
            let i2 = parse_uint(tokens[2].as_str(), 255);
            match (i0, i1, i2) {
                (Some(a), Some(b), Some(c)) => {
                    return Ok(
                        Color::RgbInt(RgbIntColor { red: a as u8, green: b as u8, blue: c as u8 }),
                    );
                },
                _ => {},
            }
            let green = match Fixed::parse(tokens[1].as_str()) {
                Some(f) => f,
                None => {
                    return Err(ColorError::InvalidNumber { token: tokens[1].clone() });
                },
            };
            let blue = match Fixed::parse(tokens[2].as_str()) {
                Some(f) => f,
                None => {
                    return Err(ColorError::InvalidNumber { token: tokens[2].clone() });
                },
            };
            Ok(Color::RgbFloat(RgbFloatColor { red, green, blue }))
        }
    }

    /// Serializes the color back into its token sequence, in the shape
    /// [`spec_encode`] states: integer RGB as a bare triple, float RGB as a
    /// bare triple of fixed-point literals, and the HSV variants under
    /// their `hsv` and `hsv360` tags.
    pub fn encode(&self) -> (r: Vec<String>)
        requires
            self.wf(),
        ensures
            token_views(r@) == spec_encode(*self),
    {
        let mut out: Vec<String> = Vec::new();
        match self {
            Color::RgbInt(x) => {
                out.push(format_uint(x.red as u64));
                out.push(format_uint(x.green as u64));
                out.push(format_uint(x.blue as u64));
            },
            Color::RgbFloat(x) => {
                out.push(x.red.format());
                out.push(x.green.format());
                out.push(x.blue.format());
            },
            Color::HsvInt(x) => {
                out.push(String::from_str("hsv360"));
                out.push(format_uint(x.hue as u64));
                out.push(format_uint(x.saturation as u64));
                out.push(format_uint(x.value as u64));
            },
            Color::HsvFloat(x) => {
                out.push(String::from_str("hsv"));
                out.push(x.hue.format());
                out.push(x.saturation.format());
                out.push(x.value.format());
            },
        }
        proof {
            assert(token_views(out@) =~~= spec_encode(*self));
        }
        out
    }
}

/// The name under which a variant appears in messages.
pub open spec fn spec_kind_name(k: ColorKind) -> Seq<char> {
    match k {
        ColorKind::RgbInt => "rgb"@,
        ColorKind::RgbFloat => "rgb float"@,
        ColorKind::HsvInt => "hsv360"@,
        ColorKind::HsvFloat => "hsv"@,
    }
}

/// The name under which a variant appears in messages.
pub fn kind_name(k: ColorKind) -> (r: &'static str)
    ensures
        r@ == spec_kind_name(k),
{
    match k {
        ColorKind::RgbInt => "rgb",
        ColorKind::RgbFloat => "rgb float",
        ColorKind::HsvInt => "hsv360",
        ColorKind::HsvFloat => "hsv",
    }
}

/// The text of a color error: it names the offending token or counts and
/// says which way the decode failed.
pub open spec fn spec_message(e: ColorErrorView) -> Seq<char> {
    match e {
        ColorErrorView::Missing { expected, found } => "color value: expected "@ + uint_digits(
            expected as nat,
        ) + " tokens, found "@ + uint_digits(found as nat),
        ColorErrorView::UnknownVariant { token } => "unrecognized color variant '"@ + token
            + "'; expected rgb, hsv, hsv360, or a number"@,
        ColorErrorView::InvalidNumber { token } => "invalid number '"@ + token + "'"@,
        ColorErrorView::WrongVariant { expected, actual } => "expected a "@ + spec_kind_name(
            expected,
        ) + " color, found "@ + spec_kind_name(actual),
    }
}

impl ColorError {
    /// Renders the error as text fit to show a mod author: the failing
    /// token or token counts, and the reason.
    pub fn message(&self) -> (r: String)
        ensures
            r@ == spec_message(self@),
    {
        match self {
            ColorError::Missing { expected, found } => {
                let mut s = String::from_str("color value: expected ");
                let e = format_uint(*expected as u64);
                s.append(e.as_str());
                s.append(" tokens, found ");
                let f = format_uint(*found as u64);
                s.append(f.as_str());
                s
            },
            ColorError::UnknownVariant { token } => {
                let mut s = String::from_str("unrecognized color variant '");
                s.append(token.as_str());
                s.append("'; expected rgb, hsv, hsv360, or a number");
                s
            },
            ColorError::InvalidNumber { token } => {
                let mut s = String::from_str("invalid number '");
                s.append(token.as_str());
                s.append("'");
                s
            },
            ColorError::WrongVariant { expected, actual } => {
                let mut s = String::from_str("expected a ");
                s.append(kind_name(*expected));
                s.append(" color, found ");
                s.append(kind_name(*actual));
                s
            },
        }
    }
}

/// An integer literal is no tag and is itself a fixed-point literal.
proof fn lemma_int_literal_token(t: Seq<char>)
    requires
        is_int_literal(t),
    ensures
        t != "rgb"@,
        t != "hsv"@,
        t != "hsv360"@,
        is_fixed_literal(t),
{
    reveal_strlit("rgb");
    reveal_strlit("hsv");
    reveal_strlit("hsv360");
    if t == "rgb"@ {
        assert(t[0] == 'r');
        assert(is_digit(t[0]));
        assert(false);
    }
    if t == "hsv"@ {
        assert(t[0] == 'h');
        assert(is_digit(t[0]));
        assert(false);
    }
    if t == "hsv360"@ {
        assert(t[0] == 'h');
        assert(is_digit(t[0]));
        assert(false);
    }
    if crate::fixed::dot_pos(t) >= 0 {
        crate::fixed::lemma_dot_pos_found(t);
        assert(is_digit(t[crate::fixed::dot_pos(t)]));
        assert(false);
    }
    assert(is_digit(t[0]));
    assert(t[0] != '-');
    assert(crate::fixed::fixed_body(t) == t);
}

/// A fixed-point text is no tag: it is at least eight characters long.
proof fn lemma_fixed_text_token(m: int)
    requires
        -(FIXED_MAX as int) <= m <= FIXED_MAX as int,
    ensures
        fixed_text(m) != "rgb"@,
        fixed_text(m) != "hsv"@,
        fixed_text(m) != "hsv360"@,
        is_fixed_literal(fixed_text(m)),
        !is_int_literal(fixed_text(m)),
        fixed_val(fixed_text(m)) == m,
{
    reveal_strlit("rgb");
    reveal_strlit("hsv");
    reveal_strlit("hsv360");
    lemma_fixed_text_parse(m);
}

/// Round-trip: decoding what a color encodes to gives the color back,
/// exactly, for every valid color value — the float channels included,
/// since the six-digit fixed-point text is parsed without loss.
pub proof fn lemma_color_round_trip(c: Color)
    requires
        c.wf(),
    ensures
        spec_decode(spec_encode(c)) == Ok::<Color, ColorErrorView>(c),
{
    reveal_strlit("rgb");
    reveal_strlit("hsv");
    reveal_strlit("hsv360");
    let ts = spec_encode(c);
    match c {
        Color::RgbInt(x) => {
            lemma_uint_digits_val(x.red as nat);
            lemma_uint_digits_val(x.green as nat);
            lemma_uint_digits_val(x.blue as nat);
            lemma_int_literal_token(uint_digits(x.red as nat));
            lemma_int_literal_token(uint_digits(x.green as nat));
            lemma_int_literal_token(uint_digits(x.blue as nat));
        },
        Color::RgbFloat(x) => {
            lemma_fixed_text_token(x.red.micros as int);
            lemma_fixed_text_token(x.green.micros as int);
            lemma_fixed_text_token(x.blue.micros as int);
        },
        Color::HsvInt(x) => {
            assert(ts[0] == "hsv360"@);
            assert("hsv360"@ != "rgb"@);
            assert("hsv360"@ != "hsv"@);
            lemma_uint_digits_val(x.hue as nat);
            lemma_uint_digits_val(x.saturation as nat);
            lemma_uint_digits_val(x.value as nat);
        },
        Color::HsvFloat(x) => {
            assert(ts[0] == "hsv"@);
            assert("hsv"@ != "rgb"@);
            lemma_fixed_text_token(x.hue.micros as int);
            lemma_fixed_text_token(x.saturation.micros as int);
            lemma_fixed_text_token(x.value.micros as int);
        },
    }
}

impl HsvIntColor {
    /// Extracts the integer-HSV variant, reporting any other variant as a
    /// wrong-variant error.
    pub fn from_color(c: &Color) -> (r: Result<HsvIntColor, ColorError>)
        ensures
            match r {
                Ok(x) => *c == Color::HsvInt(x),
                Err(e) => !(c is HsvInt) && e@ == (ColorErrorView::WrongVariant {
                    expected: ColorKind::HsvInt,
                    actual: c.spec_kind(),
                }),
            },
    {
        match c {
            Color::HsvInt(x) => Ok(*x),
            _ => Err(
                ColorError::WrongVariant { expected: ColorKind::HsvInt, actual: c.kind() },
            ),
        }
    }
}

impl HsvFloatColor {
    /// Extracts the float-HSV variant, reporting any other variant as a
    /// wrong-variant error.
    pub fn from_color(c: &Color) -> (r: Result<HsvFloatColor, ColorError>)
        ensures
            match r {
                Ok(x) => *c == Color::HsvFloat(x),
                Err(e) => !(c is HsvFloat) && e@ == (ColorErrorView::WrongVariant {
                    expected: ColorKind::HsvFloat,
                    actual: c.spec_kind(),
                }),
            },
    {
        match c {
            Color::HsvFloat(x) => Ok(*x),
            _ => Err(
                ColorError::WrongVariant { expected: ColorKind::HsvFloat, actual: c.kind() },
            ),
        }
    }
}

} // verus!

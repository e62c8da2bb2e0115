//! Data model and text codec for a grand-strategy game's moddable data files.
//!
//! The heart of the crate is the polymorphic [`color::Color`] value: a color
//! may appear in a data file as a bare RGB triple, a tagged RGB triple, a
//! tagged integer HSV triple, or a tagged float HSV triple. This crate parses
//! such a value out of a token sequence, serializes it back, and converts
//! between the color representations. Around it stand the plain record types
//! of the data files (identifiers, country tiers and types, states, pops).
//!
//! Fractional channel values are held as fixed-point numbers with six decimal
//! places ([`fixed::Fixed`]), which makes every codec step exact and lets the
//! round-trip guarantees be stated and proved without tolerance.

pub mod alert;
pub mod color;
pub mod country;
pub mod convert;
pub mod fixed;
pub mod ident;
pub mod numeric;
pub mod state;
pub mod storage;
pub mod text;

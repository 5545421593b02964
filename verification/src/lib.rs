//! Two reduced-precision 8-bit floating-point encodings: a 1-4-3 layout
//! (sign, 4 exponent bits, 3 mantissa bits, bias 7) and a 1-5-2 layout
//! (sign, 5 exponent bits, 2 mantissa bits, bias 15). Each value is a single
//! byte, interpreted with IEEE-754-style field semantics: an implicit leading
//! mantissa bit for normal numbers, denormalized numbers when the exponent
//! field is zero, and the maximal exponent+mantissa pattern reserved for NaN
//! (neither format encodes an infinity here).
//!
//! Decoded values are exposed exactly, as integers in units of the smallest
//! positive step of each format, so that decoding and the 1-4-3 addition can
//! be specified and checked without floating-point arithmetic. Conversion to
//! a 32-bit float is a pass-through scaling left to surrounding numeric code.

pub mod binade;
pub mod fp8_i;
pub mod fp8_t;

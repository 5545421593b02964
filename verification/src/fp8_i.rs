//! The 1-4-3 format: sign bit 7, exponent field bits 6-3 (bias 7), mantissa
//! field bits 2-0. The exponent field 0 selects zero / denormalized values,
//! and the maximal pattern (exponent 15, mantissa 7) is reserved for NaN, so
//! the format has no infinity. Every finite value is an integer multiple of
//! `2^-9` (the smallest positive denormalized step); decoding is therefore
//! exposed exactly through [`E4M3::scaled_value`], in units of `2^-9`.

use crate::binade::lemma_log2_bounds;
use crate::binade::lemma_log2_unique;
use crate::binade::lemma_round_even_props;
use crate::binade::log2;
use crate::binade::round_even;
use vstd::arithmetic::div_mod::lemma_div_is_ordered;
use vstd::arithmetic::div_mod::lemma_div_multiples_vanish;
use vstd::arithmetic::div_mod::lemma_fundamental_div_mod;
use vstd::arithmetic::div_mod::lemma_mod_division_less_than_divisor;
use vstd::arithmetic::div_mod::lemma_mod_multiples_basic;
use vstd::arithmetic::div_mod::lemma_multiply_divide_lt;
use vstd::arithmetic::power2::lemma2_to64;
use vstd::arithmetic::power2::lemma_pow2_adds;
use vstd::arithmetic::power2::lemma_pow2_pos;
use vstd::arithmetic::power2::lemma_pow2_strictly_increases;
use vstd::arithmetic::power2::lemma_pow2_unfold;
use vstd::arithmetic::power2::pow2;
use vstd::prelude::*;

verus! {

/// Sign MASK
pub const SMASK: u8 = 0x80;
pub const SOFFSET: u8 = 7;
/// Exp MASK
pub const EMASK: u8 = 0x78;
pub const EOFFSET: u8 = 3;
pub const EBIAS: u8 = 7;
/// Mantissa MASK
pub const MMASK: u8 = 0x07;

pub const ZERO: u8 = 0x00;
pub const NEG_ZERO: u8 = 0x80;
pub const NAN: u8 = 0xFF;
pub const NEG_NAN: u8 = 0x7F;

/// The sign bit of a 1-4-3 byte (bit 7).
pub open spec fn sign_field(b: u8) -> u8 {
    b >> 7
}

/// The exponent field of a 1-4-3 byte (bits 6-3).
pub open spec fn exp_field(b: u8) -> u8 {
    (b >> 3) & 0xF
}

/// The mantissa field of a 1-4-3 byte (bits 2-0).
pub open spec fn mantissa_field(b: u8) -> u8 {
    b & 0x07
}

pub open spec fn is_zero_byte(b: u8) -> bool {
    b == ZERO
}

pub open spec fn is_neg_zero_byte(b: u8) -> bool {
    b == NEG_ZERO
}

pub open spec fn is_nan_byte(b: u8) -> bool {
    b == NAN || b == NEG_NAN
}

pub open spec fn is_subnormal_byte(b: u8) -> bool {
    exp_field(b) == 0 && mantissa_field(b) != 0
}

/// The ranges of the three fields, and how they recompose into the byte.
pub proof fn lemma_field_bounds(b: u8)
    ensures
        sign_field(b) <= 1,
        exp_field(b) <= 15,
        mantissa_field(b) <= 7,
        b == 128 * sign_field(b) + 8 * exp_field(b) + mantissa_field(b),
{
    assert(b >> 7 <= 1 && (b >> 3) & 0xF <= 15 && b & 0x07 <= 7 && b == 128 * (b >> 7) + 8 * ((
    b >> 3) & 0xF) + (b & 0x07)) by (bit_vector);
}

/// Packing fields back into a byte inverts the field extraction.
pub proof fn lemma_byte_from_fields(s: u8, e: u8, m: u8)
    requires
        s <= 1,
        e <= 15,
        m <= 7,
    ensures
        sign_field((128 * s + 8 * e + m) as u8) == s,
        exp_field((128 * s + 8 * e + m) as u8) == e,
        mantissa_field((128 * s + 8 * e + m) as u8) == m,
{
    assert(s <= 1 && e <= 15 && m <= 7 ==> ((128 * s + 8 * e + m) as u8) >> 7 == s && (((128 * s
        + 8 * e + m) as u8) >> 3) & 0xF == e && ((128 * s + 8 * e + m) as u8) & 0x07 == m)
        by (bit_vector);
}

/// A byte is one of the two NaN encodings exactly when both the exponent and
/// the mantissa field are all ones, whatever the sign bit.
pub proof fn lemma_nan_is_max_fields(b: u8)
    ensures
        is_nan_byte(b) <==> (exp_field(b) == 15 && mantissa_field(b) == 7),
{
    assert((b == 0xFF || b == 0x7F) <==> ((b >> 3) & 0xF == 15 && b & 0x07 == 7)) by (bit_vector);
}

/// The decoded value of a finite 1-4-3 byte, exactly, in units of `2^-9`
/// (the smallest positive denormalized step). A denormalized byte (exponent
/// field 0) is worth `mantissa / 8 * 2^(1 - 7)`, that is `mantissa` steps; a
/// normal byte is worth `(1 + mantissa / 8) * 2^(exponent - 7)`, that is
/// `(8 + mantissa) * 2^(exponent - 1)` steps. Zero and negative zero both
/// decode to 0 steps; the sign bit keeps them apart.
pub open spec fn scaled_of(b: u8) -> int {
    let mag: int = if exp_field(b) == 0 {
        mantissa_field(b) as int
    } else {
        (8 + mantissa_field(b) as int) * pow2((exp_field(b) - 1) as nat)
    };
    if sign_field(b) == 1 {
        -mag
    } else {
        mag
    }
}

/// The magnitude of the decoded value of a finite byte, in units of `2^-9`.
pub open spec fn abs_scaled(b: u8) -> int {
    if scaled_of(b) < 0 {
        -scaled_of(b)
    } else {
        scaled_of(b)
    }
}

/// The largest finite magnitude, in units of `2^-9`: the byte with exponent
/// field 15 and mantissa field 6 is worth `(8 + 6) * 2^14` steps (the next
/// pattern up is NaN, since the format has no infinity).
pub const MAX_MAG: u32 = 229376;

/// The spacing, in units of `2^-9`, between consecutive representable 1-4-3
/// magnitudes around a magnitude of `m` steps: one step up to the first
/// normal binade (denormals and exponent field 1 share it), doubling with
/// each binade above it.
pub open spec fn quantum(m: int) -> int
    decreases m,
{
    if m < 16 {
        1
    } else {
        2 * quantum(m / 2)
    }
}

/// A positive magnitude rounded to the nearest representable 1-4-3
/// magnitude, ties to the even mantissa.
pub open spec fn round_mag(m: int) -> int
    recommends
        m >= 1,
{
    round_even(m, quantum(m))
}

/// The 1-4-3 byte with sign bit 0 whose magnitude is `m` steps, for a
/// representable magnitude `m` (between 1 and [`MAX_MAG`], a multiple of
/// `quantum(m)`): below 8 steps the byte is denormalized and the mantissa
/// field holds `m` itself; otherwise the exponent field is `log2(m) - 2`
/// and the mantissa field holds the 3 bits of `m` below its leading bit.
pub open spec fn encode_mag(m: int) -> u8
    recommends
        1 <= m <= MAX_MAG,
{
    if m < 8 {
        m as u8
    } else {
        let j = log2(m);
        (8 * (j - 2) + m / (pow2((j - 3) as nat) as int) - 8) as u8
    }
}

/// The 1-4-3 byte with the given sign bit and a representable magnitude of
/// `m` steps.
pub open spec fn encode(neg: bool, m: int) -> u8
    recommends
        1 <= m <= MAX_MAG,
{
    if neg {
        (encode_mag(m) + 128) as u8
    } else {
        encode_mag(m)
    }
}

/// The sum of two 1-4-3 values, as the format defines it: NaN if either
/// operand is NaN, else the exact sum of the decoded values rounded to the
/// nearest representable magnitude (ties to the even mantissa), NaN again if
/// that magnitude overflows the format, and a zero sum positive unless both
/// operands are negative zero.
pub open spec fn add_spec(a: u8, b: u8) -> u8 {
    if is_nan_byte(a) || is_nan_byte(b) {
        NAN
    } else {
        let s = scaled_of(a) + scaled_of(b);
        if s == 0 {
            if is_neg_zero_byte(a) && is_neg_zero_byte(b) {
                NEG_ZERO
            } else {
                ZERO
            }
        } else {
            let mag = if s < 0 {
                -s
            } else {
                s
            };
            let r = round_mag(mag);
            if r > MAX_MAG {
                NAN
            } else {
                encode(s < 0, r)
            }
        }
    }
}

/// The spacing `quantum` in terms of the binade: one step below 16 steps,
/// `2^(log2(m) - 3)` steps from there up.
pub proof fn lemma_quantum_pow2(m: int)
    requires
        m >= 16,
    ensures
        quantum(m) == pow2((log2(m) - 3) as nat),
        log2(m) >= 4,
    decreases m,
{
    lemma2_to64();
    lemma_log2_bounds(m);
    if log2(m) <= 3 {
        if log2(m) + 1 < 4 {
            lemma_pow2_strictly_increases(log2(m) + 1, 4);
        }
        assert(pow2(log2(m) + 1) <= pow2(4));
        assert(false);
    }
    assert(m / 2 >= 8);
    assert(log2(m) == 1 + log2(m / 2));
    if m / 2 < 16 {
        lemma_log2_bounds(m / 2);
        let l = log2(m / 2);
        if l <= 2 {
            if l + 1 < 3 {
                lemma_pow2_strictly_increases(l + 1, 3);
            }
            assert(pow2(l + 1) <= pow2(3));
            assert(false);
        }
        if l >= 4 {
            if l > 4 {
                lemma_pow2_strictly_increases(4, l);
            }
            assert(pow2(4) <= pow2(l));
            assert(false);
        }
        assert(l == 3);
        assert(quantum(m / 2) == 1);
        assert(quantum(m) == 2);
        assert(pow2((log2(m) - 3) as nat) == pow2(1));
    } else {
        lemma_quantum_pow2(m / 2);
        lemma_pow2_unfold((log2(m) - 3) as nat);
        assert((log2(m) - 3 - 1) as nat == (log2(m / 2) - 3) as nat);
    }
}

/// Rounding a positive magnitude lands on a representable magnitude: a
/// positive multiple of its own spacing.
pub proof fn lemma_round_mag_representable(m: int)
    requires
        1 <= m,
    ensures
        1 <= round_mag(m),
        round_mag(m) % quantum(m) == 0,
        round_mag(m) % quantum(round_mag(m)) == 0,
        m % quantum(m) == 0 ==> round_mag(m) == m,
{
    lemma2_to64();
    let q = quantum(m);
    let r = round_mag(m);
    if m < 16 {
        assert(q == 1);
        lemma_mod_multiples_basic(m, 1);
        lemma_round_even_props(m, 1, m, m + 1);
        lemma_mod_multiples_basic(m + 1, 1);
        assert(r == m);
        assert(quantum(r) == 1);
        lemma_mod_multiples_basic(r, 1);
    } else {
        lemma_quantum_pow2(m);
        let j = log2(m);
        lemma_log2_bounds(m);
        assert(q == pow2((j - 3) as nat));
        lemma_pow2_adds((j - 3) as nat, 3);
        assert(pow2(j) == q * 8);
        lemma_pow2_adds((j - 3) as nat, 4);
        assert(pow2(j + 1) == q * 16);
        lemma_pow2_pos((j - 3) as nat);
        lemma_mod_multiples_basic(8, q);
        lemma_mod_multiples_basic(16, q);
        assert((pow2(j) as int) % q == (8 * q) % q);
        assert((pow2(j + 1) as int) % q == (16 * q) % q);
        lemma_round_even_props(m, q, pow2(j) as int, pow2(j + 1) as int);
        assert(pow2(j) <= r <= pow2(j + 1));
        assert(r >= 16);
        if r < pow2(j + 1) {
            lemma_log2_unique(r, j);
            lemma_quantum_pow2(r);
            assert(quantum(r) == q);
        } else {
            assert(r == pow2(j + 1));
            lemma_pow2_strictly_increases(j + 1, j + 2);
            lemma_log2_unique(r, j + 1);
            lemma_quantum_pow2(r);
            assert(quantum(r) == pow2((j - 2) as nat));
            lemma_pow2_adds((j - 2) as nat, 3);
            lemma_pow2_pos((j - 2) as nat);
            lemma_mod_multiples_basic(8, pow2((j - 2) as nat) as int);
            assert(pow2(j + 1) == pow2((j - 2) as nat) * 8);
            assert(r % quantum(r) == (8 * pow2((j - 2) as nat)) % pow2((j - 2) as nat));
        }
    }
}

/// Encoding a representable magnitude yields a finite byte that decodes back
/// to that magnitude, under the chosen sign bit.
pub proof fn lemma_encode_scaled(neg: bool, r: int)
    requires
        1 <= r <= MAX_MAG,
        r % quantum(r) == 0,
    ensures
        !is_nan_byte(encode(neg, r)),
        sign_field(encode(neg, r)) == if neg { 1u8 } else { 0u8 },
        scaled_of(encode(neg, r)) == if neg { -r } else { r },
{
    lemma2_to64();
    let b = encode(neg, r);
    if r < 8 {
        let m = r as u8;
        assert(encode_mag(r) == m);
        if neg {
            lemma_byte_from_fields(1, 0, m);
            assert(b == (128 + m) as u8);
        } else {
            assert(m >> 7 == 0 && (m >> 3) & 0xF == 0 && m & 0x07 == m) by (bit_vector)
                requires
                    m <= 7,
            ;
        }
        lemma_nan_is_max_fields(b);
    } else {
        let j = log2(r);
        lemma_log2_bounds(r);
        if j <= 2 {
            if j + 1 < 3 {
                lemma_pow2_strictly_increases(j + 1, 3);
            }
            assert(pow2(j + 1) <= pow2(3));
            assert(false);
        }
        if j >= 18 {
            if j > 18 {
                lemma_pow2_strictly_increases(18, j);
            }
            assert(pow2(18) <= pow2(j));
            assert(false);
        }
        let qp = pow2((j - 3) as nat) as int;
        lemma_pow2_pos((j - 3) as nat);
        lemma_pow2_adds((j - 3) as nat, 3);
        assert(pow2(j) == qp * 8);
        lemma_pow2_adds((j - 3) as nat, 4);
        assert(pow2(j + 1) == qp * 16);
        if r < 16 {
            lemma_log2_unique(r, 3);
            assert(j == 3);
            assert(qp == 1);
            lemma_mod_multiples_basic(r, 1);
        } else {
            lemma_quantum_pow2(r);
            assert(quantum(r) == qp);
        }
        assert(r % qp == 0);
        let d = r / qp;
        lemma_fundamental_div_mod(r, qp);
        assert(r == qp * d);
        lemma_div_multiples_vanish(8, qp);
        lemma_div_is_ordered(qp * 8, r, qp);
        assert(d >= 8);
        lemma_multiply_divide_lt(r, qp, 16);
        assert(d < 16);
        let e = (j - 2) as u8;
        let mf = (d - 8) as u8;
        assert(1 <= e <= 15);
        assert(encode_mag(r) == (8 * (j - 2) + d - 8) as u8);
        assert(8 * (j - 2) + d - 8 == 8 * e + mf);
        assert(8 * e + mf <= 127);
        let s: u8 = if neg {
            1
        } else {
            0
        };
        lemma_byte_from_fields(s, e, mf);
        assert(b == (128 * s + 8 * e + mf) as u8);
        assert(sign_field(b) == s);
        assert(exp_field(b) == e);
        assert(mantissa_field(b) == mf);
        lemma_nan_is_max_fields(b);
        if e == 15 && mf == 7 {
            assert(j == 17 && d == 15);
            assert(r == 15 * pow2(14));
            assert(false);
        }
        assert((8 + mf as int) * pow2((e - 1) as nat) == d * qp) by (nonlinear_arith)
            requires
                8 + mf as int == d,
                pow2((e - 1) as nat) == qp,
        ;
        assert(d * qp == qp * d) by (nonlinear_arith);
    }
}

/// Every finite nonzero byte decodes to a representable magnitude, and
/// encoding that magnitude under the byte's own sign bit gives the byte
/// back.
pub proof fn lemma_scaled_roundtrip(b: u8)
    requires
        !is_nan_byte(b),
        scaled_of(b) != 0,
    ensures
        1 <= abs_scaled(b) <= MAX_MAG,
        abs_scaled(b) % quantum(abs_scaled(b)) == 0,
        encode(sign_field(b) == 1, abs_scaled(b)) == b,
        (scaled_of(b) < 0) == (sign_field(b) == 1),
{
    lemma2_to64();
    lemma_field_bounds(b);
    let s = sign_field(b);
    let e = exp_field(b);
    let m = mantissa_field(b);
    let mag = abs_scaled(b);
    if e == 0 {
        assert(mag == m);
        assert(1 <= mag <= 7);
        assert(quantum(mag) == 1);
        lemma_mod_multiples_basic(mag, 1);
        assert(encode_mag(mag) == mag as u8);
        if s == 1 {
            assert(encode(true, mag) == (m + 128) as u8);
            assert(b == 128 * s + 8 * e + m);
        } else {
            assert(b == m);
        }
    } else {
        let p = pow2((e - 1) as nat) as int;
        lemma_pow2_pos((e - 1) as nat);
        assert(mag == (8 + m as int) * p);
        assert(mag >= 8 && mag >= 8 * p) by (nonlinear_arith)
            requires
                mag == (8 + m as int) * p,
                p >= 1,
                m >= 0,
        ;
        lemma_pow2_adds((e - 1) as nat, 3);
        lemma_pow2_adds((e - 1) as nat, 4);
        assert(pow2((e + 2) as nat) == p * 8);
        assert(pow2((e + 3) as nat) == p * 16);
        assert(p * 8 <= mag < p * 16) by (nonlinear_arith)
            requires
                mag == (8 + m as int) * p,
                p >= 1,
                0 <= m <= 7,
        ;
        lemma_log2_unique(mag, (e + 2) as nat);
        let j = log2(mag);
        assert(j == e + 2);
        lemma_nan_is_max_fields(b);
        if ((e - 1) as nat) < 14 {
            lemma_pow2_strictly_increases((e - 1) as nat, 14);
        }
        if m == 7 && ((e - 1) as nat) < 13 {
            lemma_pow2_strictly_increases((e - 1) as nat, 13);
        }
        assert(mag <= 229376) by (nonlinear_arith)
            requires
                mag == (8 + m as int) * p,
                m <= 7,
                p <= pow2(14),
                m == 7 ==> p <= pow2(13),
                pow2(13) == 8192,
                pow2(14) == 16384,
        ;
        if mag < 16 {
            assert(quantum(mag) == 1);
            lemma_mod_multiples_basic(mag, 1);
        } else {
            lemma_quantum_pow2(mag);
            assert(quantum(mag) == pow2(((e + 2) - 3) as nat));
            assert(quantum(mag) == p);
            lemma_mod_multiples_basic(8 + m as int, p);
            assert(mag % p == ((8 + m as int) * p) % p);
        }
        assert(encode_mag(mag) == (8 * (j - 2) + mag / p - 8) as u8);
        assert(p * (8 + m as int) == (8 + m as int) * p) by (nonlinear_arith);
        lemma_div_multiples_vanish(8 + m as int, p);
        assert(mag / p == 8 + m);
        assert(8 * (j - 2) + mag / p - 8 == 8 * e + m);
        assert(encode_mag(mag) == (8 * e + m) as u8);
        if s == 1 {
            assert(encode(true, mag) == (8 * e + m + 128) as u8);
        }
        assert(b == 128 * s + 8 * e + m);
    }
}

/// float 8 for inference, which has sign, exp, mantissa with 1, 4, 3.
#[derive(Clone, Copy, PartialEq, Eq, Structural, Debug)]
pub struct E4M3 {
    data: u8,
}

impl View for E4M3 {
    type V = u8;

    closed spec fn view(&self) -> u8 {
        self.data
    }
}

impl E4M3 {
    /// Create a new fp8 e4m3 from u8
    pub fn new(val: u8) -> (r: Self)
        ensures
            r@ == val,
    {
        E4M3 { data: val }
    }

    /// Create a zero fp8 e4m3
    pub fn zero() -> (r: Self)
        ensures
            r@ == ZERO,
    {
        E4M3 { data: ZERO }
    }

    /// Create a negative zero fp8 e4m3
    pub fn neg_zero() -> (r: Self)
        ensures
            r@ == NEG_ZERO,
    {
        E4M3 { data: NEG_ZERO }
    }

    pub fn nan() -> (r: Self)
        ensures
            r@ == NAN,
            is_nan_byte(r@),
    {
        E4M3 { data: NAN }
    }

    /// The raw byte of the encoding.
    pub fn to_bits(&self) -> (r: u8)
        ensures
            r == self@,
    {
        self.data
    }

    pub fn sign(&self) -> (r: u8)
        ensures
            r == sign_field(self@),
            r <= 1,
    {
        proof {
            let b = self.data;
            assert((b & 0x80) >> 7 == b >> 7 && b >> 7 <= 1) by (bit_vector);
        }
        (self.data & SMASK) >> SOFFSET
    }

    pub fn exp(&self) -> (r: u8)
        ensures
            r == exp_field(self@),
            r <= 15,
    {
        proof {
            let b = self.data;
            assert((b & 0x78) >> 3 == (b >> 3) & 0xF && (b >> 3) & 0xF <= 15) by (bit_vector);
        }
        (self.data & EMASK) >> EOFFSET
    }

    pub fn mantissa(&self) -> (r: u8)
        ensures
            r == mantissa_field(self@),
            r <= 7,
    {
        proof {
            let b = self.data;
            assert(b & 0x07 <= 7) by (bit_vector);
        }
        self.data & MMASK
    }

    pub fn is_subnormal(&self) -> (r: bool)
        ensures
            r == is_subnormal_byte(self@),
    {
        self.exp() == 0 && self.mantissa() != 0
    }

    pub fn is_zero(&self) -> (r: bool)
        ensures
            r == is_zero_byte(self@),
    {
        self.data == ZERO
    }

    pub fn is_neg_zero(&self) -> (r: bool)
        ensures
            r == is_neg_zero_byte(self@),
    {
        self.data == NEG_ZERO
    }

    pub fn is_nan(&self) -> (r: bool)
        ensures
            r == is_nan_byte(self@),
    {
        self.data == NAN || self.data == NEG_NAN
    }

    /// The decoded value in units of `2^-9`, exactly. NaN has no numeric
    /// value, so [`Self::is_nan`] must be consulted first, as it must be
    /// before any decoding of the byte.
    pub fn scaled_value(&self) -> (r: i32)
        requires
            !is_nan_byte(self@),
        ensures
            r == scaled_of(self@),
            -229376 <= r <= 229376,
    {
        let e = self.exp();
        let m = self.mantissa();
        let mag: u32 = if e == 0 {
            m as u32
        } else {
            proof {
                lemma2_to64();
                assert(pow2(0) == 1);
                assert((8 + m) * pow2(0) == 8 + m) by (nonlinear_arith)
                    requires
                        pow2(0) == 1,
                ;
            }
            let mut acc: u32 = 8 + m as u32;
            let mut i: u8 = 1;
            while i < e
                invariant
                    1 <= i <= e,
                    e <= 15,
                    m <= 7,
                    acc == (8 + m) * pow2((i - 1) as nat),
                decreases e - i,
            {
                proof {
                    lemma2_to64();
                    if ((i - 1) as nat) < 13 {
                        lemma_pow2_strictly_increases((i - 1) as nat, 13);
                    }
                    assert((8 + m) * pow2((i - 1) as nat) <= 15 * pow2(13)) by (nonlinear_arith)
                        requires
                            m <= 7,
                            pow2((i - 1) as nat) <= pow2(13),
                            pow2(13) >= 0,
                    ;
                    lemma_pow2_unfold(i as nat);
                    assert((8 + m) * pow2(i as nat) == 2 * ((8 + m) * pow2((i - 1) as nat)))
                        by (nonlinear_arith)
                        requires
                            i >= 1,
                            pow2(i as nat) == 2 * pow2((i - 1) as nat),
                    ;
                }
                acc = acc * 2;
                i = i + 1;
            }
            proof {
                lemma2_to64();
                lemma_nan_is_max_fields(self@);
                if ((e - 1) as nat) < 14 {
                    lemma_pow2_strictly_increases((e - 1) as nat, 14);
                }
                if m == 7 && ((e - 1) as nat) < 13 {
                    lemma_pow2_strictly_increases((e - 1) as nat, 13);
                }
                assert((8 + m) * pow2((e - 1) as nat) <= 229376) by (nonlinear_arith)
                    requires
                        m <= 7,
                        pow2((e - 1) as nat) <= pow2(14),
                        m == 7 ==> pow2((e - 1) as nat) <= pow2(13),
                        pow2(13) == 8192,
                        pow2(14) == 16384,
                ;
            }
            acc
        };
        if self.sign() == 1 {
            -(mag as i32)
        } else {
            mag as i32
        }
    }

    /// The sum of two 1-4-3 values, computed on the byte encodings without
    /// any wider float: NaN operands and an overflowing magnitude yield NaN
    /// (the format has no infinity to overflow into), otherwise the exact sum
    /// is rounded to the nearest representable magnitude, a tie to the even
    /// mantissa, degrading to the denormalized range or to zero below it. A
    /// zero sum is positive unless both operands are negative zero.
    pub fn add(self, rhs: E4M3) -> (r: E4M3)
        ensures
            r@ == add_spec(self@, rhs@),
            is_nan_byte(self@) || is_nan_byte(rhs@) ==> is_nan_byte(r@),
    {
        if self.is_nan() || rhs.is_nan() {
            return E4M3::nan();
        }
        let sa = self.scaled_value();
        let sb = rhs.scaled_value();
        let s = sa + sb;
        if s == 0 {
            if self.is_neg_zero() && rhs.is_neg_zero() {
                return E4M3::neg_zero();
            }
            return E4M3::zero();
        }
        let neg = s < 0;
        let mag: u32 = if neg {
            (-s) as u32
        } else {
            s as u32
        };
        // the spacing of representable magnitudes around the exact magnitude
        let mut q: u32 = 1;
        let mut t: u32 = mag;
        while t >= 16
            invariant
                1 <= t,
                1 <= q,
                q * t <= mag,
                mag <= 458752,
                quantum(mag as int) == q * quantum(t as int),
            decreases t,
        {
            proof {
                lemma_fundamental_div_mod(t as int, 2);
                lemma_mod_division_less_than_divisor(t as int, 2);
                assert(quantum(t as int) == 2 * quantum(t as int / 2));
                assert(q * quantum(t as int) == (2 * q) * quantum(t as int / 2))
                    by (nonlinear_arith)
                    requires
                        quantum(t as int) == 2 * quantum(t as int / 2),
                ;
                assert((2 * q) * ((t as int) / 2) <= q * t) by (nonlinear_arith)
                    requires
                        2 * ((t as int) / 2) <= t,
                        q >= 1,
                ;
                assert(16 * q <= q * t) by (nonlinear_arith)
                    requires
                        t >= 16,
                        q >= 1,
                ;
            }
            t = t / 2;
            q = q * 2;
        }
        proof {
            assert(quantum(t as int) == 1);
            assert(quantum(mag as int) == q);
            assert(q <= q * t) by (nonlinear_arith)
                requires
                    t >= 1,
                    q >= 1,
            ;
        }
        // round to the nearest multiple of the spacing, ties to even
        let rem = mag % q;
        let lo = mag - rem;
        let rr: u32 = if 2 * rem < q {
            lo
        } else if 2 * rem > q {
            lo + q
        } else if (lo / q) % 2 == 0 {
            lo
        } else {
            lo + q
        };
        proof {
            assert(rr == round_even(mag as int, q as int));
            assert(rr == round_mag(mag as int));
        }
        if rr > MAX_MAG {
            return E4M3::nan();
        }
        proof {
            lemma_round_mag_representable(mag as int);
            lemma_encode_scaled(neg, rr as int);
        }
        let sbit: u8 = if neg {
            1
        } else {
            0
        };
        let byte: u8;
        if rr < 8 {
            byte = sbit * 128 + (rr as u8);
            proof {
                assert(encode_mag(rr as int) == rr as u8);
                assert(byte == encode(neg, rr as int));
            }
        } else {
            proof {
                lemma2_to64();
            }
            let mut p: u32 = 8;
            let mut j: u8 = 3;
            while 2 * p <= rr
                invariant
                    3 <= j <= 17,
                    p == pow2(j as nat),
                    p <= rr,
                    8 <= rr <= 229376,
                decreases rr - p,
            {
                proof {
                    lemma2_to64();
                    if j == 17 {
                        assert(false);
                    }
                    lemma_pow2_unfold((j + 1) as nat);
                }
                p = 2 * p;
                j = j + 1;
            }
            proof {
                lemma2_to64();
                lemma_log2_unique(rr as int, j as nat);
                lemma_pow2_adds((j - 3) as nat, 3);
                lemma_pow2_pos((j - 3) as nat);
                lemma_div_multiples_vanish(pow2((j - 3) as nat) as int, 8);
                assert(p == 8 * pow2((j - 3) as nat));
            }
            let p8 = p / 8;
            proof {
                assert(p8 == pow2((j - 3) as nat));
                if rr < 16 {
                    assert(j == 3);
                    lemma_mod_multiples_basic(rr as int, 1);
                } else {
                    lemma_quantum_pow2(rr as int);
                    assert(quantum(rr as int) == p8);
                }
                assert(rr as int % p8 as int == 0);
                lemma_div_multiples_vanish(8, p8 as int);
                lemma_div_is_ordered(8 * p8 as int, rr as int, p8 as int);
                lemma_multiply_divide_lt(rr as int, p8 as int, 16);
                assert(p8 as int * 16 == 16 * p8) by (nonlinear_arith);
            }
            let d = rr / p8;
            proof {
                assert(8 <= d < 16);
            }
            let ef: u8 = j - 2;
            let mf: u8 = (d - 8) as u8;
            byte = sbit * 128 + ef * 8 + mf;
            proof {
                assert(encode_mag(rr as int) == (8 * (j as int - 2) + d - 8) as u8);
                assert(8 * (j as int - 2) + d - 8 == 8 * ef + mf);
                assert(8 * ef + mf <= 127);
                assert(byte == encode(neg, rr as int));
            }
        }
        E4M3::new(byte)
    }
}

/// Zero and negative zero both decode to nothing: 0 steps.
pub proof fn lemma_zero_scaled()
    ensures
        scaled_of(ZERO) == 0,
        scaled_of(NEG_ZERO) == 0,
        !is_nan_byte(ZERO),
        !is_nan_byte(NEG_ZERO),
{
    assert((0x00u8 >> 7) == 0 && (0x00u8 >> 3) & 0xF == 0 && 0x00u8 & 0x07 == 0) by (bit_vector);
    assert((0x80u8 >> 7) == 1 && (0x80u8 >> 3) & 0xF == 0 && 0x80u8 & 0x07 == 0) by (bit_vector);
}

/// Only zero and negative zero decode to 0 steps: every other finite byte
/// has a positive magnitude.
pub proof fn lemma_scaled_zero_only(b: u8)
    requires
        scaled_of(b) == 0,
    ensures
        b == ZERO || b == NEG_ZERO,
{
    lemma_field_bounds(b);
    if exp_field(b) != 0 {
        lemma_pow2_pos((exp_field(b) - 1) as nat);
        assert((8 + mantissa_field(b) as int) * pow2((exp_field(b) - 1) as nat) >= 8)
            by (nonlinear_arith)
            requires
                mantissa_field(b) >= 0,
                pow2((exp_field(b) - 1) as nat) >= 1,
        ;
        assert(false);
    }
    assert(mantissa_field(b) == 0);
    assert(b == 128 * sign_field(b));
}

/// Adding a zero leaves any finite value unchanged, bit for bit; the one
/// exception is negative zero plus positive zero, where the conventional
/// sign rule turns the result positive.
pub proof fn lemma_add_zero_identity(v: u8)
    requires
        !is_nan_byte(v),
    ensures
        add_spec(v, NEG_ZERO) == v,
        v != NEG_ZERO ==> add_spec(v, ZERO) == v,
{
    lemma_zero_scaled();
    let s = scaled_of(v);
    if s == 0 {
        lemma_scaled_zero_only(v);
    } else {
        lemma_scaled_roundtrip(v);
        lemma_round_mag_representable(abs_scaled(v));
    }
}

/// Addition is commutative, down to the bit pattern of the result.
pub proof fn lemma_add_commutes(a: u8, b: u8)
    ensures
        add_spec(a, b) == add_spec(b, a),
{
}

/// Among normal values of equal sign and mantissa, a strictly larger
/// exponent field means a strictly larger decoded magnitude.
pub proof fn lemma_exp_monotonic(a: u8, b: u8)
    requires
        !is_nan_byte(a),
        !is_nan_byte(b),
        exp_field(a) >= 1,
        exp_field(b) >= 1,
        sign_field(a) == sign_field(b),
        mantissa_field(a) == mantissa_field(b),
        exp_field(a) < exp_field(b),
    ensures
        abs_scaled(a) < abs_scaled(b),
{
    let m = mantissa_field(a) as int;
    let pa = pow2((exp_field(a) - 1) as nat) as int;
    let pb = pow2((exp_field(b) - 1) as nat) as int;
    lemma_pow2_pos((exp_field(a) - 1) as nat);
    lemma_pow2_strictly_increases((exp_field(a) - 1) as nat, (exp_field(b) - 1) as nat);
    assert((8 + m) * pa < (8 + m) * pb) by (nonlinear_arith)
        requires
            m >= 0,
            1 <= pa < pb,
    ;
    assert((8 + m) * pa >= 8) by (nonlinear_arith)
        requires
            m >= 0,
            pa >= 1,
    ;
}

} // verus!

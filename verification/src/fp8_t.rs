//! The 1-5-2 format: sign bit 7, exponent field bits 6-2 (bias 15), mantissa
//! field bits 1-0. As in the 1-4-3 format, the exponent field 0 selects zero
//! and denormalized values, and the maximal pattern (exponent 31, mantissa 3)
//! is reserved for NaN. Every finite value is an integer multiple of `2^-16`
//! (the smallest positive denormalized step, `1/4 * 2^(1 - 15)`); decoding is
//! exposed exactly through [`E5M2::scaled_value`], in units of `2^-16`.

use crate::binade::lemma_log2_bounds;
use crate::binade::lemma_log2_unique;
use crate::binade::lemma_round_even_props;
use crate::binade::log2;
use crate::binade::round_even;
use vstd::arithmetic::div_mod::lemma_div_is_ordered;
use vstd::arithmetic::div_mod::lemma_div_multiples_vanish;
use vstd::arithmetic::div_mod::lemma_fundamental_div_mod;
use vstd::arithmetic::div_mod::lemma_mod_division_less_than_divisor;
use vstd::arithmetic::div_mod::lemma_mod_multiples_basic;
use vstd::arithmetic::div_mod::lemma_multiply_divide_lt;
use vstd::arithmetic::power2::lemma2_to64;
use vstd::arithmetic::power2::lemma2_to64_rest;
use vstd::arithmetic::power2::lemma_pow2_adds;
use vstd::arithmetic::power2::lemma_pow2_pos;
use vstd::arithmetic::power2::lemma_pow2_strictly_increases;
use vstd::arithmetic::power2::lemma_pow2_unfold;
use vstd::arithmetic::power2::pow2;
use vstd::prelude::*;

verus! {

/// Sign MASK
pub const SMASK: u8 = 0x80;
pub const SOFFSET: u8 = 7;
/// Exp MASK
pub const EMASK: u8 = 0x7C;
pub const EOFFSET: u8 = 2;
pub const EBIAS: u8 = 15;
/// Mantissa MASK
pub const MMASK: u8 = 0x03;

pub const ZERO: u8 = 0x00;
pub const NEG_ZERO: u8 = 0x80;
pub const NAN: u8 = 0xFF;
pub const NEG_NAN: u8 = 0x7F;

/// The sign bit of a 1-5-2 byte (bit 7).
pub open spec fn sign_field(b: u8) -> u8 {
    b >> 7
}

/// The exponent field of a 1-5-2 byte (bits 6-2).
pub open spec fn exp_field(b: u8) -> u8 {
    (b >> 2) & 0x1F
}

/// The mantissa field of a 1-5-2 byte (bits 1-0).
pub open spec fn mantissa_field(b: u8) -> u8 {
    b & 0x03
}

pub open spec fn is_zero_byte(b: u8) -> bool {
    b == ZERO
}

pub open spec fn is_neg_zero_byte(b: u8) -> bool {
    b == NEG_ZERO
}

pub open spec fn is_nan_byte(b: u8) -> bool {
    b == NAN || b == NEG_NAN
}

pub open spec fn is_subnormal_byte(b: u8) -> bool {
    exp_field(b) == 0 && mantissa_field(b) != 0
}

/// The ranges of the three fields, and how they recompose into the byte.
pub proof fn lemma_field_bounds(b: u8)
    ensures
        sign_field(b) <= 1,
        exp_field(b) <= 31,
        mantissa_field(b) <= 3,
        b == 128 * sign_field(b) + 4 * exp_field(b) + mantissa_field(b),
{
    assert(b >> 7 <= 1 && (b >> 2) & 0x1F <= 31 && b & 0x03 <= 3 && b == 128 * (b >> 7) + 4 * ((
    b >> 2) & 0x1F) + (b & 0x03)) by (bit_vector);
}

/// Packing fields back into a byte inverts the field extraction.
pub proof fn lemma_byte_from_fields(s: u8, e: u8, m: u8)
    requires
        s <= 1,
        e <= 31,
        m <= 3,
    ensures
        sign_field((128 * s + 4 * e + m) as u8) == s,
        exp_field((128 * s + 4 * e + m) as u8) == e,
        mantissa_field((128 * s + 4 * e + m) as u8) == m,
{
    assert(s <= 1 && e <= 31 && m <= 3 ==> ((128 * s + 4 * e + m) as u8) >> 7 == s && (((128 * s
        + 4 * e + m) as u8) >> 2) & 0x1F == e && ((128 * s + 4 * e + m) as u8) & 0x03 == m)
        by (bit_vector);
}

/// A byte is one of the two NaN encodings exactly when both the exponent and
/// the mantissa field are all ones, whatever the sign bit.
pub proof fn lemma_nan_is_max_fields(b: u8)
    ensures
        is_nan_byte(b) <==> (exp_field(b) == 31 && mantissa_field(b) == 3),
{
    assert((b == 0xFF || b == 0x7F) <==> ((b >> 2) & 0x1F == 31 && b & 0x03 == 3)) by (bit_vector);
}

/// The decoded value of a finite 1-5-2 byte, exactly, in units of `2^-16`.
/// A denormalized byte (exponent field 0) is worth `mantissa / 4 * 2^(1 - 15)`,
/// that is `mantissa` steps; a normal byte is worth
/// `(1 + mantissa / 4) * 2^(exponent - 15)`, that is
/// `(4 + mantissa) * 2^(exponent - 1)` steps.
pub open spec fn scaled_of(b: u8) -> int {
    let mag: int = if exp_field(b) == 0 {
        mantissa_field(b) as int
    } else {
        (4 + mantissa_field(b) as int) * pow2((exp_field(b) - 1) as nat)
    };
    if sign_field(b) == 1 {
        -mag
    } else {
        mag
    }
}

/// The magnitude of the decoded value of a finite byte, in units of `2^-16`.
pub open spec fn abs_scaled(b: u8) -> int {
    if scaled_of(b) < 0 {
        -scaled_of(b)
    } else {
        scaled_of(b)
    }
}

/// The largest finite magnitude, in units of `2^-16`: the byte with exponent
/// field 31 and mantissa field 2 is worth `(4 + 2) * 2^30` steps (the next
/// pattern up is NaN, since the format has no infinity).
pub const MAX_MAG: u64 = 6442450944;

/// The spacing, in units of `2^-16`, between consecutive representable 1-5-2
/// magnitudes around a magnitude of `m` steps: one step up to the first
/// normal binade (denormals and exponent field 1 share it), doubling with
/// each binade above it.
pub open spec fn quantum(m: int) -> int
    decreases m,
{
    if m < 8 {
        1
    } else {
        2 * quantum(m / 2)
    }
}

/// A positive magnitude rounded to the nearest representable 1-5-2
/// magnitude, ties to the even mantissa.
pub open spec fn round_mag(m: int) -> int
    recommends
        m >= 1,
{
    round_even(m, quantum(m))
}

/// The 1-5-2 byte with sign bit 0 whose magnitude is `m` steps, for a
/// representable magnitude `m` (between 1 and [`MAX_MAG`], a multiple of
/// `quantum(m)`): below 4 steps the byte is denormalized and the mantissa
/// field holds `m` itself; otherwise the exponent field is `log2(m) - 1`
/// and the mantissa field holds the 2 bits of `m` below its leading bit.
pub open spec fn encode_mag(m: int) -> u8
    recommends
        1 <= m <= MAX_MAG,
{
    if m < 4 {
        m as u8
    } else {
        let j = log2(m);
        (4 * (j - 1) + m / (pow2((j - 2) as nat) as int) - 4) as u8
    }
}

/// The 1-5-2 byte with the given sign bit and a representable magnitude of
/// `m` steps.
pub open spec fn encode(neg: bool, m: int) -> u8
    recommends
        1 <= m <= MAX_MAG,
{
    if neg {
        (encode_mag(m) + 128) as u8
    } else {
        encode_mag(m)
    }
}

/// The sum of two 1-5-2 values, as the format defines it: NaN if either
/// operand is NaN, else the exact sum of the decoded values rounded to the
/// nearest representable magnitude (ties to the even mantissa), NaN again if
/// that magnitude overflows the format, and a zero sum positive unless both
/// operands are negative zero.
pub open spec fn add_spec(a: u8, b: u8) -> u8 {
    if is_nan_byte(a) || is_nan_byte(b) {
        NAN
    } else {
        let s = scaled_of(a) + scaled_of(b);
        if s == 0 {
            if is_neg_zero_byte(a) && is_neg_zero_byte(b) {
                NEG_ZERO
            } else {
                ZERO
            }
        } else {
            let mag = if s < 0 {
                -s
            } else {
                s
            };
            let r = round_mag(mag);
            if r > MAX_MAG {
                NAN
            } else {
                encode(s < 0, r)
            }
        }
    }
}

/// The spacing `quantum` in terms of the binade: one step below 8 steps,
/// `2^(log2(m) - 2)` steps from there up.
pub proof fn lemma_quantum_pow2(m: int)
    requires
        m >= 8,
    ensures
        quantum(m) == pow2((log2(m) - 2) as nat),
        log2(m) >= 3,
    decreases m,
{
    lemma2_to64();
    lemma_log2_bounds(m);
    if log2(m) <= 2 {
        if log2(m) + 1 < 3 {
            lemma_pow2_strictly_increases(log2(m) + 1, 3);
        }
        assert(pow2(log2(m) + 1) <= pow2(3));
        assert(false);
    }
    assert(m / 2 >= 4);
    assert(log2(m) == 1 + log2(m / 2));
    if m / 2 < 8 {
        lemma_log2_bounds(m / 2);
        let l = log2(m / 2);
        if l <= 1 {
            if l + 1 < 2 {
                lemma_pow2_strictly_increases(l + 1, 2);
            }
            assert(pow2(l + 1) <= pow2(2));
            assert(false);
        }
        if l >= 3 {
            if l > 3 {
                lemma_pow2_strictly_increases(3, l);
            }
            assert(pow2(3) <= pow2(l));
            assert(false);
        }
        assert(l == 2);
        assert(quantum(m / 2) == 1);
        assert(quantum(m) == 2);
        assert(pow2((log2(m) - 2) as nat) == pow2(1));
    } else {
        lemma_quantum_pow2(m / 2);
        lemma_pow2_unfold((log2(m) - 2) as nat);
        assert((log2(m) - 2 - 1) as nat == (log2(m / 2) - 2) as nat);
    }
}

/// Rounding a positive magnitude lands on a representable magnitude: a
/// positive multiple of its own spacing.
pub proof fn lemma_round_mag_representable(m: int)
    requires
        1 <= m,
    ensures
        1 <= round_mag(m),
        round_mag(m) % quantum(m) == 0,
        round_mag(m) % quantum(round_mag(m)) == 0,
        m % quantum(m) == 0 ==> round_mag(m) == m,
{
    lemma2_to64();
    let q = quantum(m);
    let r = round_mag(m);
    if m < 8 {
        assert(q == 1);
        lemma_mod_multiples_basic(m, 1);
        lemma_round_even_props(m, 1, m, m + 1);
        lemma_mod_multiples_basic(m + 1, 1);
        assert(r == m);
        assert(quantum(r) == 1);
        lemma_mod_multiples_basic(r, 1);
    } else {
        lemma_quantum_pow2(m);
        let j = log2(m);
        lemma_log2_bounds(m);
        assert(q == pow2((j - 2) as nat));
        lemma_pow2_adds((j - 2) as nat, 2);
        assert(pow2(j) == q * 4);
        lemma_pow2_adds((j - 2) as nat, 3);
        assert(pow2(j + 1) == q * 8);
        lemma_pow2_pos((j - 2) as nat);
        lemma_mod_multiples_basic(4, q);
        lemma_mod_multiples_basic(8, q);
        assert((pow2(j) as int) % q == (4 * q) % q);
        assert((pow2(j + 1) as int) % q == (8 * q) % q);
        lemma_round_even_props(m, q, pow2(j) as int, pow2(j + 1) as int);
        assert(pow2(j) <= r <= pow2(j + 1));
        assert(r >= 8);
        if r < pow2(j + 1) {
            lemma_log2_unique(r, j);
            lemma_quantum_pow2(r);
            assert(quantum(r) == q);
        } else {
            assert(r == pow2(j + 1));
            lemma_pow2_strictly_increases(j + 1, j + 2);
            lemma_log2_unique(r, j + 1);
            lemma_quantum_pow2(r);
            assert(quantum(r) == pow2((j - 1) as nat));
            lemma_pow2_adds((j - 1) as nat, 2);
            lemma_pow2_pos((j - 1) as nat);
            lemma_mod_multiples_basic(4, pow2((j - 1) as nat) as int);
            assert(pow2(j + 1) == pow2((j - 1) as nat) * 4);
            assert(r % quantum(r) == (4 * pow2((j - 1) as nat)) % pow2((j - 1) as nat));
        }
    }
}

/// Encoding a representable magnitude yields a finite byte that decodes back
/// to that magnitude, under the chosen sign bit.
pub proof fn lemma_encode_scaled(neg: bool, r: int)
    requires
        1 <= r <= MAX_MAG,
        r % quantum(r) == 0,
    ensures
        !is_nan_byte(encode(neg, r)),
        sign_field(encode(neg, r)) == if neg { 1u8 } else { 0u8 },
        scaled_of(encode(neg, r)) == if neg { -r } else { r },
{
    lemma2_to64();
    lemma2_to64_rest();
    let b = encode(neg, r);
    if r < 4 {
        let m = r as u8;
        assert(encode_mag(r) == m);
        if neg {
            lemma_byte_from_fields(1, 0, m);
            assert(b == (128 + m) as u8);
        } else {
            assert(m >> 7 == 0 && (m >> 2) & 0x1F == 0 && m & 0x03 == m) by (bit_vector)
                requires
                    m <= 3,
            ;
        }
        lemma_nan_is_max_fields(b);
    } else {
        let j = log2(r);
        lemma_log2_bounds(r);
        if j <= 1 {
            if j + 1 < 2 {
                lemma_pow2_strictly_increases(j + 1, 2);
            }
            assert(pow2(j + 1) <= pow2(2));
            assert(false);
        }
        if j >= 33 {
            if j > 33 {
                lemma_pow2_strictly_increases(33, j);
            }
            assert(pow2(33) <= pow2(j));
            assert(false);
        }
        let qp = pow2((j - 2) as nat) as int;
        lemma_pow2_pos((j - 2) as nat);
        lemma_pow2_adds((j - 2) as nat, 2);
        assert(pow2(j) == qp * 4);
        lemma_pow2_adds((j - 2) as nat, 3);
        assert(pow2(j + 1) == qp * 8);
        if r < 8 {
            lemma_log2_unique(r, 2);
            assert(j == 2);
            assert(qp == 1);
            lemma_mod_multiples_basic(r, 1);
        } else {
            lemma_quantum_pow2(r);
            assert(quantum(r) == qp);
        }
        assert(r % qp == 0);
        let d = r / qp;
        lemma_fundamental_div_mod(r, qp);
        assert(r == qp * d);
        lemma_div_multiples_vanish(4, qp);
        lemma_div_is_ordered(qp * 4, r, qp);
        assert(d >= 4);
        lemma_multiply_divide_lt(r, qp, 8);
        assert(d < 8);
        let e = (j - 1) as u8;
        let mf = (d - 4) as u8;
        assert(1 <= e <= 31);
        assert(encode_mag(r) == (4 * (j - 1) + d - 4) as u8);
        assert(4 * (j - 1) + d - 4 == 4 * e + mf);
        assert(4 * e + mf <= 127);
        let s: u8 = if neg {
            1
        } else {
            0
        };
        lemma_byte_from_fields(s, e, mf);
        assert(b == (128 * s + 4 * e + mf) as u8);
        assert(sign_field(b) == s);
        assert(exp_field(b) == e);
        assert(mantissa_field(b) == mf);
        lemma_nan_is_max_fields(b);
        if e == 31 && mf == 3 {
            assert(j == 32 && d == 7);
            assert(r == 7 * pow2(30));
            assert(false);
        }
        assert((4 + mf as int) * pow2((e - 1) as nat) == d * qp) by (nonlinear_arith)
            requires
                4 + mf as int == d,
                pow2((e - 1) as nat) == qp,
        ;
        assert(d * qp == qp * d) by (nonlinear_arith);
    }
}

/// Every finite nonzero byte decodes to a representable magnitude, and
/// encoding that magnitude under the byte's own sign bit gives the byte
/// back.
pub proof fn lemma_scaled_roundtrip(b: u8)
    requires
        !is_nan_byte(b),
        scaled_of(b) != 0,
    ensures
        1 <= abs_scaled(b) <= MAX_MAG,
        abs_scaled(b) % quantum(abs_scaled(b)) == 0,
        encode(sign_field(b) == 1, abs_scaled(b)) == b,
        (scaled_of(b) < 0) == (sign_field(b) == 1),
{
    lemma2_to64();
    lemma_field_bounds(b);
    let s = sign_field(b);
    let e = exp_field(b);
    let m = mantissa_field(b);
    let mag = abs_scaled(b);
    if e == 0 {
        assert(mag == m);
        assert(1 <= mag <= 3);
        assert(quantum(mag) == 1);
        lemma_mod_multiples_basic(mag, 1);
        assert(encode_mag(mag) == mag as u8);
        if s == 1 {
            assert(encode(true, mag) == (m + 128) as u8);
            assert(b == 128 * s + 4 * e + m);
        } else {
            assert(b == m);
        }
    } else {
        let p = pow2((e - 1) as nat) as int;
        lemma_pow2_pos((e - 1) as nat);
        assert(mag == (4 + m as int) * p);
        assert(mag >= 4 && mag >= 4 * p) by (nonlinear_arith)
            requires
                mag == (4 + m as int) * p,
                p >= 1,
                m >= 0,
        ;
        lemma_pow2_adds((e - 1) as nat, 2);
        lemma_pow2_adds((e - 1) as nat, 3);
        assert(pow2((e + 1) as nat) == p * 4);
        assert(pow2((e + 2) as nat) == p * 8);
        assert(p * 4 <= mag < p * 8) by (nonlinear_arith)
            requires
                mag == (4 + m as int) * p,
                p >= 1,
                0 <= m <= 3,
        ;
        lemma_log2_unique(mag, (e + 1) as nat);
        let j = log2(mag);
        assert(j == e + 1);
        lemma_nan_is_max_fields(b);
        if ((e - 1) as nat) < 30 {
            lemma_pow2_strictly_increases((e - 1) as nat, 30);
        }
        if m == 3 && ((e - 1) as nat) < 29 {
            lemma_pow2_strictly_increases((e - 1) as nat, 29);
        }
        assert(mag <= 6442450944) by (nonlinear_arith)
            requires
                mag == (4 + m as int) * p,
                m <= 3,
                p <= pow2(30),
                m == 3 ==> p <= pow2(29),
                pow2(29) == 0x20000000,
                pow2(30) == 0x40000000,
        ;
        if mag < 8 {
            assert(quantum(mag) == 1);
            lemma_mod_multiples_basic(mag, 1);
        } else {
            lemma_quantum_pow2(mag);
            assert(quantum(mag) == pow2(((e + 1) - 2) as nat));
            assert(quantum(mag) == p);
            lemma_mod_multiples_basic(4 + m as int, p);
            assert(mag % p == ((4 + m as int) * p) % p);
        }
        assert(encode_mag(mag) == (4 * (j - 1) + mag / p - 4) as u8);
        assert(p * (4 + m as int) == (4 + m as int) * p) by (nonlinear_arith);
        lemma_div_multiples_vanish(4 + m as int, p);
        assert(mag / p == 4 + m);
        assert(4 * (j - 1) + mag / p - 4 == 4 * e + m);
        assert(encode_mag(mag) == (4 * e + m) as u8);
        if s == 1 {
            assert(encode(true, mag) == (4 * e + m + 128) as u8);
        }
        assert(b == 128 * s + 4 * e + m);
    }
}

/// float 8 for inference, which has sign, exp, mantissa with 1, 5, 2.
#[derive(Clone, Copy, PartialEq, Eq, Structural, Debug)]
pub struct E5M2 {
    data: u8,
}

impl View for E5M2 {
    type V = u8;

    closed spec fn view(&self) -> u8 {
        self.data
    }
}

impl E5M2 {
    /// Create a new fp8 e5m2 from u8
    pub fn new(val: u8) -> (r: Self)
        ensures
            r@ == val,
    {
        E5M2 { data: val }
    }

    /// Create a zero fp8 e5m2
    pub fn zero() -> (r: Self)
        ensures
            r@ == ZERO,
    {
        E5M2 { data: ZERO }
    }

    /// Create a negative zero fp8 e5m2
    pub fn neg_zero() -> (r: Self)
        ensures
            r@ == NEG_ZERO,
    {
        E5M2 { data: NEG_ZERO }
    }

    pub fn nan() -> (r: Self)
        ensures
            r@ == NAN,
            is_nan_byte(r@),
    {
        E5M2 { data: NAN }
    }

    /// The raw byte of the encoding.
    pub fn to_bits(&self) -> (r: u8)
        ensures
            r == self@,
    {
        self.data
    }

    pub fn sign(&self) -> (r: u8)
        ensures
            r == sign_field(self@),
            r <= 1,
    {
        proof {
            let b = self.data;
            assert((b & 0x80) >> 7 == b >> 7 && b >> 7 <= 1) by (bit_vector);
        }
        (self.data & SMASK) >> SOFFSET
    }

    pub fn exp(&self) -> (r: u8)
        ensures
            r == exp_field(self@),
            r <= 31,
    {
        proof {
            let b = self.data;
            assert((b & 0x7C) >> 2 == (b >> 2) & 0x1F && (b >> 2) & 0x1F <= 31) by (bit_vector);
        }
        (self.data & EMASK) >> EOFFSET
    }

    pub fn mantissa(&self) -> (r: u8)
        ensures
            r == mantissa_field(self@),
            r <= 3,
    {
        proof {
            let b = self.data;
            assert(b & 0x03 <= 3) by (bit_vector);
        }
        self.data & MMASK
    }

    pub fn is_subnormal(&self) -> (r: bool)
        ensures
            r == is_subnormal_byte(self@),
    {
        self.exp() == 0 && self.mantissa() != 0
    }

    pub fn is_zero(&self) -> (r: bool)
        ensures
            r == is_zero_byte(self@),
    {
        self.data == ZERO
    }

    pub fn is_neg_zero(&self) -> (r: bool)
        ensures
            r == is_neg_zero_byte(self@),
    {
        self.data == NEG_ZERO
    }

    pub fn is_nan(&self) -> (r: bool)
        ensures
            r == is_nan_byte(self@),
    {
        self.data == NAN || self.data == NEG_NAN
    }

    /// The decoded value in units of `2^-16`, exactly. NaN has no numeric
    /// value, so [`Self::is_nan`] must be consulted first, as it must be
    /// before any decoding of the byte.
    pub fn scaled_value(&self) -> (r: i64)
        requires
            !is_nan_byte(self@),
        ensures
            r == scaled_of(self@),
            -6442450944 <= r <= 6442450944,
    {
        let e = self.exp();
        let m = self.mantissa();
        let mag: u64 = if e == 0 {
            m as u64
        } else {
            proof {
                lemma2_to64();
                assert(pow2(0) == 1);
                assert((4 + m) * pow2(0) == 4 + m) by (nonlinear_arith)
                    requires
                        pow2(0) == 1,
                ;
            }
            let mut acc: u64 = 4 + m as u64;
            let mut i: u8 = 1;
            while i < e
                invariant
                    1 <= i <= e,
                    e <= 31,
                    m <= 3,
                    acc == (4 + m) * pow2((i - 1) as nat),
                decreases e - i,
            {
                proof {
                    lemma2_to64();
                    if ((i - 1) as nat) < 29 {
                        lemma_pow2_strictly_increases((i - 1) as nat, 29);
                    }
                    assert((4 + m) * pow2((i - 1) as nat) <= 7 * pow2(29)) by (nonlinear_arith)
                        requires
                            m <= 3,
                            pow2((i - 1) as nat) <= pow2(29),
                            pow2(29) >= 0,
                    ;
                    lemma_pow2_unfold(i as nat);
                    assert((4 + m) * pow2(i as nat) == 2 * ((4 + m) * pow2((i - 1) as nat)))
                        by (nonlinear_arith)
                        requires
                            i >= 1,
                            pow2(i as nat) == 2 * pow2((i - 1) as nat),
                    ;
                }
                acc = acc * 2;
                i = i + 1;
            }
            proof {
                lemma2_to64();
                lemma_nan_is_max_fields(self@);
                if ((e - 1) as nat) < 30 {
                    lemma_pow2_strictly_increases((e - 1) as nat, 30);
                }
                if m == 3 && ((e - 1) as nat) < 29 {
                    lemma_pow2_strictly_increases((e - 1) as nat, 29);
                }
                assert((4 + m) * pow2((e - 1) as nat) <= 6442450944) by (nonlinear_arith)
                    requires
                        m <= 3,
                        pow2((e - 1) as nat) <= pow2(30),
                        m == 3 ==> pow2((e - 1) as nat) <= pow2(29),
                        pow2(29) == 0x20000000,
                        pow2(30) == 0x40000000,
                ;
            }
            acc
        };
        if self.sign() == 1 {
            -(mag as i64)
        } else {
            mag as i64
        }
    }

    /// The sum of two 1-5-2 values, computed on the byte encodings without
    /// any wider float: NaN operands and an overflowing magnitude yield NaN
    /// (the format has no infinity to overflow into), otherwise the exact sum
    /// is rounded to the nearest representable magnitude, a tie to the even
    /// mantissa, degrading to the denormalized range or to zero below it. A
    /// zero sum is positive unless both operands are negative zero.
    pub fn add(self, rhs: E5M2) -> (r: E5M2)
        ensures
            r@ == add_spec(self@, rhs@),
            is_nan_byte(self@) || is_nan_byte(rhs@) ==> is_nan_byte(r@),
    {
        if self.is_nan() || rhs.is_nan() {
            return E5M2::nan();
        }
        let sa = self.scaled_value();
        let sb = rhs.scaled_value();
        let s = sa + sb;
        if s == 0 {
            if self.is_neg_zero() && rhs.is_neg_zero() {
                return E5M2::neg_zero();
            }
            return E5M2::zero();
        }
        let neg = s < 0;
        let mag: u64 = if neg {
            (-s) as u64
        } else {
            s as u64
        };
        // the spacing of representable magnitudes around the exact magnitude
        let mut q: u64 = 1;
        let mut t: u64 = mag;
        while t >= 8
            invariant
                1 <= t,
                1 <= q,
                q * t <= mag,
                mag <= 12884901888,
                quantum(mag as int) == q * quantum(t as int),
            decreases t,
        {
            proof {
                lemma_fundamental_div_mod(t as int, 2);
                lemma_mod_division_less_than_divisor(t as int, 2);
                assert(quantum(t as int) == 2 * quantum(t as int / 2));
                assert(q * quantum(t as int) == (2 * q) * quantum(t as int / 2))
                    by (nonlinear_arith)
                    requires
                        quantum(t as int) == 2 * quantum(t as int / 2),
                ;
                assert((2 * q) * ((t as int) / 2) <= q * t) by (nonlinear_arith)
                    requires
                        2 * ((t as int) / 2) <= t,
                        q >= 1,
                ;
                assert(8 * q <= q * t) by (nonlinear_arith)
                    requires
                        t >= 8,
                        q >= 1,
                ;
            }
            t = t / 2;
            q = q * 2;
        }
        proof {
            assert(quantum(t as int) == 1);
            assert(quantum(mag as int) == q);
            assert(q <= q * t) by (nonlinear_arith)
                requires
                    t >= 1,
                    q >= 1,
            ;
        }
        // round to the nearest multiple of the spacing, ties to even
        let rem = mag % q;
        let lo = mag - rem;
        let rr: u64 = if 2 * rem < q {
            lo
        } else if 2 * rem > q {
            lo + q
        } else if (lo / q) % 2 == 0 {
            lo
        } else {
            lo + q
        };
        proof {
            assert(rr == round_even(mag as int, q as int));
            assert(rr == round_mag(mag as int));
        }
        if rr > MAX_MAG {
            return E5M2::nan();
        }
        proof {
            lemma_round_mag_representable(mag as int);
            lemma_encode_scaled(neg, rr as int);
        }
        let sbit: u8 = if neg {
            1
        } else {
            0
        };
        let byte: u8;
        if rr < 4 {
            byte = sbit * 128 + (rr as u8);
            proof {
                assert(encode_mag(rr as int) == rr as u8);
                assert(byte == encode(neg, rr as int));
            }
        } else {
            proof {
                lemma2_to64();
                lemma2_to64_rest();
            }
            let mut p: u64 = 4;
            let mut j: u8 = 2;
            while 2 * p <= rr
                invariant
                    2 <= j <= 32,
                    p == pow2(j as nat),
                    p <= rr,
                    4 <= rr <= 6442450944,
                decreases rr - p,
            {
                proof {
                    lemma2_to64();
                    lemma2_to64_rest();
                    if j == 32 {
                        assert(false);
                    }
                    lemma_pow2_unfold((j + 1) as nat);
                }
                p = 2 * p;
                j = j + 1;
            }
            proof {
                lemma2_to64();
                lemma_log2_unique(rr as int, j as nat);
                lemma_pow2_adds((j - 2) as nat, 2);
                lemma_pow2_pos((j - 2) as nat);
                lemma_div_multiples_vanish(pow2((j - 2) as nat) as int, 4);
                assert(p == 4 * pow2((j - 2) as nat));
            }
            let p4 = p / 4;
            proof {
                assert(p4 == pow2((j - 2) as nat));
                if rr < 8 {
                    assert(j == 2);
                    lemma_mod_multiples_basic(rr as int, 1);
                } else {
                    lemma_quantum_pow2(rr as int);
                    assert(quantum(rr as int) == p4);
                }
                assert(rr as int % p4 as int == 0);
                lemma_div_multiples_vanish(4, p4 as int);
                lemma_div_is_ordered(4 * p4 as int, rr as int, p4 as int);
                lemma_multiply_divide_lt(rr as int, p4 as int, 8);
                assert(p4 as int * 8 == 8 * p4) by (nonlinear_arith);
            }
            let d = rr / p4;
            proof {
                assert(4 <= d < 8);
            }
            let ef: u8 = j - 1;
            let mf: u8 = (d - 4) as u8;
            byte = sbit * 128 + ef * 4 + mf;
            proof {
                assert(encode_mag(rr as int) == (4 * (j as int - 1) + d - 4) as u8);
                assert(4 * (j as int - 1) + d - 4 == 4 * ef + mf);
                assert(4 * ef + mf <= 127);
                assert(byte == encode(neg, rr as int));
            }
        }
        E5M2::new(byte)
    }
}

/// Zero and negative zero both decode to nothing: 0 steps.
pub proof fn lemma_zero_scaled()
    ensures
        scaled_of(ZERO) == 0,
        scaled_of(NEG_ZERO) == 0,
        !is_nan_byte(ZERO),
        !is_nan_byte(NEG_ZERO),
{
    assert((0x00u8 >> 7) == 0 && (0x00u8 >> 2) & 0x1F == 0 && 0x00u8 & 0x03 == 0) by (bit_vector);
    assert((0x80u8 >> 7) == 1 && (0x80u8 >> 2) & 0x1F == 0 && 0x80u8 & 0x03 == 0) by (bit_vector);
}

/// Only zero and negative zero decode to 0 steps: every other finite byte
/// has a positive magnitude.
pub proof fn lemma_scaled_zero_only(b: u8)
    requires
        scaled_of(b) == 0,
    ensures
        b == ZERO || b == NEG_ZERO,
{
    lemma_field_bounds(b);
    if exp_field(b) != 0 {
        lemma_pow2_pos((exp_field(b) - 1) as nat);
        assert((4 + mantissa_field(b) as int) * pow2((exp_field(b) - 1) as nat) >= 4)
            by (nonlinear_arith)
            requires
                mantissa_field(b) >= 0,
                pow2((exp_field(b) - 1) as nat) >= 1,
        ;
        assert(false);
    }
    assert(mantissa_field(b) == 0);
    assert(b == 128 * sign_field(b));
}

/// Adding a zero leaves any finite value unchanged, bit for bit; the one
/// exception is negative zero plus positive zero, where the conventional
/// sign rule turns the result positive.
pub proof fn lemma_add_zero_identity(v: u8)
    requires
        !is_nan_byte(v),
    ensures
        add_spec(v, NEG_ZERO) == v,
        v != NEG_ZERO ==> add_spec(v, ZERO) == v,
{
    lemma_zero_scaled();
    let s = scaled_of(v);
    if s == 0 {
        lemma_scaled_zero_only(v);
    } else {
        lemma_scaled_roundtrip(v);
        lemma_round_mag_representable(abs_scaled(v));
    }
}

/// Addition is commutative, down to the bit pattern of the result.
pub proof fn lemma_add_commutes(a: u8, b: u8)
    ensures
        add_spec(a, b) == add_spec(b, a),
{
}

/// Among normal values of equal sign and mantissa, a strictly larger
/// exponent field means a strictly larger decoded magnitude.
pub proof fn lemma_exp_monotonic(a: u8, b: u8)
    requires
        !is_nan_byte(a),
        !is_nan_byte(b),
        exp_field(a) >= 1,
        exp_field(b) >= 1,
        sign_field(a) == sign_field(b),
        mantissa_field(a) == mantissa_field(b),
        exp_field(a) < exp_field(b),
    ensures
        abs_scaled(a) < abs_scaled(b),
{
    let m = mantissa_field(a) as int;
    let pa = pow2((exp_field(a) - 1) as nat) as int;
    let pb = pow2((exp_field(b) - 1) as nat) as int;
    lemma_pow2_pos((exp_field(a) - 1) as nat);
    lemma_pow2_strictly_increases((exp_field(a) - 1) as nat, (exp_field(b) - 1) as nat);
    assert((4 + m) * pa < (4 + m) * pb) by (nonlinear_arith)
        requires
            m >= 0,
            1 <= pa < pb,
    ;
    assert((4 + m) * pa >= 4) by (nonlinear_arith)
        requires
            m >= 0,
            pa >= 1,
    ;
}

} // verus!

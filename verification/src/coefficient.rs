//! The exact decimal that a number's significant digits are held in: a
//! signed integer mantissa and the count of its digits that stand behind the
//! decimal point.

use crate::digits::{
    lemma_pow10_adds, lemma_pow10_increases, lemma_pow10_positive, lemma_pow10_values, magnitude,
    pow10, pow10_u64,
};
use crate::error::{SciError, SciResult};
use crate::primitive::{
    decimal_from_literal, decimal_round_toward_zero, decimal_to_string, rounded_mantissa,
    rounded_scale,
};
use crate::text::{
    chars_of, decimal_in_64_bits, decimal_text, literal_mantissa, literal_scale, scan_decimal,
    significant_digits,
};
use vstd::arithmetic::div_mod::lemma_fundamental_div_mod;
use vstd::prelude::*;
use vstd::std_specs::cmp::PartialEqSpecImpl;

verus! {

/// The largest number of fractional digits a coefficient can have.
pub const MAX_SCALE: u32 = 28;

/// The decimal `mantissa / 10^scale`.
#[derive(Debug, Clone, Copy)]
pub struct Coefficient {
    pub mantissa: i64,
    pub scale: u32,
}

impl Coefficient {
    /// A coefficient is valid when its scale is one the decimal primitive supports.
    pub open spec fn wf(&self) -> bool {
        self.scale <= MAX_SCALE
    }

    /// Two coefficients denote the same number, whatever their scales.
    pub open spec fn same_value(&self, other: &Self) -> bool {
        self.mantissa * pow10(other.scale as nat) == other.mantissa * pow10(self.scale as nat)
    }

    /// The coefficient `mantissa / 10^scale`.
    pub fn new(mantissa: i64, scale: u32) -> (r: Self)
        requires
            scale <= MAX_SCALE,
        ensures
            r == (Coefficient { mantissa, scale }),
            r.wf(),
    {
        Coefficient { mantissa, scale }
    }

    /// The coefficient `mantissa / 10^scale`, or a scale error where the
    /// scale is beyond [`MAX_SCALE`].
    pub fn try_new(mantissa: i64, scale: u32) -> (r: SciResult<Self>)
        ensures
            scale <= MAX_SCALE ==> r == Ok::<Self, SciError>(Coefficient { mantissa, scale }),
            scale > MAX_SCALE ==> r matches Err(SciError::ScaleError(_)),
    {
        if scale > MAX_SCALE {
            Err(SciError::ScaleError(None))
        } else {
            Ok(Coefficient { mantissa, scale })
        }
    }

    /// The whole number `value`.
    pub fn from_i64(value: i64) -> (r: Self)
        ensures
            r == (Coefficient { mantissa: value, scale: 0 }),
            r.wf(),
    {
        Coefficient { mantissa: value, scale: 0 }
    }

    /// Whether the coefficient is zero.
    pub fn is_zero(&self) -> (r: bool)
        ensures
            r == (self.mantissa == 0),
    {
        self.mantissa == 0
    }

    /// Reads a decimal literal: an optional minus sign and one or more
    /// digits, which a single point and one or more digits may follow. The
    /// digits are kept as written, trailing zeros included. Any other text,
    /// more than 28 fractional digits, and a mantissa that 64 bits cannot
    /// hold are parse errors.
    pub fn parse_from_str(text: &str) -> (r: SciResult<Self>)
        ensures
            match r {
                Ok(c) => {
                    &&& decimal_in_64_bits(text@)
                    &&& c.mantissa == literal_mantissa(text@)
                    &&& c.scale == literal_scale(text@)
                    &&& c.wf()
                },
                Err(SciError::ParseError(_)) => !decimal_in_64_bits(text@),
                Err(_) => false,
            },
    {
        let chars = chars_of(text);
        let (digits, scale) = match scan_decimal(&chars) {
            Some(parts) => parts,
            None => {
                return Err(SciError::ParseError(Some("coefficient is not a decimal number".to_string())));
            },
        };
        if scale > MAX_SCALE as usize {
            return Err(SciError::ParseError(Some("coefficient has more than 28 fractional digits".to_string())));
        }
        proof {
            lemma_pow10_values();
        }
        let width = significant_digits(&digits);
        if width > MAX_SCALE as usize {
            proof {
                lemma_pow10_increases(28, (width - 1) as nat);
            }
            return Err(SciError::ParseError(Some("coefficient exceeds the 64-bit mantissa".to_string())));
        }
        proof {
            lemma_pow10_increases(width as nat, 28);
        }
        match decimal_from_literal(text) {
            Ok((mantissa, scale)) => {
                if mantissa < i64::MIN as i128 || mantissa > i64::MAX as i128 {
                    return Err(SciError::ParseError(Some("coefficient exceeds the 64-bit mantissa".to_string())));
                }
                Ok(Coefficient { mantissa: mantissa as i64, scale })
            },
            Err(error) => Err(SciError::from(error)),
        }
    }

    /// The coefficient rounded to `places` fractional digits, a tie going
    /// toward zero. One with no more than `places` fractional digits is left
    /// as it is: rounding never adds digits.
    pub(crate) fn round_dp(&self, places: u32) -> (r: Self)
        requires
            self.wf(),
        ensures
            r.mantissa == rounded_mantissa(self.mantissa as int, self.scale as nat, places as nat),
            r.scale == rounded_scale(self.scale as nat, places as nat),
            r.wf(),
    {
        let (mantissa, scale) = decimal_round_toward_zero(self.mantissa, self.scale, places);
        proof {
            lemma_rounding_shrinks(self.mantissa as int, self.scale as nat, places as nat);
        }
        Coefficient { mantissa: mantissa as i64, scale }
    }

    /// The coefficient as text: all its digits, with the decimal point where
    /// the scale puts it.
    pub(crate) fn to_string(&self) -> (r: String)
        requires
            self.wf(),
        ensures
            r@ == decimal_text(self.mantissa as int, self.scale as nat),
    {
        decimal_to_string(self.mantissa, self.scale)
    }
}

/// Rounding to fewer digits never takes a mantissa further from zero, nor
/// across it.
pub proof fn lemma_rounding_shrinks(mantissa: int, scale: nat, places: nat)
    ensures
        magnitude(rounded_mantissa(mantissa, scale, places)) <= magnitude(mantissa),
        mantissa >= 0 ==> rounded_mantissa(mantissa, scale, places) >= 0,
        mantissa <= 0 ==> rounded_mantissa(mantissa, scale, places) <= 0,
{
    if scale > places {
        let unit = pow10((scale - places) as nat) as int;
        let size = magnitude(mantissa) as int;
        lemma_pow10_increases(1, (scale - places) as nat);
        assert(pow10(1) == 10) by {
            lemma_pow10_values();
        }
        lemma_fundamental_div_mod(size, unit);
        let q = size / unit;
        let r = size % unit;
        assert(0 <= r < unit);
        assert(q >= 0 && unit * q >= 10 * q) by (nonlinear_arith)
            requires
                unit >= 10,
                size >= 0,
                q == size / unit,
        ;
    }
}

/// A non-zero mantissa moved left by more digits than a 64-bit integer has
/// leaves the range of 64-bit integers.
proof fn lemma_shifted_out_of_range(m: int, k: nat)
    requires
        m != 0,
        k >= 19,
    ensures
        m * pow10(k) < -0x8000_0000_0000_0000 || m * pow10(k) > 0x7fff_ffff_ffff_ffff,
{
    lemma_pow10_increases(19, k);
    lemma_pow10_values();
    let p = pow10(k) as int;
    assert(m * p <= -p || m * p >= p) by (nonlinear_arith)
        requires
            m != 0,
            p > 0,
    ;
}

/// `m * 10^k == n`, decided without leaving 128 bits.
fn scaled_equal(m: i64, k: u32, n: i64) -> (r: bool)
    ensures
        r == (m * pow10(k as nat) == n),
{
    if k > 18 {
        proof {
            if m != 0 {
                lemma_shifted_out_of_range(m as int, k as nat);
            } else {
                assert(0 * pow10(k as nat) == 0);
            }
        }
        m == 0 && n == 0
    } else {
        let p = pow10_u64(k);
        proof {
            lemma_pow10_increases(k as nat, 18);
            lemma_pow10_positive(k as nat);
            lemma_pow10_values();
            assert(-0x8000_0000_0000_0000 * 1_000_000_000_000_000_000 <= m * p
                <= 0x8000_0000_0000_0000 * 1_000_000_000_000_000_000) by (nonlinear_arith)
                requires
                    -0x8000_0000_0000_0000 <= m <= 0x7fff_ffff_ffff_ffff,
                    0 < p <= 1_000_000_000_000_000_000,
            ;
        }
        (m as i128) * (p as i128) == n as i128
    }
}

/// Equal mantissas at a common scale are what `same_value` compares.
proof fn lemma_same_value_at_common_scale(a: Coefficient, b: Coefficient)
    requires
        a.scale <= b.scale,
    ensures
        a.same_value(&b) == (a.mantissa * pow10((b.scale - a.scale) as nat) == b.mantissa),
        b.same_value(&a) == a.same_value(&b),
{
    let k = (b.scale - a.scale) as nat;
    lemma_pow10_adds(a.scale as nat, k);
    lemma_pow10_positive(a.scale as nat);
    let pa = pow10(a.scale as nat) as int;
    let pk = pow10(k) as int;
    let am = a.mantissa as int;
    let bm = b.mantissa as int;
    assert(pow10(b.scale as nat) == pa * pk);
    assert((am * (pa * pk) == bm * pa) == (am * pk == bm)) by (nonlinear_arith)
        requires
            pa > 0,
    ;
}

impl PartialEq for Coefficient {
    /// Numeric equality: `1.50` equals `1.5`.
    fn eq(&self, other: &Self) -> (r: bool) {
        if self.scale <= other.scale {
            proof {
                lemma_same_value_at_common_scale(*self, *other);
            }
            scaled_equal(self.mantissa, other.scale - self.scale, other.mantissa)
        } else {
            proof {
                lemma_same_value_at_common_scale(*other, *self);
            }
            scaled_equal(other.mantissa, self.scale - other.scale, self.mantissa)
        }
    }
}

impl PartialEqSpecImpl for Coefficient {
    open spec fn obeys_eq_spec() -> bool {
        true
    }

    open spec fn eq_spec(&self, other: &Self) -> bool {
        self.same_value(other)
    }
}

} // verus!

//! A number in scientific notation: a coefficient times a power of ten.

use crate::coefficient::{Coefficient, MAX_SCALE};
use crate::digits::{
    count_digits, digit_count, lemma_digit_count_bounds, lemma_digit_count_of_64_bits,
    lemma_pow10_increases, lemma_pow10_positive, lemma_pow10_values, magnitude, pow10, pow10_u64,
};
use crate::error::{SciError, SciResult};
use crate::primitive::{rounded_mantissa, rounded_scale};
use crate::text::{
    chars_of, decimal_in_64_bits, decimal_text, find_separator, has_single_separator, int_text,
    integer_in_16_bits, integer_to_string, literal_mantissa, literal_scale, read_integer,
    separator, separator_index,
};
use vstd::prelude::*;
use vstd::std_specs::cmp::PartialEqSpecImpl;

verus! {

/// The number `coefficient * 10^exponent`, with the count of fractional
/// digits that rendering shows of the coefficient.
///
/// The mantissa of the coefficient is a 64-bit integer: up to
/// `9223372036854775807` in magnitude on the positive side.
#[derive(Debug, Clone, Copy)]
pub struct SciNote {
    pub coefficient: Coefficient,
    pub exponent: i16,
    pub display_decimals: Option<usize>,
}

impl SciNote {
    /// A value is valid when its coefficient is.
    pub open spec fn wf(&self) -> bool {
        self.coefficient.wf()
    }

    /// Whether the value is zero, whatever its exponent.
    pub open spec fn is_zero(&self) -> bool {
        self.coefficient.mantissa == 0
    }

    /// The power of ten that one unit of the mantissa stands for.
    pub open spec fn quantum(&self) -> int {
        self.exponent - self.coefficient.scale
    }

    /// The power of ten that one unit of the mantissa of a sum stands for:
    /// the finer of the two operands' quanta.
    pub open spec fn sum_quantum(a: SciNote, b: SciNote) -> int {
        if a.quantum() <= b.quantum() {
            a.quantum()
        } else {
            b.quantum()
        }
    }

    /// The exact sum of `a` and `b`, in units of `10^sum_quantum(a, b)`.
    pub open spec fn sum_mantissa(a: SciNote, b: SciNote) -> int {
        let q = SciNote::sum_quantum(a, b);
        a.coefficient.mantissa * pow10((a.quantum() - q) as nat) + b.coefficient.mantissa * pow10(
            (b.quantum() - q) as nat,
        )
    }

    /// The exponent of the normalised sum of `a` and `b`.
    pub open spec fn sum_exponent(a: SciNote, b: SciNote) -> int {
        SciNote::sum_quantum(a, b) + digit_count(magnitude(SciNote::sum_mantissa(a, b))) - 1
    }

    /// The display precision of a sum: that of the first operand that has one.
    pub open spec fn sum_display(a: SciNote, b: SciNote) -> Option<usize> {
        if a.display_decimals is Some {
            a.display_decimals
        } else {
            b.display_decimals
        }
    }

    /// Whether the exact sum of `a` and `b` has a mantissa of 64 bits.
    pub open spec fn sum_mantissa_fits(a: SciNote, b: SciNote) -> bool {
        i64::MIN <= SciNote::sum_mantissa(a, b) <= i64::MAX
    }

    /// Whether the normalised sum of `a` and `b` has an exponent of 16 bits.
    pub open spec fn sum_exponent_fits(a: SciNote, b: SciNote) -> bool {
        i16::MIN <= SciNote::sum_exponent(a, b) <= i16::MAX
    }

    /// Whether exactly one of `a` and `b` is zero.
    pub open spec fn one_is_zero(a: SciNote, b: SciNote) -> bool {
        a.is_zero() != b.is_zero()
    }

    /// The sum of `a` and `b`, where it can be held. Where exactly one
    /// operand is zero, the sum has the coefficient and the exponent of the
    /// other as they are. Any other sum is exact and normalised; that of two
    /// zeros is zero at the finer of their quanta. Every sum has the display
    /// precision of the first operand that has one.
    pub open spec fn sum(a: SciNote, b: SciNote) -> Option<SciNote> {
        if SciNote::one_is_zero(a, b) {
            let kept = if b.is_zero() {
                a
            } else {
                b
            };
            Some(
                SciNote {
                    coefficient: kept.coefficient,
                    exponent: kept.exponent,
                    display_decimals: SciNote::sum_display(a, b),
                },
            )
        } else if SciNote::sum_mantissa_fits(a, b) && SciNote::sum_exponent_fits(a, b) {
            let m = SciNote::sum_mantissa(a, b);
            Some(
                SciNote {
                    coefficient: Coefficient {
                        mantissa: m as i64,
                        scale: (digit_count(magnitude(m)) - 1) as u32,
                    },
                    exponent: SciNote::sum_exponent(a, b) as i16,
                    display_decimals: SciNote::sum_display(a, b),
                },
            )
        } else {
            None
        }
    }

    /// The scale at which a non-zero `c` has one digit before the decimal
    /// point; the scale of `c` itself where `c` is zero.
    pub open spec fn normal_scale(c: Coefficient) -> nat {
        if c.mantissa == 0 {
            c.scale as nat
        } else {
            (digit_count(magnitude(c.mantissa as int)) - 1) as nat
        }
    }

    /// By how many places normalising `c` moves its decimal point to the
    /// left; negative where it moves to the right.
    pub open spec fn normal_shift(c: Coefficient) -> int {
        SciNote::normal_scale(c) - c.scale
    }

    /// What stands before the separator of the notation `s`.
    pub open spec fn coefficient_part(s: Seq<char>) -> Seq<char> {
        s.take(separator_index(s))
    }

    /// What stands behind the separator of the notation `s`.
    pub open spec fn exponent_part(s: Seq<char>) -> Seq<char> {
        s.skip(separator_index(s) + 4)
    }

    /// Whether `s` is a number in scientific notation: a decimal literal that
    /// a coefficient can hold, the separator `x10^`, once, and a whole-number
    /// literal of 16 bits.
    pub open spec fn is_notation(s: Seq<char>) -> bool {
        &&& has_single_separator(s)
        &&& decimal_in_64_bits(SciNote::coefficient_part(s))
        &&& integer_in_16_bits(SciNote::exponent_part(s)) is Some
    }

    /// The value that the notation `s` is read as: coefficient and exponent
    /// as written, and no display precision.
    pub open spec fn notation_value(s: Seq<char>) -> SciNote {
        SciNote {
            coefficient: Coefficient {
                mantissa: literal_mantissa(SciNote::coefficient_part(s)) as i64,
                scale: literal_scale(SciNote::coefficient_part(s)) as u32,
            },
            exponent: integer_in_16_bits(SciNote::exponent_part(s))->0,
            display_decimals: None,
        }
    }

    /// How many fractional digits rendering shows at most: the display
    /// precision, or two where none is set.
    pub open spec fn shown_places(&self) -> nat {
        match self.display_decimals {
            Some(decimals) => decimals as nat,
            None => 2,
        }
    }

    /// The value as rendering shows it: the coefficient rounded to the
    /// display precision, a tie going toward zero, the same exponent, and no
    /// display precision.
    pub open spec fn as_shown(&self) -> SciNote {
        SciNote {
            coefficient: Coefficient {
                mantissa: rounded_mantissa(
                    self.coefficient.mantissa as int,
                    self.coefficient.scale as nat,
                    self.shown_places(),
                ) as i64,
                scale: rounded_scale(self.coefficient.scale as nat, self.shown_places()) as u32,
            },
            exponent: self.exponent,
            display_decimals: None,
        }
    }

    /// The text of the value: the coefficient rounded to the display
    /// precision, then `x10^` and the exponent.
    pub open spec fn text(&self) -> Seq<char> {
        decimal_text(
            rounded_mantissa(
                self.coefficient.mantissa as int,
                self.coefficient.scale as nat,
                self.shown_places(),
            ),
            rounded_scale(self.coefficient.scale as nat, self.shown_places()),
        ) + separator() + int_text(self.exponent as int)
    }

    /// The zero value, shown without fractional digits.
    pub fn zero() -> (r: Self)
        ensures
            r == (SciNote {
                coefficient: Coefficient { mantissa: 0, scale: 0 },
                exponent: 0,
                display_decimals: Some(0usize),
            }),
            r.wf(),
    {
        SciNote {
            coefficient: Coefficient { mantissa: 0, scale: 0 },
            exponent: 0,
            display_decimals: Some(0),
        }
    }

    /// Starts a value to be filled in field by field: one, with exponent
    /// zero and no display precision.
    pub fn build() -> (r: Self)
        ensures
            r == (SciNote {
                coefficient: Coefficient { mantissa: 1, scale: 0 },
                exponent: 0,
                display_decimals: None,
            }),
            r.wf(),
    {
        SciNote {
            coefficient: Coefficient { mantissa: 1, scale: 0 },
            exponent: 0,
            display_decimals: None,
        }
    }

    /// The same value with another coefficient.
    pub fn coefficient(self, coefficient: Coefficient) -> (r: Self)
        ensures
            r == (SciNote { coefficient, ..self }),
    {
        let mut out = self;
        out.coefficient = coefficient;
        out
    }

    /// The same value with another exponent.
    pub fn exponent(self, exponent: i16) -> (r: Self)
        ensures
            r == (SciNote { exponent, ..self }),
    {
        let mut out = self;
        out.exponent = exponent;
        out
    }

    /// The same value, to be shown with `decimals` fractional digits.
    pub fn display_decimals(self, decimals: usize) -> (r: Self)
        ensures
            r == (SciNote { display_decimals: Some(decimals), ..self }),
    {
        let mut out = self;
        out.display_decimals = Some(decimals);
        out
    }

    /// Reads `<coefficient>x10^<exponent>`. The separator must occur exactly
    /// once, else the format is wrong. The coefficient must be a decimal
    /// literal with a 64-bit mantissa and the exponent a whole number of 16
    /// bits, else the text does not parse. The coefficient is kept as
    /// written, not normalised, and no display precision is set.
    pub fn parse_from_str(input: &str) -> (r: SciResult<Self>)
        ensures
            match r {
                Ok(v) => SciNote::is_notation(input@) && v == SciNote::notation_value(input@)
                    && v.wf(),
                Err(SciError::FormatError(_)) => !has_single_separator(input@),
                Err(SciError::ParseError(_)) => has_single_separator(input@)
                    && !SciNote::is_notation(input@),
                Err(_) => false,
            },
    {
        let chars = chars_of(input);
        let at = match find_separator(&chars) {
            Some(at) => at,
            None => {
                return Err(
                    SciError::FormatError(
                        Some("Input format was incorrect. Expected CCcx10^EEe".to_string()),
                    ),
                );
            },
        };
        let coefficient = match Coefficient::parse_from_str(input.substring_char(0, at)) {
            Ok(coefficient) => coefficient,
            Err(error) => {
                return Err(error);
            },
        };
        let exponent = match read_integer(&chars, at + 4) {
            Some(exponent) => exponent,
            None => {
                return Err(SciError::ParseError(Some("exponent is not a 16-bit whole number".to_string())));
            },
        };
        Ok(SciNote { coefficient, exponent, display_decimals: None })
    }

    /// Rescales `input` so that exactly one non-zero digit stands before the
    /// decimal point, and reports by how many places the point moved: a
    /// positive shift is to be added to the exponent. Zero is left as it is.
    pub fn scale_to_one_integer_digit(input: Coefficient) -> (r: SciResult<(Coefficient, i16)>)
        requires
            input.wf(),
        ensures
            r matches Ok((out, shift)) && {
                &&& out.mantissa == input.mantissa
                &&& out.scale == SciNote::normal_scale(input)
                &&& shift == SciNote::normal_shift(input)
                &&& out.wf()
                &&& input.mantissa != 0 ==> pow10(out.scale as nat) <= magnitude(out.mantissa as int)
                    < 10 * pow10(out.scale as nat)
            },
    {
        if input.mantissa == 0 {
            return Ok((input, 0));
        }
        let size: u64 = if input.mantissa < 0 {
            (-(input.mantissa as i128)) as u64
        } else {
            input.mantissa as u64
        };
        let digits = count_digits(size);
        proof {
            lemma_digit_count_bounds(size as nat);
            lemma_digit_count_of_64_bits(size as nat);
            assert(pow10(digits as nat) == 10 * pow10((digits - 1) as nat));
        }
        let out = Coefficient { mantissa: input.mantissa, scale: digits - 1 };
        let shift: i16 = (digits as i16 - 1) - (input.scale as i16);
        Ok((out, shift))
    }

    /// Renders the value as `<coefficient>x10^<exponent>`. The coefficient
    /// is rounded to the display precision (two fractional digits where none
    /// is set), a tie going toward zero; it is never padded. The exponent is
    /// written as a plain whole number.
    pub fn to_string(&self) -> (r: String)
        requires
            self.wf(),
        ensures
            r@ == self.text(),
    {
        let places: u32 = match self.display_decimals {
            Some(decimals) => if decimals > MAX_SCALE as usize {
                MAX_SCALE
            } else {
                decimals as u32
            },
            None => 2,
        };
        let shown = self.coefficient.round_dp(places);
        let mut out = shown.to_string();
        proof {
            reveal_strlit("x10^");
            assert("x10^"@ =~= separator());
        }
        out.append("x10^");
        let exponent = integer_to_string(self.exponent);
        out.append(exponent.as_str());
        out
    }

    /// Adds two values exactly. Where exactly one operand is zero, the sum
    /// has the coefficient and the exponent of the other as they are, not
    /// normalised. Any other sum is normalised to one integer digit; that of
    /// two zeros is zero at the finer of their quanta. Every sum takes the
    /// display precision of `self`, or that of `input2` where `self` has
    /// none. A sum whose mantissa leaves 64 bits is an out-of-range error;
    /// one whose exponent leaves 16 bits is an exponent error.
    pub fn add(&self, input2: &Self) -> (r: SciResult<Self>)
        requires
            self.wf(),
            input2.wf(),
        ensures
            match r {
                Ok(v) => SciNote::sum(*self, *input2) == Some(v) && v.wf(),
                Err(SciError::OutOfRangeError(_)) => !SciNote::one_is_zero(*self, *input2)
                    && !SciNote::sum_mantissa_fits(*self, *input2),
                Err(SciError::ExponentError(_)) => !SciNote::one_is_zero(*self, *input2)
                    && SciNote::sum_mantissa_fits(*self, *input2) && !SciNote::sum_exponent_fits(
                    *self,
                    *input2,
                ),
                Err(_) => false,
            },
    {
        let display_decimals = match self.display_decimals {
            Some(decimals) => Some(decimals),
            None => input2.display_decimals,
        };
        let zero1 = self.coefficient.mantissa == 0;
        let zero2 = input2.coefficient.mantissa == 0;
        if zero2 && !zero1 {
            return Ok(
                SciNote {
                    coefficient: self.coefficient,
                    exponent: self.exponent,
                    display_decimals,
                },
            );
        }
        if zero1 && !zero2 {
            return Ok(
                SciNote {
                    coefficient: input2.coefficient,
                    exponent: input2.exponent,
                    display_decimals,
                },
            );
        }
        let quantum1: i32 = self.exponent as i32 - self.coefficient.scale as i32;
        let quantum2: i32 = input2.exponent as i32 - input2.coefficient.scale as i32;
        let quantum: i32 = if quantum1 <= quantum2 {
            quantum1
        } else {
            quantum2
        };
        let total: i128 = if zero1 {
            proof {
                lemma_sum_of_zeros(*self, *input2);
            }
            0
        } else {
            let lift1: u32 = (quantum1 - quantum) as u32;
            let lift2: u32 = (quantum2 - quantum) as u32;
            if lift1 > 19 || lift2 > 19 {
                proof {
                    lemma_lifted_sum_out_of_range(*self, *input2);
                }
                return Err(
                    SciError::OutOfRangeError(Some("sum exceeds the 64-bit mantissa".to_string())),
                );
            }
            let term1: i128 = lifted(self.coefficient.mantissa, lift1);
            let term2: i128 = lifted(input2.coefficient.mantissa, lift2);
            proof {
                assert(pow10(0) == 1);
                if lift1 == 0 {
                    assert(term1 == self.coefficient.mantissa * 1);
                } else {
                    assert(lift2 == 0);
                    assert(term2 == input2.coefficient.mantissa * 1);
                }
            }
            term1 + term2
        };
        if total < i64::MIN as i128 || total > i64::MAX as i128 {
            return Err(SciError::OutOfRangeError(Some("sum exceeds the 64-bit mantissa".to_string())));
        }
        let whole = Coefficient { mantissa: total as i64, scale: 0 };
        match SciNote::scale_to_one_integer_digit(whole) {
            Ok((coefficient, shift)) => {
                let exponent: i32 = quantum + shift as i32;
                if exponent < i16::MIN as i32 || exponent > i16::MAX as i32 {
                    return Err(SciError::ExponentError(Some("sum exceeds the 16-bit exponent".to_string())));
                }
                proof {
                    assert(digit_count(0) == 1);
                }
                Ok(SciNote { coefficient, exponent: exponent as i16, display_decimals })
            },
            Err(e) => Err(e),
        }
    }
}

impl Default for SciNote {
    /// One, with exponent zero and no display precision.
    fn default() -> (r: Self)
        ensures
            r == (SciNote {
                coefficient: Coefficient { mantissa: 1, scale: 0 },
                exponent: 0,
                display_decimals: None,
            }),
    {
        SciNote::build()
    }
}

impl PartialEq for SciNote {
    /// Equal exponents and display precisions, and coefficients that denote
    /// the same number.
    fn eq(&self, other: &Self) -> (r: bool) {
        let same_display = match (self.display_decimals, other.display_decimals) {
            (Some(a), Some(b)) => a == b,
            (None, None) => true,
            _ => false,
        };
        self.coefficient == other.coefficient && self.exponent == other.exponent && same_display
    }
}

impl PartialEqSpecImpl for SciNote {
    open spec fn obeys_eq_spec() -> bool {
        true
    }

    open spec fn eq_spec(&self, other: &Self) -> bool {
        &&& self.coefficient.same_value(&other.coefficient)
        &&& self.exponent == other.exponent
        &&& self.display_decimals == other.display_decimals
    }
}

/// `m * 10^k`, for the lifts that keep a 64-bit mantissa within 128 bits.
fn lifted(m: i64, k: u32) -> (r: i128)
    requires
        k <= 19,
    ensures
        r == m * pow10(k as nat),
        -0x8000_0000_0000_0000 * 10_000_000_000_000_000_000 <= r <= 0x8000_0000_0000_0000
            * 10_000_000_000_000_000_000,
{
    let p = pow10_u64(k);
    proof {
        lemma_pow10_increases(k as nat, 19);
        lemma_pow10_positive(k as nat);
        lemma_pow10_values();
        assert(-0x8000_0000_0000_0000 * 10_000_000_000_000_000_000 <= m * p <= 0x8000_0000_0000_0000
            * 10_000_000_000_000_000_000) by (nonlinear_arith)
            requires
                -0x8000_0000_0000_0000 <= m <= 0x7fff_ffff_ffff_ffff,
                0 < p <= 10_000_000_000_000_000_000,
        ;
    }
    (m as i128) * (p as i128)
}

/// The sum of two zeros is zero, whatever their quanta.
pub proof fn lemma_sum_of_zeros(a: SciNote, b: SciNote)
    requires
        a.is_zero(),
        b.is_zero(),
    ensures
        SciNote::sum_mantissa(a, b) == 0,
{
    let q = SciNote::sum_quantum(a, b);
    let pa = pow10((a.quantum() - q) as nat) as int;
    let pb = pow10((b.quantum() - q) as nat) as int;
    assert(0 * pa == 0);
    assert(0 * pb == 0);
}

/// Where the quanta of two non-zero values lie twenty or more places apart,
/// their sum has more digits than a 64-bit mantissa.
proof fn lemma_lifted_sum_out_of_range(a: SciNote, b: SciNote)
    requires
        !a.is_zero(),
        !b.is_zero(),
        a.quantum() - SciNote::sum_quantum(a, b) > 19 || b.quantum() - SciNote::sum_quantum(a, b)
            > 19,
    ensures
        !SciNote::sum_mantissa_fits(a, b),
{
    let q = SciNote::sum_quantum(a, b);
    let la = (a.quantum() - q) as nat;
    let lb = (b.quantum() - q) as nat;
    let ma = a.coefficient.mantissa as int;
    let mb = b.coefficient.mantissa as int;
    lemma_pow10_values();
    assert(pow10(0) == 1);
    if la > 19 {
        lemma_pow10_increases(20, la);
        let p = pow10(la) as int;
        assert(ma * p <= -p || ma * p >= p) by (nonlinear_arith)
            requires
                ma != 0,
                p > 0,
        ;
        assert(lb == 0);
        assert(mb * 1 == mb);
    } else {
        lemma_pow10_increases(20, lb);
        let p = pow10(lb) as int;
        assert(mb * p <= -p || mb * p >= p) by (nonlinear_arith)
            requires
                mb != 0,
                p > 0,
        ;
        assert(la == 0);
        assert(ma * 1 == ma);
    }
}

} // verus!

//! What holds of the operations taken together: proved once, for every
//! value.

use crate::coefficient::{lemma_rounding_shrinks, Coefficient};
use crate::digits::{
    digit_count, lemma_digit_count_bounds, lemma_digit_count_of_64_bits, lemma_pow10_positive,
    magnitude, pow10,
};
use crate::primitive::{rounded_mantissa, rounded_scale};
use crate::sci_not::{lemma_sum_of_zeros, SciNote};
use crate::text::{
    decimal_in_64_bits, decimal_text, has_minus, has_single_separator, int_text,
    integer_in_16_bits, integer_literal_value, is_decimal_literal, is_digit, is_integer_literal,
    leading_digits, lemma_digits_value_joined, lemma_leading_digits_stop, lemma_nat_text_is_read,
    lemma_padded_digits_are_read, literal_digits, literal_fraction, literal_mantissa,
    literal_scale, literal_whole, nat_text, padded_digits, separator, separator_at,
    separator_index, unsigned_part,
};
use vstd::arithmetic::div_mod::lemma_fundamental_div_mod;
use vstd::prelude::*;

verus! {

/// Adding zero on the right leaves the coefficient and the exponent of a
/// non-zero value as they are. The display precision is that of the value,
/// or that of the zero where the value has none; so a zero without display
/// precision leaves the value whole.
pub proof fn lemma_add_zero_right(x: SciNote, zero: SciNote)
    requires
        zero.is_zero(),
        !x.is_zero(),
    ensures
        SciNote::sum(x, zero) == Some(
            SciNote { display_decimals: SciNote::sum_display(x, zero), ..x },
        ),
        x.display_decimals is Some || zero.display_decimals is None ==> SciNote::sum(x, zero)
            == Some(x),
{
}

/// Adding a non-zero value to zero gives the coefficient and the exponent of
/// that value as they are. The display precision is that of the zero, or
/// that of the value where the zero has none; so a zero without display
/// precision gives the value whole.
pub proof fn lemma_add_zero_left(zero: SciNote, x: SciNote)
    requires
        zero.is_zero(),
        !x.is_zero(),
    ensures
        SciNote::sum(zero, x) == Some(
            SciNote { display_decimals: SciNote::sum_display(zero, x), ..x },
        ),
        zero.display_decimals is None ==> SciNote::sum(zero, x) == Some(x),
{
}

/// The sum of two zeros is zero, at the finer of their quanta and with no
/// fractional digits, in either order.
pub proof fn lemma_add_zeros(a: SciNote, b: SciNote)
    requires
        a.is_zero(),
        b.is_zero(),
        SciNote::sum(a, b) is Some,
    ensures
        ({
            let v = SciNote::sum(a, b)->0;
            &&& v.coefficient == Coefficient { mantissa: 0, scale: 0 }
            &&& v.exponent == SciNote::sum_quantum(a, b)
            &&& v.display_decimals == SciNote::sum_display(a, b)
        }),
{
    lemma_sum_of_zeros(a, b);
    assert(digit_count(0) == 1);
}

/// Addition is commutative in what the sum is worth: in either order there
/// is a sum or there is none, and the two sums have the same coefficient and
/// the same exponent. This holds of every two values.
pub proof fn lemma_add_commutes_in_value(a: SciNote, b: SciNote)
    ensures
        (SciNote::sum(a, b) is Some) == (SciNote::sum(b, a) is Some),
        SciNote::sum(a, b) is Some ==> SciNote::sum(a, b)->0.coefficient == SciNote::sum(
            b,
            a,
        )->0.coefficient && SciNote::sum(a, b)->0.exponent == SciNote::sum(b, a)->0.exponent,
{
    assert(SciNote::sum_quantum(a, b) == SciNote::sum_quantum(b, a));
    assert(SciNote::sum_mantissa(a, b) == SciNote::sum_mantissa(b, a));
}

/// Addition is commutative: the same sum, or none, in either order. Left
/// out are two values with different display precisions and a sum that can
/// be held: that sum takes the precision of the value on the left.
pub proof fn lemma_add_commutes(a: SciNote, b: SciNote)
    requires
        SciNote::sum(a, b) is Some ==> a.display_decimals is None || b.display_decimals is None
            || a.display_decimals == b.display_decimals,
    ensures
        SciNote::sum(a, b) == SciNote::sum(b, a),
{
    lemma_add_commutes_in_value(a, b);
}

/// The sum of two non-zero values, and of two zeros, is exact and
/// normalised: counted in units of the finer of the two quanta, its mantissa
/// is the sum of the two mantissas, and unless it is zero its coefficient
/// has exactly one digit before the decimal point.
pub proof fn lemma_sum_is_exact(a: SciNote, b: SciNote)
    requires
        a.wf(),
        b.wf(),
        !SciNote::one_is_zero(a, b),
        SciNote::sum(a, b) is Some,
    ensures
        ({
            let v = SciNote::sum(a, b)->0;
            let q = SciNote::sum_quantum(a, b);
            &&& v.quantum() == q
            &&& v.coefficient.mantissa == a.coefficient.mantissa * pow10((a.quantum() - q) as nat)
                + b.coefficient.mantissa * pow10((b.quantum() - q) as nat)
            &&& v.wf()
            &&& !v.is_zero() ==> pow10(v.coefficient.scale as nat) <= magnitude(
                v.coefficient.mantissa as int,
            ) < 10 * pow10(v.coefficient.scale as nat)
        }),
{
    let m = SciNote::sum_mantissa(a, b);
    let size = magnitude(m);
    lemma_digit_count_bounds(size);
    lemma_digit_count_of_64_bits(size);
    let d = digit_count(size);
    assert(pow10(d) == 10 * pow10((d - 1) as nat));
}

/// Normalising a coefficient that is normalised already changes nothing:
/// the scale stays and the shift is zero.
pub proof fn lemma_normalising_twice(c: Coefficient)
    requires
        c.wf(),
    ensures
        ({
            let once = Coefficient { mantissa: c.mantissa, scale: SciNote::normal_scale(c) as u32 };
            &&& once.scale == SciNote::normal_scale(c)
            &&& SciNote::normal_scale(once) == once.scale
            &&& SciNote::normal_shift(once) == 0
        }),
{
    lemma_digit_count_of_64_bits(magnitude(c.mantissa as int));
}

/// Equality of coefficients is equality of the numbers they denote: every
/// coefficient equals itself, equality does not depend on the order of the
/// two sides, and two coefficients equal to a third are equal.
pub proof fn lemma_same_value_is_an_equivalence(a: Coefficient, b: Coefficient, c: Coefficient)
    ensures
        a.same_value(&a),
        a.same_value(&b) == b.same_value(&a),
        a.same_value(&b) && b.same_value(&c) ==> a.same_value(&c),
{
    let pa = pow10(a.scale as nat) as int;
    let pb = pow10(b.scale as nat) as int;
    let pc = pow10(c.scale as nat) as int;
    let ma = a.mantissa as int;
    let mb = b.mantissa as int;
    let mc = c.mantissa as int;
    lemma_pow10_positive(b.scale as nat);
    assert(ma * pb == mb * pa && mb * pc == mc * pb ==> ma * pc == mc * pa) by (nonlinear_arith)
        requires
            pb > 0,
    {
        if ma * pb == mb * pa && mb * pc == mc * pb {
            assert((ma * pc) * pb == (ma * pb) * pc);
            assert((mb * pa) * pc == (mb * pc) * pa);
            assert((mc * pb) * pa == (mc * pa) * pb);
            assert((ma * pc - mc * pa) * pb == 0);
        }
    }
}

/// The text that a whole number is written as is read as that number.
pub proof fn lemma_written_integer_is_read(i: int)
    ensures
        is_integer_literal(int_text(i)),
        integer_literal_value(int_text(i)) == i,
        i16::MIN <= i <= i16::MAX ==> integer_in_16_bits(int_text(i)) == Some(i as i16),
{
    let t = int_text(i);
    if i < 0 {
        let digits = nat_text((-i) as nat);
        lemma_nat_text_is_read((-i) as nat);
        assert(t[0] == '-');
        assert(unsigned_part(t) =~= digits);
    } else {
        lemma_nat_text_is_read(i as nat);
        assert(is_digit(t[0]));
        assert(unsigned_part(t) == t);
    }
}

/// The text that a decimal is written as is a decimal literal, and is read
/// as that decimal: the same mantissa and the same scale.
pub proof fn lemma_written_decimal_is_read(mantissa: int, scale: nat)
    ensures
        is_decimal_literal(decimal_text(mantissa, scale)),
        literal_mantissa(decimal_text(mantissa, scale)) == mantissa,
        literal_scale(decimal_text(mantissa, scale)) == scale,
{
    let t = decimal_text(mantissa, scale);
    let size = magnitude(mantissa);
    let unit = pow10(scale);
    lemma_pow10_positive(scale);
    let whole = nat_text(size / unit);
    let fraction = padded_digits(size % unit, scale);
    lemma_nat_text_is_read(size / unit);
    lemma_padded_digits_are_read(size % unit, scale);
    let rest = if scale == 0 {
        Seq::<char>::empty()
    } else {
        seq!['.'] + fraction
    };
    let body = whole + rest;
    assert(is_digit(whole[0]));
    if mantissa < 0 {
        assert(t[0] == '-');
        assert(unsigned_part(t) =~= body);
    } else {
        assert(t =~= body);
        assert(t[0] == whole[0]);
        assert(!has_minus(t));
    }
    assert(unsigned_part(t) == body);
    lemma_leading_digits_stop(whole, rest);
    assert(literal_whole(t) =~= whole);
    if scale == 0 {
        assert(body =~= whole);
        assert(literal_fraction(t) =~= fraction);
    } else {
        assert(body[whole.len() as int] == '.');
        assert(literal_fraction(t) =~= fraction);
    }
    assert(literal_digits(t) == whole + fraction);
    lemma_digits_value_joined(whole, fraction);
    lemma_fundamental_div_mod(size as int, unit as int);
    vstd::arithmetic::div_mod::lemma_mod_pos_bound(size as int, unit as int);
    assert((size % unit) % unit == size % unit) by {
        vstd::arithmetic::div_mod::lemma_small_mod((size % unit) as nat, unit);
    }
    assert((size / unit) * unit == unit * (size / unit)) by (nonlinear_arith);
}

/// A coefficient literal, the separator and an exponent literal, written
/// one after the other, are a number in scientific notation, and are read as
/// exactly that coefficient and that exponent.
pub proof fn lemma_written_notation_is_read(coefficient: Seq<char>, exponent: Seq<char>)
    requires
        decimal_in_64_bits(coefficient),
        integer_in_16_bits(exponent) is Some,
    ensures
        ({
            let s = coefficient + separator() + exponent;
            &&& has_single_separator(s)
            &&& SciNote::coefficient_part(s) == coefficient
            &&& SciNote::exponent_part(s) == exponent
            &&& SciNote::is_notation(s)
            &&& SciNote::notation_value(s) == SciNote {
                coefficient: Coefficient {
                    mantissa: literal_mantissa(coefficient) as i64,
                    scale: literal_scale(coefficient) as u32,
                },
                exponent: integer_in_16_bits(exponent)->0,
                display_decimals: None,
            }
        }),
{
    let s = coefficient + separator() + exponent;
    let at = coefficient.len() as int;
    lemma_literal_has_no_x(coefficient);
    assert forall|j: int| 0 <= j < exponent.len() implies exponent[j] != 'x' by {
        if !(j == 0 && has_minus(exponent)) {
            let digits = unsigned_part(exponent);
            if has_minus(exponent) {
                assert(digits[j - 1] == exponent[j]);
            } else {
                assert(digits[j] == exponent[j]);
            }
        }
    }
    assert(separator_at(s, at));
    assert forall|j: int| #[trigger] separator_at(s, j) implies j == at by {
        if j < at {
            assert(s[j] == coefficient[j]);
        } else if j > at + 3 {
            assert(s[j] == exponent[j - at - 4]);
        } else if j > at {
            assert(s[j] != 'x');
        }
    }
    assert(separator_index(s) == at);
    assert(SciNote::coefficient_part(s) =~= coefficient);
    assert(SciNote::exponent_part(s) =~= exponent);
}

/// No character of a decimal literal is an `x`.
proof fn lemma_literal_has_no_x(s: Seq<char>)
    requires
        is_decimal_literal(s),
    ensures
        forall|j: int| 0 <= j < s.len() ==> s[j] != 'x',
{
    let body = unsigned_part(s);
    let whole = leading_digits(body);
    lemma_leading_digits_are_digits(body);
    assert forall|j: int| 0 <= j < body.len() implies body[j] != 'x' by {
        if j < whole {
            assert(is_digit(body[j]));
        } else if j > whole {
            assert(literal_fraction(s)[j - whole - 1] == body[j]);
        }
    }
    assert forall|j: int| 0 <= j < s.len() implies s[j] != 'x' by {
        if has_minus(s) {
            if j > 0 {
                assert(body[j - 1] == s[j]);
            }
        }
    }
}

/// The characters that `leading_digits` counts are digits.
proof fn lemma_leading_digits_are_digits(s: Seq<char>)
    ensures
        leading_digits(s) <= s.len(),
        forall|j: int| 0 <= j < leading_digits(s) ==> is_digit(#[trigger] s[j]),
    decreases s.len(),
{
    if s.len() > 0 && is_digit(s[0]) {
        lemma_leading_digits_are_digits(s.skip(1));
        assert forall|j: int| 0 <= j < leading_digits(s) implies is_digit(#[trigger] s[j]) by {
            if j > 0 {
                assert(s.skip(1)[j - 1] == s[j]);
            }
        }
    }
}

/// Reading the text of a value gives the value back: the coefficient as it
/// was shown, rounded to the display precision, and the exponent. The
/// display precision itself is not part of the text.
pub proof fn lemma_text_is_read(v: SciNote)
    requires
        v.wf(),
    ensures
        SciNote::is_notation(v.text()),
        SciNote::notation_value(v.text()) == v.as_shown(),
{
    let mantissa = rounded_mantissa(
        v.coefficient.mantissa as int,
        v.coefficient.scale as nat,
        v.shown_places(),
    );
    let scale = rounded_scale(v.coefficient.scale as nat, v.shown_places());
    lemma_rounding_shrinks(v.coefficient.mantissa as int, v.coefficient.scale as nat, v.shown_places());
    lemma_written_decimal_is_read(mantissa, scale);
    lemma_written_integer_is_read(v.exponent as int);
    lemma_written_notation_is_read(decimal_text(mantissa, scale), int_text(v.exponent as int));
}

/// What was written, read and written again with the same display
/// precision is the same text.
pub proof fn lemma_written_again_is_the_same(v: SciNote)
    requires
        v.wf(),
    ensures
        ({
            let read = SciNote::notation_value(v.text());
            let again = SciNote { display_decimals: v.display_decimals, ..read };
            again.text() == v.text()
        }),
{
    lemma_text_is_read(v);
    lemma_rounding_shrinks(v.coefficient.mantissa as int, v.coefficient.scale as nat, v.shown_places());
}

} // verus!

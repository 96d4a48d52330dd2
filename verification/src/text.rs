//! Digit strings: what they are worth, how a number is written as one, and
//! the two literals of the notation: the whole number that the exponent is
//! written as and the decimal that the coefficient is written as.

use crate::coefficient::MAX_SCALE;
use crate::digits::{lemma_pow10_positive, pow10};
use vstd::prelude::*;

verus! {

/// Whether `c` is one of the ten decimal digits.
pub open spec fn is_digit(c: char) -> bool {
    '0' <= c && c <= '9'
}

/// The number that the digit `c` stands for.
pub open spec fn digit_value(c: char) -> nat {
    (c as int - '0' as int) as nat
}

/// The digit that stands for `d`, for `d` below ten.
pub open spec fn digit_char(d: nat) -> char {
    (d + '0' as int) as char
}

/// Whether every character of `s` is a digit.
pub open spec fn all_digits(s: Seq<char>) -> bool {
    forall|i: int| 0 <= i < s.len() ==> is_digit(#[trigger] s[i])
}

/// The number that the digit string `s` is read as; the empty string as zero.
pub open spec fn digits_value(s: Seq<char>) -> nat
    decreases s.len(),
{
    if s.len() == 0 {
        0
    } else {
        10 * digits_value(s.drop_last()) + digit_value(s.last())
    }
}

/// The digits that `n` is written with, without leading zeros.
pub open spec fn nat_text(n: nat) -> Seq<char>
    decreases n,
{
    if n < 10 {
        seq![digit_char(n)]
    } else {
        nat_text(n / 10).push(digit_char(n % 10))
    }
}

/// The last `width` digits of `n`, with leading zeros where `n` has fewer.
pub open spec fn padded_digits(n: nat, width: nat) -> Seq<char>
    decreases width,
{
    if width == 0 {
        Seq::empty()
    } else {
        padded_digits(n / 10, (width - 1) as nat).push(digit_char(n % 10))
    }
}

/// The text that the whole number `i` is written as: its digits, behind a
/// minus sign where it is negative.
pub open spec fn int_text(i: int) -> Seq<char> {
    if i < 0 {
        seq!['-'] + nat_text((-i) as nat)
    } else {
        nat_text(i as nat)
    }
}

/// What stands between the coefficient and the exponent: `x10^`.
pub open spec fn separator() -> Seq<char> {
    seq!['x', '1', '0', '^']
}

/// Whether the separator stands at position `i` of `s`.
pub open spec fn separator_at(s: Seq<char>, i: int) -> bool {
    &&& 0 <= i
    &&& i + 4 <= s.len()
    &&& s[i] == 'x'
    &&& s[i + 1] == '1'
    &&& s[i + 2] == '0'
    &&& s[i + 3] == '^'
}

/// Whether the separator occurs in `s` exactly once.
pub open spec fn has_single_separator(s: Seq<char>) -> bool {
    exists|i: int| #[trigger] separator_at(s, i) && forall|j: int| #[trigger]
        separator_at(s, j) ==> j == i
}

/// Where the separator stands in `s`.
pub open spec fn separator_index(s: Seq<char>) -> int {
    choose|i: int| separator_at(s, i)
}

/// Whether the text starts with a minus sign.
pub open spec fn has_minus(s: Seq<char>) -> bool {
    s.len() > 0 && s[0] == '-'
}

/// The text without its leading minus sign, where it has one.
pub open spec fn unsigned_part(s: Seq<char>) -> Seq<char> {
    if has_minus(s) {
        s.skip(1)
    } else {
        s
    }
}

/// Whether `s` is a whole number: an optional minus sign, then one or more
/// digits and nothing else.
pub open spec fn is_integer_literal(s: Seq<char>) -> bool {
    unsigned_part(s).len() > 0 && all_digits(unsigned_part(s))
}

/// The number that the whole-number literal `s` is read as.
pub open spec fn integer_literal_value(s: Seq<char>) -> int {
    if has_minus(s) {
        -(digits_value(unsigned_part(s)) as int)
    } else {
        digits_value(unsigned_part(s)) as int
    }
}

/// How many digits `s` starts with.
pub open spec fn leading_digits(s: Seq<char>) -> nat
    decreases s.len(),
{
    if s.len() == 0 || !is_digit(s[0]) {
        0
    } else {
        1 + leading_digits(s.skip(1))
    }
}

/// The digits before the decimal point of the literal `s`.
pub open spec fn literal_whole(s: Seq<char>) -> Seq<char> {
    unsigned_part(s).take(leading_digits(unsigned_part(s)) as int)
}

/// What follows the decimal point of the literal `s`; empty where it has no
/// point.
pub open spec fn literal_fraction(s: Seq<char>) -> Seq<char> {
    let body = unsigned_part(s);
    let whole = leading_digits(body);
    if whole < body.len() {
        body.skip(whole as int + 1)
    } else {
        Seq::empty()
    }
}

/// Whether `s` is a decimal: an optional minus sign and one or more digits,
/// which a single point and one or more digits may follow.
pub open spec fn is_decimal_literal(s: Seq<char>) -> bool {
    let body = unsigned_part(s);
    let whole = leading_digits(body);
    &&& whole >= 1
    &&& whole < body.len() ==> {
        &&& body[whole as int] == '.'
        &&& literal_fraction(s).len() >= 1
        &&& all_digits(literal_fraction(s))
    }
}

/// All the digits of the decimal literal `s`, the point left out.
pub open spec fn literal_digits(s: Seq<char>) -> Seq<char> {
    literal_whole(s) + literal_fraction(s)
}

/// How many digits of the decimal literal `s` stand behind its point.
pub open spec fn literal_scale(s: Seq<char>) -> nat {
    literal_fraction(s).len()
}

/// The decimal literal `s`, read as a whole number of units of
/// `10^-literal_scale(s)`.
pub open spec fn literal_mantissa(s: Seq<char>) -> int {
    if has_minus(s) {
        -(digits_value(literal_digits(s)) as int)
    } else {
        digits_value(literal_digits(s)) as int
    }
}

/// The text that the decimal `mantissa / 10^scale` is written as: a minus
/// sign where it is negative, the digits of its whole part and, where the
/// scale is not zero, a point and exactly `scale` fractional digits.
pub open spec fn decimal_text(mantissa: int, scale: nat) -> Seq<char> {
    let size = if mantissa < 0 {
        (-mantissa) as nat
    } else {
        mantissa as nat
    };
    let sign = if mantissa < 0 {
        seq!['-']
    } else {
        Seq::empty()
    };
    let whole = nat_text(size / pow10(scale));
    if scale == 0 {
        sign + whole
    } else {
        sign + whole + seq!['.'] + padded_digits(size % pow10(scale), scale)
    }
}

/// Whether `s` is a decimal literal that a coefficient can hold: with no
/// more than 28 fractional digits and a mantissa of 64 bits.
pub open spec fn decimal_in_64_bits(s: Seq<char>) -> bool {
    &&& is_decimal_literal(s)
    &&& literal_scale(s) <= MAX_SCALE
    &&& i64::MIN <= literal_mantissa(s) <= i64::MAX
}

/// The whole number that `s` is read as, where `s` is a whole-number literal
/// of a 16-bit value.
pub open spec fn integer_in_16_bits(s: Seq<char>) -> Option<i16> {
    if is_integer_literal(s) && i16::MIN <= integer_literal_value(s) <= i16::MAX {
        Some(integer_literal_value(s) as i16)
    } else {
        None
    }
}

/// A digit string is worth at least what it was worth before its last digit.
pub proof fn lemma_digits_value_grows(s: Seq<char>)
    requires
        s.len() > 0,
    ensures
        digits_value(s) >= digits_value(s.drop_last()),
        digits_value(s) == 10 * digits_value(s.drop_last()) + digit_value(s.last()),
{
}

/// A string of `n` digits is worth less than `10^n`.
pub proof fn lemma_digits_value_below(s: Seq<char>)
    requires
        all_digits(s),
    ensures
        digits_value(s) < pow10(s.len()),
    decreases s.len(),
{
    if s.len() > 0 {
        assert(is_digit(s[s.len() - 1]));
        assert(all_digits(s.drop_last()));
        lemma_digits_value_below(s.drop_last());
    }
}

/// Leading zeros add nothing to what a digit string is worth.
pub proof fn lemma_digits_value_skips_zeros(s: Seq<char>, zeros: nat)
    requires
        zeros <= s.len(),
        forall|i: int| 0 <= i < zeros ==> s[i] == '0',
    ensures
        digits_value(s) == digits_value(s.skip(zeros as int)),
    decreases s.len(),
{
    if s.len() == 0 {
        assert(s.skip(0) =~= s);
    } else if zeros == s.len() {
        lemma_digits_value_skips_zeros(s.drop_last(), (zeros - 1) as nat);
        assert(s.drop_last().skip(zeros - 1).len() == 0);
        assert(s.skip(zeros as int).len() == 0);
        assert(s[s.len() - 1] == '0');
    } else {
        lemma_digits_value_skips_zeros(s.drop_last(), zeros);
        assert(s.skip(zeros as int).drop_last() =~= s.drop_last().skip(zeros as int));
        assert(s.skip(zeros as int).last() == s.last());
    }
}

/// A digit string that starts with a digit other than zero is worth at
/// least `10^(n - 1)`, where `n` is its length.
pub proof fn lemma_digits_value_from(s: Seq<char>)
    requires
        all_digits(s),
        s.len() >= 1,
        s[0] != '0',
    ensures
        digits_value(s) >= pow10((s.len() - 1) as nat),
    decreases s.len(),
{
    assert(is_digit(s[0]));
    if s.len() == 1 {
        assert(s.drop_last().len() == 0);
        assert(digits_value(s.drop_last()) == 0);
        assert(pow10(0) == 1);
    } else {
        assert(all_digits(s.drop_last()));
        lemma_digits_value_from(s.drop_last());
        assert(pow10((s.len() - 1) as nat) == 10 * pow10((s.len() - 2) as nat));
    }
}

/// Read together, two digit strings are worth the first, moved left by the
/// length of the second, plus the second.
pub proof fn lemma_digits_value_joined(a: Seq<char>, b: Seq<char>)
    ensures
        digits_value(a + b) == digits_value(a) * pow10(b.len()) + digits_value(b),
    decreases b.len(),
{
    if b.len() == 0 {
        assert(a + b =~= a);
        assert(pow10(0) == 1);
        assert(digits_value(a) * 1 == digits_value(a));
    } else {
        let front = b.drop_last();
        lemma_digits_value_joined(a, front);
        assert((a + b).drop_last() =~= a + front);
        assert((a + b).last() == b.last());
        assert(pow10(b.len()) == 10 * pow10(front.len()));
        let x = digits_value(a) as int;
        let p = pow10(front.len()) as int;
        assert(10 * (x * p) == x * (10 * p)) by (nonlinear_arith);
    }
}

/// A digit string followed by something that does not start with a digit
/// starts with exactly its own digits.
pub proof fn lemma_leading_digits_stop(digits: Seq<char>, rest: Seq<char>)
    requires
        all_digits(digits),
        rest.len() == 0 || !is_digit(rest[0]),
    ensures
        leading_digits(digits + rest) == digits.len(),
    decreases digits.len(),
{
    if digits.len() == 0 {
        assert(digits + rest =~= rest);
    } else {
        assert(is_digit(digits[0]));
        assert((digits + rest)[0] == digits[0]);
        assert(all_digits(digits.skip(1))) by {
            assert forall|i: int| 0 <= i < digits.skip(1).len() implies is_digit(
                #[trigger] digits.skip(1)[i],
            ) by {
                assert(digits.skip(1)[i] == digits[i + 1]);
            }
        }
        lemma_leading_digits_stop(digits.skip(1), rest);
        assert((digits + rest).skip(1) =~= digits.skip(1) + rest);
    }
}

/// The digits that a number is written with spell that number.
pub proof fn lemma_nat_text_is_read(n: nat)
    ensures
        all_digits(nat_text(n)),
        nat_text(n).len() >= 1,
        digits_value(nat_text(n)) == n,
    decreases n,
{
    let t = nat_text(n);
    if n < 10 {
        assert(t.len() == 1);
        assert(t[0] == digit_char(n));
        assert(t.drop_last().len() == 0);
        assert(digits_value(t.drop_last()) == 0);
    } else {
        lemma_nat_text_is_read(n / 10);
        let front = nat_text(n / 10);
        assert(t == front.push(digit_char(n % 10)));
        assert(t.drop_last() =~= front);
        assert(t.last() == digit_char(n % 10));
        assert forall|i: int| 0 <= i < t.len() implies is_digit(#[trigger] t[i]) by {
            if i < front.len() {
                assert(t[i] == front[i]);
            }
        }
    }
}

/// The padded digits of a number are as many as asked for, and spell what
/// is left of the number below that many digits.
pub proof fn lemma_padded_digits_are_read(n: nat, width: nat)
    ensures
        all_digits(padded_digits(n, width)),
        padded_digits(n, width).len() == width,
        digits_value(padded_digits(n, width)) == n % pow10(width),
    decreases width,
{
    let t = padded_digits(n, width);
    if width == 0 {
        assert(pow10(0) == 1);
    } else {
        let front = padded_digits(n / 10, (width - 1) as nat);
        lemma_padded_digits_are_read(n / 10, (width - 1) as nat);
        assert(t == front.push(digit_char(n % 10)));
        assert(t.drop_last() =~= front);
        assert(t.last() == digit_char(n % 10));
        assert forall|i: int| 0 <= i < t.len() implies is_digit(#[trigger] t[i]) by {
            if i < front.len() {
                assert(t[i] == front[i]);
            }
        }
        let p = pow10((width - 1) as nat) as int;
        lemma_pow10_positive((width - 1) as nat);
        assert(pow10(width) == 10 * p);
        vstd::arithmetic::div_mod::lemma_breakdown(n as int, 10, p);
    }
}

/// The characters of `s`, one by one.
pub fn chars_of(s: &str) -> (v: Vec<char>)
    ensures
        v@ == s@,
{
    let mut v: Vec<char> = Vec::new();
    for c in it: s.chars()
        invariant
            v@ == it.seq().take(it.index() as int),
            it.seq() == s@,
    {
        v.push(c);
    }
    v
}

/// The number that the digit `c` stands for; `None` where `c` is no digit.
pub fn digit_of(c: char) -> (r: Option<u32>)
    ensures
        (r is Some) == is_digit(c),
        r matches Some(d) ==> d == digit_value(c) && d < 10,
{
    if c >= '0' && c <= '9' {
        Some(c as u32 - 48)
    } else {
        None
    }
}

/// Reads what follows position `start` of `chars` as a whole number of 16
/// bits: an optional minus sign and one or more digits. Anything else, and a
/// number that 16 bits cannot hold, gives `None`.
pub fn read_integer(chars: &Vec<char>, start: usize) -> (r: Option<i16>)
    requires
        start <= chars.len(),
    ensures
        r == integer_in_16_bits(chars@.skip(start as int)),
{
    let n = chars.len();
    let ghost s = chars@.skip(start as int);
    let negative = start < n && chars[start] == '-';
    let first: usize = if negative {
        start + 1
    } else {
        start
    };
    assert(unsigned_part(s) =~= chars@.subrange(first as int, n as int));
    if first >= n {
        return None;
    }
    let mut seen: u32 = 0;
    let mut i: usize = first;
    while i < n
        invariant
            first <= i <= n,
            n == chars.len(),
            unsigned_part(chars@.skip(start as int)) == chars@.subrange(first as int, n as int),
            all_digits(chars@.subrange(first as int, i as int)),
            seen == if digits_value(chars@.subrange(first as int, i as int)) > 32768 {
                32769
            } else {
                digits_value(chars@.subrange(first as int, i as int))
            },
        decreases n - i,
    {
        let digit = match digit_of(chars[i]) {
            Some(d) => d,
            None => {
                assert(chars@.subrange(first as int, n as int)[i - first] == chars@[i as int]);
                return None;
            },
        };
        proof {
            let next = chars@.subrange(first as int, i + 1);
            assert(next.drop_last() =~= chars@.subrange(first as int, i as int));
            assert(next.last() == chars@[i as int]);
            lemma_digits_value_grows(next);
        }
        seen = if seen > 32768 {
            32769
        } else if seen * 10 + digit > 32768 {
            32769
        } else {
            seen * 10 + digit
        };
        i = i + 1;
    }
    if negative {
        if seen > 32768 {
            None
        } else {
            Some((-(seen as i32)) as i16)
        }
    } else {
        if seen > 32767 {
            None
        } else {
            Some(seen as i16)
        }
    }
}

/// Finds the separator `x10^` in `chars`: its position where it occurs
/// exactly once, `None` where it occurs more than once or not at all.
pub fn find_separator(chars: &Vec<char>) -> (r: Option<usize>)
    ensures
        match r {
            Some(i) => has_single_separator(chars@) && i == separator_index(chars@),
            None => !has_single_separator(chars@),
        },
{
    let n = chars.len();
    let mut found: Option<usize> = None;
    let mut i: usize = 0;
    while i < n && n - i >= 4
        invariant
            i <= n,
            n == chars.len(),
            found is None ==> forall|j: int| 0 <= j < i ==> !#[trigger] separator_at(chars@, j),
            found matches Some(at) ==> at < i && separator_at(chars@, at as int) && forall|j: int|
                0 <= j < i && #[trigger] separator_at(chars@, j) ==> j == at,
        decreases n - i,
    {
        if chars[i] == 'x' && chars[i + 1] == '1' && chars[i + 2] == '0' && chars[i + 3] == '^' {
            assert(separator_at(chars@, i as int));
            if found.is_some() {
                return None;
            }
            found = Some(i);
        }
        i = i + 1;
    }
    proof {
        assert forall|j: int| i <= j implies !#[trigger] separator_at(chars@, j) by {}
        if found is Some {
            let at = found->0 as int;
            assert(separator_at(chars@, at));
        }
    }
    found
}

/// How many characters from `start` on, and before `end`, are digits in a
/// row.
fn count_digits_from(chars: &Vec<char>, start: usize, end: usize) -> (r: usize)
    requires
        start <= end <= chars.len(),
    ensures
        r == leading_digits(chars@.subrange(start as int, end as int)),
        start + r <= end,
        all_digits(chars@.subrange(start as int, start + r)),
{
    let mut i: usize = start;
    let ghost range = chars@.subrange(start as int, end as int);
    assert(range.skip(0) =~= range);
    while i < end && digit_of(chars[i]).is_some()
        invariant
            start <= i <= end <= chars.len(),
            range == chars@.subrange(start as int, end as int),
            leading_digits(range) == (i - start) + leading_digits(range.skip(i - start)),
            all_digits(chars@.subrange(start as int, i as int)),
        decreases end - i,
    {
        proof {
            let rest = range.skip(i - start);
            assert(rest[0] == chars@[i as int]);
            assert(rest.skip(1) =~= range.skip(i + 1 - start));
        }
        i = i + 1;
    }
    proof {
        let rest = range.skip(i - start);
        if i < end {
            assert(rest[0] == chars@[i as int]);
        }
        assert(range.skip(0) =~= range);
    }
    i - start
}

/// Splits a decimal literal into all its digits and the count of those
/// behind the point; `None` where `chars` is no decimal literal.
pub fn scan_decimal(chars: &Vec<char>) -> (r: Option<(Vec<char>, usize)>)
    ensures
        match r {
            Some((digits, scale)) => {
                &&& is_decimal_literal(chars@)
                &&& digits@ == literal_digits(chars@)
                &&& scale == literal_scale(chars@)
                &&& all_digits(digits@)
            },
            None => !is_decimal_literal(chars@),
        },
{
    let n = chars.len();
    let first: usize = if n > 0 && chars[0] == '-' {
        1
    } else {
        0
    };
    let ghost body = unsigned_part(chars@);
    assert(body =~= chars@.subrange(first as int, n as int));
    let whole = count_digits_from(chars, first, n);
    if whole == 0 {
        return None;
    }
    let point = first + whole;
    let mut digits: Vec<char> = Vec::new();
    let mut i: usize = first;
    while i < point
        invariant
            first <= i <= point <= n,
            n == chars.len(),
            digits@ == chars@.subrange(first as int, i as int),
        decreases point - i,
    {
        digits.push(chars[i]);
        assert(digits@ =~= chars@.subrange(first as int, i + 1));
        i = i + 1;
    }
    assert(digits@ =~= literal_whole(chars@));
    if point == n {
        assert(literal_fraction(chars@) =~= Seq::<char>::empty());
        assert(digits@ =~= literal_digits(chars@));
        return Some((digits, 0));
    }
    assert(body[whole as int] == chars@[point as int]);
    if chars[point] != '.' {
        return None;
    }
    assert(literal_fraction(chars@) =~= chars@.subrange(point + 1, n as int));
    let behind = count_digits_from(chars, point + 1, n);
    if behind == 0 || point + 1 + behind < n {
        proof {
            let fraction = chars@.subrange(point + 1, n as int);
            if all_digits(fraction) {
                lemma_leading_digits_all(fraction);
            }
        }
        return None;
    }
    let mut j: usize = point + 1;
    while j < n
        invariant
            first <= point,
            point + 1 <= j <= n,
            n == chars.len(),
            digits@ == chars@.subrange(first as int, point as int) + chars@.subrange(
                point + 1,
                j as int,
            ),
        decreases n - j,
    {
        digits.push(chars[j]);
        assert(digits@ =~= chars@.subrange(first as int, point as int) + chars@.subrange(
            point + 1,
            j + 1,
        ));
        j = j + 1;
    }
    assert(all_digits(literal_fraction(chars@)));
    assert(digits@ =~= literal_digits(chars@));
    Some((digits, behind))
}

/// A digit string starts with as many digits as it is long.
pub proof fn lemma_leading_digits_all(s: Seq<char>)
    requires
        all_digits(s),
    ensures
        leading_digits(s) == s.len(),
    decreases s.len(),
{
    if s.len() > 0 {
        assert(is_digit(s[0]));
        assert(all_digits(s.skip(1))) by {
            assert forall|i: int| 0 <= i < s.skip(1).len() implies is_digit(#[trigger] s.skip(1)[i]) by {
                assert(s.skip(1)[i] == s[i + 1]);
            }
        }
        lemma_leading_digits_all(s.skip(1));
    }
}

/// How many digits of `digits` are left once its leading zeros are taken
/// away: the width of the number that the digits spell, or zero where they
/// spell zero.
pub fn significant_digits(digits: &Vec<char>) -> (r: usize)
    requires
        all_digits(digits@),
    ensures
        r <= digits.len(),
        digits_value(digits@) < pow10(r as nat),
        r > 0 ==> digits_value(digits@) >= pow10((r - 1) as nat),
{
    let n = digits.len();
    let mut zeros: usize = 0;
    while zeros < n && digits[zeros] == '0'
        invariant
            zeros <= n,
            n == digits.len(),
            forall|i: int| 0 <= i < zeros ==> digits@[i] == '0',
        decreases n - zeros,
    {
        zeros = zeros + 1;
    }
    proof {
        let rest = digits@.skip(zeros as int);
        lemma_digits_value_skips_zeros(digits@, zeros as nat);
        assert(all_digits(rest)) by {
            assert forall|i: int| 0 <= i < rest.len() implies is_digit(#[trigger] rest[i]) by {
                assert(rest[i] == digits@[i + zeros]);
            }
        }
        lemma_digits_value_below(rest);
        if zeros < n {
            assert(rest[0] == digits@[zeros as int]);
            lemma_digits_value_from(rest);
        }
    }
    n - zeros
}

/// The one-character text of the digit `d`.
fn digit_str(d: u32) -> (r: &'static str)
    requires
        d < 10,
    ensures
        r@ == seq![digit_char(d as nat)],
{
    proof {
        reveal_strlit("0");
        reveal_strlit("1");
        reveal_strlit("2");
        reveal_strlit("3");
        reveal_strlit("4");
        reveal_strlit("5");
        reveal_strlit("6");
        reveal_strlit("7");
        reveal_strlit("8");
        reveal_strlit("9");
    }
    let r = match d {
        0 => "0",
        1 => "1",
        2 => "2",
        3 => "3",
        4 => "4",
        5 => "5",
        6 => "6",
        7 => "7",
        8 => "8",
        _ => "9",
    };
    assert(r@ =~= seq![digit_char(d as nat)]);
    r
}

/// Appends the digits of `n` to `out`.
fn push_nat(out: &mut String, n: u32)
    ensures
        final(out)@ == old(out)@ + nat_text(n as nat),
    decreases n,
{
    if n >= 10 {
        push_nat(out, n / 10);
    }
    out.append(digit_str(n % 10));
    assert(final(out)@ =~= old(out)@ + nat_text(n as nat));
}

/// The text of the whole number `i`: its digits without leading zeros,
/// behind a minus sign where it is negative.
pub fn integer_to_string(i: i16) -> (r: String)
    ensures
        r@ == int_text(i as int),
{
    let mut out = String::new();
    if i < 0 {
        proof {
            reveal_strlit("-");
        }
        out.append("-");
        push_nat(&mut out, (-(i as i32)) as u32);
        assert(out@ =~= int_text(i as int));
    } else {
        push_nat(&mut out, i as u32);
        assert(out@ =~= int_text(i as int));
    }
    out
}

} // verus!

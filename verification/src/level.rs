use crate::text::{
    after_sign, all_digits, decimal_capped, decimal_value, digit_value, digits_only, find_mark,
    first_of, is_digit, unsigned,
};
use vstd::prelude::*;

verus! {

/// The code of the character, or of its small letter if it is a capital letter of the
/// alphabet.
pub open spec fn lower(c: char) -> int {
    if 'A' <= c <= 'Z' {
        c as int + 32
    } else {
        c as int
    }
}

/// Whether the text spells the word, in small or in capital letters.
pub open spec fn spells(text: Seq<char>, word: Seq<char>) -> bool {
    &&& text.len() == word.len()
    &&& forall|i: int| 0 <= i < text.len() ==> lower(#[trigger] text[i]) == word[i] as int
}

/// The power of ten with the exponent `k`.
pub open spec fn pow10(k: nat) -> nat
    decreases k,
{
    if k == 0 {
        1
    } else {
        10 * pow10((k - 1) as nat)
    }
}

/// The part of a number before its exponent.
pub open spec fn mantissa_of(number: Seq<char>) -> Seq<char> {
    number.take(first_of(number, set!['e', 'E']))
}

/// The exponent that a number is written with: what follows its first `e` or `E`, which is
/// a row of decimal digits that a `+` or a `-` may precede. Zero for a number without an
/// exponent; `None` where what follows is no such row.
pub open spec fn exponent_of(number: Seq<char>) -> Option<int> {
    let at = first_of(number, set!['e', 'E']);
    if at >= number.len() {
        Some(0)
    } else {
        let text = number.skip(at + 1);
        let digits = unsigned(text, true);
        if digits.len() > 0 && all_digits(digits) {
            if text[0] == '-' {
                Some(-(decimal_value(digits) as int))
            } else {
                Some(decimal_value(digits) as int)
            }
        } else {
            None
        }
    }
}

/// The digits of a mantissa before its point.
pub open spec fn whole_of(mantissa: Seq<char>) -> Seq<char> {
    mantissa.take(first_of(mantissa, set!['.']))
}

/// The digits of a mantissa after its point; none if it has no point.
pub open spec fn fraction_of(mantissa: Seq<char>) -> Seq<char> {
    if first_of(mantissa, set!['.']) < mantissa.len() {
        mantissa.skip(first_of(mantissa, set!['.']) + 1)
    } else {
        Seq::empty()
    }
}

/// The number that the digits write when the point stands before the digit `point`,
/// rounded to the nearest integer, a half upwards. A point before 0 stands so many zeros
/// before the digits, a point after the last digit so many zeros after them.
pub open spec fn rounded(digits: Seq<char>, point: int) -> nat {
    if point < 0 {
        0
    } else if point >= digits.len() {
        decimal_value(digits) * pow10((point - digits.len()) as nat)
    } else if digit_value(digits[point]) >= 5 {
        decimal_value(digits.take(point)) + 1
    } else {
        decimal_value(digits.take(point))
    }
}

/// The value held to the range of 64 bits.
pub open spec fn clamp_i64(value: int) -> int {
    if value < i64::MIN {
        i64::MIN as int
    } else if value > i64::MAX {
        i64::MAX as int
    } else {
        value
    }
}

/// The level that a number without its sign stands for: its digits with the point moved
/// by the exponent, rounded, with the sign, and held to the range of 64 bits. `None`
/// where the text is no number: where anything but digits stands beside the one point, no
/// digit stands at all, or what follows the mark of the exponent is no exponent.
pub open spec fn number_level(number: Seq<char>, negative: bool) -> Option<int> {
    let whole = whole_of(mantissa_of(number));
    let fraction = fraction_of(mantissa_of(number));
    match exponent_of(number) {
        None => None,
        Some(exponent) => if all_digits(whole) && all_digits(fraction) && whole.len()
            + fraction.len() > 0 {
            let magnitude = rounded(whole + fraction, whole.len() + exponent);
            Some(
                clamp_i64(
                    if negative {
                        -(magnitude as int)
                    } else {
                        magnitude as int
                    },
                ),
            )
        } else {
            None
        },
    }
}

/// The methylation level that a percentage field stands for: the number that the field
/// writes, rounded to the nearest integer, halves away from zero, and held to the range of
/// 64 bits.
///
/// The field is a decimal number as floating-point numbers are written: digits with at
/// most one point among them, before them or after them; then, if any, an exponent of
/// ten, marked by `e` or `E`. A `+` or a `-` may precede. In place of the number may stand
/// `inf` or `infinity`, which give the end of the range, and `nan`, which gives zero, in
/// small or in capital letters. `None` for any other field.
pub open spec fn parse_level(text: Seq<char>) -> Option<int> {
    let negative = text.len() > 0 && text[0] == '-';
    let number = unsigned(text, true);
    if spells(number, seq!['n', 'a', 'n']) {
        Some(0)
    } else if spells(number, seq!['i', 'n', 'f']) || spells(
        number,
        seq!['i', 'n', 'f', 'i', 'n', 'i', 't', 'y'],
    ) {
        Some(
            if negative {
                i64::MIN as int
            } else {
                i64::MAX as int
            },
        )
    } else {
        number_level(number, negative)
    }
}

/// The number held to a limit.
pub open spec fn at_most(value: nat, limit: nat) -> nat {
    if value < limit {
        value
    } else {
        limit
    }
}

proof fn lemma_pow10_grows(low: nat, high: nat)
    requires
        low <= high,
    ensures
        1 <= pow10(low) <= pow10(high),
    decreases high,
{
    if low < high {
        lemma_pow10_grows(low, (high - 1) as nat);
    } else if low > 0 {
        lemma_pow10_grows((low - 1) as nat, (low - 1) as nat);
    }
}

proof fn lemma_pow10_19()
    ensures
        pow10(19) == 10_000_000_000_000_000_000,
{
    reveal_with_fuel(pow10, 20);
}

/// Far out, the place of the point does not matter to a number held to 64 bits: before all
/// digits it gives zero, and nineteen places or more after them it gives zero or more
/// than the limit.
proof fn lemma_far_point(digits: Seq<char>, near: int, far: int)
    requires
        (near < 0 && far < 0) || (digits.len() + 19 <= near <= far),
    ensures
        at_most(rounded(digits, near), 0x8000_0000_0000_0000) == at_most(
            rounded(digits, far),
            0x8000_0000_0000_0000,
        ),
{
    if near >= 0 {
        let value = decimal_value(digits);
        let short = pow10((near - digits.len()) as nat);
        let long = pow10((far - digits.len()) as nat);
        lemma_pow10_19();
        lemma_pow10_grows(19, (near - digits.len()) as nat);
        lemma_pow10_grows(19, (far - digits.len()) as nat);
        if value == 0 {
            assert(value * short == 0) by (nonlinear_arith)
                requires
                    value == 0,
            ;
            assert(value * long == 0) by (nonlinear_arith)
                requires
                    value == 0,
            ;
        } else {
            assert(value * short >= 10_000_000_000_000_000_000) by (nonlinear_arith)
                requires
                    value >= 1,
                    short >= 10_000_000_000_000_000_000,
            ;
            assert(value * long >= 10_000_000_000_000_000_000) by (nonlinear_arith)
                requires
                    value >= 1,
                    long >= 10_000_000_000_000_000_000,
            ;
        }
    }
}

/// Whether `chars[from..to]` spells the word, in small or in capital letters. The word is
/// given in small letters.
fn spells_word(chars: &Vec<char>, from: usize, to: usize, word: &Vec<char>) -> (r: bool)
    requires
        from <= to <= chars.len(),
        forall|i: int| 0 <= i < word.len() ==> 'a' <= #[trigger] word[i] <= 'z',
    ensures
        r == spells(chars@.subrange(from as int, to as int), word@),
{
    if to - from != word.len() {
        return false;
    }
    let ghost text = chars@.subrange(from as int, to as int);
    let mut i: usize = 0;
    while i < word.len()
        invariant
            i <= word.len(),
            from <= to <= chars.len(),
            to - from == word.len(),
            text == chars@.subrange(from as int, to as int),
            forall|j: int| 0 <= j < word.len() ==> 'a' <= #[trigger] word[j] <= 'z',
            forall|j: int| 0 <= j < i ==> lower(#[trigger] text[j]) == word[j] as int,
        decreases word.len() - i,
    {
        let c = chars[from + i];
        let w = word[i];
        let same = if 'A' <= c && c <= 'Z' {
            c as u32 + 32 == w as u32
        } else {
            c == w
        };
        proof {
            assert(text[i as int] == c);
        }
        if !same {
            return false;
        }
        i += 1;
    }
    true
}

/// The number times a power of ten, but no more than the limit.
fn times_pow10(value: u64, exponent: u128, limit: u64) -> (r: u64)
    requires
        value <= limit,
    ensures
        r == at_most(value as nat * pow10(exponent as nat), limit as nat),
{
    let mut scaled: u64 = value;
    let mut left: u128 = exponent;
    while left > 0 && 0 < scaled && scaled < limit
        invariant
            scaled <= limit,
            at_most(scaled as nat * pow10(left as nat), limit as nat) == at_most(
                value as nat * pow10(exponent as nat),
                limit as nat,
            ),
        decreases left,
    {
        let ghost rest = pow10((left - 1) as nat);
        proof {
            lemma_pow10_grows(0, (left - 1) as nat);
            assert(scaled as nat * pow10(left as nat) == (scaled * 10) as nat * rest)
                by (nonlinear_arith)
                requires
                    pow10(left as nat) == 10 * rest,
            ;
        }
        if scaled > limit / 10 {
            proof {
                assert((scaled * 10) as nat * rest >= limit) by (nonlinear_arith)
                    requires
                        scaled * 10 >= limit,
                        rest >= 1,
                ;
                assert(limit as nat * rest >= limit) by (nonlinear_arith)
                    requires
                        rest >= 1,
                ;
            }
            scaled = limit;
        } else {
            scaled = scaled * 10;
        }
        left = left - 1;
    }
    proof {
        lemma_pow10_grows(0, left as nat);
        let power = pow10(left as nat);
        if scaled == 0 {
            assert(scaled as nat * power == 0) by (nonlinear_arith)
                requires
                    scaled == 0,
            ;
        } else if left > 0 {
            assert(scaled as nat * power >= limit) by (nonlinear_arith)
                requires
                    scaled >= limit,
                    power >= 1,
            ;
        } else {
            assert(scaled as nat * power == scaled) by (nonlinear_arith)
                requires
                    power == 1,
            ;
        }
    }
    scaled
}

/// The number that the digits write with the point before the digit `point`, rounded, but
/// no more than the limit of 64 bits.
fn round_digits(digits: &Vec<char>, point: i128) -> (r: u64)
    requires
        all_digits(digits@),
    ensures
        r == at_most(rounded(digits@, point as int), 0x8000_0000_0000_0000),
{
    let limit: u64 = 0x8000_0000_0000_0000;
    if point < 0 {
        0
    } else if point >= digits.len() as i128 {
        assert(digits@.subrange(0, digits.len() as int) == digits@);
        let value = decimal_capped(digits, 0, digits.len(), limit as u128) as u64;
        let exponent: u128 = (point - digits.len() as i128) as u128;
        let r = times_pow10(value, exponent, limit);
        proof {
            let power = pow10(exponent as nat);
            lemma_pow10_grows(0, exponent as nat);
            if decimal_value(digits@) >= limit {
                assert(decimal_value(digits@) * power >= limit) by (nonlinear_arith)
                    requires
                        decimal_value(digits@) >= limit,
                        power >= 1,
                ;
                assert(limit as nat * power >= limit) by (nonlinear_arith)
                    requires
                        power >= 1,
                ;
            }
        }
        r
    } else {
        let at: usize = point as usize;
        assert(digits@.subrange(0, at as int) == digits@.take(at as int));
        let value = decimal_capped(digits, 0, at, limit as u128) as u64;
        assert(is_digit(digits@[at as int]));
        if value < limit && digits[at] >= '5' {
            value + 1
        } else {
            value
        }
    }
}

/// The number with its sign, held to the range of 64 bits.
fn signed_level(negative: bool, magnitude: u64) -> (r: i64)
    requires
        magnitude <= 0x8000_0000_0000_0000,
    ensures
        forall|value: nat|
            at_most(value, 0x8000_0000_0000_0000) == magnitude ==> r == clamp_i64(
                if negative {
                    -(value as int)
                } else {
                    value as int
                },
            ),
{
    let limit: u64 = 0x8000_0000_0000_0000;
    if negative {
        if magnitude >= limit {
            i64::MIN
        } else {
            -(magnitude as i64)
        }
    } else {
        if magnitude >= limit {
            i64::MAX
        } else {
            magnitude as i64
        }
    }
}

/// The exponent that `chars[from..to]` writes, where `from` is the place after the mark;
/// held to a hundred bits, which is far enough for any number of digits.
fn read_exponent(chars: &Vec<char>, from: usize, to: usize) -> (r: Option<i128>)
    requires
        from <= to <= chars.len(),
    ensures
        match r {
            Some(exponent) => {
                let text = chars@.subrange(from as int, to as int);
                let digits = unsigned(text, true);
                let value = at_most(decimal_value(digits), 0x10_0000_0000_0000_0000_0000_0000);
                &&& digits.len() > 0 && all_digits(digits)
                &&& exponent == if text[0] == '-' {
                    -(value as int)
                } else {
                    value as int
                }
            },
            None => {
                let digits = unsigned(chars@.subrange(from as int, to as int), true);
                !(digits.len() > 0 && all_digits(digits))
            },
        },
{
    let (begin, negative) = after_sign(chars, from, to, true);
    if begin == to || !digits_only(chars, begin, to) {
        return None;
    }
    let value = decimal_capped(chars, begin, to, 0x10_0000_0000_0000_0000_0000_0000);
    if negative {
        Some(-(value as i128))
    } else {
        Some(value as i128)
    }
}

/// Writes `chars[from..to]` at the end of `out`.
fn append_range(out: &mut Vec<char>, chars: &Vec<char>, from: usize, to: usize)
    requires
        from <= to <= chars.len(),
    ensures
        final(out)@ == old(out)@ + chars@.subrange(from as int, to as int),
{
    let ghost before = out@;
    let mut i: usize = from;
    assert(out@ == before + chars@.subrange(from as int, from as int));
    while i < to
        invariant
            from <= i <= to <= chars.len(),
            out@ == before + chars@.subrange(from as int, i as int),
        decreases to - i,
    {
        out.push(chars[i]);
        i += 1;
        assert(out@ == before + chars@.subrange(from as int, i as int));
    }
}

/// The digits of the mantissa `chars[from..to]`, those before the point and those after
/// it in one row, and the number of those before it.
fn read_mantissa(chars: &Vec<char>, from: usize, to: usize) -> (r: Option<(Vec<char>, usize)>)
    requires
        from <= to <= chars.len(),
    ensures
        ({
            let mantissa = chars@.subrange(from as int, to as int);
            let whole = whole_of(mantissa);
            let fraction = fraction_of(mantissa);
            match r {
                Some((digits, before)) => {
                    &&& all_digits(whole) && all_digits(fraction)
                    &&& whole.len() + fraction.len() > 0
                    &&& digits@ == whole + fraction
                    &&& before == whole.len()
                    &&& before <= to - from
                },
                None => !(all_digits(whole) && all_digits(fraction) && whole.len()
                    + fraction.len() > 0),
            }
        }),
{
    let ghost mantissa = chars@.subrange(from as int, to as int);
    let point = find_mark(chars, from, to, '.', '.');
    let after: usize = if point < to {
        point + 1
    } else {
        to
    };
    let ghost whole = chars@.subrange(from as int, point as int);
    let ghost fraction = chars@.subrange(after as int, to as int);
    proof {
        assert(set!['.', '.'] == set!['.']);
        assert(mantissa.take(point - from) == whole);
        if point < to {
            assert(mantissa.skip(point - from + 1) == fraction);
        }
        assert(whole_of(mantissa) == whole);
        assert(fraction_of(mantissa) == fraction);
    }
    if !digits_only(chars, from, point) || !digits_only(chars, after, to) {
        return None;
    }
    if point - from + (to - after) == 0 {
        return None;
    }
    let mut digits: Vec<char> = Vec::new();
    append_range(&mut digits, chars, from, point);
    append_range(&mut digits, chars, after, to);
    Some((digits, point - from))
}

/// Reads a number without its sign, `chars[from..to]`, as the level.
fn read_number(chars: &Vec<char>, from: usize, to: usize, negative: bool) -> (r: Option<i64>)
    requires
        from <= to <= chars.len(),
    ensures
        match r {
            Some(level) => number_level(chars@.subrange(from as int, to as int), negative)
                == Some(level as int),
            None => number_level(chars@.subrange(from as int, to as int), negative) is None,
        },
{
    let ghost number = chars@.subrange(from as int, to as int);
    let mark = find_mark(chars, from, to, 'e', 'E');
    proof {
        assert(number.take(mark - from) == chars@.subrange(from as int, mark as int));
    }
    let exponent: i128 = if mark < to {
        proof {
            assert(number.skip(mark - from + 1) == chars@.subrange(mark + 1, to as int));
        }
        match read_exponent(chars, mark + 1, to) {
            Some(exponent) => exponent,
            None => {
                return None;
            },
        }
    } else {
        0
    };
    let (digits, before) = match read_mantissa(chars, from, mark) {
        Some(found) => found,
        None => {
            return None;
        },
    };
    let count = digits.len();
    let magnitude = round_digits(&digits, before as i128 + exponent);
    proof {
        let written = exponent_of(number)->0;
        assert(digits@.len() == count);
        if written != exponent as int {
            if written < 0 {
                lemma_far_point(digits@, before + written, before + exponent);
            } else {
                lemma_far_point(digits@, before + exponent, before + written);
            }
        }
    }
    Some(signed_level(negative, magnitude))
}

/// Reads a percentage field, `chars[from..to]`, as the methylation level.
pub(crate) fn read_level(chars: &Vec<char>, from: usize, to: usize) -> (r: Option<i64>)
    requires
        from <= to <= chars.len(),
    ensures
        match r {
            Some(level) => parse_level(chars@.subrange(from as int, to as int)) == Some(
                level as int,
            ),
            None => parse_level(chars@.subrange(from as int, to as int)) is None,
        },
{
    let (begin, negative) = after_sign(chars, from, to, true);
    if spells_word(chars, begin, to, &vec!['n', 'a', 'n']) {
        return Some(0);
    }
    if spells_word(chars, begin, to, &vec!['i', 'n', 'f']) || spells_word(
        chars,
        begin,
        to,
        &vec!['i', 'n', 'f', 'i', 'n', 'i', 't', 'y'],
    ) {
        return Some(
            if negative {
                i64::MIN
            } else {
                i64::MAX
            },
        );
    }
    read_number(chars, begin, to, negative)
}

} // verus!

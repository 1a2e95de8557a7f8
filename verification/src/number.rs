//! Writing an integer literal of any radix and length in decimal.
use vstd::prelude::*;

use crate::ast::{digit_value, radix_base, radix_digit, Integer, Radix};
use crate::errors::{decimal_text, digit_char, digit_to_char};
use crate::text::{cow_str, push_char};

verus! {

/// The text after any leading `-` and `+` signs.
pub open spec fn unsigned_digits(text: Seq<char>) -> Seq<char>
    decreases text.len(),
{
    if text.len() > 0 && (text[0] == '-' || text[0] == '+') {
        unsigned_digits(text.drop_first())
    } else {
        text
    }
}

/// The number the digits `digits` spell in `base`.
pub open spec fn digits_value(digits: Seq<char>, base: nat) -> nat
    decreases digits.len(),
{
    if digits.len() == 0 {
        0
    } else {
        digits_value(digits.drop_last(), base) * base + match digit_value(digits.last()) {
            Some(digit) => digit,
            None => 0,
        }
    }
}

/// The decimal text of an integer literal: a minus sign when it is written
/// with one and is not zero, then the digits of its magnitude.
pub open spec fn integer_text(digits: Seq<char>, base: nat) -> Seq<char> {
    let magnitude = digits_value(unsigned_digits(digits), base);
    let sign = if digits.len() > 0 && digits[0] == '-' && magnitude != 0 {
        seq!['-']
    } else {
        Seq::empty()
    };
    sign + decimal_text(magnitude)
}

/// Whether every character of `digits` after the signs is a digit of `radix`.
pub open spec fn well_formed_digits(digits: Seq<char>, radix: Radix) -> bool {
    forall|k: int|
        0 <= k < unsigned_digits(digits).len() ==> radix_digit(
            radix,
            #[trigger] unsigned_digits(digits)[k],
        )
}

/// Ten to the power `n`.
pub open spec fn pow10(n: nat) -> nat
    decreases n,
{
    if n == 0 {
        1
    } else {
        10 * pow10((n - 1) as nat)
    }
}

/// The number that decimal digits, least significant first, spell.
pub open spec fn little_value(digits: Seq<u32>) -> nat
    decreases digits.len(),
{
    if digits.len() == 0 {
        0
    } else {
        digits[0] as nat + 10 * little_value(digits.drop_first())
    }
}

/// Whether `digits` are decimal digits, least significant first, with no
/// zeros at the top, except a lone zero.
pub open spec fn normalized(digits: Seq<u32>) -> bool {
    &&& digits.len() >= 1
    &&& forall|k: int| 0 <= k < digits.len() ==> #[trigger] digits[k] < 10
    &&& digits.len() == 1 || digits.last() != 0
}

/// Appending a more significant digit adds its place value.
proof fn lemma_little_push(digits: Seq<u32>, digit: u32)
    ensures
        little_value(digits.push(digit)) == little_value(digits) + pow10(digits.len()) * digit,
    decreases digits.len(),
{
    reveal_with_fuel(little_value, 2);
    if digits.len() == 0 {
        assert(digits.push(digit).drop_first() =~= Seq::<u32>::empty());
        assert(little_value(digits.push(digit).drop_first()) == 0);
        assert(digits.push(digit)[0] == digit);
        assert(pow10(0) == 1);
    } else {
        assert(digits.push(digit).drop_first() =~= digits.drop_first().push(digit));
        assert(digits.push(digit)[0] == digits[0]);
        lemma_little_push(digits.drop_first(), digit);
        assert(pow10(digits.len()) == 10 * pow10(digits.drop_first().len()));
        assert(10 * (pow10(digits.drop_first().len()) * digit) == pow10(digits.len()) * digit)
            by (nonlinear_arith)
            requires
                pow10(digits.len()) == 10 * pow10(digits.drop_first().len()),
        ;
    }
}

/// The value of the first `j + 1` digits adds the place value of digit `j` to
/// that of the first `j`.
proof fn lemma_little_take(digits: Seq<u32>, j: int)
    requires
        0 <= j < digits.len(),
    ensures
        little_value(digits.take(j + 1)) == little_value(digits.take(j)) + pow10(j as nat)
            * digits[j],
{
    assert(digits.take(j + 1) =~= digits.take(j).push(digits[j]));
    lemma_little_push(digits.take(j), digits[j]);
}

/// Decimal digits below ten spell a number below ten to their count.
proof fn lemma_little_bound(digits: Seq<u32>)
    requires
        forall|k: int| 0 <= k < digits.len() ==> #[trigger] digits[k] < 10,
    ensures
        little_value(digits) < pow10(digits.len()),
    decreases digits.len(),
{
    if digits.len() > 0 {
        lemma_little_bound(digits.drop_first());
        assert(digits[0] < 10);
        assert(pow10(digits.len()) == 10 * pow10(digits.drop_first().len()));
    }
}

/// Digits whose top digit is not zero spell at least ten to one less than
/// their count.
proof fn lemma_little_top(digits: Seq<u32>)
    requires
        digits.len() >= 1,
        digits.last() != 0,
    ensures
        little_value(digits) >= pow10((digits.len() - 1) as nat),
{
    assert(digits =~= digits.drop_last().push(digits.last()));
    lemma_little_push(digits.drop_last(), digits.last());
    assert(pow10((digits.len() - 1) as nat) * digits.last() >= pow10((digits.len() - 1) as nat))
        by (nonlinear_arith)
        requires
            digits.last() >= 1,
    ;
}

/// Normalized digits, most significant first as characters, are the decimal
/// text of the number they spell.
proof fn lemma_little_text(digits: Seq<u32>)
    requires
        normalized(digits),
    ensures
        decimal_text(little_value(digits)) == Seq::new(
            digits.len(),
            |k: int| digit_char(digits[digits.len() - 1 - k] as nat),
        ),
    decreases digits.len(),
{
    let value = little_value(digits);
    if digits.len() == 1 {
        assert(digits.drop_first() =~= Seq::<u32>::empty());
        assert(little_value(digits.drop_first()) == 0);
        assert(value == digits[0]);
        assert(decimal_text(value) =~= Seq::new(
            digits.len(),
            |k: int| digit_char(digits[digits.len() - 1 - k] as nat),
        ));
    } else {
        let rest = digits.drop_first();
        assert(rest.last() == digits.last());
        assert(normalized(rest));
        lemma_little_text(rest);
        lemma_little_top(rest);
        let high = little_value(rest);
        assert(pow10((rest.len() - 1) as nat) >= 1) by {
            lemma_pow10_positive((rest.len() - 1) as nat);
        }
        assert(value == digits[0] + 10 * high);
        assert(digits[0] < 10);
        assert(value / 10 == high && value % 10 == digits[0]) by (nonlinear_arith)
            requires
                value == digits[0] + 10 * high,
                digits[0] < 10,
        ;
        assert(value >= 10);
        assert(decimal_text(value) == decimal_text(high).push(digit_char(digits[0] as nat)));
        assert(decimal_text(value) =~= Seq::new(
            digits.len(),
            |k: int| digit_char(digits[digits.len() - 1 - k] as nat),
        ));
    }
}

/// Powers of ten are positive.
proof fn lemma_pow10_positive(n: nat)
    ensures
        pow10(n) >= 1,
    decreases n,
{
    if n > 0 {
        lemma_pow10_positive((n - 1) as nat);
    }
}

/// Multiplies the decimal number `decimal` by `base` and adds `digit`.
fn multiply_add(decimal: &mut Vec<u32>, base: u32, digit: u32)
    requires
        normalized(old(decimal)@),
        2 <= base <= 16,
        digit < base,
    ensures
        normalized(final(decimal)@),
        little_value(final(decimal)@) == little_value(old(decimal)@) * base + digit,
{
    let ghost start = decimal@;
    let ghost target = little_value(start) * base + digit;
    let mut carry: u32 = digit;
    let mut index: usize = 0;
    proof {
        assert(decimal@.take(0) =~= Seq::<u32>::empty());
        assert(start.take(0) =~= Seq::<u32>::empty());
        assert(little_value(Seq::<u32>::empty()) == 0);
        assert(pow10(0) == 1);
        assert(decimal@.skip(0) =~= start.skip(0));
    }
    while index < decimal.len()
        invariant
            decimal@.len() == start.len(),
            2 <= base <= 16,
            index <= decimal@.len(),
            carry < 16,
            forall|k: int| 0 <= k < decimal@.len() ==> #[trigger] decimal@[k] < 10,
            decimal@.skip(index as int) == start.skip(index as int),
            little_value(decimal@.take(index as int)) + pow10(index as nat) * carry
                == little_value(start.take(index as int)) * base + digit,
        decreases decimal@.len() - index,
    {
        proof {
            assert(decimal@[index as int] * base <= 9 * 16) by (nonlinear_arith)
                requires
                    decimal@[index as int] < 10,
                    base <= 16,
            ;
        }
        let product = decimal[index] * base + carry;
        proof {
            lemma_little_take(decimal@.update(index as int, product % 10), index as int);
            lemma_little_take(start, index as int);
            assert(decimal@[index as int] == start[index as int]) by {
                assert(decimal@.skip(index as int)[0] == start.skip(index as int)[0]);
            }
            let before = little_value(decimal@.take(index as int));
            let old_prefix = little_value(start.take(index as int));
            let place = pow10(index as nat);
            assert(pow10(index as nat + 1) == 10 * place);
            assert(before + place * (product % 10) + 10 * place * (product / 10) == old_prefix * base
                + digit + place * start[index as int] * base) by (nonlinear_arith)
                requires
                    before + place * carry == old_prefix * base + digit,
                    product == start[index as int] * base + carry,
            ;
            assert(decimal@.update(index as int, product % 10).take(index as int) =~= decimal@.take(
                index as int,
            ));
            assert((old_prefix + place * start[index as int]) * base == old_prefix * base + place
                * start[index as int] * base) by (nonlinear_arith);
            assert(decimal@.skip(index as int).drop_first() =~= decimal@.skip(index + 1));
            assert(start.skip(index as int).drop_first() =~= start.skip(index + 1));
        }
        let ghost previous = decimal@;
        decimal.set(index, product % 10);
        carry = product / 10;
        proof {
            assert(decimal@.skip(index + 1) =~= previous.skip(index + 1));
        }
        index = index + 1;
    }
    proof {
        assert(decimal@.take(index as int) =~= decimal@);
        assert(start.take(index as int) =~= start);
    }
    let ghost same_length = carry == 0;
    while carry > 0
        invariant
            decimal@.len() >= start.len(),
            forall|k: int| 0 <= k < decimal@.len() ==> #[trigger] decimal@[k] < 10,
            little_value(decimal@) + pow10(decimal@.len()) * carry == target,
            decimal@.len() > start.len() && carry == 0 ==> decimal@.last() != 0,
            decimal@.len() == start.len() ==> decimal@ == decimal@.take(start.len() as int),
            same_length ==> decimal@.len() == start.len() && carry == 0,
            !same_length ==> decimal@.len() > start.len() || carry > 0,
        decreases carry,
    {
        proof {
            lemma_little_push(decimal@, carry % 10);
            assert(pow10(decimal@.len() + 1) == 10 * pow10(decimal@.len()));
            assert(pow10(decimal@.len()) * (carry % 10) + 10 * pow10(decimal@.len()) * (carry / 10)
                == pow10(decimal@.len()) * carry) by (nonlinear_arith);
        }
        decimal.push(carry % 10);
        carry = carry / 10;
    }
    proof {
        if decimal@.len() == start.len() && decimal@.len() >= 2 {
            lemma_little_top(start);
            lemma_little_bound(decimal@);
            if decimal@.last() == 0 {
                assert(decimal@ =~= decimal@.drop_last().push(0));
                lemma_little_push(decimal@.drop_last(), 0);
                lemma_little_bound(decimal@.drop_last());
                assert(little_value(start) * base >= little_value(start)) by (nonlinear_arith)
                    requires
                        base >= 2,
                ;
            }
        }
    }
}

impl<'src> Integer<'src> {
    /// The literal's value written in decimal, with a minus sign when it is
    /// negative.
    pub fn to_text(&self) -> (text: String)
        requires
            well_formed_digits(self.digits@, self.radix),
        ensures
            text@ == integer_text(self.digits@, radix_base(self.radix)),
    {
        let digits = cow_str(&self.digits);
        let count = digits.unicode_len();
        let negative = count > 0 && digits.get_char(0) == '-';
        let mut start: usize = 0;
        proof {
            assert(digits@.skip(0) =~= digits@);
        }
        while start < count && (digits.get_char(start) == '-' || digits.get_char(start) == '+')
            invariant
                count == digits@.len(),
                start <= count,
                unsigned_digits(digits@) == unsigned_digits(digits@.skip(start as int)),
            decreases count - start,
        {
            proof {
                assert(digits@.skip(start as int).drop_first() =~= digits@.skip(start + 1));
            }
            start = start + 1;
        }
        proof {
            if start == count {
                assert(digits@.skip(start as int) =~= Seq::<char>::empty());
            } else {
                assert(digits@.skip(start as int)[0] == digits@[start as int]);
            }
            assert(digits@.skip(start as int) =~= digits@.subrange(start as int, count as int));
        }
        let ghost magnitude = digits@.subrange(start as int, count as int);
        let base = u32::from(self.radix);
        let mut decimal: Vec<u32> = Vec::new();
        decimal.push(0);
        let mut index = start;
        proof {
            assert(little_value(decimal@) == 0) by {
                reveal_with_fuel(little_value, 2);
                assert(decimal@.drop_first() =~= Seq::<u32>::empty());
            }
            assert(magnitude.take(0) =~= Seq::<char>::empty());
        }
        while index < count
            invariant
                count == digits@.len(),
                start <= index <= count,
                magnitude == digits@.subrange(start as int, count as int),
                magnitude == unsigned_digits(self.digits@),
                well_formed_digits(self.digits@, self.radix),
                base == radix_base(self.radix),
                normalized(decimal@),
                little_value(decimal@) == digits_value(
                    magnitude.take(index - start),
                    base as nat,
                ),
            decreases count - index,
        {
            let character = digits.get_char(index);
            proof {
                assert(magnitude[index - start] == character);
                assert(radix_digit(self.radix, magnitude[index - start]));
                assert(magnitude.take(index - start + 1).drop_last() =~= magnitude.take(
                    index - start,
                ));
            }
            let digit = digit_of(character, self.radix);
            multiply_add(&mut decimal, base, digit);
            index = index + 1;
        }
        proof {
            assert(magnitude.take(count - start) =~= magnitude);
            lemma_little_text(decimal@);
        }
        let mut text = String::new();
        let zero = decimal.len() == 1 && decimal[0] == 0;
        proof {
            reveal_with_fuel(little_value, 2);
            if !zero {
                if decimal@.len() == 1 {
                    assert(decimal@.drop_first() =~= Seq::<u32>::empty());
                    assert(little_value(decimal@) == decimal@[0]);
                } else {
                    lemma_little_top(decimal@);
                    lemma_pow10_positive((decimal@.len() - 1) as nat);
                }
            } else {
                assert(decimal@.drop_first() =~= Seq::<u32>::empty());
                assert(little_value(decimal@) == 0);
            }
            assert(zero <==> little_value(decimal@) == 0);
        }
        if negative && !zero {
            push_char(&mut text, '-');
        }
        let ghost sign = text@;
        let mut position = decimal.len();
        while position > 0
            invariant
                position <= decimal@.len(),
                normalized(decimal@),
                text@ == sign + Seq::new(
                    (decimal@.len() - position) as nat,
                    |k: int| digit_char(decimal@[decimal@.len() - 1 - k] as nat),
                ),
            decreases position,
        {
            position = position - 1;
            let character = digit_to_char(decimal[position] as usize);
            push_char(&mut text, character);
            proof {
                assert(text@ =~= sign + Seq::new(
                    (decimal@.len() - position) as nat,
                    |k: int| digit_char(decimal@[decimal@.len() - 1 - k] as nat),
                ));
            }
        }
        proof {
            assert(text@ =~= sign + decimal_text(little_value(decimal@)));
            assert(little_value(decimal@) == digits_value(unsigned_digits(self.digits@), base as nat));
            assert(negative <==> (self.digits@.len() > 0 && self.digits@[0] == '-'));
        }
        text
    }
}

/// The value of a digit of `radix`.
fn digit_of(c: char, radix: Radix) -> (digit: u32)
    requires
        radix_digit(radix, c),
    ensures
        digit_value(c) == Some(digit as nat),
        digit < radix_base(radix),
{
    if '0' <= c && c <= '9' {
        (c as u32) - ('0' as u32)
    } else if 'a' <= c && c <= 'z' {
        (c as u32) - ('a' as u32) + 10
    } else {
        (c as u32) - ('A' as u32) + 10
    }
}

} // verus!

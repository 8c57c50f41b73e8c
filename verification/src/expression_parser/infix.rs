//! Expressions as they are written: numbers, signs, groups in parentheses
//! and operators between two operands, with the value that each has.

use super::all_digits;
use super::all_valid_chars;
use super::can_follow;
use super::digits_value;
use super::is_digit;
use super::is_valid_char;
use super::is_valid_infix;
use super::is_whitespace;
use super::largest_magnitude;
use super::laws::absent_character_does_not_occur;
use super::occurrences;
use super::open_parentheses;
use super::Operator;
use super::parentheses_match;
use super::Token;
use super::well_ordered;
use super::without_whitespace;
use vstd::prelude::*;

verus! {

/// An expression as it is written.
pub enum Infix {
    /// An integer without a sign: its digits.
    Number(Seq<char>),
    /// A sign before an operand.
    Signed(Box<Infix>),
    /// An expression in parentheses.
    Group(Box<Infix>),
    /// An operator between its left and its right operand.
    Binary(Box<Infix>, Operator, Box<Infix>),
}

/// The character that writes an operator.
pub open spec fn symbol_of(operator: Operator) -> char {
    match operator {
        Operator::Add => '+',
        Operator::Substract => '-',
        Operator::Divide => '/',
        Operator::Multiply => '*',
        Operator::LeftParenthesis => '(',
        Operator::RightParenthesis => ')',
    }
}

/// The integer that digits write, negated where a sign stands before them.
pub open spec fn literal(negative: bool, digits: Seq<char>) -> i32 {
    if negative {
        (-(digits_value(digits) as int)) as i32
    } else {
        digits_value(digits) as i32
    }
}

impl Infix {
    /// The characters that write the expression, without whitespace.
    pub open spec fn text(self) -> Seq<char>
        decreases self,
    {
        match self {
            Infix::Number(digits) => digits,
            Infix::Signed(operand) => seq!['-'] + operand.text(),
            Infix::Group(inner) => seq!['('] + inner.text() + seq![')'],
            Infix::Binary(left, operator, right) => left.text() + seq![symbol_of(operator)]
                + right.text(),
        }
    }

    /// How tightly the expression holds together: as its operator binds, and
    /// tighter than any operator where it is an operand, that is, a number,
    /// a group or one of them with a sign.
    pub open spec fn level(self) -> int {
        match self {
            Infix::Binary(_, operator, _) => operator.rank() as int,
            _ => 3,
        }
    }

    /// Whether the expression is written by the rules: a number has digits;
    /// a sign stands before an operand; the left operand of an operator holds
    /// together at least as tightly as the operator binds, so that operators
    /// of one rank are taken from the left, and the right operand more
    /// tightly.
    pub open spec fn well_formed(self) -> bool
        decreases self,
    {
        match self {
            Infix::Number(digits) => digits.len() > 0 && all_digits(digits),
            Infix::Signed(operand) => operand.well_formed() && operand.level() == 3,
            Infix::Group(inner) => inner.well_formed(),
            Infix::Binary(left, operator, right) => {
                &&& operator.is_binary()
                &&& left.well_formed()
                &&& right.well_formed()
                &&& left.level() >= operator.rank()
                &&& right.level() > operator.rank()
            },
        }
    }

    /// Whether each number of the expression is an `i32`: at most
    /// `2147483647`, and at most `2147483648` where a sign makes it negative.
    /// `negative` says whether a sign stands before the expression.
    pub open spec fn fits(self, negative: bool) -> bool
        decreases self,
    {
        match self {
            Infix::Number(digits) => digits_value(digits) <= largest_magnitude(negative),
            Infix::Signed(operand) => operand.fits(true),
            Infix::Group(inner) => inner.fits(negative),
            Infix::Binary(left, _, right) => left.fits(negative) && right.fits(false),
        }
    }

    /// Whether each sign of the expression stands directly before a number.
    /// Of such an expression `value` is the value by the rules of arithmetic.
    pub open spec fn is_plain(self) -> bool
        decreases self,
    {
        match self {
            Infix::Number(_) => true,
            Infix::Signed(operand) => *operand is Number,
            Infix::Group(inner) => inner.is_plain(),
            Infix::Binary(left, _, right) => left.is_plain() && right.is_plain(),
        }
    }

    /// The tokens of the expression in postfix order: each operator behind
    /// its two operands. A sign makes the first number behind it negative,
    /// also where a parenthesis or another sign stands between them;
    /// `negative` says whether a sign stands before the expression.
    pub open spec fn postfix(self, negative: bool) -> Seq<Token>
        decreases self,
    {
        match self {
            Infix::Number(digits) => seq![Token::Operand(literal(negative, digits))],
            Infix::Signed(operand) => operand.postfix(true),
            Infix::Group(inner) => inner.postfix(negative),
            Infix::Binary(left, operator, right) => left.postfix(negative) + right.postfix(false)
                + seq![Token::Operator(operator)],
        }
    }

    /// The value of the expression, where `number` gives the value of an
    /// integer and `combine` the value of an operator on a left and a right
    /// value. An operator is applied to the values of its operands. A sign
    /// makes the first number behind it negative; `negative` says whether a
    /// sign stands before the expression.
    pub open spec fn value<V>(
        self,
        negative: bool,
        number: spec_fn(i32) -> V,
        combine: spec_fn(Operator, V, V) -> V,
    ) -> V
        decreases self,
    {
        match self {
            Infix::Number(digits) => number(literal(negative, digits)),
            Infix::Signed(operand) => operand.value(true, number, combine),
            Infix::Group(inner) => inner.value(negative, number, combine),
            Infix::Binary(left, operator, right) => combine(
                operator,
                left.value(negative, number, combine),
                right.value(false, number, combine),
            ),
        }
    }
}

/// Whether an operand can start with `c`: a digit, a sign or `(`.
pub open spec fn starts_operand(c: char) -> bool {
    is_digit(c) || c == '-' || c == '('
}

/// Whether `c` ends an operand: a digit or `)`.
pub open spec fn ends_operand(c: char) -> bool {
    is_digit(c) || c == ')'
}

/// The text of a well-formed expression starts as an operand starts and ends
/// as an operand ends.
pub proof fn text_has_ends(expression: Infix)
    requires
        expression.well_formed(),
    ensures
        expression.text().len() > 0,
        starts_operand(expression.text()[0]),
        ends_operand(expression.text().last()),
    decreases expression,
{
    match expression {
        Infix::Number(digits) => {
            assert(is_digit(digits[0]));
            assert(is_digit(digits[digits.len() - 1]));
        },
        Infix::Signed(operand) => {
            text_has_ends(*operand);
        },
        Infix::Group(inner) => {},
        Infix::Binary(left, operator, right) => {
            text_has_ends(*left);
            text_has_ends(*right);
        },
    }
}

/// Two texts in which each character may follow the one before it make such
/// a text when the first character of the second may follow the last of the
/// first.
proof fn joined_is_well_ordered(first: Seq<char>, second: Seq<char>)
    requires
        well_ordered(first),
        well_ordered(second),
        first.len() > 0 && second.len() > 0 ==> can_follow(first.last(), second[0]),
    ensures
        well_ordered(first + second),
{
    let all = first + second;
    assert forall|i: int| 0 < i < all.len() implies can_follow(all[i - 1], #[trigger] all[i]) by {
        if i < first.len() {
            assert(can_follow(first[i - 1], first[i]));
        } else if i == first.len() {
        } else {
            assert(can_follow(second[i - first.len() - 1], second[i - first.len()]));
        }
    }
}

/// In the text of a well-formed expression each character can stand in an
/// expression and may follow the one before it.
proof fn text_is_in_order(expression: Infix)
    requires
        expression.well_formed(),
    ensures
        all_valid_chars(expression.text()),
        well_ordered(expression.text()),
    decreases expression,
{
    text_has_ends(expression);
    match expression {
        Infix::Number(digits) => {
            assert forall|i: int| 0 <= i < digits.len() implies is_valid_char(
                #[trigger] digits[i],
            ) by {
                assert(is_digit(digits[i]));
            }
            assert forall|i: int| 0 < i < digits.len() implies can_follow(
                digits[i - 1],
                #[trigger] digits[i],
            ) by {
                assert(is_digit(digits[i]));
                assert(is_digit(digits[i - 1]));
            }
        },
        Infix::Signed(operand) => {
            text_is_in_order(*operand);
            text_has_ends(*operand);
            let sign = seq!['-'];
            joined_is_well_ordered(sign, operand.text());
        },
        Infix::Group(inner) => {
            text_is_in_order(*inner);
            text_has_ends(*inner);
            let open = seq!['('];
            let close = seq![')'];
            joined_is_well_ordered(open, inner.text());
            joined_is_well_ordered(open + inner.text(), close);
        },
        Infix::Binary(left, operator, right) => {
            text_is_in_order(*left);
            text_is_in_order(*right);
            text_has_ends(*left);
            text_has_ends(*right);
            let symbol = seq![symbol_of(operator)];
            joined_is_well_ordered(left.text(), symbol);
            joined_is_well_ordered(left.text() + symbol, right.text());
        },
    }
}

/// A character stands in two joined texts as often as in both together.
pub proof fn occurrences_in_joined(first: Seq<char>, second: Seq<char>, c: char)
    ensures
        occurrences(first + second, c) == occurrences(first, c) + occurrences(second, c),
    decreases second.len(),
{
    if second.len() == 0 {
        assert(first + second == first);
    } else {
        occurrences_in_joined(first, second.drop_last(), c);
        assert((first + second).drop_last() == first + second.drop_last());
    }
}

/// A text of one character holds that character once and no other.
pub proof fn occurrences_in_one(single: char, c: char)
    ensures
        occurrences(seq![single], c) == if single == c {
            1nat
        } else {
            0nat
        },
{
    assert(seq![single].drop_last() == Seq::<char>::empty());
    assert(occurrences(seq![single].drop_last(), c) == 0);
    assert(seq![single].last() == single);
}

/// Two texts whose parentheses match make a text whose parentheses match.
proof fn joined_parentheses_match(first: Seq<char>, second: Seq<char>)
    requires
        parentheses_match(first),
        parentheses_match(second),
    ensures
        parentheses_match(first + second),
{
    let all = first + second;
    occurrences_in_joined(first, second, '(');
    occurrences_in_joined(first, second, ')');
    assert forall|k: int| 0 <= k <= all.len() implies open_parentheses(#[trigger] all.take(k))
        >= 0 by {
        if k <= first.len() {
            assert(all.take(k) == first.take(k));
        } else {
            let rest = second.take(k - first.len());
            assert(all.take(k) == first + rest);
            occurrences_in_joined(first, rest, '(');
            occurrences_in_joined(first, rest, ')');
        }
    }
}

/// A text whose parentheses match, put in parentheses, is such a text.
proof fn enclosed_parentheses_match(inner: Seq<char>)
    requires
        parentheses_match(inner),
    ensures
        parentheses_match(seq!['('] + inner + seq![')']),
{
    let open = seq!['('];
    let close = seq![')'];
    let all = open + inner + close;
    occurrences_in_one('(', '(');
    occurrences_in_one('(', ')');
    occurrences_in_one(')', '(');
    occurrences_in_one(')', ')');
    occurrences_in_joined(open, inner, '(');
    occurrences_in_joined(open, inner, ')');
    occurrences_in_joined(open + inner, close, '(');
    occurrences_in_joined(open + inner, close, ')');
    assert forall|k: int| 0 <= k <= all.len() implies open_parentheses(#[trigger] all.take(k))
        >= 0 by {
        if k == 0 {
            assert(all.take(k) == Seq::<char>::empty());
        } else if k == all.len() {
            assert(all.take(k) == all);
        } else {
            let rest = inner.take(k - 1);
            assert(all.take(k) == open + rest);
            occurrences_in_joined(open, rest, '(');
            occurrences_in_joined(open, rest, ')');
        }
    }
}

/// The parentheses of a text without parentheses match.
proof fn no_parentheses_match(text: Seq<char>)
    requires
        forall|i: int| 0 <= i < text.len() ==> #[trigger] text[i] != '(' && text[i] != ')',
    ensures
        parentheses_match(text),
{
    absent_character_does_not_occur(text, '(');
    absent_character_does_not_occur(text, ')');
    assert forall|k: int| 0 <= k <= text.len() implies open_parentheses(#[trigger] text.take(k))
        >= 0 by {
        absent_character_does_not_occur(text.take(k), '(');
        absent_character_does_not_occur(text.take(k), ')');
    }
}

/// The parentheses of the text of a well-formed expression match.
pub proof fn text_parentheses_match(expression: Infix)
    requires
        expression.well_formed(),
    ensures
        parentheses_match(expression.text()),
    decreases expression,
{
    match expression {
        Infix::Number(digits) => {
            assert forall|i: int| 0 <= i < digits.len() implies #[trigger] digits[i] != '('
                && digits[i] != ')' by {
                assert(is_digit(digits[i]));
            }
            no_parentheses_match(digits);
        },
        Infix::Signed(operand) => {
            text_parentheses_match(*operand);
            let sign = seq!['-'];
            assert(sign[0] != '(' && sign[0] != ')');
            no_parentheses_match(sign);
            joined_parentheses_match(sign, operand.text());
        },
        Infix::Group(inner) => {
            text_parentheses_match(*inner);
            enclosed_parentheses_match(inner.text());
        },
        Infix::Binary(left, operator, right) => {
            text_parentheses_match(*left);
            text_parentheses_match(*right);
            let symbol = seq![symbol_of(operator)];
            assert(symbol[0] != '(' && symbol[0] != ')');
            no_parentheses_match(symbol);
            joined_parentheses_match(left.text(), symbol);
            joined_parentheses_match(left.text() + symbol, right.text());
        },
    }
}

/// A text in which each character can stand in an expression holds no
/// whitespace.
proof fn valid_chars_hold_no_whitespace(text: Seq<char>)
    requires
        all_valid_chars(text),
    ensures
        without_whitespace(text) == text,
    decreases text.len(),
{
    reveal(Seq::filter);
    if text.len() > 0 {
        let shorter = text.drop_last();
        assert forall|i: int| 0 <= i < shorter.len() implies is_valid_char(
            #[trigger] shorter[i],
        ) by {
            assert(shorter[i] == text[i]);
        }
        valid_chars_hold_no_whitespace(shorter);
        assert(is_valid_char(text[text.len() - 1]));
        assert(!is_whitespace(text.last()));
        assert(shorter.push(text.last()) == text);
    }
}

/// The text of a well-formed expression is valid, unless it is one digit
/// alone.
pub proof fn text_is_valid(expression: Infix)
    requires
        expression.well_formed(),
        expression.text().len() > 1,
    ensures
        is_valid_infix(expression.text()),
        without_whitespace(expression.text()) == expression.text(),
{
    text_has_ends(expression);
    text_is_in_order(expression);
    text_parentheses_match(expression);
    valid_chars_hold_no_whitespace(expression.text());
}

} // verus!

//! What holds of every text that an expression is built from.

use super::ends_open;
use super::infix::Infix;
use super::infix::text_is_valid;
use super::is_digit;
use super::is_whitespace;
use super::occurrences;
use super::open_parentheses;
use super::Operator;
use super::parentheses_match;
use super::ParsingError;
use super::postfix::postfix_value;
use super::reading::expression_of;
use super::reading::is_expression_text;
use super::reading::signs_stand_before_digits;
use super::reading::text_is_an_expression;
use super::reading::valid_text_converts;
use super::reverse_polish_notation::built;
use super::round_trip::postfix_has_the_value;
use super::round_trip::text_converts_to_postfix;
use super::starts_closed;
use super::Token;
use super::without_whitespace;
use vstd::prelude::*;

verus! {

/// A text that holds nothing but whitespace is invalid input.
pub proof fn whitespace_alone_is_invalid(input: Seq<char>)
    requires
        forall|i: int| 0 <= i < input.len() ==> is_whitespace(#[trigger] input[i]),
    ensures
        built(input) == Err::<Seq<Token>, ParsingError>(ParsingError::InvalidInput),
{
    nothing_is_left_of_whitespace(input);
}

/// Taking the whitespace out of a text that holds nothing else leaves the
/// empty text.
proof fn nothing_is_left_of_whitespace(input: Seq<char>)
    requires
        forall|i: int| 0 <= i < input.len() ==> is_whitespace(#[trigger] input[i]),
    ensures
        without_whitespace(input).len() == 0,
    decreases input.len(),
{
    reveal(Seq::filter);
    if input.len() > 0 {
        let shorter = input.drop_last();
        assert forall|i: int| 0 <= i < shorter.len() implies is_whitespace(
            #[trigger] shorter[i],
        ) by {
            assert(shorter[i] == input[i]);
        }
        nothing_is_left_of_whitespace(shorter);
        assert(is_whitespace(input[input.len() - 1]));
    }
}

/// Taking the whitespace out of a text leaves its last character in place,
/// where that is no whitespace.
proof fn last_character_stays(input: Seq<char>)
    requires
        input.len() > 0,
        !is_whitespace(input.last()),
    ensures
        without_whitespace(input).len() > 0,
        without_whitespace(input).last() == input.last(),
{
    reveal(Seq::filter);
}

/// A text that ends in `(` or in one of `- + * /` is invalid input, whether
/// or not whitespace follows that character.
pub proof fn open_end_is_invalid(input: Seq<char>)
    requires
        ends_open(input) || ends_open(without_whitespace(input)),
    ensures
        built(input) == Err::<Seq<Token>, ParsingError>(ParsingError::InvalidInput),
{
    if ends_open(input) {
        last_character_stays(input);
    }
}

/// A text in which `c` does not stand holds it zero times.
pub proof fn absent_character_does_not_occur(text: Seq<char>, c: char)
    requires
        forall|i: int| 0 <= i < text.len() ==> #[trigger] text[i] != c,
    ensures
        occurrences(text, c) == 0,
    decreases text.len(),
{
    if text.len() > 0 {
        let shorter = text.drop_last();
        assert forall|i: int| 0 <= i < shorter.len() implies #[trigger] shorter[i] != c by {
            assert(shorter[i] == text[i]);
        }
        absent_character_does_not_occur(shorter, c);
        assert(text.last() == text[text.len() - 1]);
    }
}

/// A text whose parentheses do not match is refused for that reason: one
/// with more `(` than `)` or the other way round, or with a `)` before the
/// `(` that it would close. This holds of the texts that, once whitespace is
/// gone, neither end in `(` or an operator nor start with `)`, `+`, `*` or
/// `/`; those are invalid input whatever their parentheses.
pub proof fn unmatched_parentheses_are_reported(input: Seq<char>)
    requires
        !ends_open(without_whitespace(input)),
        !starts_closed(without_whitespace(input)),
        occurrences(without_whitespace(input), '(') != occurrences(without_whitespace(input), ')')
            || exists|k: int|
            0 <= k <= without_whitespace(input).len() && occurrences(
                #[trigger] without_whitespace(input).take(k),
                ')',
            ) > occurrences(without_whitespace(input).take(k), '('),
    ensures
        built(input) == Err::<Seq<Token>, ParsingError>(ParsingError::ParenthesesNotMatching),
{
    let text = without_whitespace(input);
    if text.len() <= 1 {
        if text.len() == 1 && !is_digit(text[0]) {
            assert(text.last() == text[0]);
        }
        if text.len() == 0 || is_digit(text[0]) {
            assert forall|k: int| 0 <= k <= text.len() implies occurrences(
                #[trigger] text.take(k),
                ')',
            ) == 0 && occurrences(text.take(k), '(') == 0 by {
                absent_character_does_not_occur(text.take(k), ')');
                absent_character_does_not_occur(text.take(k), '(');
            }
            assert(text.take(text.len() as int) == text);
        }
    }
    if parentheses_match(text) {
        let k = choose|k: int|
            0 <= k <= text.len() && occurrences(#[trigger] text.take(k), ')') > occurrences(
                text.take(k),
                '(',
            );
        assert(open_parentheses(text.take(k)) >= 0);
    }
}

/// Whitespace does not matter: a text with a whitespace character put in at
/// any place builds what the text without it builds.
pub proof fn whitespace_does_not_matter(input: Seq<char>, at: int, space: char)
    requires
        0 <= at <= input.len(),
        is_whitespace(space),
    ensures
        built(input.insert(at, space)) == built(input),
{
    let keep = |c: char| !is_whitespace(c);
    let front = input.subrange(0, at);
    let back = input.subrange(at, input.len() as int);
    assert(input == front + back);
    assert(input.insert(at, space) == front.push(space) + back);
    Seq::filter_distributes_over_add(front, back, keep);
    Seq::filter_distributes_over_add(front.push(space), back, keep);
    assert(front.push(space).filter(keep) == front.filter(keep)) by {
        reveal(Seq::filter);
        assert(front.push(space).drop_last() == front);
    }
}

/// Evaluating what is built from a text gives the value of the expression
/// that the text writes: operators that bind more tightly first, operators of
/// one rank from the left, and what stands in parentheses before what stands
/// around it. This holds of every text that, once whitespace is gone, is
/// valid and writes no number outside `i32`, and for every arithmetic.
/// Where each sign of the text stands directly before a digit, each sign of
/// the expression stands before a number, so that the value is the one that
/// the rules of arithmetic give.
pub proof fn built_keeps_the_value<V>(
    input: Seq<char>,
    number: spec_fn(i32) -> V,
    combine: spec_fn(Operator, V, V) -> V,
)
    requires
        is_expression_text(without_whitespace(input)),
    ensures
        expression_of(without_whitespace(input)).well_formed(),
        expression_of(without_whitespace(input)).text() == without_whitespace(input),
        signs_stand_before_digits(without_whitespace(input)) ==> expression_of(
            without_whitespace(input),
        ).is_plain(),
        built(input) == Ok::<Seq<Token>, ParsingError>(
            expression_of(without_whitespace(input)).postfix(false),
        ),
        postfix_value(expression_of(without_whitespace(input)).postfix(false), number, combine)
            == expression_of(without_whitespace(input)).value(false, number, combine),
{
    let text = without_whitespace(input);
    text_is_an_expression(text);
    postfix_has_the_value(expression_of(text), number, combine);
}

/// An expression can be built from its own text: the text of a well-formed
/// expression whose numbers fit, unless it is one digit alone, builds the
/// postfix order of that expression.
pub proof fn expression_is_built_from_its_text(expression: Infix)
    requires
        expression.well_formed(),
        expression.fits(false),
        expression.text().len() > 1,
    ensures
        built(expression.text()) == Ok::<Seq<Token>, ParsingError>(expression.postfix(false)),
{
    let text = expression.text();
    text_is_valid(expression);
    text_converts_to_postfix(expression);
    valid_text_converts(text);
}

} // verus!

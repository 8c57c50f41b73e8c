//! Reading a text as an expression: every valid text is the text of the
//! well-formed expression that is read from it here, and where the numbers
//! of that expression fit, its conversion gives the postfix order of the
//! expression.

use super::all_digits;
use super::can_follow;
use super::infix::ends_operand;
use super::infix::Infix;
use super::infix::occurrences_in_joined;
use super::infix::occurrences_in_one;
use super::infix::starts_operand;
use super::infix::symbol_of;
use super::infix::text_parentheses_match;
use super::is_digit;
use super::is_valid_char;
use super::is_valid_infix;
use super::open_parentheses;
use super::operator_of;
use super::Operator;
use super::reverse_polish_notation::postfix_of;
use super::round_trip::text_converts_to_postfix;
use super::round_trip::text_is_refused;
use vstd::prelude::*;

verus! {

/// Whether each sign of `text` stands directly before a digit. A sign is a
/// `-` at the start or behind a character that does not end an operand.
pub open spec fn signs_stand_before_digits(text: Seq<char>) -> bool {
    forall|i: int|
        0 <= i < text.len() && #[trigger] text[i] == '-' && (i == 0 || !ends_operand(text[i - 1]))
            ==> i + 1 < text.len() && is_digit(text[i + 1])
}

/// Whether `text` can be built into an expression: it is valid and each
/// number of the expression that it writes fits.
pub open spec fn is_expression_text(text: Seq<char>) -> bool {
    is_valid_infix(text) && expression_of(text).fits(false)
}

/// Where the run of digits that starts at `from` ends.
pub open spec fn digits_end(text: Seq<char>, from: int) -> int
    decreases text.len() - from,
{
    if 0 <= from < text.len() && is_digit(text[from]) {
        digits_end(text, from + 1)
    } else {
        from
    }
}

/// The operator that the character at `at` writes, where it is one of
/// `+ - * /`.
pub open spec fn binary_at(text: Seq<char>, at: int) -> Option<Operator> {
    if 0 <= at < text.len() && operator_of(text[at]) is Some && operator_of(
        text[at],
    ).unwrap().is_binary() {
        operator_of(text[at])
    } else {
        None
    }
}

/// The operand that starts at `from`, and where it ends: a group from `(` to
/// the `)` that closes it, a sign with the operand behind it, or a number.
pub open spec fn operand_at(text: Seq<char>, from: int) -> (Infix, int)
    decreases text.len() - from, 0int,
{
    if 0 <= from < text.len() && text[from] == '(' {
        let (inner, end) = expression_at(text, from + 1, 1);
        (Infix::Group(Box::new(inner)), end + 1)
    } else if 0 <= from < text.len() && text[from] == '-' {
        let (operand, end) = operand_at(text, from + 1);
        (Infix::Signed(Box::new(operand)), end)
    } else {
        let end = digits_end(text, from);
        (Infix::Number(text.subrange(from, end)), end)
    }
}

/// The longest expression that starts at `from` and whose operators outside
/// parentheses bind at least as tightly as `rank`, and where it ends.
pub open spec fn expression_at(text: Seq<char>, from: int, rank: int) -> (Infix, int)
    decreases text.len() - from, 2int,
{
    let (first, end) = operand_at(text, from);
    if from < end <= text.len() {
        continued(text, first, end, rank)
    } else {
        (first, end)
    }
}

/// The expression `left`, which ends at `at`, taken as the left operand of
/// the operators that follow it as long as they bind at least as tightly as
/// `rank`, and where the whole ends. The right operand of an operator is the
/// longest expression behind it whose operators bind more tightly.
pub open spec fn continued(text: Seq<char>, left: Infix, at: int, rank: int) -> (Infix, int)
    decreases text.len() - at, 3int,
{
    match binary_at(text, at) {
        Some(operator) => if operator.rank() >= rank {
            let (right, end) = expression_at(text, at + 1, operator.rank() + 1);
            if at < end <= text.len() {
                continued(text, Infix::Binary(Box::new(left), operator, Box::new(right)), end, rank)
            } else {
                (left, at)
            }
        } else {
            (left, at)
        },
        None => (left, at),
    }
}

/// The expression that `text` writes: operators that bind more tightly
/// before the others, operators of one rank from the left, and what stands
/// in parentheses as one operand.
pub open spec fn expression_of(text: Seq<char>) -> Infix {
    expression_at(text, 0, 1).0
}

/// Whether an operand can start at `at`: at the start of the text or behind
/// a character that does not end an operand.
pub open spec fn operand_can_start(text: Seq<char>, at: int) -> bool {
    0 <= at < text.len() && (at == 0 || !ends_operand(text[at - 1]))
}

/// Whether `expression` is well-formed and written from `from` up to `end`,
/// where an operand ends and no digit follows; and whether each of its signs
/// stands before a number where each sign of the text stands before a digit.
pub open spec fn is_written(text: Seq<char>, from: int, expression: Infix, end: int) -> bool {
    &&& 0 <= from < end <= text.len()
    &&& expression.well_formed()
    &&& expression.text() == text.subrange(from, end)
    &&& ends_operand(text[end - 1])
    &&& (end == text.len() || !is_digit(text[end]))
    &&& (signs_stand_before_digits(text) ==> expression.is_plain())
}

/// Whether an expression whose operators bind at least as tightly as `rank`
/// cannot go on at `at`: the text ends there, or a `)` or an operator that
/// binds less tightly stands there.
pub open spec fn stops(text: Seq<char>, at: int, rank: int) -> bool {
    ||| at == text.len()
    ||| text[at] == ')'
    ||| (binary_at(text, at) is Some && binary_at(text, at).unwrap().rank() < rank)
}

/// A run of digits ends in the text, holds digits only, and no digit
/// follows it.
proof fn digits_run(text: Seq<char>, from: int)
    requires
        0 <= from <= text.len(),
    ensures
        from <= digits_end(text, from) <= text.len(),
        all_digits(text.subrange(from, digits_end(text, from))),
        digits_end(text, from) == text.len() || !is_digit(text[digits_end(text, from)]),
        from < text.len() && is_digit(text[from]) ==> from < digits_end(text, from),
    decreases text.len() - from,
{
    if from < text.len() && is_digit(text[from]) {
        digits_run(text, from + 1);
        let end = digits_end(text, from);
        let run = text.subrange(from, end);
        let rest = text.subrange(from + 1, end);
        assert forall|i: int| 0 <= i < run.len() implies is_digit(#[trigger] run[i]) by {
            if i > 0 {
                assert(run[i] == rest[i - 1]);
            }
        }
    }
}

/// Where an operand can start in a valid text, a digit, a sign or `(`
/// stands, and the text goes on behind a sign.
proof fn operand_starts(text: Seq<char>, at: int)
    requires
        is_valid_infix(text),
        operand_can_start(text, at),
    ensures
        starts_operand(text[at]),
        text[at] == '-' ==> operand_can_start(text, at + 1),
        text[at] == '(' ==> operand_can_start(text, at + 1),
{
    assert(is_valid_char(text[at]));
    if at > 0 {
        assert(can_follow(text[at - 1], text[at]));
    }
    if at + 1 == text.len() {
        assert(text.last() == text[at]);
    }
}

/// Behind an operand in a valid text, the text ends or a `)` or one of
/// `+ - * /` stands, and an operand can start behind such an operator.
proof fn operand_is_followed(text: Seq<char>, end: int)
    requires
        is_valid_infix(text),
        0 < end <= text.len(),
        ends_operand(text[end - 1]),
        end == text.len() || !is_digit(text[end]),
    ensures
        end == text.len() || text[end] == ')' || binary_at(text, end) is Some,
        binary_at(text, end) is Some ==> operand_can_start(text, end + 1),
{
    if end < text.len() {
        assert(is_valid_char(text[end]));
        assert(can_follow(text[end - 1], text[end]));
        if end + 1 == text.len() {
            assert(text.last() == text[end]);
        }
    }
}

/// A number is read where it stands.
proof fn number_is_written(text: Seq<char>, from: int)
    requires
        0 <= from < text.len(),
        is_digit(text[from]),
    ensures
        is_written(text, from, operand_at(text, from).0, operand_at(text, from).1),
        operand_at(text, from).0.level() == 3,
{
    let end = digits_end(text, from);
    digits_run(text, from);
    let digits = text.subrange(from, end);
    assert(operand_at(text, from) == (Infix::Number(digits), end));
    assert(is_digit(digits[digits.len() - 1]));
}

/// A sign before an operand is read with it. Where each sign of the text
/// stands before a digit, the operand is a number.
proof fn sign_is_written(text: Seq<char>, from: int, operand: Infix, end: int)
    requires
        operand_can_start(text, from),
        text[from] == '-',
        is_written(text, from + 1, operand, end),
        operand.level() == 3,
        operand_at(text, from + 1) == (operand, end),
    ensures
        is_written(text, from, Infix::Signed(Box::new(operand)), end),
{
    let signed = Infix::Signed(Box::new(operand));
    assert(signed.text() == text.subrange(from, end));
    if signs_stand_before_digits(text) {
        assert(is_digit(text[from + 1]));
    }
}

/// Behind a `(` and a text whose parentheses match, a parenthesis is still
/// open.
proof fn group_stays_open(text: Seq<char>, from: int, end: int)
    requires
        0 <= from < end <= text.len(),
        text[from] == '(',
        open_parentheses(text.subrange(from + 1, end)) == 0,
        open_parentheses(text.take(from)) >= 0,
    ensures
        open_parentheses(text.take(end)) >= 1,
{
    let before = text.take(from);
    let open = seq!['('];
    let inner = text.subrange(from + 1, end);
    assert(text.take(end) == before + open + inner);
    occurrences_in_one('(', '(');
    occurrences_in_one('(', ')');
    occurrences_in_joined(before, open, '(');
    occurrences_in_joined(before, open, ')');
    occurrences_in_joined(before + open, inner, '(');
    occurrences_in_joined(before + open, inner, ')');
}

/// Behind a text whose parentheses match, a `)` closes more than was
/// opened.
proof fn closing_is_too_much(text: Seq<char>, end: int)
    requires
        0 <= end < text.len(),
        text[end] == ')',
        open_parentheses(text.take(end)) == 0,
    ensures
        open_parentheses(text.take(end + 1)) < 0,
{
    let upto = text.take(end);
    let close = seq![')'];
    assert(text.take(end + 1) == upto + close);
    occurrences_in_one(')', '(');
    occurrences_in_one(')', ')');
    occurrences_in_joined(upto, close, '(');
    occurrences_in_joined(upto, close, ')');
}

/// An expression in parentheses is a group.
proof fn group_is_written(text: Seq<char>, from: int, inner: Infix, end: int)
    requires
        is_valid_infix(text),
        0 <= from < text.len(),
        text[from] == '(',
        is_written(text, from + 1, inner, end),
        stops(text, end, 1),
    ensures
        is_written(text, from, Infix::Group(Box::new(inner)), end + 1),
{
    assert(end < text.len() && text[end] == ')') by {
        text_parentheses_match(inner);
        assert(open_parentheses(text.take(from)) >= 0);
        group_stays_open(text, from, end);
        if end == text.len() {
            assert(text.take(end) == text);
        }
        operand_is_followed(text, end);
    }
    let group = Infix::Group(Box::new(inner));
    assert(group.text() == text.subrange(from, end + 1));
    if end + 1 < text.len() {
        assert(can_follow(text[end], text[end + 1]));
    }
}

/// An operator between two expressions makes an expression.
proof fn operator_is_written(
    text: Seq<char>,
    from: int,
    left: Infix,
    at: int,
    right: Infix,
    end: int,
)
    requires
        is_written(text, from, left, at),
        binary_at(text, at) is Some,
        left.level() >= binary_at(text, at).unwrap().rank(),
        is_written(text, at + 1, right, end),
        right.level() > binary_at(text, at).unwrap().rank(),
    ensures
        is_written(
            text,
            from,
            Infix::Binary(Box::new(left), binary_at(text, at).unwrap(), Box::new(right)),
            end,
        ),
{
    let operator = binary_at(text, at).unwrap();
    let whole = Infix::Binary(Box::new(left), operator, Box::new(right));
    assert(symbol_of(operator) == text[at]);
    assert(whole.text() == text.subrange(from, end));
}

/// The operand that starts where an operand can start is read where it
/// stands.
proof fn operand_is_written(text: Seq<char>, from: int)
    requires
        is_valid_infix(text),
        operand_can_start(text, from),
    ensures
        is_written(text, from, operand_at(text, from).0, operand_at(text, from).1),
        operand_at(text, from).0.level() == 3,
    decreases text.len() - from, 0int,
{
    operand_starts(text, from);
    if text[from] == '(' {
        expression_is_written(text, from + 1, 1);
        let (inner, end) = expression_at(text, from + 1, 1);
        group_is_written(text, from, inner, end);
    } else if text[from] == '-' {
        operand_is_written(text, from + 1);
        let (operand, end) = operand_at(text, from + 1);
        sign_is_written(text, from, operand, end);
    } else {
        number_is_written(text, from);
    }
}

/// The expression that starts where an operand can start is read where it
/// stands, up to where it cannot go on.
proof fn expression_is_written(text: Seq<char>, from: int, rank: int)
    requires
        is_valid_infix(text),
        operand_can_start(text, from),
        1 <= rank <= 3,
    ensures
        is_written(text, from, expression_at(text, from, rank).0, expression_at(text, from, rank).1),
        expression_at(text, from, rank).0.level() >= rank,
        stops(text, expression_at(text, from, rank).1, rank),
    decreases text.len() - from, 2int,
{
    operand_is_written(text, from);
    let (first, end) = operand_at(text, from);
    operand_is_followed(text, end);
    continued_is_written(text, from, first, end, rank);
}

/// An expression goes on with the operators that follow it, up to where it
/// cannot go on.
proof fn continued_is_written(text: Seq<char>, from: int, left: Infix, at: int, rank: int)
    requires
        is_valid_infix(text),
        is_written(text, from, left, at),
        1 <= rank <= 3,
        left.level() >= rank,
        stops(text, at, left.level() + 1),
    ensures
        is_written(text, from, continued(text, left, at, rank).0, continued(text, left, at, rank).1),
        continued(text, left, at, rank).0.level() >= rank,
        stops(text, continued(text, left, at, rank).1, rank),
    decreases text.len() - at, 3int,
{
    operand_is_followed(text, at);
    match binary_at(text, at) {
        Some(operator) => {
            if operator.rank() >= rank {
                expression_is_written(text, at + 1, operator.rank() + 1);
                let (right, end) = expression_at(text, at + 1, operator.rank() + 1);
                operator_is_written(text, from, left, at, right, end);
                let whole = Infix::Binary(Box::new(left), operator, Box::new(right));
                continued_is_written(text, from, whole, end, rank);
            }
        },
        None => {},
    }
}

/// A valid text is the text of the well-formed expression that is read
/// from it. Where each sign of the text stands directly before a digit, each
/// sign of the expression stands before a number.
pub proof fn text_is_an_expression(text: Seq<char>)
    requires
        is_valid_infix(text),
    ensures
        expression_of(text).well_formed(),
        expression_of(text).text() == text,
        signs_stand_before_digits(text) ==> expression_of(text).is_plain(),
{
    expression_is_written(text, 0, 1);
    let (expression, end) = expression_at(text, 0, 1);
    if end < text.len() {
        operand_is_followed(text, end);
        assert(text[end] == ')');
        assert(text.take(end) == expression.text());
        text_parentheses_match(expression);
        closing_is_too_much(text, end);
    }
    assert(text.subrange(0, text.len() as int) == text);
}

/// The conversion of a valid text gives the postfix order of the expression
/// that the text writes, and fails exactly where a number of that expression
/// does not fit.
pub proof fn valid_text_converts(text: Seq<char>)
    requires
        is_valid_infix(text),
    ensures
        postfix_of(text) == if expression_of(text).fits(false) {
            Some(expression_of(text).postfix(false))
        } else {
            None
        },
{
    text_is_an_expression(text);
    if expression_of(text).fits(false) {
        text_converts_to_postfix(expression_of(text));
    } else {
        text_is_refused(expression_of(text));
    }
}

} // verus!

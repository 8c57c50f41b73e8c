//! Why the postfix form of an expression has the value of the expression:
//! the conversion reads the text of an expression as its tokens in postfix
//! order, and evaluating those leaves the value of the expression.

use super::after_operand;
use super::all_digits;
use super::infix::Infix;
use super::infix::literal;
use super::infix::symbol_of;
use super::is_digit;
use super::Operator;
use super::parsed_number;
use super::ParsingError;
use super::postfix::postfix_value;
use super::postfix::stack_after;
use super::reverse_polish_notation::char_read;
use super::reverse_polish_notation::conversion_start;
use super::reverse_polish_notation::Conversion;
use super::reverse_polish_notation::drained;
use super::reverse_polish_notation::failure_stays;
use super::reverse_polish_notation::flushed;
use super::reverse_polish_notation::group_closed;
use super::reverse_polish_notation::postfix_of;
use super::reverse_polish_notation::text_read_in_parts;
use super::reverse_polish_notation::text_read;
use super::reverse_polish_notation::yielded;
use super::Token;
use vstd::prelude::*;

verus! {

impl Infix {
    /// The operators of the expression that still wait on the stack when the
    /// conversion has read it: the operator at its root and those down the
    /// right operands.
    pub open spec fn waiting_operators(self) -> Seq<Operator>
        decreases self,
    {
        match self {
            Infix::Binary(_, operator, right) => seq![operator] + right.waiting_operators(),
            _ => Seq::empty(),
        }
    }

    /// The tokens of the expression that the conversion has put out when it
    /// has read it: all but the waiting operators.
    pub open spec fn tokens_out(self, negative: bool) -> Seq<Token>
        decreases self,
    {
        match self {
            Infix::Binary(left, _, right) => left.postfix(negative) + right.tokens_out(false),
            _ => self.postfix(negative),
        }
    }
}

/// The tokens of the operators on a stack, from the top down.
pub open spec fn moved_out(operators: Seq<Operator>) -> Seq<Token>
    decreases operators.len(),
{
    if operators.len() == 0 {
        Seq::empty()
    } else {
        seq![Token::Operator(operators.last())] + moved_out(operators.drop_last())
    }
}

/// Whether each operator of `operators` binds at least as tightly as `rank`.
pub open spec fn all_bind(operators: Seq<Operator>, rank: int) -> bool {
    forall|i: int| 0 <= i < operators.len() ==> (#[trigger] operators[i]).rank() >= rank
}

/// The operators of two joined stacks move out from the top down: those of
/// the second before those of the first.
proof fn moved_out_of_joined(first: Seq<Operator>, second: Seq<Operator>)
    ensures
        moved_out(first + second) == moved_out(second) + moved_out(first),
    decreases second.len(),
{
    if second.len() == 0 {
        assert(first + second == first);
        assert(moved_out(second) + moved_out(first) == moved_out(first));
    } else {
        moved_out_of_joined(first, second.drop_last());
        assert((first + second).drop_last() == first + second.drop_last());
        assert((first + second).last() == second.last());
        assert(seq![Token::Operator(second.last())] + (moved_out(second.drop_last()) + moved_out(
            first,
        )) == (seq![Token::Operator(second.last())] + moved_out(second.drop_last())) + moved_out(
            first,
        ));
    }
}

/// What the conversion has put out and what still waits make up the
/// postfix order.
proof fn postfix_in_two_parts(expression: Infix, negative: bool)
    ensures
        expression.postfix(negative) == expression.tokens_out(negative) + moved_out(
            expression.waiting_operators(),
        ),
    decreases expression,
{
    match expression {
        Infix::Binary(left, operator, right) => {
            postfix_in_two_parts(*right, false);
            moved_out_of_joined(seq![operator], right.waiting_operators());
            assert(moved_out(seq![operator]) == seq![Token::Operator(operator)]) by {
                assert(seq![operator].drop_last() == Seq::<Operator>::empty());
                assert(moved_out(seq![operator].drop_last()) == Seq::<Token>::empty());
                assert(seq![operator].last() == operator);
                assert(seq![Token::Operator(operator)] + Seq::<Token>::empty() == seq![
                    Token::Operator(operator),
                ]);
            }
            assert(left.postfix(negative) + right.postfix(false) + seq![Token::Operator(operator)]
                == left.postfix(negative) + right.tokens_out(false) + (moved_out(
                right.waiting_operators(),
            ) + seq![Token::Operator(operator)]));
        },
        _ => {
            assert(expression.postfix(negative) + Seq::<Token>::empty() == expression.postfix(
                negative,
            ));
        },
    }
}

/// The waiting operators of a well-formed expression bind at least as
/// tightly as the expression holds together, and none is a parenthesis.
proof fn waiting_operators_bind(expression: Infix)
    requires
        expression.well_formed(),
    ensures
        all_bind(expression.waiting_operators(), expression.level()),
        all_bind(expression.waiting_operators(), 1),
    decreases expression,
{
    match expression {
        Infix::Binary(left, operator, right) => {
            waiting_operators_bind(*right);
            let all = expression.waiting_operators();
            assert forall|i: int| 0 <= i < all.len() implies (#[trigger] all[i]).rank()
                >= expression.level() && all[i].rank() >= 1 by {
                if i > 0 {
                    assert(all[i] == right.waiting_operators()[i - 1]);
                }
            }
        },
        _ => {},
    }
}

/// Operators on top of the stack that bind at least as tightly as `rank`
/// all yield, down to the first that does not.
proof fn top_operators_yield(
    below: Seq<Operator>,
    top: Seq<Operator>,
    output: Seq<Token>,
    rank: u8,
)
    requires
        all_bind(top, rank as int),
        below.len() == 0 || below.last().rank() < rank,
    ensures
        yielded(below + top, output, rank) == (below, output + moved_out(top)),
    decreases top.len(),
{
    if top.len() == 0 {
        assert(below + top == below);
        assert(output + moved_out(top) == output);
    } else {
        let all = below + top;
        assert(all.last() == top[top.len() - 1]);
        assert(all.drop_last() == below + top.drop_last());
        let next = output.push(Token::Operator(top.last()));
        top_operators_yield(below, top.drop_last(), next, rank);
        assert(next + moved_out(top.drop_last()) == output + moved_out(top));
    }
}

/// A `)` moves the operators above the last `(` out and removes that `(`.
proof fn top_operators_close(below: Seq<Operator>, top: Seq<Operator>, output: Seq<Token>)
    requires
        all_bind(top, 1),
    ensures
        group_closed(below.push(Operator::LeftParenthesis) + top, output) == (
            below,
            output + moved_out(top),
        ),
    decreases top.len(),
{
    let all = below.push(Operator::LeftParenthesis) + top;
    if top.len() == 0 {
        assert(all == below.push(Operator::LeftParenthesis));
        assert(all.drop_last() == below);
        assert(output + moved_out(top) == output);
    } else {
        assert(all.last() == top[top.len() - 1]);
        assert(all.drop_last() == below.push(Operator::LeftParenthesis) + top.drop_last());
        let next = output.push(Token::Operator(top.last()));
        top_operators_close(below, top.drop_last(), next);
        assert(next + moved_out(top.drop_last()) == output + moved_out(top));
    }
}

/// At the end, the operators left on the stack all move out.
proof fn operators_drain(operators: Seq<Operator>, output: Seq<Token>)
    requires
        all_bind(operators, 1),
    ensures
        drained(operators, output) == output + moved_out(operators),
    decreases operators.len(),
{
    if operators.len() == 0 {
        assert(output + moved_out(operators) == output);
    } else {
        assert(operators.last() == operators[operators.len() - 1]);
        let next = output.push(Token::Operator(operators.last()));
        operators_drain(operators.drop_last(), next);
        assert(next + moved_out(operators.drop_last()) == output + moved_out(operators));
    }
}

/// Whether the conversion is about to read an operand: it has not failed,
/// no number is being read, and the character before did not end an
/// operand.
pub open spec fn awaits_operand(state: Conversion) -> bool {
    &&& !state.failed
    &&& state.pending.len() == 0
    &&& !after_operand(state.previous)
}

/// Whether `after` is what the conversion holds when, starting from
/// `before`, it has read `expression` and taken in its last number: the
/// waiting operators of the expression are on the stack and its other tokens
/// in the output, the first number negative where `before` had it marked so.
pub open spec fn has_read(before: Conversion, expression: Infix, after: Conversion) -> bool {
    &&& !after.failed
    &&& after.pending.len() == 0
    &&& !after.negate
    &&& after_operand(after.previous)
    &&& after.operators == before.operators + expression.waiting_operators()
    &&& after.output == before.output + expression.tokens_out(before.negate)
}

/// Digits join the number that is being read, behind the sign where the
/// number was marked as negative.
proof fn digits_are_gathered(state: Conversion, digits: Seq<char>)
    requires
        !state.failed,
        digits.len() > 0,
        all_digits(digits),
    ensures
        ({
            let after = text_read(state, digits);
            &&& !after.failed
            &&& !after.negate
            &&& after.previous == Some(digits.last())
            &&& after.operators == state.operators
            &&& after.output == state.output
            &&& after.pending == if state.negate {
                state.pending.push('-') + digits
            } else {
                state.pending + digits
            }
        }),
    decreases digits.len(),
{
    let shorter = digits.drop_last();
    let start = if state.negate {
        state.pending.push('-')
    } else {
        state.pending
    };
    assert(is_digit(digits[digits.len() - 1]));
    if shorter.len() == 0 {
        assert(text_read(state, shorter) == state);
        assert(start.push(digits.last()) == start + digits);
    } else {
        assert forall|i: int| 0 <= i < shorter.len() implies is_digit(#[trigger] shorter[i]) by {
            assert(shorter[i] == digits[i]);
        }
        digits_are_gathered(state, shorter);
        assert((start + shorter).push(digits.last()) == start + digits);
    }
}

/// A well-formed number that fits is read as the integer that it writes,
/// negated where it was marked as negative.
proof fn number_is_read(state: Conversion, digits: Seq<char>)
    requires
        awaits_operand(state),
        Infix::Number(digits).well_formed(),
        Infix::Number(digits).fits(state.negate),
    ensures
        has_read(state, Infix::Number(digits), flushed(text_read(state, digits))),
        text_read(state, digits).previous == flushed(text_read(state, digits)).previous,
{
    let number = Infix::Number(digits);
    assert(is_digit(digits[0]));
    digits_are_gathered(state, digits);
    let after = text_read(state, digits);
    let written = if state.negate {
        seq!['-'] + digits
    } else {
        digits
    };
    assert(after.pending == written) by {
        if state.negate {
            assert(Seq::<char>::empty().push('-') + digits == seq!['-'] + digits);
        } else {
            assert(Seq::<char>::empty() + digits == digits);
        }
    }
    assert(parsed_number(written) == Ok::<i32, ParsingError>(literal(state.negate, digits))) by {
        if state.negate {
            assert(written.skip(1) == digits);
            assert(written[0] == '-');
        } else {
            assert(written[0] != '-');
        }
    }
    assert(number.waiting_operators() == Seq::<Operator>::empty());
    assert(state.operators + number.waiting_operators() == state.operators);
    assert(state.output.push(Token::Operand(literal(state.negate, digits))) == state.output
        + number.tokens_out(state.negate));
}

/// A well-formed expression holds together more tightly than a parenthesis
/// binds.
proof fn level_is_positive(expression: Infix)
    requires
        expression.well_formed(),
    ensures
        expression.level() >= 1,
{
}

/// A sign where an operand can stand marks the next number as negative, and
/// an operand can stand behind it.
proof fn sign_is_read(state: Conversion)
    requires
        awaits_operand(state),
    ensures
        text_read(state, seq!['-']) == char_read(state, '-'),
        char_read(state, '-') == (Conversion { negate: true, ..state }),
{
    assert(seq!['-'].drop_last() == Seq::<char>::empty());
    assert(text_read(state, seq!['-'].drop_last()) == state);
    assert(seq!['-'].last() == '-');
}

/// A `(` where an operand can stand goes on the stack, and an operand can
/// stand behind it.
proof fn group_is_opened(state: Conversion)
    requires
        awaits_operand(state),
    ensures
        text_read(state, seq!['(']) == char_read(state, '('),
        awaits_operand(char_read(state, '(')),
        char_read(state, '(').operators == state.operators.push(Operator::LeftParenthesis),
        char_read(state, '(').output == state.output,
        char_read(state, '(').negate == state.negate,
{
    assert(seq!['('].drop_last() == Seq::<char>::empty());
    assert(text_read(state, seq!['('].drop_last()) == state);
    assert(seq!['('].last() == '(');
}

/// A `)` behind an expression that was read behind a `(` leaves the stack as
/// it was before the `(`, and all tokens of the expression in the output.
proof fn group_is_closed(state: Conversion, inner: Infix, within: Conversion)
    requires
        inner.well_formed(),
        !within.failed,
        within.previous == flushed(within).previous,
        has_read(char_read(state, '('), inner, flushed(within)),
        char_read(state, '(').operators == state.operators.push(Operator::LeftParenthesis),
        char_read(state, '(').output == state.output,
        char_read(state, '(').negate == state.negate,
    ensures
        has_read(state, Infix::Group(Box::new(inner)), flushed(char_read(within, ')'))),
        char_read(within, ')').previous == flushed(char_read(within, ')')).previous,
{
    let taken = flushed(within);
    let closed = char_read(within, ')');
    waiting_operators_bind(inner);
    top_operators_close(state.operators, inner.waiting_operators(), taken.output);
    postfix_in_two_parts(inner, state.negate);
    assert(closed.output == state.output + inner.postfix(state.negate)) by {
        assert(state.output + inner.tokens_out(state.negate) + moved_out(
            inner.waiting_operators(),
        ) == state.output + (inner.tokens_out(state.negate) + moved_out(
            inner.waiting_operators(),
        )));
    }
    let group = Infix::Group(Box::new(inner));
    assert(group.waiting_operators() == Seq::<Operator>::empty());
    assert(state.operators + group.waiting_operators() == state.operators);
    assert(group.tokens_out(state.negate) == inner.postfix(state.negate));
}

/// An operator behind its left operand moves the waiting operators of that
/// operand out and goes on the stack, and an operand can stand behind it.
proof fn operator_is_taken(state: Conversion, left: Infix, operator: Operator, first: Conversion)
    requires
        left.well_formed(),
        operator.is_binary(),
        left.level() >= operator.rank(),
        state.operators.len() == 0 || state.operators.last().rank() < operator.rank(),
        !first.failed,
        first.previous == flushed(first).previous,
        has_read(state, left, flushed(first)),
    ensures
        awaits_operand(char_read(first, symbol_of(operator))),
        !char_read(first, symbol_of(operator)).negate,
        char_read(first, symbol_of(operator)).operators == state.operators.push(operator),
        char_read(first, symbol_of(operator)).output == state.output + left.postfix(state.negate),
{
    let taken = flushed(first);
    let between = char_read(first, symbol_of(operator));
    waiting_operators_bind(left);
    assert(all_bind(left.waiting_operators(), operator.rank() as int));
    top_operators_yield(state.operators, left.waiting_operators(), taken.output, operator.rank());
    postfix_in_two_parts(left, state.negate);
    assert(between.output == state.output + left.postfix(state.negate)) by {
        assert(state.output + left.tokens_out(state.negate) + moved_out(left.waiting_operators())
            == state.output + (left.tokens_out(state.negate) + moved_out(
            left.waiting_operators(),
        )));
    }
}

/// The conversion reads a well-formed expression whose numbers fit as its
/// tokens in postfix order, but for the operators that still wait on the
/// stack. This holds wherever an operand can stand and the operator on top of
/// the stack, if any, binds less tightly than the expression holds together.
proof fn expression_is_read(state: Conversion, expression: Infix)
    requires
        awaits_operand(state),
        expression.well_formed(),
        expression.fits(state.negate),
        state.operators.len() == 0 || state.operators.last().rank() < expression.level(),
    ensures
        has_read(state, expression, flushed(text_read(state, expression.text()))),
        text_read(state, expression.text()).previous == flushed(
            text_read(state, expression.text()),
        ).previous,
    decreases expression,
{
    match expression {
        Infix::Number(digits) => {
            number_is_read(state, digits);
        },
        Infix::Signed(operand) => {
            let signed = char_read(state, '-');
            sign_is_read(state);
            expression_is_read(signed, *operand);
            text_read_in_parts(state, seq!['-'], operand.text());
            assert(operand.waiting_operators() == Seq::<Operator>::empty());
            assert(expression.waiting_operators() == Seq::<Operator>::empty());
            assert(operand.tokens_out(true) == operand.postfix(true));
        },
        Infix::Group(inner) => {
            let opened = char_read(state, '(');
            group_is_opened(state);
            assert(opened.operators.last() == Operator::LeftParenthesis);
            level_is_positive(*inner);
            expression_is_read(opened, *inner);
            let within = text_read(opened, inner.text());
            text_read_in_parts(state, seq!['('], inner.text());
            assert(text_read(state, expression.text()) == char_read(within, ')')) by {
                assert(expression.text().drop_last() == seq!['('] + inner.text());
                assert(expression.text().last() == ')');
            }
            group_is_closed(state, *inner, within);
            assert(expression == Infix::Group(Box::new(*inner)));
        },
        Infix::Binary(left, operator, right) => {
            let symbol = symbol_of(operator);
            expression_is_read(state, *left);
            let first = text_read(state, left.text());
            let between = char_read(first, symbol);
            assert(text_read(state, left.text() + seq![symbol]) == between) by {
                assert((left.text() + seq![symbol]).drop_last() == left.text());
                assert((left.text() + seq![symbol]).last() == symbol);
            }
            operator_is_taken(state, *left, operator, first);
            assert(between.operators.last() == operator);
            expression_is_read(between, *right);
            text_read_in_parts(state, left.text() + seq![symbol], right.text());
            let end = flushed(text_read(between, right.text()));
            assert(end.operators == state.operators + expression.waiting_operators()) by {
                assert(state.operators.push(operator) + right.waiting_operators()
                    == state.operators + (seq![operator] + right.waiting_operators()));
            }
            assert(end.output == state.output + expression.tokens_out(state.negate)) by {
                assert(state.output + left.postfix(state.negate) + right.tokens_out(false)
                    == state.output + (left.postfix(state.negate) + right.tokens_out(false)));
            }
        },
    }
}

/// A number that does not fit fails the conversion when it is taken in.
proof fn number_is_refused(state: Conversion, digits: Seq<char>)
    requires
        awaits_operand(state),
        Infix::Number(digits).well_formed(),
        !Infix::Number(digits).fits(state.negate),
    ensures
        !text_read(state, digits).failed,
        after_operand(text_read(state, digits).previous),
        flushed(text_read(state, digits)).failed,
{
    assert(is_digit(digits[0]));
    assert(is_digit(digits[digits.len() - 1]));
    digits_are_gathered(state, digits);
    let after = text_read(state, digits);
    let written = if state.negate {
        seq!['-'] + digits
    } else {
        digits
    };
    assert(after.pending == written) by {
        if state.negate {
            assert(Seq::<char>::empty().push('-') + digits == seq!['-'] + digits);
        } else {
            assert(Seq::<char>::empty() + digits == digits);
        }
    }
    assert(parsed_number(written) is Err) by {
        if state.negate {
            assert(written.skip(1) == digits);
            assert(written[0] == '-');
        } else {
            assert(written[0] != '-');
        }
    }
}

/// The conversion fails on a well-formed expression with a number that does
/// not fit, at the latest when it takes in the last number; and as long as
/// it has not failed, the character read last ended an operand.
proof fn expression_is_refused(state: Conversion, expression: Infix)
    requires
        awaits_operand(state),
        expression.well_formed(),
        !expression.fits(state.negate),
        state.operators.len() == 0 || state.operators.last().rank() < expression.level(),
    ensures
        flushed(text_read(state, expression.text())).failed,
        !text_read(state, expression.text()).failed ==> after_operand(
            text_read(state, expression.text()).previous,
        ),
    decreases expression,
{
    match expression {
        Infix::Number(digits) => {
            number_is_refused(state, digits);
        },
        Infix::Signed(operand) => {
            let signed = char_read(state, '-');
            sign_is_read(state);
            expression_is_refused(signed, *operand);
            text_read_in_parts(state, seq!['-'], operand.text());
        },
        Infix::Group(inner) => {
            let opened = char_read(state, '(');
            group_is_opened(state);
            assert(opened.operators.last() == Operator::LeftParenthesis);
            level_is_positive(*inner);
            expression_is_refused(opened, *inner);
            let within = text_read(opened, inner.text());
            text_read_in_parts(state, seq!['('], inner.text());
            assert(text_read(state, expression.text()) == char_read(within, ')')) by {
                assert(expression.text().drop_last() == seq!['('] + inner.text());
                assert(expression.text().last() == ')');
            }
        },
        Infix::Binary(left, operator, right) => {
            let symbol = symbol_of(operator);
            let first = text_read(state, left.text());
            let between = char_read(first, symbol);
            assert(text_read(state, left.text() + seq![symbol]) == between) by {
                assert((left.text() + seq![symbol]).drop_last() == left.text());
                assert((left.text() + seq![symbol]).last() == symbol);
            }
            text_read_in_parts(state, left.text() + seq![symbol], right.text());
            if left.fits(state.negate) {
                expression_is_read(state, *left);
                operator_is_taken(state, *left, operator, first);
                assert(between.operators.last() == operator);
                expression_is_refused(between, *right);
            } else {
                expression_is_refused(state, *left);
                assert(between.failed);
                failure_stays(between, right.text());
            }
        },
    }
}

/// The conversion of the text of a well-formed expression with a number
/// that does not fit fails.
pub proof fn text_is_refused(expression: Infix)
    requires
        expression.well_formed(),
        !expression.fits(false),
    ensures
        postfix_of(expression.text()) is None,
{
    expression_is_refused(conversion_start(), expression);
}

/// The conversion of the text of a well-formed expression whose numbers fit
/// gives the tokens of the expression in postfix order.
pub proof fn text_converts_to_postfix(expression: Infix)
    requires
        expression.well_formed(),
        expression.fits(false),
    ensures
        postfix_of(expression.text()) == Some(expression.postfix(false)),
{
    let start = conversion_start();
    expression_is_read(start, expression);
    let end = flushed(text_read(start, expression.text()));
    assert(end.operators == expression.waiting_operators()) by {
        assert(start.operators + expression.waiting_operators()
            == expression.waiting_operators());
    }
    assert(end.output == expression.tokens_out(false)) by {
        assert(start.output + expression.tokens_out(false) == expression.tokens_out(false));
    }
    waiting_operators_bind(expression);
    operators_drain(end.operators, end.output);
    postfix_in_two_parts(expression, false);
}

/// Evaluating the postfix order of an expression puts the value of the
/// expression on the value stack.
pub proof fn postfix_leaves_the_value<V>(
    before: Seq<Token>,
    expression: Infix,
    negative: bool,
    number: spec_fn(i32) -> V,
    combine: spec_fn(Operator, V, V) -> V,
)
    ensures
        stack_after(before + expression.postfix(negative), number, combine) == stack_after(
            before,
            number,
            combine,
        ).push(expression.value(negative, number, combine)),
    decreases expression,
{
    match expression {
        Infix::Number(digits) => {
            let all = before + expression.postfix(negative);
            assert(all.drop_last() == before);
            assert(all.last() == Token::Operand(literal(negative, digits)));
        },
        Infix::Signed(operand) => {
            postfix_leaves_the_value(before, *operand, true, number, combine);
        },
        Infix::Group(inner) => {
            postfix_leaves_the_value(before, *inner, negative, number, combine);
        },
        Infix::Binary(left, operator, right) => {
            let all = before + expression.postfix(negative);
            postfix_leaves_the_value(before, *left, negative, number, combine);
            postfix_leaves_the_value(
                before + left.postfix(negative),
                *right,
                false,
                number,
                combine,
            );
            assert(all.drop_last() == before + left.postfix(negative) + right.postfix(false));
            assert(all.last() == Token::Operator(operator));
            let below = stack_after(all.drop_last(), number, combine);
            let lhs = left.value(negative, number, combine);
            let rhs = right.value(false, number, combine);
            assert(below == stack_after(before, number, combine).push(lhs).push(rhs));
            assert(below.drop_last().drop_last() == stack_after(before, number, combine));
        },
    }
}

/// The postfix order of an expression has the value of the expression, for
/// every arithmetic.
pub proof fn postfix_has_the_value<V>(
    expression: Infix,
    number: spec_fn(i32) -> V,
    combine: spec_fn(Operator, V, V) -> V,
)
    ensures
        postfix_value(expression.postfix(false), number, combine) == expression.value(
            false,
            number,
            combine,
        ),
{
    postfix_leaves_the_value(Seq::empty(), expression, false, number, combine);
    assert(Seq::<Token>::empty() + expression.postfix(false) == expression.postfix(false));
}

} // verus!

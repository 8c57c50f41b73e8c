//! Why the conversion of a valid text gives an expression in postfix order.

use super::after_operand;
use super::can_follow;
use super::is_digit;
use super::is_unary_minus;
use super::is_valid_char;
use super::is_valid_infix;
use super::operator_of;
use super::Operator;
use super::parsed_number;
use super::postfix::evaluates_safely;
use super::postfix::is_postfix;
use super::postfix::operand_keeps_safe;
use super::postfix::operand_surplus;
use super::postfix::operator_keeps_safe;
use super::reverse_polish_notation::char_read;
use super::reverse_polish_notation::conversion_start;
use super::reverse_polish_notation::Conversion;
use super::reverse_polish_notation::drained;
use super::reverse_polish_notation::flushed;
use super::reverse_polish_notation::group_closed;
use super::reverse_polish_notation::postfix_of;
use super::reverse_polish_notation::text_read;
use super::reverse_polish_notation::yielded;
use super::Token;
use vstd::prelude::*;

verus! {

/// How many operators on the stack wait for their right operand: all but the
/// parentheses.
pub open spec fn waiting(operators: Seq<Operator>) -> int
    decreases operators.len(),
{
    if operators.len() == 0 {
        0
    } else {
        waiting(operators.drop_last()) + if operators.last().is_binary() {
            1int
        } else {
            0int
        }
    }
}

/// Whether no `)` is on the stack.
pub open spec fn holds_no_closing(operators: Seq<Operator>) -> bool {
    forall|i: int| 0 <= i < operators.len() ==> #[trigger] operators[i] != Operator::RightParenthesis
}

/// How many operands the conversion has seen and not yet used: those in the
/// output that no operator there has taken, and the number that is being
/// read.
pub open spec fn operands_open(state: Conversion) -> int {
    operand_surplus(state.output) + if state.pending.len() > 0 {
        1int
    } else {
        0int
    }
}

/// What holds of the conversion of a text in which no digit follows `)`:
/// the output can be evaluated safely; the last character was one that can
/// stand in an expression; a number is being read exactly when that was a
/// digit; and each waiting operator has its left operand in the output, with
/// one more operand there once an operand has just ended.
pub open spec fn in_shape(state: Conversion) -> bool {
    &&& evaluates_safely(state.output)
    &&& holds_no_closing(state.operators)
    &&& (state.previous is Some ==> is_valid_char(state.previous.unwrap()))
    &&& (state.pending.len() > 0) == (state.previous is Some && is_digit(state.previous.unwrap()))
    &&& operands_open(state) == waiting(state.operators) + if after_operand(state.previous) {
        1int
    } else {
        0int
    }
}

/// No negative number of operators waits.
proof fn waiting_is_not_negative(operators: Seq<Operator>)
    ensures
        waiting(operators) >= 0,
    decreases operators.len(),
{
    if operators.len() > 0 {
        waiting_is_not_negative(operators.drop_last());
    }
}

/// Behind an operand, a `)` leaves the output safe to evaluate, with one
/// operand more in it than operators wait.
proof fn group_closed_in_shape(operators: Seq<Operator>, output: Seq<Token>)
    requires
        evaluates_safely(output),
        holds_no_closing(operators),
        operand_surplus(output) == waiting(operators) + 1,
    ensures
        evaluates_safely(group_closed(operators, output).1),
        holds_no_closing(group_closed(operators, output).0),
        operand_surplus(group_closed(operators, output).1) == waiting(
            group_closed(operators, output).0,
        ) + 1,
    decreases operators.len(),
{
    if operators.len() > 0 {
        let below = operators.drop_last();
        assert forall|i: int| 0 <= i < below.len() implies #[trigger] below[i]
            != Operator::RightParenthesis by {
            assert(below[i] == operators[i]);
        }
        if operators.last() != Operator::LeftParenthesis {
            assert(operators.last() == operators[operators.len() - 1]);
            waiting_is_not_negative(below);
            operator_keeps_safe(output, operators.last());
            group_closed_in_shape(below, output.push(Token::Operator(operators.last())));
        }
    }
}

/// Behind an operand, the operators that yield to a new one leave the
/// output safe to evaluate, with one operand more in it than operators wait.
proof fn yielded_in_shape(operators: Seq<Operator>, output: Seq<Token>, rank: u8)
    requires
        evaluates_safely(output),
        holds_no_closing(operators),
        operand_surplus(output) == waiting(operators) + 1,
        rank >= 1,
    ensures
        evaluates_safely(yielded(operators, output, rank).1),
        holds_no_closing(yielded(operators, output, rank).0),
        operand_surplus(yielded(operators, output, rank).1) == waiting(
            yielded(operators, output, rank).0,
        ) + 1,
    decreases operators.len(),
{
    if operators.len() > 0 && operators.last().rank() >= rank {
        let below = operators.drop_last();
        assert forall|i: int| 0 <= i < below.len() implies #[trigger] below[i]
            != Operator::RightParenthesis by {
            assert(below[i] == operators[i]);
        }
        waiting_is_not_negative(below);
        operator_keeps_safe(output, operators.last());
        yielded_in_shape(below, output.push(Token::Operator(operators.last())), rank);
    }
}

/// Behind an operand, the operators left on the stack complete an
/// expression in postfix order.
proof fn drained_is_postfix(operators: Seq<Operator>, output: Seq<Token>)
    requires
        evaluates_safely(output),
        operand_surplus(output) == waiting(operators) + 1,
    ensures
        is_postfix(drained(operators, output)),
    decreases operators.len(),
{
    if operators.len() > 0 {
        let below = operators.drop_last();
        if operators.last().is_binary() {
            waiting_is_not_negative(below);
            operator_keeps_safe(output, operators.last());
            drained_is_postfix(below, output.push(Token::Operator(operators.last())));
        } else {
            drained_is_postfix(below, output);
        }
    }
}

/// Once the number that is being read has gone to the output, the
/// conversion is still in shape, and no number is being read.
proof fn flushed_in_shape(state: Conversion)
    requires
        in_shape(state),
        !flushed(state).failed,
    ensures
        evaluates_safely(flushed(state).output),
        flushed(state).pending.len() == 0,
        operand_surplus(flushed(state).output) == operands_open(state),
{
    if state.pending.len() > 0 {
        operand_keeps_safe(state.output, parsed_number(state.pending).unwrap());
    }
}

/// Reading one more character keeps the conversion in shape, unless the
/// character is a digit behind `)`.
proof fn char_read_in_shape(state: Conversion, c: char)
    requires
        in_shape(state),
        !state.failed,
        is_digit(c) ==> state.previous != Some(')'),
        !char_read(state, c).failed,
    ensures
        in_shape(char_read(state, c)),
{
    if is_unary_minus(c, state.previous) {
    } else if is_digit(c) {
    } else {
        let ready = flushed(state);
        flushed_in_shape(state);
        let operator = operator_of(c).unwrap();
        let held = Conversion { previous: Some(c), ..ready };
        match operator {
            Operator::LeftParenthesis => {
                let pushed = ready.operators.push(operator);
                assert(pushed.drop_last() == ready.operators);
            },
            Operator::RightParenthesis => {
                group_closed_in_shape(ready.operators, ready.output);
            },
            _ => {
                yielded_in_shape(ready.operators, ready.output, operator.rank());
                let (operators, output) = yielded(ready.operators, ready.output, operator.rank());
                assert(operators.push(operator).drop_last() == operators);
            },
        }
    }
}

/// The last character read that was no sign is the last character of the
/// text whenever either of them ends an operand.
proof fn previous_is_last(text: Seq<char>)
    requires
        text.len() > 0,
        !text_read(conversion_start(), text).failed,
    ensures
        is_digit(text.last()) || text.last() == ')' || after_operand(
            text_read(conversion_start(), text).previous,
        ) ==> text_read(conversion_start(), text).previous == Some(text.last()),
{
    let before = text_read(conversion_start(), text.drop_last());
    assert(text_read(conversion_start(), text) == char_read(before, text.last()));
}

/// The conversion of a text in which no digit follows `)` is in shape after
/// each character, as long as it has not failed.
proof fn text_read_in_shape(text: Seq<char>)
    requires
        forall|i: int| 0 < i < text.len() && is_digit(#[trigger] text[i]) ==> text[i - 1] != ')',
        !text_read(conversion_start(), text).failed,
    ensures
        in_shape(text_read(conversion_start(), text)),
    decreases text.len(),
{
    if text.len() > 0 {
        let shorter = text.drop_last();
        let before = text_read(conversion_start(), shorter);
        assert(text_read(conversion_start(), text) == char_read(before, text.last()));
        assert forall|i: int| 0 < i < shorter.len() && is_digit(#[trigger] shorter[i]) implies shorter[i
            - 1] != ')' by {
            assert(shorter[i] == text[i]);
            assert(shorter[i - 1] == text[i - 1]);
        }
        text_read_in_shape(shorter);
        if shorter.len() > 0 {
            previous_is_last(shorter);
            assert(shorter.last() == text[text.len() - 2]);
            assert(text.last() == text[text.len() - 1]);
        }
        char_read_in_shape(before, text.last());
    }
}

/// The conversion of a valid text, where it succeeds, gives an expression in
/// postfix order.
pub proof fn valid_text_gives_postfix(text: Seq<char>)
    requires
        is_valid_infix(text),
        postfix_of(text) is Some,
    ensures
        is_postfix(postfix_of(text).unwrap()),
{
    let end = text_read(conversion_start(), text);
    assert forall|i: int| 0 < i < text.len() && is_digit(#[trigger] text[i]) implies text[i - 1]
        != ')' by {
        assert(can_follow(text[i - 1], text[i]));
    }
    text_read_in_shape(text);
    previous_is_last(text);
    assert(is_valid_char(text[text.len() - 1]));
    flushed_in_shape(end);
    drained_is_postfix(flushed(end).operators, flushed(end).output);
}

} // verus!

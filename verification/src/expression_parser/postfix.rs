//! What makes a sequence of tokens an expression in postfix order, and the
//! value it has under a given arithmetic.

use super::Operator;
use super::Token;
use vstd::prelude::*;

verus! {

/// How many values are on the value stack once `tokens` have been evaluated:
/// the number of operands minus the number of operators.
pub open spec fn operand_surplus(tokens: Seq<Token>) -> int
    decreases tokens.len(),
{
    if tokens.len() == 0 {
        0
    } else {
        operand_surplus(tokens.drop_last()) + match tokens.last() {
            Token::Operand(_) => 1int,
            Token::Operator(_) => -1int,
        }
    }
}

/// Whether no token of `tokens` is a parenthesis.
pub open spec fn no_parenthesis(tokens: Seq<Token>) -> bool {
    forall|i: int|
        0 <= i < tokens.len() ==> match #[trigger] tokens[i] {
            Token::Operand(_) => true,
            Token::Operator(operator) => operator.is_binary(),
        }
}

/// Whether `tokens` can be evaluated from left to right: there is no
/// parenthesis among them, and each operator finds two values on the stack,
/// so that at least one value is there after each token.
pub open spec fn evaluates_safely(tokens: Seq<Token>) -> bool {
    &&& no_parenthesis(tokens)
    &&& forall|k: int| 0 < k <= tokens.len() ==> operand_surplus(#[trigger] tokens.take(k)) >= 1
}

/// Whether `tokens` are an expression in postfix order: they can be
/// evaluated from left to right and leave exactly one value, so they hold one
/// operand more than operators.
pub open spec fn is_postfix(tokens: Seq<Token>) -> bool {
    evaluates_safely(tokens) && operand_surplus(tokens) == 1
}

/// The value stack once `tokens` have been evaluated from left to right.
/// `number` gives the value of an operand; `combine` gives the value of an
/// operator applied to a left and a right value. An operator takes the value
/// on top of the stack as its right operand and the one below as its left
/// operand. One that finds fewer than two values leaves the stack as it is.
pub open spec fn stack_after<V>(
    tokens: Seq<Token>,
    number: spec_fn(i32) -> V,
    combine: spec_fn(Operator, V, V) -> V,
) -> Seq<V>
    decreases tokens.len(),
{
    if tokens.len() == 0 {
        Seq::empty()
    } else {
        let below = stack_after(tokens.drop_last(), number, combine);
        match tokens.last() {
            Token::Operand(n) => below.push(number(n)),
            Token::Operator(operator) => if below.len() >= 2 {
                below.drop_last().drop_last().push(
                    combine(operator, below[below.len() - 2], below.last()),
                )
            } else {
                below
            },
        }
    }
}

/// The value of an expression in postfix order: what is on top of the value
/// stack at the end.
pub open spec fn postfix_value<V>(
    tokens: Seq<Token>,
    number: spec_fn(i32) -> V,
    combine: spec_fn(Operator, V, V) -> V,
) -> V {
    stack_after(tokens, number, combine).last()
}

/// Tokens that can be evaluated safely still can with an operand behind
/// them.
pub proof fn operand_keeps_safe(tokens: Seq<Token>, n: i32)
    requires
        evaluates_safely(tokens),
    ensures
        evaluates_safely(tokens.push(Token::Operand(n))),
        operand_surplus(tokens.push(Token::Operand(n))) == operand_surplus(tokens) + 1,
{
    let next = tokens.push(Token::Operand(n));
    assert(next.drop_last() == tokens);
    surplus_is_not_negative(tokens);
    assert forall|k: int| 0 < k <= next.len() implies operand_surplus(#[trigger] next.take(k))
        >= 1 by {
        if k < next.len() {
            assert(next.take(k) == tokens.take(k));
        } else {
            assert(next.take(k) == next);
        }
    }
}

/// Tokens that can be evaluated safely and leave two values or more still
/// can with a binary operator behind them.
pub proof fn operator_keeps_safe(tokens: Seq<Token>, operator: Operator)
    requires
        evaluates_safely(tokens),
        operator.is_binary(),
        operand_surplus(tokens) >= 2,
    ensures
        evaluates_safely(tokens.push(Token::Operator(operator))),
        operand_surplus(tokens.push(Token::Operator(operator))) == operand_surplus(tokens) - 1,
{
    let next = tokens.push(Token::Operator(operator));
    assert(next.drop_last() == tokens);
    assert forall|k: int| 0 < k <= next.len() implies operand_surplus(#[trigger] next.take(k))
        >= 1 by {
        if k < next.len() {
            assert(next.take(k) == tokens.take(k));
        } else {
            assert(next.take(k) == next);
        }
    }
}

/// Tokens that can be evaluated safely leave no negative number of values.
pub proof fn surplus_is_not_negative(tokens: Seq<Token>)
    requires
        evaluates_safely(tokens),
    ensures
        operand_surplus(tokens) >= 0,
{
    if tokens.len() > 0 {
        assert(tokens.take(tokens.len() as int) == tokens);
    }
}

/// Where tokens can be evaluated safely, the value stack holds as many values
/// as the operands exceed the operators.
pub proof fn stack_height_is_surplus<V>(
    tokens: Seq<Token>,
    number: spec_fn(i32) -> V,
    combine: spec_fn(Operator, V, V) -> V,
)
    requires
        evaluates_safely(tokens),
    ensures
        stack_after(tokens, number, combine).len() == operand_surplus(tokens),
    decreases tokens.len(),
{
    if tokens.len() > 0 {
        let before = tokens.drop_last();
        assert forall|k: int| 0 < k <= before.len() implies operand_surplus(
            #[trigger] before.take(k),
        ) >= 1 by {
            assert(before.take(k) == tokens.take(k));
        }
        assert forall|i: int| 0 <= i < before.len() implies match #[trigger] before[i] {
            Token::Operand(_) => true,
            Token::Operator(operator) => operator.is_binary(),
        } by {
            assert(before[i] == tokens[i]);
        }
        stack_height_is_surplus(before, number, combine);
        assert(tokens.take(tokens.len() as int) == tokens);
    }
}

/// Evaluating an expression in postfix order leaves exactly one value.
pub proof fn postfix_leaves_one_value<V>(
    tokens: Seq<Token>,
    number: spec_fn(i32) -> V,
    combine: spec_fn(Operator, V, V) -> V,
)
    requires
        is_postfix(tokens),
    ensures
        stack_after(tokens, number, combine).len() == 1,
{
    stack_height_is_surplus(tokens, number, combine);
}

} // verus!

//! The postfix form of an expression: how it is built from infix text by the
//! shunting-yard algorithm, and how it is evaluated.

use super::check_operator_char_order;
use super::is_ascii_digit;
use super::is_digit;
use super::is_minus_unary_operator;
use super::is_unary_minus;
use super::number_from_chars;
use super::operator_in_order;
use super::operator_of;
use super::Operator;
use super::parsed_number;
use super::ParsingError;
use super::postfix::is_postfix;
use super::postfix::operand_surplus;
use super::postfix::postfix_value;
use super::postfix::stack_after;
use super::reading::expression_of;
use super::reading::valid_text_converts;
use super::shape::valid_text_gives_postfix;
use super::strip_whitespace;
use super::Token;
use super::validate_infix_notation;
use super::validation;
use super::without_whitespace;
use vstd::prelude::*;

verus! {

/// An expression in postfix order.
#[derive(Debug)]
pub struct ReversePolishNotation {
    tokens: Vec<Token>,
}

impl View for ReversePolishNotation {
    type V = Seq<Token>;

    /// The tokens of the expression in postfix order.
    closed spec fn view(&self) -> Seq<Token> {
        self.tokens@
    }
}

/// What building an expression from `input` gives. Whitespace is taken out
/// first. A text that fails a rule of validation gives that rule's error, and
/// a valid text with a number that is no `i32` is invalid input. Any other
/// gives the postfix order of the expression that it writes.
pub open spec fn built(input: Seq<char>) -> Result<Seq<Token>, ParsingError> {
    let text = without_whitespace(input);
    match validation(text) {
        Err(e) => Err(e),
        Ok(_) => if expression_of(text).fits(false) {
            Ok(expression_of(text).postfix(false))
        } else {
            Err(ParsingError::InvalidInput)
        },
    }
}

/// Whether the functions `operand` and `apply` compute what `number` and
/// `combine` say: `operand` the value of an integer, `apply` the value of one
/// of `+ - * /` on a left and a right value.
pub open spec fn computes<V, L: Fn(i32) -> V, A: Fn(Operator, V, V) -> V>(
    operand: L,
    apply: A,
    number: spec_fn(i32) -> V,
    combine: spec_fn(Operator, V, V) -> V,
) -> bool {
    &&& forall|n: i32, v: V| #[trigger] call_ensures(operand, (n,), v) ==> v == number(n)
    &&& forall|operator: Operator, lhs: V, rhs: V, v: V|
        operator.is_binary() && #[trigger] call_ensures(apply, (operator, lhs, rhs), v) ==> v
            == combine(operator, lhs, rhs)
}

/// Whether `stack` can be the value stack once `tokens` have been evaluated
/// from left to right with the functions `operand` and `apply`: each operand
/// puts on the stack a value that `operand` can return for it, and each
/// operator replaces the two values on top by a value that `apply` can
/// return for the operator, the lower of the two as the left and the upper as
/// the right value.
pub open spec fn can_leave<V, L: Fn(i32) -> V, A: Fn(Operator, V, V) -> V>(
    tokens: Seq<Token>,
    operand: L,
    apply: A,
    stack: Seq<V>,
) -> bool
    decreases tokens.len(),
{
    if tokens.len() == 0 {
        stack.len() == 0
    } else {
        stack.len() > 0 && match tokens.last() {
            Token::Operand(n) => call_ensures(operand, (n,), stack.last()) && can_leave(
                tokens.drop_last(),
                operand,
                apply,
                stack.drop_last(),
            ),
            Token::Operator(operator) => exists|lhs: V, rhs: V|
                #[trigger] call_ensures(apply, (operator, lhs, rhs), stack.last()) && can_leave(
                    tokens.drop_last(),
                    operand,
                    apply,
                    stack.drop_last().push(lhs).push(rhs),
                ),
        }
    }
}

impl ReversePolishNotation {
    /// An expression holds tokens in postfix order that evaluate to one
    /// value.
    #[verifier::type_invariant]
    spec fn holds_an_expression(&self) -> bool {
        is_postfix(self.tokens@)
    }

    /// Evaluates the expression with the arithmetic of the caller: `operand`
    /// gives the value of an integer, `apply` the value of an operator on a
    /// left and a right value. `apply` is called for `+ - * /` only. Division
    /// by zero is whatever `apply` makes of it.
    pub fn calculate_with<V, L: Fn(i32) -> V, A: Fn(Operator, V, V) -> V>(
        &self,
        operand: L,
        apply: A,
    ) -> (r: V)
        requires
            forall|n: i32| call_requires(operand, (n,)),
            forall|operator: Operator, lhs: V, rhs: V|
                operator.is_binary() ==> call_requires(apply, (operator, lhs, rhs)),
        ensures
            can_leave(self@, operand, apply, seq![r]),
            forall|number: spec_fn(i32) -> V, combine: spec_fn(Operator, V, V) -> V|
                #[trigger] computes(operand, apply, number, combine) ==> r == postfix_value(
                    self@,
                    number,
                    combine,
                ),
    {
        proof {
            use_type_invariant(self);
        }
        let mut value_stack: Vec<V> = Vec::new();
        let mut i: usize = 0;
        while i < self.tokens.len()
            invariant
                i <= self.tokens.len(),
                is_postfix(self.tokens@),
                forall|n: i32| call_requires(operand, (n,)),
                forall|operator: Operator, lhs: V, rhs: V|
                    operator.is_binary() ==> call_requires(apply, (operator, lhs, rhs)),
                value_stack@.len() == operand_surplus(self.tokens@.take(i as int)),
                can_leave(self.tokens@.take(i as int), operand, apply, value_stack@),
                forall|number: spec_fn(i32) -> V, combine: spec_fn(Operator, V, V) -> V|
                    #[trigger] computes(operand, apply, number, combine) ==> value_stack@
                        == stack_after(self.tokens@.take(i as int), number, combine),
            decreases self.tokens.len() - i,
        {
            let ghost below = value_stack@;
            proof {
                assert(self.tokens@.take(i + 1).drop_last() == self.tokens@.take(i as int));
                assert(self.tokens@.take(i + 1).last() == self.tokens@[i as int]);
                assert(operand_surplus(self.tokens@.take(i + 1)) >= 1);
            }
            match self.tokens[i] {
                Token::Operand(value) => {
                    let v = operand(value);
                    value_stack.push(v);
                    assert(value_stack@.drop_last() == below);
                    assert(call_ensures(operand, (value,), value_stack@.last()));
                },
                Token::Operator(operator) => {
                    let value_1 = value_stack.pop().unwrap();
                    let value_2 = value_stack.pop().unwrap();
                    let v = apply(operator, value_2, value_1);
                    value_stack.push(v);
                    assert(value_stack@ == below.drop_last().drop_last().push(v));
                    assert(value_stack@.drop_last().push(value_2).push(value_1) == below);
                    assert(call_ensures(apply, (operator, value_2, value_1), value_stack@.last()));
                },
            }
            i += 1;
        }
        proof {
            assert(self.tokens@.take(i as int) == self.tokens@);
        }
        let ghost left = value_stack@;
        let r = value_stack.pop().unwrap();
        assert(left == seq![r]);
        r
    }

    /// The tokens of the expression in postfix order.
    pub fn tokens(&self) -> (r: &Vec<Token>)
        ensures
            r@ == self@,
            is_postfix(self@),
    {
        proof {
            use_type_invariant(self);
        }
        &self.tokens
    }
}

impl TryFrom<String> for ReversePolishNotation {
    type Error = ParsingError;

    /// Builds the postfix form of the infix expression `input`.
    fn try_from(input: String) -> (r: Result<Self, ParsingError>)
        ensures
            match built(input@) {
                Ok(tokens) => r matches Ok(expression) && expression@ == tokens && is_postfix(
                    tokens,
                ),
                Err(e) => r matches Err(error) && error == e,
            },
    {
        let text = strip_whitespace(input.as_str());
        match validate_infix_notation(text.as_slice()) {
            Err(e) => {
                return Err(e);
            },
            Ok(()) => {},
        }
        proof {
            valid_text_converts(text@);
        }
        match shunting_yard(text.as_slice()) {
            Err(e) => Err(e),
            Ok(tokens) => {
                proof {
                    valid_text_gives_postfix(text@);
                }
                Ok(ReversePolishNotation { tokens })
            },
        }
    }
}

/// What `try_from` returns is fixed by its tokens, as the contract of
/// `try_from` says; as a value it is some expression with these tokens.
impl vstd::std_specs::convert::TryFromSpecImpl<String> for ReversePolishNotation {
    open spec fn obeys_try_from_spec() -> bool {
        false
    }

    open spec fn try_from_spec(input: String) -> Result<Self, ParsingError> {
        match built(input@) {
            Ok(tokens) => Ok(choose|expression: ReversePolishNotation| expression@ == tokens),
            Err(e) => Err(e),
        }
    }
}

/// What the conversion holds after it has read some characters of a text.
pub struct Conversion {
    /// The characters of the number that is being read.
    pub pending: Seq<char>,
    /// Whether the next number is to be negated.
    pub negate: bool,
    /// The last character read that was no sign.
    pub previous: Option<char>,
    /// The operators that wait for their right operand; the last is on top.
    pub operators: Seq<Operator>,
    /// The tokens in postfix order so far.
    pub output: Seq<Token>,
    /// Whether a character was refused.
    pub failed: bool,
}

/// The conversion before any character is read.
pub open spec fn conversion_start() -> Conversion {
    Conversion {
        pending: Seq::empty(),
        negate: false,
        previous: None,
        operators: Seq::empty(),
        output: Seq::empty(),
        failed: false,
    }
}

/// `state` once the number that is being read, if any, has gone to the
/// output. A number that cannot be read fails the conversion.
pub open spec fn flushed(state: Conversion) -> Conversion {
    if state.failed || state.pending.len() == 0 {
        state
    } else {
        match parsed_number(state.pending) {
            Ok(n) => Conversion {
                pending: Seq::empty(),
                output: state.output.push(Token::Operand(n)),
                ..state
            },
            Err(_) => Conversion { failed: true, ..state },
        }
    }
}

/// The stack and the output once a `)` has moved the operators above the
/// last `(` to the output, from the top down, and removed that `(`.
pub open spec fn group_closed(operators: Seq<Operator>, output: Seq<Token>) -> (Seq<Operator>, Seq<
    Token,
>)
    decreases operators.len(),
{
    if operators.len() == 0 {
        (operators, output)
    } else if operators.last() == Operator::LeftParenthesis {
        (operators.drop_last(), output)
    } else {
        group_closed(operators.drop_last(), output.push(Token::Operator(operators.last())))
    }
}

/// The stack and the output once the operators on top that bind at least as
/// tightly as `rank` have moved to the output, from the top down.
pub open spec fn yielded(operators: Seq<Operator>, output: Seq<Token>, rank: u8) -> (Seq<Operator>, Seq<
    Token,
>)
    decreases operators.len(),
{
    if operators.len() == 0 || operators.last().rank() < rank {
        (operators, output)
    } else {
        yielded(operators.drop_last(), output.push(Token::Operator(operators.last())), rank)
    }
}

/// The output once every operator left on the stack has moved to it, from the
/// top down. A parenthesis is dropped.
pub open spec fn drained(operators: Seq<Operator>, output: Seq<Token>) -> Seq<Token>
    decreases operators.len(),
{
    if operators.len() == 0 {
        output
    } else if operators.last().is_binary() {
        drained(operators.drop_last(), output.push(Token::Operator(operators.last())))
    } else {
        drained(operators.drop_last(), output)
    }
}

/// `state` once the operator or parenthesis `operator` has been read.
pub open spec fn operator_read(state: Conversion, operator: Operator) -> Conversion {
    match operator {
        Operator::LeftParenthesis => Conversion {
            operators: state.operators.push(operator),
            ..state
        },
        Operator::RightParenthesis => {
            let (operators, output) = group_closed(state.operators, state.output);
            Conversion { operators, output, ..state }
        },
        _ => {
            let (operators, output) = yielded(state.operators, state.output, operator.rank());
            Conversion { operators: operators.push(operator), output, ..state }
        },
    }
}

/// `state`, in which no number is being read, once the character `c` has
/// been read, which is no digit and no sign. It must be an operator or
/// parenthesis that is in order behind the character before it.
pub open spec fn operator_char_read(state: Conversion, c: char) -> Conversion {
    if state.failed || !operator_in_order(c, state.previous) || operator_of(c) is None {
        Conversion { failed: true, ..state }
    } else {
        operator_read(Conversion { previous: Some(c), ..state }, operator_of(c).unwrap())
    }
}

/// `state` once the character `c` has been read. A sign only marks the next
/// number as negative. A digit joins the number that is being read. Any other
/// character ends that number first.
pub open spec fn char_read(state: Conversion, c: char) -> Conversion {
    if state.failed {
        state
    } else if is_unary_minus(c, state.previous) {
        Conversion { negate: true, ..state }
    } else if is_digit(c) {
        Conversion {
            pending: if state.negate {
                state.pending.push('-').push(c)
            } else {
                state.pending.push(c)
            },
            negate: false,
            previous: Some(c),
            ..state
        }
    } else {
        operator_char_read(flushed(state), c)
    }
}

/// `state` once the characters of `text` have been read in order.
pub open spec fn text_read(state: Conversion, text: Seq<char>) -> Conversion
    decreases text.len(),
{
    if text.len() == 0 {
        state
    } else {
        char_read(text_read(state, text.drop_last()), text.last())
    }
}

/// The tokens of `text` in postfix order, or `None` where the conversion
/// refuses a character or a number of `text`.
pub open spec fn postfix_of(text: Seq<char>) -> Option<Seq<Token>> {
    let end = flushed(text_read(conversion_start(), text));
    if end.failed {
        None
    } else {
        Some(drained(end.operators, end.output))
    }
}

/// A conversion that has failed stays failed.
pub proof fn failure_stays(state: Conversion, text: Seq<char>)
    requires
        state.failed,
    ensures
        text_read(state, text).failed,
    decreases text.len(),
{
    if text.len() > 0 {
        failure_stays(state, text.drop_last());
    }
}

/// Reading a text in two parts is reading it whole.
pub proof fn text_read_in_parts(state: Conversion, first: Seq<char>, second: Seq<char>)
    ensures
        text_read(state, first + second) == text_read(text_read(state, first), second),
    decreases second.len(),
{
    if second.len() == 0 {
        assert(first + second == first);
    } else {
        text_read_in_parts(state, first, second.drop_last());
        assert((first + second).drop_last() == first + second.drop_last());
    }
}

/// Moves the number that is being read, if any, to the output.
pub fn push_number_to_rpn_container(
    rpn_container: &mut Vec<Token>,
    parsing_number: &mut Vec<char>,
) -> (r: Result<(), ParsingError>)
    ensures
        old(parsing_number)@.len() == 0 ==> r is Ok && final(rpn_container)@ == old(
            rpn_container,
        )@ && final(parsing_number)@ == old(parsing_number)@,
        old(parsing_number)@.len() > 0 ==> match parsed_number(old(parsing_number)@) {
            Ok(n) => r is Ok && final(rpn_container)@ == old(rpn_container)@.push(
                Token::Operand(n),
            ) && final(parsing_number)@ == Seq::<char>::empty(),
            Err(e) => r == Err::<(), ParsingError>(e) && final(rpn_container)@ == old(
                rpn_container,
            )@ && final(parsing_number)@ == old(parsing_number)@,
        },
{
    if parsing_number.len() == 0 {
        return Ok(());
    }
    match number_from_chars(parsing_number.as_slice()) {
        Ok(n) => {
            rpn_container.push(Token::from(n));
        },
        Err(e) => {
            return Err(e);
        },
    }
    parsing_number.clear();
    Ok(())
}

/// Handles a `)`: moves the operators above the last `(` to the output and
/// removes that `(`.
fn close_group(operator_stack: &mut Vec<Operator>, rpn_container: &mut Vec<Token>)
    ensures
        (final(operator_stack)@, final(rpn_container)@) == group_closed(
            old(operator_stack)@,
            old(rpn_container)@,
        ),
{
    loop
        invariant_except_break
            group_closed(operator_stack@, rpn_container@) == group_closed(
                old(operator_stack)@,
                old(rpn_container)@,
            ),
        ensures
            (operator_stack@, rpn_container@) == group_closed(
                old(operator_stack)@,
                old(rpn_container)@,
            ),
        decreases operator_stack.len(),
    {
        match operator_stack.pop() {
            Some(last_stack_operator) => {
                if last_stack_operator == Operator::LeftParenthesis {
                    break ;
                }
                rpn_container.push(Token::from(last_stack_operator));
            },
            None => {
                break ;
            },
        }
    }
}

/// Handles one of `+ - * /`: moves the operators on top that bind at least
/// as tightly to the output, then puts the new one on the stack.
fn push_operator(
    operator_stack: &mut Vec<Operator>,
    rpn_container: &mut Vec<Token>,
    current_operator: Operator,
)
    ensures
        final(operator_stack)@ == yielded(
            old(operator_stack)@,
            old(rpn_container)@,
            current_operator.rank(),
        ).0.push(current_operator),
        final(rpn_container)@ == yielded(
            old(operator_stack)@,
            old(rpn_container)@,
            current_operator.rank(),
        ).1,
{
    loop
        invariant
            yielded(operator_stack@, rpn_container@, current_operator.rank()) == yielded(
                old(operator_stack)@,
                old(rpn_container)@,
                current_operator.rank(),
            ),
        ensures
            (operator_stack@, rpn_container@) == yielded(
                old(operator_stack)@,
                old(rpn_container)@,
                current_operator.rank(),
            ),
        decreases operator_stack.len(),
    {
        let n = operator_stack.len();
        if n == 0 {
            break ;
        }
        let previous_operator_on_top = operator_stack[n - 1];
        if current_operator.precedence() > previous_operator_on_top.precedence() {
            break ;
        }
        operator_stack.pop();
        rpn_container.push(Token::from(previous_operator_on_top));
    }
    operator_stack.push(current_operator);
}

/// Moves the operators left on the stack to the output.
fn drain(operator_stack: &mut Vec<Operator>, rpn_container: &mut Vec<Token>)
    ensures
        final(rpn_container)@ == drained(old(operator_stack)@, old(rpn_container)@),
{
    loop
        invariant
            drained(operator_stack@, rpn_container@) == drained(
                old(operator_stack)@,
                old(rpn_container)@,
            ),
        ensures
            rpn_container@ == drained(old(operator_stack)@, old(rpn_container)@),
        decreases operator_stack.len(),
    {
        match operator_stack.pop() {
            Some(last_stack_operator) => {
                if last_stack_operator != Operator::LeftParenthesis && last_stack_operator
                    != Operator::RightParenthesis {
                    rpn_container.push(Token::from(last_stack_operator));
                }
            },
            None => {
                break ;
            },
        }
    }
}

/// Converts a text without whitespace to postfix order.
pub fn shunting_yard(text: &[char]) -> (r: Result<Vec<Token>, ParsingError>)
    ensures
        match postfix_of(text@) {
            Some(tokens) => r matches Ok(container) && container@ == tokens,
            None => r matches Err(error) && error == ParsingError::InvalidInput,
        },
{
    let mut parsing_number: Vec<char> = Vec::new();
    let mut previous_char: Option<char> = None;
    let mut operator_stack: Vec<Operator> = Vec::new();
    let mut rpn_container: Vec<Token> = Vec::new();
    let mut is_next_expression_negative = false;
    let mut i: usize = 0;
    while i < text.len()
        invariant
            i <= text.len(),
            text_read(conversion_start(), text@.take(i as int)) == (Conversion {
                pending: parsing_number@,
                negate: is_next_expression_negative,
                previous: previous_char,
                operators: operator_stack@,
                output: rpn_container@,
                failed: false,
            }),
        decreases text.len() - i,
    {
        let current_char = text[i];
        let ghost before = text_read(conversion_start(), text@.take(i as int));
        proof {
            assert(text@.take(i + 1).drop_last() == text@.take(i as int));
            assert(text@.take(i + 1).last() == current_char);
            assert(text@ == text@.take(i + 1) + text@.skip(i + 1));
            text_read_in_parts(conversion_start(), text@.take(i + 1), text@.skip(i + 1));
            if char_read(before, current_char).failed {
                failure_stays(char_read(before, current_char), text@.skip(i + 1));
            }
        }
        i += 1;
        if is_minus_unary_operator(current_char, &previous_char) {
            is_next_expression_negative = true;
            continue ;
        }
        if is_ascii_digit(current_char) {
            if is_next_expression_negative {
                parsing_number.push('-');
                is_next_expression_negative = false;
            }
            parsing_number.push(current_char);
            previous_char = Some(current_char);
            continue ;
        }
        match push_number_to_rpn_container(&mut rpn_container, &mut parsing_number) {
            Err(e) => {
                return Err(e);
            },
            Ok(()) => {},
        }
        match check_operator_char_order(current_char, previous_char) {
            Err(e) => {
                return Err(e);
            },
            Ok(()) => {},
        }
        previous_char = Some(current_char);
        let current_operator = match Operator::try_from(current_char) {
            Err(e) => {
                return Err(e);
            },
            Ok(operator) => operator,
        };
        if current_operator == Operator::LeftParenthesis {
            operator_stack.push(current_operator);
        } else if current_operator == Operator::RightParenthesis {
            close_group(&mut operator_stack, &mut rpn_container);
        } else {
            push_operator(&mut operator_stack, &mut rpn_container, current_operator);
        }
        assert(char_read(before, current_char).operators == operator_stack@);
        assert(char_read(before, current_char).output == rpn_container@);
    }
    proof {
        assert(text@.take(i as int) == text@);
    }
    match push_number_to_rpn_container(&mut rpn_container, &mut parsing_number) {
        Err(e) => {
            return Err(e);
        },
        Ok(()) => {},
    }
    drain(&mut operator_stack, &mut rpn_container);
    Ok(rpn_container)
}

} // verus!

use infix_calc::expression_parser::Operator;
use infix_calc::expression_parser::ParsingError;
use infix_calc::expression_parser::ReversePolishNotation;
use infix_calc::expression_parser::Token;

fn calculate(expression: &ReversePolishNotation) -> f32 {
    expression.calculate_with(
        |value| value as f32,
        |operator, lhs, rhs| match operator {
            Operator::Add => lhs + rhs,
            Operator::Substract => lhs - rhs,
            Operator::Multiply => lhs * rhs,
            Operator::Divide => lhs / rhs,
            _ => unreachable!(),
        },
    )
}

fn tokens_of(text: &str) -> Vec<Token> {
    ReversePolishNotation::try_from(String::from(text))
        .unwrap()
        .tokens()
        .clone()
}

fn error_of(text: &str) -> ParsingError {
    ReversePolishNotation::try_from(String::from(text)).unwrap_err()
}

#[test]
fn test_invalid_expression_with_invalid_symbol() {
    let invalid_expression = String::from("{2+3}");
    assert!(ReversePolishNotation::try_from(invalid_expression)
        .is_err_and(|e| e == ParsingError::InvalidInput,),);
}

#[test]
fn test_invalid_expression_with_invalid_token_order() {
    let invalid_expression = String::from("+(-3+2)");
    assert!(ReversePolishNotation::try_from(invalid_expression)
        .is_err_and(|e| e == ParsingError::InvalidInput,),);
}

#[test]
fn test_invalid_expression_with_just_operator() {
    let invalid_expression = String::from("-");
    assert!(ReversePolishNotation::try_from(invalid_expression)
        .is_err_and(|e| e == ParsingError::InvalidInput,),);
}

#[test]
fn test_invalid_expression_with_operator_at_end() {
    let invalid_expression = String::from("1+1+(");
    assert!(ReversePolishNotation::try_from(invalid_expression)
        .is_err_and(|e| e == ParsingError::InvalidInput,),);
}

#[test]
fn test_invalid_expression_with_operator_at_the_beginning() {
    let invalid_expression = String::from("+3+7");
    assert!(ReversePolishNotation::try_from(invalid_expression)
        .is_err_and(|e| e == ParsingError::InvalidInput,),);
}

#[test]
fn test_invalid_expression_with_consecutive_operators() {
    let invalid_expression = String::from("1++4");
    assert!(ReversePolishNotation::try_from(invalid_expression)
        .is_err_and(|e| e == ParsingError::InvalidInput,),);
}

#[test]
fn test_invalid_expression_with_consecutive_operators_with_opening_parenthesis() {
    let invalid_expression = String::from("1+(+1+1)");
    assert!(ReversePolishNotation::try_from(invalid_expression)
        .is_err_and(|e| e == ParsingError::InvalidInput,),);
}

#[test]
fn test_valid_expression() -> Result<(), ParsingError> {
    let valid_expression = String::from("-3+5/5*(10-3/3)-6");
    assert_eq!(
        calculate(&ReversePolishNotation::try_from(valid_expression)?),
        0 as f32
    );

    Ok(())
}

#[test]
fn test_valid_expression_with_multiple_parentheses() -> Result<(), ParsingError> {
    let valid_expression = String::from("((-3+5/5*(((10-3/3)))-6))");
    assert_eq!(
        calculate(&ReversePolishNotation::try_from(valid_expression)?),
        0 as f32
    );

    Ok(())
}

#[test]
fn test_valid_expression_with_multiple_white_space() -> Result<(), ParsingError> {
    let valid_expression = String::from("-3     +    501/501*(    ((10-3/3)))   -6");
    assert_eq!(
        calculate(&ReversePolishNotation::try_from(valid_expression)?),
        0 as f32
    );

    Ok(())
}

#[test]
fn test_valid_expression_with_value_in_parentheses() -> Result<(), ParsingError> {
    let valid_expression = String::from("-3     +    5/(5)*(    ((10-3/3)))   -(6)");
    assert_eq!(
        calculate(&ReversePolishNotation::try_from(valid_expression)?),
        0 as f32
    );

    Ok(())
}

#[test]
fn test_valid_expression_with_just_a_number() -> Result<(), ParsingError> {
    let valid_expression = String::from("(((-1000)))");
    assert_eq!(
        calculate(&ReversePolishNotation::try_from(valid_expression)?),
        -1000.0
    );

    Ok(())
}

#[test]
fn postfix_order_of_a_sum_and_a_product() {
    assert_eq!(
        tokens_of("1+2*3"),
        vec![
            Token::Operand(1),
            Token::Operand(2),
            Token::Operand(3),
            Token::Operator(Operator::Multiply),
            Token::Operator(Operator::Add),
        ]
    );
    assert_eq!(
        tokens_of("1*2+3"),
        vec![
            Token::Operand(1),
            Token::Operand(2),
            Token::Operator(Operator::Multiply),
            Token::Operand(3),
            Token::Operator(Operator::Add),
        ]
    );
}

#[test]
fn equal_precedence_is_evaluated_from_the_left() {
    assert_eq!(
        tokens_of("10-4-3"),
        vec![
            Token::Operand(10),
            Token::Operand(4),
            Token::Operator(Operator::Substract),
            Token::Operand(3),
            Token::Operator(Operator::Substract),
        ]
    );
    let difference = ReversePolishNotation::try_from(String::from("10-4-3")).unwrap();
    assert_eq!(calculate(&difference), 3.0);
    let quotient = ReversePolishNotation::try_from(String::from("24/4/3")).unwrap();
    assert_eq!(calculate(&quotient), 2.0);
    let mixed = ReversePolishNotation::try_from(String::from("24/4*3")).unwrap();
    assert_eq!(calculate(&mixed), 18.0);
}

#[test]
fn parentheses_override_precedence() {
    assert_eq!(
        tokens_of("(1+2)*3"),
        vec![
            Token::Operand(1),
            Token::Operand(2),
            Token::Operator(Operator::Add),
            Token::Operand(3),
            Token::Operator(Operator::Multiply),
        ]
    );
    let product = ReversePolishNotation::try_from(String::from("(1+2)*3")).unwrap();
    assert_eq!(calculate(&product), 9.0);
    let nested = ReversePolishNotation::try_from(String::from("2*(3+4*(5-1))")).unwrap();
    assert_eq!(calculate(&nested), 38.0);
}

#[test]
fn division_is_not_rounded() {
    let quotient = ReversePolishNotation::try_from(String::from("7/2")).unwrap();
    assert_eq!(calculate(&quotient), 3.5);
}

#[test]
fn division_by_zero_is_left_to_the_arithmetic() {
    let quotient = ReversePolishNotation::try_from(String::from("10/0")).unwrap();
    assert_eq!(calculate(&quotient), f32::INFINITY);
    let undefined = ReversePolishNotation::try_from(String::from("0/0")).unwrap();
    assert!(calculate(&undefined).is_nan());
}

#[test]
fn a_sign_negates_the_number_behind_it() {
    assert_eq!(tokens_of("-12"), vec![Token::Operand(-12)]);
    assert_eq!(
        tokens_of("3*-5"),
        vec![
            Token::Operand(3),
            Token::Operand(-5),
            Token::Operator(Operator::Multiply),
        ]
    );
    assert_eq!(
        tokens_of("3--5"),
        vec![
            Token::Operand(3),
            Token::Operand(-5),
            Token::Operator(Operator::Substract),
        ]
    );
    let difference = ReversePolishNotation::try_from(String::from("3--5")).unwrap();
    assert_eq!(calculate(&difference), 8.0);
}

#[test]
fn a_sign_before_a_parenthesis_negates_the_next_number() {
    assert_eq!(
        tokens_of("-(3+4)"),
        vec![
            Token::Operand(-3),
            Token::Operand(4),
            Token::Operator(Operator::Add),
        ]
    );
    assert_eq!(tokens_of("--3"), vec![Token::Operand(-3)]);
}

#[test]
fn whitespace_does_not_change_the_postfix_form() {
    let dense = tokens_of("12+3*(4-1)");
    assert_eq!(tokens_of(" 12 + 3 * ( 4 - 1 ) "), dense);
    assert_eq!(tokens_of("\t12+3\n*(4\u{a0}-\u{3000}1)\r\n"), dense);
    assert_eq!(tokens_of("1 2+3*(4-1)"), dense);
}

#[test]
fn whitespace_alone_is_invalid_input() {
    assert_eq!(error_of(""), ParsingError::InvalidInput);
    assert_eq!(error_of(" "), ParsingError::InvalidInput);
    assert_eq!(error_of(" \t\n\r\u{2003} "), ParsingError::InvalidInput);
}

#[test]
fn unmatched_parentheses_are_reported() {
    assert_eq!(error_of("(1+2"), ParsingError::ParenthesesNotMatching);
    assert_eq!(error_of("1+2)"), ParsingError::ParenthesesNotMatching);
    assert_eq!(error_of("1)+(2"), ParsingError::ParenthesesNotMatching);
    assert_eq!(error_of("((1+2)"), ParsingError::ParenthesesNotMatching);
    assert_eq!(error_of("(1+2))"), ParsingError::ParenthesesNotMatching);
}

#[test]
fn earlier_rules_win_over_the_parentheses() {
    assert_eq!(error_of("(1+2)("), ParsingError::InvalidInput);
    assert_eq!(error_of(")1+2("), ParsingError::InvalidInput);
    assert_eq!(error_of("("), ParsingError::InvalidInput);
    assert_eq!(error_of(")"), ParsingError::InvalidInput);
}

#[test]
fn parentheses_are_checked_before_single_characters() {
    assert_eq!(error_of("(1+a"), ParsingError::ParenthesesNotMatching);
    assert_eq!(error_of("(1++2"), ParsingError::ParenthesesNotMatching);
}

#[test]
fn a_trailing_operator_is_invalid_input() {
    assert_eq!(error_of("1+"), ParsingError::InvalidInput);
    assert_eq!(error_of("1-"), ParsingError::InvalidInput);
    assert_eq!(error_of("1*"), ParsingError::InvalidInput);
    assert_eq!(error_of("1/"), ParsingError::InvalidInput);
    assert_eq!(error_of("1+ "), ParsingError::InvalidInput);
    assert_eq!(error_of("(1+2)*("), ParsingError::InvalidInput);
}

#[test]
fn a_single_digit_is_refused() {
    assert_eq!(error_of("5"), ParsingError::InvalidInput);
    assert_eq!(error_of(" 5 "), ParsingError::InvalidInput);
    assert_eq!(tokens_of("55"), vec![Token::Operand(55)]);
    assert_eq!(tokens_of("(5)"), vec![Token::Operand(5)]);
    assert_eq!(tokens_of("-5"), vec![Token::Operand(-5)]);
}

#[test]
fn misplaced_characters_are_invalid_input() {
    assert_eq!(error_of("(1)2"), ParsingError::InvalidInput);
    assert_eq!(error_of("(1)(2)"), ParsingError::InvalidInput);
    assert_eq!(error_of("1(2)"), ParsingError::InvalidInput);
    assert_eq!(error_of("(*2)"), ParsingError::InvalidInput);
    assert_eq!(error_of("(1+)"), ParsingError::InvalidInput);
    assert_eq!(error_of("1-+2"), ParsingError::InvalidInput);
    assert_eq!(error_of("()+1"), ParsingError::InvalidInput);
    assert_eq!(error_of("1.5+2"), ParsingError::InvalidInput);
    assert_eq!(error_of("1+x"), ParsingError::InvalidInput);
}

#[test]
fn a_number_that_is_too_large_is_invalid_input() {
    assert_eq!(tokens_of("2147483647+0")[0], Token::Operand(2147483647));
    assert_eq!(tokens_of("-2147483647+0")[0], Token::Operand(-2147483647));
    assert_eq!(error_of("2147483648+0"), ParsingError::InvalidInput);
    assert_eq!(error_of("-2147483649+0"), ParsingError::InvalidInput);
    assert_eq!(error_of("0-2147483648"), ParsingError::InvalidInput);
    assert_eq!(error_of("(2147483648)"), ParsingError::InvalidInput);
    assert_eq!(error_of("1+99999999999999999999"), ParsingError::InvalidInput);
    assert_eq!(tokens_of("0000000000000000000012"), vec![Token::Operand(12)]);
}

#[test]
fn the_smallest_number_can_be_written() {
    assert_eq!(
        tokens_of("-2147483648+0"),
        vec![
            Token::Operand(i32::MIN),
            Token::Operand(0),
            Token::Operator(Operator::Add),
        ]
    );
    assert_eq!(tokens_of("-2147483648"), vec![Token::Operand(i32::MIN)]);
    assert_eq!(tokens_of("(-2147483648)"), vec![Token::Operand(i32::MIN)]);
    assert_eq!(tokens_of("-(2147483648)"), vec![Token::Operand(i32::MIN)]);
    assert_eq!(
        tokens_of("0--2147483648"),
        vec![
            Token::Operand(0),
            Token::Operand(i32::MIN),
            Token::Operator(Operator::Substract),
        ]
    );
    let smallest = ReversePolishNotation::try_from(String::from("-2147483648")).unwrap();
    assert_eq!(calculate(&smallest), -2147483648.0);
}

#[test]
fn the_postfix_form_has_one_operand_more_than_operators() {
    let tokens = tokens_of("-3+5/5*(10-3/3)-6");
    let operands = tokens.iter().filter(|t| matches!(t, Token::Operand(_))).count();
    let operators = tokens.iter().filter(|t| matches!(t, Token::Operator(_))).count();
    assert_eq!(operands, 7);
    assert_eq!(operators, 6);
    assert!(tokens.iter().all(|t| !matches!(
        t,
        Token::Operator(Operator::LeftParenthesis) | Token::Operator(Operator::RightParenthesis)
    )));
}

#[test]
fn the_arithmetic_of_the_caller_is_used() {
    let expression = ReversePolishNotation::try_from(String::from("7/2-1")).unwrap();
    let whole = expression.calculate_with(
        |value| value as i64,
        |operator, lhs, rhs| match operator {
            Operator::Add => lhs + rhs,
            Operator::Substract => lhs - rhs,
            Operator::Multiply => lhs * rhs,
            Operator::Divide => lhs / rhs,
            _ => unreachable!(),
        },
    );
    assert_eq!(whole, 2);
    let written = expression.calculate_with(
        |value| format!("{}", value),
        |operator, lhs, rhs| format!("({} {:?} {})", lhs, operator, rhs),
    );
    assert_eq!(written, "((7 Divide 2) Substract 1)");
}

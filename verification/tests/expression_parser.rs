use infix_calc::expression_parser::check_char_validity;
use infix_calc::expression_parser::check_operator_char_order;
use infix_calc::expression_parser::evaluate_parenthes_match;
use infix_calc::expression_parser::is_minus_unary_operator;
use infix_calc::expression_parser::number_from_chars;
use infix_calc::expression_parser::parse_number;
use infix_calc::expression_parser::reverse_polish_notation::push_number_to_rpn_container;
use infix_calc::expression_parser::reverse_polish_notation::shunting_yard;
use infix_calc::expression_parser::strip_whitespace;
use infix_calc::expression_parser::validate_infix_notation;
use infix_calc::expression_parser::Operator;
use infix_calc::expression_parser::ParsingError;
use infix_calc::expression_parser::Token;

fn chars(text: &str) -> Vec<char> {
    text.chars().collect()
}

#[test]
fn parse_number_reads_digits() {
    assert_eq!(parse_number("0"), Ok(0));
    assert_eq!(parse_number("7"), Ok(7));
    assert_eq!(parse_number("1000"), Ok(1000));
    assert_eq!(parse_number("007"), Ok(7));
    assert_eq!(parse_number("2147483647"), Ok(2147483647));
}

#[test]
fn parse_number_reads_a_sign() {
    assert_eq!(parse_number("-1"), Ok(-1));
    assert_eq!(parse_number("-1000"), Ok(-1000));
    assert_eq!(parse_number("-0"), Ok(0));
    assert_eq!(parse_number("-2147483647"), Ok(-2147483647));
    assert_eq!(parse_number("-2147483648"), Ok(i32::MIN));
    assert_eq!(parse_number("-002147483648"), Ok(i32::MIN));
}

#[test]
fn parse_number_refuses_anything_else() {
    assert_eq!(parse_number(""), Err(ParsingError::InvalidInput));
    assert_eq!(parse_number("-"), Err(ParsingError::InvalidInput));
    assert_eq!(parse_number("--5"), Err(ParsingError::InvalidInput));
    assert_eq!(parse_number("+5"), Err(ParsingError::InvalidInput));
    assert_eq!(parse_number("5-"), Err(ParsingError::InvalidInput));
    assert_eq!(parse_number("1-2"), Err(ParsingError::InvalidInput));
    assert_eq!(parse_number("12a"), Err(ParsingError::InvalidInput));
    assert_eq!(parse_number(" 12"), Err(ParsingError::InvalidInput));
    assert_eq!(parse_number("1.5"), Err(ParsingError::InvalidInput));
    assert_eq!(parse_number("\u{663}"), Err(ParsingError::InvalidInput));
}

#[test]
fn parse_number_refuses_what_does_not_fit() {
    assert_eq!(parse_number("2147483648"), Err(ParsingError::InvalidInput));
    assert_eq!(parse_number("-2147483649"), Err(ParsingError::InvalidInput));
    assert_eq!(parse_number("-21474836480"), Err(ParsingError::InvalidInput));
    assert_eq!(parse_number("21474836470"), Err(ParsingError::InvalidInput));
    assert_eq!(
        parse_number("99999999999999999999999999"),
        Err(ParsingError::InvalidInput)
    );
}

#[test]
fn number_from_chars_agrees_with_parse_number() {
    assert_eq!(number_from_chars(&chars("-42")), Ok(-42));
    assert_eq!(number_from_chars(&chars("42")), Ok(42));
    assert_eq!(number_from_chars(&chars("-2147483648")), Ok(i32::MIN));
    assert_eq!(number_from_chars(&chars("2147483647")), Ok(i32::MAX));
    assert_eq!(number_from_chars(&chars("2147483648")), Err(ParsingError::InvalidInput));
    assert_eq!(number_from_chars(&chars("4-2")), Err(ParsingError::InvalidInput));
    assert_eq!(number_from_chars(&[]), Err(ParsingError::InvalidInput));
}

#[test]
fn valid_characters() {
    for c in "0123456789()+-*/".chars() {
        assert_eq!(check_char_validity(c), Ok(()));
    }
    for c in "{}[]a .,^%=\u{663}".chars() {
        assert_eq!(check_char_validity(c), Err(ParsingError::InvalidInput));
    }
}

#[test]
fn operators_of_characters() {
    assert_eq!(Operator::try_from('('), Ok(Operator::LeftParenthesis));
    assert_eq!(Operator::try_from(')'), Ok(Operator::RightParenthesis));
    assert_eq!(Operator::try_from('+'), Ok(Operator::Add));
    assert_eq!(Operator::try_from('-'), Ok(Operator::Substract));
    assert_eq!(Operator::try_from('*'), Ok(Operator::Multiply));
    assert_eq!(Operator::try_from('/'), Ok(Operator::Divide));
    assert_eq!(Operator::try_from('1'), Err(ParsingError::InvalidInput));
    assert_eq!(Operator::try_from('^'), Err(ParsingError::InvalidInput));
}

#[test]
fn precedence_of_operators() {
    assert_eq!(Operator::Add.precedence(), 1);
    assert_eq!(Operator::Substract.precedence(), 1);
    assert_eq!(Operator::Multiply.precedence(), 2);
    assert_eq!(Operator::Divide.precedence(), 2);
    assert_eq!(Operator::LeftParenthesis.precedence(), 0);
    assert_eq!(Operator::RightParenthesis.precedence(), 0);
}

#[test]
fn tokens_from_values() {
    assert_eq!(Token::from(5), Token::Operand(5));
    assert_eq!(Token::from(Operator::Add), Token::Operator(Operator::Add));
}

#[test]
fn messages_of_errors() {
    assert_eq!(
        ParsingError::ParenthesesNotMatching.message(),
        "Parentheses must match. ) can not come before (. Count of ( must equal to )"
    );
    assert_eq!(
        ParsingError::InvalidInput.message(),
        "Enter valid mathematical infix notation. Valid symbols are: + / - () and integer digits"
    );
}

#[test]
fn matching_parentheses() {
    assert_eq!(evaluate_parenthes_match(&chars("")), Ok(()));
    assert_eq!(evaluate_parenthes_match(&chars("1+2")), Ok(()));
    assert_eq!(evaluate_parenthes_match(&chars("(())()")), Ok(()));
    assert_eq!(evaluate_parenthes_match(&chars("((a)b)")), Ok(()));
    assert_eq!(
        evaluate_parenthes_match(&chars("(()")),
        Err(ParsingError::ParenthesesNotMatching)
    );
    assert_eq!(
        evaluate_parenthes_match(&chars("())")),
        Err(ParsingError::ParenthesesNotMatching)
    );
    assert_eq!(
        evaluate_parenthes_match(&chars(")(")),
        Err(ParsingError::ParenthesesNotMatching)
    );
}

#[test]
fn validation_follows_the_order_of_the_rules() {
    assert_eq!(validate_infix_notation(&chars("")), Err(ParsingError::InvalidInput));
    assert_eq!(validate_infix_notation(&chars("(1+2)-")), Err(ParsingError::InvalidInput));
    assert_eq!(validate_infix_notation(&chars("(1+(")), Err(ParsingError::InvalidInput));
    assert_eq!(validate_infix_notation(&chars("*1+2")), Err(ParsingError::InvalidInput));
    assert_eq!(validate_infix_notation(&chars(")1+2")), Err(ParsingError::InvalidInput));
    assert_eq!(validate_infix_notation(&chars("5")), Err(ParsingError::InvalidInput));
    assert_eq!(
        validate_infix_notation(&chars("(1+2")),
        Err(ParsingError::ParenthesesNotMatching)
    );
    assert_eq!(
        validate_infix_notation(&chars("(1+2))")),
        Err(ParsingError::ParenthesesNotMatching)
    );
    assert_eq!(
        validate_infix_notation(&chars("(1+?))")),
        Err(ParsingError::ParenthesesNotMatching)
    );
    assert_eq!(validate_infix_notation(&chars("1+?")), Err(ParsingError::InvalidInput));
    assert_eq!(validate_infix_notation(&chars("1 + 2")), Err(ParsingError::InvalidInput));
    assert_eq!(validate_infix_notation(&chars("1++2")), Err(ParsingError::InvalidInput));
    assert_eq!(validate_infix_notation(&chars("(1)2")), Err(ParsingError::InvalidInput));
    assert_eq!(validate_infix_notation(&chars("1(2)")), Err(ParsingError::InvalidInput));
    assert_eq!(validate_infix_notation(&chars("(1)(2)")), Err(ParsingError::InvalidInput));
    assert_eq!(validate_infix_notation(&chars("(/2)")), Err(ParsingError::InvalidInput));
}

#[test]
fn validation_accepts_expressions() {
    assert_eq!(validate_infix_notation(&chars("1+2")), Ok(()));
    assert_eq!(validate_infix_notation(&chars("-3+5/5*(10-3/3)-6")), Ok(()));
    assert_eq!(validate_infix_notation(&chars("((-3+5/5*(((10-3/3)))-6))")), Ok(()));
    assert_eq!(validate_infix_notation(&chars("(((-1000)))")), Ok(()));
    assert_eq!(validate_infix_notation(&chars("3*-5")), Ok(()));
    assert_eq!(validate_infix_notation(&chars("-(3)")), Ok(()));
    assert_eq!(validate_infix_notation(&chars("12")), Ok(()));
    assert_eq!(validate_infix_notation(&chars("99999999999")), Ok(()));
}

#[test]
fn order_of_an_operator_behind_a_character() {
    assert_eq!(check_operator_char_order('(', None), Ok(()));
    assert_eq!(check_operator_char_order('(', Some('(')), Ok(()));
    assert_eq!(check_operator_char_order('(', Some('+')), Ok(()));
    assert_eq!(check_operator_char_order('(', Some('-')), Ok(()));
    assert_eq!(check_operator_char_order('(', Some(')')), Err(ParsingError::InvalidInput));
    assert_eq!(check_operator_char_order('(', Some('7')), Err(ParsingError::InvalidInput));
    assert_eq!(check_operator_char_order('+', None), Err(ParsingError::InvalidInput));
    assert_eq!(check_operator_char_order(')', None), Err(ParsingError::InvalidInput));
    assert_eq!(check_operator_char_order('+', Some('7')), Ok(()));
    assert_eq!(check_operator_char_order('*', Some(')')), Ok(()));
    assert_eq!(check_operator_char_order(')', Some(')')), Ok(()));
    assert_eq!(check_operator_char_order(')', Some('0')), Ok(()));
    assert_eq!(check_operator_char_order('/', Some('(')), Err(ParsingError::InvalidInput));
    assert_eq!(check_operator_char_order('-', Some('+')), Err(ParsingError::InvalidInput));
    assert_eq!(check_operator_char_order(')', Some('(')), Err(ParsingError::InvalidInput));
    assert_eq!(check_operator_char_order('5', None), Err(ParsingError::InvalidInput));
    assert_eq!(check_operator_char_order('5', Some('4')), Ok(()));
}

#[test]
fn a_minus_is_a_sign_at_the_start_and_behind_an_operator() {
    assert!(is_minus_unary_operator('-', &None));
    assert!(is_minus_unary_operator('-', &Some('(')));
    assert!(is_minus_unary_operator('-', &Some('+')));
    assert!(is_minus_unary_operator('-', &Some('-')));
    assert!(is_minus_unary_operator('-', &Some('*')));
    assert!(is_minus_unary_operator('-', &Some('/')));
    assert!(!is_minus_unary_operator('-', &Some('0')));
    assert!(!is_minus_unary_operator('-', &Some('9')));
    assert!(!is_minus_unary_operator('-', &Some(')')));
    assert!(!is_minus_unary_operator('+', &None));
    assert!(!is_minus_unary_operator('5', &Some('(')));
}

#[test]
fn stripping_whitespace() {
    assert_eq!(strip_whitespace(" 1 +\t2\n"), chars("1+2"));
    assert_eq!(strip_whitespace("\u{85}1\u{1680}\u{2000}\u{200a}+\u{2028}\u{2029}\u{202f}\u{205f}\u{3000}2\u{b}\u{c}"), chars("1+2"));
    assert_eq!(strip_whitespace("   "), chars(""));
    assert_eq!(strip_whitespace("a\u{200b}b"), chars("a\u{200b}b"));
    let every: String = (0..=0x10ffffu32).filter_map(char::from_u32).collect();
    let kept: Vec<char> = every.chars().filter(|c| !c.is_whitespace()).collect();
    assert_eq!(strip_whitespace(&every), kept);
}

#[test]
fn pushing_a_number_empties_the_buffer() {
    let mut container = vec![Token::Operand(1)];
    let mut number = chars("-23");
    assert_eq!(push_number_to_rpn_container(&mut container, &mut number), Ok(()));
    assert_eq!(container, vec![Token::Operand(1), Token::Operand(-23)]);
    assert!(number.is_empty());
    assert_eq!(push_number_to_rpn_container(&mut container, &mut number), Ok(()));
    assert_eq!(container, vec![Token::Operand(1), Token::Operand(-23)]);
}

#[test]
fn pushing_the_smallest_number() {
    let mut container = Vec::new();
    let mut number = chars("-2147483648");
    assert_eq!(push_number_to_rpn_container(&mut container, &mut number), Ok(()));
    assert_eq!(container, vec![Token::Operand(i32::MIN)]);
    assert!(number.is_empty());
}

#[test]
fn pushing_a_bad_number_changes_nothing() {
    let mut container = vec![Token::Operand(1)];
    let mut number = chars("99999999999");
    assert_eq!(
        push_number_to_rpn_container(&mut container, &mut number),
        Err(ParsingError::InvalidInput)
    );
    assert_eq!(container, vec![Token::Operand(1)]);
    assert_eq!(number, chars("99999999999"));
}

#[test]
fn shunting_yard_on_its_own() {
    assert_eq!(
        shunting_yard(&chars("1+2*3-4")),
        Ok(vec![
            Token::Operand(1),
            Token::Operand(2),
            Token::Operand(3),
            Token::Operator(Operator::Multiply),
            Token::Operator(Operator::Add),
            Token::Operand(4),
            Token::Operator(Operator::Substract),
        ])
    );
    assert_eq!(shunting_yard(&chars("1+a")), Err(ParsingError::InvalidInput));
    assert_eq!(shunting_yard(&chars("1++2")), Err(ParsingError::InvalidInput));
    assert_eq!(shunting_yard(&chars("1(2)")), Err(ParsingError::InvalidInput));
    assert_eq!(shunting_yard(&chars("(1")), Ok(vec![Token::Operand(1)]));
}

#[test]
fn a_numeric_character_counts_as_a_digit_before_an_operator() {
    assert_eq!(check_operator_char_order('(', Some('\u{663}')), Err(ParsingError::InvalidInput));
    assert_eq!(check_operator_char_order('+', Some('\u{663}')), Ok(()));
    assert_eq!(check_operator_char_order(')', Some('\u{663}')), Ok(()));
    assert_eq!(check_operator_char_order('-', Some('\u{b2}')), Ok(()));
    assert_eq!(check_operator_char_order('*', Some('\u{2167}')), Ok(()));
    assert_eq!(check_operator_char_order('(', Some('\u{2167}')), Err(ParsingError::InvalidInput));
    assert_eq!(check_operator_char_order('(', Some('\u{e9}')), Ok(()));
    assert_eq!(check_operator_char_order('+', Some('\u{e9}')), Err(ParsingError::InvalidInput));
    assert_eq!(check_operator_char_order('+', Some('a')), Err(ParsingError::InvalidInput));
    assert_eq!(check_operator_char_order('(', Some('a')), Ok(()));
    assert_eq!(check_operator_char_order('\u{663}', None), Err(ParsingError::InvalidInput));
    assert_eq!(check_operator_char_order('\u{663}', Some('1')), Ok(()));
}

#[test]
fn a_minus_behind_a_numeric_character_subtracts() {
    assert!(!is_minus_unary_operator('-', &Some('\u{663}')));
    assert!(!is_minus_unary_operator('-', &Some('\u{b2}')));
    assert!(!is_minus_unary_operator('-', &Some('\u{2167}')));
    assert!(is_minus_unary_operator('-', &Some('\u{e9}')));
    assert!(is_minus_unary_operator('-', &Some('a')));
    assert!(is_minus_unary_operator('-', &Some(' ')));
}

#[test]
fn a_numeric_character_is_no_part_of_an_expression() {
    assert_eq!(check_char_validity('\u{663}'), Err(ParsingError::InvalidInput));
    assert_eq!(validate_infix_notation(&chars("1+\u{663}")), Err(ParsingError::InvalidInput));
    assert_eq!(shunting_yard(&chars("1+\u{663}")), Err(ParsingError::InvalidInput));
    assert_eq!(shunting_yard(&chars("\u{663}+1")), Err(ParsingError::InvalidInput));
    assert_eq!(parse_number("\u{663}"), Err(ParsingError::InvalidInput));
}

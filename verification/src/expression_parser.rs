//! Characters, numbers, operators and the structural rules of an infix
//! expression.

use vstd::prelude::*;
use vstd::std_specs::convert::FromSpecImpl;
use vstd::std_specs::convert::TryFromSpecImpl;

pub mod infix;
pub mod laws;
pub mod postfix;
pub mod reading;
pub mod reverse_polish_notation;
pub mod round_trip;
pub mod shape;

pub use reverse_polish_notation::ReversePolishNotation;

verus! {

/// Why an expression was refused.
#[derive(PartialEq, Eq, Structural, Debug, Clone, Copy)]
pub enum ParsingError {
    ParenthesesNotMatching,
    InvalidInput,
}

impl ParsingError {
    /// The text shown to the person who typed the expression.
    pub fn message(&self) -> (r: &'static str)
        ensures
            r@ == match *self {
                ParsingError::ParenthesesNotMatching => "Parentheses must match. ) can not come before (. Count of ( must equal to )"@,
                ParsingError::InvalidInput => "Enter valid mathematical infix notation. Valid symbols are: + / - () and integer digits"@,
            },
    {
        match self {
            ParsingError::ParenthesesNotMatching => {
                "Parentheses must match. ) can not come before (. Count of ( must equal to )"
            },
            ParsingError::InvalidInput => {
                "Enter valid mathematical infix notation. Valid symbols are: + / - () and integer digits"
            },
        }
    }
}

/// The four arithmetic operators and the two parentheses.
#[derive(PartialEq, Eq, Structural, Debug, Clone, Copy)]
pub enum Operator {
    Add,
    Substract,
    Divide,
    Multiply,
    LeftParenthesis,
    RightParenthesis,
}

/// The operator that a character stands for, if any.
pub open spec fn operator_of(c: char) -> Option<Operator> {
    if c == '(' {
        Some(Operator::LeftParenthesis)
    } else if c == ')' {
        Some(Operator::RightParenthesis)
    } else if c == '+' {
        Some(Operator::Add)
    } else if c == '-' {
        Some(Operator::Substract)
    } else if c == '*' {
        Some(Operator::Multiply)
    } else if c == '/' {
        Some(Operator::Divide)
    } else {
        None
    }
}

impl TryFrom<char> for Operator {
    type Error = ParsingError;

    /// The operator that `value` stands for; any other character is invalid
    /// input.
    fn try_from(value: char) -> (r: Result<Self, ParsingError>) {
        match value {
            '(' => Ok(Operator::LeftParenthesis),
            ')' => Ok(Operator::RightParenthesis),
            '+' => Ok(Operator::Add),
            '-' => Ok(Operator::Substract),
            '*' => Ok(Operator::Multiply),
            '/' => Ok(Operator::Divide),
            _ => Err(ParsingError::InvalidInput),
        }
    }
}

impl TryFromSpecImpl<char> for Operator {
    open spec fn obeys_try_from_spec() -> bool {
        true
    }

    open spec fn try_from_spec(value: char) -> Result<Self, ParsingError> {
        match operator_of(value) {
            Some(operator) => Ok(operator),
            None => Err(ParsingError::InvalidInput),
        }
    }
}

impl Operator {
    /// How tightly the operator binds: 2 for `*` and `/`, 1 for `+` and `-`,
    /// 0 for a parenthesis.
    pub open spec fn rank(self) -> u8 {
        match self {
            Operator::Add => 1,
            Operator::Substract => 1,
            Operator::Divide => 2,
            Operator::Multiply => 2,
            Operator::LeftParenthesis => 0,
            Operator::RightParenthesis => 0,
        }
    }

    /// Whether the operator takes two operands, that is, is no parenthesis.
    pub open spec fn is_binary(self) -> bool {
        self != Operator::LeftParenthesis && self != Operator::RightParenthesis
    }

    /// How tightly the operator binds.
    pub fn precedence(&self) -> (r: u8)
        ensures
            r == self.rank(),
    {
        match self {
            Operator::Add => 1,
            Operator::Substract => 1,
            Operator::Divide => 2,
            Operator::Multiply => 2,
            Operator::LeftParenthesis => 0,
            Operator::RightParenthesis => 0,
        }
    }
}

/// One element of an expression in postfix order.
#[derive(PartialEq, Eq, Structural, Debug, Clone, Copy)]
pub enum Token {
    Operand(i32),
    Operator(Operator),
}

impl From<i32> for Token {
    fn from(value: i32) -> (r: Self) {
        Token::Operand(value)
    }
}

impl FromSpecImpl<i32> for Token {
    open spec fn obeys_from_spec() -> bool {
        true
    }

    open spec fn from_spec(value: i32) -> Self {
        Token::Operand(value)
    }
}

impl From<Operator> for Token {
    fn from(value: Operator) -> (r: Self) {
        Token::Operator(value)
    }
}

impl FromSpecImpl<Operator> for Token {
    open spec fn obeys_from_spec() -> bool {
        true
    }

    open spec fn from_spec(value: Operator) -> Self {
        Token::Operator(value)
    }
}

/// Whether `c` is one of the ten ASCII digits.
pub open spec fn is_digit(c: char) -> bool {
    '0' <= c <= '9'
}

/// Whether `c` can stand in an expression once whitespace is gone: a digit,
/// a parenthesis or one of `+ - * /`.
pub open spec fn is_valid_char(c: char) -> bool {
    is_digit(c) || operator_of(c) is Some
}

/// The characters that are removed before an expression is read: those
/// that Unicode marks as `White_Space`.
pub open spec fn is_whitespace(c: char) -> bool {
    ||| '\u{9}' <= c <= '\u{d}'
    ||| c == ' '
    ||| c == '\u{85}'
    ||| c == '\u{a0}'
    ||| c == '\u{1680}'
    ||| '\u{2000}' <= c <= '\u{200a}'
    ||| c == '\u{2028}'
    ||| c == '\u{2029}'
    ||| c == '\u{202f}'
    ||| c == '\u{205f}'
    ||| c == '\u{3000}'
}

/// `text` with every whitespace character taken out.
pub open spec fn without_whitespace(text: Seq<char>) -> Seq<char> {
    text.filter(|c: char| !is_whitespace(c))
}

/// Whether `c` is one of the ten ASCII digits.
pub fn is_ascii_digit(c: char) -> (r: bool)
    ensures
        r == is_digit(c),
{
    '0' <= c && c <= '9'
}

/// Whether `c` is whitespace.
pub fn is_whitespace_char(c: char) -> (r: bool)
    ensures
        r == is_whitespace(c),
{
    ('\u{9}' <= c && c <= '\u{d}') || c == ' ' || c == '\u{85}' || c == '\u{a0}' || c
        == '\u{1680}' || ('\u{2000}' <= c && c <= '\u{200a}') || c == '\u{2028}' || c
        == '\u{2029}' || c == '\u{202f}' || c == '\u{205f}' || c == '\u{3000}'
}

/// The characters of `text` in order.
pub fn characters(text: &str) -> (r: Vec<char>)
    ensures
        r@ == text@,
{
    let mut r: Vec<char> = Vec::new();
    for c in it: text.chars()
        invariant
            r@ == it.seq().take(it.index()),
            it.seq() == text@,
    {
        r.push(c);
    }
    r
}

/// The characters of `text` that are no whitespace, in order.
pub fn strip_whitespace(text: &str) -> (r: Vec<char>)
    ensures
        r@ == without_whitespace(text@),
{
    let mut r: Vec<char> = Vec::new();
    for c in it: text.chars()
        invariant
            r@ == without_whitespace(it.seq().take(it.index())),
            it.seq() == text@,
    {
        proof {
            let done = it.seq().take(it.index());
            assert(it.seq().take(it.index() + 1) == done.push(c));
            assert(done.push(c).drop_last() == done);
            reveal(Seq::filter);
        }
        if !is_whitespace_char(c) {
            r.push(c);
        }
    }
    proof {
        assert(text@.take(text@.len() as int) == text@);
    }
    r
}

/// The number that a run of digits writes in base ten.
pub open spec fn digits_value(digits: Seq<char>) -> nat
    decreases digits.len(),
{
    if digits.len() == 0 {
        0
    } else {
        digits_value(digits.drop_last()) * 10 + (digits.last() as nat - '0' as nat) as nat
    }
}

/// Whether every character of `text` is a digit.
pub open spec fn all_digits(text: Seq<char>) -> bool {
    forall|i: int| 0 <= i < text.len() ==> is_digit(#[trigger] text[i])
}

/// The largest magnitude that a number can have: that of `i32::MAX`, and
/// behind a sign that of `i32::MIN`, which is one more.
pub open spec fn largest_magnitude(negative: bool) -> int {
    if negative {
        2147483648
    } else {
        2147483647
    }
}

/// The integer that `text` writes: one or more digits, with at most one `-`
/// in front, whose value is an `i32`. Anything else writes no integer.
pub open spec fn number_of(text: Seq<char>) -> Option<int> {
    let negative = text.len() > 0 && text[0] == '-';
    let digits = if negative {
        text.skip(1)
    } else {
        text
    };
    if digits.len() > 0 && all_digits(digits) && digits_value(digits) <= largest_magnitude(
        negative,
    ) {
        Some(
            if negative {
                -(digits_value(digits) as int)
            } else {
                digits_value(digits) as int
            },
        )
    } else {
        None
    }
}

/// What reading `text` as an integer gives.
pub open spec fn parsed_number(text: Seq<char>) -> Result<i32, ParsingError> {
    match number_of(text) {
        Some(n) => Ok(n as i32),
        None => Err(ParsingError::InvalidInput),
    }
}

/// A larger run of digits writes a larger or equal number.
proof fn digits_value_grows(digits: Seq<char>, k: int)
    requires
        0 <= k <= digits.len(),
    ensures
        digits_value(digits.take(k)) <= digits_value(digits),
    decreases digits.len() - k,
{
    if k == digits.len() {
        assert(digits.take(k) == digits);
    } else {
        digits_value_grows(digits, k + 1);
        assert(digits.take(k + 1).drop_last() == digits.take(k));
    }
}

/// Reads the characters of an integer. Every `i32` can be read, from
/// `-2147483648` to `2147483647`; a number outside that range is refused.
pub fn number_from_chars(text: &[char]) -> (r: Result<i32, ParsingError>)
    ensures
        r == parsed_number(text@),
{
    let negative = text.len() > 0 && text[0] == '-';
    let start: usize = if negative {
        1
    } else {
        0
    };
    let limit: i64 = if negative {
        2147483648
    } else {
        2147483647
    };
    let ghost digits = if negative {
        text@.skip(1)
    } else {
        text@
    };
    if start == text.len() {
        return Err(ParsingError::InvalidInput);
    }
    let mut value: i64 = 0;
    let mut i: usize = start;
    while i < text.len()
        invariant
            start <= i <= text.len(),
            negative == (text@.len() > 0 && text@[0] == '-'),
            limit == largest_magnitude(negative),
            digits == if negative {
                text@.skip(1)
            } else {
                text@
            },
            digits.len() == text@.len() - start,
            forall|k: int| 0 <= k < digits.len() ==> digits[k] == text@[k + start],
            all_digits(digits.take(i - start)),
            value == digits_value(digits.take(i - start)),
            0 <= value <= limit,
        decreases text.len() - i,
    {
        let c = text[i];
        let ghost next = digits.take(i - start + 1);
        proof {
            assert(digits[i - start] == c);
            assert(next.drop_last() == digits.take(i - start));
            assert(next.last() == c);
            digits_value_grows(digits, i - start + 1);
        }
        if !is_ascii_digit(c) {
            return Err(ParsingError::InvalidInput);
        }
        let d: i64 = (c as u32 - '0' as u32) as i64;
        assert(digits_value(next) == value * 10 + d);
        if value > (limit - d) / 10 {
            return Err(ParsingError::InvalidInput);
        }
        assert(all_digits(next));
        value = value * 10 + d;
        i += 1;
    }
    proof {
        assert(digits.take(i - start) == digits);
    }
    if negative {
        Ok((-value) as i32)
    } else {
        Ok(value as i32)
    }
}

/// Reads an integer: one or more digits, with at most one `-` in front.
/// Every `i32` can be read; a number outside its range is refused.
pub fn parse_number(value: &str) -> (r: Result<i32, ParsingError>)
    ensures
        r == parsed_number(value@),
{
    let text = characters(value);
    number_from_chars(text.as_slice())
}

/// How often `c` stands in `text`.
pub open spec fn occurrences(text: Seq<char>, c: char) -> nat
    decreases text.len(),
{
    if text.len() == 0 {
        0
    } else {
        occurrences(text.drop_last(), c) + if text.last() == c {
            1nat
        } else {
            0nat
        }
    }
}

/// How many `(` of `text` are still open at its end; negative where more
/// `)` than `(` stand in it.
pub open spec fn open_parentheses(text: Seq<char>) -> int {
    occurrences(text, '(') - occurrences(text, ')')
}

/// Whether `text` has as many `)` as `(`, and no `)` before the `(` that it
/// closes.
pub open spec fn parentheses_match(text: Seq<char>) -> bool {
    &&& open_parentheses(text) == 0
    &&& forall|k: int| 0 <= k <= text.len() ==> open_parentheses(#[trigger] text.take(k)) >= 0
}

/// Refuses a text whose parentheses do not match.
pub fn evaluate_parenthes_match(value: &[char]) -> (r: Result<(), ParsingError>)
    ensures
        r == if parentheses_match(value@) {
            Ok::<(), ParsingError>(())
        } else {
            Err(ParsingError::ParenthesesNotMatching)
        },
{
    let mut opened: usize = 0;
    let mut closed: usize = 0;
    let mut i: usize = 0;
    while i < value.len()
        invariant
            i <= value.len(),
            opened == occurrences(value@.take(i as int), '('),
            closed == occurrences(value@.take(i as int), ')'),
            closed <= opened <= i,
            forall|k: int| 0 <= k <= i ==> open_parentheses(#[trigger] value@.take(k)) >= 0,
        decreases value.len() - i,
    {
        let c = value[i];
        proof {
            assert(value@.take(i + 1).drop_last() == value@.take(i as int));
        }
        if c == '(' {
            opened += 1;
        } else if c == ')' {
            if closed == opened {
                assert(open_parentheses(value@.take(i + 1)) < 0);
                return Err(ParsingError::ParenthesesNotMatching);
            }
            closed += 1;
        }
        i += 1;
    }
    proof {
        assert(value@.take(i as int) == value@);
    }
    if opened != closed {
        return Err(ParsingError::ParenthesesNotMatching);
    }
    Ok(())
}

/// Refuses a character that cannot stand in an expression.
pub fn check_char_validity(c: char) -> (r: Result<(), ParsingError>)
    ensures
        r == if is_valid_char(c) {
            Ok::<(), ParsingError>(())
        } else {
            Err(ParsingError::InvalidInput)
        },
{
    if !is_ascii_digit(c) && c != ')' && c != '(' && c != '+' && c != '*' && c != '-' && c != '/' {
        return Err(ParsingError::InvalidInput);
    }
    Ok(())
}

/// Whether `current` may stand directly behind `previous`. A digit does not
/// follow `)`; `(` follows neither `)` nor a digit; `)`, `+`, `*` and `/`
/// follow only a digit or `)`. A `-` may follow anything: behind a digit or
/// `)` it subtracts, elsewhere it is a sign.
pub open spec fn can_follow(previous: char, current: char) -> bool {
    if is_digit(current) {
        previous != ')'
    } else if current == '(' {
        previous != ')' && !is_digit(previous)
    } else if current == '-' {
        true
    } else {
        is_digit(previous) || previous == ')'
    }
}

/// Whether every character of `text` can stand in an expression.
pub open spec fn all_valid_chars(text: Seq<char>) -> bool {
    forall|i: int| 0 <= i < text.len() ==> is_valid_char(#[trigger] text[i])
}

/// Whether every character of `text` but the first may follow the one before
/// it.
pub open spec fn well_ordered(text: Seq<char>) -> bool {
    forall|i: int| 0 < i < text.len() ==> can_follow(text[i - 1], #[trigger] text[i])
}

/// Whether `text` ends in a character that asks for more: `(` or one of
/// `- + * /`.
pub open spec fn ends_open(text: Seq<char>) -> bool {
    text.len() > 0 && (text.last() == '(' || text.last() == '-' || text.last() == '+'
        || text.last() == '*' || text.last() == '/')
}

/// Whether `text` starts with a character that needs something before it:
/// `)` or one of `+ * /`.
pub open spec fn starts_closed(text: Seq<char>) -> bool {
    text.len() > 0 && (text[0] == ')' || text[0] == '+' || text[0] == '*' || text[0] == '/')
}

/// The verdict on a text without whitespace. The rules are applied in this
/// order and the first that fails decides: the text is not empty; it does not
/// end in `(` or an operator; it does not start with `)`, `+`, `*` or `/`; it
/// is not one digit alone; its parentheses match; each character can stand in
/// an expression and may follow the one before it.
pub open spec fn validation(text: Seq<char>) -> Result<(), ParsingError> {
    if text.len() == 0 || ends_open(text) || starts_closed(text) || (text.len() == 1 && is_digit(
        text[0],
    )) {
        Err(ParsingError::InvalidInput)
    } else if !parentheses_match(text) {
        Err(ParsingError::ParenthesesNotMatching)
    } else if !all_valid_chars(text) || !well_ordered(text) {
        Err(ParsingError::InvalidInput)
    } else {
        Ok(())
    }
}

/// Whether `text` passes every rule of [`validation`].
pub open spec fn is_valid_infix(text: Seq<char>) -> bool {
    validation(text) is Ok
}

/// Whether `current` may stand directly behind `previous`.
fn may_follow(previous: char, current: char) -> (r: bool)
    ensures
        r == can_follow(previous, current),
{
    if is_ascii_digit(current) {
        previous != ')'
    } else if current == '(' {
        previous != ')' && !is_ascii_digit(previous)
    } else if current == '-' {
        true
    } else {
        is_ascii_digit(previous) || previous == ')'
    }
}

/// Checks a text without whitespace against the rules of [`validation`].
pub fn validate_infix_notation(input: &[char]) -> (r: Result<(), ParsingError>)
    ensures
        r == validation(input@),
{
    let n = input.len();
    if n == 0 {
        return Err(ParsingError::InvalidInput);
    }
    let last = input[n - 1];
    if last == '(' || last == '-' || last == '+' || last == '*' || last == '/' {
        return Err(ParsingError::InvalidInput);
    }
    let first = input[0];
    if first == ')' || first == '+' || first == '*' || first == '/' {
        return Err(ParsingError::InvalidInput);
    }
    if n == 1 && is_ascii_digit(first) {
        return Err(ParsingError::InvalidInput);
    }
    evaluate_parenthes_match(input)?;
    let mut i: usize = 0;
    while i < n
        invariant
            i <= n,
            n == input@.len(),
            validation(input@) == if all_valid_chars(input@) && well_ordered(input@) {
                Ok::<(), ParsingError>(())
            } else {
                Err(ParsingError::InvalidInput)
            },
            all_valid_chars(input@.take(i as int)),
            well_ordered(input@.take(i as int)),
        decreases n - i,
    {
        let current = input[i];
        match check_char_validity(current) {
            Err(e) => {
                assert(!is_valid_char(input@[i as int]));
                return Err(e);
            },
            Ok(()) => {},
        }
        if i > 0 && !may_follow(input[i - 1], current) {
            assert(!can_follow(input@[i - 1], input@[i as int]));
            return Err(ParsingError::InvalidInput);
        }
        proof {
            let next = input@.take(i + 1);
            assert forall|k: int| 0 <= k < next.len() implies is_valid_char(#[trigger] next[k]) by {
                if k < i {
                    assert(input@.take(i as int)[k] == next[k]);
                }
            }
            assert forall|k: int| 0 < k < next.len() implies can_follow(
                next[k - 1],
                #[trigger] next[k],
            ) by {
                if k < i {
                    assert(input@.take(i as int)[k] == next[k]);
                }
            }
        }
        i += 1;
    }
    proof {
        assert(input@.take(i as int) == input@);
    }
    Ok(())
}

/// Whether `char::is_numeric` accepts `c`: whether Unicode counts `c` among
/// the numbers, as a decimal digit, a letter that stands for a number or
/// another numeric character.
pub uninterp spec fn numeric(c: char) -> bool;

/// Whether `c` counts as a digit behind which an operator can stand: what
/// Unicode counts among the numbers. Of the ASCII characters those are the
/// ten digits.
pub open spec fn is_numeric(c: char) -> bool {
    if c <= '\u{7f}' {
        is_digit(c)
    } else {
        numeric(c)
    }
}

/// Calls `char::is_numeric`, which is not verified here. Its result is taken
/// as given under the name `numeric`. It is also taken as given that among
/// the ASCII characters it accepts the ten digits and nothing else: Unicode
/// gives no other ASCII character one of the categories of numbers.
#[verifier::external_body]
fn is_numeric_char(c: char) -> (r: bool)
    ensures
        r == numeric(c),
        c <= '\u{7f}' ==> r == is_digit(c),
{
    c.is_numeric()
}

/// Whether the character read last, if any, ended an operand: what counts
/// as a digit, or `)`.
pub open spec fn after_operand(previous: Option<char>) -> bool {
    match previous {
        Some(p) => is_numeric(p) || p == ')',
        None => false,
    }
}

/// Whether an operator or parenthesis `current` is in order behind
/// `previous`, the character read before it (`None` at the start). `(` is in
/// order unless it follows `)` or what counts as a digit; every other
/// character only behind one of these.
pub open spec fn operator_in_order(current: char, previous: Option<char>) -> bool {
    if current == '(' {
        !after_operand(previous)
    } else {
        after_operand(previous)
    }
}

/// Refuses an operator or parenthesis that is out of order behind
/// `previous_char`.
pub fn check_operator_char_order(current_char: char, previous_char: Option<char>) -> (r: Result<
    (),
    ParsingError,
>)
    ensures
        r == if operator_in_order(current_char, previous_char) {
            Ok::<(), ParsingError>(())
        } else {
            Err(ParsingError::InvalidInput)
        },
{
    if previous_char.is_none() && !is_numeric_char(current_char) && current_char != '(' {
        return Err(ParsingError::InvalidInput);
    }
    if current_char == '(' {
        match previous_char {
            Some(previous) => {
                if previous == ')' || is_numeric_char(previous) {
                    return Err(ParsingError::InvalidInput);
                }
                return Ok(());
            },
            None => {
                return Ok(());
            },
        }
    }
    match previous_char {
        Some(previous) => {
            if !is_numeric_char(previous) && previous != ')' {
                return Err(ParsingError::InvalidInput);
            }
            Ok(())
        },
        None => Err(ParsingError::InvalidInput),
    }
}

/// Whether `current` is a sign and no subtraction: a `-` at the start, or
/// behind anything but `)` or what counts as a digit.
pub open spec fn is_unary_minus(current: char, previous: Option<char>) -> bool {
    current == '-' && !after_operand(previous)
}

/// Whether `current_char` is a sign behind `previous_char`, the character
/// read before it (`None` at the start).
pub fn is_minus_unary_operator(current_char: char, previous_char: &Option<char>) -> (r: bool)
    ensures
        r == is_unary_minus(current_char, *previous_char),
{
    if current_char != '-' {
        return false;
    }
    match previous_char {
        Some(previous) => !(is_numeric_char(*previous) || *previous == ')'),
        None => true,
    }
}

} // verus!

//! Evaluation of integer arithmetic written in infix notation.
//!
//! An expression is validated, converted to postfix order with the
//! shunting-yard algorithm and then evaluated with a single value stack.
//! What is built from a text is stated over the expression that the text
//! writes; the arithmetic of the evaluation is the caller's.

pub mod expression_parser;

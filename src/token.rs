//! Tokens as the collector sees them.
use vstd::prelude::*;

use garnish_lang_compiler::lex::TokenType;

verus! {

/// One lexical token: its raw text, its category and where it starts.
#[derive(Debug, PartialEq, Eq)]
pub struct Token {
    pub text: String,
    pub token_type: TokenType,
    pub line: usize,
    pub column: usize,
}

impl Token {
    /// A token with the given text, type and start position.
    pub fn new(text: String, token_type: TokenType, line: usize, column: usize) -> (r: Self)
        ensures
            r == (Token { text, token_type, line, column }),
    {
        Token { text, token_type, line, column }
    }
}

impl Clone for Token {
    fn clone(&self) -> (r: Self)
        ensures
            r == *self,
    {
        Token { text: self.text.clone(), token_type: self.token_type, line: self.line, column: self.column }
    }
}

/// Whether two token categories are the same.
pub fn same_token_type(a: TokenType, b: TokenType) -> (r: bool)
    ensures
        r == (a == b),
{
    match a {
        TokenType::Unknown => matches!(b, TokenType::Unknown),
        TokenType::UnitLiteral => matches!(b, TokenType::UnitLiteral),
        TokenType::PlusSign => matches!(b, TokenType::PlusSign),
        TokenType::Subtraction => matches!(b, TokenType::Subtraction),
        TokenType::Division => matches!(b, TokenType::Division),
        TokenType::MultiplicationSign => matches!(b, TokenType::MultiplicationSign),
        TokenType::ExponentialSign => matches!(b, TokenType::ExponentialSign),
        TokenType::IntegerDivision => matches!(b, TokenType::IntegerDivision),
        TokenType::Remainder => matches!(b, TokenType::Remainder),
        TokenType::AbsoluteValue => matches!(b, TokenType::AbsoluteValue),
        TokenType::Opposite => matches!(b, TokenType::Opposite),
        TokenType::BitwiseNot => matches!(b, TokenType::BitwiseNot),
        TokenType::BitwiseAnd => matches!(b, TokenType::BitwiseAnd),
        TokenType::BitwiseOr => matches!(b, TokenType::BitwiseOr),
        TokenType::BitwiseXor => matches!(b, TokenType::BitwiseXor),
        TokenType::BitwiseLeftShift => matches!(b, TokenType::BitwiseLeftShift),
        TokenType::BitwiseRightShift => matches!(b, TokenType::BitwiseRightShift),
        TokenType::And => matches!(b, TokenType::And),
        TokenType::Or => matches!(b, TokenType::Or),
        TokenType::Xor => matches!(b, TokenType::Xor),
        TokenType::Not => matches!(b, TokenType::Not),
        TokenType::Tis => matches!(b, TokenType::Tis),
        TokenType::StartExpression => matches!(b, TokenType::StartExpression),
        TokenType::EndExpression => matches!(b, TokenType::EndExpression),
        TokenType::StartGroup => matches!(b, TokenType::StartGroup),
        TokenType::EndGroup => matches!(b, TokenType::EndGroup),
        TokenType::StartSideEffect => matches!(b, TokenType::StartSideEffect),
        TokenType::EndSideEffect => matches!(b, TokenType::EndSideEffect),
        TokenType::Value => matches!(b, TokenType::Value),
        TokenType::Comma => matches!(b, TokenType::Comma),
        TokenType::Symbol => matches!(b, TokenType::Symbol),
        TokenType::Number => matches!(b, TokenType::Number),
        TokenType::Identifier => matches!(b, TokenType::Identifier),
        TokenType::CharList => matches!(b, TokenType::CharList),
        TokenType::ByteList => matches!(b, TokenType::ByteList),
        TokenType::Whitespace => matches!(b, TokenType::Whitespace),
        TokenType::Subexpression => matches!(b, TokenType::Subexpression),
        TokenType::ExpressionTerminator => matches!(b, TokenType::ExpressionTerminator),
        TokenType::ExpressionSeparator => matches!(b, TokenType::ExpressionSeparator),
        TokenType::Annotation => matches!(b, TokenType::Annotation),
        TokenType::LineAnnotation => matches!(b, TokenType::LineAnnotation),
        TokenType::JumpIfFalse => matches!(b, TokenType::JumpIfFalse),
        TokenType::JumpIfTrue => matches!(b, TokenType::JumpIfTrue),
        TokenType::ElseJump => matches!(b, TokenType::ElseJump),
        TokenType::TypeOf => matches!(b, TokenType::TypeOf),
        TokenType::Apply => matches!(b, TokenType::Apply),
        TokenType::ApplyTo => matches!(b, TokenType::ApplyTo),
        TokenType::PartialApply => matches!(b, TokenType::PartialApply),
        TokenType::Reapply => matches!(b, TokenType::Reapply),
        TokenType::EmptyApply => matches!(b, TokenType::EmptyApply),
        TokenType::TypeCast => matches!(b, TokenType::TypeCast),
        TokenType::TypeEqual => matches!(b, TokenType::TypeEqual),
        TokenType::Equality => matches!(b, TokenType::Equality),
        TokenType::Inequality => matches!(b, TokenType::Inequality),
        TokenType::LessThan => matches!(b, TokenType::LessThan),
        TokenType::LessThanOrEqual => matches!(b, TokenType::LessThanOrEqual),
        TokenType::GreaterThan => matches!(b, TokenType::GreaterThan),
        TokenType::GreaterThanOrEqual => matches!(b, TokenType::GreaterThanOrEqual),
        TokenType::Period => matches!(b, TokenType::Period),
        TokenType::LeftInternal => matches!(b, TokenType::LeftInternal),
        TokenType::RightInternal => matches!(b, TokenType::RightInternal),
        TokenType::LengthInternal => matches!(b, TokenType::LengthInternal),
        TokenType::Pair => matches!(b, TokenType::Pair),
        TokenType::Concatenation => matches!(b, TokenType::Concatenation),
        TokenType::Range => matches!(b, TokenType::Range),
        TokenType::StartExclusiveRange => matches!(b, TokenType::StartExclusiveRange),
        TokenType::EndExclusiveRange => matches!(b, TokenType::EndExclusiveRange),
        TokenType::ExclusiveRange => matches!(b, TokenType::ExclusiveRange),
        TokenType::False => matches!(b, TokenType::False),
        TokenType::True => matches!(b, TokenType::True),
        TokenType::PrefixIdentifier => matches!(b, TokenType::PrefixIdentifier),
        TokenType::SuffixIdentifier => matches!(b, TokenType::SuffixIdentifier),
        TokenType::InfixIdentifier => matches!(b, TokenType::InfixIdentifier),
    }
}

} // verus!

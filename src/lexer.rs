//! What the library takes from garnish's lexer.
use vstd::prelude::*;

use crate::token::Token;

verus! {

/// garnish's token categories. Verus reads the variants from the enum itself.
#[verifier::external_type_specification]
pub struct ExTokenType(garnish_lang_compiler::lex::TokenType);

/// Relies on the `Clone` that garnish derives for its fieldless `Copy` enum
/// `TokenType`: the clone is the same variant.
pub assume_specification[ <garnish_lang_compiler::lex::TokenType as Clone>::clone ](
    t: &garnish_lang_compiler::lex::TokenType,
) -> (r: garnish_lang_compiler::lex::TokenType)
    ensures
        r == *t,
;

/// What garnish's lexer makes of a text: its tokens in order, or the message
/// of its error. It depends on the text alone.
pub uninterp spec fn lexed(input: Seq<char>) -> Result<Seq<Token>, Seq<char>>;

/// Relies on `garnish_lang_compiler::lex::lex` for the tokens of a text, and
/// on garnish's `From<CompilerError> for String` for the message of its error.
#[verifier::external_body]
pub(crate) fn lex_tokens(input: &str) -> (r: Result<Vec<Token>, String>)
    ensures
        match r {
            Ok(ts) => lexed(input@) == Ok::<Seq<Token>, Seq<char>>(ts@),
            Err(e) => lexed(input@) == Err::<Seq<Token>, Seq<char>>(e@),
        },
{
    match garnish_lang_compiler::lex::lex(input) {
        Ok(tokens) => Ok(tokens.iter().map(|t| Token::new(t.get_text().clone(), t.get_token_type(), t.get_line(), t.get_column())).collect()),
        Err(e) => Err(String::from(e)),
    }
}

} // verus!

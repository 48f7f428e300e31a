//! The sink registry: which annotation opens a block, and where each of the
//! block's parts ends.
use vstd::prelude::*;

use garnish_lang_compiler::lex::TokenType;

verus! {

/// How one part of a block decides where it ends.
#[derive(Debug, PartialEq, Eq, Clone)]
pub enum PartBehavior {
    /// Ends on a token whose text holds a newline.
    UntilNewline,
    /// Ends once this many counted tokens have been taken by the block.
    TokenCount(usize),
    /// Ends on a token of this type met at the nesting depth at which the
    /// block opened, or shallower.
    UntilToken(TokenType),
    /// Ends on an annotation token that names this text (leading `@` aside);
    /// that token is kept in the part.
    UntilAnnotation(String),
}

/// One part of a block: its end rule and the token types that its count
/// passes over.
#[derive(Debug, PartialEq, Eq, Clone)]
pub struct PartParser {
    pub behavior: PartBehavior,
    pub excluded: Vec<TokenType>,
}

impl PartParser {
    /// A part with the given end rule, whose count passes over whitespace.
    pub fn new(behavior: PartBehavior) -> (r: Self)
        ensures
            r.behavior == behavior,
            r.excluded@ == seq![TokenType::Whitespace],
    {
        PartParser { behavior, excluded: vec![TokenType::Whitespace] }
    }

    /// A part with the given end rule, whose count passes over the given types.
    pub fn with_excluded(behavior: PartBehavior, excluded: Vec<TokenType>) -> (r: Self)
        ensures
            r.behavior == behavior,
            r.excluded@ == excluded@,
    {
        PartParser { behavior, excluded }
    }
}

/// The rule for one annotation: the annotation text it reacts to and the
/// parts of the block it opens. A sink without parts marks a lone
/// annotation, which yields an empty block.
#[derive(Debug, PartialEq, Eq, Clone)]
pub struct Sink {
    pub annotation_text: String,
    pub part_parsers: Vec<PartParser>,
}

impl Sink {
    /// A sink for the given annotation text, without parts.
    pub fn new(annotation_text: &str) -> (r: Self)
        ensures
            r.annotation_text@ == annotation_text@,
            r.part_parsers@.len() == 0,
    {
        Sink { annotation_text: annotation_text.to_string(), part_parsers: Vec::new() }
    }

    /// This sink with one more part at the end.
    pub fn part(self, part_parser: PartParser) -> (r: Self)
        ensures
            r.annotation_text == self.annotation_text,
            r.part_parsers@ == self.part_parsers@.push(part_parser),
    {
        let mut parts = self.part_parsers;
        parts.push(part_parser);
        Sink { annotation_text: self.annotation_text, part_parsers: parts }
    }
}

} // verus!

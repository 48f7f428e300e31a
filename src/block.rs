//! Blocks: the output of collection, and their mathematical model.
use vstd::prelude::*;

use crate::token::Token;

verus! {

/// The model of a block: its annotation text, the loose tokens of an
/// anonymous block, the captured parts, and the child blocks.
pub struct BlockModel {
    pub annotation: Seq<char>,
    pub tokens: Seq<Token>,
    pub parts: Seq<Seq<Token>>,
    pub nested: Seq<BlockModel>,
}

/// A block of collected tokens. An anonymous block (empty annotation text)
/// holds a run of tokens outside any annotation in `tokens`; an annotated
/// block holds one entry of `parts` for each part of its sink, and the blocks
/// that were opened while it was open in `nested`.
#[derive(Debug, PartialEq, Eq)]
pub struct TokenBlock {
    pub annotation_text: String,
    pub nested: Vec<TokenBlock>,
    pub tokens: Vec<Token>,
    pub parts: Vec<Vec<Token>>,
}

/// The models of a sequence of blocks.
pub open spec fn blocks_view(bs: Seq<TokenBlock>) -> Seq<BlockModel>
    decreases bs,
{
    if bs.len() == 0 {
        Seq::empty()
    } else {
        blocks_view(bs.drop_last()).push(bs.last().view())
    }
}

/// The token sequences of a sequence of parts.
pub open spec fn parts_view(ps: Seq<Vec<Token>>) -> Seq<Seq<Token>> {
    ps.map_values(|p: Vec<Token>| p@)
}

/// Adding a block at the end adds its model at the end.
pub proof fn lemma_blocks_view_push(bs: Seq<TokenBlock>, b: TokenBlock)
    ensures
        blocks_view(bs.push(b)) == blocks_view(bs).push(b@),
{
    assert(bs.push(b).drop_last() =~= bs);
}

/// Replacing the last block replaces its model.
pub proof fn lemma_blocks_view_set_last(bs: Seq<TokenBlock>, b: TokenBlock)
    requires
        bs.len() > 0,
    ensures
        blocks_view(bs.drop_last().push(b)) == blocks_view(bs).update(bs.len() - 1, b@),
        blocks_view(bs).len() == bs.len(),
{
    lemma_blocks_view_push(bs.drop_last(), b);
    lemma_blocks_view_len(bs);
    lemma_blocks_view_len(bs.drop_last());
    assert(blocks_view(bs.drop_last()).push(b@) =~= blocks_view(bs).update(bs.len() - 1, b@));
}

/// The last model is the model of the last block.
pub proof fn lemma_blocks_view_last(bs: Seq<TokenBlock>)
    requires
        bs.len() > 0,
    ensures
        blocks_view(bs).len() == bs.len(),
        blocks_view(bs).last() == bs.last()@,
        blocks_view(bs).drop_last() == blocks_view(bs.drop_last()),
{
    lemma_blocks_view_len(bs.drop_last());
}

/// As many models as blocks.
pub proof fn lemma_blocks_view_len(bs: Seq<TokenBlock>)
    ensures
        blocks_view(bs).len() == bs.len(),
    decreases bs.len(),
{
    if bs.len() > 0 {
        lemma_blocks_view_len(bs.drop_last());
    }
}

/// A copy of a sequence of tokens.
fn clone_tokens(ts: &Vec<Token>) -> (r: Vec<Token>)
    ensures
        r@ == ts@,
{
    let mut r: Vec<Token> = Vec::new();
    let mut i: usize = 0;
    while i < ts.len()
        invariant
            i <= ts.len(),
            r@ == ts@.take(i as int),
        decreases ts.len() - i,
    {
        r.push(ts[i].clone());
        proof {
            assert(ts@.take(i + 1) =~= ts@.take(i as int).push(ts@[i as int]));
        }
        i += 1;
    }
    proof {
        assert(ts@.take(ts.len() as int) =~= ts@);
    }
    r
}

impl Clone for TokenBlock {
    fn clone(&self) -> (r: Self)
        ensures
            r@ == self@,
    {
        self.clone_block()
    }
}

impl TokenBlock {
    pub open spec fn view(&self) -> BlockModel
        decreases self,
    {
        BlockModel {
            annotation: self.annotation_text@,
            tokens: self.tokens@,
            parts: parts_view(self.parts@),
            nested: blocks_view(self.nested@),
        }
    }

    /// A block with the given annotation text and loose tokens.
    pub fn new(annotation_text: String, tokens: Vec<Token>) -> (r: Self)
        ensures
            r@ == (BlockModel { annotation: annotation_text@, tokens: tokens@, parts: seq![], nested: seq![] }),
    {
        let r = TokenBlock { annotation_text, nested: Vec::new(), tokens, parts: Vec::new() };
        assert(parts_view(r.parts@) =~= seq![]);
        r
    }

    /// A block with the given annotation text, loose tokens and parts.
    pub fn new_with_parts(annotation_text: String, tokens: Vec<Token>, parts: Vec<Vec<Token>>) -> (r: Self)
        ensures
            r@ == (BlockModel { annotation: annotation_text@, tokens: tokens@, parts: parts_view(parts@), nested: seq![] }),
    {
        TokenBlock { annotation_text, nested: Vec::new(), tokens, parts }
    }

    /// An empty block with the given annotation text.
    pub fn with_annotation(annotation_text: String) -> (r: Self)
        ensures
            r@ == (BlockModel { annotation: annotation_text@, tokens: seq![], parts: seq![], nested: seq![] }),
    {
        let r = TokenBlock { annotation_text, nested: Vec::new(), tokens: Vec::new(), parts: Vec::new() };
        assert(parts_view(r.parts@) =~= seq![]);
        r
    }

    /// An anonymous block holding the given tokens.
    pub fn with_tokens(tokens: Vec<Token>) -> (r: Self)
        ensures
            r@ == (BlockModel { annotation: seq![], tokens: tokens@, parts: seq![], nested: seq![] }),
    {
        Self::new(String::new(), tokens)
    }

    /// This block with the given children in place of its own.
    pub fn and_children(self, children: Vec<TokenBlock>) -> (r: Self)
        ensures
            r@ == (BlockModel { nested: blocks_view(children@), ..self@ }),
    {
        TokenBlock { nested: children, ..self }
    }

    /// This block with the given loose tokens in place of its own.
    pub fn and_tokens(self, tokens: Vec<Token>) -> (r: Self)
        ensures
            r@ == (BlockModel { tokens: tokens@, ..self@ }),
    {
        TokenBlock { tokens, ..self }
    }

    /// The annotation text; empty for an anonymous block.
    pub fn annotation_text(&self) -> (r: &String)
        ensures
            r@ == self@.annotation,
    {
        &self.annotation_text
    }

    /// The child blocks.
    pub fn blocks(&self) -> (r: &Vec<TokenBlock>)
        ensures
            blocks_view(r@) == self@.nested,
    {
        &self.nested
    }

    /// The loose tokens.
    pub fn tokens(&self) -> (r: &Vec<Token>)
        ensures
            r@ == self@.tokens,
    {
        &self.tokens
    }

    /// A copy of this block, children included.
    pub fn clone_block(&self) -> (r: Self)
        ensures
            r@ == self@,
        decreases self,
    {
        let mut nested: Vec<TokenBlock> = Vec::new();
        let mut i: usize = 0;
        while i < self.nested.len()
            invariant
                i <= self.nested.len(),
                blocks_view(nested@) == blocks_view(self.nested@.take(i as int)),
            decreases self.nested.len() - i,
        {
            proof {
                assert(decreases_to!(self => self.nested));
                assert(decreases_to!(self.nested => self.nested[i as int]));
            }
            let child = self.nested[i].clone_block();
            proof {
                lemma_blocks_view_push(nested@, child);
                lemma_blocks_view_push(self.nested@.take(i as int), self.nested@[i as int]);
                assert(self.nested@.take(i + 1) =~= self.nested@.take(i as int).push(self.nested@[i as int]));
            }
            nested.push(child);
            i += 1;
        }
        proof {
            assert(self.nested@.take(self.nested.len() as int) =~= self.nested@);
        }
        let mut parts: Vec<Vec<Token>> = Vec::new();
        let mut j: usize = 0;
        while j < self.parts.len()
            invariant
                j <= self.parts.len(),
                parts_view(parts@) == parts_view(self.parts@.take(j as int)),
            decreases self.parts.len() - j,
        {
            let part = clone_tokens(&self.parts[j]);
            proof {
                assert(parts_view(parts@.push(part)) =~= parts_view(parts@).push(part@));
                assert(parts_view(self.parts@.take(j + 1)) =~= parts_view(self.parts@.take(j as int)).push(
                    self.parts@[j as int]@,
                ));
            }
            parts.push(part);
            j += 1;
        }
        proof {
            assert(self.parts@.take(self.parts.len() as int) =~= self.parts@);
            assert(parts_view(parts@) == parts_view(self.parts@));
        }
        TokenBlock {
            annotation_text: self.annotation_text.clone(),
            nested,
            tokens: clone_tokens(&self.tokens),
            parts,
        }
    }

    /// The loose tokens, taken out of the block.
    pub fn tokens_owned(self) -> (r: Vec<Token>)
        ensures
            r@ == self@.tokens,
    {
        self.tokens
    }
}

} // verus!

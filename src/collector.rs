//! The collector: one forward pass over a token sequence.
use vstd::prelude::*;

use garnish_lang_compiler::lex::TokenType;

use crate::block::{
    blocks_view, lemma_blocks_view_last, lemma_blocks_view_len, lemma_blocks_view_push,
    lemma_blocks_view_set_last, parts_view, BlockModel, TokenBlock,
};
use crate::lexer::{lex_tokens, lexed};
use crate::model::{
    add_content, attach, close_all, closed_block, collect, find_sink_from, frame_step,
    frames_valid, group_delta, lemma_pop_frame_valid, lemma_settle_wf,
    names_annotation, part_ends, registered, run, settle,
    state_wf, step, CollectState, FrameModel,
};
use crate::sink::{PartBehavior, Sink};
use crate::text::{has_newline, names};
use crate::token::{same_token_type, Token};

verus! {

/// A block under construction, with where its current part stands.
struct CollectionData {
    sink: usize,
    block: TokenBlock,
    nested_level: i128,
    count: usize,
    current_part: usize,
    current_part_tokens: Vec<Token>,
}

impl CollectionData {
    spec fn view(&self) -> FrameModel {
        FrameModel {
            sink: self.sink as int,
            block: self.block@,
            depth: self.nested_level as int,
            count: self.count as nat,
            part: self.current_part as int,
            buffer: self.current_part_tokens@,
        }
    }

    fn new(sink: usize, block: TokenBlock, nested_level: i128) -> (r: Self)
        ensures
            r@ == (FrameModel {
                sink: sink as int,
                block: block@,
                depth: nested_level as int,
                count: 0,
                part: 0,
                buffer: Seq::empty(),
            }),
    {
        CollectionData {
            sink,
            block,
            nested_level,
            count: 0,
            current_part: 0,
            current_part_tokens: Vec::new(),
        }
    }
}

spec fn frames_view(fs: Seq<CollectionData>) -> Seq<FrameModel> {
    fs.map_values(|f: CollectionData| f@)
}

spec fn state_of(blocks: Seq<TokenBlock>, stack: Seq<CollectionData>, depth: i128) -> CollectState {
    CollectState { forest: blocks_view(blocks), frames: frames_view(stack), depth: depth as int }
}

/// Counts of all frames stay within `n`.
spec fn counts_within(stack: Seq<CollectionData>, n: int) -> bool {
    forall|j: int| 0 <= j < stack.len() ==> #[trigger] stack[j].count <= n
}

proof fn lemma_frames_view_push(fs: Seq<CollectionData>, f: CollectionData)
    ensures
        frames_view(fs.push(f)) == frames_view(fs).push(f@),
{
    assert(frames_view(fs.push(f)) =~= frames_view(fs).push(f@));
}

proof fn lemma_frames_view_pop(fs: Seq<CollectionData>)
    requires
        fs.len() > 0,
    ensures
        frames_view(fs.drop_last()) == frames_view(fs).drop_last(),
        frames_view(fs).last() == fs.last()@,
        frames_view(fs).len() == fs.len(),
{
    assert(frames_view(fs.drop_last()) =~= frames_view(fs).drop_last());
}

/// How a token type changes the nesting depth.
fn depth_change(t: TokenType) -> (r: i128)
    ensures
        r == group_delta(t),
{
    match t {
        TokenType::StartExpression | TokenType::StartGroup | TokenType::StartSideEffect => 1,
        TokenType::EndExpression | TokenType::EndGroup | TokenType::EndSideEffect => -1,
        _ => 0,
    }
}

/// Whether a token type is in the list.
fn is_excluded(excluded: &Vec<TokenType>, t: TokenType) -> (r: bool)
    ensures
        r == excluded@.contains(t),
{
    let mut i: usize = 0;
    while i < excluded.len()
        invariant
            i <= excluded.len(),
            forall|j: int| 0 <= j < i ==> excluded@[j] != t,
        decreases excluded.len() - i,
    {
        if same_token_type(excluded[i], t) {
            return true;
        }
        i += 1;
    }
    false
}

/// Whether the token is an annotation that ends an `UntilAnnotation` part.
fn ends_by_name(b: &PartBehavior, t: &Token) -> (r: bool)
    ensures
        r == names_annotation(*b, *t),
{
    match b {
        PartBehavior::UntilAnnotation(name) => matches!(t.token_type, TokenType::Annotation)
            && names(t.text.as_str(), name.as_str()),
        _ => false,
    }
}

/// Whether a part ends on the token.
fn ends_part(b: &PartBehavior, t: &Token, count: usize, depth: i128, open_depth: i128) -> (r: bool)
    ensures
        r == part_ends(*b, *t, count as nat, depth as int, open_depth as int),
{
    match b {
        PartBehavior::UntilNewline => has_newline(t.text.as_str()),
        PartBehavior::TokenCount(n) => count >= *n,
        PartBehavior::UntilToken(ty) => same_token_type(t.token_type, *ty) && depth <= open_depth,
        PartBehavior::UntilAnnotation(_) => ends_by_name(b, t),
    }
}

/// A token outside every block joins the forest.
fn add_root_content(blocks: &mut Vec<TokenBlock>, t: Token)
    ensures
        blocks_view(final(blocks)@) == add_content(blocks_view(old(blocks)@), t),
{
    let n = blocks.len();
    if n > 0 && blocks[n - 1].annotation_text.as_str().is_empty() {
        proof {
            lemma_blocks_view_last(blocks@);
        }
        let ghost before = blocks@;
        let mut last = blocks.pop().unwrap();
        last.tokens.push(t);
        proof {
            lemma_blocks_view_set_last(before, last);
            assert(before.drop_last() == blocks@);
        }
        blocks.push(last);
    } else {
        proof {
            if n > 0 {
                lemma_blocks_view_last(blocks@);
            }
            lemma_blocks_view_len(blocks@);
        }
        let mut run_tokens: Vec<Token> = Vec::new();
        run_tokens.push(t);
        assert(run_tokens@ =~= seq![t]);
        let b = TokenBlock::with_tokens(run_tokens);
        proof {
            lemma_blocks_view_push(blocks@, b);
        }
        blocks.push(b);
    }
}

/// Hands a finished block to the innermost frame, or to the forest.
fn attach_block(blocks: &mut Vec<TokenBlock>, stack: &mut Vec<CollectionData>, depth: i128, b: TokenBlock)
    ensures
        state_of(final(blocks)@, final(stack)@, depth) == attach(state_of(old(blocks)@, old(stack)@, depth), b@),
        final(stack)@.len() == old(stack)@.len(),
        forall|j: int| 0 <= j < old(stack)@.len() ==> (#[trigger] final(stack)@[j]).count == old(stack)@[j].count,
{
    if stack.len() == 0 {
        proof {
            lemma_blocks_view_push(blocks@, b);
        }
        blocks.push(b);
    } else {
        let ghost before = stack@;
        let mut top = stack.pop().unwrap();
        proof {
            lemma_frames_view_pop(before);
            lemma_blocks_view_push(top.block.nested@, b);
        }
        top.block.nested.push(b);
        proof {
            lemma_frames_view_push(stack@, top);
            assert(frames_view(stack@).push(top@) =~= frames_view(before).update(before.len() - 1, top@));
        }
        stack.push(top);
    }
}

/// Groups tokens into blocks, by a registry of sinks consulted in order.
#[derive(Debug, PartialEq, Eq, Clone)]
pub struct Collector {
    sinks: Vec<Sink>,
}

/// A collector is seen as its registry of sinks.
impl View for Collector {
    type V = Seq<Sink>;

    closed spec fn view(&self) -> Seq<Sink> {
        self.sinks@
    }
}

impl Collector {
    /// A collector over the given sinks; the first sink for an annotation wins.
    pub fn new(sinks: Vec<Sink>) -> (r: Self)
        ensures
            r@ == sinks@,
    {
        Self { sinks }
    }

    /// Pops ended frames off the stack until the innermost one is open.
    fn settle_frames(&self, blocks: &mut Vec<TokenBlock>, stack: &mut Vec<CollectionData>, depth: i128)
        requires
            frames_valid(self@, frames_view(old(stack)@)),
        ensures
            state_of(final(blocks)@, final(stack)@, depth) == settle(self@, state_of(old(blocks)@, old(stack)@, depth)),
            state_wf(self@, state_of(final(blocks)@, final(stack)@, depth)),
            final(stack)@.len() <= old(stack)@.len(),
            forall|j: int| 0 <= j < final(stack)@.len() ==> (#[trigger] final(stack)@[j]).count == old(stack)@[j].count,
    {
        let ghost target = settle(self@, state_of(blocks@, stack@, depth));
        proof {
            lemma_settle_wf(self@, state_of(blocks@, stack@, depth));
        }
        let ghost start = stack@;
        loop
            invariant
                settle(self@, state_of(blocks@, stack@, depth)) == target,
                frames_valid(self@, frames_view(stack@)),
                stack@.len() <= start.len(),
                forall|j: int| 0 <= j < stack@.len() ==> (#[trigger] stack@[j]).count == start[j].count,
            ensures
                state_of(blocks@, stack@, depth) == target,
                stack@.len() <= start.len(),
                forall|j: int| 0 <= j < stack@.len() ==> (#[trigger] stack@[j]).count == start[j].count,
            decreases stack@.len(),
        {
            let n = stack.len();
            if n == 0 {
                break;
            }
            proof {
                lemma_frames_view_pop(stack@);
                assert(frames_view(stack@)[n - 1] == stack@[n - 1]@);
            }
            if stack[n - 1].current_part < self.sinks[stack[n - 1].sink].part_parsers.len() {
                break;
            }
            let ghost before = state_of(blocks@, stack@, depth);
            let data = stack.pop().unwrap();
            proof {
                lemma_pop_frame_valid(self@, before, data.block@);
            }
            attach_block(blocks, stack, depth, data.block);
        }
    }

    /// One token while a frame is open.
    fn frame_token(&self, blocks: &mut Vec<TokenBlock>, stack: &mut Vec<CollectionData>, depth: i128, t: &Token, n: usize)
        requires
            old(stack)@.len() > 0,
            state_wf(self@, state_of(old(blocks)@, old(stack)@, depth)),
            counts_within(old(stack)@, n as int),
            n < usize::MAX,
        ensures
            state_of(final(blocks)@, final(stack)@, depth) == frame_step(
                self@,
                state_of(old(blocks)@, old(stack)@, depth),
                *t,
                depth as int,
            ),
            counts_within(final(stack)@, n + 1),
            state_wf(self@, state_of(final(blocks)@, final(stack)@, depth)),
    {
        let ghost s0 = state_of(blocks@, stack@, depth);
        let ghost old_stack = stack@;
        let mut top = stack.pop().unwrap();
        proof {
            lemma_frames_view_pop(old_stack);
            assert(frames_view(old_stack)[old_stack.len() - 1] == top@);
        }
        let n_parts = self.sinks[top.sink].part_parsers.len();
        let parser = &self.sinks[top.sink].part_parsers[top.current_part];
        let by_name = ends_by_name(&parser.behavior, t);
        let opened = if by_name {
            None
        } else {
            self.registered_sink(t)
        };
        let content = opened.is_none();
        if content {
            if !is_excluded(&parser.excluded, t.token_type) {
                top.count = top.count + 1;
            }
            top.current_part_tokens.push(t.clone());
        }
        let lone = match opened {
            Some(k) => self.sinks[k].part_parsers.len() == 0,
            None => false,
        };
        if lone {
            let b = TokenBlock::with_annotation(t.text.clone());
            proof {
                lemma_blocks_view_push(top.block.nested@, b);
            }
            top.block.nested.push(b);
        }
        if ends_part(&parser.behavior, t, top.count, depth, top.nested_level) {
            let buffer = top.current_part_tokens;
            top.current_part_tokens = Vec::new();
            let ghost parts_before = top.block.parts@;
            top.block.parts.push(buffer);
            proof {
                assert(parts_view(top.block.parts@) =~= parts_view(parts_before).push(buffer@));
            }
            assert(top.current_part < n_parts);
            top.current_part = top.current_part + 1;
        }
        proof {
            lemma_frames_view_push(stack@, top);
            assert(frames_view(stack@).push(top@) =~= frames_view(old_stack).update(old_stack.len() - 1, top@));
        }
        stack.push(top);
        match opened {
            Some(k) => {
                if !lone {
                    let data = CollectionData::new(k, TokenBlock::with_annotation(t.text.clone()), depth);
                    proof {
                        lemma_frames_view_push(stack@, data);
                    }
                    stack.push(data);
                }
            },
            None => {},
        }
        proof {
            let fs = frames_view(stack@);
            assert forall|i: int| 0 <= i < fs.len() implies {
                &&& 0 <= #[trigger] fs[i].sink < self@.len()
                &&& self@[fs[i].sink].part_parsers@.len() > 0
                &&& 0 <= fs[i].part <= self@[fs[i].sink].part_parsers@.len()
            } by {
                if i < old_stack.len() - 1 {
                    assert(fs[i] == frames_view(old_stack)[i]);
                }
            }
        }
        self.settle_frames(blocks, stack, depth);
    }

    /// One token of the pass.
    fn take_token(&self, blocks: &mut Vec<TokenBlock>, stack: &mut Vec<CollectionData>, depth: &mut i128, t: &Token, n: usize)
        requires
            state_wf(self@, state_of(old(blocks)@, old(stack)@, *old(depth))),
            counts_within(old(stack)@, n as int),
            n < usize::MAX,
            -(n as int) <= *old(depth) <= n,
        ensures
            state_of(final(blocks)@, final(stack)@, *final(depth)) == step(
                self@,
                state_of(old(blocks)@, old(stack)@, *old(depth)),
                *t,
            ),
            state_wf(self@, state_of(final(blocks)@, final(stack)@, *final(depth))),
            counts_within(final(stack)@, n + 1),
            -(n + 1) <= *final(depth) <= n + 1,
    {
        *depth = *depth + depth_change(t.token_type);
        if stack.len() > 0 {
            self.frame_token(blocks, stack, *depth, t, n);
            return;
        }
        match self.registered_sink(t) {
            Some(k) => {
                if self.sinks[k].part_parsers.len() == 0 {
                    let b = TokenBlock::with_annotation(t.text.clone());
                    proof {
                        lemma_blocks_view_push(blocks@, b);
                    }
                    blocks.push(b);
                } else {
                    let data = CollectionData::new(k, TokenBlock::with_annotation(t.text.clone()), *depth);
                    proof {
                        lemma_frames_view_push(stack@, data);
                        assert(frames_view(stack@) =~= Seq::<FrameModel>::empty());
                        assert(frames_view(stack@).push(data@) =~= seq![data@]);
                    }
                    stack.push(data);
                }
            },
            None => {
                add_root_content(blocks, t.clone());
            },
        }
    }

    /// Closes every open frame at the end of input, innermost first.
    fn close_frames(&self, blocks: &mut Vec<TokenBlock>, stack: &mut Vec<CollectionData>, depth: i128)
        requires
            frames_valid(self@, frames_view(old(stack)@)),
        ensures
            blocks_view(final(blocks)@) == close_all(self@, state_of(old(blocks)@, old(stack)@, depth)),
    {
        let ghost target = close_all(self@, state_of(blocks@, stack@, depth));
        while stack.len() > 0
            invariant
                close_all(self@, state_of(blocks@, stack@, depth)) == target,
                frames_valid(self@, frames_view(stack@)),
            decreases stack@.len(),
        {
            let ghost before = state_of(blocks@, stack@, depth);
            proof {
                lemma_frames_view_pop(stack@);
            }
            let mut data = stack.pop().unwrap();
            let ghost f = data@;
            assert(f == before.frames.last());
            if data.current_part < self.sinks[data.sink].part_parsers.len() {
                let buffer = data.current_part_tokens;
                data.current_part_tokens = Vec::new();
                let ghost parts_before = data.block.parts@;
                data.block.parts.push(buffer);
                proof {
                    assert(parts_view(data.block.parts@) =~= parts_view(parts_before).push(buffer@));
                }
            }
            assert(data.block@ == closed_block(self@, f));
            proof {
                lemma_pop_frame_valid(self@, before, data.block@);
            }
            attach_block(blocks, stack, depth, data.block);
        }
    }

    /// Groups the tokens into a forest of blocks. It never fails.
    pub fn collect_tokens(&self, tokens: &Vec<Token>) -> (r: Result<Vec<TokenBlock>, String>)
        ensures
            match r {
                Ok(blocks) => blocks_view(blocks@) == collect(self@, tokens@),
                Err(_) => false,
            },
    {
        let mut blocks: Vec<TokenBlock> = Vec::new();
        let mut stack: Vec<CollectionData> = Vec::new();
        let mut depth: i128 = 0;
        let mut i: usize = 0;
        proof {
            assert(tokens@.take(0) =~= Seq::<Token>::empty());
            assert(blocks_view(blocks@) =~= Seq::<BlockModel>::empty());
            assert(frames_view(stack@) =~= Seq::<FrameModel>::empty());
        }
        while i < tokens.len()
            invariant
                i <= tokens.len(),
                state_of(blocks@, stack@, depth) == run(self@, tokens@.take(i as int)),
                state_wf(self@, state_of(blocks@, stack@, depth)),
                counts_within(stack@, i as int),
                -(i as int) <= depth <= i,
            decreases tokens.len() - i,
        {
            proof {
                assert(tokens@.take(i + 1).drop_last() =~= tokens@.take(i as int));
            }
            self.take_token(&mut blocks, &mut stack, &mut depth, &tokens[i], i);
            i += 1;
        }
        proof {
            assert(tokens@.take(i as int) =~= tokens@);
        }
        self.close_frames(&mut blocks, &mut stack, depth);
        Ok(blocks)
    }

    /// Lexes the text with garnish's lexer and groups its tokens; the lexer's
    /// error comes back unchanged, and nothing is collected then.
    pub fn collect_tokens_from_input(&self, input: &str) -> (r: Result<Vec<TokenBlock>, String>)
        ensures
            match lexed(input@) {
                Ok(ts) => r matches Ok(blocks) && blocks_view(blocks@) == collect(self@, ts),
                Err(e) => r matches Err(m) && m@ == e,
            },
    {
        match lex_tokens(input) {
            Ok(tokens) => self.collect_tokens(&tokens),
            Err(e) => Err(e),
        }
    }

    /// The index of the first sink for the token, if it is an annotation.
    fn registered_sink(&self, t: &Token) -> (r: Option<usize>)
        ensures
            match r {
                Some(k) => registered(self@, *t) == Some(k as int) && k < self@.len(),
                None => registered(self@, *t) is None,
            },
    {
        if !matches!(t.token_type, TokenType::Annotation) {
            return None;
        }
        let mut i: usize = 0;
        while i < self.sinks.len()
            invariant
                i <= self.sinks.len(),
                t.token_type == TokenType::Annotation,
                find_sink_from(self@, t.text@, 0) == find_sink_from(self@, t.text@, i as int),
            decreases self.sinks.len() - i,
        {
            if self.sinks[i].annotation_text == t.text {
                return Some(i);
            }
            i += 1;
        }
        None
    }
}

} // verus!

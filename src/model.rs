//! The collection state machine, stated over mathematical values.
use vstd::prelude::*;

use garnish_lang_compiler::lex::TokenType;

use crate::block::BlockModel;
use crate::sink::{PartBehavior, PartParser, Sink};
use crate::token::Token;

verus! {

/// A block under construction.
pub struct FrameModel {
    /// Index of the block's sink in the registry.
    pub sink: int,
    pub block: BlockModel,
    /// The nesting depth when the block opened.
    pub depth: int,
    /// Counted tokens taken by the block so far.
    pub count: nat,
    /// Index of the part being collected.
    pub part: int,
    /// Tokens of the part being collected.
    pub buffer: Seq<Token>,
}

/// The state between two tokens: the finished forest, the stack of blocks
/// under construction (innermost last), and the nesting depth.
pub struct CollectState {
    pub forest: Seq<BlockModel>,
    pub frames: Seq<FrameModel>,
    pub depth: int,
}

/// How a token changes the nesting depth.
pub open spec fn group_delta(t: TokenType) -> int {
    match t {
        TokenType::StartExpression | TokenType::StartGroup | TokenType::StartSideEffect => 1,
        TokenType::EndExpression | TokenType::EndGroup | TokenType::EndSideEffect => -1,
        _ => 0,
    }
}

/// The text without its leading `@` characters.
pub open spec fn strip_leading_at(s: Seq<char>) -> Seq<char>
    decreases s.len(),
{
    if s.len() > 0 && s[0] == '@' {
        strip_leading_at(s.drop_first())
    } else {
        s
    }
}

/// Index of the first sink at or after `from` whose annotation text is `text`.
pub open spec fn find_sink_from(sinks: Seq<Sink>, text: Seq<char>, from: int) -> Option<int>
    decreases sinks.len() - from,
{
    if from < 0 || from >= sinks.len() {
        None
    } else if sinks[from].annotation_text@ == text {
        Some(from)
    } else {
        find_sink_from(sinks, text, from + 1)
    }
}

/// The sink registered for an annotation token: the first one with its text.
/// Other tokens have none.
pub open spec fn registered(sinks: Seq<Sink>, t: Token) -> Option<int> {
    if t.token_type == TokenType::Annotation {
        find_sink_from(sinks, t.text@, 0)
    } else {
        None
    }
}

/// An empty block for a lone annotation.
pub open spec fn lone_block(annotation: Seq<char>) -> BlockModel {
    BlockModel { annotation, tokens: Seq::empty(), parts: Seq::empty(), nested: Seq::empty() }
}

/// An anonymous block holding the given tokens.
pub open spec fn anonymous_block(tokens: Seq<Token>) -> BlockModel {
    BlockModel { annotation: Seq::empty(), tokens, parts: Seq::empty(), nested: Seq::empty() }
}

/// A frame for a block that opens at the given depth.
pub open spec fn open_frame(sink: int, annotation: Seq<char>, depth: int) -> FrameModel {
    FrameModel {
        sink,
        block: lone_block(annotation),
        depth,
        count: 0,
        part: 0,
        buffer: Seq::empty(),
    }
}

/// A token outside every block joins the last root block if that one is
/// anonymous, and starts a new anonymous block otherwise.
pub open spec fn add_content(forest: Seq<BlockModel>, t: Token) -> Seq<BlockModel> {
    if forest.len() > 0 && forest.last().annotation.len() == 0 {
        let last = forest.last();
        forest.update(forest.len() - 1, BlockModel { tokens: last.tokens.push(t), ..last })
    } else {
        forest.push(anonymous_block(seq![t]))
    }
}

/// The number of parts of a frame's sink.
pub open spec fn part_count(sinks: Seq<Sink>, f: FrameModel) -> int {
    sinks[f.sink].part_parsers@.len() as int
}

/// A frame whose parts have all ended.
pub open spec fn frame_ended(sinks: Seq<Sink>, f: FrameModel) -> bool {
    f.part >= part_count(sinks, f)
}

/// The part that a frame is collecting.
pub open spec fn active_part(sinks: Seq<Sink>, f: FrameModel) -> PartParser {
    sinks[f.sink].part_parsers@[f.part]
}

/// An annotation token that ends an `UntilAnnotation` part.
pub open spec fn names_annotation(b: PartBehavior, t: Token) -> bool {
    match b {
        PartBehavior::UntilAnnotation(name) => t.token_type == TokenType::Annotation
            && strip_leading_at(t.text@) == name@,
        _ => false,
    }
}

/// Whether a part ends on token `t`, given the frame's count after the token,
/// the depth after the token and the depth at which the frame opened.
pub open spec fn part_ends(b: PartBehavior, t: Token, count: nat, depth: int, open_depth: int) -> bool {
    match b {
        PartBehavior::UntilNewline => t.text@.contains('\n'),
        PartBehavior::TokenCount(n) => count >= n,
        PartBehavior::UntilToken(ty) => t.token_type == ty && depth <= open_depth,
        PartBehavior::UntilAnnotation(_) => names_annotation(b, t),
    }
}

/// The sink that token `t` opens in state `s`, if any: a registered
/// annotation, unless it ends the active part by name.
pub open spec fn opened_sink(sinks: Seq<Sink>, s: CollectState, t: Token) -> Option<int> {
    if s.frames.len() > 0 && names_annotation(active_part(sinks, s.frames.last()).behavior, t) {
        None
    } else {
        registered(sinks, t)
    }
}

/// Whether token `t` is taken as a block marker rather than as content.
pub open spec fn consumes(sinks: Seq<Sink>, s: CollectState, t: Token) -> bool {
    opened_sink(sinks, s, t) is Some
}

/// Hands a finished block to the innermost open frame, or to the forest.
pub open spec fn attach(s: CollectState, b: BlockModel) -> CollectState {
    if s.frames.len() == 0 {
        CollectState { forest: s.forest.push(b), ..s }
    } else {
        let top = s.frames.last();
        let top2 = FrameModel { block: BlockModel { nested: top.block.nested.push(b), ..top.block }, ..top };
        CollectState { frames: s.frames.update(s.frames.len() - 1, top2), ..s }
    }
}

/// The state without its innermost frame, whose block is handed on.
pub open spec fn pop_frame(s: CollectState, b: BlockModel) -> CollectState {
    attach(CollectState { frames: s.frames.drop_last(), ..s }, b)
}

/// Pops ended frames off the stack until the innermost one is still open.
pub open spec fn settle(sinks: Seq<Sink>, s: CollectState) -> CollectState
    decreases s.frames.len(),
{
    if s.frames.len() > 0 && frame_ended(sinks, s.frames.last()) {
        settle(sinks, pop_frame(s, s.frames.last().block))
    } else {
        s
    }
}

/// A token met while the innermost frame `top` is open.
pub open spec fn frame_step(sinks: Seq<Sink>, s: CollectState, t: Token, depth: int) -> CollectState {
    let top = s.frames.last();
    let parser = active_part(sinks, top);
    let opened = opened_sink(sinks, s, t);
    let content = opened is None;
    let count = if content && !parser.excluded@.contains(t.token_type) {
        top.count + 1
    } else {
        top.count
    };
    let buffer = if content { top.buffer.push(t) } else { top.buffer };
    let lone = opened is Some && sinks[opened->0].part_parsers@.len() == 0;
    let nested = if lone { top.block.nested.push(lone_block(t.text@)) } else { top.block.nested };
    let top2 = if part_ends(parser.behavior, t, count, depth, top.depth) {
        FrameModel {
            block: BlockModel { parts: top.block.parts.push(buffer), nested, ..top.block },
            count,
            part: top.part + 1,
            buffer: Seq::empty(),
            ..top
        }
    } else {
        FrameModel { block: BlockModel { nested, ..top.block }, count, buffer, ..top }
    };
    let frames = s.frames.update(s.frames.len() - 1, top2);
    let frames = if opened is Some && !lone {
        frames.push(open_frame(opened->0, t.text@, depth))
    } else {
        frames
    };
    settle(sinks, CollectState { forest: s.forest, frames, depth })
}

/// One token of the single forward pass.
pub open spec fn step(sinks: Seq<Sink>, s: CollectState, t: Token) -> CollectState {
    let depth = s.depth + group_delta(t.token_type);
    if s.frames.len() == 0 {
        match registered(sinks, t) {
            Some(k) => if sinks[k].part_parsers@.len() == 0 {
                CollectState { forest: s.forest.push(lone_block(t.text@)), frames: s.frames, depth }
            } else {
                CollectState { forest: s.forest, frames: seq![open_frame(k, t.text@, depth)], depth }
            },
            None => CollectState { forest: add_content(s.forest, t), frames: s.frames, depth },
        }
    } else {
        frame_step(sinks, s, t, depth)
    }
}

/// The state after the given tokens, from an empty start.
pub open spec fn run(sinks: Seq<Sink>, ts: Seq<Token>) -> CollectState
    decreases ts.len(),
{
    if ts.len() == 0 {
        CollectState { forest: Seq::empty(), frames: Seq::empty(), depth: 0 }
    } else {
        step(sinks, run(sinks, ts.drop_last()), ts.last())
    }
}

/// A frame's block as closed at the end of input: a part that has not ended
/// keeps what it has taken.
pub open spec fn closed_block(sinks: Seq<Sink>, f: FrameModel) -> BlockModel {
    if f.part < part_count(sinks, f) {
        BlockModel { parts: f.block.parts.push(f.buffer), ..f.block }
    } else {
        f.block
    }
}

/// Closes every open frame, innermost first, and returns the forest.
pub open spec fn close_all(sinks: Seq<Sink>, s: CollectState) -> Seq<BlockModel>
    decreases s.frames.len(),
{
    if s.frames.len() == 0 {
        s.forest
    } else {
        close_all(sinks, pop_frame(s, closed_block(sinks, s.frames.last())))
    }
}

/// The forest that collection yields for the given tokens.
pub open spec fn collect(sinks: Seq<Sink>, ts: Seq<Token>) -> Seq<BlockModel> {
    close_all(sinks, run(sinks, ts))
}

/// Every frame names a sink with parts and a part index within them.
pub open spec fn frames_valid(sinks: Seq<Sink>, frames: Seq<FrameModel>) -> bool {
    forall|i: int|
        0 <= i < frames.len() ==> {
            &&& 0 <= #[trigger] frames[i].sink < sinks.len()
            &&& sinks[frames[i].sink].part_parsers@.len() > 0
            &&& 0 <= frames[i].part <= sinks[frames[i].sink].part_parsers@.len()
        }
}

/// A state that the pass can reach between tokens: its frames are valid and
/// only frames below the innermost one may have ended.
pub open spec fn state_wf(sinks: Seq<Sink>, s: CollectState) -> bool {
    &&& frames_valid(sinks, s.frames)
    &&& s.frames.len() > 0 ==> !frame_ended(sinks, s.frames.last())
}

/// What the lookup of a sink finds.
pub proof fn lemma_find_sink_from(sinks: Seq<Sink>, text: Seq<char>, from: int)
    requires
        0 <= from,
    ensures
        find_sink_from(sinks, text, from) matches Some(k) ==> from <= k < sinks.len()
            && sinks[k].annotation_text@ == text,
    decreases sinks.len() - from,
{
    if from < sinks.len() && sinks[from].annotation_text@ != text {
        lemma_find_sink_from(sinks, text, from + 1);
    }
}

/// Handing a block to a frame keeps the frames valid.
pub proof fn lemma_pop_frame_valid(sinks: Seq<Sink>, s: CollectState, b: BlockModel)
    requires
        s.frames.len() > 0,
        frames_valid(sinks, s.frames),
    ensures
        frames_valid(sinks, pop_frame(s, b).frames),
        pop_frame(s, b).frames.len() == s.frames.len() - 1,
        pop_frame(s, b).depth == s.depth,
{
    let t = pop_frame(s, b);
    assert forall|i: int| 0 <= i < t.frames.len() implies {
        &&& 0 <= #[trigger] t.frames[i].sink < sinks.len()
        &&& sinks[t.frames[i].sink].part_parsers@.len() > 0
        &&& 0 <= t.frames[i].part <= sinks[t.frames[i].sink].part_parsers@.len()
    } by {
        assert(t.frames[i].sink == s.frames[i].sink && t.frames[i].part == s.frames[i].part);
    }
}

/// Settling leaves a state that the pass can reach.
pub proof fn lemma_settle_wf(sinks: Seq<Sink>, s: CollectState)
    requires
        frames_valid(sinks, s.frames),
    ensures
        state_wf(sinks, settle(sinks, s)),
        settle(sinks, s).depth == s.depth,
    decreases s.frames.len(),
{
    if s.frames.len() > 0 && frame_ended(sinks, s.frames.last()) {
        lemma_pop_frame_valid(sinks, s, s.frames.last().block);
        lemma_settle_wf(sinks, pop_frame(s, s.frames.last().block));
    }
}

} // verus!

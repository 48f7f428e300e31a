//! Properties of collection as a whole.
use vstd::multiset::Multiset;
use vstd::prelude::*;

use crate::block::BlockModel;
use crate::model::{
    active_part, add_content, anonymous_block, attach, close_all, closed_block, collect,
    consumes, frame_ended, frames_valid, group_delta, lemma_find_sink_from, names_annotation,
    lemma_pop_frame_valid, lemma_settle_wf, lone_block, open_frame, opened_sink, part_count,
    part_ends, pop_frame, registered, run, settle, state_wf, step, strip_leading_at, CollectState,
    FrameModel,
};
use crate::sink::{PartBehavior, Sink};
use crate::token::Token;

verus! {

broadcast use vstd::seq_lib::group_to_multiset_ensures, vstd::seq_lib::lemma_multiset_commutative,
    vstd::multiset::group_multiset_axioms;

/// The tokens of a sequence of parts, in order.
pub open spec fn parts_tokens(ps: Seq<Seq<Token>>) -> Seq<Token>
    decreases ps.len(),
{
    if ps.len() == 0 {
        Seq::empty()
    } else {
        parts_tokens(ps.drop_last()) + ps.last()
    }
}

/// Every token a block holds: its loose tokens, its parts in order, then
/// the tokens of its children, depth first.
pub open spec fn block_tokens(b: BlockModel) -> Seq<Token>
    decreases b,
{
    b.tokens + parts_tokens(b.parts) + forest_tokens(b.nested)
}

/// Every token of a forest, block after block.
pub open spec fn forest_tokens(bs: Seq<BlockModel>) -> Seq<Token>
    decreases bs,
{
    if bs.len() == 0 {
        Seq::empty()
    } else {
        forest_tokens(bs.drop_last()) + block_tokens(bs.last())
    }
}

/// The input tokens that collection keeps: all but those taken as block
/// markers (an annotation that opens a block, or a lone annotation).
pub open spec fn kept(sinks: Seq<Sink>, ts: Seq<Token>) -> Seq<Token>
    decreases ts.len(),
{
    if ts.len() == 0 {
        Seq::empty()
    } else if consumes(sinks, run(sinks, ts.drop_last()), ts.last()) {
        kept(sinks, ts.drop_last())
    } else {
        kept(sinks, ts.drop_last()).push(ts.last())
    }
}

/// The tokens held by the frames: each block so far, then its current part.
spec fn frames_tokens(fs: Seq<FrameModel>) -> Seq<Token>
    decreases fs.len(),
{
    if fs.len() == 0 {
        Seq::empty()
    } else {
        frames_tokens(fs.drop_last()) + block_tokens(fs.last().block) + fs.last().buffer
    }
}

/// Every token held in a state.
spec fn state_tokens(s: CollectState) -> Seq<Token> {
    forest_tokens(s.forest) + frames_tokens(s.frames)
}

/// A frame whose parts have all ended holds no pending tokens.
spec fn buffers_flushed(sinks: Seq<Sink>, s: CollectState) -> bool {
    forall|i: int|
        0 <= i < s.frames.len() && frame_ended(sinks, #[trigger] s.frames[i]) ==> s.frames[i].buffer.len() == 0
}

proof fn lemma_forest_tokens_push(bs: Seq<BlockModel>, b: BlockModel)
    ensures
        forest_tokens(bs.push(b)) == forest_tokens(bs) + block_tokens(b),
{
    assert(bs.push(b).drop_last() =~= bs);
}

proof fn lemma_parts_tokens_push(ps: Seq<Seq<Token>>, p: Seq<Token>)
    ensures
        parts_tokens(ps.push(p)) == parts_tokens(ps) + p,
{
    assert(ps.push(p).drop_last() =~= ps);
}

/// The tokens of a state, with the innermost frame taken apart.
proof fn lemma_state_tokens_top(s: CollectState)
    requires
        s.frames.len() > 0,
    ensures
        state_tokens(s).to_multiset() == state_tokens(CollectState { frames: s.frames.drop_last(), ..s }).to_multiset().add(
            block_tokens(s.frames.last().block).to_multiset(),
        ).add(s.frames.last().buffer.to_multiset()),
{
    let rest = CollectState { frames: s.frames.drop_last(), ..s };
    let f = s.frames.last();
    assert(frames_tokens(s.frames) == frames_tokens(s.frames.drop_last()) + block_tokens(f.block) + f.buffer);
    assert(state_tokens(s).to_multiset() =~= state_tokens(rest).to_multiset().add(
        block_tokens(f.block).to_multiset(),
    ).add(f.buffer.to_multiset()));
}

/// The state with a different innermost frame.
proof fn lemma_state_tokens_set_top(s: CollectState, f: FrameModel)
    requires
        s.frames.len() > 0,
    ensures
        state_tokens(CollectState { frames: s.frames.update(s.frames.len() - 1, f), ..s }).to_multiset()
            == state_tokens(CollectState { frames: s.frames.drop_last(), ..s }).to_multiset().add(
            block_tokens(f.block).to_multiset(),
        ).add(f.buffer.to_multiset()),
{
    let t = CollectState { frames: s.frames.update(s.frames.len() - 1, f), ..s };
    assert(t.frames.drop_last() =~= s.frames.drop_last());
    lemma_state_tokens_top(t);
}

/// Handing a block on adds its tokens to the state.
proof fn lemma_attach_tokens(s: CollectState, b: BlockModel)
    ensures
        state_tokens(attach(s, b)).to_multiset() == state_tokens(s).to_multiset().add(block_tokens(b).to_multiset()),
{
    if s.frames.len() == 0 {
        lemma_forest_tokens_push(s.forest, b);
        assert(state_tokens(attach(s, b)).to_multiset() =~= state_tokens(s).to_multiset().add(
            block_tokens(b).to_multiset(),
        ));
    } else {
        let top = s.frames.last();
        let top2 = FrameModel { block: BlockModel { nested: top.block.nested.push(b), ..top.block }, ..top };
        lemma_forest_tokens_push(top.block.nested, b);
        lemma_state_tokens_set_top(s, top2);
        lemma_state_tokens_top(s);
        assert(state_tokens(attach(s, b)).to_multiset() =~= state_tokens(s).to_multiset().add(
            block_tokens(b).to_multiset(),
        ));
    }
}

/// Popping the innermost frame and handing on its block loses only its
/// pending tokens.
proof fn lemma_pop_frame_tokens(s: CollectState, b: BlockModel)
    requires
        s.frames.len() > 0,
    ensures
        state_tokens(pop_frame(s, b)).to_multiset().add(block_tokens(s.frames.last().block).to_multiset()).add(
            s.frames.last().buffer.to_multiset(),
        ) == state_tokens(s).to_multiset().add(block_tokens(b).to_multiset()),
{
    let rest = CollectState { frames: s.frames.drop_last(), ..s };
    lemma_attach_tokens(rest, b);
    lemma_state_tokens_top(s);
    assert(state_tokens(pop_frame(s, b)).to_multiset().add(block_tokens(s.frames.last().block).to_multiset()).add(
        s.frames.last().buffer.to_multiset(),
    ) =~= state_tokens(s).to_multiset().add(block_tokens(b).to_multiset()));
}

proof fn lemma_multiset_cancel(a: Multiset<Token>, c: Multiset<Token>, b: Multiset<Token>, e: Multiset<Token>)
    requires
        a.add(b).add(e) == c.add(b.add(e)) || (e =~= Multiset::empty() && a.add(b).add(e) == c.add(b)),
    ensures
        a == c,
{
    assert forall|x: Token| a.count(x) == c.count(x) by {
        assert(a.add(b).add(e).count(x) == a.count(x) + b.count(x) + e.count(x));
    }
    assert(a =~= c);
}

/// Settling moves blocks but keeps every token.
proof fn lemma_settle_tokens(sinks: Seq<Sink>, s: CollectState)
    requires
        frames_valid(sinks, s.frames),
        buffers_flushed(sinks, s),
    ensures
        state_tokens(settle(sinks, s)).to_multiset() == state_tokens(s).to_multiset(),
        buffers_flushed(sinks, settle(sinks, s)),
    decreases s.frames.len(),
{
    if s.frames.len() > 0 && frame_ended(sinks, s.frames.last()) {
        let f = s.frames.last();
        let t = pop_frame(s, f.block);
        assert(f.buffer.len() == 0);
        assert(f.buffer.to_multiset() =~= Multiset::empty());
        lemma_pop_frame_tokens(s, f.block);
        lemma_pop_frame_valid(sinks, s, f.block);
        assert forall|i: int|
            0 <= i < t.frames.len() && frame_ended(sinks, #[trigger] t.frames[i]) implies t.frames[i].buffer.len() == 0 by {
            assert(t.frames[i].buffer == s.frames[i].buffer && t.frames[i].part == s.frames[i].part
                && t.frames[i].sink == s.frames[i].sink);
        }
        lemma_multiset_cancel(state_tokens(t).to_multiset(), state_tokens(s).to_multiset(), block_tokens(f.block).to_multiset(), f.buffer.to_multiset());
        lemma_settle_tokens(sinks, t);
    }
}

/// Closing the frames at the end of input keeps every token.
proof fn lemma_close_all_tokens(sinks: Seq<Sink>, s: CollectState)
    requires
        frames_valid(sinks, s.frames),
        buffers_flushed(sinks, s),
    ensures
        forest_tokens(close_all(sinks, s)).to_multiset() == state_tokens(s).to_multiset(),
    decreases s.frames.len(),
{
    if s.frames.len() == 0 {
        assert(state_tokens(s) =~= forest_tokens(s.forest));
    } else {
        let f = s.frames.last();
        let b = closed_block(sinks, f);
        let t = pop_frame(s, b);
        lemma_pop_frame_tokens(s, b);
        if f.part < part_count(sinks, f) {
            lemma_parts_tokens_push(f.block.parts, f.buffer);
            assert(block_tokens(b).to_multiset() =~= block_tokens(f.block).to_multiset().add(f.buffer.to_multiset()));
        } else {
            assert(f.buffer.to_multiset() =~= Multiset::empty());
        }
        lemma_multiset_cancel(state_tokens(t).to_multiset(), state_tokens(s).to_multiset(), block_tokens(f.block).to_multiset(), f.buffer.to_multiset());
        lemma_pop_frame_valid(sinks, s, b);
        assert forall|i: int|
            0 <= i < t.frames.len() && frame_ended(sinks, #[trigger] t.frames[i]) implies t.frames[i].buffer.len() == 0 by {
            assert(t.frames[i].buffer == s.frames[i].buffer && t.frames[i].part == s.frames[i].part
                && t.frames[i].sink == s.frames[i].sink);
        }
        lemma_close_all_tokens(sinks, t);
    }
}

proof fn lemma_empty_block_tokens(annotation: Seq<char>)
    ensures
        block_tokens(lone_block(annotation)) == Seq::<Token>::empty(),
{
    assert(block_tokens(lone_block(annotation)) =~= Seq::<Token>::empty());
}

/// One step adds the token to the state unless it is taken as a marker.
proof fn lemma_step_tokens(sinks: Seq<Sink>, s: CollectState, t: Token)
    requires
        state_wf(sinks, s),
        buffers_flushed(sinks, s),
    ensures
        state_wf(sinks, step(sinks, s, t)),
        buffers_flushed(sinks, step(sinks, s, t)),
        state_tokens(step(sinks, s, t)).to_multiset() == if consumes(sinks, s, t) {
            state_tokens(s).to_multiset()
        } else {
            state_tokens(s).to_multiset().insert(t)
        },
{
    let depth = s.depth + group_delta(t.token_type);
    let r = step(sinks, s, t);
    lemma_find_sink_from(sinks, t.text@, 0);
    if s.frames.len() == 0 {
        assert(frames_tokens(s.frames) =~= Seq::<Token>::empty());
        match registered(sinks, t) {
            Some(k) => {
                lemma_empty_block_tokens(t.text@);
                if sinks[k].part_parsers@.len() == 0 {
                    lemma_forest_tokens_push(s.forest, lone_block(t.text@));
                    assert(state_tokens(r) =~= state_tokens(s));
                } else {
                    let f = open_frame(k, t.text@, depth);
                    assert(r.frames.drop_last() =~= Seq::<FrameModel>::empty());
                    assert(frames_tokens(r.frames.drop_last()) =~= Seq::<Token>::empty());
                    assert(r.frames.last() == f);
                    assert(frames_tokens(r.frames) =~= Seq::<Token>::empty());
                    assert(state_tokens(r) =~= state_tokens(s));
                }
            },
            None => {
                let forest = s.forest;
                if forest.len() > 0 && forest.last().annotation.len() == 0 {
                    let last = forest.last();
                    let b = BlockModel { tokens: last.tokens.push(t), ..last };
                    assert(forest.update(forest.len() - 1, b).drop_last() =~= forest.drop_last());
                    assert(block_tokens(b).to_multiset() =~= block_tokens(last).to_multiset().insert(t));
                    assert(state_tokens(r).to_multiset() =~= state_tokens(s).to_multiset().insert(t));
                } else {
                    lemma_forest_tokens_push(forest, anonymous_block(seq![t]));
                    assert(block_tokens(anonymous_block(seq![t])) =~= seq![t]);
                    assert(state_tokens(r).to_multiset() =~= state_tokens(s).to_multiset().insert(t));
                }
            },
        }
    } else {
        let top = s.frames.last();
        let parser = active_part(sinks, top);
        let opened = opened_sink(sinks, s, t);
        let content = opened is None;
        let count = if content && !parser.excluded@.contains(t.token_type) {
            top.count + 1
        } else {
            top.count
        };
        let buffer = if content { top.buffer.push(t) } else { top.buffer };
        let lone = opened is Some && sinks[opened->0].part_parsers@.len() == 0;
        let nested = if lone { top.block.nested.push(lone_block(t.text@)) } else { top.block.nested };
        let ends = part_ends(parser.behavior, t, count, depth, top.depth);
        let top2 = if ends {
            FrameModel {
                block: BlockModel { parts: top.block.parts.push(buffer), nested, ..top.block },
                count,
                part: top.part + 1,
                buffer: Seq::empty(),
                ..top
            }
        } else {
            FrameModel { block: BlockModel { nested, ..top.block }, count, buffer, ..top }
        };
        let fs1 = s.frames.update(s.frames.len() - 1, top2);
        let fs = if opened is Some && !lone {
            fs1.push(open_frame(opened->0, t.text@, depth))
        } else {
            fs1
        };
        let x = CollectState { forest: s.forest, frames: fs, depth };
        assert(r == settle(sinks, x));
        // The tokens of the innermost frame, before and after.
        lemma_empty_block_tokens(t.text@);
        lemma_forest_tokens_push(top.block.nested, lone_block(t.text@));
        assert(forest_tokens(nested) == forest_tokens(top.block.nested));
        if ends {
            lemma_parts_tokens_push(top.block.parts, buffer);
        }
        let before = top.buffer.to_multiset().add(block_tokens(top.block).to_multiset());
        let after = top2.buffer.to_multiset().add(block_tokens(top2.block).to_multiset());
        assert(after =~= if content { before.insert(t) } else { before });
        lemma_state_tokens_top(s);
        let x1 = CollectState { forest: s.forest, frames: fs1, depth };
        lemma_state_tokens_set_top(s, top2);
        assert(x1.frames.drop_last() =~= s.frames.drop_last());
        assert(state_tokens(x1).to_multiset() =~= if content {
            state_tokens(s).to_multiset().insert(t)
        } else {
            state_tokens(s).to_multiset()
        });
        if opened is Some && !lone {
            let nf = open_frame(opened->0, t.text@, depth);
            assert(fs.drop_last() =~= fs1);
            assert(frames_tokens(fs) =~= frames_tokens(fs1));
        }
        assert(state_tokens(x).to_multiset() == state_tokens(x1).to_multiset());
        // The frames stay valid and ended frames stay flushed.
        assert forall|i: int|
            0 <= i < x.frames.len() implies {
            &&& 0 <= #[trigger] x.frames[i].sink < sinks.len()
            &&& sinks[x.frames[i].sink].part_parsers@.len() > 0
            &&& 0 <= x.frames[i].part <= sinks[x.frames[i].sink].part_parsers@.len()
        } by {
            if i < s.frames.len() - 1 {
                assert(x.frames[i] == s.frames[i]);
            }
        }
        assert forall|i: int|
            0 <= i < x.frames.len() && frame_ended(sinks, #[trigger] x.frames[i]) implies x.frames[i].buffer.len() == 0 by {
            if i < s.frames.len() - 1 {
                assert(x.frames[i] == s.frames[i]);
            }
        }
        lemma_settle_wf(sinks, x);
        lemma_settle_tokens(sinks, x);
    }
}

/// The state after any input holds exactly the kept tokens.
proof fn lemma_run_tokens(sinks: Seq<Sink>, ts: Seq<Token>)
    ensures
        state_wf(sinks, run(sinks, ts)),
        buffers_flushed(sinks, run(sinks, ts)),
        state_tokens(run(sinks, ts)).to_multiset() == kept(sinks, ts).to_multiset(),
    decreases ts.len(),
{
    if ts.len() == 0 {
        let s = run(sinks, ts);
        assert(state_tokens(s) =~= Seq::<Token>::empty());
    } else {
        lemma_run_tokens(sinks, ts.drop_last());
        lemma_step_tokens(sinks, run(sinks, ts.drop_last()), ts.last());
    }
}

/// No token is lost or duplicated: the tokens of the forest that collection
/// yields, block by block with parts in order and children depth first, are
/// the input tokens less the block markers, each as often as in the input.
/// Only registered annotations are ever taken as markers.
pub proof fn law_tokens_conserved(sinks: Seq<Sink>, ts: Seq<Token>)
    ensures
        forest_tokens(collect(sinks, ts)).to_multiset() == kept(sinks, ts).to_multiset(),
        forall|t: Token|
            registered(sinks, t) is None ==> #[trigger] kept(sinks, ts).to_multiset().count(t) == ts.to_multiset().count(t),
{
    lemma_run_tokens(sinks, ts);
    lemma_close_all_tokens(sinks, run(sinks, ts));
    lemma_kept_unregistered(sinks, ts);
}

/// Tokens without a registered sink are all kept.
proof fn lemma_kept_unregistered(sinks: Seq<Sink>, ts: Seq<Token>)
    ensures
        forall|t: Token|
            registered(sinks, t) is None ==> #[trigger] kept(sinks, ts).to_multiset().count(t) == ts.to_multiset().count(t),
    decreases ts.len(),
{
    if ts.len() > 0 {
        let pre = ts.drop_last();
        lemma_kept_unregistered(sinks, pre);
        assert(pre.push(ts.last()) =~= ts);
        assert(ts.to_multiset() == pre.to_multiset().insert(ts.last()));
        assert forall|t: Token| registered(sinks, t) is None implies #[trigger] kept(sinks, ts).to_multiset().count(t)
            == ts.to_multiset().count(t) by {
            if consumes(sinks, run(sinks, pre), ts.last()) {
                assert(registered(sinks, ts.last()) is Some);
                assert(t != ts.last());
                assert(kept(sinks, ts) == kept(sinks, pre));
            } else {
                assert(kept(sinks, ts) == kept(sinks, pre).push(ts.last()));
                assert(kept(sinks, ts).to_multiset() == kept(sinks, pre).to_multiset().insert(ts.last()));
            }
        }
    }
}

/// Settling never adds frames.
proof fn lemma_settle_shrinks(sinks: Seq<Sink>, s: CollectState)
    ensures
        settle(sinks, s).frames.len() <= s.frames.len(),
    decreases s.frames.len(),
{
    if s.frames.len() > 0 && frame_ended(sinks, s.frames.last()) {
        lemma_settle_shrinks(sinks, pop_frame(s, s.frames.last().block));
    }
}

/// An annotation token without a registered sink is ordinary content: it is
/// never taken as a marker, it opens no frame, and outside every block it
/// joins the forest as content does.
pub proof fn law_unregistered_annotation_is_content(sinks: Seq<Sink>, s: CollectState, t: Token)
    requires
        state_wf(sinks, s),
        t.token_type == garnish_lang_compiler::lex::TokenType::Annotation,
        registered(sinks, t) is None,
    ensures
        !consumes(sinks, s, t),
        step(sinks, s, t).frames.len() <= s.frames.len(),
        s.frames.len() == 0 ==> step(sinks, s, t).forest == add_content(s.forest, t),
{
    if s.frames.len() > 0 {
        let depth = s.depth + group_delta(t.token_type);
        let top = s.frames.last();
        let parser = active_part(sinks, top);
        let count = if !parser.excluded@.contains(t.token_type) { top.count + 1 } else { top.count };
        let buffer = top.buffer.push(t);
        let top2 = if part_ends(parser.behavior, t, count, depth, top.depth) {
            FrameModel {
                block: BlockModel { parts: top.block.parts.push(buffer), ..top.block },
                count,
                part: top.part + 1,
                buffer: Seq::empty(),
                ..top
            }
        } else {
            FrameModel { count, buffer, ..top }
        };
        let x = CollectState { forest: s.forest, frames: s.frames.update(s.frames.len() - 1, top2), depth };
        assert(step(sinks, s, t) == settle(sinks, x));
        lemma_settle_shrinks(sinks, x);
    }
}

/// With no token that has a registered sink, collection yields one
/// anonymous block holding every token, or nothing for empty input.
pub proof fn law_unregistered_tokens_form_one_block(sinks: Seq<Sink>, ts: Seq<Token>)
    requires
        forall|i: int| 0 <= i < ts.len() ==> registered(sinks, #[trigger] ts[i]) is None,
    ensures
        collect(sinks, ts) == if ts.len() == 0 {
            Seq::<BlockModel>::empty()
        } else {
            seq![anonymous_block(ts)]
        },
{
    lemma_run_unregistered(sinks, ts);
}

proof fn lemma_run_unregistered(sinks: Seq<Sink>, ts: Seq<Token>)
    requires
        forall|i: int| 0 <= i < ts.len() ==> registered(sinks, #[trigger] ts[i]) is None,
    ensures
        run(sinks, ts).frames.len() == 0,
        run(sinks, ts).forest == if ts.len() == 0 {
            Seq::<BlockModel>::empty()
        } else {
            seq![anonymous_block(ts)]
        },
    decreases ts.len(),
{
    if ts.len() > 0 {
        let pre = ts.drop_last();
        assert forall|i: int| 0 <= i < pre.len() implies registered(sinks, #[trigger] pre[i]) is None by {
            assert(pre[i] == ts[i]);
        }
        lemma_run_unregistered(sinks, pre);
        assert(registered(sinks, ts[ts.len() - 1]) is None);
        let forest = run(sinks, pre).forest;
        if pre.len() == 0 {
            assert(seq![ts.last()] =~= ts);
            assert(add_content(forest, ts.last()) =~= seq![anonymous_block(ts)]);
        } else {
            assert(pre.push(ts.last()) =~= ts);
            assert(add_content(forest, ts.last()) =~= seq![anonymous_block(ts)]);
        }
    }
}

/// Collecting the tokens of a block's parts again, with no sinks at all,
/// yields one anonymous block holding exactly those tokens.
pub proof fn law_recollect_parts(b: BlockModel)
    requires
        parts_tokens(b.parts).len() > 0,
    ensures
        collect(Seq::<Sink>::empty(), parts_tokens(b.parts)) == seq![anonymous_block(parts_tokens(b.parts))],
{
    let ts = parts_tokens(b.parts);
    assert forall|i: int| 0 <= i < ts.len() implies registered(Seq::<Sink>::empty(), #[trigger] ts[i]) is None by {}
    law_unregistered_tokens_form_one_block(Seq::<Sink>::empty(), ts);
}

/// A state in which some block has a child, or a frame is open inside
/// another: the forest that follows has a block with children.
spec fn branched(s: CollectState) -> bool {
    ||| s.frames.len() >= 2
    ||| exists|i: int| 0 <= i < s.forest.len() && #[trigger] s.forest[i].nested.len() > 0
    ||| exists|i: int| 0 <= i < s.frames.len() && #[trigger] s.frames[i].block.nested.len() > 0
}

/// Anonymous root blocks hold no parts, and open blocks have annotation text.
spec fn anonymous_bare(s: CollectState) -> bool {
    &&& forall|i: int|
        0 <= i < s.forest.len() && #[trigger] s.forest[i].annotation.len() == 0 ==> s.forest[i].parts.len() == 0
    &&& forall|i: int| 0 <= i < s.frames.len() ==> #[trigger] s.frames[i].block.annotation.len() > 0
}

/// Every sink with parts has annotation text.
pub open spec fn named_sinks(sinks: Seq<Sink>) -> bool {
    forall|k: int|
        0 <= k < sinks.len() && #[trigger] sinks[k].part_parsers@.len() > 0 ==> sinks[k].annotation_text@.len() > 0
}

proof fn lemma_attach_branched(s: CollectState, b: BlockModel)
    ensures
        (branched(s) || s.frames.len() > 0 || b.nested.len() > 0) ==> branched(attach(s, b)),
{
    let r = attach(s, b);
    if s.frames.len() > 0 {
        assert(r.frames[r.frames.len() - 1].block.nested.len() > 0);
    } else if b.nested.len() > 0 {
        assert(r.forest[r.forest.len() - 1].nested.len() > 0);
    } else if branched(s) {
        let i = choose|i: int| 0 <= i < s.forest.len() && #[trigger] s.forest[i].nested.len() > 0;
        assert(r.forest[i].nested.len() > 0);
    }
}

proof fn lemma_pop_branched(s: CollectState, b: BlockModel)
    requires
        s.frames.len() > 0,
        b.nested == s.frames.last().block.nested,
        branched(s),
    ensures
        branched(pop_frame(s, b)),
{
    let r = CollectState { frames: s.frames.drop_last(), ..s };
    if s.frames.len() < 2 && b.nested.len() == 0 {
        if exists|i: int| 0 <= i < s.frames.len() && #[trigger] s.frames[i].block.nested.len() > 0 {
            let i = choose|i: int| 0 <= i < s.frames.len() && #[trigger] s.frames[i].block.nested.len() > 0;
            assert(i == s.frames.len() - 1);
        }
        let i = choose|i: int| 0 <= i < s.forest.len() && #[trigger] s.forest[i].nested.len() > 0;
        assert(r.forest[i].nested.len() > 0);
    }
    lemma_attach_branched(r, b);
}

proof fn lemma_settle_branched(sinks: Seq<Sink>, s: CollectState)
    requires
        branched(s),
    ensures
        branched(settle(sinks, s)),
    decreases s.frames.len(),
{
    if s.frames.len() > 0 && frame_ended(sinks, s.frames.last()) {
        lemma_pop_branched(s, s.frames.last().block);
        lemma_settle_branched(sinks, pop_frame(s, s.frames.last().block));
    }
}

/// Once branched, always branched.
proof fn lemma_step_branched(sinks: Seq<Sink>, s: CollectState, t: Token)
    requires
        branched(s),
    ensures
        branched(step(sinks, s, t)),
{
    let r = step(sinks, s, t);
    if s.frames.len() == 0 {
        let i = choose|i: int| 0 <= i < s.forest.len() && #[trigger] s.forest[i].nested.len() > 0;
        assert(r.forest[i].nested.len() > 0);
    } else {
        let depth = s.depth + group_delta(t.token_type);
        let top = s.frames.last();
        let parser = active_part(sinks, top);
        let opened = opened_sink(sinks, s, t);
        let content = opened is None;
        let count = if content && !parser.excluded@.contains(t.token_type) {
            top.count + 1
        } else {
            top.count
        };
        let buffer = if content { top.buffer.push(t) } else { top.buffer };
        let lone = opened is Some && sinks[opened->0].part_parsers@.len() == 0;
        let nested = if lone { top.block.nested.push(lone_block(t.text@)) } else { top.block.nested };
        let top2 = if part_ends(parser.behavior, t, count, depth, top.depth) {
            FrameModel {
                block: BlockModel { parts: top.block.parts.push(buffer), nested, ..top.block },
                count,
                part: top.part + 1,
                buffer: Seq::empty(),
                ..top
            }
        } else {
            FrameModel { block: BlockModel { nested, ..top.block }, count, buffer, ..top }
        };
        let fs1 = s.frames.update(s.frames.len() - 1, top2);
        let fs = if opened is Some && !lone {
            fs1.push(open_frame(opened->0, t.text@, depth))
        } else {
            fs1
        };
        let x = CollectState { forest: s.forest, frames: fs, depth };
        assert(r == settle(sinks, x));
        if s.frames.len() < 2 {
            if exists|i: int| 0 <= i < s.forest.len() && #[trigger] s.forest[i].nested.len() > 0 {
                let i = choose|i: int| 0 <= i < s.forest.len() && #[trigger] s.forest[i].nested.len() > 0;
                assert(x.forest[i].nested.len() > 0);
            } else {
                let i = choose|i: int| 0 <= i < s.frames.len() && #[trigger] s.frames[i].block.nested.len() > 0;
                assert(x.frames[i].block.nested.len() > 0);
            }
        }
        lemma_settle_branched(sinks, x);
    }
}

/// A branched state closes into a forest with a block that has children.
proof fn lemma_close_all_branched(sinks: Seq<Sink>, s: CollectState)
    requires
        branched(s),
    ensures
        exists|i: int| 0 <= i < close_all(sinks, s).len() && #[trigger] close_all(sinks, s)[i].nested.len() > 0,
    decreases s.frames.len(),
{
    if s.frames.len() > 0 {
        let b = closed_block(sinks, s.frames.last());
        lemma_pop_branched(s, b);
        lemma_close_all_branched(sinks, pop_frame(s, b));
        assert(close_all(sinks, s) == close_all(sinks, pop_frame(s, b)));
    } else {
        let i = choose|i: int| 0 <= i < s.forest.len() && #[trigger] s.forest[i].nested.len() > 0;
        assert(close_all(sinks, s)[i].nested.len() > 0);
    }
}

/// Settling a single frame keeps the tokens in order.
proof fn lemma_settle_single(sinks: Seq<Sink>, x: CollectState)
    requires
        x.frames.len() == 1,
        frames_valid(sinks, x.frames),
        frame_ended(sinks, x.frames[0]) ==> x.frames[0].buffer.len() == 0,
        anonymous_bare(x),
    ensures
        state_tokens(settle(sinks, x)) == state_tokens(x),
        anonymous_bare(settle(sinks, x)),
{
    let f = x.frames[0];
    assert(x.frames.drop_last() =~= Seq::<FrameModel>::empty());
    assert(frames_tokens(x.frames.drop_last()) =~= Seq::<Token>::empty());
    assert(frames_tokens(x.frames) =~= block_tokens(f.block) + f.buffer);
    if frame_ended(sinks, f) {
        let y = pop_frame(x, f.block);
        lemma_forest_tokens_push(x.forest, f.block);
        assert(y.frames.len() == 0);
        assert(frames_tokens(y.frames) =~= Seq::<Token>::empty());
        assert(settle(sinks, y) == y);
        assert(state_tokens(y) =~= state_tokens(x));
        assert forall|i: int|
            0 <= i < y.forest.len() && #[trigger] y.forest[i].annotation.len() == 0 implies y.forest[i].parts.len() == 0 by {
            if i < x.forest.len() {
                assert(y.forest[i] == x.forest[i]);
            }
        }
    }
}

/// From a state without branches, a step that leaves none adds the token at
/// the end, unless it is taken as a marker.
proof fn lemma_step_ordered(sinks: Seq<Sink>, s: CollectState, t: Token)
    requires
        named_sinks(sinks),
        state_wf(sinks, s),
        buffers_flushed(sinks, s),
        anonymous_bare(s),
        !branched(s),
        !branched(step(sinks, s, t)),
    ensures
        state_tokens(step(sinks, s, t)) == if consumes(sinks, s, t) {
            state_tokens(s)
        } else {
            state_tokens(s).push(t)
        },
        anonymous_bare(step(sinks, s, t)),
{
    let depth = s.depth + group_delta(t.token_type);
    let r = step(sinks, s, t);
    lemma_find_sink_from(sinks, t.text@, 0);
    if s.frames.len() == 0 {
        assert(frames_tokens(s.frames) =~= Seq::<Token>::empty());
        match registered(sinks, t) {
            Some(k) => {
                lemma_empty_block_tokens(t.text@);
                if sinks[k].part_parsers@.len() == 0 {
                    lemma_forest_tokens_push(s.forest, lone_block(t.text@));
                    assert(state_tokens(r) =~= state_tokens(s));
                    assert forall|i: int|
                        0 <= i < r.forest.len() && #[trigger] r.forest[i].annotation.len() == 0 implies r.forest[i].parts.len()
                            == 0 by {
                        if i < s.forest.len() {
                            assert(r.forest[i] == s.forest[i]);
                        }
                    }
                } else {
                    let f = open_frame(k, t.text@, depth);
                    assert(sinks[k].part_parsers@.len() > 0);
                    assert(r.frames.drop_last() =~= Seq::<FrameModel>::empty());
                    assert(frames_tokens(r.frames.drop_last()) =~= Seq::<Token>::empty());
                    assert(r.frames.last() == f);
                    assert(frames_tokens(r.frames) =~= Seq::<Token>::empty());
                    assert(state_tokens(r) =~= state_tokens(s));
                }
            },
            None => {
                let forest = s.forest;
                if forest.len() > 0 && forest.last().annotation.len() == 0 {
                    let last = forest.last();
                    let b = BlockModel { tokens: last.tokens.push(t), ..last };
                    assert(last.parts.len() == 0);
                    if last.nested.len() > 0 {
                        assert(forest[forest.len() - 1].nested.len() > 0);
                    }
                    assert(last.parts =~= Seq::<Seq<Token>>::empty());
                    assert(last.nested =~= Seq::<BlockModel>::empty());
                    assert(forest.update(forest.len() - 1, b).drop_last() =~= forest.drop_last());
                    assert(parts_tokens(last.parts) =~= Seq::<Token>::empty());
                    assert(forest_tokens(last.nested) =~= Seq::<Token>::empty());
                    assert(block_tokens(b) =~= block_tokens(last).push(t));
                    assert(state_tokens(r) =~= state_tokens(s).push(t));
                    assert forall|i: int|
                        0 <= i < r.forest.len() && #[trigger] r.forest[i].annotation.len() == 0 implies r.forest[i].parts.len()
                            == 0 by {
                        if i < forest.len() - 1 {
                            assert(r.forest[i] == forest[i]);
                        }
                    }
                } else {
                    lemma_forest_tokens_push(forest, anonymous_block(seq![t]));
                    assert(block_tokens(anonymous_block(seq![t])) =~= seq![t]);
                    assert(state_tokens(r) =~= state_tokens(s).push(t));
                    assert forall|i: int|
                        0 <= i < r.forest.len() && #[trigger] r.forest[i].annotation.len() == 0 implies r.forest[i].parts.len()
                            == 0 by {
                        if i < forest.len() {
                            assert(r.forest[i] == forest[i]);
                        }
                    }
                }
            },
        }
    } else {
        let top = s.frames.last();
        let parser = active_part(sinks, top);
        let opened = opened_sink(sinks, s, t);
        let content = opened is None;
        let count = if content && !parser.excluded@.contains(t.token_type) {
            top.count + 1
        } else {
            top.count
        };
        let buffer = if content { top.buffer.push(t) } else { top.buffer };
        let lone = opened is Some && sinks[opened->0].part_parsers@.len() == 0;
        let nested = if lone { top.block.nested.push(lone_block(t.text@)) } else { top.block.nested };
        let ends = part_ends(parser.behavior, t, count, depth, top.depth);
        let top2 = if ends {
            FrameModel {
                block: BlockModel { parts: top.block.parts.push(buffer), nested, ..top.block },
                count,
                part: top.part + 1,
                buffer: Seq::empty(),
                ..top
            }
        } else {
            FrameModel { block: BlockModel { nested, ..top.block }, count, buffer, ..top }
        };
        let fs1 = s.frames.update(s.frames.len() - 1, top2);
        let fs = if opened is Some && !lone {
            fs1.push(open_frame(opened->0, t.text@, depth))
        } else {
            fs1
        };
        let x = CollectState { forest: s.forest, frames: fs, depth };
        assert(r == settle(sinks, x));
        assert(s.frames.len() == 1);
        if opened is Some {
            if !lone {
                assert(x.frames.len() == 2);
            } else {
                assert(x.frames[0].block.nested.len() > 0);
            }
            lemma_settle_branched(sinks, x);
        }
        assert(content);
        if top.block.nested.len() > 0 {
            assert(s.frames[0].block.nested.len() > 0);
        }
        assert(top.block.nested =~= Seq::<BlockModel>::empty());
        assert(forest_tokens(top.block.nested) =~= Seq::<Token>::empty());
        if ends {
            lemma_parts_tokens_push(top.block.parts, buffer);
        }
        assert(s.frames.drop_last() =~= Seq::<FrameModel>::empty());
        assert(fs.drop_last() =~= Seq::<FrameModel>::empty());
        assert(frames_tokens(s.frames.drop_last()) =~= Seq::<Token>::empty());
        assert(frames_tokens(fs.drop_last()) =~= Seq::<Token>::empty());
        assert(frames_tokens(s.frames) =~= block_tokens(top.block) + top.buffer);
        assert(fs.last() == top2);
        assert(frames_tokens(fs) =~= block_tokens(top2.block) + top2.buffer);
        assert(block_tokens(top2.block) + top2.buffer =~= block_tokens(top.block) + top.buffer.push(t));
        assert(state_tokens(x) =~= state_tokens(s).push(t));
        assert(x.frames[0] == top2);
        assert(frames_valid(sinks, x.frames));
        lemma_settle_single(sinks, x);
    }
}

/// Closing at most one frame that has no children keeps the tokens in order.
proof fn lemma_close_ordered(sinks: Seq<Sink>, s: CollectState)
    requires
        s.frames.len() <= 1,
        frames_valid(sinks, s.frames),
        buffers_flushed(sinks, s),
        s.frames.len() == 1 ==> s.frames[0].block.nested.len() == 0,
    ensures
        forest_tokens(close_all(sinks, s)) == state_tokens(s),
{
    if s.frames.len() == 0 {
        assert(state_tokens(s) =~= forest_tokens(s.forest));
    } else {
        let f = s.frames[0];
        let b = closed_block(sinks, f);
        let y = pop_frame(s, b);
        assert(s.frames.drop_last() =~= Seq::<FrameModel>::empty());
        assert(frames_tokens(s.frames.drop_last()) =~= Seq::<Token>::empty());
        assert(frames_tokens(s.frames) =~= block_tokens(f.block) + f.buffer);
        lemma_forest_tokens_push(s.forest, b);
        if f.part < part_count(sinks, f) {
            lemma_parts_tokens_push(f.block.parts, f.buffer);
        } else {
            assert(f.buffer =~= Seq::<Token>::empty());
        }
        assert(f.block.nested =~= Seq::<BlockModel>::empty());
        assert(block_tokens(b) =~= block_tokens(f.block) + f.buffer);
        assert(close_all(sinks, y) == y.forest);
        assert(close_all(sinks, s) == close_all(sinks, y));
        assert(forest_tokens(y.forest) =~= state_tokens(s));
    }
}

/// While no branch has formed, the state holds the kept tokens in order.
proof fn lemma_run_ordered(sinks: Seq<Sink>, ts: Seq<Token>)
    requires
        named_sinks(sinks),
    ensures
        !branched(run(sinks, ts)) ==> state_tokens(run(sinks, ts)) == kept(sinks, ts) && anonymous_bare(run(sinks, ts)),
    decreases ts.len(),
{
    if ts.len() == 0 {
        assert(state_tokens(run(sinks, ts)) =~= Seq::<Token>::empty());
    } else if !branched(run(sinks, ts)) {
        let pre = ts.drop_last();
        lemma_run_ordered(sinks, pre);
        lemma_run_tokens(sinks, pre);
        if branched(run(sinks, pre)) {
            lemma_step_branched(sinks, run(sinks, pre), ts.last());
        }
        lemma_step_ordered(sinks, run(sinks, pre), ts.last());
    }
}

/// Where no block of the result has children, and every sink with parts has
/// annotation text, the tokens of the forest are the kept input tokens in
/// input order. (A child breaks the order: the tokens of its parent's part
/// that follow it are listed before it.)
pub proof fn law_tokens_in_order(sinks: Seq<Sink>, ts: Seq<Token>)
    requires
        named_sinks(sinks),
        forall|i: int| 0 <= i < collect(sinks, ts).len() ==> #[trigger] collect(sinks, ts)[i].nested.len() == 0,
    ensures
        forest_tokens(collect(sinks, ts)) == kept(sinks, ts),
{
    let s = run(sinks, ts);
    lemma_run_tokens(sinks, ts);
    if branched(s) {
        lemma_close_all_branched(sinks, s);
        let i = choose|i: int| 0 <= i < close_all(sinks, s).len() && #[trigger] close_all(sinks, s)[i].nested.len() > 0;
        assert(collect(sinks, ts)[i].nested.len() == 0);
    }
    lemma_run_ordered(sinks, ts);
    if s.frames.len() == 1 && s.frames[0].block.nested.len() > 0 {
        assert(s.frames[0].block.nested.len() > 0);
        assert(branched(s));
    }
    lemma_close_ordered(sinks, s);
}

/// Annotation text that a block may carry: none, or the text of a sink.
pub open spec fn marker_text(sinks: Seq<Sink>, a: Seq<char>) -> bool {
    a.len() == 0 || exists|k: int| 0 <= k < sinks.len() && #[trigger] sinks[k].annotation_text@ == a
}

/// Every block of the forest, at any depth, carries marker text.
pub open spec fn forest_marked(sinks: Seq<Sink>, bs: Seq<BlockModel>) -> bool
    decreases bs,
{
    bs.len() == 0 || (forest_marked(sinks, bs.drop_last()) && block_marked(sinks, bs.last()))
}

/// The block and every block below it carry marker text.
pub open spec fn block_marked(sinks: Seq<Sink>, b: BlockModel) -> bool
    decreases b,
{
    marker_text(sinks, b.annotation) && forest_marked(sinks, b.nested)
}

spec fn state_marked(sinks: Seq<Sink>, s: CollectState) -> bool {
    &&& forest_marked(sinks, s.forest)
    &&& forall|i: int| 0 <= i < s.frames.len() ==> block_marked(sinks, #[trigger] s.frames[i].block)
}

proof fn lemma_forest_marked_push(sinks: Seq<Sink>, bs: Seq<BlockModel>, b: BlockModel)
    ensures
        forest_marked(sinks, bs.push(b)) == (forest_marked(sinks, bs) && block_marked(sinks, b)),
{
    assert(bs.push(b).drop_last() =~= bs);
}

proof fn lemma_forest_marked_set_last(sinks: Seq<Sink>, bs: Seq<BlockModel>, b: BlockModel)
    requires
        bs.len() > 0,
        forest_marked(sinks, bs),
        block_marked(sinks, b),
    ensures
        forest_marked(sinks, bs.update(bs.len() - 1, b)),
{
    assert(bs.update(bs.len() - 1, b).drop_last() =~= bs.drop_last());
}

proof fn lemma_attach_marked(sinks: Seq<Sink>, s: CollectState, b: BlockModel)
    requires
        state_marked(sinks, s),
        block_marked(sinks, b),
    ensures
        state_marked(sinks, attach(s, b)),
{
    let r = attach(s, b);
    if s.frames.len() == 0 {
        lemma_forest_marked_push(sinks, s.forest, b);
    } else {
        let top = s.frames.last();
        lemma_forest_marked_push(sinks, top.block.nested, b);
        assert(block_marked(sinks, top.block));
        assert forall|i: int| 0 <= i < r.frames.len() implies block_marked(sinks, #[trigger] r.frames[i].block) by {
            if i < s.frames.len() - 1 {
                assert(r.frames[i] == s.frames[i]);
            }
        }
    }
}

proof fn lemma_pop_marked(sinks: Seq<Sink>, s: CollectState, b: BlockModel)
    requires
        s.frames.len() > 0,
        state_marked(sinks, s),
        block_marked(sinks, b),
    ensures
        state_marked(sinks, pop_frame(s, b)),
{
    let r = CollectState { frames: s.frames.drop_last(), ..s };
    assert forall|i: int| 0 <= i < r.frames.len() implies block_marked(sinks, #[trigger] r.frames[i].block) by {
        assert(r.frames[i] == s.frames[i]);
    }
    lemma_attach_marked(sinks, r, b);
}

proof fn lemma_settle_marked(sinks: Seq<Sink>, s: CollectState)
    requires
        state_marked(sinks, s),
    ensures
        state_marked(sinks, settle(sinks, s)),
    decreases s.frames.len(),
{
    if s.frames.len() > 0 && frame_ended(sinks, s.frames.last()) {
        assert(block_marked(sinks, s.frames[s.frames.len() - 1].block));
        lemma_pop_marked(sinks, s, s.frames.last().block);
        lemma_settle_marked(sinks, pop_frame(s, s.frames.last().block));
    }
}

proof fn lemma_close_all_marked(sinks: Seq<Sink>, s: CollectState)
    requires
        state_marked(sinks, s),
    ensures
        forest_marked(sinks, close_all(sinks, s)),
    decreases s.frames.len(),
{
    if s.frames.len() > 0 {
        let f = s.frames.last();
        let b = closed_block(sinks, f);
        assert(block_marked(sinks, s.frames[s.frames.len() - 1].block));
        assert(block_marked(sinks, b) == block_marked(sinks, f.block));
        lemma_pop_marked(sinks, s, b);
        lemma_close_all_marked(sinks, pop_frame(s, b));
        assert(close_all(sinks, s) == close_all(sinks, pop_frame(s, b)));
    }
}

proof fn lemma_lone_marked(sinks: Seq<Sink>, t: Token)
    requires
        registered(sinks, t) is Some,
    ensures
        block_marked(sinks, lone_block(t.text@)),
{
    lemma_find_sink_from(sinks, t.text@, 0);
    let k = registered(sinks, t)->0;
    assert(sinks[k].annotation_text@ == t.text@);
    assert(forest_marked(sinks, lone_block(t.text@).nested));
}

proof fn lemma_step_marked(sinks: Seq<Sink>, s: CollectState, t: Token)
    requires
        state_marked(sinks, s),
    ensures
        state_marked(sinks, step(sinks, s, t)),
{
    let r = step(sinks, s, t);
    let depth = s.depth + group_delta(t.token_type);
    if s.frames.len() == 0 {
        match registered(sinks, t) {
            Some(k) => {
                lemma_lone_marked(sinks, t);
                lemma_forest_marked_push(sinks, s.forest, lone_block(t.text@));
                if sinks[k].part_parsers@.len() > 0 {
                    assert(r.frames[0].block == lone_block(t.text@));
                }
            },
            None => {
                let forest = s.forest;
                if forest.len() > 0 && forest.last().annotation.len() == 0 {
                    let last = forest.last();
                    let b = BlockModel { tokens: last.tokens.push(t), ..last };
                    assert(block_marked(sinks, last));
                    assert(block_marked(sinks, b) == block_marked(sinks, last));
                    lemma_forest_marked_set_last(sinks, forest, b);
                } else {
                    let b = anonymous_block(seq![t]);
                    assert(forest_marked(sinks, b.nested));
                    lemma_forest_marked_push(sinks, forest, b);
                }
            },
        }
    } else {
        let top = s.frames.last();
        let parser = active_part(sinks, top);
        let opened = opened_sink(sinks, s, t);
        let content = opened is None;
        let count = if content && !parser.excluded@.contains(t.token_type) {
            top.count + 1
        } else {
            top.count
        };
        let buffer = if content { top.buffer.push(t) } else { top.buffer };
        let lone = opened is Some && sinks[opened->0].part_parsers@.len() == 0;
        let nested = if lone { top.block.nested.push(lone_block(t.text@)) } else { top.block.nested };
        let top2 = if part_ends(parser.behavior, t, count, depth, top.depth) {
            FrameModel {
                block: BlockModel { parts: top.block.parts.push(buffer), nested, ..top.block },
                count,
                part: top.part + 1,
                buffer: Seq::empty(),
                ..top
            }
        } else {
            FrameModel { block: BlockModel { nested, ..top.block }, count, buffer, ..top }
        };
        let fs1 = s.frames.update(s.frames.len() - 1, top2);
        let fs = if opened is Some && !lone {
            fs1.push(open_frame(opened->0, t.text@, depth))
        } else {
            fs1
        };
        let x = CollectState { forest: s.forest, frames: fs, depth };
        assert(r == settle(sinks, x));
        assert(block_marked(sinks, s.frames[s.frames.len() - 1].block));
        if opened is Some {
            lemma_lone_marked(sinks, t);
            lemma_forest_marked_push(sinks, top.block.nested, lone_block(t.text@));
        }
        assert(forest_marked(sinks, nested));
        assert(block_marked(sinks, top2.block));
        assert forall|i: int| 0 <= i < x.frames.len() implies block_marked(sinks, #[trigger] x.frames[i].block) by {
            if i < s.frames.len() - 1 {
                assert(x.frames[i] == s.frames[i]);
            }
        }
        lemma_settle_marked(sinks, x);
    }
}

proof fn lemma_run_marked(sinks: Seq<Sink>, ts: Seq<Token>)
    ensures
        state_marked(sinks, run(sinks, ts)),
    decreases ts.len(),
{
    if ts.len() > 0 {
        lemma_run_marked(sinks, ts.drop_last());
        lemma_step_marked(sinks, run(sinks, ts.drop_last()), ts.last());
    }
}

/// Every block that collection yields, at any depth, is anonymous or carries
/// the text of a registered sink: an annotation without a sink never names a
/// block.
pub proof fn law_blocks_carry_sink_text(sinks: Seq<Sink>, ts: Seq<Token>)
    ensures
        forest_marked(sinks, collect(sinks, ts)),
{
    lemma_run_marked(sinks, ts);
    lemma_close_all_marked(sinks, run(sinks, ts));
}

/// The annotation texts of a block and of every block below it, in
/// pre-order; anonymous blocks add none.
pub open spec fn block_markers(b: BlockModel) -> Seq<Seq<char>>
    decreases b,
{
    (if b.annotation.len() > 0 {
        seq![b.annotation]
    } else {
        Seq::empty()
    }) + forest_markers(b.nested)
}

/// The annotation texts of a forest, block after block, in pre-order.
pub open spec fn forest_markers(bs: Seq<BlockModel>) -> Seq<Seq<char>>
    decreases bs,
{
    if bs.len() == 0 {
        Seq::empty()
    } else {
        forest_markers(bs.drop_last()) + block_markers(bs.last())
    }
}

/// The texts of the input tokens taken as block markers, in input order.
pub open spec fn markers(sinks: Seq<Sink>, ts: Seq<Token>) -> Seq<Seq<char>>
    decreases ts.len(),
{
    if ts.len() == 0 {
        Seq::empty()
    } else if consumes(sinks, run(sinks, ts.drop_last()), ts.last()) {
        markers(sinks, ts.drop_last()).push(ts.last().text@)
    } else {
        markers(sinks, ts.drop_last())
    }
}

/// Every sink has annotation text.
pub open spec fn all_sinks_named(sinks: Seq<Sink>) -> bool {
    forall|k: int| 0 <= k < sinks.len() ==> #[trigger] sinks[k].annotation_text@.len() > 0
}

spec fn frames_markers(fs: Seq<FrameModel>) -> Seq<Seq<char>>
    decreases fs.len(),
{
    if fs.len() == 0 {
        Seq::empty()
    } else {
        frames_markers(fs.drop_last()) + block_markers(fs.last().block)
    }
}

spec fn state_markers(s: CollectState) -> Seq<Seq<char>> {
    forest_markers(s.forest) + frames_markers(s.frames)
}

proof fn lemma_forest_markers_push(bs: Seq<BlockModel>, b: BlockModel)
    ensures
        forest_markers(bs.push(b)) == forest_markers(bs) + block_markers(b),
{
    assert(bs.push(b).drop_last() =~= bs);
}

proof fn lemma_state_markers_set_top(s: CollectState, f: FrameModel)
    requires
        s.frames.len() > 0,
    ensures
        state_markers(CollectState { frames: s.frames.update(s.frames.len() - 1, f), ..s }) == state_markers(
            CollectState { frames: s.frames.drop_last(), ..s },
        ) + block_markers(f.block),
        state_markers(s) == state_markers(CollectState { frames: s.frames.drop_last(), ..s }) + block_markers(
            s.frames.last().block,
        ),
{
    let t = CollectState { frames: s.frames.update(s.frames.len() - 1, f), ..s };
    assert(t.frames.drop_last() =~= s.frames.drop_last());
    let rest = CollectState { frames: s.frames.drop_last(), ..s };
    assert(state_markers(t) =~= state_markers(rest) + block_markers(f.block));
    assert(state_markers(s) =~= state_markers(rest) + block_markers(s.frames.last().block));
}

proof fn lemma_attach_markers(s: CollectState, b: BlockModel)
    ensures
        state_markers(attach(s, b)) == state_markers(s) + block_markers(b),
{
    if s.frames.len() == 0 {
        lemma_forest_markers_push(s.forest, b);
        assert(state_markers(attach(s, b)) =~= state_markers(s) + block_markers(b));
    } else {
        let top = s.frames.last();
        let top2 = FrameModel { block: BlockModel { nested: top.block.nested.push(b), ..top.block }, ..top };
        lemma_forest_markers_push(top.block.nested, b);
        assert(block_markers(top2.block) =~= block_markers(top.block) + block_markers(b));
        lemma_state_markers_set_top(s, top2);
        assert(state_markers(attach(s, b)) =~= state_markers(s) + block_markers(b));
    }
}

proof fn lemma_pop_markers(s: CollectState, b: BlockModel)
    requires
        s.frames.len() > 0,
        b.annotation == s.frames.last().block.annotation,
        b.nested == s.frames.last().block.nested,
    ensures
        state_markers(pop_frame(s, b)) == state_markers(s),
{
    let rest = CollectState { frames: s.frames.drop_last(), ..s };
    lemma_attach_markers(rest, b);
    lemma_state_markers_set_top(s, s.frames.last());
    assert(block_markers(b) == block_markers(s.frames.last().block));
}

proof fn lemma_settle_markers(sinks: Seq<Sink>, s: CollectState)
    ensures
        state_markers(settle(sinks, s)) == state_markers(s),
    decreases s.frames.len(),
{
    if s.frames.len() > 0 && frame_ended(sinks, s.frames.last()) {
        lemma_pop_markers(s, s.frames.last().block);
        lemma_settle_markers(sinks, pop_frame(s, s.frames.last().block));
    }
}

proof fn lemma_close_all_markers(sinks: Seq<Sink>, s: CollectState)
    ensures
        forest_markers(close_all(sinks, s)) == state_markers(s),
    decreases s.frames.len(),
{
    if s.frames.len() == 0 {
        assert(state_markers(s) =~= forest_markers(s.forest));
    } else {
        let b = closed_block(sinks, s.frames.last());
        lemma_pop_markers(s, b);
        lemma_close_all_markers(sinks, pop_frame(s, b));
        assert(close_all(sinks, s) == close_all(sinks, pop_frame(s, b)));
    }
}

proof fn lemma_lone_markers(sinks: Seq<Sink>, t: Token)
    requires
        all_sinks_named(sinks),
        registered(sinks, t) is Some,
    ensures
        block_markers(lone_block(t.text@)) == seq![t.text@],
{
    lemma_find_sink_from(sinks, t.text@, 0);
    let k = registered(sinks, t)->0;
    assert(sinks[k].annotation_text@.len() > 0);
    assert(forest_markers(lone_block(t.text@).nested) =~= Seq::<Seq<char>>::empty());
    assert(block_markers(lone_block(t.text@)) =~= seq![t.text@]);
}

proof fn lemma_step_markers(sinks: Seq<Sink>, s: CollectState, t: Token)
    requires
        all_sinks_named(sinks),
    ensures
        state_markers(step(sinks, s, t)) == if consumes(sinks, s, t) {
            state_markers(s).push(t.text@)
        } else {
            state_markers(s)
        },
{
    let r = step(sinks, s, t);
    let depth = s.depth + group_delta(t.token_type);
    if s.frames.len() == 0 {
        assert(frames_markers(s.frames) =~= Seq::<Seq<char>>::empty());
        match registered(sinks, t) {
            Some(k) => {
                lemma_lone_markers(sinks, t);
                if sinks[k].part_parsers@.len() == 0 {
                    lemma_forest_markers_push(s.forest, lone_block(t.text@));
                } else {
                    assert(r.frames.drop_last() =~= Seq::<FrameModel>::empty());
                    assert(frames_markers(r.frames.drop_last()) =~= Seq::<Seq<char>>::empty());
                    assert(r.frames.last().block == lone_block(t.text@));
                }
                assert(state_markers(r) =~= state_markers(s).push(t.text@));
            },
            None => {
                let forest = s.forest;
                if forest.len() > 0 && forest.last().annotation.len() == 0 {
                    let last = forest.last();
                    let b = BlockModel { tokens: last.tokens.push(t), ..last };
                    assert(forest.update(forest.len() - 1, b).drop_last() =~= forest.drop_last());
                    assert(block_markers(b) == block_markers(last));
                    assert(state_markers(r) =~= state_markers(s));
                } else {
                    let b = anonymous_block(seq![t]);
                    lemma_forest_markers_push(forest, b);
                    assert(forest_markers(b.nested) =~= Seq::<Seq<char>>::empty());
                    assert(block_markers(b) =~= Seq::<Seq<char>>::empty());
                    assert(state_markers(r) =~= state_markers(s));
                }
            },
        }
    } else {
        let top = s.frames.last();
        let parser = active_part(sinks, top);
        let opened = opened_sink(sinks, s, t);
        let content = opened is None;
        let count = if content && !parser.excluded@.contains(t.token_type) {
            top.count + 1
        } else {
            top.count
        };
        let buffer = if content { top.buffer.push(t) } else { top.buffer };
        let lone = opened is Some && sinks[opened->0].part_parsers@.len() == 0;
        let nested = if lone { top.block.nested.push(lone_block(t.text@)) } else { top.block.nested };
        let top2 = if part_ends(parser.behavior, t, count, depth, top.depth) {
            FrameModel {
                block: BlockModel { parts: top.block.parts.push(buffer), nested, ..top.block },
                count,
                part: top.part + 1,
                buffer: Seq::empty(),
                ..top
            }
        } else {
            FrameModel { block: BlockModel { nested, ..top.block }, count, buffer, ..top }
        };
        let fs1 = s.frames.update(s.frames.len() - 1, top2);
        let fs = if opened is Some && !lone {
            fs1.push(open_frame(opened->0, t.text@, depth))
        } else {
            fs1
        };
        let x = CollectState { forest: s.forest, frames: fs, depth };
        assert(r == settle(sinks, x));
        let x1 = CollectState { forest: s.forest, frames: fs1, depth };
        lemma_state_markers_set_top(s, top2);
        if opened is Some {
            lemma_lone_markers(sinks, t);
        }
        if lone {
            lemma_forest_markers_push(top.block.nested, lone_block(t.text@));
            assert(block_markers(top2.block) =~= block_markers(top.block) + seq![t.text@]);
            assert(state_markers(x1) =~= state_markers(s).push(t.text@));
        } else {
            assert(block_markers(top2.block) == block_markers(top.block));
            assert(state_markers(x1) == state_markers(s));
        }
        if opened is Some && !lone {
            assert(fs.drop_last() =~= fs1);
            assert(state_markers(x) =~= state_markers(x1) + block_markers(lone_block(t.text@)));
        }
        lemma_settle_markers(sinks, x);
    }
}

proof fn lemma_run_markers(sinks: Seq<Sink>, ts: Seq<Token>)
    requires
        all_sinks_named(sinks),
    ensures
        state_markers(run(sinks, ts)) == markers(sinks, ts),
    decreases ts.len(),
{
    if ts.len() == 0 {
        assert(state_markers(run(sinks, ts)) =~= Seq::<Seq<char>>::empty());
    } else {
        lemma_run_markers(sinks, ts.drop_last());
        lemma_step_markers(sinks, run(sinks, ts.drop_last()), ts.last());
    }
}

/// One block per marker, in order: listed in pre-order (a block, then its
/// children, then its next sibling), the annotated blocks that collection
/// yields carry the texts of the tokens taken as markers, in input order.
pub proof fn law_one_block_per_marker(sinks: Seq<Sink>, ts: Seq<Token>)
    requires
        all_sinks_named(sinks),
    ensures
        forest_markers(collect(sinks, ts)) == markers(sinks, ts),
{
    lemma_run_markers(sinks, ts);
    lemma_close_all_markers(sinks, run(sinks, ts));
}

/// Every open block holds exactly the parts that have ended.
spec fn parts_aligned(s: CollectState) -> bool {
    forall|i: int| 0 <= i < s.frames.len() ==> #[trigger] s.frames[i].block.parts.len() == s.frames[i].part
}

proof fn lemma_pop_aligned(s: CollectState, b: BlockModel)
    requires
        s.frames.len() > 0,
        parts_aligned(s),
    ensures
        parts_aligned(pop_frame(s, b)),
{
    let r = pop_frame(s, b);
    assert forall|i: int| 0 <= i < r.frames.len() implies #[trigger] r.frames[i].block.parts.len() == r.frames[i].part by {
        assert(r.frames[i].block.parts == s.frames[i].block.parts && r.frames[i].part == s.frames[i].part);
    }
}

proof fn lemma_settle_aligned(sinks: Seq<Sink>, s: CollectState)
    requires
        parts_aligned(s),
    ensures
        parts_aligned(settle(sinks, s)),
    decreases s.frames.len(),
{
    if s.frames.len() > 0 && frame_ended(sinks, s.frames.last()) {
        lemma_pop_aligned(s, s.frames.last().block);
        lemma_settle_aligned(sinks, pop_frame(s, s.frames.last().block));
    }
}

proof fn lemma_step_aligned(sinks: Seq<Sink>, s: CollectState, t: Token)
    requires
        parts_aligned(s),
    ensures
        parts_aligned(step(sinks, s, t)),
{
    let r = step(sinks, s, t);
    let depth = s.depth + group_delta(t.token_type);
    if s.frames.len() > 0 {
        let top = s.frames.last();
        let parser = active_part(sinks, top);
        let opened = opened_sink(sinks, s, t);
        let content = opened is None;
        let count = if content && !parser.excluded@.contains(t.token_type) {
            top.count + 1
        } else {
            top.count
        };
        let buffer = if content { top.buffer.push(t) } else { top.buffer };
        let lone = opened is Some && sinks[opened->0].part_parsers@.len() == 0;
        let nested = if lone { top.block.nested.push(lone_block(t.text@)) } else { top.block.nested };
        let top2 = if part_ends(parser.behavior, t, count, depth, top.depth) {
            FrameModel {
                block: BlockModel { parts: top.block.parts.push(buffer), nested, ..top.block },
                count,
                part: top.part + 1,
                buffer: Seq::empty(),
                ..top
            }
        } else {
            FrameModel { block: BlockModel { nested, ..top.block }, count, buffer, ..top }
        };
        let fs1 = s.frames.update(s.frames.len() - 1, top2);
        let fs = if opened is Some && !lone {
            fs1.push(open_frame(opened->0, t.text@, depth))
        } else {
            fs1
        };
        let x = CollectState { forest: s.forest, frames: fs, depth };
        assert(r == settle(sinks, x));
        assert(s.frames[s.frames.len() - 1].block.parts.len() == s.frames[s.frames.len() - 1].part);
        assert forall|i: int| 0 <= i < x.frames.len() implies #[trigger] x.frames[i].block.parts.len() == x.frames[i].part by {
            if i < s.frames.len() - 1 {
                assert(x.frames[i] == s.frames[i]);
            }
        }
        lemma_settle_aligned(sinks, x);
    } else {
        assert forall|i: int| 0 <= i < r.frames.len() implies #[trigger] r.frames[i].block.parts.len() == r.frames[i].part by {
            assert(r.frames[i].block.parts.len() == 0);
        }
    }
}

proof fn lemma_run_aligned(sinks: Seq<Sink>, ts: Seq<Token>)
    ensures
        parts_aligned(run(sinks, ts)),
    decreases ts.len(),
{
    if ts.len() > 0 {
        lemma_run_aligned(sinks, ts.drop_last());
        lemma_step_aligned(sinks, run(sinks, ts.drop_last()), ts.last());
    }
}

/// At the end of input every open block holds exactly the parts that have
/// ended, and the innermost one is closed with the tokens its current part
/// has taken (none, too) as one more part, then handed on as natural closure
/// hands a block on; the blocks around it are closed the same way in turn.
pub proof fn law_end_of_input(sinks: Seq<Sink>, ts: Seq<Token>)
    ensures
        forall|i: int|
            0 <= i < run(sinks, ts).frames.len() ==> #[trigger] run(sinks, ts).frames[i].block.parts.len()
                == run(sinks, ts).frames[i].part,
        run(sinks, ts).frames.len() > 0 ==> {
            let s = run(sinks, ts);
            let f = s.frames.last();
            &&& closed_block(sinks, f).parts == f.block.parts.push(f.buffer)
            &&& collect(sinks, ts) == close_all(sinks, pop_frame(s, closed_block(sinks, f)))
        },
{
    lemma_run_aligned(sinks, ts);
    lemma_run_tokens(sinks, ts);
}

/// How a part ends. While a block is open, a token that is not a marker joins
/// the current part and is counted unless its type is excluded. The part then
/// stays open, or ends with that token as its last one when its rule says so:
/// `UntilNewline` on a token whose text holds a newline; `TokenCount(n)` once
/// the count reaches `n`; `UntilToken(ty)` on a token of type `ty` that brings
/// the depth back to where the block opened or above, so that a deeper one
/// leaves it open; `UntilAnnotation(name)` on an annotation naming `name`,
/// which is never taken as a marker. A marker that opens a block leaves the
/// count of the enclosing block as it was.
pub proof fn law_part_ends_by_rule(sinks: Seq<Sink>, s: CollectState, t: Token)
    requires
        state_wf(sinks, s),
        s.frames.len() > 0,
    ensures
        ({
            let top = s.frames.last();
            let parser = active_part(sinks, top);
            let depth = s.depth + group_delta(t.token_type);
            let count = if parser.excluded@.contains(t.token_type) { top.count } else { top.count + 1 };
            let ends = part_ends(parser.behavior, t, count, depth, top.depth);
            let kept_open = FrameModel { count, buffer: top.buffer.push(t), ..top };
            let closed = FrameModel {
                block: BlockModel { parts: top.block.parts.push(top.buffer.push(t)), ..top.block },
                count,
                part: top.part + 1,
                buffer: Seq::empty(),
                ..top
            };
            &&& names_annotation(parser.behavior, t) ==> !consumes(sinks, s, t)
            &&& match parser.behavior {
                PartBehavior::UntilNewline => ends == t.text@.contains('\n'),
                PartBehavior::TokenCount(n) => ends == (count >= n),
                PartBehavior::UntilToken(ty) => ends == (t.token_type == ty && depth <= top.depth),
                PartBehavior::UntilAnnotation(name) => ends == (t.token_type
                    == garnish_lang_compiler::lex::TokenType::Annotation && strip_leading_at(t.text@) == name@),
            }
            &&& !consumes(sinks, s, t) && !ends ==> step(sinks, s, t) == CollectState {
                frames: s.frames.update(s.frames.len() - 1, kept_open),
                depth,
                ..s
            }
            &&& !consumes(sinks, s, t) && ends && top.part + 1 < part_count(sinks, top) ==> step(sinks, s, t)
                == CollectState { frames: s.frames.update(s.frames.len() - 1, closed), depth, ..s }
            &&& !consumes(sinks, s, t) && ends && top.part + 1 >= part_count(sinks, top) ==> step(sinks, s, t)
                == settle(sinks, pop_frame(CollectState { depth, ..s }, closed.block))
            &&& consumes(sinks, s, t) && sinks[opened_sink(sinks, s, t)->0].part_parsers@.len() > 0 ==> step(
                sinks,
                s,
                t,
            ).frames[s.frames.len() - 1].count == top.count
        }),
{
    let top = s.frames.last();
    let parser = active_part(sinks, top);
    let depth = s.depth + group_delta(t.token_type);
    let count = if parser.excluded@.contains(t.token_type) { top.count } else { top.count + 1 };
    let ends = part_ends(parser.behavior, t, count, depth, top.depth);
    let opened = opened_sink(sinks, s, t);
    lemma_find_sink_from(sinks, t.text@, 0);
    if opened is None {
        let closed = FrameModel {
            block: BlockModel { parts: top.block.parts.push(top.buffer.push(t)), ..top.block },
            count,
            part: top.part + 1,
            buffer: Seq::empty(),
            ..top
        };
        let x = CollectState { frames: s.frames.update(s.frames.len() - 1, closed), depth, ..s };
        if ends && top.part + 1 >= part_count(sinks, top) {
            assert(x.frames.last() == closed);
            assert(frame_ended(sinks, closed));
            assert(x.frames.drop_last() =~= s.frames.drop_last());
            assert(pop_frame(x, closed.block) == pop_frame(CollectState { depth, ..s }, closed.block));
        }
    } else if sinks[opened->0].part_parsers@.len() > 0 {
        let k = opened->0;
        assert(0 <= k < sinks.len());
        let f = open_frame(k, t.text@, depth);
        assert(!frame_ended(sinks, f));
    }
}

} // verus!

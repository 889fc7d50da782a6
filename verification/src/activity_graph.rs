//! Which nodes an activity diagram's events place, and which structural
//! edges join them, before anything is measured: the nodes in placing order,
//! the closed `if` blocks, the loop-backs of `repeat` blocks (with or without
//! a backward action) and the edges from each `break` to the exit diamond of
//! its `repeat` block.

use vstd::prelude::*;
use crate::activity::{lane_after, lemma_node_lanes_step, node_lanes_spec, ActivityNodeTag, ActivityNoteModeLayout, OrderNode};
use crate::activity_scan::{
    first_bar_from, goto_count_before, last_goto_before, last_stop_before, last_stop_index,
    sync_bar_goto_count, sync_bar_last_ref, sync_bar_last_ref_spec, ActivityEventTag,
};
use crate::text::str_eq;

verus! {

/// What the events read so far have decided of the graph.
pub struct GraphDraft {
    /// The nodes placed so far; each one's index is its position.
    pub nodes: Seq<OrderNode>,
    /// The last node that joined the flow.
    pub last_flow: Option<usize>,
    /// The open `if` blocks: the diamond and the last flow node before it.
    pub ifs: Seq<(usize, Option<usize>)>,
    /// The open `repeat` blocks: the opening diamond, whether a backward
    /// action was given, and where the block's break sources start in `pending`.
    pub repeats: Seq<(usize, bool, usize)>,
    /// The break sources of the open `repeat` blocks: the last flow node
    /// before each `break`, if any.
    pub pending: Seq<Option<usize>>,
    /// The diamonds of the closed `if` blocks, in closing order.
    pub if_diamonds: Seq<usize>,
    /// (hexagon, opening diamond) of each closed `repeat` block without a backward action.
    pub loopbacks: Seq<(usize, usize)>,
    /// (hexagon, opening diamond) of each closed `repeat` block with a backward action.
    pub backward_frames: Seq<(usize, usize)>,
    /// (source, exit diamond) of each `break` edge.
    pub breaks: Seq<(usize, usize)>,
}

/// Nothing decided yet.
pub open spec fn empty_draft() -> GraphDraft {
    GraphDraft {
        nodes: Seq::empty(),
        last_flow: None,
        ifs: Seq::empty(),
        repeats: Seq::empty(),
        pending: Seq::empty(),
        if_diamonds: Seq::empty(),
        loopbacks: Seq::empty(),
        backward_frames: Seq::empty(),
        breaks: Seq::empty(),
    }
}

/// Places a node of kind `kind`; a flow node becomes the last flow node.
pub open spec fn with_node(d: GraphDraft, kind: ActivityNodeTag, skip: bool, flow: bool) -> GraphDraft {
    let n = d.nodes.len() as usize;
    GraphDraft {
        nodes: d.nodes.push(OrderNode { index: n, kind: kind, skip_in_flow: skip }),
        last_flow: if flow { Some(n) } else { d.last_flow },
        ..d
    }
}

/// Event `e` is the label `name`.
pub open spec fn is_label(e: ActivityEventTag, name: Seq<char>) -> bool {
    e matches ActivityEventTag::Label(l) && l@ == name
}

/// The label `name` occurs among the first `k` events.
pub open spec fn label_before(ev: Seq<ActivityEventTag>, k: int, name: Seq<char>) -> bool {
    exists|j: int| 0 <= j < k && #[trigger] is_label(ev[j], name)
}

/// The edges from the break sources that have a node to the exit diamond.
pub open spec fn break_edges_from(src: Seq<Option<usize>>, exit: usize) -> Seq<(usize, usize)>
    decreases src.len(),
{
    if src.len() == 0 {
        Seq::empty()
    } else {
        let r = break_edges_from(src.drop_last(), exit);
        match src.last() {
            Some(s) => r.push((s, exit)),
            None => r,
        }
    }
}

/// Closes the innermost `repeat` block at its hexagon `hex` (the last node
/// placed): an exit diamond follows when the block has breaks, and the block
/// gets its loop-back, plain or through a backward action.
pub open spec fn close_repeat(d: GraphDraft, hex: usize) -> GraphDraft {
    let t = d.repeats.last();
    let src = d.pending.subrange(t.2 as int, d.pending.len() as int);
    let d2 = if src.len() > 0 {
        with_node(d, ActivityNodeTag::Diamond, false, false)
    } else {
        d
    };
    GraphDraft {
        repeats: d.repeats.drop_last(),
        pending: d.pending.subrange(0, t.2 as int),
        loopbacks: if t.1 {
            d.loopbacks
        } else {
            d.loopbacks.push((hex, t.0))
        },
        backward_frames: if t.1 {
            d.backward_frames.push((hex, t.0))
        } else {
            d.backward_frames
        },
        breaks: d.breaks + break_edges_from(src, (hex + 1) as usize),
        ..d2
    }
}

/// What event `k` decides, given what the earlier ones decided.
pub open spec fn draft_step(ev: Seq<ActivityEventTag>, old: bool, k: int, d: GraphDraft) -> GraphDraft {
    let n = d.nodes.len() as usize;
    match ev[k] {
        ActivityEventTag::Start => with_node(d, ActivityNodeTag::Start, false, true),
        ActivityEventTag::Stop => {
            let shared = match last_stop_before(ev, ev.len() as int) {
                Some(l) => old && k < l,
                None => false,
            };
            if shared {
                d
            } else {
                with_node(d, ActivityNodeTag::Stop, false, true)
            }
        },
        ActivityEventTag::Action => with_node(d, ActivityNodeTag::Action, d.ifs.len() > 0, true),
        ActivityEventTag::If => if old {
            with_node(d, ActivityNodeTag::Diamond, false, true)
        } else {
            let d1 = with_node(d, ActivityNodeTag::IfDiamond, true, true);
            GraphDraft { ifs: d.ifs.push((n, d.last_flow)), ..d1 }
        },
        ActivityEventTag::ElseIf => with_node(d, ActivityNodeTag::Diamond, false, true),
        ActivityEventTag::Else => if old {
            d
        } else if d.ifs.len() > 0 {
            GraphDraft { last_flow: Some(d.ifs.last().0), ..d }
        } else {
            with_node(d, ActivityNodeTag::Diamond, false, true)
        },
        ActivityEventTag::EndIf => if old {
            d
        } else if d.ifs.len() > 0 {
            GraphDraft {
                ifs: d.ifs.drop_last(),
                if_diamonds: d.if_diamonds.push(d.ifs.last().0),
                last_flow: d.ifs.last().1,
                ..d
            }
        } else {
            with_node(d, ActivityNodeTag::Diamond, false, true)
        },
        ActivityEventTag::While => with_node(d, ActivityNodeTag::Diamond, false, true),
        ActivityEventTag::EndWhile => with_node(d, ActivityNodeTag::Diamond, false, true),
        ActivityEventTag::Repeat => {
            let d1 = with_node(d, ActivityNodeTag::Diamond, false, true);
            GraphDraft { repeats: d.repeats.push((n, false, d.pending.len() as usize)), ..d1 }
        },
        ActivityEventTag::RepeatWhile => {
            let d1 = with_node(d, ActivityNodeTag::Hexagon, false, true);
            if d.repeats.len() > 0 {
                close_repeat(d1, n)
            } else {
                d1
            }
        },
        ActivityEventTag::Fork => with_node(d, ActivityNodeTag::ForkBar, false, true),
        ActivityEventTag::ForkAgain => with_node(d, ActivityNodeTag::ForkBar, false, true),
        ActivityEventTag::EndFork => with_node(d, ActivityNodeTag::ForkBar, false, true),
        ActivityEventTag::Swimlane(_) => d,
        ActivityEventTag::Note(p) => with_node(
            d,
            ActivityNodeTag::Note { position: p, mode: ActivityNoteModeLayout::Grouped },
            false,
            false,
        ),
        ActivityEventTag::FloatingNote(p) => with_node(
            d,
            ActivityNodeTag::FloatingNote { position: p, mode: ActivityNoteModeLayout::Grouped },
            false,
            false,
        ),
        ActivityEventTag::Detach => with_node(d, ActivityNodeTag::Detach, false, true),
        ActivityEventTag::SyncBar(name) => if old && goto_count_before(ev, name@, ev.len() as int) > 0
            && sync_bar_last_ref_spec(ev, name@) != Some(k) {
            d
        } else {
            with_node(d, ActivityNodeTag::SyncBar, false, true)
        },
        ActivityEventTag::GotoSyncBar(name) => if old && sync_bar_last_ref_spec(ev, name@) == Some(k) {
            with_node(d, ActivityNodeTag::SyncBar, false, true)
        } else {
            d
        },
        ActivityEventTag::ResumeFromSyncBar(_) => d,
        ActivityEventTag::Label(_) => d,
        ActivityEventTag::Goto(name) => if d.ifs.len() > 0 && label_before(ev, k, name@) {
            with_node(d, ActivityNodeTag::GotoLines, true, false)
        } else {
            d
        },
        ActivityEventTag::Backward => if d.repeats.len() > 0 {
            let t = d.repeats.last();
            GraphDraft { repeats: d.repeats.drop_last().push((t.0, true, t.2)), ..d }
        } else {
            d
        },
        ActivityEventTag::Break => if d.repeats.len() > 0 {
            GraphDraft { pending: d.pending.push(d.last_flow), ..d }
        } else {
            d
        },
    }
}

/// What the first `k` events decide.
pub open spec fn draft_upto(ev: Seq<ActivityEventTag>, old: bool, k: int) -> GraphDraft
    decreases k,
{
    if k <= 0 {
        empty_draft()
    } else {
        draft_step(ev, old, k - 1, draft_upto(ev, old, k - 1))
    }
}

/// `o` names no node at or after `n`.
pub open spec fn opt_below(o: Option<usize>, n: int) -> bool {
    match o {
        Some(s) => s < n,
        None => true,
    }
}

/// Every index the draft holds names a node already placed, each node's
/// index is its position, every loop-back goes back to an earlier node, every
/// break edge goes forward, and the break sources of each open `repeat` block
/// lie after those of the blocks around it.
pub open spec fn draft_wf(d: GraphDraft) -> bool {
    let n = d.nodes.len() as int;
    &&& forall|q: int| 0 <= q < n ==> (#[trigger] d.nodes[q]).index == q
    &&& opt_below(d.last_flow, n)
    &&& forall|i: int|
        0 <= i < d.ifs.len() ==> (#[trigger] d.ifs[i]).0 < n && opt_below(d.ifs[i].1, n)
    &&& forall|i: int|
        0 <= i < d.repeats.len() ==> (#[trigger] d.repeats[i]).0 < n && d.repeats[i].2
            <= d.pending.len()
    &&& forall|i: int, j: int|
        0 <= i < j < d.repeats.len() ==> #[trigger] d.repeats[i].2 <= #[trigger] d.repeats[j].2
    &&& forall|i: int| 0 <= i < d.pending.len() ==> opt_below(#[trigger] d.pending[i], n)
    &&& forall|i: int| 0 <= i < d.if_diamonds.len() ==> #[trigger] d.if_diamonds[i] < n
    &&& forall|i: int|
        0 <= i < d.loopbacks.len() ==> (#[trigger] d.loopbacks[i]).1 < d.loopbacks[i].0 < n
    &&& forall|i: int|
        0 <= i < d.backward_frames.len() ==> (#[trigger] d.backward_frames[i]).1
            < d.backward_frames[i].0 < n
    &&& forall|i: int| 0 <= i < d.breaks.len() ==> (#[trigger] d.breaks[i]).0 < d.breaks[i].1 < n
}

/// Every break edge built from sources below `n` goes from one of them to `exit`.
pub proof fn lemma_break_edges_from(src: Seq<Option<usize>>, exit: usize, n: int)
    requires
        forall|i: int| 0 <= i < src.len() ==> opt_below(#[trigger] src[i], n),
    ensures
        forall|i: int|
            0 <= i < break_edges_from(src, exit).len() ==> (#[trigger] break_edges_from(src, exit)[i]).0
                < n && break_edges_from(src, exit)[i].1 == exit,
        break_edges_from(src, exit).len() <= src.len(),
    decreases src.len(),
{
    if src.len() > 0 {
        let sd = src.drop_last();
        assert forall|i: int| 0 <= i < sd.len() implies opt_below(#[trigger] sd[i], n) by {
            assert(sd[i] == src[i]);
        }
        lemma_break_edges_from(sd, exit, n);
        assert(opt_below(src[src.len() - 1], n));
    }
}

/// Placing a node keeps the draft well formed.
pub proof fn lemma_with_node_wf(d: GraphDraft, kind: ActivityNodeTag, skip: bool, flow: bool)
    requires
        draft_wf(d),
        d.nodes.len() < usize::MAX,
    ensures
        draft_wf(with_node(d, kind, skip, flow)),
        with_node(d, kind, skip, flow).nodes.len() == d.nodes.len() + 1,
{
    let d1 = with_node(d, kind, skip, flow);
    let n = d.nodes.len() as int;
    assert forall|i: int| 0 <= i < d1.pending.len() implies opt_below(#[trigger] d1.pending[i], n + 1) by {
        assert(opt_below(d.pending[i], n));
    }
    assert forall|i: int| 0 <= i < d1.ifs.len() implies (#[trigger] d1.ifs[i]).0 < n + 1 && opt_below(
        d1.ifs[i].1,
        n + 1,
    ) by {
        assert(opt_below(d.ifs[i].1, n));
    }
}

/// One event keeps the draft well formed and places at most two nodes and
/// at most one backward action.
#[verifier::rlimit(40)]
pub proof fn lemma_step_wf(ev: Seq<ActivityEventTag>, old: bool, k: int, d: GraphDraft)
    requires
        draft_wf(d),
        0 <= k < ev.len(),
        d.nodes.len() + 2 < usize::MAX,
        d.pending.len() < usize::MAX,
    ensures
        draft_wf(draft_step(ev, old, k, d)),
        draft_step(ev, old, k, d).pending.len() <= d.pending.len() + 1,
        draft_step(ev, old, k, d).nodes.len() <= d.nodes.len() + 2,
        draft_step(ev, old, k, d).backward_frames.len() <= d.backward_frames.len() + 1,
{
    let n = d.nodes.len() as int;
    let r = draft_step(ev, old, k, d);
    match ev[k] {
        ActivityEventTag::If => {
            if old {
                lemma_with_node_wf(d, ActivityNodeTag::Diamond, false, true);
            } else {
                lemma_with_node_wf(d, ActivityNodeTag::IfDiamond, true, true);
                assert(opt_below(d.last_flow, n));
                assert forall|i: int| 0 <= i < r.ifs.len() implies (#[trigger] r.ifs[i]).0 < n + 1
                    && opt_below(r.ifs[i].1, n + 1) by {
                    if i < d.ifs.len() {
                        assert(opt_below(d.ifs[i].1, n));
                    }
                }
            }
        },
        ActivityEventTag::Else => {
            if !old && d.ifs.len() > 0 {
                assert(d.ifs[d.ifs.len() - 1].0 < n);
            } else if !old {
                lemma_with_node_wf(d, ActivityNodeTag::Diamond, false, true);
            }
        },
        ActivityEventTag::EndIf => {
            if !old && d.ifs.len() > 0 {
                assert(d.ifs[d.ifs.len() - 1].0 < n);
                assert(opt_below(d.ifs[d.ifs.len() - 1].1, n));
                assert forall|i: int| 0 <= i < r.ifs.len() implies (#[trigger] r.ifs[i]).0 < n
                    && opt_below(r.ifs[i].1, n) by {
                    assert(r.ifs[i] == d.ifs[i]);
                }
            } else if !old {
                lemma_with_node_wf(d, ActivityNodeTag::Diamond, false, true);
            }
        },
        ActivityEventTag::Repeat => {
            lemma_with_node_wf(d, ActivityNodeTag::Diamond, false, true);
            let d1 = with_node(d, ActivityNodeTag::Diamond, false, true);
            assert forall|i: int| 0 <= i < r.repeats.len() implies (#[trigger] r.repeats[i]).0 < n + 1
                && r.repeats[i].2 <= r.pending.len() by {
                if i < d.repeats.len() {
                    assert(r.repeats[i] == d.repeats[i]);
                }
            }
            assert forall|i: int, j: int| 0 <= i < j < r.repeats.len() implies #[trigger] r.repeats[i].2
                <= #[trigger] r.repeats[j].2 by {
                assert(r.repeats[i] == d.repeats[i]);
                if j < d.repeats.len() {
                    assert(r.repeats[j] == d.repeats[j]);
                    assert(d.repeats[i].2 <= d.repeats[j].2);
                } else {
                    assert(r.repeats[j] == (n as usize, false, d.pending.len() as usize));
                    assert(d.repeats[i].2 <= d.pending.len());
                }
            }
        },
        ActivityEventTag::RepeatWhile => {
            lemma_with_node_wf(d, ActivityNodeTag::Hexagon, false, true);
            let d1 = with_node(d, ActivityNodeTag::Hexagon, false, true);
            if d.repeats.len() > 0 {
                assert(d.repeats[d.repeats.len() - 1].0 < n);
                lemma_close_repeat_wf(d1, n as usize);
            }
        },
        ActivityEventTag::Stop => {
            lemma_with_node_wf(d, ActivityNodeTag::Stop, false, true);
        },
        ActivityEventTag::Start => {
            lemma_with_node_wf(d, ActivityNodeTag::Start, false, true);
        },
        ActivityEventTag::Action => {
            lemma_with_node_wf(d, ActivityNodeTag::Action, d.ifs.len() > 0, true);
        },
        ActivityEventTag::ElseIf => {
            lemma_with_node_wf(d, ActivityNodeTag::Diamond, false, true);
        },
        ActivityEventTag::While => {
            lemma_with_node_wf(d, ActivityNodeTag::Diamond, false, true);
        },
        ActivityEventTag::EndWhile => {
            lemma_with_node_wf(d, ActivityNodeTag::Diamond, false, true);
        },
        ActivityEventTag::Fork => {
            lemma_with_node_wf(d, ActivityNodeTag::ForkBar, false, true);
        },
        ActivityEventTag::ForkAgain => {
            lemma_with_node_wf(d, ActivityNodeTag::ForkBar, false, true);
        },
        ActivityEventTag::EndFork => {
            lemma_with_node_wf(d, ActivityNodeTag::ForkBar, false, true);
        },
        ActivityEventTag::Note(p) => {
            lemma_with_node_wf(
                d,
                ActivityNodeTag::Note { position: p, mode: ActivityNoteModeLayout::Grouped },
                false,
                false,
            );
        },
        ActivityEventTag::FloatingNote(p) => {
            lemma_with_node_wf(
                d,
                ActivityNodeTag::FloatingNote { position: p, mode: ActivityNoteModeLayout::Grouped },
                false,
                false,
            );
        },
        ActivityEventTag::Detach => {
            lemma_with_node_wf(d, ActivityNodeTag::Detach, false, true);
        },
        ActivityEventTag::SyncBar(_) => {
            lemma_with_node_wf(d, ActivityNodeTag::SyncBar, false, true);
        },
        ActivityEventTag::GotoSyncBar(_) => {
            lemma_with_node_wf(d, ActivityNodeTag::SyncBar, false, true);
        },
        ActivityEventTag::Goto(_) => {
            lemma_with_node_wf(d, ActivityNodeTag::GotoLines, true, false);
        },
        ActivityEventTag::Backward => {
            if d.repeats.len() > 0 {
                let t = d.repeats.last();
                assert forall|i: int| 0 <= i < r.repeats.len() implies (#[trigger] r.repeats[i]).0 < n
                    && r.repeats[i].2 <= r.pending.len() by {
                    if i < d.repeats.len() - 1 {
                        assert(r.repeats[i] == d.repeats[i]);
                    }
                }
                assert forall|i: int, j: int| 0 <= i < j < r.repeats.len() implies #[trigger] r.repeats[i].2
                    <= #[trigger] r.repeats[j].2 by {
                    assert(r.repeats[i] == d.repeats[i]);
                    if j < d.repeats.len() - 1 {
                        assert(r.repeats[j] == d.repeats[j]);
                    }
                }
            }
        },
        ActivityEventTag::Break => {
            if d.repeats.len() > 0 {
                assert(opt_below(d.last_flow, n));
                assert forall|i: int| 0 <= i < r.pending.len() implies opt_below(#[trigger] r.pending[i], n) by {
                    if i < d.pending.len() {
                        assert(r.pending[i] == d.pending[i]);
                    }
                }
            }
        },
        _ => {},
    }
}

/// Closing a `repeat` block at its hexagon keeps the draft well formed.
pub proof fn lemma_close_repeat_wf(d: GraphDraft, hex: usize)
    requires
        draft_wf(d),
        d.repeats.len() > 0,
        d.repeats.last().0 < hex,
        hex + 1 == d.nodes.len(),
        d.nodes.len() + 1 < usize::MAX,
    ensures
        draft_wf(close_repeat(d, hex)),
        close_repeat(d, hex).nodes.len() <= d.nodes.len() + 1,
        close_repeat(d, hex).pending.len() <= d.pending.len(),
        close_repeat(d, hex).backward_frames.len() <= d.backward_frames.len() + 1,
{
    let t = d.repeats.last();
    let n = d.nodes.len() as int;
    let src = d.pending.subrange(t.2 as int, d.pending.len() as int);
    let r = close_repeat(d, hex);
    assert(t.0 < n && t.2 <= d.pending.len());
    assert forall|i: int| 0 <= i < src.len() implies opt_below(#[trigger] src[i], n) by {
        assert(src[i] == d.pending[t.2 + i]);
    }
    lemma_break_edges_from(src, (hex + 1) as usize, n);
    if src.len() > 0 {
        lemma_with_node_wf(d, ActivityNodeTag::Diamond, false, false);
    }
    let m = r.nodes.len() as int;
    assert forall|i: int| 0 <= i < r.pending.len() implies opt_below(#[trigger] r.pending[i], m) by {
        assert(r.pending[i] == d.pending[i]);
        assert(opt_below(d.pending[i], n));
    }
    assert forall|i: int| 0 <= i < r.repeats.len() implies (#[trigger] r.repeats[i]).0 < m
        && r.repeats[i].2 <= r.pending.len() by {
        assert(r.repeats[i] == d.repeats[i]);
        assert(d.repeats[i].2 <= d.repeats[d.repeats.len() - 1].2);
    }
    assert forall|i: int, j: int| 0 <= i < j < r.repeats.len() implies #[trigger] r.repeats[i].2
        <= #[trigger] r.repeats[j].2 by {
        assert(r.repeats[i] == d.repeats[i]);
        assert(r.repeats[j] == d.repeats[j]);
    }
    assert forall|i: int| 0 <= i < r.ifs.len() implies (#[trigger] r.ifs[i]).0 < m && opt_below(
        r.ifs[i].1,
        m,
    ) by {
        assert(opt_below(d.ifs[i].1, n));
    }
    assert forall|i: int| 0 <= i < r.breaks.len() implies (#[trigger] r.breaks[i]).0 < r.breaks[i].1 < m by {
        if i >= d.breaks.len() {
            let e = break_edges_from(src, (hex + 1) as usize);
            assert(r.breaks[i] == e[i - d.breaks.len()]);
            assert(src.len() > 0);
        }
    }
}

/// What the first `k` events decide is well formed, with at most two nodes
/// and one backward action per event.
pub proof fn lemma_draft_upto_wf(ev: Seq<ActivityEventTag>, old: bool, k: int)
    requires
        0 <= k <= ev.len(),
        2 * ev.len() + 2 < usize::MAX,
    ensures
        draft_wf(draft_upto(ev, old, k)),
        draft_upto(ev, old, k).nodes.len() <= 2 * k,
        draft_upto(ev, old, k).backward_frames.len() <= k,
        draft_upto(ev, old, k).pending.len() <= k,
    decreases k,
{
    if k > 0 {
        lemma_draft_upto_wf(ev, old, k - 1);
        lemma_step_wf(ev, old, k - 1, draft_upto(ev, old, k - 1));
    }
}

/// The nodes of the whole diagram: those the events placed, then one
/// backward action per `repeat` block that has one, in closing order.
pub open spec fn graph_nodes(d: GraphDraft) -> Seq<OrderNode> {
    let n = d.nodes.len();
    d.nodes + Seq::new(
        d.backward_frames.len(),
        |t: int|
            OrderNode {
                index: (n + t) as usize,
                kind: ActivityNodeTag::BackwardAction,
                skip_in_flow: false,
            },
    )
}

/// (hexagon, opening diamond, backward action) of each `repeat` block with a
/// backward action.
pub open spec fn graph_backward_loopbacks(d: GraphDraft) -> Seq<(usize, usize, usize)> {
    let n = d.nodes.len();
    Seq::new(
        d.backward_frames.len(),
        |t: int| (d.backward_frames[t].0, d.backward_frames[t].1, (n + t) as usize),
    )
}

/// The skeleton of an activity diagram's graph.
pub struct ActivityGraph {
    /// The nodes in placing order; each node's index is its position.
    pub nodes: Vec<OrderNode>,
    /// The diamonds of the `if` blocks, in closing order.
    pub if_diamonds: Vec<usize>,
    /// (hexagon, opening diamond) of each `repeat` block without a backward action.
    pub repeat_loopbacks: Vec<(usize, usize)>,
    /// (hexagon, opening diamond, backward action) of each `repeat` block with one.
    pub backward_loopbacks: Vec<(usize, usize, usize)>,
    /// (source, exit diamond) of each `break` edge.
    pub break_edges: Vec<(usize, usize)>,
}


/// What all the events decide.
pub open spec fn activity_draft(ev: Seq<ActivityEventTag>, old: bool) -> GraphDraft {
    draft_upto(ev, old, ev.len() as int)
}

proof fn lemma_last_stop_in_range(ev: Seq<ActivityEventTag>, k: int)
    requires
        0 <= k <= ev.len(),
    ensures
        match last_stop_before(ev, k) {
            Some(j) => 0 <= j < k,
            None => true,
        },
    decreases k,
{
    if k > 0 {
        lemma_last_stop_in_range(ev, k - 1);
    }
}

proof fn lemma_last_goto_in_range(ev: Seq<ActivityEventTag>, name: Seq<char>, k: int)
    requires
        0 <= k <= ev.len(),
    ensures
        match last_goto_before(ev, name, k) {
            Some(j) => 0 <= j < k,
            None => true,
        },
    decreases k,
{
    if k > 0 {
        lemma_last_goto_in_range(ev, name, k - 1);
    }
}

proof fn lemma_first_bar_in_range(ev: Seq<ActivityEventTag>, name: Seq<char>, k: int)
    requires
        0 <= k,
    ensures
        match first_bar_from(ev, name, k) {
            Some(j) => k <= j < ev.len(),
            None => true,
        },
    decreases ev.len() - k,
{
    if k < ev.len() {
        lemma_first_bar_in_range(ev, name, k + 1);
    }
}

/// Places a node at the end of `nodes`; a flow node becomes the last flow node.
fn place(
    nodes: &mut Vec<OrderNode>,
    last_flow: &mut Option<usize>,
    kind: ActivityNodeTag,
    skip: bool,
    flow: bool,
)
    requires
        old(nodes)@.len() < usize::MAX,
    ensures
        final(nodes)@ == old(nodes)@.push(
            OrderNode { index: old(nodes)@.len() as usize, kind: kind, skip_in_flow: skip },
        ),
        *final(last_flow) == if flow {
            Some(old(nodes)@.len() as usize)
        } else {
            *old(last_flow)
        },
{
    let n = nodes.len();
    nodes.push(OrderNode { index: n, kind: kind, skip_in_flow: skip });
    if flow {
        *last_flow = Some(n);
    }
}

/// Whether the label `name` occurs among the first `k` events.
fn has_label_before(events: &[ActivityEventTag], k: usize, name: &str) -> (r: bool)
    requires
        k <= events@.len(),
    ensures
        r == label_before(events@, k as int, name@),
{
    let mut j: usize = 0;
    while j < k
        invariant
            j <= k <= events@.len(),
            forall|q: int| 0 <= q < j ==> !is_label(events@[q], name@),
        decreases k - j,
    {
        if let ActivityEventTag::Label(l) = &events[j] {
            if str_eq(l.as_str(), name) {
                assert(is_label(events@[j as int], name@));
                return true;
            }
        }
        j += 1;
    }
    false
}


/// Closes the innermost `repeat` block at the hexagon `hex` just placed: the
/// exit diamond when the block has breaks, its loop-back, and its break edges.
#[verifier::rlimit(40)]
fn close_repeat_exec(
    nodes: &mut Vec<OrderNode>,
    last_flow: &mut Option<usize>,
    repeats: &mut Vec<(usize, bool, usize)>,
    pending: &mut Vec<Option<usize>>,
    loopbacks: &mut Vec<(usize, usize)>,
    backward_frames: &mut Vec<(usize, usize)>,
    breaks: &mut Vec<(usize, usize)>,
    hex: usize,
    Ghost(d): Ghost<GraphDraft>,
)
    requires
        d.repeats.len() > 0,
        old(repeats)@.len() > 0,
        old(repeats)@.last().2 <= old(pending)@.len(),
        old(nodes)@.len() + 1 < usize::MAX,
        hex + 1 < usize::MAX,
        old(nodes)@ == d.nodes,
        *old(last_flow) == d.last_flow,
        old(repeats)@ == d.repeats,
        old(pending)@ == d.pending,
        old(loopbacks)@ == d.loopbacks,
        old(backward_frames)@ == d.backward_frames,
        old(breaks)@ == d.breaks,
    ensures
        final(nodes)@ == close_repeat(d, hex).nodes,
        *final(last_flow) == close_repeat(d, hex).last_flow,
        final(repeats)@ == close_repeat(d, hex).repeats,
        final(pending)@ == close_repeat(d, hex).pending,
        final(loopbacks)@ == close_repeat(d, hex).loopbacks,
        final(backward_frames)@ == close_repeat(d, hex).backward_frames,
        final(breaks)@ == close_repeat(d, hex).breaks,
{
    let ghost r = close_repeat(d, hex);
    let t = repeats.pop().unwrap();
    let start = t.2;
    let ghost src = d.pending.subrange(start as int, d.pending.len() as int);
    if pending.len() > start {
        place(nodes, last_flow, ActivityNodeTag::Diamond, false, false);
    }
    if t.1 {
        backward_frames.push((hex, t.0));
    } else {
        loopbacks.push((hex, t.0));
    }
    let exit = hex + 1;
    let mut j: usize = start;
    while j < pending.len()
        invariant
            start <= j <= pending@.len(),
            pending@ == d.pending,
            src == d.pending.subrange(start as int, d.pending.len() as int),
            breaks@ == d.breaks + break_edges_from(pending@.subrange(start as int, j as int), exit),
        decreases pending.len() - j,
    {
        proof {
            let a = pending@.subrange(start as int, j + 1);
            assert(a.drop_last() =~= pending@.subrange(start as int, j as int));
            assert(a.last() == pending@[j as int]);
        }
        if let Some(s) = pending[j] {
            breaks.push((s, exit));
            assert(breaks@ =~= d.breaks + break_edges_from(pending@.subrange(start as int, j + 1), exit));
        }
        j += 1;
    }
    assert(pending@.subrange(start as int, pending@.len() as int) =~= src);
    while pending.len() > start
        invariant
            start <= pending@.len() <= d.pending.len(),
            pending@ == d.pending.subrange(0, pending@.len() as int),
        decreases pending.len(),
    {
        pending.pop();
    }
    assert(pending@ =~= r.pending);
    assert(repeats@ =~= r.repeats);
}

/// Reads the events of an activity diagram in order and decides the nodes
/// they place and the structural edges between them: an `if` opens a block
/// whose diamond sits outside the flow (in old-style diagrams it is a plain
/// diamond, and `else`/`endif` place nothing), `repeat`/`repeat while` open
/// and close a block that gets a loop-back (through a backward action when
/// one was given) and, when it has breaks, an exit diamond that each break
/// leaves to; a `goto` inside an `if` to a label already seen draws lines,
/// notes join no flow, and old-style stops before the last one share its
/// node. Backward actions are placed after all the events.
#[verifier::rlimit(60)]
pub fn activity_graph(events: &[ActivityEventTag], is_old_style: bool) -> (r: ActivityGraph)
    requires
        3 * events@.len() + 3 < usize::MAX,
    ensures
        r.nodes@ == graph_nodes(activity_draft(events@, is_old_style)),
        r.if_diamonds@ == activity_draft(events@, is_old_style).if_diamonds,
        r.repeat_loopbacks@ == activity_draft(events@, is_old_style).loopbacks,
        r.backward_loopbacks@ == graph_backward_loopbacks(activity_draft(events@, is_old_style)),
        r.break_edges@ == activity_draft(events@, is_old_style).breaks,
        graph_wf(activity_draft(events@, is_old_style)),
{
    proof {
        lemma_activity_graph_wf(events@, is_old_style);
    }
    let last_stop = last_stop_index(events);
    proof {
        lemma_last_stop_in_range(events@, events@.len() as int);
    }
    let mut nodes: Vec<OrderNode> = Vec::new();
    let mut last_flow: Option<usize> = None;
    let mut ifs: Vec<(usize, Option<usize>)> = Vec::new();
    let mut repeats: Vec<(usize, bool, usize)> = Vec::new();
    let mut pending: Vec<Option<usize>> = Vec::new();
    let mut if_diamonds: Vec<usize> = Vec::new();
    let mut loopbacks: Vec<(usize, usize)> = Vec::new();
    let mut backward_frames: Vec<(usize, usize)> = Vec::new();
    let mut breaks: Vec<(usize, usize)> = Vec::new();
    let mut i: usize = 0;
    while i < events.len()
        invariant
            i <= events@.len(),
            3 * events@.len() + 3 < usize::MAX,
            match last_stop_before(events@, events@.len() as int) {
                None => last_stop is None,
                Some(j) => last_stop == Some(j as usize) && 0 <= j < events@.len(),
            },
            draft_wf(draft_upto(events@, is_old_style, i as int)),
            nodes@.len() <= 2 * i,
            pending@.len() <= i,
            backward_frames@.len() <= i,
            nodes@ == draft_upto(events@, is_old_style, i as int).nodes,
            last_flow == draft_upto(events@, is_old_style, i as int).last_flow,
            ifs@ == draft_upto(events@, is_old_style, i as int).ifs,
            repeats@ == draft_upto(events@, is_old_style, i as int).repeats,
            pending@ == draft_upto(events@, is_old_style, i as int).pending,
            if_diamonds@ == draft_upto(events@, is_old_style, i as int).if_diamonds,
            loopbacks@ == draft_upto(events@, is_old_style, i as int).loopbacks,
            backward_frames@ == draft_upto(events@, is_old_style, i as int).backward_frames,
            breaks@ == draft_upto(events@, is_old_style, i as int).breaks,
        decreases events.len() - i,
    {
        let ghost d = draft_upto(events@, is_old_style, i as int);
        let ghost d2 = draft_step(events@, is_old_style, i as int, d);
        proof {
            lemma_draft_upto_wf(events@, is_old_style, i as int);
            lemma_draft_upto_wf(events@, is_old_style, i + 1);
            assert(draft_upto(events@, is_old_style, i + 1) == d2);
        }
        let n = nodes.len();
        match &events[i] {
            ActivityEventTag::Start => {
                place(&mut nodes, &mut last_flow, ActivityNodeTag::Start, false, true);
            },
            ActivityEventTag::Stop => {
                let shared = match last_stop {
                    Some(l) => is_old_style && i < l,
                    None => false,
                };
                if !shared {
                    place(&mut nodes, &mut last_flow, ActivityNodeTag::Stop, false, true);
                }
            },
            ActivityEventTag::Action => {
                let in_if = ifs.len() > 0;
                place(&mut nodes, &mut last_flow, ActivityNodeTag::Action, in_if, true);
            },
            ActivityEventTag::If => {
                if is_old_style {
                    place(&mut nodes, &mut last_flow, ActivityNodeTag::Diamond, false, true);
                } else {
                    let before = last_flow;
                    place(&mut nodes, &mut last_flow, ActivityNodeTag::IfDiamond, true, true);
                    ifs.push((n, before));
                }
            },
            ActivityEventTag::ElseIf => {
                place(&mut nodes, &mut last_flow, ActivityNodeTag::Diamond, false, true);
            },
            ActivityEventTag::Else => {
                if is_old_style {
                } else if ifs.len() > 0 {
                    last_flow = Some(ifs[ifs.len() - 1].0);
                } else {
                    place(&mut nodes, &mut last_flow, ActivityNodeTag::Diamond, false, true);
                }
            },
            ActivityEventTag::EndIf => {
                if is_old_style {
                } else if ifs.len() > 0 {
                    let t = ifs.pop().unwrap();
                    if_diamonds.push(t.0);
                    last_flow = t.1;
                } else {
                    place(&mut nodes, &mut last_flow, ActivityNodeTag::Diamond, false, true);
                }
            },
            ActivityEventTag::While | ActivityEventTag::EndWhile => {
                place(&mut nodes, &mut last_flow, ActivityNodeTag::Diamond, false, true);
            },
            ActivityEventTag::Repeat => {
                let p = pending.len();
                place(&mut nodes, &mut last_flow, ActivityNodeTag::Diamond, false, true);
                repeats.push((n, false, p));
            },
            ActivityEventTag::RepeatWhile => {
                place(&mut nodes, &mut last_flow, ActivityNodeTag::Hexagon, false, true);
                if repeats.len() > 0 {
                    let ghost d1 = with_node(d, ActivityNodeTag::Hexagon, false, true);
                    assert(d.repeats[d.repeats.len() - 1].2 <= d.pending.len());
                    close_repeat_exec(
                        &mut nodes,
                        &mut last_flow,
                        &mut repeats,
                        &mut pending,
                        &mut loopbacks,
                        &mut backward_frames,
                        &mut breaks,
                        n,
                        Ghost(d1),
                    );
                }
            },
            ActivityEventTag::Fork | ActivityEventTag::ForkAgain | ActivityEventTag::EndFork => {
                place(&mut nodes, &mut last_flow, ActivityNodeTag::ForkBar, false, true);
            },
            ActivityEventTag::Swimlane(_) | ActivityEventTag::ResumeFromSyncBar(_)
            | ActivityEventTag::Label(_) => {},
            ActivityEventTag::Note(p) => {
                let kind = ActivityNodeTag::Note { position: *p, mode: ActivityNoteModeLayout::Grouped };
                place(&mut nodes, &mut last_flow, kind, false, false);
            },
            ActivityEventTag::FloatingNote(p) => {
                let kind = ActivityNodeTag::FloatingNote {
                    position: *p,
                    mode: ActivityNoteModeLayout::Grouped,
                };
                place(&mut nodes, &mut last_flow, kind, false, false);
            },
            ActivityEventTag::Detach => {
                place(&mut nodes, &mut last_flow, ActivityNodeTag::Detach, false, true);
            },
            ActivityEventTag::SyncBar(name) => {
                let deferred = if is_old_style && sync_bar_goto_count(events, name.as_str()) > 0 {
                    proof {
                        lemma_last_goto_in_range(events@, name@, events@.len() as int);
                        lemma_first_bar_in_range(events@, name@, 0);
                    }
                    match sync_bar_last_ref(events, name.as_str()) {
                        Some(j) => j != i,
                        None => true,
                    }
                } else {
                    false
                };
                if !deferred {
                    place(&mut nodes, &mut last_flow, ActivityNodeTag::SyncBar, false, true);
                }
            },
            ActivityEventTag::GotoSyncBar(name) => {
                let placed = if is_old_style {
                    proof {
                        lemma_last_goto_in_range(events@, name@, events@.len() as int);
                        lemma_first_bar_in_range(events@, name@, 0);
                    }
                    match sync_bar_last_ref(events, name.as_str()) {
                        Some(j) => j == i,
                        None => false,
                    }
                } else {
                    false
                };
                if placed {
                    place(&mut nodes, &mut last_flow, ActivityNodeTag::SyncBar, false, true);
                }
            },
            ActivityEventTag::Goto(name) => {
                if ifs.len() > 0 && has_label_before(events, i, name.as_str()) {
                    place(&mut nodes, &mut last_flow, ActivityNodeTag::GotoLines, true, false);
                }
            },
            ActivityEventTag::Backward => {
                if repeats.len() > 0 {
                    let t = repeats.pop().unwrap();
                    repeats.push((t.0, true, t.2));
                }
            },
            ActivityEventTag::Break => {
                if repeats.len() > 0 {
                    pending.push(last_flow);
                }
            },
        }
        i += 1;
    }
    let ghost d = draft_upto(events@, is_old_style, i as int);
    let base = nodes.len();
    let mut backward_loopbacks: Vec<(usize, usize, usize)> = Vec::new();
    let mut t: usize = 0;
    while t < backward_frames.len()
        invariant
            t <= backward_frames@.len(),
            backward_frames@ == d.backward_frames,
            backward_frames@.len() <= events@.len(),
            base == d.nodes.len(),
            base <= 2 * events@.len(),
            3 * events@.len() + 3 < usize::MAX,
            nodes@ == graph_nodes(d).subrange(0, base + t),
            backward_loopbacks@ == graph_backward_loopbacks(d).subrange(0, t as int),
        decreases backward_frames.len() - t,
    {
        let f = backward_frames[t];
        nodes.push(
            OrderNode { index: base + t, kind: ActivityNodeTag::BackwardAction, skip_in_flow: false },
        );
        backward_loopbacks.push((f.0, f.1, base + t));
        assert(nodes@ =~= graph_nodes(d).subrange(0, base + t + 1));
        assert(backward_loopbacks@ =~= graph_backward_loopbacks(d).subrange(0, t + 1));
        t += 1;
    }
    assert(nodes@ =~= graph_nodes(d));
    assert(backward_loopbacks@ =~= graph_backward_loopbacks(d));
    ActivityGraph {
        nodes,
        if_diamonds,
        repeat_loopbacks: loopbacks,
        backward_loopbacks,
        break_edges: breaks,
    }
}


/// The graph holds together: each node's index is its position, each `if`
/// diamond is a node, each loop-back goes from a hexagon back to an earlier
/// opening diamond (through a backward action placed after both), and each
/// break edge goes forward to a later exit diamond.
pub open spec fn graph_wf(d: GraphDraft) -> bool {
    let g = graph_nodes(d);
    let bl = graph_backward_loopbacks(d);
    &&& forall|q: int| 0 <= q < g.len() ==> (#[trigger] g[q]).index == q
    &&& forall|i: int| 0 <= i < d.if_diamonds.len() ==> #[trigger] d.if_diamonds[i] < g.len()
    &&& forall|i: int|
        0 <= i < d.loopbacks.len() ==> (#[trigger] d.loopbacks[i]).1 < d.loopbacks[i].0 < g.len()
    &&& forall|i: int| 0 <= i < bl.len() ==> (#[trigger] bl[i]).1 < bl[i].0 < bl[i].2 < g.len()
    &&& forall|i: int| 0 <= i < d.breaks.len() ==> (#[trigger] d.breaks[i]).0 < d.breaks[i].1 < g.len()
}

/// Whatever the events, the graph they make holds together (see `graph_wf`).
pub proof fn lemma_activity_graph_wf(ev: Seq<ActivityEventTag>, old: bool)
    requires
        3 * ev.len() + 3 < usize::MAX,
    ensures
        graph_wf(activity_draft(ev, old)),
{
    let d = activity_draft(ev, old);
    lemma_draft_upto_wf(ev, old, ev.len() as int);
    let n = d.nodes.len() as int;
    let g = graph_nodes(d);
    let bl = graph_backward_loopbacks(d);
    assert forall|q: int| 0 <= q < g.len() implies (#[trigger] g[q]).index == q by {
        if q < n {
            assert(g[q] == d.nodes[q]);
        }
    }
    assert forall|i: int| 0 <= i < bl.len() implies (#[trigger] bl[i]).1 < bl[i].0 < bl[i].2 < g.len() by {
        assert(d.backward_frames[i].1 < d.backward_frames[i].0 < n);
    }
}


/// `d2` is `d` with one more node of kind `kind` at the end, whose index is
/// its position; a flow node becomes the last flow node, any other node
/// leaves the last flow node as it was.
pub open spec fn placed_one(
    d: GraphDraft,
    d2: GraphDraft,
    kind: ActivityNodeTag,
    skip: bool,
    flow: bool,
) -> bool {
    let n = d.nodes.len();
    &&& d2.nodes.len() == n + 1
    &&& d2.nodes.subrange(0, n as int) == d.nodes
    &&& d2.nodes[n as int] == OrderNode { index: n as usize, kind: kind, skip_in_flow: skip }
    &&& d2.last_flow == if flow {
        Some(n as usize)
    } else {
        d.last_flow
    }
}

/// What single events place: `start` a start circle, an action an action
/// box (inside an `if` branch when an `if` is open), `elseif`, `while`,
/// `endwhile` and `repeat` one diamond each, the fork events one bar each,
/// `detach` a detach mark, and notes one note outside the flow.  `repeat
/// while` places the hexagon first (and possibly an exit diamond after it),
/// and lane switches, labels, resumes, backward actions and breaks place
/// nothing where they stand.
pub proof fn lemma_event_nodes(ev: Seq<ActivityEventTag>, old: bool, k: int)
    requires
        0 <= k < ev.len(),
        3 * ev.len() + 3 < usize::MAX,
    ensures
        ev[k] is Start ==> placed_one(
            draft_upto(ev, old, k),
            draft_upto(ev, old, k + 1),
            ActivityNodeTag::Start,
            false,
            true,
        ),
        ev[k] is Action ==> placed_one(
            draft_upto(ev, old, k),
            draft_upto(ev, old, k + 1),
            ActivityNodeTag::Action,
            draft_upto(ev, old, k).ifs.len() > 0,
            true,
        ),
        (ev[k] is ElseIf || ev[k] is While || ev[k] is EndWhile || ev[k] is Repeat) ==> placed_one(
            draft_upto(ev, old, k),
            draft_upto(ev, old, k + 1),
            ActivityNodeTag::Diamond,
            false,
            true,
        ),
        (ev[k] is Fork || ev[k] is ForkAgain || ev[k] is EndFork) ==> placed_one(
            draft_upto(ev, old, k),
            draft_upto(ev, old, k + 1),
            ActivityNodeTag::ForkBar,
            false,
            true,
        ),
        ev[k] is Detach ==> placed_one(
            draft_upto(ev, old, k),
            draft_upto(ev, old, k + 1),
            ActivityNodeTag::Detach,
            false,
            true,
        ),
        forall|p: crate::activity::NotePositionLayout|
            ev[k] == ActivityEventTag::Note(p) ==> placed_one(
                draft_upto(ev, old, k),
                draft_upto(ev, old, k + 1),
                ActivityNodeTag::Note { position: p, mode: ActivityNoteModeLayout::Grouped },
                false,
                false,
            ),
        forall|p: crate::activity::NotePositionLayout|
            ev[k] == ActivityEventTag::FloatingNote(p) ==> placed_one(
                draft_upto(ev, old, k),
                draft_upto(ev, old, k + 1),
                ActivityNodeTag::FloatingNote { position: p, mode: ActivityNoteModeLayout::Grouped },
                false,
                false,
            ),
        ev[k] is RepeatWhile ==> {
            let d = draft_upto(ev, old, k);
            let d2 = draft_upto(ev, old, k + 1);
            &&& d.nodes.len() + 1 <= d2.nodes.len() <= d.nodes.len() + 2
            &&& d2.nodes.subrange(0, d.nodes.len() as int) == d.nodes
            &&& d2.nodes[d.nodes.len() as int] == OrderNode {
                index: d.nodes.len() as usize,
                kind: ActivityNodeTag::Hexagon,
                skip_in_flow: false,
            }
            &&& d2.nodes.len() == d.nodes.len() + 2 ==> d2.nodes[d.nodes.len() as int + 1] == OrderNode {
                index: (d.nodes.len() + 1) as usize,
                kind: ActivityNodeTag::Diamond,
                skip_in_flow: false,
            }
        },
        (ev[k] is Swimlane || ev[k] is Label || ev[k] is ResumeFromSyncBar || ev[k] is Backward
            || ev[k] is Break) ==> draft_upto(ev, old, k + 1).nodes == draft_upto(ev, old, k).nodes,
{
    let d = draft_upto(ev, old, k);
    lemma_draft_upto_wf(ev, old, k);
    let n = d.nodes.len();
    assert(d.nodes.push(OrderNode { index: 0, kind: ActivityNodeTag::Start, skip_in_flow: false }).subrange(0, n as int) =~= d.nodes);
    match ev[k] {
        ActivityEventTag::RepeatWhile => {
            let d1 = with_node(d, ActivityNodeTag::Hexagon, false, true);
            assert(d1.nodes.subrange(0, n as int) =~= d.nodes);
            if d.repeats.len() > 0 {
                let d2 = close_repeat(d1, n as usize);
                let t = d1.repeats.last();
                let src = d1.pending.subrange(t.2 as int, d1.pending.len() as int);
                if src.len() > 0 {
                    let d3 = with_node(d1, ActivityNodeTag::Diamond, false, false);
                    assert(d3.nodes.subrange(0, n as int) =~= d.nodes);
                }
            }
        },
        ActivityEventTag::Note(p) => {
            let kind = ActivityNodeTag::Note { position: p, mode: ActivityNoteModeLayout::Grouped };
            assert(with_node(d, kind, false, false).nodes.subrange(0, n as int) =~= d.nodes);
        },
        ActivityEventTag::FloatingNote(p) => {
            let kind = ActivityNodeTag::FloatingNote { position: p, mode: ActivityNoteModeLayout::Grouped };
            assert(with_node(d, kind, false, false).nodes.subrange(0, n as int) =~= d.nodes);
        },
        _ => {
            assert forall|kind: ActivityNodeTag, skip: bool, flow: bool|
                #[trigger] with_node(d, kind, skip, flow).nodes.subrange(0, n as int) == d.nodes by {
                assert(with_node(d, kind, skip, flow).nodes.subrange(0, n as int) =~= d.nodes);
            }
        },
    }
}


/// Events after which each node the layout places lines up with one lane
/// entry: those that always place exactly one node, or none at all.
pub open spec fn lines_up_with_lanes(e: ActivityEventTag, old: bool) -> bool {
    ||| e is Start || e is Action || e is If || e is ElseIf || e is While || e is EndWhile
    ||| e is Repeat || e is Fork || e is ForkAgain || e is EndFork || e is Note || e is FloatingNote
    ||| e is Detach || e is Swimlane || e is Label || e is Backward || e is Break
    ||| e is ResumeFromSyncBar
    ||| (e is Stop && !old)
}

/// For diagrams made of such events, the lanes that `node_lanes` gives are
/// one per node that `activity_graph` places (before the backward actions).
pub proof fn lemma_lanes_line_up_with_nodes(
    lanes: Seq<Seq<char>>,
    ev: Seq<ActivityEventTag>,
    old: bool,
    k: int,
)
    requires
        0 <= k <= ev.len(),
        forall|j: int| 0 <= j < ev.len() ==> lines_up_with_lanes(#[trigger] ev[j], old),
    ensures
        node_lanes_spec(lanes, ev, k).len() == draft_upto(ev, old, k).nodes.len(),
    decreases k,
{
    if k > 0 {
        lemma_lanes_line_up_with_nodes(lanes, ev, old, k - 1);
        lemma_node_lanes_step(lanes, ev, k - 1);
        assert(lines_up_with_lanes(ev[k - 1], old));
    }
}


/// There is a `stop` after event `k`.
pub open spec fn later_stop(ev: Seq<ActivityEventTag>, k: int) -> bool {
    exists|j: int| k < j < ev.len() && #[trigger] ev[j] is Stop
}

proof fn lemma_later_stop(ev: Seq<ActivityEventTag>, k: int, m: int)
    requires
        0 <= k < m <= ev.len(),
    ensures
        (match last_stop_before(ev, m) {
            Some(l) => k < l,
            None => false,
        }) <==> exists|j: int| k < j < m && #[trigger] ev[j] is Stop,
    decreases m,
{
    if m - 1 > k {
        lemma_later_stop(ev, k, m - 1);
        if ev[m - 1] is Stop {
        } else {
            assert forall|j: int| k < j < m && #[trigger] ev[j] is Stop implies k < j < m - 1 by {}
        }
    } else {
        lemma_stop_before_at_most(ev, m);
    }
}

proof fn lemma_stop_before_at_most(ev: Seq<ActivityEventTag>, m: int)
    requires
        0 <= m <= ev.len(),
    ensures
        match last_stop_before(ev, m) {
            Some(l) => l < m,
            None => true,
        },
    decreases m,
{
    if m > 0 {
        lemma_stop_before_at_most(ev, m - 1);
    }
}

/// What the block events do.  A new-style `if` places its diamond outside
/// the flow and opens a block that remembers the flow node before it; an
/// old-style one places a plain diamond.  `else` goes back to the open `if`'s
/// diamond, `endif` closes the block (recording its diamond and going back to
/// the flow node before it); with no open `if` each places a plain diamond,
/// and in old-style diagrams they place nothing.  A `stop` places its node
/// unless the diagram is old-style and a later `stop` follows.  A `goto`
/// draws lines (outside the flow) only inside an `if` and to a label seen
/// before.  `repeat` opens a block at its diamond; `repeat while` closes the
/// innermost one with a loop-back from its hexagon to that diamond, through
/// a backward action when the block had one.
#[verifier::rlimit(40)]
pub proof fn lemma_block_events(ev: Seq<ActivityEventTag>, old: bool, k: int)
    requires
        0 <= k < ev.len(),
        3 * ev.len() + 3 < usize::MAX,
    ensures
        ({
            let d = draft_upto(ev, old, k);
            let d2 = draft_upto(ev, old, k + 1);
            let n = d.nodes.len() as usize;
            &&& (ev[k] is If && old) ==> placed_one(d, d2, ActivityNodeTag::Diamond, false, true)
                && d2.ifs == d.ifs
            &&& (ev[k] is If && !old) ==> placed_one(d, d2, ActivityNodeTag::IfDiamond, true, true)
                && d2.ifs == d.ifs.push((n, d.last_flow))
            &&& ((ev[k] is Else || ev[k] is EndIf) && old) ==> d2.nodes == d.nodes && d2.last_flow
                == d.last_flow && d2.ifs == d.ifs
            &&& ((ev[k] is Else || ev[k] is EndIf) && !old && d.ifs.len() == 0) ==> placed_one(
                d,
                d2,
                ActivityNodeTag::Diamond,
                false,
                true,
            )
            &&& (ev[k] is Else && !old && d.ifs.len() > 0) ==> d2.nodes == d.nodes && d2.last_flow
                == Some(d.ifs.last().0) && d2.ifs == d.ifs
            &&& (ev[k] is EndIf && !old && d.ifs.len() > 0) ==> d2.nodes == d.nodes && d2.ifs
                == d.ifs.drop_last() && d2.if_diamonds == d.if_diamonds.push(d.ifs.last().0)
                && d2.last_flow == d.ifs.last().1
            &&& (ev[k] is Stop && !(old && later_stop(ev, k))) ==> placed_one(
                d,
                d2,
                ActivityNodeTag::Stop,
                false,
                true,
            )
            &&& (ev[k] is Stop && old && later_stop(ev, k)) ==> d2.nodes == d.nodes && d2.last_flow
                == d.last_flow
            &&& forall|name: String|
                ev[k] == ActivityEventTag::Goto(name) ==> if d.ifs.len() > 0 && exists|j: int|
                    0 <= j < k && (#[trigger] ev[j] matches ActivityEventTag::Label(l) && l@ == name@) {
                    placed_one(d, d2, ActivityNodeTag::GotoLines, true, false)
                } else {
                    d2.nodes == d.nodes && d2.last_flow == d.last_flow
                }
            &&& ev[k] is Repeat ==> d2.repeats.len() == d.repeats.len() + 1 && d2.repeats.last().0 == n
                && !d2.repeats.last().1
            &&& (ev[k] is RepeatWhile && d.repeats.len() > 0) ==> d2.repeats == d.repeats.drop_last()
                && if d.repeats.last().1 {
                d2.backward_frames == d.backward_frames.push((n, d.repeats.last().0)) && d2.loopbacks
                    == d.loopbacks
            } else {
                d2.loopbacks == d.loopbacks.push((n, d.repeats.last().0)) && d2.backward_frames
                    == d.backward_frames
            }
            &&& (ev[k] is Backward && d.repeats.len() > 0) ==> d2.repeats.len() == d.repeats.len()
                && d2.repeats.last().1 && d2.repeats.last().0 == d.repeats.last().0
        }),
{
    let d = draft_upto(ev, old, k);
    lemma_draft_upto_wf(ev, old, k);
    let n = d.nodes.len();
    assert forall|kind: ActivityNodeTag, skip: bool, flow: bool|
        #[trigger] with_node(d, kind, skip, flow).nodes.subrange(0, n as int) == d.nodes by {
        assert(with_node(d, kind, skip, flow).nodes.subrange(0, n as int) =~= d.nodes);
    }
    if ev[k] is Stop {
        lemma_later_stop(ev, k, ev.len() as int);
    }
    match ev[k] {
        ActivityEventTag::Goto(name) => {
            assert((d.ifs.len() > 0 && exists|j: int|
                0 <= j < k && (#[trigger] ev[j] matches ActivityEventTag::Label(l) && l@ == name@))
                == (d.ifs.len() > 0 && label_before(ev, k, name@))) by {
                if exists|j: int| 0 <= j < k && (#[trigger] ev[j] matches ActivityEventTag::Label(l) && l@ == name@) {
                    let j = choose|j: int| 0 <= j < k && (#[trigger] ev[j] matches ActivityEventTag::Label(l) && l@ == name@);
                    assert(is_label(ev[j], name@));
                }
                if label_before(ev, k, name@) {
                    let j = choose|j: int| 0 <= j < k && #[trigger] is_label(ev[j], name@);
                    assert(ev[j] matches ActivityEventTag::Label(l) && l@ == name@);
                }
            }
        },
        _ => {},
    }
}

} // verus!

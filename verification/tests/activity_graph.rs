use plantuml_little::activity::{
    compute_render_order_for_repeat, drop_edges_across_if_blocks, flow_edge_pairs, ActivityNodeTag,
    ActivityNoteModeLayout, NotePositionLayout,
};
use plantuml_little::activity_graph::activity_graph;
use plantuml_little::activity_scan::ActivityEventTag as E;

fn kinds(events: &[E], old: bool) -> Vec<ActivityNodeTag> {
    let g = activity_graph(events, old);
    for (q, n) in g.nodes.iter().enumerate() {
        assert_eq!(n.index, q);
    }
    g.nodes.iter().map(|n| n.kind).collect()
}

#[test]
fn graph_of_a_plain_sequence() {
    let g = activity_graph(&[E::Start, E::Action, E::Stop], false);
    assert_eq!(
        g.nodes.iter().map(|n| n.kind).collect::<Vec<_>>(),
        vec![ActivityNodeTag::Start, ActivityNodeTag::Action, ActivityNodeTag::Stop]
    );
    assert!(g.nodes.iter().all(|n| !n.skip_in_flow));
    assert_eq!(flow_edge_pairs(&g.nodes), vec![(0, 1), (1, 2)]);
    assert!(g.if_diamonds.is_empty());
    assert!(g.repeat_loopbacks.is_empty() && g.backward_loopbacks.is_empty());
    assert!(g.break_edges.is_empty());
}

#[test]
fn graph_of_an_if_block() {
    let ev = [E::Start, E::If, E::Action, E::Else, E::Action, E::EndIf, E::Stop];
    let g = activity_graph(&ev, false);
    assert_eq!(
        g.nodes.iter().map(|n| (n.kind, n.skip_in_flow)).collect::<Vec<_>>(),
        vec![
            (ActivityNodeTag::Start, false),
            (ActivityNodeTag::IfDiamond, true),
            (ActivityNodeTag::Action, true),
            (ActivityNodeTag::Action, true),
            (ActivityNodeTag::Stop, false),
        ]
    );
    assert_eq!(g.if_diamonds, vec![1]);
    let edges = flow_edge_pairs(&g.nodes);
    assert_eq!(edges, vec![(0, 4)]);
    assert_eq!(drop_edges_across_if_blocks(&g.nodes, &edges, &g.if_diamonds), vec![]);

    // Old-style diagrams draw a plain diamond and no branches.
    assert_eq!(
        kinds(&ev, true),
        vec![
            ActivityNodeTag::Start,
            ActivityNodeTag::Diamond,
            ActivityNodeTag::Action,
            ActivityNodeTag::Action,
            ActivityNodeTag::Stop,
        ]
    );
    assert!(activity_graph(&ev, true).if_diamonds.is_empty());
}

#[test]
fn graph_of_a_repeat_block_with_break_and_backward() {
    let ev = [
        E::Start,
        E::Repeat,
        E::Action,
        E::If,
        E::Break,
        E::EndIf,
        E::Backward,
        E::RepeatWhile,
        E::Stop,
    ];
    let g = activity_graph(&ev, false);
    assert_eq!(
        g.nodes.iter().map(|n| n.kind).collect::<Vec<_>>(),
        vec![
            ActivityNodeTag::Start,
            ActivityNodeTag::Diamond,
            ActivityNodeTag::Action,
            ActivityNodeTag::IfDiamond,
            ActivityNodeTag::Hexagon,
            ActivityNodeTag::Diamond,
            ActivityNodeTag::Stop,
            ActivityNodeTag::BackwardAction,
        ]
    );
    assert_eq!(g.if_diamonds, vec![3]);
    assert!(g.repeat_loopbacks.is_empty());
    assert_eq!(g.backward_loopbacks, vec![(4, 1, 7)]);
    assert_eq!(g.break_edges, vec![(3, 5)]);
    let order = compute_render_order_for_repeat(&g.nodes, &g.repeat_loopbacks, &g.backward_loopbacks);
    let mut sorted = order.clone();
    sorted.sort();
    assert_eq!(sorted, (0..8).collect::<Vec<usize>>());
}

#[test]
fn graph_of_a_repeat_block_without_backward() {
    let g = activity_graph(&[E::Repeat, E::Action, E::RepeatWhile], false);
    assert_eq!(g.repeat_loopbacks, vec![(2, 0)]);
    assert!(g.backward_loopbacks.is_empty());
    assert!(g.break_edges.is_empty());
    assert_eq!(g.nodes.len(), 3);
}

#[test]
fn graph_goto_lines_need_a_known_label_inside_an_if() {
    let ev = [
        E::Label("a".to_string()),
        E::If,
        E::Goto("a".to_string()),
        E::EndIf,
        E::If,
        E::Goto("b".to_string()),
        E::EndIf,
        E::Goto("a".to_string()),
    ];
    assert_eq!(
        kinds(&ev, false),
        vec![ActivityNodeTag::IfDiamond, ActivityNodeTag::GotoLines, ActivityNodeTag::IfDiamond]
    );
}

#[test]
fn graph_notes_join_no_flow() {
    let ev = [E::Action, E::Note(NotePositionLayout::Left), E::FloatingNote(NotePositionLayout::Right), E::Stop];
    let g = activity_graph(&ev, false);
    assert_eq!(
        g.nodes[1].kind,
        ActivityNodeTag::Note { position: NotePositionLayout::Left, mode: ActivityNoteModeLayout::Grouped }
    );
    assert_eq!(
        g.nodes[2].kind,
        ActivityNodeTag::FloatingNote {
            position: NotePositionLayout::Right,
            mode: ActivityNoteModeLayout::Grouped
        }
    );
    assert_eq!(flow_edge_pairs(&g.nodes), vec![(0, 3)]);
}

#[test]
fn graph_old_style_stops_share_the_last_one() {
    let ev = [E::Start, E::Stop, E::Action, E::Stop];
    assert_eq!(
        kinds(&ev, true),
        vec![ActivityNodeTag::Start, ActivityNodeTag::Action, ActivityNodeTag::Stop]
    );
    assert_eq!(kinds(&ev, false).len(), 4);
}

#[test]
fn graph_old_style_sync_bar_waits_for_its_last_goto() {
    let ev = [
        E::SyncBar("x".to_string()),
        E::Action,
        E::GotoSyncBar("x".to_string()),
        E::Action,
        E::GotoSyncBar("x".to_string()),
    ];
    assert_eq!(
        kinds(&ev, true),
        vec![ActivityNodeTag::Action, ActivityNodeTag::Action, ActivityNodeTag::SyncBar]
    );
    assert_eq!(
        kinds(&ev, false),
        vec![ActivityNodeTag::SyncBar, ActivityNodeTag::Action, ActivityNodeTag::Action]
    );
}

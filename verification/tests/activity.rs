use plantuml_little::activity_scan::ActivityEventTag;
use plantuml_little::activity::{
    assign_note_modes, classify_activity_table_lines, compute_render_order_for_repeat,
    drop_edges_across_if_blocks, flow_edge_pairs, index_old_activity_graph, node_lanes, is_flow_node, reorder_edges_for_repeat, reorder_if_nodes_for_draw,
    resolve_swimlane_index, ActivityLayoutError, ActivityNodeTag, ActivityNoteModeLayout,
    ActivityTableKind, EdgeInfo, EdgeSlot, NotePositionLayout, OldActivityLink, OldActivityNode,
    OldActivityNodeKind, OrderNode,
};

#[test]
fn table_lines_single_column() {
    assert_eq!(
        classify_activity_table_lines(&["|a|", "  | b |  ", ""]),
        Some(ActivityTableKind::SingleColumn {
            rows: vec!["a".to_string(), "b".to_string()]
        })
    );
}

#[test]
fn table_lines_multi_column_and_mixed() {
    assert_eq!(
        classify_activity_table_lines(&["|a|b|"]),
        Some(ActivityTableKind::MultiColumn)
    );
    assert_eq!(
        classify_activity_table_lines(&["|a|b|", "text"]),
        Some(ActivityTableKind::MultiColumn)
    );
    assert_eq!(classify_activity_table_lines(&["|a|", "text"]), None);
    assert_eq!(classify_activity_table_lines(&["text"]), None);
    assert_eq!(classify_activity_table_lines(&["||"]), None);
    assert_eq!(classify_activity_table_lines(&[]), None);
}

#[test]
fn swimlane_index_first_match_or_zero() {
    let lanes = vec!["A".to_string(), "B".to_string(), "B".to_string()];
    assert_eq!(resolve_swimlane_index(&lanes, "B"), 1);
    assert_eq!(resolve_swimlane_index(&lanes, "C"), 0);
    assert_eq!(resolve_swimlane_index(&[], "A"), 0);
}

fn note(mode: ActivityNoteModeLayout) -> ActivityNodeTag {
    ActivityNodeTag::Note {
        position: NotePositionLayout::Right,
        mode,
    }
}

#[test]
fn note_modes_follow_group_size() {
    let (grouped, single) = (ActivityNoteModeLayout::Grouped, ActivityNoteModeLayout::Single);
    let mut nodes = vec![
        note(grouped),
        ActivityNodeTag::Action,
        note(grouped),
        ActivityNodeTag::Action,
        note(single),
        ActivityNodeTag::FloatingNote {
            position: NotePositionLayout::Left,
            mode: single,
        },
        ActivityNodeTag::BackwardAction,
        note(single),
    ];
    assign_note_modes(&mut nodes);
    assert_eq!(nodes[0], note(grouped));
    assert_eq!(nodes[2], note(single));
    assert_eq!(nodes[4], note(grouped));
    assert_eq!(
        nodes[5],
        ActivityNodeTag::FloatingNote {
            position: NotePositionLayout::Left,
            mode: grouped
        }
    );
    assert_eq!(nodes[7], note(single));
    assert!(is_flow_node(&ActivityNodeTag::Detach));
    assert!(!is_flow_node(&ActivityNodeTag::GotoLines));
}

fn order_node(index: usize, kind: ActivityNodeTag, skip: bool) -> OrderNode {
    OrderNode {
        index,
        kind,
        skip_in_flow: skip,
    }
}

#[test]
fn if_nodes_drawn_after_then_branch() {
    let nodes = vec![
        order_node(0, ActivityNodeTag::Action, false),
        order_node(1, ActivityNodeTag::IfDiamond, false),
        order_node(2, ActivityNodeTag::Action, true),
        order_node(3, ActivityNodeTag::Action, true),
        order_node(4, ActivityNodeTag::Action, false),
    ];
    assert_eq!(reorder_if_nodes_for_draw(&nodes, &[0, 1, 2, 3, 4]), vec![0, 2, 3, 1, 4]);
    assert_eq!(reorder_if_nodes_for_draw(&nodes, &[1, 4]), vec![1, 4]);
}

fn repeat_nodes() -> Vec<OrderNode> {
    vec![
        order_node(0, ActivityNodeTag::Start, false),
        order_node(1, ActivityNodeTag::Diamond, false),
        order_node(2, ActivityNodeTag::Action, false),
        order_node(3, ActivityNodeTag::Action, false),
        order_node(4, ActivityNodeTag::Hexagon, false),
        order_node(5, ActivityNodeTag::Stop, false),
    ]
}

#[test]
fn repeat_body_drawn_before_diamond() {
    let nodes = repeat_nodes();
    assert_eq!(
        compute_render_order_for_repeat(&nodes, &[(4, 1)], &[]),
        vec![0, 2, 3, 1, 4, 5]
    );
    assert_eq!(
        compute_render_order_for_repeat(&nodes, &[], &[]),
        vec![0, 1, 2, 3, 4, 5]
    );
}

#[test]
fn repeat_backward_node_drawn_after_hex() {
    let mut nodes = repeat_nodes();
    nodes.push(order_node(6, ActivityNodeTag::BackwardAction, false));
    assert_eq!(
        compute_render_order_for_repeat(&nodes, &[], &[(4, 1, 6)]),
        vec![0, 2, 3, 1, 4, 6, 5]
    );
}

fn edge(from: usize, to: usize) -> EdgeInfo {
    EdgeInfo {
        from_index: from,
        to_index: to,
        is_break: false,
    }
}

#[test]
fn repeat_edges_in_tile_order() {
    let kinds = vec![
        ActivityNodeTag::Start,
        ActivityNodeTag::Diamond,
        ActivityNodeTag::Action,
        ActivityNodeTag::Action,
        ActivityNodeTag::Hexagon,
        ActivityNodeTag::Stop,
    ];
    let edges = vec![edge(0, 1), edge(1, 2), edge(2, 3), edge(3, 4), edge(4, 5)];
    let order = reorder_edges_for_repeat(&edges, &[(1, 4, 1)], &kinds);
    assert_eq!(
        order,
        vec![
            EdgeSlot::Edge(2),
            EdgeSlot::Edge(1),
            EdgeSlot::Loopback { frame: 0, k: 0 },
            EdgeSlot::Edge(3),
            EdgeSlot::Edge(0),
            EdgeSlot::Edge(4),
        ]
    );
    let plain = reorder_edges_for_repeat(&edges, &[], &kinds);
    assert_eq!(plain, (0..5).map(EdgeSlot::Edge).collect::<Vec<_>>());
}

#[test]
fn repeat_edges_with_exit_diamond_continuation() {
    let kinds = vec![
        ActivityNodeTag::Diamond,
        ActivityNodeTag::Action,
        ActivityNodeTag::Hexagon,
        ActivityNodeTag::Diamond,
        ActivityNodeTag::Stop,
    ];
    let edges = vec![edge(0, 1), edge(1, 2), edge(2, 3), edge(3, 4)];
    let order = reorder_edges_for_repeat(&edges, &[(0, 2, 2)], &kinds);
    assert_eq!(
        order,
        vec![
            EdgeSlot::Edge(0),
            EdgeSlot::Loopback { frame: 0, k: 0 },
            EdgeSlot::Loopback { frame: 0, k: 1 },
            EdgeSlot::Edge(1),
            EdgeSlot::Edge(2),
            EdgeSlot::Edge(3),
        ]
    );
}

fn old_node(id: &str, kind: OldActivityNodeKind) -> OldActivityNode {
    OldActivityNode {
        id: id.to_string(),
        uid: format!("ent_{id}"),
        qualified_name: id.to_string(),
        kind,
        text: String::new(),
    }
}

fn old_link(uid: &str, from: &str, to: &str, line: usize) -> OldActivityLink {
    OldActivityLink {
        uid: uid.to_string(),
        from_id: from.to_string(),
        to_id: to.to_string(),
        label: None,
        head_label: None,
        length: 2,
        source_line: line,
    }
}

#[test]
fn old_graph_index_source_lines_and_ends() {
    let nodes = vec![
        old_node("start", OldActivityNodeKind::Start),
        old_node("A", OldActivityNodeKind::Action),
        old_node("end", OldActivityNodeKind::End),
    ];
    let links = vec![old_link("l0", "start", "A", 5), old_link("l1", "A", "end", 3)];
    let laid = vec!["end".to_string(), "A".to_string(), "start".to_string()];
    let ix = index_old_activity_graph(&nodes, &links, &laid, 2).unwrap();
    let lines: Vec<Option<usize>> = ix.node_meta.iter().map(|m| m.source_line).collect();
    assert_eq!(lines, vec![Some(5), Some(3), Some(3)]);
    assert_eq!(ix.laid_out, vec![2, 1, 0]);
    assert_eq!(ix.edge_ends, vec![(0, 1), (1, 2)]);
    assert_eq!(ix.edge_uids[1], ("ent_A".to_string(), "ent_end".to_string()));
    assert_eq!(ix.node_kinds[2], ActivityNodeTag::Stop);
}

#[test]
fn old_graph_index_errors() {
    let nodes = vec![
        old_node("start", OldActivityNodeKind::Start),
        old_node("A", OldActivityNodeKind::Branch),
    ];
    let links = vec![old_link("l0", "start", "A", 1), old_link("l1", "A", "X", 2)];
    let laid = vec!["start".to_string(), "A".to_string()];
    assert_eq!(
        index_old_activity_graph(&nodes, &links, &laid[..1].to_vec(), 2).err(),
        Some(ActivityLayoutError::MissingNode("A".to_string()))
    );
    assert_eq!(
        index_old_activity_graph(&nodes, &links, &laid, 1).err(),
        Some(ActivityLayoutError::MissingEdge("l1".to_string()))
    );
    assert_eq!(
        index_old_activity_graph(&nodes, &links, &laid, 2).err(),
        Some(ActivityLayoutError::MissingEdgeTarget("X".to_string()))
    );
    let bad_source = vec![old_link("l0", "Y", "A", 1)];
    assert_eq!(
        index_old_activity_graph(&nodes, &bad_source, &laid, 1).err(),
        Some(ActivityLayoutError::MissingEdgeSource("Y".to_string()))
    );
}

use plantuml_little::activity::{is_note_separator, sprite_reference_name, sprite_viewbox_fields};

#[test]
fn note_separators() {
    assert!(is_note_separator("===="));
    assert!(is_note_separator("  -----  "));
    assert!(!is_note_separator("==="));
    assert!(!is_note_separator("==--"));
    assert!(!is_note_separator("text"));
}

#[test]
fn sprite_reference_names() {
    assert_eq!(sprite_reference_name(" <$foo> "), Some("foo".to_string()));
    assert_eq!(sprite_reference_name("<$ bar ,scale=2>"), Some("bar".to_string()));
    assert_eq!(sprite_reference_name("<$>"), None);
    assert_eq!(sprite_reference_name("<$,x>"), None);
    assert_eq!(sprite_reference_name("text <$foo>"), None);
}

#[test]
fn sprite_viewbox_size_fields() {
    let f = |a: &str, b: &str| Some((a.to_string(), b.to_string()));
    assert_eq!(sprite_viewbox_fields("<svg viewBox=\"0 0 24 16\">"), f("24", "16"));
    assert_eq!(
        sprite_viewbox_fields("<svg width=\"1\" viewBox=\" 0  0\t10.5 20 \" viewBox=\"0 0 1 2\">"),
        f("10.5", "20")
    );
    assert_eq!(sprite_viewbox_fields("<svg viewBox=\"0 0 24\">"), None);
    assert_eq!(sprite_viewbox_fields("<svg viewBox=\"0 0 24 16 3\">"), None);
    assert_eq!(sprite_viewbox_fields("<svg viewBox=\"0 0 24 16"), None);
    assert_eq!(sprite_viewbox_fields("<svg viewbox=\"0 0 24 16\">"), None);
}

#[test]
fn render_order_is_a_permutation_of_positions() {
    let nodes: Vec<OrderNode> = (0..8)
        .map(|i| order_node(i, ActivityNodeTag::Action, false))
        .collect();
    let mut order = compute_render_order_for_repeat(&nodes, &[(6, 1), (4, 2)], &[(7, 0, 5)]);
    assert_eq!(order, vec![1, 2, 3, 4, 5, 6, 0, 7]);
    order.sort();
    assert_eq!(order, (0..8).collect::<Vec<usize>>());
}

#[test]
fn render_order_draws_a_hexagon_that_is_a_backward_node_once() {
    let nodes: Vec<OrderNode> = (0..4)
        .map(|i| order_node(i, ActivityNodeTag::Action, false))
        .collect();
    let order = compute_render_order_for_repeat(&nodes, &[(3, 2)], &[(1, 0, 3)]);
    assert_eq!(order, vec![0, 1, 3, 2]);
}

#[test]
fn repeat_edge_from_diamond_to_hexagon_is_kept() {
    let kinds = vec![ActivityNodeTag::Start, ActivityNodeTag::Diamond, ActivityNodeTag::Hexagon];
    let order = reorder_edges_for_repeat(&[edge(1, 2)], &[(1, 2, 1)], &kinds);
    assert_eq!(order, vec![EdgeSlot::Edge(0), EdgeSlot::Loopback { frame: 0, k: 0 }]);
}

#[test]
fn repeat_edges_keep_both_branches_into_the_hexagon() {
    // diamond 0, if 1 with branches 2 and 3 merging into the hexagon 4
    let kinds = vec![
        ActivityNodeTag::Diamond,
        ActivityNodeTag::IfDiamond,
        ActivityNodeTag::Action,
        ActivityNodeTag::Action,
        ActivityNodeTag::Hexagon,
    ];
    let edges = vec![edge(0, 1), edge(1, 2), edge(1, 3), edge(2, 4), edge(3, 4)];
    let order = reorder_edges_for_repeat(&edges, &[(0, 4, 1)], &kinds);
    assert_eq!(
        order,
        vec![
            EdgeSlot::Edge(1),
            EdgeSlot::Edge(2),
            EdgeSlot::Edge(0),
            EdgeSlot::Loopback { frame: 0, k: 0 },
            EdgeSlot::Edge(3),
            EdgeSlot::Edge(4),
        ]
    );
}

#[test]
fn repeat_loopbacks_of_a_frame_without_edges_are_kept() {
    let kinds = vec![ActivityNodeTag::Action, ActivityNodeTag::Action];
    let order = reorder_edges_for_repeat(&[edge(0, 1)], &[(5, 7, 2)], &kinds);
    assert_eq!(
        order,
        vec![
            EdgeSlot::Edge(0),
            EdgeSlot::Loopback { frame: 0, k: 0 },
            EdgeSlot::Loopback { frame: 0, k: 1 },
        ]
    );
}

#[test]
fn render_order_backward_node_that_is_an_earlier_hexagon() {
    let nodes: Vec<OrderNode> = (0..4)
        .map(|i| order_node(i, ActivityNodeTag::Action, false))
        .collect();
    let order = compute_render_order_for_repeat(&nodes, &[(1, 0)], &[(3, 2, 1)]);
    assert_eq!(order, vec![0, 1, 2, 3]);
}

#[test]
fn flow_edges_join_consecutive_flow_nodes() {
    let nodes = vec![
        order_node(0, ActivityNodeTag::Start, false),
        order_node(1, ActivityNodeTag::Note { position: NotePositionLayout::Right, mode: ActivityNoteModeLayout::Single }, false),
        order_node(2, ActivityNodeTag::IfDiamond, false),
        order_node(3, ActivityNodeTag::Action, true),
        order_node(4, ActivityNodeTag::Action, false),
        order_node(5, ActivityNodeTag::BackwardAction, false),
        order_node(6, ActivityNodeTag::Stop, false),
    ];
    assert_eq!(flow_edge_pairs(&nodes), vec![(0, 2), (2, 4), (4, 6)]);
    assert_eq!(flow_edge_pairs(&nodes[..1]), vec![]);
    assert_eq!(flow_edge_pairs(&[]), vec![]);
}

#[test]
fn node_lanes_follow_lane_switches() {
    let lanes = vec!["A".to_string(), "B".to_string()];
    let ev = vec![
        ActivityEventTag::Start,
        ActivityEventTag::Swimlane("B".to_string()),
        ActivityEventTag::Action,
        ActivityEventTag::Goto("x".to_string()),
        ActivityEventTag::Note(NotePositionLayout::Left),
        ActivityEventTag::Swimlane("C".to_string()),
        ActivityEventTag::Break,
        ActivityEventTag::Stop,
    ];
    assert_eq!(node_lanes(&ev, &lanes), vec![0, 1, 1, 0]);
    assert_eq!(node_lanes(&[], &lanes), Vec::<usize>::new());
    assert_eq!(node_lanes(&[ActivityEventTag::Action], &[]), vec![0]);
}

#[test]
fn edges_across_an_if_block_are_dropped() {
    let nodes = vec![
        order_node(0, ActivityNodeTag::Start, false),
        order_node(1, ActivityNodeTag::Action, false),
        order_node(2, ActivityNodeTag::IfDiamond, true),
        order_node(3, ActivityNodeTag::Action, true),
        order_node(4, ActivityNodeTag::Stop, false),
    ];
    let edges = flow_edge_pairs(&nodes);
    assert_eq!(edges, vec![(0, 1), (1, 4)]);
    assert_eq!(drop_edges_across_if_blocks(&nodes, &edges, &[2]), vec![(0, 1)]);
    assert_eq!(drop_edges_across_if_blocks(&nodes, &edges, &[]), edges);
    // With no flow node after the diamond the block ends at the diamond itself.
    assert_eq!(drop_edges_across_if_blocks(&nodes, &[(0, 4), (0, 1)], &[4]), vec![(0, 1)]);
}

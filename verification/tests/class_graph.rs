use plantuml_little::class_graph::{
    build_layout_clusters, class_link_edge, class_rankdir, cluster_info,
    collect_standalone_square_edges, compute_square_branch, note_id, note_link_edge, note_side,
    square_edges_for_entities, ArrowHead, ClassLink, ClusterStyle, Direction, Group, GroupKind,
    LineStyle, LinkDecoration, LinkStyle, NoteSide, RankDir,
};

fn names(v: &[&str]) -> Vec<String> {
    v.iter().map(|s| s.to_string()).collect()
}

fn link(from: &str, to: &str) -> ClassLink {
    ClassLink {
        from: from.to_string(),
        to: to.to_string(),
        label: None,
        from_label: None,
        to_label: None,
        left_head: ArrowHead::Plain,
        right_head: ArrowHead::Arrow,
        line_style: LineStyle::Solid,
        arrow_len: 2,
    }
}

fn group(name: &str, line: Option<usize>, entities: &[&str]) -> Group {
    Group {
        name: name.to_string(),
        kind: GroupKind::Package,
        entities: names(entities),
        source_line: line,
    }
}

#[test]
fn square_branch_is_ceiling_square_root() {
    let expected = [0usize, 1, 2, 2, 2, 3, 3, 3, 3, 3, 4];
    for (n, b) in expected.iter().enumerate() {
        assert_eq!(compute_square_branch(n), *b, "size {n}");
    }
    assert_eq!(compute_square_branch(10_000), 100);
    assert_eq!(compute_square_branch(10_001), 101);
}

#[test]
fn square_edges_for_five_entities() {
    let edges = square_edges_for_entities(&names(&["a", "b", "c", "d", "e"]));
    let triples: Vec<(String, String, u32)> = edges
        .iter()
        .map(|e| (e.from.clone(), e.to.clone(), e.minlen))
        .collect();
    assert_eq!(
        triples,
        vec![
            ("a".to_string(), "b".to_string(), 0),
            ("b".to_string(), "c".to_string(), 0),
            ("a".to_string(), "d".to_string(), 1),
            ("d".to_string(), "e".to_string(), 0),
        ]
    );
    assert!(edges.iter().all(|e| e.invisible && e.line_style == LinkStyle::Normal));
    assert!(square_edges_for_entities(&names(&["a", "b"])).is_empty());
}

#[test]
fn square_edges_use_sanitised_ids() {
    let edges = square_edges_for_entities(&names(&["p.A", "B", "C"]));
    assert_eq!(edges[0].from, "p_DOT_A");
}

#[test]
fn standalone_square_edges_skip_linked_and_grouped() {
    let entities = names(&["A", "B", "C", "D", "E", "F", "G"]);
    let links = vec![link("A", "B")];
    let groups = vec![group("pkg", Some(1), &["E", "F", "G", "A"])];
    let edges = collect_standalone_square_edges(&entities, &links, &groups);
    let pairs: Vec<(String, String)> = edges.iter().map(|e| (e.from.clone(), e.to.clone())).collect();
    assert_eq!(
        pairs,
        vec![
            // roots C, D: fewer than three, no edges; group: E, F, G
            ("E".to_string(), "F".to_string()),
            ("E".to_string(), "G".to_string()),
        ]
    );
}

#[test]
fn class_link_edge_maps_heads_and_length() {
    let mut l = link("List<T>", "B");
    l.left_head = ArrowHead::DiamondHollow;
    l.right_head = ArrowHead::Triangle;
    l.line_style = LineStyle::Dashed;
    l.arrow_len = 1;
    let e = class_link_edge(&l);
    assert_eq!(e.from, "List_LT_T_GT_");
    assert_eq!(e.tail_decoration, LinkDecoration::Aggregation);
    assert_eq!(e.head_decoration, LinkDecoration::Extends);
    assert_eq!(e.line_style, LinkStyle::Dashed);
    assert_eq!(e.minlen, 0);
    l.arrow_len = 0;
    assert_eq!(class_link_edge(&l).minlen, 0);
    l.arrow_len = 3;
    assert_eq!(class_link_edge(&l).minlen, 2);
}

#[test]
fn note_edges_follow_position() {
    assert_eq!(note_id(12), "GMN12");
    assert_eq!(note_side("bottom"), NoteSide::Bottom);
    assert_eq!(note_side("diagonal"), NoteSide::Other);
    let target = Some("Foo".to_string());
    let top = note_link_edge(0, "top", &target).unwrap();
    assert_eq!((top.from.as_str(), top.to.as_str(), top.minlen), ("GMN0", "Foo", 1));
    assert!(!top.no_constraint);
    let right = note_link_edge(3, "right", &target).unwrap();
    assert_eq!((right.from.as_str(), right.to.as_str(), right.minlen), ("Foo", "GMN3", 0));
    assert!(right.no_constraint);
    assert_eq!(right.line_style, LinkStyle::Dashed);
    let left = note_link_edge(1, "left", &target).unwrap();
    assert_eq!((left.from.as_str(), left.to.as_str(), left.minlen), ("GMN1", "Foo", 0));
    let bottom = note_link_edge(2, "bottom", &target).unwrap();
    assert_eq!((bottom.from.as_str(), bottom.to.as_str()), ("Foo", "GMN2"));
    assert!(note_link_edge(0, "right", &None).is_none());
}

#[test]
fn rankdir_only_when_explicit() {
    assert_eq!(class_rankdir(&Direction::LeftToRight, true), RankDir::LeftToRight);
    assert_eq!(class_rankdir(&Direction::LeftToRight, false), RankDir::TopToBottom);
}

#[test]
fn clusters_nest_by_dotted_names() {
    let groups = vec![
        group("a", Some(1), &["X"]),
        group("a.b", Some(3), &[]),
        group("a.c", Some(2), &[]),
        group("d", None, &[]),
        group("a.b.e", Some(4), &[]),
        group("ab", Some(0), &[]),
    ];
    let forest = build_layout_clusters(&groups);
    assert_eq!(forest.roots, vec![5, 0, 3]);
    assert_eq!(forest.children[0], vec![2, 1]);
    assert_eq!(forest.children[1], vec![4]);
    assert!(forest.children[2].is_empty());
    assert!(forest.children[5].is_empty());
}

#[test]
fn clusters_order_ties_by_depth_then_name() {
    let groups = vec![
        group("z", None, &[]),
        group("y.q", None, &[]),
        group("b", None, &[]),
    ];
    let forest = build_layout_clusters(&groups);
    assert_eq!(forest.roots, vec![2, 0, 1]);
}

#[test]
fn cluster_info_of_group() {
    let mut g = group("net.pkg", Some(7), &["net.pkg.A", "B C"]);
    g.kind = GroupKind::Rectangle;
    let info = cluster_info(&g);
    assert_eq!(info.id, "grp_net_DOT_pkg");
    assert_eq!(info.title, "pkg");
    assert_eq!(info.style, ClusterStyle::Rectangle);
    assert_eq!(info.node_ids, names(&["net_DOT_pkg_DOT_A", "B_C"]));
    assert_eq!(info.order, Some(7));
    g.kind = GroupKind::Namespace;
    assert_eq!(cluster_info(&g).style, ClusterStyle::Package);
}

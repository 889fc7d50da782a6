use plantuml_little::class_graph::{direction_to_rankdir, Direction, RankDir};
use plantuml_little::text::{
    class_entity_display_name, split_name_display, split_name_display_lines, sanitize_id,
    DisplayAlignment, DisplayLine,
};
use plantuml_little::NEWLINE_CHAR;

#[test]
fn sanitize_id_escapes_special_chars() {
    assert_eq!(sanitize_id("List<String>"), "List_LT_String_GT_");
    assert_eq!(sanitize_id("Map<K, V>"), "Map_LT_K_COMMA__V_GT_");
    assert_eq!(sanitize_id("pkg1.pkg2.Class"), "pkg1_DOT_pkg2_DOT_Class");
    assert_eq!(sanitize_id("Simple"), "Simple");
    assert_eq!(sanitize_id("My Class"), "My_Class");
}

#[test]
fn direction_maps_to_rankdir() {
    assert!(matches!(
        direction_to_rankdir(&Direction::TopToBottom),
        RankDir::TopToBottom
    ));
    assert!(matches!(
        direction_to_rankdir(&Direction::LeftToRight),
        RankDir::LeftToRight
    ));
    assert!(matches!(
        direction_to_rankdir(&Direction::BottomToTop),
        RankDir::BottomToTop
    ));
    assert!(matches!(
        direction_to_rankdir(&Direction::RightToLeft),
        RankDir::RightToLeft
    ));
}

#[test]
fn split_name_single_line() {
    let lines = split_name_display_lines("Foo");
    assert_eq!(lines, vec!["Foo"]);
}

#[test]
fn split_name_backslash_n() {
    let lines = split_name_display_lines("Class 1\\nLine 2");
    assert_eq!(lines, vec!["Class 1", "Line 2"]);
}

#[test]
fn split_name_backslash_r_n() {
    let lines = split_name_display_lines("Class 1\\r\\nLine 2");
    assert_eq!(lines, vec!["Class 1", "", "Line 2"]);
}

#[test]
fn split_name_backslash_r() {
    let lines = split_name_display_lines("Part A\\rPart B");
    assert_eq!(lines, vec!["Part A", "Part B"]);
}

#[test]
fn split_name_crlf_preserves_empty_line_in_visible_lines() {
    let lines = split_name_display_lines("Before\\r\\n\\tAfter");
    assert_eq!(lines, vec!["Before", "", "After"]);
}

#[test]
fn split_name_display_tracks_alignment_and_leading_tabs() {
    let block = split_name_display("Before\\r\\n\\tAfter");
    assert_eq!(block.alignment, DisplayAlignment::Right);
    assert_eq!(
        block.lines,
        vec![
            DisplayLine {
                text: "Before".to_string(),
                leading_tabs: 0
            },
            DisplayLine {
                text: "".to_string(),
                leading_tabs: 0
            },
            DisplayLine {
                text: "After".to_string(),
                leading_tabs: 1
            },
        ]
    );
}

#[test]
fn split_name_separate_r_and_n() {
    // \r and \n as separate sequences produce empty line between
    let lines = split_name_display_lines("A\\rB\\nC");
    assert_eq!(lines, vec!["A", "B", "C"]);
}

#[test]
fn split_name_newline_char() {
    let name = format!("A{}B", NEWLINE_CHAR);
    let lines = split_name_display_lines(&name);
    assert_eq!(lines, vec!["A", "B"]);
}

#[test]
fn class_entity_display_name_drops_namespace_prefix() {
    let display = class_entity_display_name("pkg1.pkg2.Class 1\\r\\n\\tBody");
    assert_eq!(display, "Class 1\\r\\n\\tBody");
}

// ---------------------------------------------------------------------------
// Names and labels
// ---------------------------------------------------------------------------

use plantuml_little::text::{cluster_id, group_display_name, split_label_lines};

#[test]
fn cluster_id_prefixes_sanitised_name() {
    assert_eq!(cluster_id("pkg.sub"), "grp_pkg_DOT_sub");
    assert_eq!(cluster_id(""), "grp_");
}

#[test]
fn sanitize_id_twice_is_sanitize_once() {
    for name in ["Map<K, V>", "a.b c", "plain", ""] {
        let once = sanitize_id(name);
        assert_eq!(sanitize_id(&once), once);
        assert!(!once.contains(|c| matches!(c, '<' | '>' | ',' | '.' | ' ')));
    }
}

#[test]
fn group_display_name_keeps_last_segment() {
    assert_eq!(group_display_name("a.b.c"), "c");
    assert_eq!(group_display_name("single"), "single");
    assert_eq!(group_display_name("trailing."), "");
}

#[test]
fn class_entity_display_name_only_strips_first_line() {
    assert_eq!(class_entity_display_name("a.b.C"), "C");
    assert_eq!(class_entity_display_name("Plain"), "Plain");
    // the dot after the line break belongs to the second line
    assert_eq!(class_entity_display_name("p.Name\\nx.y"), "Name\\nx.y");
    assert_eq!(class_entity_display_name("p.Name\nx.y"), "Name\nx.y");
    let once = class_entity_display_name("pkg1.pkg2.Class 1\\r\\n\\tBody");
    assert_eq!(class_entity_display_name(&once), once);
}

#[test]
fn split_label_lines_keeps_trailing_empty_line() {
    assert_eq!(split_label_lines("a\\nb\\n"), vec!["a", "b", ""]);
    let with_placeholder = format!("x{}y", NEWLINE_CHAR);
    assert_eq!(split_label_lines(&with_placeholder), vec!["x", "y"]);
    // a real line feed is not a separator of labels
    assert_eq!(split_label_lines("x\ny"), vec!["x\ny"]);
    assert_eq!(split_label_lines(""), vec![""]);
}

#[test]
fn split_name_display_left_alignment_and_escapes() {
    let block = split_name_display("A\\lB\\tC\\\\D");
    assert_eq!(block.alignment, DisplayAlignment::Left);
    assert_eq!(block.lines.len(), 2);
    assert_eq!(block.lines[0].text, "A");
    assert_eq!(block.lines[1].text, "B\tC\\D");
    let block = split_name_display("\\t\\tX");
    assert_eq!(block.alignment, DisplayAlignment::Center);
    assert_eq!(block.lines[0].leading_tabs, 2);
    assert_eq!(block.lines[0].text, "X");
    // a lone backslash is kept
    assert_eq!(split_name_display_lines("a\\q"), vec!["a\\q"]);
    assert_eq!(split_name_display_lines(""), vec![""]);
}

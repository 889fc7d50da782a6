use plantuml_little::markup::{
    collect_unclosed_creole_prefix, match_html_tag, strip_html_markup,
    try_collect_unclosed_creole_prefix, HtmlTag,
};

#[test]
fn strip_html_markup_removes_known_tags() {
    let m = strip_html_markup("<B>Bold</b> and <strike>x</STRIKE>");
    assert_eq!(m.text, "Bold and x");
    assert!(m.bold);
    assert!(!m.italic);
    assert!(!m.underline);
    assert!(m.strikethrough);
}

#[test]
fn strip_html_markup_closing_tag_alone_sets_nothing() {
    let m = strip_html_markup("a</i>b<x>");
    assert_eq!(m.text, "ab<x>");
    assert!(!m.italic);
}

#[test]
fn strip_html_markup_keeps_non_ascii_text() {
    let m = strip_html_markup("<u>é</u>");
    assert_eq!(m.text, "é");
    assert!(m.underline);
}

#[test]
fn match_html_tag_reports_length_and_kind() {
    assert_eq!(match_html_tag("<strike>"), Some((8, true, HtmlTag::Strike)));
    assert_eq!(match_html_tag("</I>x"), Some((4, false, HtmlTag::Italic)));
    assert_eq!(match_html_tag("<bx"), None);
    assert_eq!(match_html_tag("x<b>"), None);
}

#[test]
fn unclosed_creole_prefix_of_back_highlight() {
    assert_eq!(
        collect_unclosed_creole_prefix("* Calling the method is <back:red>prohibited"),
        "<back:red>"
    );
}

#[test]
fn unclosed_creole_prefix_drops_closed_tags() {
    assert_eq!(collect_unclosed_creole_prefix("<b>bold <i>it</i>"), "<b>");
    assert_eq!(collect_unclosed_creole_prefix("<B>x<i>y"), "<b><i>");
    assert_eq!(collect_unclosed_creole_prefix("<B>x <i>y</i>"), "<b>");
    assert_eq!(collect_unclosed_creole_prefix("<b><color:Blue>z</b>"), "<color:Blue>");
    assert_eq!(collect_unclosed_creole_prefix("<BACK:Red>z"), "<BACK:Red>");
    assert_eq!(collect_unclosed_creole_prefix("<b>x</b>"), "");
    assert_eq!(collect_unclosed_creole_prefix("<size:12>a<color:red>b</size>"), "<color:red>");
    // a prefix without its closing `>` opens nothing
    assert_eq!(collect_unclosed_creole_prefix("<back:red"), "");
}

#[test]
fn unclosed_creole_prefix_reports_cut_characters() {
    // the byte-wise test of `<b>` at the start would end inside `é`
    assert_eq!(try_collect_unclosed_creole_prefix("xxé"), None);
    assert_eq!(try_collect_unclosed_creole_prefix("aé"), Some(String::new()));
    assert_eq!(
        try_collect_unclosed_creole_prefix("<i>abc"),
        Some("<i>".to_string())
    );
}

#[test]
fn ascii_line_always_scans() {
    for line in ["<b", "<back:", "</size>x<i>", "plain", ""] {
        assert!(try_collect_unclosed_creole_prefix(line).is_some());
    }
}

#[test]
fn line_without_tag_leaves_nothing_open() {
    assert_eq!(try_collect_unclosed_creole_prefix("a > b & c"), Some(String::new()));
}

#[test]
fn strip_html_markup_without_tags_keeps_text() {
    let m = strip_html_markup("a > b & c");
    assert_eq!(m.text, "a > b & c");
    assert!(!m.bold && !m.italic && !m.underline && !m.strikethrough);
}

#[test]
fn unclosed_creole_prefix_is_a_fixed_point() {
    for line in [
        "<B>x<i>y",
        "Calling <b>the</b> method is <back:red>prohibited",
        "<SIZE:12>a<color:Light Blue>b<u>c</font>",
        "plain",
    ] {
        let r = collect_unclosed_creole_prefix(line);
        assert_eq!(collect_unclosed_creole_prefix(&r), r);
    }
}

#[test]
fn unclosed_creole_prefix_is_a_fixed_point_on_non_ascii_lines() {
    for line in ["\u{e9}<b>", "<b>\u{e9}", "<b>\u{e9}</b>", "<back:\u{e9}>x"] {
        let r = try_collect_unclosed_creole_prefix(line).unwrap();
        assert_eq!(try_collect_unclosed_creole_prefix(&r), Some(r.clone()));
    }
}

#[test]
fn unclosed_creole_prefix_refuses_a_cut_inside_a_character() {
    assert_eq!(try_collect_unclosed_creole_prefix("<i>x</i>\u{e9}"), None);
}

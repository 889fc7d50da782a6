use plantuml_little::wrap::{try_wrap_note_text, wrap_note_text};

fn at_most(n: usize) -> impl Fn(&str, bool) -> bool {
    move |s: &str, _bullet: bool| s.chars().count() <= n
}

#[test]
fn wrap_short_line_unchanged() {
    assert_eq!(wrap_note_text("Short", at_most(20)), "Short");
}

#[test]
fn wrap_keeps_existing_newlines() {
    let w = wrap_note_text("Line one\nLine two", at_most(20));
    assert_eq!(w, "Line one\nLine two");
    assert_eq!(w.lines().count(), 2);
}

#[test]
fn wrap_long_line_greedily() {
    let w = wrap_note_text("A Long Long Long Long Long Long note", at_most(12));
    assert_eq!(w, "A Long Long\nLong Long\nLong Long\nnote");
}

#[test]
fn wrap_keeps_a_word_wider_than_the_line() {
    assert_eq!(wrap_note_text("tiny enormousword end", at_most(5)), "tiny\nenormousword\nend");
}

#[test]
fn wrap_bullet_first_line_keeps_bullet() {
    let w = wrap_note_text("  * Calling the method is prohibited overlap", at_most(20));
    let lines: Vec<&str> = w.lines().collect();
    assert_eq!(lines, vec!["* Calling the method", "is prohibited", "overlap"]);
}

#[test]
fn wrap_bullet_is_measured_without_bullet() {
    let seen = std::cell::RefCell::new(Vec::new());
    let w = wrap_note_text("* abc", |s: &str, bullet: bool| {
        seen.borrow_mut().push((s.to_string(), bullet));
        true
    });
    assert_eq!(w, "* abc");
    assert_eq!(seen.into_inner(), vec![("abc".to_string(), true)]);
}

#[test]
fn wrap_carries_unclosed_back_highlight() {
    let w = wrap_note_text(
        "* Calling the method is <back:red>prohibited overlap",
        at_most(22),
    );
    let lines: Vec<&str> = w.lines().collect();
    assert_eq!(
        lines,
        vec!["* Calling the method is", "<back:red>prohibited", "<back:red>overlap"]
    );
}

#[test]
fn wrap_reports_cut_characters() {
    assert_eq!(try_wrap_note_text("xx\u{e9} yy", at_most(3)), None);
    assert_eq!(
        try_wrap_note_text("ab cd", at_most(3)),
        Some("ab\ncd".to_string())
    );
}

#[test]
fn wrap_with_unlimited_measure_is_identity() {
    let t = "* one two\n\nthree  four <b>five";
    assert_eq!(wrap_note_text(t, |_s: &str, _b: bool| true), t);
}

#[test]
fn wrap_only_turns_single_spaces_into_breaks() {
    let line = "* Calling the method is prohibited overlap everywhere";
    let w = wrap_note_text(line, at_most(12));
    assert_eq!(w.replace('\n', " "), line);
    for (k, l) in w.lines().enumerate() {
        let x = if k == 0 { &l[2..] } else { l };
        assert!(x.chars().count() <= 12 || !x.contains(' '));
    }
}

/// A measure with a fixed width in characters, from which a bullet item loses
/// the width of its bullet indent.
fn width_with_indent(width: usize, indent: usize) -> impl Fn(&str, bool) -> bool {
    move |s: &str, bullet: bool| s.chars().count() + if bullet { indent } else { 0 } <= width
}

#[test]
fn wrap_bullet_list_uses_reduced_width() {
    let bullet = r#"* Calling the method ""foo()"" is prohibited overlap"#;
    let plain = r#"Calling the method ""foo()"" is prohibited overlap"#;
    let wrapped_bullet = wrap_note_text(bullet, width_with_indent(13, 2));
    let wrapped_plain = wrap_note_text(plain, width_with_indent(13, 2));
    let bullet_lines: Vec<&str> = wrapped_bullet.split('\n').collect();
    let plain_lines: Vec<&str> = wrapped_plain.split('\n').collect();
    assert!(bullet_lines.len() > plain_lines.len(), "{bullet_lines:?} {plain_lines:?}");
    assert!(wrapped_bullet.starts_with("* "));
    for cl in bullet_lines.iter().skip(1) {
        assert!(!cl.starts_with("* "));
    }
}

#[test]
fn wrap_whole_text_keeps_words_and_lines() {
    let text = "alpha beta gamma\n* delta epsilon zeta\n\neta theta";
    let w = wrap_note_text(text, width_with_indent(11, 2));
    assert_eq!(w.replace('\n', " "), text.replace('\n', " "));
    assert!(w.split('\n').count() >= text.split('\n').count());
    for l in w.split('\n') {
        let fits_or_word = |x: &str, bullet: bool| {
            x.chars().count() + if bullet { 2 } else { 0 } <= 11 || !x.contains(' ')
        };
        assert!(
            fits_or_word(l, false)
                || fits_or_word(l, true)
                || (l.starts_with("* ") && fits_or_word(&l[2..], true))
        );
    }
}

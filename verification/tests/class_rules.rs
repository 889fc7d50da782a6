use plantuml_little::class_diagram::{
    entity_lf_extra_left, member_text, member_visual_lines, show_portion, split_member_lines,
    stereotype_label_visible, visible_stereotype_labels, ClassHideShowRule, ClassPortion,
    ClassRuleTarget, Member, MemberModifiers, Visibility,
};

fn member(vis: Option<Visibility>, name: &str, ret: Option<&str>, is_method: bool) -> Member {
    Member {
        visibility: vis,
        name: name.to_string(),
        return_type: ret.map(|s| s.to_string()),
        is_method,
        modifiers: MemberModifiers::default(),
        display: None,
    }
}

fn rule(portion: ClassPortion, target: ClassRuleTarget, show: bool, empty_only: bool) -> ClassHideShowRule {
    ClassHideShowRule { portion, target, show, empty_only }
}

#[test]
fn member_text_formats() {
    assert_eq!(member_text(&member(None, "foo()", Some("int"), true)), "foo(): int");
    assert_eq!(member_text(&member(None, "x", Some("String"), false)), "x : String");
    assert_eq!(member_text(&member(None, "bare", None, false)), "bare");
    let mut m = member(None, "x", Some("T"), false);
    m.display = Some("raw : text".to_string());
    assert_eq!(member_text(&m), "raw : text");
}

#[test]
fn member_visual_lines_counts_breaks() {
    let mut m = member(None, "a", None, false);
    m.display = Some("one\\ntwo\nthree".to_string());
    assert_eq!(member_visual_lines(&m), 3);
    assert_eq!(member_visual_lines(&member(None, "a", None, false)), 1);
}

#[test]
fn split_member_lines_separates_indent() {
    let parts = split_member_lines("  first\\n  second\nthird");
    assert_eq!(
        parts,
        vec![
            ("  first".to_string(), String::new()),
            ("second".to_string(), "  ".to_string()),
            ("third".to_string(), String::new()),
        ]
    );
}

#[test]
fn show_portion_last_rule_wins() {
    assert!(show_portion(&[], ClassPortion::Field, "A", 0));
    let rules = vec![
        rule(ClassPortion::Field, ClassRuleTarget::Any, false, false),
        rule(ClassPortion::Field, ClassRuleTarget::Entity("A".to_string()), true, false),
    ];
    assert!(show_portion(&rules, ClassPortion::Field, "A", 1));
    assert!(!show_portion(&rules, ClassPortion::Field, "B", 1));
    // rules about methods do not touch fields
    assert!(show_portion(&rules, ClassPortion::Method, "B", 1));
}

#[test]
fn show_portion_empty_only_rule() {
    let rules = vec![rule(ClassPortion::Method, ClassRuleTarget::Any, false, true)];
    assert!(!show_portion(&rules, ClassPortion::Method, "A", 0));
    assert!(show_portion(&rules, ClassPortion::Method, "A", 2));
}

#[test]
fn stereotype_visibility_rules() {
    let rules = vec![
        rule(ClassPortion::Stereotype, ClassRuleTarget::Any, false, false),
        rule(ClassPortion::Stereotype, ClassRuleTarget::Stereotype("keep".to_string()), true, false),
    ];
    assert!(stereotype_label_visible(&rules, "keep"));
    assert!(!stereotype_label_visible(&rules, "other"));
    let labels = vec!["other".to_string(), String::new(), "keep".to_string()];
    assert_eq!(visible_stereotype_labels(&rules, &labels), vec!["keep".to_string()]);
    assert_eq!(
        visible_stereotype_labels(&[], &labels),
        vec!["other".to_string(), "keep".to_string()]
    );
}

#[test]
fn entity_lf_extra_left_for_polygon_icons() {
    let members = vec![
        member(Some(Visibility::Public), "a", None, false),
        member(Some(Visibility::Protected), "b", None, false),
    ];
    assert_eq!(entity_lf_extra_left(&[], "E", &members), 2);
    let hide_fields = vec![rule(ClassPortion::Field, ClassRuleTarget::Any, false, false)];
    assert_eq!(entity_lf_extra_left(&hide_fields, "E", &members), 0);
    let public_only = vec![member(Some(Visibility::Public), "a", None, true)];
    assert_eq!(entity_lf_extra_left(&[], "E", &public_only), 0);
    let package_method = vec![member(Some(Visibility::Package), "m()", None, true)];
    assert_eq!(entity_lf_extra_left(&hide_fields, "E", &package_method), 2);
}

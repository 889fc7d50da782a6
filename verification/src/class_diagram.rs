//! The class-diagram model that the layout reads, and the rules that decide
//! what of an entity is shown: member texts, hide/show rules, stereotypes.

use vstd::prelude::*;
use crate::text::{break_split, chars_of, NEWLINE_CHAR, white_prefix_end, lemma_break_scan_len};

verus! {

/// Visibility modifier of a member or an entity.
#[derive(Debug, Clone, Copy, PartialEq, Eq, Structural)]
pub enum Visibility {
    Public,
    Private,
    Protected,
    Package,
}

/// Modifiers of a member that affect its rendering.
#[derive(Debug, Clone, Copy, PartialEq, Eq, Structural, Default)]
pub struct MemberModifiers {
    pub is_abstract: bool,
    pub is_static: bool,
}

/// A field or method of a class entity.
#[derive(Debug, Clone, PartialEq, Eq)]
pub struct Member {
    pub visibility: Option<Visibility>,
    pub name: String,
    pub return_type: Option<String>,
    pub is_method: bool,
    pub modifiers: MemberModifiers,
    /// The raw display text, when the source gave one.
    pub display: Option<String>,
}

/// The text shown for a member: its raw display text when there is one;
/// otherwise `name(): type` for a name ending in `)`, `name : type` for
/// another typed name, or the bare name.
pub open spec fn member_text_spec(m: Member) -> Seq<char> {
    match m.display {
        Some(d) => d@,
        None => match m.return_type {
            Some(t) => if m.name@.len() > 0 && m.name@.last() == ')' {
                m.name@ + seq![':', ' '] + t@
            } else {
                m.name@ + seq![' ', ':', ' '] + t@
            },
            None => m.name@,
        },
    }
}

fn push_str_chars(out: &mut String, s: &str)
    ensures
        final(out)@ == old(out)@ + s@,
{
    let v = chars_of(s);
    crate::text::push_range(out, &v, 0, v.len());
    assert(v@.subrange(0, v@.len() as int) =~= v@);
}

/// The display text of a member (see `member_text_spec`).
pub fn member_text(m: &Member) -> (r: String)
    ensures
        r@ == member_text_spec(*m),
{
    match &m.display {
        Some(d) => d.clone(),
        None => match &m.return_type {
            Some(t) => {
                let nv = chars_of(m.name.as_str());
                let mut out = String::new();
                push_str_chars(&mut out, m.name.as_str());
                if nv.len() > 0 && nv[nv.len() - 1] == ')' {
                    out.push(':');
                    out.push(' ');
                } else {
                    out.push(' ');
                    out.push(':');
                    out.push(' ');
                }
                push_str_chars(&mut out, t.as_str());
                assert(out@ =~= member_text_spec(*m));
                out
            },
            None => m.name.clone(),
        },
    }
}

/// The number of visual lines a member occupies: its text split at `\n`
/// escapes, `NEWLINE_CHAR` and line feeds.
pub fn member_visual_lines(m: &Member) -> (n: usize)
    ensures
        n == break_split(member_text_spec(*m), true).len(),
        n >= 1,
{
    let text = member_text(m);
    let parts = split_member_parts(text.as_str());
    proof {
        lemma_break_scan_len(text@, 0, true, Seq::empty(), Seq::empty());
    }
    parts.len()
}

/// The visual lines of a member text, split at `\n` escapes,
/// `NEWLINE_CHAR` and line feeds.
pub fn split_member_parts(text: &str) -> (r: Vec<String>)
    ensures
        r@.len() == break_split(text@, true).len(),
        forall|k: int| 0 <= k < r@.len() ==> (#[trigger] r@[k])@ == break_split(text@, true)[k],
{
    crate::text::break_split_exec(text, true)
}

/// The visual lines of a member text with their indentation: the first line
/// is kept whole with no indentation; each later line is split into its text
/// without leading white space and that leading white space (whose width the
/// renderer uses as the line's indent).
#[verifier::rlimit(40)]
pub fn split_member_lines(text: &str) -> (r: Vec<(String, String)>)
    ensures
        r@.len() == break_split(text@, true).len(),
        r@.len() >= 1,
        r@[0].0@ == break_split(text@, true)[0],
        r@[0].1@ == Seq::<char>::empty(),
        forall|k: int|
            1 <= k < r@.len() ==> {
                let part = break_split(text@, true)[k];
                &&& (#[trigger] r@[k]).0@ == part.skip(white_prefix_end(part, 0))
                &&& r@[k].1@ == part.take(white_prefix_end(part, 0))
            },
{
    let parts = split_member_parts(text);
    proof {
        lemma_break_scan_len(text@, 0, true, Seq::empty(), Seq::empty());
    }
    let mut r: Vec<(String, String)> = Vec::new();
    let mut k: usize = 0;
    while k < parts.len()
        invariant
            k <= parts@.len(),
            parts@.len() == break_split(text@, true).len(),
            forall|q: int| 0 <= q < parts@.len() ==> (#[trigger] parts@[q])@ == break_split(text@, true)[q],
            r@.len() == k,
            k > 0 ==> r@[0].0@ == break_split(text@, true)[0] && r@[0].1@ == Seq::<char>::empty(),
            forall|q: int|
                1 <= q < k ==> {
                    let part = break_split(text@, true)[q];
                    &&& (#[trigger] r@[q]).0@ == part.skip(white_prefix_end(part, 0))
                    &&& r@[q].1@ == part.take(white_prefix_end(part, 0))
                },
        decreases parts.len() - k,
    {
        if k == 0 {
            r.push((parts[0].clone(), String::new()));
        } else {
            let v = chars_of(parts[k].as_str());
            let mut j: usize = 0;
            while j < v.len() && crate::text::is_white_exec(v[j])
                invariant
                    j <= v.len(),
                    white_prefix_end(v@, j as int) == white_prefix_end(v@, 0),
                decreases v.len() - j,
            {
                j += 1;
            }
            let mut lead = String::new();
            crate::text::push_range(&mut lead, &v, 0, j);
            let mut rest = String::new();
            crate::text::push_range(&mut rest, &v, j, v.len());
            assert(rest@ =~= v@.skip(j as int));
            assert(lead@ =~= v@.take(j as int));
            r.push((rest, lead));
        }
        k += 1;
    }
    r
}

// ---------------------------------------------------------------------------
// Hide / show rules
// ---------------------------------------------------------------------------

/// The part of an entity a hide/show rule is about.
#[derive(Debug, Clone, Copy, PartialEq, Eq, Structural)]
pub enum ClassPortion {
    Field,
    Method,
    Stereotype,
}

/// What a hide/show rule applies to.
#[derive(Debug, Clone, PartialEq, Eq)]
pub enum ClassRuleTarget {
    Any,
    Entity(String),
    Stereotype(String),
}

/// A `hide` / `show` directive of a class diagram.
#[derive(Debug, Clone, PartialEq, Eq)]
pub struct ClassHideShowRule {
    pub portion: ClassPortion,
    pub target: ClassRuleTarget,
    /// `true` for `show`, `false` for `hide`.
    pub show: bool,
    /// The rule only applies to an empty portion (`hide empty fields`).
    pub empty_only: bool,
}

/// Rule `r` decides whether `portion` of the entity named `name`, which has
/// `count` members of that portion, is shown.
pub open spec fn portion_rule_applies(
    r: ClassHideShowRule,
    portion: ClassPortion,
    name: Seq<char>,
    count: nat,
) -> bool {
    &&& r.portion == portion
    &&& !(r.empty_only && count > 0)
    &&& match r.target {
        ClassRuleTarget::Any => true,
        ClassRuleTarget::Entity(n) => n@ == name,
        ClassRuleTarget::Stereotype(_) => false,
    }
}

/// Whether a portion is shown: the last rule that applies decides; with no
/// such rule it is shown.
pub open spec fn show_portion_spec(
    rules: Seq<ClassHideShowRule>,
    portion: ClassPortion,
    name: Seq<char>,
    count: nat,
) -> bool
    decreases rules.len(),
{
    if rules.len() == 0 {
        true
    } else if portion_rule_applies(rules.last(), portion, name, count) {
        rules.last().show
    } else {
        show_portion_spec(rules.drop_last(), portion, name, count)
    }
}

/// Whether `portion` of the entity `entity_name` (which has `member_count`
/// members of that portion) is shown under the hide/show rules.
pub fn show_portion(
    rules: &[ClassHideShowRule],
    portion: ClassPortion,
    entity_name: &str,
    member_count: usize,
) -> (r: bool)
    ensures
        r == show_portion_spec(rules@, portion, entity_name@, member_count as nat),
{
    let mut result = true;
    let mut i: usize = 0;
    while i < rules.len()
        invariant
            i <= rules@.len(),
            result == show_portion_spec(rules@.take(i as int), portion, entity_name@, member_count as nat),
        decreases rules.len() - i,
    {
        let rule = &rules[i];
        let applies = if rule.portion != portion {
            false
        } else if rule.empty_only && member_count > 0 {
            false
        } else {
            match &rule.target {
                ClassRuleTarget::Any => true,
                ClassRuleTarget::Entity(name) => crate::text::str_eq(name.as_str(), entity_name),
                ClassRuleTarget::Stereotype(_) => false,
            }
        };
        if applies {
            result = rule.show;
        }
        assert(rules@.take(i + 1).drop_last() =~= rules@.take(i as int));
        i += 1;
    }
    assert(rules@.take(rules@.len() as int) =~= rules@);
    result
}

/// Rule `r` decides whether the stereotype label `label` is shown.
pub open spec fn stereotype_rule_applies(r: ClassHideShowRule, label: Seq<char>) -> bool {
    &&& r.portion == ClassPortion::Stereotype
    &&& match r.target {
        ClassRuleTarget::Any => true,
        ClassRuleTarget::Stereotype(n) => n@ == label,
        ClassRuleTarget::Entity(_) => false,
    }
}

/// Whether a stereotype label is shown: the last rule about it decides;
/// with no such rule it is shown.
pub open spec fn stereotype_visible_spec(rules: Seq<ClassHideShowRule>, label: Seq<char>) -> bool
    decreases rules.len(),
{
    if rules.len() == 0 {
        true
    } else if stereotype_rule_applies(rules.last(), label) {
        rules.last().show
    } else {
        stereotype_visible_spec(rules.drop_last(), label)
    }
}

/// Whether the stereotype label `label` is shown under the hide/show rules.
pub fn stereotype_label_visible(rules: &[ClassHideShowRule], label: &str) -> (r: bool)
    ensures
        r == stereotype_visible_spec(rules@, label@),
{
    let mut result = true;
    let mut i: usize = 0;
    while i < rules.len()
        invariant
            i <= rules@.len(),
            result == stereotype_visible_spec(rules@.take(i as int), label@),
        decreases rules.len() - i,
    {
        let rule = &rules[i];
        let applies = if rule.portion != ClassPortion::Stereotype {
            false
        } else {
            match &rule.target {
                ClassRuleTarget::Any => true,
                ClassRuleTarget::Stereotype(name) => crate::text::str_eq(name.as_str(), label),
                ClassRuleTarget::Entity(_) => false,
            }
        };
        if applies {
            result = rule.show;
        }
        assert(rules@.take(i + 1).drop_last() =~= rules@.take(i as int));
        i += 1;
    }
    assert(rules@.take(rules@.len() as int) =~= rules@);
    result
}

/// The labels, in order, that are not empty and are visible under the rules.
pub open spec fn visible_labels_spec(rules: Seq<ClassHideShowRule>, labels: Seq<Seq<char>>) -> Seq<
    Seq<char>,
>
    decreases labels.len(),
{
    if labels.len() == 0 {
        Seq::empty()
    } else {
        let prev = visible_labels_spec(rules, labels.drop_last());
        if labels.last().len() > 0 && stereotype_visible_spec(rules, labels.last()) {
            prev.push(labels.last())
        } else {
            prev
        }
    }
}

/// The stereotype labels (already stripped of their spot notation) that are
/// shown: the non-empty ones that the hide/show rules leave visible.
#[verifier::rlimit(40)]
pub fn visible_stereotype_labels(rules: &[ClassHideShowRule], labels: &[String]) -> (r: Vec<String>)
    ensures
        r@.map_values(|s: String| s@) == visible_labels_spec(
            rules@,
            labels@.map_values(|s: String| s@),
        ),
{
    let mut r: Vec<String> = Vec::new();
    let mut i: usize = 0;
    while i < labels.len()
        invariant
            i <= labels@.len(),
            r@.map_values(|s: String| s@) == visible_labels_spec(
                rules@,
                labels@.map_values(|s: String| s@).take(i as int),
            ),
        decreases labels.len() - i,
    {
        let label = &labels[i];
        let lv = chars_of(label.as_str());
        proof {
            let all = labels@.map_values(|s: String| s@);
            assert(all.take(i + 1).drop_last() =~= all.take(i as int));
            assert(all.take(i + 1).last() == label@);
        }
        if lv.len() > 0 && stereotype_label_visible(rules, label.as_str()) {
            let ghost before = r@;
            r.push(label.clone());
            assert(r@.map_values(|s: String| s@) =~= before.map_values(|s: String| s@).push(label@));
        }
        i += 1;
    }
    assert(labels@.map_values(|s: String| s@).take(labels@.len() as int) =~= labels@.map_values(
        |s: String| s@,
    ));
    r
}

// ---------------------------------------------------------------------------
// Visibility icons
// ---------------------------------------------------------------------------

/// The number of fields (non-method members).
pub open spec fn field_count(ms: Seq<Member>) -> nat
    decreases ms.len(),
{
    if ms.len() == 0 {
        0
    } else {
        field_count(ms.drop_last()) + if ms.last().is_method {
            0nat
        } else {
            1nat
        }
    }
}

/// The number of methods.
pub open spec fn method_count(ms: Seq<Member>) -> nat
    decreases ms.len(),
{
    if ms.len() == 0 {
        0
    } else {
        method_count(ms.drop_last()) + if ms.last().is_method {
            1nat
        } else {
            0nat
        }
    }
}

/// Some member shown in its (visible) portion has a protected or package
/// modifier, whose icon is a polygon.
pub open spec fn has_polygon_modifier(
    rules: Seq<ClassHideShowRule>,
    name: Seq<char>,
    ms: Seq<Member>,
) -> bool {
    let show_fields = show_portion_spec(rules, ClassPortion::Field, name, field_count(ms));
    let show_methods = show_portion_spec(rules, ClassPortion::Method, name, method_count(ms));
    exists|k: int|
        0 <= k < ms.len() && (if (#[trigger] ms[k]).is_method {
            show_methods
        } else {
            show_fields
        }) && (ms[k].visibility == Some(Visibility::Protected) || ms[k].visibility == Some(
            Visibility::Package,
        ))
}

fn count_members(ms: &[Member]) -> (r: (usize, usize))
    ensures
        r.0 == field_count(ms@),
        r.1 == method_count(ms@),
{
    let mut f: usize = 0;
    let mut m: usize = 0;
    let mut i: usize = 0;
    while i < ms.len()
        invariant
            i <= ms@.len(),
            f == field_count(ms@.take(i as int)),
            m == method_count(ms@.take(i as int)),
            f + m == i,
        decreases ms.len() - i,
    {
        assert(ms@.take(i + 1).drop_last() =~= ms@.take(i as int));
        if ms[i].is_method {
            m += 1;
        } else {
            f += 1;
        }
        i += 1;
    }
    assert(ms@.take(ms@.len() as int) =~= ms@);
    (f, m)
}

/// The extra left extent, in pixels, of an entity whose shown members use a
/// polygon visibility icon (protected or package): 2, else 0.
pub fn entity_lf_extra_left(rules: &[ClassHideShowRule], entity_name: &str, members: &[Member]) -> (r:
    u32)
    ensures
        r == (if has_polygon_modifier(rules@, entity_name@, members@) {
            2u32
        } else {
            0u32
        }),
{
    let (fields, methods) = count_members(members);
    let show_fields = show_portion(rules, ClassPortion::Field, entity_name, fields);
    let show_methods = show_portion(rules, ClassPortion::Method, entity_name, methods);
    let mut i: usize = 0;
    while i < members.len()
        invariant
            i <= members@.len(),
            show_fields == show_portion_spec(rules@, ClassPortion::Field, entity_name@, field_count(members@)),
            show_methods == show_portion_spec(rules@, ClassPortion::Method, entity_name@, method_count(members@)),
            forall|k: int|
                0 <= k < i ==> !((if (#[trigger] members@[k]).is_method {
                    show_methods
                } else {
                    show_fields
                }) && (members@[k].visibility == Some(Visibility::Protected)
                    || members@[k].visibility == Some(Visibility::Package))),
        decreases members.len() - i,
    {
        let m = &members[i];
        let visible = if m.is_method {
            show_methods
        } else {
            show_fields
        };
        let polygon = match m.visibility {
            Some(Visibility::Protected) | Some(Visibility::Package) => true,
            _ => false,
        };
        if visible && polygon {
            return 2;
        }
        i += 1;
    }
    0
}


// ---------------------------------------------------------------------------
// Laws
// ---------------------------------------------------------------------------

/// A later rule overrides the earlier ones: appending a rule that applies to
/// the portion decides it, whatever came before.
pub proof fn lemma_later_rule_overrides(
    rules: Seq<ClassHideShowRule>,
    r: ClassHideShowRule,
    portion: ClassPortion,
    name: Seq<char>,
    count: nat,
)
    requires
        portion_rule_applies(r, portion, name, count),
    ensures
        show_portion_spec(rules.push(r), portion, name, count) == r.show,
{
    assert(rules.push(r).last() == r);
}

/// Rules about other portions or other entities leave a portion as it was.
pub proof fn lemma_unrelated_rule_keeps(
    rules: Seq<ClassHideShowRule>,
    r: ClassHideShowRule,
    portion: ClassPortion,
    name: Seq<char>,
    count: nat,
)
    requires
        !portion_rule_applies(r, portion, name, count),
    ensures
        show_portion_spec(rules.push(r), portion, name, count) == show_portion_spec(
            rules,
            portion,
            name,
            count,
        ),
{
    assert(rules.push(r).drop_last() =~= rules);
}

/// Without rules every portion is shown.
pub proof fn lemma_no_rules_shows(portion: ClassPortion, name: Seq<char>, count: nat)
    ensures
        show_portion_spec(Seq::empty(), portion, name, count),
{
}

/// A later stereotype rule overrides the earlier ones.
pub proof fn lemma_later_stereotype_rule_overrides(
    rules: Seq<ClassHideShowRule>,
    r: ClassHideShowRule,
    label: Seq<char>,
)
    requires
        stereotype_rule_applies(r, label),
    ensures
        stereotype_visible_spec(rules.push(r), label) == r.show,
{
    assert(rules.push(r).last() == r);
}

/// With no rules a stereotype label is shown.
pub proof fn lemma_stereotype_shown_without_rules(label: Seq<char>)
    ensures
        stereotype_visible_spec(Seq::empty(), label),
{
}

/// A rule about the fields or methods, about an entity, or about another
/// stereotype leaves a stereotype label's visibility as it was; a stereotype
/// rule for any stereotype or for this one decides it.
pub proof fn lemma_stereotype_rule_scope(
    rules: Seq<ClassHideShowRule>,
    r: ClassHideShowRule,
    label: Seq<char>,
)
    ensures
        r.portion != ClassPortion::Stereotype ==> stereotype_visible_spec(rules.push(r), label)
            == stereotype_visible_spec(rules, label),
        r.target is Entity ==> stereotype_visible_spec(rules.push(r), label)
            == stereotype_visible_spec(rules, label),
        (r.target matches ClassRuleTarget::Stereotype(n) && n@ != label) ==> stereotype_visible_spec(
            rules.push(r),
            label,
        ) == stereotype_visible_spec(rules, label),
        (r.portion == ClassPortion::Stereotype && (r.target is Any || (r.target matches ClassRuleTarget::Stereotype(n)
            && n@ == label))) ==> stereotype_visible_spec(rules.push(r), label) == r.show,
{
    assert(rules.push(r).drop_last() =~= rules);
    assert(rules.push(r).last() == r);
}

/// A rule about another portion, another entity or a stereotype, or an
/// "empty only" rule when the entity has members of the portion, leaves the
/// portion as it was; a rule about this portion of any entity or of this one
/// (and, when "empty only", of an entity without such members) decides it.
pub proof fn lemma_portion_rule_scope(
    rules: Seq<ClassHideShowRule>,
    r: ClassHideShowRule,
    portion: ClassPortion,
    name: Seq<char>,
    count: nat,
)
    ensures
        r.portion != portion ==> show_portion_spec(rules.push(r), portion, name, count)
            == show_portion_spec(rules, portion, name, count),
        r.target is Stereotype ==> show_portion_spec(rules.push(r), portion, name, count)
            == show_portion_spec(rules, portion, name, count),
        (r.target matches ClassRuleTarget::Entity(n) && n@ != name) ==> show_portion_spec(
            rules.push(r),
            portion,
            name,
            count,
        ) == show_portion_spec(rules, portion, name, count),
        (r.empty_only && count > 0) ==> show_portion_spec(rules.push(r), portion, name, count)
            == show_portion_spec(rules, portion, name, count),
        (r.portion == portion && !(r.empty_only && count > 0) && (r.target is Any || (r.target matches ClassRuleTarget::Entity(n)
            && n@ == name))) ==> show_portion_spec(rules.push(r), portion, name, count) == r.show,
{
    assert(rules.push(r).drop_last() =~= rules);
    assert(rules.push(r).last() == r);
}

} // verus!

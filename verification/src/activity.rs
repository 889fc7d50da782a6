//! The parts of the activity-diagram layout that decide rather than measure:
//! table detection in action text, swimlane lookup and the lane of each
//! node, note grouping, the sequential flow edges and those that jump across
//! an `if` block, draw order of repeat blocks, and the indexing of old-style
//! activity graphs.

use vstd::prelude::*;
use crate::text::{chars_of, is_white, lemma_trim_laws, lemma_trim_unpadded, str_eq, trim_spec, trim_bounds};
use crate::activity_scan::ActivityEventTag;

verus! {

/// Whether a note belongs to a group of notes beside one node or stands alone.
#[derive(Debug, Clone, Copy, PartialEq, Eq, Structural)]
pub enum ActivityNoteModeLayout {
    Grouped,
    Single,
}

/// Note position in the layout coordinate space.
#[derive(Debug, Clone, Copy, PartialEq, Eq, Structural)]
pub enum NotePositionLayout {
    Left,
    Right,
}

/// Identifiers and source line of a node of an old-style activity graph.
#[derive(Debug, Clone, PartialEq, Eq)]
pub struct ActivityGraphvizNodeMeta {
    pub id: String,
    pub uid: String,
    pub qualified_name: String,
    /// The smallest source line among the links that have this node as an
    /// end, or `None` when no link does.
    pub source_line: Option<usize>,
}

// ---------------------------------------------------------------------------
// Creole tables in action text
// ---------------------------------------------------------------------------

/// The kind of creole table that the lines of an action form.
#[derive(Debug, Clone, PartialEq, Eq)]
pub enum ActivityTableKind {
    /// Every row has a single cell; the cell texts, trimmed.
    SingleColumn { rows: Vec<String> },
    MultiColumn,
}

/// A trimmed line is a table row: `|...|` with something between the bars.
pub open spec fn is_table_row(t: Seq<char>) -> bool {
    t.len() > 2 && t[0] == '|' && t[t.len() - 1] == '|'
}

/// The text between the outer bars of a table row.
pub open spec fn row_inner(t: Seq<char>) -> Seq<char> {
    t.subrange(1, t.len() - 1)
}

/// The row has two or more cells: its inner text holds a bar.
pub open spec fn row_is_multi(t: Seq<char>) -> bool {
    row_inner(t).contains('|')
}

/// The trimmed cell texts of the single-cell rows among `lines`, in order.
pub open spec fn single_rows(lines: Seq<Seq<char>>) -> Seq<Seq<char>>
    decreases lines.len(),
{
    if lines.len() == 0 {
        Seq::empty()
    } else {
        let t = trim_spec(lines.last());
        if is_table_row(t) && !row_is_multi(t) {
            single_rows(lines.drop_last()).push(trim_spec(row_inner(t)))
        } else {
            single_rows(lines.drop_last())
        }
    }
}

/// What the lines of an action form: `None` when no line is a table row, or
/// when some line is neither empty nor a row while all rows have one cell;
/// `Some(None)` for a table with a multi-cell row; `Some(Some(rows))` for a
/// table of single-cell rows.
pub open spec fn classify_spec(lines: Seq<Seq<char>>) -> Option<Option<Seq<Seq<char>>>> {
    let saw_table = exists|k: int| 0 <= k < lines.len() && is_table_row(trim_spec(#[trigger] lines[k]));
    let saw_multi = exists|k: int|
        0 <= k < lines.len() && is_table_row(trim_spec(#[trigger] lines[k])) && row_is_multi(
            trim_spec(lines[k]),
        );
    let saw_other = exists|k: int|
        0 <= k < lines.len() && trim_spec(#[trigger] lines[k]).len() > 0 && !is_table_row(
            trim_spec(lines[k]),
        );
    if !saw_table {
        None
    } else if saw_multi {
        Some(None)
    } else if saw_other {
        None
    } else {
        Some(Some(single_rows(lines)))
    }
}

/// Classifies one line: (table row, multi-cell row, other non-empty line,
/// the trimmed cell text of a single-cell row).
fn classify_line(line: &str) -> (r: (bool, bool, bool, Option<String>))
    ensures
        r.0 == is_table_row(trim_spec(line@)),
        r.1 == (is_table_row(trim_spec(line@)) && row_is_multi(trim_spec(line@))),
        r.2 == (trim_spec(line@).len() > 0 && !is_table_row(trim_spec(line@))),
        match r.3 {
            Some(t) => r.0 && !r.1 && t@ == trim_spec(row_inner(trim_spec(line@))),
            None => !(r.0 && !r.1),
        },
{
    let v = chars_of(line);
    let (a, b) = trim_bounds(&v, 0, v.len());
    let ghost t = trim_spec(line@);
    assert(v@.subrange(0, v@.len() as int) =~= v@);
    assert(t == v@.subrange(a as int, b as int));
    if b > a && b - a > 2 && v[a] == '|' && v[b - 1] == '|' {
        let mut has_bar = false;
        let mut k = a + 1;
        while k < b - 1
            invariant
                a + 1 <= k <= b - 1,
                b - a > 2,
                b <= v.len(),
                has_bar == exists|q: int| a + 1 <= q < k && v@[q] == '|',
            decreases b - 1 - k,
        {
            if v[k] == '|' {
                has_bar = true;
            }
            k += 1;
        }
        proof {
            let inner = row_inner(t);
            assert(inner =~= v@.subrange(a + 1, b - 1));
            if has_bar {
                let q = choose|q: int| a + 1 <= q < b - 1 && v@[q] == '|';
                assert(inner[q - a - 1] == '|');
            }
            if inner.contains('|') {
                let q = choose|q: int| 0 <= q < inner.len() && inner[q] == '|';
                assert(v@[a + 1 + q] == '|');
            }
        }
        if has_bar {
            (true, true, false, None)
        } else {
            let (c, d) = trim_bounds(&v, a + 1, b - 1);
            let mut row = String::new();
            crate::text::push_range(&mut row, &v, c, d);
            (true, false, false, Some(row))
        }
    } else {
        (false, false, b > a, None)
    }
}

/// Decides whether the lines of an action text form a creole table, and of
/// which kind.  A line is a row when, trimmed, it starts and ends with `|`
/// and has text between; a row with a further `|` has several cells.
#[verifier::rlimit(40)]
pub fn classify_activity_table_lines(lines: &[&str]) -> (r: Option<ActivityTableKind>)
    ensures
        match classify_spec(lines@.map_values(|s: &str| s@)) {
            None => r is None,
            Some(None) => r == Some(ActivityTableKind::MultiColumn),
            Some(Some(rows)) => r matches Some(ActivityTableKind::SingleColumn { rows: rs }) && rs@.map_values(
                |s: String| s@,
            ) == rows,
        },
{
    let ghost lv = lines@.map_values(|s: &str| s@);
    let mut saw_table = false;
    let mut saw_multi = false;
    let mut saw_other = false;
    let mut rows: Vec<String> = Vec::new();
    let mut i: usize = 0;
    while i < lines.len()
        invariant
            i <= lines@.len(),
            lv == lines@.map_values(|s: &str| s@),
            saw_table == exists|k: int| 0 <= k < i && is_table_row(trim_spec(#[trigger] lv[k])),
            saw_multi == exists|k: int|
                0 <= k < i && is_table_row(trim_spec(#[trigger] lv[k])) && row_is_multi(trim_spec(lv[k])),
            saw_other == exists|k: int|
                0 <= k < i && trim_spec(#[trigger] lv[k]).len() > 0 && !is_table_row(trim_spec(lv[k])),
            rows@.map_values(|s: String| s@) == single_rows(lv.take(i as int)),
        decreases lines.len() - i,
    {
        let (table, multi, other, row) = classify_line(lines[i]);
        assert(lv.take(i + 1).drop_last() =~= lv.take(i as int));
        assert(lv.take(i + 1).last() == lv[i as int]);
        assert(lines[i as int]@ == lv[i as int]);
        if table {
            saw_table = true;
        }
        if multi {
            saw_multi = true;
        }
        if other {
            saw_other = true;
        }
        match row {
            Some(text) => {
                let ghost before = rows@;
                rows.push(text);
                assert(rows@.map_values(|s: String| s@) =~= before.map_values(|s: String| s@).push(
                    trim_spec(row_inner(trim_spec(lv[i as int]))),
                ));
            },
            None => {},
        }
        i += 1;
    }
    assert(lv.take(lv.len() as int) =~= lv);
    if !saw_table {
        return None;
    }
    if saw_multi {
        return Some(ActivityTableKind::MultiColumn);
    }
    if saw_other {
        return None;
    }
    Some(ActivityTableKind::SingleColumn { rows })
}

/// A note line is a horizontal separator: trimmed, at least four characters,
/// all `=` or all `-`.
pub open spec fn is_note_separator_spec(line: Seq<char>) -> bool {
    let t = trim_spec(line);
    t.len() >= 4 && ((forall|k: int| 0 <= k < t.len() ==> t[k] == '=') || (forall|k: int|
        0 <= k < t.len() ==> t[k] == '-'))
}

/// A line of `=` and `-` marks is a separator exactly when it has at least
/// four marks, all of one kind.
pub proof fn lemma_note_separator_marks(s: Seq<char>)
    requires
        forall|k: int| 0 <= k < s.len() ==> s[k] == '=' || s[k] == '-',
    ensures
        is_note_separator_spec(s) <==> s.len() >= 4 && ((forall|k: int| 0 <= k < s.len() ==> s[k]
            == '=') || (forall|k: int| 0 <= k < s.len() ==> s[k] == '-')),
{
    assert(!is_white('=') && !is_white('-'));
    if s.len() > 0 {
        assert(s[0] == '=' || s[0] == '-');
        assert(s[s.len() - 1] == '=' || s[s.len() - 1] == '-');
    }
    lemma_trim_unpadded(s);
}

/// Whether a note line is a `====` / `----` separator (which takes the
/// height of a horizontal rule instead of a text line).
pub fn is_note_separator(line: &str) -> (r: bool)
    ensures
        r == is_note_separator_spec(line@),
{
    let v = chars_of(line);
    let (a, b) = trim_bounds(&v, 0, v.len());
    assert(v@.subrange(0, v@.len() as int) =~= v@);
    let ghost t = v@.subrange(a as int, b as int);
    if b - a < 4 {
        return false;
    }
    let mut all_eq = true;
    let mut all_dash = true;
    let mut k = a;
    while k < b
        invariant
            a <= k <= b <= v.len(),
            t == v@.subrange(a as int, b as int),
            all_eq == forall|q: int| 0 <= q < k - a ==> t[q] == '=',
            all_dash == forall|q: int| 0 <= q < k - a ==> t[q] == '-',
        decreases b - k,
    {
        assert(t[k - a] == v@[k as int]);
        if v[k] != '=' {
            all_eq = false;
        }
        if v[k] != '-' {
            all_dash = false;
        }
        k += 1;
    }
    all_eq || all_dash
}

/// The position of the first `,` in `s`, or `s.len()`.
pub open spec fn first_comma(s: Seq<char>, i: int) -> int
    decreases s.len() - i,
{
    if i < 0 || i >= s.len() {
        s.len() as int
    } else if s[i] == ',' {
        i
    } else {
        first_comma(s, i + 1)
    }
}

/// The sprite named by a sprite-only line `<$name>` or `<$name,options>`:
/// the trimmed text before the first comma, when it is not empty.
pub open spec fn sprite_name_spec(line: Seq<char>) -> Option<Seq<char>> {
    let t = trim_spec(line);
    if t.len() >= 3 && t[0] == '<' && t[1] == '$' && t[t.len() - 1] == '>' {
        let inner = t.subrange(2, t.len() - 1);
        let name = trim_spec(inner.take(first_comma(inner, 0)));
        if name.len() == 0 {
            None
        } else {
            Some(name)
        }
    } else {
        None
    }
}

proof fn lemma_first_comma_at(s: Seq<char>, i: int, m: int)
    requires
        0 <= i <= m <= s.len(),
        forall|k: int| i <= k < m ==> s[k] != ',',
        m == s.len() || s[m] == ',',
    ensures
        first_comma(s, i) == m,
    decreases m - i,
{
    if i < m {
        lemma_first_comma_at(s, i + 1, m);
    }
}

proof fn lemma_sprite_plain(n: Seq<char>)
    requires
        n.len() > 0,
        !is_white(n[0]),
        !is_white(n[n.len() - 1]),
        forall|k: int| 0 <= k < n.len() ==> n[k] != ',',
    ensures
        sprite_name_spec(seq!['<', '$'] + n + seq!['>']) == Some(n),
{
    assert(!is_white('<') && !is_white('>'));
    lemma_trim_unpadded(n);
    let l1 = seq!['<', '$'] + n + seq!['>'];
    assert(l1[0] == '<' && l1[l1.len() - 1] == '>');
    lemma_trim_unpadded(l1);
    let i1 = l1.subrange(2, l1.len() - 1);
    assert(i1 =~= n);
    lemma_first_comma_at(i1, 0, i1.len() as int);
    assert(i1.take(i1.len() as int) =~= n);
}

proof fn lemma_sprite_with_options(n: Seq<char>, opts: Seq<char>)
    requires
        n.len() > 0,
        !is_white(n[0]),
        !is_white(n[n.len() - 1]),
        forall|k: int| 0 <= k < n.len() ==> n[k] != ',',
    ensures
        sprite_name_spec(seq!['<', '$'] + n + seq![','] + opts + seq!['>']) == Some(n),
{
    assert(!is_white('<') && !is_white('>'));
    lemma_trim_unpadded(n);
    let l2 = seq!['<', '$'] + n + seq![','] + opts + seq!['>'];
    assert(l2[0] == '<' && l2[l2.len() - 1] == '>');
    lemma_trim_unpadded(l2);
    let i2 = l2.subrange(2, l2.len() - 1);
    assert(i2 =~= n + seq![','] + opts);
    assert(i2[n.len() as int] == ',');
    lemma_first_comma_at(i2, 0, n.len() as int);
    assert(i2.take(n.len() as int) =~= n);
}

proof fn lemma_sprite_name_shape(line: Seq<char>)
    ensures
        sprite_name_spec(line) matches Some(m) ==> m.len() > 0 && !m.contains(',') && !is_white(m[0])
            && !is_white(m[m.len() - 1]),
{
    let t = trim_spec(line);
    if t.len() >= 3 && t[0] == '<' && t[1] == '$' && t[t.len() - 1] == '>' {
        let inner = t.subrange(2, t.len() - 1);
        lemma_first_comma_bounds(inner, 0);
        let c = first_comma(inner, 0);
        lemma_first_comma_before(inner, 0);
        let raw = inner.take(c);
        let m = trim_spec(raw);
        lemma_trim_laws(raw);
        if m.len() > 0 {
            let a = choose|a: int|
                #![trigger raw.subrange(a, a + m.len())]
                0 <= a && a + m.len() <= raw.len() && raw.subrange(a, a + m.len()) == m && (forall|k: int|
                    0 <= k < a ==> is_white(#[trigger] raw[k])) && (forall|k: int|
                    a + m.len() <= k < raw.len() ==> is_white(#[trigger] raw[k]));
            assert forall|k: int| 0 <= k < m.len() implies m[k] != ',' by {
                assert(m[k] == raw.subrange(a, a + m.len())[k]);
                assert(raw[a + k] == inner[a + k]);
            }
        }
    }
}

/// A sprite-only line names its sprite: `<$name>` and `<$name,options>`
/// give `name` (for a name without commas and without white space at its
/// ends), and any name read holds no comma and no white space at its ends.
pub proof fn lemma_sprite_line_names_sprite(n: Seq<char>, opts: Seq<char>, line: Seq<char>)
    requires
        n.len() > 0,
        !is_white(n[0]),
        !is_white(n[n.len() - 1]),
        forall|k: int| 0 <= k < n.len() ==> n[k] != ',',
    ensures
        sprite_name_spec(seq!['<', '$'] + n + seq!['>']) == Some(n),
        sprite_name_spec(seq!['<', '$'] + n + seq![','] + opts + seq!['>']) == Some(n),
        sprite_name_spec(line) matches Some(m) ==> m.len() > 0 && !m.contains(',') && !is_white(m[0])
            && !is_white(m[m.len() - 1]),
{
    lemma_sprite_plain(n);
    lemma_sprite_with_options(n, opts);
    lemma_sprite_name_shape(line);
}

proof fn lemma_first_comma_before(s: Seq<char>, i: int)
    requires
        0 <= i <= s.len(),
    ensures
        forall|k: int| i <= k < first_comma(s, i) ==> s[k] != ',',
    decreases s.len() - i,
{
    if i < s.len() && s[i] != ',' {
        lemma_first_comma_before(s, i + 1);
    }
}

proof fn lemma_first_comma_bounds(s: Seq<char>, i: int)
    requires
        0 <= i <= s.len(),
    ensures
        i <= first_comma(s, i) <= s.len(),
    decreases s.len() - i,
{
    if i < s.len() && s[i] != ',' {
        lemma_first_comma_bounds(s, i + 1);
    }
}

/// The end of `v[from..to]` up to its first comma.
fn comma_end(v: &Vec<char>, from: usize, to: usize) -> (c: usize)
    requires
        from <= to <= v.len(),
    ensures
        from <= c <= to,
        c - from == first_comma(v@.subrange(from as int, to as int), 0),
        v@.subrange(from as int, to as int).take(first_comma(v@.subrange(from as int, to as int), 0))
            == v@.subrange(from as int, c as int),
{
    let ghost inner = v@.subrange(from as int, to as int);
    let mut c = from;
    while c < to && v[c] != ','
        invariant
            from <= c <= to <= v.len(),
            inner == v@.subrange(from as int, to as int),
            first_comma(inner, (c - from) as int) == first_comma(inner, 0),
        decreases to - c,
    {
        assert(inner[(c - from) as int] == v@[c as int]);
        c += 1;
    }
    proof {
        if c < to {
            assert(inner[(c - from) as int] == v@[c as int]);
        }
        lemma_first_comma_bounds(inner, 0);
        assert(inner.take(first_comma(inner, 0)) =~= v@.subrange(from as int, c as int));
    }
    c
}

/// The sprite name of a line that references only a sprite, if it does.
#[verifier::rlimit(40)]
pub fn sprite_reference_name(line: &str) -> (r: Option<String>)
    ensures
        match sprite_name_spec(line@) {
            None => r is None,
            Some(n) => r matches Some(x) && x@ == n,
        },
{
    let v = chars_of(line);
    let (a, b) = trim_bounds(&v, 0, v.len());
    assert(v@.subrange(0, v@.len() as int) =~= v@);
    let ghost t = v@.subrange(a as int, b as int);
    if !(b - a >= 3 && v[a] == '<' && v[a + 1] == '$' && v[b - 1] == '>') {
        proof {
            if t.len() >= 3 {
                assert(t[0] == v@[a as int]);
                assert(t[1] == v@[a + 1]);
                assert(t[t.len() - 1] == v@[b - 1]);
            }
        }
        return None;
    }
    assert(t[0] == v@[a as int] && t[1] == v@[a + 1] && t[t.len() - 1] == v@[b - 1]);
    assert(t.subrange(2, t.len() - 1) =~= v@.subrange(a + 2, b - 1));
    let c = comma_end(&v, a + 2, b - 1);
    let (d, e) = trim_bounds(&v, a + 2, c);
    if e == d {
        return None;
    }
    let mut name = String::new();
    crate::text::push_range(&mut name, &v, d, e);
    Some(name)
}


/// The text `viewBox="` that introduces the view box of a sprite's SVG.
pub open spec fn viewbox_key() -> Seq<char> {
    seq!['v', 'i', 'e', 'w', 'B', 'o', 'x', '=', '"']
}

/// `s[i..]` starts with `p`.
pub open spec fn has_at(s: Seq<char>, i: int, p: Seq<char>) -> bool {
    0 <= i && i + p.len() <= s.len() && s.subrange(i, i + p.len()) == p
}

/// The first position at or after `i` where `p` occurs in `s`, if any.
pub open spec fn find_from(s: Seq<char>, p: Seq<char>, i: int) -> Option<int>
    decreases s.len() + 1 - i,
{
    if i < 0 || i + p.len() > s.len() {
        None
    } else if has_at(s, i, p) {
        Some(i)
    } else {
        find_from(s, p, i + 1)
    }
}

/// The white-space separated words of `s` from position `i` on, after the
/// words `acc` and with the word `cur` under way.
pub open spec fn words_from(s: Seq<char>, i: int, cur: Seq<char>, acc: Seq<Seq<char>>) -> Seq<
    Seq<char>,
>
    decreases s.len() - i,
{
    if i < 0 || i >= s.len() {
        if cur.len() > 0 {
            acc.push(cur)
        } else {
            acc
        }
    } else if crate::text::is_white(s[i]) {
        words_from(s, i + 1, Seq::empty(), if cur.len() > 0 {
            acc.push(cur)
        } else {
            acc
        })
    } else {
        words_from(s, i + 1, cur.push(s[i]), acc)
    }
}

/// The characters of each string of `v`.
pub open spec fn string_views(v: Seq<String>) -> Seq<Seq<char>> {
    v.map_values(|x: String| x@)
}

/// The white-space separated words of `s`.
pub open spec fn split_whitespace_spec(s: Seq<char>) -> Seq<Seq<char>> {
    words_from(s, 0, Seq::empty(), Seq::empty())
}

/// The width and height fields of the `viewBox="..."` attribute of an SVG:
/// the value runs from the first `viewBox="` to the next `"`, and must hold
/// exactly four words, of which the last two are the size.
pub open spec fn viewbox_fields_spec(svg: Seq<char>) -> Option<(Seq<char>, Seq<char>)> {
    match find_from(svg, viewbox_key(), 0) {
        None => None,
        Some(k) => {
            let rest = svg.skip(k + 9);
            match find_from(rest, seq!['"'], 0) {
                None => None,
                Some(e) => {
                    let parts = split_whitespace_spec(rest.take(e));
                    if parts.len() == 4 {
                        Some((parts[2], parts[3]))
                    } else {
                        None
                    }
                },
            }
        },
    }
}

proof fn lemma_find_from_bounds(s: Seq<char>, p: Seq<char>, i: int)
    requires
        0 <= i,
    ensures
        find_from(s, p, i) matches Some(k) ==> i <= k && has_at(s, k, p),
    decreases s.len() + 1 - i,
{
    if i + p.len() <= s.len() && !has_at(s, i, p) {
        lemma_find_from_bounds(s, p, i + 1);
    }
}

/// The first position at or after `i` where `p` occurs in `v`, if any.
fn find_from_exec(v: &Vec<char>, p: &Vec<char>, i: usize) -> (r: Option<usize>)
    ensures
        r is None ==> find_from(v@, p@, i as int) is None,
        r matches Some(j) ==> find_from(v@, p@, i as int) == Some(j as int),
{
    let mut j = i;
    while j <= v.len() && p.len() <= v.len() - j
        invariant
            i <= j,
            find_from(v@, p@, j as int) == find_from(v@, p@, i as int),
        decreases v.len() + 1 - j,
    {
        let mut m: usize = 0;
        let mut same = true;
        while m < p.len() && same
            invariant
                j + p.len() <= v.len(),
                m <= p.len(),
                same == forall|q: int| 0 <= q < m ==> v@[j + q] == p@[q],
            decreases p.len() - m,
        {
            if v[j + m] != p[m] {
                same = false;
            }
            m += 1;
        }
        proof {
            if same {
                assert(v@.subrange(j as int, j + p.len()) =~= p@);
            } else {
                let q = choose|q: int| 0 <= q < p.len() && v@[j + q] != p@[q];
                assert(v@.subrange(j as int, j + p.len())[q] != p@[q]);
            }
        }
        if same {
            return Some(j);
        }
        j += 1;
    }
    None
}

/// The white-space separated words of `v[a..b]`.
fn split_whitespace_exec(v: &Vec<char>, a: usize, b: usize) -> (r: Vec<String>)
    requires
        a <= b <= v.len(),
    ensures
        string_views(r@) == split_whitespace_spec(v@.subrange(a as int, b as int)),
{
    let ghost s = v@.subrange(a as int, b as int);
    let mut r: Vec<String> = Vec::new();
    let mut cur: Vec<char> = Vec::new();
    let mut k = a;
    assert(string_views(r@) =~= Seq::<Seq<char>>::empty());
    while k < b
        invariant
            a <= k <= b <= v.len(),
            s == v@.subrange(a as int, b as int),
            words_from(s, k - a, cur@, string_views(r@)) == split_whitespace_spec(s),
        decreases b - k,
    {
        assert(s[k - a] == v@[k as int]);
        if crate::text::is_white_exec(v[k]) {
            if cur.len() > 0 {
                let ghost before = string_views(r@);
                r.push(crate::text::string_of(&cur));
                assert(string_views(r@) =~= before.push(cur@));
                cur = Vec::new();
            } else {
                assert(cur@ =~= Seq::<char>::empty());
            }
        } else {
            cur.push(v[k]);
        }
        k += 1;
    }
    if cur.len() > 0 {
        let ghost before = string_views(r@);
        r.push(crate::text::string_of(&cur));
        assert(string_views(r@) =~= before.push(cur@));
    }
    r
}

/// The width and height fields of the view box of a sprite's SVG text, when
/// its `viewBox="..."` value holds exactly four words.
#[verifier::rlimit(40)]
pub fn sprite_viewbox_fields(svg: &str) -> (r: Option<(String, String)>)
    ensures
        match viewbox_fields_spec(svg@) {
            None => r is None,
            Some((w, h)) => r matches Some((a, b)) && a@ == w && b@ == h,
        },
{
    let v = chars_of(svg);
    let key = vec!['v', 'i', 'e', 'w', 'B', 'o', 'x', '=', '"'];
    assert(key@ =~= viewbox_key());
    assert(viewbox_key().len() == 9);
    let k = match find_from_exec(&v, &key, 0) {
        None => return None,
        Some(k) => k,
    };
    proof {
        lemma_find_from_bounds(v@, viewbox_key(), 0);
        assert(find_from(v@, viewbox_key(), 0) == Some(k as int));
        assert(has_at(v@, k as int, viewbox_key()));
        assert(k + viewbox_key().len() <= v@.len());
        assert(k + 9 <= v.len());
    }
    let start = k + 9;
    let rest = slice_from(&v, start);
    assert(rest@ =~= svg@.skip(k + 9));
    let quote = vec!['"'];
    assert(quote@ =~= seq!['"']);
    let e = match find_from_exec(&rest, &quote, 0) {
        None => return None,
        Some(e) => e,
    };
    proof {
        lemma_find_from_bounds(rest@, seq!['"'], 0);
        assert(rest@.subrange(0, e as int) =~= rest@.take(e as int));
    }
    let mut parts = split_whitespace_exec(&rest, 0, e);
    if parts.len() != 4 {
        return None;
    }
    let h = parts.pop().unwrap();
    let w = parts.pop().unwrap();
    Some((w, h))
}

/// The characters `v[a..]`.
fn slice_from(v: &Vec<char>, a: usize) -> (r: Vec<char>)
    requires
        a <= v.len(),
    ensures
        r@ == v@.subrange(a as int, v.len() as int),
{
    let mut r: Vec<char> = Vec::new();
    let mut k = a;
    while k < v.len()
        invariant
            a <= k <= v.len(),
            r@ == v@.subrange(a as int, k as int),
        decreases v.len() - k,
    {
        r.push(v[k]);
        k += 1;
        assert(r@ =~= v@.subrange(a as int, k as int));
    }
    r
}

// ---------------------------------------------------------------------------
// Swimlanes
// ---------------------------------------------------------------------------

/// The position of the first swimlane named `name`, or 0 when there is none.
pub open spec fn swimlane_index_spec(lanes: Seq<Seq<char>>, name: Seq<char>) -> int {
    if exists|k: int| 0 <= k < lanes.len() && lanes[k] == name {
        choose|k: int|
            0 <= k < lanes.len() && lanes[k] == name && forall|q: int|
                0 <= q < k ==> lanes[q] != name
    } else {
        0
    }
}

/// Resolves a swimlane name to its index: the first lane with that name, or
/// 0 when no lane has it.
pub fn resolve_swimlane_index(swimlanes: &[String], name: &str) -> (r: usize)
    ensures
        r == swimlane_index_spec(swimlanes@.map_values(|s: String| s@), name@),
{
    let ghost lanes = swimlanes@.map_values(|s: String| s@);
    let mut k: usize = 0;
    while k < swimlanes.len()
        invariant
            k <= swimlanes@.len(),
            lanes == swimlanes@.map_values(|s: String| s@),
            forall|q: int| 0 <= q < k ==> lanes[q] != name@,
        decreases swimlanes.len() - k,
    {
        if str_eq(swimlanes[k].as_str(), name) {
            assert(lanes[k as int] == name@);
            return k;
        }
        k += 1;
    }
    0
}

/// Whether an event places a node, in the order in which the layout places
/// them: lane switches, sync-bar jumps, labels, gotos, backward actions and
/// breaks place none of their own at that point.
pub open spec fn places_lane_node(e: ActivityEventTag) -> bool {
    !(e is Swimlane || e is GotoSyncBar || e is ResumeFromSyncBar || e is Label || e is Goto
        || e is Backward || e is Break)
}

/// The lane in force after the first `j` events: the last lane switch names
/// it, and the first lane holds until there is one.
pub open spec fn lane_after(lanes: Seq<Seq<char>>, ev: Seq<ActivityEventTag>, j: int) -> int
    decreases j,
{
    if j <= 0 {
        0
    } else {
        match ev[j - 1] {
            ActivityEventTag::Swimlane(name) => swimlane_index_spec(lanes, name@),
            _ => lane_after(lanes, ev, j - 1),
        }
    }
}

/// The lane of each node placed by the first `j` events, in placing order.
pub open spec fn node_lanes_spec(lanes: Seq<Seq<char>>, ev: Seq<ActivityEventTag>, j: int) -> Seq<
    int,
>
    decreases j,
{
    if j <= 0 {
        Seq::empty()
    } else {
        let s = node_lanes_spec(lanes, ev, j - 1);
        if places_lane_node(ev[j - 1]) {
            s.push(lane_after(lanes, ev, j - 1))
        } else {
            s
        }
    }
}

/// The number of events among the first `j` that place a node.
pub open spec fn lane_node_count(ev: Seq<ActivityEventTag>, j: int) -> int
    decreases j,
{
    if j <= 0 {
        0
    } else {
        lane_node_count(ev, j - 1) + if places_lane_node(ev[j - 1]) { 1int } else { 0int }
    }
}

/// A resolved lane is a lane of the diagram, or the first when there are none.
pub proof fn lemma_swimlane_index_in_range(lanes: Seq<Seq<char>>, name: Seq<char>)
    ensures
        0 <= swimlane_index_spec(lanes, name),
        lanes.len() == 0 || swimlane_index_spec(lanes, name) < lanes.len(),
{
    if exists|k: int| 0 <= k < lanes.len() && lanes[k] == name {
        let k0 = choose|k: int| 0 <= k < lanes.len() && lanes[k] == name;
        lemma_first_lane_named(lanes, name, k0);
    }
}

/// A lane with the name has a first one of that name.
proof fn lemma_first_lane_named(lanes: Seq<Seq<char>>, name: Seq<char>, k: int)
    requires
        0 <= k < lanes.len(),
        lanes[k] == name,
    ensures
        exists|m: int|
            0 <= m <= k && lanes[m] == name && forall|q: int| 0 <= q < m ==> lanes[q] != name,
    decreases k,
{
    if exists|q: int| 0 <= q < k && lanes[q] == name {
        let q0 = choose|q: int| 0 <= q < k && lanes[q] == name;
        lemma_first_lane_named(lanes, name, q0);
    } else {
        assert(forall|q: int| 0 <= q < k ==> lanes[q] != name);
    }
}

/// Every node is assigned a lane of the diagram (the first when there are
/// none), and there is one lane per node-placing event.
pub proof fn lemma_node_lanes_in_range(lanes: Seq<Seq<char>>, ev: Seq<ActivityEventTag>, j: int)
    requires
        0 <= j <= ev.len(),
    ensures
        node_lanes_spec(lanes, ev, j).len() == lane_node_count(ev, j),
        forall|q: int|
            0 <= q < node_lanes_spec(lanes, ev, j).len() ==> 0 <= #[trigger] node_lanes_spec(
                lanes,
                ev,
                j,
            )[q] && (lanes.len() == 0 || node_lanes_spec(lanes, ev, j)[q] < lanes.len()),
    decreases j,
{
    if j > 0 {
        lemma_node_lanes_in_range(lanes, ev, j - 1);
        lemma_lane_after_in_range(lanes, ev, j - 1);
    }
}

/// The lane in force is a lane of the diagram, or the first.
pub proof fn lemma_lane_after_in_range(lanes: Seq<Seq<char>>, ev: Seq<ActivityEventTag>, j: int)
    requires
        0 <= j <= ev.len(),
    ensures
        0 <= lane_after(lanes, ev, j),
        lanes.len() == 0 || lane_after(lanes, ev, j) < lanes.len(),
    decreases j,
{
    if j > 0 {
        match ev[j - 1] {
            ActivityEventTag::Swimlane(name) => lemma_swimlane_index_in_range(lanes, name@),
            _ => lemma_lane_after_in_range(lanes, ev, j - 1),
        }
    }
}

/// A lane switch makes the lane it names current (the first lane when no
/// lane has that name); every other event keeps the current lane.  Lane
/// switches, sync-bar jumps and resumes, labels, gotos, backward actions and
/// breaks get no lane entry; every other event (`detach` and the notes
/// among them) adds one entry, the lane current when it comes.
pub proof fn lemma_node_lanes_step(lanes: Seq<Seq<char>>, ev: Seq<ActivityEventTag>, k: int)
    requires
        0 <= k < ev.len(),
    ensures
        forall|name: String|
            ev[k] == ActivityEventTag::Swimlane(name) ==> lane_after(lanes, ev, k + 1)
                == swimlane_index_spec(lanes, name@),
        !(ev[k] is Swimlane) ==> lane_after(lanes, ev, k + 1) == lane_after(lanes, ev, k),
        (ev[k] is Swimlane || ev[k] is GotoSyncBar || ev[k] is ResumeFromSyncBar || ev[k] is Label
            || ev[k] is Goto || ev[k] is Backward || ev[k] is Break) ==> node_lanes_spec(lanes, ev, k + 1)
            == node_lanes_spec(lanes, ev, k),
        !(ev[k] is Swimlane || ev[k] is GotoSyncBar || ev[k] is ResumeFromSyncBar || ev[k] is Label
            || ev[k] is Goto || ev[k] is Backward || ev[k] is Break) ==> node_lanes_spec(lanes, ev, k + 1)
            == node_lanes_spec(lanes, ev, k).push(lane_after(lanes, ev, k)),
        lane_after(lanes, ev, 0) == 0,
        node_lanes_spec(lanes, ev, 0) == Seq::<int>::empty(),
{
}

/// Replays the events to give each placed node the lane it was placed in:
/// a lane switch makes the named lane current (see `resolve_swimlane_index`),
/// and each node-placing event takes the current lane.
pub fn node_lanes(events: &[ActivityEventTag], swimlanes: &[String]) -> (r: Vec<usize>)
    ensures
        r@.map_values(|x: usize| x as int) == node_lanes_spec(
            swimlanes@.map_values(|s: String| s@),
            events@,
            events@.len() as int,
        ),
        forall|q: int|
            0 <= q < r@.len() ==> swimlanes@.len() == 0 || #[trigger] r@[q] < swimlanes@.len(),
{
    let ghost lanes = swimlanes@.map_values(|s: String| s@);
    proof {
        lemma_node_lanes_in_range(lanes, events@, events@.len() as int);
    }
    let mut r: Vec<usize> = Vec::new();
    let mut cur: usize = 0;
    let mut i: usize = 0;
    while i < events.len()
        invariant
            i <= events@.len(),
            lanes == swimlanes@.map_values(|s: String| s@),
            cur as int == lane_after(lanes, events@, i as int),
            r@.map_values(|x: usize| x as int) == node_lanes_spec(lanes, events@, i as int),
        decreases events.len() - i,
    {
        match &events[i] {
            ActivityEventTag::Swimlane(name) => {
                cur = resolve_swimlane_index(swimlanes, name.as_str());
            },
            ActivityEventTag::GotoSyncBar(_) | ActivityEventTag::ResumeFromSyncBar(_)
            | ActivityEventTag::Label(_) | ActivityEventTag::Goto(_) | ActivityEventTag::Backward
            | ActivityEventTag::Break => {},
            _ => {
                r.push(cur);
            },
        }
        i += 1;
    }
    assert forall|q: int| 0 <= q < r@.len() implies swimlanes@.len() == 0 || #[trigger] r@[q]
        < swimlanes@.len() by {
        assert(r@.map_values(|x: usize| x as int)[q] == r@[q] as int);
    }
    r
}


// ---------------------------------------------------------------------------
// Node kinds and note grouping
// ---------------------------------------------------------------------------

/// The kind of a positioned activity node, without its drawing payload
/// (labels and line segments).
#[derive(Debug, Clone, Copy, PartialEq, Eq, Structural)]
pub enum ActivityNodeTag {
    Start,
    Stop,
    End,
    Action,
    Diamond,
    Hexagon,
    ForkBar,
    SyncBar,
    Note { position: NotePositionLayout, mode: ActivityNoteModeLayout },
    FloatingNote { position: NotePositionLayout, mode: ActivityNoteModeLayout },
    Detach,
    BackwardAction,
    IfDiamond,
    GotoLines,
}

/// A node joins the sequential flow: notes, backward actions and goto lines do not.
pub open spec fn is_flow_spec(k: ActivityNodeTag) -> bool {
    !(k is Note || k is FloatingNote || k is BackwardAction || k is GotoLines)
}

/// A note, attached or floating.
pub open spec fn is_note_spec(k: ActivityNodeTag) -> bool {
    k is Note || k is FloatingNote
}

/// The kinds that join the sequential flow are the circles, boxes,
/// diamonds, hexagons, bars and detach marks; notes, backward actions and
/// goto lines stay out of it.
pub proof fn lemma_flow_kinds(k: ActivityNodeTag)
    ensures
        (k is Start || k is Stop || k is End || k is Action || k is Diamond || k is Hexagon
            || k is ForkBar || k is SyncBar || k is Detach || k is IfDiamond) ==> is_flow_spec(k),
        (k is Note || k is FloatingNote || k is BackwardAction || k is GotoLines) ==> !is_flow_spec(k),
{
}

/// Whether a node takes part in sequential flow edges.
pub fn is_flow_node(kind: &ActivityNodeTag) -> (r: bool)
    ensures
        r == is_flow_spec(*kind),
{
    match kind {
        ActivityNodeTag::Note { .. } | ActivityNodeTag::FloatingNote { .. }
        | ActivityNodeTag::BackwardAction | ActivityNodeTag::GotoLines => false,
        _ => true,
    }
}

fn is_note_node(kind: &ActivityNodeTag) -> (r: bool)
    ensures
        r == is_note_spec(*kind),
{
    match kind {
        ActivityNodeTag::Note { .. } | ActivityNodeTag::FloatingNote { .. } => true,
        _ => false,
    }
}

/// The first position of the run of notes that ends just before `j`.
pub open spec fn note_run_start(k: Seq<ActivityNodeTag>, j: int) -> int
    decreases j,
{
    if 0 < j <= k.len() && is_note_spec(k[j - 1]) {
        note_run_start(k, j - 1)
    } else {
        j
    }
}

/// The first position at or after `j` that is not a note.
pub open spec fn note_run_end(k: Seq<ActivityNodeTag>, j: int) -> int
    decreases k.len() - j,
{
    if 0 <= j < k.len() && is_note_spec(k[j]) {
        note_run_end(k, j + 1)
    } else {
        j
    }
}

/// A note kind with its mode replaced.
pub open spec fn with_mode(t: ActivityNodeTag, m: ActivityNoteModeLayout) -> ActivityNodeTag {
    match t {
        ActivityNodeTag::Note { position, .. } => ActivityNodeTag::Note { position, mode: m },
        ActivityNodeTag::FloatingNote { position, .. } => ActivityNodeTag::FloatingNote {
            position,
            mode: m,
        },
        _ => t,
    }
}

/// The kind of node `j` after note modes are assigned: a note in a run of
/// notes that directly follows a flow node is `Single` when the run has one
/// note and `Grouped` otherwise; every other node keeps its kind.
pub open spec fn assigned_kind(k: Seq<ActivityNodeTag>, j: int) -> ActivityNodeTag {
    if is_note_spec(k[j]) {
        let s = note_run_start(k, j);
        let e = note_run_end(k, j);
        if s > 0 && is_flow_spec(k[s - 1]) {
            with_mode(
                k[j],
                if e - s == 1 {
                    ActivityNoteModeLayout::Single
                } else {
                    ActivityNoteModeLayout::Grouped
                },
            )
        } else {
            k[j]
        }
    } else {
        k[j]
    }
}

proof fn lemma_run_start_const(k: Seq<ActivityNodeTag>, a: int, j: int)
    requires
        0 <= a <= j < k.len(),
        a == 0 || !is_note_spec(k[a - 1]),
        forall|q: int| a <= q <= j ==> is_note_spec(#[trigger] k[q]),
    ensures
        note_run_start(k, j) == a,
    decreases j - a,
{
    if j > a {
        lemma_run_start_const(k, a, j - 1);
        assert(is_note_spec(k[j - 1]));
    }
}

proof fn lemma_run_end_const(k: Seq<ActivityNodeTag>, j: int, e: int)
    requires
        0 <= j <= e <= k.len(),
        e == k.len() || !is_note_spec(k[e]),
        forall|q: int| j <= q < e ==> is_note_spec(#[trigger] k[q]),
    ensures
        note_run_end(k, j) == e,
    decreases e - j,
{
    if j < e {
        lemma_run_end_const(k, j + 1, e);
    }
}

proof fn lemma_run_start_step(k: Seq<ActivityNodeTag>, j: int)
    requires
        0 < j < k.len(),
        is_note_spec(k[j - 1]),
    ensures
        note_run_start(k, j) == note_run_start(k, j - 1),
{
}

/// The mode of a note kind, if it is a note.
pub open spec fn note_mode(t: ActivityNodeTag) -> Option<ActivityNoteModeLayout> {
    match t {
        ActivityNodeTag::Note { mode, .. } => Some(mode),
        ActivityNodeTag::FloatingNote { mode, .. } => Some(mode),
        _ => None,
    }
}

/// The side of a note kind, if it is a note.
pub open spec fn note_position(t: ActivityNodeTag) -> Option<NotePositionLayout> {
    match t {
        ActivityNodeTag::Note { position, .. } => Some(position),
        ActivityNodeTag::FloatingNote { position, .. } => Some(position),
        _ => None,
    }
}

proof fn lemma_note_run_end_bounds(k: Seq<ActivityNodeTag>, j: int)
    requires
        0 <= j <= k.len(),
    ensures
        j <= note_run_end(k, j) <= k.len(),
    decreases k.len() - j,
{
    if j < k.len() && is_note_spec(k[j]) {
        lemma_note_run_end_bounds(k, j + 1);
    }
}

/// Assigning modes changes nothing but the mode of notes: every other node,
/// and every note's kind and side, stay.  A note alone right after a flow
/// node becomes `Single`; two or more notes in a row right after a flow node
/// all become `Grouped`.
pub proof fn lemma_note_modes(k: Seq<ActivityNodeTag>, j: int)
    requires
        0 <= j < k.len(),
    ensures
        !is_note_spec(k[j]) ==> assigned_kind(k, j) == k[j],
        is_note_spec(assigned_kind(k, j)) == is_note_spec(k[j]),
        (k[j] is Note) == (assigned_kind(k, j) is Note),
        note_position(assigned_kind(k, j)) == note_position(k[j]),
        (j >= 1 && is_flow_spec(k[j - 1]) && is_note_spec(k[j]) && (j + 1 == k.len() || !is_note_spec(
            k[j + 1],
        ))) ==> note_mode(assigned_kind(k, j)) == Some(ActivityNoteModeLayout::Single),
        (j >= 1 && is_flow_spec(k[j - 1]) && is_note_spec(k[j]) && j + 1 < k.len() && is_note_spec(
            k[j + 1],
        )) ==> note_mode(assigned_kind(k, j)) == Some(ActivityNoteModeLayout::Grouped) && note_mode(
            assigned_kind(k, j + 1),
        ) == Some(ActivityNoteModeLayout::Grouped),
{
    if j >= 1 && is_flow_spec(k[j - 1]) && is_note_spec(k[j]) {
        assert(!is_note_spec(k[j - 1]));
        assert(note_run_start(k, j) == j);
        if j + 1 < k.len() && is_note_spec(k[j + 1]) {
            assert(note_run_start(k, j + 1) == note_run_start(k, j));
            lemma_note_run_end_bounds(k, j + 2);
            assert(note_run_end(k, j) == note_run_end(k, j + 1));
            assert(note_run_end(k, j + 1) == note_run_end(k, j + 2));
        } else {
            assert(note_run_end(k, j + 1) == j + 1);
        }
    }
}

/// Assigns each note its mode: the notes that directly follow a flow node
/// form its group; a group of one note is `Single`, a larger one `Grouped`.
/// Other nodes, and notes that follow no flow node, are left unchanged.
#[verifier::rlimit(40)]
pub fn assign_note_modes(nodes: &mut Vec<ActivityNodeTag>)
    ensures
        final(nodes)@.len() == old(nodes)@.len(),
        forall|j: int| 0 <= j < old(nodes)@.len() ==> #[trigger] final(nodes)@[j] == assigned_kind(old(nodes)@, j),
{
    let ghost orig = nodes@;
    let mut i: usize = 0;
    while i < nodes.len()
        invariant
            i <= nodes@.len(),
            nodes@.len() == orig.len(),
            forall|j: int| 0 <= j < i ==> #[trigger] nodes@[j] == assigned_kind(orig, j),
            forall|j: int| i <= j < orig.len() ==> #[trigger] nodes@[j] == orig[j],
            i < orig.len() && is_note_spec(orig[i as int]) ==> {
                let s = note_run_start(orig, i as int);
                s == 0 || !is_flow_spec(orig[s - 1])
            },
        decreases nodes.len() - i,
    {
        if !is_flow_node(&nodes[i]) {
            proof {
                assert(nodes@[i as int] == orig[i as int]);
                if is_note_spec(orig[i as int]) {
                    assert(nodes@[i as int] == assigned_kind(orig, i as int));
                }
                if i + 1 < orig.len() && is_note_spec(orig[i + 1]) {
                    if is_note_spec(orig[i as int]) {
                        lemma_run_start_step(orig, i + 1);
                    }
                }
            }
            i += 1;
            continue;
        }
        let mut j = i + 1;
        while j < nodes.len() && is_note_node(&nodes[j])
            invariant
                i < j <= nodes@.len(),
                nodes@.len() == orig.len(),
                forall|q: int| i <= q < orig.len() ==> #[trigger] nodes@[q] == orig[q],
                forall|q: int| i < q < j ==> is_note_spec(#[trigger] orig[q]),
            decreases nodes.len() - j,
        {
            j += 1;
        }
        let mode = if j - i - 1 == 1 {
            ActivityNoteModeLayout::Single
        } else {
            ActivityNoteModeLayout::Grouped
        };
        proof {
            assert(!is_note_spec(orig[i as int]));
        }
        let mut idx = i + 1;
        while idx < j
            invariant
                i < idx <= j <= nodes@.len(),
                nodes@.len() == orig.len(),
                is_flow_spec(orig[i as int]),
                !is_note_spec(orig[i as int]),
                j == orig.len() || !is_note_spec(orig[j as int]),
                forall|q: int| i < q < j ==> is_note_spec(#[trigger] orig[q]),
                mode == (if j - i - 1 == 1 {
                    ActivityNoteModeLayout::Single
                } else {
                    ActivityNoteModeLayout::Grouped
                }),
                forall|q: int| 0 <= q < i ==> #[trigger] nodes@[q] == assigned_kind(orig, q),
                forall|q: int| i + 1 <= q < idx ==> #[trigger] nodes@[q] == assigned_kind(orig, q),
                forall|q: int| idx <= q < orig.len() ==> #[trigger] nodes@[q] == orig[q],
                nodes@[i as int] == orig[i as int],
            decreases j - idx,
        {
            proof {
                lemma_run_start_const(orig, i + 1, idx as int);
                lemma_run_end_const(orig, idx as int, j as int);
            }
            let new_kind = match nodes[idx] {
                ActivityNodeTag::Note { position, .. } => ActivityNodeTag::Note { position, mode },
                ActivityNodeTag::FloatingNote { position, .. } => ActivityNodeTag::FloatingNote {
                    position,
                    mode,
                },
                other => other,
            };
            nodes.set(idx, new_kind);
            idx += 1;
        }
        proof {
            assert(nodes@[i as int] == assigned_kind(orig, i as int));
        }
        i = j;
    }
}


// ---------------------------------------------------------------------------
// Old-style activity graphs
// ---------------------------------------------------------------------------

/// Node kinds of an old-style (graph) activity diagram.
#[derive(Debug, Clone, Copy, PartialEq, Eq, Structural)]
pub enum OldActivityNodeKind {
    Start,
    End,
    Action,
    Branch,
    SyncBar,
}

/// A node of an old-style activity graph.
#[derive(Debug, Clone, PartialEq, Eq)]
pub struct OldActivityNode {
    pub id: String,
    pub uid: String,
    pub qualified_name: String,
    pub kind: OldActivityNodeKind,
    pub text: String,
}

/// A link of an old-style activity graph.
#[derive(Debug, Clone, PartialEq, Eq)]
pub struct OldActivityLink {
    pub uid: String,
    pub from_id: String,
    pub to_id: String,
    pub label: Option<String>,
    pub head_label: Option<String>,
    pub length: u32,
    pub source_line: usize,
}

/// The layout node kind of an old-style node kind: an end is drawn as a
/// stop, a branch as a diamond.
pub open spec fn old_kind_tag(k: OldActivityNodeKind) -> ActivityNodeTag {
    match k {
        OldActivityNodeKind::Start => ActivityNodeTag::Start,
        OldActivityNodeKind::End => ActivityNodeTag::Stop,
        OldActivityNodeKind::Action => ActivityNodeTag::Action,
        OldActivityNodeKind::Branch => ActivityNodeTag::Diamond,
        OldActivityNodeKind::SyncBar => ActivityNodeTag::SyncBar,
    }
}

/// The old-style node kind that a layout node kind draws, if any.
pub open spec fn old_kind_drawn_by(t: ActivityNodeTag) -> Option<OldActivityNodeKind> {
    match t {
        ActivityNodeTag::Start => Some(OldActivityNodeKind::Start),
        ActivityNodeTag::Stop => Some(OldActivityNodeKind::End),
        ActivityNodeTag::Action => Some(OldActivityNodeKind::Action),
        ActivityNodeTag::Diamond => Some(OldActivityNodeKind::Branch),
        ActivityNodeTag::SyncBar => Some(OldActivityNodeKind::SyncBar),
        _ => None,
    }
}

/// Every old-style node is drawn as itself (an end as a stop, a branch as a
/// diamond), and no two old-style kinds share a layout kind.
pub proof fn lemma_old_kind_drawn_as_itself(k: OldActivityNodeKind, m: OldActivityNodeKind)
    ensures
        old_kind_drawn_by(old_kind_tag(k)) == Some(k),
        old_kind_tag(k) == old_kind_tag(m) ==> k == m,
        is_flow_spec(old_kind_tag(k)),
{
}

/// Maps an old-style node kind to the layout node kind.
pub fn old_activity_node_kind(k: &OldActivityNodeKind) -> (r: ActivityNodeTag)
    ensures
        r == old_kind_tag(*k),
{
    match k {
        OldActivityNodeKind::Start => ActivityNodeTag::Start,
        OldActivityNodeKind::End => ActivityNodeTag::Stop,
        OldActivityNodeKind::Action => ActivityNodeTag::Action,
        OldActivityNodeKind::Branch => ActivityNodeTag::Diamond,
        OldActivityNodeKind::SyncBar => ActivityNodeTag::SyncBar,
    }
}

/// The smallest source line among the links that have `id` as an end.
pub open spec fn min_source_line(links: Seq<OldActivityLink>, id: Seq<char>) -> Option<usize>
    decreases links.len(),
{
    if links.len() == 0 {
        None
    } else {
        let prev = min_source_line(links.drop_last(), id);
        let l = links.last();
        if l.from_id@ == id || l.to_id@ == id {
            match prev {
                Some(p) => Some(if l.source_line < p {
                    l.source_line
                } else {
                    p
                }),
                None => Some(l.source_line),
            }
        } else {
            prev
        }
    }
}

/// The last position in `ids` holding `id`, or -1.
pub open spec fn last_pos(ids: Seq<Seq<char>>, id: Seq<char>) -> int
    decreases ids.len(),
{
    if ids.len() == 0 {
        -1
    } else if ids.last() == id {
        ids.len() - 1
    } else {
        last_pos(ids.drop_last(), id)
    }
}

/// The identifiers of the nodes.
pub open spec fn node_ids(nodes: Seq<OldActivityNode>) -> Seq<Seq<char>> {
    nodes.map_values(|n: OldActivityNode| n.id@)
}

/// What went wrong while matching an old-style graph with its layout.
#[derive(Debug, Clone, PartialEq, Eq)]
pub enum ActivityLayoutError {
    /// The layout has no node with this identifier.
    MissingNode(String),
    /// The layout has no edge for the link with this uid.
    MissingEdge(String),
    /// No node has the source identifier of a link.
    MissingEdgeSource(String),
    /// No node has the target identifier of a link.
    MissingEdgeTarget(String),
}

/// Error code and text of an `ActivityLayoutError`.
pub open spec fn error_view(e: ActivityLayoutError) -> (int, Seq<char>) {
    match e {
        ActivityLayoutError::MissingNode(s) => (0, s@),
        ActivityLayoutError::MissingEdge(s) => (1, s@),
        ActivityLayoutError::MissingEdgeSource(s) => (2, s@),
        ActivityLayoutError::MissingEdgeTarget(s) => (3, s@),
    }
}

/// The error of link `l` at position `k`, if any: no laid-out edge at that
/// position, an unknown source or an unknown target, in that order.
pub open spec fn link_error(
    nodes: Seq<OldActivityNode>,
    l: OldActivityLink,
    k: int,
    edge_count: nat,
) -> Option<(int, Seq<char>)> {
    if k >= edge_count {
        Some((1, l.uid@))
    } else if last_pos(node_ids(nodes), l.from_id@) < 0 {
        Some((2, l.from_id@))
    } else if last_pos(node_ids(nodes), l.to_id@) < 0 {
        Some((3, l.to_id@))
    } else {
        None
    }
}

/// The first error among links `k..`.
pub open spec fn first_link_error(
    nodes: Seq<OldActivityNode>,
    links: Seq<OldActivityLink>,
    k: int,
    edge_count: nat,
) -> Option<(int, Seq<char>)>
    decreases links.len() - k,
{
    if k < 0 || k >= links.len() {
        None
    } else if link_error(nodes, links[k], k, edge_count) is Some {
        link_error(nodes, links[k], k, edge_count)
    } else {
        first_link_error(nodes, links, k + 1, edge_count)
    }
}

/// The first node, from `k` on, that the layout lacks.
pub open spec fn first_missing_node(nodes: Seq<OldActivityNode>, laid: Seq<Seq<char>>, k: int) -> Option<
    (int, Seq<char>),
>
    decreases nodes.len() - k,
{
    if k < 0 || k >= nodes.len() {
        None
    } else if last_pos(laid, nodes[k].id@) < 0 {
        Some((0, nodes[k].id@))
    } else {
        first_missing_node(nodes, laid, k + 1)
    }
}

/// The error of matching a graph with its layout: the first node the
/// layout lacks, else the first link error.
pub open spec fn old_graph_error(
    nodes: Seq<OldActivityNode>,
    links: Seq<OldActivityLink>,
    laid: Seq<Seq<char>>,
    edge_count: nat,
) -> Option<(int, Seq<char>)> {
    if first_missing_node(nodes, laid, 0) is Some {
        first_missing_node(nodes, laid, 0)
    } else {
        first_link_error(nodes, links, 0, edge_count)
    }
}

/// How the nodes and links of an old-style graph map onto its layout.
pub struct OldActivityIndex {
    /// Per node: identifiers and smallest referencing source line.
    pub node_meta: Vec<ActivityGraphvizNodeMeta>,
    /// Per node: its layout node kind.
    pub node_kinds: Vec<ActivityNodeTag>,
    /// Per node: the position of its laid-out node (the last with its id).
    pub laid_out: Vec<usize>,
    /// Per link: the positions of its source and target nodes (the last node
    /// with each identifier).
    pub edge_ends: Vec<(usize, usize)>,
    /// Per link: the uids of its source and target nodes.
    pub edge_uids: Vec<(String, String)>,
}

fn last_pos_exec(ids: &Vec<String>, id: &str) -> (r: Option<usize>)
    ensures
        match r {
            Some(p) => p == last_pos(ids@.map_values(|s: String| s@), id@) && p < ids@.len(),
            None => last_pos(ids@.map_values(|s: String| s@), id@) < 0,
        },
{
    let ghost v = ids@.map_values(|s: String| s@);
    let mut k = ids.len();
    assert(v.take(k as int) =~= v);
    while k > 0
        invariant
            k <= ids@.len(),
            v == ids@.map_values(|s: String| s@),
            last_pos(v, id@) == last_pos(v.take(k as int), id@),
        decreases k,
    {
        assert(v.take(k as int).drop_last() =~= v.take(k - 1));
        if str_eq(ids[k - 1].as_str(), id) {
            return Some(k - 1);
        }
        k -= 1;
    }
    None
}

fn min_source_line_exec(links: &[OldActivityLink], id: &str) -> (r: Option<usize>)
    ensures
        r == min_source_line(links@, id@),
{
    let mut best: Option<usize> = None;
    let mut k: usize = 0;
    while k < links.len()
        invariant
            k <= links@.len(),
            best == min_source_line(links@.take(k as int), id@),
        decreases links.len() - k,
    {
        assert(links@.take(k + 1).drop_last() =~= links@.take(k as int));
        let l = &links[k];
        if str_eq(l.from_id.as_str(), id) || str_eq(l.to_id.as_str(), id) {
            best = match best {
                Some(p) => Some(if l.source_line < p {
                    l.source_line
                } else {
                    p
                }),
                None => Some(l.source_line),
            };
        }
        k += 1;
    }
    assert(links@.take(links@.len() as int) =~= links@);
    best
}

/// Matches an old-style activity graph with its laid-out graph (the node
/// identifiers the layout returned, and how many edges): fails on the first
/// node the layout lacks, then on the first link without a laid-out edge or
/// with an unknown end; otherwise returns per node its identifiers, smallest
/// referencing source line, kind and laid-out position, and per link the
/// positions and uids of its ends.
#[verifier::rlimit(40)]
pub fn index_old_activity_graph(
    nodes: &Vec<OldActivityNode>,
    links: &[OldActivityLink],
    laid_out_ids: &Vec<String>,
    laid_out_edges: usize,
) -> (r: Result<OldActivityIndex, ActivityLayoutError>)
    ensures
        match r {
            Err(e) => old_graph_error(
                nodes@,
                links@,
                laid_out_ids@.map_values(|s: String| s@),
                laid_out_edges as nat,
            ) == Some(error_view(e)),
            Ok(ix) => {
                let ids = node_ids(nodes@);
                let laid = laid_out_ids@.map_values(|s: String| s@);
                &&& old_graph_error(nodes@, links@, laid, laid_out_edges as nat) is None
                &&& ix.node_meta@.len() == nodes@.len()
                &&& ix.node_kinds@.len() == nodes@.len()
                &&& ix.laid_out@.len() == nodes@.len()
                &&& ix.edge_ends@.len() == links@.len()
                &&& ix.edge_uids@.len() == links@.len()
                &&& forall|k: int|
                    0 <= k < nodes@.len() ==> {
                        let m = #[trigger] ix.node_meta@[k];
                        &&& m.id@ == nodes@[k].id@
                        &&& m.uid@ == nodes@[k].uid@
                        &&& m.qualified_name@ == nodes@[k].qualified_name@
                        &&& m.source_line == min_source_line(links@, nodes@[k].id@)
                        &&& ix.node_kinds@[k] == old_kind_tag(nodes@[k].kind)
                        &&& ix.laid_out@[k] == last_pos(laid, nodes@[k].id@)
                    }
                &&& forall|k: int|
                    0 <= k < links@.len() ==> {
                        let (f, t) = #[trigger] ix.edge_ends@[k];
                        &&& f == last_pos(ids, links@[k].from_id@)
                        &&& t == last_pos(ids, links@[k].to_id@)
                        &&& ix.edge_uids@[k].0@ == nodes@[f as int].uid@
                        &&& ix.edge_uids@[k].1@ == nodes@[t as int].uid@
                    }
            },
        },
{
    let ghost laid = laid_out_ids@.map_values(|s: String| s@);
    let ghost ids = node_ids(nodes@);
    let mut id_list: Vec<String> = Vec::new();
    let mut node_meta: Vec<ActivityGraphvizNodeMeta> = Vec::new();
    let mut node_kinds: Vec<ActivityNodeTag> = Vec::new();
    let mut laid_out: Vec<usize> = Vec::new();
    let mut k: usize = 0;
    while k < nodes.len()
        invariant
            k <= nodes@.len(),
            laid == laid_out_ids@.map_values(|s: String| s@),
            ids == node_ids(nodes@),
            first_missing_node(nodes@, laid, 0) == first_missing_node(nodes@, laid, k as int),
            id_list@.len() == k,
            node_meta@.len() == k,
            node_kinds@.len() == k,
            laid_out@.len() == k,
            forall|q: int| 0 <= q < k ==> (#[trigger] id_list@[q])@ == nodes@[q].id@,
            forall|q: int|
                0 <= q < k ==> {
                    let m = #[trigger] node_meta@[q];
                    &&& m.id@ == nodes@[q].id@
                    &&& m.uid@ == nodes@[q].uid@
                    &&& m.qualified_name@ == nodes@[q].qualified_name@
                    &&& m.source_line == min_source_line(links@, nodes@[q].id@)
                    &&& node_kinds@[q] == old_kind_tag(nodes@[q].kind)
                    &&& laid_out@[q] == last_pos(laid, nodes@[q].id@)
                },
        decreases nodes.len() - k,
    {
        let node = &nodes[k];
        let pos = match last_pos_exec(laid_out_ids, node.id.as_str()) {
            Some(p) => p,
            None => {
                return Err(ActivityLayoutError::MissingNode(node.id.clone()));
            },
        };
        laid_out.push(pos);
        node_kinds.push(old_activity_node_kind(&node.kind));
        node_meta.push(
            ActivityGraphvizNodeMeta {
                id: node.id.clone(),
                uid: node.uid.clone(),
                qualified_name: node.qualified_name.clone(),
                source_line: min_source_line_exec(links, node.id.as_str()),
            },
        );
        id_list.push(node.id.clone());
        k += 1;
    }
    assert(id_list@.map_values(|s: String| s@) =~= ids);
    let mut edge_ends: Vec<(usize, usize)> = Vec::new();
    let mut edge_uids: Vec<(String, String)> = Vec::new();
    let mut e: usize = 0;
    while e < links.len()
        invariant
            e <= links@.len(),
            laid == laid_out_ids@.map_values(|s: String| s@),
            ids == node_ids(nodes@),
            ids == id_list@.map_values(|s: String| s@),
            first_missing_node(nodes@, laid, 0) is None,
            first_link_error(nodes@, links@, 0, laid_out_edges as nat) == first_link_error(
                nodes@,
                links@,
                e as int,
                laid_out_edges as nat,
            ),
            edge_ends@.len() == e,
            edge_uids@.len() == e,
            forall|q: int|
                0 <= q < e ==> {
                    let (f, t) = #[trigger] edge_ends@[q];
                    &&& f == last_pos(ids, links@[q].from_id@)
                    &&& t == last_pos(ids, links@[q].to_id@)
                    &&& 0 <= f < nodes@.len()
                    &&& 0 <= t < nodes@.len()
                    &&& edge_uids@[q].0@ == nodes@[f as int].uid@
                    &&& edge_uids@[q].1@ == nodes@[t as int].uid@
                },
        decreases links.len() - e,
    {
        let link = &links[e];
        if e >= laid_out_edges {
            return Err(ActivityLayoutError::MissingEdge(link.uid.clone()));
        }
        let f = match last_pos_exec(&id_list, link.from_id.as_str()) {
            Some(p) => p,
            None => {
                return Err(ActivityLayoutError::MissingEdgeSource(link.from_id.clone()));
            },
        };
        let t = match last_pos_exec(&id_list, link.to_id.as_str()) {
            Some(p) => p,
            None => {
                return Err(ActivityLayoutError::MissingEdgeTarget(link.to_id.clone()));
            },
        };
        edge_ends.push((f, t));
        edge_uids.push((nodes[f].uid.clone(), nodes[t].uid.clone()));
        e += 1;
    }
    Ok(OldActivityIndex { node_meta, node_kinds, laid_out, edge_ends, edge_uids })
}


// ---------------------------------------------------------------------------
// Draw order of repeat blocks
// ---------------------------------------------------------------------------

/// What the draw-order computations read of a positioned node.
#[derive(Debug, Clone, Copy, PartialEq, Eq, Structural)]
pub struct OrderNode {
    /// The node's index (equal to its position in a laid-out diagram).
    pub index: usize,
    pub kind: ActivityNodeTag,
    /// The node sits inside an `if` branch and gets no sequential edge.
    pub skip_in_flow: bool,
}

/// Every entry of `body` is a position in `nodes`.
pub open spec fn positions_in(nodes: Seq<OrderNode>, body: Seq<usize>) -> bool {
    forall|k: int| 0 <= k < body.len() ==> (#[trigger] body[k]) < nodes.len()
}

/// The end of the run of `body` entries from `t` on whose nodes skip the flow.
pub open spec fn then_run_end(nodes: Seq<OrderNode>, body: Seq<usize>, t: int) -> int
    decreases body.len() - t,
{
    if 0 <= t < body.len() && nodes[body[t] as int].skip_in_flow {
        then_run_end(nodes, body, t + 1)
    } else {
        t
    }
}

/// `body[k..]` in draw order: an if-diamond comes after the then-branch
/// nodes (those skipping the flow) that directly follow it.
pub open spec fn if_reorder_from(nodes: Seq<OrderNode>, body: Seq<usize>, k: int) -> Seq<usize>
    decreases body.len() - k,
{
    if k < 0 || k >= body.len() {
        Seq::empty()
    } else if nodes[body[k] as int].kind is IfDiamond {
        let t = then_run_end(nodes, body, k + 1);
        if k < t <= body.len() {
            body.subrange(k + 1, t).push(body[k]) + if_reorder_from(nodes, body, t)
        } else {
            Seq::empty()
        }
    } else {
        seq![body[k]] + if_reorder_from(nodes, body, k + 1)
    }
}

proof fn lemma_then_run_end_bounds(nodes: Seq<OrderNode>, body: Seq<usize>, t: int)
    requires
        0 <= t <= body.len(),
    ensures
        t <= then_run_end(nodes, body, t) <= body.len(),
        forall|q: int| t <= q < then_run_end(nodes, body, t) ==> nodes[(#[trigger] body[q]) as int].skip_in_flow,
    decreases body.len() - t,
{
    if t < body.len() && nodes[body[t] as int].skip_in_flow {
        lemma_then_run_end_bounds(nodes, body, t + 1);
    }
}

/// Reordering for drawing keeps exactly the entries of the body.
pub proof fn lemma_if_reorder_permutes(nodes: Seq<OrderNode>, body: Seq<usize>, k: int)
    requires
        0 <= k <= body.len(),
    ensures
        if_reorder_from(nodes, body, k).to_multiset() == body.subrange(k, body.len() as int).to_multiset(),
    decreases body.len() - k,
{
    broadcast use vstd::seq_lib::group_to_multiset_ensures;

    if k == body.len() {
        assert(body.subrange(k, body.len() as int) =~= Seq::<usize>::empty());
        assert(if_reorder_from(nodes, body, k) =~= Seq::<usize>::empty());
    } else if nodes[body[k] as int].kind is IfDiamond {
        let t = then_run_end(nodes, body, k + 1);
        lemma_then_run_end_bounds(nodes, body, k + 1);
        lemma_if_reorder_permutes(nodes, body, t);
        let run = body.subrange(k + 1, t);
        let rest = body.subrange(t, body.len() as int);
        vstd::seq_lib::lemma_multiset_commutative(run.push(body[k]), if_reorder_from(nodes, body, t));
        vstd::seq_lib::lemma_multiset_commutative(seq![body[k]], run);
        vstd::seq_lib::lemma_multiset_commutative(seq![body[k]] + run, rest);
        assert(body.subrange(k, body.len() as int) =~= seq![body[k]] + run + rest);
        assert(run.push(body[k]).to_multiset() =~= run.to_multiset().insert(body[k]));
        assert((seq![body[k]] + run).to_multiset() =~= seq![body[k]].to_multiset().add(run.to_multiset()));
        assert(seq![body[k]] =~= Seq::<usize>::empty().push(body[k]));
        assert(seq![body[k]].to_multiset() =~= Seq::<usize>::empty().to_multiset().insert(body[k]));
    } else {
        lemma_if_reorder_permutes(nodes, body, k + 1);
        let rest = body.subrange(k + 1, body.len() as int);
        vstd::seq_lib::lemma_multiset_commutative(seq![body[k]], if_reorder_from(nodes, body, k + 1));
        vstd::seq_lib::lemma_multiset_commutative(seq![body[k]], rest);
        assert(body.subrange(k, body.len() as int) =~= seq![body[k]] + rest);
    }
}

/// Orders a repeat body for drawing the way `if` blocks are drawn: when an
/// if-diamond is met, the then-branch nodes that directly follow it (those
/// that skip the flow) are emitted before it.  The result is a permutation of
/// `body`.
#[verifier::rlimit(40)]
pub fn reorder_if_nodes_for_draw(nodes: &[OrderNode], body: &[usize]) -> (r: Vec<usize>)
    requires
        positions_in(nodes@, body@),
    ensures
        r@ == if_reorder_from(nodes@, body@, 0),
        r@.to_multiset() == body@.to_multiset(),
{
    let mut result: Vec<usize> = Vec::new();
    let mut k: usize = 0;
    proof {
        lemma_if_reorder_permutes(nodes@, body@, 0);
        assert(body@.subrange(0, body@.len() as int) =~= body@);
    }
    while k < body.len()
        invariant
            k <= body@.len(),
            positions_in(nodes@, body@),
            result@ + if_reorder_from(nodes@, body@, k as int) == if_reorder_from(nodes@, body@, 0),
        decreases body.len() - k,
    {
        let j = body[k];
        if matches!(nodes[j].kind, ActivityNodeTag::IfDiamond) {
            let mut then_end = k + 1;
            proof {
                lemma_then_run_end_bounds(nodes@, body@, k + 1);
            }
            while then_end < body.len() && nodes[body[then_end]].skip_in_flow
                invariant
                    k + 1 <= then_end <= body@.len(),
                    positions_in(nodes@, body@),
                    then_run_end(nodes@, body@, then_end as int) == then_run_end(nodes@, body@, k + 1),
                decreases body.len() - then_end,
            {
                then_end += 1;
            }
            let ghost before = result@;
            let mut b = k + 1;
            while b < then_end
                invariant
                    k + 1 <= b <= then_end <= body@.len(),
                    result@ == before + body@.subrange(k + 1, b as int),
                decreases then_end - b,
            {
                result.push(body[b]);
                b += 1;
                assert(result@ =~= before + body@.subrange(k + 1, b as int));
            }
            result.push(j);
            assert(result@ + if_reorder_from(nodes@, body@, then_end as int) =~= before
                + if_reorder_from(nodes@, body@, k as int));
            k = then_end;
        } else {
            let ghost before = result@;
            result.push(j);
            assert(result@ + if_reorder_from(nodes@, body@, k + 1) =~= before + if_reorder_from(
                nodes@,
                body@,
                k as int,
            ));
            k += 1;
        }
    }
    assert(result@ =~= result@ + if_reorder_from(nodes@, body@, k as int));
    result
}


/// The hex index of the last plain repeat loop-back that opens at node index `d1`.
pub open spec fn repeat_hex_for(rep: Seq<(usize, usize)>, d1: usize) -> Option<usize>
    decreases rep.len(),
{
    if rep.len() == 0 {
        None
    } else if rep.last().1 == d1 {
        Some(rep.last().0)
    } else {
        repeat_hex_for(rep.drop_last(), d1)
    }
}

/// The (hex, backward) indices of the last backward loop-back that opens at `d1`.
pub open spec fn backward_for(bw: Seq<(usize, usize, usize)>, d1: usize) -> Option<(usize, usize)>
    decreases bw.len(),
{
    if bw.len() == 0 {
        None
    } else if bw.last().1 == d1 {
        Some((bw.last().0, bw.last().2))
    } else {
        backward_for(bw.drop_last(), d1)
    }
}

/// The hex index of the repeat frame that opens at node index `d1`: a
/// backward loop-back takes precedence over a plain one.
pub open spec fn hex_for(rep: Seq<(usize, usize)>, bw: Seq<(usize, usize, usize)>, d1: usize) -> Option<
    usize,
> {
    match backward_for(bw, d1) {
        Some((h, _)) => Some(h),
        None => repeat_hex_for(rep, d1),
    }
}

/// The first position at or after `from` whose node has index `idx`, or `nodes.len()`.
pub open spec fn first_index_from(nodes: Seq<OrderNode>, from: int, idx: usize) -> int
    decreases nodes.len() - from,
{
    if from < 0 || from >= nodes.len() {
        nodes.len() as int
    } else if nodes[from].index == idx {
        from
    } else {
        first_index_from(nodes, from + 1, idx)
    }
}

/// The first position at or after `from` whose node has index `idx` and is
/// not yet drawn, or `nodes.len()`.
pub open spec fn first_free_index(nodes: Seq<OrderNode>, c: Seq<bool>, from: int, idx: usize) -> int
    decreases nodes.len() - from,
{
    if from < 0 || from >= nodes.len() {
        nodes.len() as int
    } else if nodes[from].index == idx && !c[from] {
        from
    } else {
        first_free_index(nodes, c, from + 1, idx)
    }
}

/// The positions in `[a, b)` not yet drawn, in order.
pub open spec fn free_between(c: Seq<bool>, a: int, b: int) -> Seq<usize>
    decreases b - a,
{
    if b <= a {
        Seq::empty()
    } else if !c[b - 1] {
        free_between(c, a, b - 1).push((b - 1) as usize)
    } else {
        free_between(c, a, b - 1)
    }
}

/// `c` with the positions `js` marked as drawn.
pub open spec fn mark_all(c: Seq<bool>, js: Seq<usize>) -> Seq<bool>
    decreases js.len(),
{
    if js.len() == 0 {
        c
    } else {
        mark_all(c, js.drop_last()).update(js.last() as int, true)
    }
}

/// The draw order from position `i` on, given the order `res` so far and
/// the drawn marks `c`.  A node that opens a repeat frame (it has a hex) is
/// drawn after the not yet drawn nodes before its hex (in `if` draw order),
/// then its hex unless already drawn, then its backward node if any and not
/// yet drawn; other nodes are drawn in place.  No node is drawn twice.
pub open spec fn render_scan(
    nodes: Seq<OrderNode>,
    rep: Seq<(usize, usize)>,
    bw: Seq<(usize, usize, usize)>,
    i: int,
    res: Seq<usize>,
    c: Seq<bool>,
) -> Seq<usize>
    decreases nodes.len() - i,
{
    if i < 0 || i >= nodes.len() {
        res
    } else if c[i] {
        render_scan(nodes, rep, bw, i + 1, res, c)
    } else {
        match hex_for(rep, bw, nodes[i].index) {
            None => render_scan(nodes, rep, bw, i + 1, res.push(i as usize), c.update(i, true)),
            Some(h) => {
                let be = first_index_from(nodes, i + 1, h);
                let re = if_reorder_from(nodes, free_between(c, i + 1, be), 0);
                let res2 = (res + re).push(i as usize);
                let c2 = mark_all(c, re).update(i, true);
                let res3 = if be < nodes.len() && !c2[be] {
                    res2.push(be as usize)
                } else {
                    res2
                };
                let c3 = if be < nodes.len() && !c2[be] {
                    c2.update(be, true)
                } else {
                    c2
                };
                match backward_for(bw, nodes[i].index) {
                    Some((_, b)) => {
                        let j = first_free_index(nodes, c3, 0, b);
                        if j < nodes.len() {
                            render_scan(nodes, rep, bw, i + 1, res3.push(j as usize), c3.update(j, true))
                        } else {
                            render_scan(nodes, rep, bw, i + 1, res3, c3)
                        }
                    },
                    None => render_scan(nodes, rep, bw, i + 1, res3, c3),
                }
            },
        }
    }
}

/// The draw order of the nodes (see `render_scan`).
pub open spec fn render_order_spec(
    nodes: Seq<OrderNode>,
    rep: Seq<(usize, usize)>,
    bw: Seq<(usize, usize, usize)>,
) -> Seq<usize> {
    render_scan(nodes, rep, bw, 0, Seq::empty(), Seq::new(nodes.len(), |j: int| false))
}

proof fn lemma_first_index_bounds(nodes: Seq<OrderNode>, from: int, idx: usize)
    requires
        0 <= from <= nodes.len(),
    ensures
        from <= first_index_from(nodes, from, idx) <= nodes.len(),
        first_index_from(nodes, from, idx) < nodes.len() ==> nodes[first_index_from(nodes, from, idx)].index == idx,
    decreases nodes.len() - from,
{
    if from < nodes.len() && nodes[from].index != idx {
        lemma_first_index_bounds(nodes, from + 1, idx);
    }
}

proof fn lemma_first_free_bounds(nodes: Seq<OrderNode>, c: Seq<bool>, from: int, idx: usize)
    requires
        0 <= from <= nodes.len(),
        c.len() == nodes.len(),
    ensures
        from <= first_free_index(nodes, c, from, idx) <= nodes.len(),
        first_free_index(nodes, c, from, idx) < nodes.len() ==> !c[first_free_index(nodes, c, from, idx)],
    decreases nodes.len() - from,
{
    if from < nodes.len() && !(nodes[from].index == idx && !c[from]) {
        lemma_first_free_bounds(nodes, c, from + 1, idx);
    }
}

proof fn lemma_free_between(c: Seq<bool>, a: int, b: int)
    requires
        0 <= a,
        b <= c.len(),
        c.len() <= usize::MAX,
    ensures
        forall|k: int| 0 <= k < free_between(c, a, b).len() ==> a <= #[trigger] free_between(c, a, b)[k] < b,
    decreases b - a,
{
    if b > a {
        lemma_free_between(c, a, b - 1);
        let p = free_between(c, a, b - 1);
        if !c[b - 1] {
            assert forall|k: int| 0 <= k < p.push((b - 1) as usize).len() implies a <= #[trigger] p.push(
                (b - 1) as usize,
            )[k] < b by {
                if k < p.len() {
                    assert(p.push((b - 1) as usize)[k] == p[k]);
                }
            }
        }
    }
}

proof fn lemma_mark_all(c: Seq<bool>, js: Seq<usize>)
    requires
        c.len() <= usize::MAX,
        forall|k: int| 0 <= k < js.len() ==> (#[trigger] js[k]) < c.len(),
    ensures
        mark_all(c, js).len() == c.len(),
        forall|j: int| 0 <= j < c.len() ==> #[trigger] mark_all(c, js)[j] == (c[j] || js.contains(j as usize)),
    decreases js.len(),
{
    if js.len() > 0 {
        lemma_mark_all(c, js.drop_last());
        assert forall|j: int| 0 <= j < c.len() implies #[trigger] mark_all(c, js)[j] == (c[j] || js.contains(j as usize)) by {
            if js.drop_last().contains(j as usize) {
                let q = choose|q: int| 0 <= q < js.drop_last().len() && js.drop_last()[q] == j as usize;
                assert(js[q] == j as usize);
            }
            if js.contains(j as usize) && j as usize != js.last() {
                let q = choose|q: int| 0 <= q < js.len() && js[q] == j as usize;
                assert(q != js.len() - 1);
                assert(js.drop_last()[q] == j as usize);
            }
        }
    }
}

fn first_index_exec(nodes: &[OrderNode], from: usize, idx: usize) -> (r: usize)
    requires
        from <= nodes@.len(),
    ensures
        r == first_index_from(nodes@, from as int, idx),
{
    let mut j = from;
    while j < nodes.len() && nodes[j].index != idx
        invariant
            from <= j <= nodes@.len(),
            first_index_from(nodes@, j as int, idx) == first_index_from(nodes@, from as int, idx),
        decreases nodes.len() - j,
    {
        j += 1;
    }
    j
}

fn repeat_hex_exec(rep: &[(usize, usize)], d1: usize) -> (r: Option<usize>)
    ensures
        r == repeat_hex_for(rep@, d1),
{
    let mut k = rep.len();
    assert(rep@.take(k as int) =~= rep@);
    while k > 0
        invariant
            k <= rep@.len(),
            repeat_hex_for(rep@.take(k as int), d1) == repeat_hex_for(rep@, d1),
        decreases k,
    {
        assert(rep@.take(k as int).drop_last() =~= rep@.take(k - 1));
        if rep[k - 1].1 == d1 {
            return Some(rep[k - 1].0);
        }
        k -= 1;
    }
    None
}

fn backward_exec(bw: &[(usize, usize, usize)], d1: usize) -> (r: Option<(usize, usize)>)
    ensures
        r == backward_for(bw@, d1),
{
    let mut k = bw.len();
    assert(bw@.take(k as int) =~= bw@);
    while k > 0
        invariant
            k <= bw@.len(),
            backward_for(bw@.take(k as int), d1) == backward_for(bw@, d1),
        decreases k,
    {
        assert(bw@.take(k as int).drop_last() =~= bw@.take(k - 1));
        if bw[k - 1].1 == d1 {
            return Some((bw[k - 1].0, bw[k - 1].2));
        }
        k -= 1;
    }
    None
}

/// Computes the order in which nodes are drawn so that each repeat block is
/// drawn as its body, then its opening diamond, then its closing hexagon
/// (then its backward action, if it has one); `repeat_loopbacks` holds
/// (hex, diamond) node indices and `backward_loopbacks` (hex, diamond,
/// backward) node indices.  The order is a permutation of the positions
/// (a hexagon or backward node already drawn is not drawn again); without
/// loop-backs it is the identity.
#[verifier::rlimit(40)]
pub fn compute_render_order_for_repeat(
    nodes: &[OrderNode],
    repeat_loopbacks: &[(usize, usize)],
    backward_loopbacks: &[(usize, usize, usize)],
) -> (r: Vec<usize>)
    ensures
        r@ == render_order_spec(nodes@, repeat_loopbacks@, backward_loopbacks@),
        r@.no_duplicates(),
        forall|k: int| 0 <= k < r@.len() ==> (#[trigger] r@[k]) < nodes@.len(),
        forall|j: usize| j < nodes@.len() ==> #[trigger] r@.contains(j),
        repeat_loopbacks@.len() == 0 && backward_loopbacks@.len() == 0 ==> r@ == Seq::new(
            nodes@.len(),
            |j: int| j as usize,
        ),
{
    let n = nodes.len();
    proof {
        lemma_render_order_is_permutation(nodes@, repeat_loopbacks@, backward_loopbacks@);
    }
    let ghost ns = nodes@;
    let ghost rep = repeat_loopbacks@;
    let ghost bwl = backward_loopbacks@;
    let mut consumed: Vec<bool> = Vec::new();
    while consumed.len() < n
        invariant
            consumed@.len() <= n,
            forall|j: int| 0 <= j < consumed@.len() ==> !(#[trigger] consumed@[j]),
        decreases n - consumed.len(),
    {
        consumed.push(false);
    }
    assert(consumed@ =~= Seq::new(n as nat, |j: int| false));
    let mut result: Vec<usize> = Vec::new();
    let mut i: usize = 0;
    while i < n
        invariant
            n == nodes@.len(),
            i <= n,
            consumed@.len() == n,
            render_scan(ns, rep, bwl, i as int, result@, consumed@) == render_order_spec(ns, rep, bwl),
            ns == nodes@,
            rep == repeat_loopbacks@,
            bwl == backward_loopbacks@,
            forall|k: int| 0 <= k < result@.len() ==> (#[trigger] result@[k]) < n,
            forall|j: int| 0 <= j < n && #[trigger] consumed@[j] ==> result@.contains(j as usize),
            forall|j: int| 0 <= j < i ==> #[trigger] consumed@[j],
            rep.len() == 0 && bwl.len() == 0 ==> {
                &&& result@ == Seq::new(i as nat, |j: int| j as usize)
                &&& forall|j: int| i <= j < n ==> !(#[trigger] consumed@[j])
            },
        decreases n - i,
    {
        if consumed[i] {
            i += 1;
            continue;
        }
        let d1 = nodes[i].index;
        let bwf = backward_exec(backward_loopbacks, d1);
        let hex = match bwf {
            Some((h, _)) => Some(h),
            None => repeat_hex_exec(repeat_loopbacks, d1),
        };
        match hex {
            None => {
                let ghost before = result@;
                result.push(i);
                consumed.set(i, true);
                proof {
                    assert forall|j: int| 0 <= j < n && #[trigger] consumed@[j] implies result@.contains(j as usize) by {
                        if j != i {
                            assert(before.contains(j as usize));
                            let q = choose|q: int| 0 <= q < before.len() && before[q] == j as usize;
                            assert(result@[q] == j as usize);
                        } else {
                            assert(result@[result@.len() - 1] == i);
                        }
                    }
                    if rep.len() == 0 && bwl.len() == 0 {
                        assert(result@ =~= Seq::new((i + 1) as nat, |j: int| j as usize));
                    }
                }
            },
            Some(h) => {
                proof {
                    assert(rep.len() > 0 || bwl.len() > 0);
                }
                let body_end = first_index_exec(nodes, i + 1, h);
                proof {
                    lemma_first_index_bounds(ns, i + 1, h);
                }
                let ghost c0 = consumed@;
                let ghost r0 = result@;
                let mut body: Vec<usize> = Vec::new();
                let mut j = i + 1;
                while j < body_end
                    invariant
                        i + 1 <= j <= body_end <= n,
                        consumed@ == c0,
                        c0.len() == n,
                        body@ == free_between(c0, i + 1, j as int),
                    decreases body_end - j,
                {
                    if !consumed[j] {
                        body.push(j);
                    }
                    j += 1;
                }
                proof {
                    lemma_free_between(c0, i + 1, body_end as int);
                }
                let reordered = reorder_if_nodes_for_draw(nodes, body.as_slice());
                proof {
                    assert forall|q: int| 0 <= q < reordered@.len() implies (#[trigger] reordered@[q]) < n by {
                        let x = reordered@[q];
                        vstd::seq_lib::to_multiset_contains(reordered@, x);
                        vstd::seq_lib::to_multiset_contains(body@, x);
                        assert(reordered@.contains(x));
                        let p = choose|p: int| 0 <= p < body@.len() && body@[p] == x;
                        assert(body@[p] < n);
                    }
                }
                let mut m: usize = 0;
                while m < reordered.len()
                    invariant
                        m <= reordered@.len(),
                        consumed@.len() == n,
                        forall|q: int| 0 <= q < reordered@.len() ==> (#[trigger] reordered@[q]) < n,
                        result@ == r0 + reordered@.take(m as int),
                        consumed@ == mark_all(c0, reordered@.take(m as int)),
                        c0.len() == n,
                    decreases reordered.len() - m,
                {
                    let x = reordered[m];
                    result.push(x);
                    consumed.set(x, true);
                    proof {
                        assert(reordered@.take(m + 1).drop_last() =~= reordered@.take(m as int));
                        assert(result@ =~= r0 + reordered@.take(m + 1));
                    }
                    m += 1;
                }
                assert(reordered@.take(reordered@.len() as int) =~= reordered@);
                proof {
                    lemma_mark_all(c0, reordered@);
                }
                result.push(i);
                consumed.set(i, true);
                if body_end < n && !consumed[body_end] {
                    result.push(body_end);
                    consumed.set(body_end, true);
                }
                let ghost c3 = consumed@;
                let ghost r3 = result@;
                proof {
                    assert forall|q: int| 0 <= q < n && #[trigger] c3[q] implies r3.contains(q as usize) by {
                        if c0[q] {
                            let p = choose|p: int| 0 <= p < r0.len() && r0[p] == q as usize;
                            assert(r3[p] == q as usize);
                        } else if reordered@.contains(q as usize) {
                            let p = choose|p: int| 0 <= p < reordered@.len() && reordered@[p] == q as usize;
                            assert(r3[r0.len() + p] == q as usize);
                        } else if q == i {
                            assert(r3[(r0.len() + reordered@.len()) as int] == i);
                        } else {
                            assert(q == body_end);
                            assert(r3[r3.len() - 1] == body_end);
                        }
                    }
                }
                match bwf {
                    Some((_, b)) => {
                        let mut k: usize = 0;
                        while k < n && !(nodes[k].index == b && !consumed[k])
                            invariant
                                k <= n,
                                n == ns.len(),
                                ns == nodes@,
                                consumed@ == c3,
                                c3.len() == n,
                                first_free_index(ns, c3, k as int, b) == first_free_index(ns, c3, 0, b),
                            decreases n - k,
                        {
                            k += 1;
                        }
                        if k < n {
                            result.push(k);
                            consumed.set(k, true);
                            proof {
                                assert forall|q: int| 0 <= q < n && #[trigger] consumed@[q] implies result@.contains(q as usize) by {
                                    if q != k {
                                        assert(c3[q]);
                                        let p = choose|p: int| 0 <= p < r3.len() && r3[p] == q as usize;
                                        assert(result@[p] == q as usize);
                                    } else {
                                        assert(result@[result@.len() - 1] == k);
                                    }
                                }
                            }
                        }
                    },
                    None => {},
                }
            },
        }
        i += 1;
    }
    proof {
        assert forall|j: usize| j < nodes@.len() implies #[trigger] result@.contains(j) by {
            assert(consumed@[j as int]);
        }
        if rep.len() == 0 && bwl.len() == 0 {
            assert(result@ =~= Seq::new(n as nat, |j: int| j as usize));
        }
    }
    result
}

proof fn lemma_free_between_exact(c: Seq<bool>, a: int, b: int)
    requires
        0 <= a,
        b <= c.len(),
        c.len() <= usize::MAX,
    ensures
        free_between(c, a, b).no_duplicates(),
        forall|k: int| 0 <= k < free_between(c, a, b).len() ==> !c[#[trigger] free_between(c, a, b)[k] as int],
        forall|j: int| a <= j < b && !c[j] ==> #[trigger] free_between(c, a, b).contains(j as usize),
    decreases b - a,
{
    lemma_free_between(c, a, b);
    if b > a {
        lemma_free_between_exact(c, a, b - 1);
        lemma_free_between(c, a, b - 1);
        let p = free_between(c, a, b - 1);
        if !c[b - 1] {
            let q = p.push((b - 1) as usize);
            assert forall|k: int| 0 <= k < q.len() implies !c[#[trigger] q[k] as int] by {
                if k < p.len() {
                    assert(q[k] == p[k]);
                }
            }
            assert forall|j: int| a <= j < b && !c[j] implies #[trigger] q.contains(j as usize) by {
                if j < b - 1 {
                    assert(p.contains(j as usize));
                    let k = choose|k: int| 0 <= k < p.len() && p[k] == j as usize;
                    assert(q[k] == j as usize);
                } else {
                    assert(q[q.len() - 1] == j as usize);
                }
            }
        }
    }
}

/// Every drawn position of a step of the scan is new.
proof fn lemma_render_scan_distinct(
    nodes: Seq<OrderNode>,
    rep: Seq<(usize, usize)>,
    bw: Seq<(usize, usize, usize)>,
    i: int,
    res: Seq<usize>,
    c: Seq<bool>,
)
    requires
        nodes.len() <= usize::MAX,
        c.len() == nodes.len(),
        0 <= i <= nodes.len(),
        res.no_duplicates(),
        forall|k: int| 0 <= k < res.len() ==> (#[trigger] res[k]) < nodes.len() && c[res[k] as int],
        forall|j: int| 0 <= j < i ==> #[trigger] c[j],
        forall|j: int| 0 <= j < nodes.len() && #[trigger] c[j] ==> res.contains(j as usize),
    ensures
        render_scan(nodes, rep, bw, i, res, c).no_duplicates(),
        forall|k: int| 0 <= k < render_scan(nodes, rep, bw, i, res, c).len() ==> (#[trigger] render_scan(
            nodes,
            rep,
            bw,
            i,
            res,
            c,
        )[k]) < nodes.len(),
        forall|j: int| 0 <= j < nodes.len() ==> #[trigger] render_scan(nodes, rep, bw, i, res, c).contains(
            j as usize,
        ),
    decreases nodes.len() - i,
{
    let n = nodes.len() as int;
    if i >= n {
        assert forall|j: int| 0 <= j < n implies #[trigger] res.contains(j as usize) by {
            assert(c[j]);
        }
        return;
    }
    if c[i] {
        lemma_render_scan_distinct(nodes, rep, bw, i + 1, res, c);
        return;
    }
    match hex_for(rep, bw, nodes[i].index) {
        None => {
            let res1 = res.push(i as usize);
            let c1 = c.update(i, true);
            assert forall|k: int| 0 <= k < res1.len() implies (#[trigger] res1[k]) < n && c1[res1[k] as int] by {
                if k < res.len() {
                    assert(res1[k] == res[k]);
                }
            }
            assert(res1.no_duplicates()) by {
                assert forall|k: int| 0 <= k < res.len() implies res[k] != i as usize by {
                    assert(c[res[k] as int]);
                }
            }
            assert forall|j: int| 0 <= j < n && #[trigger] c1[j] implies res1.contains(j as usize) by {
                if j == i {
                    assert(res1[res.len() as int] == i as usize);
                } else {
                    assert(res.contains(j as usize));
                    let k = choose|k: int| 0 <= k < res.len() && res[k] == j as usize;
                    assert(res1[k] == j as usize);
                }
            }
            lemma_render_scan_distinct(nodes, rep, bw, i + 1, res1, c1);
        },
        Some(h) => {
            broadcast use vstd::seq_lib::group_to_multiset_ensures;

            let d = nodes[i].index;
            let be = first_index_from(nodes, i + 1, h);
            lemma_first_index_bounds(nodes, i + 1, h);
            let fl = free_between(c, i + 1, be);
            lemma_free_between_exact(c, i + 1, be);
            lemma_free_between(c, i + 1, be);
            let re = if_reorder_from(nodes, fl, 0);
            lemma_if_reorder_permutes(nodes, fl, 0);
            assert(fl.subrange(0, fl.len() as int) =~= fl);
            // the reordered body holds exactly the free positions before the hexagon
            assert forall|k: int| 0 <= k < re.len() implies fl.contains(#[trigger] re[k]) by {
                assert(re.to_multiset().count(re[k]) > 0);
            }
            assert(re.no_duplicates()) by {
                fl.lemma_multiset_has_no_duplicates();
                re.lemma_multiset_has_no_duplicates_conv();
            }
            assert forall|k: int| 0 <= k < re.len() implies i < #[trigger] re[k] < be && !c[re[k] as int] by {
                let q = choose|q: int| 0 <= q < fl.len() && fl[q] == re[k];
                assert(!c[fl[q] as int]);
            }
            let res2 = (res + re).push(i as usize);
            let c2 = mark_all(c, re).update(i, true);
            lemma_mark_all(c, re);
            assert((res + re).no_duplicates()) by {
                vstd::seq_lib::lemma_no_dup_in_concat(res, re);
            }
            assert(res2.no_duplicates()) by {
                assert forall|k: int| 0 <= k < (res + re).len() implies (res + re)[k] != i as usize by {
                    if k < res.len() {
                        assert(c[res[k] as int]);
                    } else {
                        assert((res + re)[k] == re[k - res.len()]);
                    }
                }
            }
            assert forall|k: int| 0 <= k < res2.len() implies (#[trigger] res2[k]) < n && c2[res2[k] as int] by {
                if k < res.len() {
                    assert(res2[k] == res[k]);
                } else if k < res.len() + re.len() {
                    assert(res2[k] == re[k - res.len()]);
                    assert(re.contains(res2[k]));
                }
            }
            assert forall|j: int| 0 <= j < n && #[trigger] c2[j] implies res2.contains(j as usize) by {
                if j == i {
                    assert(res2[res2.len() - 1] == i as usize);
                } else if c[j] {
                    assert(res.contains(j as usize));
                    let k = choose|k: int| 0 <= k < res.len() && res[k] == j as usize;
                    assert(res2[k] == j as usize);
                } else {
                    assert(re.contains(j as usize));
                    let k = choose|k: int| 0 <= k < re.len() && re[k] == j as usize;
                    assert(res2[res.len() + k] == j as usize);
                }
            }
            let push_hex = be < n && !c2[be];
            let res3 = if push_hex {
                res2.push(be as usize)
            } else {
                res2
            };
            let c3 = if push_hex {
                c2.update(be, true)
            } else {
                c2
            };
            if push_hex {
                assert forall|k: int| 0 <= k < res2.len() implies res2[k] != be as usize by {
                    assert(c2[res2[k] as int]);
                }
                assert forall|k: int| 0 <= k < res3.len() implies (#[trigger] res3[k]) < n && c3[res3[k] as int] by {
                    if k < res2.len() {
                        assert(res3[k] == res2[k]);
                    }
                }
            }
            assert forall|j: int| 0 <= j < n && #[trigger] c3[j] implies res3.contains(j as usize) by {
                if push_hex && j == be {
                    assert(res3[res2.len() as int] == be as usize);
                } else {
                    assert(c2[j]);
                    assert(res2.contains(j as usize));
                    let k = choose|k: int| 0 <= k < res2.len() && res2[k] == j as usize;
                    assert(res3[k] == j as usize);
                }
            }
            assert forall|j: int| 0 <= j < i + 1 implies #[trigger] c3[j] by {
                if j < i {
                    assert(c[j]);
                }
            }
            assert(res3.no_duplicates());
            match backward_for(bw, d) {
                Some((_, b)) => {
                    let j = first_free_index(nodes, c3, 0, b);
                    lemma_first_free_bounds(nodes, c3, 0, b);
                    if j < n {
                        let res4 = res3.push(j as usize);
                        let c4 = c3.update(j, true);
                        assert forall|k: int| 0 <= k < res3.len() implies res3[k] != j as usize by {
                            assert(c3[res3[k] as int]);
                        }
                        assert forall|k: int| 0 <= k < res4.len() implies (#[trigger] res4[k]) < n && c4[res4[k] as int] by {
                            if k < res3.len() {
                                assert(res4[k] == res3[k]);
                            }
                        }
                        assert forall|q: int| 0 <= q < n && #[trigger] c4[q] implies res4.contains(q as usize) by {
                            if q == j {
                                assert(res4[res3.len() as int] == j as usize);
                            } else {
                                assert(c3[q]);
                                assert(res3.contains(q as usize));
                                let k = choose|k: int| 0 <= k < res3.len() && res3[k] == q as usize;
                                assert(res4[k] == q as usize);
                            }
                        }
                        assert forall|q: int| 0 <= q < i + 1 implies #[trigger] c4[q] by {
                            assert(c3[q]);
                        }
                        lemma_render_scan_distinct(nodes, rep, bw, i + 1, res4, c4);
                    } else {
                        lemma_render_scan_distinct(nodes, rep, bw, i + 1, res3, c3);
                    }
                },
                None => {
                    lemma_render_scan_distinct(nodes, rep, bw, i + 1, res3, c3);
                },
            }
        },
    }
}

/// The draw order draws every node exactly once: it is a permutation of the
/// positions.
pub proof fn lemma_render_order_is_permutation(
    nodes: Seq<OrderNode>,
    rep: Seq<(usize, usize)>,
    bw: Seq<(usize, usize, usize)>,
)
    requires
        nodes.len() <= usize::MAX,
    ensures
        render_order_spec(nodes, rep, bw).no_duplicates(),
        forall|k: int| 0 <= k < render_order_spec(nodes, rep, bw).len() ==> (#[trigger] render_order_spec(
            nodes,
            rep,
            bw,
        )[k]) < nodes.len(),
        forall|j: int| 0 <= j < nodes.len() ==> #[trigger] render_order_spec(nodes, rep, bw).contains(
            j as usize,
        ),
{
    lemma_render_scan_distinct(
        nodes,
        rep,
        bw,
        0,
        Seq::empty(),
        Seq::new(nodes.len(), |j: int| false),
    );
}

/// The indices of the nodes among the first `k` that take part in the
/// sequential flow (flow nodes outside `if` branches), in order.
pub open spec fn flow_indices(nodes: Seq<OrderNode>, k: int) -> Seq<usize>
    decreases k,
{
    if k <= 0 {
        Seq::empty()
    } else if is_flow_spec(nodes[k - 1].kind) && !nodes[k - 1].skip_in_flow {
        flow_indices(nodes, k - 1).push(nodes[k - 1].index)
    } else {
        flow_indices(nodes, k - 1)
    }
}

/// The sequential flow edges: each flow node is joined to the next one.
pub open spec fn flow_pairs(nodes: Seq<OrderNode>) -> Seq<(usize, usize)> {
    let f = flow_indices(nodes, nodes.len() as int);
    Seq::new((if f.len() > 0 { f.len() - 1 } else { 0 }) as nat, |k: int| (f[k], f[k + 1]))
}

/// The (from, to) node indices of the sequential flow edges: consecutive
/// nodes that take part in the flow (notes, backward actions, goto lines and
/// the nodes inside `if` branches do not).
pub fn flow_edge_pairs(nodes: &[OrderNode]) -> (r: Vec<(usize, usize)>)
    ensures
        r@ == flow_pairs(nodes@),
{
    let mut f: Vec<usize> = Vec::new();
    let mut k: usize = 0;
    while k < nodes.len()
        invariant
            k <= nodes@.len(),
            f@ == flow_indices(nodes@, k as int),
        decreases nodes.len() - k,
    {
        if is_flow_node(&nodes[k].kind) && !nodes[k].skip_in_flow {
            f.push(nodes[k].index);
        }
        k += 1;
    }
    let mut r: Vec<(usize, usize)> = Vec::new();
    let mut m: usize = 0;
    while m + 1 < f.len()
        invariant
            f@ == flow_indices(nodes@, nodes@.len() as int),
            m + 1 <= f.len() || (m == 0 && f.len() == 0),
            r@ == Seq::new(m as nat, |q: int| (f@[q], f@[q + 1])),
        decreases f.len() - m,
    {
        r.push((f[m], f[m + 1]));
        m += 1;
        assert(r@ =~= Seq::new(m as nat, |q: int| (f@[q], f@[q + 1])));
    }
    assert(r@ =~= flow_pairs(nodes@));
    r
}

/// The index of the first node, from position `k` on, that follows the
/// if-diamond `d` in the flow (a flow node outside `if` branches with a
/// larger index), or `d` when there is none.
pub open spec fn post_if_index(nodes: Seq<OrderNode>, d: usize, k: int) -> usize
    decreases nodes.len() - k,
{
    if k < 0 || k >= nodes.len() {
        d
    } else if nodes[k].index > d && is_flow_spec(nodes[k].kind) && !nodes[k].skip_in_flow {
        nodes[k].index
    } else {
        post_if_index(nodes, d, k + 1)
    }
}

/// The edge leaves from before one of the if-diamonds and lands at or after
/// the node that follows that whole `if` block: it jumps across the block.
pub open spec fn jumps_if_block(nodes: Seq<OrderNode>, diamonds: Seq<usize>, e: (usize, usize)) -> bool {
    exists|b: int|
        0 <= b < diamonds.len() && e.0 < #[trigger] diamonds[b] && e.1 >= post_if_index(
            nodes,
            diamonds[b],
            0,
        )
}

/// The node that follows the if-diamond `d` in the flow, or `d`.
fn post_if_node(nodes: &[OrderNode], d: usize) -> (p: usize)
    ensures
        p == post_if_index(nodes@, d, 0),
{
    let mut k: usize = nodes.len();
    let mut p: usize = d;
    while k > 0
        invariant
            k <= nodes@.len(),
            p == post_if_index(nodes@, d, k as int),
        decreases k,
    {
        k -= 1;
        if nodes[k].index > d && is_flow_node(&nodes[k].kind) && !nodes[k].skip_in_flow {
            p = nodes[k].index;
        }
    }
    p
}

/// Drops the sequential edges that jump across an `if` block (the nodes
/// before and after a block are joined through its branches instead); the
/// other edges stay, in their order.
pub fn drop_edges_across_if_blocks(
    nodes: &[OrderNode],
    edges: &[(usize, usize)],
    diamonds: &[usize],
) -> (r: Vec<(usize, usize)>)
    ensures
        r@ == edges@.filter(|e: (usize, usize)| !jumps_if_block(nodes@, diamonds@, e)),
{
    let mut posts: Vec<usize> = Vec::new();
    let mut b: usize = 0;
    while b < diamonds.len()
        invariant
            b <= diamonds@.len(),
            posts@.len() == b,
            forall|q: int| 0 <= q < b ==> posts@[q] == post_if_index(nodes@, diamonds@[q], 0),
        decreases diamonds.len() - b,
    {
        let p = post_if_node(nodes, diamonds[b]);
        posts.push(p);
        b += 1;
    }
    let ghost keep = |e: (usize, usize)| !jumps_if_block(nodes@, diamonds@, e);
    let mut r: Vec<(usize, usize)> = Vec::new();
    let mut i: usize = 0;
    while i < edges.len()
        invariant
            i <= edges@.len(),
            posts@.len() == diamonds@.len(),
            forall|q: int|
                0 <= q < diamonds@.len() ==> posts@[q] == post_if_index(nodes@, diamonds@[q], 0),
            keep == (|e: (usize, usize)| !jumps_if_block(nodes@, diamonds@, e)),
            r@ == edges@.subrange(0, i as int).filter(keep),
        decreases edges.len() - i,
    {
        let e = edges[i];
        let mut jumps = false;
        let mut q: usize = 0;
        while q < diamonds.len()
            invariant
                q <= diamonds@.len(),
                posts@.len() == diamonds@.len(),
                forall|t: int|
                    0 <= t < diamonds@.len() ==> posts@[t] == post_if_index(nodes@, diamonds@[t], 0),
                jumps <==> exists|t: int|
                    0 <= t < q && e.0 < #[trigger] diamonds@[t] && e.1 >= post_if_index(
                        nodes@,
                        diamonds@[t],
                        0,
                    ),
            decreases diamonds.len() - q,
        {
            if e.0 < diamonds[q] && e.1 >= posts[q] {
                jumps = true;
            }
            q += 1;
        }
        assert(jumps == jumps_if_block(nodes@, diamonds@, e));
        proof {
            reveal(Seq::filter);
            assert(edges@.subrange(0, i + 1).drop_last() =~= edges@.subrange(0, i as int));
            assert(edges@.subrange(0, i + 1).last() == e);
        }
        if !jumps {
            r.push(e);
        }
        i += 1;
    }
    assert(edges@.subrange(0, edges@.len() as int) =~= edges@);
    r
}

// ---------------------------------------------------------------------------
// Edge order of repeat blocks
// ---------------------------------------------------------------------------

/// What the edge reordering reads of an edge.
#[derive(Debug, Clone, Copy, PartialEq, Eq, Structural)]
pub struct EdgeInfo {
    pub from_index: usize,
    pub to_index: usize,
    /// The edge leaves a repeat body at a `break`.
    pub is_break: bool,
}

/// A position in the reordered edge list: an edge of the input, or the
/// `k`-th loop-back edge of the repeat frame at position `frame`.
#[derive(Debug, Clone, Copy, PartialEq, Eq, Structural)]
pub enum EdgeSlot {
    Edge(usize),
    Loopback { frame: usize, k: usize },
}

/// A repeat frame: (diamond index, hex index, number of loop-back edges).
pub type RepeatFrame = (usize, usize, usize);

/// The node at `p` exists and is a plain diamond.
pub open spec fn is_diamond_at(nodes: Seq<ActivityNodeTag>, p: int) -> bool {
    0 <= p < nodes.len() && nodes[p] is Diamond
}

/// How edge `e` relates to frame `f`: 1 enters its body from the diamond,
/// 2 leaves its body into the hex, 3 continues from the hex into an exit
/// diamond, 4 lies inside its body (breaks included), 0 none of these.
pub open spec fn edge_class(e: EdgeInfo, f: RepeatFrame, nodes: Seq<ActivityNodeTag>) -> int {
    let (d1, hex) = (f.0, f.1);
    if e.from_index == d1 && e.to_index > d1 && e.to_index < hex {
        1
    } else if e.to_index == hex && e.from_index > d1 && e.from_index < hex {
        2
    } else if e.from_index == hex && e.to_index == hex + 1 && is_diamond_at(nodes, hex + 1) {
        3
    } else if e.from_index > d1 && e.from_index < hex && (e.to_index < hex || e.is_break) {
        4
    } else {
        0
    }
}

/// Some frame with diamond `d1` classes `e` as `c`.
pub open spec fn some_frame_class(
    e: EdgeInfo,
    frames: Seq<RepeatFrame>,
    nodes: Seq<ActivityNodeTag>,
    d1: usize,
    c: int,
) -> bool {
    exists|q: int| 0 <= q < frames.len() && (#[trigger] frames[q]).0 == d1 && edge_class(e, frames[q], nodes) == c
}

/// The smallest diamond index among frames whose span holds edge `e`.
pub open spec fn owner_of(e: EdgeInfo, frames: Seq<RepeatFrame>) -> Option<usize>
    decreases frames.len(),
{
    if frames.len() == 0 {
        None
    } else {
        let prev = owner_of(e, frames.drop_last());
        let f = frames.last();
        if e.from_index >= f.0 && e.to_index <= f.1 && e.from_index != e.to_index {
            match prev {
                Some(p) => Some(if f.0 < p {
                    f.0
                } else {
                    p
                }),
                None => Some(f.0),
            }
        } else {
            prev
        }
    }
}

/// The slots of the edges at positions `xs`.
pub open spec fn edge_slots(xs: Seq<usize>) -> Seq<EdgeSlot> {
    xs.map_values(|x: usize| EdgeSlot::Edge(x))
}

/// The slots of the loop-back edges of frame `q`.
pub open spec fn loopback_slots(frames: Seq<RepeatFrame>, q: int) -> Seq<EdgeSlot> {
    if 0 <= q < frames.len() {
        Seq::new(frames[q].2 as nat, |k: int| EdgeSlot::Loopback { frame: q as usize, k: k as usize })
    } else {
        Seq::empty()
    }
}

/// Every frame's hex index has a successor index.
pub open spec fn frames_ok(frames: Seq<RepeatFrame>) -> bool {
    forall|q: int| 0 <= q < frames.len() ==> (#[trigger] frames[q]).1 < usize::MAX
}

fn is_diamond_at_exec(nodes: &[ActivityNodeTag], p: usize) -> (r: bool)
    ensures
        r == is_diamond_at(nodes@, p as int),
{
    p < nodes.len() && matches!(nodes[p], ActivityNodeTag::Diamond)
}

fn edge_class_exec(e: &EdgeInfo, f: &RepeatFrame, nodes: &[ActivityNodeTag]) -> (r: usize)
    requires
        f.1 < usize::MAX,
    ensures
        r == edge_class(*e, *f, nodes@),
{
    let (d1, hex) = (f.0, f.1);
    if e.from_index == d1 && e.to_index > d1 && e.to_index < hex {
        1
    } else if e.to_index == hex && e.from_index > d1 && e.from_index < hex {
        2
    } else if e.from_index == hex && e.to_index == hex + 1 && is_diamond_at_exec(nodes, hex + 1) {
        3
    } else if e.from_index > d1 && e.from_index < hex && (e.to_index < hex || e.is_break) {
        4
    } else {
        0
    }
}

fn some_frame_class_exec(
    e: &EdgeInfo,
    frames: &[RepeatFrame],
    nodes: &[ActivityNodeTag],
    d1: usize,
    c: usize,
) -> (r: bool)
    requires
        frames_ok(frames@),
    ensures
        r == some_frame_class(*e, frames@, nodes@, d1, c as int),
{
    let mut q: usize = 0;
    while q < frames.len()
        invariant
            q <= frames@.len(),
            frames_ok(frames@),
            forall|p: int| 0 <= p < q ==> !((#[trigger] frames@[p]).0 == d1 && edge_class(*e, frames@[p], nodes@) == c),
        decreases frames.len() - q,
    {
        if frames[q].0 == d1 && edge_class_exec(e, &frames[q], nodes) == c {
            return true;
        }
        q += 1;
    }
    false
}

fn owner_exec(e: &EdgeInfo, frames: &[RepeatFrame]) -> (r: Option<usize>)
    ensures
        r == owner_of(*e, frames@),
{
    let mut best: Option<usize> = None;
    let mut q: usize = 0;
    while q < frames.len()
        invariant
            q <= frames@.len(),
            best == owner_of(*e, frames@.take(q as int)),
        decreases frames.len() - q,
    {
        assert(frames@.take(q + 1).drop_last() =~= frames@.take(q as int));
        let f = frames[q];
        if e.from_index >= f.0 && e.to_index <= f.1 && e.from_index != e.to_index {
            best = match best {
                Some(p) => Some(if f.0 < p {
                    f.0
                } else {
                    p
                }),
                None => Some(f.0),
            };
        }
        q += 1;
    }
    assert(frames@.take(frames@.len() as int) =~= frames@);
    best
}

/// The edge is a continuation of some frame: from its hex into the exit
/// diamond right after it.
pub open spec fn is_continuation(e: EdgeInfo, frames: Seq<RepeatFrame>, nodes: Seq<ActivityNodeTag>) -> bool {
    exists|q: int| 0 <= q < frames.len() && edge_class(e, #[trigger] frames[q], nodes) == 3
}

/// The edge at position `ei` is deferred to the end: it enters a frame's
/// diamond from outside, leaves a frame's hex forward (unless it is a
/// continuation), or leaves an exit diamond forward.
pub open spec fn is_deferred(e: EdgeInfo, frames: Seq<RepeatFrame>, nodes: Seq<ActivityNodeTag>) -> bool {
    let is_d1 = |x: usize| exists|q: int| 0 <= q < frames.len() && (#[trigger] frames[q]).0 == x;
    let is_hex = |x: usize| exists|q: int| 0 <= q < frames.len() && (#[trigger] frames[q]).1 == x;
    let exit_source = exists|q: int|
        0 <= q < frames.len() && e.from_index == (#[trigger] frames[q]).1 + 1 && is_diamond_at(
            nodes,
            frames[q].1 + 1,
        );
    ||| (is_d1(e.to_index) && !is_d1(e.from_index) && e.from_index < e.to_index)
    ||| (is_hex(e.from_index) && !is_hex(e.to_index) && e.to_index > e.from_index
        && !is_continuation(e, frames, nodes))
    ||| (exit_source && e.to_index > e.from_index)
}

/// The diamond of the first frame, from `q` on, of which `e` is the continuation.
pub open spec fn continued_frame(e: EdgeInfo, frames: Seq<RepeatFrame>, nodes: Seq<ActivityNodeTag>, q: int) -> Option<usize>
    decreases frames.len() - q,
{
    if q < 0 || q >= frames.len() {
        None
    } else if edge_class(e, frames[q], nodes) == 3 {
        Some(frames[q].0)
    } else {
        continued_frame(e, frames, nodes, q + 1)
    }
}

/// The repeat block (named by its diamond) that a not deferred edge is drawn
/// with: the outermost frame whose span holds it, else the frame it
/// continues; `None` for an edge drawn in place.
pub open spec fn block_of(e: EdgeInfo, frames: Seq<RepeatFrame>, nodes: Seq<ActivityNodeTag>) -> Option<usize> {
    match owner_of(e, frames) {
        Some(d) => Some(d),
        None => continued_frame(e, frames, nodes, 0),
    }
}

/// The role of an edge in the block of diamond `d`: 1 enters the body, 2
/// leaves it into the hex, 3 continues into the exit diamond, 0 any other
/// edge of the block (the body's own edges).
pub open spec fn edge_role(e: EdgeInfo, frames: Seq<RepeatFrame>, nodes: Seq<ActivityNodeTag>, d: usize) -> int {
    if some_frame_class(e, frames, nodes, d, 1) {
        1
    } else if some_frame_class(e, frames, nodes, d, 2) {
        2
    } else if some_frame_class(e, frames, nodes, d, 3) {
        3
    } else {
        0
    }
}

/// The edge at `j` is drawn with the block of `d`.
pub open spec fn in_block(edges: Seq<EdgeInfo>, frames: Seq<RepeatFrame>, nodes: Seq<ActivityNodeTag>, j: int, d: usize) -> bool {
    !is_deferred(edges[j], frames, nodes) && block_of(edges[j], frames, nodes) == Some(d)
}

/// The positions below `k` of the edges of the block of `d` with role `r`,
/// in order.
pub open spec fn block_members(
    edges: Seq<EdgeInfo>,
    frames: Seq<RepeatFrame>,
    nodes: Seq<ActivityNodeTag>,
    d: usize,
    r: int,
    k: int,
) -> Seq<usize>
    decreases k,
{
    if k <= 0 {
        Seq::empty()
    } else {
        let prev = block_members(edges, frames, nodes, d, r, k - 1);
        if in_block(edges, frames, nodes, k - 1, d) && edge_role(edges[k - 1], frames, nodes, d) == r {
            prev.push((k - 1) as usize)
        } else {
            prev
        }
    }
}

/// The loop-back slots of the frames among the first `k` whose diamond is `d`.
pub open spec fn frame_loopbacks(frames: Seq<RepeatFrame>, d: usize, k: int) -> Seq<EdgeSlot>
    decreases k,
{
    if k <= 0 {
        Seq::empty()
    } else if frames[k - 1].0 == d {
        frame_loopbacks(frames, d, k - 1) + loopback_slots(frames, k - 1)
    } else {
        frame_loopbacks(frames, d, k - 1)
    }
}

/// The block of `d` as drawn: its body edges, its enter edges, the loop-back
/// edges of its frames, its exit edges, its continuation edges.
pub open spec fn block_slots(edges: Seq<EdgeInfo>, frames: Seq<RepeatFrame>, nodes: Seq<ActivityNodeTag>, d: usize) -> Seq<EdgeSlot> {
    let n = edges.len() as int;
    edge_slots(block_members(edges, frames, nodes, d, 0, n)) + edge_slots(
        block_members(edges, frames, nodes, d, 1, n),
    ) + frame_loopbacks(frames, d, frames.len() as int) + edge_slots(
        block_members(edges, frames, nodes, d, 2, n),
    ) + edge_slots(block_members(edges, frames, nodes, d, 3, n))
}

/// Some edge before `k` is drawn with the block of `d`.
pub open spec fn block_started(edges: Seq<EdgeInfo>, frames: Seq<RepeatFrame>, nodes: Seq<ActivityNodeTag>, d: usize, k: int) -> bool {
    exists|j: int| 0 <= j < k && #[trigger] in_block(edges, frames, nodes, j, d)
}

/// What the edge at `j` contributes in place: nothing if it is deferred,
/// itself if it belongs to no block, the whole block if it is the block's
/// first edge, else nothing.
pub open spec fn edge_piece(edges: Seq<EdgeInfo>, frames: Seq<RepeatFrame>, nodes: Seq<ActivityNodeTag>, j: int) -> Seq<EdgeSlot> {
    if is_deferred(edges[j], frames, nodes) {
        Seq::empty()
    } else {
        match block_of(edges[j], frames, nodes) {
            None => seq![EdgeSlot::Edge(j as usize)],
            Some(d) => if block_started(edges, frames, nodes, d, j) {
                Seq::empty()
            } else {
                block_slots(edges, frames, nodes, d)
            },
        }
    }
}

/// The pieces of the first `k` edges, in order.
pub open spec fn edge_pieces(edges: Seq<EdgeInfo>, frames: Seq<RepeatFrame>, nodes: Seq<ActivityNodeTag>, k: int) -> Seq<EdgeSlot>
    decreases k,
{
    if k <= 0 {
        Seq::empty()
    } else {
        edge_pieces(edges, frames, nodes, k - 1) + edge_piece(edges, frames, nodes, k - 1)
    }
}

/// The loop-back slots of the frames among the first `k` whose block has no
/// edge at all.
pub open spec fn orphan_loopbacks(edges: Seq<EdgeInfo>, frames: Seq<RepeatFrame>, nodes: Seq<ActivityNodeTag>, k: int) -> Seq<EdgeSlot>
    decreases k,
{
    if k <= 0 {
        Seq::empty()
    } else if block_started(edges, frames, nodes, frames[k - 1].0, edges.len() as int) {
        orphan_loopbacks(edges, frames, nodes, k - 1)
    } else {
        orphan_loopbacks(edges, frames, nodes, k - 1) + loopback_slots(frames, k - 1)
    }
}

/// The positions below `k` of the deferred edges, in order.
pub open spec fn deferred_edges(edges: Seq<EdgeInfo>, frames: Seq<RepeatFrame>, nodes: Seq<ActivityNodeTag>, k: int) -> Seq<usize>
    decreases k,
{
    if k <= 0 {
        Seq::empty()
    } else if is_deferred(edges[k - 1], frames, nodes) {
        deferred_edges(edges, frames, nodes, k - 1).push((k - 1) as usize)
    } else {
        deferred_edges(edges, frames, nodes, k - 1)
    }
}

/// The reordered edges: the pieces of the edges in order, then the
/// loop-backs of frames without edges, then the deferred edges.
pub open spec fn edge_order_spec(
    edges: Seq<EdgeInfo>,
    frames: Seq<RepeatFrame>,
    nodes: Seq<ActivityNodeTag>,
) -> Seq<EdgeSlot> {
    edge_pieces(edges, frames, nodes, edges.len() as int) + orphan_loopbacks(
        edges,
        frames,
        nodes,
        frames.len() as int,
    ) + edge_slots(deferred_edges(edges, frames, nodes, edges.len() as int))
}

#[verifier::rlimit(40)]
fn is_deferred_exec(e: &EdgeInfo, frames: &[RepeatFrame], nodes: &[ActivityNodeTag]) -> (r: bool)
    requires
        frames_ok(frames@),
    ensures
        r == is_deferred(*e, frames@, nodes@),
{
    let mut to_d1 = false;
    let mut from_d1 = false;
    let mut from_hex = false;
    let mut to_hex = false;
    let mut is_cont = false;
    let mut exit_source = false;
    let mut q: usize = 0;
    while q < frames.len()
        invariant
            q <= frames@.len(),
            frames_ok(frames@),
            to_d1 == exists|p: int| 0 <= p < q && (#[trigger] frames@[p]).0 == e.to_index,
            from_d1 == exists|p: int| 0 <= p < q && (#[trigger] frames@[p]).0 == e.from_index,
            from_hex == exists|p: int| 0 <= p < q && (#[trigger] frames@[p]).1 == e.from_index,
            to_hex == exists|p: int| 0 <= p < q && (#[trigger] frames@[p]).1 == e.to_index,
            is_cont == exists|p: int| 0 <= p < q && edge_class(*e, #[trigger] frames@[p], nodes@) == 3,
            exit_source == exists|p: int|
                0 <= p < q && e.from_index == (#[trigger] frames@[p]).1 + 1 && is_diamond_at(
                    nodes@,
                    frames@[p].1 + 1,
                ),
        decreases frames.len() - q,
    {
        let f = frames[q];
        if f.0 == e.to_index {
            to_d1 = true;
        }
        if f.0 == e.from_index {
            from_d1 = true;
        }
        if f.1 == e.from_index {
            from_hex = true;
        }
        if f.1 == e.to_index {
            to_hex = true;
        }
        if edge_class_exec(e, &frames[q], nodes) == 3 {
            is_cont = true;
        }
        if e.from_index == f.1 + 1 && is_diamond_at_exec(nodes, f.1 + 1) {
            exit_source = true;
        }
        q += 1;
    }
    (to_d1 && !from_d1 && e.from_index < e.to_index) || (from_hex && !to_hex && e.to_index
        > e.from_index && !is_cont) || (exit_source && e.to_index > e.from_index)
}

fn block_of_exec(e: &EdgeInfo, frames: &[RepeatFrame], nodes: &[ActivityNodeTag]) -> (r: Option<usize>)
    requires
        frames_ok(frames@),
    ensures
        r == block_of(*e, frames@, nodes@),
{
    match owner_exec(e, frames) {
        Some(d) => Some(d),
        None => {
            let mut q: usize = 0;
            while q < frames.len()
                invariant
                    q <= frames@.len(),
                    frames_ok(frames@),
                    owner_of(*e, frames@) is None,
                    continued_frame(*e, frames@, nodes@, q as int) == continued_frame(*e, frames@, nodes@, 0),
                decreases frames.len() - q,
            {
                if edge_class_exec(e, &frames[q], nodes) == 3 {
                    return Some(frames[q].0);
                }
                q += 1;
            }
            None
        },
    }
}

fn in_block_exec(edges: &[EdgeInfo], frames: &[RepeatFrame], nodes: &[ActivityNodeTag], j: usize, d: usize) -> (r: bool)
    requires
        frames_ok(frames@),
        j < edges@.len(),
    ensures
        r == in_block(edges@, frames@, nodes@, j as int, d),
{
    !is_deferred_exec(&edges[j], frames, nodes) && block_of_exec(&edges[j], frames, nodes) == Some(d)
}

fn edge_role_exec(e: &EdgeInfo, frames: &[RepeatFrame], nodes: &[ActivityNodeTag], d: usize) -> (r: usize)
    requires
        frames_ok(frames@),
    ensures
        r == edge_role(*e, frames@, nodes@, d),
{
    if some_frame_class_exec(e, frames, nodes, d, 1) {
        1
    } else if some_frame_class_exec(e, frames, nodes, d, 2) {
        2
    } else if some_frame_class_exec(e, frames, nodes, d, 3) {
        3
    } else {
        0
    }
}

/// Pushes the slots of the edges of the block of `d` with role `r`.
fn push_members(
    out: &mut Vec<EdgeSlot>,
    edges: &[EdgeInfo],
    frames: &[RepeatFrame],
    nodes: &[ActivityNodeTag],
    d: usize,
    r: usize,
)
    requires
        frames_ok(frames@),
    ensures
        final(out)@ == old(out)@ + edge_slots(block_members(edges@, frames@, nodes@, d, r as int, edges@.len() as int)),
{
    let ghost o0 = out@;
    let mut k: usize = 0;
    while k < edges.len()
        invariant
            k <= edges@.len(),
            frames_ok(frames@),
            out@ == o0 + edge_slots(block_members(edges@, frames@, nodes@, d, r as int, k as int)),
        decreases edges.len() - k,
    {
        if in_block_exec(edges, frames, nodes, k, d) && edge_role_exec(&edges[k], frames, nodes, d) == r {
            out.push(EdgeSlot::Edge(k));
            assert(edge_slots(block_members(edges@, frames@, nodes@, d, r as int, k + 1)) =~= edge_slots(
                block_members(edges@, frames@, nodes@, d, r as int, k as int),
            ).push(EdgeSlot::Edge(k)));
        }
        k += 1;
    }
}

/// Pushes the loop-back slots of frame `q`.
fn push_loopbacks(out: &mut Vec<EdgeSlot>, frames: &[RepeatFrame], q: usize)
    requires
        q < frames@.len(),
    ensures
        final(out)@ == old(out)@ + loopback_slots(frames@, q as int),
{
    let ghost o0 = out@;
    let cnt = frames[q].2;
    let mut m: usize = 0;
    while m < cnt
        invariant
            m <= cnt,
            q < frames@.len(),
            cnt == frames@[q as int].2,
            out@ == o0 + loopback_slots(frames@, q as int).take(m as int),
        decreases cnt - m,
    {
        out.push(EdgeSlot::Loopback { frame: q, k: m });
        m += 1;
        assert(out@ =~= o0 + loopback_slots(frames@, q as int).take(m as int));
    }
    assert(loopback_slots(frames@, q as int).take(cnt as int) =~= loopback_slots(frames@, q as int));
}

/// Pushes the block of `d`.
fn push_block(out: &mut Vec<EdgeSlot>, edges: &[EdgeInfo], frames: &[RepeatFrame], nodes: &[ActivityNodeTag], d: usize)
    requires
        frames_ok(frames@),
    ensures
        final(out)@ == old(out)@ + block_slots(edges@, frames@, nodes@, d),
{
    let ghost o0 = out@;
    push_members(out, edges, frames, nodes, d, 0);
    push_members(out, edges, frames, nodes, d, 1);
    let ghost o1 = out@;
    let mut q: usize = 0;
    while q < frames.len()
        invariant
            q <= frames@.len(),
            out@ == o1 + frame_loopbacks(frames@, d, q as int),
        decreases frames.len() - q,
    {
        if frames[q].0 == d {
            push_loopbacks(out, frames, q);
        }
        q += 1;
        assert(out@ =~= o1 + frame_loopbacks(frames@, d, q as int));
    }
    push_members(out, edges, frames, nodes, d, 2);
    push_members(out, edges, frames, nodes, d, 3);
    assert(out@ =~= o0 + block_slots(edges@, frames@, nodes@, d));
}

fn block_started_exec(edges: &[EdgeInfo], frames: &[RepeatFrame], nodes: &[ActivityNodeTag], d: usize, k: usize) -> (r: bool)
    requires
        frames_ok(frames@),
        k <= edges@.len(),
    ensures
        r == block_started(edges@, frames@, nodes@, d, k as int),
{
    let mut j: usize = 0;
    while j < k
        invariant
            j <= k <= edges@.len(),
            frames_ok(frames@),
            forall|p: int| 0 <= p < j ==> !#[trigger] in_block(edges@, frames@, nodes@, p, d),
        decreases k - j,
    {
        if in_block_exec(edges, frames, nodes, j, d) {
            return true;
        }
        j += 1;
    }
    false
}

/// Reorders the edges so that each repeat block draws its connections in
/// the order of a repeat tile: first its body's own edges, then the edges
/// from its diamond into the body, then its loop-back edges, then the edges
/// from the body into its hexagon, then the edges from the hexagon to an exit
/// diamond; the block is drawn where its first edge stands.  Edges that enter
/// a block from outside or leave it are deferred to the end, in their order;
/// all other edges keep their place.  The loop-backs of a frame that has no
/// edge come after the last block.  `loopbacks` holds for each frame
/// (diamond index, hex index, number of loop-back edges).  Every edge and
/// every loop-back edge is drawn exactly once; without frames the order is
/// unchanged.
#[verifier::rlimit(40)]
pub fn reorder_edges_for_repeat(
    edges: &[EdgeInfo],
    loopbacks: &[RepeatFrame],
    nodes: &[ActivityNodeTag],
) -> (r: Vec<EdgeSlot>)
    requires
        frames_ok(loopbacks@),
    ensures
        r@ == edge_order_spec(edges@, loopbacks@, nodes@),
        r@.no_duplicates(),
        forall|x: EdgeSlot| #[trigger] r@.contains(x) <==> match x {
            EdgeSlot::Edge(j) => j < edges@.len(),
            EdgeSlot::Loopback { frame, k } => frame < loopbacks@.len() && k < loopbacks@[frame as int].2,
        },
        loopbacks@.len() == 0 ==> r@ == Seq::new(edges@.len(), |j: int| EdgeSlot::Edge(j as usize)),
{
    let n: usize = edges.len();
    let frame_count: usize = loopbacks.len();
    proof {
        lemma_edge_order_is_permutation(edges@, loopbacks@, nodes@);
    }
    let mut out: Vec<EdgeSlot> = Vec::new();
    let mut k: usize = 0;
    while k < n
        invariant
            k <= n == edges@.len(),
            frames_ok(loopbacks@),
            out@ == edge_pieces(edges@, loopbacks@, nodes@, k as int),
        decreases n - k,
    {
        let ghost o0 = out@;
        if !is_deferred_exec(&edges[k], loopbacks, nodes) {
            match block_of_exec(&edges[k], loopbacks, nodes) {
                None => {
                    out.push(EdgeSlot::Edge(k));
                },
                Some(d) => {
                    if !block_started_exec(edges, loopbacks, nodes, d, k) {
                        push_block(&mut out, edges, loopbacks, nodes, d);
                    }
                },
            }
        }
        assert(out@ =~= o0 + edge_piece(edges@, loopbacks@, nodes@, k as int));
        k += 1;
    }
    let ghost o1 = out@;
    let mut q: usize = 0;
    while q < frame_count
        invariant
            q <= loopbacks@.len(),
            frame_count == loopbacks@.len(),
            n == edges@.len(),
            frames_ok(loopbacks@),
            o1 == edge_pieces(edges@, loopbacks@, nodes@, n as int),
            out@ == o1 + orphan_loopbacks(edges@, loopbacks@, nodes@, q as int),
        decreases frame_count - q,
    {
        if !block_started_exec(edges, loopbacks, nodes, loopbacks[q].0, n) {
            push_loopbacks(&mut out, loopbacks, q);
        }
        q += 1;
        assert(out@ =~= o1 + orphan_loopbacks(edges@, loopbacks@, nodes@, q as int));
    }
    let ghost o2 = out@;
    let mut j: usize = 0;
    while j < n
        invariant
            j <= n == edges@.len(),
            frames_ok(loopbacks@),
            o2 == edge_pieces(edges@, loopbacks@, nodes@, n as int) + orphan_loopbacks(
                edges@,
                loopbacks@,
                nodes@,
                loopbacks@.len() as int,
            ),
            out@ == o2 + edge_slots(deferred_edges(edges@, loopbacks@, nodes@, j as int)),
        decreases n - j,
    {
        if is_deferred_exec(&edges[j], loopbacks, nodes) {
            out.push(EdgeSlot::Edge(j));
        }
        j += 1;
        assert(out@ =~= o2 + edge_slots(deferred_edges(edges@, loopbacks@, nodes@, j as int)));
    }
    proof {
        if loopbacks@.len() == 0 {
            assert(loopbacks@ =~= Seq::<RepeatFrame>::empty());
            lemma_no_frames_identity(edges@, nodes@, n as int);
            assert(orphan_loopbacks(edges@, loopbacks@, nodes@, 0) =~= Seq::<EdgeSlot>::empty());
            assert(out@ =~= Seq::new(edges@.len(), |j: int| EdgeSlot::Edge(j as usize)));
        }
    }
    out
}

/// Two sequences without duplicates and without common elements concatenate
/// to a sequence without duplicates, holding what either holds.
proof fn lemma_concat_distinct<A>(a: Seq<A>, b: Seq<A>)
    requires
        a.no_duplicates(),
        b.no_duplicates(),
        forall|x: A| a.contains(x) ==> !b.contains(x),
    ensures
        (a + b).no_duplicates(),
        forall|x: A| #[trigger] (a + b).contains(x) <==> a.contains(x) || b.contains(x),
{
    broadcast use vstd::seq_lib::lemma_seq_concat_contains_all_elements;

    assert forall|i: int, j: int| 0 <= i < a.len() && 0 <= j < b.len() implies a[i] != b[j] by {
        assert(a.contains(a[i]));
        assert(b.contains(b[j]));
    }
    vstd::seq_lib::lemma_no_dup_in_concat(a, b);
}

proof fn lemma_edge_slots_props(xs: Seq<usize>)
    ensures
        edge_slots(xs).len() == xs.len(),
        forall|i: int| 0 <= i < xs.len() ==> #[trigger] edge_slots(xs)[i] == EdgeSlot::Edge(xs[i]),
        forall|x: EdgeSlot| #[trigger] edge_slots(xs).contains(x) <==> (x matches EdgeSlot::Edge(j) && xs.contains(j)),
        xs.no_duplicates() ==> edge_slots(xs).no_duplicates(),
{
    let s = edge_slots(xs);
    assert forall|x: EdgeSlot| #[trigger] s.contains(x) <==> (x matches EdgeSlot::Edge(j) && xs.contains(j)) by {
        if s.contains(x) {
            let i = choose|i: int| 0 <= i < s.len() && s[i] == x;
            assert(xs[i] == x->Edge_0);
        }
        if let EdgeSlot::Edge(j) = x {
            if xs.contains(j) {
                let i = choose|i: int| 0 <= i < xs.len() && xs[i] == j;
                assert(s[i] == x);
            }
        }
    }
}

proof fn lemma_loopback_slots_props(frames: Seq<RepeatFrame>, q: int)
    requires
        0 <= q < frames.len(),
        frames.len() <= usize::MAX,
    ensures
        loopback_slots(frames, q).no_duplicates(),
        forall|x: EdgeSlot| #[trigger] loopback_slots(frames, q).contains(x) <==> (x matches EdgeSlot::Loopback {
            frame,
            k,
        } && frame == q && k < frames[q].2),
{
    let s = loopback_slots(frames, q);
    assert forall|x: EdgeSlot| #[trigger] s.contains(x) <==> (x matches EdgeSlot::Loopback { frame, k }
        && frame == q && k < frames[q].2) by {
        if s.contains(x) {
            let i = choose|i: int| 0 <= i < s.len() && s[i] == x;
            assert(s[i] == EdgeSlot::Loopback { frame: q as usize, k: i as usize });
        }
        if let EdgeSlot::Loopback { frame, k } = x {
            if frame == q && k < frames[q].2 {
                assert(s[k as int] == x);
            }
        }
    }
}

/// The members of a block with a role: exactly its edges with that role.
proof fn lemma_block_members(
    edges: Seq<EdgeInfo>,
    frames: Seq<RepeatFrame>,
    nodes: Seq<ActivityNodeTag>,
    d: usize,
    r: int,
    k: int,
)
    requires
        edges.len() <= usize::MAX,
        frames.len() <= usize::MAX,
        0 <= k <= edges.len(),
    ensures
        block_members(edges, frames, nodes, d, r, k).no_duplicates(),
        forall|j: usize| #[trigger] block_members(edges, frames, nodes, d, r, k).contains(j) <==> (j < k
            && in_block(edges, frames, nodes, j as int, d) && edge_role(edges[j as int], frames, nodes, d) == r),
    decreases k,
{
    if k > 0 {
        lemma_block_members(edges, frames, nodes, d, r, k - 1);
        let p = block_members(edges, frames, nodes, d, r, k - 1);
        if in_block(edges, frames, nodes, k - 1, d) && edge_role(edges[k - 1], frames, nodes, d) == r {
            let one = seq![(k - 1) as usize];
            assert forall|j: usize| #[trigger] one.contains(j) <==> j == (k - 1) as usize by {
                if one.contains(j) {
                    let i = choose|i: int| 0 <= i < one.len() && one[i] == j;
                }
                if j == (k - 1) as usize {
                    assert(one[0] == j);
                }
            }
            lemma_concat_distinct(p, one);
            assert(p.push((k - 1) as usize) =~= p + one);
        }
    }
}

/// The loop-back slots of the frames with diamond `d`.
proof fn lemma_frame_loopbacks(frames: Seq<RepeatFrame>, d: usize, k: int)
    requires
        0 <= k <= frames.len(),
        frames.len() <= usize::MAX,
    ensures
        frame_loopbacks(frames, d, k).no_duplicates(),
        forall|x: EdgeSlot| #[trigger] frame_loopbacks(frames, d, k).contains(x) <==> (x matches EdgeSlot::Loopback {
            frame,
            k: m,
        } && frame < k && frames[frame as int].0 == d && m < frames[frame as int].2),
    decreases k,
{
    if k > 0 {
        lemma_frame_loopbacks(frames, d, k - 1);
        if frames[k - 1].0 == d {
            let p = frame_loopbacks(frames, d, k - 1);
            let l = loopback_slots(frames, k - 1);
            lemma_loopback_slots_props(frames, k - 1);
            lemma_concat_distinct(p, l);
        }
    }
}

/// A block holds exactly its edges and the loop-back edges of its frames.
proof fn lemma_block_slots(edges: Seq<EdgeInfo>, frames: Seq<RepeatFrame>, nodes: Seq<ActivityNodeTag>, d: usize)
    requires
        edges.len() <= usize::MAX,
        frames.len() <= usize::MAX,
    ensures
        block_slots(edges, frames, nodes, d).no_duplicates(),
        forall|x: EdgeSlot| #[trigger] block_slots(edges, frames, nodes, d).contains(x) <==> match x {
            EdgeSlot::Edge(j) => j < edges.len() && in_block(edges, frames, nodes, j as int, d),
            EdgeSlot::Loopback { frame, k } => frame < frames.len() && frames[frame as int].0 == d && k
                < frames[frame as int].2,
        },
{
    let n = edges.len() as int;
    let m0 = block_members(edges, frames, nodes, d, 0, n);
    let m1 = block_members(edges, frames, nodes, d, 1, n);
    let m2 = block_members(edges, frames, nodes, d, 2, n);
    let m3 = block_members(edges, frames, nodes, d, 3, n);
    lemma_block_members(edges, frames, nodes, d, 0, n);
    lemma_block_members(edges, frames, nodes, d, 1, n);
    lemma_block_members(edges, frames, nodes, d, 2, n);
    lemma_block_members(edges, frames, nodes, d, 3, n);
    lemma_edge_slots_props(m0);
    lemma_edge_slots_props(m1);
    lemma_edge_slots_props(m2);
    lemma_edge_slots_props(m3);
    let lb = frame_loopbacks(frames, d, frames.len() as int);
    lemma_frame_loopbacks(frames, d, frames.len() as int);
    let (s0, s1, s3, s4) = (edge_slots(m0), edge_slots(m1), edge_slots(m2), edge_slots(m3));
    lemma_concat_distinct(s0, s1);
    lemma_concat_distinct(s0 + s1, lb);
    lemma_concat_distinct(s0 + s1 + lb, s3);
    lemma_concat_distinct(s0 + s1 + lb + s3, s4);
}

/// The pieces of the first `k` edges hold the in-place edges before `k` and
/// the blocks started before `k`, each once.
proof fn lemma_edge_pieces(edges: Seq<EdgeInfo>, frames: Seq<RepeatFrame>, nodes: Seq<ActivityNodeTag>, k: int)
    requires
        edges.len() <= usize::MAX,
        frames.len() <= usize::MAX,
        0 <= k <= edges.len(),
    ensures
        edge_pieces(edges, frames, nodes, k).no_duplicates(),
        forall|x: EdgeSlot| #[trigger] edge_pieces(edges, frames, nodes, k).contains(x) <==> match x {
            EdgeSlot::Edge(j) => j < edges.len() && !is_deferred(edges[j as int], frames, nodes) && match block_of(
                edges[j as int],
                frames,
                nodes,
            ) {
                None => j < k,
                Some(d) => block_started(edges, frames, nodes, d, k),
            },
            EdgeSlot::Loopback { frame, k: m } => frame < frames.len() && m < frames[frame as int].2
                && block_started(edges, frames, nodes, frames[frame as int].0, k),
        },
    decreases k,
{
    if k > 0 {
        lemma_edge_pieces(edges, frames, nodes, k - 1);
        let p = edge_pieces(edges, frames, nodes, k - 1);
        let c = edge_piece(edges, frames, nodes, k - 1);
        let e = edges[k - 1];
        // a block is started before `k` iff it was before `k - 1` or edge `k - 1` is in it
        assert forall|d: usize| #[trigger] block_started(edges, frames, nodes, d, k) == (block_started(
            edges,
            frames,
            nodes,
            d,
            k - 1,
        ) || in_block(edges, frames, nodes, k - 1, d)) by {
            if block_started(edges, frames, nodes, d, k) && !in_block(edges, frames, nodes, k - 1, d) {
                let j = choose|j: int| 0 <= j < k && #[trigger] in_block(edges, frames, nodes, j, d);
                assert(j < k - 1);
            }
            if block_started(edges, frames, nodes, d, k - 1) {
                let j = choose|j: int| 0 <= j < k - 1 && #[trigger] in_block(edges, frames, nodes, j, d);
            }
        }
        if is_deferred(e, frames, nodes) {
            assert(c =~= Seq::<EdgeSlot>::empty());
            assert(p + c =~= p);
        } else {
            match block_of(e, frames, nodes) {
                None => {
                    assert forall|x: EdgeSlot| p.contains(x) ==> !c.contains(x) by {
                        if c.contains(x) {
                            assert(c[0] == x);
                        }
                    }
                    assert forall|x: EdgeSlot| #[trigger] c.contains(x) <==> x == EdgeSlot::Edge((k - 1) as usize) by {
                        if c.contains(x) {
                            let i = choose|i: int| 0 <= i < c.len() && c[i] == x;
                        }
                        if x == EdgeSlot::Edge((k - 1) as usize) {
                            assert(c[0] == x);
                        }
                    }
                    lemma_concat_distinct(p, c);
                },
                Some(d) => {
                    if block_started(edges, frames, nodes, d, k - 1) {
                        assert(c =~= Seq::<EdgeSlot>::empty());
                        assert(p + c =~= p);
                    } else {
                        lemma_block_slots(edges, frames, nodes, d);
                        lemma_concat_distinct(p, c);
                    }
                },
            }
        }
    }
}

/// The loop-backs of frames without edges.
proof fn lemma_orphan_loopbacks(edges: Seq<EdgeInfo>, frames: Seq<RepeatFrame>, nodes: Seq<ActivityNodeTag>, k: int)
    requires
        edges.len() <= usize::MAX,
        frames.len() <= usize::MAX,
        0 <= k <= frames.len(),
    ensures
        orphan_loopbacks(edges, frames, nodes, k).no_duplicates(),
        forall|x: EdgeSlot| #[trigger] orphan_loopbacks(edges, frames, nodes, k).contains(x) <==> (
        x matches EdgeSlot::Loopback { frame, k: m } && frame < k && m < frames[frame as int].2
            && !block_started(edges, frames, nodes, frames[frame as int].0, edges.len() as int)),
    decreases k,
{
    if k > 0 {
        lemma_orphan_loopbacks(edges, frames, nodes, k - 1);
        if !block_started(edges, frames, nodes, frames[k - 1].0, edges.len() as int) {
            lemma_loopback_slots_props(frames, k - 1);
            lemma_concat_distinct(orphan_loopbacks(edges, frames, nodes, k - 1), loopback_slots(frames, k - 1));
        }
    }
}

/// The deferred edges, each once.
proof fn lemma_deferred_edges(edges: Seq<EdgeInfo>, frames: Seq<RepeatFrame>, nodes: Seq<ActivityNodeTag>, k: int)
    requires
        edges.len() <= usize::MAX,
        frames.len() <= usize::MAX,
        0 <= k <= edges.len(),
    ensures
        deferred_edges(edges, frames, nodes, k).no_duplicates(),
        forall|j: usize| #[trigger] deferred_edges(edges, frames, nodes, k).contains(j) <==> (j < k
            && is_deferred(edges[j as int], frames, nodes)),
    decreases k,
{
    if k > 0 {
        lemma_deferred_edges(edges, frames, nodes, k - 1);
        let p = deferred_edges(edges, frames, nodes, k - 1);
        if is_deferred(edges[k - 1], frames, nodes) {
            let one = seq![(k - 1) as usize];
            assert forall|j: usize| #[trigger] one.contains(j) <==> j == (k - 1) as usize by {
                if one.contains(j) {
                    let i = choose|i: int| 0 <= i < one.len() && one[i] == j;
                }
                if j == (k - 1) as usize {
                    assert(one[0] == j);
                }
            }
            lemma_concat_distinct(p, one);
            assert(p.push((k - 1) as usize) =~= p + one);
        }
    }
}

/// Every edge and every loop-back edge is drawn exactly once: the reordered
/// edges are a permutation of the edges and the loop-back edges.
pub proof fn lemma_edge_order_is_permutation(
    edges: Seq<EdgeInfo>,
    frames: Seq<RepeatFrame>,
    nodes: Seq<ActivityNodeTag>,
)
    requires
        edges.len() <= usize::MAX,
        frames.len() <= usize::MAX,
    ensures
        edge_order_spec(edges, frames, nodes).no_duplicates(),
        forall|x: EdgeSlot| #[trigger] edge_order_spec(edges, frames, nodes).contains(x) <==> match x {
            EdgeSlot::Edge(j) => j < edges.len(),
            EdgeSlot::Loopback { frame, k } => frame < frames.len() && k < frames[frame as int].2,
        },
{
    let n = edges.len() as int;
    let p = edge_pieces(edges, frames, nodes, n);
    let o = orphan_loopbacks(edges, frames, nodes, frames.len() as int);
    let dl = deferred_edges(edges, frames, nodes, n);
    lemma_edge_pieces(edges, frames, nodes, n);
    lemma_orphan_loopbacks(edges, frames, nodes, frames.len() as int);
    lemma_deferred_edges(edges, frames, nodes, n);
    lemma_edge_slots_props(dl);
    let ds = edge_slots(dl);
    lemma_concat_distinct(p, o);
    lemma_concat_distinct(p + o, ds);
    assert forall|x: EdgeSlot| #[trigger] (p + o + ds).contains(x) <==> match x {
        EdgeSlot::Edge(j) => j < edges.len(),
        EdgeSlot::Loopback { frame, k } => frame < frames.len() && k < frames[frame as int].2,
    } by {
        if let EdgeSlot::Edge(j) = x {
            if j < edges.len() && !is_deferred(edges[j as int], frames, nodes) {
                if let Some(d) = block_of(edges[j as int], frames, nodes) {
                    assert(in_block(edges, frames, nodes, j as int, d));
                    assert(block_started(edges, frames, nodes, d, n));
                }
            }
        }
    }
}

proof fn lemma_edge_pieces_prefix(edges: Seq<EdgeInfo>, frames: Seq<RepeatFrame>, nodes: Seq<ActivityNodeTag>, k: int, m: int)
    requires
        0 <= k <= m <= edges.len(),
    ensures
        edge_pieces(edges, frames, nodes, k).len() <= edge_pieces(edges, frames, nodes, m).len(),
        forall|p: int| 0 <= p < edge_pieces(edges, frames, nodes, k).len() ==> #[trigger] edge_pieces(edges, frames, nodes, m)[p]
            == edge_pieces(edges, frames, nodes, k)[p],
    decreases m - k,
{
    if k < m {
        lemma_edge_pieces_prefix(edges, frames, nodes, k, m - 1);
        let a = edge_pieces(edges, frames, nodes, m - 1);
        let c = edge_piece(edges, frames, nodes, m - 1);
        assert forall|p: int| 0 <= p < a.len() implies #[trigger] (a + c)[p] == a[p] by {}
    }
}

/// Edges tied to no repeat block keep their relative order: of two such
/// edges, the earlier one is drawn first.
pub proof fn lemma_edge_order_keeps_free_edges(
    edges: Seq<EdgeInfo>,
    frames: Seq<RepeatFrame>,
    nodes: Seq<ActivityNodeTag>,
    j1: int,
    j2: int,
)
    requires
        edges.len() <= usize::MAX,
        0 <= j1 < j2 < edges.len(),
        !is_deferred(edges[j1], frames, nodes) && block_of(edges[j1], frames, nodes) is None,
        !is_deferred(edges[j2], frames, nodes) && block_of(edges[j2], frames, nodes) is None,
    ensures
        exists|p1: int, p2: int|
            0 <= p1 < p2 < edge_order_spec(edges, frames, nodes).len()
                && edge_order_spec(edges, frames, nodes)[p1] == EdgeSlot::Edge(j1 as usize)
                && edge_order_spec(edges, frames, nodes)[p2] == EdgeSlot::Edge(j2 as usize),
{
    let n = edges.len() as int;
    let r = edge_order_spec(edges, frames, nodes);
    let full = edge_pieces(edges, frames, nodes, n);
    let tail = orphan_loopbacks(edges, frames, nodes, frames.len() as int) + edge_slots(
        deferred_edges(edges, frames, nodes, n),
    );
    assert(r == full + tail);
    let a1 = edge_pieces(edges, frames, nodes, j1);
    let a2 = edge_pieces(edges, frames, nodes, j2);
    let p1 = a1.len() as int;
    let p2 = a2.len() as int;
    lemma_edge_pieces_prefix(edges, frames, nodes, j1 + 1, j2);
    lemma_edge_pieces_prefix(edges, frames, nodes, j1 + 1, n);
    lemma_edge_pieces_prefix(edges, frames, nodes, j2 + 1, n);
    assert(edge_piece(edges, frames, nodes, j1) == seq![EdgeSlot::Edge(j1 as usize)]);
    assert(edge_piece(edges, frames, nodes, j2) == seq![EdgeSlot::Edge(j2 as usize)]);
    let b1 = edge_pieces(edges, frames, nodes, j1 + 1);
    let b2 = edge_pieces(edges, frames, nodes, j2 + 1);
    assert(b1 == a1 + seq![EdgeSlot::Edge(j1 as usize)]);
    assert(b2 == a2 + seq![EdgeSlot::Edge(j2 as usize)]);
    assert(b1[p1] == EdgeSlot::Edge(j1 as usize));
    assert(b2[p2] == EdgeSlot::Edge(j2 as usize));
    assert(full[p1] == b1[p1]);
    assert(full[p2] == b2[p2]);
    assert(r[p1] == full[p1]);
    assert(r[p2] == full[p2]);
}

proof fn lemma_no_frames_identity(edges: Seq<EdgeInfo>, nodes: Seq<ActivityNodeTag>, k: int)
    requires
        0 <= k <= edges.len(),
    ensures
        edge_pieces(edges, Seq::empty(), nodes, k) == Seq::new(k as nat, |j: int| EdgeSlot::Edge(j as usize)),
        edge_slots(deferred_edges(edges, Seq::empty(), nodes, k)) == Seq::<EdgeSlot>::empty(),
    decreases k,
{
    if k > 0 {
        lemma_no_frames_identity(edges, nodes, k - 1);
        let fs = Seq::<RepeatFrame>::empty();
        assert(!is_deferred(edges[k - 1], fs, nodes));
        assert(owner_of(edges[k - 1], fs) is None);
        assert(block_of(edges[k - 1], fs, nodes) is None);
        assert(edge_pieces(edges, fs, nodes, k) =~= Seq::new(k as nat, |j: int| EdgeSlot::Edge(j as usize)));
    }
    assert(edge_slots(deferred_edges(edges, Seq::empty(), nodes, k)) =~= Seq::<EdgeSlot>::empty());
}

} // verus!

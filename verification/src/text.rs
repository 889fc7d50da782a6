//! Character-level helpers for names and labels: identifier sanitising,
//! display-name extraction and the splitting of names into display lines.

use vstd::prelude::*;

verus! {

broadcast use vstd::string::group_string_axioms;

/// Private-use placeholder that the parser substitutes for `%newline()`.
pub const NEWLINE_CHAR: char = '\u{E100}';

/// `String::push` (std): appends the character `ch` at the end of the string
/// and changes nothing else.  Trusted: vstd gives this std method no
/// specification, and its documentation states exactly this.
pub assume_specification[ String::push ](s: &mut String, ch: char)
    ensures
        final(s)@ == old(s)@.push(ch),
;

/// The characters of `s`, in order.
pub(crate) fn chars_of(s: &str) -> (v: Vec<char>)
    ensures
        v@ == s@,
{
    let mut v: Vec<char> = Vec::new();
    for c in it: s.chars()
        invariant
            v@ == it.seq().take(it.index() as int),
            it.seq() == s@,
    {
        v.push(c);
    }
    v
}

/// Appends the characters `v[from..to]` to `out`.
pub(crate) fn push_range(out: &mut String, v: &Vec<char>, from: usize, to: usize)
    requires
        from <= to <= v.len(),
    ensures
        final(out)@ == old(out)@ + v@.subrange(from as int, to as int),
{
    let mut i = from;
    while i < to
        invariant
            from <= i <= to <= v.len(),
            out@ == old(out)@ + v@.subrange(from as int, i as int),
        decreases to - i,
    {
        out.push(v[i]);
        i += 1;
        assert(out@ =~= old(out)@ + v@.subrange(from as int, i as int));
    }
}

/// A string holding the characters `v`.
pub(crate) fn string_of(v: &Vec<char>) -> (s: String)
    ensures
        s@ == v@,
{
    let mut s = String::new();
    push_range(&mut s, v, 0, v.len());
    assert(v@.subrange(0, v.len() as int) =~= v@);
    s
}

/// Whether two strings hold the same characters.
pub(crate) fn str_eq(a: &str, b: &str) -> (r: bool)
    ensures
        r == (a@ == b@),
{
    let av = chars_of(a);
    let bv = chars_of(b);
    if av.len() != bv.len() {
        return false;
    }
    let mut i: usize = 0;
    while i < av.len()
        invariant
            av.len() == bv.len(),
            av@ == a@,
            bv@ == b@,
            i <= av.len(),
            forall|k: int| 0 <= k < i ==> av@[k] == bv@[k],
        decreases av.len() - i,
    {
        if av[i] != bv[i] {
            assert(av@[i as int] != bv@[i as int]);
            return false;
        }
        i += 1;
    }
    assert(av@ =~= bv@);
    true
}

// ---------------------------------------------------------------------------
// Identifier sanitising
// ---------------------------------------------------------------------------

/// The replacement text of one character in a DOT-safe identifier.
pub open spec fn sanitize_piece(c: char) -> Seq<char> {
    if c == '<' {
        seq!['_', 'L', 'T', '_']
    } else if c == '>' {
        seq!['_', 'G', 'T', '_']
    } else if c == ',' {
        seq!['_', 'C', 'O', 'M', 'M', 'A', '_']
    } else if c == '.' {
        seq!['_', 'D', 'O', 'T', '_']
    } else if c == ' ' {
        seq!['_']
    } else {
        seq![c]
    }
}

/// `s` with every character replaced by its `sanitize_piece`.
pub open spec fn sanitize_spec(s: Seq<char>) -> Seq<char>
    decreases s.len(),
{
    if s.len() == 0 {
        Seq::empty()
    } else {
        sanitize_spec(s.drop_last()) + sanitize_piece(s.last())
    }
}

fn push_sanitized(out: &mut String, c: char)
    ensures
        final(out)@ == old(out)@ + sanitize_piece(c),
{
    if c == '<' {
        out.push('_');
        out.push('L');
        out.push('T');
        out.push('_');
    } else if c == '>' {
        out.push('_');
        out.push('G');
        out.push('T');
        out.push('_');
    } else if c == ',' {
        out.push('_');
        out.push('C');
        out.push('O');
        out.push('M');
        out.push('M');
        out.push('A');
        out.push('_');
    } else if c == '.' {
        out.push('_');
        out.push('D');
        out.push('O');
        out.push('T');
        out.push('_');
    } else {
        out.push(if c == ' ' { '_' } else { c });
    }
    assert(out@ =~= old(out)@ + sanitize_piece(c));
}

/// Replaces the characters that DOT does not accept in identifiers:
/// `<` → `_LT_`, `>` → `_GT_`, `,` → `_COMMA_`, `.` → `_DOT_`, space → `_`.
pub fn sanitize_id(name: &str) -> (r: String)
    ensures
        r@ == sanitize_spec(name@),
{
    let v = chars_of(name);
    let mut out = String::new();
    let mut i: usize = 0;
    while i < v.len()
        invariant
            i <= v.len(),
            v@ == name@,
            out@ == sanitize_spec(v@.take(i as int)),
        decreases v.len() - i,
    {
        push_sanitized(&mut out, v[i]);
        assert(v@.take(i + 1).drop_last() =~= v@.take(i as int));
        i += 1;
    }
    assert(v@.take(v.len() as int) =~= v@);
    out
}

/// The DOT identifier of a group cluster: `grp_` followed by the sanitised name.
pub fn cluster_id(name: &str) -> (r: String)
    ensures
        r@ == seq!['g', 'r', 'p', '_'] + sanitize_spec(name@),
{
    let mut out = String::new();
    out.push('g');
    out.push('r');
    out.push('p');
    out.push('_');
    let v = chars_of(name);
    let mut i: usize = 0;
    while i < v.len()
        invariant
            i <= v.len(),
            v@ == name@,
            out@ == seq!['g', 'r', 'p', '_'] + sanitize_spec(v@.take(i as int)),
        decreases v.len() - i,
    {
        push_sanitized(&mut out, v[i]);
        assert(v@.take(i + 1).drop_last() =~= v@.take(i as int));
        i += 1;
    }
    assert(v@.take(v.len() as int) =~= v@);
    out
}

// ---------------------------------------------------------------------------
// Display names
// ---------------------------------------------------------------------------

/// A line break of a name starts at `i`: the escape `\r` or `\n`, the
/// placeholder `NEWLINE_CHAR`, or a real carriage return or line feed.
pub open spec fn is_break_at(s: Seq<char>, i: int) -> bool {
    &&& 0 <= i < s.len()
    &&& {
        ||| (s[i] == '\\' && i + 1 < s.len() && (s[i + 1] == 'r' || s[i + 1] == 'n'))
        ||| s[i] == NEWLINE_CHAR
        ||| s[i] == '\r'
        ||| s[i] == '\n'
    }
}

/// The position of the first line break at or after `i`, or `s.len()`.
pub open spec fn first_break_from(s: Seq<char>, i: int) -> int
    decreases s.len() - i,
{
    if i >= s.len() {
        s.len() as int
    } else if is_break_at(s, i) {
        i
    } else {
        first_break_from(s, i + 1)
    }
}

/// The start of the segment of `s[0..b]` that follows its last `.`
/// (0 when there is none).
pub open spec fn after_last_dot(s: Seq<char>, b: int) -> int
    decreases b,
{
    if b <= 0 {
        0
    } else if s[b - 1] == '.' {
        b
    } else {
        after_last_dot(s, b - 1)
    }
}

/// The display name of a qualified class name: the first line loses its
/// package prefix (everything up to its last `.`); the rest is kept.
pub open spec fn class_display_name_spec(s: Seq<char>) -> Seq<char> {
    s.subrange(after_last_dot(s, first_break_from(s, 0)), s.len() as int)
}

proof fn lemma_after_last_dot_bounds(s: Seq<char>, b: int)
    requires
        0 <= b <= s.len(),
    ensures
        0 <= after_last_dot(s, b) <= b,
    decreases b,
{
    if b > 0 && s[b - 1] != '.' {
        lemma_after_last_dot_bounds(s, b - 1);
    }
}

/// Finds `after_last_dot(v, b)`.
fn find_after_last_dot(v: &Vec<char>, b: usize) -> (k: usize)
    requires
        b <= v.len(),
    ensures
        k == after_last_dot(v@, b as int),
        k <= b,
{
    let mut j = b;
    while j > 0 && v[j - 1] != '.'
        invariant
            j <= b <= v.len(),
            after_last_dot(v@, j as int) == after_last_dot(v@, b as int),
        decreases j,
    {
        j -= 1;
    }
    proof {
        lemma_after_last_dot_bounds(v@, b as int);
    }
    j
}

/// Converts a qualified entity name to the name shown in a class box:
/// `pkg1.pkg2.Class` becomes `Class`; text after the first line break is kept.
pub fn class_entity_display_name(name: &str) -> (r: String)
    ensures
        r@ == class_display_name_spec(name@),
{
    let v = chars_of(name);
    let mut b: usize = 0;
    let mut found = false;
    while !found && b < v.len()
        invariant
            b <= v.len(),
            v@ == name@,
            first_break_from(v@, b as int) == first_break_from(v@, 0),
            found ==> is_break_at(v@, b as int),
        decreases v.len() - b + (if found { 0int } else { 1int }),
    {
        let brk = if v[b] == '\\' {
            b + 1 < v.len() && (v[b + 1] == 'r' || v[b + 1] == 'n')
        } else {
            v[b] == NEWLINE_CHAR || v[b] == '\r' || v[b] == '\n'
        };
        if brk {
            found = true;
        } else {
            b += 1;
        }
    }
    assert(first_break_from(v@, 0) == b);
    let k = find_after_last_dot(&v, b);
    let mut out = String::new();
    push_range(&mut out, &v, k, v.len());
    assert(out@ =~= class_display_name_spec(name@));
    out
}

/// The title of a package group: the part of its name after the last `.`.
pub fn group_display_name(name: &str) -> (r: String)
    ensures
        r@ == name@.subrange(after_last_dot(name@, name@.len() as int), name@.len() as int),
{
    let v = chars_of(name);
    let k = find_after_last_dot(&v, v.len());
    let mut out = String::new();
    push_range(&mut out, &v, k, v.len());
    assert(out@ =~= name@.subrange(after_last_dot(name@, name@.len() as int), name@.len() as int));
    out
}


// ---------------------------------------------------------------------------
// Display lines of a name
// ---------------------------------------------------------------------------

/// Horizontal alignment selected by the `\l` / `\r` escapes of a display.
#[derive(Debug, Clone, Copy, PartialEq, Eq, Structural)]
pub enum DisplayAlignment {
    Left,
    Center,
    Right,
}

/// One display line: its text without leading tabs, and how many tabs it had.
#[derive(Debug, Clone, PartialEq, Eq)]
pub struct DisplayLine {
    pub text: String,
    pub leading_tabs: usize,
}

/// A name split into display lines, with the alignment its escapes chose.
#[derive(Debug, Clone, PartialEq, Eq)]
pub struct DisplayBlock {
    pub alignment: DisplayAlignment,
    pub lines: Vec<DisplayLine>,
}

/// Scans `s` from position `i` with the lines finished so far, the line being
/// built and the current alignment; returns all lines and the final alignment.
///
/// `\r`, `\l` and `\n` end a line (the first two also set the alignment),
/// `\t` and `\\` stand for a tab and a backslash, and a real carriage return,
/// line feed or `NEWLINE_CHAR` ends a line.  Everything else is kept.
pub open spec fn split_scan(
    s: Seq<char>,
    i: int,
    lines: Seq<Seq<char>>,
    cur: Seq<char>,
    align: DisplayAlignment,
) -> (Seq<Seq<char>>, DisplayAlignment)
    decreases s.len() - i,
{
    if i < 0 || i >= s.len() {
        (lines.push(cur), align)
    } else if s[i] == '\\' && i + 1 < s.len() && s[i + 1] == 'r' {
        split_scan(s, i + 2, lines.push(cur), Seq::empty(), DisplayAlignment::Right)
    } else if s[i] == '\\' && i + 1 < s.len() && s[i + 1] == 'l' {
        split_scan(s, i + 2, lines.push(cur), Seq::empty(), DisplayAlignment::Left)
    } else if s[i] == '\\' && i + 1 < s.len() && s[i + 1] == 'n' {
        split_scan(s, i + 2, lines.push(cur), Seq::empty(), align)
    } else if s[i] == '\\' && i + 1 < s.len() && s[i + 1] == 't' {
        split_scan(s, i + 2, lines, cur.push('\t'), align)
    } else if s[i] == '\\' && i + 1 < s.len() && s[i + 1] == '\\' {
        split_scan(s, i + 2, lines, cur.push('\\'), align)
    } else if s[i] == '\r' || s[i] == '\n' || s[i] == NEWLINE_CHAR {
        split_scan(s, i + 1, lines.push(cur), Seq::empty(), align)
    } else {
        split_scan(s, i + 1, lines, cur.push(s[i]), align)
    }
}

/// The raw lines and the alignment of a display name.
pub open spec fn split_name_spec(s: Seq<char>) -> (Seq<Seq<char>>, DisplayAlignment) {
    split_scan(s, 0, Seq::empty(), Seq::empty(), DisplayAlignment::Center)
}

/// The position of the first non-tab character of `s` at or after `j`.
pub open spec fn tab_prefix_end(s: Seq<char>, j: int) -> int
    decreases s.len() - j,
{
    if 0 <= j < s.len() && s[j] == '\t' {
        tab_prefix_end(s, j + 1)
    } else {
        j
    }
}

/// A raw line rendered as a `DisplayLine`: leading tabs counted and removed.
pub open spec fn display_line_matches(d: DisplayLine, raw: Seq<char>) -> bool {
    &&& d.leading_tabs == tab_prefix_end(raw, 0)
    &&& d.text@ == raw.skip(tab_prefix_end(raw, 0))
}

/// A scan never finishes with fewer lines than it started with, plus one.
pub proof fn lemma_split_scan_len(
    s: Seq<char>,
    i: int,
    lines: Seq<Seq<char>>,
    cur: Seq<char>,
    align: DisplayAlignment,
)
    ensures
        split_scan(s, i, lines, cur, align).0.len() > lines.len(),
    decreases s.len() - i,
{
    if i < 0 || i >= s.len() {
    } else if s[i] == '\\' && i + 1 < s.len() && (s[i + 1] == 'r' || s[i + 1] == 'l' || s[i + 1] == 'n') {
        lemma_split_scan_len(s, i + 2, lines.push(cur), Seq::empty(), if s[i + 1] == 'r' {
            DisplayAlignment::Right
        } else if s[i + 1] == 'l' {
            DisplayAlignment::Left
        } else {
            align
        });
    } else if s[i] == '\\' && i + 1 < s.len() && s[i + 1] == 't' {
        lemma_split_scan_len(s, i + 2, lines, cur.push('\t'), align);
    } else if s[i] == '\\' && i + 1 < s.len() && s[i + 1] == '\\' {
        lemma_split_scan_len(s, i + 2, lines, cur.push('\\'), align);
    } else if s[i] == '\r' || s[i] == '\n' || s[i] == NEWLINE_CHAR {
        lemma_split_scan_len(s, i + 1, lines.push(cur), Seq::empty(), align);
    } else {
        lemma_split_scan_len(s, i + 1, lines, cur.push(s[i]), align);
    }
}

/// Turns a raw line into a `DisplayLine`.
fn finish_line(cur: &Vec<char>) -> (d: DisplayLine)
    ensures
        display_line_matches(d, cur@),
{
    let mut j: usize = 0;
    while j < cur.len() && cur[j] == '\t'
        invariant
            j <= cur.len(),
            tab_prefix_end(cur@, j as int) == tab_prefix_end(cur@, 0),
        decreases cur.len() - j,
    {
        j += 1;
    }
    let mut text = String::new();
    push_range(&mut text, cur, j, cur.len());
    assert(text@ =~= cur@.skip(j as int));
    DisplayLine { text, leading_tabs: j }
}

/// Splits an entity name into display lines:
/// the escapes `\n`, `\r`, `\l` and real line breaks end a line (`\r` and
/// `\l` also select right or left alignment), `\t` and `\\` stand for a tab
/// and a backslash, and each line's leading tabs are counted separately.
#[verifier::rlimit(40)]
pub fn split_name_display(name: &str) -> (b: DisplayBlock)
    ensures
        b.alignment == split_name_spec(name@).1,
        b.lines@.len() == split_name_spec(name@).0.len(),
        forall|k: int|
            0 <= k < b.lines@.len() ==> display_line_matches(
                #[trigger] b.lines@[k],
                split_name_spec(name@).0[k],
            ),
{
    let chars = chars_of(name);
    let mut lines: Vec<DisplayLine> = Vec::new();
    let ghost mut glines: Seq<Seq<char>> = Seq::empty();
    let mut current: Vec<char> = Vec::new();
    let mut alignment = DisplayAlignment::Center;
    let mut i: usize = 0;
    while i < chars.len()
        invariant
            i <= chars.len(),
            chars@ == name@,
            lines@.len() == glines.len(),
            forall|k: int|
                0 <= k < lines@.len() ==> display_line_matches(#[trigger] lines@[k], glines[k]),
            split_scan(chars@, i as int, glines, current@, alignment) == split_name_spec(name@),
        decreases chars.len() - i,
    {
        let c = chars[i];
        let next = if i + 1 < chars.len() {
            chars[i + 1]
        } else {
            ' '
        };
        if c == '\\' && i + 1 < chars.len() && (next == 'r' || next == 'l' || next == 'n') {
            lines.push(finish_line(&current));
            proof {
                glines = glines.push(current@);
            }
            current = Vec::new();
            if next == 'r' {
                alignment = DisplayAlignment::Right;
            } else if next == 'l' {
                alignment = DisplayAlignment::Left;
            }
            i += 2;
        } else if c == '\\' && i + 1 < chars.len() && (next == 't' || next == '\\') {
            current.push(if next == 't' {
                '\t'
            } else {
                '\\'
            });
            i += 2;
        } else if c == '\r' || c == '\n' || c == NEWLINE_CHAR {
            lines.push(finish_line(&current));
            proof {
                glines = glines.push(current@);
            }
            current = Vec::new();
            i += 1;
        } else {
            current.push(c);
            i += 1;
        }
    }
    lines.push(finish_line(&current));
    proof {
        glines = glines.push(current@);
    }
    DisplayBlock { alignment, lines }
}

/// The texts of the display lines of a name.  (The split always yields at
/// least one line, so the name itself is never the fallback.)
pub fn split_name_display_lines(name: &str) -> (r: Vec<String>)
    ensures
        r@.len() == split_name_spec(name@).0.len(),
        r@.len() >= 1,
        forall|k: int|
            0 <= k < r@.len() ==> (#[trigger] r@[k])@ == split_name_spec(name@).0[k].skip(
                tab_prefix_end(split_name_spec(name@).0[k], 0),
            ),
{
    let block = split_name_display(name);
    proof {
        lemma_split_scan_len(name@, 0, Seq::empty(), Seq::empty(), DisplayAlignment::Center);
    }
    let mut lines: Vec<String> = Vec::new();
    let mut k: usize = 0;
    while k < block.lines.len()
        invariant
            k <= block.lines@.len(),
            lines@.len() == k,
            forall|m: int| 0 <= m < k ==> (#[trigger] lines@[m])@ == block.lines@[m].text@,
        decreases block.lines.len() - k,
    {
        lines.push(block.lines[k].text.clone());
        k += 1;
    }
    if lines.len() == 0 {
        let mut only: Vec<String> = Vec::new();
        only.push(name.to_owned());
        only
    } else {
        lines
    }
}


// ---------------------------------------------------------------------------
// Line breaks in labels and member texts
// ---------------------------------------------------------------------------

/// Splits `s[i..]` into lines: the escape `\n` and `NEWLINE_CHAR` always end a
/// line, and so does a real line feed when `lf` holds.
pub open spec fn break_scan(s: Seq<char>, i: int, lf: bool, lines: Seq<Seq<char>>, cur: Seq<char>) -> Seq<
    Seq<char>,
>
    decreases s.len() - i,
{
    if i < 0 || i >= s.len() {
        lines.push(cur)
    } else if s[i] == '\\' && i + 1 < s.len() && s[i + 1] == 'n' {
        break_scan(s, i + 2, lf, lines.push(cur), Seq::empty())
    } else if s[i] == NEWLINE_CHAR || (lf && s[i] == '\n') {
        break_scan(s, i + 1, lf, lines.push(cur), Seq::empty())
    } else {
        break_scan(s, i + 1, lf, lines, cur.push(s[i]))
    }
}

/// The lines of `s`, split at `\n` escapes and `NEWLINE_CHAR` (and at real
/// line feeds when `lf` holds).
pub open spec fn break_split(s: Seq<char>, lf: bool) -> Seq<Seq<char>> {
    break_scan(s, 0, lf, Seq::empty(), Seq::empty())
}

/// The split always yields at least one line.
pub proof fn lemma_break_scan_len(s: Seq<char>, i: int, lf: bool, lines: Seq<Seq<char>>, cur: Seq<char>)
    ensures
        break_scan(s, i, lf, lines, cur).len() > lines.len(),
    decreases s.len() - i,
{
    if i < 0 || i >= s.len() {
    } else if s[i] == '\\' && i + 1 < s.len() && s[i + 1] == 'n' {
        lemma_break_scan_len(s, i + 2, lf, lines.push(cur), Seq::empty());
    } else if s[i] == NEWLINE_CHAR || (lf && s[i] == '\n') {
        lemma_break_scan_len(s, i + 1, lf, lines.push(cur), Seq::empty());
    } else {
        lemma_break_scan_len(s, i + 1, lf, lines, cur.push(s[i]));
    }
}

/// The lines of `text` (see `break_split`).
pub(crate) fn break_split_exec(text: &str, lf: bool) -> (r: Vec<String>)
    ensures
        r@.len() == break_split(text@, lf).len(),
        forall|k: int| 0 <= k < r@.len() ==> (#[trigger] r@[k])@ == break_split(text@, lf)[k],
{
    let v = chars_of(text);
    let mut lines: Vec<String> = Vec::new();
    let ghost mut glines: Seq<Seq<char>> = Seq::empty();
    let mut cur = String::new();
    let mut i: usize = 0;
    while i < v.len()
        invariant
            i <= v.len(),
            v@ == text@,
            lines@.len() == glines.len(),
            forall|k: int| 0 <= k < lines@.len() ==> (#[trigger] lines@[k])@ == glines[k],
            break_scan(v@, i as int, lf, glines, cur@) == break_split(text@, lf),
        decreases v.len() - i,
    {
        if v[i] == '\\' && i + 1 < v.len() && v[i + 1] == 'n' {
            proof {
                glines = glines.push(cur@);
            }
            lines.push(cur);
            cur = String::new();
            i += 2;
        } else if v[i] == NEWLINE_CHAR || (lf && v[i] == '\n') {
            proof {
                glines = glines.push(cur@);
            }
            lines.push(cur);
            cur = String::new();
            i += 1;
        } else {
            cur.push(v[i]);
            i += 1;
        }
    }
    proof {
        glines = glines.push(cur@);
    }
    lines.push(cur);
    lines
}

/// Splits a multi-line label into its lines: the escape `\n` and the
/// placeholder `NEWLINE_CHAR` both end a line, and a trailing separator
/// yields a trailing empty line (`"a\nb\n"` gives `a`, `b` and an empty line).
pub fn split_label_lines(text: &str) -> (r: Vec<String>)
    ensures
        r@.len() == break_split(text@, false).len(),
        r@.len() >= 1,
        forall|k: int| 0 <= k < r@.len() ==> (#[trigger] r@[k])@ == break_split(text@, false)[k],
{
    proof {
        lemma_break_scan_len(text@, 0, false, Seq::empty(), Seq::empty());
    }
    break_split_exec(text, false)
}

/// Whether `c` is white space in the sense of Unicode's `White_Space`
/// property (the test `char::is_whitespace` makes).
pub open spec fn is_white(c: char) -> bool {
    let x = c as u32;
    ||| 0x09 <= x <= 0x0D
    ||| x == 0x20
    ||| x == 0x85
    ||| x == 0xA0
    ||| x == 0x1680
    ||| 0x2000 <= x <= 0x200A
    ||| x == 0x2028
    ||| x == 0x2029
    ||| x == 0x202F
    ||| x == 0x205F
    ||| x == 0x3000
}

/// `char::is_whitespace`, stated by the code points of Unicode's `White_Space`.
pub fn is_white_exec(c: char) -> (r: bool)
    ensures
        r == is_white(c),
{
    let x = c as u32;
    (0x09 <= x && x <= 0x0D) || x == 0x20 || x == 0x85 || x == 0xA0 || x == 0x1680 || (0x2000
        <= x && x <= 0x200A) || x == 0x2028 || x == 0x2029 || x == 0x202F || x == 0x205F || x
        == 0x3000
}

/// The position of the first non-white character at or after `j`.
pub open spec fn white_prefix_end(s: Seq<char>, j: int) -> int
    decreases s.len() - j,
{
    if 0 <= j < s.len() && is_white(s[j]) {
        white_prefix_end(s, j + 1)
    } else {
        j
    }
}

/// The position just after the last non-white character before `j`.
pub open spec fn white_suffix_start(s: Seq<char>, j: int) -> int
    decreases j,
{
    if 0 < j <= s.len() && is_white(s[j - 1]) {
        white_suffix_start(s, j - 1)
    } else {
        j
    }
}

/// `s` without leading and trailing white space.
pub open spec fn trim_spec(s: Seq<char>) -> Seq<char> {
    let a = white_prefix_end(s, 0);
    let b = white_suffix_start(s, s.len() as int);
    if a < b {
        s.subrange(a, b)
    } else {
        Seq::empty()
    }
}

/// The white prefix from `j` ends at the first non-white character.
pub proof fn lemma_white_prefix_bounds(s: Seq<char>, j: int)
    requires
        0 <= j <= s.len(),
    ensures
        j <= white_prefix_end(s, j) <= s.len(),
        forall|k: int| j <= k < white_prefix_end(s, j) ==> is_white(#[trigger] s[k]),
        white_prefix_end(s, j) < s.len() ==> !is_white(s[white_prefix_end(s, j)]),
    decreases s.len() - j,
{
    if j < s.len() && is_white(s[j]) {
        lemma_white_prefix_bounds(s, j + 1);
    }
}

/// The white suffix before `j` starts after the last non-white character.
pub proof fn lemma_white_suffix_bounds(s: Seq<char>, j: int)
    requires
        0 <= j <= s.len(),
    ensures
        0 <= white_suffix_start(s, j) <= j,
        forall|k: int| white_suffix_start(s, j) <= k < j ==> is_white(#[trigger] s[k]),
        white_suffix_start(s, j) > 0 ==> !is_white(s[white_suffix_start(s, j) - 1]),
    decreases j,
{
    if 0 < j && is_white(s[j - 1]) {
        lemma_white_suffix_bounds(s, j - 1);
    }
}

/// A text with no white space at either end is its own trim.
pub proof fn lemma_trim_unpadded(s: Seq<char>)
    requires
        s.len() == 0 || (!is_white(s[0]) && !is_white(s[s.len() - 1])),
    ensures
        trim_spec(s) == s,
{
    if s.len() > 0 {
        assert(white_prefix_end(s, 0) == 0);
        assert(white_suffix_start(s, s.len() as int) == s.len());
        assert(s.subrange(0, s.len() as int) =~= s);
    } else {
        assert(trim_spec(s) =~= s);
    }
}

/// Trimming removes exactly the white space at both ends: the result is a
/// piece of the text with no white space at either end, preceded and followed
/// only by white space, and a text with none at its ends is its own trim.
pub proof fn lemma_trim_laws(s: Seq<char>)
    ensures
        trim_spec(s).len() > 0 ==> !is_white(trim_spec(s)[0]) && !is_white(
            trim_spec(s)[trim_spec(s).len() - 1],
        ),
        exists|a: int|
            #![trigger s.subrange(a, a + trim_spec(s).len())]
            0 <= a && a + trim_spec(s).len() <= s.len() && s.subrange(a, a + trim_spec(s).len())
                == trim_spec(s) && (forall|k: int| 0 <= k < a ==> is_white(#[trigger] s[k])) && (
            forall|k: int| a + trim_spec(s).len() <= k < s.len() ==> is_white(#[trigger] s[k])),
        (s.len() == 0 || (!is_white(s[0]) && !is_white(s[s.len() - 1]))) ==> trim_spec(s) == s,
        trim_spec(trim_spec(s)) == trim_spec(s),
{
    lemma_white_prefix_bounds(s, 0);
    lemma_white_suffix_bounds(s, s.len() as int);
    let a = white_prefix_end(s, 0);
    let b = white_suffix_start(s, s.len() as int);
    let t = trim_spec(s);
    if a < b {
        assert(t =~= s.subrange(a, b));
        assert(s.subrange(a, a + t.len()) =~= t);
        assert(t[0] == s[a]);
        assert(t[t.len() - 1] == s[b - 1]);
        assert forall|k: int| a + t.len() <= k < s.len() implies is_white(#[trigger] s[k]) by {}
        lemma_white_prefix_bounds(t, 0);
        lemma_white_suffix_bounds(t, t.len() as int);
        assert(white_prefix_end(t, 0) == 0);
        assert(white_suffix_start(t, t.len() as int) == t.len());
        assert(trim_spec(t) =~= t.subrange(0, t.len() as int));
        assert(t.subrange(0, t.len() as int) =~= t);
    } else {
        assert(t.len() == 0);
        assert(s.subrange(0, 0 + t.len() as int) =~= t);
        assert forall|k: int| 0 <= k < s.len() implies is_white(#[trigger] s[k]) by {
            if !(k < a) {
                assert(b <= k);
            }
        }
        assert(trim_spec(t) =~= t);
        if s.len() > 0 && !is_white(s[0]) {
            assert(false);
        }
    }
    if s.len() > 0 && !is_white(s[0]) && !is_white(s[s.len() - 1]) {
        assert(a == 0);
        assert(b == s.len());
        assert(s.subrange(0, s.len() as int) =~= s);
    }
    if s.len() == 0 {
        assert(t =~= s);
    }
}

/// The bounds `[a, b)` of `v[from..to]` without surrounding white space
/// (`a == b` when it is all white space).
#[verifier::rlimit(40)]
pub fn trim_bounds(v: &Vec<char>, from: usize, to: usize) -> (r: (usize, usize))
    requires
        from <= to <= v.len(),
    ensures
        r.0 <= r.1,
        v@.subrange(r.0 as int, r.1 as int) == trim_spec(v@.subrange(from as int, to as int)),
        v@.subrange(from as int, r.0 as int) + v@.subrange(r.0 as int, to as int) == v@.subrange(
            from as int,
            to as int,
        ),
        from <= r.0 <= r.1 <= to,
        r.0 - from == white_prefix_end(v@.subrange(from as int, to as int), 0) || r.0 == r.1,
{
    let ghost s = v@.subrange(from as int, to as int);
    let mut a = from;
    while a < to && is_white_exec(v[a])
        invariant
            from <= a <= to <= v.len(),
            s == v@.subrange(from as int, to as int),
            white_prefix_end(s, (a - from) as int) == white_prefix_end(s, 0),
        decreases to - a,
    {
        assert(s[(a - from) as int] == v@[a as int]);
        a += 1;
    }
    assert(a == to || s[(a - from) as int] == v@[a as int]);
    let mut b = to;
    while b > a && is_white_exec(v[b - 1])
        invariant
            from <= a <= b <= to <= v.len(),
            s == v@.subrange(from as int, to as int),
            white_prefix_end(s, 0) == a - from,
            white_suffix_start(s, (b - from) as int) == white_suffix_start(s, s.len() as int),
        decreases b,
    {
        assert(s[(b - from - 1) as int] == v@[b - 1]);
        b -= 1;
    }
    proof {
        lemma_white_prefix_bounds(s, 0);
        lemma_white_suffix_bounds(s, s.len() as int);
        let sa = white_prefix_end(s, 0);
        let sb = white_suffix_start(s, s.len() as int);
        if b > a {
            assert(s[(b - from - 1) as int] == v@[b - 1]);
            assert(sb == b - from);
            assert(v@.subrange(a as int, b as int) =~= s.subrange(sa, sb));
        } else {
            lemma_white_suffix_bounds(s, (b - from) as int);
            assert(v@.subrange(a as int, b as int) =~= Seq::<char>::empty());
        }
        assert(v@.subrange(from as int, a as int) + v@.subrange(a as int, to as int)
            =~= v@.subrange(from as int, to as int));
    }
    (a, b)
}


// ---------------------------------------------------------------------------
// Laws
// ---------------------------------------------------------------------------

/// A character that DOT does not accept in identifiers.
pub open spec fn is_dot_unsafe(c: char) -> bool {
    c == '<' || c == '>' || c == ',' || c == '.' || c == ' '
}

proof fn lemma_sanitize_concat(a: Seq<char>, b: Seq<char>)
    ensures
        sanitize_spec(a + b) == sanitize_spec(a) + sanitize_spec(b),
    decreases b.len(),
{
    if b.len() == 0 {
        assert(a + b =~= a);
        assert(sanitize_spec(a) + sanitize_spec(b) =~= sanitize_spec(a));
    } else {
        lemma_sanitize_concat(a, b.drop_last());
        assert((a + b).drop_last() =~= a + b.drop_last());
        assert((a + b).last() == b.last());
        assert(sanitize_spec(a + b) =~= sanitize_spec(a) + sanitize_spec(b));
    }
}

/// A sanitised identifier holds none of the characters DOT rejects.
pub proof fn lemma_sanitize_is_dot_safe(s: Seq<char>)
    ensures
        forall|k: int| 0 <= k < sanitize_spec(s).len() ==> !is_dot_unsafe(#[trigger] sanitize_spec(s)[k]),
    decreases s.len(),
{
    if s.len() > 0 {
        lemma_sanitize_is_dot_safe(s.drop_last());
        let p = sanitize_spec(s.drop_last());
        let q = sanitize_piece(s.last());
        assert forall|k: int| 0 <= k < sanitize_spec(s).len() implies !is_dot_unsafe(#[trigger] sanitize_spec(s)[k]) by {
            if k >= p.len() {
                assert(sanitize_spec(s)[k] == q[k - p.len()]);
            } else {
                assert(sanitize_spec(s)[k] == p[k]);
            }
        }
    }
}

proof fn lemma_sanitize_of_safe(s: Seq<char>)
    requires
        forall|k: int| 0 <= k < s.len() ==> !is_dot_unsafe(#[trigger] s[k]),
    ensures
        sanitize_spec(s) == s,
    decreases s.len(),
{
    if s.len() > 0 {
        lemma_sanitize_of_safe(s.drop_last());
        assert(!is_dot_unsafe(s[s.len() - 1]));
        assert(sanitize_spec(s) =~= s.drop_last() + seq![s.last()]);
        assert(s.drop_last() + seq![s.last()] =~= s);
    }
}

/// Sanitising an identifier twice gives the same result as sanitising it
/// once: the result is already DOT-safe.
pub proof fn lemma_sanitize_idempotent(s: Seq<char>)
    ensures
        sanitize_spec(sanitize_spec(s)) == sanitize_spec(s),
{
    lemma_sanitize_is_dot_safe(s);
    lemma_sanitize_of_safe(sanitize_spec(s));
}

/// A text without the characters DOT rejects is its own identifier, and a
/// concatenation is sanitised piece by piece.
pub proof fn lemma_sanitize_keeps_safe_text(a: Seq<char>, b: Seq<char>)
    ensures
        (forall|k: int| 0 <= k < a.len() ==> !is_dot_unsafe(#[trigger] a[k])) ==> sanitize_spec(a) == a,
        sanitize_spec(a + b) == sanitize_spec(a) + sanitize_spec(b),
{
    if forall|k: int| 0 <= k < a.len() ==> !is_dot_unsafe(#[trigger] a[k]) {
        lemma_sanitize_of_safe(a);
    }
    lemma_sanitize_concat(a, b);
}

proof fn lemma_first_break_bounds(s: Seq<char>, i: int)
    requires
        0 <= i <= s.len(),
    ensures
        i <= first_break_from(s, i) <= s.len(),
        forall|k: int| i <= k < first_break_from(s, i) ==> !is_break_at(s, k),
        first_break_from(s, i) < s.len() ==> is_break_at(s, first_break_from(s, i)),
    decreases s.len() - i,
{
    if i < s.len() && !is_break_at(s, i) {
        lemma_first_break_bounds(s, i + 1);
    }
}

proof fn lemma_after_last_dot_props(s: Seq<char>, b: int)
    requires
        0 <= b <= s.len(),
    ensures
        forall|k: int| after_last_dot(s, b) <= k < b ==> s[k] != '.',
        after_last_dot(s, b) > 0 ==> s[after_last_dot(s, b) - 1] == '.',
    decreases b,
{
    if b > 0 && s[b - 1] != '.' {
        lemma_after_last_dot_props(s, b - 1);
    }
}

proof fn lemma_after_last_dot_none(s: Seq<char>, b: int)
    requires
        0 <= b <= s.len(),
        forall|k: int| 0 <= k < b ==> s[k] != '.',
    ensures
        after_last_dot(s, b) == 0,
    decreases b,
{
    if b > 0 {
        lemma_after_last_dot_none(s, b - 1);
    }
}

proof fn lemma_first_break_shift(s: Seq<char>, k: int, i: int)
    requires
        0 <= k <= i <= s.len(),
        forall|q: int| k <= q < i ==> !is_break_at(s, q),
    ensures
        first_break_from(s.subrange(k, s.len() as int), i - k) == first_break_from(s, i) - k,
    decreases s.len() - i,
{
    let t = s.subrange(k, s.len() as int);
    if i < s.len() {
        assert(is_break_at(t, i - k) == is_break_at(s, i)) by {
            assert(t[i - k] == s[i]);
            if i + 1 < s.len() {
                assert(t[i - k + 1] == s[i + 1]);
            }
        }
        if !is_break_at(s, i) {
            lemma_first_break_shift(s, k, i + 1);
        }
    }
}

proof fn lemma_first_break_skip(s: Seq<char>, j: int, k: int)
    requires
        0 <= j <= k <= s.len(),
        forall|q: int| j <= q < k ==> !is_break_at(s, q),
    ensures
        first_break_from(s, j) == first_break_from(s, k),
    decreases k - j,
{
    if j < k {
        lemma_first_break_skip(s, j + 1, k);
    }
}

/// Taking the display name of a display name changes nothing: once the
/// package prefix of the first line is gone, no dot is left before the
/// first line break.
pub proof fn lemma_class_display_name_idempotent(s: Seq<char>)
    ensures
        class_display_name_spec(class_display_name_spec(s)) == class_display_name_spec(s),
{
    let b = first_break_from(s, 0);
    lemma_first_break_bounds(s, 0);
    lemma_after_last_dot_bounds(s, b);
    lemma_after_last_dot_props(s, b);
    let k = after_last_dot(s, b);
    let t = s.subrange(k, s.len() as int);
    lemma_first_break_shift(s, k, k);
    lemma_first_break_skip(s, 0, k);
    assert(s.subrange(0, s.len() as int) =~= s);
    assert(first_break_from(t, 0) == b - k);
    assert forall|q: int| 0 <= q < b - k implies t[q] != '.' by {
        assert(t[q] == s[k + q]);
    }
    lemma_after_last_dot_none(t, b - k);
    assert(t.subrange(0, t.len() as int) =~= t);
}

/// A trailing `\n` escape adds exactly one empty line at the end.
pub proof fn lemma_trailing_break_adds_empty_line(s: Seq<char>, lf: bool)
    ensures
        break_split(s + seq!['\\', 'n'], lf) == break_split(s, lf).push(Seq::empty()),
{
    lemma_trailing_break_scan(s, 0, lf, Seq::empty(), Seq::empty());
}

proof fn lemma_trailing_break_scan(s: Seq<char>, i: int, lf: bool, lines: Seq<Seq<char>>, cur: Seq<char>)
    requires
        0 <= i <= s.len(),
    ensures
        break_scan(s + seq!['\\', 'n'], i, lf, lines, cur) == break_scan(s, i, lf, lines, cur).push(
            Seq::empty(),
        ),
    decreases s.len() - i,
{
    let t = s + seq!['\\', 'n'];
    if i == s.len() {
        assert(t[i] == '\\' && t[i + 1] == 'n');
        assert(break_scan(t, i + 2, lf, lines.push(cur), Seq::empty()) == lines.push(cur).push(
            Seq::<char>::empty(),
        ));
    } else {
        assert(t[i] == s[i]);
        if i + 1 < s.len() {
            assert(t[i + 1] == s[i + 1]);
        } else {
            assert(t[i + 1] == '\\');
        }
        if s[i] == '\\' && i + 1 < s.len() && s[i + 1] == 'n' {
            lemma_trailing_break_scan(s, i + 2, lf, lines.push(cur), Seq::empty());
        } else if s[i] == NEWLINE_CHAR || (lf && s[i] == '\n') {
            lemma_trailing_break_scan(s, i + 1, lf, lines.push(cur), Seq::empty());
        } else {
            lemma_trailing_break_scan(s, i + 1, lf, lines, cur.push(s[i]));
        }
    }
}

} // verus!

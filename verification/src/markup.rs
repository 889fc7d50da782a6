//! Inline markup handling: stripping of HTML-like formatting tags from names,
//! and the creole tags that a wrapped note line leaves open.

use vstd::prelude::*;

verus! {

/// The formatting kinds that `strip_html_markup` recognises.
#[derive(Debug, Clone, Copy, PartialEq, Eq, Structural)]
pub enum HtmlTag {
    Bold,
    Italic,
    Underline,
    Strike,
}

/// Result of stripping HTML-like markup tags from a display name.
#[derive(Debug, Clone)]
pub struct StrippedMarkup {
    /// The text with all recognised tags removed.
    pub text: String,
    /// Whether an opening `<b>` was found.
    pub bold: bool,
    /// Whether an opening `<i>` was found.
    pub italic: bool,
    /// Whether an opening `<u>` was found.
    pub underline: bool,
    /// Whether an opening `<s>` or `<strike>` was found.
    pub strikethrough: bool,
}

/// The recognised tags, in the order they are tried.
pub open spec fn html_tag_text(k: int) -> Seq<char> {
    if k == 0 {
        seq!['<', 'b', '>']
    } else if k == 1 {
        seq!['<', '/', 'b', '>']
    } else if k == 2 {
        seq!['<', 'i', '>']
    } else if k == 3 {
        seq!['<', '/', 'i', '>']
    } else if k == 4 {
        seq!['<', 'u', '>']
    } else if k == 5 {
        seq!['<', '/', 'u', '>']
    } else if k == 6 {
        seq!['<', 's', '>']
    } else if k == 7 {
        seq!['<', '/', 's', '>']
    } else if k == 8 {
        seq!['<', 's', 't', 'r', 'i', 'k', 'e', '>']
    } else {
        seq!['<', '/', 's', 't', 'r', 'i', 'k', 'e', '>']
    }
}

/// The formatting kind of tag number `k`.
pub open spec fn html_tag_kind(k: int) -> HtmlTag {
    if k < 2 {
        HtmlTag::Bold
    } else if k < 4 {
        HtmlTag::Italic
    } else if k < 6 {
        HtmlTag::Underline
    } else {
        HtmlTag::Strike
    }
}

/// The name a formatting kind is written with in a tag.
pub open spec fn html_tag_name(t: HtmlTag) -> Seq<char> {
    match t {
        HtmlTag::Bold => seq!['b'],
        HtmlTag::Italic => seq!['i'],
        HtmlTag::Underline => seq!['u'],
        HtmlTag::Strike => seq!['s'],
    }
}

/// Every recognised tag is `<`, a `/` exactly for the closing ones (the odd
/// numbers), the name of its kind (`strike` standing for strike-through too)
/// and `>`.
pub proof fn lemma_html_tag_text_names_its_kind(k: int)
    requires
        0 <= k < 10,
    ensures
        html_tag_text(k) == seq!['<'] + (if k % 2 == 1 {
            seq!['/']
        } else {
            Seq::empty()
        }) + (if k >= 8 {
            seq!['s', 't', 'r', 'i', 'k', 'e']
        } else {
            html_tag_name(html_tag_kind(k))
        }) + seq!['>'],
        k >= 8 ==> html_tag_kind(k) == HtmlTag::Strike,
{
    let r = seq!['<'] + (if k % 2 == 1 {
        seq!['/']
    } else {
        Seq::empty()
    }) + (if k >= 8 {
        seq!['s', 't', 'r', 'i', 'k', 'e']
    } else {
        html_tag_name(html_tag_kind(k))
    }) + seq!['>'];
    assert(html_tag_text(k) =~= r);
}

/// The number of the first tag, from `k` on, found at `s[i..]` (ignoring
/// ASCII case).
pub open spec fn html_tag_from(s: Seq<char>, i: int, k: int) -> Option<int>
    decreases 10 - k,
{
    if k < 0 || k >= 10 {
        None
    } else if ci_match(s, i, html_tag_text(k)) {
        Some(k)
    } else {
        html_tag_from(s, i, k + 1)
    }
}

/// Removes recognised tags from `s[i..]`, keeping every other character as
/// it is.  The flags record which kinds were opened.
pub open spec fn strip_scan(
    s: Seq<char>,
    i: int,
    out: Seq<char>,
    flags: (bool, bool, bool, bool),
) -> (Seq<char>, (bool, bool, bool, bool))
    decreases s.len() - i,
{
    if i < 0 || i >= s.len() {
        (out, flags)
    } else if html_tag_from(s, i, 0) is Some {
        let k = html_tag_from(s, i, 0)->0;
        let open = k % 2 == 0;
        let f = match html_tag_kind(k) {
            HtmlTag::Bold => (flags.0 || open, flags.1, flags.2, flags.3),
            HtmlTag::Italic => (flags.0, flags.1 || open, flags.2, flags.3),
            HtmlTag::Underline => (flags.0, flags.1, flags.2 || open, flags.3),
            HtmlTag::Strike => (flags.0, flags.1, flags.2, flags.3 || open),
        };
        if 0 < html_tag_text(k).len() && i + html_tag_text(k).len() <= s.len() {
            strip_scan(s, i + html_tag_text(k).len(), out, f)
        } else {
            (out, flags)
        }
    } else {
        strip_scan(s, i + 1, out.push(s[i]), flags)
    }
}

/// What `strip_html_markup` returns for a text with characters `s`.
pub open spec fn strip_spec(s: Seq<char>) -> (Seq<char>, (bool, bool, bool, bool)) {
    strip_scan(s, 0, Seq::empty(), (false, false, false, false))
}

proof fn lemma_html_tag_from(s: Seq<char>, i: int, k: int)
    ensures
        html_tag_from(s, i, k) matches Some(m) ==> {
            &&& 0 <= m < 10
            &&& ci_match(s, i, html_tag_text(m))
            &&& html_tag_text(m).len() > 0
        },
    decreases 10 - k,
{
    if 0 <= k < 10 && !ci_match(s, i, html_tag_text(k)) {
        lemma_html_tag_from(s, i, k + 1);
    }
}

fn html_tag_text_exec(k: usize) -> (v: Vec<char>)
    requires
        k < 10,
    ensures
        v@ == html_tag_text(k as int),
{
    let v = if k == 0 {
        vec!['<', 'b', '>']
    } else if k == 1 {
        vec!['<', '/', 'b', '>']
    } else if k == 2 {
        vec!['<', 'i', '>']
    } else if k == 3 {
        vec!['<', '/', 'i', '>']
    } else if k == 4 {
        vec!['<', 'u', '>']
    } else if k == 5 {
        vec!['<', '/', 'u', '>']
    } else if k == 6 {
        vec!['<', 's', '>']
    } else if k == 7 {
        vec!['<', '/', 's', '>']
    } else if k == 8 {
        vec!['<', 's', 't', 'r', 'i', 'k', 'e', '>']
    } else {
        vec!['<', '/', 's', 't', 'r', 'i', 'k', 'e', '>']
    };
    assert(v@ =~= html_tag_text(k as int));
    v
}

/// The recognised tag at `s[i..]`, if any: its length, whether it opens, and
/// its kind.
fn html_tag_at(s: &Vec<char>, i: usize) -> (r: Option<(usize, bool, HtmlTag)>)
    ensures
        match html_tag_from(s@, i as int, 0) {
            None => r is None,
            Some(k) => r == Some(
                (html_tag_text(k).len() as usize, k % 2 == 0, html_tag_kind(k)),
            ),
        },
{
    let mut k: usize = 0;
    while k < 10
        invariant
            k <= 10,
            html_tag_from(s@, i as int, k as int) == html_tag_from(s@, i as int, 0),
        decreases 10 - k,
    {
        let tag = html_tag_text_exec(k);
        if ci_match_exec(s, i, &tag) {
            let kind = if k < 2 {
                HtmlTag::Bold
            } else if k < 4 {
                HtmlTag::Italic
            } else if k < 6 {
                HtmlTag::Underline
            } else {
                HtmlTag::Strike
            };
            return Some((tag.len(), k % 2 == 0, kind));
        }
        k += 1;
    }
    None
}

/// Tries to match a recognised tag at the start of `s`, ignoring ASCII case.
/// Returns the tag's length (in bytes, which are its characters: the tags
/// are ASCII), whether it opens (`<x>`) or closes (`</x>`), and its kind.
pub fn match_html_tag(s: &str) -> (r: Option<(usize, bool, HtmlTag)>)
    ensures
        match html_tag_from(s@, 0, 0) {
            None => r is None,
            Some(k) => r == Some(
                (html_tag_text(k).len() as usize, k % 2 == 0, html_tag_kind(k)),
            ),
        },
{
    let v = crate::text::chars_of(s);
    html_tag_at(&v, 0)
}

/// Strips the HTML-like tags `<b>`, `<i>`, `<u>`, `<s>`, `<strike>` and their
/// closing forms (in any ASCII case) from a display name, and reports which
/// kinds were opened.  Everything else is left as it is.
#[verifier::rlimit(40)]
pub fn strip_html_markup(text: &str) -> (r: StrippedMarkup)
    ensures
        r.text@ == strip_spec(text@).0,
        (r.bold, r.italic, r.underline, r.strikethrough) == strip_spec(text@).1,
{
    let v = crate::text::chars_of(text);
    let mut result = String::new();
    let mut bold = false;
    let mut italic = false;
    let mut underline = false;
    let mut strikethrough = false;
    let mut i: usize = 0;
    while i < v.len()
        invariant
            i <= v@.len(),
            v@ == text@,
            strip_scan(v@, i as int, result@, (bold, italic, underline, strikethrough))
                == strip_spec(text@),
        decreases v.len() - i,
    {
        proof {
            lemma_html_tag_from(v@, i as int, 0);
        }
        if let Some((tag_len, is_open, kind)) = html_tag_at(&v, i) {
            match kind {
                HtmlTag::Bold => bold = bold || is_open,
                HtmlTag::Italic => italic = italic || is_open,
                HtmlTag::Underline => underline = underline || is_open,
                HtmlTag::Strike => strikethrough = strikethrough || is_open,
            }
            i += tag_len;
            continue;
        }
        result.push(v[i]);
        i += 1;
    }
    StrippedMarkup { text: result, bold, italic, underline, strikethrough }
}


// ---------------------------------------------------------------------------
// Creole tags left open by a line
// ---------------------------------------------------------------------------

/// The creole formatting tags that can be left open at the end of a line.
#[derive(Debug, Clone, Copy, PartialEq, Eq, Structural)]
pub enum CreoleTag {
    Bold,
    Italic,
    Underline,
    Strike,
    Back,
    Font,
    Color,
    Size,
}

/// The tag texts tried at each position, in order: for each kind its opening
/// text (for the last four kinds only a prefix such as `<back:`) and then its
/// closing text.
pub open spec fn creole_needle(a: int) -> Seq<char> {
    if a == 0 {
        seq!['<', 'b', '>']
    } else if a == 1 {
        seq!['<', '/', 'b', '>']
    } else if a == 2 {
        seq!['<', 'i', '>']
    } else if a == 3 {
        seq!['<', '/', 'i', '>']
    } else if a == 4 {
        seq!['<', 'u', '>']
    } else if a == 5 {
        seq!['<', '/', 'u', '>']
    } else if a == 6 {
        seq!['<', 's', '>']
    } else if a == 7 {
        seq!['<', '/', 's', '>']
    } else if a == 8 {
        seq!['<', 'b', 'a', 'c', 'k', ':']
    } else if a == 9 {
        seq!['<', '/', 'b', 'a', 'c', 'k', '>']
    } else if a == 10 {
        seq!['<', 'f', 'o', 'n', 't', ':']
    } else if a == 11 {
        seq!['<', '/', 'f', 'o', 'n', 't', '>']
    } else if a == 12 {
        seq!['<', 'c', 'o', 'l', 'o', 'r', ':']
    } else if a == 13 {
        seq!['<', '/', 'c', 'o', 'l', 'o', 'r', '>']
    } else if a == 14 {
        seq!['<', 's', 'i', 'z', 'e', ':']
    } else {
        seq!['<', '/', 's', 'i', 'z', 'e', '>']
    }
}

/// The kind of tag text number `a`.
pub open spec fn creole_kind(a: int) -> CreoleTag {
    if a < 2 {
        CreoleTag::Bold
    } else if a < 4 {
        CreoleTag::Italic
    } else if a < 6 {
        CreoleTag::Underline
    } else if a < 8 {
        CreoleTag::Strike
    } else if a < 10 {
        CreoleTag::Back
    } else if a < 12 {
        CreoleTag::Font
    } else if a < 14 {
        CreoleTag::Color
    } else {
        CreoleTag::Size
    }
}

/// The name a creole tag kind is written with.
pub open spec fn creole_tag_name(t: CreoleTag) -> Seq<char> {
    match t {
        CreoleTag::Bold => seq!['b'],
        CreoleTag::Italic => seq!['i'],
        CreoleTag::Underline => seq!['u'],
        CreoleTag::Strike => seq!['s'],
        CreoleTag::Back => seq!['b', 'a', 'c', 'k'],
        CreoleTag::Font => seq!['f', 'o', 'n', 't'],
        CreoleTag::Color => seq!['c', 'o', 'l', 'o', 'r'],
        CreoleTag::Size => seq!['s', 'i', 'z', 'e'],
    }
}

/// Every tag text tried is `<`, a `/` exactly for the closing ones (the odd
/// numbers), the name of its kind, and `>`, except that the opening texts of
/// the kinds that take a value (`back`, `font`, `color`, `size`) end in `:`.
pub proof fn lemma_creole_needle_names_its_kind(a: int)
    requires
        0 <= a < 16,
    ensures
        creole_needle(a) == seq!['<'] + (if a % 2 == 1 {
            seq!['/']
        } else {
            Seq::empty()
        }) + creole_tag_name(creole_kind(a)) + (if a >= 8 && a % 2 == 0 {
            seq![':']
        } else {
            seq!['>']
        }),
        a >= 8 <==> (creole_kind(a) is Back || creole_kind(a) is Font || creole_kind(a) is Color
            || creole_kind(a) is Size),
{
    let r = seq!['<'] + (if a % 2 == 1 {
        seq!['/']
    } else {
        Seq::empty()
    }) + creole_tag_name(creole_kind(a)) + (if a >= 8 && a % 2 == 0 {
        seq![':']
    } else {
        seq!['>']
    });
    assert(creole_needle(a) =~= r);
}

/// The code of a character after ASCII lower-casing.
pub open spec fn lower_code(c: char) -> u32 {
    if 65 <= (c as u32) <= 90 {
        ((c as u32) + 32) as u32
    } else {
        c as u32
    }
}

/// The number of bytes of the UTF-8 encoding of `c`.
pub open spec fn utf8_len(c: char) -> int {
    if (c as u32) < 0x80 {
        1
    } else if (c as u32) < 0x800 {
        2
    } else if (c as u32) < 0x10000 {
        3
    } else {
        4
    }
}

/// Taking the first `l` bytes of the text from character `i` on does not cut
/// a character in two (or the text holds fewer than `l` bytes from there).
pub open spec fn no_cut(s: Seq<char>, i: int, l: int) -> bool
    decreases s.len() - i,
{
    if l <= 0 || i < 0 || i >= s.len() {
        true
    } else if utf8_len(s[i]) > l {
        false
    } else {
        no_cut(s, i + 1, l - utf8_len(s[i]))
    }
}

/// `s[i..]` starts with the ASCII text `n`, ignoring ASCII case.
pub open spec fn ci_match(s: Seq<char>, i: int, n: Seq<char>) -> bool {
    &&& 0 <= i
    &&& i + n.len() <= s.len()
    &&& forall|m: int| 0 <= m < n.len() ==> lower_code(#[trigger] s[i + m]) == n[m] as u32
}

/// The position of the first `>` at or after `i`, or `s.len()`.
pub open spec fn first_gt_from(s: Seq<char>, i: int) -> int
    decreases s.len() - i,
{
    if i < 0 || i >= s.len() {
        s.len() as int
    } else if s[i] == '>' {
        i
    } else {
        first_gt_from(s, i + 1)
    }
}

/// An open tag on the stack: its kind and the character range of its text.
pub type OpenTag = (CreoleTag, usize, usize);

/// The position of the last entry of kind `k` in `st[0..j]`, or -1.
pub open spec fn last_of_kind(st: Seq<OpenTag>, k: CreoleTag, j: int) -> int
    decreases j,
{
    if j <= 0 {
        -1
    } else if st[j - 1].0 == k {
        j - 1
    } else {
        last_of_kind(st, k, j - 1)
    }
}

/// The stack after a closing tag of kind `k`: its last entry of that kind is removed.
pub open spec fn close_kind(st: Seq<OpenTag>, k: CreoleTag) -> Seq<OpenTag> {
    let p = last_of_kind(st, k, st.len() as int);
    if p >= 0 {
        st.remove(p)
    } else {
        st
    }
}

/// Trying tag text `a` at character `i`: `None` when the byte-wise prefix test
/// would cut a character; `Some(None)` when it does not apply; otherwise the
/// next position and stack.
pub open spec fn creole_attempt(s: Seq<char>, i: int, st: Seq<OpenTag>, a: int) -> Option<
    Option<(int, Seq<OpenTag>)>,
> {
    let n = creole_needle(a);
    if !no_cut(s, i, n.len() as int) {
        None
    } else if !ci_match(s, i, n) {
        Some(None)
    } else if a % 2 == 1 {
        Some(Some((i + n.len(), close_kind(st, creole_kind(a)))))
    } else if a < 8 {
        Some(Some((i + n.len(), st.push((creole_kind(a), i as usize, (i + n.len()) as usize)))))
    } else {
        let e = first_gt_from(s, i);
        if e < s.len() {
            Some(Some((e + 1, st.push((creole_kind(a), i as usize, (e + 1) as usize)))))
        } else {
            Some(None)
        }
    }
}

/// Trying the tag texts from number `a` on, in order.
pub open spec fn creole_attempts_from(s: Seq<char>, i: int, st: Seq<OpenTag>, a: int) -> Option<
    Option<(int, Seq<OpenTag>)>,
>
    decreases 16 - a,
{
    if a < 0 || a >= 16 {
        Some(None)
    } else {
        match creole_attempt(s, i, st, a) {
            None => None,
            Some(Some(r)) => Some(Some(r)),
            Some(None) => creole_attempts_from(s, i, st, a + 1),
        }
    }
}

/// Scans `s` from character `i` with stack `st`; `None` when the scan would
/// panic on a character cut in two, else the tags still open at the end.
pub open spec fn creole_scan(s: Seq<char>, i: int, st: Seq<OpenTag>) -> Option<Seq<OpenTag>>
    decreases s.len() - i,
{
    if i < 0 || i >= s.len() {
        Some(st)
    } else {
        match creole_attempts_from(s, i, st, 0) {
            None => None,
            Some(None) => creole_scan(s, i + 1, st),
            Some(Some((j, st2))) => if i < j <= s.len() {
                creole_scan(s, j, st2)
            } else {
                None
            },
        }
    }
}

/// The texts of the open tags, concatenated in stack order.
pub open spec fn open_tags_text(s: Seq<char>, st: Seq<OpenTag>) -> Seq<char>
    decreases st.len(),
{
    if st.len() == 0 {
        Seq::empty()
    } else {
        open_tags_text(s, st.drop_last()) + open_tag_text(s, st.last())
    }
}

/// The text that reopens an open tag: the lower-case tag for `<b>`, `<i>`,
/// `<u>` and `<s>`; for the other kinds the tag as written, up to its `>`.
pub open spec fn open_tag_text(s: Seq<char>, t: OpenTag) -> Seq<char> {
    match t.0 {
        CreoleTag::Bold => seq!['<', 'b', '>'],
        CreoleTag::Italic => seq!['<', 'i', '>'],
        CreoleTag::Underline => seq!['<', 'u', '>'],
        CreoleTag::Strike => seq!['<', 's', '>'],
        _ => s.subrange(t.1 as int, t.2 as int),
    }
}

/// Entries of a stack built while scanning `s` are ranges inside `s`.
pub open spec fn stack_in_bounds(s: Seq<char>, st: Seq<OpenTag>) -> bool {
    forall|k: int| 0 <= k < st.len() ==> (#[trigger] st[k]).1 <= st[k].2 <= s.len()
}

fn creole_needle_exec(a: usize) -> (v: Vec<char>)
    requires
        a < 16,
    ensures
        v@ == creole_needle(a as int),
{
    if a == 0 {
        vec!['<', 'b', '>']
    } else if a == 1 {
        vec!['<', '/', 'b', '>']
    } else if a == 2 {
        vec!['<', 'i', '>']
    } else if a == 3 {
        vec!['<', '/', 'i', '>']
    } else if a == 4 {
        vec!['<', 'u', '>']
    } else if a == 5 {
        vec!['<', '/', 'u', '>']
    } else if a == 6 {
        vec!['<', 's', '>']
    } else if a == 7 {
        vec!['<', '/', 's', '>']
    } else if a == 8 {
        vec!['<', 'b', 'a', 'c', 'k', ':']
    } else if a == 9 {
        vec!['<', '/', 'b', 'a', 'c', 'k', '>']
    } else if a == 10 {
        vec!['<', 'f', 'o', 'n', 't', ':']
    } else if a == 11 {
        vec!['<', '/', 'f', 'o', 'n', 't', '>']
    } else if a == 12 {
        vec!['<', 'c', 'o', 'l', 'o', 'r', ':']
    } else if a == 13 {
        vec!['<', '/', 'c', 'o', 'l', 'o', 'r', '>']
    } else if a == 14 {
        vec!['<', 's', 'i', 'z', 'e', ':']
    } else {
        vec!['<', '/', 's', 'i', 'z', 'e', '>']
    }
}

fn creole_kind_exec(a: usize) -> (k: CreoleTag)
    ensures
        k == creole_kind(a as int),
{
    if a < 2 {
        CreoleTag::Bold
    } else if a < 4 {
        CreoleTag::Italic
    } else if a < 6 {
        CreoleTag::Underline
    } else if a < 8 {
        CreoleTag::Strike
    } else if a < 10 {
        CreoleTag::Back
    } else if a < 12 {
        CreoleTag::Font
    } else if a < 14 {
        CreoleTag::Color
    } else {
        CreoleTag::Size
    }
}

fn utf8_len_exec(c: char) -> (r: usize)
    ensures
        r == utf8_len(c),
{
    let x = c as u32;
    if x < 0x80 {
        1
    } else if x < 0x800 {
        2
    } else if x < 0x10000 {
        3
    } else {
        4
    }
}

fn lower_code_exec(c: char) -> (r: u32)
    ensures
        r == lower_code(c),
{
    let x = c as u32;
    if 65 <= x && x <= 90 {
        x + 32
    } else {
        x
    }
}

fn no_cut_exec(s: &Vec<char>, i: usize, l: usize) -> (r: bool)
    ensures
        r == no_cut(s@, i as int, l as int),
{
    let mut j = i;
    let mut rem = l;
    while rem > 0 && j < s.len()
        invariant
            no_cut(s@, j as int, rem as int) == no_cut(s@, i as int, l as int),
        decreases s.len() - j,
    {
        let u = utf8_len_exec(s[j]);
        if u > rem {
            return false;
        }
        rem -= u;
        j += 1;
    }
    true
}

fn ci_match_exec(s: &Vec<char>, i: usize, n: &Vec<char>) -> (r: bool)
    ensures
        r == ci_match(s@, i as int, n@),
{
    if n.len() > s.len() || i > s.len() - n.len() {
        return false;
    }
    let mut m: usize = 0;
    while m < n.len()
        invariant
            m <= n.len(),
            i + n.len() <= s.len(),
            forall|p: int| 0 <= p < m ==> lower_code(#[trigger] s@[i + p]) == n@[p] as u32,
        decreases n.len() - m,
    {
        if lower_code_exec(s[i + m]) != n[m] as u32 {
            assert(lower_code(s@[i + m as int]) != n@[m as int] as u32);
            return false;
        }
        m += 1;
    }
    true
}

fn first_gt_exec(s: &Vec<char>, i: usize) -> (e: usize)
    requires
        i <= s.len(),
    ensures
        e == first_gt_from(s@, i as int),
        i <= e <= s.len(),
{
    let mut e = i;
    while e < s.len() && s[e] != '>'
        invariant
            i <= e <= s.len(),
            first_gt_from(s@, e as int) == first_gt_from(s@, i as int),
        decreases s.len() - e,
    {
        e += 1;
    }
    e
}

fn close_kind_exec(st: &mut Vec<OpenTag>, k: CreoleTag)
    ensures
        final(st)@ == close_kind(old(st)@, k),
{
    let mut j = st.len();
    while j > 0 && st[j - 1].0 != k
        invariant
            j <= st.len(),
            st@ == old(st)@,
            last_of_kind(st@, k, j as int) == last_of_kind(st@, k, st@.len() as int),
        decreases j,
    {
        j -= 1;
    }
    if j > 0 {
        st.remove(j - 1);
    }
}

proof fn lemma_attempts_advance(s: Seq<char>, i: int, st: Seq<OpenTag>, a: int)
    requires
        0 <= i < s.len(),
        s.len() <= usize::MAX,
        stack_in_bounds(s, st),
    ensures
        creole_attempts_from(s, i, st, a) matches Some(Some((j, st2))) ==> {
            &&& i < j <= s.len()
            &&& stack_in_bounds(s, st2)
        },
    decreases 16 - a,
{
    if 0 <= a < 16 {
        let n = creole_needle(a);
        assert(n.len() > 0);
        if no_cut(s, i, n.len() as int) && ci_match(s, i, n) {
            if a % 2 == 1 {
                let k = creole_kind(a);
                let p = last_of_kind(st, k, st.len() as int);
                lemma_last_of_kind_bounds(st, k, st.len() as int);
                if p >= 0 {
                    assert forall|q: int| 0 <= q < st.remove(p).len() implies
                        (#[trigger] st.remove(p)[q]).1 <= st.remove(p)[q].2 <= s.len() by {
                        if q < p {
                            assert(st.remove(p)[q] == st[q]);
                        } else {
                            assert(st.remove(p)[q] == st[q + 1]);
                        }
                    }
                }
            } else if a >= 8 {
                lemma_first_gt_bounds(s, i);
                lemma_attempts_advance(s, i, st, a + 1);
            }
        } else if no_cut(s, i, n.len() as int) {
            lemma_attempts_advance(s, i, st, a + 1);
        }
    }
}

proof fn lemma_last_of_kind_bounds(st: Seq<OpenTag>, k: CreoleTag, j: int)
    requires
        0 <= j <= st.len(),
    ensures
        -1 <= last_of_kind(st, k, j) < j,
        last_of_kind(st, k, j) < 0 || j <= 0 || last_of_kind(st, k, j) >= 0,
        last_of_kind(st, k, j) >= 0 ==> st[last_of_kind(st, k, j)].0 == k,
    decreases j,
{
    if j > 0 && st[j - 1].0 != k {
        lemma_last_of_kind_bounds(st, k, j - 1);
    }
}

proof fn lemma_first_gt_bounds(s: Seq<char>, i: int)
    requires
        0 <= i <= s.len(),
    ensures
        i <= first_gt_from(s, i) <= s.len(),
    decreases s.len() - i,
{
    if i < s.len() && s[i] != '>' {
        lemma_first_gt_bounds(s, i + 1);
    }
}

fn push_open_tags(out: &mut String, s: &Vec<char>, st: &Vec<OpenTag>)
    requires
        stack_in_bounds(s@, st@),
    ensures
        final(out)@ == old(out)@ + open_tags_text(s@, st@),
{
    let mut k: usize = 0;
    while k < st.len()
        invariant
            k <= st.len(),
            stack_in_bounds(s@, st@),
            out@ == old(out)@ + open_tags_text(s@, st@.take(k as int)),
        decreases st.len() - k,
    {
        let (kind, from, to) = st[k];
        proof {
            assert(st@.take(k + 1).drop_last() =~= st@.take(k as int));
            assert(st@.take(k + 1).last() == st@[k as int]);
        }
        let ghost before = out@;
        match kind {
            CreoleTag::Bold => {
                out.push('<');
                out.push('b');
                out.push('>');
            },
            CreoleTag::Italic => {
                out.push('<');
                out.push('i');
                out.push('>');
            },
            CreoleTag::Underline => {
                out.push('<');
                out.push('u');
                out.push('>');
            },
            CreoleTag::Strike => {
                out.push('<');
                out.push('s');
                out.push('>');
            },
            _ => {
                crate::text::push_range(out, s, from, to);
            },
        }
        assert(out@ =~= before + open_tag_text(s@, st@[k as int]));
        k += 1;
        assert(out@ =~= old(out)@ + open_tags_text(s@, st@.take(k as int)));
    }
    assert(st@.take(st.len() as int) =~= st@);
}

/// The opening tags that `line` leaves unclosed, concatenated in the order
/// they were opened (so a continuation line can reopen them; the four simple
/// tags are written in lower case, the others as written), or `None`
/// exactly when the byte-wise tag test would cut a multi-byte character in
/// two (where a byte slice of the line would panic).
///
/// `<b>`, `<i>`, `<u>`, `<s>` and the prefixes `<back:`, `<font:`, `<color:`,
/// `<size:` (up to the next `>`) open a tag, matched without regard to ASCII
/// case; a closing tag removes the latest open tag of its kind.
#[verifier::rlimit(40)]
pub fn try_collect_unclosed_creole_prefix(line: &str) -> (r: Option<String>)
    ensures
        match creole_scan(line@, 0, Seq::empty()) {
            None => r is None,
            Some(st) => r matches Some(t) && t@ == open_tags_text(line@, st),
        },
{
    let s = crate::text::chars_of(line);
    let mut stack: Vec<OpenTag> = Vec::new();
    let mut i: usize = 0;
    while i < s.len()
        invariant
            i <= s.len(),
            s@ == line@,
            stack_in_bounds(s@, stack@),
            creole_scan(s@, i as int, stack@) == creole_scan(s@, 0, Seq::empty()),
        decreases s.len() - i,
    {
        let ghost i0 = i as int;
        let ghost st0 = stack@;
        let mut a: usize = 0;
        let mut advanced = false;
        while a < 16 && !advanced
            invariant
                a <= 16,
                0 <= i0 < s.len(),
                s@ == line@,
                stack_in_bounds(s@, st0),
                creole_scan(s@, i0, st0) == creole_scan(s@, 0, Seq::empty()),
                !advanced ==> {
                    &&& stack@ == st0
                    &&& i == i0
                    &&& creole_attempts_from(s@, i0, st0, a as int) == creole_attempts_from(
                        s@,
                        i0,
                        st0,
                        0,
                    )
                },
                advanced ==> creole_attempts_from(s@, i0, st0, 0) == Some(
                    Some((i as int, stack@)),
                ),
            decreases 2 * (16 - a) + (if advanced {
                0int
            } else {
                1int
            }),
        {
            let n = creole_needle_exec(a);
            if !no_cut_exec(&s, i, n.len()) {
                return None;
            }
            if ci_match_exec(&s, i, &n) {
                let kind = creole_kind_exec(a);
                if a % 2 == 1 {
                    close_kind_exec(&mut stack, kind);
                    i += n.len();
                    advanced = true;
                } else if a < 8 {
                    stack.push((kind, i, i + n.len()));
                    i += n.len();
                    advanced = true;
                } else {
                    let e = first_gt_exec(&s, i);
                    if e < s.len() {
                        stack.push((kind, i, e + 1));
                        i = e + 1;
                        advanced = true;
                    }
                }
            }
            if !advanced {
                a += 1;
            }
        }
        proof {
            lemma_attempts_advance(s@, i0, st0, 0);
        }
        if !advanced {
            i += 1;
        }
    }
    let mut out = String::new();
    push_open_tags(&mut out, &s, &stack);
    Some(out)
}

/// The opening tags that `line` leaves unclosed, for a line on which the
/// byte-wise tag test cuts no character (see `try_collect_unclosed_creole_prefix`).
pub fn collect_unclosed_creole_prefix(line: &str) -> (r: String)
    requires
        creole_scan(line@, 0, Seq::empty()) is Some,
    ensures
        r@ == open_tags_text(line@, creole_scan(line@, 0, Seq::empty())->0),
{
    match try_collect_unclosed_creole_prefix(line) {
        Some(t) => t,
        None => String::new(),
    }
}


// ---------------------------------------------------------------------------
// Laws
// ---------------------------------------------------------------------------

/// Every character of `s` is ASCII.
pub open spec fn all_ascii(s: Seq<char>) -> bool {
    forall|k: int| 0 <= k < s.len() ==> (#[trigger] s[k] as u32) < 0x80
}

proof fn lemma_no_cut_ascii(s: Seq<char>, i: int, l: int)
    requires
        all_ascii(s),
    ensures
        no_cut(s, i, l),
    decreases s.len() - i,
{
    if l > 0 && 0 <= i < s.len() {
        assert((s[i] as u32) < 0x80);
        lemma_no_cut_ascii(s, i + 1, l - 1);
    }
}

proof fn lemma_attempts_ascii(s: Seq<char>, i: int, st: Seq<OpenTag>, a: int)
    requires
        all_ascii(s),
    ensures
        creole_attempts_from(s, i, st, a) is Some,
    decreases 16 - a,
{
    if 0 <= a < 16 {
        lemma_no_cut_ascii(s, i, creole_needle(a).len() as int);
        lemma_attempts_ascii(s, i, st, a + 1);
    }
}

proof fn lemma_scan_ascii(s: Seq<char>, i: int, st: Seq<OpenTag>)
    requires
        all_ascii(s),
        0 <= i <= s.len(),
        s.len() <= usize::MAX,
        stack_in_bounds(s, st),
    ensures
        creole_scan(s, i, st) is Some,
    decreases s.len() - i,
{
    if i < s.len() {
        lemma_attempts_ascii(s, i, st, 0);
        lemma_attempts_advance(s, i, st, 0);
        match creole_attempts_from(s, i, st, 0) {
            Some(None) => lemma_scan_ascii(s, i + 1, st),
            Some(Some((j, st2))) => lemma_scan_ascii(s, j, st2),
            None => {},
        }
    }
}

/// On an ASCII line the byte-wise tag tests never cut a character, so the
/// open tags are always found.
pub proof fn lemma_ascii_line_never_cuts(s: Seq<char>)
    requires
        all_ascii(s),
        s.len() <= usize::MAX,
    ensures
        creole_scan(s, 0, Seq::empty()) is Some,
{
    lemma_scan_ascii(s, 0, Seq::empty());
}

proof fn lemma_attempts_no_lt(s: Seq<char>, i: int, st: Seq<OpenTag>, a: int)
    requires
        0 <= i < s.len(),
        s[i] != '<',
    ensures
        creole_attempts_from(s, i, st, a) is None || creole_attempts_from(s, i, st, a) == Some(
            None::<(int, Seq<OpenTag>)>,
        ),
    decreases 16 - a,
{
    if 0 <= a < 16 {
        let n = creole_needle(a);
        assert(n[0] == '<');
        vstd::utf8::char_u32_cast(s[i], s[i] as u32);
        vstd::utf8::char_u32_cast('<', '<' as u32);
        assert(lower_code(s[i + 0]) != n[0] as u32);
        lemma_attempts_no_lt(s, i, st, a + 1);
    }
}

proof fn lemma_scan_no_lt(s: Seq<char>, i: int)
    requires
        0 <= i <= s.len(),
        !s.contains('<'),
    ensures
        creole_scan(s, i, Seq::empty()) is None || creole_scan(s, i, Seq::empty()) == Some(
            Seq::<OpenTag>::empty(),
        ),
    decreases s.len() - i,
{
    if i < s.len() {
        assert(s[i] != '<');
        lemma_attempts_no_lt(s, i, Seq::empty(), 0);
        lemma_scan_no_lt(s, i + 1);
    }
}

/// A line without `<` opens no tag: when its scan completes, nothing is
/// left open.
pub proof fn lemma_no_tag_no_prefix(s: Seq<char>)
    requires
        !s.contains('<'),
        creole_scan(s, 0, Seq::empty()) is Some,
    ensures
        open_tags_text(s, creole_scan(s, 0, Seq::empty())->0) == Seq::<char>::empty(),
{
    lemma_scan_no_lt(s, 0);
}

proof fn lemma_strip_no_tag(s: Seq<char>, i: int, out: Seq<char>, flags: (bool, bool, bool, bool))
    requires
        0 <= i <= s.len(),
        forall|k: int| 0 <= k < s.len() ==> #[trigger] html_tag_from(s, k, 0) is None,
    ensures
        strip_scan(s, i, out, flags) == (out + s.subrange(i, s.len() as int), flags),
    decreases s.len() - i,
{
    if i < s.len() {
        assert(html_tag_from(s, i, 0) is None);
        lemma_strip_no_tag(s, i + 1, out.push(s[i]), flags);
        assert(out.push(s[i]) + s.subrange(i + 1, s.len() as int) =~= out + s.subrange(i, s.len() as int));
    } else {
        assert(out + s.subrange(i, s.len() as int) =~= out);
    }
}

/// Text in which no recognised tag occurs is left as it is, and no
/// formatting flag is set.
pub proof fn lemma_strip_without_tags(s: Seq<char>)
    requires
        forall|k: int| 0 <= k < s.len() ==> #[trigger] html_tag_from(s, k, 0) is None,
    ensures
        strip_spec(s) == (s, (false, false, false, false)),
{
    lemma_strip_no_tag(s, 0, Seq::empty(), (false, false, false, false));
    assert(Seq::<char>::empty() + s.subrange(0, s.len() as int) =~= s);
}


/// The tag text number that opens a tag of kind `k`.
pub open spec fn open_index(k: CreoleTag) -> int {
    match k {
        CreoleTag::Bold => 0,
        CreoleTag::Italic => 2,
        CreoleTag::Underline => 4,
        CreoleTag::Strike => 6,
        CreoleTag::Back => 8,
        CreoleTag::Font => 10,
        CreoleTag::Color => 12,
        CreoleTag::Size => 14,
    }
}

/// An open tag found in `s`: its text starts with the opening text of its
/// kind; a simple tag is exactly that text, the others run to the first `>`.
pub open spec fn entry_ok(s: Seq<char>, e: OpenTag) -> bool {
    let o = open_index(e.0);
    let n = creole_needle(o);
    &&& ci_match(s, e.1 as int, n)
    &&& e.2 <= s.len()
    &&& forall|a2: int| 0 <= a2 <= o ==> #[trigger] no_cut(s, e.1 as int, creole_needle(a2).len() as int)
    &&& if o < 8 {
        e.2 == e.1 + n.len()
    } else {
        &&& e.1 + n.len() < e.2
        &&& s[e.2 - 1] == '>'
        &&& forall|m: int| e.1 <= m < e.2 - 1 ==> s[m] != '>'
    }
}

/// Every entry of the stack is an open tag found in `s`.
pub open spec fn entries_ok(s: Seq<char>, st: Seq<OpenTag>) -> bool {
    forall|q: int| 0 <= q < st.len() ==> entry_ok(s, #[trigger] st[q])
}

proof fn lemma_first_gt_props(s: Seq<char>, i: int)
    requires
        0 <= i <= s.len(),
    ensures
        i <= first_gt_from(s, i) <= s.len(),
        forall|m: int| i <= m < first_gt_from(s, i) ==> s[m] != '>',
        first_gt_from(s, i) < s.len() ==> s[first_gt_from(s, i)] == '>',
    decreases s.len() - i,
{
    if i < s.len() && s[i] != '>' {
        lemma_first_gt_props(s, i + 1);
    }
}

proof fn lemma_needle_facts(a: int)
    requires
        0 <= a < 16,
    ensures
        creole_needle(a).len() > 0,
        a % 2 == 0 ==> open_index(creole_kind(a)) == a,
        a >= 8 && a % 2 == 0 ==> forall|m: int| 0 <= m < creole_needle(a).len() ==> creole_needle(a)[m] != '>',
        a < 8 && a % 2 == 0 ==> creole_needle(a).len() == 3,
{
    let n = creole_needle(a);
    if a >= 8 && a % 2 == 0 {
        assert forall|m: int| 0 <= m < n.len() implies n[m] != '>' by {
            if a == 8 {
                assert(n =~= seq!['<', 'b', 'a', 'c', 'k', ':']);
            } else if a == 10 {
                assert(n =~= seq!['<', 'f', 'o', 'n', 't', ':']);
            } else if a == 12 {
                assert(n =~= seq!['<', 'c', 'o', 'l', 'o', 'r', ':']);
            } else {
                assert(n =~= seq!['<', 's', 'i', 'z', 'e', ':']);
            }
        }
    }
}

proof fn lemma_lower_gt(c: char)
    requires
        c == '>',
    ensures
        lower_code(c) == 62,
{
    assert(('>' as u32) == 62u32);
}

proof fn lemma_attempts_entries(s: Seq<char>, i: int, st: Seq<OpenTag>, a: int)
    requires
        0 <= i < s.len(),
        s.len() <= usize::MAX,
        entries_ok(s, st),
        forall|a2: int| 0 <= a2 < a ==> #[trigger] no_cut(s, i, creole_needle(a2).len() as int),
    ensures
        creole_attempts_from(s, i, st, a) matches Some(Some((j, st2))) ==> entries_ok(s, st2),
    decreases 16 - a,
{
    if 0 <= a < 16 {
        let n = creole_needle(a);
        lemma_needle_facts(a);
        if no_cut(s, i, n.len() as int) && ci_match(s, i, n) {
            if a % 2 == 1 {
                let k = creole_kind(a);
                let p = last_of_kind(st, k, st.len() as int);
                lemma_last_of_kind_bounds(st, k, st.len() as int);
                if p >= 0 {
                    assert forall|q: int| 0 <= q < st.remove(p).len() implies entry_ok(s, #[trigger] st.remove(p)[q]) by {
                        if q < p {
                            assert(st.remove(p)[q] == st[q]);
                        } else {
                            assert(st.remove(p)[q] == st[q + 1]);
                        }
                    }
                }
            } else if a < 8 {
                let e = (creole_kind(a), i as usize, (i + n.len()) as usize);
                assert(entry_ok(s, e));
                assert forall|q: int| 0 <= q < st.push(e).len() implies entry_ok(s, #[trigger] st.push(e)[q]) by {
                    if q < st.len() {
                        assert(st.push(e)[q] == st[q]);
                    }
                }
            } else {
                let g = first_gt_from(s, i);
                lemma_first_gt_props(s, i);
                if g < s.len() {
                    assert(g >= i + n.len()) by {
                        if g < i + n.len() {
                            assert(lower_code(s[i + (g - i)]) == n[g - i] as u32);
                            lemma_lower_gt(s[g]);
                            vstd::utf8::char_u32_cast(n[g - i], n[g - i] as u32);
                            vstd::utf8::char_u32_cast('>', '>' as u32);
                            assert(n[g - i] != '>');
                        }
                    }
                    let e = (creole_kind(a), i as usize, (g + 1) as usize);
                    assert(entry_ok(s, e));
                    assert forall|q: int| 0 <= q < st.push(e).len() implies entry_ok(s, #[trigger] st.push(e)[q]) by {
                        if q < st.len() {
                            assert(st.push(e)[q] == st[q]);
                        }
                    }
                } else {
                    lemma_attempts_entries(s, i, st, a + 1);
                }
            }
        } else if no_cut(s, i, n.len() as int) {
            lemma_attempts_entries(s, i, st, a + 1);
        }
    }
}

proof fn lemma_scan_entries(s: Seq<char>, i: int, st: Seq<OpenTag>)
    requires
        0 <= i <= s.len(),
        s.len() <= usize::MAX,
        entries_ok(s, st),
        stack_in_bounds(s, st),
    ensures
        creole_scan(s, i, st) matches Some(st2) ==> entries_ok(s, st2),
    decreases s.len() - i,
{
    if i < s.len() {
        lemma_attempts_entries(s, i, st, 0);
        lemma_attempts_advance(s, i, st, 0);
        match creole_attempts_from(s, i, st, 0) {
            Some(None) => lemma_scan_entries(s, i + 1, st),
            Some(Some((j, st2))) => lemma_scan_entries(s, j, st2),
            None => {},
        }
    }
}


/// The second character of tag text number `a`.
pub open spec fn needle_c1(a: int) -> char {
    if a % 2 == 1 {
        '/'
    } else if a == 0 || a == 8 {
        'b'
    } else if a == 2 {
        'i'
    } else if a == 4 {
        'u'
    } else if a == 6 || a == 14 {
        's'
    } else if a == 10 {
        'f'
    } else {
        'c'
    }
}

/// The third character of tag text number `a`.
pub open spec fn needle_c2(a: int) -> char {
    if a == 0 || a == 2 || a == 4 || a == 6 {
        '>'
    } else if a == 1 || a == 9 {
        'b'
    } else if a == 3 || a == 14 {
        'i'
    } else if a == 5 {
        'u'
    } else if a == 7 || a == 15 {
        's'
    } else if a == 8 {
        'a'
    } else if a == 10 || a == 12 {
        'o'
    } else if a == 11 {
        'f'
    } else {
        'c'
    }
}

proof fn lemma_needle_chars(a: int)
    requires
        0 <= a < 16,
    ensures
        creole_needle(a).len() >= 3,
        creole_needle(a)[0] == '<',
        creole_needle(a)[1] == needle_c1(a),
        creole_needle(a)[2] == needle_c2(a),
        forall|m: int| 0 <= m < creole_needle(a).len() ==> (#[trigger] creole_needle(a)[m] as u32) < 0x80,
{
    let n = creole_needle(a);
    assert forall|m: int| 0 <= m < n.len() implies (#[trigger] n[m] as u32) < 0x80 by {
        assert(('<' as u32) < 0x80 && ('>' as u32) < 0x80 && ('/' as u32) < 0x80 && (':' as u32) < 0x80);
        assert(('a' as u32) < 0x80 && ('b' as u32) < 0x80 && ('c' as u32) < 0x80 && ('e' as u32) < 0x80);
        assert(('f' as u32) < 0x80 && ('i' as u32) < 0x80 && ('k' as u32) < 0x80 && ('l' as u32) < 0x80);
        assert(('n' as u32) < 0x80 && ('o' as u32) < 0x80 && ('r' as u32) < 0x80 && ('s' as u32) < 0x80);
        assert(('t' as u32) < 0x80 && ('u' as u32) < 0x80 && ('z' as u32) < 0x80);
    }
}

proof fn lemma_open_index(k: CreoleTag)
    ensures
        0 <= open_index(k) < 16,
        open_index(k) % 2 == 0,
        creole_kind(open_index(k)) == k,
{
}

/// The text of the first `k` open tags.
pub open spec fn tags_prefix(s: Seq<char>, st: Seq<OpenTag>, k: int) -> Seq<char> {
    open_tags_text(s, st.take(k))
}

proof fn lemma_tags_prefix_step(s: Seq<char>, st: Seq<OpenTag>, k: int)
    requires
        0 <= k < st.len(),
    ensures
        tags_prefix(s, st, k + 1) == tags_prefix(s, st, k) + open_tag_text(s, st[k]),
{
    assert(st.take(k + 1).drop_last() =~= st.take(k));
    assert(st.take(k + 1).last() == st[k]);
}

proof fn lemma_tags_prefix_of(s: Seq<char>, st: Seq<OpenTag>, k: int, m: int)
    requires
        0 <= k <= m <= st.len(),
    ensures
        tags_prefix(s, st, k).len() <= tags_prefix(s, st, m).len(),
        tags_prefix(s, st, m).subrange(0, tags_prefix(s, st, k).len() as int) == tags_prefix(s, st, k),
    decreases m - k,
{
    if k < m {
        lemma_tags_prefix_of(s, st, k, m - 1);
        lemma_tags_prefix_step(s, st, m - 1);
        let a = tags_prefix(s, st, m - 1);
        let b = tags_prefix(s, st, k);
        assert((a + open_tag_text(s, st[m - 1])).subrange(0, b.len() as int) =~= a.subrange(0, b.len() as int));
    } else {
        assert(tags_prefix(s, st, m).subrange(0, tags_prefix(s, st, m).len() as int) =~= tags_prefix(s, st, m));
    }
}

/// The stack that scanning the tag texts rebuilds: the same kinds, at the
/// positions of their texts.
pub open spec fn rebuilt_stack(s: Seq<char>, st: Seq<OpenTag>, k: int) -> Seq<OpenTag> {
    Seq::new(k as nat, |j: int| (st[j].0, tags_prefix(s, st, j).len() as usize, tags_prefix(s, st, j + 1).len() as usize))
}

proof fn lemma_open_tag_text_facts(s: Seq<char>, e: OpenTag)
    requires
        entry_ok(s, e),
    ensures
        open_tag_text(s, e).len() >= creole_needle(open_index(e.0)).len(),
        open_tag_text(s, e).len() >= 3,
        open_tag_text(s, e)[0] == '<',
        ci_match(open_tag_text(s, e), 0, creole_needle(open_index(e.0))),
        open_index(e.0) < 8 ==> open_tag_text(s, e) == creole_needle(open_index(e.0)),
        open_index(e.0) < 8 ==> all_ascii(open_tag_text(s, e)),
        open_index(e.0) >= 8 ==> {
            let t = open_tag_text(s, e);
            &&& t == s.subrange(e.1 as int, e.2 as int)
            &&& t.len() >= 7
            &&& t[t.len() - 1] == '>'
            &&& forall|m: int| 0 <= m < t.len() - 1 ==> t[m] != '>'
        },
{
    let o = open_index(e.0);
    let n = creole_needle(o);
    let t = open_tag_text(s, e);
    lemma_open_index(e.0);
    lemma_needle_chars(o);
    if o < 8 {
        assert(t =~= n) by {
            if o == 0 {
                assert(n =~= seq!['<', 'b', '>']);
            } else if o == 2 {
                assert(n =~= seq!['<', 'i', '>']);
            } else if o == 4 {
                assert(n =~= seq!['<', 'u', '>']);
            } else {
                assert(n =~= seq!['<', 's', '>']);
            }
        }
        assert forall|m: int| 0 <= m < n.len() implies lower_code(#[trigger] t[0 + m]) == n[m] as u32 by {
            assert((n[m] as u32) < 0x80);
            assert(t[m] == n[m]);
            if 65 <= (n[m] as u32) <= 90 {
                assert(n[m] == '<' || n[m] == '>' || n[m] == 'b' || n[m] == 'i' || n[m] == 'u' || n[m] == 's');
            }
        }
        assert forall|k: int| 0 <= k < t.len() implies (#[trigger] t[k] as u32) < 0x80 by {
            assert(t[k] == n[k]);
        }
    } else {
        assert(t =~= s.subrange(e.1 as int, e.2 as int));
        assert forall|m: int| 0 <= m < n.len() implies lower_code(#[trigger] t[0 + m]) == n[m] as u32 by {
            assert(t[m] == s[e.1 + m]);
        }
        assert(lower_code(t[0int + 0int]) == n[0] as u32);
        assert(('<' as u32) == 60u32);
        vstd::utf8::char_u32_cast(t[0], t[0] as u32);
        vstd::utf8::char_u32_cast('<', '<' as u32);
    }
}

/// A character of one byte.
proof fn lemma_ascii_len(c: char)
    requires
        (c as u32) < 0x80,
    ensures
        utf8_len(c) == 1,
{
}

/// Walking `l` bytes from `p` over one-byte characters, ending at most one
/// byte past them on a one-byte character or the end, cuts nothing.
proof fn lemma_no_cut_ascii_run(r: Seq<char>, p: int, q: int, l: int)
    requires
        0 <= p,
        0 <= q,
        p + q <= r.len(),
        forall|x: int| 0 <= x < q ==> utf8_len(#[trigger] r[p + x]) == 1,
        l <= q + 1,
        p + q < r.len() ==> utf8_len(r[p + q]) == 1,
    ensures
        no_cut(r, p, l),
    decreases q,
{
    if l > 0 && p < r.len() {
        if q > 0 {
            assert(utf8_len(r[p + 0]) == 1);
            assert forall|x: int| 0 <= x < q - 1 implies utf8_len(#[trigger] r[(p + 1) + x]) == 1 by {
                assert(utf8_len(r[p + (x + 1)]) == 1);
            }
            lemma_no_cut_ascii_run(r, p + 1, q - 1, l - 1);
        } else {
            assert(no_cut(r, p + 1, l - 1));
        }
    }
}

/// A walk of `l` bytes that cuts nothing in `s` from `i` cuts nothing in `r`
/// from `p` when both agree on `q` characters, and the walk ends at most one
/// byte past them, on a one-byte character of `r` or its end.
proof fn lemma_no_cut_transfer(s: Seq<char>, i: int, r: Seq<char>, p: int, q: int, l: int)
    requires
        no_cut(s, i, l),
        0 <= i,
        0 <= p,
        0 <= q,
        i + q <= s.len(),
        p + q <= r.len(),
        forall|x: int| 0 <= x < q ==> s[i + x] == #[trigger] r[p + x],
        l <= q + 1,
        p + q < r.len() ==> utf8_len(r[p + q]) == 1,
    ensures
        no_cut(r, p, l),
    decreases q,
{
    if l > 0 && p < r.len() {
        if q > 0 {
            assert(s[i + 0] == r[p + 0]);
            assert(utf8_len(s[i]) >= 1);
            assert forall|x: int| 0 <= x < q - 1 implies s[(i + 1) + x] == #[trigger] r[(p + 1) + x] by {
                assert(s[i + (x + 1)] == r[p + (x + 1)]);
            }
            lemma_no_cut_transfer(s, i + 1, r, p + 1, q - 1, l - utf8_len(s[i]));
        } else {
            assert(no_cut(r, p + 1, l - 1));
        }
    }
}

/// No tag text is longer than 8 characters.
proof fn lemma_needle_len(a: int)
    requires
        0 <= a < 16,
    ensures
        creole_needle(a).len() <= 8,
        a <= 6 ==> creole_needle(a).len() <= 4,
{
}

proof fn lemma_first_gt_at(r: Seq<char>, i: int, j: int)
    requires
        0 <= i <= j < r.len(),
        r[j] == '>',
        forall|m: int| i <= m < j ==> r[m] != '>',
    ensures
        first_gt_from(r, i) == j,
    decreases j - i,
{
    if i < j {
        lemma_first_gt_at(r, i + 1, j);
    }
}

/// At the start of a tag text `t` inside `r`, the tag texts tried before the
/// one of its kind do not match, and that one opens it.
proof fn lemma_attempts_at_tag(r: Seq<char>, p: int, t: Seq<char>, k: CreoleTag, st: Seq<OpenTag>, a: int)
    requires
        forall|a2: int| 0 <= a2 <= open_index(k) ==> #[trigger] no_cut(r, p, creole_needle(a2).len() as int),
        r.len() <= usize::MAX,
        0 <= p,
        p + t.len() <= r.len(),
        forall|x: int| 0 <= x < t.len() ==> r[p + x] == #[trigger] t[x],
        t.len() >= creole_needle(open_index(k)).len(),
        ci_match(t, 0, creole_needle(open_index(k))),
        open_index(k) < 8 ==> t.len() == creole_needle(open_index(k)).len(),
        open_index(k) >= 8 ==> t[t.len() - 1] == '>' && forall|m: int| 0 <= m < t.len() - 1 ==> t[m] != '>',
        0 <= a <= open_index(k),
    ensures
        creole_attempts_from(r, p, st, a) == Some(Some((p + t.len(), st.push((k, p as usize, (p + t.len()) as usize))))),
    decreases open_index(k) - a,
{
    let o = open_index(k);
    lemma_open_index(k);
    lemma_needle_chars(o);
    lemma_needle_chars(a);
    let n = creole_needle(a);
    let no = creole_needle(o);
    assert(no_cut(r, p, n.len() as int));
    assert(ci_match(r, p, no)) by {
        assert forall|m: int| 0 <= m < no.len() implies lower_code(#[trigger] r[p + m]) == no[m] as u32 by {
            assert(r[p + m] == t[m]);
            assert(lower_code(t[0 + m]) == no[m] as u32);
        }
    }
    if a < o {
        assert(!ci_match(r, p, n)) by {
            if ci_match(r, p, n) {
                assert(lower_code(r[p + 1]) == n[1] as u32);
                assert(lower_code(r[p + 1]) == no[1] as u32);
                assert(lower_code(r[p + 2]) == n[2] as u32);
                assert(lower_code(r[p + 2]) == no[2] as u32);
                vstd::utf8::char_u32_cast(n[1], n[1] as u32);
                vstd::utf8::char_u32_cast(no[1], no[1] as u32);
                vstd::utf8::char_u32_cast(n[2], n[2] as u32);
                vstd::utf8::char_u32_cast(no[2], no[2] as u32);
                assert(needle_c1(a) != needle_c1(o) || needle_c2(a) != needle_c2(o));
            }
        }
        lemma_attempts_at_tag(r, p, t, k, st, a + 1);
    } else {
        assert(a == o);
        assert(creole_kind(o) == k);
        if o >= 8 {
            assert forall|m: int| p <= m < p + t.len() - 1 implies r[m] != '>' by {
                assert(r[p + (m - p)] == t[m - p]);
            }
            assert(r[p + (t.len() - 1)] == t[t.len() - 1]);
            lemma_first_gt_at(r, p, p + t.len() - 1);
        }
    }
}


proof fn lemma_tag_piece(s: Seq<char>, st: Seq<OpenTag>, k: int)
    requires
        0 <= k < st.len(),
    ensures
        ({
            let r = tags_prefix(s, st, st.len() as int);
            let p = tags_prefix(s, st, k).len() as int;
            let t = open_tag_text(s, st[k]);
            &&& p + t.len() == tags_prefix(s, st, k + 1).len()
            &&& p + t.len() <= r.len()
            &&& forall|x: int| 0 <= x < t.len() ==> r[p + x] == #[trigger] t[x]
        }),
{
    let r = tags_prefix(s, st, st.len() as int);
    let p = tags_prefix(s, st, k).len() as int;
    let t = open_tag_text(s, st[k]);
    lemma_tags_prefix_step(s, st, k);
    lemma_tags_prefix_of(s, st, k + 1, st.len() as int);
    let b = tags_prefix(s, st, k + 1);
    assert forall|x: int| 0 <= x < t.len() implies r[p + x] == #[trigger] t[x] by {
        assert(r.subrange(0, b.len() as int)[p + x] == b[p + x]);
        assert(b[p + x] == t[x]);
    }
}

proof fn lemma_rescan(s: Seq<char>, st: Seq<OpenTag>, k: int)
    requires
        entries_ok(s, st),
        tags_prefix(s, st, st.len() as int).len() <= usize::MAX,
        0 <= k <= st.len(),
    ensures
        creole_scan(tags_prefix(s, st, st.len() as int), tags_prefix(s, st, k).len() as int, rebuilt_stack(s, st, k))
            == Some(rebuilt_stack(s, st, st.len() as int)),
    decreases st.len() - k,
{
    let m = st.len() as int;
    let r = tags_prefix(s, st, m);
    if k == m {
        return;
    }
    lemma_tag_piece(s, st, k);
    lemma_open_tag_text_facts(s, st[k]);
    let p = tags_prefix(s, st, k).len() as int;
    let t = open_tag_text(s, st[k]);
    let e = st[k];
    let o = open_index(e.0);
    lemma_needle_chars(o);
    lemma_open_index(e.0);
    // the character after the tag text starts the next one, or the text ends
    if k + 1 < m {
        lemma_tag_piece(s, st, k + 1);
        lemma_open_tag_text_facts(s, st[k + 1]);
        assert(r[(p + t.len()) + 0] == open_tag_text(s, st[k + 1])[0]);
        assert(('<' as u32) < 0x80);
    } else {
        lemma_tags_prefix_step(s, st, k);
        assert(p + t.len() == r.len());
    }
    // no tag text tried up to the one of its kind cuts a character
    assert forall|a2: int| 0 <= a2 <= o implies #[trigger] no_cut(r, p, creole_needle(a2).len() as int) by {
        lemma_needle_len(a2);
        if o < 8 {
            assert forall|x: int| 0 <= x < t.len() implies utf8_len(#[trigger] r[p + x]) == 1 by {
                assert((t[x] as u32) < 0x80);
            }
            lemma_no_cut_ascii_run(r, p, t.len() as int, creole_needle(a2).len() as int);
        } else {
            assert(no_cut(s, e.1 as int, creole_needle(a2).len() as int));
            assert forall|x: int| 0 <= x < t.len() implies s[e.1 + x] == #[trigger] r[p + x] by {
                assert(t[x] == s[e.1 + x]);
            }
            lemma_no_cut_transfer(s, e.1 as int, r, p, t.len() as int, creole_needle(a2).len() as int);
        }
    }
    lemma_attempts_at_tag(r, p, t, st[k].0, rebuilt_stack(s, st, k), 0);
    assert(rebuilt_stack(s, st, k).push((st[k].0, p as usize, (p + t.len()) as usize)) =~= rebuilt_stack(
        s,
        st,
        k + 1,
    ));
    lemma_rescan(s, st, k + 1);
}

proof fn lemma_rebuilt_text(s: Seq<char>, st: Seq<OpenTag>, k: int)
    requires
        tags_prefix(s, st, st.len() as int).len() <= usize::MAX,
        0 <= k <= st.len(),
    ensures
        open_tags_text(tags_prefix(s, st, st.len() as int), rebuilt_stack(s, st, k)) == tags_prefix(s, st, k),
    decreases k,
{
    let r = tags_prefix(s, st, st.len() as int);
    if k == 0 {
        assert(st.take(0) =~= Seq::<OpenTag>::empty());
        assert(rebuilt_stack(s, st, 0) =~= Seq::<OpenTag>::empty());
    } else {
        lemma_rebuilt_text(s, st, k - 1);
        assert(rebuilt_stack(s, st, k).drop_last() =~= rebuilt_stack(s, st, k - 1));
        lemma_tag_piece(s, st, k - 1);
        lemma_tags_prefix_step(s, st, k - 1);
        let p = tags_prefix(s, st, k - 1).len() as int;
        let t = open_tag_text(s, st[k - 1]);
        assert(open_tag_text(r, rebuilt_stack(s, st, k).last()) == t) by {
            assert(r.subrange(p, p + t.len()) =~= t);
        }
    }
}

/// The tags that a line leaves open, written out, leave exactly themselves
/// open: on every line whose scan succeeds, the unclosed-tag prefix of the
/// prefix is found without cutting a character and is the prefix itself.
pub proof fn lemma_unclosed_prefix_is_fixed_point(s: Seq<char>)
    requires
        s.len() <= usize::MAX,
        creole_scan(s, 0, Seq::empty()) matches Some(st) && open_tags_text(s, st).len() <= usize::MAX,
    ensures
        ({
            let r = open_tags_text(s, creole_scan(s, 0, Seq::empty())->0);
            creole_scan(r, 0, Seq::empty()) matches Some(st2) && open_tags_text(r, st2) == r
        }),
{
    let st = creole_scan(s, 0, Seq::empty())->0;
    lemma_scan_entries(s, 0, Seq::empty());
    let m = st.len() as int;
    assert(st.take(m) =~= st);
    assert(st.take(0) =~= Seq::<OpenTag>::empty());
    assert(rebuilt_stack(s, st, 0) =~= Seq::<OpenTag>::empty());
    lemma_rescan(s, st, 0);
    lemma_rebuilt_text(s, st, m);
}

} // verus!

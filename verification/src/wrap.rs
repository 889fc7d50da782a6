//! Word wrapping of note text.
//!
//! A note line that is too wide is broken at single spaces, greedily: words
//! are added to the current line while the line still fits.  Whether a piece
//! of text fits is decided by a measure that the caller supplies (the width of
//! the rendered text against the note's maximal width); a bullet item (`* `)
//! is measured without its bullet, against the width left beside the bullet.
//! Creole tags left open at the end of a wrapped line are opened again at the
//! start of the next one.

use vstd::prelude::*;
use crate::markup::{creole_scan, open_tags_text, try_collect_unclosed_creole_prefix};
use crate::text::{chars_of, is_white_exec, string_of, white_prefix_end, lemma_white_prefix_bounds};

verus! {

/// The measure can answer `false` on some string whose characters are `s`
/// (as a bullet item or not).
pub open spec fn rejects<F: Fn(&str, bool) -> bool>(fits: F, s: Seq<char>, bullet: bool) -> bool {
    exists|t: &str| t@ == s && #[trigger] fits.ensures((t, bullet), false)
}

/// The text `s` fits: the measure never rejects it.
pub open spec fn accepts<F: Fn(&str, bool) -> bool>(fits: F, s: Seq<char>, bullet: bool) -> bool {
    !rejects(fits, s, bullet)
}

/// The measure can be called on any text, and its answer depends only on the
/// characters of the text and on the bullet flag.
pub open spec fn is_measure<F: Fn(&str, bool) -> bool>(fits: F) -> bool {
    &&& forall|t: &str, b: bool| #[trigger] fits.requires((t, b))
    &&& forall|t1: &str, t2: &str, b: bool, r1: bool, r2: bool|
        t1@ == t2@ && #[trigger] fits.ensures((t1, b), r1) && #[trigger] fits.ensures((t2, b), r2)
            ==> r1 == r2
}


/// The position of the first `c` at or after `i`, or `s.len()`.
pub open spec fn first_from(s: Seq<char>, c: char, i: int) -> int
    decreases s.len() - i,
{
    if i < 0 || i >= s.len() {
        s.len() as int
    } else if s[i] == c {
        i
    } else {
        first_from(s, c, i + 1)
    }
}

/// `first_from` finds the first `c` at or after `i`.
pub proof fn lemma_first_from_bounds(s: Seq<char>, c: char, i: int)
    requires
        0 <= i <= s.len(),
    ensures
        i <= first_from(s, c, i) <= s.len(),
        forall|k: int| i <= k < first_from(s, c, i) ==> s[k] != c,
        first_from(s, c, i) < s.len() ==> s[first_from(s, c, i)] == c,
    decreases s.len() - i,
{
    if i < s.len() && s[i] != c {
        lemma_first_from_bounds(s, c, i + 1);
    }
}

/// Lines joined with `\n` between them.
pub open spec fn join_lines(ls: Seq<Seq<char>>) -> Seq<char>
    decreases ls.len(),
{
    if ls.len() == 0 {
        Seq::empty()
    } else if ls.len() == 1 {
        ls[0]
    } else {
        join_lines(ls.drop_last()) + seq!['\n'] + ls.last()
    }
}

/// The text of a finished wrapped line: the first line of a bullet item gets
/// its bullet back.
pub open spec fn flushed_line(cur: Seq<char>, first: bool, bullet: bool) -> Seq<char> {
    if first && bullet {
        seq!['*', ' '] + cur
    } else {
        cur
    }
}

/// The state of the greedy wrap of one line: the finished lines, the line
/// being filled, the tags carried over from the last finished line, and
/// whether no line of a bullet item has been finished yet.
pub type WrapState = (Seq<Seq<char>>, Seq<char>, Seq<char>, bool);

/// One word `w` added to the state: it starts the line when the line is
/// empty, joins it when the line with it still fits, and otherwise ends the
/// line and starts the next one (behind the tags left open).  `None` when
/// looking for those tags would cut a character in two.
pub open spec fn wrap_step<F: Fn(&str, bool) -> bool>(
    fits: F,
    bullet: bool,
    st: WrapState,
    w: Seq<char>,
) -> Option<WrapState> {
    let (lines, cur, carry, first) = st;
    if cur.len() == 0 {
        Some((lines, carry + w, carry, first))
    } else if accepts(fits, cur + seq![' '] + w, bullet) {
        Some((lines, cur + seq![' '] + w, carry, first))
    } else {
        let fl = flushed_line(cur, first, bullet);
        match creole_scan(fl, 0, Seq::empty()) {
            None => None,
            Some(open) => {
                let cr = open_tags_text(fl, open);
                Some((lines.push(fl), cr + w, cr, first && !bullet))
            },
        }
    }
}

/// The lines of the wrapped state once all words are placed.
pub open spec fn wrap_finish(bullet: bool, st: WrapState) -> Seq<Seq<char>> {
    let (lines, cur, carry, first) = st;
    if cur.len() > 0 {
        lines.push(flushed_line(cur, first, bullet))
    } else {
        lines
    }
}

/// Greedy wrap of the words of `c` (the runs between single spaces) from
/// position `i` on.
pub open spec fn wrap_words<F: Fn(&str, bool) -> bool>(
    fits: F,
    bullet: bool,
    c: Seq<char>,
    i: int,
    st: WrapState,
) -> Option<Seq<Seq<char>>>
    decreases c.len() - i,
{
    if i < 0 || i > c.len() {
        None
    } else {
        let e = first_from(c, ' ', i);
        match wrap_step(fits, bullet, st, c.subrange(i, e)) {
            None => None,
            Some(st2) => if i <= e < c.len() {
                wrap_words(fits, bullet, c, e + 1, st2)
            } else {
                Some(wrap_finish(bullet, st2))
            },
        }
    }
}

/// Whether `l` is a bullet item: after its leading white space it starts
/// with `* `.
pub open spec fn is_bullet(l: Seq<char>) -> bool {
    let p = white_prefix_end(l, 0);
    &&& p + 1 < l.len()
    &&& l[p] == '*'
    &&& l[p + 1] == ' '
}

/// The part of `l` that is measured and wrapped: for a bullet item, what
/// follows the bullet.
pub open spec fn line_content(l: Seq<char>) -> Seq<char> {
    if is_bullet(l) {
        l.skip(white_prefix_end(l, 0) + 2)
    } else {
        l
    }
}

/// The wrapped lines of one line of the note: the line itself when its
/// content fits, else the greedy wrap of its content.
pub open spec fn wrap_line<F: Fn(&str, bool) -> bool>(fits: F, l: Seq<char>) -> Option<
    Seq<Seq<char>>,
> {
    let bullet = is_bullet(l);
    if accepts(fits, line_content(l), bullet) {
        Some(seq![l])
    } else {
        wrap_words(fits, bullet, line_content(l), 0, (Seq::empty(), Seq::empty(), Seq::empty(), true))
    }
}

/// The wrapped lines of the lines of `t` (split at `\n`) from position `i`
/// on, after the lines `acc`.
pub open spec fn wrap_text_from<F: Fn(&str, bool) -> bool>(
    fits: F,
    t: Seq<char>,
    i: int,
    acc: Seq<Seq<char>>,
) -> Option<Seq<Seq<char>>>
    decreases t.len() - i,
{
    if i < 0 || i > t.len() {
        None
    } else {
        let e = first_from(t, '\n', i);
        match wrap_line(fits, t.subrange(i, e)) {
            None => None,
            Some(ls) => if i <= e < t.len() {
                wrap_text_from(fits, t, e + 1, acc + ls)
            } else {
                Some(acc + ls)
            },
        }
    }
}

/// The wrapped note text; `None` when looking for the tags left open at the
/// end of a wrapped line would cut a character in two.
pub open spec fn wrap_note_spec<F: Fn(&str, bool) -> bool>(fits: F, t: Seq<char>) -> Option<
    Seq<char>,
> {
    match wrap_text_from(fits, t, 0, Seq::empty()) {
        None => None,
        Some(ls) => Some(join_lines(ls)),
    }
}

proof fn lemma_call_decides<F: Fn(&str, bool) -> bool>(fits: F, t: &str, b: bool, r: bool)
    requires
        is_measure(fits),
        fits.ensures((t, b), r),
    ensures
        accepts(fits, t@, b) == r,
{
    if r && rejects(fits, t@, b) {
        let t2 = choose|t2: &str| t2@ == t@ && #[trigger] fits.ensures((t2, b), false);
        assert(fits.ensures((t2, b), false));
    }
    if !r {
        assert(fits.ensures((t, b), false));
    }
}


/// The characters `v[a..b]`.
fn slice_of(v: &Vec<char>, a: usize, b: usize) -> (r: Vec<char>)
    requires
        a <= b <= v.len(),
    ensures
        r@ == v@.subrange(a as int, b as int),
{
    let mut r: Vec<char> = Vec::new();
    let mut k = a;
    while k < b
        invariant
            a <= k <= b <= v.len(),
            r@ == v@.subrange(a as int, k as int),
        decreases b - k,
    {
        r.push(v[k]);
        k += 1;
        assert(r@ =~= v@.subrange(a as int, k as int));
    }
    r
}

/// Appends the characters of `w` to `v`.
fn append_chars(v: &mut Vec<char>, w: &Vec<char>)
    ensures
        final(v)@ == old(v)@ + w@,
{
    let mut k: usize = 0;
    while k < w.len()
        invariant
            k <= w.len(),
            v@ == old(v)@ + w@.subrange(0, k as int),
        decreases w.len() - k,
    {
        v.push(w[k]);
        k += 1;
        assert(v@ =~= old(v)@ + w@.subrange(0, k as int));
    }
    assert(w@.subrange(0, w.len() as int) =~= w@);
}

/// The position of the first `c` at or after `i`, or `v.len()`.
fn first_from_exec(v: &Vec<char>, c: char, i: usize) -> (e: usize)
    requires
        i <= v.len(),
    ensures
        e == first_from(v@, c, i as int),
{
    let mut e = i;
    while e < v.len() && v[e] != c
        invariant
            i <= e <= v.len(),
            first_from(v@, c, e as int) == first_from(v@, c, i as int),
        decreases v.len() - e,
    {
        e += 1;
    }
    e
}

proof fn lemma_join_push(ls: Seq<Seq<char>>, l: Seq<char>)
    ensures
        join_lines(ls.push(l)) == if ls.len() == 0 {
            l
        } else {
            join_lines(ls) + seq!['\n'] + l
        },
{
    assert(ls.push(l).drop_last() =~= ls);
}

/// Appends the line `l` to the joined text `out`; `any` tells whether `out`
/// already holds a line.
fn emit(out: &mut String, any: &mut bool, l: &Vec<char>)
    ensures
        final(out)@ == (if *old(any) {
            old(out)@.push('\n')
        } else {
            old(out)@
        }) + l@,
        *final(any),
{
    if *any {
        out.push('\n');
    }
    crate::text::push_range(out, l, 0, l.len());
    assert(l@.subrange(0, l.len() as int) =~= l@);
    *any = true;
}

/// The line `cur` as it is finished.
fn flushed_exec(cur: &Vec<char>, first: bool, bullet: bool) -> (r: Vec<char>)
    ensures
        r@ == flushed_line(cur@, first, bullet),
{
    if first && bullet {
        let mut r = vec!['*', ' '];
        append_chars(&mut r, cur);
        r
    } else {
        cur.clone()
    }
}

/// The position of the first non-white character of `l`.
fn white_prefix_exec(l: &Vec<char>) -> (p: usize)
    ensures
        p == white_prefix_end(l@, 0),
{
    let mut p: usize = 0;
    while p < l.len() && is_white_exec(l[p])
        invariant
            p <= l.len(),
            white_prefix_end(l@, p as int) == white_prefix_end(l@, 0),
        decreases l.len() - p,
    {
        p += 1;
    }
    p
}

/// Wraps the note line `l` and appends its wrapped lines to the joined text
/// `out` (which holds the lines `lines0`); `false` when looking for the tags
/// left open at the end of a wrapped line would cut a character in two.
#[verifier::rlimit(40)]
fn wrap_line_into<F: Fn(&str, bool) -> bool>(
    fits: &F,
    l: &Vec<char>,
    out: &mut String,
    any: &mut bool,
    Ghost(lines0): Ghost<Seq<Seq<char>>>,
) -> (ok: bool)
    requires
        is_measure(*fits),
        old(out)@ == join_lines(lines0),
        *old(any) == (lines0.len() > 0),
    ensures
        ok == wrap_line(*fits, l@) is Some,
        ok ==> final(out)@ == join_lines(lines0 + wrap_line(*fits, l@)->0),
        ok ==> *final(any) == ((lines0 + wrap_line(*fits, l@)->0).len() > 0),
{
    let p = white_prefix_exec(l);
    proof {
        lemma_white_prefix_bounds(l@, 0);
    }
    let bullet = p < l.len() && p + 1 < l.len() && l[p] == '*' && l[p + 1] == ' ';
    let content = if bullet {
        slice_of(l, p + 2, l.len())
    } else {
        l.clone()
    };
    assert(content@ == line_content(l@));
    if measure(fits, &content, bullet) {
        proof {
            lemma_join_push(lines0, l@);
            assert(lines0 + seq![l@] =~= lines0.push(l@));
        }
        emit(out, any, l);
        return true;
    }
    let ghost c = content@;
    let ghost target = wrap_words(*fits, bullet, c, 0, (Seq::empty(), Seq::empty(), Seq::empty(), true));
    let ghost mut glines: Seq<Seq<char>> = Seq::empty();
    let mut cur: Vec<char> = Vec::new();
    let mut carry: Vec<char> = Vec::new();
    let mut first = true;
    let mut i: usize = 0;
    let mut done = false;
    assert(lines0 + glines =~= lines0);
    while !done
        invariant
            is_measure(*fits),
            c == content@,
            i <= content.len(),
            target == wrap_words(*fits, bullet, c, 0, (Seq::empty(), Seq::empty(), Seq::empty(), true)),
            target == wrap_line(*fits, l@),
            !done ==> wrap_words(*fits, bullet, c, i as int, (glines, cur@, carry@, first)) == target,
            done ==> target == Some(wrap_finish(bullet, (glines, cur@, carry@, first))),
            out@ == join_lines(lines0 + glines),
            *any == ((lines0 + glines).len() > 0),
        decreases content.len() - i + (if done { 0int } else { 1int }),
    {
        let e = first_from_exec(&content, ' ', i);
        proof {
            lemma_first_from_bounds(c, ' ', i as int);
        }
        let w = slice_of(&content, i, e);
        let ghost st = (glines, cur@, carry@, first);
        if cur.len() == 0 {
            let mut nc = carry.clone();
            append_chars(&mut nc, &w);
            cur = nc;
        } else {
            let mut cand = cur.clone();
            cand.push(' ');
            append_chars(&mut cand, &w);
            assert(cand@ =~= cur@ + seq![' '] + w@);
            if measure(fits, &cand, bullet) {
                cur = cand;
            } else {
                let fl = flushed_exec(&cur, first, bullet);
                let fs = string_of(&fl);
                match try_collect_unclosed_creole_prefix(fs.as_str()) {
                    None => {
                        assert(wrap_step(*fits, bullet, st, c.subrange(i as int, e as int)) is None);
                        return false;
                    },
                    Some(cr) => {
                        proof {
                            lemma_join_push(lines0 + glines, fl@);
                            assert((lines0 + glines).push(fl@) =~= lines0 + glines.push(fl@));
                        }
                        emit(out, any, &fl);
                        proof {
                            glines = glines.push(fl@);
                        }
                        carry = chars_of(cr.as_str());
                        let mut nc = carry.clone();
                        append_chars(&mut nc, &w);
                        cur = nc;
                        if bullet {
                            first = false;
                        }
                    },
                }
            }
        }
        assert(wrap_step(*fits, bullet, st, c.subrange(i as int, e as int)) == Some(
            (glines, cur@, carry@, first),
        ));
        if e < content.len() {
            i = e + 1;
        } else {
            done = true;
        }
    }
    if cur.len() > 0 {
        let fl = flushed_exec(&cur, first, bullet);
        proof {
            lemma_join_push(lines0 + glines, fl@);
            assert((lines0 + glines).push(fl@) =~= lines0 + glines.push(fl@));
        }
        emit(out, any, &fl);
        proof {
            glines = glines.push(fl@);
        }
    }
    true
}

/// Word-wraps note text, line by line (lines end at `\n`).
///
/// A line whose content fits the measure `fits` stays as it is.  Otherwise
/// its content (for a bullet item `* ...`, what follows the bullet, measured
/// as a bullet item) is cut into words at single spaces, and the words are
/// placed greedily: a word joins the current line, after a space, while the
/// line with it still fits, else the line is finished and the word starts
/// the next one, behind the creole tags that the finished line leaves open.
/// The first finished line of a bullet item gets its `* ` back.  The lines
/// are joined with `\n`.
///
/// `None` where looking for the open tags of a finished line would cut a
/// character in two.
pub fn try_wrap_note_text<F: Fn(&str, bool) -> bool>(text: &str, fits: F) -> (r: Option<String>)
    requires
        is_measure(fits),
    ensures
        match wrap_note_spec(fits, text@) {
            None => r is None,
            Some(w) => r matches Some(o) && o@ == w,
        },
{
    let t = chars_of(text);
    let mut out = String::new();
    let mut any = false;
    let ghost mut acc: Seq<Seq<char>> = Seq::empty();
    let mut i: usize = 0;
    let mut done = false;
    while !done
        invariant
            is_measure(fits),
            t@ == text@,
            i <= t.len(),
            !done ==> wrap_text_from(fits, t@, i as int, acc) == wrap_text_from(
                fits,
                t@,
                0,
                Seq::empty(),
            ),
            done ==> Some(acc) == wrap_text_from(fits, t@, 0, Seq::empty()),
            out@ == join_lines(acc),
            any == (acc.len() > 0),
        decreases t.len() - i + (if done { 0int } else { 1int }),
    {
        let e = first_from_exec(&t, '\n', i);
        proof {
            lemma_first_from_bounds(t@, '\n', i as int);
        }
        let l = slice_of(&t, i, e);
        let ok = wrap_line_into(&fits, &l, &mut out, &mut any, Ghost(acc));
        if !ok {
            return None;
        }
        proof {
            acc = acc + wrap_line(fits, l@)->0;
        }
        if e < t.len() {
            i = e + 1;
        } else {
            done = true;
        }
    }
    Some(out)
}

/// Word-wraps note text (see `try_wrap_note_text`), on text where no
/// finished line has its open tags cut a character.
pub fn wrap_note_text<F: Fn(&str, bool) -> bool>(text: &str, fits: F) -> (r: String)
    requires
        is_measure(fits),
        wrap_note_spec(fits, text@) is Some,
    ensures
        r@ == wrap_note_spec(fits, text@)->0,
{
    match try_wrap_note_text(text, fits) {
        Some(w) => w,
        None => String::new(),
    }
}

/// Calls the measure on the characters `v`.
fn measure<F: Fn(&str, bool) -> bool>(fits: &F, v: &Vec<char>, bullet: bool) -> (r: bool)
    requires
        is_measure(*fits),
    ensures
        r == accepts(*fits, v@, bullet),
{
    let s = string_of(v);
    let t = s.as_str();
    let r = fits(t, bullet);
    proof {
        lemma_call_decides(*fits, t, bullet, r);
    }
    r
}


proof fn lemma_wrap_all_fit_from<F: Fn(&str, bool) -> bool>(
    fits: F,
    t: Seq<char>,
    i: int,
    acc: Seq<Seq<char>>,
)
    requires
        forall|s: Seq<char>, b: bool| accepts(fits, s, b),
        0 <= i <= t.len(),
        i == 0 ==> acc.len() == 0,
        i > 0 ==> acc.len() > 0 && t[i - 1] == '\n' && join_lines(acc) == t.subrange(0, i - 1),
    ensures
        wrap_text_from(fits, t, i, acc) matches Some(ls) && join_lines(ls) == t,
    decreases t.len() - i,
{
    let e = first_from(t, '\n', i);
    lemma_first_from_bounds(t, '\n', i);
    let l = t.subrange(i, e);
    assert(accepts(fits, line_content(l), is_bullet(l)));
    assert(wrap_line(fits, l) == Some(seq![l]));
    let acc2 = acc + seq![l];
    assert(acc2 =~= acc.push(l));
    lemma_join_push(acc, l);
    if i == 0 {
        assert(join_lines(acc2) == l);
    } else {
        assert(join_lines(acc2) =~= t.subrange(0, e));
    }
    assert(join_lines(acc2) =~= t.subrange(0, e));
    if e < t.len() {
        lemma_wrap_all_fit_from(fits, t, e + 1, acc2);
    } else {
        assert(t.subrange(0, e) =~= t);
    }
}

/// With a measure that never answers `false`, wrapping gives the text back
/// unchanged.
pub proof fn lemma_wrap_unchanged_when_all_fit<F: Fn(&str, bool) -> bool>(fits: F, t: Seq<char>)
    requires
        forall|u: &str, b: bool, r: bool| #[trigger] fits.ensures((u, b), r) ==> r,
    ensures
        wrap_note_spec(fits, t) == Some(t),
{
    assert forall|s: Seq<char>, b: bool| accepts(fits, s, b) by {
        if rejects(fits, s, b) {
            let u = choose|u: &str| u@ == s && #[trigger] fits.ensures((u, b), false);
            assert(fits.ensures((u, b), false));
        }
    }
    lemma_wrap_all_fit_from(fits, t, 0, Seq::empty());
}

/// The state keeps the first finished line of a bullet item a bullet item.
pub open spec fn bullet_state_ok(bullet: bool, st: WrapState) -> bool {
    bullet ==> {
        &&& st.3 <==> st.0.len() == 0
        &&& st.0.len() > 0 ==> is_bullet(st.0[0])
    }
}

proof fn lemma_bullet_prefixed(cur: Seq<char>)
    ensures
        is_bullet(seq!['*', ' '] + cur),
{
    let s = seq!['*', ' '] + cur;
    assert(s[0] == '*' && s[1] == ' ');
    assert(('*' as u32) == 42u32);
    assert(!crate::text::is_white(s[0]));
    assert(white_prefix_end(s, 0) == 0);
}

proof fn lemma_wrap_words_bullet<F: Fn(&str, bool) -> bool>(
    fits: F,
    bullet: bool,
    c: Seq<char>,
    i: int,
    st: WrapState,
)
    requires
        bullet_state_ok(bullet, st),
    ensures
        wrap_words(fits, bullet, c, i, st) matches Some(ls) ==> (bullet && ls.len() > 0 ==> is_bullet(
            ls[0],
        )),
    decreases c.len() - i,
{
    if 0 <= i <= c.len() {
        let e = first_from(c, ' ', i);
        let w = c.subrange(i, e);
        let (lines, cur, carry, first) = st;
        if let Some(st2) = wrap_step(fits, bullet, st, w) {
            assert(bullet_state_ok(bullet, st2)) by {
                if bullet && cur.len() > 0 && !accepts(fits, cur + seq![' '] + w, bullet) {
                    let fl = flushed_line(cur, first, bullet);
                    if first {
                        lemma_bullet_prefixed(cur);
                        assert(lines.push(fl)[0] == fl);
                    } else {
                        assert(lines.push(fl)[0] == lines[0]);
                    }
                }
            }
            if i <= e < c.len() {
                lemma_wrap_words_bullet(fits, bullet, c, e + 1, st2);
            } else if bullet {
                let (l2, c2, cr2, f2) = st2;
                if c2.len() > 0 {
                    if f2 {
                        lemma_bullet_prefixed(c2);
                        assert(l2.push(flushed_line(c2, f2, bullet))[0] == flushed_line(c2, f2, bullet));
                    } else {
                        assert(l2.push(flushed_line(c2, f2, bullet))[0] == l2[0]);
                    }
                }
            }
        }
    }
}

/// The first line that a bullet item wraps into is still a bullet item.
pub proof fn lemma_wrapped_bullet_starts_with_bullet<F: Fn(&str, bool) -> bool>(fits: F, l: Seq<char>)
    requires
        is_bullet(l),
    ensures
        wrap_line(fits, l) matches Some(ls) ==> (ls.len() > 0 ==> is_bullet(ls[0])),
{
    lemma_wrap_words_bullet(
        fits,
        true,
        line_content(l),
        0,
        (Seq::empty(), Seq::empty(), Seq::empty(), true),
    );
}


/// Lines joined with a space between them.
pub open spec fn join_spaced(ls: Seq<Seq<char>>) -> Seq<char>
    decreases ls.len(),
{
    if ls.len() == 0 {
        Seq::empty()
    } else if ls.len() == 1 {
        ls[0]
    } else {
        join_spaced(ls.drop_last()) + seq![' '] + ls.last()
    }
}

/// The words of `c` (its runs between single spaces) are not empty: `c` does
/// not start or end with a space and holds no two spaces in a row.
pub open spec fn single_spaced(c: Seq<char>) -> bool {
    forall|k: int| 0 <= k < c.len() && #[trigger] c[k] == ' ' ==> 0 < k < c.len() - 1 && c[k + 1] != ' '
}

/// A wrapped line (without its bullet) fits the measure or holds a single
/// word.
pub open spec fn fits_or_one_word<F: Fn(&str, bool) -> bool>(fits: F, x: Seq<char>, bullet: bool) -> bool {
    accepts(fits, x, bullet) || !x.contains(' ')
}

/// The lines `lines` are the lines `ll` with the bullet put back on the
/// first one, for a bullet item.
pub open spec fn bulleted(ll: Seq<Seq<char>>, bullet: bool) -> Seq<Seq<char>> {
    if bullet && ll.len() > 0 {
        ll.update(0, seq!['*', ' '] + ll[0])
    } else {
        ll
    }
}

proof fn lemma_join_spaced_push(ll: Seq<Seq<char>>, x: Seq<char>)
    requires
        ll.len() > 0,
    ensures
        join_spaced(ll.push(x)) == join_spaced(ll) + seq![' '] + x,
{
    assert(ll.push(x).drop_last() =~= ll);
}

proof fn lemma_join_spaced_bulleted(ll: Seq<Seq<char>>)
    requires
        ll.len() > 0,
    ensures
        join_spaced(bulleted(ll, true)) == seq!['*', ' '] + join_spaced(ll),
    decreases ll.len(),
{
    let b = bulleted(ll, true);
    if ll.len() == 1 {
    } else {
        lemma_join_spaced_bulleted(ll.drop_last());
        assert(b.drop_last() =~= bulleted(ll.drop_last(), true));
        assert(b.last() == ll.last());
    }
}

proof fn lemma_wrap_words_keeps_words<F: Fn(&str, bool) -> bool>(
    fits: F,
    bullet: bool,
    c: Seq<char>,
    i: int,
    ll: Seq<Seq<char>>,
    cur: Seq<char>,
)
    requires
        !c.contains('<'),
        single_spaced(c),
        c.len() > 0,
        0 <= i < c.len(),
        i == 0 ==> ll.len() == 0 && cur.len() == 0,
        i > 0 ==> c[i - 1] == ' ' && cur.len() > 0 && !cur.contains('<') && join_spaced(ll.push(cur)) == c.subrange(0, i - 1),
        forall|k: int| 0 <= k < ll.len() ==> !(#[trigger] ll[k]).contains('<'),
        forall|k: int| 0 <= k < ll.len() ==> fits_or_one_word(fits, #[trigger] ll[k], bullet),
        cur.len() > 0 ==> fits_or_one_word(fits, cur, bullet),
    ensures
        wrap_words(fits, bullet, c, i, (bulleted(ll, bullet), cur, Seq::empty(), !bullet || ll.len() == 0)) matches Some(ls)
            ==> exists|l2: Seq<Seq<char>>| l2.len() > 0 && ls == bulleted(l2, bullet) && join_spaced(l2) == c
                && forall|k: int| 0 <= k < l2.len() ==> fits_or_one_word(fits, #[trigger] l2[k], bullet),
    decreases c.len() - i,
{
    let lines = bulleted(ll, bullet);
    let first = !bullet || ll.len() == 0;
    let st = (lines, cur, Seq::<char>::empty(), first);
    let e = first_from(c, ' ', i);
    lemma_first_from_bounds(c, ' ', i);
    let w = c.subrange(i, e);
    // the word is not empty
    assert(c[i] != ' ') by {
        if c[i] == ' ' {
            assert(0 < i && c[i - 1] == ' ');
        }
    }
    assert(e > i);
    assert(!w.contains('<')) by {
        if w.contains('<') {
            let k = choose|k: int| 0 <= k < w.len() && w[k] == '<';
            assert(c[i + k] == '<');
            assert(c.contains('<'));
        }
    }
    assert(Seq::<char>::empty() + w =~= w);
    let next: Option<(Seq<Seq<char>>, Seq<char>)> = if cur.len() == 0 {
        Some((ll, w))
    } else if accepts(fits, cur + seq![' '] + w, bullet) {
        Some((ll, cur + seq![' '] + w))
    } else {
        let fl = flushed_line(cur, first, bullet);
        match creole_scan(fl, 0, Seq::empty()) {
            None => None,
            Some(_) => Some((ll.push(cur), w)),
        }
    };
    match next {
        None => {
            assert(wrap_step(fits, bullet, st, w) is None);
        },
        Some((ll2, cur2)) => {
            // the state after the word, in terms of the unbulleted lines
            if cur.len() > 0 && !accepts(fits, cur + seq![' '] + w, bullet) {
                let fl = flushed_line(cur, first, bullet);
                assert(!fl.contains('<')) by {
                    if fl.contains('<') {
                        let k = choose|k: int| 0 <= k < fl.len() && fl[k] == '<';
                        if first && bullet {
                            assert(k >= 2);
                            assert(cur[k - 2] == '<');
                        } else {
                            assert(cur[k] == '<');
                        }
                        assert(cur.contains('<'));
                    }
                }
                crate::markup::lemma_no_tag_no_prefix(fl);
                assert(Seq::<char>::empty() + w =~= w);
                assert(bulleted(ll, bullet).push(fl) =~= bulleted(ll.push(cur), bullet)) by {
                    if bullet && ll.len() == 0 {
                        assert(fl == seq!['*', ' '] + cur);
                    }
                }
                assert(wrap_step(fits, bullet, st, w) == Some(
                    (bulleted(ll2, bullet), cur2, Seq::<char>::empty(), !bullet || ll2.len() == 0),
                ));
            } else {
                assert(wrap_step(fits, bullet, st, w) == Some(
                    (bulleted(ll2, bullet), cur2, Seq::<char>::empty(), !bullet || ll2.len() == 0),
                ));
            }
            // what is joined so far
            assert(join_spaced(ll2.push(cur2)) == c.subrange(0, e)) by {
                if cur.len() == 0 {
                    assert(ll2.push(cur2) =~= seq![w]);
                    assert(c.subrange(0, e) =~= w);
                } else if accepts(fits, cur + seq![' '] + w, bullet) {
                    if ll.len() == 0 {
                        assert(ll.push(cur) =~= seq![cur]);
                        assert(ll.push(cur2) =~= seq![cur2]);
                    } else {
                        lemma_join_spaced_push(ll, cur);
                        lemma_join_spaced_push(ll, cur2);
                    }
                    assert(c.subrange(0, e) =~= c.subrange(0, i - 1) + seq![' '] + w);
                } else {
                    lemma_join_spaced_push(ll.push(cur), w);
                    assert(c.subrange(0, e) =~= c.subrange(0, i - 1) + seq![' '] + w);
                }
            }
            assert(!cur2.contains('<')) by {
                if cur2.contains('<') {
                    let k = choose|k: int| 0 <= k < cur2.len() && cur2[k] == '<';
                    if cur.len() > 0 && accepts(fits, cur + seq![' '] + w, bullet) {
                        if k < cur.len() {
                            assert(cur[k] == '<');
                            assert(cur.contains('<'));
                        } else if k > cur.len() {
                            assert(w[k - cur.len() - 1] == '<');
                            assert(w.contains('<'));
                        }
                    } else {
                        assert(w[k] == '<');
                        assert(w.contains('<'));
                    }
                }
            }
            assert forall|k: int| 0 <= k < ll2.len() implies !(#[trigger] ll2[k]).contains('<') by {
                if k < ll.len() {
                    assert(ll2[k] == ll[k]);
                }
            }
            assert(!w.contains(' ')) by {
                if w.contains(' ') {
                    let k = choose|k: int| 0 <= k < w.len() && w[k] == ' ';
                    assert(c[i + k] == ' ');
                }
            }
            assert forall|k: int| 0 <= k < ll2.len() implies fits_or_one_word(fits, #[trigger] ll2[k], bullet) by {
                if k < ll.len() {
                    assert(ll2[k] == ll[k]);
                }
            }
            assert(fits_or_one_word(fits, cur2, bullet));
            if e < c.len() {
                lemma_wrap_words_keeps_words(fits, bullet, c, e + 1, ll2, cur2);
            } else {
                let l2 = ll2.push(cur2);
                assert(c.subrange(0, e) =~= c);
                assert forall|k: int| 0 <= k < l2.len() implies fits_or_one_word(fits, #[trigger] l2[k], bullet) by {
                    if k < ll2.len() {
                        assert(l2[k] == ll2[k]);
                    }
                }
                assert(wrap_finish(bullet, (bulleted(ll2, bullet), cur2, Seq::<char>::empty(), !bullet || ll2.len() == 0))
                    == bulleted(l2, bullet)) by {
                    if bullet && ll2.len() == 0 {
                        assert(bulleted(ll2, bullet).push(seq!['*', ' '] + cur2) =~= bulleted(l2, bullet));
                    } else {
                        assert(bulleted(ll2, bullet).push(cur2) =~= bulleted(l2, bullet));
                    }
                }
            }
        },
    }
}

/// Greedy wrapping never makes a line that is too wide unless it is a single
/// word: on a line without creole tags (no `<`), whose content has no space
/// at either end and no two spaces in a row (and is not empty, unless it
/// fits), and which is no bullet item behind white space, every wrapped line
/// (without the
/// bullet of a bullet item) fits the measure or holds no space.
pub proof fn lemma_wrapped_lines_fit<F: Fn(&str, bool) -> bool>(fits: F, l: Seq<char>)
    requires
        !l.contains('<'),
        is_bullet(l) ==> white_prefix_end(l, 0) == 0,
        single_spaced(line_content(l)),
        line_content(l).len() > 0 || accepts(fits, line_content(l), is_bullet(l)),
    ensures
        wrap_line(fits, l) matches Some(ls) ==> (is_bullet(l) && ls.len() > 0 ==> ls[0].len() >= 2 && ls[0][0]
            == '*' && ls[0][1] == ' '),
        wrap_line(fits, l) matches Some(ls) ==> forall|k: int|
            0 <= k < ls.len() ==> fits_or_one_word(
                fits,
                if k == 0 && is_bullet(l) {
                    ls[k].skip(2)
                } else {
                    ls[k]
                },
                is_bullet(l),
            ),
{
    let bullet = is_bullet(l);
    let c = line_content(l);
    if let Some(ls) = wrap_line(fits, l) {
        if accepts(fits, c, bullet) {
            assert(ls == seq![l]);
            if bullet {
                assert(l.skip(2) == c);
            }
            assert(ls[0] == l);
        } else {
            assert(!c.contains('<')) by {
                if c.contains('<') {
                    let k = choose|k: int| 0 <= k < c.len() && c[k] == '<';
                    if bullet {
                        assert(l[k + white_prefix_end(l, 0) + 2] == '<');
                    } else {
                        assert(l[k] == '<');
                    }
                    assert(l.contains('<'));
                }
            }
            assert(bulleted(Seq::<Seq<char>>::empty(), bullet) =~= Seq::<Seq<char>>::empty());
            lemma_wrap_words_keeps_words(fits, bullet, c, 0, Seq::empty(), Seq::empty());
            let l2 = choose|l2: Seq<Seq<char>>| l2.len() > 0 && ls == bulleted(l2, bullet) && join_spaced(l2) == c
                && forall|k: int| 0 <= k < l2.len() ==> fits_or_one_word(fits, #[trigger] l2[k], bullet);
            assert forall|k: int| 0 <= k < ls.len() implies fits_or_one_word(
                fits,
                if k == 0 && bullet {
                    ls[k].skip(2)
                } else {
                    ls[k]
                },
                bullet,
            ) by {
                assert(fits_or_one_word(fits, l2[k], bullet));
                if k == 0 && bullet {
                    assert(ls[0] == seq!['*', ' '] + l2[0]);
                    assert(ls[0].skip(2) =~= l2[0]);
                } else {
                    assert(ls[k] == l2[k]);
                }
            }
        }
    }
}

/// Wrapping a note line only turns single spaces into line breaks: on a line
/// without creole tags (no `<`), whose content has no space at either end
/// and no two spaces in a row (and is not empty, unless it fits), and which is
/// no bullet item behind white space, the wrapped lines joined with single
/// spaces give the line back.
pub proof fn lemma_wrap_line_keeps_words<F: Fn(&str, bool) -> bool>(fits: F, l: Seq<char>)
    requires
        !l.contains('<'),
        is_bullet(l) ==> white_prefix_end(l, 0) == 0,
        single_spaced(line_content(l)),
        line_content(l).len() > 0 || accepts(fits, line_content(l), is_bullet(l)),
    ensures
        wrap_line(fits, l) matches Some(ls) ==> join_spaced(ls) == l && ls.len() > 0,
{
    let bullet = is_bullet(l);
    let c = line_content(l);
    if !accepts(fits, c, bullet) {
        assert(!c.contains('<')) by {
            if c.contains('<') {
                let k = choose|k: int| 0 <= k < c.len() && c[k] == '<';
                if bullet {
                    assert(l[k + white_prefix_end(l, 0) + 2] == '<');
                } else {
                    assert(l[k] == '<');
                }
                assert(l.contains('<'));
            }
        }
        assert(bulleted(Seq::<Seq<char>>::empty(), bullet) =~= Seq::<Seq<char>>::empty());
        lemma_wrap_words_keeps_words(fits, bullet, c, 0, Seq::empty(), Seq::empty());
        if let Some(ls) = wrap_line(fits, l) {
            let l2 = choose|l2: Seq<Seq<char>>| l2.len() > 0 && ls == bulleted(l2, bullet) && join_spaced(l2) == c
                && forall|k: int| 0 <= k < l2.len() ==> fits_or_one_word(fits, #[trigger] l2[k], bullet);
            if bullet {
                lemma_join_spaced_bulleted(l2);
                assert(l =~= seq!['*', ' '] + c);
            }
        }
    }
}

/// `s` with each line break turned into a space.
pub open spec fn breaks_as_spaces(s: Seq<char>) -> Seq<char> {
    s.map_values(|ch: char| if ch == '\n' { ' ' } else { ch })
}

/// The number of line breaks in `s`.
pub open spec fn break_count(s: Seq<char>) -> nat
    decreases s.len(),
{
    if s.len() == 0 {
        0
    } else {
        break_count(s.drop_last()) + if s.last() == '\n' {
            1nat
        } else {
            0nat
        }
    }
}

proof fn lemma_break_count_one()
    ensures
        break_count(seq!['\n']) == 1,
{
    let one = seq!['\n'];
    assert(one.drop_last() =~= Seq::<char>::empty());
    assert(break_count(Seq::<char>::empty()) == 0);
    assert(one.last() == '\n');
}

proof fn lemma_break_count_concat(a: Seq<char>, b: Seq<char>)
    ensures
        break_count(a + b) == break_count(a) + break_count(b),
    decreases b.len(),
{
    if b.len() == 0 {
        assert(a + b =~= a);
    } else {
        lemma_break_count_concat(a, b.drop_last());
        assert((a + b).drop_last() =~= a + b.drop_last());
        assert((a + b).last() == b.last());
    }
}

proof fn lemma_breaks_as_spaces_concat(a: Seq<char>, b: Seq<char>)
    ensures
        breaks_as_spaces(a + b) == breaks_as_spaces(a) + breaks_as_spaces(b),
{
    assert(breaks_as_spaces(a + b) =~= breaks_as_spaces(a) + breaks_as_spaces(b));
}

proof fn lemma_no_break_unchanged(a: Seq<char>)
    requires
        !a.contains('\n'),
    ensures
        breaks_as_spaces(a) == a,
        break_count(a) == 0,
    decreases a.len(),
{
    assert forall|k: int| 0 <= k < a.len() implies breaks_as_spaces(a)[k] == a[k] by {
        if a[k] == '\n' {
            assert(a.contains('\n'));
        }
    }
    assert(breaks_as_spaces(a) =~= a);
    if a.len() > 0 {
        assert(!a.drop_last().contains('\n')) by {
            if a.drop_last().contains('\n') {
                let k = choose|k: int| 0 <= k < a.drop_last().len() && a.drop_last()[k] == '\n';
                assert(a[k] == '\n');
            }
        }
        lemma_no_break_unchanged(a.drop_last());
        assert(a.last() != '\n') by {
            assert(a[a.len() - 1] == a.last());
        }
    }
}

/// Lines whose space-joined text holds no line break hold none, and their
/// break-joined text reads, with breaks as spaces, as the space-joined one.
proof fn lemma_joined_lines(ls: Seq<Seq<char>>)
    requires
        ls.len() > 0,
        !join_spaced(ls).contains('\n'),
    ensures
        breaks_as_spaces(join_lines(ls)) == join_spaced(ls),
        break_count(join_lines(ls)) + 1 == ls.len(),
    decreases ls.len(),
{
    if ls.len() == 1 {
        lemma_no_break_unchanged(ls[0]);
    } else {
        let a = join_spaced(ls.drop_last());
        let b = ls.last();
        assert(join_spaced(ls) == a + seq![' '] + b);
        assert(!a.contains('\n')) by {
            if a.contains('\n') {
                let k = choose|k: int| 0 <= k < a.len() && a[k] == '\n';
                assert((a + seq![' '] + b)[k] == '\n');
            }
        }
        assert(!b.contains('\n')) by {
            if b.contains('\n') {
                let k = choose|k: int| 0 <= k < b.len() && b[k] == '\n';
                assert((a + seq![' '] + b)[a.len() + 1 + k] == '\n');
            }
        }
        lemma_joined_lines(ls.drop_last());
        lemma_no_break_unchanged(b);
        let j = join_lines(ls.drop_last());
        lemma_breaks_as_spaces_concat(j + seq!['\n'], b);
        lemma_breaks_as_spaces_concat(j, seq!['\n']);
        assert(breaks_as_spaces(seq!['\n']) =~= seq![' ']);
        lemma_break_count_concat(j + seq!['\n'], b);
        lemma_break_count_concat(j, seq!['\n']);
        lemma_break_count_one();
    }
}

proof fn lemma_join_lines_concat(a: Seq<Seq<char>>, b: Seq<Seq<char>>)
    requires
        a.len() > 0,
        b.len() > 0,
    ensures
        join_lines(a + b) == join_lines(a) + seq!['\n'] + join_lines(b),
    decreases b.len(),
{
    if b.len() == 1 {
        assert((a + b).drop_last() =~= a);
        assert(join_lines(b) == b[0]);
    } else {
        lemma_join_lines_concat(a, b.drop_last());
        assert((a + b).drop_last() =~= a + b.drop_last());
        assert((a + b).last() == b.last());
    }
}

/// Each line of `t` (the text from a line start to the next line break)
/// holds no `<`, has no space at either end and no two spaces in a row, and
/// is no bullet item behind white space.
pub open spec fn text_lines_plain(t: Seq<char>) -> bool {
    forall|i: int|
        0 <= i <= t.len() && (i == 0 || t[i - 1] == '\n') ==> {
            let l = #[trigger] t.subrange(i, first_from(t, '\n', i));
            &&& single_spaced(l)
            &&& (is_bullet(l) ==> white_prefix_end(l, 0) == 0)
        }
}

proof fn lemma_line_conditions<F: Fn(&str, bool) -> bool>(fits: F, l: Seq<char>)
    requires
        !l.contains('<'),
        single_spaced(l),
        is_bullet(l) ==> white_prefix_end(l, 0) == 0,
        forall|u: &str, b: bool, r: bool| u@.len() == 0 && #[trigger] fits.ensures((u, b), r) ==> r,
    ensures
        single_spaced(line_content(l)),
        line_content(l).len() > 0 || accepts(fits, line_content(l), is_bullet(l)),
{
    let c = line_content(l);
    if is_bullet(l) {
        assert(c =~= l.skip(2));
        assert forall|k: int| 0 <= k < c.len() && #[trigger] c[k] == ' ' implies 0 < k < c.len() - 1 && c[k + 1] != ' ' by {
            assert(l[k + 2] == ' ');
            if k == 0 {
                assert(l[1] == ' ');
            }
        }
        assert(l[1] == ' ');
        assert(c.len() > 0);
    }
    if c.len() == 0 {
        if rejects(fits, c, is_bullet(l)) {
            let u = choose|u: &str| u@ == c && #[trigger] fits.ensures((u, is_bullet(l)), false);
            assert(fits.ensures((u, is_bullet(l)), false));
        }
    }
}

proof fn lemma_wrap_text_keeps_words_from<F: Fn(&str, bool) -> bool>(
    fits: F,
    t: Seq<char>,
    i: int,
    acc: Seq<Seq<char>>,
)
    requires
        !t.contains('<'),
        text_lines_plain(t),
        forall|u: &str, b: bool, r: bool| u@.len() == 0 && #[trigger] fits.ensures((u, b), r) ==> r,
        0 <= i <= t.len(),
        i == 0 ==> acc.len() == 0,
        i > 0 ==> {
            &&& t[i - 1] == '\n'
            &&& acc.len() > 0
            &&& breaks_as_spaces(join_lines(acc)) == breaks_as_spaces(t.subrange(0, i - 1))
            &&& break_count(join_lines(acc)) >= break_count(t.subrange(0, i - 1))
        },
    ensures
        wrap_text_from(fits, t, i, acc) matches Some(ls) ==> ls.len() > 0 && breaks_as_spaces(join_lines(ls))
            == breaks_as_spaces(t) && break_count(join_lines(ls)) >= break_count(t),
    decreases t.len() - i,
{
    let e = first_from(t, '\n', i);
    lemma_first_from_bounds(t, '\n', i);
    let l = t.subrange(i, e);
    assert(!l.contains('\n')) by {
        if l.contains('\n') {
            let k = choose|k: int| 0 <= k < l.len() && l[k] == '\n';
            assert(t[i + k] == '\n');
        }
    }
    assert(!l.contains('<')) by {
        if l.contains('<') {
            let k = choose|k: int| 0 <= k < l.len() && l[k] == '<';
            assert(t[i + k] == '<');
            assert(t.contains('<'));
        }
    }
    assert(single_spaced(l) && (is_bullet(l) ==> white_prefix_end(l, 0) == 0));
    lemma_line_conditions(fits, l);
    lemma_wrap_line_keeps_words(fits, l);
    if let Some(ls) = wrap_line(fits, l) {
        lemma_joined_lines(ls);
        lemma_no_break_unchanged(l);
        let acc2 = acc + ls;
        // what is wrapped so far reads, breaks as spaces, as `t[..e]`
        assert(breaks_as_spaces(join_lines(acc2)) == breaks_as_spaces(t.subrange(0, e))
            && break_count(join_lines(acc2)) >= break_count(t.subrange(0, e))) by {
            if i == 0 {
                assert(acc2 =~= ls);
                assert(t.subrange(0, e) =~= l);
            } else {
                lemma_join_lines_concat(acc, ls);
                let ja = join_lines(acc);
                let jl = join_lines(ls);
                lemma_breaks_as_spaces_concat(ja + seq!['\n'], jl);
                lemma_breaks_as_spaces_concat(ja, seq!['\n']);
                lemma_break_count_concat(ja + seq!['\n'], jl);
                lemma_break_count_concat(ja, seq!['\n']);
                let tp = t.subrange(0, i - 1);
                assert(t.subrange(0, e) =~= tp + seq!['\n'] + l);
                lemma_breaks_as_spaces_concat(tp + seq!['\n'], l);
                lemma_breaks_as_spaces_concat(tp, seq!['\n']);
                lemma_break_count_concat(tp + seq!['\n'], l);
                lemma_break_count_concat(tp, seq!['\n']);
            }
        }
        if e < t.len() {
            lemma_wrap_text_keeps_words_from(fits, t, e + 1, acc2);
        } else {
            assert(t.subrange(0, e) =~= t);
        }
    }
}

/// Wrapping note text only turns single spaces into line breaks: on a text
/// without creole tags (no `<`) whose lines have no space at either end and
/// no two spaces in a row, and hold no bullet item behind white space, with
/// a measure that accepts empty text, the wrapped text reads, with line
/// breaks as spaces, as the text does, and has at least as many lines.
pub proof fn lemma_wrap_text_keeps_words<F: Fn(&str, bool) -> bool>(fits: F, t: Seq<char>)
    requires
        !t.contains('<'),
        text_lines_plain(t),
        forall|u: &str, b: bool, r: bool| u@.len() == 0 && #[trigger] fits.ensures((u, b), r) ==> r,
    ensures
        wrap_note_spec(fits, t) matches Some(w) ==> breaks_as_spaces(w) == breaks_as_spaces(t) && break_count(w)
            >= break_count(t),
{
    lemma_wrap_text_keeps_words_from(fits, t, 0, Seq::empty());
}


/// A line of wrapped text fits the measure (as a bullet item or not) or
/// holds no space, or it is the first line of a bullet item and what follows
/// its bullet fits as a bullet item or holds no space.
pub open spec fn wrapped_line_ok<F: Fn(&str, bool) -> bool>(fits: F, x: Seq<char>) -> bool {
    ||| fits_or_one_word(fits, x, false)
    ||| fits_or_one_word(fits, x, true)
    ||| (x.len() >= 2 && x[0] == '*' && x[1] == ' ' && fits_or_one_word(fits, x.skip(2), true))
}

proof fn lemma_wrap_text_fits_from<F: Fn(&str, bool) -> bool>(
    fits: F,
    t: Seq<char>,
    i: int,
    acc: Seq<Seq<char>>,
)
    requires
        !t.contains('<'),
        text_lines_plain(t),
        forall|u: &str, b: bool, r: bool| u@.len() == 0 && #[trigger] fits.ensures((u, b), r) ==> r,
        0 <= i <= t.len(),
        i > 0 ==> t[i - 1] == '\n',
        forall|k: int| 0 <= k < acc.len() ==> wrapped_line_ok(fits, #[trigger] acc[k]),
    ensures
        wrap_text_from(fits, t, i, acc) matches Some(ls) ==> forall|k: int|
            0 <= k < ls.len() ==> wrapped_line_ok(fits, #[trigger] ls[k]),
    decreases t.len() - i,
{
    let e = first_from(t, '\n', i);
    lemma_first_from_bounds(t, '\n', i);
    let l = t.subrange(i, e);
    assert(!l.contains('<')) by {
        if l.contains('<') {
            let k = choose|k: int| 0 <= k < l.len() && l[k] == '<';
            assert(t[i + k] == '<');
            assert(t.contains('<'));
        }
    }
    assert(single_spaced(l) && (is_bullet(l) ==> white_prefix_end(l, 0) == 0));
    lemma_line_conditions(fits, l);
    lemma_wrapped_lines_fit(fits, l);
    if let Some(ls) = wrap_line(fits, l) {
        let acc2 = acc + ls;
        assert forall|k: int| 0 <= k < acc2.len() implies wrapped_line_ok(fits, #[trigger] acc2[k]) by {
            if k < acc.len() {
                assert(acc2[k] == acc[k]);
            } else {
                let q = k - acc.len();
                assert(acc2[k] == ls[q]);
                assert(fits_or_one_word(
                    fits,
                    if q == 0 && is_bullet(l) {
                        ls[q].skip(2)
                    } else {
                        ls[q]
                    },
                    is_bullet(l),
                ));
            }
        }
        if e < t.len() {
            lemma_wrap_text_fits_from(fits, t, e + 1, acc2);
        }
    }
}

/// Greedy wrapping of a whole note text never makes a line too wide unless
/// it is a single word: on a text without creole tags (no `<`) whose lines
/// have no space at either end and no two spaces in a row, and hold no
/// bullet item behind white space, with a measure that accepts empty text,
/// every line of the wrapped text fits the measure or holds no space (for
/// the first line of a bullet item: what follows its bullet).
pub proof fn lemma_wrap_text_fits<F: Fn(&str, bool) -> bool>(fits: F, t: Seq<char>)
    requires
        !t.contains('<'),
        text_lines_plain(t),
        forall|u: &str, b: bool, r: bool| u@.len() == 0 && #[trigger] fits.ensures((u, b), r) ==> r,
    ensures
        wrap_text_from(fits, t, 0, Seq::empty()) matches Some(ls) ==> {
            &&& wrap_note_spec(fits, t) == Some(join_lines(ls))
            &&& forall|k: int| 0 <= k < ls.len() ==> wrapped_line_ok(fits, #[trigger] ls[k])
        },
{
    lemma_wrap_text_fits_from(fits, t, 0, Seq::empty());
}

} // verus!

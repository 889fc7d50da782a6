//! The graph that a class diagram hands to the graph layout engine: node
//! identifiers, the edges of links and notes, the invisible "square" edges
//! that arrange unlinked entities in a grid, and the direction of ranks.

use vstd::prelude::*;
use crate::text::{sanitize_id, sanitize_spec, chars_of, str_eq};

verus! {

/// Diagram direction written in the source.
#[derive(Debug, Clone, Copy, PartialEq, Eq, Structural)]
pub enum Direction {
    TopToBottom,
    LeftToRight,
    BottomToTop,
    RightToLeft,
}

/// Rank direction of the graph layout.
#[derive(Debug, Clone, Copy, PartialEq, Eq, Structural)]
pub enum RankDir {
    TopToBottom,
    LeftToRight,
    BottomToTop,
    RightToLeft,
}

/// Arrow head of a class link end.
#[derive(Debug, Clone, Copy, PartialEq, Eq, Structural)]
pub enum ArrowHead {
    /// No head (`None` in the parser's model).
    Plain,
    Arrow,
    Triangle,
    Diamond,
    DiamondHollow,
    Plus,
}

/// Decoration drawn at an edge end.
#[derive(Debug, Clone, Copy, PartialEq, Eq, Structural)]
pub enum LinkDecoration {
    /// No decoration (`None` in the layout engine).
    Plain,
    Arrow,
    Extends,
    Composition,
    Aggregation,
    Plus,
}

/// Line style of a class link.
#[derive(Debug, Clone, Copy, PartialEq, Eq, Structural)]
pub enum LineStyle {
    Solid,
    Dashed,
}

/// Line style of a layout edge.
#[derive(Debug, Clone, Copy, PartialEq, Eq, Structural)]
pub enum LinkStyle {
    Normal,
    Dashed,
}

/// The rank direction that a diagram direction asks for.
pub open spec fn rankdir_of(d: Direction) -> RankDir {
    match d {
        Direction::TopToBottom => RankDir::TopToBottom,
        Direction::LeftToRight => RankDir::LeftToRight,
        Direction::BottomToTop => RankDir::BottomToTop,
        Direction::RightToLeft => RankDir::RightToLeft,
    }
}

/// The diagram direction a rank direction lays out.
pub open spec fn direction_of_rankdir(r: RankDir) -> Direction {
    match r {
        RankDir::TopToBottom => Direction::TopToBottom,
        RankDir::LeftToRight => Direction::LeftToRight,
        RankDir::BottomToTop => Direction::BottomToTop,
        RankDir::RightToLeft => Direction::RightToLeft,
    }
}

/// Every direction gets the rank direction that lays it out, so no two
/// directions share one.
pub proof fn lemma_rankdir_lays_out_its_direction(d: Direction, e: Direction)
    ensures
        direction_of_rankdir(rankdir_of(d)) == d,
        rankdir_of(d) == rankdir_of(e) ==> d == e,
{
}

/// Maps a diagram direction to the rank direction of the same name.
pub fn direction_to_rankdir(dir: &Direction) -> (r: RankDir)
    ensures
        r == rankdir_of(*dir),
{
    match dir {
        Direction::TopToBottom => RankDir::TopToBottom,
        Direction::LeftToRight => RankDir::LeftToRight,
        Direction::BottomToTop => RankDir::BottomToTop,
        Direction::RightToLeft => RankDir::RightToLeft,
    }
}

/// The rank direction of a class diagram: the written direction when it was
/// written explicitly, else top to bottom (arrow lengths then decide ranks).
pub fn class_rankdir(dir: &Direction, explicit: bool) -> (r: RankDir)
    ensures
        r == (if explicit {
            rankdir_of(*dir)
        } else {
            RankDir::TopToBottom
        }),
{
    if explicit {
        direction_to_rankdir(dir)
    } else {
        RankDir::TopToBottom
    }
}

/// The edge decoration of an arrow head.
pub open spec fn decoration_of(h: ArrowHead) -> LinkDecoration {
    match h {
        ArrowHead::Plain => LinkDecoration::Plain,
        ArrowHead::Arrow => LinkDecoration::Arrow,
        ArrowHead::Triangle => LinkDecoration::Extends,
        ArrowHead::Diamond => LinkDecoration::Composition,
        ArrowHead::DiamondHollow => LinkDecoration::Aggregation,
        ArrowHead::Plus => LinkDecoration::Plus,
    }
}

/// The arrow head that a decoration draws at an edge end: an extension is
/// drawn as a triangle, a composition as a filled diamond, an aggregation as
/// a hollow one.
pub open spec fn drawn_head(d: LinkDecoration) -> ArrowHead {
    match d {
        LinkDecoration::Plain => ArrowHead::Plain,
        LinkDecoration::Arrow => ArrowHead::Arrow,
        LinkDecoration::Extends => ArrowHead::Triangle,
        LinkDecoration::Composition => ArrowHead::Diamond,
        LinkDecoration::Aggregation => ArrowHead::DiamondHollow,
        LinkDecoration::Plus => ArrowHead::Plus,
    }
}

/// Every arrow head is drawn as itself: the decoration an edge end gets draws
/// the head the link asked for, so no two heads share a decoration (a filled
/// and a hollow diamond in particular stay apart).
pub proof fn lemma_decoration_draws_its_head(h: ArrowHead, g: ArrowHead)
    ensures
        drawn_head(decoration_of(h)) == h,
        decoration_of(h) == decoration_of(g) ==> h == g,
{
}

/// Maps an arrow head to its edge decoration (a triangle is an extension, a
/// filled diamond a composition, a hollow one an aggregation).
pub fn arrow_head_to_svek_decoration(head: &ArrowHead) -> (r: LinkDecoration)
    ensures
        r == decoration_of(*head),
{
    match head {
        ArrowHead::Plain => LinkDecoration::Plain,
        ArrowHead::Arrow => LinkDecoration::Arrow,
        ArrowHead::Triangle => LinkDecoration::Extends,
        ArrowHead::Diamond => LinkDecoration::Composition,
        ArrowHead::DiamondHollow => LinkDecoration::Aggregation,
        ArrowHead::Plus => LinkDecoration::Plus,
    }
}

/// Maps a link line style to the edge style: solid is normal.
pub fn link_style_to_svek(line_style: &LineStyle) -> (r: LinkStyle)
    ensures
        r == (match *line_style {
            LineStyle::Solid => LinkStyle::Normal,
            LineStyle::Dashed => LinkStyle::Dashed,
        }),
        (r == LinkStyle::Dashed) <==> (*line_style == LineStyle::Dashed),
{
    match line_style {
        LineStyle::Solid => LinkStyle::Normal,
        LineStyle::Dashed => LinkStyle::Dashed,
    }
}

/// An edge of the layout graph.
#[derive(Debug, Clone, PartialEq, Eq)]
pub struct LayoutEdge {
    pub from: String,
    pub to: String,
    pub label: Option<String>,
    pub tail_label: Option<String>,
    pub head_label: Option<String>,
    pub tail_decoration: LinkDecoration,
    pub head_decoration: LinkDecoration,
    pub line_style: LinkStyle,
    pub minlen: u32,
    pub invisible: bool,
    pub no_constraint: bool,
}

/// A link between two class entities.
#[derive(Debug, Clone, PartialEq, Eq)]
pub struct ClassLink {
    pub from: String,
    pub to: String,
    pub label: Option<String>,
    pub from_label: Option<String>,
    pub to_label: Option<String>,
    pub left_head: ArrowHead,
    pub right_head: ArrowHead,
    pub line_style: LineStyle,
    /// Number of dashes or dots in the arrow.
    pub arrow_len: usize,
}

/// The minimum rank distance of a link: its arrow length less one
/// (a single dash keeps both ends on one rank), as a `u32`.
pub open spec fn link_minlen(arrow_len: usize) -> u32 {
    (if arrow_len == 0 {
        0
    } else {
        arrow_len - 1
    }) as u32
}

/// A link of `n` dashes (or dots) asks for `n - 1` ranks between its ends;
/// one or none keeps them on the same rank.
pub proof fn lemma_link_minlen(arrow_len: usize)
    ensures
        arrow_len <= 1 ==> link_minlen(arrow_len) == 0,
        1 <= arrow_len <= u32::MAX + 1 ==> link_minlen(arrow_len) + 1 == arrow_len,
{
}

fn clone_opt(o: &Option<String>) -> (r: Option<String>)
    ensures
        r == *o,
{
    match o {
        Some(s) => Some(s.clone()),
        None => None,
    }
}

/// The layout edge of a class link: sanitised end identifiers, its labels,
/// the decorations of both heads and its style.
pub fn class_link_edge(link: &ClassLink) -> (e: LayoutEdge)
    ensures
        e.from@ == sanitize_spec(link.from@),
        e.to@ == sanitize_spec(link.to@),
        e.label == link.label,
        e.tail_label == link.from_label,
        e.head_label == link.to_label,
        e.tail_decoration == decoration_of(link.left_head),
        e.head_decoration == decoration_of(link.right_head),
        e.line_style == (match link.line_style {
            LineStyle::Solid => LinkStyle::Normal,
            LineStyle::Dashed => LinkStyle::Dashed,
        }),
        (e.line_style == LinkStyle::Dashed) <==> (link.line_style == LineStyle::Dashed),
        e.minlen == link_minlen(link.arrow_len),
        !e.invisible,
        !e.no_constraint,
{
    let m = link.arrow_len.saturating_sub(1);
    #[verifier::truncate]
    let minlen = m as u32;
    LayoutEdge {
        from: sanitize_id(link.from.as_str()),
        to: sanitize_id(link.to.as_str()),
        label: clone_opt(&link.label),
        tail_label: clone_opt(&link.from_label),
        head_label: clone_opt(&link.to_label),
        tail_decoration: arrow_head_to_svek_decoration(&link.left_head),
        head_decoration: arrow_head_to_svek_decoration(&link.right_head),
        line_style: link_style_to_svek(&link.line_style),
        minlen,
        invisible: false,
        no_constraint: false,
    }
}

// ---------------------------------------------------------------------------
// Notes
// ---------------------------------------------------------------------------

/// The decimal digits of `n`.
pub open spec fn decimal(n: nat) -> Seq<char>
    decreases n,
{
    if n < 10 {
        seq![digit_char(n)]
    } else {
        decimal(n / 10) + seq![digit_char(n % 10)]
    }
}

/// The character of the decimal digit `d`.
pub open spec fn digit_char(d: nat) -> char {
    if d == 0 {
        '0'
    } else if d == 1 {
        '1'
    } else if d == 2 {
        '2'
    } else if d == 3 {
        '3'
    } else if d == 4 {
        '4'
    } else if d == 5 {
        '5'
    } else if d == 6 {
        '6'
    } else if d == 7 {
        '7'
    } else if d == 8 {
        '8'
    } else {
        '9'
    }
}

fn digit_char_exec(d: usize) -> (c: char)
    ensures
        c == digit_char(d as nat),
{
    if d == 0 {
        '0'
    } else if d == 1 {
        '1'
    } else if d == 2 {
        '2'
    } else if d == 3 {
        '3'
    } else if d == 4 {
        '4'
    } else if d == 5 {
        '5'
    } else if d == 6 {
        '6'
    } else if d == 7 {
        '7'
    } else if d == 8 {
        '8'
    } else {
        '9'
    }
}

fn push_decimal(out: &mut String, n: usize)
    ensures
        final(out)@ == old(out)@ + decimal(n as nat),
    decreases n,
{
    if n < 10 {
        out.push(digit_char_exec(n));
    } else {
        push_decimal(out, n / 10);
        out.push(digit_char_exec(n % 10));
    }
    assert(out@ =~= old(out)@ + decimal(n as nat));
}

/// The graph node identifier of the `i`-th note: `GMN` followed by `i`.
pub fn note_id(i: usize) -> (r: String)
    ensures
        r@ == seq!['G', 'M', 'N'] + decimal(i as nat),
{
    let mut out = String::new();
    out.push('G');
    out.push('M');
    out.push('N');
    push_decimal(&mut out, i);
    assert(out@ =~= seq!['G', 'M', 'N'] + decimal(i as nat));
    out
}

/// Where a note sits relative to its target.
#[derive(Debug, Clone, Copy, PartialEq, Eq, Structural)]
pub enum NoteSide {
    Top,
    Bottom,
    Left,
    Right,
    /// Any other position text.
    Other,
}

/// The side named by a note's position text.
pub open spec fn note_side_of(p: Seq<char>) -> NoteSide {
    if p == seq!['t', 'o', 'p'] {
        NoteSide::Top
    } else if p == seq!['b', 'o', 't', 't', 'o', 'm'] {
        NoteSide::Bottom
    } else if p == seq!['l', 'e', 'f', 't'] {
        NoteSide::Left
    } else if p == seq!['r', 'i', 'g', 'h', 't'] {
        NoteSide::Right
    } else {
        NoteSide::Other
    }
}

fn seq_is(v: &Vec<char>, w: &Vec<char>) -> (r: bool)
    ensures
        r == (v@ == w@),
{
    if v.len() != w.len() {
        return false;
    }
    let mut i: usize = 0;
    while i < v.len()
        invariant
            i <= v.len(),
            v.len() == w.len(),
            forall|k: int| 0 <= k < i ==> v@[k] == w@[k],
        decreases v.len() - i,
    {
        if v[i] != w[i] {
            assert(v@[i as int] != w@[i as int]);
            return false;
        }
        i += 1;
    }
    assert(v@ =~= w@);
    true
}

/// The position text that names a side.
pub open spec fn side_name(side: NoteSide) -> Seq<char> {
    match side {
        NoteSide::Top => seq!['t', 'o', 'p'],
        NoteSide::Bottom => seq!['b', 'o', 't', 't', 'o', 'm'],
        NoteSide::Left => seq!['l', 'e', 'f', 't'],
        NoteSide::Right => seq!['r', 'i', 'g', 'h', 't'],
        NoteSide::Other => Seq::empty(),
    }
}

/// A position text names a side exactly when it is that side's name; every
/// other text (the empty one too) is `Other`.
pub proof fn lemma_note_side_names(p: Seq<char>, side: NoteSide)
    ensures
        note_side_of(p) != NoteSide::Other ==> side_name(note_side_of(p)) == p,
        side != NoteSide::Other ==> note_side_of(side_name(side)) == side,
        note_side_of(Seq::empty()) == NoteSide::Other,
{
    assert(seq!['t', 'o', 'p'] != seq!['b', 'o', 't', 't', 'o', 'm']);
    assert(seq!['t', 'o', 'p'].len() != seq!['l', 'e', 'f', 't'].len());
    assert(seq!['t', 'o', 'p'].len() != seq!['r', 'i', 'g', 'h', 't'].len());
    assert(seq!['b', 'o', 't', 't', 'o', 'm'].len() != seq!['l', 'e', 'f', 't'].len());
    assert(seq!['b', 'o', 't', 't', 'o', 'm'].len() != seq!['r', 'i', 'g', 'h', 't'].len());
    assert(seq!['l', 'e', 'f', 't'].len() != seq!['r', 'i', 'g', 'h', 't'].len());
    assert(Seq::<char>::empty().len() == 0);
}

/// Reads the side named by a note's position text (`top`, `bottom`, `left`,
/// `right`; anything else is `Other`).
pub fn note_side(position: &str) -> (r: NoteSide)
    ensures
        r == note_side_of(position@),
{
    let v = chars_of(position);
    if seq_is(&v, &vec!['t', 'o', 'p']) {
        NoteSide::Top
    } else if seq_is(&v, &vec!['b', 'o', 't', 't', 'o', 'm']) {
        NoteSide::Bottom
    } else if seq_is(&v, &vec!['l', 'e', 'f', 't']) {
        NoteSide::Left
    } else if seq_is(&v, &vec!['r', 'i', 'g', 'h', 't']) {
        NoteSide::Right
    } else {
        NoteSide::Other
    }
}

/// The edge that ties note number `i` to its target entity, if it has one:
/// a left or top note points at its target, a right or bottom note is pointed
/// at by it; left and right notes share the target's rank and do not
/// constrain ranking; the edge is dashed and undecorated.
pub fn note_link_edge(i: usize, position: &str, target: &Option<String>) -> (r: Option<LayoutEdge>)
    ensures
        match *target {
            None => r is None,
            Some(t) => r matches Some(e) && {
                let note = seq!['G', 'M', 'N'] + decimal(i as nat);
                let tid = sanitize_spec(t@);
                let side = note_side_of(position@);
                let note_first = side != NoteSide::Bottom && side != NoteSide::Right;
                &&& e.from@ == (if note_first {
                    note
                } else {
                    tid
                })
                &&& e.to@ == (if note_first {
                    tid
                } else {
                    note
                })
                &&& e.minlen == (if side == NoteSide::Left || side == NoteSide::Right {
                    0u32
                } else {
                    1u32
                })
                &&& e.no_constraint == (side == NoteSide::Left || side == NoteSide::Right)
                &&& e.label is None && e.tail_label is None && e.head_label is None
                &&& e.tail_decoration == LinkDecoration::Plain
                &&& e.head_decoration == LinkDecoration::Plain
                &&& e.line_style == LinkStyle::Dashed
                &&& !e.invisible
            },
        },
{
    match target {
        None => None,
        Some(t) => {
            let note = note_id(i);
            let tid = sanitize_id(t.as_str());
            let side = note_side(position);
            let (from, to, minlen) = match side {
                NoteSide::Top => (note, tid, 1u32),
                NoteSide::Bottom => (tid, note, 1u32),
                NoteSide::Left => (note, tid, 0u32),
                NoteSide::Right => (tid, note, 0u32),
                NoteSide::Other => (note, tid, 1u32),
            };
            let no_constraint = side == NoteSide::Left || side == NoteSide::Right;
            Some(
                LayoutEdge {
                    from,
                    to,
                    label: None,
                    tail_label: None,
                    head_label: None,
                    tail_decoration: LinkDecoration::Plain,
                    head_decoration: LinkDecoration::Plain,
                    line_style: LinkStyle::Dashed,
                    minlen,
                    invisible: false,
                    no_constraint,
                },
            )
        },
    }
}


// ---------------------------------------------------------------------------
// Square arrangement of unlinked entities
// ---------------------------------------------------------------------------

/// The smallest `c >= b` with `c * c >= n` (or `c >= n`).
pub open spec fn square_branch_from(n: nat, b: nat) -> nat
    decreases n - b,
{
    if b >= n || b * b >= n {
        b
    } else {
        square_branch_from(n, b + 1)
    }
}

/// The side of the smallest square grid that holds `n` cells: the ceiling of
/// the square root of `n`.
pub open spec fn square_branch(n: nat) -> nat {
    square_branch_from(n, 0)
}

proof fn lemma_square_branch_from(n: nat, b: nat)
    requires
        n >= 1,
        b == 0 || (b - 1) * (b - 1) < n,
    ensures
        square_branch_from(n, b) * square_branch_from(n, b) >= n,
        square_branch_from(n, b) >= 1,
        (square_branch_from(n, b) - 1) * (square_branch_from(n, b) - 1) < n,
    decreases n - b,
{
    if b >= n || b * b >= n {
        if b >= n {
            assert(b * b >= n) by (nonlinear_arith)
                requires
                    b >= n,
                    n >= 1,
            ;
        }
        if b == 0 {
            assert(false);
        }
    } else {
        lemma_square_branch_from(n, b + 1);
    }
}

/// The grid side is the ceiling of the square root: the least positive
/// number whose square reaches `n`.
pub proof fn lemma_square_branch_is_ceil_sqrt(n: nat)
    requires
        n >= 1,
    ensures
        square_branch(n) >= 1,
        square_branch(n) * square_branch(n) >= n,
        (square_branch(n) - 1) * (square_branch(n) - 1) < n,
{
    lemma_square_branch_from(n, 0);
}

/// The side of the square grid for `size` unlinked entities: the ceiling of
/// the square root of `size`.
pub fn compute_square_branch(size: usize) -> (b: usize)
    ensures
        b == square_branch(size as nat),
{
    let mut b: usize = 0;
    let mut done = false;
    while !done
        invariant
            b <= size,
            square_branch_from(size as nat, b as nat) == square_branch(size as nat),
            done ==> square_branch_from(size as nat, b as nat) == b,
        decreases size - b + (if done {
            0int
        } else {
            1int
        }),
    {
        if b >= size {
            done = true;
        } else {
            let bb = b as u128;
            assert(bb * bb <= u128::MAX) by (nonlinear_arith)
                requires
                    bb <= usize::MAX,
                    usize::MAX < 0x1_0000_0000_0000_0000,
            ;
            if bb * bb >= size as u128 {
                done = true;
            } else {
                b += 1;
            }
        }
    }
    b
}

/// Edge `i` of the square arrangement of identifiers `ids` with grid side
/// `b`: every `b`-th entity starts a new row below the first of the previous
/// row (rank distance 1); the others follow their predecessor on the same
/// rank (distance 0).
pub open spec fn square_edge_spec(ids: Seq<Seq<char>>, b: int, i: int) -> (Seq<char>, Seq<char>, u32) {
    if i % b == 0 {
        (ids[i - b], ids[i], 1u32)
    } else {
        (ids[i - 1], ids[i], 0u32)
    }
}

/// The (from, to, rank distance) of the square edges for entity `names`:
/// none for fewer than three, else one per entity after the first.
pub open spec fn square_edges_spec(names: Seq<Seq<char>>) -> Seq<(Seq<char>, Seq<char>, u32)> {
    let n = names.len();
    if n < 3 {
        Seq::empty()
    } else {
        let ids = names.map_values(|s: Seq<char>| sanitize_spec(s));
        let b = square_branch(n) as int;
        Seq::new((n - 1) as nat, |k: int| square_edge_spec(ids, b, k + 1))
    }
}

/// The (from, to, rank distance) of an edge.
pub open spec fn edge_triple(e: LayoutEdge) -> (Seq<char>, Seq<char>, u32) {
    (e.from@, e.to@, e.minlen)
}

/// An invisible, undecorated, unlabelled edge of normal style.
pub open spec fn is_layout_hint(e: LayoutEdge) -> bool {
    &&& e.invisible
    &&& !e.no_constraint
    &&& e.line_style == LinkStyle::Normal
    &&& e.tail_decoration == LinkDecoration::Plain
    &&& e.head_decoration == LinkDecoration::Plain
    &&& e.label is None && e.tail_label is None && e.head_label is None
}

proof fn lemma_row_start(h: int, i: int, b: int)
    requires
        b > 0,
        h % b == 0,
        h < i <= h + b,
    ensures
        (i % b == 0) <==> (i == h + b),
{
    let d = i - h;
    vstd::arithmetic::div_mod::lemma_add_mod_noop(h, d, b);
    if d < b {
        vstd::arithmetic::div_mod::lemma_small_mod(d as nat, b as nat);
        vstd::arithmetic::div_mod::lemma_small_mod(d as nat, b as nat);
    } else {
        vstd::arithmetic::div_mod::lemma_mod_self_0(b);
        vstd::arithmetic::div_mod::lemma_small_mod(0, b as nat);
    }
}

fn hint_edge(from: String, to: String, minlen: u32) -> (e: LayoutEdge)
    ensures
        e.from == from,
        e.to == to,
        e.minlen == minlen,
        is_layout_hint(e),
{
    LayoutEdge {
        from,
        to,
        label: None,
        tail_label: None,
        head_label: None,
        tail_decoration: LinkDecoration::Plain,
        head_decoration: LinkDecoration::Plain,
        line_style: LinkStyle::Normal,
        minlen,
        invisible: true,
        no_constraint: false,
    }
}

/// The invisible edges that arrange unlinked entities in a square grid:
/// with `b` the ceiling of the square root of their number, each entity is
/// tied to its predecessor on the same rank, except every `b`-th, which goes
/// one rank below the first entity of the previous row.  Fewer than three
/// entities get no edges.
#[verifier::rlimit(40)]
pub fn square_edges_for_entities(names: &[String]) -> (r: Vec<LayoutEdge>)
    ensures
        r@.map_values(|e: LayoutEdge| edge_triple(e)) == square_edges_spec(
            names@.map_values(|s: String| s@),
        ),
        forall|k: int| 0 <= k < r@.len() ==> is_layout_hint(#[trigger] r@[k]),
{
    let ghost nv = names@.map_values(|s: String| s@);
    let ghost ids = nv.map_values(|s: Seq<char>| sanitize_spec(s));
    if names.len() < 3 {
        let r: Vec<LayoutEdge> = Vec::new();
        assert(r@.map_values(|e: LayoutEdge| edge_triple(e)) =~= square_edges_spec(nv));
        return r;
    }
    let branch = compute_square_branch(names.len());
    proof {
        lemma_square_branch_is_ceil_sqrt(names.len() as nat);
    }
    let mut sids: Vec<String> = Vec::new();
    let mut j: usize = 0;
    while j < names.len()
        invariant
            j <= names@.len(),
            nv == names@.map_values(|s: String| s@),
            ids == nv.map_values(|s: Seq<char>| sanitize_spec(s)),
            sids@.len() == j,
            forall|q: int| 0 <= q < j ==> (#[trigger] sids@[q])@ == ids[q],
        decreases names.len() - j,
    {
        sids.push(sanitize_id(names[j].as_str()));
        j += 1;
    }
    let mut result: Vec<LayoutEdge> = Vec::new();
    let mut head: usize = 0;
    let mut i: usize = 1;
    let ghost b = branch as int;
    while i < sids.len()
        invariant
            1 <= i <= sids@.len(),
            sids@.len() == names@.len(),
            names@.len() >= 3,
            b == branch,
            b >= 1,
            b == square_branch(names@.len() as nat),
            nv == names@.map_values(|s: String| s@),
            ids == nv.map_values(|s: Seq<char>| sanitize_spec(s)),
            forall|q: int| 0 <= q < sids@.len() ==> (#[trigger] sids@[q])@ == ids[q],
            (head as int) % b == 0,
            head < i,
            i <= head + b,
            result@.len() == i - 1,
            forall|k: int|
                0 <= k < result@.len() ==> edge_triple(#[trigger] result@[k]) == square_edge_spec(
                    ids,
                    b,
                    k + 1,
                ),
            forall|k: int| 0 <= k < result@.len() ==> is_layout_hint(#[trigger] result@[k]),
        decreases sids.len() - i,
    {
        proof {
            lemma_row_start(head as int, i as int, b);
        }
        let dist = i - head;
        if dist == branch {
            result.push(hint_edge(sids[head].clone(), sids[i].clone(), 1));
            head = i;
            proof {
                vstd::arithmetic::div_mod::lemma_mod_self_0(b);
            }
        } else {
            result.push(hint_edge(sids[i - 1].clone(), sids[i].clone(), 0));
        }
        i += 1;
    }
    assert(result@.map_values(|e: LayoutEdge| edge_triple(e)) =~= square_edges_spec(nv));
    result
}

/// A group (package, namespace or rectangle) of a class diagram.
#[derive(Debug, Clone, PartialEq, Eq)]
pub struct Group {
    /// The qualified name, with `.` between nested names.
    pub name: String,
    pub kind: GroupKind,
    /// Names of the entities declared directly in the group.
    pub entities: Vec<String>,
    pub source_line: Option<usize>,
}

/// The kind of a group.
#[derive(Debug, Clone, Copy, PartialEq, Eq, Structural)]
pub enum GroupKind {
    Package,
    Namespace,
    Rectangle,
}

/// Some link has the entity named `n` as an end.
pub open spec fn is_linked(links: Seq<ClassLink>, n: Seq<char>) -> bool {
    exists|k: int| 0 <= k < links.len() && ((#[trigger] links[k]).from@ == n || links[k].to@ == n)
}

/// Some group declares the entity named `n`.
pub open spec fn is_grouped(groups: Seq<Group>, n: Seq<char>) -> bool {
    exists|g: int, e: int|
        0 <= g < groups.len() && 0 <= e < groups[g].entities@.len() && (#[trigger] groups[g].entities@[e])@
            == n
}

/// The unlinked entities of a group, in declaration order.
pub open spec fn group_standalones(g: Group, links: Seq<ClassLink>) -> Seq<Seq<char>> {
    g.entities@.map_values(|s: String| s@).filter(|n: Seq<char>| !is_linked(links, n))
}

/// The square edges of the unlinked entities of each group, group after group.
pub open spec fn groups_square_edges(groups: Seq<Group>, links: Seq<ClassLink>) -> Seq<
    (Seq<char>, Seq<char>, u32),
>
    decreases groups.len(),
{
    if groups.len() == 0 {
        Seq::empty()
    } else {
        groups_square_edges(groups.drop_last(), links) + square_edges_spec(
            group_standalones(groups.last(), links),
        )
    }
}

/// The square edges of a class diagram: those of the entities that are in no
/// link and no group, then those of the unlinked entities of each group.
pub open spec fn standalone_square_edges_spec(
    entities: Seq<Seq<char>>,
    links: Seq<ClassLink>,
    groups: Seq<Group>,
) -> Seq<(Seq<char>, Seq<char>, u32)> {
    square_edges_spec(
        entities.filter(|n: Seq<char>| !is_linked(links, n) && !is_grouped(groups, n)),
    ) + groups_square_edges(groups, links)
}

fn linked_exec(links: &[ClassLink], name: &str) -> (r: bool)
    ensures
        r == is_linked(links@, name@),
{
    let mut k: usize = 0;
    while k < links.len()
        invariant
            k <= links@.len(),
            forall|q: int| 0 <= q < k ==> !((#[trigger] links@[q]).from@ == name@ || links@[q].to@ == name@),
        decreases links.len() - k,
    {
        if str_eq(links[k].from.as_str(), name) || str_eq(links[k].to.as_str(), name) {
            return true;
        }
        k += 1;
    }
    false
}

fn grouped_exec(groups: &[Group], name: &str) -> (r: bool)
    ensures
        r == is_grouped(groups@, name@),
{
    let mut g: usize = 0;
    while g < groups.len()
        invariant
            g <= groups@.len(),
            forall|p: int, e: int|
                0 <= p < g && 0 <= e < groups@[p].entities@.len() ==> (#[trigger] groups@[p].entities@[e])@
                    != name@,
        decreases groups.len() - g,
    {
        let ents = &groups[g].entities;
        let mut e: usize = 0;
        while e < ents.len()
            invariant
                e <= ents@.len(),
                *ents == groups@[g as int].entities,
                g < groups@.len(),
                forall|p: int, q: int|
                    0 <= p < g && 0 <= q < groups@[p].entities@.len() ==> (#[trigger] groups@[p].entities@[q])@
                        != name@,
                forall|q: int| 0 <= q < e ==> (#[trigger] ents@[q])@ != name@,
            decreases ents.len() - e,
        {
            if str_eq(ents[e].as_str(), name) {
                return true;
            }
            e += 1;
        }
        g += 1;
    }
    false
}

/// The invisible edges that arrange unlinked entities in square grids: one
/// grid for the entities that are in no link and no group, then one for the
/// unlinked entities of each group.
#[verifier::rlimit(40)]
pub fn collect_standalone_square_edges(
    entity_names: &[String],
    links: &[ClassLink],
    groups: &[Group],
) -> (r: Vec<LayoutEdge>)
    ensures
        r@.map_values(|e: LayoutEdge| edge_triple(e)) == standalone_square_edges_spec(
            entity_names@.map_values(|s: String| s@),
            links@,
            groups@,
        ),
        forall|k: int| 0 <= k < r@.len() ==> is_layout_hint(#[trigger] r@[k]),
{
    let ghost ev = entity_names@.map_values(|s: String| s@);
    let ghost root_pred = |n: Seq<char>| !is_linked(links@, n) && !is_grouped(groups@, n);
    let mut roots: Vec<String> = Vec::new();
    let mut i: usize = 0;
    while i < entity_names.len()
        invariant
            i <= entity_names@.len(),
            ev == entity_names@.map_values(|s: String| s@),
            root_pred == (|n: Seq<char>| !is_linked(links@, n) && !is_grouped(groups@, n)),
            roots@.map_values(|s: String| s@) == ev.take(i as int).filter(root_pred),
        decreases entity_names.len() - i,
    {
        let name = entity_names[i].as_str();
        proof {
            reveal_with_fuel(Seq::<_>::filter, 1);
        }
        assert(ev.take(i + 1).drop_last() =~= ev.take(i as int));
        assert(ev.take(i + 1).last() == name@);
        let keep = !linked_exec(links, name) && !grouped_exec(groups, name);
        assert(keep == root_pred(name@));
        assert(ev.take(i + 1).filter(root_pred) == if root_pred(name@) {
            ev.take(i as int).filter(root_pred).push(name@)
        } else {
            ev.take(i as int).filter(root_pred)
        });
        if keep {
            let ghost before = roots@;
            roots.push(entity_names[i].clone());
            assert(roots@.map_values(|s: String| s@) =~= before.map_values(|s: String| s@).push(name@));
        }
        i += 1;
    }
    assert(ev.take(ev.len() as int) =~= ev);
    let mut result = square_edges_for_entities(roots.as_slice());
    let mut g: usize = 0;
    while g < groups.len()
        invariant
            g <= groups@.len(),
            ev == entity_names@.map_values(|s: String| s@),
            root_pred == (|n: Seq<char>| !is_linked(links@, n) && !is_grouped(groups@, n)),
            result@.map_values(|e: LayoutEdge| edge_triple(e)) == square_edges_spec(
                ev.filter(root_pred),
            ) + groups_square_edges(groups@.take(g as int), links@),
            forall|k: int| 0 <= k < result@.len() ==> is_layout_hint(#[trigger] result@[k]),
        decreases groups.len() - g,
    {
        let ents = &groups[g].entities;
        let ghost gv = ents@.map_values(|s: String| s@);
        let ghost gpred = |n: Seq<char>| !is_linked(links@, n);
        let mut alone: Vec<String> = Vec::new();
        let mut e: usize = 0;
        while e < ents.len()
            invariant
                e <= ents@.len(),
                gv == ents@.map_values(|s: String| s@),
                gpred == (|n: Seq<char>| !is_linked(links@, n)),
                alone@.map_values(|s: String| s@) == gv.take(e as int).filter(gpred),
            decreases ents.len() - e,
        {
            let name = ents[e].as_str();
            proof {
                reveal_with_fuel(Seq::<_>::filter, 1);
            }
            assert(gv.take(e + 1).drop_last() =~= gv.take(e as int));
            assert(gv.take(e + 1).last() == name@);
            let keep = !linked_exec(links, name);
            assert(keep == gpred(name@));
            assert(gv.take(e + 1).filter(gpred) == if gpred(name@) {
                gv.take(e as int).filter(gpred).push(name@)
            } else {
                gv.take(e as int).filter(gpred)
            });
            if keep {
                let ghost before = alone@;
                alone.push(ents[e].clone());
                assert(alone@.map_values(|s: String| s@) =~= before.map_values(|s: String| s@).push(
                    name@,
                ));
            }
            e += 1;
        }
        assert(gv.take(gv.len() as int) =~= gv);
        let mut more = square_edges_for_entities(alone.as_slice());
        let ghost before = result@;
        let ghost added = more@;
        result.append(&mut more);
        proof {
            assert(groups@.take(g + 1).drop_last() =~= groups@.take(g as int));
            assert(groups@.take(g + 1).last() == groups@[g as int]);
            assert(result@.map_values(|e: LayoutEdge| edge_triple(e)) =~= before.map_values(
                |e: LayoutEdge| edge_triple(e),
            ) + added.map_values(|e: LayoutEdge| edge_triple(e)));
        }
        g += 1;
    }
    assert(groups@.take(groups@.len() as int) =~= groups@);
    result
}


// ---------------------------------------------------------------------------
// Group clusters
// ---------------------------------------------------------------------------

/// `c` is `n`'s name up to one of its dots: `n` starts with `c` followed by `.`.
pub open spec fn is_dotted_prefix(c: Seq<char>, n: Seq<char>) -> bool {
    c.len() < n.len() && n.take(c.len() as int) == c && n[c.len() as int] == '.'
}

/// The name of the parent group of a group named `n`: the longest name in
/// `names` that is a dotted prefix of `n`.
pub open spec fn parent_name(names: Seq<Seq<char>>, n: Seq<char>) -> Option<Seq<char>>
    decreases names.len(),
{
    if names.len() == 0 {
        None
    } else {
        let prev = parent_name(names.drop_last(), n);
        let c = names.last();
        if is_dotted_prefix(c, n) {
            match prev {
                Some(q) => if c.len() >= q.len() {
                    Some(c)
                } else {
                    Some(q)
                },
                None => Some(c),
            }
        } else {
            prev
        }
    }
}

/// The names of the groups.
pub open spec fn group_names(groups: Seq<Group>) -> Seq<Seq<char>> {
    groups.map_values(|g: Group| g.name@)
}

/// The number of dots in a name.
pub open spec fn dot_count(s: Seq<char>) -> nat
    decreases s.len(),
{
    if s.len() == 0 {
        0
    } else {
        dot_count(s.drop_last()) + if s.last() == '.' {
            1nat
        } else {
            0nat
        }
    }
}

/// Lexicographic order of names by character code (the byte order of their
/// UTF-8 encodings).
pub open spec fn name_lt(a: Seq<char>, b: Seq<char>) -> bool
    decreases a.len(),
{
    if a.len() == 0 {
        b.len() > 0
    } else if b.len() == 0 {
        false
    } else if a[0] < b[0] {
        true
    } else if a[0] == b[0] {
        name_lt(a.drop_first(), b.drop_first())
    } else {
        false
    }
}

/// The source line used to order a group: unknown lines sort last.
pub open spec fn line_key(g: Group) -> usize {
    match g.source_line {
        Some(l) => l,
        None => usize::MAX,
    }
}

/// Group `a` is drawn before group `b` (positions in `groups`): by source
/// line, then by nesting depth (number of dots), then by name, then by
/// position.
pub open spec fn group_before(groups: Seq<Group>, a: int, b: int) -> bool {
    let (ga, gb) = (groups[a], groups[b]);
    ||| line_key(ga) < line_key(gb)
    ||| (line_key(ga) == line_key(gb) && dot_count(ga.name@) < dot_count(gb.name@))
    ||| (line_key(ga) == line_key(gb) && dot_count(ga.name@) == dot_count(gb.name@) && name_lt(
        ga.name@,
        gb.name@,
    ))
    ||| (line_key(ga) == line_key(gb) && dot_count(ga.name@) == dot_count(gb.name@) && ga.name@
        == gb.name@ && a < b)
}

proof fn lemma_name_lt_trans(a: Seq<char>, b: Seq<char>, c: Seq<char>)
    requires
        name_lt(a, b),
        name_lt(b, c),
    ensures
        name_lt(a, c),
    decreases a.len(),
{
    if a.len() > 0 && b.len() > 0 && c.len() > 0 && a[0] == b[0] && b[0] == c[0] {
        lemma_name_lt_trans(a.drop_first(), b.drop_first(), c.drop_first());
    }
}

proof fn lemma_name_lt_total(a: Seq<char>, b: Seq<char>)
    ensures
        a == b || name_lt(a, b) || name_lt(b, a),
        !(name_lt(a, b) && name_lt(b, a)),
        !name_lt(a, a),
    decreases a.len(),
{
    if a.len() > 0 && b.len() > 0 && a[0] == b[0] {
        lemma_name_lt_total(a.drop_first(), b.drop_first());
        if a.drop_first() == b.drop_first() {
            assert forall|i: int| 0 <= i < a.len() implies a[i] == b[i] by {
                if i > 0 {
                    assert(a[i] == a.drop_first()[i - 1]);
                    assert(b[i] == b.drop_first()[i - 1]);
                }
            }
            assert(a =~= b);
        }
    }
    if a.len() > 0 {
        lemma_name_lt_total(a.drop_first(), a.drop_first());
    }
}

/// The drawing order of groups is a strict total order on positions.
pub proof fn lemma_group_before_order(groups: Seq<Group>, a: int, b: int, c: int)
    ensures
        a != b ==> group_before(groups, a, b) || group_before(groups, b, a),
        !(group_before(groups, a, b) && group_before(groups, b, a)),
        group_before(groups, a, b) && group_before(groups, b, c) ==> group_before(groups, a, c),
{
    lemma_name_lt_total(groups[a].name@, groups[b].name@);
    lemma_name_lt_total(groups[a].name@, groups[c].name@);
    if group_before(groups, a, b) && group_before(groups, b, c) {
        if name_lt(groups[a].name@, groups[b].name@) && name_lt(groups[b].name@, groups[c].name@) {
            lemma_name_lt_trans(groups[a].name@, groups[b].name@, groups[c].name@);
        }
    }
}

/// The groups (positions) whose parent group name is `p` (`None` for the
/// top-level groups), in drawing order, each once.
pub open spec fn is_child_list(groups: Seq<Group>, p: Option<Seq<char>>, list: Seq<usize>) -> bool {
    &&& forall|k: int| 0 <= k < list.len() ==> (#[trigger] list[k]) < groups.len()
    &&& forall|k: int|
        0 <= k < list.len() ==> parent_name(group_names(groups), groups[list[k] as int].name@) == p
    &&& forall|j: int|
        0 <= j < groups.len() && parent_name(group_names(groups), (#[trigger] groups[j]).name@) == p
            ==> list.contains(j as usize)
    &&& forall|x: int, y: int|
        0 <= x < y < list.len() ==> group_before(groups, #[trigger] list[x] as int, #[trigger] list[y] as int)
}

/// The nesting of groups into clusters: the top-level groups and, per group,
/// its direct sub-groups, each list in drawing order.
pub struct ClusterForest {
    pub roots: Vec<usize>,
    pub children: Vec<Vec<usize>>,
}

fn name_lt_exec(a: &Vec<char>, b: &Vec<char>) -> (r: bool)
    ensures
        r == name_lt(a@, b@),
{
    let mut i: usize = 0;
    assert(a@.skip(0) =~= a@);
    assert(b@.skip(0) =~= b@);
    while i < a.len() && i < b.len() && a[i] == b[i]
        invariant
            i <= a.len(),
            i <= b.len(),
            name_lt(a@.skip(i as int), b@.skip(i as int)) == name_lt(a@, b@),
        decreases a.len() - i,
    {
        assert(a@.skip(i as int).drop_first() =~= a@.skip(i + 1));
        assert(b@.skip(i as int).drop_first() =~= b@.skip(i + 1));
        i += 1;
    }
    if i == a.len() {
        i < b.len()
    } else if i == b.len() {
        false
    } else {
        a[i] < b[i]
    }
}

fn dot_count_exec(v: &Vec<char>) -> (r: usize)
    ensures
        r == dot_count(v@),
{
    let mut n: usize = 0;
    let mut i: usize = 0;
    while i < v.len()
        invariant
            i <= v.len(),
            n == dot_count(v@.take(i as int)),
            n <= i,
        decreases v.len() - i,
    {
        assert(v@.take(i + 1).drop_last() =~= v@.take(i as int));
        if v[i] == '.' {
            n += 1;
        }
        i += 1;
    }
    assert(v@.take(v.len() as int) =~= v@);
    n
}

fn group_before_exec(groups: &[Group], a: usize, b: usize) -> (r: bool)
    requires
        a < groups@.len(),
        b < groups@.len(),
    ensures
        r == group_before(groups@, a as int, b as int),
{
    let la = match groups[a].source_line {
        Some(l) => l,
        None => usize::MAX,
    };
    let lb = match groups[b].source_line {
        Some(l) => l,
        None => usize::MAX,
    };
    if la != lb {
        return la < lb;
    }
    let na = chars_of(groups[a].name.as_str());
    let nb = chars_of(groups[b].name.as_str());
    let da = dot_count_exec(&na);
    let db = dot_count_exec(&nb);
    if da != db {
        return da < db;
    }
    let same = str_eq(groups[a].name.as_str(), groups[b].name.as_str());
    proof {
        lemma_name_lt_total(na@, nb@);
    }
    if same {
        a < b
    } else {
        name_lt_exec(&na, &nb)
    }
}

fn is_dotted_prefix_exec(c: &Vec<char>, n: &Vec<char>) -> (r: bool)
    ensures
        r == is_dotted_prefix(c@, n@),
{
    if c.len() >= n.len() {
        return false;
    }
    let mut i: usize = 0;
    while i < c.len()
        invariant
            i <= c.len() < n.len(),
            forall|k: int| 0 <= k < i ==> c@[k] == n@[k],
        decreases c.len() - i,
    {
        if c[i] != n[i] {
            assert(n@.take(c.len() as int)[i as int] != c@[i as int]);
            return false;
        }
        i += 1;
    }
    assert(n@.take(c.len() as int) =~= c@);
    n[c.len()] == '.'
}

fn parent_name_exec(groups: &[Group], name: &Vec<char>) -> (r: Option<Vec<char>>)
    ensures
        match r {
            Some(v) => parent_name(group_names(groups@), name@) == Some(v@),
            None => parent_name(group_names(groups@), name@) is None,
        },
{
    let ghost names = group_names(groups@);
    let mut best: Option<Vec<char>> = None;
    let mut k: usize = 0;
    while k < groups.len()
        invariant
            k <= groups@.len(),
            names == group_names(groups@),
            match best {
                Some(v) => parent_name(names.take(k as int), name@) == Some(v@),
                None => parent_name(names.take(k as int), name@) is None,
            },
        decreases groups.len() - k,
    {
        assert(names.take(k + 1).drop_last() =~= names.take(k as int));
        assert(names.take(k + 1).last() == groups@[k as int].name@);
        let c = chars_of(groups[k].name.as_str());
        if is_dotted_prefix_exec(&c, name) {
            best = match best {
                Some(q) => if c.len() >= q.len() {
                    Some(c)
                } else {
                    Some(q)
                },
                None => Some(c),
            };
        }
        k += 1;
    }
    assert(names.take(groups@.len() as int) =~= names);
    best
}

fn opt_chars_eq(a: &Option<Vec<char>>, b: &Option<Vec<char>>) -> (r: bool)
    ensures
        r == (match (*a, *b) {
            (Some(x), Some(y)) => x@ == y@,
            (None, None) => true,
            _ => false,
        }),
{
    match (a, b) {
        (Some(x), Some(y)) => seq_is(x, y),
        (None, None) => true,
        _ => false,
    }
}

/// The view of an optional character vector.
pub open spec fn opt_view(o: Option<Vec<char>>) -> Option<Seq<char>> {
    match o {
        Some(v) => Some(v@),
        None => None,
    }
}

/// The groups whose parent is `p`, in drawing order: repeatedly takes the
/// first (in drawing order) of those not yet taken.
#[verifier::rlimit(40)]
fn child_list(groups: &[Group], parents: &Vec<Option<Vec<char>>>, p: &Option<Vec<char>>) -> (r: Vec<usize>)
    requires
        parents@.len() == groups@.len(),
        forall|k: int|
            0 <= k < groups@.len() ==> opt_view(#[trigger] parents@[k]) == parent_name(
                group_names(groups@),
                groups@[k].name@,
            ),
    ensures
        is_child_list(groups@, opt_view(*p), r@),
{
    let n = groups.len();
    let ghost gs = groups@;
    let ghost pv = opt_view(*p);
    let mut taken: Vec<bool> = Vec::new();
    while taken.len() < n
        invariant
            taken@.len() <= n,
            forall|j: int| 0 <= j < taken@.len() ==> !(#[trigger] taken@[j]),
        decreases n - taken.len(),
    {
        taken.push(false);
    }
    let mut out: Vec<usize> = Vec::new();
    let mut done = false;
    while !done
        invariant
            n == gs.len(),
            gs == groups@,
            pv == opt_view(*p),
            parents@.len() == n,
            forall|k: int|
                0 <= k < n ==> opt_view(#[trigger] parents@[k]) == parent_name(group_names(gs), gs[k].name@),
            taken@.len() == n,
            out@.len() <= n,
            forall|k: int| 0 <= k < out@.len() ==> (#[trigger] out@[k]) < n,
            forall|k: int| 0 <= k < out@.len() ==> parent_name(group_names(gs), gs[out@[k] as int].name@) == pv,
            forall|j: int| 0 <= j < n ==> (#[trigger] taken@[j] <==> out@.contains(j as usize)),
            forall|x: int, y: int|
                0 <= x < y < out@.len() ==> group_before(gs, #[trigger] out@[x] as int, #[trigger] out@[y] as int),
            forall|x: int, j: int|
                #![trigger out@[x], taken@[j]]
                0 <= x < out@.len() && 0 <= j < n && !taken@[j] && parent_name(group_names(gs), gs[j].name@)
                    == pv ==> group_before(gs, out@[x] as int, j),
            done ==> forall|j: int|
                0 <= j < n && parent_name(group_names(gs), (#[trigger] gs[j]).name@) == pv ==> taken@[j],
        decreases n - out@.len() + (if done {
            0int
        } else {
            1int
        }),
    {
        let mut best: Option<usize> = None;
        let mut j: usize = 0;
        while j < n
            invariant
                j <= n,
                n == gs.len(),
                gs == groups@,
                pv == opt_view(*p),
                parents@.len() == n,
                forall|k: int|
                    0 <= k < n ==> opt_view(#[trigger] parents@[k]) == parent_name(group_names(gs), gs[k].name@),
                taken@.len() == n,
                match best {
                    Some(m) => {
                        &&& m < j
                        &&& !taken@[m as int]
                        &&& parent_name(group_names(gs), gs[m as int].name@) == pv
                        &&& forall|q: int|
                            0 <= q < j && q != m && !taken@[q] && parent_name(
                                group_names(gs),
                                (#[trigger] gs[q]).name@,
                            ) == pv ==> group_before(gs, m as int, q)
                    },
                    None => forall|q: int|
                        0 <= q < j ==> !(!taken@[q] && parent_name(group_names(gs), (#[trigger] gs[q]).name@)
                            == pv),
                },
            decreases n - j,
        {
            if !taken[j] && opt_chars_eq(&parents[j], p) {
                match best {
                    None => {
                        best = Some(j);
                    },
                    Some(m) => {
                        proof {
                            assert forall|q: int|
                                0 <= q < j && q != m && !taken@[q] && parent_name(
                                    group_names(gs),
                                    (#[trigger] gs[q]).name@,
                                ) == pv implies group_before(gs, m as int, q) by {
                            }
                        }
                        if group_before_exec(groups, j, m) {
                            proof {
                                assert forall|q: int|
                                    0 <= q < j + 1 && q != j && !taken@[q] && parent_name(
                                        group_names(gs),
                                        (#[trigger] gs[q]).name@,
                                    ) == pv implies group_before(gs, j as int, q) by {
                                    if q != m {
                                        lemma_group_before_order(gs, j as int, m as int, q);
                                    }
                                }
                            }
                            best = Some(j);
                        } else {
                            proof {
                                lemma_group_before_order(gs, j as int, m as int, j as int);
                            }
                        }
                    },
                }
            }
            j += 1;
        }
        match best {
            None => {
                done = true;
            },
            Some(m) => {
                let ghost old_out = out@;
                let ghost old_taken = taken@;
                out.push(m);
                taken.set(m, true);
                proof {
                    assert forall|q: int| 0 <= q < n implies (#[trigger] taken@[q] <==> out@.contains(q as usize)) by {
                        if q != m {
                            if old_out.contains(q as usize) {
                                let w = choose|w: int| 0 <= w < old_out.len() && old_out[w] == q as usize;
                                assert(out@[w] == q as usize);
                            }
                            if out@.contains(q as usize) {
                                let w = choose|w: int| 0 <= w < out@.len() && out@[w] == q as usize;
                                assert(w < old_out.len());
                                assert(old_out[w] == q as usize);
                            }
                        } else {
                            assert(out@[out@.len() - 1] == m);
                        }
                    }
                    assert(!old_out.contains(m));
                    // every earlier choice precedes m, and m precedes the rest
                    assert forall|x: int, y: int|
                        0 <= x < y < out@.len() implies group_before(gs, #[trigger] out@[x] as int, #[trigger] out@[y] as int) by {
                        if y == out@.len() - 1 {
                            assert(!old_taken[m as int]);
                        }
                    }
                    assert forall|x: int, j2: int|
                        #![trigger out@[x], taken@[j2]]
                        0 <= x < out@.len() && 0 <= j2 < n && !taken@[j2] && parent_name(group_names(gs), gs[j2].name@)
                            == pv implies group_before(gs, out@[x] as int, j2) by {
                        if x == out@.len() - 1 {
                            assert(j2 != m);
                        }
                    }
                    // no index is taken twice, so the output stays within n
                    assert forall|x: int, y: int| 0 <= x < y < out@.len() implies out@[x] != out@[y] by {
                        lemma_group_before_order(gs, out@[x] as int, out@[x] as int, out@[x] as int);
                    }
                    lemma_distinct_bound(out@, n as int);
                }
            },
        }
    }
    proof {
        assert forall|j: int|
            0 <= j < n && parent_name(group_names(gs), (#[trigger] gs[j]).name@) == pv implies out@.contains(j as usize) by {
            assert(taken@[j]);
        }
    }
    out
}

proof fn lemma_distinct_bound(s: Seq<usize>, n: int)
    requires
        n >= 0,
        forall|k: int| 0 <= k < s.len() ==> (#[trigger] s[k]) < n,
        forall|x: int, y: int| 0 <= x < y < s.len() ==> s[x] != s[y],
    ensures
        s.len() <= n,
{
    if s.len() > n && n >= 0 {
        vstd::set_lib::lemma_int_range(0, n);
        let img = Set::new(|v: int| exists|k: int| 0 <= k < s.len() && s[k] as int == v);
        assert(img.subset_of(vstd::set_lib::set_int_range(0, n)));
        vstd::set_lib::lemma_len_subset(img, vstd::set_lib::set_int_range(0, n));
        lemma_image_len(s, s.len() as int);
        assert(false);
    }
}

proof fn lemma_image_len(s: Seq<usize>, m: int)
    requires
        0 <= m <= s.len(),
        forall|x: int, y: int| 0 <= x < y < s.len() ==> s[x] != s[y],
    ensures
        Set::new(|v: int| exists|k: int| 0 <= k < m && s[k] as int == v).finite(),
        Set::new(|v: int| exists|k: int| 0 <= k < m && s[k] as int == v).len() == m,
    decreases m,
{
    let cur = Set::new(|v: int| exists|k: int| 0 <= k < m && s[k] as int == v);
    if m == 0 {
        assert(cur =~= Set::<int>::empty());
    } else {
        lemma_image_len(s, m - 1);
        let prev = Set::new(|v: int| exists|k: int| 0 <= k < m - 1 && s[k] as int == v);
        assert(cur =~= prev.insert(s[m - 1] as int));
        assert(!prev.contains(s[m - 1] as int));
    }
}


/// Builds the nesting of class-diagram groups into clusters: a group's
/// parent is the group whose name is the longest dotted prefix of its name
/// (`a.b` is the parent of `a.b.c`); groups without a parent are the roots.
/// The roots and each group's direct sub-groups are listed in drawing order:
/// by source line (unknown lines last), then nesting depth, then name.
#[verifier::rlimit(40)]
pub fn build_layout_clusters(groups: &[Group]) -> (r: ClusterForest)
    ensures
        is_child_list(groups@, None, r.roots@),
        r.children@.len() == groups@.len(),
        forall|g: int|
            0 <= g < groups@.len() ==> is_child_list(groups@, Some(groups@[g].name@), (#[trigger] r.children@[g])@),
{
    let mut parents: Vec<Option<Vec<char>>> = Vec::new();
    let mut k: usize = 0;
    while k < groups.len()
        invariant
            k <= groups@.len(),
            parents@.len() == k,
            forall|q: int|
                0 <= q < k ==> opt_view(#[trigger] parents@[q]) == parent_name(group_names(groups@), groups@[q].name@),
        decreases groups.len() - k,
    {
        let name = chars_of(groups[k].name.as_str());
        parents.push(parent_name_exec(groups, &name));
        k += 1;
    }
    let roots = child_list(groups, &parents, &None);
    let mut children: Vec<Vec<usize>> = Vec::new();
    let mut g: usize = 0;
    while g < groups.len()
        invariant
            g <= groups@.len(),
            parents@.len() == groups@.len(),
            forall|q: int|
                0 <= q < groups@.len() ==> opt_view(#[trigger] parents@[q]) == parent_name(group_names(groups@), groups@[q].name@),
            children@.len() == g,
            forall|q: int|
                0 <= q < g ==> is_child_list(groups@, Some(groups@[q].name@), (#[trigger] children@[q])@),
        decreases groups.len() - g,
    {
        let name = Some(chars_of(groups[g].name.as_str()));
        children.push(child_list(groups, &parents, &name));
        g += 1;
    }
    ClusterForest { roots, children }
}

/// How a cluster is drawn.
#[derive(Debug, Clone, Copy, PartialEq, Eq, Structural)]
pub enum ClusterStyle {
    Rectangle,
    Package,
}

/// The cluster of one group, apart from its sub-clusters and its label size.
#[derive(Debug, Clone, PartialEq, Eq)]
pub struct ClusterInfo {
    /// `grp_` followed by the sanitised group name.
    pub id: String,
    pub qualified_name: String,
    /// The group name after its last dot.
    pub title: String,
    pub style: ClusterStyle,
    /// The sanitised names of the group's entities.
    pub node_ids: Vec<String>,
    pub order: Option<usize>,
}

/// The cluster of a group: its identifier, title, style (rectangles are drawn
/// as rectangles, packages and namespaces as packages), the identifiers of
/// its entities and its source line as ordering hint.
pub fn cluster_info(group: &Group) -> (r: ClusterInfo)
    ensures
        r.id@ == seq!['g', 'r', 'p', '_'] + sanitize_spec(group.name@),
        r.qualified_name@ == group.name@,
        r.title@ == group.name@.subrange(
            crate::text::after_last_dot(group.name@, group.name@.len() as int),
            group.name@.len() as int,
        ),
        r.style == (if group.kind == GroupKind::Rectangle {
            ClusterStyle::Rectangle
        } else {
            ClusterStyle::Package
        }),
        r.node_ids@.map_values(|s: String| s@) == group.entities@.map_values(|s: String| sanitize_spec(s@)),
        r.order == group.source_line,
{
    let mut node_ids: Vec<String> = Vec::new();
    let mut k: usize = 0;
    while k < group.entities.len()
        invariant
            k <= group.entities@.len(),
            node_ids@.map_values(|s: String| s@) == group.entities@.take(k as int).map_values(
                |s: String| sanitize_spec(s@),
            ),
        decreases group.entities.len() - k,
    {
        let ghost before = node_ids@;
        node_ids.push(sanitize_id(group.entities[k].as_str()));
        assert(node_ids@.map_values(|s: String| s@) =~= before.map_values(|s: String| s@).push(
            sanitize_spec(group.entities@[k as int]@),
        ));
        assert(group.entities@.take(k + 1) =~= group.entities@.take(k as int).push(group.entities@[k as int]));
        assert(group.entities@.take(k + 1).map_values(|s: String| sanitize_spec(s@)) =~= group.entities@.take(
            k as int,
        ).map_values(|s: String| sanitize_spec(s@)).push(sanitize_spec(group.entities@[k as int]@)));
        assert(node_ids@.map_values(|s: String| s@) =~= group.entities@.take(k + 1).map_values(
            |s: String| sanitize_spec(s@),
        ));
        k += 1;
    }
    assert(group.entities@.take(group.entities@.len() as int) =~= group.entities@);
    ClusterInfo {
        id: crate::text::cluster_id(group.name.as_str()),
        qualified_name: group.name.clone(),
        title: crate::text::group_display_name(group.name.as_str()),
        style: match group.kind {
            GroupKind::Rectangle => ClusterStyle::Rectangle,
            GroupKind::Package | GroupKind::Namespace => ClusterStyle::Package,
        },
        node_ids,
        order: group.source_line,
    }
}


/// The parent of a group is itself one of the groups: the parent name is
/// the name of some group, strictly shorter than the child's.
pub proof fn lemma_parent_is_a_group(names: Seq<Seq<char>>, n: Seq<char>)
    ensures
        parent_name(names, n) matches Some(c) ==> names.contains(c) && c.len() < n.len()
            && is_dotted_prefix(c, n),
    decreases names.len(),
{
    if names.len() > 0 {
        lemma_parent_is_a_group(names.drop_last(), n);
        if let Some(c) = parent_name(names, n) {
            if c == names.last() {
                assert(names[names.len() - 1] == c);
            } else {
                let q = choose|q: int| 0 <= q < names.drop_last().len() && names.drop_last()[q] == c;
                assert(names[q] == c);
            }
        }
    }
}


proof fn lemma_child_list_distinct(groups: Seq<Group>, p: Option<Seq<char>>, list: Seq<usize>)
    requires
        is_child_list(groups, p, list),
    ensures
        list.no_duplicates(),
{
    assert forall|x: int, y: int| 0 <= x < list.len() && 0 <= y < list.len() && x != y implies list[x] != list[y] by {
        let (a, b) = if x < y { (x, y) } else { (y, x) };
        assert(group_before(groups, list[a] as int, list[b] as int));
        lemma_group_before_order(groups, list[a] as int, list[a] as int, list[a] as int);
    }
}

/// When group names are distinct, the cluster forest lists every group
/// exactly once: among the roots when it has no parent group, else among the
/// sub-groups of its parent and of no other group; no list repeats a group.
pub proof fn lemma_forest_lists_each_group_once(groups: Seq<Group>, roots: Seq<usize>, children: Seq<Seq<usize>>)
    requires
        is_child_list(groups, None, roots),
        children.len() == groups.len(),
        forall|g: int| 0 <= g < groups.len() ==> is_child_list(groups, Some(groups[g].name@), #[trigger] children[g]),
        forall|a: int, b: int| 0 <= a < groups.len() && 0 <= b < groups.len() && a != b ==> (#[trigger] groups[a]).name@
            != (#[trigger] groups[b]).name@,
    ensures
        roots.no_duplicates(),
        forall|g: int| 0 <= g < groups.len() ==> (#[trigger] children[g]).no_duplicates(),
        forall|j: int|
            0 <= j < groups.len() ==> (roots.contains(j as usize) <==> parent_name(group_names(groups), (
            #[trigger] groups[j]).name@) is None),
        forall|j: int|
            0 <= j < groups.len() && parent_name(group_names(groups), (#[trigger] groups[j]).name@) is Some
                ==> exists|g: int| 0 <= g < groups.len() && (#[trigger] children[g]).contains(j as usize),
        forall|j: usize, g1: int, g2: int|
            0 <= g1 < groups.len() && 0 <= g2 < groups.len() && #[trigger] children[g1].contains(j)
                && #[trigger] children[g2].contains(j) ==> g1 == g2,
        forall|j: usize, g: int|
            0 <= g < groups.len() && #[trigger] children[g].contains(j) ==> !roots.contains(j),
{
    lemma_child_list_distinct(groups, None, roots);
    assert forall|g: int| 0 <= g < groups.len() implies (#[trigger] children[g]).no_duplicates() by {
        lemma_child_list_distinct(groups, Some(groups[g].name@), children[g]);
    }
    assert forall|j: int| 0 <= j < groups.len() && parent_name(group_names(groups), (#[trigger] groups[j]).name@) is Some
        implies exists|g: int| 0 <= g < groups.len() && (#[trigger] children[g]).contains(j as usize) by {
        let names = group_names(groups);
        lemma_parent_is_a_group(names, groups[j].name@);
        let c = parent_name(names, groups[j].name@)->0;
        let g = choose|g: int| 0 <= g < names.len() && names[g] == c;
        assert(is_child_list(groups, Some(groups[g].name@), children[g]));
        assert(children[g].contains(j as usize));
    }
    assert forall|j: int| 0 <= j < groups.len() implies (roots.contains(j as usize) <==> parent_name(
        group_names(groups),
        (#[trigger] groups[j]).name@,
    ) is None) by {
        if roots.contains(j as usize) {
            let k = choose|k: int| 0 <= k < roots.len() && roots[k] == j as usize;
        }
    }
    assert forall|j: usize, g1: int, g2: int|
        0 <= g1 < groups.len() && 0 <= g2 < groups.len() && #[trigger] children[g1].contains(j)
            && #[trigger] children[g2].contains(j) implies g1 == g2 by {
        assert(is_child_list(groups, Some(groups[g1].name@), children[g1]));
        assert(is_child_list(groups, Some(groups[g2].name@), children[g2]));
        let k1 = choose|k: int| 0 <= k < children[g1].len() && children[g1][k] == j;
        let k2 = choose|k: int| 0 <= k < children[g2].len() && children[g2][k] == j;
    }
    assert forall|j: usize, g: int| 0 <= g < groups.len() && #[trigger] children[g].contains(j) implies !roots.contains(j) by {
        assert(is_child_list(groups, Some(groups[g].name@), children[g]));
        let k1 = choose|k: int| 0 <= k < children[g].len() && children[g][k] == j;
        if roots.contains(j) {
            let k2 = choose|k: int| 0 <= k < roots.len() && roots[k] == j;
        }
    }
}

} // verus!

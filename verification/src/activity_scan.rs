//! Pre-scans of the event list of an activity diagram, made before any node
//! is placed: which `if` has an `else`, which `repeat` block owns a backward
//! action, where an old-style sync bar is placed, which stop is the last, and
//! whether the diagram opens with an action.

use vstd::prelude::*;
use crate::activity::NotePositionLayout;

verus! {

/// The kind of an activity event, with the names that the pre-scans read.
#[derive(Debug, Clone, PartialEq, Eq)]
pub enum ActivityEventTag {
    Start,
    Stop,
    Action,
    If,
    ElseIf,
    Else,
    EndIf,
    While,
    EndWhile,
    Repeat,
    RepeatWhile,
    Fork,
    ForkAgain,
    EndFork,
    Swimlane(String),
    Note(NotePositionLayout),
    FloatingNote(NotePositionLayout),
    Detach,
    SyncBar(String),
    GotoSyncBar(String),
    ResumeFromSyncBar(String),
    Label(String),
    Goto(String),
    Backward,
    Break,
}

/// Whether `e` opens a block: an `if`, or (for `repeat`) a `repeat`.
pub open spec fn opens_block(e: ActivityEventTag, repeat: bool) -> bool {
    if repeat {
        e is Repeat
    } else {
        e is If
    }
}

/// Whether `e` closes a block: an `endif`, or (for `repeat`) a `repeat while`.
pub open spec fn closes_block(e: ActivityEventTag, repeat: bool) -> bool {
    if repeat {
        e is RepeatWhile
    } else {
        e is EndIf
    }
}

/// The indices of the blocks open before event `j`, innermost last.  A
/// closing event with no open block changes nothing.
pub open spec fn open_blocks(ev: Seq<ActivityEventTag>, j: int, repeat: bool) -> Seq<int>
    decreases j,
{
    if j <= 0 {
        Seq::empty()
    } else {
        let s = open_blocks(ev, j - 1, repeat);
        if opens_block(ev[j - 1], repeat) {
            s.push(j - 1)
        } else if closes_block(ev[j - 1], repeat) && s.len() > 0 {
            s.drop_last()
        } else {
            s
        }
    }
}

/// The innermost block open at event `j`, if any.
pub open spec fn innermost_block(ev: Seq<ActivityEventTag>, j: int, repeat: bool) -> Option<int> {
    let s = open_blocks(ev, j, repeat);
    if s.len() > 0 {
        Some(s.last())
    } else {
        None
    }
}

/// The `if` at `i` has an `else`: some `else` after it has it as its
/// innermost open `if`.
pub open spec fn has_else_spec(ev: Seq<ActivityEventTag>, i: int) -> bool {
    &&& ev[i] is If
    &&& exists|j: int| i < j < ev.len() && #[trigger] ev[j] is Else && innermost_block(ev, j, false) == Some(i)
}

/// The open blocks are earlier events, each of which opens a block.
pub proof fn lemma_open_blocks_props(ev: Seq<ActivityEventTag>, j: int, repeat: bool)
    requires
        0 <= j <= ev.len(),
    ensures
        forall|m: int|
            0 <= m < open_blocks(ev, j, repeat).len() ==> {
                &&& 0 <= #[trigger] open_blocks(ev, j, repeat)[m] < j
                &&& opens_block(ev[open_blocks(ev, j, repeat)[m]], repeat)
            },
    decreases j,
{
    if j > 0 {
        lemma_open_blocks_props(ev, j - 1, repeat);
        let s = open_blocks(ev, j - 1, repeat);
        let t = open_blocks(ev, j, repeat);
        assert forall|m: int| 0 <= m < t.len() implies {
            &&& 0 <= #[trigger] t[m] < j
            &&& opens_block(ev[t[m]], repeat)
        } by {
            if opens_block(ev[j - 1], repeat) {
                if m < s.len() {
                    assert(t[m] == s[m]);
                }
            } else if closes_block(ev[j - 1], repeat) && s.len() > 0 {
                assert(t[m] == s[m]);
            } else {
                assert(t[m] == s[m]);
            }
        }
    }
}

/// For each event, whether it is an `if` that has an `else` (an `else` whose
/// innermost open `if` it is; `else if` does not count).
#[verifier::rlimit(40)]
pub fn if_has_else(events: &[ActivityEventTag]) -> (r: Vec<bool>)
    ensures
        r.len() == events.len(),
        forall|i: int| 0 <= i < events.len() ==> #[trigger] r[i] == has_else_spec(events@, i),
{
    let ghost ev = events@;
    let mut r: Vec<bool> = Vec::new();
    let mut stack: Vec<usize> = Vec::new();
    let mut k: usize = 0;
    while k < events.len()
        invariant
            ev == events@,
            k <= events.len(),
            r.len() == k,
            stack@.map_values(|x: usize| x as int) == open_blocks(ev, k as int, false),
            forall|i: int|
                0 <= i < k ==> #[trigger] r[i] == (ev[i] is If && exists|j: int|
                    i < j < k && #[trigger] ev[j] is Else && innermost_block(ev, j, false) == Some(
                        i,
                    )),
        decreases events.len() - k,
    {
        proof {
            lemma_open_blocks_props(ev, k as int, false);
        }
        let ghost before = stack@.map_values(|x: usize| x as int);
        match &events[k] {
            ActivityEventTag::If => {
                r.push(false);
                stack.push(k);
                assert(stack@.map_values(|x: usize| x as int) =~= before.push(k as int));
            },
            ActivityEventTag::Else => {
                r.push(false);
                if stack.len() > 0 {
                    let t = stack[stack.len() - 1];
                    assert(before.last() == t as int);
                    assert(before[before.len() - 1] < k);
                    r.set(t, true);
                }
            },
            ActivityEventTag::EndIf => {
                r.push(false);
                if stack.len() > 0 {
                    stack.pop();
                    assert(stack@.map_values(|x: usize| x as int) =~= before.drop_last());
                }
            },
            _ => {
                r.push(false);
            },
        }
        assert forall|i: int| 0 <= i < k + 1 implies #[trigger] r[i] == (ev[i] is If && exists|
            j: int,
        | i < j < k + 1 && #[trigger] ev[j] is Else && innermost_block(ev, j, false) == Some(i)) by {
            if i < k {
                if ev[k as int] is Else && innermost_block(ev, k as int, false) == Some(i) {
                    assert(ev[i] is If);
                }
            }
        }
        k += 1;
    }
    r
}

/// The backward action at `j` belongs to the `repeat` at `i`: `i` is the
/// innermost `repeat` open at `j`.
pub open spec fn backward_owned(ev: Seq<ActivityEventTag>, j: int, i: int) -> bool {
    ev[j] is Backward && innermost_block(ev, j, true) == Some(i)
}

/// The last backward action among the first `k` events that belongs to the
/// `repeat` at `i`.
pub open spec fn last_backward_before(ev: Seq<ActivityEventTag>, i: int, k: int) -> Option<int>
    decreases k,
{
    if k <= 0 {
        None
    } else if backward_owned(ev, k - 1, i) {
        Some(k - 1)
    } else {
        last_backward_before(ev, i, k - 1)
    }
}

/// For each event, the last backward action that belongs to it (only a
/// `repeat` owns any); the backward box of a repeat block is sized from it.
#[verifier::rlimit(40)]
pub fn repeat_backward_events(events: &[ActivityEventTag]) -> (r: Vec<Option<usize>>)
    ensures
        r.len() == events.len(),
        forall|i: int|
            0 <= i < events.len() ==> match last_backward_before(events@, i, events.len() as int) {
                None => #[trigger] r[i] is None,
                Some(j) => r[i] == Some(j as usize),
            },
{
    let ghost ev = events@;
    let mut r: Vec<Option<usize>> = Vec::new();
    let mut stack: Vec<usize> = Vec::new();
    let mut k: usize = 0;
    while k < events.len()
        invariant
            ev == events@,
            k <= events.len(),
            r.len() == k,
            stack@.map_values(|x: usize| x as int) == open_blocks(ev, k as int, true),
            forall|i: int|
                0 <= i < k ==> match last_backward_before(ev, i, k as int) {
                    None => #[trigger] r[i] is None,
                    Some(j) => r[i] == Some(j as usize),
                },
        decreases events.len() - k,
    {
        proof {
            lemma_open_blocks_props(ev, k as int, true);
        }
        let ghost before = stack@.map_values(|x: usize| x as int);
        let ghost r0 = r@;
        r.push(None);
        match &events[k] {
            ActivityEventTag::Repeat => {
                stack.push(k);
                assert(stack@.map_values(|x: usize| x as int) =~= before.push(k as int));
            },
            ActivityEventTag::Backward => {
                if stack.len() > 0 {
                    let t = stack[stack.len() - 1];
                    assert(before.last() == t as int);
                    assert(before[before.len() - 1] < k);
                    r.set(t, Some(k));
                }
            },
            ActivityEventTag::RepeatWhile => {
                if stack.len() > 0 {
                    stack.pop();
                    assert(stack@.map_values(|x: usize| x as int) =~= before.drop_last());
                }
            },
            _ => {},
        }
        assert forall|i: int| 0 <= i < k + 1 implies match last_backward_before(ev, i, k + 1) {
            None => #[trigger] r[i] is None,
            Some(j) => r[i] == Some(j as usize),
        } by {
            if i == k {
                assert(!backward_owned(ev, k as int, i));
                assert(last_backward_before(ev, i, k as int) is None) by {
                    lemma_nothing_owned_before(ev, i, k as int);
                }
            }
        }
        k += 1;
    }
    r
}

proof fn lemma_nothing_owned_before(ev: Seq<ActivityEventTag>, i: int, k: int)
    requires
        0 <= k <= i,
        i <= ev.len(),
    ensures
        last_backward_before(ev, i, k) is None,
    decreases k,
{
    if k > 0 {
        lemma_open_blocks_props(ev, k - 1, true);
        lemma_nothing_owned_before(ev, i, k - 1);
    }
}

/// The last `stop` among the first `k` events.
pub open spec fn last_stop_before(ev: Seq<ActivityEventTag>, k: int) -> Option<int>
    decreases k,
{
    if k <= 0 {
        None
    } else if ev[k - 1] is Stop {
        Some(k - 1)
    } else {
        last_stop_before(ev, k - 1)
    }
}

/// The index of the last `stop` event; in an old-style diagram the stops
/// before it share its node.
pub fn last_stop_index(events: &[ActivityEventTag]) -> (r: Option<usize>)
    ensures
        match last_stop_before(events@, events.len() as int) {
            None => r is None,
            Some(j) => r == Some(j as usize),
        },
{
    let mut k = events.len();
    while k > 0
        invariant
            k <= events.len(),
            last_stop_before(events@, events.len() as int) == last_stop_before(events@, k as int),
        decreases k,
    {
        if let ActivityEventTag::Stop = &events[k - 1] {
            return Some(k - 1);
        }
        k -= 1;
    }
    None
}

/// Whether `e` is a `goto` to the sync bar `name`.
pub open spec fn is_goto_bar(e: ActivityEventTag, name: Seq<char>) -> bool {
    e matches ActivityEventTag::GotoSyncBar(n) && n@ == name
}

/// Whether `e` is the sync bar `name` itself.
pub open spec fn is_bar(e: ActivityEventTag, name: Seq<char>) -> bool {
    e matches ActivityEventTag::SyncBar(n) && n@ == name
}

/// The number of `goto`s to the sync bar `name` among the first `k` events.
pub open spec fn goto_count_before(ev: Seq<ActivityEventTag>, name: Seq<char>, k: int) -> nat
    decreases k,
{
    if k <= 0 {
        0
    } else {
        goto_count_before(ev, name, k - 1) + if is_goto_bar(ev[k - 1], name) {
            1nat
        } else {
            0nat
        }
    }
}

/// The last `goto` to the sync bar `name` among the first `k` events.
pub open spec fn last_goto_before(ev: Seq<ActivityEventTag>, name: Seq<char>, k: int) -> Option<int>
    decreases k,
{
    if k <= 0 {
        None
    } else if is_goto_bar(ev[k - 1], name) {
        Some(k - 1)
    } else {
        last_goto_before(ev, name, k - 1)
    }
}

/// The first occurrence of the sync bar `name` at or after event `k`.
pub open spec fn first_bar_from(ev: Seq<ActivityEventTag>, name: Seq<char>, k: int) -> Option<int>
    decreases ev.len() - k,
{
    if k < 0 || k >= ev.len() {
        None
    } else if is_bar(ev[k], name) {
        Some(k)
    } else {
        first_bar_from(ev, name, k + 1)
    }
}

/// The event at which an old-style sync bar is placed: its last incoming
/// `goto` when it has one, else where the bar itself first appears.
pub open spec fn sync_bar_last_ref_spec(ev: Seq<ActivityEventTag>, name: Seq<char>) -> Option<int> {
    match last_goto_before(ev, name, ev.len() as int) {
        Some(j) => Some(j),
        None => first_bar_from(ev, name, 0),
    }
}

/// The number of `goto`s to the sync bar `name`.
pub fn sync_bar_goto_count(events: &[ActivityEventTag], name: &str) -> (r: usize)
    ensures
        r == goto_count_before(events@, name@, events.len() as int),
{
    let mut n: usize = 0;
    let mut k: usize = 0;
    while k < events.len()
        invariant
            k <= events.len(),
            n == goto_count_before(events@, name@, k as int),
            n <= k,
        decreases events.len() - k,
    {
        if let ActivityEventTag::GotoSyncBar(b) = &events[k] {
            if crate::text::str_eq(b.as_str(), name) {
                n += 1;
            }
        }
        k += 1;
    }
    n
}

/// The event at which an old-style sync bar is placed (see
/// `sync_bar_last_ref_spec`), if the bar occurs at all.
pub fn sync_bar_last_ref(events: &[ActivityEventTag], name: &str) -> (r: Option<usize>)
    ensures
        match sync_bar_last_ref_spec(events@, name@) {
            None => r is None,
            Some(j) => r == Some(j as usize),
        },
{
    let mut k = events.len();
    while k > 0
        invariant
            k <= events.len(),
            last_goto_before(events@, name@, events.len() as int) == last_goto_before(
                events@,
                name@,
                k as int,
            ),
        decreases k,
    {
        if let ActivityEventTag::GotoSyncBar(b) = &events[k - 1] {
            if crate::text::str_eq(b.as_str(), name) {
                return Some(k - 1);
            }
        }
        k -= 1;
    }
    let mut j: usize = 0;
    while j < events.len()
        invariant
            j <= events.len(),
            last_goto_before(events@, name@, events.len() as int) is None,
            first_bar_from(events@, name@, 0) == first_bar_from(events@, name@, j as int),
        decreases events.len() - j,
    {
        if let ActivityEventTag::SyncBar(b) = &events[j] {
            if crate::text::str_eq(b.as_str(), name) {
                return Some(j);
            }
        }
        j += 1;
    }
    None
}

/// Whether `e` leads the flow: a start, an action, an `if`, a `while` or a
/// `repeat`.
pub open spec fn is_lead(e: ActivityEventTag) -> bool {
    e is Start || e is Action || e is If || e is While || e is Repeat
}

/// The first leading event at or after `k`.
pub open spec fn first_lead_from(ev: Seq<ActivityEventTag>, k: int) -> Option<int>
    decreases ev.len() - k,
{
    if k < 0 || k >= ev.len() {
        None
    } else if is_lead(ev[k]) {
        Some(k)
    } else {
        first_lead_from(ev, k + 1)
    }
}

/// Whether the first leading event is an action (an action box starts one
/// unit lower than a diamond or a circle).
pub fn first_flow_is_action(events: &[ActivityEventTag]) -> (r: bool)
    ensures
        r == (first_lead_from(events@, 0) matches Some(j) && events@[j] is Action),
{
    let mut k: usize = 0;
    while k < events.len()
        invariant
            k <= events.len(),
            first_lead_from(events@, 0) == first_lead_from(events@, k as int),
        decreases events.len() - k,
    {
        match &events[k] {
            ActivityEventTag::Action => {
                return true;
            },
            ActivityEventTag::Start | ActivityEventTag::If | ActivityEventTag::While
            | ActivityEventTag::Repeat => {
                return false;
            },
            _ => {},
        }
        k += 1;
    }
    false
}

/// Lane switches, notes, labels, gotos, sync bars, forks, `else`, `endif`,
/// `endwhile`, `repeat while`, breaks and the rest are passed over; the first
/// start, action, `if`, `while` or `repeat` decides, and it is an action
/// exactly when the diagram opens with an action box.
pub proof fn lemma_first_lead_decides(pre: Seq<ActivityEventTag>, e: ActivityEventTag, rest: Seq<ActivityEventTag>)
    requires
        forall|i: int|
            0 <= i < pre.len() ==> !(#[trigger] pre[i] is Start || pre[i] is Action || pre[i] is If
                || pre[i] is While || pre[i] is Repeat),
    ensures
        (e is Start || e is If || e is While || e is Repeat) ==> first_lead_from(
            pre.push(e) + rest,
            0,
        ) == Some(pre.len() as int) && !((pre.push(e) + rest)[pre.len() as int] is Action),
        e is Action ==> first_lead_from(pre.push(e) + rest, 0) == Some(pre.len() as int) && (
        pre.push(e) + rest)[pre.len() as int] is Action,
        first_lead_from(pre, 0) is None,
{
    let ev = pre.push(e) + rest;
    lemma_first_lead_skips(pre, ev, 0);
    lemma_first_lead_skips(pre, pre, 0);
}

proof fn lemma_first_lead_skips(pre: Seq<ActivityEventTag>, ev: Seq<ActivityEventTag>, k: int)
    requires
        0 <= k <= pre.len() <= ev.len(),
        forall|i: int| 0 <= i < pre.len() ==> ev[i] == pre[i],
        forall|i: int|
            0 <= i < pre.len() ==> !(#[trigger] pre[i] is Start || pre[i] is Action || pre[i] is If
                || pre[i] is While || pre[i] is Repeat),
    ensures
        first_lead_from(ev, k) == first_lead_from(ev, pre.len() as int),
    decreases pre.len() - k,
{
    if k < pre.len() {
        assert(!is_lead(ev[k]));
        lemma_first_lead_skips(pre, ev, k + 1);
    }
}

} // verus!

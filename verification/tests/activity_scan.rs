use plantuml_little::activity::NotePositionLayout;
use plantuml_little::activity_scan::{
    first_flow_is_action, if_has_else, last_stop_index, repeat_backward_events,
    sync_bar_goto_count, sync_bar_last_ref, ActivityEventTag as E,
};

#[test]
fn else_belongs_to_innermost_if() {
    assert_eq!(
        if_has_else(&[E::If, E::Action, E::Else, E::Action, E::EndIf, E::If, E::Action, E::EndIf]),
        vec![true, false, false, false, false, false, false, false]
    );
    assert_eq!(
        if_has_else(&[E::If, E::If, E::Else, E::EndIf, E::Else, E::EndIf]),
        vec![true, true, false, false, false, false]
    );
    assert_eq!(if_has_else(&[E::If, E::If, E::EndIf, E::EndIf, E::Else]), vec![false; 5]);
    assert_eq!(if_has_else(&[E::If, E::ElseIf, E::EndIf]), vec![false; 3]);
    assert_eq!(if_has_else(&[E::EndIf, E::If, E::Else]), vec![false, true, false]);
}

#[test]
fn backward_belongs_to_innermost_repeat() {
    assert_eq!(
        repeat_backward_events(&[
            E::Repeat, E::Action, E::Backward, E::Repeat, E::Backward, E::RepeatWhile, E::Backward, E::RepeatWhile
        ]),
        vec![Some(6), None, None, Some(4), None, None, None, None]
    );
    assert_eq!(repeat_backward_events(&[E::Backward, E::Repeat, E::RepeatWhile, E::Backward]), vec![None; 4]);
}

#[test]
fn last_stop_is_found() {
    assert_eq!(last_stop_index(&[E::Start, E::Stop, E::Action, E::Stop, E::Action]), Some(3));
    assert_eq!(last_stop_index(&[E::Start, E::Action]), None);
    assert_eq!(last_stop_index(&[]), None);
}

#[test]
fn sync_bar_placement() {
    let bar = |s: &str| E::SyncBar(s.to_string());
    let goto = |s: &str| E::GotoSyncBar(s.to_string());
    let ev = vec![bar("a"), goto("a"), goto("b"), goto("a"), bar("a")];
    assert_eq!(sync_bar_goto_count(&ev, "a"), 2);
    assert_eq!(sync_bar_last_ref(&ev, "a"), Some(3));
    assert_eq!(sync_bar_goto_count(&ev, "b"), 1);
    assert_eq!(sync_bar_last_ref(&ev, "b"), Some(2));
    assert_eq!(sync_bar_goto_count(&ev, "c"), 0);
    assert_eq!(sync_bar_last_ref(&ev, "c"), None);
    let ev = vec![E::Action, bar("x"), E::ResumeFromSyncBar("x".to_string()), bar("x")];
    assert_eq!(sync_bar_last_ref(&ev, "x"), Some(1));
}

#[test]
fn first_leading_event_decides_top_margin() {
    assert!(first_flow_is_action(&[E::Swimlane("lane".to_string()), E::Note(NotePositionLayout::Right), E::Action, E::Start]));
    assert!(!first_flow_is_action(&[E::Swimlane("lane".to_string()), E::If, E::Action]));
    assert!(!first_flow_is_action(&[E::Note(NotePositionLayout::Right), E::Stop]));
    assert!(!first_flow_is_action(&[]));
}

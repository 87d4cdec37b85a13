use codex_tui::bottom_pane::{
    border_for_input_focus, BottomPane, InputResult, KeyKind, KeyStep, ModalStep, PaneKey,
    PaneState, StateChange,
};
use codex_tui::slash_command_overlay::Area;

fn key(kind: KeyKind) -> PaneKey {
    PaneKey { kind, plain_enter: kind == KeyKind::Enter }
}

fn typed(pane: &mut BottomPane, text: &str) {
    assert!(matches!(pane.after_textarea_input(text), InputResult::Nothing));
}

#[test]
fn new_pane_shows_text_input() {
    let p = BottomPane::new(true);
    assert!(matches!(p.state, PaneState::TextInput));
    assert!(p.has_input_focus);
    assert!(!p.is_task_running);
    assert!(!p.show_slash_overlay);
    assert_eq!(p.slash_filter, "");
    assert_eq!(p.slash_overlay_height, None);
    assert!(!p.slash_overlay_locked);
}

#[test]
fn border_is_bright_only_with_focus_and_input() {
    let b = border_for_input_focus(&PaneState::TextInput, true);
    assert_eq!(b.title, "use Enter to send for now (Ctrl-D to quit)");
    assert_eq!(b.right_title, "press enter to send");
    assert!(!b.dimmed);
    let b = border_for_input_focus(&PaneState::ApprovalModal { current: 1, queue: vec![] }, true);
    assert!(!b.dimmed);
    let b = border_for_input_focus(&PaneState::StatusIndicator, true);
    assert_eq!((b.title, b.right_title, b.dimmed), ("", "", true));
    let b = border_for_input_focus(&PaneState::TextInput, false);
    assert_eq!((b.title, b.right_title, b.dimmed), ("", "", true));
    let mut p = BottomPane::new(false);
    assert!(p.border().dimmed);
    p.set_input_focus(true);
    assert!(!p.border().dimmed);
}

#[test]
fn slash_opens_popup_and_locks_height() {
    let mut p = BottomPane::new(true);
    typed(&mut p, "/");
    assert!(p.show_slash_overlay);
    assert_eq!(p.slash_filter, "");
    // At 80 columns the descriptions take 11 rows.
    assert_eq!(p.slash_overlay_height, Some(11));
    assert!(p.slash_overlay_locked);
    typed(&mut p, "/c");
    assert_eq!(p.slash_filter, "c");
    assert!(p.show_slash_overlay);
    assert_eq!(p.slash_selected, 0);
}

#[test]
fn unmatched_filter_hides_popup_and_unlocks() {
    let mut p = BottomPane::new(true);
    typed(&mut p, "/c");
    typed(&mut p, "/cx");
    assert!(!p.show_slash_overlay);
    assert_eq!(p.slash_overlay_height, None);
    assert!(!p.slash_overlay_locked);
    typed(&mut p, "hello");
    assert!(!p.show_slash_overlay);
    assert_eq!(p.slash_filter, "");
    assert_eq!(p.slash_selected, 0);
}

#[test]
fn selection_past_the_list_moves_to_its_end() {
    let mut p = BottomPane::new(true);
    typed(&mut p, "/");
    p.slash_selected = 5;
    typed(&mut p, "/c");
    assert_eq!(p.slash_selected, 2);
    p.slash_selected = 1;
    typed(&mut p, "/cl");
    assert_eq!(p.slash_selected, 1);
}

#[test]
fn selection_inside_the_list_is_kept() {
    let mut p = BottomPane::new(true);
    typed(&mut p, "/");
    p.slash_selected = 1;
    typed(&mut p, "/c");
    assert_eq!(p.slash_selected, 1);
    assert_eq!(p.slash_scroll_offset, 0);
    typed(&mut p, "/cx");
    assert_eq!(p.slash_selected, 0);
}

#[test]
fn up_and_down_wrap_around() {
    let mut p = BottomPane::new(true);
    typed(&mut p, "/c");
    assert!(matches!(p.handle_key_event(key(KeyKind::Up), "/c"), KeyStep::Done(InputResult::Nothing)));
    assert_eq!(p.slash_selected, 2);
    assert!(matches!(p.handle_key_event(key(KeyKind::Down), "/c"), KeyStep::Done(InputResult::Nothing)));
    assert_eq!(p.slash_selected, 0);
    p.handle_key_event(key(KeyKind::Down), "/c");
    p.handle_key_event(key(KeyKind::Down), "/c");
    assert_eq!(p.slash_selected, 2);
    p.handle_key_event(key(KeyKind::Up), "/c");
    assert_eq!(p.slash_selected, 1);
    assert_eq!(p.slash_scroll_offset, 0);
}

#[test]
fn down_scrolls_to_keep_selection_visible() {
    let mut p = BottomPane::new(true);
    typed(&mut p, "/");
    p.slash_selected = 8;
    p.slash_scroll_offset = 0;
    // Nine commands are listed and nine rows shown: no scrolling needed.
    p.handle_key_event(key(KeyKind::Down), "/");
    assert_eq!(p.slash_selected, 0);
    assert_eq!(p.slash_scroll_offset, 0);
    // Up above the scroll position moves it.
    p.slash_scroll_offset = 4;
    p.slash_selected = 4;
    p.handle_key_event(key(KeyKind::Up), "/");
    assert_eq!((p.slash_selected, p.slash_scroll_offset), (3, 3));
}

#[test]
fn enter_in_popup_executes_selected_command() {
    let mut p = BottomPane::new(true);
    typed(&mut p, "/c");
    p.handle_key_event(key(KeyKind::Down), "/c");
    match p.handle_key_event(key(KeyKind::Enter), "/c") {
        KeyStep::ClearInput(InputResult::ExecuteCommand(name)) => assert_eq!(name, "/clearhistory"),
        _ => panic!("expected a command"),
    }
    assert!(!p.show_slash_overlay);
    assert_eq!(p.slash_filter, "");
    assert_eq!((p.slash_selected, p.slash_scroll_offset), (0, 0));
    // The height lock is kept.
    assert!(p.slash_overlay_locked);
}

#[test]
fn enter_submits_text() {
    let mut p = BottomPane::new(true);
    typed(&mut p, "hi there");
    match p.handle_key_event(key(KeyKind::Enter), "hi there") {
        KeyStep::ClearInput(InputResult::Submitted(text)) => assert_eq!(text, "hi there"),
        _ => panic!("expected a submission"),
    }
    // Enter with Shift goes to the text area.
    let shifted = PaneKey { kind: KeyKind::Enter, plain_enter: false };
    assert!(matches!(p.handle_key_event(shifted, "x"), KeyStep::ToTextarea));
    assert!(matches!(p.handle_key_event(key(KeyKind::Other), "x"), KeyStep::ToTextarea));
    // Without the popup, arrows go to the text area too.
    assert!(matches!(p.handle_key_event(key(KeyKind::Up), "x"), KeyStep::ToTextarea));
}

#[test]
fn enter_with_empty_popup_submits_text() {
    let mut p = BottomPane::new(true);
    typed(&mut p, "/");
    p.slash_filter = "zzz".to_string();
    match p.handle_key_event(key(KeyKind::Enter), "/zzz") {
        KeyStep::ClearInput(InputResult::Submitted(text)) => assert_eq!(text, "/zzz"),
        _ => panic!("expected a submission"),
    }
}

#[test]
fn keys_go_to_status_view_and_modal() {
    let mut p = BottomPane::new(true);
    assert!(matches!(p.set_task_running(true, 1), StateChange::ToStatus(5)));
    assert!(matches!(p.handle_key_event(key(KeyKind::Up), ""), KeyStep::ToStatusView));
    assert!(p.update_status_text());
    assert!(p.push_approval_request(7));
    assert!(matches!(p.handle_key_event(key(KeyKind::Up), ""), KeyStep::ToApprovalModal));
    assert!(!p.update_status_text());
}

#[test]
fn task_running_switches_between_input_and_status() {
    let mut p = BottomPane::new(true);
    assert!(matches!(p.set_task_running(false, 0), StateChange::Unchanged));
    match p.set_task_running(true, 10) {
        StateChange::ToStatus(h) => assert_eq!(h, 12),
        _ => panic!("expected the status indicator"),
    }
    assert!(p.is_task_running);
    assert!(matches!(p.set_task_running(true, 0), StateChange::Unchanged));
    assert!(matches!(p.set_task_running(false, 0), StateChange::ToTextInput));
    assert!(matches!(p.state, PaneState::TextInput));
    p.push_approval_request(1);
    assert!(matches!(p.set_task_running(true, 0), StateChange::Unchanged));
    assert!(matches!(p.state, PaneState::ApprovalModal { .. }));
    assert!(p.is_task_running);
}

#[test]
fn approval_requests_are_shown_in_order() {
    let mut p = BottomPane::new(true);
    assert!(p.push_approval_request(1));
    assert!(!p.push_approval_request(2));
    assert!(!p.push_approval_request(3));
    assert!(matches!(p.approval_key_handled(false, 0), ModalStep::StillOpen));
    assert!(matches!(p.approval_key_handled(true, 0), ModalStep::NextRequest(2)));
    assert!(matches!(p.approval_key_handled(true, 0), ModalStep::NextRequest(3)));
    assert!(matches!(p.approval_key_handled(true, 0), ModalStep::Closed(StateChange::ToTextInput)));
    assert!(matches!(p.state, PaneState::TextInput));
}

#[test]
fn last_approval_returns_to_status_while_running() {
    let mut p = BottomPane::new(true);
    p.set_task_running(true, 0);
    p.push_approval_request(9);
    match p.approval_key_handled(true, 4) {
        ModalStep::Closed(StateChange::ToStatus(h)) => assert_eq!(h, 6),
        _ => panic!("expected the status indicator"),
    }
    assert!(matches!(p.state, PaneState::StatusIndicator));
}

#[test]
fn overlay_heights() {
    let mut p = BottomPane::new(true);
    assert_eq!(p.calculate_overlay_height_for_all_commands(80), 11);
    assert_eq!(p.calculate_overlay_height_for_all_commands(40), 20);
    let area = Area { x: 0, y: 0, width: 80, height: 30 };
    assert_eq!(p.calc_overlay_height(area), 0);
    typed(&mut p, "/");
    assert_eq!(p.calc_overlay_height(area), 11);
    assert_eq!(p.calc_overlay_height(Area { x: 0, y: 0, width: 80, height: 10 }), 5);
    p.reset_overlay_height_lock();
    assert_eq!(p.calc_overlay_height(Area { x: 0, y: 0, width: 40, height: 30 }), 23);
    p.lock_overlay_height(20);
    assert_eq!(p.slash_overlay_height, Some(20));
    p.lock_overlay_height(80);
    assert_eq!(p.slash_overlay_height, Some(20));
}

#[test]
fn required_height_and_layout() {
    let mut p = BottomPane::new(true);
    let area = Area { x: 0, y: 0, width: 80, height: 30 };
    assert_eq!(p.required_height(area, 1, 99), 5);
    assert_eq!(p.required_height(area, 7, 99), 9);
    typed(&mut p, "/");
    assert_eq!(p.required_height(area, 1, 99), 16);
    assert_eq!(p.required_height(Area { x: 0, y: 0, width: 80, height: 12 }, 1, 99), 12);
    let l = p.text_input_layout(area, 1);
    assert_eq!((l.input.x, l.input.y, l.input.width, l.input.height), (0, 14, 80, 5));
    let o = l.overlay.expect("the popup is shown");
    assert_eq!((o.x, o.y, o.width, o.height), (0, 19, 80, 11));
    p.set_task_running(true, 0);
    assert_eq!(p.required_height(area, 1, 99), 99);
}

#[test]
fn layout_without_popup() {
    let p = BottomPane::new(true);
    let l = p.text_input_layout(Area { x: 3, y: 2, width: 50, height: 10 }, 4);
    assert_eq!((l.input.x, l.input.y, l.input.width, l.input.height), (3, 6, 50, 6));
    assert!(l.overlay.is_none());
}

#[test]
fn current_input_joins_lines() {
    let lines = vec!["a".to_string(), "".to_string(), "bc".to_string()];
    assert_eq!(BottomPane::current_input(&lines), "a\n\nbc");
    assert_eq!(BottomPane::current_input(&[]), "");
}

#[test]
fn filtered_slash_commands_follow_filter() {
    let mut p = BottomPane::new(true);
    typed(&mut p, "/h");
    let names: Vec<&str> = p.filtered_slash_commands().iter().map(|c| c.name).collect();
    assert_eq!(names, vec!["/help", "/history"]);
}

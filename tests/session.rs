use clipr::clip::ClipContent;
use clipr::history::ClipboardHistory;
use clipr::registry::{RegisterError, Registry};
use clipr::view::{ActionError, AppMode, RegisterFilter, Session, ViewMode};

fn session_with(texts: &[&str]) -> Session {
    let mut history = ClipboardHistory::new(100);
    for t in texts {
        history.add_entry(ClipContent::Text(t.to_string()));
    }
    Session::new(history, Registry::new(), true, ViewMode::Compact)
}

#[test]
fn navigation_clamps() {
    let mut s = session_with(&["a", "b", "c"]);
    assert_eq!(s.visible_clips(), vec![3, 2, 1]);
    s.move_down(10);
    assert_eq!(s.selected_index, 2);
    s.move_down(usize::MAX);
    assert_eq!(s.selected_index, 2);
    s.move_up(1);
    assert_eq!(s.selected_clip_id(), Some(2));
    s.move_up(usize::MAX);
    assert_eq!(s.selected_index, 0);
    s.jump_to_bottom();
    assert_eq!(s.selected_index, 2);
    s.jump_to_number(7);
    assert_eq!(s.selected_index, 2);
    s.jump_to_number(1);
    assert_eq!(s.selected_index, 1);
    s.jump_to_top();
    assert_eq!(s.selected_index, 0);
}

#[test]
fn page_sizes_follow_view_mode() {
    let mut s = session_with(&[]);
    s.list_height = 21;
    assert_eq!(s.full_page_size(), 21);
    assert_eq!(s.half_page_size(), 10);
    s.toggle_view_mode();
    assert_eq!(s.view_mode, ViewMode::Comfortable);
    assert_eq!(s.full_page_size(), 10);
    assert_eq!(s.half_page_size(), 5);
    s.list_height = 1;
    assert_eq!(s.full_page_size(), 1);
    assert_eq!(s.half_page_size(), 1);
}

#[test]
fn filters_and_register_toggle() {
    let mut s = session_with(&["a", "b", "c"]);
    s.move_down(1);
    s.enter_register_mode();
    assert_eq!(s.mode, AppMode::RegisterAssign);
    s.assign_register('q').unwrap();
    assert_eq!(s.mode, AppMode::Normal);
    assert_eq!(s.registers.get_temporary('q'), Some(2));
    s.toggle_temporary_filter();
    assert_eq!(s.register_filter, RegisterFilter::Temporary);
    assert_eq!(s.visible_clips(), vec![2]);
    s.assign_register('q').unwrap();
    assert_eq!(s.registers.get_temporary('q'), None);
    assert_eq!(s.visible_clips(), Vec::<u64>::new());
    assert_eq!(s.assign_register('q'), Err(ActionError::NoClipSelected));
    s.toggle_temporary_filter();
    assert_eq!(s.register_filter, RegisterFilter::All);
    s.toggle_permanent_filter();
    assert_eq!(s.visible_clips(), Vec::<u64>::new());
    s.toggle_permanent_filter();
    assert_eq!(
        s.assign_register('!'),
        Err(ActionError::Register(RegisterError::InvalidKey('!')))
    );
}

#[test]
fn search_input_narrows_and_clears() {
    let mut s = session_with(&["apple pie", "banana", "apple juice"]);
    s.enter_search_mode();
    assert_eq!(s.mode, AppMode::Search);
    for c in "apple".chars() {
        s.search_input_char(c);
    }
    let v = s.visible_clips();
    assert_eq!(v.len(), 2);
    assert!(v.contains(&1) && v.contains(&3));
    s.search_backspace();
    assert_eq!(s.search_query, "appl");
    s.exit_search_mode();
    assert_eq!(s.mode, AppMode::Normal);
    s.clear_search();
    assert_eq!(s.visible_clips(), vec![3, 2, 1]);
}

#[test]
fn delete_pin_clear_and_select() {
    let mut s = session_with(&["a", "b", "c"]);
    s.jump_to_bottom();
    s.delete_entry().unwrap();
    assert_eq!(s.visible_clips(), vec![3, 2]);
    assert_eq!(s.selected_index, 1);
    s.toggle_pin().unwrap();
    s.toggle_pinned_filter();
    assert_eq!(s.register_filter, RegisterFilter::Pinned);
    assert_eq!(s.visible_clips(), vec![2]);
    s.toggle_pinned_filter();
    assert_eq!(s.register_filter, RegisterFilter::All);
    s.selected_index = 1;
    s.enter_confirm_clear_all();
    assert_eq!(s.mode, AppMode::Confirm);
    s.clear_all_unpinned();
    assert_eq!(s.visible_clips(), vec![2]);
    assert_eq!(s.mode, AppMode::Normal);
    match s.selected_content() {
        Ok(ClipContent::Text(t)) => assert_eq!(t, "b"),
        _ => panic!("expected text"),
    }
    s.finish_select();
    assert!(s.should_quit);
    s.toggle_help();
    assert_eq!(s.mode, AppMode::Help);
    s.toggle_help();
    assert_eq!(s.mode, AppMode::Normal);
    s.enter_confirm_clear_all();
    s.cancel_confirm();
    assert_eq!(s.mode, AppMode::Normal);
}

#[test]
fn empty_session_reports_no_selection() {
    let mut s = session_with(&[]);
    assert_eq!(s.selected_clip_id(), None);
    assert_eq!(s.delete_entry(), Err(ActionError::NoClipSelected));
    assert_eq!(s.toggle_pin(), Err(ActionError::NoClipSelected));
    assert!(s.selected_content().is_err());
    s.quit();
    assert!(s.should_quit);
}

#[test]
fn delete_succeeds_or_refuses_by_permanent_register() {
    let mut s = session_with(&["a", "b"]);
    s.registers.assign_temporary('a', 2, &mut s.history).unwrap();
    assert_eq!(s.delete_entry(), Ok(()));
    assert_eq!(s.registers.get_temporary('a'), None);
    assert!(s.history.get_entry(2).is_none());
    s.registers.assign_permanent('p', 1, &mut s.history).unwrap();
    assert_eq!(
        s.delete_entry(),
        Err(ActionError::Register(RegisterError::CannotDelete(1)))
    );
    assert!(s.history.get_entry(1).is_some());
    assert_eq!(s.registers.get_permanent('p'), Some(1));
}

#[test]
fn selected_image_and_content() {
    let mut history = ClipboardHistory::new(10);
    history.add_entry(ClipContent::Image { data: vec![1, 2, 3], mime_type: "image/png".to_string() });
    history.add_entry(ClipContent::File { path: "/tmp/f".to_string(), mime_type: "text/plain".to_string() });
    let mut s = Session::new(history, Registry::new(), false, ViewMode::Compact);
    assert!(s.selected_image().is_none());
    assert_eq!(s.selected_content().err(), Some(ActionError::UnsupportedContent));
    s.move_down(1);
    let (id, data) = s.selected_image().unwrap();
    assert_eq!(id, 1);
    assert_eq!(data, &vec![1u8, 2, 3]);
    assert!(s.selected_content().is_ok());
}

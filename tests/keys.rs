use clipr::clip::ClipContent;
use clipr::history::ClipboardHistory;
use clipr::keys::{Effect, Key, KeyPress};
use clipr::registry::Registry;
use clipr::view::{AppMode, RegisterFilter, Session, ViewMode};

fn press(key: Key) -> KeyPress {
    KeyPress { key, ctrl: false, alt: false, plain: true }
}

fn ctrl(c: char) -> KeyPress {
    KeyPress { key: Key::Char(c), ctrl: true, alt: false, plain: false }
}

fn session(n: usize) -> Session {
    let mut history = ClipboardHistory::new(100);
    for i in 0..n {
        history.add_entry(ClipContent::Text(format!("clip {}", i)));
    }
    Session::new(history, Registry::new(), false, ViewMode::Compact)
}

#[test]
fn numeric_prefix_moves_by_count() {
    let mut s = session(30);
    s.handle_key(press(Key::Char('1'))).unwrap();
    s.handle_key(press(Key::Char('2'))).unwrap();
    assert_eq!(s.mode, AppMode::Numeric);
    assert_eq!(s.prefix_count(1), 12);
    s.handle_key(press(Key::Char('j'))).unwrap();
    assert_eq!(s.selected_index, 12);
    assert_eq!(s.mode, AppMode::Normal);
    assert!(s.numeric_prefix.is_empty());
    s.handle_key(press(Key::Char('5'))).unwrap();
    s.handle_key(press(Key::Enter)).unwrap();
    assert_eq!(s.selected_index, 5);
    s.handle_key(press(Key::Char('9'))).unwrap();
    s.handle_key(press(Key::Char('x'))).unwrap();
    assert_eq!(s.selected_index, 5);
    assert_eq!(s.mode, AppMode::Normal);
}

#[test]
fn oversized_prefix_falls_back_to_default() {
    let mut s = session(3);
    for _ in 0..30 {
        s.handle_key(press(Key::Char('9'))).unwrap();
    }
    assert_eq!(s.prefix_count(1), 1);
    s.handle_key(press(Key::Char('j'))).unwrap();
    assert_eq!(s.selected_index, 1);
}

#[test]
fn modes_and_effects() {
    let mut s = session(3);
    assert_eq!(s.handle_key(press(Key::Enter)), Ok(Effect::CopySelection));
    assert_eq!(s.handle_key(ctrl('r')), Ok(Effect::ReloadTheme));
    assert_eq!(s.handle_key(ctrl('t')), Ok(Effect::CycleTheme));
    assert_eq!(
        s.handle_key(KeyPress { key: Key::Char('t'), ctrl: false, alt: true, plain: false }),
        Ok(Effect::SaveTheme)
    );
    assert_eq!(s.handle_key(press(Key::Char('T'))), Ok(Effect::OpenThemePicker));
    s.open_theme_picker(3, 1);
    assert_eq!(s.mode, AppMode::ThemePicker);
    s.handle_key(press(Key::Down)).unwrap();
    s.handle_key(press(Key::Down)).unwrap();
    assert_eq!(s.theme_picker_selected, 2);
    assert_eq!(s.handle_key(press(Key::Enter)), Ok(Effect::ApplyTheme(2)));
    assert_eq!(s.mode, AppMode::Normal);
    s.handle_key(press(Key::Char('?'))).unwrap();
    assert_eq!(s.mode, AppMode::Help);
    s.handle_key(press(Key::Other)).unwrap();
    assert_eq!(s.mode, AppMode::Normal);
    s.handle_key(press(Key::Char('\''))).unwrap();
    assert_eq!(s.register_filter, RegisterFilter::Temporary);
    s.handle_key(press(Key::Esc)).unwrap();
    assert_eq!(s.register_filter, RegisterFilter::All);
    s.handle_key(press(Key::Esc)).unwrap();
    assert!(s.should_quit);
}

#[test]
fn register_search_and_confirm_modes() {
    let mut s = session(3);
    s.handle_key(press(Key::Char('m'))).unwrap();
    s.handle_key(press(Key::Char('a'))).unwrap();
    assert_eq!(s.registers.get_temporary('a'), Some(3));
    s.handle_key(press(Key::Char('m'))).unwrap();
    s.handle_key(press(Key::Esc)).unwrap();
    assert_eq!(s.mode, AppMode::Normal);
    s.handle_key(press(Key::Char('/'))).unwrap();
    s.handle_key(press(Key::Char('2'))).unwrap();
    assert_eq!(s.search_query, "2");
    assert_eq!(s.visible_clips(), vec![3]);
    assert_eq!(s.handle_key(press(Key::Enter)), Ok(Effect::CopySelection));
    assert_eq!(s.mode, AppMode::Normal);
    s.handle_key(press(Key::Esc)).unwrap();
    assert!(s.search_query.is_empty());
    s.handle_key(press(Key::Char('D'))).unwrap();
    s.handle_key(press(Key::Char('y'))).unwrap();
    assert_eq!(s.visible_clips(), vec![3]);
    assert_eq!(s.mode, AppMode::Normal);
}

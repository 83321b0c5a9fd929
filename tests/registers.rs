use clipr::clip::ClipContent;
use clipr::config::{Config, PermanentRegisterValue};
use clipr::history::ClipboardHistory;
use clipr::registry::{RegisterError, Registry};

fn text(s: &str) -> ClipContent {
    ClipContent::Text(s.to_string())
}

fn read_back(history: &ClipboardHistory) -> Registry {
    let mut r = Registry::new();
    r.rebuild_from_history(history);
    r
}

fn same(a: &Registry, b: &Registry) -> bool {
    a.temporary_registers() == b.temporary_registers()
        && a.permanent_registers() == b.permanent_registers()
}

#[test]
fn deleting_entry_drops_its_temporary_register() {
    let mut history = ClipboardHistory::new(10);
    let mut registry = Registry::new();
    let id = history.add_entry(text("a"));
    registry.assign_temporary('a', id, &mut history).unwrap();
    registry.delete_entry(id, &mut history).unwrap();
    assert_eq!(registry.get_temporary('a'), None);
    assert!(history.get_entry(id).is_none());
}

#[test]
fn register_errors() {
    let mut history = ClipboardHistory::new(10);
    let mut registry = Registry::new();
    let id = history.add_entry(text("a"));
    assert_eq!(registry.assign_temporary('!', id, &mut history), Err(RegisterError::InvalidKey('!')));
    assert_eq!(registry.assign_temporary('a', 99, &mut history), Err(RegisterError::UnknownEntry(99)));
    assert_eq!(registry.get_temporary('a'), None);
    registry.assign_permanent('p', id, &mut history).unwrap();
    assert_eq!(registry.delete_entry(id, &mut history), Err(RegisterError::CannotDelete(id)));
    assert!(history.get_entry(id).is_some());
    assert_eq!(registry.delete_entry(42, &mut history), Err(RegisterError::UnknownEntry(42)));
    assert_eq!(registry.remove_permanent('#', &mut history), Err(RegisterError::InvalidKey('#')));
}

#[test]
fn registers_read_back_after_every_operation() {
    let mut history = ClipboardHistory::new(100);
    let mut registry = Registry::new();
    let a = history.add_entry(text("a"));
    let b = history.add_entry(text("b"));
    let c = history.add_entry(text("c"));
    let steps: Vec<(char, u64, u8)> = vec![
        ('x', a, 0), ('y', b, 0), ('x', c, 0), ('1', a, 1), ('y', 0, 2), ('Q', b, 1),
        ('z', c, 0), ('1', b, 1), ('z', 0, 3), ('x', 0, 2),
    ];
    for (key, id, op) in steps {
        match op {
            0 => registry.assign_temporary(key, id, &mut history).unwrap(),
            1 => registry.assign_permanent(key, id, &mut history).unwrap(),
            2 => registry.remove_temporary(key, &mut history).unwrap(),
            _ => {
                let target = registry.get_temporary(key).unwrap();
                registry.delete_entry(target, &mut history).unwrap();
            }
        }
        history.add_entry(text(&format!("filler {}{}", key, op)));
        assert!(same(&registry, &read_back(&history)));
    }
    assert_eq!(registry.permanent_count(), 2);
    assert!(registry.has_permanent('1') && !registry.has_temporary('y'));
}

#[test]
fn rebuild_last_entry_wins_and_skips_bad_keys() {
    let mut history = ClipboardHistory::new(10);
    let a = history.add_entry(text("a"));
    let b = history.add_entry(text("b"));
    history.get_entry_mut(a).unwrap().add_temporary_register('k');
    history.get_entry_mut(b).unwrap().add_temporary_register('k');
    history.get_entry_mut(b).unwrap().add_temporary_register('!');
    let r = read_back(&history);
    // entries are newest first, so `a` is scanned last
    assert_eq!(r.get_temporary('k'), Some(a));
    assert_eq!(r.temporary_count(), 1);
}

#[test]
fn clear_temporary_empties_every_list() {
    let mut history = ClipboardHistory::new(10);
    let mut registry = Registry::default();
    let a = history.add_entry(text("a"));
    registry.assign_temporary('a', a, &mut history).unwrap();
    registry.assign_temporary('b', a, &mut history).unwrap();
    registry.assign_permanent('c', a, &mut history).unwrap();
    registry.clear_temporary(&mut history);
    assert!(history.get_entry(a).unwrap().temporary_registers.is_empty());
    assert_eq!(registry.permanent_registers(), vec![('c', a)]);
}

#[test]
fn permanent_config_is_idempotent() {
    let mut history = ClipboardHistory::new(10);
    let mut registry = Registry::new();
    let mut config = Config::default();
    config.permanent_registers.push((
        'e',
        PermanentRegisterValue::from_fields(Some("me@example.com".to_string()), None, None, Some("email".to_string()), None).unwrap(),
    ));
    config.permanent_registers.push((
        's',
        PermanentRegisterValue::from_fields(None, Some("/tmp/sig.png".to_string()), None, None, None).unwrap(),
    ));
    registry.load_permanent_from_config(&config, &mut history).unwrap();
    assert_eq!(history.len(), 2);
    registry.load_permanent_from_config(&config, &mut history).unwrap();
    assert_eq!(history.len(), 2);
    let e = registry.get_permanent('e').unwrap();
    assert_eq!(history.get_entry(e).unwrap().name.as_deref(), Some("email"));
    let s = registry.get_permanent('s').unwrap();
    assert_eq!(
        history.get_entry(s).unwrap().preview(80),
        "[File: application/octet-stream (sig.png)]"
    );
    assert!(same(&registry, &read_back(&history)));
}

#[test]
fn permanent_config_with_bad_key_fails() {
    let mut history = ClipboardHistory::new(10);
    let mut registry = Registry::new();
    let mut config = Config::default();
    config.permanent_registers.push((
        '%',
        PermanentRegisterValue::from_fields(Some("x".to_string()), None, None, None, None).unwrap(),
    ));
    assert_eq!(
        registry.load_permanent_from_config(&config, &mut history),
        Err(RegisterError::InvalidKey('%'))
    );
}

#[test]
fn repair_drops_colliding_and_invalid_keys() {
    let mut history = ClipboardHistory::new(10);
    let a = history.add_entry(text("a"));
    let b = history.add_entry(text("b"));
    history.get_entry_mut(a).unwrap().add_temporary_register('k');
    history.get_entry_mut(b).unwrap().add_temporary_register('k');
    history.get_entry_mut(b).unwrap().add_temporary_register('!');
    history.get_entry_mut(b).unwrap().add_permanent_register('P');
    let mut registry = Registry::new();
    registry.repair_from_history(&mut history);
    assert_eq!(registry.get_temporary('k'), Some(a));
    assert!(history.get_entry(b).unwrap().temporary_registers.is_empty());
    assert_eq!(history.get_entry(a).unwrap().temporary_registers, vec!['k']);
    assert_eq!(registry.get_permanent('P'), Some(b));
    assert!(same(&registry, &read_back(&history)));
}

#[test]
fn permanent_config_points_at_matching_entry() {
    let mut history = ClipboardHistory::new(10);
    let mut registry = Registry::new();
    let existing = history.add_entry(text("sig"));
    let mut config = Config::default();
    config.permanent_registers.push((
        'x',
        PermanentRegisterValue::from_fields(Some("sig".to_string()), None, None, Some("n".to_string()), None).unwrap(),
    ));
    registry.load_permanent_from_config(&config, &mut history).unwrap();
    assert_eq!(registry.get_permanent('x'), Some(existing));
    assert_eq!(history.get_entry(existing).unwrap().permanent_registers, vec!['x']);
    let next = history.next_id();
    let before: Vec<(u64, Vec<char>)> =
        history.entries().iter().map(|e| (e.id, e.permanent_registers.clone())).collect();
    registry.load_permanent_from_config(&config, &mut history).unwrap();
    let after: Vec<(u64, Vec<char>)> =
        history.entries().iter().map(|e| (e.id, e.permanent_registers.clone())).collect();
    assert_eq!(before, after);
    assert_eq!(history.next_id(), next);
    assert_eq!(registry.get_temporary('x'), None);
    assert_eq!(registry.get_permanent('!'), None);
    assert!(!registry.has_permanent('!'));
}

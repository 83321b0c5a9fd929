use clipr::clip::ClipContent;
use clipr::history::ClipboardHistory;
use clipr::registry::{is_valid_register_key, Registry};

#[test]
fn test_valid_register_keys() {
    assert!(is_valid_register_key('a'));
    assert!(is_valid_register_key('Z'));
    assert!(is_valid_register_key('0'));
    assert!(!is_valid_register_key('!'));
    assert!(!is_valid_register_key(' '));
    assert!(!is_valid_register_key('_'));
}

#[test]
fn test_registry_assign_temporary() {
    let mut registry = Registry::new();
    let mut history = ClipboardHistory::new(10);

    let id1 = history.add_entry(ClipContent::Text("test1".to_string()));
    let id2 = history.add_entry(ClipContent::Text("test2".to_string()));

    registry.assign_temporary('a', id1, &mut history).unwrap();
    assert_eq!(registry.get_temporary('a'), Some(id1));
    assert!(history
        .get_entry(id1)
        .unwrap()
        .temporary_registers
        .contains(&'a'));

    // Reassign should remove from old clip
    registry.assign_temporary('a', id2, &mut history).unwrap();
    assert_eq!(registry.get_temporary('a'), Some(id2));
    assert!(!history
        .get_entry(id1)
        .unwrap()
        .temporary_registers
        .contains(&'a'));
    assert!(history
        .get_entry(id2)
        .unwrap()
        .temporary_registers
        .contains(&'a'));
}

#[test]
fn test_registry_list_registers() {
    let mut registry = Registry::new();
    let mut history = ClipboardHistory::new(10);

    let id1 = history.add_entry(ClipContent::Text("test1".to_string()));
    let id2 = history.add_entry(ClipContent::Text("test2".to_string()));

    registry.assign_temporary('a', id1, &mut history).unwrap();
    registry.assign_temporary('Z', id2, &mut history).unwrap();

    let temp_regs = registry.temporary_registers();
    assert_eq!(temp_regs.len(), 2);
    assert!(temp_regs.contains(&('a', id1)));
    assert!(temp_regs.contains(&('Z', id2)));
}

#[test]
fn test_clear_temporary() {
    let mut registry = Registry::new();
    let mut history = ClipboardHistory::new(10);

    let id1 = history.add_entry(ClipContent::Text("test1".to_string()));
    registry.assign_temporary('a', id1, &mut history).unwrap();

    assert_eq!(registry.temporary_count(), 1);

    registry.clear_temporary(&mut history);

    assert_eq!(registry.temporary_count(), 0);
    assert_eq!(registry.get_temporary('a'), None);
    assert!(!history
        .get_entry(id1)
        .unwrap()
        .temporary_registers
        .contains(&'a'));
}

#[test]
fn test_invalid_key_rejected() {
    let mut registry = Registry::new();
    let mut history = ClipboardHistory::new(10);

    let id1 = history.add_entry(ClipContent::Text("test".to_string()));

    assert!(registry.assign_temporary('!', id1, &mut history).is_err());
    assert!(registry.assign_temporary('_', id1, &mut history).is_err());
    assert!(registry.assign_temporary(' ', id1, &mut history).is_err());
}

#[test]
fn test_multiple_registers_per_clip() {
    let mut registry = Registry::new();
    let mut history = ClipboardHistory::new(10);

    let id1 = history.add_entry(ClipContent::Text("test".to_string()));

    // Assign multiple registers to same clip
    registry.assign_temporary('a', id1, &mut history).unwrap();
    registry.assign_temporary('b', id1, &mut history).unwrap();
    registry.assign_permanent('e', id1, &mut history).unwrap();

    let clip = history.get_entry(id1).unwrap();
    assert_eq!(clip.temporary_registers.len(), 2);
    assert_eq!(clip.permanent_registers.len(), 1);
    assert!(clip.temporary_registers.contains(&'a'));
    assert!(clip.temporary_registers.contains(&'b'));
    assert!(clip.permanent_registers.contains(&'e'));
}

use clipr::clip::{ClipContent, ClipEntry};
use clipr::history::ClipboardHistory;

#[test]
fn test_clip_content_preview() {
    let text = ClipContent::Text("Hello, world!".to_string());
    assert_eq!(text.preview(10), "Hello, wor...");
    assert_eq!(text.preview(50), "Hello, world!");

    let image = ClipContent::Image {
        data: vec![0; 100],
        mime_type: "image/png".to_string(),
    };
    assert_eq!(image.preview(50), "[Image: image/png (100 bytes)]");

    let file = ClipContent::File {
        path: "/tmp/test.png".to_string(),
        mime_type: "image/png".to_string(),
    };
    assert!(file.preview(50).contains("test.png"));
}

#[test]
fn test_file_hash_stable() {
    let file1 = ClipContent::File {
        path: "/tmp/test.png".to_string(),
        mime_type: "image/png".to_string(),
    };
    let file2 = ClipContent::File {
        path: "/tmp/test.png".to_string(),
        mime_type: "image/png".to_string(),
    };

    // Same path + mime_type = same hash (even if file contents change)
    assert_eq!(file1.content_hash(), file2.content_hash());

    let file3 = ClipContent::File {
        path: "/tmp/other.png".to_string(),
        mime_type: "image/png".to_string(),
    };

    // Different path = different hash
    assert_ne!(file1.content_hash(), file3.content_hash());
}

#[test]
fn test_clip_entry_registers() {
    let mut entry = ClipEntry::new_text(1, "test".to_string());

    assert!(entry.temporary_registers.is_empty());
    assert!(entry.permanent_registers.is_empty());
    assert!(entry.can_delete());

    entry.add_temporary_register('a');
    assert_eq!(entry.temporary_registers, vec!['a']);
    assert!(entry.should_keep());

    entry.add_permanent_register('e');
    assert_eq!(entry.permanent_registers, vec!['e']);
    assert!(!entry.can_delete());

    entry.remove_temporary_register('a');
    assert!(entry.temporary_registers.is_empty());
}

#[test]
fn test_duplicate_bumps_timestamp() {
    let mut history = ClipboardHistory::new(10);

    let id1 = history.add_entry(ClipContent::Text("test".to_string()));
    history.add_entry(ClipContent::Text("other".to_string()));

    assert_eq!(history.entries[1].id, id1);

    let id2 = history.add_entry(ClipContent::Text("test".to_string()));

    assert_eq!(id1, id2);
    assert_eq!(history.entries[0].id, id1);
    assert_eq!(history.entries.len(), 2);
}

#[test]
fn test_registered_entries_exempt_from_rotation() {
    let mut history = ClipboardHistory::new(2);

    let id1 = history.add_entry(ClipContent::Text("Entry 1".to_string()));
    let id2 = history.add_entry(ClipContent::Text("Entry 2".to_string()));

    // Assign registers
    history.get_entry_mut(id1).unwrap().add_temporary_register('a');
    history
        .get_entry_mut(id2)
        .unwrap()
        .add_permanent_register('e');

    // Add more entries
    history.add_entry(ClipContent::Text("Entry 3".to_string()));
    history.add_entry(ClipContent::Text("Entry 4".to_string()));
    history.add_entry(ClipContent::Text("Entry 5".to_string()));

    // Should have 2 registered + 2 unregistered (max) = 4 total
    assert_eq!(history.entries.len(), 4);

    // Registered entries should still be present
    assert!(history.get_entry(id1).is_some());
    assert!(history.get_entry(id2).is_some());
}

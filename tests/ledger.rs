use clipr::clip::{ClipContent, ClipEntry};
use clipr::history::ClipboardHistory;

fn text(s: &str) -> ClipContent {
    ClipContent::Text(s.to_string())
}

fn ids(history: &ClipboardHistory) -> Vec<u64> {
    history.entries().iter().map(|e| e.id).collect()
}

fn texts(history: &ClipboardHistory) -> Vec<String> {
    history.entries().iter().map(|e| e.preview(100)).collect()
}

#[test]
fn insert_assigns_ids_and_dedups() {
    let mut ledger = ClipboardHistory::new(10);
    assert_eq!(ledger.add_entry(text("a")), 1);
    assert_eq!(ledger.add_entry(text("b")), 2);
    assert_eq!(ledger.add_entry(text("a")), 1);
    assert_eq!(ledger.len(), 2);
    assert_eq!(ids(&ledger), vec![1, 2]);
    assert_eq!(ledger.next_id(), 3);
}

#[test]
fn repeated_capture_keeps_one_entry_with_latest_time() {
    let mut ledger = ClipboardHistory::new(10);
    ledger.insert_at(text("x"), None, None, 5);
    ledger.insert_at(text("y"), None, None, 6);
    for t in 7..12u64 {
        assert_eq!(ledger.insert_at(text("x"), None, None, t), 1);
        assert_eq!(ledger.entries()[0].id, 1);
        assert_eq!(ledger.entries()[0].timestamp, t);
        assert_eq!(ledger.len(), 2);
    }
    assert_eq!(ledger.next_id(), 3);
}

#[test]
fn rotation_keeps_newest_and_protected() {
    let mut ledger = ClipboardHistory::new(2);
    ledger.add_entry(text("a"));
    let b = ledger.add_entry(text("b"));
    ledger.add_entry(text("c"));
    assert_eq!(texts(&ledger), vec!["c", "b"]);
    assert!(ledger.toggle_pin(b));
    ledger.add_entry(text("d"));
    ledger.add_entry(text("e"));
    assert_eq!(texts(&ledger), vec!["e", "d", "b"]);
}

#[test]
fn rotation_caps_unprotected_entries() {
    let k = 4;
    let mut ledger = ClipboardHistory::new(k);
    for i in 0..(k + 5) {
        ledger.add_entry(text(&format!("entry {}", i)));
    }
    assert_eq!(ledger.len(), k);
    assert_eq!(ledger.entries()[0].preview(100), "entry 8");
}

#[test]
fn zero_cap_drops_new_unprotected_entries() {
    let mut ledger = ClipboardHistory::new(0);
    assert_eq!(ledger.add_entry(text("a")), 1);
    assert!(ledger.is_empty());
    assert_eq!(ledger.add_entry(text("a")), 2);
}

#[test]
fn metadata_is_only_replaced_when_supplied() {
    let mut ledger = ClipboardHistory::new(10);
    let id = ledger.add_entry_with_metadata(text("m"), Some("name".to_string()), Some("desc".to_string()));
    assert_eq!(ledger.add_entry_with_metadata(text("m"), None, Some("new".to_string())), id);
    let e = ledger.get_entry(id).unwrap();
    assert_eq!(e.name.as_deref(), Some("name"));
    assert_eq!(e.description.as_deref(), Some("new"));
    ledger.add_entry_with_metadata(text("m"), Some(String::new()), None);
    assert_eq!(ledger.get_entry(id).unwrap().name.as_deref(), Some("name"));
}

#[test]
fn remove_entry_frees_its_hash() {
    let mut ledger = ClipboardHistory::new(10);
    let a = ledger.add_entry(text("a"));
    let h = ledger.entries()[0].content_hash;
    assert_eq!(ledger.find_by_hash(h), Some(a));
    assert!(ledger.remove_entry(a));
    assert!(!ledger.remove_entry(a));
    assert_eq!(ledger.find_by_hash(h), None);
    assert_eq!(ledger.add_entry(text("a")), 2);
}

#[test]
fn clear_unpinned_keeps_pinned_and_registered() {
    let mut ledger = ClipboardHistory::new(10);
    let a = ledger.add_entry(text("a"));
    let b = ledger.add_entry(text("b"));
    let c = ledger.add_entry(text("c"));
    ledger.toggle_pin(a);
    ledger.get_entry_mut(c).unwrap().add_temporary_register('q');
    ledger.clear_unpinned();
    assert_eq!(ids(&ledger), vec![c, a]);
    assert!(ledger.get_entry(b).is_none());
    assert_eq!(ledger.get_pinned().len(), 1);
    assert_eq!(ledger.add_entry(text("b")), 4);
}

#[test]
fn from_entries_rejects_duplicates() {
    let e1 = ClipEntry::new_text(1, "a".to_string());
    let e2 = ClipEntry::new_text(2, "a".to_string());
    assert!(ClipboardHistory::from_entries(vec![e1, e2], 10, 3).is_none());
    let e3 = ClipEntry::new_text(5, "a".to_string());
    assert!(ClipboardHistory::from_entries(vec![e3], 10, 5).is_none());
    let e4 = ClipEntry::new_text(1, "a".to_string());
    let e5 = ClipEntry::new_text(2, "b".to_string());
    let h = ClipboardHistory::from_entries(vec![e4, e5], 10, 3).unwrap();
    assert_eq!(ids(&h), vec![1, 2]);
    let mut h = h;
    assert_eq!(h.add_entry(text("b")), 2);
}

#[test]
fn preview_takes_first_line_and_counts_characters() {
    assert_eq!(text("one\r\ntwo").preview(10), "one");
    assert_eq!(text("").preview(3), "");
    assert_eq!(text("\nx").preview(3), "");
    assert_eq!(text("héllo").preview(2), "hé...");
    let file = ClipContent::File { path: "/".to_string(), mime_type: "text/plain".to_string() };
    assert_eq!(file.preview(10), "[File: text/plain (unknown)]");
    let image = ClipContent::Image { data: vec![], mime_type: "image/png".to_string() };
    assert_eq!(image.preview(10), "[Image: image/png (0 bytes)]");
}

#[test]
fn content_kinds_and_files() {
    let t = text("t");
    assert!(t.is_text() && !t.is_image() && !t.is_file());
    let f = ClipEntry::new_file(1, "/nonexistent/clip/file".to_string(), "image/png".to_string());
    assert!(f.content.is_file());
    assert!(!f.file_exists());
    assert!(f.has_missing_file());
    let e = ClipEntry::new_text(2, "x".to_string());
    assert!(e.file_exists());
    assert!(!e.has_missing_file());
    assert!(e.timestamp > 0);
    assert!(!e.is_duplicate(&f));
    assert!(e.is_duplicate(&ClipEntry::new_text(3, "x".to_string())));
    assert_ne!(text("a").content_hash(), text("b").content_hash());
}

#[test]
fn protected_entries_survive_any_number_of_captures() {
    let mut ledger = ClipboardHistory::new(1);
    let a = ledger.add_entry(text("keep"));
    ledger.toggle_pin(a);
    for i in 0..10 {
        ledger.add_entry(text(&format!("x{}", i)));
    }
    assert_eq!(ledger.get_entry(a).unwrap().preview(10), "keep");
    assert_eq!(ledger.len(), 2);
}

#[test]
fn sort_by_timestamp_orders_newest_first() {
    let mut ledger = ClipboardHistory::new(10);
    ledger.insert_at(text("a"), None, None, 10);
    ledger.insert_at(text("b"), None, None, 5);
    ledger.insert_at(text("c"), None, None, 7);
    ledger.sort_by_timestamp();
    assert_eq!(texts(&ledger), vec!["a", "c", "b"]);
}

#[test]
fn image_preview_counts_bytes_in_decimal() {
    let image = ClipContent::Image { data: vec![7; 1234], mime_type: "image/gif".to_string() };
    assert_eq!(image.preview(5), "[Image: image/gif (1234 bytes)]");
    let ten = ClipContent::Image { data: vec![0; 10], mime_type: "a".to_string() };
    assert_eq!(ten.preview(5), "[Image: a (10 bytes)]");
}

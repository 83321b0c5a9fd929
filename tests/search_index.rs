use clipr::clip::ClipEntry;
use clipr::search_index::{rank_by_score, SearchIndex, SearchMode};

#[test]
fn test_search_empty_query() {
    let mut index = SearchIndex::new();
    let clips = vec![
        ClipEntry::new_text(1, "hello world".to_string()),
        ClipEntry::new_text(2, "goodbye world".to_string()),
    ];

    let results = index.search(&clips, "");
    assert_eq!(results.len(), 2);
}

#[test]
fn test_search_basic() {
    let mut index = SearchIndex::new();
    let clips = vec![
        ClipEntry::new_text(1, "hello world".to_string()),
        ClipEntry::new_text(2, "goodbye world".to_string()),
        ClipEntry::new_text(3, "unrelated".to_string()),
    ];

    let results = index.search(&clips, "hello");
    assert!(results.len() >= 1);
    assert_eq!(results[0].0, clips[0].id); // First result should be "hello world"
}

#[test]
fn test_search_smart_case() {
    let mut index = SearchIndex::new();
    let clips = vec![ClipEntry::new_text(1, "Hello World".to_string())];

    // Lowercase query should match (case-insensitive)
    let results = index.search(&clips, "hello");
    assert_eq!(results.len(), 1);

    // Uppercase query should be case-sensitive in smart mode
    index.set_mode(SearchMode::SmartCase);
    let results = index.search(&clips, "Hello");
    assert_eq!(results.len(), 1);
}

#[test]
fn test_toggle_mode() {
    let mut index = SearchIndex::new();
    assert_eq!(index.mode(), SearchMode::SmartCase);

    index.toggle_mode();
    assert_eq!(index.mode(), SearchMode::CaseSensitive);

    index.toggle_mode();
    assert_eq!(index.mode(), SearchMode::SmartCase);
}

#[test]
fn test_search_with_name() {
    let mut index = SearchIndex::new();
    let mut clip = ClipEntry::new_text(1, "content".to_string());
    clip.name = Some("my_clip".to_string());

    let clips = vec![clip];
    let results = index.search(&clips, "my_clip");
    assert_eq!(results.len(), 1);
}

#[test]
fn case_sensitive_mode_rejects_other_case() {
    let mut index = SearchIndex::new();
    index.set_mode(SearchMode::CaseSensitive);
    let clips = vec![ClipEntry::new_text(1, "Hello World".to_string())];
    assert_eq!(index.search(&clips, "hello").len(), 0);
    assert_eq!(index.search(&clips, "Hello").len(), 1);
}

#[test]
fn empty_query_lists_every_clip_in_order_with_top_score() {
    let mut index = SearchIndex::new();
    let clips = vec![
        ClipEntry::new_text(7, "b".to_string()),
        ClipEntry::new_text(3, "a".to_string()),
    ];
    assert_eq!(index.search(&clips, ""), vec![(7, u32::MAX), (3, u32::MAX)]);
}

#[test]
fn ranking_is_stable_and_descending() {
    let ranked = rank_by_score(vec![(1, 5), (2, 9), (3, 5), (4, 9), (5, 1)]);
    assert_eq!(ranked, vec![(2, 9), (4, 9), (1, 5), (3, 5), (5, 1)]);
    assert_eq!(rank_by_score(vec![]), vec![]);
}

#[test]
fn searchable_text_includes_metadata_and_kind() {
    let mut clip = ClipEntry::new_file(1, "/tmp/sig.png".to_string(), "image/png".to_string());
    clip.name = Some("sig".to_string());
    clip.description = Some("mine".to_string());
    assert_eq!(clip.searchable_text(), "sig mine [file: sig.png]");
    let image = ClipEntry::new_image(2, vec![1, 2], "image/png".to_string());
    assert_eq!(image.searchable_text(), "[image]");
}

#[test]
fn long_query_is_cut_not_overflowed() {
    let mut index = SearchIndex::new();
    let long = "a".repeat(5000);
    let clips = vec![ClipEntry::new_text(1, long.clone()), ClipEntry::new_text(2, "b".to_string())];
    let results = index.search(&clips, &long);
    assert_eq!(results.len(), 1);
    assert_eq!(results[0].0, 1);
}

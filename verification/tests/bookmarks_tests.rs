use joedlna::bookmarks::BookmarkPositions;

#[test]
fn persists_and_removes_positions() {
    let mut store = BookmarkPositions::new();
    store.set("item-1".into(), 12_345);

    assert_eq!(store.get("item-1"), Some(12_345));

    store.set("item-1".into(), 0);
    assert_eq!(store.get("item-1"), None);
}

#[test]
fn later_position_replaces_earlier() {
    let mut store = BookmarkPositions::new();
    store.set("a".into(), 10);
    store.set("b".into(), 20);
    store.set("a".into(), 30);

    assert_eq!(store.get("a"), Some(30));
    assert_eq!(store.get("b"), Some(20));
    assert_eq!(store.len(), 2);
    let mut all: Vec<(String, u64)> = (0..store.len())
        .map(|i| {
            let (id, position) = store.at(i);
            (id.to_owned(), position)
        })
        .collect();
    all.sort();
    assert_eq!(all, vec![("a".to_owned(), 30), ("b".to_owned(), 20)]);
}

#[test]
fn removing_an_unknown_position_changes_nothing() {
    let mut store = BookmarkPositions::new();
    store.set("kept".into(), 7);
    store.set("missing".into(), 0);
    assert_eq!(store.len(), 1);
    assert_eq!(store.get("missing"), None);
}

use std::path::Path;

use joedlna::catalog::{
    media_kind, rescan_action, stable_os_hash, Catalog, CatalogScan, EntryKind, RescanAction, ROOT_ID,
};
use joedlna::config::{Config, MediaCategory, NetworkConfig, ScannerConfig, ShareConfig};
use joedlna::scan::{entry_titles, DirEntryInfo, Scanner};

/// One entry of a share, relative to its root: a path, whether it is a
/// directory, its size and how many seconds ago it was modified.
struct Node {
    relative: &'static str,
    dir: bool,
    size: u64,
    age: u64,
}

fn node(relative: &'static str, dir: bool, size: u64) -> Node {
    Node { relative, dir, size, age: 3_600 }
}

fn share(name: &str, path: &str, media: Vec<MediaCategory>) -> ShareConfig {
    ShareConfig { name: name.into(), path: path.into(), media }
}

fn config_with(scanner: ScannerConfig, shares: Vec<ShareConfig>) -> Config {
    Config {
        friendly_name: "Test".into(),
        network: NetworkConfig::default(),
        scanner,
        shares,
    }
}

/// Walks the given trees the way the server walks the filesystem, feeding
/// each directory's entries to the scanner.
fn scan_trees(config: &Config, trees: &[Vec<Node>], minimum_age: u64) -> CatalogScan {
    let mut scanner = Scanner::new(config, minimum_age);
    for (share, nodes) in config.shares.iter().zip(trees) {
        let root = share.path.clone();
        scanner.begin_share(share, root.as_bytes(), 0).unwrap();
        while let Some(directory) = scanner.next_directory() {
            let dir_path = String::from_utf8(directory.path.clone()).unwrap();
            for n in nodes {
                let path = format!("{root}/{}", n.relative);
                let parent = Path::new(&path).parent().unwrap().to_str().unwrap().to_owned();
                if parent != dir_path {
                    continue;
                }
                let name = Path::new(&path).file_name().unwrap().to_str().unwrap().to_owned();
                if !scanner.wants(name.as_bytes()) {
                    continue;
                }
                let stem = Path::new(&name).file_stem().map(|s| s.to_string_lossy().into_owned());
                let info = DirEntryInfo {
                    file_name: name.as_bytes().to_vec(),
                    title: name.clone(),
                    stem,
                    path: path.as_bytes().to_vec(),
                    relative: n.relative.as_bytes().to_vec(),
                    is_symlink: false,
                    is_dir: n.dir,
                    is_file: !n.dir,
                    size: n.size,
                    modified_seconds: 1_700_000_000,
                    age_seconds: Some(n.age),
                };
                scanner.add(&directory.id, info).unwrap();
            }
        }
    }
    scanner.finish()
}

fn all_media() -> Vec<MediaCategory> {
    MediaCategory::all().to_vec()
}

#[test]
fn recognizes_media_mp3() {
    assert_eq!(media_kind(b"song.mp3").map(|kind| kind.mime_type), Some("audio/mpeg"));
}

#[test]
fn recognizes_media_case_insensitive() {
    assert_eq!(media_kind(b"movie.MKV").map(|kind| kind.mime_type), Some("video/x-matroska"));
}

#[test]
fn recognizes_media_unsupported() {
    assert_eq!(media_kind(b"notes.txt").map(|kind| kind.mime_type), None);
}

#[test]
fn recognizes_media_after_current_dir_components() {
    assert_eq!(media_kind(b"x.mp3/.").map(|kind| kind.mime_type), Some("audio/mpeg"));
    assert_eq!(media_kind(b"dir/x.mp3/./").map(|kind| kind.mime_type), Some("audio/mpeg"));
    assert_eq!(media_kind(b"dir//x.png//").map(|kind| kind.mime_type), Some("image/png"));
}

#[test]
fn recognizes_no_media_without_file_name() {
    assert_eq!(media_kind(b"x.mp3/..").map(|kind| kind.mime_type), None);
    assert_eq!(media_kind(b"/.").map(|kind| kind.mime_type), None);
    assert_eq!(media_kind(b".").map(|kind| kind.mime_type), None);
    assert_eq!(media_kind(b".mp3").map(|kind| kind.mime_type), None);
}

#[test]
fn builds_virtual_share_hierarchy() {
    let config = config_with(ScannerConfig::default(), vec![share("Shows", "/srv/shows", all_media())]);
    let trees = vec![vec![
        node("Season 1", true, 0),
        node("Season 1/Episode.mkv", false, 5),
        node("ignore.txt", false, 4),
    ]];

    let catalog = scan_trees(&config, &trees, 0).catalog;

    assert_eq!(catalog.file_count(), 1);
    assert_eq!(catalog.children(ROOT_ID).unwrap().len(), 1);
    let share = catalog.children(ROOT_ID).unwrap()[0];
    assert_eq!(share.title, "Shows");
    assert!(matches!(share.kind, EntryKind::Container));
}

#[test]
fn update_id_is_stable_for_unchanged_content() {
    let config = config_with(ScannerConfig::default(), vec![share("Music", "/srv/music", all_media())]);
    let trees = vec![vec![node("song.mp3", false, 5)]];

    let first = scan_trees(&config, &trees, 0).catalog;
    let second = scan_trees(&config, &trees, 0).catalog;

    assert_eq!(first.update_id(), second.update_id());
    assert_ne!(first.update_id(), 0);
}

#[test]
fn share_filters_media_categories() {
    let config = config_with(
        ScannerConfig::default(),
        vec![share("Videos", "/srv/videos", vec![MediaCategory::Video])],
    );
    let trees = vec![vec![node("movie.mp4", false, 5), node("song.mp3", false, 5)]];

    let catalog = scan_trees(&config, &trees, 0).catalog;

    assert_eq!(catalog.file_count(), 1);
    let share = catalog.children(ROOT_ID).unwrap()[0];
    let item = catalog.children(&share.id).unwrap()[0];
    assert_eq!(item.title, "movie");
}

#[test]
fn non_recursive_scan_only_includes_root_files() {
    let scanner = ScannerConfig { recursive: false, ..ScannerConfig::default() };
    let config = config_with(scanner, vec![share("Videos", "/srv/videos", vec![MediaCategory::Video])]);
    let trees = vec![vec![
        node("nested", true, 0),
        node("root.mp4", false, 5),
        node("nested/child.mp4", false, 5),
    ]];

    let catalog = scan_trees(&config, &trees, 0).catalog;

    assert_eq!(catalog.file_count(), 1);
    let share = catalog.children(ROOT_ID).unwrap()[0];
    let children = catalog.children(&share.id).unwrap();
    assert_eq!(children.len(), 1);
    assert_eq!(children[0].title, "root");
}

#[test]
fn settled_scan_withholds_recently_modified_media() {
    let config = config_with(
        ScannerConfig::default(),
        vec![share("Videos", "/srv/videos", vec![MediaCategory::Video])],
    );
    let trees = vec![vec![Node { relative: "encoding.mp4", dir: false, size: 13, age: 0 }]];

    let scan = scan_trees(&config, &trees, config.settle_time());

    assert_eq!(scan.unsettled_files, 1);
    assert_eq!(scan.catalog.file_count(), 0);
    assert_eq!(scan_trees(&config, &trees, 0).catalog.file_count(), 1);
}

#[test]
fn unix_path_hash_preserves_raw_byte_identity() {
    assert_eq!(stable_os_hash(b"abc"), 0xe71f_a219_0541_574b);
}

#[test]
fn empty_catalog_has_only_the_root() {
    let catalog = Catalog::empty();
    assert_eq!(catalog.children(ROOT_ID).unwrap().len(), 0);
    assert_eq!(catalog.child_count(ROOT_ID), 0);
    assert!(catalog.entry(ROOT_ID).is_none());
    assert!(catalog.children("missing").is_none());
    assert_eq!(catalog.update_id(), 0);
    assert_eq!(catalog.file_count(), 0);
    assert_eq!(catalog.total_bytes(), 0);
}

#[test]
fn children_are_ordered_containers_first_then_by_title() {
    let config = config_with(ScannerConfig::default(), vec![share("Mixed", "/srv/mixed", all_media())]);
    let trees = vec![vec![
        node("b.mp3", false, 1),
        node("Zeta", true, 0),
        node("a.mp3", false, 2),
        node("Alpha", true, 0),
    ]];

    let catalog = scan_trees(&config, &trees, 0).catalog;
    let share = catalog.children(ROOT_ID).unwrap()[0];
    let titles: Vec<&str> = catalog
        .children(&share.id)
        .unwrap()
        .iter()
        .map(|entry| entry.title.as_str())
        .collect();

    assert_eq!(titles, vec!["Alpha", "Zeta", "a", "b"]);
    assert_eq!(catalog.total_bytes(), 3);
    assert_eq!(catalog.child_count(&share.id), 4);
}

#[test]
fn hidden_entries_are_skipped_unless_included() {
    let shares = vec![share("Music", "/srv/music", all_media())];
    let trees = vec![vec![node(".secret.mp3", false, 1), node("song.mp3", false, 1)]];

    let default_scan = scan_trees(&config_with(ScannerConfig::default(), shares.clone()), &trees, 0);
    let with_hidden = ScannerConfig { include_hidden: true, ..ScannerConfig::default() };
    let hidden_scan = scan_trees(&config_with(with_hidden, shares), &trees, 0);

    assert_eq!(default_scan.catalog.file_count(), 1);
    assert_eq!(hidden_scan.catalog.file_count(), 2);
}

#[test]
fn object_ids_differ_from_the_root_and_between_files() {
    let config = config_with(ScannerConfig::default(), vec![share("Music", "/srv/music", all_media())]);
    let trees = vec![vec![node("one.mp3", false, 1), node("two.mp3", false, 1)]];

    let catalog = scan_trees(&config, &trees, 0).catalog;
    let share = catalog.children(ROOT_ID).unwrap()[0];
    let items = catalog.children(&share.id).unwrap();

    assert_eq!(share.id.len(), 33);
    assert_ne!(share.id, ROOT_ID);
    assert_ne!(items[0].id, items[1].id);
    assert!(share.id.starts_with('d'));
    assert!(items[0].id.starts_with('f'));
    assert_eq!(catalog.entry(&items[0].id).unwrap().parent_id, share.id);
}

#[test]
fn object_update_id_changes_with_children() {
    let config = config_with(ScannerConfig::default(), vec![share("Music", "/srv/music", all_media())]);
    let small = scan_trees(&config, &[vec![node("one.mp3", false, 1)]], 0).catalog;
    let large = scan_trees(&config, &[vec![node("one.mp3", false, 2)]], 0).catalog;
    let share_small = small.children(ROOT_ID).unwrap()[0].id.clone();
    let share_large = large.children(ROOT_ID).unwrap()[0].id.clone();

    assert_eq!(share_small, share_large);
    assert_ne!(small.object_update_id(&share_small), large.object_update_id(&share_large));
    assert!(!small.has_same_content(&large));
    assert!(small.has_same_content(&small));
    let item = &small.children(&share_small).unwrap()[0].id;
    assert_eq!(small.object_update_id(item), small.update_id());
}

#[test]
fn duplicate_share_roots_collide() {
    let config = config_with(
        ScannerConfig::default(),
        vec![share("A", "/srv/same", all_media()), share("B", "/srv/same", all_media())],
    );
    let mut scanner = Scanner::new(&config, 0);
    assert!(scanner.begin_share(&config.shares[0], b"/srv/same", 0).is_ok());
    assert!(scanner.begin_share(&config.shares[1], b"/srv/same", 0).is_err());
}

#[test]
fn byte_total_sums_media_sizes_and_saturates() {
    let config = config_with(ScannerConfig::default(), vec![share("Big", "/srv/big", all_media())]);
    let summed = vec![vec![node("a.mp3", false, 40), node("Dir", true, 7), node("Dir/b.mp4", false, 2)]];
    let catalog = scan_trees(&config, &summed, 0).catalog;
    assert_eq!(catalog.total_bytes(), 42);
    assert_eq!(catalog.file_count(), 2);

    let huge = vec![vec![node("a.mp3", false, u64::MAX - 1), node("b.mp3", false, 5)]];
    let catalog = scan_trees(&config, &huge, 0).catalog;
    assert_eq!(catalog.total_bytes(), u64::MAX);
    assert_eq!(catalog.file_count(), 2);
}

#[test]
fn only_root_and_containers_list_children_with_that_parent() {
    let config = config_with(ScannerConfig::default(), vec![share("Shows", "/srv/shows", all_media())]);
    let trees = vec![vec![node("Season 1", true, 0), node("Season 1/Episode.mkv", false, 5), node("a.mp3", false, 1)]];
    let catalog = scan_trees(&config, &trees, 0).catalog;

    let share = catalog.children(ROOT_ID).unwrap()[0];
    assert_eq!(share.parent_id, ROOT_ID);
    let children = catalog.children(&share.id).unwrap();
    assert_eq!(children.len(), catalog.child_count(&share.id));
    for child in &children {
        assert_eq!(child.parent_id, share.id);
        match child.kind {
            EntryKind::Container => assert!(catalog.children(&child.id).is_some()),
            EntryKind::Media(_) => {
                assert!(catalog.children(&child.id).is_none());
                assert_eq!(catalog.child_count(&child.id), 0);
            }
        }
    }
    assert!(catalog.children("no-such-id").is_none());
}

#[test]
fn rescans_replace_the_catalog_only_when_content_changes() {
    let config = config_with(ScannerConfig::default(), vec![share("Music", "/srv/music", all_media())]);
    let first = scan_trees(&config, &[vec![node("a.mp3", false, 1)]], 0).catalog;
    let same = scan_trees(&config, &[vec![node("a.mp3", false, 1)]], 0).catalog;
    let changed = scan_trees(&config, &[vec![node("a.mp3", false, 1), node("b.mp3", false, 2)]], 0).catalog;

    assert_eq!(rescan_action(&first, None), RescanAction::Keep);
    assert_eq!(rescan_action(&first, Some(&same)), RescanAction::Keep);
    assert_eq!(first.update_id(), same.update_id());
    assert_eq!(
        rescan_action(&first, Some(&changed)),
        RescanAction::Replace { update_id: changed.update_id() }
    );
    assert_ne!(rescan_action(&Catalog::empty(), Some(&first)), RescanAction::Keep);
}

#[test]
fn entry_titles_follow_file_stems() {
    let titles = |name: &[u8]| entry_titles(name);
    assert_eq!(titles(b"Episode 1.mkv"), ("Episode 1.mkv".to_string(), Some("Episode 1".to_string())));
    assert_eq!(titles(b"archive.tar.gz"), ("archive.tar.gz".to_string(), Some("archive.tar".to_string())));
    assert_eq!(titles(b"Season 1"), ("Season 1".to_string(), Some("Season 1".to_string())));
    assert_eq!(titles(b".hidden"), (".hidden".to_string(), Some(".hidden".to_string())));
    assert_eq!(titles(b"trailing."), ("trailing.".to_string(), Some("trailing".to_string())));
    assert_eq!(titles(b".."), ("..".to_string(), Some("..".to_string())));
    assert_eq!(titles(b""), (String::new(), None));
    assert_eq!(titles(b"caf\xe9.mp3"), ("caf\u{fffd}.mp3".to_string(), Some("caf\u{fffd}".to_string())));
    for name in [&b"a.b.c"[..], b"x", b".x.y", b"caf\xe9.mp3"] {
        let expected = std::path::Path::new(std::str::from_utf8(name).unwrap_or("caf\u{fffd}.mp3"))
            .file_stem()
            .map(|s| s.to_string_lossy().into_owned());
        assert_eq!(titles(name).1, expected);
    }
}

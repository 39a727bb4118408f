use std::path::PathBuf;

use joedlna::config::Ipv4Address;
use joedlna::events::SubscriptionError;
use joedlna::http::{
    base_url, content_features, content_range, event_error_status, event_is_relevant,
    media_length, media_response, parse_range, plan_watches, stable_udn, unsatisfiable_range,
    ByteRange, ScanSchedule,
};
use notify::{Event, EventKind};

fn range(start: u64, end: u64, partial: bool) -> ByteRange {
    ByteRange { start, end, partial }
}

#[test]
fn parses_single_http_range_whole_file() {
    assert_eq!(parse_range(None, 10), Ok(range(0, 9, false)));
}

#[test]
fn parses_single_http_range_bounded() {
    assert_eq!(parse_range(Some("bytes=2-5"), 10), Ok(range(2, 5, true)));
}

#[test]
fn parses_single_http_range_open_end() {
    assert_eq!(parse_range(Some("bytes=7-"), 10), Ok(range(7, 9, true)));
}

#[test]
fn parses_single_http_range_suffix() {
    assert_eq!(parse_range(Some("bytes=-3"), 10), Ok(range(7, 9, true)));
}

#[test]
fn parses_single_http_range_past_end() {
    assert_eq!(parse_range(Some("bytes=12-"), 10), Err(()));
}

#[test]
fn parses_single_http_range_multiple_unsupported() {
    assert_eq!(parse_range(Some("bytes=1-2,4-5"), 10), Err(()));
}

#[test]
fn range_edge_cases() {
    assert_eq!(parse_range(None, 0), Ok(range(0, 0, false)));
    assert_eq!(parse_range(Some("bytes=0-"), 0), Err(()));
    assert_eq!(parse_range(Some("bytes=-0"), 10), Err(()));
    assert_eq!(parse_range(Some("bytes=-30"), 10), Ok(range(0, 9, true)));
    assert_eq!(parse_range(Some("bytes=3-100"), 10), Ok(range(3, 9, true)));
    assert_eq!(parse_range(Some("bytes=5-2"), 10), Err(()));
    assert_eq!(parse_range(Some("items=1-2"), 10), Err(()));
    assert_eq!(parse_range(Some("bytes=a-2"), 10), Err(()));
    assert_eq!(parse_range(Some("bytes=5"), 10), Err(()));
}

#[test]
fn media_length_and_content_ranges() {
    assert_eq!(media_length(10, range(2, 5, true)), 4);
    assert_eq!(media_length(10, range(0, 9, false)), 10);
    assert_eq!(media_length(0, range(0, 0, false)), 0);
    assert_eq!(content_range(range(2, 5, true), 10), "bytes 2-5/10");
    assert_eq!(unsatisfiable_range(10), "bytes */10");
}

#[test]
fn content_features_follow_the_protocol_info() {
    assert_eq!(
        content_features("audio/mpeg", Some("MP3")),
        "DLNA.ORG_PN=MP3;DLNA.ORG_OP=01;DLNA.ORG_CI=0;DLNA.ORG_FLAGS=01700000000000000000000000000000"
    );
    assert_eq!(
        content_features("video/mp4", None),
        "DLNA.ORG_OP=01;DLNA.ORG_CI=0;DLNA.ORG_FLAGS=01700000000000000000000000000000"
    );
}

#[test]
fn refused_subscriptions_map_to_statuses() {
    assert_eq!(event_error_status(SubscriptionError::IncompatibleHeaders), 400);
    assert_eq!(event_error_status(SubscriptionError::InvalidSid), 412);
    assert_eq!(event_error_status(SubscriptionError::UnsafeCallback), 412);
}

fn event_paths(event: &Event) -> Vec<Vec<u8>> {
    event.paths.iter().map(|path| path.as_os_str().as_encoded_bytes().to_vec()).collect()
}

fn bytes(path: &PathBuf) -> Vec<u8> {
    path.as_os_str().as_encoded_bytes().to_vec()
}

#[test]
fn filters_filesystem_events_to_config_and_shares() {
    let config = PathBuf::from("/config/joedlna.toml");
    let roots = [PathBuf::from("/media/movies")];
    let media_event = Event::new(EventKind::Any).add_path(PathBuf::from("/media/movies/new/movie.mp4"));
    let config_event = Event::new(EventKind::Any).add_path(PathBuf::from("/config/joedlna.toml"));
    let unrelated = Event::new(EventKind::Any).add_path(PathBuf::from("/tmp/unrelated.txt"));
    let root_bytes: Vec<Vec<u8>> = roots.iter().map(bytes).collect();

    assert!(event_is_relevant(&event_paths(&media_event), &bytes(&config), &root_bytes));
    assert!(event_is_relevant(&event_paths(&config_event), &bytes(&config), &root_bytes));
    assert!(!event_is_relevant(&event_paths(&unrelated), &bytes(&config), &root_bytes));
    assert!(event_is_relevant(
        &event_paths(&Event::new(EventKind::Any)),
        &bytes(&config),
        &root_bytes
    ));
}

#[test]
fn relevance_compares_whole_components() {
    let config = b"/config/joedlna.toml".to_vec();
    let roots = vec![b"/media/movies".to_vec()];
    let check = |path: &str| event_is_relevant(&vec![path.as_bytes().to_vec()], &config, &roots);
    assert!(check("/media//movies/./a.mkv"));
    assert!(check("/media/movies/"));
    assert!(!check("/media/movies2/a.mkv"));
    assert!(check("/elsewhere/joedlna.toml"));
    assert!(check("/config//joedlna.toml/"));
    assert!(!check("/config/joedlna.toml.bak"));
}

#[test]
fn udn_is_the_url_uuid_of_host_and_path() {
    let expected = uuid::Uuid::new_v5(&uuid::Uuid::NAMESPACE_URL, b"host/etc/joedlna.toml");
    assert_eq!(stable_udn(b"host", b"/etc/joedlna.toml"), format!("uuid:{expected}"));
    assert_ne!(stable_udn(b"host", b"/a"), stable_udn(b"host", b"/b"));
    assert_eq!(
        base_url(Ipv4Address { a: 10, b: 0, c: 0, d: 7 }, 8201),
        "http://10.0.0.7:8201"
    );
}

#[test]
fn scan_schedule_prefers_settling_over_fallback() {
    let mut schedule = ScanSchedule::start(1_000, 0, 30_000, 300_000);
    assert_eq!(schedule.next_scan(), 301_000);
    assert_eq!(schedule.trigger(), "periodic fallback");
    schedule.changed(5_000, 30_000);
    assert_eq!(schedule.next_scan(), 35_000);
    assert_eq!(schedule.trigger(), "filesystem settled");
    schedule.scanned(35_000, Some((0, 30_000)), 300_000);
    assert_eq!(schedule.next_scan(), 335_000);
    schedule.scanned(40_000, Some((2, 10_000)), 300_000);
    assert_eq!(schedule.next_scan(), 50_000);
    schedule.scanned(50_000, None, 300_000);
    assert_eq!(schedule.settle_deadline, None);
    let initial = ScanSchedule::start(0, 3, 30_000, 300_000);
    assert_eq!(initial.next_scan(), 30_000);
}

#[test]
fn watch_plan_reconciles_with_configuration() {
    let watched = vec![(b"/srv/a".to_vec(), true), (b"/srv/b".to_vec(), true), (b"/srv/c".to_vec(), false)];
    let roots = vec![b"/srv/a".to_vec(), b"/srv/c/".to_vec(), b"/srv/d".to_vec(), b"/srv/d".to_vec()];
    let plan = plan_watches(&watched, &roots, true, true);
    assert_eq!(plan.stale, vec![b"/srv/b".to_vec(), b"/srv/c".to_vec()]);
    assert_eq!(plan.wanted, vec![b"/srv/c/".to_vec(), b"/srv/d".to_vec()]);

    let disabled = plan_watches(&watched, &roots, false, true);
    assert_eq!(disabled.stale.len(), 3);
    assert!(disabled.wanted.is_empty());
}

#[test]
fn media_responses_choose_status_and_headers() {
    let partial = media_response(Some("bytes=10-19"), Some("1"), false, 100, "audio/mpeg", None);
    assert_eq!(partial.status, 206);
    assert_eq!(partial.content_length, 10);
    assert_eq!(partial.content_range.as_deref(), Some("bytes 10-19/100"));
    assert_eq!(partial.content_features.as_deref(), Some(content_features("audio/mpeg", None).as_str()));
    assert_eq!(partial.body_start, 10);
    assert!(partial.send_body);

    let whole = media_response(None, Some("0"), false, 100, "audio/mpeg", None);
    assert_eq!(whole.status, 200);
    assert_eq!(whole.content_length, 100);
    assert_eq!(whole.content_range, None);
    assert_eq!(whole.content_features, None);
    assert_eq!(whole.body_start, 0);

    let head = media_response(None, None, true, 100, "video/mp4", None);
    assert_eq!(head.status, 200);
    assert_eq!(head.content_length, 100);
    assert!(!head.send_body);

    let empty = media_response(None, None, false, 0, "video/mp4", None);
    assert_eq!(empty.status, 200);
    assert_eq!(empty.content_length, 0);
    assert!(!empty.send_body);

    let refused = media_response(Some("bytes=200-"), Some("1"), false, 100, "audio/mpeg", None);
    assert_eq!(refused.status, 416);
    assert_eq!(refused.content_length, 0);
    assert_eq!(refused.content_range.as_deref(), Some("bytes */100"));
    assert_eq!(refused.content_features, None);
    assert!(!refused.send_body);
}

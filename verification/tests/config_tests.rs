use joedlna::config::{
    default_friendly_name, default_media_categories, paths_overlap, Config, ConfigError,
    Ipv4Address, MediaCategory, NetworkConfig, ScannerConfig, ShareConfig, ShareRoot,
};

fn share(name: &str, path: &str) -> ShareConfig {
    ShareConfig { name: name.into(), path: path.into(), media: MediaCategory::all().to_vec() }
}

fn config(shares: Vec<ShareConfig>) -> Config {
    Config {
        friendly_name: default_friendly_name(),
        network: NetworkConfig::default(),
        scanner: ScannerConfig::default(),
        shares,
    }
}

fn invalid_message(result: Result<(), ConfigError>) -> String {
    match result {
        Err(ConfigError::Invalid(message)) => message,
        other => panic!("expected a validation error, got {other:?}"),
    }
}

#[test]
fn loads_minimal_config_defaults() {
    let config = config(vec![share("Media", "/srv/media")]);

    assert_eq!(config.friendly_name, "JoeDLNA");
    assert_eq!(config.shares.len(), 1);
    assert!(config.scanner.watch_filesystem);
    assert!(config.scanner.recursive);
    assert_eq!(config.scanner.settle_time_seconds, 30);
    assert_eq!(config.scanner.rescan_interval_seconds, 300);
    assert_eq!(config.network.http_port, 8_201);
    assert_eq!(config.network.interface, None);
    assert_eq!(config.network.ssdp_max_age_seconds, 1_800);
    assert_eq!(config.rescan_interval(), 300);
    assert_eq!(config.settle_time(), 30);
    assert_eq!(
        default_media_categories(),
        vec![MediaCategory::Audio, MediaCategory::Video, MediaCategory::Image]
    );
}

#[test]
fn accepts_a_valid_configuration() {
    let config = config(vec![share("Music", "/srv/music"), share("Video", "/srv/video")]);
    let roots = vec![
        ShareRoot::Resolved("/srv/music".into()),
        ShareRoot::Resolved("/srv/video".into()),
    ];
    assert!(config.validate(&roots).is_ok());
}

#[test]
fn rejects_blank_friendly_name() {
    let mut config = config(vec![share("Music", "/srv/music")]);
    config.friendly_name = "   ".into();
    let roots = vec![ShareRoot::Resolved("/srv/music".into())];
    assert_eq!(invalid_message(config.validate(&roots)), "friendly_name must not be empty");
}

#[test]
fn rejects_missing_shares_and_short_ssdp_lifetime() {
    let empty = config(Vec::new());
    assert_eq!(
        invalid_message(empty.validate(&Vec::new())),
        "at least one [[shares]] entry is required"
    );

    let mut short = config(vec![share("Music", "/srv/music")]);
    short.network.ssdp_max_age_seconds = 59;
    let roots = vec![ShareRoot::Resolved("/srv/music".into())];
    assert_eq!(
        invalid_message(short.validate(&roots)),
        "network.ssdp_max_age_seconds must be at least 60"
    );
}

#[test]
fn rejects_duplicate_share_names_ignoring_case() {
    let config = config(vec![share("Media", "/srv/a"), share("MEDIA", "/srv/b")]);
    let roots = vec![ShareRoot::Resolved("/srv/a".into()), ShareRoot::Resolved("/srv/b".into())];
    assert_eq!(invalid_message(config.validate(&roots)), "share name \"MEDIA\" is duplicated");
}

#[test]
fn rejects_overlapping_share_roots() {
    let config = config(vec![share("Outer", "/srv/a"), share("Inner", "/srv/a/b")]);
    let roots = vec![ShareRoot::Resolved("/srv/a".into()), ShareRoot::Resolved("/srv/a/b".into())];
    assert_eq!(
        invalid_message(config.validate(&roots)),
        "shares \"Inner\" and \"Outer\" overlap at /srv/a/b and /srv/a; overlapping shares expose duplicate files"
    );
}

#[test]
fn rejects_roots_that_are_not_directories() {
    let config = config(vec![share("File", "/srv/file.txt")]);
    let roots = vec![ShareRoot::NotDirectory];
    assert_eq!(
        invalid_message(config.validate(&roots)),
        "share \"File\" is not a directory: /srv/file.txt"
    );
}

#[test]
fn overlap_is_by_whole_components() {
    assert!(paths_overlap("/srv/a", "/srv/a/b"));
    assert!(paths_overlap("/srv/a/b", "/srv/a"));
    assert!(paths_overlap("/", "/srv"));
    assert!(!paths_overlap("/srv/a", "/srv/ab"));
}

#[test]
fn addresses_compare_by_octets() {
    let a = Ipv4Address { a: 192, b: 168, c: 1, d: 2 };
    assert_eq!(a, Ipv4Address { a: 192, b: 168, c: 1, d: 2 });
    assert_ne!(a, Ipv4Address { a: 192, b: 168, c: 1, d: 3 });
}

use bytes::Bytes;
use joedlna::bookmarks::BookmarkPositions;
use joedlna::catalog::{Catalog, ROOT_ID};
use joedlna::config::{Config, MediaCategory, NetworkConfig, ScannerConfig, ShareConfig};
use joedlna::scan::{DirEntryInfo, Scanner};
use joedlna::soap::{
    arguments_of, connection_manager_response, content_directory_response, parse_request,
    protocol_info, soap_fault, upnp_error, SoapArguments, SoapParseError,
};
use joedlna::tokens::XmlToken;

/// A catalog with one share holding the given files directly under its root.
fn catalog_with(share_name: &str, files: &[(&str, u64)]) -> Catalog {
    let config = Config {
        friendly_name: "Test".into(),
        network: NetworkConfig::default(),
        scanner: ScannerConfig::default(),
        shares: vec![ShareConfig {
            name: share_name.into(),
            path: "/srv/share".into(),
            media: MediaCategory::all().to_vec(),
        }],
    };
    let mut scanner = Scanner::new(&config, 0);
    scanner.begin_share(&config.shares[0], b"/srv/share", 0).unwrap();
    let root = scanner.next_directory().unwrap();
    for (name, size) in files {
        let stem = std::path::Path::new(name).file_stem().map(|s| s.to_string_lossy().into_owned());
        let info = DirEntryInfo {
            file_name: name.as_bytes().to_vec(),
            title: (*name).into(),
            stem,
            path: format!("/srv/share/{name}").into_bytes(),
            relative: name.as_bytes().to_vec(),
            is_symlink: false,
            is_dir: false,
            is_file: true,
            size: *size,
            modified_seconds: 1_700_000_000,
            age_seconds: Some(3_600),
        };
        scanner.add(&root.id, info).unwrap();
    }
    scanner.finish().catalog
}

fn arguments(pairs: &[(&str, &str)]) -> SoapArguments {
    let mut arguments = SoapArguments::new();
    for (name, value) in pairs {
        arguments.insert((*name).into(), (*value).into());
    }
    arguments
}

fn browse(object_id: &str, flag: &str, filter: &str, start: &str, count: &str, sort: &str) -> SoapArguments {
    arguments(&[
        ("ObjectID", object_id),
        ("BrowseFlag", flag),
        ("Filter", filter),
        ("StartingIndex", start),
        ("RequestedCount", count),
        ("SortCriteria", sort),
    ])
}

fn share_id(catalog: &Catalog) -> String {
    catalog.children(ROOT_ID).unwrap()[0].id.clone()
}

#[test]
fn parses_namespaced_soap_arguments() {
    let body = Bytes::from_static(
        br#"<s:Envelope xmlns:s="http://schemas.xmlsoap.org/soap/envelope/"><s:Body><u:Browse xmlns:u="urn:test"><ObjectID>0</ObjectID><Filter>*</Filter></u:Browse></s:Body></s:Envelope>"#,
    );

    let (action, arguments) = parse_request(Some("\"urn:test#Browse\""), &body).unwrap();

    assert_eq!(action, "Browse");
    assert_eq!(arguments.get("ObjectID").map(String::as_str), Some("0"));
    assert_eq!(arguments.get("Filter").map(String::as_str), Some("*"));
}

#[test]
fn parses_empty_soap_arguments() {
    let body = Bytes::from_static(
        br#"<s:Envelope xmlns:s="http://schemas.xmlsoap.org/soap/envelope/"><s:Body><u:Browse xmlns:u="urn:test"><ObjectID>0</ObjectID><SortCriteria></SortCriteria><Filter /></u:Browse></s:Body></s:Envelope>"#,
    );

    let (_, arguments) = parse_request(Some("urn:test#Browse"), &body).unwrap();

    assert_eq!(arguments.get("SortCriteria").map(String::as_str), Some(""));
    assert_eq!(arguments.get("Filter").map(String::as_str), Some(""));
}

#[test]
fn protocol_info_advertises_byte_ranges() {
    let value = protocol_info("audio/mpeg", Some("MP3"));
    assert!(value.contains("DLNA.ORG_PN=MP3"));
    assert!(value.contains("DLNA.ORG_OP=01"));
}

#[test]
fn protocol_info_without_profile() {
    assert_eq!(
        protocol_info("image/png", None),
        "http-get:*:image/png:DLNA.ORG_OP=01;DLNA.ORG_CI=0;DLNA.ORG_FLAGS=01700000000000000000000000000000"
    );
}

#[test]
fn request_without_action_is_refused() {
    let body = Bytes::from_static(b"<a/>");
    assert!(matches!(parse_request(None, &body), Err(SoapParseError::MissingAction)));
    assert!(matches!(parse_request(Some("urn:test"), &body), Err(SoapParseError::MissingAction)));
}

#[test]
fn malformed_body_is_refused() {
    let body = Bytes::from_static(b"<a><b>x</c></a>");
    assert!(matches!(parse_request(Some("urn:test#Browse"), &body), Err(SoapParseError::InvalidXml(_))));
    let entity = Bytes::from_static(b"<a>&bogus;</a>");
    assert!(matches!(parse_request(Some("urn:test#Browse"), &entity), Err(SoapParseError::InvalidXml(_))));
}

#[test]
fn argument_text_is_unescaped_and_later_values_win() {
    let body = Bytes::from_static(b"<u:Act><Name>a &amp; b</Name><Name>second</Name><Other>&lt;x&gt;</Other></u:Act>");
    let (action, arguments) = parse_request(Some(" \"urn:x#Act\" "), &body).unwrap();
    assert_eq!(action, "Act");
    assert_eq!(arguments.get("Name").map(String::as_str), Some("second"));
    assert_eq!(arguments.get("Other").map(String::as_str), Some("<x>"));
    assert_eq!(arguments.get("Act").map(String::as_str), None);
}

#[test]
fn browse_filters_resource_fields() {
    let catalog = catalog_with("Music", &[("song & dance.mp3", 5)]);
    let arguments = browse(&share_id(&catalog), "BrowseDirectChildren", "dc:title,upnp:class", "0", "0", "");

    let response = content_directory_response(
        "Browse",
        &arguments,
        &catalog,
        &BookmarkPositions::new(),
        "http://127.0.0.1:1",
    )
    .unwrap();

    assert!(response.contains("song &amp;amp; dance"));
    assert!(!response.contains("&lt;res"));
}

#[test]
fn browse_returns_samsung_resume_position() {
    let catalog = catalog_with("Shows", &[("episode.mp4", 5)]);
    let item_id = catalog.children(&share_id(&catalog)).unwrap()[0].id.clone();
    let arguments = browse(&item_id, "BrowseMetadata", "*", "0", "0", "");
    let mut bookmarks = BookmarkPositions::new();
    bookmarks.set(item_id, 196_147);

    let response = content_directory_response(
        "Browse",
        &arguments,
        &catalog,
        &bookmarks,
        "http://127.0.0.1:1",
    )
    .unwrap();

    assert!(response.contains("sec:dcmInfo"));
    assert!(response.contains("BM=196147"));
}

#[test]
fn browse_includes_resources_with_size_and_url() {
    let catalog = catalog_with("Music", &[("tune.mp3", 1234)]);
    let item_id = catalog.children(&share_id(&catalog)).unwrap()[0].id.clone();
    let arguments = browse(&item_id, "BrowseMetadata", "res", "0", "0", "");
    let response = content_directory_response("Browse", &arguments, &catalog, &BookmarkPositions::new(), "http://h:1").unwrap();
    assert!(response.contains("size=&quot;1234&quot;"));
    assert!(response.contains(&format!("http://h:1/media/{item_id}/file.mp3")));
    assert!(response.contains("<NumberReturned>1</NumberReturned><TotalMatches>1</TotalMatches>"));
}

#[test]
fn title_sort_keeps_browse_counts() {
    let catalog = catalog_with("Music", &[("b.mp3", 1), ("c.mp3", 1), ("a.mp3", 1)]);
    let share = share_id(&catalog);
    let counts = |criteria: &str| {
        let arguments = browse(&share, "BrowseDirectChildren", "dc:title", "1", "5", criteria);
        let response =
            content_directory_response("Browse", &arguments, &catalog, &BookmarkPositions::new(), "http://h:1").unwrap();
        let start = response.find("<NumberReturned>").unwrap();
        let end = response.find("</UpdateID>").unwrap();
        response[start..end].to_string()
    };
    assert!(counts("").contains("<NumberReturned>2</NumberReturned><TotalMatches>3</TotalMatches>"));
    assert_eq!(counts(""), counts("+dc:title"));
    assert_eq!(counts(""), counts("-dc:title"));
}

#[test]
fn browse_sorts_and_pages_children() {
    let catalog = catalog_with("Music", &[("b.mp3", 1), ("c.mp3", 1), ("a.mp3", 1)]);
    let share = share_id(&catalog);
    let ascending = browse(&share, "BrowseDirectChildren", "dc:title", "1", "1", "+dc:title");
    let response = content_directory_response("Browse", &ascending, &catalog, &BookmarkPositions::new(), "http://h:1").unwrap();
    assert!(response.contains("&lt;dc:title&gt;b&lt;/dc:title&gt;"));
    assert!(!response.contains("&lt;dc:title&gt;a&lt;/dc:title&gt;"));
    assert!(response.contains("<NumberReturned>1</NumberReturned><TotalMatches>3</TotalMatches>"));

    let descending = browse(&share, "BrowseDirectChildren", "dc:title", "0", "0", "-dc:title");
    let response = content_directory_response("Browse", &descending, &catalog, &BookmarkPositions::new(), "http://h:1").unwrap();
    let c = response.find("&gt;c&lt;").unwrap();
    let b = response.find("&gt;b&lt;").unwrap();
    let a = response.find("&gt;a&lt;").unwrap();
    assert!(c < b && b < a);

    let past_end = browse(&share, "BrowseDirectChildren", "*", "10", "5", "");
    let response = content_directory_response("Browse", &past_end, &catalog, &BookmarkPositions::new(), "http://h:1").unwrap();
    assert!(response.contains("<NumberReturned>0</NumberReturned><TotalMatches>3</TotalMatches>"));
}

#[test]
fn browse_root_metadata_reports_child_count() {
    let catalog = catalog_with("Music", &[("a.mp3", 1)]);
    let arguments = browse(ROOT_ID, "BrowseMetadata", "*", "0", "0", "");
    let response = content_directory_response("Browse", &arguments, &catalog, &BookmarkPositions::new(), "http://h:1").unwrap();
    assert!(response.contains("&lt;container id=&quot;0&quot; parentID=&quot;-1&quot; restricted=&quot;1&quot; childCount=&quot;1&quot;&gt;"));
    assert!(response.contains("<NumberReturned>1</NumberReturned><TotalMatches>1</TotalMatches>"));
}

#[test]
fn browse_errors_follow_the_upnp_codes() {
    let catalog = catalog_with("Music", &[("a.mp3", 1)]);
    let none = BookmarkPositions::new();
    let missing = arguments(&[("ObjectID", "0")]);
    assert_eq!(content_directory_response("Browse", &missing, &catalog, &none, "u").unwrap_err().code, 402);
    let bad_number = browse("0", "BrowseDirectChildren", "*", "x", "0", "");
    assert_eq!(content_directory_response("Browse", &bad_number, &catalog, &none, "u").unwrap_err().code, 402);
    let bad_sort = browse("0", "BrowseDirectChildren", "*", "0", "0", "+dc:date");
    assert_eq!(content_directory_response("Browse", &bad_sort, &catalog, &none, "u").unwrap_err().code, 709);
    let unknown = browse("nope", "BrowseMetadata", "*", "0", "0", "");
    assert_eq!(content_directory_response("Browse", &unknown, &catalog, &none, "u").unwrap_err().code, 701);
    let item = catalog.children(&share_id(&catalog)).unwrap()[0].id.clone();
    let not_container = browse(&item, "BrowseDirectChildren", "*", "0", "0", "");
    assert_eq!(content_directory_response("Browse", &not_container, &catalog, &none, "u").unwrap_err().code, 701);
    let bad_flag = browse("0", "BrowseEverything", "*", "0", "0", "");
    assert_eq!(content_directory_response("Browse", &bad_flag, &catalog, &none, "u").unwrap_err().code, 402);
    let error = content_directory_response("Search", &bad_flag, &catalog, &none, "u").unwrap_err();
    assert_eq!((error.code, error.description), (401, "Invalid Action"));
}

#[test]
fn content_directory_answers_capabilities() {
    let catalog = catalog_with("Music", &[]);
    let none = BookmarkPositions::new();
    let empty = SoapArguments::new();
    let sort = content_directory_response("GetSortCapabilities", &empty, &catalog, &none, "u").unwrap();
    assert!(sort.contains("<SortCaps>dc:title</SortCaps>"));
    assert!(sort.contains("<u:GetSortCapabilitiesResponse xmlns:u=\"urn:schemas-upnp-org:service:ContentDirectory:1\">"));
    let search = content_directory_response("GetSearchCapabilities", &empty, &catalog, &none, "u").unwrap();
    assert!(search.contains("<SearchCaps></SearchCaps>"));
    let id = content_directory_response("GetSystemUpdateID", &empty, &catalog, &none, "u").unwrap();
    assert!(id.contains(&format!("<Id>{}</Id>", catalog.update_id())));
    let bookmark = content_directory_response("X_SetBookmark", &empty, &catalog, &none, "u").unwrap();
    assert!(bookmark.contains("<u:X_SetBookmarkResponse xmlns:u=\"urn:schemas-upnp-org:service:ContentDirectory:1\"></u:X_SetBookmarkResponse>"));
}

#[test]
fn connection_manager_answers_its_actions() {
    let empty = SoapArguments::new();
    let info = connection_manager_response("GetProtocolInfo", &empty).unwrap();
    assert!(info.contains("<Source>http-get:*:"));
    assert!(info.contains("<Sink></Sink>"));
    let ids = connection_manager_response("GetCurrentConnectionIDs", &empty).unwrap();
    assert!(ids.contains("<ConnectionIDs>0</ConnectionIDs>"));
    let zero = arguments(&[("ConnectionID", "0")]);
    let current = connection_manager_response("GetCurrentConnectionInfo", &zero).unwrap();
    assert!(current.contains("<Direction>Output</Direction><Status>OK</Status>"));
    let other = arguments(&[("ConnectionID", "1")]);
    assert_eq!(connection_manager_response("GetCurrentConnectionInfo", &other).unwrap_err().code, 706);
    assert_eq!(connection_manager_response("Nope", &empty).unwrap_err().code, 401);
}

#[test]
fn soap_fault_carries_code_and_description() {
    let fault = soap_fault(upnp_error(701));
    assert!(fault.contains("<errorCode>701</errorCode><errorDescription>No Such Object</errorDescription>"));
    assert!(fault.contains("<faultcode>s:Client</faultcode><faultstring>UPnPError</faultstring>"));
    assert_eq!(upnp_error(999).description, "Action Failed");
    assert_eq!(upnp_error(709).description, "Unsupported or Invalid Sort Criteria");
}

#[test]
fn arguments_come_from_tokens() {
    let tokens = vec![
        XmlToken::Other,
        XmlToken::Start(b"s:Envelope".to_vec()),
        XmlToken::Start(b"s:Body".to_vec()),
        XmlToken::Start(b"u:Browse".to_vec()),
        XmlToken::Start(b"ObjectID".to_vec()),
        XmlToken::Text(b"0".to_vec()),
        XmlToken::End,
        XmlToken::Empty(b"u:Filter".to_vec()),
        XmlToken::Start(b"Title".to_vec()),
        XmlToken::Text(b"a &amp; b".to_vec()),
        XmlToken::End,
        XmlToken::Start(b"SortCriteria".to_vec()),
        XmlToken::End,
        XmlToken::Start(b"ObjectID".to_vec()),
        XmlToken::Text(b"7".to_vec()),
        XmlToken::End,
        XmlToken::End,
        XmlToken::End,
        XmlToken::End,
        XmlToken::Eof,
    ];
    let arguments = arguments_of(&tokens).unwrap();
    assert_eq!(arguments.get("ObjectID").map(String::as_str), Some("7"));
    assert_eq!(arguments.get("Filter").map(String::as_str), Some(""));
    assert_eq!(arguments.get("Title").map(String::as_str), Some("a & b"));
    assert_eq!(arguments.get("SortCriteria").map(String::as_str), Some(""));
    assert_eq!(arguments.get("Envelope"), None);
    assert_eq!(arguments.get("Missing"), None);

    let broken = vec![XmlToken::Start(b"Title".to_vec()), XmlToken::Text(b"&bogus;".to_vec()), XmlToken::Eof];
    assert!(arguments_of(&broken).is_err());
    let stray_text = vec![XmlToken::Text(b"&bogus;".to_vec()), XmlToken::Eof];
    assert!(arguments_of(&stray_text).unwrap().get("Title").is_none());
}

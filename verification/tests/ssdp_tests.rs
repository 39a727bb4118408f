use joedlna::config::Ipv4Address;
use joedlna::ssdp::{
    advertisements, alive_message, byebye_message, location, matching_advertisements,
    multicast_address, parse_search, search_delay, search_response, SSDP_PORT,
};

#[test]
fn parses_case_insensitive_search_headers() {
    let request = b"M-SEARCH * HTTP/1.1\r\nHOST: 239.255.255.250:1900\r\nMAN: \"ssdp:discover\"\r\nMX: 3\r\nST: ssdp:all\r\n\r\n";

    let search = parse_search(request).unwrap();

    assert_eq!(search.target, "ssdp:all");
    assert_eq!(search.mx_seconds, 3);
}

#[test]
fn rejects_non_discovery_datagram() {
    assert!(parse_search(b"NOTIFY * HTTP/1.1\r\n\r\n").is_none());
}

#[test]
fn search_header_names_ignore_case_and_mx_is_clamped() {
    let request = b"m-search * http/1.1\r\nman:  ssdp:DISCOVER \r\nmx: 10\r\n st : upnp:rootdevice \r\n\r\n";
    let search = parse_search(request).unwrap();
    assert_eq!(search.target, "upnp:rootdevice");
    assert_eq!(search.mx_seconds, 5);

    let zero = b"M-SEARCH * HTTP/1.1\r\nMAN: \"ssdp:discover\"\r\nMX: 0\r\nST: ssdp:all\r\n";
    assert_eq!(parse_search(zero).unwrap().mx_seconds, 1);
    let unreadable = b"M-SEARCH * HTTP/1.1\r\nMAN: \"ssdp:discover\"\r\nMX: soon\r\nST: ssdp:all\r\n";
    assert_eq!(parse_search(unreadable).unwrap().mx_seconds, 1);
    let missing = b"M-SEARCH * HTTP/1.1\r\nMAN: \"ssdp:discover\"\r\nST: ssdp:all";
    assert_eq!(parse_search(missing).unwrap().mx_seconds, 1);
}

#[test]
fn search_needs_discovery_and_target() {
    assert!(parse_search(b"M-SEARCH * HTTP/1.1\r\nST: ssdp:all\r\n\r\n").is_none());
    assert!(parse_search(b"M-SEARCH * HTTP/1.1\r\nMAN: \"ssdp:discover\"\r\n\r\n").is_none());
    assert!(parse_search(b"M-SEARCH * HTTP/1.1\r\nMAN: \"ssdp:update\"\r\nST: ssdp:all\r\n").is_none());
    assert!(parse_search(b"M-SEARCH * HTTP/1.1\r\nMAN: \"ssdp:discover\"\r\nST: a\r\nMAN: no\r\n").is_none());
    assert!(parse_search(&[0xff, 0xfe, 0x00]).is_none());
}

#[test]
fn later_header_lines_win() {
    let request = b"M-SEARCH * HTTP/1.1\r\nST: first\r\nMAN: \"ssdp:discover\"\r\nST: second\r\nbroken line\r\n";
    assert_eq!(parse_search(request).unwrap().target, "second");
}

#[test]
fn advertises_device_and_services() {
    let ads = advertisements("uuid:abc");
    let pairs: Vec<(&str, &str)> = ads.iter().map(|a| (a.target.as_str(), a.usn.as_str())).collect();
    assert_eq!(
        pairs,
        vec![
            ("upnp:rootdevice", "uuid:abc::upnp:rootdevice"),
            ("uuid:abc", "uuid:abc"),
            ("urn:schemas-upnp-org:device:MediaServer:1", "uuid:abc::urn:schemas-upnp-org:device:MediaServer:1"),
            (
                "urn:schemas-upnp-org:service:ContentDirectory:1",
                "uuid:abc::urn:schemas-upnp-org:service:ContentDirectory:1"
            ),
            (
                "urn:schemas-upnp-org:service:ConnectionManager:1",
                "uuid:abc::urn:schemas-upnp-org:service:ConnectionManager:1"
            ),
        ]
    );
}

#[test]
fn searches_match_targets_without_case() {
    let ads = advertisements("uuid:abc");
    assert_eq!(matching_advertisements(&ads, "SSDP:ALL").len(), 5);
    let root = matching_advertisements(&ads, "UPNP:RootDevice");
    assert_eq!(root.len(), 1);
    assert_eq!(root[0].usn, "uuid:abc::upnp:rootdevice");
    assert!(matching_advertisements(&ads, "urn:other").is_empty());
}

#[test]
fn messages_have_the_ssdp_layout() {
    let ads = advertisements("uuid:abc");
    let here = location(Ipv4Address { a: 192, b: 168, c: 1, d: 5 }, 8201);
    assert_eq!(here, "http://192.168.1.5:8201/root.xml");
    assert_eq!(
        search_response(&ads[0], &here, 1800, "Linux/1.0 UPnP/1.0 JoeDLNA/0.1.0"),
        "HTTP/1.1 200 OK\r\nCACHE-CONTROL: max-age=1800\r\nEXT:\r\nLOCATION: http://192.168.1.5:8201/root.xml\r\nSERVER: Linux/1.0 UPnP/1.0 JoeDLNA/0.1.0\r\nST: upnp:rootdevice\r\nUSN: uuid:abc::upnp:rootdevice\r\n\r\n"
    );
    assert_eq!(
        alive_message(&ads[1], &here, 60, "S"),
        "NOTIFY * HTTP/1.1\r\nHOST: 239.255.255.250:1900\r\nCACHE-CONTROL: max-age=60\r\nLOCATION: http://192.168.1.5:8201/root.xml\r\nNT: uuid:abc\r\nNTS: ssdp:alive\r\nSERVER: S\r\nUSN: uuid:abc\r\n\r\n"
    );
    assert_eq!(
        byebye_message(&ads[1]),
        "NOTIFY * HTTP/1.1\r\nHOST: 239.255.255.250:1900\r\nNT: uuid:abc\r\nNTS: ssdp:byebye\r\nUSN: uuid:abc\r\n\r\n"
    );
    assert_eq!(multicast_address(), Ipv4Address { a: 239, b: 255, c: 255, d: 250 });
    assert_eq!(SSDP_PORT, 1900);
}

#[test]
fn search_delay_stays_within_mx() {
    assert_eq!(search_delay(1_234, 0, 3), 1_234);
    assert_eq!(search_delay(5_000, 0, 3), 2_000);
    assert_eq!(search_delay(0b1010, 0b0110, 1), 0b1100);
    for nanos in [0u32, 999, 123_456_789, 999_999_999] {
        for mx in 1..=5u64 {
            assert!(search_delay(nanos, 49_152, mx) < mx * 1_000);
        }
    }
}

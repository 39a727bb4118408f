use joedlna::config::Ipv4Address;
use joedlna::events::{
    event_body, parse_timeout, same_private_network, Callback, EventManager, EventService,
    SubscriptionError,
};

fn ip(a: u8, b: u8, c: u8, d: u8) -> Ipv4Address {
    Ipv4Address { a, b, c, d }
}

fn manager() -> EventManager {
    EventManager::new(ip(192, 168, 1, 2))
}

const CALLBACK: &str = "<http://192.168.1.40:49152/events>";

#[test]
fn parses_callback() {
    let callback = Callback::parse("<http://192.168.1.40:49152/events>").unwrap();
    assert_eq!(callback.address, ip(192, 168, 1, 40));
    assert_eq!(callback.port, 49_152);
    assert_eq!(callback.path, "/events");
}

#[test]
fn checks_private_network_192() {
    assert!(same_private_network(ip(192, 168, 1, 2), ip(192, 168, 40, 3)));
}

#[test]
fn checks_private_network_10() {
    assert!(same_private_network(ip(10, 1, 2, 3), ip(10, 99, 1, 2)));
}

#[test]
fn checks_private_network_different_ranges() {
    assert!(!same_private_network(ip(192, 168, 1, 2), ip(10, 0, 0, 3)));
}

#[test]
fn checks_private_network_public_callback() {
    assert!(!same_private_network(ip(192, 168, 1, 2), ip(8, 8, 8, 8)));
}

#[test]
fn private_network_ranges_are_symmetric() {
    assert!(same_private_network(ip(172, 16, 0, 1), ip(172, 31, 9, 9)));
    assert!(!same_private_network(ip(172, 15, 0, 1), ip(172, 16, 0, 1)));
    assert!(!same_private_network(ip(169, 254, 1, 1), ip(169, 254, 2, 2)));
    assert!(!same_private_network(ip(127, 0, 0, 1), ip(127, 9, 9, 9)));
    for (x, y) in [(ip(10, 0, 0, 1), ip(8, 8, 8, 8)), (ip(172, 20, 1, 1), ip(172, 30, 1, 1))] {
        assert_eq!(same_private_network(x, y), same_private_network(y, x));
    }
}

#[test]
fn callback_variants() {
    assert_eq!(Callback::parse("  <http://10.0.0.1:80>  ").unwrap().path, "/");
    assert_eq!(Callback::parse("<http://10.0.0.1:80/>").unwrap().path, "/");
    assert_eq!(Callback::parse("<http://10.0.0.1:80//>").unwrap().path, "/");
    assert_eq!(Callback::parse("<http://10.0.0.1:80/a/b>").unwrap().path, "/a/b");
    assert_eq!(Callback::parse("<http://10.0.0.1:80/x><http://10.0.0.2:81/y>").unwrap().port, 80);
    for bad in [
        "http://10.0.0.1:80/x",
        "<https://10.0.0.1:80/x>",
        "<http://10.0.0.1/x>",
        "<http://10.0.0.01:80/x>",
        "<http://10.0.0.256:80/x>",
        "<http://10.0.0:80/x>",
        "<http://host:80/x>",
        "<http://10.0.0.1:70000/x>",
        "<http://10.0.0.1:80/x",
    ] {
        assert_eq!(Callback::parse(bad).unwrap_err(), SubscriptionError::InvalidCallback, "{bad}");
    }
}

#[test]
fn timeout_defaults_and_is_clamped() {
    assert_eq!(parse_timeout(None), 1_800);
    assert_eq!(parse_timeout(Some("Second-300")), 300);
    assert_eq!(parse_timeout(Some("Second-infinite")), 1_800);
    assert_eq!(parse_timeout(Some("Second-0")), 1);
    assert_eq!(parse_timeout(Some("Second-999999")), 86_400);
    assert_eq!(parse_timeout(Some("300")), 1_800);
}

#[test]
fn event_bodies_carry_the_service_state() {
    assert_eq!(
        event_body(EventService::ContentDirectory, 42),
        "<?xml version=\"1.0\" encoding=\"utf-8\"?><e:propertyset xmlns:e=\"urn:schemas-upnp-org:event-1-0\"><e:property><SystemUpdateID>42</SystemUpdateID></e:property></e:propertyset>"
    );
    let body = event_body(EventService::ConnectionManager, 42);
    assert!(body.contains("<SourceProtocolInfo>http-get:*:"));
    assert!(body.contains("<CurrentConnectionIDs>0</CurrentConnectionIDs>"));
}

#[test]
fn subscribe_renew_and_unsubscribe() {
    let mut events = manager();
    let requester = ip(192, 168, 1, 40);
    let service = EventService::ContentDirectory;
    let first = events
        .subscribe(service, None, Some(CALLBACK), Some("upnp:event"), Some("Second-60"), requester, 1_000)
        .unwrap();
    assert!(first.is_new);
    assert_eq!(first.timeout_seconds, 60);
    assert!(first.sid.starts_with("uuid:"));
    assert_eq!(first.sid.len(), 41);

    let renewed = events
        .subscribe(service, Some(&first.sid), None, None, None, requester, 30_000)
        .unwrap();
    assert!(!renewed.is_new);
    assert_eq!(renewed.sid, first.sid);
    assert_eq!(renewed.timeout_seconds, 1_800);

    assert_eq!(
        events.unsubscribe(EventService::ConnectionManager, Some(&first.sid), None, None),
        Err(SubscriptionError::InvalidSid)
    );
    assert_eq!(events.unsubscribe(service, Some(&first.sid), None, None), Ok(()));
    assert_eq!(
        events.unsubscribe(service, Some(&first.sid), None, None),
        Err(SubscriptionError::InvalidSid)
    );
}

#[test]
fn subscription_refusals() {
    let mut events = manager();
    let requester = ip(192, 168, 1, 40);
    let service = EventService::ContentDirectory;
    let error = |r: Result<joedlna::events::SubscriptionResponse, SubscriptionError>| r.unwrap_err();
    assert_eq!(
        error(events.subscribe(service, Some("uuid:x"), Some(CALLBACK), None, None, requester, 0)),
        SubscriptionError::IncompatibleHeaders
    );
    assert_eq!(
        error(events.subscribe(service, Some("uuid:x"), None, None, None, requester, 0)),
        SubscriptionError::InvalidSid
    );
    assert_eq!(
        error(events.subscribe(service, None, Some(CALLBACK), Some("upnp:propchange"), None, requester, 0)),
        SubscriptionError::InvalidNt
    );
    assert_eq!(
        error(events.subscribe(service, None, None, Some("upnp:event"), None, requester, 0)),
        SubscriptionError::InvalidCallback
    );
    assert_eq!(
        error(events.subscribe(service, None, Some(CALLBACK), Some("upnp:event"), None, ip(192, 168, 1, 41), 0)),
        SubscriptionError::UnsafeCallback
    );
    let public = "<http://8.8.8.8:80/x>";
    assert_eq!(
        error(events.subscribe(service, None, Some(public), Some("upnp:event"), None, ip(8, 8, 8, 8), 0)),
        SubscriptionError::UnsafeCallback
    );
    assert_eq!(
        events.unsubscribe(service, Some("uuid:x"), None, Some("upnp:event")),
        Err(SubscriptionError::IncompatibleHeaders)
    );
    assert_eq!(events.unsubscribe(service, None, None, None), Err(SubscriptionError::InvalidSid));
    assert_eq!(SubscriptionError::InvalidNt.message(), "NT must be upnp:event");
}

#[test]
fn loopback_and_link_local_callbacks_are_unsafe() {
    let service = EventService::ContentDirectory;
    let mut loopback = EventManager::new(ip(127, 0, 0, 1));
    assert_eq!(
        loopback
            .subscribe(service, None, Some("<http://127.0.0.1:80/x>"), Some("upnp:event"), None, ip(127, 0, 0, 1), 0)
            .unwrap_err(),
        SubscriptionError::UnsafeCallback
    );
    let mut link_local = EventManager::new(ip(169, 254, 1, 1));
    assert_eq!(
        link_local
            .subscribe(service, None, Some("<http://169.254.2.2:80/x>"), Some("upnp:event"), None, ip(169, 254, 2, 2), 0)
            .unwrap_err(),
        SubscriptionError::UnsafeCallback
    );
}

#[test]
fn expired_subscriptions_cannot_be_renewed() {
    let mut events = manager();
    let requester = ip(192, 168, 1, 40);
    let service = EventService::ContentDirectory;
    let sid = events
        .subscribe(service, None, Some(CALLBACK), Some("upnp:event"), Some("Second-1"), requester, 0)
        .unwrap()
        .sid;
    assert_eq!(
        events.subscribe(service, Some(&sid), None, None, None, requester, 1_000).unwrap_err(),
        SubscriptionError::InvalidSid
    );
}

#[test]
fn notifications_count_their_sequence() {
    let mut events = manager();
    let requester = ip(192, 168, 1, 40);
    let cd = events
        .subscribe(EventService::ContentDirectory, None, Some(CALLBACK), Some("upnp:event"), None, requester, 0)
        .unwrap()
        .sid;
    let cm = events
        .subscribe(EventService::ConnectionManager, None, Some(CALLBACK), Some("upnp:event"), None, requester, 0)
        .unwrap()
        .sid;

    let initial = events.notify_initial(&cd, 7).unwrap();
    assert_eq!(initial.sequence, 0);
    assert_eq!(initial.sid, cd);
    assert!(initial.body.contains("<SystemUpdateID>7</SystemUpdateID>"));
    assert!(events.notify_initial("uuid:unknown", 7).is_none());

    let changed = events.notify_content_changed(8, 10);
    assert_eq!(changed.len(), 1);
    assert_eq!(changed[0].sid, cd);
    assert_eq!(changed[0].sequence, 1);
    let first_cm = events.notify_initial(&cm, 8).unwrap();
    assert_eq!(first_cm.sequence, 0);

    let request = changed[0].request();
    assert!(request.starts_with("NOTIFY /events HTTP/1.1\r\nHOST: 192.168.1.40:49152\r\n"));
    assert!(request.contains(&format!("CONTENT-LENGTH: {}\r\n", changed[0].body.len())));
    assert!(request.contains(&format!("SID: {cd}\r\nSEQ: 1\r\nCONNECTION: close\r\n\r\n")));
    assert!(request.ends_with(&changed[0].body));

    let later = events.notify_content_changed(9, 1_800_001);
    assert!(later.is_empty());
}

use joedlna::description::{
    device_description, presentation_page, source_protocol_info, CONNECTION_MANAGER_SCPD,
    CONTENT_DIRECTORY_SCPD,
};
use joedlna::xml::escape_text;
use quick_xml::events::Event;
use quick_xml::Reader;

#[test]
fn descriptions_are_well_formed_xml() {
    for document in [
        device_description("Test & Server", "uuid:1234", "http://127.0.0.1:8000"),
        CONTENT_DIRECTORY_SCPD.into(),
        CONNECTION_MANAGER_SCPD.into(),
    ] {
        let mut reader = Reader::from_str(&document);
        loop {
            if reader.read_event().unwrap() == Event::Eof {
                break;
            }
        }
    }
}

#[test]
fn device_description_escapes_the_name_and_names_the_device() {
    let document = device_description("Test & Server", "uuid:1234", "http://127.0.0.1:8000");
    assert!(document.contains("<friendlyName>Test &amp; Server</friendlyName>"));
    assert!(document.contains("<UDN>uuid:1234</UDN>"));
    assert!(document.contains("urn:schemas-upnp-org:device:MediaServer:1"));
    assert!(!document.contains("Test & Server"));
}

#[test]
fn presentation_page_reports_the_catalog() {
    let page = presentation_page("<Home>", 3, 1024);
    assert_eq!(
        page,
        "<!doctype html><meta charset=utf-8><title>&lt;Home&gt;</title><h1>&lt;Home&gt;</h1><p>3 media files indexed</p><p>1024 bytes available</p>"
    );
}

#[test]
fn source_protocol_info_lists_every_served_type() {
    let info = source_protocol_info();
    let entries: Vec<&str> = info.split(',').collect();
    assert_eq!(entries.len(), 16);
    assert_eq!(entries[0], "http-get:*:audio/mpeg:*");
    assert_eq!(entries[15], "http-get:*:image/gif:*");
    for entry in entries {
        assert!(entry.starts_with("http-get:*:") && entry.ends_with(":*"));
    }
}

#[test]
fn escape_text_replaces_markup_characters() {
    assert_eq!(escape_text("a<b>&\"c'"), "a&lt;b&gt;&amp;&quot;c&apos;");
    assert_eq!(escape_text("plain"), "plain");
}

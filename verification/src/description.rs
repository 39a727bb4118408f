//! The UPnP device and service descriptions and the presentation page.
use vstd::prelude::*;

use crate::text::{decimal, push_decimal, push_str};
use crate::xml::{element, element_text, escape, push_escaped};

verus! {

pub const CONTENT_DIRECTORY_TYPE: &'static str = "urn:schemas-upnp-org:service:ContentDirectory:1";

pub const CONNECTION_MANAGER_TYPE: &'static str = "urn:schemas-upnp-org:service:ConnectionManager:1";

pub const MEDIA_SERVER_TYPE: &'static str = "urn:schemas-upnp-org:device:MediaServer:1";

/// The ContentDirectory service description.
pub const CONTENT_DIRECTORY_SCPD: &'static str = r#"<?xml version="1.0" encoding="utf-8"?>
<scpd xmlns="urn:schemas-upnp-org:service-1-0">
  <specVersion><major>1</major><minor>0</minor></specVersion>
  <actionList>
    <action><name>GetSearchCapabilities</name><argumentList>
      <argument><name>SearchCaps</name><direction>out</direction><relatedStateVariable>SearchCapabilities</relatedStateVariable></argument>
    </argumentList></action>
    <action><name>GetSortCapabilities</name><argumentList>
      <argument><name>SortCaps</name><direction>out</direction><relatedStateVariable>SortCapabilities</relatedStateVariable></argument>
    </argumentList></action>
    <action><name>GetSystemUpdateID</name><argumentList>
      <argument><name>Id</name><direction>out</direction><relatedStateVariable>SystemUpdateID</relatedStateVariable></argument>
    </argumentList></action>
    <action><name>Browse</name><argumentList>
      <argument><name>ObjectID</name><direction>in</direction><relatedStateVariable>A_ARG_TYPE_ObjectID</relatedStateVariable></argument>
      <argument><name>BrowseFlag</name><direction>in</direction><relatedStateVariable>A_ARG_TYPE_BrowseFlag</relatedStateVariable></argument>
      <argument><name>Filter</name><direction>in</direction><relatedStateVariable>A_ARG_TYPE_Filter</relatedStateVariable></argument>
      <argument><name>StartingIndex</name><direction>in</direction><relatedStateVariable>A_ARG_TYPE_Index</relatedStateVariable></argument>
      <argument><name>RequestedCount</name><direction>in</direction><relatedStateVariable>A_ARG_TYPE_Count</relatedStateVariable></argument>
      <argument><name>SortCriteria</name><direction>in</direction><relatedStateVariable>A_ARG_TYPE_SortCriteria</relatedStateVariable></argument>
      <argument><name>Result</name><direction>out</direction><relatedStateVariable>A_ARG_TYPE_Result</relatedStateVariable></argument>
      <argument><name>NumberReturned</name><direction>out</direction><relatedStateVariable>A_ARG_TYPE_Count</relatedStateVariable></argument>
      <argument><name>TotalMatches</name><direction>out</direction><relatedStateVariable>A_ARG_TYPE_Count</relatedStateVariable></argument>
      <argument><name>UpdateID</name><direction>out</direction><relatedStateVariable>A_ARG_TYPE_UpdateID</relatedStateVariable></argument>
    </argumentList></action>
    <action><name>X_SetBookmark</name><argumentList>
      <argument><name>CategoryType</name><direction>in</direction><relatedStateVariable>X_A_ARG_TYPE_CategoryType</relatedStateVariable></argument>
      <argument><name>RID</name><direction>in</direction><relatedStateVariable>X_A_ARG_TYPE_RID</relatedStateVariable></argument>
      <argument><name>ObjectID</name><direction>in</direction><relatedStateVariable>A_ARG_TYPE_ObjectID</relatedStateVariable></argument>
      <argument><name>PosSecond</name><direction>in</direction><relatedStateVariable>X_A_ARG_TYPE_PosSecond</relatedStateVariable></argument>
    </argumentList></action>
  </actionList>
  <serviceStateTable>
    <stateVariable sendEvents="no"><name>A_ARG_TYPE_ObjectID</name><dataType>string</dataType></stateVariable>
    <stateVariable sendEvents="no"><name>A_ARG_TYPE_Result</name><dataType>string</dataType></stateVariable>
    <stateVariable sendEvents="no"><name>A_ARG_TYPE_BrowseFlag</name><dataType>string</dataType><allowedValueList><allowedValue>BrowseMetadata</allowedValue><allowedValue>BrowseDirectChildren</allowedValue></allowedValueList></stateVariable>
    <stateVariable sendEvents="no"><name>A_ARG_TYPE_Filter</name><dataType>string</dataType></stateVariable>
    <stateVariable sendEvents="no"><name>A_ARG_TYPE_SortCriteria</name><dataType>string</dataType></stateVariable>
    <stateVariable sendEvents="no"><name>A_ARG_TYPE_Index</name><dataType>ui4</dataType></stateVariable>
    <stateVariable sendEvents="no"><name>A_ARG_TYPE_Count</name><dataType>ui4</dataType></stateVariable>
    <stateVariable sendEvents="no"><name>A_ARG_TYPE_UpdateID</name><dataType>ui4</dataType></stateVariable>
    <stateVariable sendEvents="no"><name>X_A_ARG_TYPE_CategoryType</name><dataType>ui4</dataType></stateVariable>
    <stateVariable sendEvents="no"><name>X_A_ARG_TYPE_RID</name><dataType>ui4</dataType></stateVariable>
    <stateVariable sendEvents="no"><name>X_A_ARG_TYPE_PosSecond</name><dataType>ui4</dataType></stateVariable>
    <stateVariable sendEvents="no"><name>SearchCapabilities</name><dataType>string</dataType></stateVariable>
    <stateVariable sendEvents="no"><name>SortCapabilities</name><dataType>string</dataType></stateVariable>
    <stateVariable sendEvents="yes"><name>SystemUpdateID</name><dataType>ui4</dataType></stateVariable>
  </serviceStateTable>
</scpd>"#;

/// The ConnectionManager service description.
pub const CONNECTION_MANAGER_SCPD: &'static str = r#"<?xml version="1.0" encoding="utf-8"?>
<scpd xmlns="urn:schemas-upnp-org:service-1-0">
  <specVersion><major>1</major><minor>0</minor></specVersion>
  <actionList>
    <action><name>GetProtocolInfo</name><argumentList>
      <argument><name>Source</name><direction>out</direction><relatedStateVariable>SourceProtocolInfo</relatedStateVariable></argument>
      <argument><name>Sink</name><direction>out</direction><relatedStateVariable>SinkProtocolInfo</relatedStateVariable></argument>
    </argumentList></action>
    <action><name>GetCurrentConnectionIDs</name><argumentList>
      <argument><name>ConnectionIDs</name><direction>out</direction><relatedStateVariable>CurrentConnectionIDs</relatedStateVariable></argument>
    </argumentList></action>
    <action><name>GetCurrentConnectionInfo</name><argumentList>
      <argument><name>ConnectionID</name><direction>in</direction><relatedStateVariable>A_ARG_TYPE_ConnectionID</relatedStateVariable></argument>
      <argument><name>RcsID</name><direction>out</direction><relatedStateVariable>A_ARG_TYPE_RcsID</relatedStateVariable></argument>
      <argument><name>AVTransportID</name><direction>out</direction><relatedStateVariable>A_ARG_TYPE_AVTransportID</relatedStateVariable></argument>
      <argument><name>ProtocolInfo</name><direction>out</direction><relatedStateVariable>A_ARG_TYPE_ProtocolInfo</relatedStateVariable></argument>
      <argument><name>PeerConnectionManager</name><direction>out</direction><relatedStateVariable>A_ARG_TYPE_ConnectionManager</relatedStateVariable></argument>
      <argument><name>PeerConnectionID</name><direction>out</direction><relatedStateVariable>A_ARG_TYPE_ConnectionID</relatedStateVariable></argument>
      <argument><name>Direction</name><direction>out</direction><relatedStateVariable>A_ARG_TYPE_Direction</relatedStateVariable></argument>
      <argument><name>Status</name><direction>out</direction><relatedStateVariable>A_ARG_TYPE_ConnectionStatus</relatedStateVariable></argument>
    </argumentList></action>
  </actionList>
  <serviceStateTable>
    <stateVariable sendEvents="yes"><name>SourceProtocolInfo</name><dataType>string</dataType></stateVariable>
    <stateVariable sendEvents="yes"><name>SinkProtocolInfo</name><dataType>string</dataType></stateVariable>
    <stateVariable sendEvents="yes"><name>CurrentConnectionIDs</name><dataType>string</dataType></stateVariable>
    <stateVariable sendEvents="no"><name>A_ARG_TYPE_ConnectionStatus</name><dataType>string</dataType><allowedValueList><allowedValue>OK</allowedValue><allowedValue>ContentFormatMismatch</allowedValue><allowedValue>InsufficientBandwidth</allowedValue><allowedValue>UnreliableChannel</allowedValue><allowedValue>Unknown</allowedValue></allowedValueList></stateVariable>
    <stateVariable sendEvents="no"><name>A_ARG_TYPE_ConnectionManager</name><dataType>string</dataType></stateVariable>
    <stateVariable sendEvents="no"><name>A_ARG_TYPE_Direction</name><dataType>string</dataType><allowedValueList><allowedValue>Input</allowedValue><allowedValue>Output</allowedValue></allowedValueList></stateVariable>
    <stateVariable sendEvents="no"><name>A_ARG_TYPE_ProtocolInfo</name><dataType>string</dataType></stateVariable>
    <stateVariable sendEvents="no"><name>A_ARG_TYPE_ConnectionID</name><dataType>i4</dataType></stateVariable>
    <stateVariable sendEvents="no"><name>A_ARG_TYPE_AVTransportID</name><dataType>i4</dataType></stateVariable>
    <stateVariable sendEvents="no"><name>A_ARG_TYPE_RcsID</name><dataType>i4</dataType></stateVariable>
  </serviceStateTable>
</scpd>"#;

/// The model number announced in the device description.
pub const MODEL_NUMBER: &'static str = "0.1.0";

/// The MIME types the server can deliver, in announcement order.
pub open spec fn source_mime_types() -> Seq<Seq<char>> {
    seq![
        "audio/mpeg"@,
        "audio/mp4"@,
        "audio/aac"@,
        "audio/flac"@,
        "audio/wav"@,
        "audio/ogg"@,
        "video/mp4"@,
        "video/x-matroska"@,
        "video/x-msvideo"@,
        "video/mpeg"@,
        "video/mp2t"@,
        "video/quicktime"@,
        "video/webm"@,
        "image/jpeg"@,
        "image/png"@,
        "image/gif"@,
    ]
}

/// `http-get:*:<mime>:*` for one MIME type.
pub open spec fn source_entry(mime: Seq<char>) -> Seq<char> {
    "http-get:*:"@ + mime + ":*"@
}

/// The entries for `mimes`, joined with commas.
pub open spec fn joined_entries(mimes: Seq<Seq<char>>) -> Seq<char>
    decreases mimes.len(),
{
    if mimes.len() == 0 {
        Seq::empty()
    } else if mimes.len() == 1 {
        source_entry(mimes[0])
    } else {
        joined_entries(mimes.drop_last()) + ","@ + source_entry(mimes.last())
    }
}

/// The ConnectionManager `SourceProtocolInfo`: one `http-get` entry per MIME
/// type the server delivers, separated by commas.
pub open spec fn spec_source_protocol_info() -> Seq<char> {
    joined_entries(source_mime_types())
}

fn mime_list() -> (r: Vec<&'static str>)
    ensures
        r@.map_values(|m: &'static str| m@) == source_mime_types(),
{
    let mut r: Vec<&'static str> = Vec::new();
    r.push("audio/mpeg");
    r.push("audio/mp4");
    r.push("audio/aac");
    r.push("audio/flac");
    r.push("audio/wav");
    r.push("audio/ogg");
    r.push("video/mp4");
    r.push("video/x-matroska");
    r.push("video/x-msvideo");
    r.push("video/mpeg");
    r.push("video/mp2t");
    r.push("video/quicktime");
    r.push("video/webm");
    r.push("image/jpeg");
    r.push("image/png");
    r.push("image/gif");
    assert(r@.map_values(|m: &'static str| m@) =~= source_mime_types());
    r
}

/// The ConnectionManager `SourceProtocolInfo` value.
pub fn source_protocol_info() -> (r: String)
    ensures
        r@ == spec_source_protocol_info(),
{
    let mimes = mime_list();
    let ghost ms = mimes@.map_values(|m: &'static str| m@);
    let mut out = String::new();
    let mut i: usize = 0;
    while i < mimes.len()
        invariant
            ms == mimes@.map_values(|m: &'static str| m@),
            i <= ms.len(),
            out@ == joined_entries(ms.take(i as int)),
        decreases ms.len() - i,
    {
        if i > 0 {
            push_str(&mut out, ",");
        }
        push_str(&mut out, "http-get:*:");
        push_str(&mut out, mimes[i]);
        push_str(&mut out, ":*");
        proof {
            let t = ms.take(i + 1);
            assert(t.drop_last() == ms.take(i as int));
            assert(t.last() == mimes@[i as int]@);
            if i == 0 {
                assert(t.len() == 1);
                assert(t[0] == t.last());
            }
        }
        i = i + 1;
    }
    assert(ms.take(ms.len() as int) == ms);
    out
}

/// A `<service>` element of the device description, with its SCPD, control
/// and event URLs.
pub open spec fn service_element(
    service_type: Seq<char>,
    name: Seq<char>,
    scpd_url: Seq<char>,
    control_url: Seq<char>,
    event_url: Seq<char>,
) -> Seq<char> {
    "\n      <service>\n        <serviceType>"@ + service_type + "</serviceType>\n        <serviceId>urn:upnp-org:serviceId:"@
        + name + "</serviceId>\n        <SCPDURL>"@ + scpd_url + "</SCPDURL>\n        <controlURL>"@
        + control_url + "</controlURL>\n        <eventSubURL>"@ + event_url
        + "</eventSubURL>\n      </service>"@
}

/// The entry of a service served under `route`: its description at
/// `route.xml`, its control point at `route/control`, its events at
/// `route/events`.
pub open spec fn service_entry(service_type: Seq<char>, name: Seq<char>, route: Seq<char>) -> Seq<char> {
    service_element(service_type, name, route + ".xml"@, route + "/control"@, route + "/events"@)
}

fn push_service_entry(out: &mut String, service_type: &str, name: &str, route: &str)
    ensures
        final(out)@ == old(out)@ + service_entry(service_type@, name@, route@),
{
    push_str(out, "\n      <service>\n        <serviceType>");
    push_str(out, service_type);
    push_str(out, "</serviceType>\n        <serviceId>urn:upnp-org:serviceId:");
    push_str(out, name);
    push_str(out, "</serviceId>\n        <SCPDURL>");
    push_str(out, route);
    push_str(out, ".xml");
    push_str(out, "</SCPDURL>\n        <controlURL>");
    push_str(out, route);
    push_str(out, "/control");
    push_str(out, "</controlURL>\n        <eventSubURL>");
    push_str(out, route);
    push_str(out, "/events");
    push_str(out, "</eventSubURL>\n      </service>");
}

/// Whether `t` occurs in `s`.
pub open spec fn has_part(s: Seq<char>, t: Seq<char>) -> bool {
    exists|i: int| 0 <= i && i + t.len() <= s.len() && #[trigger] s.subrange(i, i + t.len()) == t
}

/// The device description lists each service with the URLs the server
/// routes to it: the ContentDirectory at `/upnp/content-directory.xml`,
/// `/upnp/content-directory/control` and `/upnp/content-directory/events`,
/// the ConnectionManager likewise under `/upnp/connection-manager`.
pub proof fn lemma_description_service_urls(friendly_name: Seq<char>, udn: Seq<char>, base_url: Seq<char>)
    ensures
        has_part(
            spec_device_description(friendly_name, udn, base_url),
            service_element(
                CONTENT_DIRECTORY_TYPE@,
                "ContentDirectory"@,
                "/upnp/content-directory.xml"@,
                "/upnp/content-directory/control"@,
                "/upnp/content-directory/events"@,
            ),
        ),
        has_part(
            spec_device_description(friendly_name, udn, base_url),
            service_element(
                CONNECTION_MANAGER_TYPE@,
                "ConnectionManager"@,
                "/upnp/connection-manager.xml"@,
                "/upnp/connection-manager/control"@,
                "/upnp/connection-manager/events"@,
            ),
        ),
{
    reveal_strlit("/upnp/content-directory");
    reveal_strlit("/upnp/content-directory.xml");
    reveal_strlit("/upnp/content-directory/control");
    reveal_strlit("/upnp/content-directory/events");
    reveal_strlit("/upnp/connection-manager");
    reveal_strlit("/upnp/connection-manager.xml");
    reveal_strlit("/upnp/connection-manager/control");
    reveal_strlit("/upnp/connection-manager/events");
    reveal_strlit(".xml");
    reveal_strlit("/control");
    reveal_strlit("/events");
    assert("/upnp/content-directory"@ + ".xml"@ =~= "/upnp/content-directory.xml"@);
    assert("/upnp/content-directory"@ + "/control"@ =~= "/upnp/content-directory/control"@);
    assert("/upnp/content-directory"@ + "/events"@ =~= "/upnp/content-directory/events"@);
    assert("/upnp/connection-manager"@ + ".xml"@ =~= "/upnp/connection-manager.xml"@);
    assert("/upnp/connection-manager"@ + "/control"@ =~= "/upnp/connection-manager/control"@);
    assert("/upnp/connection-manager"@ + "/events"@ =~= "/upnp/connection-manager/events"@);
    let d = spec_device_description(friendly_name, udn, base_url);
    let cd = service_entry(CONTENT_DIRECTORY_TYPE@, "ContentDirectory"@, "/upnp/content-directory"@);
    let cm = service_entry(CONNECTION_MANAGER_TYPE@, "ConnectionManager"@, "/upnp/connection-manager"@);
    let tail = "\n    </serviceList>\n    <presentationURL>/</presentationURL>\n  </device>\n</root>"@;
    let before = d.subrange(0, d.len() - tail.len() - cm.len() - cd.len());
    assert(d =~= before + cd + cm + tail);
    let i = before.len() as int;
    assert(d.subrange(i, i + cd.len()) =~= cd);
    let j = i + cd.len();
    assert(d.subrange(j, j + cm.len()) =~= cm);
}

/// The device description document.
pub open spec fn spec_device_description(friendly_name: Seq<char>, udn: Seq<char>, base_url: Seq<char>) -> Seq<char> {
    "<?xml version=\"1.0\" encoding=\"utf-8\"?>\n<root xmlns=\"urn:schemas-upnp-org:device-1-0\" xmlns:dlna=\"urn:schemas-dlna-org:device-1-0\">\n  <specVersion><major>1</major><minor>0</minor></specVersion>\n  <URLBase>"@
        + base_url
        + "/</URLBase>\n  <device>\n    <deviceType>urn:schemas-upnp-org:device:MediaServer:1</deviceType>\n    <friendlyName>"@
        + escape(friendly_name)
        + "</friendlyName>\n    <manufacturer>JoeDLNA</manufacturer>\n    <modelDescription>A small, filesystem-first Rust DLNA media server</modelDescription>\n    <modelName>JoeDLNA</modelName>\n    <modelNumber>"@
        + MODEL_NUMBER@
        + "</modelNumber>\n    <serialNumber>"@
        + escape(strip_uuid_prefix(udn))
        + "</serialNumber>\n    <UDN>"@
        + escape(udn)
        + "</UDN>\n    <dlna:X_DLNADOC>DMS-1.50</dlna:X_DLNADOC>\n    <dlna:X_DLNACAP></dlna:X_DLNACAP>\n    <serviceList>"@
        + service_entry(CONTENT_DIRECTORY_TYPE@, "ContentDirectory"@, "/upnp/content-directory"@)
        + service_entry(CONNECTION_MANAGER_TYPE@, "ConnectionManager"@, "/upnp/connection-manager"@)
        + "\n    </serviceList>\n    <presentationURL>/</presentationURL>\n  </device>\n</root>"@
}

/// `udn` without every leading `uuid:` (`str::trim_start_matches`).
pub open spec fn strip_uuid_prefix(udn: Seq<char>) -> Seq<char>
    decreases udn.len(),
{
    if udn.len() >= 5 && udn.take(5) == "uuid:"@ {
        strip_uuid_prefix(udn.skip(5))
    } else {
        udn
    }
}

fn strip_uuid(udn: &str) -> (r: String)
    ensures
        r@ == strip_uuid_prefix(udn@),
{
    let v = crate::text::chars_of(udn);
    let mut start: usize = 0;
    proof {
        reveal_strlit("uuid:");
        assert(v@.skip(0) == v@);
    }
    while v.len() - start >= 5 && crate::text::starts_with_at(v.as_slice(), start, "uuid:")
        invariant
            start <= v@.len(),
            strip_uuid_prefix(v@.skip(start as int)) == strip_uuid_prefix(udn@),
            "uuid:"@.len() == 5,
        decreases v@.len() - start,
    {
        proof {
            let t = v@.skip(start as int);
            assert(t.take(5) == "uuid:"@);
            assert(t.skip(5) == v@.skip(start + 5));
        }
        start = start + 5;
    }
    proof {
        let t = v@.skip(start as int);
        if t.len() >= 5 && t.take(5) == "uuid:"@ {
            assert(crate::text::has_prefix(t, "uuid:"@));
        }
    }
    crate::text::string_from_range(v.as_slice(), start, v.len())
}

/// The root device description.
pub fn device_description(friendly_name: &str, udn: &str, base_url: &str) -> (r: String)
    ensures
        r@ == spec_device_description(friendly_name@, udn@, base_url@),
{
    let mut out = String::from_str(
        "<?xml version=\"1.0\" encoding=\"utf-8\"?>\n<root xmlns=\"urn:schemas-upnp-org:device-1-0\" xmlns:dlna=\"urn:schemas-dlna-org:device-1-0\">\n  <specVersion><major>1</major><minor>0</minor></specVersion>\n  <URLBase>",
    );
    push_str(&mut out, base_url);
    push_str(
        &mut out,
        "/</URLBase>\n  <device>\n    <deviceType>urn:schemas-upnp-org:device:MediaServer:1</deviceType>\n    <friendlyName>",
    );
    push_escaped(&mut out, friendly_name);
    push_str(
        &mut out,
        "</friendlyName>\n    <manufacturer>JoeDLNA</manufacturer>\n    <modelDescription>A small, filesystem-first Rust DLNA media server</modelDescription>\n    <modelName>JoeDLNA</modelName>\n    <modelNumber>",
    );
    push_str(&mut out, MODEL_NUMBER);
    push_str(&mut out, "</modelNumber>\n    <serialNumber>");
    let serial = strip_uuid(udn);
    push_escaped(&mut out, serial.as_str());
    push_str(&mut out, "</serialNumber>\n    <UDN>");
    push_escaped(&mut out, udn);
    push_str(
        &mut out,
        "</UDN>\n    <dlna:X_DLNADOC>DMS-1.50</dlna:X_DLNADOC>\n    <dlna:X_DLNACAP></dlna:X_DLNACAP>\n    <serviceList>",
    );
    push_service_entry(&mut out, CONTENT_DIRECTORY_TYPE, "ContentDirectory", "/upnp/content-directory");
    push_service_entry(&mut out, CONNECTION_MANAGER_TYPE, "ConnectionManager", "/upnp/connection-manager");
    push_str(&mut out, "\n    </serviceList>\n    <presentationURL>/</presentationURL>\n  </device>\n</root>");
    out
}

/// The HTML status page: the server's name and what it indexed.
pub open spec fn spec_presentation_page(friendly_name: Seq<char>, file_count: nat, total_bytes: nat) -> Seq<char> {
    "<!doctype html><meta charset=utf-8><title>"@ + escape(friendly_name) + "</title><h1>"@
        + escape(friendly_name) + "</h1>"@ + element_text(
        "p"@,
        decimal(file_count) + " media files indexed"@,
    ) + element_text("p"@, decimal(total_bytes) + " bytes available"@)
}

/// The HTML status page.
pub fn presentation_page(friendly_name: &str, file_count: usize, total_bytes: u64) -> (r: String)
    ensures
        r@ == spec_presentation_page(friendly_name@, file_count as nat, total_bytes as nat),
{
    let mut out = String::new();
    push_str(&mut out, "<!doctype html><meta charset=utf-8><title>");
    push_escaped(&mut out, friendly_name);
    push_str(&mut out, "</title><h1>");
    push_escaped(&mut out, friendly_name);
    push_str(&mut out, "</h1>");
    let mut files = String::new();
    push_decimal(&mut files, file_count as u64);
    push_str(&mut files, " media files indexed");
    element(&mut out, "p", files.as_str());
    let mut bytes = String::new();
    push_decimal(&mut bytes, total_bytes);
    push_str(&mut bytes, " bytes available");
    element(&mut out, "p", bytes.as_str());
    out
}

} // verus!

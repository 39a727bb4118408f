//! UPnP control: SOAP request parsing, the ContentDirectory and
//! ConnectionManager actions, DIDL-Lite rendering, and SOAP responses.
use vstd::prelude::*;

use crate::bookmarks::BookmarkPositions;
use crate::catalog::{Catalog, Entry, EntryKind, EntryView, EntryKindView, ROOT_ID};
use crate::description::{
    source_protocol_info, spec_source_protocol_info, CONNECTION_MANAGER_TYPE,
    CONTENT_DIRECTORY_TYPE,
};
use crate::order::{compare_str, sorted_by, sort_by, str_lt, transitive, Order};
use crate::text::{
    chars_of, decimal, decimal_string, has_prefix, last_index, parse_u64, parse_unsigned, push_char,
    push_decimal, push_str, rfind_char, starts_with_at, str_eq, string_from_range, trim_bounds_in,
    trim_in, TrimSet,
};
use crate::tokens::{
    local_name, local_name_of, lossy_string, unescape, utf8_lossy, xml_token, xml_unescape,
    XmlToken, XmlTokenView, XmlTokens,
};
use crate::xml::{element, element_text, escape, push_escaped};

verus! {

/// A UPnP error: its code and the description the standard gives it.
#[derive(Debug, Clone, Copy)]
pub struct UpnpError {
    pub code: u16,
    pub description: &'static str,
}

/// The standard description of a UPnP error code.
pub open spec fn spec_upnp_error(code: u16) -> UpnpError {
    UpnpError {
        code,
        description: if code == 401 {
            "Invalid Action"
        } else if code == 402 {
            "Invalid Args"
        } else if code == 501 {
            "Action Failed"
        } else if code == 701 {
            "No Such Object"
        } else if code == 706 {
            "Invalid Connection Reference"
        } else if code == 709 {
            "Unsupported or Invalid Sort Criteria"
        } else if code == 710 {
            "No Such Container"
        } else if code == 720 {
            "Cannot Process Request"
        } else {
            "Action Failed"
        },
    }
}

/// The UPnP error with the standard description for `code`.
pub fn upnp_error(code: u16) -> (r: UpnpError)
    ensures
        r == spec_upnp_error(code),
{
    let description = if code == 401 {
        "Invalid Action"
    } else if code == 402 {
        "Invalid Args"
    } else if code == 501 {
        "Action Failed"
    } else if code == 701 {
        "No Such Object"
    } else if code == 706 {
        "Invalid Connection Reference"
    } else if code == 709 {
        "Unsupported or Invalid Sort Criteria"
    } else if code == 710 {
        "No Such Container"
    } else if code == 720 {
        "Cannot Process Request"
    } else {
        "Action Failed"
    };
    UpnpError { code, description }
}

// ---------------------------------------------------------------------------
// Arguments
// ---------------------------------------------------------------------------

/// One named argument of a SOAP request.
#[derive(Debug)]
pub struct Argument {
    pub name: String,
    pub value: String,
}

/// The arguments of a SOAP request, by name; a later value for a name
/// replaces an earlier one.
#[derive(Debug)]
pub struct SoapArguments {
    items: Vec<Argument>,
}

/// The value of the last argument named `name` in `s`.
pub open spec fn find_argument(s: Seq<(Seq<char>, Seq<char>)>, name: Seq<char>) -> Option<Seq<char>>
    decreases s.len(),
{
    if s.len() == 0 {
        None
    } else if s.last().0 == name {
        Some(s.last().1)
    } else {
        find_argument(s.drop_last(), name)
    }
}

impl SoapArguments {
    pub closed spec fn items_view(&self) -> Seq<(Seq<char>, Seq<char>)> {
        self.items@.map_values(|a: Argument| (a.name@, a.value@))
    }

    /// The value of argument `name`.
    pub open spec fn spec_get(&self, name: Seq<char>) -> Option<Seq<char>> {
        find_argument(self.items_view(), name)
    }

    /// No arguments.
    pub fn new() -> (r: Self)
        ensures
            forall|n: Seq<char>| #[trigger] r.spec_get(n) is None,
    {
        let r = SoapArguments { items: Vec::new() };
        assert(r.items_view().len() == 0);
        r
    }

    /// Sets argument `name` to `value`.
    pub fn insert(&mut self, name: String, value: String)
        ensures
            forall|n: Seq<char>| #[trigger]
                final(self).spec_get(n) == (if n == name@ {
                    Some(value@)
                } else {
                    old(self).spec_get(n)
                }),
    {
        let ghost s = self.items_view();
        let ghost nm = name@;
        let ghost vl = value@;
        self.items.push(Argument { name, value });
        assert(self.items_view() =~= s.push((nm, vl)));
        assert(self.items_view().drop_last() == s);
    }

    /// Gives argument `name` the empty value unless it has one.
    pub fn insert_default(&mut self, name: String)
        ensures
            forall|n: Seq<char>| #[trigger]
                final(self).spec_get(n) == (if n == name@ && old(self).spec_get(n) is None {
                    Some(Seq::<char>::empty())
                } else {
                    old(self).spec_get(n)
                }),
    {
        if self.get(name.as_str()).is_none() {
            self.insert(name, String::new());
        }
    }

    /// The value of argument `name`.
    pub fn get(&self, name: &str) -> (r: Option<&String>)
        ensures
            match r {
                Some(v) => self.spec_get(name@) == Some(v@),
                None => self.spec_get(name@) is None,
            },
    {
        let ghost s = self.items_view();
        let mut k: usize = self.items.len();
        assert(s.take(k as int) == s);
        while k > 0
            invariant
                s == self.items_view(),
                k <= s.len(),
                find_argument(s, name@) == find_argument(s.take(k as int), name@),
            decreases k,
        {
            proof {
                let t = s.take(k as int);
                assert(t.last() == s[k - 1]);
                assert(t.drop_last() == s.take(k - 1));
            }
            if str_eq(self.items[k - 1].name.as_str(), name) {
                return Some(&self.items[k - 1].value);
            }
            k = k - 1;
        }
        assert(s.take(s.len() as int) == s);
        None
    }
}

// ---------------------------------------------------------------------------
// Responses
// ---------------------------------------------------------------------------

/// The output arguments as (name, value) texts.
pub open spec fn outputs_view(values: Seq<(&'static str, String)>) -> Seq<(Seq<char>, Seq<char>)> {
    values.map_values(|p: (&'static str, String)| (p.0@, p.1@))
}

/// The elements of the output arguments, in order.
pub open spec fn output_elements(values: Seq<(Seq<char>, Seq<char>)>) -> Seq<char>
    decreases values.len(),
{
    if values.len() == 0 {
        Seq::empty()
    } else {
        output_elements(values.drop_last()) + element_text(values.last().0, values.last().1)
    }
}

/// The SOAP envelope of an action's response.
pub open spec fn spec_soap_response(
    service_type: Seq<char>,
    action: Seq<char>,
    values: Seq<(Seq<char>, Seq<char>)>,
) -> Seq<char> {
    "<?xml version=\"1.0\" encoding=\"utf-8\"?><s:Envelope xmlns:s=\"http://schemas.xmlsoap.org/soap/envelope/\" s:encodingStyle=\"http://schemas.xmlsoap.org/soap/encoding/\"><s:Body><u:"@
        + action + "Response xmlns:u=\""@ + service_type + "\">"@ + output_elements(values)
        + "</u:"@ + action + "Response></s:Body></s:Envelope>"@
}

fn soap_response(service_type: &str, action: &str, values: &Vec<(&'static str, String)>) -> (r:
    String)
    ensures
        r@ == spec_soap_response(service_type@, action@, outputs_view(values@)),
{
    let mut out = String::from_str(
        "<?xml version=\"1.0\" encoding=\"utf-8\"?><s:Envelope xmlns:s=\"http://schemas.xmlsoap.org/soap/envelope/\" s:encodingStyle=\"http://schemas.xmlsoap.org/soap/encoding/\"><s:Body><u:",
    );
    push_str(&mut out, action);
    push_str(&mut out, "Response xmlns:u=\"");
    push_str(&mut out, service_type);
    push_str(&mut out, "\">");
    let ghost head = out@;
    let ghost vs = outputs_view(values@);
    let mut i: usize = 0;
    while i < values.len()
        invariant
            vs == outputs_view(values@),
            i <= vs.len(),
            out@ == head + output_elements(vs.take(i as int)),
        decreases vs.len() - i,
    {
        element(&mut out, values[i].0, values[i].1.as_str());
        proof {
            let t = vs.take(i + 1);
            assert(t.drop_last() == vs.take(i as int));
            assert(t.last() == (values@[i as int].0@, values@[i as int].1@));
        }
        i = i + 1;
    }
    assert(vs.take(vs.len() as int) == vs);
    push_str(&mut out, "</u:");
    push_str(&mut out, action);
    push_str(&mut out, "Response></s:Body></s:Envelope>");
    out
}

/// The SOAP fault carrying a UPnP error.
pub open spec fn spec_soap_fault(error: UpnpError) -> Seq<char> {
    "<?xml version=\"1.0\" encoding=\"utf-8\"?><s:Envelope xmlns:s=\"http://schemas.xmlsoap.org/soap/envelope/\" s:encodingStyle=\"http://schemas.xmlsoap.org/soap/encoding/\"><s:Body><s:Fault><faultcode>s:Client</faultcode><faultstring>UPnPError</faultstring><detail><UPnPError xmlns=\"urn:schemas-upnp-org:control-1-0\"><errorCode>"@
        + decimal(error.code as nat) + "</errorCode><errorDescription>"@ + error.description@
        + "</errorDescription></UPnPError></detail></s:Fault></s:Body></s:Envelope>"@
}

/// The SOAP fault carrying a UPnP error.
pub fn soap_fault(error: UpnpError) -> (r: String)
    ensures
        r@ == spec_soap_fault(error),
{
    let mut out = String::from_str(
        "<?xml version=\"1.0\" encoding=\"utf-8\"?><s:Envelope xmlns:s=\"http://schemas.xmlsoap.org/soap/envelope/\" s:encodingStyle=\"http://schemas.xmlsoap.org/soap/encoding/\"><s:Body><s:Fault><faultcode>s:Client</faultcode><faultstring>UPnPError</faultstring><detail><UPnPError xmlns=\"urn:schemas-upnp-org:control-1-0\"><errorCode>",
    );
    push_decimal(&mut out, error.code as u64);
    push_str(&mut out, "</errorCode><errorDescription>");
    push_str(&mut out, error.description);
    push_str(&mut out, "</errorDescription></UPnPError></detail></s:Fault></s:Body></s:Envelope>");
    out
}

/// The `protocolInfo` of a resource: HTTP delivery of the MIME type, the
/// DLNA profile when one is known, byte-range seeking (`OP=01`), no
/// conversion (`CI=0`) and the DLNA 1.5 streaming flags.
pub open spec fn spec_protocol_info(mime_type: Seq<char>, dlna_profile: Option<Seq<char>>) -> Seq<char> {
    "http-get:*:"@ + mime_type + ":"@ + match dlna_profile {
        Some(p) => "DLNA.ORG_PN="@ + p + ";"@,
        None => Seq::empty(),
    } + "DLNA.ORG_OP=01;DLNA.ORG_CI=0;DLNA.ORG_FLAGS=01700000000000000000000000000000"@
}

/// The `protocolInfo` of a resource.
pub fn protocol_info(mime_type: &str, dlna_profile: Option<&str>) -> (r: String)
    ensures
        r@ == spec_protocol_info(
            mime_type@,
            match dlna_profile {
                Some(p) => Some(p@),
                None => None,
            },
        ),
{
    let mut out = String::from_str("http-get:*:");
    push_str(&mut out, mime_type);
    push_str(&mut out, ":");
    match dlna_profile {
        Some(p) => {
            push_str(&mut out, "DLNA.ORG_PN=");
            push_str(&mut out, p);
            push_str(&mut out, ";");
        },
        None => {},
    }
    push_str(&mut out, "DLNA.ORG_OP=01;DLNA.ORG_CI=0;DLNA.ORG_FLAGS=01700000000000000000000000000000");
    out
}

// ---------------------------------------------------------------------------
// ConnectionManager
// ---------------------------------------------------------------------------

/// The ConnectionManager's answer to an action: its output arguments, or the
/// error for an unknown action (401) or a connection other than `0` (706).
pub open spec fn spec_connection_manager(
    action: Seq<char>,
    arguments: &SoapArguments,
) -> Result<Seq<(Seq<char>, Seq<char>)>, UpnpError> {
    if action == "GetProtocolInfo"@ {
        Ok(seq![("Source"@, spec_source_protocol_info()), ("Sink"@, Seq::empty())])
    } else if action == "GetCurrentConnectionIDs"@ {
        Ok(seq![("ConnectionIDs"@, "0"@)])
    } else if action == "GetCurrentConnectionInfo"@ {
        if arguments.spec_get("ConnectionID"@) != Some("0"@) {
            Err(spec_upnp_error(706))
        } else {
            Ok(
                seq![
                    ("RcsID"@, "-1"@),
                    ("AVTransportID"@, "-1"@),
                    ("ProtocolInfo"@, Seq::empty()),
                    ("PeerConnectionManager"@, Seq::empty()),
                    ("PeerConnectionID"@, "-1"@),
                    ("Direction"@, "Output"@),
                    ("Status"@, "OK"@),
                ],
            )
        }
    } else {
        Err(spec_upnp_error(401))
    }
}

/// The response document of a ConnectionManager action.
pub fn connection_manager_response(action: &str, arguments: &SoapArguments) -> (r: Result<
    String,
    UpnpError,
>)
    ensures
        match spec_connection_manager(action@, arguments) {
            Ok(values) => r matches Ok(s) && s@ == spec_soap_response(
                CONNECTION_MANAGER_TYPE@,
                action@,
                values,
            ),
            Err(e) => r matches Err(x) && x == e,
        },
{
    let mut output: Vec<(&'static str, String)> = Vec::new();
    if str_eq(action, "GetProtocolInfo") {
        output.push(("Source", source_protocol_info()));
        output.push(("Sink", String::new()));
    } else if str_eq(action, "GetCurrentConnectionIDs") {
        output.push(("ConnectionIDs", String::from_str("0")));
    } else if str_eq(action, "GetCurrentConnectionInfo") {
        let zero = match arguments.get("ConnectionID") {
            Some(v) => str_eq(v.as_str(), "0"),
            None => false,
        };
        if !zero {
            return Err(upnp_error(706));
        }
        output.push(("RcsID", String::from_str("-1")));
        output.push(("AVTransportID", String::from_str("-1")));
        output.push(("ProtocolInfo", String::new()));
        output.push(("PeerConnectionManager", String::new()));
        output.push(("PeerConnectionID", String::from_str("-1")));
        output.push(("Direction", String::from_str("Output")));
        output.push(("Status", String::from_str("OK")));
    } else {
        return Err(upnp_error(401));
    }
    proof {
        match spec_connection_manager(action@, arguments) {
            Ok(values) => {
                assert(outputs_view(output@) =~= values);
            },
            Err(_) => {},
        }
    }
    Ok(soap_response(CONNECTION_MANAGER_TYPE, action, &output))
}

// ---------------------------------------------------------------------------
// Filters
// ---------------------------------------------------------------------------

/// The comma-separated parts of a filter (`str::split(',')`).
pub open spec fn split_commas(s: Seq<char>) -> Seq<Seq<char>>
    decreases s.len(),
{
    if s.len() == 0 {
        seq![Seq::empty()]
    } else {
        let rest = split_commas(s.drop_last());
        if s.last() == ',' {
            rest.push(Seq::empty())
        } else {
            rest.update(rest.len() - 1, rest.last().push(s.last()))
        }
    }
}

proof fn lemma_split_commas_nonempty(s: Seq<char>)
    ensures
        split_commas(s).len() >= 1,
    decreases s.len(),
{
    if s.len() > 0 {
        lemma_split_commas_nonempty(s.drop_last());
    }
}

/// Whether one filter property selects `requested`: the same name, or for
/// `res` any `res@...` attribute.
pub open spec fn property_selects(property: Seq<char>, requested: Seq<char>) -> bool {
    property == requested || (requested == "res"@ && has_prefix(property, "res@"@))
}

/// Whether some part in `parts` selects `requested`.
pub open spec fn any_selects(parts: Seq<Seq<char>>, requested: Seq<char>) -> bool
    decreases parts.len(),
{
    parts.len() > 0 && (any_selects(parts.drop_last(), requested) || property_selects(
        parts.last(),
        requested,
    ))
}

/// Whether a Browse filter asks for `requested`: `*` asks for everything,
/// otherwise one of its comma-separated properties must select it.
pub open spec fn spec_filter_has(filter: Seq<char>, requested: Seq<char>) -> bool {
    filter == "*"@ || any_selects(split_commas(filter), requested)
}

fn property_selects_exec(property: &Vec<char>, requested: &str, is_res: bool) -> (r: bool)
    requires
        is_res == (requested@ == "res"@),
    ensures
        r == property_selects(property@, requested@),
{
    let same = crate::text::chars_eq_str(property.as_slice(), requested);
    let res_attr = is_res && starts_with_at(property.as_slice(), 0, "res@");
    assert(property@.skip(0) == property@);
    same || res_attr
}

fn filter_has(filter: &str, requested: &str) -> (r: bool)
    ensures
        r == spec_filter_has(filter@, requested@),
{
    if str_eq(filter, "*") {
        return true;
    }
    let f = chars_of(filter);
    let is_res = str_eq(requested, "res");
    let mut current: Vec<char> = Vec::new();
    let ghost mut done: Seq<Seq<char>> = Seq::empty();
    let mut found = false;
    let mut i: usize = 0;
    while i < f.len()
        invariant
            is_res == (requested@ == "res"@),
            i <= f@.len(),
            split_commas(f@.take(i as int)) == done.push(current@),
            found == any_selects(done, requested@),
        decreases f@.len() - i,
    {
        let ghost before = f@.take(i as int);
        proof {
            let t = f@.take(i + 1);
            assert(t.drop_last() == before);
            assert(t.last() == f@[i as int]);
        }
        if f[i] == ',' {
            let sel = property_selects_exec(&current, requested, is_res);
            proof {
                assert(done.push(current@).drop_last() == done);
                assert(any_selects(done.push(current@), requested@) == (found || sel));
                done = done.push(current@);
            }
            found = found || sel;
            current = Vec::new();
        } else {
            let ghost old_current = current@;
            current.push(f[i]);
            proof {
                let rest = done.push(old_current);
                assert(rest.last() == old_current);
                assert(rest.update(rest.len() - 1, old_current.push(f@[i as int])) =~= done.push(
                    current@,
                ));
            }
        }
        i = i + 1;
    }
    assert(f@.take(f@.len() as int) == f@);
    let sel = property_selects_exec(&current, requested, is_res);
    proof {
        assert(done.push(current@).drop_last() == done);
    }
    found || sel
}

// ---------------------------------------------------------------------------
// DIDL-Lite
// ---------------------------------------------------------------------------

/// The opening of a DIDL-Lite document.
pub open spec fn didl_header() -> Seq<char> {
    "<DIDL-Lite xmlns=\"urn:schemas-upnp-org:metadata-1-0/DIDL-Lite/\" xmlns:dc=\"http://purl.org/dc/elements/1.1/\" xmlns:upnp=\"urn:schemas-upnp-org:metadata-1-0/upnp/\" xmlns:sec=\"http://www.sec.co.kr/dlna\">"@
}

/// The number of children of `id` in `catalog` (0 when it has no list).
pub open spec fn spec_child_count(catalog: &Catalog, id: Seq<char>) -> nat {
    match catalog.spec_child_ids(id) {
        Some(l) => l.len(),
        None => 0,
    }
}

/// ` childCount="n"` when the filter asks for it.
#[verifier::opaque]
pub open spec fn child_count_attribute(catalog: &Catalog, id: Seq<char>, filter: Seq<char>) -> Seq<char> {
    if spec_filter_has(filter, "@childCount"@) {
        " childCount=\""@ + decimal(spec_child_count(catalog, id)) + "\""@
    } else {
        Seq::empty()
    }
}

/// The DIDL-Lite object of the root container.
pub open spec fn spec_root_text(catalog: &Catalog, filter: Seq<char>) -> Seq<char> {
    "<container id=\"0\" parentID=\"-1\" restricted=\"1\""@ + child_count_attribute(
        catalog,
        ROOT_ID@,
        filter,
    ) + "><dc:title>Root</dc:title><upnp:class>object.container.storageFolder</upnp:class></container>"@
}

pub open spec fn is_ascii_alphanumeric(c: char) -> bool {
    ('0' <= c && c <= '9') || ('a' <= c && c <= 'z') || ('A' <= c && c <= 'Z')
}

/// The extension used in a resource URL: the path's extension when it is
/// ASCII alphanumeric, otherwise `bin`.
pub open spec fn url_extension(path: Seq<u8>) -> Seq<char> {
    match crate::catalog::media_extension(path) {
        Some(x) => if forall|i: int| 0 <= i < x.len() ==> is_ascii_alphanumeric(#[trigger] x[i]) {
            x
        } else {
            "bin"@
        },
        None => "bin"@,
    }
}

/// The URL a media item is served at.
pub open spec fn resource_url(base_url: Seq<char>, e: EntryView) -> Seq<char> {
    base_url + "/media/"@ + e.id + "/file."@ + url_extension(e.path)
}

/// The Samsung resume position element, when the filter asks for it and a
/// position is saved.
#[verifier::opaque]
pub open spec fn bookmark_text(e: EntryView, bookmarks: &BookmarkPositions, filter: Seq<char>) -> Seq<char> {
    if spec_filter_has(filter, "sec:dcmInfo"@) && bookmarks.spec_get(e.id) is Some {
        "<sec:dcmInfo>CREATIONDATE=0,FOLDER="@ + escape(e.title) + ",BM="@ + decimal(
            bookmarks.spec_get(e.id)->0 as nat,
        ) + "</sec:dcmInfo>"@
    } else {
        Seq::empty()
    }
}

/// The `res` element, when the filter asks for it; its `size` attribute when
/// the filter asks for `res` or `res@size`.
#[verifier::opaque]
pub open spec fn resource_text(
    e: EntryView,
    mime_type: Seq<char>,
    dlna_profile: Option<Seq<char>>,
    base_url: Seq<char>,
    filter: Seq<char>,
) -> Seq<char> {
    if spec_filter_has(filter, "res"@) {
        "<res protocolInfo=\""@ + escape(spec_protocol_info(mime_type, dlna_profile)) + "\""@ + (
        if spec_filter_has(filter, "res"@) || spec_filter_has(filter, "res@size"@) {
            " size=\""@ + decimal(e.size as nat) + "\""@
        } else {
            Seq::empty()
        }) + ">"@ + escape(resource_url(base_url, e)) + "</res>"@
    } else {
        Seq::empty()
    }
}

/// The DIDL-Lite object of a container entry.
pub open spec fn container_text(e: EntryView, catalog: &Catalog, filter: Seq<char>) -> Seq<char> {
    "<container id=\""@ + escape(e.id) + "\" parentID=\""@ + escape(e.parent_id)
        + "\" restricted=\"1\""@ + child_count_attribute(catalog, e.id, filter) + "><dc:title>"@
        + escape(e.title)
        + "</dc:title><upnp:class>object.container.storageFolder</upnp:class></container>"@
}

/// The DIDL-Lite object of a media item.
pub open spec fn item_text(
    e: EntryView,
    m: crate::catalog::MediaKindView,
    bookmarks: &BookmarkPositions,
    base_url: Seq<char>,
    filter: Seq<char>,
) -> Seq<char> {
    "<item id=\""@ + escape(e.id) + "\" parentID=\""@ + escape(e.parent_id)
        + "\" restricted=\"1\"><dc:title>"@ + escape(e.title) + "</dc:title><upnp:class>"@
        + m.upnp_class + "</upnp:class>"@ + bookmark_text(e, bookmarks, filter) + resource_text(
        e,
        m.mime_type,
        m.dlna_profile,
        base_url,
        filter,
    ) + "</item>"@
}

/// The DIDL-Lite object of a catalog entry.
pub open spec fn spec_entry_text(
    e: EntryView,
    catalog: &Catalog,
    bookmarks: &BookmarkPositions,
    base_url: Seq<char>,
    filter: Seq<char>,
) -> Seq<char> {
    match e.kind {
        EntryKindView::Container => container_text(e, catalog, filter),
        EntryKindView::Media(m) => item_text(e, m, bookmarks, base_url, filter),
    }
}

/// The DIDL-Lite objects of several entries, in order.
pub open spec fn spec_entries_text(
    s: Seq<EntryView>,
    catalog: &Catalog,
    bookmarks: &BookmarkPositions,
    base_url: Seq<char>,
    filter: Seq<char>,
) -> Seq<char>
    decreases s.len(),
{
    if s.len() == 0 {
        Seq::empty()
    } else {
        spec_entries_text(s.drop_last(), catalog, bookmarks, base_url, filter) + spec_entry_text(
            s.last(),
            catalog,
            bookmarks,
            base_url,
            filter,
        )
    }
}

fn append_child_count(output: &mut String, catalog: &Catalog, id: &str, filter: &str)
    requires
        catalog.wf(),
    ensures
        final(output)@ == old(output)@ + child_count_attribute(catalog, id@, filter@),
{
    reveal(child_count_attribute);
    if filter_has(filter, "@childCount") {
        push_str(output, " childCount=\"");
        push_decimal(output, catalog.child_count(id) as u64);
        push_str(output, "\"");
    }
}

fn append_root(output: &mut String, catalog: &Catalog, filter: &str)
    requires
        catalog.wf(),
    ensures
        final(output)@ == old(output)@ + spec_root_text(catalog, filter@),
{
    push_str(output, "<container id=\"0\" parentID=\"-1\" restricted=\"1\"");
    append_child_count(output, catalog, ROOT_ID, filter);
    push_str(
        output,
        "><dc:title>Root</dc:title><upnp:class>object.container.storageFolder</upnp:class></container>",
    );
}

fn url_extension_of(path: &Vec<u8>) -> (r: String)
    ensures
        r@ == url_extension(path@),
{
    let v = crate::catalog::extension_chars(path.as_slice());
    match v {
        Some(x) => {
            let mut ok = true;
            let mut i: usize = 0;
            while i < x.len()
                invariant
                    i <= x@.len(),
                    ok == (forall|k: int| 0 <= k < i ==> is_ascii_alphanumeric(#[trigger] x@[k])),
                decreases x@.len() - i,
            {
                let c = x[i];
                let alnum = ('0' <= c && c <= '9') || ('a' <= c && c <= 'z') || ('A' <= c && c
                    <= 'Z');
                proof {
                    if !alnum {
                        assert(!is_ascii_alphanumeric(x@[i as int]));
                    }
                }
                ok = ok && alnum;
                i = i + 1;
            }
            if ok {
                crate::text::string_from_chars(x.as_slice())
            } else {
                String::from_str("bin")
            }
        },
        None => String::from_str("bin"),
    }
}

fn append_bookmark(
    output: &mut String,
    entry: &Entry,
    bookmarks: &BookmarkPositions,
    filter: &str,
)
    requires
        bookmarks.wf(),
    ensures
        final(output)@ == old(output)@ + bookmark_text(entry@, bookmarks, filter@),
{
    reveal(bookmark_text);
    if filter_has(filter, "sec:dcmInfo") {
        match bookmarks.get(entry.id.as_str()) {
            Some(position) => {
                push_str(output, "<sec:dcmInfo>CREATIONDATE=0,FOLDER=");
                push_escaped(output, entry.title.as_str());
                push_str(output, ",BM=");
                push_decimal(output, position);
                push_str(output, "</sec:dcmInfo>");
            },
            None => {},
        }
    }
}

fn resource_url_of(base_url: &str, entry: &Entry) -> (r: String)
    ensures
        r@ == resource_url(base_url@, entry@),
{
    let mut url = String::new();
    push_str(&mut url, base_url);
    push_str(&mut url, "/media/");
    push_str(&mut url, entry.id.as_str());
    push_str(&mut url, "/file.");
    let ext = url_extension_of(&entry.path);
    push_str(&mut url, ext.as_str());
    url
}

fn append_resource(
    output: &mut String,
    entry: &Entry,
    mime_type: &str,
    dlna_profile: Option<&str>,
    base_url: &str,
    filter: &str,
)
    ensures
        final(output)@ == old(output)@ + resource_text(
            entry@,
            mime_type@,
            match dlna_profile {
                Some(p) => Some(p@),
                None => None,
            },
            base_url@,
            filter@,
        ),
{
    reveal(resource_text);
    if filter_has(filter, "res") {
        let include_size = filter_has(filter, "res") || filter_has(filter, "res@size");
        let info = protocol_info(mime_type, dlna_profile);
        let url = resource_url_of(base_url, entry);
        push_str(output, "<res protocolInfo=\"");
        push_escaped(output, info.as_str());
        push_str(output, "\"");
        if include_size {
            push_str(output, " size=\"");
            push_decimal(output, entry.size);
            push_str(output, "\"");
        }
        push_str(output, ">");
        push_escaped(output, url.as_str());
        push_str(output, "</res>");
    }
}

fn append_container(output: &mut String, entry: &Entry, catalog: &Catalog, filter: &str)
    requires
        catalog.wf(),
    ensures
        final(output)@ == old(output)@ + container_text(entry@, catalog, filter@),
{
    let ghost start = output@;
    push_str(output, "<container id=\"");
    push_escaped(output, entry.id.as_str());
    push_str(output, "\" parentID=\"");
    push_escaped(output, entry.parent_id.as_str());
    push_str(output, "\" restricted=\"1\"");
    append_child_count(output, catalog, entry.id.as_str(), filter);
    push_str(output, "><dc:title>");
    push_escaped(output, entry.title.as_str());
    push_str(
        output,
        "</dc:title><upnp:class>object.container.storageFolder</upnp:class></container>",
    );
    assert(output@ =~= start + container_text(entry@, catalog, filter@));
}

fn append_item(
    output: &mut String,
    entry: &Entry,
    media: &crate::catalog::MediaKind,
    bookmarks: &BookmarkPositions,
    base_url: &str,
    filter: &str,
)
    requires
        bookmarks.wf(),
    ensures
        final(output)@ == old(output)@ + item_text(entry@, media@, bookmarks, base_url@, filter@),
{
    let ghost start = output@;
    push_str(output, "<item id=\"");
    push_escaped(output, entry.id.as_str());
    push_str(output, "\" parentID=\"");
    push_escaped(output, entry.parent_id.as_str());
    push_str(output, "\" restricted=\"1\"><dc:title>");
    push_escaped(output, entry.title.as_str());
    push_str(output, "</dc:title><upnp:class>");
    push_str(output, media.upnp_class);
    push_str(output, "</upnp:class>");
    append_bookmark(output, entry, bookmarks, filter);
    append_resource(output, entry, media.mime_type, media.dlna_profile, base_url, filter);
    push_str(output, "</item>");
    assert(output@ =~= start + item_text(entry@, media@, bookmarks, base_url@, filter@));
}

fn append_entry(
    output: &mut String,
    entry: &Entry,
    catalog: &Catalog,
    bookmarks: &BookmarkPositions,
    base_url: &str,
    filter: &str,
)
    requires
        catalog.wf(),
        bookmarks.wf(),
    ensures
        final(output)@ == old(output)@ + spec_entry_text(
            entry@,
            catalog,
            bookmarks,
            base_url@,
            filter@,
        ),
{
    match &entry.kind {
        EntryKind::Container => append_container(output, entry, catalog, filter),
        EntryKind::Media(media) => append_item(output, entry, media, bookmarks, base_url, filter),
    }
}

// ---------------------------------------------------------------------------
// Browse
// ---------------------------------------------------------------------------

/// Title order: by title, and by ID among equal titles (`+dc:title`).
pub open spec fn title_lt(a: EntryView, b: EntryView) -> bool {
    str_lt(a.title, b.title) || (a.title == b.title && str_lt(a.id, b.id))
}

/// Title order as a relation.
pub open spec fn title_less() -> spec_fn(EntryView, EntryView) -> bool {
    |a: EntryView, b: EntryView| title_lt(a, b)
}

/// `s` rearranged into title order.
pub open spec fn title_order(s: Seq<EntryView>) -> Seq<EntryView> {
    choose|t: Seq<EntryView>| t.to_multiset() == s.to_multiset() && sorted_by(t, title_less())
}

/// The sort criteria a Browse accepts: none, `+dc:title` or `-dc:title`.
pub open spec fn valid_sort(criteria: Seq<char>) -> bool {
    criteria == Seq::<char>::empty() || criteria == "+dc:title"@ || criteria == "-dc:title"@
}

/// The children in the order the sort criteria ask for: as listed, by
/// title, or by title descending.
pub open spec fn arranged(children: Seq<EntryView>, criteria: Seq<char>) -> Seq<EntryView> {
    if criteria == "+dc:title"@ {
        title_order(children)
    } else if criteria == "-dc:title"@ {
        title_order(children).reverse()
    } else {
        children
    }
}

/// The page of `s` that starts at `start` (clamped to the end) and holds
/// `count` entries, or all the rest when `count` is 0.
pub open spec fn page(s: Seq<EntryView>, start: nat, count: nat) -> Seq<EntryView> {
    let from: int = if start <= s.len() {
        start as int
    } else {
        s.len() as int
    };
    let to: int = if count == 0 || from + count > s.len() {
        s.len() as int
    } else {
        from + count
    };
    s.subrange(from, to)
}

/// A page holds no more entries than the list, nor more than were asked
/// for, and lies within the list.
pub proof fn lemma_page_bounds(s: Seq<EntryView>, start: nat, count: nat)
    ensures
        page(s, start, count).len() <= s.len(),
        count > 0 ==> page(s, start, count).len() <= count,
        start >= s.len() ==> page(s, start, count).len() == 0,
        start < s.len() && count > 0 && count <= s.len() - start ==> page(s, start, count).len()
            == count,
        start < s.len() && (count == 0 || count > s.len() - start) ==> page(s, start, count).len()
            == s.len() - start,
        forall|k: int|
            0 <= k < page(s, start, count).len() ==> #[trigger] page(s, start, count)[k] == s[start
                + k],
{
}

/// A numeric argument: present and a decimal `u32`.
pub open spec fn number_argument(arguments: &SoapArguments, name: Seq<char>) -> Option<nat> {
    match arguments.spec_get(name) {
        Some(v) => parse_unsigned(v, u32::MAX as nat),
        None => None,
    }
}

/// The output arguments of a Browse.
pub open spec fn browse_outputs(objects: Seq<char>, returned: nat, total: nat, update_id: u32) -> Seq<
    (Seq<char>, Seq<char>),
> {
    seq![
        ("Result"@, didl_header() + objects + "</DIDL-Lite>"@),
        ("NumberReturned"@, decimal(returned)),
        ("TotalMatches"@, decimal(total)),
        ("UpdateID"@, decimal(update_id as nat)),
    ]
}

/// Whether `id` names the root or a container of `catalog`.
pub open spec fn is_browsable(catalog: &Catalog, id: Seq<char>) -> bool {
    id == ROOT_ID@ || (catalog.spec_entry(id) matches Some(e) && e.kind is Container)
}

/// The outcome of a Browse: missing or malformed arguments give 402, sort
/// criteria other than title order give 709, an unknown object (or, for
/// its children, one that is not a container) gives 701, and an unknown
/// browse flag gives 402.
pub open spec fn spec_browse(
    arguments: &SoapArguments,
    catalog: &Catalog,
    bookmarks: &BookmarkPositions,
    base_url: Seq<char>,
) -> Result<Seq<(Seq<char>, Seq<char>)>, UpnpError> {
    let object_id = arguments.spec_get("ObjectID"@);
    let flag = arguments.spec_get("BrowseFlag"@);
    let start = number_argument(arguments, "StartingIndex"@);
    let count = number_argument(arguments, "RequestedCount"@);
    let criteria = arguments.spec_get("SortCriteria"@);
    let filter = arguments.spec_get("Filter"@);
    if object_id is None || flag is None || start is None || count is None || criteria is None
        || filter is None {
        Err(spec_upnp_error(402))
    } else if !valid_sort(criteria->0) {
        Err(spec_upnp_error(709))
    } else {
        let id = object_id->0;
        let f = filter->0;
        let update_id = catalog.spec_object_update_id(id);
        if flag->0 == "BrowseMetadata"@ {
            if id == ROOT_ID@ {
                Ok(browse_outputs(spec_root_text(catalog, f), 1, 1, update_id))
            } else {
                match catalog.spec_entry(id) {
                    Some(e) => Ok(
                        browse_outputs(
                            spec_entry_text(e, catalog, bookmarks, base_url, f),
                            1,
                            1,
                            update_id,
                        ),
                    ),
                    None => Err(spec_upnp_error(701)),
                }
            }
        } else if flag->0 == "BrowseDirectChildren"@ {
            if !is_browsable(catalog, id) {
                Err(spec_upnp_error(701))
            } else {
                match catalog.spec_children(id) {
                    Some(children) => {
                        let shown = page(arranged(children, criteria->0), start->0, count->0);
                        Ok(
                            browse_outputs(
                                spec_entries_text(shown, catalog, bookmarks, base_url, f),
                                shown.len(),
                                children.len(),
                                update_id,
                            ),
                        )
                    },
                    None => Err(spec_upnp_error(701)),
                }
            }
        } else {
            Err(spec_upnp_error(402))
        }
    }
}

/// Title order leaves no choice among entries with distinct IDs: every
/// arrangement of them sorted by (title, ID) is `title_order`, so a Browse
/// with `+dc:title` lists exactly that arrangement (and `-dc:title` its
/// reverse) before cutting the page.
pub proof fn lemma_title_order_unique(children: Seq<EntryView>, t: Seq<EntryView>)
    requires
        forall|i: int, j: int|
            0 <= i < j < children.len() ==> (#[trigger] children[i]).id != (#[trigger] children[j]).id,
        t.to_multiset() == children.to_multiset(),
        sorted_by(t, title_less()),
    ensures
        t == title_order(children),
{
    broadcast use vstd::seq_lib::group_to_multiset_ensures;

    lemma_title_order(children);
    let w = title_order(children);
    assert forall|a: EntryView, b: EntryView|
        t.contains(a) && t.contains(b) && a != b implies #[trigger] title_less()(a, b)
        || #[trigger] title_less()(b, a) by {
        vstd::seq_lib::to_multiset_contains(t, a);
        vstd::seq_lib::to_multiset_contains(t, b);
        assert(children.to_multiset().count(a) > 0);
        assert(children.to_multiset().count(b) > 0);
        let i = choose|i: int| 0 <= i < children.len() && children[i] == a;
        let j = choose|j: int| 0 <= j < children.len() && children[j] == b;
        assert(i != j);
        if i < j {
            assert(children[i].id != children[j].id);
        } else {
            assert(children[j].id != children[i].id);
        }
        lemma_title_lt_total(a, b);
    }
    crate::order::lemma_sorted_permutation_unique(t, w, title_less());
}

/// Sorting keeps the number of children: each valid sort criterion only
/// rearranges them.
pub proof fn lemma_arranged_len(children: Seq<EntryView>, criteria: Seq<char>)
    requires
        valid_sort(criteria),
    ensures
        arranged(children, criteria).len() == children.len(),
{
    lemma_title_order(children);
    vstd::seq_lib::to_multiset_len(title_order(children));
    vstd::seq_lib::to_multiset_len(children);
}

/// Sorting by title changes only the order of what a Browse returns: with
/// the other arguments the same, `+dc:title`, `-dc:title` and no sort
/// criteria give the same error, or else the same NumberReturned,
/// TotalMatches and UpdateID.
pub proof fn lemma_sort_keeps_counts(
    a: &SoapArguments,
    b: &SoapArguments,
    catalog: &Catalog,
    bookmarks: &BookmarkPositions,
    base_url: Seq<char>,
)
    requires
        forall|n: Seq<char>| n != "SortCriteria"@ ==> #[trigger] a.spec_get(n) == b.spec_get(n),
        a.spec_get("SortCriteria"@) matches Some(c) && valid_sort(c),
        b.spec_get("SortCriteria"@) matches Some(c) && valid_sort(c),
    ensures
        spec_browse(a, catalog, bookmarks, base_url) is Ok == spec_browse(
            b,
            catalog,
            bookmarks,
            base_url,
        ) is Ok,
        spec_browse(a, catalog, bookmarks, base_url) matches Err(e) ==> spec_browse(
            b,
            catalog,
            bookmarks,
            base_url,
        ) == Err::<Seq<(Seq<char>, Seq<char>)>, UpnpError>(e),
        spec_browse(a, catalog, bookmarks, base_url) matches Ok(x) ==> (spec_browse(
            b,
            catalog,
            bookmarks,
            base_url,
        ) matches Ok(y) && x.len() == 4 && y.len() == 4 && x[1] == y[1] && x[2] == y[2] && x[3]
            == y[3]),
{
    reveal_strlit("SortCriteria");
    reveal_strlit("ObjectID");
    reveal_strlit("BrowseFlag");
    reveal_strlit("StartingIndex");
    reveal_strlit("RequestedCount");
    reveal_strlit("Filter");
    assert("ObjectID"@[0] != "SortCriteria"@[0]);
    assert("BrowseFlag"@[0] != "SortCriteria"@[0]);
    assert("StartingIndex"@[1] != "SortCriteria"@[1]);
    assert("RequestedCount"@[0] != "SortCriteria"@[0]);
    assert("Filter"@[0] != "SortCriteria"@[0]);
    assert(a.spec_get("ObjectID"@) == b.spec_get("ObjectID"@));
    assert(a.spec_get("BrowseFlag"@) == b.spec_get("BrowseFlag"@));
    assert(a.spec_get("StartingIndex"@) == b.spec_get("StartingIndex"@));
    assert(a.spec_get("RequestedCount"@) == b.spec_get("RequestedCount"@));
    assert(a.spec_get("Filter"@) == b.spec_get("Filter"@));
    let ca = a.spec_get("SortCriteria"@)->0;
    let cb = b.spec_get("SortCriteria"@)->0;
    let id = a.spec_get("ObjectID"@);
    if id is Some {
        match catalog.spec_children(id->0) {
            Some(children) => {
                lemma_arranged_len(children, ca);
                lemma_arranged_len(children, cb);
            },
            None => {},
        }
    }
}

/// A successful Browse of an object's children answers with exactly the
/// requested window of them: from StartingIndex (or the end, when that is
/// past it), `min(RequestedCount, TotalMatches - StartingIndex)` entries, or
/// all the rest when RequestedCount is 0; NumberReturned is that number,
/// TotalMatches counts every child, and the Result lists those entries in
/// the requested order.
pub proof fn lemma_browse_children_window(
    arguments: &SoapArguments,
    catalog: &Catalog,
    bookmarks: &BookmarkPositions,
    base_url: Seq<char>,
)
    ensures
        arguments.spec_get("BrowseFlag"@) == Some("BrowseDirectChildren"@) ==> (spec_browse(
            arguments,
            catalog,
            bookmarks,
            base_url,
        ) matches Ok(out) ==> {
            let children = catalog.spec_children(arguments.spec_get("ObjectID"@)->0)->0;
            let start = number_argument(arguments, "StartingIndex"@)->0;
            let count = number_argument(arguments, "RequestedCount"@)->0;
            let total = children.len();
            let from: int = if start <= total {
                start as int
            } else {
                total as int
            };
            let n: int = if count == 0 || count > total - from {
                total - from
            } else {
                count as int
            };
            &&& out.len() == 4
            &&& out[1] == ("NumberReturned"@, decimal(n as nat))
            &&& out[2] == ("TotalMatches"@, decimal(total))
            &&& out[0] == ("Result"@, didl_header() + spec_entries_text(
                arranged(children, arguments.spec_get("SortCriteria"@)->0).subrange(from, from + n),
                catalog,
                bookmarks,
                base_url,
                arguments.spec_get("Filter"@)->0,
            ) + "</DIDL-Lite>"@)
        }),
{
    reveal_strlit("BrowseDirectChildren");
    reveal_strlit("BrowseMetadata");
    assert("BrowseDirectChildren"@[6] != "BrowseMetadata"@[6]);
    if spec_browse(arguments, catalog, bookmarks, base_url) is Ok && arguments.spec_get("BrowseFlag"@)
        == Some("BrowseDirectChildren"@) {
        let children = catalog.spec_children(arguments.spec_get("ObjectID"@)->0)->0;
        let c = arguments.spec_get("SortCriteria"@)->0;
        lemma_arranged_len(children, c);
    }
}

fn required<'a>(arguments: &'a SoapArguments, name: &str) -> (r: Result<&'a String, UpnpError>)
    ensures
        match r {
            Ok(v) => arguments.spec_get(name@) == Some(v@),
            Err(e) => arguments.spec_get(name@) is None && e == spec_upnp_error(402),
        },
{
    match arguments.get(name) {
        Some(v) => Ok(v),
        None => Err(upnp_error(402)),
    }
}

fn parse_u32(arguments: &SoapArguments, name: &str) -> (r: Result<u32, UpnpError>)
    ensures
        match number_argument(arguments, name@) {
            Some(n) => r matches Ok(x) && x == n,
            None => r matches Err(e) && e == spec_upnp_error(402),
        },
{
    let value = match required(arguments, name) {
        Ok(v) => v,
        Err(e) => {
            return Err(e);
        },
    };
    match parse_u64(value.as_str()) {
        Some(n) => {
            if n <= 0xffff_ffff {
                Ok(n as u32)
            } else {
                Err(upnp_error(402))
            }
        },
        None => Err(upnp_error(402)),
    }
}

/// Whether `a` comes before `b` in title order.
fn title_before(a: &Entry, b: &Entry) -> (r: bool)
    ensures
        r == title_lt(a@, b@),
{
    match compare_str(a.title.as_str(), b.title.as_str()) {
        Order::Before => true,
        Order::After => false,
        Order::Same => match compare_str(a.id.as_str(), b.id.as_str()) {
            Order::Before => true,
            _ => false,
        },
    }
}

proof fn lemma_title_lt_strict(a: EntryView, b: EntryView, c: EntryView)
    ensures
        title_lt(a, b) ==> !title_lt(b, a),
        title_lt(a, b) && title_lt(b, c) ==> title_lt(a, c),
{
    let ta = vstd::utf8::encode_utf8(a.title);
    let tb = vstd::utf8::encode_utf8(b.title);
    let tc = vstd::utf8::encode_utf8(c.title);
    let ia = vstd::utf8::encode_utf8(a.id);
    let ib = vstd::utf8::encode_utf8(b.id);
    let ic = vstd::utf8::encode_utf8(c.id);
    crate::order::lemma_bytes_lt_irreflexive(ta);
    crate::order::lemma_bytes_lt_irreflexive(tb);
    crate::order::lemma_bytes_lt_irreflexive(ia);
    if crate::order::bytes_lt(ta, tb) {
        crate::order::lemma_bytes_lt_asymmetric(ta, tb);
    }
    if crate::order::bytes_lt(ia, ib) {
        crate::order::lemma_bytes_lt_asymmetric(ia, ib);
    }
    if title_lt(a, b) && title_lt(b, c) {
        if crate::order::bytes_lt(ta, tb) && crate::order::bytes_lt(tb, tc) {
            crate::order::lemma_bytes_lt_transitive(ta, tb, tc);
        }
        if a.title == b.title && b.title == c.title {
            crate::order::lemma_bytes_lt_transitive(ia, ib, ic);
        }
    }
}

/// Two entries with different IDs are ordered one way or the other.
proof fn lemma_title_lt_total(a: EntryView, b: EntryView)
    requires
        a.id != b.id,
    ensures
        title_lt(a, b) || title_lt(b, a),
{
    crate::order::lemma_str_lt_total(a.title, b.title);
    crate::order::lemma_str_lt_total(a.id, b.id);
}

/// Sorting by title loses and adds nothing: `title_order(s)` holds the
/// entries of `s`, each as often, in title order.
pub proof fn lemma_title_order(s: Seq<EntryView>)
    ensures
        title_order(s).to_multiset() == s.to_multiset(),
        sorted_by(title_order(s), title_less()),
{
    let lt = title_less();
    assert forall|x: EntryView, y: EntryView, z: EntryView|
        #[trigger] lt(x, y) && #[trigger] lt(y, z) implies lt(x, z) by {
        lemma_title_lt_strict(x, y, z);
    }
    assert forall|x: EntryView, y: EntryView| #[trigger] lt(x, y) implies !lt(y, x) by {
        lemma_title_lt_strict(x, y, y);
    }
    crate::order::lemma_insertion_sorted(s, lt);
    let w = crate::order::insertion_sorted(s, lt);
    assert(w.to_multiset() == s.to_multiset() && sorted_by(w, lt));
}

/// Sorts references to entries into title order.
fn sort_by_title(v: &mut Vec<&Entry>)
    ensures
        final(v)@.map_values(|e: &Entry| e@).to_multiset() == old(v)@.map_values(
            |e: &Entry| e@,
        ).to_multiset(),
        sorted_by(final(v)@.map_values(|e: &Entry| e@), title_less()),
{
    let ghost v0 = v@;
    let ghost lt = |x: &Entry, y: &Entry| title_lt(x@, y@);
    let less = (|x: &&Entry, y: &&Entry| -> (r: bool)
        ensures
            r == title_lt((**x)@, (**y)@),
        { title_before(*x, *y) });
    proof {
        assert forall|x: &Entry, y: &Entry, z: &Entry|
            #[trigger] lt(x, y) && #[trigger] lt(y, z) implies lt(x, z) by {
            lemma_title_lt_strict(x@, y@, z@);
        }
        assert forall|x: &Entry, y: &Entry| #[trigger] lt(x, y) implies !lt(y, x) by {
            lemma_title_lt_strict(x@, y@, y@);
        }
        assert(transitive(lt));
    }
    sort_by(v, less, Ghost(lt));
    proof {
        crate::catalog::lemma_map_multiset(v@, v0, |e: &Entry| e@);
        let m = v@.map_values(|e: &Entry| e@);
        assert forall|i: int, j: int| 0 <= i < j < m.len() implies !title_less()(
            #[trigger] m[j],
            #[trigger] m[i],
        ) by {
            assert(!lt(v@[j], v@[i]));
        }
    }
}

/// The children of a browsable object, in the order the criteria ask for
/// (`ascending`: `+dc:title`, `descending`: `-dc:title`).
fn arranged_children<'a>(
    catalog: &'a Catalog,
    object_id: &str,
    ascending: bool,
    descending: bool,
    criteria: Ghost<Seq<char>>,
) -> (r: Vec<&'a Entry>)
    requires
        catalog.wf(),
        catalog.spec_child_ids(object_id@) is Some,
        ascending == (criteria@ == "+dc:title"@),
        descending == (criteria@ == "-dc:title"@),
    ensures
        r@.len() == catalog.spec_children(object_id@)->0.len(),
        r@.map_values(|e: &Entry| e@) == (if descending {
            arranged(catalog.spec_children(object_id@)->0, criteria@).reverse()
        } else {
            arranged(catalog.spec_children(object_id@)->0, criteria@)
        }),
{
    let ghost listed = catalog.spec_children(object_id@)->0;
    let mut children = match catalog.children(object_id) {
        Some(c) => c,
        None => {
            proof {
                assert(false);
            }
            Vec::new()
        },
    };
    assert(children@.map_values(|e: &Entry| e@) =~= listed);
    if ascending || descending {
        sort_by_title(&mut children);
        proof {
            broadcast use vstd::seq_lib::group_to_multiset_ensures;

            reveal_strlit("+dc:title");
            reveal_strlit("-dc:title");
            let m = children@.map_values(|e: &Entry| e@);
            assert(m.to_multiset() == listed.to_multiset() && sorted_by(m, title_less()));
            assert(m.len() == listed.len()) by {
                vstd::seq_lib::to_multiset_len(m);
                vstd::seq_lib::to_multiset_len(listed);
            }
            let t = title_order(listed);
            assert(t.to_multiset() == listed.to_multiset() && sorted_by(t, title_less()));
            catalog.lemma_children_are_entries(object_id@);
            assert forall|a: EntryView, b: EntryView|
                m.contains(a) && m.contains(b) && a != b implies #[trigger] title_less()(a, b)
                || #[trigger] title_less()(b, a) by {
                vstd::seq_lib::to_multiset_contains(m, a);
                vstd::seq_lib::to_multiset_contains(m, b);
                vstd::seq_lib::to_multiset_contains(listed, a);
                vstd::seq_lib::to_multiset_contains(listed, b);
                assert(listed.to_multiset().count(a) > 0);
                assert(listed.to_multiset().count(b) > 0);
                let i = choose|i: int| 0 <= i < listed.len() && listed[i] == a;
                let j = choose|j: int| 0 <= j < listed.len() && listed[j] == b;
                assert(catalog.spec_entry(listed[i].id) == Some(listed[i]));
                assert(catalog.spec_entry(listed[j].id) == Some(listed[j]));
                lemma_title_lt_total(a, b);
            }
            crate::order::lemma_sorted_permutation_unique(m, t, title_less());
            assert(m == t);
            if descending {
                assert("+dc:title"@[0] != "-dc:title"@[0]);
                assert(arranged(listed, criteria@) == t.reverse());
                assert(t.reverse().reverse() =~= t);
            } else {
                assert(arranged(listed, criteria@) == t);
            }
        }
    } else {
        assert(arranged(listed, criteria@) == listed);
    }
    assert(children@.map_values(|e: &Entry| e@) == (if descending {
            arranged(listed, criteria@).reverse()
        } else {
            arranged(listed, criteria@)
        }));
    children
}

fn browse(
    arguments: &SoapArguments,
    catalog: &Catalog,
    bookmarks: &BookmarkPositions,
    base_url: &str,
) -> (r: Result<Vec<(&'static str, String)>, UpnpError>)
    requires
        catalog.wf(),
        bookmarks.wf(),
    ensures
        match spec_browse(arguments, catalog, bookmarks, base_url@) {
            Ok(values) => r matches Ok(v) && outputs_view(v@) == values,
            Err(e) => r matches Err(x) && x == e,
        },
{
    let object_id = match required(arguments, "ObjectID") {
        Ok(v) => v.as_str(),
        Err(e) => {
            return Err(e);
        },
    };
    let flag = match required(arguments, "BrowseFlag") {
        Ok(v) => v.as_str(),
        Err(e) => {
            return Err(e);
        },
    };
    let start = match parse_u32(arguments, "StartingIndex") {
        Ok(n) => n,
        Err(e) => {
            return Err(e);
        },
    };
    let count = match parse_u32(arguments, "RequestedCount") {
        Ok(n) => n,
        Err(e) => {
            return Err(e);
        },
    };
    let criteria = match required(arguments, "SortCriteria") {
        Ok(v) => v.as_str(),
        Err(e) => {
            return Err(e);
        },
    };
    let filter = match required(arguments, "Filter") {
        Ok(v) => v.as_str(),
        Err(e) => {
            return Err(e);
        },
    };
    let ascending = str_eq(criteria, "+dc:title");
    let descending = str_eq(criteria, "-dc:title");
    if !criteria.is_empty() && !ascending && !descending {
        return Err(upnp_error(709));
    }
    assert(valid_sort(criteria@)) by {
        if criteria@.len() == 0 {
            assert(criteria@ =~= Seq::<char>::empty());
        }
    }
    let mut didl = String::from_str(
        "<DIDL-Lite xmlns=\"urn:schemas-upnp-org:metadata-1-0/DIDL-Lite/\" xmlns:dc=\"http://purl.org/dc/elements/1.1/\" xmlns:upnp=\"urn:schemas-upnp-org:metadata-1-0/upnp/\" xmlns:sec=\"http://www.sec.co.kr/dlna\">",
    );
    let ghost head = didl@;
    let returned: usize;
    let total: usize;
    let ghost objects: Seq<char>;
    if str_eq(flag, "BrowseMetadata") {
        if str_eq(object_id, ROOT_ID) {
            append_root(&mut didl, catalog, filter);
            proof {
                objects = spec_root_text(catalog, filter@);
            }
        } else {
            match catalog.entry(object_id) {
                Some(e) => {
                    append_entry(&mut didl, e, catalog, bookmarks, base_url, filter);
                    proof {
                        objects = spec_entry_text(e@, catalog, bookmarks, base_url@, filter@);
                    }
                },
                None => {
                    return Err(upnp_error(701));
                },
            }
        }
        returned = 1;
        total = 1;
    } else if str_eq(flag, "BrowseDirectChildren") {
        let browsable = str_eq(object_id, ROOT_ID) || match catalog.entry(object_id) {
            Some(e) => match e.kind {
                EntryKind::Container => true,
                EntryKind::Media(_) => false,
            },
            None => false,
        };
        if !browsable {
            return Err(upnp_error(701));
        }
        proof {
            catalog.lemma_browsable_listed(object_id@);
        }
        let ghost listed = catalog.spec_children(object_id@)->0;
        let ghost arr = arranged(listed, criteria@);
        let children = arranged_children(
            catalog,
            object_id,
            ascending,
            descending,
            Ghost(criteria@),
        );
        let n = children.len();
        proof {
            assert(arr.len() == n) by {
                if descending {
                    assert(arr.reverse().len() == arr.len());
                }
            }
        }
        let from: usize = if (start as usize) <= n {
            start as usize
        } else {
            n
        };
        let to: usize = if count == 0 || (count as usize) > n - from {
            n
        } else {
            from + count as usize
        };
        let mut k: usize = from;
        while k < to
            invariant
                catalog.wf(),
                bookmarks.wf(),
                n == children@.len(),
                n == arr.len(),
                from <= k <= to <= n,
                children@.map_values(|e: &Entry| e@) == (if descending {
                    arr.reverse()
                } else {
                    arr
                }),
                didl@ == head + spec_entries_text(
                    arr.subrange(from as int, k as int),
                    catalog,
                    bookmarks,
                    base_url@,
                    filter@,
                ),
            decreases to - k,
        {
            let idx = if descending {
                n - 1 - k
            } else {
                k
            };
            proof {
                let m = children@.map_values(|e: &Entry| e@);
                assert(m[idx as int] == children@[idx as int]@);
                if descending {
                    assert(arr.reverse()[idx as int] == arr[k as int]);
                }
                let t = arr.subrange(from as int, k + 1);
                assert(t.drop_last() =~= arr.subrange(from as int, k as int));
                assert(t.last() == arr[k as int]);
            }
            append_entry(&mut didl, children[idx], catalog, bookmarks, base_url, filter);
            k = k + 1;
        }
        returned = to - from;
        total = n;
        proof {
            assert(page(arr, start as nat, count as nat) == arr.subrange(from as int, to as int));
            assert(spec_browse(arguments, catalog, bookmarks, base_url@) == Ok::<
                Seq<(Seq<char>, Seq<char>)>,
                UpnpError,
            >(
                browse_outputs(
                    spec_entries_text(
                        arr.subrange(from as int, to as int),
                        catalog,
                        bookmarks,
                        base_url@,
                        filter@,
                    ),
                    (to - from) as nat,
                    n as nat,
                    catalog.spec_object_update_id(object_id@),
                ),
            ));
            objects = spec_entries_text(
                arr.subrange(from as int, to as int),
                catalog,
                bookmarks,
                base_url@,
                filter@,
            );
        }
    } else {
        return Err(upnp_error(402));
    }
    push_str(&mut didl, "</DIDL-Lite>");
    let update_id = catalog.object_update_id(object_id);
    let mut out: Vec<(&'static str, String)> = Vec::new();
    out.push(("Result", didl));
    out.push(("NumberReturned", decimal_string(returned as u64)));
    out.push(("TotalMatches", decimal_string(total as u64)));
    out.push(("UpdateID", decimal_string(update_id as u64)));
    proof {
        assert(outputs_view(out@) =~= browse_outputs(objects, returned as nat, total as nat, update_id));
    }
    Ok(out)
}

// ---------------------------------------------------------------------------
// ContentDirectory
// ---------------------------------------------------------------------------

/// The ContentDirectory's answer to an action: its output arguments, or the
/// error for an unknown action (401) or a failed Browse.
pub open spec fn spec_content_directory(
    action: Seq<char>,
    arguments: &SoapArguments,
    catalog: &Catalog,
    bookmarks: &BookmarkPositions,
    base_url: Seq<char>,
) -> Result<Seq<(Seq<char>, Seq<char>)>, UpnpError> {
    if action == "GetSearchCapabilities"@ {
        Ok(seq![("SearchCaps"@, Seq::empty())])
    } else if action == "GetSortCapabilities"@ {
        Ok(seq![("SortCaps"@, "dc:title"@)])
    } else if action == "GetSystemUpdateID"@ {
        Ok(seq![("Id"@, decimal(catalog.spec_update_id() as nat))])
    } else if action == "Browse"@ {
        spec_browse(arguments, catalog, bookmarks, base_url)
    } else if action == "X_SetBookmark"@ {
        Ok(Seq::empty())
    } else {
        Err(spec_upnp_error(401))
    }
}

/// The response document of a ContentDirectory action.
pub fn content_directory_response(
    action: &str,
    arguments: &SoapArguments,
    catalog: &Catalog,
    bookmarks: &BookmarkPositions,
    base_url: &str,
) -> (r: Result<String, UpnpError>)
    requires
        catalog.wf(),
        bookmarks.wf(),
    ensures
        match spec_content_directory(action@, arguments, catalog, bookmarks, base_url@) {
            Ok(values) => r matches Ok(s) && s@ == spec_soap_response(
                CONTENT_DIRECTORY_TYPE@,
                action@,
                values,
            ),
            Err(e) => r matches Err(x) && x == e,
        },
{
    let mut output: Vec<(&'static str, String)> = Vec::new();
    if str_eq(action, "GetSearchCapabilities") {
        output.push(("SearchCaps", String::new()));
    } else if str_eq(action, "GetSortCapabilities") {
        output.push(("SortCaps", String::from_str("dc:title")));
    } else if str_eq(action, "GetSystemUpdateID") {
        output.push(("Id", decimal_string(catalog.update_id() as u64)));
    } else if str_eq(action, "Browse") {
        output = match browse(arguments, catalog, bookmarks, base_url) {
            Ok(v) => v,
            Err(e) => {
                return Err(e);
            },
        };
    } else if str_eq(action, "X_SetBookmark") {
    } else {
        return Err(upnp_error(401));
    }
    proof {
        match spec_content_directory(action@, arguments, catalog, bookmarks, base_url@) {
            Ok(values) => {
                assert(outputs_view(output@) =~= values);
            },
            Err(_) => {},
        }
    }
    Ok(soap_response(CONTENT_DIRECTORY_TYPE, action, &output))
}

// ---------------------------------------------------------------------------
// Requests
// ---------------------------------------------------------------------------

/// Why a SOAP request could not be read.
#[derive(Debug)]
pub enum SoapParseError {
    /// The SOAPAction header is missing or names no action.
    MissingAction,
    /// The body is not well-formed XML.
    InvalidXml(quick_xml::Error),
}

/// The action a SOAPAction header names: what follows the last `#` once
/// the surrounding quotes and spaces are stripped.
pub open spec fn soap_action_name(header: Option<Seq<char>>) -> Option<Seq<char>> {
    match header {
        Some(h) => {
            let t = trim_in(h, TrimSet::QuotesAndSpaces);
            match last_index(t, '#') {
                Some(i) => Some(t.skip(i + 1)),
                None => None,
            }
        },
        None => None,
    }
}

/// The action named by a SOAPAction header.
fn action_name(header: &str) -> (r: Option<String>)
    ensures
        match soap_action_name(Some(header@)) {
            Some(a) => r matches Some(x) && x@ == a,
            None => r is None,
        },
{
    let v = chars_of(header);
    let (i, e) = trim_bounds_in(v.as_slice(), 0, v.len(), TrimSet::QuotesAndSpaces);
    assert(v@.subrange(0, v@.len() as int) =~= v@);
    match rfind_char(v.as_slice(), i, e, '#') {
        Some(k) => {
            let a = string_from_range(v.as_slice(), k + 1, e);
            proof {
                let tt = v@.subrange(i as int, e as int);
                assert(tt.skip(k - i + 1) =~= v@.subrange(k + 1, e as int));
            }
            Some(a)
        },
        None => None,
    }
}

/// The value stored under `n`, if any.
pub open spec fn map_get(m: Map<Seq<char>, Seq<char>>, n: Seq<char>) -> Option<Seq<char>> {
    if m.contains_key(n) {
        Some(m[n])
    } else {
        None
    }
}

/// `m` with the empty value under `n` unless it has one.
pub open spec fn with_default(m: Map<Seq<char>, Seq<char>>, n: Seq<char>) -> Map<
    Seq<char>,
    Seq<char>,
> {
    if m.contains_key(n) {
        m
    } else {
        m.insert(n, Seq::empty())
    }
}

/// Where the reading of a SOAP body stands: the element whose text may
/// follow, and the arguments read so far.
pub ghost struct Parsing {
    pub current: Option<Seq<char>>,
    pub arguments: Map<Seq<char>, Seq<char>>,
}

/// One token's effect: an opening tag names the element whose text may
/// follow; text under a named element is unescaped and becomes its value;
/// a self-closing tag, or a closing tag right after an opening one, gives an
/// element the empty value unless it has one. `None` when text cannot be
/// unescaped.
pub open spec fn parse_step(p: Parsing, t: XmlTokenView) -> Option<Parsing> {
    match t {
        XmlTokenView::Start(name) => Some(
            Parsing { current: Some(utf8_lossy(local_name(name))), arguments: p.arguments },
        ),
        XmlTokenView::Text(raw) => match p.current {
            Some(n) => match xml_unescape(utf8_lossy(raw)) {
                Some(v) => Some(Parsing { current: None, arguments: p.arguments.insert(n, v) }),
                None => None,
            },
            None => Some(p),
        },
        XmlTokenView::Empty(name) => Some(
            Parsing {
                current: None,
                arguments: with_default(p.arguments, utf8_lossy(local_name(name))),
            },
        ),
        XmlTokenView::End => Some(
            Parsing {
                current: None,
                arguments: match p.current {
                    Some(n) => with_default(p.arguments, n),
                    None => p.arguments,
                },
            },
        ),
        _ => Some(p),
    }
}

/// The arguments read from token `k` of `body` on, from state `p`; `None`
/// when the XML is malformed. (The reader ends within one token per byte,
/// so the first branch only bounds the recursion.)
pub open spec fn parse_tokens(body: Seq<u8>, k: nat, p: Parsing) -> Option<
    Map<Seq<char>, Seq<char>>,
>
    decreases body.len() + 1 - k,
{
    if k > body.len() {
        None
    } else {
        match xml_token(body, k) {
            None => None,
            Some(XmlTokenView::Eof) => Some(p.arguments),
            Some(t) => match parse_step(p, t) {
                Some(q) => parse_tokens(body, k + 1, q),
                None => None,
            },
        }
    }
}

/// The arguments of a SOAP body: each element's local name with the text it
/// holds, the later value winning; `None` when the XML is malformed.
pub open spec fn soap_arguments(body: Seq<u8>) -> Option<Map<Seq<char>, Seq<char>>> {
    parse_tokens(body, 0, Parsing { current: None, arguments: Map::empty() })
}

pub open spec fn optional_text(s: Option<&str>) -> Option<Seq<char>> {
    match s {
        Some(x) => Some(x@),
        None => None,
    }
}

pub open spec fn optional_string(s: Option<String>) -> Option<Seq<char>> {
    match s {
        Some(x) => Some(x@),
        None => None,
    }
}

/// The state before any token has been read.
pub open spec fn initial_parsing() -> Parsing {
    Parsing { current: None, arguments: Map::empty() }
}

/// The state after reading the tokens `ts` in turn from `p`; `None` when a
/// text cannot be unescaped.
pub open spec fn fold_tokens(ts: Seq<XmlTokenView>, p: Parsing) -> Option<Parsing>
    decreases ts.len(),
{
    if ts.len() == 0 {
        Some(p)
    } else {
        match fold_tokens(ts.drop_last(), p) {
            Some(q) => parse_step(q, ts.last()),
            None => None,
        }
    }
}

/// Reads the arguments of a SOAP body from its tokens, one at a time.
pub struct ArgumentReader {
    current: Option<String>,
    arguments: SoapArguments,
    parsing: Ghost<Parsing>,
}

impl ArgumentReader {
    /// Where the reading stands.
    pub closed spec fn parsing(&self) -> Parsing {
        self.parsing@
    }

    /// The reader's values agree with where the reading stands.
    pub closed spec fn wf(&self) -> bool {
        &&& optional_string(self.current) == self.parsing@.current
        &&& forall|n: Seq<char>| #[trigger]
            self.arguments.spec_get(n) == map_get(self.parsing@.arguments, n)
    }

    /// A reader that has read nothing.
    pub fn new() -> (r: Self)
        ensures
            r.wf(),
            r.parsing() == initial_parsing(),
    {
        ArgumentReader { current: None, arguments: SoapArguments::new(), parsing: Ghost(initial_parsing()) }
    }

    /// Applies one token (`parse_step`); fails, with quick-xml's error, when
    /// its text cannot be unescaped.
    pub fn read_token(&mut self, token: &XmlToken) -> (r: Result<(), quick_xml::Error>)
        requires
            old(self).wf(),
        ensures
            final(self).wf(),
            match parse_step(old(self).parsing(), token@) {
                Some(q) => r is Ok && final(self).parsing() == q,
                None => r is Err,
            },
    {
        match token {
            XmlToken::Start(name) => {
                let local = local_name_of(name.as_slice());
                self.current = Some(lossy_string(local.as_slice()));
                proof {
                    self.parsing = Ghost(
                        Parsing { current: optional_string(self.current), arguments: self.parsing@.arguments },
                    );
                }
            },
            XmlToken::Text(raw) => {
                let taken = self.current.take();
                match taken {
                    Some(name) => {
                        let text = lossy_string(raw.as_slice());
                        let value = match unescape(text.as_str()) {
                            Ok(v) => v,
                            Err(e) => {
                                self.current = Some(name);
                                return Err(e);
                            },
                        };
                        proof {
                            self.parsing = Ghost(
                                Parsing { current: None, arguments: self.parsing@.arguments.insert(name@, value@) },
                            );
                        }
                        self.arguments.insert(name, value);
                    },
                    None => {},
                }
            },
            XmlToken::Empty(name) => {
                let local = local_name_of(name.as_slice());
                let key = lossy_string(local.as_slice());
                proof {
                    self.parsing = Ghost(
                        Parsing { current: None, arguments: with_default(self.parsing@.arguments, key@) },
                    );
                }
                self.arguments.insert_default(key);
                self.current = None;
            },
            XmlToken::End => {
                let taken = self.current.take();
                match taken {
                    Some(name) => {
                        proof {
                            self.parsing = Ghost(
                                Parsing { current: None, arguments: with_default(self.parsing@.arguments, name@) },
                            );
                        }
                        self.arguments.insert_default(name);
                    },
                    None => {},
                }
            },
            XmlToken::Eof => {},
            XmlToken::Other => {},
        }
        Ok(())
    }

    /// The arguments read.
    pub fn into_arguments(self) -> (r: SoapArguments)
        requires
            self.wf(),
        ensures
            forall|n: Seq<char>| #[trigger] r.spec_get(n) == map_get(self.parsing().arguments, n),
    {
        self.arguments
    }
}

/// The arguments that a sequence of tokens of a SOAP body gives: each
/// element's local name with the text it holds, the later value winning;
/// quick-xml's error when a text cannot be unescaped.
pub fn arguments_of(tokens: &Vec<XmlToken>) -> (r: Result<SoapArguments, quick_xml::Error>)
    ensures
        match fold_tokens(tokens@.map_values(|t: XmlToken| t@), initial_parsing()) {
            Some(q) => r matches Ok(a) && forall|n: Seq<char>| #[trigger]
                a.spec_get(n) == map_get(q.arguments, n),
            None => r is Err,
        },
{
    let ghost ts = tokens@.map_values(|t: XmlToken| t@);
    let mut reader = ArgumentReader::new();
    let mut i: usize = 0;
    while i < tokens.len()
        invariant
            i <= tokens@.len(),
            ts == tokens@.map_values(|t: XmlToken| t@),
            reader.wf(),
            fold_tokens(ts.take(i as int), initial_parsing()) == Some(reader.parsing()),
        decreases tokens@.len() - i,
    {
        proof {
            assert(ts.take(i + 1).drop_last() =~= ts.take(i as int));
            assert(ts.take(i + 1).last() == tokens@[i as int]@);
        }
        match reader.read_token(&tokens[i]) {
            Ok(()) => {},
            Err(e) => {
                proof {
                    lemma_fold_tokens_fails(ts, i as int, initial_parsing());
                }
                return Err(e);
            },
        }
        i = i + 1;
    }
    assert(ts.take(i as int) =~= ts);
    Ok(reader.into_arguments())
}

/// Once reading fails, reading more tokens does not mend it.
proof fn lemma_fold_tokens_fails(ts: Seq<XmlTokenView>, i: int, p: Parsing)
    requires
        0 <= i < ts.len(),
        fold_tokens(ts.take(i + 1), p) is None,
    ensures
        fold_tokens(ts, p) is None,
    decreases ts.len() - i,
{
    if i + 1 < ts.len() {
        assert(ts.take(i + 2).drop_last() =~= ts.take(i + 1));
        lemma_fold_tokens_fails(ts, i + 1, p);
    } else {
        assert(ts.take(i + 1) =~= ts);
    }
}

/// Reads a SOAP request: the action its SOAPAction header names, and the
/// arguments in its body.
pub fn parse_request(soap_action: Option<&str>, body: &[u8]) -> (r: Result<
    (String, SoapArguments),
    SoapParseError,
>)
    ensures
        match soap_action_name(optional_text(soap_action)) {
            None => r matches Err(e) && e is MissingAction,
            Some(a) => match soap_arguments(body@) {
                None => r matches Err(e) && e is InvalidXml,
                Some(m) => r matches Ok(p) && p.0@ == a && forall|n: Seq<char>|
                    #[trigger] p.1.spec_get(n) == map_get(m, n),
            },
        },
{
    let action = match soap_action {
        Some(header) => match action_name(header) {
            Some(a) => a,
            None => {
                return Err(SoapParseError::MissingAction);
            },
        },
        None => {
            return Err(SoapParseError::MissingAction);
        },
    };
    let mut tokens = XmlTokens::new(body);
    let mut reader = ArgumentReader::new();
    loop
        invariant_except_break
            !tokens.failed(),
            tokens.read() <= body@.len(),
            soap_arguments(body@) == parse_tokens(body@, tokens.read(), reader.parsing()),
        invariant
            tokens.body() == body@,
            reader.wf(),
            soap_action_name(optional_text(soap_action)) == Some(action@),
        ensures
            soap_arguments(body@) == Some(reader.parsing().arguments),
        decreases body@.len() + 1 - tokens.read(),
    {
        let token = match tokens.next() {
            Ok(t) => t,
            Err(e) => {
                return Err(SoapParseError::InvalidXml(e));
            },
        };
        if let XmlToken::Eof = token {
            break;
        }
        match reader.read_token(&token) {
            Ok(()) => {},
            Err(e) => {
                return Err(SoapParseError::InvalidXml(e));
            },
        }
    }
    Ok((action, reader.into_arguments()))
}

} // verus!

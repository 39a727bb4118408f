//! The decisions of the HTTP server: byte ranges of media requests, the
//! headers of media responses, status codes of refused subscriptions,
//! bookmark requests, the device's UDN, which filesystem changes matter, and
//! when the catalog is scanned again.
use vstd::prelude::*;

use crate::catalog::{Catalog, EntryKindView};
use crate::config::{ipv4_text, push_ipv4, Ipv4Address};
use crate::events::SubscriptionError;
use crate::soap::{protocol_info, spec_protocol_info, spec_upnp_error, upnp_error, SoapArguments, UpnpError};
use crate::text::{
    chars_of, contains_char, decimal, find_char, first_index, has_prefix, parse_u64,
    parse_u64_range, parse_unsigned, push_decimal, push_str, starts_with_at, string_from_range,
};

verus! {

// ---------------------------------------------------------------------------
// Byte ranges
// ---------------------------------------------------------------------------

/// The bytes a media response carries: `start..=end` of the file, and
/// whether that is a part of it (206) or all of it (200).
#[derive(Debug, Clone, Copy, PartialEq, Eq, Structural)]
pub struct ByteRange {
    pub start: u64,
    pub end: u64,
    pub partial: bool,
}

/// The first and last byte a single `bytes=` range asks for, before they
/// are checked against the file: `-n` is the last `n` bytes, `a-` runs to
/// the end, `a-b` is cut at the end.
pub open spec fn range_bounds(r: Seq<char>, size: u64) -> Option<(nat, nat)> {
    match first_index(r, '-') {
        None => None,
        Some(d) => {
            let a = r.take(d);
            let b = r.skip(d + 1);
            if a.len() == 0 {
                match parse_unsigned(b, u64::MAX as nat) {
                    None => None,
                    Some(suffix) => if suffix == 0 {
                        None
                    } else {
                        Some(
                            (
                                if suffix >= size {
                                    0
                                } else {
                                    (size - suffix) as nat
                                },
                                (size - 1) as nat,
                            ),
                        )
                    },
                }
            } else {
                match parse_unsigned(a, u64::MAX as nat) {
                    None => None,
                    Some(first) => {
                        let last: Option<nat> = if b.len() == 0 {
                            Some((size - 1) as nat)
                        } else {
                            parse_unsigned(b, u64::MAX as nat)
                        };
                        match last {
                            None => None,
                            Some(l) => Some(
                                (
                                    first,
                                    if l < size - 1 {
                                        l
                                    } else {
                                        (size - 1) as nat
                                    },
                                ),
                            ),
                        }
                    },
                }
            }
        },
    }
}

/// The range a `Range` header asks for in a file of `size` bytes: the whole
/// file without a header; otherwise a single `bytes=` range that starts
/// inside the file and does not end before it starts (`None`: 416).
pub open spec fn spec_parse_range(value: Option<Seq<char>>, size: u64) -> Option<ByteRange> {
    match value {
        None => Some(
            ByteRange {
                start: 0,
                end: if size == 0 {
                    0
                } else {
                    (size - 1) as u64
                },
                partial: false,
            },
        ),
        Some(v) => if size == 0 || !has_prefix(v, "bytes="@) || contains_char(v.skip(6), ',') {
            None
        } else {
            match range_bounds(v.skip(6), size) {
                None => None,
                Some((s, e)) => if s >= size || s > e {
                    None
                } else {
                    Some(ByteRange { start: s as u64, end: e as u64, partial: true })
                },
            }
        },
    }
}

/// The bounds of the range in `v[from..to]`.
fn bounds_of(v: &[char], from: usize, to: usize, size: u64) -> (r: Option<(u64, u64)>)
    requires
        from <= to <= v@.len(),
        size > 0,
    ensures
        match range_bounds(v@.subrange(from as int, to as int), size) {
            Some((s, e)) => r == Some((s as u64, e as u64)),
            None => r is None,
        },
{
    let ghost r = v@.subrange(from as int, to as int);
    let d = match find_char(v, from, to, '-') {
        Some(d) => d,
        None => {
            return None;
        },
    };
    assert(r.take(d - from) =~= v@.subrange(from as int, d as int));
    assert(r.skip(d - from + 1) =~= v@.subrange(d + 1, to as int));
    if d == from {
        let suffix = match parse_u64_range(v, d + 1, to) {
            Some(n) => n,
            None => {
                return None;
            },
        };
        if suffix == 0 {
            return None;
        }
        let first = if suffix >= size {
            0
        } else {
            size - suffix
        };
        Some((first, size - 1))
    } else {
        let first = match parse_u64_range(v, from, d) {
            Some(n) => n,
            None => {
                return None;
            },
        };
        let last = if d + 1 == to {
            size - 1
        } else {
            match parse_u64_range(v, d + 1, to) {
                Some(n) => n,
                None => {
                    return None;
                },
            }
        };
        Some((first, if last < size - 1 {
            last
        } else {
            size - 1
        }))
    }
}

/// The range a `Range` header asks for in a file of `file_size` bytes.
pub fn parse_range(value: Option<&str>, file_size: u64) -> (r: Result<ByteRange, ()>)
    ensures
        match spec_parse_range(
            match value {
                Some(v) => Some(v@),
                None => None,
            },
            file_size,
        ) {
            Some(b) => r == Ok::<ByteRange, ()>(b),
            None => r == Err::<ByteRange, ()>(()),
        },
        r matches Ok(b) ==> b.partial == value is Some && b.start <= b.end && (file_size > 0
            ==> b.end < file_size),
{
    let value = match value {
        Some(v) => v,
        None => {
            return Ok(
                ByteRange {
                    start: 0,
                    end: if file_size == 0 {
                        0
                    } else {
                        file_size - 1
                    },
                    partial: false,
                },
            );
        },
    };
    if file_size == 0 {
        return Err(());
    }
    let v = chars_of(value);
    proof {
        reveal_strlit("bytes=");
    }
    if v.len() < 6 || !starts_with_at(v.as_slice(), 0, "bytes=") {
        assert(v@.skip(0) =~= v@);
        return Err(());
    }
    assert(v@.skip(0) =~= v@);
    assert(v@.subrange(6, v@.len() as int) =~= value@.skip(6));
    if find_char(v.as_slice(), 6, v.len(), ',').is_some() {
        return Err(());
    }
    let (start, end) = match bounds_of(v.as_slice(), 6, v.len(), file_size) {
        Some(b) => b,
        None => {
            return Err(());
        },
    };
    if start >= file_size || start > end {
        return Err(());
    }
    Ok(ByteRange { start, end, partial: true })
}

/// The number of bytes a media response carries: none for an empty file,
/// otherwise the range's length (saturating).
pub open spec fn spec_media_length(file_size: u64, range: ByteRange) -> u64 {
    if file_size == 0 {
        0
    } else {
        let span: int = if range.end >= range.start {
            range.end - range.start
        } else {
            0
        };
        if span + 1 > u64::MAX {
            u64::MAX
        } else {
            (span + 1) as u64
        }
    }
}

/// The number of bytes a media response carries.
pub fn media_length(file_size: u64, range: ByteRange) -> (r: u64)
    ensures
        r == spec_media_length(file_size, range),
        file_size > 0 && range.start <= range.end < file_size ==> r == range.end - range.start + 1
            && r <= file_size,
{
    if file_size == 0 {
        0
    } else {
        let span = if range.end >= range.start {
            range.end - range.start
        } else {
            0
        };
        if span == u64::MAX {
            u64::MAX
        } else {
            span + 1
        }
    }
}

/// The `Content-Range` of a partial response.
pub open spec fn spec_content_range(range: ByteRange, file_size: u64) -> Seq<char> {
    "bytes "@ + decimal(range.start as nat) + "-"@ + decimal(range.end as nat) + "/"@ + decimal(
        file_size as nat,
    )
}

/// The `Content-Range` of a partial response.
pub fn content_range(range: ByteRange, file_size: u64) -> (r: String)
    ensures
        r@ == spec_content_range(range, file_size),
{
    let mut out = String::from_str("bytes ");
    push_decimal(&mut out, range.start);
    push_str(&mut out, "-");
    push_decimal(&mut out, range.end);
    push_str(&mut out, "/");
    push_decimal(&mut out, file_size);
    out
}

/// The `Content-Range` of a 416 answer.
pub open spec fn spec_unsatisfiable_range(file_size: u64) -> Seq<char> {
    "bytes */"@ + decimal(file_size as nat)
}

/// The `Content-Range` of a 416 answer.
pub fn unsatisfiable_range(file_size: u64) -> (r: String)
    ensures
        r@ == spec_unsatisfiable_range(file_size),
{
    let mut out = String::from_str("bytes */");
    push_decimal(&mut out, file_size);
    out
}

/// What follows the first `:` of `s`.
pub open spec fn after_colon(s: Seq<char>) -> Option<Seq<char>> {
    match first_index(s, ':') {
        Some(i) => Some(s.skip(i + 1)),
        None => None,
    }
}

/// The DLNA content features of a media type: the fourth field of its
/// protocol info, or `*`.
pub open spec fn spec_content_features(mime_type: Seq<char>, dlna_profile: Option<Seq<char>>) -> Seq<
    char,
> {
    match after_colon(spec_protocol_info(mime_type, dlna_profile)) {
        Some(a) => match after_colon(a) {
            Some(b) => match after_colon(b) {
                Some(c) => c,
                None => "*"@,
            },
            None => "*"@,
        },
        None => "*"@,
    }
}

/// The DLNA content features of a media type.
pub fn content_features(mime_type: &str, dlna_profile: Option<&str>) -> (r: String)
    ensures
        r@ == spec_content_features(
            mime_type@,
            match dlna_profile {
                Some(p) => Some(p@),
                None => None,
            },
        ),
{
    let info = protocol_info(mime_type, dlna_profile);
    let v = chars_of(info.as_str());
    let n = v.len();
    assert(v@.subrange(0, n as int) =~= v@);
    let a = match find_char(v.as_slice(), 0, n, ':') {
        Some(a) => a,
        None => {
            return String::from_str("*");
        },
    };
    assert(v@.skip(a + 1) =~= v@.subrange(a + 1, n as int));
    let b = match find_char(v.as_slice(), a + 1, n, ':') {
        Some(b) => b,
        None => {
            return String::from_str("*");
        },
    };
    assert(v@.subrange(a + 1, n as int).skip(b - a) =~= v@.subrange(b + 1, n as int));
    let c = match find_char(v.as_slice(), b + 1, n, ':') {
        Some(c) => c,
        None => {
            return String::from_str("*");
        },
    };
    assert(v@.subrange(b + 1, n as int).skip(c - b) =~= v@.subrange(c + 1, n as int));
    string_from_range(v.as_slice(), c + 1, n)
}

/// How a media request is answered: the status, the length of the body,
/// the `Content-Range` and `contentFeatures.dlna.org` headers when they are
/// sent, and which bytes of the file the body carries.
#[derive(Debug)]
pub struct MediaResponse {
    pub status: u16,
    pub content_length: u64,
    pub content_range: Option<String>,
    pub content_features: Option<String>,
    /// The offset of the body's first byte in the file.
    pub body_start: u64,
    /// Whether a body is sent at all (not for HEAD, nor when it is empty).
    pub send_body: bool,
}

pub ghost struct MediaResponseView {
    pub status: u16,
    pub content_length: u64,
    pub content_range: Option<Seq<char>>,
    pub content_features: Option<Seq<char>>,
    pub body_start: u64,
    pub send_body: bool,
}

impl View for MediaResponse {
    type V = MediaResponseView;

    open spec fn view(&self) -> MediaResponseView {
        MediaResponseView {
            status: self.status,
            content_length: self.content_length,
            content_range: match self.content_range {
                Some(c) => Some(c@),
                None => None,
            },
            content_features: match self.content_features {
                Some(c) => Some(c@),
                None => None,
            },
            body_start: self.body_start,
            send_body: self.send_body,
        }
    }
}

/// The answer to a GET or HEAD of a media file of `file_size` bytes: a
/// range that cannot be served gives 416 with `bytes */size` and no body;
/// otherwise 206 with its `Content-Range` for a requested range, 200 for the
/// whole file, the content features only when the request asks for them
/// with `1`, and a body unless the method is HEAD or there are no bytes.
pub open spec fn spec_media_response(
    range_header: Option<Seq<char>>,
    features_header: Option<Seq<char>>,
    head: bool,
    file_size: u64,
    mime_type: Seq<char>,
    dlna_profile: Option<Seq<char>>,
) -> MediaResponseView {
    match spec_parse_range(range_header, file_size) {
        None => MediaResponseView {
            status: 416,
            content_length: 0,
            content_range: Some(spec_unsatisfiable_range(file_size)),
            content_features: None,
            body_start: 0,
            send_body: false,
        },
        Some(range) => {
            let length = spec_media_length(file_size, range);
            MediaResponseView {
                status: if range.partial {
                    206
                } else {
                    200
                },
                content_length: length,
                content_range: if range.partial {
                    Some(spec_content_range(range, file_size))
                } else {
                    None
                },
                content_features: if features_header == Some("1"@) {
                    Some(spec_content_features(mime_type, dlna_profile))
                } else {
                    None
                },
                body_start: range.start,
                send_body: !head && length > 0,
            }
        },
    }
}

/// What a media answer promises, whatever the request: the status is 200,
/// 206 or 416; without a `Range` header the whole file is sent with 200; a
/// 206 carries a `Content-Range` naming exactly the bytes sent, which lie in
/// the file, and only a 206 or 416 carries one; the content features are
/// sent exactly when the request asks for them with `1` and the range can be
/// served, with or without a `Range` header; and a body is sent only for a
/// GET with bytes to send.
pub proof fn lemma_media_response_laws(
    range_header: Option<Seq<char>>,
    features_header: Option<Seq<char>>,
    head: bool,
    file_size: u64,
    mime_type: Seq<char>,
    dlna_profile: Option<Seq<char>>,
)
    ensures
        ({
            let r = spec_media_response(range_header, features_header, head, file_size, mime_type, dlna_profile);
            &&& r.status == 200 || r.status == 206 || r.status == 416
            &&& range_header is None ==> r.status == 200 && r.content_length == file_size
                && r.body_start == 0 && r.content_range is None
            &&& r.status == 206 ==> range_header is Some && r.content_length > 0 && r.body_start
                + r.content_length <= file_size && r.content_range == Some(
                spec_content_range(
                    ByteRange {
                        start: r.body_start,
                        end: (r.body_start + r.content_length - 1) as u64,
                        partial: true,
                    },
                    file_size,
                ),
            )
            &&& r.status == 416 ==> r.content_length == 0 && !r.send_body && r.content_features
                is None && r.content_range == Some(spec_unsatisfiable_range(file_size))
            &&& (r.content_range is Some <==> r.status != 200)
            &&& r.status != 416 && features_header == Some("1"@) ==> r.content_features == Some(
                spec_content_features(mime_type, dlna_profile),
            )
            &&& features_header != Some("1"@) ==> r.content_features is None
            &&& r.send_body <==> (r.status != 416 && !head && r.content_length > 0)
        }),
{
}

/// Decides the answer to a media request (`spec_media_response`).
pub fn media_response(
    range_header: Option<&str>,
    features_header: Option<&str>,
    head: bool,
    file_size: u64,
    mime_type: &str,
    dlna_profile: Option<&str>,
) -> (r: MediaResponse)
    ensures
        r@ == spec_media_response(
            crate::soap::optional_text(range_header),
            crate::soap::optional_text(features_header),
            head,
            file_size,
            mime_type@,
            crate::soap::optional_text(dlna_profile),
        ),
{
    let range = match parse_range(range_header, file_size) {
        Ok(range) => range,
        Err(()) => {
            return MediaResponse {
                status: 416,
                content_length: 0,
                content_range: Some(unsatisfiable_range(file_size)),
                content_features: None,
                body_start: 0,
                send_body: false,
            };
        },
    };
    let length = media_length(file_size, range);
    let wants_features = match features_header {
        Some(v) => crate::text::str_eq(v, "1"),
        None => false,
    };
    let content_features = if wants_features {
        Some(content_features(mime_type, dlna_profile))
    } else {
        None
    };
    MediaResponse {
        status: if range.partial {
            206
        } else {
            200
        },
        content_length: length,
        content_range: if range.partial {
            Some(content_range(range, file_size))
        } else {
            None
        },
        content_features,
        body_start: range.start,
        send_body: !head && length > 0,
    }
}

// ---------------------------------------------------------------------------
// Eventing and bookmarks
// ---------------------------------------------------------------------------

/// The HTTP status of a refused SUBSCRIBE or UNSUBSCRIBE: 400 for headers
/// that do not go together, 412 (Precondition Failed) otherwise.
pub fn event_error_status(error: SubscriptionError) -> (r: u16)
    ensures
        r == (if error == SubscriptionError::IncompatibleHeaders {
            400u16
        } else {
            412u16
        }),
{
    match error {
        SubscriptionError::IncompatibleHeaders => 400,
        _ => 412,
    }
}

/// What an `X_SetBookmark` asks for: the object and the position in
/// seconds. Missing or malformed arguments give 402, an object that is not
/// a media item gives 701.
pub open spec fn spec_bookmark_request(arguments: &SoapArguments, catalog: &Catalog) -> Result<
    (Seq<char>, u64),
    UpnpError,
> {
    match arguments.spec_get("ObjectID"@) {
        None => Err(spec_upnp_error(402)),
        Some(id) => match arguments.spec_get("PosSecond"@) {
            None => Err(spec_upnp_error(402)),
            Some(p) => match parse_unsigned(p, u64::MAX as nat) {
                None => Err(spec_upnp_error(402)),
                Some(position) => match catalog.spec_entry(id) {
                    Some(e) => if e.kind is Media {
                        Ok((id, position as u64))
                    } else {
                        Err(spec_upnp_error(701))
                    },
                    None => Err(spec_upnp_error(701)),
                },
            },
        },
    }
}

/// What an `X_SetBookmark` asks for.
pub fn bookmark_request(arguments: &SoapArguments, catalog: &Catalog) -> (r: Result<
    (String, u64),
    UpnpError,
>)
    requires
        catalog.wf(),
    ensures
        match spec_bookmark_request(arguments, catalog) {
            Ok((id, position)) => r matches Ok(x) && x.0@ == id && x.1 == position,
            Err(e) => r matches Err(x) && x == e,
        },
{
    let id = match arguments.get("ObjectID") {
        Some(id) => id,
        None => {
            return Err(upnp_error(402));
        },
    };
    let position = match arguments.get("PosSecond") {
        Some(p) => match parse_u64(p.as_str()) {
            Some(n) => n,
            None => {
                return Err(upnp_error(402));
            },
        },
        None => {
            return Err(upnp_error(402));
        },
    };
    match catalog.entry(id.as_str()) {
        Some(e) => match e.kind {
            crate::catalog::EntryKind::Media(_) => Ok((id.clone(), position)),
            crate::catalog::EntryKind::Container => Err(upnp_error(701)),
        },
        None => Err(upnp_error(701)),
    }
}

// ---------------------------------------------------------------------------
// Identity
// ---------------------------------------------------------------------------

/// The base URL of the server at `interface:http_port`.
pub open spec fn spec_base_url(interface: Ipv4Address, http_port: u16) -> Seq<char> {
    "http://"@ + ipv4_text(interface) + ":"@ + decimal(http_port as nat)
}

/// The base URL of the server.
pub fn base_url(interface: Ipv4Address, http_port: u16) -> (r: String)
    ensures
        r@ == spec_base_url(interface, http_port),
{
    let mut out = String::from_str("http://");
    push_ipv4(&mut out, interface);
    push_str(&mut out, ":");
    push_decimal(&mut out, http_port as u64);
    out
}

/// The text of `Uuid::new_v5(&Uuid::NAMESPACE_URL, name)`: the name-based
/// (SHA-1) UUID of `name` in the URL namespace.
pub uninterp spec fn uuid_v5_url(name: Seq<u8>) -> Seq<char>;

/// `uuid::Uuid::new_v5` in the URL namespace, in its hyphenated `Display`
/// form. The claim is that the text is the named function of the bytes and
/// is 36 characters long.
#[verifier::external_body]
fn url_uuid(name: &[u8]) -> (r: String)
    ensures
        r@ == uuid_v5_url(name@),
        r@.len() == 36,
{
    uuid::Uuid::new_v5(&uuid::Uuid::NAMESPACE_URL, name).to_string()
}

/// The device's unique name: the URL-namespace UUID of the host's identity
/// followed by the configuration file's absolute path, so that it stays the
/// same across restarts.
pub fn stable_udn(host_identity: &[u8], config_path: &[u8]) -> (r: String)
    ensures
        r@ == "uuid:"@ + uuid_v5_url(host_identity@ + config_path@),
{
    let mut name: Vec<u8> = Vec::new();
    let mut i: usize = 0;
    while i < host_identity.len()
        invariant
            i <= host_identity@.len(),
            name@ == host_identity@.take(i as int),
        decreases host_identity@.len() - i,
    {
        name.push(host_identity[i]);
        i = i + 1;
    }
    let mut k: usize = 0;
    while k < config_path.len()
        invariant
            k <= config_path@.len(),
            name@ == host_identity@ + config_path@.take(k as int),
        decreases config_path@.len() - k,
    {
        name.push(config_path[k]);
        k = k + 1;
    }
    assert(host_identity@.take(host_identity@.len() as int) =~= host_identity@);
    assert(config_path@.take(config_path@.len() as int) =~= config_path@);
    let mut out = String::from_str("uuid:");
    let id = url_uuid(name.as_slice());
    push_str(&mut out, id.as_str());
    out
}

// ---------------------------------------------------------------------------
// Filesystem changes
// ---------------------------------------------------------------------------

/// One component of a Unix path (`std::path::Component`).
pub ghost enum PathPart {
    Root,
    Current,
    Parent,
    Normal(Seq<u8>),
}

/// One component of a Unix path.
#[derive(Debug)]
pub enum Component {
    Root,
    Current,
    Parent,
    Normal(Vec<u8>),
}

impl View for Component {
    type V = PathPart;

    open spec fn view(&self) -> PathPart {
        match self {
            Component::Root => PathPart::Root,
            Component::Current => PathPart::Current,
            Component::Parent => PathPart::Parent,
            Component::Normal(x) => PathPart::Normal(x@),
        }
    }
}

/// The `/`-separated pieces of `p`, empty ones included.
pub open spec fn pieces(p: Seq<u8>) -> Seq<Seq<u8>>
    decreases p.len(),
{
    if p.len() == 0 {
        seq![Seq::empty()]
    } else {
        let rest = pieces(p.drop_last());
        if p.last() == 47u8 {
            rest.push(Seq::empty())
        } else {
            rest.update(rest.len() - 1, rest.last().push(p.last()))
        }
    }
}

pub open spec fn dot() -> Seq<u8> {
    seq![46u8]
}

pub open spec fn dot_dot() -> Seq<u8> {
    seq![46u8, 46u8]
}

/// Whether a piece names a component after the first: empty pieces
/// (repeated or trailing separators) and `.` do not.
pub open spec fn is_named_piece() -> spec_fn(Seq<u8>) -> bool {
    |x: Seq<u8>| x.len() > 0 && x != dot()
}

/// The component a non-empty piece other than `.` names.
pub open spec fn piece_part(x: Seq<u8>) -> PathPart {
    if x == dot_dot() {
        PathPart::Parent
    } else {
        PathPart::Normal(x)
    }
}

/// The components of a Unix path (`Path::components`): a leading `/` is the
/// root, a leading `.` stays, repeated separators, later `.`s and a
/// trailing separator are normalized away.
pub open spec fn components(p: Seq<u8>) -> Seq<PathPart> {
    let ps = pieces(p);
    let rooted = p.len() > 0 && p[0] == 47u8;
    let lead: Seq<PathPart> = if rooted {
        seq![PathPart::Root]
    } else if ps[0] == dot() {
        seq![PathPart::Current]
    } else {
        Seq::empty()
    };
    let body = if rooted || ps[0] == dot() {
        ps.drop_first()
    } else {
        ps
    };
    lead + body.filter(is_named_piece()).map_values(|x: Seq<u8>| piece_part(x))
}

/// The last component of a path when it is a name (`Path::file_name`).
pub open spec fn file_name(p: Seq<u8>) -> Option<Seq<u8>> {
    let c = components(p);
    if c.len() > 0 && c.last() is Normal {
        Some(c.last()->Normal_0)
    } else {
        None
    }
}

/// Whether `p` lies under `base`, whole components matching
/// (`Path::starts_with`).
pub open spec fn path_starts_with(p: Seq<u8>, base: Seq<u8>) -> bool {
    let b = components(base);
    b.len() <= components(p).len() && components(p).take(b.len() as int) == b
}

/// Whether a filesystem change at `path` concerns the configuration file
/// (the same path, or a file of the same name) or a watched share.
pub open spec fn concerns(path: Seq<u8>, config_path: Seq<u8>, share_roots: Seq<Seq<u8>>) -> bool {
    components(path) == components(config_path) || file_name(path) == file_name(config_path)
        || exists|k: int| 0 <= k < share_roots.len() && path_starts_with(path, #[trigger] share_roots[k])
}

/// Whether a filesystem event calls for a rescan: one without paths does,
/// otherwise one of its paths must concern the configuration or a share.
pub open spec fn spec_event_is_relevant(
    paths: Seq<Seq<u8>>,
    config_path: Seq<u8>,
    share_roots: Seq<Seq<u8>>,
) -> bool {
    paths.len() == 0 || exists|k: int|
        0 <= k < paths.len() && concerns(#[trigger] paths[k], config_path, share_roots)
}

/// The pieces of `p`.
fn pieces_of(p: &[u8]) -> (r: Vec<Vec<u8>>)
    ensures
        r@.map_values(|x: Vec<u8>| x@) == pieces(p@),
{
    let mut done: Vec<Vec<u8>> = Vec::new();
    let mut current: Vec<u8> = Vec::new();
    let mut i: usize = 0;
    while i < p.len()
        invariant
            i <= p@.len(),
            pieces(p@.take(i as int)) == done@.map_values(|x: Vec<u8>| x@).push(current@),
        decreases p@.len() - i,
    {
        let ghost before = done@.map_values(|x: Vec<u8>| x@);
        let ghost t = p@.take(i + 1);
        assert(t.drop_last() =~= p@.take(i as int));
        assert(t.last() == p@[i as int]);
        if p[i] == 47u8 {
            let piece = current;
            done.push(piece);
            current = Vec::new();
            assert(done@.map_values(|x: Vec<u8>| x@) =~= before.push(piece@));
        } else {
            let ghost old_current = current@;
            current.push(p[i]);
            proof {
                let rest = before.push(old_current);
                assert(rest.last() == old_current);
                assert(rest.update(rest.len() - 1, old_current.push(p@[i as int])) =~= before.push(
                    current@,
                ));
            }
        }
        i = i + 1;
    }
    assert(p@.take(p@.len() as int) =~= p@);
    let ghost before = done@.map_values(|x: Vec<u8>| x@);
    done.push(current);
    assert(done@.map_values(|x: Vec<u8>| x@) =~= before.push(current@));
    done
}

proof fn lemma_pieces_nonempty(p: Seq<u8>)
    ensures
        pieces(p).len() >= 1,
        p.len() > 0 && p[0] == 47u8 ==> pieces(p).len() >= 2,
        p.len() > 0 && p[0] == 47u8 ==> pieces(p)[0] == Seq::<u8>::empty(),
        p.len() == 0 ==> pieces(p)[0] == Seq::<u8>::empty(),
    decreases p.len(),
{
    if p.len() > 0 {
        lemma_pieces_nonempty(p.drop_last());
        if p.len() > 1 {
            assert(p.drop_last()[0] == p[0]);
        }
    }
}

fn is_dot(x: &Vec<u8>) -> (r: bool)
    ensures
        r == (x@ == dot()),
{
    let r = x.len() == 1 && x[0] == 46u8;
    assert(r ==> x@ =~= dot());
    r
}

fn is_dot_dot(x: &Vec<u8>) -> (r: bool)
    ensures
        r == (x@ == dot_dot()),
{
    let r = x.len() == 2 && x[0] == 46u8 && x[1] == 46u8;
    assert(r ==> x@ =~= dot_dot());
    r
}

/// The components of a Unix path.
pub fn components_of(p: &[u8]) -> (r: Vec<Component>)
    ensures
        r@.map_values(|c: Component| c@) == components(p@),
{
    let ps = pieces_of(p);
    let ghost pv = pieces(p@);
    proof {
        lemma_pieces_nonempty(p@);
    }
    assert(ps@.len() == pv.len());
    assert(pv[0] == ps@[0]@);
    let rooted = p.len() > 0 && p[0] == 47u8;
    let first_dot = is_dot(&ps[0]);
    let mut out: Vec<Component> = Vec::new();
    if rooted {
        out.push(Component::Root);
    } else if first_dot {
        out.push(Component::Current);
    }
    let ghost lead = out@.map_values(|c: Component| c@);
    let from: usize = if rooted || first_dot {
        1
    } else {
        0
    };
    let ghost body = if rooted || first_dot {
        pv.drop_first()
    } else {
        pv
    };
    assert(body =~= pv.skip(from as int));
    let mut k: usize = from;
    while k < ps.len()
        invariant
            from <= k <= ps@.len(),
            ps@.len() == pv.len(),
            ps@.map_values(|x: Vec<u8>| x@) == pv,
            body == pv.skip(from as int),
            out@.map_values(|c: Component| c@) == lead + pv.subrange(from as int, k as int).filter(
                is_named_piece(),
            ).map_values(|x: Seq<u8>| piece_part(x)),
        decreases ps@.len() - k,
    {
        let ghost before = out@.map_values(|c: Component| c@);
        let x = &ps[k];
        assert(pv[k as int] == x@);
        let named = x.len() > 0 && !is_dot(x);
        if named {
            if is_dot_dot(x) {
                out.push(Component::Parent);
            } else {
                let mut copy: Vec<u8> = Vec::new();
                let mut j: usize = 0;
                while j < x.len()
                    invariant
                        j <= x@.len(),
                        copy@ == x@.take(j as int),
                    decreases x@.len() - j,
                {
                    copy.push(x[j]);
                    j = j + 1;
                }
                assert(x@.take(x@.len() as int) =~= x@);
                out.push(Component::Normal(copy));
            }
        }
        proof {
            reveal(Seq::filter);
            let t = pv.subrange(from as int, k + 1);
            let u = pv.subrange(from as int, k as int);
            assert(t.drop_last() =~= u);
            assert(t.last() == x@);
            let f = u.filter(is_named_piece());
            if named {
                assert(t.filter(is_named_piece()) == f.push(x@));
                assert(f.push(x@).map_values(|y: Seq<u8>| piece_part(y)) =~= f.map_values(
                    |y: Seq<u8>| piece_part(y),
                ).push(piece_part(x@)));
                assert(out@.map_values(|c: Component| c@) =~= before.push(piece_part(x@)));
            } else {
                assert(t.filter(is_named_piece()) == f);
            }
        }
        k = k + 1;
    }
    assert(pv.subrange(from as int, pv.len() as int) =~= body);
    out
}

fn component_eq(a: &Component, b: &Component) -> (r: bool)
    ensures
        r == (a@ == b@),
{
    match (a, b) {
        (Component::Root, Component::Root) => true,
        (Component::Current, Component::Current) => true,
        (Component::Parent, Component::Parent) => true,
        (Component::Normal(x), Component::Normal(y)) => crate::catalog::bytes_eq(x, y),
        _ => false,
    }
}

/// Whether `b` begins `a`, component by component.
fn components_start_with(a: &Vec<Component>, b: &Vec<Component>) -> (r: bool)
    ensures
        r == (b@.len() <= a@.len() && a@.map_values(|c: Component| c@).take(b@.len() as int)
            == b@.map_values(|c: Component| c@)),
{
    let ghost av = a@.map_values(|c: Component| c@);
    let ghost bv = b@.map_values(|c: Component| c@);
    if b.len() > a.len() {
        return false;
    }
    let mut i: usize = 0;
    while i < b.len()
        invariant
            b@.len() <= a@.len(),
            i <= b@.len(),
            av == a@.map_values(|c: Component| c@),
            bv == b@.map_values(|c: Component| c@),
            forall|j: int| 0 <= j < i ==> av[j] == bv[j],
        decreases b@.len() - i,
    {
        if !component_eq(&a[i], &b[i]) {
            assert(av.take(bv.len() as int)[i as int] != bv[i as int]);
            return false;
        }
        i = i + 1;
    }
    assert(av.take(bv.len() as int) =~= bv);
    true
}

/// The name of the last component, when it is a name.
fn last_name(c: &Vec<Component>) -> (r: Option<&Vec<u8>>)
    ensures
        match r {
            Some(x) => c@.len() > 0 && c@.last()@ == PathPart::Normal(x@),
            None => !(c@.len() > 0 && c@.last()@ is Normal),
        },
{
    if c.len() == 0 {
        return None;
    }
    match &c[c.len() - 1] {
        Component::Normal(x) => Some(x),
        _ => None,
    }
}

/// Whether a filesystem change at `path` concerns the configuration or a
/// share.
fn change_concerns(path: &[u8], config: &Vec<Component>, roots: &Vec<Vec<Component>>, Ghost(
    config_path,
): Ghost<Seq<u8>>, Ghost(share_roots): Ghost<Seq<Seq<u8>>>) -> (r: bool)
    requires
        config@.map_values(|c: Component| c@) == components(config_path),
        roots@.len() == share_roots.len(),
        forall|k: int|
            0 <= k < roots@.len() ==> (#[trigger] roots@[k])@.map_values(|c: Component| c@)
                == components(share_roots[k]),
    ensures
        r == concerns(path@, config_path, share_roots),
{
    let c = components_of(path);
    let same = components_start_with(&c, config) && components_start_with(config, &c);
    assert(same == (components(path@) == components(config_path))) by {
        let cv = c@.map_values(|x: Component| x@);
        let gv = config@.map_values(|x: Component| x@);
        if cv.len() <= gv.len() && gv.len() <= cv.len() {
            assert(cv.take(gv.len() as int) =~= cv);
            assert(gv.take(cv.len() as int) =~= gv);
        }
    }
    if same {
        return true;
    }
    let same_name = match (last_name(&c), last_name(config)) {
        (Some(x), Some(y)) => crate::catalog::bytes_eq(x, y),
        (None, None) => true,
        _ => false,
    };
    if same_name {
        return true;
    }
    let mut k: usize = 0;
    while k < roots.len()
        invariant
            k <= roots@.len(),
            roots@.len() == share_roots.len(),
            c@.map_values(|x: Component| x@) == components(path@),
            forall|j: int|
                0 <= j < roots@.len() ==> (#[trigger] roots@[j])@.map_values(|x: Component| x@)
                    == components(share_roots[j]),
            forall|j: int| 0 <= j < k ==> !path_starts_with(path@, #[trigger] share_roots[j]),
        decreases roots@.len() - k,
    {
        if components_start_with(&c, &roots[k]) {
            assert(path_starts_with(path@, share_roots[k as int]));
            return true;
        }
        k = k + 1;
    }
    false
}

/// Whether a filesystem event with these paths calls for a rescan.
pub fn event_is_relevant(paths: &Vec<Vec<u8>>, config_path: &[u8], share_roots: &Vec<Vec<u8>>) -> (r:
    bool)
    ensures
        r == spec_event_is_relevant(
            paths@.map_values(|p: Vec<u8>| p@),
            config_path@,
            share_roots@.map_values(|p: Vec<u8>| p@),
        ),
{
    let ghost pv = paths@.map_values(|p: Vec<u8>| p@);
    let ghost rv = share_roots@.map_values(|p: Vec<u8>| p@);
    if paths.len() == 0 {
        return true;
    }
    let config = components_of(config_path);
    let mut roots: Vec<Vec<Component>> = Vec::new();
    let mut k: usize = 0;
    while k < share_roots.len()
        invariant
            k <= share_roots@.len(),
            rv == share_roots@.map_values(|p: Vec<u8>| p@),
            roots@.len() == k,
            forall|j: int|
                0 <= j < k ==> (#[trigger] roots@[j])@.map_values(|c: Component| c@) == components(
                    rv[j],
                ),
        decreases share_roots@.len() - k,
    {
        assert(rv[k as int] == share_roots@[k as int]@);
        roots.push(components_of(share_roots[k].as_slice()));
        k = k + 1;
    }
    let mut i: usize = 0;
    while i < paths.len()
        invariant
            i <= pv.len(),
            pv == paths@.map_values(|p: Vec<u8>| p@),
            rv == share_roots@.map_values(|p: Vec<u8>| p@),
            config@.map_values(|c: Component| c@) == components(config_path@),
            roots@.len() == rv.len(),
            forall|j: int|
                0 <= j < roots@.len() ==> (#[trigger] roots@[j])@.map_values(|c: Component| c@)
                    == components(rv[j]),
            forall|j: int| 0 <= j < i ==> !concerns(#[trigger] pv[j], config_path@, rv),
        decreases pv.len() - i,
    {
        assert(pv[i as int] == paths@[i as int]@);
        if change_concerns(paths[i].as_slice(), &config, &roots, Ghost(config_path@), Ghost(rv)) {
            assert(concerns(pv[i as int], config_path@, rv));
            return true;
        }
        i = i + 1;
    }
    false
}

// ---------------------------------------------------------------------------
// Rescans
// ---------------------------------------------------------------------------

/// When the catalog is scanned again, in milliseconds of a monotonic
/// clock: after the settle time that follows the latest change, or, with
/// no change pending, at the periodic fallback.
#[derive(Debug, Clone, Copy, PartialEq, Eq)]
pub struct ScanSchedule {
    pub settle_deadline: Option<u64>,
    pub fallback_deadline: u64,
}

impl ScanSchedule {
    /// The schedule at start-up: a settle deadline only when the first scan
    /// withheld unsettled files.
    pub fn start(now: u64, unsettled_files: usize, settle_ms: u64, rescan_ms: u64) -> (r:
        ScanSchedule)
        requires
            now + settle_ms <= u64::MAX,
            now + rescan_ms <= u64::MAX,
        ensures
            r.settle_deadline == (if unsettled_files > 0 {
                Some((now + settle_ms) as u64)
            } else {
                None
            }),
            r.fallback_deadline == now + rescan_ms,
    {
        ScanSchedule {
            settle_deadline: if unsettled_files > 0 {
                Some(now + settle_ms)
            } else {
                None
            },
            fallback_deadline: now + rescan_ms,
        }
    }

    /// When the next scan is due: a pending settle deadline supersedes the
    /// fallback, so that a file being written is not published half done.
    pub fn next_scan(&self) -> (r: u64)
        ensures
            r == match self.settle_deadline {
                Some(d) => d,
                None => self.fallback_deadline,
            },
    {
        match self.settle_deadline {
            Some(d) => d,
            None => self.fallback_deadline,
        }
    }

    /// Why the next scan runs.
    pub fn trigger(&self) -> (r: &'static str)
        ensures
            r@ == (if self.settle_deadline is Some {
                "filesystem settled"@
            } else {
                "periodic fallback"@
            }),
    {
        if self.settle_deadline.is_some() {
            "filesystem settled"
        } else {
            "periodic fallback"
        }
    }

    /// After a scan at `now`: when it was accepted and still withheld files
    /// (`unsettled`: their number and the new settle time), they are scanned
    /// again once settled; the fallback starts over.
    pub fn scanned(&mut self, now: u64, unsettled: Option<(usize, u64)>, rescan_ms: u64)
        requires
            now + rescan_ms <= u64::MAX,
            unsettled matches Some((_, s)) ==> now + s <= u64::MAX,
        ensures
            final(self).settle_deadline == (match unsettled {
                Some((n, s)) => if n > 0 {
                    Some((now + s) as u64)
                } else {
                    None
                },
                None => None,
            }),
            final(self).fallback_deadline == now + rescan_ms,
    {
        self.settle_deadline = match unsettled {
            Some((n, s)) => if n > 0 {
                Some(now + s)
            } else {
                None
            },
            None => None,
        };
        self.fallback_deadline = now + rescan_ms;
    }

    /// After a relevant change (or a watcher error) at `now`: scan once the
    /// settle time has passed without further changes.
    pub fn changed(&mut self, now: u64, settle_ms: u64)
        requires
            now + settle_ms <= u64::MAX,
        ensures
            final(self).settle_deadline == Some((now + settle_ms) as u64),
            final(self).fallback_deadline == old(self).fallback_deadline,
    {
        self.settle_deadline = Some(now + settle_ms);
    }
}

// ---------------------------------------------------------------------------
// Watches
// ---------------------------------------------------------------------------

/// Whether two paths name the same place, component by component (`Path`'s
/// `==`).
pub open spec fn same_path(a: Seq<u8>, b: Seq<u8>) -> bool {
    components(a) == components(b)
}

/// Whether the configuration asks for a watch on `p`.
pub open spec fn desired(roots: Seq<Seq<u8>>, enabled: bool, p: Seq<u8>) -> bool {
    enabled && exists|k: int| 0 <= k < roots.len() && same_path(#[trigger] roots[k], p)
}

/// Whether `p` is watched with the given recursion already.
pub open spec fn watched_as(watched: Seq<(Seq<u8>, bool)>, p: Seq<u8>, recursive: bool) -> bool {
    exists|j: int| 0 <= j < watched.len() && same_path((#[trigger] watched[j]).0, p) && watched[j].1
        == recursive
}

/// The watches to drop: those the configuration no longer asks for, or asks
/// for with another recursion.
pub open spec fn spec_stale(
    watched: Seq<(Seq<u8>, bool)>,
    roots: Seq<Seq<u8>>,
    enabled: bool,
    recursive: bool,
) -> Seq<Seq<u8>> {
    watched.filter(is_stale(roots, enabled, recursive)).map_values(|w: (Seq<u8>, bool)| w.0)
}

/// Whether a watch is no longer wanted as it is.
pub open spec fn is_stale(roots: Seq<Seq<u8>>, enabled: bool, recursive: bool) -> spec_fn(
    (Seq<u8>, bool),
) -> bool {
    |w: (Seq<u8>, bool)| !(desired(roots, enabled, w.0) && w.1 == recursive)
}

/// What reconciling the watches with the configuration does: the watches to
/// drop, and the share roots to watch (with the configured recursion).
#[derive(Debug)]
pub struct WatchPlan {
    pub stale: Vec<Vec<u8>>,
    pub wanted: Vec<Vec<u8>>,
}

fn same_path_exec(a: &[u8], b: &[u8]) -> (r: bool)
    ensures
        r == same_path(a@, b@),
{
    let x = components_of(a);
    let y = components_of(b);
    let r = components_start_with(&x, &y) && components_start_with(&y, &x);
    proof {
        let xv = x@.map_values(|c: Component| c@);
        let yv = y@.map_values(|c: Component| c@);
        if xv.len() == yv.len() {
            assert(xv.take(yv.len() as int) =~= xv);
            assert(yv.take(xv.len() as int) =~= yv);
        }
    }
    r
}

fn copy_bytes(v: &Vec<u8>) -> (r: Vec<u8>)
    ensures
        r@ == v@,
{
    let mut out: Vec<u8> = Vec::new();
    let mut i: usize = 0;
    while i < v.len()
        invariant
            i <= v@.len(),
            out@ == v@.take(i as int),
        decreases v@.len() - i,
    {
        out.push(v[i]);
        i = i + 1;
    }
    assert(v@.take(v@.len() as int) =~= v@);
    out
}

/// Whether some root names the same place as `p`.
fn among(roots: &Vec<Vec<u8>>, p: &[u8]) -> (r: bool)
    ensures
        r == exists|k: int| 0 <= k < roots@.len() && same_path((#[trigger] roots@[k])@, p@),
{
    let ghost rv = roots@.map_values(|x: Vec<u8>| x@);
    let mut k: usize = 0;
    while k < roots.len()
        invariant
            k <= roots@.len(),
            rv == roots@.map_values(|x: Vec<u8>| x@),
            forall|j: int| 0 <= j < k ==> !same_path((#[trigger] roots@[j])@, p@),
        decreases roots@.len() - k,
    {
        if same_path_exec(roots[k].as_slice(), p) {
            return true;
        }
        k = k + 1;
    }
    false
}

/// Whether `p` is watched with the given recursion.
fn is_watched_as(watched: &Vec<(Vec<u8>, bool)>, p: &[u8], recursive: bool) -> (r: bool)
    ensures
        r == watched_as(watched@.map_values(|w: (Vec<u8>, bool)| (w.0@, w.1)), p@, recursive),
{
    let ghost wv = watched@.map_values(|w: (Vec<u8>, bool)| (w.0@, w.1));
    let mut j: usize = 0;
    while j < watched.len()
        invariant
            j <= watched@.len(),
            wv == watched@.map_values(|w: (Vec<u8>, bool)| (w.0@, w.1)),
            forall|i: int| 0 <= i < j ==> !(same_path((#[trigger] wv[i]).0, p@) && wv[i].1 == recursive),
        decreases watched@.len() - j,
    {
        assert(wv[j as int] == (watched@[j as int].0@, watched@[j as int].1));
        if watched[j].1 == recursive && same_path_exec(watched[j].0.as_slice(), p) {
            return true;
        }
        j = j + 1;
    }
    false
}

/// How the watches must change so that exactly the configured share roots
/// are watched, with the configured recursion, when watching is enabled.
pub fn plan_watches(
    watched: &Vec<(Vec<u8>, bool)>,
    roots: &Vec<Vec<u8>>,
    enabled: bool,
    recursive: bool,
) -> (r: WatchPlan)
    ensures
        r.stale@.map_values(|x: Vec<u8>| x@) == spec_stale(
            watched@.map_values(|w: (Vec<u8>, bool)| (w.0@, w.1)),
            roots@.map_values(|x: Vec<u8>| x@),
            enabled,
            recursive,
        ),
        forall|i: int|
            0 <= i < r.wanted@.len() ==> desired(
                roots@.map_values(|x: Vec<u8>| x@),
                enabled,
                (#[trigger] r.wanted@[i])@,
            ) && !watched_as(
                watched@.map_values(|w: (Vec<u8>, bool)| (w.0@, w.1)),
                r.wanted@[i]@,
                recursive,
            ),
        forall|k: int|
            0 <= k < roots@.len() && enabled && !watched_as(
                watched@.map_values(|w: (Vec<u8>, bool)| (w.0@, w.1)),
                (#[trigger] roots@[k])@,
                recursive,
            ) ==> exists|i: int| 0 <= i < r.wanted@.len() && same_path(#[trigger] r.wanted@[i]@, roots@[k]@),
        forall|i: int, j: int|
            0 <= i < j < r.wanted@.len() ==> !same_path((#[trigger] r.wanted@[i])@, (#[trigger] r.wanted@[j])@),
{
    let ghost wv = watched@.map_values(|w: (Vec<u8>, bool)| (w.0@, w.1));
    let ghost rv = roots@.map_values(|x: Vec<u8>| x@);
    let ghost keep = is_stale(rv, enabled, recursive);
    let mut stale: Vec<Vec<u8>> = Vec::new();
    let mut j: usize = 0;
    while j < watched.len()
        invariant
            j <= watched@.len(),
            wv == watched@.map_values(|w: (Vec<u8>, bool)| (w.0@, w.1)),
            rv == roots@.map_values(|x: Vec<u8>| x@),
            keep == is_stale(rv, enabled, recursive),
            stale@.map_values(|x: Vec<u8>| x@) == wv.take(j as int).filter(keep).map_values(
                |w: (Seq<u8>, bool)| w.0,
            ),
        decreases watched@.len() - j,
    {
        let ghost before = stale@.map_values(|x: Vec<u8>| x@);
        assert(wv[j as int] == (watched@[j as int].0@, watched@[j as int].1));
        let in_roots = among(roots, watched[j].0.as_slice());
        proof {
            let p = wv[j as int].0;
            if in_roots {
                let k = choose|k: int| 0 <= k < roots@.len() && same_path((#[trigger] roots@[k])@, p);
                assert(rv[k] == roots@[k]@);
            } else {
                assert forall|k: int| 0 <= k < rv.len() implies !same_path(#[trigger] rv[k], p) by {
                    assert(rv[k] == roots@[k]@);
                }
            }
            assert(desired(rv, enabled, p) == (enabled && in_roots));
        }
        let wanted_here = enabled && watched[j].1 == recursive && in_roots;
        if !wanted_here {
            stale.push(copy_bytes(&watched[j].0));
            assert(stale@.map_values(|x: Vec<u8>| x@) =~= before.push(wv[j as int].0));
        }
        proof {
            reveal(Seq::filter);
            let t = wv.take(j + 1);
            assert(t.drop_last() =~= wv.take(j as int));
            assert(t.last() == wv[j as int]);
            let f = wv.take(j as int).filter(keep);
            if !wanted_here {
                assert(f.push(wv[j as int]).map_values(|w: (Seq<u8>, bool)| w.0) =~= f.map_values(
                    |w: (Seq<u8>, bool)| w.0,
                ).push(wv[j as int].0));
            }
        }
        j = j + 1;
    }
    assert(wv.take(wv.len() as int) =~= wv);
    let mut wanted: Vec<Vec<u8>> = Vec::new();
    if enabled {
        let mut k: usize = 0;
        while k < roots.len()
            invariant
                enabled,
                k <= roots@.len(),
                wv == watched@.map_values(|w: (Vec<u8>, bool)| (w.0@, w.1)),
                rv == roots@.map_values(|x: Vec<u8>| x@),
                forall|i: int|
                    0 <= i < wanted@.len() ==> desired(rv, enabled, (#[trigger] wanted@[i])@)
                        && !watched_as(wv, wanted@[i]@, recursive),
                forall|m: int|
                    0 <= m < k && !watched_as(wv, (#[trigger] roots@[m])@, recursive) ==> exists|
                        i: int,
                    | 0 <= i < wanted@.len() && same_path(#[trigger] wanted@[i]@, roots@[m]@),
                forall|i: int, n: int|
                    0 <= i < n < wanted@.len() ==> !same_path(
                        (#[trigger] wanted@[i])@,
                        (#[trigger] wanted@[n])@,
                    ),
            decreases roots@.len() - k,
        {
            let root = &roots[k];
            assert(rv[k as int] == root@);
            let already = is_watched_as(watched, root.as_slice(), recursive);
            let repeated = among(&wanted, root.as_slice());
            if !already && !repeated {
                let ghost before = wanted@;
                wanted.push(copy_bytes(root));
                proof {
                    assert(wanted@[wanted@.len() - 1]@ == root@);
                    assert(desired(rv, enabled, root@)) by {
                        assert(same_path(rv[k as int], root@));
                    }
                    assert forall|i: int, n: int|
                        0 <= i < n < wanted@.len() implies !same_path(
                        (#[trigger] wanted@[i])@,
                        (#[trigger] wanted@[n])@,
                    ) by {
                        if n == wanted@.len() - 1 {
                            assert(wanted@[i] == before[i]);
                        } else {
                            assert(wanted@[i] == before[i] && wanted@[n] == before[n]);
                        }
                    }
                    assert forall|m: int|
                        0 <= m < k + 1 && !watched_as(wv, (#[trigger] roots@[m])@, recursive)
                        implies exists|i: int|
                        0 <= i < wanted@.len() && same_path(#[trigger] wanted@[i]@, roots@[m]@) by {
                        if m == k {
                            assert(same_path(wanted@[wanted@.len() - 1]@, roots@[m]@));
                        } else {
                            let i = choose|i: int|
                                0 <= i < before.len() && same_path(#[trigger] before[i]@, roots@[m]@);
                            assert(wanted@[i] == before[i]);
                        }
                    }
                }
            } else {
                proof {
                    if repeated && !already {
                        let i = choose|i: int|
                            0 <= i < wanted@.len() && same_path((#[trigger] wanted@[i])@, root@);
                        assert(same_path(wanted@[i]@, roots@[k as int]@));
                    }
                }
            }
            k = k + 1;
        }
        assert(forall|m: int|
            0 <= m < roots@.len() && !watched_as(wv, (#[trigger] roots@[m])@, recursive) ==> exists|
                i: int,
            | 0 <= i < wanted@.len() && same_path(#[trigger] wanted@[i]@, roots@[m]@));
    }
    let ghost wanted_view = wanted@;
    let r = WatchPlan { stale, wanted };
    assert(r.wanted@ == wanted_view);
    r
}

} // verus!

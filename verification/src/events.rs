//! UPnP eventing (GENA): subscriptions, their renewal, expiry and removal,
//! and the property-change notifications sent to subscribers.
use vstd::prelude::*;

use crate::config::{ipv4_text, push_ipv4, Ipv4Address};
use crate::description::{source_protocol_info, spec_source_protocol_info};
use crate::text::{
    all_digits, chars_of, decimal, digits_value, find_char, first_index, has_prefix, last_index,
    parse_u64, parse_u64_range, parse_unsigned, push_decimal, push_str, rfind_char, starts_with_at,
    str_eq, string_from_range, trim, trim_bounds,
};
use crate::xml::{escape, push_escaped};

verus! {

/// The subscription lifetime granted when a request asks for none (or for
/// one that cannot be read).
pub const DEFAULT_TIMEOUT_SECONDS: u64 = 1800;

/// The longest subscription lifetime granted.
pub const MAX_TIMEOUT_SECONDS: u64 = 86400;

/// The services that publish events.
#[derive(Debug, Clone, Copy, PartialEq, Eq, Structural)]
pub enum EventService {
    ContentDirectory,
    ConnectionManager,
}

/// The answer to an accepted SUBSCRIBE.
#[derive(Debug, Clone)]
pub struct SubscriptionResponse {
    pub sid: String,
    pub timeout_seconds: u64,
    pub is_new: bool,
}

/// Why a SUBSCRIBE or UNSUBSCRIBE was refused.
#[derive(Debug, Clone, Copy, PartialEq, Eq, Structural)]
pub enum SubscriptionError {
    IncompatibleHeaders,
    InvalidCallback,
    UnsafeCallback,
    InvalidNt,
    InvalidSid,
}

impl SubscriptionError {
    /// The error's message.
    pub fn message(&self) -> (r: &'static str)
        ensures
            r@ == match self {
                SubscriptionError::IncompatibleHeaders => "incompatible event subscription headers"@,
                SubscriptionError::InvalidCallback => "missing or invalid callback URL"@,
                SubscriptionError::UnsafeCallback => "callback is not on a permitted private network"@,
                SubscriptionError::InvalidNt => "NT must be upnp:event"@,
                SubscriptionError::InvalidSid => "subscription ID is missing or invalid"@,
            },
    {
        match self {
            SubscriptionError::IncompatibleHeaders => "incompatible event subscription headers",
            SubscriptionError::InvalidCallback => "missing or invalid callback URL",
            SubscriptionError::UnsafeCallback => "callback is not on a permitted private network",
            SubscriptionError::InvalidNt => "NT must be upnp:event",
            SubscriptionError::InvalidSid => "subscription ID is missing or invalid",
        }
    }
}

// ---------------------------------------------------------------------------
// Callback URLs
// ---------------------------------------------------------------------------

/// Where notifications of a subscription are delivered.
#[derive(Debug, Clone)]
pub struct Callback {
    pub address: Ipv4Address,
    pub port: u16,
    /// The request path, starting with `/`.
    pub path: String,
}

/// A callback as plain values.
pub ghost struct CallbackView {
    pub address: Ipv4Address,
    pub port: u16,
    pub path: Seq<char>,
}

impl View for Callback {
    type V = CallbackView;

    open spec fn view(&self) -> CallbackView {
        CallbackView { address: self.address, port: self.port, path: self.path@ }
    }
}

/// One decimal octet of an IPv4 address: one to three digits, no leading
/// zero, at most 255.
pub open spec fn octet_value(s: Seq<char>) -> Option<u8> {
    if 1 <= s.len() <= 3 && all_digits(s) && (s.len() == 1 || s[0] != '0') && digits_value(s)
        <= 255 {
        Some(digits_value(s) as u8)
    } else {
        None
    }
}

/// An IPv4 address in dotted-decimal notation (four octets).
pub open spec fn parse_ipv4(s: Seq<char>) -> Option<Ipv4Address> {
    match first_index(s, '.') {
        Some(i) => {
            let r1 = s.skip(i + 1);
            match first_index(r1, '.') {
                Some(j) => {
                    let r2 = r1.skip(j + 1);
                    match first_index(r2, '.') {
                        Some(k) => match (
                            octet_value(s.take(i)),
                            octet_value(r1.take(j)),
                            octet_value(r2.take(k)),
                            octet_value(r2.skip(k + 1)),
                        ) {
                            (Some(a), Some(b), Some(c), Some(d)) => Some(
                                Ipv4Address { a, b, c, d },
                            ),
                            _ => None,
                        },
                        None => None,
                    }
                },
                None => None,
            }
        },
        None => None,
    }
}

/// The part of a CALLBACK header after `<http://` and before the first `>`
/// (the header's surrounding whitespace ignored).
pub open spec fn callback_target(value: Seq<char>) -> Option<Seq<char>> {
    let v = trim(value);
    if v.len() == 0 || v[0] != '<' {
        None
    } else {
        let rest = v.skip(1);
        match first_index(rest, '>') {
            None => None,
            Some(g) => {
                let url = rest.take(g);
                if !has_prefix(url, "http://"@) {
                    None
                } else {
                    Some(url.skip(7))
                }
            },
        }
    }
}

/// The request path of a callback URL whose authority and path are `ap`:
/// `/` followed by what follows the first `/`, or `/` alone.
pub open spec fn callback_path(ap: Seq<char>) -> Seq<char> {
    match first_index(ap, '/') {
        Some(s) => if ap.skip(s + 1) == "/"@ {
            "/"@
        } else {
            "/"@ + ap.skip(s + 1)
        },
        None => "/"@,
    }
}

/// The callback of a URL whose authority and path are `ap`: an IPv4
/// address and a port before the first `/`, split at the last `:`.
pub open spec fn callback_from_target(ap: Seq<char>) -> Option<CallbackView> {
    let authority = match first_index(ap, '/') {
        Some(s) => ap.take(s),
        None => ap,
    };
    match last_index(authority, ':') {
        None => None,
        Some(c) => match (
            parse_ipv4(authority.take(c)),
            parse_unsigned(authority.skip(c + 1), 65535),
        ) {
            (Some(address), Some(port)) => Some(
                CallbackView { address, port: port as u16, path: callback_path(ap) },
            ),
            _ => None,
        },
    }
}

/// The callback a CALLBACK header names: the first URL in angle brackets,
/// which must be `http://` with an IPv4 address and a port.
pub open spec fn spec_parse_callback(value: Seq<char>) -> Option<CallbackView> {
    match callback_target(value) {
        Some(ap) => callback_from_target(ap),
        None => None,
    }
}

/// The octet in `v[from..to]`.
fn parse_octet(v: &[char], from: usize, to: usize) -> (r: Option<u8>)
    requires
        from <= to <= v@.len(),
    ensures
        r == octet_value(v@.subrange(from as int, to as int)),
{
    let ghost s = v@.subrange(from as int, to as int);
    if to - from < 1 || to - from > 3 {
        return None;
    }
    if v[from] == '+' {
        return None;
    }
    if to - from > 1 && v[from] == '0' {
        return None;
    }
    let n = match parse_u64_range(v, from, to) {
        Some(n) => n,
        None => {
            return None;
        },
    };
    assert(s[0] == v@[from as int]);
    if n > 255 {
        return None;
    }
    Some(n as u8)
}

/// The IPv4 address in `v[from..to]`.
fn parse_address(v: &[char], from: usize, to: usize) -> (r: Option<Ipv4Address>)
    requires
        from <= to <= v@.len(),
    ensures
        r == parse_ipv4(v@.subrange(from as int, to as int)),
{
    let ghost s = v@.subrange(from as int, to as int);
    let i = match find_char(v, from, to, '.') {
        Some(i) => i,
        None => {
            return None;
        },
    };
    let ghost r1 = s.skip(i - from + 1);
    assert(r1 =~= v@.subrange(i + 1, to as int));
    let j = match find_char(v, i + 1, to, '.') {
        Some(j) => j,
        None => {
            return None;
        },
    };
    let ghost r2 = r1.skip(j - i);
    assert(r2 =~= v@.subrange(j + 1, to as int));
    let k = match find_char(v, j + 1, to, '.') {
        Some(k) => k,
        None => {
            return None;
        },
    };
    assert(s.take(i - from) =~= v@.subrange(from as int, i as int));
    assert(r1.take(j - i - 1) =~= v@.subrange(i + 1, j as int));
    assert(r2.take(k - j - 1) =~= v@.subrange(j + 1, k as int));
    assert(r2.skip(k - j) =~= v@.subrange(k + 1, to as int));
    let a = parse_octet(v, from, i);
    let b = parse_octet(v, i + 1, j);
    let c = parse_octet(v, j + 1, k);
    let d = parse_octet(v, k + 1, to);
    match (a, b, c, d) {
        (Some(a), Some(b), Some(c), Some(d)) => Some(Ipv4Address { a, b, c, d }),
        _ => None,
    }
}

/// The bounds in `v` of the callback target of the header `v`.
fn target_bounds(v: &[char]) -> (r: Option<(usize, usize)>)
    ensures
        match callback_target(v@) {
            Some(ap) => r matches Some(b) && b.0 <= b.1 <= v@.len() && v@.subrange(
                b.0 as int,
                b.1 as int,
            ) == ap,
            None => r is None,
        },
{
    let (s, e) = trim_bounds(v, 0, v.len());
    assert(v@.subrange(0, v@.len() as int) =~= v@);
    let ghost t = v@.subrange(s as int, e as int);
    if s == e {
        return None;
    }
    assert(t[0] == v@[s as int]);
    if v[s] != '<' {
        return None;
    }
    let ghost rest = t.skip(1);
    assert(rest =~= v@.subrange(s + 1, e as int));
    let g = match find_char(v, s + 1, e, '>') {
        Some(g) => g,
        None => {
            return None;
        },
    };
    let ghost url = rest.take(g - s - 1);
    assert(url =~= v@.subrange(s + 1, g as int));
    proof {
        reveal_strlit("http://");
    }
    if g - (s + 1) < 7 {
        return None;
    }
    let http = starts_with_at(v, s + 1, "http://");
    assert(has_prefix(v@.skip(s + 1), "http://"@) == has_prefix(url, "http://"@)) by {
        assert(v@.skip(s + 1).take(7) =~= url.take(7));
    }
    if !http {
        return None;
    }
    assert(url.skip(7) =~= v@.subrange(s + 8, g as int));
    Some((s + 8, g))
}

/// The request path of the callback target `v[a0..g]`, whose first `/` is
/// at `slash`.
fn path_of(v: &[char], a0: usize, g: usize, slash: Option<usize>) -> (r: String)
    requires
        a0 <= g <= v@.len(),
        match first_index(v@.subrange(a0 as int, g as int), '/') {
            Some(q) => slash matches Some(p) && p == a0 + q,
            None => slash is None,
        },
        slash matches Some(p) ==> a0 <= p < g,
    ensures
        r@ == callback_path(v@.subrange(a0 as int, g as int)),
{
    let ghost ap = v@.subrange(a0 as int, g as int);
    match slash {
        Some(p) => {
            let tail = string_from_range(v, p + 1, g);
            assert(ap.skip(p - a0 + 1) =~= v@.subrange(p + 1, g as int));
            if str_eq(tail.as_str(), "/") {
                tail
            } else {
                let mut out = String::from_str("/");
                push_str(&mut out, tail.as_str());
                out
            }
        },
        None => String::from_str("/"),
    }
}

/// The callback of the target `v[a0..g]`.
fn callback_from(v: &[char], a0: usize, g: usize) -> (r: Option<Callback>)
    requires
        a0 <= g <= v@.len(),
    ensures
        match callback_from_target(v@.subrange(a0 as int, g as int)) {
            Some(c) => r matches Some(x) && x@ == c,
            None => r is None,
        },
{
    let ghost ap = v@.subrange(a0 as int, g as int);
    let slash = find_char(v, a0, g, '/');
    let a1 = match slash {
        Some(p) => p,
        None => g,
    };
    let ghost authority = v@.subrange(a0 as int, a1 as int);
    assert(authority =~= match first_index(ap, '/') {
        Some(q) => ap.take(q),
        None => ap,
    });
    let colon = match rfind_char(v, a0, a1, ':') {
        Some(c) => c,
        None => {
            return None;
        },
    };
    assert(authority.take(colon - a0) =~= v@.subrange(a0 as int, colon as int));
    assert(authority.skip(colon - a0 + 1) =~= v@.subrange(colon + 1, a1 as int));
    let address = match parse_address(v, a0, colon) {
        Some(x) => x,
        None => {
            return None;
        },
    };
    let port = match parse_u64_range(v, colon + 1, a1) {
        Some(p) => {
            if p > 65535 {
                return None;
            }
            p as u16
        },
        None => {
            return None;
        },
    };
    let path = path_of(v, a0, g, slash);
    Some(Callback { address, port, path })
}

impl Callback {
    /// Reads a CALLBACK header.
    pub fn parse(value: &str) -> (r: Result<Callback, SubscriptionError>)
        ensures
            match spec_parse_callback(value@) {
                Some(c) => r matches Ok(x) && x@ == c,
                None => r == Err::<Callback, SubscriptionError>(SubscriptionError::InvalidCallback),
            },
    {
        let v = chars_of(value);
        match target_bounds(v.as_slice()) {
            Some((a0, g)) => match callback_from(v.as_slice(), a0, g) {
                Some(c) => Ok(c),
                None => Err(SubscriptionError::InvalidCallback),
            },
            None => Err(SubscriptionError::InvalidCallback),
        }
    }
}

/// Whether the interface and the callback address lie in the same RFC 1918
/// private range: 10/8, 172.16/12 or 192.168/16. Loopback, link-local and
/// public addresses are never accepted.
pub open spec fn spec_same_private_network(interface: Ipv4Address, callback: Ipv4Address) -> bool {
    (interface.a == 10 && callback.a == 10) || (interface.a == 172 && 16 <= interface.b <= 31
        && callback.a == 172 && 16 <= callback.b <= 31) || (interface.a == 192 && interface.b
        == 168 && callback.a == 192 && callback.b == 168)
}

/// Whether a callback address may receive notifications from the interface.
pub fn same_private_network(interface: Ipv4Address, callback: Ipv4Address) -> (r: bool)
    ensures
        r == spec_same_private_network(interface, callback),
{
    if interface.a == 10 && callback.a == 10 {
        true
    } else if interface.a == 172 && 16 <= interface.b && interface.b <= 31 && callback.a == 172
        && 16 <= callback.b && callback.b <= 31 {
        true
    } else {
        interface.a == 192 && interface.b == 168 && callback.a == 192 && callback.b == 168
    }
}

/// Being on the same private network does not depend on which side asks.
pub proof fn lemma_same_private_network_symmetric(x: Ipv4Address, y: Ipv4Address)
    ensures
        spec_same_private_network(x, y) == spec_same_private_network(y, x),
{
}

// ---------------------------------------------------------------------------
// Timeouts and bodies
// ---------------------------------------------------------------------------

/// The lifetime a TIMEOUT header asks for (`Second-n`), the default when it
/// asks for none that can be read, kept between 1 second and a day.
pub open spec fn spec_parse_timeout(value: Option<Seq<char>>) -> u64 {
    let requested: nat = match value {
        Some(v) => if has_prefix(v, "Second-"@) {
            match parse_unsigned(v.skip(7), u64::MAX as nat) {
                Some(n) => n,
                None => DEFAULT_TIMEOUT_SECONDS as nat,
            }
        } else {
            DEFAULT_TIMEOUT_SECONDS as nat
        },
        None => DEFAULT_TIMEOUT_SECONDS as nat,
    };
    if requested < 1 {
        1
    } else if requested > MAX_TIMEOUT_SECONDS {
        MAX_TIMEOUT_SECONDS
    } else {
        requested as u64
    }
}

/// The subscription lifetime a TIMEOUT header asks for.
pub fn parse_timeout(value: Option<&str>) -> (r: u64)
    ensures
        r == spec_parse_timeout(
            match value {
                Some(v) => Some(v@),
                None => None,
            },
        ),
        1 <= r <= MAX_TIMEOUT_SECONDS,
{
    let requested = match value {
        Some(v) => {
            let c = chars_of(v);
            proof {
                reveal_strlit("Second-");
            }
            if c.len() >= 7 && starts_with_at(c.as_slice(), 0, "Second-") {
                assert(c@.skip(0) =~= c@);
                assert(c@.subrange(7, c@.len() as int) =~= v@.skip(7));
                match parse_u64_range(c.as_slice(), 7, c.len()) {
                    Some(n) => n,
                    None => DEFAULT_TIMEOUT_SECONDS,
                }
            } else {
                assert(c@.skip(0) =~= c@);
                DEFAULT_TIMEOUT_SECONDS
            }
        },
        None => DEFAULT_TIMEOUT_SECONDS,
    };
    if requested < 1 {
        1
    } else if requested > MAX_TIMEOUT_SECONDS {
        MAX_TIMEOUT_SECONDS
    } else {
        requested
    }
}

/// The property set sent in a notification: the system update ID for the
/// ContentDirectory, the protocol info and connection IDs for the
/// ConnectionManager.
pub open spec fn spec_event_body(service: EventService, update_id: u32) -> Seq<char> {
    "<?xml version=\"1.0\" encoding=\"utf-8\"?><e:propertyset xmlns:e=\"urn:schemas-upnp-org:event-1-0\">"@
        + match service {
        EventService::ContentDirectory => "<e:property><SystemUpdateID>"@ + decimal(
            update_id as nat,
        ) + "</SystemUpdateID></e:property>"@,
        EventService::ConnectionManager => "<e:property><SourceProtocolInfo>"@ + escape(
            spec_source_protocol_info(),
        )
            + "</SourceProtocolInfo></e:property><e:property><SinkProtocolInfo></SinkProtocolInfo></e:property><e:property><CurrentConnectionIDs>0</CurrentConnectionIDs></e:property>"@,
    } + "</e:propertyset>"@
}

/// The property set sent in a notification.
pub fn event_body(service: EventService, update_id: u32) -> (r: String)
    ensures
        r@ == spec_event_body(service, update_id),
{
    let mut body = String::from_str(
        "<?xml version=\"1.0\" encoding=\"utf-8\"?><e:propertyset xmlns:e=\"urn:schemas-upnp-org:event-1-0\">",
    );
    match service {
        EventService::ContentDirectory => {
            push_str(&mut body, "<e:property><SystemUpdateID>");
            push_decimal(&mut body, update_id as u64);
            push_str(&mut body, "</SystemUpdateID></e:property>");
        },
        EventService::ConnectionManager => {
            let source = source_protocol_info();
            push_str(&mut body, "<e:property><SourceProtocolInfo>");
            push_escaped(&mut body, source.as_str());
            push_str(
                &mut body,
                "</SourceProtocolInfo></e:property><e:property><SinkProtocolInfo></SinkProtocolInfo></e:property><e:property><CurrentConnectionIDs>0</CurrentConnectionIDs></e:property>",
            );
        },
    }
    push_str(&mut body, "</e:propertyset>");
    body
}

// ---------------------------------------------------------------------------
// Subscriptions
// ---------------------------------------------------------------------------

impl Callback {
    /// A copy of the callback.
    pub fn duplicate(&self) -> (r: Callback)
        ensures
            r@ == self@,
    {
        Callback { address: self.address, port: self.port, path: self.path.clone() }
    }
}

/// One subscription.
#[derive(Debug, Clone)]
pub struct Subscription {
    pub service: EventService,
    pub callback: Callback,
    /// When it lapses, in milliseconds of the server's monotonic clock.
    pub expires: u64,
    /// The SEQ of its next notification.
    pub sequence: u32,
}

/// A subscription as plain values.
pub ghost struct SubscriptionView {
    pub service: EventService,
    pub callback: CallbackView,
    pub expires: u64,
    pub sequence: u32,
}

impl View for Subscription {
    type V = SubscriptionView;

    open spec fn view(&self) -> SubscriptionView {
        SubscriptionView {
            service: self.service,
            callback: self.callback@,
            expires: self.expires,
            sequence: self.sequence,
        }
    }
}

/// A property-change notification to deliver.
#[derive(Debug)]
pub struct Notification {
    pub callback: Callback,
    pub sid: String,
    pub sequence: u32,
    pub body: String,
}

/// A notification as plain values.
pub ghost struct NotificationView {
    pub callback: CallbackView,
    pub sid: Seq<char>,
    pub sequence: u32,
    pub body: Seq<char>,
}

impl View for Notification {
    type V = NotificationView;

    open spec fn view(&self) -> NotificationView {
        NotificationView {
            callback: self.callback@,
            sid: self.sid@,
            sequence: self.sequence,
            body: self.body@,
        }
    }
}

/// A subscription with its ID.
pub type SubscriptionEntry = (Seq<char>, SubscriptionView);

/// No two subscriptions share an ID.
pub open spec fn distinct_sids(s: Seq<SubscriptionEntry>) -> bool {
    forall|i: int, j: int| 0 <= i < j < s.len() ==> (#[trigger] s[i]).0 != (#[trigger] s[j]).0
}

/// The position of the subscription with ID `sid`.
pub open spec fn sid_index(s: Seq<SubscriptionEntry>, sid: Seq<char>) -> Option<int> {
    if exists|i: int| 0 <= i < s.len() && (#[trigger] s[i]).0 == sid {
        Some(choose|i: int| 0 <= i < s.len() && (#[trigger] s[i]).0 == sid)
    } else {
        None
    }
}

/// Whether a subscription is still live at `now`.
pub open spec fn unexpired(now: u64) -> spec_fn(SubscriptionEntry) -> bool {
    |e: SubscriptionEntry| e.1.expires > now
}

/// The subscriptions still live at `now`, in order.
pub open spec fn pruned(s: Seq<SubscriptionEntry>, now: u64) -> Seq<SubscriptionEntry> {
    s.filter(unexpired(now))
}

/// The SEQ after `q`: it counts up and wraps from the largest value to 1.
pub open spec fn next_sequence(q: u32) -> u32 {
    if q == u32::MAX {
        1
    } else {
        (q + 1) as u32
    }
}

/// When a subscription granted `timeout` seconds at `now` lapses.
pub open spec fn expiry(now: u64, timeout: u64) -> u64 {
    (now + timeout * 1000) as u64
}

/// A SUBSCRIBE's outcome as plain values: the ID, the granted lifetime and
/// whether the subscription is new.
pub open spec fn response_view(r: Result<SubscriptionResponse, SubscriptionError>) -> Result<
    (Seq<char>, u64, bool),
    SubscriptionError,
> {
    match r {
        Ok(x) => Ok((x.sid@, x.timeout_seconds, x.is_new)),
        Err(e) => Err(e),
    }
}

/// The ID a SUBSCRIBE handed out, if any.
pub open spec fn fresh_id(r: Result<SubscriptionResponse, SubscriptionError>) -> Seq<char> {
    match r {
        Ok(x) => x.sid@,
        Err(_) => Seq::empty(),
    }
}

pub open spec fn optional_text(s: Option<&str>) -> Option<Seq<char>> {
    match s {
        Some(x) => Some(x@),
        None => None,
    }
}

/// A renewal: expired subscriptions are dropped first; the subscription
/// must exist for the same service, and its lifetime starts again.
pub open spec fn renewal(
    s: Seq<SubscriptionEntry>,
    service: EventService,
    sid: Seq<char>,
    timeout: u64,
    now: u64,
) -> (Result<(Seq<char>, u64, bool), SubscriptionError>, Seq<SubscriptionEntry>) {
    let p = pruned(s, now);
    match sid_index(p, sid) {
        Some(i) => if p[i].1.service == service {
            (
                Ok((sid, timeout, false)),
                p.update(
                    i,
                    (sid, SubscriptionView { expires: expiry(now, timeout), ..p[i].1 }),
                ),
            )
        } else {
            (Err(SubscriptionError::InvalidSid), p)
        },
        None => (Err(SubscriptionError::InvalidSid), p),
    }
}

/// A SUBSCRIBE: with a SID it is a renewal (and may carry neither CALLBACK
/// nor NT); otherwise NT must be `upnp:event` and the callback must be the
/// requester itself on the interface's private network, and the new
/// subscription, under the ID `fresh`, starts at sequence 0.
pub open spec fn spec_subscribe(
    s: Seq<SubscriptionEntry>,
    interface: Ipv4Address,
    service: EventService,
    sid: Option<Seq<char>>,
    callback: Option<Seq<char>>,
    nt: Option<Seq<char>>,
    timeout_header: Option<Seq<char>>,
    requester: Ipv4Address,
    now: u64,
    fresh: Seq<char>,
) -> (Result<(Seq<char>, u64, bool), SubscriptionError>, Seq<SubscriptionEntry>) {
    let timeout = spec_parse_timeout(timeout_header);
    match sid {
        Some(x) => if callback is Some || nt is Some {
            (Err(SubscriptionError::IncompatibleHeaders), s)
        } else {
            renewal(s, service, x, timeout, now)
        },
        None => if nt != Some("upnp:event"@) {
            (Err(SubscriptionError::InvalidNt), s)
        } else {
            match callback {
                None => (Err(SubscriptionError::InvalidCallback), s),
                Some(c) => match spec_parse_callback(c) {
                    None => (Err(SubscriptionError::InvalidCallback), s),
                    Some(cb) => if cb.address != requester || !spec_same_private_network(
                        interface,
                        cb.address,
                    ) {
                        (Err(SubscriptionError::UnsafeCallback), s)
                    } else {
                        let sub = SubscriptionView {
                            service,
                            callback: cb,
                            expires: expiry(now, timeout),
                            sequence: 0,
                        };
                        (
                            Ok((fresh, timeout, true)),
                            match sid_index(s, fresh) {
                                Some(i) => s.update(i, (fresh, sub)),
                                None => s.push((fresh, sub)),
                            },
                        )
                    },
                },
            }
        },
    }
}

/// An UNSUBSCRIBE: it may carry neither CALLBACK nor NT, and must name a
/// subscription to the same service, which is removed.
pub open spec fn spec_unsubscribe(
    s: Seq<SubscriptionEntry>,
    service: EventService,
    sid: Option<Seq<char>>,
    callback: Option<Seq<char>>,
    nt: Option<Seq<char>>,
) -> (Result<(), SubscriptionError>, Seq<SubscriptionEntry>) {
    if callback is Some || nt is Some {
        (Err(SubscriptionError::IncompatibleHeaders), s)
    } else {
        match sid {
            None => (Err(SubscriptionError::InvalidSid), s),
            Some(x) => match sid_index(s, x) {
                Some(i) => if s[i].1.service == service {
                    (Ok(()), s.remove(i))
                } else {
                    (Err(SubscriptionError::InvalidSid), s)
                },
                None => (Err(SubscriptionError::InvalidSid), s),
            },
        }
    }
}

/// The notification for a subscription, carrying its current SEQ.
pub open spec fn notification_of(e: SubscriptionEntry, update_id: u32) -> NotificationView {
    NotificationView {
        callback: e.1.callback,
        sid: e.0,
        sequence: e.1.sequence,
        body: spec_event_body(e.1.service, update_id),
    }
}

/// SEQ counts up and never comes back to 0, which only the first
/// notification of a subscription carries.
pub proof fn lemma_next_sequence(q: u32)
    ensures
        next_sequence(q) != 0,
        q < u32::MAX ==> next_sequence(q) == q + 1,
{
}

/// A subscription after a notification was made for it.
pub open spec fn notified(e: SubscriptionEntry) -> SubscriptionEntry {
    (e.0, SubscriptionView { sequence: next_sequence(e.1.sequence), ..e.1 })
}

/// Whether a subscription is to the ContentDirectory.
pub open spec fn is_content_directory() -> spec_fn(SubscriptionEntry) -> bool {
    |e: SubscriptionEntry| e.1.service == EventService::ContentDirectory
}

/// A subscription after a content change: ContentDirectory subscriptions
/// have been notified.
pub open spec fn after_change(e: SubscriptionEntry) -> SubscriptionEntry {
    if e.1.service == EventService::ContentDirectory {
        notified(e)
    } else {
        e
    }
}

/// The notifications of a content change: one per ContentDirectory
/// subscription, in order.
pub open spec fn change_notifications(p: Seq<SubscriptionEntry>, update_id: u32) -> Seq<NotificationView> {
    p.filter(is_content_directory()).map_values(|e: SubscriptionEntry| notification_of(e, update_id))
}

/// A content change: expired subscriptions are dropped, and every
/// ContentDirectory subscriber is notified, in order.
pub open spec fn content_changed(s: Seq<SubscriptionEntry>, now: u64, update_id: u32) -> (
    Seq<NotificationView>,
    Seq<SubscriptionEntry>,
) {
    let p = pruned(s, now);
    (change_notifications(p, update_id), p.map_values(|e: SubscriptionEntry| after_change(e)))
}

/// The first notification of a new subscriber: the subscription, if it
/// exists, is notified.
pub open spec fn initial_notification(s: Seq<SubscriptionEntry>, sid: Seq<char>, update_id: u32) -> (
    Option<NotificationView>,
    Seq<SubscriptionEntry>,
) {
    match sid_index(s, sid) {
        Some(i) => (Some(notification_of(s[i], update_id)), s.update(i, notified(s[i]))),
        None => (None, s),
    }
}

/// The subscriptions of an interface.
#[derive(Debug)]
pub struct EventManager {
    subscriptions: Vec<(String, Subscription)>,
    interface: Ipv4Address,
}

/// `uuid::Uuid::new_v4()` in its `Display` form: a random version-4 UUID,
/// hyphenated. Being random, only its length is claimed.
#[verifier::external_body]
fn random_uuid() -> (r: String)
    ensures
        r@.len() == 36,
{
    uuid::Uuid::new_v4().to_string()
}

impl EventManager {
    /// The subscriptions, in the order they were made.
    pub closed spec fn entries(&self) -> Seq<SubscriptionEntry> {
        self.subscriptions@.map_values(|p: (String, Subscription)| (p.0@, p.1@))
    }

    /// The interface notifications are sent from.
    pub closed spec fn interface(&self) -> Ipv4Address {
        self.interface
    }

    /// The manager's invariant: subscription IDs are unique.
    pub open spec fn wf(&self) -> bool {
        distinct_sids(self.entries())
    }

    /// No subscriptions yet.
    pub fn new(interface: Ipv4Address) -> (r: EventManager)
        ensures
            r.wf(),
            r.entries() == Seq::<SubscriptionEntry>::empty(),
            r.interface() == interface,
    {
        let r = EventManager { subscriptions: Vec::new(), interface };
        assert(r.entries() =~= Seq::<SubscriptionEntry>::empty());
        r
    }

    /// The position of the subscription `sid`.
    fn find(&self, sid: &str) -> (r: Option<usize>)
        requires
            self.wf(),
        ensures
            r matches Some(i) ==> i < self.entries().len() && self.entries()[i as int].0 == sid@
                && sid_index(self.entries(), sid@) == Some(i as int),
            r is None ==> sid_index(self.entries(), sid@) is None,
    {
        let ghost s = self.entries();
        let mut i: usize = 0;
        while i < self.subscriptions.len()
            invariant
                s == self.entries(),
                distinct_sids(s),
                i <= s.len(),
                forall|j: int| 0 <= j < i ==> (#[trigger] s[j]).0 != sid@,
            decreases s.len() - i,
        {
            assert(s[i as int].0 == self.subscriptions@[i as int].0@);
            if str_eq(self.subscriptions[i].0.as_str(), sid) {
                proof {
                    lemma_sid_index(s, sid@, i as int);
                }
                return Some(i);
            }
            i = i + 1;
        }
        None
    }

    /// Drops the subscriptions that have lapsed at `now`.
    fn prune(&mut self, now: u64)
        requires
            old(self).wf(),
        ensures
            final(self).wf(),
            final(self).entries() == pruned(old(self).entries(), now),
            final(self).interface() == old(self).interface(),
    {
        let ghost s = self.entries();
        let mut kept: Vec<(String, Subscription)> = Vec::new();
        let mut i: usize = 0;
        while i < self.subscriptions.len()
            invariant
                s == self.entries(),
                distinct_sids(s),
                i <= s.len(),
                kept@.map_values(|p: (String, Subscription)| (p.0@, p.1@)) == s.take(
                    i as int,
                ).filter(unexpired(now)),
            decreases s.len() - i,
        {
            let ghost before = kept@.map_values(|p: (String, Subscription)| (p.0@, p.1@));
            assert(s[i as int] == (self.subscriptions@[i as int].0@, self.subscriptions@[i as int].1@));
            if self.subscriptions[i].1.expires > now {
                let key = self.subscriptions[i].0.clone();
                let sub = self.subscriptions[i].1.duplicate();
                kept.push((key, sub));
                assert(kept@.map_values(|p: (String, Subscription)| (p.0@, p.1@)) =~= before.push(
                    s[i as int],
                ));
            }
            proof {
                reveal(Seq::filter);
                let t = s.take(i + 1);
                assert(t.drop_last() =~= s.take(i as int));
                assert(t.last() == s[i as int]);
            }
            i = i + 1;
        }
        assert(s.take(s.len() as int) =~= s);
        self.subscriptions = kept;
        proof {
            lemma_filter_distinct(s, unexpired(now));
        }
    }

    /// Gives subscription `i` the sequence after its current one, and makes
    /// its notification.
    fn notify_at(&mut self, i: usize, update_id: u32) -> (r: Notification)
        requires
            old(self).wf(),
            i < old(self).entries().len(),
        ensures
            final(self).wf(),
            final(self).interface() == old(self).interface(),
            final(self).entries() == old(self).entries().update(
                i as int,
                notified(old(self).entries()[i as int]),
            ),
            r@ == notification_of(old(self).entries()[i as int], update_id),
    {
        let ghost s = self.entries();
        assert(s[i as int] == (self.subscriptions@[i as int].0@, self.subscriptions@[i as int].1@));
        let sid = self.subscriptions[i].0.clone();
        let key = self.subscriptions[i].0.clone();
        let old_sub = &self.subscriptions[i].1;
        let sequence = old_sub.sequence;
        let next = if sequence == u32::MAX {
            1
        } else {
            sequence + 1
        };
        let note = Notification {
            callback: old_sub.callback.duplicate(),
            sid,
            sequence,
            body: event_body(old_sub.service, update_id),
        };
        let sub = Subscription {
            service: old_sub.service,
            callback: old_sub.callback.duplicate(),
            expires: old_sub.expires,
            sequence: next,
        };
        self.subscriptions.set(i, (key, sub));
        proof {
            assert(self.entries() =~= s.update(i as int, notified(s[i as int])));
            assert forall|a: int, b: int| 0 <= a < b < self.entries().len() implies (
            #[trigger] self.entries()[a]).0 != (#[trigger] self.entries()[b]).0 by {
                assert(self.entries()[a].0 == s[a].0 && self.entries()[b].0 == s[b].0);
            }
        }
        note
    }

    /// Handles a SUBSCRIBE from `requester` at `now` (milliseconds of the
    /// server's monotonic clock), given its SID, CALLBACK, NT and TIMEOUT
    /// headers.
    pub fn subscribe(
        &mut self,
        service: EventService,
        sid: Option<&str>,
        callback: Option<&str>,
        nt: Option<&str>,
        timeout: Option<&str>,
        requester: Ipv4Address,
        now: u64,
    ) -> (r: Result<SubscriptionResponse, SubscriptionError>)
        requires
            old(self).wf(),
            now + MAX_TIMEOUT_SECONDS * 1000 <= u64::MAX,
        ensures
            final(self).wf(),
            final(self).interface() == old(self).interface(),
            (response_view(r), final(self).entries()) == spec_subscribe(
                old(self).entries(),
                old(self).interface(),
                service,
                optional_text(sid),
                optional_text(callback),
                optional_text(nt),
                optional_text(timeout),
                requester,
                now,
                fresh_id(r),
            ),
            r matches Ok(x) ==> (x.is_new ==> x.sid@.len() == 41 && has_prefix(x.sid@, "uuid:"@)),
    {
        let timeout_seconds = parse_timeout(timeout);
        let expires = now + timeout_seconds * 1000;
        match sid {
            Some(sid) => {
                if callback.is_some() || nt.is_some() {
                    return Err(SubscriptionError::IncompatibleHeaders);
                }
                self.prune(now);
                let ghost p = self.entries();
                let i = match self.find(sid) {
                    Some(i) => i,
                    None => {
                        return Err(SubscriptionError::InvalidSid);
                    },
                };
                assert(p[i as int] == (self.subscriptions@[i as int].0@, self.subscriptions@[i as int].1@));
                if self.subscriptions[i].1.service != service {
                    return Err(SubscriptionError::InvalidSid);
                }
                let key = self.subscriptions[i].0.clone();
                let old_sub = &self.subscriptions[i].1;
                let sub = Subscription {
                    service: old_sub.service,
                    callback: old_sub.callback.duplicate(),
                    expires,
                    sequence: old_sub.sequence,
                };
                self.subscriptions.set(i, (key, sub));
                proof {
                    assert(p[i as int].0 == sid@);
                    assert(self.entries() =~= p.update(
                        i as int,
                        (sid@, SubscriptionView { expires: expiry(now, timeout_seconds), ..p[i as int].1 }),
                    ));
                    assert forall|a: int, b: int| 0 <= a < b < self.entries().len() implies (
                    #[trigger] self.entries()[a]).0 != (#[trigger] self.entries()[b]).0 by {
                        assert(self.entries()[a].0 == p[a].0 && self.entries()[b].0 == p[b].0);
                    }
                }
                Ok(SubscriptionResponse { sid: String::from_str(sid), timeout_seconds, is_new: false })
            },
            None => {
                let is_event = match nt {
                    Some(v) => str_eq(v, "upnp:event"),
                    None => false,
                };
                if !is_event {
                    return Err(SubscriptionError::InvalidNt);
                }
                let cb = match callback {
                    Some(c) => match Callback::parse(c) {
                        Ok(cb) => cb,
                        Err(e) => {
                            return Err(e);
                        },
                    },
                    None => {
                        return Err(SubscriptionError::InvalidCallback);
                    },
                };
                if cb.address != requester || !same_private_network(self.interface, cb.address) {
                    return Err(SubscriptionError::UnsafeCallback);
                }
                let id = random_uuid();
                let mut new_sid = String::from_str("uuid:");
                push_str(&mut new_sid, id.as_str());
                proof {
                    reveal_strlit("uuid:");
                    assert(new_sid@.take(5) =~= "uuid:"@);
                }
                let ghost s = self.entries();
                let sub = Subscription { service, callback: cb, expires, sequence: 0 };
                let ghost subv = sub@;
                let key = new_sid.clone();
                match self.find(new_sid.as_str()) {
                    Some(i) => {
                        self.subscriptions.set(i, (key, sub));
                        proof {
                            assert(self.entries() =~= s.update(i as int, (new_sid@, subv)));
                            assert forall|a: int, b: int| 0 <= a < b < self.entries().len() implies (
                            #[trigger] self.entries()[a]).0 != (#[trigger] self.entries()[b]).0 by {
                                assert(self.entries()[a].0 == s[a].0 && self.entries()[b].0 == s[b].0);
                            }
                        }
                    },
                    None => {
                        self.subscriptions.push((key, sub));
                        proof {
                            assert(self.entries() =~= s.push((new_sid@, subv)));
                            assert forall|a: int, b: int| 0 <= a < b < self.entries().len() implies (
                            #[trigger] self.entries()[a]).0 != (#[trigger] self.entries()[b]).0 by {
                                if b == s.len() {
                                    assert(self.entries()[a] == s[a]);
                                    assert(s[a].0 != new_sid@);
                                } else {
                                    assert(self.entries()[a] == s[a] && self.entries()[b] == s[b]);
                                }
                            }
                        }
                    },
                }
                Ok(SubscriptionResponse { sid: new_sid, timeout_seconds, is_new: true })
            },
        }
    }

    /// Handles an UNSUBSCRIBE, given its SID, CALLBACK and NT headers.
    pub fn unsubscribe(
        &mut self,
        service: EventService,
        sid: Option<&str>,
        callback: Option<&str>,
        nt: Option<&str>,
    ) -> (r: Result<(), SubscriptionError>)
        requires
            old(self).wf(),
        ensures
            final(self).wf(),
            final(self).interface() == old(self).interface(),
            (r, final(self).entries()) == spec_unsubscribe(
                old(self).entries(),
                service,
                optional_text(sid),
                optional_text(callback),
                optional_text(nt),
            ),
    {
        if callback.is_some() || nt.is_some() {
            return Err(SubscriptionError::IncompatibleHeaders);
        }
        let sid = match sid {
            Some(x) => x,
            None => {
                return Err(SubscriptionError::InvalidSid);
            },
        };
        let ghost s = self.entries();
        let i = match self.find(sid) {
            Some(i) => i,
            None => {
                return Err(SubscriptionError::InvalidSid);
            },
        };
        assert(s[i as int] == (self.subscriptions@[i as int].0@, self.subscriptions@[i as int].1@));
        if self.subscriptions[i].1.service != service {
            return Err(SubscriptionError::InvalidSid);
        }
        let _removed = self.subscriptions.remove(i);
        proof {
            assert(self.entries() =~= s.remove(i as int));
            assert forall|a: int, b: int| 0 <= a < b < self.entries().len() implies (
            #[trigger] self.entries()[a]).0 != (#[trigger] self.entries()[b]).0 by {
                let a0 = if a < i { a } else { a + 1 };
                let b0 = if b < i { b } else { b + 1 };
                assert(self.entries()[a] == s[a0] && self.entries()[b] == s[b0]);
            }
        }
        Ok(())
    }

    /// The first notification of the subscription `sid`, if it exists.
    pub fn notify_initial(&mut self, sid: &str, update_id: u32) -> (r: Option<Notification>)
        requires
            old(self).wf(),
        ensures
            final(self).wf(),
            final(self).interface() == old(self).interface(),
            (match r {
                Some(n) => Some(n@),
                None => None,
            }, final(self).entries()) == initial_notification(old(self).entries(), sid@, update_id),
    {
        match self.find(sid) {
            Some(i) => Some(self.notify_at(i, update_id)),
            None => None,
        }
    }

    /// The notifications of a content change at `now`, after dropping the
    /// lapsed subscriptions.
    pub fn notify_content_changed(&mut self, update_id: u32, now: u64) -> (r: Vec<Notification>)
        requires
            old(self).wf(),
        ensures
            final(self).wf(),
            final(self).interface() == old(self).interface(),
            (r@.map_values(|n: Notification| n@), final(self).entries()) == content_changed(
                old(self).entries(),
                now,
                update_id,
            ),
    {
        self.prune(now);
        let ghost p = self.entries();
        let mut out: Vec<Notification> = Vec::new();
        let mut i: usize = 0;
        while i < self.subscriptions.len()
            invariant
                self.wf(),
                self.interface() == old(self).interface(),
                self.entries().len() == p.len(),
                i <= p.len(),
                forall|k: int| 0 <= k < i ==> #[trigger] self.entries()[k] == after_change(p[k]),
                forall|k: int| i <= k < p.len() ==> #[trigger] self.entries()[k] == p[k],
                out@.map_values(|n: Notification| n@) == change_notifications(p.take(i as int), update_id),
            decreases p.len() - i,
        {
            let ghost before = out@.map_values(|n: Notification| n@);
            let ghost e = p[i as int];
            assert(self.entries()[i as int] == (self.subscriptions@[i as int].0@, self.subscriptions@[i as int].1@));
            if self.subscriptions[i].1.service == EventService::ContentDirectory {
                let n = self.notify_at(i, update_id);
                out.push(n);
                assert(out@.map_values(|n: Notification| n@) =~= before.push(notification_of(e, update_id)));
            }
            proof {
                reveal(Seq::filter);
                let t = p.take(i + 1);
                assert(t.drop_last() =~= p.take(i as int));
                assert(t.last() == e);
                assert(t.filter(is_content_directory()).map_values(|x: SubscriptionEntry| notification_of(x, update_id))
                    =~= if e.1.service == EventService::ContentDirectory {
                        p.take(i as int).filter(is_content_directory()).map_values(|x: SubscriptionEntry| notification_of(x, update_id)).push(notification_of(e, update_id))
                    } else {
                        p.take(i as int).filter(is_content_directory()).map_values(|x: SubscriptionEntry| notification_of(x, update_id))
                    });
            }
            i = i + 1;
        }
        assert(p.take(p.len() as int) =~= p);
        assert(self.entries() =~= p.map_values(|e: SubscriptionEntry| after_change(e)));
        out
    }
}

/// With unique IDs, the position of an ID is where it occurs.
pub proof fn lemma_sid_index(s: Seq<SubscriptionEntry>, sid: Seq<char>, i: int)
    requires
        distinct_sids(s),
        0 <= i < s.len(),
        s[i].0 == sid,
    ensures
        sid_index(s, sid) == Some(i),
{
    let k = choose|k: int| 0 <= k < s.len() && (#[trigger] s[k]).0 == sid;
    if k != i {
        if k < i {
            assert(s[k].0 != s[i].0);
        } else {
            assert(s[i].0 != s[k].0);
        }
    }
}

/// A subscriber that has just been granted a new subscription can cancel it
/// with its ID, and cancelling leaves the subscriptions as they were.
pub proof fn lemma_unsubscribe_undoes_subscribe(
    s: Seq<SubscriptionEntry>,
    interface: Ipv4Address,
    service: EventService,
    callback: Option<Seq<char>>,
    timeout: Option<Seq<char>>,
    requester: Ipv4Address,
    now: u64,
    fresh: Seq<char>,
)
    requires
        distinct_sids(s),
        sid_index(s, fresh) is None,
        spec_subscribe(
            s,
            interface,
            service,
            None,
            callback,
            Some("upnp:event"@),
            timeout,
            requester,
            now,
            fresh,
        ).0 is Ok,
    ensures
        spec_unsubscribe(
            spec_subscribe(
                s,
                interface,
                service,
                None,
                callback,
                Some("upnp:event"@),
                timeout,
                requester,
                now,
                fresh,
            ).1,
            service,
            Some(fresh),
            None,
            None,
        ) == (Ok::<(), SubscriptionError>(()), s),
{
    let t = spec_subscribe(
        s,
        interface,
        service,
        None,
        callback,
        Some("upnp:event"@),
        timeout,
        requester,
        now,
        fresh,
    ).1;
    assert(t.len() == s.len() + 1);
    assert(t == s.push(t.last()));
    assert forall|a: int, b: int| 0 <= a < b < t.len() implies (#[trigger] t[a]).0 != (
    #[trigger] t[b]).0 by {
        if b == s.len() {
            assert(t[a] == s[a]);
            assert(!(s[a].0 == fresh));
        } else {
            assert(t[a] == s[a] && t[b] == s[b]);
        }
    }
    lemma_sid_index(t, fresh, s.len() as int);
    assert(t.remove(s.len() as int) =~= s);
}

/// Whether notification `i` of `n` was made for a ContentDirectory
/// subscription of `s` that is live at `now`, with the SEQ it had.
pub open spec fn made_for_live_subscriber(
    n: Seq<NotificationView>,
    s: Seq<SubscriptionEntry>,
    now: u64,
    update_id: u32,
    i: int,
) -> bool {
    exists|k: int|
        #![trigger s[k]]
        0 <= k < s.len() && s[k].1.expires > now && s[k].1.service
            == EventService::ContentDirectory && n[i] == notification_of(s[k], update_id)
}

proof fn lemma_change_notification_source(
    s: Seq<SubscriptionEntry>,
    now: u64,
    update_id: u32,
    i: int,
)
    requires
        0 <= i < content_changed(s, now, update_id).0.len(),
    ensures
        made_for_live_subscriber(content_changed(s, now, update_id).0, s, now, update_id, i),
{
    broadcast use vstd::seq_lib::group_filter_ensures;

    let p = pruned(s, now);
    let c = p.filter(is_content_directory());
    let e = c[i];
    assert(is_content_directory()(e));
    p.lemma_filter_contains_rev(is_content_directory(), e);
    assert(c.contains(e));
    s.lemma_filter_contains_rev(unexpired(now), e);
    let j = choose|j: int| 0 <= j < p.len() && p[j] == e;
    assert(unexpired(now)(p[j]));
    let k = choose|k: int| 0 <= k < s.len() && s[k] == e;
    assert(content_changed(s, now, update_id).0[i] == notification_of(s[k], update_id));
}

/// A content change notifies only ContentDirectory subscribers whose
/// subscription is still live, each with the SEQ it had.
pub proof fn lemma_change_notifies_live_subscribers(
    s: Seq<SubscriptionEntry>,
    now: u64,
    update_id: u32,
)
    ensures
        forall|i: int|
            0 <= i < content_changed(s, now, update_id).0.len() ==> #[trigger] made_for_live_subscriber(
                content_changed(s, now, update_id).0,
                s,
                now,
                update_id,
                i,
            ),
{
    assert forall|i: int| 0 <= i < content_changed(s, now, update_id).0.len() implies #[trigger] made_for_live_subscriber(
        content_changed(s, now, update_id).0,
        s,
        now,
        update_id,
        i,
    ) by {
        lemma_change_notification_source(s, now, update_id, i);
    }
}

/// Keeping some subscriptions keeps their IDs unique.
proof fn lemma_filter_distinct(s: Seq<SubscriptionEntry>, f: spec_fn(SubscriptionEntry) -> bool)
    requires
        distinct_sids(s),
    ensures
        distinct_sids(s.filter(f)),
    decreases s.len(),
{
    reveal(Seq::filter);
    if s.len() > 0 {
        let t = s.drop_last();
        assert(distinct_sids(t));
        lemma_filter_distinct(t, f);
        if f(s.last()) {
            let ft = t.filter(f);
            assert forall|k: int| 0 <= k < ft.len() implies (#[trigger] ft[k]).0 != s.last().0 by {
                t.lemma_filter_contains_rev(f, ft[k]);
                assert(ft.contains(ft[k]));
                let j = choose|j: int| 0 <= j < t.len() && t[j] == ft[k];
                assert(s[j] == t[j]);
                assert(s[j].0 != s[s.len() - 1].0);
            }
            let r = ft.push(s.last());
            assert forall|a: int, b: int| 0 <= a < b < r.len() implies (#[trigger] r[a]).0 != (
            #[trigger] r[b]).0 by {
                if b == r.len() - 1 {
                    assert(r[a] == ft[a]);
                } else {
                    assert(r[a] == ft[a] && r[b] == ft[b]);
                }
            }
        }
    }
}

impl Subscription {
    /// A copy of the subscription.
    pub fn duplicate(&self) -> (r: Subscription)
        ensures
            r@ == self@,
    {
        Subscription {
            service: self.service,
            callback: self.callback.duplicate(),
            expires: self.expires,
            sequence: self.sequence,
        }
    }
}

/// The HTTP request that delivers a notification: NOTIFY to the callback's
/// path and host, with the event headers, the SID and SEQ, and the body.
pub open spec fn spec_notify_request(n: NotificationView) -> Seq<char> {
    "NOTIFY "@ + n.callback.path + " HTTP/1.1\r\nHOST: "@ + ipv4_text(n.callback.address) + ":"@
        + decimal(n.callback.port as nat)
        + "\r\nCONTENT-TYPE: text/xml; charset=\"utf-8\"\r\nCONTENT-LENGTH: "@ + decimal(
        vstd::utf8::encode_utf8(n.body).len(),
    ) + "\r\nNT: upnp:event\r\nNTS: upnp:propchange\r\nSID: "@ + n.sid + "\r\nSEQ: "@ + decimal(
        n.sequence as nat,
    ) + "\r\nCONNECTION: close\r\n\r\n"@ + n.body
}

impl Notification {
    /// The HTTP request that delivers the notification.
    pub fn request(&self) -> (r: String)
        requires
            vstd::utf8::encode_utf8(self.body@).len() <= usize::MAX,
        ensures
            r@ == spec_notify_request(self@),
    {
        let mut out = String::from_str("NOTIFY ");
        push_str(&mut out, self.callback.path.as_str());
        push_str(&mut out, " HTTP/1.1\r\nHOST: ");
        push_ipv4(&mut out, self.callback.address);
        push_str(&mut out, ":");
        push_decimal(&mut out, self.callback.port as u64);
        push_str(&mut out, "\r\nCONTENT-TYPE: text/xml; charset=\"utf-8\"\r\nCONTENT-LENGTH: ");
        push_decimal(&mut out, self.body.as_str().len() as u64);
        push_str(&mut out, "\r\nNT: upnp:event\r\nNTS: upnp:propchange\r\nSID: ");
        push_str(&mut out, self.sid.as_str());
        push_str(&mut out, "\r\nSEQ: ");
        push_decimal(&mut out, self.sequence as u64);
        push_str(&mut out, "\r\nCONNECTION: close\r\n\r\n");
        push_str(&mut out, self.body.as_str());
        out
    }
}

} // verus!

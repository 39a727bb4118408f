//! SSDP discovery: the advertisements of the device and its services,
//! search requests and the answers to them.
use vstd::prelude::*;

use crate::config::{ipv4_text, push_ipv4, Ipv4Address};
use crate::description::{CONNECTION_MANAGER_TYPE, CONTENT_DIRECTORY_TYPE, MEDIA_SERVER_TYPE};
use crate::text::{
    ascii_lower, ascii_lower_seq, chars_of, decimal, eq_ignore_ascii_case, eq_ignore_case_str,
    chars_eq_ignore_ascii_case,
    first_index, find_char, parse_u64_range, parse_unsigned, push_decimal, push_str,
    string_from_range, trim, trim_bounds, trim_bounds_in, trim_in, TrimSet,
};

verus! {

#[verifier::external_type_specification]
#[verifier::external_body]
pub struct ExIoError(std::io::Error);

/// The SSDP port.
pub const SSDP_PORT: u16 = 1900;

/// The SSDP multicast group, 239.255.255.250.
pub fn multicast_address() -> (r: Ipv4Address)
    ensures
        r == (Ipv4Address { a: 239, b: 255, c: 255, d: 250 }),
{
    Ipv4Address { a: 239, b: 255, c: 255, d: 250 }
}

/// Why SSDP could not start.
#[derive(Debug)]
pub enum SsdpError {
    /// The socket could not be configured.
    Socket(std::io::Error),
}

/// What the device announces: a search target and the unique service name
/// answered for it.
#[derive(Debug, Clone)]
pub struct Advertisement {
    pub target: String,
    pub usn: String,
}

impl View for Advertisement {
    type V = (Seq<char>, Seq<char>);

    open spec fn view(&self) -> (Seq<char>, Seq<char>) {
        (self.target@, self.usn@)
    }
}

impl Advertisement {
    /// A copy of the advertisement.
    pub fn duplicate(&self) -> (r: Advertisement)
        ensures
            r@ == self@,
    {
        Advertisement { target: self.target.clone(), usn: self.usn.clone() }
    }
}

/// The advertisements of a device: the root device, the device itself, the
/// MediaServer type and its two services.
pub open spec fn spec_advertisements(udn: Seq<char>) -> Seq<(Seq<char>, Seq<char>)> {
    seq![
        ("upnp:rootdevice"@, udn + "::upnp:rootdevice"@),
        (udn, udn),
        (MEDIA_SERVER_TYPE@, udn + "::"@ + MEDIA_SERVER_TYPE@),
        (CONTENT_DIRECTORY_TYPE@, udn + "::"@ + CONTENT_DIRECTORY_TYPE@),
        (CONNECTION_MANAGER_TYPE@, udn + "::"@ + CONNECTION_MANAGER_TYPE@),
    ]
}

fn unique_name(udn: &str, target: &str) -> (r: String)
    ensures
        r@ == udn@ + "::"@ + target@,
{
    let mut usn = String::from_str(udn);
    push_str(&mut usn, "::");
    push_str(&mut usn, target);
    usn
}

/// The advertisements of the device `udn`.
pub fn advertisements(udn: &str) -> (r: Vec<Advertisement>)
    ensures
        r@.map_values(|a: Advertisement| a@) == spec_advertisements(udn@),
{
    let mut r: Vec<Advertisement> = Vec::new();
    let mut root = String::from_str(udn);
    push_str(&mut root, "::upnp:rootdevice");
    r.push(Advertisement { target: String::from_str("upnp:rootdevice"), usn: root });
    r.push(Advertisement { target: String::from_str(udn), usn: String::from_str(udn) });
    r.push(
        Advertisement {
            target: String::from_str(MEDIA_SERVER_TYPE),
            usn: unique_name(udn, MEDIA_SERVER_TYPE),
        },
    );
    r.push(
        Advertisement {
            target: String::from_str(CONTENT_DIRECTORY_TYPE),
            usn: unique_name(udn, CONTENT_DIRECTORY_TYPE),
        },
    );
    r.push(
        Advertisement {
            target: String::from_str(CONNECTION_MANAGER_TYPE),
            usn: unique_name(udn, CONNECTION_MANAGER_TYPE),
        },
    );
    assert(r@.map_values(|a: Advertisement| a@) =~= spec_advertisements(udn@));
    r
}

// ---------------------------------------------------------------------------
// Searches
// ---------------------------------------------------------------------------

/// An M-SEARCH request: what it looks for, and the seconds within which
/// answers are spread.
#[derive(Debug, Clone, PartialEq, Eq)]
pub struct Search {
    pub target: String,
    pub mx_seconds: u64,
}

/// Where a line break (`\r\n`) starts in `s`.
pub open spec fn first_crlf(s: Seq<char>) -> Option<int>
    decreases s.len(),
{
    if s.len() < 2 {
        None
    } else if s[0] == '\r' && s[1] == '\n' {
        Some(0)
    } else {
        match first_crlf(s.drop_first()) {
            Some(i) => Some(i + 1),
            None => None,
        }
    }
}

pub proof fn lemma_first_crlf_bounds(s: Seq<char>)
    ensures
        first_crlf(s) matches Some(i) ==> 0 <= i && i + 2 <= s.len() && s[i] == '\r' && s[i + 1]
            == '\n',
    decreases s.len(),
{
    if s.len() >= 2 && !(s[0] == '\r' && s[1] == '\n') {
        lemma_first_crlf_bounds(s.drop_first());
    }
}

/// The lines of `s` (`str::split("\r\n")`).
pub open spec fn split_lines(s: Seq<char>) -> Seq<Seq<char>>
    decreases s.len(),
{
    match first_crlf(s) {
        Some(i) => {
            proof {
                lemma_first_crlf_bounds(s);
            }
            seq![s.take(i)] + split_lines(s.skip(i + 2))
        },
        None => seq![s],
    }
}

/// What the header lines of a search say so far.
pub ghost struct SearchHeaders {
    pub target: Option<Seq<char>>,
    pub mx_seconds: u64,
    pub discover: bool,
}

/// MX as a search asks it: a number of seconds, 1 when unreadable, kept
/// between 1 and 5.
pub open spec fn mx_value(value: Seq<char>) -> u64 {
    let n: nat = match parse_unsigned(value, u64::MAX as nat) {
        Some(n) => n,
        None => 1,
    };
    if n < 1 {
        1
    } else if n > 5 {
        5
    } else {
        n as u64
    }
}

/// One header line's effect: `MAN` decides whether this is a discovery,
/// `ST` names the target, `MX` the delay; names are compared without case
/// and surrounding whitespace, and the last line of a name wins. Lines
/// without `:` are ignored.
pub open spec fn header_step(h: SearchHeaders, line: Seq<char>) -> SearchHeaders {
    match first_index(line, ':') {
        None => h,
        Some(c) => {
            let name = trim(line.take(c));
            let value = trim(line.skip(c + 1));
            if eq_ignore_ascii_case(name, "man"@) {
                SearchHeaders {
                    discover: eq_ignore_ascii_case(
                        trim_in(value, TrimSet::Quotes),
                        "ssdp:discover"@,
                    ),
                    ..h
                }
            } else if eq_ignore_ascii_case(name, "st"@) {
                SearchHeaders { target: Some(value), ..h }
            } else if eq_ignore_ascii_case(name, "mx"@) {
                SearchHeaders { mx_seconds: mx_value(value), ..h }
            } else {
                h
            }
        },
    }
}

/// The header state held in the exec variables.
pub open spec fn headers_of(target: Option<String>, mx_seconds: u64, discover: bool) -> SearchHeaders {
    SearchHeaders {
        target: match target {
            Some(t) => Some(t@),
            None => None,
        },
        mx_seconds,
        discover,
    }
}

/// The effect of header lines, in order.
pub open spec fn read_headers(lines: Seq<Seq<char>>, h: SearchHeaders) -> SearchHeaders
    decreases lines.len(),
{
    if lines.len() == 0 {
        h
    } else {
        read_headers(lines.drop_first(), header_step(h, lines[0]))
    }
}

/// Reading header lines keeps MX between 1 and 5.
pub proof fn lemma_read_headers_mx(lines: Seq<Seq<char>>, h: SearchHeaders)
    requires
        1 <= h.mx_seconds <= 5,
    ensures
        1 <= read_headers(lines, h).mx_seconds <= 5,
    decreases lines.len(),
{
    if lines.len() > 0 {
        lemma_read_headers_mx(lines.drop_first(), header_step(h, lines[0]));
    }
}

/// A datagram read as a search: UTF-8 text whose first line is
/// `M-SEARCH * HTTP/1.1` (in any case), with a discovery `MAN` and an `ST`;
/// MX defaults to 1.
pub open spec fn spec_parse_search(message: Seq<u8>) -> Option<(Seq<char>, u64)> {
    if !vstd::utf8::valid_utf8(message) {
        None
    } else {
        let lines = split_lines(vstd::utf8::decode_utf8(message));
        if !eq_ignore_ascii_case(lines[0], "M-SEARCH * HTTP/1.1"@) {
            None
        } else {
            let h = read_headers(
                lines.drop_first(),
                SearchHeaders { target: None, mx_seconds: 1, discover: false },
            );
            if !h.discover {
                None
            } else {
                match h.target {
                    Some(t) => Some((t, h.mx_seconds)),
                    None => None,
                }
            }
        }
    }
}

/// `std::str::from_utf8`, the text copied out: `Some` exactly when the
/// bytes are valid UTF-8, and then their decoding.
#[verifier::external_body]
fn utf8_text(bytes: &[u8]) -> (r: Option<String>)
    ensures
        r is Some == vstd::utf8::valid_utf8(bytes@),
        r matches Some(s) ==> s@ == vstd::utf8::decode_utf8(bytes@),
{
    std::str::from_utf8(bytes).ok().map(|s| s.to_owned())
}

/// Where the first line break at or after `from` starts.
fn find_crlf(v: &[char], from: usize) -> (r: Option<usize>)
    requires
        from <= v@.len(),
    ensures
        match first_crlf(v@.skip(from as int)) {
            Some(i) => r == Some((from + i) as usize),
            None => r is None,
        },
{
    let mut i: usize = from;
    while v.len() - i >= 2
        invariant
            from <= i <= v@.len(),
            first_crlf(v@.skip(from as int)) == match first_crlf(v@.skip(i as int)) {
                Some(k) => Some(k + (i - from)),
                None => None,
            },
        decreases v@.len() - i,
    {
        let ghost t = v@.skip(i as int);
        assert(t[0] == v@[i as int] && t[1] == v@[i + 1]);
        if v[i] == '\r' && v[i + 1] == '\n' {
            return Some(i);
        }
        assert(t.drop_first() =~= v@.skip(i + 1));
        i = i + 1;
    }
    None
}

/// The values of a header line `v[from..to]`, read into the exec state.
fn apply_header(
    v: &[char],
    from: usize,
    to: usize,
    target: &mut Option<String>,
    mx_seconds: &mut u64,
    discover: &mut bool,
)
    requires
        from <= to <= v@.len(),
    ensures
        header_step(
            SearchHeaders {
                target: match *old(target) {
                    Some(t) => Some(t@),
                    None => None,
                },
                mx_seconds: *old(mx_seconds),
                discover: *old(discover),
            },
            v@.subrange(from as int, to as int),
        ) == (SearchHeaders {
            target: match *final(target) {
                Some(t) => Some(t@),
                None => None,
            },
            mx_seconds: *final(mx_seconds),
            discover: *final(discover),
        }),
{
    let ghost line = v@.subrange(from as int, to as int);
    let c = match find_char(v, from, to, ':') {
        Some(c) => c,
        None => {
            return ;
        },
    };
    assert(line.take(c - from) =~= v@.subrange(from as int, c as int));
    assert(line.skip(c - from + 1) =~= v@.subrange(c + 1, to as int));
    let (ns, ne) = trim_bounds(v, from, c);
    let (vs, ve) = trim_bounds(v, c + 1, to);
    let name = string_from_range(v, ns, ne);
    let nv = chars_of(name.as_str());
    if eq_ignore_case_str(nv.as_slice(), "man") {
        let (qs, qe) = trim_bounds_in(v, vs, ve, TrimSet::Quotes);
        let value = string_from_range(v, qs, qe);
        let qv = chars_of(value.as_str());
        *discover = eq_ignore_case_str(qv.as_slice(), "ssdp:discover");
    } else if eq_ignore_case_str(nv.as_slice(), "st") {
        *target = Some(string_from_range(v, vs, ve));
    } else if eq_ignore_case_str(nv.as_slice(), "mx") {
        let n = match parse_u64_range(v, vs, ve) {
            Some(n) => n,
            None => 1,
        };
        *mx_seconds = if n < 1 {
            1
        } else if n > 5 {
            5
        } else {
            n
        };
    }
}

/// Reads a datagram as a search request.
pub fn parse_search(message: &[u8]) -> (r: Option<Search>)
    ensures
        match spec_parse_search(message@) {
            Some((t, mx)) => r matches Some(s) && s.target@ == t && s.mx_seconds == mx,
            None => r is None,
        },
        r matches Some(s) ==> 1 <= s.mx_seconds <= 5,
{
    proof {
        if vstd::utf8::valid_utf8(message@) {
            lemma_read_headers_mx(
                split_lines(vstd::utf8::decode_utf8(message@)).drop_first(),
                SearchHeaders { target: None, mx_seconds: 1, discover: false },
            );
        }
    }
    let text = match utf8_text(message) {
        Some(t) => t,
        None => {
            return None;
        },
    };
    let v = chars_of(text.as_str());
    let n = v.len();
    let ghost lines = split_lines(v@);
    assert(v@.skip(0) =~= v@);
    let first_end = match find_crlf(v.as_slice(), 0) {
        Some(e) => e,
        None => n,
    };
    proof {
        lemma_first_crlf_bounds(v@);
        assert(v@.subrange(0, first_end as int) =~= lines[0]) by {
            if first_crlf(v@) is Some {
                assert(v@.take(first_end as int) =~= v@.subrange(0, first_end as int));
            }
        }
    }
    let head = string_from_range(v.as_slice(), 0, first_end);
    let hv = chars_of(head.as_str());
    if !eq_ignore_case_str(hv.as_slice(), "M-SEARCH * HTTP/1.1") {
        return None;
    }
    let mut target: Option<String> = None;
    let mut mx_seconds: u64 = 1;
    let mut discover = false;
    if first_end < n {
        let mut pos = first_end + 2;
        proof {
            assert(lines.drop_first() =~= split_lines(v@.skip(pos as int)));
        }
        loop
            invariant_except_break
                pos <= n,
                read_headers(
                    lines.drop_first(),
                    SearchHeaders { target: None, mx_seconds: 1, discover: false },
                ) == read_headers(
                    split_lines(v@.skip(pos as int)),
                    headers_of(target, mx_seconds, discover),
                ),
            invariant
                n == v@.len(),
            ensures
                read_headers(
                    lines.drop_first(),
                    SearchHeaders { target: None, mx_seconds: 1, discover: false },
                ) == headers_of(target, mx_seconds, discover),
            decreases n - pos,
        {
            let ghost rest = v@.skip(pos as int);
            let end = find_crlf(v.as_slice(), pos);
            let line_end = match end {
                Some(e) => e,
                None => n,
            };
            proof {
                lemma_first_crlf_bounds(rest);
                assert(v@.subrange(pos as int, line_end as int) =~= split_lines(rest)[0]) by {
                    if first_crlf(rest) is Some {
                        assert(rest.take(line_end - pos) =~= v@.subrange(pos as int, line_end as int));
                    } else {
                        assert(rest =~= v@.subrange(pos as int, n as int));
                    }
                }
            }
            let ghost before = headers_of(target, mx_seconds, discover);
            apply_header(v.as_slice(), pos, line_end, &mut target, &mut mx_seconds, &mut discover);
            match end {
                Some(e) => {
                    proof {
                        assert(rest.skip(e - pos + 2) =~= v@.skip(e + 2));
                        assert(split_lines(rest) == seq![rest.take(e - pos)] + split_lines(
                            rest.skip(e - pos + 2),
                        ));
                        assert(split_lines(rest).drop_first() =~= split_lines(v@.skip(e + 2)));
                        assert(split_lines(rest)[0] == rest.take(e - pos));
                    }
                    pos = e + 2;
                },
                None => {
                    proof {
                        assert(split_lines(rest) == seq![rest]);
                        assert(split_lines(rest).drop_first() =~= Seq::<Seq<char>>::empty());
                        assert(read_headers(split_lines(rest), before) == read_headers(
                            Seq::<Seq<char>>::empty(),
                            header_step(before, rest),
                        ));
                    }
                    break;
                },
            }
        }
    } else {
        proof {
            assert(lines.drop_first() =~= Seq::<Seq<char>>::empty());
        }
    }
    if !discover {
        return None;
    }
    match target {
        Some(t) => Some(Search { target: t, mx_seconds }),
        None => None,
    }
}

// ---------------------------------------------------------------------------
// Answers and announcements
// ---------------------------------------------------------------------------

/// Whether a search for `target` is answered with advertisement `a`:
/// `ssdp:all` asks for everything, otherwise the targets must match, case
/// aside.
pub open spec fn answers(target: Seq<char>, a: (Seq<char>, Seq<char>)) -> bool {
    eq_ignore_ascii_case(target, "ssdp:all"@) || eq_ignore_ascii_case(a.0, target)
}

/// The advertisements that answer a search for `target`, in order.
pub open spec fn spec_matching(ads: Seq<(Seq<char>, Seq<char>)>, target: Seq<char>) -> Seq<
    (Seq<char>, Seq<char>),
> {
    ads.filter(|a: (Seq<char>, Seq<char>)| answers(target, a))
}

/// The advertisements that answer a search for `target`.
pub fn matching_advertisements(advertisements: &Vec<Advertisement>, target: &str) -> (r: Vec<
    Advertisement,
>)
    ensures
        r@.map_values(|a: Advertisement| a@) == spec_matching(
            advertisements@.map_values(|a: Advertisement| a@),
            target@,
        ),
{
    let ghost ads = advertisements@.map_values(|a: Advertisement| a@);
    let tv = chars_of(target);
    let all = chars_of("ssdp:all");
    let everything = chars_eq_ignore_ascii_case(tv.as_slice(), all.as_slice());
    let mut out: Vec<Advertisement> = Vec::new();
    let mut i: usize = 0;
    while i < advertisements.len()
        invariant
            ads == advertisements@.map_values(|a: Advertisement| a@),
            i <= ads.len(),
            tv@ == target@,
            everything == eq_ignore_ascii_case(target@, "ssdp:all"@),
            out@.map_values(|a: Advertisement| a@) == spec_matching(ads.take(i as int), target@),
        decreases ads.len() - i,
    {
        let ghost before = out@.map_values(|a: Advertisement| a@);
        let av = chars_of(advertisements[i].target.as_str());
        let same = chars_eq_ignore_ascii_case(av.as_slice(), tv.as_slice());
        assert(ads[i as int] == advertisements@[i as int]@);
        if everything || same {
            out.push(advertisements[i].duplicate());
            assert(out@.map_values(|a: Advertisement| a@) =~= before.push(ads[i as int]));
        }
        proof {
            reveal(Seq::filter);
            let t = ads.take(i + 1);
            assert(t.drop_last() =~= ads.take(i as int));
            assert(t.last() == ads[i as int]);
        }
        i = i + 1;
    }
    assert(ads.take(ads.len() as int) =~= ads);
    out
}

/// A search answers with exactly the advertisements whose target is the
/// search target (ignoring ASCII case), or with all of them for `ssdp:all`,
/// keeping their order and leaving none out.
pub proof fn lemma_matching_answers(ads: Seq<(Seq<char>, Seq<char>)>, target: Seq<char>)
    ensures
        forall|a: (Seq<char>, Seq<char>)|
            #[trigger] spec_matching(ads, target).contains(a) <==> ads.contains(a) && (
            eq_ignore_ascii_case(target, "ssdp:all"@) || eq_ignore_ascii_case(a.0, target)),
        eq_ignore_ascii_case(target, "ssdp:all"@) ==> spec_matching(ads, target) == ads,
{
    let pred = |a: (Seq<char>, Seq<char>)| answers(target, a);
    ads.filter_lemma(pred);
    assert forall|a: (Seq<char>, Seq<char>)|
        #[trigger] spec_matching(ads, target).contains(a) <==> ads.contains(a) && (
        eq_ignore_ascii_case(target, "ssdp:all"@) || eq_ignore_ascii_case(a.0, target)) by {
        let f = spec_matching(ads, target);
        assert(f == ads.filter(pred));
        if f.contains(a) {
            let k = choose|k: int| 0 <= k < f.len() && f[k] == a;
            assert(pred(f[k]));
            ads.lemma_filter_contains_rev(pred, a);
        }
        if ads.contains(a) && pred(a) {
            let k = choose|k: int| 0 <= k < ads.len() && ads[k] == a;
            assert(pred(ads[k]));
        }
    }
    if eq_ignore_ascii_case(target, "ssdp:all"@) {
        lemma_filter_all(ads, pred);
    }
}

proof fn lemma_filter_all<A>(s: Seq<A>, pred: spec_fn(A) -> bool)
    requires
        forall|a: A| #[trigger] pred(a),
    ensures
        s.filter(pred) == s,
    decreases s.len(),
{
    reveal(Seq::filter);
    if s.len() > 0 {
        lemma_filter_all(s.drop_last(), pred);
        assert(s.drop_last().push(s.last()) =~= s);
    }
}

/// Two texts whose characters at `i` differ even ignoring ASCII case are
/// not equal ignoring case.
proof fn lemma_differ_at(a: Seq<char>, b: Seq<char>, i: int)
    requires
        0 <= i < a.len(),
        i < b.len(),
        ascii_lower(a[i]) != ascii_lower(b[i]),
    ensures
        !eq_ignore_ascii_case(a, b),
{
    assert(ascii_lower_seq(a)[i] == ascii_lower(a[i]));
    assert(ascii_lower_seq(b)[i] == ascii_lower(b[i]));
}

/// A device whose UDN is a `uuid:` name answers a search for any one of its
/// five advertised targets with exactly that target's advertisement.
pub proof fn lemma_each_target_finds_its_advertisement(udn: Seq<char>, k: int)
    requires
        udn.len() >= 5 && udn.take(5) == "uuid:"@,
        0 <= k < 5,
    ensures
        spec_matching(spec_advertisements(udn), spec_advertisements(udn)[k].0) == seq![
            spec_advertisements(udn)[k],
        ],
{
    let ads = spec_advertisements(udn);
    reveal_strlit("uuid:");
    reveal_strlit("upnp:rootdevice");
    reveal_strlit("ssdp:all");
    reveal_strlit("urn:schemas-upnp-org:device:MediaServer:1");
    reveal_strlit("urn:schemas-upnp-org:service:ContentDirectory:1");
    reveal_strlit("urn:schemas-upnp-org:service:ConnectionManager:1");
    let t0 = "upnp:rootdevice"@;
    let t2 = MEDIA_SERVER_TYPE@;
    let t3 = CONTENT_DIRECTORY_TYPE@;
    let t4 = CONNECTION_MANAGER_TYPE@;
    assert(udn[1] == udn.take(5)[1]);
    assert(udn[4] == udn.take(5)[4]);
    // the targets differ pairwise, ignoring case
    lemma_differ_at(t0, udn, 1);
    lemma_differ_at(udn, t0, 1);
    lemma_differ_at(t0, t2, 1);
    lemma_differ_at(t2, t0, 1);
    lemma_differ_at(t0, t3, 1);
    lemma_differ_at(t3, t0, 1);
    lemma_differ_at(t0, t4, 1);
    lemma_differ_at(t4, t0, 1);
    lemma_differ_at(udn, t2, 1);
    lemma_differ_at(t2, udn, 1);
    lemma_differ_at(udn, t3, 1);
    lemma_differ_at(t3, udn, 1);
    lemma_differ_at(udn, t4, 1);
    lemma_differ_at(t4, udn, 1);
    lemma_differ_at(t2, t3, 21);
    lemma_differ_at(t3, t2, 21);
    lemma_differ_at(t2, t4, 21);
    lemma_differ_at(t4, t2, 21);
    lemma_differ_at(t3, t4, 32);
    lemma_differ_at(t4, t3, 32);
    // no target is `ssdp:all`
    lemma_differ_at(t0, "ssdp:all"@, 0);
    lemma_differ_at(udn, "ssdp:all"@, 1);
    lemma_differ_at(t2, "ssdp:all"@, 0);
    lemma_differ_at(t3, "ssdp:all"@, 0);
    lemma_differ_at(t4, "ssdp:all"@, 0);
    let target = ads[k].0;
    reveal_with_fuel(Seq::filter, 6);
    let pred = |a: (Seq<char>, Seq<char>)| answers(target, a);
    assert(ads.drop_last().drop_last().drop_last().drop_last().drop_last() =~= Seq::<(Seq<char>, Seq<char>)>::empty());
    assert(ads.filter(pred) =~= seq![ads[k]]);
}

/// The answer to a search, for one advertisement.
pub open spec fn spec_search_response(
    a: (Seq<char>, Seq<char>),
    location: Seq<char>,
    max_age_seconds: u32,
    server: Seq<char>,
) -> Seq<char> {
    "HTTP/1.1 200 OK\r\nCACHE-CONTROL: max-age="@ + decimal(max_age_seconds as nat)
        + "\r\nEXT:\r\nLOCATION: "@ + location + "\r\nSERVER: "@ + server + "\r\nST: "@ + a.0
        + "\r\nUSN: "@ + a.1 + "\r\n\r\n"@
}

/// The answer to a search, for one advertisement.
pub fn search_response(
    advertisement: &Advertisement,
    location: &str,
    max_age_seconds: u32,
    server: &str,
) -> (r: String)
    ensures
        r@ == spec_search_response(advertisement@, location@, max_age_seconds, server@),
{
    let mut out = String::from_str("HTTP/1.1 200 OK\r\nCACHE-CONTROL: max-age=");
    push_decimal(&mut out, max_age_seconds as u64);
    push_str(&mut out, "\r\nEXT:\r\nLOCATION: ");
    push_str(&mut out, location);
    push_str(&mut out, "\r\nSERVER: ");
    push_str(&mut out, server);
    push_str(&mut out, "\r\nST: ");
    push_str(&mut out, advertisement.target.as_str());
    push_str(&mut out, "\r\nUSN: ");
    push_str(&mut out, advertisement.usn.as_str());
    push_str(&mut out, "\r\n\r\n");
    out
}

/// The multicast destination of announcements, as text.
pub open spec fn multicast_host() -> Seq<char> {
    ipv4_text(Ipv4Address { a: 239, b: 255, c: 255, d: 250 }) + ":"@ + decimal(SSDP_PORT as nat)
}

fn push_multicast_host(out: &mut String)
    ensures
        final(out)@ == old(out)@ + multicast_host(),
{
    push_ipv4(out, multicast_address());
    push_str(out, ":");
    push_decimal(out, SSDP_PORT as u64);
}

/// The announcement that an advertisement is available.
pub open spec fn spec_alive_message(
    a: (Seq<char>, Seq<char>),
    location: Seq<char>,
    max_age_seconds: u32,
    server: Seq<char>,
) -> Seq<char> {
    "NOTIFY * HTTP/1.1\r\nHOST: "@ + multicast_host() + "\r\nCACHE-CONTROL: max-age="@ + decimal(
        max_age_seconds as nat,
    ) + "\r\nLOCATION: "@ + location + "\r\nNT: "@ + a.0 + "\r\nNTS: ssdp:alive\r\nSERVER: "@
        + server + "\r\nUSN: "@ + a.1 + "\r\n\r\n"@
}

/// The announcement that an advertisement is available.
pub fn alive_message(
    advertisement: &Advertisement,
    location: &str,
    max_age_seconds: u32,
    server: &str,
) -> (r: String)
    ensures
        r@ == spec_alive_message(advertisement@, location@, max_age_seconds, server@),
{
    let mut out = String::from_str("NOTIFY * HTTP/1.1\r\nHOST: ");
    push_multicast_host(&mut out);
    push_str(&mut out, "\r\nCACHE-CONTROL: max-age=");
    push_decimal(&mut out, max_age_seconds as u64);
    push_str(&mut out, "\r\nLOCATION: ");
    push_str(&mut out, location);
    push_str(&mut out, "\r\nNT: ");
    push_str(&mut out, advertisement.target.as_str());
    push_str(&mut out, "\r\nNTS: ssdp:alive\r\nSERVER: ");
    push_str(&mut out, server);
    push_str(&mut out, "\r\nUSN: ");
    push_str(&mut out, advertisement.usn.as_str());
    push_str(&mut out, "\r\n\r\n");
    out
}

/// The announcement that an advertisement is withdrawn.
pub open spec fn spec_byebye_message(a: (Seq<char>, Seq<char>)) -> Seq<char> {
    "NOTIFY * HTTP/1.1\r\nHOST: "@ + multicast_host() + "\r\nNT: "@ + a.0
        + "\r\nNTS: ssdp:byebye\r\nUSN: "@ + a.1 + "\r\n\r\n"@
}

/// The announcement that an advertisement is withdrawn.
pub fn byebye_message(advertisement: &Advertisement) -> (r: String)
    ensures
        r@ == spec_byebye_message(advertisement@),
{
    let mut out = String::from_str("NOTIFY * HTTP/1.1\r\nHOST: ");
    push_multicast_host(&mut out);
    push_str(&mut out, "\r\nNT: ");
    push_str(&mut out, advertisement.target.as_str());
    push_str(&mut out, "\r\nNTS: ssdp:byebye\r\nUSN: ");
    push_str(&mut out, advertisement.usn.as_str());
    push_str(&mut out, "\r\n\r\n");
    out
}

/// The URL of the device description served at `interface:http_port`.
pub open spec fn spec_location(interface: Ipv4Address, http_port: u16) -> Seq<char> {
    "http://"@ + ipv4_text(interface) + ":"@ + decimal(http_port as nat) + "/root.xml"@
}

/// The URL of the device description.
pub fn location(interface: Ipv4Address, http_port: u16) -> (r: String)
    ensures
        r@ == spec_location(interface, http_port),
{
    let mut out = String::from_str("http://");
    push_ipv4(&mut out, interface);
    push_str(&mut out, ":");
    push_decimal(&mut out, http_port as u64);
    push_str(&mut out, "/root.xml");
    out
}

/// The milliseconds to wait before answering a search with MX
/// `mx_seconds`, from the clock's sub-second nanoseconds and the peer's
/// port: their bitwise mix, within the MX window.
pub open spec fn spec_search_delay(nanos: u32, port: u16, mx_seconds: u64) -> u64 {
    let window: int = if mx_seconds * 1000 > u64::MAX {
        u64::MAX as int
    } else {
        mx_seconds * 1000
    };
    (((nanos as u64) ^ (port as u64)) as int % window) as u64
}

/// The milliseconds to wait before answering a search.
pub fn search_delay(nanos: u32, port: u16, mx_seconds: u64) -> (r: u64)
    requires
        mx_seconds > 0,
    ensures
        r == spec_search_delay(nanos, port, mx_seconds),
        r < mx_seconds * 1000,
{
    let window = if mx_seconds > u64::MAX / 1000 {
        u64::MAX
    } else {
        mx_seconds * 1000
    };
    let mix = (nanos as u64) ^ (port as u64);
    mix % window
}

} // verus!

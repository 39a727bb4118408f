//! Reading an XML document token by token with quick-xml's pull parser.
use vstd::prelude::*;

verus! {

#[verifier::external_type_specification]
#[verifier::external_body]
#[verifier::reject_recursive_types(R)]
pub struct ExReader<R>(quick_xml::Reader<R>);

#[verifier::external_type_specification]
#[verifier::external_body]
pub struct ExXmlError(quick_xml::Error);

/// One token of an XML document.
#[derive(Debug)]
pub enum XmlToken {
    /// An opening tag, with its qualified name.
    Start(Vec<u8>),
    /// A self-closing tag, with its qualified name.
    Empty(Vec<u8>),
    /// Character data between tags, still escaped, without surrounding
    /// whitespace.
    Text(Vec<u8>),
    /// A closing tag.
    End,
    /// The end of the document.
    Eof,
    /// A declaration, comment, CDATA section, processing instruction or
    /// document type.
    Other,
}

/// A token as plain values.
pub ghost enum XmlTokenView {
    Start(Seq<u8>),
    Empty(Seq<u8>),
    Text(Seq<u8>),
    End,
    Eof,
    Other,
}

impl View for XmlToken {
    type V = XmlTokenView;

    open spec fn view(&self) -> XmlTokenView {
        match self {
            XmlToken::Start(n) => XmlTokenView::Start(n@),
            XmlToken::Empty(n) => XmlTokenView::Empty(n@),
            XmlToken::Text(t) => XmlTokenView::Text(t@),
            XmlToken::End => XmlTokenView::End,
            XmlToken::Eof => XmlTokenView::Eof,
            XmlToken::Other => XmlTokenView::Other,
        }
    }
}

/// The token at position `index` (counting from 0) that quick-xml's reader,
/// with text trimming on, yields for `body` after yielding the earlier ones
/// without error; `None` when reading it fails.
pub uninterp spec fn xml_token(body: Seq<u8>, index: nat) -> Option<XmlTokenView>;

/// A document being read token by token.
pub struct XmlTokens<'a> {
    reader: quick_xml::Reader<&'a [u8]>,
    body: Ghost<Seq<u8>>,
    read: Ghost<nat>,
    failed: Ghost<bool>,
}

/// `quick_xml::Reader::from_reader` over a byte slice.
#[verifier::external_body]
fn open_reader<'a>(body: &'a [u8]) -> quick_xml::Reader<&'a [u8]> {
    quick_xml::Reader::from_reader(body)
}

/// `Config::trim_text(true)` on the reader's configuration.
#[verifier::external_body]
fn trim_text(reader: &mut quick_xml::Reader<&[u8]>) {
    reader.config_mut().trim_text(true);
}

impl<'a> XmlTokens<'a> {
    /// The document.
    pub closed spec fn body(&self) -> Seq<u8> {
        self.body@
    }

    /// How many tokens have been read.
    pub closed spec fn read(&self) -> nat {
        self.read@
    }

    /// Whether a read has failed.
    pub closed spec fn failed(&self) -> bool {
        self.failed@
    }

    /// A reader at the start of `body`, trimming the whitespace around text.
    pub fn new(body: &'a [u8]) -> (r: Self)
        ensures
            r.body() == body@,
            r.read() == 0,
            !r.failed(),
    {
        let mut reader = open_reader(body);
        trim_text(&mut reader);
        XmlTokens { reader, body: Ghost(body@), read: Ghost(0), failed: Ghost(false) }
    }

    /// `Reader::read_event`, with the event turned into an `XmlToken` (a
    /// tag's qualified name and the raw text are copied out). The claim is
    /// that the outcome is `xml_token` of the document and the number of
    /// tokens read so far, and that every token but the end consumes at
    /// least one byte of the document, so the end comes within one token
    /// per byte.
    #[verifier::external_body]
    pub(crate) fn next(&mut self) -> (r: Result<XmlToken, quick_xml::Error>)
        requires
            !old(self).failed(),
        ensures
            final(self).body() == old(self).body(),
            final(self).read() == old(self).read() + 1,
            final(self).failed() == (r is Err),
            match xml_token(old(self).body(), old(self).read()) {
                Some(t) => r matches Ok(x) && x@ == t,
                None => r is Err,
            },
            r matches Ok(t) && !(t is Eof) ==> old(self).read() < old(self).body().len(),
    {
        match self.reader.read_event() {
            Ok(quick_xml::events::Event::Start(e)) => Ok(XmlToken::Start(e.name().as_ref().to_vec())),
            Ok(quick_xml::events::Event::Empty(e)) => Ok(XmlToken::Empty(e.name().as_ref().to_vec())),
            Ok(quick_xml::events::Event::Text(t)) => Ok(XmlToken::Text(t.as_ref().to_vec())),
            Ok(quick_xml::events::Event::End(_)) => Ok(XmlToken::End),
            Ok(quick_xml::events::Event::Eof) => Ok(XmlToken::Eof),
            Ok(_) => Ok(XmlToken::Other),
            Err(e) => Err(e),
        }
    }
}

/// What `quick_xml::escape::unescape` makes of `raw`: the text with its
/// entity and character references replaced; `None` for an unknown or
/// unterminated reference.
pub uninterp spec fn xml_unescape(raw: Seq<char>) -> Option<Seq<char>>;

/// Whether `s` holds an `&`, where every entity or character reference starts.
pub open spec fn has_reference(s: Seq<char>) -> bool {
    s.contains('&')
}

/// `quick_xml::escape::unescape`, its error wrapped as quick-xml's
/// `Error::Escape`. Besides naming the result, the claim is that text
/// without `&` comes back unchanged (the function only acts at `&`).
#[verifier::external_body]
pub(crate) fn unescape(raw: &str) -> (r: Result<String, quick_xml::Error>)
    ensures
        r is Ok == xml_unescape(raw@) is Some,
        r matches Ok(s) ==> s@ == xml_unescape(raw@)->0,
        r is Ok || has_reference(raw@),
        r matches Ok(s) ==> (has_reference(raw@) || s@ == raw@),
{
    quick_xml::escape::unescape(raw).map(|v| v.into_owned()).map_err(quick_xml::Error::Escape)
}

/// What `String::from_utf8_lossy` makes of `bytes`.
pub uninterp spec fn utf8_lossy(bytes: Seq<u8>) -> Seq<char>;

/// `String::from_utf8_lossy`: the bytes decoded as UTF-8, with invalid
/// sequences replaced. The claim, beyond naming the result, is that valid
/// UTF-8 is decoded as it is.
#[verifier::external_body]
pub(crate) fn lossy_string(bytes: &[u8]) -> (r: String)
    ensures
        r@ == utf8_lossy(bytes@),
        vstd::utf8::valid_utf8(bytes@) ==> r@ == vstd::utf8::decode_utf8(bytes@),
{
    String::from_utf8_lossy(bytes).into_owned()
}

/// The position of the first `:` in a qualified name.
pub open spec fn first_colon(q: Seq<u8>) -> Option<int>
    decreases q.len(),
{
    if q.len() == 0 {
        None
    } else if q[0] == 58u8 {
        Some(0)
    } else {
        match first_colon(q.drop_first()) {
            Some(i) => Some(i + 1),
            None => None,
        }
    }
}

/// The local part of a qualified name: what follows the first `:`, or the
/// whole name (`QName::local_name`).
pub open spec fn local_name(q: Seq<u8>) -> Seq<u8> {
    match first_colon(q) {
        Some(i) => q.skip(i + 1),
        None => q,
    }
}

proof fn lemma_first_colon(q: Seq<u8>, i: int)
    requires
        0 <= i <= q.len(),
        forall|j: int| 0 <= j < i ==> #[trigger] q[j] != 58u8,
    ensures
        i < q.len() && q[i] == 58u8 ==> first_colon(q) == Some(i),
        i == q.len() ==> first_colon(q) is None,
    decreases i,
{
    if i > 0 {
        lemma_first_colon(q.drop_first(), i - 1);
    }
}

/// The local part of a qualified name.
pub fn local_name_of(q: &[u8]) -> (r: Vec<u8>)
    ensures
        r@ == local_name(q@),
{
    let mut i: usize = 0;
    while i < q.len() && q[i] != 58u8
        invariant
            i <= q@.len(),
            forall|j: int| 0 <= j < i ==> #[trigger] q@[j] != 58u8,
        decreases q@.len() - i,
    {
        i = i + 1;
    }
    proof {
        lemma_first_colon(q@, i as int);
    }
    let from = if i < q.len() {
        i + 1
    } else {
        0
    };
    let mut out: Vec<u8> = Vec::new();
    let mut k: usize = from;
    while k < q.len()
        invariant
            from <= k <= q@.len(),
            out@ == q@.subrange(from as int, k as int),
        decreases q@.len() - k,
    {
        out.push(q[k]);
        k = k + 1;
    }
    assert(from == 0 ==> q@.subrange(0, q@.len() as int) == q@);
    out
}

} // verus!

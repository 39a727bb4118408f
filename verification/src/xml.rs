//! Escaping of text and attribute values for the XML documents the server
//! produces (DIDL-Lite, SOAP envelopes, descriptions, event bodies).
use vstd::prelude::*;

use crate::text::push_str;

verus! {

/// The escaped form of one character: the five XML special characters become
/// entity references, everything else stays as it is.
pub open spec fn escape_char(c: char) -> Seq<char> {
    if c == '&' {
        seq!['&', 'a', 'm', 'p', ';']
    } else if c == '<' {
        seq!['&', 'l', 't', ';']
    } else if c == '>' {
        seq!['&', 'g', 't', ';']
    } else if c == '"' {
        seq!['&', 'q', 'u', 'o', 't', ';']
    } else if c == '\'' {
        seq!['&', 'a', 'p', 'o', 's', ';']
    } else {
        seq![c]
    }
}

/// The escaped form of a whole text: each character replaced by `escape_char`.
pub open spec fn escape(s: Seq<char>) -> Seq<char>
    decreases s.len(),
{
    if s.len() == 0 {
        Seq::empty()
    } else {
        escape(s.drop_last()) + escape_char(s.last())
    }
}

/// Appends the escaped form of `c`.
pub fn push_escaped_char(out: &mut String, c: char)
    ensures
        final(out)@ == old(out)@ + escape_char(c),
{
    if c == '&' {
        proof {
            reveal_strlit("&amp;");
        }
        push_str(out, "&amp;");
    } else if c == '<' {
        proof {
            reveal_strlit("&lt;");
        }
        push_str(out, "&lt;");
    } else if c == '>' {
        proof {
            reveal_strlit("&gt;");
        }
        push_str(out, "&gt;");
    } else if c == '"' {
        proof {
            reveal_strlit("&quot;");
        }
        push_str(out, "&quot;");
    } else if c == '\'' {
        proof {
            reveal_strlit("&apos;");
        }
        push_str(out, "&apos;");
    } else {
        crate::text::push_char(out, c);
        assert(old(out)@.push(c) == old(out)@ + seq![c]);
    }
}

/// Appends the escaped form of `value`.
pub fn push_escaped(out: &mut String, value: &str)
    ensures
        final(out)@ == old(out)@ + escape(value@),
{
    let v = crate::text::chars_of(value);
    let ghost start = out@;
    let mut i: usize = 0;
    while i < v.len()
        invariant
            i <= v@.len(),
            out@ == start + escape(v@.take(i as int)),
        decreases v@.len() - i,
    {
        push_escaped_char(out, v[i]);
        proof {
            let t = v@.take(i + 1);
            assert(t.drop_last() == v@.take(i as int));
            assert(t.last() == v@[i as int]);
        }
        i = i + 1;
    }
    assert(v@.take(v@.len() as int) == v@);
}

/// The escaped form of `value` as a new string.
pub fn escape_text(value: &str) -> (r: String)
    ensures
        r@ == escape(value@),
{
    let mut out = String::new();
    push_escaped(&mut out, value);
    out
}

/// The text of `<name>value</name>`, with `value` escaped.
pub open spec fn element_text(name: Seq<char>, value: Seq<char>) -> Seq<char> {
    seq!['<'] + name + seq!['>'] + escape(value) + seq!['<', '/'] + name + seq!['>']
}

/// Appends `<name>value</name>`, escaping `value`.
pub fn element(out: &mut String, name: &str, value: &str)
    ensures
        final(out)@ == old(out)@ + element_text(name@, value@),
{
    crate::text::push_char(out, '<');
    push_str(out, name);
    crate::text::push_char(out, '>');
    push_escaped(out, value);
    crate::text::push_char(out, '<');
    crate::text::push_char(out, '/');
    push_str(out, name);
    crate::text::push_char(out, '>');
    assert(out@ =~= old(out)@ + element_text(name@, value@));
}

/// No escaped text contains a raw `<`, `>`, `"` or `'`: an escaped value can
/// neither open nor close markup, nor end a quoted attribute.
pub proof fn lemma_escape_has_no_markup(s: Seq<char>)
    ensures
        forall|i: int|
            0 <= i < escape(s).len() ==> {
                let c = #[trigger] escape(s)[i];
                c != '<' && c != '>' && c != '"' && c != '\''
            },
    decreases s.len(),
{
    if s.len() > 0 {
        lemma_escape_has_no_markup(s.drop_last());
        let a = escape(s.drop_last());
        let b = escape_char(s.last());
        assert forall|i: int| 0 <= i < escape(s).len() implies {
            let c = #[trigger] escape(s)[i];
            c != '<' && c != '>' && c != '"' && c != '\''
        } by {
            if i < a.len() {
                assert(escape(s)[i] == a[i]);
            } else {
                assert(escape(s)[i] == b[i - a.len()]);
            }
        }
    }
}

} // verus!

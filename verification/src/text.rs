//! Character-level helpers shared by the protocol modules: building strings,
//! decimal and hexadecimal rendering, ASCII case folding, Unicode whitespace
//! trimming, and the unsigned integer syntax that `str::parse` accepts.
use vstd::prelude::*;

verus! {

/// Copies the characters of `s` into a vector, one element per `char`.
pub fn chars_of(s: &str) -> (v: Vec<char>)
    ensures
        v@ == s@,
{
    let mut v: Vec<char> = Vec::new();
    for c in it: s.chars()
        invariant
            v@ == it.seq().take(it.index() as int),
    {
        v.push(c);
    }
    v
}

/// Appends one character (`String::push`).
#[verifier::external_body]
pub(crate) fn push_char(s: &mut String, c: char)
    ensures
        final(s)@ == old(s)@.push(c),
{
    s.push(c);
}

/// Appends a string slice.
pub fn push_str(s: &mut String, t: &str)
    ensures
        final(s)@ == old(s)@ + t@,
{
    s.append(t);
}

/// Builds a `String` holding exactly the given characters.
pub fn string_from_chars(v: &[char]) -> (s: String)
    ensures
        s@ == v@,
{
    let mut s = String::new();
    let mut i: usize = 0;
    while i < v.len()
        invariant
            i <= v@.len(),
            s@ == v@.take(i as int),
        decreases v@.len() - i,
    {
        push_char(&mut s, v[i]);
        i = i + 1;
        assert(v@.take(i as int) == v@.take(i - 1).push(v@[i - 1]));
    }
    assert(v@.take(v@.len() as int) == v@);
    s
}

/// Builds a `String` from the characters `v[from..to]`.
pub fn string_from_range(v: &[char], from: usize, to: usize) -> (s: String)
    requires
        from <= to <= v@.len(),
    ensures
        s@ == v@.subrange(from as int, to as int),
{
    let mut s = String::new();
    let mut i: usize = from;
    while i < to
        invariant
            from <= i <= to <= v@.len(),
            s@ == v@.subrange(from as int, i as int),
        decreases to - i,
    {
        push_char(&mut s, v[i]);
        i = i + 1;
        assert(v@.subrange(from as int, i as int) == v@.subrange(from as int, i - 1).push(
            v@[i - 1],
        ));
    }
    s
}

// ---------------------------------------------------------------------------
// Decimal and hexadecimal rendering
// ---------------------------------------------------------------------------

/// The ASCII digit for `d < 10`.
pub open spec fn digit_char(d: nat) -> char {
    (48 + d) as char
}

/// The shortest decimal rendering of `n`, as `n.to_string()` produces it.
pub open spec fn decimal(n: nat) -> Seq<char>
    decreases n,
{
    if n < 10 {
        seq![digit_char(n)]
    } else {
        decimal(n / 10).push(digit_char(n % 10))
    }
}

/// Appends the decimal rendering of `n`.
pub fn push_decimal(out: &mut String, n: u64)
    ensures
        final(out)@ == old(out)@ + decimal(n as nat),
    decreases n,
{
    if n >= 10 {
        push_decimal(out, n / 10);
    }
    let d: u8 = (n % 10) as u8;
    push_char(out, (48u8 + d) as char);
}

/// The decimal rendering of `n` as a new string.
pub fn decimal_string(n: u64) -> (s: String)
    ensures
        s@ == decimal(n as nat),
{
    let mut s = String::new();
    push_decimal(&mut s, n);
    s
}

/// The lower-case hexadecimal digit for `d < 16`.
pub open spec fn hex_digit(d: nat) -> char {
    if d < 10 {
        (48 + d) as char
    } else {
        (87 + d) as char
    }
}

/// The lowest `width` hexadecimal digits of `n`, zero padded, most significant
/// first (`format!("{n:0width$x}")` for values that fit).
pub open spec fn hex_fixed(n: nat, width: nat) -> Seq<char>
    decreases width,
{
    if width == 0 {
        Seq::empty()
    } else {
        hex_fixed(n / 16, (width - 1) as nat).push(hex_digit(n % 16))
    }
}

/// Appends `width` lower-case hexadecimal digits of `n`.
pub fn push_hex_fixed(out: &mut String, n: u64, width: usize)
    ensures
        final(out)@ == old(out)@ + hex_fixed(n as nat, width as nat),
    decreases width,
{
    if width == 0 {
        return;
    }
    push_hex_fixed(out, n / 16, width - 1);
    let d: u8 = (n % 16) as u8;
    let c: char = if d < 10 {
        (48u8 + d) as char
    } else {
        (87u8 + d) as char
    };
    push_char(out, c);
}

// ---------------------------------------------------------------------------
// ASCII case folding
// ---------------------------------------------------------------------------

/// `char::to_ascii_lowercase`.
pub open spec fn ascii_lower(c: char) -> char {
    if 'A' <= c && c <= 'Z' {
        ((c as u32) + 32) as char
    } else {
        c
    }
}

pub fn to_ascii_lower(c: char) -> (r: char)
    ensures
        r == ascii_lower(c),
{
    if 'A' <= c && c <= 'Z' {
        (((c as u32) + 32) as u8) as char
    } else {
        c
    }
}

/// The ASCII lower-case form of every character.
pub open spec fn ascii_lower_seq(s: Seq<char>) -> Seq<char> {
    Seq::new(s.len(), |i: int| ascii_lower(s[i]))
}

/// `str::eq_ignore_ascii_case`.
pub open spec fn eq_ignore_ascii_case(a: Seq<char>, b: Seq<char>) -> bool {
    ascii_lower_seq(a) == ascii_lower_seq(b)
}

pub fn chars_eq_ignore_ascii_case(a: &[char], b: &[char]) -> (r: bool)
    ensures
        r == eq_ignore_ascii_case(a@, b@),
{
    if a.len() != b.len() {
        proof {
            assert(ascii_lower_seq(a@).len() != ascii_lower_seq(b@).len());
        }
        return false;
    }
    let mut i: usize = 0;
    while i < a.len()
        invariant
            a@.len() == b@.len(),
            i <= a@.len(),
            forall|j: int| 0 <= j < i ==> ascii_lower(#[trigger] a@[j]) == ascii_lower(b@[j]),
        decreases a@.len() - i,
    {
        if to_ascii_lower(a[i]) != to_ascii_lower(b[i]) {
            proof {
                assert(ascii_lower_seq(a@)[i as int] != ascii_lower_seq(b@)[i as int]);
            }
            return false;
        }
        i = i + 1;
    }
    assert(ascii_lower_seq(a@) =~= ascii_lower_seq(b@));
    true
}

/// Compares with a string slice, ignoring ASCII case.
pub fn eq_ignore_case_str(a: &[char], b: &str) -> (r: bool)
    ensures
        r == eq_ignore_ascii_case(a@, b@),
{
    let bv = chars_of(b);
    chars_eq_ignore_ascii_case(a, bv.as_slice())
}

/// Exact comparison of a character slice with a string slice.
pub fn chars_eq_str(a: &[char], b: &str) -> (r: bool)
    ensures
        r == (a@ == b@),
{
    let bv = chars_of(b);
    chars_eq(a, bv.as_slice())
}

/// Exact comparison of two character slices.
pub fn chars_eq(a: &[char], b: &[char]) -> (r: bool)
    ensures
        r == (a@ == b@),
{
    if a.len() != b.len() {
        return false;
    }
    let mut i: usize = 0;
    while i < a.len()
        invariant
            a@.len() == b@.len(),
            i <= a@.len(),
            forall|j: int| 0 <= j < i ==> a@[j] == b@[j],
        decreases a@.len() - i,
    {
        if a[i] != b[i] {
            return false;
        }
        i = i + 1;
    }
    assert(a@ =~= b@);
    true
}

/// Exact comparison of two strings.
pub fn str_eq(a: &str, b: &str) -> (r: bool)
    ensures
        r == (a@ == b@),
{
    let av = chars_of(a);
    chars_eq_str(av.as_slice(), b)
}

// ---------------------------------------------------------------------------
// Unicode whitespace and trimming
// ---------------------------------------------------------------------------

/// `char::is_whitespace`: the Unicode `White_Space` property.
pub open spec fn is_whitespace(c: char) -> bool {
    ||| ('\u{9}' <= c && c <= '\u{d}')
    ||| c == ' '
    ||| c == '\u{85}'
    ||| c == '\u{a0}'
    ||| c == '\u{1680}'
    ||| ('\u{2000}' <= c && c <= '\u{200a}')
    ||| c == '\u{2028}'
    ||| c == '\u{2029}'
    ||| c == '\u{202f}'
    ||| c == '\u{205f}'
    ||| c == '\u{3000}'
}

pub fn char_is_whitespace(c: char) -> (r: bool)
    ensures
        r == is_whitespace(c),
{
    ('\u{9}' <= c && c <= '\u{d}') || c == ' ' || c == '\u{85}' || c == '\u{a0}' || c
        == '\u{1680}' || ('\u{2000}' <= c && c <= '\u{200a}') || c == '\u{2028}' || c
        == '\u{2029}' || c == '\u{202f}' || c == '\u{205f}' || c == '\u{3000}'
}

/// The number of leading characters of `s` that satisfy `is_whitespace`.
pub open spec fn leading_ws(s: Seq<char>) -> nat
    decreases s.len(),
{
    if s.len() > 0 && is_whitespace(s[0]) {
        1 + leading_ws(s.drop_first())
    } else {
        0
    }
}

/// The number of trailing characters of `s` that satisfy `is_whitespace`.
pub open spec fn trailing_ws(s: Seq<char>) -> nat
    decreases s.len(),
{
    if s.len() > 0 && is_whitespace(s.last()) {
        1 + trailing_ws(s.drop_last())
    } else {
        0
    }
}

/// `str::trim`: `s` without its leading and trailing whitespace.
pub open spec fn trim(s: Seq<char>) -> Seq<char> {
    let t = s.skip(leading_ws(s) as int);
    t.take(t.len() - trailing_ws(t))
}

pub proof fn lemma_leading_ws(s: Seq<char>, i: int)
    requires
        0 <= i <= s.len(),
        forall|j: int| 0 <= j < i ==> is_whitespace(#[trigger] s[j]),
        i == s.len() || !is_whitespace(s[i]),
    ensures
        leading_ws(s) == i,
    decreases i,
{
    if i > 0 {
        lemma_leading_ws(s.drop_first(), i - 1);
    }
}

pub proof fn lemma_trailing_ws(s: Seq<char>, k: int)
    requires
        0 <= k <= s.len(),
        forall|j: int| s.len() - k <= j < s.len() ==> is_whitespace(#[trigger] s[j]),
        k == s.len() || !is_whitespace(s[s.len() - k - 1]),
    ensures
        trailing_ws(s) == k,
    decreases k,
{
    if k > 0 {
        let t = s.drop_last();
        assert forall|j: int| t.len() - (k - 1) <= j < t.len() implies is_whitespace(
            #[trigger] t[j],
        ) by {
            assert(t[j] == s[j]);
        }
        if k - 1 < t.len() {
            assert(t[t.len() - (k - 1) - 1] == s[s.len() - k - 1]);
        }
        lemma_trailing_ws(t, k - 1);
    }
}

/// The bounds `(start, end)` of `trim(v[from..to])` within `v`.
pub fn trim_bounds(v: &[char], from: usize, to: usize) -> (r: (usize, usize))
    requires
        from <= to <= v@.len(),
    ensures
        from <= r.0 <= r.1 <= to,
        v@.subrange(r.0 as int, r.1 as int) == trim(v@.subrange(from as int, to as int)),
{
    let ghost s = v@.subrange(from as int, to as int);
    let mut i: usize = from;
    while i < to && char_is_whitespace(v[i])
        invariant
            from <= i <= to <= v@.len(),
            s == v@.subrange(from as int, to as int),
            forall|j: int| from <= j < i ==> is_whitespace(#[trigger] v@[j]),
        decreases to - i,
    {
        i = i + 1;
    }
    proof {
        assert forall|j: int| 0 <= j < i - from implies is_whitespace(#[trigger] s[j]) by {
            assert(s[j] == v@[from + j]);
        }
        if i < to {
            assert(s[i - from] == v@[i as int]);
        }
        lemma_leading_ws(s, i - from);
    }
    let ghost t = s.skip(i - from);
    assert(t == v@.subrange(i as int, to as int));
    let mut e: usize = to;
    while e > i && char_is_whitespace(v[e - 1])
        invariant
            from <= i <= e <= to <= v@.len(),
            t == v@.subrange(i as int, to as int),
            forall|j: int| e <= j < to ==> is_whitespace(#[trigger] v@[j]),
        decreases e - i,
    {
        e = e - 1;
    }
    proof {
        let k = to - e;
        assert forall|j: int| t.len() - k <= j < t.len() implies is_whitespace(#[trigger] t[j]) by {
            assert(t[j] == v@[i + j]);
        }
        if k < t.len() {
            assert(t[t.len() - k - 1] == v@[e - 1]);
        }
        lemma_trailing_ws(t, k);
        assert(t.take(t.len() - k) == v@.subrange(i as int, e as int));
    }
    (i, e)
}

/// Characters that `str::trim_matches` strips in this crate.
#[derive(Debug, Clone, Copy, PartialEq, Eq, Structural)]
pub enum TrimSet {
    /// `"`.
    Quotes,
    /// `"` and the space.
    QuotesAndSpaces,
}

pub open spec fn in_trim_set(set: TrimSet, c: char) -> bool {
    match set {
        TrimSet::Quotes => c == '"',
        TrimSet::QuotesAndSpaces => c == '"' || c == ' ',
    }
}

fn char_in_trim_set(set: TrimSet, c: char) -> (r: bool)
    ensures
        r == in_trim_set(set, c),
{
    match set {
        TrimSet::Quotes => c == '"',
        TrimSet::QuotesAndSpaces => c == '"' || c == ' ',
    }
}

/// The number of leading characters of `s` in `set`.
pub open spec fn leading_in(s: Seq<char>, set: TrimSet) -> nat
    decreases s.len(),
{
    if s.len() > 0 && in_trim_set(set, s[0]) {
        1 + leading_in(s.drop_first(), set)
    } else {
        0
    }
}

/// The number of trailing characters of `s` in `set`.
pub open spec fn trailing_in(s: Seq<char>, set: TrimSet) -> nat
    decreases s.len(),
{
    if s.len() > 0 && in_trim_set(set, s.last()) {
        1 + trailing_in(s.drop_last(), set)
    } else {
        0
    }
}

/// `str::trim_matches`: `s` without its leading and trailing characters in
/// `set`.
pub open spec fn trim_in(s: Seq<char>, set: TrimSet) -> Seq<char> {
    let t = s.skip(leading_in(s, set) as int);
    t.take(t.len() - trailing_in(t, set))
}

proof fn lemma_leading_in(s: Seq<char>, set: TrimSet, i: int)
    requires
        0 <= i <= s.len(),
        forall|j: int| 0 <= j < i ==> in_trim_set(set, #[trigger] s[j]),
        i == s.len() || !in_trim_set(set, s[i]),
    ensures
        leading_in(s, set) == i,
    decreases i,
{
    if i > 0 {
        lemma_leading_in(s.drop_first(), set, i - 1);
    }
}

proof fn lemma_trailing_in(s: Seq<char>, set: TrimSet, k: int)
    requires
        0 <= k <= s.len(),
        forall|j: int| s.len() - k <= j < s.len() ==> in_trim_set(set, #[trigger] s[j]),
        k == s.len() || !in_trim_set(set, s[s.len() - k - 1]),
    ensures
        trailing_in(s, set) == k,
    decreases k,
{
    if k > 0 {
        let t = s.drop_last();
        assert forall|j: int| t.len() - (k - 1) <= j < t.len() implies in_trim_set(
            set,
            #[trigger] t[j],
        ) by {
            assert(t[j] == s[j]);
        }
        if k - 1 < t.len() {
            assert(t[t.len() - (k - 1) - 1] == s[s.len() - k - 1]);
        }
        lemma_trailing_in(t, set, k - 1);
    }
}

/// The bounds `(start, end)` of `trim_in(v[from..to], set)` within `v`.
pub fn trim_bounds_in(v: &[char], from: usize, to: usize, set: TrimSet) -> (r: (usize, usize))
    requires
        from <= to <= v@.len(),
    ensures
        from <= r.0 <= r.1 <= to,
        v@.subrange(r.0 as int, r.1 as int) == trim_in(v@.subrange(from as int, to as int), set),
{
    let ghost s = v@.subrange(from as int, to as int);
    let mut i: usize = from;
    while i < to && char_in_trim_set(set, v[i])
        invariant
            from <= i <= to <= v@.len(),
            s == v@.subrange(from as int, to as int),
            forall|j: int| from <= j < i ==> in_trim_set(set, #[trigger] v@[j]),
        decreases to - i,
    {
        i = i + 1;
    }
    proof {
        assert forall|j: int| 0 <= j < i - from implies in_trim_set(set, #[trigger] s[j]) by {
            assert(s[j] == v@[from + j]);
        }
        if i < to {
            assert(s[i - from] == v@[i as int]);
        }
        lemma_leading_in(s, set, i - from);
    }
    let ghost t = s.skip(i - from);
    assert(t == v@.subrange(i as int, to as int));
    let mut e: usize = to;
    while e > i && char_in_trim_set(set, v[e - 1])
        invariant
            from <= i <= e <= to <= v@.len(),
            t == v@.subrange(i as int, to as int),
            forall|j: int| e <= j < to ==> in_trim_set(set, #[trigger] v@[j]),
        decreases e - i,
    {
        e = e - 1;
    }
    proof {
        let k = to - e;
        assert forall|j: int| t.len() - k <= j < t.len() implies in_trim_set(set, #[trigger] t[j]) by {
            assert(t[j] == v@[i + j]);
        }
        if k < t.len() {
            assert(t[t.len() - k - 1] == v@[e - 1]);
        }
        lemma_trailing_in(t, set, k);
        assert(t.take(t.len() - k) == v@.subrange(i as int, e as int));
    }
    (i, e)
}

/// Whether `s` is empty after trimming whitespace (`s.trim().is_empty()`).
pub fn is_blank(s: &str) -> (r: bool)
    ensures
        r == (trim(s@).len() == 0),
{
    let v = chars_of(s);
    let (a, b) = trim_bounds(v.as_slice(), 0, v.len());
    assert(v@.subrange(0, v@.len() as int) == v@);
    a == b
}

// ---------------------------------------------------------------------------
// Searching
// ---------------------------------------------------------------------------

/// Whether `c` occurs in `s`.
pub open spec fn contains_char(s: Seq<char>, c: char) -> bool {
    exists|i: int| 0 <= i < s.len() && s[i] == c
}

/// The index of the first `c` in `s`, if any.
pub open spec fn first_index(s: Seq<char>, c: char) -> Option<int>
    decreases s.len(),
{
    if s.len() == 0 {
        None
    } else if s.last() == c && !contains_char(s.drop_last(), c) {
        Some(s.len() - 1)
    } else {
        first_index(s.drop_last(), c)
    }
}

/// The index of the last `c` in `s`, if any.
pub open spec fn last_index(s: Seq<char>, c: char) -> Option<int>
    decreases s.len(),
{
    if s.len() == 0 {
        None
    } else if s.last() == c {
        Some(s.len() - 1)
    } else {
        last_index(s.drop_last(), c)
    }
}

pub proof fn lemma_first_index(s: Seq<char>, c: char, i: int)
    requires
        0 <= i <= s.len(),
        forall|j: int| 0 <= j < i ==> s[j] != c,
        i < s.len() ==> s[i] == c,
    ensures
        first_index(s, c) == (if i < s.len() { Some(i) } else { None::<int> }),
        i == s.len() ==> !contains_char(s, c),
    decreases s.len(),
{
    if s.len() > 0 {
        let t = s.drop_last();
        if i < s.len() - 1 {
            assert(t[i] == s[i]);
            assert(s[i] == c);
            assert(contains_char(t, c));
            lemma_first_index(t, c, i);
        } else if i == s.len() - 1 {
            assert forall|j: int| 0 <= j < t.len() implies t[j] != c by {
                assert(t[j] == s[j]);
            }
        } else {
            assert forall|j: int| 0 <= j < t.len() implies t[j] != c by {
                assert(t[j] == s[j]);
            }
            lemma_first_index(t, c, i - 1);
        }
    }
}

pub proof fn lemma_last_index(s: Seq<char>, c: char, k: int)
    requires
        -1 <= k < s.len(),
        forall|j: int| k < j < s.len() ==> s[j] != c,
        k >= 0 ==> s[k] == c,
    ensures
        last_index(s, c) == (if k >= 0 { Some(k) } else { None::<int> }),
    decreases s.len(),
{
    if s.len() > 0 && k < s.len() - 1 {
        let t = s.drop_last();
        assert forall|j: int| k < j < t.len() implies t[j] != c by {
            assert(t[j] == s[j]);
        }
        if k >= 0 {
            assert(t[k] == s[k]);
        }
        lemma_last_index(t, c, k);
    }
}

/// Position of the first `c` in `v[from..to]`, relative to `v`.
pub fn find_char(v: &[char], from: usize, to: usize, c: char) -> (r: Option<usize>)
    requires
        from <= to <= v@.len(),
    ensures
        match first_index(v@.subrange(from as int, to as int), c) {
            Some(i) => r == Some((from + i) as usize),
            None => r is None,
        },
        r is None <==> !contains_char(v@.subrange(from as int, to as int), c),
        r matches Some(k) ==> from <= k < to && v@[k as int] == c && first_index(
            v@.subrange(from as int, to as int),
            c,
        ) == Some(k - from),
        r is None ==> first_index(v@.subrange(from as int, to as int), c) is None,
{
    let ghost s = v@.subrange(from as int, to as int);
    let mut i: usize = from;
    while i < to
        invariant
            from <= i <= to <= v@.len(),
            s == v@.subrange(from as int, to as int),
            forall|j: int| from <= j < i ==> v@[j] != c,
        decreases to - i,
    {
        if v[i] == c {
            proof {
                assert(s[i - from] == v@[i as int]);
                assert forall|j: int| 0 <= j < i - from implies s[j] != c by {
                    assert(s[j] == v@[from + j]);
                }
                lemma_first_index(s, c, i - from);
            }
            return Some(i);
        }
        i = i + 1;
    }
    proof {
        assert forall|j: int| 0 <= j < s.len() implies s[j] != c by {
            assert(s[j] == v@[from + j]);
        }
        lemma_first_index(s, c, s.len() as int);
    }
    None
}

/// Position of the last `c` in `v[from..to]`, relative to `v`.
pub fn rfind_char(v: &[char], from: usize, to: usize, c: char) -> (r: Option<usize>)
    requires
        from <= to <= v@.len(),
    ensures
        match last_index(v@.subrange(from as int, to as int), c) {
            Some(i) => r == Some((from + i) as usize),
            None => r is None,
        },
        r matches Some(k) ==> from <= k < to && v@[k as int] == c && last_index(
            v@.subrange(from as int, to as int),
            c,
        ) == Some(k - from),
        r is None ==> last_index(v@.subrange(from as int, to as int), c) is None,
{
    let ghost s = v@.subrange(from as int, to as int);
    let mut e: usize = to;
    while e > from
        invariant
            from <= e <= to <= v@.len(),
            s == v@.subrange(from as int, to as int),
            forall|j: int| e <= j < to ==> v@[j] != c,
        decreases e - from,
    {
        if v[e - 1] == c {
            proof {
                assert forall|j: int| e - 1 - from < j < s.len() implies s[j] != c by {
                    assert(s[j] == v@[from + j]);
                }
                lemma_last_index(s, c, e - 1 - from);
            }
            return Some(e - 1);
        }
        e = e - 1;
    }
    proof {
        assert forall|j: int| -1 < j < s.len() implies s[j] != c by {
            assert(s[j] == v@[from + j]);
        }
        lemma_last_index(s, c, -1);
    }
    None
}

/// Whether `p` is a prefix of `s`.
pub open spec fn has_prefix(s: Seq<char>, p: Seq<char>) -> bool {
    p.len() <= s.len() && s.take(p.len() as int) == p
}

pub fn starts_with_at(v: &[char], from: usize, p: &str) -> (r: bool)
    requires
        from <= v@.len(),
    ensures
        r == has_prefix(v@.skip(from as int), p@),
{
    let pv = chars_of(p);
    let n = v.len();
    if pv.len() > n - from {
        return false;
    }
    let mut i: usize = 0;
    while i < pv.len()
        invariant
            n == v@.len(),
            pv@ == p@,
            from <= v@.len(),
            from + pv@.len() <= v@.len(),
            i <= pv@.len(),
            forall|j: int| 0 <= j < i ==> v@[from + j] == pv@[j],
        decreases pv@.len() - i,
    {
        if v[from + i] != pv[i] {
            proof {
                let t = v@.skip(from as int).take(pv@.len() as int);
                assert(t[i as int] == v@[from + i]);
                assert(t[i as int] != pv@[i as int]);
                assert(t != pv@);
            }
            return false;
        }
        i = i + 1;
    }
    assert(v@.skip(from as int).take(pv@.len() as int) =~= pv@);
    true
}

// ---------------------------------------------------------------------------
// Unsigned integer syntax of `str::parse`
// ---------------------------------------------------------------------------

pub open spec fn is_digit(c: char) -> bool {
    '0' <= c && c <= '9'
}

pub open spec fn all_digits(s: Seq<char>) -> bool {
    forall|i: int| 0 <= i < s.len() ==> is_digit(#[trigger] s[i])
}

/// The value of a run of decimal digits.
pub open spec fn digits_value(s: Seq<char>) -> nat
    decreases s.len(),
{
    if s.len() == 0 {
        0
    } else {
        digits_value(s.drop_last()) * 10 + ((s.last() as u32) - 48) as nat
    }
}

/// What `s.parse::<uN>()` accepts: an optional `+`, at least one decimal
/// digit and nothing else, with a value of at most `max`.
pub open spec fn parse_unsigned(s: Seq<char>, max: nat) -> Option<nat> {
    let d = if s.len() > 0 && s[0] == '+' {
        s.drop_first()
    } else {
        s
    };
    if d.len() == 0 || !all_digits(d) || digits_value(d) > max {
        None
    } else {
        Some(digits_value(d))
    }
}

proof fn lemma_digits_value_monotone(s: Seq<char>, i: int)
    requires
        0 <= i <= s.len(),
        all_digits(s),
    ensures
        digits_value(s.take(i)) <= digits_value(s),
    decreases s.len() - i,
{
    if i < s.len() {
        lemma_digits_value_monotone(s, i + 1);
        assert(s.take(i + 1).drop_last() == s.take(i));
        assert(is_digit(s[i]));
    } else {
        assert(s.take(i) == s);
    }
}

/// Parses `v[from..to]` as `str::parse::<u64>` does.
pub fn parse_u64_range(v: &[char], from: usize, to: usize) -> (r: Option<u64>)
    requires
        from <= to <= v@.len(),
    ensures
        match parse_unsigned(v@.subrange(from as int, to as int), u64::MAX as nat) {
            Some(n) => r == Some(n as u64),
            None => r is None,
        },
{
    let ghost s = v@.subrange(from as int, to as int);
    let mut start = from;
    if start < to && v[start] == '+' {
        start = start + 1;
    }
    let ghost d = v@.subrange(start as int, to as int);
    assert(d == (if s.len() > 0 && s[0] == '+' {
        s.drop_first()
    } else {
        s
    }));
    if start == to {
        return None;
    }
    let mut value: u64 = 0;
    let mut i: usize = start;
    while i < to
        invariant
            from <= start <= i <= to <= v@.len(),
            d == v@.subrange(start as int, to as int),
            s == v@.subrange(from as int, to as int),
            d == (if s.len() > 0 && s[0] == '+' {
                s.drop_first()
            } else {
                s
            }),
            forall|j: int| start <= j < i ==> is_digit(#[trigger] v@[j]),
            value as nat == digits_value(d.take(i - start)),
        decreases to - i,
    {
        let c = v[i];
        proof {
            assert(d[i - start] == v@[i as int]);
        }
        if !('0' <= c && c <= '9') {
            proof {
                assert(!is_digit(d[i - start]));
                assert(!all_digits(d));
            }
            return None;
        }
        let digit: u64 = ((c as u32) - 48) as u64;
        proof {
            let t = d.take(i - start + 1);
            assert(t.drop_last() == d.take(i - start));
            assert(t.last() == c);
            assert(digits_value(t) == digits_value(d.take(i - start)) * 10 + digit);
        }
        if value > (u64::MAX - digit) / 10 {
            proof {
                assert forall|j: int| 0 <= j < i - start + 1 implies is_digit(
                    #[trigger] d.take(i - start + 1)[j],
                ) by {
                    assert(d.take(i - start + 1)[j] == v@[start + j]);
                }
                assert(value * 10 + digit > u64::MAX) by (nonlinear_arith)
                    requires
                        value > (u64::MAX - digit) / 10,
                        digit <= 9,
                ;
                if all_digits(d) {
                    lemma_digits_value_monotone(d, i - start + 1);
                    assert(digits_value(d) > u64::MAX);
                }
            }
            return None;
        }
        assert(value * 10 + digit <= u64::MAX) by (nonlinear_arith)
            requires
                value <= (u64::MAX - digit) / 10,
                digit <= 9,
        ;
        value = value * 10 + digit;
        i = i + 1;
    }
    assert(d.take(d.len() as int) == d);
    Some(value)
}

/// Parses a whole string as `str::parse::<u64>` does.
pub fn parse_u64(s: &str) -> (r: Option<u64>)
    ensures
        match parse_unsigned(s@, u64::MAX as nat) {
            Some(n) => r == Some(n as u64),
            None => r is None,
        },
{
    let v = chars_of(s);
    assert(v@.subrange(0, v@.len() as int) == v@);
    parse_u64_range(v.as_slice(), 0, v.len())
}

} // verus!

//! Taint-tracking string wrappers and the encoders used when untrusted text
//! is echoed back into HTML or into URLs.
use crate::text::sbytes;
use vstd::prelude::*;

verus! {

/// A value that arrived from the client and has not been escaped.
pub struct UntrustedString {
    value: String,
}

impl View for UntrustedString {
    type V = Seq<char>;

    open spec fn view(&self) -> Seq<char> {
        self.raw_text()
    }
}

impl UntrustedString {
    pub closed spec fn raw_text(&self) -> Seq<char> {
        self.value@
    }

    /// Wraps client-provided text.
    pub fn new(value: String) -> (r: Self)
        ensures
            r@ == value@,
    {
        UntrustedString { value }
    }

    /// The raw, unescaped text.
    pub fn as_str(&self) -> (r: &str)
        ensures
            r@ == self@,
    {
        self.value.as_str()
    }
}

/// Markup that is safe to splice into an HTML document.
pub struct SafeHtml {
    html: String,
}

impl View for SafeHtml {
    type V = Seq<char>;

    open spec fn view(&self) -> Seq<char> {
        self.markup()
    }
}

impl SafeHtml {
    pub closed spec fn markup(&self) -> Seq<char> {
        self.html@
    }

    /// The markup text.
    pub fn as_str(&self) -> (r: &str)
        ensures
            r@ == self@,
    {
        self.html.as_str()
    }

    /// Gives back the markup text.
    pub fn into_string(self) -> (r: String)
        ensures
            r@ == self@,
    {
        self.html
    }
}

/// The HTML entity that `html_escape::encode_safe` writes for a byte.
pub open spec fn html_entity(c: u8) -> Seq<u8> {
    if c == 38 {
        seq!['&' as u8, 'a' as u8, 'm' as u8, 'p' as u8, ';' as u8]
    } else if c == 60 {
        seq!['&' as u8, 'l' as u8, 't' as u8, ';' as u8]
    } else if c == 62 {
        seq!['&' as u8, 'g' as u8, 't' as u8, ';' as u8]
    } else if c == 34 {
        seq!['&' as u8, 'q' as u8, 'u' as u8, 'o' as u8, 't' as u8, ';' as u8]
    } else if c == 39 {
        seq!['&' as u8, '#' as u8, 'x' as u8, '2' as u8, '7' as u8, ';' as u8]
    } else if c == 47 {
        seq!['&' as u8, '#' as u8, 'x' as u8, '2' as u8, 'F' as u8, ';' as u8]
    } else {
        seq![c]
    }
}

/// `html_escape::encode_safe`: `&`, `<`, `>`, `"`, `'` and `/` become entities.
pub open spec fn html_escape(b: Seq<u8>) -> Seq<u8>
    decreases b.len(),
{
    if b.len() == 0 {
        seq![]
    } else {
        html_escape(b.drop_last()) + html_entity(b.last())
    }
}

/// HTML-escaped text holds no `<`, `>`, `"` or `'`: it cannot open a tag or
/// close an attribute value.
pub proof fn lemma_html_escape_inert(b: Seq<u8>)
    ensures
        forall|i: int|
            0 <= i < html_escape(b).len() ==> {
                let c = #[trigger] html_escape(b)[i];
                c != 60 && c != 62 && c != 34 && c != 39
            },
    decreases b.len(),
{
    if b.len() > 0 {
        lemma_html_escape_inert(b.drop_last());
        let pre = html_escape(b.drop_last());
        let e = html_entity(b.last());
        let r = html_escape(b);
        assert forall|i: int| 0 <= i < r.len() implies {
            let c = #[trigger] r[i];
            c != 60 && c != 62 && c != 34 && c != 39
        } by {
            if i < pre.len() {
                assert(r[i] == pre[i]);
            } else {
                assert(r[i] == e[i - pre.len()]);
            }
        }
    }
}

/// `html_escape::encode_safe` from the html-escape crate: every `&`, `<`, `>`,
/// `"`, `'` and `/` byte is replaced by its entity, all other bytes are kept.
#[verifier::external_body]
pub(crate) fn html_encode_safe(s: &str) -> (r: String)
    ensures
        sbytes(r@) == html_escape(sbytes(s@)),
{
    html_escape::encode_safe(s).into_owned()
}

/// Bytes that `urlencoding::encode` leaves as they are.
pub open spec fn url_unreserved(c: u8) -> bool {
    (48 <= c <= 57) || (65 <= c <= 90) || (97 <= c <= 122) || c == 45 || c == 46 || c == 95 || c
        == 126
}

/// An upper-case hexadecimal digit.
pub open spec fn hex_upper(d: u8) -> u8 {
    if d < 10 {
        (48 + d) as u8
    } else {
        (55 + d) as u8
    }
}

/// `urlencoding::encode` on bytes.
pub open spec fn url_escape(b: Seq<u8>) -> Seq<u8>
    decreases b.len(),
{
    if b.len() == 0 {
        seq![]
    } else {
        let c = b.last();
        url_escape(b.drop_last()) + if url_unreserved(c) {
            seq![c]
        } else {
            seq!['%' as u8, hex_upper(c / 16), hex_upper(c % 16)]
        }
    }
}

/// Percent-encoded text holds only unreserved bytes and `%`: no `&`, `=`,
/// `?`, `#`, `+` or space that could split or end a query parameter.
pub proof fn lemma_url_escape_unambiguous(b: Seq<u8>)
    ensures
        forall|i: int|
            0 <= i < url_escape(b).len() ==> url_unreserved(#[trigger] url_escape(b)[i])
                || url_escape(b)[i] == 37,
    decreases b.len(),
{
    if b.len() > 0 {
        lemma_url_escape_unambiguous(b.drop_last());
        let pre = url_escape(b.drop_last());
        let c = b.last();
        let tail = if url_unreserved(c) {
            seq![c]
        } else {
            seq!['%' as u8, hex_upper(c / 16), hex_upper(c % 16)]
        };
        let r = url_escape(b);
        assert(r == pre + tail);
        assert forall|i: int| 0 <= i < r.len() implies url_unreserved(#[trigger] r[i]) || r[i] == 37 by {
            if i < pre.len() {
                assert(r[i] == pre[i]);
            } else {
                assert(r[i] == tail[i - pre.len()]);
            }
        }
    }
}

/// `urlencoding::encode` from the urlencoding crate: every byte other than
/// ASCII letters, digits, `-`, `.`, `_` and `~` becomes `%XX` (upper-case hex).
#[verifier::external_body]
fn url_encode_raw(s: &str) -> (r: String)
    ensures
        sbytes(r@) == url_escape(sbytes(s@)),
{
    urlencoding::encode(s).into_owned()
}

/// `urlencoding::decode` on bytes: `%XX` with two hex digits becomes that
/// byte, everything else (a lone `%` and `+` included) stays.
pub open spec fn url_unescape(b: Seq<u8>) -> Seq<u8>
    decreases b.len(),
{
    if b.len() == 0 {
        seq![]
    } else if b[0] == 37 && b.len() >= 3 && crate::lex::hex_value(b[1]) is Some
        && crate::lex::hex_value(b[2]) is Some {
        seq![
            (crate::lex::hex_value(b[1]).unwrap() * 16 + crate::lex::hex_value(b[2]).unwrap()) as u8,
        ] + url_unescape(b.subrange(3, b.len() as int))
    } else {
        seq![b[0]] + url_unescape(b.subrange(1, b.len() as int))
    }
}

/// How `url_escape` writes one byte.
pub open spec fn escape_byte(c: u8) -> Seq<u8> {
    if url_unreserved(c) {
        seq![c]
    } else {
        seq!['%' as u8, hex_upper(c / 16), hex_upper(c % 16)]
    }
}

/// `url_escape` read from the front: the first byte's escape, then the rest's.
pub proof fn lemma_url_escape_front(b: Seq<u8>)
    requires
        b.len() > 0,
    ensures
        url_escape(b) == escape_byte(b[0]) + url_escape(b.subrange(1, b.len() as int)),
    decreases b.len(),
{
    let rest = b.subrange(1, b.len() as int);
    if b.len() == 1 {
        assert(b.drop_last().len() == 0);
        assert(rest.len() == 0);
        assert(url_escape(b) == url_escape(b.drop_last()) + escape_byte(b.last()));
        assert(url_escape(b.drop_last()) =~= Seq::<u8>::empty());
        assert(url_escape(rest) =~= Seq::<u8>::empty());
        assert(url_escape(b) =~= escape_byte(b[0]) + url_escape(rest));
    } else {
        let init = b.drop_last();
        lemma_url_escape_front(init);
        assert(init[0] == b[0]);
        assert(rest.drop_last() =~= init.subrange(1, init.len() as int));
        assert(rest.last() == b.last());
        assert(url_escape(b) == url_escape(init) + escape_byte(b.last()));
        assert(url_escape(rest) == url_escape(rest.drop_last()) + escape_byte(rest.last()));
        assert(url_escape(b) =~= escape_byte(b[0]) + url_escape(rest));
    }
}

/// The digit `hex_upper` writes reads back as its value.
pub(crate) proof fn lemma_hex_digit(d: u8)
    requires
        d < 16,
    ensures
        crate::lex::hex_value(hex_upper(d)) == Some(d),
        hex_upper(d) != 43,
        hex_upper(d) != 37,
{
}

/// Decoding one escaped byte gives the byte back.
proof fn lemma_unescape_step(c: u8, r: Seq<u8>)
    ensures
        url_unescape(escape_byte(c) + r) == seq![c] + url_unescape(r),
{
    let s = escape_byte(c) + r;
    if url_unreserved(c) {
        assert(s[0] == c);
        assert(s.subrange(1, s.len() as int) =~= r);
    } else {
        lemma_hex_digit(c / 16);
        lemma_hex_digit(c % 16);
        assert(s[0] == 37);
        assert(s[1] == hex_upper(c / 16));
        assert(s[2] == hex_upper(c % 16));
        assert(s.subrange(3, s.len() as int) =~= r);
        assert(((c / 16) * 16 + c % 16) as u8 == c) by (nonlinear_arith);
    }
}

/// What `urlencoding::encode` writes, `urlencoding::decode` reads back unchanged.
pub proof fn lemma_url_roundtrip(b: Seq<u8>)
    ensures
        url_unescape(url_escape(b)) == b,
        vstd::utf8::valid_utf8(b) ==> url_decoded_or_raw(url_escape(b)) == b,
    decreases b.len(),
{
    if b.len() == 0 {
        assert(url_escape(b) =~= Seq::<u8>::empty());
    } else {
        let rest = b.subrange(1, b.len() as int);
        lemma_url_escape_front(b);
        lemma_url_roundtrip(rest);
        lemma_unescape_step(b[0], url_escape(rest));
        assert(seq![b[0]] + rest =~= b);
    }
}

/// `urlencoding::decode` from the urlencoding crate: percent-decodes and
/// fails exactly when the decoded bytes are not valid UTF-8.
#[verifier::external_body]
pub(crate) fn url_decode(s: &str) -> (r: Option<String>)
    ensures
        r is Some <==> vstd::utf8::valid_utf8(url_unescape(sbytes(s@))),
        r matches Some(d) ==> sbytes(d@) == url_unescape(sbytes(s@)),
{
    match urlencoding::decode(s) {
        Ok(d) => Some(d.into_owned()),
        Err(_) => None,
    }
}

/// Text percent-decoded, or as it came where decoding does not give UTF-8.
pub open spec fn url_decoded_or_raw(v: Seq<u8>) -> Seq<u8> {
    if vstd::utf8::valid_utf8(url_unescape(v)) {
        url_unescape(v)
    } else {
        v
    }
}

/// The escaping entry points used when rendering.
pub struct Sanitizer;

impl Sanitizer {
    /// Escapes text for HTML.
    pub fn encode(raw: &str) -> (r: SafeHtml)
        ensures
            sbytes(r@) == html_escape(sbytes(raw@)),
    {
        SafeHtml { html: html_encode_safe(raw) }
    }

    /// Marks text the framework produced itself as safe markup.
    pub fn trust(html: &str) -> (r: SafeHtml)
        ensures
            r@ == html@,
    {
        SafeHtml { html: html.to_owned() }
    }

    /// Percent-decodes text from a URL; text whose decoding is not UTF-8 is
    /// given back as it came.
    pub fn url_decode(raw: &str) -> (r: String)
        ensures
            sbytes(r@) == url_decoded_or_raw(sbytes(raw@)),
    {
        match url_decode(raw) {
            Some(d) => d,
            None => raw.to_owned(),
        }
    }

    /// Percent-encodes text for a URL query component.
    pub fn url_encode(raw: &str) -> (r: String)
        ensures
            sbytes(r@) == url_escape(sbytes(raw@)),
    {
        url_encode_raw(raw)
    }
}

} // verus!

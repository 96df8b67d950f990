//! HTTP/1.x request model and the parsing of a request's bytes.
use crate::lex::{
    join, lemma_find_in_append, lemma_split_join, lemma_split_single, ascii_lower, contains_seq, first_tokens, hex_value, hex_value_of, line_ranges, lines_of,
    lower_copy, parse_usize_range, parse_usize_spec, range_contains, range_starts_with,
    range_views, ranges_within, split_on, split_once, split_ranges, starts_with, trim, trim_bounds,
    ws_tokens,
};
use crate::multimap::{mm_push, MultiMap};
use crate::security::UntrustedString;
use crate::text::{append_range, copy_range, find_byte, find_byte_in, find_seq_from, find_seq_in, has_byte, is_boundary, is_valid_utf8, lemma_ascii_boundaries, lemma_ascii_valid, lemma_chars_of, lemma_find_byte_from, lemma_valid_concat, lemma_valid_subrange, sbytes, str_bytes, str_to_string, string_from_range, string_from_utf8, string_from_valid, to_lowercase, unicode_lowercase};
use vstd::utf8::decode_utf8;
use vstd::prelude::*;
use vstd::utf8::valid_utf8;

verus! {

broadcast use vstd::utf8::encode_utf8_valid_utf8;

/// The request methods the router distinguishes.
#[derive(Debug, Clone, Copy, PartialEq, Eq, Hash, Structural)]
pub enum HttpMethod {
    GET,
    POST,
    PUT,
    PATCH,
    DELETE,
    OPTIONS,
    HEAD,
    UNKNOWN,
}

// ------------------------------------------------------------------
// Percent-decoding
// ------------------------------------------------------------------
/// `u8::from_str_radix` on the two characters after a `%`: two hex digits,
/// or a `+` sign and one hex digit.
pub open spec fn radix_pair(c1: u8, c2: u8) -> Option<u8> {
    if c1 == 43 {
        hex_value(c2)
    } else {
        match (hex_value(c1), hex_value(c2)) {
            (Some(h), Some(l)) => Some((h * 16 + l) as u8),
            _ => None,
        }
    }
}

/// The bytes `percent_decode` produces: `+` is a space, `%` followed by a
/// radix pair (with at least one more byte after `%`'s second follower not
/// required, but the pair itself strictly inside the input) is that byte.
pub open spec fn pct_decode(b: Seq<u8>) -> Seq<u8>
    decreases b.len(),
{
    if b.len() == 0 {
        seq![]
    } else if b[0] == 43 {
        seq![32u8] + pct_decode(b.subrange(1, b.len() as int))
    } else if b[0] == 37 && b.len() > 2 && radix_pair(b[1], b[2]) is Some {
        seq![radix_pair(b[1], b[2]).unwrap()] + pct_decode(b.subrange(3, b.len() as int))
    } else {
        seq![b[0]] + pct_decode(b.subrange(1, b.len() as int))
    }
}

/// The result of `percent_decode`: the decoded bytes when they are valid
/// UTF-8, the input unchanged otherwise.
pub open spec fn percent_decode_spec(b: Seq<u8>) -> Seq<u8> {
    if valid_utf8(pct_decode(b)) {
        pct_decode(b)
    } else {
        b
    }
}

proof fn lemma_pct_identity(b: Seq<u8>)
    requires
        !has_byte(b, 37),
        !has_byte(b, 43),
    ensures
        pct_decode(b) == b,
    decreases b.len(),
{
    if b.len() > 0 {
        let rest = b.subrange(1, b.len() as int);
        assert(!has_byte(rest, 37)) by {
            if has_byte(rest, 37) {
                let i = choose|i: int| 0 <= i < rest.len() && rest[i] == 37;
                assert(b[i + 1] == 37);
            }
        }
        assert(!has_byte(rest, 43)) by {
            if has_byte(rest, 43) {
                let i = choose|i: int| 0 <= i < rest.len() && rest[i] == 43;
                assert(b[i + 1] == 43);
            }
        }
        lemma_pct_identity(rest);
        assert(b[0] != 43 && b[0] != 37);
        assert(seq![b[0]] + rest =~= b);
    }
}

/// Decodes `+` and `%XX` escapes of a URL component.  Returns the input
/// unchanged when it holds neither `%` nor `+`, or when the decoded bytes
/// are not valid UTF-8.
pub fn percent_decode(input: &str) -> (r: String)
    ensures
        sbytes(r@) == percent_decode_spec(sbytes(input@)),
{
    let bytes = str_bytes(input);
    if !slice_has_byte(bytes, 37) && !slice_has_byte(bytes, 43) {
        proof {
            lemma_pct_identity(bytes@);
        }
        return str_to_string(input);
    }
    let mut out: Vec<u8> = Vec::new();
    let mut i: usize = 0;
    assert(bytes@.subrange(0, bytes@.len() as int) =~= bytes@);
    assert(out@ + pct_decode(bytes@) =~= pct_decode(bytes@));
    while i < bytes.len()
        invariant
            i <= bytes@.len(),
            out@ + pct_decode(bytes@.subrange(i as int, bytes@.len() as int)) == pct_decode(
                bytes@,
            ),
        decreases bytes@.len() - i,
    {
        let ghost cur = bytes@.subrange(i as int, bytes@.len() as int);
        let c = bytes[i];
        assert(cur[0] == c);
        if c == 43 {
            out.push(32);
            proof {
                assert(cur.subrange(1, cur.len() as int) =~= bytes@.subrange(
                    i + 1,
                    bytes@.len() as int,
                ));
                assert(out@ + pct_decode(bytes@.subrange(i + 1, bytes@.len() as int)) =~= out@.drop_last()
                    + pct_decode(cur));
            }
            i = i + 1;
        } else if c == 37 && bytes.len() - i > 2 {
            let c1 = bytes[i + 1];
            let c2 = bytes[i + 2];
            assert(cur[1] == c1 && cur[2] == c2);
            let pair = radix_pair_of(c1, c2);
            match pair {
                Some(h) => {
                    out.push(h);
                    proof {
                        assert(cur.subrange(3, cur.len() as int) =~= bytes@.subrange(
                            i + 3,
                            bytes@.len() as int,
                        ));
                        assert(out@ + pct_decode(bytes@.subrange(i + 3, bytes@.len() as int))
                            =~= out@.drop_last() + pct_decode(cur));
                    }
                    i = i + 3;
                },
                None => {
                    out.push(c);
                    proof {
                        assert(cur.subrange(1, cur.len() as int) =~= bytes@.subrange(
                            i + 1,
                            bytes@.len() as int,
                        ));
                        assert(out@ + pct_decode(bytes@.subrange(i + 1, bytes@.len() as int))
                            =~= out@.drop_last() + pct_decode(cur));
                    }
                    i = i + 1;
                },
            }
        } else {
            out.push(c);
            proof {
                assert(cur.subrange(1, cur.len() as int) =~= bytes@.subrange(
                    i + 1,
                    bytes@.len() as int,
                ));
                assert(out@ + pct_decode(bytes@.subrange(i + 1, bytes@.len() as int)) =~= out@.drop_last()
                    + pct_decode(cur));
            }
            i = i + 1;
        }
    }
    proof {
        assert(bytes@.subrange(i as int, bytes@.len() as int).len() == 0);
        assert(out@ =~= pct_decode(bytes@));
    }
    match string_from_utf8(out) {
        Some(s) => s,
        None => str_to_string(input),
    }
}

fn radix_pair_of(c1: u8, c2: u8) -> (r: Option<u8>)
    ensures
        r == radix_pair(c1, c2),
{
    if c1 == 43 {
        hex_value_of(c2)
    } else {
        match (hex_value_of(c1), hex_value_of(c2)) {
            (Some(h), Some(l)) => Some(h * 16 + l),
            _ => None,
        }
    }
}

/// Does the slice hold byte `c`?
pub fn slice_has_byte(b: &[u8], c: u8) -> (r: bool)
    ensures
        r == has_byte(b@, c),
{
    let mut i: usize = 0;
    while i < b.len()
        invariant
            i <= b@.len(),
            forall|j: int| 0 <= j < i ==> b@[j] != c,
        decreases b@.len() - i,
    {
        if b[i] == c {
            return true;
        }
        i = i + 1;
    }
    false
}

// ------------------------------------------------------------------
// Path canonicalisation
// ------------------------------------------------------------------
/// `..` and `.` as bytes.
pub open spec fn dot() -> Seq<u8> {
    seq![46u8]
}

pub open spec fn dot_dot() -> Seq<u8> {
    seq![46u8, 46u8]
}

/// The segment stack after walking the pieces of a path: empty pieces and
/// `.` are skipped, `..` drops the last kept segment.
pub open spec fn segment_fold(pieces: Seq<Seq<u8>>) -> Seq<Seq<u8>>
    decreases pieces.len(),
{
    if pieces.len() == 0 {
        seq![]
    } else {
        let acc = segment_fold(pieces.drop_last());
        let p = pieces.last();
        if p.len() == 0 || p == dot() {
            acc
        } else if p == dot_dot() {
            if acc.len() > 0 {
                acc.drop_last()
            } else {
                acc
            }
        } else {
            acc.push(p)
        }
    }
}

/// A path that needs no canonicalisation: no `.` and no `//`.
pub open spec fn is_plain_path(b: Seq<u8>) -> bool {
    !has_byte(b, 46) && !contains_seq(b, seq![47u8, 47u8])
}

/// What `sanitize_path` returns for the bytes of a path.
pub open spec fn sanitize_path_spec(b: Seq<u8>) -> Seq<u8> {
    if is_plain_path(b) {
        b
    } else {
        seq![47u8] + join(segment_fold(split_on(b, 47)), seq![47u8])
    }
}

/// A hexadecimal digit in either case.
pub open spec fn is_hex_digit(c: u8) -> bool {
    (48 <= c <= 57) || (65 <= c <= 70) || (97 <= c <= 102)
}

/// The value of a hexadecimal digit, `a`-`f` and `A`-`F` alike.
pub open spec fn digit_value(c: u8) -> int {
    if c <= 57 {
        c - 48
    } else if c <= 70 {
        c - 55
    } else {
        c - 87
    }
}

/// `%` and two hexadecimal digits, in either case, decode to the byte they
/// write, and decoding goes on after them.
pub proof fn lemma_percent_escape_decodes(h1: u8, h2: u8, rest: Seq<u8>)
    requires
        is_hex_digit(h1),
        is_hex_digit(h2),
    ensures
        pct_decode(seq![37u8, h1, h2] + rest) == seq![(16 * digit_value(h1) + digit_value(h2)) as u8]
            + pct_decode(rest),
{
    let b = seq![37u8, h1, h2] + rest;
    assert(b[0] == 37 && b[1] == h1 && b[2] == h2);
    assert(b.subrange(3, b.len() as int) =~= rest);
}

/// `+` decodes to a space, and decoding goes on after it.
pub proof fn lemma_plus_decodes_to_space(rest: Seq<u8>)
    ensures
        pct_decode(seq![43u8] + rest) == seq![32u8] + pct_decode(rest),
{
    let b = seq![43u8] + rest;
    assert(b[0] == 43);
    assert(b.subrange(1, b.len() as int) =~= rest);
}

/// Text with neither `%` nor `+` comes out of `percent_decode` unchanged.
pub proof fn lemma_percent_decode_plain(b: Seq<u8>)
    requires
        !has_byte(b, 37),
        !has_byte(b, 43),
    ensures
        percent_decode_spec(b) == b,
{
    lemma_pct_identity(b);
}

/// Decoding one byte as `urlencoding::encode` wrote it gives the byte back.
proof fn lemma_pct_step(c: u8, r: Seq<u8>)
    ensures
        pct_decode(crate::security::escape_byte(c) + r) == seq![c] + pct_decode(r),
{
    let s = crate::security::escape_byte(c) + r;
    if crate::security::url_unreserved(c) {
        assert(s[0] == c);
        assert(s.subrange(1, s.len() as int) =~= r);
    } else {
        crate::security::lemma_hex_digit(c / 16);
        crate::security::lemma_hex_digit(c % 16);
        assert(s[0] == 37);
        assert(s[1] == crate::security::hex_upper(c / 16));
        assert(s[2] == crate::security::hex_upper(c % 16));
        assert(s.subrange(3, s.len() as int) =~= r);
        assert(((c / 16) * 16 + c % 16) as u8 == c) by (nonlinear_arith);
    }
}

/// What `Sanitizer::url_encode` writes into a link, the request parser's
/// `percent_decode` reads back unchanged.
pub proof fn lemma_percent_decode_reads_url_encoded(b: Seq<u8>)
    ensures
        pct_decode(crate::security::url_escape(b)) == b,
        valid_utf8(b) ==> percent_decode_spec(crate::security::url_escape(b)) == b,
    decreases b.len(),
{
    if b.len() == 0 {
        assert(crate::security::url_escape(b) =~= Seq::<u8>::empty());
    } else {
        let rest = b.subrange(1, b.len() as int);
        crate::security::lemma_url_escape_front(b);
        lemma_percent_decode_reads_url_encoded(rest);
        lemma_pct_step(b[0], crate::security::url_escape(rest));
        assert(seq![b[0]] + rest =~= b);
    }
}

/// The pieces `split_on` cuts never hold the separator.
proof fn lemma_split_pieces_clean(b: Seq<u8>, c: u8)
    ensures
        forall|i: int| 0 <= i < split_on(b, c).len() ==> !has_byte(#[trigger] split_on(b, c)[i], c),
    decreases b.len(),
{
    lemma_find_byte_from(b, c, 0);
    match find_byte(b, c) {
        None => {
            assert forall|i: int| 0 <= i < split_on(b, c).len() implies !has_byte(
                #[trigger] split_on(b, c)[i],
                c,
            ) by {
                assert(split_on(b, c)[i] == b);
            }
        },
        Some(k) => {
            let rest = b.subrange(k + 1, b.len() as int);
            lemma_split_pieces_clean(rest, c);
            let head = b.subrange(0, k);
            assert(!has_byte(head, c)) by {
                if has_byte(head, c) {
                    let j = choose|j: int| 0 <= j < head.len() && head[j] == c;
                    assert(b[j] == c);
                }
            }
            assert forall|i: int| 0 <= i < split_on(b, c).len() implies !has_byte(
                #[trigger] split_on(b, c)[i],
                c,
            ) by {
                if i > 0 {
                    assert(split_on(b, c)[i] == split_on(rest, c)[i - 1]);
                }
            }
        },
    }
}

/// A path segment that stays where it is: not empty, not `.`, not `..`, no `/`.
pub open spec fn proper_segment(s: Seq<u8>) -> bool {
    s.len() > 0 && s != dot() && s != dot_dot() && !has_byte(s, 47)
}

/// Walking pieces keeps only proper segments.
proof fn lemma_segment_fold_proper(pieces: Seq<Seq<u8>>)
    requires
        forall|i: int| 0 <= i < pieces.len() ==> !has_byte(#[trigger] pieces[i], 47),
    ensures
        forall|i: int|
            0 <= i < segment_fold(pieces).len() ==> proper_segment(#[trigger] segment_fold(pieces)[i]),
    decreases pieces.len(),
{
    if pieces.len() > 0 {
        let init = pieces.drop_last();
        assert forall|i: int| 0 <= i < init.len() implies !has_byte(#[trigger] init[i], 47) by {
            assert(init[i] == pieces[i]);
        }
        lemma_segment_fold_proper(init);
        let acc = segment_fold(init);
        let r = segment_fold(pieces);
        assert(!has_byte(pieces[pieces.len() - 1], 47));
        assert forall|i: int| 0 <= i < r.len() implies proper_segment(#[trigger] r[i]) by {
            assert(r[i] == acc[i] || (i == acc.len() && r[i] == pieces.last()));
        }
    }
}

/// No sanitized path climbs out of the root: it is either a path with no
/// `.` and no `//` at all, or `/` followed by segments joined by `/`, none
/// of them empty, `.` or `..`.
pub proof fn lemma_sanitized_path_stays_in_root(b: Seq<u8>)
    ensures
        (is_plain_path(b) && sanitize_path_spec(b) == b) || exists|segs: Seq<Seq<u8>>|
            (forall|i: int| 0 <= i < segs.len() ==> proper_segment(#[trigger] segs[i]))
                && sanitize_path_spec(b) == seq![47u8] + join(segs, seq![47u8]),
{
    if !is_plain_path(b) {
        lemma_split_pieces_clean(b, 47);
        lemma_segment_fold_proper(split_on(b, 47));
        let segs = segment_fold(split_on(b, 47));
        assert((forall|i: int| 0 <= i < segs.len() ==> proper_segment(#[trigger] segs[i]))
            && sanitize_path_spec(b) == seq![47u8] + join(segs, seq![47u8]));
    }
}

/// Splitting `/` and pieces joined by `/` gives an empty piece, then the pieces.
proof fn lemma_split_rooted(segs: Seq<Seq<u8>>)
    requires
        forall|i: int| 0 <= i < segs.len() ==> proper_segment(#[trigger] segs[i]),
    ensures
        split_on(seq![47u8] + join(segs, seq![47u8]), 47) == (if segs.len() == 0 {
            seq![Seq::<u8>::empty(), Seq::<u8>::empty()]
        } else {
            seq![Seq::<u8>::empty()] + segs
        }),
{
    let x = join(segs, seq![47u8]);
    let b = seq![47u8] + x;
    lemma_find_byte_from(b, 47, 0);
    assert(find_byte(b, 47) == Some(0int));
    assert(b.subrange(0, 0) =~= Seq::<u8>::empty());
    assert(b.subrange(1, b.len() as int) =~= x);
    if segs.len() == 0 {
        assert(x =~= Seq::<u8>::empty());
        lemma_split_single(x, 47);
        assert(split_on(b, 47) =~= seq![Seq::<u8>::empty(), Seq::<u8>::empty()]);
    } else {
        assert forall|i: int, j: int| 0 <= i < segs.len() && 0 <= j < segs[i].len() implies #[trigger] segs[i][j] != 47 by {
            assert(proper_segment(segs[i]));
        }
        lemma_split_join(segs, 47);
    }
}

/// Walking an empty piece and then proper segments keeps the segments.
proof fn lemma_fold_proper(segs: Seq<Seq<u8>>)
    requires
        forall|i: int| 0 <= i < segs.len() ==> proper_segment(#[trigger] segs[i]),
    ensures
        segment_fold(seq![Seq::<u8>::empty()] + segs) == segs,
    decreases segs.len(),
{
    let e = Seq::<u8>::empty();
    if segs.len() == 0 {
        assert(seq![e] + segs =~= seq![e]);
        assert(seq![e].drop_last() =~= Seq::<Seq<u8>>::empty());
        assert(segment_fold(Seq::<Seq<u8>>::empty()) == Seq::<Seq<u8>>::empty());
        assert(seq![e].last() == e);
        assert(segment_fold(seq![e]) == segment_fold(seq![e].drop_last()));
    } else {
        let init = segs.drop_last();
        assert forall|i: int| 0 <= i < init.len() implies proper_segment(#[trigger] init[i]) by {
            assert(init[i] == segs[i]);
        }
        lemma_fold_proper(init);
        assert((seq![e] + segs).drop_last() =~= seq![e] + init);
        assert((seq![e] + segs).last() == segs[segs.len() - 1]);
        assert(proper_segment(segs[segs.len() - 1]));
        assert(init.push(segs.last()) =~= segs);
        let x = seq![e] + segs;
        assert(segment_fold(x) == segment_fold(x.drop_last()).push(x.last()));
    }
}

/// Sanitizing a sanitized path changes nothing.
pub proof fn lemma_sanitize_path_idempotent(b: Seq<u8>)
    ensures
        sanitize_path_spec(sanitize_path_spec(b)) == sanitize_path_spec(b),
{
    if !is_plain_path(b) {
        lemma_split_pieces_clean(b, 47);
        lemma_segment_fold_proper(split_on(b, 47));
        let segs = segment_fold(split_on(b, 47));
        let s = sanitize_path_spec(b);
        if !is_plain_path(s) {
            lemma_split_rooted(segs);
            let e = Seq::<u8>::empty();
            if segs.len() == 0 {
                assert(seq![e, e].drop_last() =~= seq![e]);
                assert(seq![e].drop_last() =~= Seq::<Seq<u8>>::empty());
                assert(segment_fold(seq![e, e]) =~= Seq::<Seq<u8>>::empty());
            } else {
                lemma_fold_proper(segs);
            }
        }
    }
}

/// Canonicalises a request path: resolves `.` and `..` segments and
/// collapses repeated slashes, so that no path escapes the root.
pub fn sanitize_path(path: &str) -> (r: String)
    ensures
        sbytes(r@) == sanitize_path_spec(sbytes(path@)),
{
    let b = str_bytes(path);
    let slashes: [u8; 2] = [47, 47];
    let sl: &[u8] = &slashes;
    assert(sl@ == seq![47u8, 47u8]);
    if !slice_has_byte(b, 46) && !range_contains(b, 0, b.len(), sl) {
        proof {
            assert(b@.subrange(0, b@.len() as int) =~= b@);
        }
        return str_to_string(path);
    }
    let pieces = split_ranges(b, 0, b.len(), 47);
    assert(b@.subrange(0, b@.len() as int) =~= b@);
    let ghost pv = range_views(b@, pieces@);
    let mut stack: Vec<(usize, usize)> = Vec::new();
    let mut j: usize = 0;
    while j < pieces.len()
        invariant
            j <= pieces@.len(),
            pv == range_views(b@, pieces@),
            pv == split_on(b@, 47),
            ranges_within(b@, pieces@, 0, b@.len() as int),
            ranges_within(b@, stack@, 0, b@.len() as int),
            range_views(b@, stack@) == segment_fold(pv.take(j as int)),
            valid_utf8(b@),
        decreases pieces@.len() - j,
    {
        let (lo, hi) = pieces[j];
        let ghost p = b@.subrange(lo as int, hi as int);
        assert(pv[j as int] == p);
        assert(pv.take(j + 1).drop_last() =~= pv.take(j as int));
        assert(pv.take(j + 1).last() == p);
        if hi == lo {
        } else if hi - lo == 1 && b[lo] == 46 {
            assert(p =~= dot());
        } else if hi - lo == 2 && b[lo] == 46 && b[lo + 1] == 46 {
            assert(p =~= dot_dot());
            if stack.len() > 0 {
                let ghost before = stack@;
                stack.pop();
                proof {
                    assert(stack@ =~= before.drop_last());
                    assert(range_views(b@, stack@) =~= range_views(b@, before).drop_last());
                }
            }
            proof {
                assert(range_views(b@, stack@) =~= segment_fold(pv.take(j + 1)));
            }
        } else {
            proof {
                if hi - lo == 1 {
                    assert(p[0] == b@[lo as int]);
                }
                if hi - lo == 2 {
                    assert(p[0] == b@[lo as int]);
                    assert(p[1] == b@[lo + 1]);
                }
                assert(p != dot());
                assert(p != dot_dot());
            }
            stack.push((lo, hi));
            proof {
                assert(range_views(b@, stack@) =~= range_views(b@, stack@.drop_last()).push(p));
            }
        }
        j = j + 1;
    }
    assert(pv.take(pieces@.len() as int) =~= pv);
    // Join the kept segments behind a leading slash.
    let mut out: Vec<u8> = Vec::new();
    out.push(47);
    let ghost sv = range_views(b@, stack@);
    proof {
        lemma_ascii_valid(out@);
    }
    let mut k: usize = 0;
    while k < stack.len()
        invariant
            k <= stack@.len(),
            sv == range_views(b@, stack@),
            ranges_within(b@, stack@, 0, b@.len() as int),
            valid_utf8(b@),
            out@ == seq![47u8] + join(sv.take(k as int), seq![47u8]),
            valid_utf8(out@),
        decreases stack@.len() - k,
    {
        let (lo, hi) = stack[k];
        let ghost before = out@;
        if k > 0 {
            out.push(47);
            proof {
                lemma_ascii_valid(seq![47u8]);
                lemma_valid_concat(before, seq![47u8]);
                assert(out@ =~= before + seq![47u8]);
            }
        }
        let ghost mid = out@;
        append_range(&mut out, b, lo, hi);
        proof {
            assert(is_boundary(b@, 0));
            assert(is_boundary(b@, b@.len() as int));
            lemma_valid_subrange(b@, lo as int, hi as int);
            lemma_valid_concat(mid, b@.subrange(lo as int, hi as int));
            assert(sv[k as int] == b@.subrange(lo as int, hi as int));
            let t = sv.take(k + 1);
            assert(t.drop_last() =~= sv.take(k as int));
            if k == 0 {
                assert(join(t, seq![47u8]) == t[0]);
                assert(out@ =~= seq![47u8] + join(t, seq![47u8]));
            } else {
                assert(out@ =~= seq![47u8] + join(t, seq![47u8]));
            }
        }
        k = k + 1;
    }
    assert(sv.take(stack@.len() as int) =~= sv);
    string_from_valid(out)
}


// ------------------------------------------------------------------
// Key/value pairs (query strings and url-encoded bodies)
// ------------------------------------------------------------------
/// The map built from `k=v` pieces: both sides percent-decoded, pieces
/// without `=` ignored, repeated keys collecting every value in order.
pub open spec fn pairs_fold(pieces: Seq<Seq<u8>>) -> Map<Seq<char>, Seq<Seq<char>>>
    decreases pieces.len(),
{
    if pieces.len() == 0 {
        Map::empty()
    } else {
        let acc = pairs_fold(pieces.drop_last());
        match split_once(pieces.last(), 61) {
            Some((k, v)) => mm_push(
                acc,
                decode_utf8(percent_decode_spec(k)),
                decode_utf8(percent_decode_spec(v)),
            ),
            None => acc,
        }
    }
}

/// The decoded keys of `k=v` pieces, each once, in the order they first occur.
pub open spec fn pairs_keys(pieces: Seq<Seq<u8>>) -> Seq<Seq<char>>
    decreases pieces.len(),
{
    if pieces.len() == 0 {
        seq![]
    } else {
        let acc = pairs_keys(pieces.drop_last());
        match split_once(pieces.last(), 61) {
            Some((k, _)) => {
                let kc = decode_utf8(percent_decode_spec(k));
                if pairs_fold(pieces.drop_last()).contains_key(kc) {
                    acc
                } else {
                    acc.push(kc)
                }
            },
            None => acc,
        }
    }
}

/// The map `application/x-www-form-urlencoded` text describes.
pub open spec fn parse_pairs_spec(b: Seq<u8>) -> Map<Seq<char>, Seq<Seq<char>>> {
    pairs_fold(split_on(b, 38))
}

proof fn lemma_percent_decode_valid(b: Seq<u8>)
    requires
        valid_utf8(b),
    ensures
        valid_utf8(percent_decode_spec(b)),
{
}

/// Decodes the `&`-separated `k=v` pairs of `b[lo..hi]`.
pub fn parse_pairs(b: &[u8], lo: usize, hi: usize) -> (m: MultiMap<UntrustedString>)
    requires
        lo <= hi <= b@.len(),
        valid_utf8(b@),
        is_boundary(b@, lo as int),
        is_boundary(b@, hi as int),
    ensures
        m.wf(),
        m@ == parse_pairs_spec(b@.subrange(lo as int, hi as int)),
        m.key_seq() == pairs_keys(split_on(b@.subrange(lo as int, hi as int), 38)),
{
    let pieces = split_ranges(b, lo, hi, 38);
    let ghost pv = range_views(b@, pieces@);
    let mut m: MultiMap<UntrustedString> = MultiMap::new();
    let mut j: usize = 0;
    assert(pairs_fold(pv.take(0)) =~= Map::<Seq<char>, Seq<Seq<char>>>::empty()) by {
        assert(pv.take(0).len() == 0);
    }
    assert(pairs_keys(pv.take(0)) =~= Seq::<Seq<char>>::empty()) by {
        assert(pv.take(0).len() == 0);
    }
    while j < pieces.len()
        invariant
            j <= pieces@.len(),
            pv == range_views(b@, pieces@),
            pv == split_on(b@.subrange(lo as int, hi as int), 38),
            ranges_within(b@, pieces@, lo as int, hi as int),
            valid_utf8(b@),
            is_boundary(b@, lo as int),
            is_boundary(b@, hi as int),
            m.wf(),
            m@ == pairs_fold(pv.take(j as int)),
            m.key_seq() == pairs_keys(pv.take(j as int)),
        decreases pieces@.len() - j,
    {
        let (plo, phi) = pieces[j];
        let ghost p = b@.subrange(plo as int, phi as int);
        assert(pv[j as int] == p);
        assert(pv.take(j + 1).drop_last() =~= pv.take(j as int));
        assert(pv.take(j + 1).last() == p);
        let eq = find_byte_in(b, 61, plo, phi);
        match eq {
            Some(e) => {
                proof {
                    lemma_find_byte_from(p, 61, 0);
                    assert(find_byte(p, 61) == Some(e - plo));
                    assert(p.subrange(0, e - plo) =~= b@.subrange(plo as int, e as int));
                    assert(p.subrange(e - plo + 1, p.len() as int) =~= b@.subrange(
                        e + 1,
                        phi as int,
                    ));
                    lemma_ascii_boundaries(b@, e as int);
                }
                let ks = string_from_range(b, plo, e);
                let vs = string_from_range(b, e + 1, phi);
                let key = percent_decode(ks.as_str());
                let val = percent_decode(vs.as_str());
                proof {
                    lemma_percent_decode_valid(b@.subrange(plo as int, e as int));
                    lemma_chars_of(key@, percent_decode_spec(b@.subrange(plo as int, e as int)));
                    lemma_chars_of(val@, percent_decode_spec(b@.subrange(e + 1, phi as int)));
                }
                m.push(key, UntrustedString::new(val));
            },
            None => {
                proof {
                    lemma_find_byte_from(p, 61, 0);
                }
            },
        }
        j = j + 1;
    }
    assert(pv.take(pieces@.len() as int) =~= pv);
    m
}

/// A link parameter as written: `key=text`.
pub open spec fn param_text(p: (Seq<u8>, Seq<u8>)) -> Seq<u8> {
    p.0 + seq![61u8] + p.1
}

/// The parameters of a link, each written by `param_text`.
pub open spec fn params_text(ps: Seq<(Seq<u8>, Seq<u8>)>) -> Seq<Seq<u8>> {
    ps.map_values(|p: (Seq<u8>, Seq<u8>)| param_text(p))
}

/// Each key with the values its texts decode to, in the order written.
pub open spec fn pairs_read(ps: Seq<(Seq<u8>, Seq<u8>)>) -> Map<Seq<char>, Seq<Seq<char>>>
    decreases ps.len(),
{
    if ps.len() == 0 {
        Map::empty()
    } else {
        mm_push(
            pairs_read(ps.drop_last()),
            decode_utf8(ps.last().0),
            decode_utf8(percent_decode_spec(ps.last().1)),
        )
    }
}

/// The keys of the parameters, each once, in the order they first occur.
pub open spec fn keys_read(ps: Seq<(Seq<u8>, Seq<u8>)>) -> Seq<Seq<char>>
    decreases ps.len(),
{
    if ps.len() == 0 {
        seq![]
    } else if pairs_read(ps.drop_last()).contains_key(decode_utf8(ps.last().0)) {
        keys_read(ps.drop_last())
    } else {
        keys_read(ps.drop_last()).push(decode_utf8(ps.last().0))
    }
}

/// A key that needs no encoding in a query: UTF-8 without `%`, `+`, `&` or `=`.
pub open spec fn plain_key(k: Seq<u8>) -> bool {
    valid_utf8(k) && !has_byte(k, 37) && !has_byte(k, 43) && !has_byte(k, 38) && !has_byte(k, 61)
}

/// A parameter a query can carry: a plain key, and a text without `&`.
pub open spec fn carried(p: (Seq<u8>, Seq<u8>)) -> bool {
    plain_key(p.0) && !has_byte(p.1, 38)
}

/// One written parameter holds no `&`, and splits at its first `=` into key and text.
proof fn lemma_param_text(p: (Seq<u8>, Seq<u8>))
    requires
        carried(p),
    ensures
        !has_byte(param_text(p), 38),
        split_once(param_text(p), 61) == Some((p.0, p.1)),
        percent_decode_spec(p.0) == p.0,
{
    let s = param_text(p);
    lemma_percent_decode_plain(p.0);
    lemma_find_byte_from(p.0, 61, 0);
    lemma_find_in_append(p.0, p.1, 61);
    assert(s.subrange(0, p.0.len() as int) =~= p.0);
    assert(s.subrange(p.0.len() as int + 1, s.len() as int) =~= p.1);
    if has_byte(s, 38) {
        let i = choose|i: int| 0 <= i < s.len() && s[i] == 38;
        if i < p.0.len() {
            assert(s[i] == p.0[i]);
        } else if i > p.0.len() {
            assert(s[i] == p.1[i - p.0.len() - 1]);
        }
    }
}

/// Reading the written parameters one by one gives `pairs_read` and `keys_read`.
proof fn lemma_fold_params(ps: Seq<(Seq<u8>, Seq<u8>)>)
    requires
        forall|i: int| 0 <= i < ps.len() ==> carried(#[trigger] ps[i]),
    ensures
        pairs_fold(params_text(ps)) == pairs_read(ps),
        pairs_keys(params_text(ps)) == keys_read(ps),
    decreases ps.len(),
{
    if ps.len() > 0 {
        let init = ps.drop_last();
        assert(params_text(ps).drop_last() =~= params_text(init));
        assert(params_text(ps).last() == param_text(ps.last()));
        assert(carried(ps[ps.len() - 1]));
        lemma_param_text(ps.last());
        assert forall|i: int| 0 <= i < init.len() implies carried(#[trigger] init[i]) by {
            assert(init[i] == ps[i]);
        }
        lemma_fold_params(init);
    }
}

/// A query string joined from parameters with plain keys and texts without
/// `&` is read back as those keys, each with its values decoded in the order
/// written, the keys in the order they first occur.
pub proof fn lemma_query_reads_back_params(ps: Seq<(Seq<u8>, Seq<u8>)>)
    requires
        ps.len() > 0,
        forall|i: int| 0 <= i < ps.len() ==> carried(#[trigger] ps[i]),
    ensures
        parse_pairs_spec(join(params_text(ps), seq![38u8])) == pairs_read(ps),
        pairs_keys(split_on(join(params_text(ps), seq![38u8]), 38)) == keys_read(ps),
{
    let parts = params_text(ps);
    assert forall|i: int, j: int| 0 <= i < parts.len() && 0 <= j < parts[i].len() implies #[trigger] parts[i][j] != 38 by {
        assert(parts[i] == param_text(ps[i]));
        lemma_param_text(ps[i]);
    }
    lemma_split_join(parts, 38);
    lemma_fold_params(ps);
}

// ------------------------------------------------------------------
// The request head
// ------------------------------------------------------------------
/// Lines after the request line (`lines().skip(1)`).
pub open spec fn tail_lines(ls: Seq<Seq<u8>>) -> Seq<Seq<u8>> {
    if ls.len() > 0 {
        ls.subrange(1, ls.len() as int)
    } else {
        ls
    }
}

/// The header map of the lines after the request line: `name: value` lines
/// with trimmed, lower-cased names and trimmed values; other lines ignored.
pub open spec fn header_fold(lines: Seq<Seq<u8>>) -> Map<Seq<char>, Seq<Seq<char>>>
    decreases lines.len(),
{
    if lines.len() == 0 {
        Map::empty()
    } else {
        let acc = header_fold(lines.drop_last());
        match split_once(lines.last(), 58) {
            Some((k, v)) => mm_push(
                acc,
                unicode_lowercase(decode_utf8(trim(k))),
                decode_utf8(trim(v)),
            ),
            None => acc,
        }
    }
}

/// A header the client sent is kept: a `name: value` line puts the name,
/// trimmed and lower-cased, among the header names, with the trimmed value
/// among its values, whatever lines come before or after it.
pub proof fn lemma_sent_header_kept(lines: Seq<Seq<u8>>, i: int)
    requires
        0 <= i < lines.len(),
        split_once(lines[i], 58) is Some,
    ensures
        ({
            let (k, v) = split_once(lines[i], 58).unwrap();
            let name = unicode_lowercase(decode_utf8(trim(k)));
            header_fold(lines).contains_key(name) && header_fold(lines)[name].contains(
                decode_utf8(trim(v)),
            )
        }),
    decreases lines.len(),
{
    let (k, v) = split_once(lines[i], 58).unwrap();
    let name = unicode_lowercase(decode_utf8(trim(k)));
    let val = decode_utf8(trim(v));
    let init = lines.drop_last();
    let acc = header_fold(init);
    if i == lines.len() - 1 {
        if acc.contains_key(name) {
            assert(acc[name].push(val)[acc[name].len() as int] == val);
        } else {
            assert(seq![val][0] == val);
        }
    } else {
        assert(init[i] == lines[i]);
        lemma_sent_header_kept(init, i);
        let j = choose|j: int| 0 <= j < acc[name].len() && acc[name][j] == val;
        match split_once(lines.last(), 58) {
            Some((k2, v2)) => {
                let n2 = unicode_lowercase(decode_utf8(trim(k2)));
                if n2 == name {
                    assert(acc[name].push(decode_utf8(trim(v2)))[j] == val);
                }
            },
            None => {},
        }
    }
}

/// The method a request-line token names.
pub open spec fn method_of(t: Seq<u8>) -> HttpMethod {
    if t == seq!['G' as u8, 'E' as u8, 'T' as u8] {
        HttpMethod::GET
    } else if t == seq!['P' as u8, 'O' as u8, 'S' as u8, 'T' as u8] {
        HttpMethod::POST
    } else if t == seq!['P' as u8, 'U' as u8, 'T' as u8] {
        HttpMethod::PUT
    } else if t == seq!['P' as u8, 'A' as u8, 'T' as u8, 'C' as u8, 'H' as u8] {
        HttpMethod::PATCH
    } else if t == seq!['D' as u8, 'E' as u8, 'L' as u8, 'E' as u8, 'T' as u8, 'E' as u8] {
        HttpMethod::DELETE
    } else if t == seq!['O' as u8, 'P' as u8, 'T' as u8, 'I' as u8, 'O' as u8, 'N' as u8, 'S' as u8] {
        HttpMethod::OPTIONS
    } else if t == seq!['H' as u8, 'E' as u8, 'A' as u8, 'D' as u8] {
        HttpMethod::HEAD
    } else {
        HttpMethod::UNKNOWN
    }
}

/// The percent-decoded path part of a request target (before any `?`).
pub open spec fn raw_path_of(target: Seq<u8>) -> Seq<u8> {
    match split_once(target, 63) {
        Some((base, _)) => percent_decode_spec(base),
        None => percent_decode_spec(target),
    }
}

/// The query parameters of a request target (after the first `?`).
pub open spec fn query_of(target: Seq<u8>) -> Map<Seq<char>, Seq<Seq<char>>> {
    match split_once(target, 63) {
        Some((_, q)) => parse_pairs_spec(q),
        None => Map::empty(),
    }
}

/// The query keys of a request target, each once, in the order they first occur.
pub open spec fn query_keys_of(target: Seq<u8>) -> Seq<Seq<char>> {
    match split_once(target, 63) {
        Some((_, q)) => pairs_keys(split_on(q, 38)),
        None => seq![],
    }
}

/// A request as the router sees it.
pub struct Request {
    pub method: HttpMethod,
    pub path: String,
    pub uri: String,
    pub headers: MultiMap<String>,
    pub body: Vec<u8>,
    pub query: MultiMap<UntrustedString>,
}

/// The outcome of one read from the client while collecting a request.
pub enum ReadStep {
    /// Read again; `send_continue` asks for an interim `100 Continue`.
    ReadMore { send_continue: bool },
    /// The request is complete (after an interim `100 Continue` if asked).
    Complete { send_continue: bool },
    /// The request cannot be read.
    Failed(String),
}

/// What has been read of a request so far.
pub struct ReadState {
    /// Bytes of the buffer that hold request data.
    pub total_read: usize,
    /// Where the blank line that ends the head starts, once seen.
    pub header_end: Option<usize>,
}

/// The largest request accepted, in bytes.
pub const MAX_REQUEST_SIZE: usize = 1048576;

/// How much the read buffer grows at a time.
pub const GROWTH_STEP: usize = 65536;

/// The bytes `\r\n\r\n`.
pub open spec fn blank_line() -> Seq<u8> {
    seq![13u8, 10u8, 13u8, 10u8]
}

/// `content-length:` and `expect:` and `100-continue`, as bytes.
pub open spec fn content_length_key() -> Seq<u8> {
    seq![
        'c' as u8, 'o' as u8, 'n' as u8, 't' as u8, 'e' as u8, 'n' as u8, 't' as u8, '-' as u8,
        'l' as u8, 'e' as u8, 'n' as u8, 'g' as u8, 't' as u8, 'h' as u8, ':' as u8,
    ]
}

pub open spec fn expect_key() -> Seq<u8> {
    seq!['e' as u8, 'x' as u8, 'p' as u8, 'e' as u8, 'c' as u8, 't' as u8, ':' as u8]
}

pub open spec fn continue_token() -> Seq<u8> {
    seq![
        '1' as u8, '0' as u8, '0' as u8, '-' as u8, 'c' as u8, 'o' as u8, 'n' as u8, 't' as u8,
        'i' as u8, 'n' as u8, 'u' as u8, 'e' as u8,
    ]
}

/// The `Content-Length` (0 when absent or unreadable; the last one wins) and
/// whether `Expect: 100-continue` was sent, from the lines after the request line.
pub open spec fn scan_fold(ls: Seq<Seq<u8>>) -> (usize, bool)
    decreases ls.len(),
{
    if ls.len() == 0 {
        (0, false)
    } else {
        let acc = scan_fold(ls.drop_last());
        let line = ls.last();
        let low = ascii_lower(line);
        if starts_with(low, content_length_key()) {
            match split_once(line, 58) {
                Some((_, v)) => (
                    match parse_usize_spec(trim(v)) {
                        Some(n) => n,
                        None => 0,
                    },
                    acc.1,
                ),
                None => acc,
            }
        } else if starts_with(low, expect_key()) && contains_seq(low, continue_token()) {
            (acc.0, true)
        } else {
            acc
        }
    }
}

/// What the head announces: body length and whether a `100 Continue` is expected.
pub open spec fn head_scan(head: Seq<u8>) -> (usize, bool) {
    if valid_utf8(head) {
        scan_fold(tail_lines(lines_of(head)))
    } else {
        (0, false)
    }
}

impl ReadState {
    /// Nothing read yet.
    pub fn new() -> (s: Self)
        ensures
            s.total_read == 0,
            s.header_end is None,
    {
        ReadState { total_read: 0, header_end: None }
    }

    /// Makes room for the next read: when the buffer is full it grows by
    /// [`GROWTH_STEP`] up to [`MAX_REQUEST_SIZE`]; a full buffer of that size
    /// is refused.
    pub fn prepare_buffer(&self, buffer: &mut Vec<u8>) -> (r: Result<(), String>)
        requires
            self.total_read <= old(buffer)@.len(),
        ensures
            self.total_read < old(buffer)@.len() ==> r is Ok && final(buffer)@ == old(buffer)@,
            self.total_read == old(buffer)@.len() && old(buffer)@.len() >= MAX_REQUEST_SIZE ==> (
            r matches Err(e) && e@ == "Request too large"@) && final(buffer)@ == old(buffer)@,
            self.total_read == old(buffer)@.len() && old(buffer)@.len() < MAX_REQUEST_SIZE ==> {
                let n = if old(buffer)@.len() + GROWTH_STEP < MAX_REQUEST_SIZE {
                    old(buffer)@.len() + GROWTH_STEP
                } else {
                    MAX_REQUEST_SIZE as int
                };
                &&& r is Ok
                &&& final(buffer)@.len() == n
                &&& final(buffer)@.subrange(0, old(buffer)@.len() as int) == old(buffer)@
                &&& forall|i: int|
                    old(buffer)@.len() <= i < n ==> #[trigger] final(buffer)@[i] == 0u8
            },
    {
        if self.total_read == buffer.len() {
            if buffer.len() >= MAX_REQUEST_SIZE {
                return Err("Request too large".to_string());
            }
            let grown = buffer.len() + GROWTH_STEP;
            let new_len = if grown < MAX_REQUEST_SIZE {
                grown
            } else {
                MAX_REQUEST_SIZE
            };
            let ghost before = buffer@;
            let mut i = buffer.len();
            while i < new_len
                invariant
                    before.len() <= i <= new_len,
                    buffer@.len() == i,
                    buffer@.subrange(0, before.len() as int) == before,
                    forall|j: int| before.len() <= j < i ==> #[trigger] buffer@[j] == 0u8,
                decreases new_len - i,
            {
                buffer.push(0);
                i = i + 1;
                assert(buffer@.subrange(0, before.len() as int) =~= before);
            }
        }
        Ok(())
    }

    /// Takes in a read of `n` bytes that landed right after the data read so far.
    pub fn on_read(&mut self, buffer: &[u8], n: usize) -> (step: ReadStep)
        requires
            old(self).total_read + n <= buffer.len(),
            old(self).header_end matches Some(h) ==> h + 4 <= old(self).total_read,
        ensures
            n == 0 ==> final(self).total_read == old(self).total_read && final(self).header_end
                == old(self).header_end && (if old(self).total_read == 0 {
                step matches ReadStep::Failed(e) && e@ == "Empty request"@
            } else {
                step == ReadStep::Complete { send_continue: false }
            }),
            n > 0 ==> {
                let t = old(self).total_read + n;
                let he = match old(self).header_end {
                    Some(h) => Some(h as int),
                    None => find_seq_from(buffer@.subrange(0, t), blank_line(), 0),
                };
                &&& final(self).total_read == t
                &&& final(self).header_end == (match he {
                    Some(h) => Some(h as usize),
                    None => None::<usize>,
                })
                &&& step == (match he {
                    None => ReadStep::ReadMore { send_continue: false },
                    Some(h) => {
                        let scan = head_scan(buffer@.subrange(0, h));
                        if t >= h + 4 + scan.0 {
                            ReadStep::Complete { send_continue: scan.1 }
                        } else {
                            ReadStep::ReadMore { send_continue: scan.1 }
                        }
                    },
                })
            },
            final(self).header_end matches Some(h) ==> h + 4 <= final(self).total_read,
    {
        if n == 0 {
            if self.total_read == 0 {
                return ReadStep::Failed("Empty request".to_string());
            }
            return ReadStep::Complete { send_continue: false };
        }
        self.total_read = self.total_read + n;
        if self.header_end.is_none() {
            let crlf: [u8; 4] = [13, 10, 13, 10];
            let pat: &[u8] = &crlf;
            assert(pat@ == blank_line());
            let found = find_seq_in(buffer, pat, 0, self.total_read);
            proof {
                crate::text::lemma_find_seq_from(buffer@.subrange(0, self.total_read as int), blank_line(), 0);
            }
            self.header_end = found;
        }
        match self.header_end {
            None => ReadStep::ReadMore { send_continue: false },
            Some(h) => {
                let (content_length, expect_continue) = scan_head(buffer, h);
                let done = self.total_read >= h && self.total_read - h >= 4 && self.total_read - h
                    - 4 >= content_length;
                if done {
                    ReadStep::Complete { send_continue: expect_continue }
                } else {
                    ReadStep::ReadMore { send_continue: expect_continue }
                }
            },
        }
    }
}

/// Reads the `Content-Length` and `Expect` headers of the head `buffer[..h]`.
pub fn scan_head(buffer: &[u8], h: usize) -> (r: (usize, bool))
    requires
        h <= buffer@.len(),
    ensures
        r == head_scan(buffer@.subrange(0, h as int)),
{
    let ghost head = buffer@.subrange(0, h as int);
    let head_copy = copy_range(buffer, 0, h);
    if !is_valid_utf8(head_copy.as_slice()) {
        return (0, false);
    }
    let hb = head_copy.as_slice();
    assert(hb@ == head);
    let lines = line_ranges(hb, 0, h);
    assert(hb@.subrange(0, h as int) =~= head);
    let ghost lv = range_views(hb@, lines@);
    let ghost tl = tail_lines(lv);
    let cl_key: [u8; 15] = [
        'c' as u8, 'o' as u8, 'n' as u8, 't' as u8, 'e' as u8, 'n' as u8, 't' as u8, '-' as u8,
        'l' as u8, 'e' as u8, 'n' as u8, 'g' as u8, 't' as u8, 'h' as u8, ':' as u8,
    ];
    let ex_key: [u8; 7] = ['e' as u8, 'x' as u8, 'p' as u8, 'e' as u8, 'c' as u8, 't' as u8, ':' as u8];
    let cont: [u8; 12] = [
        '1' as u8, '0' as u8, '0' as u8, '-' as u8, 'c' as u8, 'o' as u8, 'n' as u8, 't' as u8,
        'i' as u8, 'n' as u8, 'u' as u8, 'e' as u8,
    ];
    let clk: &[u8] = &cl_key;
    let exk: &[u8] = &ex_key;
    let ct: &[u8] = &cont;
    assert(clk@ == content_length_key());
    assert(exk@ == expect_key());
    assert(ct@ == continue_token());
    let mut content_length: usize = 0;
    let mut expect = false;
    if lines.len() == 0 {
        return (0, false);
    }
    let mut j: usize = 1;
    assert(tl.take(0).len() == 0);
    while j < lines.len()
        invariant
            1 <= j <= lines@.len(),
            lv == range_views(hb@, lines@),
            tl == tail_lines(lv),
            lv.len() > 0,
            clk@ == content_length_key(),
            exk@ == expect_key(),
            ct@ == continue_token(),
            ranges_within(hb@, lines@, 0, h as int),
            hb@.len() == h,
            (content_length, expect) == scan_fold(tl.take(j - 1)),
        decreases lines@.len() - j,
    {
        let (lo, hi) = lines[j];
        let ghost line = hb@.subrange(lo as int, hi as int);
        assert(tl[j - 1] == line);
        assert(tl.take(j as int).drop_last() =~= tl.take(j - 1));
        assert(tl.take(j as int).last() == line);
        let low = lower_copy(hb, lo, hi);
        let ll = low.len();
        assert(low@.subrange(0, ll as int) =~= low@);
        if range_starts_with(low.as_slice(), 0, ll, clk) {
            let colon = find_byte_in(hb, 58, lo, hi);
            match colon {
                Some(c) => {
                    proof {
                        lemma_find_byte_from(line, 58, 0);
                        assert(find_byte(line, 58) == Some(c - lo));
                        assert(line.subrange(c - lo + 1, line.len() as int) =~= hb@.subrange(
                            c + 1,
                            hi as int,
                        ));
                    }
                    let (vs, ve) = trim_bounds(hb, c + 1, hi);
                    let parsed = parse_usize_range(hb, vs, ve);
                    content_length = match parsed {
                        Some(v) => v,
                        None => 0,
                    };
                },
                None => {
                    proof {
                        lemma_find_byte_from(line, 58, 0);
                    }
                },
            }
        } else if range_starts_with(low.as_slice(), 0, ll, exk) && range_contains(
            low.as_slice(),
            0,
            ll,
            ct,
        ) {
            expect = true;
        }
        j = j + 1;
    }
    assert(tl.take(lines@.len() - 1) =~= tl);
    (content_length, expect)
}

impl Request {
    /// An empty `GET` request.
    pub fn new() -> (r: Self)
        ensures
            r.method == HttpMethod::GET,
            r.path@ == Seq::<char>::empty(),
            r.uri@ == Seq::<char>::empty(),
            r.headers.wf(),
            r.headers@ == Map::<Seq<char>, Seq<Seq<char>>>::empty(),
            r.headers.key_seq() == Seq::<Seq<char>>::empty(),
            r.body@ == Seq::<u8>::empty(),
            r.query.wf(),
            r.query@ == Map::<Seq<char>, Seq<Seq<char>>>::empty(),
            r.query.key_seq() == Seq::<Seq<char>>::empty(),
    {
        Request {
            method: HttpMethod::GET,
            path: String::new(),
            uri: String::new(),
            headers: MultiMap::new(),
            body: Vec::new(),
            query: MultiMap::new(),
        }
    }

    /// A request from its parts.
    pub fn fill(
        method: HttpMethod,
        path: String,
        uri: String,
        headers: MultiMap<String>,
        body: Vec<u8>,
        query: MultiMap<UntrustedString>,
    ) -> (r: Self)
        ensures
            r.method == method,
            r.path == path,
            r.uri == uri,
            r.headers == headers,
            r.body == body,
            r.query == query,
    {
        Request { method, path, uri, headers, body, query }
    }

    /// Is the header present?  Header names are matched after lower-casing.
    pub fn has_header(&self, key: &str) -> (r: bool)
        requires
            self.headers.wf(),
        ensures
            r == self.headers@.contains_key(unicode_lowercase(key@)),
    {
        let k = to_lowercase(key);
        self.headers.contains_key(k.as_str())
    }

    /// Builds the request from a buffer whose first `bytes_read` bytes were
    /// read from the client; `header_end` is where the blank line after the
    /// head starts, if one was seen.
    pub fn parse_head(buffer: &[u8], bytes_read: usize, header_end: Option<usize>) -> (r: Result<
        Request,
        String,
    >)
        requires
            bytes_read <= buffer@.len(),
            header_end matches Some(h) ==> h + 4 <= bytes_read,
        ensures
            header_end is None ==> (r matches Err(e) && e@ == "Malformed request"@),
            header_end matches Some(h) ==> {
                let head = buffer@.subrange(0, h as int);
                let lines = lines_of(head);
                &&& !valid_utf8(head) ==> (r matches Err(e) && e@ == "Invalid UTF-8 in headers"@)
                &&& valid_utf8(head) && lines.len() == 0 ==> (r matches Err(e) && e@
                    == "Missing request line"@)
                &&& valid_utf8(head) && lines.len() > 0 && ws_tokens(lines[0]).len() < 3
                    ==> (r matches Err(e) && e@ == "Malformed request line"@)
                &&& valid_utf8(head) && lines.len() > 0 && ws_tokens(lines[0]).len() >= 3
                    ==> (r matches Ok(req) && request_parsed_from(req, head, ws_tokens(lines[0]),
                    buffer@.subrange(h + 4, bytes_read as int)))
            },
    {
        let h = match header_end {
            Some(h) => h,
            None => {
                return Err("Malformed request".to_string());
            },
        };
        let ghost head = buffer@.subrange(0, h as int);
        let head_copy = copy_range(buffer, 0, h);
        let hb = head_copy.as_slice();
        if !is_valid_utf8(hb) {
            return Err("Invalid UTF-8 in headers".to_string());
        }
        let body = copy_range(buffer, h + 4, bytes_read);
        let lines = line_ranges(hb, 0, h);
        assert(hb@.subrange(0, h as int) =~= head);
        let ghost lv = range_views(hb@, lines@);
        if lines.len() == 0 {
            return Err("Missing request line".to_string());
        }
        let (rl_lo, rl_hi) = lines[0];
        assert(lv[0] == hb@.subrange(rl_lo as int, rl_hi as int));
        let toks = first_tokens(hb, rl_lo, rl_hi);
        if toks.len() < 3 {
            return Err("Malformed request line".to_string());
        }
        let ghost tv = ws_tokens(lv[0]);
        let (m_lo, m_hi) = toks[0];
        let method = method_from_token(hb, m_lo, m_hi);
        let (t_lo, t_hi) = toks[1];
        assert(hb@.subrange(t_lo as int, t_hi as int) == tv[1]);
        proof {
            assert(is_boundary(hb@, 0));
            assert(is_boundary(hb@, h as int));
        }
        let (path, query) = parse_target(hb, t_lo, t_hi);
        let uri = path.clone();
        let headers = parse_header_lines(hb, &lines);
        Ok(Request { method, path, uri, headers, body, query })
    }
}

/// The canonical path and the query parameters of the request target `hb[lo..hi]`.
fn parse_target(hb: &[u8], t_lo: usize, t_hi: usize) -> (r: (String, MultiMap<UntrustedString>))
    requires
        t_lo <= t_hi <= hb@.len(),
        valid_utf8(hb@),
        is_boundary(hb@, t_lo as int),
        is_boundary(hb@, t_hi as int),
    ensures
        sbytes(r.0@) == sanitize_path_spec(raw_path_of(hb@.subrange(t_lo as int, t_hi as int))),
        r.1.wf(),
        r.1@ == query_of(hb@.subrange(t_lo as int, t_hi as int)),
        r.1.key_seq() == query_keys_of(hb@.subrange(t_lo as int, t_hi as int)),
{
    let ghost target = hb@.subrange(t_lo as int, t_hi as int);
    let q = find_byte_in(hb, 63, t_lo, t_hi);
    let (raw_path, query) = match q {
        Some(p) => {
            proof {
                lemma_find_byte_from(target, 63, 0);
                assert(find_byte(target, 63) == Some(p - t_lo));
                assert(target.subrange(0, p - t_lo) =~= hb@.subrange(t_lo as int, p as int));
                assert(target.subrange(p - t_lo + 1, target.len() as int) =~= hb@.subrange(
                    p + 1,
                    t_hi as int,
                ));
                lemma_ascii_boundaries(hb@, p as int);
            }
            let query = parse_pairs(hb, p + 1, t_hi);
            let base = string_from_range(hb, t_lo, p);
            (percent_decode(base.as_str()), query)
        },
        None => {
            proof {
                lemma_find_byte_from(target, 63, 0);
            }
            let full = string_from_range(hb, t_lo, t_hi);
            (percent_decode(full.as_str()), MultiMap::new())
        },
    };
    let path = sanitize_path(raw_path.as_str());
    (path, query)
}

/// The request `req` is what a valid head `head` with request-line tokens
/// `toks` and body `body` describe.
pub open spec fn request_parsed_from(req: Request, head: Seq<u8>, toks: Seq<Seq<u8>>, body: Seq<u8>) -> bool {
    &&& req.method == method_of(toks[0])
    &&& sbytes(req.path@) == sanitize_path_spec(raw_path_of(toks[1]))
    &&& req.uri@ == req.path@
    &&& req.headers.wf()
    &&& req.headers@ == header_fold(tail_lines(lines_of(head)))
    &&& req.query.wf()
    &&& req.query@ == query_of(toks[1])
    &&& req.query.key_seq() == query_keys_of(toks[1])
    &&& req.body@ == body
}

/// The header map of the lines after the first.
fn parse_header_lines(hb: &[u8], lines: &Vec<(usize, usize)>) -> (m: MultiMap<String>)
    requires
        valid_utf8(hb@),
        lines@.len() > 0,
        ranges_within(hb@, lines@, 0, hb@.len() as int),
    ensures
        m.wf(),
        m@ == header_fold(tail_lines(range_views(hb@, lines@))),
{
    let ghost lv = range_views(hb@, lines@);
    let ghost tl = tail_lines(lv);
    let mut m: MultiMap<String> = MultiMap::new();
    let mut j: usize = 1;
    proof {
        assert(is_boundary(hb@, 0));
        assert(is_boundary(hb@, hb@.len() as int));
        assert(header_fold(tl.take(0)) =~= Map::<Seq<char>, Seq<Seq<char>>>::empty()) by {
            assert(tl.take(0).len() == 0);
        }
    }
    while j < lines.len()
        invariant
            1 <= j <= lines@.len(),
            lv == range_views(hb@, lines@),
            tl == tail_lines(lv),
            valid_utf8(hb@),
            is_boundary(hb@, 0),
            is_boundary(hb@, hb@.len() as int),
            ranges_within(hb@, lines@, 0, hb@.len() as int),
            m.wf(),
            m@ == header_fold(tl.take(j - 1)),
        decreases lines@.len() - j,
    {
        let (lo, hi) = lines[j];
        let ghost line = hb@.subrange(lo as int, hi as int);
        assert(tl[j - 1] == line);
        assert(tl.take(j as int).drop_last() =~= tl.take(j - 1));
        assert(tl.take(j as int).last() == line);
        let colon = find_byte_in(hb, 58, lo, hi);
        match colon {
            Some(c) => {
                proof {
                    lemma_find_byte_from(line, 58, 0);
                    assert(find_byte(line, 58) == Some(c - lo));
                    assert(line.subrange(0, c - lo) =~= hb@.subrange(lo as int, c as int));
                    assert(line.subrange(c - lo + 1, line.len() as int) =~= hb@.subrange(
                        c + 1,
                        hi as int,
                    ));
                    lemma_ascii_boundaries(hb@, c as int);
                }
                let (ks, ke) = trim_bounds(hb, lo, c);
                let (vs, ve) = trim_bounds(hb, c + 1, hi);
                let kstr = string_from_range(hb, ks, ke);
                let key = to_lowercase(kstr.as_str());
                let val = string_from_range(hb, vs, ve);
                proof {
                    lemma_chars_of(kstr@, hb@.subrange(ks as int, ke as int));
                    lemma_chars_of(val@, hb@.subrange(vs as int, ve as int));
                }
                m.push(key, val);
            },
            None => {
                proof {
                    lemma_find_byte_from(line, 58, 0);
                }
            },
        }
        j = j + 1;
    }
    assert(tl.take(lines@.len() - 1) =~= tl);
    m
}

/// The method named by `b[lo..hi]`.
fn method_from_token(b: &[u8], lo: usize, hi: usize) -> (m: HttpMethod)
    requires
        lo <= hi <= b@.len(),
    ensures
        m == method_of(b@.subrange(lo as int, hi as int)),
{
    let t = copy_range(b, lo, hi);
    let get: [u8; 3] = ['G' as u8, 'E' as u8, 'T' as u8];
    let post: [u8; 4] = ['P' as u8, 'O' as u8, 'S' as u8, 'T' as u8];
    let put: [u8; 3] = ['P' as u8, 'U' as u8, 'T' as u8];
    let patch: [u8; 5] = ['P' as u8, 'A' as u8, 'T' as u8, 'C' as u8, 'H' as u8];
    let delete: [u8; 6] = ['D' as u8, 'E' as u8, 'L' as u8, 'E' as u8, 'T' as u8, 'E' as u8];
    let options: [u8; 7] = [
        'O' as u8, 'P' as u8, 'T' as u8, 'I' as u8, 'O' as u8, 'N' as u8, 'S' as u8,
    ];
    let head: [u8; 4] = ['H' as u8, 'E' as u8, 'A' as u8, 'D' as u8];
    let ts = t.as_slice();
    let g: &[u8] = &get;
    let p1: &[u8] = &post;
    let p2: &[u8] = &put;
    let p3: &[u8] = &patch;
    let d: &[u8] = &delete;
    let o: &[u8] = &options;
    let hd: &[u8] = &head;
    assert(g@ == seq!['G' as u8, 'E' as u8, 'T' as u8]);
    assert(p1@ == seq!['P' as u8, 'O' as u8, 'S' as u8, 'T' as u8]);
    assert(p2@ == seq!['P' as u8, 'U' as u8, 'T' as u8]);
    assert(p3@ == seq!['P' as u8, 'A' as u8, 'T' as u8, 'C' as u8, 'H' as u8]);
    assert(d@ == seq!['D' as u8, 'E' as u8, 'L' as u8, 'E' as u8, 'T' as u8, 'E' as u8]);
    assert(o@ == seq!['O' as u8, 'P' as u8, 'T' as u8, 'I' as u8, 'O' as u8, 'N' as u8, 'S' as u8]);
    assert(hd@ == seq!['H' as u8, 'E' as u8, 'A' as u8, 'D' as u8]);
    if crate::multimap::bytes_equal(ts, g) {
        HttpMethod::GET
    } else if crate::multimap::bytes_equal(ts, p1) {
        HttpMethod::POST
    } else if crate::multimap::bytes_equal(ts, p2) {
        HttpMethod::PUT
    } else if crate::multimap::bytes_equal(ts, p3) {
        HttpMethod::PATCH
    } else if crate::multimap::bytes_equal(ts, d) {
        HttpMethod::DELETE
    } else if crate::multimap::bytes_equal(ts, o) {
        HttpMethod::OPTIONS
    } else if crate::multimap::bytes_equal(ts, hd) {
        HttpMethod::HEAD
    } else {
        HttpMethod::UNKNOWN
    }
}

} // verus!

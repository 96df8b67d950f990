//! Form submissions: url-encoded and multipart bodies, and typed access to
//! the decoded fields and uploaded files.
use crate::http::request::{parse_pairs, parse_pairs_spec, percent_decode, percent_decode_spec, Request};
use crate::lex::{
    parse_bool_bytes, parse_bool_spec, parse_i64_range, parse_i64_spec, parse_u64_range, parse_unsigned_range,
    parse_u64_spec, parse_usize_range, parse_usize_spec, ends_with, first_piece, first_piece_end, line_ranges, lines_of, range_ends_with,
    range_starts_with, range_views, ranges_within, starts_with, strip_bounds, strip_matches, trim,
    trim_bounds,
};
use crate::lits::{
    crlf, crlf_bytes, dashes_crlf, dashes_crlf_bytes, disposition_key, disposition_key_bytes,
    ext_filename_key, ext_filename_key_bytes, filename_key, filename_key_bytes, multipart_type,
    multipart_type_bytes, name_key, name_key_bytes, part_type_key, part_type_key_bytes, text_plain,
    text_plain_bytes, two_quotes, two_quotes_bytes, urlencoded_type, urlencoded_type_bytes,
    boundary_key, boundary_key_bytes, double_dash_bytes,
};
use crate::multimap::{bytes_equal, mm_push, MultiMap};
use crate::security::{html_escape, SafeHtml, Sanitizer, UntrustedString};
use crate::text::{copy_range, find_seq_from, find_seq_in, is_boundary, is_valid_utf8, lemma_ascii_boundaries, lemma_ascii_valid, lemma_chars_of, lemma_find_seq_from, lemma_valid_subrange, matches_at, sbytes, string_bytes, string_from_range, string_from_valid, to_lowercase, unicode_lowercase};
use vstd::prelude::*;
use vstd::utf8::{decode_utf8, is_continuation_byte, valid_utf8};

verus! {

broadcast use vstd::utf8::encode_utf8_valid_utf8;

/// A file sent in a multipart form.
pub struct UploadedFile {
    pub filename: String,
    pub content_type: String,
    /// The raw binary contents of the file.
    pub data: Vec<u8>,
}

/// What an uploaded file holds.
pub struct UploadedFileView {
    pub filename: Seq<char>,
    pub content_type: Seq<char>,
    pub data: Seq<u8>,
}

impl View for UploadedFile {
    type V = UploadedFileView;

    open spec fn view(&self) -> UploadedFileView {
        UploadedFileView {
            filename: self.filename@,
            content_type: self.content_type@,
            data: self.data@,
        }
    }
}

/// The decoded fields and files of a form submission.
pub struct FormData {
    /// Text inputs: e.g. name="username", value="admin".
    pub fields: MultiMap<UntrustedString>,
    /// Binary file uploads: e.g. name="avatar".
    pub files: MultiMap<UploadedFile>,
}

// ------------------------------------------------------------------
// Multipart bodies
// ------------------------------------------------------------------
/// The non-empty stretches of `b` that end where `n` occurs, from `start` on
/// (bytes after the last occurrence belong to no part).
pub open spec fn parts_from(b: Seq<u8>, n: Seq<u8>, start: int) -> Seq<Seq<u8>>
    decreases b.len() + 1 - start,
{
    match find_seq_from(b, n, start) {
        Some(e) => {
            if n.len() > 0 && start <= e && e + n.len() <= b.len() {
                (if e > start {
                    seq![b.subrange(start, e)]
                } else {
                    Seq::<Seq<u8>>::empty()
                }) + parts_from(b, n, e + n.len())
            } else {
                seq![]
            }
        },
        None => seq![],
    }
}

/// The boundary a multipart content type names after `boundary=`.
pub open spec fn boundary_of(rest: Seq<u8>) -> Seq<u8> {
    seq!['-' as u8, '-' as u8] + strip_matches(trim(first_piece(rest, 59)), 34)
}

/// The `name=` value of a content-disposition line, from just after `name=`:
/// up to the next `;`, without surrounding quotes.
pub open spec fn name_value(rem: Seq<u8>) -> Seq<u8> {
    strip_matches(first_piece(strip_matches(rem, 59), 59), 34)
}

/// The raw RFC 2231 file name after `filename*=` at `i`: what lies between
/// the first `''` and the next one (or the end of the line).
pub open spec fn ext_filename(line: Seq<u8>, i: int) -> Option<Seq<u8>> {
    match find_seq_from(line, two_quotes(), i) {
        Some(j) => Some(
            line.subrange(
                j + 2,
                match find_seq_from(line, two_quotes(), j + 2) {
                    Some(k) => k,
                    None => line.len() as int,
                },
            ),
        ),
        None => None,
    }
}

/// The plain file name after `filename=`.
pub open spec fn plain_filename(rem: Seq<u8>) -> Seq<u8> {
    strip_matches(trim(first_piece(rem, 59)), 34)
}

/// The (name, file name, content type) of a part before any header line.
pub open spec fn meta_init() -> (Seq<u8>, Option<Seq<u8>>, Seq<u8>) {
    (seq![], None, text_plain())
}

/// The file name a content-disposition line sets, if any.
pub open spec fn disposition_filename(line: Seq<u8>, f: Option<Seq<u8>>) -> Option<Seq<u8>> {
    match find_seq_from(line, ext_filename_key(), 0) {
        Some(i) => match ext_filename(line, i + 10) {
            Some(v) => Some(percent_decode_spec(strip_matches(v, 34))),
            None => f,
        },
        None => match find_seq_from(line, filename_key(), 0) {
            Some(i) => Some(plain_filename(line.subrange(i + 9, line.len() as int))),
            None => f,
        },
    }
}

/// The name a content-disposition line sets, if any.
pub open spec fn disposition_name(line: Seq<u8>, n: Seq<u8>) -> Seq<u8> {
    match find_seq_from(line, name_key(), 0) {
        Some(i) => name_value(line.subrange(i + 5, line.len() as int)),
        None => n,
    }
}

/// One header line of a part applied to (name, file name, content type).
pub open spec fn meta_step(st: (Seq<u8>, Option<Seq<u8>>, Seq<u8>), line: Seq<u8>) -> (
    Seq<u8>,
    Option<Seq<u8>>,
    Seq<u8>,
) {
    let (n, f, ct) = st;
    let low = sbytes(unicode_lowercase(decode_utf8(line)));
    if starts_with(low, disposition_key()) {
        (disposition_name(line, n), disposition_filename(line, f), ct)
    } else if starts_with(low, part_type_key()) {
        if line.len() >= 13 && is_boundary(line, 13) {
            (n, f, trim(line.subrange(13, line.len() as int)))
        } else {
            (n, f, ct)
        }
    } else {
        (n, f, ct)
    }
}

/// The part's name, file name and content type after reading its header lines.
pub open spec fn meta_fold(lines: Seq<Seq<u8>>) -> (Seq<u8>, Option<Seq<u8>>, Seq<u8>)
    decreases lines.len(),
{
    if lines.len() == 0 {
        meta_init()
    } else {
        meta_step(meta_fold(lines.drop_last()), lines.last())
    }
}

/// A file name held as a string, against its bytes.
pub open spec fn same_name(x: Option<String>, y: Option<Seq<u8>>) -> bool {
    match (x, y) {
        (Some(a), Some(b)) => sbytes(a@) == b,
        (None, None) => true,
        _ => false,
    }
}

/// The name, file name, content type and data a multipart part carries, if
/// it is a well-formed part.
pub open spec fn part_effect(part: Seq<u8>) -> Option<(Seq<u8>, Option<Seq<u8>>, Seq<u8>, Seq<u8>)> {
    if part.len() == 0 || part == crlf() || part == dashes_crlf() {
        None
    } else {
        match find_seq_from(part, seq![13u8, 10u8, 13u8, 10u8], 0) {
            None => None,
            Some(he) => {
                let hp = part.subrange(0, he);
                let dp = part.subrange(he + 4, part.len() as int);
                let fd = if ends_with(dp, crlf()) {
                    dp.subrange(0, dp.len() - 2)
                } else {
                    dp
                };
                if valid_utf8(hp) {
                    let (n, f, ct) = meta_fold(lines_of(hp));
                    Some((n, f, ct, fd))
                } else {
                    None
                }
            },
        }
    }
}

/// Fields and files collected from the parts of a multipart body.
pub open spec fn multipart_fold(parts: Seq<Seq<u8>>) -> (
    Map<Seq<char>, Seq<Seq<char>>>,
    Map<Seq<char>, Seq<UploadedFileView>>,
)
    decreases parts.len(),
{
    if parts.len() == 0 {
        (Map::empty(), Map::empty())
    } else {
        let (fi, fl) = multipart_fold(parts.drop_last());
        match part_effect(parts.last()) {
            None => (fi, fl),
            Some((n, f, ct, fd)) => {
                if n.len() == 0 {
                    (fi, fl)
                } else {
                    match f {
                        Some(fname) => (
                            fi,
                            mm_push(
                                fl,
                                decode_utf8(n),
                                UploadedFileView {
                                    filename: decode_utf8(fname),
                                    content_type: decode_utf8(ct),
                                    data: fd,
                                },
                            ),
                        ),
                        None => if valid_utf8(fd) {
                            (mm_push(fi, decode_utf8(n), decode_utf8(fd)), fl)
                        } else {
                            (fi, fl)
                        },
                    }
                }
            },
        }
    }
}

/// The name and text of a part that is a well-formed text field (a name,
/// no file name, and UTF-8 data), if it is one.
pub open spec fn text_part(p: Seq<u8>) -> Option<(Seq<char>, Seq<char>)> {
    match part_effect(p) {
        Some((n, f, _ct, fd)) => if n.len() > 0 && f is None && valid_utf8(fd) {
            Some((decode_utf8(n), decode_utf8(fd)))
        } else {
            None
        },
        None => None,
    }
}

/// The texts of the text parts named `k`, in body order.
pub open spec fn texts_named(parts: Seq<Seq<u8>>, k: Seq<char>) -> Seq<Seq<char>>
    decreases parts.len(),
{
    if parts.len() == 0 {
        seq![]
    } else {
        let r = texts_named(parts.drop_last(), k);
        match text_part(parts.last()) {
            Some((n, t)) => if n == k {
                r.push(t)
            } else {
                r
            },
            None => r,
        }
    }
}

/// Another text part adds its text after the values already under its
/// name, whether or not the name is already there, and leaves every other
/// name as it was; a part that is not a text field leaves the fields as
/// they were.
pub proof fn lemma_text_part_appends(parts: Seq<Seq<u8>>, p: Seq<u8>)
    ensures
        ({
            let before = multipart_fold(parts).0;
            let after = multipart_fold(parts.push(p)).0;
            match text_part(p) {
                Some((k, t)) => after.contains_key(k) && after[k] == (if before.contains_key(k) {
                    before[k]
                } else {
                    seq![]
                }).push(t) && forall|j: Seq<char>|
                    j != k ==> (#[trigger] after.contains_key(j) == before.contains_key(j)) && (
                    before.contains_key(j) ==> after[j] == before[j]),
                None => after == before,
            }
        }),
{
    let ps = parts.push(p);
    assert(ps.drop_last() =~= parts);
    assert(ps.last() == p);
    match text_part(p) {
        Some((k, t)) => {
            let before = multipart_fold(parts).0;
            if before.contains_key(k) {
                assert(before[k].push(t) == (if before.contains_key(k) { before[k] } else { seq![] }).push(t));
            } else {
                assert(seq![t] =~= Seq::<Seq<char>>::empty().push(t));
            }
        },
        None => {},
    }
}

/// The values of a field of a multipart body are exactly the texts of its
/// text parts carrying that name, in body order: one value per such part.
pub proof fn lemma_multipart_fields_are_text_parts(parts: Seq<Seq<u8>>)
    ensures
        forall|k: Seq<char>|
            (#[trigger] multipart_fold(parts).0.contains_key(k)) == (texts_named(parts, k).len() > 0),
        forall|k: Seq<char>|
            #[trigger] multipart_fold(parts).0.contains_key(k) ==> multipart_fold(parts).0[k]
                == texts_named(parts, k),
    decreases parts.len(),
{
    if parts.len() > 0 {
        let init = parts.drop_last();
        lemma_multipart_fields_are_text_parts(init);
        lemma_text_part_appends(init, parts.last());
        assert(init.push(parts.last()) =~= parts);
        let before = multipart_fold(init).0;
        let after = multipart_fold(parts).0;
        assert forall|k: Seq<char>| (#[trigger] after.contains_key(k)) == (texts_named(parts, k).len() > 0) && (after.contains_key(k) ==> after[k] == texts_named(parts, k)) by {
            assert(before.contains_key(k) == (texts_named(init, k).len() > 0));
            if before.contains_key(k) {
                assert(before[k] == texts_named(init, k));
            } else {
                assert(texts_named(init, k) =~= Seq::<Seq<char>>::empty());
            }
        }
    }
}

/// The fields and files a body of the given content type holds.
pub open spec fn form_spec(ct: Seq<u8>, body: Seq<u8>) -> (
    Map<Seq<char>, Seq<Seq<char>>>,
    Map<Seq<char>, Seq<UploadedFileView>>,
) {
    if starts_with(ct, urlencoded_type()) {
        if valid_utf8(body) {
            (parse_pairs_spec(body), Map::empty())
        } else {
            (Map::empty(), Map::empty())
        }
    } else if starts_with(ct, multipart_type()) {
        match find_seq_from(ct, boundary_key(), 0) {
            Some(i) => multipart_fold(
                parts_from(body, boundary_of(ct.subrange(i + 9, ct.len() as int)), 0),
            ),
            None => (Map::empty(), Map::empty()),
        }
    } else {
        (Map::empty(), Map::empty())
    }
}

/// A byte of `b` known to match `n` at `i`.
proof fn lemma_match_byte(b: Seq<u8>, i: int, n: Seq<u8>, t: int)
    requires
        matches_at(b, i, n),
        0 <= t < n.len(),
    ensures
        b[i + t] == n[t],
{
    assert(b.subrange(i, i + n.len())[t] == b[i + t]);
}

/// The name a content-disposition line `lb` sets.
fn read_disposition_name(lb: &[u8], name: Vec<u8>) -> (r: Vec<u8>)
    requires
        valid_utf8(lb@),
        valid_utf8(name@),
    ensures
        r@ == disposition_name(lb@, name@),
        valid_utf8(r@),
{
    let ghost line = lb@;
    let len = lb.len();
    let nk = name_key_bytes();
    proof {
        assert(is_boundary(line, 0));
        assert(is_boundary(line, len as int));
        assert(line.subrange(0, len as int) =~= line);
    }
    match find_seq_in(lb, nk.as_slice(), 0, len) {
        Some(i) => {
            proof {
                lemma_find_seq_from(line, name_key(), 0);
                lemma_match_byte(line, i as int, name_key(), 4);
                lemma_ascii_boundaries(line, i + 4);
            }
            let (s1, e1) = strip_bounds(lb, i + 5, len, 59);
            let e2 = first_piece_end(lb, s1, e1, 59);
            let (s3, e3) = strip_bounds(lb, s1, e2, 34);
            proof {
                lemma_valid_subrange(line, s3 as int, e3 as int);
            }
            copy_range(lb, s3, e3)
        },
        None => name,
    }
}

/// The file name a content-disposition line `lb` sets.
fn read_disposition_filename(lb: &[u8], filename: Option<String>) -> (r: Option<String>)
    requires
        valid_utf8(lb@),
    ensures
        same_name(r, disposition_filename(lb@, filename_bytes(filename))),
{
    let ghost line = lb@;
    let len = lb.len();
    let ek = ext_filename_key_bytes();
    let fk = filename_key_bytes();
    let qq = two_quotes_bytes();
    proof {
        assert(is_boundary(line, 0));
        assert(is_boundary(line, len as int));
        assert(line.subrange(0, len as int) =~= line);
    }
    match find_seq_in(lb, ek.as_slice(), 0, len) {
        Some(i) => {
            proof {
                lemma_find_seq_from(line, ext_filename_key(), 0);
                lemma_match_byte(line, i as int, ext_filename_key(), 9);
            }
            match find_seq_in(lb, qq.as_slice(), i + 10, len) {
                Some(q1) => {
                    proof {
                        lemma_find_seq_from(line, two_quotes(), i + 10);
                        lemma_match_byte(line, q1 as int, two_quotes(), 1);
                        lemma_ascii_boundaries(line, q1 + 1);
                    }
                    let end = match find_seq_in(lb, qq.as_slice(), q1 + 2, len) {
                        Some(q2) => {
                            proof {
                                lemma_find_seq_from(line, two_quotes(), q1 + 2);
                                lemma_match_byte(line, q2 as int, two_quotes(), 0);
                                lemma_ascii_boundaries(line, q2 as int);
                            }
                            q2
                        },
                        None => len,
                    };
                    let (s, e) = strip_bounds(lb, q1 + 2, end, 34);
                    let vstr = string_from_range(lb, s, e);
                    Some(percent_decode(vstr.as_str()))
                },
                None => filename,
            }
        },
        None => {
            proof {
                lemma_find_seq_from(line, ext_filename_key(), 0);
            }
            match find_seq_in(lb, fk.as_slice(), 0, len) {
                Some(i) => {
                    proof {
                        lemma_find_seq_from(line, filename_key(), 0);
                        lemma_match_byte(line, i as int, filename_key(), 8);
                        lemma_ascii_boundaries(line, i + 8);
                    }
                    let e1 = first_piece_end(lb, i + 9, len, 59);
                    let (s2, e2) = trim_bounds(lb, i + 9, e1);
                    let (s3, e3) = strip_bounds(lb, s2, e2, 34);
                    Some(string_from_range(lb, s3, e3))
                },
                None => filename,
            }
        },
    }
}

/// The bytes of a file name held as a string.
pub open spec fn filename_bytes(x: Option<String>) -> Option<Seq<u8>> {
    match x {
        Some(a) => Some(sbytes(a@)),
        None => None,
    }
}

/// Applies one header line `lb` of a part to (name, file name, content type).
fn apply_part_line(lb: &[u8], st: (Vec<u8>, Option<String>, Vec<u8>)) -> (r: (
    Vec<u8>,
    Option<String>,
    Vec<u8>,
))
    requires
        valid_utf8(lb@),
        valid_utf8(st.0@),
        valid_utf8(st.2@),
    ensures
        ({
            let m = meta_step((st.0@, filename_bytes(st.1), st.2@), lb@);
            &&& r.0@ == m.0
            &&& r.2@ == m.2
            &&& filename_bytes(r.1) == m.1
        }),
        valid_utf8(r.0@),
        valid_utf8(r.2@),
{
    let (name, filename, ct) = st;
    let ghost line = lb@;
    let len = lb.len();
    let dk = disposition_key_bytes();
    let tk = part_type_key_bytes();
    proof {
        assert(line.subrange(0, len as int) =~= line);
        assert(is_boundary(line, 0));
        assert(is_boundary(line, len as int));
    }
    let lstr = string_from_range(lb, 0, len);
    let low = to_lowercase(lstr.as_str());
    let lowb = string_bytes(&low);
    proof {
        lemma_chars_of(lstr@, line);
        assert(lowb@.subrange(0, lowb@.len() as int) =~= lowb@);
    }
    if range_starts_with(lowb, 0, lowb.len(), dk.as_slice()) {
        let n2 = read_disposition_name(lb, name);
        let f2 = read_disposition_filename(lb, filename);
        (n2, f2, ct)
    } else if range_starts_with(lowb, 0, lowb.len(), tk.as_slice()) {
        if len >= 13 && (len == 13 || lb[13] < 0x80 || lb[13] > 0xBF) {
            let (s, e) = trim_bounds(lb, 13, len);
            proof {
                assert(is_boundary(line, 13));
                lemma_valid_subrange(line, s as int, e as int);
            }
            (name, filename, copy_range(lb, s, e))
        } else {
            proof {
                if len >= 13 {
                    assert(is_continuation_byte(line[13]));
                }
            }
            (name, filename, ct)
        }
    } else {
        (name, filename, ct)
    }
}

/// Reads a part's header lines into (name, file name, content type).
#[verifier::rlimit(40)]
fn part_meta(hp: &[u8]) -> (r: (Vec<u8>, Option<String>, Vec<u8>))
    requires
        valid_utf8(hp@),
    ensures
        ({
            let m = meta_fold(lines_of(hp@));
            &&& r.0@ == m.0
            &&& r.2@ == m.2
            &&& filename_bytes(r.1) == m.1
        }),
        valid_utf8(r.0@),
        valid_utf8(r.2@),
{
    let lines = line_ranges(hp, 0, hp.len());
    assert(hp@.subrange(0, hp@.len() as int) =~= hp@);
    let ghost lv = range_views(hp@, lines@);
    let mut st: (Vec<u8>, Option<String>, Vec<u8>) = (Vec::new(), None, text_plain_bytes());
    proof {
        lemma_ascii_valid(st.0@);
        lemma_ascii_valid(st.2@);
        assert(lv.take(0).len() == 0);
        assert(is_boundary(hp@, 0));
        assert(is_boundary(hp@, hp@.len() as int));
    }
    let mut j: usize = 0;
    while j < lines.len()
        invariant
            j <= lines@.len(),
            lv == range_views(hp@, lines@),
            lv == lines_of(hp@),
            valid_utf8(hp@),
            is_boundary(hp@, 0),
            is_boundary(hp@, hp@.len() as int),
            ranges_within(hp@, lines@, 0, hp@.len() as int),
            valid_utf8(st.0@),
            valid_utf8(st.2@),
            ({
                let m = meta_fold(lv.take(j as int));
                &&& st.0@ == m.0
                &&& st.2@ == m.2
                &&& filename_bytes(st.1) == m.1
            }),
        decreases lines@.len() - j,
    {
        let (lo, hi) = lines[j];
        proof {
            lemma_valid_subrange(hp@, lo as int, hi as int);
        }
        let lb_vec = copy_range(hp, lo, hi);
        assert(lv[j as int] == lb_vec@);
        assert(lv.take(j + 1).drop_last() =~= lv.take(j as int));
        assert(lv.take(j + 1).last() == lb_vec@);
        st = apply_part_line(lb_vec.as_slice(), st);
        j = j + 1;
    }
    assert(lv.take(lines@.len() as int) =~= lv);
    st
}


/// Where the parts of `body` separated by `bnd` lie.
fn multipart_ranges(body: &[u8], bnd: &[u8]) -> (r: Vec<(usize, usize)>)
    requires
        bnd@.len() > 0,
    ensures
        range_views(body@, r@) == parts_from(body@, bnd@, 0),
        forall|j: int| 0 <= j < r@.len() ==> (#[trigger] r@[j]).0 <= r@[j].1 <= body@.len(),
{
    let mut r: Vec<(usize, usize)> = Vec::new();
    let mut start: usize = 0;
    let blen = bnd.len();
    assert(body@.subrange(0, body@.len() as int) =~= body@);
    loop
        invariant
            start <= body@.len(),
            bnd@.len() == blen,
            blen > 0,
            range_views(body@, r@) + parts_from(body@, bnd@, start as int) == parts_from(
                body@,
                bnd@,
                0,
            ),
            forall|j: int| 0 <= j < r@.len() ==> (#[trigger] r@[j]).0 <= r@[j].1 <= body@.len(),
        decreases body@.len() + 1 - start,
    {
        let f = find_seq_in(body, bnd, start, body.len());
        proof {
            assert(body@.subrange(0, body@.len() as int) =~= body@);
            lemma_find_seq_from(body@, bnd@, start as int);
        }
        match f {
            None => {
                proof {
                    assert(parts_from(body@, bnd@, start as int) == Seq::<Seq<u8>>::empty());
                    assert(range_views(body@, r@) + parts_from(body@, bnd@, start as int)
                        =~= range_views(body@, r@));
                }
                return r;
            },
            Some(e) => {
                let ghost rest = parts_from(body@, bnd@, e + blen);
                if e > start {
                    r.push((start, e));
                    proof {
                        assert(range_views(body@, r@) =~= range_views(body@, r@.drop_last()) + seq![
                            body@.subrange(start as int, e as int),
                        ]);
                    }
                } else {
                    proof {
                        assert(parts_from(body@, bnd@, start as int) == Seq::<Seq<u8>>::empty()
                            + rest);
                        assert(Seq::<Seq<u8>>::empty() + rest =~= rest);
                    }
                }
                start = e + blen;
            },
        }
    }
}

/// A part's contribution, as built strings.
fn read_part(part: &[u8]) -> (r: Option<(Vec<u8>, Option<String>, Vec<u8>, Vec<u8>)>)
    ensures
        match (r, part_effect(part@)) {
            (None, None) => true,
            (Some((n, f, ct, d)), Some((n2, f2, ct2, d2))) => n@ == n2 && filename_bytes(f) == f2
                && ct@ == ct2 && d@ == d2 && valid_utf8(n@) && valid_utf8(ct@),
            _ => false,
        },
{
    let len = part.len();
    let c = crlf_bytes();
    let dc = dashes_crlf_bytes();
    if len == 0 || bytes_equal(part, c.as_slice()) || bytes_equal(part, dc.as_slice()) {
        return None;
    }
    let sep: [u8; 4] = [13, 10, 13, 10];
    let sp: &[u8] = &sep;
    assert(sp@ == seq![13u8, 10u8, 13u8, 10u8]);
    assert(part@.subrange(0, len as int) =~= part@);
    let he = match find_seq_in(part, sp, 0, len) {
        Some(he) => he,
        None => {
            return None;
        },
    };
    proof {
        lemma_find_seq_from(part@, sp@, 0);
    }
    let hp = copy_range(part, 0, he);
    let ghost dp = part@.subrange(he + 4, len as int);
    let data_end = if range_ends_with(part, he + 4, len, c.as_slice()) {
        proof {
            assert(dp.subrange(0, dp.len() - 2) =~= part@.subrange(he + 4, len - 2));
        }
        len - 2
    } else {
        len
    };
    if !is_valid_utf8(hp.as_slice()) {
        return None;
    }
    let data = copy_range(part, he + 4, data_end);
    let (n, f, ct) = part_meta(hp.as_slice());
    Some((n, f, ct, data))
}

/// Decodes a multipart body whose parts are separated by `bnd`.
fn parse_multipart(body: &[u8], bnd: &[u8], fields: &mut MultiMap<UntrustedString>, files: &mut MultiMap<UploadedFile>)
    requires
        bnd@.len() > 0,
        old(fields).wf(),
        old(files).wf(),
        old(fields)@ == Map::<Seq<char>, Seq<Seq<char>>>::empty(),
        old(files)@ == Map::<Seq<char>, Seq<UploadedFileView>>::empty(),
    ensures
        final(fields).wf(),
        final(files).wf(),
        (final(fields)@, final(files)@) == multipart_fold(parts_from(body@, bnd@, 0)),
{
    let ranges = multipart_ranges(body, bnd);
    let ghost pv = range_views(body@, ranges@);
    let mut j: usize = 0;
    proof {
        assert(pv.take(0).len() == 0);
    }
    while j < ranges.len()
        invariant
            j <= ranges@.len(),
            pv == range_views(body@, ranges@),
            pv == parts_from(body@, bnd@, 0),
            forall|t: int| 0 <= t < ranges@.len() ==> (#[trigger] ranges@[t]).0 <= ranges@[t].1
                <= body@.len(),
            fields.wf(),
            files.wf(),
            (fields@, files@) == multipart_fold(pv.take(j as int)),
        decreases ranges@.len() - j,
    {
        let (lo, hi) = ranges[j];
        let part = copy_range(body, lo, hi);
        assert(pv[j as int] == part@);
        assert(pv.take(j + 1).drop_last() =~= pv.take(j as int));
        assert(pv.take(j + 1).last() == part@);
        match read_part(part.as_slice()) {
            None => {},
            Some((n, f, ct, d)) => {
                if n.len() > 0 {
                    let key = string_from_valid(n);
                    proof {
                        lemma_chars_of(key@, n@);
                    }
                    match f {
                        Some(fname) => {
                            let ctype = string_from_valid(ct);
                            proof {
                                lemma_chars_of(ctype@, ct@);
                                lemma_chars_of(fname@, sbytes(fname@));
                            }
                            files.push(key, UploadedFile { filename: fname, content_type: ctype, data: d });
                        },
                        None => {
                            let ghost dv = d@;
                            match crate::text::string_from_utf8(d) {
                                Some(text) => {
                                    proof {
                                        lemma_chars_of(text@, dv);
                                    }
                                    fields.push(key, UntrustedString::new(text));
                                },
                                None => {},
                            }
                        },
                    }
                }
            },
        }
        j = j + 1;
    }
    assert(pv.take(ranges@.len() as int) =~= pv);
}

/// The `Content-Type` header's first value, when the request has one.
pub open spec fn content_type_of(req: Request) -> Option<Seq<u8>> {
    if req.headers@.contains_key("content-type"@) {
        Some(sbytes(req.headers@["content-type"@][0]))
    } else {
        None
    }
}

impl Request {
    /// Decodes the body as form data according to its `Content-Type`
    /// (`application/x-www-form-urlencoded` or `multipart/form-data`).
    /// Anything else, or no `Content-Type`, gives an empty form.
    pub fn parse_form_body(&self) -> (form: FormData)
        requires
            self.headers.wf(),
        ensures
            form.fields.wf(),
            form.files.wf(),
            (form.fields@, form.files@) == (match content_type_of(*self) {
                Some(ct) => form_spec(ct, self.body@),
                None => (Map::empty(), Map::empty()),
            }),
    {
        let mut form = FormData::new();
        let values = match self.headers.get("content-type") {
            Some(v) => v,
            None => {
                return form;
            },
        };
        let ct_string = &values[0];
        assert(values@.map_values(|x: String| x@)[0] == ct_string@);
        let ct = string_bytes(ct_string);
        let ctl = ct.len();
        assert(ct@.subrange(0, ctl as int) =~= ct@);
        let ue = urlencoded_type_bytes();
        let mp = multipart_type_bytes();
        if range_starts_with(ct, 0, ctl, ue.as_slice()) {
            let body = self.body.as_slice();
            if is_valid_utf8(body) {
                proof {
                    assert(is_boundary(body@, 0));
                    assert(is_boundary(body@, body@.len() as int));
                    assert(body@.subrange(0, body@.len() as int) =~= body@);
                }
                form.fields = parse_pairs(body, 0, body.len());
            }
        } else if range_starts_with(ct, 0, ctl, mp.as_slice()) {
            let bk = boundary_key_bytes();
            match find_seq_in(ct, bk.as_slice(), 0, ctl) {
                Some(bi) => {
                    proof {
                        lemma_find_seq_from(ct@, boundary_key(), 0);
                    }
                    let e1 = first_piece_end(ct, bi + 9, ctl, 59);
                    let (s2, e2) = trim_bounds(ct, bi + 9, e1);
                    let (s3, e3) = strip_bounds(ct, s2, e2, 34);
                    let mut bnd = double_dash_bytes();
                    crate::text::append_range(&mut bnd, ct, s3, e3);
                    proof {
                        assert(bnd@ =~= boundary_of(ct@.subrange(bi + 9, ctl as int)));
                    }
                    parse_multipart(self.body.as_slice(), bnd.as_slice(), &mut form.fields, &mut form.files);
                },
                None => {
                    proof {
                        lemma_find_seq_from(ct@, boundary_key(), 0);
                    }
                },
            }
        }
        form
    }
}

/// A type that a form field's text can be read as, the way `str::parse` reads it.
pub trait FormValue: Sized {
    /// The value the bytes of a field denote, if any.
    spec fn parse_spec(b: Seq<u8>) -> Option<Self>;

    /// Reads the value from a field's text.
    fn parse_value(s: &str) -> (r: Option<Self>)
        ensures
            r == Self::parse_spec(sbytes(s@)),
    ;
}

impl FormValue for u64 {
    open spec fn parse_spec(b: Seq<u8>) -> Option<u64> {
        parse_u64_spec(b)
    }

    fn parse_value(s: &str) -> (r: Option<u64>) {
        let b = crate::text::str_bytes(s);
        assert(b@.subrange(0, b@.len() as int) =~= b@);
        parse_u64_range(b, 0, b.len())
    }
}

impl FormValue for usize {
    open spec fn parse_spec(b: Seq<u8>) -> Option<usize> {
        parse_usize_spec(b)
    }

    fn parse_value(s: &str) -> (r: Option<usize>) {
        let b = crate::text::str_bytes(s);
        assert(b@.subrange(0, b@.len() as int) =~= b@);
        parse_usize_range(b, 0, b.len())
    }
}

impl FormValue for i64 {
    open spec fn parse_spec(b: Seq<u8>) -> Option<i64> {
        parse_i64_spec(b)
    }

    fn parse_value(s: &str) -> (r: Option<i64>) {
        let b = crate::text::str_bytes(s);
        assert(b@.subrange(0, b@.len() as int) =~= b@);
        parse_i64_range(b, 0, b.len())
    }
}

/// An unsigned decimal no larger than `max`, as `str::parse` reads it.
pub open spec fn unsigned_upto(b: Seq<u8>, max: nat) -> Option<nat> {
    match crate::lex::unsigned_literal(b) {
        Some(v) => if v <= max {
            Some(v)
        } else {
            None
        },
        None => None,
    }
}

/// A signed decimal between `min` and `max`, as `str::parse` reads it.
pub open spec fn signed_within(b: Seq<u8>, min: int, max: int) -> Option<int> {
    match crate::lex::signed_literal(b) {
        Some(v) => if min <= v <= max {
            Some(v)
        } else {
            None
        },
        None => None,
    }
}

impl FormValue for u32 {
    open spec fn parse_spec(b: Seq<u8>) -> Option<u32> {
        match unsigned_upto(b, u32::MAX as nat) {
            Some(v) => Some(v as u32),
            None => None,
        }
    }

    fn parse_value(s: &str) -> (r: Option<u32>) {
        let b = crate::text::str_bytes(s);
        assert(b@.subrange(0, b@.len() as int) =~= b@);
        match parse_unsigned_range(b, 0, b.len(), 4294967295u64) {
            Some(v) => Some(v as u32),
            None => None,
        }
    }
}

impl FormValue for u16 {
    open spec fn parse_spec(b: Seq<u8>) -> Option<u16> {
        match unsigned_upto(b, u16::MAX as nat) {
            Some(v) => Some(v as u16),
            None => None,
        }
    }

    fn parse_value(s: &str) -> (r: Option<u16>) {
        let b = crate::text::str_bytes(s);
        assert(b@.subrange(0, b@.len() as int) =~= b@);
        match parse_unsigned_range(b, 0, b.len(), 65535u64) {
            Some(v) => Some(v as u16),
            None => None,
        }
    }
}

impl FormValue for u8 {
    open spec fn parse_spec(b: Seq<u8>) -> Option<u8> {
        match unsigned_upto(b, u8::MAX as nat) {
            Some(v) => Some(v as u8),
            None => None,
        }
    }

    fn parse_value(s: &str) -> (r: Option<u8>) {
        let b = crate::text::str_bytes(s);
        assert(b@.subrange(0, b@.len() as int) =~= b@);
        match parse_unsigned_range(b, 0, b.len(), 255u64) {
            Some(v) => Some(v as u8),
            None => None,
        }
    }
}

impl FormValue for i32 {
    open spec fn parse_spec(b: Seq<u8>) -> Option<i32> {
        match signed_within(b, i32::MIN as int, i32::MAX as int) {
            Some(v) => Some(v as i32),
            None => None,
        }
    }

    fn parse_value(s: &str) -> (r: Option<i32>) {
        let b = crate::text::str_bytes(s);
        assert(b@.subrange(0, b@.len() as int) =~= b@);
        match parse_i64_range(b, 0, b.len()) {
            Some(v) => if -2147483648i64 <= v && v <= 2147483647i64 {
                Some(v as i32)
            } else {
                None
            },
            None => None,
        }
    }
}

impl FormValue for i16 {
    open spec fn parse_spec(b: Seq<u8>) -> Option<i16> {
        match signed_within(b, i16::MIN as int, i16::MAX as int) {
            Some(v) => Some(v as i16),
            None => None,
        }
    }

    fn parse_value(s: &str) -> (r: Option<i16>) {
        let b = crate::text::str_bytes(s);
        assert(b@.subrange(0, b@.len() as int) =~= b@);
        match parse_i64_range(b, 0, b.len()) {
            Some(v) => if -32768i64 <= v && v <= 32767i64 {
                Some(v as i16)
            } else {
                None
            },
            None => None,
        }
    }
}

impl FormValue for i8 {
    open spec fn parse_spec(b: Seq<u8>) -> Option<i8> {
        match signed_within(b, i8::MIN as int, i8::MAX as int) {
            Some(v) => Some(v as i8),
            None => None,
        }
    }

    fn parse_value(s: &str) -> (r: Option<i8>) {
        let b = crate::text::str_bytes(s);
        assert(b@.subrange(0, b@.len() as int) =~= b@);
        match parse_i64_range(b, 0, b.len()) {
            Some(v) => if -128i64 <= v && v <= 127i64 {
                Some(v as i8)
            } else {
                None
            },
            None => None,
        }
    }
}

impl FormValue for isize {
    open spec fn parse_spec(b: Seq<u8>) -> Option<isize> {
        match signed_within(b, isize::MIN as int, isize::MAX as int) {
            Some(v) => Some(v as isize),
            None => None,
        }
    }

    fn parse_value(s: &str) -> (r: Option<isize>) {
        let b = crate::text::str_bytes(s);
        assert(b@.subrange(0, b@.len() as int) =~= b@);
        match parse_i64_range(b, 0, b.len()) {
            Some(v) => if isize::MIN as i64 <= v && v <= isize::MAX as i64 {
                Some(v as isize)
            } else {
                None
            },
            None => None,
        }
    }
}

impl FormValue for bool {
    open spec fn parse_spec(b: Seq<u8>) -> Option<bool> {
        parse_bool_spec(b)
    }

    fn parse_value(s: &str) -> (r: Option<bool>) {
        let b = crate::text::str_bytes(s);
        parse_bool_bytes(b)
    }
}

impl FormData {
    /// Reads the first value of a text field as a `T` (`None` when the field
    /// is absent or its text is not a `T`).
    pub fn get_parsed<T: FormValue>(&self, key: &str) -> (r: Option<T>)
        requires
            self.fields.wf(),
        ensures
            r == (if self.fields@.contains_key(key@) {
                T::parse_spec(sbytes(self.fields@[key@][0]))
            } else {
                None
            }),
    {
        let raw = match self.get_plain_str(key) {
            Some(raw) => raw,
            None => {
                return None;
            },
        };
        T::parse_value(raw)
    }

    /// An empty form.
    pub fn new() -> (f: Self)
        ensures
            f.fields.wf(),
            f.files.wf(),
            f.fields@ == Map::<Seq<char>, Seq<Seq<char>>>::empty(),
            f.files@ == Map::<Seq<char>, Seq<UploadedFileView>>::empty(),
    {
        FormData { fields: MultiMap::new(), files: MultiMap::new() }
    }

    /// The first value of a text field, HTML-escaped for direct use in markup.
    pub fn get_safe_html(&self, key: &str) -> (r: Option<SafeHtml>)
        requires
            self.fields.wf(),
        ensures
            r is Some <==> self.fields@.contains_key(key@),
            r matches Some(h) ==> sbytes(h@) == html_escape(sbytes(self.fields@[key@][0])),
    {
        match self.fields.get(key) {
            Some(values) => {
                assert(values@.map_values(|x: UntrustedString| x@)[0] == values@[0]@);
                Some(Sanitizer::encode(values[0].as_str()))
            },
            None => None,
        }
    }

    /// The first value of a text field, unescaped.
    pub fn get_plain_str(&self, key: &str) -> (r: Option<&str>)
        requires
            self.fields.wf(),
        ensures
            r is Some <==> self.fields@.contains_key(key@),
            r matches Some(s) ==> s@ == self.fields@[key@][0],
    {
        match self.fields.get(key) {
            Some(values) => {
                assert(values@.map_values(|x: UntrustedString| x@)[0] == values@[0]@);
                Some(values[0].as_str())
            },
            None => None,
        }
    }

    /// Every value of a text field, in submission order (empty when absent).
    pub fn get_all_plain_str(&self, key: &str) -> (r: Vec<&str>)
        requires
            self.fields.wf(),
        ensures
            self.fields@.contains_key(key@) ==> r@.map_values(|s: &str| s@) == self.fields@[key@],
            !self.fields@.contains_key(key@) ==> r@.len() == 0,
    {
        let mut out: Vec<&str> = Vec::new();
        match self.fields.get(key) {
            Some(values) => {
                let ghost vv = values@.map_values(|x: UntrustedString| x@);
                let mut i: usize = 0;
                while i < values.len()
                    invariant
                        i <= values@.len(),
                        vv == values@.map_values(|x: UntrustedString| x@),
                        out@.map_values(|s: &str| s@) == vv.take(i as int),
                    decreases values@.len() - i,
                {
                    assert(vv[i as int] == values@[i as int]@);
                    let ghost prev = out@;
                    out.push(values[i].as_str());
                    assert(out@ == prev.push(out@.last()));
                    assert(vv.take(i + 1) == vv.take(i as int).push(vv[i as int]));
                    i = i + 1;
                    assert(out@.map_values(|s: &str| s@) =~= vv.take(i as int));
                }
                assert(vv.take(values@.len() as int) =~= vv);
                out
            },
            None => out,
        }
    }

    /// The first file uploaded under `key`.
    pub fn get_file(&self, key: &str) -> (r: Option<&UploadedFile>)
        requires
            self.files.wf(),
        ensures
            r is Some <==> self.files@.contains_key(key@),
            r matches Some(f) ==> f@ == self.files@[key@][0],
    {
        match self.files.get(key) {
            Some(values) => {
                assert(values@.map_values(|x: UploadedFile| x@)[0] == values@[0]@);
                Some(&values[0])
            },
            None => None,
        }
    }

    /// Every file uploaded under `key`, in submission order (empty when absent).
    pub fn get_all_files(&self, key: &str) -> (r: Vec<&UploadedFile>)
        requires
            self.files.wf(),
        ensures
            self.files@.contains_key(key@) ==> r@.map_values(|f: &UploadedFile| f@)
                == self.files@[key@],
            !self.files@.contains_key(key@) ==> r@.len() == 0,
    {
        let mut out: Vec<&UploadedFile> = Vec::new();
        match self.files.get(key) {
            Some(values) => {
                let ghost vv = values@.map_values(|x: UploadedFile| x@);
                let mut i: usize = 0;
                while i < values.len()
                    invariant
                        i <= values@.len(),
                        vv == values@.map_values(|x: UploadedFile| x@),
                        out@.map_values(|f: &UploadedFile| f@) == vv.take(i as int),
                    decreases values@.len() - i,
                {
                    assert(vv[i as int] == values@[i as int]@);
                    let ghost prev = out@;
                    out.push(&values[i]);
                    assert(out@ == prev.push(out@.last()));
                    assert(vv.take(i + 1) == vv.take(i as int).push(vv[i as int]));
                    i = i + 1;
                    assert(out@.map_values(|f: &UploadedFile| f@) =~= vv.take(i as int));
                }
                assert(vv.take(values@.len() as int) =~= vv);
                out
            },
            None => out,
        }
    }
}

/// A form field's values as the typed reading of a form sees them: one
/// value alone, or the list of them.
pub enum FieldShape {
    One(String),
    Many(Vec<String>),
}

/// The texts of a field shape.
pub open spec fn shape_view(s: FieldShape) -> (bool, Seq<Seq<char>>) {
    match s {
        FieldShape::One(v) => (true, seq![v@]),
        FieldShape::Many(vs) => (false, vs@.map_values(|x: String| x@)),
    }
}

/// The shape of a field with these values: one value stands alone, more
/// (or none) form a list.
pub open spec fn shape_of(vals: Seq<Seq<char>>) -> (bool, Seq<Seq<char>>) {
    if vals.len() == 1 {
        (true, vals)
    } else {
        (false, vals)
    }
}

impl FormData {
    /// Every text field with the shape of its values, in the order the
    /// fields first came (what a typed reading of the form is built from).
    pub fn field_shapes(&self) -> (r: Vec<(String, FieldShape)>)
        requires
            self.fields.wf(),
        ensures
            r@.len() == self.fields.key_seq().len(),
            forall|i: int|
                0 <= i < r@.len() ==> (#[trigger] r@[i]).0@ == self.fields.key_seq()[i] && shape_view(r@[i].1)
                    == shape_of(self.fields@[self.fields.key_seq()[i]]),
    {
        let n = self.fields.len();
        let mut out: Vec<(String, FieldShape)> = Vec::new();
        let mut i: usize = 0;
        while i < n
            invariant
                self.fields.wf(),
                n == self.fields.key_seq().len(),
                i <= n,
                out@.len() == i,
                forall|j: int|
                    0 <= j < i ==> (#[trigger] out@[j]).0@ == self.fields.key_seq()[j] && shape_view(out@[j].1)
                        == shape_of(self.fields@[self.fields.key_seq()[j]]),
            decreases n - i,
        {
            let (k, vals) = self.fields.entry_at(i);
            let mut texts: Vec<String> = Vec::new();
            let mut j: usize = 0;
            while j < vals.len()
                invariant
                    j <= vals@.len(),
                    texts@.map_values(|x: String| x@) == vals@.map_values(|x: UntrustedString| x@).take(j as int),
                decreases vals@.len() - j,
            {
                let ghost before = texts@;
                let t = crate::text::str_to_string(vals[j].as_str());
                assert(t@ == vals@[j as int]@);
                texts.push(t);
                assert(texts@.map_values(|x: String| x@) =~= before.map_values(|x: String| x@).push(vals@[j as int]@));
                assert(texts@.map_values(|x: String| x@) =~= vals@.map_values(|x: UntrustedString| x@).take(j + 1));
                j = j + 1;
            }
            assert(vals@.map_values(|x: UntrustedString| x@).take(vals@.len() as int) =~= vals@.map_values(|x: UntrustedString| x@));
            let shape = if texts.len() == 1 {
                let v = texts.pop().unwrap();
                assert(seq![v@] =~= vals@.map_values(|x: UntrustedString| x@));
                FieldShape::One(v)
            } else {
                FieldShape::Many(texts)
            };
            out.push((k.clone(), shape));
            i = i + 1;
        }
        out
    }
}

/// `application/json`
pub open spec fn json_type() -> Seq<u8> {
    seq![
        'a' as u8, 'p' as u8, 'p' as u8, 'l' as u8, 'i' as u8, 'c' as u8, 'a' as u8, 't' as u8,
        'i' as u8, 'o' as u8, 'n' as u8, '/' as u8, 'j' as u8, 's' as u8, 'o' as u8, 'n' as u8,
    ]
}

/// Whether a body can be read as JSON: it needs a `Content-Type` starting
/// with `application/json` and a non-empty body; each failure has its message.
pub open spec fn json_body_check(req: Request) -> Result<(), Seq<char>> {
    match content_type_of(req) {
        None => Err("Missing Content-Type header"@),
        Some(ct) => if !starts_with(ct, json_type()) {
            Err("Unsupported Media Type: Expected application/json"@)
        } else if req.body@.len() == 0 {
            Err("Empty request body"@)
        } else {
            Ok(())
        },
    }
}

impl Request {
    /// The body to read as JSON, or why it cannot be.
    pub fn json_body(&self) -> (r: Result<&[u8], String>)
        requires
            self.headers.wf(),
        ensures
            match (r, json_body_check(*self)) {
                (Ok(b), Ok(())) => b@ == self.body@,
                (Err(e), Err(f)) => e@ == f,
                _ => false,
            },
    {
        let values = match self.headers.get("content-type") {
            Some(v) => v,
            None => {
                return Err("Missing Content-Type header".to_string());
            },
        };
        let ct_string = &values[0];
        assert(values@.map_values(|x: String| x@)[0] == ct_string@);
        let ct = string_bytes(ct_string);
        assert(ct@.subrange(0, ct@.len() as int) =~= ct@);
        let ja: [u8; 16] = [
            'a' as u8, 'p' as u8, 'p' as u8, 'l' as u8, 'i' as u8, 'c' as u8, 'a' as u8, 't' as u8,
            'i' as u8, 'o' as u8, 'n' as u8, '/' as u8, 'j' as u8, 's' as u8, 'o' as u8, 'n' as u8,
        ];
        let j: &[u8] = &ja;
        assert(j@ == json_type());
        if !range_starts_with(ct, 0, ct.len(), j) {
            return Err("Unsupported Media Type: Expected application/json".to_string());
        }
        if self.body.len() == 0 {
            return Err("Empty request body".to_string());
        }
        Ok(self.body.as_slice())
    }
}

} // verus!

//! Tokenising bytes the way `str` does it: trimming Unicode white space,
//! splitting into lines, splitting on a separator byte, ASCII case folding,
//! and reading decimal integers.
use crate::text::{
    find_byte, find_byte_in, is_boundary, lemma_ascii_boundaries, lemma_find_byte_from,
    lemma_valid_head, lemma_valid_split,
};
use vstd::prelude::*;
use vstd::utf8::*;

verus! {

// ------------------------------------------------------------------
// Unicode white space (`char::is_whitespace`), recognised on UTF-8 bytes
// ------------------------------------------------------------------
/// Length of the UTF-8 encoding of a white-space character that starts at
/// `b[i]`, or 0.  White space is U+0009..U+000D, U+0020, U+0085, U+00A0,
/// U+1680, U+2000..U+200A, U+2028, U+2029, U+202F, U+205F and U+3000.
pub open spec fn ws_len(b: Seq<u8>, i: int) -> int {
    if i < 0 || i >= b.len() {
        0
    } else if (9 <= b[i] <= 13) || b[i] == 32 {
        1
    } else if b[i] == 0xC2 && i + 1 < b.len() && (b[i + 1] == 0x85 || b[i + 1] == 0xA0) {
        2
    } else if b[i] == 0xE1 && i + 2 < b.len() && b[i + 1] == 0x9A && b[i + 2] == 0x80 {
        3
    } else if b[i] == 0xE2 && i + 2 < b.len() && ((b[i + 1] == 0x80 && ((0x80 <= b[i + 2] <= 0x8A)
        || b[i + 2] == 0xA8 || b[i + 2] == 0xA9 || b[i + 2] == 0xAF)) || (b[i + 1] == 0x81 && b[i
        + 2] == 0x9F)) {
        3
    } else if b[i] == 0xE3 && i + 2 < b.len() && b[i + 1] == 0x80 && b[i + 2] == 0x80 {
        3
    } else {
        0
    }
}

/// Length of a white-space character that ends `b`, or 0.
pub open spec fn ws_end_len(b: Seq<u8>) -> int {
    let n = b.len() as int;
    if n >= 1 && ws_len(b, n - 1) == 1 {
        1
    } else if n >= 2 && ws_len(b, n - 2) == 2 {
        2
    } else if n >= 3 && ws_len(b, n - 3) == 3 {
        3
    } else {
        0
    }
}

/// `str::trim_start`.
pub open spec fn trim_start(b: Seq<u8>) -> Seq<u8>
    decreases b.len(),
{
    if b.len() > 0 && ws_len(b, 0) > 0 {
        trim_start(b.subrange(ws_len(b, 0), b.len() as int))
    } else {
        b
    }
}

/// `str::trim_end`.
pub open spec fn trim_end(b: Seq<u8>) -> Seq<u8>
    decreases b.len(),
{
    if ws_end_len(b) > 0 {
        trim_end(b.subrange(0, b.len() - ws_end_len(b)))
    } else {
        b
    }
}

/// `str::trim`.
pub open spec fn trim(b: Seq<u8>) -> Seq<u8> {
    trim_end(trim_start(b))
}

/// A white-space character ends at a character boundary.
proof fn lemma_ws_step_boundary(b: Seq<u8>, i: int)
    requires
        valid_utf8(b),
        0 <= i < b.len(),
        is_boundary(b, i),
        ws_len(b, i) > 0,
    ensures
        is_boundary(b, i + ws_len(b, i)),
        i + ws_len(b, i) <= b.len(),
{
    lemma_valid_split(b, i);
    let suf = b.subrange(i, b.len() as int);
    assert(suf[0] == b[i]);
    assert(length_of_first_scalar(suf) == ws_len(b, i));
    let rest = pop_first_scalar(suf);
    if rest.len() > 0 {
        lemma_valid_head(rest);
        assert(rest[0] == b[i + ws_len(b, i)]);
    }
}

/// Where `trim` cuts a slice of a buffer, as absolute positions.
pub fn trim_bounds(b: &[u8], lo: usize, hi: usize) -> (r: (usize, usize))
    requires
        lo <= hi <= b@.len(),
    ensures
        lo <= r.0 <= r.1 <= hi,
        b@.subrange(r.0 as int, r.1 as int) == trim(b@.subrange(lo as int, hi as int)),
        valid_utf8(b@) && is_boundary(b@, lo as int) && is_boundary(b@, hi as int) ==> is_boundary(
            b@,
            r.0 as int,
        ) && is_boundary(b@, r.1 as int),
{
    let ghost w = b@.subrange(lo as int, hi as int);
    let mut s = lo;
    loop
        invariant
            lo <= s <= hi <= b@.len(),
            trim_start(w) == trim_start(b@.subrange(s as int, hi as int)),
            valid_utf8(b@) && is_boundary(b@, lo as int) && is_boundary(b@, hi as int)
                ==> is_boundary(b@, s as int),
        ensures
            lo <= s <= hi,
            trim_start(w) == b@.subrange(s as int, hi as int),
            valid_utf8(b@) && is_boundary(b@, lo as int) && is_boundary(b@, hi as int)
                ==> is_boundary(b@, s as int),
        decreases hi - s,
    {
        let k = ws_len_at(b, s, hi);
        proof {
            let cur = b@.subrange(s as int, hi as int);
            assert(ws_len(cur, 0) == k);
        }
        if k == 0 {
            break;
        }
        proof {
            let cur = b@.subrange(s as int, hi as int);
            assert(trim_start(cur) == trim_start(cur.subrange(k as int, cur.len() as int)));
            assert(cur.subrange(k as int, cur.len() as int) =~= b@.subrange(s + k, hi as int));
            if valid_utf8(b@) && is_boundary(b@, lo as int) && is_boundary(b@, hi as int) {
                assert(ws_len(b@, s as int) == k);
                lemma_ws_step_boundary(b@, s as int);
            }
        }
        s = s + k;
    }
    let ghost ts = b@.subrange(s as int, hi as int);
    assert(trim_start(w) == ts);
    let mut e = hi;
    loop
        invariant
            s <= e <= hi <= b@.len(),
            ts == b@.subrange(s as int, hi as int),
            trim_end(ts) == trim_end(b@.subrange(s as int, e as int)),
            valid_utf8(b@) && is_boundary(b@, s as int) && is_boundary(b@, hi as int)
                ==> is_boundary(b@, e as int),
        ensures
            s <= e <= hi,
            trim_end(ts) == b@.subrange(s as int, e as int),
            valid_utf8(b@) && is_boundary(b@, s as int) && is_boundary(b@, hi as int)
                ==> is_boundary(b@, e as int),
        decreases e - s,
    {
        let k = ws_end_len_at(b, s, e);
        if k == 0 {
            break;
        }
        assert(k > 0);
        proof {
            let cur = b@.subrange(s as int, e as int);
            assert(cur.subrange(0, cur.len() - k) =~= b@.subrange(s as int, e - k));
            if valid_utf8(b@) && is_boundary(b@, s as int) && is_boundary(b@, hi as int) {
                let p = e - k;
                assert(cur[p - s] == b@[p]);
                if k == 1 {
                    lemma_ascii_boundaries(b@, p);
                } else {
                    assert(!is_continuation_byte(b@[p]));
                }
            }
        }
        e = e - k;
    }
    (s, e)
}

/// `ws_len` of `b[i..hi]` at its start.
fn ws_len_at(b: &[u8], i: usize, hi: usize) -> (k: usize)
    requires
        i <= hi <= b@.len(),
    ensures
        k == ws_len(b@.subrange(i as int, hi as int), 0),
        k > 0 ==> k == ws_len(b@, i as int) && i + k <= hi,
{
    let ghost w = b@.subrange(i as int, hi as int);
    if i >= hi {
        return 0;
    }
    let c = b[i];
    let n = hi - i;
    proof {
        assert(w[0] == c);
        if n > 1 {
            assert(w[1] == b@[i + 1]);
        }
        if n > 2 {
            assert(w[2] == b@[i + 2]);
        }
    }
    if (9 <= c && c <= 13) || c == 32 {
        1
    } else if c == 0xC2 && n > 1 && (b[i + 1] == 0x85 || b[i + 1] == 0xA0) {
        2
    } else if c == 0xE1 && n > 2 && b[i + 1] == 0x9A && b[i + 2] == 0x80 {
        3
    } else if c == 0xE2 && n > 2 && ((b[i + 1] == 0x80 && ((0x80 <= b[i + 2] && b[i + 2] <= 0x8A)
        || b[i + 2] == 0xA8 || b[i + 2] == 0xA9 || b[i + 2] == 0xAF)) || (b[i + 1] == 0x81 && b[i
        + 2] == 0x9F)) {
        3
    } else if c == 0xE3 && n > 2 && b[i + 1] == 0x80 && b[i + 2] == 0x80 {
        3
    } else {
        0
    }
}

/// `ws_end_len` of `b[s..e]`.
fn ws_end_len_at(b: &[u8], s: usize, e: usize) -> (k: usize)
    requires
        s <= e <= b@.len(),
    ensures
        k == ws_end_len(b@.subrange(s as int, e as int)),
        k <= e - s,
{
    let ghost w = b@.subrange(s as int, e as int);
    let n = e - s;
    if n >= 1 {
        let k1 = ws_len_at(b, e - 1, e);
        proof {
            assert(w.subrange(n - 1, n as int) =~= b@.subrange(e - 1, e as int));
            assert(ws_len(w, n - 1) == ws_len(b@.subrange(e - 1, e as int), 0));
        }
        if k1 == 1 {
            return 1;
        }
    }
    if n >= 2 {
        let k2 = ws_len_at(b, e - 2, e);
        proof {
            assert(w.subrange(n - 2, n as int) =~= b@.subrange(e - 2, e as int));
            assert(ws_len(w, n - 2) == ws_len(b@.subrange(e - 2, e as int), 0));
        }
        if k2 == 2 {
            return 2;
        }
    }
    if n >= 3 {
        let k3 = ws_len_at(b, e - 3, e);
        proof {
            assert(ws_len(w, n - 3) == ws_len(b@.subrange(e - 3, e as int), 0));
        }
        if k3 == 3 {
            return 3;
        }
    }
    0
}


// ------------------------------------------------------------------
// Splitting
// ------------------------------------------------------------------
/// The bytes that a list of ranges cuts out of `b`.
pub open spec fn range_views(b: Seq<u8>, r: Seq<(usize, usize)>) -> Seq<Seq<u8>> {
    r.map_values(|p: (usize, usize)| b.subrange(p.0 as int, p.1 as int))
}

/// Every range lies in `lo..hi` and is cut at character boundaries of a valid `b`.
pub open spec fn ranges_within(b: Seq<u8>, r: Seq<(usize, usize)>, lo: int, hi: int) -> bool {
    forall|j: int|
        0 <= j < r.len() ==> lo <= (#[trigger] r[j]).0 <= r[j].1 <= hi && (valid_utf8(b)
            && is_boundary(b, lo) && is_boundary(b, hi) ==> is_boundary(b, r[j].0 as int)
            && is_boundary(b, r[j].1 as int))
}

/// `str::split(c)`: the pieces between occurrences of `c` (always at least one).
pub open spec fn split_on(b: Seq<u8>, c: u8) -> Seq<Seq<u8>>
    decreases b.len(),
{
    match find_byte(b, c) {
        None => seq![b],
        Some(k) => {
            if 0 <= k < b.len() {
                seq![b.subrange(0, k)] + split_on(b.subrange(k + 1, b.len() as int), c)
            } else {
                seq![b]
            }
        },
    }
}

/// A piece without the separator splits into itself.
pub proof fn lemma_split_single(b: Seq<u8>, c: u8)
    requires
        forall|i: int| 0 <= i < b.len() ==> b[i] != c,
    ensures
        split_on(b, c) == seq![b],
{
    lemma_find_byte_from(b, c, 0);
}

/// The first occurrence of `c` in `a + [c] + b` is the first in `a`, or the added one.
pub proof fn lemma_find_in_append(a: Seq<u8>, b: Seq<u8>, c: u8)
    ensures
        find_byte(a + seq![c] + b, c) == (match find_byte(a, c) {
            Some(k) => Some(k),
            None => Some(a.len() as int),
        }),
{
    let s = a + seq![c] + b;
    lemma_find_byte_from(a, c, 0);
    lemma_find_byte_from(s, c, 0);
    assert(s[a.len() as int] == c);
    match find_byte(a, c) {
        Some(k) => {
            assert(s[k] == a[k]);
            match find_byte(s, c) {
                Some(k2) => {
                    if k2 < k {
                        assert(s[k2] == a[k2]);
                    }
                },
                None => {},
            }
        },
        None => {
            match find_byte(s, c) {
                Some(k2) => {
                    if k2 < a.len() {
                        assert(s[k2] == a[k2]);
                    }
                },
                None => {},
            }
        },
    }
}

/// Splitting `a`, a separator and a piece `b` without it: the pieces of `a`, then `b`.
pub proof fn lemma_split_append(a: Seq<u8>, b: Seq<u8>, c: u8)
    requires
        forall|i: int| 0 <= i < b.len() ==> b[i] != c,
    ensures
        split_on(a + seq![c] + b, c) == split_on(a, c) + seq![b],
    decreases a.len(),
{
    let s = a + seq![c] + b;
    lemma_find_in_append(a, b, c);
    lemma_find_byte_from(a, c, 0);
    lemma_split_single(b, c);
    match find_byte(a, c) {
        Some(k) => {
            let a2 = a.subrange(k + 1, a.len() as int);
            lemma_split_append(a2, b, c);
            assert(s.subrange(0, k) =~= a.subrange(0, k));
            assert(s.subrange(k + 1, s.len() as int) =~= a2 + seq![c] + b);
            assert(split_on(s, c) =~= seq![a.subrange(0, k)] + split_on(a2, c) + seq![b]);
        },
        None => {
            lemma_split_single(a, c);
            assert(s.subrange(0, a.len() as int) =~= a);
            assert(s.subrange(a.len() as int + 1, s.len() as int) =~= b);
        },
    }
}

/// Splitting pieces joined by a separator they do not hold gives the pieces back.
pub proof fn lemma_split_join(parts: Seq<Seq<u8>>, c: u8)
    requires
        parts.len() > 0,
        forall|i: int, j: int| 0 <= i < parts.len() && 0 <= j < parts[i].len() ==> #[trigger] parts[i][j] != c,
    ensures
        split_on(join(parts, seq![c]), c) == parts,
    decreases parts.len(),
{
    if parts.len() == 1 {
        lemma_split_single(parts[0], c);
        assert(seq![parts[0]] =~= parts);
    } else {
        let init = parts.drop_last();
        assert forall|i: int, j: int| 0 <= i < init.len() && 0 <= j < init[i].len() implies #[trigger] init[i][j] != c by {
            assert(init[i] == parts[i]);
        }
        lemma_split_join(init, c);
        let last = parts.last();
        assert forall|j: int| 0 <= j < last.len() implies last[j] != c by {
            assert(parts[parts.len() - 1][j] != c);
        }
        lemma_split_append(join(init, seq![c]), last, c);
        assert(split_on(join(init, seq![c]), c) + seq![last] =~= parts);
    }
}

/// `str::split_once(c)`.
pub open spec fn split_once(b: Seq<u8>, c: u8) -> Option<(Seq<u8>, Seq<u8>)> {
    match find_byte(b, c) {
        None => None,
        Some(k) => Some((b.subrange(0, k), b.subrange(k + 1, b.len() as int))),
    }
}

/// Splits `b[lo..hi]` on `c`, as `str::split` does, returning absolute ranges.
pub fn split_ranges(b: &[u8], lo: usize, hi: usize, c: u8) -> (r: Vec<(usize, usize)>)
    requires
        lo <= hi <= b@.len(),
        c < 128,
    ensures
        range_views(b@, r@) == split_on(b@.subrange(lo as int, hi as int), c),
        ranges_within(b@, r@, lo as int, hi as int),
{
    let ghost w = b@.subrange(lo as int, hi as int);
    let mut r: Vec<(usize, usize)> = Vec::new();
    let mut start = lo;
    loop
        invariant
            lo <= start <= hi <= b@.len(),
            c < 128,
            w == b@.subrange(lo as int, hi as int),
            range_views(b@, r@) + split_on(b@.subrange(start as int, hi as int), c) == split_on(
                w,
                c,
            ),
            ranges_within(b@, r@, lo as int, hi as int),
            valid_utf8(b@) && is_boundary(b@, lo as int) && is_boundary(b@, hi as int)
                ==> is_boundary(b@, start as int),
        decreases hi - start,
    {
        let ghost cur = b@.subrange(start as int, hi as int);
        let f = find_byte_in(b, c, start, hi);
        match f {
            None => {
                r.push((start, hi));
                proof {
                    assert(split_on(cur, c) == seq![cur]);
                    assert(range_views(b@, r@) =~= range_views(b@, r@.drop_last()) + seq![cur]);
                }
                return r;
            },
            Some(k) => {
                proof {
                    lemma_find_byte_from(cur, c, 0);
                    let kk = k - start;
                    assert(find_byte(cur, c) == Some(kk));
                    assert(cur.subrange(0, kk) =~= b@.subrange(start as int, k as int));
                    assert(cur.subrange(kk + 1, cur.len() as int) =~= b@.subrange(
                        k + 1,
                        hi as int,
                    ));
                    if valid_utf8(b@) && is_boundary(b@, lo as int) && is_boundary(b@, hi as int) {
                        lemma_ascii_boundaries(b@, k as int);
                    }
                }
                r.push((start, k));
                proof {
                    assert(range_views(b@, r@) =~= range_views(b@, r@.drop_last()) + seq![
                        b@.subrange(start as int, k as int),
                    ]);
                }
                start = k + 1;
            },
        }
    }
}

/// Drops one trailing carriage return.
pub open spec fn strip_cr(b: Seq<u8>) -> Seq<u8> {
    if b.len() > 0 && b[b.len() - 1] == 13 {
        b.subrange(0, b.len() - 1)
    } else {
        b
    }
}

/// `str::lines`: pieces ended by `\n` (with a `\r` before it dropped); an
/// empty final piece is not a line.
pub open spec fn lines_of(b: Seq<u8>) -> Seq<Seq<u8>>
    decreases b.len(),
{
    if b.len() == 0 {
        seq![]
    } else {
        match find_byte(b, 10) {
            None => seq![b],
            Some(k) => {
                if 0 <= k < b.len() {
                    seq![strip_cr(b.subrange(0, k))] + lines_of(b.subrange(k + 1, b.len() as int))
                } else {
                    seq![b]
                }
            },
        }
    }
}

/// Splits `b[lo..hi]` into lines as `str::lines` does, returning absolute ranges.
pub fn line_ranges(b: &[u8], lo: usize, hi: usize) -> (r: Vec<(usize, usize)>)
    requires
        lo <= hi <= b@.len(),
    ensures
        range_views(b@, r@) == lines_of(b@.subrange(lo as int, hi as int)),
        ranges_within(b@, r@, lo as int, hi as int),
{
    let ghost w = b@.subrange(lo as int, hi as int);
    let mut r: Vec<(usize, usize)> = Vec::new();
    let mut start = lo;
    loop
        invariant
            lo <= start <= hi <= b@.len(),
            w == b@.subrange(lo as int, hi as int),
            range_views(b@, r@) + lines_of(b@.subrange(start as int, hi as int)) == lines_of(w),
            ranges_within(b@, r@, lo as int, hi as int),
            valid_utf8(b@) && is_boundary(b@, lo as int) && is_boundary(b@, hi as int)
                ==> is_boundary(b@, start as int),
        decreases hi - start,
    {
        let ghost cur = b@.subrange(start as int, hi as int);
        if start == hi {
            proof {
                assert(lines_of(cur) == Seq::<Seq<u8>>::empty());
                assert(range_views(b@, r@) + lines_of(cur) =~= range_views(b@, r@));
            }
            return r;
        }
        let f = find_byte_in(b, 10, start, hi);
        match f {
            None => {
                r.push((start, hi));
                proof {
                    assert(lines_of(cur) == seq![cur]);
                    assert(range_views(b@, r@) =~= range_views(b@, r@.drop_last()) + seq![cur]);
                }
                return r;
            },
            Some(k) => {
                let mut e = k;
                if e > start && b[e - 1] == 13 {
                    e = e - 1;
                }
                proof {
                    lemma_find_byte_from(cur, 10, 0);
                    let kk = k - start;
                    assert(find_byte(cur, 10) == Some(kk));
                    assert(strip_cr(cur.subrange(0, kk)) =~= b@.subrange(start as int, e as int));
                    assert(cur.subrange(kk + 1, cur.len() as int) =~= b@.subrange(
                        k + 1,
                        hi as int,
                    ));
                    if valid_utf8(b@) && is_boundary(b@, lo as int) && is_boundary(b@, hi as int) {
                        lemma_ascii_boundaries(b@, k as int);
                        if e < k {
                            lemma_ascii_boundaries(b@, e as int);
                        }
                    }
                }
                r.push((start, e));
                proof {
                    assert(range_views(b@, r@) =~= range_views(b@, r@.drop_last()) + seq![
                        b@.subrange(start as int, e as int),
                    ]);
                }
                start = k + 1;
            },
        }
    }
}


// ------------------------------------------------------------------
// ASCII helpers
// ------------------------------------------------------------------
/// `u8::to_ascii_lowercase`.
pub open spec fn lower_byte(c: u8) -> u8 {
    if 65 <= c <= 90 {
        (c + 32) as u8
    } else {
        c
    }
}

/// `to_ascii_lowercase` on bytes.
pub open spec fn ascii_lower(b: Seq<u8>) -> Seq<u8> {
    b.map_values(|c: u8| lower_byte(c))
}

/// `b` begins with `p`.
pub open spec fn starts_with(b: Seq<u8>, p: Seq<u8>) -> bool {
    p.len() <= b.len() && b.subrange(0, p.len() as int) == p
}

/// `b` ends with `p`.
pub open spec fn ends_with(b: Seq<u8>, p: Seq<u8>) -> bool {
    p.len() <= b.len() && b.subrange(b.len() - p.len(), b.len() as int) == p
}

/// `n` occurs somewhere in `b`.
pub open spec fn contains_seq(b: Seq<u8>, n: Seq<u8>) -> bool {
    exists|i: int| 0 <= i && i + n.len() <= b.len() && #[trigger] b.subrange(i, i + n.len()) == n
}

pub fn lower_copy(b: &[u8], lo: usize, hi: usize) -> (v: Vec<u8>)
    requires
        lo <= hi <= b@.len(),
    ensures
        v@ == ascii_lower(b@.subrange(lo as int, hi as int)),
{
    let mut v: Vec<u8> = Vec::new();
    let mut i = lo;
    while i < hi
        invariant
            lo <= i <= hi <= b@.len(),
            v@ == ascii_lower(b@.subrange(lo as int, i as int)),
        decreases hi - i,
    {
        let c = b[i];
        let l = if 65 <= c && c <= 90 {
            c + 32
        } else {
            c
        };
        v.push(l);
        i = i + 1;
        assert(v@ =~= ascii_lower(b@.subrange(lo as int, i as int)));
    }
    v
}

/// Does `b[lo..hi]` begin with `p`?
pub fn range_starts_with(b: &[u8], lo: usize, hi: usize, p: &[u8]) -> (r: bool)
    requires
        lo <= hi <= b@.len(),
    ensures
        r == starts_with(b@.subrange(lo as int, hi as int), p@),
{
    if p.len() > hi - lo {
        return false;
    }
    let mut j: usize = 0;
    while j < p.len()
        invariant
            lo + p@.len() <= hi <= b@.len(),
            b@.len() == b.len(),
            j <= p@.len(),
            forall|t: int| 0 <= t < j ==> b@[lo + t] == p@[t],
        decreases p@.len() - j,
    {
        let ij = lo + j;
        if b[ij] != p[j] {
            assert(b@.subrange(lo as int, hi as int).subrange(0, p@.len() as int)[j as int]
                != p@[j as int]);
            return false;
        }
        j = j + 1;
    }
    assert(b@.subrange(lo as int, hi as int).subrange(0, p@.len() as int) =~= p@);
    true
}

/// Does `b[lo..hi]` end with `p`?
pub fn range_ends_with(b: &[u8], lo: usize, hi: usize, p: &[u8]) -> (r: bool)
    requires
        lo <= hi <= b@.len(),
    ensures
        r == ends_with(b@.subrange(lo as int, hi as int), p@),
{
    if p.len() > hi - lo {
        return false;
    }
    let r = range_starts_with(b, hi - p.len(), hi, p);
    proof {
        let w = b@.subrange(lo as int, hi as int);
        assert(w.subrange(w.len() - p@.len(), w.len() as int) =~= b@.subrange(
            hi - p@.len(),
            hi as int,
        ));
        assert(b@.subrange(hi - p@.len(), hi as int).subrange(0, p@.len() as int) =~= b@.subrange(
            hi - p@.len(),
            hi as int,
        ));
    }
    r
}

/// Does `n` occur in `b[lo..hi]`?
pub fn range_contains(b: &[u8], lo: usize, hi: usize, n: &[u8]) -> (r: bool)
    requires
        lo <= hi <= b@.len(),
    ensures
        r == contains_seq(b@.subrange(lo as int, hi as int), n@),
{
    let ghost w = b@.subrange(lo as int, hi as int);
    let mut i = lo;
    while i <= hi
        invariant
            lo <= i,
            hi <= b@.len(),
            w == b@.subrange(lo as int, hi as int),
            forall|t: int|
                0 <= t < i - lo && t + n@.len() <= w.len() ==> #[trigger] w.subrange(
                    t,
                    t + n@.len(),
                ) != n@,
        decreases hi + 1 - i,
    {
        let m = range_starts_with(b, i, hi, n);
        proof {
            let cur = b@.subrange(i as int, hi as int);
            if n@.len() <= cur.len() {
                assert(cur.subrange(0, n@.len() as int) =~= w.subrange(i - lo, i - lo + n@.len()));
            }
        }
        if m {
            return true;
        }
        assert(forall|t: int|
            0 <= t < i + 1 - lo && t + n@.len() <= w.len() ==> #[trigger] w.subrange(
                t,
                t + n@.len(),
            ) != n@);
        if i == hi {
            return false;
        }
        i = i + 1;
    }
    false
}

// ------------------------------------------------------------------
// Numbers
// ------------------------------------------------------------------
/// An ASCII decimal digit.
pub open spec fn is_digit(c: u8) -> bool {
    48 <= c <= 57
}

/// Every byte is a decimal digit.
pub open spec fn all_digits(b: Seq<u8>) -> bool {
    forall|i: int| 0 <= i < b.len() ==> is_digit(#[trigger] b[i])
}

/// The value of a string of decimal digits.
pub open spec fn digits_value(b: Seq<u8>) -> nat
    decreases b.len(),
{
    if b.len() == 0 {
        0
    } else {
        digits_value(b.drop_last()) * 10 + ((b.last() - 48) as nat)
    }
}

/// What `str::parse` of an unsigned integer yields, before the range check:
/// an optional `+`, then one or more decimal digits.
pub open spec fn unsigned_literal(b: Seq<u8>) -> Option<nat> {
    let d = if b.len() > 0 && b[0] == 43 {
        b.subrange(1, b.len() as int)
    } else {
        b
    };
    if d.len() == 0 || !all_digits(d) {
        None
    } else {
        Some(digits_value(d))
    }
}

/// `usize::from_str`.
pub open spec fn parse_usize_spec(b: Seq<u8>) -> Option<usize> {
    match unsigned_literal(b) {
        Some(v) => if v <= usize::MAX {
            Some(v as usize)
        } else {
            None
        },
        None => None,
    }
}

/// `u64::from_str`.
pub open spec fn parse_u64_spec(b: Seq<u8>) -> Option<u64> {
    match unsigned_literal(b) {
        Some(v) => if v <= u64::MAX {
            Some(v as u64)
        } else {
            None
        },
        None => None,
    }
}

proof fn lemma_digits_monotone(b: Seq<u8>, i: int)
    requires
        0 <= i <= b.len(),
        all_digits(b),
    ensures
        digits_value(b.subrange(0, i)) <= digits_value(b),
    decreases b.len() - i,
{
    if i < b.len() {
        lemma_digits_monotone(b, i + 1);
        let p = b.subrange(0, i + 1);
        assert(p.drop_last() =~= b.subrange(0, i));
        assert(is_digit(b[i]));
    } else {
        assert(b.subrange(0, i) =~= b);
    }
}

/// Reads `b[lo..hi]` as an unsigned decimal no larger than `max`.
pub fn parse_unsigned_range(b: &[u8], lo: usize, hi: usize, max: u64) -> (r: Option<u64>)
    requires
        lo <= hi <= b@.len(),
        max >= 9,
    ensures
        r == (match unsigned_literal(b@.subrange(lo as int, hi as int)) {
            Some(v) => if v <= max {
                Some(v as u64)
            } else {
                None::<u64>
            },
            None => None::<u64>,
        }),
{
    let ghost w = b@.subrange(lo as int, hi as int);
    let mut start = lo;
    if lo < hi && b[lo] == 43 {
        start = lo + 1;
    }
    let ghost d = b@.subrange(start as int, hi as int);
    assert(d == (if w.len() > 0 && w[0] == 43 {
        w.subrange(1, w.len() as int)
    } else {
        w
    })) by {
        if w.len() > 0 && w[0] == 43 {
            assert(w.subrange(1, w.len() as int) =~= d);
        } else {
            assert(w =~= d);
        }
    }
    if start == hi {
        return None;
    }
    let mut acc: u64 = 0;
    let mut overflow = false;
    let mut i = start;
    while i < hi
        invariant
            start <= i <= hi <= b@.len(),
            max >= 9,
            d == b@.subrange(start as int, hi as int),
            w == b@.subrange(lo as int, hi as int),
            d == (if w.len() > 0 && w[0] == 43 {
                w.subrange(1, w.len() as int)
            } else {
                w
            }),
            all_digits(b@.subrange(start as int, i as int)),
            !overflow ==> acc as nat == digits_value(b@.subrange(start as int, i as int)) && acc
                <= max,
            overflow ==> digits_value(b@.subrange(start as int, i as int)) > max,
        decreases hi - i,
    {
        let c = b[i];
        if c < 48 || c > 57 {
            assert(d[i - start] == c);
            assert(!is_digit(d[i - start]));
            assert(!all_digits(d));
            assert(unsigned_literal(w) is None);
            return None;
        }
        let ghost prev = b@.subrange(start as int, i as int);
        let ghost next = b@.subrange(start as int, i + 1);
        assert(next.drop_last() =~= prev);
        assert(all_digits(next)) by {
            assert forall|t: int| 0 <= t < next.len() implies is_digit(#[trigger] next[t]) by {
                if t < prev.len() {
                    assert(next[t] == prev[t]);
                }
            }
        }
        if !overflow {
            let digit = (c - 48) as u64;
            if acc > (max - digit) / 10 {
                overflow = true;
                assert(acc * 10 + digit > max) by (nonlinear_arith)
                    requires
                        acc > (max - digit) / 10,
                        digit <= 9,
                        digit <= max || true,
                ;
            } else {
                assert(acc * 10 + digit <= max) by (nonlinear_arith)
                    requires
                        acc <= (max - digit) / 10,
                        digit <= max,
                ;
                acc = acc * 10 + digit;
            }
        } else {
            assert(digits_value(next) >= digits_value(prev) * 10) by (nonlinear_arith)
                requires
                    digits_value(next) == digits_value(prev) * 10 + ((next.last() - 48) as nat),
            ;
            assert(digits_value(prev) * 10 >= digits_value(prev)) by (nonlinear_arith);
        }
        i = i + 1;
    }
    assert(d =~= b@.subrange(start as int, i as int));
    if overflow {
        None
    } else {
        Some(acc)
    }
}

/// `usize::from_str` on `b[lo..hi]`.
pub fn parse_usize_range(b: &[u8], lo: usize, hi: usize) -> (r: Option<usize>)
    requires
        lo <= hi <= b@.len(),
    ensures
        r == parse_usize_spec(b@.subrange(lo as int, hi as int)),
{
    let max = usize::MAX as u64;
    let r = parse_unsigned_range(b, lo, hi, max);
    match r {
        Some(v) => Some(v as usize),
        None => None,
    }
}

/// `u64::from_str` on `b[lo..hi]`.
pub fn parse_u64_range(b: &[u8], lo: usize, hi: usize) -> (r: Option<u64>)
    requires
        lo <= hi <= b@.len(),
    ensures
        r == parse_u64_spec(b@.subrange(lo as int, hi as int)),
{
    parse_unsigned_range(b, lo, hi, u64::MAX)
}

/// The value of a hexadecimal digit.
pub open spec fn hex_value(c: u8) -> Option<u8> {
    if 48 <= c <= 57 {
        Some((c - 48) as u8)
    } else if 65 <= c <= 70 {
        Some((c - 55) as u8)
    } else if 97 <= c <= 102 {
        Some((c - 87) as u8)
    } else {
        None
    }
}

pub fn hex_value_of(c: u8) -> (r: Option<u8>)
    ensures
        r == hex_value(c),
{
    if 48 <= c && c <= 57 {
        Some(c - 48)
    } else if 65 <= c && c <= 70 {
        Some(c - 55)
    } else if 97 <= c && c <= 102 {
        Some(c - 87)
    } else {
        None
    }
}


// ------------------------------------------------------------------
// Tokens separated by white space
// ------------------------------------------------------------------
/// Index of the first white-space start in `t` at or after `i` (or `t.len()`).
pub open spec fn token_end(t: Seq<u8>, i: int) -> int
    decreases t.len() - i,
{
    if i < 0 || i >= t.len() || ws_len(t, i) > 0 {
        if i < 0 {
            0
        } else if i > t.len() {
            t.len() as int
        } else {
            i
        }
    } else {
        token_end(t, i + 1)
    }
}

pub proof fn lemma_token_end(t: Seq<u8>, i: int)
    requires
        0 <= i <= t.len(),
    ensures
        i <= token_end(t, i) <= t.len(),
        token_end(t, i) < t.len() ==> ws_len(t, token_end(t, i)) > 0,
        forall|j: int| i <= j < token_end(t, i) ==> ws_len(t, j) == 0,
    decreases t.len() - i,
{
    if i < t.len() && ws_len(t, i) == 0 {
        lemma_token_end(t, i + 1);
    }
}

pub proof fn lemma_trim_start_len(b: Seq<u8>)
    ensures
        trim_start(b).len() <= b.len(),
        trim_start(b).len() > 0 ==> ws_len(trim_start(b), 0) == 0,
    decreases b.len(),
{
    if b.len() > 0 && ws_len(b, 0) > 0 {
        lemma_trim_start_len(b.subrange(ws_len(b, 0), b.len() as int));
    }
}

/// `str::split_whitespace`: the maximal runs of non-white-space.
pub open spec fn ws_tokens(b: Seq<u8>) -> Seq<Seq<u8>>
    decreases b.len(),
{
    let t = trim_start(b);
    if t.len() == 0 {
        seq![]
    } else {
        let k = token_end(t, 0);
        if 0 < k <= t.len() && t.len() <= b.len() {
            seq![t.subrange(0, k)] + ws_tokens(t.subrange(k, t.len() as int))
        } else {
            seq![t]
        }
    }
}

pub proof fn lemma_ws_tokens_unfold(b: Seq<u8>)
    ensures
        trim_start(b).len() == 0 ==> ws_tokens(b) == Seq::<Seq<u8>>::empty(),
        trim_start(b).len() > 0 ==> {
            let t = trim_start(b);
            let k = token_end(t, 0);
            &&& 0 < k <= t.len()
            &&& ws_tokens(b) == seq![t.subrange(0, k)] + ws_tokens(t.subrange(k, t.len() as int))
        },
{
    lemma_trim_start_len(b);
    let t = trim_start(b);
    if t.len() > 0 {
        lemma_token_end(t, 0);
        assert(ws_len(t, 0) == 0);
        lemma_token_end(t, 1);
        assert(token_end(t, 0) == token_end(t, 1));
    }
}

/// Up to the first three white-space separated tokens of `b[lo..hi]`, as
/// absolute ranges.
pub fn first_tokens(b: &[u8], lo: usize, hi: usize) -> (r: Vec<(usize, usize)>)
    requires
        lo <= hi <= b@.len(),
    ensures
        r@.len() <= 3,
        r@.len() == 3 || r@.len() == ws_tokens(b@.subrange(lo as int, hi as int)).len(),
        r@.len() <= ws_tokens(b@.subrange(lo as int, hi as int)).len(),
        forall|j: int|
            0 <= j < r@.len() ==> b@.subrange((#[trigger] r@[j]).0 as int, r@[j].1 as int)
                == ws_tokens(b@.subrange(lo as int, hi as int))[j],
        ranges_within(b@, r@, lo as int, hi as int),
{
    let ghost w = b@.subrange(lo as int, hi as int);
    let mut r: Vec<(usize, usize)> = Vec::new();
    let mut pos = lo;
    while r.len() < 3
        invariant
            lo <= pos <= hi <= b@.len(),
            w == b@.subrange(lo as int, hi as int),
            r@.len() <= 3,
            range_views(b@, r@) + ws_tokens(b@.subrange(pos as int, hi as int)) == ws_tokens(w),
            ranges_within(b@, r@, lo as int, hi as int),
            valid_utf8(b@) && is_boundary(b@, lo as int) && is_boundary(b@, hi as int)
                ==> is_boundary(b@, pos as int),
        decreases 3 - r@.len(),
    {
        let ghost cur = b@.subrange(pos as int, hi as int);
        let ts = trim_start_pos(b, pos, hi);
        proof {
            lemma_ws_tokens_unfold(cur);
        }
        if ts == hi {
            proof {
                assert(ws_tokens(cur) == Seq::<Seq<u8>>::empty());
                assert(range_views(b@, r@) + ws_tokens(cur) =~= range_views(b@, r@));
            }
            return r;
        }
        let mut k = ts;
        let ghost t = b@.subrange(ts as int, hi as int);
        proof {
            assert(trim_start(cur) == t);
            lemma_token_end(t, 0);
        }
        while k < hi
            invariant
                ts <= k <= hi <= b@.len(),
                t == b@.subrange(ts as int, hi as int),
                forall|j: int| 0 <= j < k - ts ==> ws_len(t, j) == 0,
            ensures
                ts <= k <= hi,
                forall|j: int| 0 <= j < k - ts ==> ws_len(t, j) == 0,
                k < hi ==> ws_len(t, k - ts) > 0,
            decreases hi - k,
        {
            let l = ws_len_at(b, k, hi);
            proof {
                assert(b@.subrange(k as int, hi as int) =~= t.subrange(k - ts, t.len() as int));
                lemma_ws_len_shift(t, k - ts);
            }
            if l > 0 {
                break;
            }
            k = k + 1;
        }
        proof {
            lemma_token_end_is(t, (k - ts) as int);
            assert(token_end(t, 0) == k - ts);
            assert(t.subrange(0, k - ts) =~= b@.subrange(ts as int, k as int));
            assert(t.subrange(k - ts, t.len() as int) =~= b@.subrange(k as int, hi as int));
            if valid_utf8(b@) && is_boundary(b@, lo as int) && is_boundary(b@, hi as int) {
                if k < hi {
                    assert(ws_len(b@, k as int) > 0);
                    assert(!is_continuation_byte(b@[k as int]));
                }
            }
        }
        r.push((ts, k));
        proof {
            assert(range_views(b@, r@) =~= range_views(b@, r@.drop_last()) + seq![
                b@.subrange(ts as int, k as int),
            ]);
        }
        pos = k;
    }
    proof {
        let rest = ws_tokens(b@.subrange(pos as int, hi as int));
        assert forall|j: int| 0 <= j < r@.len() implies b@.subrange(
            (#[trigger] r@[j]).0 as int,
            r@[j].1 as int,
        ) == ws_tokens(w)[j] by {
            assert(range_views(b@, r@)[j] == (range_views(b@, r@) + rest)[j]);
        }
    }
    r
}

proof fn lemma_ws_len_shift(t: Seq<u8>, i: int)
    requires
        0 <= i <= t.len(),
    ensures
        ws_len(t.subrange(i, t.len() as int), 0) == ws_len(t, i),
{
    let s = t.subrange(i, t.len() as int);
    if i < t.len() {
        assert(s[0] == t[i]);
        if i + 1 < t.len() {
            assert(s[1] == t[i + 1]);
        }
        if i + 2 < t.len() {
            assert(s[2] == t[i + 2]);
        }
    }
}

proof fn lemma_token_end_is(t: Seq<u8>, k: int)
    requires
        0 <= k <= t.len(),
        forall|j: int| 0 <= j < k ==> ws_len(t, j) == 0,
        k < t.len() ==> ws_len(t, k) > 0,
    ensures
        token_end(t, 0) == k,
{
    lemma_token_end_from(t, 0, k);
}

proof fn lemma_token_end_from(t: Seq<u8>, i: int, k: int)
    requires
        0 <= i <= k <= t.len(),
        forall|j: int| i <= j < k ==> ws_len(t, j) == 0,
        k < t.len() ==> ws_len(t, k) > 0,
    ensures
        token_end(t, i) == k,
    decreases k - i,
{
    if i < k {
        lemma_token_end_from(t, i + 1, k);
    }
}

/// Position where `trim_start` cuts `b[lo..hi]`.
pub fn trim_start_pos(b: &[u8], lo: usize, hi: usize) -> (s: usize)
    requires
        lo <= hi <= b@.len(),
    ensures
        lo <= s <= hi,
        b@.subrange(s as int, hi as int) == trim_start(b@.subrange(lo as int, hi as int)),
        valid_utf8(b@) && is_boundary(b@, lo as int) && is_boundary(b@, hi as int) ==> is_boundary(
            b@,
            s as int,
        ),
{
    let ghost w = b@.subrange(lo as int, hi as int);
    let mut s = lo;
    loop
        invariant
            lo <= s <= hi <= b@.len(),
            trim_start(w) == trim_start(b@.subrange(s as int, hi as int)),
            valid_utf8(b@) && is_boundary(b@, lo as int) && is_boundary(b@, hi as int)
                ==> is_boundary(b@, s as int),
        ensures
            lo <= s <= hi,
            trim_start(w) == b@.subrange(s as int, hi as int),
            valid_utf8(b@) && is_boundary(b@, lo as int) && is_boundary(b@, hi as int)
                ==> is_boundary(b@, s as int),
        decreases hi - s,
    {
        let k = ws_len_at(b, s, hi);
        if k == 0 {
            break;
        }
        proof {
            let cur = b@.subrange(s as int, hi as int);
            assert(trim_start(cur) == trim_start(cur.subrange(k as int, cur.len() as int)));
            assert(cur.subrange(k as int, cur.len() as int) =~= b@.subrange(s + k, hi as int));
            if valid_utf8(b@) && is_boundary(b@, lo as int) && is_boundary(b@, hi as int) {
                assert(ws_len(b@, s as int) == k);
                lemma_ws_step_boundary(b@, s as int);
            }
        }
        s = s + k;
    }
    s
}


// ------------------------------------------------------------------
// Stripping a repeated ASCII character (`str::trim_matches(c)`)
// ------------------------------------------------------------------
pub open spec fn strip_start(b: Seq<u8>, c: u8) -> Seq<u8>
    decreases b.len(),
{
    if b.len() > 0 && b[0] == c {
        strip_start(b.subrange(1, b.len() as int), c)
    } else {
        b
    }
}

pub open spec fn strip_end(b: Seq<u8>, c: u8) -> Seq<u8>
    decreases b.len(),
{
    if b.len() > 0 && b[b.len() - 1] == c {
        strip_end(b.subrange(0, b.len() - 1), c)
    } else {
        b
    }
}

/// `str::trim_matches(c)`.
pub open spec fn strip_matches(b: Seq<u8>, c: u8) -> Seq<u8> {
    strip_end(strip_start(b, c), c)
}

/// The piece before the first `c` (`split(c).next()`).
pub open spec fn first_piece(b: Seq<u8>, c: u8) -> Seq<u8> {
    match find_byte(b, c) {
        Some(k) => b.subrange(0, k),
        None => b,
    }
}

/// Where `trim_matches(c)` cuts `b[lo..hi]`, for an ASCII `c`.
pub fn strip_bounds(b: &[u8], lo: usize, hi: usize, c: u8) -> (r: (usize, usize))
    requires
        lo <= hi <= b@.len(),
        c < 128,
    ensures
        lo <= r.0 <= r.1 <= hi,
        b@.subrange(r.0 as int, r.1 as int) == strip_matches(b@.subrange(lo as int, hi as int), c),
        valid_utf8(b@) && is_boundary(b@, lo as int) && is_boundary(b@, hi as int) ==> is_boundary(
            b@,
            r.0 as int,
        ) && is_boundary(b@, r.1 as int),
{
    let ghost w = b@.subrange(lo as int, hi as int);
    let mut s = lo;
    while s < hi && b[s] == c
        invariant
            lo <= s <= hi <= b@.len(),
            c < 128,
            strip_start(w, c) == strip_start(b@.subrange(s as int, hi as int), c),
            valid_utf8(b@) && is_boundary(b@, lo as int) && is_boundary(b@, hi as int)
                ==> is_boundary(b@, s as int),
        decreases hi - s,
    {
        proof {
            let cur = b@.subrange(s as int, hi as int);
            assert(cur[0] == c);
            assert(cur.subrange(1, cur.len() as int) =~= b@.subrange(s + 1, hi as int));
            if valid_utf8(b@) && is_boundary(b@, lo as int) && is_boundary(b@, hi as int) {
                lemma_ascii_boundaries(b@, s as int);
            }
        }
        s = s + 1;
    }
    proof {
        let cur = b@.subrange(s as int, hi as int);
        if s < hi {
            assert(cur[0] == b@[s as int]);
        }
        assert(strip_start(cur, c) == cur);
    }
    let ghost ts = b@.subrange(s as int, hi as int);
    let mut e = hi;
    while e > s && b[e - 1] == c
        invariant
            s <= e <= hi <= b@.len(),
            c < 128,
            ts == b@.subrange(s as int, hi as int),
            strip_end(ts, c) == strip_end(b@.subrange(s as int, e as int), c),
            valid_utf8(b@) && is_boundary(b@, s as int) && is_boundary(b@, hi as int)
                ==> is_boundary(b@, e as int),
        decreases e - s,
    {
        proof {
            let cur = b@.subrange(s as int, e as int);
            assert(cur[cur.len() - 1] == c);
            assert(cur.subrange(0, cur.len() - 1) =~= b@.subrange(s as int, e - 1));
            if valid_utf8(b@) && is_boundary(b@, s as int) && is_boundary(b@, hi as int) {
                lemma_ascii_boundaries(b@, e - 1);
            }
        }
        e = e - 1;
    }
    proof {
        let cur = b@.subrange(s as int, e as int);
        if e > s {
            assert(cur[cur.len() - 1] == b@[e - 1]);
        }
        assert(strip_end(cur, c) == cur);
    }
    (s, e)
}

/// End of the piece of `b[lo..hi]` before the first `c` (absolute).
pub fn first_piece_end(b: &[u8], lo: usize, hi: usize, c: u8) -> (e: usize)
    requires
        lo <= hi <= b@.len(),
        c < 128,
    ensures
        lo <= e <= hi,
        b@.subrange(lo as int, e as int) == first_piece(b@.subrange(lo as int, hi as int), c),
        valid_utf8(b@) && is_boundary(b@, lo as int) && is_boundary(b@, hi as int) ==> is_boundary(
            b@,
            e as int,
        ),
{
    let ghost w = b@.subrange(lo as int, hi as int);
    match find_byte_in(b, c, lo, hi) {
        Some(k) => {
            proof {
                lemma_find_byte_from(w, c, 0);
                assert(w.subrange(0, k - lo) =~= b@.subrange(lo as int, k as int));
                if valid_utf8(b@) && is_boundary(b@, lo as int) && is_boundary(b@, hi as int) {
                    lemma_ascii_boundaries(b@, k as int);
                }
            }
            k
        },
        None => {
            proof {
                assert(w =~= b@.subrange(lo as int, hi as int));
            }
            hi
        },
    }
}


/// What `str::parse` of a signed integer yields before the range check: an
/// optional `+` or `-`, then one or more decimal digits.
pub open spec fn signed_literal(b: Seq<u8>) -> Option<int> {
    if b.len() > 0 && b[0] == 45 {
        let d = b.subrange(1, b.len() as int);
        if d.len() == 0 || !all_digits(d) {
            None
        } else {
            Some(-(digits_value(d) as int))
        }
    } else {
        match unsigned_literal(b) {
            Some(v) => Some(v as int),
            None => None,
        }
    }
}

/// `i64::from_str`.
pub open spec fn parse_i64_spec(b: Seq<u8>) -> Option<i64> {
    match signed_literal(b) {
        Some(v) => if i64::MIN <= v <= i64::MAX {
            Some(v as i64)
        } else {
            None
        },
        None => None,
    }
}

/// `i64::from_str` on `b[lo..hi]`.
pub fn parse_i64_range(b: &[u8], lo: usize, hi: usize) -> (r: Option<i64>)
    requires
        lo <= hi <= b@.len(),
    ensures
        r == parse_i64_spec(b@.subrange(lo as int, hi as int)),
{
    let ghost w = b@.subrange(lo as int, hi as int);
    if lo < hi && b[lo] == 45 {
        if hi - lo > 1 && b[lo + 1] == 43 {
            proof {
                let d = b@.subrange(lo + 1, hi as int);
                assert(w.subrange(1, w.len() as int) =~= d);
                assert(d[0] == 43);
                assert(!is_digit(d[0]));
            }
            return None;
        }
        let m = parse_unsigned_range(b, lo + 1, hi, 9223372036854775808u64);
        proof {
            let d = b@.subrange(lo + 1, hi as int);
            assert(w.subrange(1, w.len() as int) =~= d);
            assert(w[0] == 45);
            if d.len() > 0 && d[0] == 43 {
                assert(!all_digits(d));
            }
            assert(!(d.len() > 0 && d[0] == 43));
        }
        match m {
            Some(v) => {
                if v == 9223372036854775808u64 {
                    Some(i64::MIN)
                } else {
                    Some(-(v as i64))
                }
            },
            None => None,
        }
    } else {
        let m = parse_unsigned_range(b, lo, hi, 9223372036854775807u64);
        match m {
            Some(v) => Some(v as i64),
            None => None,
        }
    }
}

/// `bool::from_str`: exactly `true` or `false`.
pub open spec fn parse_bool_spec(b: Seq<u8>) -> Option<bool> {
    if b == seq!['t' as u8, 'r' as u8, 'u' as u8, 'e' as u8] {
        Some(true)
    } else if b == seq!['f' as u8, 'a' as u8, 'l' as u8, 's' as u8, 'e' as u8] {
        Some(false)
    } else {
        None
    }
}

/// `bool::from_str` on bytes.
pub fn parse_bool_bytes(b: &[u8]) -> (r: Option<bool>)
    ensures
        r == parse_bool_spec(b@),
{
    let t: [u8; 4] = ['t' as u8, 'r' as u8, 'u' as u8, 'e' as u8];
    let f: [u8; 5] = ['f' as u8, 'a' as u8, 'l' as u8, 's' as u8, 'e' as u8];
    let ts: &[u8] = &t;
    let fs: &[u8] = &f;
    assert(ts@ == seq!['t' as u8, 'r' as u8, 'u' as u8, 'e' as u8]);
    assert(fs@ == seq!['f' as u8, 'a' as u8, 'l' as u8, 's' as u8, 'e' as u8]);
    if crate::multimap::bytes_equal(b, ts) {
        Some(true)
    } else if crate::multimap::bytes_equal(b, fs) {
        Some(false)
    } else {
        None
    }
}


// ------------------------------------------------------------------
// Joining
// ------------------------------------------------------------------
/// `segments.join(sep)`.
pub open spec fn join(segs: Seq<Seq<u8>>, sep: Seq<u8>) -> Seq<u8>
    decreases segs.len(),
{
    if segs.len() == 0 {
        seq![]
    } else if segs.len() == 1 {
        segs[0]
    } else {
        join(segs.drop_last(), sep) + sep + segs.last()
    }
}

/// `str::replace(c, with)`: the pieces between occurrences of `c`, joined by `with`.
pub open spec fn replace_byte(b: Seq<u8>, c: u8, with: Seq<u8>) -> Seq<u8> {
    join(split_on(b, c), with)
}

/// Appends the ranges of `b`, joined by `sep`, to `out`.
pub fn append_joined(out: &mut Vec<u8>, b: &[u8], ranges: &Vec<(usize, usize)>, sep: &[u8], lo: usize, hi: usize)
    requires
        lo <= hi <= b@.len(),
        ranges_within(b@, ranges@, lo as int, hi as int),
    ensures
        final(out)@ == old(out)@ + join(range_views(b@, ranges@), sep@),
        valid_utf8(old(out)@) && valid_utf8(b@) && valid_utf8(sep@) && is_boundary(b@, lo as int)
            && is_boundary(b@, hi as int) ==> valid_utf8(final(out)@),
{
    let ghost start = out@;
    let ghost sv = range_views(b@, ranges@);
    let ghost ok = valid_utf8(start) && valid_utf8(b@) && valid_utf8(sep@) && is_boundary(
        b@,
        lo as int,
    ) && is_boundary(b@, hi as int);
    let mut k: usize = 0;
    proof {
        assert(sv.take(0).len() == 0);
        assert(start + join(sv.take(0), sep@) =~= start);
    }
    while k < ranges.len()
        invariant
            k <= ranges@.len(),
            lo <= hi <= b@.len(),
            sv == range_views(b@, ranges@),
            ranges_within(b@, ranges@, lo as int, hi as int),
            ok == (valid_utf8(start) && valid_utf8(b@) && valid_utf8(sep@) && is_boundary(
                b@,
                lo as int,
            ) && is_boundary(b@, hi as int)),
            out@ == start + join(sv.take(k as int), sep@),
            ok ==> valid_utf8(out@),
        decreases ranges@.len() - k,
    {
        let (plo, phi) = ranges[k];
        let ghost before = out@;
        if k > 0 {
            crate::text::append_range(out, sep, 0, sep.len());
            proof {
                assert(sep@.subrange(0, sep@.len() as int) =~= sep@);
                if ok {
                    crate::text::lemma_valid_concat(before, sep@);
                }
            }
        }
        let ghost mid = out@;
        crate::text::append_range(out, b, plo, phi);
        proof {
            if ok {
                crate::text::lemma_valid_subrange(b@, plo as int, phi as int);
                crate::text::lemma_valid_concat(mid, b@.subrange(plo as int, phi as int));
            }
            assert(sv[k as int] == b@.subrange(plo as int, phi as int));
            let t = sv.take(k + 1);
            assert(t.drop_last() =~= sv.take(k as int));
            if k == 0 {
                assert(join(t, sep@) == t[0]);
                assert(out@ =~= start + join(t, sep@));
            } else {
                assert(out@ =~= start + join(t, sep@));
            }
        }
        k = k + 1;
    }
    assert(sv.take(ranges@.len() as int) =~= sv);
}


/// Both sides of an ASCII byte of a valid encoding are character boundaries.
pub proof fn lemma_ascii_boundaries_pub(b: Seq<u8>, i: int)
    requires
        valid_utf8(b),
        0 <= i < b.len(),
        b[i] < 128,
    ensures
        is_boundary(b, i),
        is_boundary(b, i + 1),
{
    lemma_ascii_boundaries(b, i);
}

} // verus!

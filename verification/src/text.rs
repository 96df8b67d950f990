//! Byte-level text primitives shared by the HTTP parser and the admin helpers.
//!
//! Strings are modelled by their UTF-8 encoding: a `String` `s` stands for the
//! bytes `encode_utf8(s@)`.  Parsing works on byte slices and hands back owned
//! `String`s only once the bytes are known to be valid UTF-8.
use vstd::prelude::*;
use vstd::utf8::*;

verus! {

broadcast use vstd::utf8::encode_utf8_valid_utf8, vstd::utf8::encode_utf8_decode_utf8,
    vstd::utf8::decode_utf8_encode_utf8;

/// The UTF-8 bytes of a character sequence.
pub open spec fn sbytes(s: Seq<char>) -> Seq<u8> {
    encode_utf8(s)
}

/// `i` is a character boundary of `b`.
pub open spec fn is_boundary(b: Seq<u8>, i: int) -> bool {
    ||| i == 0
    ||| i == b.len()
    ||| (0 < i < b.len() && !is_continuation_byte(b[i]))
}

/// Every byte is ASCII.
pub open spec fn all_ascii(b: Seq<u8>) -> bool {
    forall|i: int| 0 <= i < b.len() ==> #[trigger] b[i] < 128
}

// ------------------------------------------------------------------
// UTF-8 lemmas
// ------------------------------------------------------------------
/// Different strings have different encodings.
pub proof fn lemma_sbytes_injective(a: Seq<char>, b: Seq<char>)
    ensures
        (sbytes(a) == sbytes(b)) == (a == b),
{
    vstd::utf8::encode_utf8_decode_utf8(a);
    vstd::utf8::encode_utf8_decode_utf8(b);
}

/// A valid encoding splits into two valid encodings at a character boundary.
pub proof fn lemma_valid_split(b: Seq<u8>, i: int)
    requires
        valid_utf8(b),
        0 <= i <= b.len(),
        is_boundary(b, i),
    ensures
        valid_utf8(b.subrange(0, i)),
        valid_utf8(b.subrange(i, b.len() as int)),
    decreases b.len(),
{
    if i == 0 {
        assert(b.subrange(0, 0).len() == 0);
        assert(b.subrange(0, b.len() as int) =~= b);
    } else if i == b.len() {
        assert(b.subrange(0, i) =~= b);
        assert(b.subrange(i, b.len() as int).len() == 0);
    } else {
        let k = length_of_first_scalar(b);
        assert(1 <= k <= 4);
        assert(k <= i) by {
            if k > i {
                assert(is_continuation_byte(b[i]));
            }
        }
        let rest = pop_first_scalar(b);
        assert(rest =~= b.subrange(k, b.len() as int));
        assert(is_boundary(rest, i - k)) by {
            if i - k > 0 && i - k < rest.len() {
                assert(rest[i - k] == b[i]);
            }
        }
        lemma_valid_split(rest, i - k);
        let pre = b.subrange(0, i);
        assert(pre.len() == i);
        assert(forall|j: int| 0 <= j < k ==> pre[j] == b[j]);
        assert(valid_first_scalar(pre));
        assert(length_of_first_scalar(pre) == k);
        assert(pop_first_scalar(pre) =~= rest.subrange(0, i - k));
        assert(b.subrange(i, b.len() as int) =~= rest.subrange(i - k, rest.len() as int));
    }
}

/// The first byte of a non-empty valid encoding is not a continuation byte.
pub proof fn lemma_valid_head(b: Seq<u8>)
    requires
        valid_utf8(b),
        b.len() > 0,
    ensures
        !is_continuation_byte(b[0]),
{
}

/// Both sides of an ASCII byte are character boundaries.
pub proof fn lemma_ascii_boundaries(b: Seq<u8>, i: int)
    requires
        valid_utf8(b),
        0 <= i < b.len(),
        b[i] < 128,
    ensures
        is_boundary(b, i),
        is_boundary(b, i + 1),
{
    assert(is_boundary(b, i));
    if i + 1 < b.len() {
        lemma_valid_split(b, i);
        let suf = b.subrange(i, b.len() as int);
        assert(suf[0] == b[i]);
        assert(length_of_first_scalar(suf) == 1);
        let rest = pop_first_scalar(suf);
        assert(rest.len() > 0);
        lemma_valid_head(rest);
        assert(rest[0] == b[i + 1]);
    }
}

/// A range between two character boundaries of a valid encoding is valid.
pub proof fn lemma_valid_subrange(b: Seq<u8>, i: int, j: int)
    requires
        valid_utf8(b),
        0 <= i <= j <= b.len(),
        is_boundary(b, i),
        is_boundary(b, j),
    ensures
        valid_utf8(b.subrange(i, j)),
{
    lemma_valid_split(b, i);
    let suf = b.subrange(i, b.len() as int);
    assert(is_boundary(suf, j - i)) by {
        if 0 < j - i < suf.len() {
            assert(suf[j - i] == b[j]);
        }
    }
    lemma_valid_split(suf, j - i);
    assert(suf.subrange(0, j - i) =~= b.subrange(i, j));
}

/// ASCII bytes form a valid encoding.
pub proof fn lemma_ascii_valid(b: Seq<u8>)
    requires
        all_ascii(b),
    ensures
        valid_utf8(b),
    decreases b.len(),
{
    if b.len() > 0 {
        assert(b[0] < 128);
        let rest = pop_first_scalar(b);
        assert(rest =~= b.subrange(1, b.len() as int));
        assert(all_ascii(rest)) by {
            assert forall|j: int| 0 <= j < rest.len() implies #[trigger] rest[j] < 128 by {
                assert(rest[j] == b[j + 1]);
            }
        }
        lemma_ascii_valid(rest);
    }
}

/// Concatenation keeps validity.
pub proof fn lemma_valid_concat(a: Seq<u8>, b: Seq<u8>)
    requires
        valid_utf8(a),
        valid_utf8(b),
    ensures
        valid_utf8(a + b),
{
    vstd::utf8::valid_utf8_concat(a, b);
}

// ------------------------------------------------------------------
// Conversions between bytes and strings
// ------------------------------------------------------------------
/// `String::from_utf8` from std: it succeeds exactly on valid UTF-8, and the
/// string it returns encodes to the given bytes.
#[verifier::external_body]
fn utf8_to_string(v: Vec<u8>) -> (r: Option<String>)
    ensures
        r is Some <==> valid_utf8(v@),
        r matches Some(s) ==> sbytes(s@) == v@,
{
    String::from_utf8(v).ok()
}

/// `std::str::from_utf8` from std, reduced to whether it succeeds: it does
/// exactly on valid UTF-8.
#[verifier::external_body]
pub fn is_valid_utf8(b: &[u8]) -> (r: bool)
    ensures
        r == valid_utf8(b@),
{
    std::str::from_utf8(b).is_ok()
}

/// Characters whose encoding is `b`, for valid `b`.
pub proof fn lemma_chars_of(x: Seq<char>, b: Seq<u8>)
    requires
        sbytes(x) == b,
    ensures
        x == decode_utf8(b),
{
    vstd::utf8::encode_utf8_decode_utf8(x);
}

/// What `str::to_lowercase` from std returns: the Unicode lower-case mapping
/// of each character.
pub uninterp spec fn unicode_lowercase(s: Seq<char>) -> Seq<char>;

/// `str::to_lowercase` from std (Unicode lower-case mapping, independent of
/// locale).  Only its name is stated; the mapping is Unicode's.
#[verifier::external_body]
pub fn to_lowercase(s: &str) -> (r: String)
    ensures
        r@ == unicode_lowercase(s@),
{
    s.to_lowercase()
}

/// `String::push` from std: appends the character.
#[verifier::external_body]
pub(crate) fn push_char(s: &mut String, c: char)
    ensures
        final(s)@ == old(s)@.push(c),
{
    s.push(c);
}

/// Decodes bytes as UTF-8, or `None` where they are not valid UTF-8.
pub fn string_from_utf8(v: Vec<u8>) -> (r: Option<String>)
    ensures
        r is Some <==> valid_utf8(v@),
        r matches Some(s) ==> sbytes(s@) == v@,
{
    utf8_to_string(v)
}

/// Builds the string whose encoding is the given valid UTF-8 bytes.
pub fn string_from_valid(v: Vec<u8>) -> (s: String)
    requires
        valid_utf8(v@),
    ensures
        sbytes(s@) == v@,
{
    match utf8_to_string(v) {
        Some(s) => s,
        None => String::new(),
    }
}

/// Builds the string for a sub-range of a valid buffer cut at character boundaries.
pub fn string_from_range(b: &[u8], lo: usize, hi: usize) -> (s: String)
    requires
        valid_utf8(b@),
        lo <= hi <= b@.len(),
        is_boundary(b@, lo as int),
        is_boundary(b@, hi as int),
    ensures
        sbytes(s@) == b@.subrange(lo as int, hi as int),
{
    proof {
        lemma_valid_subrange(b@, lo as int, hi as int);
    }
    let v = copy_range(b, lo, hi);
    string_from_valid(v)
}

/// The bytes of a string.
pub fn str_bytes(s: &str) -> (b: &[u8])
    ensures
        b@ == sbytes(s@),
{
    s.as_bytes()
}

/// The bytes of an owned string.
pub fn string_bytes(s: &String) -> (b: &[u8])
    ensures
        b@ == sbytes(s@),
{
    s.as_str().as_bytes()
}

/// A fresh owned copy of a string slice.
pub fn str_to_string(s: &str) -> (r: String)
    ensures
        r@ == s@,
{
    s.to_owned()
}

/// Copies `b[lo..hi]` into a vector.
pub fn copy_range(b: &[u8], lo: usize, hi: usize) -> (v: Vec<u8>)
    requires
        lo <= hi <= b@.len(),
    ensures
        v@ == b@.subrange(lo as int, hi as int),
{
    let mut v: Vec<u8> = Vec::new();
    let mut i = lo;
    while i < hi
        invariant
            lo <= i <= hi <= b@.len(),
            v@ == b@.subrange(lo as int, i as int),
        decreases hi - i,
    {
        v.push(b[i]);
        i = i + 1;
        assert(v@ =~= b@.subrange(lo as int, i as int));
    }
    v
}

/// Appends `b[lo..hi]` to `out`.
pub fn append_range(out: &mut Vec<u8>, b: &[u8], lo: usize, hi: usize)
    requires
        lo <= hi <= b@.len(),
    ensures
        final(out)@ == old(out)@ + b@.subrange(lo as int, hi as int),
{
    let ghost start = out@;
    let mut i = lo;
    while i < hi
        invariant
            lo <= i <= hi <= b@.len(),
            out@ == start + b@.subrange(lo as int, i as int),
        decreases hi - i,
    {
        out.push(b[i]);
        i = i + 1;
        assert(out@ =~= start + b@.subrange(lo as int, i as int));
    }
}

// ------------------------------------------------------------------
// Searching
// ------------------------------------------------------------------
/// Index of the first occurrence of `c` in `b` at or after `from`, if any.
pub open spec fn find_byte_from(b: Seq<u8>, c: u8, from: int) -> Option<int>
    decreases b.len() - from,
{
    if from < 0 || from >= b.len() {
        None
    } else if b[from] == c {
        Some(from)
    } else {
        find_byte_from(b, c, from + 1)
    }
}

/// Index of the first occurrence of `c` in `b`.
pub open spec fn find_byte(b: Seq<u8>, c: u8) -> Option<int> {
    find_byte_from(b, c, 0)
}

pub proof fn lemma_find_byte_from(b: Seq<u8>, c: u8, from: int)
    requires
        0 <= from,
    ensures
        find_byte_from(b, c, from) matches Some(k) ==> from <= k < b.len() && b[k] == c && (
        forall|j: int| from <= j < k ==> b[j] != c),
        find_byte_from(b, c, from) is None ==> forall|j: int| from <= j < b.len() ==> b[j] != c,
    decreases b.len() - from,
{
    if from < b.len() && b[from] != c {
        lemma_find_byte_from(b, c, from + 1);
    }
}

/// Finds the first `c` in `b[from..hi]`.
pub fn find_byte_in(b: &[u8], c: u8, from: usize, hi: usize) -> (r: Option<usize>)
    requires
        from <= hi <= b@.len(),
    ensures
        r == (match find_byte(b@.subrange(from as int, hi as int), c) {
            Some(k) => Some((k + from) as usize),
            None => None::<usize>,
        }),
        r matches Some(k) ==> from <= k < hi && b@[k as int] == c,
{
    let ghost s = b@.subrange(from as int, hi as int);
    let mut i = from;
    while i < hi
        invariant
            from <= i <= hi <= b@.len(),
            s == b@.subrange(from as int, hi as int),
            forall|j: int| from <= j < i ==> b@[j] != c,
        decreases hi - i,
    {
        if b[i] == c {
            proof {
                lemma_find_byte_from(s, c, 0);
                match find_byte(s, c) {
                    Some(k) => {
                        assert(s[(i - from) as int] == c);
                        assert(s[k] == b@[k + from]);
                    },
                    None => {
                        assert(s[(i - from) as int] == b@[i as int]);
                    },
                }
            }
            return Some(i);
        }
        i = i + 1;
    }
    proof {
        lemma_find_byte_from(s, c, 0);
        match find_byte(s, c) {
            Some(k) => {
                assert(s[k] == b@[k + from]);
            },
            None => {},
        }
    }
    None
}

/// `b` contains `c`.
pub open spec fn has_byte(b: Seq<u8>, c: u8) -> bool {
    exists|i: int| 0 <= i < b.len() && b[i] == c
}

/// `b[i..i + n.len()] == n`.
pub open spec fn matches_at(b: Seq<u8>, i: int, n: Seq<u8>) -> bool {
    0 <= i && i + n.len() <= b.len() && b.subrange(i, i + n.len()) == n
}

/// Index of the first occurrence of the non-empty `n` in `b` at or after `from`.
pub open spec fn find_seq_from(b: Seq<u8>, n: Seq<u8>, from: int) -> Option<int>
    decreases b.len() + 1 - from,
{
    if from < 0 || from + n.len() > b.len() {
        None
    } else if b.subrange(from, from + n.len()) == n {
        Some(from)
    } else {
        find_seq_from(b, n, from + 1)
    }
}

pub proof fn lemma_find_seq_from(b: Seq<u8>, n: Seq<u8>, from: int)
    requires
        0 <= from,
    ensures
        find_seq_from(b, n, from) matches Some(k) ==> from <= k && matches_at(b, k, n) && (forall|
            j: int,
        | from <= j < k ==> !matches_at(b, j, n)),
        find_seq_from(b, n, from) is None ==> forall|j: int|
            from <= j ==> !matches_at(b, j, n),
    decreases b.len() + 1 - from,
{
    if from + n.len() <= b.len() && b.subrange(from, from + n.len()) != n {
        lemma_find_seq_from(b, n, from + 1);
    }
}

/// Does `n` occur in `b` at `i`?
pub fn bytes_match_at(b: &[u8], i: usize, n: &[u8]) -> (r: bool)
    ensures
        r == matches_at(b@, i as int, n@),
{
    if i > b.len() || n.len() > b.len() - i {
        return false;
    }
    let mut j: usize = 0;
    while j < n.len()
        invariant
            i + n@.len() <= b@.len(),
            b@.len() == b.len(),
            j <= n@.len(),
            forall|t: int| 0 <= t < j ==> b@[i + t] == n@[t],
        decreases n@.len() - j,
    {
        let ij = i + j;
        if b[ij] != n[j] {
            assert(b@.subrange(i as int, i + n@.len())[j as int] != n@[j as int]);
            return false;
        }
        j = j + 1;
    }
    assert(b@.subrange(i as int, i + n@.len()) =~= n@);
    true
}

/// First occurrence of `n` in `b[from..hi]` (relative to `b`).
pub fn find_seq_in(b: &[u8], n: &[u8], from: usize, hi: usize) -> (r: Option<usize>)
    requires
        from <= hi <= b@.len(),
        n@.len() > 0,
    ensures
        r == (match find_seq_from(b@.subrange(0, hi as int), n@, from as int) {
            Some(k) => Some(k as usize),
            None => None::<usize>,
        }),
{
    let ghost s = b@.subrange(0, hi as int);
    let mut i = from;
    while i <= hi && n.len() <= hi - i
        invariant
            from <= i,
            n@.len() > 0,
            hi <= b@.len(),
            s == b@.subrange(0, hi as int),
            find_seq_from(s, n@, from as int) == find_seq_from(s, n@, i as int),
        decreases hi + 1 - i,
    {
        let m = bytes_match_at(b, i, n);
        proof {
            assert(matches_at(b@, i as int, n@) == (s.subrange(i as int, i + n@.len()) == n@)) by {
                assert(s.subrange(i as int, i + n@.len()) =~= b@.subrange(i as int, i + n@.len()));
            }
        }
        if m {
            return Some(i);
        }
        i = i + 1;
    }
    None
}

} // verus!

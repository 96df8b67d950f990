//! Names derived from other names: identifiers cleaned up for the database,
//! and `snake_case` turned into `PascalCase`.
use crate::lex::{trim, trim_bounds};
use crate::text::{push_char, sbytes, str_bytes, string_from_range, to_lowercase, unicode_lowercase};
use vstd::prelude::*;
use vstd::string::StrSliceExecFns;
use vstd::utf8::decode_utf8;

verus! {

broadcast use vstd::utf8::encode_utf8_valid_utf8, vstd::utf8::encode_utf8_decode_utf8;

/// What `char::to_uppercase` yields for a character, collected into a string.
pub uninterp spec fn unicode_uppercase(c: char) -> Seq<char>;

/// `char::to_uppercase` from std, collected into a `String`: the Unicode
/// upper-case mapping of the character (one to three characters).  Only its
/// name is stated.
#[verifier::external_body]
pub(crate) fn char_to_uppercase(c: char) -> (r: String)
    ensures
        r@ == unicode_uppercase(c),
{
    c.to_uppercase().collect::<String>()
}

/// What `char::is_uppercase` says of a character (the Unicode `Uppercase` property).
pub uninterp spec fn unicode_is_uppercase(c: char) -> bool;

/// `char::is_uppercase` from std: whether the character has the Unicode
/// `Uppercase` property.  Only its name is stated.
#[verifier::external_body]
pub(crate) fn char_is_uppercase(c: char) -> (r: bool)
    ensures
        r == unicode_is_uppercase(c),
{
    c.is_uppercase()
}

/// `PascalCase` built character by character: an underscore is dropped and
/// makes the next character start a word; the first character of each word
/// is upper-cased, the others are kept.  The flag says whether the next
/// character starts a word.
pub open spec fn pascal_fold(s: Seq<char>) -> (Seq<char>, bool)
    decreases s.len(),
{
    if s.len() == 0 {
        (seq![], true)
    } else {
        let (out, start) = pascal_fold(s.drop_last());
        let c = s.last();
        if c == '_' {
            (out, true)
        } else if start {
            (out + unicode_uppercase(c), false)
        } else {
            (out.push(c), false)
        }
    }
}

/// The words between underscores, each with its first character upper-cased, run together.
pub open spec fn pascal_case(s: Seq<char>) -> Seq<char> {
    pascal_fold(s).0
}

/// `snake_case` to `PascalCase`: the pieces between underscores, each with
/// its first character upper-cased, joined with nothing between them.
pub fn to_pascal_case(s: &str) -> (r: String)
    ensures
        r@ == pascal_case(s@),
{
    let n = s.unicode_len();
    let mut out = String::new();
    let mut start = true;
    let mut i: usize = 0;
    while i < n
        invariant
            n == s@.len(),
            i <= n,
            (out@, start) == pascal_fold(s@.take(i as int)),
        decreases n - i,
    {
        let c = s.get_char(i);
        proof {
            let t = s@.take(i + 1);
            assert(t.drop_last() =~= s@.take(i as int));
            assert(t.last() == c);
        }
        if c == '_' {
            start = true;
        } else if start {
            let up = char_to_uppercase(c);
            out.append(up.as_str());
            start = false;
        } else {
            push_char(&mut out, c);
            start = false;
        }
        i = i + 1;
    }
    assert(s@.take(n as int) =~= s@);
    out
}

/// A name as the database gets it: white space trimmed off both ends, then
/// lower-cased.
pub open spec fn clean_name(s: Seq<char>) -> Seq<char> {
    unicode_lowercase(decode_utf8(trim(sbytes(s))))
}

/// Trims white space off both ends of a name and lower-cases it.
pub fn clean_identifier(s: &str) -> (r: String)
    ensures
        r@ == clean_name(s@),
{
    let b = str_bytes(s);
    let (lo, hi) = trim_bounds(b, 0, b.len());
    assert(b@.subrange(0, b@.len() as int) =~= b@);
    let t = string_from_range(b, lo, hi);
    proof {
        crate::text::lemma_chars_of(t@, trim(b@));
    }
    to_lowercase(t.as_str())
}

} // verus!

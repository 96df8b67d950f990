//! The cleaning steps `#[derive(GritSanitizer)]` applies to a text field, in
//! the order its `#[clean(..)]` attribute lists them: trimming, HTML
//! escaping, lower- and upper-casing, and percent-decoding.  A `nested`
//! field cleans itself and keeps its own steps.
use crate::admin::auth::same_text;
use crate::lex::{trim, trim_bounds};
use crate::naming::{char_to_uppercase, unicode_uppercase};
use crate::security::{html_escape, url_decoded_or_raw, Sanitizer};
use crate::text::{push_char, sbytes, str_bytes, str_to_string, string_from_range, to_lowercase, unicode_lowercase};
use vstd::prelude::*;
use vstd::string::StrSliceExecFns;
use vstd::utf8::decode_utf8;

verus! {

broadcast use vstd::utf8::encode_utf8_valid_utf8, vstd::utf8::encode_utf8_decode_utf8;

/// One cleaning step of a field.
#[derive(PartialEq, Eq, Structural, Clone, Copy, Debug)]
pub enum CleanStep {
    Trim,
    HtmlEscape,
    Lowercase,
    Uppercase,
    UrlDecode,
    Nested,
}

/// The step a word of `#[clean(..)]` names, if any.
pub open spec fn step_of_word(w: Seq<char>) -> Option<CleanStep> {
    if w == "trim"@ {
        Some(CleanStep::Trim)
    } else if w == "html_escape"@ {
        Some(CleanStep::HtmlEscape)
    } else if w == "lowercase"@ {
        Some(CleanStep::Lowercase)
    } else if w == "uppercase"@ {
        Some(CleanStep::Uppercase)
    } else if w == "url_decode"@ {
        Some(CleanStep::UrlDecode)
    } else if w == "nested"@ {
        Some(CleanStep::Nested)
    } else {
        None
    }
}

/// The steps the words name, in order; words that name none are skipped.
pub open spec fn steps_of_words(ws: Seq<Seq<char>>) -> Seq<CleanStep>
    decreases ws.len(),
{
    if ws.len() == 0 {
        seq![]
    } else {
        match step_of_word(ws.last()) {
            Some(s) => steps_of_words(ws.drop_last()).push(s),
            None => steps_of_words(ws.drop_last()),
        }
    }
}

/// The step a word names (see `step_of_word`).
pub fn clean_step(word: &str) -> (r: Option<CleanStep>)
    ensures
        r == step_of_word(word@),
{
    if same_text(word, "trim") {
        Some(CleanStep::Trim)
    } else if same_text(word, "html_escape") {
        Some(CleanStep::HtmlEscape)
    } else if same_text(word, "lowercase") {
        Some(CleanStep::Lowercase)
    } else if same_text(word, "uppercase") {
        Some(CleanStep::Uppercase)
    } else if same_text(word, "url_decode") {
        Some(CleanStep::UrlDecode)
    } else if same_text(word, "nested") {
        Some(CleanStep::Nested)
    } else {
        None
    }
}

/// The steps the words of a `#[clean(..)]` attribute name (see `steps_of_words`).
pub fn clean_steps(words: &Vec<String>) -> (r: Vec<CleanStep>)
    ensures
        r@ == steps_of_words(words@.map_values(|s: String| s@)),
{
    let ghost wv = words@.map_values(|s: String| s@);
    let mut out: Vec<CleanStep> = Vec::new();
    let mut i: usize = 0;
    while i < words.len()
        invariant
            i <= words@.len(),
            wv == words@.map_values(|s: String| s@),
            out@ == steps_of_words(wv.take(i as int)),
        decreases words@.len() - i,
    {
        proof {
            assert(wv.take(i + 1).drop_last() =~= wv.take(i as int));
            assert(wv.take(i + 1).last() == words@[i as int]@);
        }
        match clean_step(words[i].as_str()) {
            Some(s) => out.push(s),
            None => {},
        }
        i = i + 1;
    }
    assert(wv.take(words@.len() as int) =~= wv);
    out
}

/// `str::to_uppercase`: every character upper-cased in turn.
pub open spec fn upper_all(s: Seq<char>) -> Seq<char>
    decreases s.len(),
{
    if s.len() == 0 {
        seq![]
    } else {
        upper_all(s.drop_last()) + unicode_uppercase(s.last())
    }
}

/// What one step makes of a text's bytes.
pub open spec fn apply_step(b: Seq<u8>, step: CleanStep) -> Seq<u8> {
    match step {
        CleanStep::Trim => trim(b),
        CleanStep::HtmlEscape => html_escape(b),
        CleanStep::Lowercase => sbytes(unicode_lowercase(decode_utf8(b))),
        CleanStep::Uppercase => sbytes(upper_all(decode_utf8(b))),
        CleanStep::UrlDecode => url_decoded_or_raw(b),
        CleanStep::Nested => b,
    }
}

/// What the steps make of a text's bytes, applied in order.
pub open spec fn apply_steps(b: Seq<u8>, steps: Seq<CleanStep>) -> Seq<u8>
    decreases steps.len(),
{
    if steps.len() == 0 {
        b
    } else {
        apply_step(apply_steps(b, steps.drop_last()), steps.last())
    }
}

/// Every character upper-cased in turn (see `upper_all`).
fn uppercase_text(s: &str) -> (r: String)
    ensures
        r@ == upper_all(s@),
{
    let n = s.unicode_len();
    let mut out = String::new();
    let mut i: usize = 0;
    while i < n
        invariant
            n == s@.len(),
            i <= n,
            out@ == upper_all(s@.take(i as int)),
        decreases n - i,
    {
        let up = char_to_uppercase(s.get_char(i));
        proof {
            assert(s@.take(i + 1).drop_last() =~= s@.take(i as int));
        }
        out.append(up.as_str());
        i = i + 1;
    }
    assert(s@.take(n as int) =~= s@);
    out
}

/// One step applied to a text (see `apply_step`).
fn clean_once(s: &str, step: CleanStep) -> (r: String)
    ensures
        sbytes(r@) == apply_step(sbytes(s@), step),
{
    match step {
        CleanStep::Trim => {
            let b = str_bytes(s);
            let (lo, hi) = trim_bounds(b, 0, b.len());
            assert(b@.subrange(0, b@.len() as int) =~= b@);
            string_from_range(b, lo, hi)
        },
        CleanStep::HtmlEscape => Sanitizer::encode(s).into_string(),
        CleanStep::Lowercase => to_lowercase(s),
        CleanStep::Uppercase => uppercase_text(s),
        CleanStep::UrlDecode => Sanitizer::url_decode(s),
        CleanStep::Nested => str_to_string(s),
    }
}

/// A text field's value after its cleaning steps, applied in order (see `apply_steps`).
pub fn clean_text(value: &str, steps: &Vec<CleanStep>) -> (r: String)
    ensures
        sbytes(r@) == apply_steps(sbytes(value@), steps@),
{
    let mut cur = str_to_string(value);
    let mut k: usize = 0;
    assert(steps@.take(0) =~= Seq::<CleanStep>::empty());
    while k < steps.len()
        invariant
            k <= steps@.len(),
            sbytes(cur@) == apply_steps(sbytes(value@), steps@.take(k as int)),
        decreases steps@.len() - k,
    {
        proof {
            assert(steps@.take(k + 1).drop_last() =~= steps@.take(k as int));
            assert(steps@.take(k + 1).last() == steps@[k as int]);
        }
        cur = clean_once(cur.as_str(), steps[k]);
        k = k + 1;
    }
    assert(steps@.take(steps@.len() as int) =~= steps@);
    cur
}

} // verus!

//! Byte strings the parsers look for.
use vstd::prelude::*;

verus! {

/// `application/x-www-form-urlencoded`
pub open spec fn urlencoded_type() -> Seq<u8> {
    seq!['a' as u8, 'p' as u8, 'p' as u8, 'l' as u8, 'i' as u8, 'c' as u8, 'a' as u8, 't' as u8, 'i' as u8, 'o' as u8, 'n' as u8, '/' as u8, 'x' as u8, '-' as u8, 'w' as u8, 'w' as u8, 'w' as u8, '-' as u8, 'f' as u8, 'o' as u8, 'r' as u8, 'm' as u8, '-' as u8, 'u' as u8, 'r' as u8, 'l' as u8, 'e' as u8, 'n' as u8, 'c' as u8, 'o' as u8, 'd' as u8, 'e' as u8, 'd' as u8]
}

/// `application/x-www-form-urlencoded`, as a vector.
pub fn urlencoded_type_bytes() -> (v: Vec<u8>)
    ensures
        v@ == urlencoded_type(),
{
    let v: Vec<u8> = vec!['a' as u8, 'p' as u8, 'p' as u8, 'l' as u8, 'i' as u8, 'c' as u8, 'a' as u8, 't' as u8, 'i' as u8, 'o' as u8, 'n' as u8, '/' as u8, 'x' as u8, '-' as u8, 'w' as u8, 'w' as u8, 'w' as u8, '-' as u8, 'f' as u8, 'o' as u8, 'r' as u8, 'm' as u8, '-' as u8, 'u' as u8, 'r' as u8, 'l' as u8, 'e' as u8, 'n' as u8, 'c' as u8, 'o' as u8, 'd' as u8, 'e' as u8, 'd' as u8];
    assert(v@ =~= urlencoded_type());
    v
}

/// `multipart/form-data`
pub open spec fn multipart_type() -> Seq<u8> {
    seq!['m' as u8, 'u' as u8, 'l' as u8, 't' as u8, 'i' as u8, 'p' as u8, 'a' as u8, 'r' as u8, 't' as u8, '/' as u8, 'f' as u8, 'o' as u8, 'r' as u8, 'm' as u8, '-' as u8, 'd' as u8, 'a' as u8, 't' as u8, 'a' as u8]
}

/// `multipart/form-data`, as a vector.
pub fn multipart_type_bytes() -> (v: Vec<u8>)
    ensures
        v@ == multipart_type(),
{
    let v: Vec<u8> = vec!['m' as u8, 'u' as u8, 'l' as u8, 't' as u8, 'i' as u8, 'p' as u8, 'a' as u8, 'r' as u8, 't' as u8, '/' as u8, 'f' as u8, 'o' as u8, 'r' as u8, 'm' as u8, '-' as u8, 'd' as u8, 'a' as u8, 't' as u8, 'a' as u8];
    assert(v@ =~= multipart_type());
    v
}

/// `boundary=`
pub open spec fn boundary_key() -> Seq<u8> {
    seq!['b' as u8, 'o' as u8, 'u' as u8, 'n' as u8, 'd' as u8, 'a' as u8, 'r' as u8, 'y' as u8, '=' as u8]
}

/// `boundary=`, as a vector.
pub fn boundary_key_bytes() -> (v: Vec<u8>)
    ensures
        v@ == boundary_key(),
{
    let v: Vec<u8> = vec!['b' as u8, 'o' as u8, 'u' as u8, 'n' as u8, 'd' as u8, 'a' as u8, 'r' as u8, 'y' as u8, '=' as u8];
    assert(v@ =~= boundary_key());
    v
}

/// `content-disposition:`
pub open spec fn disposition_key() -> Seq<u8> {
    seq!['c' as u8, 'o' as u8, 'n' as u8, 't' as u8, 'e' as u8, 'n' as u8, 't' as u8, '-' as u8, 'd' as u8, 'i' as u8, 's' as u8, 'p' as u8, 'o' as u8, 's' as u8, 'i' as u8, 't' as u8, 'i' as u8, 'o' as u8, 'n' as u8, ':' as u8]
}

/// `content-disposition:`, as a vector.
pub fn disposition_key_bytes() -> (v: Vec<u8>)
    ensures
        v@ == disposition_key(),
{
    let v: Vec<u8> = vec!['c' as u8, 'o' as u8, 'n' as u8, 't' as u8, 'e' as u8, 'n' as u8, 't' as u8, '-' as u8, 'd' as u8, 'i' as u8, 's' as u8, 'p' as u8, 'o' as u8, 's' as u8, 'i' as u8, 't' as u8, 'i' as u8, 'o' as u8, 'n' as u8, ':' as u8];
    assert(v@ =~= disposition_key());
    v
}

/// `content-type:`
pub open spec fn part_type_key() -> Seq<u8> {
    seq!['c' as u8, 'o' as u8, 'n' as u8, 't' as u8, 'e' as u8, 'n' as u8, 't' as u8, '-' as u8, 't' as u8, 'y' as u8, 'p' as u8, 'e' as u8, ':' as u8]
}

/// `content-type:`, as a vector.
pub fn part_type_key_bytes() -> (v: Vec<u8>)
    ensures
        v@ == part_type_key(),
{
    let v: Vec<u8> = vec!['c' as u8, 'o' as u8, 'n' as u8, 't' as u8, 'e' as u8, 'n' as u8, 't' as u8, '-' as u8, 't' as u8, 'y' as u8, 'p' as u8, 'e' as u8, ':' as u8];
    assert(v@ =~= part_type_key());
    v
}

/// `name=`
pub open spec fn name_key() -> Seq<u8> {
    seq!['n' as u8, 'a' as u8, 'm' as u8, 'e' as u8, '=' as u8]
}

/// `name=`, as a vector.
pub fn name_key_bytes() -> (v: Vec<u8>)
    ensures
        v@ == name_key(),
{
    let v: Vec<u8> = vec!['n' as u8, 'a' as u8, 'm' as u8, 'e' as u8, '=' as u8];
    assert(v@ =~= name_key());
    v
}

/// `filename*=`
pub open spec fn ext_filename_key() -> Seq<u8> {
    seq!['f' as u8, 'i' as u8, 'l' as u8, 'e' as u8, 'n' as u8, 'a' as u8, 'm' as u8, 'e' as u8, '*' as u8, '=' as u8]
}

/// `filename*=`, as a vector.
pub fn ext_filename_key_bytes() -> (v: Vec<u8>)
    ensures
        v@ == ext_filename_key(),
{
    let v: Vec<u8> = vec!['f' as u8, 'i' as u8, 'l' as u8, 'e' as u8, 'n' as u8, 'a' as u8, 'm' as u8, 'e' as u8, '*' as u8, '=' as u8];
    assert(v@ =~= ext_filename_key());
    v
}

/// `filename=`
pub open spec fn filename_key() -> Seq<u8> {
    seq!['f' as u8, 'i' as u8, 'l' as u8, 'e' as u8, 'n' as u8, 'a' as u8, 'm' as u8, 'e' as u8, '=' as u8]
}

/// `filename=`, as a vector.
pub fn filename_key_bytes() -> (v: Vec<u8>)
    ensures
        v@ == filename_key(),
{
    let v: Vec<u8> = vec!['f' as u8, 'i' as u8, 'l' as u8, 'e' as u8, 'n' as u8, 'a' as u8, 'm' as u8, 'e' as u8, '=' as u8];
    assert(v@ =~= filename_key());
    v
}

/// `text/plain`
pub open spec fn text_plain() -> Seq<u8> {
    seq!['t' as u8, 'e' as u8, 'x' as u8, 't' as u8, '/' as u8, 'p' as u8, 'l' as u8, 'a' as u8, 'i' as u8, 'n' as u8]
}

/// `text/plain`, as a vector.
pub fn text_plain_bytes() -> (v: Vec<u8>)
    ensures
        v@ == text_plain(),
{
    let v: Vec<u8> = vec!['t' as u8, 'e' as u8, 'x' as u8, 't' as u8, '/' as u8, 'p' as u8, 'l' as u8, 'a' as u8, 'i' as u8, 'n' as u8];
    assert(v@ =~= text_plain());
    v
}

/// two apostrophes
pub open spec fn two_quotes() -> Seq<u8> {
    seq![39u8, 39u8]
}

/// two apostrophes, as a vector.
pub fn two_quotes_bytes() -> (v: Vec<u8>)
    ensures
        v@ == two_quotes(),
{
    let v: Vec<u8> = vec![39u8, 39u8];
    assert(v@ =~= two_quotes());
    v
}

/// CR LF
pub open spec fn crlf() -> Seq<u8> {
    seq![13u8, 10u8]
}

/// CR LF, as a vector.
pub fn crlf_bytes() -> (v: Vec<u8>)
    ensures
        v@ == crlf(),
{
    let v: Vec<u8> = vec![13u8, 10u8];
    assert(v@ =~= crlf());
    v
}

/// `--` CR LF
pub open spec fn dashes_crlf() -> Seq<u8> {
    seq!['-' as u8, '-' as u8, 13u8, 10u8]
}

/// `--` CR LF, as a vector.
pub fn dashes_crlf_bytes() -> (v: Vec<u8>)
    ensures
        v@ == dashes_crlf(),
{
    let v: Vec<u8> = vec!['-' as u8, '-' as u8, 13u8, 10u8];
    assert(v@ =~= dashes_crlf());
    v
}

/// `--`
pub open spec fn double_dash() -> Seq<u8> {
    seq!['-' as u8, '-' as u8]
}

/// `--`, as a vector.
pub fn double_dash_bytes() -> (v: Vec<u8>)
    ensures
        v@ == double_dash(),
{
    let v: Vec<u8> = vec!['-' as u8, '-' as u8];
    assert(v@ =~= double_dash());
    v
}

} // verus!

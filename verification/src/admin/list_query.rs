//! What a listing request of the admin grid asks for (column filters, search
//! text, sort order, page, how much of the page to send back) and the links
//! that carry that state from one page to the next.
use crate::lex::{ends_with, join, parse_u64_range, parse_u64_spec, starts_with};
use crate::multimap::{bytes_equal, MultiMap};
use crate::security::{url_escape, Sanitizer, UntrustedString};
use crate::text::{
    append_range, copy_range, lemma_ascii_valid, lemma_chars_of, lemma_valid_concat, sbytes,
    str_bytes, str_to_string, string_bytes, string_from_range, string_from_valid,
};
use vstd::prelude::*;
use vstd::utf8::{decode_utf8, valid_utf8};

verus! {

broadcast use vstd::utf8::encode_utf8_valid_utf8;

// ------------------------------------------------------------------
// Words of the query string
// ------------------------------------------------------------------
/// `filter__`
pub open spec fn filter_prefix() -> Seq<u8> {
    seq!['f' as u8, 'i' as u8, 'l' as u8, 't' as u8, 'e' as u8, 'r' as u8, '_' as u8, '_' as u8]
}

/// `__op`
pub open spec fn op_suffix() -> Seq<u8> {
    seq!['_' as u8, '_' as u8, 'o' as u8, 'p' as u8]
}

/// `__value`
pub open spec fn value_suffix() -> Seq<u8> {
    seq!['_' as u8, '_' as u8, 'v' as u8, 'a' as u8, 'l' as u8, 'u' as u8, 'e' as u8]
}

/// `q`
pub open spec fn search_key() -> Seq<u8> {
    seq!['q' as u8]
}

/// `infinite`
pub open spec fn infinite_key() -> Seq<u8> {
    seq!['i' as u8, 'n' as u8, 'f' as u8, 'i' as u8, 'n' as u8, 'i' as u8, 't' as u8, 'e' as u8]
}

/// `sort`
pub open spec fn sort_key() -> Seq<u8> {
    seq!['s' as u8, 'o' as u8, 'r' as u8, 't' as u8]
}

/// `direction`
pub open spec fn direction_key() -> Seq<u8> {
    seq!['d' as u8, 'i' as u8, 'r' as u8, 'e' as u8, 'c' as u8, 't' as u8, 'i' as u8, 'o' as u8, 'n' as u8]
}

/// `page`
pub open spec fn page_key() -> Seq<u8> {
    seq!['p' as u8, 'a' as u8, 'g' as u8, 'e' as u8]
}

/// `partial`
pub open spec fn partial_key() -> Seq<u8> {
    seq!['p' as u8, 'a' as u8, 'r' as u8, 't' as u8, 'i' as u8, 'a' as u8, 'l' as u8]
}

/// `true`
pub open spec fn true_word() -> Seq<u8> {
    seq!['t' as u8, 'r' as u8, 'u' as u8, 'e' as u8]
}

/// `false`
pub open spec fn false_word() -> Seq<u8> {
    seq!['f' as u8, 'a' as u8, 'l' as u8, 's' as u8, 'e' as u8]
}

/// `asc`
pub open spec fn asc_word() -> Seq<u8> {
    seq!['a' as u8, 's' as u8, 'c' as u8]
}

/// `desc`
pub open spec fn desc_word() -> Seq<u8> {
    seq!['d' as u8, 'e' as u8, 's' as u8, 'c' as u8]
}

/// `is_null`
pub open spec fn is_null_word() -> Seq<u8> {
    seq!['i' as u8, 's' as u8, '_' as u8, 'n' as u8, 'u' as u8, 'l' as u8, 'l' as u8]
}

/// `is_not_null`
pub open spec fn is_not_null_word() -> Seq<u8> {
    seq![
        'i' as u8, 's' as u8, '_' as u8, 'n' as u8, 'o' as u8, 't' as u8, '_' as u8, 'n' as u8,
        'u' as u8, 'l' as u8, 'l' as u8,
    ]
}

/// `rows`
pub open spec fn rows_word() -> Seq<u8> {
    seq!['r' as u8, 'o' as u8, 'w' as u8, 's' as u8]
}

/// `matrix`
pub open spec fn matrix_word() -> Seq<u8> {
    seq!['m' as u8, 'a' as u8, 't' as u8, 'r' as u8, 'i' as u8, 'x' as u8]
}

/// `=`
pub open spec fn eq_sign() -> Seq<u8> {
    seq!['=' as u8]
}

/// `&`
pub open spec fn amp() -> Seq<u8> {
    seq!['&' as u8]
}

/// `?`
pub open spec fn question() -> Seq<u8> {
    seq!['?' as u8]
}

// ------------------------------------------------------------------
// Reading the query
// ------------------------------------------------------------------
/// The query of a request: each key with its values.
pub type QueryView = Map<Seq<char>, Seq<Seq<char>>>;

/// The column a `filter__<col>__op` key names.
pub open spec fn op_column(k: Seq<u8>) -> Option<Seq<u8>> {
    if k.len() >= 12 && starts_with(k, filter_prefix()) && ends_with(k, op_suffix()) {
        Some(k.subrange(8, k.len() - 4))
    } else {
        None
    }
}

/// The key `filter__<col>__value`.
pub open spec fn value_key(col: Seq<u8>) -> Seq<u8> {
    filter_prefix() + col + value_suffix()
}

/// The first value under a key, as bytes.
pub open spec fn first_value(m: QueryView, k: Seq<u8>) -> Option<Seq<u8>> {
    let kc = decode_utf8(k);
    if m.contains_key(kc) && m[kc].len() > 0 {
        Some(sbytes(m[kc][0]))
    } else {
        None
    }
}

/// A value percent-decoded, or as it came where decoding does not give UTF-8.
pub open spec fn decoded(v: Seq<u8>) -> Seq<u8> {
    crate::security::url_decoded_or_raw(v)
}

/// Does a filter with this operator and value restrict anything?  An empty
/// operator is "no filter"; an empty value only counts for the null tests.
pub open spec fn keeps_filter(op: Seq<u8>, val: Seq<u8>) -> bool {
    op.len() > 0 && (val.len() > 0 || op == is_null_word() || op == is_not_null_word())
}

/// One column filter: column, operator, value.
pub type FilterView = (Seq<u8>, Seq<u8>, Seq<u8>);

/// The filters of a listing, in the order of their operator keys: values
/// percent-decoded, and only those that restrict anything.
pub open spec fn list_filters(keys: Seq<Seq<char>>, m: QueryView) -> Seq<FilterView>
    decreases keys.len(),
{
    if keys.len() == 0 {
        seq![]
    } else {
        let rest = list_filters(keys.drop_last(), m);
        match op_column(sbytes(keys.last())) {
            Some(col) => {
                let op = decoded(sbytes(m[keys.last()][0]));
                let val = match first_value(m, value_key(col)) {
                    Some(v) => decoded(v),
                    None => seq![],
                };
                if keeps_filter(op, val) {
                    rest.push((col, op, val))
                } else {
                    rest
                }
            },
            None => rest,
        }
    }
}

/// The filters of an export, in the order of their operator keys: values as
/// they came, every operator key counted.
pub open spec fn export_filters(keys: Seq<Seq<char>>, m: QueryView) -> Seq<FilterView>
    decreases keys.len(),
{
    if keys.len() == 0 {
        seq![]
    } else {
        let rest = export_filters(keys.drop_last(), m);
        match op_column(sbytes(keys.last())) {
            Some(col) => {
                let op = sbytes(m[keys.last()][0]);
                let val = match first_value(m, value_key(col)) {
                    Some(v) => v,
                    None => seq![],
                };
                rest.push((col, op, val))
            },
            None => rest,
        }
    }
}

/// A column filter of the grid.
pub struct ColumnFilter {
    pub column: String,
    pub op: String,
    pub value: String,
}

impl View for ColumnFilter {
    type V = FilterView;

    open spec fn view(&self) -> FilterView {
        (sbytes(self.column@), sbytes(self.op@), sbytes(self.value@))
    }
}

/// The filters as bytes.
pub open spec fn filters_view(fs: Seq<ColumnFilter>) -> Seq<FilterView> {
    fs.map_values(|f: ColumnFilter| f@)
}

/// The first value under `key`, as it came.
fn first_value_of(query: &MultiMap<UntrustedString>, key: &[u8]) -> (r: Option<String>)
    requires
        query.wf(),
        valid_utf8(key@),
    ensures
        r is Some <==> first_value(query@, key@) is Some,
        r matches Some(s) ==> first_value(query@, key@) == Some(sbytes(s@)),
{
    let kv = lit(key);
    let ks = string_from_valid(kv);
    proof {
        lemma_chars_of(ks@, key@);
    }
    match query.get(ks.as_str()) {
        Some(vals) => {
            let v = &vals[0];
            proof {
                assert(vals@.map_values(|x: UntrustedString| x@)[0] == v@);
            }
            Some(str_to_string(v.as_str()))
        },
        None => None,
    }
}

/// A value percent-decoded, or as it came.
fn decode_value(v: &str) -> (r: String)
    ensures
        sbytes(r@) == decoded(sbytes(v@)),
{
    Sanitizer::url_decode(v)
}

/// Bytes of a literal array.
fn lit(a: &[u8]) -> (v: Vec<u8>)
    ensures
        v@ == a@,
{
    let v = copy_range(a, 0, a.len());
    assert(a@.subrange(0, a@.len() as int) =~= a@);
    v
}

/// The column of a `filter__<col>__op` key.
fn column_of_op_key(k: &String) -> (r: Option<String>)
    ensures
        r is Some <==> op_column(sbytes(k@)) is Some,
        r matches Some(c) ==> op_column(sbytes(k@)) == Some(sbytes(c@)),
{
    let kb = string_bytes(k);
    let n = kb.len();
    if n < 12 {
        return None;
    }
    let pa: [u8; 8] = ['f' as u8, 'i' as u8, 'l' as u8, 't' as u8, 'e' as u8, 'r' as u8, '_' as u8, '_' as u8];
    let p: &[u8] = &pa;
    let sa: [u8; 4] = ['_' as u8, '_' as u8, 'o' as u8, 'p' as u8];
    let sf: &[u8] = &sa;
    assert(p@ == filter_prefix());
    assert(sf@ == op_suffix());
    assert(kb@.subrange(0, n as int) =~= kb@);
    if !crate::lex::range_starts_with(kb, 0, n, p) {
        return None;
    }
    if !crate::lex::range_ends_with(kb, 0, n, sf) {
        return None;
    }
    proof {
        assert(kb@.subrange(0, 8)[7] == 95u8);
        crate::lex::lemma_ascii_boundaries_pub(kb@, 7);
        assert(kb@.subrange(n - 4, n as int)[0] == 95u8);
        crate::lex::lemma_ascii_boundaries_pub(kb@, n - 4);
    }
    Some(string_from_range(kb, 8, n - 4))
}

/// The first value under `filter__<col>__value`, as it came.
fn value_of_column(query: &MultiMap<UntrustedString>, col: &String) -> (r: Option<String>)
    requires
        query.wf(),
    ensures
        r is Some <==> first_value(query@, value_key(sbytes(col@))) is Some,
        r matches Some(s) ==> first_value(query@, value_key(sbytes(col@))) == Some(sbytes(s@)),
{
    let pa: [u8; 8] = ['f' as u8, 'i' as u8, 'l' as u8, 't' as u8, 'e' as u8, 'r' as u8, '_' as u8, '_' as u8];
    let sa: [u8; 7] = ['_' as u8, '_' as u8, 'v' as u8, 'a' as u8, 'l' as u8, 'u' as u8, 'e' as u8];
    let ps: &[u8] = &pa;
    let ss: &[u8] = &sa;
    let cb = string_bytes(col);
    let mut kv = lit(ps);
    append_range(&mut kv, cb, 0, cb.len());
    append_range(&mut kv, ss, 0, ss.len());
    proof {
        assert(cb@.subrange(0, cb@.len() as int) =~= cb@);
        assert(ss@.subrange(0, ss@.len() as int) =~= ss@);
        assert(kv@ =~= value_key(sbytes(col@)));
        lemma_ascii_valid(filter_prefix());
        lemma_ascii_valid(value_suffix());
        lemma_valid_concat(filter_prefix(), cb@);
        lemma_valid_concat(filter_prefix() + cb@, value_suffix());
    }
    first_value_of(query, kv.as_slice())
}

/// Does the filter restrict anything?
fn keeps_filter_exec(op: &String, val: &String) -> (r: bool)
    ensures
        r == keeps_filter(sbytes(op@), sbytes(val@)),
{
    let ob = string_bytes(op);
    let vb = string_bytes(val);
    let na: [u8; 7] = ['i' as u8, 's' as u8, '_' as u8, 'n' as u8, 'u' as u8, 'l' as u8, 'l' as u8];
    let nn: [u8; 11] = [
        'i' as u8, 's' as u8, '_' as u8, 'n' as u8, 'o' as u8, 't' as u8, '_' as u8, 'n' as u8,
        'u' as u8, 'l' as u8, 'l' as u8,
    ];
    let ns: &[u8] = &na;
    let nns: &[u8] = &nn;
    assert(ns@ == is_null_word());
    assert(nns@ == is_not_null_word());
    ob.len() > 0 && (vb.len() > 0 || bytes_equal(ob, ns) || bytes_equal(ob, nns))
}

/// The column filters of a listing request: for every `filter__<col>__op`
/// key, in the order the keys came, the operator and the value of
/// `filter__<col>__value` (empty when absent), both percent-decoded where that
/// gives UTF-8; a filter with no operator, or with no value and an operator
/// other than the null tests, is left out.
pub fn parse_list_filters(query: &MultiMap<UntrustedString>) -> (r: Vec<ColumnFilter>)
    requires
        query.wf(),
    ensures
        filters_view(r@) == list_filters(query.key_seq(), query@),
{
    let mut out: Vec<ColumnFilter> = Vec::new();
    let n = query.len();
    let mut i: usize = 0;
    while i < n
        invariant
            query.wf(),
            n == query.key_seq().len(),
            i <= n,
            filters_view(out@) == list_filters(query.key_seq().take(i as int), query@),
        decreases n - i,
    {
        let (k, vals) = query.entry_at(i);
        let ghost ks = query.key_seq().take(i + 1);
        assert(ks.drop_last() =~= query.key_seq().take(i as int));
        assert(ks.last() == k@);
        assert(vals@.map_values(|x: UntrustedString| x@)[0] == vals@[0]@);
        let ghost before = out@;
        match column_of_op_key(k) {
            Some(col) => {
                let op = decode_value(vals[0].as_str());
                let val = match value_of_column(query, &col) {
                    Some(v) => decode_value(v.as_str()),
                    None => String::new(),
                };
                if keeps_filter_exec(&op, &val) {
                    out.push(ColumnFilter { column: col, op, value: val });
                    assert(filters_view(out@) =~= filters_view(before).push(out@.last()@));
                }
            },
            None => {},
        }
        assert(filters_view(out@) =~= list_filters(ks, query@));
        i = i + 1;
    }
    assert(query.key_seq().take(n as int) =~= query.key_seq());
    out
}

/// The column filters of an export request: for every `filter__<col>__op`
/// key, in the order the keys came, the operator and the value of
/// `filter__<col>__value` (empty when absent), as they came.
pub fn parse_export_filters(query: &MultiMap<UntrustedString>) -> (r: Vec<ColumnFilter>)
    requires
        query.wf(),
    ensures
        filters_view(r@) == export_filters(query.key_seq(), query@),
{
    let mut out: Vec<ColumnFilter> = Vec::new();
    let n = query.len();
    let mut i: usize = 0;
    while i < n
        invariant
            query.wf(),
            n == query.key_seq().len(),
            i <= n,
            filters_view(out@) == export_filters(query.key_seq().take(i as int), query@),
        decreases n - i,
    {
        let (k, vals) = query.entry_at(i);
        let ghost ks = query.key_seq().take(i + 1);
        assert(ks.drop_last() =~= query.key_seq().take(i as int));
        assert(ks.last() == k@);
        assert(vals@.map_values(|x: UntrustedString| x@)[0] == vals@[0]@);
        let ghost before = out@;
        match column_of_op_key(k) {
            Some(col) => {
                let op = str_to_string(vals[0].as_str());
                let val = match value_of_column(query, &col) {
                    Some(v) => v,
                    None => String::new(),
                };
                out.push(ColumnFilter { column: col, op, value: val });
                assert(filters_view(out@) =~= filters_view(before).push(out@.last()@));
            },
            None => {},
        }
        assert(filters_view(out@) =~= export_filters(ks, query@));
        i = i + 1;
    }
    assert(query.key_seq().take(n as int) =~= query.key_seq());
    out
}

/// The bytes of an optional string.
pub open spec fn opt_bytes(o: Option<String>) -> Option<Seq<u8>> {
    match o {
        Some(s) => Some(sbytes(s@)),
        None => None,
    }
}

/// The first value under a key, or a default.
pub open spec fn value_or(m: QueryView, k: Seq<u8>, d: Seq<u8>) -> Seq<u8> {
    match first_value(m, k) {
        Some(v) => v,
        None => d,
    }
}

/// The search text of a listing (`q`), percent-decoded.
pub open spec fn list_search(m: QueryView) -> Option<Seq<u8>> {
    match first_value(m, search_key()) {
        Some(v) => Some(decoded(v)),
        None => None,
    }
}

/// The search text of an export (`q`), as it came.
pub open spec fn export_search(m: QueryView) -> Option<Seq<u8>> {
    first_value(m, search_key())
}

/// Infinite scrolling is on unless `infinite` says other than `true`.
pub open spec fn list_infinite(m: QueryView) -> bool {
    match first_value(m, infinite_key()) {
        Some(v) => decoded(v) == true_word(),
        None => true,
    }
}

/// The requested page (0-based): `page` read as a `u64`, 0 where absent or unreadable.
pub open spec fn list_page(m: QueryView) -> u64 {
    match first_value(m, page_key()) {
        Some(v) => match parse_u64_spec(v) {
            Some(p) => p,
            None => 0,
        },
        None => 0,
    }
}

/// The state of a listing request.
pub struct ListQuery {
    pub filters: Vec<ColumnFilter>,
    pub search: Option<String>,
    pub infinite_scroll: bool,
    pub sort_col: String,
    pub sort_dir: String,
    pub page: u64,
    pub partial: String,
}

/// The state a listing request asks for.
pub open spec fn list_query_is(r: ListQuery, keys: Seq<Seq<char>>, m: QueryView) -> bool {
    &&& filters_view(r.filters@) == list_filters(keys, m)
    &&& opt_bytes(r.search) == list_search(m)
    &&& r.infinite_scroll == list_infinite(m)
    &&& sbytes(r.sort_col@) == value_or(m, sort_key(), seq![])
    &&& sbytes(r.sort_dir@) == value_or(m, direction_key(), desc_word())
    &&& r.page == list_page(m)
    &&& sbytes(r.partial@) == value_or(m, partial_key(), seq![])
}

/// The first value under `key`, or the literal `d`.
fn value_or_exec(query: &MultiMap<UntrustedString>, key: &[u8], d: &[u8]) -> (r: String)
    requires
        query.wf(),
        valid_utf8(key@),
        valid_utf8(d@),
    ensures
        sbytes(r@) == value_or(query@, key@, d@),
{
    match first_value_of(query, key) {
        Some(v) => v,
        None => string_from_valid(lit(d)),
    }
}

impl ListQuery {
    /// Reads a listing request's query: the column filters (see
    /// `parse_list_filters`), the search text `q` (percent-decoded), whether
    /// infinite scrolling stays on (`infinite`, on unless it says other than
    /// `true`), the sort column and direction (`sort`, `direction`; `desc` by
    /// default), the page (`page`, 0 where absent or not a number) and the
    /// part of the page asked for (`partial`).
    pub fn parse(query: &MultiMap<UntrustedString>) -> (r: ListQuery)
        requires
            query.wf(),
        ensures
            list_query_is(r, query.key_seq(), query@),
    {
        let filters = parse_list_filters(query);
        let qa: [u8; 1] = ['q' as u8];
        let ia: [u8; 8] = ['i' as u8, 'n' as u8, 'f' as u8, 'i' as u8, 'n' as u8, 'i' as u8, 't' as u8, 'e' as u8];
        let ta: [u8; 4] = ['t' as u8, 'r' as u8, 'u' as u8, 'e' as u8];
        let sa: [u8; 4] = ['s' as u8, 'o' as u8, 'r' as u8, 't' as u8];
        let da: [u8; 9] = ['d' as u8, 'i' as u8, 'r' as u8, 'e' as u8, 'c' as u8, 't' as u8, 'i' as u8, 'o' as u8, 'n' as u8];
        let dsa: [u8; 4] = ['d' as u8, 'e' as u8, 's' as u8, 'c' as u8];
        let pa: [u8; 4] = ['p' as u8, 'a' as u8, 'g' as u8, 'e' as u8];
        let pta: [u8; 7] = ['p' as u8, 'a' as u8, 'r' as u8, 't' as u8, 'i' as u8, 'a' as u8, 'l' as u8];
        let ea: [u8; 0] = [];
        let (q, inf, t, so, di, de, pg, pt, e): (&[u8], &[u8], &[u8], &[u8], &[u8], &[u8], &[u8], &[u8], &[u8]) = (
            &qa, &ia, &ta, &sa, &da, &dsa, &pa, &pta, &ea,
        );
        proof {
            assert(q@ == search_key());
            assert(inf@ == infinite_key());
            assert(t@ == true_word());
            assert(so@ == sort_key());
            assert(di@ == direction_key());
            assert(de@ == desc_word());
            assert(pg@ == page_key());
            assert(pt@ == partial_key());
            assert(e@ =~= Seq::<u8>::empty());
            lemma_ascii_valid(q@);
            lemma_ascii_valid(inf@);
            lemma_ascii_valid(so@);
            lemma_ascii_valid(di@);
            lemma_ascii_valid(de@);
            lemma_ascii_valid(pg@);
            lemma_ascii_valid(pt@);
            lemma_ascii_valid(e@);
        }
        let search = match first_value_of(query, q) {
            Some(v) => Some(decode_value(v.as_str())),
            None => None,
        };
        let infinite_scroll = match first_value_of(query, inf) {
            Some(v) => {
                let d = decode_value(v.as_str());
                bytes_equal(string_bytes(&d), t)
            },
            None => true,
        };
        let sort_col = value_or_exec(query, so, e);
        let sort_dir = value_or_exec(query, di, de);
        let page = match first_value_of(query, pg) {
            Some(v) => {
                let b = string_bytes(&v);
                assert(b@.subrange(0, b@.len() as int) =~= b@);
                match parse_u64_range(b, 0, b.len()) {
                    Some(p) => p,
                    None => 0,
                }
            },
            None => 0,
        };
        let partial = value_or_exec(query, pt, e);
        ListQuery { filters, search, infinite_scroll, sort_col, sort_dir, page, partial }
    }
}

/// The filters and search text of an export request, values as they came.
pub fn parse_export_query(query: &MultiMap<UntrustedString>) -> (r: (Vec<ColumnFilter>, Option<String>))
    requires
        query.wf(),
    ensures
        filters_view(r.0@) == export_filters(query.key_seq(), query@),
        opt_bytes(r.1) == export_search(query@),
{
    let filters = parse_export_filters(query);
    let qa: [u8; 1] = ['q' as u8];
    let q: &[u8] = &qa;
    proof {
        assert(q@ == search_key());
        lemma_ascii_valid(q@);
    }
    (filters, first_value_of(query, q))
}

// ------------------------------------------------------------------
// Writing the query back into links
// ------------------------------------------------------------------
/// The decimal digits of a number.
pub open spec fn decimal(n: nat) -> Seq<u8>
    decreases n,
{
    if n < 10 {
        seq![(48 + n) as u8]
    } else {
        decimal(n / 10) + seq![(48 + n % 10) as u8]
    }
}

/// `filter__<col>__op=<op>` and, unless the operator is a null test,
/// `filter__<col>__value=<value, percent-encoded>`, for each filter in turn.
pub open spec fn filter_params(fs: Seq<FilterView>) -> Seq<Seq<u8>>
    decreases fs.len(),
{
    if fs.len() == 0 {
        seq![]
    } else {
        let f = fs.last();
        let with_op = filter_params(fs.drop_last()).push(
            filter_prefix() + f.0 + op_suffix() + eq_sign() + f.1,
        );
        if f.1 == is_null_word() || f.1 == is_not_null_word() {
            with_op
        } else {
            with_op.push(filter_prefix() + f.0 + value_suffix() + eq_sign() + url_escape(f.2))
        }
    }
}

/// `q=<search, percent-encoded>` when there is a search.
pub open spec fn search_params(s: Option<Seq<u8>>) -> Seq<Seq<u8>> {
    match s {
        Some(q) => seq![search_key() + eq_sign() + url_escape(q)],
        None => seq![],
    }
}

/// `true` or `false`.
pub open spec fn bool_word(b: bool) -> Seq<u8> {
    if b {
        true_word()
    } else {
        false_word()
    }
}

/// `infinite=<true|false>`.
pub open spec fn infinite_param(b: bool) -> Seq<u8> {
    infinite_key() + eq_sign() + bool_word(b)
}

/// `sort=<col>` and `direction=<dir>` when a column is sorted on.
pub open spec fn sort_params(col: Seq<u8>, dir: Seq<u8>) -> Seq<Seq<u8>> {
    if col.len() == 0 {
        seq![]
    } else {
        seq![sort_key() + eq_sign() + col, direction_key() + eq_sign() + dir]
    }
}

/// `page=<n>` for the page asked for, else for the current page unless it is the first.
pub open spec fn page_params(page_override: Option<u64>, page: u64) -> Seq<Seq<u8>> {
    match page_override {
        Some(p) => seq![page_key() + eq_sign() + decimal(p as nat)],
        None => if page > 0 {
            seq![page_key() + eq_sign() + decimal(page as nat)]
        } else {
            seq![]
        },
    }
}

/// `?` and the parameters joined by `&`; nothing when there are none.
pub open spec fn query_string(parts: Seq<Seq<u8>>) -> Seq<u8> {
    if parts.len() == 0 {
        seq![]
    } else {
        question() + join(parts, amp())
    }
}

/// A query string with `partial=<mode>` added.
pub open spec fn with_partial_spec(qs: Seq<u8>, mode: Seq<u8>) -> Seq<u8> {
    if qs.len() == 0 {
        question() + partial_key() + eq_sign() + mode
    } else {
        qs + amp() + partial_key() + eq_sign() + mode
    }
}

/// The parameters of a link that keeps a listing's state: its filters, its
/// search, its scroll mode, its sort (or the one given) and its page (or the
/// one given).
pub open spec fn state_params(q: ListQuery, page_override: Option<u64>, sort_override: Option<(Seq<u8>, Seq<u8>)>) -> Seq<Seq<u8>> {
    let (c, d) = match sort_override {
        Some(cd) => cd,
        None => (sbytes(q.sort_col@), sbytes(q.sort_dir@)),
    };
    filter_params(filters_view(q.filters@)) + search_params(opt_bytes(q.search)) + seq![
        infinite_param(q.infinite_scroll),
    ] + sort_params(c, d) + page_params(page_override, q.page)
}

/// Every part is valid UTF-8.
pub open spec fn parts_ok(ps: Seq<Vec<u8>>) -> bool {
    forall|i: int| 0 <= i < ps.len() ==> valid_utf8(#[trigger] ps[i]@)
}

/// The bytes of the parts.
pub open spec fn parts_view(ps: Seq<Vec<u8>>) -> Seq<Seq<u8>> {
    ps.map_values(|v: Vec<u8>| v@)
}

proof fn lemma_decimal_ascii(n: nat)
    ensures
        crate::text::all_ascii(decimal(n)),
        decimal(n).len() > 0,
    decreases n,
{
    if n >= 10 {
        lemma_decimal_ascii(n / 10);
        let d = decimal(n);
        assert forall|i: int| 0 <= i < d.len() implies #[trigger] d[i] < 128 by {
            if i < d.len() - 1 {
                assert(d[i] == decimal(n / 10)[i]);
            }
        }
    }
}

/// Appends the decimal digits of `n`.
fn push_decimal(out: &mut Vec<u8>, n: u64)
    ensures
        final(out)@ == old(out)@ + decimal(n as nat),
    decreases n,
{
    let ghost start = out@;
    if n >= 10 {
        push_decimal(out, n / 10);
    }
    let d: u8 = (n % 10) as u8;
    out.push(48 + d);
    assert(out@ =~= start + decimal(n as nat));
}

/// The decimal digits of a number, as text.
pub fn u64_text(n: u64) -> (r: String)
    ensures
        sbytes(r@) == decimal(n as nat),
{
    let mut digits: Vec<u8> = Vec::new();
    push_decimal(&mut digits, n);
    proof {
        assert(digits@ =~= decimal(n as nat));
        lemma_decimal_ascii(n as nat);
        lemma_ascii_valid(digits@);
    }
    string_from_valid(digits)
}

/// Appends valid UTF-8 to valid UTF-8.
fn push_valid(out: &mut Vec<u8>, p: &[u8])
    requires
        valid_utf8(old(out)@),
        valid_utf8(p@),
    ensures
        final(out)@ == old(out)@ + p@,
        valid_utf8(final(out)@),
{
    append_range(out, p, 0, p.len());
    proof {
        assert(p@.subrange(0, p@.len() as int) =~= p@);
        lemma_valid_concat(old(out)@, p@);
    }
}

/// Appends a part to a list of parts.
fn push_part(parts: &mut Vec<Vec<u8>>, part: Vec<u8>)
    requires
        parts_ok(old(parts)@),
        valid_utf8(part@),
    ensures
        parts_ok(final(parts)@),
        parts_view(final(parts)@) == parts_view(old(parts)@).push(part@),
{
    let ghost before = parts@;
    parts.push(part);
    assert(parts_view(parts@) =~= parts_view(before).push(parts@.last()@));
}

/// `<key>=<value>` as a part.
fn key_eq(key: &[u8], value: &[u8]) -> (r: Vec<u8>)
    requires
        crate::text::all_ascii(key@),
        valid_utf8(value@),
    ensures
        r@ == key@ + eq_sign() + value@,
        valid_utf8(r@),
{
    let mut r = lit(key);
    let ea: [u8; 1] = ['=' as u8];
    let e: &[u8] = &ea;
    proof {
        lemma_ascii_valid(key@);
        lemma_ascii_valid(e@);
    }
    push_valid(&mut r, e);
    push_valid(&mut r, value);
    r
}

/// `filter__<col><suffix>=<value>` as a part.
fn filter_part(col: &String, suffix: &[u8], value: &[u8]) -> (r: Vec<u8>)
    requires
        crate::text::all_ascii(suffix@),
        valid_utf8(value@),
    ensures
        r@ == filter_prefix() + sbytes(col@) + suffix@ + eq_sign() + value@,
        valid_utf8(r@),
{
    let pa: [u8; 8] = ['f' as u8, 'i' as u8, 'l' as u8, 't' as u8, 'e' as u8, 'r' as u8, '_' as u8, '_' as u8];
    let ea: [u8; 1] = ['=' as u8];
    let p: &[u8] = &pa;
    let e: &[u8] = &ea;
    proof {
        lemma_ascii_valid(p@);
        lemma_ascii_valid(e@);
        lemma_ascii_valid(suffix@);
    }
    let mut r = lit(p);
    push_valid(&mut r, string_bytes(col));
    push_valid(&mut r, suffix);
    push_valid(&mut r, e);
    push_valid(&mut r, value);
    r
}

/// Appends the parameters of the filters.
fn push_filter_params(parts: &mut Vec<Vec<u8>>, fs: &Vec<ColumnFilter>)
    requires
        parts_ok(old(parts)@),
    ensures
        parts_ok(final(parts)@),
        parts_view(final(parts)@) == parts_view(old(parts)@) + filter_params(filters_view(fs@)),
{
    let ghost start = parts_view(parts@);
    let oa: [u8; 4] = ['_' as u8, '_' as u8, 'o' as u8, 'p' as u8];
    let va: [u8; 7] = ['_' as u8, '_' as u8, 'v' as u8, 'a' as u8, 'l' as u8, 'u' as u8, 'e' as u8];
    let na: [u8; 7] = ['i' as u8, 's' as u8, '_' as u8, 'n' as u8, 'u' as u8, 'l' as u8, 'l' as u8];
    let nn: [u8; 11] = [
        'i' as u8, 's' as u8, '_' as u8, 'n' as u8, 'o' as u8, 't' as u8, '_' as u8, 'n' as u8,
        'u' as u8, 'l' as u8, 'l' as u8,
    ];
    let (os, vs, ns, nns): (&[u8], &[u8], &[u8], &[u8]) = (&oa, &va, &na, &nn);
    assert(os@ == op_suffix());
    assert(vs@ == value_suffix());
    assert(ns@ == is_null_word());
    assert(nns@ == is_not_null_word());
    let mut i: usize = 0;
    while i < fs.len()
        invariant
            i <= fs@.len(),
            os@ == op_suffix(),
            vs@ == value_suffix(),
            ns@ == is_null_word(),
            nns@ == is_not_null_word(),
            parts_ok(parts@),
            parts_view(parts@) == start + filter_params(filters_view(fs@).take(i as int)),
        decreases fs@.len() - i,
    {
        let f = &fs[i];
        let ghost t = filters_view(fs@).take(i + 1);
        assert(t.drop_last() =~= filters_view(fs@).take(i as int));
        assert(t.last() == f@);
        let ob = string_bytes(&f.op);
        push_part(parts, filter_part(&f.column, os, ob));
        if !bytes_equal(ob, ns) && !bytes_equal(ob, nns) {
            let enc = Sanitizer::url_encode(f.value.as_str());
            push_part(parts, filter_part(&f.column, vs, string_bytes(&enc)));
        }
        assert(parts_view(parts@) =~= start + filter_params(t));
        i = i + 1;
    }
    assert(filters_view(fs@).take(fs@.len() as int) =~= filters_view(fs@));
}

/// Appends the search parameter.
fn push_search_param(parts: &mut Vec<Vec<u8>>, search: &Option<String>)
    requires
        parts_ok(old(parts)@),
    ensures
        parts_ok(final(parts)@),
        parts_view(final(parts)@) == parts_view(old(parts)@) + search_params(opt_bytes(*search)),
{
    let ghost start = parts_view(parts@);
    match search {
        Some(q) => {
            let qa: [u8; 1] = ['q' as u8];
            let qs: &[u8] = &qa;
            assert(qs@ == search_key());
            let enc = Sanitizer::url_encode(q.as_str());
            push_part(parts, key_eq(qs, string_bytes(&enc)));
        },
        None => {},
    }
    assert(parts_view(parts@) =~= start + search_params(opt_bytes(*search)));
}

/// Appends `infinite=<true|false>`.
fn push_infinite_param(parts: &mut Vec<Vec<u8>>, on: bool)
    requires
        parts_ok(old(parts)@),
    ensures
        parts_ok(final(parts)@),
        parts_view(final(parts)@) == parts_view(old(parts)@).push(infinite_param(on)),
{
    let ia: [u8; 8] = ['i' as u8, 'n' as u8, 'f' as u8, 'i' as u8, 'n' as u8, 'i' as u8, 't' as u8, 'e' as u8];
    let ta: [u8; 4] = ['t' as u8, 'r' as u8, 'u' as u8, 'e' as u8];
    let fa: [u8; 5] = ['f' as u8, 'a' as u8, 'l' as u8, 's' as u8, 'e' as u8];
    let (is, ts, fs): (&[u8], &[u8], &[u8]) = (&ia, &ta, &fa);
    proof {
        lemma_ascii_valid(ts@);
        lemma_ascii_valid(fs@);
    }
    let w: &[u8] = if on {
        ts
    } else {
        fs
    };
    assert(is@ == infinite_key());
    assert(w@ == bool_word(on));
    push_part(parts, key_eq(is, w));
}

/// Appends the sort parameters.
fn push_sort_params(parts: &mut Vec<Vec<u8>>, col: &String, dir: &String)
    requires
        parts_ok(old(parts)@),
    ensures
        parts_ok(final(parts)@),
        parts_view(final(parts)@) == parts_view(old(parts)@) + sort_params(sbytes(col@), sbytes(dir@)),
{
    let ghost start = parts_view(parts@);
    let cb = string_bytes(col);
    if cb.len() > 0 {
        let sa: [u8; 4] = ['s' as u8, 'o' as u8, 'r' as u8, 't' as u8];
        let da: [u8; 9] = ['d' as u8, 'i' as u8, 'r' as u8, 'e' as u8, 'c' as u8, 't' as u8, 'i' as u8, 'o' as u8, 'n' as u8];
        let (ss, ds): (&[u8], &[u8]) = (&sa, &da);
        push_part(parts, key_eq(ss, cb));
        push_part(parts, key_eq(ds, string_bytes(dir)));
    }
    assert(parts_view(parts@) =~= start + sort_params(sbytes(col@), sbytes(dir@)));
}

/// Appends the page parameter.
fn push_page_param(parts: &mut Vec<Vec<u8>>, page_override: Option<u64>, page: u64)
    requires
        parts_ok(old(parts)@),
    ensures
        parts_ok(final(parts)@),
        parts_view(final(parts)@) == parts_view(old(parts)@) + page_params(page_override, page),
{
    let ghost start = parts_view(parts@);
    let pa: [u8; 4] = ['p' as u8, 'a' as u8, 'g' as u8, 'e' as u8];
    let ps: &[u8] = &pa;
    let shown: Option<u64> = match page_override {
        Some(p) => Some(p),
        None => if page > 0 {
            Some(page)
        } else {
            None
        },
    };
    match shown {
        Some(p) => {
            let mut digits: Vec<u8> = Vec::new();
            push_decimal(&mut digits, p);
            proof {
                assert(digits@ =~= decimal(p as nat));
                lemma_decimal_ascii(p as nat);
                lemma_ascii_valid(digits@);
            }
            push_part(parts, key_eq(ps, digits.as_slice()));
        },
        None => {},
    }
    assert(parts_view(parts@) =~= start + page_params(page_override, page));
}

/// `?` and the parts joined by `&`, or nothing.
fn render_query(parts: &Vec<Vec<u8>>) -> (r: String)
    requires
        parts_ok(parts@),
    ensures
        sbytes(r@) == query_string(parts_view(parts@)),
{
    if parts.len() == 0 {
        assert(parts_view(parts@).len() == 0);
        return String::new();
    }
    let qa: [u8; 1] = ['?' as u8];
    let aa: [u8; 1] = ['&' as u8];
    let (qs, amps): (&[u8], &[u8]) = (&qa, &aa);
    proof {
        lemma_ascii_valid(qs@);
        lemma_ascii_valid(amps@);
    }
    let ghost pv = parts_view(parts@);
    let mut out = lit(qs);
    push_valid(&mut out, parts[0].as_slice());
    let mut i: usize = 1;
    proof {
        assert(pv.take(1) =~= seq![pv[0]]);
    }
    while i < parts.len()
        invariant
            1 <= i <= parts@.len(),
            pv == parts_view(parts@),
            parts_ok(parts@),
            qs@ == question(),
            amps@ == amp(),
            valid_utf8(amps@),
            valid_utf8(out@),
            out@ == question() + join(pv.take(i as int), amp()),
        decreases parts@.len() - i,
    {
        push_valid(&mut out, amps);
        push_valid(&mut out, parts[i].as_slice());
        proof {
            let t = pv.take(i + 1);
            assert(t.drop_last() =~= pv.take(i as int));
            assert(t.last() == parts@[i as int]@);
        }
        i = i + 1;
    }
    assert(pv.take(parts@.len() as int) =~= pv);
    string_from_valid(out)
}

impl ListQuery {
    /// The query string that keeps this listing's filters, search, scroll
    /// mode, sort (or `sort_override`) and page (or `page_override`).
    pub fn query_string(&self, page_override: Option<u64>, sort_override: Option<(String, String)>) -> (r: String)
        ensures
            sbytes(r@) == query_string(
                state_params(
                    *self,
                    page_override,
                    match sort_override {
                        Some(cd) => Some((sbytes(cd.0@), sbytes(cd.1@))),
                        None => None,
                    },
                ),
            ),
    {
        let mut parts: Vec<Vec<u8>> = Vec::new();
        assert(parts_view(parts@) =~= Seq::<Seq<u8>>::empty());
        push_filter_params(&mut parts, &self.filters);
        push_search_param(&mut parts, &self.search);
        push_infinite_param(&mut parts, self.infinite_scroll);
        match &sort_override {
            Some(cd) => push_sort_params(&mut parts, &cd.0, &cd.1),
            None => push_sort_params(&mut parts, &self.sort_col, &self.sort_dir),
        }
        push_page_param(&mut parts, page_override, self.page);
        let ghost so = match sort_override {
            Some(cd) => Some((sbytes(cd.0@), sbytes(cd.1@))),
            None => None,
        };
        assert(parts_view(parts@) =~= state_params(*self, page_override, so));
        render_query(&parts)
    }
}

/// Adds `partial=<mode>` to a query string (which may be empty).
pub fn with_partial(qs: &str, mode: &str) -> (r: String)
    ensures
        sbytes(r@) == with_partial_spec(sbytes(qs@), sbytes(mode@)),
{
    let qa: [u8; 1] = ['?' as u8];
    let aa: [u8; 1] = ['&' as u8];
    let pa: [u8; 7] = ['p' as u8, 'a' as u8, 'r' as u8, 't' as u8, 'i' as u8, 'a' as u8, 'l' as u8];
    let (q, a, pk): (&[u8], &[u8], &[u8]) = (&qa, &aa, &pa);
    proof {
        lemma_ascii_valid(q@);
        lemma_ascii_valid(a@);
        assert(pk@ == partial_key());
    }
    let qb = str_bytes(qs);
    let mut out: Vec<u8> = if qb.len() == 0 {
        lit(q)
    } else {
        let mut v = lit(qb);
        push_valid(&mut v, a);
        v
    };
    let tail = key_eq(pk, str_bytes(mode));
    push_valid(&mut out, tail.as_slice());
    assert(out@ =~= with_partial_spec(sbytes(qs@), sbytes(mode@)));
    string_from_valid(out)
}

/// `<route><query>`.
fn route_with(route: &str, query: &String) -> (r: String)
    ensures
        sbytes(r@) == sbytes(route@) + sbytes(query@),
{
    let mut out = lit(str_bytes(route));
    push_valid(&mut out, string_bytes(query));
    string_from_valid(out)
}

/// The direction a click on a column heading asks for: `desc` when the
/// listing is already sorted ascending on that column, `asc` otherwise.
pub open spec fn next_direction(q: ListQuery, col: Seq<u8>) -> Seq<u8> {
    if sbytes(q.sort_col@) == col && sbytes(q.sort_dir@) == asc_word() {
        desc_word()
    } else {
        asc_word()
    }
}

impl ListQuery {
    /// The link of a column heading: the listing sorted on `col` (flipping an
    /// ascending sort on it to descending), asking for the grid alone.
    pub fn sort_link(&self, route: &str, col: &str) -> (r: String)
        ensures
            sbytes(r@) == sbytes(route@) + with_partial_spec(
                query_string(
                    state_params(*self, None, Some((sbytes(col@), next_direction(*self, sbytes(col@))))),
                ),
                matrix_word(),
            ),
    {
        let aa: [u8; 3] = ['a' as u8, 's' as u8, 'c' as u8];
        let da: [u8; 4] = ['d' as u8, 'e' as u8, 's' as u8, 'c' as u8];
        let ma: [u8; 6] = ['m' as u8, 'a' as u8, 't' as u8, 'r' as u8, 'i' as u8, 'x' as u8];
        let (asc, desc, matrix): (&[u8], &[u8], &[u8]) = (&aa, &da, &ma);
        proof {
            assert(asc@ == asc_word());
            assert(desc@ == desc_word());
            assert(matrix@ == matrix_word());
            lemma_ascii_valid(asc@);
            lemma_ascii_valid(desc@);
            lemma_ascii_valid(matrix@);
        }
        let cb = str_bytes(col);
        let flip = bytes_equal(string_bytes(&self.sort_col), cb) && bytes_equal(
            string_bytes(&self.sort_dir),
            asc,
        );
        let dir = if flip {
            string_from_valid(lit(desc))
        } else {
            string_from_valid(lit(asc))
        };
        let qs = self.query_string(None, Some((str_to_string(col), dir)));
        let m = string_from_valid(lit(matrix));
        proof {
            lemma_chars_of(m@, matrix_word());
        }
        let tail = with_partial(qs.as_str(), m.as_str());
        route_with(route, &tail)
    }

    /// The link to page `target` (0-based) of the listing, asking for the grid alone.
    pub fn page_url(&self, route: &str, target: u64) -> (r: String)
        ensures
            sbytes(r@) == sbytes(route@) + with_partial_spec(
                query_string(state_params(*self, Some(target), None)),
                matrix_word(),
            ),
    {
        let ma: [u8; 6] = ['m' as u8, 'a' as u8, 't' as u8, 'r' as u8, 'i' as u8, 'x' as u8];
        let matrix: &[u8] = &ma;
        proof {
            assert(matrix@ == matrix_word());
            lemma_ascii_valid(matrix@);
        }
        let qs = self.query_string(Some(target), None);
        let m = string_from_valid(lit(matrix));
        let tail = with_partial(qs.as_str(), m.as_str());
        route_with(route, &tail)
    }

    /// The link the infinite-scroll row fetches: the next page's rows.
    pub fn more_rows_url(&self, route: &str) -> (r: String)
        requires
            self.page < u64::MAX,
        ensures
            sbytes(r@) == sbytes(route@) + with_partial_spec(
                query_string(state_params(*self, Some((self.page + 1) as u64), None)),
                rows_word(),
            ),
    {
        let ra: [u8; 4] = ['r' as u8, 'o' as u8, 'w' as u8, 's' as u8];
        let rows: &[u8] = &ra;
        proof {
            assert(rows@ == rows_word());
            lemma_ascii_valid(rows@);
        }
        let qs = self.query_string(Some(self.page + 1), None);
        let m = string_from_valid(lit(rows));
        let tail = with_partial(qs.as_str(), m.as_str());
        route_with(route, &tail)
    }

    /// Does the grid end in a row that fetches more rows when scrolled into
    /// view?  Only with infinite scrolling on and pages left after this one.
    pub fn has_more_rows(&self, total_pages: u64) -> (r: bool)
        requires
            self.page < u64::MAX,
        ensures
            r == (self.infinite_scroll && self.page + 1 < total_pages),
    {
        self.infinite_scroll && self.page + 1 < total_pages
    }

    /// The number of active filters shown in the filter bar: the column
    /// filters, and one more for a search.
    pub fn active_filter_count(&self) -> (r: usize)
        requires
            self.filters@.len() < usize::MAX,
        ensures
            r == self.filters@.len() + if self.search is Some { 1int } else { 0int },
    {
        self.filters.len() + if self.search.is_some() {
            1
        } else {
            0
        }
    }

    /// The query string of the "go to page" box: filters, search, sort, scroll
    /// mode and `partial=matrix`, with no page (the box supplies it).
    pub fn jump_base_query(&self) -> (r: String)
        ensures
            sbytes(r@) == query_string(
                filter_params(filters_view(self.filters@)) + search_params(opt_bytes(self.search))
                    + sort_params(sbytes(self.sort_col@), sbytes(self.sort_dir@)) + seq![
                    infinite_param(self.infinite_scroll),
                    partial_key() + eq_sign() + matrix_word(),
                ],
            ),
    {
        let mut parts: Vec<Vec<u8>> = Vec::new();
        assert(parts_view(parts@) =~= Seq::<Seq<u8>>::empty());
        push_filter_params(&mut parts, &self.filters);
        push_search_param(&mut parts, &self.search);
        push_sort_params(&mut parts, &self.sort_col, &self.sort_dir);
        push_infinite_param(&mut parts, self.infinite_scroll);
        let pa: [u8; 7] = ['p' as u8, 'a' as u8, 'r' as u8, 't' as u8, 'i' as u8, 'a' as u8, 'l' as u8];
        let ma: [u8; 6] = ['m' as u8, 'a' as u8, 't' as u8, 'r' as u8, 'i' as u8, 'x' as u8];
        let (pk, matrix): (&[u8], &[u8]) = (&pa, &ma);
        proof {
            assert(pk@ == partial_key());
            assert(matrix@ == matrix_word());
            lemma_ascii_valid(matrix@);
        }
        push_part(&mut parts, key_eq(pk, matrix));
        assert(parts_view(parts@) =~= filter_params(filters_view(self.filters@)) + search_params(
            opt_bytes(self.search),
        ) + sort_params(sbytes(self.sort_col@), sbytes(self.sort_dir@)) + seq![
            infinite_param(self.infinite_scroll),
            partial_key() + eq_sign() + matrix_word(),
        ]);
        render_query(&parts)
    }
}

/// The query string of the export link: the filters and the search, nothing else.
pub fn export_query_string(filters: &Vec<ColumnFilter>, search: &Option<String>) -> (r: String)
    ensures
        sbytes(r@) == query_string(
            filter_params(filters_view(filters@)) + search_params(opt_bytes(*search)),
        ),
{
    let mut parts: Vec<Vec<u8>> = Vec::new();
    assert(parts_view(parts@) =~= Seq::<Seq<u8>>::empty());
    push_filter_params(&mut parts, filters);
    push_search_param(&mut parts, search);
    assert(parts_view(parts@) =~= filter_params(filters_view(filters@)) + search_params(
        opt_bytes(*search),
    ));
    render_query(&parts)
}

/// How much of the listing page a request asks for.
#[derive(PartialEq, Eq, Structural, Clone, Copy, Debug)]
pub enum RenderMode {
    /// `partial=rows`: the next chunk of rows for infinite scrolling.
    Rows,
    /// `partial=matrix`: the grid with its filter bar, replacing the current one.
    Matrix,
    /// Anything else: the full workspace view.
    Full,
}

impl ListQuery {
    /// The part of the page to render, from `partial`.
    pub fn render_mode(&self) -> (r: RenderMode)
        ensures
            r == (if sbytes(self.partial@) == rows_word() {
                RenderMode::Rows
            } else if sbytes(self.partial@) == matrix_word() {
                RenderMode::Matrix
            } else {
                RenderMode::Full
            }),
    {
        let ra: [u8; 4] = ['r' as u8, 'o' as u8, 'w' as u8, 's' as u8];
        let ma: [u8; 6] = ['m' as u8, 'a' as u8, 't' as u8, 'r' as u8, 'i' as u8, 'x' as u8];
        let (rows, matrix): (&[u8], &[u8]) = (&ra, &ma);
        assert(rows@ == rows_word());
        assert(matrix@ == matrix_word());
        let p = string_bytes(&self.partial);
        if bytes_equal(p, rows) {
            RenderMode::Rows
        } else if bytes_equal(p, matrix) {
            RenderMode::Matrix
        } else {
            RenderMode::Full
        }
    }
}

/// The comparisons a column filter can ask for.
#[derive(PartialEq, Eq, Structural, Clone, Copy, Debug)]
pub enum FilterOp {
    Eq,
    Ne,
    Gt,
    Gte,
    Lt,
    Lte,
    Contains,
    StartsWith,
    EndsWith,
    IsNull,
    IsNotNull,
}

/// The operator a filter's `op` names, if any.
pub open spec fn filter_op_of(op: Seq<u8>) -> Option<FilterOp> {
    if op == seq!['e' as u8, 'q' as u8] {
        Some(FilterOp::Eq)
    } else if op == seq!['n' as u8, 'e' as u8] {
        Some(FilterOp::Ne)
    } else if op == seq!['g' as u8, 't' as u8] {
        Some(FilterOp::Gt)
    } else if op == seq!['g' as u8, 't' as u8, 'e' as u8] {
        Some(FilterOp::Gte)
    } else if op == seq!['l' as u8, 't' as u8] {
        Some(FilterOp::Lt)
    } else if op == seq!['l' as u8, 't' as u8, 'e' as u8] {
        Some(FilterOp::Lte)
    } else if op == seq!['c' as u8, 'o' as u8, 'n' as u8, 't' as u8, 'a' as u8, 'i' as u8, 'n' as u8, 's' as u8] {
        Some(FilterOp::Contains)
    } else if op == seq![
        's' as u8, 't' as u8, 'a' as u8, 'r' as u8, 't' as u8, 's' as u8, 'w' as u8, 'i' as u8,
        't' as u8, 'h' as u8,
    ] {
        Some(FilterOp::StartsWith)
    } else if op == seq!['e' as u8, 'n' as u8, 'd' as u8, 's' as u8, 'w' as u8, 'i' as u8, 't' as u8, 'h' as u8] {
        Some(FilterOp::EndsWith)
    } else if op == is_null_word() {
        Some(FilterOp::IsNull)
    } else if op == is_not_null_word() {
        Some(FilterOp::IsNotNull)
    } else {
        None
    }
}

impl FilterOp {
    /// Reads a filter's operator; an unknown one applies no condition.
    pub fn parse(op: &str) -> (r: Option<FilterOp>)
        ensures
            r == filter_op_of(sbytes(op@)),
    {
        let b = str_bytes(op);
        let eq: [u8; 2] = ['e' as u8, 'q' as u8];
        let ne: [u8; 2] = ['n' as u8, 'e' as u8];
        let gt: [u8; 2] = ['g' as u8, 't' as u8];
        let gte: [u8; 3] = ['g' as u8, 't' as u8, 'e' as u8];
        let lt: [u8; 2] = ['l' as u8, 't' as u8];
        let lte: [u8; 3] = ['l' as u8, 't' as u8, 'e' as u8];
        let contains: [u8; 8] = ['c' as u8, 'o' as u8, 'n' as u8, 't' as u8, 'a' as u8, 'i' as u8, 'n' as u8, 's' as u8];
        let starts: [u8; 10] = [
            's' as u8, 't' as u8, 'a' as u8, 'r' as u8, 't' as u8, 's' as u8, 'w' as u8, 'i' as u8,
            't' as u8, 'h' as u8,
        ];
        let ends: [u8; 8] = ['e' as u8, 'n' as u8, 'd' as u8, 's' as u8, 'w' as u8, 'i' as u8, 't' as u8, 'h' as u8];
        let null: [u8; 7] = ['i' as u8, 's' as u8, '_' as u8, 'n' as u8, 'u' as u8, 'l' as u8, 'l' as u8];
        let not_null: [u8; 11] = [
            'i' as u8, 's' as u8, '_' as u8, 'n' as u8, 'o' as u8, 't' as u8, '_' as u8, 'n' as u8,
            'u' as u8, 'l' as u8, 'l' as u8,
        ];
        if bytes_equal(b, &eq) {
            Some(FilterOp::Eq)
        } else if bytes_equal(b, &ne) {
            Some(FilterOp::Ne)
        } else if bytes_equal(b, &gt) {
            Some(FilterOp::Gt)
        } else if bytes_equal(b, &gte) {
            Some(FilterOp::Gte)
        } else if bytes_equal(b, &lt) {
            Some(FilterOp::Lt)
        } else if bytes_equal(b, &lte) {
            Some(FilterOp::Lte)
        } else if bytes_equal(b, &contains) {
            Some(FilterOp::Contains)
        } else if bytes_equal(b, &starts) {
            Some(FilterOp::StartsWith)
        } else if bytes_equal(b, &ends) {
            Some(FilterOp::EndsWith)
        } else if bytes_equal(b, &null) {
            Some(FilterOp::IsNull)
        } else if bytes_equal(b, &not_null) {
            Some(FilterOp::IsNotNull)
        } else {
            None
        }
    }
}

/// A listing never filters on an untouched column: every filter it keeps has
/// an operator, and a value unless the operator is a null test.
pub proof fn lemma_list_filters_restrict(keys: Seq<Seq<char>>, m: QueryView)
    ensures
        forall|i: int|
            0 <= i < list_filters(keys, m).len() ==> keeps_filter(
                (#[trigger] list_filters(keys, m)[i]).1,
                list_filters(keys, m)[i].2,
            ),
    decreases keys.len(),
{
    if keys.len() > 0 {
        lemma_list_filters_restrict(keys.drop_last(), m);
        let rest = list_filters(keys.drop_last(), m);
        let all = list_filters(keys, m);
        assert forall|i: int| 0 <= i < all.len() implies keeps_filter(
            (#[trigger] all[i]).1,
            all[i].2,
        ) by {
            if i < rest.len() {
                assert(all[i] == rest[i]);
            }
        }
    }
}

// ------------------------------------------------------------------
// What the listing fetches
// ------------------------------------------------------------------
/// Rows per page of a listing.
pub const LIST_PAGE_SIZE: u64 = 15;

/// How a listing is ordered.
pub enum SortPlan {
    /// By the sort column, ascending only when the direction says `asc`.
    Column { column: String, ascending: bool },
    /// Newest first: by the key, descending.
    KeyDescending,
}

impl ListQuery {
    /// The order of the listing: by the sort column when it names a column
    /// of the model (`known`), ascending exactly when the direction is `asc`
    /// and descending otherwise; else by the key, descending.
    pub fn sort_plan(&self, known: bool) -> (r: SortPlan)
        ensures
            known ==> (r matches SortPlan::Column { column, ascending } && column@ == self.sort_col@
                && ascending == (self.sort_dir@ == "asc"@)),
            !known ==> r is KeyDescending,
    {
        if known {
            let ascending = crate::admin::auth::same_text(self.sort_dir.as_str(), "asc");
            SortPlan::Column { column: str_to_string(self.sort_col.as_str()), ascending }
        } else {
            SortPlan::KeyDescending
        }
    }

    /// The rows the listing fetches: `LIST_PAGE_SIZE` rows starting at row
    /// `page * LIST_PAGE_SIZE`, as (offset, limit); `None` when the offset
    /// does not fit in a `u64`.
    pub fn page_rows(&self) -> (r: Option<(u64, u64)>)
        ensures
            self.page * LIST_PAGE_SIZE <= u64::MAX ==> r == Some(
                ((self.page * LIST_PAGE_SIZE) as u64, LIST_PAGE_SIZE),
            ),
            self.page * LIST_PAGE_SIZE > u64::MAX ==> r is None,
    {
        match self.page.checked_mul(LIST_PAGE_SIZE) {
            Some(offset) => Some((offset, LIST_PAGE_SIZE)),
            None => None,
        }
    }
}

} // verus!

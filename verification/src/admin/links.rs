//! The links of the admin grid carry a listing's state: the query a link
//! writes for a listing, read again as a request, gives that listing back.
use crate::admin::list_query::{
    bool_word, decimal, decoded, desc_word, direction_key, filter_params, filter_prefix,
    filters_view, first_value, infinite_key, is_not_null_word, is_null_word, keeps_filter,
    list_filters, list_infinite, list_page, list_query_is, list_search, op_column, op_suffix,
    opt_bytes, page_key, page_params, partial_key, search_key, search_params, sort_key,
    sort_params, state_params, true_word, false_word, value_key, value_or, value_suffix,
    query_string, with_partial_spec,
    FilterView, ListQuery, QueryView,
};
use crate::http::request::{
    carried, keys_read, lemma_query_reads_back_params, pairs_keys, pairs_read, param_text,
    params_text, parse_pairs_spec, percent_decode_spec, plain_key, query_keys_of, query_of,
};
use crate::lex::{all_digits, digits_value, join, parse_u64_spec, split_on, unsigned_literal};
use crate::security::{lemma_url_escape_unambiguous, url_escape, url_unescape, url_unreserved};
use crate::text::{has_byte, sbytes};
use vstd::prelude::*;
use vstd::utf8::{decode_utf8, valid_utf8};

verus! {

broadcast use {
    vstd::utf8::encode_utf8_valid_utf8,
    vstd::utf8::encode_utf8_decode_utf8,
    vstd::utf8::decode_utf8_encode_utf8,
    vstd::utf8::valid_utf8_concat,
};

// ------------------------------------------------------------------
// The parameters of a link, as key and written text
// ------------------------------------------------------------------
/// The key `filter__<col>__op`.
pub open spec fn op_key(col: Seq<u8>) -> Seq<u8> {
    filter_prefix() + col + op_suffix()
}

/// A null test takes no value.
pub open spec fn null_test(op: Seq<u8>) -> bool {
    op == is_null_word() || op == is_not_null_word()
}

/// The filter parameters `filter_params` writes, as key and text.
pub open spec fn filter_pairs(fs: Seq<FilterView>) -> Seq<(Seq<u8>, Seq<u8>)>
    decreases fs.len(),
{
    if fs.len() == 0 {
        seq![]
    } else {
        let f = fs.last();
        let with_op = filter_pairs(fs.drop_last()).push((op_key(f.0), f.1));
        if null_test(f.1) {
            with_op
        } else {
            with_op.push((value_key(f.0), url_escape(f.2)))
        }
    }
}

/// The search parameter, as key and text.
pub open spec fn search_pairs(s: Option<Seq<u8>>) -> Seq<(Seq<u8>, Seq<u8>)> {
    match s {
        Some(v) => seq![(search_key(), url_escape(v))],
        None => seq![],
    }
}

/// The sort parameters, as key and text.
pub open spec fn sort_pairs(col: Seq<u8>, dir: Seq<u8>) -> Seq<(Seq<u8>, Seq<u8>)> {
    if col.len() == 0 {
        seq![]
    } else {
        seq![(sort_key(), col), (direction_key(), dir)]
    }
}

/// The sort a link writes: the one it asks for, or the listing's own.
pub open spec fn link_sort(q: ListQuery, so: Option<(Seq<u8>, Seq<u8>)>) -> (Seq<u8>, Seq<u8>) {
    match so {
        Some(cd) => cd,
        None => (sbytes(q.sort_col@), sbytes(q.sort_dir@)),
    }
}

/// The page a link asks for: the one given, or the listing's own.
pub open spec fn link_page(po: Option<u64>, page: u64) -> u64 {
    match po {
        Some(p) => p,
        None => page,
    }
}

/// The page parameter of a link: the page given, else the current page
/// unless it is the first.
pub open spec fn page_pairs(po: Option<u64>, page: u64) -> Seq<(Seq<u8>, Seq<u8>)> {
    match po {
        Some(p) => seq![(page_key(), decimal(p as nat))],
        None => if page > 0 {
            seq![(page_key(), decimal(page as nat))]
        } else {
            seq![]
        },
    }
}

/// The `partial` parameter of a link, as key and text.
pub open spec fn partial_pairs(mode: Option<Seq<u8>>) -> Seq<(Seq<u8>, Seq<u8>)> {
    match mode {
        Some(md) => seq![(partial_key(), md)],
        None => seq![],
    }
}

/// The parameters other than the filters.
pub open spec fn other_pairs(
    q: ListQuery,
    po: Option<u64>,
    so: Option<(Seq<u8>, Seq<u8>)>,
    mode: Option<Seq<u8>>,
) -> Seq<(Seq<u8>, Seq<u8>)> {
    search_pairs(opt_bytes(q.search)) + seq![(infinite_key(), bool_word(q.infinite_scroll))]
        + sort_pairs(link_sort(q, so).0, link_sort(q, so).1) + page_pairs(po, q.page)
        + partial_pairs(mode)
}

/// The parameters of a link for a listing, as key and text: its filters,
/// search and scroll mode, the sort and page the link asks for, and the part
/// of the page it asks for.
pub open spec fn link_pairs(
    q: ListQuery,
    po: Option<u64>,
    so: Option<(Seq<u8>, Seq<u8>)>,
    mode: Option<Seq<u8>>,
) -> Seq<(Seq<u8>, Seq<u8>)> {
    filter_pairs(filters_view(q.filters@)) + other_pairs(q, po, so, mode)
}

/// The query string of a link: what `ListQuery::query_string` writes, with
/// `partial` added by `with_partial` where a part of the page is asked for.
pub open spec fn link_text(
    q: ListQuery,
    po: Option<u64>,
    so: Option<(Seq<u8>, Seq<u8>)>,
    mode: Option<Seq<u8>>,
) -> Seq<u8> {
    let qs = query_string(state_params(q, po, so));
    match mode {
        Some(md) => with_partial_spec(qs, md),
        None => qs,
    }
}

// ------------------------------------------------------------------
// Small facts about bytes
// ------------------------------------------------------------------
/// Lower-case letters and `_`.
pub open spec fn word(w: Seq<u8>) -> bool {
    forall|i: int| 0 <= i < w.len() ==> 95 <= #[trigger] w[i] <= 122
}

/// A text that reads back as itself: UTF-8 without `%`, `+` or `&`.
pub open spec fn plain_text(t: Seq<u8>) -> bool {
    valid_utf8(t) && !has_byte(t, 37) && !has_byte(t, 43) && !has_byte(t, 38)
}

proof fn lemma_word(w: Seq<u8>)
    requires
        word(w),
    ensures
        plain_key(w),
        plain_text(w),
{
    crate::text::lemma_ascii_valid(w);
}

proof fn lemma_no_byte_concat(a: Seq<u8>, b: Seq<u8>, c: u8)
    requires
        !has_byte(a, c),
        !has_byte(b, c),
    ensures
        !has_byte(a + b, c),
{
    if has_byte(a + b, c) {
        let i = choose|i: int| 0 <= i < (a + b).len() && (a + b)[i] == c;
        if i < a.len() {
            assert((a + b)[i] == a[i]);
        } else {
            assert((a + b)[i] == b[i - a.len()]);
        }
    }
}

/// Plain keys stay plain when joined.
proof fn lemma_plain_key_concat(a: Seq<u8>, b: Seq<u8>)
    requires
        plain_key(a),
        plain_key(b),
    ensures
        plain_key(a + b),
{
    lemma_no_byte_concat(a, b, 37);
    lemma_no_byte_concat(a, b, 43);
    lemma_no_byte_concat(a, b, 38);
    lemma_no_byte_concat(a, b, 61);
}

proof fn lemma_words()
    ensures
        word(filter_prefix()),
        word(op_suffix()),
        word(value_suffix()),
        word(search_key()),
        word(infinite_key()),
        word(sort_key()),
        word(direction_key()),
        word(page_key()),
        word(true_word()),
        word(false_word()),
{
}

/// The encoded text holds no `&`.
proof fn lemma_escape_no_amp(v: Seq<u8>)
    ensures
        !has_byte(url_escape(v), 38),
{
    lemma_url_escape_unambiguous(v);
    if has_byte(url_escape(v), 38) {
        let i = choose|i: int| 0 <= i < url_escape(v).len() && url_escape(v)[i] == 38;
        assert(url_unreserved(url_escape(v)[i]) || url_escape(v)[i] == 37);
    }
}

// ------------------------------------------------------------------
// The written parameters are the ones `state_params` lists
// ------------------------------------------------------------------
proof fn lemma_filter_texts(fs: Seq<FilterView>)
    ensures
        params_text(filter_pairs(fs)) == filter_params(fs),
    decreases fs.len(),
{
    if fs.len() > 0 {
        let f = fs.last();
        lemma_filter_texts(fs.drop_last());
        let base = filter_pairs(fs.drop_last());
        assert(params_text(base.push((op_key(f.0), f.1))) =~= params_text(base).push(
            param_text((op_key(f.0), f.1)),
        ));
        assert(param_text((op_key(f.0), f.1)) =~= filter_prefix() + f.0 + op_suffix() + seq![
            '=' as u8,
        ] + f.1);
        if !null_test(f.1) {
            let with_op = base.push((op_key(f.0), f.1));
            assert(params_text(with_op.push((value_key(f.0), url_escape(f.2)))) =~= params_text(
                with_op,
            ).push(param_text((value_key(f.0), url_escape(f.2)))));
            assert(param_text((value_key(f.0), url_escape(f.2))) =~= filter_prefix() + f.0
                + value_suffix() + seq!['=' as u8] + url_escape(f.2));
        }
    }
}

proof fn lemma_params_text_concat(a: Seq<(Seq<u8>, Seq<u8>)>, b: Seq<(Seq<u8>, Seq<u8>)>)
    ensures
        params_text(a + b) == params_text(a) + params_text(b),
{
    assert(params_text(a + b) =~= params_text(a) + params_text(b));
}

/// Joining one more piece adds the separator and the piece.
proof fn lemma_join_push(parts: Seq<Seq<u8>>, x: Seq<u8>, sep: Seq<u8>)
    requires
        parts.len() > 0,
    ensures
        join(parts.push(x), sep) == join(parts, sep) + sep + x,
{
    assert(parts.push(x).drop_last() =~= parts);
}

/// The link's query string is `?` and its parameters, written out, joined by `&`.
pub proof fn lemma_link_text(
    q: ListQuery,
    po: Option<u64>,
    so: Option<(Seq<u8>, Seq<u8>)>,
    mode: Option<Seq<u8>>,
)
    ensures
        link_text(q, po, so, mode) == seq![63u8] + join(
            params_text(link_pairs(q, po, so, mode)),
            seq![38u8],
        ),
{
    let fs = filters_view(q.filters@);
    let fp = filter_pairs(fs);
    let sp = search_pairs(opt_bytes(q.search));
    let ip = seq![(infinite_key(), bool_word(q.infinite_scroll))];
    let so2 = sort_pairs(link_sort(q, so).0, link_sort(q, so).1);
    let pp = page_pairs(po, q.page);
    let mp = partial_pairs(mode);
    let st = fp + (sp + ip + so2 + pp);
    lemma_filter_texts(fs);
    lemma_params_text_concat(fp, sp + ip + so2 + pp);
    lemma_params_text_concat(sp, ip + so2 + pp);
    lemma_params_text_concat(ip, so2 + pp);
    lemma_params_text_concat(so2, pp);
    assert(sp + (ip + so2 + pp) =~= sp + ip + so2 + pp);
    assert(params_text(sp) =~= search_params(opt_bytes(q.search)));
    assert(params_text(ip) =~= seq![
        crate::admin::list_query::infinite_param(q.infinite_scroll),
    ]);
    assert(params_text(so2) =~= sort_params(link_sort(q, so).0, link_sort(q, so).1));
    assert(params_text(pp) =~= page_params(po, q.page));
    let sps = state_params(q, po, so);
    assert(params_text(st) =~= sps);
    assert(sps.len() > 0);
    assert(link_pairs(q, po, so, mode) =~= st + mp);
    lemma_params_text_concat(st, mp);
    match mode {
        Some(md) => {
            assert(params_text(mp) =~= seq![param_text((partial_key(), md))]);
            assert(sps + params_text(mp) =~= sps.push(param_text((partial_key(), md))));
            lemma_join_push(sps, param_text((partial_key(), md)), seq![38u8]);
        },
        None => {
            assert(params_text(mp) =~= Seq::<Seq<u8>>::empty());
            assert(sps + params_text(mp) =~= sps);
        },
    }
}

// ------------------------------------------------------------------
// Reading parameters back
// ------------------------------------------------------------------
/// Every key is UTF-8.
pub open spec fn keys_valid(ps: Seq<(Seq<u8>, Seq<u8>)>) -> bool {
    forall|i: int| 0 <= i < ps.len() ==> valid_utf8(#[trigger] ps[i].0)
}

/// No key occurs twice.
pub open spec fn keys_distinct(ps: Seq<(Seq<u8>, Seq<u8>)>) -> bool {
    forall|i: int, j: int| 0 <= i < j < ps.len() ==> (#[trigger] ps[i]).0 != (#[trigger] ps[j]).0
}

/// The keys, decoded.
pub open spec fn key_chars(ps: Seq<(Seq<u8>, Seq<u8>)>) -> Seq<Seq<char>> {
    ps.map_values(|p: (Seq<u8>, Seq<u8>)| decode_utf8(p.0))
}

/// A key that no parameter has is not read.
proof fn lemma_read_absent(ps: Seq<(Seq<u8>, Seq<u8>)>, k: Seq<u8>)
    requires
        valid_utf8(k),
        keys_valid(ps),
        forall|i: int| 0 <= i < ps.len() ==> (#[trigger] ps[i]).0 != k,
    ensures
        !pairs_read(ps).contains_key(decode_utf8(k)),
    decreases ps.len(),
{
    if ps.len() > 0 {
        let init = ps.drop_last();
        let kl = ps[ps.len() - 1].0;
        assert(kl != k);
        assert(valid_utf8(kl));
        assert(decode_utf8(kl) != decode_utf8(k)) by {
            if decode_utf8(kl) == decode_utf8(k) {
                assert(vstd::utf8::encode_utf8(decode_utf8(kl)) == kl);
                assert(vstd::utf8::encode_utf8(decode_utf8(k)) == k);
            }
        }
        assert forall|i: int| 0 <= i < init.len() implies (#[trigger] init[i]).0 != k by {
            assert(init[i] == ps[i]);
        }
        assert forall|i: int| 0 <= i < init.len() implies valid_utf8(#[trigger] init[i].0) by {
            assert(init[i] == ps[i]);
        }
        lemma_read_absent(init, k);
    }
}

/// The first value read under a key is the text of its first parameter.
proof fn lemma_read_first(ps: Seq<(Seq<u8>, Seq<u8>)>, i: int)
    requires
        0 <= i < ps.len(),
        keys_valid(ps),
        forall|j: int| 0 <= j < i ==> (#[trigger] ps[j]).0 != ps[i].0,
    ensures
        pairs_read(ps).contains_key(decode_utf8(ps[i].0)),
        pairs_read(ps)[decode_utf8(ps[i].0)].len() > 0,
        pairs_read(ps)[decode_utf8(ps[i].0)][0] == decode_utf8(percent_decode_spec(ps[i].1)),
    decreases ps.len(),
{
    let init = ps.drop_last();
    let k = ps[i].0;
    assert(valid_utf8(k));
    assert forall|j: int| 0 <= j < init.len() implies valid_utf8(#[trigger] init[j].0) by {
        assert(init[j] == ps[j]);
    }
    if i == ps.len() - 1 {
        assert forall|j: int| 0 <= j < init.len() implies (#[trigger] init[j]).0 != k by {
            assert(init[j] == ps[j]);
        }
        lemma_read_absent(init, k);
    } else {
        assert(init[i] == ps[i]);
        assert forall|j: int| 0 <= j < i implies (#[trigger] init[j]).0 != init[i].0 by {
            assert(init[j] == ps[j]);
        }
        lemma_read_first(init, i);
        assert(valid_utf8(ps[ps.len() - 1].0));
    }
}

/// With no key repeated, the keys are read in the order written.
proof fn lemma_keys_in_order(ps: Seq<(Seq<u8>, Seq<u8>)>)
    requires
        keys_valid(ps),
        keys_distinct(ps),
    ensures
        keys_read(ps) == key_chars(ps),
    decreases ps.len(),
{
    if ps.len() > 0 {
        let init = ps.drop_last();
        let k = ps[ps.len() - 1].0;
        assert(valid_utf8(k));
        assert forall|j: int| 0 <= j < init.len() implies valid_utf8(#[trigger] init[j].0) by {
            assert(init[j] == ps[j]);
        }
        assert forall|j: int| 0 <= j < init.len() implies (#[trigger] init[j]).0 != k by {
            assert(init[j] == ps[j]);
        }
        assert forall|a: int, b: int| 0 <= a < b < init.len() implies (#[trigger] init[a]).0 != (
        #[trigger] init[b]).0 by {
            assert(init[a] == ps[a]);
            assert(init[b] == ps[b]);
        }
        lemma_read_absent(init, k);
        lemma_keys_in_order(init);
        assert(key_chars(ps) =~= key_chars(init).push(decode_utf8(k)));
    }
}

/// Keys that name no filter operator do not change the filters read.
proof fn lemma_filters_skip(k1: Seq<Seq<char>>, k2: Seq<Seq<char>>, m: QueryView)
    requires
        forall|i: int| 0 <= i < k2.len() ==> op_column(sbytes(#[trigger] k2[i])) is None,
    ensures
        list_filters(k1 + k2, m) == list_filters(k1, m),
    decreases k2.len(),
{
    if k2.len() == 0 {
        assert(k1 + k2 =~= k1);
    } else {
        assert((k1 + k2).drop_last() =~= k1 + k2.drop_last());
        assert((k1 + k2).last() == k2[k2.len() - 1]);
        lemma_filters_skip(k1, k2.drop_last(), m);
    }
}

/// Text without `%` comes out of `urlencoding::decode` unchanged.
proof fn lemma_unescape_plain(b: Seq<u8>)
    requires
        !has_byte(b, 37),
    ensures
        url_unescape(b) == b,
    decreases b.len(),
{
    if b.len() > 0 {
        let rest = b.subrange(1, b.len() as int);
        assert(b[0] != 37);
        assert(!has_byte(rest, 37)) by {
            if has_byte(rest, 37) {
                let i = choose|i: int| 0 <= i < rest.len() && rest[i] == 37;
                assert(b[i + 1] == rest[i]);
            }
        }
        lemma_unescape_plain(rest);
        assert(seq![b[0]] + rest =~= b);
    }
}

/// UTF-8 text without `%` is what the listing's second decoding leaves it.
proof fn lemma_decoded_plain(b: Seq<u8>)
    requires
        valid_utf8(b),
        !has_byte(b, 37),
    ensures
        decoded(b) == b,
{
    lemma_unescape_plain(b);
}

/// `page` reads back the number a link wrote.
proof fn lemma_decimal_reads_back(n: nat)
    ensures
        all_digits(decimal(n)),
        decimal(n).len() > 0,
        digits_value(decimal(n)) == n,
    decreases n,
{
    if n >= 10 {
        lemma_decimal_reads_back(n / 10);
        let d = decimal(n);
        let pre = decimal(n / 10);
        assert(d.drop_last() =~= pre);
        assert(d.last() == (48 + n % 10) as u8);
        assert(n == (n / 10) * 10 + n % 10);
        assert(((d.last() - 48) as nat) == n % 10);
        assert(digits_value(d) == digits_value(pre) * 10 + ((d.last() - 48) as nat));
        assert forall|i: int| 0 <= i < d.len() implies crate::lex::is_digit(#[trigger] d[i]) by {
            if i < pre.len() {
                assert(d[i] == pre[i]);
            }
        }
    } else {
        let d = decimal(n);
        assert(d.drop_last() =~= Seq::<u8>::empty());
        assert(digits_value(d.drop_last()) == 0);
        assert(((d.last() - 48) as nat) == n);
        assert(digits_value(d) == digits_value(d.drop_last()) * 10 + ((d.last() - 48) as nat));
    }
}

proof fn lemma_page_text(n: nat)
    requires
        n <= u64::MAX,
    ensures
        parse_u64_spec(decimal(n)) == Some(n as u64),
        plain_text(decimal(n)),
{
    lemma_decimal_reads_back(n);
    let d = decimal(n);
    assert(d[0] != 43);
    assert(unsigned_literal(d) == Some(n));
    assert forall|i: int| 0 <= i < d.len() implies #[trigger] d[i] < 128 by {
        assert(crate::lex::is_digit(d[i]));
    }
    crate::text::lemma_ascii_valid(d);
    assert forall|i: int| 0 <= i < d.len() implies #[trigger] d[i] != 37 && d[i] != 43 && d[i] != 38 by {
        assert(crate::lex::is_digit(d[i]));
    }
}

// ------------------------------------------------------------------
// The filter parameters
// ------------------------------------------------------------------
/// A filter a link carries back unchanged: a plain column and operator, a
/// value without `%` (the listing decodes values a second time), one that
/// restricts something, and no value on a null test.
pub open spec fn filter_restorable(f: FilterView) -> bool {
    &&& plain_key(f.0)
    &&& plain_text(f.1)
    &&& valid_utf8(f.2)
    &&& !has_byte(f.2, 37)
    &&& keeps_filter(f.1, f.2)
    &&& null_test(f.1) ==> f.2.len() == 0
}

/// No column is filtered twice.
pub open spec fn columns_distinct(fs: Seq<FilterView>) -> bool {
    forall|i: int, j: int| 0 <= i < j < fs.len() ==> (#[trigger] fs[i]).0 != (#[trigger] fs[j]).0
}

/// `k` is one of the two keys of column `c`.
pub open spec fn key_of_column(k: Seq<u8>, c: Seq<u8>) -> bool {
    k == op_key(c) || k == value_key(c)
}

/// The key of one column's operator is neither its value key nor a key of another column.
proof fn lemma_column_keys_differ(c: Seq<u8>, c2: Seq<u8>)
    ensures
        op_key(c) != value_key(c2),
        c != c2 ==> op_key(c) != op_key(c2),
        c != c2 ==> value_key(c) != value_key(c2),
        op_key(c).len() >= 12,
        value_key(c).len() >= 12,
{
    let a = op_key(c);
    let b = value_key(c2);
    assert(a[a.len() - 1] == 'p' as u8);
    assert(b[b.len() - 1] == 'e' as u8);
    if op_key(c) == op_key(c2) {
        assert(op_key(c).subrange(8, op_key(c).len() - 4) =~= c);
        assert(op_key(c2).subrange(8, op_key(c2).len() - 4) =~= c2);
    }
    if value_key(c) == value_key(c2) {
        assert(value_key(c).subrange(8, value_key(c).len() - 7) =~= c);
        assert(value_key(c2).subrange(8, value_key(c2).len() - 7) =~= c2);
    }
}

/// A value key names no operator, and an operator key names its column.
proof fn lemma_op_column_of(c: Seq<u8>)
    ensures
        op_column(op_key(c)) == Some(c),
        op_column(value_key(c)) is None,
{
    let a = op_key(c);
    let b = value_key(c);
    assert(a.subrange(0, 8) =~= filter_prefix());
    assert(a.subrange(a.len() - 4, a.len() as int) =~= op_suffix());
    assert(a.subrange(8, a.len() - 4) =~= c);
    let t = b.subrange(b.len() - 4, b.len() as int);
    assert(t[3] == b[b.len() - 1]);
    assert(t[3] != op_suffix()[3]);
}

/// The filter parameters: each key belongs to a filtered column, each
/// parameter can be carried, and no key occurs twice.
proof fn lemma_filter_pairs_shape(fs: Seq<FilterView>)
    requires
        forall|i: int| 0 <= i < fs.len() ==> filter_restorable(#[trigger] fs[i]),
        columns_distinct(fs),
    ensures
        forall|i: int|
            0 <= i < filter_pairs(fs).len() ==> exists|j: int|
                0 <= j < fs.len() && key_of_column((#[trigger] filter_pairs(fs)[i]).0, fs[j].0),
        forall|i: int| 0 <= i < filter_pairs(fs).len() ==> carried(#[trigger] filter_pairs(fs)[i]),
        forall|i: int| 0 <= i < filter_pairs(fs).len() ==> (#[trigger] filter_pairs(fs)[i]).0.len() >= 12,
        keys_distinct(filter_pairs(fs)),
    decreases fs.len(),
{
    if fs.len() > 0 {
        let init = fs.drop_last();
        let f = fs.last();
        let c = f.0;
        assert(filter_restorable(fs[fs.len() - 1]));
        assert forall|i: int| 0 <= i < init.len() implies filter_restorable(#[trigger] init[i]) by {
            assert(init[i] == fs[i]);
        }
        assert forall|i: int, j: int| 0 <= i < j < init.len() implies (#[trigger] init[i]).0 != (
        #[trigger] init[j]).0 by {
            assert(init[i] == fs[i]);
            assert(init[j] == fs[j]);
        }
        lemma_filter_pairs_shape(init);
        let base = filter_pairs(init);
        lemma_words();
        lemma_word(filter_prefix());
        lemma_word(op_suffix());
        lemma_word(value_suffix());
        lemma_plain_key_concat(filter_prefix(), c);
        lemma_plain_key_concat(filter_prefix() + c, op_suffix());
        lemma_plain_key_concat(filter_prefix() + c, value_suffix());
        lemma_escape_no_amp(f.2);
        lemma_column_keys_differ(c, c);
        assert forall|i: int| 0 <= i < base.len() implies (#[trigger] base[i]).0 != op_key(c)
            && base[i].0 != value_key(c) by {
            let j = choose|j: int| 0 <= j < init.len() && key_of_column(base[i].0, init[j].0);
            assert(init[j] == fs[j]);
            assert(fs[j].0 != fs[fs.len() - 1].0);
            lemma_column_keys_differ(c, init[j].0);
            lemma_column_keys_differ(init[j].0, c);
        }
        let with_op = base.push((op_key(c), f.1));
        assert forall|i: int|
            0 <= i < filter_pairs(fs).len() implies exists|j: int|
                0 <= j < fs.len() && key_of_column((#[trigger] filter_pairs(fs)[i]).0, fs[j].0) by {
            if i < base.len() {
                assert(filter_pairs(fs)[i] == base[i]);
                let j = choose|j: int| 0 <= j < init.len() && key_of_column(base[i].0, init[j].0);
                assert(init[j] == fs[j]);
            } else {
                assert(key_of_column(filter_pairs(fs)[i].0, fs[fs.len() - 1].0));
            }
        }
        assert forall|i: int| 0 <= i < filter_pairs(fs).len() implies carried(
            #[trigger] filter_pairs(fs)[i],
        ) && filter_pairs(fs)[i].0.len() >= 12 by {
            if i < base.len() {
                assert(filter_pairs(fs)[i] == base[i]);
            }
        }
        assert forall|a: int, b: int| 0 <= a < b < filter_pairs(fs).len() implies (
        #[trigger] filter_pairs(fs)[a]).0 != (#[trigger] filter_pairs(fs)[b]).0 by {
            if b < base.len() {
                assert(filter_pairs(fs)[a] == base[a]);
                assert(filter_pairs(fs)[b] == base[b]);
            } else if a < base.len() {
                assert(filter_pairs(fs)[a] == base[a]);
            }
        }
    }
}

/// What the filter lemmas assume of the filters and the parameters after them.
#[verifier::opaque]
pub open spec fn filters_then(fs: Seq<FilterView>, rest: Seq<(Seq<u8>, Seq<u8>)>) -> bool {
    &&& forall|i: int| 0 <= i < fs.len() ==> filter_restorable(#[trigger] fs[i])
    &&& columns_distinct(fs)
    &&& keys_valid(filter_pairs(fs) + rest)
    &&& keys_distinct(filter_pairs(fs) + rest)
    &&& forall|i: int, j: int|
        0 <= i < rest.len() && 0 <= j < fs.len() ==> (#[trigger] rest[i]).0 != value_key(
            (#[trigger] fs[j]).0,
        )
}

/// The parameters the last filter adds.
pub open spec fn last_filter_pairs(f: FilterView) -> Seq<(Seq<u8>, Seq<u8>)> {
    if null_test(f.1) {
        seq![(op_key(f.0), f.1)]
    } else {
        seq![(op_key(f.0), f.1), (value_key(f.0), url_escape(f.2))]
    }
}

proof fn lemma_filters_then_init(fs: Seq<FilterView>, rest: Seq<(Seq<u8>, Seq<u8>)>)
    requires
        fs.len() > 0,
        filters_then(fs, rest),
    ensures
        filter_pairs(fs) == filter_pairs(fs.drop_last()) + last_filter_pairs(fs.last()),
        filters_then(fs.drop_last(), last_filter_pairs(fs.last()) + rest),
        filter_restorable(fs.last()),
{
    reveal(filters_then);
    let init = fs.drop_last();
    let f = fs.last();
    let c = f.0;
    let new = last_filter_pairs(f);
    assert(filter_restorable(fs[fs.len() - 1]));
    assert forall|i: int| 0 <= i < init.len() implies filter_restorable(#[trigger] init[i]) by {
        assert(init[i] == fs[i]);
    }
    assert forall|i: int, j: int| 0 <= i < j < init.len() implies (#[trigger] init[i]).0 != (
    #[trigger] init[j]).0 by {
        assert(init[i] == fs[i]);
        assert(init[j] == fs[j]);
    }
    assert(filter_pairs(fs) =~= filter_pairs(init) + new);
    assert(filter_pairs(fs) + rest =~= filter_pairs(init) + (new + rest));
    assert forall|i: int, j: int|
        0 <= i < (new + rest).len() && 0 <= j < init.len() implies (#[trigger] (new + rest)[i]).0
        != value_key((#[trigger] init[j]).0) by {
        assert(init[j] == fs[j]);
        if i >= new.len() {
            assert((new + rest)[i] == rest[i - new.len()]);
        } else {
            assert(fs[j].0 != fs[fs.len() - 1].0);
            lemma_column_keys_differ(c, init[j].0);
        }
    }
}

/// The operator of the last filter is read back.
proof fn lemma_last_op_read(fs: Seq<FilterView>, rest: Seq<(Seq<u8>, Seq<u8>)>)
    requires
        fs.len() > 0,
        filters_then(fs, rest),
    ensures
        ({
            let m = pairs_read(filter_pairs(fs) + rest);
            let k = decode_utf8(op_key(fs.last().0));
            &&& op_column(sbytes(k)) == Some(fs.last().0)
            &&& m.contains_key(k)
            &&& m[k].len() > 0
            &&& decoded(sbytes(m[k][0])) == fs.last().1
        }),
{
    reveal(filters_then);
    lemma_filters_then_init(fs, rest);
    let f = fs.last();
    let c = f.0;
    let ps = filter_pairs(fs) + rest;
    let base = filter_pairs(fs.drop_last());
    let oi = base.len() as int;
    assert(ps[oi] == (op_key(c), f.1));
    assert forall|j: int| 0 <= j < oi implies (#[trigger] ps[j]).0 != ps[oi].0 by {}
    lemma_read_first(ps, oi);
    crate::http::request::lemma_percent_decode_plain(f.1);
    lemma_decoded_plain(f.1);
    lemma_op_column_of(c);
    assert(valid_utf8(op_key(c)));
}

/// The value of the last filter is read back; a null test has none.
proof fn lemma_last_value_read(fs: Seq<FilterView>, rest: Seq<(Seq<u8>, Seq<u8>)>)
    requires
        fs.len() > 0,
        filters_then(fs, rest),
    ensures
        ({
            let m = pairs_read(filter_pairs(fs) + rest);
            let v = first_value(m, value_key(fs.last().0));
            fs.last().2 == match v {
                Some(t) => decoded(t),
                None => seq![],
            }
        }),
{
    reveal(filters_then);
    lemma_filters_then_init(fs, rest);
    let init = fs.drop_last();
    let f = fs.last();
    let c = f.0;
    let ps = filter_pairs(fs) + rest;
    let m = pairs_read(ps);
    let base = filter_pairs(init);
    let oi = base.len() as int;
    lemma_words();
    lemma_word(filter_prefix());
    lemma_word(value_suffix());
    lemma_plain_key_concat(filter_prefix(), c);
    lemma_plain_key_concat(filter_prefix() + c, value_suffix());
    if null_test(f.1) {
        lemma_filter_pairs_shape(init);
        assert forall|i: int| 0 <= i < ps.len() implies (#[trigger] ps[i]).0 != value_key(c) by {
            lemma_column_keys_differ(c, c);
            if i < oi {
                assert(ps[i] == base[i]);
                let j = choose|j: int| 0 <= j < init.len() && key_of_column(base[i].0, init[j].0);
                assert(init[j] == fs[j]);
                assert(fs[j].0 != fs[fs.len() - 1].0);
                lemma_column_keys_differ(c, init[j].0);
                lemma_column_keys_differ(init[j].0, c);
            } else if i > oi {
                assert(ps[i] == rest[i - oi - 1]);
                assert(fs[fs.len() - 1].0 == c);
            }
        }
        lemma_read_absent(ps, value_key(c));
        assert(f.2 =~= Seq::<u8>::empty());
    } else {
        let vi = oi + 1;
        assert(ps[vi] == (value_key(c), url_escape(f.2)));
        assert forall|j: int| 0 <= j < vi implies (#[trigger] ps[j]).0 != ps[vi].0 by {}
        lemma_read_first(ps, vi);
        crate::http::request::lemma_percent_decode_reads_url_encoded(f.2);
        lemma_decoded_plain(f.2);
    }
}

/// A listing reads back the filters a link writes, whatever other parameters follow.
proof fn lemma_filters_read_back(fs: Seq<FilterView>, rest: Seq<(Seq<u8>, Seq<u8>)>)
    requires
        filters_then(fs, rest),
    ensures
        list_filters(key_chars(filter_pairs(fs)), pairs_read(filter_pairs(fs) + rest)) == fs,
    decreases fs.len(),
{
    if fs.len() == 0 {
        assert(key_chars(filter_pairs(fs)) =~= Seq::<Seq<char>>::empty());
        assert(fs =~= Seq::<FilterView>::empty());
    } else {
        let init = fs.drop_last();
        let f = fs.last();
        let c = f.0;
        let new = last_filter_pairs(f);
        let base = filter_pairs(init);
        let m = pairs_read(filter_pairs(fs) + rest);
        lemma_filters_then_init(fs, rest);
        assert(base + (new + rest) =~= filter_pairs(fs) + rest);
        lemma_filters_read_back(init, new + rest);
        lemma_last_op_read(fs, rest);
        lemma_last_value_read(fs, rest);
        lemma_op_column_of(c);
        let kb = key_chars(base);
        let kc = key_chars(filter_pairs(fs));
        let kd = kb.push(decode_utf8(op_key(c)));
        assert(kd.drop_last() =~= kb);
        assert(list_filters(kb, m) == init);
        assert(keeps_filter(f.1, f.2));
        assert(list_filters(kd, m) == list_filters(kb, m).push((c, f.1, f.2)));
        if null_test(f.1) {
            assert(kc =~= kd);
        } else {
            assert(kc =~= kd.push(decode_utf8(value_key(c))));
            assert(kc.drop_last() =~= kd);
            assert(sbytes(decode_utf8(value_key(c))) == value_key(c)) by {
                lemma_words();
                lemma_word(filter_prefix());
                lemma_word(value_suffix());
                lemma_plain_key_concat(filter_prefix(), c);
                lemma_plain_key_concat(filter_prefix() + c, value_suffix());
            }
            assert(op_column(sbytes(kc.last())) is None);
            assert(list_filters(kc, m) == list_filters(kd, m));
        }
        assert(fs =~= init.push(f));
    }
}

// ------------------------------------------------------------------
// The other parameters
// ------------------------------------------------------------------
/// A sort and a part of the page a link carries back: a plain column and
/// direction, no direction without a column other than the default `desc`,
/// and a plain part name.
pub open spec fn carries_sort_and_part(c: Seq<u8>, d: Seq<u8>, mode: Option<Seq<u8>>) -> bool {
    &&& plain_text(c)
    &&& plain_text(d)
    &&& (c.len() > 0 || d == desc_word())
    &&& match mode {
        Some(md) => plain_text(md),
        None => true,
    }
}

/// The parameters after the filters: carried, short keys, no key twice,
/// and each present only when the link asks for it.
proof fn lemma_other_pairs(
    q: ListQuery,
    po: Option<u64>,
    so: Option<(Seq<u8>, Seq<u8>)>,
    mode: Option<Seq<u8>>,
)
    requires
        carries_sort_and_part(link_sort(q, so).0, link_sort(q, so).1, mode),
    ensures
        ({
            let op = other_pairs(q, po, so, mode);
            &&& forall|i: int|
                0 <= i < op.len() ==> carried(#[trigger] op[i]) && op[i].0.len() < 12
            &&& keys_distinct(op)
            &&& forall|i: int|
                0 <= i < op.len() && (#[trigger] op[i]).0 == search_key() ==> q.search is Some
            &&& forall|i: int|
                0 <= i < op.len() && ((#[trigger] op[i]).0 == sort_key() || op[i].0
                    == direction_key()) ==> link_sort(q, so).0.len() > 0
            &&& forall|i: int|
                0 <= i < op.len() && (#[trigger] op[i]).0 == page_key() ==> (po is Some || q.page
                    > 0)
            &&& forall|i: int|
                0 <= i < op.len() && (#[trigger] op[i]).0 == partial_key() ==> mode is Some
        }),
{
    let (col, dir) = link_sort(q, so);
    let sp = search_pairs(opt_bytes(q.search));
    let ip = seq![(infinite_key(), bool_word(q.infinite_scroll))];
    let so2 = sort_pairs(col, dir);
    let pp = page_pairs(po, q.page);
    let mp = partial_pairs(mode);
    let op = other_pairs(q, po, so, mode);
    lemma_words();
    lemma_word(search_key());
    lemma_word(infinite_key());
    lemma_word(sort_key());
    lemma_word(direction_key());
    lemma_word(page_key());
    lemma_word(true_word());
    lemma_word(false_word());
    crate::text::lemma_ascii_valid(partial_key());
    lemma_page_text(q.page as nat);
    match po {
        Some(p) => lemma_page_text(p as nat),
        None => {},
    }
    match opt_bytes(q.search) {
        Some(v) => lemma_escape_no_amp(v),
        None => {},
    }
    assert(!has_byte(partial_key(), 37) && !has_byte(partial_key(), 43) && !has_byte(partial_key(), 38)
        && !has_byte(partial_key(), 61)) by {
        assert forall|i: int| 0 <= i < partial_key().len() implies 95 <= #[trigger] partial_key()[i]
            <= 122 by {}
    }
    let s0 = sp.len() as int;
    let o0 = so2.len() as int;
    let p0 = pp.len() as int;
    assert(op =~= sp + ip + so2 + pp + mp);
    // Each position holds a known key.
    assert forall|i: int| 0 <= i < op.len() implies (i < s0 ==> op[i] == sp[i]) && (i == s0
        ==> op[i] == ip[0]) && (s0 < i < s0 + 1 + o0 ==> op[i] == so2[i - s0 - 1]) && (s0 + 1
        + o0 <= i < s0 + 1 + o0 + p0 ==> op[i] == pp[i - s0 - 1 - o0]) && (s0 + 1 + o0 + p0 <= i
        ==> op[i] == mp[i - s0 - 1 - o0 - p0]) by {}
    assert(search_key()[0] != infinite_key()[0]);
    assert(sort_key()[0] != page_key()[0]);
    assert forall|i: int| 0 <= i < op.len() implies carried(#[trigger] op[i]) && op[i].0.len()
        < 12 by {}
    assert forall|a: int, b: int| 0 <= a < b < op.len() implies (#[trigger] op[a]).0 != (
    #[trigger] op[b]).0 by {}
}

/// A listing state a link carries back, with the sort and part of the page
/// the link asks for: filters each carried back, no column filtered twice,
/// a search without `%` (the listing decodes it a second time), and a sort
/// and part of the page it carries back.
pub open spec fn restorable(q: ListQuery, so: Option<(Seq<u8>, Seq<u8>)>, mode: Option<Seq<u8>>) -> bool {
    let fs = filters_view(q.filters@);
    &&& forall|i: int| 0 <= i < fs.len() ==> filter_restorable(#[trigger] fs[i])
    &&& columns_distinct(fs)
    &&& match opt_bytes(q.search) {
        Some(v) => !has_byte(v, 37),
        None => true,
    }
    &&& carries_sort_and_part(link_sort(q, so).0, link_sort(q, so).1, mode)
}

/// The parameters of a carried link hold no key twice and can all be carried.
proof fn lemma_link_pairs_carried(
    q: ListQuery,
    po: Option<u64>,
    so: Option<(Seq<u8>, Seq<u8>)>,
    mode: Option<Seq<u8>>,
)
    requires
        restorable(q, so, mode),
    ensures
        keys_valid(link_pairs(q, po, so, mode)),
        keys_distinct(link_pairs(q, po, so, mode)),
        forall|i: int|
            0 <= i < link_pairs(q, po, so, mode).len() ==> carried(
                #[trigger] link_pairs(q, po, so, mode)[i],
            ),
        link_pairs(q, po, so, mode).len() > 0,
{
    let fs = filters_view(q.filters@);
    let fp = filter_pairs(fs);
    let op = other_pairs(q, po, so, mode);
    let ps = link_pairs(q, po, so, mode);
    lemma_filter_pairs_shape(fs);
    lemma_other_pairs(q, po, so, mode);
    assert(ps == fp + op);
    assert forall|i: int| 0 <= i < ps.len() implies carried(#[trigger] ps[i]) by {
        if i < fp.len() {
            assert(ps[i] == fp[i]);
        } else {
            assert(ps[i] == op[i - fp.len()]);
        }
    }
    assert forall|a: int, b: int| 0 <= a < b < ps.len() implies (#[trigger] ps[a]).0 != (
    #[trigger] ps[b]).0 by {
        if b < fp.len() {
            assert(ps[a] == fp[a]);
            assert(ps[b] == fp[b]);
        } else if a < fp.len() {
            assert(ps[a] == fp[a]);
            assert(ps[b] == op[b - fp.len()]);
        } else {
            assert(ps[a] == op[a - fp.len()]);
            assert(ps[b] == op[b - fp.len()]);
        }
    }
    assert(op.len() > 0) by {
        assert(op[search_pairs(opt_bytes(q.search)).len() as int].0 == infinite_key());
    }
}

/// The search, scroll mode, sort, page and part of page of a carried link are read back.
proof fn lemma_other_fields_read(
    q: ListQuery,
    po: Option<u64>,
    so: Option<(Seq<u8>, Seq<u8>)>,
    mode: Option<Seq<u8>>,
)
    requires
        restorable(q, so, mode),
    ensures
        ({
            let m = pairs_read(link_pairs(q, po, so, mode));
            &&& list_search(m) == opt_bytes(q.search)
            &&& list_infinite(m) == q.infinite_scroll
            &&& value_or(m, sort_key(), seq![]) == link_sort(q, so).0
            &&& value_or(m, direction_key(), desc_word()) == link_sort(q, so).1
            &&& list_page(m) == link_page(po, q.page)
            &&& value_or(m, partial_key(), seq![]) == match mode {
                Some(md) => md,
                None => Seq::<u8>::empty(),
            }
        }),
{
    let fs = filters_view(q.filters@);
    let fp = filter_pairs(fs);
    let op = other_pairs(q, po, so, mode);
    let ps = link_pairs(q, po, so, mode);
    let m = pairs_read(ps);
    let (col, dir) = link_sort(q, so);
    let sp = search_pairs(opt_bytes(q.search));
    let so2 = sort_pairs(col, dir);
    let pp = page_pairs(po, q.page);
    lemma_filter_pairs_shape(fs);
    lemma_other_pairs(q, po, so, mode);
    lemma_link_pairs_carried(q, po, so, mode);
    lemma_words();
    lemma_word(search_key());
    lemma_word(infinite_key());
    lemma_word(sort_key());
    lemma_word(direction_key());
    lemma_word(page_key());
    lemma_word(true_word());
    lemma_word(false_word());
    crate::text::lemma_ascii_valid(partial_key());
    assert(ps == fp + op);
    let f0 = fp.len() as int;
    let s0 = sp.len() as int;
    let o0 = so2.len() as int;
    let p0 = pp.len() as int;
    assert(op =~= sp + seq![(infinite_key(), bool_word(q.infinite_scroll))] + so2 + pp
        + partial_pairs(mode));
    // A short key that no other parameter has is absent.
    assert forall|k: Seq<u8>|
        valid_utf8(k) && k.len() < 12 && (forall|i: int| 0 <= i < op.len() ==> (#[trigger] op[i]).0 != k)
        implies !m.contains_key(decode_utf8(k)) by {
        assert forall|i: int| 0 <= i < ps.len() implies (#[trigger] ps[i]).0 != k by {
            if i < f0 {
                assert(ps[i] == fp[i]);
            } else {
                assert(ps[i] == op[i - f0]);
            }
        }
        lemma_read_absent(ps, k);
    }
    // search
    match opt_bytes(q.search) {
        Some(v) => {
            assert(ps[f0] == (search_key(), url_escape(v)));
            lemma_read_first(ps, f0);
            crate::http::request::lemma_percent_decode_reads_url_encoded(v);
            lemma_decoded_plain(v);
        },
        None => {
            assert forall|i: int| 0 <= i < op.len() implies (#[trigger] op[i]).0 != search_key() by {}
        },
    }
    // scroll mode
    let ii = f0 + s0;
    assert(ps[ii] == (infinite_key(), bool_word(q.infinite_scroll)));
    assert forall|j: int| 0 <= j < ii implies (#[trigger] ps[j]).0 != ps[ii].0 by {}
    lemma_read_first(ps, ii);
    crate::http::request::lemma_percent_decode_plain(bool_word(q.infinite_scroll));
    lemma_decoded_plain(bool_word(q.infinite_scroll));
    assert(true_word()[0] != false_word()[0]);
    // sort and direction
    if col.len() > 0 {
        assert(ps[ii + 1] == (sort_key(), col));
        assert forall|j: int| 0 <= j < ii + 1 implies (#[trigger] ps[j]).0 != ps[ii + 1].0 by {}
        lemma_read_first(ps, ii + 1);
        assert(ps[ii + 2] == (direction_key(), dir));
        assert forall|j: int| 0 <= j < ii + 2 implies (#[trigger] ps[j]).0 != ps[ii + 2].0 by {}
        lemma_read_first(ps, ii + 2);
        crate::http::request::lemma_percent_decode_plain(col);
        crate::http::request::lemma_percent_decode_plain(dir);
    } else {
        assert forall|i: int| 0 <= i < op.len() implies (#[trigger] op[i]).0 != sort_key() && op[i].0
            != direction_key() by {}
        assert(col =~= Seq::<u8>::empty());
    }
    // page
    let pi = ii + 1 + o0;
    if p0 > 0 {
        let n = link_page(po, q.page);
        assert(ps[pi] == (page_key(), decimal(n as nat)));
        assert forall|j: int| 0 <= j < pi implies (#[trigger] ps[j]).0 != ps[pi].0 by {}
        lemma_read_first(ps, pi);
        lemma_page_text(n as nat);
        crate::http::request::lemma_percent_decode_plain(decimal(n as nat));
    } else {
        assert forall|i: int| 0 <= i < op.len() implies (#[trigger] op[i]).0 != page_key() by {}
    }
    // part of the page
    match mode {
        Some(md) => {
            let mi = pi + p0;
            assert(ps[mi] == (partial_key(), md));
            assert forall|j: int| 0 <= j < mi implies (#[trigger] ps[j]).0 != ps[mi].0 by {}
            lemma_read_first(ps, mi);
            crate::http::request::lemma_percent_decode_plain(md);
        },
        None => {
            assert forall|i: int| 0 <= i < op.len() implies (#[trigger] op[i]).0 != partial_key() by {}
        },
    }
}

/// The filters of a carried link are read back from its parameters.
proof fn lemma_filters_of_link(
    q: ListQuery,
    po: Option<u64>,
    so: Option<(Seq<u8>, Seq<u8>)>,
    mode: Option<Seq<u8>>,
)
    requires
        restorable(q, so, mode),
    ensures
        list_filters(key_chars(link_pairs(q, po, so, mode)), pairs_read(link_pairs(q, po, so, mode)))
            == filters_view(q.filters@),
{
    let fs = filters_view(q.filters@);
    let fp = filter_pairs(fs);
    let op = other_pairs(q, po, so, mode);
    let ps = link_pairs(q, po, so, mode);
    let m = pairs_read(ps);
    lemma_other_pairs(q, po, so, mode);
    lemma_link_pairs_carried(q, po, so, mode);
    assert(key_chars(ps) =~= key_chars(fp) + key_chars(op));
    assert forall|i: int| 0 <= i < key_chars(op).len() implies op_column(
        sbytes(#[trigger] key_chars(op)[i]),
    ) is None by {
        assert(valid_utf8(op[i].0));
    }
    lemma_filters_skip(key_chars(fp), key_chars(op), m);
    assert(filters_then(fs, op)) by {
        reveal(filters_then);
        assert forall|i: int, j: int|
            0 <= i < op.len() && 0 <= j < fs.len() implies (#[trigger] op[i]).0 != value_key(
                (#[trigger] fs[j]).0,
            ) by {
            lemma_column_keys_differ(fs[j].0, fs[j].0);
        }
    }
    lemma_filters_read_back(fs, op);
}

/// The request target of a link: a route without `?`, then the query.
proof fn lemma_link_target(route: Seq<u8>, rest: Seq<u8>)
    requires
        !has_byte(route, 63),
    ensures
        query_of(route + (seq![63u8] + rest)) == parse_pairs_spec(rest),
        query_keys_of(route + (seq![63u8] + rest)) == pairs_keys(split_on(rest, 38)),
{
    let t = route + (seq![63u8] + rest);
    assert(t =~= route + seq![63u8] + rest);
    crate::text::lemma_find_byte_from(route, 63, 0);
    crate::lex::lemma_find_in_append(route, rest, 63);
    assert(t.subrange(0, route.len() as int) =~= route);
    assert(t.subrange(route.len() as int + 1, t.len() as int) =~= rest);
}

/// A link keeps the listing's state: followed from a route without `?`,
/// the listing read from the request has `q`'s filters, search and scroll
/// mode, the sort and page the link asks for (or `q`'s own), and asks for
/// the part of the page the link names (or the whole page).
#[verifier::rlimit(40)]
pub proof fn lemma_links_keep_listing_state(
    q: ListQuery,
    po: Option<u64>,
    so: Option<(Seq<u8>, Seq<u8>)>,
    mode: Option<Seq<u8>>,
    route: Seq<u8>,
    r: ListQuery,
)
    requires
        restorable(q, so, mode),
        !has_byte(route, 63),
        list_query_is(
            r,
            query_keys_of(route + link_text(q, po, so, mode)),
            query_of(route + link_text(q, po, so, mode)),
        ),
    ensures
        filters_view(r.filters@) == filters_view(q.filters@),
        opt_bytes(r.search) == opt_bytes(q.search),
        r.infinite_scroll == q.infinite_scroll,
        sbytes(r.sort_col@) == link_sort(q, so).0,
        sbytes(r.sort_dir@) == link_sort(q, so).1,
        r.page == link_page(po, q.page),
        sbytes(r.partial@) == match mode {
            Some(md) => md,
            None => Seq::<u8>::empty(),
        },
{
    let ps = link_pairs(q, po, so, mode);
    let text = join(params_text(ps), seq![38u8]);
    assert(query_of(route + link_text(q, po, so, mode)) == pairs_read(ps) && query_keys_of(
        route + link_text(q, po, so, mode),
    ) == key_chars(ps)) by {
        lemma_link_text(q, po, so, mode);
        lemma_link_target(route, text);
        lemma_link_pairs_carried(q, po, so, mode);
        lemma_query_reads_back_params(ps);
        lemma_keys_in_order(ps);
    }
    lemma_filters_of_link(q, po, so, mode);
    lemma_other_fields_read(q, po, so, mode);
}

/// A null-test filter needs no value: a query whose only key is
/// `filter__<c>__op` with `is_null` or `is_not_null` filters column `c` by
/// that test, with an empty value.
pub proof fn lemma_null_test_filter_kept(c: Seq<u8>, op: Seq<u8>)
    requires
        valid_utf8(c),
        op == is_null_word() || op == is_not_null_word(),
    ensures
        ({
            let k = decode_utf8(filter_prefix() + c + op_suffix());
            let m = Map::<Seq<char>, Seq<Seq<char>>>::empty().insert(k, seq![decode_utf8(op)]);
            list_filters(seq![k], m) == seq![(c, op, Seq::<u8>::empty())]
        }),
{
    let key = op_key(c);
    let k = decode_utf8(key);
    let m = Map::<Seq<char>, Seq<Seq<char>>>::empty().insert(k, seq![decode_utf8(op)]);
    lemma_words();
    lemma_word(filter_prefix());
    lemma_word(op_suffix());
    lemma_word(value_suffix());
    assert(word(is_null_word()) && word(is_not_null_word()));
    lemma_word(op);
    assert(valid_utf8(filter_prefix() + c));
    assert(valid_utf8(key));
    assert(valid_utf8(value_key(c)));
    lemma_op_column_of(c);
    lemma_column_keys_differ(c, c);
    assert(sbytes(k) == key);
    assert(seq![k].drop_last() =~= Seq::<Seq<char>>::empty());
    assert(sbytes(m[k][0]) == op);
    lemma_decoded_plain(op);
    let vk = decode_utf8(value_key(c));
    assert(vk != k) by {
        if vk == k {
            assert(sbytes(vk) == value_key(c));
        }
    }
    assert(first_value(m, value_key(c)) is None);
    assert(keeps_filter(op, Seq::<u8>::empty()));
    assert(seq![k].last() == k);
    assert(list_filters(Seq::<Seq<char>>::empty(), m) == Seq::<FilterView>::empty());
    assert(decoded(sbytes(m[k][0])) == op);
    assert(Seq::<FilterView>::empty().push((c, op, Seq::<u8>::empty())) =~= seq![(c, op, Seq::<u8>::empty())]);
}

} // verus!

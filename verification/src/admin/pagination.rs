//! The numbered pagination bar of the admin grid.
use vstd::prelude::*;

verus! {

/// `lo..=hi` as a sequence.
pub open spec fn range_incl(lo: int, hi: int) -> Seq<u64>
    decreases hi - lo + 1,
{
    if lo > hi {
        seq![]
    } else {
        range_incl(lo, hi - 1).push(hi as u64)
    }
}

/// The page numbers shown: the first page, the pages up to two away from the
/// current one, and the last page, in increasing order.
pub open spec fn page_numbers(current: u64, total: u64) -> Seq<u64> {
    if total <= 1 {
        range_incl(1, total as int)
    } else {
        let lo = if current >= 3 {
            current - 2
        } else {
            1
        };
        let hi = if current + 2 <= total {
            current + 2
        } else {
            total as int
        };
        let from = if lo >= 2 {
            lo
        } else {
            2
        };
        let mid = range_incl(from, hi);
        seq![1u64] + mid + (if mid.len() > 0 && hi == total {
            Seq::<u64>::empty()
        } else {
            seq![total]
        })
    }
}

/// The numbers with a `None` (an ellipsis) wherever two neighbours are not
/// consecutive.
pub open spec fn with_gaps(pages: Seq<u64>) -> Seq<Option<u64>>
    decreases pages.len(),
{
    if pages.len() == 0 {
        seq![]
    } else if pages.len() == 1 {
        seq![Some(pages[0])]
    } else {
        let prev = pages[pages.len() - 2];
        let last = pages.last();
        with_gaps(pages.drop_last()) + (if last > prev + 1 {
            seq![None]
        } else {
            Seq::<Option<u64>>::empty()
        }) + seq![Some(last)]
    }
}

/// The pagination bar for 1-based page `current` of `total` pages.
pub open spec fn page_window(current: u64, total: u64) -> Seq<Option<u64>> {
    with_gaps(page_numbers(current, total))
}

proof fn lemma_range_incl(lo: int, hi: int)
    requires
        1 <= lo,
        hi <= u64::MAX,
    ensures
        range_incl(lo, hi).len() == (if lo > hi {
            0
        } else {
            hi - lo + 1
        }),
        forall|i: int| 0 <= i < range_incl(lo, hi).len() ==> #[trigger] range_incl(lo, hi)[i] == lo + i,
    decreases hi - lo + 1,
{
    if lo <= hi {
        lemma_range_incl(lo, hi - 1);
    }
}

/// Builds a windowed pagination sequence of 1-indexed page numbers with `None`
/// standing in for an ellipsis gap, e.g. current=6, total=20 gives
/// [1, …, 4, 5, 6, 7, 8, …, 20].
pub fn build_page_window(current_1based: u64, total: u64) -> (r: Vec<Option<u64>>)
    requires
        total > 1 ==> current_1based <= u64::MAX - 2,
    ensures
        r@ == page_window(current_1based, total),
{
    let ghost pn = page_numbers(current_1based, total);
    let mut pages: Vec<u64> = Vec::new();
    if total <= 1 {
        let mut p: u64 = 1;
        while p <= total
            invariant
                1 <= p <= total + 1,
                total <= 1,
                pages@ == range_incl(1, p - 1),
            decreases total + 1 - p,
        {
            pages.push(p);
            p = p + 1;
        }
    } else {
        let lo = if current_1based >= 3 {
            current_1based - 2
        } else {
            1
        };
        let hi = if current_1based + 2 <= total {
            current_1based + 2
        } else {
            total
        };
        pages.push(1);
        // `lo..=hi` with page 1 skipped
        let from: u64 = if lo >= 2 {
            lo
        } else {
            2
        };
        let ghost mid = range_incl(from as int, hi as int);
        proof {
            lemma_range_incl(from as int, hi as int);
        }
        if from <= hi {
            let n = hi - from + 1;
            let mut k: u64 = 0;
            while k < n
                invariant
                    k <= n,
                    n == hi - from + 1,
                    2 <= from <= hi,
                    pages@ == seq![1u64] + range_incl(from as int, from + k - 1),
                decreases n - k,
            {
                pages.push(from + k);
                k = k + 1;
            }
        }
        proof {
            assert(pages@ =~= seq![1u64] + mid);
        }
        let last = pages[pages.len() - 1];
        proof {
            if mid.len() > 0 {
                assert(last == mid.last());
                assert(mid.last() == hi);
            } else {
                assert(last == 1);
            }
        }
        if last != total {
            pages.push(total);
        }
        proof {
            assert(pages@ =~= pn);
        }
    }
    proof {
        if total <= 1 {
            assert(pages@ =~= pn);
        }
    }
    let mut windowed: Vec<Option<u64>> = Vec::new();
    let mut i: usize = 0;
    while i < pages.len()
        invariant
            i <= pages@.len(),
            windowed@ == with_gaps(pages@.take(i as int)),
        decreases pages@.len() - i,
    {
        let p = pages[i];
        let ghost t = pages@.take(i + 1);
        assert(t.drop_last() =~= pages@.take(i as int));
        if i > 0 && p > pages[i - 1] && p - pages[i - 1] > 1 {
            windowed.push(None);
        }
        windowed.push(Some(p));
        proof {
            if i == 0 {
                assert(windowed@ =~= with_gaps(t));
            } else {
                assert(t[t.len() - 2] == pages@[i - 1]);
                assert(windowed@ =~= with_gaps(t));
            }
        }
        i = i + 1;
    }
    assert(pages@.take(pages@.len() as int) =~= pages@);
    windowed
}


/// Neighbouring numbers are consecutive, and a `None` stands exactly between
/// two numbers that are not; the bar starts and ends with a number.
pub open spec fn gap_shape(w: Seq<Option<u64>>) -> bool {
    &&& w.len() > 0 ==> w[0] is Some && w.last() is Some
    &&& forall|i: int| 0 <= i < w.len() - 1 ==> #[trigger] pair_ok(w, i)
}

/// Entries `i` and `i + 1` of the bar fit together.
pub open spec fn pair_ok(w: Seq<Option<u64>>, i: int) -> bool {
    match (w[i], w[i + 1]) {
        (Some(a), Some(b)) => b == a + 1,
        (Some(a), None) => i + 2 < w.len() && (w[i + 2] matches Some(b) && b > a + 1),
        (None, Some(_)) => true,
        (None, None) => false,
    }
}

/// Strictly increasing.
pub open spec fn increasing(s: Seq<u64>) -> bool {
    forall|i: int, j: int| 0 <= i < j < s.len() ==> s[i] < s[j]
}

/// A page belongs to the bar: the first, the last, or within two of the current one.
pub open spec fn shown(current: u64, total: u64, p: int) -> bool {
    1 <= p <= total && (p == 1 || p == total || (current - 2 <= p && p <= current + 2))
}

proof fn lemma_with_gaps_ends(s: Seq<u64>)
    ensures
        s.len() > 0 ==> with_gaps(s).len() > 0 && with_gaps(s)[0] == Some(s[0])
            && with_gaps(s).last() == Some(s.last()),
        s.len() == 0 ==> with_gaps(s).len() == 0,
        s.len() > 1 ==> with_gaps(s) == with_gaps(s.drop_last()) + (if s.last() > s[s.len() - 2] + 1 {
            seq![None]
        } else {
            Seq::<Option<u64>>::empty()
        }) + seq![Some(s.last())],
    decreases s.len(),
{
    if s.len() > 1 {
        lemma_with_gaps_ends(s.drop_last());
        let w0 = with_gaps(s.drop_last());
        assert(s.drop_last()[0] == s[0]);
        let w = with_gaps(s);
        assert(w[0] == w0[0]);
    }
}

#[verifier::rlimit(50)]
proof fn lemma_with_gaps_shape(s: Seq<u64>)
    requires
        increasing(s),
    ensures
        gap_shape(with_gaps(s)),
    decreases s.len(),
{
    lemma_with_gaps_ends(s);
    let w = with_gaps(s);
    if s.len() > 1 {
        let init = s.drop_last();
        assert(increasing(init));
        lemma_with_gaps_shape(init);
        lemma_with_gaps_ends(init);
        let w0 = with_gaps(init);
        let prev = s[s.len() - 2];
        let last = s.last();
        assert(prev < last);
        assert(init.last() == prev);
        let mid = if last > prev + 1 {
            seq![None]
        } else {
            Seq::<Option<u64>>::empty()
        };
        assert(w == w0 + mid + seq![Some(last)]);
        assert forall|i: int| 0 <= i < w.len() - 1 implies #[trigger] pair_ok(w, i) by {
            if i < w0.len() - 1 {
                assert(pair_ok(w0, i));
                assert(w[i] == w0[i]);
                assert(w[i + 1] == w0[i + 1]);
                if i + 2 < w0.len() {
                    assert(w[i + 2] == w0[i + 2]);
                }
            } else if i == w0.len() - 1 {
                assert(w[i] == Some(prev));
                if last > prev + 1 {
                    assert(w[i + 1] == None::<u64>);
                    assert(w[i + 2] == Some(last));
                } else {
                    assert(w[i + 1] == Some(last));
                }
            } else {
                assert(last > prev + 1);
                assert(w[i] == None::<u64>);
                assert(w[i + 1] == Some(last));
            }
        }
    }
}

proof fn lemma_with_gaps_members(s: Seq<u64>)
    ensures
        forall|x: u64| #[trigger] with_gaps(s).contains(Some(x)) <==> s.contains(x),
    decreases s.len(),
{
    lemma_with_gaps_ends(s);
    let w = with_gaps(s);
    if s.len() == 1 {
        assert(w =~= seq![Some(s[0])]);
        assert forall|x: u64| #[trigger] w.contains(Some(x)) <==> s.contains(x) by {
            if w.contains(Some(x)) {
                assert(w[0] == Some(x));
                assert(s[0] == x);
            }
            if s.contains(x) {
                assert(w[0] == Some(x));
            }
        }
    } else if s.len() > 1 {
        let init = s.drop_last();
        lemma_with_gaps_members(init);
        lemma_with_gaps_ends(init);
        let w0 = with_gaps(init);
        assert forall|x: u64| #[trigger] w.contains(Some(x)) <==> s.contains(x) by {
            if w.contains(Some(x)) {
                let i = choose|i: int| 0 <= i < w.len() && w[i] == Some(x);
                if i < w0.len() {
                    assert(w0[i] == Some(x));
                    assert(w0.contains(Some(x)));
                    assert(init.contains(x));
                    let j = choose|j: int| 0 <= j < init.len() && init[j] == x;
                    assert(s[j] == x);
                } else if i == w.len() - 1 {
                    assert(s[s.len() - 1] == x);
                } else {
                    assert(w[i] == None::<u64>);
                }
            }
            if s.contains(x) {
                let j = choose|j: int| 0 <= j < s.len() && s[j] == x;
                if j < s.len() - 1 {
                    assert(init[j] == x);
                    assert(init.contains(x));
                    assert(w0.contains(Some(x)));
                    let i = choose|i: int| 0 <= i < w0.len() && w0[i] == Some(x);
                    assert(w[i] == Some(x));
                } else {
                    assert(w[w.len() - 1] == Some(x));
                }
            }
        }
    }
}

proof fn lemma_page_numbers(current: u64, total: u64)
    requires
        total >= 1,
    ensures
        increasing(page_numbers(current, total)),
        page_numbers(current, total).len() > 0,
        page_numbers(current, total)[0] == 1,
        page_numbers(current, total).last() == total,
        forall|p: u64| #[trigger]
            page_numbers(current, total).contains(p) <==> shown(current, total, p as int),
{
    let s = page_numbers(current, total);
    if total == 1 {
        assert(range_incl(1, 0) =~= Seq::<u64>::empty());
        assert(s =~= seq![1u64]);
        assert forall|p: u64| #[trigger] s.contains(p) <==> shown(current, total, p as int) by {
            if s.contains(p) {
                assert(s[0] == p);
            }
            if shown(current, total, p as int) {
                assert(s[0] == p);
            }
        }
    } else {
        let lo: int = if current >= 3 {
            current - 2
        } else {
            1
        };
        let hi: int = if current + 2 <= total {
            current + 2
        } else {
            total as int
        };
        let from = if lo >= 2 {
            lo
        } else {
            2
        };
        let mid = range_incl(from, hi);
        lemma_range_incl(from, hi);
        let tail = if mid.len() > 0 && hi == total {
            Seq::<u64>::empty()
        } else {
            seq![total]
        };
        assert(s == seq![1u64] + mid + tail);
        assert forall|i: int, j: int| 0 <= i < j < s.len() implies s[i] < s[j] by {
            if i == 0 {
                if j <= mid.len() {
                    assert(s[j] == mid[j - 1]);
                } else {
                    assert(s[j] == total);
                }
            } else if j <= mid.len() {
                assert(s[i] == mid[i - 1]);
                assert(s[j] == mid[j - 1]);
            } else {
                assert(s[i] == mid[i - 1]);
                assert(s[j] == total);
                assert(hi < total || mid.len() == 0);
            }
        }
        if mid.len() > 0 && hi == total {
            assert(s.last() == mid.last());
        }
        assert forall|p: u64| #[trigger] s.contains(p) <==> shown(current, total, p as int) by {
            if s.contains(p) {
                let i = choose|i: int| 0 <= i < s.len() && s[i] == p;
                if i > 0 && i <= mid.len() {
                    assert(s[i] == mid[i - 1]);
                }
            }
            if shown(current, total, p as int) {
                if p == 1 {
                    assert(s[0] == p);
                } else if from <= p <= hi {
                    assert(mid[p - from] == p);
                    assert(s[p - from + 1] == p);
                } else {
                    assert(p == total);
                    if mid.len() > 0 && hi == total {
                        assert(s[s.len() - 1] == p);
                    } else {
                        assert(s[s.len() - 1] == p);
                    }
                }
            }
        }
    }
}

/// The pagination bar of a non-empty listing starts at page 1, ends at the
/// last page, shows exactly the first page, the last page and the pages
/// within two of the current one, in increasing order, with one ellipsis
/// (`None`) wherever shown pages are not consecutive and nowhere else.
pub proof fn lemma_page_window_shape(current: u64, total: u64)
    requires
        total >= 1,
    ensures
        page_window(current, total).len() > 0,
        page_window(current, total)[0] == Some(1u64),
        page_window(current, total).last() == Some(total),
        gap_shape(page_window(current, total)),
        forall|p: u64| #[trigger]
            page_window(current, total).contains(Some(p)) <==> shown(current, total, p as int),
{
    lemma_page_numbers(current, total);
    lemma_with_gaps_ends(page_numbers(current, total));
    lemma_with_gaps_shape(page_numbers(current, total));
    lemma_with_gaps_members(page_numbers(current, total));
}

/// With no pages there is no bar.
pub proof fn lemma_page_window_empty(current: u64)
    ensures
        page_window(current, 0) == Seq::<Option<u64>>::empty(),
{
    assert(range_incl(1, 0) =~= Seq::<u64>::empty());
}

} // verus!

//! The overview page: the queries it runs for each registered table, the
//! columns its previews show, and the total it reports.
use crate::text::str_to_string;
use vstd::prelude::*;

verus! {

/// The query that counts a table's records.
pub fn count_query(table: &str) -> (r: String)
    ensures
        r@ == "SELECT COUNT(*) as count FROM "@ + table@,
{
    let mut out = str_to_string("SELECT COUNT(*) as count FROM ");
    out.append(table);
    out
}

/// The query that fetches a table's five newest records.
pub fn recent_query(table: &str) -> (r: String)
    ensures
        r@ == "SELECT * FROM "@ + table@ + " ORDER BY id DESC LIMIT 5"@,
{
    let mut out = str_to_string("SELECT * FROM ");
    out.append(table);
    out.append(" ORDER BY id DESC LIMIT 5");
    out
}

/// The columns a preview shows besides the first (the id): the next two, or
/// as many as there are.
pub open spec fn preview_columns_of(names: Seq<Seq<char>>) -> Seq<Seq<char>> {
    if names.len() <= 1 {
        seq![]
    } else if names.len() == 2 {
        names.subrange(1, 2)
    } else {
        names.subrange(1, 3)
    }
}

/// The columns a table preview shows after the id column.
pub fn preview_columns(names: &Vec<String>) -> (r: Vec<String>)
    ensures
        r@.map_values(|s: String| s@) == preview_columns_of(names@.map_values(|s: String| s@)),
{
    let mut out: Vec<String> = Vec::new();
    let mut i: usize = 1;
    while i < names.len() && i < 3
        invariant
            1 <= i <= 3,
            i <= names@.len() || names@.len() <= 1,
            out@.len() == if i <= names@.len() { i - 1 } else { 0 },
            forall|j: int| 0 <= j < out@.len() ==> #[trigger] out@[j]@ == names@[j + 1]@,
        decreases 3 - i,
    {
        out.push(names[i].clone());
        i = i + 1;
    }
    assert(out@.map_values(|s: String| s@) =~= preview_columns_of(names@.map_values(|s: String| s@)));
    out
}

/// The sum of the counts.
pub open spec fn sum_counts(counts: Seq<i64>) -> int
    decreases counts.len(),
{
    if counts.len() == 0 {
        0
    } else {
        sum_counts(counts.drop_last()) + counts.last()
    }
}

/// The total number of records across the tables, added up table by table.
pub fn total_records(counts: &Vec<i64>) -> (r: i64)
    requires
        forall|k: int|
            0 <= k <= counts@.len() ==> i64::MIN <= #[trigger] sum_counts(counts@.take(k)) <= i64::MAX,
    ensures
        r == sum_counts(counts@),
{
    let mut total: i64 = 0;
    let mut i: usize = 0;
    assert(counts@.take(0) =~= Seq::<i64>::empty());
    while i < counts.len()
        invariant
            i <= counts@.len(),
            total == sum_counts(counts@.take(i as int)),
            forall|k: int|
                0 <= k <= counts@.len() ==> i64::MIN <= #[trigger] sum_counts(counts@.take(k))
                    <= i64::MAX,
        decreases counts@.len() - i,
    {
        let ghost t = counts@.take(i + 1);
        assert(t.drop_last() =~= counts@.take(i as int));
        assert(t.last() == counts@[i as int]);
        assert(i64::MIN <= sum_counts(counts@.take(i + 1)) <= i64::MAX);
        total = total + counts[i];
        i = i + 1;
    }
    assert(counts@.take(counts@.len() as int) =~= counts@);
    total
}

} // verus!

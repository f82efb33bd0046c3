//! The frequency table: a word-to-count map filled by the pipeline's
//! workers.
//!
//! The table is a sharded concurrent map from an outside crate; the
//! wrappers below are the only places that touch it. Its contents are
//! modeled by the uninterpreted `table_contents`, a map from normalized
//! words to counts; every contract over the table speaks of that model.
//! Every verified operation takes the table exclusively: parallel workers
//! each own a table of their part, and `merge_tables` joins the parts,
//! which the fork-join law shows loses nothing.

use vstd::prelude::*;
use dashmap::DashMap;

verus! {

#[verifier::external_type_specification]
#[verifier::external_body]
#[verifier::reject_recursive_types(K)]
#[verifier::reject_recursive_types(V)]
#[verifier::reject_recursive_types(S)]
pub struct ExDashMap<K, V, S>(DashMap<K, V, S>);

/// The word-frequency table. Workers bump counts while a run is in
/// progress; the final contents are read out once, at the end.
pub type FreqTable = DashMap<Vec<u8>, u64>;

/// What a concrete frequency table holds: one count per word.
pub uninterp spec fn table_contents(m: FreqTable) -> Map<Seq<u8>, u64>;

/// The contents of a table that holds no words at all.
pub open spec fn empty_counts() -> Map<Seq<u8>, u64> {
    Map::empty()
}

/// The count recorded for `w`, taking absent words as zero.
pub open spec fn count_of(m: Map<Seq<u8>, u64>, w: Seq<u8>) -> u64 {
    if m.contains_key(w) {
        m[w]
    } else {
        0u64
    }
}

/// A count after one more occurrence; the top of the counter range is
/// sticky so that counting is total.
pub open spec fn bumped(c: u64) -> u64 {
    if c == u64::MAX {
        c
    } else {
        (c + 1) as u64
    }
}

/// Executable twin of `bumped`.
pub(crate) fn bump(c: u64) -> (r: u64)
    ensures
        r == bumped(c),
{
    if c == u64::MAX {
        c
    } else {
        c + 1
    }
}

/// Builds the empty frequency table.
///
/// Relies on dashmap::DashMap::new: a freshly built map is empty.
#[verifier::external_body]
pub fn new_table() -> (r: FreqTable)
    ensures
        table_contents(r) == empty_counts(),
{
    DashMap::new()
}

/// The count the table records for `word`, or nothing when the table
/// does not hold the word.
///
/// Relies on dashmap::DashMap::get: it returns the entry for the key, if
/// there is one.
#[verifier::external_body]
fn table_get(t: &FreqTable, word: &Vec<u8>) -> (r: Option<u64>)
    ensures
        table_contents(*t).contains_key(word@) ==> r == Some(table_contents(*t)[word@]),
        !table_contents(*t).contains_key(word@) ==> r is None,
{
    t.get(word).map(|entry| *entry)
}

/// Sets the table's entry for `word` to `c`, inserting or overwriting.
///
/// Relies on dashmap::DashMap::insert: it maps the key to the given
/// value.
#[verifier::external_body]
fn table_insert(t: &mut FreqTable, word: Vec<u8>, c: u64)
    ensures
        table_contents(*final(t)) == table_contents(*old(t)).insert(word@, c),
{
    t.insert(word, c);
}

/// Records one more occurrence of `word` and returns the new count: the
/// count so far — zero when the word is absent — bumped and written back.
pub(crate) fn table_increment(t: &mut FreqTable, word: Vec<u8>) -> (r: u64)
    ensures
        table_contents(*final(t)) == table_contents(*old(t)).insert(
            word@,
            bumped(count_of(table_contents(*old(t)), word@)),
        ),
        r == bumped(count_of(table_contents(*old(t)), word@)),
{
    let prev = match table_get(t, &word) {
        Some(c) => c,
        None => 0,
    };
    let next = bump(prev);
    table_insert(t, word, next);
    next
}

/// Consumes the table and hands out its contents as (word, count) rows,
/// each word once, in no particular order.
///
/// Relies on dashmap::DashMap::into_iter: it yields every entry of the
/// map exactly once.
#[verifier::external_body]
pub fn table_into_rows(t: FreqTable) -> (r: Vec<(Vec<u8>, u64)>)
    ensures
        forall|i: int|
            0 <= i < r@.len() ==> table_contents(t).contains_key(#[trigger] r@[i].0@) && r@[i].1
                == table_contents(t)[r@[i].0@],
        forall|i: int, j: int| 0 <= i < j < r@.len() ==> r@[i].0@ != r@[j].0@,
        forall|w: Seq<u8>|
            table_contents(t).contains_key(w) ==> exists|i: int|
                0 <= i < r@.len() && #[trigger] r@[i].0@ == w,
{
    t.into_iter().collect()
}

/// The sum of two counts, held at the top of the counter range.
pub open spec fn sat_sum(x: u64, y: u64) -> u64 {
    if x + y > u64::MAX {
        u64::MAX
    } else {
        (x + y) as u64
    }
}

/// Executable twin of `sat_sum`.
fn sat_add(x: u64, y: u64) -> (r: u64)
    ensures
        r == sat_sum(x, y),
{
    if x > u64::MAX - y {
        u64::MAX
    } else {
        x + y
    }
}

/// Two tables' contents joined: a word of either table, with the
/// saturating sum of its two counts.
pub open spec fn merged(m1: Map<Seq<u8>, u64>, m2: Map<Seq<u8>, u64>) -> Map<Seq<u8>, u64> {
    Map::new(
        |w: Seq<u8>| m1.contains_key(w) || m2.contains_key(w),
        |w: Seq<u8>| sat_sum(count_of(m1, w), count_of(m2, w)),
    )
}

/// Adds `c` occurrences of `word` to the table: the recorded count
/// becomes the saturating sum of the present count and `c`.
fn table_add(t: &mut FreqTable, word: Vec<u8>, c: u64)
    ensures
        table_contents(*final(t)) == table_contents(*old(t)).insert(
            word@,
            sat_sum(count_of(table_contents(*old(t)), word@), c),
        ),
{
    let prev = match table_get(t, &word) {
        Some(p) => p,
        None => 0,
    };
    let next = sat_add(prev, c);
    table_insert(t, word, next);
}

/// Joins two tables: afterwards the result records, for every word, the
/// saturating sum of the two tables' counts. This is the join of a
/// fork-join run: workers count into tables of their own, and the merged
/// table holds what one worker counting everything would have held.
pub fn merge_tables(t: FreqTable, other: FreqTable) -> (r: FreqTable)
    ensures
        table_contents(r) == merged(table_contents(t), table_contents(other)),
{
    let ghost m1 = table_contents(t);
    let ghost m2 = table_contents(other);
    let mut acc = t;
    let mut rows = table_into_rows(other);
    let ghost rows0 = rows@;
    proof {
        assert(rows@ =~= rows0.take(rows@.len() as int));
    }
    while rows.len() > 0
        invariant
            rows@.len() <= rows0.len(),
            rows@ == rows0.take(rows@.len() as int),
            forall|j1: int, j2: int| 0 <= j1 < j2 < rows0.len() ==> rows0[j1].0@ != rows0[j2].0@,
            forall|j: int|
                0 <= j < rows0.len() ==> m2.contains_key(#[trigger] rows0[j].0@) && rows0[j].1
                    == m2[rows0[j].0@],
            table_contents(acc) == folded_rows(m1, rows0, rows@.len() as int),
        decreases rows@.len(),
    {
        let ghost k = rows@.len() as int;
        proof {
            assert(rows@.last() == rows0[k - 1]);
            assert(rows@.drop_last() =~= rows0.take(k - 1));
        }
        let pair = rows.pop().unwrap();
        let (word, c) = pair;
        proof {
            assert(word@ == rows0[k - 1].0@ && c == rows0[k - 1].1);
        }
        table_add(&mut acc, word, c);
    }
    proof {
        lemma_folded_rows_is_merged(m1, m2, rows0);
    }
    acc
}

/// The contents after folding in the rows at positions `k` and beyond,
/// taken from the last row down to position `k`.
spec fn folded_rows(m: Map<Seq<u8>, u64>, rows: Seq<(Vec<u8>, u64)>, k: int) -> Map<Seq<u8>, u64>
    decreases rows.len() - k,
{
    if k < 0 || k >= rows.len() {
        m
    } else {
        let prev = folded_rows(m, rows, k + 1);
        prev.insert(rows[k].0@, sat_sum(count_of(prev, rows[k].0@), rows[k].1))
    }
}

/// Folding rows with distinct keys records, for the key of row `j`, the
/// saturating sum of the starting count and that row's count.
proof fn lemma_folded_rows_hit(m: Map<Seq<u8>, u64>, rows: Seq<(Vec<u8>, u64)>, k: int, j: int)
    requires
        0 <= k <= j < rows.len(),
        forall|j1: int, j2: int| 0 <= j1 < j2 < rows.len() ==> rows[j1].0@ != rows[j2].0@,
    ensures
        folded_rows(m, rows, k).contains_key(rows[j].0@),
        folded_rows(m, rows, k)[rows[j].0@] == sat_sum(count_of(m, rows[j].0@), rows[j].1),
    decreases rows.len() - k,
{
    if k == j {
        assert(forall|i: int| k + 1 <= i < rows.len() ==> #[trigger] rows[i].0@ != rows[j].0@);
        lemma_folded_rows_miss(m, rows, k + 1, rows[j].0@);
    } else {
        lemma_folded_rows_hit(m, rows, k + 1, j);
        assert(rows[k].0@ != rows[j].0@);
    }
}

/// Folding rows leaves a word untouched when no row at position `k` or
/// beyond carries it.
proof fn lemma_folded_rows_miss(m: Map<Seq<u8>, u64>, rows: Seq<(Vec<u8>, u64)>, k: int, w: Seq<u8>)
    requires
        forall|j: int| k <= j < rows.len() ==> #[trigger] rows[j].0@ != w,
    ensures
        folded_rows(m, rows, k).contains_key(w) == m.contains_key(w),
        count_of(folded_rows(m, rows, k), w) == count_of(m, w),
    decreases rows.len() - k,
{
    if 0 <= k && k < rows.len() {
        lemma_folded_rows_miss(m, rows, k + 1, w);
    }
}

/// Folding in one row per word of `m2`, each row carrying that word's
/// count, yields exactly the join of the two contents.
proof fn lemma_folded_rows_is_merged(
    m1: Map<Seq<u8>, u64>,
    m2: Map<Seq<u8>, u64>,
    rows: Seq<(Vec<u8>, u64)>,
)
    requires
        forall|j1: int, j2: int| 0 <= j1 < j2 < rows.len() ==> rows[j1].0@ != rows[j2].0@,
        forall|j: int|
            0 <= j < rows.len() ==> m2.contains_key(#[trigger] rows[j].0@) && rows[j].1
                == m2[rows[j].0@],
        forall|w: Seq<u8>|
            m2.contains_key(w) ==> exists|j: int| 0 <= j < rows.len() && #[trigger] rows[j].0@ == w,
    ensures
        folded_rows(m1, rows, 0) == merged(m1, m2),
{
    assert forall|w: Seq<u8>|
        m2.contains_key(w) implies folded_rows(m1, rows, 0).contains_key(w) && folded_rows(
        m1,
        rows,
        0,
    )[w] == sat_sum(count_of(m1, w), count_of(m2, w)) by {
        let j = choose|j: int| 0 <= j < rows.len() && #[trigger] rows[j].0@ == w;
        lemma_folded_rows_hit(m1, rows, 0, j);
    }
    assert forall|w: Seq<u8>|
        !m2.contains_key(w) implies folded_rows(m1, rows, 0).contains_key(w) == m1.contains_key(w)
        && count_of(folded_rows(m1, rows, 0), w) == count_of(m1, w) by {
        assert forall|j: int| 0 <= j < rows.len() implies #[trigger] rows[j].0@ != w by {
            assert(m2.contains_key(rows[j].0@));
        }
        lemma_folded_rows_miss(m1, rows, 0, w);
    }
    assert forall|w: Seq<u8>|
        #![trigger merged(m1, m2).contains_key(w)]
        folded_rows(m1, rows, 0).contains_key(w) == merged(m1, m2).contains_key(w) && (merged(
            m1,
            m2,
        ).contains_key(w) ==> folded_rows(m1, rows, 0)[w] == merged(m1, m2)[w]) by {
        if m2.contains_key(w) {
            assert(folded_rows(m1, rows, 0)[w] == sat_sum(count_of(m1, w), count_of(m2, w)));
        } else {
            assert(count_of(m2, w) == 0);
            assert(count_of(folded_rows(m1, rows, 0), w) == count_of(m1, w));
            assert(sat_sum(count_of(m1, w), 0) == count_of(m1, w));
        }
    }
    assert(folded_rows(m1, rows, 0) =~= merged(m1, m2));
}

} // verus!

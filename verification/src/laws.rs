//! What holds of a whole run: the final table is a pure function of the
//! corpus, every word's count is its number of accepted occurrences, and
//! neither the order of the tokens nor the order of the documents can
//! change the outcome.

use vstd::prelude::*;
use vstd::seq_lib::group_to_multiset_ensures;
use crate::filter::spec_filter_word;
use crate::ingest::lossy_decode;
use crate::pipeline::{
    counts_after_token, counts_of_tokens, lemma_counts_append, process_document, text_tokens,
};
use crate::table::{
    bumped, count_of, empty_counts, merged, table_contents, FreqTable,
};

verus! {

/// The raw tokens of one document, from its bytes: decode, then cut into
/// lines and tokens.
pub open spec fn document_tokens(bytes: Seq<u8>) -> Seq<Seq<u8>> {
    text_tokens(lossy_decode(bytes))
}

/// The raw tokens of a whole corpus, document by document.
pub open spec fn corpus_tokens(docs: Seq<Seq<u8>>) -> Seq<Seq<u8>>
    decreases docs.len(),
{
    if docs.len() == 0 {
        Seq::empty()
    } else {
        corpus_tokens(docs.drop_last()) + document_tokens(docs.last())
    }
}

/// The frequency table a run over `docs` produces, starting from nothing.
pub open spec fn corpus_counts(docs: Seq<Seq<u8>>) -> Map<Seq<u8>, u64> {
    counts_of_tokens(empty_counts(), corpus_tokens(docs))
}

/// How many tokens of `toks` the word filter accepts as exactly the word
/// `w`.
pub open spec fn occurrences(w: Seq<u8>, toks: Seq<Seq<u8>>) -> nat
    decreases toks.len(),
{
    if toks.len() == 0 {
        0
    } else {
        occurrences(w, toks.drop_last()) + (if spec_filter_word(toks.last()) == Some(w) {
            1nat
        } else {
            0nat
        })
    }
}

/// A word cannot occur more often than there are tokens.
pub proof fn lemma_occurrences_le_len(w: Seq<u8>, toks: Seq<Seq<u8>>)
    ensures
        occurrences(w, toks) <= toks.len(),
    decreases toks.len(),
{
    if toks.len() > 0 {
        lemma_occurrences_le_len(w, toks.drop_last());
    }
}

/// Replaying tokens over a table adds each word's occurrences to its
/// count, as long as the counter does not reach the top of its range.
pub proof fn lemma_counts_add_occurrences(m: Map<Seq<u8>, u64>, toks: Seq<Seq<u8>>, w: Seq<u8>)
    requires
        count_of(m, w) + occurrences(w, toks) <= u64::MAX,
    ensures
        count_of(counts_of_tokens(m, toks), w) == count_of(m, w) + occurrences(w, toks),
    decreases toks.len(),
{
    if toks.len() > 0 {
        lemma_counts_add_occurrences(m, toks.drop_last(), w);
        let c = counts_of_tokens(m, toks.drop_last());
        match spec_filter_word(toks.last()) {
            Some(v) => {
                if v == w {
                    assert(bumped(count_of(c, w)) == count_of(c, w) + 1);
                } else {
                    assert(count_of(c.insert(v, bumped(count_of(c, v))), w) == count_of(c, w));
                }
            },
            None => {},
        }
    }
}

/// A word stands in the replayed table only if it stood in the starting
/// table or some token was accepted as it.
proof fn lemma_counts_domain(m: Map<Seq<u8>, u64>, toks: Seq<Seq<u8>>, w: Seq<u8>)
    ensures
        counts_of_tokens(m, toks).contains_key(w) ==> m.contains_key(w) || occurrences(w, toks)
            >= 1,
    decreases toks.len(),
{
    if toks.len() > 0 {
        lemma_counts_domain(m, toks.drop_last(), w);
    }
}

/// THE COUNTING LAW. After a run over any corpus, the count recorded for
/// any word equals the number of token occurrences, across all documents,
/// that the word filter accepts as that word; and the table holds exactly
/// the words that occur at least once. The bound keeps the corpus within
/// the counter range; no real corpus reaches it.
pub proof fn lemma_count_is_occurrence_count(docs: Seq<Seq<u8>>, w: Seq<u8>)
    requires
        corpus_tokens(docs).len() <= u64::MAX,
    ensures
        count_of(corpus_counts(docs), w) == occurrences(w, corpus_tokens(docs)),
        corpus_counts(docs).contains_key(w) <==> occurrences(w, corpus_tokens(docs)) >= 1,
{
    lemma_occurrences_le_len(w, corpus_tokens(docs));
    lemma_counts_add_occurrences(empty_counts(), corpus_tokens(docs), w);
    lemma_counts_domain(empty_counts(), corpus_tokens(docs), w);
}

/// Re-running over an unchanged corpus yields the identical table: the
/// result is a function of the documents' bytes and of nothing else.
pub proof fn lemma_rerun_identical(
    docs: Seq<Seq<u8>>,
    first: Map<Seq<u8>, u64>,
    second: Map<Seq<u8>, u64>,
)
    requires
        first == corpus_counts(docs),
        second == corpus_counts(docs),
    ensures
        first == second,
{
}

/// The word filter is a pure function of its one input token: identical
/// tokens always get the identical accept-or-reject answer and the
/// identical normalized word.
pub proof fn lemma_filter_pure(t1: Seq<u8>, t2: Seq<u8>)
    requires
        t1 == t2,
    ensures
        spec_filter_word(t1) == spec_filter_word(t2),
{
}

/// Removing one token removes exactly that token's contribution to a
/// word's occurrence count.
proof fn lemma_occurrences_remove(w: Seq<u8>, toks: Seq<Seq<u8>>, i: int)
    requires
        0 <= i < toks.len(),
    ensures
        occurrences(w, toks) == occurrences(w, toks.remove(i)) + (if spec_filter_word(toks[i])
            == Some(w) {
            1nat
        } else {
            0nat
        }),
    decreases toks.len(),
{
    if i == toks.len() - 1 {
        assert(toks.remove(i) =~= toks.drop_last());
    } else {
        assert(toks.remove(i).drop_last() =~= toks.drop_last().remove(i));
        assert(toks.remove(i).last() == toks.last());
        lemma_occurrences_remove(w, toks.drop_last(), i);
    }
}

/// Two token sequences with the same tokens, however ordered, give every
/// word the same occurrence count.
proof fn lemma_occurrences_permutation(w: Seq<u8>, toks1: Seq<Seq<u8>>, toks2: Seq<Seq<u8>>)
    requires
        toks1.to_multiset() == toks2.to_multiset(),
    ensures
        occurrences(w, toks1) == occurrences(w, toks2),
    decreases toks1.len(),
{
    broadcast use group_to_multiset_ensures;

    if toks1.len() == 0 {
        toks1.to_multiset_ensures();
        toks2.to_multiset_ensures();
        assert(toks2.to_multiset().len() == 0);
        assert(toks2.len() == 0);
    } else {
        let x = toks1.last();
        assert(toks1.contains(x));
        assert(toks2.to_multiset().count(x) > 0);
        assert(toks2.contains(x));
        let i = choose|i: int| 0 <= i < toks2.len() && toks2[i] == x;
        assert(toks1.drop_last() =~= toks1.remove(toks1.len() - 1));
        assert(toks1.drop_last().to_multiset() == toks1.to_multiset().remove(x));
        assert(toks2.remove(i).to_multiset() == toks2.to_multiset().remove(x));
        lemma_occurrences_permutation(w, toks1.drop_last(), toks2.remove(i));
        lemma_occurrences_remove(w, toks2, i);
    }
}

/// THE FORK-JOIN LAW. Counting a token sequence into a fresh table and
/// joining the result onto `m` is the same as counting it into `m`
/// directly: a worker may count its share of the tokens alone, and the
/// join of the parts loses nothing.
pub proof fn lemma_fork_join(m: Map<Seq<u8>, u64>, toks: Seq<Seq<u8>>)
    ensures
        counts_of_tokens(m, toks) == merged(m, counts_of_tokens(empty_counts(), toks)),
    decreases toks.len(),
{
    if toks.len() == 0 {
        assert(counts_of_tokens(m, toks) =~= merged(m, empty_counts()));
    } else {
        lemma_fork_join(m, toks.drop_last());
        let c = counts_of_tokens(empty_counts(), toks.drop_last());
        assert(counts_after_token(merged(m, c), toks.last()) =~= merged(
            m,
            counts_after_token(c, toks.last()),
        ));
    }
}

/// Joining tables commutes: the parts' counts add either way around.
pub proof fn lemma_merged_commutes(m1: Map<Seq<u8>, u64>, m2: Map<Seq<u8>, u64>)
    ensures
        merged(m1, m2) == merged(m2, m1),
{
    assert(merged(m1, m2) =~= merged(m2, m1));
}

/// Joining tables associates: the parts may be joined in any grouping,
/// so any reduction tree over the workers' tables gives one result.
pub proof fn lemma_merged_associates(
    m1: Map<Seq<u8>, u64>,
    m2: Map<Seq<u8>, u64>,
    m3: Map<Seq<u8>, u64>,
)
    ensures
        merged(m1, merged(m2, m3)) == merged(merged(m1, m2), m3),
{
    assert(merged(m1, merged(m2, m3)) =~= merged(merged(m1, m2), m3));
}

/// THE ORDER LAW. Replaying the same multiset of tokens, in whatever
/// order the schedule happened to deliver them, yields a table with the
/// same count for every word: aggregation commutes, which is why lines
/// may be fanned out over parallel workers without coordination.
pub proof fn lemma_counts_order_independent(toks1: Seq<Seq<u8>>, toks2: Seq<Seq<u8>>)
    requires
        toks1.to_multiset() == toks2.to_multiset(),
        toks1.len() <= u64::MAX,
    ensures
        forall|w: Seq<u8>|
            count_of(counts_of_tokens(empty_counts(), toks1), w) == count_of(
                counts_of_tokens(empty_counts(), toks2),
                w,
            ),
{
    broadcast use group_to_multiset_ensures;

    toks1.to_multiset_ensures();
    toks2.to_multiset_ensures();
    assert(toks2.len() == toks1.len());
    assert forall|w: Seq<u8>|
        count_of(counts_of_tokens(empty_counts(), toks1), w) == count_of(
            counts_of_tokens(empty_counts(), toks2),
            w,
        ) by {
        lemma_occurrences_le_len(w, toks1);
        lemma_occurrences_le_len(w, toks2);
        lemma_counts_add_occurrences(empty_counts(), toks1, w);
        lemma_counts_add_occurrences(empty_counts(), toks2, w);
        lemma_occurrences_permutation(w, toks1, toks2);
    }
}

/// Visits the documents of a corpus strictly one after another, counting
/// every accepted word of each into the table.
pub fn process_corpus(table: &mut FreqTable, docs: &Vec<Vec<u8>>)
    ensures
        table_contents(*final(table)) == counts_of_tokens(
            table_contents(*old(table)),
            corpus_tokens(docs.deep_view()),
        ),
{
    let ghost m0 = table_contents(*old(table));
    let mut d: usize = 0;
    proof {
        assert(corpus_tokens(docs.deep_view().take(0)) =~= Seq::<Seq<u8>>::empty());
    }
    while d < docs.len()
        invariant
            0 <= d <= docs.len(),
            table_contents(*table) == counts_of_tokens(
                m0,
                corpus_tokens(docs.deep_view().take(d as int)),
            ),
        decreases docs.len() - d,
    {
        let ghost done = docs.deep_view().take(d as int);
        proof {
            assert(docs.deep_view().take(d as int + 1).drop_last() =~= done);
            assert(docs.deep_view().take(d as int + 1).last() == docs@[d as int].deep_view());
            assert(docs@[d as int].deep_view() == docs@[d as int]@);
            lemma_counts_append(
                m0,
                corpus_tokens(done),
                document_tokens(docs@[d as int]@),
            );
        }
        process_document(table, &docs[d]);
        d += 1;
    }
    proof {
        assert(docs.deep_view().take(docs@.len() as int) =~= docs.deep_view());
    }
}

} // verus!

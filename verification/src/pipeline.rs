//! The ingestion pipeline: decode a document's bytes, split the text into
//! lines, each line into raw tokens, filter every token, and bump the
//! frequency table for each accepted word.
//!
//! The model is a fold: `counts_of_tokens` replays a token sequence over a
//! starting table, and every processing function promises that the table it
//! leaves behind equals that fold over exactly the tokens of its input.

use vstd::prelude::*;
use crate::filter::{filter_word, spec_filter_word};
use crate::split::{spec_split, split_on};
use crate::table::{bumped, count_of, table_contents, table_increment, FreqTable};

verus! {

/// The byte that separates lines of a text.
pub const LINE_SEP: u8 = 10;

/// The byte that separates raw tokens of a line.
pub const TOKEN_SEP: u8 = 32;

/// The raw tokens of one line, in order.
pub open spec fn line_tokens(line: Seq<u8>) -> Seq<Seq<u8>> {
    spec_split(line, TOKEN_SEP)
}

/// The lines of a text, in order.
pub open spec fn text_lines(text: Seq<u8>) -> Seq<Seq<u8>> {
    spec_split(text, LINE_SEP)
}

/// The table after one raw token: the accepted word's count moves up by
/// one; a rejected token changes nothing.
pub open spec fn counts_after_token(m: Map<Seq<u8>, u64>, tok: Seq<u8>) -> Map<Seq<u8>, u64> {
    match spec_filter_word(tok) {
        Some(w) => m.insert(w, bumped(count_of(m, w))),
        None => m,
    }
}

/// The table after a whole token sequence, replayed in order.
pub open spec fn counts_of_tokens(m: Map<Seq<u8>, u64>, toks: Seq<Seq<u8>>) -> Map<Seq<u8>, u64>
    decreases toks.len(),
{
    if toks.len() == 0 {
        m
    } else {
        counts_after_token(counts_of_tokens(m, toks.drop_last()), toks.last())
    }
}

/// The raw tokens of a sequence of lines, line by line.
pub open spec fn tokens_of_lines(lines: Seq<Seq<u8>>) -> Seq<Seq<u8>>
    decreases lines.len(),
{
    if lines.len() == 0 {
        Seq::empty()
    } else {
        tokens_of_lines(lines.drop_last()) + line_tokens(lines.last())
    }
}

/// The raw tokens of a decoded text: its lines' tokens, in order.
pub open spec fn text_tokens(text: Seq<u8>) -> Seq<Seq<u8>> {
    tokens_of_lines(text_lines(text))
}

/// Replaying `a + b` is replaying `a`, then `b`.
pub proof fn lemma_counts_append(m: Map<Seq<u8>, u64>, a: Seq<Seq<u8>>, b: Seq<Seq<u8>>)
    ensures
        counts_of_tokens(m, a + b) == counts_of_tokens(counts_of_tokens(m, a), b),
    decreases b.len(),
{
    if b.len() == 0 {
        assert(a + b =~= a);
    } else {
        lemma_counts_append(m, a, b.drop_last());
        assert((a + b).drop_last() =~= a + b.drop_last());
        assert((a + b).last() == b.last());
    }
}

/// Runs every raw token of one line through the word filter and bumps the
/// table for each accepted word.
pub fn process_line(table: &mut FreqTable, line: &Vec<u8>)
    ensures
        table_contents(*final(table)) == counts_of_tokens(
            table_contents(*old(table)),
            line_tokens(line@),
        ),
{
    let ghost m0 = table_contents(*old(table));
    let toks = split_on(line, TOKEN_SEP);
    let mut i: usize = 0;
    proof {
        assert(toks.deep_view().take(0) =~= Seq::<Seq<u8>>::empty());
    }
    while i < toks.len()
        invariant
            0 <= i <= toks.len(),
            toks.deep_view() == line_tokens(line@),
            table_contents(*table) == counts_of_tokens(m0, toks.deep_view().take(i as int)),
        decreases toks.len() - i,
    {
        proof {
            assert(toks.deep_view().take(i as int + 1).drop_last() =~= toks.deep_view().take(
                i as int,
            ));
            assert(toks.deep_view().take(i as int + 1).last() == toks@[i as int].deep_view());
            assert(toks@[i as int].deep_view() == toks@[i as int]@);
        }
        match filter_word(&toks[i]) {
            Some(w) => {
                proof {
                    assert(w@ == spec_filter_word(toks@[i as int]@)->Some_0);
                }
                table_increment(table, w);
            },
            None => {},
        }
        i += 1;
    }
    proof {
        assert(toks.deep_view().take(toks@.len() as int) =~= toks.deep_view());
    }
}

/// Processes a whole decoded text: every line, each line's tokens through
/// the filter, every accepted word into the table.
pub fn process_text(table: &mut FreqTable, text: &Vec<u8>)
    ensures
        table_contents(*final(table)) == counts_of_tokens(
            table_contents(*old(table)),
            text_tokens(text@),
        ),
{
    let ghost m0 = table_contents(*old(table));
    let lines = split_on(text, LINE_SEP);
    let mut li: usize = 0;
    proof {
        assert(lines.deep_view().take(0) =~= Seq::<Seq<u8>>::empty());
    }
    while li < lines.len()
        invariant
            0 <= li <= lines.len(),
            lines.deep_view() == text_lines(text@),
            table_contents(*table) == counts_of_tokens(
                m0,
                tokens_of_lines(lines.deep_view().take(li as int)),
            ),
        decreases lines.len() - li,
    {
        let ghost done = lines.deep_view().take(li as int);
        proof {
            assert(lines.deep_view().take(li as int + 1).drop_last() =~= done);
            assert(lines.deep_view().take(li as int + 1).last() == lines@[li as int].deep_view());
            assert(lines@[li as int].deep_view() == lines@[li as int]@);
            lemma_counts_append(m0, tokens_of_lines(done), line_tokens(lines@[li as int]@));
        }
        process_line(table, &lines[li]);
        li += 1;
    }
    proof {
        assert(lines.deep_view().take(lines@.len() as int) =~= lines.deep_view());
    }
}

/// Processes one document from its raw bytes: decodes them leniently,
/// then counts every accepted word of the decoded text.
pub fn process_document(table: &mut FreqTable, bytes: &Vec<u8>)
    ensures
        table_contents(*final(table)) == counts_of_tokens(
            table_contents(*old(table)),
            text_tokens(crate::ingest::lossy_decode(bytes@)),
        ),
{
    let text = crate::ingest::decode_text(bytes);
    process_text(table, &text);
}

/// Decodes a document's bytes and hands back its lines, so that a caller
/// may spread the lines of one document over parallel workers.
pub fn decode_to_lines(bytes: &Vec<u8>) -> (r: Vec<Vec<u8>>)
    ensures
        r.deep_view() == text_lines(crate::ingest::lossy_decode(bytes@)),
{
    let text = crate::ingest::decode_text(bytes);
    split_on(&text, LINE_SEP)
}

} // verus!

//! Splitting byte text into pieces on a separator byte.
//!
//! A text of length `n` with `k` separator bytes splits into exactly
//! `k + 1` pieces, in order, each free of the separator; consecutive
//! separators yield empty pieces, which the word filter rejects later.

use vstd::prelude::*;

verus! {

/// The pieces of `s` between occurrences of `sep`, in order. Splitting the
/// empty text gives one empty piece, as splitting a text into lines or a
/// line into tokens does.
pub open spec fn spec_split(s: Seq<u8>, sep: u8) -> Seq<Seq<u8>>
    decreases s.len(),
{
    if s.len() == 0 {
        seq![Seq::<u8>::empty()]
    } else {
        let rest = spec_split(s.drop_last(), sep);
        if s.last() == sep {
            rest.push(Seq::<u8>::empty())
        } else {
            rest.update(rest.len() - 1, rest.last().push(s.last()))
        }
    }
}

/// Splitting always yields at least one piece and at most one more piece
/// than the text has bytes.
pub proof fn lemma_spec_split_len(s: Seq<u8>, sep: u8)
    ensures
        1 <= spec_split(s, sep).len() <= s.len() + 1,
    decreases s.len(),
{
    if s.len() > 0 {
        lemma_spec_split_len(s.drop_last(), sep);
    }
}

/// Cuts `text` at every occurrence of `sep`, returning the pieces in
/// order, exactly as `spec_split` describes them.
pub fn split_on(text: &Vec<u8>, sep: u8) -> (r: Vec<Vec<u8>>)
    ensures
        r.deep_view() == spec_split(text@, sep),
{
    let mut pieces: Vec<Vec<u8>> = Vec::new();
    let mut cur: Vec<u8> = Vec::new();
    let mut i: usize = 0;
    proof {
        assert(text@.take(0) =~= Seq::<u8>::empty());
        assert(pieces.deep_view().push(cur@) =~= seq![Seq::<u8>::empty()]);
    }
    while i < text.len()
        invariant
            0 <= i <= text.len(),
            pieces.deep_view().push(cur@) == spec_split(text@.take(i as int), sep),
        decreases text.len() - i,
    {
        let ghost prefix = text@.take(i as int);
        let ghost split_prev = spec_split(prefix, sep);
        proof {
            assert(text@.take(i as int + 1).drop_last() =~= prefix);
            assert(text@.take(i as int + 1).last() == text@[i as int]);
        }
        let b = text[i];
        if b == sep {
            let done = cur;
            cur = Vec::new();
            pieces.push(done);
            proof {
                assert(pieces.deep_view().push(cur@) =~~= split_prev.push(Seq::<u8>::empty()));
            }
        } else {
            cur.push(b);
            proof {
                assert(split_prev.len() >= 1) by {
                    lemma_spec_split_len(prefix, sep);
                }
                assert(pieces.deep_view().push(cur@) =~~= split_prev.update(
                    split_prev.len() - 1,
                    split_prev.last().push(b),
                ));
            }
        }
        i += 1;
    }
    proof {
        assert(text@.take(text@.len() as int) =~= text@);
    }
    pieces.push(cur);
    proof {
        assert(pieces.deep_view() =~~= spec_split(text@, sep));
    }
    pieces
}

} // verus!

//! The word filter: decides whether a raw token is kept as a word and, if
//! so, normalizes it to lowercase ASCII.
//!
//! A token is a run of bytes cut from a line. The filter trims punctuation
//! from both ends, rejects tokens shorter than two bytes, tokens with a
//! non-alphabetic byte, tokens with an uppercase letter after the first
//! position, lowercases the rest, and finally rejects words without a vowel
//! and words written entirely in roman-numeral letters.

use vstd::prelude::*;

verus! {

/// True of the bytes that the filter trims from the ends of a token:
/// apostrophe, double quote, hyphen, ampersand, period, comma, semicolon,
/// colon, and the six bracket characters.
pub open spec fn is_trim_byte(b: u8) -> bool {
    b == 39u8 || b == 34u8 || b == 45u8 || b == 38u8 || b == 46u8 || b == 44u8
        || b == 59u8 || b == 58u8 || b == 41u8 || b == 40u8 || b == 93u8
        || b == 91u8 || b == 125u8 || b == 123u8
}

/// True of ASCII letters, `A`..`Z` and `a`..`z`.
pub open spec fn is_ascii_alpha(b: u8) -> bool {
    (65 <= b && b <= 90) || (97 <= b && b <= 122)
}

/// True of uppercase ASCII letters, `A`..`Z`.
pub open spec fn is_ascii_upper(b: u8) -> bool {
    65 <= b && b <= 90
}

/// Lowercases one byte: uppercase ASCII letters move down by 32, every
/// other byte stays.
pub open spec fn lower_byte(b: u8) -> u8 {
    if is_ascii_upper(b) {
        (b + 32) as u8
    } else {
        b
    }
}

/// True of the lowercase vowels `a`, `e`, `i`, `o`, `u`.
pub open spec fn is_vowel(b: u8) -> bool {
    b == 97u8 || b == 101u8 || b == 105u8 || b == 111u8 || b == 117u8
}

/// True of the lowercase roman-numeral letters `i`, `v`, `x`, `l`, `c`,
/// `d`, `m`.
pub open spec fn is_roman_byte(b: u8) -> bool {
    b == 105u8 || b == 118u8 || b == 120u8 || b == 108u8 || b == 99u8
        || b == 100u8 || b == 109u8
}

/// The token with its leading trim bytes removed.
pub open spec fn trim_start(s: Seq<u8>) -> Seq<u8>
    decreases s.len(),
{
    if s.len() > 0 && is_trim_byte(s[0]) {
        trim_start(s.drop_first())
    } else {
        s
    }
}

/// The token with its trailing trim bytes removed.
pub open spec fn trim_end(s: Seq<u8>) -> Seq<u8>
    decreases s.len(),
{
    if s.len() > 0 && is_trim_byte(s.last()) {
        trim_end(s.drop_last())
    } else {
        s
    }
}

/// The token with trim bytes removed from both ends.
pub open spec fn spec_trim(s: Seq<u8>) -> Seq<u8> {
    trim_end(trim_start(s))
}

/// Every byte of `s` is an ASCII letter.
pub open spec fn all_alpha(s: Seq<u8>) -> bool {
    forall|i: int| 0 <= i < s.len() ==> is_ascii_alpha(#[trigger] s[i])
}

/// Some byte after the first is an uppercase ASCII letter.
pub open spec fn has_upper_after_first(s: Seq<u8>) -> bool {
    exists|i: int| 1 <= i < s.len() && is_ascii_upper(#[trigger] s[i])
}

/// The whole token lowercased, byte by byte.
pub open spec fn lowered(s: Seq<u8>) -> Seq<u8> {
    s.map_values(|b: u8| lower_byte(b))
}

/// Some byte of `s` is a vowel.
pub open spec fn has_vowel(s: Seq<u8>) -> bool {
    exists|i: int| 0 <= i < s.len() && is_vowel(#[trigger] s[i])
}

/// Every byte of `s` is a roman-numeral letter.
pub open spec fn all_roman(s: Seq<u8>) -> bool {
    forall|i: int| 0 <= i < s.len() ==> is_roman_byte(#[trigger] s[i])
}

/// What the word filter returns for a raw token: the normalized word, or
/// `None` when one of the rules rejects the token. The rules apply in a
/// fixed order: trim, length, alphabetic-only, no uppercase after the first
/// byte, lowercase, vowel presence, roman-numeral exclusion. A word made
/// only of roman-numeral letters is rejected even when it has a vowel: the
/// roman rule runs last, by design.
pub open spec fn spec_filter_word(token: Seq<u8>) -> Option<Seq<u8>> {
    let t = spec_trim(token);
    if t.len() < 2 {
        None
    } else if !all_alpha(t) {
        None
    } else if has_upper_after_first(t) {
        None
    } else {
        let w = lowered(t);
        if !has_vowel(w) {
            None
        } else if all_roman(w) {
            None
        } else {
            Some(w)
        }
    }
}

/// Executable twin of `is_trim_byte`.
fn byte_is_trim(b: u8) -> (r: bool)
    ensures
        r == is_trim_byte(b),
{
    b == 39u8 || b == 34u8 || b == 45u8 || b == 38u8 || b == 46u8 || b == 44u8
        || b == 59u8 || b == 58u8 || b == 41u8 || b == 40u8 || b == 93u8
        || b == 91u8 || b == 125u8 || b == 123u8
}

/// Applies the whole rule chain to one raw token. Returns the normalized
/// word exactly when `spec_filter_word` accepts the token; rejection is a
/// normal outcome, not an error.
pub fn filter_word(token: &Vec<u8>) -> (r: Option<Vec<u8>>)
    ensures
        r is Some <==> spec_filter_word(token@) is Some,
        r matches Some(w) ==> w@ == spec_filter_word(token@)->Some_0,
{
    let mut start: usize = 0;
    let mut end: usize = token.len();

    proof {
        assert(token@.skip(0) =~= token@);
    }
    while start < end && byte_is_trim(token[start])
        invariant
            0 <= start <= end,
            end == token.len(),
            trim_start(token@) == trim_start(token@.skip(start as int)),
        decreases end - start,
    {
        proof {
            let s = token@.skip(start as int);
            assert(s.len() > 0 && is_trim_byte(s[0]));
            assert(s.drop_first() =~= token@.skip(start as int + 1));
        }
        start += 1;
    }
    proof {
        if start < end {
            assert(token@.skip(start as int)[0] == token@[start as int]);
        }
        assert(trim_start(token@) == token@.skip(start as int));
        assert(token@.skip(start as int) =~= token@.subrange(start as int, token@.len() as int));
    }

    while end > start && byte_is_trim(token[end - 1])
        invariant
            0 <= start <= end <= token.len(),
            trim_start(token@) == token@.skip(start as int),
            trim_end(token@.skip(start as int)) == trim_end(
                token@.subrange(start as int, end as int),
            ),
        decreases end - start,
    {
        proof {
            let s = token@.subrange(start as int, end as int);
            assert(s.len() > 0 && is_trim_byte(s.last()));
            assert(s.drop_last() =~= token@.subrange(start as int, end as int - 1));
        }
        end -= 1;
    }
    proof {
        if start < end {
            assert(token@.subrange(start as int, end as int).last() == token@[end - 1]);
        }
        assert(spec_trim(token@) == token@.subrange(start as int, end as int));
    }

    let ghost t = spec_trim(token@);

    if end - start < 2 {
        return None;
    }

    let mut i: usize = start;
    while i < end
        invariant
            start <= i <= end <= token.len(),
            end - start >= 2,
            t == spec_trim(token@),
            t == token@.subrange(start as int, end as int),
            forall|j: int| 0 <= j < i - start ==> is_ascii_alpha(#[trigger] t[j]),
        decreases end - i,
    {
        let b = token[i];
        if !((65 <= b && b <= 90) || (97 <= b && b <= 122)) {
            proof {
                assert(t[i - start as int] == b);
                assert(!all_alpha(t));
            }
            return None;
        }
        i += 1;
    }
    proof {
        assert(all_alpha(t));
    }

    let mut i: usize = start + 1;
    while i < end
        invariant
            start + 1 <= i <= end <= token.len(),
            end - start >= 2,
            t == spec_trim(token@),
            t == token@.subrange(start as int, end as int),
            forall|j: int| 1 <= j < i - start ==> !is_ascii_upper(#[trigger] t[j]),
        decreases end - i,
    {
        let b = token[i];
        if 65 <= b && b <= 90 {
            proof {
                assert(t[i - start as int] == b);
                assert(has_upper_after_first(t));
            }
            return None;
        }
        i += 1;
    }
    proof {
        assert(!has_upper_after_first(t));
    }

    let mut w: Vec<u8> = Vec::new();
    let mut i: usize = start;
    while i < end
        invariant
            start <= i <= end <= token.len(),
            t == token@.subrange(start as int, end as int),
            w@.len() == i - start,
            forall|j: int| 0 <= j < i - start ==> w@[j] == lower_byte(#[trigger] t[j]),
        decreases end - i,
    {
        let b = token[i];
        if 65 <= b && b <= 90 {
            w.push(b + 32);
        } else {
            w.push(b);
        }
        i += 1;
    }
    proof {
        assert(w@ =~= lowered(t));
    }

    let mut found_vowel = false;
    let mut i: usize = 0;
    while i < w.len()
        invariant
            0 <= i <= w@.len(),
            found_vowel <==> exists|j: int| 0 <= j < i && is_vowel(#[trigger] w@[j]),
        decreases w@.len() - i,
    {
        let b = w[i];
        if b == 97u8 || b == 101u8 || b == 105u8 || b == 111u8 || b == 117u8 {
            found_vowel = true;
        }
        i += 1;
    }
    if !found_vowel {
        proof {
            assert(!has_vowel(lowered(t)));
        }
        return None;
    }

    let mut only_roman = true;
    let mut i: usize = 0;
    while i < w.len()
        invariant
            0 <= i <= w@.len(),
            only_roman <==> forall|j: int| 0 <= j < i ==> is_roman_byte(#[trigger] w@[j]),
        decreases w@.len() - i,
    {
        let b = w[i];
        if !(b == 105u8 || b == 118u8 || b == 120u8 || b == 108u8 || b == 99u8
            || b == 100u8 || b == 109u8) {
            only_roman = false;
        }
        i += 1;
    }
    if only_roman {
        proof {
            assert(all_roman(lowered(t)));
        }
        return None;
    }

    proof {
        assert(has_vowel(lowered(t)) && !all_roman(lowered(t)));
    }
    Some(w)
}

} // verus!

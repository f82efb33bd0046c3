use word_freq::filter::filter_word;

fn accepts(token: &[u8]) -> Option<Vec<u8>> {
    filter_word(&token.to_vec())
}

#[test]
fn short_word_with_vowel_is_accepted() {
    assert_eq!(accepts(b"an"), Some(b"an".to_vec()));
}

#[test]
fn single_letter_is_rejected() {
    assert_eq!(accepts(b"I"), None);
}

#[test]
fn leading_capital_is_normalized() {
    assert_eq!(accepts(b"Apple"), Some(b"apple".to_vec()));
}

#[test]
fn roman_numeral_is_rejected() {
    assert_eq!(accepts(b"XVI"), None);
}

#[test]
fn word_of_only_roman_letters_is_rejected() {
    // A known heuristic false positive: every letter of "civil" lies in the
    // roman-numeral set, so the word is rejected although it has vowels.
    // This pins the current behavior on purpose.
    assert_eq!(accepts(b"civil"), None);
}

#[test]
fn mid_roman_letters_with_vowel_rejected_too() {
    assert_eq!(accepts(b"mix"), None);
    assert_eq!(accepts(b"did"), None);
}

#[test]
fn punctuation_is_trimmed_from_both_ends() {
    assert_eq!(accepts(b"'hello,'"), Some(b"hello".to_vec()));
    assert_eq!(accepts(b"(world)"), Some(b"world".to_vec()));
    assert_eq!(accepts(b"[&quote;]"), Some(b"quote".to_vec()));
}

#[test]
fn token_of_only_punctuation_is_rejected() {
    assert_eq!(accepts(b"--"), None);
    assert_eq!(accepts(b"..."), None);
}

#[test]
fn inner_punctuation_is_rejected() {
    assert_eq!(accepts(b"don't"), None);
    assert_eq!(accepts(b"well-known"), None);
}

#[test]
fn embedded_capital_is_rejected() {
    assert_eq!(accepts(b"camelCase"), None);
    assert_eq!(accepts(b"ALL"), None);
}

#[test]
fn word_without_vowel_is_rejected() {
    assert_eq!(accepts(b"tsk"), None);
    assert_eq!(accepts(b"by"), None);
}

#[test]
fn empty_and_whitespace_tokens_are_rejected() {
    assert_eq!(accepts(b""), None);
    assert_eq!(accepts(b" "), None);
}

#[test]
fn non_ascii_bytes_are_rejected() {
    assert_eq!(accepts("caf\u{e9}".as_bytes()), None);
}

#[test]
fn carriage_return_sticks_to_the_token() {
    // A trailing carriage return is not trimmed, so the last word of a
    // CRLF-ended line fails the alphabetic-only rule. Pins the current
    // line-splitting behavior.
    assert_eq!(accepts(b"word\r"), None);
}

#[test]
fn filter_is_a_pure_function_of_its_token() {
    let token = b"Apple".to_vec();
    let first = filter_word(&token);
    let second = filter_word(&token);
    assert_eq!(first, second);
    assert_eq!(first, Some(b"apple".to_vec()));
}

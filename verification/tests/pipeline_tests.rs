use word_freq::laws::process_corpus;
use word_freq::pipeline::{decode_to_lines, process_document, process_line};
use word_freq::split::split_on;
use word_freq::table::{merge_tables, new_table, table_into_rows};

fn sorted_rows(rows: Vec<(Vec<u8>, u64)>) -> Vec<(Vec<u8>, u64)> {
    let mut rows = rows;
    rows.sort();
    rows
}

fn counts_of(doc: &[u8]) -> Vec<(Vec<u8>, u64)> {
    let mut table = new_table();
    process_document(&mut table, &doc.to_vec());
    sorted_rows(table_into_rows(table))
}

#[test]
fn split_keeps_empty_pieces() {
    let pieces = split_on(&b"a b  c".to_vec(), 32);
    assert_eq!(
        pieces,
        vec![b"a".to_vec(), b"b".to_vec(), b"".to_vec(), b"c".to_vec()]
    );
}

#[test]
fn split_of_empty_text_is_one_empty_piece() {
    assert_eq!(split_on(&b"".to_vec(), 10), vec![b"".to_vec()]);
}

#[test]
fn split_counts_separators() {
    assert_eq!(
        split_on(&b"\n\n".to_vec(), 10),
        vec![b"".to_vec(), b"".to_vec(), b"".to_vec()]
    );
}

#[test]
fn counts_equal_accepted_occurrences() {
    let rows = counts_of(b"the cat and the dog\nthe end");
    assert_eq!(
        rows,
        vec![
            (b"and".to_vec(), 1),
            (b"cat".to_vec(), 1),
            (b"dog".to_vec(), 1),
            (b"end".to_vec(), 1),
            (b"the".to_vec(), 3),
        ]
    );
}

#[test]
fn empty_document_yields_empty_table() {
    assert_eq!(counts_of(b""), vec![]);
}

#[test]
fn crlf_line_endings_lose_the_last_word() {
    // The splitter cuts on the newline byte alone, so a carriage return
    // stays glued to the preceding token and that token is rejected.
    let rows = counts_of(b"alpha beta\r\ngamma");
    assert_eq!(rows, vec![(b"alpha".to_vec(), 1), (b"gamma".to_vec(), 1)]);
}

#[test]
fn invalid_bytes_do_not_abort_ingestion() {
    // Words around an invalid byte sequence are still extracted; the
    // mangled token itself is rejected by the alphabetic-only rule.
    let rows = counts_of(b"hello \xff\xfe world");
    assert_eq!(rows, vec![(b"hello".to_vec(), 1), (b"world".to_vec(), 1)]);
}

#[test]
fn document_of_only_invalid_bytes_yields_empty_table() {
    assert_eq!(counts_of(b"\xff\xff\xff"), vec![]);
}

#[test]
fn rerun_on_unchanged_corpus_is_identical() {
    let docs = vec![
        b"one fish two fish\nred fish blue fish".to_vec(),
        b"one more time".to_vec(),
    ];
    let mut first = new_table();
    process_corpus(&mut first, &docs);
    let mut second = new_table();
    process_corpus(&mut second, &docs);
    assert_eq!(
        sorted_rows(table_into_rows(first)),
        sorted_rows(table_into_rows(second))
    );
}

#[test]
fn corpus_counts_sum_over_documents() {
    let docs = vec![b"apple pear".to_vec(), b"apple".to_vec()];
    let mut table = new_table();
    process_corpus(&mut table, &docs);
    let rows = sorted_rows(table_into_rows(table));
    assert_eq!(rows, vec![(b"apple".to_vec(), 2), (b"pear".to_vec(), 1)]);
}

#[test]
fn forked_workers_merged_in_any_order_match_sequential_counts() {
    let doc = b"ant bee ant\ncow ant bee\nbee cow ant".to_vec();
    let expected = counts_of(&doc);

    // One table per line, as parallel workers would hold, joined in
    // reverse order: the result must not depend on the schedule.
    let lines = decode_to_lines(&doc);
    let mut acc = new_table();
    for line in lines.iter().rev() {
        let mut part = new_table();
        process_line(&mut part, line);
        acc = merge_tables(acc, part);
    }
    assert_eq!(sorted_rows(table_into_rows(acc)), expected);
}

#[test]
fn merging_tables_adds_counts() {
    let mut left = new_table();
    process_document(&mut left, &b"apple pear".to_vec());
    let mut right = new_table();
    process_document(&mut right, &b"apple".to_vec());
    let joined = merge_tables(left, right);
    assert_eq!(
        sorted_rows(table_into_rows(joined)),
        vec![(b"apple".to_vec(), 2), (b"pear".to_vec(), 1)]
    );
}

#[test]
fn decode_to_lines_cuts_on_newline_only() {
    let lines = decode_to_lines(&b"one two\nthree".to_vec());
    assert_eq!(lines, vec![b"one two".to_vec(), b"three".to_vec()]);
}

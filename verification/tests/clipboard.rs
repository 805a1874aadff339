use plv::clipboard::{base64, copy, parse, sequence, tsv, MAX_BYTES};


fn block(rows: &[&[&str]]) -> Vec<Vec<String>> {
    rows.iter()
        .map(|row| row.iter().map(|c| c.to_string()).collect())
        .collect()
}

#[test]
fn a_block_goes_out_as_tsv() {
    assert_eq!(tsv(&block(&[&["a", "b"], &["c", "d"]])), "a\tb\nc\td\n");
}

/// The wire format and the file writer have to agree about quoting, or a
/// cell holding a tab arrives somewhere else as two.
#[test]
fn a_value_that_needs_quotes_gets_them_and_survives_the_trip() {
    let awkward = block(&[&["one\ttwo", "a \"quoted\" thing"], &["line\nbreak", ""]]);
    let wire = tsv(&awkward);
    assert_eq!(
        wire,
        "\"one\ttwo\"\t\"a \"\"quoted\"\" thing\"\n\"line\nbreak\"\t\n"
    );
    assert_eq!(parse(&wire), awkward, "and comes back what it was");
}

#[test]
fn a_plain_block_round_trips() {
    let plain = block(&[&["1", "2", "3"], &["4", "5", "6"]]);
    assert_eq!(parse(&tsv(&plain)), plain);
}

#[test]
fn a_paste_from_anywhere_else_is_read_as_it_comes() {
    assert_eq!(parse("hello"), block(&[&["hello"]]), "one value, one cell");
    assert_eq!(parse("a\tb"), block(&[&["a", "b"]]));
    assert_eq!(
        parse("a\tb\r\nc\td\r\n"),
        block(&[&["a", "b"], &["c", "d"]]),
        "and a windows line ending is still a line ending"
    );
    assert_eq!(
        parse("a\nb"),
        block(&[&["a"], &["b"]]),
        "a last line with no terminator is still a row"
    );
    assert!(parse("").is_empty(), "and nothing is nothing");
}

#[test]
fn base64_matches_the_standard_alphabet_and_padding() {
    assert_eq!(base64(b""), "");
    assert_eq!(base64(b"f"), "Zg==");
    assert_eq!(base64(b"fo"), "Zm8=");
    assert_eq!(base64(b"foo"), "Zm9v");
    assert_eq!(base64(b"foobar"), "Zm9vYmFy");
    assert_eq!(base64("é".as_bytes()), "w6k=");
}

#[test]
fn the_sequence_is_the_one_terminals_answer() {
    assert_eq!(sequence("hi"), "\x1b]52;c;aGk=\x07");
}

#[test]
fn too_much_text_is_not_sent_at_all() {
    // Half a block on the clipboard is worse than none: nothing about it
    // looks wrong.
    assert!(copy(&"x".repeat(MAX_BYTES + 1), true).is_none());
}

use plv::data::edit::Overlay;
use plv::data::writer::splice;


/// Splice `edits` into `input` and return the bytes written.
fn spliced(input: &str, edits: &[((usize, usize), &str)], rows: usize) -> String {
    run(input, edits, rows, b',').expect("splice failed")
}

fn run(
    input: &str,
    edits: &[((usize, usize), &str)],
    rows: usize,
    separator: u8,
) -> Result<String, String> {
    let mut overlay = Overlay::new();
    for &(cell, value) in edits {
        overlay.set(vec![(cell, value.to_string())]);
    }
    let out = splice(input.as_bytes(), separator, true, &overlay, rows).map_err(|e| e.message())?;
    Ok(String::from_utf8(out).unwrap())
}

#[test]
fn an_unedited_file_is_copied_byte_for_byte() {
    // Mixed quoting, CRLF, a BOM and no final newline: all of it must survive.
    let input = "\u{feff}name,note\r\n\"a, b\",  x  \r\n\"say \"\"hi\"\"\",y";
    assert_eq!(spliced(input, &[], 2), input);
}

#[test]
fn only_the_edited_field_changes() {
    let input = "name,count\na,1\nb,2\nc,3\n";
    assert_eq!(
        spliced(input, &[((1, 1), "99")], 3),
        "name,count\na,1\nb,99\nc,3\n"
    );
}

#[test]
fn the_header_is_not_a_data_row() {
    let input = "name,count\na,1\n";
    assert_eq!(spliced(input, &[((0, 0), "z")], 1), "name,count\nz,1\n");
}

#[test]
fn a_quoted_field_is_replaced_whole() {
    let input = "name,note\n\"a, b\",\"keep, me\"\n";
    assert_eq!(
        spliced(input, &[((0, 0), "plain")], 1),
        "name,note\nplain,\"keep, me\"\n"
    );
}

#[test]
fn a_new_value_is_quoted_only_when_it_has_to_be() {
    let input = "a,b\n1,2\n";
    assert_eq!(spliced(input, &[((0, 0), "x,y")], 1), "a,b\n\"x,y\",2\n");
    assert_eq!(
        spliced(input, &[((0, 0), "say \"hi\"")], 1),
        "a,b\n\"say \"\"hi\"\"\",2\n"
    );
    assert_eq!(
        spliced(input, &[((0, 0), "two\nlines")], 1),
        "a,b\n\"two\nlines\",2\n"
    );
    assert_eq!(spliced(input, &[((0, 0), "plain")], 1), "a,b\nplain,2\n");
    assert_eq!(spliced(input, &[((0, 0), "")], 1), "a,b\n,2\n");
}

#[test]
fn a_newline_inside_quotes_does_not_end_the_record() {
    let input = "name,note\n\"a\",\"line one\nline two\"\nb,plain\n";
    assert_eq!(
        spliced(input, &[((1, 1), "edited")], 2),
        "name,note\n\"a\",\"line one\nline two\"\nb,edited\n"
    );
}

#[test]
fn crlf_survives_an_edit() {
    let input = "a,b\r\n1,2\r\n3,4\r\n";
    assert_eq!(spliced(input, &[((0, 1), "9")], 2), "a,b\r\n1,9\r\n3,4\r\n");
}

#[test]
fn a_bare_cr_is_field_content() {
    let input = "a,b\n1\r5,2\n";
    assert_eq!(spliced(input, &[((0, 1), "9")], 1), "a,b\n1\r5,9\n");
    assert_eq!(spliced(input, &[((0, 0), "x")], 1), "a,b\nx,2\n");
}

#[test]
fn an_empty_field_is_a_place_an_edit_can_land() {
    let input = "a,b,c\n1,,3\n";
    assert_eq!(spliced(input, &[((0, 1), "2")], 1), "a,b,c\n1,2,3\n");
}

#[test]
fn a_trailing_empty_field_can_be_edited() {
    let input = "a,b,c\n1,2,\n";
    assert_eq!(spliced(input, &[((0, 2), "3")], 1), "a,b,c\n1,2,3\n");
}

#[test]
fn a_missing_final_newline_stays_missing() {
    let input = "a,b\n1,2";
    assert_eq!(spliced(input, &[((0, 1), "9")], 1), "a,b\n1,9");
}

#[test]
fn a_blank_line_takes_a_row_number_of_its_own() {
    // Polars reads an empty line as a row of nulls, so `y,2` is row 2.
    let input = "a,b\nx,1\n\ny,2\n";
    assert_eq!(spliced(input, &[((2, 0), "z")], 3), "a,b\nx,1\n\nz,2\n");
}

#[test]
fn a_trailing_blank_line_is_a_row_too() {
    let input = "a,b\nx,1\n\n";
    assert_eq!(spliced(input, &[((0, 0), "z")], 2), "a,b\nz,1\n\n");
}

#[test]
fn a_tab_separated_file_quotes_on_tabs_not_commas() {
    let input = "a\tb\n1\t2\n";
    assert_eq!(
        run(input, &[((0, 0), "x,y")], 1, b'\t').unwrap(),
        "a\tb\nx,y\t2\n"
    );
    assert_eq!(
        run(input, &[((0, 0), "x\ty")], 1, b'\t').unwrap(),
        "a\tb\n\"x\ty\"\t2\n"
    );
}

#[test]
fn several_edits_in_one_record() {
    let input = "a,b,c\n1,2,3\n";
    assert_eq!(
        spliced(input, &[((0, 0), "x"), ((0, 2), "z")], 1),
        "a,b,c\nx,2,z\n"
    );
}

/// Deleting rows, spliced the same way an edit is: the surviving bytes are
/// untouched and the struck rows leave nothing behind, terminator
/// included.
fn without(input: &str, struck: &[usize], rows: usize) -> String {
    let mut overlay = Overlay::new();
    overlay.delete(struck.to_vec(), usize::MAX);
    let out = splice(input.as_bytes(), b',', true, &overlay, rows).expect("splice failed");
    String::from_utf8(out).unwrap()
}

#[test]
fn a_struck_row_leaves_nothing_behind() {
    let input = "name,count\na,1\nb,2\nc,3\n";
    assert_eq!(without(input, &[1], 3), "name,count\na,1\nc,3\n");
    assert_eq!(without(input, &[0, 2], 3), "name,count\nb,2\n");
    assert_eq!(without(input, &[0, 1, 2], 3), "name,count\n");
}

#[test]
fn the_header_is_never_struck() {
    // Row 0 is the first *data* row, so deleting it must not take the
    // header with it.
    let input = "name,count\na,1\nb,2\n";
    assert_eq!(without(input, &[0], 2), "name,count\nb,2\n");
}

#[test]
fn deleting_a_row_with_a_quoted_newline_removes_all_of_it() {
    let input = "a,b\n\"one\ntwo\",x\ny,z\n";
    assert_eq!(without(input, &[0], 2), "a,b\ny,z\n");
}

#[test]
fn crlf_survives_a_deletion() {
    let input = "a,b\r\n1,2\r\n3,4\r\n";
    assert_eq!(without(input, &[0], 2), "a,b\r\n3,4\r\n");
}

#[test]
fn deleting_the_last_row_of_a_file_with_no_final_newline() {
    let input = "a,b\n1,2\n3,4";
    assert_eq!(without(input, &[1], 2), "a,b\n1,2\n");
    assert_eq!(without(input, &[0], 2), "a,b\n3,4");
}

#[test]
fn a_row_can_be_edited_and_struck_in_the_same_write() {
    let mut overlay = Overlay::new();
    overlay.set(vec![((0, 1), "99".to_string())]);
    overlay.delete(vec![1], usize::MAX);
    let out = splice("name,count\na,1\nb,2\nc,3\n".as_bytes(), b',', true, &overlay, 3).unwrap();
    assert_eq!(
        String::from_utf8(out).unwrap(),
        "name,count\na,99\nc,3\n",
        "the edit lands and the other row goes"
    );
}

#[test]
fn an_edit_on_a_struck_row_is_written_nowhere() {
    // Contradictory, and the row wins: it is not in the file to edit.
    let mut overlay = Overlay::new();
    overlay.set(vec![((1, 0), "zz".to_string())]);
    overlay.delete(vec![1], usize::MAX);
    let out = splice("name,count\na,1\nb,2\n".as_bytes(), b',', true, &overlay, 2).unwrap();
    assert_eq!(String::from_utf8(out).unwrap(), "name,count\na,1\n");
}

#[test]
fn a_deletion_that_finds_no_row_is_refused() {
    let mut overlay = Overlay::new();
    overlay.delete(vec![9], usize::MAX);
    let e = splice("a,b\n1,2\n".as_bytes(), b',', true, &overlay, 1)
        .unwrap_err()
        .message();
    assert!(e.contains("deleted rows were not found"), "{e}");
}

/// Adding rows, spliced in at the row they were put before.
fn with_added(input: &str, at: &[(usize, &[(usize, &str)])], rows: usize) -> String {
    let mut overlay = Overlay::new();
    for &(before, cells) in at {
        let id = overlay.add_row(before, usize::MAX, rows);
        for &(field, value) in cells {
            overlay.set(vec![((id, field), value.to_string())]);
        }
    }
    let out = splice(input.as_bytes(), b',', true, &overlay, rows).expect("splice failed");
    String::from_utf8(out).unwrap()
}

#[test]
fn an_added_row_goes_in_before_the_row_it_was_put_before() {
    let input = "name,count\na,1\nb,2\n";
    assert_eq!(
        with_added(input, &[(1, &[(0, "new"), (1, "9")])], 2),
        "name,count\na,1\nnew,9\nb,2\n"
    );
    assert_eq!(
        with_added(input, &[(0, &[(0, "first")])], 2),
        "name,count\nfirst,\na,1\nb,2\n",
        "before the first row, and still under the header"
    );
}

#[test]
fn a_row_added_past_the_last_one_lands_at_the_end() {
    let input = "name,count\na,1\nb,2\n";
    assert_eq!(
        with_added(input, &[(2, &[(0, "last"), (1, "3")])], 2),
        "name,count\na,1\nb,2\nlast,3\n"
    );
}

#[test]
fn an_added_row_has_a_field_for_every_column() {
    // Untyped fields come out empty, which is what an absent value is.
    let input = "a,b,c\n1,2,3\n";
    assert_eq!(
        with_added(input, &[(1, &[(1, "only")])], 1),
        "a,b,c\n1,2,3\n,only,\n"
    );
}

#[test]
fn added_rows_keep_the_files_own_line_ending() {
    let input = "a,b\r\n1,2\r\n";
    assert_eq!(
        with_added(input, &[(1, &[(0, "x"), (1, "y")])], 1),
        "a,b\r\n1,2\r\nx,y\r\n"
    );
}

#[test]
fn a_row_added_to_a_file_with_no_final_newline_gets_one_first() {
    let input = "a,b\n1,2";
    assert_eq!(
        with_added(input, &[(1, &[(0, "x"), (1, "y")])], 1),
        "a,b\n1,2\nx,y\n",
        "or the added row would join the last one"
    );
}

#[test]
fn several_rows_added_at_one_place_keep_their_order() {
    let input = "a,b\n1,2\n";
    let mut overlay = Overlay::new();
    for name in ["one", "two", "three"] {
        let id = overlay.add_row(1, usize::MAX, 1);
        overlay.set(vec![((id, 0), name.to_string())]);
    }
    let out = splice(input.as_bytes(), b',', true, &overlay, 1).unwrap();
    assert_eq!(
        String::from_utf8(out).unwrap(),
        "a,b\n1,2\none,\ntwo,\nthree,\n"
    );
}

#[test]
fn a_value_needing_quotes_is_quoted_in_an_added_row() {
    let input = "a,b\n1,2\n";
    assert_eq!(
        with_added(input, &[(1, &[(0, "x,y"), (1, "say \"hi\"")])], 1),
        "a,b\n1,2\n\"x,y\",\"say \"\"hi\"\"\"\n"
    );
}

#[test]
fn a_row_added_where_no_row_exists_is_refused() {
    let mut overlay = Overlay::new();
    overlay.add_row(9, 0, 2);
    let e = splice("a,b\n1,2\n3,4\n".as_bytes(), b',', true, &overlay, 2)
        .unwrap_err()
        .message();
    assert!(e.contains("added rows had nowhere to go"), "{e}");
}

#[test]
fn a_row_count_that_disagrees_is_refused() {
    let err = run("a,b\n1,2\n", &[], 5, b',').unwrap_err();
    assert!(err.contains("1 data rows"), "{err}");
    assert!(err.contains("changed on disk"), "{err}");
}

#[test]
fn an_edit_with_no_field_to_land_in_is_refused() {
    // A ragged row: field 4 does not exist, so the edit would be dropped.
    let err = run("a,b\n1,2\n", &[((0, 4), "x")], 1, b',')
        .unwrap_err();
    assert!(err.contains("no field to land in"), "{err}");
}


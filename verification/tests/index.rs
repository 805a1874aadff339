use plv::data::edit::Overlay;
use plv::data::index::RowIndex;
use plv::data::writer::splice;
use polars::prelude::{CsvReadOptions, SerReader};
use std::io::Cursor;

fn rows_of(contents: &str) -> usize {
    RowIndex::build(contents.as_bytes(), b',').rows()
}

#[test]
fn records_are_counted_the_way_the_writer_counts_them() {
    assert_eq!(rows_of("a,b\n1,2\n3,4\n"), 2);
    assert_eq!(rows_of("a,b\n1,2"), 1, "no trailing newline");
    assert_eq!(rows_of("a,b\n"), 0, "header only");
    assert_eq!(rows_of("a,b\n1,2\n\n3,4\n"), 3, "a blank line is a row");
    assert_eq!(rows_of("a,b\r\n1,2\r\n"), 1, "crlf");
}

#[test]
fn a_newline_inside_quotes_is_not_a_record_boundary() {
    assert_eq!(rows_of("a,b\n\"one\ntwo\",x\ny,z\n"), 2);
    assert_eq!(rows_of("a,b\n\"say \"\"hi\"\"\",x\n"), 1, "escaped quotes");
}

#[test]
fn a_quote_that_is_not_at_a_field_start_is_an_ordinary_character() {
    // `ab"cd` must not open a quoted span, or every later newline would be
    // swallowed and the count would collapse.
    assert_eq!(rows_of("a,b\nab\"cd,x\ny,z\n"), 2);
}

/// The index, the writer and Polars all decide separately what a record
/// is. They have to agree, so this holds the three together over the cases
/// where they could differ.
#[test]
fn the_index_counts_records_the_way_polars_and_the_writer_do() {
    let cases: &[(&str, &str)] = &[
        ("plain", "a,b\n1,2\n3,4\n"),
        ("no-trailing-newline", "a,b\n1,2\n3,4"),
        ("crlf", "a,b\r\n1,2\r\n3,4\r\n"),
        ("blank-line-between", "a,b\n1,2\n\n3,4\n"),
        ("trailing-blank-line", "a,b\n1,2\n\n"),
        ("quoted-newline", "a,b\n\"one\ntwo\",x\ny,z\n"),
        ("escaped-quotes", "a,b\n\"say \"\"hi\"\"\",x\ny,z\n"),
        ("quoted-separator", "a,b\n\"x,y\",z\np,q\n"),
        ("bare-quote-mid-field", "a,b\nab\"cd,x\ny,z\n"),
        ("empty-fields", "a,b,c\n,,\n1,,3\n"),
    ];

    for (label, contents) in cases {
        let polars = match CsvReadOptions::default()
            .with_has_header(true)
            .into_reader_with_file_handle(Cursor::new(contents.as_bytes().to_vec()))
            .finish()
        {
            Ok(df) => df.height(),
            // Polars declines some shapes outright; such a file could not be
            // opened either, so there is nothing to agree about.
            Err(e) => {
                println!("  {label}: polars will not read this: {e}");
                continue;
            }
        };
        let index = RowIndex::build(contents.as_bytes(), b',').rows();
        assert_eq!(
            index, polars,
            "{label}: index says {index}, polars {polars}"
        );

        // The writer refuses when its own count disagrees, so a clean
        // write here is the third opinion.
        if let Err(e) = splice(contents.as_bytes(), b',', true, &Overlay::new(), index) {
            panic!("{label}: the writer disagrees: {}", e.message());
        }
    }
}

#[test]
fn the_header_is_kept_without_its_terminator() {
    let index = RowIndex::build(b"a,b\r\n1,2\n", b',');
    assert_eq!(index.header(), b"a,b");
}

#[test]
fn a_page_can_be_read_back_from_its_offset() {
    let file = b"a,b\n1,2\n3,4\n5,6\n";
    let index = RowIndex::build(file, b',');
    let (row, at) = index.seek(0);
    assert_eq!((row, at), (0, 4), "data starts after `a,b\\n`");

    let span = &file[at as usize..index.end_of(3) as usize];
    let bytes = index.framed(span);
    assert_eq!(String::from_utf8(bytes).unwrap(), "a,b\n1,2\n3,4\n5,6\n");
}

#[test]
fn checkpoints_land_on_row_boundaries() {
    // One row per stride is impractical to test at STRIDE; check the
    // arithmetic instead, which is what a page depends on.
    let file = b"a\n1\n2\n3\n";
    let index = RowIndex::build(file, b',');
    assert_eq!(index.rows(), 3);
    // Everything below one stride resolves to the first checkpoint.
    assert_eq!(index.seek(0), (0, 2));
    assert_eq!(index.seek(2), (0, 2));
    assert_eq!(index.end_of(3), file.len() as u64, "past the end is the file's end");
}

use plv::data::loader::{
    detect_format, separator, sniff_delimiter, unsupported, FileFormat,
};
use polars::prelude::{CsvParseOptions, CsvReadOptions, DataFrame, SerReader};
use std::io::Cursor;

/// Read `contents` as a file with this extension would be read.
fn load(extension: &str, contents: &str) -> DataFrame {
    let format = detect_format(Some(extension));
    assert_eq!(unsupported(format), None);
    let delim = separator(format, contents.as_bytes()).unwrap();
    CsvReadOptions::default()
        .with_has_header(true)
        .with_parse_options(CsvParseOptions::default().with_separator(delim))
        .into_reader_with_file_handle(Cursor::new(contents.as_bytes().to_vec()))
        .finish()
        .unwrap()
}

#[test]
fn tab_separated_extensions_split_on_tabs() {
    for ext in ["tsv", "tab", "txt"] {
        let df = load(ext, "name\tcount\na\t1\nb\t2\n");
        assert_eq!(df.shape(), (2, 2), "{ext}");
        assert_eq!(df.get_column_names(), ["name", "count"], "{ext}");
    }
}

#[test]
fn comma_separated_txt_is_sniffed() {
    let df = load("txt", "name,count\na,1\nb,2\n");
    assert_eq!(df.shape(), (2, 2));
    assert_eq!(df.get_column_names(), ["name", "count"]);
}

#[test]
fn sniffs_each_candidate() {
    assert_eq!(sniff_delimiter(b"a\tb\n1\t2\n"), b'\t');
    assert_eq!(sniff_delimiter(b"a,b\n1,2\n"), b',');
    assert_eq!(sniff_delimiter(b"a;b\n1;2\n"), b';');
    assert_eq!(sniff_delimiter(b"a|b\n1|2\n"), b'|');
}

#[test]
fn ignores_delimiters_inside_quotes() {
    // Every line has one real semicolon; the commas are all quoted away.
    let sample = b"name;note\n\"a,b\";\"x,y,z\"\n\"c,d\";\"p,q,r\"\n";
    assert_eq!(sniff_delimiter(sample), b';');
}

#[test]
fn prose_and_empty_samples_fall_back_to_tab() {
    // Commas appear, but not the same number of times on every line.
    assert_eq!(sniff_delimiter(b"one, two, three\nfour five\n"), b'\t');
    assert_eq!(sniff_delimiter(b""), b'\t');
}

#[test]
fn windows_line_endings_do_not_break_counting() {
    assert_eq!(sniff_delimiter(b"a,b\r\n1,2\r\n"), b',');
}

#[test]
fn an_extension_names_a_format() {
    assert_eq!(detect_format(Some("csv")), FileFormat::Csv);
    assert_eq!(detect_format(Some("tsv")), FileFormat::Tsv);
    assert_eq!(detect_format(Some("parquet")), FileFormat::Parquet);
    assert_eq!(separator(FileFormat::Csv, b"a\tb\n"), Some(b','));
    assert_eq!(separator(FileFormat::Tsv, b"a,b\n"), Some(b'\t'));
    assert_eq!(separator(FileFormat::Parquet, b""), None);
}

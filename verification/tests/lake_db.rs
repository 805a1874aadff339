use plv::data::jsonl::ColumnType;
use plv::data::lake_db::{
    count_sql, file_map, hive_keys, human_bytes, human_count, page_sql, partitions_sql, quote_ident,
    shown_as, sql_str, FileMap, FileSpan, LakeSource, Partition, TableInfo,
};

/// Three files of known length.
fn three_files() -> FileMap {
    let mut files = Vec::new();
    let mut start = 0;
    for (i, rows) in [5usize, 3, 4].into_iter().enumerate() {
        files.push(FileSpan {
            path: format!("part{i}.parquet"),
            start,
            rows,
        });
        start += rows;
    }
    FileMap {
        files,
        columns: vec!["n".to_string(), "tag".to_string()],
    }
}

/// The rows of a page: row `k` of a file that starts at row `s` holds `s + k`.
fn ns(map: &FileMap, offset: usize, limit: usize) -> Vec<usize> {
    let mut out = Vec::new();
    for piece in map.plan(offset, limit).unwrap() {
        let file = &map.files[piece.file];
        assert!(piece.local + piece.take <= file.rows);
        out.extend((piece.local..piece.local + piece.take).map(|k| file.start + k));
    }
    out
}

#[test]
fn a_page_is_read_from_the_file_its_rows_fall_in() {
    let map = three_files();
    assert_eq!(ns(&map, 0, 3), [0, 1, 2]);
    assert_eq!(ns(&map, 5, 3), [5, 6, 7], "the second file");
    assert_eq!(ns(&map, 8, 4), [8, 9, 10, 11], "the third");
}

#[test]
fn a_page_that_straddles_files_is_stitched_from_both() {
    let map = three_files();
    assert_eq!(ns(&map, 3, 4), [3, 4, 5, 6]);
    assert_eq!(
        ns(&map, 2, 10),
        [2, 3, 4, 5, 6, 7, 8, 9, 10, 11],
        "across all three"
    );
}

#[test]
fn a_page_past_the_end_is_empty_rather_than_wrong() {
    let map = three_files();
    assert_eq!(ns(&map, 12, 5).len(), 0);
    // A page that runs off the end gives what there is.
    assert_eq!(ns(&map, 10, 5), [10, 11]);
    assert_eq!(map.rows(), 12);
}

#[test]
fn a_type_is_what_the_table_says_it_is_not_what_a_page_happens_to_hold() {
    assert_eq!(shown_as("BIGINT"), ColumnType::Int);
    assert_eq!(shown_as("DECIMAL(18,3)"), ColumnType::Float);
    assert_eq!(shown_as("BOOLEAN"), ColumnType::Bool);
    // Everything the viewer draws as text, whatever DuckDB calls it.
    assert_eq!(shown_as("TIMESTAMP"), ColumnType::Text);
    assert_eq!(shown_as("STRUCT(a INTEGER)"), ColumnType::Text);
}

#[test]
fn quoting_escapes_embedded_delimiters() {
    assert_eq!(quote_ident("a\"b"), "\"a\"\"b\"");
    assert_eq!(sql_str("it's"), "'it''s'");
}

#[test]
fn hive_keys_reads_partition_columns() {
    assert_eq!(
        hive_keys("/lake/obs/GEO_LEVEL=Country/f.parquet"),
        vec!["GEO_LEVEL".to_string()]
    );
    assert!(hive_keys("/lake/geo/f.parquet").is_empty());
}

fn table() -> TableInfo {
    TableInfo {
        schema: "s".into(),
        name: "t".into(),
        rows: 0,
        file_count: 0,
        file_size: 0,
        delete_file_count: 0,
        partition_cols: vec!["k".into()],
    }
}

#[test]
fn partition_filter_is_quoted() {
    let table = table();
    let partition = Partition {
        values: vec![("k".into(), "it's".into())],
        rows: 1,
    };
    let source = LakeSource {
        table: table.sql_ref(),
        filter: Some(format!(
            "{} = {}",
            quote_ident(&partition.values[0].0),
            sql_str(&partition.values[0].1)
        )),
    };
    assert!(source.relation().ends_with("WHERE \"k\" = 'it''s'"));
    assert_eq!(LakeSource::of(&table, Some(&partition)).relation(), source.relation());
}

#[test]
fn ordered_appends_sort_keys() {
    let source = LakeSource {
        table: "\"t\"".into(),
        filter: None,
    };
    let sql = source.ordered(&[("a".into(), true), ("b".into(), false)]);
    assert!(sql.ends_with("ORDER BY \"a\" ASC, \"b\" DESC"));
}

#[test]
fn human_helpers_format() {
    assert_eq!(human_bytes(1024), "1.0 KB");
    assert_eq!(human_count(1_140_560_738), "1,140,560,738");
}

#[test]
fn human_bytes_scales() {
    assert_eq!(human_bytes(512), "512 B");
    assert_eq!(human_bytes(1024), "1.0 KB");
    assert_eq!(human_bytes(839_049_956), "800.2 MB");
}

#[test]
fn human_count_groups_digits() {
    assert_eq!(human_count(0), "0");
    assert_eq!(human_count(999), "999");
    assert_eq!(human_count(1_140_560_738), "1,140,560,738");
}

#[test]
fn queries_name_the_table_and_the_window() {
    let source = LakeSource::of(&table(), None);
    let sort = [("n".to_string(), false)];
    let page = page_sql(&source, &sort, 40, 20);
    assert!(page.contains("ORDER BY \"n\" DESC"), "{page}");
    assert!(page.contains("LIMIT 20") && page.contains("OFFSET 40"), "{page}");
    assert!(count_sql(&source).contains(&source.relation()));
    assert!(partitions_sql(&table()).unwrap().contains("\"k\""));
}

#[test]
fn files_are_read_directly_only_when_the_catalog_accounts_for_every_row() {
    let whole = LakeSource::of(&table(), None);
    let resolved = [
        ("/lake/a/x.parquet".to_string(), None),
        ("/lake/a/y.parquet".to_string(), None),
    ];
    let listed = [
        ("x.parquet".to_string(), 3i64, None),
        ("y.parquet".to_string(), 4, None),
    ];
    let columns = || vec!["n".to_string()];
    let map = file_map(&whole, &resolved, &listed, 7, columns()).unwrap();
    assert_eq!(map.files[1].path, "/lake/a/y.parquet");
    assert_eq!((map.files[1].start, map.files[1].rows), (3, 4));

    // A count the files do not add up to, a delete file, a file whose columns
    // are mapped: each is for the database to handle.
    assert!(file_map(&whole, &resolved, &listed, 6, columns()).is_none());
    let deleted = [
        ("/lake/a/x.parquet".to_string(), Some("/lake/a/d.parquet".to_string())),
        ("/lake/a/y.parquet".to_string(), None),
    ];
    assert!(file_map(&whole, &deleted, &listed, 7, columns()).is_none());
    let mapped = [
        ("x.parquet".to_string(), 3i64, Some(1)),
        ("y.parquet".to_string(), 4, None),
    ];
    assert!(file_map(&whole, &resolved, &mapped, 7, columns()).is_none());
}

use plv::data::catalog::{
    is_inlined, join_path, resolve_data_root, snapshot_at, visible, ColumnInfo, DataFile, FileRow,
    Listing, TableRow,
};
use plv::data::lake_db::Snapshot;

#[test]
fn join_path_respects_absolute() {
    let base = "/lake";
    assert_eq!(join_path(base, "obs/", true), "/lake/obs");
    assert_eq!(join_path(base, "/data/obs", false), "/data/obs");
}

#[test]
fn data_root_falls_back_beside_catalog() {
    // A declared path that does not exist must not be trusted.
    let dir = "/nonexistent/bundle";
    let root = resolve_data_root(dir, "/some/other/machine/parquet/", false, None);
    assert_eq!(root, "/nonexistent/bundle");
}

#[test]
fn a_declared_root_is_taken_where_it_stands() {
    assert_eq!(resolve_data_root("/b", "/data//", true, Some("/b/data")), "/data");
    assert_eq!(resolve_data_root("/b", "/data", false, Some("/b/data")), "/b/data");
    assert_eq!(resolve_data_root("/b", "/", true, Some("/b/data")), "/b");
}

#[test]
fn the_rows_of_a_moment_are_asked_for() {
    assert_eq!(
        visible(""),
        "begin_snapshot <= ?1 AND (end_snapshot IS NULL OR end_snapshot > ?1)"
    );
    assert_eq!(
        visible("t"),
        "t.begin_snapshot <= ?1 AND (t.end_snapshot IS NULL OR t.end_snapshot > ?1)"
    );
}

#[test]
fn only_the_documented_shape_goes_into_a_query() {
    assert!(is_inlined("ducklake_inlined_data_4_2"));
    assert!(!is_inlined("ducklake_inlined_data_"));
    assert!(!is_inlined("ducklake_inlined_data_4\"; DROP"));
    assert!(!is_inlined("observations"));
}

fn snapshot(id: i64) -> Snapshot {
    Snapshot {
        id,
        time: String::new(),
        schema_version: 0,
        changes: String::new(),
        commit_message: None,
    }
}

#[test]
fn a_catalog_opens_at_its_newest_snapshot() {
    assert_eq!(snapshot_at(&vec![], None), 0);
    assert_eq!(snapshot_at(&vec![snapshot(3), snapshot(8)], None), 8);
    assert_eq!(snapshot_at(&vec![snapshot(3), snapshot(8)], Some(3)), 3);
}

fn column(name: &str) -> ColumnInfo {
    ColumnInfo {
        name: name.to_string(),
        ty: "varchar".to_string(),
        nullable: true,
    }
}

fn listing() -> Listing {
    Listing {
        tables: vec![TableRow {
            table_id: 2,
            schema_name: "main".to_string(),
            name: "obs".to_string(),
            schema_path: "main/".to_string(),
            schema_relative: true,
            table_path: "obs/".to_string(),
            table_relative: true,
        }],
        files: vec![
            FileRow {
                table_id: 1,
                id: 10,
                path: "other.parquet".to_string(),
                relative: true,
                record_count: 9,
                file_size: 9,
            },
            FileRow {
                table_id: 2,
                id: 11,
                path: "GEO=ca/a.parquet".to_string(),
                relative: true,
                record_count: 5,
                file_size: 100,
            },
            FileRow {
                table_id: 2,
                id: 12,
                path: "/far/b.parquet".to_string(),
                relative: false,
                record_count: 6,
                file_size: 200,
            },
        ],
        columns: vec![(2, column("GEO")), (1, column("x")), (2, column("n")), (2, column("later"))],
        partition_cols: vec![(2, "GEO".to_string())],
        file_partitions: vec![(11, "ca".to_string())],
        stats: vec![(2, 1, 1), (2, 11, 300)],
        inlined: vec![(2, 4), (1, 7), (2, 3)],
    }
}

#[test]
fn a_table_has_what_the_catalog_says_of_it() {
    let tables = listing().read_tables("/lake");
    assert_eq!(tables.len(), 1);
    let table = &tables[0];
    assert_eq!(table.qualified_name(), "main.obs");
    assert_eq!((table.record_count, table.file_size, table.inlined_rows), (11, 300, 7));
    assert_eq!(table.partition_cols, ["GEO"]);
    let names: Vec<&str> = table.columns.iter().map(|c| c.name.as_str()).collect();
    assert_eq!(names, ["GEO", "n", "later"]);
    let paths: Vec<&str> = table.files.iter().map(|f| f.path.as_str()).collect();
    assert_eq!(paths, ["/lake/main/obs/GEO=ca/a.parquet", "/far/b.parquet"]);
    assert_eq!(table.files[0].label(), "GEO=ca");
    assert_eq!(table.files[1].label(), "b.parquet");
}

#[test]
fn a_file_supplies_what_it_holds_and_its_partition() {
    let tables = listing().read_tables("/lake");
    let (table, file) = (&tables[0], &tables[0].files[0]);
    let physical = vec!["n".to_string(), "extra".to_string()];
    assert_eq!(
        file.missing(&physical),
        [("GEO".to_string(), "ca".to_string())]
    );
    assert_eq!(table.supplied(file, &physical), ["GEO", "n"]);
    let stored = vec!["GEO".to_string()];
    assert!(file.missing(&stored).is_empty());
    assert_eq!(table.supplied(file, &stored), ["GEO"]);
    let none: Vec<DataFile> = vec![];
    assert_eq!(
        table.scan_blocked(&none),
        Some("table main.obs has no data files".to_string())
    );
    assert_eq!(table.scan_blocked(&table.files), None);
}

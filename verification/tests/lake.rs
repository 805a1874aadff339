use plv::lake::plural;

#[test]
fn plural_agrees_with_count() {
    assert_eq!(plural(0, "table"), "0 tables");
    assert_eq!(plural(1, "table"), "1 table");
    assert_eq!(plural(22, "partition"), "22 partitions");
}

use gtfs_loader::sql::{bind_values, insert_sql};

fn names(xs: &[&str]) -> Vec<String> {
    xs.iter().map(|x| x.to_string()).collect()
}

#[test]
fn insert_statement_text() {
    let sql = insert_sql(&"agency".to_string(), &names(&["agency_id", "agency_name"]));
    assert_eq!(sql, "INSERT INTO agency (feed, agency_id, agency_name) VALUES (?1, :agency_id, :agency_name)");
}

#[test]
fn insert_statement_without_columns() {
    assert_eq!(insert_sql(&"t".to_string(), &Vec::new()), "INSERT INTO t (feed) VALUES (?1)");
}

#[test]
fn empty_fields_bind_as_null() {
    let v = bind_values(&"agencyX".to_string(), &names(&["A", "", "Stop A"]));
    assert_eq!(v, vec![Some("agencyX".to_string()), Some("A".to_string()), None, Some("Stop A".to_string())]);
}

#[test]
fn feed_name_is_bound_not_interpolated() {
    let sql = insert_sql(&"agency".to_string(), &names(&["agency_id"]));
    assert!(!sql.contains("o'brien"));
    let v = bind_values(&"o'brien".to_string(), &names(&["1"]));
    assert_eq!(v[0], Some("o'brien".to_string()));
}

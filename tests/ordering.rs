use gtfs_loader::files::{table_name_of, Denylist};
use gtfs_loader::rank::{load_order, table_rank, UNKNOWN_RANK};
use gtfs_loader::rows::{find_column, partition_rows, reorder_rows, Record};

fn s(x: &str) -> String {
    x.to_string()
}

fn names(xs: &[&str]) -> Vec<String> {
    xs.iter().map(|x| x.to_string()).collect()
}

fn row(xs: &[&str]) -> Record {
    Ok(names(xs))
}

#[test]
fn rank_of_known_tables() {
    assert_eq!(table_rank(&s("feed_info")), 0);
    assert_eq!(table_rank(&s("agency")), 1);
    assert_eq!(table_rank(&s("stops")), 3);
    assert_eq!(table_rank(&s("shapes")), 14);
    assert_eq!(table_rank(&s("pathways")), 16);
}

#[test]
fn rank_of_unknown_tables() {
    assert_eq!(table_rank(&s("transfers")), UNKNOWN_RANK);
    assert_eq!(table_rank(&s("")), 70);
    assert_eq!(table_rank(&s("Agency")), 70);
}

#[test]
fn load_order_sorts_by_rank() {
    let n = names(&["stop_times", "extra", "agency", "stops", "feed_info", "trips"]);
    let order = load_order(&n);
    let ordered: Vec<&str> = order.iter().map(|&i| n[i].as_str()).collect();
    assert_eq!(ordered, vec!["feed_info", "agency", "stops", "trips", "stop_times", "extra"]);
}

#[test]
fn load_order_keeps_unknown_ties_in_input_order() {
    let n = names(&["zeta", "routes", "alpha", "calendar", "beta"]);
    let order = load_order(&n);
    assert_eq!(order, vec![1, 3, 0, 2, 4]);
    let ranks: Vec<u64> = order.iter().map(|&i| table_rank(&n[i])).collect();
    for w in ranks.windows(2) {
        assert!(w[0] <= w[1]);
    }
}

#[test]
fn load_order_of_nothing() {
    assert_eq!(load_order(&Vec::new()), Vec::<usize>::new());
}

#[test]
fn table_names_from_file_names() {
    assert_eq!(table_name_of(&s("agency.txt")), Some(s("agency")));
    assert_eq!(table_name_of(&s("a.b.txt")), Some(s("a.b")));
    assert_eq!(table_name_of(&s("..txt")), Some(s(".")));
    assert_eq!(table_name_of(&s(".txt")), None);
    assert_eq!(table_name_of(&s("agency.csv")), None);
    assert_eq!(table_name_of(&s("agency")), None);
    assert_eq!(table_name_of(&s("agency.TXT")), None);
}

#[test]
fn standard_denylist_skips_shapes() {
    let d = Denylist::standard();
    assert!(d.is_denied(&s("shapes")));
    assert!(!d.is_denied(&s("stops")));
    assert!(!d.is_denied(&s("shape")));
}

#[test]
fn find_column_takes_first_match() {
    let h = names(&["a", "parent_station", "parent_station"]);
    assert_eq!(find_column(&h, &s("parent_station")), Some(1));
    assert_eq!(find_column(&h, &s("b")), None);
}

#[test]
fn stops_roots_before_children_stably() {
    let header = names(&["stop_id", "stop_name", "parent_station"]);
    let rows = vec![
        row(&["C", "Platform C", "A"]),
        row(&["A", "Station A", ""]),
        row(&["D", "Platform D", "B"]),
        row(&["B", "Station B", ""]),
    ];
    let out = reorder_rows(&s("stops"), &header, rows);
    let ids: Vec<String> = out.iter().map(|r| r.as_ref().unwrap()[0].clone()).collect();
    assert_eq!(ids, names(&["A", "B", "C", "D"]));
}

#[test]
fn reorder_is_idempotent() {
    let header = names(&["parent_station", "stop_id"]);
    let rows = vec![row(&["X", "1"]), row(&["", "2"]), row(&["Y", "3"]), row(&["", "4"])];
    let once = reorder_rows(&s("stops"), &header, rows);
    let twice = reorder_rows(&s("stops"), &header, once.clone());
    assert_eq!(once, twice);
    assert_eq!(once.len(), 4);
}

#[test]
fn reorder_leaves_other_tables_alone() {
    let header = names(&["parent_station", "id"]);
    let rows = vec![row(&["X", "1"]), row(&["", "2"])];
    assert_eq!(reorder_rows(&s("routes"), &header, rows.clone()), rows);
}

#[test]
fn reorder_without_parent_column_is_identity() {
    let header = names(&["stop_id", "stop_name"]);
    let rows = vec![row(&["X", "1"]), row(&["", "2"])];
    assert_eq!(reorder_rows(&s("stops"), &header, rows.clone()), rows);
}

#[test]
fn failed_and_short_rows_count_as_roots() {
    let rows: Vec<Record> = vec![row(&["c", "P"]), Err(s("bad record")), row(&["short"]), row(&["r", ""])];
    let out = partition_rows(rows, 1);
    assert_eq!(out, vec![Err(s("bad record")), row(&["short"]), row(&["r", ""]), row(&["c", "P"])]);
}

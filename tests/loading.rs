use gtfs_loader::loader::{Feed, LoadConfig, LoadError, Store, TableFile};
use gtfs_loader::rows::Record;

const SCHEMA: &str = "
CREATE TABLE agency (feed TEXT NOT NULL, agency_id TEXT, agency_name TEXT);
CREATE TABLE stops (feed TEXT NOT NULL, stop_id TEXT NOT NULL, stop_name TEXT, parent_station TEXT);
CREATE TABLE shapes (feed TEXT NOT NULL, shape_id TEXT);
CREATE TABLE load_log (seq INTEGER PRIMARY KEY AUTOINCREMENT, tbl TEXT, key TEXT);
CREATE TRIGGER agency_log AFTER INSERT ON agency BEGIN INSERT INTO load_log (tbl, key) VALUES ('agency', NEW.agency_id); END;
CREATE TRIGGER stops_log AFTER INSERT ON stops BEGIN INSERT INTO load_log (tbl, key) VALUES ('stops', NEW.stop_id); END;
";

fn file(name: &str, text: &str) -> TableFile {
    TableFile { file_name: name.to_string(), contents: text.as_bytes().to_vec() }
}

fn store_with_schema() -> Store {
    let store = Store::open_in_memory().unwrap();
    store.connection().execute_batch(SCHEMA).unwrap();
    store
}

fn count(store: &Store, table: &str) -> i64 {
    store
        .connection()
        .query_row(&format!("SELECT COUNT(*) FROM {table}"), [], |r| r.get(0))
        .unwrap()
}

fn log(store: &Store) -> Vec<(String, String)> {
    let mut stmt = store.connection().prepare("SELECT tbl, key FROM load_log ORDER BY seq").unwrap();
    let rows = stmt.query_map([], |r| Ok((r.get(0)?, r.get(1)?))).unwrap();
    rows.map(|r| r.unwrap()).collect()
}

fn names(xs: &[&str]) -> Vec<String> {
    xs.iter().map(|x| x.to_string()).collect()
}

#[test]
fn insert_rows_executes_once_per_row_with_nulls() {
    let mut store = store_with_schema();
    let header = names(&["stop_id", "stop_name", "parent_station"]);
    let rows: Vec<Record> = vec![Ok(names(&["A", "Stop A", ""])), Ok(names(&["B", "", "A"]))];
    let n = store.insert_rows(&"stops".to_string(), &"f1".to_string(), &header, &rows).unwrap();
    assert_eq!(n, 2);
    assert_eq!(count(&store, "stops"), 2);
    let (name, parent): (Option<String>, Option<String>) = store
        .connection()
        .query_row("SELECT stop_name, parent_station FROM stops WHERE stop_id = 'A'", [], |r| {
            Ok((r.get(0)?, r.get(1)?))
        })
        .unwrap();
    assert_eq!(name, Some("Stop A".to_string()));
    assert_eq!(parent, None);
    let feed: String = store
        .connection()
        .query_row("SELECT feed FROM stops WHERE stop_id = 'B'", [], |r| r.get(0))
        .unwrap();
    assert_eq!(feed, "f1");
}

#[test]
fn insert_rows_stops_at_parse_failure() {
    let mut store = store_with_schema();
    let header = names(&["agency_id"]);
    let rows: Vec<Record> = vec![Ok(names(&["1"])), Err("broken".to_string())];
    let r = store.insert_rows(&"agency".to_string(), &"f".to_string(), &header, &rows);
    assert!(matches!(r, Err(LoadError::Parse(_))));
}

#[test]
fn insert_rows_reports_unknown_column() {
    let mut store = store_with_schema();
    let r = store.insert_rows(&"agency".to_string(), &"f".to_string(), &names(&["nope"]), &vec![]);
    assert!(matches!(r, Err(LoadError::Bind(_))));
}

#[test]
fn insert_rows_reports_constraint_violation() {
    let mut store = store_with_schema();
    let rows: Vec<Record> = vec![Ok(names(&[""]))];
    let r = store.insert_rows(&"stops".to_string(), &"f".to_string(), &names(&["stop_id"]), &rows);
    assert!(matches!(r, Err(LoadError::Constraint(_))));
}

#[test]
fn end_to_end_agency_then_stops_parents_first() {
    let mut store = Store::open_in_memory().unwrap();
    let feed = Feed {
        name: "agencyX".to_string(),
        files: vec![
            file("stops.txt", "stop_id,stop_name,parent_station\nB,Stop B,A\nA,Stop A,\n"),
            file("agency.txt", "agency_id,agency_name\n1,Acme Transit\n"),
        ],
    };
    let feeds = vec![feed];
    let n = store.load_session(&SCHEMA.to_string(), &feeds, &LoadConfig::standard()).unwrap();
    assert_eq!(n, 1);
    assert_eq!(
        log(&store),
        vec![
            ("agency".to_string(), "1".to_string()),
            ("stops".to_string(), "A".to_string()),
            ("stops".to_string(), "B".to_string()),
        ]
    );
    let tagged: i64 = store
        .connection()
        .query_row(
            "SELECT (SELECT COUNT(*) FROM agency WHERE feed = 'agencyX') + (SELECT COUNT(*) FROM stops WHERE feed = 'agencyX')",
            [],
            |r| r.get(0),
        )
        .unwrap();
    assert_eq!(tagged, 3);
}

#[test]
fn failing_last_table_rolls_back_whole_feed() {
    let mut store = store_with_schema();
    let feed = Feed {
        name: "f".to_string(),
        files: vec![
            file("agency.txt", "agency_id,agency_name\n1,Acme\n"),
            file("stops.txt", "stop_id,stop_name\nA,Stop A\n,No id\n"),
        ],
    };
    let r = store.load_feed(&feed, &LoadConfig::standard().deny);
    assert!(matches!(r, Err(LoadError::Constraint(_))));
    assert_eq!(count(&store, "agency"), 0);
    assert_eq!(count(&store, "stops"), 0);
    assert!(store.connection().is_autocommit());
}

#[test]
fn malformed_file_rolls_back_feed() {
    let mut store = store_with_schema();
    let feed = Feed {
        name: "f".to_string(),
        files: vec![
            file("agency.txt", "agency_id,agency_name\n1,Acme\n"),
            file("stops.txt", "stop_id,stop_name\nA,Stop A,extra\n"),
        ],
    };
    let r = store.load_feed(&feed, &LoadConfig::standard().deny);
    assert!(matches!(r, Err(LoadError::Parse(_))));
    assert_eq!(count(&store, "agency"), 0);
}

#[test]
fn earlier_feeds_stay_committed() {
    let mut store = Store::open_in_memory().unwrap();
    let good = Feed { name: "good".to_string(), files: vec![file("agency.txt", "agency_id\n1\n")] };
    let bad = Feed { name: "bad".to_string(), files: vec![file("agency.txt", "agency_id\n2\n"), file("stops.txt", "stop_id,stop_name\n,x\n")] };
    let r = store.load_session(&SCHEMA.to_string(), &vec![good, bad], &LoadConfig::standard());
    assert!(r.is_err());
    assert_eq!(count(&store, "agency"), 1);
}

#[test]
fn denied_table_is_never_loaded() {
    let mut store = store_with_schema();
    let feed = Feed {
        name: "f".to_string(),
        files: vec![file("shapes.txt", "shape_id\ns1\ns2\n"), file("agency.txt", "agency_id\n1\n")],
    };
    store.load_feed(&feed, &LoadConfig::standard().deny).unwrap();
    assert_eq!(count(&store, "shapes"), 0);
    assert_eq!(count(&store, "agency"), 1);
}

#[test]
fn non_table_files_are_ignored() {
    let mut store = store_with_schema();
    let feed = Feed {
        name: "f".to_string(),
        files: vec![file("agency.csv", "agency_id\n1\n"), file("README", "not a table"), file("notes.md", "x")],
    };
    store.load_feed(&feed, &LoadConfig::standard().deny).unwrap();
    assert_eq!(count(&store, "agency"), 0);
}

#[test]
fn rejected_schema_is_a_schema_error() {
    let mut store = Store::open_in_memory().unwrap();
    let r = store.load_session(&"CREATE TABLE (".to_string(), &vec![], &LoadConfig::standard());
    assert!(matches!(r, Err(LoadError::Schema(_))));
}

#[test]
fn error_messages_name_their_kind() {
    assert_eq!(LoadError::Parse("bad quote".to_string()).message(), "parse error: bad quote");
    assert_eq!(LoadError::Commit("busy".to_string()).message(), "commit error: busy");
    assert_eq!(LoadError::Schema("x".to_string()).message(), "schema error: x");
    assert_eq!(LoadError::Discovery("x".to_string()).message(), "discovery error: x");
    assert_eq!(LoadError::Bind("x".to_string()).message(), "bind error: x");
    assert_eq!(LoadError::Constraint("x".to_string()).message(), "constraint error: x");
}

#[test]
fn session_transaction_rolls_back_every_feed() {
    let mut store = Store::open_in_memory().unwrap();
    let good = Feed { name: "good".to_string(), files: vec![file("agency.txt", "agency_id\n1\n")] };
    let bad = Feed { name: "bad".to_string(), files: vec![file("stops.txt", "stop_id,stop_name\n,x\n")] };
    let mut config = LoadConfig::standard();
    config.session_transaction = true;
    let r = store.load_session(&SCHEMA.to_string(), &vec![good, bad], &config);
    assert!(matches!(r, Err(LoadError::Constraint(_))));
    assert_eq!(count(&store, "agency"), 0);
    assert!(store.connection().is_autocommit());
}

#[test]
fn session_transaction_commits_all_feeds() {
    let mut store = Store::open_in_memory().unwrap();
    let f1 = Feed { name: "f1".to_string(), files: vec![file("agency.txt", "agency_id\n1\n")] };
    let f2 = Feed { name: "f2".to_string(), files: vec![file("agency.txt", "agency_id\n2\n")] };
    let mut config = LoadConfig::standard();
    config.session_transaction = true;
    config.relaxed_durability = false;
    let n = store.load_session(&SCHEMA.to_string(), &vec![f1, f2], &config).unwrap();
    assert_eq!(n, 2);
    assert_eq!(count(&store, "agency"), 2);
}

#[test]
fn load_table_reads_reorders_and_inserts() {
    let mut store = store_with_schema();
    let n = store
        .load_table(
            &"f".to_string(),
            &"stops".to_string(),
            &"stop_id,parent_station\nB,A\nA,\nC,A\n".as_bytes().to_vec(),
        )
        .unwrap();
    assert_eq!(n, 3);
    let order: Vec<String> = log(&store).into_iter().map(|(_, k)| k).collect();
    assert_eq!(order, vec!["A".to_string(), "B".to_string(), "C".to_string()]);
}

#[test]
fn load_table_reports_bad_header() {
    let mut store = store_with_schema();
    let r = store.load_table(&"f".to_string(), &"agency".to_string(), &vec![0xff, 0xfe, b'\n']);
    assert!(r.is_err());
    assert_eq!(count(&store, "agency"), 0);
}

#[test]
fn insert_rows_with_no_rows_executes_nothing() {
    let mut store = store_with_schema();
    let n = store.insert_rows(&"agency".to_string(), &"f".to_string(), &names(&["agency_id"]), &vec![]).unwrap();
    assert_eq!(n, 0);
    assert_eq!(count(&store, "agency"), 0);
}

#[test]
fn constraint_failure_stops_at_the_rejected_row() {
    let mut store = store_with_schema();
    let rows: Vec<Record> = vec![Ok(names(&["A"])), Ok(names(&[""])), Ok(names(&["C"]))];
    store.connection().execute_batch("BEGIN").unwrap();
    let r = store.insert_rows(&"stops".to_string(), &"f".to_string(), &names(&["stop_id"]), &rows);
    assert!(matches!(r, Err(LoadError::Constraint(_))));
    let keys: Vec<String> = log(&store).into_iter().map(|(_, k)| k).collect();
    assert_eq!(keys, vec!["A".to_string()]);
    store.connection().execute_batch("ROLLBACK").unwrap();
}

#[test]
fn malformed_non_table_file_changes_nothing() {
    let mut with_extra = store_with_schema();
    let mut without = store_with_schema();
    let agency = "agency_id,agency_name\n1,Acme\n2,Other\n";
    let feed_a = Feed {
        name: "f".to_string(),
        files: vec![file("notes.csv", "a,b\n\"unterminated\n1,2,3\n"), file("agency.txt", agency)],
    };
    let feed_b = Feed { name: "f".to_string(), files: vec![file("agency.txt", agency)] };
    with_extra.load_feed(&feed_a, &LoadConfig::standard().deny).unwrap();
    without.load_feed(&feed_b, &LoadConfig::standard().deny).unwrap();
    assert_eq!(log(&with_extra), log(&without));
    assert_eq!(count(&with_extra, "agency"), 2);
}

#[test]
fn prepare_session_runs_schema_once() {
    let mut store = Store::open_in_memory().unwrap();
    store.prepare_session(&SCHEMA.to_string(), &LoadConfig::standard()).unwrap();
    assert_eq!(count(&store, "agency"), 0);
    let again = store.prepare_session(&SCHEMA.to_string(), &LoadConfig::standard());
    assert!(matches!(again, Err(LoadError::Schema(_))));
}

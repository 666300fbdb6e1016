//! Loading tables, feeds and whole sessions into the store.
use vstd::prelude::*;
use vstd::string::StringExecFns;
use crate::files::{spec_table_name, table_name_of, Denylist};
use crate::rank::{load_order, spec_rank, is_load_order, lemma_load_order_ranks};
use crate::rows::{lemma_reorder_idempotent, reorder_rows, reordered, Record};
use crate::sql::{bind_values, insert_sql, params_view, spec_bound_values, spec_insert_sql};
use crate::store::{
    csv_header, csv_records, execute, execute_batch, open_memory, parse_header, parse_records, prepare,
    record_shape, records_shape, StoreOp,
};

verus! {

/// Why a load failed; each carries the underlying message.
#[derive(Debug)]
pub enum LoadError {
    /// The schema is missing, unreadable or rejected by the store.
    Schema(String),
    /// A feed root or feed directory could not be read.
    Discovery(String),
    /// A header or row of a table file is malformed.
    Parse(String),
    /// The insert statement of a table could not be formed for its header.
    Bind(String),
    /// The store rejected a row.
    Constraint(String),
    /// The store could not open or commit a transaction.
    Commit(String),
}

/// The kind of the failure, then its underlying message.
pub open spec fn spec_message(e: LoadError) -> Seq<char> {
    match e {
        LoadError::Schema(m) => "schema error: "@ + m@,
        LoadError::Discovery(m) => "discovery error: "@ + m@,
        LoadError::Parse(m) => "parse error: "@ + m@,
        LoadError::Bind(m) => "bind error: "@ + m@,
        LoadError::Constraint(m) => "constraint error: "@ + m@,
        LoadError::Commit(m) => "commit error: "@ + m@,
    }
}

impl LoadError {
    /// A one-line, human-readable description of the failure.
    pub fn message(&self) -> (r: String)
        ensures
            r@ == spec_message(*self),
    {
        let (mut text, cause) = match self {
            LoadError::Schema(m) => (String::from_str("schema error: "), m),
            LoadError::Discovery(m) => (String::from_str("discovery error: "), m),
            LoadError::Parse(m) => (String::from_str("parse error: "), m),
            LoadError::Bind(m) => (String::from_str("bind error: "), m),
            LoadError::Constraint(m) => (String::from_str("constraint error: "), m),
            LoadError::Commit(m) => (String::from_str("commit error: "), m),
        };
        text.append(cause.as_str());
        text
    }
}

/// A connection to the destination store, with the ghost record of every
/// command handed to it through this value, in order, with those it refused marked.
pub struct Store {
    conn: rusqlite::Connection,
    ops: Ghost<Seq<StoreOp>>,
}

impl Store {
    /// The commands handed to the store through this value, in order.
    pub closed spec fn history(&self) -> Seq<StoreOp> {
        self.ops@
    }
}

/// One file of a feed directory: its name and its bytes.
pub struct TableFile {
    pub file_name: String,
    pub contents: Vec<u8>,
}

/// One feed: the name that tags its rows, and the files of its directory.
pub struct Feed {
    pub name: String,
    pub files: Vec<TableFile>,
}

/// The fields of a row as sequences of characters; none for a row that failed to parse.
pub open spec fn record_fields(r: Record) -> Seq<Seq<char>> {
    match r {
        Ok(fields) => fields.deep_view(),
        Err(_) => Seq::empty(),
    }
}

/// One execution per row, in order, binding the feed name and the row's fields.
pub open spec fn row_executions(feed: Seq<char>, rows: Seq<Record>) -> Seq<StoreOp> {
    rows.map_values(|r: Record| StoreOp::Execute(spec_bound_values(feed, record_fields(r))))
}

/// `old`, then the insert statement of `table` prepared once, then the
/// executions of the first `k` rows.
pub open spec fn inserted_through(
    old: Seq<StoreOp>,
    table: Seq<char>,
    header: Seq<Seq<char>>,
    feed: Seq<char>,
    rows: Seq<Record>,
    k: int,
) -> Seq<StoreOp> {
    old + seq![StoreOp::Prepare(table, spec_insert_sql(table, header))] + row_executions(
        feed,
        rows.take(k),
    )
}

/// What inserting `rows` into `table` leaves, for each result: on success
/// every row ran once, in order; a statement the store refuses to prepare is
/// the only command; a row that failed to parse stops the load before it; a
/// row the store refuses stops the load at it.
pub open spec fn insert_outcome(
    old: Seq<StoreOp>,
    new: Seq<StoreOp>,
    r: Result<usize, LoadError>,
    table: Seq<char>,
    feed: Seq<char>,
    header: Seq<Seq<char>>,
    rows: Seq<Record>,
) -> bool {
    match r {
        Ok(n) => n == rows.len() && (forall|m: int| 0 <= m < rows.len() ==> rows[m] is Ok) && new
            == old + seq![StoreOp::Prepare(table, spec_insert_sql(table, header))] + row_executions(
            feed,
            rows,
        ),
        Err(LoadError::Bind(_)) => new == old.push(
            StoreOp::PrepareRejected(table, spec_insert_sql(table, header)),
        ),
        Err(LoadError::Parse(_)) => exists|k: int|
            #![trigger inserted_through(old, table, header, feed, rows, k)]
            0 <= k < rows.len() && rows[k] is Err && (forall|m: int| 0 <= m < k ==> rows[m] is Ok)
                && new == inserted_through(old, table, header, feed, rows, k),
        Err(LoadError::Constraint(_)) => exists|k: int|
            #![trigger inserted_through(old, table, header, feed, rows, k)]
            0 <= k < rows.len() && (forall|m: int| 0 <= m <= k ==> rows[m] is Ok) && new
                == inserted_through(old, table, header, feed, rows, k).push(
                StoreOp::ExecuteRejected(spec_bound_values(feed, record_fields(rows[k]))),
            ),
        Err(_) => false,
    }
}

/// The bytes of a table file are malformed: the header cannot be read, or
/// some record fails to parse.
pub open spec fn malformed(data: Seq<u8>) -> bool {
    csv_header(data) is None || exists|k: int|
        0 <= k < csv_records(data).len() && #[trigger] csv_records(data)[k] is None
}

/// File `j` of `feed` holds a table that `deny` does not name, and its bytes are malformed.
pub open spec fn malformed_table_file(feed: Feed, deny: Seq<Seq<char>>, j: int) -> bool {
    &&& spec_table_name(feed.files@[j].file_name@) is Some
    &&& !deny.contains(spec_table_name(feed.files@[j].file_name@)->0)
    &&& malformed(feed.files@[j].contents@)
}

/// Commands that stay inside an open transaction.
pub open spec fn is_body_op(op: StoreOp) -> bool {
    op is Prepare || op is Execute || op is PrepareRejected || op is ExecuteRejected
}

/// `new` is `old` followed by commands that stay inside an open transaction.
pub open spec fn extends_with_body(old: Seq<StoreOp>, new: Seq<StoreOp>) -> bool {
    &&& old.len() <= new.len()
    &&& new.take(old.len() as int) == old
    &&& forall|i: int| old.len() <= i < new.len() ==> is_body_op(#[trigger] new[i])
}

/// Every statement prepared among the commands from position `from` on is for table `table`.
pub open spec fn prepares_only(ops: Seq<StoreOp>, from: int, table: Seq<char>) -> bool {
    forall|i: int| from <= i < ops.len() && (#[trigger] ops[i] is Prepare) ==> ops[i]->Prepare_0 == table
}

/// The name a file is ranked by: its table name, or the whole file name for
/// a file that holds no table (such a file is never loaded).
pub open spec fn ranking_name(f: Seq<char>) -> Seq<char> {
    match spec_table_name(f) {
        Some(t) => t,
        None => f,
    }
}

/// `t` is a table that `feed` may load: a table file of the feed holds it and
/// `deny` does not name it.
pub open spec fn is_loadable(feed: Feed, deny: Seq<Seq<char>>, t: Seq<char>) -> bool {
    &&& !deny.contains(t)
    &&& exists|j: int|
        0 <= j < feed.files.len() && spec_table_name(#[trigger] feed.files@[j].file_name@) == Some(
            t,
        )
}

/// From position `from` on, statements are prepared by ascending table rank.
pub open spec fn prepares_by_rank(ops: Seq<StoreOp>, from: int) -> bool {
    forall|i: int, j: int|
        #![trigger ops[i], ops[j]]
        from <= i < j < ops.len() && ops[i] is Prepare && ops[j] is Prepare ==> spec_rank(
            ops[i]->Prepare_0,
        ) <= spec_rank(ops[j]->Prepare_0)
}

/// From position `from` on, a statement was prepared for table `t`.
pub open spec fn prepared(ops: Seq<StoreOp>, from: int, t: Seq<char>) -> bool {
    exists|i: int| from <= i < ops.len() && (#[trigger] ops[i] is Prepare) && ops[i]->Prepare_0 == t
}

/// File `j` of `feed` holds a table that is not denied, and from position
/// `from` on a statement was prepared for it.
pub open spec fn file_loaded(feed: Feed, deny: Seq<Seq<char>>, ops: Seq<StoreOp>, from: int, j: int) -> bool {
    match spec_table_name(feed.files@[j].file_name@) {
        Some(t) => !deny.contains(t) ==> prepared(ops, from, t),
        None => true,
    }
}

/// From position `from` on, no transaction was committed.
pub open spec fn no_commit(ops: Seq<StoreOp>, from: int) -> bool {
    forall|i: int| from <= i < ops.len() ==> !(#[trigger] ops[i] is Commit)
}

proof fn lemma_extends_trans(a: Seq<StoreOp>, b: Seq<StoreOp>, c: Seq<StoreOp>)
    requires
        extends_with_body(a, b),
        extends_with_body(b, c),
    ensures
        extends_with_body(a, c),
        forall|i: int| 0 <= i < b.len() ==> c[i] == b[i],
        forall|i: int| 0 <= i < a.len() ==> c[i] == a[i],
{
    assert forall|i: int| 0 <= i < b.len() implies c[i] == b[i] by {
        assert(c.take(b.len() as int)[i] == c[i]);
    }
    assert forall|i: int| 0 <= i < a.len() implies b[i] == a[i] by {
        assert(b.take(a.len() as int)[i] == b[i]);
    }
    assert(c.take(a.len() as int) =~= a);
}

/// The number of commits among `ops`.
pub open spec fn count_commits(ops: Seq<StoreOp>) -> nat
    decreases ops.len(),
{
    if ops.len() == 0 {
        0
    } else {
        count_commits(ops.drop_last()) + if ops.last() is Commit {
            1nat
        } else {
            0nat
        }
    }
}

proof fn lemma_count_add(a: Seq<StoreOp>, b: Seq<StoreOp>)
    ensures
        count_commits(a + b) == count_commits(a) + count_commits(b),
    decreases b.len(),
{
    if b.len() == 0 {
        assert(a + b =~= a);
    } else {
        assert((a + b).drop_last() =~= a + b.drop_last());
        lemma_count_add(a, b.drop_last());
    }
}

proof fn lemma_count_none(s: Seq<StoreOp>)
    requires
        forall|i: int| 0 <= i < s.len() ==> !(#[trigger] s[i] is Commit),
    ensures
        count_commits(s) == 0,
    decreases s.len(),
{
    if s.len() > 0 {
        lemma_count_none(s.drop_last());
    }
}

/// The names by which the files of `files` are ranked, in order.
fn ranking_names(files: &Vec<TableFile>) -> (r: Vec<String>)
    ensures
        r.len() == files.len(),
        forall|j: int| 0 <= j < files.len() ==> #[trigger] r@[j]@ == ranking_name(files@[j].file_name@),
{
    let mut r: Vec<String> = Vec::new();
    let mut j: usize = 0;
    while j < files.len()
        invariant
            j <= files.len(),
            r.len() == j,
            forall|i: int| 0 <= i < j ==> #[trigger] r@[i]@ == ranking_name(files@[i].file_name@),
        decreases files.len() - j,
    {
        match table_name_of(&files[j].file_name) {
            Some(t) => r.push(t),
            None => r.push(files[j].file_name.clone()),
        }
        j = j + 1;
    }
    r
}

impl Store {
    /// A fresh, empty in-memory store.
    pub fn open_in_memory() -> (r: Result<Store, LoadError>)
        ensures
            r matches Ok(s) ==> s.history() == Seq::<StoreOp>::empty(),
    {
        match open_memory() {
            Ok(conn) => Ok(Store { conn, ops: Ghost(Seq::empty()) }),
            Err(m) => Err(LoadError::Commit(m)),
        }
    }

    /// A store over a connection that the caller supplies.
    pub fn from_connection(conn: rusqlite::Connection) -> (r: Store)
        ensures
            r.history() == Seq::<StoreOp>::empty(),
    {
        Store { conn, ops: Ghost(Seq::empty()) }
    }

    /// The underlying connection.
    pub fn connection(&self) -> &rusqlite::Connection {
        &self.conn
    }

    /// Gives the underlying connection back.
    pub fn into_connection(self) -> rusqlite::Connection {
        self.conn
    }

    fn run_batch(&mut self, sql: &str) -> (r: Result<(), String>)
        ensures
            r is Ok ==> final(self).history() == old(self).history().push(StoreOp::Batch(sql@)),
            r is Err ==> final(self).history() == old(self).history(),
    {
        let r = execute_batch(&self.conn, sql);
        if r.is_ok() {
            self.ops = Ghost(self.history().push(StoreOp::Batch(sql@)));
        }
        r
    }

    fn begin(&mut self) -> (r: Result<(), LoadError>)
        ensures
            r is Ok ==> final(self).history() == old(self).history().push(StoreOp::Begin),
            r is Err ==> final(self).history() == old(self).history(),
            r matches Err(e) ==> e is Commit,
    {
        match execute_batch(&self.conn, "BEGIN") {
            Ok(()) => {
                self.ops = Ghost(self.history().push(StoreOp::Begin));
                Ok(())
            },
            Err(m) => Err(LoadError::Commit(m)),
        }
    }

    fn commit(&mut self) -> (r: Result<(), LoadError>)
        ensures
            r is Ok ==> final(self).history() == old(self).history().push(StoreOp::Commit),
            r is Err ==> final(self).history() == old(self).history(),
            r matches Err(e) ==> e is Commit,
    {
        match execute_batch(&self.conn, "COMMIT") {
            Ok(()) => {
                self.ops = Ghost(self.history().push(StoreOp::Commit));
                Ok(())
            },
            Err(m) => Err(LoadError::Commit(m)),
        }
    }

    fn rollback(&mut self)
        ensures
            final(self).history() == old(self).history() || final(self).history() == old(self).history().push(
                StoreOp::Rollback,
            ),
    {
        if execute_batch(&self.conn, "ROLLBACK").is_ok() {
            self.ops = Ghost(self.history().push(StoreOp::Rollback));
        }
    }

    /// Inserts `rows` into `table`, each tagged with `feed`: the insert
    /// statement is prepared once, then runs once per row, in order, with the
    /// feed name and the row's fields bound (an empty field as NULL). The
    /// first row that failed to parse, or that the store rejects, ends the
    /// load with an error.
    pub fn insert_rows(
        &mut self,
        table: &String,
        feed: &String,
        header: &Vec<String>,
        rows: &Vec<Record>,
    ) -> (r: Result<usize, LoadError>)
        ensures
            extends_with_body(old(self).history(), final(self).history()),
            prepares_only(final(self).history(), old(self).history().len() as int, table@),
            insert_outcome(
                old(self).history(),
                final(self).history(),
                r,
                table@,
                feed@,
                header.deep_view(),
                rows@,
            ),
            (exists|k: int| 0 <= k < rows.len() && rows@[k] is Err) ==> r is Err,
            (r matches Err(LoadError::Parse(_))) ==> exists|k: int|
                0 <= k < rows.len() && #[trigger] rows@[k] is Err,
            r matches Err(e) ==> !(e is Schema),
    {
        let ghost start = self.history();
        let sql = insert_sql(table, header);
        let mut stmt = match prepare(&self.conn, sql.as_str()) {
            Ok(s) => s,
            Err(m) => {
                self.ops = Ghost(self.history().push(StoreOp::PrepareRejected(table@, sql@)));
                assert(self.history().take(start.len() as int) =~= start);
                return Err(LoadError::Bind(m));
            },
        };
        self.ops = Ghost(self.history().push(StoreOp::Prepare(table@, sql@)));
        let ghost head = self.history();
        assert(head.take(start.len() as int) =~= start);
        let mut i: usize = 0;
        while i < rows.len()
            invariant
                i <= rows.len(),
                head == start + seq![StoreOp::Prepare(table@, spec_insert_sql(table@, header.deep_view()))],
                self.history() == head + row_executions(feed@, rows@.take(i as int)),
                forall|k: int| 0 <= k < i ==> rows@[k] is Ok,
                extends_with_body(start, self.history()),
                start == old(self).history(),
                prepares_only(self.history(), start.len() as int, table@),
            decreases rows.len() - i,
        {
            assert(row_executions(feed@, rows@.take(i + 1)) =~= row_executions(feed@, rows@.take(i as int)).push(
                StoreOp::Execute(spec_bound_values(feed@, record_fields(rows@[i as int]))),
            ));
            match &rows[i] {
                Ok(fields) => {
                    let params = bind_values(feed, fields);
                    match execute(&mut stmt, &params) {
                        Ok(_) => {
                            let ghost before = self.history();
                            self.ops = Ghost(self.history().push(StoreOp::Execute(params_view(params@))));
                            assert(self.history().take(start.len() as int) =~= before.take(start.len() as int));
                        },
                        Err(m) => {
                            assert(self.history() == inserted_through(start, table@, header.deep_view(), feed@, rows@, i as int));
                            let ghost before = self.history();
                            self.ops = Ghost(self.history().push(StoreOp::ExecuteRejected(params_view(params@))));
                            assert(self.history().take(start.len() as int) =~= before.take(start.len() as int));
                            assert(rows@[i as int] is Ok);
                            return Err(LoadError::Constraint(m));
                        },
                    }
                },
                Err(m) => {
                    assert(self.history().take(start.len() as int) =~= start);
                    assert(self.history() == inserted_through(start, table@, header.deep_view(), feed@, rows@, i as int));
                    return Err(LoadError::Parse(m.clone()));
                },
            }
            i = i + 1;
        }
        assert(rows@.take(i as int) =~= rows@);
        assert(self.history().take(start.len() as int) =~= start);
        Ok(i)
    }

    /// Loads one table file of feed `feed` into `table`: reads its header
    /// and rows, puts parents first for the facility table, and inserts the
    /// rows. An unreadable header fails before anything reaches the store.
    pub fn load_table(&mut self, feed: &String, table: &String, contents: &Vec<u8>) -> (r: Result<
        usize,
        LoadError,
    >)
        ensures
            extends_with_body(old(self).history(), final(self).history()),
            prepares_only(final(self).history(), old(self).history().len() as int, table@),
            csv_header(contents@) is None ==> (r matches Err(LoadError::Parse(_)))
                && final(self).history() == old(self).history(),
            csv_header(contents@) matches Some(h) ==> exists|rows: Seq<Record>|
                records_shape(rows) == csv_records(contents@) && insert_outcome(
                    old(self).history(),
                    final(self).history(),
                    r,
                    table@,
                    feed@,
                    h,
                    reordered(table@, h, rows),
                ),
            (r matches Err(LoadError::Parse(_))) ==> malformed(contents@),
            r matches Err(e) ==> !(e is Schema),
    {
        let header = match parse_header(contents.as_slice()) {
            Ok(h) => h,
            Err(m) => {
                assert(self.history().take(self.history().len() as int) =~= self.history());
                return Err(LoadError::Parse(m));
            },
        };
        let records = parse_records(contents.as_slice());
        let ghost read = records@;
        let rows = reorder_rows(table, &header, records);
        let r = self.insert_rows(table, feed, &header, &rows);
        assert(records_shape(read) == csv_records(contents@));
        proof {
            if r matches Err(LoadError::Parse(_)) {
                let rows2 = rows@;
                let k = choose|k: int| 0 <= k < rows2.len() && #[trigger] rows2[k] is Err;
                let x = rows2[k];
                lemma_reorder_idempotent(table@, header.deep_view(), read);
                assert(rows2.contains(x));
                assert(rows2.to_multiset().count(x) > 0) by {
                    broadcast use vstd::seq_lib::group_to_multiset_ensures;
                }
                assert(read.contains(x)) by {
                    broadcast use vstd::seq_lib::group_to_multiset_ensures;
                }
                let j = choose|j: int| 0 <= j < read.len() && read[j] == x;
                assert(records_shape(read)[j] == record_shape(x));
                assert(csv_records(contents@)[j] is None);
            }
        }
        r
    }

    /// Loads the table files of `feed` by ascending rank, without opening or
    /// ending a transaction: files that hold no table and tables that `deny`
    /// names are skipped; the first table that fails ends the load.
    fn load_tables(&mut self, feed: &Feed, deny: &Denylist) -> (r: Result<(), LoadError>)
        ensures
            extends_with_body(old(self).history(), final(self).history()),
            forall|i: int|
                old(self).history().len() <= i < final(self).history().len() && (
                #[trigger] final(self).history()[i] is Prepare) ==> is_loadable(
                    *feed,
                    deny.view_names(),
                    final(self).history()[i]->Prepare_0,
                ),
            prepares_by_rank(final(self).history(), old(self).history().len() as int),
            r is Ok ==> forall|j: int|
                0 <= j < feed.files.len() ==> #[trigger] file_loaded(
                    *feed,
                    deny.view_names(),
                    final(self).history(),
                    old(self).history().len() as int,
                    j,
                ),
            (r matches Err(LoadError::Parse(_))) ==> exists|j: int|
                0 <= j < feed.files.len() && #[trigger] malformed_table_file(*feed, deny.view_names(), j),
            r matches Err(e) ==> !(e is Schema),
    {
        let ghost start = self.history();
        let names = ranking_names(&feed.files);
        let ghost nv = names.deep_view();
        assert forall|j: int| 0 <= j < names.len() implies nv[j] == ranking_name(
            feed.files@[j].file_name@,
        ) by {
            assert(nv[j] == names@[j]@);
        }
        let order = load_order(&names);
        proof {
            lemma_load_order_ranks(nv, order@);
        }
        assert(self.history().take(self.history().len() as int) =~= self.history());
        let mut k: usize = 0;
        while k < order.len()
            invariant
                is_load_order(nv, order@),
                nv.len() == feed.files.len(),
                forall|j: int| 0 <= j < nv.len() ==> nv[j] == ranking_name(feed.files@[j].file_name@),
                forall|a: int, b: int|
                    0 <= a <= b < order.len() ==> spec_rank(nv[order@[a] as int]) <= spec_rank(
                        nv[order@[b] as int],
                    ),
                k <= order.len(),
                start == old(self).history(),
                extends_with_body(start, self.history()),
                forall|i: int|
                    start.len() <= i < self.history().len() && (#[trigger] self.history()[i] is Prepare)
                        ==> is_loadable(*feed, deny.view_names(), self.history()[i]->Prepare_0) && exists|
                        a: int,
                    | 0 <= a < k && self.history()[i]->Prepare_0 == nv[order@[a] as int],
                prepares_by_rank(self.history(), start.len() as int),
                forall|a: int|
                    0 <= a < k ==> file_loaded(
                        *feed,
                        deny.view_names(),
                        self.history(),
                        start.len() as int,
                        #[trigger] order@[a] as int,
                    ),
            decreases order.len() - k,
        {
            let j = order[k];
            match table_name_of(&feed.files[j].file_name) {
                Some(table) => {
                    if !deny.is_denied(&table) {
                        let ghost before = self.history();
                        let res = self.load_table(&feed.name, &table, &feed.files[j].contents);
                        proof {
                            lemma_extends_trans(start, before, self.history());
                        }
                        assert(table@ == nv[order@[k as int] as int]);
                        assert(self.history().take(start.len() as int) =~= before.take(start.len() as int));
                        assert(self.history().take(before.len() as int) == before);
                        assert forall|i: int|
                            start.len() <= i < self.history().len() && (#[trigger] self.history()[i] is Prepare)
                                implies is_loadable(*feed, deny.view_names(), self.history()[i]->Prepare_0)
                            && exists|a: int| 0 <= a < k + 1 && self.history()[i]->Prepare_0 == nv[order@[a] as int] by {
                            if i < before.len() {
                                assert(self.history()[i] == before[i]);
                            } else {
                                assert(self.history()[i]->Prepare_0 == table@);
                                assert(spec_table_name(feed.files@[j as int].file_name@) == Some(table@));
                            }
                        }
                        assert forall|i: int, i2: int|
                            #![trigger self.history()[i], self.history()[i2]]
                            start.len() <= i < i2 < self.history().len() && self.history()[i] is Prepare
                                && self.history()[i2] is Prepare implies spec_rank(self.history()[i]->Prepare_0)
                            <= spec_rank(self.history()[i2]->Prepare_0) by {
                            if i2 < before.len() {
                                assert(self.history()[i] == before[i]);
                                assert(self.history()[i2] == before[i2]);
                            } else if i < before.len() {
                                assert(self.history()[i] == before[i]);
                                let a = choose|a: int| 0 <= a < k && before[i]->Prepare_0 == nv[order@[a] as int];
                                assert(spec_rank(nv[order@[a] as int]) <= spec_rank(nv[order@[k as int] as int]));
                            }
                        }
                        match res {
                            Ok(_) => {
                                proof {
                                    assert(self.history()[before.len() as int] is Prepare);
                                    assert(self.history()[before.len() as int]->Prepare_0 == table@);
                                    assert forall|a: int| 0 <= a < k + 1 implies file_loaded(
                                        *feed,
                                        deny.view_names(),
                                        self.history(),
                                        start.len() as int,
                                        #[trigger] order@[a] as int,
                                    ) by {
                                        if a < k {
                                            let ja = order@[a] as int;
                                            if let Some(t) = spec_table_name(feed.files@[ja].file_name@) {
                                                if !deny.view_names().contains(t) {
                                                    assert(file_loaded(*feed, deny.view_names(), before, start.len() as int, ja));
                                                    let w = choose|w: int| start.len() <= w < before.len() && (#[trigger] before[w] is Prepare) && before[w]->Prepare_0 == t;
                                                    assert(self.history()[w] == before[w]);
                                                }
                                            }
                                        }
                                    }
                                }
                            },
                            Err(e) => {
                                assert(e is Parse ==> malformed_table_file(*feed, deny.view_names(), j as int));
                                return Err(e);
                            },
                        }
                    }
                },
                None => {},
            }
            k = k + 1;
        }
        proof {
            assert forall|j: int| 0 <= j < feed.files.len() implies #[trigger] file_loaded(
                *feed,
                deny.view_names(),
                self.history(),
                start.len() as int,
                j,
            ) by {
                assert(order@.contains(j as usize));
                let a = choose|a: int| 0 <= a < order@.len() && order@[a] == j as usize;
                assert(file_loaded(*feed, deny.view_names(), self.history(), start.len() as int, order@[a] as int));
            }
        }
        Ok(())
    }

    /// Loads one feed inside one transaction: its table files by ascending
    /// rank, skipping files that hold no table and tables that `deny` names.
    /// On any failure the transaction is rolled back and nothing is committed;
    /// on success the feed's commands are committed together.
    pub fn load_feed(&mut self, feed: &Feed, deny: &Denylist) -> (r: Result<(), LoadError>)
        ensures
            final(self).history().len() >= old(self).history().len(),
            final(self).history().take(old(self).history().len() as int) == old(self).history(),
            forall|i: int|
                old(self).history().len() <= i < final(self).history().len() && (
                #[trigger] final(self).history()[i] is Prepare) ==> is_loadable(
                    *feed,
                    deny.view_names(),
                    final(self).history()[i]->Prepare_0,
                ),
            prepares_by_rank(final(self).history(), old(self).history().len() as int),
            r is Ok ==> {
                let s = old(self).history().len() as int;
                let f = final(self).history();
                &&& f.len() >= s + 2
                &&& f[s] == StoreOp::Begin
                &&& f.last() == StoreOp::Commit
                &&& forall|i: int| s < i < f.len() - 1 ==> is_body_op(#[trigger] f[i])
                &&& forall|j: int|
                    0 <= j < feed.files.len() ==> #[trigger] file_loaded(
                        *feed,
                        deny.view_names(),
                        f,
                        s,
                        j,
                    )
            },
            r is Err ==> no_commit(final(self).history(), old(self).history().len() as int),
            (r matches Err(LoadError::Parse(_))) ==> exists|j: int|
                0 <= j < feed.files.len() && #[trigger] malformed_table_file(*feed, deny.view_names(), j),
            r matches Err(e) ==> !(e is Schema),
    {
        let ghost start = self.history();
        match self.begin() {
            Ok(()) => {},
            Err(e) => {
                assert(self.history().take(start.len() as int) =~= start);
                return Err(e);
            },
        }
        let ghost opened = self.history();
        let res = self.load_tables(feed, deny);
        let ghost mid = self.history();
        assert forall|i: int| 0 <= i < opened.len() implies mid[i] == opened[i] by {
            assert(mid.take(opened.len() as int)[i] == mid[i]);
        }
        let failure = match res {
            Ok(()) => match self.commit() {
                Ok(()) => None,
                Err(e) => Some(e),
            },
            Err(e) => Some(e),
        };
        match failure {
            None => {
                proof {
                    assert(self.history().take(start.len() as int) =~= start);
                    assert forall|i: int, i2: int|
                        #![trigger self.history()[i], self.history()[i2]]
                        start.len() <= i < i2 < self.history().len() && self.history()[i] is Prepare
                            && self.history()[i2] is Prepare implies spec_rank(self.history()[i]->Prepare_0)
                        <= spec_rank(self.history()[i2]->Prepare_0) by {
                        assert(self.history()[i] == mid[i]);
                        assert(self.history()[i2] == mid[i2]);
                    }
                    assert forall|i: int|
                        start.len() <= i < self.history().len() && (#[trigger] self.history()[i] is Prepare)
                            implies is_loadable(*feed, deny.view_names(), self.history()[i]->Prepare_0) by {
                        assert(self.history()[i] == mid[i]);
                    }
                    assert forall|i: int| start.len() < i < self.history().len() - 1 implies is_body_op(
                        #[trigger] self.history()[i],
                    ) by {
                        assert(self.history()[i] == mid[i]);
                    }
                    assert forall|j: int| 0 <= j < feed.files.len() implies #[trigger] file_loaded(
                        *feed,
                        deny.view_names(),
                        self.history(),
                        start.len() as int,
                        j,
                    ) by {
                        assert(file_loaded(*feed, deny.view_names(), mid, opened.len() as int, j));
                        if let Some(t) = spec_table_name(feed.files@[j].file_name@) {
                            if !deny.view_names().contains(t) {
                                let w = choose|w: int|
                                    opened.len() <= w < mid.len() && (#[trigger] mid[w] is Prepare)
                                        && mid[w]->Prepare_0 == t;
                                assert(self.history()[w] == mid[w]);
                            }
                        }
                    }
                }
                Ok(())
            },
            Some(e) => {
                self.rollback();
                proof {
                    assert(self.history().take(start.len() as int) =~= start);
                    assert forall|i: int| start.len() <= i < self.history().len() implies !(
                    #[trigger] self.history()[i] is Commit) by {
                        if i < mid.len() {
                            assert(self.history()[i] == mid[i]);
                        }
                    }
                    assert forall|i: int, i2: int|
                        #![trigger self.history()[i], self.history()[i2]]
                        start.len() <= i < i2 < self.history().len() && self.history()[i] is Prepare
                            && self.history()[i2] is Prepare implies spec_rank(self.history()[i]->Prepare_0)
                        <= spec_rank(self.history()[i2]->Prepare_0) by {
                        assert(self.history()[i] == mid[i]);
                        assert(self.history()[i2] == mid[i2]);
                    }
                    assert forall|i: int|
                        start.len() <= i < self.history().len() && (#[trigger] self.history()[i] is Prepare)
                            implies is_loadable(*feed, deny.view_names(), self.history()[i]->Prepare_0) by {
                        assert(self.history()[i] == mid[i]);
                    }
                }
                Err(e)
            },
        }
    }

    /// Loads every feed of `feeds` inside one transaction: all of them are
    /// committed together, or, on the first failure, none is.
    #[verifier::rlimit(100)]
    fn load_feeds_together(&mut self, feeds: &Vec<Feed>, deny: &Denylist) -> (r: Result<(), LoadError>)
        ensures
            final(self).history().len() >= old(self).history().len(),
            final(self).history().take(old(self).history().len() as int) == old(self).history(),
            r is Ok ==> count_commits(final(self).history()) == count_commits(old(self).history()) + 1,
            r is Err ==> no_commit(final(self).history(), old(self).history().len() as int),
            r matches Err(e) ==> !(e is Schema),
    {
        let ghost start = self.history();
        match self.begin() {
            Ok(()) => {
                assert(self.history().take(self.history().len() as int) =~= self.history());
            },
            Err(e) => {
                assert(self.history().take(start.len() as int) =~= start);
                return Err(e);
            },
        }
        let mut k: usize = 0;
        while k < feeds.len()
            invariant
                k <= feeds.len(),
                start == old(self).history(),
                extends_with_body(start.push(StoreOp::Begin), self.history()),
            decreases feeds.len() - k,
        {
            let ghost before = self.history();
            let res = self.load_tables(&feeds[k], deny);
            proof {
                lemma_extends_trans(start.push(StoreOp::Begin), before, self.history());
            }
            match res {
                Ok(()) => {},
                Err(e) => {
                    let ghost mid = self.history();
                    self.rollback();
                    proof {
                        assert(mid[start.len() as int] == StoreOp::Begin) by {
                            assert(mid.take(start.len() + 1 as int)[start.len() as int] == mid[start.len() as int]);
                        }
                        assert forall|i: int| 0 <= i < start.len() implies self.history()[i] == start[i] by {
                            assert(mid.take(start.len() + 1 as int)[i] == mid[i]);
                            assert(start.push(StoreOp::Begin)[i] == start[i]);
                            assert(self.history()[i] == mid[i]);
                        }
                        assert(self.history().take(start.len() as int) =~= start);
                        assert forall|i: int| start.len() <= i < self.history().len() implies !(
                        #[trigger] self.history()[i] is Commit) by {
                            if i < mid.len() {
                                assert(self.history()[i] == mid[i]);
                                if i > start.len() {
                                    assert(is_body_op(mid[i]));
                                }
                            }
                        }
                    }
                    return Err(e);
                },
            }
            k = k + 1;
        }
        let ghost mid = self.history();
        assert forall|i: int| 0 <= i < start.len() + 1 implies mid[i] == start.push(StoreOp::Begin)[i] by {
            assert(mid.take(start.len() + 1 as int)[i] == mid[i]);
        }
        match self.commit() {
            Ok(()) => {
                proof {
                    let tail = mid.skip(start.len() as int);
                    assert(mid =~= start + tail);
                    lemma_count_add(start, tail);
                    assert forall|i: int| 0 <= i < tail.len() implies !(#[trigger] tail[i] is Commit) by {
                        if i > 0 {
                            assert(is_body_op(mid[start.len() + i]));
                        }
                    }
                    lemma_count_none(tail);
                    assert(self.history().drop_last() == mid);
                    assert(self.history().take(start.len() as int) =~= start);
                }
                Ok(())
            },
            Err(e) => {
                self.rollback();
                proof {
                    assert(self.history().take(start.len() as int) =~= start);
                    assert forall|i: int| start.len() <= i < self.history().len() implies !(
                    #[trigger] self.history()[i] is Commit) by {
                        if i < mid.len() {
                            assert(self.history()[i] == mid[i]);
                            if i > start.len() {
                                assert(is_body_op(mid[i]));
                            }
                        }
                    }
                }
                Err(e)
            },
        }
    }

    /// Loads `feeds` one after another, each in its own transaction. The
    /// first feed that fails ends the load with its error; the feeds before
    /// it stay committed.
    fn load_feeds_each(&mut self, feeds: &Vec<Feed>, deny: &Denylist) -> (r: Result<(), LoadError>)
        ensures
            final(self).history().len() >= old(self).history().len(),
            final(self).history().take(old(self).history().len() as int) == old(self).history(),
            r is Ok ==> count_commits(final(self).history()) == count_commits(old(self).history()) + feeds.len(),
            r is Err ==> count_commits(old(self).history()) <= count_commits(final(self).history())
                < count_commits(old(self).history()) + feeds.len(),
            r matches Err(e) ==> !(e is Schema),
    {
        let ghost start = self.history();
        assert(self.history().take(start.len() as int) =~= start);
        let mut k: usize = 0;
        while k < feeds.len()
            invariant
                k <= feeds.len(),
                start == old(self).history(),
                self.history().len() >= start.len(),
                self.history().take(start.len() as int) == start,
                count_commits(self.history()) == count_commits(start) + k,
            decreases feeds.len() - k,
        {
            let ghost before = self.history();
            let res = self.load_feed(&feeds[k], deny);
            assert(self.history().take(start.len() as int) =~= start) by {
                assert forall|i: int| 0 <= i < start.len() implies self.history()[i] == start[i] by {
                    assert(self.history().take(before.len() as int)[i] == self.history()[i]);
                    assert(before.take(start.len() as int)[i] == before[i]);
                }
            }
            match res {
                Ok(()) => {
                    proof {
                        let seg = self.history().skip(before.len() as int);
                        assert(self.history() =~= before + seg);
                        lemma_count_add(before, seg);
                        assert forall|i: int| 0 <= i < seg.drop_last().len() implies !(
                        #[trigger] seg.drop_last()[i] is Commit) by {
                            let g = before.len() + i;
                            if i > 0 {
                                assert(is_body_op(self.history()[g]));
                            }
                        }
                        lemma_count_none(seg.drop_last());
                    }
                },
                Err(e) => {
                    proof {
                        let seg = self.history().skip(before.len() as int);
                        assert(self.history() =~= before + seg);
                        lemma_count_add(before, seg);
                        assert forall|i: int| 0 <= i < seg.len() implies !(#[trigger] seg[i] is Commit) by {
                            assert(seg[i] == self.history()[before.len() + i]);
                        }
                        lemma_count_none(seg);
                        assert(count_commits(self.history()) == count_commits(start) + k);
                    }
                    return Err(e);
                },
            }
            k = k + 1;
        }
        Ok(())
    }

    /// Runs the schema, exactly once, then, when `config` asks for it,
    /// relaxes durability. A rejected schema leaves the record as it was.
    pub fn prepare_session(&mut self, schema: &String, config: &LoadConfig) -> (r: Result<(), LoadError>)
        ensures
            r is Ok ==> final(self).history().len() > old(self).history().len()
                && final(self).history()[old(self).history().len() as int] == StoreOp::Batch(schema@),
            count_commits(final(self).history()) == count_commits(old(self).history()),
            final(self).history().len() >= old(self).history().len(),
            final(self).history().take(old(self).history().len() as int) == old(self).history(),
            r matches Err(LoadError::Schema(_)) ==> final(self).history() == old(self).history(),
            no_commit(final(self).history(), old(self).history().len() as int),
            final(self).history().len() > old(self).history().len() ==> final(self).history()[old(
                self,
            ).history().len() as int] == StoreOp::Batch(schema@),
            r matches Err(e) ==> e is Schema || e is Commit,
    {
        let ghost start = self.history();
        match self.run_batch(schema.as_str()) {
            Ok(()) => {
                assert(self.history().drop_last() == start);
                assert(count_commits(self.history()) == count_commits(start));
            },
            Err(m) => {
                assert(self.history().take(start.len() as int) =~= start);
                return Err(LoadError::Schema(m));
            },
        }
        if config.relaxed_durability {
            let ghost prev = self.history();
            assert(count_commits(prev) == count_commits(start));
            match self.run_batch("PRAGMA synchronous = OFF; PRAGMA journal_mode = MEMORY;") {
                Ok(()) => {
                    assert(self.history().drop_last() == prev);
                    assert(count_commits(self.history()) == count_commits(prev));
                    assert(self.history()[start.len() as int] == prev[start.len() as int]);
                },
                Err(m) => {
                    assert(self.history().take(start.len() as int) =~= start);
                    assert(no_commit(self.history(), start.len() as int));
                    return Err(LoadError::Commit(m));
                },
            }
        }
        assert(self.history().take(start.len() as int) =~= start);
        assert(no_commit(self.history(), start.len() as int));
        Ok(())
    }

    /// Prepares the store for a session and loads `feeds` in order. The
    /// schema runs first, exactly once; a rejected schema ends the session
    /// before any feed. The first feed that fails ends the session with its
    /// error. With one transaction per feed, the feeds before it stay
    /// committed; with one transaction for the session, nothing is committed.
    /// On success the result is the number of feeds loaded.
    pub fn load_session(&mut self, schema: &String, feeds: &Vec<Feed>, config: &LoadConfig) -> (r:
        Result<usize, LoadError>)
        ensures
            final(self).history().len() > old(self).history().len() ==> final(self).history()[old(
                self,
            ).history().len() as int] == StoreOp::Batch(schema@),
            final(self).history().len() >= old(self).history().len(),
            final(self).history().take(old(self).history().len() as int) == old(self).history(),
            r matches Err(LoadError::Schema(_)) ==> final(self).history() == old(self).history(),
            r is Ok ==> r == Ok::<usize, LoadError>(feeds.len()) && final(self).history().len() > old(
                self,
            ).history().len() && count_commits(final(self).history()) == count_commits(old(self).history()) + if config.session_transaction {
                1
            } else {
                feeds.len() as int
            },
            !config.session_transaction && r is Err ==> count_commits(old(self).history())
                <= count_commits(final(self).history()) && (count_commits(final(self).history())
                < count_commits(old(self).history()) + feeds.len() || count_commits(
                final(self).history(),
            ) == count_commits(old(self).history())),
            config.session_transaction && r is Err ==> no_commit(
                final(self).history(),
                old(self).history().len() as int,
            ),
    {
        let ghost start = self.history();
        match self.prepare_session(schema, config) {
            Ok(()) => {},
            Err(e) => {
                return Err(e);
            },
        }
        let ghost ready = self.history();
        assert(ready.take(start.len() as int) =~= start);
        assert(no_commit(ready, start.len() as int));
        let res = if config.session_transaction {
            self.load_feeds_together(feeds, &config.deny)
        } else {
            self.load_feeds_each(feeds, &config.deny)
        };
        proof {
            assert forall|i: int| 0 <= i < ready.len() implies self.history()[i] == ready[i] by {
                assert(self.history().take(ready.len() as int)[i] == self.history()[i]);
            }
            assert(self.history().take(start.len() as int) =~= start);
            if config.session_transaction && res is Err {
                assert forall|i: int| start.len() <= i < self.history().len() implies !(
                #[trigger] self.history()[i] is Commit) by {
                    if i < ready.len() {
                        assert(self.history()[i] == ready[i]);
                    }
                }
            }
        }
        match res {
            Ok(()) => Ok(feeds.len()),
            Err(e) => Err(e),
        }
    }
}

/// How a session loads its feeds.
pub struct LoadConfig {
    /// Tables that are never loaded.
    pub deny: Denylist,
    /// Turn off syncing to disk and keep the journal in memory for speed; a
    /// crash during such a session may leave a corrupt store.
    pub relaxed_durability: bool,
    /// One transaction for the whole session instead of one per feed.
    pub session_transaction: bool,
}

impl LoadConfig {
    /// The standard configuration: skip `shapes`, relax durability, one
    /// transaction per feed.
    pub fn standard() -> (r: LoadConfig)
        ensures
            r.deny.view_names() == seq!["shapes"@],
            r.relaxed_durability,
            !r.session_transaction,
    {
        LoadConfig { deny: Denylist::standard(), relaxed_durability: true, session_transaction: false }
    }
}

} // verus!

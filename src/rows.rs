//! Parent-first reordering of the self-referential facility table.
use vstd::multiset::Multiset;
use vstd::prelude::*;
use vstd::string::StringExecFns;

verus! {

/// One parsed row: its field values, or the message of a row that failed to parse.
pub type Record = Result<Vec<String>, String>;

/// The row names a parent: the field at `col` exists and is not empty.
/// A row that failed to parse names none.
pub open spec fn is_child(row: Record, col: int) -> bool {
    match row {
        Ok(fields) => 0 <= col < fields@.len() && fields@[col]@.len() > 0,
        Err(_) => false,
    }
}

/// The rows that name no parent, in their given order.
pub open spec fn roots_of(rows: Seq<Record>, col: int) -> Seq<Record>
    decreases rows.len(),
{
    if rows.len() == 0 {
        Seq::empty()
    } else if is_child(rows.last(), col) {
        roots_of(rows.drop_last(), col)
    } else {
        roots_of(rows.drop_last(), col).push(rows.last())
    }
}

/// The rows that name a parent, in their given order.
pub open spec fn children_of(rows: Seq<Record>, col: int) -> Seq<Record>
    decreases rows.len(),
{
    if rows.len() == 0 {
        Seq::empty()
    } else if is_child(rows.last(), col) {
        children_of(rows.drop_last(), col).push(rows.last())
    } else {
        children_of(rows.drop_last(), col)
    }
}

/// Stable partition: parentless rows first, then the others.
pub open spec fn partitioned(rows: Seq<Record>, col: int) -> Seq<Record> {
    roots_of(rows, col) + children_of(rows, col)
}

/// Name of the table whose rows may refer to a parent row of the same table.
pub open spec fn facility_table() -> Seq<char> {
    "stops"@
}

/// Name of the column that holds the reference to the parent row.
pub open spec fn parent_column_name() -> Seq<char> {
    "parent_station"@
}

/// Position of the first header entry equal to `name`, searching from `i`.
pub open spec fn column_from(header: Seq<Seq<char>>, name: Seq<char>, i: int) -> Option<int>
    decreases header.len() - i,
{
    if i < 0 || i >= header.len() {
        None
    } else if header[i] == name {
        Some(i)
    } else {
        column_from(header, name, i + 1)
    }
}

/// Position of the first header entry equal to `name`.
pub open spec fn column_of(header: Seq<Seq<char>>, name: Seq<char>) -> Option<int> {
    column_from(header, name, 0)
}

/// The rows in the order in which they are inserted into `table`.
pub open spec fn reordered(table: Seq<char>, header: Seq<Seq<char>>, rows: Seq<Record>) -> Seq<
    Record,
> {
    if table == facility_table() {
        match column_of(header, parent_column_name()) {
            Some(col) => partitioned(rows, col),
            None => rows,
        }
    } else {
        rows
    }
}

proof fn lemma_split_add(a: Seq<Record>, b: Seq<Record>, col: int)
    ensures
        roots_of(a + b, col) == roots_of(a, col) + roots_of(b, col),
        children_of(a + b, col) == children_of(a, col) + children_of(b, col),
    decreases b.len(),
{
    if b.len() == 0 {
        assert(a + b =~= a);
        assert(roots_of(a, col) + roots_of(b, col) =~= roots_of(a, col));
        assert(children_of(a, col) + children_of(b, col) =~= children_of(a, col));
    } else {
        assert((a + b).drop_last() =~= a + b.drop_last());
        assert((a + b).last() == b.last());
        lemma_split_add(a, b.drop_last(), col);
        assert(roots_of(a, col) + roots_of(b.drop_last(), col).push(b.last()) =~= (roots_of(a, col)
            + roots_of(b.drop_last(), col)).push(b.last()));
        assert(children_of(a, col) + children_of(b.drop_last(), col).push(b.last()) =~= (
        children_of(a, col) + children_of(b.drop_last(), col)).push(b.last()));
    }
}

proof fn lemma_split_kinds(s: Seq<Record>, col: int)
    ensures
        forall|k: int| 0 <= k < roots_of(s, col).len() ==> !is_child(#[trigger] roots_of(s, col)[k], col),
        forall|k: int|
            0 <= k < children_of(s, col).len() ==> is_child(#[trigger] children_of(s, col)[k], col),
        (forall|k: int| 0 <= k < s.len() ==> !is_child(#[trigger] s[k], col)) ==> roots_of(s, col)
            == s && children_of(s, col) == Seq::<Record>::empty(),
        (forall|k: int| 0 <= k < s.len() ==> is_child(#[trigger] s[k], col)) ==> children_of(s, col)
            == s && roots_of(s, col) == Seq::<Record>::empty(),
        roots_of(s, col).to_multiset().add(children_of(s, col).to_multiset()) == s.to_multiset(),
    decreases s.len(),
{
    broadcast use vstd::seq_lib::group_to_multiset_ensures;

    if s.len() == 0 {
        assert(s =~= Seq::<Record>::empty());
        assert(roots_of(s, col).to_multiset() =~= Multiset::empty());
    } else {
        let p = s.drop_last();
        lemma_split_kinds(p, col);
        if forall|k: int| 0 <= k < s.len() ==> !is_child(#[trigger] s[k], col) {
            assert forall|k: int| 0 <= k < p.len() implies !is_child(#[trigger] p[k], col) by {
                assert(p[k] == s[k]);
            }
            assert(!is_child(s[s.len() - 1], col));
            assert(p.push(s.last()) =~= s);
        }
        if forall|k: int| 0 <= k < s.len() ==> is_child(#[trigger] s[k], col) {
            assert forall|k: int| 0 <= k < p.len() implies is_child(#[trigger] p[k], col) by {
                assert(p[k] == s[k]);
            }
            assert(is_child(s[s.len() - 1], col));
            assert(p.push(s.last()) =~= s);
        }
        assert(p.push(s.last()) =~= s);
        assert(s.to_multiset() == p.to_multiset().insert(s.last()));
        if is_child(s.last(), col) {
            assert(children_of(s, col).to_multiset() == children_of(p, col).to_multiset().insert(
                s.last(),
            ));
            assert(roots_of(s, col).to_multiset().add(children_of(s, col).to_multiset())
                =~= roots_of(p, col).to_multiset().add(children_of(p, col).to_multiset()).insert(
                s.last(),
            ));
        } else {
            assert(roots_of(s, col).to_multiset() == roots_of(p, col).to_multiset().insert(
                s.last(),
            ));
            assert(roots_of(s, col).to_multiset().add(children_of(s, col).to_multiset())
                =~= roots_of(p, col).to_multiset().add(children_of(p, col).to_multiset()).insert(
                s.last(),
            ));
        }
    }
}

/// After the stable partition every parentless row precedes every row that
/// names a parent, and the two groups are the given rows of each kind, in
/// their given order.
pub proof fn lemma_roots_before_children(rows: Seq<Record>, col: int)
    ensures
        partitioned(rows, col) == roots_of(rows, col) + children_of(rows, col),
        forall|a: int, b: int|
            0 <= a < partitioned(rows, col).len() && 0 <= b < partitioned(rows, col).len()
                && !is_child(#[trigger] partitioned(rows, col)[a], col) && is_child(
                #[trigger] partitioned(rows, col)[b],
                col,
            ) ==> a < roots_of(rows, col).len() && roots_of(rows, col).len() <= b,
{
    lemma_split_kinds(rows, col);
    let r = partitioned(rows, col);
    let n = roots_of(rows, col).len();
    assert forall|a: int, b: int|
        0 <= a < r.len() && 0 <= b < r.len() && !is_child(#[trigger] r[a], col) && is_child(
            #[trigger] r[b],
            col,
        ) implies a < n && n <= b by {
        if a >= n {
            assert(r[a] == children_of(rows, col)[a - n]);
        }
        if b < n {
            assert(r[b] == roots_of(rows, col)[b]);
        }
    }
}

/// Reordering twice gives the same rows as reordering once, and reordering
/// keeps the multiset of rows.
pub proof fn lemma_reorder_idempotent(table: Seq<char>, header: Seq<Seq<char>>, rows: Seq<Record>)
    ensures
        reordered(table, header, reordered(table, header, rows)) == reordered(table, header, rows),
        reordered(table, header, rows).to_multiset() == rows.to_multiset(),
{
    if table == facility_table() {
        if let Some(col) = column_of(header, parent_column_name()) {
            let r = roots_of(rows, col);
            let c = children_of(rows, col);
            lemma_split_kinds(rows, col);
            lemma_split_kinds(r, col);
            lemma_split_kinds(c, col);
            lemma_split_add(r, c, col);
            assert(r + Seq::<Record>::empty() =~= r);
            assert(Seq::<Record>::empty() + c =~= c);
            vstd::seq_lib::lemma_multiset_commutative(r, c);
        }
    }
}

/// Position of the first entry of `header` equal to `name`, if any.
pub fn find_column(header: &Vec<String>, name: &String) -> (r: Option<usize>)
    ensures
        match r {
            Some(c) => column_of(header.deep_view(), name@) == Some(c as int),
            None => column_of(header.deep_view(), name@) is None,
        },
{
    let ghost hv = header.deep_view();
    let mut i: usize = 0;
    while i < header.len()
        invariant
            hv == header.deep_view(),
            i <= header.len(),
            column_of(hv, name@) == column_from(hv, name@, i as int),
        decreases header.len() - i,
    {
        assert(hv[i as int] == header[i as int]@);
        if header[i] == *name {
            return Some(i);
        }
        i = i + 1;
    }
    None
}

fn has_parent(row: &Record, col: usize) -> (r: bool)
    ensures
        r == is_child(*row, col as int),
{
    match row {
        Ok(fields) => col < fields.len() && !fields[col].as_str().is_empty(),
        Err(_) => false,
    }
}

/// Stable partition of `rows` on the field at `col`: rows whose field is
/// absent or empty first, then the others, each group in its given order.
pub fn partition_rows(rows: Vec<Record>, col: usize) -> (r: Vec<Record>)
    ensures
        r@ == partitioned(rows@, col as int),
{
    let ghost all = rows@;
    let mut roots: Vec<Record> = Vec::new();
    let mut children: Vec<Record> = Vec::new();
    for row in it: rows.into_iter()
        invariant
            it.seq() == all,
            roots@ == roots_of(all.take(it.index() as int), col as int),
            children@ == children_of(all.take(it.index() as int), col as int),
    {
        let ghost k = it.index() as int;
        assert(all.take(k + 1).drop_last() =~= all.take(k));
        if has_parent(&row, col) {
            children.push(row);
        } else {
            roots.push(row);
        }
    }
    assert(all.take(all.len() as int) =~= all);
    roots.append(&mut children);
    roots
}

/// Rows of `table` in insertion order: for the facility table with a parent
/// column, parentless rows first (stable); any other table unchanged.
pub fn reorder_rows(table: &String, header: &Vec<String>, rows: Vec<Record>) -> (r: Vec<Record>)
    ensures
        r@ == reordered(table@, header.deep_view(), rows@),
{
    let facility = String::from_str("stops");
    if *table == facility {
        let parent = String::from_str("parent_station");
        match find_column(header, &parent) {
            Some(col) => partition_rows(rows, col),
            None => rows,
        }
    } else {
        rows
    }
}

} // verus!

//! The parameterised insert statement of a table and the values bound to it.
use vstd::prelude::*;
use vstd::string::StringExecFns;

verus! {

/// `, c1, c2, ...`: each column name preceded by a comma and a space.
pub open spec fn column_list(header: Seq<Seq<char>>) -> Seq<char>
    decreases header.len(),
{
    if header.len() == 0 {
        Seq::empty()
    } else {
        column_list(header.drop_last()) + ", "@ + header.last()
    }
}

/// `, :c1, :c2, ...`: a named placeholder for each column.
pub open spec fn placeholder_list(header: Seq<Seq<char>>) -> Seq<char>
    decreases header.len(),
{
    if header.len() == 0 {
        Seq::empty()
    } else {
        placeholder_list(header.drop_last()) + ", :"@ + header.last()
    }
}

/// `INSERT INTO t (feed, c1, ...) VALUES (?1, :c1, ...)`: the feed is the
/// first parameter, then one parameter per column in header order.
pub open spec fn spec_insert_sql(table: Seq<char>, header: Seq<Seq<char>>) -> Seq<char> {
    "INSERT INTO "@ + table + " (feed"@ + column_list(header) + ") VALUES (?1"@
        + placeholder_list(header) + ")"@
}

/// A field as bound: an empty field is NULL, any other is its text.
pub open spec fn field_value(f: Seq<char>) -> Option<Seq<char>> {
    if f.len() == 0 {
        None
    } else {
        Some(f)
    }
}

/// The values bound for one row: the feed name, then each field in order.
pub open spec fn spec_bound_values(feed: Seq<char>, fields: Seq<Seq<char>>) -> Seq<
    Option<Seq<char>>,
> {
    seq![Some(feed)] + fields.map_values(|f: Seq<char>| field_value(f))
}

/// A bound value as a sequence of characters, or `None` for NULL.
pub open spec fn param_view(p: Option<String>) -> Option<Seq<char>> {
    match p {
        Some(s) => Some(s@),
        None => None,
    }
}

/// The values of `params` as sequences of characters.
pub open spec fn params_view(params: Seq<Option<String>>) -> Seq<Option<Seq<char>>> {
    params.map_values(|p: Option<String>| param_view(p))
}

/// The text of the insert statement for `table` with the columns `header`.
pub fn insert_sql(table: &String, header: &Vec<String>) -> (r: String)
    ensures
        r@ == spec_insert_sql(table@, header.deep_view()),
{
    let ghost hv = header.deep_view();
    let mut columns = String::new();
    let mut placeholders = String::new();
    let mut i: usize = 0;
    while i < header.len()
        invariant
            hv == header.deep_view(),
            i <= header.len(),
            columns@ == column_list(hv.take(i as int)),
            placeholders@ == placeholder_list(hv.take(i as int)),
        decreases header.len() - i,
    {
        assert(hv.take(i + 1).drop_last() =~= hv.take(i as int));
        assert(hv.take(i + 1).last() == header[i as int]@);
        columns.append(", ");
        columns.append(header[i].as_str());
        placeholders.append(", :");
        placeholders.append(header[i].as_str());
        i = i + 1;
    }
    assert(hv.take(i as int) =~= hv);
    let mut sql = String::from_str("INSERT INTO ");
    sql.append(table.as_str());
    sql.append(" (feed");
    sql.append(columns.as_str());
    sql.append(") VALUES (?1");
    sql.append(placeholders.as_str());
    sql.append(")");
    sql
}

/// The values bound for one row of feed `feed`: the feed name first, then
/// each field, with NULL for an empty field.
pub fn bind_values(feed: &String, fields: &Vec<String>) -> (r: Vec<Option<String>>)
    ensures
        params_view(r@) == spec_bound_values(feed@, fields.deep_view()),
{
    let ghost fv = fields.deep_view();
    let mut r: Vec<Option<String>> = Vec::new();
    r.push(Some(feed.clone()));
    let mut i: usize = 0;
    while i < fields.len()
        invariant
            fv == fields.deep_view(),
            i <= fields.len(),
            params_view(r@) == seq![Some(feed@)] + fv.take(i as int).map_values(
                |f: Seq<char>| field_value(f),
            ),
        decreases fields.len() - i,
    {
        let ghost before = r@;
        if fields[i].as_str().is_empty() {
            r.push(None);
        } else {
            r.push(Some(fields[i].clone()));
        }
        assert(r@ == before.push(r@.last()));
        assert(params_view(r@) =~= params_view(before).push(param_view(r@.last())));
        assert(fv.take(i + 1).map_values(|f: Seq<char>| field_value(f)) =~= fv.take(
            i as int,
        ).map_values(|f: Seq<char>| field_value(f)).push(field_value(fv[i as int])));
        assert(seq![Some(feed@)] + fv.take(i + 1).map_values(|f: Seq<char>| field_value(f))
            =~= (seq![Some(feed@)] + fv.take(i as int).map_values(|f: Seq<char>| field_value(f))).push(
            field_value(fv[i as int]),
        ));
        i = i + 1;
    }
    assert(fv.take(i as int) =~= fv);
    r
}

} // verus!

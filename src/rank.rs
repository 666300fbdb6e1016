//! Load order of the tables of one feed.
use vstd::prelude::*;
use vstd::string::StringExecFns;

verus! {

/// Rank shared by every table name that is not in the known list.
pub const UNKNOWN_RANK: u64 = 70;

/// The known tables, in the order in which they must be loaded.
pub open spec fn known_table_names() -> Seq<Seq<char>> {
    seq![
        "feed_info"@, "agency"@, "levels"@, "stops"@, "routes"@, "trips"@,
        "location_groups"@, "stop_times"@, "calendar"@, "calendar_dates"@, "areas"@,
        "stop_areas"@, "networks"@, "route_networks"@, "shapes"@, "frequencies"@,
        "pathways"@,
    ]
}

/// Rank of `name` when the search starts at position `i` of the known list.
pub open spec fn rank_from(name: Seq<char>, i: nat) -> nat
    decreases known_table_names().len() - i,
{
    if i >= known_table_names().len() {
        UNKNOWN_RANK as nat
    } else if known_table_names()[i as int] == name {
        i
    } else {
        rank_from(name, i + 1)
    }
}

/// Rank of a table name: its position in the known list, or `UNKNOWN_RANK`.
pub open spec fn spec_rank(name: Seq<char>) -> nat {
    rank_from(name, 0)
}

proof fn lemma_rank_from(name: Seq<char>, i: nat)
    requires
        i <= known_table_names().len(),
    ensures
        rank_from(name, i) == UNKNOWN_RANK || (i <= rank_from(name, i)
            < known_table_names().len() && known_table_names()[rank_from(name, i) as int]
            == name),
        (forall|j: int| i <= j < known_table_names().len() ==> known_table_names()[j] != name)
            ==> rank_from(name, i) == UNKNOWN_RANK,
        forall|j: int|
            i <= j < known_table_names().len() && known_table_names()[j] == name
                ==> rank_from(name, i) <= j,
    decreases known_table_names().len() - i,
{
    if i < known_table_names().len() {
        lemma_rank_from(name, i + 1);
    }
}

/// A rank below `UNKNOWN_RANK` identifies the name; a known name never gets `UNKNOWN_RANK`.
pub proof fn lemma_rank_identifies(name: Seq<char>)
    ensures
        spec_rank(name) == UNKNOWN_RANK || (spec_rank(name) < known_table_names().len()
            && known_table_names()[spec_rank(name) as int] == name),
        known_table_names().contains(name) ==> spec_rank(name) < known_table_names().len(),
{
    lemma_rank_from(name, 0);
    if known_table_names().contains(name) {
        let j = choose|j: int| 0 <= j < known_table_names().len() && known_table_names()[j] == name;
        assert(rank_from(name, 0) <= j);
    }
}

fn known_tables() -> (r: Vec<String>)
    ensures
        r.deep_view() == known_table_names(),
{
    let mut r: Vec<String> = Vec::new();
    r.push(String::from_str("feed_info"));
    r.push(String::from_str("agency"));
    r.push(String::from_str("levels"));
    r.push(String::from_str("stops"));
    r.push(String::from_str("routes"));
    r.push(String::from_str("trips"));
    r.push(String::from_str("location_groups"));
    r.push(String::from_str("stop_times"));
    r.push(String::from_str("calendar"));
    r.push(String::from_str("calendar_dates"));
    r.push(String::from_str("areas"));
    r.push(String::from_str("stop_areas"));
    r.push(String::from_str("networks"));
    r.push(String::from_str("route_networks"));
    r.push(String::from_str("shapes"));
    r.push(String::from_str("frequencies"));
    r.push(String::from_str("pathways"));
    assert(r.deep_view() =~= known_table_names());
    r
}

/// Sort rank of a table name: tables that others depend on come first, and
/// every unknown name shares the last rank.
pub fn table_rank(name: &String) -> (r: u64)
    ensures
        r == spec_rank(name@),
{
    let known = known_tables();
    let mut i: usize = 0;
    while i < known.len()
        invariant
            known.deep_view() == known_table_names(),
            i <= known.len(),
            rank_from(name@, 0) == rank_from(name@, i as nat),
        decreases known.len() - i,
    {
        assert(known.deep_view()[i as int] == known[i as int]@);
        if known[i] == *name {
            return i as u64;
        }
        i = i + 1;
    }
    UNKNOWN_RANK
}

/// Table `x` loads before table `y`: a lower rank, or the same rank and an earlier position.
pub open spec fn key_before(names: Seq<Seq<char>>, x: usize, y: usize) -> bool {
    spec_rank(names[x as int]) < spec_rank(names[y as int]) || (spec_rank(names[x as int])
        == spec_rank(names[y as int]) && x < y)
}

/// `order` lists every position of `names` once, by ascending rank, and
/// positions of equal rank in their given order.
pub open spec fn is_load_order(names: Seq<Seq<char>>, order: Seq<usize>) -> bool {
    &&& order.len() == names.len()
    &&& forall|k: int| 0 <= k < order.len() ==> order[k] < names.len()
    &&& forall|j: usize| j < names.len() ==> order.contains(j)
    &&& forall|a: int, b: int|
        #![trigger order[a], order[b]]
        0 <= a < b < order.len() ==> key_before(names, order[a], order[b])
}

/// The load sequence of a feed's tables: the positions of `names` by ascending
/// rank, ties kept in the given order.
pub fn load_order(names: &Vec<String>) -> (order: Vec<usize>)
    ensures
        is_load_order(names.deep_view(), order@),
{
    let ghost nv = names.deep_view();
    let mut order: Vec<usize> = Vec::new();
    let mut i: usize = 0;
    while i < names.len()
        invariant
            nv == names.deep_view(),
            i <= names.len(),
            order.len() == i,
            forall|k: int| 0 <= k < order.len() ==> order[k] < i,
            forall|j: usize| j < i ==> order@.contains(j),
            forall|a: int, b: int|
                #![trigger order[a], order[b]]
                0 <= a < b < order.len() ==> key_before(nv, order[a], order[b]),
        decreases names.len() - i,
    {
        let ri = table_rank(&names[i]);
        assert(names[i as int]@ == nv[i as int]);
        let mut p: usize = 0;
        while p < order.len() && table_rank(&names[order[p]]) <= ri
            invariant
                nv == names.deep_view(),
                i < names.len(),
                p <= order.len(),
                forall|k: int| 0 <= k < order.len() ==> order[k] < i,
                forall|k: int| 0 <= k < p ==> spec_rank(nv[order[k] as int]) <= ri,
            decreases order.len() - p,
        {
            assert(names[order[p as int] as int]@ == nv[order[p as int] as int]);
            p = p + 1;
        }
        if p < order.len() {
            assert(names[order[p as int] as int]@ == nv[order[p as int] as int]);
        }
        let ghost prev = order@;
        order.insert(p, i);
        assert forall|j: usize| j < i + 1 implies order@.contains(j) by {
            if j == i {
                assert(order@[p as int] == j);
            } else {
                assert(prev.contains(j));
                let k = choose|k: int| 0 <= k < prev.len() && prev[k] == j;
                if k < p {
                    assert(order@[k] == j);
                } else {
                    assert(order@[k + 1] == j);
                }
            }
        }
        assert forall|a: int, b: int|
            #![trigger order[a], order[b]]
            0 <= a < b < order.len() implies key_before(nv, order[a], order[b]) by {
            if b < p {
            } else if b == p {
                assert(order[a] == prev[a]);
            } else if a < p {
                assert(order[b] == prev[b - 1]);
                assert(order[a] == prev[a]);
                if p < prev.len() {
                    if p as int != b - 1 {
                        assert(spec_rank(nv[prev[p as int] as int]) <= spec_rank(nv[prev[b - 1] as int]));
                    }
                }
            } else if a == p {
                assert(order[b] == prev[b - 1]);
                if b - 1 != p {
                    assert(spec_rank(nv[prev[p as int] as int]) <= spec_rank(nv[prev[b - 1] as int]));
                }
            } else {
                assert(order[b] == prev[b - 1]);
                assert(order[a] == prev[a - 1]);
            }
        }
        i = i + 1;
    }
    order
}

/// In a load order the ranks never decrease, every known table precedes every
/// unknown one, and no two different tables share a known rank.
pub proof fn lemma_load_order_ranks(names: Seq<Seq<char>>, order: Seq<usize>)
    requires
        is_load_order(names, order),
    ensures
        forall|a: int, b: int|
            0 <= a <= b < order.len() ==> spec_rank(names[order[a] as int]) <= spec_rank(
                names[order[b] as int],
            ),
        forall|a: int, b: int|
            0 <= a < order.len() && 0 <= b < order.len() && known_table_names().contains(
                names[order[a] as int],
            ) && !known_table_names().contains(names[order[b] as int]) ==> a < b,
        forall|x: Seq<char>, y: Seq<char>|
            spec_rank(x) == spec_rank(y) && spec_rank(x) < UNKNOWN_RANK ==> x == y,
{
    assert forall|x: Seq<char>, y: Seq<char>|
        spec_rank(x) == spec_rank(y) && spec_rank(x) < UNKNOWN_RANK implies x == y by {
        lemma_rank_identifies(x);
        lemma_rank_identifies(y);
    }
    assert forall|a: int, b: int|
        0 <= a < order.len() && 0 <= b < order.len() && known_table_names().contains(
            names[order[a] as int],
        ) && !known_table_names().contains(names[order[b] as int]) implies a < b by {
        lemma_rank_identifies(names[order[a] as int]);
        lemma_rank_identifies(names[order[b] as int]);
        if b < a {
            assert(spec_rank(names[order[b] as int]) <= spec_rank(names[order[a] as int]));
        }
    }
}

} // verus!

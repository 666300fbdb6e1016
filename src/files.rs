//! Which files of a feed directory are tables, and which tables are skipped.
use vstd::prelude::*;
use vstd::string::StringExecFns;

verus! {

/// The file name ends in the table extension `.txt` and has a non-empty stem.
pub open spec fn has_table_extension(f: Seq<char>) -> bool {
    &&& f.len() > 4
    &&& f[f.len() - 4] == '.'
    &&& f[f.len() - 3] == 't'
    &&& f[f.len() - 2] == 'x'
    &&& f[f.len() - 1] == 't'
}

/// The table a file holds: its name without the extension, for table files only.
pub open spec fn spec_table_name(f: Seq<char>) -> Option<Seq<char>> {
    if has_table_extension(f) {
        Some(f.subrange(0, f.len() - 4))
    } else {
        None
    }
}

/// The table held by the file `file_name`, or `None` when the file is not a
/// table file and is to be ignored.
pub fn table_name_of(file_name: &String) -> (r: Option<String>)
    ensures
        match r {
            Some(t) => spec_table_name(file_name@) == Some(t@),
            None => spec_table_name(file_name@) is None,
        },
{
    let s = file_name.as_str();
    let n = s.unicode_len();
    if n > 4 && s.get_char(n - 4) == '.' && s.get_char(n - 3) == 't' && s.get_char(n - 2) == 'x'
        && s.get_char(n - 1) == 't' {
        Some(String::from_str(s.substring_char(0, n - 4)))
    } else {
        None
    }
}

/// The set of table names that are never loaded.
pub struct Denylist {
    pub names: Vec<String>,
}

impl Denylist {
    /// The names of the list, as sequences of characters.
    pub open spec fn view_names(&self) -> Seq<Seq<char>> {
        self.names.deep_view()
    }

    /// The list that skips the table of geometric path points, `shapes`.
    pub fn standard() -> (r: Denylist)
        ensures
            r.view_names() == seq!["shapes"@],
    {
        let mut names: Vec<String> = Vec::new();
        names.push(String::from_str("shapes"));
        assert(names.deep_view() =~= seq!["shapes"@]);
        Denylist { names }
    }

    /// Whether the table `name` is skipped.
    pub fn is_denied(&self, name: &String) -> (r: bool)
        ensures
            r == self.view_names().contains(name@),
    {
        let mut i: usize = 0;
        while i < self.names.len()
            invariant
                i <= self.names.len(),
                forall|k: int| 0 <= k < i ==> self.view_names()[k] != name@,
            decreases self.names.len() - i,
        {
            if self.names[i] == *name {
                assert(self.view_names()[i as int] == name@);
                return true;
            }
            i = i + 1;
        }
        false
    }
}

} // verus!

//! The path table: which file runs for a bare command name.
//!
//! The table is made once from the directories of a search path, in their
//! order. Listing a directory is the caller's work; which entry wins is
//! decided here.

use crate::atom::{atom_text, intern};
use crate::text::{is_boundary, lemma_boundary_after_ascii, slice, text_between};
use string_cache::DefaultAtom as Atom;
use vstd::hash_map::StringHashMap;
use vstd::prelude::*;
use vstd::string::StringSliceAdditionalSpecFns;
use vstd::utf8::{encode_utf8_valid_utf8, valid_utf8};

verus! {

/// `:`, which stands between the directories of a search path.
pub const COLON: u8 = 0x3a;

/// One file of a directory: its base name and its full path.
#[derive(Clone, Debug, PartialEq, Eq)]
pub struct PathEntry {
    pub name: String,
    pub path: String,
}

/// The first position at or after `i` that holds a `:`, or the length of
/// `s` where none does.
pub open spec fn next_colon(s: Seq<u8>, i: int) -> int
    decreases s.len() - i,
{
    if 0 <= i < s.len() && s[i] != COLON {
        next_colon(s, i + 1)
    } else {
        i
    }
}

/// The parts of `s` from `i` on that `:` separates, each by its first and
/// its end position. Two `:` side by side, and one at the very end, have an
/// empty part between or behind them.
pub open spec fn parts_from(s: Seq<u8>, i: int) -> Seq<(int, int)>
    decreases s.len() - i,
    via parts_from_terminates
{
    let j = next_colon(s, i);
    if 0 <= j < s.len() {
        seq![(i, j)] + parts_from(s, j + 1)
    } else {
        seq![(i, j)]
    }
}

#[via_fn]
proof fn parts_from_terminates(s: Seq<u8>, i: int) {
    lemma_next_colon(s, i);
}

/// The directories that a search path names, in their order.
pub open spec fn directories(path_env: Seq<u8>) -> Seq<Seq<char>> {
    parts_from(path_env, 0).map_values(|part: (int, int)| text_between(path_env, part.0, part.1))
}

/// The next `:` stands at or behind `i`, inside the text, and no `:` stands
/// before it.
pub proof fn lemma_next_colon(s: Seq<u8>, i: int)
    ensures
        i <= next_colon(s, i),
        i <= s.len() ==> next_colon(s, i) <= s.len(),
        0 <= next_colon(s, i) < s.len() ==> s[next_colon(s, i)] == COLON,
        forall|k: int| i <= k < next_colon(s, i) ==> #[trigger] s[k] != COLON,
    decreases s.len() - i,
{
    if 0 <= i < s.len() && s[i] != COLON {
        lemma_next_colon(s, i + 1);
    }
}

/// Splits a search path at each `:` into the directories that it names. A
/// path without a `:` is one directory; the empty path is one directory with
/// an empty name.
pub fn split_path<'a>(path_env: &'a str) -> (dirs: Vec<&'a str>)
    ensures
        dirs@.map_values(|dir: &str| dir@) == directories(path_env.spec_bytes()),
{
    let bytes = path_env.as_bytes();
    let ghost s = path_env.spec_bytes();
    let mut dirs: Vec<&'a str> = Vec::new();
    let mut start: usize = 0;
    let ghost mut done: Seq<(int, int)> = Seq::empty();
    proof {
        encode_utf8_valid_utf8(path_env@);
        assert(done + parts_from(s, 0) =~= parts_from(s, 0));
    }
    loop
        invariant
            bytes@ == s,
            s == path_env.spec_bytes(),
            valid_utf8(s),
            start <= s.len(),
            is_boundary(s, start as int),
            parts_from(s, 0) == done + parts_from(s, start as int),
            dirs@.map_values(|dir: &str| dir@) == done.map_values(
                |part: (int, int)| text_between(s, part.0, part.1),
            ),
        decreases s.len() - start,
    {
        let mut end = start;
        while end < bytes.len() && bytes[end] != COLON
            invariant
                bytes@ == s,
                start <= end <= s.len(),
                next_colon(s, start as int) == next_colon(s, end as int),
            decreases s.len() - end,
        {
            end += 1;
        }
        let ghost before = dirs@;
        let dir = slice(path_env, start, end);
        dirs.push(dir);
        proof {
            assert(dirs@.map_values(|dir: &str| dir@) =~= done.push(
                (start as int, end as int),
            ).map_values(|part: (int, int)| text_between(s, part.0, part.1))) by {
                let a = dirs@.map_values(|dir: &str| dir@);
                let b = done.push((start as int, end as int)).map_values(
                    |part: (int, int)| text_between(s, part.0, part.1),
                );
                let a0 = before.map_values(|dir: &str| dir@);
                let b0 = done.map_values(|part: (int, int)| text_between(s, part.0, part.1));
                assert(a0.len() == b0.len());
                assert forall|k: int| 0 <= k < a.len() implies a[k] == b[k] by {
                    if k < before.len() {
                        assert(a[k] == a0[k]);
                        assert(b[k] == b0[k]);
                    }
                }
            }
        }
        if end >= bytes.len() {
            proof {
                assert(done.push((start as int, end as int)) =~= done + parts_from(
                    s,
                    start as int,
                ));
            }
            return dirs;
        }
        proof {
            lemma_boundary_after_ascii(s, end as int);
            assert(done.push((start as int, end as int)) + parts_from(s, end + 1) =~= done
                + parts_from(s, start as int));
            done = done.push((start as int, end as int));
        }
        start = end + 1;
    }
}

/// `table` with the first `n` of `entries` put in, one after the other. An
/// entry whose name the table holds already changes nothing.
pub open spec fn with_entries(
    table: Map<Seq<char>, Seq<char>>,
    entries: Seq<PathEntry>,
    n: int,
) -> Map<Seq<char>, Seq<char>>
    decreases n,
{
    if n <= 0 {
        table
    } else {
        let before = with_entries(table, entries, n - 1);
        let entry = entries[n - 1];
        if before.contains_key(entry.name@) {
            before
        } else {
            before.insert(entry.name@, entry.path@)
        }
    }
}

/// `table` with the entries of the first `n` of `dirs` put in, directory by
/// directory. A directory that could not be listed, `None`, changes
/// nothing.
pub open spec fn with_dirs(
    table: Map<Seq<char>, Seq<char>>,
    dirs: Seq<Option<Vec<PathEntry>>>,
    n: int,
) -> Map<Seq<char>, Seq<char>>
    decreases n,
{
    if n <= 0 {
        table
    } else {
        let before = with_dirs(table, dirs, n - 1);
        match dirs[n - 1] {
            Some(entries) => with_entries(before, entries@, entries@.len() as int),
            None => before,
        }
    }
}

/// The table that the listings of a search path's directories make.
pub open spec fn table_of(dirs: Seq<Option<Vec<PathEntry>>>) -> Map<Seq<char>, Seq<char>> {
    with_dirs(Map::empty(), dirs, dirs.len() as int)
}

/// A snapshot of the executables that a search path offers: base name to
/// full path.
pub struct PathTable {
    paths: StringHashMap<Atom>,
}

impl View for PathTable {
    type V = Map<Seq<char>, Seq<char>>;

    closed spec fn view(&self) -> Map<Seq<char>, Seq<char>> {
        self.paths@.map_values(|path: Atom| atom_text(path))
    }
}

impl Default for PathTable {
    /// The empty table.
    fn default() -> (table: Self)
        ensures
            table@ == Map::<Seq<char>, Seq<char>>::empty(),
    {
        PathTable::new()
    }
}

impl PathTable {
    /// The empty table.
    pub fn new() -> (table: Self)
        ensures
            table@ == Map::<Seq<char>, Seq<char>>::empty(),
    {
        let table = PathTable { paths: StringHashMap::new() };
        assert(table@ =~= Map::<Seq<char>, Seq<char>>::empty());
        table
    }

    /// The full path of the executable with this base name.
    pub fn lookup(&self, name: &str) -> (found: Option<&Atom>)
        ensures
            match found {
                Some(path) => self@.contains_key(name@) && atom_text(*path) == self@[name@],
                None => !self@.contains_key(name@),
            },
    {
        self.paths.get(name)
    }

    /// Puts one entry in, unless the table holds its name already.
    fn add(&mut self, entry: &PathEntry)
        ensures
            final(self)@ == if old(self)@.contains_key(entry.name@) {
                old(self)@
            } else {
                old(self)@.insert(entry.name@, entry.path@)
            },
    {
        if !self.paths.contains_key(entry.name.as_str()) {
            let path = intern(entry.path.as_str());
            self.paths.insert(entry.name.clone(), path);
            assert(self@ =~= old(self)@.insert(entry.name@, entry.path@));
        }
    }

    /// Makes the table anew from the listings of a search path's
    /// directories, which come in the order of the path. Of two entries
    /// with one name the first stays. `None` stands for a directory that
    /// could not be listed.
    pub fn cache(&mut self, listings: &Vec<Option<Vec<PathEntry>>>)
        ensures
            final(self)@ == table_of(listings@),
    {
        self.paths.clear();
        assert(self@ =~= Map::<Seq<char>, Seq<char>>::empty());
        let mut i: usize = 0;
        while i < listings.len()
            invariant
                i <= listings.len(),
                self@ == with_dirs(Map::empty(), listings@, i as int),
            decreases listings.len() - i,
        {
            match &listings[i] {
                Some(entries) => {
                    let mut j: usize = 0;
                    while j < entries.len()
                        invariant
                            i < listings.len(),
                            listings@[i as int] == Some(*entries),
                            j <= entries.len(),
                            self@ == with_entries(
                                with_dirs(Map::empty(), listings@, i as int),
                                entries@,
                                j as int,
                            ),
                        decreases entries.len() - j,
                    {
                        self.add(&entries[j]);
                        j += 1;
                    }
                },
                None => {},
            }
            i += 1;
        }
    }
}

/// The entry that a table made of `entries` holds for a name is the first
/// entry of that name, unless the table held the name before.
pub proof fn lemma_first_entry_wins(
    table: Map<Seq<char>, Seq<char>>,
    entries: Seq<PathEntry>,
    n: int,
    first: int,
)
    requires
        0 <= first < n <= entries.len(),
        !table.contains_key(entries[first].name@),
        forall|k: int| 0 <= k < first ==> (#[trigger] entries[k]).name@ != entries[first].name@,
    ensures
        with_entries(table, entries, n).contains_key(entries[first].name@),
        with_entries(table, entries, n)[entries[first].name@] == entries[first].path@,
    decreases n,
{
    if first < n - 1 {
        lemma_first_entry_wins(table, entries, n - 1, first);
    } else {
        lemma_entries_add_only_their_names(table, entries, first, entries[first].name@);
    }
}

/// A table made of `entries` holds a name only if it held it before or one
/// of the entries has it, and keeps what it held before.
pub proof fn lemma_entries_add_only_their_names(
    table: Map<Seq<char>, Seq<char>>,
    entries: Seq<PathEntry>,
    n: int,
    name: Seq<char>,
)
    requires
        0 <= n <= entries.len(),
    ensures
        table.contains_key(name) ==> with_entries(table, entries, n).contains_key(name)
            && with_entries(table, entries, n)[name] == table[name],
        (!table.contains_key(name) && forall|k: int|
            0 <= k < n ==> (#[trigger] entries[k]).name@ != name) ==> !with_entries(
            table,
            entries,
            n,
        ).contains_key(name),
    decreases n,
{
    if n > 0 {
        lemma_entries_add_only_their_names(table, entries, n - 1, name);
    }
}

/// Whether a directory's listing holds an entry of this name.
pub open spec fn lists(dir: Option<Vec<PathEntry>>, name: Seq<char>) -> bool {
    match dir {
        Some(entries) => exists|k: int| 0 <= k < entries@.len() && (#[trigger] entries@[k]).name@ == name,
        None => false,
    }
}

/// A table made of the listings `dirs` holds no name that no listing
/// holds.
pub proof fn lemma_dirs_add_only_their_names(
    dirs: Seq<Option<Vec<PathEntry>>>,
    n: int,
    name: Seq<char>,
)
    requires
        0 <= n <= dirs.len(),
        forall|d: int| 0 <= d < n ==> !lists(#[trigger] dirs[d], name),
    ensures
        !with_dirs(Map::empty(), dirs, n).contains_key(name),
    decreases n,
{
    if n > 0 {
        lemma_dirs_add_only_their_names(dirs, n - 1, name);
        assert(!lists(dirs[n - 1], name));
        match dirs[n - 1] {
            Some(entries) => {
                lemma_entries_add_only_their_names(
                    with_dirs(Map::empty(), dirs, n - 1),
                    entries@,
                    entries@.len() as int,
                    name,
                );
            },
            None => {},
        }
    }
}

/// The first directory of the search path that holds a name wins: where
/// directory `d` lists the name, first at its entry `k`, and no directory
/// before `d` lists it, the table holds the path of that entry, whatever
/// the directories behind `d` hold.
pub proof fn lemma_first_directory_wins(dirs: Seq<Option<Vec<PathEntry>>>, d: int, k: int)
    requires
        0 <= d < dirs.len(),
        dirs[d] is Some,
        0 <= k < dirs[d]->Some_0@.len(),
        forall|m: int|
            0 <= m < k ==> (#[trigger] dirs[d]->Some_0@[m]).name@ != dirs[d]->Some_0@[k].name@,
        forall|e: int| 0 <= e < d ==> !lists(#[trigger] dirs[e], dirs[d]->Some_0@[k].name@),
    ensures
        table_of(dirs).contains_key(dirs[d]->Some_0@[k].name@),
        table_of(dirs)[dirs[d]->Some_0@[k].name@] == dirs[d]->Some_0@[k].path@,
{
    let entries = dirs[d]->Some_0@;
    let name = entries[k].name@;
    lemma_dirs_add_only_their_names(dirs, d, name);
    let before = with_dirs(Map::empty(), dirs, d);
    lemma_first_entry_wins(before, entries, entries.len() as int, k);
    lemma_later_dirs_keep(dirs, d + 1, dirs.len() as int, name);
}

/// What the table holds for a name after the first `from` directories, it
/// holds after the first `to`.
proof fn lemma_later_dirs_keep(
    dirs: Seq<Option<Vec<PathEntry>>>,
    from: int,
    to: int,
    name: Seq<char>,
)
    requires
        0 <= from <= to <= dirs.len(),
        with_dirs(Map::empty(), dirs, from).contains_key(name),
    ensures
        with_dirs(Map::empty(), dirs, to).contains_key(name),
        with_dirs(Map::empty(), dirs, to)[name] == with_dirs(Map::empty(), dirs, from)[name],
    decreases to - from,
{
    if from < to {
        lemma_later_dirs_keep(dirs, from, to - 1, name);
        match dirs[to - 1] {
            Some(entries) => {
                lemma_entries_add_only_their_names(
                    with_dirs(Map::empty(), dirs, to - 1),
                    entries@,
                    entries@.len() as int,
                    name,
                );
            },
            None => {},
        }
    }
}

} // verus!

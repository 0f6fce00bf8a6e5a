use polyshell::shell::path_table::{split_path, PathEntry, PathTable};
use string_cache::DefaultAtom as Atom;

fn entry(name: &str, path: &str) -> PathEntry {
    PathEntry { name: name.to_string(), path: path.to_string() }
}

fn table(listings: Vec<Option<Vec<PathEntry>>>) -> PathTable {
    let mut table = PathTable::new();
    table.cache(&listings);
    table
}

#[test]
fn split_at_colons() {
    assert_eq!(split_path("/a:/b"), vec!["/a", "/b"]);
    assert_eq!(split_path("/usr/local/bin:/usr/bin:/bin"), vec!["/usr/local/bin", "/usr/bin", "/bin"]);
}

#[test]
fn split_without_colon_is_one_directory() {
    assert_eq!(split_path("/bin"), vec!["/bin"]);
}

#[test]
fn split_of_the_empty_path_is_one_empty_directory() {
    assert_eq!(split_path(""), vec![""]);
}

#[test]
fn split_keeps_empty_parts() {
    assert_eq!(split_path("a::b:"), vec!["a", "", "b", ""]);
    assert_eq!(split_path(":"), vec!["", ""]);
    assert_eq!(split_path(":a"), vec!["", "a"]);
}

#[test]
fn split_keeps_wide_characters() {
    assert_eq!(split_path("/é:/ü/ö"), vec!["/é", "/ü/ö"]);
}

#[test]
fn split_is_what_std_split_gives() {
    for path in ["", ":", "a", "a:b", "::", "/a:/b:", ":/x::/y"] {
        assert_eq!(split_path(path), path.split(':').collect::<Vec<&str>>());
    }
}

#[test]
fn empty_table_finds_nothing() {
    assert_eq!(PathTable::new().lookup("ls"), None);
    assert_eq!(PathTable::default().lookup("ls"), None);
    assert_eq!(table(vec![]).lookup("ls"), None);
}

#[test]
fn first_directory_wins() {
    let found = table(vec![
        Some(vec![entry("cmd", "/a/cmd")]),
        Some(vec![entry("cmd", "/b/cmd")]),
    ]);
    assert_eq!(found.lookup("cmd"), Some(&Atom::from("/a/cmd")));
}

#[test]
fn later_directory_adds_what_is_new() {
    let found = table(vec![
        Some(vec![entry("cmd", "/a/cmd"), entry("one", "/a/one")]),
        Some(vec![entry("two", "/b/two"), entry("cmd", "/b/cmd"), entry("one", "/b/one")]),
        Some(vec![entry("two", "/c/two"), entry("three", "/c/three")]),
    ]);
    assert_eq!(found.lookup("cmd"), Some(&Atom::from("/a/cmd")));
    assert_eq!(found.lookup("one"), Some(&Atom::from("/a/one")));
    assert_eq!(found.lookup("two"), Some(&Atom::from("/b/two")));
    assert_eq!(found.lookup("three"), Some(&Atom::from("/c/three")));
    assert_eq!(found.lookup("four"), None);
}

#[test]
fn first_entry_of_a_directory_wins() {
    let found = table(vec![Some(vec![entry("x", "/a/x"), entry("x", "/a/other")])]);
    assert_eq!(found.lookup("x"), Some(&Atom::from("/a/x")));
}

#[test]
fn directory_that_cannot_be_listed_is_skipped() {
    let found = table(vec![
        None,
        Some(vec![entry("cmd", "/b/cmd")]),
        None,
        Some(vec![entry("cmd", "/d/cmd"), entry("more", "/d/more")]),
    ]);
    assert_eq!(found.lookup("cmd"), Some(&Atom::from("/b/cmd")));
    assert_eq!(found.lookup("more"), Some(&Atom::from("/d/more")));
}

#[test]
fn cache_makes_the_table_anew() {
    let mut found = table(vec![Some(vec![entry("old", "/a/old"), entry("cmd", "/a/cmd")])]);
    found.cache(&vec![Some(vec![entry("cmd", "/b/cmd")])]);
    assert_eq!(found.lookup("old"), None);
    assert_eq!(found.lookup("cmd"), Some(&Atom::from("/b/cmd")));
}

#[test]
fn names_are_told_apart_exactly() {
    let found = table(vec![Some(vec![entry("ls", "/bin/ls")])]);
    assert_eq!(found.lookup("l"), None);
    assert_eq!(found.lookup("lss"), None);
    assert_eq!(found.lookup("LS"), None);
    assert_eq!(found.lookup(""), None);
}

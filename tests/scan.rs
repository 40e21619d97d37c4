use automod::emit::ModItem;
use automod::scan::{source_file_names, DirEntry, ScanError};
use automod::dir;

fn file(name: &str) -> DirEntry {
    DirEntry { name: name.as_bytes().to_vec(), is_file: true }
}

fn raw_file(name: &[u8]) -> DirEntry {
    DirEntry { name: name.to_vec(), is_file: true }
}

fn subdir(name: &str) -> DirEntry {
    DirEntry { name: name.as_bytes().to_vec(), is_file: false }
}

fn item(name: &str, ident: &str, path: Option<&str>) -> ModItem {
    ModItem { name: name.to_string(), ident: ident.to_string(), path: path.map(|p| p.to_string()) }
}

#[test]
fn mixed_directory_sorted_and_emitted() {
    let entries = vec![file("foo.rs"), file("bar-baz.rs"), file("lib.rs"), file("9lives.rs")];
    assert_eq!(
        source_file_names(&entries),
        Ok(vec!["9lives".to_string(), "bar-baz".to_string(), "foo".to_string()])
    );
    assert_eq!(
        dir(&entries),
        Ok(vec![
            item("9lives", "_9lives", Some("9lives.rs")),
            item("bar-baz", "bar_baz", Some("bar-baz.rs")),
            item("foo", "foo", None),
        ])
    );
}

#[test]
fn only_mod_and_notes_is_empty() {
    let entries = vec![file("mod.rs"), file("notes.txt")];
    assert_eq!(source_file_names(&entries), Err(ScanError::Empty));
    assert_eq!(dir(&entries), Err(ScanError::Empty));
}

#[test]
fn empty_listing_is_empty() {
    assert_eq!(source_file_names(&vec![]), Err(ScanError::Empty));
}

#[test]
fn reserved_and_foreign_names_are_empty() {
    let entries = vec![file("lib"), file("lib.rs"), file("mod.rs"), file("a.txt"), file("b.RS"), file(".rs")];
    assert_eq!(source_file_names(&entries), Err(ScanError::Empty));
}

#[test]
fn directories_are_skipped() {
    let entries = vec![subdir("sub.rs"), file("real.rs")];
    assert_eq!(source_file_names(&entries), Ok(vec!["real".to_string()]));
    assert_eq!(source_file_names(&vec![subdir("only.rs")]), Err(ScanError::Empty));
}

#[test]
fn source_files_come_sorted() {
    let entries = vec![file("c.rs"), file("a.rs"), file("b.rs"), file("ab.rs")];
    assert_eq!(
        source_file_names(&entries),
        Ok(vec!["a".to_string(), "ab".to_string(), "b".to_string(), "c".to_string()])
    );
}

#[test]
fn lookalike_names_are_kept() {
    let entries = vec![file("libs.rs"), file("mod.rs.rs"), file("x.rs.txt")];
    assert_eq!(
        source_file_names(&entries),
        Ok(vec!["libs".to_string(), "mod.rs".to_string()])
    );
}

#[test]
fn utf8_names_are_decoded() {
    let entries = vec![file("é.rs"), file("z.rs")];
    assert_eq!(source_file_names(&entries), Ok(vec!["z".to_string(), "é".to_string()]));
}

#[test]
fn least_non_utf8_name_is_reported() {
    let entries = vec![raw_file(b"z\xff.rs"), file("ok.rs"), raw_file(b"a\xfe.rs")];
    assert_eq!(
        source_file_names(&entries),
        Err(ScanError::Utf8("a\u{FFFD}.rs".to_string()))
    );
    let reordered = vec![raw_file(b"a\xfe.rs"), raw_file(b"z\xff.rs"), file("ok.rs")];
    assert_eq!(
        dir(&reordered),
        Err(ScanError::Utf8("a\u{FFFD}.rs".to_string()))
    );
}

#[test]
fn non_utf8_names_outside_sources_are_ignored() {
    let entries = vec![raw_file(b"\xff.txt"), file("a.rs")];
    assert_eq!(source_file_names(&entries), Ok(vec!["a".to_string()]));
}

#[test]
fn listing_order_does_not_matter() {
    let a = vec![file("x-y.rs"), file("2d.rs"), file("m.rs"), file("mod.rs")];
    let b = vec![file("mod.rs"), file("m.rs"), file("x-y.rs"), file("2d.rs")];
    let first = dir(&a);
    assert_eq!(first, dir(&a));
    assert_eq!(first, dir(&b));
    assert_eq!(
        first,
        Ok(vec![item("2d", "_2d", Some("2d.rs")), item("m", "m", None), item("x-y", "x_y", Some("x-y.rs"))])
    );
}

#[test]
fn error_messages() {
    assert_eq!(ScanError::Io("No such file or directory".to_string()).message(), "No such file or directory");
    assert_eq!(ScanError::Empty.message(), "no source files found");
    assert_eq!(
        ScanError::Utf8("a\u{FFFD}.rs".to_string()).message(),
        "unsupported non-utf8 file name: a\u{FFFD}.rs"
    );
}

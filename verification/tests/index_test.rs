use everything_core::{CrawlerConfig, Database, FileEntry, FileMetadata, SearchQuery};

fn file(size: u64) -> FileMetadata {
    FileMetadata { size, is_dir: false, modified: 1700000000 }
}

fn dir() -> FileMetadata {
    FileMetadata { size: 4096, is_dir: true, modified: 1700000000 }
}

fn paths(db: &Database) -> Vec<String> {
    db.entries().iter().map(|e| e.full_path()).collect()
}

#[test]
fn new_entry_splits_path() {
    let e = FileEntry::new("/home/user/Report.PDF", &file(10)).unwrap();
    assert_eq!(e.name, "Report.PDF");
    assert_eq!(e.name_lower, "report.pdf");
    assert_eq!(e.parent, "/home/user");
    assert_eq!(e.size, 10);
    assert!(!e.is_dir);
    assert_eq!(e.full_path(), "/home/user/Report.PDF");
    assert_eq!(e.extension(), Some("PDF"));
}

#[test]
fn new_entry_unicode_lowercase() {
    let e = FileEntry::new("/tmp/ÄÖÜ.TXT", &file(1)).unwrap();
    assert_eq!(e.name_lower, "äöü.txt");
}

#[test]
fn new_entry_without_file_name() {
    assert!(FileEntry::new("/", &dir()).is_none());
    assert!(FileEntry::new("/home/..", &dir()).is_none());
    assert!(FileEntry::new("", &dir()).is_none());
}

#[test]
fn new_entry_parent_as_std_gives_it() {
    let e = FileEntry::new("/home//user/./docs/", &dir()).unwrap();
    assert_eq!(e.name, "docs");
    assert_eq!(e.parent, "/home//user");
    assert_eq!(e.full_path(), "/home//user/docs");
    let dot = FileEntry::new("./src/main.rs", &file(1)).unwrap();
    assert_eq!(dot.parent, "./src");
    let lone = FileEntry::new("./x", &file(1)).unwrap();
    assert_eq!(lone.parent, ".");
    let top = FileEntry::new("/etc", &dir()).unwrap();
    assert_eq!(top.parent, "/");
    assert_eq!(top.full_path(), "/etc");
    let rel = FileEntry::new("notes.txt", &file(3)).unwrap();
    assert_eq!(rel.parent, "");
    assert_eq!(rel.full_path(), "notes.txt");
}

#[test]
fn extension_edge_cases() {
    let hidden = FileEntry::new("/home/.bashrc", &file(1)).unwrap();
    assert_eq!(hidden.extension(), None);
    let trailing = FileEntry::new("/home/name.", &file(1)).unwrap();
    assert_eq!(trailing.extension(), None);
    let double = FileEntry::new("/home/a.tar.gz", &file(1)).unwrap();
    assert_eq!(double.extension(), Some("gz"));
    let none = FileEntry::new("/home/Makefile", &file(1)).unwrap();
    assert_eq!(none.extension(), None);
}

#[test]
fn upsert_reads_back_one_entry_per_path() {
    let mut db = Database::new(CrawlerConfig::default());
    db.upsert_path("/home/a.txt", &file(1));
    db.upsert_path("/home/b.txt", &file(2));
    db.upsert_path("/home//a.txt", &file(3));
    assert_eq!(db.len(), 2);
    assert_eq!(paths(&db), vec!["/home/a.txt".to_string(), "/home/b.txt".to_string()]);
    assert_eq!(db.entries()[0].size, 3);
    assert_eq!(db.entries()[1].size, 2);
}

#[test]
fn upsert_of_root_changes_nothing() {
    let mut db = Database::default();
    db.upsert_path("/", &dir());
    assert!(db.is_empty());
}

#[test]
fn remove_undoes_upsert() {
    let mut db = Database::default();
    db.upsert_path("/home/a.txt", &file(1));
    db.upsert_path("/home/b.txt", &file(2));
    db.upsert_path("/home/c.txt", &file(2));
    db.remove_path("/home/./b.txt");
    assert_eq!(paths(&db), vec!["/home/a.txt".to_string(), "/home/c.txt".to_string()]);
    db.remove_path("/home/missing");
    assert_eq!(db.len(), 2);
}

#[test]
fn batch_upsert_and_remove() {
    let mut db = Database::default();
    db.batch_upsert(&[
        ("/x/1".to_string(), file(1)),
        ("/x/2".to_string(), file(2)),
        ("/x/1".to_string(), file(9)),
        ("/".to_string(), dir()),
    ]);
    assert_eq!(paths(&db), vec!["/x/1".to_string(), "/x/2".to_string()]);
    assert_eq!(db.entries()[0].size, 9);
    db.batch_remove(&[]);
    assert_eq!(db.len(), 2);
    db.batch_remove(&["/x/2/".to_string(), "/y".to_string()]);
    assert_eq!(paths(&db), vec!["/x/1".to_string()]);
}

#[test]
fn batch_remove_matches_stepwise_removal() {
    let items = vec![
        ("/p/a".to_string(), file(1)),
        ("/p/b".to_string(), file(1)),
        ("/p/c".to_string(), file(1)),
        ("/p/d".to_string(), file(1)),
    ];
    let mut one = Database::default();
    one.batch_upsert(&items);
    let mut two = Database::default();
    two.batch_upsert(&items);
    one.batch_remove(&["/p/a".to_string(), "/p/c".to_string()]);
    two.remove_path("/p/a");
    two.remove_path("/p/c");
    assert_eq!(paths(&one), paths(&two));
    assert_eq!(paths(&one), vec!["/p/b".to_string(), "/p/d".to_string()]);
}

#[test]
fn replace_entries_and_search() {
    let mut db = Database::default();
    let es = vec![
        FileEntry::new("/srv/one.log", &file(1)).unwrap(),
        FileEntry::new("/srv/two.log", &file(1)).unwrap(),
    ];
    assert_eq!(db.replace_entries(es), 2);
    let res = db.search(&SearchQuery { raw: "two".to_string(), ..Default::default() });
    assert_eq!(res.total_scanned, 2);
    assert_eq!(res.entries.len(), 1);
    assert_eq!(res.entries[0].name, "two.log");
    assert_eq!(db.config().follow_symlinks, false);
}

use everything_core::icons::get_icon_name;
use everything_core::mounts::parse_line;
use everything_core::path::{canonical_path, file_name, join, parent, paths_equal, starts_with_path};
use everything_core::text::{split_chars, SplitMode};
use everything_core::{
    ChildEntry, CompactEntry, CrawlVisit, Database, Crawler, CrawlerConfig, DirectoryStore, FileEntry, FileMetadata,
    MountTable, WatchAction, WatchBatcher, WatchEventKind, WatchSignal, WatcherHealth,
    DEFAULT_EXCLUDED_ROOTS, FLAG_IS_DIR, FLAG_IS_REMOVABLE, FLAG_IS_SYMLINK,
};

fn meta(is_dir: bool) -> FileMetadata {
    FileMetadata { size: 7, is_dir, modified: 1 }
}

#[test]
fn path_helpers_follow_std() {
    assert_eq!(canonical_path("/a//b/./c/"), "/a/b/c");
    assert_eq!(canonical_path("./a/./b"), "./a/b");
    assert_eq!(canonical_path("a/../b"), "a/../b");
    assert!(paths_equal("/a/b/", "/a//b"));
    assert!(!paths_equal("/a/b", "a/b"));
    assert!(starts_with_path("/media/usb/x", "/media"));
    assert!(!starts_with_path("/mediax", "/media"));
    assert_eq!(file_name("/a/b.txt"), Some("b.txt".to_string()));
    assert_eq!(file_name("/a/.."), None);
    assert_eq!(file_name("/"), None);
    assert_eq!(parent("/a/b.txt"), Some("/a".to_string()));
    assert_eq!(parent("/"), None);
    assert_eq!(parent("b.txt"), Some("".to_string()));
    assert_eq!(join("/a", "b"), "/a/b");
    assert_eq!(join("/a/", "b"), "/a/b");
    assert_eq!(join("/a", "/etc"), "/etc");
    assert_eq!(join("", "b"), "b");
}

#[test]
fn parent_joined_with_name_is_the_path() {
    for p in ["/a/b/c.txt", "/x", "./rel/f", "rel/f", "a/../b", "/a//b/./c/", "//x", "x/./"] {
        let joined = join(&parent(p).unwrap(), &file_name(p).unwrap());
        assert!(paths_equal(&joined, p));
        assert!(p.starts_with(&parent(p).unwrap()));
    }
    assert_eq!(parent("/a//b/./c/"), Some("/a//b".to_string()));
    assert_eq!(parent("//x"), Some("/".to_string()));
    assert_eq!(parent("x/./"), Some("".to_string()));
    assert_eq!(parent("."), Some("".to_string()));
    assert_eq!(parent("./"), Some("".to_string()));
    assert_eq!(parent("/."), None);
    assert_eq!(parent(""), None);
    assert_eq!(parent("a/.."), Some("a".to_string()));
}

#[test]
fn split_modes() {
    let cs: Vec<char> = " a  b\tc ".chars().collect();
    let parts = split_chars(&cs, SplitMode::Whitespace);
    let strs: Vec<String> = parts.iter().map(|p| p.iter().collect()).collect();
    assert_eq!(strs, vec!["a", "b", "c"]);
    let cs: Vec<char> = "rw,,user".chars().collect();
    let parts = split_chars(&cs, SplitMode::Comma);
    let strs: Vec<String> = parts.iter().map(|p| p.iter().collect()).collect();
    assert_eq!(strs, vec!["rw", "", "user"]);
}

#[test]
fn directory_store_ids_read_back() {
    let mut dirs = DirectoryStore::new();
    assert!(dirs.is_empty());
    let a = dirs.get_or_insert("/srv/a");
    let b = dirs.get_or_insert("/srv/b");
    assert_eq!((a, b), (0, 1));
    assert_eq!(dirs.get_or_insert("/srv//a/"), a);
    assert_eq!(dirs.len(), 2);
    assert_eq!(dirs.get_path(a), Some("/srv/a".to_string()));
    assert_eq!(dirs.get_path_ref(b), Some("/srv/b"));
    assert_eq!(dirs.get_path(9), None);
    assert_eq!(dirs.find_id("/srv/b/"), Some(b));
    assert_eq!(dirs.find_id("/srv/c"), None);
    assert_eq!(dirs.dirs().len(), 2);
    let mut rebuilt = DirectoryStore::from_dirs(vec!["/p".to_string(), "/q".to_string()]);
    assert_eq!(rebuilt.find_id("/q"), Some(1));
    rebuilt.rebuild_lookup();
    assert_eq!(rebuilt.find_id("/p"), Some(0));
    assert_eq!(DirectoryStore::default().len(), 0);
}

#[test]
fn compact_entry_flags_and_expansion() {
    let mut dirs = DirectoryStore::new();
    let id = dirs.get_or_insert("/mnt/usb");
    let c = CompactEntry {
        dir_id: id,
        name: "Photos.tar.GZ".into(),
        size: 5,
        modified: 42,
        flags: FLAG_IS_DIR | FLAG_IS_REMOVABLE,
    };
    assert!(c.is_dir());
    assert!(c.is_removable());
    assert!(!c.is_symlink());
    assert_eq!(c.extension(), Some("GZ"));
    let fe = c.to_file_entry(&dirs);
    assert_eq!(fe.name_lower, "photos.tar.gz");
    assert_eq!(fe.full_path(), "/mnt/usb/Photos.tar.GZ");
    assert!(fe.is_dir);
    assert_eq!(fe.modified, 42);
    let lost = CompactEntry { dir_id: 77, name: "x".into(), size: 0, modified: 0, flags: FLAG_IS_SYMLINK };
    assert!(lost.is_symlink());
    assert_eq!(lost.to_file_entry(&dirs).parent, "/");
}

#[test]
fn mount_lines_parse() {
    let e = parse_line("/dev/sdb1 /media/usb vfat rw,user,rw,noexec 0 0").unwrap();
    assert_eq!(e.device, "/dev/sdb1");
    assert_eq!(e.mount_point, "/media/usb");
    assert_eq!(e.fs_type, "vfat");
    assert_eq!(e.options, vec!["rw".to_string(), "user".to_string(), "noexec".to_string()]);
    assert!(e.is_removable && e.is_real_storage && !e.is_btrfs);
    let b = parse_line("/dev/sda2 /data btrfs rw,subvol=/@data 0 0").unwrap();
    assert!(b.is_btrfs && b.is_real_storage && !b.is_removable);
    let u = parse_line("/dev/sdc1 /srv/x ext4 rw,users 0 0").unwrap();
    assert!(u.is_removable);
    assert!(parse_line("too few fields").is_none());
    assert!(parse_line("").is_none());
}

#[test]
fn mount_table_queries() {
    let lines = vec![
        "/dev/sda1 / ext4 rw 0 0".to_string(),
        "proc /proc proc rw 0 0".to_string(),
        "/dev/sdb1 /media/usb vfat rw 0 0".to_string(),
        "tmpfs /media/usb/tmp tmpfs rw 0 0".to_string(),
        "/dev/sdc1 /mnt/disk ntfs3 rw 0 0".to_string(),
        "garbage".to_string(),
        "sysfs /sys sysfs rw 0 0".to_string(),
        "/dev/sdd1 /home/me/stick fuseblk rw,user 0 0".to_string(),
    ];
    let t = MountTable::from_lines(&lines);
    assert_eq!(t.entries.len(), 7);
    assert!(t.is_virtual_fs("/proc/1/maps"));
    assert!(t.is_virtual_fs("/sys"));
    assert!(!t.is_virtual_fs("/procfs"));
    assert!(!t.is_virtual_fs("/media/usb/tmp/x"));
    assert!(!t.is_virtual_fs("/etc/passwd"));
    assert!(t.is_removable_drive("/run/media/me/disk"));
    assert!(!t.is_removable_drive("/home/me"));
    assert_eq!(
        t.removable_mounts(),
        vec!["/media/usb".to_string(), "/mnt/disk".to_string(), "/home/me/stick".to_string()]
    );
    let empty = MountTable::default();
    assert!(!empty.is_virtual_fs("/proc"));
    assert!(empty.removable_mounts().is_empty());
}

#[test]
fn later_mount_hides_earlier_one() {
    let t = MountTable::from_lines(&[
        "/dev/sda1 / ext4 rw 0 0".to_string(),
        "/dev/sdb1 /data ext4 rw 0 0".to_string(),
        "none /data proc rw 0 0".to_string(),
    ]);
    assert!(t.is_virtual_fs("/data/x"));
    let u = MountTable::from_lines(&[
        "none /data proc rw 0 0".to_string(),
        "/dev/sdb1 /data ext4 rw 0 0".to_string(),
    ]);
    assert!(!u.is_virtual_fs("/data/x"));
}

#[test]
fn crawler_decisions() {
    let cfg = CrawlerConfig::default();
    assert_eq!(cfg.excluded_paths.len(), DEFAULT_EXCLUDED_ROOTS.len());
    assert_eq!(cfg.max_depth, None);
    let crawler = Crawler::new(cfg);
    assert!(crawler.is_excluded("/proc"));
    assert!(crawler.is_excluded("/var/lib/docker/"));
    assert!(!crawler.is_excluded("/proc/1"));
    assert!(crawler.crawls_root("/home", true));
    assert!(!crawler.crawls_root("/home", false));
    assert!(!crawler.crawls_root("/sys", true));
    assert!(crawler.depth_allowed(100));
    assert!(!crawler.depth_allowed(101));
    assert!(Crawler::parallel_subdirs(5, 2));
    assert!(!Crawler::parallel_subdirs(6, 2));
    assert!(!Crawler::parallel_subdirs(0, 1));
    match crawler.visit("/home/me/a.txt", false, false, &meta(false)) {
        CrawlVisit::File(e) => assert_eq!(e.full_path(), "/home/me/a.txt"),
        _ => panic!("expected a file"),
    }
    match crawler.visit("/home/me/dir", false, true, &meta(true)) {
        CrawlVisit::Dir(e) => assert!(e.is_dir),
        _ => panic!("expected a directory"),
    }
    assert!(matches!(crawler.visit("/tmp", false, true, &meta(true)), CrawlVisit::Skip));
    assert!(matches!(crawler.visit("/home/link", true, false, &meta(false)), CrawlVisit::Skip));
    let following = Crawler::new(CrawlerConfig {
        excluded_paths: vec![],
        follow_symlinks: true,
        max_depth: Some(3),
    });
    assert!(matches!(following.visit("/home/link", true, false, &meta(false)), CrawlVisit::File(_)));
    assert!(following.depth_allowed(3));
    assert!(!following.depth_allowed(4));
    assert_eq!(following.config().max_depth, Some(3));
}

fn child(name: &str, is_symlink: bool, is_dir: bool) -> ChildEntry {
    ChildEntry { name: name.to_string(), is_symlink, is_dir, metadata: meta(is_dir) }
}

#[test]
fn walk_dir_steps() {
    let crawler = Crawler::new(CrawlerConfig::default());
    let kids = vec![
        child("a.txt", false, false),
        child("sub", false, true),
        child("link", true, false),
        child("tmp", false, true),
        child("more", false, true),
    ];
    let step = crawler.walk_dir("/home/me", 0, &kids);
    let paths: Vec<String> = step.entries.iter().map(|e| e.full_path()).collect();
    assert_eq!(
        paths,
        vec!["/home/me/a.txt".to_string(), "/home/me/sub".to_string(), "/home/me/tmp".to_string(), "/home/me/more".to_string()]
    );
    assert_eq!(step.subdirs, vec!["/home/me/sub".to_string(), "/home/me/tmp".to_string(), "/home/me/more".to_string()]);
    assert!(step.parallel);
    let top = crawler.walk_dir("/", 1, &kids);
    assert!(!top.subdirs.contains(&"/tmp".to_string()));
    assert_eq!(top.subdirs.len(), 2);
    let deep = crawler.walk_dir("/x", 101, &kids);
    assert!(deep.entries.is_empty() && deep.subdirs.is_empty() && !deep.parallel);
    let shallow = crawler.walk_dir("/x", 6, &kids);
    assert!(!shallow.parallel);
}

fn batch_paths(actions: &[WatchAction]) -> Vec<(bool, Vec<String>)> {
    actions
        .iter()
        .map(|a| match a {
            WatchAction::Upsert(p) => (true, p.clone()),
            WatchAction::Remove(p) => (false, p.clone()),
        })
        .collect()
}

#[test]
fn watcher_batches_events() {
    let mut b = WatchBatcher::new();
    let s = b.step(WatchSignal::Event(WatchEventKind::Create, vec!["/a".to_string()]));
    assert!(s.actions.is_empty() && s.keep_running);
    let s = b.step(WatchSignal::Event(WatchEventKind::Remove, vec!["/b".to_string()]));
    assert!(s.actions.is_empty());
    let s = b.step(WatchSignal::Event(WatchEventKind::Other, vec!["/c".to_string()]));
    assert!(s.actions.is_empty());
    let s = b.step(WatchSignal::Error);
    assert!(s.actions.is_empty() && s.keep_running);
    let s = b.step(WatchSignal::Timeout);
    assert!(s.keep_running);
    assert_eq!(
        batch_paths(&s.actions),
        vec![(true, vec!["/a".to_string()]), (false, vec!["/b".to_string()])]
    );
    let s = b.step(WatchSignal::Timeout);
    assert!(s.actions.is_empty());
}

#[test]
fn watcher_flushes_full_buffers_and_on_stop() {
    let mut b = WatchBatcher::new();
    let many: Vec<String> = (0..499).map(|i| format!("/f{}", i)).collect();
    let s = b.step(WatchSignal::Event(WatchEventKind::Modify, many));
    assert!(s.actions.is_empty());
    let s = b.step(WatchSignal::Event(WatchEventKind::Create, vec!["/last".to_string()]));
    let out = batch_paths(&s.actions);
    assert_eq!(out.len(), 1);
    assert!(out[0].0);
    assert_eq!(out[0].1.len(), 500);
    assert_eq!(out[0].1[499], "/last");
    b.step(WatchSignal::Event(WatchEventKind::Remove, vec!["/gone".to_string()]));
    let s = b.step(WatchSignal::Stop);
    assert!(!s.keep_running);
    assert_eq!(batch_paths(&s.actions), vec![(false, vec!["/gone".to_string()])]);
    let s = b.step(WatchSignal::Disconnected);
    assert!(!s.keep_running && s.actions.is_empty());
}

#[test]
fn watcher_last_event_decides() {
    let mut b = WatchBatcher::new();
    b.step(WatchSignal::Event(WatchEventKind::Remove, vec!["/p".to_string(), "/q".to_string()]));
    b.step(WatchSignal::Event(WatchEventKind::Create, vec!["/p/".to_string()]));
    let s = b.step(WatchSignal::Timeout);
    assert_eq!(
        batch_paths(&s.actions),
        vec![(true, vec!["/p/".to_string()]), (false, vec!["/q".to_string()])]
    );
    b.step(WatchSignal::Event(WatchEventKind::Modify, vec!["/r".to_string()]));
    b.step(WatchSignal::Event(WatchEventKind::Remove, vec!["//r".to_string()]));
    let s = b.step(WatchSignal::Stop);
    assert_eq!(batch_paths(&s.actions), vec![(false, vec!["//r".to_string()])]);
}

#[test]
fn watcher_health() {
    assert_eq!(WatcherHealth::assess(true, 2, false), WatcherHealth::PartiallyDegraded(2));
    assert_eq!(WatcherHealth::assess(false, 0, false), WatcherHealth::Failed);
    assert_eq!(WatcherHealth::assess(false, 0, true), WatcherHealth::Healthy);
    assert_eq!(WatcherHealth::assess(false, 3, false), WatcherHealth::Healthy);
}

fn icon(path: &str, is_dir: bool) -> &'static str {
    get_icon_name(&FileEntry::new(path, &meta(is_dir)).unwrap())
}

#[test]
fn icons_by_extension() {
    assert_eq!(icon("/a/src", true), "folder");
    assert_eq!(icon("/a/x.py", false), "text-x-python");
    assert_eq!(icon("/a/x.MD", false), "text-markdown");
    assert_eq!(icon("/a/x.rs", false), "text-x-script");
    assert_eq!(icon("/a/x.zsh", false), "text-x-script");
    assert_eq!(icon("/a/x.htm", false), "text-html");
    assert_eq!(icon("/a/x.JPEG", false), "image-x-generic");
    assert_eq!(icon("/a/x.opus", false), "audio-x-generic");
    assert_eq!(icon("/a/x.mov", false), "video-x-generic");
    assert_eq!(icon("/a/x.pdf", false), "application-pdf");
    assert_eq!(icon("/a/x.rtf", false), "x-office-document");
    assert_eq!(icon("/a/x.csv", false), "x-office-spreadsheet");
    assert_eq!(icon("/a/x.odp", false), "x-office-presentation");
    assert_eq!(icon("/a/x.zst", false), "package-x-generic");
    assert_eq!(icon("/a/x.AppImage", false), "application-x-executable");
    assert_eq!(icon("/a/x.woff2", false), "font-x-generic");
    assert_eq!(icon("/a/x.log", false), "text-x-generic");
    assert_eq!(icon("/a/Makefile", false), "text-x-generic");
    assert_eq!(icon("/a/x.unknown", false), "text-x-generic");
}

#[test]
fn watched_index_follows_last_event() {
    let mut db = Database::default();
    let mut b = WatchBatcher::new();
    let m = meta(false);
    let signals = vec![
        WatchSignal::Event(WatchEventKind::Create, vec!["/w/p".to_string()]),
        WatchSignal::Timeout,
        WatchSignal::Event(WatchEventKind::Remove, vec!["/w/p".to_string(), "/w/q".to_string()]),
        WatchSignal::Event(WatchEventKind::Create, vec!["/w/p".to_string()]),
        WatchSignal::Event(WatchEventKind::Modify, vec!["/w/r".to_string()]),
        WatchSignal::Timeout,
    ];
    for sig in signals {
        let step = b.step(sig);
        for a in step.actions {
            match a {
                WatchAction::Upsert(ps) => {
                    let items: Vec<(String, FileMetadata)> = ps.into_iter().map(|p| (p, m)).collect();
                    db.batch_upsert(&items);
                }
                WatchAction::Remove(ps) => db.batch_remove(&ps),
            }
        }
    }
    let paths: Vec<String> = db.entries().iter().map(|e| e.full_path()).collect();
    assert_eq!(paths, vec!["/w/p".to_string(), "/w/r".to_string()]);
}

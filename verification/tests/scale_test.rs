use everything_core::{
    CompactEntry, DirectoryStore, FileCategory, MountTable, SearchEngine, SearchQuery, FLAG_IS_DIR,
};
use std::time::Instant;

#[test]
fn test_compact_entry_and_directory_store() {
    let mut dirs = DirectoryStore::new();
    let id1 = dirs.get_or_insert("/home/arghadeep/projects");
    let id2 = dirs.get_or_insert("/home/arghadeep/projects");
    assert_eq!(id1, id2, "Duplicate directory must return identical ID");
    assert_eq!(dirs.len(), 1);

    let id3 = dirs.get_or_insert("/usr/bin");
    assert_eq!(id3, 1);
    assert_eq!(dirs.len(), 2);

    let entry = CompactEntry {
        dir_id: id1,
        name: "main.rs".into(),
        size: 2048,
        modified: 1700000000,
        flags: 0,
    };

    let fe = entry.to_file_entry(&dirs);
    assert_eq!(fe.name, "main.rs");
    assert_eq!(fe.parent, "/home/arghadeep/projects");
    assert_eq!(fe.full_path(), "/home/arghadeep/projects/main.rs");
    assert_eq!(fe.extension(), Some("rs"));
    assert!(!fe.is_dir);
}

#[test]
fn test_compact_search_engine_features() {
    let mut dirs = DirectoryStore::new();
    let doc_id = dirs.get_or_insert("/home/user/Documents");
    let code_id = dirs.get_or_insert("/home/user/Source/repo");

    let entries = vec![
        CompactEntry {
            dir_id: doc_id,
            name: "Quarterly_Report_2026.pdf".into(),
            size: 1024 * 1024,
            modified: 1700000000,
            flags: 0,
        },
        CompactEntry {
            dir_id: doc_id,
            name: "Notes.txt".into(),
            size: 512,
            modified: 1700000000,
            flags: 0,
        },
        CompactEntry {
            dir_id: code_id,
            name: "Cargo.toml".into(),
            size: 800,
            modified: 1700000000,
            flags: 0,
        },
        CompactEntry {
            dir_id: code_id,
            name: "lib.rs".into(),
            size: 4096,
            modified: 1700000000,
            flags: 0,
        },
        CompactEntry {
            dir_id: code_id,
            name: "tests".into(),
            size: 4096,
            modified: 1700000000,
            flags: FLAG_IS_DIR,
        },
    ];

    // Substring multi-term search
    let q = SearchQuery {
        raw: "report pdf".to_string(),
        ..Default::default()
    };
    let res = SearchEngine::execute_compact(&entries, &dirs, &q);
    assert_eq!(res.entries.len(), 1);
    assert_eq!(res.entries[0].name, "Quarterly_Report_2026.pdf");

    // Path slash search
    let q_path = SearchQuery {
        raw: "Source/repo Cargo".to_string(),
        ..Default::default()
    };
    let res_path = SearchEngine::execute_compact(&entries, &dirs, &q_path);
    assert_eq!(res_path.entries.len(), 1);
    assert_eq!(res_path.entries[0].name, "Cargo.toml");

    // Category filter: Code
    let q_cat = SearchQuery {
        category: FileCategory::Code,
        ..Default::default()
    };
    let res_cat = SearchEngine::execute_compact(&entries, &dirs, &q_cat);
    let names: Vec<String> = res_cat.entries.into_iter().map(|e| e.name).collect();
    assert!(names.contains(&"lib.rs".to_string()));
    assert!(names.contains(&"Cargo.toml".to_string()));
    assert!(!names.contains(&"Quarterly_Report_2026.pdf".to_string()));

    // Dir only filter
    let q_dir = SearchQuery {
        dir_only: true,
        ..Default::default()
    };
    let res_dir = SearchEngine::execute_compact(&entries, &dirs, &q_dir);
    assert_eq!(res_dir.entries.len(), 1);
    assert_eq!(res_dir.entries[0].name, "tests");
}

/// A mount table as `/proc/mounts` lists it on a typical Linux machine.
fn typical_mount_lines() -> Vec<String> {
    vec![
        "sysfs /sys sysfs rw,nosuid,nodev,noexec,relatime 0 0".to_string(),
        "proc /proc proc rw,nosuid,nodev,noexec,relatime 0 0".to_string(),
        "udev /dev devtmpfs rw,nosuid,relatime,size=8000000k,mode=755 0 0".to_string(),
        "devpts /dev/pts devpts rw,nosuid,noexec,relatime 0 0".to_string(),
        "tmpfs /run tmpfs rw,nosuid,nodev,noexec,relatime,mode=755 0 0".to_string(),
        "/dev/nvme0n1p2 / ext4 rw,relatime,errors=remount-ro 0 0".to_string(),
        "cgroup2 /sys/fs/cgroup cgroup2 rw,nosuid,nodev,noexec,relatime 0 0".to_string(),
        "/dev/nvme0n1p3 /home ext4 rw,relatime 0 0".to_string(),
    ]
}

#[test]
fn test_mount_table_and_virtual_fs() {
    let mount_table = MountTable::from_lines(&typical_mount_lines());
    assert!(mount_table.is_virtual_fs("/proc/cpuinfo"));
    assert!(mount_table.is_virtual_fs("/sys/class"));
    assert!(!mount_table.is_virtual_fs("/home"));
}

#[test]
fn test_scale_100k_synthetic_entries_performance() {
    // Benchmark 100,000 entries search latency and memory efficiency
    let mut dirs = DirectoryStore::new();
    let mut dir_ids = Vec::new();
    for i in 0..1000 {
        let p = format!("/usr/lib/node_modules/package_{}/src", i);
        dir_ids.push(dirs.get_or_insert(&p));
    }

    let mut entries = Vec::with_capacity(100_000);
    for i in 0..100_000 {
        let dir_id = dir_ids[i % dir_ids.len()];
        let name = format!("module_worker_{:05}.js", i);
        entries.push(CompactEntry {
            dir_id,
            name: name.into_boxed_str(),
            size: (i as u64) * 128,
            modified: 1700000000,
            flags: 0,
        });
    }

    let query = SearchQuery {
        raw: "worker_99".to_string(),
        ..Default::default()
    };

    let start = Instant::now();
    let res = SearchEngine::execute_compact(&entries, &dirs, &query);
    let elapsed = start.elapsed();

    assert!(!res.entries.is_empty());
    println!(
        "Search through 100,000 compact entries completed in {:.3} ms (found {} matches)",
        elapsed.as_secs_f64() * 1000.0,
        res.entries.len()
    );
    // Should take under 15ms even in unoptimized debug test mode!
    assert!(elapsed.as_millis() < 50);
}

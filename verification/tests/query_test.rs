use everything_core::{FileCategory, FileEntry, FileMetadata, SearchEngine, SearchQuery};

fn entry(path: &str, is_dir: bool) -> FileEntry {
    FileEntry::new(path, &FileMetadata { size: 1, is_dir, modified: 0 }).unwrap()
}

fn sample() -> Vec<FileEntry> {
    vec![
        entry("/home/user/Music/Song.MP3", false),
        entry("/home/user/Music", true),
        entry("/home/user/code/main.rs", false),
        entry("/home/user/code/README.md", false),
        entry("/home/user/photos/cat.JPG", false),
        entry("/home/user/photos", true),
    ]
}

fn names(q: SearchQuery) -> Vec<String> {
    SearchEngine::execute(&sample(), &q).entries.into_iter().map(|e| e.name).collect()
}

#[test]
fn empty_query_lists_first_entries() {
    let q = SearchQuery { max_results: 2, ..Default::default() };
    assert_eq!(names(q), vec!["Song.MP3".to_string(), "Music".to_string()]);
    assert_eq!(names(SearchQuery::default()).len(), 6);
}

#[test]
fn default_query() {
    let q = SearchQuery::default();
    assert_eq!(q.raw, "");
    assert_eq!(q.max_results, 10_000);
    assert_eq!(q.category, FileCategory::All);
    assert!(!q.case_sensitive && !q.is_regex && !q.is_wildcard && !q.dir_only && !q.file_only);
}

#[test]
fn empty_query_with_filters() {
    let q = SearchQuery { file_only: true, category: FileCategory::Audio, ..Default::default() };
    assert_eq!(names(q), vec!["Song.MP3".to_string()]);
    let q = SearchQuery { category: FileCategory::Folders, ..Default::default() };
    assert_eq!(names(q), vec!["Music".to_string(), "photos".to_string()]);
    let q = SearchQuery { category: FileCategory::Images, ..Default::default() };
    assert_eq!(names(q), vec!["cat.JPG".to_string()]);
    let q = SearchQuery { category: FileCategory::Documents, ..Default::default() };
    assert_eq!(names(q), vec!["README.md".to_string()]);
}

#[test]
fn terms_are_case_insensitive_by_default() {
    let q = SearchQuery { raw: "MUSIC".to_string(), ..Default::default() };
    assert_eq!(names(q), vec!["Music".to_string()]);
    let q = SearchQuery { raw: "song mp3".to_string(), ..Default::default() };
    assert_eq!(names(q), vec!["Song.MP3".to_string()]);
}

#[test]
fn case_sensitive_terms() {
    let q = SearchQuery { raw: "song".to_string(), case_sensitive: true, ..Default::default() };
    assert!(names(q).is_empty());
    let q = SearchQuery { raw: "Song".to_string(), case_sensitive: true, ..Default::default() };
    assert_eq!(names(q), vec!["Song.MP3".to_string()]);
}

#[test]
fn whitespace_only_query_matches_everything_filtered() {
    let q = SearchQuery { raw: "   ".to_string(), file_only: true, ..Default::default() };
    assert_eq!(names(q).len(), 4);
}

#[test]
fn slash_query_matches_full_path() {
    let q = SearchQuery { raw: "code/".to_string(), ..Default::default() };
    assert_eq!(names(q), vec!["main.rs".to_string(), "README.md".to_string()]);
}

#[test]
fn regex_search() {
    let q = SearchQuery { raw: r"^\w+\.(rs|md)$".to_string(), is_regex: true, ..Default::default() };
    assert_eq!(names(q), vec!["main.rs".to_string(), "README.md".to_string()]);
    let q = SearchQuery {
        raw: "^readme".to_string(),
        is_regex: true,
        case_sensitive: true,
        ..Default::default()
    };
    assert!(names(q).is_empty());
    let q = SearchQuery { raw: "user/photos$".to_string(), is_regex: true, ..Default::default() };
    assert_eq!(names(q), vec!["photos".to_string()]);
}

#[test]
fn invalid_regex_falls_back_to_terms() {
    let q = SearchQuery { raw: "main(".to_string(), is_regex: true, ..Default::default() };
    assert!(names(q).is_empty());
    let q = SearchQuery { raw: "[music".to_string(), is_regex: true, ..Default::default() };
    assert!(names(q).is_empty());
}

#[test]
fn glob_search() {
    let q = SearchQuery { raw: "*.jpg".to_string(), ..Default::default() };
    assert_eq!(names(q), vec!["cat.JPG".to_string()]);
    let q = SearchQuery { raw: "*.jpg".to_string(), case_sensitive: true, ..Default::default() };
    assert!(names(q).is_empty());
    let q = SearchQuery { raw: "m??n.rs".to_string(), ..Default::default() };
    assert_eq!(names(q), vec!["main.rs".to_string()]);
    let q = SearchQuery { raw: "*/code/*".to_string(), ..Default::default() };
    assert_eq!(names(q), vec!["main.rs".to_string(), "README.md".to_string()]);
}

#[test]
fn results_respect_limit_and_kind_filters() {
    let q = SearchQuery { raw: "o".to_string(), max_results: 1, ..Default::default() };
    assert_eq!(names(q).len(), 1);
    let q = SearchQuery { raw: "o".to_string(), dir_only: true, ..Default::default() };
    assert!(SearchEngine::execute(&sample(), &q).entries.iter().all(|e| e.is_dir));
    let q = SearchQuery { raw: "o".to_string(), file_only: true, ..Default::default() };
    assert!(SearchEngine::execute(&sample(), &q).entries.iter().all(|e| !e.is_dir));
    let q = SearchQuery { raw: "o".to_string(), max_results: 0, ..Default::default() };
    assert!(names(q).is_empty());
}

#[test]
fn category_matches() {
    let song = entry("/m/Song.MP3", false);
    assert!(FileCategory::Audio.matches(&song));
    assert!(FileCategory::All.matches(&song));
    assert!(!FileCategory::Video.matches(&song));
    assert!(!FileCategory::Folders.matches(&song));
    let folder = entry("/m/x.mp3", true);
    assert!(!FileCategory::Audio.matches(&folder));
    assert!(FileCategory::Folders.matches(&folder));
    let toml = entry("/r/Cargo.toml", false);
    assert!(FileCategory::Code.matches(&toml));
    let zip = entry("/r/a.ZIP", false);
    assert!(FileCategory::Archives.matches(&zip));
    let mkv = entry("/r/a.mkv", false);
    assert!(FileCategory::Video.matches(&mkv));
}

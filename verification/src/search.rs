//! Queries over file entries: category filters, substring terms, glob
//! patterns and regular expressions.
use vstd::prelude::*;
use crate::text::{
    SplitMode, split_fields, occurs_in, ascii_lower, lowercase, views, views_of, chars_of,
    string_from_chars, to_lowercase, split_chars, contains_chars, ascii_lowercase_chars, in_list,
    has_char,
};
use crate::path::join;
use crate::entry::{
    FileEntry, FileEntryView, CompactEntry, DirectoryStore, extension_of, full_path_of,
    expanded_entry, FLAG_IS_DIR, name_extension,
};
use rayon::iter::{IntoParallelRefIterator, ParallelIterator};
use crate::matchers::{
    GlobMatcher, RegexMatcher, glob_compiles, glob_matches, regex_compiles, regex_matches,
    compile_glob, compile_regex, glob_is_match, regex_is_match, clock_now, micros_since,
};

verus! {

pub const DOCUMENT_EXTENSIONS: [&'static str; 13] = [
    "pdf", "doc", "docx", "txt", "md", "odt", "rtf", "epub", "csv", "xlsx", "pptx", "ods", "log",
];

pub const IMAGE_EXTENSIONS: [&'static str; 11] = [
    "png", "jpg", "jpeg", "svg", "gif", "webp", "bmp", "ico", "tiff", "raw", "heic",
];

pub const AUDIO_EXTENSIONS: [&'static str; 8] = ["mp3", "wav", "flac", "ogg", "m4a", "aac", "wma", "opus"];

pub const VIDEO_EXTENSIONS: [&'static str; 8] = ["mp4", "mkv", "webm", "avi", "mov", "flv", "wmv", "m4v"];

pub const ARCHIVE_EXTENSIONS: [&'static str; 11] = [
    "zip", "tar", "gz", "7z", "rar", "xz", "bz2", "iso", "deb", "rpm", "zst",
];

pub const CODE_EXTENSIONS: [&'static str; 25] = [
    "rs", "py", "c", "cpp", "h", "hpp", "js", "ts", "jsx", "tsx", "html", "css", "json", "toml",
    "yaml", "yml", "sh", "bash", "go", "java", "kt", "swift", "sql", "xml", "php",
];

#[derive(Debug, Clone, Copy, PartialEq, Eq, Structural, Default)]
pub enum FileCategory {
    #[default]
    All,
    Folders,
    Documents,
    Images,
    Audio,
    Video,
    Archives,
    Code,
}

/// The extensions that put a file in a category (none for `All` and `Folders`).
pub open spec fn category_extensions(c: FileCategory) -> Seq<Seq<char>> {
    match c {
        FileCategory::Documents => views_of(DOCUMENT_EXTENSIONS@),
        FileCategory::Images => views_of(IMAGE_EXTENSIONS@),
        FileCategory::Audio => views_of(AUDIO_EXTENSIONS@),
        FileCategory::Video => views_of(VIDEO_EXTENSIONS@),
        FileCategory::Archives => views_of(ARCHIVE_EXTENSIONS@),
        FileCategory::Code => views_of(CODE_EXTENSIONS@),
        _ => seq![],
    }
}

/// The extension of a name, or the empty text when it has none.
pub open spec fn extension_or_empty(name: Seq<char>) -> Seq<char> {
    match extension_of(name) {
        Some(x) => x,
        None => seq![],
    }
}

/// Category membership of an entry with this name and kind: every entry is
/// in `All`, directories are the `Folders`, and a file is in another
/// category when its ASCII-lower-cased extension is one of the category's.
pub open spec fn category_accepts(c: FileCategory, name: Seq<char>, is_dir: bool) -> bool {
    match c {
        FileCategory::All => true,
        FileCategory::Folders => is_dir,
        _ => !is_dir && category_extensions(c).contains(ascii_lower(extension_or_empty(name))),
    }
}

pub open spec fn category_matches(c: FileCategory, e: FileEntryView) -> bool {
    category_accepts(c, e.name, e.is_dir)
}

fn extension_list(c: FileCategory) -> (res: &'static [&'static str])
    ensures
        views_of(res@) == category_extensions(c),
{
    match c {
        FileCategory::Documents => DOCUMENT_EXTENSIONS.as_slice(),
        FileCategory::Images => IMAGE_EXTENSIONS.as_slice(),
        FileCategory::Audio => AUDIO_EXTENSIONS.as_slice(),
        FileCategory::Video => VIDEO_EXTENSIONS.as_slice(),
        FileCategory::Archives => ARCHIVE_EXTENSIONS.as_slice(),
        FileCategory::Code => CODE_EXTENSIONS.as_slice(),
        _ => {
            let empty: &'static [&'static str] = &[];
            assert(views_of(empty@) =~= seq![]);
            empty
        },
    }
}

/// The ASCII-lower-cased extension of `name` (empty when it has none).
pub fn lower_extension(name: &str) -> (res: Vec<char>)
    ensures
        res@ == ascii_lower(extension_or_empty(name@)),
{
    let e = name_extension(name);
    match e {
        Some(x) => {
            let cs = chars_of(x);
            ascii_lowercase_chars(cs.as_slice())
        },
        None => {
            let v: Vec<char> = Vec::new();
            assert(ascii_lower(seq![]) =~= seq![]);
            v
        },
    }
}

/// Category membership, from the name and kind of an entry.
pub fn category_accepts_parts(c: FileCategory, name: &str, is_dir: bool) -> (res: bool)
    ensures
        res == category_accepts(c, name@, is_dir),
{
    match c {
        FileCategory::All => true,
        FileCategory::Folders => is_dir,
        _ => {
            if is_dir {
                return false;
            }
            let ext = lower_extension(name);
            in_list(ext.as_slice(), extension_list(c))
        },
    }
}

impl FileCategory {
    /// Whether `entry` belongs to this category.
    pub fn matches(&self, entry: &FileEntry) -> (res: bool)
        ensures
            res == category_matches(*self, entry@),
    {
        category_accepts_parts(*self, entry.name.as_str(), entry.is_dir)
    }
}

/// The mathematical content of a [`SearchQuery`].
pub struct SearchQueryView {
    pub raw: Seq<char>,
    pub case_sensitive: bool,
    pub is_regex: bool,
    pub is_wildcard: bool,
    pub dir_only: bool,
    pub file_only: bool,
    pub category: FileCategory,
    pub max_results: usize,
}

#[derive(Debug, Clone)]
pub struct SearchQuery {
    pub raw: String,
    pub case_sensitive: bool,
    pub is_regex: bool,
    pub is_wildcard: bool,
    pub dir_only: bool,
    pub file_only: bool,
    pub category: FileCategory,
    pub max_results: usize,
}

impl View for SearchQuery {
    type V = SearchQueryView;

    open spec fn view(&self) -> SearchQueryView {
        SearchQueryView {
            raw: self.raw@,
            case_sensitive: self.case_sensitive,
            is_regex: self.is_regex,
            is_wildcard: self.is_wildcard,
            dir_only: self.dir_only,
            file_only: self.file_only,
            category: self.category,
            max_results: self.max_results,
        }
    }
}

impl Default for SearchQuery {
    fn default() -> (res: Self)
        ensures
            res.raw@ == Seq::<char>::empty(),
            !res.case_sensitive,
            !res.is_regex,
            !res.is_wildcard,
            !res.dir_only,
            !res.file_only,
            res.category == FileCategory::All,
            res.max_results == 10_000,
    {
        SearchQuery {
            raw: String::new(),
            case_sensitive: false,
            is_regex: false,
            is_wildcard: false,
            dir_only: false,
            file_only: false,
            category: FileCategory::All,
            max_results: 10_000,
        }
    }
}

pub struct SearchResult {
    pub entries: Vec<FileEntry>,
    pub elapsed_micros: u128,
    pub total_scanned: usize,
}

/// How a query is evaluated, once its patterns are compiled.
pub enum PlanView {
    /// Empty query without filters: the first entries are returned.
    ListAll,
    /// Empty query with filters: entries passing the filters.
    FilterOnly,
    /// Entries passing the filters whose target matches this regex source.
    Regex(Seq<char>),
    /// Entries passing the filters whose target matches this glob source.
    Glob(Seq<char>),
    /// Entries passing the filters whose target contains every term.
    Terms(Seq<Seq<char>>),
}

/// A query's evaluation plan with its compiled matchers.
pub enum SearchPlan {
    ListAll,
    FilterOnly,
    Regex(RegexMatcher),
    Glob(GlobMatcher),
    Terms(Vec<Vec<char>>),
}

impl View for SearchPlan {
    type V = PlanView;

    open spec fn view(&self) -> PlanView {
        match self {
            SearchPlan::ListAll => PlanView::ListAll,
            SearchPlan::FilterOnly => PlanView::FilterOnly,
            SearchPlan::Regex(m) => PlanView::Regex(m.source()),
            SearchPlan::Glob(m) => PlanView::Glob(m.source()),
            SearchPlan::Terms(ts) => PlanView::Terms(views(ts@)),
        }
    }
}

/// The text a query is matched as, lower-cased unless case-sensitive.
pub open spec fn folded_query(q: SearchQueryView) -> Seq<char> {
    if q.case_sensitive {
        q.raw
    } else {
        lowercase(q.raw)
    }
}

/// The regex source of a query: `(?i)` is put in front unless case-sensitive.
pub open spec fn regex_source(q: SearchQueryView) -> Seq<char> {
    if q.case_sensitive {
        q.raw
    } else {
        seq!['(', '?', 'i', ')'] + q.raw
    }
}

/// The query names wildcards (`*` or `?`).
pub open spec fn has_wildcards(q: SearchQueryView) -> bool {
    q.raw.contains('*') || q.raw.contains('?')
}

/// The plan of a query: an empty query lists or filters; a regex query whose
/// expression compiles is a regex search; a wildcard query whose pattern
/// compiles is a glob search; anything else is a search for the
/// white-space-separated terms of the (folded) query.
pub open spec fn plan_of(q: SearchQueryView) -> PlanView {
    if q.raw.len() == 0 {
        if q.category != FileCategory::All || q.dir_only || q.file_only {
            PlanView::FilterOnly
        } else {
            PlanView::ListAll
        }
    } else if q.is_regex && regex_compiles(regex_source(q)) {
        PlanView::Regex(regex_source(q))
    } else if (q.is_wildcard || has_wildcards(q)) && glob_compiles(folded_query(q)) {
        PlanView::Glob(folded_query(q))
    } else {
        PlanView::Terms(split_fields(folded_query(q), SplitMode::Whitespace))
    }
}

/// The kind and category filters of a query.
pub open spec fn passes_filters(name: Seq<char>, is_dir: bool, q: SearchQueryView) -> bool {
    &&& !(q.dir_only && !is_dir)
    &&& !(q.file_only && is_dir)
    &&& category_accepts(q.category, name, is_dir)
}

/// A query with a `/` is matched against full paths, otherwise against names.
pub open spec fn path_query(q: SearchQueryView) -> bool {
    q.raw.contains('/')
}

/// What a regex is matched against: the full path or the name.
pub open spec fn regex_target(e: FileEntryView, q: SearchQueryView) -> Seq<char> {
    if path_query(q) {
        full_path_of(e)
    } else {
        e.name
    }
}

/// What a glob or the terms are matched against: the full path or the name,
/// in lower case (the stored lower-case name) unless case-sensitive.
pub open spec fn text_target(e: FileEntryView, q: SearchQueryView) -> Seq<char> {
    if path_query(q) {
        if q.case_sensitive {
            full_path_of(e)
        } else {
            lowercase(full_path_of(e))
        }
    } else if q.case_sensitive {
        e.name
    } else {
        e.name_lower
    }
}

/// Every term occurs in `text` (trivially so when there are no terms).
pub open spec fn all_terms_occur(terms: Seq<Seq<char>>, text: Seq<char>) -> bool {
    forall|k: int| 0 <= k < terms.len() ==> occurs_in(#[trigger] terms[k], text)
}

/// Whether a plan selects an entry.
pub open spec fn entry_selected(e: FileEntryView, q: SearchQueryView, p: PlanView) -> bool {
    match p {
        PlanView::ListAll => true,
        PlanView::FilterOnly => passes_filters(e.name, e.is_dir, q),
        PlanView::Regex(src) => passes_filters(e.name, e.is_dir, q) && regex_matches(
            src,
            regex_target(e, q),
        ),
        PlanView::Glob(src) => passes_filters(e.name, e.is_dir, q) && glob_matches(
            src,
            text_target(e, q),
        ),
        PlanView::Terms(ts) => passes_filters(e.name, e.is_dir, q) && all_terms_occur(
            ts,
            text_target(e, q),
        ),
    }
}

/// The entries a plan selects, in their order.
pub open spec fn select(es: Seq<FileEntryView>, q: SearchQueryView, p: PlanView) -> Seq<
    FileEntryView,
>
    decreases es.len(),
{
    if es.len() == 0 {
        seq![]
    } else {
        let r = select(es.drop_last(), q, p);
        if entry_selected(es.last(), q, p) {
            r.push(es.last())
        } else {
            r
        }
    }
}

/// At most `n` first elements of `s`.
pub open spec fn cap<A>(s: Seq<A>, n: usize) -> Seq<A> {
    if s.len() <= n {
        s
    } else {
        s.take(n as int)
    }
}

pub open spec fn entry_views(s: Seq<FileEntry>) -> Seq<FileEntryView> {
    s.map_values(|e: FileEntry| e@)
}

/// `r` is `s` with some elements left out (order kept).
pub open spec fn is_subseq<A>(r: Seq<A>, s: Seq<A>) -> bool
    decreases s.len(),
{
    if r.len() == 0 {
        true
    } else if s.len() == 0 {
        false
    } else {
        (r.last() == s.last() && is_subseq(r.drop_last(), s.drop_last())) || is_subseq(
            r,
            s.drop_last(),
        )
    }
}

/// `r` takes `n` elements of `s` (all of them when `s` has fewer), keeping
/// their order; which ones is left open.
pub open spec fn taken_from<A>(r: Seq<A>, s: Seq<A>, n: usize) -> bool {
    &&& r.len() == (if s.len() <= n {
        s.len() as int
    } else {
        n as int
    })
    &&& is_subseq(r, s)
}

/// The results a query may give over entries: an empty query without
/// filters gives the first `max_results` entries; otherwise `max_results`
/// of the entries that the query's plan selects (all of them when fewer
/// are selected), in their order.
pub open spec fn search_result_allowed(
    es: Seq<FileEntryView>,
    q: SearchQueryView,
    r: Seq<FileEntryView>,
) -> bool {
    if plan_of(q) is ListAll {
        r == cap(es, q.max_results)
    } else {
        taken_from(r, select(es, q, plan_of(q)), q.max_results)
    }
}

/// The rich entries of compact entries, with directories from `dirs`.
pub open spec fn expanded_entries(es: Seq<CompactEntry>, dirs: &DirectoryStore) -> Seq<
    FileEntryView,
> {
    es.map_values(|c: CompactEntry| expanded_entry(c@, dirs.path_at(c.dir_id)))
}

/// Every term occurs in `text`.
fn terms_occur(terms: &Vec<Vec<char>>, text: &[char]) -> (res: bool)
    ensures
        res == all_terms_occur(views(terms@), text@),
{
    let mut k: usize = 0;
    while k < terms.len()
        invariant
            k <= terms@.len(),
            forall|j: int| 0 <= j < k ==> occurs_in(#[trigger] views(terms@)[j], text@),
        decreases terms@.len() - k,
    {
        if !contains_chars(text, terms[k].as_slice()) {
            assert(!occurs_in(views(terms@)[k as int], text@));
            return false;
        }
        k += 1;
    }
    true
}

/// Whether a plan selects the entry with these parts.
pub fn selects_parts(
    name: &str,
    name_lower: &str,
    parent: &str,
    is_dir: bool,
    q: &SearchQuery,
    plan: &SearchPlan,
    path_mode: bool,
) -> (res: bool)
    requires
        path_mode == path_query(q@),
    ensures
        res == entry_selected(
            FileEntryView {
                name: name@,
                name_lower: name_lower@,
                parent: parent@,
                size: 0,
                is_dir,
                modified: 0,
            },
            q@,
            plan@,
        ),
{
    let ghost e = FileEntryView {
        name: name@,
        name_lower: name_lower@,
        parent: parent@,
        size: 0,
        is_dir,
        modified: 0,
    };
    match plan {
        SearchPlan::ListAll => true,
        _ => {
            if q.dir_only && !is_dir {
                return false;
            }
            if q.file_only && is_dir {
                return false;
            }
            if !category_accepts_parts(q.category, name, is_dir) {
                return false;
            }
            match plan {
                SearchPlan::Regex(m) => {
                    if path_mode {
                        let full = join(parent, name);
                        regex_is_match(m, full.as_str())
                    } else {
                        regex_is_match(m, name)
                    }
                },
                SearchPlan::Glob(m) => {
                    if path_mode {
                        let full = join(parent, name);
                        if q.case_sensitive {
                            glob_is_match(m, full.as_str())
                        } else {
                            let low = to_lowercase(full.as_str());
                            glob_is_match(m, low.as_str())
                        }
                    } else if q.case_sensitive {
                        glob_is_match(m, name)
                    } else {
                        glob_is_match(m, name_lower)
                    }
                },
                SearchPlan::Terms(ts) => {
                    if path_mode {
                        let full = join(parent, name);
                        if q.case_sensitive {
                            let cs = chars_of(full.as_str());
                            terms_occur(ts, cs.as_slice())
                        } else {
                            let low = to_lowercase(full.as_str());
                            let cs = chars_of(low.as_str());
                            terms_occur(ts, cs.as_slice())
                        }
                    } else if q.case_sensitive {
                        let cs = chars_of(name);
                        terms_occur(ts, cs.as_slice())
                    } else {
                        let cs = chars_of(name_lower);
                        terms_occur(ts, cs.as_slice())
                    }
                },
                _ => true,
            }
        },
    }
}

/// Whether `plan` selects the entry `e`.
fn entry_matches_plan(e: &FileEntry, q: &SearchQuery, plan: &SearchPlan, path_mode: bool) -> (res:
    bool)
    requires
        path_mode == path_query(q@),
    ensures
        res == entry_selected(e@, q@, plan@),
{
    selects_parts(
        e.name.as_str(),
        e.name_lower.as_str(),
        e.parent.as_str(),
        e.is_dir,
        q,
        plan,
        path_mode,
    )
}

/// Whether `plan` selects the rich form of the compact entry `c`.
fn compact_matches_plan(
    c: &CompactEntry,
    dirs: &DirectoryStore,
    q: &SearchQuery,
    plan: &SearchPlan,
    path_mode: bool,
) -> (res: bool)
    requires
        path_mode == path_query(q@),
    ensures
        res == entry_selected(expanded_entry(c@, dirs.path_at(c.dir_id)), q@, plan@),
{
    let name_lower = to_lowercase(&*c.name);
    let is_dir = (c.flags & FLAG_IS_DIR) != 0;
    match dirs.get_path_ref(c.dir_id) {
        Some(parent) => selects_parts(
            &*c.name,
            name_lower.as_str(),
            parent,
            is_dir,
            q,
            plan,
            path_mode,
        ),
        None => {
            let mut root = String::new();
            crate::text::push_char(&mut root, '/');
            selects_parts(&*c.name, name_lower.as_str(), root.as_str(), is_dir, q, plan, path_mode)
        },
    }
}

/// Rayon's parallel `filter`, `take_any` and `collect` over `entries`, with
/// `entry_matches_plan` as the filter and `FileEntry::clone` making the
/// copies. The contract states what every run gives: `max_results` of the
/// selected entries (all of them when fewer are selected), in their relative
/// order (`take_any` keeps it in `collect`); which ones, when more are
/// selected, depends on thread scheduling and is left open.
#[verifier::external_body]
fn par_take_matching(entries: &[FileEntry], q: &SearchQuery, plan: &SearchPlan, path_mode: bool) -> (res:
    Vec<FileEntry>)
    requires
        path_mode == path_query(q@),
    ensures
        taken_from(entry_views(res@), select(entry_views(entries@), q@, plan@), q.max_results),
{
    entries
        .par_iter()
        .filter(|e| entry_matches_plan(e, q, plan, path_mode))
        .take_any(q.max_results)
        .cloned()
        .collect()
}

/// Rayon's parallel `filter`, `take_any`, `map` and `collect` over compact
/// entries, with `compact_matches_plan` as the filter and
/// `CompactEntry::to_file_entry` as the map. The contract states what every
/// run gives: the rich forms of `max_results` of the selected entries (all
/// of them when fewer are selected), in their relative order; which ones,
/// when more are selected, depends on thread scheduling and is left open.
#[verifier::external_body]
fn par_take_matching_compact(
    entries: &[CompactEntry],
    dirs: &DirectoryStore,
    q: &SearchQuery,
    plan: &SearchPlan,
    path_mode: bool,
) -> (res: Vec<FileEntry>)
    requires
        path_mode == path_query(q@),
    ensures
        taken_from(entry_views(res@), select(expanded_entries(entries@, dirs), q@, plan@), q.max_results),
{
    entries
        .par_iter()
        .filter(|c| compact_matches_plan(c, dirs, q, plan, path_mode))
        .take_any(q.max_results)
        .map(|c| c.to_file_entry(dirs))
        .collect()
}

/// Copies of the first `n` entries (all of them when there are fewer).
fn first_entries(entries: &[FileEntry], n: usize) -> (res: Vec<FileEntry>)
    ensures
        entry_views(res@) == cap(entry_views(entries@), n),
{
    let end = if entries.len() > n {
        n
    } else {
        entries.len()
    };
    let mut out: Vec<FileEntry> = Vec::new();
    let mut i: usize = 0;
    while i < end
        invariant
            i <= end <= entries@.len(),
            end == (if entries@.len() > n { n as int } else { entries@.len() as int }),
            entry_views(out@) == entry_views(entries@).take(i as int),
        decreases end - i,
    {
        let ghost before = entry_views(out@);
        out.push(entries[i].clone());
        assert(entry_views(out@) =~= before.push(entries@[i as int]@));
        assert(entry_views(entries@).take(i + 1) =~= entry_views(entries@).take(i as int).push(
            entries@[i as int]@,
        ));
        i += 1;
    }
    assert(entry_views(entries@).take(entries@.len() as int) =~= entry_views(entries@));
    out
}

/// The rich forms of the first `n` compact entries (all of them when there
/// are fewer).
fn first_expanded(entries: &[CompactEntry], dirs: &DirectoryStore, n: usize) -> (res: Vec<
    FileEntry,
>)
    ensures
        entry_views(res@) == cap(expanded_entries(entries@, dirs), n),
{
    let ghost es = expanded_entries(entries@, dirs);
    let end = if entries.len() > n {
        n
    } else {
        entries.len()
    };
    let mut out: Vec<FileEntry> = Vec::new();
    let mut i: usize = 0;
    while i < end
        invariant
            i <= end <= entries@.len(),
            es == expanded_entries(entries@, dirs),
            end == (if entries@.len() > n { n as int } else { entries@.len() as int }),
            entry_views(out@) == es.take(i as int),
        decreases end - i,
    {
        let ghost before = entry_views(out@);
        out.push(entries[i].to_file_entry(dirs));
        assert(entry_views(out@) =~= before.push(es[i as int]));
        assert(es.take(i + 1) =~= es.take(i as int).push(es[i as int]));
        i += 1;
    }
    assert(es.take(entries@.len() as int) =~= es);
    out
}

pub struct SearchEngine;

impl SearchEngine {
    /// Compiles the query's pattern, as the query asks, into a plan.
    pub fn plan(query: &SearchQuery) -> (res: SearchPlan)
        ensures
            res@ == plan_of(query@),
    {
        let raw_chars = chars_of(query.raw.as_str());
        if raw_chars.len() == 0 {
            if query.category != FileCategory::All || query.dir_only || query.file_only {
                return SearchPlan::FilterOnly;
            }
            return SearchPlan::ListAll;
        }
        if query.is_regex {
            let mut src: Vec<char> = Vec::new();
            if !query.case_sensitive {
                src.push('(');
                src.push('?');
                src.push('i');
                src.push(')');
            }
            let mut k: usize = 0;
            while k < raw_chars.len()
                invariant
                    k <= raw_chars@.len(),
                    raw_chars@ == query.raw@,
                    src@ == (if query.case_sensitive {
                        seq![]
                    } else {
                        seq!['(', '?', 'i', ')']
                    }) + raw_chars@.take(k as int),
                decreases raw_chars@.len() - k,
            {
                src.push(raw_chars[k]);
                k += 1;
                assert(src@ =~= (if query.case_sensitive {
                    seq![]
                } else {
                    seq!['(', '?', 'i', ')']
                }) + raw_chars@.take(k as int));
            }
            assert(raw_chars@.take(raw_chars@.len() as int) =~= raw_chars@);
            assert(src@ =~= regex_source(query@));
            let source = string_from_chars(src.as_slice());
            match compile_regex(source.as_str()) {
                Some(m) => {
                    return SearchPlan::Regex(m);
                },
                None => {},
            }
        }
        let folded = if query.case_sensitive {
            query.raw.clone()
        } else {
            to_lowercase(query.raw.as_str())
        };
        let wild = has_char(raw_chars.as_slice(), '*') || has_char(raw_chars.as_slice(), '?');
        if query.is_wildcard || wild {
            match compile_glob(folded.as_str()) {
                Some(m) => {
                    return SearchPlan::Glob(m);
                },
                None => {},
            }
        }
        let folded_chars = chars_of(folded.as_str());
        let terms = split_chars(folded_chars.as_slice(), SplitMode::Whitespace);
        SearchPlan::Terms(terms)
    }

    /// Runs `query` over `entries`.
    pub fn execute(entries: &[FileEntry], query: &SearchQuery) -> (res: SearchResult)
        ensures
            search_result_allowed(entry_views(entries@), query@, entry_views(res.entries@)),
            res.total_scanned == entries@.len(),
    {
        let start = clock_now();
        let plan = SearchEngine::plan(query);
        let found = match plan {
            SearchPlan::ListAll => first_entries(entries, query.max_results),
            _ => {
                let raw_chars = chars_of(query.raw.as_str());
                let path_mode = has_char(raw_chars.as_slice(), '/');
                par_take_matching(entries, query, &plan, path_mode)
            },
        };
        SearchResult {
            entries: found,
            elapsed_micros: micros_since(&start),
            total_scanned: entries.len(),
        }
    }

    /// Runs `query` over compact entries, whose directories `dirs` holds; the
    /// entries returned are the rich forms of the compact ones selected.
    pub fn execute_compact(
        entries: &[CompactEntry],
        dirs: &DirectoryStore,
        query: &SearchQuery,
    ) -> (res: SearchResult)
        ensures
            search_result_allowed(
                expanded_entries(entries@, dirs),
                query@,
                entry_views(res.entries@),
            ),
            res.total_scanned == entries@.len(),
    {
        let start = clock_now();
        let plan = SearchEngine::plan(query);
        let found = match plan {
            SearchPlan::ListAll => first_expanded(entries, dirs, query.max_results),
            _ => {
                let raw_chars = chars_of(query.raw.as_str());
                let path_mode = has_char(raw_chars.as_slice(), '/');
                par_take_matching_compact(entries, dirs, query, &plan, path_mode)
            },
        };
        SearchResult {
            entries: found,
            elapsed_micros: micros_since(&start),
            total_scanned: entries.len(),
        }
    }
}


proof fn lemma_select_sound(es: Seq<FileEntryView>, q: SearchQueryView, p: PlanView)
    ensures
        select(es, q, p).len() <= es.len(),
        forall|i: int|
            0 <= i < select(es, q, p).len() ==> es.contains(#[trigger] select(es, q, p)[i])
                && entry_selected(select(es, q, p)[i], q, p),
    decreases es.len(),
{
    if es.len() > 0 {
        let d = es.drop_last();
        lemma_select_sound(d, q, p);
        let r = select(es, q, p);
        let rd = select(d, q, p);
        assert forall|i: int| 0 <= i < r.len() implies es.contains(#[trigger] r[i])
            && entry_selected(r[i], q, p) by {
            if i < rd.len() {
                assert(r[i] == rd[i]);
                assert(d.contains(rd[i]));
                let j = choose|j: int| 0 <= j < d.len() && d[j] == rd[i];
                assert(es[j] == d[j]);
            } else {
                assert(r[i] == es.last());
                assert(es[es.len() - 1] == es.last());
            }
        }
    }
}

proof fn lemma_select_all(es: Seq<FileEntryView>, q: SearchQueryView)
    ensures
        select(es, q, PlanView::ListAll) == es,
    decreases es.len(),
{
    if es.len() > 0 {
        lemma_select_all(es.drop_last(), q);
        assert(es.drop_last().push(es.last()) =~= es);
    }
}

proof fn lemma_subseq_contains<A>(r: Seq<A>, s: Seq<A>)
    requires
        is_subseq(r, s),
    ensures
        r.len() <= s.len(),
        forall|i: int| 0 <= i < r.len() ==> s.contains(#[trigger] r[i]),
    decreases s.len(),
{
    if r.len() > 0 && s.len() > 0 {
        let sd = s.drop_last();
        if r.last() == s.last() && is_subseq(r.drop_last(), sd) {
            lemma_subseq_contains(r.drop_last(), sd);
            assert forall|i: int| 0 <= i < r.len() implies s.contains(#[trigger] r[i]) by {
                if i < r.len() - 1 {
                    assert(r[i] == r.drop_last()[i]);
                    assert(sd.contains(r.drop_last()[i]));
                    let j = choose|j: int| 0 <= j < sd.len() && sd[j] == r.drop_last()[i];
                    assert(s[j] == sd[j]);
                } else {
                    assert(s[s.len() - 1] == r[i]);
                }
            }
        } else {
            lemma_subseq_contains(r, sd);
            assert forall|i: int| 0 <= i < r.len() implies s.contains(#[trigger] r[i]) by {
                assert(sd.contains(r[i]));
                let j = choose|j: int| 0 <= j < sd.len() && sd[j] == r[i];
                assert(s[j] == sd[j]);
            }
        }
    }
}

proof fn lemma_subseq_full<A>(r: Seq<A>, s: Seq<A>)
    requires
        is_subseq(r, s),
        r.len() == s.len(),
    ensures
        r == s,
    decreases s.len(),
{
    if s.len() > 0 {
        let sd = s.drop_last();
        if is_subseq(r, sd) {
            lemma_subseq_contains(r, sd);
        } else {
            lemma_subseq_full(r.drop_last(), sd);
            assert(r =~= r.drop_last().push(r.last()));
            assert(s =~= sd.push(s.last()));
        }
    } else {
        assert(r =~= s);
    }
}

proof fn lemma_subseq_refl<A>(s: Seq<A>)
    ensures
        is_subseq(s, s),
    decreases s.len(),
{
    if s.len() > 0 {
        lemma_subseq_refl(s.drop_last());
    }
}

proof fn lemma_take_subseq<A>(s: Seq<A>, k: int)
    requires
        0 <= k <= s.len(),
    ensures
        is_subseq(s.take(k), s),
    decreases s.len(),
{
    if k == s.len() {
        assert(s.take(k) =~= s);
        lemma_subseq_refl(s);
    } else {
        lemma_take_subseq(s.drop_last(), k);
        assert(s.drop_last().take(k) =~= s.take(k));
        if s.take(k).len() > 0 {
            assert(is_subseq(s.take(k), s.drop_last()));
        }
    }
}

/// What a search returns: `max_results` of the entries that the query
/// selects, or all of them when fewer are selected (exactly those, in order);
/// each result is one of the searched entries and passes the query's kind and
/// category filters; an empty query without filters returns the first
/// `max_results` entries.
pub proof fn law_search_results(es: Seq<FileEntryView>, q: SearchQueryView, r: Seq<FileEntryView>)
    requires
        search_result_allowed(es, q, r),
    ensures
        r.len() <= q.max_results,
        r.len() <= es.len(),
        r.len() == (if select(es, q, plan_of(q)).len() <= q.max_results {
            select(es, q, plan_of(q)).len() as int
        } else {
            q.max_results as int
        }),
        select(es, q, plan_of(q)).len() <= q.max_results ==> r == select(es, q, plan_of(q)),
        forall|i: int|
            0 <= i < r.len() ==> es.contains(#[trigger] r[i]) && passes_filters(
                r[i].name,
                r[i].is_dir,
                q,
            ),
        q.dir_only ==> forall|i: int| 0 <= i < r.len() ==> (#[trigger] r[i]).is_dir,
        q.file_only ==> forall|i: int| 0 <= i < r.len() ==> !(#[trigger] r[i]).is_dir,
        (q.raw.len() == 0 && q.category == FileCategory::All && !q.dir_only && !q.file_only)
            ==> r == cap(es, q.max_results),
{
    let p = plan_of(q);
    lemma_select_sound(es, q, p);
    let s = select(es, q, p);
    if p is ListAll {
        lemma_select_all(es, q);
        if es.len() > q.max_results {
            lemma_take_subseq(es, q.max_results as int);
        } else {
            lemma_subseq_refl(es);
        }
    }
    assert(taken_from(r, s, q.max_results));
    lemma_subseq_contains(r, s);
    if s.len() <= q.max_results {
        lemma_subseq_full(r, s);
    }
    assert forall|i: int| 0 <= i < r.len() implies es.contains(#[trigger] r[i]) && passes_filters(
        r[i].name,
        r[i].is_dir,
        q,
    ) by {
        assert(s.contains(r[i]));
        let j = choose|j: int| 0 <= j < s.len() && s[j] == r[i];
        assert(es.contains(s[j]) && entry_selected(s[j], q, p));
    }
}


/// A number that identifies a short text: its characters (offset by one) as
/// digits in base `0x110001`.
pub open spec fn word_key(w: Seq<char>) -> int
    decreases w.len(),
{
    if w.len() == 0 {
        0
    } else {
        word_key(w.drop_last()) * 0x110001 + (w.last() as int) + 1
    }
}

proof fn lemma_document_keys(x: Seq<char>)
    requires
        views_of(DOCUMENT_EXTENSIONS@).contains(x),
    ensures
        word_key(x) == 140261111300413 || word_key(x) == 125366150234425 || word_key(x) == 139672057736125940146 || word_key(x) == 145226124689763 || word_key(x) == 122552531 || word_key(x) == 139019863523658 || word_key(x) == 142743624679759 || word_key(x) == 141054949261713211824 || word_key(x) == 124124906914127 || word_key(x) == 167329859698789253587 || word_key(x) == 156266742389225947600 || word_key(x) == 139019863523657 || word_key(x) == 135296132448581,
{
    reveal_strlit("csv");
    reveal_strlit("doc");
    reveal_strlit("docx");
    reveal_strlit("epub");
    reveal_strlit("log");
    reveal_strlit("md");
    reveal_strlit("ods");
    reveal_strlit("odt");
    reveal_strlit("pdf");
    reveal_strlit("pptx");
    reveal_strlit("rtf");
    reveal_strlit("txt");
    reveal_strlit("xlsx");
    reveal_with_fuel(word_key, 6);
    let i = choose|i: int| 0 <= i < views_of(DOCUMENT_EXTENSIONS@).len() && views_of(DOCUMENT_EXTENSIONS@)[i] == x;
    assert(x == DOCUMENT_EXTENSIONS@[i]@);
    assert(word_key(DOCUMENT_EXTENSIONS@[0]@) == 140261111300413);
    assert(word_key(DOCUMENT_EXTENSIONS@[1]@) == 125366150234425);
    assert(word_key(DOCUMENT_EXTENSIONS@[2]@) == 139672057736125940146);
    assert(word_key(DOCUMENT_EXTENSIONS@[3]@) == 145226124689763);
    assert(word_key(DOCUMENT_EXTENSIONS@[4]@) == 122552531);
    assert(word_key(DOCUMENT_EXTENSIONS@[5]@) == 139019863523658);
    assert(word_key(DOCUMENT_EXTENSIONS@[6]@) == 142743624679759);
    assert(word_key(DOCUMENT_EXTENSIONS@[7]@) == 141054949261713211824);
    assert(word_key(DOCUMENT_EXTENSIONS@[8]@) == 124124906914127);
    assert(word_key(DOCUMENT_EXTENSIONS@[9]@) == 167329859698789253587);
    assert(word_key(DOCUMENT_EXTENSIONS@[10]@) == 156266742389225947600);
    assert(word_key(DOCUMENT_EXTENSIONS@[11]@) == 139019863523657);
    assert(word_key(DOCUMENT_EXTENSIONS@[12]@) == 135296132448581);
    assert(i == 0 || i == 1 || i == 2 || i == 3 || i == 4 || i == 5 || i == 6 || i == 7 || i == 8 || i == 9 || i == 10 || i == 11 || i == 12);
}

proof fn lemma_image_keys(x: Seq<char>)
    requires
        views_of(IMAGE_EXTENSIONS@).contains(x),
    ensures
        word_key(x) == 140261122441544 || word_key(x) == 132813638009156 || word_key(x) == 147969400683292590506 || word_key(x) == 143984874684755 || word_key(x) == 129089886880057 || word_key(x) == 165946960725716435378 || word_key(x) == 122883652452674 || word_key(x) == 131572375748926 || word_key(x) == 161798294837753676205 || word_key(x) == 142743603511629 || word_key(x) == 145203606460932620701,
{
    reveal_strlit("bmp");
    reveal_strlit("gif");
    reveal_strlit("heic");
    reveal_strlit("ico");
    reveal_strlit("jpeg");
    reveal_strlit("jpg");
    reveal_strlit("png");
    reveal_strlit("raw");
    reveal_strlit("svg");
    reveal_strlit("tiff");
    reveal_strlit("webp");
    reveal_with_fuel(word_key, 6);
    let i = choose|i: int| 0 <= i < views_of(IMAGE_EXTENSIONS@).len() && views_of(IMAGE_EXTENSIONS@)[i] == x;
    assert(x == IMAGE_EXTENSIONS@[i]@);
    assert(word_key(IMAGE_EXTENSIONS@[0]@) == 140261122441544);
    assert(word_key(IMAGE_EXTENSIONS@[1]@) == 132813638009156);
    assert(word_key(IMAGE_EXTENSIONS@[2]@) == 147969400683292590506);
    assert(word_key(IMAGE_EXTENSIONS@[3]@) == 143984874684755);
    assert(word_key(IMAGE_EXTENSIONS@[4]@) == 129089886880057);
    assert(word_key(IMAGE_EXTENSIONS@[5]@) == 165946960725716435378);
    assert(word_key(IMAGE_EXTENSIONS@[6]@) == 122883652452674);
    assert(word_key(IMAGE_EXTENSIONS@[7]@) == 131572375748926);
    assert(word_key(IMAGE_EXTENSIONS@[8]@) == 161798294837753676205);
    assert(word_key(IMAGE_EXTENSIONS@[9]@) == 142743603511629);
    assert(word_key(IMAGE_EXTENSIONS@[10]@) == 145203606460932620701);
    assert(i == 0 || i == 1 || i == 2 || i == 3 || i == 4 || i == 5 || i == 6 || i == 7 || i == 8 || i == 9 || i == 10);
}

proof fn lemma_audio_keys(x: Seq<char>)
    requires
        views_of(AUDIO_EXTENSIONS@).contains(x),
    ensures
        word_key(x) == 136537381339411 || word_key(x) == 148949842395473 || word_key(x) == 142437834581019263386 || word_key(x) == 139019866865984 || word_key(x) == 136537314492677 || word_key(x) == 121642391306536 || word_key(x) == 148949855764808 || word_key(x) == 154883852104907620811,
{
    reveal_strlit("aac");
    reveal_strlit("flac");
    reveal_strlit("m4a");
    reveal_strlit("mp3");
    reveal_strlit("ogg");
    reveal_strlit("opus");
    reveal_strlit("wav");
    reveal_strlit("wma");
    reveal_with_fuel(word_key, 6);
    let i = choose|i: int| 0 <= i < views_of(AUDIO_EXTENSIONS@).len() && views_of(AUDIO_EXTENSIONS@)[i] == x;
    assert(x == AUDIO_EXTENSIONS@[i]@);
    assert(word_key(AUDIO_EXTENSIONS@[0]@) == 136537381339411);
    assert(word_key(AUDIO_EXTENSIONS@[1]@) == 148949842395473);
    assert(word_key(AUDIO_EXTENSIONS@[2]@) == 142437834581019263386);
    assert(word_key(AUDIO_EXTENSIONS@[3]@) == 139019866865984);
    assert(word_key(AUDIO_EXTENSIONS@[4]@) == 136537314492677);
    assert(word_key(AUDIO_EXTENSIONS@[5]@) == 121642391306536);
    assert(word_key(AUDIO_EXTENSIONS@[6]@) == 148949855764808);
    assert(word_key(AUDIO_EXTENSIONS@[7]@) == 154883852104907620811);
    assert(i == 0 || i == 1 || i == 2 || i == 3 || i == 4 || i == 5 || i == 6 || i == 7);
}

proof fn lemma_video_keys(x: Seq<char>)
    requires
        views_of(VIDEO_EXTENSIONS@).contains(x),
    ensures
        word_key(x) == 136537381339412 || word_key(x) == 136537375768913 || word_key(x) == 165946960725716435375 || word_key(x) == 121642414702915 || word_key(x) == 136537380225365 || word_key(x) == 127848642445643 || word_key(x) == 148949855764829 || word_key(x) == 136537314492698,
{
    reveal_strlit("avi");
    reveal_strlit("flv");
    reveal_strlit("m4v");
    reveal_strlit("mkv");
    reveal_strlit("mov");
    reveal_strlit("mp4");
    reveal_strlit("webm");
    reveal_strlit("wmv");
    reveal_with_fuel(word_key, 6);
    let i = choose|i: int| 0 <= i < views_of(VIDEO_EXTENSIONS@).len() && views_of(VIDEO_EXTENSIONS@)[i] == x;
    assert(x == VIDEO_EXTENSIONS@[i]@);
    assert(word_key(VIDEO_EXTENSIONS@[0]@) == 136537381339412);
    assert(word_key(VIDEO_EXTENSIONS@[1]@) == 136537375768913);
    assert(word_key(VIDEO_EXTENSIONS@[2]@) == 165946960725716435375);
    assert(word_key(VIDEO_EXTENSIONS@[3]@) == 121642414702915);
    assert(word_key(VIDEO_EXTENSIONS@[4]@) == 136537380225365);
    assert(word_key(VIDEO_EXTENSIONS@[5]@) == 127848642445643);
    assert(word_key(VIDEO_EXTENSIONS@[6]@) == 148949855764829);
    assert(word_key(VIDEO_EXTENSIONS@[7]@) == 136537314492698);
    assert(i == 0 || i == 1 || i == 2 || i == 3 || i == 4 || i == 5 || i == 6 || i == 7);
}

proof fn lemma_archive_keys(x: Seq<char>)
    requires
        views_of(ARCHIVE_EXTENSIONS@).contains(x),
    ensures
        word_key(x) == 152673594638678 || word_key(x) == 145226099065162 || word_key(x) == 115867875 || word_key(x) == 62390451 || word_key(x) == 142743603511624 || word_key(x) == 134807796 || word_key(x) == 122883666936081 || word_key(x) == 131572393574734 || word_key(x) == 125366139093294 || word_key(x) == 142743620223314 || word_key(x) == 152673605779812,
{
    reveal_strlit("7z");
    reveal_strlit("bz2");
    reveal_strlit("deb");
    reveal_strlit("gz");
    reveal_strlit("iso");
    reveal_strlit("rar");
    reveal_strlit("rpm");
    reveal_strlit("tar");
    reveal_strlit("xz");
    reveal_strlit("zip");
    reveal_strlit("zst");
    reveal_with_fuel(word_key, 6);
    let i = choose|i: int| 0 <= i < views_of(ARCHIVE_EXTENSIONS@).len() && views_of(ARCHIVE_EXTENSIONS@)[i] == x;
    assert(x == ARCHIVE_EXTENSIONS@[i]@);
    assert(word_key(ARCHIVE_EXTENSIONS@[0]@) == 152673594638678);
    assert(word_key(ARCHIVE_EXTENSIONS@[1]@) == 145226099065162);
    assert(word_key(ARCHIVE_EXTENSIONS@[2]@) == 115867875);
    assert(word_key(ARCHIVE_EXTENSIONS@[3]@) == 62390451);
    assert(word_key(ARCHIVE_EXTENSIONS@[4]@) == 142743603511624);
    assert(word_key(ARCHIVE_EXTENSIONS@[5]@) == 134807796);
    assert(word_key(ARCHIVE_EXTENSIONS@[6]@) == 122883666936081);
    assert(word_key(ARCHIVE_EXTENSIONS@[7]@) == 131572393574734);
    assert(word_key(ARCHIVE_EXTENSIONS@[8]@) == 125366139093294);
    assert(word_key(ARCHIVE_EXTENSIONS@[9]@) == 142743620223314);
    assert(word_key(ARCHIVE_EXTENSIONS@[10]@) == 152673605779812);
    assert(i == 0 || i == 1 || i == 2 || i == 3 || i == 4 || i == 5 || i == 6 || i == 7 || i == 8 || i == 9 || i == 10);
}

proof fn lemma_code_keys(x: Seq<char>)
    requires
        views_of(CODE_EXTENSIONS@).contains(x),
    ensures
        word_key(x) == 128123111 || word_key(x) == 125894891 || word_key(x) == 100 || word_key(x) == 124124903571782 || word_key(x) == 105 || word_key(x) == 130331142455627 || word_key(x) == 119210207 || word_key(x) == 130351337 || word_key(x) == 132813641351512 || word_key(x) == 145226119119202 || word_key(x) == 145203625079653728697 || word_key(x) == 124124906914124 || word_key(x) == 147969404407047061950 || word_key(x) == 161798302285248135616 || word_key(x) == 168712736329376465335 || word_key(x) == 151432351318357 || word_key(x) == 129237213 || word_key(x) == 136906259790036009378 || word_key(x) == 115867864 || word_key(x) == 147969382064594878886 || word_key(x) == 120324321 || word_key(x) == 178720906973707980417204786 || word_key(x) == 143984869114195 || word_key(x) == 150191103541588 || word_key(x) == 140261115756875,
{
    reveal_strlit("bash");
    reveal_strlit("c");
    reveal_strlit("cpp");
    reveal_strlit("css");
    reveal_strlit("go");
    reveal_strlit("h");
    reveal_strlit("hpp");
    reveal_strlit("html");
    reveal_strlit("java");
    reveal_strlit("js");
    reveal_strlit("json");
    reveal_strlit("jsx");
    reveal_strlit("kt");
    reveal_strlit("php");
    reveal_strlit("py");
    reveal_strlit("rs");
    reveal_strlit("sh");
    reveal_strlit("sql");
    reveal_strlit("swift");
    reveal_strlit("toml");
    reveal_strlit("ts");
    reveal_strlit("tsx");
    reveal_strlit("xml");
    reveal_strlit("yaml");
    reveal_strlit("yml");
    reveal_with_fuel(word_key, 6);
    let i = choose|i: int| 0 <= i < views_of(CODE_EXTENSIONS@).len() && views_of(CODE_EXTENSIONS@)[i] == x;
    assert(x == CODE_EXTENSIONS@[i]@);
    assert(word_key(CODE_EXTENSIONS@[0]@) == 128123111);
    assert(word_key(CODE_EXTENSIONS@[1]@) == 125894891);
    assert(word_key(CODE_EXTENSIONS@[2]@) == 100);
    assert(word_key(CODE_EXTENSIONS@[3]@) == 124124903571782);
    assert(word_key(CODE_EXTENSIONS@[4]@) == 105);
    assert(word_key(CODE_EXTENSIONS@[5]@) == 130331142455627);
    assert(word_key(CODE_EXTENSIONS@[6]@) == 119210207);
    assert(word_key(CODE_EXTENSIONS@[7]@) == 130351337);
    assert(word_key(CODE_EXTENSIONS@[8]@) == 132813641351512);
    assert(word_key(CODE_EXTENSIONS@[9]@) == 145226119119202);
    assert(word_key(CODE_EXTENSIONS@[10]@) == 145203625079653728697);
    assert(word_key(CODE_EXTENSIONS@[11]@) == 124124906914124);
    assert(word_key(CODE_EXTENSIONS@[12]@) == 147969404407047061950);
    assert(word_key(CODE_EXTENSIONS@[13]@) == 161798302285248135616);
    assert(word_key(CODE_EXTENSIONS@[14]@) == 168712736329376465335);
    assert(word_key(CODE_EXTENSIONS@[15]@) == 151432351318357);
    assert(word_key(CODE_EXTENSIONS@[16]@) == 129237213);
    assert(word_key(CODE_EXTENSIONS@[17]@) == 136906259790036009378);
    assert(word_key(CODE_EXTENSIONS@[18]@) == 115867864);
    assert(word_key(CODE_EXTENSIONS@[19]@) == 147969382064594878886);
    assert(word_key(CODE_EXTENSIONS@[20]@) == 120324321);
    assert(word_key(CODE_EXTENSIONS@[21]@) == 178720906973707980417204786);
    assert(word_key(CODE_EXTENSIONS@[22]@) == 143984869114195);
    assert(word_key(CODE_EXTENSIONS@[23]@) == 150191103541588);
    assert(word_key(CODE_EXTENSIONS@[24]@) == 140261115756875);
    assert(i == 0 || i == 1 || i == 2 || i == 3 || i == 4 || i == 5 || i == 6 || i == 7 || i == 8 || i == 9 || i == 10 || i == 11 || i == 12 || i == 13 || i == 14 || i == 15 || i == 16 || i == 17 || i == 18 || i == 19 || i == 20 || i == 21 || i == 22 || i == 23 || i == 24);
}

/// The extensions that put a file in a category, under one of the
/// extension-based categories, in its list of keys.
proof fn lemma_category_keys(c: FileCategory, x: Seq<char>)
    requires
        category_extensions(c).contains(x),
    ensures
        c == FileCategory::Documents ==> word_key(x) == 140261111300413 || word_key(x) == 125366150234425 || word_key(x) == 139672057736125940146 || word_key(x) == 145226124689763 || word_key(x) == 122552531 || word_key(x) == 139019863523658 || word_key(x) == 142743624679759 || word_key(x) == 141054949261713211824 || word_key(x) == 124124906914127 || word_key(x) == 167329859698789253587 || word_key(x) == 156266742389225947600 || word_key(x) == 139019863523657 || word_key(x) == 135296132448581,
        c == FileCategory::Images ==> word_key(x) == 140261122441544 || word_key(x) == 132813638009156 || word_key(x) == 147969400683292590506 || word_key(x) == 143984874684755 || word_key(x) == 129089886880057 || word_key(x) == 165946960725716435378 || word_key(x) == 122883652452674 || word_key(x) == 131572375748926 || word_key(x) == 161798294837753676205 || word_key(x) == 142743603511629 || word_key(x) == 145203606460932620701,
        c == FileCategory::Audio ==> word_key(x) == 136537381339411 || word_key(x) == 148949842395473 || word_key(x) == 142437834581019263386 || word_key(x) == 139019866865984 || word_key(x) == 136537314492677 || word_key(x) == 121642391306536 || word_key(x) == 148949855764808 || word_key(x) == 154883852104907620811,
        c == FileCategory::Video ==> word_key(x) == 136537381339412 || word_key(x) == 136537375768913 || word_key(x) == 165946960725716435375 || word_key(x) == 121642414702915 || word_key(x) == 136537380225365 || word_key(x) == 127848642445643 || word_key(x) == 148949855764829 || word_key(x) == 136537314492698,
        c == FileCategory::Archives ==> word_key(x) == 152673594638678 || word_key(x) == 145226099065162 || word_key(x) == 115867875 || word_key(x) == 62390451 || word_key(x) == 142743603511624 || word_key(x) == 134807796 || word_key(x) == 122883666936081 || word_key(x) == 131572393574734 || word_key(x) == 125366139093294 || word_key(x) == 142743620223314 || word_key(x) == 152673605779812,
        c == FileCategory::Code ==> word_key(x) == 128123111 || word_key(x) == 125894891 || word_key(x) == 100 || word_key(x) == 124124903571782 || word_key(x) == 105 || word_key(x) == 130331142455627 || word_key(x) == 119210207 || word_key(x) == 130351337 || word_key(x) == 132813641351512 || word_key(x) == 145226119119202 || word_key(x) == 145203625079653728697 || word_key(x) == 124124906914124 || word_key(x) == 147969404407047061950 || word_key(x) == 161798302285248135616 || word_key(x) == 168712736329376465335 || word_key(x) == 151432351318357 || word_key(x) == 129237213 || word_key(x) == 136906259790036009378 || word_key(x) == 115867864 || word_key(x) == 147969382064594878886 || word_key(x) == 120324321 || word_key(x) == 178720906973707980417204786 || word_key(x) == 143984869114195 || word_key(x) == 150191103541588 || word_key(x) == 140261115756875,
{
    match c {
        FileCategory::Documents => lemma_document_keys(x),
        FileCategory::Images => lemma_image_keys(x),
        FileCategory::Audio => lemma_audio_keys(x),
        FileCategory::Video => lemma_video_keys(x),
        FileCategory::Archives => lemma_archive_keys(x),
        FileCategory::Code => lemma_code_keys(x),
        _ => {},
    }
}

/// The categories other than `All` exclude one another: no entry is in two
/// of them (folders are directories, the others files, and no extension is
/// in two of the lists).
pub proof fn law_categories_exclusive(
    c1: FileCategory,
    c2: FileCategory,
    name: Seq<char>,
    is_dir: bool,
)
    requires
        c1 != FileCategory::All,
        c2 != FileCategory::All,
        category_accepts(c1, name, is_dir),
        category_accepts(c2, name, is_dir),
    ensures
        c1 == c2,
{
    if c1 != FileCategory::Folders && c2 != FileCategory::Folders {
        let x = ascii_lower(extension_or_empty(name));
        lemma_category_keys(c1, x);
        lemma_category_keys(c2, x);
    }
}


/// A regular-expression query is compiled with `(?i)` in front of its text
/// unless it is case-sensitive, and as typed when it is; when that
/// expression does not compile, a query without wildcards falls back to a
/// search for its white-space-separated terms (lower-cased unless
/// case-sensitive).
pub proof fn law_regex_plan(q: SearchQueryView)
    requires
        q.raw.len() > 0,
        q.is_regex,
    ensures
        !q.case_sensitive && regex_compiles(seq!['(', '?', 'i', ')'] + q.raw) ==> plan_of(q)
            == PlanView::Regex(seq!['(', '?', 'i', ')'] + q.raw),
        q.case_sensitive && regex_compiles(q.raw) ==> plan_of(q) == PlanView::Regex(q.raw),
        !regex_compiles(if q.case_sensitive { q.raw } else { seq!['(', '?', 'i', ')'] + q.raw })
            && !q.is_wildcard && !q.raw.contains('*') && !q.raw.contains('?') ==> plan_of(q)
            == PlanView::Terms(
            split_fields(
                if q.case_sensitive {
                    q.raw
                } else {
                    lowercase(q.raw)
                },
                SplitMode::Whitespace,
            ),
        ),
{
}

/// A wildcard query (asked for, or holding `*` or `?`) that is not a regex
/// search is compiled as a glob pattern from its lower-cased text unless it
/// is case-sensitive, and from its text as typed when it is; a pattern that
/// does not compile falls back to a search for the terms of that same text.
pub proof fn law_glob_plan(q: SearchQueryView)
    requires
        q.raw.len() > 0,
        !q.is_regex,
        q.is_wildcard || q.raw.contains('*') || q.raw.contains('?'),
    ensures
        !q.case_sensitive && glob_compiles(lowercase(q.raw)) ==> plan_of(q) == PlanView::Glob(
            lowercase(q.raw),
        ),
        q.case_sensitive && glob_compiles(q.raw) ==> plan_of(q) == PlanView::Glob(q.raw),
        !glob_compiles(if q.case_sensitive { q.raw } else { lowercase(q.raw) }) ==> plan_of(q)
            == PlanView::Terms(
            split_fields(
                if q.case_sensitive {
                    q.raw
                } else {
                    lowercase(q.raw)
                },
                SplitMode::Whitespace,
            ),
        ),
{
}

/// What a query's pattern or terms are matched against: with a `/` in the
/// query, the full path (as it is when case-sensitive, lower-cased
/// otherwise); without one, the name (as it is when case-sensitive, its
/// stored lower-case form otherwise). A regex is matched against the full
/// path or the name as they are. On top of that an entry must pass the
/// kind and category filters.
pub proof fn law_match_targets(
    e: FileEntryView,
    q: SearchQueryView,
    src: Seq<char>,
    ts: Seq<Seq<char>>,
)
    ensures
        ({
            let filters = !(q.dir_only && !e.is_dir) && !(q.file_only && e.is_dir)
                && category_accepts(q.category, e.name, e.is_dir);
            let text = if q.raw.contains('/') {
                if q.case_sensitive {
                    full_path_of(e)
                } else {
                    lowercase(full_path_of(e))
                }
            } else if q.case_sensitive {
                e.name
            } else {
                e.name_lower
            };
            let regex_text = if q.raw.contains('/') {
                full_path_of(e)
            } else {
                e.name
            };
            &&& entry_selected(e, q, PlanView::Glob(src)) <==> filters && glob_matches(src, text)
            &&& entry_selected(e, q, PlanView::Terms(ts)) <==> filters && forall|k: int|
                0 <= k < ts.len() ==> occurs_in(#[trigger] ts[k], text)
            &&& entry_selected(e, q, PlanView::Regex(src)) <==> filters && regex_matches(
                src,
                regex_text,
            )
        }),
{
}

} // verus!

//! The crawler's decisions: which roots and entries are indexed, how deep the
//! walk goes, and when subdirectories are walked in parallel. Reading the
//! file system is left to the caller.
use vstd::prelude::*;
use crate::text::views_of;
use crate::path::{same_path, paths_equal, join, join_path, path_starts_with, law_join_child, components};
use crate::search::entry_views;
use crate::entry::{
    FileEntry, FileEntryView, FileMetadata, entry_for_path, full_path_of, law_entry_full_path,
};
use crate::mounts::string_views;

verus! {

/// Directories that should never be indexed on Linux.
pub const DEFAULT_EXCLUDED_ROOTS: [&'static str; 10] = [
    "/proc",
    "/sys",
    "/dev",
    "/run",
    "/tmp",
    "/var/run",
    "/var/lock",
    "/var/lib/docker",
    "/var/lib/containerd",
    "/.snapshots",
];

/// Walks never go deeper than this, whatever the configuration says.
pub const MAX_CRAWL_DEPTH: usize = 100;

/// Subdirectories of directories shallower than this are walked in parallel.
pub const PARALLEL_DEPTH: usize = 6;

#[derive(Debug, Clone)]
pub struct CrawlerConfig {
    /// Paths that are never indexed (compared as paths, component by component).
    pub excluded_paths: Vec<String>,
    pub follow_symlinks: bool,
    pub max_depth: Option<usize>,
}

impl Default for CrawlerConfig {
    fn default() -> (res: Self)
        ensures
            string_views(res.excluded_paths@) == views_of(DEFAULT_EXCLUDED_ROOTS@),
            !res.follow_symlinks,
            res.max_depth is None,
    {
        let mut excluded_paths: Vec<String> = Vec::new();
        let mut i: usize = 0;
        while i < DEFAULT_EXCLUDED_ROOTS.len()
            invariant
                i <= DEFAULT_EXCLUDED_ROOTS@.len(),
                string_views(excluded_paths@) == views_of(DEFAULT_EXCLUDED_ROOTS@).take(i as int),
            decreases DEFAULT_EXCLUDED_ROOTS@.len() - i,
        {
            let ghost before = string_views(excluded_paths@);
            excluded_paths.push(DEFAULT_EXCLUDED_ROOTS[i].to_owned());
            assert(string_views(excluded_paths@) =~= before.push(DEFAULT_EXCLUDED_ROOTS@[i as int]@));
            assert(views_of(DEFAULT_EXCLUDED_ROOTS@).take(i + 1) =~= views_of(
                DEFAULT_EXCLUDED_ROOTS@,
            ).take(i as int).push(DEFAULT_EXCLUDED_ROOTS@[i as int]@));
            i += 1;
        }
        assert(views_of(DEFAULT_EXCLUDED_ROOTS@).take(10) =~= views_of(DEFAULT_EXCLUDED_ROOTS@));
        CrawlerConfig { excluded_paths, follow_symlinks: false, max_depth: None }
    }
}

pub struct CrawlStats {
    pub total_files: usize,
    pub total_dirs: usize,
    pub elapsed_ms: u128,
}

/// `path` is one of the excluded paths.
pub open spec fn excluded_by(excluded: Seq<Seq<char>>, path: Seq<char>) -> bool {
    exists|i: int| 0 <= i < excluded.len() && same_path(#[trigger] excluded[i], path)
}

/// A walk may enter a directory at `depth`: not beyond the ceiling, nor
/// beyond the configured maximum.
pub open spec fn depth_within(max_depth: Option<usize>, depth: usize) -> bool {
    depth <= MAX_CRAWL_DEPTH && match max_depth {
        Some(m) => depth <= m,
        None => true,
    }
}

/// What the walk does with one directory entry.
pub enum VisitView {
    Skip,
    File(FileEntryView),
    Dir(FileEntryView),
}

pub enum CrawlVisit {
    /// Not indexed.
    Skip,
    /// Indexed as a file.
    File(FileEntry),
    /// Indexed, and walked into.
    Dir(FileEntry),
}

impl View for CrawlVisit {
    type V = VisitView;

    open spec fn view(&self) -> VisitView {
        match self {
            CrawlVisit::Skip => VisitView::Skip,
            CrawlVisit::File(e) => VisitView::File(e@),
            CrawlVisit::Dir(e) => VisitView::Dir(e@),
        }
    }
}

/// The decision for a directory entry: excluded paths, and symlinks unless
/// they are followed, are skipped, as are paths without a file name; other
/// entries are indexed, directories to be walked into.
pub open spec fn visit_outcome(
    excluded: Seq<Seq<char>>,
    follow_symlinks: bool,
    path: Seq<char>,
    is_symlink: bool,
    is_dir: bool,
    m: FileMetadata,
) -> VisitView {
    if excluded_by(excluded, path) || (is_symlink && !follow_symlinks) {
        VisitView::Skip
    } else {
        match entry_for_path(path, m) {
            None => VisitView::Skip,
            Some(e) => if is_dir {
                VisitView::Dir(e)
            } else {
                VisitView::File(e)
            },
        }
    }
}

/// One entry of a directory listing: its name and what the file system
/// reports of it.
pub struct ChildEntry {
    pub name: String,
    pub is_symlink: bool,
    pub is_dir: bool,
    pub metadata: FileMetadata,
}

pub struct ChildView {
    pub name: Seq<char>,
    pub is_symlink: bool,
    pub is_dir: bool,
    pub metadata: FileMetadata,
}

impl View for ChildEntry {
    type V = ChildView;

    open spec fn view(&self) -> ChildView {
        ChildView {
            name: self.name@,
            is_symlink: self.is_symlink,
            is_dir: self.is_dir,
            metadata: self.metadata,
        }
    }
}

pub open spec fn child_views(cs: Seq<ChildEntry>) -> Seq<ChildView> {
    cs.map_values(|c: ChildEntry| c@)
}

/// What the walk makes of one directory at `depth`, listed as `cs`: nothing
/// when the depth is not allowed; otherwise the entries indexed from the
/// listing, in order, and the paths of the subdirectories to walk into.
pub open spec fn dir_step(
    excluded: Seq<Seq<char>>,
    follow_symlinks: bool,
    max_depth: Option<usize>,
    dir: Seq<char>,
    depth: usize,
    cs: Seq<ChildView>,
) -> (Seq<FileEntryView>, Seq<Seq<char>>)
    decreases cs.len(),
{
    if !depth_within(max_depth, depth) || cs.len() == 0 {
        (seq![], seq![])
    } else {
        let (es, ds) = dir_step(excluded, follow_symlinks, max_depth, dir, depth, cs.drop_last());
        let c = cs.last();
        let p = join_path(dir, c.name);
        match visit_outcome(excluded, follow_symlinks, p, c.is_symlink, c.is_dir, c.metadata) {
            VisitView::Skip => (es, ds),
            VisitView::File(e) => (es.push(e), ds),
            VisitView::Dir(e) => (es.push(e), ds.push(p)),
        }
    }
}

/// The outcome of walking one directory.
pub struct DirStep {
    /// The entries indexed from the listing.
    pub entries: Vec<FileEntry>,
    /// The subdirectories to walk, at the next depth.
    pub subdirs: Vec<String>,
    /// Whether those subdirectories are walked in parallel.
    pub parallel: bool,
}

pub struct Crawler {
    config: CrawlerConfig,
}

impl Crawler {
    /// The excluded paths of the configuration.
    pub closed spec fn excluded(&self) -> Seq<Seq<char>> {
        string_views(self.config.excluded_paths@)
    }

    pub closed spec fn follows_symlinks(&self) -> bool {
        self.config.follow_symlinks
    }

    pub closed spec fn max_depth(&self) -> Option<usize> {
        self.config.max_depth
    }

    pub fn new(config: CrawlerConfig) -> (res: Self)
        ensures
            res.excluded() == string_views(config.excluded_paths@),
            res.follows_symlinks() == config.follow_symlinks,
            res.max_depth() == config.max_depth,
    {
        Crawler { config }
    }

    pub fn config(&self) -> (res: &CrawlerConfig)
        ensures
            string_views(res.excluded_paths@) == self.excluded(),
            res.follow_symlinks == self.follows_symlinks(),
            res.max_depth == self.max_depth(),
    {
        &self.config
    }

    /// Whether `path` is one of the excluded paths.
    pub fn is_excluded(&self, path: &str) -> (res: bool)
        ensures
            res == excluded_by(self.excluded(), path@),
    {
        let ex = &self.config.excluded_paths;
        let mut i: usize = 0;
        while i < ex.len()
            invariant
                i <= ex@.len(),
                ex == &self.config.excluded_paths,
                forall|j: int| 0 <= j < i ==> !same_path(#[trigger] string_views(ex@)[j], path@),
            decreases ex@.len() - i,
        {
            if paths_equal(ex[i].as_str(), path) {
                assert(same_path(string_views(ex@)[i as int], path@));
                return true;
            }
            i += 1;
        }
        false
    }

    /// Whether a root is walked: it exists and is not excluded.
    pub fn crawls_root(&self, root: &str, exists: bool) -> (res: bool)
        ensures
            res == (exists && !excluded_by(self.excluded(), root@)),
    {
        exists && !self.is_excluded(root)
    }

    /// Whether a directory at `depth` is walked.
    pub fn depth_allowed(&self, depth: usize) -> (res: bool)
        ensures
            res == depth_within(self.max_depth(), depth),
    {
        if depth > MAX_CRAWL_DEPTH {
            return false;
        }
        match self.config.max_depth {
            Some(m) => depth <= m,
            None => true,
        }
    }

    /// What the walk does with the directory entry at `path`.
    pub fn visit(
        &self,
        path: &str,
        is_symlink: bool,
        is_dir: bool,
        metadata: &FileMetadata,
    ) -> (res: CrawlVisit)
        ensures
            res@ == visit_outcome(
                self.excluded(),
                self.follows_symlinks(),
                path@,
                is_symlink,
                is_dir,
                *metadata,
            ),
    {
        if self.is_excluded(path) {
            return CrawlVisit::Skip;
        }
        if is_symlink && !self.config.follow_symlinks {
            return CrawlVisit::Skip;
        }
        match FileEntry::new(path, metadata) {
            None => CrawlVisit::Skip,
            Some(e) => if is_dir {
                CrawlVisit::Dir(e)
            } else {
                CrawlVisit::File(e)
            },
        }
    }

    /// Walks one directory at `depth` whose listing is `children`: what is
    /// indexed, and which subdirectories to walk next.
    pub fn walk_dir(&self, dir: &str, depth: usize, children: &[ChildEntry]) -> (res: DirStep)
        ensures
            (entry_views(res.entries@), string_views(res.subdirs@)) == dir_step(
                self.excluded(),
                self.follows_symlinks(),
                self.max_depth(),
                dir@,
                depth,
                child_views(children@),
            ),
            res.parallel == (depth < PARALLEL_DEPTH && res.subdirs@.len() > 1),
            res.subdirs@.len() <= res.entries@.len(),
    {
        let mut entries: Vec<FileEntry> = Vec::new();
        let mut subdirs: Vec<String> = Vec::new();
        let ghost cs = child_views(children@);
        if !self.depth_allowed(depth) {
            let ghost r = dir_step(self.excluded(), self.follows_symlinks(), self.max_depth(), dir@, depth, cs);
            assert(entry_views(entries@) =~= r.0);
            assert(string_views(subdirs@) =~= r.1);
            return DirStep { entries, subdirs, parallel: false };
        }
        let mut i: usize = 0;
        while i < children.len()
            invariant
                i <= children@.len(),
                cs == child_views(children@),
                depth_within(self.max_depth(), depth),
                (entry_views(entries@), string_views(subdirs@)) == dir_step(
                    self.excluded(),
                    self.follows_symlinks(),
                    self.max_depth(),
                    dir@,
                    depth,
                    cs.take(i as int),
                ),
            decreases children@.len() - i,
        {
            let c = &children[i];
            assert(cs.take(i + 1).drop_last() =~= cs.take(i as int));
            assert(cs.take(i + 1).last() == c@);
            let path = join(dir, c.name.as_str());
            let ghost ev = entry_views(entries@);
            let ghost dv = string_views(subdirs@);
            match self.visit(path.as_str(), c.is_symlink, c.is_dir, &c.metadata) {
                CrawlVisit::Skip => {},
                CrawlVisit::File(e) => {
                    let ghost v = e@;
                    entries.push(e);
                    assert(entry_views(entries@) =~= ev.push(v));
                },
                CrawlVisit::Dir(e) => {
                    let ghost v = e@;
                    let ghost pv = path@;
                    entries.push(e);
                    subdirs.push(path);
                    assert(entry_views(entries@) =~= ev.push(v));
                    assert(string_views(subdirs@) =~= dv.push(pv));
                },
            }
            i += 1;
        }
        assert(cs.take(children@.len() as int) =~= cs);
        proof {
            law_walk_counts(self.excluded(), self.follows_symlinks(), self.max_depth(), dir@, depth, cs);
        }
        let parallel = Crawler::parallel_subdirs(depth, subdirs.len());
        DirStep { entries, subdirs, parallel }
    }

    /// Whether the subdirectories of a directory at `depth` are walked in
    /// parallel: shallow directories with more than one subdirectory.
    pub fn parallel_subdirs(depth: usize, subdirs: usize) -> (res: bool)
        ensures
            res == (depth < PARALLEL_DEPTH && subdirs > 1),
    {
        depth < PARALLEL_DEPTH && subdirs > 1
    }
}


/// What a walk indexes lies where it was found and never at an excluded
/// path, and only directories are walked into.
pub proof fn law_visit_indexes_found_paths(
    excluded: Seq<Seq<char>>,
    follow_symlinks: bool,
    path: Seq<char>,
    is_symlink: bool,
    is_dir: bool,
    m: FileMetadata,
)
    ensures
        match visit_outcome(excluded, follow_symlinks, path, is_symlink, is_dir, m) {
            VisitView::Skip => true,
            VisitView::File(e) => !is_dir && same_path(full_path_of(e), path) && !excluded_by(
                excluded,
                full_path_of(e),
            ) && (follow_symlinks || !is_symlink),
            VisitView::Dir(e) => is_dir && same_path(full_path_of(e), path) && !excluded_by(
                excluded,
                full_path_of(e),
            ) && (follow_symlinks || !is_symlink),
        },
{
    law_entry_full_path(path, m);
    if let Some(e) = entry_for_path(path, m) {
        if excluded_by(excluded, full_path_of(e)) {
            let i = choose|i: int|
                0 <= i < excluded.len() && same_path(#[trigger] excluded[i], full_path_of(e));
            assert(same_path(excluded[i], path));
        }
    }
}


/// A walk stays within its root: when the directory walked lies under
/// `root` and its listing holds names (non-empty, without `/`, other than
/// `.`), every entry indexed and every subdirectory to walk next lies under
/// `root` and is not excluded, and entries are only indexed at an allowed
/// depth. Applied at each directory from the root down, every indexed entry
/// lies under a crawled root, within depth, and never at an excluded path.
pub proof fn law_walk_stays_under_root(
    excluded: Seq<Seq<char>>,
    follow_symlinks: bool,
    max_depth: Option<usize>,
    root: Seq<char>,
    dir: Seq<char>,
    depth: usize,
    cs: Seq<ChildView>,
)
    requires
        path_starts_with(dir, root),
        forall|k: int|
            0 <= k < cs.len() ==> (#[trigger] cs[k]).name.len() > 0 && !cs[k].name.contains('/')
                && cs[k].name != seq!['.'],
    ensures
        ({
            let (es, ds) = dir_step(excluded, follow_symlinks, max_depth, dir, depth, cs);
            &&& forall|i: int|
                0 <= i < es.len() ==> path_starts_with(#[trigger] full_path_of(es[i]), root)
                    && !excluded_by(excluded, full_path_of(es[i])) && depth_within(max_depth, depth)
            &&& forall|i: int|
                0 <= i < ds.len() ==> path_starts_with(#[trigger] ds[i], root) && !excluded_by(
                    excluded,
                    ds[i],
                )
        }),
    decreases cs.len(),
{
    if depth_within(max_depth, depth) && cs.len() > 0 {
        let d = cs.drop_last();
        assert forall|k: int| 0 <= k < d.len() implies (#[trigger] d[k]).name.len() > 0
            && !d[k].name.contains('/') && d[k].name != seq!['.'] by {
            assert(d[k] == cs[k]);
        }
        law_walk_stays_under_root(excluded, follow_symlinks, max_depth, root, dir, depth, d);
        let c = cs.last();
        assert(cs[cs.len() - 1] == c);
        let p = join_path(dir, c.name);
        law_join_child(dir, c.name);
        let cr = components(root);
        assert(components(p).take(cr.len() as int) =~= components(dir).take(cr.len() as int));
        assert(path_starts_with(p, root));
        law_visit_indexes_found_paths(excluded, follow_symlinks, p, c.is_symlink, c.is_dir, c.metadata);
        let (es0, ds0) = dir_step(excluded, follow_symlinks, max_depth, dir, depth, d);
        let (es, ds) = dir_step(excluded, follow_symlinks, max_depth, dir, depth, cs);
        match visit_outcome(excluded, follow_symlinks, p, c.is_symlink, c.is_dir, c.metadata) {
            VisitView::Skip => {},
            VisitView::File(e) => {
                assert(es[es.len() - 1] == e);
                assert(path_starts_with(full_path_of(e), root));
                assert forall|i: int| 0 <= i < es.len() implies path_starts_with(
                    #[trigger] full_path_of(es[i]),
                    root,
                ) && !excluded_by(excluded, full_path_of(es[i])) && depth_within(max_depth, depth) by {
                    if i < es0.len() {
                        assert(es[i] == es0[i]);
                    }
                }
            },
            VisitView::Dir(e) => {
                assert(es[es.len() - 1] == e);
                assert(path_starts_with(full_path_of(e), root));
                assert(!excluded_by(excluded, p)) by {
                    if excluded_by(excluded, p) {
                        let k = choose|k: int| 0 <= k < excluded.len() && same_path(#[trigger] excluded[k], p);
                        assert(same_path(excluded[k], full_path_of(e)));
                    }
                }
                assert forall|i: int| 0 <= i < es.len() implies path_starts_with(
                    #[trigger] full_path_of(es[i]),
                    root,
                ) && !excluded_by(excluded, full_path_of(es[i])) && depth_within(max_depth, depth) by {
                    if i < es0.len() {
                        assert(es[i] == es0[i]);
                    }
                }
                assert forall|i: int| 0 <= i < ds.len() implies path_starts_with(#[trigger] ds[i], root)
                    && !excluded_by(excluded, ds[i]) by {
                    if i < ds0.len() {
                        assert(ds[i] == ds0[i]);
                    }
                }
            },
        }
    }
}


/// How many children of a listing the walk indexes as files and as
/// directories (none when the depth is not allowed).
pub open spec fn visit_counts(
    excluded: Seq<Seq<char>>,
    follow_symlinks: bool,
    max_depth: Option<usize>,
    dir: Seq<char>,
    depth: usize,
    cs: Seq<ChildView>,
) -> (nat, nat)
    decreases cs.len(),
{
    if !depth_within(max_depth, depth) || cs.len() == 0 {
        (0, 0)
    } else {
        let (f, d) = visit_counts(excluded, follow_symlinks, max_depth, dir, depth, cs.drop_last());
        let c = cs.last();
        match visit_outcome(
            excluded,
            follow_symlinks,
            join_path(dir, c.name),
            c.is_symlink,
            c.is_dir,
            c.metadata,
        ) {
            VisitView::Skip => (f, d),
            VisitView::File(_) => (f + 1, d),
            VisitView::Dir(_) => (f, d + 1),
        }
    }
}

/// The counts of one directory's walk: one subdirectory to walk per child
/// indexed as a directory, and one entry per child indexed either way, so
/// the entries are the files plus the subdirectories.
pub proof fn law_walk_counts(
    excluded: Seq<Seq<char>>,
    follow_symlinks: bool,
    max_depth: Option<usize>,
    dir: Seq<char>,
    depth: usize,
    cs: Seq<ChildView>,
)
    ensures
        ({
            let (es, ds) = dir_step(excluded, follow_symlinks, max_depth, dir, depth, cs);
            let (f, d) = visit_counts(excluded, follow_symlinks, max_depth, dir, depth, cs);
            &&& ds.len() == d
            &&& es.len() == f + d
        }),
    decreases cs.len(),
{
    if depth_within(max_depth, depth) && cs.len() > 0 {
        law_walk_counts(excluded, follow_symlinks, max_depth, dir, depth, cs.drop_last());
    }
}


/// The walk indexes every directory entry it may: an entry whose path is
/// none of the excluded paths (compared component by component, so a path
/// under an excluded one, or one above it, is not excluded), that is not a
/// symlink left unfollowed, and whose path has a file name, is indexed, as a
/// directory to walk into exactly when it is one; excluded paths and
/// unfollowed symlinks are skipped.
pub proof fn law_visit_indexes_unexcluded(
    excluded: Seq<Seq<char>>,
    follow_symlinks: bool,
    path: Seq<char>,
    is_symlink: bool,
    is_dir: bool,
    m: FileMetadata,
)
    ensures
        (forall|i: int| 0 <= i < excluded.len() ==> components(#[trigger] excluded[i]) != components(path))
            && (follow_symlinks || !is_symlink) && entry_for_path(path, m) is Some ==> visit_outcome(
            excluded,
            follow_symlinks,
            path,
            is_symlink,
            is_dir,
            m,
        ) == if is_dir {
            VisitView::Dir(entry_for_path(path, m)->0)
        } else {
            VisitView::File(entry_for_path(path, m)->0)
        },
        (exists|i: int| 0 <= i < excluded.len() && components(#[trigger] excluded[i]) == components(path))
            || (is_symlink && !follow_symlinks) ==> visit_outcome(
            excluded,
            follow_symlinks,
            path,
            is_symlink,
            is_dir,
            m,
        ) == VisitView::Skip,
{
    if forall|i: int| 0 <= i < excluded.len() ==> components(#[trigger] excluded[i]) != components(path) {
        assert(!excluded_by(excluded, path)) by {
            if excluded_by(excluded, path) {
                let i = choose|i: int| 0 <= i < excluded.len() && same_path(#[trigger] excluded[i], path);
                assert(components(excluded[i]) != components(path));
            }
        }
    }
    if exists|i: int| 0 <= i < excluded.len() && components(#[trigger] excluded[i]) == components(path) {
        let i = choose|i: int| 0 <= i < excluded.len() && components(#[trigger] excluded[i]) == components(path);
        assert(same_path(excluded[i], path));
    }
}

} // verus!

//! The in-memory index: a list of entries kept free of duplicate paths by
//! upserts, with removal by path and search.
use vstd::prelude::*;
use vstd::hash_set::StringHashSet;
use crate::path::{same_path, path_key, canonical_path, lemma_path_key_identifies};
use crate::entry::{
    FileEntry, FileEntryView, FileMetadata, entry_for_path, full_path_of, law_entry_full_path,
};
use crate::search::{SearchEngine, SearchQuery, SearchResult, entry_views, search_result_allowed};
use crate::crawler::CrawlerConfig;

verus! {

broadcast use vstd::hash_set::group_hash_set_axioms;

/// Entry `i` is the first whose full path is the path `p`.
pub open spec fn is_first_at(es: Seq<FileEntryView>, p: Seq<char>, i: int) -> bool {
    &&& 0 <= i < es.len()
    &&& same_path(full_path_of(es[i]), p)
    &&& forall|j: int| 0 <= j < i ==> !same_path(#[trigger] full_path_of(es[j]), p)
}

/// Inserts `e`, or replaces the first entry at the same path with it.
pub open spec fn upsert_entry(es: Seq<FileEntryView>, e: FileEntryView) -> Seq<FileEntryView> {
    let p = full_path_of(e);
    if exists|i: int| is_first_at(es, p, i) {
        es.update(choose|i: int| is_first_at(es, p, i), e)
    } else {
        es.push(e)
    }
}

/// Upserts the entry built for `path` from `m`, if the path has one.
pub open spec fn upsert_at_path(es: Seq<FileEntryView>, path: Seq<char>, m: FileMetadata) -> Seq<
    FileEntryView,
> {
    match entry_for_path(path, m) {
        Some(e) => upsert_entry(es, e),
        None => es,
    }
}

/// Upserts each item in turn.
pub open spec fn upsert_batch(es: Seq<FileEntryView>, items: Seq<(Seq<char>, FileMetadata)>) -> Seq<
    FileEntryView,
>
    decreases items.len(),
{
    if items.len() == 0 {
        es
    } else {
        let prev = upsert_batch(es, items.drop_last());
        upsert_at_path(prev, items.last().0, items.last().1)
    }
}

/// The entries whose full path is not the path `p`, in order.
pub open spec fn without_path(es: Seq<FileEntryView>, p: Seq<char>) -> Seq<FileEntryView>
    decreases es.len(),
{
    if es.len() == 0 {
        seq![]
    } else {
        let prev = without_path(es.drop_last(), p);
        if same_path(full_path_of(es.last()), p) {
            prev
        } else {
            prev.push(es.last())
        }
    }
}

/// The full path of `e` is one of the paths `ps`.
pub open spec fn at_one_of(e: FileEntryView, ps: Seq<Seq<char>>) -> bool {
    exists|k: int| 0 <= k < ps.len() && same_path(full_path_of(e), #[trigger] ps[k])
}

/// The entries whose full path is none of the paths `ps`, in order.
pub open spec fn without_paths(es: Seq<FileEntryView>, ps: Seq<Seq<char>>) -> Seq<FileEntryView>
    decreases es.len(),
{
    if es.len() == 0 {
        seq![]
    } else {
        let prev = without_paths(es.drop_last(), ps);
        if at_one_of(es.last(), ps) {
            prev
        } else {
            prev.push(es.last())
        }
    }
}

pub open spec fn item_views(items: Seq<(String, FileMetadata)>) -> Seq<(Seq<char>, FileMetadata)> {
    items.map_values(|t: (String, FileMetadata)| (t.0@, t.1))
}

/// The bytes an indexed entry is reckoned to take in memory.
pub const ENTRY_FOOTPRINT: usize = 96;

pub struct Database {
    entries: Vec<FileEntry>,
    config: CrawlerConfig,
}

impl View for Database {
    type V = Seq<FileEntryView>;

    /// The indexed entries, in order.
    closed spec fn view(&self) -> Seq<FileEntryView> {
        entry_views(self.entries@)
    }
}

impl Database {
    /// The crawler configuration the index was made with.
    pub closed spec fn configuration(&self) -> CrawlerConfig {
        self.config
    }

    pub fn new(config: CrawlerConfig) -> (res: Self)
        ensures
            res@ == Seq::<FileEntryView>::empty(),
            res.configuration() == config,
    {
        let res = Database { entries: Vec::new(), config };
        assert(res@ =~= Seq::<FileEntryView>::empty());
        res
    }

    pub fn config(&self) -> (res: &CrawlerConfig)
        ensures
            *res == self.configuration(),
    {
        &self.config
    }

    /// Runs `query` over the index.
    pub fn search(&self, query: &SearchQuery) -> (res: SearchResult)
        ensures
            search_result_allowed(self@, query@, entry_views(res.entries@)),
            res.total_scanned == self@.len(),
    {
        SearchEngine::execute(self.entries.as_slice(), query)
    }

    /// Total entries currently indexed.
    pub fn len(&self) -> (res: usize)
        ensures
            res == self@.len(),
    {
        self.entries.len()
    }

    pub fn is_empty(&self) -> (res: bool)
        ensures
            res == (self@.len() == 0),
    {
        self.entries.len() == 0
    }

    /// An estimate of the memory the index takes: `ENTRY_FOOTPRINT` bytes
    /// per entry, saturating at `usize::MAX`.
    pub fn memory_usage_bytes(&self) -> (res: usize)
        ensures
            res == (if self@.len() * ENTRY_FOOTPRINT <= usize::MAX {
                self@.len() * ENTRY_FOOTPRINT
            } else {
                usize::MAX as int
            }),
    {
        let n = self.entries.len();
        if n > usize::MAX / ENTRY_FOOTPRINT {
            usize::MAX
        } else {
            n * ENTRY_FOOTPRINT
        }
    }

    /// The indexed entries.
    pub fn entries(&self) -> (res: &[FileEntry])
        ensures
            entry_views(res@) == self@,
    {
        self.entries.as_slice()
    }

    /// Replaces the whole index (after a crawl or a cache load) and returns
    /// the number of entries now held.
    pub fn replace_entries(&mut self, entries: Vec<FileEntry>) -> (res: usize)
        ensures
            final(self)@ == entry_views(entries@),
            final(self).configuration() == old(self).configuration(),
            res == entries@.len(),
    {
        let count = entries.len();
        self.entries = entries;
        count
    }

    /// Inserts `entry`, or replaces the first entry at the same path.
    fn upsert_entry(&mut self, entry: FileEntry)
        ensures
            final(self)@ == upsert_entry(old(self)@, entry@),
            final(self).configuration() == old(self).configuration(),
    {
        let full = entry.full_path();
        let key = canonical_path(full.as_str());
        let ghost es = self@;
        let ghost p = full_path_of(entry@);
        let mut i: usize = 0;
        while i < self.entries.len()
            invariant
                i <= self.entries@.len(),
                es == self@,
                self.config == old(self).config,
                es == old(self)@,
                key@ == path_key(p),
                p == full_path_of(entry@),
                forall|j: int| 0 <= j < i ==> !same_path(#[trigger] full_path_of(es[j]), p),
            decreases self.entries@.len() - i,
        {
            let other = self.entries[i].full_path();
            let other_key = canonical_path(other.as_str());
            proof {
                lemma_path_key_identifies(full_path_of(es[i as int]), p);
            }
            if other_key == key {
                assert(is_first_at(es, p, i as int));
                let ghost chosen = choose|k: int| is_first_at(es, p, k);
                assert(chosen == i as int) by {
                    if chosen < i {
                        assert(!same_path(full_path_of(es[chosen]), p));
                    }
                    if chosen > i {
                        assert(!same_path(full_path_of(es[i as int]), p));
                    }
                }
                let ghost ev = entry@;
                self.entries.set(i, entry);
                assert(self@ =~= es.update(i as int, ev));
                return;
            }
            i += 1;
        }
        assert(!exists|k: int| is_first_at(es, p, k));
        let ghost ev = entry@;
        self.entries.push(entry);
        assert(self@ =~= es.push(ev));
    }

    /// Inserts or updates the entry for `path`, built from `metadata`.
    pub fn upsert_path(&mut self, path: &str, metadata: &FileMetadata)
        ensures
            final(self)@ == upsert_at_path(old(self)@, path@, *metadata),
            final(self).configuration() == old(self).configuration(),
    {
        match FileEntry::new(path, metadata) {
            Some(entry) => self.upsert_entry(entry),
            None => {},
        }
    }

    /// Inserts or updates the entries for all `items`, in order.
    pub fn batch_upsert(&mut self, items: &[(String, FileMetadata)])
        ensures
            final(self)@ == upsert_batch(old(self)@, item_views(items@)),
            final(self).configuration() == old(self).configuration(),
    {
        let ghost its = item_views(items@);
        let mut i: usize = 0;
        while i < items.len()
            invariant
                i <= items@.len(),
                its == item_views(items@),
                self@ == upsert_batch(old(self)@, its.take(i as int)),
                self.configuration() == old(self).configuration(),
            decreases items@.len() - i,
        {
            assert(its.take(i + 1).drop_last() =~= its.take(i as int));
            assert(its.take(i + 1).last() == (items@[i as int].0@, items@[i as int].1));
            self.upsert_path(items[i].0.as_str(), &items[i].1);
            i += 1;
        }
        assert(its.take(items@.len() as int) =~= its);
    }

    /// Removes every entry at `path`.
    pub fn remove_path(&mut self, path: &str)
        ensures
            final(self)@ == without_path(old(self)@, path@),
            final(self).configuration() == old(self).configuration(),
    {
        let key = canonical_path(path);
        let mut kept: Vec<FileEntry> = Vec::new();
        let ghost es = self@;
        let mut i: usize = 0;
        while i < self.entries.len()
            invariant
                i <= self.entries@.len(),
                es == self@,
                key@ == path_key(path@),
                entry_views(kept@) == without_path(es.take(i as int), path@),
            decreases self.entries@.len() - i,
        {
            assert(es.take(i + 1).drop_last() =~= es.take(i as int));
            assert(es.take(i + 1).last() == es[i as int]);
            let full = self.entries[i].full_path();
            let k = canonical_path(full.as_str());
            proof {
                lemma_path_key_identifies(full_path_of(es[i as int]), path@);
            }
            if k != key {
                let ghost before = entry_views(kept@);
                kept.push(self.entries[i].clone());
                assert(entry_views(kept@) =~= before.push(es[i as int]));
            }
            i += 1;
        }
        assert(es.take(es.len() as int) =~= es);
        self.entries = kept;
    }

    /// Removes every entry at any of `paths`.
    pub fn batch_remove(&mut self, paths: &[String])
        ensures
            final(self)@ == without_paths(
                old(self)@,
                paths@.map_values(|p: String| p@),
            ),
            final(self).configuration() == old(self).configuration(),
    {
        let ghost ps = paths@.map_values(|p: String| p@);
        let ghost es = self@;
        if paths.len() == 0 {
            assert(without_paths(es, ps) =~= es) by {
                lemma_without_no_paths(es, ps);
            }
            return;
        }
        let mut keys = StringHashSet::new();
        let mut i: usize = 0;
        while i < paths.len()
            invariant
                i <= paths@.len(),
                ps == paths@.map_values(|p: String| p@),
                forall|s: Seq<char>|
                    #[trigger] keys@.contains(s) <==> exists|j: int|
                        0 <= j < i && path_key(#[trigger] ps[j]) == s,
            decreases paths@.len() - i,
        {
            let k = canonical_path(paths[i].as_str());
            keys.insert(k);
            assert forall|s: Seq<char>| #[trigger]
                keys@.contains(s) <==> exists|j: int| 0 <= j < i + 1 && path_key(#[trigger] ps[j]) == s by {
                if s == path_key(ps[i as int]) {
                    assert(0 <= i < i + 1 && path_key(ps[i as int]) == s);
                }
            }
            i += 1;
        }
        let mut kept: Vec<FileEntry> = Vec::new();
        let mut i: usize = 0;
        while i < self.entries.len()
            invariant
                i <= self.entries@.len(),
                es == self@,
                ps == paths@.map_values(|p: String| p@),
                forall|s: Seq<char>|
                    #[trigger] keys@.contains(s) <==> exists|j: int|
                        0 <= j < ps.len() && path_key(#[trigger] ps[j]) == s,
                entry_views(kept@) == without_paths(es.take(i as int), ps),
            decreases self.entries@.len() - i,
        {
            assert(es.take(i + 1).drop_last() =~= es.take(i as int));
            assert(es.take(i + 1).last() == es[i as int]);
            let full = self.entries[i].full_path();
            let k = canonical_path(full.as_str());
            let hit = keys.contains(k.as_str());
            assert(hit == at_one_of(es[i as int], ps)) by {
                if hit {
                    let j = choose|j: int| 0 <= j < ps.len() && path_key(#[trigger] ps[j]) == k@;
                    lemma_path_key_identifies(full_path_of(es[i as int]), ps[j]);
                }
                if at_one_of(es[i as int], ps) {
                    let j = choose|j: int|
                        0 <= j < ps.len() && same_path(full_path_of(es[i as int]), #[trigger] ps[j]);
                    lemma_path_key_identifies(full_path_of(es[i as int]), ps[j]);
                    assert(keys@.contains(k@));
                }
            }
            if !hit {
                let ghost before = entry_views(kept@);
                kept.push(self.entries[i].clone());
                assert(entry_views(kept@) =~= before.push(es[i as int]));
            }
            i += 1;
        }
        assert(es.take(es.len() as int) =~= es);
        self.entries = kept;
    }
}

impl Default for Database {
    fn default() -> (res: Self)
        ensures
            res@ == Seq::<FileEntryView>::empty(),
    {
        Database::new(CrawlerConfig::default())
    }
}

proof fn lemma_without_no_paths(es: Seq<FileEntryView>, ps: Seq<Seq<char>>)
    requires
        ps.len() == 0,
    ensures
        without_paths(es, ps) == es,
    decreases es.len(),
{
    if es.len() > 0 {
        lemma_without_no_paths(es.drop_last(), ps);
        assert(es =~= es.drop_last().push(es.last()));
    }
}

/// No two entries share a path.
pub open spec fn distinct_paths(es: Seq<FileEntryView>) -> bool {
    forall|i: int, j: int|
        0 <= i < j < es.len() ==> !same_path(
            #[trigger] full_path_of(es[i]),
            #[trigger] full_path_of(es[j]),
        )
}

proof fn lemma_first_at_exists(es: Seq<FileEntryView>, p: Seq<char>, j: int)
    requires
        0 <= j < es.len(),
        same_path(full_path_of(es[j]), p),
    ensures
        exists|i: int| is_first_at(es, p, i),
    decreases j,
{
    if forall|k: int| 0 <= k < j ==> !same_path(#[trigger] full_path_of(es[k]), p) {
        assert(is_first_at(es, p, j));
    } else {
        let k = choose|k: int| 0 <= k < j && same_path(#[trigger] full_path_of(es[k]), p);
        lemma_first_at_exists(es, p, k);
    }
}

/// Upserting never makes two entries share a path.
pub proof fn law_upsert_keeps_paths_distinct(es: Seq<FileEntryView>, e: FileEntryView)
    requires
        distinct_paths(es),
    ensures
        distinct_paths(upsert_entry(es, e)),
{
    let p = full_path_of(e);
    let r = upsert_entry(es, e);
    if exists|i: int| is_first_at(es, p, i) {
        let i = choose|i: int| is_first_at(es, p, i);
        assert forall|a: int, b: int| 0 <= a < b < r.len() implies !same_path(
            #[trigger] full_path_of(r[a]),
            #[trigger] full_path_of(r[b]),
        ) by {
            if a == i {
                assert(!same_path(full_path_of(es[a]), full_path_of(es[b])));
            } else if b == i {
                assert(!same_path(full_path_of(es[a]), full_path_of(es[b])));
            } else {
                assert(!same_path(full_path_of(es[a]), full_path_of(es[b])));
            }
        }
    } else {
        assert forall|a: int| 0 <= a < es.len() implies !same_path(
            #[trigger] full_path_of(es[a]),
            p,
        ) by {
            if same_path(full_path_of(es[a]), p) {
                lemma_first_at_exists(es, p, a);
            }
        }
        assert forall|a: int, b: int| 0 <= a < b < r.len() implies !same_path(
            #[trigger] full_path_of(r[a]),
            #[trigger] full_path_of(r[b]),
        ) by {
            if b == es.len() {
                assert(!same_path(full_path_of(es[a]), p));
            } else {
                assert(!same_path(full_path_of(es[a]), full_path_of(es[b])));
            }
        }
    }
}

/// Upserts keep paths distinct, batch by batch.
pub proof fn law_batch_upsert_keeps_paths_distinct(
    es: Seq<FileEntryView>,
    items: Seq<(Seq<char>, FileMetadata)>,
)
    requires
        distinct_paths(es),
    ensures
        distinct_paths(upsert_batch(es, items)),
    decreases items.len(),
{
    if items.len() > 0 {
        law_batch_upsert_keeps_paths_distinct(es, items.drop_last());
        let prev = upsert_batch(es, items.drop_last());
        match entry_for_path(items.last().0, items.last().1) {
            Some(e) => law_upsert_keeps_paths_distinct(prev, e),
            None => {},
        }
    }
}

/// What an upsert leaves behind: in an index without duplicate paths, the
/// upserted entry is the one entry at its path, each entry at another path
/// keeps its place, and the index grows by one exactly when nothing was at
/// the path before.
pub proof fn law_upsert_reads_back(es: Seq<FileEntryView>, e: FileEntryView)
    requires
        distinct_paths(es),
    ensures
        upsert_entry(es, e).contains(e),
        forall|i: int|
            0 <= i < upsert_entry(es, e).len() && same_path(
                #[trigger] full_path_of(upsert_entry(es, e)[i]),
                full_path_of(e),
            ) ==> upsert_entry(es, e)[i] == e,
        forall|i: int|
            0 <= i < es.len() && !same_path(#[trigger] full_path_of(es[i]), full_path_of(e))
                ==> upsert_entry(es, e)[i] == es[i],
        upsert_entry(es, e).len() == es.len() + (if exists|i: int|
            0 <= i < es.len() && same_path(#[trigger] full_path_of(es[i]), full_path_of(e)) {
            0int
        } else {
            1int
        }),
{
    let p = full_path_of(e);
    let r = upsert_entry(es, e);
    if exists|i: int| is_first_at(es, p, i) {
        let k = choose|i: int| is_first_at(es, p, i);
        assert(r[k] == e);
        assert forall|i: int|
            0 <= i < r.len() && same_path(#[trigger] full_path_of(r[i]), p) implies r[i] == e by {
            if i != k {
                if i < k {
                    assert(!same_path(full_path_of(es[i]), full_path_of(es[k])));
                } else {
                    assert(!same_path(full_path_of(es[k]), full_path_of(es[i])));
                }
            }
        }
        assert(0 <= k < es.len() && same_path(full_path_of(es[k]), p));
    } else {
        assert(r[es.len() as int] == e);
        assert forall|a: int| 0 <= a < es.len() implies !same_path(
            #[trigger] full_path_of(es[a]),
            p,
        ) by {
            if same_path(full_path_of(es[a]), p) {
                lemma_first_at_exists(es, p, a);
            }
        }
    }
}

proof fn lemma_without_update(es: Seq<FileEntryView>, i: int, x: FileEntryView, p: Seq<char>)
    requires
        0 <= i < es.len(),
        same_path(full_path_of(es[i]), p),
        same_path(full_path_of(x), p),
    ensures
        without_path(es.update(i, x), p) == without_path(es, p),
    decreases es.len(),
{
    let u = es.update(i, x);
    if i == es.len() - 1 {
        assert(u.drop_last() =~= es.drop_last());
    } else {
        assert(u.drop_last() =~= es.drop_last().update(i, x));
        lemma_without_update(es.drop_last(), i, x, p);
    }
}

/// Removing a path undoes an upsert at that path.
pub proof fn law_remove_undoes_upsert(es: Seq<FileEntryView>, e: FileEntryView)
    ensures
        without_path(upsert_entry(es, e), full_path_of(e)) == without_path(es, full_path_of(e)),
{
    let p = full_path_of(e);
    if exists|i: int| is_first_at(es, p, i) {
        let k = choose|i: int| is_first_at(es, p, i);
        lemma_without_update(es, k, e, p);
    } else {
        assert(es.push(e).drop_last() =~= es);
    }
}

/// After a removal no entry is at the path, and every entry at another path
/// is still there.
pub proof fn law_remove_clears_path(es: Seq<FileEntryView>, p: Seq<char>)
    ensures
        forall|i: int|
            0 <= i < without_path(es, p).len() ==> !same_path(
                #[trigger] full_path_of(without_path(es, p)[i]),
                p,
            ) && es.contains(without_path(es, p)[i]),
        forall|i: int|
            0 <= i < es.len() && !same_path(#[trigger] full_path_of(es[i]), p) ==> without_path(
                es,
                p,
            ).contains(es[i]),
    decreases es.len(),
{
    if es.len() > 0 {
        let d = es.drop_last();
        law_remove_clears_path(d, p);
        let w = without_path(es, p);
        let wd = without_path(d, p);
        assert forall|i: int| 0 <= i < w.len() implies !same_path(
            #[trigger] full_path_of(w[i]),
            p,
        ) && es.contains(w[i]) by {
            if i < wd.len() {
                assert(w[i] == wd[i]);
                assert(!same_path(full_path_of(wd[i]), p) && d.contains(wd[i]));
                let j = choose|j: int| 0 <= j < d.len() && d[j] == wd[i];
                assert(es[j] == wd[i]);
            } else {
                assert(w[i] == es.last());
                assert(es[es.len() - 1] == es.last());
            }
        }
        assert forall|i: int|
            0 <= i < es.len() && !same_path(#[trigger] full_path_of(es[i]), p) implies w.contains(
            es[i],
        ) by {
            if i < d.len() {
                assert(d[i] == es[i]);
                assert(!same_path(full_path_of(d[i]), p) ==> wd.contains(d[i]));
                let j = choose|j: int| 0 <= j < wd.len() && wd[j] == d[i];
                assert(w[j] == wd[j]);
            } else {
                assert(w[w.len() - 1] == es.last());
            }
        }
    }
}

/// Removing a batch of paths removes them one after the other: taking one
/// more path in the batch is removing it afterwards.
pub proof fn law_batch_remove_is_stepwise(
    es: Seq<FileEntryView>,
    ps: Seq<Seq<char>>,
    p: Seq<char>,
)
    ensures
        without_paths(es, ps.push(p)) == without_path(without_paths(es, ps), p),
    decreases es.len(),
{
    if es.len() > 0 {
        law_batch_remove_is_stepwise(es.drop_last(), ps, p);
        let l = es.last();
        let qs = ps.push(p);
        if at_one_of(l, ps) {
            let k = choose|k: int| 0 <= k < ps.len() && same_path(full_path_of(l), #[trigger] ps[k]);
            assert(qs[k] == ps[k]);
        }
        if same_path(full_path_of(l), p) {
            assert(qs[ps.len() as int] == p);
        }
        if at_one_of(l, qs) {
            let k = choose|k: int| 0 <= k < qs.len() && same_path(full_path_of(l), #[trigger] qs[k]);
            if k < ps.len() {
                assert(qs[k] == ps[k]);
            }
        }
        let w = without_paths(es.drop_last(), ps);
        if !at_one_of(l, ps) {
            assert(w.push(l).drop_last() =~= w);
        }
    }
}

/// Removing an empty batch of paths changes nothing.
pub proof fn law_batch_remove_nothing(es: Seq<FileEntryView>)
    ensures
        without_paths(es, seq![]) == es,
{
    lemma_without_no_paths(es, seq![]);
}


proof fn lemma_without_same_path(es: Seq<FileEntryView>, p: Seq<char>, q: Seq<char>)
    requires
        same_path(p, q),
    ensures
        without_path(es, p) == without_path(es, q),
    decreases es.len(),
{
    if es.len() > 0 {
        lemma_without_same_path(es.drop_last(), p, q);
    }
}

/// Upserting a path and reading it back: when the path has a file name, the
/// entry built for it is in the index afterwards and, in an index without
/// duplicate paths, it is the one entry at that path.
pub proof fn law_upsert_path_reads_back(es: Seq<FileEntryView>, path: Seq<char>, m: FileMetadata)
    requires
        distinct_paths(es),
        entry_for_path(path, m) is Some,
    ensures
        upsert_at_path(es, path, m).contains(entry_for_path(path, m)->0),
        forall|i: int|
            0 <= i < upsert_at_path(es, path, m).len() && same_path(
                #[trigger] full_path_of(upsert_at_path(es, path, m)[i]),
                path,
            ) ==> upsert_at_path(es, path, m)[i] == entry_for_path(path, m)->0,
        distinct_paths(upsert_at_path(es, path, m)),
{
    let e = entry_for_path(path, m)->0;
    law_entry_full_path(path, m);
    law_upsert_reads_back(es, e);
    law_upsert_keeps_paths_distinct(es, e);
    let r = upsert_at_path(es, path, m);
    assert forall|i: int|
        0 <= i < r.len() && same_path(#[trigger] full_path_of(r[i]), path) implies r[i] == e by {
        assert(same_path(full_path_of(r[i]), full_path_of(e)));
    }
}

/// Removing a path undoes upserting it.
pub proof fn law_remove_path_undoes_upsert_path(
    es: Seq<FileEntryView>,
    path: Seq<char>,
    m: FileMetadata,
)
    ensures
        without_path(upsert_at_path(es, path, m), path) == without_path(es, path),
{
    law_entry_full_path(path, m);
    if let Some(e) = entry_for_path(path, m) {
        law_remove_undoes_upsert(es, e);
        lemma_without_same_path(upsert_entry(es, e), full_path_of(e), path);
        lemma_without_same_path(es, full_path_of(e), path);
    }
}

} // verus!

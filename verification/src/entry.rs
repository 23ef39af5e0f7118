//! File entries in their rich and compact forms, and the directory store
//! that compact entries point into.
use vstd::prelude::*;
use vstd::hash_map::StringHashMap;
use crate::text::{chars_of, lowercase, to_lowercase, push_char};
use crate::path::{
    file_name_of, parent_of, join_path, path_key, file_name, parent, join, canonical_path,
    same_path, law_parent_join_file_name,
};

verus! {

broadcast use vstd::hash_map::group_hash_map_axioms;

pub const FLAG_IS_DIR: u8 = 0x01;

pub const FLAG_IS_SYMLINK: u8 = 0x02;

pub const FLAG_IS_REMOVABLE: u8 = 0x04;

/// The mathematical content of a [`FileEntry`].
pub struct FileEntryView {
    pub name: Seq<char>,
    pub name_lower: Seq<char>,
    pub parent: Seq<char>,
    pub size: u64,
    pub is_dir: bool,
    pub modified: u64,
}

/// Rich, user-facing representation of a file entry.
/// Used for UI display, CLI outputs, and external integrations.
#[derive(Debug, PartialEq, Eq)]
pub struct FileEntry {
    pub name: String,
    pub name_lower: String,
    pub parent: String,
    pub size: u64,
    pub is_dir: bool,
    /// Unix timestamp in seconds.
    pub modified: u64,
}

impl View for FileEntry {
    type V = FileEntryView;

    open spec fn view(&self) -> FileEntryView {
        FileEntryView {
            name: self.name@,
            name_lower: self.name_lower@,
            parent: self.parent@,
            size: self.size,
            is_dir: self.is_dir,
            modified: self.modified,
        }
    }
}

impl Clone for FileEntry {
    fn clone(&self) -> (res: Self)
        ensures
            res@ == self@,
    {
        FileEntry {
            name: self.name.clone(),
            name_lower: self.name_lower.clone(),
            parent: self.parent.clone(),
            size: self.size,
            is_dir: self.is_dir,
            modified: self.modified,
        }
    }
}

/// What the file system reports of a path: its size, whether it is a
/// directory, and its modification time in Unix seconds.
#[derive(Clone, Copy, Debug, PartialEq, Eq)]
pub struct FileMetadata {
    pub size: u64,
    pub is_dir: bool,
    pub modified: u64,
}

/// The entry that [`FileEntry::new`] builds for `path`: none when the path has
/// no file name; otherwise the name, its lower-case form, the parent as
/// `Path::parent` gives it (or `/` when there is none) and the metadata.
pub open spec fn entry_for_path(path: Seq<char>, m: FileMetadata) -> Option<FileEntryView> {
    match file_name_of(path) {
        None => None,
        Some(n) => Some(
            FileEntryView {
                name: n,
                name_lower: lowercase(n),
                parent: match parent_of(path) {
                    Some(q) => q,
                    None => seq!['/'],
                },
                size: m.size,
                is_dir: m.is_dir,
                modified: m.modified,
            },
        ),
    }
}

/// Index of the last `.` in `s`, or -1.
pub open spec fn last_dot(s: Seq<char>) -> int
    decreases s.len(),
{
    if s.len() == 0 {
        -1
    } else if s.last() == '.' {
        s.len() - 1
    } else {
        last_dot(s.drop_last())
    }
}

/// The extension of a file name: what follows its last `.`, unless that dot
/// is the first or the last character, or there is none.
pub open spec fn extension_of(s: Seq<char>) -> Option<Seq<char>> {
    let k = last_dot(s);
    if k <= 0 || k == s.len() - 1 {
        None
    } else {
        Some(s.subrange(k + 1, s.len() as int))
    }
}

/// The full path of an entry: its parent joined with its name.
pub open spec fn full_path_of(e: FileEntryView) -> Seq<char> {
    join_path(e.parent, e.name)
}

/// An entry built for a path lies at that path: its full path is the same
/// path, and its parent is a prefix of the path's text.
pub proof fn law_entry_full_path(path: Seq<char>, m: FileMetadata)
    ensures
        entry_for_path(path, m) matches Some(e) ==> same_path(full_path_of(e), path)
            && e.parent == path.subrange(0, e.parent.len() as int),
{
    if file_name_of(path) is Some {
        law_parent_join_file_name(path);
    }
}

proof fn lemma_last_dot(s: Seq<char>)
    ensures
        -1 <= last_dot(s) < s.len(),
        last_dot(s) >= 0 ==> s[last_dot(s)] == '.',
        forall|j: int| last_dot(s) < j < s.len() ==> s[j] != '.',
    decreases s.len(),
{
    if s.len() > 0 && s.last() != '.' {
        lemma_last_dot(s.drop_last());
        assert forall|j: int| last_dot(s) < j < s.len() implies s[j] != '.' by {
            if j < s.len() - 1 {
                assert(s[j] == s.drop_last()[j]);
            }
        }
    }
}

/// Position of the last `.` in `s`, or -1 as `None`.
fn find_last_dot(s: &Vec<char>) -> (res: Option<usize>)
    ensures
        match res {
            Some(k) => last_dot(s@) == k as int,
            None => last_dot(s@) == -1,
        },
{
    let mut i: usize = s.len();
    assert(s@.take(i as int) =~= s@);
    while i > 0
        invariant
            i <= s.len(),
            last_dot(s@) == last_dot(s@.take(i as int)),
        decreases i,
    {
        assert(s@.take(i as int).drop_last() =~= s@.take(i - 1));
        if s[i - 1] == '.' {
            return Some(i - 1);
        }
        i -= 1;
    }
    None
}

/// The extension of the name `name`, borrowed from it.
pub fn name_extension(name: &str) -> (res: Option<&str>)
    ensures
        match res {
            Some(x) => extension_of(name@) == Some(x@),
            None => extension_of(name@) is None,
        },
{
    let cs = chars_of(name);
    proof {
        lemma_last_dot(name@);
    }
    match find_last_dot(&cs) {
        None => None,
        Some(k) => {
            if k == 0 || k == cs.len() - 1 {
                None
            } else {
                Some(name.substring_char(k + 1, cs.len()))
            }
        },
    }
}

impl FileEntry {
    /// Builds the entry for `path` from what the file system reports of it.
    /// A path without a file name (the root, `..`) gives no entry.
    pub fn new(path: &str, metadata: &FileMetadata) -> (res: Option<Self>)
        ensures
            match res {
                Some(e) => entry_for_path(path@, *metadata) == Some(e@),
                None => entry_for_path(path@, *metadata) is None,
            },
    {
        let name = match file_name(path) {
            Some(n) => n,
            None => return None,
        };
        let name_lower = to_lowercase(name.as_str());
        let parent_path = match parent(path) {
            Some(p) => p,
            None => {
                let mut root = String::new();
                push_char(&mut root, '/');
                root
            },
        };
        assert(parent_path@ =~= match parent_of(path@) {
            Some(q) => q,
            None => seq!['/'],
        });
        Some(
            FileEntry {
                name,
                name_lower,
                parent: parent_path,
                size: metadata.size,
                is_dir: metadata.is_dir,
                modified: metadata.modified,
            },
        )
    }

    /// The parent joined with the name.
    pub fn full_path(&self) -> (res: String)
        ensures
            res@ == full_path_of(self@),
    {
        join(self.parent.as_str(), self.name.as_str())
    }

    /// What follows the last `.` of the name, if anything does and the dot is
    /// neither the first nor the last character.
    pub fn extension(&self) -> (res: Option<&str>)
        ensures
            match res {
                Some(x) => extension_of(self.name@) == Some(x@),
                None => extension_of(self.name@) is None,
            },
    {
        name_extension(self.name.as_str())
    }
}

/// The mathematical content of a [`CompactEntry`].
pub struct CompactEntryView {
    pub dir_id: u32,
    pub name: Seq<char>,
    pub size: u64,
    pub modified: u32,
    pub flags: u8,
}

/// `Clone` of a boxed string slice (`impl Clone for Box<str>`): the copy
/// holds the same text.
pub assume_specification[ <Box<str> as Clone>::clone ](b: &Box<str>) -> (res: Box<str>)
    ensures
        res@ == b@,
;

/// Compact 32-byte in-memory representation that refers to its directory by id.
#[derive(Debug, PartialEq, Eq)]
pub struct CompactEntry {
    pub dir_id: u32,
    pub name: Box<str>,
    pub size: u64,
    pub modified: u32,
    pub flags: u8,
}

impl Clone for CompactEntry {
    fn clone(&self) -> (res: Self)
        ensures
            res@ == self@,
    {
        CompactEntry {
            dir_id: self.dir_id,
            name: self.name.clone(),
            size: self.size,
            modified: self.modified,
            flags: self.flags,
        }
    }
}

impl View for CompactEntry {
    type V = CompactEntryView;

    open spec fn view(&self) -> CompactEntryView {
        CompactEntryView {
            dir_id: self.dir_id,
            name: self.name@,
            size: self.size,
            modified: self.modified,
            flags: self.flags,
        }
    }
}

/// The flag bit `flag` is set in `flags`.
pub open spec fn flag_set(flags: u8, flag: u8) -> bool {
    flags & flag != 0
}

/// The rich entry that [`CompactEntry::to_file_entry`] builds, given the path
/// the directory store holds for its directory id.
pub open spec fn expanded_entry(c: CompactEntryView, dir: Option<Seq<char>>) -> FileEntryView {
    FileEntryView {
        name: c.name,
        name_lower: lowercase(c.name),
        parent: match dir {
            Some(d) => d,
            None => seq!['/'],
        },
        size: c.size,
        is_dir: flag_set(c.flags, FLAG_IS_DIR),
        modified: c.modified as u64,
    }
}

impl CompactEntry {
    pub fn is_dir(&self) -> (res: bool)
        ensures
            res == flag_set(self.flags, FLAG_IS_DIR),
    {
        (self.flags & FLAG_IS_DIR) != 0
    }

    pub fn is_symlink(&self) -> (res: bool)
        ensures
            res == flag_set(self.flags, FLAG_IS_SYMLINK),
    {
        (self.flags & FLAG_IS_SYMLINK) != 0
    }

    pub fn is_removable(&self) -> (res: bool)
        ensures
            res == flag_set(self.flags, FLAG_IS_REMOVABLE),
    {
        (self.flags & FLAG_IS_REMOVABLE) != 0
    }

    /// The extension of the name, as [`FileEntry::extension`] gives it.
    pub fn extension(&self) -> (res: Option<&str>)
        ensures
            match res {
                Some(x) => extension_of(self.name@) == Some(x@),
                None => extension_of(self.name@) is None,
            },
    {
        name_extension(&*self.name)
    }

    /// The rich entry: the directory path comes from `dirs` (or `/` when the
    /// id is unknown there).
    pub fn to_file_entry(&self, dirs: &DirectoryStore) -> (res: FileEntry)
        ensures
            res@ == expanded_entry(self@, dirs.path_at(self.dir_id)),
    {
        let parent_path = match dirs.get_path(self.dir_id) {
            Some(p) => p,
            None => {
                let mut root = String::new();
                push_char(&mut root, '/');
                root
            },
        };
        let name: &str = &*self.name;
        let name_str = name.to_owned();
        let name_lower = to_lowercase(name);
        FileEntry {
            name: name_str,
            name_lower,
            parent: parent_path,
            size: self.size,
            is_dir: self.is_dir(),
            modified: self.modified as u64,
        }
    }
}

/// The id table of a directory list: each directory's canonical path maps to
/// its index (cast to `u32`), a later duplicate overriding an earlier one.
pub open spec fn lookup_of(d: Seq<Seq<char>>) -> Map<Seq<char>, u32>
    decreases d.len(),
{
    if d.len() == 0 {
        Map::empty()
    } else {
        lookup_of(d.drop_last()).insert(path_key(d.last()), (d.len() - 1) as u32)
    }
}

/// The id that a directory list gives the path whose canonical form is `key`.
pub open spec fn id_of(d: Seq<Seq<char>>, key: Seq<char>) -> Option<u32> {
    if lookup_of(d).dom().contains(key) {
        Some(lookup_of(d)[key])
    } else {
        None
    }
}

/// A directory list after asking for the id of `p`: unchanged when a path
/// equal to `p` is stored, else `p` appended.
pub open spec fn store_after(d: Seq<Seq<char>>, p: Seq<char>) -> Seq<Seq<char>> {
    match id_of(d, path_key(p)) {
        Some(_) => d,
        None => d.push(p),
    }
}

/// The id handed out when asking for `p`: the stored one, else the next position.
pub open spec fn id_after(d: Seq<Seq<char>>, p: Seq<char>) -> u32 {
    match id_of(d, path_key(p)) {
        Some(i) => i,
        None => d.len() as u32,
    }
}

proof fn lemma_lookup_sound(d: Seq<Seq<char>>, key: Seq<char>)
    requires
        d.len() <= u32::MAX + 1,
    ensures
        lookup_of(d).dom().contains(key) ==> lookup_of(d)[key] < d.len() && path_key(
            d[lookup_of(d)[key] as int],
        ) == key,
        (exists|j: int| 0 <= j < d.len() && path_key(#[trigger] d[j]) == key) ==> lookup_of(
            d,
        ).dom().contains(key),
    decreases d.len(),
{
    if d.len() > 0 {
        let e = d.drop_last();
        lemma_lookup_sound(e, key);
        if exists|j: int| 0 <= j < d.len() && path_key(#[trigger] d[j]) == key {
            let j = choose|j: int| 0 <= j < d.len() && path_key(#[trigger] d[j]) == key;
            if j < e.len() {
                assert(e[j] == d[j]);
            }
        }
        if lookup_of(d).dom().contains(key) && key != path_key(d.last()) {
            let i = lookup_of(e)[key];
            assert(e[i as int] == d[i as int]);
        }
    }
}

/// Ids read back: in a store of at most `u32::MAX` paths, the id handed out
/// for `p` names a stored path equal to `p`, and asking again changes
/// nothing and hands out the same id.
pub proof fn law_directory_id_reads_back(d: Seq<Seq<char>>, p: Seq<char>)
    requires
        d.len() <= u32::MAX,
    ensures
        (id_after(d, p) as int) < store_after(d, p).len(),
        path_key(store_after(d, p)[id_after(d, p) as int]) == path_key(p),
        store_after(store_after(d, p), p) == store_after(d, p),
        id_after(store_after(d, p), p) == id_after(d, p),
{
    lemma_lookup_sound(d, path_key(p));
    let n = store_after(d, p);
    if id_of(d, path_key(p)) is None {
        assert(n.drop_last() =~= d);
        assert(lookup_of(n) == lookup_of(d).insert(path_key(p), d.len() as u32));
    }
}

/// Storing a new path leaves the ids of the paths already stored as they were.
pub proof fn law_directory_ids_stable(d: Seq<Seq<char>>, p: Seq<char>, q: Seq<char>)
    requires
        path_key(q) != path_key(p),
    ensures
        id_of(store_after(d, p), path_key(q)) == id_of(d, path_key(q)),
{
    if id_of(d, path_key(p)) is None {
        assert(d.push(p).drop_last() =~= d);
    }
}

/// Centralized directory repository: each directory path is stored once and
/// named by a `u32` id, its position in the store.
pub struct DirectoryStore {
    dirs: Vec<String>,
    lookup: StringHashMap<u32>,
}

impl View for DirectoryStore {
    type V = Seq<Seq<char>>;

    /// The stored directory paths, in id order.
    closed spec fn view(&self) -> Seq<Seq<char>> {
        self.dirs@.map_values(|d: String| d@)
    }
}

/// The lookup table of a directory list.
fn lookup_table(dirs: &Vec<String>) -> (res: StringHashMap<u32>)
    ensures
        res@ == lookup_of(dirs@.map_values(|d: String| d@)),
{
    let ghost ds = dirs@.map_values(|d: String| d@);
    let mut lookup: StringHashMap<u32> = StringHashMap::new();
    let mut idx: usize = 0;
    while idx < dirs.len()
        invariant
            idx <= dirs@.len(),
            ds == dirs@.map_values(|d: String| d@),
            lookup@ == lookup_of(ds.take(idx as int)),
        decreases dirs@.len() - idx,
    {
        let key = canonical_path(dirs[idx].as_str());
        lookup.insert(key, idx as u32);
        assert(ds.take(idx + 1).drop_last() =~= ds.take(idx as int));
        idx += 1;
    }
    assert(ds.take(ds.len() as int) =~= ds);
    lookup
}

impl DirectoryStore {
    /// The lookup table agrees with the directory list.
    #[verifier::type_invariant]
    spec fn wf(self) -> bool {
        self.lookup@ == lookup_of(self.dirs@.map_values(|d: String| d@))
    }

    /// The path stored under `id`, if any.
    pub open spec fn path_at(&self, id: u32) -> Option<Seq<char>> {
        if (id as int) < self@.len() {
            Some(self@[id as int])
        } else {
            None
        }
    }

    pub fn new() -> (res: Self)
        ensures
            res@ == Seq::<Seq<char>>::empty(),
    {
        let ghost e = Seq::<String>::empty();
        assert(e.map_values(|d: String| d@) =~= Seq::<Seq<char>>::empty());
        let res = DirectoryStore { dirs: Vec::new(), lookup: StringHashMap::new() };
        assert(res@ =~= Seq::<Seq<char>>::empty());
        res
    }

    /// A store holding `dirs`, with its lookup table built from them.
    pub fn from_dirs(dirs: Vec<String>) -> (res: Self)
        ensures
            res@ == dirs@.map_values(|d: String| d@),
    {
        let lookup = lookup_table(&dirs);
        DirectoryStore { dirs, lookup }
    }

    /// Rebuilds the lookup table from the directory list.
    pub fn rebuild_lookup(&mut self)
        ensures
            final(self)@ == old(self)@,
    {
        let lookup = lookup_table(&self.dirs);
        self.lookup = lookup;
    }

    /// The id of `path`, inserting it at the end when it is new.
    pub fn get_or_insert(&mut self, path: &str) -> (res: u32)
        ensures
            final(self)@ == store_after(old(self)@, path@),
            res == id_after(old(self)@, path@),
    {
        proof {
            use_type_invariant(&*self);
        }
        let key = canonical_path(path);
        match self.lookup.get(key.as_str()) {
            Some(id) => {
                return *id;
            },
            None => {},
        }
        let mut taken = DirectoryStore::new();
        std::mem::swap(self, &mut taken);
        proof {
            use_type_invariant(&taken);
        }
        let DirectoryStore { mut dirs, mut lookup } = taken;
        let ghost old_dirs = dirs@.map_values(|d: String| d@);
        let id = dirs.len() as u32;
        let pbuf = path.to_owned();
        lookup.insert(key, id);
        dirs.push(pbuf);
        assert(dirs@.map_values(|d: String| d@) =~= old_dirs.push(path@));
        assert(dirs@.map_values(|d: String| d@).drop_last() =~= old_dirs);
        *self = DirectoryStore { dirs, lookup };
        id
    }

    /// The id of `path`, if it is stored.
    pub fn find_id(&self, path: &str) -> (res: Option<u32>)
        ensures
            res == id_of(self@, path_key(path@)),
    {
        proof {
            use_type_invariant(self);
        }
        let key = canonical_path(path);
        match self.lookup.get(key.as_str()) {
            Some(id) => Some(*id),
            None => None,
        }
    }

    /// The path stored under `id`.
    pub fn get_path(&self, id: u32) -> (res: Option<String>)
        ensures
            match res {
                Some(p) => self.path_at(id) == Some(p@),
                None => self.path_at(id) is None,
            },
    {
        let i = id as usize;
        if i < self.dirs.len() {
            Some(self.dirs[i].clone())
        } else {
            None
        }
    }

    /// The path stored under `id`, borrowed.
    pub fn get_path_ref(&self, id: u32) -> (res: Option<&str>)
        ensures
            match res {
                Some(p) => self.path_at(id) == Some(p@),
                None => self.path_at(id) is None,
            },
    {
        let i = id as usize;
        if i < self.dirs.len() {
            Some(self.dirs[i].as_str())
        } else {
            None
        }
    }

    pub fn len(&self) -> (res: usize)
        ensures
            res == self@.len(),
    {
        self.dirs.len()
    }

    pub fn is_empty(&self) -> (res: bool)
        ensures
            res == (self@.len() == 0),
    {
        self.dirs.len() == 0
    }

    /// All stored paths, in id order.
    pub fn dirs(&self) -> (res: &[String])
        ensures
            res@.map_values(|d: String| d@) == self@,
    {
        self.dirs.as_slice()
    }
}

impl Default for DirectoryStore {
    fn default() -> (res: Self)
        ensures
            res@ == Seq::<Seq<char>>::empty(),
    {
        DirectoryStore::new()
    }
}

} // verus!

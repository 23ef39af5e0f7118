//! The mount table: parsing `/proc/mounts` lines and answering which file
//! system a path lives on.
use vstd::prelude::*;
use vstd::utf8::encode_utf8;
use crate::text::{
    SplitMode, split_fields, split_chars, chars_of, string_from_chars, str_equal, views, views_of,
    in_list,
};
use crate::path::{path_starts_with, starts_with_path};

verus! {

/// Known virtual / pseudo filesystems in Linux that should not be indexed.
pub const VIRTUAL_FS_TYPES: [&'static str; 21] = [
    "proc",
    "sysfs",
    "devtmpfs",
    "devpts",
    "cgroup",
    "cgroup2",
    "pstore",
    "bpf",
    "configfs",
    "securityfs",
    "debugfs",
    "tracefs",
    "hugetlbfs",
    "mqueue",
    "fusectl",
    "autofs",
    "ramfs",
    "rpc_pipefs",
    "binfmt_misc",
    "efivarfs",
    "nsfs",
];

/// Storage filesystem types commonly encountered.
pub const REAL_FS_TYPES: [&'static str; 18] = [
    "ext4",
    "ext3",
    "ext2",
    "btrfs",
    "xfs",
    "f2fs",
    "zfs",
    "vfat",
    "msdos",
    "fat",
    "exfat",
    "ntfs",
    "ntfs3",
    "fuseblk",
    "hfsplus",
    "iso9660",
    "udf",
    "reiserfs",
];

/// Known snapshot or internal container paths to skip to avoid indexing
/// millions of duplicates.
pub const EXCLUDED_SUBPATH_PATTERNS: [&'static str; 8] = [
    "/.snapshots",
    "/@snapshots",
    "/.btrfs-snapshots",
    "/timeshift/snapshots",
    "/var/lib/docker",
    "/var/lib/containerd",
    "/var/lib/flatpak/runtime",
    "/snap/",
];

/// The mathematical content of a [`MountEntry`].
pub struct MountEntryView {
    pub device: Seq<char>,
    pub mount_point: Seq<char>,
    pub fs_type: Seq<char>,
    pub options: Seq<Seq<char>>,
    pub is_removable: bool,
    pub is_btrfs: bool,
    pub is_real_storage: bool,
}

/// One mounted file system. `options` holds each mount option once.
#[derive(Debug, Clone)]
pub struct MountEntry {
    pub device: String,
    pub mount_point: String,
    pub fs_type: String,
    pub options: Vec<String>,
    pub is_removable: bool,
    pub is_btrfs: bool,
    pub is_real_storage: bool,
}

pub open spec fn string_views(v: Seq<String>) -> Seq<Seq<char>> {
    v.map_values(|s: String| s@)
}

impl View for MountEntry {
    type V = MountEntryView;

    open spec fn view(&self) -> MountEntryView {
        MountEntryView {
            device: self.device@,
            mount_point: self.mount_point@,
            fs_type: self.fs_type@,
            options: string_views(self.options@),
            is_removable: self.is_removable,
            is_btrfs: self.is_btrfs,
            is_real_storage: self.is_real_storage,
        }
    }
}

/// The fields of `s` in order of first appearance, each once.
pub open spec fn dedup(s: Seq<Seq<char>>) -> Seq<Seq<char>>
    decreases s.len(),
{
    if s.len() == 0 {
        seq![]
    } else {
        let d = dedup(s.drop_last());
        if d.contains(s.last()) {
            d
        } else {
            d.push(s.last())
        }
    }
}

/// Mount points under `/media`, `/run/media` or `/mnt` are removable drives.
pub open spec fn removable_location(p: Seq<char>) -> bool {
    ||| path_starts_with(p, "/media"@)
    ||| path_starts_with(p, "/run/media"@)
    ||| path_starts_with(p, "/mnt"@)
}

/// The entry of one `/proc/mounts` line: none when it has fewer than four
/// white-space-separated fields; otherwise device, mount point, type and
/// comma-separated options, with the derived flags.
pub open spec fn parse_mount_line(line: Seq<char>) -> Option<MountEntryView> {
    let parts = split_fields(line, SplitMode::Whitespace);
    if parts.len() < 4 {
        None
    } else {
        let opts = dedup(split_fields(parts[3], SplitMode::Comma));
        Some(
            MountEntryView {
                device: parts[0],
                mount_point: parts[1],
                fs_type: parts[2],
                options: opts,
                is_removable: removable_location(parts[1]) || opts.contains("user"@)
                    || opts.contains("users"@),
                is_btrfs: parts[2] == "btrfs"@,
                is_real_storage: views_of(REAL_FS_TYPES@).contains(parts[2]),
            },
        )
    }
}

/// The entries of a sequence of lines, skipping those that do not parse.
pub open spec fn parse_mount_lines(lines: Seq<Seq<char>>) -> Seq<MountEntryView>
    decreases lines.len(),
{
    if lines.len() == 0 {
        seq![]
    } else {
        let prev = parse_mount_lines(lines.drop_last());
        match parse_mount_line(lines.last()) {
            Some(e) => prev.push(e),
            None => prev,
        }
    }
}

/// The length of a path in UTF-8 bytes (as `str::len` reports it).
pub open spec fn byte_len(s: Seq<char>) -> int {
    (encode_utf8(s).len() as usize) as int
}

/// The best mount among the first `n`: the last listed of the longest (in
/// bytes, and longer than zero) mount points that `path` starts with, with its
/// length. A later mount over the same point hides the earlier one.
pub open spec fn best_mount_upto(es: Seq<MountEntryView>, path: Seq<char>, n: int) -> (Option<int>, int)
    decreases n,
{
    if n <= 0 {
        (None, 0)
    } else {
        let (b, l) = best_mount_upto(es, path, n - 1);
        let e = es[n - 1];
        if path_starts_with(path, e.mount_point) && byte_len(e.mount_point) > 0 && byte_len(
            e.mount_point,
        ) >= l {
            (Some(n - 1), byte_len(e.mount_point))
        } else {
            (b, l)
        }
    }
}

/// `path` lies on a virtual file system: the mount it belongs to (the
/// longest mount point it starts with) has a virtual file system type.
pub open spec fn on_virtual_fs(es: Seq<MountEntryView>, path: Seq<char>) -> bool {
    match best_mount_upto(es, path, es.len() as int).0 {
        Some(i) => views_of(VIRTUAL_FS_TYPES@).contains(es[i].fs_type),
        None => false,
    }
}

/// The mount points of the removable real-storage mounts, in order.
pub open spec fn removable_points(es: Seq<MountEntryView>) -> Seq<Seq<char>>
    decreases es.len(),
{
    if es.len() == 0 {
        seq![]
    } else {
        let prev = removable_points(es.drop_last());
        let e = es.last();
        if e.is_removable && e.is_real_storage {
            prev.push(e.mount_point)
        } else {
            prev
        }
    }
}

/// The current mount points.
#[derive(Debug, Clone)]
pub struct MountTable {
    pub entries: Vec<MountEntry>,
}

pub open spec fn mount_views(v: Seq<MountEntry>) -> Seq<MountEntryView> {
    v.map_values(|e: MountEntry| e@)
}

impl View for MountTable {
    type V = Seq<MountEntryView>;

    open spec fn view(&self) -> Seq<MountEntryView> {
        mount_views(self.entries@)
    }
}

fn contains_string(v: &Vec<String>, s: &str) -> (res: bool)
    ensures
        res == string_views(v@).contains(s@),
{
    let mut i: usize = 0;
    while i < v.len()
        invariant
            i <= v@.len(),
            forall|j: int| 0 <= j < i ==> v@[j]@ != s@,
        decreases v@.len() - i,
    {
        if str_equal(v[i].as_str(), s) {
            assert(string_views(v@)[i as int] == s@);
            return true;
        }
        i += 1;
    }
    assert forall|j: int| 0 <= j < v@.len() implies #[trigger] string_views(v@)[j] != s@ by {}
    false
}

/// The distinct fields, in order of first appearance, as strings.
fn dedup_fields(fields: &Vec<Vec<char>>) -> (res: Vec<String>)
    ensures
        string_views(res@) == dedup(views(fields@)),
{
    let mut out: Vec<String> = Vec::new();
    let mut i: usize = 0;
    let ghost f = views(fields@);
    while i < fields.len()
        invariant
            i <= fields@.len(),
            f == views(fields@),
            string_views(out@) == dedup(f.take(i as int)),
        decreases fields@.len() - i,
    {
        assert(f.take(i + 1).drop_last() =~= f.take(i as int));
        assert(f.take(i + 1).last() == fields@[i as int]@);
        let s = string_from_chars(fields[i].as_slice());
        if !contains_string(&out, s.as_str()) {
            let ghost before = string_views(out@);
            out.push(s);
            assert(string_views(out@) =~= before.push(fields@[i as int]@));
        }
        i += 1;
    }
    assert(f.take(fields@.len() as int) =~= f);
    out
}

/// Mount points under `/media`, `/run/media` or `/mnt`.
fn in_removable_location(p: &str) -> (res: bool)
    ensures
        res == removable_location(p@),
{
    starts_with_path(p, "/media") || starts_with_path(p, "/run/media") || starts_with_path(
        p,
        "/mnt",
    )
}

/// Parses one `/proc/mounts` line.
pub fn parse_line(line: &str) -> (res: Option<MountEntry>)
    ensures
        match res {
            Some(e) => parse_mount_line(line@) == Some(e@),
            None => parse_mount_line(line@) is None,
        },
{
    let cs = chars_of(line);
    let parts = split_chars(cs.as_slice(), SplitMode::Whitespace);
    if parts.len() < 4 {
        return None;
    }
    let device = string_from_chars(parts[0].as_slice());
    let mount_point = string_from_chars(parts[1].as_slice());
    let fs_type = string_from_chars(parts[2].as_slice());
    let fields = split_chars(parts[3].as_slice(), SplitMode::Comma);
    let options = dedup_fields(&fields);
    let is_btrfs = str_equal(fs_type.as_str(), "btrfs");
    let fs_chars = chars_of(fs_type.as_str());
    let is_real_storage = in_list(fs_chars.as_slice(), REAL_FS_TYPES.as_slice());
    let is_removable = in_removable_location(mount_point.as_str()) || contains_string(
        &options,
        "user",
    ) || contains_string(&options, "users");
    Some(
        MountEntry {
            device,
            mount_point,
            fs_type,
            options,
            is_removable,
            is_btrfs,
            is_real_storage,
        },
    )
}

impl MountTable {
    /// The table of the mounts that `lines` (the lines of `/proc/mounts`)
    /// describe; lines with fewer than four fields are skipped.
    pub fn from_lines(lines: &[String]) -> (res: MountTable)
        ensures
            res@ == parse_mount_lines(lines@.map_values(|l: String| l@)),
    {
        let mut entries: Vec<MountEntry> = Vec::new();
        let ghost ls = lines@.map_values(|l: String| l@);
        let mut i: usize = 0;
        while i < lines.len()
            invariant
                i <= lines@.len(),
                ls == lines@.map_values(|l: String| l@),
                mount_views(entries@) == parse_mount_lines(ls.take(i as int)),
            decreases lines@.len() - i,
        {
            assert(ls.take(i + 1).drop_last() =~= ls.take(i as int));
            assert(ls.take(i + 1).last() == lines@[i as int]@);
            match parse_line(lines[i].as_str()) {
                Some(e) => {
                    let ghost before = mount_views(entries@);
                    let ghost ev = e@;
                    entries.push(e);
                    assert(mount_views(entries@) =~= before.push(ev));
                },
                None => {},
            }
            i += 1;
        }
        assert(ls.take(lines@.len() as int) =~= ls);
        MountTable { entries }
    }

    /// Whether `path` is located on a virtual/pseudo filesystem.
    pub fn is_virtual_fs(&self, path: &str) -> (res: bool)
        ensures
            res == on_virtual_fs(self@, path@),
    {
        let mut best: Option<usize> = None;
        let mut best_len: usize = 0;
        let mut i: usize = 0;
        let ghost es = self@;
        while i < self.entries.len()
            invariant
                i <= self.entries@.len(),
                es == self@,
                best_mount_upto(es, path@, i as int) == (
                    match best {
                        Some(b) => Some(b as int),
                        None => None::<int>,
                    },
                    best_len as int,
                ),
                best matches Some(b) ==> b < i,
            decreases self.entries@.len() - i,
        {
            let entry = &self.entries[i];
            assert(es[i as int] == entry@);
            if starts_with_path(path, entry.mount_point.as_str()) {
                let mp: &str = entry.mount_point.as_str();
                let len = mp.len();
                assert(len as int == byte_len(entry.mount_point@));
                if len > 0 && len >= best_len {
                    best_len = len;
                    best = Some(i);
                }
            }
            i += 1;
        }
        match best {
            Some(b) => {
                let fs = chars_of(self.entries[b].fs_type.as_str());
                in_list(fs.as_slice(), VIRTUAL_FS_TYPES.as_slice())
            },
            None => false,
        }
    }

    /// Whether `path` is under `/media`, `/run/media` or `/mnt`.
    pub fn is_removable_drive(&self, path: &str) -> (res: bool)
        ensures
            res == removable_location(path@),
    {
        in_removable_location(path)
    }

    /// The mount points of all removable real-storage mounts.
    pub fn removable_mounts(&self) -> (res: Vec<String>)
        ensures
            string_views(res@) == removable_points(self@),
    {
        let mut out: Vec<String> = Vec::new();
        let mut i: usize = 0;
        let ghost es = self@;
        while i < self.entries.len()
            invariant
                i <= self.entries@.len(),
                es == self@,
                string_views(out@) == removable_points(es.take(i as int)),
            decreases self.entries@.len() - i,
        {
            let e = &self.entries[i];
            assert(es.take(i + 1).drop_last() =~= es.take(i as int));
            assert(es.take(i + 1).last() == e@);
            if e.is_removable && e.is_real_storage {
                let ghost before = string_views(out@);
                out.push(e.mount_point.clone());
                assert(string_views(out@) =~= before.push(e.mount_point@));
            }
            i += 1;
        }
        assert(es.take(self.entries@.len() as int) =~= es);
        out
    }
}

impl Default for MountTable {
    fn default() -> (res: Self)
        ensures
            res@ == Seq::<MountEntryView>::empty(),
    {
        let res = MountTable { entries: Vec::new() };
        assert(res@ =~= Seq::<MountEntryView>::empty());
        res
    }
}


proof fn lemma_push_contains(t: Seq<Seq<char>>, l: Seq<char>, x: Seq<char>)
    ensures
        t.push(l).contains(x) <==> (t.contains(x) || x == l),
{
    if t.contains(x) {
        let k = choose|k: int| 0 <= k < t.len() && t[k] == x;
        assert(t.push(l)[k] == x);
    }
    if x == l {
        assert(t.push(l)[t.len() as int] == x);
    }
    if t.push(l).contains(x) {
        let k = choose|k: int| 0 <= k < t.len() + 1 && t.push(l)[k] == x;
        if k < t.len() {
            assert(t[k] == x);
        }
    }
}

/// Deduplication keeps every field and repeats none.
pub proof fn law_dedup_keeps_each_once(s: Seq<Seq<char>>)
    ensures
        forall|x: Seq<char>| dedup(s).contains(x) <==> s.contains(x),
        forall|i: int, j: int|
            0 <= i < j < dedup(s).len() ==> #[trigger] dedup(s)[i] != #[trigger] dedup(s)[j],
    decreases s.len(),
{
    if s.len() > 0 {
        let t = s.drop_last();
        let l = s.last();
        law_dedup_keeps_each_once(t);
        let d = dedup(t);
        assert(s =~= t.push(l));
        assert forall|x: Seq<char>| dedup(s).contains(x) <==> s.contains(x) by {
            assert(d.contains(x) <==> t.contains(x));
            lemma_push_contains(t, l, x);
            lemma_push_contains(d, l, x);
        }
        if !d.contains(l) {
            assert forall|i: int, j: int|
                0 <= i < j < dedup(s).len() implies #[trigger] dedup(s)[i] != #[trigger] dedup(
                s,
            )[j] by {
                if j == d.len() {
                    assert(dedup(s)[i] == d[i]);
                } else {
                    assert(dedup(s)[i] == d[i] && dedup(s)[j] == d[j]);
                }
            }
        }
    }
}

/// The mount a path is judged by is the visible one it lies under: the
/// chosen mount point is a prefix of the path, no mount point among the first
/// `n` that is a prefix is longer (in bytes), and none listed after the chosen
/// one is as long (a later mount over the same point hides the earlier);
/// with none chosen, no mount point with at least one byte is a prefix.
pub proof fn law_best_mount_is_longest(es: Seq<MountEntryView>, path: Seq<char>, n: int)
    requires
        0 <= n <= es.len(),
    ensures
        match best_mount_upto(es, path, n).0 {
            Some(i) => 0 <= i < n && path_starts_with(path, es[i].mount_point) && byte_len(
                es[i].mount_point,
            ) == best_mount_upto(es, path, n).1,
            None => best_mount_upto(es, path, n).1 == 0,
        },
        forall|j: int|
            0 <= j < n && path_starts_with(path, #[trigger] es[j].mount_point) && byte_len(
                es[j].mount_point,
            ) > 0 ==> byte_len(es[j].mount_point) <= best_mount_upto(es, path, n).1,
        best_mount_upto(es, path, n).0 matches Some(i) ==> forall|j: int|
            i < j < n && path_starts_with(path, #[trigger] es[j].mount_point) && byte_len(
                es[j].mount_point,
            ) > 0 ==> byte_len(es[j].mount_point) < best_mount_upto(es, path, n).1,
    decreases n,
{
    if n > 0 {
        law_best_mount_is_longest(es, path, n - 1);
    }
}

/// Some removable real-storage mount is mounted at `p`.
pub open spec fn removable_storage_point(es: Seq<MountEntryView>, p: Seq<char>) -> bool {
    exists|i: int|
        0 <= i < es.len() && (#[trigger] es[i]).is_removable && es[i].is_real_storage
            && es[i].mount_point == p
}

/// The removable mounts listed are exactly the removable real-storage ones:
/// each listed point is the mount point of such a mount, and each such mount
/// is listed.
pub proof fn law_removable_points_exact(es: Seq<MountEntryView>)
    ensures
        forall|k: int|
            0 <= k < removable_points(es).len() ==> removable_storage_point(
                es,
                #[trigger] removable_points(es)[k],
            ),
        forall|i: int|
            0 <= i < es.len() && (#[trigger] es[i]).is_removable && es[i].is_real_storage
                ==> removable_points(es).contains(es[i].mount_point),
    decreases es.len(),
{
    if es.len() > 0 {
        let d = es.drop_last();
        let l = es.last();
        law_removable_points_exact(d);
        let r = removable_points(es);
        let rd = removable_points(d);
        let takes = l.is_removable && l.is_real_storage;
        if takes {
            assert(r == rd.push(l.mount_point));
        } else {
            assert(r == rd);
        }
        assert forall|k: int| 0 <= k < r.len() implies removable_storage_point(
            es,
            #[trigger] r[k],
        ) by {
            if k < rd.len() {
                assert(r[k] == rd[k]);
                assert(rd[k] == rd[k]);
                assert(removable_storage_point(d, rd[k]));
                let i = choose|i: int|
                    0 <= i < d.len() && (#[trigger] d[i]).is_removable && d[i].is_real_storage
                        && d[i].mount_point == rd[k];
                assert(es[i] == d[i]);
            } else {
                assert(r[k] == l.mount_point);
                assert(es[es.len() - 1] == l);
            }
        }
        assert forall|i: int|
            0 <= i < es.len() && (#[trigger] es[i]).is_removable && es[i].is_real_storage
                implies r.contains(es[i].mount_point) by {
            if i < d.len() {
                assert(d[i] == es[i]);
                assert(rd.contains(d[i].mount_point));
                lemma_push_contains(rd, l.mount_point, es[i].mount_point);
            } else {
                assert(es[i] == l);
                lemma_push_contains(rd, l.mount_point, es[i].mount_point);
            }
        }
    } else {
        assert(removable_points(es).len() == 0);
    }
}

} // verus!

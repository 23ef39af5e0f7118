//! Unix path semantics over strings: components, equality, prefixes,
//! file name, parent and joining, following `std::path` on Unix.
use vstd::prelude::*;
use crate::text::{SplitMode, keeps_piece, split_fields, split_state, split_chars, chars_of, string_from_chars, chars_equal, views};

verus! {

/// The component that stands for a leading root directory.
pub open spec fn root_marker() -> Seq<char> {
    seq!['/']
}

/// The component that stands for a leading `.` of a relative path.
pub open spec fn cur_marker() -> Seq<char> {
    seq!['.']
}

pub open spec fn has_root(s: Seq<char>) -> bool {
    s.len() > 0 && s[0] == '/'
}

/// A relative path whose first segment is `.` keeps it as a component.
pub open spec fn has_cur_dir(s: Seq<char>) -> bool {
    !has_root(s) && s.len() > 0 && s[0] == '.' && (s.len() == 1 || s[1] == '/')
}

/// The non-empty, non-`.` segments of a path.
pub open spec fn normal_parts(s: Seq<char>) -> Seq<Seq<char>> {
    split_fields(s, SplitMode::PathSep)
}

/// The components of a path, as `Path::components` yields them on Unix:
/// an optional root, an optional leading `.`, then the other segments.
pub open spec fn components(s: Seq<char>) -> Seq<Seq<char>> {
    (if has_root(s) { seq![root_marker()] } else { seq![] }) + (if has_cur_dir(s) {
        seq![cur_marker()]
    } else {
        seq![]
    }) + normal_parts(s)
}

/// Path equality, as `Path`'s `==` decides it: equal components.
pub open spec fn same_path(a: Seq<char>, b: Seq<char>) -> bool {
    components(a) == components(b)
}

/// `Path::starts_with`: the components of `base` are a prefix of those of `p`.
pub open spec fn path_starts_with(p: Seq<char>, base: Seq<char>) -> bool {
    components(base).len() <= components(p).len() && components(p).take(
        components(base).len() as int,
    ) == components(base)
}

/// Joins parts with `/` between them.
pub open spec fn join_parts(parts: Seq<Seq<char>>) -> Seq<char>
    decreases parts.len(),
{
    if parts.len() == 0 {
        seq![]
    } else if parts.len() == 1 {
        parts[0]
    } else {
        join_parts(parts.drop_last()) + seq!['/'] + parts.last()
    }
}

/// Writes a component list back as a path string.
pub open spec fn render(comps: Seq<Seq<char>>) -> Seq<char> {
    if comps.len() > 0 && comps[0] == root_marker() {
        seq!['/'] + join_parts(comps.drop_first())
    } else {
        join_parts(comps)
    }
}

/// The canonical spelling of a path: its components written back.
pub open spec fn path_key(s: Seq<char>) -> Seq<char> {
    render(components(s))
}

/// `Path::file_name`: the last component, unless it is `..` or there is none.
pub open spec fn file_name_of(s: Seq<char>) -> Option<Seq<char>> {
    let n = normal_parts(s);
    if n.len() > 0 && n.last() != seq!['.', '.'] {
        Some(n.last())
    } else {
        None
    }
}

/// `Path::parent`: the text before the last component, without the
/// separators and `.` segments that end it; empty for a lone leading `.`;
/// none for a root or an empty path.
pub open spec fn parent_of(s: Seq<char>) -> Option<Seq<char>> {
    let b = body_start(s);
    if normal_parts(s).len() > 0 {
        let t = trim_back(s, b);
        Some(trim_back(t.subrange(0, cut_point(t, b)), b))
    } else if has_cur_dir(s) {
        Some(seq![])
    } else {
        None
    }
}

/// `PathBuf::push` on Unix: an absolute `name` replaces `base`; otherwise a
/// separator is added when `base` is non-empty and does not end with one.
pub open spec fn join_path(base: Seq<char>, name: Seq<char>) -> Seq<char> {
    if has_root(name) {
        name
    } else if base.len() > 0 && base.last() != '/' {
        base + seq!['/'] + name
    } else {
        base + name
    }
}

fn root_of(s: &[char]) -> (res: bool)
    ensures
        res == has_root(s@),
{
    s.len() > 0 && s[0] == '/'
}

fn cur_dir_of(s: &[char]) -> (res: bool)
    ensures
        res == has_cur_dir(s@),
{
    !root_of(s) && s.len() > 0 && s[0] == '.' && (s.len() == 1 || s[1] == '/')
}

/// The components of the path `p`.
pub fn components_of(p: &str) -> (res: Vec<Vec<char>>)
    ensures
        views(res@) == components(p@),
{
    let s = chars_of(p);
    let parts = split_chars(s.as_slice(), SplitMode::PathSep);
    let mut res: Vec<Vec<char>> = Vec::new();
    if root_of(s.as_slice()) {
        let mut r: Vec<char> = Vec::new();
        r.push('/');
        assert(r@ =~= root_marker());
        res.push(r);
    }
    if cur_dir_of(s.as_slice()) {
        let mut r: Vec<char> = Vec::new();
        r.push('.');
        assert(r@ =~= cur_marker());
        res.push(r);
    }
    let ghost head = views(res@);
    assert(head =~= (if has_root(p@) { seq![root_marker()] } else { seq![] }) + (if has_cur_dir(
        p@,
    ) {
        seq![cur_marker()]
    } else {
        seq![]
    }));
    let mut i: usize = 0;
    let n = parts.len();
    let mut parts = parts;
    let ghost all = views(parts@);
    while i < n
        invariant
            n == parts@.len(),
            i <= n,
            views(parts@) == all,
            all == normal_parts(p@),
            views(res@) == head + all.take(i as int),
        decreases n - i,
    {
        let mut piece: Vec<char> = Vec::new();
        append_chars(&mut piece, &parts[i]);
        assert(piece@ =~= all[i as int]);
        let ghost before = views(res@);
        res.push(piece);
        assert(views(res@) =~= before.push(all[i as int]));
        assert(all.take(i + 1) =~= all.take(i as int).push(all[i as int]));
        assert(views(res@) =~= head + all.take(i + 1));
        i += 1;
    }
    assert(all.take(n as int) =~= all);
    res
}

/// Appends `part` to `out`.
fn append_chars(out: &mut Vec<char>, part: &Vec<char>)
    ensures
        final(out)@ == old(out)@ + part@,
{
    let mut i: usize = 0;
    while i < part.len()
        invariant
            i <= part.len(),
            out@ == old(out)@ + part@.take(i as int),
        decreases part.len() - i,
    {
        out.push(part[i]);
        i += 1;
        assert(out@ =~= old(out)@ + part@.take(i as int));
    }
    assert(part@.take(part.len() as int) == part@);
}

/// Joins `parts[from..]` with `/`.
fn join_from(parts: &Vec<Vec<char>>, from: usize) -> (res: Vec<char>)
    requires
        from <= parts@.len(),
    ensures
        res@ == join_parts(views(parts@).subrange(from as int, parts@.len() as int)),
{
    let mut out: Vec<char> = Vec::new();
    let mut i: usize = from;
    let ghost all = views(parts@);
    while i < parts.len()
        invariant
            from <= i <= parts@.len(),
            all == views(parts@),
            out@ == join_parts(all.subrange(from as int, i as int)),
        decreases parts.len() - i,
    {
        let ghost prev = all.subrange(from as int, i as int);
        let ghost next = all.subrange(from as int, i + 1);
        assert(next.drop_last() =~= prev);
        assert(next.last() == parts@[i as int]@);
        if i > from {
            out.push('/');
        } else {
            assert(next =~= seq![parts@[i as int]@]);
        }
        append_chars(&mut out, &parts[i]);
        if i > from {
            assert(out@ =~= join_parts(prev) + seq!['/'] + parts@[i as int]@);
        } else {
            assert(prev.len() == 0);
            assert(out@ =~= parts@[i as int]@);
        }
        i += 1;
    }
    out
}

/// Writes a component list back as a path string.
pub fn render_components(comps: &Vec<Vec<char>>) -> (res: String)
    ensures
        res@ == render(views(comps@)),
{
    let ghost c = views(comps@);
    if comps.len() > 0 && comps[0].len() == 1 && comps[0][0] == '/' {
        assert(comps@[0]@ =~= root_marker());
        let rest = join_from(comps, 1);
        assert(c.subrange(1, c.len() as int) =~= c.drop_first());
        let mut out: Vec<char> = Vec::new();
        out.push('/');
        append_chars(&mut out, &rest);
        string_from_chars(out.as_slice())
    } else {
        assert(c.len() > 0 ==> c[0] != root_marker()) by {
            if c.len() > 0 && c[0] == root_marker() {
                assert(comps@[0]@.len() == 1);
                assert(comps@[0]@[0] == '/');
            }
        }
        let all = join_from(comps, 0);
        assert(c.subrange(0, c.len() as int) =~= c);
        string_from_chars(all.as_slice())
    }
}

/// The canonical spelling of the path `p`.
pub fn canonical_path(p: &str) -> (res: String)
    ensures
        res@ == path_key(p@),
{
    let comps = components_of(p);
    render_components(&comps)
}

fn component_lists_equal(a: &Vec<Vec<char>>, b: &Vec<Vec<char>>) -> (res: bool)
    ensures
        res == (views(a@) == views(b@)),
{
    if a.len() != b.len() {
        assert(views(a@).len() != views(b@).len());
        return false;
    }
    let mut i: usize = 0;
    while i < a.len()
        invariant
            a.len() == b.len(),
            i <= a.len(),
            forall|j: int| 0 <= j < i ==> a@[j]@ == b@[j]@,
        decreases a.len() - i,
    {
        if !chars_equal(a[i].as_slice(), b[i].as_slice()) {
            assert(views(a@)[i as int] != views(b@)[i as int]);
            return false;
        }
        i += 1;
    }
    assert(views(a@) =~= views(b@));
    true
}

/// `a == b` for paths: the two have the same components.
pub fn paths_equal(a: &str, b: &str) -> (res: bool)
    ensures
        res == same_path(a@, b@),
{
    let ca = components_of(a);
    let cb = components_of(b);
    component_lists_equal(&ca, &cb)
}

/// `Path::starts_with`: `base` is a whole-component prefix of `p`.
pub fn starts_with_path(p: &str, base: &str) -> (res: bool)
    ensures
        res == path_starts_with(p@, base@),
{
    let cp = components_of(p);
    let cb = components_of(base);
    if cb.len() > cp.len() {
        assert(views(cb@).len() > views(cp@).len());
        return false;
    }
    let mut i: usize = 0;
    while i < cb.len()
        invariant
            cb.len() <= cp.len(),
            i <= cb.len(),
            views(cp@) == components(p@),
            views(cb@) == components(base@),
            forall|j: int| 0 <= j < i ==> cp@[j]@ == cb@[j]@,
        decreases cb.len() - i,
    {
        if !chars_equal(cp[i].as_slice(), cb[i].as_slice()) {
            let ghost pre = views(cp@).take(cb.len() as int);
            assert(pre[i as int] != views(cb@)[i as int]);
            assert(pre != views(cb@));
            assert(!path_starts_with(p@, base@));
            return false;
        }
        i += 1;
    }
    assert(views(cp@).take(cb.len() as int) =~= views(cb@));
    true
}

/// `Path::file_name`.
pub fn file_name(p: &str) -> (res: Option<String>)
    ensures
        match res {
            Some(n) => file_name_of(p@) == Some(n@),
            None => file_name_of(p@) is None,
        },
{
    let s = chars_of(p);
    let parts = split_chars(s.as_slice(), SplitMode::PathSep);
    let ghost n = normal_parts(p@);
    if parts.len() == 0 {
        return None;
    }
    let last = &parts[parts.len() - 1];
    assert(last@ == n.last());
    if last.len() == 2 && last[0] == '.' && last[1] == '.' {
        assert(n.last() =~= seq!['.', '.']);
        None
    } else {
        assert(n.last() != seq!['.', '.']) by {
            if n.last() == seq!['.', '.'] {
                assert(last@.len() == 2 && last@[0] == '.' && last@[1] == '.');
            }
        }
        Some(string_from_chars(last.as_slice()))
    }
}

/// The position of the last `/` among the first `n` characters of `s`.
fn last_slash_upto(s: &[char], n: usize) -> (res: Option<usize>)
    requires
        n <= s@.len(),
    ensures
        match res {
            Some(k) => last_slash(s@.take(n as int)) == k as int,
            None => last_slash(s@.take(n as int)) == -1,
        },
{
    let mut i: usize = n;
    while i > 0
        invariant
            i <= n <= s@.len(),
            last_slash(s@.take(n as int)) == last_slash(s@.take(i as int)),
        decreases i,
    {
        assert(s@.take(i as int).drop_last() =~= s@.take(i - 1));
        if s[i - 1] == '/' {
            return Some(i - 1);
        }
        i -= 1;
    }
    None
}

/// The length of `trim_back` of the first `n` characters of `s`.
fn trim_len(s: &[char], n: usize, b: usize) -> (m: usize)
    requires
        n <= s@.len(),
        b <= 1,
    ensures
        m <= n,
        s@.take(m as int) == trim_back(s@.take(n as int), b as int),
{
    let mut m: usize = n;
    while m > b
        invariant
            m <= n <= s@.len(),
            b <= 1,
            trim_back(s@.take(m as int), b as int) == trim_back(s@.take(n as int), b as int),
        decreases m,
    {
        let ghost w = s@.take(m as int);
        proof {
            lemma_last_slash(w);
        }
        let (start, cut) = match last_slash_upto(s, m) {
            Some(k) => if k >= b {
                (k + 1, k)
            } else {
                (b, b)
            },
            None => (b, b),
        };
        assert(cut_point(w, b as int) == cut as int);
        assert(last_seg(w, b as int) =~= s@.subrange(start as int, m as int));
        assert(w.subrange(0, cut as int) =~= s@.take(cut as int));
        if m - start == 0 || (m - start == 1 && s[start] == '.') {
            assert(last_seg(w, b as int).len() == 0 || last_seg(w, b as int) =~= seq!['.']);
            m = cut;
        } else {
            assert(last_seg(w, b as int) != seq!['.']) by {
                if last_seg(w, b as int) == seq!['.'] {
                    assert(s@[start as int] == last_seg(w, b as int)[0]);
                }
            }
            return m;
        }
    }
    m
}

/// `Path::parent` on Unix.
pub fn parent(p: &str) -> (res: Option<String>)
    ensures
        match res {
            Some(q) => parent_of(p@) == Some(q@),
            None => parent_of(p@) is None,
        },
{
    let s = chars_of(p);
    let parts = split_chars(s.as_slice(), SplitMode::PathSep);
    let b: usize = if root_of(s.as_slice()) || cur_dir_of(s.as_slice()) {
        1
    } else {
        0
    };
    if parts.len() == 0 {
        if cur_dir_of(s.as_slice()) {
            let e = String::new();
            return Some(e);
        }
        return None;
    }
    assert(s@.take(s@.len() as int) =~= p@);
    let t = trim_len(s.as_slice(), s.len(), b);
    let ghost tv = s@.take(t as int);
    proof {
        lemma_trim_back(p@, b as int);
        lemma_normal_parts_tiny();
        lemma_last_slash(tv);
        if t <= b {
            if b == 1 {
                if has_root(tv) {
                    assert(tv =~= seq!['/']);
                } else {
                    assert(tv =~= seq!['.']);
                }
            } else {
                assert(tv =~= seq![]);
            }
        }
    }
    let cut = match last_slash_upto(s.as_slice(), t) {
        Some(k) => if k >= b {
            k
        } else {
            b
        },
        None => b,
    };
    assert(cut_point(tv, b as int) == cut as int);
    assert(tv.subrange(0, cut as int) =~= s@.take(cut as int));
    let q = trim_len(s.as_slice(), cut, b);
    let mut out: Vec<char> = Vec::new();
    let mut i: usize = 0;
    while i < q
        invariant
            i <= q <= s@.len(),
            out@ == s@.take(i as int),
        decreases q - i,
    {
        out.push(s[i]);
        assert(out@ =~= s@.take(i + 1));
        i += 1;
    }
    Some(string_from_chars(out.as_slice()))
}

/// `base.join(name)` with `PathBuf::push` semantics on Unix.
pub fn join(base: &str, name: &str) -> (res: String)
    ensures
        res@ == join_path(base@, name@),
{
    let b = chars_of(base);
    let n = chars_of(name);
    if root_of(n.as_slice()) {
        return string_from_chars(n.as_slice());
    }
    let mut out = b.clone();
    if b.len() > 0 && b[b.len() - 1] != '/' {
        out.push('/');
    }
    append_chars(&mut out, &n);
    string_from_chars(out.as_slice())
}

} // verus!

verus! {

/// Every part is non-empty and free of `/`.
pub open spec fn slash_free_parts(parts: Seq<Seq<char>>) -> bool {
    forall|i: int| 0 <= i < parts.len() ==> #[trigger] parts[i].len() > 0 && !parts[i].contains('/')
}

proof fn lemma_split_state_parts(s: Seq<char>)
    ensures
        slash_free_parts(split_state(s, SplitMode::PathSep).0),
        !split_state(s, SplitMode::PathSep).1.contains('/'),
    decreases s.len(),
{
    if s.len() > 0 {
        lemma_split_state_parts(s.drop_last());
        let (done, cur) = split_state(s.drop_last(), SplitMode::PathSep);
        if s.last() != '/' {
            assert forall|c: char| cur.push(s.last()).contains(c) implies c != '/' by {
                let k = choose|k: int| 0 <= k < cur.push(s.last()).len() && cur.push(s.last())[k] == c;
                if k < cur.len() {
                    assert(cur.contains(cur[k]));
                }
            }
        }
    }
}

proof fn lemma_normal_parts_wf(s: Seq<char>)
    ensures
        slash_free_parts(normal_parts(s)),
{
    lemma_split_state_parts(s);
}

/// The index of the last `/` in `s`, or -1.
pub open spec fn last_slash(s: Seq<char>) -> int
    decreases s.len(),
{
    if s.len() == 0 {
        -1
    } else if s.last() == '/' {
        s.len() - 1
    } else {
        last_slash(s.drop_last())
    }
}

proof fn lemma_last_slash_free(s: Seq<char>)
    requires
        !s.contains('/'),
    ensures
        last_slash(s) == -1,
    decreases s.len(),
{
    if s.len() > 0 {
        assert(s[s.len() - 1] == s.last());
        assert(!s.drop_last().contains('/')) by {
            if s.drop_last().contains('/') {
                let k = choose|k: int| 0 <= k < s.drop_last().len() && s.drop_last()[k] == '/';
                assert(s[k] == '/');
            }
        }
        lemma_last_slash_free(s.drop_last());
    }
}

proof fn lemma_last_slash_suffix(p: Seq<char>, a: Seq<char>)
    requires
        !a.contains('/'),
    ensures
        last_slash(p + seq!['/'] + a) == p.len(),
    decreases a.len(),
{
    let s = p + seq!['/'] + a;
    if a.len() == 0 {
        assert(s.last() == '/');
    } else {
        assert(s.last() == a.last());
        assert(a[a.len() - 1] == a.last());
        assert(s.drop_last() =~= p + seq!['/'] + a.drop_last());
        assert(!a.drop_last().contains('/')) by {
            if a.drop_last().contains('/') {
                let k = choose|k: int| 0 <= k < a.drop_last().len() && a.drop_last()[k] == '/';
                assert(a[k] == '/');
            }
        }
        lemma_last_slash_suffix(p, a.drop_last());
    }
}

proof fn lemma_join_shape(x: Seq<Seq<char>>)
    requires
        slash_free_parts(x),
        x.len() >= 1,
    ensures
        x.len() == 1 ==> last_slash(join_parts(x)) == -1,
        x.len() >= 2 ==> last_slash(join_parts(x)) == join_parts(x.drop_last()).len(),
        join_parts(x).len() >= x.last().len() > 0,
        x.len() >= 2 ==> join_parts(x).len() == join_parts(x.drop_last()).len() + 1 + x.last().len(),
{
    assert(x[x.len() - 1] == x.last());
    if x.len() == 1 {
        lemma_last_slash_free(x[0]);
    } else {
        lemma_last_slash_suffix(join_parts(x.drop_last()), x.last());
    }
}

proof fn lemma_join_injective(x: Seq<Seq<char>>, y: Seq<Seq<char>>)
    requires
        slash_free_parts(x),
        slash_free_parts(y),
        join_parts(x) == join_parts(y),
    ensures
        x == y,
    decreases x.len() + y.len(),
{
    if x.len() == 0 {
        if y.len() > 0 {
            lemma_join_shape(y);
        }
        assert(y.len() == 0);
        assert(x =~= y);
    } else if y.len() == 0 {
        lemma_join_shape(x);
    } else {
        lemma_join_shape(x);
        lemma_join_shape(y);
        let s = join_parts(x);
        if x.len() == 1 || y.len() == 1 {
            assert(x.len() == 1 && y.len() == 1);
            assert(x =~= seq![x[0]]);
            assert(y =~= seq![y[0]]);
        } else {
            let px = join_parts(x.drop_last());
            let py = join_parts(y.drop_last());
            assert(px.len() == py.len());
            assert(s =~= px + seq!['/'] + x.last());
            assert(s =~= py + seq!['/'] + y.last());
            assert(px =~= s.subrange(0, px.len() as int));
            assert(py =~= s.subrange(0, py.len() as int));
            assert(x.last() =~= s.subrange(px.len() as int + 1, s.len() as int));
            assert(y.last() =~= s.subrange(py.len() as int + 1, s.len() as int));
            assert(slash_free_parts(x.drop_last())) by {
                assert forall|i: int| 0 <= i < x.drop_last().len() implies #[trigger] x.drop_last()[i].len() > 0
                    && !x.drop_last()[i].contains('/') by {
                    assert(x.drop_last()[i] == x[i]);
                }
            }
            assert(slash_free_parts(y.drop_last())) by {
                assert forall|i: int| 0 <= i < y.drop_last().len() implies #[trigger] y.drop_last()[i].len() > 0
                    && !y.drop_last()[i].contains('/') by {
                    assert(y.drop_last()[i] == y[i]);
                }
            }
            lemma_join_injective(x.drop_last(), y.drop_last());
            assert(x =~= x.drop_last().push(x.last()));
            assert(y =~= y.drop_last().push(y.last()));
        }
    }
}

/// The components of a path are its root marker (if any) followed by parts
/// that are non-empty and free of `/`.
proof fn lemma_components_shape(s: Seq<char>)
    ensures
        has_root(s) ==> components(s)[0] == root_marker() && slash_free_parts(
            components(s).drop_first(),
        ),
        !has_root(s) ==> slash_free_parts(components(s)),
{
    lemma_normal_parts_wf(s);
    let n = normal_parts(s);
    let c = components(s);
    if has_root(s) {
        assert(c =~= seq![root_marker()] + n);
        assert(c.drop_first() =~= n);
    } else if has_cur_dir(s) {
        assert(c =~= seq![cur_marker()] + n);
        assert forall|i: int| 0 <= i < c.len() implies #[trigger] c[i].len() > 0 && !c[i].contains('/') by {
            if i == 0 {
                assert(c[0] == cur_marker());
                assert(!cur_marker().contains('/')) by {
                    if cur_marker().contains('/') {
                        let k = choose|k: int| 0 <= k < cur_marker().len() && cur_marker()[k] == '/';
                    }
                }
            } else {
                assert(c[i] == n[i - 1]);
            }
        }
    } else {
        assert(c =~= n);
    }
}

/// Canonical spellings identify paths: two paths are equal (have the same
/// components) exactly when their canonical spellings are equal.
pub proof fn lemma_path_key_identifies(a: Seq<char>, b: Seq<char>)
    ensures
        same_path(a, b) <==> path_key(a) == path_key(b),
{
    if path_key(a) == path_key(b) {
        lemma_components_shape(a);
        lemma_components_shape(b);
        let ca = components(a);
        let cb = components(b);
        let ka = path_key(a);
        // The canonical spelling starts with `/` exactly when there is a root.
        if has_root(a) {
            assert(ka[0] == '/');
        }
        if has_root(b) {
            assert(ka[0] == '/');
        }
        if !has_root(a) && ca.len() > 0 {
            lemma_join_shape(ca);
            assert(ca[0] != root_marker()) by {
                assert(!ca[0].contains('/'));
                assert(root_marker()[0] == '/');
            }
            lemma_join_first(ca);
        }
        if !has_root(b) && cb.len() > 0 {
            lemma_join_shape(cb);
            assert(cb[0] != root_marker()) by {
                assert(!cb[0].contains('/'));
                assert(root_marker()[0] == '/');
            }
            lemma_join_first(cb);
        }
        if has_root(a) && has_root(b) {
            assert(join_parts(ca.drop_first()) =~= ka.drop_first());
            assert(join_parts(cb.drop_first()) =~= ka.drop_first());
            lemma_join_injective(ca.drop_first(), cb.drop_first());
            assert(ca =~= seq![ca[0]] + ca.drop_first());
            assert(cb =~= seq![cb[0]] + cb.drop_first());
        } else if !has_root(a) && !has_root(b) {
            if ca.len() > 0 {
                assert(ca[0] != root_marker());
            }
            if cb.len() > 0 {
                assert(cb[0] != root_marker());
            }
            lemma_join_injective(ca, cb);
        } else if has_root(a) {
            // b has no root: its spelling cannot start with `/`.
            assert(cb.len() > 0);
        } else {
            assert(ca.len() > 0);
        }
    }
}

/// A join of slash-free parts does not start with `/`.
proof fn lemma_join_first(x: Seq<Seq<char>>)
    requires
        slash_free_parts(x),
        x.len() >= 1,
    ensures
        join_parts(x).len() > 0,
        join_parts(x)[0] == x[0][0],
        x[0][0] != '/',
    decreases x.len(),
{
    assert(x[0].len() > 0);
    assert(!x[0].contains('/'));
    assert(x[0].contains(x[0][0]));
    if x.len() > 1 {
        assert(slash_free_parts(x.drop_last())) by {
            assert forall|i: int| 0 <= i < x.drop_last().len() implies #[trigger] x.drop_last()[i].len() > 0
                && !x.drop_last()[i].contains('/') by {
                assert(x.drop_last()[i] == x[i]);
            }
        }
        lemma_join_first(x.drop_last());
    }
}


/// Every part is free of `/`, non-empty and other than `.`.
pub open spec fn normal_part_list(parts: Seq<Seq<char>>) -> bool {
    &&& slash_free_parts(parts)
    &&& forall|i: int| 0 <= i < parts.len() ==> #[trigger] parts[i] != seq!['.']
}

proof fn lemma_split_state_not_dot(s: Seq<char>)
    ensures
        forall|i: int|
            0 <= i < split_state(s, SplitMode::PathSep).0.len() ==> #[trigger] split_state(
                s,
                SplitMode::PathSep,
            ).0[i] != seq!['.'],
    decreases s.len(),
{
    if s.len() > 0 {
        lemma_split_state_not_dot(s.drop_last());
        let (done, cur) = split_state(s.drop_last(), SplitMode::PathSep);
        let r = split_state(s, SplitMode::PathSep).0;
        if s.last() == '/' && keeps_piece(SplitMode::PathSep, cur) {
            assert forall|i: int| 0 <= i < r.len() implies #[trigger] r[i] != seq!['.'] by {
                if i < done.len() {
                    assert(r[i] == done[i]);
                } else {
                    assert(r[i] == cur);
                }
            }
        }
    }
}

proof fn lemma_normal_parts_normal(s: Seq<char>)
    ensures
        normal_part_list(normal_parts(s)),
{
    lemma_normal_parts_wf(s);
    lemma_split_state_not_dot(s);
    let (done, cur) = split_state(s, SplitMode::PathSep);
    let n = normal_parts(s);
    assert forall|i: int| 0 <= i < n.len() implies #[trigger] n[i] != seq!['.'] by {
        if i < done.len() {
            assert(n[i] == done[i]);
        }
    }
}

proof fn lemma_split_append_free(p: Seq<char>, b: Seq<char>)
    requires
        !b.contains('/'),
    ensures
        split_state(p + b, SplitMode::PathSep) == (
            split_state(p, SplitMode::PathSep).0,
            split_state(p, SplitMode::PathSep).1 + b,
        ),
    decreases b.len(),
{
    if b.len() == 0 {
        assert(p + b =~= p);
        assert(split_state(p, SplitMode::PathSep).1 + b =~= split_state(p, SplitMode::PathSep).1);
    } else {
        let bd = b.drop_last();
        assert(!bd.contains('/')) by {
            if bd.contains('/') {
                let k = choose|k: int| 0 <= k < bd.len() && bd[k] == '/';
                assert(b[k] == '/');
            }
        }
        lemma_split_append_free(p, bd);
        assert((p + b).drop_last() =~= p + bd);
        assert((p + b).last() == b.last());
        assert(b[b.len() - 1] == b.last());
        assert(split_state(p, SplitMode::PathSep).1 + bd + seq![b.last()] =~= split_state(
            p,
            SplitMode::PathSep,
        ).1 + b);
    }
}

proof fn lemma_normal_parts_slash(q: Seq<char>, b: Seq<char>)
    requires
        normal_part_list(seq![b]),
    ensures
        normal_parts(q + seq!['/'] + b) == normal_parts(q).push(b),
{
    assert(seq![b][0] == b);
    let qs = q + seq!['/'];
    assert(qs.drop_last() =~= q);
    assert(qs.last() == '/');
    lemma_split_append_free(qs, b);
    assert(seq![] + b =~= b);
}

proof fn lemma_normal_parts_single(b: Seq<char>)
    requires
        normal_part_list(seq![b]),
    ensures
        normal_parts(b) == seq![b],
{
    assert(seq![b][0] == b);
    lemma_split_append_free(seq![], b);
    assert(seq![] + b =~= b);
    assert(seq![].push(b) =~= seq![b]);
}

proof fn lemma_normal_list_sub(parts: Seq<Seq<char>>, i: int, j: int)
    requires
        normal_part_list(parts),
        0 <= i <= j <= parts.len(),
    ensures
        normal_part_list(parts.subrange(i, j)),
{
    assert forall|k: int| 0 <= k < parts.subrange(i, j).len() implies #[trigger] parts.subrange(
        i,
        j,
    )[k].len() > 0 && !parts.subrange(i, j)[k].contains('/') by {
        assert(parts.subrange(i, j)[k] == parts[i + k]);
    }
    assert forall|k: int| 0 <= k < parts.subrange(i, j).len() implies #[trigger] parts.subrange(
        i,
        j,
    )[k] != seq!['.'] by {
        assert(parts.subrange(i, j)[k] == parts[i + k]);
    }
}

proof fn lemma_normal_parts_join(q: Seq<char>, parts: Seq<Seq<char>>)
    requires
        normal_part_list(parts),
        parts.len() >= 1,
    ensures
        normal_parts(q + seq!['/'] + join_parts(parts)) == normal_parts(q) + parts,
    decreases parts.len(),
{
    if parts.len() == 1 {
        assert(parts =~= seq![parts[0]]);
        lemma_normal_parts_slash(q, parts[0]);
    } else {
        let d = parts.drop_last();
        lemma_normal_list_sub(parts, 0, parts.len() - 1);
        assert(d =~= parts.subrange(0, parts.len() - 1));
        lemma_normal_parts_join(q, d);
        lemma_normal_list_sub(parts, parts.len() - 1, parts.len() as int);
        assert(parts.subrange(parts.len() - 1, parts.len() as int) =~= seq![parts.last()]);
        assert(q + seq!['/'] + join_parts(parts) =~= (q + seq!['/'] + join_parts(d)) + seq!['/']
            + parts.last());
        lemma_normal_parts_slash(q + seq!['/'] + join_parts(d), parts.last());
        assert(normal_parts(q) + parts =~= (normal_parts(q) + d).push(parts.last()));
    }
}

proof fn lemma_join_cons(x: Seq<char>, ps: Seq<Seq<char>>)
    requires
        ps.len() >= 1,
    ensures
        join_parts(seq![x] + ps) == x + seq!['/'] + join_parts(ps),
    decreases ps.len(),
{
    let xs = seq![x] + ps;
    assert(xs.last() == ps.last());
    assert(seq![x].len() == 1 && seq![x][0] == x);
    if ps.len() == 1 {
        assert(xs.drop_last() =~= seq![x]);
        assert(ps[0] == ps.last());
        assert(join_parts(seq![x]) == x);
        assert(join_parts(xs) == x + seq!['/'] + ps.last());
    } else {
        lemma_join_cons(x, ps.drop_last());
        assert(xs.drop_last() =~= seq![x] + ps.drop_last());
        assert(join_parts(xs) =~= x + seq!['/'] + join_parts(ps.drop_last()) + seq!['/']
            + ps.last());
        assert(join_parts(ps) =~= join_parts(ps.drop_last()) + seq!['/'] + ps.last());
    }
}

proof fn lemma_normal_parts_of_join(parts: Seq<Seq<char>>)
    requires
        normal_part_list(parts),
        parts.len() >= 1,
    ensures
        normal_parts(join_parts(parts)) == parts,
        !has_root(join_parts(parts)),
        !has_cur_dir(join_parts(parts)),
{
    let x = parts[0];
    lemma_normal_list_sub(parts, 0, 1);
    assert(parts.subrange(0, 1) =~= seq![x]);
    lemma_join_first(parts);
    assert(x.len() > 0 && !x.contains('/') && x != seq!['.']);
    if parts.len() == 1 {
        assert(parts =~= seq![x]);
        lemma_normal_parts_single(x);
        if x[0] == '.' && x.len() >= 2 {
            assert(x.contains(x[1]));
        }
        if x[0] == '.' && x.len() == 1 {
            assert(x =~= seq!['.']);
        }
    } else {
        let ps = parts.drop_first();
        assert(parts =~= seq![x] + ps);
        lemma_join_cons(x, ps);
        lemma_normal_list_sub(parts, 1, parts.len() as int);
        assert(ps =~= parts.subrange(1, parts.len() as int));
        lemma_normal_parts_join(x, ps);
        lemma_normal_parts_single(x);
        assert(seq![x] + ps =~= parts);
        let s = join_parts(parts);
        assert(s =~= x + seq!['/'] + join_parts(ps));
        if x[0] == '.' {
            if x.len() == 1 {
                assert(x =~= seq!['.']);
            } else {
                assert(s[1] == x[1]);
                assert(x.contains(x[1]));
            }
        }
    }
}

/// The canonical spelling of a path is the same path.
pub proof fn law_canonical_spelling_same_path(p: Seq<char>)
    ensures
        same_path(path_key(p), p),
{
    let n = normal_parts(p);
    lemma_normal_parts_normal(p);
    let c = components(p);
    let k = path_key(p);
    if has_root(p) {
        assert(c =~= seq![root_marker()] + n);
        assert(c.drop_first() =~= n);
        assert(k =~= seq!['/'] + join_parts(n));
        if n.len() == 0 {
            assert(k =~= seq!['/']);
            reveal_with_fuel(split_state, 2);
            assert(seq!['/'].drop_last() =~= seq![]);
            assert(normal_parts(k) =~= seq![]);
        } else {
            assert(k =~= seq![] + seq!['/'] + join_parts(n));
            lemma_normal_parts_join(seq![], n);
            assert(normal_parts(seq![]) =~= seq![]);
            assert(seq![] + n =~= n);
        }
        assert(components(k) =~= c);
    } else if has_cur_dir(p) {
        assert(c =~= seq![cur_marker()] + n);
        assert(c[0] == cur_marker());
        assert(cur_marker()[0] != root_marker()[0]);
        assert(c[0] != root_marker());
        if n.len() == 0 {
            assert(c =~= seq![cur_marker()]);
            assert(k =~= seq!['.']);
            reveal_with_fuel(split_state, 2);
            assert(seq!['.'].drop_last() =~= seq![]);
            assert(normal_parts(k) =~= seq![]);
        } else {
            lemma_join_cons(cur_marker(), n);
            assert(k =~= seq!['.'] + seq!['/'] + join_parts(n));
            lemma_normal_parts_join(seq!['.'], n);
            reveal_with_fuel(split_state, 2);
            assert(seq!['.'].drop_last() =~= seq![]);
            assert(normal_parts(seq!['.']) =~= seq![]);
            assert(seq![] + n =~= n);
        }
        assert(components(k) =~= c);
    } else {
        assert(c =~= n);
        if n.len() == 0 {
            assert(k =~= seq![]);
            assert(components(k) =~= c);
        } else {
            assert(n[0] != root_marker()) by {
                assert(!n[0].contains('/'));
                assert(root_marker()[0] == '/');
            }
            lemma_normal_parts_of_join(n);
            assert(components(k) =~= c);
        }
    }
}

/// Joining a path's parent with its file name gives the path back: the
/// same path, and the parent is a prefix of the path's text.
pub proof fn law_parent_join_file_name(p: Seq<char>)
    requires
        file_name_of(p) is Some,
    ensures
        parent_of(p) is Some,
        parent_of(p)->0 == p.subrange(0, parent_of(p)->0.len() as int),
        same_path(join_path(parent_of(p)->0, file_name_of(p)->0), p),
{
    let b = body_start(p);
    let n = normal_parts(p);
    lemma_normal_parts_normal(p);
    lemma_normal_parts_tiny();
    lemma_trim_back(p, b);
    let t = trim_back(p, b);
    if t.len() <= b {
        if b == 1 {
            if has_root(t) {
                assert(t =~= seq!['/']);
            } else {
                assert(t =~= seq!['.']);
            }
        } else {
            assert(t =~= seq![]);
        }
        assert(false);
    }
    lemma_cut(t, b);
    let c = cut_point(t, b);
    let g = last_seg(t, b);
    let u = t.subrange(0, c);
    assert(keeps_piece(SplitMode::PathSep, g));
    assert(n =~= normal_parts(u).push(g));
    assert(n.last() == g);
    lemma_trim_back(u, b);
    let q = trim_back(u, b);
    assert(parent_of(p) == Some(q));
    assert(q =~= p.subrange(0, q.len() as int));
    assert(normal_parts(q) == n.drop_last());
    assert(g.len() > 0 && g != seq!['.']);
    assert(g.contains(g[0]));
    assert(g[0] != '/');
    assert(seq![g][0] == g);
    assert(normal_part_list(seq![g]));
    let full = join_path(q, g);
    assert(!has_root(g));
    if q.len() > 0 && q.last() != '/' {
        assert(full == q + seq!['/'] + g);
        lemma_normal_parts_slash(q, g);
        assert(normal_parts(full) =~= n);
        assert(full[0] == q[0]);
        if q.len() >= 2 {
            assert(full[1] == q[1]);
        } else {
            assert(full[1] == '/');
        }
    } else {
        assert(full == q + g);
        if q.len() > b {
            assert(last_seg(q, b).len() > 0);
            lemma_last_slash(q);
            if last_slash(q) >= b {
                assert(q[q.len() - 1] != '/');
            } else {
                assert(q[q.len() - 1] != '/');
            }
            assert(q.last() == q[q.len() - 1]);
        }
        assert(q.len() == b);
        if b == 1 {
            if has_cur_dir(q) {
                assert(q =~= seq!['.']);
                assert(q.last() == '.');
            }
            assert(has_root(q));
            assert(q =~= seq!['/']);
            assert(full =~= seq![] + seq!['/'] + g);
            lemma_normal_parts_slash(seq![], g);
            assert(normal_parts(full) =~= n);
        } else {
            assert(q =~= seq![]);
            assert(full =~= g);
            lemma_normal_parts_single(g);
            assert(normal_parts(full) =~= n);
            if g[0] == '.' && g.len() >= 2 {
                assert(g.contains(g[1]));
            }
            if g[0] == '.' && g.len() == 1 {
                assert(g =~= seq!['.']);
            }
        }
    }
    assert(components(full) =~= components(p));
}


/// The length of the prefix that `Path` keeps out of its body: a leading
/// root `/`, or a leading `.` of a relative path.
pub open spec fn body_start(s: Seq<char>) -> int {
    if has_root(s) || has_cur_dir(s) {
        1
    } else {
        0
    }
}

/// Where the text before the last segment of the body ends: at the last `/`
/// inside the body, or at the body's start when it has none.
pub open spec fn cut_point(s: Seq<char>, b: int) -> int {
    if last_slash(s) >= b {
        last_slash(s)
    } else {
        b
    }
}

/// The last segment of the body: what follows its last `/`.
pub open spec fn last_seg(s: Seq<char>, b: int) -> Seq<char> {
    if last_slash(s) >= b {
        s.subrange(last_slash(s) + 1, s.len() as int)
    } else {
        s.subrange(b, s.len() as int)
    }
}

/// Drops trailing segments that are empty or `.` (with their separators),
/// never cutting into the first `b` characters.
pub open spec fn trim_back(s: Seq<char>, b: int) -> Seq<char>
    decreases s.len(),
{
    if s.len() <= b || b < 0 {
        s
    } else {
        let g = last_seg(s, b);
        if g.len() == 0 || g == seq!['.'] {
            proof {
                lemma_last_slash(s);
            }
            trim_back(s.subrange(0, cut_point(s, b)), b)
        } else {
            s
        }
    }
}

/// `last_slash` finds the last `/`, if any.
pub proof fn lemma_last_slash(s: Seq<char>)
    ensures
        -1 <= last_slash(s) < s.len(),
        last_slash(s) >= 0 ==> s[last_slash(s)] == '/',
        forall|j: int| last_slash(s) < j < s.len() ==> s[j] != '/',
    decreases s.len(),
{
    if s.len() > 0 && s.last() != '/' {
        lemma_last_slash(s.drop_last());
        assert forall|j: int| last_slash(s) < j < s.len() implies s[j] != '/' by {
            if j < s.len() - 1 {
                assert(s[j] == s.drop_last()[j]);
            }
        }
    }
}

proof fn lemma_normal_parts_slash_any(q: Seq<char>, g: Seq<char>)
    requires
        !g.contains('/'),
    ensures
        normal_parts(q + seq!['/'] + g) == normal_parts(q) + (if keeps_piece(
            SplitMode::PathSep,
            g,
        ) {
            seq![g]
        } else {
            seq![]
        }),
{
    let qs = q + seq!['/'];
    assert(qs.drop_last() =~= q);
    assert(qs.last() == '/');
    lemma_split_append_free(qs, g);
    assert(seq![] + g =~= g);
    assert(q + seq!['/'] + g =~= qs + g);
}

proof fn lemma_normal_parts_tiny()
    ensures
        normal_parts(seq![]) == Seq::<Seq<char>>::empty(),
        normal_parts(seq!['/']) == Seq::<Seq<char>>::empty(),
        normal_parts(seq!['.']) == Seq::<Seq<char>>::empty(),
{
    reveal_with_fuel(split_state, 2);
    assert(seq!['/'].drop_last() =~= seq![]);
    assert(seq!['.'].drop_last() =~= seq![]);
    assert(normal_parts(seq!['/']) =~= Seq::<Seq<char>>::empty());
    assert(normal_parts(seq!['.']) =~= Seq::<Seq<char>>::empty());
}

/// Cutting off the last segment of the body: the normal parts lose that
/// segment (when it is one), and the prefix keeps its root or leading `.`.
proof fn lemma_cut(s: Seq<char>, b: int)
    requires
        b == body_start(s),
        s.len() > b,
    ensures
        b <= cut_point(s, b) < s.len(),
        !last_seg(s, b).contains('/'),
        normal_parts(s) == normal_parts(s.subrange(0, cut_point(s, b))) + (if keeps_piece(
            SplitMode::PathSep,
            last_seg(s, b),
        ) {
            seq![last_seg(s, b)]
        } else {
            seq![]
        }),
        body_start(s.subrange(0, cut_point(s, b))) == b,
{
    lemma_last_slash(s);
    lemma_normal_parts_tiny();
    let k = last_slash(s);
    let c = cut_point(s, b);
    let g = last_seg(s, b);
    let pre = s.subrange(0, c);
    if k >= 0 {
        let tail = s.subrange(k + 1, s.len() as int);
        assert(!tail.contains('/')) by {
            if tail.contains('/') {
                let j = choose|j: int| 0 <= j < tail.len() && #[trigger] tail[j] == '/';
                assert(s[k + 1 + j] == '/');
            }
        }
        assert(s =~= s.subrange(0, k) + seq!['/'] + tail);
        lemma_normal_parts_slash_any(s.subrange(0, k), tail);
    }
    if k >= b {
        assert(g == s.subrange(k + 1, s.len() as int));
        if has_root(s) {
            assert(pre[0] == '/');
        } else if has_cur_dir(s) {
            assert(s[0] == '.');
            assert(s[1] == '/');
            if c >= 2 {
                assert(pre[1] == '/');
            } else {
                assert(pre =~= seq!['.']);
            }
        } else if c >= 1 {
            assert(pre[0] == s[0]);
            if c >= 2 {
                assert(pre[1] == s[1]);
            } else {
                assert(s[1] == '/');
            }
        } else {
            assert(pre =~= seq![]);
        }
    } else if b == 0 {
        // No `/` at all: the whole path is the last segment.
        assert(k == -1);
        assert(!s.contains('/')) by {
            if s.contains('/') {
                let j = choose|j: int| 0 <= j < s.len() && #[trigger] s[j] == '/';
            }
        }
        lemma_split_append_free(seq![], s);
        assert(seq![] + s =~= s);
        assert(g =~= s);
        assert(pre =~= seq![]);
    } else {
        // Only a root with no further `/` cuts at the body's start.
        if has_cur_dir(s) {
            assert(s[1] == '/');
        }
        assert(has_root(s));
        assert(k == 0);
        assert(pre =~= seq!['/']);
        assert(s.subrange(0, 0) =~= seq![]);
    }
}

/// Trimming trailing empty and `.` segments keeps a prefix of the path with
/// the same normal parts and the same root or leading `.`; what remains
/// beyond the body's start ends in a segment that is neither empty nor `.`.
proof fn lemma_trim_back(s: Seq<char>, b: int)
    requires
        b == body_start(s),
    ensures
        trim_back(s, b).len() <= s.len(),
        trim_back(s, b) == s.subrange(0, trim_back(s, b).len() as int),
        trim_back(s, b).len() >= b,
        normal_parts(trim_back(s, b)) == normal_parts(s),
        body_start(trim_back(s, b)) == b,
        trim_back(s, b).len() > b ==> last_seg(trim_back(s, b), b).len() > 0 && last_seg(
            trim_back(s, b),
            b,
        ) != seq!['.'],
    decreases s.len(),
{
    if s.len() <= b {
        assert(s.subrange(0, s.len() as int) =~= s);
        if b == 1 {
            assert(s.len() >= 1);
        }
    } else {
        let g = last_seg(s, b);
        if g.len() == 0 || g == seq!['.'] {
            lemma_cut(s, b);
            let pre = s.subrange(0, cut_point(s, b));
            lemma_trim_back(pre, b);
            let t = trim_back(pre, b);
            assert(t =~= s.subrange(0, t.len() as int));
            assert(normal_parts(pre) + seq![] =~= normal_parts(pre));
        } else {
            assert(s.subrange(0, s.len() as int) =~= s);
        }
    }
}

} // verus!
verus! {

/// A child of a directory: joining a directory with a name that is a normal
/// part (non-empty, without `/`, other than `.`) gives a path whose
/// components are the directory's followed by the name, so it lies under the
/// directory.
pub proof fn law_join_child(dir: Seq<char>, name: Seq<char>)
    requires
        name.len() > 0,
        !name.contains('/'),
        name != seq!['.'],
    ensures
        components(join_path(dir, name)) == components(dir).push(name),
        path_starts_with(join_path(dir, name), dir),
{
    let j = join_path(dir, name);
    assert(seq![name][0] == name);
    assert(normal_part_list(seq![name]));
    assert(name.contains(name[0]));
    assert(!has_root(name));
    lemma_normal_parts_tiny();
    if dir.len() == 0 {
        assert(j == name);
        lemma_normal_parts_single(name);
        if name[0] == '.' && name.len() >= 2 {
            assert(name.contains(name[1]));
        }
        if name[0] == '.' && name.len() == 1 {
            assert(name =~= seq!['.']);
        }
        assert(components(dir) =~= seq![]);
        assert(components(j) =~= components(dir).push(name));
    } else if dir.last() != '/' {
        assert(j == dir + seq!['/'] + name);
        lemma_normal_parts_slash(dir, name);
        assert(j[0] == dir[0]);
        if dir.len() >= 2 {
            assert(j[1] == dir[1]);
        } else {
            assert(j[1] == '/');
        }
        assert(components(j) =~= components(dir).push(name));
    } else {
        let d = dir.drop_last();
        assert(dir =~= d + seq!['/']);
        assert(j =~= d + seq!['/'] + name);
        lemma_normal_parts_slash(d, name);
        lemma_normal_parts_slash_any(d, seq![]);
        assert(d + seq!['/'] + seq![] =~= dir);
        assert(j[0] == dir[0]);
        if dir.len() >= 2 {
            assert(j[1] == dir[1]);
        }
        assert(components(j) =~= components(dir).push(name));
    }
    assert(components(j).take(components(dir).len() as int) =~= components(dir));
}

} // verus!
verus! {

/// Equal paths have the same normal parts, and so the same file name.
pub proof fn lemma_same_path_file_name(a: Seq<char>, b: Seq<char>)
    requires
        same_path(a, b),
    ensures
        normal_parts(a) == normal_parts(b),
        file_name_of(a) == file_name_of(b),
{
    lemma_normal_parts_normal(a);
    lemma_normal_parts_normal(b);
    let ca = components(a);
    let na = normal_parts(a);
    let nb = normal_parts(b);
    assert(root_marker() =~= seq!['/']);
    assert(cur_marker() =~= seq!['.']);
    assert(root_marker() != cur_marker()) by {
        assert(root_marker()[0] != cur_marker()[0]);
    }
    if na.len() > 0 {
        assert(na[0] != root_marker()) by {
            assert(!na[0].contains('/'));
            assert(root_marker()[0] == '/');
        }
    }
    if nb.len() > 0 {
        assert(nb[0] != root_marker()) by {
            assert(!nb[0].contains('/'));
            assert(root_marker()[0] == '/');
        }
    }
    // The leading markers are told apart from the normal parts.
    let ma: int = (if has_root(a) { 1int } else { 0int }) + (if has_cur_dir(a) { 1int } else { 0int });
    let mb: int = (if has_root(b) { 1int } else { 0int }) + (if has_cur_dir(b) { 1int } else { 0int });
    assert(has_root(a) ==> !has_cur_dir(a));
    assert(has_root(b) ==> !has_cur_dir(b));
    if has_root(a) {
        assert(ca[0] == root_marker());
        assert(has_root(b)) by {
            if !has_root(b) {
                if has_cur_dir(b) {
                    assert(components(b)[0] == cur_marker());
                } else {
                    assert(components(b) =~= nb);
                }
            }
        }
    } else if has_root(b) {
        assert(components(b)[0] == root_marker());
        if has_cur_dir(a) {
            assert(ca[0] == cur_marker());
        } else {
            assert(ca =~= na);
        }
    }
    if !has_root(a) && !has_root(b) {
        if has_cur_dir(a) {
            assert(ca[0] == cur_marker());
            assert(has_cur_dir(b)) by {
                if !has_cur_dir(b) {
                    assert(components(b) =~= nb);
                    assert(nb[0] != cur_marker());
                }
            }
        } else if has_cur_dir(b) {
            assert(components(b)[0] == cur_marker());
            assert(ca =~= na);
            assert(na[0] != cur_marker());
        }
    }
    assert(ma == mb);
    assert(na =~= ca.subrange(ma, ca.len() as int));
    assert(nb =~= components(b).subrange(mb, components(b).len() as int));
}

} // verus!

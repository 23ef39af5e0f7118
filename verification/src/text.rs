//! Character-level text helpers: splitting, searching and case folding over
//! the `Seq<char>` view of strings.
use vstd::prelude::*;

verus! {

/// How a piece of text is cut into fields.
#[derive(Clone, Copy, Debug, PartialEq, Eq)]
pub enum SplitMode {
    /// Cut at every `,`; empty fields are kept (like `str::split(',')`).
    Comma,
    /// Cut at Unicode white space; empty fields are dropped (like `str::split_whitespace`).
    Whitespace,
    /// Cut at `/`; empty fields and `.` fields are dropped (path components).
    PathSep,
}

/// The Unicode `White_Space` property, which `char::is_whitespace` tests.
pub open spec fn is_white_space(c: char) -> bool {
    let u = c as u32;
    ||| 0x09 <= u <= 0x0D
    ||| u == 0x20
    ||| u == 0x85
    ||| u == 0xA0
    ||| u == 0x1680
    ||| 0x2000 <= u <= 0x200A
    ||| u == 0x2028
    ||| u == 0x2029
    ||| u == 0x202F
    ||| u == 0x205F
    ||| u == 0x3000
}

pub open spec fn is_separator(mode: SplitMode, c: char) -> bool {
    match mode {
        SplitMode::Comma => c == ',',
        SplitMode::Whitespace => is_white_space(c),
        SplitMode::PathSep => c == '/',
    }
}

pub open spec fn keeps_piece(mode: SplitMode, p: Seq<char>) -> bool {
    match mode {
        SplitMode::Comma => true,
        SplitMode::Whitespace => p.len() > 0,
        SplitMode::PathSep => p.len() > 0 && p != seq!['.'],
    }
}

/// Fields completed so far, and the field being read, after scanning `s`.
pub open spec fn split_state(s: Seq<char>, mode: SplitMode) -> (Seq<Seq<char>>, Seq<char>)
    decreases s.len(),
{
    if s.len() == 0 {
        (seq![], seq![])
    } else {
        let (done, cur) = split_state(s.drop_last(), mode);
        let c = s.last();
        if is_separator(mode, c) {
            (if keeps_piece(mode, cur) { done.push(cur) } else { done }, seq![])
        } else {
            (done, cur.push(c))
        }
    }
}

/// The fields of `s` under `mode`.
pub open spec fn split_fields(s: Seq<char>, mode: SplitMode) -> Seq<Seq<char>> {
    let (done, cur) = split_state(s, mode);
    if keeps_piece(mode, cur) {
        done.push(cur)
    } else {
        done
    }
}

/// The views of a vector of character vectors.
pub open spec fn views(v: Seq<Vec<char>>) -> Seq<Seq<char>> {
    v.map_values(|x: Vec<char>| x@)
}

/// `needle` occurs in `hay` as a contiguous run.
pub open spec fn occurs_in(needle: Seq<char>, hay: Seq<char>) -> bool {
    exists|i: int| 0 <= i <= hay.len() - needle.len() && #[trigger] hay.subrange(i, i + needle.len()) == needle
}

pub open spec fn ascii_lower_char(c: char) -> char {
    if 'A' <= c <= 'Z' {
        ((c as u32) + 32) as char
    } else {
        c
    }
}

/// ASCII lower-casing, as `str::to_ascii_lowercase` does it.
pub open spec fn ascii_lower(s: Seq<char>) -> Seq<char> {
    Seq::new(s.len(), |i: int| ascii_lower_char(s[i]))
}

/// Names the result of `str::to_lowercase` (full Unicode lower-casing).
pub uninterp spec fn lowercase(s: Seq<char>) -> Seq<char>;

/// Every character is ASCII.
pub open spec fn is_ascii_text(s: Seq<char>) -> bool {
    forall|i: int| 0 <= i < s.len() ==> (s[i] as u32) < 128
}

/// `str::to_lowercase`: the Unicode lower-case form of `s`. The contract
/// names the result; of the Unicode case tables it states only that ASCII
/// text is lower-cased as `to_ascii_lowercase` does (`A`-`Z` to `a`-`z`,
/// everything else kept), which std documents for ASCII input.
#[verifier::external_body]
pub(crate) fn to_lowercase(s: &str) -> (res: String)
    ensures
        res@ == lowercase(s@),
        is_ascii_text(s@) ==> res@ == ascii_lower(s@),
{
    s.to_lowercase()
}

/// `String::push`: appends one character.
#[verifier::external_body]
pub(crate) fn push_char(s: &mut String, c: char)
    ensures
        final(s)@ == old(s)@.push(c),
{
    s.push(c)
}

/// The characters of `s`, in order.
pub fn chars_of(s: &str) -> (res: Vec<char>)
    ensures
        res@ == s@,
{
    let mut res: Vec<char> = Vec::with_capacity(s.len());
    for c in it: s.chars()
        invariant
            res@ == it.seq().take(it.index() as int),
            it.seq() == s@,
    {
        res.push(c);
    }
    res
}

/// A string made of the given characters.
pub fn string_from_chars(v: &[char]) -> (res: String)
    ensures
        res@ == v@,
{
    let mut res = String::new();
    let mut i: usize = 0;
    while i < v.len()
        invariant
            i <= v.len(),
            res@ == v@.take(i as int),
        decreases v.len() - i,
    {
        push_char(&mut res, v[i]);
        assert(v@.take(i + 1) == v@.take(i as int).push(v@[i as int]));
        i += 1;
    }
    assert(v@.take(v.len() as int) == v@);
    res
}

pub fn chars_equal(a: &[char], b: &[char]) -> (res: bool)
    ensures
        res == (a@ == b@),
{
    if a.len() != b.len() {
        return false;
    }
    let mut i: usize = 0;
    while i < a.len()
        invariant
            a.len() == b.len(),
            i <= a.len(),
            forall|j: int| 0 <= j < i ==> a@[j] == b@[j],
        decreases a.len() - i,
    {
        if a[i] != b[i] {
            return false;
        }
        i += 1;
    }
    assert(a@ =~= b@);
    true
}

pub fn str_equal(a: &str, b: &str) -> (res: bool)
    ensures
        res == (a@ == b@),
{
    let ca = chars_of(a);
    let cb = chars_of(b);
    chars_equal(ca.as_slice(), cb.as_slice())
}

/// The character `c` occurs in `s`.
pub fn has_char(s: &[char], c: char) -> (res: bool)
    ensures
        res == s@.contains(c),
{
    let mut i: usize = 0;
    while i < s.len()
        invariant
            i <= s.len(),
            forall|j: int| 0 <= j < i ==> s@[j] != c,
        decreases s.len() - i,
    {
        if s[i] == c {
            return true;
        }
        i += 1;
    }
    false
}

/// `needle` matches `hay` at position `at`.
fn matches_at(hay: &[char], needle: &[char], at: usize) -> (res: bool)
    requires
        at + needle.len() <= hay.len(),
    ensures
        res == (hay@.subrange(at as int, at + needle.len()) == needle@),
{
    let mut k: usize = 0;
    while k < needle.len()
        invariant
            at + needle.len() <= hay.len(),
            k <= needle.len(),
            forall|j: int| 0 <= j < k ==> hay@[at + j] == needle@[j],
        decreases needle.len() - k,
    {
        if hay[at + k] != needle[k] {
            assert(hay@.subrange(at as int, at + needle.len())[k as int] != needle@[k as int]);
            return false;
        }
        k += 1;
    }
    assert(hay@.subrange(at as int, at + needle.len()) =~= needle@);
    true
}

/// Substring search, as `str::contains` with a string pattern.
pub fn contains_chars(hay: &[char], needle: &[char]) -> (res: bool)
    ensures
        res == occurs_in(needle@, hay@),
{
    if needle.len() > hay.len() {
        return false;
    }
    let last = hay.len() - needle.len();
    let mut i: usize = 0;
    loop
        invariant
            last == hay.len() - needle.len(),
            i <= last,
            forall|j: int| 0 <= j < i ==> #[trigger] hay@.subrange(j, j + needle.len()) != needle@,
        decreases last - i,
    {
        if matches_at(hay, needle, i) {
            return true;
        }
        if i == last {
            return false;
        }
        i += 1;
    }
}

pub fn is_white_space_char(c: char) -> (res: bool)
    ensures
        res == is_white_space(c),
{
    let u = c as u32;
    (0x09 <= u && u <= 0x0D) || u == 0x20 || u == 0x85 || u == 0xA0 || u == 0x1680 || (0x2000
        <= u && u <= 0x200A) || u == 0x2028 || u == 0x2029 || u == 0x202F || u == 0x205F || u
        == 0x3000
}

fn separates(mode: SplitMode, c: char) -> (res: bool)
    ensures
        res == is_separator(mode, c),
{
    match mode {
        SplitMode::Comma => c == ',',
        SplitMode::Whitespace => is_white_space_char(c),
        SplitMode::PathSep => c == '/',
    }
}

fn keeps(mode: SplitMode, p: &Vec<char>) -> (res: bool)
    ensures
        res == keeps_piece(mode, p@),
{
    match mode {
        SplitMode::Comma => true,
        SplitMode::Whitespace => p.len() > 0,
        SplitMode::PathSep => {
            if p.len() == 1 && p[0] == '.' {
                assert(p@ =~= seq!['.']);
                false
            } else {
                assert(p@.len() != 1 ==> p@ != seq!['.']);
                assert(p@.len() == 1 ==> p@[0] != '.' ==> p@ != seq!['.']);
                p.len() > 0
            }
        },
    }
}

/// The fields of `s` under `mode`.
pub fn split_chars(s: &[char], mode: SplitMode) -> (res: Vec<Vec<char>>)
    ensures
        views(res@) == split_fields(s@, mode),
{
    let mut done: Vec<Vec<char>> = Vec::new();
    let mut cur: Vec<char> = Vec::new();
    let mut i: usize = 0;
    while i < s.len()
        invariant
            i <= s.len(),
            done@.len() == split_state(s@.take(i as int), mode).0.len(),
            forall|j: int|
                0 <= j < done@.len() ==> #[trigger] done@[j]@ == split_state(
                    s@.take(i as int),
                    mode,
                ).0[j],
            cur@ == split_state(s@.take(i as int), mode).1,
        decreases s.len() - i,
    {
        let c = s[i];
        assert(s@.take(i + 1).drop_last() == s@.take(i as int));
        assert(s@.take(i + 1).last() == c);
        if separates(mode, c) {
            if keeps(mode, &cur) {
                let piece = cur;
                done.push(piece);
            }
            cur = Vec::new();
        } else {
            cur.push(c);
        }
        i += 1;
    }
    assert(s@.take(s.len() as int) == s@);
    if keeps(mode, &cur) {
        done.push(cur);
    }
    assert(views(done@) =~= split_fields(s@, mode));
    done
}

pub fn ascii_lower_of(c: char) -> (res: char)
    ensures
        res == ascii_lower_char(c),
{
    if 'A' <= c && c <= 'Z' {
        let b: u8 = (c as u8) + 32;
        b as char
    } else {
        c
    }
}

/// ASCII lower-casing of a character sequence.
pub fn ascii_lowercase_chars(s: &[char]) -> (res: Vec<char>)
    ensures
        res@ == ascii_lower(s@),
{
    let mut res: Vec<char> = Vec::new();
    let mut i: usize = 0;
    while i < s.len()
        invariant
            i <= s.len(),
            res@ == ascii_lower(s@.take(i as int)),
        decreases s.len() - i,
    {
        res.push(ascii_lower_of(s[i]));
        i += 1;
        assert(res@ =~= ascii_lower(s@.take(i as int)));
    }
    assert(s@.take(s.len() as int) == s@);
    res
}

/// The character sequences of a list of string slices.
pub open spec fn views_of(list: Seq<&str>) -> Seq<Seq<char>> {
    list.map_values(|t: &str| t@)
}

/// `s` equals one of the strings of `list`.
pub fn in_list(s: &[char], list: &[&str]) -> (res: bool)
    ensures
        res == views_of(list@).contains(s@),
{
    let mut i: usize = 0;
    while i < list.len()
        invariant
            i <= list.len(),
            forall|j: int| 0 <= j < i ==> list@[j]@ != s@,
        decreases list.len() - i,
    {
        let t = chars_of(list[i]);
        if chars_equal(t.as_slice(), s) {
            assert(views_of(list@)[i as int] == s@);
            return true;
        }
        i += 1;
    }
    assert forall|j: int| 0 <= j < list@.len() implies #[trigger] views_of(list@)[j] != s@ by {}
    false
}

} // verus!

//! A model of paths as character strings: the final name component, its
//! extension, and joining a directory path with a child name. The rules follow
//! the usual `/`-separated convention: trailing separators are ignored, the
//! file name is what follows the last separator, and the extension is what
//! follows the last `.` of the file name, except that a name whose only `.` is
//! its first character (a hidden file) and the names `.` and `..` have none.

use vstd::prelude::*;

verus! {

/// `p` without its trailing `/` characters.
pub open spec fn strip_trailing_slashes(p: Seq<char>) -> Seq<char>
    decreases p.len(),
{
    if p.len() > 0 && p.last() == '/' {
        strip_trailing_slashes(p.drop_last())
    } else {
        p
    }
}

/// The suffix of `p` after its last `/`, or all of `p` if it has none.
pub open spec fn after_last_slash(p: Seq<char>) -> Seq<char>
    decreases p.len(),
{
    if p.len() == 0 {
        p
    } else if p.last() == '/' {
        Seq::empty()
    } else {
        after_last_slash(p.drop_last()).push(p.last())
    }
}

/// The final name component of `p`: what follows the last `/` once trailing
/// separators are dropped. Empty when `p` is empty or all separators.
pub open spec fn file_name_of(p: Seq<char>) -> Seq<char> {
    after_last_slash(strip_trailing_slashes(p))
}

/// Whether `f` is one of the relative-reference names `.` and `..`.
pub open spec fn is_dot_name(f: Seq<char>) -> bool {
    f == seq!['.'] || f == seq!['.', '.']
}

/// The extension of the name `f`: the suffix after the last `.`, provided that
/// `.` is not the first character. A name with no `.` past its first
/// character has no extension.
pub open spec fn ext_of_name(f: Seq<char>) -> Option<Seq<char>>
    decreases f.len(),
{
    if f.len() <= 1 {
        None
    } else if f.last() == '.' {
        Some(Seq::empty())
    } else {
        match ext_of_name(f.drop_last()) {
            None => None,
            Some(e) => Some(e.push(f.last())),
        }
    }
}

/// The extension of the path `p`: the extension of its file name, where the
/// empty name and the names `.` and `..` have no extension at all.
pub open spec fn extension_of(p: Seq<char>) -> Option<Seq<char>> {
    let f = file_name_of(p);
    if f.len() == 0 || is_dot_name(f) {
        None
    } else {
        ext_of_name(f)
    }
}

/// Whether `p` has a usable file name: a nonempty final component other than
/// `.` and `..`.
pub open spec fn has_file_name(p: Seq<char>) -> bool {
    file_name_of(p).len() > 0 && !is_dot_name(file_name_of(p))
}

/// The directory path `dir` joined with the child name `name`: a `/` is put
/// between them unless `dir` is empty or already ends in one.
pub open spec fn join_path(dir: Seq<char>, name: Seq<char>) -> Seq<char> {
    if dir.len() == 0 {
        name
    } else if dir.last() == '/' {
        dir + name
    } else {
        dir + seq!['/'] + name
    }
}

/// Stripping trailing separators keeps exactly the prefix up to the last
/// non-separator character.
proof fn lemma_strip_trailing_slashes(p: Seq<char>, e: int)
    requires
        0 <= e <= p.len(),
        forall|j: int| e <= j < p.len() ==> p[j] == '/',
        e > 0 ==> p[e - 1] != '/',
    ensures
        strip_trailing_slashes(p) == p.take(e),
    decreases p.len(),
{
    if e == p.len() {
        assert(p.take(e) =~= p);
    } else {
        assert(p.last() == '/');
        lemma_strip_trailing_slashes(p.drop_last(), e);
        assert(p.drop_last().take(e) =~= p.take(e));
    }
}

/// When `[s, q.len())` holds no separator and a separator (or the start of
/// the string) stands just before `s`, the suffix after the last separator is
/// exactly `[s, q.len())`.
proof fn lemma_after_last_slash(q: Seq<char>, s: int)
    requires
        0 <= s <= q.len(),
        forall|j: int| s <= j < q.len() ==> q[j] != '/',
        s > 0 ==> q[s - 1] == '/',
    ensures
        after_last_slash(q) == q.subrange(s, q.len() as int),
    decreases q.len(),
{
    if q.len() == 0 {
        assert(after_last_slash(q) =~= q.subrange(0, 0));
    } else if s == q.len() {
        assert(q.last() == '/');
        assert(after_last_slash(q) =~= q.subrange(s, q.len() as int));
    } else {
        assert(q.last() != '/');
        lemma_after_last_slash(q.drop_last(), s);
        assert(q.drop_last().subrange(s, q.len() - 1).push(q.last()) =~= q.subrange(
            s,
            q.len() as int,
        ));
    }
}

/// A name with no `.` past its first character has no extension.
pub(crate) proof fn lemma_ext_none(f: Seq<char>)
    requires
        forall|j: int| 1 <= j < f.len() ==> f[j] != '.',
    ensures
        ext_of_name(f) is None,
    decreases f.len(),
{
    if f.len() > 1 {
        assert(f.last() != '.');
        lemma_ext_none(f.drop_last());
    }
}

/// When the last `.` of `f` stands at index `i >= 1`, the extension is the
/// suffix after it.
pub(crate) proof fn lemma_ext_dot(f: Seq<char>, i: int)
    requires
        1 <= i < f.len(),
        f[i] == '.',
        forall|j: int| i < j < f.len() ==> f[j] != '.',
    ensures
        ext_of_name(f) == Some(f.subrange(i + 1, f.len() as int)),
    decreases f.len(),
{
    if i == f.len() - 1 {
        assert(f.last() == '.');
        assert(f.subrange(i + 1, f.len() as int) =~= Seq::<char>::empty());
    } else {
        assert(f.last() != '.');
        lemma_ext_dot(f.drop_last(), i);
        assert(f.drop_last().subrange(i + 1, f.len() - 1).push(f.last()) =~= f.subrange(
            i + 1,
            f.len() as int,
        ));
    }
}

/// The bounds of the file name of `path`: the name is `path[s..e)` once `e`
/// cuts the trailing separators and `s` follows the last separator before it.
pub(crate) struct NameBounds {
    pub(crate) start: usize,
    pub(crate) end: usize,
}

impl NameBounds {
    pub(crate) open spec fn wf(self, p: Seq<char>) -> bool {
        &&& self.start <= self.end <= p.len()
        &&& strip_trailing_slashes(p) == p.take(self.end as int)
        &&& file_name_of(p) == p.subrange(self.start as int, self.end as int)
    }
}

/// Locates the file name of `path` within it.
pub(crate) fn name_bounds(path: &str) -> (r: NameBounds)
    ensures
        r.wf(path@),
{
    let len = path.unicode_len();
    let mut e: usize = len;
    while e > 0 && path.get_char(e - 1) == '/'
        invariant
            e <= len,
            len == path@.len(),
            forall|j: int| e <= j < len ==> path@[j] == '/',
        decreases e,
    {
        e = e - 1;
    }
    let mut s: usize = e;
    while s > 0 && path.get_char(s - 1) != '/'
        invariant
            s <= e <= len,
            len == path@.len(),
            forall|j: int| s <= j < e ==> path@[j] != '/',
        decreases s,
    {
        s = s - 1;
    }
    proof {
        lemma_strip_trailing_slashes(path@, e as int);
        lemma_after_last_slash(path@.take(e as int), s as int);
        assert(path@.take(e as int).subrange(s as int, e as int) =~= path@.subrange(
            s as int,
            e as int,
        ));
    }
    NameBounds { start: s, end: e }
}

/// The file name of `path`, when it has a usable one: a nonempty final
/// component other than `.` and `..`.
pub fn file_name(path: &str) -> (r: Option<String>)
    ensures
        r is Some <==> has_file_name(path@),
        match r {
            Some(f) => f@ == file_name_of(path@),
            None => true,
        },
{
    let b = name_bounds(path);
    let ghost f = file_name_of(path@);
    if b.end == b.start {
        proof {
            assert(f.len() == 0);
        }
        return None;
    }
    let n = b.end - b.start;
    if n == 1 && path.get_char(b.start) == '.' {
        proof {
            assert(f =~= seq!['.']);
        }
        return None;
    }
    if n == 2 && path.get_char(b.start) == '.' && path.get_char(b.start + 1) == '.' {
        proof {
            assert(f =~= seq!['.', '.']);
        }
        return None;
    }
    proof {
        assert(f.len() > 0);
        if f == seq!['.'] {
            assert(f[0] == '.');
            assert(path@[b.start as int] == f[0]);
        }
        if f == seq!['.', '.'] {
            assert(f[0] == '.' && f[1] == '.');
            assert(path@[b.start as int] == f[0] && path@[b.start + 1] == f[1]);
        }
    }
    let name = path.substring_char(b.start, b.end);
    Some(name.to_owned())
}

/// Joins a directory path with a child name, putting a `/` between them
/// unless the directory part is empty or already ends in one.
pub fn path_join(dir: &str, name: &str) -> (r: String)
    ensures
        r@ == join_path(dir@, name@),
{
    let dir_len = dir.unicode_len();
    if dir_len == 0 {
        return name.to_owned();
    }
    let mut out = dir.to_owned();
    if dir.get_char(dir_len - 1) != '/' {
        out.append("/");
        proof {
            reveal_strlit("/");
            assert(out@ =~= dir@ + seq!['/']);
        }
    }
    out.append(name);
    proof {
        if dir@.last() != '/' {
            assert(out@ =~= dir@ + seq!['/'] + name@);
        }
    }
    out
}

} // verus!

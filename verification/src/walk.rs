//! Filtered traversal of a directory tree.
//!
//! A tree is a value of [`FsEntry`]. The walk visits entries in depth-first
//! pre-order and prunes every subtree whose root name is excluded: hidden
//! names (a leading `.`, except `.`, `..` and temporary-marker names starting
//! with `.tmp`), the version-control directory `.git`, and the build-output
//! directory `target`. Of the remaining files it yields those whose extension
//! equals the target extension, where `*` accepts every file.

use vstd::prelude::*;

use crate::fs::has_extension;
use crate::paths::{extension_of, join_path};
use crate::strings::str_eq;

verus! {

/// Whether `name` is a hidden name: it starts with `.`, is not `.` or `..`,
/// and is not a temporary-marker name starting with `.tmp`. The `.tmp`
/// exception keeps in-progress atomic-rename files visible to the walk.
pub open spec fn spec_is_hidden(name: Seq<char>) -> bool {
    &&& name.len() > 0
    &&& name[0] == '.'
    &&& name != seq!['.']
    &&& name != seq!['.', '.']
    &&& !(name.len() >= 4 && name.subrange(0, 4) == seq!['.', 't', 'm', 'p'])
}

/// Whether `name` is the version-control metadata directory name `.git`.
pub open spec fn spec_is_git_dir(name: Seq<char>) -> bool {
    name == seq!['.', 'g', 'i', 't']
}

/// Whether `name` is the build-output directory name `target`.
pub open spec fn spec_is_target_dir(name: Seq<char>) -> bool {
    name == seq!['t', 'a', 'r', 'g', 'e', 't']
}

/// Whether an entry named `name` is excluded from traversal, together with
/// its whole subtree.
pub open spec fn excluded(name: Seq<char>) -> bool {
    spec_is_hidden(name) || spec_is_git_dir(name) || spec_is_target_dir(name)
}

/// Decides whether a directory entry's name is hidden: it starts with a dot,
/// is neither `.` nor `..`, and does not start with `.tmp`.
pub fn is_hidden(name: &str) -> (r: bool)
    ensures
        r == spec_is_hidden(name@),
{
    let n = name.unicode_len();
    if n == 0 {
        return false;
    }
    if name.get_char(0) != '.' {
        return false;
    }
    if n == 1 {
        proof {
            assert(name@ =~= seq!['.']);
        }
        return false;
    }
    if n == 2 && name.get_char(1) == '.' {
        proof {
            assert(name@ =~= seq!['.', '.']);
        }
        return false;
    }
    if n >= 4 && name.get_char(1) == 't' && name.get_char(2) == 'm' && name.get_char(3) == 'p' {
        proof {
            assert(name@.subrange(0, 4) =~= seq!['.', 't', 'm', 'p']);
        }
        return false;
    }
    proof {
        assert(name@ != seq!['.']) by {
            assert(name@.len() != 1);
        }
        if n == 2 {
            assert(name@[1] != '.');
            assert(name@ != seq!['.', '.']);
        }
        if n >= 4 && name@.subrange(0, 4) == seq!['.', 't', 'm', 'p'] {
            assert(name@[1] == 't' && name@[2] == 'm' && name@[3] == 'p');
        }
    }
    true
}

/// Decides whether a directory entry's name is exactly `.git`.
pub fn is_git_dir(name: &str) -> (r: bool)
    ensures
        r == spec_is_git_dir(name@),
{
    proof {
        reveal_strlit(".git");
        assert(".git"@ =~= seq!['.', 'g', 'i', 't']);
    }
    str_eq(name, ".git")
}

/// Decides whether a directory entry's name is exactly `target`.
pub fn is_target_dir(name: &str) -> (r: bool)
    ensures
        r == spec_is_target_dir(name@),
{
    proof {
        reveal_strlit("target");
        assert("target"@ =~= seq!['t', 'a', 'r', 'g', 'e', 't']);
    }
    str_eq(name, "target")
}

/// Decides whether an entry named `name` is pruned by the walk.
pub fn is_excluded_name(name: &str) -> (r: bool)
    ensures
        r == excluded(name@),
{
    is_hidden(name) || is_git_dir(name) || is_target_dir(name)
}

/// A directory tree given as a value: a file, or a directory with the
/// entries it contains, in the order a traversal should consider them.
pub enum FsEntry {
    File { name: String },
    Dir { name: String, entries: Vec<FsEntry> },
}

impl FsEntry {
    /// The entry's own name, the final path segment.
    pub open spec fn name_view(self) -> Seq<char> {
        match self {
            FsEntry::File { name } => name@,
            FsEntry::Dir { name, .. } => name@,
        }
    }
}

/// Whether a file named `name` matches the target extension: `*` accepts
/// every file, any other extension must equal the file name's own.
pub open spec fn file_ext_matches(name: Seq<char>, ext: Seq<char>) -> bool {
    ext == seq!['*'] || extension_of(name) == Some(ext)
}

/// The paths yielded under the entries `es` of the directory at `dir_path`,
/// in depth-first pre-order.
pub open spec fn spec_walk_list(es: Seq<FsEntry>, ext: Seq<char>, dir_path: Seq<char>) -> Seq<
    Seq<char>,
>
    decreases es, 0int,
{
    if es.len() == 0 {
        Seq::empty()
    } else {
        spec_walk_list(es.drop_last(), ext, dir_path) + spec_walk_entry(es.last(), ext, dir_path)
    }
}

/// The paths yielded under the single entry `e` of the directory at
/// `dir_path`: nothing when `e` is excluded, the file's path when it matches,
/// and the walk of its entries when it is a directory.
pub open spec fn spec_walk_entry(e: FsEntry, ext: Seq<char>, dir_path: Seq<char>) -> Seq<Seq<char>>
    decreases e, 1int,
{
    if excluded(e.name_view()) {
        Seq::empty()
    } else {
        match e {
            FsEntry::File { name } => if file_ext_matches(name@, ext) {
                seq![join_path(dir_path, name@)]
            } else {
                Seq::empty()
            },
            FsEntry::Dir { name, entries } => spec_walk_list(
                entries@,
                ext,
                join_path(dir_path, name@),
            ),
        }
    }
}

fn walk_entry(e: &FsEntry, extension: &str, wild: bool, dir_path: &str, out: &mut Vec<String>)
    requires
        wild == (extension@ == seq!['*']),
    ensures
        final(out).deep_view() == old(out).deep_view() + spec_walk_entry(*e, extension@, dir_path@),
    decreases *e,
{
    let ghost base = out.deep_view();
    match e {
        FsEntry::File { name } => {
            if !is_excluded_name(name.as_str()) {
                if wild || has_extension(name.as_str(), extension) {
                    let p = crate::paths::path_join(dir_path, name.as_str());
                    out.push(p);
                    proof {
                        assert(out.deep_view() =~= base + seq![join_path(dir_path@, name@)]);
                    }
                } else {
                    proof {
                        assert(out.deep_view() =~= base + Seq::<Seq<char>>::empty());
                    }
                }
            } else {
                proof {
                    assert(out.deep_view() =~= base + Seq::<Seq<char>>::empty());
                }
            }
        },
        FsEntry::Dir { name, entries } => {
            if !is_excluded_name(name.as_str()) {
                let p = crate::paths::path_join(dir_path, name.as_str());
                let n = entries.len();
                let mut i: usize = 0;
                proof {
                    assert(base + spec_walk_list(entries@.take(0), extension@, p@) =~= base);
                }
                #[verifier::loop_isolation(false)]
                while i < n
                    invariant
                        i <= n,
                        out.deep_view() == base + spec_walk_list(
                            entries@.take(i as int),
                            extension@,
                            p@,
                        ),
                    decreases n - i,
                {
                    proof {
                        assert(decreases_to!(*e => entries@[i as int]));
                    }
                    walk_entry(&entries[i], extension, wild, p.as_str(), out);
                    proof {
                        assert(entries@.take(i + 1).drop_last() =~= entries@.take(i as int));
                        assert(entries@.take(i + 1).last() == entries@[i as int]);
                    }
                    i = i + 1;
                }
                proof {
                    assert(entries@.take(n as int) =~= entries@);
                }
            } else {
                proof {
                    assert(out.deep_view() =~= base + Seq::<Seq<char>>::empty());
                }
            }
        },
    }
}

/// Walks the entries of the directory at `dir_path`, pruning every subtree
/// whose root name is excluded, and returns the paths of the files whose
/// extension equals `extension` (every file, when `extension` is `*`), in
/// depth-first pre-order.
pub fn walk_filtered(dir_path: &str, entries: &Vec<FsEntry>, extension: &str) -> (files: Vec<
    String,
>)
    ensures
        files.deep_view() == spec_walk_list(entries@, extension@, dir_path@),
{
    let wild = str_eq(extension, "*");
    proof {
        reveal_strlit("*");
        assert("*"@ =~= seq!['*']);
    }
    let mut out: Vec<String> = Vec::new();
    let n = entries.len();
    let mut i: usize = 0;
    proof {
        assert(out.deep_view() =~= Seq::<Seq<char>>::empty());
        assert(out.deep_view() + spec_walk_list(entries@.take(0), extension@, dir_path@) =~= out.deep_view());
    }
    while i < n
        invariant
            i <= n,
            n == entries@.len(),
            wild == (extension@ == seq!['*']),
            out.deep_view() == spec_walk_list(entries@.take(i as int), extension@, dir_path@),
        decreases n - i,
    {
        walk_entry(&entries[i], extension, wild, dir_path, &mut out);
        proof {
            assert(entries@.take(i + 1).drop_last() =~= entries@.take(i as int));
            assert(entries@.take(i + 1).last() == entries@[i as int]);
        }
        i = i + 1;
    }
    proof {
        assert(entries@.take(n as int) =~= entries@);
    }
    out
}

/// `base` joined with each of `segs` in turn.
pub open spec fn join_all(base: Seq<char>, segs: Seq<Seq<char>>) -> Seq<char>
    decreases segs.len(),
{
    if segs.len() == 0 {
        base
    } else {
        join_path(join_all(base, segs.drop_last()), segs.last())
    }
}

/// Whether every segment in `segs` is an allowed (non-excluded) name.
pub open spec fn all_allowed(segs: Seq<Seq<char>>) -> bool {
    forall|i: int| 0 <= i < segs.len() ==> !excluded(#[trigger] segs[i])
}

/// Whether `p` is `base` extended by at least one path segment, none of
/// which is an excluded name. Such a path never lies under a subtree whose
/// root name is hidden, `.git` or `target`.
pub open spec fn allowed_extension_path(base: Seq<char>, p: Seq<char>) -> bool {
    exists|segs: Seq<Seq<char>>|
        segs.len() >= 1 && all_allowed(segs) && p == #[trigger] join_all(base, segs)
}

/// Whether every path in `ps` is `base` extended by allowed segments only.
pub open spec fn yields_only_allowed(base: Seq<char>, ps: Seq<Seq<char>>) -> bool {
    forall|k: int| 0 <= k < ps.len() ==> allowed_extension_path(base, #[trigger] ps[k])
}

proof fn lemma_join_all_lift(base: Seq<char>, name: Seq<char>, segs: Seq<Seq<char>>)
    ensures
        join_all(join_path(base, name), segs) == join_all(base, seq![name] + segs),
    decreases segs.len(),
{
    if segs.len() == 0 {
        let s1 = seq![name];
        assert(seq![name] + segs =~= s1);
        assert(s1.drop_last() =~= Seq::<Seq<char>>::empty());
        assert(join_all(base, s1.drop_last()) == base);
        assert(s1.last() == name);
        assert(join_all(base, s1) == join_path(base, name));
    } else {
        lemma_join_all_lift(base, name, segs.drop_last());
        assert((seq![name] + segs).drop_last() =~= seq![name] + segs.drop_last());
        assert((seq![name] + segs).last() == segs.last());
    }
}

/// The walk never yields a path under a subtree whose root name is hidden
/// (other than `.`, `..` and `.tmp*`), `.git`, or `target`: every yielded
/// path extends the walked directory's path by allowed segments only.
pub proof fn lemma_walk_filtered_prunes(es: Seq<FsEntry>, ext: Seq<char>, base: Seq<char>)
    ensures
        yields_only_allowed(base, spec_walk_list(es, ext, base)),
    decreases es, 0int,
{
    if es.len() > 0 {
        lemma_walk_filtered_prunes(es.drop_last(), ext, base);
        lemma_walk_entry_prunes(es.last(), ext, base);
        let left = spec_walk_list(es.drop_last(), ext, base);
        let right = spec_walk_entry(es.last(), ext, base);
        let all = spec_walk_list(es, ext, base);
        assert forall|k: int| 0 <= k < all.len() implies allowed_extension_path(
            base,
            #[trigger] all[k],
        ) by {
            if k < left.len() {
                assert(all[k] == left[k]);
            } else {
                assert(all[k] == right[k - left.len()]);
            }
        }
    }
}

proof fn lemma_walk_entry_prunes(e: FsEntry, ext: Seq<char>, base: Seq<char>)
    ensures
        yields_only_allowed(base, spec_walk_entry(e, ext, base)),
    decreases e, 1int,
{
    if !excluded(e.name_view()) {
        match e {
            FsEntry::File { name } => {
                if file_ext_matches(name@, ext) {
                    let segs = seq![name@];
                    assert(segs.drop_last() =~= Seq::<Seq<char>>::empty());
                    assert(join_all(base, segs.drop_last()) == base);
                    assert(segs.last() == name@);
                    assert(join_all(base, segs) == join_path(base, name@));
                    assert(segs[0] == name@ && !excluded(segs[0]));
                    assert(all_allowed(segs));
                    let ps = spec_walk_entry(e, ext, base);
                    assert(ps[0] == join_all(base, segs));
                }
            },
            FsEntry::Dir { name, entries } => {
                let inner_base = join_path(base, name@);
                lemma_walk_filtered_prunes(entries@, ext, inner_base);
                let ps = spec_walk_entry(e, ext, base);
                assert(ps == spec_walk_list(entries@, ext, inner_base));
                assert forall|k: int| 0 <= k < ps.len() implies allowed_extension_path(
                    base,
                    #[trigger] ps[k],
                ) by {
                    assert(allowed_extension_path(inner_base, ps[k]));
                    let inner: Seq<Seq<char>> = choose|segs: Seq<Seq<char>>|
                        segs.len() >= 1 && all_allowed(segs) && ps[k] == #[trigger] join_all(
                            inner_base,
                            segs,
                        );
                    let segs = seq![name@] + inner;
                    lemma_join_all_lift(base, name@, inner);
                    assert(segs.len() >= 1);
                    assert(all_allowed(segs)) by {
                        assert(segs[0] == name@);
                        assert(forall|i: int|
                            1 <= i < segs.len() ==> #[trigger] segs[i] == inner[i - 1]);
                    }
                    assert(ps[k] == join_all(base, segs));
                }
            },
        }
    }
}

/// The position of the first failed result, if any: every earlier result
/// succeeded, and when `None` comes back every result succeeded. This is the
/// dispatcher's reporting rule: all units are run to completion, then the
/// first failure — and only that one — is surfaced.
pub fn first_failure<T, E>(results: &Vec<Result<T, E>>) -> (r: Option<usize>)
    ensures
        match r {
            None => forall|i: int| 0 <= i < results@.len() ==> results@[i] is Ok,
            Some(j) => {
                &&& j < results@.len()
                &&& results@[j as int] is Err
                &&& forall|i: int| 0 <= i < j ==> results@[i] is Ok
            },
        },
{
    let n = results.len();
    let mut j: usize = 0;
    while j < n
        invariant
            j <= n,
            n == results@.len(),
            forall|i: int| 0 <= i < j ==> results@[i] is Ok,
        decreases n - j,
    {
        match &results[j] {
            Result::Err(_) => {
                return Some(j);
            },
            Result::Ok(_) => {},
        }
        j = j + 1;
    }
    None
}

} // verus!

//! File-name utilities over paths given as strings.

use vstd::prelude::*;

use crate::paths::{extension_of, file_name_of, is_dot_name};

verus! {

/// Checks whether a path's file name has exactly the given extension,
/// case-sensitively and without the leading dot. A path with no extension —
/// among them a hidden name such as `.txt`, whose only dot is its first
/// character — never matches.
pub fn has_extension(path: &str, extension: &str) -> (r: bool)
    ensures
        r == (extension_of(path@) == Some(extension@)),
{
    let b = crate::paths::name_bounds(path);
    let s = b.start;
    let e = b.end;
    let ghost f = file_name_of(path@);
    let ghost p = path@;
    if e == s {
        proof {
            assert(f.len() == 0);
        }
        return false;
    }
    let n = e - s;
    if n == 1 && path.get_char(s) == '.' {
        proof {
            assert(f =~= seq!['.']);
        }
        return false;
    }
    if n == 2 && path.get_char(s) == '.' && path.get_char(s + 1) == '.' {
        proof {
            assert(f =~= seq!['.', '.']);
        }
        return false;
    }
    proof {
        if f == seq!['.'] {
            assert(f[0] == '.');
            assert(p[s as int] == f[0]);
        }
        if f == seq!['.', '.'] {
            assert(f[0] == '.' && f[1] == '.');
            assert(p[s as int] == f[0] && p[s + 1] == f[1]);
        }
        assert(!is_dot_name(f));
    }
    // Scan the name from its end for the last '.' past its first character.
    let mut k: usize = e;
    let mut dot: usize = 0;
    let mut found: bool = false;
    while !found && k > s + 1
        invariant
            s + 1 <= k <= e,
            e <= p.len(),
            p == path@,
            !found ==> forall|j: int| k <= j < e ==> p[j] != '.',
            found ==> s + 1 <= dot < e && p[dot as int] == '.' && forall|j: int|
                dot < j < e ==> p[j] != '.',
        decreases (if found { 0int } else { k as int }),
    {
        if path.get_char(k - 1) == '.' {
            found = true;
            dot = k - 1;
        } else {
            k = k - 1;
        }
    }
    if !found {
        proof {
            assert(forall|j: int| 1 <= j < f.len() ==> f[j] == p[s + j] && f[j] != '.');
            crate::paths::lemma_ext_none(f);
        }
        return false;
    }
    proof {
        assert(f[dot - s] == '.');
        assert(forall|j: int| dot - s < j < f.len() ==> f[j] == p[s + j] && f[j] != '.');
        crate::paths::lemma_ext_dot(f, dot - s);
    }
    let ghost ext = f.subrange(dot - s + 1, f.len() as int);
    let m = e - (dot + 1);
    let ext_len = extension.unicode_len();
    if m != ext_len {
        proof {
            assert(extension_of(p) == Some(ext));
            assert(ext.len() != extension@.len());
            assert(ext != extension@);

        }
        return false;
    }
    let mut j: usize = 0;
    while j < m
        invariant
            j <= m,
            m == ext.len() == extension@.len(),
            s <= dot < e <= p.len(),
            p == path@,
            extension_of(path@) == Some(ext),
            m == e - (dot + 1),
            forall|i: int| 0 <= i < ext.len() ==> ext[i] == p[dot + 1 + i],
            forall|i: int| 0 <= i < j ==> ext[i] == extension@[i],
        decreases m - j,
    {
        if path.get_char(dot + 1 + j) != extension.get_char(j) {
            proof {
                assert(ext[j as int] != extension@[j as int]);
            }
            return false;
        }
        j = j + 1;
    }
    proof {
        assert(ext =~= extension@);
    }
    true
}

} // verus!


//! Verified helpers for character strings: equality, decimal rendering of an
//! index, and substitution of the `{}` placeholder in a naming template.

use vstd::prelude::*;

verus! {

/// Equality of two string slices, decided character by character.
pub fn str_eq(a: &str, b: &str) -> (r: bool)
    ensures
        r == (a@ == b@),
{
    let a_len = a.unicode_len();
    let b_len = b.unicode_len();
    if a_len != b_len {
        assert(a@ != b@);
        return false;
    }
    let mut i: usize = 0;
    while i < a_len
        invariant
            i <= a_len,
            a_len == a@.len(),
            a_len == b@.len(),
            forall|j: int| 0 <= j < i ==> a@[j] == b@[j],
        decreases a_len - i,
    {
        if a.get_char(i) != b.get_char(i) {
            assert(a@ != b@);
            return false;
        }
        i = i + 1;
    }
    assert(a@ =~= b@);
    true
}

/// The decimal digit character for `d`.
pub open spec fn dec_digit(d: nat) -> char {
    if d == 0 {
        '0'
    } else if d == 1 {
        '1'
    } else if d == 2 {
        '2'
    } else if d == 3 {
        '3'
    } else if d == 4 {
        '4'
    } else if d == 5 {
        '5'
    } else if d == 6 {
        '6'
    } else if d == 7 {
        '7'
    } else if d == 8 {
        '8'
    } else {
        '9'
    }
}

/// The decimal rendering of `n`, most significant digit first.
pub open spec fn dec_seq(n: nat) -> Seq<char>
    decreases n,
{
    if n < 10 {
        seq![dec_digit(n)]
    } else {
        dec_seq(n / 10).push(dec_digit(n % 10))
    }
}

/// A one-character string slice for the decimal digit `d`.
fn digit_str(d: usize) -> (r: &'static str)
    requires
        d < 10,
    ensures
        r@ == seq![dec_digit(d as nat)],
{
    let r: &'static str = if d == 0 {
        "0"
    } else if d == 1 {
        "1"
    } else if d == 2 {
        "2"
    } else if d == 3 {
        "3"
    } else if d == 4 {
        "4"
    } else if d == 5 {
        "5"
    } else if d == 6 {
        "6"
    } else if d == 7 {
        "7"
    } else if d == 8 {
        "8"
    } else {
        "9"
    };
    proof {
        reveal_strlit("0");
        reveal_strlit("1");
        reveal_strlit("2");
        reveal_strlit("3");
        reveal_strlit("4");
        reveal_strlit("5");
        reveal_strlit("6");
        reveal_strlit("7");
        reveal_strlit("8");
        reveal_strlit("9");
        assert(r@ =~= seq![dec_digit(d as nat)]);
    }
    r
}

/// Renders `n` in decimal.
pub fn usize_to_string(n: usize) -> (s: String)
    ensures
        s@ == dec_seq(n as nat),
    decreases n,
{
    if n < 10 {
        digit_str(n).to_owned()
    } else {
        let mut s = usize_to_string(n / 10);
        let d = digit_str(n % 10);
        s.append(d);
        assert(s@ =~= dec_seq(n as nat));
        s
    }
}

/// `tmpl` with every occurrence of the placeholder `{}` replaced by `digits`,
/// scanning left to right without overlap, as `str::replace` does.
pub open spec fn subst_index(tmpl: Seq<char>, digits: Seq<char>) -> Seq<char>
    decreases tmpl.len(),
{
    if tmpl.len() < 2 {
        tmpl
    } else if tmpl[0] == '{' && tmpl[1] == '}' {
        digits + subst_index(tmpl.skip(2), digits)
    } else {
        seq![tmpl[0]] + subst_index(tmpl.skip(1), digits)
    }
}

/// Replaces every `{}` in `tmpl` with `digits`.
pub fn substitute_index(tmpl: &str, digits: &str) -> (r: String)
    ensures
        r@ == subst_index(tmpl@, digits@),
{
    let len = tmpl.unicode_len();
    let mut out = String::new();
    let mut i: usize = 0;
    proof {
        assert(tmpl@.skip(0) =~= tmpl@);
        assert(out@ + subst_index(tmpl@, digits@) =~= subst_index(tmpl@, digits@));
    }
    while i < len
        invariant
            i <= len,
            len == tmpl@.len(),
            subst_index(tmpl@, digits@) == out@ + subst_index(tmpl@.skip(i as int), digits@),
        decreases len - i,
    {
        let ghost rest = tmpl@.skip(i as int);
        if i + 1 < len && tmpl.get_char(i) == '{' && tmpl.get_char(i + 1) == '}' {
            out.append(digits);
            proof {
                assert(rest.len() >= 2);
                assert(rest[0] == '{' && rest[1] == '}');
                assert(rest.skip(2) =~= tmpl@.skip(i + 2));
            }
            i = i + 2;
        } else {
            let piece = tmpl.substring_char(i, i + 1);
            out.append(piece);
            proof {
                assert(piece@ =~= seq![rest[0]]);
                assert(rest.skip(1) =~= tmpl@.skip(i + 1));
                if rest.len() < 2 {
                    assert(rest =~= seq![rest[0]]);
                    assert(subst_index(rest, digits@) == rest);
                    assert(tmpl@.skip(i + 1) =~= Seq::<char>::empty());
                }
            }
            i = i + 1;
        }
    }
    proof {
        assert(tmpl@.skip(len as int) =~= Seq::<char>::empty());
        assert(out@ =~= subst_index(tmpl@, digits@));
    }
    out
}

} // verus!

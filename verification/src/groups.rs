//! The file-group table: a mapping from a representative file path to the
//! ordered members that travel with it (the representative first). The table
//! keeps one group per representative and lets every path belong to at most
//! one group, however often and in whatever combination groups are added.

use vstd::prelude::*;

use crate::strings::str_eq;

verus! {

/// The mathematical content of one group: its representative path and its
/// ordered member paths.
pub ghost struct GroupView {
    pub representative: Seq<char>,
    pub members: Seq<Seq<char>>,
}

/// One group of files: a representative and the ordered members that travel
/// with it. The representative is always the first member.
pub struct FileGroup {
    pub representative: String,
    pub members: Vec<String>,
}

impl View for FileGroup {
    type V = GroupView;

    open spec fn view(&self) -> GroupView {
        GroupView { representative: self.representative@, members: self.members.deep_view() }
    }
}

/// The table of groups, in insertion order.
pub struct GroupTable {
    pub groups: Vec<FileGroup>,
}

impl View for GroupTable {
    type V = Seq<GroupView>;

    open spec fn view(&self) -> Seq<GroupView> {
        self.groups@.map_values(|g: FileGroup| g@)
    }
}

/// Whether `(i, k)` addresses a member of `t`.
pub open spec fn valid_index(t: Seq<GroupView>, i: int, k: int) -> bool {
    0 <= i < t.len() && 0 <= k < t[i].members.len()
}

/// The member of `t` at group `i`, position `k`.
pub open spec fn member_at(t: Seq<GroupView>, i: int, k: int) -> Seq<char> {
    t[i].members[k]
}

/// Whether the path `p` is a member of any group of `t`.
pub open spec fn contains_member(t: Seq<GroupView>, p: Seq<char>) -> bool {
    exists|i: int, k: int| valid_index(t, i, k) && member_at(t, i, k) == p
}

/// Whether some group of `t` is keyed by the representative `rep`.
pub open spec fn has_key(t: Seq<GroupView>, rep: Seq<char>) -> bool {
    exists|i: int| 0 <= i < t.len() && (#[trigger] t[i]).representative == rep
}

/// The index of the group keyed by `rep`.
pub open spec fn key_at(t: Seq<GroupView>, rep: Seq<char>) -> int {
    choose|i: int| 0 <= i < t.len() && (#[trigger] t[i]).representative == rep
}

/// Well-formedness of the table: every group holds its representative as its
/// first member, and no path stands in two member positions — so no path is
/// in two different groups, and no group holds a path twice.
pub open spec fn table_wf(t: Seq<GroupView>) -> bool {
    &&& forall|i: int|
        0 <= i < t.len() ==> (#[trigger] t[i]).members.len() >= 1 && t[i].members[0]
            == t[i].representative
    &&& forall|i: int, k: int, j: int, l: int|
        valid_index(t, i, k) && valid_index(t, j, l) && (i != j || k != l) ==> #[trigger] member_at(
            t,
            i,
            k,
        ) != #[trigger] member_at(t, j, l)
}

/// The total number of member paths across all groups of `t`.
pub open spec fn total_member_count(t: Seq<GroupView>) -> int
    decreases t.len(),
{
    if t.len() == 0 {
        0
    } else {
        total_member_count(t.drop_last()) + t.last().members.len()
    }
}

/// Group `i` of `t` with the path `m` appended — provided `m` is not yet a
/// member anywhere; a path already present is left where it is.
pub open spec fn add_member(t: Seq<GroupView>, idx: int, m: Seq<char>) -> Seq<GroupView> {
    if contains_member(t, m) {
        t
    } else {
        t.update(
            idx,
            GroupView { representative: t[idx].representative, members: t[idx].members.push(m) },
        )
    }
}

/// Group `i` of `t` extended with each path of `acc` in turn, skipping every
/// path that is already a member somewhere.
pub open spec fn add_members(t: Seq<GroupView>, idx: int, acc: Seq<Seq<char>>) -> Seq<GroupView>
    decreases acc.len(),
{
    if acc.len() == 0 {
        t
    } else {
        add_member(add_members(t, idx, acc.drop_last()), idx, acc.last())
    }
}

/// The table after recording a matched file `rep` with its accompanying
/// paths `acc`: a fresh representative opens a new group holding it, an
/// existing key extends its own group, and a representative already claimed
/// by another group changes nothing. Accompanying paths already claimed
/// anywhere are skipped.
pub open spec fn spec_insert(t: Seq<GroupView>, rep: Seq<char>, acc: Seq<Seq<char>>) -> Seq<
    GroupView,
> {
    if contains_member(t, rep) {
        if has_key(t, rep) {
            add_members(t, key_at(t, rep), acc)
        } else {
            t
        }
    } else {
        add_members(t.push(GroupView { representative: rep, members: seq![rep] }), t.len() as int, acc)
    }
}

/// Appending one path to a group preserves well-formedness, keeps every
/// group's representative, and grows the member set by exactly that path.
proof fn lemma_add_member(t: Seq<GroupView>, idx: int, m: Seq<char>)
    requires
        table_wf(t),
        0 <= idx < t.len(),
    ensures
        table_wf(add_member(t, idx, m)),
        add_member(t, idx, m).len() == t.len(),
        forall|i: int|
            0 <= i < t.len() ==> (#[trigger] add_member(t, idx, m)[i]).representative
                == t[i].representative,
        forall|p: Seq<char>|
            contains_member(add_member(t, idx, m), p) <==> contains_member(t, p) || p == m,
{
    if contains_member(t, m) {
    } else {
        let u = add_member(t, idx, m);
        let kk = t[idx].members.len() as int;
        assert(u[idx].members == t[idx].members.push(m));
        assert forall|i: int|
            0 <= i < u.len() implies (#[trigger] u[i]).members.len() >= 1 && u[i].members[0]
            == u[i].representative by {
            if i == idx {
                assert(u[idx].members[0] == t[idx].members[0]);
            }
        }
        assert forall|i: int, k: int, j: int, l: int|
            valid_index(u, i, k) && valid_index(u, j, l) && (i != j || k != l) implies #[trigger] member_at(
            u,
            i,
            k,
        ) != #[trigger] member_at(u, j, l) by {
            if i == idx && k == kk {
                assert(member_at(u, i, k) == m);
                assert(valid_index(t, j, l) && member_at(u, j, l) == member_at(t, j, l));
                assert(member_at(t, j, l) != m);
            } else if j == idx && l == kk {
                assert(member_at(u, j, l) == m);
                assert(valid_index(t, i, k) && member_at(u, i, k) == member_at(t, i, k));
                assert(member_at(t, i, k) != m);
            } else {
                assert(valid_index(t, i, k) && member_at(u, i, k) == member_at(t, i, k));
                assert(valid_index(t, j, l) && member_at(u, j, l) == member_at(t, j, l));
            }
        }
        assert forall|p: Seq<char>|
            contains_member(u, p) <==> contains_member(t, p) || p == m by {
            if contains_member(t, p) {
                let (i, k): (int, int) = choose|i: int, k: int|
                    valid_index(t, i, k) && member_at(t, i, k) == p;
                assert(valid_index(u, i, k) && member_at(u, i, k) == p);
            }
            if p == m {
                assert(valid_index(u, idx, kk) && member_at(u, idx, kk) == m);
            }
            if contains_member(u, p) && p != m {
                let (i, k): (int, int) = choose|i: int, k: int|
                    valid_index(u, i, k) && member_at(u, i, k) == p;
                if i == idx && k == kk {
                    assert(p == m);
                } else {
                    assert(valid_index(t, i, k) && member_at(t, i, k) == p);
                }
            }
        }
    }
}

/// Extending a group with a sequence of paths preserves well-formedness,
/// keeps every group's representative, and grows the member set by exactly
/// the paths of the sequence.
proof fn lemma_add_members(t: Seq<GroupView>, idx: int, acc: Seq<Seq<char>>)
    requires
        table_wf(t),
        0 <= idx < t.len(),
    ensures
        table_wf(add_members(t, idx, acc)),
        add_members(t, idx, acc).len() == t.len(),
        forall|i: int|
            0 <= i < t.len() ==> (#[trigger] add_members(t, idx, acc)[i]).representative
                == t[i].representative,
        forall|p: Seq<char>|
            contains_member(add_members(t, idx, acc), p) <==> contains_member(t, p)
                || acc.contains(p),
    decreases acc.len(),
{
    if acc.len() == 0 {
        assert forall|p: Seq<char>|
            contains_member(add_members(t, idx, acc), p) <==> contains_member(t, p)
                || acc.contains(p) by {
            if acc.contains(p) {
                let j = choose|j: int| 0 <= j < acc.len() && acc[j] == p;
            }
        }
    } else {
        lemma_add_members(t, idx, acc.drop_last());
        let mid = add_members(t, idx, acc.drop_last());
        lemma_add_member(mid, idx, acc.last());
        assert forall|p: Seq<char>|
            contains_member(add_members(t, idx, acc), p) <==> contains_member(t, p)
                || acc.contains(p) by {
            if contains_member(add_members(t, idx, acc), p) {
                if !contains_member(t, p) {
                    if acc.drop_last().contains(p) {
                        let j = choose|j: int|
                            0 <= j < acc.drop_last().len() && acc.drop_last()[j] == p;
                        assert(acc[j] == p);
                    } else {
                        assert(p == acc.last());
                        assert(acc[acc.len() - 1] == p);
                    }
                }
            }
            if acc.contains(p) {
                let j = choose|j: int| 0 <= j < acc.len() && acc[j] == p;
                if j < acc.len() - 1 {
                    assert(acc.drop_last()[j] == p);
                    assert(acc.drop_last().contains(p));
                } else {
                    assert(p == acc.last());
                }
            }
        }
    }
}

/// Recording a matched file preserves well-formedness; the members
/// afterwards are the members before, plus the representative and the
/// accompanying paths when the representative was not already claimed by
/// another group's members, and nothing else — so the table always holds
/// exactly one group per representative, and no path ever stands in two
/// groups.
pub proof fn lemma_spec_insert(t: Seq<GroupView>, rep: Seq<char>, acc: Seq<Seq<char>>)
    requires
        table_wf(t),
    ensures
        table_wf(spec_insert(t, rep, acc)),
        contains_member(t, rep) && !has_key(t, rep) ==> spec_insert(t, rep, acc) == t,
        has_key(t, rep) ==> forall|p: Seq<char>|
            contains_member(spec_insert(t, rep, acc), p) <==> contains_member(t, p)
                || acc.contains(p),
        !contains_member(t, rep) ==> forall|p: Seq<char>|
            contains_member(spec_insert(t, rep, acc), p) <==> contains_member(t, p) || p == rep
                || acc.contains(p),
        !contains_member(t, rep) ==> spec_insert(t, rep, acc).len() == t.len() + 1,
        contains_member(t, rep) ==> spec_insert(t, rep, acc).len() == t.len(),
        forall|p: Seq<char>|
            contains_member(t, p) ==> contains_member(spec_insert(t, rep, acc), p),
        contains_member(spec_insert(t, rep, acc), rep),
        forall|p: Seq<char>|
            has_key(spec_insert(t, rep, acc), p) <==> has_key(t, p) || (!contains_member(t, rep)
                && p == rep),
{
    if contains_member(t, rep) {
        if has_key(t, rep) {
            let idx = key_at(t, rep);
            assert(0 <= idx < t.len() && t[idx].representative == rep);
            lemma_add_members(t, idx, acc);
            let r = spec_insert(t, rep, acc);
            assert forall|p: Seq<char>| has_key(r, p) <==> has_key(t, p) || (!contains_member(
                t,
                rep,
            ) && p == rep) by {
                if has_key(t, p) {
                    let i = choose|i: int| 0 <= i < t.len() && t[i].representative == p;
                    assert(r[i].representative == t[i].representative);
                }
                if has_key(r, p) {
                    let i = choose|i: int| 0 <= i < r.len() && r[i].representative == p;
                    assert(r[i].representative == t[i].representative);
                    assert(t[i].representative == p);
                }
            }
        }
    } else {
        if has_key(t, rep) {
            let i = key_at(t, rep);
            assert(0 <= i < t.len() && t[i].representative == rep);
            assert(valid_index(t, i, 0) && member_at(t, i, 0) == rep);
        }
        assert(!has_key(t, rep));
        let g = GroupView { representative: rep, members: seq![rep] };
        let t1 = t.push(g);
        let n = t.len() as int;
        assert(t1[n].members[0] == rep);
        assert forall|i: int|
            0 <= i < t1.len() implies (#[trigger] t1[i]).members.len() >= 1 && t1[i].members[0]
            == t1[i].representative by {
            if i < n {
                assert(t1[i] == t[i]);
            }
        }
        assert(table_wf(t1)) by {
            assert forall|i: int, k: int, j: int, l: int|
                valid_index(t1, i, k) && valid_index(t1, j, l) && (i != j || k != l) implies #[trigger] member_at(
                t1,
                i,
                k,
            ) != #[trigger] member_at(t1, j, l) by {
                if i == n {
                    assert(k == 0 && member_at(t1, i, k) == rep);
                    assert(j < n && valid_index(t, j, l));
                    assert(member_at(t1, j, l) == member_at(t, j, l));
                    assert(member_at(t, j, l) != rep);
                } else if j == n {
                    assert(l == 0 && member_at(t1, j, l) == rep);
                    assert(i < n && valid_index(t, i, k));
                    assert(member_at(t1, i, k) == member_at(t, i, k));
                    assert(member_at(t, i, k) != rep);
                } else {
                    assert(valid_index(t, i, k) && member_at(t1, i, k) == member_at(t, i, k));
                    assert(valid_index(t, j, l) && member_at(t1, j, l) == member_at(t, j, l));
                }
            }
        }
        lemma_add_members(t1, n, acc);
        assert forall|p: Seq<char>|
            contains_member(spec_insert(t, rep, acc), p) <==> contains_member(t, p) || p == rep
                || acc.contains(p) by {
            assert(contains_member(spec_insert(t, rep, acc), p) <==> contains_member(t1, p)
                || acc.contains(p));
            assert(contains_member(t1, p) <==> contains_member(t, p) || p == rep) by {
                if contains_member(t, p) {
                    let (i, k): (int, int) = choose|i: int, k: int|
                        valid_index(t, i, k) && member_at(t, i, k) == p;
                    assert(valid_index(t1, i, k) && member_at(t1, i, k) == p);
                }
                if p == rep {
                    assert(valid_index(t1, n, 0) && member_at(t1, n, 0) == rep);
                }
                if contains_member(t1, p) {
                    let (i, k): (int, int) = choose|i: int, k: int|
                        valid_index(t1, i, k) && member_at(t1, i, k) == p;
                    if i < n {
                        assert(valid_index(t, i, k) && member_at(t, i, k) == p);
                    } else {
                        assert(p == rep);
                    }
                }
            }
        }
        let r = spec_insert(t, rep, acc);
        assert forall|p: Seq<char>| has_key(r, p) <==> has_key(t, p) || (!contains_member(t, rep)
            && p == rep) by {
            if has_key(t, p) {
                let i = choose|i: int| 0 <= i < t.len() && t[i].representative == p;
                assert(t1[i].representative == p);
                assert(r[i].representative == t1[i].representative);
            }
            if p == rep {
                assert(t1[n].representative == rep);
                assert(r[n].representative == t1[n].representative);
            }
            if has_key(r, p) {
                let i = choose|i: int| 0 <= i < r.len() && r[i].representative == p;
                assert(r[i].representative == t1[i].representative);
                if i < n {
                    assert(t[i].representative == p);
                } else {
                    assert(p == rep);
                }
            }
        }
    }
}

/// In a well-formed table representatives are unique: two groups keyed by
/// the same representative are the same group.
pub proof fn lemma_key_unique(t: Seq<GroupView>, i: int, j: int)
    requires
        table_wf(t),
        0 <= i < t.len(),
        0 <= j < t.len(),
        t[i].representative == t[j].representative,
    ensures
        i == j,
{
    if i != j {
        assert(member_at(t, i, 0) == t[i].representative);
        assert(member_at(t, j, 0) == t[j].representative);
        assert(valid_index(t, i, 0) && valid_index(t, j, 0));
        assert(member_at(t, i, 0) != member_at(t, j, 0));
    }
}

impl GroupTable {
    /// An empty table.
    pub fn new() -> (t: GroupTable)
        ensures
            t@ == Seq::<GroupView>::empty(),
            table_wf(t@),
    {
        let t = GroupTable { groups: Vec::new() };
        proof {
            assert(t@ =~= Seq::<GroupView>::empty());
        }
        t
    }

    /// The number of groups.
    pub fn len(&self) -> (n: usize)
        ensures
            n == self@.len(),
    {
        self.groups.len()
    }

    /// Whether `p` is already a member of some group.
    pub fn contains_member(&self, p: &str) -> (r: bool)
        ensures
            r == contains_member(self@, p@),
    {
        let n = self.groups.len();
        let mut i: usize = 0;
        while i < n
            invariant
                i <= n,
                n == self@.len(),
                self@ == self.groups@.map_values(|g: FileGroup| g@),
                forall|ii: int, k: int|
                    valid_index(self@, ii, k) && ii < i ==> member_at(self@, ii, k) != p@,
            decreases n - i,
        {
            let g = &self.groups[i];
            let m = g.members.len();
            let mut k: usize = 0;
            while k < m
                invariant
                    k <= m,
                    i < n,
                    n == self@.len(),
                    self@ == self.groups@.map_values(|g: FileGroup| g@),
                    g == self.groups@[i as int],
                    m == self@[i as int].members.len(),
                    forall|kk: int| 0 <= kk < k ==> member_at(self@, i as int, kk) != p@,
                decreases m - k,
            {
                if str_eq(g.members[k].as_str(), p) {
                    proof {
                        assert(self@[i as int].members[k as int] == g.members@[k as int]@);
                        assert(valid_index(self@, i as int, k as int));
                        assert(member_at(self@, i as int, k as int) == p@);
                    }
                    return true;
                }
                proof {
                    assert(member_at(self@, i as int, k as int) == g.members@[k as int]@);
                }
                k = k + 1;
            }
            i = i + 1;
        }
        proof {
            if contains_member(self@, p@) {
                let (i, k): (int, int) = choose|i: int, k: int|
                    valid_index(self@, i, k) && member_at(self@, i, k) == p@;
                assert(member_at(self@, i, k) != p@);
            }
        }
        false
    }

    /// The position of the group keyed by `rep`, if there is one.
    fn find_key(&self, rep: &str) -> (r: Option<usize>)
        ensures
            match r {
                Some(i) => i < self@.len() && self@[i as int].representative == rep@,
                None => !has_key(self@, rep@),
            },
    {
        let n = self.groups.len();
        let mut i: usize = 0;
        while i < n
            invariant
                i <= n,
                n == self@.len(),
                self@ == self.groups@.map_values(|g: FileGroup| g@),
                forall|ii: int| 0 <= ii < i ==> (#[trigger] self@[ii]).representative != rep@,
            decreases n - i,
        {
            if str_eq(self.groups[i].representative.as_str(), rep) {
                proof {
                    assert(self@[i as int].representative == rep@);
                }
                return Some(i);
            }
            proof {
                assert(self@[i as int].representative == self.groups@[i as int].representative@);
            }
            i = i + 1;
        }
        None
    }

    /// Records the matched file `rep` together with its accompanying paths
    /// `acc`: a fresh representative opens a new group that holds it first, a
    /// representative that already keys a group extends that group, and one
    /// already claimed by another group leaves the table unchanged; every
    /// accompanying path already claimed anywhere is skipped. The table stays
    /// well-formed: one group per representative, no path in two groups.
    pub fn insert_group(&mut self, rep: &str, acc: &Vec<String>)
        requires
            table_wf(old(self)@),
        ensures
            final(self)@ == spec_insert(old(self)@, rep@, acc.deep_view()),
            table_wf(final(self)@),
    {
        proof {
            lemma_spec_insert(old(self)@, rep@, acc.deep_view());
        }
        let ghost t0 = self@;
        let idx: usize;
        match self.find_key(rep) {
            Some(i) => {
                proof {
                    assert(member_at(t0, i as int, 0) == rep@);
                    assert(valid_index(t0, i as int, 0));
                    assert(contains_member(t0, rep@));
                    assert(has_key(t0, rep@));
                    lemma_key_unique(t0, i as int, key_at(t0, rep@));
                }
                idx = i;
            },
            None => {
                if self.contains_member(rep) {
                    // The representative is claimed by another group: nothing
                    // to record.
                    return;
                }
                let mut members: Vec<String> = Vec::new();
                members.push(rep.to_owned());
                self.groups.push(FileGroup { representative: rep.to_owned(), members });
                idx = self.groups.len() - 1;
                proof {
                    let g = GroupView { representative: rep@, members: seq![rep@] };
                    assert(self.groups@[t0.len() as int]@.members =~= seq![rep@]);
                    assert(self.groups@[t0.len() as int]@ == g);
                    assert(self@ =~= t0.push(g));
                }
            },
        }
        let ghost t1 = self@;
        proof {
            if has_key(t0, rep@) {
            } else {
                lemma_spec_insert(t0, rep@, Seq::<Seq<char>>::empty());
                assert(add_members(t1, idx as int, Seq::<Seq<char>>::empty()) == t1);
                assert(table_wf(t1));
            }
            assert(table_wf(t1));
            assert(0 <= idx < t1.len());
            assert(acc.deep_view().take(0) =~= Seq::<Seq<char>>::empty());
        }
        let n = acc.len();
        let mut k: usize = 0;
        #[verifier::loop_isolation(false)]
        while k < n
            invariant
                k <= n,
                self@ == add_members(t1, idx as int, acc.deep_view().take(k as int)),
                table_wf(self@),
                self@.len() == t1.len(),
            decreases n - k,
        {
            proof {
                lemma_add_members(t1, idx as int, acc.deep_view().take(k as int));
            }
            let present = self.contains_member(acc[k].as_str());
            if !present {
                let g = &mut self.groups[idx];
                g.members.push(acc[k].clone());
            }
            proof {
                let accv = acc.deep_view();
                assert(accv.take(k + 1).drop_last() =~= accv.take(k as int));
                assert(accv.take(k + 1).last() == accv[k as int]);
                assert(accv[k as int] == acc@[k as int]@);
                let mid = add_members(t1, idx as int, accv.take(k as int));
                if present {
                    assert(self@ == add_member(mid, idx as int, accv[k as int]));
                } else {
                    let gv = GroupView {
                        representative: mid[idx as int].representative,
                        members: mid[idx as int].members.push(accv[k as int]),
                    };
                    assert(self@[idx as int].members =~= mid[idx as int].members.push(
                        accv[k as int],
                    ));
                    assert(self@ =~~= mid.update(idx as int, gv));
                    assert(self@ == add_member(mid, idx as int, accv[k as int]));
                }
                assert(self@ == add_members(t1, idx as int, accv.take(k + 1)));
                lemma_add_members(t1, idx as int, accv.take(k + 1));
            }
            k = k + 1;
        }
        proof {
            assert(acc.deep_view().take(n as int) =~= acc.deep_view());
            if has_key(t0, rep@) {
                assert(t1 == t0);
                assert(idx as int == key_at(t0, rep@)) by {
                    lemma_key_unique(t0, idx as int, key_at(t0, rep@));
                }
            }
        }
    }
}

} // verus!

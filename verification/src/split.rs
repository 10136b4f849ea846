//! The grouping and distribution engine.
//!
//! A split runs in three strictly sequential phases. Discover walks the
//! source tree with the wildcard extension, asks a [`FileMatcher`] which
//! files become group representatives and which siblings accompany them, and
//! builds the group table. Prepare computes the target directory names from
//! the naming templates and the output directory. Distribute assigns the
//! groups round-robin to the target directories. The engine decides all of
//! this over a tree given as a value; the caller carries out the directory
//! creation and the copies the returned plan calls for.

use vstd::prelude::*;

use crate::fs::has_extension;
use crate::groups::{
    contains_member, has_key, spec_insert, table_wf, total_member_count, GroupTable, GroupView,
};
use crate::paths::{extension_of, join_path};
use crate::pattern::{matching_paths, scan_completes, Pattern};
use crate::strings::{dec_seq, subst_index, substitute_index, usize_to_string};
use crate::walk::{excluded, file_ext_matches, spec_walk_entry, spec_walk_list, FsEntry};

verus! {

/// What can go wrong while splitting: a split into zero directories, an
/// accompanying-file pattern the engine rejects, a pattern match the engine
/// gives up on at run time, or a failure of a caller-supplied matcher.
#[derive(Clone, Copy, Debug, PartialEq, Eq, Structural)]
pub enum SplitError {
    /// The configuration asks for zero target directories.
    NoTargetDirectories,
    /// An accompanying-file pattern is not a valid regular expression.
    InvalidPattern,
    /// The regular-expression engine failed at run time while matching.
    PatternMatchFailed,
    /// A caller-supplied matcher failed.
    MatcherFailed,
}

/// Configuration of one split operation: the source directory, an optional
/// distinct output directory (the source by default), the number of target
/// directories, the naming templates (the prefix holds a `{}` placeholder for
/// the directory index; the suffix is appended as it is), and optional
/// patterns for accompanying files.
pub struct SplitConfig {
    /// Source directory to split.
    pub source_dir: String,
    /// Output directory, when different from the source.
    pub output_dir: Option<String>,
    /// Number of target directories to create.
    pub num_dirs: usize,
    /// Template for a directory name's prefix, e.g. `part_{}`.
    pub prefix_format: String,
    /// Template for a directory name's suffix, e.g. `_batch`.
    pub suffix_format: String,
    /// Patterns that pick accompanying files, applied to full paths.
    pub regex_patterns: Option<Vec<Pattern>>,
}

impl SplitConfig {
    /// A configuration with the given source directory and number of target
    /// directories, prefix `part_{}`, empty suffix, no distinct output
    /// directory and no accompanying-file patterns.
    pub fn new(source_dir: &str, num_dirs: usize) -> (c: SplitConfig)
        ensures
            c.source_dir@ == source_dir@,
            c.output_dir is None,
            c.num_dirs == num_dirs,
            c.prefix_format@ == "part_{}"@,
            c.suffix_format@ == Seq::<char>::empty(),
            c.regex_patterns is None,
    {
        SplitConfig {
            source_dir: source_dir.to_owned(),
            output_dir: None,
            num_dirs,
            prefix_format: "part_{}".to_owned(),
            suffix_format: String::new(),
            regex_patterns: None,
        }
    }

    /// The same configuration with the output directory set.
    pub fn with_output_dir(self, output_dir: &str) -> (c: SplitConfig)
        ensures
            c.output_dir matches Some(d) && d@ == output_dir@,
            c.source_dir == self.source_dir,
            c.num_dirs == self.num_dirs,
            c.prefix_format == self.prefix_format,
            c.suffix_format == self.suffix_format,
            c.regex_patterns == self.regex_patterns,
    {
        SplitConfig { output_dir: Some(output_dir.to_owned()), ..self }
    }

    /// The same configuration with both naming templates set.
    pub fn with_naming(self, prefix_format: &str, suffix_format: &str) -> (c: SplitConfig)
        ensures
            c.prefix_format@ == prefix_format@,
            c.suffix_format@ == suffix_format@,
            c.source_dir == self.source_dir,
            c.output_dir == self.output_dir,
            c.num_dirs == self.num_dirs,
            c.regex_patterns == self.regex_patterns,
    {
        SplitConfig {
            prefix_format: prefix_format.to_owned(),
            suffix_format: suffix_format.to_owned(),
            ..self
        }
    }

    /// The same configuration with the accompanying-file patterns set.
    pub fn with_regex_patterns(self, patterns: Vec<Pattern>) -> (c: SplitConfig)
        ensures
            c.regex_patterns matches Some(ps) && ps == patterns,
            c.source_dir == self.source_dir,
            c.output_dir == self.output_dir,
            c.num_dirs == self.num_dirs,
            c.prefix_format == self.prefix_format,
            c.suffix_format == self.suffix_format,
    {
        SplitConfig { regex_patterns: Some(patterns), ..self }
    }

    /// The directory under which the target directories are created: the
    /// output directory when set, the source directory otherwise.
    pub open spec fn output_base(self) -> Seq<char> {
        match self.output_dir {
            Some(d) => d@,
            None => self.source_dir@,
        }
    }

    /// The name of target directory `i`: the prefix template with `{}`
    /// replaced by `i` in decimal, then the suffix template.
    pub open spec fn spec_dir_name(self, i: nat) -> Seq<char> {
        subst_index(self.prefix_format@, dec_seq(i)) + self.suffix_format@
    }

    /// The full path of target directory `i`.
    pub open spec fn spec_target_dir(self, i: nat) -> Seq<char> {
        join_path(self.output_base(), self.spec_dir_name(i))
    }

    /// The full paths of the target directories, in index order `0..num_dirs`
    /// — the order in which the caller is to create them. A request for zero
    /// target directories is invalid and fails before anything else is done.
    pub fn target_dir_names(&self) -> (r: Result<Vec<String>, SplitError>)
        ensures
            r is Err <==> self.num_dirs == 0,
            r matches Err(e) ==> e == SplitError::NoTargetDirectories,
            r matches Ok(names) ==> {
                &&& names@.len() == self.num_dirs
                &&& forall|i: int|
                    0 <= i < names@.len() ==> (#[trigger] names@[i])@ == self.spec_target_dir(
                        i as nat,
                    )
            },
    {
        if self.num_dirs == 0 {
            return Err(SplitError::NoTargetDirectories);
        }
        let base: &str = match &self.output_dir {
            Some(d) => d.as_str(),
            None => self.source_dir.as_str(),
        };
        let mut names: Vec<String> = Vec::new();
        let n = self.num_dirs;
        let mut i: usize = 0;
        #[verifier::loop_isolation(false)]
        while i < n
            invariant
                i <= n,
                names@.len() == i,
                base@ == self.output_base(),
                forall|j: int|
                    0 <= j < i ==> (#[trigger] names@[j])@ == self.spec_target_dir(j as nat),
            decreases n - i,
        {
            let digits = usize_to_string(i);
            let mut dir_name = substitute_index(self.prefix_format.as_str(), digits.as_str());
            dir_name.append(self.suffix_format.as_str());
            let path = crate::paths::path_join(base, dir_name.as_str());
            let ghost prev = names@;
            names.push(path);
            proof {
                assert forall|j: int| 0 <= j < i + 1 implies (#[trigger] names@[j])@
                    == self.spec_target_dir(j as nat) by {
                    if j < i {
                        assert(names@[j] == prev[j]);
                    }
                }
            }
            i = i + 1;
        }
        Ok(names)
    }
}

/// One group's place in the distribution: the index of the target directory
/// it lands in, and the files to copy there.
pub struct GroupAssignment {
    /// Index into the created target directories.
    pub dir_index: usize,
    /// The member files of the group, copied into that directory.
    pub files: Vec<String>,
}

/// The mathematical content of one assignment.
pub ghost struct AssignmentView {
    pub dir_index: int,
    pub files: Seq<Seq<char>>,
}

impl View for GroupAssignment {
    type V = AssignmentView;

    open spec fn view(&self) -> AssignmentView {
        AssignmentView { dir_index: self.dir_index as int, files: self.files.deep_view() }
    }
}

/// The views of a plan's assignments.
pub open spec fn plan_view(plan: Seq<GroupAssignment>) -> Seq<AssignmentView> {
    plan.map_values(|a: GroupAssignment| a@)
}

/// The total number of files a plan copies.
pub open spec fn total_planned_files(p: Seq<AssignmentView>) -> int
    decreases p.len(),
{
    if p.len() == 0 {
        0
    } else {
        total_planned_files(p.drop_last()) + p.last().files.len()
    }
}

/// How many of a plan's groups land in target directory `d`.
pub open spec fn count_assigned(p: Seq<AssignmentView>, d: int) -> int
    decreases p.len(),
{
    if p.len() == 0 {
        0
    } else {
        count_assigned(p.drop_last(), d) + if p.last().dir_index == d {
            1int
        } else {
            0int
        }
    }
}

/// Round trip of the distribution: a plan that assigns every group's members
/// verbatim copies exactly as many files as the table holds members — the
/// sum of member counts across all target directories equals the total
/// number of files placed during discovery.
pub proof fn lemma_distribution_round_trip(t: Seq<GroupView>, p: Seq<AssignmentView>)
    requires
        p.len() == t.len(),
        forall|i: int| 0 <= i < p.len() ==> (#[trigger] p[i]).files == t[i].members,
    ensures
        total_planned_files(p) == total_member_count(t),
    decreases p.len(),
{
    if p.len() > 0 {
        lemma_distribution_round_trip(t.drop_last(), p.drop_last());
        assert(forall|i: int|
            0 <= i < p.drop_last().len() ==> (#[trigger] p.drop_last()[i]).files
                == t.drop_last()[i].members);
        assert(p.last().files == t.last().members);
    }
}

/// How many of the indices `0 .. g` land on residue `d` modulo `k`.
spec fn count_mod(g: int, k: int, d: int) -> int
    decreases
            if g >= 0 {
                g
            } else {
                0
            },
{
    if g <= 0 {
        0
    } else {
        count_mod(g - 1, k, d) + if (g - 1) % k == d {
            1int
        } else {
            0int
        }
    }
}

/// Exactly `g / k + 1` of the indices `0 .. g` land on residue `d` when
/// `d < g % k`, and `g / k` otherwise.
proof fn lemma_count_mod(g: int, k: int, d: int)
    requires
        g >= 0,
        k >= 1,
        0 <= d < k,
    ensures
        count_mod(g, k, d) == if d < g % k {
            g / k + 1
        } else {
            g / k
        },
    decreases g,
{
    if g == 0 {
        assert(0int % k == 0) by (nonlinear_arith)
            requires
                k >= 1,
        ;
        assert(0int / k == 0) by (nonlinear_arith)
            requires
                k >= 1,
        ;
    } else {
        lemma_count_mod(g - 1, k, d);
        let q = (g - 1) / k;
        let r = (g - 1) % k;
        vstd::arithmetic::div_mod::lemma_fundamental_div_mod(g - 1, k);
        vstd::arithmetic::div_mod::lemma_mod_bound(g - 1, k);
        assert(g - 1 == k * q + r);
        assert(0 <= r < k);
        if r + 1 == k {
            assert(g == (q + 1) * k + 0) by (nonlinear_arith)
                requires
                    g - 1 == k * q + r,
                    r + 1 == k,
            ;
            vstd::arithmetic::div_mod::lemma_fundamental_div_mod_converse(g, k, q + 1, 0);
            assert(g % k == 0 && g / k == q + 1);
        } else {
            assert(g == q * k + (r + 1)) by (nonlinear_arith)
                requires
                    g - 1 == k * q + r,
            ;
            vstd::arithmetic::div_mod::lemma_fundamental_div_mod_converse(g, k, q, r + 1);
            assert(g % k == r + 1 && g / k == q);
        }
    }
}

/// A plan's per-directory counts agree with counting residues.
proof fn lemma_count_assigned_mod(p: Seq<AssignmentView>, k: int, d: int)
    requires
        k >= 1,
        forall|i: int| 0 <= i < p.len() ==> (#[trigger] p[i]).dir_index == i % k,
    ensures
        count_assigned(p, d) == count_mod(p.len() as int, k, d),
    decreases p.len(),
{
    if p.len() > 0 {
        lemma_count_assigned_mod(p.drop_last(), k, d);
        assert(forall|i: int|
            0 <= i < p.drop_last().len() ==> (#[trigger] p.drop_last()[i]).dir_index == i % k);
        assert(p.last().dir_index == (p.len() - 1) % k);
    }
}

/// Distribution balance: under round-robin assignment over `k` target
/// directories, every directory receives either `floor(g / k)` or
/// `ceil(g / k)` of the `g` groups — exactly one more than `floor(g / k)`
/// for the first `g % k` directories.
pub proof fn lemma_distribution_balanced(p: Seq<AssignmentView>, k: int, d: int)
    requires
        k >= 1,
        0 <= d < k,
        forall|i: int| 0 <= i < p.len() ==> (#[trigger] p[i]).dir_index == i % k,
    ensures
        count_assigned(p, d) == if d < p.len() as int % k {
            p.len() as int / k + 1
        } else {
            p.len() as int / k
        },
        count_assigned(p, d) == p.len() as int / k || count_assigned(p, d) == p.len() as int / k
            + 1,
{
    lemma_count_assigned_mod(p, k, d);
    lemma_count_mod(p.len() as int, k, d);
    vstd::arithmetic::div_mod::lemma_mod_bound(p.len() as int, k);
}

/// The round-robin distribution of the table's groups over `num_dirs` target
/// directories: group `i` lands in directory `i % num_dirs` with all its
/// members. The plan copies exactly as many files as the table holds
/// members, and every directory receives `floor` or `ceil` of
/// `groups / num_dirs` groups (see [`lemma_distribution_balanced`]).
pub fn distribution_plan(table: &GroupTable, num_dirs: usize) -> (plan: Vec<GroupAssignment>)
    requires
        num_dirs >= 1,
    ensures
        plan@.len() == table@.len(),
        forall|i: int|
            0 <= i < plan@.len() ==> (#[trigger] plan_view(plan@)[i]).dir_index == i % (
            num_dirs as int) && plan_view(plan@)[i].files == table@[i].members,
        total_planned_files(plan_view(plan@)) == total_member_count(table@),
{
    let n = table.len();
    let mut plan: Vec<GroupAssignment> = Vec::new();
    let mut i: usize = 0;
    let mut current_dir: usize = 0;
    #[verifier::loop_isolation(false)]
    while i < n
        invariant
            i <= n,
            plan@.len() == i,
            current_dir == (i as int) % (num_dirs as int),
            forall|j: int|
                0 <= j < i ==> (#[trigger] plan_view(plan@)[j]).dir_index == j % (num_dirs as int)
                    && plan_view(plan@)[j].files == table@[j].members,
        decreases n - i,
    {
        let files = clone_string_vec(&table.groups[i].members);
        let ghost prev = plan@;
        plan.push(GroupAssignment { dir_index: current_dir, files });
        proof {
            let k = num_dirs as int;
            assert forall|j: int| 0 <= j < i + 1 implies (#[trigger] plan_view(plan@)[j]).dir_index
                == j % k && plan_view(plan@)[j].files == table@[j].members by {
                assert(plan_view(plan@)[j] == plan@[j]@);
                if j < i {
                    assert(plan@[j] == prev[j]);
                    assert(plan_view(prev)[j] == prev[j]@);
                } else {
                    assert(plan@[j].dir_index == current_dir);
                    assert(table@[j] == table.groups@[j]@);
                }
            }
        }
        current_dir = current_dir + 1;
        if current_dir == num_dirs {
            current_dir = 0;
        }
        proof {
            let ni = i + 1;
            let k = num_dirs as int;
            vstd::arithmetic::div_mod::lemma_mod_bound(i as int, k);
            if (i as int) % k + 1 == k {
                assert(ni % k == 0) by (nonlinear_arith)
                    requires
                        ni == i + 1,
                        (i as int) % k + 1 == k,
                        k >= 1,
                ;
            } else {
                assert(ni % k == (i as int) % k + 1) by (nonlinear_arith)
                    requires
                        ni == i + 1,
                        0 <= (i as int) % k,
                        (i as int) % k + 1 < k,
                        k >= 1,
                ;
            }
        }
        i = i + 1;
    }
    proof {
        lemma_plan_total(table@, plan_view(plan@));
    }
    plan
}

/// A plan that assigns every group's members verbatim copies exactly the
/// table's total member count.
proof fn lemma_plan_total(t: Seq<GroupView>, p: Seq<AssignmentView>)
    requires
        p.len() == t.len(),
        forall|i: int| 0 <= i < p.len() ==> (#[trigger] p[i]).files == t[i].members,
    ensures
        total_planned_files(p) == total_member_count(t),
{
    lemma_distribution_round_trip(t, p);
}

/// Clones a vector of strings, keeping its view.
fn clone_string_vec(v: &Vec<String>) -> (r: Vec<String>)
    ensures
        r.deep_view() == v.deep_view(),
{
    let mut out: Vec<String> = Vec::new();
    let n = v.len();
    let mut i: usize = 0;
    #[verifier::loop_isolation(false)]
    while i < n
        invariant
            i <= n,
            out.deep_view() == v.deep_view().take(i as int),
        decreases n - i,
    {
        out.push(v[i].clone());
        proof {
            assert(out.deep_view() =~= v.deep_view().take(i + 1));
        }
        i = i + 1;
    }
    proof {
        assert(v.deep_view().take(n as int) =~= v.deep_view());
    }
    out
}


/// The capability that decides which files a split groups: whether a file
/// becomes a group representative, and which of the files beside it in its
/// directory accompany it. Implementations fix both decisions in the two
/// spec functions; the executable operations may fail, but whatever they
/// return agrees with those decisions.
pub trait FileMatcher: Sized {
    /// Whether the file at `path` becomes a group representative.
    spec fn spec_is_match(&self, path: Seq<char>) -> bool;

    /// The accompanying files chosen from `siblings`, the files in `path`\'s
    /// directory, for a representative at `path`.
    spec fn spec_accompanying(&self, path: Seq<char>, siblings: Seq<Seq<char>>) -> Seq<Seq<char>>;

    /// Decides whether the file at `path` becomes a group representative.
    fn is_match(&self, path: &str) -> (r: Result<bool, SplitError>)
        ensures
            r matches Ok(b) ==> b == self.spec_is_match(path@),
    ;

    /// Picks from `siblings` — the files in `path`\'s directory — those that
    /// accompany the representative at `path`.
    fn find_accompanying_files(&self, path: &str, siblings: &Vec<String>) -> (r: Result<
        Vec<String>,
        SplitError,
    >)
        ensures
            r matches Ok(v) ==> v.deep_view() == self.spec_accompanying(
                path@,
                siblings.deep_view(),
            ),
    ;
}

/// A matcher driven by a file extension and regular-expression patterns: a
/// file becomes a representative when it bears the match extension, and a
/// sibling accompanies it when any pattern matches the sibling\'s full path.
pub struct RegexFileMatcher {
    /// The extension a file must bear to become a representative.
    pub match_extension: String,
    /// Patterns that pick accompanying files by their full path; none means
    /// no file accompanies any representative.
    pub regex_patterns: Option<Vec<Pattern>>,
}

impl FileMatcher for RegexFileMatcher {
    open spec fn spec_is_match(&self, path: Seq<char>) -> bool {
        extension_of(path) == Some(self.match_extension@)
    }

    open spec fn spec_accompanying(&self, path: Seq<char>, siblings: Seq<Seq<char>>) -> Seq<
        Seq<char>,
    > {
        match self.regex_patterns {
            Some(ps) => matching_paths(ps.deep_view(), siblings),
            None => Seq::empty(),
        }
    }

    fn is_match(&self, path: &str) -> (r: Result<bool, SplitError>)
        ensures
            r is Ok,
    {
        Ok(has_extension(path, self.match_extension.as_str()))
    }

    fn find_accompanying_files(&self, path: &str, siblings: &Vec<String>) -> (r: Result<
        Vec<String>,
        SplitError,
    >)
        ensures
            r is Ok <==> (match self.regex_patterns {
                None => true,
                Some(ps) => forall|j: int|
                    0 <= j < siblings.deep_view().len() ==> scan_completes(
                        ps.deep_view(),
                        #[trigger] siblings.deep_view()[j],
                    ),
            }),
    {
        match &self.regex_patterns {
            Some(ps) => crate::pattern::filter_matching(ps, siblings),
            None => {
                let v: Vec<String> = Vec::new();
                proof {
                    assert(v.deep_view() =~= Seq::<Seq<char>>::empty());
                }
                Ok(v)
            },
        }
    }
}

/// A regex-driven matcher never takes a path without extension information
/// as a group representative: whatever it matches bears its match extension.
pub proof fn lemma_regex_matcher_needs_extension(m: RegexFileMatcher, path: Seq<char>)
    requires
        m.spec_is_match(path),
    ensures
        extension_of(path) is Some,
{
}

/// The full paths of the files among `es`, the entries of the directory at
/// `dir_path`: what a matcher sees as the siblings of a file there.
pub open spec fn spec_sibling_files(es: Seq<FsEntry>, dir_path: Seq<char>) -> Seq<Seq<char>>
    decreases es.len(),
{
    if es.len() == 0 {
        Seq::empty()
    } else {
        spec_sibling_files(es.drop_last(), dir_path) + match es.last() {
            FsEntry::File { name } => seq![join_path(dir_path, name@)],
            FsEntry::Dir { .. } => Seq::empty(),
        }
    }
}

/// The group table after discovery has processed the entries `es` of the
/// directory at `dir_path`, left to right, starting from `t`; `siblings` are
/// the files of that directory.
pub open spec fn spec_discover_list<M: FileMatcher>(
    m: M,
    es: Seq<FsEntry>,
    dir_path: Seq<char>,
    siblings: Seq<Seq<char>>,
    t: Seq<GroupView>,
) -> Seq<GroupView>
    decreases es, 0int,
{
    if es.len() == 0 {
        t
    } else {
        spec_discover_entry(
            m,
            es.last(),
            dir_path,
            siblings,
            spec_discover_list(m, es.drop_last(), dir_path, siblings, t),
        )
    }
}

/// The group table after discovery has processed the single entry `e`: an
/// excluded entry contributes nothing; a matched file is recorded with the
/// accompanying files the matcher picks from its siblings; a directory is
/// descended into.
pub open spec fn spec_discover_entry<M: FileMatcher>(
    m: M,
    e: FsEntry,
    dir_path: Seq<char>,
    siblings: Seq<Seq<char>>,
    t: Seq<GroupView>,
) -> Seq<GroupView>
    decreases e, 1int,
{
    if excluded(e.name_view()) {
        t
    } else {
        match e {
            FsEntry::File { name } => {
                let p = join_path(dir_path, name@);
                if m.spec_is_match(p) {
                    spec_insert(t, p, m.spec_accompanying(p, siblings))
                } else {
                    t
                }
            },
            FsEntry::Dir { name, entries } => {
                let p = join_path(dir_path, name@);
                spec_discover_list(m, entries@, p, spec_sibling_files(entries@, p), t)
            },
        }
    }
}

/// The group table that discovery builds over the entries `es` of the source
/// directory at `source`.
pub open spec fn spec_discover<M: FileMatcher>(m: M, es: Seq<FsEntry>, source: Seq<char>) -> Seq<
    GroupView,
> {
    spec_discover_list(m, es, source, spec_sibling_files(es, source), Seq::empty())
}

/// Discovery covers exactly the matched files. Every file the wildcard walk
/// yields that the matcher accepts ends up recorded in the table — as the
/// representative of its own group, or as a member an earlier group already
/// claimed — and conversely every group is keyed by such a matched file.
/// Together with the table's well-formedness this is the shape of the table
/// after the Discover phase: one group per recorded representative, and no
/// path in two groups.
pub proof fn lemma_discover_coverage<M: FileMatcher>(m: M, es: Seq<FsEntry>, source: Seq<char>)
    ensures
        table_wf(spec_discover(m, es, source)),
        forall|k: int|
            0 <= k < spec_walk_list(es, seq!['*'], source).len() && m.spec_is_match(
                #[trigger] spec_walk_list(es, seq!['*'], source)[k],
            ) ==> contains_member(
                spec_discover(m, es, source),
                spec_walk_list(es, seq!['*'], source)[k],
            ),
        forall|p: Seq<char>|
            #[trigger] has_key(spec_discover(m, es, source), p) ==> spec_walk_list(
                es,
                seq!['*'],
                source,
            ).contains(p) && m.spec_is_match(p),
{
    let empty = Seq::<GroupView>::empty();
    assert(table_wf(empty));
    lemma_discover_list_coverage(m, es, source, spec_sibling_files(es, source), empty);
    assert forall|p: Seq<char>| #[trigger] has_key(spec_discover(m, es, source), p) implies spec_walk_list(
        es,
        seq!['*'],
        source,
    ).contains(p) && m.spec_is_match(p) by {
        if has_key(empty, p) {
            let i = choose|i: int| 0 <= i < empty.len() && empty[i].representative == p;
        }
    }
}

proof fn lemma_discover_list_coverage<M: FileMatcher>(
    m: M,
    es: Seq<FsEntry>,
    dir_path: Seq<char>,
    siblings: Seq<Seq<char>>,
    t: Seq<GroupView>,
)
    requires
        table_wf(t),
    ensures
        table_wf(spec_discover_list(m, es, dir_path, siblings, t)),
        forall|p: Seq<char>|
            contains_member(t, p) ==> contains_member(
                spec_discover_list(m, es, dir_path, siblings, t),
                p,
            ),
        forall|k: int|
            0 <= k < spec_walk_list(es, seq!['*'], dir_path).len() && m.spec_is_match(
                #[trigger] spec_walk_list(es, seq!['*'], dir_path)[k],
            ) ==> contains_member(
                spec_discover_list(m, es, dir_path, siblings, t),
                spec_walk_list(es, seq!['*'], dir_path)[k],
            ),
        forall|p: Seq<char>|
            #[trigger] has_key(spec_discover_list(m, es, dir_path, siblings, t), p) ==> has_key(
                t,
                p,
            ) || (spec_walk_list(es, seq!['*'], dir_path).contains(p) && m.spec_is_match(p)),
    decreases es, 0int,
{
    if es.len() > 0 {
        lemma_discover_list_coverage(m, es.drop_last(), dir_path, siblings, t);
        let mid = spec_discover_list(m, es.drop_last(), dir_path, siblings, t);
        lemma_discover_entry_coverage(m, es.last(), dir_path, siblings, mid);
        let r = spec_discover_list(m, es, dir_path, siblings, t);
        let left = spec_walk_list(es.drop_last(), seq!['*'], dir_path);
        let right = spec_walk_entry(es.last(), seq!['*'], dir_path);
        let all = spec_walk_list(es, seq!['*'], dir_path);
        assert(all == left + right);
        assert forall|k: int|
            0 <= k < all.len() && m.spec_is_match(#[trigger] all[k]) implies contains_member(
            r,
            all[k],
        ) by {
            if k < left.len() {
                assert(all[k] == left[k]);
                assert(contains_member(mid, left[k]));
            } else {
                assert(all[k] == right[k - left.len()]);
            }
        }
        assert forall|p: Seq<char>| #[trigger] has_key(r, p) implies has_key(t, p) || (
        all.contains(p) && m.spec_is_match(p)) by {
            if !has_key(t, p) {
                if has_key(mid, p) {
                    let j = choose|j: int| 0 <= j < left.len() && left[j] == p;
                    assert(all[j] == p);
                    assert(all.contains(p));
                } else {
                    let j = choose|j: int| 0 <= j < right.len() && right[j] == p;
                    assert(all[left.len() + j] == p);
                    assert(all.contains(p));
                }
            }
        }
    }
}

proof fn lemma_discover_entry_coverage<M: FileMatcher>(
    m: M,
    e: FsEntry,
    dir_path: Seq<char>,
    siblings: Seq<Seq<char>>,
    t: Seq<GroupView>,
)
    requires
        table_wf(t),
    ensures
        table_wf(spec_discover_entry(m, e, dir_path, siblings, t)),
        forall|p: Seq<char>|
            contains_member(t, p) ==> contains_member(
                spec_discover_entry(m, e, dir_path, siblings, t),
                p,
            ),
        forall|k: int|
            0 <= k < spec_walk_entry(e, seq!['*'], dir_path).len() && m.spec_is_match(
                #[trigger] spec_walk_entry(e, seq!['*'], dir_path)[k],
            ) ==> contains_member(
                spec_discover_entry(m, e, dir_path, siblings, t),
                spec_walk_entry(e, seq!['*'], dir_path)[k],
            ),
        forall|p: Seq<char>|
            #[trigger] has_key(spec_discover_entry(m, e, dir_path, siblings, t), p) ==> has_key(
                t,
                p,
            ) || (spec_walk_entry(e, seq!['*'], dir_path).contains(p) && m.spec_is_match(p)),
    decreases e, 1int,
{
    if !excluded(e.name_view()) {
        match e {
            FsEntry::File { name } => {
                let p = join_path(dir_path, name@);
                assert(file_ext_matches(name@, seq!['*']));
                let w = spec_walk_entry(e, seq!['*'], dir_path);
                assert(w == seq![p]);
                assert(w[0] == p);
                if m.spec_is_match(p) {
                    crate::groups::lemma_spec_insert(t, p, m.spec_accompanying(p, siblings));
                    let r = spec_discover_entry(m, e, dir_path, siblings, t);
                    assert(contains_member(r, p));
                    assert forall|k: int|
                        0 <= k < w.len() && m.spec_is_match(#[trigger] w[k]) implies contains_member(
                        r,
                        w[k],
                    ) by {
                        assert(w[k] == p);
                    }
                    assert forall|q: Seq<char>| #[trigger] has_key(r, q) implies has_key(t, q)
                        || (w.contains(q) && m.spec_is_match(q)) by {
                        if !has_key(t, q) {
                            assert(q == p);
                            assert(w[0] == q);
                            assert(w.contains(q));
                        }
                    }
                }
            },
            FsEntry::Dir { name, entries } => {
                let inner = join_path(dir_path, name@);
                lemma_discover_list_coverage(
                    m,
                    entries@,
                    inner,
                    spec_sibling_files(entries@, inner),
                    t,
                );
                let r = spec_discover_entry(m, e, dir_path, siblings, t);
                let w = spec_walk_entry(e, seq!['*'], dir_path);
                let wl = spec_walk_list(entries@, seq!['*'], inner);
                assert(w == wl);
                assert(r == spec_discover_list(
                    m,
                    entries@,
                    inner,
                    spec_sibling_files(entries@, inner),
                    t,
                ));
                assert forall|k: int|
                    0 <= k < w.len() && m.spec_is_match(#[trigger] w[k]) implies contains_member(
                    r,
                    w[k],
                ) by {
                    assert(w[k] == wl[k]);
                }
                assert forall|q: Seq<char>| #[trigger] has_key(r, q) implies has_key(t, q) || (
                w.contains(q) && m.spec_is_match(q)) by {
                    if !has_key(t, q) {
                        assert(wl.contains(q));
                        let j = choose|j: int| 0 <= j < wl.len() && wl[j] == q;
                        assert(w[j] == q);
                        assert(w.contains(q));
                    }
                }
            },
        }
    }
}

/// The full paths of the files among `entries`.
fn sibling_files(entries: &Vec<FsEntry>, dir_path: &str) -> (r: Vec<String>)
    ensures
        r.deep_view() == spec_sibling_files(entries@, dir_path@),
{
    let mut out: Vec<String> = Vec::new();
    let n = entries.len();
    let mut i: usize = 0;
    proof {
        assert(out.deep_view() =~= Seq::<Seq<char>>::empty());
    }
    #[verifier::loop_isolation(false)]
    while i < n
        invariant
            i <= n,
            out.deep_view() == spec_sibling_files(entries@.take(i as int), dir_path@),
        decreases n - i,
    {
        let ghost prevd = out.deep_view();
        match &entries[i] {
            FsEntry::File { name } => {
                let p = crate::paths::path_join(dir_path, name.as_str());
                out.push(p);
                proof {
                    assert(out.deep_view() =~= prevd + seq![
                        join_path(dir_path@, entries@[i as int].name_view()),
                    ]);
                }
            },
            FsEntry::Dir { .. } => {
                proof {
                    assert(out.deep_view() =~= prevd + Seq::<Seq<char>>::empty());
                }
            },
        }
        proof {
            assert(entries@.take(i + 1).drop_last() =~= entries@.take(i as int));
            assert(entries@.take(i + 1).last() == entries@[i as int]);
        }
        i = i + 1;
    }
    proof {
        assert(entries@.take(n as int) =~= entries@);
    }
    out
}

/// What a split decides before any directory is created or any file copied:
/// the target directory paths in creation order, and for every group the
/// directory it lands in with the files to copy there.
pub struct SplitPlan {
    /// The target directory paths, in creation order `0..num_dirs`.
    pub created_dirs: Vec<String>,
    /// One assignment per group, in table order.
    pub assignments: Vec<GroupAssignment>,
}

/// Splits a directory\'s files into groups and distributes the groups over
/// target directories, as its [`SplitConfig`] directs, consulting a
/// [`FileMatcher`].
pub struct DirectorySplitter<M: FileMatcher> {
    /// The split\'s configuration.
    pub config: SplitConfig,
    /// The matcher that picks representatives and accompanying files.
    pub matcher: M,
}

impl<M: FileMatcher> DirectorySplitter<M> {
    /// A splitter with the given configuration and matcher.
    pub fn new(config: SplitConfig, matcher: M) -> (s: Self)
        ensures
            s.config == config,
            s.matcher == matcher,
    {
        DirectorySplitter { config, matcher }
    }

    fn discover_entry(
        &self,
        e: &FsEntry,
        dir_path: &str,
        siblings: &Vec<String>,
        table: &mut GroupTable,
    ) -> (r: Result<(), SplitError>)
        requires
            table_wf(old(table)@),
        ensures
            table_wf(final(table)@),
            r is Ok ==> final(table)@ == spec_discover_entry(
                self.matcher,
                *e,
                dir_path@,
                siblings.deep_view(),
                old(table)@,
            ),
        decreases *e,
    {
        let ghost t0 = table@;
        match e {
            FsEntry::File { name } => {
                if crate::walk::is_excluded_name(name.as_str()) {
                    return Ok(());
                }
                let p = crate::paths::path_join(dir_path, name.as_str());
                match self.matcher.is_match(p.as_str()) {
                    Err(err) => Err(err),
                    Ok(false) => Ok(()),
                    Ok(true) => {
                        match self.matcher.find_accompanying_files(p.as_str(), siblings) {
                            Err(err) => Err(err),
                            Ok(acc) => {
                                table.insert_group(p.as_str(), &acc);
                                Ok(())
                            },
                        }
                    },
                }
            },
            FsEntry::Dir { name, entries } => {
                if crate::walk::is_excluded_name(name.as_str()) {
                    return Ok(());
                }
                let p = crate::paths::path_join(dir_path, name.as_str());
                let sibs = sibling_files(entries, p.as_str());
                let n = entries.len();
                let mut i: usize = 0;
                #[verifier::loop_isolation(false)]
                while i < n
                    invariant
                        i <= n,
                        table_wf(table@),
                        table@ == spec_discover_list(
                            self.matcher,
                            entries@.take(i as int),
                            p@,
                            sibs.deep_view(),
                            t0,
                        ),
                    decreases n - i,
                {
                    proof {
                        assert(decreases_to!(*e => entries@[i as int]));
                    }
                    let step = self.discover_entry(&entries[i], p.as_str(), &sibs, table);
                    match step {
                        Err(err) => {
                            return Err(err);
                        },
                        Ok(()) => {},
                    }
                    proof {
                        assert(entries@.take(i + 1).drop_last() =~= entries@.take(i as int));
                        assert(entries@.take(i + 1).last() == entries@[i as int]);
                    }
                    i = i + 1;
                }
                proof {
                    assert(entries@.take(n as int) =~= entries@);
                }
                Ok(())
            },
        }
    }

    /// Discover: walks the entries of the source directory with the wildcard
    /// extension, asks the matcher about every file the walk yields, and
    /// builds the group table — one group per matched representative,
    /// holding it and its accompanying files, no path in two groups (see
    /// [`lemma_discover_coverage`] for the shape of the table). With no
    /// entries there is nothing to ask and discovery succeeds outright; the
    /// first matcher failure aborts it and is returned.
    pub fn discover(&self, entries: &Vec<FsEntry>) -> (r: Result<GroupTable, SplitError>)
        ensures
            entries@.len() == 0 ==> r is Ok,
            r matches Ok(t) ==> {
                &&& t@ == spec_discover(self.matcher, entries@, self.config.source_dir@)
                &&& table_wf(t@)
            },
    {
        let mut table = GroupTable::new();
        let sibs = sibling_files(entries, self.config.source_dir.as_str());
        let n = entries.len();
        let mut i: usize = 0;
        #[verifier::loop_isolation(false)]
        while i < n
            invariant
                i <= n,
                table_wf(table@),
                table@ == spec_discover_list(
                    self.matcher,
                    entries@.take(i as int),
                    self.config.source_dir@,
                    sibs.deep_view(),
                    Seq::<GroupView>::empty(),
                ),
            decreases n - i,
        {
            let step = self.discover_entry(
                &entries[i],
                self.config.source_dir.as_str(),
                &sibs,
                &mut table,
            );
            match step {
                Err(err) => {
                    return Err(err);
                },
                Ok(()) => {},
            }
            proof {
                assert(entries@.take(i + 1).drop_last() =~= entries@.take(i as int));
                assert(entries@.take(i + 1).last() == entries@[i as int]);
            }
            i = i + 1;
        }
        proof {
            assert(entries@.take(n as int) =~= entries@);
        }
        Ok(table)
    }

    /// Splits the directory tree `entries` (the contents of the source
    /// directory) according to the configuration: discovers the groups,
    /// names the target directories, and assigns the groups round-robin.
    /// Zero target directories is invalid and fails fast, before discovery
    /// and before any directory name is produced; with at least one target
    /// directory and no entries nothing can fail. The plan copies exactly as
    /// many files as the groups hold members.
    pub fn split_plan(&self, entries: &Vec<FsEntry>) -> (r: Result<SplitPlan, SplitError>)
        ensures
            self.config.num_dirs == 0 ==> r == Err::<SplitPlan, SplitError>(
                SplitError::NoTargetDirectories,
            ),
            self.config.num_dirs >= 1 && entries@.len() == 0 ==> r is Ok,
            r matches Ok(plan) ==> ({
                let t = spec_discover(self.matcher, entries@, self.config.source_dir@);
                &&& self.config.num_dirs >= 1
                &&& plan.created_dirs@.len() == self.config.num_dirs
                &&& forall|i: int|
                    0 <= i < plan.created_dirs@.len() ==> (#[trigger] plan.created_dirs@[i])@
                        == self.config.spec_target_dir(i as nat)
                &&& plan.assignments@.len() == t.len()
                &&& forall|i: int|
                    0 <= i < plan.assignments@.len() ==> (#[trigger] plan_view(
                        plan.assignments@,
                    )[i]).dir_index == i % (self.config.num_dirs as int) && plan_view(
                        plan.assignments@,
                    )[i].files == t[i].members
                &&& total_planned_files(plan_view(plan.assignments@)) == total_member_count(t)
                &&& table_wf(t)
            }),
    {
        let created_dirs = match self.config.target_dir_names() {
            Err(err) => {
                return Err(err);
            },
            Ok(names) => names,
        };
        let table = match self.discover(entries) {
            Err(err) => {
                return Err(err);
            },
            Ok(t) => t,
        };
        let assignments = distribution_plan(&table, self.config.num_dirs);
        Ok(SplitPlan { created_dirs, assignments })
    }
}

} // verus!

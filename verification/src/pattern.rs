//! Regular-expression patterns for picking accompanying files, backed by the
//! fancy-regex engine, whose dialect includes look-around and
//! back-references. A compiled pattern carries its source text, so contracts
//! can speak of what the engine decides for that text.

use vstd::prelude::*;

use crate::split::SplitError;

verus! {

/// Declares the engine's compiled-expression type, so that values of it can
/// be carried in fields; it is opaque here.
#[verifier::external_type_specification]
#[verifier::external_body]
pub struct ExRegex(fancy_regex::Regex);

/// Declares the engine's error type, so that trusted calls can return it; it
/// is opaque here.
#[verifier::external_type_specification]
#[verifier::external_body]
pub struct ExRegexError(fancy_regex::Error);

/// Whether the engine accepts `pattern` as a valid regular expression; a
/// function of the pattern text alone, under the engine's default options.
pub uninterp spec fn regex_valid(pattern: Seq<char>) -> bool;

/// Whether the regular expression `pattern` matches anywhere in `text`, as
/// the engine decides it; a function of the two texts alone, under the
/// engine's default options.
pub uninterp spec fn regex_matches(pattern: Seq<char>, text: Seq<char>) -> bool;

/// Whether the engine's match of `pattern` against `text` runs to completion
/// rather than giving up; a function of the two texts alone, since both of
/// the engine's run-time limits (its backtrack count and its backtrack-stack
/// depth) are fixed constants under the default options.
pub uninterp spec fn regex_match_completes(pattern: Seq<char>, text: Seq<char>) -> bool;

/// Relies on fancy_regex::Regex::new: parsing and compiling a pattern with
/// the default options succeeds or fails as a function of the pattern text
/// alone.
#[verifier::external_body]
fn regex_compile(pattern: &str) -> (r: Result<fancy_regex::Regex, fancy_regex::Error>)
    ensures
        r is Ok <==> regex_valid(pattern@),
{
    fancy_regex::Regex::new(pattern)
}

/// A compiled pattern together with the source text it was compiled from.
pub struct Pattern {
    source: String,
    compiled: fancy_regex::Regex,
}

impl View for Pattern {
    type V = Seq<char>;

    closed spec fn view(&self) -> Seq<char> {
        self.source@
    }
}

impl DeepView for Pattern {
    type V = Seq<char>;

    open spec fn deep_view(&self) -> Seq<char> {
        self.view()
    }
}

impl Pattern {
    /// Compiles `pattern`; succeeds exactly when the engine accepts it.
    pub fn compile(pattern: &str) -> (r: Result<Pattern, SplitError>)
        ensures
            r is Ok <==> regex_valid(pattern@),
            r matches Ok(p) ==> p@ == pattern@,
            r matches Err(e) ==> e == SplitError::InvalidPattern,
    {
        match regex_compile(pattern) {
            Ok(re) => Ok(Pattern { source: pattern.to_owned(), compiled: re }),
            Err(_) => Err(SplitError::InvalidPattern),
        }
    }

    /// The pattern's source text.
    pub fn as_str(&self) -> (r: &str)
        ensures
            r@ == self@,
    {
        self.source.as_str()
    }

    /// Relies on fancy_regex::Regex::is_match: for a compiled pattern the
    /// outcome — the match answer, and whether the engine completes at all
    /// instead of giving up at one of its fixed run-time limits — is a
    /// function of the pattern text and the searched text alone; the
    /// `compiled` field is built from `source` by `compile` and nowhere else.
    #[verifier::external_body]
    fn compiled_is_match(&self, text: &str) -> (r: Result<bool, fancy_regex::Error>)
        ensures
            r is Ok <==> regex_match_completes(self@, text@),
            r matches Ok(b) ==> b == regex_matches(self@, text@),
    {
        self.compiled.is_match(text)
    }

    /// Whether this pattern matches anywhere in `text`: it succeeds exactly
    /// when the engine's match runs to completion, and an engine runtime
    /// failure is reported as [`SplitError::PatternMatchFailed`].
    pub fn is_match(&self, text: &str) -> (r: Result<bool, SplitError>)
        ensures
            r is Ok <==> regex_match_completes(self@, text@),
            r matches Ok(b) ==> b == regex_matches(self@, text@),
            r matches Err(e) ==> e == SplitError::PatternMatchFailed,
    {
        match self.compiled_is_match(text) {
            Ok(b) => Ok(b),
            Err(_) => Err(SplitError::PatternMatchFailed),
        }
    }
}

/// Whether any of `patterns` matches `text`.
pub open spec fn any_pattern_matches(patterns: Seq<Seq<char>>, text: Seq<char>) -> bool {
    exists|i: int| 0 <= i < patterns.len() && regex_matches(#[trigger] patterns[i], text)
}

/// Whether a scan of `patterns` against `text`, in order and stopping at the
/// first match, completes: every match the scan reaches runs to completion.
pub open spec fn scan_completes(patterns: Seq<Seq<char>>, text: Seq<char>) -> bool
    decreases patterns.len(),
{
    if patterns.len() == 0 {
        true
    } else if !regex_match_completes(patterns[0], text) {
        false
    } else if regex_matches(patterns[0], text) {
        true
    } else {
        scan_completes(patterns.drop_first(), text)
    }
}

/// Tests `text` against the patterns in order, stopping at the first match:
/// it succeeds exactly when every match it reaches runs to completion, says
/// on success whether any pattern matched, and reports the first engine
/// failure otherwise.
pub fn matches_any(patterns: &Vec<Pattern>, text: &str) -> (r: Result<bool, SplitError>)
    ensures
        r is Ok <==> scan_completes(patterns.deep_view(), text@),
        r matches Ok(b) ==> b == any_pattern_matches(patterns.deep_view(), text@),
        r matches Err(e) ==> e == SplitError::PatternMatchFailed,
{
    let ghost pv = patterns.deep_view();
    let n = patterns.len();
    let mut i: usize = 0;
    proof {
        assert(pv.skip(0) =~= pv);
    }
    while i < n
        invariant
            i <= n,
            n == patterns@.len(),
            pv == patterns.deep_view(),
            pv.len() == n,
            forall|j: int| 0 <= j < i ==> !regex_matches(pv[j], text@),
            scan_completes(pv, text@) == scan_completes(pv.skip(i as int), text@),
        decreases n - i,
    {
        let ghost rest = pv.skip(i as int);
        proof {
            assert(pv[i as int] == patterns@[i as int]@);
            assert(rest[0] == pv[i as int]);
            assert(rest.drop_first() =~= pv.skip(i + 1));
        }
        match patterns[i].is_match(text) {
            Ok(true) => {
                proof {
                    assert(regex_matches(pv[i as int], text@));
                    assert(scan_completes(rest, text@));
                }
                return Ok(true);
            },
            Ok(false) => {
                proof {
                    assert(regex_match_completes(rest[0], text@));
                    assert(!regex_matches(rest[0], text@));
                    assert(scan_completes(rest, text@) == scan_completes(pv.skip(i + 1), text@));
                }
            },
            Err(e) => {
                proof {
                    assert(!regex_match_completes(rest[0], text@));
                    assert(!scan_completes(rest, text@));
                }
                return Err(e);
            },
        }
        i = i + 1;
    }
    proof {
        assert(pv.skip(n as int) =~= Seq::<Seq<char>>::empty());
        assert(scan_completes(pv.skip(n as int), text@));
    }
    Ok(false)
}

/// The paths of `paths` that some pattern of `patterns` matches, in order.
pub open spec fn matching_paths(patterns: Seq<Seq<char>>, paths: Seq<Seq<char>>) -> Seq<Seq<char>>
    decreases paths.len(),
{
    if paths.len() == 0 {
        Seq::empty()
    } else {
        matching_paths(patterns, paths.drop_last()) + if any_pattern_matches(
            patterns,
            paths.last(),
        ) {
            seq![paths.last()]
        } else {
            Seq::empty()
        }
    }
}

/// Picks from `paths` those that some pattern of `patterns` matches, in
/// order: it succeeds exactly when the scan of every path completes, and the
/// first engine failure is reported otherwise.
pub fn filter_matching(patterns: &Vec<Pattern>, paths: &Vec<String>) -> (r: Result<
    Vec<String>,
    SplitError,
>)
    ensures
        r is Ok <==> forall|j: int|
            0 <= j < paths.deep_view().len() ==> scan_completes(
                patterns.deep_view(),
                #[trigger] paths.deep_view()[j],
            ),
        r matches Ok(v) ==> v.deep_view() == matching_paths(
            patterns.deep_view(),
            paths.deep_view(),
        ),
        r matches Err(e) ==> e == SplitError::PatternMatchFailed,
{
    let n = paths.len();
    let mut out: Vec<String> = Vec::new();
    let mut i: usize = 0;
    proof {
        assert(paths.deep_view().take(0) =~= Seq::<Seq<char>>::empty());
        assert(out.deep_view() =~= Seq::<Seq<char>>::empty());
    }
    #[verifier::loop_isolation(false)]
    while i < n
        invariant
            i <= n,
            out.deep_view() == matching_paths(patterns.deep_view(), paths.deep_view().take(i as int)),
            forall|j: int|
                0 <= j < i ==> scan_completes(patterns.deep_view(), #[trigger] paths.deep_view()[j]),
        decreases n - i,
    {
        let matched = match matches_any(patterns, paths[i].as_str()) {
            Ok(b) => b,
            Err(e) => {
                proof {
                    assert(paths.deep_view()[i as int] == paths@[i as int]@);
                    assert(!scan_completes(patterns.deep_view(), paths.deep_view()[i as int]));
                }
                return Err(e);
            },
        };
        proof {
            assert(paths.deep_view()[i as int] == paths@[i as int]@);
            assert(scan_completes(patterns.deep_view(), paths.deep_view()[i as int]));
        }
        if matched {
            out.push(paths[i].clone());
        }
        proof {
            let pv = paths.deep_view();
            assert(pv.take(i + 1).drop_last() =~= pv.take(i as int));
            assert(pv.take(i + 1).last() == pv[i as int]);
            assert(pv[i as int] == paths@[i as int]@);
            if matched {
                assert(out.deep_view() =~= matching_paths(patterns.deep_view(), pv.take(i as int))
                    + seq![pv[i as int]]);
            } else {
                assert(out.deep_view() =~= matching_paths(patterns.deep_view(), pv.take(i as int))
                    + Seq::<Seq<char>>::empty());
            }
        }
        i = i + 1;
    }
    proof {
        assert(paths.deep_view().take(n as int) =~= paths.deep_view());
    }
    Ok(out)
}

} // verus!

//! The glob match engine: compiled pattern sets over either leaf names
//! or full paths.
//!
//! Pattern compilation and single-pattern matching are done by the
//! `globset` crate; everything this library assumes of it is stated on
//! the two trusted functions below. Matching a whole set is a verified
//! loop: a set matches exactly when one of its patterns does.

use vstd::prelude::*;
use vstd::string::StrSliceExecFns;

use crate::text::str_contains_char;

verus! {

#[verifier::external_type_specification]
#[verifier::external_body]
pub struct ExGlobMatcher(globset::GlobMatcher);

#[verifier::external_type_specification]
#[verifier::external_body]
pub struct ExGlobsetError(globset::Error);

/// Whether globset accepts `pattern` as a syntactically valid glob.
/// Compilation is a deterministic function of the pattern text.
pub uninterp spec fn glob_ok(pattern: Seq<char>) -> bool;

/// Whether the glob `pattern`, compiled by this library (case
/// insensitive, `*` and `?` also span separators, backslash escapes
/// disabled), matches the path string `text`. The paths this library
/// hands to the matcher use `/` as their separator, for which globset's
/// answer depends on the pattern and the text alone.
pub uninterp spec fn glob_match(pattern: Seq<char>, text: Seq<char>) -> bool;

/// The raw pattern text that a compiled matcher was built from.
pub uninterp spec fn matcher_pattern(m: globset::GlobMatcher) -> Seq<char>;

/// The longest pattern text (in characters) the library compiles.
/// globset translates a glob to a regular expression whose automaton
/// is built under a fixed ten-mebibyte size limit, and the translator
/// unwraps that build, so an enormous — yet syntactically valid —
/// pattern would abort it. A pattern of at most this many characters
/// compiles an automaton orders of magnitude below that limit (the
/// translation emits a small constant amount of automaton per pattern
/// character), so the bound keeps compilation total.
pub const MAX_PATTERN_LEN: usize = 4096;

/// Whether the library admits `pattern` at all: short enough to
/// compile safely, and a valid glob.
pub open spec fn spec_pattern_admitted(pattern: Seq<char>) -> bool {
    pattern.len() <= MAX_PATTERN_LEN && glob_ok(pattern)
}

/// Relies on `globset::GlobBuilder::build` and
/// `globset::Glob::compile_matcher`: `build` parses the pattern and
/// fails exactly on syntactically invalid ones; `compile_matcher`
/// translates the parsed pattern to its regular-expression matcher.
/// `compile_matcher` unwraps the construction of that expression's
/// automaton, which is configured with a ten-mebibyte size limit, so
/// this function requires the pattern-length bound under which the
/// automaton stays far below the limit and the call cannot abort.
/// The options set here make matching case-insensitive, let `*` and
/// `?` cross separator boundaries, and honor no escape character.
/// globset documents `*` as matching zero or more characters of any
/// kind (separators included, since separators are not literal here),
/// so a matcher built from the pattern `*` matches every text.
#[verifier::external_body]
fn compile_one(pattern: &str) -> (r: Result<globset::GlobMatcher, globset::Error>)
    requires
        pattern@.len() <= MAX_PATTERN_LEN,
    ensures
        r is Ok <==> glob_ok(pattern@),
        r is Ok ==> matcher_pattern(r->Ok_0) == pattern@,
        (r is Ok && pattern@ =~= seq!['*']) ==> forall|t: Seq<char>|
            glob_match(matcher_pattern(r->Ok_0), t),
{
    globset::GlobBuilder::new(pattern)
        .case_insensitive(true)
        .literal_separator(false)
        .backslash_escape(false)
        .build()
        .map(|g| g.compile_matcher())
}

/// Relies on `globset::GlobMatcher::is_match`: a deterministic
/// regular-expression match of the compiled pattern against the path
/// text, with no failure mode at search time. On targets whose native
/// separator is the backslash the matcher first normalizes `\` to
/// `/`; the library only ever hands it `/`-joined paths, on which the
/// named result is the same everywhere.
#[verifier::external_body]
fn matcher_is_match(m: &globset::GlobMatcher, text: &str) -> (r: bool)
    ensures
        r == glob_match(matcher_pattern(*m), text@),
{
    m.is_match(text)
}

/// The error with which a scan is refused before any work is done:
/// one of the caller's glob patterns does not compile, or is too long
/// for the library's compilation bound.
#[derive(Debug)]
pub enum ScanError {
    BadPattern { pattern: String },
    PatternTooLong { pattern: String },
}

impl ScanError {
    /// A readable description of the error.
    pub fn message(&self) -> (r: String)
        ensures
            self matches ScanError::BadPattern { pattern } ==> r@ == "invalid glob pattern: "@
                + pattern@,
            self matches ScanError::PatternTooLong { pattern } ==> r@
                == "glob pattern too long: "@ + pattern@,
    {
        match self {
            ScanError::BadPattern { pattern } => crate::text::concat2(
                "invalid glob pattern: ",
                pattern.as_str(),
            ),
            ScanError::PatternTooLong { pattern } => crate::text::concat2(
                "glob pattern too long: ",
                pattern.as_str(),
            ),
        }
    }
}

/// The views of a vector of pattern strings.
pub open spec fn views(pats: Seq<String>) -> Seq<Seq<char>> {
    pats.map_values(|p: String| p@)
}

/// A compiled, immutable set of glob patterns over one domain (leaf
/// names or full paths). The set matches a text exactly when one of
/// its patterns does.
pub struct PatternSet {
    matchers: Vec<globset::GlobMatcher>,
}

impl PatternSet {
    /// The raw pattern texts this set was compiled from, in order.
    pub closed spec fn patterns(self) -> Seq<Seq<char>> {
        self.matchers@.map_values(|m: globset::GlobMatcher| matcher_pattern(m))
    }

    /// Whether some pattern of the set matches `text`.
    pub open spec fn spec_matches(self, text: Seq<char>) -> bool {
        exists|i: int|
            0 <= i < self.patterns().len() && #[trigger] glob_match(self.patterns()[i], text)
    }

    /// An empty set matches nothing.
    pub open spec fn spec_is_empty(self) -> bool {
        self.patterns().len() == 0
    }

    /// Compiles `pats` into a set. Fails, reporting the first offending
    /// pattern, exactly when some pattern is over the length bound or
    /// is not a valid glob.
    pub fn compile(pats: &Vec<String>) -> (r: Result<PatternSet, ScanError>)
        ensures
            r is Ok ==> (r->Ok_0).patterns() == views(pats@),
            r is Ok ==> forall|i: int|
                0 <= i < pats@.len() ==> spec_pattern_admitted(#[trigger] pats@[i]@),
            r is Err ==> exists|i: int|
                0 <= i < pats@.len() && !spec_pattern_admitted(#[trigger] pats@[i]@),
            r matches Err(ScanError::BadPattern { pattern }) ==> exists|i: int|
                0 <= i < pats@.len() && pats@[i]@ == pattern@ && pats@[i]@.len()
                    <= MAX_PATTERN_LEN && !glob_ok(#[trigger] pats@[i]@),
            r matches Err(ScanError::PatternTooLong { pattern }) ==> exists|i: int|
                0 <= i < pats@.len() && #[trigger] pats@[i]@ == pattern@ && pats@[i]@.len()
                    > MAX_PATTERN_LEN,
            (r is Ok && (exists|i: int|
                0 <= i < pats@.len() && #[trigger] pats@[i]@ =~= seq!['*'])) ==> forall|
                t: Seq<char>,
            | #[trigger] (r->Ok_0).spec_matches(t),
    {
        let mut matchers: Vec<globset::GlobMatcher> = Vec::new();
        let mut i: usize = 0;
        while i < pats.len()
            invariant
                0 <= i <= pats@.len(),
                matchers@.map_values(|m: globset::GlobMatcher| matcher_pattern(m)) =~= pats@.take(
                    i as int,
                ).map_values(|p: String| p@),
                forall|j: int| 0 <= j < i ==> spec_pattern_admitted(#[trigger] pats@[j]@),
                forall|j: int, t: Seq<char>|
                    0 <= j < i && pats@[j]@ =~= seq!['*'] ==> #[trigger] glob_match(pats@[j]@, t),
            decreases pats@.len() - i,
        {
            if pats[i].as_str().unicode_len() > MAX_PATTERN_LEN {
                let pattern = pats[i].clone();
                proof {
                    assert(pats@[i as int]@.len() > MAX_PATTERN_LEN);
                    assert(!spec_pattern_admitted(pats@[i as int]@));
                }
                return Err(ScanError::PatternTooLong { pattern });
            }
            match compile_one(pats[i].as_str()) {
                Ok(m) => {
                    matchers.push(m);
                    proof {
                        assert(pats@.take(i + 1 as int).map_values(|p: String| p@) =~= pats@.take(
                            i as int,
                        ).map_values(|p: String| p@).push(pats@[i as int]@));
                        if pats@[i as int]@ =~= seq!['*'] {
                            assert(forall|t: Seq<char>| #[trigger] glob_match(
                                matcher_pattern(m),
                                t,
                            ));
                            assert(forall|t: Seq<char>| #[trigger] glob_match(
                                pats@[i as int]@,
                                t,
                            ));
                        }
                    }
                },
                Err(_) => {
                    let pattern = pats[i].clone();
                    proof {
                        assert(!glob_ok(pats@[i as int]@));
                        assert(!spec_pattern_admitted(pats@[i as int]@));
                    }
                    return Err(ScanError::BadPattern { pattern });
                },
            }
            i += 1;
        }
        proof {
            assert(pats@.take(pats@.len() as int) =~= pats@);
        }
        let result = PatternSet { matchers };
        proof {
            if exists|i: int| 0 <= i < pats@.len() && #[trigger] pats@[i]@ =~= seq!['*'] {
                let si = choose|i: int|
                    0 <= i < pats@.len() && #[trigger] pats@[i]@ =~= seq!['*'];
                assert(result.patterns()[si] == pats@[si]@);
                assert forall|t: Seq<char>| #[trigger] result.spec_matches(t) by {
                    assert(glob_match(pats@[si]@, t));
                    assert(glob_match(result.patterns()[si], t));
                }
            }
        }
        Ok(result)
    }

    /// Matches `text` against the whole set.
    pub fn matches(&self, text: &str) -> (r: bool)
        ensures
            r == self.spec_matches(text@),
    {
        let mut i: usize = 0;
        while i < self.matchers.len()
            invariant
                0 <= i <= self.matchers@.len(),
                forall|j: int| 0 <= j < i ==> !glob_match(#[trigger] self.patterns()[j], text@),
            decreases self.matchers@.len() - i,
        {
            if matcher_is_match(&self.matchers[i], text) {
                proof {
                    assert(glob_match(self.patterns()[i as int], text@));
                }
                return true;
            }
            i += 1;
        }
        false
    }

    /// Whether the set holds no pattern at all.
    pub fn is_empty(&self) -> (r: bool)
        ensures
            r == self.spec_is_empty(),
    {
        self.matchers.len() == 0
    }
}

/// Whether a raw pattern belongs to the absolute (full-path) domain:
/// it does, exactly when its text contains a path separator.
pub open spec fn spec_is_absolute_pattern(pattern: Seq<char>) -> bool {
    pattern.contains('/')
}

/// Routes one raw pattern: absolute domain when it contains a path
/// separator, relative (leaf-name) domain otherwise.
pub fn is_absolute_pattern(pattern: &str) -> (r: bool)
    ensures
        r == spec_is_absolute_pattern(pattern@),
{
    str_contains_char(pattern, '/')
}

} // verus!

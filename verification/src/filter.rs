//! The filter configuration: an ignore/allow pattern pair for files
//! and an ignore-only pattern pair for directories, built once per
//! scan from the caller's raw pattern lists and read-only afterwards.
//!
//! Every raw pattern is routed to the absolute (full-path) domain when
//! its text contains a path separator and to the relative (leaf-name)
//! domain otherwise. Directory patterns are additionally rewritten so
//! that they apply at any depth, and directory-prefix patterns get a
//! trailing wildcard.

use vstd::prelude::*;

use crate::glob::{
    PatternSet,
    ScanError,
    spec_is_absolute_pattern,
    spec_pattern_admitted,
    is_absolute_pattern,
    views,
};
use crate::text::{concat2, concat3, join_path, leaf_of, spec_join, spec_leaf_of};

verus! {

/// How a raw pattern is rewritten before compilation.
pub enum Rewrite {
    /// File patterns are compiled as written.
    Keep,
    /// Directory-name patterns match at any depth.
    AnyDepth,
    /// Directory-prefix patterns match at any depth and any suffix.
    AnyDepthPrefix,
}

/// The rewritten text of one raw pattern.
pub open spec fn apply_rewrite(rw: Rewrite, p: Seq<char>) -> Seq<char> {
    match rw {
        Rewrite::Keep => p,
        Rewrite::AnyDepth => "**/"@ + p,
        Rewrite::AnyDepthPrefix => "**/"@ + p + "*"@,
    }
}

/// The rewritten texts of the raw patterns of `pats` that belong to
/// the chosen domain (absolute when `absolute` is set, relative
/// otherwise), in order.
pub open spec fn routed(pats: Seq<Seq<char>>, absolute: bool, rw: Rewrite) -> Seq<Seq<char>>
    decreases pats.len(),
{
    if pats.len() == 0 {
        Seq::empty()
    } else {
        let rest = routed(pats.drop_last(), absolute, rw);
        if spec_is_absolute_pattern(pats.last()) == absolute {
            rest.push(apply_rewrite(rw, pats.last()))
        } else {
            rest
        }
    }
}

/// A routed list keeps every pattern of its domain: a relative-domain
/// pattern of the input appears, rewritten, in the relative output.
pub proof fn lemma_routed_contains(pats: Seq<Seq<char>>, absolute: bool, rw: Rewrite, i: int)
    requires
        0 <= i < pats.len(),
        spec_is_absolute_pattern(pats[i]) == absolute,
    ensures
        routed(pats, absolute, rw).contains(apply_rewrite(rw, pats[i])),
    decreases pats.len(),
{
    if i == pats.len() - 1 {
        let r = routed(pats, absolute, rw);
        assert(r.last() == apply_rewrite(rw, pats[i]));
        assert(r.contains(apply_rewrite(rw, pats[i])));
    } else {
        lemma_routed_contains(pats.drop_last(), absolute, rw, i);
        let rest = routed(pats.drop_last(), absolute, rw);
        let j = choose|j: int|
            0 <= j < rest.len() && rest[j] == apply_rewrite(rw, pats.drop_last()[i]);
        assert(pats.drop_last()[i] == pats[i]);
        let r = routed(pats, absolute, rw);
        assert(r[j] == apply_rewrite(rw, pats[i]));
    }
}

/// Rewrites one raw pattern.
fn rewrite_pattern(rw: &Rewrite, p: &str) -> (out: String)
    ensures
        out@ == apply_rewrite(*rw, p@),
{
    match rw {
        Rewrite::Keep => p.to_owned(),
        Rewrite::AnyDepth => concat2("**/", p),
        Rewrite::AnyDepthPrefix => concat3("**/", p, "*"),
    }
}

/// Selects and rewrites the raw patterns of one domain.
fn route_patterns(pats: &Vec<String>, absolute: bool, rw: Rewrite) -> (out: Vec<String>)
    ensures
        views(out@) == routed(views(pats@), absolute, rw),
{
    let mut out: Vec<String> = Vec::new();
    let mut i: usize = 0;
    while i < pats.len()
        invariant
            0 <= i <= pats@.len(),
            views(out@) =~= routed(views(pats@).take(i as int), absolute, rw),
        decreases pats@.len() - i,
    {
        proof {
            assert(views(pats@).take(i + 1 as int).drop_last() =~= views(pats@).take(i as int));
            assert(views(pats@).take(i + 1 as int).last() == pats@[i as int]@);
        }
        if is_absolute_pattern(pats[i].as_str()) == absolute {
            let rewritten = rewrite_pattern(&rw, pats[i].as_str());
            out.push(rewritten);
        }
        i += 1;
    }
    proof {
        assert(views(pats@).take(pats@.len() as int) =~= views(pats@));
    }
    out
}

/// The ignore/allow pattern pair that decides file selection: an
/// exclusion and an inclusion set per domain, plus two booleans that
/// record whether any pattern exists in each domain (so that callers
/// can skip checks, and in particular full-path construction, that
/// cannot change the outcome).
pub struct FileFilter {
    rel_ignore: PatternSet,
    abs_ignore: PatternSet,
    rel_allow: PatternSet,
    abs_allow: PatternSet,
    has_rel: bool,
    has_abs: bool,
}

impl FileFilter {
    /// The two booleans agree with the four sets.
    #[verifier::type_invariant]
    spec fn wf(self) -> bool {
        &&& self.has_rel == !(self.rel_ignore.spec_is_empty() && self.rel_allow.spec_is_empty())
        &&& self.has_abs == !(self.abs_ignore.spec_is_empty() && self.abs_allow.spec_is_empty())
    }

    pub closed spec fn spec_rel_ignore(self) -> PatternSet {
        self.rel_ignore
    }

    pub closed spec fn spec_abs_ignore(self) -> PatternSet {
        self.abs_ignore
    }

    pub closed spec fn spec_rel_allow(self) -> PatternSet {
        self.rel_allow
    }

    pub closed spec fn spec_abs_allow(self) -> PatternSet {
        self.abs_allow
    }

    /// Whether a file with leaf name `leaf` and full path `full` is
    /// selected: no exclusion of either domain matches it, and some
    /// inclusion does. With no inclusion patterns at all, nothing is
    /// ever selected.
    pub open spec fn spec_selects(self, leaf: Seq<char>, full: Seq<char>) -> bool {
        &&& !self.spec_rel_ignore().spec_matches(leaf)
        &&& !self.spec_abs_ignore().spec_matches(full)
        &&& (self.spec_rel_allow().spec_matches(leaf) || self.spec_abs_allow().spec_matches(full))
    }

    /// Decides whether the file entry `leaf` of the directory at `dir`
    /// is selected. The full path is built at most once, and is handed
    /// back whenever it was built, so the caller never builds it again;
    /// for a selected file it is always handed back.
    pub fn select_file(&self, dir: &str, leaf: &str) -> (r: (bool, Option<String>))
        ensures
            r.0 == self.spec_selects(leaf@, spec_join(dir@, leaf@)),
            r.1 matches Some(p) ==> p@ == spec_join(dir@, leaf@),
            r.0 ==> r.1 is Some,
    {
        proof {
            use_type_invariant(&*self);
        }
        if self.has_rel {
            if self.rel_ignore.matches(leaf) {
                return (false, None);
            }
            if !self.has_abs {
                if self.rel_allow.matches(leaf) {
                    let full = join_path(dir, leaf);
                    return (true, Some(full));
                }
                return (false, None);
            }
        }
        if !self.has_abs {
            return (false, None);
        }
        let full = join_path(dir, leaf);
        if self.abs_ignore.matches(full.as_str()) {
            return (false, Some(full));
        }
        let selected = self.rel_allow.matches(leaf) || self.abs_allow.matches(full.as_str());
        (selected, Some(full))
    }
}

/// An exclusion matching a file in either domain keeps it out of the
/// selection, whatever the inclusion patterns say.
pub proof fn lemma_ignored_file_never_selected(f: FileFilter, leaf: Seq<char>, full: Seq<char>)
    requires
        f.spec_rel_ignore().spec_matches(leaf) || f.spec_abs_ignore().spec_matches(full),
    ensures
        !f.spec_selects(leaf, full),
{
}

/// A file is selected only when some inclusion pattern matches it: a
/// filter with no inclusion patterns selects nothing.
pub proof fn lemma_no_allow_selects_nothing(f: FileFilter, leaf: Seq<char>, full: Seq<char>)
    requires
        f.spec_rel_allow().spec_is_empty(),
        f.spec_abs_allow().spec_is_empty(),
    ensures
        !f.spec_selects(leaf, full),
{
}

/// The directory filter: a pattern set pair (relative and absolute
/// domain) that excludes directories; any match excludes.
pub struct DirFilter {
    rel: PatternSet,
    abs: PatternSet,
}

impl DirFilter {
    pub closed spec fn spec_rel(self) -> PatternSet {
        self.rel
    }

    pub closed spec fn spec_abs(self) -> PatternSet {
        self.abs
    }

    /// Whether a directory with leaf name `leaf` and full path `full`
    /// is excluded from the scan.
    pub open spec fn spec_excludes(self, leaf: Seq<char>, full: Seq<char>) -> bool {
        self.spec_rel().spec_matches(leaf) || self.spec_abs().spec_matches(full)
    }

    /// Decides whether the directory entry `leaf` of the directory at
    /// `dir` is excluded. The full path is built at most once and is
    /// handed back whenever it was built; for a kept directory it is
    /// always handed back, ready to be enqueued.
    pub fn excludes_entry(&self, dir: &str, leaf: &str) -> (r: (bool, Option<String>))
        ensures
            r.0 == self.spec_excludes(leaf@, spec_join(dir@, leaf@)),
            r.1 matches Some(p) ==> p@ == spec_join(dir@, leaf@),
            !r.0 ==> r.1 is Some,
    {
        if self.rel.matches(leaf) {
            return (true, None);
        }
        let full = join_path(dir, leaf);
        let excluded = self.abs.matches(full.as_str());
        (excluded, Some(full))
    }

    /// Decides whether a root path is excluded: its leaf name is
    /// checked against the relative set and the path itself against
    /// the absolute set.
    pub fn excludes_root(&self, root: &str) -> (r: bool)
        ensures
            r == self.spec_excludes(spec_leaf_of(root@), root@),
    {
        let leaf = leaf_of(root);
        if self.rel.matches(leaf.as_str()) {
            return true;
        }
        self.abs.matches(root)
    }
}

/// The filter configuration of one scan: the file rules and the
/// directory rules. Built once, never mutated.
pub struct Ignores {
    pub files: FileFilter,
    pub dirs: DirFilter,
}

/// Every pattern of the list is admitted: within the length bound and
/// a valid glob.
pub open spec fn all_globs_ok(pats: Seq<Seq<char>>) -> bool {
    forall|i: int| 0 <= i < pats.len() ==> spec_pattern_admitted(#[trigger] pats[i])
}

/// Every pattern set the configuration compiles — the routed and
/// rewritten forms of the four raw lists — consists of admitted
/// globs: valid ones within the library's length bound.
pub open spec fn spec_config_ok(
    include_globs: Seq<String>,
    exclude_file_globs: Seq<String>,
    exclude_dir_globs: Seq<String>,
    exclude_dir_prefix_globs: Seq<String>,
) -> bool {
    &&& all_globs_ok(routed(views(include_globs), false, Rewrite::Keep))
    &&& all_globs_ok(routed(views(include_globs), true, Rewrite::Keep))
    &&& all_globs_ok(routed(views(exclude_file_globs), false, Rewrite::Keep))
    &&& all_globs_ok(routed(views(exclude_file_globs), true, Rewrite::Keep))
    &&& all_globs_ok(routed(views(exclude_dir_globs), false, Rewrite::AnyDepth))
    &&& all_globs_ok(routed(views(exclude_dir_globs), true, Rewrite::AnyDepth))
    &&& all_globs_ok(routed(views(exclude_dir_prefix_globs), false, Rewrite::AnyDepthPrefix))
    &&& all_globs_ok(routed(views(exclude_dir_prefix_globs), true, Rewrite::AnyDepthPrefix))
}

/// A list holding a pattern that is not admitted is not all admitted.
proof fn lemma_bad_pattern_in_views(src: Seq<String>, routed_pats: Seq<Seq<char>>)
    requires
        views(src) == routed_pats,
        exists|i: int| 0 <= i < src.len() && !spec_pattern_admitted(#[trigger] src[i]@),
    ensures
        !all_globs_ok(routed_pats),
{
    let i = choose|i: int| 0 <= i < src.len() && !spec_pattern_admitted(#[trigger] src[i]@);
    assert(views(src)[i] == src[i]@);
    assert(!spec_pattern_admitted(routed_pats[i]));
}

/// A list whose every pattern is admitted is all admitted.
proof fn lemma_ok_patterns_in_views(src: Seq<String>, routed_pats: Seq<Seq<char>>)
    requires
        views(src) == routed_pats,
        forall|i: int| 0 <= i < src.len() ==> spec_pattern_admitted(#[trigger] src[i]@),
    ensures
        all_globs_ok(routed_pats),
{
    assert forall|i: int| 0 <= i < routed_pats.len() implies spec_pattern_admitted(
        #[trigger] routed_pats[i],
    ) by {
        assert(views(src)[i] == src[i]@);
    }
}

/// Admissibility of a concatenated pattern list is admissibility of
/// both parts.
proof fn lemma_all_globs_ok_split(a: Seq<Seq<char>>, b: Seq<Seq<char>>)
    ensures
        all_globs_ok(a + b) <==> (all_globs_ok(a) && all_globs_ok(b)),
{
    if all_globs_ok(a + b) {
        assert forall|i: int| 0 <= i < a.len() implies spec_pattern_admitted(#[trigger] a[i]) by {
            assert((a + b)[i] == a[i]);
        }
        assert forall|i: int| 0 <= i < b.len() implies spec_pattern_admitted(#[trigger] b[i]) by {
            assert((a + b)[a.len() + i] == b[i]);
        }
    }
    if all_globs_ok(a) && all_globs_ok(b) {
        assert forall|i: int| 0 <= i < (a + b).len() implies spec_pattern_admitted(
            #[trigger] (a + b)[i],
        ) by {
            if i < a.len() {
                assert((a + b)[i] == a[i]);
            } else {
                assert((a + b)[i] == b[i - a.len()]);
            }
        }
    }
}

impl Ignores {
    /// Builds the filter configuration from the caller's raw pattern
    /// lists. Fails, before any scan work, exactly when some pattern
    /// (for directory patterns: after its rewrite) is not a valid
    /// glob or is over the library's pattern-length bound.
    pub fn new(
        include_globs: &Vec<String>,
        exclude_file_globs: &Vec<String>,
        exclude_dir_globs: &Vec<String>,
        exclude_dir_prefix_globs: &Vec<String>,
    ) -> (r: Result<Ignores, ScanError>)
        ensures
            r matches Ok(ig) ==> {
                &&& ig.files.spec_rel_ignore().patterns() == routed(
                    views(exclude_file_globs@),
                    false,
                    Rewrite::Keep,
                )
                &&& ig.files.spec_abs_ignore().patterns() == routed(
                    views(exclude_file_globs@),
                    true,
                    Rewrite::Keep,
                )
                &&& ig.files.spec_rel_allow().patterns() == routed(
                    views(include_globs@),
                    false,
                    Rewrite::Keep,
                )
                &&& ig.files.spec_abs_allow().patterns() == routed(
                    views(include_globs@),
                    true,
                    Rewrite::Keep,
                )
                &&& ig.dirs.spec_rel().patterns() == routed(
                    views(exclude_dir_globs@),
                    false,
                    Rewrite::AnyDepth,
                ) + routed(views(exclude_dir_prefix_globs@), false, Rewrite::AnyDepthPrefix)
                &&& ig.dirs.spec_abs().patterns() == routed(
                    views(exclude_dir_globs@),
                    true,
                    Rewrite::AnyDepth,
                ) + routed(views(exclude_dir_prefix_globs@), true, Rewrite::AnyDepthPrefix)
            },
            // An inclusion list holding the match-everything pattern `*`
            // makes every file pass the inclusion side of the file rules.
            r matches Ok(ig) ==> ((exists|i: int|
                0 <= i < include_globs@.len() && #[trigger] include_globs@[i]@ =~= seq!['*'])
                ==> forall|t: Seq<char>| #[trigger] ig.files.spec_rel_allow().spec_matches(t)),
            r is Ok <==> spec_config_ok(
                include_globs@,
                exclude_file_globs@,
                exclude_dir_globs@,
                exclude_dir_prefix_globs@,
            ),
    {
        let rel_allow_src = route_patterns(include_globs, false, Rewrite::Keep);
        let abs_allow_src = route_patterns(include_globs, true, Rewrite::Keep);
        let rel_ignore_src = route_patterns(exclude_file_globs, false, Rewrite::Keep);
        let abs_ignore_src = route_patterns(exclude_file_globs, true, Rewrite::Keep);
        let mut rel_dir_src = route_patterns(exclude_dir_globs, false, Rewrite::AnyDepth);
        let mut rel_dir_prefix_src = route_patterns(
            exclude_dir_prefix_globs,
            false,
            Rewrite::AnyDepthPrefix,
        );
        let mut abs_dir_src = route_patterns(exclude_dir_globs, true, Rewrite::AnyDepth);
        let mut abs_dir_prefix_src = route_patterns(
            exclude_dir_prefix_globs,
            true,
            Rewrite::AnyDepthPrefix,
        );
        let ghost ra = routed(views(include_globs@), false, Rewrite::Keep);
        let ghost aa = routed(views(include_globs@), true, Rewrite::Keep);
        let ghost ri = routed(views(exclude_file_globs@), false, Rewrite::Keep);
        let ghost ai = routed(views(exclude_file_globs@), true, Rewrite::Keep);
        let ghost dra = routed(views(exclude_dir_globs@), false, Rewrite::AnyDepth);
        let ghost drb = routed(views(exclude_dir_prefix_globs@), false, Rewrite::AnyDepthPrefix);
        let ghost daa = routed(views(exclude_dir_globs@), true, Rewrite::AnyDepth);
        let ghost dab = routed(views(exclude_dir_prefix_globs@), true, Rewrite::AnyDepthPrefix);
        let ghost rel_dir_all = views(rel_dir_src@) + views(rel_dir_prefix_src@);
        let ghost abs_dir_all = views(abs_dir_src@) + views(abs_dir_prefix_src@);
        rel_dir_src.append(&mut rel_dir_prefix_src);
        abs_dir_src.append(&mut abs_dir_prefix_src);
        proof {
            assert(views(rel_dir_src@) =~= rel_dir_all);
            assert(views(abs_dir_src@) =~= abs_dir_all);
        }

        let rel_allow = match PatternSet::compile(&rel_allow_src) {
            Ok(s) => s,
            Err(e) => {
                proof {
                    lemma_bad_pattern_in_views(rel_allow_src@, ra);
                }
                return Err(e);
            },
        };
        let abs_allow = match PatternSet::compile(&abs_allow_src) {
            Ok(s) => s,
            Err(e) => {
                proof {
                    lemma_bad_pattern_in_views(abs_allow_src@, aa);
                }
                return Err(e);
            },
        };
        let rel_ignore = match PatternSet::compile(&rel_ignore_src) {
            Ok(s) => s,
            Err(e) => {
                proof {
                    lemma_bad_pattern_in_views(rel_ignore_src@, ri);
                }
                return Err(e);
            },
        };
        let abs_ignore = match PatternSet::compile(&abs_ignore_src) {
            Ok(s) => s,
            Err(e) => {
                proof {
                    lemma_bad_pattern_in_views(abs_ignore_src@, ai);
                }
                return Err(e);
            },
        };
        let dir_rel = match PatternSet::compile(&rel_dir_src) {
            Ok(s) => s,
            Err(e) => {
                proof {
                    lemma_bad_pattern_in_views(rel_dir_src@, dra + drb);
                    lemma_all_globs_ok_split(dra, drb);
                }
                return Err(e);
            },
        };
        let dir_abs = match PatternSet::compile(&abs_dir_src) {
            Ok(s) => s,
            Err(e) => {
                proof {
                    lemma_bad_pattern_in_views(abs_dir_src@, daa + dab);
                    lemma_all_globs_ok_split(daa, dab);
                }
                return Err(e);
            },
        };

        let has_rel = !(rel_ignore.is_empty() && rel_allow.is_empty());
        let has_abs = !(abs_ignore.is_empty() && abs_allow.is_empty());
        let files = FileFilter { rel_ignore, abs_ignore, rel_allow, abs_allow, has_rel, has_abs };
        let dirs = DirFilter { rel: dir_rel, abs: dir_abs };
        let ig = Ignores { files, dirs };
        proof {
            lemma_ok_patterns_in_views(rel_allow_src@, ra);
            lemma_ok_patterns_in_views(abs_allow_src@, aa);
            lemma_ok_patterns_in_views(rel_ignore_src@, ri);
            lemma_ok_patterns_in_views(abs_ignore_src@, ai);
            lemma_ok_patterns_in_views(rel_dir_src@, dra + drb);
            lemma_all_globs_ok_split(dra, drb);
            lemma_ok_patterns_in_views(abs_dir_src@, daa + dab);
            lemma_all_globs_ok_split(daa, dab);
            if exists|i: int|
                0 <= i < include_globs@.len() && #[trigger] include_globs@[i]@ =~= seq!['*'] {
                let i = choose|i: int|
                    0 <= i < include_globs@.len() && #[trigger] include_globs@[i]@ =~= seq!['*'];
                assert(views(include_globs@)[i] =~= seq!['*']);
                assert(!spec_is_absolute_pattern(views(include_globs@)[i]));
                lemma_routed_contains(views(include_globs@), false, Rewrite::Keep, i);
                let routed_pats = routed(views(include_globs@), false, Rewrite::Keep);
                assert(routed_pats.contains(seq!['*']));
                let j = choose|j: int| 0 <= j < routed_pats.len() && routed_pats[j] == seq!['*'];
                assert(rel_allow_src@[j]@ =~= seq!['*']);
            }
        }
        Ok(ig)
    }
}

} // verus!

//! Exclusion rules: glob patterns that prune the filesystem walk.
//!
//! A rule is either a directory path or a general glob pattern; both are
//! compiled to a single glob-pattern representation before any filesystem
//! access begins, so a malformed pattern aborts a run before the walk starts.

use vstd::prelude::*;

verus! {

/// Whether the glob crate accepts a pattern string.
pub uninterp spec fn glob_compiles(pattern: Seq<char>) -> bool;

/// Whether a compiled glob pattern matches a path.
pub uninterp spec fn glob_matches(pattern: Seq<char>, path: Seq<char>) -> bool;

/// One exclusion rule: a directory to prune, or a glob pattern evaluated
/// against full paths.
pub enum Exclusion {
    Directory(String),
    Pattern(String),
}

impl Clone for Exclusion {
    fn clone(&self) -> (r: Self)
        ensures
            r == *self,
    {
        match self {
            Exclusion::Directory(d) => Exclusion::Directory(d.clone()),
            Exclusion::Pattern(p) => Exclusion::Pattern(p.clone()),
        }
    }
}

impl Exclusion {
    /// The rule as the pattern text it is matched by.
    pub open spec fn spec_text(&self) -> Seq<char> {
        match self {
            Exclusion::Directory(d) => d@,
            Exclusion::Pattern(p) => p@,
        }
    }

    /// The rule's text, for display and for compilation.
    pub fn text(&self) -> (r: &str)
        ensures
            r@ == self.spec_text(),
    {
        match self {
            Exclusion::Directory(d) => d.as_str(),
            Exclusion::Pattern(p) => p.as_str(),
        }
    }
}

/// The built-in exclusions prepended to every search: OS pseudo-filesystems
/// and common VCS or build directories.
pub fn default_exclusions() -> (r: Vec<Exclusion>)
    ensures
        r@.len() == 12,
        r@[0].spec_text() == "/lost+found"@ && r@[0] is Directory,
        r@[1].spec_text() == "/dev"@ && r@[1] is Directory,
        r@[2].spec_text() == "/proc"@ && r@[2] is Directory,
        r@[3].spec_text() == "/sys"@ && r@[3] is Directory,
        r@[4].spec_text() == "/tmp"@ && r@[4] is Directory,
        r@[5].spec_text() == "*/.svn"@ && r@[5] is Pattern,
        r@[6].spec_text() == "*/CVS"@ && r@[6] is Pattern,
        r@[7].spec_text() == "*/.git"@ && r@[7] is Pattern,
        r@[8].spec_text() == "*/.hg"@ && r@[8] is Pattern,
        r@[9].spec_text() == "*/.bzr"@ && r@[9] is Pattern,
        r@[10].spec_text() == "*/node_modules"@ && r@[10] is Pattern,
        r@[11].spec_text() == "*/target"@ && r@[11] is Pattern,
{
    let mut r: Vec<Exclusion> = Vec::new();
    r.push(Exclusion::Directory("/lost+found".to_owned()));
    r.push(Exclusion::Directory("/dev".to_owned()));
    r.push(Exclusion::Directory("/proc".to_owned()));
    r.push(Exclusion::Directory("/sys".to_owned()));
    r.push(Exclusion::Directory("/tmp".to_owned()));
    r.push(Exclusion::Pattern("*/.svn".to_owned()));
    r.push(Exclusion::Pattern("*/CVS".to_owned()));
    r.push(Exclusion::Pattern("*/.git".to_owned()));
    r.push(Exclusion::Pattern("*/.hg".to_owned()));
    r.push(Exclusion::Pattern("*/.bzr".to_owned()));
    r.push(Exclusion::Pattern("*/node_modules".to_owned()));
    r.push(Exclusion::Pattern("*/target".to_owned()));
    r
}

/// A compiled exclusion pattern, paired with the text it was compiled from.
/// The pairing is established by [`compile_pattern`], the only constructor,
/// so the match wrapper may speak of the source text.
pub struct GlobPattern {
    source: String,
    compiled: glob::Pattern,
}

#[verifier::external_type_specification]
#[verifier::external_body]
pub struct ExGlobPattern(glob::Pattern);

impl GlobPattern {
    /// The text the pattern was compiled from.
    pub closed spec fn spec_source(&self) -> Seq<char> {
        self.source@
    }

    /// The pattern's source text.
    pub fn source(&self) -> (r: &str)
        ensures
            r@ == self.spec_source(),
    {
        self.source.as_str()
    }
}

/// Relies on glob::Pattern::new: whether a pattern string compiles depends on
/// the string alone.
#[verifier::external_body]
pub fn compile_pattern(source: String) -> (r: Option<GlobPattern>)
    ensures
        r is Some <==> glob_compiles(source@),
        r is Some ==> r->0.spec_source() == source@,
{
    match glob::Pattern::new(&source) {
        Ok(compiled) => Some(GlobPattern { source, compiled }),
        Err(_) => None,
    }
}

/// Relies on glob::Pattern::matches: whether a compiled pattern matches a
/// path depends on the pattern text and the path alone.  (For the UTF-8
/// paths this engine holds, the glob crate's `matches_path` is exactly
/// `matches` on the path's string.)
#[verifier::external_body]
pub fn pattern_matches(pattern: &GlobPattern, path: &str) -> (r: bool)
    ensures
        r == glob_matches(pattern.spec_source(), path@),
{
    pattern.compiled.matches(path)
}

/// The text of the first rule that does not compile, if any.
pub open spec fn first_bad_rule(rules: Seq<Exclusion>) -> Option<Seq<char>>
    decreases rules.len(),
{
    if rules.len() == 0 {
        None
    } else if !glob_compiles(rules[0].spec_text()) {
        Some(rules[0].spec_text())
    } else {
        first_bad_rule(rules.drop_first())
    }
}

/// Turns one exclusion rule into a compiled pattern; a rule whose text the
/// glob crate rejects yields its text back as the error.
pub fn exclusion_to_pattern(exclusion: &Exclusion) -> (r: Result<GlobPattern, String>)
    ensures
        r is Ok <==> glob_compiles(exclusion.spec_text()),
        r is Ok ==> r->Ok_0.spec_source() == exclusion.spec_text(),
        r is Err ==> r->Err_0@ == exclusion.spec_text(),
{
    let text = exclusion.text();
    match compile_pattern(text.to_owned()) {
        Some(p) => Ok(p),
        None => Err(text.to_owned()),
    }
}

/// Compiles every exclusion rule, aborting at the first malformed one with
/// that rule's text; on success the patterns correspond to the rules, in
/// order.
pub fn compile_exclusions(rules: &Vec<Exclusion>) -> (r: Result<Vec<GlobPattern>, String>)
    ensures
        r is Ok <==> first_bad_rule(rules@) is None,
        r is Ok ==> r->Ok_0@.len() == rules@.len() && forall|i: int|
            0 <= i < rules@.len() ==> (#[trigger] r->Ok_0@[i]).spec_source()
                == rules@[i].spec_text(),
        r is Err ==> first_bad_rule(rules@) == Some(r->Err_0@),
{
    let n = rules.len();
    let mut out: Vec<GlobPattern> = Vec::new();
    proof {
        assert(rules@.skip(0) =~= rules@);
    }
    for i in 0..n
        invariant
            n == rules.len(),
            out@.len() == i,
            forall|j: int|
                0 <= j < i ==> (#[trigger] out@[j]).spec_source() == rules@[j].spec_text(),
            forall|j: int| 0 <= j < i ==> glob_compiles(#[trigger] rules@[j].spec_text()),
            first_bad_rule(rules@) == first_bad_rule(rules@.skip(i as int)),
    {
        let ghost pre = rules@.skip(i as int);
        proof {
            assert(pre.drop_first() =~= rules@.skip(i + 1));
            assert(pre[0] == rules@[i as int]);
        }
        match exclusion_to_pattern(&rules[i]) {
            Ok(p) => {
                out.push(p);
            },
            Err(text) => {
                return Err(text);
            },
        }
    }
    proof {
        assert(rules@.skip(n as int) =~= Seq::<Exclusion>::empty());
    }
    Ok(out)
}

/// Whether any compiled exclusion pattern matches the path: such a path is
/// skipped entirely by the walk, so neither it nor anything beneath it is
/// ever reported.
pub fn is_excluded(patterns: &Vec<GlobPattern>, path: &str) -> (r: bool)
    ensures
        r <==> exists|i: int|
            0 <= i < patterns@.len() && glob_matches(
                (#[trigger] patterns@[i]).spec_source(),
                path@,
            ),
{
    let n = patterns.len();
    for i in 0..n
        invariant
            n == patterns.len(),
            forall|j: int|
                0 <= j < i ==> !glob_matches((#[trigger] patterns@[j]).spec_source(), path@),
    {
        if pattern_matches(&patterns[i], path) {
            return true;
        }
    }
    false
}

} // verus!

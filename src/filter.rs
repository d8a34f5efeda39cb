use vstd::prelude::*;
use crate::error::StoreError;
use crate::text::starts_with;
use globset::{Glob, GlobSet};

verus! {

#[verifier::external_type_specification]
#[verifier::external_body]
pub struct ExGlob(globset::Glob);

#[verifier::external_type_specification]
#[verifier::external_body]
pub struct ExGlobSet(globset::GlobSet);

#[verifier::external_type_specification]
#[verifier::external_body]
pub struct ExGlobError(globset::Error);

/// Whether a glob pattern is well formed.
pub uninterp spec fn glob_parses(pattern: Seq<char>) -> bool;

/// Whether any of the glob patterns matches the path.
pub uninterp spec fn globs_match(globs: Seq<Seq<char>>, path: Seq<char>) -> bool;

/// Whether a set of well-formed glob patterns compiles into one matcher: it
/// does unless the compiled form grows past globset's fixed size limit.
pub uninterp spec fn globs_compile(globs: Seq<Seq<char>>) -> bool;

/// The glob patterns a compiled set was built from, in order.
pub uninterp spec fn set_patterns(s: GlobSet) -> Seq<Seq<char>>;

/// The characters of each string, in order.
pub open spec fn string_views(v: Seq<String>) -> Seq<Seq<char>> {
    Seq::new(v.len(), |i: int| v[i]@)
}

/// Every pattern is well formed and together they compile.
pub open spec fn patterns_compile(v: Seq<Seq<char>>) -> bool {
    &&& forall|i: int| 0 <= i < v.len() ==> glob_parses(#[trigger] v[i])
    &&& globs_compile(v)
}

/// Relies on globset::Glob::new, on each pattern, and globset::GlobSet::new:
/// parsing fails exactly on a malformed pattern; compiling the parsed globs
/// depends on them alone and succeeds on none at all; the set is built from
/// exactly these patterns.
#[verifier::external_body]
fn compile_globs(patterns: &Vec<String>) -> (r: Result<GlobSet, globset::Error>)
    ensures
        r is Ok <==> patterns_compile(string_views(patterns@)),
        r is Ok ==> globs_compile(string_views(patterns@)),
        r is Ok ==> forall|i: int| 0 <= i < patterns@.len() ==> glob_parses(#[trigger] patterns@[i]@),
        patterns@.len() == 0 ==> r is Ok,
        r is Ok ==> set_patterns(r->Ok_0) == string_views(patterns@),
{
    let globs = patterns.iter().map(|p| Glob::new(p)).collect::<Result<Vec<Glob>, _>>()?;
    GlobSet::new(globs)
}

/// Relies on globset::GlobSet::is_match: whether any glob of the set matches
/// the path.
#[verifier::external_body]
fn set_is_match(s: &GlobSet, path: &str) -> (r: bool)
    ensures
        r == globs_match(set_patterns(*s), path@),
{
    s.is_match(path)
}

/// The patterns as compiled: each of `patterns` at any depth.
pub open spec fn anywhere_all(patterns: Seq<String>) -> Seq<Seq<char>> {
    Seq::new(patterns.len(), |i: int| anywhere(patterns[i]@))
}

/// The exclude pattern as matched: the user's pattern at any depth.
pub open spec fn anywhere(pattern: Seq<char>) -> Seq<char> {
    "**/"@ + pattern
}

/// A compiled set of exclude patterns.
pub struct ExcludeMatcher {
    set: GlobSet,
}

impl ExcludeMatcher {
    /// The glob patterns the matcher was compiled from.
    pub closed spec fn globs(&self) -> Seq<Seq<char>> {
        set_patterns(self.set)
    }

    /// Compiles the exclude patterns, each matched at any depth.
    /// `InvalidPattern` when one of them is malformed or the set cannot be
    /// compiled.
    pub fn new(patterns: &Vec<String>) -> (r: Result<ExcludeMatcher, StoreError>)
        ensures
            r is Ok ==> r->Ok_0.globs() == anywhere_all(patterns@),
            r is Ok <==> (forall|i: int|
                0 <= i < patterns@.len() ==> glob_parses(anywhere(#[trigger] patterns@[i]@)))
                && globs_compile(anywhere_all(patterns@)),
            patterns@.len() == 0 ==> r is Ok,
            r is Err ==> r->Err_0 == StoreError::InvalidPattern,
    {
        let mut full: Vec<String> = Vec::new();
        let mut i: usize = 0;
        while i < patterns.len()
            invariant
                0 <= i <= patterns@.len(),
                full@.len() == i,
                forall|j: int| 0 <= j < i ==> (#[trigger] full@[j])@ == anywhere(patterns@[j]@),
            decreases patterns@.len() - i,
        {
            let mut g = String::from_str("**/");
            g.append(patterns[i].as_str());
            full.push(g);
            i += 1;
        }
        assert(string_views(full@) =~= anywhere_all(patterns@));
        proof {
            if patterns_compile(string_views(full@)) {
                assert forall|j: int| 0 <= j < patterns@.len() implies glob_parses(
                    anywhere(#[trigger] patterns@[j]@),
                ) by {
                    assert(string_views(full@)[j] == anywhere(patterns@[j]@));
                }
            }
            if forall|j: int| 0 <= j < patterns@.len() ==> glob_parses(
                anywhere(#[trigger] patterns@[j]@),
            ) {
                assert forall|j: int| 0 <= j < full@.len() implies glob_parses(
                    #[trigger] string_views(full@)[j],
                ) by {
                    assert(full@[j]@ == anywhere(patterns@[j]@));
                }
            }
        }
        match compile_globs(&full) {
            Ok(set) => Ok(ExcludeMatcher { set }),
            Err(_) => Err(StoreError::InvalidPattern),
        }
    }

    /// Whether an exclude pattern matches the path.
    pub fn is_excluded(&self, path: &str) -> (r: bool)
        ensures
            r == globs_match(self.globs(), path@),
    {
        set_is_match(&self.set, path)
    }
}

/// The name of the store's own directory at the root of the working tree.
pub open spec fn store_dir() -> Seq<char> {
    ".devcat"@
}

/// The relative path is the store's directory or lies inside it.
pub open spec fn in_store_dir(p: Seq<char>) -> bool {
    p == store_dir() || (p.len() > store_dir().len() && p.subrange(0, store_dir().len() as int + 1)
        == store_dir() + seq!['/'])
}

/// Whether a normalized relative path is the store's directory or lies
/// inside it; such paths are never captured or cleaned up.
pub fn is_store_path(p: &str) -> (r: bool)
    ensures
        r == in_store_dir(p@),
{
    proof {
        reveal_strlit(".devcat");
        reveal_strlit(".devcat/");
        assert(".devcat/"@ =~= store_dir() + seq!['/']);
    }
    if starts_with(p, ".devcat/") {
        true
    } else if starts_with(p, ".devcat") {
        let n = p.unicode_len();
        proof {
            if n == 7 {
                assert(p@ =~= p@.subrange(0, 7));
            }
        }
        n == 7
    } else {
        proof {
            if p@ == store_dir() {
                assert(p@.subrange(0, 7) =~= p@);
            }
        }
        false
    }
}

/// The leading bytes of the text this tool writes when it concatenates files.
pub open spec fn output_signature() -> Seq<u8> {
    seq![45u8, 45u8, 45u8, 32u8, 83u8, 84u8, 65u8, 82u8, 84u8, 32u8, 70u8, 73u8, 76u8, 69u8, 58u8, 32u8]
}

/// Whether a file's leading bytes mark it as output of this tool, which is
/// never captured.
pub fn has_output_signature(head: &[u8]) -> (r: bool)
    ensures
        r == (head@.len() >= output_signature().len() && head@.subrange(
            0,
            output_signature().len() as int,
        ) == output_signature()),
{
    let sig: [u8; 16] = [45, 45, 45, 32, 83, 84, 65, 82, 84, 32, 70, 73, 76, 69, 58, 32];
    assert(sig@ =~= output_signature());
    if head.len() < 16 {
        return false;
    }
    let mut i: usize = 0;
    while i < 16
        invariant
            0 <= i <= 16,
            head@.len() >= 16,
            sig@ == output_signature(),
            forall|j: int| 0 <= j < i ==> head@[j] == sig@[j],
        decreases 16 - i,
    {
        if head[i] != sig[i] {
            assert(head@.subrange(0, 16)[i as int] != output_signature()[i as int]);
            return false;
        }
        i += 1;
    }
    assert(head@.subrange(0, 16) =~= output_signature());
    true
}

/// Whether the directory walk keeps an entry: `rel` is its path relative to
/// the root of the working tree and `path` the path the walk reports. The
/// store's own directory and whatever an exclude pattern matches are left out.
pub fn walk_admits(matcher: &ExcludeMatcher, rel: &str, path: &str) -> (r: bool)
    ensures
        r == (!in_store_dir(rel@) && !globs_match(matcher.globs(), path@)),
{
    !is_store_path(rel) && !matcher.is_excluded(path)
}

} // verus!

//! The build artifact cache engine.
//!
//! A [`Cache`] pairs the cache directory with the artifact declarations of
//! the manifest and with the recorded facts about the cache directory's
//! contents.  Together with a [`Repo`](crate::git::Repo) carrying the
//! recorded Git facts, it answers which cached revision satisfies an
//! artifact, and plans the copies that `get` and `insert` perform.

use vstd::prelude::*;

use crate::git::GitError;
use crate::git::Object;
use crate::git::Repo;
use crate::git::contains_oid;
use crate::git::contains_string;
use crate::git::oldest_common_descendant_spec;
use crate::pattern::count_char;
use crate::pattern::find_char;
use crate::pattern::lemma_count_zero;
use crate::pattern::lemma_find_char;
use crate::pattern::count_char_in;
use crate::pattern::match_pattern;
use crate::pattern::pattern_capture;
use crate::pattern::subst_first;
use crate::pattern::subst_first_spec;
use crate::util::clone_strings;
use crate::util::join_path_spec;
use crate::util::join_path;
use crate::util::views_of;

verus! {

/// A build artifact: the repository-relative paths of its inputs (everything
/// its build reads) and of its outputs (everything its build produces that a
/// user needs).
#[derive(Debug, PartialEq, Eq)]
pub struct Artifact {
    pub inputs: Vec<String>,
    pub outputs: Vec<String>,
}

impl Artifact {
    /// A copy of this artifact.
    pub fn duplicate(&self) -> (r: Artifact)
        ensures
            r.inputs@ == self.inputs@,
            r.outputs@ == self.outputs@,
    {
        Artifact { inputs: clone_strings(&self.inputs), outputs: clone_strings(&self.outputs) }
    }
}

/// Why an artifact name did not resolve.
#[derive(Debug, PartialEq, Eq)]
pub enum ResolveError {
    /// The name is no literal key and no pattern matches it.
    NotDefined,
    /// More than one pattern artifact matches the name.
    MultiplePatternMatches,
}

/// An error of the cache engine.  As in [`GitError`], the `Need` variants
/// name a fact the driver has not recorded yet.
#[derive(Debug, PartialEq, Eq)]
pub enum CacheError {
    /// An error of the Git reasoning layer.
    Git(GitError),
    /// The cache directory's entries have not been recorded yet.
    NeedCacheEntries,
    /// Whether `<cacheRoot>/<oid>/<subpath>` exists has not been recorded
    /// yet.
    NeedSubpath { oid: String, subpath: String },
}

impl CacheError {
    /// Whether this value names a missing fact rather than a failure.
    pub open spec fn spec_is_need(&self) -> bool {
        match self {
            CacheError::Git(e) => e.spec_is_need(),
            CacheError::NeedCacheEntries => true,
            CacheError::NeedSubpath { .. } => true,
        }
    }

    /// Whether this value names a missing fact rather than a failure.
    #[verifier::when_used_as_spec(spec_is_need)]
    pub fn is_need(&self) -> (r: bool)
        ensures
            r == self.spec_is_need(),
    {
        match self {
            CacheError::Git(e) => e.is_need(),
            CacheError::NeedCacheEntries => true,
            CacheError::NeedSubpath { .. } => true,
        }
    }
}

/// A hexadecimal digit.
pub open spec fn is_hex_digit(c: char) -> bool {
    ('0' <= c && c <= '9') || ('a' <= c && c <= 'f') || ('A' <= c && c <= 'F')
}

/// A well-formed cache entry name: exactly forty hexadecimal digits.
pub open spec fn is_oid_name(s: Seq<char>) -> bool {
    s.len() == 40 && forall|i: int| 0 <= i < s.len() ==> is_hex_digit(s[i])
}

/// The members of `names` that are well-formed cache entry names, in order.
pub open spec fn filter_oid_names(names: Seq<String>) -> Seq<String>
    decreases names.len(),
{
    if names.len() == 0 {
        Seq::empty()
    } else if is_oid_name(names[0]@) {
        seq![names[0]] + filter_oid_names(names.drop_first())
    } else {
        filter_oid_names(names.drop_first())
    }
}

/// First-match lookup in the subpath-existence table.
pub open spec fn subpath_lookup(
    t: Seq<(String, String, bool)>,
    oid: Seq<char>,
    sub: Seq<char>,
) -> Option<bool>
    decreases t.len(),
{
    if t.len() == 0 {
        None
    } else if t[0].0@ == oid && t[0].1@ == sub {
        Some(t[0].2)
    } else {
        subpath_lookup(t.drop_first(), oid, sub)
    }
}

/// First-match lookup of a literal artifact name.
pub open spec fn artifact_lookup(arts: Seq<(String, Artifact)>, name: Seq<char>) -> Option<
    Artifact,
>
    decreases arts.len(),
{
    if arts.len() == 0 {
        None
    } else if arts[0].0@ == name {
        Some(arts[0].1)
    } else {
        artifact_lookup(arts.drop_first(), name)
    }
}

/// Whether this manifest entry is a pattern artifact (exactly one `%` in its
/// name) whose pattern matches `name`.
pub open spec fn entry_matches(entry: (String, Artifact), name: Seq<char>) -> bool {
    count_char(entry.0@, '%') == 1 && pattern_capture(entry.0@, name) is Some
}

/// How many manifest entries up to index `i` are pattern artifacts matching
/// `name`.
pub open spec fn match_count(arts: Seq<(String, Artifact)>, name: Seq<char>, i: int) -> int
    decreases i,
{
    if i <= 0 {
        0
    } else {
        match_count(arts, name, i - 1) + if entry_matches(arts[i - 1], name) {
            1int
        } else {
            0int
        }
    }
}

/// The index of the first pattern artifact matching `name`, from `i` on.
pub open spec fn first_match_from(arts: Seq<(String, Artifact)>, name: Seq<char>, i: int) -> Option<
    int,
>
    decreases arts.len() - i,
{
    if i < 0 || i >= arts.len() {
        None
    } else if entry_matches(arts[i], name) {
        Some(i)
    } else {
        first_match_from(arts, name, i + 1)
    }
}

/// The substitution of `actual` for the first `%` of each path.
pub open spec fn subst_all(paths: Seq<String>, actual: Seq<char>) -> Seq<Seq<char>> {
    paths.map_values(|p: String| subst_first_spec(p@, actual))
}

/// A build artifact cache: the cache directory, the artifact declarations of
/// the manifest, and the recorded facts about the directory's contents.
pub struct Cache {
    pub path: String,
    artifacts: Vec<(String, Artifact)>,
    /// The recorded names of the cache directory's object subdirectories, or
    /// `None` while the directory has not been listed.
    entries: Option<Vec<String>>,
    /// `(oid, subpath, value)`: `value` is true iff
    /// `<cacheRoot>/<oid>/<subpath>` exists.
    subpaths: Vec<(String, String, bool)>,
}

impl Cache {
    /// The cache directory.
    pub closed spec fn path_value(self) -> String {
        self.path
    }

    /// The artifact declarations, in manifest order.
    pub closed spec fn artifacts_view(self) -> Seq<(String, Artifact)> {
        self.artifacts@
    }

    /// The recorded cache entry names, in directory order.
    pub closed spec fn entries_fact(self) -> Option<Seq<String>> {
        match self.entries {
            None => None,
            Some(l) => Some(l@),
        }
    }

    /// The recorded answer to "does `<cacheRoot>/<oid>/<sub>` exist?".
    pub closed spec fn subpath_fact(self, oid: Seq<char>, sub: Seq<char>) -> Option<bool> {
        subpath_lookup(self.subpaths@, oid, sub)
    }

    /// Make a cache over a directory for the artifacts of a manifest, with
    /// no facts recorded.
    pub fn new(path: String, artifacts: Vec<(String, Artifact)>) -> (r: Cache)
        ensures
            r.path_value() == path,
            r.artifacts_view() == artifacts@,
            r.entries_fact() is None,
            forall|o: Seq<char>, s: Seq<char>| r.subpath_fact(o, s) is None,
    {
        Cache { path, artifacts, entries: None, subpaths: Vec::new() }
    }

    /// Record the cache directory's listing: of the subdirectory names
    /// handed in, those of forty hexadecimal digits are cache entries, and
    /// every other entry is ignored.
    pub fn record_directory_entries(&mut self, names: Vec<String>)
        ensures
            final(self).entries_fact() == Some(filter_oid_names(names@)),
            final(self).path_value() == old(self).path_value(),
            final(self).artifacts_view() == old(self).artifacts_view(),
            forall|o: Seq<char>, s: Seq<char>|
                final(self).subpath_fact(o, s) == old(self).subpath_fact(o, s),
    {
        let n = names.len();
        let mut kept = Vec::<String>::new();
        let mut i: usize = 0;
        proof {
            assert(names@.skip(0) =~= names@);
            assert(kept@ + filter_oid_names(names@.skip(0)) =~= filter_oid_names(names@));
        }
        while i < n
            invariant
                0 <= i <= n,
                n == names@.len(),
                filter_oid_names(names@) == kept@ + filter_oid_names(names@.skip(i as int)),
            decreases n - i,
        {
            let ghost pre = kept@;
            proof {
                assert(names@.skip(i as int)[0] == names@[i as int]);
                assert(names@.skip(i as int).drop_first() =~= names@.skip(i + 1));
            }
            if is_oid_string(&names[i]) {
                kept.push(names[i].clone());
                proof {
                    assert(kept@ =~= pre + seq![names@[i as int]]);
                    assert(pre + (seq![names@[i as int]] + filter_oid_names(names@.skip(i + 1)))
                        =~= kept@ + filter_oid_names(names@.skip(i + 1)));
                }
            }
            i = i + 1;
        }
        proof {
            assert(names@.skip(n as int) =~= Seq::<String>::empty());
            assert(kept@ + filter_oid_names(names@.skip(n as int)) =~= kept@);
        }
        self.entries = Some(kept);
    }

    /// Record whether `<cacheRoot>/<oid>/<subpath>` exists.
    pub fn record_subpath(&mut self, oid: String, subpath: String, exists: bool)
        ensures
            final(self).subpath_fact(oid@, subpath@) == Some(exists),
            forall|o: Seq<char>, s: Seq<char>|
                !(o == oid@ && s == subpath@) ==> final(self).subpath_fact(o, s) == old(
                    self,
                ).subpath_fact(o, s),
            final(self).path_value() == old(self).path_value(),
            final(self).artifacts_view() == old(self).artifacts_view(),
            final(self).entries_fact() == old(self).entries_fact(),
    {
        self.subpaths.insert(0, (oid, subpath, exists));
        proof {
            assert(self.subpaths@.drop_first() =~= old(self).subpaths@);
        }
    }

    /// The cache directory's lock file.
    pub fn lock_file_path(&self) -> (r: String)
        ensures
            r@ == join_path_spec(self.path_value()@, ".lock"@),
    {
        join_path(self.path.as_str(), ".lock")
    }

    /// Where `subpath` of `object`'s entry lies in the cache directory.
    pub fn abspath_for_object(&self, object: &Object, subpath: &str) -> (r: String)
        ensures
            r@ == join_path_spec(join_path_spec(self.path_value()@, object.oid@), subpath@),
    {
        let entry = join_path(self.path.as_str(), object.oid.as_str());
        join_path(entry.as_str(), subpath)
    }

    /// Determine whether a subpath exists for an object: its absolute path
    /// when it does, `None` when it does not, and the missing fact while the
    /// existence has not been recorded.
    pub fn subpath_in_object(&self, object: &Object, subpath: &String) -> (r: Result<
        Option<String>,
        CacheError,
    >)
        ensures
            match r {
                Ok(Some(p)) => self.subpath_fact(object.oid@, subpath@) == Some(true) && p@
                    == join_path_spec(
                    join_path_spec(self.path_value()@, object.oid@),
                    subpath@,
                ),
                Ok(None) => self.subpath_fact(object.oid@, subpath@) == Some(false),
                Err(e) => self.subpath_fact(object.oid@, subpath@) is None && e
                    == (CacheError::NeedSubpath { oid: object.oid, subpath: *subpath }),
            },
    {
        match self.lookup_subpath(&object.oid, subpath) {
            None => Err(
                CacheError::NeedSubpath { oid: object.oid.clone(), subpath: subpath.clone() },
            ),
            Some(true) => Ok(Some(self.abspath_for_object(object, subpath.as_str()))),
            Some(false) => Ok(None),
        }
    }

    /// Look the subpath-existence fact for `(oid, sub)` up.
    fn lookup_subpath(&self, oid: &String, sub: &String) -> (r: Option<bool>)
        ensures
            r == self.subpath_fact(oid@, sub@),
    {
        let n = self.subpaths.len();
        let mut i: usize = 0;
        proof {
            assert(self.subpaths@.skip(0) =~= self.subpaths@);
        }
        while i < n
            invariant
                0 <= i <= n,
                n == self.subpaths@.len(),
                subpath_lookup(self.subpaths@.skip(i as int), oid@, sub@) == subpath_lookup(
                    self.subpaths@,
                    oid@,
                    sub@,
                ),
            decreases n - i,
        {
            let e = &self.subpaths[i];
            proof {
                assert(self.subpaths@.skip(i as int)[0] == self.subpaths@[i as int]);
            }
            if e.0 == *oid && e.1 == *sub {
                return Some(e.2);
            }
            proof {
                assert(self.subpaths@.skip(i as int).drop_first() =~= self.subpaths@.skip(i + 1));
            }
            i = i + 1;
        }
        proof {
            assert(self.subpaths@.skip(n as int) =~= Seq::<(String, String, bool)>::empty());
        }
        None
    }

    /// Whether `path` is identical at `a` and at `b`, if recorded under
    /// either key order.
    pub fn objects_identical_for_path(
        &self,
        repo: &Repo,
        a: &Object,
        b: &Object,
        path: &String,
    ) -> (r: Option<bool>)
        ensures
            r == identity_sym(*repo, a.oid@, b.oid@, path@),
    {
        match a.path_is_same_as(b, path, repo) {
            Some(v) => Some(v),
            None => b.path_is_same_as(a, path, repo),
        }
    }
}

/// The path-identity fact for `(a, b, p)` under either key order, the order
/// as recorded first.
pub open spec fn identity_sym(repo: Repo, a: Seq<char>, b: Seq<char>, p: Seq<char>) -> Option<
    bool,
> {
    match repo.path_identity_fact(a, b, p) {
        Some(v) => Some(v),
        None => repo.path_identity_fact(b, a, p),
    }
}

/// Whether `s` is exactly forty hexadecimal digits.
fn is_oid_string(s: &String) -> (r: bool)
    ensures
        r == is_oid_name(s@),
{
    let n = s.as_str().unicode_len();
    if n != 40 {
        return false;
    }
    let mut i: usize = 0;
    while i < n
        invariant
            0 <= i <= n,
            n == s@.len(),
            forall|j: int| 0 <= j < i ==> is_hex_digit(s@[j]),
        decreases n - i,
    {
        let c = s.as_str().get_char(i);
        let hex = ('0' <= c && c <= '9') || ('a' <= c && c <= 'f') || ('A' <= c && c <= 'F');
        if !hex {
            return false;
        }
        i = i + 1;
    }
    true
}

/// `first_match_from` returns the first matching pattern entry: it matches
/// and nothing before it does; `None` means nothing from `i` on matches.
pub proof fn lemma_first_match(arts: Seq<(String, Artifact)>, name: Seq<char>, i: int)
    requires
        0 <= i <= arts.len(),
    ensures
        match first_match_from(arts, name, i) {
            Some(k) => i <= k < arts.len() && entry_matches(arts[k], name) && (forall|j: int|
                i <= j < k ==> !entry_matches(arts[j], name)),
            None => forall|j: int| i <= j < arts.len() ==> !entry_matches(arts[j], name),
        },
    decreases arts.len() - i,
{
    if i < arts.len() && !entry_matches(arts[i], name) {
        lemma_first_match(arts, name, i + 1);
    }
}

impl Cache {
    /// Get an artifact definition by name.
    ///
    /// A name that is a literal key of the manifest resolves to that
    /// artifact, verbatim.  Otherwise the pattern artifacts are searched:
    /// exactly one must match, and the substring its `%` captured is
    /// substituted into the first `%` of each input and output path.
    #[verifier::loop_isolation(false)]
    pub fn artifact(&self, name: &str) -> (r: Result<Artifact, ResolveError>)
        ensures
            match r {
                Ok(a) => match artifact_lookup(self.artifacts_view(), name@) {
                    Some(orig) => a.inputs@ == orig.inputs@ && a.outputs@ == orig.outputs@,
                    None => {
                        &&& match_count(self.artifacts_view(), name@, self.artifacts_view().len() as int) == 1
                        &&& match first_match_from(self.artifacts_view(), name@, 0) {
                            Some(k) => {
                                let entry = self.artifacts_view()[k];
                                let cap = pattern_capture(entry.0@, name@).unwrap();
                                &&& views_of(a.inputs@) == subst_all(entry.1.inputs@, cap)
                                &&& views_of(a.outputs@) == subst_all(entry.1.outputs@, cap)
                            },
                            None => false,
                        }
                    },
                },
                Err(ResolveError::NotDefined) => artifact_lookup(self.artifacts_view(), name@)
                    is None && match_count(
                    self.artifacts_view(),
                    name@,
                    self.artifacts_view().len() as int,
                ) == 0,
                Err(ResolveError::MultiplePatternMatches) => artifact_lookup(
                    self.artifacts_view(),
                    name@,
                ) is None && match_count(
                    self.artifacts_view(),
                    name@,
                    self.artifacts_view().len() as int,
                ) >= 2,
            },
    {
        let n = self.artifacts.len();
        let key = String::from_str(name);
        // Match artifact names literally first.
        let mut i: usize = 0;
        proof {
            assert(self.artifacts@.skip(0) =~= self.artifacts@);
        }
        while i < n
            invariant
                0 <= i <= n,
                artifact_lookup(self.artifacts@.skip(i as int), name@) == artifact_lookup(
                    self.artifacts@,
                    name@,
                ),
            decreases n - i,
        {
            let e = &self.artifacts[i];
            proof {
                assert(self.artifacts@.skip(i as int)[0] == self.artifacts@[i as int]);
            }
            if e.0 == key {
                return Ok(e.1.duplicate());
            }
            proof {
                assert(self.artifacts@.skip(i as int).drop_first() =~= self.artifacts@.skip(i + 1));
            }
            i = i + 1;
        }
        proof {
            assert(self.artifacts@.skip(n as int) =~= Seq::<(String, Artifact)>::empty());
        }
        // No literal match: search the pattern artifacts.
        let mut count: usize = 0;
        let mut found: usize = 0;
        let mut capture: Option<String> = None;
        let mut i: usize = 0;
        while i < n
            invariant
                0 <= i <= n,
                count == match_count(self.artifacts@, name@, i as int),
                count <= i,
                match capture {
                    None => count == 0 && (forall|j: int|
                        0 <= j < i ==> !entry_matches(self.artifacts@[j], name@)),
                    Some(c) => {
                        &&& count >= 1
                        &&& first_match_from(self.artifacts@, name@, 0) == Some(found as int)
                        &&& 0 <= found < i
                        &&& pattern_capture(self.artifacts@[found as int].0@, name@) == Some(c@)
                    },
                },
            decreases n - i,
        {
            let e = &self.artifacts[i];
            if count_char_in(e.0.as_str(), '%') == 1 {
                match match_pattern(e.0.as_str(), name) {
                    Some(c) => {
                        count = count + 1;
                        if capture.is_none() {
                            found = i;
                            capture = Some(c);
                            proof {
                                lemma_first_match(self.artifacts@, name@, 0);
                            }
                        }
                    },
                    None => {},
                }
            }
            i = i + 1;
        }
        if count == 0 {
            return Err(ResolveError::NotDefined);
        }
        if count >= 2 {
            return Err(ResolveError::MultiplePatternMatches);
        }
        // Exactly one pattern matches: substitute its capture.
        let cap = match capture {
            Some(c) => c,
            None => {
                return Err(ResolveError::NotDefined);
            },
        };
        let entry = &self.artifacts[found];
        let inputs = subst_paths(&entry.1.inputs, &cap);
        let outputs = subst_paths(&entry.1.outputs, &cap);
        Ok(Artifact { inputs, outputs })
    }
}

/// Substitute `actual` for the first `%` of each path.
fn subst_paths(paths: &Vec<String>, actual: &String) -> (r: Vec<String>)
    ensures
        views_of(r@) == subst_all(paths@, actual@),
{
    let n = paths.len();
    let mut r = Vec::<String>::new();
    let mut i: usize = 0;
    while i < n
        invariant
            0 <= i <= n,
            n == paths@.len(),
            r@.len() == i,
            forall|j: int|
                0 <= j < i ==> #[trigger] r@[j]@ == subst_first_spec(paths@[j]@, actual@),
        decreases n - i,
    {
        r.push(subst_first(paths[i].as_str(), actual.as_str()));
        i = i + 1;
    }
    proof {
        assert(views_of(r@) =~= subst_all(paths@, actual@));
    }
    r
}

/// Resolver totality: a name that literally matches a key resolves to that
/// artifact verbatim, whatever the pattern artifacts say.
pub proof fn lemma_resolver_totality(c: Cache, name: &str, r: Result<Artifact, ResolveError>)
    requires
        call_ensures(Cache::artifact, (&c, name), r),
        artifact_lookup(c.artifacts_view(), name@) is Some,
    ensures
        r is Ok,
        r->Ok_0.inputs@ == artifact_lookup(c.artifacts_view(), name@)->Some_0.inputs@,
        r->Ok_0.outputs@ == artifact_lookup(c.artifacts_view(), name@)->Some_0.outputs@,
{
}

/// Resolver idempotence: two resolutions of the same name against the same
/// manifest yield the same artifact record (the same paths), or the same
/// error.
pub proof fn lemma_resolver_idempotent(
    c: Cache,
    name: &str,
    r1: Result<Artifact, ResolveError>,
    r2: Result<Artifact, ResolveError>,
)
    requires
        call_ensures(Cache::artifact, (&c, name), r1),
        call_ensures(Cache::artifact, (&c, name), r2),
    ensures
        r1 is Ok <==> r2 is Ok,
        r1 is Ok ==> views_of(r1->Ok_0.inputs@) == views_of(r2->Ok_0.inputs@) && views_of(
            r1->Ok_0.outputs@,
        ) == views_of(r2->Ok_0.outputs@),
        r1 is Err ==> r1 == r2,
{
    if r1 is Ok && r2 is Ok {
        match artifact_lookup(c.artifacts_view(), name@) {
            Some(orig) => {
                assert(views_of(r1->Ok_0.inputs@) =~= views_of(orig.inputs@));
                assert(views_of(r2->Ok_0.inputs@) =~= views_of(orig.inputs@));
                assert(views_of(r1->Ok_0.outputs@) =~= views_of(orig.outputs@));
                assert(views_of(r2->Ok_0.outputs@) =~= views_of(orig.outputs@));
            },
            None => {},
        }
    }
}

/// Pattern substitution: in a substituted path list, a path holding a `%`
/// carries the capture in place of its first `%`, and a path without one is
/// returned unchanged.
pub proof fn lemma_pattern_substitution(paths: Seq<String>, actual: Seq<char>, i: int)
    requires
        0 <= i < paths.len(),
    ensures
        count_char(paths[i]@, '%') == 0 ==> subst_all(paths, actual)[i] == paths[i]@,
        match find_char(paths[i]@, '%') {
            Some(k) => subst_all(paths, actual)[i] == paths[i]@.take(k) + actual + paths[i]@.skip(
                k + 1,
            ),
            None => subst_all(paths, actual)[i] == paths[i]@,
        },
{
    if count_char(paths[i]@, '%') == 0 {
        lemma_count_zero(paths[i]@, '%');
        lemma_find_char(paths[i]@, '%');
        if find_char(paths[i]@, '%') is Some {
            let k = find_char(paths[i]@, '%')->Some_0;
            assert(paths[i]@[k] == '%');
        }
    }
}

/// The last-modifying object of each input, in input order: fails with the
/// first input no commit modifies, and reports the first missing fact.
pub open spec fn input_objects_spec(repo: Repo, inputs: Seq<String>) -> Result<Seq<Object>, GitError>
    decreases inputs.len(),
{
    if inputs.len() == 0 {
        Ok(Seq::empty())
    } else {
        match repo.last_commit_fact(inputs[0]@) {
            None => Err(GitError::NeedLastCommit { path: inputs[0] }),
            Some(None) => Err(GitError::NoLastCommit { path: inputs[0] }),
            Some(Some(oid)) => match input_objects_spec(repo, inputs.drop_first()) {
                Err(e) => Err(e),
                Ok(rest) => Ok(seq![Object { oid }] + rest),
            },
        }
    }
}

/// Each input contributes exactly one last-modifying object.
pub proof fn lemma_input_objects_len(repo: Repo, inputs: Seq<String>)
    requires
        input_objects_spec(repo, inputs) is Ok,
    ensures
        input_objects_spec(repo, inputs)->Ok_0.len() == inputs.len(),
    decreases inputs.len(),
{
    if inputs.len() > 0 {
        lemma_input_objects_len(repo, inputs.drop_first());
    }
}

/// The required object of an artifact: the oldest revision of the current
/// branch at which every input holds its latest content.
pub open spec fn required_object_spec(repo: Repo, artifact: Artifact) -> Result<Object, GitError> {
    match input_objects_spec(repo, artifact.inputs@) {
        Err(e) => Err(e),
        Ok(objs) => oldest_common_descendant_spec(repo, objs),
    }
}

/// Whether any input carries uncommitted changes, over the recorded facts:
/// reports the first missing fact.
pub open spec fn uncommitted_gate(repo: Repo, inputs: Seq<String>) -> Result<bool, GitError>
    decreases inputs.len(),
{
    if inputs.len() == 0 {
        Ok(false)
    } else {
        match repo.uncommitted_fact(inputs[0]@) {
            None => Err(GitError::NeedUncommittedChanges { path: inputs[0] }),
            Some(true) => Ok(true),
            Some(false) => uncommitted_gate(repo, inputs.drop_first()),
        }
    }
}

/// Whether every input is identical at `r_oid` and at `anc_oid`, over the
/// recorded facts: reports the first missing fact.
pub open spec fn inputs_identical(
    repo: Repo,
    r_oid: String,
    anc_oid: String,
    inputs: Seq<String>,
) -> Result<bool, CacheError>
    decreases inputs.len(),
{
    if inputs.len() == 0 {
        Ok(true)
    } else {
        match identity_sym(repo, r_oid@, anc_oid@, inputs[0]@) {
            None => Err(
                CacheError::Git(
                    GitError::NeedPathIdentity { a: r_oid, b: anc_oid, path: inputs[0] },
                ),
            ),
            Some(false) => Ok(false),
            Some(true) => inputs_identical(repo, r_oid, anc_oid, inputs.drop_first()),
        }
    }
}

/// The cache entries among `entries` that hold `subpath`, strictly descend
/// from `anc`, and leave every input unchanged since `anc`.
pub open spec fn candidates_from(
    repo: Repo,
    cache: Cache,
    anc: Object,
    entries: Seq<String>,
    subpath: String,
    inputs: Seq<String>,
) -> Result<Seq<String>, CacheError>
    decreases entries.len(),
{
    if entries.len() == 0 {
        Ok(Seq::empty())
    } else {
        let r = entries[0];
        if r@ == anc.oid@ {
            // The required object's own entry is the direct candidate
            // already, and no revision is its own strict descendant.
            candidates_from(repo, cache, anc, entries.drop_first(), subpath, inputs)
        } else {
            match repo.ancestry_fact(anc.oid@, r@) {
                None => Err(
                    CacheError::Git(GitError::NeedAncestry { ancestor: anc.oid, descendant: r }),
                ),
                Some(false) => candidates_from(
                    repo,
                    cache,
                    anc,
                    entries.drop_first(),
                    subpath,
                    inputs,
                ),
                Some(true) => match cache.subpath_fact(r@, subpath@) {
                    None => Err(CacheError::NeedSubpath { oid: r, subpath }),
                    Some(false) => candidates_from(
                        repo,
                        cache,
                        anc,
                        entries.drop_first(),
                        subpath,
                        inputs,
                    ),
                    Some(true) => match inputs_identical(repo, r, anc.oid, inputs) {
                        Err(e) => Err(e),
                        Ok(false) => candidates_from(
                            repo,
                            cache,
                            anc,
                            entries.drop_first(),
                            subpath,
                            inputs,
                        ),
                        Ok(true) => match candidates_from(
                            repo,
                            cache,
                            anc,
                            entries.drop_first(),
                            subpath,
                            inputs,
                        ) {
                            Err(e) => Err(e),
                            Ok(rest) => Ok(seq![r] + rest),
                        },
                    },
                },
            }
        }
    }
}

/// The candidates for one output `subpath` of an artifact with required
/// object `anc`: `anc` itself when its entry holds the subpath, plus every
/// qualifying cache entry.
pub open spec fn find_candidates_spec(
    repo: Repo,
    cache: Cache,
    anc: Object,
    subpath: String,
    inputs: Seq<String>,
) -> Result<Seq<String>, CacheError> {
    match cache.subpath_fact(anc.oid@, subpath@) {
        None => Err(CacheError::NeedSubpath { oid: anc.oid, subpath }),
        Some(direct) => match cache.entries_fact() {
            None => Err(CacheError::NeedCacheEntries),
            Some(entries) => match candidates_from(repo, cache, anc, entries, subpath, inputs) {
                Err(e) => Err(e),
                Ok(c) => Ok(
                    if direct {
                        seq![anc.oid] + c
                    } else {
                        c
                    },
                ),
            },
        },
    }
}

/// The members of `a` that occur in `b`, in the order of `a`.
pub open spec fn intersect_lists(a: Seq<String>, b: Seq<String>) -> Seq<String>
    decreases a.len(),
{
    if a.len() == 0 {
        Seq::empty()
    } else if contains_oid(b, a[0]@) {
        seq![a[0]] + intersect_lists(a.drop_first(), b)
    } else {
        intersect_lists(a.drop_first(), b)
    }
}

/// The fold of the candidate sets of the remaining outputs into `acc`; an
/// empty intersection ends the fold.
pub open spec fn cached_object_fold(
    repo: Repo,
    cache: Cache,
    anc: Object,
    outputs: Seq<String>,
    inputs: Seq<String>,
    acc: Seq<String>,
) -> Result<Seq<String>, CacheError>
    decreases outputs.len(),
{
    if acc.len() == 0 || outputs.len() == 0 {
        Ok(acc)
    } else {
        match find_candidates_spec(repo, cache, anc, outputs[0], inputs) {
            Err(e) => Err(e),
            Ok(c) => cached_object_fold(
                repo,
                cache,
                anc,
                outputs.drop_first(),
                inputs,
                intersect_lists(acc, c),
            ),
        }
    }
}

/// The search for a cached object once the required object `anc` is known:
/// the first member of the intersection of all outputs' candidate sets, or
/// `None` when the intersection is empty (in particular when the artifact
/// has no outputs).
pub open spec fn cached_object_search(
    repo: Repo,
    cache: Cache,
    anc: Object,
    outputs: Seq<String>,
    inputs: Seq<String>,
) -> Result<Option<String>, CacheError> {
    if outputs.len() == 0 {
        Ok(None)
    } else {
        match find_candidates_spec(repo, cache, anc, outputs[0], inputs) {
            Err(e) => Err(e),
            Ok(init) => match cached_object_fold(
                repo,
                cache,
                anc,
                outputs.drop_first(),
                inputs,
                init,
            ) {
                Err(e) => Err(e),
                Ok(fin) => if fin.len() == 0 {
                    Ok(None)
                } else {
                    Ok(Some(fin[0]))
                },
            },
        }
    }
}

/// The cached object satisfying an artifact, over the recorded facts: with
/// the uncommitted-changes gate applied first (unless ignored), and a miss
/// whenever the required object cannot be determined.
pub open spec fn cached_object_spec(
    repo: Repo,
    cache: Cache,
    artifact: Artifact,
    ignore_uncommitted: bool,
) -> Result<Option<String>, CacheError> {
    let gate = if ignore_uncommitted {
        Ok(false)
    } else {
        uncommitted_gate(repo, artifact.inputs@)
    };
    match gate {
        Err(e) => Err(CacheError::Git(e)),
        Ok(true) => Ok(None),
        Ok(false) => match required_object_spec(repo, artifact) {
            Err(e) => if e.spec_is_need() {
                Err(CacheError::Git(e))
            } else {
                Ok(None)
            },
            Ok(anc) => cached_object_search(repo, cache, anc, artifact.outputs@, artifact.inputs@),
        },
    }
}

/// Required-revision monotonicity, at the artifact level: when the inputs'
/// last-modifying objects are pairwise comparable under recorded, transitive
/// ancestry facts, the required object is the youngest of them.
pub proof fn lemma_required_revision_monotonic(repo: Repo, artifact: Artifact)
    requires
        artifact.inputs@.len() > 0,
        input_objects_spec(repo, artifact.inputs@) is Ok,
        crate::git::pairwise_comparable(repo, input_objects_spec(repo, artifact.inputs@)->Ok_0),
        crate::git::ancestry_transitive_over(
            repo,
            input_objects_spec(repo, artifact.inputs@)->Ok_0,
        ),
    ensures
        required_object_spec(repo, artifact) == crate::git::first_ordered_spec(
            repo,
            input_objects_spec(repo, artifact.inputs@)->Ok_0,
            true,
        ),
        required_object_spec(repo, artifact) is Ok,
        forall|j: int|
            0 <= j < input_objects_spec(repo, artifact.inputs@)->Ok_0.len()
                ==> crate::git::older_or_equal(
                repo,
                (#[trigger] input_objects_spec(repo, artifact.inputs@)->Ok_0[j]).oid@,
                (required_object_spec(repo, artifact)->Ok_0).oid@,
            ),
{
    let objs = input_objects_spec(repo, artifact.inputs@)->Ok_0;
    lemma_input_objects_len(repo, artifact.inputs@);
    crate::git::lemma_youngest_when_comparable(repo, objs);
}

/// A string occurring in both lists occurs in their intersection.
proof fn lemma_intersect_keeps(a: Seq<String>, b: Seq<String>, x: Seq<char>)
    requires
        contains_oid(a, x),
        contains_oid(b, x),
    ensures
        contains_oid(intersect_lists(a, b), x),
    decreases a.len(),
{
    let i = choose|i: int| 0 <= i < a.len() && a[i]@ == x;
    if i == 0 {
        assert(intersect_lists(a, b)[0]@ == x);
    } else {
        assert(a.drop_first()[i - 1]@ == x);
        lemma_intersect_keeps(a.drop_first(), b, x);
        if contains_oid(b, a[0]@) {
            let j = choose|j: int|
                0 <= j < intersect_lists(a.drop_first(), b).len() && intersect_lists(
                    a.drop_first(),
                    b,
                )[j]@ == x;
            assert(intersect_lists(a, b)[j + 1]@ == x);
        }
    }
}

/// A member of every output's candidate list survives the whole fold.
proof fn lemma_fold_keeps(
    repo: Repo,
    cache: Cache,
    anc: Object,
    outputs: Seq<String>,
    inputs: Seq<String>,
    acc: Seq<String>,
    x: Seq<char>,
)
    requires
        contains_oid(acc, x),
        forall|i: int|
            0 <= i < outputs.len() ==> find_candidates_spec(
                repo,
                cache,
                anc,
                #[trigger] outputs[i],
                inputs,
            ) is Ok && contains_oid(
                find_candidates_spec(repo, cache, anc, outputs[i], inputs)->Ok_0,
                x,
            ),
    ensures
        cached_object_fold(repo, cache, anc, outputs, inputs, acc) is Ok,
        contains_oid(cached_object_fold(repo, cache, anc, outputs, inputs, acc)->Ok_0, x),
    decreases outputs.len(),
{
    if acc.len() == 0 || outputs.len() == 0 {
    } else {
        let c = find_candidates_spec(repo, cache, anc, outputs[0], inputs)->Ok_0;
        lemma_intersect_keeps(acc, c, x);
        assert forall|i: int| 0 <= i < outputs.drop_first().len() implies find_candidates_spec(
            repo,
            cache,
            anc,
            #[trigger] outputs.drop_first()[i],
            inputs,
        ) is Ok && contains_oid(
            find_candidates_spec(repo, cache, anc, outputs.drop_first()[i], inputs)->Ok_0,
            x,
        ) by {
            assert(outputs.drop_first()[i] == outputs[i + 1]);
        }
        lemma_fold_keeps(repo, cache, anc, outputs.drop_first(), inputs, intersect_lists(acc, c), x);
    }
}

/// Cache round-trip: at a repository state whose required object's entry
/// holds every output — as it does right after a successful insert — and
/// whose inputs are clean (or dirtiness is ignored), the lookup reports a
/// hit, provided every fact the candidate search consults is recorded.
pub proof fn lemma_cache_round_trip(
    repo: Repo,
    cache: Cache,
    artifact: Artifact,
    ignore_uncommitted: bool,
    anc: Object,
)
    requires
        ignore_uncommitted || uncommitted_gate(repo, artifact.inputs@) == Ok::<bool, GitError>(
            false,
        ),
        required_object_spec(repo, artifact) == Ok::<Object, GitError>(anc),
        artifact.outputs@.len() > 0,
        forall|i: int|
            0 <= i < artifact.outputs@.len() ==> cache.subpath_fact(
                anc.oid@,
                (#[trigger] artifact.outputs@[i])@,
            ) == Some(true),
        forall|i: int|
            0 <= i < artifact.outputs@.len() ==> find_candidates_spec(
                repo,
                cache,
                anc,
                #[trigger] artifact.outputs@[i],
                artifact.inputs@,
            ) is Ok,
    ensures
        cached_object_spec(repo, cache, artifact, ignore_uncommitted) is Ok,
        cached_object_spec(repo, cache, artifact, ignore_uncommitted)->Ok_0 is Some,
{
    let outputs = artifact.outputs@;
    let inputs = artifact.inputs@;
    assert forall|i: int| 0 <= i < outputs.len() implies find_candidates_spec(
        repo,
        cache,
        anc,
        #[trigger] outputs[i],
        inputs,
    ) is Ok && contains_oid(
        find_candidates_spec(repo, cache, anc, outputs[i], inputs)->Ok_0,
        anc.oid@,
    ) by {
        assert(cache.subpath_fact(anc.oid@, outputs[i]@) == Some(true));
        let c = find_candidates_spec(repo, cache, anc, outputs[i], inputs)->Ok_0;
        assert(c[0]@ == anc.oid@);
    }
    let init = find_candidates_spec(repo, cache, anc, outputs[0], inputs)->Ok_0;
    assert forall|i: int| 0 <= i < outputs.drop_first().len() implies find_candidates_spec(
        repo,
        cache,
        anc,
        #[trigger] outputs.drop_first()[i],
        inputs,
    ) is Ok && contains_oid(
        find_candidates_spec(repo, cache, anc, outputs.drop_first()[i], inputs)->Ok_0,
        anc.oid@,
    ) by {
        assert(outputs.drop_first()[i] == outputs[i + 1]);
    }
    lemma_fold_keeps(repo, cache, anc, outputs.drop_first(), inputs, init, anc.oid@);
}

/// Intersecting with an empty candidate list leaves nothing.
proof fn lemma_intersect_empty(a: Seq<String>)
    ensures
        intersect_lists(a, Seq::empty()).len() == 0,
    decreases a.len(),
{
    if a.len() > 0 {
        lemma_intersect_empty(a.drop_first());
    }
}

/// Once some output's candidate list is empty, the fold ends empty.
proof fn lemma_fold_empties(
    repo: Repo,
    cache: Cache,
    anc: Object,
    outputs: Seq<String>,
    inputs: Seq<String>,
    acc: Seq<String>,
    k: int,
)
    requires
        0 <= k < outputs.len(),
        find_candidates_spec(repo, cache, anc, outputs[k], inputs) == Ok::<Seq<String>, CacheError>(
            Seq::empty(),
        ),
        forall|i: int|
            0 <= i < k ==> find_candidates_spec(repo, cache, anc, #[trigger] outputs[i], inputs)
                is Ok,
    ensures
        cached_object_fold(repo, cache, anc, outputs, inputs, acc) is Ok,
        cached_object_fold(repo, cache, anc, outputs, inputs, acc)->Ok_0.len() == 0,
    decreases outputs.len(),
{
    if acc.len() == 0 {
    } else if k == 0 {
        lemma_intersect_empty(acc);
        assert(cached_object_fold(repo, cache, anc, outputs.drop_first(), inputs, intersect_lists(
            acc,
            Seq::empty(),
        )) == Ok::<Seq<String>, CacheError>(intersect_lists(acc, Seq::empty())));
    } else {
        let c = find_candidates_spec(repo, cache, anc, outputs[0], inputs)->Ok_0;
        assert(outputs.drop_first()[k - 1] == outputs[k]);
        assert forall|i: int| 0 <= i < k - 1 implies find_candidates_spec(
            repo,
            cache,
            anc,
            #[trigger] outputs.drop_first()[i],
            inputs,
        ) is Ok by {
            assert(outputs.drop_first()[i] == outputs[i + 1]);
        }
        lemma_fold_empties(
            repo,
            cache,
            anc,
            outputs.drop_first(),
            inputs,
            intersect_lists(acc, c),
            k - 1,
        );
    }
}

/// Invalidation by input change: when some output has no candidate at all —
/// as after an input changed and was committed, unless a descendant entry
/// still satisfies every condition — the lookup reports a miss.
pub proof fn lemma_invalidation_by_input_change(
    repo: Repo,
    cache: Cache,
    artifact: Artifact,
    ignore_uncommitted: bool,
    anc: Object,
    k: int,
)
    requires
        ignore_uncommitted || uncommitted_gate(repo, artifact.inputs@) == Ok::<bool, GitError>(
            false,
        ),
        required_object_spec(repo, artifact) == Ok::<Object, GitError>(anc),
        0 <= k < artifact.outputs@.len(),
        find_candidates_spec(repo, cache, anc, artifact.outputs@[k], artifact.inputs@) == Ok::<
            Seq<String>,
            CacheError,
        >(Seq::empty()),
        forall|i: int|
            0 <= i < k ==> find_candidates_spec(
                repo,
                cache,
                anc,
                #[trigger] artifact.outputs@[i],
                artifact.inputs@,
            ) is Ok,
    ensures
        cached_object_spec(repo, cache, artifact, ignore_uncommitted) == Ok::<
            Option<String>,
            CacheError,
        >(None),
{
    let outputs = artifact.outputs@;
    let inputs = artifact.inputs@;
    if k == 0 {
    } else {
        let init = find_candidates_spec(repo, cache, anc, outputs[0], inputs)->Ok_0;
        if init.len() == 0 {
        } else {
            assert(outputs.drop_first()[k - 1] == outputs[k]);
            assert forall|i: int| 0 <= i < k - 1 implies find_candidates_spec(
                repo,
                cache,
                anc,
                #[trigger] outputs.drop_first()[i],
                inputs,
            ) is Ok by {
                assert(outputs.drop_first()[i] == outputs[i + 1]);
            }
            lemma_fold_empties(repo, cache, anc, outputs.drop_first(), inputs, init, k - 1);
        }
    }
}

/// The members of `a` that occur in `b`, in the order of `a`.
fn intersect_strings(a: &Vec<String>, b: &Vec<String>) -> (r: Vec<String>)
    ensures
        r@ == intersect_lists(a@, b@),
{
    let n = a.len();
    let mut r = Vec::<String>::new();
    let mut i: usize = 0;
    proof {
        assert(a@.skip(0) =~= a@);
        assert(r@ + intersect_lists(a@.skip(0), b@) =~= intersect_lists(a@, b@));
    }
    while i < n
        invariant
            0 <= i <= n,
            n == a@.len(),
            intersect_lists(a@, b@) == r@ + intersect_lists(a@.skip(i as int), b@),
        decreases n - i,
    {
        let ghost pre = r@;
        proof {
            assert(a@.skip(i as int)[0] == a@[i as int]);
            assert(a@.skip(i as int).drop_first() =~= a@.skip(i + 1));
        }
        if contains_string(b, &a[i]) {
            r.push(a[i].clone());
            proof {
                assert(r@ =~= pre + seq![a@[i as int]]);
                assert(pre + (seq![a@[i as int]] + intersect_lists(a@.skip(i + 1), b@)) =~= r@
                    + intersect_lists(a@.skip(i + 1), b@));
            }
        }
        i = i + 1;
    }
    proof {
        assert(a@.skip(n as int) =~= Seq::<String>::empty());
        assert(r@ + intersect_lists(a@.skip(n as int), b@) =~= r@);
    }
    r
}

impl Cache {
    /// Determine the required object for an artifact: the oldest revision of
    /// the current branch at which every input holds its latest content.
    #[verifier::loop_isolation(false)]
    pub fn required_object(&self, repo: &Repo, artifact: &Artifact) -> (r: Result<Object, GitError>)
        ensures
            r == required_object_spec(*repo, *artifact),
    {
        let n = artifact.inputs.len();
        let mut objs = Vec::<Object>::new();
        let mut i: usize = 0;
        proof {
            assert(artifact.inputs@.skip(0) =~= artifact.inputs@);
        }
        while i < n
            invariant
                0 <= i <= n,
                objs@.len() == i,
                match input_objects_spec(*repo, artifact.inputs@.skip(i as int)) {
                    Ok(rest) => input_objects_spec(*repo, artifact.inputs@) == Ok::<Seq<Object>, GitError>(objs@ + rest),
                    Err(e) => input_objects_spec(*repo, artifact.inputs@) == Err::<Seq<Object>, GitError>(e),
                },
            decreases n - i,
        {
            let ghost pre = objs@;
            proof {
                assert(artifact.inputs@.skip(i as int)[0] == artifact.inputs@[i as int]);
                assert(artifact.inputs@.skip(i as int).drop_first() =~= artifact.inputs@.skip(
                    i + 1,
                ));
            }
            match repo.last_commit_on_path(artifact.inputs[i].as_str()) {
                None => {
                    return Err(GitError::NeedLastCommit { path: artifact.inputs[i].clone() });
                },
                Some(None) => {
                    return Err(GitError::NoLastCommit { path: artifact.inputs[i].clone() });
                },
                Some(Some(o)) => {
                    objs.push(o);
                    proof {
                        if input_objects_spec(*repo, artifact.inputs@.skip(i + 1)) is Ok {
                            let rest = input_objects_spec(
                                *repo,
                                artifact.inputs@.skip(i + 1),
                            ).unwrap();
                            assert(pre + (seq![objs@[i as int]] + rest) =~= objs@ + rest);
                        }
                    }
                },
            }
            i = i + 1;
        }
        proof {
            assert(artifact.inputs@.skip(n as int) =~= Seq::<String>::empty());
            assert(objs@ + Seq::<Object>::empty() =~= objs@);
        }
        repo.oldest_common_descendant_on_current_branch(&objs)
    }

    /// Find the cache entries that satisfy one output of an artifact with
    /// required object `ancestor`: they hold `subpath`, strictly descend
    /// from `ancestor` (or are `ancestor` itself), and leave every input
    /// unchanged since `ancestor`.
    #[verifier::loop_isolation(false)]
    fn find_candidates(
        &self,
        repo: &Repo,
        ancestor: &Object,
        subpath: &String,
        inputs: &Vec<String>,
    ) -> (r: Result<Vec<String>, CacheError>)
        ensures
            match r {
                Ok(c) => find_candidates_spec(*repo, *self, *ancestor, *subpath, inputs@) == Ok::<Seq<String>, CacheError>(c@),
                Err(e) => find_candidates_spec(*repo, *self, *ancestor, *subpath, inputs@)
                    == Err::<Seq<String>, CacheError>(e),
            },
    {
        let direct = match self.lookup_subpath(&ancestor.oid, subpath) {
            None => {
                return Err(
                    CacheError::NeedSubpath { oid: ancestor.oid.clone(), subpath: subpath.clone() },
                );
            },
            Some(d) => d,
        };
        let entries = match &self.entries {
            None => {
                return Err(CacheError::NeedCacheEntries);
            },
            Some(l) => l,
        };
        let n = entries.len();
        let mut out = Vec::<String>::new();
        let mut i: usize = 0;
        proof {
            assert(entries@.skip(0) =~= entries@);
        }
        while i < n
            invariant
                0 <= i <= n,
                match candidates_from(
                    *repo,
                    *self,
                    *ancestor,
                    entries@.skip(i as int),
                    *subpath,
                    inputs@,
                ) {
                    Ok(rest) => candidates_from(
                        *repo,
                        *self,
                        *ancestor,
                        entries@,
                        *subpath,
                        inputs@,
                    ) == Ok::<Seq<String>, CacheError>(out@ + rest),
                    Err(e) => candidates_from(*repo, *self, *ancestor, entries@, *subpath, inputs@)
                        == Err::<Seq<String>, CacheError>(e),
                },
            decreases n - i,
        {
            let ghost pre = out@;
            proof {
                assert(entries@.skip(i as int)[0] == entries@[i as int]);
                assert(entries@.skip(i as int).drop_first() =~= entries@.skip(i + 1));
            }
            let obj = Object::new(entries[i].clone());
            if obj.oid == ancestor.oid {
                // The required object's own entry: covered by the direct
                // candidate, never its own strict descendant.
                i = i + 1;
                continue;
            }
            match obj.is_descendant_of(ancestor, repo) {
                None => {
                    return Err(
                        CacheError::Git(
                            GitError::NeedAncestry {
                                ancestor: ancestor.oid.clone(),
                                descendant: entries[i].clone(),
                            },
                        ),
                    );
                },
                Some(false) => {},
                Some(true) => {
                    match self.lookup_subpath(&obj.oid, subpath) {
                        None => {
                            return Err(
                                CacheError::NeedSubpath {
                                    oid: entries[i].clone(),
                                    subpath: subpath.clone(),
                                },
                            );
                        },
                        Some(false) => {},
                        Some(true) => {
                            match self.inputs_unchanged(repo, &obj, ancestor, inputs) {
                                Err(e) => {
                                    return Err(e);
                                },
                                Ok(false) => {},
                                Ok(true) => {
                                    out.push(entries[i].clone());
                                    proof {
                                        if candidates_from(
                                            *repo,
                                            *self,
                                            *ancestor,
                                            entries@.skip(i + 1),
                                            *subpath,
                                            inputs@,
                                        ) is Ok {
                                            let rest = candidates_from(
                                                *repo,
                                                *self,
                                                *ancestor,
                                                entries@.skip(i + 1),
                                                *subpath,
                                                inputs@,
                                            ).unwrap();
                                            assert(pre + (seq![entries@[i as int]] + rest) =~= out@
                                                + rest);
                                        }
                                    }
                                },
                            }
                        },
                    }
                },
            }
            i = i + 1;
        }
        proof {
            assert(entries@.skip(n as int) =~= Seq::<String>::empty());
            assert(out@ + Seq::<String>::empty() =~= out@);
        }
        if direct {
            let mut with_direct = Vec::<String>::new();
            with_direct.push(ancestor.oid.clone());
            let mut k: usize = 0;
            while k < out.len()
                invariant
                    0 <= k <= out@.len(),
                    with_direct@.len() == k + 1,
                    with_direct@[0] == ancestor.oid,
                    forall|j: int| 0 <= j < k ==> with_direct@[j + 1] == out@[j],
                decreases out@.len() - k,
            {
                with_direct.push(out[k].clone());
                k = k + 1;
            }
            proof {
                assert(with_direct@ =~= seq![ancestor.oid] + out@);
            }
            Ok(with_direct)
        } else {
            Ok(out)
        }
    }

    /// Whether every input is identical at `obj` and at `ancestor`.
    #[verifier::loop_isolation(false)]
    fn inputs_unchanged(
        &self,
        repo: &Repo,
        obj: &Object,
        ancestor: &Object,
        inputs: &Vec<String>,
    ) -> (r: Result<bool, CacheError>)
        ensures
            r == inputs_identical(*repo, obj.oid, ancestor.oid, inputs@),
    {
        let n = inputs.len();
        let mut i: usize = 0;
        proof {
            assert(inputs@.skip(0) =~= inputs@);
        }
        while i < n
            invariant
                0 <= i <= n,
                inputs_identical(*repo, obj.oid, ancestor.oid, inputs@) == inputs_identical(
                    *repo,
                    obj.oid,
                    ancestor.oid,
                    inputs@.skip(i as int),
                ),
            decreases n - i,
        {
            proof {
                assert(inputs@.skip(i as int)[0] == inputs@[i as int]);
                assert(inputs@.skip(i as int).drop_first() =~= inputs@.skip(i + 1));
            }
            match self.objects_identical_for_path(repo, obj, ancestor, &inputs[i]) {
                None => {
                    return Err(
                        CacheError::Git(
                            GitError::NeedPathIdentity {
                                a: obj.oid.clone(),
                                b: ancestor.oid.clone(),
                                path: inputs[i].clone(),
                            },
                        ),
                    );
                },
                Some(false) => {
                    return Ok(false);
                },
                Some(true) => {},
            }
            i = i + 1;
        }
        Ok(true)
    }

    /// Find the cached object satisfying an artifact, if any: the
    /// uncommitted-changes gate reports a miss when an input is dirty (and
    /// not ignored), a miss is reported when the required object cannot be
    /// determined, and otherwise the intersection of all outputs' candidate
    /// sets decides.
    #[verifier::loop_isolation(false)]
    pub fn cached_object(
        &self,
        repo: &Repo,
        artifact: &Artifact,
        ignore_uncommitted: bool,
    ) -> (r: Result<Option<Object>, CacheError>)
        ensures
            match r {
                Ok(None) => cached_object_spec(*repo, *self, *artifact, ignore_uncommitted)
                    == Ok::<Option<String>, CacheError>(None),
                Ok(Some(o)) => cached_object_spec(*repo, *self, *artifact, ignore_uncommitted)
                    == Ok::<Option<String>, CacheError>(Some(o.oid)),
                Err(e) => cached_object_spec(*repo, *self, *artifact, ignore_uncommitted)
                    == Err::<Option<String>, CacheError>(e),
            },
    {
        if !ignore_uncommitted {
            let n = artifact.inputs.len();
            let mut i: usize = 0;
            proof {
                assert(artifact.inputs@.skip(0) =~= artifact.inputs@);
            }
            while i < n
                invariant
                    0 <= i <= n,
                    uncommitted_gate(*repo, artifact.inputs@) == uncommitted_gate(
                        *repo,
                        artifact.inputs@.skip(i as int),
                    ),
                decreases n - i,
            {
                proof {
                    assert(artifact.inputs@.skip(i as int)[0] == artifact.inputs@[i as int]);
                    assert(artifact.inputs@.skip(i as int).drop_first() =~= artifact.inputs@.skip(
                        i + 1,
                    ));
                }
                match repo.has_uncommitted_changes(&artifact.inputs[i]) {
                    None => {
                        return Err(
                            CacheError::Git(
                                GitError::NeedUncommittedChanges {
                                    path: artifact.inputs[i].clone(),
                                },
                            ),
                        );
                    },
                    Some(true) => {
                        return Ok(None);
                    },
                    Some(false) => {},
                }
                i = i + 1;
            }
            proof {
                assert(artifact.inputs@.skip(n as int) =~= Seq::<String>::empty());
            }
        }
        let anc = match self.required_object(repo, artifact) {
            Err(e) => {
                if e.is_need() {
                    return Err(CacheError::Git(e));
                } else {
                    return Ok(None);
                }
            },
            Ok(o) => o,
        };
        let m = artifact.outputs.len();
        if m == 0 {
            return Ok(None);
        }
        let mut acc = match self.find_candidates(repo, &anc, &artifact.outputs[0], &artifact.inputs)
        {
            Err(e) => {
                return Err(e);
            },
            Ok(c) => c,
        };
        if acc.len() == 0 {
            return Ok(None);
        }
        let ghost init = acc@;
        let mut k: usize = 1;
        proof {
            assert(artifact.outputs@.skip(1) =~= artifact.outputs@.drop_first());
        }
        while k < m
            invariant
                1 <= k <= m,
                acc@.len() > 0,
                cached_object_fold(
                    *repo,
                    *self,
                    anc,
                    artifact.outputs@.drop_first(),
                    artifact.inputs@,
                    init,
                ) == cached_object_fold(
                    *repo,
                    *self,
                    anc,
                    artifact.outputs@.skip(k as int),
                    artifact.inputs@,
                    acc@,
                ),
            decreases m - k,
        {
            proof {
                assert(artifact.outputs@.skip(k as int)[0] == artifact.outputs@[k as int]);
                assert(artifact.outputs@.skip(k as int).drop_first() =~= artifact.outputs@.skip(
                    k + 1,
                ));
            }
            let c = match self.find_candidates(
                repo,
                &anc,
                &artifact.outputs[k],
                &artifact.inputs,
            ) {
                Err(e) => {
                    return Err(e);
                },
                Ok(c) => c,
            };
            let ghost prev_acc = acc@;
            acc = intersect_strings(&acc, &c);
            proof {
                assert(find_candidates_spec(
                    *repo,
                    *self,
                    anc,
                    artifact.outputs@.skip(k as int)[0],
                    artifact.inputs@,
                ) == Ok::<Seq<String>, CacheError>(c@));
                assert(cached_object_fold(
                    *repo,
                    *self,
                    anc,
                    artifact.outputs@.skip(k as int),
                    artifact.inputs@,
                    prev_acc,
                ) == cached_object_fold(
                    *repo,
                    *self,
                    anc,
                    artifact.outputs@.skip(k + 1),
                    artifact.inputs@,
                    acc@,
                ));
            }
            if acc.len() == 0 {
                proof {
                    assert(cached_object_fold(
                        *repo,
                        *self,
                        anc,
                        artifact.outputs@.skip(k + 1),
                        artifact.inputs@,
                        acc@,
                    ) == Ok::<Seq<String>, CacheError>(acc@));
                }
                return Ok(None);
            }
            k = k + 1;
        }
        proof {
            assert(artifact.outputs@.skip(m as int) =~= Seq::<String>::empty());
        }
        Ok(Some(Object::new(acc[0].clone())))
    }
}

/// One copy of the plan a `get` or `insert` returns.
#[derive(Debug, PartialEq, Eq)]
pub struct CopyPair {
    pub from: String,
    pub to: String,
}

/// Build the copy plan for `outputs` between two base directories.
fn copy_pairs(from_base: &str, to_base: &str, outputs: &Vec<String>) -> (r: Vec<CopyPair>)
    ensures
        r@.len() == outputs@.len(),
        forall|i: int|
            0 <= i < outputs@.len() ==> (#[trigger] r@[i]).from@ == join_path_spec(
                from_base@,
                outputs@[i]@,
            ) && r@[i].to@ == join_path_spec(to_base@, outputs@[i]@),
{
    let n = outputs.len();
    let mut r = Vec::<CopyPair>::new();
    let mut i: usize = 0;
    while i < n
        invariant
            0 <= i <= n,
            n == outputs@.len(),
            r@.len() == i,
            forall|j: int|
                0 <= j < i ==> (#[trigger] r@[j]).from@ == join_path_spec(
                    from_base@,
                    outputs@[j]@,
                ) && r@[j].to@ == join_path_spec(to_base@, outputs@[j]@),
        decreases n - i,
    {
        let from = join_path(from_base, outputs[i].as_str());
        let to = join_path(to_base, outputs[i].as_str());
        r.push(CopyPair { from, to });
        i = i + 1;
    }
    r
}

impl Cache {
    /// Plan a `get`: on a hit, the returned pairs copy every output from the
    /// cached object's entry into the working tree.  The caller holds a
    /// shared lock on the cache directory while it looks the facts up and
    /// performs the copies.
    pub fn get(&self, repo: &Repo, artifact: &Artifact, ignore_uncommitted: bool) -> (r: Result<
        Option<(Object, Vec<CopyPair>)>,
        CacheError,
    >)
        ensures
            match r {
                Ok(None) => cached_object_spec(*repo, *self, *artifact, ignore_uncommitted)
                    == Ok::<Option<String>, CacheError>(None),
                Ok(Some((o, plan))) => {
                    &&& cached_object_spec(*repo, *self, *artifact, ignore_uncommitted)
                        == Ok::<Option<String>, CacheError>(Some(o.oid))
                    &&& plan@.len() == artifact.outputs@.len()
                    &&& forall|i: int|
                        0 <= i < artifact.outputs@.len() ==> (#[trigger] plan@[i]).from@
                            == join_path_spec(
                            join_path_spec(self.path_value()@, o.oid@),
                            artifact.outputs@[i]@,
                        ) && plan@[i].to@ == join_path_spec(
                            repo.path_value()@,
                            artifact.outputs@[i]@,
                        )
                },
                Err(e) => cached_object_spec(*repo, *self, *artifact, ignore_uncommitted)
                    == Err::<Option<String>, CacheError>(e),
            },
    {
        let obj = match self.cached_object(repo, artifact, ignore_uncommitted) {
            Err(e) => {
                return Err(e);
            },
            Ok(None) => {
                return Ok(None);
            },
            Ok(Some(o)) => o,
        };
        let entry = join_path(self.path.as_str(), obj.oid.as_str());
        let plan = copy_pairs(entry.as_str(), repo.root_path().as_str(), &artifact.outputs);
        Ok(Some((obj, plan)))
    }

    /// Plan an `insert`: when a cached object already satisfies the
    /// artifact, `(false, object)` with an empty plan; otherwise `(true,
    /// required object)` with the pairs that copy every output from the
    /// working tree into that object's entry.  The caller holds an exclusive
    /// lock on the cache directory throughout.
    pub fn insert(&self, repo: &Repo, artifact: &Artifact, ignore_uncommitted: bool) -> (r: Result<
        (bool, Object, Vec<CopyPair>),
        CacheError,
    >)
        ensures
            match r {
                Ok((inserted, o, plan)) => if inserted {
                    &&& cached_object_spec(*repo, *self, *artifact, ignore_uncommitted)
                        == Ok::<Option<String>, CacheError>(None)
                    &&& required_object_spec(*repo, *artifact) == Ok::<Object, GitError>(o)
                    &&& plan@.len() == artifact.outputs@.len()
                    &&& forall|i: int|
                        0 <= i < artifact.outputs@.len() ==> (#[trigger] plan@[i]).from@
                            == join_path_spec(repo.path_value()@, artifact.outputs@[i]@)
                            && plan@[i].to@ == join_path_spec(
                            join_path_spec(self.path_value()@, o.oid@),
                            artifact.outputs@[i]@,
                        )
                } else {
                    &&& cached_object_spec(*repo, *self, *artifact, ignore_uncommitted)
                        == Ok::<Option<String>, CacheError>(Some(o.oid))
                    &&& plan@.len() == 0
                },
                Err(CacheError::Git(e)) => cached_object_spec(
                    *repo,
                    *self,
                    *artifact,
                    ignore_uncommitted,
                ) == Err::<Option<String>, CacheError>(CacheError::Git(e)) || (cached_object_spec(
                    *repo,
                    *self,
                    *artifact,
                    ignore_uncommitted,
                ) == Ok::<Option<String>, CacheError>(None) && required_object_spec(*repo, *artifact) == Err::<Object, GitError>(e)),
                Err(e) => cached_object_spec(*repo, *self, *artifact, ignore_uncommitted)
                    == Err::<Option<String>, CacheError>(e),
            },
    {
        match self.cached_object(repo, artifact, ignore_uncommitted) {
            Err(e) => {
                return Err(e);
            },
            Ok(Some(o)) => {
                return Ok((false, o, Vec::new()));
            },
            Ok(None) => {},
        }
        let req = match self.required_object(repo, artifact) {
            Err(e) => {
                return Err(CacheError::Git(e));
            },
            Ok(o) => o,
        };
        let entry = join_path(self.path.as_str(), req.oid.as_str());
        let plan = copy_pairs(repo.root_path().as_str(), entry.as_str(), &artifact.outputs);
        Ok((true, req, plan))
    }
}

} // verus!

//! Git model: repositories, objects, and the ancestry facts the engine
//! reasons over.
//!
//! The version-control tool itself is a separate process and is run by the
//! unverified driver around this library.  The driver records each answer it
//! obtains (ancestry of two objects, the last commit on a path, the
//! descendants of an object, ...) into the [`Repo`] value, and every decision
//! of the engine is a verified function over those recorded facts.  Whenever a
//! fact is missing, the engine reports which one, the driver fetches and
//! records it, and the engine is simply run again; recorded facts are never
//! invalidated within a run.

use vstd::prelude::*;

use crate::util::join_path_spec;
use crate::util::join_path;
use crate::util::split_lines_spec;
use crate::util::split_lines;
use crate::util::views_of;
use crate::util::clone_strings;
use core::cmp::Ordering;

verus! {

/// A Git object: a 40-hex-digit identifier of a commit.
#[derive(Debug, PartialEq, Eq, Hash)]
pub struct Object {
    pub oid: String,
}

/// An error of the Git reasoning layer.
///
/// The `Need` variants are not failures: they name a fact that has not been
/// recorded yet.  The driver answers them by running the corresponding Git
/// query, recording the result, and retrying.
#[derive(Debug, PartialEq, Eq)]
pub enum GitError {
    /// An operation over a set of objects was given an empty set.
    NoObjects,
    /// Two objects are on diverging branches: neither is an ancestor of the
    /// other.
    Incomparable { a: String, b: String },
    /// Objects on diverging branches have no common candidate: no revision
    /// of the current branch reaches the content of all of them.
    NoCommonDescendant,
    /// No commit modifies the path: the required revision is undefined.
    NoLastCommit { path: String },
    /// Whether `ancestor` is a strict ancestor of `descendant` has not been
    /// recorded yet.
    NeedAncestry { ancestor: String, descendant: String },
    /// The descendants of `oid` on the current branch have not been recorded
    /// yet.
    NeedDescendants { oid: String },
    /// The last commit modifying `path` has not been recorded yet.
    NeedLastCommit { path: String },
    /// Whether `path` is identical at `a` and `b` has not been recorded yet.
    NeedPathIdentity { a: String, b: String, path: String },
    /// Whether `path` has uncommitted changes has not been recorded yet.
    NeedUncommittedChanges { path: String },
}

impl GitError {
    /// Whether this value names a missing fact rather than a failure.
    pub open spec fn spec_is_need(&self) -> bool {
        match self {
            GitError::NeedAncestry { .. } => true,
            GitError::NeedDescendants { .. } => true,
            GitError::NeedLastCommit { .. } => true,
            GitError::NeedPathIdentity { .. } => true,
            GitError::NeedUncommittedChanges { .. } => true,
            _ => false,
        }
    }

    /// Whether this value names a missing fact rather than a failure.
    #[verifier::when_used_as_spec(spec_is_need)]
    pub fn is_need(&self) -> (r: bool)
        ensures
            r == self.spec_is_need(),
    {
        match self {
            GitError::NeedAncestry { .. } => true,
            GitError::NeedDescendants { .. } => true,
            GitError::NeedLastCommit { .. } => true,
            GitError::NeedPathIdentity { .. } => true,
            GitError::NeedUncommittedChanges { .. } => true,
            _ => false,
        }
    }
}

/// A Git repository: its root path, its submodule paths, and the facts about
/// its history that have been recorded so far.
pub struct Repo {
    pub path: String,
    submodule_paths: Vec<String>,
    /// `(ancestor, descendant, value)`: `value` is true iff `ancestor` is a
    /// strict ancestor of `descendant`.
    ancestry: Vec<(String, String, bool)>,
    /// `(path, commit)`: the most recent commit modifying `path`, or `None`
    /// if no commit does.
    last_commits: Vec<(String, Option<String>)>,
    /// `(oid, list)`: the strict descendants of `oid` on the current branch,
    /// oldest first.
    descendants: Vec<(String, Vec<String>)>,
    /// `(a, b, path, value)`: `value` is true iff `path` has identical
    /// content at `a` and at `b`.
    path_identity: Vec<(String, String, String, bool)>,
    /// `(path, value)`: `value` is true iff the working tree differs from the
    /// current revision at `path`.
    uncommitted: Vec<(String, bool)>,
}

/// First-match lookup in the ancestry table.
pub open spec fn ancestry_lookup(
    t: Seq<(String, String, bool)>,
    a: Seq<char>,
    d: Seq<char>,
) -> Option<bool>
    decreases t.len(),
{
    if t.len() == 0 {
        None
    } else if t[0].0@ == a && t[0].1@ == d {
        Some(t[0].2)
    } else {
        ancestry_lookup(t.drop_first(), a, d)
    }
}

/// First-match lookup in the last-commit table.
pub open spec fn last_commit_lookup(
    t: Seq<(String, Option<String>)>,
    p: Seq<char>,
) -> Option<Option<String>>
    decreases t.len(),
{
    if t.len() == 0 {
        None
    } else if t[0].0@ == p {
        Some(t[0].1)
    } else {
        last_commit_lookup(t.drop_first(), p)
    }
}

/// First-match lookup in the descendants table.
pub open spec fn descendants_lookup(
    t: Seq<(String, Vec<String>)>,
    oid: Seq<char>,
) -> Option<Seq<String>>
    decreases t.len(),
{
    if t.len() == 0 {
        None
    } else if t[0].0@ == oid {
        Some(t[0].1@)
    } else {
        descendants_lookup(t.drop_first(), oid)
    }
}

/// First-match lookup in the path-identity table.
pub open spec fn path_identity_lookup(
    t: Seq<(String, String, String, bool)>,
    a: Seq<char>,
    b: Seq<char>,
    p: Seq<char>,
) -> Option<bool>
    decreases t.len(),
{
    if t.len() == 0 {
        None
    } else if t[0].0@ == a && t[0].1@ == b && t[0].2@ == p {
        Some(t[0].3)
    } else {
        path_identity_lookup(t.drop_first(), a, b, p)
    }
}

/// First-match lookup in the uncommitted-changes table.
pub open spec fn uncommitted_lookup(t: Seq<(String, bool)>, p: Seq<char>) -> Option<bool>
    decreases t.len(),
{
    if t.len() == 0 {
        None
    } else if t[0].0@ == p {
        Some(t[0].1)
    } else {
        uncommitted_lookup(t.drop_first(), p)
    }
}

impl Repo {
    /// The recorded answer to "is `a` a strict ancestor of `d`?".
    pub closed spec fn ancestry_fact(self, a: Seq<char>, d: Seq<char>) -> Option<bool> {
        ancestry_lookup(self.ancestry@, a, d)
    }

    /// The recorded answer to "which commit last modified `p`?".  The outer
    /// option is absence of the fact, the inner absence of such a commit.
    pub closed spec fn last_commit_fact(self, p: Seq<char>) -> Option<Option<String>> {
        last_commit_lookup(self.last_commits@, p)
    }

    /// The recorded descendants of `oid` on the current branch, oldest first.
    pub closed spec fn descendants_fact(self, oid: Seq<char>) -> Option<Seq<String>> {
        descendants_lookup(self.descendants@, oid)
    }

    /// The recorded answer to "is `p` identical at `a` and at `b`?", under
    /// exactly that key order.
    pub closed spec fn path_identity_fact(self, a: Seq<char>, b: Seq<char>, p: Seq<char>) -> Option<
        bool,
    > {
        path_identity_lookup(self.path_identity@, a, b, p)
    }

    /// The recorded answer to "does `p` have uncommitted changes?".
    pub closed spec fn uncommitted_fact(self, p: Seq<char>) -> Option<bool> {
        uncommitted_lookup(self.uncommitted@, p)
    }

    /// The recorded submodule paths.
    pub closed spec fn submodule_paths_view(self) -> Seq<String> {
        self.submodule_paths@
    }

    /// The repository root path.
    pub closed spec fn path_value(self) -> String {
        self.path
    }
}

/// All fact families of `b` agree with `a`, except the ancestry table.
pub open spec fn same_but_ancestry(a: Repo, b: Repo) -> bool {
    &&& b.path_value() == a.path_value()
    &&& b.submodule_paths_view() == a.submodule_paths_view()
    &&& forall|p: Seq<char>| b.last_commit_fact(p) == a.last_commit_fact(p)
    &&& forall|o: Seq<char>| b.descendants_fact(o) == a.descendants_fact(o)
    &&& forall|x: Seq<char>, y: Seq<char>, p: Seq<char>|
        b.path_identity_fact(x, y, p) == a.path_identity_fact(x, y, p)
    &&& forall|p: Seq<char>| b.uncommitted_fact(p) == a.uncommitted_fact(p)
}

/// All fact families of `b` agree with `a`, except the last-commit table.
pub open spec fn same_but_last_commits(a: Repo, b: Repo) -> bool {
    &&& b.path_value() == a.path_value()
    &&& b.submodule_paths_view() == a.submodule_paths_view()
    &&& forall|x: Seq<char>, y: Seq<char>| b.ancestry_fact(x, y) == a.ancestry_fact(x, y)
    &&& forall|o: Seq<char>| b.descendants_fact(o) == a.descendants_fact(o)
    &&& forall|x: Seq<char>, y: Seq<char>, p: Seq<char>|
        b.path_identity_fact(x, y, p) == a.path_identity_fact(x, y, p)
    &&& forall|p: Seq<char>| b.uncommitted_fact(p) == a.uncommitted_fact(p)
}

/// All fact families of `b` agree with `a`, except the descendants table.
pub open spec fn same_but_descendants(a: Repo, b: Repo) -> bool {
    &&& b.path_value() == a.path_value()
    &&& b.submodule_paths_view() == a.submodule_paths_view()
    &&& forall|x: Seq<char>, y: Seq<char>| b.ancestry_fact(x, y) == a.ancestry_fact(x, y)
    &&& forall|p: Seq<char>| b.last_commit_fact(p) == a.last_commit_fact(p)
    &&& forall|x: Seq<char>, y: Seq<char>, p: Seq<char>|
        b.path_identity_fact(x, y, p) == a.path_identity_fact(x, y, p)
    &&& forall|p: Seq<char>| b.uncommitted_fact(p) == a.uncommitted_fact(p)
}

/// All fact families of `b` agree with `a`, except the path-identity table.
pub open spec fn same_but_path_identity(a: Repo, b: Repo) -> bool {
    &&& b.path_value() == a.path_value()
    &&& b.submodule_paths_view() == a.submodule_paths_view()
    &&& forall|x: Seq<char>, y: Seq<char>| b.ancestry_fact(x, y) == a.ancestry_fact(x, y)
    &&& forall|p: Seq<char>| b.last_commit_fact(p) == a.last_commit_fact(p)
    &&& forall|o: Seq<char>| b.descendants_fact(o) == a.descendants_fact(o)
    &&& forall|p: Seq<char>| b.uncommitted_fact(p) == a.uncommitted_fact(p)
}

/// All fact families of `b` agree with `a`, except the uncommitted-changes
/// table.
pub open spec fn same_but_uncommitted(a: Repo, b: Repo) -> bool {
    &&& b.path_value() == a.path_value()
    &&& b.submodule_paths_view() == a.submodule_paths_view()
    &&& forall|x: Seq<char>, y: Seq<char>| b.ancestry_fact(x, y) == a.ancestry_fact(x, y)
    &&& forall|p: Seq<char>| b.last_commit_fact(p) == a.last_commit_fact(p)
    &&& forall|o: Seq<char>| b.descendants_fact(o) == a.descendants_fact(o)
    &&& forall|x: Seq<char>, y: Seq<char>, p: Seq<char>|
        b.path_identity_fact(x, y, p) == a.path_identity_fact(x, y, p)
}

/// The working-tree cleanliness decision for a path, from the outcomes of
/// the three queries the driver runs: whether `git ls-files` could be
/// spawned, whether the `git update-index --refresh` it feeds ran, and the
/// verdict of `git diff-index --quiet HEAD` (`None` when that command could
/// not run).  Any failure counts as uncommitted changes, erring on the safe
/// side; otherwise the `diff-index` verdict decides.
pub fn uncommitted_changes_decision(
    ls_files_spawned: bool,
    update_index_ran: bool,
    diff_index_clean: Option<bool>,
) -> (r: bool)
    ensures
        r == !(ls_files_spawned && update_index_ran && diff_index_clean == Some(true)),
{
    if !ls_files_spawned {
        return true;
    }
    if !update_index_ran {
        return true;
    }
    match diff_index_clean {
        Some(clean) => !clean,
        None => true,
    }
}

/// What a `rev-list --ancestry-path` answer means: the ancestry path is
/// non-empty iff the command succeeded with non-empty output.
pub open spec fn parse_ancestry(output: Option<String>) -> bool {
    match output {
        None => false,
        Some(s) => s@.len() > 0,
    }
}

/// What a `log -n 1 --pretty=format:%H` answer means: the last commit on the
/// path, or `None` when the output is empty or the command failed.
pub open spec fn parse_last_commit(output: Option<String>) -> Option<String> {
    match output {
        None => None,
        Some(s) => if s@.len() == 0 {
            None
        } else {
            Some(s)
        },
    }
}

impl Repo {
    /// Record the answer of `git rev-list --ancestry-path <ancestor>..<descendant>`.
    pub fn record_ancestry(
        &mut self,
        ancestor: String,
        descendant: String,
        rev_list_output: Option<String>,
    )
        ensures
            final(self).ancestry_fact(ancestor@, descendant@) == Some(
                parse_ancestry(rev_list_output),
            ),
            forall|x: Seq<char>, y: Seq<char>|
                !(x == ancestor@ && y == descendant@) ==> final(self).ancestry_fact(x, y) == old(
                    self,
                ).ancestry_fact(x, y),
            same_but_ancestry(*old(self), *final(self)),
    {
        let value = match &rev_list_output {
            None => false,
            Some(s) => s.as_str().unicode_len() > 0,
        };
        self.ancestry.insert(0, (ancestor, descendant, value));
        proof {
            assert(self.ancestry@.drop_first() =~= old(self).ancestry@);
        }
    }

    /// Record the answer of `git log -n 1 --pretty=format:%H -- <path>`.
    pub fn record_last_commit(&mut self, path: String, log_output: Option<String>)
        ensures
            final(self).last_commit_fact(path@) == Some(parse_last_commit(log_output)),
            forall|p: Seq<char>|
                p != path@ ==> final(self).last_commit_fact(p) == old(self).last_commit_fact(p),
            same_but_last_commits(*old(self), *final(self)),
    {
        let value = match log_output {
            None => None,
            Some(s) => {
                if s.as_str().unicode_len() == 0 {
                    None
                } else {
                    Some(s)
                }
            },
        };
        self.last_commits.insert(0, (path, value));
        proof {
            assert(self.last_commits@.drop_first() =~= old(self).last_commits@);
        }
    }

    /// Record the answer of `git diff --quiet <a>..<b> -- <path>`: success
    /// means the path is identical at the two objects.
    pub fn record_path_identity(&mut self, a: String, b: String, path: String, identical: bool)
        ensures
            final(self).path_identity_fact(a@, b@, path@) == Some(identical),
            forall|x: Seq<char>, y: Seq<char>, p: Seq<char>|
                !(x == a@ && y == b@ && p == path@) ==> final(self).path_identity_fact(x, y, p)
                    == old(self).path_identity_fact(x, y, p),
            same_but_path_identity(*old(self), *final(self)),
    {
        self.path_identity.insert(0, (a, b, path, identical));
        proof {
            assert(self.path_identity@.drop_first() =~= old(self).path_identity@);
        }
    }

    /// Record whether `path` has uncommitted changes in the working tree.
    pub fn record_uncommitted_changes(&mut self, path: String, has_changes: bool)
        ensures
            final(self).uncommitted_fact(path@) == Some(has_changes),
            forall|p: Seq<char>|
                p != path@ ==> final(self).uncommitted_fact(p) == old(self).uncommitted_fact(p),
            same_but_uncommitted(*old(self), *final(self)),
    {
        self.uncommitted.insert(0, (path, has_changes));
        proof {
            assert(self.uncommitted@.drop_first() =~= old(self).uncommitted@);
        }
    }

    /// Look the ancestry fact for `(a, d)` up.
    fn lookup_ancestry(&self, a: &String, d: &String) -> (r: Option<bool>)
        ensures
            r == self.ancestry_fact(a@, d@),
    {
        let n = self.ancestry.len();
        let mut i: usize = 0;
        proof {
            assert(self.ancestry@.skip(0) =~= self.ancestry@);
        }
        while i < n
            invariant
                0 <= i <= n,
                n == self.ancestry@.len(),
                ancestry_lookup(self.ancestry@.skip(i as int), a@, d@) == ancestry_lookup(
                    self.ancestry@,
                    a@,
                    d@,
                ),
            decreases n - i,
        {
            let e = &self.ancestry[i];
            proof {
                assert(self.ancestry@.skip(i as int)[0] == self.ancestry@[i as int]);
            }
            if e.0 == *a && e.1 == *d {
                return Some(e.2);
            }
            proof {
                assert(self.ancestry@.skip(i as int).drop_first() =~= self.ancestry@.skip(i + 1));
            }
            i = i + 1;
        }
        proof {
            assert(self.ancestry@.skip(n as int) =~= Seq::<(String, String, bool)>::empty());
        }
        None
    }

    /// Look the path-identity fact for `(a, b, p)` up, under exactly that key
    /// order.
    fn lookup_path_identity(&self, a: &String, b: &String, p: &String) -> (r: Option<bool>)
        ensures
            r == self.path_identity_fact(a@, b@, p@),
    {
        let n = self.path_identity.len();
        let mut i: usize = 0;
        proof {
            assert(self.path_identity@.skip(0) =~= self.path_identity@);
        }
        while i < n
            invariant
                0 <= i <= n,
                n == self.path_identity@.len(),
                path_identity_lookup(self.path_identity@.skip(i as int), a@, b@, p@)
                    == path_identity_lookup(self.path_identity@, a@, b@, p@),
            decreases n - i,
        {
            let e = &self.path_identity[i];
            proof {
                assert(self.path_identity@.skip(i as int)[0] == self.path_identity@[i as int]);
            }
            if e.0 == *a && e.1 == *b && e.2 == *p {
                return Some(e.3);
            }
            proof {
                assert(self.path_identity@.skip(i as int).drop_first() =~= self.path_identity@.skip(
                    i + 1,
                ));
            }
            i = i + 1;
        }
        proof {
            assert(self.path_identity@.skip(n as int) =~= Seq::<
                (String, String, String, bool),
            >::empty());
        }
        None
    }

    /// Returns the last commit modifying `path`, if that fact is recorded:
    /// the outer option is absence of the fact, the inner absence of any such
    /// commit.
    pub fn last_commit_on_path(&self, path: &str) -> (r: Option<Option<Object>>)
        ensures
            match r {
                None => self.last_commit_fact(path@) is None,
                Some(None) => self.last_commit_fact(path@) == Some(None::<String>),
                Some(Some(o)) => match self.last_commit_fact(path@) {
                    Some(Some(c)) => o.oid == c,
                    _ => false,
                },
            },
    {
        let key = String::from_str(path);
        let n = self.last_commits.len();
        let mut i: usize = 0;
        proof {
            assert(self.last_commits@.skip(0) =~= self.last_commits@);
        }
        while i < n
            invariant
                0 <= i <= n,
                n == self.last_commits@.len(),
                key@ == path@,
                last_commit_lookup(self.last_commits@.skip(i as int), path@) == last_commit_lookup(
                    self.last_commits@,
                    path@,
                ),
            decreases n - i,
        {
            let e = &self.last_commits[i];
            proof {
                assert(self.last_commits@.skip(i as int)[0] == self.last_commits@[i as int]);
            }
            if e.0 == key {
                return match &e.1 {
                    None => Some(None),
                    Some(c) => Some(Some(Object { oid: c.clone() })),
                };
            }
            proof {
                assert(self.last_commits@.skip(i as int).drop_first() =~= self.last_commits@.skip(
                    i + 1,
                ));
            }
            i = i + 1;
        }
        proof {
            assert(self.last_commits@.skip(n as int) =~= Seq::<(String, Option<String>)>::empty());
        }
        None
    }

    /// Look the uncommitted-changes fact for `path` up.
    pub fn has_uncommitted_changes(&self, path: &String) -> (r: Option<bool>)
        ensures
            r == self.uncommitted_fact(path@),
    {
        let n = self.uncommitted.len();
        let mut i: usize = 0;
        proof {
            assert(self.uncommitted@.skip(0) =~= self.uncommitted@);
        }
        while i < n
            invariant
                0 <= i <= n,
                n == self.uncommitted@.len(),
                uncommitted_lookup(self.uncommitted@.skip(i as int), path@) == uncommitted_lookup(
                    self.uncommitted@,
                    path@,
                ),
            decreases n - i,
        {
            let e = &self.uncommitted[i];
            proof {
                assert(self.uncommitted@.skip(i as int)[0] == self.uncommitted@[i as int]);
            }
            if e.0 == *path {
                return Some(e.1);
            }
            proof {
                assert(self.uncommitted@.skip(i as int).drop_first() =~= self.uncommitted@.skip(
                    i + 1,
                ));
            }
            i = i + 1;
        }
        proof {
            assert(self.uncommitted@.skip(n as int) =~= Seq::<(String, bool)>::empty());
        }
        None
    }

    /// The repository root path.
    pub fn root_path(&self) -> (r: &String)
        ensures
            *r == self.path_value(),
    {
        &self.path
    }

    /// The recorded submodule paths.
    pub fn submodule_paths(&self) -> (r: &Vec<String>)
        ensures
            r@ == self.submodule_paths_view(),
    {
        &self.submodule_paths
    }
}

/// What the partial order on two objects means over the recorded
/// ancestry: equal ids compare equal; a strict descendant is `Less`
/// (younger); a strict ancestor is `Greater` (older); objects on diverging
/// branches are incomparable.
pub open spec fn cmp_spec(repo: Repo, a: Object, b: Object) -> Result<Option<Ordering>, GitError> {
    if a.oid@ == b.oid@ {
        Ok(Some(Ordering::Equal))
    } else {
        match repo.ancestry_fact(b.oid@, a.oid@) {
            None => Err(GitError::NeedAncestry { ancestor: b.oid, descendant: a.oid }),
            Some(true) => Ok(Some(Ordering::Less)),
            Some(false) => match repo.ancestry_fact(a.oid@, b.oid@) {
                None => Err(GitError::NeedAncestry { ancestor: a.oid, descendant: b.oid }),
                Some(true) => Ok(Some(Ordering::Greater)),
                Some(false) => Ok(None),
            },
        }
    }
}

impl Object {
    /// Make an object from its identifier.
    pub fn new(oid: String) -> (o: Object)
        ensures
            o.oid == oid,
    {
        Object { oid }
    }

    /// A copy of this object.
    pub fn duplicate(&self) -> (o: Object)
        ensures
            o == *self,
    {
        Object { oid: self.oid.clone() }
    }

    /// Whether this object is a strict ancestor of `obj`, if recorded.
    pub fn is_ancestor_of(&self, obj: &Object, repo: &Repo) -> (r: Option<bool>)
        ensures
            r == repo.ancestry_fact(self.oid@, obj.oid@),
    {
        repo.lookup_ancestry(&self.oid, &obj.oid)
    }

    /// Whether this object is a strict descendant of `obj`, if recorded.
    pub fn is_descendant_of(&self, obj: &Object, repo: &Repo) -> (r: Option<bool>)
        ensures
            r == repo.ancestry_fact(obj.oid@, self.oid@),
    {
        obj.is_ancestor_of(self, repo)
    }

    /// Whether `path` is identical at this object and at `ancestor`, if
    /// recorded under exactly that key order.
    pub fn path_is_same_as(&self, ancestor: &Object, path: &String, repo: &Repo) -> (r: Option<
        bool,
    >)
        ensures
            r == repo.path_identity_fact(self.oid@, ancestor.oid@, path@),
    {
        repo.lookup_path_identity(&self.oid, &ancestor.oid, path)
    }

    /// Compare two objects by ancestry, as far as the recorded facts allow.
    pub fn partial_cmp_in(&self, other: &Object, repo: &Repo) -> (r: Result<
        Option<Ordering>,
        GitError,
    >)
        ensures
            r == cmp_spec(*repo, *self, *other),
    {
        if self.oid == other.oid {
            return Ok(Some(Ordering::Equal));
        }
        match repo.lookup_ancestry(&other.oid, &self.oid) {
            None => Err(
                GitError::NeedAncestry { ancestor: other.oid.clone(), descendant: self.oid.clone() },
            ),
            Some(true) => Ok(Some(Ordering::Less)),
            Some(false) => match repo.lookup_ancestry(&self.oid, &other.oid) {
                None => Err(
                    GitError::NeedAncestry {
                        ancestor: self.oid.clone(),
                        descendant: other.oid.clone(),
                    },
                ),
                Some(true) => Ok(Some(Ordering::Greater)),
                Some(false) => Ok(None),
            },
        }
    }
}

/// The obstacle, if any, to comparing `a` and `b`: the first unrecorded
/// ancestry fact, or their incomparability.  `None` means the ids are equal,
/// or both ancestry answers are recorded and one direction holds, so every
/// comparison of the two is decided.
pub open spec fn pair_obstacle(repo: Repo, a: Object, b: Object) -> Option<GitError> {
    if a.oid@ == b.oid@ {
        None
    } else {
        match repo.ancestry_fact(a.oid@, b.oid@) {
            None => Some(GitError::NeedAncestry { ancestor: a.oid, descendant: b.oid }),
            Some(ab) => match repo.ancestry_fact(b.oid@, a.oid@) {
                None => Some(GitError::NeedAncestry { ancestor: b.oid, descendant: a.oid }),
                Some(ba) => if ab || ba {
                    None
                } else {
                    Some(GitError::Incomparable { a: a.oid, b: b.oid })
                },
            },
        }
    }
}

/// The first obstacle to ordering `objs`, scanning the pairs `(j, i)` with
/// `j < i` in order of `i`, then of `j`.  `None` means every pair is decided
/// comparable, whatever the order of the set.
pub open spec fn order_obstacle_from(repo: Repo, objs: Seq<Object>, i: int, j: int) -> Option<
    GitError,
>
    decreases objs.len() - i, i - j,
{
    if i < 0 || i >= objs.len() {
        None
    } else if j < 0 || j >= i {
        order_obstacle_from(repo, objs, i + 1, 0)
    } else {
        match pair_obstacle(repo, objs[j], objs[i]) {
            Some(e) => Some(e),
            None => order_obstacle_from(repo, objs, i, j + 1),
        }
    }
}

/// A clear scan means every pair from the scan position on is decided.
pub proof fn lemma_order_obstacle_none(repo: Repo, objs: Seq<Object>, i: int, j: int)
    requires
        0 <= i,
        0 <= j,
        order_obstacle_from(repo, objs, i, j) is None,
    ensures
        forall|x: int, y: int|
            0 <= x < y < objs.len() && (y > i || (y == i && x >= j)) ==> (#[trigger] pair_obstacle(
                repo,
                objs[x],
                objs[y],
            )) is None,
    decreases objs.len() - i, i - j,
{
    if i < 0 || i >= objs.len() {
    } else if j >= i {
        lemma_order_obstacle_none(repo, objs, i + 1, 0);
    } else {
        lemma_order_obstacle_none(repo, objs, i, j + 1);
    }
}

/// On a set whose pairs are all decided, the fold below always succeeds.
proof fn lemma_fold_total(repo: Repo, objs: Seq<Object>, acc: Object, i: int, m: int, want_less: bool)
    requires
        0 <= i <= objs.len(),
        0 <= m < objs.len(),
        acc.oid@ == objs[m].oid@,
        forall|x: int, y: int|
            0 <= x < y < objs.len() ==> (#[trigger] pair_obstacle(repo, objs[x], objs[y])) is None,
    ensures
        first_ordered_fold(repo, objs, acc, i, want_less) is Ok,
    decreases objs.len() - i,
{
    if i < objs.len() {
        let o = objs[i];
        if o.oid@ == acc.oid@ {
            lemma_fold_total(repo, objs, acc, i + 1, m, want_less);
        } else {
            if i < m {
                assert(pair_obstacle(repo, objs[i], objs[m]) is None);
            } else {
                assert(pair_obstacle(repo, objs[m], objs[i]) is None);
            }
            if repo.ancestry_fact(acc.oid@, o.oid@) == Some(true) {
                if want_less {
                    lemma_fold_total(repo, objs, o, i + 1, i, want_less);
                } else {
                    lemma_fold_total(repo, objs, acc, i + 1, m, want_less);
                }
            } else {
                assert(repo.ancestry_fact(o.oid@, acc.oid@) == Some(true));
                if want_less {
                    lemma_fold_total(repo, objs, acc, i + 1, m, want_less);
                } else {
                    lemma_fold_total(repo, objs, o, i + 1, i, want_less);
                }
            }
        }
    }
}

/// The fold behind `youngest_object` and `oldest_object`: starting from
/// `acc`, each object from index `i` on is compared against the best so far,
/// and replaces it when the comparison yields `Less` (for the youngest) or
/// `Greater` (for the oldest).  It runs only after every pair of the set has
/// been decided comparable, so its failure branches are unreachable then.
pub open spec fn first_ordered_fold(
    repo: Repo,
    objs: Seq<Object>,
    acc: Object,
    i: int,
    want_less: bool,
) -> Result<Object, GitError>
    decreases objs.len() - i,
{
    if i < 0 || i >= objs.len() {
        Ok(acc)
    } else {
        match cmp_spec(repo, objs[i], acc) {
            Err(e) => Err(e),
            Ok(None) => Err(GitError::Incomparable { a: acc.oid, b: objs[i].oid }),
            Ok(Some(o)) => {
                let take = match o {
                    Ordering::Less => want_less,
                    Ordering::Greater => !want_less,
                    Ordering::Equal => false,
                };
                first_ordered_fold(
                    repo,
                    objs,
                    if take {
                        objs[i]
                    } else {
                        acc
                    },
                    i + 1,
                    want_less,
                )
            },
        }
    }
}

/// The first object of `objs` under the recorded ancestry order: the
/// youngest (furthest from the root) when `want_less`, the oldest otherwise.
/// Fails exactly when the set is empty or two of its objects are on
/// diverging branches — whatever the order of the set — and reports the
/// first unrecorded ancestry fact before anything is folded.
pub open spec fn first_ordered_spec(repo: Repo, objs: Seq<Object>, want_less: bool) -> Result<
    Object,
    GitError,
> {
    if objs.len() == 0 {
        Err(GitError::NoObjects)
    } else {
        match order_obstacle_from(repo, objs, 1, 0) {
            Some(e) => Err(e),
            None => first_ordered_fold(repo, objs, objs[0], 0, want_less),
        }
    }
}

impl Repo {
    /// Decide whether the comparison of `a` and `b` is settled by the
    /// recorded facts, and name the obstacle otherwise.
    fn check_pair(&self, a: &Object, b: &Object) -> (r: Option<GitError>)
        ensures
            r == pair_obstacle(*self, *a, *b),
    {
        if a.oid == b.oid {
            return None;
        }
        match self.lookup_ancestry(&a.oid, &b.oid) {
            None => Some(
                GitError::NeedAncestry { ancestor: a.oid.clone(), descendant: b.oid.clone() },
            ),
            Some(ab) => match self.lookup_ancestry(&b.oid, &a.oid) {
                None => Some(
                    GitError::NeedAncestry { ancestor: b.oid.clone(), descendant: a.oid.clone() },
                ),
                Some(ba) => if ab || ba {
                    None
                } else {
                    Some(GitError::Incomparable { a: a.oid.clone(), b: b.oid.clone() })
                },
            },
        }
    }

    /// The shared body of `youngest_object` and `oldest_object`: first every
    /// pair of the set is decided — so that an incomparable pair fails the
    /// whole call, whatever the order of the set — and only then the fold
    /// picks the extremum.
    #[verifier::loop_isolation(false)]
    fn first_ordered_object(&self, objects: &Vec<Object>, want_less: bool) -> (r: Result<
        Object,
        GitError,
    >)
        ensures
            r == first_ordered_spec(*self, objects@, want_less),
    {
        let n = objects.len();
        if n == 0 {
            return Err(GitError::NoObjects);
        }
        let mut i: usize = 1;
        while i < n
            invariant
                1 <= i <= n || (n <= 1 && i == 1),
                order_obstacle_from(*self, objects@, i as int, 0) == order_obstacle_from(
                    *self,
                    objects@,
                    1,
                    0,
                ),
            decreases n - i,
        {
            let mut j: usize = 0;
            while j < i
                invariant
                    0 <= j <= i < n,
                    order_obstacle_from(*self, objects@, i as int, j as int)
                        == order_obstacle_from(*self, objects@, 1, 0),
                decreases i - j,
            {
                match self.check_pair(&objects[j], &objects[i]) {
                    Some(e) => {
                        return Err(e);
                    },
                    None => {},
                }
                j = j + 1;
            }
            i = i + 1;
        }
        proof {
            lemma_order_obstacle_none(*self, objects@, 1, 0);
            lemma_fold_total(*self, objects@, objects@[0], 0, 0, want_less);
        }
        let mut acc = objects[0].duplicate();
        let mut i: usize = 0;
        while i < n
            invariant
                0 <= i <= n,
                first_ordered_fold(*self, objects@, acc, i as int, want_less) == first_ordered_fold(
                    *self,
                    objects@,
                    objects@[0],
                    0,
                    want_less,
                ),
                first_ordered_fold(*self, objects@, objects@[0], 0, want_less) is Ok,
            decreases n - i,
        {
            match objects[i].partial_cmp_in(&acc, self) {
                Err(e) => {
                    // Cannot happen: every pair was decided above.
                    proof {
                        assert(false);
                    }
                    return Err(e);
                },
                Ok(None) => {
                    // Cannot happen: an incomparable pair fails the scan above.
                    proof {
                        assert(false);
                    }
                    return Err(
                        GitError::Incomparable { a: acc.oid, b: objects[i].oid.clone() },
                    );
                },
                Ok(Some(o)) => {
                    let take = match o {
                        Ordering::Less => want_less,
                        Ordering::Greater => !want_less,
                        Ordering::Equal => false,
                    };
                    if take {
                        acc = objects[i].duplicate();
                    }
                },
            }
            i = i + 1;
        }
        Ok(acc)
    }

    /// Returns the youngest (furthest from the root) of a set of objects.
    /// Fails iff the set is empty or two of the objects are on diverging
    /// branches, whatever their order; reports the first ancestry answer
    /// that is not recorded yet.
    pub fn youngest_object(&self, objects: &Vec<Object>) -> (r: Result<Object, GitError>)
        ensures
            r == first_ordered_spec(*self, objects@, true),
    {
        self.first_ordered_object(objects, true)
    }

    /// Returns the oldest (closest to the root) of a set of objects.  Fails
    /// as `youngest_object` does.
    pub fn oldest_object(&self, objects: &Vec<Object>) -> (r: Result<Object, GitError>)
        ensures
            r == first_ordered_spec(*self, objects@, false),
    {
        self.first_ordered_object(objects, false)
    }

    /// Record the answer of `git rev-list --ancestry-path --reverse <oid>..`:
    /// the strict descendants of `oid` on the current branch, oldest first; a
    /// failed command records an empty list.
    pub fn record_descendants(&mut self, oid: String, rev_list_output: Option<String>)
        ensures
            match final(self).descendants_fact(oid@) {
                Some(l) => views_of(l) == match rev_list_output {
                    None => Seq::<Seq<char>>::empty(),
                    Some(s) => split_lines_spec(s@),
                },
                None => false,
            },
            forall|o: Seq<char>|
                o != oid@ ==> final(self).descendants_fact(o) == old(self).descendants_fact(o),
            same_but_descendants(*old(self), *final(self)),
    {
        let list = match &rev_list_output {
            None => Vec::<String>::new(),
            Some(s) => split_lines(s.as_str()),
        };
        proof {
            if rev_list_output is None {
                assert(views_of(list@) =~= Seq::<Seq<char>>::empty());
            }
        }
        self.descendants.insert(0, (oid, list));
        proof {
            assert(self.descendants@.drop_first() =~= old(self).descendants@);
        }
    }

    /// Look the descendants fact for `oid` up.
    fn lookup_descendants(&self, oid: &String) -> (r: Option<&Vec<String>>)
        ensures
            match r {
                Some(v) => self.descendants_fact(oid@) == Some(v@),
                None => self.descendants_fact(oid@) is None,
            },
    {
        let n = self.descendants.len();
        let mut i: usize = 0;
        proof {
            assert(self.descendants@.skip(0) =~= self.descendants@);
        }
        while i < n
            invariant
                0 <= i <= n,
                n == self.descendants@.len(),
                descendants_lookup(self.descendants@.skip(i as int), oid@) == descendants_lookup(
                    self.descendants@,
                    oid@,
                ),
            decreases n - i,
        {
            let e = &self.descendants[i];
            proof {
                assert(self.descendants@.skip(i as int)[0] == self.descendants@[i as int]);
            }
            if e.0 == *oid {
                return Some(&e.1);
            }
            proof {
                assert(self.descendants@.skip(i as int).drop_first() =~= self.descendants@.skip(
                    i + 1,
                ));
            }
            i = i + 1;
        }
        proof {
            assert(self.descendants@.skip(n as int) =~= Seq::<(String, Vec<String>)>::empty());
        }
        None
    }
}

impl Object {
    /// The recorded strict descendants of this object on the current branch,
    /// oldest first, as objects.
    pub fn descendants_on_current_branch(&self, repo: &Repo) -> (r: Option<Vec<Object>>)
        ensures
            match r {
                Some(v) => match repo.descendants_fact(self.oid@) {
                    Some(l) => v@.len() == l.len() && forall|i: int|
                        0 <= i < l.len() ==> v@[i].oid == l[i],
                    None => false,
                },
                None => repo.descendants_fact(self.oid@) is None,
            },
    {
        let list = match repo.lookup_descendants(&self.oid) {
            None => {
                return None;
            },
            Some(l) => l,
        };
        let n = list.len();
        let mut r = Vec::<Object>::new();
        let mut i: usize = 0;
        while i < n
            invariant
                0 <= i <= n,
                n == list@.len(),
                repo.descendants_fact(self.oid@) == Some(list@),
                r@.len() == i,
                forall|j: int| 0 <= j < i ==> r@[j].oid == list@[j],
            decreases n - i,
        {
            r.push(Object { oid: list[i].clone() });
            i = i + 1;
        }
        Some(r)
    }
}

/// Whether one of the strings of `l` reads `x`.
pub open spec fn contains_oid(l: Seq<String>, x: Seq<char>) -> bool {
    exists|j: int| 0 <= j < l.len() && l[j]@ == x
}

/// Whether `x` occurs in every list of `lists` but the first.
pub open spec fn in_all_lists(lists: Seq<Seq<String>>, x: Seq<char>) -> bool {
    forall|k: int| 1 <= k < lists.len() ==> contains_oid(lists[k], x)
}

/// The first entry of the first list, from index `i` on, that occurs in
/// every other list.  The lists are in chronological order, so the first
/// common entry is the oldest.
pub open spec fn first_common_from(lists: Seq<Seq<String>>, i: int) -> Option<String>
    decreases lists[0].len() - i,
{
    if lists.len() == 0 || i < 0 || i >= lists[0].len() {
        None
    } else if in_all_lists(lists, lists[0][i]@) {
        Some(lists[0][i])
    } else {
        first_common_from(lists, i + 1)
    }
}

/// The first object of `objs`, from index `i` on, whose descendants on the
/// current branch are not recorded yet.
pub open spec fn first_missing_descendants(repo: Repo, objs: Seq<Object>, i: int) -> Option<Object>
    decreases objs.len() - i,
{
    if i < 0 || i >= objs.len() {
        None
    } else if repo.descendants_fact(objs[i].oid@) is None {
        Some(objs[i])
    } else {
        first_missing_descendants(repo, objs, i + 1)
    }
}

/// The candidate list of each object: the object itself, then its recorded
/// strict descendants on the current branch, oldest first — every revision
/// at which that object's content has been reached.
pub open spec fn self_and_descendant_lists(repo: Repo, objs: Seq<Object>) -> Seq<Seq<String>> {
    Seq::new(objs.len(), |i: int| seq![objs[i].oid] + repo.descendants_fact(objs[i].oid@).unwrap())
}

/// The views of a sequence of string lists.
pub open spec fn lists_view(l: Seq<Vec<String>>) -> Seq<Seq<String>> {
    l.map_values(|v: Vec<String>| v@)
}

/// The oldest common descendant of `objs` on the current branch: the
/// youngest of `objs` when they are pairwise comparable, and when some pair
/// is incomparable the earliest revision at which every object's content has
/// been reached — the oldest entry common to all their candidate lists, each
/// object counting as a candidate of its own.
pub open spec fn oldest_common_descendant_spec(repo: Repo, objs: Seq<Object>) -> Result<
    Object,
    GitError,
> {
    if objs.len() == 0 {
        Err(GitError::NoObjects)
    } else {
        match first_ordered_spec(repo, objs, true) {
            Ok(y) => Ok(y),
            Err(e) => if e is Incomparable {
                match first_missing_descendants(repo, objs, 0) {
                    Some(o) => Err(GitError::NeedDescendants { oid: o.oid }),
                    None => match first_common_from(self_and_descendant_lists(repo, objs), 0) {
                        Some(oid) => Ok(Object { oid }),
                        None => Err(GitError::NoCommonDescendant),
                    },
                }
            } else {
                Err(e)
            },
        }
    }
}

/// Whether one of the strings of `l` reads as `x` does.
pub fn contains_string(l: &Vec<String>, x: &String) -> (r: bool)
    ensures
        r == contains_oid(l@, x@),
{
    let n = l.len();
    let mut i: usize = 0;
    while i < n
        invariant
            0 <= i <= n,
            n == l@.len(),
            forall|j: int| 0 <= j < i ==> l@[j]@ != x@,
        decreases n - i,
    {
        if l[i] == *x {
            return true;
        }
        i = i + 1;
    }
    false
}

/// Whether `x` occurs in every list of `lists` but the first.
fn in_all(lists: &Vec<Vec<String>>, x: &String) -> (r: bool)
    ensures
        r == in_all_lists(lists_view(lists@), x@),
{
    let n = lists.len();
    let mut k: usize = 1;
    while k < n
        invariant
            1 <= k <= n || (n == 0 && k == 1),
            n == lists@.len(),
            forall|kk: int| 1 <= kk < k ==> contains_oid(lists_view(lists@)[kk], x@),
        decreases n - k,
    {
        if !contains_string(&lists[k], x) {
            assert(lists_view(lists@)[k as int] == lists@[k as int]@);
            return false;
        }
        k = k + 1;
    }
    true
}

impl Repo {
    /// Determine the oldest common descendant of a set of objects on the
    /// current branch: the youngest of the set when its objects are pairwise
    /// comparable, and when some pair is incomparable the earliest revision
    /// at which every object's content has been reached (an object counts as
    /// its own candidate, so a merge commit among the objects can itself be
    /// the answer).  Fails if the set is empty or no common candidate
    /// exists; reports the first missing ancestry or descendants fact.
    #[verifier::loop_isolation(false)]
    pub fn oldest_common_descendant_on_current_branch(&self, objects: &Vec<Object>) -> (r: Result<
        Object,
        GitError,
    >)
        ensures
            r == oldest_common_descendant_spec(*self, objects@),
    {
        let n = objects.len();
        if n == 0 {
            return Err(GitError::NoObjects);
        }
        match self.first_ordered_object(objects, true) {
            Ok(y) => {
                return Ok(y);
            },
            Err(e) => match e {
                GitError::Incomparable { .. } => {},
                _ => {
                    return Err(e);
                },
            },
        }
        // Two objects are on diverging branches: intersect the candidate
        // lists, each object followed by its descendants.
        let mut lists: Vec<Vec<String>> = Vec::new();
        let mut i: usize = 0;
        while i < n
            invariant
                0 <= i <= n,
                lists@.len() == i,
                forall|j: int|
                    0 <= j < i ==> #[trigger] lists_view(lists@)[j] == seq![objects@[j].oid]
                        + self.descendants_fact(objects@[j].oid@)->Some_0 && self.descendants_fact(
                        objects@[j].oid@,
                    ) is Some,
                first_missing_descendants(*self, objects@, 0) == first_missing_descendants(
                    *self,
                    objects@,
                    i as int,
                ),
            decreases n - i,
        {
            match self.lookup_descendants(&objects[i].oid) {
                None => {
                    return Err(GitError::NeedDescendants { oid: objects[i].oid.clone() });
                },
                Some(l) => {
                    let ghost prev = lists@;
                    let mut candidate = Vec::<String>::new();
                    candidate.push(objects[i].oid.clone());
                    let mut k: usize = 0;
                    while k < l.len()
                        invariant
                            0 <= k <= l@.len(),
                            candidate@.len() == k + 1,
                            candidate@[0] == objects@[i as int].oid,
                            forall|q: int| 0 <= q < k ==> candidate@[q + 1] == l@[q],
                        decreases l@.len() - k,
                    {
                        candidate.push(l[k].clone());
                        k = k + 1;
                    }
                    proof {
                        assert(candidate@ =~= seq![objects@[i as int].oid] + l@);
                    }
                    lists.push(candidate);
                    proof {
                        assert forall|j: int|
                            0 <= j <= i implies #[trigger] lists_view(lists@)[j] == seq![
                            objects@[j].oid,
                        ] + self.descendants_fact(objects@[j].oid@)->Some_0
                            && self.descendants_fact(objects@[j].oid@) is Some by {
                            assert(lists_view(lists@)[j] == lists@[j]@);
                            if j < i {
                                assert(lists@[j] == prev[j]);
                                assert(lists_view(prev)[j] == prev[j]@);
                            }
                        }
                    }
                },
            }
            i = i + 1;
        }
        proof {
            assert(lists_view(lists@) =~= self_and_descendant_lists(*self, objects@));
        }
        let m = lists[0].len();
        let mut j: usize = 0;
        while j < m
            invariant
                0 <= j <= m,
                m == lists@[0]@.len(),
                first_common_from(self_and_descendant_lists(*self, objects@), 0)
                    == first_common_from(self_and_descendant_lists(*self, objects@), j as int),
            decreases m - j,
        {
            if in_all(&lists, &lists[0][j]) {
                return Ok(Object { oid: lists[0][j].clone() });
            }
            j = j + 1;
        }
        Err(GitError::NoCommonDescendant)
    }
}

/// `a` is `b` itself or a recorded strict ancestor of it.
pub open spec fn older_or_equal(repo: Repo, a: Seq<char>, b: Seq<char>) -> bool {
    a == b || repo.ancestry_fact(a, b) == Some(true)
}

/// Both ancestry answers for `a` and `b` are recorded and decide the pair
/// as comparable: one is an ancestor of the other, or the ids are equal.
pub open spec fn comparable(repo: Repo, a: Seq<char>, b: Seq<char>) -> bool {
    ||| a == b
    ||| (repo.ancestry_fact(a, b) is Some && repo.ancestry_fact(b, a) is Some && (
    repo.ancestry_fact(a, b) == Some(true) || repo.ancestry_fact(b, a) == Some(true)))
}

/// Every two of `objs` are comparable under the recorded facts.
pub open spec fn pairwise_comparable(repo: Repo, objs: Seq<Object>) -> bool {
    forall|i: int, j: int|
        0 <= i < objs.len() && 0 <= j < objs.len() ==> comparable(
            repo,
            (#[trigger] objs[i]).oid@,
            (#[trigger] objs[j]).oid@,
        )
}

/// The recorded strict-ancestry facts compose transitively over the ids of
/// `objs` — as they do when they come from one ancestry DAG.
pub open spec fn ancestry_transitive_over(repo: Repo, objs: Seq<Object>) -> bool {
    forall|x: int, y: int, z: int|
        #![trigger repo.ancestry_fact(objs[x].oid@, objs[y].oid@), repo.ancestry_fact(objs[y].oid@, objs[z].oid@)]
        0 <= x < objs.len() && 0 <= y < objs.len() && 0 <= z < objs.len() && repo.ancestry_fact(
            objs[x].oid@,
            objs[y].oid@,
        ) == Some(true) && repo.ancestry_fact(objs[y].oid@, objs[z].oid@) == Some(true)
            ==> repo.ancestry_fact(objs[x].oid@, objs[z].oid@) == Some(true)
}

/// The fold behind `youngest_object` succeeds on pairwise-comparable
/// objects and dominates them all: each is the result itself or one of its
/// recorded ancestors.
proof fn lemma_fold_youngest(repo: Repo, objs: Seq<Object>, acc: Object, i: int, m: int)
    requires
        0 <= i <= objs.len(),
        0 <= m < objs.len(),
        acc.oid@ == objs[m].oid@,
        pairwise_comparable(repo, objs),
        ancestry_transitive_over(repo, objs),
        forall|j: int| 0 <= j < i ==> older_or_equal(repo, (#[trigger] objs[j]).oid@, acc.oid@),
    ensures
        first_ordered_fold(repo, objs, acc, i, true) is Ok,
        exists|k: int|
            0 <= k < objs.len() && (first_ordered_fold(repo, objs, acc, i, true)->Ok_0).oid@ == (
            #[trigger] objs[k]).oid@,
        forall|j: int|
            0 <= j < objs.len() ==> older_or_equal(
                repo,
                (#[trigger] objs[j]).oid@,
                (first_ordered_fold(repo, objs, acc, i, true)->Ok_0).oid@,
            ),
    decreases objs.len() - i,
{
    if i >= objs.len() {
        assert(acc.oid@ == objs[m].oid@);
    } else {
        let o = objs[i];
        assert(comparable(repo, o.oid@, acc.oid@)) by {
            assert(comparable(repo, objs[i].oid@, objs[m].oid@));
        }
        if o.oid@ == acc.oid@ {
            assert forall|j: int| 0 <= j < i + 1 implies older_or_equal(
                repo,
                (#[trigger] objs[j]).oid@,
                acc.oid@,
            ) by {}
            lemma_fold_youngest(repo, objs, acc, i + 1, m);
        } else if repo.ancestry_fact(acc.oid@, o.oid@) == Some(true) {
            // `o` is younger: it becomes the best so far and, by
            // transitivity, still dominates the prefix.
            assert forall|j: int| 0 <= j < i + 1 implies older_or_equal(
                repo,
                (#[trigger] objs[j]).oid@,
                o.oid@,
            ) by {
                if j < i {
                    if objs[j].oid@ == acc.oid@ {
                        assert(repo.ancestry_fact(objs[j].oid@, o.oid@) == Some(true));
                    } else {
                        assert(repo.ancestry_fact(objs[j].oid@, objs[m].oid@) == Some(true));
                        assert(repo.ancestry_fact(objs[m].oid@, objs[i].oid@) == Some(true));
                        assert(repo.ancestry_fact(objs[j].oid@, objs[i].oid@) == Some(true));
                    }
                }
            }
            lemma_fold_youngest(repo, objs, o, i + 1, i);
        } else {
            // `o` is older (or the facts would contradict comparability):
            // the best so far stays.
            assert(repo.ancestry_fact(o.oid@, acc.oid@) == Some(true));
            assert forall|j: int| 0 <= j < i + 1 implies older_or_equal(
                repo,
                (#[trigger] objs[j]).oid@,
                acc.oid@,
            ) by {}
            lemma_fold_youngest(repo, objs, acc, i + 1, m);
        }
    }
}

/// Pairwise-comparable objects present no ordering obstacle.
proof fn lemma_comparable_no_obstacle(repo: Repo, objs: Seq<Object>, i: int, j: int)
    requires
        pairwise_comparable(repo, objs),
    ensures
        order_obstacle_from(repo, objs, i, j) is None,
    decreases objs.len() - i, i - j,
{
    if i < 0 || i >= objs.len() {
    } else if j < 0 || j >= i {
        lemma_comparable_no_obstacle(repo, objs, i + 1, 0);
    } else {
        assert(comparable(repo, objs[j].oid@, objs[i].oid@));
        assert(pair_obstacle(repo, objs[j], objs[i]) is None);
        lemma_comparable_no_obstacle(repo, objs, i, j + 1);
    }
}

/// Required-revision monotonicity: when the objects are pairwise comparable
/// under recorded, transitive ancestry facts, the oldest common descendant is
/// the youngest of them — an object of the set of which every other is an
/// ancestor.
pub proof fn lemma_youngest_when_comparable(repo: Repo, objs: Seq<Object>)
    requires
        objs.len() > 0,
        pairwise_comparable(repo, objs),
        ancestry_transitive_over(repo, objs),
    ensures
        oldest_common_descendant_spec(repo, objs) == first_ordered_spec(repo, objs, true),
        first_ordered_spec(repo, objs, true) is Ok,
        exists|k: int|
            0 <= k < objs.len() && (first_ordered_spec(repo, objs, true)->Ok_0).oid@ == (
            #[trigger] objs[k]).oid@,
        forall|j: int|
            0 <= j < objs.len() ==> older_or_equal(
                repo,
                (#[trigger] objs[j]).oid@,
                (first_ordered_spec(repo, objs, true)->Ok_0).oid@,
            ),
{
    lemma_comparable_no_obstacle(repo, objs, 1, 0);
    lemma_fold_youngest(repo, objs, objs[0], 0, 0);
}

/// A blank character, as `git config` separates its output columns.
pub open spec fn is_space(c: char) -> bool {
    c == ' ' || c == '\t'
}

/// The index of the first blank in `s`, if any.
pub open spec fn find_space(s: Seq<char>) -> Option<int>
    decreases s.len(),
{
    if s.len() == 0 {
        None
    } else if is_space(s[0]) {
        Some(0)
    } else {
        match find_space(s.drop_first()) {
            None => None,
            Some(i) => Some(i + 1),
        }
    }
}

/// `find_space` returns the first blank: the index holds a blank and nothing
/// before it does; `None` means `s` holds no blank.
pub proof fn lemma_find_space(s: Seq<char>)
    ensures
        match find_space(s) {
            Some(i) => 0 <= i < s.len() && is_space(s[i]) && (forall|j: int|
                0 <= j < i ==> !is_space(s[j])),
            None => forall|j: int| 0 <= j < s.len() ==> !is_space(s[j]),
        },
    decreases s.len(),
{
    if s.len() == 0 {
    } else if is_space(s[0]) {
    } else {
        let t = s.drop_first();
        lemma_find_space(t);
        assert(forall|j: int| 0 <= j < t.len() ==> t[j] == s[j + 1]);
        match find_space(t) {
            None => {
                assert forall|j: int| 0 <= j < s.len() implies !is_space(s[j]) by {
                    if j > 0 {
                        assert(t[j - 1] == s[j]);
                    }
                }
            },
            Some(i) => {
                assert(t[i] == s[i + 1]);
                assert forall|j: int| 0 <= j < i + 1 implies !is_space(s[j]) by {
                    if j > 0 {
                        assert(t[j - 1] == s[j]);
                    }
                }
            },
        }
    }
}

/// Find the first blank in `s`.
fn find_space_in(s: &str) -> (r: Option<usize>)
    ensures
        match r {
            Some(i) => find_space(s@) == Some(i as int),
            None => find_space(s@) is None,
        },
{
    proof {
        lemma_find_space(s@);
    }
    let n = s.unicode_len();
    let mut i: usize = 0;
    while i < n
        invariant
            0 <= i <= n,
            n == s@.len(),
            forall|j: int| 0 <= j < i ==> !is_space(s@[j]),
        decreases n - i,
    {
        let c = s.get_char(i);
        if c == ' ' || c == '\t' {
            proof {
                lemma_find_space(s@);
            }
            return Some(i);
        }
        i = i + 1;
    }
    proof {
        lemma_find_space(s@);
    }
    None
}

/// The blank-separated tokens of `s`, in the manner of
/// `str::split_whitespace` restricted to spaces and tabs.
pub open spec fn tokens_spec(s: Seq<char>) -> Seq<Seq<char>>
    decreases s.len(),
    via tokens_spec_decreases
{
    if s.len() == 0 {
        Seq::empty()
    } else if is_space(s[0]) {
        tokens_spec(s.drop_first())
    } else {
        match find_space(s) {
            None => seq![s],
            Some(k) => seq![s.take(k)] + tokens_spec(s.skip(k)),
        }
    }
}

#[via_fn]
proof fn tokens_spec_decreases(s: Seq<char>) {
    if s.len() != 0 && !is_space(s[0]) {
        lemma_find_space(s);
    }
}

/// Split `s` into its blank-separated tokens.
fn tokens_in(s: &str) -> (r: Vec<String>)
    ensures
        views_of(r@) == tokens_spec(s@),
    decreases s@.len(),
{
    let n = s.unicode_len();
    if n == 0 {
        let r = Vec::<String>::new();
        proof {
            assert(views_of(r@) =~= tokens_spec(s@));
        }
        return r;
    }
    let first = s.get_char(0);
    if first == ' ' || first == '\t' {
        let rest = s.substring_char(1, n);
        proof {
            assert(rest@ =~= s@.drop_first());
        }
        return tokens_in(rest);
    }
    match find_space_in(s) {
        None => {
            let mut r = Vec::<String>::new();
            r.push(String::from_str(s));
            proof {
                assert(views_of(r@) =~= tokens_spec(s@));
            }
            r
        },
        Some(k) => {
            proof {
                lemma_find_space(s@);
            }
            let head = String::from_str(s.substring_char(0, k));
            let rest = s.substring_char(k, n);
            let mut r = tokens_in(rest);
            r.insert(0, head);
            proof {
                assert(head@ =~= s@.take(k as int));
                assert(views_of(r@) =~= tokens_spec(s@));
            }
            r
        },
    }
}

/// The submodule paths a `git config --file .gitmodules --get-regexp
/// submodule\..*\.path` output declares: the second token of each line,
/// joined onto the repository root when relative.
pub open spec fn submodule_paths_spec(root: Seq<char>, lines: Seq<Seq<char>>) -> Seq<Seq<char>>
    decreases lines.len(),
{
    if lines.len() == 0 {
        Seq::empty()
    } else {
        let rest = submodule_paths_spec(root, lines.drop_first());
        if tokens_spec(lines[0]).len() >= 2 {
            seq![join_path_spec(root, tokens_spec(lines[0])[1])] + rest
        } else {
            rest
        }
    }
}

impl Repo {
    /// Creates a repository model for a path, with no facts recorded.  The
    /// submodule paths are read from the output of `git config --file
    /// <path>/.gitmodules --get-regexp submodule\..*\.path`, which the caller
    /// supplies; `None`, as when the command failed, means no submodules.
    pub fn new(path: String, gitmodules_config: Option<&str>) -> (r: Repo)
        ensures
            r.path_value() == path,
            views_of(r.submodule_paths_view()) == match gitmodules_config {
                None => Seq::<Seq<char>>::empty(),
                Some(c) => submodule_paths_spec(path@, split_lines_spec(c@)),
            },
            forall|x: Seq<char>, y: Seq<char>| r.ancestry_fact(x, y) is None,
            forall|p: Seq<char>| r.last_commit_fact(p) is None,
            forall|o: Seq<char>| r.descendants_fact(o) is None,
            forall|x: Seq<char>, y: Seq<char>, p: Seq<char>| r.path_identity_fact(x, y, p) is None,
            forall|p: Seq<char>| r.uncommitted_fact(p) is None,
    {
        let submodule_paths = match gitmodules_config {
            None => {
                let v = Vec::<String>::new();
                proof {
                    assert(views_of(v@) =~= Seq::<Seq<char>>::empty());
                }
                v
            },
            Some(c) => submodule_paths_from_config(path.as_str(), c),
        };
        Repo {
            path,
            submodule_paths,
            ancestry: Vec::new(),
            last_commits: Vec::new(),
            descendants: Vec::new(),
            path_identity: Vec::new(),
            uncommitted: Vec::new(),
        }
    }
}

/// Collect the submodule paths from the lines of a `git config` output.
#[verifier::loop_isolation(false)]
fn submodule_paths_from_config(root: &str, config: &str) -> (r: Vec<String>)
    ensures
        views_of(r@) == submodule_paths_spec(root@, split_lines_spec(config@)),
{
    let lines = split_lines(config);
    let n = lines.len();
    let mut r = Vec::<String>::new();
    let mut i: usize = 0;
    proof {
        assert(views_of(lines@).skip(0) =~= views_of(lines@));
    }
    while i < n
        invariant
            0 <= i <= n,
            submodule_paths_spec(root@, views_of(lines@)) == views_of(r@) + submodule_paths_spec(
                root@,
                views_of(lines@).skip(i as int),
            ),
        decreases n - i,
    {
        let toks = tokens_in(lines[i].as_str());
        let ghost pre = r@;
        if toks.len() >= 2 {
            let joined = join_path(root, toks[1].as_str());
            r.push(joined);
        }
        proof {
            let lv = views_of(lines@);
            assert(lv.skip(i as int)[0] == lv[i as int]);
            assert(lv[i as int] == lines@[i as int]@);
            assert(lv.skip(i as int).drop_first() =~= lv.skip(i + 1));
            assert(tokens_spec(lines@[i as int]@) == views_of(toks@));
            if toks@.len() >= 2 {
                assert(views_of(toks@)[1] == toks@[1]@);
                assert(views_of(r@) =~= views_of(pre) + seq![join_path_spec(root@, toks@[1]@)]);
                assert(views_of(pre) + submodule_paths_spec(root@, lv.skip(i as int)) == views_of(
                    pre,
                ) + (seq![join_path_spec(root@, views_of(toks@)[1])] + submodule_paths_spec(
                    root@,
                    lv.skip(i + 1),
                )));
                assert(views_of(pre) + (seq![join_path_spec(root@, views_of(toks@)[1])]
                    + submodule_paths_spec(root@, lv.skip(i + 1))) =~= views_of(r@)
                    + submodule_paths_spec(root@, lv.skip(i + 1)));
            } else {
                assert(submodule_paths_spec(root@, lv.skip(i as int)) == submodule_paths_spec(
                    root@,
                    lv.skip(i + 1),
                ));
            }
        }
        i = i + 1;
    }
    proof {
        assert(views_of(lines@).skip(n as int) =~= Seq::<Seq<char>>::empty());
        assert(views_of(r@) + Seq::<Seq<char>>::empty() =~= views_of(r@));
    }
    r
}

} // verus!

//! Tests of the resolver and of the cache engine over recorded facts.

use memora::cache::{Artifact, Cache, CacheError, ResolveError};
use memora::git::{GitError, Object, Repo};

fn oid(c: char) -> String {
    let mut s = String::new();
    for _ in 0..40 {
        s.push(c);
    }
    s
}

fn obj(c: char) -> Object {
    Object::new(oid(c))
}

fn artifact(inputs: &[&str], outputs: &[&str]) -> Artifact {
    Artifact {
        inputs: inputs.iter().map(|s| s.to_string()).collect(),
        outputs: outputs.iter().map(|s| s.to_string()).collect(),
    }
}

fn record_anc(repo: &mut Repo, anc: char, desc: char, yes: bool) {
    let out = if yes { Some(String::from("x")) } else { Some(String::new()) };
    repo.record_ancestry(oid(anc), oid(desc), out);
}

fn cache_with(artifacts: Vec<(String, Artifact)>) -> Cache {
    Cache::new(String::from("/cache"), artifacts)
}

// ------------------------------------------------------------------
// Resolver
// ------------------------------------------------------------------

#[test]
fn resolver_literal_match() {
    let c = cache_with(vec![
        (String::from("foo_%"), artifact(&["src/%.c"], &["bin/%"])),
        (String::from("foo_hello"), artifact(&["exact/in"], &["exact/out"])),
    ]);
    // The literal key wins, verbatim, although a pattern also matches.
    let a = c.artifact("foo_hello").unwrap();
    assert_eq!(a.inputs, vec![String::from("exact/in")]);
    assert_eq!(a.outputs, vec![String::from("exact/out")]);
}

#[test]
fn resolver_pattern_artifact() {
    let c = cache_with(vec![(String::from("foo_%"), artifact(&["src/%.c"], &["bin/%"]))]);
    let a = c.artifact("foo_hello").unwrap();
    assert_eq!(a.inputs, vec![String::from("src/hello.c")]);
    assert_eq!(a.outputs, vec![String::from("bin/hello")]);
}

#[test]
fn resolver_pattern_leaves_paths_without_placeholder_untouched() {
    let c = cache_with(vec![(
        String::from("foo_%"),
        artifact(&["Makefile", "src/%.c"], &["bin/%"]),
    )]);
    let a = c.artifact("foo_hello").unwrap();
    assert_eq!(a.inputs, vec![String::from("Makefile"), String::from("src/hello.c")]);
}

#[test]
fn resolver_ambiguous_pattern() {
    let c = cache_with(vec![
        (String::from("foo_%"), artifact(&["a"], &["b"])),
        (String::from("%_bar"), artifact(&["c"], &["d"])),
    ]);
    assert_eq!(c.artifact("foo_bar"), Err(ResolveError::MultiplePatternMatches));
}

#[test]
fn resolver_not_defined() {
    let c = cache_with(vec![(String::from("foo_%"), artifact(&["a"], &["b"]))]);
    assert_eq!(c.artifact("bar"), Err(ResolveError::NotDefined));
}

#[test]
fn resolver_percent_matches_word_characters_only() {
    let c = cache_with(vec![(String::from("foo_%"), artifact(&["src/%.c"], &["bin/%"]))]);
    // A dash is no word character, so the pattern does not match.
    assert_eq!(c.artifact("foo_he-llo"), Err(ResolveError::NotDefined));
    // The capture must be non-empty.
    assert_eq!(c.artifact("foo_"), Err(ResolveError::NotDefined));
}

#[test]
fn resolver_idempotent() {
    let c = cache_with(vec![(String::from("foo_%"), artifact(&["src/%.c"], &["bin/%"]))]);
    let a1 = c.artifact("foo_hello").unwrap();
    let a2 = c.artifact("foo_hello").unwrap();
    assert_eq!(a1.inputs, a2.inputs);
    assert_eq!(a1.outputs, a2.outputs);
}

#[test]
fn resolver_capture_spans_word_characters_between_fixed_ends() {
    let c = cache_with(vec![(String::from("foo_%_bar"), artifact(&["src/%.c"], &["bin/%"]))]);
    let a = c.artifact("foo_x_y_bar").unwrap();
    assert_eq!(a.inputs, vec![String::from("src/x_y.c")]);
    assert_eq!(a.outputs, vec![String::from("bin/x_y")]);
}

#[test]
fn resolver_two_percent_names_are_no_patterns() {
    let c = cache_with(vec![(String::from("%_%"), artifact(&["a"], &["b"]))]);
    assert_eq!(c.artifact("x_y"), Err(ResolveError::NotDefined));
}

// ------------------------------------------------------------------
// Engine scenarios
// ------------------------------------------------------------------

/// Single commit hit: insert at head, then look the artifact up.
#[test]
fn single_commit_hit() {
    let mut repo = Repo::new(String::from("/repo"), None);
    let mut cache = cache_with(Vec::new());
    let a = artifact(&["src/a"], &["bin/a"]);
    let c0 = 'c';
    repo.record_last_commit(String::from("src/a"), Some(oid(c0)));
    repo.record_uncommitted_changes(String::from("src/a"), false);
    cache.record_directory_entries(Vec::new());
    cache.record_subpath(oid(c0), String::from("bin/a"), false);

    // Nothing cached yet: insert plans the copy into the cache.
    let (inserted, o, plan) = cache.insert(&repo, &a, false).unwrap();
    assert!(inserted);
    assert_eq!(o, obj(c0));
    assert_eq!(plan.len(), 1);
    assert_eq!(plan[0].from, String::from("/repo/bin/a"));
    assert_eq!(plan[0].to, format!("/cache/{}/bin/a", oid(c0)));

    // The driver copied the outputs: the entry now exists.
    cache.record_directory_entries(vec![oid(c0)]);
    cache.record_subpath(oid(c0), String::from("bin/a"), true);

    // Lookup hits, and get plans the copy out of the cache.
    assert_eq!(cache.cached_object(&repo, &a, false), Ok(Some(obj(c0))));
    let (o, plan) = cache.get(&repo, &a, false).unwrap().unwrap();
    assert_eq!(o, obj(c0));
    assert_eq!(plan.len(), 1);
    assert_eq!(plan[0].from, format!("/cache/{}/bin/a", oid(c0)));
    assert_eq!(plan[0].to, String::from("/repo/bin/a"));

    // A second insert finds the entry and does not copy.
    let (inserted, o, plan) = cache.insert(&repo, &a, false).unwrap();
    assert!(!inserted);
    assert_eq!(o, obj(c0));
    assert!(plan.is_empty());
}

/// Descendant satisfies: an unrelated commit moves the head, the old entry
/// still serves the artifact.
#[test]
fn descendant_satisfies() {
    let mut repo = Repo::new(String::from("/repo"), None);
    let mut cache = cache_with(Vec::new());
    let a = artifact(&["src/a"], &["bin/a"]);
    // `src/a` was last modified at 'c'; head moved on to 'd'.
    repo.record_last_commit(String::from("src/a"), Some(oid('c')));
    repo.record_uncommitted_changes(String::from("src/a"), false);
    cache.record_directory_entries(vec![oid('c')]);
    cache.record_subpath(oid('c'), String::from("bin/a"), true);

    let (o, plan) = cache.get(&repo, &a, false).unwrap().unwrap();
    assert_eq!(o, obj('c'));
    assert_eq!(plan[0].from, format!("/cache/{}/bin/a", oid('c')));
}

/// A younger cache entry satisfies when no input changed since the required
/// object.
#[test]
fn younger_entry_satisfies() {
    let mut repo = Repo::new(String::from("/repo"), None);
    let mut cache = cache_with(Vec::new());
    let a = artifact(&["src/a"], &["bin/a"]);
    repo.record_last_commit(String::from("src/a"), Some(oid('c')));
    repo.record_uncommitted_changes(String::from("src/a"), false);
    // Only the younger entry 'd' is cached; 'src/a' is identical at both.
    record_anc(&mut repo, 'c', 'd', true);
    repo.record_path_identity(oid('d'), oid('c'), String::from("src/a"), true);
    cache.record_directory_entries(vec![oid('d')]);
    cache.record_subpath(oid('c'), String::from("bin/a"), false);
    cache.record_subpath(oid('d'), String::from("bin/a"), true);

    assert_eq!(cache.cached_object(&repo, &a, false), Ok(Some(obj('d'))));
}

/// Invalidation: a new commit on the input makes the lookup miss.
#[test]
fn invalidation() {
    let mut repo = Repo::new(String::from("/repo"), None);
    let mut cache = cache_with(Vec::new());
    let a = artifact(&["src/a"], &["bin/a"]);
    // After the new commit 'e' on `src/a`:
    repo.record_last_commit(String::from("src/a"), Some(oid('e')));
    repo.record_uncommitted_changes(String::from("src/a"), false);
record_anc(&mut repo, 'e', 'c', false);  // the old entry is no descendant
    cache.record_directory_entries(vec![oid('c')]);
    cache.record_subpath(oid('e'), String::from("bin/a"), false);

    assert_eq!(cache.cached_object(&repo, &a, false), Ok(None));
    assert_eq!(cache.get(&repo, &a, false), Ok(None));
}

/// Incomparable inputs on a merge: the required revision is the merge
/// commit.
#[test]
fn incomparable_inputs_on_merge() {
    let mut repo = Repo::new(String::from("/repo"), None);
    let mut cache = cache_with(Vec::new());
    let z = artifact(&["src/a", "src/b"], &["z"]);
    // src/a last changed at 'a', src/b at 'b', on diverging branches.
    repo.record_last_commit(String::from("src/a"), Some(oid('a')));
    repo.record_last_commit(String::from("src/b"), Some(oid('b')));
    record_anc(&mut repo, 'a', 'b', false);
    record_anc(&mut repo, 'b', 'a', false);
    // Both merged at 'e', followed by 'f'.
    repo.record_descendants(oid('a'), Some(format!("{}\n{}", oid('e'), oid('f'))));
    repo.record_descendants(oid('b'), Some(format!("{}\n{}", oid('e'), oid('f'))));
    assert_eq!(cache.required_object(&repo, &z), Ok(obj('e')));

    // With the merge commit's entry holding the output, the lookup hits.
    repo.record_uncommitted_changes(String::from("src/a"), false);
    repo.record_uncommitted_changes(String::from("src/b"), false);
    cache.record_directory_entries(vec![oid('e')]);
    cache.record_subpath(oid('e'), String::from("z"), true);
    assert_eq!(cache.cached_object(&repo, &z, false), Ok(Some(obj('e'))));
}

/// When a merge commit is itself among the last-modifying revisions, the
/// required revision is that merge commit — the earliest revision at which
/// every input holds its latest content — not one of its successors.
#[test]
fn required_object_merge_commit_is_minimal() {
    let mut repo = Repo::new(String::from("/repo"), None);
    let cache = cache_with(Vec::new());
    let z = artifact(&["src/x", "src/y", "src/z"], &["z"]);
    // src/x last changed at 'a', src/y at 'c' (diverging branches), and
    // src/z at their merge commit 'b'.
    repo.record_last_commit(String::from("src/x"), Some(oid('a')));
    repo.record_last_commit(String::from("src/y"), Some(oid('c')));
    repo.record_last_commit(String::from("src/z"), Some(oid('b')));
    record_anc(&mut repo, 'a', 'c', false);
    record_anc(&mut repo, 'c', 'a', false);
    record_anc(&mut repo, 'a', 'b', true);
    record_anc(&mut repo, 'b', 'a', false);
    record_anc(&mut repo, 'c', 'b', true);
    record_anc(&mut repo, 'b', 'c', false);
    repo.record_descendants(oid('a'), Some(format!("{}\n{}", oid('b'), oid('d'))));
    repo.record_descendants(oid('c'), Some(format!("{}\n{}", oid('b'), oid('d'))));
    repo.record_descendants(oid('b'), Some(oid('d')));
    assert_eq!(cache.required_object(&repo, &z), Ok(obj('b')));
}

/// An input that no commit modifies leaves the required revision undefined.
#[test]
fn input_without_commit_fails_insert() {
    let mut repo = Repo::new(String::from("/repo"), None);
    let cache = cache_with(Vec::new());
    let a = artifact(&["src/a"], &["bin/a"]);
    repo.record_last_commit(String::from("src/a"), Some(String::new()));
    repo.record_uncommitted_changes(String::from("src/a"), false);
    assert_eq!(
        cache.required_object(&repo, &a),
        Err(GitError::NoLastCommit { path: String::from("src/a") })
    );
    assert_eq!(cache.cached_object(&repo, &a, false), Ok(None));
    assert_eq!(
        cache.insert(&repo, &a, false),
        Err(CacheError::Git(GitError::NoLastCommit { path: String::from("src/a") }))
    );
}

/// The uncommitted-changes gate: a dirty input reports a miss unless it is
/// ignored.
#[test]
fn uncommitted_changes_gate() {
    let mut repo = Repo::new(String::from("/repo"), None);
    let mut cache = cache_with(Vec::new());
    let a = artifact(&["src/a"], &["bin/a"]);
    repo.record_last_commit(String::from("src/a"), Some(oid('c')));
    repo.record_uncommitted_changes(String::from("src/a"), true);
    cache.record_directory_entries(vec![oid('c')]);
    cache.record_subpath(oid('c'), String::from("bin/a"), true);

    assert_eq!(cache.cached_object(&repo, &a, false), Ok(None));
    assert_eq!(cache.cached_object(&repo, &a, true), Ok(Some(obj('c'))));
}

/// `insert` proceeds against the required revision even when an input has
/// uncommitted changes: the caller opted into caching dirty state.
#[test]
fn insert_proceeds_on_uncommitted_changes() {
    let mut repo = Repo::new(String::from("/repo"), None);
    let mut cache = cache_with(Vec::new());
    let a = artifact(&["src/a"], &["bin/a"]);
    repo.record_last_commit(String::from("src/a"), Some(oid('c')));
    repo.record_uncommitted_changes(String::from("src/a"), true);
    cache.record_directory_entries(vec![oid('c')]);
    cache.record_subpath(oid('c'), String::from("bin/a"), true);

    // The dirty input hides the existing entry, and insert re-plans the copy.
    let (inserted, o, plan) = cache.insert(&repo, &a, false).unwrap();
    assert!(inserted);
    assert_eq!(o, obj('c'));
    assert_eq!(plan.len(), 1);
}

/// An artifact without outputs never hits.
#[test]
fn no_outputs_no_hit() {
    let mut repo = Repo::new(String::from("/repo"), None);
    let cache = cache_with(Vec::new());
    let a = artifact(&["src/a"], &[]);
    repo.record_last_commit(String::from("src/a"), Some(oid('c')));
    assert_eq!(cache.cached_object(&repo, &a, true), Ok(None));
}

/// The engine names each missing fact in turn.
#[test]
fn engine_reports_missing_facts() {
    let mut repo = Repo::new(String::from("/repo"), None);
    let mut cache = cache_with(Vec::new());
    let a = artifact(&["src/a"], &["bin/a"]);
    assert_eq!(
        cache.cached_object(&repo, &a, false),
        Err(CacheError::Git(GitError::NeedUncommittedChanges { path: String::from("src/a") }))
    );
    repo.record_uncommitted_changes(String::from("src/a"), false);
    assert_eq!(
        cache.cached_object(&repo, &a, false),
        Err(CacheError::Git(GitError::NeedLastCommit { path: String::from("src/a") }))
    );
    repo.record_last_commit(String::from("src/a"), Some(oid('c')));
    assert_eq!(
        cache.cached_object(&repo, &a, false),
        Err(CacheError::NeedSubpath { oid: oid('c'), subpath: String::from("bin/a") })
    );
    cache.record_subpath(oid('c'), String::from("bin/a"), true);
    assert_eq!(cache.cached_object(&repo, &a, false), Err(CacheError::NeedCacheEntries));
    cache.record_directory_entries(Vec::new());
    assert_eq!(cache.cached_object(&repo, &a, false), Ok(Some(obj('c'))));
}

/// A candidate entry cannot be judged before the identity of every input
/// between it and the required object is recorded.
#[test]
fn candidate_needs_path_identity() {
    let mut repo = Repo::new(String::from("/repo"), None);
    let mut cache = cache_with(Vec::new());
    let a = artifact(&["src/a"], &["bin/a"]);
    repo.record_last_commit(String::from("src/a"), Some(oid('c')));
    record_anc(&mut repo, 'c', 'd', true);
    cache.record_directory_entries(vec![oid('d')]);
    cache.record_subpath(oid('c'), String::from("bin/a"), false);
    cache.record_subpath(oid('d'), String::from("bin/a"), true);
    assert_eq!(
        cache.cached_object(&repo, &a, true),
        Err(CacheError::Git(GitError::NeedPathIdentity {
            a: oid('d'),
            b: oid('c'),
            path: String::from("src/a"),
        }))
    );
}

/// The directory listing keeps only well-formed 40-hex entry names.
#[test]
fn directory_entries_are_filtered() {
    let mut repo = Repo::new(String::from("/repo"), None);
    let mut cache = cache_with(Vec::new());
    let a = artifact(&["src/a"], &["bin/a"]);
    repo.record_last_commit(String::from("src/a"), Some(oid('c')));
    // Junk names are ignored; only the hex name is consulted (and needs an
    // ancestry fact).
    cache.record_directory_entries(vec![
        String::from(".lock"),
        String::from("not-an-object"),
        oid('d'),
    ]);
    cache.record_subpath(oid('c'), String::from("bin/a"), false);
    assert_eq!(
        cache.cached_object(&repo, &a, true),
        Err(CacheError::Git(GitError::NeedAncestry { ancestor: oid('c'), descendant: oid('d') }))
    );
}

#[test]
fn lock_file_path_and_entry_paths() {
    let cache = cache_with(Vec::new());
    assert_eq!(cache.lock_file_path(), String::from("/cache/.lock"));
    assert_eq!(
        cache.abspath_for_object(&obj('c'), "bin/a"),
        format!("/cache/{}/bin/a", oid('c'))
    );
}

#[test]
fn subpath_in_object_answers() {
    let mut cache = cache_with(Vec::new());
    cache.record_subpath(oid('c'), String::from("bin/a"), true);
    cache.record_subpath(oid('c'), String::from("bin/b"), false);
    assert_eq!(
        cache.subpath_in_object(&obj('c'), &String::from("bin/a")),
        Ok(Some(format!("/cache/{}/bin/a", oid('c'))))
    );
    assert_eq!(cache.subpath_in_object(&obj('c'), &String::from("bin/b")), Ok(None));
    assert_eq!(
        cache.subpath_in_object(&obj('c'), &String::from("bin/c")),
        Err(CacheError::NeedSubpath { oid: oid('c'), subpath: String::from("bin/c") })
    );
}

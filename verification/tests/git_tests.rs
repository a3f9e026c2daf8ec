//! Tests of the Git reasoning layer over recorded facts.

use memora::git::uncommitted_changes_decision;
use memora::git::{GitError, Object, Repo};
use std::cmp::Ordering;

/// A synthetic 40-hex object id made of one repeated digit.
fn oid(c: char) -> String {
    let mut s = String::new();
    for _ in 0..40 {
        s.push(c);
    }
    s
}

fn obj(c: char) -> Object {
    Object::new(oid(c))
}

fn empty_repo() -> Repo {
    Repo::new(String::from("/repo"), None)
}

/// Record that `anc` is a strict ancestor of `desc` (non-empty rev-list
/// output) or not (empty output).
fn record_anc(repo: &mut Repo, anc: char, desc: char, yes: bool) {
    let out = if yes { Some(String::from("x")) } else { Some(String::new()) };
    repo.record_ancestry(oid(anc), oid(desc), out);
}

#[test]
fn last_commit_on_existing_path_with_single_commit() {
    let mut repo = empty_repo();
    repo.record_last_commit(String::from("some_file"), Some(oid('a')));
    let act = repo.last_commit_on_path("some_file");
    assert_eq!(act, Some(Some(obj('a'))));
}

#[test]
fn last_commit_on_existing_path_with_no_commit() {
    let mut repo = empty_repo();
    // `git log` succeeds with empty output for a path no commit modifies.
    repo.record_last_commit(String::from("some_file"), Some(String::new()));
    let act = repo.last_commit_on_path("some_file");
    assert_eq!(act, Some(None));
}

#[test]
fn last_commit_on_existing_path_with_two_commits() {
    let mut repo = empty_repo();
    repo.record_last_commit(String::from("some_file"), Some(oid('a')));
    // A further commit on the path supersedes the recorded answer.
    repo.record_last_commit(String::from("some_file"), Some(oid('b')));
    let act = repo.last_commit_on_path("some_file");
    assert_eq!(act, Some(Some(obj('b'))));
}

#[test]
fn last_commit_on_nonexistent_path() {
    let mut repo = empty_repo();
    repo.record_last_commit(String::from("some_file"), Some(oid('a')));
    repo.record_last_commit(String::from("some_other_file"), Some(String::new()));
    assert_eq!(repo.last_commit_on_path("some_other_file"), Some(None));
    // And a path never asked about has no recorded fact at all.
    assert_eq!(repo.last_commit_on_path("third_file"), None);
}

#[test]
fn youngest_object_no_commit() {
    let repo = empty_repo();
    assert!(repo.youngest_object(&Vec::new()).is_err());
    assert_eq!(repo.youngest_object(&Vec::new()), Err(GitError::NoObjects));
}

#[test]
fn youngest_object_single_commit() {
    let repo = empty_repo();
    let objs = vec![obj('a')];
    assert_eq!(repo.youngest_object(&objs), Ok(obj('a')));
}

#[test]
fn youngest_object_two_identical_commits() {
    let repo = empty_repo();
    let objs = vec![obj('a'), obj('a')];
    assert_eq!(repo.youngest_object(&objs), Ok(obj('a')));
}

#[test]
fn youngest_object_two_different_commits() {
    let mut repo = empty_repo();
    // 'a' is the older commit: an ancestor of 'b'.
    record_anc(&mut repo, 'a', 'b', true);
    record_anc(&mut repo, 'b', 'a', false);
    let one_way = vec![obj('a'), obj('b')];
    let other_way = vec![obj('b'), obj('a')];
    assert_eq!(repo.youngest_object(&one_way), Ok(obj('b')));
    assert_eq!(repo.youngest_object(&other_way), Ok(obj('b')));
}

#[test]
fn youngest_object_two_incomparable_commits() {
    let mut repo = empty_repo();
    record_anc(&mut repo, 'a', 'b', false);
    record_anc(&mut repo, 'b', 'a', false);
    let objs = vec![obj('a'), obj('b')];
    assert!(repo.youngest_object(&objs).is_err());
}

#[test]
fn oldest_object_two_different_commits() {
    let mut repo = empty_repo();
    record_anc(&mut repo, 'a', 'b', true);
    record_anc(&mut repo, 'b', 'a', false);
    let objs = vec![obj('a'), obj('b')];
    assert_eq!(repo.oldest_object(&objs), Ok(obj('a')));
}

#[test]
fn youngest_object_reports_missing_fact() {
    let repo = empty_repo();
    let objs = vec![obj('a'), obj('b')];
    // Nothing recorded: the engine names the fact it needs first.
    assert_eq!(
        repo.youngest_object(&objs),
        Err(GitError::NeedAncestry { ancestor: oid('a'), descendant: oid('b') })
    );
}

/// An incomparable pair fails the call whatever the order of the set, even
/// when a common descendant sits between them in the list.
#[test]
fn youngest_object_incomparable_pair_fails_in_any_order() {
    let mut repo = empty_repo();
    // 'b' descends from both 'a' and 'c'; 'a' and 'c' diverge.
    record_anc(&mut repo, 'a', 'b', true);
    record_anc(&mut repo, 'b', 'a', false);
    record_anc(&mut repo, 'c', 'b', true);
    record_anc(&mut repo, 'b', 'c', false);
    record_anc(&mut repo, 'a', 'c', false);
    record_anc(&mut repo, 'c', 'a', false);
    let expected = Err(GitError::Incomparable { a: oid('a'), b: oid('c') });
    assert_eq!(repo.youngest_object(&vec![obj('a'), obj('b'), obj('c')]), expected);
    assert_eq!(repo.youngest_object(&vec![obj('a'), obj('c'), obj('b')]), expected);
    assert_eq!(repo.oldest_object(&vec![obj('a'), obj('b'), obj('c')]), expected);
}

/// A merge commit among the objects is itself a candidate: the common
/// descendant search returns it, not its successor.
#[test]
fn oldest_common_descendant_merge_commit_is_candidate() {
    let mut repo = empty_repo();
    record_anc(&mut repo, 'a', 'b', true);
    record_anc(&mut repo, 'b', 'a', false);
    record_anc(&mut repo, 'c', 'b', true);
    record_anc(&mut repo, 'b', 'c', false);
    record_anc(&mut repo, 'a', 'c', false);
    record_anc(&mut repo, 'c', 'a', false);
    repo.record_descendants(oid('a'), Some(format!("{}\n{}", oid('b'), oid('d'))));
    repo.record_descendants(oid('c'), Some(format!("{}\n{}", oid('b'), oid('d'))));
    repo.record_descendants(oid('b'), Some(oid('d')));
    let objs = vec![obj('a'), obj('c'), obj('b')];
    assert_eq!(repo.oldest_common_descendant_on_current_branch(&objs), Ok(obj('b')));
}

/// Any failed query counts as uncommitted changes.
#[test]
fn uncommitted_changes_decision_errs_on_the_safe_side() {
    assert!(uncommitted_changes_decision(false, false, None));
    assert!(uncommitted_changes_decision(true, false, None));
    assert!(uncommitted_changes_decision(true, true, None));
    assert!(uncommitted_changes_decision(true, true, Some(false)));
    assert!(!uncommitted_changes_decision(true, true, Some(true)));
}

#[test]
fn incomparable_objects_are_named() {
    let mut repo = empty_repo();
    record_anc(&mut repo, 'a', 'b', false);
    record_anc(&mut repo, 'b', 'a', false);
    let objs = vec![obj('a'), obj('b')];
    assert_eq!(
        repo.youngest_object(&objs),
        Err(GitError::Incomparable { a: oid('a'), b: oid('b') })
    );
    // The common-descendant search then asks for the descendant lists.
    assert_eq!(
        repo.oldest_common_descendant_on_current_branch(&objs),
        Err(GitError::NeedDescendants { oid: oid('a') })
    );
}

#[test]
fn partial_cmp_different_objects() {
    let mut repo = empty_repo();
    record_anc(&mut repo, 'a', 'b', true);
    record_anc(&mut repo, 'b', 'a', false);
    let younger = obj('b');
    let older = obj('a');
    assert_eq!(younger.partial_cmp_in(&older, &repo), Ok(Some(Ordering::Less)));
    assert_eq!(older.partial_cmp_in(&younger, &repo), Ok(Some(Ordering::Greater)));
}

#[test]
fn partial_cmp_identical_objects() {
    let repo = empty_repo();
    let a = obj('a');
    assert_eq!(a.partial_cmp_in(&a, &repo), Ok(Some(Ordering::Equal)));
}

#[test]
fn partial_cmp_incomparable_objects() {
    let mut repo = empty_repo();
    record_anc(&mut repo, 'a', 'b', false);
    record_anc(&mut repo, 'b', 'a', false);
    assert_eq!(obj('a').partial_cmp_in(&obj('b'), &repo), Ok(None));
}

#[test]
fn descendants_on_current_branch() {
    let mut repo = empty_repo();
    // rev-list --ancestry-path --reverse: oldest first.
    let listing = format!("{}\n{}\n{}", oid('b'), oid('c'), oid('d'));
    repo.record_descendants(oid('a'), Some(listing));
    let act = obj('a').descendants_on_current_branch(&repo);
    assert_eq!(act, Some(vec![obj('b'), obj('c'), obj('d')]));
    assert_eq!(obj('e').descendants_on_current_branch(&repo), None);
}

#[test]
fn oldest_common_descendant_on_current_branch_with_merge() {
    let mut repo = empty_repo();
    // 'a' and 'b' sit on diverging branches, merged at 'e', then 'f'.
    record_anc(&mut repo, 'a', 'b', false);
    record_anc(&mut repo, 'b', 'a', false);
    repo.record_descendants(oid('a'), Some(format!("{}\n{}", oid('e'), oid('f'))));
    repo.record_descendants(oid('b'), Some(format!("{}\n{}\n{}", oid('c'), oid('e'), oid('f'))));
    let objs = vec![obj('a'), obj('b')];
    assert_eq!(repo.oldest_common_descendant_on_current_branch(&objs), Ok(obj('e')));
}

#[test]
fn oldest_common_descendant_comparable_is_youngest() {
    let mut repo = empty_repo();
    record_anc(&mut repo, 'a', 'b', true);
    record_anc(&mut repo, 'b', 'a', false);
    let objs = vec![obj('a'), obj('b')];
    assert_eq!(repo.oldest_common_descendant_on_current_branch(&objs), Ok(obj('b')));
}

#[test]
fn oldest_common_descendant_none_exists() {
    let mut repo = empty_repo();
    record_anc(&mut repo, 'a', 'b', false);
    record_anc(&mut repo, 'b', 'a', false);
    repo.record_descendants(oid('a'), Some(oid('c')));
    repo.record_descendants(oid('b'), Some(oid('d')));
    let objs = vec![obj('a'), obj('b')];
    assert_eq!(
        repo.oldest_common_descendant_on_current_branch(&objs),
        Err(GitError::NoCommonDescendant)
    );
}

#[test]
fn submodule_path() {
    // One absolute path is kept; one relative path is joined onto the
    // repository root.
    let config = "submodule.tools.path /somewhere/tools\nsubmodule.libs.path vendor/libs";
    let repo = Repo::new(String::from("/repo"), Some(config));
    assert_eq!(
        repo.submodule_paths(),
        &vec![String::from("/somewhere/tools"), String::from("/repo/vendor/libs")]
    );
}

#[test]
fn submodule_path_none_configured() {
    let repo = Repo::new(String::from("/repo"), None);
    assert!(repo.submodule_paths().is_empty());
}

#[test]
fn uncommitted_change_in_file() {
    let mut repo = empty_repo();
    repo.record_uncommitted_changes(String::from("some_file"), false);
    assert_eq!(repo.has_uncommitted_changes(&String::from("some_file")), Some(false));
    repo.record_uncommitted_changes(String::from("some_file"), true);
    assert_eq!(repo.has_uncommitted_changes(&String::from("some_file")), Some(true));
    assert_eq!(repo.has_uncommitted_changes(&String::from("other")), None);
}

#[test]
fn uncommitted_change_in_dir() {
    let mut repo = empty_repo();
    repo.record_uncommitted_changes(String::from("some_dir"), false);
    assert_eq!(repo.has_uncommitted_changes(&String::from("some_dir")), Some(false));
    // A change to a file inside the directory makes the directory dirty.
    repo.record_uncommitted_changes(String::from("some_dir"), true);
    assert_eq!(repo.has_uncommitted_changes(&String::from("some_dir")), Some(true));
}

#[test]
fn path_identity_is_symmetric_in_the_cache() {
    let mut repo = empty_repo();
    repo.record_path_identity(oid('a'), oid('b'), String::from("src/x"), true);
    let cache = memora::cache::Cache::new(String::from("/cache"), Vec::new());
    // Recorded under (a, b), found under both key orders.
    assert_eq!(
        cache.objects_identical_for_path(&repo, &obj('a'), &obj('b'), &String::from("src/x")),
        Some(true)
    );
    assert_eq!(
        cache.objects_identical_for_path(&repo, &obj('b'), &obj('a'), &String::from("src/x")),
        Some(true)
    );
    assert_eq!(
        cache.objects_identical_for_path(&repo, &obj('a'), &obj('b'), &String::from("src/y")),
        None
    );
}

//! Tests of copy planning and of the small path and string utilities.

use memora::fs::{copy_plan, CopyAction, FileKind, FsError, WalkEntry};
use memora::util::{join_path, trim_newline};

fn entry(path: &str, kind: FileKind) -> WalkEntry {
    WalkEntry { path: path.to_string(), kind }
}

/// Copying a file plans its parents and one overwrite copy.
#[test]
fn copy_file_new() {
    let entries = vec![entry("/src/some_file", FileKind::File)];
    let plan = copy_plan("/src/some_file", "/dst/some_file", FileKind::File, &entries).unwrap();
    assert_eq!(plan.len(), 2);
    match &plan[0] {
        CopyAction::CreateParents { of } => assert_eq!(of, "/dst/some_file"),
        other => panic!("unexpected action {:?}", other),
    }
    match &plan[1] {
        CopyAction::CopyFile { from, to } => {
            assert_eq!(from, "/src/some_file");
            assert_eq!(to, "/dst/some_file");
        },
        other => panic!("unexpected action {:?}", other),
    }
}

/// A symlink source is re-created verbatim, even with a dangling target:
/// the plan holds exactly one symlink re-creation and dereferences nothing.
#[test]
fn copy_symlink_to_nonexisting_target() {
    let entries = vec![entry("/src/sym_link", FileKind::File)];
    let plan = copy_plan("/src/sym_link", "/dst/sym_link", FileKind::Symlink, &entries).unwrap();
    assert_eq!(plan.len(), 2);
    match &plan[1] {
        CopyAction::CopySymlink { from, to } => {
            assert_eq!(from, "/src/sym_link");
            assert_eq!(to, "/dst/sym_link");
        },
        other => panic!("unexpected action {:?}", other),
    }
}

/// Copying a directory replicates each walked entry at its relative path
/// under the destination, symlinks included.
#[test]
fn copy_dir() {
    let entries = vec![
        entry("/src/some", FileKind::Directory),
        entry("/src/some/subdir", FileKind::Directory),
        entry("/src/some/subdir/file", FileKind::File),
        entry("/src/some/some_symlink", FileKind::Symlink),
    ];
    let plan = copy_plan("/src/some", "/dst/some", FileKind::Directory, &entries).unwrap();
    assert_eq!(plan.len(), 8);
    match &plan[1] {
        CopyAction::CreateDir { path } => assert_eq!(path, "/dst/some"),
        other => panic!("unexpected action {:?}", other),
    }
    match &plan[3] {
        CopyAction::CreateDir { path } => assert_eq!(path, "/dst/some/subdir"),
        other => panic!("unexpected action {:?}", other),
    }
    match &plan[5] {
        CopyAction::CopyFile { from, to } => {
            assert_eq!(from, "/src/some/subdir/file");
            assert_eq!(to, "/dst/some/subdir/file");
        },
        other => panic!("unexpected action {:?}", other),
    }
    match &plan[7] {
        CopyAction::CopySymlink { from, to } => {
            assert_eq!(from, "/src/some/some_symlink");
            assert_eq!(to, "/dst/some/some_symlink");
        },
        other => panic!("unexpected action {:?}", other),
    }
}

/// Overwriting is the same single copy step: a file existing at the
/// destination is replaced, not skipped.
#[test]
fn copy_file_existing() {
    let entries = vec![entry("/src/some_file", FileKind::File)];
    let plan = copy_plan("/src/some_file", "/dst/some_file", FileKind::File, &entries).unwrap();
    assert_eq!(
        plan[1],
        CopyAction::CopyFile {
            from: String::from("/src/some_file"),
            to: String::from("/dst/some_file"),
        }
    );
}

/// Missing parent directories of the destination are created first.
#[test]
fn copy_file_new_subdir() {
    let entries = vec![entry("/src/subdir/some_file", FileKind::File)];
    let plan =
        copy_plan("/src/subdir/some_file", "/dst/subdir/some_file", FileKind::File, &entries)
            .unwrap();
    assert_eq!(plan[0], CopyAction::CreateParents { of: String::from("/dst/subdir/some_file") });
}

/// A walk entry outside the source fails the plan.
#[test]
fn copy_rejects_entry_outside_source() {
    let entries = vec![entry("/elsewhere/file", FileKind::File)];
    let r = copy_plan("/src/some", "/dst/some", FileKind::Directory, &entries);
    assert_eq!(r, Err(FsError::OutsidePrefix { path: String::from("/elsewhere/file") }));
}

/// Sockets, devices and fifos cannot be copied.
#[test]
fn copy_rejects_unsupported_file_type() {
    let entries = vec![
        entry("/src/some", FileKind::Directory),
        entry("/src/some/socket", FileKind::Other),
    ];
    let r = copy_plan("/src/some", "/dst/some", FileKind::Directory, &entries);
    assert_eq!(r, Err(FsError::UnsupportedFileType { path: String::from("/src/some/socket") }));
}

// ------------------------------------------------------------------
// Utilities
// ------------------------------------------------------------------

#[test]
fn trim_newline_variants() {
    assert_eq!(trim_newline(String::from("abc\n")), String::from("abc"));
    assert_eq!(trim_newline(String::from("abc\r\n")), String::from("abc"));
    assert_eq!(trim_newline(String::from("abc\r")), String::from("abc\r"));
    assert_eq!(trim_newline(String::from("abc")), String::from("abc"));
    assert_eq!(trim_newline(String::from("\n")), String::from(""));
    assert_eq!(trim_newline(String::from("")), String::from(""));
    assert_eq!(trim_newline(String::from("a\nb\n")), String::from("a\nb"));
}

#[test]
fn join_path_variants() {
    assert_eq!(join_path("/a", "b"), String::from("/a/b"));
    assert_eq!(join_path("/a/", "b"), String::from("/a/b"));
    assert_eq!(join_path("/a", "/b"), String::from("/b"));
    assert_eq!(join_path("", "b"), String::from("b"));
    assert_eq!(join_path("/a", ""), String::from("/a"));
}

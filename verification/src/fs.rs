//! Filesystem copy planning.
//!
//! The recursive copy of `get` and `insert` must create missing parents,
//! never dereference a symlink, overwrite files that exist at both ends, and
//! leave files that exist only at the destination alone.  The walk of the
//! source tree and the execution of each step are filesystem work and belong
//! to the unverified driver; the decision what to do with each entry — where
//! it lands under the destination and by which operation — is planned here.

use vstd::prelude::*;

use crate::util::join_path_spec;
use crate::util::join_path;

verus! {

/// The type of a filesystem entry, queried without following symlinks.
#[derive(Debug, Clone, Copy, PartialEq, Eq)]
pub enum FileKind {
    File,
    Directory,
    Symlink,
    /// Sockets, devices, fifos, and whatever else cannot be copied.
    Other,
}

/// One entry of a walk of the source tree, in walk order; the first entry is
/// the source path itself.
#[derive(Debug)]
pub struct WalkEntry {
    pub path: String,
    pub kind: FileKind,
}

/// One step of a copy plan, to be executed in order.
#[derive(Debug, PartialEq, Eq)]
pub enum CopyAction {
    /// Create the missing parent directories of `of`.
    CreateParents { of: String },
    /// Copy the file at `from` to `to`, overwriting `to`.
    CopyFile { from: String, to: String },
    /// Create the directory (and its missing parents).
    CreateDir { path: String },
    /// Re-create at `to` a symlink with the same literal target as the one
    /// at `from`, without dereferencing either.
    CopySymlink { from: String, to: String },
}

/// Why no copy plan exists.
#[derive(Debug, PartialEq, Eq)]
pub enum FsError {
    /// A walk entry does not lie under the source path.
    OutsidePrefix { path: String },
    /// A walk entry is neither file, directory nor symlink.
    UnsupportedFileType { path: String },
}

/// A copy step, described by the views of its paths.
pub enum PlanStep {
    Parents { of: Seq<char> },
    File { from: Seq<char>, to: Seq<char> },
    Dir { path: Seq<char> },
    Symlink { from: Seq<char>, to: Seq<char> },
}

/// A planning failure, described by the view of its path.
pub enum PlanError {
    Outside { path: Seq<char> },
    Unsupported { path: Seq<char> },
}

/// The description of a copy action.
pub open spec fn action_view(a: CopyAction) -> PlanStep {
    match a {
        CopyAction::CreateParents { of } => PlanStep::Parents { of: of@ },
        CopyAction::CopyFile { from, to } => PlanStep::File { from: from@, to: to@ },
        CopyAction::CreateDir { path } => PlanStep::Dir { path: path@ },
        CopyAction::CopySymlink { from, to } => PlanStep::Symlink { from: from@, to: to@ },
    }
}

/// The description of a whole plan.
pub open spec fn plan_views(p: Seq<CopyAction>) -> Seq<PlanStep> {
    p.map_values(|a: CopyAction| action_view(a))
}

/// The description of a planning failure.
pub open spec fn error_view(e: FsError) -> PlanError {
    match e {
        FsError::OutsidePrefix { path } => PlanError::Outside { path: path@ },
        FsError::UnsupportedFileType { path } => PlanError::Unsupported { path: path@ },
    }
}

/// The path of `entry` relative to `from`: empty for `from` itself,
/// otherwise what follows `from` and its separator.
pub open spec fn strip_prefix_spec(entry: Seq<char>, from: Seq<char>) -> Option<Seq<char>> {
    if entry == from {
        Some(Seq::empty())
    } else if entry.len() > from.len() && entry.take(from.len() as int) == from && entry[from.len() as int]
        == '/' {
        Some(entry.skip(from.len() as int + 1))
    } else {
        None
    }
}

/// Where a walk entry with relative path `rel` lands under `to`.
pub open spec fn dest_spec(to: Seq<char>, rel: Seq<char>) -> Seq<char> {
    if rel.len() == 0 {
        to
    } else {
        join_path_spec(to, rel)
    }
}

/// The copy step for one entry landing at `dest`, by its kind; `None` for a
/// kind that cannot be copied.
pub open spec fn step_for(entry: WalkEntry, dest: Seq<char>) -> Option<PlanStep> {
    match entry.kind {
        FileKind::File => Some(PlanStep::File { from: entry.path@, to: dest }),
        FileKind::Directory => Some(PlanStep::Dir { path: dest }),
        FileKind::Symlink => Some(PlanStep::Symlink { from: entry.path@, to: dest }),
        FileKind::Other => None,
    }
}

/// The steps that copy the walked entries from under `from` to under `to`:
/// for each entry in walk order, create the destination's parents, then
/// replicate the entry by its kind.
pub open spec fn copy_steps(from: Seq<char>, to: Seq<char>, entries: Seq<WalkEntry>) -> Result<
    Seq<PlanStep>,
    PlanError,
>
    decreases entries.len(),
{
    if entries.len() == 0 {
        Ok(Seq::empty())
    } else {
        let e = entries[0];
        match strip_prefix_spec(e.path@, from) {
            None => Err(PlanError::Outside { path: e.path@ }),
            Some(rel) => {
                let dest = dest_spec(to, rel);
                match step_for(e, dest) {
                    None => Err(PlanError::Unsupported { path: e.path@ }),
                    Some(step) => match copy_steps(from, to, entries.drop_first()) {
                        Err(er) => Err(er),
                        Ok(rest) => Ok(seq![PlanStep::Parents { of: dest }, step] + rest),
                    },
                }
            },
        }
    }
}

/// The plan of a recursive copy of `from` to `to`.  A source that is itself
/// a symlink is re-created at `to` verbatim, whatever its target, and the
/// walk is not consulted; any other source is replicated entry by entry.
pub open spec fn copy_plan_spec(
    from: Seq<char>,
    to: Seq<char>,
    from_kind: FileKind,
    entries: Seq<WalkEntry>,
) -> Result<Seq<PlanStep>, PlanError> {
    if from_kind is Symlink {
        Ok(seq![PlanStep::Parents { of: to }, PlanStep::Symlink { from, to }])
    } else {
        copy_steps(from, to, entries)
    }
}

/// Symlink preservation: the plan for a source that is itself a symlink
/// re-creates exactly one symlink at the destination, with the source link's
/// own (literal) target, dereferences nothing, and consults no walk entry —
/// whether or not the target exists.
pub proof fn lemma_symlink_preservation(from: Seq<char>, to: Seq<char>, entries: Seq<WalkEntry>)
    ensures
        copy_plan_spec(from, to, FileKind::Symlink, entries) == Ok::<Seq<PlanStep>, PlanError>(
            seq![PlanStep::Parents { of: to }, PlanStep::Symlink { from, to }],
        ),
        copy_plan_spec(from, to, FileKind::Symlink, entries) == copy_plan_spec(
            from,
            to,
            FileKind::Symlink,
            Seq::empty(),
        ),
{
}

/// Compute the relative path of `entry` under `from`.
fn strip_prefix_of(entry: &str, from: &str) -> (r: Option<String>)
    ensures
        match r {
            Some(s) => strip_prefix_spec(entry@, from@) == Some(s@),
            None => strip_prefix_spec(entry@, from@) is None,
        },
{
    let en = entry.unicode_len();
    let fn_ = from.unicode_len();
    if en < fn_ {
        proof {
            assert(entry@ != from@);
        }
        return None;
    }
    let mut i: usize = 0;
    while i < fn_
        invariant
            0 <= i <= fn_,
            fn_ == from@.len(),
            en == entry@.len(),
            en >= fn_,
            forall|j: int| 0 <= j < i ==> entry@[j] == from@[j],
        decreases fn_ - i,
    {
        if entry.get_char(i) != from.get_char(i) {
            proof {
                assert(entry@ != from@) by {
                    assert(entry@[i as int] != from@[i as int]);
                }
                if entry@.len() > from@.len() {
                    assert(entry@.take(from@.len() as int)[i as int] != from@[i as int]);
                }
            }
            return None;
        }
        i = i + 1;
    }
    proof {
        assert(entry@.take(fn_ as int) =~= from@);
    }
    if en == fn_ {
        proof {
            assert(entry@ =~= from@);
        }
        let r = String::new();
        proof {
            assert(r@ =~= Seq::<char>::empty());
        }
        return Some(r);
    }
    if entry.get_char(fn_) != '/' {
        proof {
            assert(entry@ != from@);
        }
        return None;
    }
    let rest = entry.substring_char(fn_ + 1, en);
    proof {
        assert(entry@ != from@);
        assert(rest@ =~= entry@.skip(fn_ + 1));
    }
    Some(String::from_str(rest))
}

/// Plan a recursive copy of `from` to `to`.
///
/// `from_kind` is the type of `from` itself, queried without following
/// symlinks; `entries` is a walk of `from` in top-down order (ignored when
/// `from` is a symlink).  The steps of the plan, executed in order,
/// replicate every walked entry under `to`: parents are created as needed,
/// symlinks are re-created with their literal target and never dereferenced,
/// files existing at both ends are overwritten, and nothing else at `to` is
/// touched.
#[verifier::loop_isolation(false)]
pub fn copy_plan(from: &str, to: &str, from_kind: FileKind, entries: &Vec<WalkEntry>) -> (r: Result<
    Vec<CopyAction>,
    FsError,
>)
    ensures
        match r {
            Ok(plan) => copy_plan_spec(from@, to@, from_kind, entries@) == Ok::<Seq<PlanStep>, PlanError>(plan_views(plan@)),
            Err(e) => copy_plan_spec(from@, to@, from_kind, entries@) == Err::<Seq<PlanStep>, PlanError>(error_view(e)),
        },
{
    if let FileKind::Symlink = from_kind {
        let mut plan = Vec::<CopyAction>::new();
        plan.push(CopyAction::CreateParents { of: String::from_str(to) });
        plan.push(
            CopyAction::CopySymlink { from: String::from_str(from), to: String::from_str(to) },
        );
        proof {
            assert(plan_views(plan@) =~= seq![
                PlanStep::Parents { of: to@ },
                PlanStep::Symlink { from: from@, to: to@ },
            ]);
        }
        return Ok(plan);
    }
    let n = entries.len();
    let mut plan = Vec::<CopyAction>::new();
    let mut i: usize = 0;
    proof {
        assert(entries@.skip(0) =~= entries@);
        assert(plan_views(plan@) + Seq::<PlanStep>::empty() =~= plan_views(plan@));
    }
    while i < n
        invariant
            0 <= i <= n,
            match copy_steps(from@, to@, entries@.skip(i as int)) {
                Ok(rest) => copy_steps(from@, to@, entries@) == Ok::<Seq<PlanStep>, PlanError>(plan_views(plan@) + rest),
                Err(e) => copy_steps(from@, to@, entries@) == Err::<Seq<PlanStep>, PlanError>(e),
            },
        decreases n - i,
    {
        let ghost pre = plan@;
        proof {
            assert(entries@.skip(i as int)[0] == entries@[i as int]);
            assert(entries@.skip(i as int).drop_first() =~= entries@.skip(i + 1));
        }
        let entry = &entries[i];
        let rel = match strip_prefix_of(entry.path.as_str(), from) {
            None => {
                return Err(FsError::OutsidePrefix { path: entry.path.clone() });
            },
            Some(rel) => rel,
        };
        let dest = if rel.as_str().unicode_len() == 0 {
            String::from_str(to)
        } else {
            join_path(to, rel.as_str())
        };
        let ghost dest_view = dest_spec(to@, rel@);
        proof {
            assert(dest@ == dest_view);
        }
        plan.push(CopyAction::CreateParents { of: dest.clone() });
        match entry.kind {
            FileKind::File => {
                plan.push(CopyAction::CopyFile { from: entry.path.clone(), to: dest });
            },
            FileKind::Directory => {
                plan.push(CopyAction::CreateDir { path: dest });
            },
            FileKind::Symlink => {
                plan.push(CopyAction::CopySymlink { from: entry.path.clone(), to: dest });
            },
            FileKind::Other => {
                return Err(FsError::UnsupportedFileType { path: entry.path.clone() });
            },
        }
        proof {
            let e = entries@[i as int];
            let step = step_for(e, dest_view)->Some_0;
            assert(plan_views(plan@) =~= plan_views(pre) + seq![
                PlanStep::Parents { of: dest_view },
                step,
            ]);
            if copy_steps(from@, to@, entries@.skip(i + 1)) is Ok {
                let rest = copy_steps(from@, to@, entries@.skip(i + 1))->Ok_0;
                assert(plan_views(pre) + (seq![PlanStep::Parents { of: dest_view }, step] + rest)
                    =~= plan_views(plan@) + rest);
            }
        }
        i = i + 1;
    }
    proof {
        assert(entries@.skip(n as int) =~= Seq::<WalkEntry>::empty());
        assert(plan_views(plan@) + Seq::<PlanStep>::empty() =~= plan_views(plan@));
    }
    Ok(plan)
}

} // verus!

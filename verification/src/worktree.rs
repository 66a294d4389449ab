use crate::bytes::append_bytes;
use crate::error::GitError;
use crate::git_object::{kind_bytes, ObjectType};
use crate::paths::{joined_path, path_join};
use crate::repo::GitRepo;
use crate::store::{view_kind, Object};
use crate::tree::GitTree;
use crate::tree_leaf::{canonical_mode, pad_mode, LeafView};
use vstd::prelude::*;

verus! {

/// What an entry of a tree is.
#[derive(Debug, Clone, Copy, PartialEq, Eq, Structural)]
pub enum EntryKind {
    File,
    Directory,
    Symlink,
    Gitlink,
}

/// What a mode says an entry is, by the first two of its six digits: `10` a
/// file, `04` a directory, `12` a symlink, `16` a gitlink. `None` for any
/// other mode.
pub open spec fn mode_kind(mode: Seq<u8>) -> Option<EntryKind> {
    if mode.len() < 1 || mode.len() > 6 {
        None
    } else {
        let digits = canonical_mode(mode);
        if digits[0] == 49 && digits[1] == 48 {
            Some(EntryKind::File)
        } else if digits[0] == 48 && digits[1] == 52 {
            Some(EntryKind::Directory)
        } else if digits[0] == 49 && digits[1] == 50 {
            Some(EntryKind::Symlink)
        } else if digits[0] == 49 && digits[1] == 54 {
            Some(EntryKind::Gitlink)
        } else {
            None
        }
    }
}

/// What a mode says an entry is.
pub fn entry_kind(mode: &[u8]) -> (kind: Option<EntryKind>)
    ensures
        kind == mode_kind(mode@),
{
    if mode.len() < 1 || mode.len() > 6 {
        return None;
    }
    let digits = pad_mode(mode);
    if digits[0] == 49 && digits[1] == 48 {
        Some(EntryKind::File)
    } else if digits[0] == 48 && digits[1] == 52 {
        Some(EntryKind::Directory)
    } else if digits[0] == 49 && digits[1] == 50 {
        Some(EntryKind::Symlink)
    } else if digits[0] == 49 && digits[1] == 54 {
        Some(EntryKind::Gitlink)
    } else {
        None
    }
}

/// One step of a checkout.
#[derive(Debug, Clone, PartialEq, Eq)]
pub enum CheckoutStep {
    /// Make the directory at `path`, and check the tree at `tree` out into it.
    MakeDir { path: Vec<u8>, tree: Vec<u8> },
    /// Write the content of the blob at `blob` to the file at `path`.
    WriteFile { path: Vec<u8>, blob: Vec<u8> },
}

/// What a checkout step holds, as plain values: whether it makes a directory,
/// the path, and the address.
pub open spec fn step_view(step: CheckoutStep) -> (bool, Seq<u8>, Seq<u8>) {
    match step {
        CheckoutStep::MakeDir { path, tree } => (true, path@, tree@),
        CheckoutStep::WriteFile { path, blob } => (false, path@, blob@),
    }
}

/// The views of a run of steps.
pub open spec fn steps_view(steps: Seq<CheckoutStep>) -> Seq<(bool, Seq<u8>, Seq<u8>)> {
    Seq::new(steps.len(), |i: int| step_view(steps[i]))
}

/// Whether checkout can put an entry into the work tree: it is a file or a
/// directory.
pub open spec fn leaf_checkable(leaf: LeafView) -> bool {
    mode_kind(leaf.mode) == Some(EntryKind::File) || mode_kind(leaf.mode) == Some(
        EntryKind::Directory,
    )
}

/// The step that puts an entry below `dest`.
pub open spec fn checkout_step(leaf: LeafView, dest: Seq<u8>) -> (bool, Seq<u8>, Seq<u8>) {
    (mode_kind(leaf.mode) == Some(EntryKind::Directory), joined_path(dest, leaf.path), leaf.sha)
}

/// Whether every entry can be put into the work tree.
pub open spec fn leaves_checkable(leaves: Seq<LeafView>) -> bool {
    forall|i: int| 0 <= i < leaves.len() ==> leaf_checkable(#[trigger] leaves[i])
}

/// The name of the kind of object that an entry names, as a listing shows it.
pub open spec fn kind_label(kind: EntryKind) -> Seq<u8> {
    match kind {
        EntryKind::File => kind_bytes(ObjectType::Blob),
        EntryKind::Directory => kind_bytes(ObjectType::Tree),
        EntryKind::Symlink => kind_bytes(ObjectType::Blob),
        EntryKind::Gitlink => kind_bytes(ObjectType::Commit),
    }
}

/// One row of a listing.
#[derive(Debug, Clone, PartialEq, Eq)]
pub enum LsTreeRow {
    /// A line to show: the mode, the kind, the address, a tab, the path.
    Line(Vec<u8>),
    /// A directory to list in its place, with the path that its entries are
    /// shown below.
    Descend { tree: Vec<u8>, prefix: Vec<u8> },
}

/// What a row holds, as plain values: whether it is a directory to descend
/// into, the line or the address of the tree, and the prefix.
pub open spec fn row_view(row: LsTreeRow) -> (bool, Seq<u8>, Seq<u8>) {
    match row {
        LsTreeRow::Line(line) => (false, line@, Seq::empty()),
        LsTreeRow::Descend { tree, prefix } => (true, tree@, prefix@),
    }
}

/// The views of a run of rows.
pub open spec fn rows_view(rows: Seq<LsTreeRow>) -> Seq<(bool, Seq<u8>, Seq<u8>)> {
    Seq::new(rows.len(), |i: int| row_view(rows[i]))
}

/// The line of an entry: the mode in six digits, a space, the kind, a space,
/// the address, a tab, the path below the prefix.
pub open spec fn listing_line(leaf: LeafView, kind: EntryKind, prefix: Seq<u8>) -> Seq<u8> {
    canonical_mode(leaf.mode) + seq![32u8] + kind_label(kind) + seq![32u8] + leaf.sha + seq![9u8]
        + joined_path(prefix, leaf.path)
}

/// The row of an entry: a directory is descended into where the listing is
/// recursive, and anything else is shown.
pub open spec fn listing_row(leaf: LeafView, recursive: bool, prefix: Seq<u8>) -> (
    bool,
    Seq<u8>,
    Seq<u8>,
) {
    let kind = mode_kind(leaf.mode)->0;
    if recursive && kind == EntryKind::Directory {
        (true, leaf.sha, joined_path(prefix, leaf.path))
    } else {
        (false, listing_line(leaf, kind, prefix), Seq::empty())
    }
}

/// Whether every entry has a mode that says what it is.
pub open spec fn leaves_known(leaves: Seq<LeafView>) -> bool {
    forall|i: int| 0 <= i < leaves.len() ==> mode_kind((#[trigger] leaves[i]).mode) is Some
}

/// One entry of a tree with its full path.
#[derive(Debug, Clone, PartialEq, Eq)]
pub struct PathEntry {
    /// The path below the prefix.
    pub path: Vec<u8>,
    /// The address of the blob or the tree.
    pub sha: Vec<u8>,
    /// Whether the entry is a directory, whose own entries follow below this
    /// path.
    pub is_tree: bool,
}

/// What a path entry holds, as plain values.
pub open spec fn path_entry_view(entry: PathEntry) -> (Seq<u8>, Seq<u8>, bool) {
    (entry.path@, entry.sha@, entry.is_tree)
}

/// The views of a run of path entries.
pub open spec fn path_entries_view(entries: Seq<PathEntry>) -> Seq<(Seq<u8>, Seq<u8>, bool)> {
    Seq::new(entries.len(), |i: int| path_entry_view(entries[i]))
}

/// The path entry of a tree entry below `prefix`.
pub open spec fn path_entry_of(leaf: LeafView, prefix: Seq<u8>) -> (Seq<u8>, Seq<u8>, bool) {
    (joined_path(prefix, leaf.path), leaf.sha, mode_kind(leaf.mode) == Some(EntryKind::Directory))
}

/// What is to be done with the target of a checkout.
#[derive(Debug, Clone, Copy, PartialEq, Eq, Structural)]
pub enum TargetAction {
    /// The target does not exist: make the directory.
    Create,
    /// The target is an empty directory: use it.
    Use,
}

impl GitRepo {
    /// Decides on the target of a checkout or of a new repository. A target
    /// that does not exist is created, and an empty directory is used. Fails
    /// with `DestinationNotEmpty` for anything else.
    pub fn checkout(exists: bool, is_dir: bool, is_empty: bool) -> (out: Result<
        TargetAction,
        GitError,
    >)
        ensures
            out == (if !exists {
                Ok::<TargetAction, GitError>(TargetAction::Create)
            } else if is_dir && is_empty {
                Ok(TargetAction::Use)
            } else {
                Err(GitError::DestinationNotEmpty)
            }),
    {
        if !exists {
            Ok(TargetAction::Create)
        } else if is_dir && is_empty {
            Ok(TargetAction::Use)
        } else {
            Err(GitError::DestinationNotEmpty)
        }
    }

    /// The steps that put the entries of a tree below `dest`, one for each
    /// entry in the order of the tree. Fails with `UnsupportedMode`, and gives
    /// no step, where an entry is neither a file nor a directory.
    pub fn tree_checkout(tree: &GitTree, dest: &[u8]) -> (out: Result<Vec<CheckoutStep>, GitError>)
        ensures
            match out {
                Ok(steps) => leaves_checkable(tree.entries()) && steps_view(steps@) == Seq::new(
                    tree.entries().len(),
                    |i: int| checkout_step(tree.entries()[i], dest@),
                ),
                Err(e) => !leaves_checkable(tree.entries()) && e == GitError::UnsupportedMode,
            },
    {
        let mut steps: Vec<CheckoutStep> = Vec::new();
        let count = tree.len();
        let mut i: usize = 0;
        while i < count
            invariant
                i <= count,
                count == tree.entries().len(),
                steps@.len() == i,
                forall|k: int| 0 <= k < i ==> leaf_checkable(#[trigger] tree.entries()[k]),
                forall|k: int|
                    0 <= k < i ==> step_view(#[trigger] steps@[k]) == checkout_step(
                        tree.entries()[k],
                        dest@,
                    ),
            decreases count - i,
        {
            let leaf = tree.get(i);
            let path = path_join(dest, leaf.path.as_slice());
            let sha = leaf.sha.clone();
            match entry_kind(leaf.mode.as_slice()) {
                Some(EntryKind::File) => {
                    steps.push(CheckoutStep::WriteFile { path, blob: sha });
                },
                Some(EntryKind::Directory) => {
                    steps.push(CheckoutStep::MakeDir { path, tree: sha });
                },
                _ => {
                    assert(!leaf_checkable(tree.entries()[i as int]));
                    return Err(GitError::UnsupportedMode);
                },
            }
            i = i + 1;
        }
        assert(steps_view(steps@) =~= Seq::new(
            tree.entries().len(),
            |i: int| checkout_step(tree.entries()[i], dest@),
        ));
        Ok(steps)
    }

    /// The content that a checkout step writes, from the object that was read
    /// at the step's address: the bytes of a blob for a file, nothing for a
    /// directory. Fails with `WrongObjectKind` where the object is not what
    /// the step needs.
    pub fn checkout_content(step: &CheckoutStep, object: &Object) -> (out: Result<
        Option<Vec<u8>>,
        GitError,
    >)
        ensures
            match out {
                Ok(Some(bytes)) => !step_view(*step).0 && object@ == crate::store::ObjectView::Blob(
                    bytes@,
                ),
                Ok(None) => step_view(*step).0 && view_kind(object@) == ObjectType::Tree,
                Err(e) => e == GitError::WrongObjectKind && view_kind(object@) != (if step_view(
                    *step,
                ).0 {
                    ObjectType::Tree
                } else {
                    ObjectType::Blob
                }),
            },
    {
        match (step, object) {
            (CheckoutStep::MakeDir { .. }, Object::Tree(_)) => Ok(None),
            (CheckoutStep::WriteFile { .. }, Object::Blob(blob)) => {
                let bytes = crate::git_object::GitObject::data(blob);
                Ok(Some(bytes))
            },
            _ => Err(GitError::WrongObjectKind),
        }
    }

    /// The rows of the listing of a tree, one for each entry in the order of
    /// the tree. Fails with `UnsupportedMode` where the mode of an entry does
    /// not say what the entry is.
    pub fn ls_tree(tree: &GitTree, recursive: bool, prefix: &[u8]) -> (out: Result<
        Vec<LsTreeRow>,
        GitError,
    >)
        ensures
            match out {
                Ok(rows) => leaves_known(tree.entries()) && rows_view(rows@) == Seq::new(
                    tree.entries().len(),
                    |i: int| listing_row(tree.entries()[i], recursive, prefix@),
                ),
                Err(e) => !leaves_known(tree.entries()) && e == GitError::UnsupportedMode,
            },
    {
        let mut rows: Vec<LsTreeRow> = Vec::new();
        let count = tree.len();
        let mut i: usize = 0;
        while i < count
            invariant
                i <= count,
                count == tree.entries().len(),
                rows@.len() == i,
                forall|k: int| 0 <= k < i ==> mode_kind((#[trigger] tree.entries()[k]).mode) is Some,
                forall|k: int|
                    0 <= k < i ==> row_view(#[trigger] rows@[k]) == listing_row(
                        tree.entries()[k],
                        recursive,
                        prefix@,
                    ),
            decreases count - i,
        {
            let leaf = tree.get(i);
            let kind = match entry_kind(leaf.mode.as_slice()) {
                Some(kind) => kind,
                None => {
                    assert(mode_kind(tree.entries()[i as int].mode) is None);
                    return Err(GitError::UnsupportedMode);
                },
            };
            let path = path_join(prefix, leaf.path.as_slice());
            if recursive && kind == EntryKind::Directory {
                rows.push(LsTreeRow::Descend { tree: leaf.sha.clone(), prefix: path });
            } else {
                let mut line = pad_mode(leaf.mode.as_slice());
                line.push(32u8);
                let label = match kind {
                    EntryKind::File => ObjectType::Blob,
                    EntryKind::Directory => ObjectType::Tree,
                    EntryKind::Symlink => ObjectType::Blob,
                    EntryKind::Gitlink => ObjectType::Commit,
                };
                append_bytes(&mut line, label.as_iter());
                line.push(32u8);
                append_bytes(&mut line, leaf.sha.as_slice());
                line.push(9u8);
                append_bytes(&mut line, path.as_slice());
                assert(line@ =~= listing_line(leaf@, kind, prefix@));
                rows.push(LsTreeRow::Line(line));
            }
            i = i + 1;
        }
        assert(rows_view(rows@) =~= Seq::new(
            tree.entries().len(),
            |i: int| listing_row(tree.entries()[i], recursive, prefix@),
        ));
        Ok(rows)
    }

    /// The entries of a tree with their paths below `prefix`, one for each
    /// entry in the order of the tree: a path and the address of its blob, or
    /// for a directory a path and the address of the tree whose entries
    /// follow below it.
    pub fn to_hash_map(tree: &GitTree, prefix: &[u8]) -> (out: Vec<PathEntry>)
        ensures
            path_entries_view(out@) == Seq::new(
                tree.entries().len(),
                |i: int| path_entry_of(tree.entries()[i], prefix@),
            ),
    {
        let mut out: Vec<PathEntry> = Vec::new();
        let count = tree.len();
        let mut i: usize = 0;
        while i < count
            invariant
                i <= count,
                count == tree.entries().len(),
                out@.len() == i,
                forall|k: int|
                    0 <= k < i ==> path_entry_view(#[trigger] out@[k]) == path_entry_of(
                        tree.entries()[k],
                        prefix@,
                    ),
            decreases count - i,
        {
            let leaf = tree.get(i);
            let is_tree = match entry_kind(leaf.mode.as_slice()) {
                Some(EntryKind::Directory) => true,
                _ => false,
            };
            out.push(
                PathEntry {
                    path: path_join(prefix, leaf.path.as_slice()),
                    sha: leaf.sha.clone(),
                    is_tree,
                },
            );
            i = i + 1;
        }
        assert(path_entries_view(out@) =~= Seq::new(
            tree.entries().len(),
            |i: int| path_entry_of(tree.entries()[i], prefix@),
        ));
        out
    }
}

} // verus!

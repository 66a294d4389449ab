use mygit::blob::GitBlob;
use mygit::error::GitError;
use mygit::repo::GitRepo;
use mygit::store::Object;
use mygit::tree::GitTree;
use mygit::tree_leaf::GitTreeLeaf;
use mygit::worktree::{
    entry_kind, CheckoutStep, EntryKind, LsTreeRow, PathEntry, TargetAction,
};

const A: &[u8] = b"aaaaaaaaaaaaaaaaaaaaaaaaaaaaaaaaaaaaaaaa";
const B: &[u8] = b"bbbbbbbbbbbbbbbbbbbbbbbbbbbbbbbbbbbbbbbb";
const C: &[u8] = b"cccccccccccccccccccccccccccccccccccccccc";

fn tree(leaves: &[(&[u8], &[u8], &[u8])]) -> GitTree {
    GitTree::new(
        Vec::new(),
        leaves
            .iter()
            .map(|(mode, path, sha)| GitTreeLeaf::new(sha.to_vec(), path.to_vec(), mode.to_vec()))
            .collect(),
    )
}

#[test]
fn checkout_into_non_empty_directory() {
    assert_eq!(GitRepo::checkout(true, true, false), Err(GitError::DestinationNotEmpty));
    assert_eq!(GitRepo::checkout(true, false, false), Err(GitError::DestinationNotEmpty));
    assert_eq!(GitRepo::checkout(true, false, true), Err(GitError::DestinationNotEmpty));
    assert_eq!(GitRepo::checkout(true, true, true), Ok(TargetAction::Use));
    assert_eq!(GitRepo::checkout(false, false, false), Ok(TargetAction::Create));
}

#[test]
fn checkout_makes_directories_and_writes_files() {
    let t = tree(&[(b"100644", b"a.txt", A), (b"040000", b"src", B), (b"100755", b"run", C)]);
    let steps = GitRepo::tree_checkout(&t, b"/tmp/dest").unwrap();
    assert_eq!(
        steps,
        vec![
            CheckoutStep::WriteFile { path: b"/tmp/dest/a.txt".to_vec(), blob: A.to_vec() },
            CheckoutStep::MakeDir { path: b"/tmp/dest/src".to_vec(), tree: B.to_vec() },
            CheckoutStep::WriteFile { path: b"/tmp/dest/run".to_vec(), blob: C.to_vec() },
        ]
    );
    assert_eq!(GitRepo::tree_checkout(&tree(&[]), b"/tmp/dest"), Ok(Vec::new()));
}

#[test]
fn checkout_refuses_symlinks_and_gitlinks() {
    let link = tree(&[(b"100644", b"a", A), (b"120000", b"link", B)]);
    assert_eq!(GitRepo::tree_checkout(&link, b"d"), Err(GitError::UnsupportedMode));
    let module = tree(&[(b"160000", b"module", B)]);
    assert_eq!(GitRepo::tree_checkout(&module, b"d"), Err(GitError::UnsupportedMode));
    let odd = tree(&[(b"777777", b"odd", B)]);
    assert_eq!(GitRepo::tree_checkout(&odd, b"d"), Err(GitError::UnsupportedMode));
}

#[test]
fn checkout_wants_the_right_kind_of_object() {
    let file = CheckoutStep::WriteFile { path: b"p".to_vec(), blob: A.to_vec() };
    let dir = CheckoutStep::MakeDir { path: b"p".to_vec(), tree: A.to_vec() };
    let blob = Object::Blob(GitBlob::new(b"content".to_vec()));
    let sub = Object::Tree(tree(&[]));
    assert_eq!(GitRepo::checkout_content(&file, &blob), Ok(Some(b"content".to_vec())));
    assert_eq!(GitRepo::checkout_content(&dir, &sub), Ok(None));
    assert_eq!(GitRepo::checkout_content(&file, &sub), Err(GitError::WrongObjectKind));
    assert_eq!(GitRepo::checkout_content(&dir, &blob), Err(GitError::WrongObjectKind));
}

#[test]
fn modes_say_what_entries_are() {
    assert_eq!(entry_kind(b"100644"), Some(EntryKind::File));
    assert_eq!(entry_kind(b"100755"), Some(EntryKind::File));
    assert_eq!(entry_kind(b"040000"), Some(EntryKind::Directory));
    assert_eq!(entry_kind(b"40000"), Some(EntryKind::Directory));
    assert_eq!(entry_kind(b"120000"), Some(EntryKind::Symlink));
    assert_eq!(entry_kind(b"160000"), Some(EntryKind::Gitlink));
    assert_eq!(entry_kind(b"140000"), None);
    assert_eq!(entry_kind(b""), None);
    assert_eq!(entry_kind(b"1006440"), None);
}

#[test]
fn listing_shows_each_entry() {
    let t = tree(&[
        (b"100644", b"a.txt", A),
        (b"40000", b"src", B),
        (b"120000", b"link", C),
        (b"160000", b"module", A),
    ]);
    let rows = GitRepo::ls_tree(&t, false, b"").unwrap();
    assert_eq!(
        rows,
        vec![
            LsTreeRow::Line([&b"100644 blob "[..], A, b"\ta.txt"].concat()),
            LsTreeRow::Line([&b"040000 tree "[..], B, b"\tsrc"].concat()),
            LsTreeRow::Line([&b"120000 blob "[..], C, b"\tlink"].concat()),
            LsTreeRow::Line([&b"160000 commit "[..], A, b"\tmodule"].concat()),
        ]
    );
    let rows = GitRepo::ls_tree(&t, true, b"top").unwrap();
    assert_eq!(rows[0], LsTreeRow::Line([&b"100644 blob "[..], A, b"\ttop/a.txt"].concat()));
    assert_eq!(rows[1], LsTreeRow::Descend { tree: B.to_vec(), prefix: b"top/src".to_vec() });
    assert_eq!(rows.len(), 4);
    let odd = tree(&[(b"000000", b"odd", A)]);
    assert_eq!(GitRepo::ls_tree(&odd, false, b""), Err(GitError::UnsupportedMode));
}

#[test]
fn tree_is_flattened_to_paths() {
    let t = tree(&[(b"100644", b"a.txt", A), (b"040000", b"src", B)]);
    assert_eq!(
        GitRepo::to_hash_map(&t, b""),
        vec![
            PathEntry { path: b"a.txt".to_vec(), sha: A.to_vec(), is_tree: false },
            PathEntry { path: b"src".to_vec(), sha: B.to_vec(), is_tree: true },
        ]
    );
    assert_eq!(
        GitRepo::to_hash_map(&t, b"src")[0],
        PathEntry { path: b"src/a.txt".to_vec(), sha: A.to_vec(), is_tree: false }
    );
}

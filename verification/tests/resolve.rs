use mygit::commit::GitCommit;
use mygit::error::GitError;
use mygit::git_object::ObjectType;
use mygit::refs::RefFiles;
use mygit::repo::GitRepo;
use mygit::resolve::{name_is_hash, to_lower, Follow};
use mygit::store::{GitObjectFactory, Object};

const FIRST: &[u8] = b"ab12000000000000000000000000000000000001";
const SECOND: &[u8] = b"ab13000000000000000000000000000000000002";
const THIRD: &[u8] = b"ab12ff0000000000000000000000000000000003";

fn listing() -> Vec<Vec<u8>> {
    vec![FIRST[2..].to_vec(), SECOND[2..].to_vec(), THIRD[2..].to_vec()]
}

fn no_refs() -> RefFiles {
    RefFiles { files: Vec::new() }
}

#[test]
fn short_hash_ambiguity() {
    let two = vec![FIRST[2..].to_vec(), SECOND[2..].to_vec()];
    // Three digits are no short hash: the name stands for nothing.
    assert_eq!(GitRepo::obj_find(b"ab1", &two, &no_refs()), Err(GitError::UnknownReference));
    assert_eq!(GitRepo::obj_find(b"ab12", &two, &no_refs()), Ok(FIRST.to_vec()));
    assert_eq!(GitRepo::obj_find(b"ab13", &two, &no_refs()), Ok(SECOND.to_vec()));
    // Four digits that two objects share are ambiguous, and both are listed.
    assert_eq!(
        GitRepo::obj_find(b"ab12", &listing(), &no_refs()),
        Err(GitError::AmbiguousReference(vec![FIRST.to_vec(), THIRD.to_vec()]))
    );
    assert_eq!(GitRepo::obj_find(b"ab12f", &listing(), &no_refs()), Ok(THIRD.to_vec()));
    assert_eq!(GitRepo::obj_find(b"ab120", &listing(), &no_refs()), Ok(FIRST.to_vec()));
}

#[test]
fn short_hash_needs_four_to_forty_digits() {
    assert!(!name_is_hash(b""));
    assert!(!name_is_hash(b"abc"));
    assert!(name_is_hash(b"abcd"));
    assert!(name_is_hash(b"ABCD"));
    assert!(name_is_hash(FIRST));
    assert!(!name_is_hash(b"ab1200000000000000000000000000000000000100"));
    assert!(!name_is_hash(b"abcg"));
    assert!(!name_is_hash(b"HEAD"));
    assert_eq!(GitRepo::short_hash_dir(b"AB12"), Some(b"objects/ab".to_vec()));
    assert_eq!(GitRepo::short_hash_dir(b"ab1"), None);
    assert_eq!(to_lower(b"AbC-Z09"), b"abc-z09".to_vec());
}

#[test]
fn upper_case_digits_find_the_object() {
    assert_eq!(GitRepo::obj_find(b"AB13", &listing(), &no_refs()), Ok(SECOND.to_vec()));
    assert_eq!(GitRepo::obj_find(FIRST, &listing(), &no_refs()), Ok(FIRST.to_vec()));
}

#[test]
fn unknown_names_stand_for_nothing() {
    assert_eq!(GitRepo::obj_find(b"master", &listing(), &no_refs()), Err(GitError::UnknownReference));
    assert_eq!(GitRepo::obj_find(b"HEAD", &listing(), &no_refs()), Err(GitError::UnknownReference));
    assert_eq!(GitRepo::obj_find(b"ab14", &listing(), &no_refs()), Err(GitError::UnknownReference));
    assert_eq!(GitRepo::object_resolve(b"zz", &listing(), &no_refs()), Ok(Vec::new()));
}

#[test]
fn names_of_tags_and_branches_are_resolved() {
    let refs = RefFiles {
        files: vec![
            (b"HEAD".to_vec(), b"ref: refs/heads/master\n".to_vec()),
            (b"refs/heads/master".to_vec(), [FIRST, b"\n"].concat()),
            (b"refs/tags/v1".to_vec(), [SECOND, b"\n"].concat()),
            (b"refs/tags/both".to_vec(), [FIRST, b"\n"].concat()),
            (b"refs/heads/both".to_vec(), [SECOND, b"\n"].concat()),
            (b"refs/tags/same".to_vec(), [THIRD, b"\n"].concat()),
            (b"refs/heads/same".to_vec(), [THIRD, b"\n"].concat()),
            (b"refs/heads/abcd".to_vec(), [FIRST, b"\n"].concat()),
            (b"refs/heads/loop".to_vec(), b"ref: refs/heads/loop\n".to_vec()),
        ],
    };
    let none: Vec<Vec<u8>> = Vec::new();
    assert_eq!(GitRepo::obj_find(b"HEAD", &none, &refs), Ok(FIRST.to_vec()));
    assert_eq!(GitRepo::obj_find(b"master", &none, &refs), Ok(FIRST.to_vec()));
    assert_eq!(GitRepo::obj_find(b"v1", &none, &refs), Ok(SECOND.to_vec()));
    assert_eq!(
        GitRepo::obj_find(b"both", &none, &refs),
        Err(GitError::AmbiguousReference(vec![FIRST.to_vec(), SECOND.to_vec()]))
    );
    // One address found twice is one candidate.
    assert_eq!(GitRepo::obj_find(b"same", &none, &refs), Ok(THIRD.to_vec()));
    // A branch named like a short hash adds to what the hash stands for.
    let other = vec![b"cd000000000000000000000000000000000000".to_vec()];
    assert_eq!(
        GitRepo::object_resolve(b"abcd", &other, &refs),
        Ok(vec![b"abcd000000000000000000000000000000000000".to_vec(), FIRST.to_vec()])
    );
    assert_eq!(GitRepo::obj_find(b"loop", &none, &refs), Err(GitError::UnknownReference));
}

#[test]
fn following_leads_from_tag_to_commit_to_tree() {
    let commit_sha = b"1111111111111111111111111111111111111111";
    let tree_sha = b"2222222222222222222222222222222222222222";
    let tag_sha = b"3333333333333333333333333333333333333333";
    let tag = Object::Tag(GitRepo::create_tag(b"v1", commit_sha, b"T <t@t>", Some(b"msg\n")));
    let commit = GitObjectFactory::new(
        ObjectType::Commit,
        [&b"tree "[..], tree_sha, b"\nauthor A <a@b> 1 +0000\n\nm\n"].concat(),
    )
    .unwrap();
    let blob = GitObjectFactory::new(ObjectType::Blob, b"x".to_vec()).unwrap();

    assert_eq!(
        GitRepo::obj_follow(&tag, tag_sha, ObjectType::Tag, true),
        Ok(Follow::Found(tag_sha.to_vec()))
    );
    assert_eq!(
        GitRepo::obj_follow(&tag, tag_sha, ObjectType::Tree, true),
        Ok(Follow::Next(commit_sha.to_vec()))
    );
    assert_eq!(
        GitRepo::obj_follow(&tag, tag_sha, ObjectType::Commit, false),
        Err(GitError::WrongObjectKind)
    );
    assert_eq!(
        GitRepo::obj_follow(&commit, commit_sha, ObjectType::Tree, true),
        Ok(Follow::Next(tree_sha.to_vec()))
    );
    assert_eq!(
        GitRepo::obj_follow(&commit, commit_sha, ObjectType::Tree, false),
        Ok(Follow::Next(tree_sha.to_vec()))
    );
    assert_eq!(
        GitRepo::obj_follow(&commit, commit_sha, ObjectType::Commit, true),
        Ok(Follow::Found(commit_sha.to_vec()))
    );
    assert_eq!(
        GitRepo::obj_follow(&commit, commit_sha, ObjectType::Blob, true),
        Err(GitError::WrongObjectKind)
    );
    assert_eq!(
        GitRepo::obj_follow(&blob, tree_sha, ObjectType::Tree, true),
        Err(GitError::WrongObjectKind)
    );
    let headless = Object::Commit(GitCommit::new(b"author x\n".to_vec()).unwrap());
    assert_eq!(
        GitRepo::obj_follow(&headless, commit_sha, ObjectType::Tree, true),
        Err(GitError::CorruptObject)
    );
}

#[test]
fn chase_reads_no_address_twice() {
    let own = b"3333333333333333333333333333333333333333";
    let other = b"1111111111111111111111111111111111111111";
    let tag = Object::Tag(GitRepo::create_tag(b"v1", other, b"T <t@t>", None));
    let mut visited = Vec::new();
    assert_eq!(
        GitRepo::obj_chase(&tag, own, ObjectType::Commit, true, &mut visited),
        Ok(Follow::Next(other.to_vec()))
    );
    assert_eq!(visited, vec![own.to_vec()]);
    // The object read at the next address leads back to the first.
    let back = Object::Tag(GitRepo::create_tag(b"v2", own, b"T <t@t>", None));
    assert_eq!(
        GitRepo::obj_chase(&back, other, ObjectType::Commit, true, &mut visited),
        Err(GitError::CorruptObject)
    );
    assert_eq!(visited, vec![own.to_vec(), other.to_vec()]);
    // A tag that names its own address.
    let mut fresh = Vec::new();
    assert_eq!(
        GitRepo::obj_chase(&tag, other, ObjectType::Commit, true, &mut fresh),
        Err(GitError::CorruptObject)
    );
    assert_eq!(
        GitRepo::obj_chase(&tag, other, ObjectType::Tag, true, &mut fresh),
        Ok(Follow::Found(other.to_vec()))
    );
}

#[test]
fn cat_file_wants_the_kind() {
    let blob = GitObjectFactory::new(ObjectType::Blob, b"content".to_vec()).unwrap();
    assert_eq!(GitRepo::cat_file(&blob, ObjectType::Blob), Ok(b"content".to_vec()));
    assert_eq!(GitRepo::cat_file(&blob, ObjectType::Tree), Err(GitError::WrongObjectKind));
}

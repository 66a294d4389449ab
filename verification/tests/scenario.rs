use mygit::blob::GitBlob;
use mygit::error::GitError;
use mygit::git_object::{GitObject, ObjectType};
use mygit::log::LogWalk;
use mygit::refs::RefFiles;
use mygit::repo::GitRepo;
use mygit::resolve::Follow;
use mygit::store::{GitObjectFactory, Object};
use mygit::tree::GitTree;
use mygit::tree_leaf::GitTreeLeaf;
use mygit::worktree::CheckoutStep;
use std::collections::BTreeMap;

/// A store in memory: what would be the files below `objects`.
struct Store {
    files: BTreeMap<Vec<u8>, Vec<u8>>,
}

impl Store {
    fn write(&mut self, object: &Object) -> Vec<u8> {
        let stored = GitRepo::object_write(object).unwrap();
        self.files.entry(stored.path).or_insert(stored.bytes);
        stored.address
    }

    fn read(&self, sha: &[u8]) -> Result<Object, GitError> {
        let path = GitRepo::object_path(sha).ok_or(GitError::ObjectNotFound)?;
        let bytes = self.files.get(&path).ok_or(GitError::ObjectNotFound)?;
        GitRepo::object_read(bytes)
    }

    fn listing(&self, name: &[u8]) -> Vec<Vec<u8>> {
        match GitRepo::short_hash_dir(name) {
            Some(mut dir) => {
                dir.push(b'/');
                self.files
                    .keys()
                    .filter(|path| path.starts_with(&dir))
                    .map(|path| path[dir.len()..].to_vec())
                    .collect()
            }
            None => Vec::new(),
        }
    }

    fn find(&self, refs: &RefFiles, name: &[u8], fmt: ObjectType) -> Result<Vec<u8>, GitError> {
        let mut sha = GitRepo::obj_find(name, &self.listing(name), refs)?;
        let mut visited = Vec::new();
        loop {
            match GitRepo::obj_chase(&self.read(&sha)?, &sha, fmt, true, &mut visited)? {
                Follow::Found(at) => return Ok(at),
                Follow::Next(at) => sha = at,
            }
        }
    }

    fn checkout(&self, tree: &GitTree, dest: &[u8], out: &mut Vec<(Vec<u8>, Vec<u8>)>) {
        for step in GitRepo::tree_checkout(tree, dest).unwrap() {
            let (path, sha) = match &step {
                CheckoutStep::MakeDir { path, tree } => (path.clone(), tree.clone()),
                CheckoutStep::WriteFile { path, blob } => (path.clone(), blob.clone()),
            };
            let object = self.read(&sha).unwrap();
            match (GitRepo::checkout_content(&step, &object).unwrap(), object) {
                (Some(content), _) => out.push((path, content)),
                (None, Object::Tree(below)) => self.checkout(&below, &path, out),
                (None, _) => panic!("a directory step needs a tree"),
            }
        }
    }
}

fn commit(tree: &[u8], parents: &[&[u8]], stamp: u32, message: &str) -> Object {
    let mut raw = [b"tree ", tree, b"\n"].concat();
    for parent in parents {
        raw.extend_from_slice(&[b"parent ", *parent, b"\n"].concat());
    }
    raw.extend_from_slice(format!("author A <a@b> {} +0000\n\n{}\n", stamp, message).as_bytes());
    GitObjectFactory::new(ObjectType::Commit, raw).unwrap()
}

#[test]
fn small_repository_from_blobs_to_history() {
    let mut store = Store { files: BTreeMap::new() };
    let hello = store.write(&Object::Blob(GitBlob::new(b"hello".to_vec())));
    let again = store.write(&Object::Blob(GitBlob::new(b"hello".to_vec())));
    assert_eq!(hello, again);
    assert_eq!(store.files.len(), 1);
    let main = store.write(&Object::Blob(GitBlob::new(b"fn main() {}\n".to_vec())));

    let src = store.write(&Object::Tree(GitTree::new(
        Vec::new(),
        vec![GitTreeLeaf::new(main.clone(), b"main.rs".to_vec(), b"100644".to_vec())],
    )));
    let root = store.write(&Object::Tree(GitTree::new(
        Vec::new(),
        vec![
            GitTreeLeaf::new(src.clone(), b"src".to_vec(), b"40000".to_vec()),
            GitTreeLeaf::new(hello.clone(), b"README".to_vec(), b"100644".to_vec()),
        ],
    )));

    let first = store.write(&commit(&root, &[], 1000, "first"));
    let second = store.write(&commit(&root, &[&first], 2000, "second\n\nwith a body"));
    let tag = store.write(&Object::Tag(GitRepo::create_tag(b"v1", &second, b"T <t@t>", Some(b"one\n"))));

    let refs = RefFiles {
        files: vec![
            (b"HEAD".to_vec(), b"ref: refs/heads/master\n".to_vec()),
            (b"refs/heads/master".to_vec(), GitRepo::ref_create(&second)),
            (GitRepo::tag_ref(b"v1"), GitRepo::ref_create(&tag)),
        ],
    };

    // Names lead to the objects, and a tag leads through its commit to the tree.
    assert_eq!(store.find(&refs, b"HEAD", ObjectType::Commit), Ok(second.clone()));
    assert_eq!(store.find(&refs, b"master", ObjectType::Tree), Ok(root.clone()));
    assert_eq!(store.find(&refs, b"v1", ObjectType::Tag), Ok(tag.clone()));
    assert_eq!(store.find(&refs, b"v1", ObjectType::Commit), Ok(second.clone()));
    assert_eq!(store.find(&refs, b"v1", ObjectType::Tree), Ok(root.clone()));
    assert_eq!(store.find(&refs, &first[..7], ObjectType::Commit), Ok(first.clone()));
    assert_eq!(store.find(&refs, b"v1", ObjectType::Blob), Err(GitError::WrongObjectKind));
    assert_eq!(store.find(&refs, b"nothing", ObjectType::Blob), Err(GitError::UnknownReference));
    assert_eq!(
        GitRepo::ref_list(&refs, b"refs/").unwrap(),
        vec![(b"refs/heads/master".to_vec(), second.clone()), (b"refs/tags/v1".to_vec(), tag)]
    );

    // The tree is put out as files.
    let tree = match store.read(&root).unwrap() {
        Object::Tree(tree) => tree,
        _ => panic!("the root is a tree"),
    };
    let mut files = Vec::new();
    store.checkout(&tree, b"/dest", &mut files);
    assert_eq!(
        files,
        vec![
            (b"/dest/README".to_vec(), b"hello".to_vec()),
            (b"/dest/src/main.rs".to_vec(), b"fn main() {}\n".to_vec()),
        ]
    );

    // The history is walked from the newest commit.
    let mut walk = LogWalk::new(second.clone());
    let mut text = Vec::new();
    while let Some(sha) = walk.next() {
        let commit = match store.read(&sha) {
            Ok(Object::Commit(commit)) if !walk.was_seen(&sha) => Some(commit),
            _ => None,
        };
        GitRepo::log(&sha, commit.as_ref(), &mut walk, &mut text);
    }
    let expected = format!(
        "commit: {}\nAuthor: A <a@b>\nDate:   Thu Jan 01 00:33:20 1970 +0000\n\n   second\n\n\
commit: {}\nAuthor: A <a@b>\nDate:   Thu Jan 01 00:16:40 1970 +0000\n\n   first\n\n",
        String::from_utf8(second).unwrap(),
        String::from_utf8(first).unwrap()
    );
    assert_eq!(String::from_utf8(text).unwrap(), expected);

    // What is read is what was written.
    let read = store.read(&root).unwrap();
    assert_eq!(GitRepo::object_hash(&read), Ok(root));
    assert_eq!(read.format(), b"tree".to_vec());
}

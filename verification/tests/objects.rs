use mygit::blob::GitBlob;
use mygit::error::GitError;
use mygit::git_object::{GitObject, ObjectType};
use mygit::repo::GitRepo;
use mygit::store::{object_frame, object_parse, object_unframe, GitObjectFactory, Object};
use mygit::tree::GitTree;
use mygit::tree_leaf::GitTreeLeaf;

fn sha(first: u8) -> Vec<u8> {
    let mut hex = vec![b'0'; 40];
    hex[0] = first;
    hex
}

#[test]
fn hello_blob_has_the_known_address() {
    let object = Object::Blob(GitBlob::new(b"hello".to_vec()));
    let stored = GitRepo::object_write(&object).unwrap();
    assert_eq!(stored.address, b"b6fc4c620b67d95f953a5c1c1230aaab5db5a1b0".to_vec());
    assert_eq!(stored.path, b"objects/b6/fc4c620b67d95f953a5c1c1230aaab5db5a1b0".to_vec());
    let inflated = zune_inflate::DeflateDecoder::new(&stored.bytes).decode_zlib().unwrap();
    assert_eq!(inflated, b"blob 5\0hello".to_vec());
    let back = GitRepo::object_read(&stored.bytes).unwrap();
    assert_eq!(back.format(), b"blob".to_vec());
    assert_eq!(back.data(), b"hello".to_vec());
    assert_eq!(object_frame(ObjectType::Blob, b"hello"), b"blob 5\0hello".to_vec());
}

#[test]
fn hash_obj_gives_the_address_without_storing() {
    let address = GitRepo::hash_obj(b"hello".to_vec(), ObjectType::Blob).unwrap();
    assert_eq!(address, b"b6fc4c620b67d95f953a5c1c1230aaab5db5a1b0".to_vec());
    let again = GitRepo::hash_obj(b"hello".to_vec(), ObjectType::Blob).unwrap();
    assert_eq!(address, again);
    let other = GitRepo::hash_obj(b"hello!".to_vec(), ObjectType::Blob).unwrap();
    assert_ne!(address, other);
}

#[test]
fn empty_tree_has_the_known_address() {
    let tree = Object::Tree(GitTree::new(Vec::new(), Vec::new()));
    let address = GitRepo::object_hash(&tree).unwrap();
    assert_eq!(address, b"4b825dc642cb6eb9a060e54bf8d69288fbee4904".to_vec());
}

#[test]
fn stored_object_is_read_back() {
    let payload = b"tree 29ff16c9c14e2652b22f8b78bb08a5a07930c147\nauthor A <a@b> 1 +0000\n\nmsg\n";
    let object = GitObjectFactory::new(ObjectType::Commit, payload.to_vec()).unwrap();
    let stored = GitRepo::object_write(&object).unwrap();
    let back = GitRepo::object_read(&stored.bytes).unwrap();
    assert_eq!(back.format(), b"commit".to_vec());
    assert_eq!(back.data(), payload.to_vec());
    assert_eq!(GitRepo::cat_file(&back, ObjectType::Commit), Ok(payload.to_vec()));
    assert_eq!(back.serialize().unwrap(), payload.to_vec());
    assert_eq!(GitRepo::object_hash(&back).unwrap(), stored.address);
}

#[test]
fn garbage_in_the_store_is_corrupt() {
    assert!(matches!(GitRepo::object_read(b"not zlib at all"), Err(GitError::CorruptObject)));
    assert!(matches!(GitRepo::object_read(b""), Err(GitError::CorruptObject)));
}

#[test]
fn bad_frame_is_corrupt() {
    assert!(matches!(object_parse(b"blob 6\0hello"), Err(GitError::CorruptObject)));
    assert!(matches!(object_parse(b"blob 4\0hello"), Err(GitError::CorruptObject)));
    assert!(matches!(object_parse(b"blub 5\0hello"), Err(GitError::CorruptObject)));
    assert!(matches!(object_parse(b"blob5\0hello"), Err(GitError::CorruptObject)));
    assert!(matches!(object_parse(b"blob 5hello"), Err(GitError::CorruptObject)));
    assert!(matches!(object_parse(b"blob \0"), Err(GitError::CorruptObject)));
    assert!(matches!(object_parse(b"blob x\0h"), Err(GitError::CorruptObject)));
    assert!(matches!(object_parse(b""), Err(GitError::CorruptObject)));
}

#[test]
fn frame_is_taken_apart() {
    let (kind, payload) = object_unframe(b"tag 0\0").unwrap();
    assert_eq!(kind, ObjectType::Tag);
    assert_eq!(payload, Vec::<u8>::new());
    let (kind, payload) = object_unframe(b"blob 11\0hello world").unwrap();
    assert_eq!(kind, ObjectType::Blob);
    assert_eq!(payload, b"hello world".to_vec());
    let big = vec![7u8; 1234];
    let framed = object_frame(ObjectType::Blob, &big);
    assert_eq!(&framed[..10], b"blob 1234\0");
    assert_eq!(object_unframe(&framed).unwrap().1, big);
}

#[test]
fn object_kinds_have_their_names() {
    assert_eq!(ObjectType::Blob.as_iter(), b"blob");
    assert_eq!(ObjectType::Tree.as_iter(), b"tree");
    assert_eq!(ObjectType::Commit.as_iter(), b"commit");
    assert_eq!(ObjectType::Tag.as_iter(), b"tag");
    assert_eq!(ObjectType::Commit.to_string(), "commit".to_string());
    assert_eq!(ObjectType::from_str("tree"), Some(ObjectType::Tree));
    assert_eq!(ObjectType::from_str("trees"), None);
    assert_eq!(ObjectType::from_bytes(b"tag"), Some(ObjectType::Tag));
    assert_eq!(ObjectType::from_bytes(b""), None);
}

#[test]
fn tree_is_read_entry_by_entry() {
    let mut raw = Vec::new();
    raw.extend_from_slice(b"100644 a.txt\0");
    raw.extend_from_slice(&[0x11; 20]);
    raw.extend_from_slice(b"40000 dir\0");
    raw.extend_from_slice(&[0xab; 20]);
    let tree = GitTree::from_raw(&raw).unwrap();
    assert_eq!(tree.len(), 2);
    let first = tree.leaf(0).unwrap();
    assert_eq!(first.mode, b"100644".to_vec());
    assert_eq!(first.path, b"a.txt".to_vec());
    assert_eq!(first.sha, b"1111111111111111111111111111111111111111".to_vec());
    let second = tree.leaf(1).unwrap();
    assert_eq!(second.mode, b"040000".to_vec());
    assert_eq!(second.path, b"dir".to_vec());
    assert_eq!(second.sha, b"abababababababababababababababababababab".to_vec());
    assert!(tree.leaf(2).is_none());
    assert_eq!(tree.data(), raw);
}

#[test]
fn leaf_is_read_from_a_position() {
    let mut raw = b"xx100755 run\0".to_vec();
    raw.extend_from_slice(&[0xff; 20]);
    raw.extend_from_slice(b"rest");
    let (next, leaf) = GitTreeLeaf::new_from_raw(&raw, Some(2)).unwrap();
    assert_eq!(next, raw.len() - 4);
    assert_eq!(leaf.mode, b"100755".to_vec());
    assert_eq!(leaf.path, b"run".to_vec());
    assert_eq!(leaf.sha, b"ffffffffffffffffffffffffffffffffffffffff".to_vec());
    assert!(GitTreeLeaf::new_from_raw(&raw, None).is_none());
    assert!(GitTreeLeaf::new_from_raw(&raw, Some(raw.len() + 1)).is_none());
    assert!(GitTreeLeaf::new_from_raw(&raw, Some(raw.len())).is_none());
}

#[test]
fn bad_tree_entries_are_corrupt() {
    let mut short = b"100644 a\0".to_vec();
    short.extend_from_slice(&[1; 19]);
    assert!(matches!(GitTree::from_raw(&short), Err(GitError::CorruptObject)));
    let mut bad_mode = b"10064x a\0".to_vec();
    bad_mode.extend_from_slice(&[1; 20]);
    assert!(matches!(GitTree::from_raw(&bad_mode), Err(GitError::CorruptObject)));
    let mut long_mode = b"1006440 a\0".to_vec();
    long_mode.extend_from_slice(&[1; 20]);
    assert!(matches!(GitTree::from_raw(&long_mode), Err(GitError::CorruptObject)));
    let mut no_name = b"100644 \0".to_vec();
    no_name.extend_from_slice(&[1; 20]);
    assert!(matches!(GitTree::from_raw(&no_name), Err(GitError::CorruptObject)));
    let mut slash = b"100644 a/b\0".to_vec();
    slash.extend_from_slice(&[1; 20]);
    assert!(matches!(GitTree::from_raw(&slash), Err(GitError::CorruptObject)));
    assert!(matches!(GitTree::from_raw(b"100644"), Err(GitError::CorruptObject)));
    assert!(matches!(GitTree::from_raw(b"100644 name"), Err(GitError::CorruptObject)));
}

#[test]
fn sort_key_of_a_directory_ends_in_a_slash() {
    let file = GitTreeLeaf::new(sha(b'1'), b"foo".to_vec(), b"100644".to_vec());
    let dir = GitTreeLeaf::new(sha(b'2'), b"foo".to_vec(), b"040000".to_vec());
    let short_dir = GitTreeLeaf::new(sha(b'2'), b"foo".to_vec(), b"40000".to_vec());
    let link = GitTreeLeaf::new(sha(b'3'), b"foo".to_vec(), b"120000".to_vec());
    assert_eq!(file.sort_keys(), b"foo".to_vec());
    assert_eq!(dir.sort_keys(), b"foo/".to_vec());
    assert_eq!(short_dir.sort_keys(), b"foo/".to_vec());
    assert_eq!(link.sort_keys(), b"foo".to_vec());
}

#[test]
fn tree_is_written_in_canonical_order() {
    let leaves = vec![
        GitTreeLeaf::new(sha(b'a'), b"foo".to_vec(), b"40000".to_vec()),
        GitTreeLeaf::new(sha(b'b'), b"foo.c".to_vec(), b"100644".to_vec()),
        GitTreeLeaf::new(sha(b'c'), b"bar".to_vec(), b"100644".to_vec()),
        GitTreeLeaf::new(sha(b'd'), b"foo-bar".to_vec(), b"100755".to_vec()),
    ];
    let tree = GitTree::new(Vec::new(), leaves);
    let bytes = tree.serialize().unwrap();
    let mut expected = Vec::new();
    for (mode, name, first) in [
        (&b"100644"[..], &b"bar"[..], 0xc0u8),
        (&b"100755"[..], &b"foo-bar"[..], 0xd0u8),
        (&b"100644"[..], &b"foo.c"[..], 0xb0u8),
        (&b"040000"[..], &b"foo"[..], 0xa0u8),
    ] {
        expected.extend_from_slice(mode);
        expected.push(b' ');
        expected.extend_from_slice(name);
        expected.push(0);
        expected.push(first);
        expected.extend_from_slice(&[0; 19]);
    }
    assert_eq!(bytes, expected);
    let back = GitTree::from_raw(&bytes).unwrap();
    assert_eq!(back.len(), 4);
    assert_eq!(back.leaf(3).unwrap().path, b"foo".to_vec());
    assert_eq!(back.leaf(3).unwrap().mode, b"040000".to_vec());
    assert_eq!(back.serialize().unwrap(), bytes);
    assert_eq!(
        GitRepo::object_hash(&Object::Tree(back)).unwrap(),
        GitRepo::object_hash(&Object::Tree(tree)).unwrap()
    );
}

#[test]
fn entries_of_one_key_keep_their_order() {
    let leaves = vec![
        GitTreeLeaf::new(sha(b'2'), b"same".to_vec(), b"100644".to_vec()),
        GitTreeLeaf::new(sha(b'1'), b"same".to_vec(), b"100644".to_vec()),
    ];
    let bytes = GitTree::new(Vec::new(), leaves).serialize().unwrap();
    let back = GitTree::from_raw(&bytes).unwrap();
    assert_eq!(back.leaf(0).unwrap().sha[0], b'2');
    assert_eq!(back.leaf(1).unwrap().sha[0], b'1');
}

#[test]
fn tree_with_a_bad_entry_is_not_written() {
    let upper = GitTreeLeaf::new(
        b"ABCDEF0000000000000000000000000000000000".to_vec(),
        b"a".to_vec(),
        b"100644".to_vec(),
    );
    assert!(matches!(
        GitTree::new(Vec::new(), vec![upper]).serialize(),
        Err(GitError::CorruptObject)
    ));
    let short = GitTreeLeaf::new(b"abc".to_vec(), b"a".to_vec(), b"100644".to_vec());
    assert!(matches!(
        GitTree::new(Vec::new(), vec![short]).serialize(),
        Err(GitError::CorruptObject)
    ));
    let nameless = GitTreeLeaf::new(sha(b'1'), Vec::new(), b"100644".to_vec());
    assert!(matches!(
        GitTree::new(Vec::new(), vec![nameless]).serialize(),
        Err(GitError::CorruptObject)
    ));
    let modeless = GitTreeLeaf::new(sha(b'1'), b"a".to_vec(), b"rw-r--".to_vec());
    let object = Object::Tree(GitTree::new(Vec::new(), vec![modeless]));
    assert!(matches!(GitRepo::object_write(&object), Err(GitError::CorruptObject)));
    assert!(matches!(GitRepo::object_hash(&object), Err(GitError::CorruptObject)));
}

#[test]
fn factory_reads_each_kind() {
    let blob = GitObjectFactory::new(ObjectType::Blob, vec![0, 159, 146, 150]).unwrap();
    assert_eq!(blob.serialize().unwrap(), vec![0, 159, 146, 150]);
    assert_eq!(blob.deserialize(), vec![0, 159, 146, 150]);
    assert_eq!(blob.object_type(), ObjectType::Blob);
    let tag = GitObjectFactory::new(ObjectType::Tag, Vec::new()).unwrap();
    assert_eq!(tag.format(), b"tag".to_vec());
    assert_eq!(tag.serialize().unwrap(), Vec::<u8>::new());
    assert!(matches!(
        GitObjectFactory::new(ObjectType::Tree, b"junk".to_vec()),
        Err(GitError::CorruptObject)
    ));
    assert!(matches!(
        GitObjectFactory::new(ObjectType::Commit, b"junk".to_vec()),
        Err(GitError::CorruptObject)
    ));
    assert!(matches!(
        GitObjectFactory::new(ObjectType::Tag, b"junk".to_vec()),
        Err(GitError::CorruptObject)
    ));
}

#[test]
fn object_path_needs_an_address() {
    assert_eq!(
        GitRepo::object_path(b"b6fc4c620b67d95f953a5c1c1230aaab5db5a1b0").unwrap(),
        b"objects/b6/fc4c620b67d95f953a5c1c1230aaab5db5a1b0".to_vec()
    );
    assert!(GitRepo::object_path(b"b6fc").is_none());
    assert!(GitRepo::object_path(b"B6FC4C620B67D95F953A5C1C1230AAAB5DB5A1B0").is_none());
}

#[test]
fn error_kinds_have_names() {
    assert_eq!(GitError::CorruptObject.name(), "corrupt object");
    assert_eq!(GitError::AmbiguousReference(Vec::new()).name(), "ambiguous reference");
    assert_eq!(GitError::MustBeRelative.name(), "path must be relative");
}

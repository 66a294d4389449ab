use mygit::commit::GitCommit;
use mygit::error::GitError;
use mygit::git_object::GitObject;
use mygit::kvlm::{kvlm_parse, kvlm_serialize, Kvlm};
use mygit::tag::GitTag;

const COMMIT: &[u8] = b"tree 29ff16c9c14e2652b22f8b78bb08a5a07930c147\n\
parent 206941306e8a8af65b66eaaaea388a7ae24d49a0\n\
author A <a@b> 1527025023 +0200\n\
committer A <a@b> 1527025044 +0200\n\
\n\
Create first draft";

#[test]
fn commit_round_trip_is_byte_identical() {
    let commit = GitCommit::new(COMMIT.to_vec()).unwrap();
    assert_eq!(commit.kvlm.get(b"tree").unwrap().len(), 1);
    assert_eq!(commit.kvlm.get(b"parent").unwrap().len(), 1);
    assert_eq!(
        commit.kvlm.first(b"tree").unwrap(),
        &b"29ff16c9c14e2652b22f8b78bb08a5a07930c147".to_vec()
    );
    assert_eq!(commit.kvlm.message().unwrap(), &b"Create first draft".to_vec());
    assert_eq!(commit.serialize().unwrap(), COMMIT.to_vec());
    assert_eq!(commit.data(), COMMIT.to_vec());
    assert_eq!(commit.format(), b"commit".to_vec());
}

#[test]
fn keys_come_in_the_order_of_their_first_line() {
    let kvlm = kvlm_parse(COMMIT).unwrap();
    assert_eq!(kvlm.len(), 4);
    assert_eq!(kvlm.entry(0).unwrap().0, &b"tree".to_vec());
    assert_eq!(kvlm.entry(1).unwrap().0, &b"parent".to_vec());
    assert_eq!(kvlm.entry(2).unwrap().0, &b"author".to_vec());
    assert_eq!(kvlm.entry(3).unwrap().0, &b"committer".to_vec());
    assert!(kvlm.entry(4).is_none());
    assert!(kvlm.get(b"gpgsig").is_none());
    assert!(kvlm.first(b"gpgsig").is_none());
}

#[test]
fn repeated_keys_keep_their_values_in_order() {
    let raw = b"tree t\nparent one\nparent two\nparent three\n\nmerge\n";
    let kvlm = kvlm_parse(raw).unwrap();
    let parents = kvlm.get(b"parent").unwrap();
    assert_eq!(parents, &vec![b"one".to_vec(), b"two".to_vec(), b"three".to_vec()]);
    assert_eq!(kvlm.message().unwrap(), &b"merge\n".to_vec());
    assert_eq!(kvlm_serialize(&kvlm), raw.to_vec());
}

#[test]
fn repeated_key_behind_another_joins_its_first_line() {
    let kvlm = kvlm_parse(b"a 1\nb 2\na 3\n").unwrap();
    assert_eq!(kvlm.len(), 2);
    assert_eq!(kvlm.get(b"a").unwrap(), &vec![b"1".to_vec(), b"3".to_vec()]);
    assert_eq!(kvlm_serialize(&kvlm), b"a 1\na 3\nb 2\n".to_vec());
}

#[test]
fn folded_value_round_trips() {
    let raw = b"tree t\ngpgsig -----BEGIN\n \n line two\n -----END\nauthor x\n\nmessage\n";
    let kvlm = kvlm_parse(raw).unwrap();
    assert_eq!(
        kvlm.first(b"gpgsig").unwrap(),
        &b"-----BEGIN\n\nline two\n-----END".to_vec()
    );
    assert_eq!(kvlm_serialize(&kvlm), raw.to_vec());
}

#[test]
fn value_with_newlines_is_folded_and_read_back() {
    let mut kvlm = Kvlm::new();
    kvlm.push(b"key".to_vec(), b"one\ntwo\n\nthree\n".to_vec());
    kvlm.push(b"other".to_vec(), b" leading space".to_vec());
    kvlm.set_message(Some(b"\nbody\n".to_vec()));
    let bytes = kvlm_serialize(&kvlm);
    assert_eq!(
        bytes,
        b"key one\n two\n \n three\n \nother  leading space\n\n\nbody\n".to_vec()
    );
    let back = kvlm_parse(&bytes).unwrap();
    assert_eq!(back.first(b"key").unwrap(), &b"one\ntwo\n\nthree\n".to_vec());
    assert_eq!(back.first(b"other").unwrap(), &b" leading space".to_vec());
    assert_eq!(back.message().unwrap(), &b"\nbody\n".to_vec());
    assert_eq!(kvlm_serialize(&back), bytes);
}

#[test]
fn message_may_be_empty_or_missing() {
    let with_empty = kvlm_parse(b"k v\n\n").unwrap();
    assert_eq!(with_empty.message().unwrap(), &Vec::<u8>::new());
    assert_eq!(kvlm_serialize(&with_empty), b"k v\n\n".to_vec());
    let without = kvlm_parse(b"k v\n").unwrap();
    assert!(without.message().is_none());
    assert_eq!(kvlm_serialize(&without), b"k v\n".to_vec());
    let nothing = kvlm_parse(b"").unwrap();
    assert_eq!(nothing.len(), 0);
    assert!(nothing.message().is_none());
    let only_message = kvlm_parse(b"\njust text").unwrap();
    assert_eq!(only_message.len(), 0);
    assert_eq!(only_message.message().unwrap(), &b"just text".to_vec());
}

#[test]
fn malformed_headers_are_corrupt() {
    assert!(matches!(kvlm_parse(b"key value"), Err(GitError::CorruptObject)));
    assert!(matches!(kvlm_parse(b"key value\n more"), Err(GitError::CorruptObject)));
    assert!(matches!(kvlm_parse(b"keyonly\n\nmsg"), Err(GitError::CorruptObject)));
    assert!(matches!(kvlm_parse(b" value\n"), Err(GitError::CorruptObject)));
    assert!(matches!(kvlm_parse(b"k v\nnospace"), Err(GitError::CorruptObject)));
    assert!(matches!(GitCommit::new(b"junk".to_vec()), Err(GitError::CorruptObject)));
    assert!(matches!(GitTag::new(b"junk".to_vec()), Err(GitError::CorruptObject)));
}

#[test]
fn empty_tag_has_no_headers() {
    let tag = GitTag::new(Vec::new()).unwrap();
    assert_eq!(tag.kvlm.len(), 0);
    assert_eq!(tag.serialize().unwrap(), Vec::<u8>::new());
    assert_eq!(tag.format(), b"tag".to_vec());
}

#[test]
fn clone_keeps_the_document() {
    let kvlm = kvlm_parse(COMMIT).unwrap();
    let copy = kvlm.clone();
    assert_eq!(kvlm_serialize(&copy), COMMIT.to_vec());
}

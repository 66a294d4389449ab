use mygit::commit::GitCommit;
use mygit::log::{parse_author, Author, LogRecord, LogWalk};
use mygit::repo::GitRepo;

const SHA: &[u8] = b"1111111111111111111111111111111111111111";

#[test]
fn author_header_is_taken_apart() {
    let author = parse_author(b"A U Thor <a@b> 1527025023 +0200").unwrap();
    assert_eq!(author.identity, b"A U Thor <a@b>".to_vec());
    assert_eq!(author.timestamp, 1527025023);
    assert_eq!(author.offset, 7200);
    assert_eq!(parse_author(b"A <a@b> 0 -0330").unwrap().offset, -(3 * 3600 + 30 * 60));
    assert_eq!(parse_author(b"A <a@b> 0 +0000").unwrap().offset, 0);
    assert_eq!(parse_author(b"A <a@b> 0 530").unwrap().offset, 5 * 3600 + 30 * 60);
    assert_eq!(parse_author(b"A <a@b> 0 +2400").unwrap().offset, 0);
    assert_eq!(parse_author(b"A <a@b> 0 -9900").unwrap().offset, 0);
    assert_eq!(
        parse_author(b"A 9223372036854775807 +0000").unwrap().timestamp,
        9223372036854775807
    );
    assert!(parse_author(b"A 9223372036854775808 +0000").is_none());
    assert!(parse_author(b"A <a@b> now +0200").is_none());
    assert!(parse_author(b"A <a@b> 1 east").is_none());
    assert!(parse_author(b"A <a@b> 1 +").is_none());
    assert!(parse_author(b"A <a@b> 1 +1234567").is_none());
    assert!(parse_author(b"1 +0200").is_none());
    assert!(parse_author(b"").is_none());
    assert!(parse_author(b"A <a@b> 1 ").is_none());
}

#[test]
fn record_has_author_and_first_line() {
    let commit = GitCommit::new(
        b"tree t\nauthor A <a@b> 1527025023 +0200\n\nCreate first draft\n\nMore text.\n".to_vec(),
    )
    .unwrap();
    let record = GitRepo::log_record(SHA, &commit);
    assert_eq!(
        record,
        LogRecord {
            sha: SHA.to_vec(),
            author: Some(Author {
                identity: b"A <a@b>".to_vec(),
                timestamp: 1527025023,
                offset: 7200
            }),
            message: b"Create first draft".to_vec(),
        }
    );
    let date = GitRepo::log_date(&record).unwrap();
    assert_eq!(date, b"Tue May 22 23:37:03 2018 +0200".to_vec());
    let text = GitRepo::log_entry(&record, Some(&date));
    assert_eq!(
        text,
        b"commit: 1111111111111111111111111111111111111111\n\
Author: A <a@b>\n\
Date:   Tue May 22 23:37:03 2018 +0200\n\
\n   Create first draft\n\n"
            .to_vec()
    );
}

#[test]
fn record_without_author_or_message() {
    let commit = GitCommit::new(b"tree t\n".to_vec()).unwrap();
    let record = GitRepo::log_record(SHA, &commit);
    assert_eq!(record.author, None);
    assert_eq!(record.message, Vec::<u8>::new());
    assert_eq!(GitRepo::log_date(&record), None);
    assert_eq!(
        GitRepo::log_entry(&record, None),
        b"commit: 1111111111111111111111111111111111111111\n   \n\n".to_vec()
    );
    let broken = GitCommit::new(b"author nobody\n\nline\n".to_vec()).unwrap();
    let record = GitRepo::log_record(SHA, &broken);
    assert_eq!(record.author, None);
    assert_eq!(record.message, b"line".to_vec());
}

#[test]
fn date_of_the_epoch_in_another_zone() {
    let record = LogRecord {
        sha: SHA.to_vec(),
        author: Some(Author { identity: b"A".to_vec(), timestamp: 0, offset: -3600 }),
        message: Vec::new(),
    };
    assert_eq!(GitRepo::log_date(&record).unwrap(), b"Wed Dec 31 23:00:00 1969 -0100".to_vec());
    let far = LogRecord {
        sha: SHA.to_vec(),
        author: Some(Author { identity: b"A".to_vec(), timestamp: i64::MAX, offset: 0 }),
        message: Vec::new(),
    };
    assert_eq!(GitRepo::log_date(&far), None);
}

fn commit_with_parents(parents: &[&[u8]]) -> GitCommit {
    let mut raw = b"tree t\n".to_vec();
    for parent in parents {
        raw.extend_from_slice(b"parent ");
        raw.extend_from_slice(parent);
        raw.push(b'\n');
    }
    raw.extend_from_slice(b"\nm\n");
    GitCommit::new(raw).unwrap()
}

/// Walks from `start` through commits given by address with their parents;
/// an address that is not given cannot be read.
fn walk(start: &[u8], commits: &[(&[u8], &[&[u8]])]) -> (Vec<Vec<u8>>, Vec<u8>) {
    let mut walk = LogWalk::new(start.to_vec());
    let mut text = Vec::new();
    let mut read = Vec::new();
    while let Some(sha) = walk.next() {
        let commit = if walk.was_seen(&sha) {
            None
        } else {
            read.push(sha.clone());
            commits.iter().find(|(at, _)| *at == &sha[..]).map(|(_, ps)| commit_with_parents(ps))
        };
        GitRepo::log(&sha, commit.as_ref(), &mut walk, &mut text);
    }
    (read, text)
}

#[test]
fn walk_visits_each_commit_once_first_parent_first() {
    //      m
    //     / \
    //    a   b
    //     \ /
    //      r
    let (read, text) = walk(
        b"m",
        &[(b"m", &[b"a", b"b"]), (b"a", &[b"r"]), (b"b", &[b"r"]), (b"r", &[])],
    );
    assert_eq!(read, vec![b"m".to_vec(), b"a".to_vec(), b"r".to_vec(), b"b".to_vec()]);
    assert_eq!(
        text,
        b"commit: m\n   m\n\ncommit: a\n   m\n\ncommit: r\n   m\n\ncommit: b\n   m\n\n".to_vec()
    );
}

#[test]
fn walk_ends_on_a_cycle_and_goes_on_past_a_missing_parent() {
    let (read, text) = walk(b"x", &[(b"x", &[b"gone", b"y"]), (b"y", &[b"x", b"y"])]);
    assert_eq!(read, vec![b"x".to_vec(), b"gone".to_vec(), b"y".to_vec()]);
    assert_eq!(text, b"commit: x\n   m\n\ncommit: y\n   m\n\n".to_vec());
}

#[test]
fn log_of_an_address_that_was_taken_in_changes_nothing() {
    let commit = commit_with_parents(&[b"p"]);
    let mut walk = LogWalk::new(b"aa".to_vec());
    let mut text = b"x".to_vec();
    assert_eq!(walk.next(), Some(b"aa".to_vec()));
    assert!(!walk.was_seen(b"aa"));
    GitRepo::log(b"aa", Some(&commit), &mut walk, &mut text);
    assert!(walk.was_seen(b"aa"));
    assert_eq!(text, b"xcommit: aa\n   m\n\n".to_vec());
    let before = walk.clone();
    GitRepo::log(b"aa", Some(&commit), &mut walk, &mut text);
    assert_eq!(walk, before);
    assert_eq!(text, b"xcommit: aa\n   m\n\n".to_vec());
    GitRepo::log(b"aa", None, &mut walk, &mut text);
    assert_eq!(walk, before);
    assert_eq!(walk.next(), Some(b"p".to_vec()));
    GitRepo::log(b"p", None, &mut walk, &mut text);
    assert!(walk.was_seen(b"p"));
    assert_eq!(text, b"xcommit: aa\n   m\n\n".to_vec());
    assert_eq!(walk.next(), None);
    assert!(walk.visit(b"q", None));
    assert!(!walk.visit(b"q", Some(&commit)));
    assert_eq!(walk.next(), None);
}

#[test]
fn log_writes_records_in_the_order_of_the_walk() {
    let first = GitCommit::new(b"tree t\nparent p\n\nsecond commit\n".to_vec()).unwrap();
    let root = GitCommit::new(b"tree t\n\nfirst commit\n".to_vec()).unwrap();
    let mut walk = LogWalk::new(b"c".to_vec());
    let mut text = Vec::new();
    while let Some(sha) = walk.next() {
        let commit = if sha == b"c".to_vec() { &first } else { &root };
        GitRepo::log(&sha, Some(commit), &mut walk, &mut text);
    }
    assert_eq!(text, b"commit: c\n   second commit\n\ncommit: p\n   first commit\n\n".to_vec());
}

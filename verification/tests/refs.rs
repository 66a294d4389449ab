use mygit::commands::{show_ref, tag};
use mygit::error::GitError;
use mygit::refs::RefFiles;
use mygit::repo::GitRepo;

const A: &[u8] = b"aaaaaaaaaaaaaaaaaaaaaaaaaaaaaaaaaaaaaaaa";
const B: &[u8] = b"bbbbbbbbbbbbbbbbbbbbbbbbbbbbbbbbbbbbbbbb";

fn files(pairs: &[(&[u8], &[u8])]) -> RefFiles {
    RefFiles { files: pairs.iter().map(|(p, c)| (p.to_vec(), c.to_vec())).collect() }
}

fn line(sha: &[u8]) -> Vec<u8> {
    let mut text = sha.to_vec();
    text.push(b'\n');
    text
}

#[test]
fn direct_reference_is_its_content() {
    let a = line(A);
    let store = files(&[(b"refs/heads/master", &a)]);
    assert_eq!(GitRepo::ref_resolve(&store, b"refs/heads/master"), Ok(Some(A.to_vec())));
    assert_eq!(GitRepo::ref_resolve(&store, b"refs/heads/other"), Ok(None));
    assert_eq!(store.get(b"refs/heads/master"), Some(&a));
    assert_eq!(store.get(b"refs/heads"), None);
}

#[test]
fn symbolic_reference_is_followed() {
    let a = line(A);
    let store = files(&[(b"HEAD", b"ref: refs/heads/master\n"), (b"refs/heads/master", &a)]);
    assert_eq!(GitRepo::ref_resolve(&store, b"HEAD"), Ok(Some(A.to_vec())));
    let unborn = files(&[(b"HEAD", b"ref: refs/heads/master\n")]);
    assert_eq!(GitRepo::ref_resolve(&unborn, b"HEAD"), Ok(None));
}

#[test]
fn white_space_at_the_end_is_dropped() {
    let store = files(&[(b"r", b"abc \t\r\n\n")]);
    assert_eq!(GitRepo::ref_resolve(&store, b"r"), Ok(Some(b"abc".to_vec())));
    let empty = files(&[(b"r", b"\n")]);
    assert_eq!(GitRepo::ref_resolve(&empty, b"r"), Ok(Some(Vec::new())));
}

#[test]
fn chain_of_eight_is_followed_and_nine_is_not() {
    let a = line(A);
    let mut pairs: Vec<(Vec<u8>, Vec<u8>)> = Vec::new();
    for i in 0..9 {
        pairs.push((
            format!("r{}", i).into_bytes(),
            format!("ref: r{}\n", i + 1).into_bytes(),
        ));
    }
    pairs.push((b"r9".to_vec(), a));
    let store = RefFiles { files: pairs };
    assert_eq!(GitRepo::ref_resolve(&store, b"r1"), Ok(Some(A.to_vec())));
    assert_eq!(GitRepo::ref_resolve(&store, b"r0"), Err(GitError::UnknownReference));
}

#[test]
fn cycle_is_an_error() {
    let own = files(&[(b"a", b"ref: a\n")]);
    assert_eq!(GitRepo::ref_resolve(&own, b"a"), Err(GitError::UnknownReference));
    let pair = files(&[(b"a", b"ref: b\n"), (b"b", b"ref: a\n")]);
    assert_eq!(GitRepo::ref_resolve(&pair, b"a"), Err(GitError::UnknownReference));
    assert_eq!(GitRepo::ref_resolve(&pair, b"b"), Err(GitError::UnknownReference));
    assert_eq!(GitRepo::ref_list(&pair, b""), Err(GitError::UnknownReference));
}

#[test]
fn references_are_listed_by_name() {
    let a = line(A);
    let b = line(B);
    let store = files(&[
        (b"refs/tags/v2", &b),
        (b"HEAD", b"ref: refs/heads/master\n"),
        (b"refs/heads/master", &a),
        (b"refs/heads/dev", b"ref: refs/heads/master\n"),
        (b"refs/tags/v1", &a),
        (b"refs/heads/gone", b"ref: refs/heads/nowhere\n"),
        (b"refs/tags/v1", &b),
    ]);
    let all = GitRepo::ref_list(&store, b"refs/").unwrap();
    assert_eq!(
        all,
        vec![
            (b"refs/heads/dev".to_vec(), A.to_vec()),
            (b"refs/heads/master".to_vec(), A.to_vec()),
            (b"refs/tags/v1".to_vec(), A.to_vec()),
            (b"refs/tags/v2".to_vec(), B.to_vec()),
        ]
    );
    let tags = GitRepo::ref_list(&store, b"refs/tags/").unwrap();
    assert_eq!(tags.len(), 2);
    assert_eq!(tag(&tags), b"v1\nv2\n".to_vec());
    let mut shown = Vec::new();
    shown.extend_from_slice(A);
    shown.extend_from_slice(b" refs/tags/v1\n");
    shown.extend_from_slice(B);
    shown.extend_from_slice(b" refs/tags/v2\n");
    assert_eq!(show_ref(&tags), shown);
    assert_eq!(GitRepo::ref_list(&store, b"nothing/").unwrap(), Vec::new());
}

#[test]
fn reference_file_holds_the_address_and_a_newline() {
    assert_eq!(GitRepo::ref_create(A), line(A));
    assert_eq!(GitRepo::tag_ref(b"v1"), b"refs/tags/v1".to_vec());
}

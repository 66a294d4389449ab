use mygit::error::GitError;
use mygit::git_object::GitObject;
use mygit::kvlm::kvlm_parse;
use mygit::paths::path_join;
use mygit::repo::{
    create_new_my_git, get_default_conf, is_my_git_dir, DirRequest, FindStep, GitRepo, InitStep,
};

fn repo() -> GitRepo {
    GitRepo::init(b"/work".to_vec(), true, false, None).unwrap()
}

#[test]
fn paths_are_joined_with_one_slash() {
    assert_eq!(path_join(b"a", b"b"), b"a/b".to_vec());
    assert_eq!(path_join(b"a/", b"b"), b"a/b".to_vec());
    assert_eq!(path_join(b"", b"b"), b"b".to_vec());
    assert_eq!(path_join(b"a", b""), b"a/".to_vec());
    assert_eq!(path_join(b"a", b"/b"), b"/b".to_vec());
    assert_eq!(path_join(b"/", b"b"), b"/b".to_vec());
}

#[test]
fn forced_open_takes_anything() {
    let r = repo();
    assert_eq!(r.work_dir, b"/work".to_vec());
    assert_eq!(r.git_dir, b"/work/.git".to_vec());
    assert_eq!(r.format_version, None);
    let r = GitRepo::init(b"w".to_vec(), true, false, Some(Some(b"7".to_vec()))).unwrap();
    assert_eq!(r.format_version, Some(b"7".to_vec()));
}

#[test]
fn open_checks_layout_and_version() {
    let ok = GitRepo::init(b"/w".to_vec(), false, true, Some(Some(b"0".to_vec()))).unwrap();
    assert_eq!(ok.format_version, Some(b"0".to_vec()));
    assert_eq!(
        GitRepo::init(b"/w".to_vec(), false, false, Some(Some(b"0".to_vec()))),
        Err(GitError::RepoNotFound)
    );
    assert_eq!(
        GitRepo::init(b"/w".to_vec(), false, true, Some(Some(b"1".to_vec()))),
        Err(GitError::CorruptRepo)
    );
    assert_eq!(
        GitRepo::init(b"/w".to_vec(), false, true, Some(Some(b"00".to_vec()))),
        Err(GitError::CorruptRepo)
    );
    assert_eq!(GitRepo::init(b"/w".to_vec(), false, true, Some(None)), Err(GitError::CorruptRepo));
    assert_eq!(GitRepo::init(b"/w".to_vec(), false, true, None), Err(GitError::CorruptRepo));
}

#[test]
fn search_goes_up_to_the_root() {
    assert_eq!(GitRepo::repo_find(b"/a/b", true), FindStep::Found);
    assert_eq!(GitRepo::repo_find(b"/a/b/c", false), FindStep::Ascend(b"/a/b".to_vec()));
    assert_eq!(GitRepo::repo_find(b"/a/b/", false), FindStep::Ascend(b"/a".to_vec()));
    assert_eq!(GitRepo::repo_find(b"/a", false), FindStep::Ascend(b"/".to_vec()));
    assert_eq!(GitRepo::repo_find(b"/", false), FindStep::NotFound);
    assert_eq!(GitRepo::repo_find(b"a/b", false), FindStep::Ascend(b"a".to_vec()));
    assert_eq!(GitRepo::repo_find(b"a", false), FindStep::Ascend(Vec::new()));
    assert_eq!(GitRepo::repo_find(b"", false), FindStep::NotFound);
}

#[test]
fn files_and_directories_of_the_repository() {
    let r = repo();
    assert_eq!(r.repo_path(b"objects"), b"/work/.git/objects".to_vec());
    assert_eq!(
        r.repo_file(b"refs/tags/v1"),
        (b"/work/.git/refs/tags/v1".to_vec(), b"refs/tags".to_vec())
    );
    assert_eq!(r.repo_file(b"HEAD"), (b"/work/.git/HEAD".to_vec(), Vec::new()));
    assert_eq!(
        r.repo_dir(b"refs", true, false, false),
        Ok(DirRequest { path: b"/work/.git/refs".to_vec(), create: true })
    );
    assert_eq!(
        r.repo_dir(b"refs", false, false, false),
        Ok(DirRequest { path: b"/work/.git/refs".to_vec(), create: false })
    );
    assert_eq!(
        r.repo_dir(b"refs", true, true, true),
        Ok(DirRequest { path: b"/work/.git/refs".to_vec(), create: false })
    );
    assert_eq!(r.repo_dir(b"HEAD", true, true, false), Err(GitError::CorruptRepo));
}

#[test]
fn new_repository_is_laid_out() {
    let steps = create_new_my_git();
    assert_eq!(steps.len(), 7);
    assert_eq!(steps[0], InitStep::MakeDir(b"branches".to_vec()));
    assert_eq!(steps[1], InitStep::MakeDir(b"objects".to_vec()));
    assert_eq!(steps[2], InitStep::MakeDir(b"refs/tags".to_vec()));
    assert_eq!(steps[3], InitStep::MakeDir(b"refs/heads".to_vec()));
    assert_eq!(steps[4], InitStep::WriteConfig(get_default_conf()));
    assert_eq!(
        steps[5],
        InitStep::WriteFile(
            b"description".to_vec(),
            b"Unnamed repository; edit this file 'description' to name the repository.\n".to_vec()
        )
    );
    assert_eq!(
        steps[6],
        InitStep::WriteFile(b"HEAD".to_vec(), b"ref: refs/heads/master\n".to_vec())
    );
    assert_eq!(
        get_default_conf(),
        vec![
            (b"core".to_vec(), b"repositoryformatversion".to_vec(), b"0".to_vec()),
            (b"core".to_vec(), b"filemode".to_vec(), b"true".to_vec()),
            (b"core".to_vec(), b"bare".to_vec(), b"false".to_vec()),
            (b"core".to_vec(), b"logallrefupdates".to_vec(), b"true".to_vec()),
        ]
    );
}

#[test]
fn metadata_directory_needs_three_files() {
    let all = vec![b"HEAD".to_vec(), b"index".to_vec(), b"config".to_vec(), b"description".to_vec()];
    assert!(is_my_git_dir(&all));
    assert!(!is_my_git_dir(&vec![b"HEAD".to_vec(), b"config".to_vec()]));
    assert!(!is_my_git_dir(&Vec::new()));
}

#[test]
fn tag_object_is_made() {
    let sha = b"1111111111111111111111111111111111111111";
    let tag = GitRepo::create_tag(b"v1", sha, b"Wyag <wyag@example.com>", Some(b"release\n"));
    assert_eq!(
        tag.serialize().unwrap(),
        b"object 1111111111111111111111111111111111111111\n\
type commit\n\
tag v1\n\
tagger Wyag <wyag@example.com>\n\
\n\
release\n"
            .to_vec()
    );
    assert_eq!(tag.data(), tag.serialize().unwrap());
    let back = kvlm_parse(&tag.data()).unwrap();
    assert_eq!(back.first(b"tag").unwrap(), &b"v1".to_vec());
    let bare = GitRepo::create_tag(b"v2", sha, b"T", None);
    assert!(bare.kvlm.message().is_none());
    assert_eq!(bare.kvlm.len(), 4);
}

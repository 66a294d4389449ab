use mygit::error::GitError;
use mygit::ignore::GitIgnore;
use mygit::repo::GitRepo;

fn rules(text: &[u8]) -> Vec<(Vec<u8>, bool)> {
    GitRepo::gitignore_parse(text)
}

#[test]
fn ignore_precedence() {
    let ignore = GitRepo::gitignore_read(
        &vec![b"*.log\n".to_vec()],
        &vec![(b"docs/.gitignore".to_vec(), b"!keep.log\n".to_vec())],
    );
    assert_eq!(ignore.check_ignore(b"docs/keep.log"), Ok(false));
    assert_eq!(ignore.check_ignore(b"other/a.log"), Ok(true));
    assert_eq!(ignore.check_ignore(b"docs/other.log"), Ok(true));
    assert_eq!(ignore.check_ignore(b"docs/readme.md"), Ok(false));
    assert_eq!(ignore.check_ignore(b"a.log"), Ok(true));
}

#[test]
fn last_match_wins() {
    let list = rules(b"*.tmp\n!keep.tmp\n");
    assert_eq!(GitIgnore::check_ignore_file(&list, b"a.tmp"), Some(true));
    assert_eq!(GitIgnore::check_ignore_file(&list, b"keep.tmp"), Some(false));
    assert_eq!(GitIgnore::check_ignore_file(&list, b"a.txt"), None);
    let flipped = rules(b"!keep.tmp\n*.tmp\n");
    assert_eq!(GitIgnore::check_ignore_file(&flipped, b"keep.tmp"), Some(true));
    let back = rules(b"*.tmp\n!keep.tmp\nkeep.*\n");
    assert_eq!(GitIgnore::check_ignore_file(&back, b"keep.tmp"), Some(true));
    assert!(GitIgnore::check_ignore_absolute(&list, b"a.tmp"));
    assert!(!GitIgnore::check_ignore_absolute(&list, b"keep.tmp"));
    assert!(!GitIgnore::check_ignore_absolute(&list, b"a.txt"));
    assert!(!GitIgnore::check_ignore_absolute(&Vec::new(), b"a.txt"));
}

#[test]
fn nearest_directory_decides() {
    let ignore = GitRepo::gitignore_read(
        &vec![b"secret\n".to_vec()],
        &vec![
            (b".gitignore".to_vec(), b"*.o\nbuild\n".to_vec()),
            (b"src/.gitignore".to_vec(), b"!main.o\n".to_vec()),
            (b"src/deep/.gitignore".to_vec(), b"main.o\n".to_vec()),
        ],
    );
    assert_eq!(ignore.check_ignore(b"lib.o"), Ok(true));
    assert_eq!(ignore.check_ignore(b"src/lib.o"), Ok(true));
    assert_eq!(ignore.check_ignore(b"src/main.o"), Ok(false));
    assert_eq!(ignore.check_ignore(b"src/deep/main.o"), Ok(true));
    assert_eq!(ignore.check_ignore(b"src/deep/other.c"), Ok(false));
    assert_eq!(ignore.check_ignore(b"build"), Ok(true));
    assert_eq!(ignore.check_ignore(b"secret"), Ok(true));
    assert_eq!(ignore.check_ignore(b""), Ok(false));
    assert_eq!(
        GitIgnore::check_ignore_scoped(&ignore.scoped, b"src/main.o"),
        Some(false)
    );
    assert_eq!(GitIgnore::check_ignore_scoped(&ignore.scoped, b"src/x.c"), None);
}

#[test]
fn later_rules_file_of_a_directory_counts() {
    let ignore = GitRepo::gitignore_read(
        &Vec::new(),
        &vec![
            (b"d/.gitignore".to_vec(), b"a\n".to_vec()),
            (b"d/.gitignore".to_vec(), b"b\n".to_vec()),
        ],
    );
    assert_eq!(ignore.check_ignore(b"d/a"), Ok(false));
    assert_eq!(ignore.check_ignore(b"d/b"), Ok(true));
}

#[test]
fn absolute_paths_are_refused() {
    let ignore = GitIgnore::new();
    assert_eq!(ignore.check_ignore(b"/etc/passwd"), Err(GitError::MustBeRelative));
    assert_eq!(ignore.check_ignore(b"/"), Err(GitError::MustBeRelative));
    assert_eq!(ignore.check_ignore(b"etc/passwd"), Ok(false));
}

#[test]
fn lines_are_read_as_rules() {
    assert_eq!(GitRepo::gitignore_parse_line(b""), None);
    assert_eq!(GitRepo::gitignore_parse_line(b"   \t"), None);
    assert_eq!(GitRepo::gitignore_parse_line(b"# comment"), None);
    assert_eq!(GitRepo::gitignore_parse_line(b"  # comment"), None);
    assert_eq!(GitRepo::gitignore_parse_line(b"*.log"), Some((b"*.log".to_vec(), true)));
    assert_eq!(GitRepo::gitignore_parse_line(b"  *.log \r"), Some((b"*.log".to_vec(), true)));
    assert_eq!(GitRepo::gitignore_parse_line(b"!keep"), Some((b"keep".to_vec(), false)));
    assert_eq!(GitRepo::gitignore_parse_line(b"\\#file"), Some((b"#file".to_vec(), true)));
    assert_eq!(GitRepo::gitignore_parse_line(b"\\!file"), Some((b"!file".to_vec(), true)));
    assert_eq!(GitRepo::gitignore_parse_line(b"!"), Some((Vec::new(), false)));
    assert_eq!(
        rules(b"a\n\n# c\n!b\r\nlast"),
        vec![(b"a".to_vec(), true), (b"b".to_vec(), false), (b"last".to_vec(), true)]
    );
    assert_eq!(rules(b""), Vec::new());
    assert_eq!(rules(b"\n\n"), Vec::new());
}

#[test]
fn rules_files_are_found_by_name() {
    assert_eq!(GitRepo::gitignore_dir(b".gitignore"), Some(Vec::new()));
    assert_eq!(GitRepo::gitignore_dir(b"a/b/.gitignore"), Some(b"a/b".to_vec()));
    assert_eq!(GitRepo::gitignore_dir(b"x.gitignore"), None);
    assert_eq!(GitRepo::gitignore_dir(b"a/x.gitignore"), None);
    assert_eq!(GitRepo::gitignore_dir(b"/.gitignore"), None);
    assert_eq!(GitRepo::gitignore_dir(b".gitignore/file"), None);
    let ignore = GitRepo::gitignore_read(
        &vec![b"a\nb\n".to_vec(), b"c\n".to_vec()],
        &vec![(b"src/main.rs".to_vec(), b"ignored\n".to_vec())],
    );
    assert_eq!(ignore.absolute.len(), 3);
    assert_eq!(ignore.absolute[2], (b"c".to_vec(), true));
    assert_eq!(ignore.scoped.len(), 0);
}

#[test]
fn patterns_that_are_no_globs_match_nothing() {
    let list = vec![(b"[".to_vec(), true), (vec![0xff, 0xfe], true)];
    assert_eq!(GitIgnore::check_ignore_file(&list, b"["), None);
    let path = vec![(b"*".to_vec(), true)];
    assert_eq!(GitIgnore::check_ignore_file(&path, &[0xff, 0xfe]), None);
    assert_eq!(GitIgnore::check_ignore_file(&path, b"anything/at/all"), Some(true));
}

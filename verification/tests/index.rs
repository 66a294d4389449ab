use mygit::commands::mode_type_name;
use mygit::error::GitError;
use mygit::index::{GitIndex, GitIndexEntry};
use mygit::repo::GitRepo;

fn entry(name: &[u8]) -> GitIndexEntry {
    GitIndexEntry::new(
        (1, 2),
        (3, 4),
        5,
        6,
        8,
        0o644,
        7,
        8,
        9,
        b"b6fc4c620b67d95f953a5c1c1230aaab5db5a1b0".to_vec(),
        false,
        0,
        name.to_vec(),
    )
}

#[test]
fn one_entry_is_written_byte_for_byte() {
    let index = GitIndex::new(Some(2), vec![entry(b"x")]);
    let bytes = GitRepo::index_write(&index).unwrap();
    let mut expected = b"DIRC".to_vec();
    expected.extend_from_slice(&[0, 0, 0, 2, 0, 0, 0, 1]);
    for n in [1u32, 2, 3, 4, 5, 6] {
        expected.extend_from_slice(&n.to_be_bytes());
    }
    expected.extend_from_slice(&[0, 0, 0x81, 0xa4]);
    for n in [7u32, 8, 9] {
        expected.extend_from_slice(&n.to_be_bytes());
    }
    expected.extend_from_slice(&[
        0xb6, 0xfc, 0x4c, 0x62, 0x0b, 0x67, 0xd9, 0x5f, 0x95, 0x3a, 0x5c, 0x1c, 0x12, 0x30, 0xaa,
        0xab, 0x5d, 0xb5, 0xa1, 0xb0,
    ]);
    expected.extend_from_slice(&[0, 1]);
    expected.push(b'x');
    expected.extend_from_slice(&[0; 1]);
    assert_eq!(expected.len(), 12 + 64);
    assert_eq!(bytes, expected);
    assert_eq!(GitRepo::index_read(&bytes).unwrap(), index);
}

#[test]
fn entries_are_filled_up_to_a_multiple_of_eight() {
    for (name, span) in [
        (&b"a"[..], 64usize),
        (&b"ab"[..], 72),
        (&b"abcdefghi"[..], 72),
        (&b"abcdefghij"[..], 80),
    ] {
        let index = GitIndex::new(None, vec![entry(name)]);
        let bytes = GitRepo::index_write(&index).unwrap();
        assert_eq!(bytes.len(), 12 + span);
        let back = GitRepo::index_read(&bytes).unwrap();
        assert_eq!(back.version, Some(2));
        assert_eq!(back.entries, index.entries);
    }
}

#[test]
fn index_round_trips() {
    let mut second = entry(b"dir/file.txt");
    second.flag_assume_valid = true;
    second.flag_stage = 3;
    second.mode_type = 10;
    second.mode_perms = 0;
    second.ctime = (u32::MAX, u32::MAX);
    second.fsize = 0xdeadbeef;
    let mut third = entry(b"z");
    third.mode_type = 14;
    third.flag_stage = 1;
    let index = GitIndex::new(Some(2), vec![entry(b"a"), second, third]);
    let bytes = GitRepo::index_write(&index).unwrap();
    assert_eq!(&bytes[8..12], &[0, 0, 0, 3]);
    let back = GitRepo::index_read(&bytes).unwrap();
    assert_eq!(back, index);
    assert_eq!(GitRepo::index_write(&back).unwrap(), bytes);
    assert_eq!(back.clone(), index);
}

#[test]
fn empty_index_is_a_header() {
    let bytes = GitRepo::index_write(&GitIndex::new(Some(2), Vec::new())).unwrap();
    assert_eq!(bytes, b"DIRC\0\0\0\x02\0\0\0\0".to_vec());
    let back = GitRepo::index_read(&bytes).unwrap();
    assert_eq!(back.entries.len(), 0);
}

#[test]
fn name_of_4094_bytes_is_read_by_its_declared_length() {
    let name = vec![b'n'; 0xFFE];
    let bytes = GitRepo::index_write(&GitIndex::new(Some(2), vec![entry(&name)])).unwrap();
    assert_eq!(&bytes[12 + 60..12 + 62], &[0x0f, 0xfe]);
    assert_eq!(GitRepo::index_read(&bytes).unwrap().entries[0].name, name);
    // A zero byte inside the declared length belongs to the name.
    let mut inside = bytes.clone();
    inside[12 + 62 + 10] = 0;
    let read = GitRepo::index_read(&inside).unwrap();
    assert_eq!(read.entries[0].name.len(), 0xFFE);
    assert_eq!(read.entries[0].name[10], 0);
    // The byte behind the declared length must be the terminator.
    let mut unterminated = bytes.clone();
    unterminated[12 + 62 + 0xFFE] = b'x';
    assert!(matches!(GitRepo::index_read(&unterminated), Err(GitError::CorruptObject)));
}

#[test]
fn name_of_4095_bytes_or_more_is_read_up_to_its_terminator() {
    for len in [0xFFFusize, 0x1000, 0x1234] {
        let name = vec![b'n'; len];
        let index = GitIndex::new(Some(2), vec![entry(&name), entry(b"z")]);
        let bytes = GitRepo::index_write(&index).unwrap();
        assert_eq!(&bytes[12 + 60..12 + 62], &[0x0f, 0xff]);
        let back = GitRepo::index_read(&bytes).unwrap();
        assert_eq!(back.entries[0].name, name);
        assert_eq!(back.entries[1].name, b"z".to_vec());
    }
    // With the length at the mask, the scan starts behind the 4095th byte.
    let name = vec![b'n'; 0x1000];
    let mut bytes = GitRepo::index_write(&GitIndex::new(Some(2), vec![entry(&name)])).unwrap();
    bytes[12 + 62 + 5] = 0;
    assert_eq!(GitRepo::index_read(&bytes).unwrap().entries[0].name.len(), 0x1000);
}

#[test]
fn other_versions_are_unsupported() {
    let mut bytes = GitRepo::index_write(&GitIndex::new(Some(2), vec![entry(b"a")])).unwrap();
    bytes[7] = 3;
    assert!(matches!(GitRepo::index_read(&bytes), Err(GitError::UnsupportedIndexVersion)));
    bytes[7] = 1;
    assert!(matches!(GitRepo::index_read(&bytes), Err(GitError::UnsupportedIndexVersion)));
    assert!(matches!(
        GitRepo::index_write(&GitIndex::new(Some(3), Vec::new())),
        Err(GitError::UnsupportedIndexVersion)
    ));
}

#[test]
fn damaged_index_is_corrupt() {
    let bytes = GitRepo::index_write(&GitIndex::new(Some(2), vec![entry(b"a"), entry(b"b")])).unwrap();
    assert!(matches!(GitRepo::index_read(&bytes[..11]), Err(GitError::CorruptObject)));
    assert!(matches!(GitRepo::index_read(b""), Err(GitError::CorruptObject)));
    let mut signature = bytes.clone();
    signature[0] = b'X';
    assert!(matches!(GitRepo::index_read(&signature), Err(GitError::CorruptObject)));
    assert!(matches!(GitRepo::index_read(&bytes[..bytes.len() - 8]), Err(GitError::CorruptObject)));
    assert!(matches!(GitRepo::index_read(&bytes[..12 + 30]), Err(GitError::CorruptObject)));
    let mut count = bytes.clone();
    count[11] = 3;
    assert!(matches!(GitRepo::index_read(&count), Err(GitError::CorruptObject)));
    let mut extended = bytes.clone();
    extended[12 + 60] |= 0x40;
    assert!(matches!(GitRepo::index_read(&extended), Err(GitError::CorruptObject)));
}

#[test]
fn last_entry_may_lack_its_fill() {
    let bytes = GitRepo::index_write(&GitIndex::new(Some(2), vec![entry(b"ab")])).unwrap();
    assert_eq!(bytes.len(), 12 + 72);
    let cut = &bytes[..12 + 62 + 2 + 1];
    assert_eq!(GitRepo::index_read(cut).unwrap().entries[0].name, b"ab".to_vec());
}

#[test]
fn names_must_ascend_without_repeats() {
    let unsorted = GitIndex::new(Some(2), vec![entry(b"b"), entry(b"a")]);
    assert!(matches!(GitRepo::index_write(&unsorted), Err(GitError::CorruptObject)));
    let twice = GitIndex::new(Some(2), vec![entry(b"a"), entry(b"a")]);
    assert!(matches!(GitRepo::index_write(&twice), Err(GitError::CorruptObject)));
    let prefix = GitIndex::new(Some(2), vec![entry(b"a"), entry(b"a/b"), entry(b"ab")]);
    assert!(GitRepo::index_write(&prefix).is_ok());
}

#[test]
fn entries_that_do_not_fit_their_fields_are_refused() {
    let mut bad = entry(b"a");
    bad.mode_type = 16;
    assert!(matches!(GitRepo::index_write(&GitIndex::new(None, vec![bad])), Err(GitError::CorruptObject)));
    let mut bad = entry(b"a");
    bad.mode_perms = 512;
    assert!(matches!(GitRepo::index_write(&GitIndex::new(None, vec![bad])), Err(GitError::CorruptObject)));
    let mut bad = entry(b"a");
    bad.flag_stage = 4;
    assert!(matches!(GitRepo::index_write(&GitIndex::new(None, vec![bad])), Err(GitError::CorruptObject)));
    let mut bad = entry(b"a");
    bad.sha = b"b6fc".to_vec();
    assert!(matches!(GitRepo::index_write(&GitIndex::new(None, vec![bad])), Err(GitError::CorruptObject)));
    let bad = entry(b"a\0b");
    assert!(matches!(GitRepo::index_write(&GitIndex::new(None, vec![bad])), Err(GitError::CorruptObject)));
}

#[test]
fn mode_bits_are_taken_apart() {
    let mut bytes = GitRepo::index_write(&GitIndex::new(Some(2), vec![entry(b"a")])).unwrap();
    bytes[12 + 26] = 0xa1;
    bytes[12 + 27] = 0xff;
    bytes[12 + 60] = 0xb0;
    let back = GitRepo::index_read(&bytes).unwrap();
    assert_eq!(back.entries[0].mode_type, 10);
    assert_eq!(back.entries[0].mode_perms, 0o777);
    assert!(back.entries[0].flag_assume_valid);
    assert_eq!(back.entries[0].flag_stage, 3);
    assert_eq!(mode_type_name(8), Some("regular file"));
    assert_eq!(mode_type_name(10), Some("symlink"));
    assert_eq!(mode_type_name(14), Some("git link"));
    assert_eq!(mode_type_name(4), None);
}

fn paths(names: &[&str]) -> Vec<Vec<u8>> {
    names.iter().map(|name| name.as_bytes().to_vec()).collect()
}

#[test]
fn rm_takes_entries_out() {
    let index = GitIndex::new(Some(2), vec![entry(b"a"), entry(b"b"), entry(b"c")]);
    let removal = GitRepo::rm(b"/w", &index, &paths(&["/w/b"]), true, false).unwrap();
    assert_eq!(removal.index.version, Some(2));
    assert_eq!(removal.index.entries, vec![entry(b"a"), entry(b"c")]);
    assert_eq!(removal.files, paths(&["/w/b"]));
    let removal = GitRepo::rm(b"/w", &index, &paths(&["/w/c", "/w/a"]), true, false).unwrap();
    assert_eq!(removal.index.entries, vec![entry(b"b")]);
    assert_eq!(removal.files, paths(&["/w/a", "/w/c"]));
    let kept = GitRepo::rm(b"/w", &index, &paths(&["/w/a"]), false, false).unwrap();
    assert_eq!(kept.index.entries, vec![entry(b"b"), entry(b"c")]);
    assert_eq!(kept.files, Vec::<Vec<u8>>::new());
    let nothing = GitRepo::rm(b"/w", &index, &Vec::new(), true, false).unwrap();
    assert_eq!(nothing.index, index);
    assert_eq!(nothing.files, Vec::<Vec<u8>>::new());
}

#[test]
fn rm_of_a_path_that_is_not_staged() {
    let index = GitIndex::new(Some(2), vec![entry(b"a"), entry(b"b"), entry(b"c")]);
    assert_eq!(
        GitRepo::rm(b"/w", &index, &paths(&["/w/a", "/w/nope"]), true, false),
        Err(GitError::UnknownReference)
    );
    let removal = GitRepo::rm(b"/w", &index, &paths(&["/w/a", "/w/nope"]), true, true).unwrap();
    assert_eq!(removal.index.entries, vec![entry(b"b"), entry(b"c")]);
    assert_eq!(removal.files, paths(&["/w/a"]));
}

#[test]
fn rm_refuses_paths_outside_the_work_tree() {
    let index = GitIndex::new(Some(2), vec![entry(b"a"), entry(b"b")]);
    for delete in [false, true] {
        for skip_missing in [false, true] {
            assert_eq!(
                GitRepo::rm(b"/w", &index, &paths(&["/x/a"]), delete, skip_missing),
                Err(GitError::MustBeRelative)
            );
            assert_eq!(
                GitRepo::rm(b"/w", &index, &paths(&["/w/a", "/x/a"]), delete, skip_missing),
                Err(GitError::MustBeRelative)
            );
            assert_eq!(
                GitRepo::rm(b"/w", &index, &paths(&["/w"]), delete, skip_missing),
                Err(GitError::MustBeRelative)
            );
            assert_eq!(
                GitRepo::rm(b"/w", &index, &paths(&["/wa/a", "/w/nope"]), delete, skip_missing),
                Err(GitError::MustBeRelative)
            );
        }
    }
}

#[test]
fn work_path_is_below_the_work_tree() {
    assert_eq!(GitRepo::work_path(b"/w", b"/w/a/b"), Some(b"a/b".to_vec()));
    assert_eq!(GitRepo::work_path(b"/w", b"/w"), None);
    assert_eq!(GitRepo::work_path(b"/w", b"/wx/a"), None);
    assert_eq!(GitRepo::work_path(b"/w", b"/other/a"), None);
    assert_eq!(GitRepo::work_path(b"/w", b"/w/"), Some(Vec::new()));
}

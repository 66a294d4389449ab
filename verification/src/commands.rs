use crate::bytes::{
    append_bytes, bytes_eq, contains_name, copy_range, find_last_byte, has_prefix, names_view,
    starts_with,
};
use crate::error::GitError;
use crate::git_object::{GitObject, ObjectType};
use crate::index::{entry_views, GitIndex, GitIndexEntry, IndexEntryView, IndexView};
use crate::kvlm::{kvlm_serialize, serialized, Kvlm};
use crate::ordered::has_key;
use crate::paths::{base_name, SLASH};
use crate::refs::pair_views;
use crate::repo::GitRepo;
use crate::resolve::object_key;
use crate::store::{view_kind, Object};
use crate::tag::GitTag;
use vstd::prelude::*;

verus! {

/// The names of the references, each the last component of its path, one to
/// a line.
pub open spec fn tag_lines(refs: Seq<(Seq<u8>, Seq<u8>)>) -> Seq<u8>
    decreases refs.len(),
{
    if refs.len() == 0 {
        Seq::empty()
    } else {
        tag_lines(refs.drop_last()) + base_name(refs.last().0) + seq![10u8]
    }
}

/// The references, one to a line: the address, a space, the name.
pub open spec fn ref_lines(refs: Seq<(Seq<u8>, Seq<u8>)>) -> Seq<u8>
    decreases refs.len(),
{
    if refs.len() == 0 {
        Seq::empty()
    } else {
        ref_lines(refs.drop_last()) + refs.last().1 + seq![32u8] + refs.last().0 + seq![10u8]
    }
}

/// The list of tags as it is shown: the last component of each reference, one
/// to a line, in the order of the references.
pub fn tag(refs: &Vec<(Vec<u8>, Vec<u8>)>) -> (out: Vec<u8>)
    ensures
        out@ == tag_lines(pair_views(refs@)),
{
    let ghost all = pair_views(refs@);
    let mut out: Vec<u8> = Vec::new();
    let mut i: usize = 0;
    assert(all.take(0) =~= Seq::<(Seq<u8>, Seq<u8>)>::empty());
    while i < refs.len()
        invariant
            i <= refs@.len(),
            all == pair_views(refs@),
            out@ == tag_lines(all.take(i as int)),
        decreases refs@.len() - i,
    {
        let ghost before = out@;
        let name = refs[i].0.as_slice();
        assert(name@.take(name@.len() as int) =~= name@);
        let start = match find_last_byte(name, SLASH, name.len()) {
            Some(at) => at + 1,
            None => 0,
        };
        append_bytes(&mut out, &name[start..name.len()]);
        out.push(10u8);
        proof {
            let longer = all.take(i + 1);
            assert(longer.drop_last() =~= all.take(i as int));
            assert(longer.last() == all[i as int]);
            assert(name@.subrange(start as int, name@.len() as int) =~= base_name(name@));
            assert(out@ =~= before + base_name(name@) + seq![10u8]);
        }
        i = i + 1;
    }
    assert(all.take(refs@.len() as int) =~= all);
    out
}

/// The references as they are shown: the address, a space and the name of
/// each, one to a line, in the order of the references.
pub fn show_ref(refs: &Vec<(Vec<u8>, Vec<u8>)>) -> (out: Vec<u8>)
    ensures
        out@ == ref_lines(pair_views(refs@)),
{
    let ghost all = pair_views(refs@);
    let mut out: Vec<u8> = Vec::new();
    let mut i: usize = 0;
    assert(all.take(0) =~= Seq::<(Seq<u8>, Seq<u8>)>::empty());
    while i < refs.len()
        invariant
            i <= refs@.len(),
            all == pair_views(refs@),
            out@ == ref_lines(all.take(i as int)),
        decreases refs@.len() - i,
    {
        let ghost before = out@;
        append_bytes(&mut out, refs[i].1.as_slice());
        out.push(32u8);
        append_bytes(&mut out, refs[i].0.as_slice());
        out.push(10u8);
        proof {
            let longer = all.take(i + 1);
            assert(longer.drop_last() =~= all.take(i as int));
            assert(longer.last() == all[i as int]);
            assert(out@ =~= before + all[i as int].1 + seq![32u8] + all[i as int].0 + seq![10u8]);
        }
        i = i + 1;
    }
    assert(all.take(refs@.len() as int) =~= all);
    out
}

/// What the type bits of an index entry's mode stand for.
pub fn mode_type_name(mode_type: u16) -> (name: Option<&'static str>)
    ensures
        match name {
            Some(n) => (mode_type == 8 && n@ == "regular file"@) || (mode_type == 10 && n@
                == "symlink"@) || (mode_type == 14 && n@ == "git link"@),
            None => mode_type != 8 && mode_type != 10 && mode_type != 14,
        },
{
    if mode_type == 8 {
        Some("regular file")
    } else if mode_type == 10 {
        Some("symlink")
    } else if mode_type == 14 {
        Some("git link")
    } else {
        None
    }
}

/// `type`.
pub open spec fn type_header() -> Seq<u8> {
    seq![116u8, 121u8, 112u8, 101u8]
}

/// `tag`.
pub open spec fn tag_header() -> Seq<u8> {
    seq![116u8, 97u8, 103u8]
}

/// `tagger`.
pub open spec fn tagger_header() -> Seq<u8> {
    seq![116u8, 97u8, 103u8, 103u8, 101u8, 114u8]
}

/// `commit`.
pub open spec fn commit_word() -> Seq<u8> {
    seq![99u8, 111u8, 109u8, 109u8, 105u8, 116u8]
}

/// The headers of a tag object for the commit at `sha`.
pub open spec fn tag_headers(name: Seq<u8>, sha: Seq<u8>, tagger: Seq<u8>) -> Seq<
    (Seq<u8>, Seq<Seq<u8>>),
> {
    seq![
        (object_key(), seq![sha]),
        (type_header(), seq![commit_word()]),
        (tag_header(), seq![name]),
        (tagger_header(), seq![tagger]),
    ]
}

/// The entries whose name is not among `names`, of the first `count` entries.
pub open spec fn kept_entries(entries: Seq<IndexEntryView>, names: Seq<Seq<u8>>, count: nat) -> Seq<
    IndexEntryView,
>
    decreases count,
{
    if count == 0 {
        Seq::empty()
    } else {
        let before = kept_entries(entries, names, (count - 1) as nat);
        if names.contains(entries[count - 1].name) {
            before
        } else {
            before.push(entries[count - 1])
        }
    }
}

/// Whether an entry has the name.
pub open spec fn staged(entries: Seq<IndexEntryView>, name: Seq<u8>) -> bool {
    exists|i: int| 0 <= i < entries.len() && (#[trigger] entries[i]).name == name
}

/// Whether every name is the name of an entry.
pub open spec fn all_staged(entries: Seq<IndexEntryView>, names: Seq<Seq<u8>>) -> bool {
    forall|k: int| 0 <= k < names.len() ==> staged(entries, #[trigger] names[k])
}

/// What is left of an index, and the files to delete.
#[derive(Debug, Clone, PartialEq, Eq)]
pub struct Removal {
    /// The index without the entries that were taken out.
    pub index: GitIndex,
    /// The files of the entries that were taken out, where they are to be
    /// deleted: absolute paths, in the order of the entries.
    pub files: Vec<Vec<u8>>,
}

/// The paths as they stand below the work tree, or `None` where one of them
/// does not lie below it.
pub open spec fn names_below(work_dir: Seq<u8>, paths: Seq<Seq<u8>>) -> Option<Seq<Seq<u8>>> {
    if forall|k: int| 0 <= k < paths.len() ==> below(work_dir, #[trigger] paths[k]) is Some {
        Some(Seq::new(paths.len(), |k: int| below(work_dir, paths[k])->0))
    } else {
        None
    }
}

/// The files of the entries whose name is among `names`, of the first `count`
/// entries: the work tree, a slash, the name.
pub open spec fn removed_files(
    work_dir: Seq<u8>,
    entries: Seq<IndexEntryView>,
    names: Seq<Seq<u8>>,
    count: nat,
) -> Seq<Seq<u8>>
    decreases count,
{
    if count == 0 {
        Seq::empty()
    } else {
        let before = removed_files(work_dir, entries, names, (count - 1) as nat);
        if names.contains(entries[count - 1].name) {
            before.push(work_dir + seq![SLASH] + entries[count - 1].name)
        } else {
            before
        }
    }
}

/// A path as it stands below a work tree: without the work tree and the slash
/// behind it. `None` for a path that is not below the work tree.
pub open spec fn below(work_dir: Seq<u8>, path: Seq<u8>) -> Option<Seq<u8>> {
    if has_prefix(path, work_dir) && path.len() > work_dir.len() && path[work_dir.len() as int]
        == SLASH {
        Some(path.skip(work_dir.len() as int + 1))
    } else {
        None
    }
}

impl GitRepo {
    /// The content of an object that is to be of the kind `fmt`. Fails with
    /// `WrongObjectKind` where it is of another kind.
    pub fn cat_file(object: &Object, fmt: ObjectType) -> (out: Result<Vec<u8>, GitError>)
        ensures
            match out {
                Ok(bytes) => view_kind(object@) == fmt && bytes@ == object.source(),
                Err(e) => view_kind(object@) != fmt && e == GitError::WrongObjectKind,
            },
    {
        if object.object_type() == fmt {
            Ok(object.data())
        } else {
            Err(GitError::WrongObjectKind)
        }
    }

    /// The file of the tag `name`, relative to the metadata directory.
    pub fn tag_ref(name: &[u8]) -> (path: Vec<u8>)
        ensures
            path@ == crate::resolve::tags_dir() + name@,
    {
        let dir: [u8; 10] = [114u8, 101u8, 102u8, 115u8, 47u8, 116u8, 97u8, 103u8, 115u8, 47u8];
        let mut path: Vec<u8> = Vec::new();
        append_bytes(&mut path, dir.as_slice());
        append_bytes(&mut path, name);
        assert(path@ =~= crate::resolve::tags_dir() + name@);
        path
    }

    /// The tag object `name` for the commit at `sha`, made by `tagger`, with
    /// the message where one is given.
    pub fn create_tag(name: &[u8], sha: &[u8], tagger: &[u8], message: Option<&[u8]>) -> (tag:
        GitTag)
        ensures
            tag.kvlm.wf(),
            tag.kvlm@.headers == tag_headers(name@, sha@, tagger@),
            tag.kvlm@.message == match message {
                Some(m) => Some(m@),
                None => None::<Seq<u8>>,
            },
            tag.data@ == serialized(tag.kvlm@),
    {
        let object: [u8; 6] = [111u8, 98u8, 106u8, 101u8, 99u8, 116u8];
        let kind: [u8; 4] = [116u8, 121u8, 112u8, 101u8];
        let label: [u8; 3] = [116u8, 97u8, 103u8];
        let by: [u8; 6] = [116u8, 97u8, 103u8, 103u8, 101u8, 114u8];
        let commit: [u8; 6] = [99u8, 111u8, 109u8, 109u8, 105u8, 116u8];
        let mut kvlm = Kvlm::new();
        let ghost h0 = kvlm@.headers;
        kvlm.push(copy_range(object.as_slice(), 0, 6), copy_range(sha, 0, sha.len()));
        let ghost h1 = kvlm@.headers;
        kvlm.push(copy_range(kind.as_slice(), 0, 4), copy_range(commit.as_slice(), 0, 6));
        let ghost h2 = kvlm@.headers;
        kvlm.push(copy_range(label.as_slice(), 0, 3), copy_range(name, 0, name.len()));
        let ghost h3 = kvlm@.headers;
        kvlm.push(copy_range(by.as_slice(), 0, 6), copy_range(tagger, 0, tagger.len()));
        proof {
            assert(object@.subrange(0, 6) =~= object_key());
            assert(kind@.subrange(0, 4) =~= type_header());
            assert(label@.subrange(0, 3) =~= tag_header());
            assert(by@.subrange(0, 6) =~= tagger_header());
            assert(commit@.subrange(0, 6) =~= commit_word());
            assert(sha@.subrange(0, sha@.len() as int) =~= sha@);
            assert(name@.subrange(0, name@.len() as int) =~= name@);
            assert(tagger@.subrange(0, tagger@.len() as int) =~= tagger@);
            assert(object_key()[0] != type_header()[0]);
            assert(object_key()[0] != tag_header()[0]);
            assert(type_header()[1] != tag_header()[1]);
            assert(type_header().len() != tagger_header().len());
            assert(tag_header().len() != tagger_header().len());
            assert(!has_key(h0, object_key()));
            assert(h1 =~= seq![(object_key(), seq![sha@])]);
            assert(!has_key(h1, type_header()));
            assert(h2 =~= seq![(object_key(), seq![sha@]), (type_header(), seq![commit_word()])]);
            assert(!has_key(h2, tag_header()));
            assert(h3 =~= seq![
                (object_key(), seq![sha@]),
                (type_header(), seq![commit_word()]),
                (tag_header(), seq![name@]),
            ]);
            assert(!has_key(h3, tagger_header()));
            assert(kvlm@.headers =~= tag_headers(name@, sha@, tagger@));
        }
        match message {
            Some(m) => {
                let text = copy_range(m, 0, m.len());
                assert(text@ =~= m@);
                kvlm.set_message(Some(text));
            },
            None => {},
        }
        let data = kvlm_serialize(&kvlm);
        GitTag { data, kvlm }
    }

    /// A path as it stands below the work tree, or `None` for a path that is
    /// not below it.
    pub fn work_path(work_dir: &[u8], path: &[u8]) -> (out: Option<Vec<u8>>)
        ensures
            match out {
                Some(p) => below(work_dir@, path@) == Some(p@),
                None => below(work_dir@, path@) is None,
            },
    {
        if starts_with(path, work_dir) && path.len() > work_dir.len() && path[work_dir.len()]
            == SLASH {
            let rest = copy_range(path, work_dir.len() + 1, path.len());
            assert(rest@ =~= path@.skip(work_dir@.len() as int + 1));
            Some(rest)
        } else {
            None
        }
    }

    /// Takes paths out of an index. The paths are absolute, and every one
    /// must lie below the work tree: where one does not, the call fails with
    /// `MustBeRelative` and gives no index. Otherwise the entries named by
    /// the paths are taken out and the others keep their order; where
    /// `delete` is set, the files of the entries taken out are listed for
    /// deletion. Fails with `UnknownReference` where a path names no entry,
    /// unless `skip_missing` is set.
    pub fn rm(
        work_dir: &[u8],
        index: &GitIndex,
        paths: &Vec<Vec<u8>>,
        delete: bool,
        skip_missing: bool,
    ) -> (out: Result<Removal, GitError>)
        ensures
            match names_below(work_dir@, names_view(paths@)) {
                None => out matches Err(e) && e == GitError::MustBeRelative,
                Some(names) => if !skip_missing && !all_staged(index@.entries, names) {
                    out matches Err(e) && e == GitError::UnknownReference
                } else {
                    &&& out matches Ok(removal)
                    &&& removal.index@ == (IndexView {
                        version: index@.version,
                        entries: kept_entries(index@.entries, names, index@.entries.len()),
                    })
                    &&& names_view(removal.files@) == (if delete {
                        removed_files(work_dir@, index@.entries, names, index@.entries.len())
                    } else {
                        Seq::empty()
                    })
                },
            },
    {
        let ghost all = names_view(paths@);
        let mut names: Vec<Vec<u8>> = Vec::new();
        let mut k: usize = 0;
        while k < paths.len()
            invariant
                k <= paths@.len(),
                all == names_view(paths@),
                names@.len() == k,
                forall|j: int| 0 <= j < k ==> below(work_dir@, #[trigger] all[j]) == Some(names@[j]@),
            decreases paths@.len() - k,
        {
            assert(all[k as int] == paths@[k as int]@);
            match GitRepo::work_path(work_dir, paths[k].as_slice()) {
                Some(name) => {
                    names.push(name);
                },
                None => {
                    return Err(GitError::MustBeRelative);
                },
            }
            k = k + 1;
        }
        assert(names_view(names@) =~= names_below(work_dir@, all)->0);
        let left = match take_out(index, &names, skip_missing) {
            Ok(left) => left,
            Err(e) => {
                return Err(e);
            },
        };
        let files = if delete {
            doomed_files(work_dir, index, &names)
        } else {
            let none: Vec<Vec<u8>> = Vec::new();
            assert(names_view(none@) =~= Seq::<Seq<u8>>::empty());
            none
        };
        Ok(Removal { index: left, files })
    }
}

/// The files of the entries whose name is among `names`, in the order of the
/// entries.
fn doomed_files(work_dir: &[u8], index: &GitIndex, names: &Vec<Vec<u8>>) -> (files: Vec<Vec<u8>>)
    ensures
        names_view(files@) == removed_files(
            work_dir@,
            index@.entries,
            names_view(names@),
            index@.entries.len(),
        ),
{
    let ghost entries = index@.entries;
    let ghost wanted = names_view(names@);
    let mut files: Vec<Vec<u8>> = Vec::new();
    let mut i: usize = 0;
    assert(names_view(files@) =~= removed_files(work_dir@, entries, wanted, 0));
    while i < index.entries.len()
        invariant
            i <= index.entries@.len(),
            entries == index@.entries,
            entries.len() == index.entries@.len(),
            wanted == names_view(names@),
            names_view(files@) == removed_files(work_dir@, entries, wanted, i as nat),
        decreases index.entries@.len() - i,
    {
        let ghost before = names_view(files@);
        assert(entries[i as int] == index.entries@[i as int]@);
        if contains_name(names, index.entries[i].name.as_slice()) {
            let mut file = copy_range(work_dir, 0, work_dir.len());
            file.push(SLASH);
            append_bytes(&mut file, index.entries[i].name.as_slice());
            assert(file@ =~= work_dir@ + seq![SLASH] + entries[i as int].name);
            files.push(file);
            assert(names_view(files@) =~= before.push(
                work_dir@ + seq![SLASH] + entries[i as int].name,
            ));
        }
        i = i + 1;
    }
    files
}

/// Takes the entries with the given names out of an index.
fn take_out(index: &GitIndex, names: &Vec<Vec<u8>>, skip_missing: bool) -> (out: Result<
    GitIndex,
    GitError,
>)
    ensures
        match out {
            Ok(left) => (skip_missing || all_staged(index@.entries, names_view(names@))) && left@
                == (IndexView {
                version: index@.version,
                entries: kept_entries(index@.entries, names_view(names@), index@.entries.len()),
            }),
            Err(e) => !skip_missing && !all_staged(index@.entries, names_view(names@)) && e
                == GitError::UnknownReference,
        },
{
    let ghost entries = index@.entries;
    let ghost wanted = names_view(names@);
    if !skip_missing {
        let mut k: usize = 0;
        while k < names.len()
            invariant
                !skip_missing,
                k <= names@.len(),
                entries == index@.entries,
                wanted == names_view(names@),
                forall|j: int| 0 <= j < k ==> staged(entries, #[trigger] wanted[j]),
            decreases names@.len() - k,
        {
            let mut found = false;
            let mut i: usize = 0;
            while i < index.entries.len() && !found
                invariant
                    i <= index.entries@.len(),
                    k < names@.len(),
                    entries == index@.entries,
                    wanted == names_view(names@),
                    found ==> staged(entries, wanted[k as int]),
                    !found ==> forall|j: int|
                        0 <= j < i ==> (#[trigger] entries[j]).name != wanted[k as int],
                decreases index.entries@.len() - i, if found { 0int } else { 1int },
            {
                assert(entries[i as int].name == index.entries@[i as int].name@);
                if bytes_eq(index.entries[i].name.as_slice(), names[k].as_slice()) {
                    found = true;
                } else {
                    i = i + 1;
                }
            }
            if !found {
                assert(!staged(entries, wanted[k as int]));
                return Err(GitError::UnknownReference);
            }
            k = k + 1;
        }
    }
    let mut kept: Vec<GitIndexEntry> = Vec::new();
    let mut i: usize = 0;
    assert(entry_views(kept@) =~= kept_entries(entries, wanted, 0));
    while i < index.entries.len()
        invariant
            i <= index.entries@.len(),
            entries == index@.entries,
            entries.len() == index.entries@.len(),
            wanted == names_view(names@),
            entry_views(kept@) == kept_entries(entries, wanted, i as nat),
        decreases index.entries@.len() - i,
    {
        let ghost before = entry_views(kept@);
        assert(entries[i as int] == index.entries@[i as int]@);
        if !contains_name(names, index.entries[i].name.as_slice()) {
            kept.push(index.entries[i].clone());
            assert(entry_views(kept@) =~= before.push(entries[i as int]));
        }
        i = i + 1;
    }
    Ok(GitIndex { version: index.version, entries: kept })
}

} // verus!

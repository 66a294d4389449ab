use crate::bytes::{
    append_bytes, bytes_eq, contains_name, copy_range, has_prefix, names_view, starts_with,
};
use crate::error::GitError;
use crate::git_object::ObjectType;
use crate::hexcodec::is_hex;
use crate::kvlm::values_under;
use crate::refs::{resolved_ref, RefFiles, MAX_REF_DEPTH};
use crate::repo::GitRepo;
use crate::store::{view_kind, Object, ObjectView};
use vstd::prelude::*;

verus! {

/// The name `HEAD`.
pub open spec fn head_name() -> Seq<u8> {
    seq![72u8, 69u8, 65u8, 68u8]
}

/// `refs/tags/`.
pub open spec fn tags_dir() -> Seq<u8> {
    seq![114u8, 101u8, 102u8, 115u8, 47u8, 116u8, 97u8, 103u8, 115u8, 47u8]
}

/// `refs/heads/`.
pub open spec fn heads_dir() -> Seq<u8> {
    seq![114u8, 101u8, 102u8, 115u8, 47u8, 104u8, 101u8, 97u8, 100u8, 115u8, 47u8]
}

/// Whether a name can be the beginning of an address: four to forty
/// hexadecimal digits of either case.
pub open spec fn is_hash_name(name: Seq<u8>) -> bool {
    4 <= name.len() <= 40 && forall|i: int| 0 <= i < name.len() ==> is_hex(#[trigger] name[i])
}

/// A byte with an upper-case letter made lower-case.
pub open spec fn lower(c: u8) -> u8 {
    if 65 <= c <= 90 {
        (c + 32) as u8
    } else {
        c
    }
}

/// A name with its upper-case letters made lower-case.
pub open spec fn lowered(name: Seq<u8>) -> Seq<u8> {
    Seq::new(name.len(), |i: int| lower(name[i]))
}

/// `list` with `sha` behind it, unless it is in the list.
pub open spec fn with_candidate(list: Seq<Seq<u8>>, sha: Seq<u8>) -> Seq<Seq<u8>> {
    if list.contains(sha) {
        list
    } else {
        list.push(sha)
    }
}

/// The addresses that a short hash can stand for among the first `count` file
/// names of its directory: the two digits of the directory and the file name,
/// for each file name that begins with the other digits.
pub open spec fn hash_candidates(name: Seq<u8>, listing: Seq<Seq<u8>>, count: nat) -> Seq<Seq<u8>>
    decreases count,
{
    if count == 0 {
        Seq::empty()
    } else {
        let before = hash_candidates(name, listing, (count - 1) as nat);
        let file = listing[count - 1];
        if has_prefix(file, lowered(name).skip(2)) {
            with_candidate(before, lowered(name).take(2) + file)
        } else {
            before
        }
    }
}

/// `list` with what the reference at `path` leads to, where it leads anywhere.
pub open spec fn with_ref(
    list: Seq<Seq<u8>>,
    files: Seq<(Seq<u8>, Seq<u8>)>,
    path: Seq<u8>,
) -> Result<Seq<Seq<u8>>, GitError> {
    match resolved_ref(files, path, MAX_REF_DEPTH as nat) {
        Err(e) => Err(e),
        Ok(None) => Ok(list),
        Ok(Some(sha)) => Ok(with_candidate(list, sha)),
    }
}

/// The addresses that a name can stand for. `HEAD` stands for what `HEAD`
/// leads to. Any other name stands for the objects whose address begins with it,
/// where it is four to forty hexadecimal digits; for the tag of that name; and
/// for the branch of that name. No address is listed twice.
pub open spec fn candidates(
    name: Seq<u8>,
    listing: Seq<Seq<u8>>,
    files: Seq<(Seq<u8>, Seq<u8>)>,
) -> Result<Seq<Seq<u8>>, GitError> {
    if name == head_name() {
        with_ref(Seq::empty(), files, head_name())
    } else {
        let hashes = if is_hash_name(name) {
            hash_candidates(name, listing, listing.len())
        } else {
            Seq::empty()
        };
        match with_ref(hashes, files, tags_dir() + name) {
            Err(e) => Err(e),
            Ok(tagged) => with_ref(tagged, files, heads_dir() + name),
        }
    }
}

/// Whether a name can be the beginning of an address.
pub fn name_is_hash(name: &[u8]) -> (yes: bool)
    ensures
        yes == is_hash_name(name@),
{
    if name.len() < 4 || name.len() > 40 {
        return false;
    }
    let mut i: usize = 0;
    while i < name.len()
        invariant
            i <= name@.len(),
            forall|k: int| 0 <= k < i ==> is_hex(#[trigger] name@[k]),
        decreases name@.len() - i,
    {
        let c = name[i];
        if !((48 <= c && c <= 57) || (97 <= c && c <= 102) || (65 <= c && c <= 70)) {
            return false;
        }
        i = i + 1;
    }
    true
}

/// A name with its upper-case letters made lower-case.
pub fn to_lower(name: &[u8]) -> (out: Vec<u8>)
    ensures
        out@ == lowered(name@),
{
    let mut out: Vec<u8> = Vec::new();
    let mut i: usize = 0;
    while i < name.len()
        invariant
            i <= name@.len(),
            out@ == lowered(name@.take(i as int)),
        decreases name@.len() - i,
    {
        let c = name[i];
        if 65 <= c && c <= 90 {
            out.push(c + 32);
        } else {
            out.push(c);
        }
        i = i + 1;
        assert(out@ =~= lowered(name@.take(i as int)));
    }
    assert(name@.take(name@.len() as int) =~= name@);
    out
}

/// Puts `sha` behind the list unless it is in it.
fn push_candidate(list: &mut Vec<Vec<u8>>, sha: Vec<u8>)
    ensures
        names_view(final(list)@) == with_candidate(names_view(old(list)@), sha@),
{
    let ghost before = names_view(list@);
    let mut i: usize = 0;
    while i < list.len()
        invariant
            i <= list@.len(),
            before == names_view(list@),
            forall|k: int| 0 <= k < i ==> before[k] != sha@,
        decreases list@.len() - i,
    {
        if bytes_eq(list[i].as_slice(), sha.as_slice()) {
            assert(before[i as int] == sha@);
            return;
        }
        i = i + 1;
    }
    assert(!before.contains(sha@));
    list.push(sha);
    assert(names_view(list@) =~= before.push(sha@));
}

/// Puts what the reference at `path` leads to behind the list.
fn push_ref(list: &mut Vec<Vec<u8>>, files: &RefFiles, path: &[u8]) -> (out: Result<(), GitError>)
    ensures
        match out {
            Ok(_) => with_ref(names_view(old(list)@), files@, path@) == Ok::<
                Seq<Seq<u8>>,
                GitError,
            >(names_view(final(list)@)),
            Err(e) => with_ref(names_view(old(list)@), files@, path@) == Err::<
                Seq<Seq<u8>>,
                GitError,
            >(e),
        },
{
    match GitRepo::ref_resolve(files, path) {
        Err(e) => Err(e),
        Ok(None) => Ok(()),
        Ok(Some(sha)) => {
            push_candidate(list, sha);
            Ok(())
        },
    }
}

/// What following an object towards a kind comes to.
#[derive(Debug, Clone, PartialEq, Eq)]
pub enum Follow {
    /// The object at this address is of the kind.
    Found(Vec<u8>),
    /// The object at this address is to be read next.
    Next(Vec<u8>),
}

/// The first value under `key`, where the key has one.
pub open spec fn first_value(headers: Seq<(Seq<u8>, Seq<Seq<u8>>)>, key: Seq<u8>) -> Option<Seq<u8>> {
    match values_under(headers, key) {
        Some(values) => if values.len() > 0 {
            Some(values[0])
        } else {
            None
        },
        None => None,
    }
}

/// `object`.
pub open spec fn object_key() -> Seq<u8> {
    seq![111u8, 98u8, 106u8, 101u8, 99u8, 116u8]
}

/// `tree`.
pub open spec fn tree_key() -> Seq<u8> {
    seq![116u8, 114u8, 101u8, 101u8]
}

/// Where the object at `sha` leads on the way to an object of kind `fmt`. An
/// object of that kind is found. A tag leads to its `object` where `follow`
/// allows it, and a commit leads to its `tree` where a tree is wanted; a tag
/// or a commit without that header is corrupt. Anything else is of the wrong
/// kind.
pub open spec fn followed(object: ObjectView, sha: Seq<u8>, fmt: ObjectType, follow: bool) -> Result<
    (bool, Seq<u8>),
    GitError,
> {
    if view_kind(object) == fmt {
        Ok((true, sha))
    } else {
        match object {
            ObjectView::Tag(kvlm) => if follow {
                match first_value(kvlm.headers, object_key()) {
                    Some(next) => Ok((false, next)),
                    None => Err(GitError::CorruptObject),
                }
            } else {
                Err(GitError::WrongObjectKind)
            },
            ObjectView::Commit(kvlm) => if fmt == ObjectType::Tree {
                match first_value(kvlm.headers, tree_key()) {
                    Some(next) => Ok((false, next)),
                    None => Err(GitError::CorruptObject),
                }
            } else {
                Err(GitError::WrongObjectKind)
            },
            _ => Err(GitError::WrongObjectKind),
        }
    }
}

/// One step of a chase that keeps account of the addresses read on the way,
/// `visited` before this one: it goes as `followed` says, but a step that
/// leads back to an address that was read is refused as corrupt. So a chase
/// reads no address twice, and ends on any store of finitely many objects.
pub open spec fn chased(
    object: ObjectView,
    sha: Seq<u8>,
    fmt: ObjectType,
    follow: bool,
    visited: Seq<Seq<u8>>,
) -> Result<(bool, Seq<u8>), GitError> {
    match followed(object, sha, fmt, follow) {
        Ok((false, next)) => if next == sha || visited.contains(next) {
            Err(GitError::CorruptObject)
        } else {
            Ok((false, next))
        },
        other => other,
    }
}

impl GitRepo {
    /// The directory whose file names a short hash is held against, relative
    /// to the metadata directory: `objects/` and the first two digits in lower
    /// case. `None` for a name that cannot be the beginning of an address.
    pub fn short_hash_dir(name: &[u8]) -> (dir: Option<Vec<u8>>)
        ensures
            match dir {
                Some(d) => is_hash_name(name@) && d@ == crate::store::objects_dir() + lowered(
                    name@,
                ).take(2),
                None => !is_hash_name(name@),
            },
    {
        if !name_is_hash(name) {
            return None;
        }
        let low = to_lower(name);
        let mut dir: Vec<u8> = Vec::new();
        dir.push(111u8);
        dir.push(98u8);
        dir.push(106u8);
        dir.push(101u8);
        dir.push(99u8);
        dir.push(116u8);
        dir.push(115u8);
        dir.push(47u8);
        assert(dir@ =~= crate::store::objects_dir());
        append_bytes(&mut dir, &low.as_slice()[0..2]);
        assert(dir@ =~= crate::store::objects_dir() + lowered(name@).take(2));
        Some(dir)
    }

    /// The addresses that a name can stand for, in the order in which they are
    /// found. `listing` holds the file names of the directory that
    /// `short_hash_dir` gives for the name, and `files` the reference files.
    /// Fails with `UnknownReference` where a chain of references is longer
    /// than eight.
    pub fn object_resolve(name: &[u8], listing: &Vec<Vec<u8>>, files: &RefFiles) -> (out: Result<
        Vec<Vec<u8>>,
        GitError,
    >)
        ensures
            match out {
                Ok(list) => candidates(name@, names_view(listing@), files@) == Ok::<
                    Seq<Seq<u8>>,
                    GitError,
                >(names_view(list@)),
                Err(e) => candidates(name@, names_view(listing@), files@) == Err::<
                    Seq<Seq<u8>>,
                    GitError,
                >(e),
            },
    {
        let mut list: Vec<Vec<u8>> = Vec::new();
        assert(names_view(list@) =~= Seq::<Seq<u8>>::empty());
        let head: [u8; 4] = [72u8, 69u8, 65u8, 68u8];
        assert(head@ =~= head_name());
        if bytes_eq(name, head.as_slice()) {
            return match push_ref(&mut list, files, head.as_slice()) {
                Ok(_) => Ok(list),
                Err(e) => Err(e),
            };
        }
        if name_is_hash(name) {
            let low = to_lower(name);
            let ghost files_view = names_view(listing@);
            let mut i: usize = 0;
            while i < listing.len()
                invariant
                    i <= listing@.len(),
                    low@ == lowered(name@),
                    low@.len() >= 4,
                    files_view == names_view(listing@),
                    names_view(list@) == hash_candidates(name@, files_view, i as nat),
                decreases listing@.len() - i,
            {
                let file = &listing[i];
                assert(files_view[i as int] == file@);
                assert(low@.subrange(2, low@.len() as int) =~= low@.skip(2));
                if starts_with(file.as_slice(), &low.as_slice()[2..low.len()]) {
                    let mut sha = copy_range(low.as_slice(), 0, 2);
                    append_bytes(&mut sha, file.as_slice());
                    assert(sha@ =~= low@.take(2) + file@);
                    push_candidate(&mut list, sha);
                }
                i = i + 1;
            }
        }
        let mut tag_path: Vec<u8> = Vec::new();
        let tags: [u8; 10] = [114u8, 101u8, 102u8, 115u8, 47u8, 116u8, 97u8, 103u8, 115u8, 47u8];
        append_bytes(&mut tag_path, tags.as_slice());
        append_bytes(&mut tag_path, name);
        assert(tag_path@ =~= tags_dir() + name@);
        match push_ref(&mut list, files, tag_path.as_slice()) {
            Ok(_) => {},
            Err(e) => {
                return Err(e);
            },
        }
        let mut head_path: Vec<u8> = Vec::new();
        let heads: [u8; 11] = [
            114u8,
            101u8,
            102u8,
            115u8,
            47u8,
            104u8,
            101u8,
            97u8,
            100u8,
            115u8,
            47u8,
        ];
        append_bytes(&mut head_path, heads.as_slice());
        append_bytes(&mut head_path, name);
        assert(head_path@ =~= heads_dir() + name@);
        match push_ref(&mut list, files, head_path.as_slice()) {
            Ok(_) => Ok(list),
            Err(e) => Err(e),
        }
    }

    /// The one address that a name stands for. Fails with `UnknownReference`
    /// where it stands for none, and with `AmbiguousReference` and the list
    /// where it stands for more than one.
    pub fn obj_find(name: &[u8], listing: &Vec<Vec<u8>>, files: &RefFiles) -> (out: Result<
        Vec<u8>,
        GitError,
    >)
        ensures
            match candidates(name@, names_view(listing@), files@) {
                Err(e) => out == Err::<Vec<u8>, GitError>(e),
                Ok(list) => if list.len() == 0 {
                    out == Err::<Vec<u8>, GitError>(GitError::UnknownReference)
                } else if list.len() == 1 {
                    out matches Ok(sha) && sha@ == list[0]
                } else {
                    out matches Err(GitError::AmbiguousReference(all)) && names_view(all@) == list
                },
            },
    {
        match GitRepo::object_resolve(name, listing, files) {
            Err(e) => Err(e),
            Ok(mut list) => {
                if list.len() == 0 {
                    Err(GitError::UnknownReference)
                } else if list.len() == 1 {
                    Ok(list.remove(0))
                } else {
                    Err(GitError::AmbiguousReference(list))
                }
            },
        }
    }

    /// One step of the way from the object at `sha` to an object of kind
    /// `fmt`.
    pub fn obj_follow(object: &Object, sha: &[u8], fmt: ObjectType, follow: bool) -> (out: Result<
        Follow,
        GitError,
    >)
        requires
            object.wf(),
        ensures
            match out {
                Ok(Follow::Found(at)) => followed(object@, sha@, fmt, follow) == Ok::<
                    (bool, Seq<u8>),
                    GitError,
                >((true, at@)),
                Ok(Follow::Next(at)) => followed(object@, sha@, fmt, follow) == Ok::<
                    (bool, Seq<u8>),
                    GitError,
                >((false, at@)),
                Err(e) => followed(object@, sha@, fmt, follow) == Err::<(bool, Seq<u8>), GitError>(
                    e,
                ),
            },
    {
        if object.object_type() == fmt {
            let at = copy_range(sha, 0, sha.len());
            assert(at@ =~= sha@);
            return Ok(Follow::Found(at));
        }
        match object {
            Object::Tag(tag) => {
                if !follow {
                    return Err(GitError::WrongObjectKind);
                }
                let key: [u8; 6] = [111u8, 98u8, 106u8, 101u8, 99u8, 116u8];
                assert(key@ =~= object_key());
                first_of(&tag.kvlm, key.as_slice())
            },
            Object::Commit(commit) => {
                if fmt != ObjectType::Tree {
                    return Err(GitError::WrongObjectKind);
                }
                let key: [u8; 4] = [116u8, 114u8, 101u8, 101u8];
                assert(key@ =~= tree_key());
                first_of(&commit.kvlm, key.as_slice())
            },
            _ => Err(GitError::WrongObjectKind),
        }
    }
}

impl GitRepo {
    /// One step of the way from the object at `sha` to an object of kind
    /// `fmt`, with account kept of the addresses read on the way: `visited`
    /// holds those read before `sha`, and `sha` joins them. Fails with
    /// `CorruptObject` where the step leads back to one of them.
    pub fn obj_chase(
        object: &Object,
        sha: &[u8],
        fmt: ObjectType,
        follow: bool,
        visited: &mut Vec<Vec<u8>>,
    ) -> (out: Result<Follow, GitError>)
        requires
            object.wf(),
        ensures
            names_view(final(visited)@) == names_view(old(visited)@).push(sha@),
            match out {
                Ok(Follow::Found(at)) => chased(
                    object@,
                    sha@,
                    fmt,
                    follow,
                    names_view(old(visited)@),
                ) == Ok::<(bool, Seq<u8>), GitError>((true, at@)),
                Ok(Follow::Next(at)) => chased(
                    object@,
                    sha@,
                    fmt,
                    follow,
                    names_view(old(visited)@),
                ) == Ok::<(bool, Seq<u8>), GitError>((false, at@)),
                Err(e) => chased(object@, sha@, fmt, follow, names_view(old(visited)@)) == Err::<
                    (bool, Seq<u8>),
                    GitError,
                >(e),
            },
    {
        let ghost before = names_view(visited@);
        let step = GitRepo::obj_follow(object, sha, fmt, follow);
        let back = match &step {
            Ok(Follow::Next(at)) => bytes_eq(at.as_slice(), sha) || contains_name(
                visited,
                at.as_slice(),
            ),
            _ => false,
        };
        let here = copy_range(sha, 0, sha.len());
        assert(here@ =~= sha@);
        visited.push(here);
        assert(names_view(visited@) =~= before.push(sha@));
        if back {
            Err(GitError::CorruptObject)
        } else {
            step
        }
    }
}

/// The address under `key` that is to be read next.
fn first_of(kvlm: &crate::kvlm::Kvlm, key: &[u8]) -> (out: Result<Follow, GitError>)
    requires
        kvlm.wf(),
    ensures
        match out {
            Ok(Follow::Next(at)) => first_value(kvlm@.headers, key@) == Some(at@),
            Ok(Follow::Found(_)) => false,
            Err(e) => first_value(kvlm@.headers, key@) is None && e == GitError::CorruptObject,
        },
{
    match kvlm.first(key) {
        Some(value) => {
            let at = copy_range(value.as_slice(), 0, value.len());
            assert(at@ =~= value@);
            Ok(Follow::Next(at))
        },
        None => Err(GitError::CorruptObject),
    }
}

impl Object {
    /// What holds of every object that this library hands out: the headers of
    /// a commit or a tag hold no key twice and no key without a value.
    pub open spec fn wf(&self) -> bool {
        match self {
            Object::Commit(commit) => commit.kvlm.wf(),
            Object::Tag(tag) => tag.kvlm.wf(),
            _ => true,
        }
    }
}

} // verus!

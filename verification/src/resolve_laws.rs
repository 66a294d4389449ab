use crate::bytes::has_prefix;
use crate::error::GitError;
use crate::refs::{file_content, resolved_ref, MAX_REF_DEPTH};
use crate::resolve::{
    candidates, hash_candidates, head_name, heads_dir, is_hash_name, lowered, tags_dir,
    with_candidate, with_ref,
};
use vstd::prelude::*;

verus! {

/// A name of three bytes or fewer is never taken for a short hash: where no tag
/// and no branch has that name, it stands for nothing, whatever objects there
/// are.
pub proof fn lemma_short_name_unknown(
    name: Seq<u8>,
    listing: Seq<Seq<u8>>,
    files: Seq<(Seq<u8>, Seq<u8>)>,
)
    requires
        name.len() <= 3,
        file_content(files, tags_dir() + name) is None,
        file_content(files, heads_dir() + name) is None,
    ensures
        candidates(name, listing, files) == Ok::<Seq<Seq<u8>>, GitError>(Seq::empty()),
{
    assert(head_name().len() == 4);
}

/// A listed address stays listed when more are put behind it.
proof fn lemma_with_candidate_keeps(list: Seq<Seq<u8>>, sha: Seq<u8>, other: Seq<u8>)
    requires
        list.contains(other),
    ensures
        with_candidate(list, sha).contains(other),
{
    let i = choose|i: int| 0 <= i < list.len() && list[i] == other;
    if !list.contains(sha) {
        assert(list.push(sha)[i] == other);
    }
}

/// An address that was put behind a list is in it.
proof fn lemma_with_candidate_has(list: Seq<Seq<u8>>, sha: Seq<u8>)
    ensures
        with_candidate(list, sha).contains(sha),
{
    if !list.contains(sha) {
        assert(list.push(sha)[list.len() as int] == sha);
    }
}

/// Every file name that begins with the digits behind the first two gives a
/// candidate.
proof fn lemma_hash_candidates_has(name: Seq<u8>, listing: Seq<Seq<u8>>, count: nat, at: int)
    requires
        0 <= at < count <= listing.len(),
        has_prefix(listing[at], lowered(name).skip(2)),
    ensures
        hash_candidates(name, listing, count).contains(lowered(name).take(2) + listing[at]),
    decreases count,
{
    let before = hash_candidates(name, listing, (count - 1) as nat);
    let file = listing[count - 1];
    if at == count - 1 {
        lemma_with_candidate_has(before, lowered(name).take(2) + file);
    } else {
        lemma_hash_candidates_has(name, listing, (count - 1) as nat, at);
        if has_prefix(file, lowered(name).skip(2)) {
            lemma_with_candidate_keeps(
                before,
                lowered(name).take(2) + file,
                lowered(name).take(2) + listing[at],
            );
        }
    }
}

/// What a list holds, it holds with what a reference adds.
proof fn lemma_with_ref_keeps(
    list: Seq<Seq<u8>>,
    files: Seq<(Seq<u8>, Seq<u8>)>,
    path: Seq<u8>,
    other: Seq<u8>,
)
    requires
        list.contains(other),
    ensures
        with_ref(list, files, path) matches Ok(more) ==> more.contains(other),
{
    match resolved_ref(files, path, MAX_REF_DEPTH as nat) {
        Ok(Some(sha)) => {
            lemma_with_candidate_keeps(list, sha, other);
        },
        _ => {},
    }
}

/// Four hexadecimal digits are enough: a name of four to forty digits stands
/// for every object whose file name, in the directory of the first two digits,
/// begins with the others.
pub proof fn lemma_hash_name_matches(
    name: Seq<u8>,
    listing: Seq<Seq<u8>>,
    files: Seq<(Seq<u8>, Seq<u8>)>,
    at: int,
)
    requires
        is_hash_name(name),
        0 <= at < listing.len(),
        has_prefix(listing[at], lowered(name).skip(2)),
    ensures
        candidates(name, listing, files) matches Ok(list) ==> list.contains(
            lowered(name).take(2) + listing[at],
        ),
{
    let sha = lowered(name).take(2) + listing[at];
    assert(name != head_name()) by {
        if name == head_name() {
            assert(crate::hexcodec::is_hex(name[0]));
        }
    }
    let hashes = hash_candidates(name, listing, listing.len());
    lemma_hash_candidates_has(name, listing, listing.len(), at);
    lemma_with_ref_keeps(hashes, files, tags_dir() + name, sha);
    match with_ref(hashes, files, tags_dir() + name) {
        Ok(tagged) => {
            lemma_with_ref_keeps(tagged, files, heads_dir() + name, sha);
        },
        Err(_) => {},
    }
}

} // verus!

use crate::bytes::{
    bytes_eq, bytes_less, copy_range, has_prefix, lex_less, starts_with, trim_end_len, trimmed_end,
};
use crate::error::GitError;
use crate::repo::GitRepo;
use vstd::prelude::*;

verus! {

/// How many symbolic references a resolution follows before it gives up.
pub const MAX_REF_DEPTH: usize = 8;

/// The files of the reference store as they were read: each path, relative to
/// the metadata directory, with the content of its file.
#[derive(Debug, Clone, PartialEq, Eq)]
pub struct RefFiles {
    pub files: Vec<(Vec<u8>, Vec<u8>)>,
}

impl View for RefFiles {
    type V = Seq<(Seq<u8>, Seq<u8>)>;

    open spec fn view(&self) -> Seq<(Seq<u8>, Seq<u8>)> {
        Seq::new(self.files@.len(), |i: int| (self.files@[i].0@, self.files@[i].1@))
    }
}

/// The content of the first file with the given path, or `None` where there is
/// no such file.
pub open spec fn file_content(files: Seq<(Seq<u8>, Seq<u8>)>, path: Seq<u8>) -> Option<Seq<u8>>
    decreases files.len(),
{
    if files.len() == 0 {
        None
    } else if files[0].0 == path {
        Some(files[0].1)
    } else {
        file_content(files.skip(1), path)
    }
}

/// The text that opens a symbolic reference: `ref: `.
pub open spec fn symbolic_prefix() -> Seq<u8> {
    seq![114u8, 101u8, 102u8, 58u8, 32u8]
}

/// Where a reference leads: through at most `depth` symbolic references to
/// the content of the first file that is not symbolic. `Ok(None)` where a file
/// on the way is missing; `UnknownReference` where the chain is longer than
/// `depth`, as a cycle is.
pub open spec fn resolved_ref(files: Seq<(Seq<u8>, Seq<u8>)>, path: Seq<u8>, depth: nat) -> Result<
    Option<Seq<u8>>,
    GitError,
>
    decreases depth,
{
    match file_content(files, path) {
        None => Ok(None),
        Some(content) => {
            let text = trimmed_end(content);
            if has_prefix(text, symbolic_prefix()) {
                if depth == 0 {
                    Err(GitError::UnknownReference)
                } else {
                    resolved_ref(files, text.skip(5), (depth - 1) as nat)
                }
            } else {
                Ok(Some(text))
            }
        },
    }
}

impl RefFiles {
    /// The content of the file at `path`.
    pub fn get(&self, path: &[u8]) -> (content: Option<&Vec<u8>>)
        ensures
            match content {
                Some(c) => file_content(self@, path@) == Some(c@),
                None => file_content(self@, path@) is None,
            },
    {
        let mut i: usize = 0;
        assert(self@.skip(0) =~= self@);
        while i < self.files.len()
            invariant
                i <= self.files@.len(),
                file_content(self@, path@) == file_content(self@.skip(i as int), path@),
            decreases self.files@.len() - i,
        {
            let ghost rest = self@.skip(i as int);
            assert(rest[0] == self@[i as int]);
            assert(rest.skip(1) =~= self@.skip(i + 1));
            if bytes_eq(self.files[i].0.as_slice(), path) {
                return Some(&self.files[i].1);
            }
            i = i + 1;
        }
        None
    }
}

impl GitRepo {
    /// Follows the reference at `path` through the files that were read, over
    /// at most eight symbolic references. Gives the content of the last file,
    /// without the white space at its end; `None` where a file on the way is
    /// missing. Fails with `UnknownReference` where the chain is longer, as
    /// every cycle is.
    pub fn ref_resolve(files: &RefFiles, path: &[u8]) -> (out: Result<Option<Vec<u8>>, GitError>)
        ensures
            match out {
                Ok(Some(sha)) => resolved_ref(files@, path@, MAX_REF_DEPTH as nat) == Ok::<
                    Option<Seq<u8>>,
                    GitError,
                >(Some(sha@)),
                Ok(None) => resolved_ref(files@, path@, MAX_REF_DEPTH as nat) == Ok::<
                    Option<Seq<u8>>,
                    GitError,
                >(None),
                Err(e) => resolved_ref(files@, path@, MAX_REF_DEPTH as nat) == Err::<
                    Option<Seq<u8>>,
                    GitError,
                >(e),
            },
    {
        let mut current: Vec<u8> = copy_range(path, 0, path.len());
        assert(current@ =~= path@);
        let mut left: usize = MAX_REF_DEPTH;
        loop
            invariant
                left <= MAX_REF_DEPTH,
                resolved_ref(files@, path@, MAX_REF_DEPTH as nat) == resolved_ref(
                    files@,
                    current@,
                    left as nat,
                ),
            decreases left,
        {
            match files.get(current.as_slice()) {
                None => {
                    return Ok(None);
                },
                Some(content) => {
                    let len = trim_end_len(content.as_slice());
                    let text = &content.as_slice()[0..len];
                    assert(text@ =~= trimmed_end(content@));
                    let prefix: [u8; 5] = [114u8, 101u8, 102u8, 58u8, 32u8];
                    assert(prefix@ =~= symbolic_prefix());
                    if starts_with(text, prefix.as_slice()) {
                        if left == 0 {
                            return Err(GitError::UnknownReference);
                        }
                        let next = copy_range(text, 5, text.len());
                        assert(next@ =~= text@.skip(5));
                        current = next;
                        left = left - 1;
                    } else {
                        let sha = copy_range(text, 0, text.len());
                        assert(sha@ =~= text@);
                        return Ok(Some(sha));
                    }
                },
            }
        }
    }

    /// The content of a reference file for an address: the address and a
    /// newline.
    pub fn ref_create(sha: &[u8]) -> (content: Vec<u8>)
        ensures
            content@ == sha@.push(10u8),
    {
        let mut content = copy_range(sha, 0, sha.len());
        assert(content@ =~= sha@);
        content.push(10u8);
        content
    }
}

/// `listed` with one more reference put where its name belongs; a name that is
/// listed is not listed again.
pub open spec fn insert_ref(listed: Seq<(Seq<u8>, Seq<u8>)>, name: Seq<u8>, sha: Seq<u8>) -> Seq<
    (Seq<u8>, Seq<u8>),
>
    decreases listed.len(),
{
    if listed.len() == 0 {
        seq![(name, sha)]
    } else if listed.last().0 == name {
        listed
    } else if lex_less(name, listed.last().0) {
        insert_ref(listed.drop_last(), name, sha).push(listed.last())
    } else {
        listed.push((name, sha))
    }
}

/// The references among the first `count` files whose path begins with
/// `prefix`, each with the address it leads to, in the order of their names.
/// A reference that leads to a missing file is left out.
pub open spec fn listed_refs(files: Seq<(Seq<u8>, Seq<u8>)>, prefix: Seq<u8>, count: nat) -> Result<
    Seq<(Seq<u8>, Seq<u8>)>,
    GitError,
>
    decreases count,
{
    if count == 0 {
        Ok(Seq::empty())
    } else {
        match listed_refs(files, prefix, (count - 1) as nat) {
            Err(e) => Err(e),
            Ok(before) => {
                let path = files[count - 1].0;
                if !has_prefix(path, prefix) {
                    Ok(before)
                } else {
                    match resolved_ref(files, path, MAX_REF_DEPTH as nat) {
                        Err(e) => Err(e),
                        Ok(None) => Ok(before),
                        Ok(Some(sha)) => Ok(insert_ref(before, path, sha)),
                    }
                }
            },
        }
    }
}

/// Whether the names strictly ascend in byte order.
pub open spec fn refs_ascending(listed: Seq<(Seq<u8>, Seq<u8>)>) -> bool {
    forall|i: int, j: int|
        0 <= i < j < listed.len() ==> lex_less((#[trigger] listed[i]).0, (#[trigger] listed[j]).0)
}

/// The views of a list of references.
pub open spec fn pair_views(pairs: Seq<(Vec<u8>, Vec<u8>)>) -> Seq<(Seq<u8>, Seq<u8>)> {
    Seq::new(pairs.len(), |i: int| (pairs[i].0@, pairs[i].1@))
}

/// Putting a reference in at `at` is what `insert_ref` does, where every name
/// from `at` on comes behind the new name and the one before `at` comes before
/// it.
proof fn lemma_insert_ref_at(listed: Seq<(Seq<u8>, Seq<u8>)>, name: Seq<u8>, sha: Seq<u8>, at: int)
    requires
        0 <= at <= listed.len(),
        forall|j: int| at <= j < listed.len() ==> lex_less(name, (#[trigger] listed[j]).0),
        at > 0 ==> lex_less(listed[at - 1].0, name),
    ensures
        insert_ref(listed, name, sha) == listed.insert(at, (name, sha)),
    decreases listed.len() - at,
{
    if listed.len() == 0 {
        assert(seq![(name, sha)] =~= listed.insert(at, (name, sha)));
    } else if at == listed.len() {
        crate::bytes::lemma_lex_less_irreflexive(name);
        if lex_less(name, listed.last().0) {
            crate::bytes::lemma_lex_less_transitive(name, listed.last().0, name);
        }
        assert(listed.push((name, sha)) =~= listed.insert(at, (name, sha)));
    } else {
        let shorter = listed.drop_last();
        assert(lex_less(name, listed[listed.len() - 1].0));
        crate::bytes::lemma_lex_less_irreflexive(name);
        assert forall|j: int| at <= j < shorter.len() implies lex_less(
            name,
            (#[trigger] shorter[j]).0,
        ) by {
            assert(shorter[j] == listed[j]);
        }
        if at > 0 {
            assert(shorter[at - 1] == listed[at - 1]);
        }
        lemma_insert_ref_at(shorter, name, sha, at);
        assert(shorter.insert(at, (name, sha)).push(listed.last()) =~= listed.insert(
            at,
            (name, sha),
        ));
    }
}

/// A name that is listed is not listed again.
proof fn lemma_insert_ref_present(
    listed: Seq<(Seq<u8>, Seq<u8>)>,
    name: Seq<u8>,
    sha: Seq<u8>,
    at: int,
)
    requires
        refs_ascending(listed),
        0 <= at < listed.len(),
        listed[at].0 == name,
    ensures
        insert_ref(listed, name, sha) == listed,
    decreases listed.len() - at,
{
    if at < listed.len() - 1 {
        let shorter = listed.drop_last();
        assert(lex_less(listed[at].0, listed[listed.len() - 1].0));
        crate::bytes::lemma_lex_less_irreflexive(name);
        assert forall|i: int, j: int| 0 <= i < j < shorter.len() implies lex_less(
            (#[trigger] shorter[i]).0,
            (#[trigger] shorter[j]).0,
        ) by {
            assert(shorter[i] == listed[i] && shorter[j] == listed[j]);
        }
        assert(shorter[at] == listed[at]);
        lemma_insert_ref_present(shorter, name, sha, at);
        assert(shorter.push(listed.last()) =~= listed);
    }
}

/// A failure stays: once a reference cannot be resolved, the list fails.
proof fn lemma_listed_refs_fail(
    files: Seq<(Seq<u8>, Seq<u8>)>,
    prefix: Seq<u8>,
    failed: nat,
    count: nat,
)
    requires
        failed <= count,
        listed_refs(files, prefix, failed) is Err,
    ensures
        listed_refs(files, prefix, count) == listed_refs(files, prefix, failed),
    decreases count - failed,
{
    if failed < count {
        lemma_listed_refs_fail(files, prefix, failed, (count - 1) as nat);
    }
}

impl GitRepo {
    /// Lists the references whose path begins with `prefix`, each with the
    /// address it leads to, in the order of their names. A reference that leads
    /// to a missing file is left out. Fails with `UnknownReference` where a
    /// chain is longer than eight.
    pub fn ref_list(files: &RefFiles, prefix: &[u8]) -> (out: Result<
        Vec<(Vec<u8>, Vec<u8>)>,
        GitError,
    >)
        ensures
            match out {
                Ok(listed) => listed_refs(files@, prefix@, files@.len()) == Ok::<
                    Seq<(Seq<u8>, Seq<u8>)>,
                    GitError,
                >(pair_views(listed@)) && refs_ascending(pair_views(listed@)),
                Err(e) => listed_refs(files@, prefix@, files@.len()) == Err::<
                    Seq<(Seq<u8>, Seq<u8>)>,
                    GitError,
                >(e),
            },
    {
        let mut listed: Vec<(Vec<u8>, Vec<u8>)> = Vec::new();
        let mut i: usize = 0;
        assert(pair_views(listed@) =~= Seq::<(Seq<u8>, Seq<u8>)>::empty());
        while i < files.files.len()
            invariant
                i <= files.files@.len(),
                files@.len() == files.files@.len(),
                refs_ascending(pair_views(listed@)),
                listed_refs(files@, prefix@, i as nat) == Ok::<Seq<(Seq<u8>, Seq<u8>)>, GitError>(
                    pair_views(listed@),
                ),
            decreases files.files@.len() - i,
        {
            let path = &files.files[i].0;
            assert(files@[i as int].0 == path@);
            if starts_with(path.as_slice(), prefix) {
                match GitRepo::ref_resolve(files, path.as_slice()) {
                    Err(e) => {
                        proof {
                            lemma_listed_refs_fail(
                                files@,
                                prefix@,
                                (i + 1) as nat,
                                files@.len(),
                            );
                        }
                        return Err(e);
                    },
                    Ok(None) => {},
                    Ok(Some(sha)) => {
                        let ghost before = pair_views(listed@);
                        let mut at: usize = listed.len();
                        while at > 0 && bytes_less(path.as_slice(), listed[at - 1].0.as_slice())
                            invariant
                                at <= listed@.len(),
                                before == pair_views(listed@),
                                forall|j: int|
                                    at <= j < before.len() ==> lex_less(
                                        path@,
                                        (#[trigger] before[j]).0,
                                    ),
                            decreases at,
                        {
                            at = at - 1;
                        }
                        if at > 0 && bytes_eq(path.as_slice(), listed[at - 1].0.as_slice()) {
                            proof {
                                lemma_insert_ref_present(before, path@, sha@, at - 1);
                            }
                        } else {
                            proof {
                                if at > 0 {
                                    crate::bytes::lemma_lex_less_total(path@, before[at - 1].0);
                                }
                                lemma_insert_ref_at(before, path@, sha@, at as int);
                            }
                            let name = copy_range(path.as_slice(), 0, path.len());
                            assert(name@ =~= path@);
                            listed.insert(at, (name, sha));
                            proof {
                                let now = pair_views(listed@);
                                assert(now =~= before.insert(at as int, (path@, sha@)));
                                assert forall|a: int, b: int| 0 <= a < b < now.len() implies lex_less(
                                    (#[trigger] now[a]).0,
                                    (#[trigger] now[b]).0,
                                ) by {
                                    if b < at {
                                        assert(lex_less(before[a].0, before[b].0));
                                    } else if b == at {
                                        if a < at - 1 {
                                            assert(lex_less(before[a].0, before[at - 1].0));
                                            crate::bytes::lemma_lex_less_transitive(
                                                before[a].0,
                                                before[at - 1].0,
                                                path@,
                                            );
                                        }
                                    } else if a < at {
                                        assert(lex_less(before[a].0, before[b - 1].0));
                                    } else if a == at {
                                        assert(lex_less(path@, before[b - 1].0));
                                    } else {
                                        assert(lex_less(before[a - 1].0, before[b - 1].0));
                                    }
                                }
                            }
                        }
                    },
                }
            }
            i = i + 1;
        }
        Ok(listed)
    }
}

/// A resolution ends in one of three ways: a file is missing, the chain is too
/// long, or a file is found that is not symbolic. So it follows at most `depth`
/// symbolic references, and a cycle ends in an error.
pub proof fn lemma_ref_resolution_bounded(files: Seq<(Seq<u8>, Seq<u8>)>, path: Seq<u8>, depth: nat)
    ensures
        match resolved_ref(files, path, depth) {
            Ok(None) => true,
            Ok(Some(text)) => !has_prefix(text, symbolic_prefix()),
            Err(e) => e == GitError::UnknownReference,
        },
    decreases depth,
{
    match file_content(files, path) {
        None => {},
        Some(content) => {
            let text = trimmed_end(content);
            if has_prefix(text, symbolic_prefix()) && depth > 0 {
                lemma_ref_resolution_bounded(files, text.skip(5), (depth - 1) as nat);
            }
        },
    }
}

/// A reference that leads to itself is not resolved, whatever the depth.
pub proof fn lemma_ref_cycle(files: Seq<(Seq<u8>, Seq<u8>)>, path: Seq<u8>, depth: nat)
    requires
        file_content(files, path) matches Some(content) && trimmed_end(content)
            == symbolic_prefix() + path,
    ensures
        resolved_ref(files, path, depth) == Err::<Option<Seq<u8>>, GitError>(
            GitError::UnknownReference,
        ),
    decreases depth,
{
    let text = trimmed_end(file_content(files, path)->0);
    assert(text.subrange(0, 5) =~= symbolic_prefix());
    assert(text.skip(5) =~= path);
    if depth > 0 {
        lemma_ref_cycle(files, path, (depth - 1) as nat);
    }
}

} // verus!

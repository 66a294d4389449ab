use crate::bytes::copy_range;
use crate::error::GitError;
use crate::git_object::{GitObject, ObjectType};
use crate::kvlm::{grouped, kvlm_parse, kvlm_serialize, parsed, serialized, Kvlm, KvlmView};
use vstd::prelude::*;

verus! {

/// A commit: headers such as `tree`, `parent`, `author` and `committer`, and a
/// message.
#[derive(Debug, Clone)]
pub struct GitCommit {
    /// The payload that the object was made from.
    pub data: Vec<u8>,
    /// The headers and the message.
    pub kvlm: Kvlm,
}

/// What a payload of headers and message holds, or `None` where it cannot be
/// read.
pub open spec fn parsed_kvlm(payload: Seq<u8>) -> Option<KvlmView> {
    match parsed(payload) {
        Some((lines, message)) => Some(KvlmView { headers: grouped(lines), message }),
        None => None,
    }
}

impl GitCommit {
    /// The payload that the commit was made from.
    pub open spec fn source_bytes(&self) -> Seq<u8> {
        self.data@
    }

    /// Reads a commit payload. Fails with `CorruptObject` where it cannot be
    /// read.
    pub fn new(data: Vec<u8>) -> (out: Result<Self, GitError>)
        ensures
            match out {
                Ok(commit) => parsed_kvlm(data@) == Some(commit.kvlm@) && commit.kvlm.wf()
                    && commit.source_bytes() == data@,
                Err(e) => parsed_kvlm(data@) is None && e == GitError::CorruptObject,
            },
    {
        match kvlm_parse(data.as_slice()) {
            Ok(kvlm) => Ok(GitCommit { data, kvlm }),
            Err(e) => Err(e),
        }
    }
}

impl GitObject for GitCommit {
    open spec fn kind(&self) -> ObjectType {
        ObjectType::Commit
    }

    open spec fn payload(&self) -> Option<Seq<u8>> {
        Some(serialized(self.kvlm@))
    }

    open spec fn source(&self) -> Seq<u8> {
        self.source_bytes()
    }

    fn serialize(&self) -> (out: Result<Vec<u8>, GitError>) {
        Ok(kvlm_serialize(&self.kvlm))
    }

    fn deserialize(&self) -> (out: Vec<u8>) {
        self.data.clone()
    }

    fn format(&self) -> (out: Vec<u8>) {
        copy_range(ObjectType::Commit.as_iter(), 0, 6)
    }

    fn data(&self) -> (out: Vec<u8>) {
        self.data.clone()
    }
}

} // verus!

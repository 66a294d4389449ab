use crate::bytes::copy_range;
use crate::commit::parsed_kvlm;
use crate::error::GitError;
use crate::git_object::{GitObject, ObjectType};
use crate::kvlm::{kvlm_parse, kvlm_serialize, serialized, Kvlm};
use vstd::prelude::*;

verus! {

/// An annotated tag: the headers `object`, `type`, `tag` and `tagger`, and a
/// message.
#[derive(Debug, Clone)]
pub struct GitTag {
    /// The payload that the object was made from.
    pub data: Vec<u8>,
    /// The headers and the message.
    pub kvlm: Kvlm,
}

impl GitTag {
    /// The payload that the tag was made from.
    pub open spec fn source_bytes(&self) -> Seq<u8> {
        self.data@
    }

    /// Reads a tag payload; an empty one gives a tag without headers. Fails
    /// with `CorruptObject` where the payload cannot be read.
    pub fn new(data: Vec<u8>) -> (out: Result<Self, GitError>)
        ensures
            match out {
                Ok(tag) => parsed_kvlm(data@) == Some(tag.kvlm@) && tag.kvlm.wf()
                    && tag.source_bytes() == data@,
                Err(e) => parsed_kvlm(data@) is None && e == GitError::CorruptObject,
            },
    {
        match kvlm_parse(data.as_slice()) {
            Ok(kvlm) => Ok(GitTag { data, kvlm }),
            Err(e) => Err(e),
        }
    }
}

impl GitObject for GitTag {
    open spec fn kind(&self) -> ObjectType {
        ObjectType::Tag
    }

    open spec fn payload(&self) -> Option<Seq<u8>> {
        Some(serialized(self.kvlm@))
    }

    open spec fn source(&self) -> Seq<u8> {
        self.source_bytes()
    }

    fn serialize(&self) -> (out: Result<Vec<u8>, GitError>) {
        Ok(kvlm_serialize(&self.kvlm))
    }

    fn deserialize(&self) -> (out: Vec<u8>) {
        self.data.clone()
    }

    fn format(&self) -> (out: Vec<u8>) {
        copy_range(ObjectType::Tag.as_iter(), 0, 3)
    }

    fn data(&self) -> (out: Vec<u8>) {
        self.data.clone()
    }
}

} // verus!

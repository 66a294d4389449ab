use crate::error::GitError;
use crate::git_object::{GitObject, ObjectType};
use vstd::prelude::*;

verus! {

/// A blob: bytes that mean nothing to the store.
#[derive(Debug, Clone, PartialEq, Eq)]
pub struct GitBlob {
    data: Vec<u8>,
}

impl View for GitBlob {
    type V = Seq<u8>;

    closed spec fn view(&self) -> Seq<u8> {
        self.data@
    }
}

impl GitBlob {
    /// A blob of the given bytes.
    pub fn new(data: Vec<u8>) -> (blob: Self)
        ensures
            blob@ == data@,
    {
        GitBlob { data }
    }
}

impl GitObject for GitBlob {
    open spec fn kind(&self) -> ObjectType {
        ObjectType::Blob
    }

    open spec fn payload(&self) -> Option<Seq<u8>> {
        Some(self@)
    }

    open spec fn source(&self) -> Seq<u8> {
        self@
    }

    fn serialize(&self) -> (out: Result<Vec<u8>, GitError>) {
        Ok(self.data.clone())
    }

    fn deserialize(&self) -> (out: Vec<u8>) {
        self.data.clone()
    }

    fn format(&self) -> (out: Vec<u8>) {
        crate::bytes::copy_range(ObjectType::Blob.as_iter(), 0, 4)
    }

    fn data(&self) -> (out: Vec<u8>) {
        self.data.clone()
    }
}

} // verus!

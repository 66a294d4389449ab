use crate::bytes::bytes_eq;
use crate::error::GitError;
use vstd::prelude::*;
use vstd::string::StringSliceAdditionalSpecFns;

verus! {

/// The four kinds of object.
#[derive(Debug, Clone, Copy, PartialEq, Eq, Structural)]
pub enum ObjectType {
    Blob,
    Tree,
    Commit,
    Tag,
}

/// The name of a kind as it stands in an object's header.
pub open spec fn kind_bytes(kind: ObjectType) -> Seq<u8> {
    match kind {
        ObjectType::Blob => seq![98u8, 108u8, 111u8, 98u8],
        ObjectType::Tree => seq![116u8, 114u8, 101u8, 101u8],
        ObjectType::Commit => seq![99u8, 111u8, 109u8, 109u8, 105u8, 116u8],
        ObjectType::Tag => seq![116u8, 97u8, 103u8],
    }
}

/// The kind that a name stands for.
pub open spec fn kind_of(name: Seq<u8>) -> Option<ObjectType> {
    if name == kind_bytes(ObjectType::Blob) {
        Some(ObjectType::Blob)
    } else if name == kind_bytes(ObjectType::Tree) {
        Some(ObjectType::Tree)
    } else if name == kind_bytes(ObjectType::Commit) {
        Some(ObjectType::Commit)
    } else if name == kind_bytes(ObjectType::Tag) {
        Some(ObjectType::Tag)
    } else {
        None
    }
}

/// Each kind is the kind of its own name, and a name holds neither a space nor
/// a zero byte.
pub proof fn lemma_kind_names(kind: ObjectType)
    ensures
        kind_of(kind_bytes(kind)) == Some(kind),
        forall|i: int|
            0 <= i < kind_bytes(kind).len() ==> (#[trigger] kind_bytes(kind)[i]) != 32
                && kind_bytes(kind)[i] != 0,
{
    let blob = kind_bytes(ObjectType::Blob);
    let tree = kind_bytes(ObjectType::Tree);
    let commit = kind_bytes(ObjectType::Commit);
    let tag = kind_bytes(ObjectType::Tag);
    assert(blob[0] != tree[0]);
    assert(blob.len() != commit.len());
    assert(blob.len() != tag.len());
    assert(tree.len() != commit.len());
    assert(tree.len() != tag.len());
    assert(commit.len() != tag.len());
}

impl ObjectType {
    /// The name of the kind as it stands in an object's header.
    pub fn as_iter(&self) -> (name: &'static [u8])
        ensures
            name@ == kind_bytes(*self),
    {
        let name: &'static [u8] = match self {
            ObjectType::Blob => &[98u8, 108u8, 111u8, 98u8],
            ObjectType::Tree => &[116u8, 114u8, 101u8, 101u8],
            ObjectType::Commit => &[99u8, 111u8, 109u8, 109u8, 105u8, 116u8],
            ObjectType::Tag => &[116u8, 97u8, 103u8],
        };
        assert(name@ =~= kind_bytes(*self));
        name
    }

    /// The kind that a header names, or `None` for any other name.
    pub fn from_bytes(name: &[u8]) -> (kind: Option<ObjectType>)
        ensures
            kind == kind_of(name@),
    {
        if bytes_eq(name, ObjectType::Blob.as_iter()) {
            Some(ObjectType::Blob)
        } else if bytes_eq(name, ObjectType::Tree.as_iter()) {
            Some(ObjectType::Tree)
        } else if bytes_eq(name, ObjectType::Commit.as_iter()) {
            Some(ObjectType::Commit)
        } else if bytes_eq(name, ObjectType::Tag.as_iter()) {
            Some(ObjectType::Tag)
        } else {
            None
        }
    }

    /// The kind that a word names, or `None` for any other word.
    pub fn from_str(word: &str) -> (kind: Option<ObjectType>)
        ensures
            kind == kind_of(word.spec_bytes()),
    {
        ObjectType::from_bytes(word.as_bytes())
    }

    /// The name of the kind as text.
    pub fn to_string(&self) -> (name: String)
        ensures
            name@ == match *self {
                ObjectType::Blob => "blob"@,
                ObjectType::Tree => "tree"@,
                ObjectType::Commit => "commit"@,
                ObjectType::Tag => "tag"@,
            },
    {
        match self {
            ObjectType::Blob => "blob".to_owned(),
            ObjectType::Tree => "tree".to_owned(),
            ObjectType::Commit => "commit".to_owned(),
            ObjectType::Tag => "tag".to_owned(),
        }
    }
}

/// What the four kinds of object have in common.
pub trait GitObject {
    /// The kind of the object.
    spec fn kind(&self) -> ObjectType;

    /// The payload as it is written, or `None` where the object holds what
    /// cannot be written.
    spec fn payload(&self) -> Option<Seq<u8>>;

    /// The bytes that the object was made from.
    spec fn source(&self) -> Seq<u8>;

    /// Writes the payload. Fails with `CorruptObject` where it cannot be
    /// written.
    fn serialize(&self) -> (out: Result<Vec<u8>, GitError>)
        ensures
            match out {
                Ok(bytes) => self.payload() == Some(bytes@),
                Err(e) => self.payload() is None && e == GitError::CorruptObject,
            },
    ;

    /// The bytes that the object was made from.
    fn deserialize(&self) -> (out: Vec<u8>)
        ensures
            out@ == self.source(),
    ;

    /// The name of the object's kind.
    fn format(&self) -> (out: Vec<u8>)
        ensures
            out@ == kind_bytes(self.kind()),
    ;

    /// The bytes that the object was made from.
    fn data(&self) -> (out: Vec<u8>)
        ensures
            out@ == self.source(),
    ;
}

} // verus!

use crate::blob::GitBlob;
use crate::bytes::{
    all_digits, append_bytes, copy_range, decimal, decimal_equals, decimal_value, find_byte,
    index_of, write_decimal,
};
use crate::commit::{parsed_kvlm, GitCommit};
use crate::error::GitError;
use crate::git_object::{kind_bytes, kind_of, GitObject, ObjectType};
use crate::hash::{sha1_digest, sha1_of};
use crate::hexcodec::{bytes_to_address, hex_encoded, is_address};
use crate::kvlm::{serialized, KvlmView};
use crate::repo::GitRepo;
use crate::tag::GitTag;
use crate::tree::{leaves_writable, parsed_leaves, tree_bytes, GitTree};
use crate::tree_leaf::LeafView;
use crate::zlib::{zlib_decode, zlib_deflated, zlib_encode, zlib_inflated};
use vstd::prelude::*;

verus! {

/// An object of one of the four kinds.
#[derive(Debug, Clone)]
pub enum Object {
    Blob(GitBlob),
    Tree(GitTree),
    Commit(GitCommit),
    Tag(GitTag),
}

/// What an object holds, as plain values.
pub enum ObjectView {
    Blob(Seq<u8>),
    Tree(Seq<LeafView>),
    Commit(KvlmView),
    Tag(KvlmView),
}

impl View for Object {
    type V = ObjectView;

    open spec fn view(&self) -> ObjectView {
        match self {
            Object::Blob(blob) => ObjectView::Blob(blob@),
            Object::Tree(tree) => ObjectView::Tree(tree.entries()),
            Object::Commit(commit) => ObjectView::Commit(commit.kvlm@),
            Object::Tag(tag) => ObjectView::Tag(tag.kvlm@),
        }
    }
}

/// The kind of an object.
pub open spec fn view_kind(object: ObjectView) -> ObjectType {
    match object {
        ObjectView::Blob(_) => ObjectType::Blob,
        ObjectView::Tree(_) => ObjectType::Tree,
        ObjectView::Commit(_) => ObjectType::Commit,
        ObjectView::Tag(_) => ObjectType::Tag,
    }
}

/// The payload of an object as it is written, or `None` for a tree with an
/// entry that cannot be written.
pub open spec fn written_payload(object: ObjectView) -> Option<Seq<u8>> {
    match object {
        ObjectView::Blob(data) => Some(data),
        ObjectView::Tree(leaves) => if leaves_writable(leaves) {
            Some(tree_bytes(leaves))
        } else {
            None
        },
        ObjectView::Commit(kvlm) => Some(serialized(kvlm)),
        ObjectView::Tag(kvlm) => Some(serialized(kvlm)),
    }
}

/// The object that a payload of the given kind holds, or `None` where the
/// payload cannot be read.
pub open spec fn read_payload(kind: ObjectType, payload: Seq<u8>) -> Option<ObjectView> {
    match kind {
        ObjectType::Blob => Some(ObjectView::Blob(payload)),
        ObjectType::Tree => match parsed_leaves(payload) {
            Some(leaves) => Some(ObjectView::Tree(leaves)),
            None => None,
        },
        ObjectType::Commit => match parsed_kvlm(payload) {
            Some(kvlm) => Some(ObjectView::Commit(kvlm)),
            None => None,
        },
        ObjectType::Tag => match parsed_kvlm(payload) {
            Some(kvlm) => Some(ObjectView::Tag(kvlm)),
            None => None,
        },
    }
}

/// An object as it is hashed and stored: the name of its kind, a space, the
/// payload's length in decimal digits, a zero byte, the payload.
pub open spec fn framed(kind: ObjectType, payload: Seq<u8>) -> Seq<u8> {
    kind_bytes(kind) + seq![32u8] + decimal(payload.len()) + seq![0u8] + payload
}

/// The kind and the payload of a framed object. The kind ends at the first
/// space and the header at the first zero byte; the digits between them must
/// give the length of what follows the header. `None` where the frame is bad.
pub open spec fn unframed(raw: Seq<u8>) -> Option<(ObjectType, Seq<u8>)> {
    let space = index_of(raw, 32u8);
    let end = index_of(raw, 0u8);
    let digits = raw.subrange(space + 1, end);
    if space < end < raw.len() && kind_of(raw.take(space)) is Some && digits.len() > 0
        && all_digits(digits) && decimal_value(digits) == raw.len() - end - 1 {
        Some((kind_of(raw.take(space))->0, raw.skip(end + 1)))
    } else {
        None
    }
}

/// The object that framed bytes hold.
pub open spec fn parsed_object(raw: Seq<u8>) -> Option<ObjectView> {
    match unframed(raw) {
        Some((kind, payload)) => read_payload(kind, payload),
        None => None,
    }
}

/// The address of an object: the SHA-1 digest of its framed bytes in forty
/// lower-case hexadecimal digits.
pub open spec fn object_address(kind: ObjectType, payload: Seq<u8>) -> Seq<u8> {
    hex_encoded(sha1_digest(framed(kind, payload)))
}

/// Where an object is kept below the metadata directory: `objects`, a
/// directory named by the first two digits of the address, a file named by the
/// rest.
pub open spec fn object_file(address: Seq<u8>) -> Seq<u8> {
    objects_dir() + address.take(2) + seq![47u8] + address.skip(2)
}

/// `objects/`.
pub open spec fn objects_dir() -> Seq<u8> {
    seq![111u8, 98u8, 106u8, 101u8, 99u8, 116u8, 115u8, 47u8]
}

/// An object ready to be stored.
#[derive(Debug, Clone, PartialEq, Eq)]
pub struct StoredObject {
    /// The address of the object.
    pub address: Vec<u8>,
    /// The file for the object, relative to the metadata directory.
    pub path: Vec<u8>,
    /// The deflated framed bytes: the content of the file.
    pub bytes: Vec<u8>,
}

impl GitObject for Object {
    open spec fn kind(&self) -> ObjectType {
        view_kind(self@)
    }

    open spec fn payload(&self) -> Option<Seq<u8>> {
        written_payload(self@)
    }

    open spec fn source(&self) -> Seq<u8> {
        match self {
            Object::Blob(blob) => blob.source(),
            Object::Tree(tree) => tree.source(),
            Object::Commit(commit) => commit.source(),
            Object::Tag(tag) => tag.source(),
        }
    }

    fn serialize(&self) -> (out: Result<Vec<u8>, GitError>) {
        match self {
            Object::Blob(blob) => blob.serialize(),
            Object::Tree(tree) => tree.serialize(),
            Object::Commit(commit) => commit.serialize(),
            Object::Tag(tag) => tag.serialize(),
        }
    }

    fn deserialize(&self) -> (out: Vec<u8>) {
        match self {
            Object::Blob(blob) => blob.deserialize(),
            Object::Tree(tree) => tree.deserialize(),
            Object::Commit(commit) => commit.deserialize(),
            Object::Tag(tag) => tag.deserialize(),
        }
    }

    fn format(&self) -> (out: Vec<u8>) {
        match self {
            Object::Blob(blob) => blob.format(),
            Object::Tree(tree) => tree.format(),
            Object::Commit(commit) => commit.format(),
            Object::Tag(tag) => tag.format(),
        }
    }

    fn data(&self) -> (out: Vec<u8>) {
        match self {
            Object::Blob(blob) => blob.data(),
            Object::Tree(tree) => tree.data(),
            Object::Commit(commit) => commit.data(),
            Object::Tag(tag) => tag.data(),
        }
    }
}

impl Object {
    /// The kind of the object.
    pub fn object_type(&self) -> (kind: ObjectType)
        ensures
            kind == view_kind(self@),
    {
        match self {
            Object::Blob(_) => ObjectType::Blob,
            Object::Tree(_) => ObjectType::Tree,
            Object::Commit(_) => ObjectType::Commit,
            Object::Tag(_) => ObjectType::Tag,
        }
    }
}

/// Makes objects from a kind and a payload.
pub struct GitObjectFactory;

impl GitObjectFactory {
    /// Reads `data` as the payload of an object of the given kind. Fails with
    /// `CorruptObject` where the payload cannot be read.
    pub fn new(object_type: ObjectType, data: Vec<u8>) -> (out: Result<Object, GitError>)
        ensures
            match out {
                Ok(object) => read_payload(object_type, data@) == Some(object@) && object.source()
                    == data@ && object.wf(),
                Err(e) => read_payload(object_type, data@) is None && e
                    == GitError::CorruptObject,
            },
    {
        match object_type {
            ObjectType::Blob => Ok(Object::Blob(GitBlob::new(data))),
            ObjectType::Tree => match GitTree::from_raw(data.as_slice()) {
                Ok(tree) => Ok(Object::Tree(tree)),
                Err(e) => Err(e),
            },
            ObjectType::Commit => match GitCommit::new(data) {
                Ok(commit) => Ok(Object::Commit(commit)),
                Err(e) => Err(e),
            },
            ObjectType::Tag => match GitTag::new(data) {
                Ok(tag) => Ok(Object::Tag(tag)),
                Err(e) => Err(e),
            },
        }
    }
}

/// Frames a payload.
pub fn object_frame(kind: ObjectType, payload: &[u8]) -> (raw: Vec<u8>)
    ensures
        raw@ == framed(kind, payload@),
{
    let mut raw: Vec<u8> = Vec::new();
    append_bytes(&mut raw, kind.as_iter());
    raw.push(32u8);
    let digits = write_decimal(payload.len());
    append_bytes(&mut raw, digits.as_slice());
    raw.push(0u8);
    append_bytes(&mut raw, payload);
    assert(raw@ =~= framed(kind, payload@));
    raw
}

/// Takes a frame apart. Fails with `CorruptObject` where the frame is bad.
pub fn object_unframe(raw: &[u8]) -> (out: Result<(ObjectType, Vec<u8>), GitError>)
    ensures
        match out {
            Ok((kind, payload)) => unframed(raw@) == Some((kind, payload@)),
            Err(e) => unframed(raw@) is None && e == GitError::CorruptObject,
        },
{
    let space = find_byte(raw, 32u8, 0);
    let end = find_byte(raw, 0u8, 0);
    if !(space < end && end < raw.len()) {
        return Err(GitError::CorruptObject);
    }
    assert(raw@.subrange(0, space as int) =~= raw@.take(space as int));
    let kind = match ObjectType::from_bytes(&raw[0..space]) {
        Some(kind) => kind,
        None => {
            return Err(GitError::CorruptObject);
        },
    };
    if !decimal_equals(&raw[space + 1..end], raw.len() - end - 1) {
        return Err(GitError::CorruptObject);
    }
    let payload = copy_range(raw, end + 1, raw.len());
    assert(payload@ =~= raw@.skip(end + 1));
    Ok((kind, payload))
}

/// Reads framed bytes as an object. Fails with `CorruptObject` where the frame
/// is bad or the payload cannot be read.
pub fn object_parse(raw: &[u8]) -> (out: Result<Object, GitError>)
    ensures
        match out {
            Ok(object) => {
                &&& object.wf()
                &&& parsed_object(raw@) == Some(object@)
                &&& unframed(raw@) matches Some((_, payload))
                &&& object.source() == payload
            },
            Err(e) => parsed_object(raw@) is None && e == GitError::CorruptObject,
        },
{
    match object_unframe(raw) {
        Ok((kind, payload)) => GitObjectFactory::new(kind, payload),
        Err(e) => Err(e),
    }
}

/// The object that a stored file holds: what inflating gives, read as framed
/// bytes.
pub open spec fn stored_object(stored: Seq<u8>) -> Option<ObjectView> {
    match zlib_inflated(stored) {
        Some(raw) => parsed_object(raw),
        None => None,
    }
}

/// The file of the object at an address.
fn address_file(address: &[u8]) -> (path: Vec<u8>)
    requires
        is_address(address@),
    ensures
        path@ == object_file(address@),
{
    let mut path: Vec<u8> = Vec::new();
    path.push(111u8);
    path.push(98u8);
    path.push(106u8);
    path.push(101u8);
    path.push(99u8);
    path.push(116u8);
    path.push(115u8);
    path.push(47u8);
    assert(path@ =~= objects_dir());
    append_bytes(&mut path, &address[0..2]);
    path.push(47u8);
    append_bytes(&mut path, &address[2..40]);
    assert(path@ =~= object_file(address@));
    path
}

impl GitRepo {
    /// The file of the object at `address`, relative to the metadata
    /// directory, or `None` where `address` is no address.
    pub fn object_path(address: &[u8]) -> (path: Option<Vec<u8>>)
        ensures
            match path {
                Some(p) => is_address(address@) && p@ == object_file(address@),
                None => !is_address(address@),
            },
    {
        if crate::hexcodec::is_object_address(address) {
            Some(address_file(address))
        } else {
            None
        }
    }

    /// Reads the content of an object's file: inflates it and reads the framed
    /// bytes. The object keeps the payload of the frame as the bytes that it
    /// was made from. Fails with `CorruptObject` where the content cannot be
    /// inflated or read.
    pub fn object_read(stored: &[u8]) -> (out: Result<Object, GitError>)
        ensures
            match out {
                Ok(object) => {
                    &&& object.wf()
                    &&& stored_object(stored@) == Some(object@)
                    &&& zlib_inflated(stored@) matches Some(raw)
                    &&& unframed(raw) matches Some((_, payload))
                    &&& object.source() == payload
                },
                Err(e) => stored_object(stored@) is None && e == GitError::CorruptObject,
            },
    {
        match zlib_decode(stored) {
            Ok(raw) => match object_parse(raw.as_slice()) {
                Ok(object) => Ok(object),
                Err(e) => Err(e),
            },
            Err(_) => Err(GitError::CorruptObject),
        }
    }

    /// The address of an object. Fails with `CorruptObject` for a tree with an
    /// entry that cannot be written.
    pub fn object_hash(object: &Object) -> (out: Result<Vec<u8>, GitError>)
        ensures
            match out {
                Ok(address) => {
                    &&& written_payload(object@) matches Some(payload)
                    &&& address@ == object_address(view_kind(object@), payload)
                    &&& is_address(address@)
                },
                Err(e) => written_payload(object@) is None && e == GitError::CorruptObject,
            },
    {
        match object.serialize() {
            Ok(payload) => {
                let raw = object_frame(object.object_type(), payload.as_slice());
                let digest = sha1_of(raw.as_slice());
                Ok(bytes_to_address(digest.as_slice()))
            },
            Err(e) => Err(e),
        }
    }

    /// Prepares an object for the store: its address, its file, and the
    /// deflated framed bytes to put there unless the file exists. Fails with
    /// `CorruptObject` for a tree with an entry that cannot be written.
    pub fn object_write(object: &Object) -> (out: Result<StoredObject, GitError>)
        ensures
            match out {
                Ok(stored) => {
                    &&& written_payload(object@) matches Some(payload)
                    &&& stored.address@ == object_address(view_kind(object@), payload)
                    &&& is_address(stored.address@)
                    &&& stored.path@ == object_file(stored.address@)
                    &&& stored.bytes@ == zlib_deflated(framed(view_kind(object@), payload))
                },
                Err(e) => written_payload(object@) is None && e == GitError::CorruptObject,
            },
    {
        match object.serialize() {
            Ok(payload) => {
                let raw = object_frame(object.object_type(), payload.as_slice());
                let digest = sha1_of(raw.as_slice());
                let address = bytes_to_address(digest.as_slice());
                let bytes = zlib_encode(raw.as_slice());
                let path = address_file(address.as_slice());
                Ok(StoredObject { address, path, bytes })
            },
            Err(e) => Err(e),
        }
    }

    /// The address of the object of the given kind that `data` holds. Fails
    /// with `CorruptObject` where `data` cannot be read as such an object.
    pub fn hash_obj(data: Vec<u8>, fmt: ObjectType) -> (out: Result<Vec<u8>, GitError>)
        ensures
            match out {
                Ok(address) => {
                    &&& read_payload(fmt, data@) matches Some(object)
                    &&& written_payload(object) matches Some(payload)
                    &&& address@ == object_address(fmt, payload)
                    &&& is_address(address@)
                },
                Err(e) => read_payload(fmt, data@) is None && e == GitError::CorruptObject,
            },
    {
        proof {
            if fmt == ObjectType::Tree && parsed_leaves(data@) is Some {
                crate::tree::lemma_parsed_leaves_writable(data@);
            }
        }
        match GitObjectFactory::new(fmt, data) {
            Ok(object) => GitRepo::object_hash(&object),
            Err(e) => Err(e),
        }
    }
}

} // verus!

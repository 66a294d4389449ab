use crate::bytes::{
    append_bytes, contains_byte, copy_range, find_byte, has_byte, index_of, lemma_first_index_skip,
};
use crate::hexcodec::{bytes_to_address, hex_encoded};
use crate::paths::SLASH;
use vstd::prelude::*;

verus! {

/// The byte that parts a mode from a name.
pub const MODE_END: u8 = 32;

/// The byte that ends a name.
pub const NAME_END: u8 = 0;

/// One row of a tree: a mode, a name and the address of the object named.
#[derive(Debug, Clone, PartialEq, Eq)]
pub struct GitTreeLeaf {
    /// The address of the blob or tree: forty lower-case hexadecimal digits.
    pub sha: Vec<u8>,
    /// The name: one path component.
    pub path: Vec<u8>,
    /// The file mode in octal digits.
    pub mode: Vec<u8>,
}

/// What a tree entry holds, as plain values.
pub struct LeafView {
    pub sha: Seq<u8>,
    pub path: Seq<u8>,
    pub mode: Seq<u8>,
}

impl View for GitTreeLeaf {
    type V = LeafView;

    open spec fn view(&self) -> LeafView {
        LeafView { sha: self.sha@, path: self.path@, mode: self.mode@ }
    }
}

/// Whether `c` is one of the digits `0` to `7`.
pub open spec fn is_octal(c: u8) -> bool {
    48 <= c <= 55
}

/// Whether `mode` is one to six octal digits.
pub open spec fn valid_mode(mode: Seq<u8>) -> bool {
    1 <= mode.len() <= 6 && forall|i: int| 0 <= i < mode.len() ==> is_octal(#[trigger] mode[i])
}

/// A mode of at most six digits with zeros in front to make six.
pub open spec fn canonical_mode(mode: Seq<u8>) -> Seq<u8> {
    Seq::new((6 - mode.len()) as nat, |i: int| 48u8) + mode
}

/// Whether `path` can name an entry: it is not empty and holds neither a zero
/// byte nor a slash.
pub open spec fn valid_name(path: Seq<u8>) -> bool {
    path.len() > 0 && !has_byte(path, NAME_END) && !has_byte(path, SLASH)
}

/// Whether a mode is that of a directory: `04` and four more digits, or `4` and
/// four more where the leading zero was left out.
pub open spec fn is_directory_mode(mode: Seq<u8>) -> bool {
    (mode.len() == 6 && mode[0] == 48 && mode[1] == 52) || (mode.len() == 5 && mode[0] == 52)
}

/// The key by which the entries of a tree are ordered: the name, and for a
/// directory the name with a slash behind it.
pub open spec fn sort_key(leaf: LeafView) -> Seq<u8> {
    if is_directory_mode(leaf.mode) {
        leaf.path.push(SLASH)
    } else {
        leaf.path
    }
}

/// Whether `s` begins with an entry: a mode before the first space, a name
/// before the next zero byte, and twenty bytes behind it.
pub open spec fn leaf_fits(s: Seq<u8>) -> bool {
    let space = index_of(s, MODE_END);
    let after = s.skip(space + 1);
    let end = index_of(after, NAME_END);
    &&& space < s.len()
    &&& valid_mode(s.take(space))
    &&& end < after.len()
    &&& valid_name(after.take(end))
    &&& end + 21 <= after.len()
}

/// The length of the entry at the head of `s`.
pub open spec fn leaf_len(s: Seq<u8>) -> int {
    let space = index_of(s, MODE_END);
    space + 1 + index_of(s.skip(space + 1), NAME_END) + 21
}

/// The entry at the head of `s`, its mode made canonical and its address
/// written in hexadecimal digits.
pub open spec fn leaf_of(s: Seq<u8>) -> LeafView {
    let space = index_of(s, MODE_END);
    let after = s.skip(space + 1);
    let end = index_of(after, NAME_END);
    LeafView {
        sha: hex_encoded(after.subrange(end + 1, end + 21)),
        path: after.take(end),
        mode: canonical_mode(s.take(space)),
    }
}

/// Whether `mode` is one to six octal digits.
pub fn is_valid_mode(mode: &[u8]) -> (yes: bool)
    ensures
        yes == valid_mode(mode@),
{
    if mode.len() < 1 || mode.len() > 6 {
        return false;
    }
    let mut i: usize = 0;
    while i < mode.len()
        invariant
            i <= mode@.len(),
            forall|k: int| 0 <= k < i ==> is_octal(#[trigger] mode@[k]),
        decreases mode@.len() - i,
    {
        if mode[i] < 48 || mode[i] > 55 {
            return false;
        }
        i = i + 1;
    }
    true
}

/// Whether `path` can name an entry.
pub fn is_valid_name(path: &[u8]) -> (yes: bool)
    ensures
        yes == valid_name(path@),
{
    path.len() > 0 && !contains_byte(path, NAME_END) && !contains_byte(path, SLASH)
}

/// A mode of at most six digits with zeros in front to make six.
pub fn pad_mode(mode: &[u8]) -> (padded: Vec<u8>)
    requires
        mode@.len() <= 6,
    ensures
        padded@ == canonical_mode(mode@),
        padded@.len() == 6,
{
    let mut padded: Vec<u8> = Vec::new();
    let missing = 6 - mode.len();
    let mut i: usize = 0;
    while i < missing
        invariant
            i <= missing,
            padded@ == Seq::new(i as nat, |k: int| 48u8),
        decreases missing - i,
    {
        padded.push(48u8);
        i = i + 1;
        assert(padded@ =~= Seq::new(i as nat, |k: int| 48u8));
    }
    append_bytes(&mut padded, mode);
    padded
}

/// Whether a mode is that of a directory.
pub fn mode_is_directory(mode: &[u8]) -> (yes: bool)
    ensures
        yes == is_directory_mode(mode@),
{
    (mode.len() == 6 && mode[0] == 48 && mode[1] == 52) || (mode.len() == 5 && mode[0] == 52)
}

impl GitTreeLeaf {
    /// An entry of the given address, name and mode.
    pub fn new(sha: Vec<u8>, path: Vec<u8>, mode: Vec<u8>) -> (leaf: Self)
        ensures
            leaf@ == (LeafView { sha: sha@, path: path@, mode: mode@ }),
    {
        GitTreeLeaf { sha, path, mode }
    }

    /// The key by which this entry is ordered among the entries of its tree.
    pub fn sort_keys(&self) -> (key: Vec<u8>)
        ensures
            key@ == sort_key(self@),
    {
        let mut key = self.path.clone();
        if mode_is_directory(self.mode.as_slice()) {
            key.push(SLASH);
        }
        key
    }

    /// Reads the entry that starts at `start`, or at the beginning where no
    /// start is given. Gives the position behind the entry, and the entry; or
    /// `None` where no entry can be read there.
    pub fn new_from_raw(raw: &[u8], start: Option<usize>) -> (out: Option<(usize, Self)>)
        ensures
            ({
                let from = match start {
                    Some(at) => at as int,
                    None => 0,
                };
                match out {
                    Some((next, leaf)) => {
                        &&& from <= raw@.len()
                        &&& leaf_fits(raw@.skip(from))
                        &&& next == from + leaf_len(raw@.skip(from))
                        &&& from < next <= raw@.len()
                        &&& leaf@ == leaf_of(raw@.skip(from))
                    },
                    None => !(from <= raw@.len() && leaf_fits(raw@.skip(from))),
                }
            }),
    {
        let from = match start {
            Some(at) => at,
            None => 0,
        };
        if from > raw.len() {
            return None;
        }
        let ghost s = raw@.skip(from as int);
        let space = find_byte(raw, MODE_END, from);
        proof {
            lemma_first_index_skip(raw@, MODE_END, from as int);
        }
        if space >= raw.len() {
            return None;
        }
        assert(raw@.subrange(from as int, space as int) =~= s.take(space - from));
        if !is_valid_mode(&raw[from..space]) {
            return None;
        }
        let ghost after = s.skip(space - from + 1);
        assert(after =~= raw@.skip(space + 1));
        let end = find_byte(raw, NAME_END, space + 1);
        proof {
            lemma_first_index_skip(raw@, NAME_END, space + 1);
        }
        if end >= raw.len() {
            return None;
        }
        assert(raw@.subrange(space + 1, end as int) =~= after.take(end - space - 1));
        if !is_valid_name(&raw[space + 1..end]) {
            return None;
        }
        if raw.len() - end < 21 {
            return None;
        }
        assert(raw@.subrange(end + 1, end + 21) =~= after.subrange(
            end - space - 1 + 1,
            end - space - 1 + 21,
        ));
        let leaf = GitTreeLeaf {
            sha: bytes_to_address(&raw[end + 1..end + 21]),
            path: copy_range(raw, space + 1, end),
            mode: pad_mode(&raw[from..space]),
        };
        Some((end + 21, leaf))
    }
}

} // verus!

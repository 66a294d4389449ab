use crate::bytes::{append_bytes, bytes_less, copy_range, lex_less};
use crate::error::GitError;
use crate::git_object::{GitObject, ObjectType};
use crate::hexcodec::{address_to_bytes, hex_decoded, is_address};
use crate::tree_leaf::{
    canonical_mode, is_valid_mode, is_valid_name, leaf_fits, leaf_len, leaf_of, pad_mode, sort_key,
    valid_mode, valid_name, GitTreeLeaf, LeafView, MODE_END, NAME_END,
};
use vstd::prelude::*;

verus! {

/// A tree: the entries of one directory.
#[derive(Debug, Clone, PartialEq, Eq)]
pub struct GitTree {
    data: Vec<u8>,
    leafs: Vec<GitTreeLeaf>,
}

/// The views of a run of entries.
pub open spec fn leaf_views(leaves: Seq<GitTreeLeaf>) -> Seq<LeafView> {
    Seq::new(leaves.len(), |i: int| leaves[i]@)
}

/// The entries of a tree payload in the order of the payload, or `None` where
/// some entry cannot be read.
pub open spec fn parsed_leaves(s: Seq<u8>) -> Option<Seq<LeafView>>
    decreases s.len(),
{
    if s.len() == 0 {
        Some(Seq::empty())
    } else if !leaf_fits(s) {
        None
    } else {
        proof {
            crate::bytes::lemma_first_index_from(s, MODE_END, 0);
            crate::bytes::lemma_first_index_from(
                s.skip(crate::bytes::index_of(s, MODE_END) + 1),
                NAME_END,
                0,
            );
        }
        match parsed_leaves(s.skip(leaf_len(s))) {
            None => None,
            Some(rest) => Some(seq![leaf_of(s)] + rest),
        }
    }
}

/// Whether an entry can be written: its mode is one to six octal digits, its
/// name is a path component, and its address is one.
pub open spec fn leaf_writable(leaf: LeafView) -> bool {
    valid_mode(leaf.mode) && valid_name(leaf.path) && is_address(leaf.sha)
}

/// Whether every entry can be written.
pub open spec fn leaves_writable(leaves: Seq<LeafView>) -> bool {
    forall|i: int| 0 <= i < leaves.len() ==> leaf_writable(#[trigger] leaves[i])
}

/// The bytes of one entry: the canonical mode, a space, the name, a zero byte,
/// the twenty bytes of the address.
pub open spec fn leaf_bytes(leaf: LeafView) -> Seq<u8> {
    canonical_mode(leaf.mode) + seq![MODE_END] + leaf.path + seq![NAME_END] + hex_decoded(
        leaf.sha,
    )
}

/// The bytes of a run of entries, one after the other.
pub open spec fn leaves_bytes(leaves: Seq<LeafView>) -> Seq<u8>
    decreases leaves.len(),
{
    if leaves.len() == 0 {
        Seq::empty()
    } else {
        leaves_bytes(leaves.drop_last()) + leaf_bytes(leaves.last())
    }
}

/// `sorted` with `leaf` put behind the last entry whose key is not greater than
/// its own.
pub open spec fn insert_sorted(sorted: Seq<LeafView>, leaf: LeafView) -> Seq<LeafView>
    decreases sorted.len(),
{
    if sorted.len() == 0 {
        seq![leaf]
    } else if lex_less(sort_key(leaf), sort_key(sorted.last())) {
        insert_sorted(sorted.drop_last(), leaf).push(sorted.last())
    } else {
        sorted.push(leaf)
    }
}

/// The entries in canonical order: by key, and entries of one key in the order
/// in which they stood.
pub open spec fn sorted_leaves(leaves: Seq<LeafView>) -> Seq<LeafView>
    decreases leaves.len(),
{
    if leaves.len() == 0 {
        Seq::empty()
    } else {
        insert_sorted(sorted_leaves(leaves.drop_last()), leaves.last())
    }
}

/// A tree payload as it is written: the entries in canonical order.
pub open spec fn tree_bytes(leaves: Seq<LeafView>) -> Seq<u8> {
    leaves_bytes(sorted_leaves(leaves))
}

/// Putting an entry in at `at` is what `insert_sorted` does, where every entry
/// from `at` on has a greater key and the one before `at` has not.
pub proof fn lemma_insert_sorted_at(sorted: Seq<LeafView>, leaf: LeafView, at: int)
    requires
        0 <= at <= sorted.len(),
        forall|j: int|
            at <= j < sorted.len() ==> lex_less(sort_key(leaf), sort_key(#[trigger] sorted[j])),
        at > 0 ==> !lex_less(sort_key(leaf), sort_key(sorted[at - 1])),
    ensures
        insert_sorted(sorted, leaf) == sorted.insert(at, leaf),
    decreases sorted.len() - at,
{
    if sorted.len() == 0 {
        assert(seq![leaf] =~= sorted.insert(at, leaf));
    } else if at == sorted.len() {
        assert(sorted.push(leaf) =~= sorted.insert(at, leaf));
    } else {
        let shorter = sorted.drop_last();
        assert(lex_less(sort_key(leaf), sort_key(sorted[sorted.len() - 1])));
        assert forall|j: int| at <= j < shorter.len() implies lex_less(
            sort_key(leaf),
            sort_key(#[trigger] shorter[j]),
        ) by {
            assert(shorter[j] == sorted[j]);
        }
        if at > 0 {
            assert(shorter[at - 1] == sorted[at - 1]);
        }
        lemma_insert_sorted_at(shorter, leaf, at);
        assert(shorter.insert(at, leaf).push(sorted.last()) =~= sorted.insert(at, leaf));
    }
}

/// What was read can be written: every entry of a payload that can be read has
/// a canonical mode, a name and an address.
pub proof fn lemma_parsed_leaves_writable(s: Seq<u8>)
    requires
        parsed_leaves(s) is Some,
    ensures
        leaves_writable(parsed_leaves(s)->0),
    decreases s.len(),
{
    if s.len() > 0 {
        let space = crate::bytes::index_of(s, MODE_END);
        let after = s.skip(space + 1);
        let end = crate::bytes::index_of(after, NAME_END);
        crate::bytes::lemma_first_index_from(s, MODE_END, 0);
        crate::bytes::lemma_first_index_from(after, NAME_END, 0);
        let rest = s.skip(leaf_len(s));
        lemma_parsed_leaves_writable(rest);
        let leaf = leaf_of(s);
        let mode = s.take(space);
        let padded = canonical_mode(mode);
        assert forall|i: int| 0 <= i < padded.len() implies crate::tree_leaf::is_octal(
            #[trigger] padded[i],
        ) by {
            if i >= 6 - mode.len() {
                assert(padded[i] == mode[i - (6 - mode.len())]);
            }
        }
        crate::hexcodec::lemma_hex_round_trip(after.subrange(end + 1, end + 21));
        assert(leaf_writable(leaf));
        let all = parsed_leaves(s)->0;
        let others = parsed_leaves(rest)->0;
        assert(all =~= seq![leaf] + others);
        assert forall|i: int| 0 <= i < all.len() implies leaf_writable(#[trigger] all[i]) by {
            if i > 0 {
                assert(all[i] == others[i - 1]);
            }
        }
    }
}

/// The views of a run of borrowed entries.
pub open spec fn borrowed_views(leaves: Seq<&GitTreeLeaf>) -> Seq<LeafView> {
    Seq::new(leaves.len(), |i: int| leaves[i]@)
}

/// Whether the key of `a` comes strictly before that of `b`.
fn key_before(a: &GitTreeLeaf, b: &GitTreeLeaf) -> (yes: bool)
    ensures
        yes == lex_less(sort_key(a@), sort_key(b@)),
{
    let ka = a.sort_keys();
    let kb = b.sort_keys();
    bytes_less(ka.as_slice(), kb.as_slice())
}

/// Whether an entry can be written.
fn is_leaf_writable(leaf: &GitTreeLeaf) -> (yes: bool)
    ensures
        yes == leaf_writable(leaf@),
{
    is_valid_mode(leaf.mode.as_slice()) && is_valid_name(leaf.path.as_slice())
        && crate::hexcodec::is_object_address(leaf.sha.as_slice())
}

/// Appends one entry.
fn write_leaf(out: &mut Vec<u8>, leaf: &GitTreeLeaf)
    requires
        leaf_writable(leaf@),
    ensures
        final(out)@ == old(out)@ + leaf_bytes(leaf@),
{
    let mode = pad_mode(leaf.mode.as_slice());
    append_bytes(out, mode.as_slice());
    out.push(MODE_END);
    append_bytes(out, leaf.path.as_slice());
    out.push(NAME_END);
    match address_to_bytes(leaf.sha.as_slice()) {
        Some(sha) => {
            append_bytes(out, sha.as_slice());
        },
        None => {},
    }
    assert(out@ =~= old(out)@ + leaf_bytes(leaf@));
}

impl GitTree {
    /// The payload that the tree was made from.
    pub closed spec fn source_bytes(&self) -> Seq<u8> {
        self.data@
    }

    /// The entries in the order in which they were given.
    pub closed spec fn entries(&self) -> Seq<LeafView> {
        leaf_views(self.leafs@)
    }

    /// A tree of the given entries, with the payload that it is said to be
    /// made from.
    pub fn new(data: Vec<u8>, leafs: Vec<GitTreeLeaf>) -> (tree: Self)
        ensures
            tree.source_bytes() == data@,
            tree.entries() == leaf_views(leafs@),
    {
        GitTree { data, leafs }
    }

    /// Reads a tree payload, entry by entry to its end. Fails with
    /// `CorruptObject` where an entry cannot be read.
    pub fn from_raw(raw: &[u8]) -> (out: Result<Self, GitError>)
        ensures
            match out {
                Ok(tree) => parsed_leaves(raw@) == Some(tree.entries()) && tree.source_bytes()
                    == raw@,
                Err(e) => parsed_leaves(raw@) is None && e == GitError::CorruptObject,
            },
    {
        let mut pos: usize = 0;
        let mut leafs: Vec<GitTreeLeaf> = Vec::new();
        proof {
            assert(raw@.skip(0) =~= raw@);
            match parsed_leaves(raw@) {
                None => {},
                Some(rest) => {
                    assert(leaf_views(leafs@) + rest =~= rest);
                },
            }
        }
        while pos < raw.len()
            invariant
                pos <= raw@.len(),
                parsed_leaves(raw@) == match parsed_leaves(raw@.skip(pos as int)) {
                    None => None::<Seq<LeafView>>,
                    Some(rest) => Some(leaf_views(leafs@) + rest),
                },
            decreases raw@.len() - pos,
        {
            let ghost s = raw@.skip(pos as int);
            let ghost before = leaf_views(leafs@);
            match GitTreeLeaf::new_from_raw(raw, Some(pos)) {
                None => {
                    return Err(GitError::CorruptObject);
                },
                Some((next, leaf)) => {
                    proof {
                        assert(s.skip(leaf_len(s)) =~= raw@.skip(next as int));
                        match parsed_leaves(raw@.skip(next as int)) {
                            None => {},
                            Some(rest) => {
                                assert(before + (seq![leaf@] + rest) =~= (before + seq![leaf@])
                                    + rest);
                            },
                        }
                    }
                    leafs.push(leaf);
                    assert(leaf_views(leafs@) =~= before + seq![leaf_of(s)]);
                    pos = next;
                },
            }
        }
        assert(leaf_views(leafs@) + Seq::<LeafView>::empty() =~= leaf_views(leafs@));
        Ok(GitTree { data: copy_range(raw, 0, raw.len()), leafs })
    }

    /// The number of entries.
    pub fn len(&self) -> (n: usize)
        ensures
            n == self.entries().len(),
    {
        self.leafs.len()
    }

    /// The entry at `index`, which must be one of the tree.
    pub fn get(&self, index: usize) -> (leaf: &GitTreeLeaf)
        requires
            index < self.entries().len(),
        ensures
            leaf@ == self.entries()[index as int],
    {
        &self.leafs[index]
    }

    /// The entry at `index`, in the order in which the entries were given.
    pub fn leaf(&self, index: usize) -> (leaf: Option<&GitTreeLeaf>)
        ensures
            match leaf {
                Some(l) => index < self.entries().len() && l@ == self.entries()[index as int],
                None => index >= self.entries().len(),
            },
    {
        if index < self.leafs.len() {
            Some(&self.leafs[index])
        } else {
            None
        }
    }
}

impl GitObject for GitTree {
    open spec fn kind(&self) -> ObjectType {
        ObjectType::Tree
    }

    open spec fn payload(&self) -> Option<Seq<u8>> {
        if leaves_writable(self.entries()) {
            Some(tree_bytes(self.entries()))
        } else {
            None
        }
    }

    open spec fn source(&self) -> Seq<u8> {
        self.source_bytes()
    }

    /// Writes the entries in canonical order.
    fn serialize(&self) -> (out: Result<Vec<u8>, GitError>) {
        let ghost views = leaf_views(self.leafs@);
        let mut order: Vec<&GitTreeLeaf> = Vec::new();
        let mut i: usize = 0;
        assert(views.take(0) =~= Seq::<LeafView>::empty());
        assert(borrowed_views(order@) =~= sorted_leaves(views.take(0)));
        while i < self.leafs.len()
            invariant
                i <= self.leafs@.len(),
                views == leaf_views(self.leafs@),
                leaves_writable(views.take(i as int)),
                leaves_writable(borrowed_views(order@)),
                borrowed_views(order@) == sorted_leaves(views.take(i as int)),
            decreases self.leafs@.len() - i,
        {
            let leaf = &self.leafs[i];
            if !is_leaf_writable(leaf) {
                assert(views[i as int] == leaf@);
                return Err(GitError::CorruptObject);
            }
            let ghost sorted = borrowed_views(order@);
            let mut at: usize = order.len();
            while at > 0 && key_before(leaf, order[at - 1])
                invariant
                    at <= order@.len(),
                    sorted == borrowed_views(order@),
                    forall|j: int|
                        at <= j < sorted.len() ==> lex_less(
                            sort_key(leaf@),
                            sort_key(#[trigger] sorted[j]),
                        ),
                decreases at,
            {
                at = at - 1;
            }
            proof {
                lemma_insert_sorted_at(sorted, leaf@, at as int);
                let shorter = views.take(i as int);
                let longer = views.take(i + 1);
                assert(longer.drop_last() =~= shorter);
                assert(longer.last() == leaf@);
                assert forall|k: int| 0 <= k < longer.len() implies leaf_writable(
                    #[trigger] longer[k],
                ) by {
                    if k < i {
                        assert(shorter[k] == longer[k]);
                    }
                }
            }
            order.insert(at, leaf);
            proof {
                assert(borrowed_views(order@) =~= sorted.insert(at as int, leaf@));
                let now = borrowed_views(order@);
                assert forall|k: int| 0 <= k < now.len() implies leaf_writable(
                    #[trigger] now[k],
                ) by {
                    if k < at {
                        assert(now[k] == sorted[k]);
                    } else if k > at {
                        assert(now[k] == sorted[k - 1]);
                    }
                }
            }
            i = i + 1;
        }
        assert(views.take(self.leafs@.len() as int) =~= views);
        let ghost sorted = borrowed_views(order@);
        let mut out: Vec<u8> = Vec::new();
        let mut k: usize = 0;
        assert(sorted.take(0) =~= Seq::<LeafView>::empty());
        while k < order.len()
            invariant
                k <= order@.len(),
                sorted == borrowed_views(order@),
                leaves_writable(sorted),
                out@ == leaves_bytes(sorted.take(k as int)),
            decreases order@.len() - k,
        {
            let ghost before = out@;
            assert(leaf_writable(sorted[k as int]));
            write_leaf(&mut out, order[k]);
            proof {
                let shorter = sorted.take(k as int);
                let longer = sorted.take(k + 1);
                assert(longer.drop_last() =~= shorter);
                assert(longer.last() == sorted[k as int]);
            }
            k = k + 1;
        }
        assert(sorted.take(order@.len() as int) =~= sorted);
        Ok(out)
    }

    fn deserialize(&self) -> (out: Vec<u8>) {
        self.data.clone()
    }

    fn format(&self) -> (out: Vec<u8>) {
        copy_range(ObjectType::Tree.as_iter(), 0, 4)
    }

    fn data(&self) -> (out: Vec<u8>) {
        self.data.clone()
    }
}

} // verus!

use crate::bytes::{
    has_byte, lemma_first_index_is, lemma_lex_less_total, lemma_lex_less_transitive, lex_less,
};
use crate::hexcodec::{hex_decoded, lemma_hex_canonical};
use crate::tree::{
    insert_sorted, leaf_bytes, leaf_writable, leaves_bytes, leaves_writable, parsed_leaves,
    sorted_leaves, tree_bytes,
};
use crate::tree_leaf::{
    canonical_mode, is_directory_mode, leaf_fits, leaf_len, leaf_of, sort_key, valid_mode, LeafView,
    MODE_END, NAME_END,
};
use vstd::prelude::*;
use vstd::seq_lib::to_multiset_build;

verus! {

/// An entry with its mode made canonical.
pub open spec fn canonical_leaf(leaf: LeafView) -> LeafView {
    LeafView { sha: leaf.sha, path: leaf.path, mode: canonical_mode(leaf.mode) }
}

/// The entries with their modes made canonical.
pub open spec fn canonical_leaves(leaves: Seq<LeafView>) -> Seq<LeafView> {
    Seq::new(leaves.len(), |i: int| canonical_leaf(leaves[i]))
}

/// Whether the entries stand in canonical order: no entry has a key that comes
/// before the key of an earlier one.
pub open spec fn ordered(leaves: Seq<LeafView>) -> bool {
    forall|i: int, j: int|
        0 <= i < j < leaves.len() ==> !lex_less(
            sort_key(#[trigger] leaves[j]),
            sort_key(#[trigger] leaves[i]),
        )
}

/// Making a mode canonical changes neither what it stands for nor the entry's
/// key, and a canonical mode stays as it is.
pub proof fn lemma_canonical_mode(mode: Seq<u8>)
    requires
        valid_mode(mode),
    ensures
        valid_mode(canonical_mode(mode)),
        canonical_mode(mode).len() == 6,
        canonical_mode(canonical_mode(mode)) == canonical_mode(mode),
        is_directory_mode(canonical_mode(mode)) == is_directory_mode(mode),
        !has_byte(canonical_mode(mode), MODE_END),
{
    let c = canonical_mode(mode);
    let pad = 6 - mode.len();
    assert forall|i: int| 0 <= i < c.len() implies crate::tree_leaf::is_octal(#[trigger] c[i]) by {
        if i >= pad {
            assert(c[i] == mode[i - pad]);
        }
    }
    assert(canonical_mode(c) =~= c);
    if mode.len() == 5 {
        assert(c[1] == mode[0]);
    } else if mode.len() == 6 {
        assert(c =~= mode);
    } else {
        assert(c[0] == 48 && c[1] == 48);
    }
}

/// A written entry is read back with its mode made canonical, and what follows
/// it is left.
proof fn lemma_parse_leaf(leaf: LeafView, rest: Seq<u8>)
    requires
        leaf_writable(leaf),
    ensures
        ({
            let s = leaf_bytes(leaf) + rest;
            &&& s.len() > 0
            &&& leaf_fits(s)
            &&& leaf_of(s) == canonical_leaf(leaf)
            &&& s.skip(leaf_len(s)) == rest
        }),
{
    let s = leaf_bytes(leaf) + rest;
    let mode = canonical_mode(leaf.mode);
    let sha = hex_decoded(leaf.sha);
    lemma_canonical_mode(leaf.mode);
    lemma_hex_canonical(leaf.sha);
    assert(sha.len() == 20);
    assert forall|k: int| 0 <= k < 6 implies s[k] != MODE_END by {
        assert(s[k] == mode[k]);
    }
    assert(s[6] == MODE_END);
    lemma_first_index_is(s, MODE_END, 0, 6);
    let after = s.skip(7);
    assert(after =~= leaf.path + seq![NAME_END] + sha + rest);
    assert forall|k: int| 0 <= k < leaf.path.len() implies after[k] != NAME_END by {
        assert(after[k] == leaf.path[k]);
    }
    assert(after[leaf.path.len() as int] == NAME_END);
    lemma_first_index_is(after, NAME_END, 0, leaf.path.len() as int);
    let end = leaf.path.len() as int;
    assert(s.take(6) =~= mode);
    assert(after.take(end) =~= leaf.path);
    assert(after.subrange(end + 1, end + 21) =~= sha);
    assert(s.skip(leaf_len(s)) =~= rest);
}

/// The bytes of one entry.
proof fn lemma_single_leaf(leaf: LeafView)
    ensures
        leaves_bytes(seq![leaf]) == leaf_bytes(leaf),
{
    let none = seq![leaf].drop_last();
    assert(none.len() == 0);
    assert(leaves_bytes(none) =~= Seq::<u8>::empty());
    assert(leaves_bytes(seq![leaf]) =~= leaf_bytes(leaf));
}

/// The bytes of two runs of entries, one after the other.
proof fn lemma_leaves_bytes_concat(a: Seq<LeafView>, b: Seq<LeafView>)
    ensures
        leaves_bytes(a + b) == leaves_bytes(a) + leaves_bytes(b),
    decreases b.len(),
{
    if b.len() == 0 {
        assert(a + b =~= a);
        assert(leaves_bytes(a) + leaves_bytes(b) =~= leaves_bytes(a));
    } else {
        lemma_leaves_bytes_concat(a, b.drop_last());
        assert((a + b).drop_last() =~= a + b.drop_last());
        assert((a + b).last() == b.last());
        assert(leaves_bytes(a + b) =~= leaves_bytes(a) + leaves_bytes(b));
    }
}

/// Entries that were written are read back in their order, each with its mode
/// made canonical.
pub proof fn lemma_parse_leaves(leaves: Seq<LeafView>)
    requires
        leaves_writable(leaves),
    ensures
        parsed_leaves(leaves_bytes(leaves)) == Some(canonical_leaves(leaves)),
    decreases leaves.len(),
{
    if leaves.len() == 0 {
        assert(canonical_leaves(leaves) =~= Seq::<LeafView>::empty());
    } else {
        let head = leaves[0];
        let others = leaves.skip(1);
        assert(seq![head] + others =~= leaves);
        lemma_leaves_bytes_concat(seq![head], others);
        lemma_single_leaf(head);
        assert(leaf_writable(head));
        assert forall|i: int| 0 <= i < others.len() implies leaf_writable(#[trigger] others[i]) by {
            assert(others[i] == leaves[i + 1]);
        }
        lemma_parse_leaf(head, leaves_bytes(others));
        lemma_parse_leaves(others);
        assert(seq![canonical_leaf(head)] + canonical_leaves(others) =~= canonical_leaves(leaves));
    }
}

/// Putting an entry into ordered entries leaves them ordered, and writable
/// where they and the entry are.
proof fn lemma_insert_sorted(sorted: Seq<LeafView>, leaf: LeafView)
    requires
        ordered(sorted),
    ensures
        ordered(insert_sorted(sorted, leaf)),
        insert_sorted(sorted, leaf).len() == sorted.len() + 1,
        leaves_writable(sorted) && leaf_writable(leaf) ==> leaves_writable(
            insert_sorted(sorted, leaf),
        ),
        forall|k: int|
            0 <= k < insert_sorted(sorted, leaf).len() ==> (#[trigger] insert_sorted(
                sorted,
                leaf,
            )[k]) == leaf || exists|m: int|
                0 <= m < sorted.len() && sorted[m] == insert_sorted(sorted, leaf)[k],
    decreases sorted.len(),
{
    let out = insert_sorted(sorted, leaf);
    if sorted.len() == 0 {
        assert(out =~= seq![leaf]);
    } else if lex_less(sort_key(leaf), sort_key(sorted.last())) {
        let shorter = sorted.drop_last();
        let last = sorted.last();
        assert forall|i: int, j: int| 0 <= i < j < shorter.len() implies !lex_less(
            sort_key(#[trigger] shorter[j]),
            sort_key(#[trigger] shorter[i]),
        ) by {
            assert(shorter[i] == sorted[i] && shorter[j] == sorted[j]);
        }
        lemma_insert_sorted(shorter, leaf);
        let inner = insert_sorted(shorter, leaf);
        assert(out =~= inner.push(last));
        assert forall|i: int, j: int| 0 <= i < j < out.len() implies !lex_less(
            sort_key(#[trigger] out[j]),
            sort_key(#[trigger] out[i]),
        ) by {
            if j < inner.len() {
                assert(out[i] == inner[i] && out[j] == inner[j]);
            } else {
                assert(out[j] == last);
                assert(out[i] == inner[i]);
                if inner[i] == leaf {
                    if lex_less(sort_key(last), sort_key(leaf)) {
                        lemma_lex_less_transitive(sort_key(last), sort_key(leaf), sort_key(last));
                        crate::bytes::lemma_lex_less_irreflexive(sort_key(last));
                    }
                } else {
                    let m = choose|m: int| 0 <= m < shorter.len() && shorter[m] == inner[i];
                    assert(sorted[m] == shorter[m]);
                    assert(!lex_less(
                        sort_key(sorted[sorted.len() - 1]),
                        sort_key(sorted[m]),
                    ));
                }
            }
        }
        assert forall|k: int| 0 <= k < out.len() implies (#[trigger] out[k]) == leaf || exists|
            m: int,
        |
            0 <= m < sorted.len() && sorted[m] == out[k] by {
            if k < inner.len() {
                if inner[k] != leaf {
                    let m = choose|m: int| 0 <= m < shorter.len() && shorter[m] == inner[k];
                    assert(sorted[m] == out[k]);
                }
            } else {
                assert(sorted[sorted.len() - 1] == out[k]);
            }
        }
        if leaves_writable(sorted) && leaf_writable(leaf) {
            assert forall|k: int| 0 <= k < shorter.len() implies leaf_writable(
                #[trigger] shorter[k],
            ) by {
                assert(shorter[k] == sorted[k]);
            }
            assert forall|k: int| 0 <= k < out.len() implies leaf_writable(#[trigger] out[k]) by {
                if k < inner.len() {
                    assert(out[k] == inner[k]);
                } else {
                    assert(out[k] == sorted[sorted.len() - 1]);
                }
            }
        }
    } else {
        assert(out =~= sorted.push(leaf));
        assert forall|i: int, j: int| 0 <= i < j < out.len() implies !lex_less(
            sort_key(#[trigger] out[j]),
            sort_key(#[trigger] out[i]),
        ) by {
            if j < sorted.len() {
                assert(out[i] == sorted[i] && out[j] == sorted[j]);
            } else {
                assert(out[j] == leaf);
                assert(out[i] == sorted[i]);
                if i < sorted.len() - 1 {
                    assert(!lex_less(sort_key(sorted[sorted.len() - 1]), sort_key(sorted[i])));
                    if lex_less(sort_key(leaf), sort_key(sorted[i])) {
                        // the entry is before an earlier one, which is not behind the last
                        lemma_lex_less_total(sort_key(sorted[i]), sort_key(sorted.last()));
                        if lex_less(sort_key(sorted[i]), sort_key(sorted.last())) {
                            lemma_lex_less_transitive(
                                sort_key(leaf),
                                sort_key(sorted[i]),
                                sort_key(sorted.last()),
                            );
                        }
                    }
                }
            }
        }
        assert forall|k: int| 0 <= k < out.len() implies (#[trigger] out[k]) == leaf || exists|
            m: int,
        |
            0 <= m < sorted.len() && sorted[m] == out[k] by {
            if k < sorted.len() {
                assert(sorted[k] == out[k]);
            }
        }
        if leaves_writable(sorted) && leaf_writable(leaf) {
            assert forall|k: int| 0 <= k < out.len() implies leaf_writable(#[trigger] out[k]) by {
                if k < sorted.len() {
                    assert(out[k] == sorted[k]);
                }
            }
        }
    }
}

/// The canonical order is an order, and it keeps the number of entries and
/// whether they can be written.
pub proof fn lemma_sorted_leaves(leaves: Seq<LeafView>)
    ensures
        ordered(sorted_leaves(leaves)),
        sorted_leaves(leaves).len() == leaves.len(),
        leaves_writable(leaves) ==> leaves_writable(sorted_leaves(leaves)),
    decreases leaves.len(),
{
    if leaves.len() > 0 {
        let shorter = leaves.drop_last();
        lemma_sorted_leaves(shorter);
        lemma_insert_sorted(sorted_leaves(shorter), leaves.last());
        if leaves_writable(leaves) {
            assert forall|k: int| 0 <= k < shorter.len() implies leaf_writable(
                #[trigger] shorter[k],
            ) by {
                assert(shorter[k] == leaves[k]);
            }
            assert(leaf_writable(leaves[leaves.len() - 1]));
        }
    }
}

/// Putting an entry in adds it once and takes nothing away.
proof fn lemma_insert_sorted_holds(sorted: Seq<LeafView>, leaf: LeafView)
    ensures
        insert_sorted(sorted, leaf).to_multiset() == sorted.to_multiset().insert(leaf),
    decreases sorted.len(),
{
    if sorted.len() == 0 {
        assert(insert_sorted(sorted, leaf) =~= sorted.push(leaf));
        to_multiset_build(sorted, leaf);
    } else if lex_less(sort_key(leaf), sort_key(sorted.last())) {
        let shorter = sorted.drop_last();
        let last = sorted.last();
        lemma_insert_sorted_holds(shorter, leaf);
        to_multiset_build(insert_sorted(shorter, leaf), last);
        assert(shorter.push(last) =~= sorted);
        to_multiset_build(shorter, last);
        assert(shorter.to_multiset().insert(leaf).insert(last) =~= shorter.to_multiset().insert(
            last,
        ).insert(leaf));
    } else {
        to_multiset_build(sorted, leaf);
    }
}

/// The canonical order is a rearrangement: it holds every entry as often as
/// the tree does.
pub proof fn lemma_sorted_rearranges(leaves: Seq<LeafView>)
    ensures
        sorted_leaves(leaves).to_multiset() == leaves.to_multiset(),
    decreases leaves.len(),
{
    if leaves.len() == 0 {
        assert(sorted_leaves(leaves) =~= leaves);
    } else {
        let shorter = leaves.drop_last();
        lemma_sorted_rearranges(shorter);
        lemma_insert_sorted_holds(sorted_leaves(shorter), leaves.last());
        assert(shorter.push(leaves.last()) =~= leaves);
        to_multiset_build(shorter, leaves.last());
    }
}

/// Entries that stand in canonical order are left as they are.
pub proof fn lemma_sorted_fixed(leaves: Seq<LeafView>)
    requires
        ordered(leaves),
    ensures
        sorted_leaves(leaves) == leaves,
    decreases leaves.len(),
{
    if leaves.len() == 0 {
        assert(sorted_leaves(leaves) =~= leaves);
    } else {
        let shorter = leaves.drop_last();
        assert forall|i: int, j: int| 0 <= i < j < shorter.len() implies !lex_less(
            sort_key(#[trigger] shorter[j]),
            sort_key(#[trigger] shorter[i]),
        ) by {
            assert(shorter[i] == leaves[i] && shorter[j] == leaves[j]);
        }
        lemma_sorted_fixed(shorter);
        if shorter.len() > 0 {
            assert(shorter.last() == leaves[leaves.len() - 2]);
            assert(!lex_less(
                sort_key(leaves[leaves.len() - 1]),
                sort_key(leaves[leaves.len() - 2]),
            ));
        }
        assert(shorter.push(leaves.last()) =~= leaves);
    }
}

/// Making the modes canonical changes no written byte.
proof fn lemma_canonical_bytes(leaves: Seq<LeafView>)
    requires
        leaves_writable(leaves),
    ensures
        leaves_bytes(canonical_leaves(leaves)) == leaves_bytes(leaves),
        leaves_writable(canonical_leaves(leaves)),
    decreases leaves.len(),
{
    let canon = canonical_leaves(leaves);
    assert forall|k: int| 0 <= k < canon.len() implies leaf_writable(#[trigger] canon[k]) by {
        assert(leaf_writable(leaves[k]));
        lemma_canonical_mode(leaves[k].mode);
    }
    if leaves.len() > 0 {
        let shorter = leaves.drop_last();
        assert forall|k: int| 0 <= k < shorter.len() implies leaf_writable(
            #[trigger] shorter[k],
        ) by {
            assert(shorter[k] == leaves[k]);
        }
        lemma_canonical_bytes(shorter);
        assert(canon.drop_last() =~= canonical_leaves(shorter));
        assert(leaf_writable(leaves[leaves.len() - 1]));
        lemma_canonical_mode(leaves.last().mode);
    }
}

/// Making the modes canonical keeps the order.
proof fn lemma_canonical_ordered(leaves: Seq<LeafView>)
    requires
        leaves_writable(leaves),
        ordered(leaves),
    ensures
        ordered(canonical_leaves(leaves)),
{
    let canon = canonical_leaves(leaves);
    assert forall|i: int, j: int| 0 <= i < j < canon.len() implies !lex_less(
        sort_key(#[trigger] canon[j]),
        sort_key(#[trigger] canon[i]),
    ) by {
        assert(leaf_writable(leaves[i]) && leaf_writable(leaves[j]));
        lemma_canonical_mode(leaves[i].mode);
        lemma_canonical_mode(leaves[j].mode);
        assert(!lex_less(sort_key(leaves[j]), sort_key(leaves[i])));
    }
}

/// The canonical form of a tree is stable: what was written is read back as
/// the entries in canonical order, and writing those again gives the same
/// bytes.
pub proof fn lemma_tree_emit_stable(leaves: Seq<LeafView>)
    requires
        leaves_writable(leaves),
    ensures
        parsed_leaves(tree_bytes(leaves)) == Some(canonical_leaves(sorted_leaves(leaves))),
        leaves_writable(canonical_leaves(sorted_leaves(leaves))),
        tree_bytes(canonical_leaves(sorted_leaves(leaves))) == tree_bytes(leaves),
{
    let sorted = sorted_leaves(leaves);
    lemma_sorted_leaves(leaves);
    lemma_parse_leaves(sorted);
    lemma_canonical_bytes(sorted);
    lemma_canonical_ordered(sorted);
    lemma_sorted_fixed(canonical_leaves(sorted));
}

/// Entries in canonical order with canonical modes are read back exactly as
/// they were written.
pub proof fn lemma_tree_round_trip(leaves: Seq<LeafView>)
    requires
        leaves_writable(leaves),
        ordered(leaves),
        forall|i: int| 0 <= i < leaves.len() ==> (#[trigger] leaves[i]).mode.len() == 6,
    ensures
        parsed_leaves(tree_bytes(leaves)) == Some(leaves),
{
    lemma_sorted_fixed(leaves);
    lemma_parse_leaves(leaves);
    assert forall|i: int| 0 <= i < leaves.len() implies canonical_leaf(#[trigger] leaves[i])
        == leaves[i] by {
        assert(canonical_mode(leaves[i].mode) =~= leaves[i].mode);
    }
    assert(canonical_leaves(leaves) =~= leaves);
}

} // verus!

use crate::kvlm::KvlmView;
use crate::log::{logged, parents_of, record_date, record_of, record_text};
use vstd::prelude::*;

verus! {

/// What reading at an address gives: the commit there, or nothing where none
/// can be read. `commits` holds the commits that can be read, by address.
pub open spec fn read_at(commits: Map<Seq<u8>, KvlmView>, sha: Seq<u8>) -> Option<KvlmView> {
    if commits.dom().contains(sha) {
        Some(commits[sha])
    } else {
        None
    }
}

/// The walk through the history: as long as addresses are left to be read,
/// the next one is taken off, read and taken in. The result is the addresses
/// taken in, in their order, and the text written; `None` where more than
/// `turns` addresses had to be taken off.
pub open spec fn walked(
    commits: Map<Seq<u8>, KvlmView>,
    pending: Seq<Seq<u8>>,
    seen: Seq<Seq<u8>>,
    output: Seq<u8>,
    turns: nat,
) -> Option<(Seq<Seq<u8>>, Seq<u8>)>
    decreases turns,
{
    if pending.len() == 0 {
        Some((seen, output))
    } else if turns == 0 {
        None
    } else {
        let next = logged(pending[0], read_at(commits, pending[0]), pending.skip(1), seen, output);
        walked(commits, next.0, next.1, next.2, (turns - 1) as nat)
    }
}

/// The records of the commits that can be read among the addresses, in the
/// order of the addresses.
pub open spec fn records(commits: Map<Seq<u8>, KvlmView>, shas: Seq<Seq<u8>>) -> Seq<u8>
    decreases shas.len(),
{
    if shas.len() == 0 {
        Seq::empty()
    } else {
        records(commits, shas.drop_last()) + match read_at(commits, shas.last()) {
            Some(kvlm) => record_text(
                record_of(shas.last(), kvlm),
                record_date(record_of(shas.last(), kvlm)),
            ),
            None => Seq::empty(),
        }
    }
}

/// Whether no address occurs twice.
pub open spec fn distinct(shas: Seq<Seq<u8>>) -> bool {
    forall|i: int, j: int| 0 <= i < j < shas.len() ==> #[trigger] shas[i] != #[trigger] shas[j]
}

/// Whether `path` leads from commit to parent: every address but the last is
/// that of a commit that can be read, and the next address is one of its
/// parents.
pub open spec fn descends(commits: Map<Seq<u8>, KvlmView>, path: Seq<Seq<u8>>) -> bool {
    forall|i: int|
        0 <= i < path.len() - 1 ==> commits.dom().contains(#[trigger] path[i]) && parents_of(
            commits[path[i]],
        ).contains(path[i + 1])
}

/// One turn of the walk, the next address taken off, read and taken in,
/// leaves the result of the walk as it is.
pub proof fn lemma_walk_step(
    commits: Map<Seq<u8>, KvlmView>,
    pending: Seq<Seq<u8>>,
    seen: Seq<Seq<u8>>,
    output: Seq<u8>,
    turns: nat,
)
    requires
        pending.len() > 0,
    ensures
        ({
            let next = logged(
                pending[0],
                read_at(commits, pending[0]),
                pending.skip(1),
                seen,
                output,
            );
            walked(commits, pending, seen, output, turns + 1) == walked(
                commits,
                next.0,
                next.1,
                next.2,
                turns,
            )
        }),
{
}

/// A walk that ends, ends the same with more turns.
pub proof fn lemma_walk_more_turns(
    commits: Map<Seq<u8>, KvlmView>,
    pending: Seq<Seq<u8>>,
    seen: Seq<Seq<u8>>,
    output: Seq<u8>,
    turns: nat,
    more: nat,
)
    requires
        walked(commits, pending, seen, output, turns) is Some,
    ensures
        walked(commits, pending, seen, output, turns + more) == walked(
            commits,
            pending,
            seen,
            output,
            turns,
        ),
    decreases turns,
{
    if pending.len() > 0 {
        let next = logged(pending[0], read_at(commits, pending[0]), pending.skip(1), seen, output);
        lemma_walk_more_turns(commits, next.0, next.1, next.2, (turns - 1) as nat, more);
    }
}

/// The walk goes depth first: walking through two runs of addresses is
/// walking through the first run, and all that it leads to, and through the
/// second run from where that ended. So the parents of a commit, and all
/// their forebears, come before whatever else was to be read, and the first
/// parent with its forebears comes before the second.
pub proof fn lemma_walk_depth_first(
    commits: Map<Seq<u8>, KvlmView>,
    first: Seq<Seq<u8>>,
    second: Seq<Seq<u8>>,
    seen: Seq<Seq<u8>>,
    output: Seq<u8>,
    turns: nat,
    more: nat,
)
    requires
        walked(commits, first, seen, output, turns) is Some,
    ensures
        ({
            let middle = walked(commits, first, seen, output, turns)->0;
            walked(commits, second, middle.0, middle.1, more) is Some ==> walked(
                commits,
                first + second,
                seen,
                output,
                turns + more,
            ) == walked(commits, second, middle.0, middle.1, more)
        }),
    decreases turns,
{
    let middle = walked(commits, first, seen, output, turns)->0;
    if walked(commits, second, middle.0, middle.1, more) is Some {
        if first.len() == 0 {
            assert(first + second =~= second);
            lemma_walk_more_turns(commits, second, seen, output, more, turns);
        } else {
            let sha = first[0];
            let next = logged(sha, read_at(commits, sha), first.skip(1), seen, output);
            let both = first + second;
            let joint = logged(sha, read_at(commits, sha), both.skip(1), seen, output);
            assert(both[0] == sha);
            assert(both.skip(1) =~= first.skip(1) + second);
            assert(joint.0 =~= next.0 + second);
            assert(joint.1 == next.1 && joint.2 == next.2);
            lemma_walk_depth_first(
                commits,
                next.0,
                second,
                next.1,
                next.2,
                (turns - 1) as nat,
                more,
            );
        }
    }
}

/// The walk takes every address in once, and writes one record for each commit
/// that it took in, in the order in which it took them in: what was taken in
/// before stays, no address is taken in twice, and the text grows by the
/// records of the addresses that were added.
pub proof fn lemma_walk_once(
    commits: Map<Seq<u8>, KvlmView>,
    pending: Seq<Seq<u8>>,
    seen: Seq<Seq<u8>>,
    output: Seq<u8>,
    turns: nat,
)
    requires
        walked(commits, pending, seen, output, turns) is Some,
        distinct(seen),
    ensures
        ({
            let end = walked(commits, pending, seen, output, turns)->0;
            &&& distinct(end.0)
            &&& seen.len() <= end.0.len()
            &&& end.0.take(seen.len() as int) == seen
            &&& end.1 == output + records(commits, end.0.skip(seen.len() as int))
        }),
    decreases turns,
{
    let end = walked(commits, pending, seen, output, turns)->0;
    if pending.len() == 0 {
        assert(end.0.take(seen.len() as int) =~= seen);
        assert(end.0.skip(seen.len() as int) =~= Seq::<Seq<u8>>::empty());
        assert(output + records(commits, Seq::<Seq<u8>>::empty()) =~= output);
    } else {
        let sha = pending[0];
        let next = logged(sha, read_at(commits, sha), pending.skip(1), seen, output);
        if !seen.contains(sha) {
            assert forall|i: int, j: int| 0 <= i < j < next.1.len() implies #[trigger] next.1[i]
                != #[trigger] next.1[j] by {
                if j == seen.len() {
                    assert(seen[i] != sha);
                }
            }
        }
        lemma_walk_once(commits, next.0, next.1, next.2, (turns - 1) as nat);
        if !seen.contains(sha) {
            let added = end.0.skip(seen.len() as int);
            let later = end.0.skip(next.1.len() as int);
            assert(end.0.take(seen.len() as int) =~= next.1.take(seen.len() as int));
            assert(next.1.take(seen.len() as int) =~= seen);
            assert(added[0] == next.1[seen.len() as int]);
            assert(added =~= seq![sha] + later);
            lemma_records_concat(commits, seq![sha], later);
            let none = seq![sha].drop_last();
            assert(records(commits, none) =~= Seq::<u8>::empty());
            assert(end.1 =~= output + records(commits, added));
        }
    }
}

/// The records of two runs of addresses, one after the other.
proof fn lemma_records_concat(
    commits: Map<Seq<u8>, KvlmView>,
    a: Seq<Seq<u8>>,
    b: Seq<Seq<u8>>,
)
    ensures
        records(commits, a + b) == records(commits, a) + records(commits, b),
    decreases b.len(),
{
    if b.len() == 0 {
        assert(a + b =~= a);
        assert(records(commits, a) + records(commits, b) =~= records(commits, a));
    } else {
        lemma_records_concat(commits, a, b.drop_last());
        assert((a + b).drop_last() =~= a + b.drop_last());
        assert((a + b).last() == b.last());
        assert(records(commits, a + b) =~= records(commits, a) + records(commits, b));
    }
}

/// The walk leaves nothing out: every address that was to be read is taken
/// in, and so is every parent of every commit that the walk took in.
pub proof fn lemma_walk_closed(
    commits: Map<Seq<u8>, KvlmView>,
    pending: Seq<Seq<u8>>,
    seen: Seq<Seq<u8>>,
    output: Seq<u8>,
    turns: nat,
)
    requires
        walked(commits, pending, seen, output, turns) is Some,
    ensures
        ({
            let end = walked(commits, pending, seen, output, turns)->0;
            &&& forall|sha: Seq<u8>| seen.contains(sha) ==> end.0.contains(sha)
            &&& forall|sha: Seq<u8>| pending.contains(sha) ==> end.0.contains(sha)
            &&& forall|sha: Seq<u8>, parent: Seq<u8>|
                end.0.contains(sha) && !seen.contains(sha) && commits.dom().contains(sha)
                    && #[trigger] parents_of(commits[sha]).contains(parent) ==> end.0.contains(
                    parent,
                )
        }),
    decreases turns,
{
    let end = walked(commits, pending, seen, output, turns)->0;
    if pending.len() > 0 {
        let first = pending[0];
        let next = logged(first, read_at(commits, first), pending.skip(1), seen, output);
        lemma_walk_closed(commits, next.0, next.1, next.2, (turns - 1) as nat);
        assert forall|sha: Seq<u8>| seen.contains(sha) implies next.1.contains(sha) by {
            let i = choose|i: int| 0 <= i < seen.len() && seen[i] == sha;
            if !seen.contains(first) {
                assert(next.1[i] == sha);
            }
        }
        assert(next.1.contains(first)) by {
            if !seen.contains(first) {
                assert(next.1[seen.len() as int] == first);
            }
        }
        assert forall|sha: Seq<u8>| pending.contains(sha) implies end.0.contains(sha) by {
            let i = choose|i: int| 0 <= i < pending.len() && pending[i] == sha;
            if i > 0 {
                assert(pending.skip(1)[i - 1] == sha);
                if !seen.contains(first) && read_at(commits, first) is Some {
                    let parents = parents_of(commits[first]);
                    assert(next.0[parents.len() + i - 1] == sha);
                }
                assert(next.0.contains(sha));
            }
        }
        assert forall|sha: Seq<u8>, parent: Seq<u8>|
            end.0.contains(sha) && !seen.contains(sha) && commits.dom().contains(sha)
                && #[trigger] parents_of(commits[sha]).contains(parent) implies end.0.contains(
            parent,
        ) by {
            if next.1.contains(sha) {
                // the address that this turn took in: its parents were to be read next
                let i = choose|i: int| 0 <= i < next.1.len() && next.1[i] == sha;
                if i < seen.len() {
                    assert(seen[i] == sha);
                }
                assert(sha == first);
                let parents = parents_of(commits[first]);
                let k = choose|k: int| 0 <= k < parents.len() && parents[k] == parent;
                assert(next.0[k] == parent);
                assert(next.0.contains(parent));
            }
        }
    }
}

/// The walk reaches every forebear: started at one address with nothing taken
/// in, it takes in every address that a path from commit to parent leads to.
pub proof fn lemma_walk_reaches(
    commits: Map<Seq<u8>, KvlmView>,
    start: Seq<u8>,
    output: Seq<u8>,
    turns: nat,
    path: Seq<Seq<u8>>,
)
    requires
        walked(commits, seq![start], Seq::empty(), output, turns) is Some,
        path.len() > 0,
        path[0] == start,
        descends(commits, path),
    ensures
        walked(commits, seq![start], Seq::empty(), output, turns) matches Some((taken, _))
            && taken.contains(path.last()),
    decreases path.len(),
{
    let none = Seq::<Seq<u8>>::empty();
    let end = walked(commits, seq![start], none, output, turns)->0;
    lemma_walk_closed(commits, seq![start], none, output, turns);
    if path.len() == 1 {
        assert(seq![start][0] == start);
        assert(seq![start].contains(start));
    } else {
        let shorter = path.drop_last();
        assert forall|i: int| 0 <= i < shorter.len() - 1 implies commits.dom().contains(
            #[trigger] shorter[i],
        ) && parents_of(commits[shorter[i]]).contains(shorter[i + 1]) by {
            assert(shorter[i] == path[i]);
            assert(shorter[i + 1] == path[i + 1]);
        }
        lemma_walk_reaches(commits, start, output, turns, shorter);
        let sha = shorter.last();
        assert(sha == path[path.len() - 2]);
        assert(commits.dom().contains(path[path.len() - 2]));
        assert(parents_of(commits[sha]).contains(path[path.len() - 2 + 1]));
        assert(!none.contains(sha));
    }
}

} // verus!

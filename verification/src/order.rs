//! The canonical order of an unordered collection.
//!
//! Every member of a collection has a rank, a 64-bit number. The canonical
//! order lists the ranks that occur, each once, from the smallest to the
//! largest, and says for each where in the collection it occurs first and
//! where it occurs last. Members of one rank count as one member.

use vstd::prelude::*;

verus! {

/// Entry `j` of `order` stands for index `idx` of `ranks`: it has the rank found
/// there, and `idx` lies between its first and its last occurrence.
pub open spec fn covers(ranks: Seq<u64>, order: Seq<(int, int)>, j: int, idx: int) -> bool {
    &&& 0 <= j < order.len()
    &&& 0 <= order[j].0 < ranks.len()
    &&& ranks[order[j].0] == ranks[idx]
    &&& order[j].0 <= idx <= order[j].1
}

/// Some entry of `order` stands for index `idx` of `ranks`.
pub open spec fn covered(ranks: Seq<u64>, order: Seq<(int, int)>, idx: int) -> bool {
    exists|j: int| covers(ranks, order, j, idx)
}

/// `order` is the canonical order of `ranks`: each entry holds the first and the
/// last index of one rank, the ranks rise strictly from entry to entry, and
/// every index of `ranks` is covered by an entry.
pub open spec fn is_canonical_order(ranks: Seq<u64>, order: Seq<(int, int)>) -> bool {
    &&& forall|j: int|
        0 <= j < order.len() ==> {
            &&& 0 <= (#[trigger] order[j]).0 <= order[j].1 < ranks.len()
            &&& ranks[order[j].0] == ranks[order[j].1]
        }
    &&& forall|j: int, k: int|
        0 <= j < k < order.len() ==> ranks[(#[trigger] order[j]).0] < ranks[(#[trigger] order[k]).0]
    &&& forall|idx: int| 0 <= idx < ranks.len() ==> #[trigger] covered(ranks, order, idx)
}

/// The canonical order of `ranks`. There is exactly one:
/// see [`lemma_canonical_order`] and [`lemma_canonical_order_unique`].
pub open spec fn canonical_order(ranks: Seq<u64>) -> Seq<(int, int)> {
    choose|order: Seq<(int, int)>| is_canonical_order(ranks, order)
}

/// The entries of an order as mathematical integers.
pub open spec fn spans(order: Seq<(usize, usize)>) -> Seq<(int, int)> {
    Seq::new(order.len(), |j: int| (order[j].0 as int, order[j].1 as int))
}

/// An entry of one canonical order occurs, with the same indices, in any other.
proof fn lemma_entry_matches(
    ranks: Seq<u64>,
    a: Seq<(int, int)>,
    b: Seq<(int, int)>,
    j: int,
) -> (k: int)
    requires
        is_canonical_order(ranks, a),
        is_canonical_order(ranks, b),
        0 <= j < a.len(),
    ensures
        0 <= k < b.len(),
        b[k] == a[j],
{
    // the entry of `b` that covers the first index of a[j] has the rank of a[j];
    // its own indices are covered by a[j], and the last index of a[j] by it
    assert(covered(ranks, b, a[j].0));
    let k = choose|k: int| covers(ranks, b, k, a[j].0);
    assert(covered(ranks, a, b[k].0));
    assert(covered(ranks, a, b[k].1));
    assert(covered(ranks, b, a[j].1));
    k
}

/// Two canonical orders of the same ranks agree on their first `n` entries.
proof fn lemma_prefixes_agree(ranks: Seq<u64>, a: Seq<(int, int)>, b: Seq<(int, int)>, n: int)
    requires
        is_canonical_order(ranks, a),
        is_canonical_order(ranks, b),
        0 <= n <= a.len(),
    ensures
        n <= b.len(),
        forall|j: int| 0 <= j < n ==> a[j] == b[j],
    decreases n,
{
    if n > 0 {
        lemma_prefixes_agree(ranks, a, b, n - 1);
        let j = n - 1;
        // a[j] is some b[k]. Were k below j, a[k] == b[k] would have the rank of
        // a[j]; were it above, b[j] would be some a[m] of a rank below that of a[j]
        let k = lemma_entry_matches(ranks, a, b, j);
        if k > j {
            lemma_entry_matches(ranks, b, a, j);
        }
    }
}

/// The ranks have no canonical order but one.
pub proof fn lemma_canonical_order_unique(ranks: Seq<u64>, a: Seq<(int, int)>, b: Seq<(int, int)>)
    requires
        is_canonical_order(ranks, a),
        is_canonical_order(ranks, b),
    ensures
        a == b,
{
    lemma_prefixes_agree(ranks, a, b, a.len() as int);
    lemma_prefixes_agree(ranks, b, a, b.len() as int);
}

/// Where the rank of index `i` belongs in an order of the indices before `i`:
/// behind the `p` entries of smaller rank.
pub open spec fn is_position(ranks: Seq<u64>, order: Seq<(int, int)>, i: int, p: int) -> bool {
    &&& 0 <= p <= order.len()
    &&& forall|j: int| 0 <= j < p ==> ranks[(#[trigger] order[j]).0] < ranks[i]
    &&& p < order.len() ==> ranks[order[p].0] >= ranks[i]
}

/// The order after index `i` has been taken in at position `p`: an entry of the
/// same rank now ends at `i`, otherwise `i` gets an entry of its own.
pub open spec fn placed(ranks: Seq<u64>, order: Seq<(int, int)>, i: int, p: int) -> Seq<(int, int)> {
    if p < order.len() && ranks[order[p].0] == ranks[i] {
        order.update(p, (order[p].0, i))
    } else {
        order.insert(p, (i, i))
    }
}

/// Taking in the next index keeps an order canonical.
pub proof fn lemma_placed(ranks: Seq<u64>, order: Seq<(int, int)>, i: int, p: int)
    requires
        0 <= i < ranks.len(),
        is_canonical_order(ranks.take(i), order),
        is_position(ranks, order, i, p),
    ensures
        is_canonical_order(ranks.take(i + 1), placed(ranks, order, i, p)),
{
    let before = ranks.take(i);
    let after = ranks.take(i + 1);
    let next = placed(ranks, order, i, p);
    if p < order.len() && ranks[order[p].0] == ranks[i] {
        assert forall|idx: int| 0 <= idx < after.len() implies #[trigger] covered(
            after,
            next,
            idx,
        ) by {
            if idx < i {
                assert(covered(before, order, idx));
                let j = choose|j: int| covers(before, order, j, idx);
                assert(covers(after, next, j, idx));
            } else {
                assert(covers(after, next, p, idx));
            }
        }
    } else {
        assert forall|idx: int| 0 <= idx < after.len() implies #[trigger] covered(
            after,
            next,
            idx,
        ) by {
            if idx < i {
                assert(covered(before, order, idx));
                let j = choose|j: int| covers(before, order, j, idx);
                if j < p {
                    assert(covers(after, next, j, idx));
                } else {
                    assert(covers(after, next, j + 1, idx));
                }
            } else {
                assert(covers(after, next, p, idx));
            }
        }
    }
}

/// A position for the rank of index `i` exists in every order of the indices before it.
proof fn lemma_position_exists(ranks: Seq<u64>, order: Seq<(int, int)>, i: int, n: int) -> (p: int)
    requires
        0 <= i < ranks.len(),
        is_canonical_order(ranks.take(i), order),
        0 <= n <= order.len(),
        forall|j: int| 0 <= j < n ==> ranks[(#[trigger] order[j]).0] < ranks[i],
    ensures
        is_position(ranks, order, i, p),
    decreases order.len() - n,
{
    if n < order.len() && ranks[order[n].0] < ranks[i] {
        lemma_position_exists(ranks, order, i, n + 1)
    } else {
        n
    }
}

/// Every run of ranks has a canonical order, and `canonical_order` is it.
pub proof fn lemma_canonical_order(ranks: Seq<u64>)
    ensures
        is_canonical_order(ranks, canonical_order(ranks)),
    decreases ranks.len(),
{
    if ranks.len() == 0 {
        assert(is_canonical_order(ranks, Seq::<(int, int)>::empty()));
    } else {
        let i = ranks.len() - 1;
        let before = ranks.take(i);
        lemma_canonical_order(before);
        let order = canonical_order(before);
        let p = lemma_position_exists(ranks, order, i, 0);
        lemma_placed(ranks, order, i, p);
        assert(ranks.take(i + 1) =~= ranks);
    }
}

/// Computes the canonical order of `ranks`: for each rank that occurs, from the
/// smallest to the largest, the index of its first and of its last occurrence.
pub fn order_of(ranks: &Vec<u64>) -> (order: Vec<(usize, usize)>)
    ensures
        spans(order@) == canonical_order(ranks@),
        is_canonical_order(ranks@, spans(order@)),
{
    let mut order: Vec<(usize, usize)> = Vec::new();
    let mut i: usize = 0;
    while i < ranks.len()
        invariant
            i <= ranks.len(),
            is_canonical_order(ranks@.take(i as int), spans(order@)),
        decreases ranks.len() - i,
    {
        let rank = ranks[i];
        let mut p: usize = 0;
        proof {
            assert forall|j: int| 0 <= j < order@.len() implies (#[trigger] order@[j]).0 < i by {
                assert(spans(order@)[j].0 == order@[j].0);
            }
        }
        while p < order.len() && ranks[order[p].0] < rank
            invariant
                i < ranks.len(),
                rank == ranks@[i as int],
                p <= order.len(),
                is_canonical_order(ranks@.take(i as int), spans(order@)),
                forall|j: int| 0 <= j < order@.len() ==> (#[trigger] order@[j]).0 < i,
                forall|j: int| 0 <= j < p ==> ranks@[(#[trigger] spans(order@)[j]).0] < rank,
            decreases order.len() - p,
        {
            p += 1;
        }
        proof {
            lemma_placed(ranks@, spans(order@), i as int, p as int);
        }
        let ghost before = spans(order@);
        if p < order.len() && ranks[order[p].0] == rank {
            let first = order[p].0;
            order.set(p, (first, i));
            proof {
                assert(spans(order@) =~= placed(ranks@, before, i as int, p as int));
            }
        } else {
            order.insert(p, (i, i));
            proof {
                assert(spans(order@) =~= placed(ranks@, before, i as int, p as int));
            }
        }
        i += 1;
    }
    proof {
        assert(ranks@.take(i as int) =~= ranks@);
        lemma_canonical_order_unique(ranks@, spans(order@), canonical_order(ranks@));
    }
    order
}

} // verus!

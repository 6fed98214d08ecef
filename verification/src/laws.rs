//! What holds of every value and every reply.

use crate::decimal::{
    decimal_text, lemma_decimal_value_signed, lemma_decimal_value_unsigned, lemma_digits_value,
};
use crate::decode::{as_integer, as_list, decoded, lemma_all_decoded, DecodeError};
use crate::encode::{
    encode, encodings, key_encodings, lemma_encodings, lemma_pair_encodings, rank, ranks_of,
    tree_of, value_encodings,
};
use crate::identity::{all_equal, by_rank, equal};
use crate::order::{
    canonical_order, covered, covers, lemma_canonical_order, lemma_canonical_order_unique,
};
use crate::reply::Shape;
use crate::value::Tagged;
use crate::wire::{number, text};
use std::cmp::Ordering;
use vstd::prelude::*;
use vstd::utf8::{
    encode_utf8, encode_utf8_decode_utf8, encode_utf8_valid_utf8,
    partial_valid_utf8_extend_ascii_block, valid_utf8,
};

verus! {

/// 1 where a statement holds, 0 where it does not.
pub open spec fn one_if(holds: bool) -> int {
    if holds {
        1
    } else {
        0
    }
}

/// A value is of exactly one kind.
pub proof fn lemma_exactly_one_kind(value: Tagged)
    ensures
        one_if(value is Integer) + one_if(value is Text) + one_if(value is List) + one_if(
            value is SetOf,
        ) + one_if(value is MapOf) == 1,
{
}

/// A reply that can be read as an integer is decoded as that integer,
/// whatever else it can be read as: a reply that is text as well never
/// becomes a string.
pub proof fn lemma_integer_first(shape: Shape)
    requires
        as_integer(shape) is Some,
    ensures
        decoded(shape) == Ok::<Tagged, DecodeError>(Tagged::Integer(as_integer(shape)->Some_0)),
{
}

/// Runs of values that are equal item by item are sent as the same arguments.
pub proof fn lemma_all_equal_same_arguments(xs: Seq<Tagged>, ys: Seq<Tagged>)
    requires
        all_equal(xs, ys),
    ensures
        encodings(xs) == encodings(ys),
    decreases xs, 0nat,
{
    if xs.len() > 0 {
        lemma_all_equal_same_arguments(xs.drop_last(), ys.drop_last());
        lemma_equal_same_arguments(xs.last(), ys.last());
        assert(encodings(xs) == encodings(xs.drop_last()).push(encode(xs.last())));
        assert(encodings(ys) == encodings(ys.drop_last()).push(encode(ys.last())));
    } else {
        assert(encodings(xs) == Seq::<Seq<Seq<u8>>>::empty());
        assert(encodings(ys) == Seq::<Seq<Seq<u8>>>::empty());
    }
}

/// Equal values are sent as the same arguments, and so have the same hash and
/// the same place in the order.
pub proof fn lemma_equal_same_arguments(a: Tagged, b: Tagged)
    requires
        equal(a, b),
    ensures
        encode(a) == encode(b),
        rank(a) == rank(b),
        by_rank(rank(a), rank(b)) == Ordering::Equal,
    decreases a, 1nat,
{
    match (a, b) {
        (Tagged::List(xs), Tagged::List(ys)) => {
            lemma_all_equal_same_arguments(xs, ys);
        },
        _ => {},
    }
}

/// Every run of values is equal to itself item by item.
pub proof fn lemma_all_equal_to_itself(xs: Seq<Tagged>)
    ensures
        all_equal(xs, xs),
    decreases xs, 0nat,
{
    if xs.len() > 0 {
        lemma_all_equal_to_itself(xs.drop_last());
        lemma_equal_to_itself(xs.last());
    }
}

/// Every value is equal to itself.
pub proof fn lemma_equal_to_itself(a: Tagged)
    ensures
        equal(a, a),
    decreases a, 1nat,
{
    match a {
        Tagged::List(xs) => {
            lemma_all_equal_to_itself(xs);
        },
        _ => {},
    }
}

/// Equality of runs does not depend on the side, and carries over a run in the middle.
pub proof fn lemma_all_equal_both_ways(xs: Seq<Tagged>, ys: Seq<Tagged>, zs: Seq<Tagged>)
    ensures
        all_equal(xs, ys) ==> all_equal(ys, xs),
        all_equal(xs, ys) && all_equal(ys, zs) ==> all_equal(xs, zs),
    decreases xs, 0nat,
{
    if xs.len() > 0 && xs.len() == ys.len() {
        lemma_all_equal_both_ways(xs.drop_last(), ys.drop_last(), zs.drop_last());
        lemma_equal_both_ways(xs.last(), ys.last(), zs.last());
    }
}

/// Equality of values does not depend on the side, and carries over a value in
/// the middle: with `lemma_equal_to_itself`, it is an equivalence.
pub proof fn lemma_equal_both_ways(a: Tagged, b: Tagged, c: Tagged)
    ensures
        equal(a, b) ==> equal(b, a),
        equal(a, b) && equal(b, c) ==> equal(a, c),
    decreases a, 1nat,
{
    match (a, b, c) {
        (Tagged::List(xs), Tagged::List(ys), Tagged::List(zs)) => {
            lemma_all_equal_both_ways(xs, ys, zs);
        },
        (Tagged::List(xs), Tagged::List(ys), _) => {
            lemma_all_equal_both_ways(xs, ys, Seq::empty());
        },
        _ => {},
    }
}

/// The order by rank is total: two values always compare, a value compares
/// equal to itself, turning the sides turns the outcome, and what comes before
/// or with a second value comes before or with all that the second does.
pub proof fn lemma_order_is_total(a: Tagged, b: Tagged, c: Tagged)
    ensures
        by_rank(rank(a), rank(a)) == Ordering::Equal,
        by_rank(rank(a), rank(b)) == Ordering::Less <==> by_rank(rank(b), rank(a))
            == Ordering::Greater,
        by_rank(rank(a), rank(b)) == Ordering::Equal <==> by_rank(rank(b), rank(a))
            == Ordering::Equal,
        by_rank(rank(a), rank(b)) != Ordering::Greater && by_rank(rank(b), rank(c))
            != Ordering::Greater ==> by_rank(rank(a), rank(c)) != Ordering::Greater,
{
}

/// Whether the ranks rise strictly from each to the next.
pub open spec fn rising(ranks: Seq<u64>) -> bool {
    forall|i: int, j: int| 0 <= i < j < ranks.len() ==> ranks[i] < ranks[j]
}

/// The order that keeps every index in its place.
pub open spec fn in_place(count: nat) -> Seq<(int, int)> {
    Seq::new(count, |j: int| (j, j))
}

/// Ranks that rise strictly are in canonical order as they stand.
pub proof fn lemma_rising_is_canonical(ranks: Seq<u64>)
    requires
        rising(ranks),
    ensures
        canonical_order(ranks) == in_place(ranks.len()),
{
    let order = in_place(ranks.len());
    assert forall|idx: int| 0 <= idx < ranks.len() implies #[trigger] covered(
        ranks,
        order,
        idx,
    ) by {
        assert(covers(ranks, order, idx, idx));
    }
    lemma_canonical_order_unique(ranks, order, canonical_order(ranks));
}

/// The ranks that occur, each once, from the smallest to the largest.
pub open spec fn levels(ranks: Seq<u64>) -> Seq<u64> {
    let order = canonical_order(ranks);
    Seq::new(order.len(), |j: int| ranks[order[j].0])
}

/// The levels rise strictly and are the ranks that occur.
pub proof fn lemma_levels(ranks: Seq<u64>)
    ensures
        rising(levels(ranks)),
        levels(ranks).len() == canonical_order(ranks).len(),
        forall|rank: u64| levels(ranks).contains(rank) <==> ranks.contains(rank),
{
    lemma_canonical_order(ranks);
    let order = canonical_order(ranks);
    let found = levels(ranks);
    assert forall|rank: u64| found.contains(rank) <==> ranks.contains(rank) by {
        if ranks.contains(rank) {
            let idx = choose|idx: int| 0 <= idx < ranks.len() && ranks[idx] == rank;
            assert(covered(ranks, order, idx));
            let j = choose|j: int| covers(ranks, order, j, idx);
            assert(found[j] == rank);
        }
    }
}

/// Two runs of ranks that rise strictly and hold the same ranks are the same run.
pub proof fn lemma_rising_unique(a: Seq<u64>, b: Seq<u64>)
    requires
        rising(a),
        rising(b),
        forall|rank: u64| a.contains(rank) <==> b.contains(rank),
    ensures
        a == b,
    decreases a.len(),
{
    if a.len() == 0 {
        if b.len() > 0 {
            assert(a.contains(b[0]));
        }
    } else {
        assert(b.contains(a.last()));
        assert(a.contains(b.last()));
        // the last of each is the largest of both
        let shorter_a = a.drop_last();
        let shorter_b = b.drop_last();
        assert forall|rank: u64| shorter_a.contains(rank) <==> shorter_b.contains(rank) by {
            if shorter_a.contains(rank) {
                assert(a.contains(rank));
                let k = choose|k: int| 0 <= k < b.len() && b[k] == rank;
                assert(shorter_b[k] == rank);
            }
            if shorter_b.contains(rank) {
                assert(b.contains(rank));
                let k = choose|k: int| 0 <= k < a.len() && a[k] == rank;
                assert(shorter_a[k] == rank);
            }
        }
        lemma_rising_unique(shorter_a, shorter_b);
        assert(b =~= shorter_b.push(b.last()));
    }
}

/// The members of a set in canonical order, each rank once: of the members of
/// one rank the first.
pub open spec fn members_of(items: Seq<Tagged>) -> Seq<Tagged> {
    let order = canonical_order(ranks_of(encodings(items)));
    Seq::new(order.len(), |j: int| items[order[j].0])
}

/// The rank of each member is the rank of its arguments.
proof fn lemma_ranks(items: Seq<Tagged>)
    ensures
        encodings(items).len() == items.len(),
        ranks_of(encodings(items)).len() == items.len(),
        forall|i: int| 0 <= i < items.len() ==> #[trigger] encodings(items)[i] == encode(items[i]),
        forall|i: int|
            0 <= i < items.len() ==> #[trigger] ranks_of(encodings(items))[i] == rank(items[i]),
{
    lemma_encodings(items);
}

/// The rank of each key is the rank of its arguments.
proof fn lemma_key_ranks(pairs: Seq<(Tagged, Tagged)>)
    ensures
        key_encodings(pairs).len() == pairs.len(),
        value_encodings(pairs).len() == pairs.len(),
        ranks_of(key_encodings(pairs)).len() == pairs.len(),
        forall|i: int|
            0 <= i < pairs.len() ==> #[trigger] key_encodings(pairs)[i] == encode(pairs[i].0),
        forall|i: int|
            0 <= i < pairs.len() ==> #[trigger] value_encodings(pairs)[i] == encode(pairs[i].1),
        forall|i: int|
            0 <= i < pairs.len() ==> #[trigger] ranks_of(key_encodings(pairs))[i] == rank(
                pairs[i].0,
            ),
{
    lemma_pair_encodings(pairs);
}

/// Putting the members of a set into canonical order a second time changes
/// nothing: neither the members nor the arguments of the set.
pub proof fn lemma_members_settled(items: Seq<Tagged>)
    ensures
        members_of(members_of(items)) == members_of(items),
        encode(Tagged::SetOf(members_of(items))) == encode(Tagged::SetOf(items)),
{
    let members = encodings(items);
    let ranks = ranks_of(members);
    let order = canonical_order(ranks);
    let settled = members_of(items);
    let settled_ranks = ranks_of(encodings(settled));
    lemma_ranks(items);
    lemma_ranks(settled);
    lemma_canonical_order(ranks);
    lemma_rising_is_canonical(settled_ranks);
    let again = canonical_order(settled_ranks);
    assert(Seq::new(again.len(), |j: int| encodings(settled)[again[j].0]) =~= Seq::new(
        order.len(),
        |j: int| members[order[j].0],
    ));
}

/// Putting the pairs of a map into canonical order a second time changes
/// nothing: neither the pairs nor the arguments of the map.
pub proof fn lemma_tree_settled(pairs: Seq<(Tagged, Tagged)>)
    ensures
        tree_of(tree_of(pairs)) == tree_of(pairs),
        encode(Tagged::MapOf(tree_of(pairs))) == encode(Tagged::MapOf(pairs)),
{
    let keys = key_encodings(pairs);
    let values = value_encodings(pairs);
    let ranks = ranks_of(keys);
    let order = canonical_order(ranks);
    let settled = tree_of(pairs);
    let settled_ranks = ranks_of(key_encodings(settled));
    lemma_key_ranks(pairs);
    lemma_key_ranks(settled);
    lemma_canonical_order(ranks);
    lemma_rising_is_canonical(settled_ranks);
    let again = canonical_order(settled_ranks);
    assert(Seq::new(
        again.len(),
        |j: int| key_encodings(settled)[again[j].0] + value_encodings(settled)[again[j].1],
    ) =~= Seq::new(order.len(), |j: int| keys[order[j].0] + values[order[j].1]));
}

/// Two collections of the same members, given in whatever order, have the same
/// levels: the ranks that occur in the one occur in the other.
proof fn lemma_same_levels<A>(
    a: Seq<A>,
    b: Seq<A>,
    ranks_a: Seq<u64>,
    ranks_b: Seq<u64>,
    rank_of: spec_fn(A) -> u64,
)
    requires
        forall|member: A| a.contains(member) <==> b.contains(member),
        ranks_a.len() == a.len(),
        ranks_b.len() == b.len(),
        forall|i: int| 0 <= i < a.len() ==> #[trigger] ranks_a[i] == rank_of(a[i]),
        forall|i: int| 0 <= i < b.len() ==> #[trigger] ranks_b[i] == rank_of(b[i]),
    ensures
        levels(ranks_a) == levels(ranks_b),
{
    lemma_levels(ranks_a);
    lemma_levels(ranks_b);
    assert forall|r: u64| ranks_a.contains(r) <==> ranks_b.contains(r) by {
        if ranks_a.contains(r) {
            let i = choose|i: int| 0 <= i < ranks_a.len() && ranks_a[i] == r;
            assert(a.contains(a[i]));
            let k = choose|k: int| 0 <= k < b.len() && b[k] == a[i];
            assert(ranks_b[k] == r);
        }
        if ranks_b.contains(r) {
            let i = choose|i: int| 0 <= i < ranks_b.len() && ranks_b[i] == r;
            assert(b.contains(b[i]));
            let k = choose|k: int| 0 <= k < a.len() && a[k] == b[i];
            assert(ranks_a[k] == r);
        }
    }
    assert forall|r: u64| levels(ranks_a).contains(r) <==> levels(ranks_b).contains(r) by {
        assert(levels(ranks_b).contains(r) <==> ranks_b.contains(r));
    }
    lemma_rising_unique(levels(ranks_a), levels(ranks_b));
}

/// No two members of different arguments have the same rank.
pub open spec fn collision_free(items: Seq<Tagged>) -> bool {
    forall|i: int, j: int|
        0 <= i < items.len() && 0 <= j < items.len() && rank(#[trigger] items[i]) == rank(
            #[trigger] items[j],
        ) ==> encode(items[i]) == encode(items[j])
}

/// Two pairs whose keys have the same rank have keys of the same arguments and
/// values of the same arguments: no key stands with two values, and no two
/// keys of different arguments have the same rank.
pub open spec fn unambiguous(pairs: Seq<(Tagged, Tagged)>) -> bool {
    forall|i: int, j: int|
        0 <= i < pairs.len() && 0 <= j < pairs.len() && rank((#[trigger] pairs[i]).0) == rank(
            (#[trigger] pairs[j]).0,
        ) ==> encode(pairs[i].0) == encode(pairs[j].0) && encode(pairs[i].1) == encode(pairs[j].1)
}

/// Two sets of the same members, given in whatever order, are sent as the same
/// arguments, are equal and have the same hash, as long as no two members of
/// different arguments have the same rank.
pub proof fn lemma_set_order_free(a: Seq<Tagged>, b: Seq<Tagged>)
    requires
        forall|member: Tagged| a.contains(member) <==> b.contains(member),
        collision_free(a),
    ensures
        encode(Tagged::SetOf(a)) == encode(Tagged::SetOf(b)),
        equal(Tagged::SetOf(a), Tagged::SetOf(b)),
        rank(Tagged::SetOf(a)) == rank(Tagged::SetOf(b)),
{
    let ranks_a = ranks_of(encodings(a));
    let ranks_b = ranks_of(encodings(b));
    let order_a = canonical_order(ranks_a);
    let order_b = canonical_order(ranks_b);
    lemma_ranks(a);
    lemma_ranks(b);
    lemma_canonical_order(ranks_a);
    lemma_canonical_order(ranks_b);
    lemma_levels(ranks_a);
    lemma_levels(ranks_b);
    lemma_same_levels(a, b, ranks_a, ranks_b, |member: Tagged| rank(member));
    let chosen_a = Seq::new(order_a.len(), |j: int| encodings(a)[order_a[j].0]);
    let chosen_b = Seq::new(order_b.len(), |j: int| encodings(b)[order_b[j].0]);
    assert forall|j: int| 0 <= j < chosen_a.len() implies chosen_a[j] == chosen_b[j] by {
        let from_b = order_b[j].0;
        assert(levels(ranks_b)[j] == ranks_b[from_b]);
        assert(b.contains(b[from_b]));
    }
    assert(chosen_a =~= chosen_b);
}

/// Two maps of the same pairs, given in whatever order, are sent as the same
/// arguments, are equal and have the same hash, as long as the pairs are
/// unambiguous.
pub proof fn lemma_map_order_free(a: Seq<(Tagged, Tagged)>, b: Seq<(Tagged, Tagged)>)
    requires
        forall|pair: (Tagged, Tagged)| a.contains(pair) <==> b.contains(pair),
        unambiguous(a),
    ensures
        encode(Tagged::MapOf(a)) == encode(Tagged::MapOf(b)),
        equal(Tagged::MapOf(a), Tagged::MapOf(b)),
        rank(Tagged::MapOf(a)) == rank(Tagged::MapOf(b)),
{
    let ranks_a = ranks_of(key_encodings(a));
    let ranks_b = ranks_of(key_encodings(b));
    let order_a = canonical_order(ranks_a);
    let order_b = canonical_order(ranks_b);
    lemma_key_ranks(a);
    lemma_key_ranks(b);
    lemma_canonical_order(ranks_a);
    lemma_canonical_order(ranks_b);
    lemma_levels(ranks_a);
    lemma_levels(ranks_b);
    lemma_same_levels(a, b, ranks_a, ranks_b, |pair: (Tagged, Tagged)| rank(pair.0));
    let chosen_a = Seq::new(
        order_a.len(),
        |j: int| key_encodings(a)[order_a[j].0] + value_encodings(a)[order_a[j].1],
    );
    let chosen_b = Seq::new(
        order_b.len(),
        |j: int| key_encodings(b)[order_b[j].0] + value_encodings(b)[order_b[j].1],
    );
    assert forall|j: int| 0 <= j < chosen_a.len() implies chosen_a[j] == chosen_b[j] by {
        let first_b = order_b[j].0;
        let last_b = order_b[j].1;
        assert(levels(ranks_b)[j] == ranks_b[first_b]);
        assert(b.contains(b[first_b]));
        assert(b.contains(b[last_b]));
    }
    assert(chosen_a =~= chosen_b);
}

/// A map of two pairs whose keys differ in rank is the same map whichever
/// pair is given first: the same arguments, equal, and of the same hash.
pub proof fn lemma_two_pairs_either_way(first: (Tagged, Tagged), second: (Tagged, Tagged))
    requires
        rank(first.0) != rank(second.0),
    ensures
        encode(Tagged::MapOf(seq![first, second])) == encode(Tagged::MapOf(seq![second, first])),
        equal(Tagged::MapOf(seq![first, second]), Tagged::MapOf(seq![second, first])),
        rank(Tagged::MapOf(seq![first, second])) == rank(Tagged::MapOf(seq![second, first])),
{
    let a = seq![first, second];
    let b = seq![second, first];
    assert forall|pair: (Tagged, Tagged)| a.contains(pair) <==> b.contains(pair) by {
        if a.contains(pair) {
            let i = choose|i: int| 0 <= i < a.len() && a[i] == pair;
            assert(b[1 - i] == pair);
        }
        if b.contains(pair) {
            let i = choose|i: int| 0 <= i < b.len() && b[i] == pair;
            assert(a[1 - i] == pair);
        }
    }
    lemma_map_order_free(a, b);
}

/// The reply that stands for a value: an integer reply for an integer, the
/// bytes of its one argument for a string, the sequence of its members for a
/// collection.
pub open spec fn as_reply(value: Tagged) -> Shape
    decreases value,
{
    match value {
        Tagged::Integer(number) => Shape::Int(number),
        Tagged::Text(text) => Shape::Data(encode_utf8(text)),
        Tagged::List(items) => Shape::Bulk(replies_of(items)),
        Tagged::SetOf(items) => Shape::Bulk(replies_of(items)),
        Tagged::MapOf(pairs) => Shape::Bulk(pair_replies_of(pairs)),
    }
}

/// The replies of a run of values, in order.
pub open spec fn replies_of(items: Seq<Tagged>) -> Seq<Shape>
    decreases items,
{
    if items.len() == 0 {
        Seq::empty()
    } else {
        replies_of(items.drop_last()).push(as_reply(items.last()))
    }
}

/// The replies of a run of pairs: key and value in turn.
pub open spec fn pair_replies_of(pairs: Seq<(Tagged, Tagged)>) -> Seq<Shape>
    decreases pairs,
{
    if pairs.len() == 0 {
        Seq::empty()
    } else {
        pair_replies_of(pairs.drop_last()).push(as_reply(pairs.last().0)).push(
            as_reply(pairs.last().1),
        )
    }
}

/// Whether a value is of the kinds that a reply tells apart: an integer, a
/// string that is not the text of an integer or of a truth value, or a list of
/// such values. A set and a map come back as a list.
pub open spec fn comes_back(value: Tagged) -> bool
    decreases value,
{
    match value {
        Tagged::Integer(_) => true,
        Tagged::Text(text) => as_integer(Shape::Data(encode_utf8(text))) is None,
        Tagged::List(items) => all_come_back(items),
        Tagged::SetOf(_) => false,
        Tagged::MapOf(_) => false,
    }
}

/// Whether every value of a run comes back.
pub open spec fn all_come_back(items: Seq<Tagged>) -> bool
    decreases items,
{
    items.len() == 0 || (all_come_back(items.drop_last()) && comes_back(items.last()))
}

/// Decimal text is valid UTF-8.
pub proof fn lemma_decimal_text_is_utf8(number: int)
    ensures
        valid_utf8(decimal_text(number)),
{
    let bytes = decimal_text(number);
    if number < 0 {
        lemma_digits_value((-number) as nat);
    } else {
        lemma_digits_value(number as nat);
    }
    partial_valid_utf8_extend_ascii_block(bytes, 0, bytes.len() as int);
    assert(bytes.subrange(0, bytes.len() as int) =~= bytes);
}

/// An integer is read back from the argument that it is sent as: its decimal
/// text, as a string of bytes, is that integer.
pub proof fn lemma_sent_integer_comes_back(sent: i64)
    ensures
        encode(Tagged::Integer(sent)) == seq![decimal_text(sent as int)],
        decoded(Shape::Data(decimal_text(sent as int))) == Ok::<Tagged, DecodeError>(
            Tagged::Integer(sent),
        ),
{
    lemma_decimal_text_is_utf8(sent as int);
    lemma_decimal_value_signed(sent as int);
    lemma_decimal_value_unsigned(sent as int);
}

/// A value that comes back is what its reply is decoded as.
pub proof fn lemma_round_trip(value: Tagged)
    requires
        comes_back(value),
    ensures
        decoded(as_reply(value)) == Ok::<Tagged, DecodeError>(value),
    decreases value, 1nat,
{
    match value {
        Tagged::Integer(_) => {},
        Tagged::Text(found) => {
            encode_utf8_valid_utf8(found);
            encode_utf8_decode_utf8(found);
        },
        Tagged::List(items) => {
            lemma_round_trip_all(items);
            lemma_all_decoded(replies_of(items));
            let shape = as_reply(value);
            assert(as_list(shape) == Some(items));
        },
        Tagged::SetOf(_) => {},
        Tagged::MapOf(_) => {},
    }
}

/// Each value of a run that comes back is what its reply is decoded as.
pub proof fn lemma_round_trip_all(items: Seq<Tagged>)
    requires
        all_come_back(items),
    ensures
        replies_of(items).len() == items.len(),
        forall|i: int|
            0 <= i < items.len() ==> decoded(#[trigger] replies_of(items)[i]) == Ok::<
                Tagged,
                DecodeError,
            >(items[i]),
    decreases items, 0nat,
{
    if items.len() > 0 {
        lemma_round_trip_all(items.drop_last());
        lemma_round_trip(items.last());
    }
}

} // verus!

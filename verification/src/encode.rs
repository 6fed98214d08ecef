//! Values as protocol arguments, and the order and identity that follow from them.

use crate::decimal::decimal_text;
use crate::order::{canonical_order, is_canonical_order, lemma_canonical_order, order_of, spans};
use crate::value::{
    clone_pairs, lemma_pair_sizes, lemma_pair_views, lemma_pair_views_push, lemma_sizes,
    lemma_views, pair_sizes, pair_views, size, sizes, views, RedisValue, Tagged,
};
use crate::wire::{integer_args, text_args};
use std::collections::hash_map::DefaultHasher;
use std::hash::Hasher;
use vstd::bytes::{spec_u64_to_le_bytes, u64_to_le_bytes};
use vstd::prelude::*;
use vstd::std_specs::hash::DefaultHasherAdditionalSpecFns;
use vstd::utf8::encode_utf8;

verus! {

/// A list of arguments: each one a string of bytes.
pub type Arguments = Seq<Seq<u8>>;

/// What a vector of arguments holds.
pub open spec fn arguments(args: Seq<Vec<u8>>) -> Arguments {
    args.map_values(|arg: Vec<u8>| arg@)
}

/// The writes that feed a list of arguments to a hasher: the number of
/// arguments, then each argument behind its length. Numbers are written as
/// eight bytes, the lowest first.
pub open spec fn framed(args: Arguments) -> Seq<Seq<u8>> {
    seq![spec_u64_to_le_bytes(args.len() as u64)] + framed_each(args)
}

/// Each argument behind its length.
pub open spec fn framed_each(args: Arguments) -> Seq<Seq<u8>>
    decreases args.len(),
{
    if args.len() == 0 {
        Seq::empty()
    } else {
        framed_each(args.drop_last()).push(
            spec_u64_to_le_bytes(args.last().len() as u64),
        ).push(args.last())
    }
}

/// The 64-bit hash of a list of arguments.
pub open spec fn digest_of(args: Arguments) -> u64 {
    DefaultHasher::spec_finish(framed(args))
}

/// The rank of each member of a collection, from the arguments of each.
pub open spec fn ranks_of(members: Seq<Arguments>) -> Seq<u64> {
    members.map_values(|args: Arguments| digest_of(args))
}

/// The arguments of a set, from those of its members: the members in canonical
/// order, each rank once, taken from the first member of that rank.
pub open spec fn set_form(members: Seq<Arguments>) -> Arguments {
    let order = canonical_order(ranks_of(members));
    Seq::new(order.len(), |j: int| members[order[j].0]).flatten()
}

/// The arguments of a map, from those of its keys and values: key and value in
/// turn, the keys in canonical order, each rank once. The key is the first of
/// its rank and the value is that of the last key of that rank.
pub open spec fn map_form(keys: Seq<Arguments>, values: Seq<Arguments>) -> Arguments {
    let order = canonical_order(ranks_of(keys));
    Seq::new(order.len(), |j: int| keys[order[j].0] + values[order[j].1]).flatten()
}

/// The arguments that a value is sent as.
pub open spec fn encode(value: Tagged) -> Arguments
    decreases value,
{
    match value {
        Tagged::Integer(number) => seq![decimal_text(number as int)],
        Tagged::Text(text) => seq![encode_utf8(text)],
        Tagged::List(items) => encodings(items).flatten(),
        Tagged::SetOf(items) => set_form(encodings(items)),
        Tagged::MapOf(pairs) => map_form(key_encodings(pairs), value_encodings(pairs)),
    }
}

/// The arguments of each value of a run.
pub open spec fn encodings(items: Seq<Tagged>) -> Seq<Arguments>
    decreases items,
{
    if items.len() == 0 {
        Seq::empty()
    } else {
        encodings(items.drop_last()).push(encode(items.last()))
    }
}

/// The arguments of each key of a run of pairs.
pub open spec fn key_encodings(pairs: Seq<(Tagged, Tagged)>) -> Seq<Arguments>
    decreases pairs,
{
    if pairs.len() == 0 {
        Seq::empty()
    } else {
        key_encodings(pairs.drop_last()).push(encode(pairs.last().0))
    }
}

/// The arguments of each value of a run of pairs.
pub open spec fn value_encodings(pairs: Seq<(Tagged, Tagged)>) -> Seq<Arguments>
    decreases pairs,
{
    if pairs.len() == 0 {
        Seq::empty()
    } else {
        value_encodings(pairs.drop_last()).push(encode(pairs.last().1))
    }
}

/// The rank of a value: the hash of its arguments.
pub open spec fn rank(value: Tagged) -> u64 {
    digest_of(encode(value))
}

/// `encodings` keeps the length and encodes item by item.
pub proof fn lemma_encodings(items: Seq<Tagged>)
    ensures
        encodings(items).len() == items.len(),
        forall|i: int| 0 <= i < items.len() ==> #[trigger] encodings(items)[i] == encode(items[i]),
    decreases items.len(),
{
    if items.len() > 0 {
        lemma_encodings(items.drop_last());
    }
}

/// `key_encodings` and `value_encodings` keep the length and encode pair by pair.
pub proof fn lemma_pair_encodings(pairs: Seq<(Tagged, Tagged)>)
    ensures
        key_encodings(pairs).len() == pairs.len(),
        value_encodings(pairs).len() == pairs.len(),
        forall|i: int|
            0 <= i < pairs.len() ==> #[trigger] key_encodings(pairs)[i] == encode(pairs[i].0),
        forall|i: int|
            0 <= i < pairs.len() ==> #[trigger] value_encodings(pairs)[i] == encode(pairs[i].1),
    decreases pairs.len(),
{
    if pairs.len() > 0 {
        lemma_pair_encodings(pairs.drop_last());
    }
}

/// The pairs of a map in canonical order of their keys, each rank once: the key
/// is the first of its rank, the value that of the last key of that rank.
pub open spec fn tree_of(pairs: Seq<(Tagged, Tagged)>) -> Seq<(Tagged, Tagged)> {
    let order = canonical_order(ranks_of(key_encodings(pairs)));
    Seq::new(order.len(), |j: int| (pairs[order[j].0].0, pairs[order[j].1].1))
}

/// One more argument is framed behind the arguments before it.
proof fn lemma_framed_each_push(args: Arguments, arg: Seq<u8>)
    ensures
        framed_each(args.push(arg)) == framed_each(args).push(
            spec_u64_to_le_bytes(arg.len() as u64),
        ).push(arg),
{
    let longer = args.push(arg);
    assert(longer.drop_last() =~= args);
}

impl RedisValue {
    /// Appends arguments that the client made to `output`, one by one.
    fn write_variable_to_args(redis_args: Vec<Vec<u8>>, output: &mut Vec<Vec<u8>>)
        ensures
            final(output)@ == old(output)@ + redis_args@,
    {
        let mut redis_args = redis_args;
        output.append(&mut redis_args);
    }

    /// Appends to `out` the arguments that this value is sent as.
    pub fn write_redis_args(&self, out: &mut Vec<Vec<u8>>)
        ensures
            arguments(final(out)@) == arguments(old(out)@) + encode(self@),
        decreases size(self@), 0nat,
    {
        match self {
            RedisValue::Integer(number) => {
                let args = integer_args(*number);
                Self::write_variable_to_args(args, out);
            },
            RedisValue::Text(text) => {
                let args = text_args(text);
                Self::write_variable_to_args(args, out);
            },
            RedisValue::List(items) => {
                let ghost members = encodings(views(items@));
                proof {
                    lemma_views(items@);
                    lemma_encodings(views(items@));
                }
                let mut i: usize = 0;
                while i < items.len()
                    invariant
                        i <= items.len(),
                        self@ == Tagged::List(views(items@)),
                        members == encodings(views(items@)),
                        members.len() == items.len(),
                        forall|k: int|
                            0 <= k < items.len() ==> #[trigger] members[k] == encode(items@[k]@),
                        arguments(out@) == arguments(old(out)@) + members.take(
                            i as int,
                        ).flatten(),
                    decreases items.len() - i,
                {
                    proof {
                        lemma_views(items@);
                        lemma_sizes(views(items@), i as int);
                        assert(members.take(i + 1) =~= members.take(i as int).push(
                            members[i as int],
                        ));
                        members.take(i as int).lemma_flatten_push(members[i as int]);
                    }
                    items[i].write_redis_args(out);
                    i += 1;
                }
                proof {
                    assert(members.take(i as int) =~= members);
                }
            },
            RedisValue::SetOf(items) => {
                let ghost members = encodings(views(items@));
                proof {
                    lemma_views(items@);
                    lemma_encodings(views(items@));
                }
                let ranks = Self::ranks(items);
                let order = order_of(&ranks);
                let ghost chosen = Seq::new(order@.len(), |j: int| members[spans(order@)[j].0]);
                let mut j: usize = 0;
                while j < order.len()
                    invariant
                        j <= order.len(),
                        self@ == Tagged::SetOf(views(items@)),
                        members == encodings(views(items@)),
                        members.len() == items.len(),
                        ranks@.len() == items.len(),
                        is_canonical_order(ranks@, spans(order@)),
                        forall|k: int|
                            0 <= k < items.len() ==> #[trigger] members[k] == encode(items@[k]@),
                        chosen == Seq::new(order@.len(), |j: int| members[spans(order@)[j].0]),
                        arguments(out@) == arguments(old(out)@) + chosen.take(j as int).flatten(),
                    decreases order.len() - j,
                {
                    proof {
                        assert(spans(order@)[j as int].0 == order@[j as int].0);
                        lemma_views(items@);
                        lemma_sizes(views(items@), order@[j as int].0 as int);
                        assert(chosen.take(j + 1) =~= chosen.take(j as int).push(chosen[j as int]));
                        chosen.take(j as int).lemma_flatten_push(chosen[j as int]);
                    }
                    items[order[j].0].write_redis_args(out);
                    j += 1;
                }
                proof {
                    assert(chosen.take(j as int) =~= chosen);
                }
            },
            RedisValue::MapOf(pairs) => {
                let ghost keys = key_encodings(pair_views(pairs@));
                let ghost values = value_encodings(pair_views(pairs@));
                let ghost order = canonical_order(ranks_of(keys));
                let ghost chosen = Seq::new(
                    order.len(),
                    |j: int| keys[order[j].0] + values[order[j].1],
                );
                let copy = clone_pairs(pairs);
                let tree = Self::hash_to_tree(copy);
                proof {
                    lemma_pair_views(pairs@);
                    lemma_pair_views(tree@);
                    lemma_pair_encodings(pair_views(pairs@));
                    lemma_canonical_order(ranks_of(keys));
                }
                let mut j: usize = 0;
                while j < tree.len()
                    invariant
                        j <= tree.len(),
                        self@ == Tagged::MapOf(pair_views(pairs@)),
                        keys == key_encodings(pair_views(pairs@)),
                        values == value_encodings(pair_views(pairs@)),
                        order == canonical_order(ranks_of(keys)),
                        is_canonical_order(ranks_of(keys), order),
                        ranks_of(keys).len() == pairs@.len(),
                        pair_views(tree@) == tree_of(pair_views(pairs@)),
                        pair_views(tree@).len() == tree@.len(),
                        forall|k: int|
                            0 <= k < tree@.len() ==> #[trigger] pair_views(tree@)[k] == (
                                tree@[k].0@,
                                tree@[k].1@,
                            ),
                        pair_views(pairs@).len() == pairs@.len(),
                        keys.len() == pairs@.len(),
                        values.len() == pairs@.len(),
                        forall|k: int|
                            0 <= k < pairs@.len() ==> #[trigger] keys[k] == encode(
                                pair_views(pairs@)[k].0,
                            ),
                        forall|k: int|
                            0 <= k < pairs@.len() ==> #[trigger] values[k] == encode(
                                pair_views(pairs@)[k].1,
                            ),
                        chosen == Seq::new(
                            order.len(),
                            |j: int| keys[order[j].0] + values[order[j].1],
                        ),
                        arguments(out@) == arguments(old(out)@) + chosen.take(j as int).flatten(),
                    decreases tree.len() - j,
                {
                    proof {
                        let entry = order[j as int];
                        assert(pair_views(tree@)[j as int] == (
                            pair_views(pairs@)[entry.0].0,
                            pair_views(pairs@)[entry.1].1,
                        ));
                        lemma_pair_sizes(pair_views(pairs@), entry.0);
                        lemma_pair_sizes(pair_views(pairs@), entry.1);
                        assert(chosen.take(j + 1) =~= chosen.take(j as int).push(chosen[j as int]));
                        chosen.take(j as int).lemma_flatten_push(chosen[j as int]);
                    }
                    tree[j].0.write_redis_args(out);
                    tree[j].1.write_redis_args(out);
                    j += 1;
                }
                proof {
                    assert(chosen.take(j as int) =~= chosen);
                }
            },
        }
    }

    /// The arguments that this value is sent as.
    pub fn to_redis_args(&self) -> (args: Vec<Vec<u8>>)
        ensures
            arguments(args@) == encode(self@),
        decreases size(self@), 1nat,
    {
        let mut args: Vec<Vec<u8>> = Vec::new();
        self.write_redis_args(&mut args);
        args
    }

    /// Feeds this value to a hasher: its arguments, framed.
    pub fn hash(&self, state: &mut DefaultHasher)
        ensures
            final(state)@ == old(state)@ + framed(encode(self@)),
        decreases size(self@), 2nat,
    {
        let args = self.to_redis_args();
        let count = u64_to_le_bytes(args.len() as u64);
        state.write(count.as_slice());
        let mut i: usize = 0;
        while i < args.len()
            invariant
                i <= args.len(),
                state@ == old(state)@.push(spec_u64_to_le_bytes(args.len() as u64)) + framed_each(
                    arguments(args@).take(i as int),
                ),
            decreases args.len() - i,
        {
            let length = u64_to_le_bytes(args[i].len() as u64);
            proof {
                lemma_framed_each_push(arguments(args@).take(i as int), args@[i as int]@);
                assert(arguments(args@).take(i + 1) =~= arguments(args@).take(i as int).push(
                    args@[i as int]@,
                ));
            }
            state.write(length.as_slice());
            state.write(args[i].as_slice());
            i += 1;
        }
        proof {
            assert(arguments(args@).take(i as int) =~= arguments(args@));
        }
    }

    /// The rank of this value: the 64-bit hash of its arguments.
    pub fn digest(&self) -> (found: u64)
        ensures
            found == rank(self@),
        decreases size(self@), 3nat,
    {
        let mut state = DefaultHasher::new();
        self.hash(&mut state);
        state.finish()
    }

    /// The rank of each value of a run.
    fn ranks(items: &Vec<RedisValue>) -> (ranks: Vec<u64>)
        ensures
            ranks@ == ranks_of(encodings(views(items@))),
        decreases sizes(views(items@)), 4nat,
    {
        let mut ranks: Vec<u64> = Vec::new();
        let ghost members = encodings(views(items@));
        proof {
            lemma_views(items@);
            lemma_encodings(views(items@));
        }
        let mut i: usize = 0;
        while i < items.len()
            invariant
                i <= items.len(),
                members == encodings(views(items@)),
                members.len() == items.len(),
                forall|k: int| 0 <= k < items.len() ==> #[trigger] members[k] == encode(items@[k]@),
                ranks@ == ranks_of(members.take(i as int)),
            decreases items.len() - i,
        {
            proof {
                lemma_views(items@);
                lemma_sizes(views(items@), i as int);
            }
            let rank = items[i].digest();
            ranks.push(rank);
            i += 1;
        }
        ranks
    }

    /// The rank of each key of a run of pairs.
    fn key_ranks(pairs: &Vec<(RedisValue, RedisValue)>) -> (ranks: Vec<u64>)
        ensures
            ranks@ == ranks_of(key_encodings(pair_views(pairs@))),
        decreases pair_sizes(pair_views(pairs@)), 4nat,
    {
        let mut ranks: Vec<u64> = Vec::new();
        let ghost keys = key_encodings(pair_views(pairs@));
        proof {
            lemma_pair_views(pairs@);
            lemma_pair_encodings(pair_views(pairs@));
        }
        let mut i: usize = 0;
        while i < pairs.len()
            invariant
                i <= pairs.len(),
                keys == key_encodings(pair_views(pairs@)),
                keys.len() == pairs.len(),
                forall|k: int| 0 <= k < pairs.len() ==> #[trigger] keys[k] == encode(pairs@[k].0@),
                ranks@ == ranks_of(keys.take(i as int)),
            decreases pairs.len() - i,
        {
            proof {
                lemma_pair_views(pairs@);
                lemma_pair_sizes(pair_views(pairs@), i as int);
            }
            let rank = pairs[i].0.digest();
            ranks.push(rank);
            i += 1;
        }
        ranks
    }

    /// Puts the pairs of a map into the canonical order of their keys.
    ///
    /// Keys of one rank count as one key: the first stays, with the value of
    /// the last.
    pub fn hash_to_tree(input: Vec<(RedisValue, RedisValue)>) -> (tree: Vec<
        (RedisValue, RedisValue),
    >)
        ensures
            pair_views(tree@) == tree_of(pair_views(input@)),
        decreases pair_sizes(pair_views(input@)), 5nat,
    {
        let ranks = Self::key_ranks(&input);
        let order = order_of(&ranks);
        let mut tree: Vec<(RedisValue, RedisValue)> = Vec::new();
        let ghost wanted = tree_of(pair_views(input@));
        proof {
            lemma_pair_views(input@);
            lemma_pair_encodings(pair_views(input@));
        }
        let mut j: usize = 0;
        while j < order.len()
            invariant
                j <= order.len(),
                ranks@.len() == input@.len(),
                pair_views(input@).len() == input@.len(),
                forall|k: int|
                    0 <= k < input@.len() ==> #[trigger] pair_views(input@)[k] == (
                        input@[k].0@,
                        input@[k].1@,
                    ),
                is_canonical_order(ranks@, spans(order@)),
                spans(order@) == canonical_order(ranks_of(key_encodings(pair_views(input@)))),
                wanted == tree_of(pair_views(input@)),
                pair_views(tree@) == wanted.take(j as int),
            decreases order.len() - j,
        {
            proof {
                assert(spans(order@)[j as int] == (
                    order@[j as int].0 as int,
                    order@[j as int].1 as int,
                ));
            }
            let key = input[order[j].0].0.clone();
            let value = input[order[j].1].1.clone();
            proof {
                lemma_pair_views_push(tree@, (key, value));
            }
            tree.push((key, value));
            j += 1;
        }
        tree
    }
}

} // verus!

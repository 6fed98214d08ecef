//! The tagged value and its mathematical model.

use vstd::prelude::*;

verus! {

/// A value of the cache: exactly one of five kinds, possibly nested.
///
/// `SetOf` and `MapOf` hold their members in the order in which they were
/// given. That order carries no meaning: encoding, hashing and comparison go
/// by the canonical order of the members. Nor does it matter how often a
/// member was given: a member given twice counts once, and a key given twice
/// stands once, with the value that was given last. Members count as the same
/// member where they have one rank ([`crate::encode::rank`]).
#[derive(Debug)]
pub enum RedisValue {
    /// A 64-bit signed integer.
    Integer(i64),
    /// A string.
    Text(String),
    /// Values in a fixed order.
    List(Vec<RedisValue>),
    /// Values without an order.
    SetOf(Vec<RedisValue>),
    /// Keys with their values, without an order.
    MapOf(Vec<(RedisValue, RedisValue)>),
}

/// What a [`RedisValue`] holds, as a mathematical value.
pub enum Tagged {
    Integer(i64),
    Text(Seq<char>),
    List(Seq<Tagged>),
    SetOf(Seq<Tagged>),
    MapOf(Seq<(Tagged, Tagged)>),
}

impl View for RedisValue {
    type V = Tagged;

    open spec fn view(&self) -> Tagged
        decreases self,
    {
        match self {
            RedisValue::Integer(n) => Tagged::Integer(*n),
            RedisValue::Text(text) => Tagged::Text(text@),
            RedisValue::List(items) => Tagged::List(views(items@)),
            RedisValue::SetOf(items) => Tagged::SetOf(views(items@)),
            RedisValue::MapOf(pairs) => Tagged::MapOf(pair_views(pairs@)),
        }
    }
}

/// The views of a run of values, in order.
pub open spec fn views(items: Seq<RedisValue>) -> Seq<Tagged>
    decreases items,
{
    if items.len() == 0 {
        Seq::empty()
    } else {
        views(items.drop_last()).push(items.last()@)
    }
}

/// The views of a run of pairs, in order.
pub open spec fn pair_views(pairs: Seq<(RedisValue, RedisValue)>) -> Seq<(Tagged, Tagged)>
    decreases pairs,
{
    if pairs.len() == 0 {
        Seq::empty()
    } else {
        pair_views(pairs.drop_last()).push((pairs.last().0@, pairs.last().1@))
    }
}

/// `views` keeps the length and views item by item.
pub proof fn lemma_views(items: Seq<RedisValue>)
    ensures
        views(items).len() == items.len(),
        forall|i: int| 0 <= i < items.len() ==> #[trigger] views(items)[i] == items[i]@,
    decreases items.len(),
{
    if items.len() > 0 {
        lemma_views(items.drop_last());
        assert(views(items) == views(items.drop_last()).push(items.last()@));
    }
}

/// `pair_views` keeps the length and views pair by pair.
pub proof fn lemma_pair_views(pairs: Seq<(RedisValue, RedisValue)>)
    ensures
        pair_views(pairs).len() == pairs.len(),
        forall|i: int|
            0 <= i < pairs.len() ==> #[trigger] pair_views(pairs)[i] == (pairs[i].0@, pairs[i].1@),
    decreases pairs.len(),
{
    if pairs.len() > 0 {
        lemma_pair_views(pairs.drop_last());
        assert(pair_views(pairs) == pair_views(pairs.drop_last()).push(
            (pairs.last().0@, pairs.last().1@),
        ));
    }
}

/// The views of a longer run extend those of the run without its last item.
pub proof fn lemma_views_push(items: Seq<RedisValue>, item: RedisValue)
    ensures
        views(items.push(item)) == views(items).push(item@),
{
    let longer = items.push(item);
    assert(longer.drop_last() =~= items);
}

/// The views of a longer run of pairs extend those of the run without its last pair.
pub proof fn lemma_pair_views_push(
    pairs: Seq<(RedisValue, RedisValue)>,
    pair: (RedisValue, RedisValue),
)
    ensures
        pair_views(pairs.push(pair)) == pair_views(pairs).push((pair.0@, pair.1@)),
{
    let longer = pairs.push(pair);
    assert(longer.drop_last() =~= pairs);
}

/// The number of values that a value is made of, itself included.
pub open spec fn size(value: Tagged) -> nat
    decreases value,
{
    match value {
        Tagged::Integer(_) => 1,
        Tagged::Text(_) => 1,
        Tagged::List(items) => 1 + sizes(items),
        Tagged::SetOf(items) => 1 + sizes(items),
        Tagged::MapOf(pairs) => 1 + pair_sizes(pairs),
    }
}

/// The sizes of a run of values, added up.
pub open spec fn sizes(items: Seq<Tagged>) -> nat
    decreases items,
{
    if items.len() == 0 {
        0
    } else {
        sizes(items.drop_last()) + size(items.last())
    }
}

/// The sizes of the keys and values of a run of pairs, added up.
pub open spec fn pair_sizes(pairs: Seq<(Tagged, Tagged)>) -> nat
    decreases pairs,
{
    if pairs.len() == 0 {
        0
    } else {
        pair_sizes(pairs.drop_last()) + size(pairs.last().0) + size(pairs.last().1)
    }
}

/// A value of a run is no larger than the run.
pub proof fn lemma_sizes(items: Seq<Tagged>, i: int)
    requires
        0 <= i < items.len(),
    ensures
        size(items[i]) <= sizes(items),
    decreases items.len(),
{
    if i < items.len() - 1 {
        lemma_sizes(items.drop_last(), i);
    }
}

/// A key and its value are together no larger than the run of pairs they stand in.
pub proof fn lemma_pair_sizes(pairs: Seq<(Tagged, Tagged)>, i: int)
    requires
        0 <= i < pairs.len(),
    ensures
        size(pairs[i].0) + size(pairs[i].1) <= pair_sizes(pairs),
    decreases pairs.len(),
{
    if i < pairs.len() - 1 {
        lemma_pair_sizes(pairs.drop_last(), i);
    }
}

impl RedisValue {
    /// Whether this is an integer.
    pub fn is_integer(&self) -> (b: bool)
        ensures
            b == (self@ is Integer),
    {
        match self {
            RedisValue::Integer(_) => true,
            _ => false,
        }
    }

    /// Whether this is a string.
    pub fn is_text(&self) -> (b: bool)
        ensures
            b == (self@ is Text),
    {
        match self {
            RedisValue::Text(_) => true,
            _ => false,
        }
    }

    /// Whether this is a list.
    pub fn is_list(&self) -> (b: bool)
        ensures
            b == (self@ is List),
    {
        match self {
            RedisValue::List(_) => true,
            _ => false,
        }
    }

    /// Whether this is a set.
    pub fn is_set(&self) -> (b: bool)
        ensures
            b == (self@ is SetOf),
    {
        match self {
            RedisValue::SetOf(_) => true,
            _ => false,
        }
    }

    /// Whether this is a map.
    pub fn is_map(&self) -> (b: bool)
        ensures
            b == (self@ is MapOf),
    {
        match self {
            RedisValue::MapOf(_) => true,
            _ => false,
        }
    }
}

pub(crate) fn clone_items(items: &Vec<RedisValue>) -> (copy: Vec<RedisValue>)
    ensures
        views(copy@) == views(items@),
    decreases items,
{
    let mut copy: Vec<RedisValue> = Vec::new();
    let mut i: usize = 0;
    while i < items.len()
        invariant
            i <= items.len(),
            views(copy@) == views(items@.take(i as int)),
        decreases items.len() - i,
    {
        let item = items[i].clone();
        proof {
            lemma_views_push(copy@, item);
            lemma_views_push(items@.take(i as int), items@[i as int]);
            assert(items@.take(i as int).push(items@[i as int]) =~= items@.take(i + 1));
        }
        copy.push(item);
        i += 1;
    }
    proof {
        assert(items@.take(i as int) =~= items@);
    }
    copy
}

pub(crate) fn clone_pairs(pairs: &Vec<(RedisValue, RedisValue)>) -> (copy: Vec<(RedisValue, RedisValue)>)
    ensures
        pair_views(copy@) == pair_views(pairs@),
    decreases pairs,
{
    let mut copy: Vec<(RedisValue, RedisValue)> = Vec::new();
    let mut i: usize = 0;
    while i < pairs.len()
        invariant
            i <= pairs.len(),
            pair_views(copy@) == pair_views(pairs@.take(i as int)),
        decreases pairs.len() - i,
    {
        let key = pairs[i].0.clone();
        let value = pairs[i].1.clone();
        proof {
            lemma_pair_views_push(copy@, (key, value));
            lemma_pair_views_push(pairs@.take(i as int), pairs@[i as int]);
            assert(pairs@.take(i as int).push(pairs@[i as int]) =~= pairs@.take(i + 1));
        }
        copy.push((key, value));
        i += 1;
    }
    proof {
        assert(pairs@.take(i as int) =~= pairs@);
    }
    copy
}

impl Clone for RedisValue {
    /// A deep copy: the copy holds what `self` holds, and shares nothing with it.
    fn clone(&self) -> (copy: Self)
        ensures
            copy@ == self@,
        decreases self,
    {
        match self {
            RedisValue::Integer(n) => RedisValue::Integer(*n),
            RedisValue::Text(text) => RedisValue::Text(text.clone()),
            RedisValue::List(items) => RedisValue::List(clone_items(items)),
            RedisValue::SetOf(items) => RedisValue::SetOf(clone_items(items)),
            RedisValue::MapOf(pairs) => RedisValue::MapOf(clone_pairs(pairs)),
        }
    }
}

} // verus!

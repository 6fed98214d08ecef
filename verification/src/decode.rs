//! From a reply to a value.
//!
//! A reply is tried as each kind of value in a fixed order, and the first
//! kind that it can be read as decides: the integers from the narrowest to
//! the widest, the truth values, strings, lists, sets, maps.

use crate::reply::{lemma_shapes, shapes, Reply, Shape};
use crate::value::{lemma_pair_views, lemma_views, pair_views, views, RedisValue, Tagged};
use crate::wire::{
    flag, number, read_bool, read_i128, read_i16, read_i32, read_i64, read_i8, read_isize,
    read_text, read_u128, read_u16, read_u32, read_u64, read_u8, read_usize, text,
};
use vstd::prelude::*;

verus! {

/// Why a reply is no value.
#[derive(Clone, Copy, Debug, PartialEq, Eq, Structural)]
pub enum DecodeError {
    /// The reply can be read as no kind of value.
    UnsupportedShape,
}

/// The first of two readings that finds something.
pub open spec fn or_else(first: Option<int>, second: Option<int>) -> Option<int> {
    if first is Some {
        first
    } else {
        second
    }
}

/// The number that a reply is read as: that of the first integer type, in the
/// order `u8`, `i8`, `u16`, `i16`, `u32`, `i32`, `u64`, `i64`, `u128`, `i128`,
/// `usize`, `isize`, that the client reads it as.
pub open spec fn first_number(shape: Shape) -> Option<int> {
    or_else(
        number(shape, false, u8::MIN as int, u8::MAX as int),
        or_else(
            number(shape, true, i8::MIN as int, i8::MAX as int),
            or_else(
                number(shape, false, u16::MIN as int, u16::MAX as int),
                or_else(
                    number(shape, true, i16::MIN as int, i16::MAX as int),
                    or_else(
                        number(shape, false, u32::MIN as int, u32::MAX as int),
                        or_else(
                            number(shape, true, i32::MIN as int, i32::MAX as int),
                            or_else(
                                number(shape, false, u64::MIN as int, u64::MAX as int),
                                or_else(
                                    number(shape, true, i64::MIN as int, i64::MAX as int),
                                    or_else(
                                        number(shape, false, u128::MIN as int, u128::MAX as int),
                                        or_else(
                                            number(
                                                shape,
                                                true,
                                                i128::MIN as int,
                                                i128::MAX as int,
                                            ),
                                            or_else(
                                                number(
                                                    shape,
                                                    false,
                                                    usize::MIN as int,
                                                    usize::MAX as int,
                                                ),
                                                number(
                                                    shape,
                                                    true,
                                                    isize::MIN as int,
                                                    isize::MAX as int,
                                                ),
                                            ),
                                        ),
                                    ),
                                ),
                            ),
                        ),
                    ),
                ),
            ),
        ),
    )
}

/// The integer that a reply is read as. An integer reply is the integer it
/// holds. Any other reply is its first number, cut down to 64 bits where it
/// is wider, or else 1 and 0 for the truth values.
pub open spec fn as_integer(shape: Shape) -> Option<i64> {
    match shape {
        Shape::Int(held) => Some(held),
        _ => match first_number(shape) {
            Some(found) => Some(found as i64),
            None => match flag(shape) {
                Some(true) => Some(1i64),
                Some(false) => Some(0i64),
                None => None,
            },
        },
    }
}

/// The value that a reply is read as, or why it is none.
pub open spec fn decoded(shape: Shape) -> Result<Tagged, DecodeError>
    decreases shape, 1nat,
{
    if let Some(found) = as_integer(shape) {
        Ok(Tagged::Integer(found))
    } else if let Some(found) = text(shape) {
        Ok(Tagged::Text(found))
    } else if let Some(items) = as_list(shape) {
        Ok(Tagged::List(items))
    } else if let Some(items) = as_set(shape) {
        Ok(Tagged::SetOf(items))
    } else if let Some(pairs) = as_map(shape) {
        Ok(Tagged::MapOf(pairs))
    } else {
        Err(DecodeError::UnsupportedShape)
    }
}

/// The list that a reply is read as: each item of a sequence as a value.
pub open spec fn as_list(shape: Shape) -> Option<Seq<Tagged>>
    decreases shape, 0nat,
{
    match shape {
        Shape::Bulk(items) => all_decoded(items),
        Shape::Nil => Some(Seq::empty()),
        _ => None,
    }
}

/// The set that a reply is read as: each item of a sequence as a member.
pub open spec fn as_set(shape: Shape) -> Option<Seq<Tagged>>
    decreases shape, 0nat,
{
    match shape {
        Shape::Bulk(items) => all_decoded(items),
        Shape::Nil => Some(Seq::empty()),
        _ => None,
    }
}

/// The map that a reply is read as: the items of a sequence two by two as
/// key and value. A sequence with an item that has no partner is no map.
pub open spec fn as_map(shape: Shape) -> Option<Seq<(Tagged, Tagged)>>
    decreases shape, 0nat,
{
    match shape {
        Shape::Bulk(items) => if items.len() % 2 == 0 {
            pairs_decoded(items, items.len() / 2)
        } else {
            None
        },
        Shape::Nil => Some(Seq::empty()),
        _ => None,
    }
}

/// Every reply of a run as a value, if each is one.
pub open spec fn all_decoded(items: Seq<Shape>) -> Option<Seq<Tagged>>
    decreases items, 0nat,
{
    if items.len() == 0 {
        Some(Seq::empty())
    } else {
        match (all_decoded(items.drop_last()), decoded(items.last())) {
            (Some(values), Ok(value)) => Some(values.push(value)),
            _ => None,
        }
    }
}

/// The first `count` pairs of a run of replies as keys and values, if each
/// reply among them is a value.
pub open spec fn pairs_decoded(items: Seq<Shape>, count: nat) -> Option<Seq<(Tagged, Tagged)>>
    decreases items, count,
{
    if count == 0 {
        Some(Seq::empty())
    } else if 2 * count > items.len() {
        None
    } else {
        match (
            pairs_decoded(items, (count - 1) as nat),
            decoded(items[2 * count - 2]),
            decoded(items[2 * count - 1]),
        ) {
            (Some(pairs), Ok(key), Ok(value)) => Some(pairs.push((key, value))),
            _ => None,
        }
    }
}

/// A run of replies is a run of values where each reply is a value, and then
/// holds the value of each in its place.
pub proof fn lemma_all_decoded(items: Seq<Shape>)
    ensures
        all_decoded(items) is Some <==> forall|i: int|
            0 <= i < items.len() ==> (#[trigger] decoded(items[i])) is Ok,
        all_decoded(items) matches Some(values) ==> {
            &&& values.len() == items.len()
            &&& forall|i: int| 0 <= i < items.len() ==> decoded(items[i]) == Ok::<
                Tagged,
                DecodeError,
            >(#[trigger] values[i])
        },
    decreases items.len(),
{
    if items.len() > 0 {
        let front = items.drop_last();
        lemma_all_decoded(front);
        assert forall|i: int| 0 <= i < front.len() implies front[i] == items[i] by {}
        if forall|i: int| 0 <= i < items.len() ==> (#[trigger] decoded(items[i])) is Ok {
            assert(decoded(items[items.len() - 1]) is Ok);
        }
    }
}

/// The first `count` pairs of a run of replies are keys and values where each
/// reply among them is a value, and then hold the values of each in their place.
pub proof fn lemma_pairs_decoded(items: Seq<Shape>, count: nat)
    requires
        2 * count <= items.len(),
    ensures
        pairs_decoded(items, count) is Some <==> forall|i: int|
            0 <= i < 2 * count ==> (#[trigger] decoded(items[i])) is Ok,
        pairs_decoded(items, count) matches Some(pairs) ==> {
            &&& pairs.len() == count
            &&& forall|k: int|
                0 <= k < count ==> {
                    &&& decoded(items[2 * k]) == Ok::<Tagged, DecodeError>((#[trigger] pairs[k]).0)
                    &&& decoded(items[2 * k + 1]) == Ok::<Tagged, DecodeError>(pairs[k].1)
                }
        },
    decreases count,
{
    if count > 0 {
        let fewer = (count - 1) as nat;
        lemma_pairs_decoded(items, fewer);
        if pairs_decoded(items, count) is Some {
            assert forall|i: int| 0 <= i < 2 * count implies (#[trigger] decoded(items[i])) is Ok by {
            }
        }
        if forall|i: int| 0 <= i < 2 * count ==> (#[trigger] decoded(items[i])) is Ok {
            assert(decoded(items[2 * count - 2]) is Ok);
            assert(decoded(items[2 * count - 1]) is Ok);
        }
    }
}

/// A sequence is a value exactly where each of its items is one, and then it is
/// the list of the values of its items: no item is passed over, and nothing
/// stands in for an item that is no value.
pub proof fn lemma_sequence_is_list(items: Seq<Shape>)
    ensures
        decoded(Shape::Bulk(items)) is Ok <==> forall|i: int|
            0 <= i < items.len() ==> (#[trigger] decoded(items[i])) is Ok,
        decoded(Shape::Bulk(items)) matches Ok(value) ==> {
            &&& value matches Tagged::List(values)
            &&& values.len() == items.len()
            &&& forall|i: int| 0 <= i < items.len() ==> decoded(items[i]) == Ok::<
                Tagged,
                DecodeError,
            >(#[trigger] values[i])
        },
{
    lemma_all_decoded(items);
    if items.len() % 2 == 0 {
        lemma_pairs_decoded(items, items.len() / 2);
    }
}

/// No reply is read as a set or as a map: whatever could be one is a list
/// before.
pub proof fn lemma_collections_are_lists(shape: Shape)
    ensures
        decoded(shape) matches Ok(value) ==> value is Integer || value is Text || value is List,
{
    match shape {
        Shape::Bulk(items) => {
            lemma_sequence_is_list(items);
        },
        _ => {},
    }
}

/// Whether `outcome` is what reading a reply of this shape gives: the value
/// where it is one, and the reason where it is none.
pub open spec fn decodes_to(shape: Shape, outcome: Result<RedisValue, DecodeError>) -> bool {
    match outcome {
        Ok(value) => decoded(shape) == Ok::<Tagged, DecodeError>(value@),
        Err(error) => decoded(shape) == Err::<Tagged, DecodeError>(error),
    }
}

impl RedisValue {
    /// The integer that a reply is read as, if any. An integer reply is the
    /// integer it holds. Any other reply is tried as each integer type from the
    /// narrowest to the widest, the unsigned before the signed, then as a truth
    /// value.
    pub fn integer_of(reply: &Reply) -> (found: Option<i64>)
        ensures
            found == as_integer(reply@),
    {
        if let Reply::Int(held) = reply {
            return Some(*held);
        }
        if let Some(x) = read_u8(reply) {
            return Some(x as i64);
        }
        if let Some(x) = read_i8(reply) {
            return Some(x as i64);
        }
        if let Some(x) = read_u16(reply) {
            return Some(x as i64);
        }
        if let Some(x) = read_i16(reply) {
            return Some(x as i64);
        }
        if let Some(x) = read_u32(reply) {
            return Some(x as i64);
        }
        if let Some(x) = read_i32(reply) {
            return Some(x as i64);
        }
        if let Some(x) = read_u64(reply) {
            return Some(x as i64);
        }
        if let Some(x) = read_i64(reply) {
            return Some(x);
        }
        if let Some(x) = read_u128(reply) {
            return Some(x as i64);
        }
        if let Some(x) = read_i128(reply) {
            return Some(x as i64);
        }
        if let Some(x) = read_usize(reply) {
            return Some(x as i64);
        }
        if let Some(x) = read_isize(reply) {
            return Some(x as i64);
        }
        match read_bool(reply) {
            Some(true) => Some(1),
            Some(false) => Some(0),
            None => None,
        }
    }

    /// Every reply of a run as a value, if each is one.
    fn decode_all(items: &Vec<Reply>) -> (found: Option<Vec<RedisValue>>)
        ensures
            match found {
                Some(values) => all_decoded(shapes(items@)) == Some(views(values@)),
                None => all_decoded(shapes(items@)) is None,
            },
        decreases items, 0nat,
    {
        let mut values: Vec<RedisValue> = Vec::new();
        let mut i: usize = 0;
        proof {
            lemma_shapes(items@);
        }
        while i < items.len()
            invariant
                i <= items.len(),
                values@.len() == i,
                shapes(items@).len() == items@.len(),
                forall|k: int| 0 <= k < items@.len() ==> #[trigger] shapes(items@)[k] == items@[k]@,
                forall|k: int|
                    0 <= k < i ==> decoded(shapes(items@)[k]) == Ok::<Tagged, DecodeError>(
                        (#[trigger] values@[k])@,
                    ),
            decreases items.len() - i,
        {
            match Self::from_redis_value(&items[i]) {
                Ok(value) => {
                    values.push(value);
                },
                Err(_) => {
                    proof {
                        lemma_all_decoded(shapes(items@));
                        assert(decoded(shapes(items@)[i as int]) is Err);
                    }
                    return None;
                },
            }
            i += 1;
        }
        proof {
            lemma_all_decoded(shapes(items@));
            lemma_views(values@);
            assert forall|k: int| 0 <= k < items@.len() implies (#[trigger] decoded(
                shapes(items@)[k],
            )) is Ok by {
                assert(decoded(shapes(items@)[k]) == Ok::<Tagged, DecodeError>(values@[k]@));
            }
        }
        Some(values)
    }

    /// The replies of a run two by two as keys and values, if each is a value
    /// and each has its partner.
    fn decode_pairs(items: &Vec<Reply>) -> (found: Option<Vec<(RedisValue, RedisValue)>>)
        ensures
            match found {
                Some(pairs) => items@.len() % 2 == 0 && pairs_decoded(
                    shapes(items@),
                    items@.len() / 2,
                ) == Some(pair_views(pairs@)),
                None => items@.len() % 2 != 0 || pairs_decoded(shapes(items@), items@.len() / 2)
                    is None,
            },
        decreases items, 0nat,
    {
        if items.len() % 2 != 0 {
            return None;
        }
        let mut pairs: Vec<(RedisValue, RedisValue)> = Vec::new();
        let count = items.len() / 2;
        let mut k: usize = 0;
        proof {
            lemma_shapes(items@);
        }
        while k < count
            invariant
                k <= count,
                count == items@.len() / 2,
                pairs@.len() == k,
                shapes(items@).len() == items@.len(),
                forall|i: int| 0 <= i < items@.len() ==> #[trigger] shapes(items@)[i] == items@[i]@,
                forall|j: int|
                    0 <= j < k ==> {
                        &&& decoded(shapes(items@)[2 * j]) == Ok::<Tagged, DecodeError>(
                            (#[trigger] pairs@[j]).0@,
                        )
                        &&& decoded(shapes(items@)[2 * j + 1]) == Ok::<Tagged, DecodeError>(
                            pairs@[j].1@,
                        )
                    },
            decreases count - k,
        {
            assert(2 * k + 1 < items.len());
            let key = match Self::from_redis_value(&items[2 * k]) {
                Ok(key) => key,
                Err(_) => {
                    proof {
                        lemma_pairs_decoded(shapes(items@), count as nat);
                        assert(decoded(shapes(items@)[2 * k]) is Err);
                    }
                    return None;
                },
            };
            let value = match Self::from_redis_value(&items[2 * k + 1]) {
                Ok(value) => value,
                Err(_) => {
                    proof {
                        lemma_pairs_decoded(shapes(items@), count as nat);
                        assert(decoded(shapes(items@)[2 * k + 1]) is Err);
                    }
                    return None;
                },
            };
            pairs.push((key, value));
            k += 1;
        }
        proof {
            lemma_pairs_decoded(shapes(items@), count as nat);
            lemma_pair_views(pairs@);
            assert forall|i: int| 0 <= i < 2 * count implies (#[trigger] decoded(
                shapes(items@)[i],
            )) is Ok by {
                let j = i / 2;
                assert(decoded(shapes(items@)[2 * j]) == Ok::<Tagged, DecodeError>(pairs@[j].0@));
            }
        }
        Some(pairs)
    }

    /// The list that a reply is read as, if any.
    fn list_of(reply: &Reply) -> (found: Option<Vec<RedisValue>>)
        ensures
            match found {
                Some(values) => as_list(reply@) == Some(views(values@)),
                None => as_list(reply@) is None,
            },
        decreases reply, 0nat,
    {
        match reply {
            Reply::Bulk(items) => Self::decode_all(items),
            Reply::Nil => {
                let values: Vec<RedisValue> = Vec::new();
                Some(values)
            },
            _ => None,
        }
    }

    /// The set that a reply is read as, if any.
    fn set_of(reply: &Reply) -> (found: Option<Vec<RedisValue>>)
        ensures
            match found {
                Some(values) => as_set(reply@) == Some(views(values@)),
                None => as_set(reply@) is None,
            },
        decreases reply, 0nat,
    {
        match reply {
            Reply::Bulk(items) => Self::decode_all(items),
            Reply::Nil => {
                let values: Vec<RedisValue> = Vec::new();
                Some(values)
            },
            _ => None,
        }
    }

    /// The map that a reply is read as, if any.
    fn map_of(reply: &Reply) -> (found: Option<Vec<(RedisValue, RedisValue)>>)
        ensures
            match found {
                Some(pairs) => as_map(reply@) == Some(pair_views(pairs@)),
                None => as_map(reply@) is None,
            },
        decreases reply, 0nat,
    {
        match reply {
            Reply::Bulk(items) => {
                proof {
                    lemma_shapes(items@);
                }
                Self::decode_pairs(items)
            },
            Reply::Nil => {
                let pairs: Vec<(RedisValue, RedisValue)> = Vec::new();
                Some(pairs)
            },
            _ => None,
        }
    }

    /// Reads a reply as a value.
    ///
    /// The reply is tried as an integer, as a string, as a list, as a set and as
    /// a map, in this order, and the first that it can be read as is returned.
    /// A reply that can be read as none of them is refused.
    pub fn from_redis_value(input_value: &Reply) -> (outcome: Result<RedisValue, DecodeError>)
        ensures
            decodes_to(input_value@, outcome),
        decreases input_value, 1nat,
    {
        if let Some(found) = Self::integer_of(input_value) {
            return Ok(RedisValue::Integer(found));
        }
        if let Some(found) = read_text(input_value) {
            return Ok(RedisValue::Text(found));
        }
        if let Some(found) = Self::list_of(input_value) {
            return Ok(RedisValue::List(found));
        }
        if let Some(found) = Self::set_of(input_value) {
            return Ok(RedisValue::SetOf(found));
        }
        if let Some(found) = Self::map_of(input_value) {
            return Ok(RedisValue::MapOf(found));
        }
        Err(DecodeError::UnsupportedShape)
    }
}

} // verus!

//! When two values are the same value, and which of two comes first.

use crate::encode::{arguments, encode, rank};
use crate::value::{lemma_sizes, lemma_views, size, views, RedisValue, Tagged};
use std::cmp::Ordering;
use vstd::prelude::*;
use vstd::std_specs::cmp::{PartialEqSpecImpl, PartialOrdSpecImpl};

verus! {

/// Whether two values are equal: they are of one kind, and two integers are
/// the same number, two strings the same text, two lists equal item by item,
/// two sets or two maps sent as the same arguments.
pub open spec fn equal(a: Tagged, b: Tagged) -> bool
    decreases a,
{
    match (a, b) {
        (Tagged::Integer(x), Tagged::Integer(y)) => x == y,
        (Tagged::Text(x), Tagged::Text(y)) => x == y,
        (Tagged::List(xs), Tagged::List(ys)) => all_equal(xs, ys),
        (Tagged::SetOf(_), Tagged::SetOf(_)) => encode(a) == encode(b),
        (Tagged::MapOf(_), Tagged::MapOf(_)) => encode(a) == encode(b),
        _ => false,
    }
}

/// Whether two runs of values are of one length and equal item by item.
pub open spec fn all_equal(xs: Seq<Tagged>, ys: Seq<Tagged>) -> bool
    decreases xs,
{
    xs.len() == ys.len() && (xs.len() == 0 || (all_equal(xs.drop_last(), ys.drop_last()) && equal(
        xs.last(),
        ys.last(),
    )))
}

/// How two ranks compare.
pub open spec fn by_rank(a: u64, b: u64) -> Ordering {
    if a < b {
        Ordering::Less
    } else if a > b {
        Ordering::Greater
    } else {
        Ordering::Equal
    }
}

/// Two runs of one length are equal where all their items are.
pub proof fn lemma_all_equal(xs: Seq<Tagged>, ys: Seq<Tagged>)
    requires
        xs.len() == ys.len(),
    ensures
        all_equal(xs, ys) <==> forall|i: int| 0 <= i < xs.len() ==> equal(#[trigger] xs[i], ys[i]),
    decreases xs.len(),
{
    if xs.len() > 0 {
        lemma_all_equal(xs.drop_last(), ys.drop_last());
        if all_equal(xs, ys) {
            assert forall|i: int| 0 <= i < xs.len() implies equal(#[trigger] xs[i], ys[i]) by {
                if i < xs.len() - 1 {
                    assert(xs.drop_last()[i] == xs[i]);
                }
            }
        }
    }
}

fn same_bytes(a: &Vec<u8>, b: &Vec<u8>) -> (same: bool)
    ensures
        same == (a@ == b@),
{
    if a.len() != b.len() {
        return false;
    }
    let mut i: usize = 0;
    while i < a.len()
        invariant
            i <= a.len(),
            a.len() == b.len(),
            a@.take(i as int) == b@.take(i as int),
        decreases a.len() - i,
    {
        if a[i] != b[i] {
            return false;
        }
        i += 1;
    }
    proof {
        assert(a@.take(i as int) =~= a@);
        assert(b@.take(i as int) =~= b@);
    }
    true
}

fn same_arguments(a: &Vec<Vec<u8>>, b: &Vec<Vec<u8>>) -> (same: bool)
    ensures
        same == (arguments(a@) == arguments(b@)),
{
    if a.len() != b.len() {
        return false;
    }
    let mut i: usize = 0;
    while i < a.len()
        invariant
            i <= a.len(),
            a.len() == b.len(),
            arguments(a@).take(i as int) == arguments(b@).take(i as int),
        decreases a.len() - i,
    {
        if !same_bytes(&a[i], &b[i]) {
            proof {
                assert(arguments(a@)[i as int] != arguments(b@)[i as int]);
            }
            return false;
        }
        i += 1;
    }
    proof {
        assert(arguments(a@).take(i as int) =~= arguments(a@));
        assert(arguments(b@).take(i as int) =~= arguments(b@));
    }
    true
}

impl PartialEq for RedisValue {
    /// Whether two values are equal, as [`equal`] says.
    fn eq(&self, other: &Self) -> (same: bool)
        decreases size(self@),
    {
        match (self, other) {
            (RedisValue::Integer(x), RedisValue::Integer(y)) => *x == *y,
            (RedisValue::Text(x), RedisValue::Text(y)) => *x == *y,
            (RedisValue::List(xs), RedisValue::List(ys)) => {
                proof {
                    lemma_views(xs@);
                    lemma_views(ys@);
                }
                if xs.len() != ys.len() {
                    return false;
                }
                let mut i: usize = 0;
                while i < xs.len()
                    invariant
                        i <= xs.len(),
                        xs.len() == ys.len(),
                        self@ == Tagged::List(views(xs@)),
                        other@ == Tagged::List(views(ys@)),
                        views(xs@).len() == xs.len(),
                        views(ys@).len() == ys.len(),
                        forall|k: int| 0 <= k < xs.len() ==> #[trigger] views(xs@)[k] == xs@[k]@,
                        forall|k: int| 0 <= k < ys.len() ==> #[trigger] views(ys@)[k] == ys@[k]@,
                        forall|k: int| 0 <= k < i ==> equal(#[trigger] views(xs@)[k], views(ys@)[k]),
                    decreases xs.len() - i,
                {
                    proof {
                        lemma_sizes(views(xs@), i as int);
                    }
                    if !xs[i].eq(&ys[i]) {
                        proof {
                            lemma_all_equal(views(xs@), views(ys@));
                        }
                        return false;
                    }
                    i += 1;
                }
                proof {
                    lemma_all_equal(views(xs@), views(ys@));
                }
                true
            },
            (RedisValue::SetOf(_), RedisValue::SetOf(_)) => same_arguments(
                &self.to_redis_args(),
                &other.to_redis_args(),
            ),
            (RedisValue::MapOf(_), RedisValue::MapOf(_)) => same_arguments(
                &self.to_redis_args(),
                &other.to_redis_args(),
            ),
            _ => false,
        }
    }
}

impl PartialEqSpecImpl for RedisValue {
    open spec fn obeys_eq_spec() -> bool {
        true
    }

    open spec fn eq_spec(&self, other: &Self) -> bool {
        equal(self@, other@)
    }
}

impl Eq for RedisValue {

}

impl PartialOrd for RedisValue {
    /// Which of two values comes first: the one of the lower rank. Values of
    /// one rank count as equal in this order.
    fn partial_cmp(&self, other: &Self) -> (found: Option<Ordering>) {
        let self_hash = self.digest();
        let other_hash = other.digest();
        if self_hash < other_hash {
            Some(Ordering::Less)
        } else if self_hash > other_hash {
            Some(Ordering::Greater)
        } else {
            Some(Ordering::Equal)
        }
    }
}

impl PartialOrdSpecImpl for RedisValue {
    open spec fn obeys_partial_cmp_spec() -> bool {
        true
    }

    open spec fn partial_cmp_spec(&self, other: &Self) -> Option<Ordering> {
        Some(by_rank(rank(self@), rank(other@)))
    }
}

impl RedisValue {
    /// Which of two values comes first: the one of the lower rank.
    pub fn cmp(&self, other: &Self) -> (found: Ordering)
        ensures
            found == by_rank(rank(self@), rank(other@)),
    {
        match self.partial_cmp(other) {
            Some(found) => found,
            None => Ordering::Equal,
        }
    }
}

} // verus!

use redis_value::order::order_of;
use redis_value::value::RedisValue;
use std::cmp::Ordering;
use std::collections::hash_map::DefaultHasher;
use std::hash::Hasher;

fn text(value: &str) -> RedisValue {
    RedisValue::Text(value.to_owned())
}

fn args(list: &[&str]) -> Vec<Vec<u8>> {
    list.iter().map(|arg| arg.as_bytes().to_vec()).collect()
}

fn sample() -> Vec<RedisValue> {
    vec![
        RedisValue::Integer(7),
        text("seven"),
        RedisValue::List(vec![RedisValue::Integer(1), text("b")]),
        RedisValue::SetOf(vec![text("x"), text("y")]),
        RedisValue::MapOf(vec![(text("k"), RedisValue::Integer(3))]),
    ]
}

#[test]
fn every_value_is_of_exactly_one_kind() {
    for value in sample() {
        let kinds = [
            value.is_integer(),
            value.is_text(),
            value.is_list(),
            value.is_set(),
            value.is_map(),
        ];
        assert_eq!(kinds.iter().filter(|holds| **holds).count(), 1);
    }
    let all = sample();
    assert!(all[0].is_integer());
    assert!(all[1].is_text());
    assert!(all[2].is_list());
    assert!(all[3].is_set());
    assert!(all[4].is_map());
}

#[test]
fn scalars_are_sent_as_one_argument() {
    assert_eq!(RedisValue::Integer(0).to_redis_args(), args(&["0"]));
    assert_eq!(RedisValue::Integer(-7).to_redis_args(), args(&["-7"]));
    assert_eq!(RedisValue::Integer(1234567890).to_redis_args(), args(&["1234567890"]));
    assert_eq!(RedisValue::Integer(i64::MAX).to_redis_args(), args(&["9223372036854775807"]));
    assert_eq!(RedisValue::Integer(i64::MIN).to_redis_args(), args(&["-9223372036854775808"]));
    assert_eq!(text("hello").to_redis_args(), args(&["hello"]));
    assert_eq!(text("").to_redis_args(), args(&[""]));
    assert_eq!(text("h\u{e9}").to_redis_args(), vec![vec![0x68, 0xc3, 0xa9]]);
}

#[test]
fn lists_are_sent_item_by_item() {
    let list = RedisValue::List(vec![
        text("a"),
        RedisValue::List(vec![RedisValue::Integer(1), RedisValue::Integer(2)]),
        text("b"),
    ]);
    assert_eq!(list.to_redis_args(), args(&["a", "1", "2", "b"]));
    assert_eq!(RedisValue::List(vec![]).to_redis_args(), args(&[]));
}

#[test]
fn write_redis_args_appends() {
    let mut out = args(&["SET"]);
    text("key").write_redis_args(&mut out);
    RedisValue::Integer(5).write_redis_args(&mut out);
    assert_eq!(out, args(&["SET", "key", "5"]));
}

#[test]
fn sets_do_not_depend_on_the_order_given() {
    let one = RedisValue::SetOf(vec![text("a"), text("b"), text("c"), RedisValue::Integer(4)]);
    let two = RedisValue::SetOf(vec![RedisValue::Integer(4), text("c"), text("a"), text("b")]);
    let three = RedisValue::SetOf(vec![text("b"), text("a"), RedisValue::Integer(4), text("c")]);
    assert_eq!(one.to_redis_args(), two.to_redis_args());
    assert_eq!(one.to_redis_args(), three.to_redis_args());
    assert_eq!(one, two);
    assert_eq!(two, three);
    assert_eq!(one.digest(), two.digest());
    assert_eq!(one.digest(), three.digest());
    let mut sent = one.to_redis_args();
    sent.sort();
    assert_eq!(sent, args(&["4", "a", "b", "c"]));
}

#[test]
fn a_member_given_twice_is_sent_once() {
    let twice = RedisValue::SetOf(vec![text("a"), text("b"), text("a")]);
    let once = RedisValue::SetOf(vec![text("b"), text("a")]);
    assert_eq!(twice.to_redis_args().len(), 2);
    assert_eq!(twice, once);
}

#[test]
fn nested_sets_are_put_in_order_too() {
    let one = RedisValue::SetOf(vec![
        RedisValue::SetOf(vec![text("p"), text("q")]),
        RedisValue::MapOf(vec![(text("k1"), text("v1")), (text("k2"), text("v2"))]),
    ]);
    let two = RedisValue::SetOf(vec![
        RedisValue::MapOf(vec![(text("k2"), text("v2")), (text("k1"), text("v1"))]),
        RedisValue::SetOf(vec![text("q"), text("p")]),
    ]);
    assert_eq!(one, two);
    assert_eq!(one.to_redis_args(), two.to_redis_args());
    assert_eq!(one.digest(), two.digest());
    assert_eq!(one.to_redis_args().len(), 6);
}

#[test]
fn hash_to_tree_orders_by_rank_of_the_key() {
    let pairs = vec![
        (text("k1"), text("v1")),
        (text("k2"), text("v2")),
        (text("k3"), text("v3")),
    ];
    let tree = RedisValue::hash_to_tree(pairs);
    assert_eq!(tree.len(), 3);
    for i in 1..tree.len() {
        assert!(tree[i - 1].0.digest() < tree[i].0.digest());
    }
    for (key, value) in &tree {
        let expected = match key {
            RedisValue::Text(name) => name.replace("k", "v"),
            _ => panic!("keys are strings"),
        };
        assert_eq!(*value, RedisValue::Text(expected));
    }
}

#[test]
fn hash_to_tree_keeps_the_first_key_and_the_last_value() {
    let pairs = vec![
        (RedisValue::Integer(1), text("first")),
        (text("other"), text("x")),
        (text("1"), text("last")),
    ];
    let tree = RedisValue::hash_to_tree(pairs);
    assert_eq!(tree.len(), 2);
    let entry = tree.iter().find(|pair| pair.0.to_redis_args() == args(&["1"])).unwrap();
    assert!(entry.0.is_integer());
    assert_eq!(entry.1, text("last"));
}

#[test]
fn putting_in_order_twice_changes_nothing() {
    let pairs = vec![
        (text("b"), RedisValue::Integer(2)),
        (text("a"), RedisValue::Integer(1)),
        (text("c"), RedisValue::Integer(3)),
        (text("a"), RedisValue::Integer(4)),
    ];
    let once = RedisValue::hash_to_tree(pairs);
    let twice = RedisValue::hash_to_tree(once.clone());
    assert_eq!(once.len(), 3);
    assert_eq!(once, twice);
    let given = RedisValue::MapOf(once.clone());
    let settled = RedisValue::MapOf(twice);
    assert_eq!(given.to_redis_args(), settled.to_redis_args());
}

#[test]
fn order_of_lists_each_rank_once_from_the_smallest() {
    assert_eq!(order_of(&vec![]), vec![]);
    assert_eq!(order_of(&vec![9]), vec![(0, 0)]);
    assert_eq!(order_of(&vec![5, 3, 5, 1]), vec![(3, 3), (1, 1), (0, 2)]);
    assert_eq!(order_of(&vec![1, 2, 3]), vec![(0, 0), (1, 1), (2, 2)]);
    assert_eq!(order_of(&vec![3, 2, 1]), vec![(2, 2), (1, 1), (0, 0)]);
    assert_eq!(order_of(&vec![7, 7, 7]), vec![(0, 2)]);
    assert_eq!(order_of(&vec![0, u64::MAX, 0, u64::MAX, 4]), vec![(0, 2), (4, 4), (1, 3)]);
}

#[test]
fn equality_goes_by_kind_then_by_content() {
    assert_eq!(RedisValue::Integer(42), RedisValue::Integer(42));
    assert_ne!(RedisValue::Integer(42), RedisValue::Integer(43));
    assert_ne!(RedisValue::Integer(42), text("42"));
    assert_eq!(text("a"), text("a"));
    assert_ne!(text("a"), text("b"));
    assert_eq!(
        RedisValue::List(vec![text("a"), RedisValue::Integer(1)]),
        RedisValue::List(vec![text("a"), RedisValue::Integer(1)])
    );
    assert_ne!(
        RedisValue::List(vec![text("a"), RedisValue::Integer(1)]),
        RedisValue::List(vec![RedisValue::Integer(1), text("a")])
    );
    assert_ne!(RedisValue::List(vec![text("a")]), RedisValue::List(vec![text("a"), text("a")]));
    assert_ne!(RedisValue::List(vec![text("1")]), RedisValue::List(vec![RedisValue::Integer(1)]));
    assert_ne!(RedisValue::List(vec![text("a")]), RedisValue::SetOf(vec![text("a")]));
    assert_ne!(RedisValue::SetOf(vec![]), RedisValue::MapOf(vec![]));
    assert_ne!(RedisValue::SetOf(vec![text("a")]), RedisValue::SetOf(vec![text("b")]));
    assert_ne!(
        RedisValue::MapOf(vec![(text("k"), text("v"))]),
        RedisValue::MapOf(vec![(text("k"), text("w"))])
    );
}

#[test]
fn digest_is_the_hash_of_the_framed_arguments() {
    let value = RedisValue::List(vec![text("ab"), RedisValue::Integer(7)]);
    let mut expected = DefaultHasher::new();
    expected.write(&2u64.to_le_bytes());
    expected.write(&2u64.to_le_bytes());
    expected.write(b"ab");
    expected.write(&1u64.to_le_bytes());
    expected.write(b"7");
    assert_eq!(value.digest(), expected.finish());
}

#[test]
fn hash_feeds_a_hasher_that_is_in_use() {
    let value = text("x");
    let mut expected = DefaultHasher::new();
    expected.write(b"before");
    expected.write(&1u64.to_le_bytes());
    expected.write(&1u64.to_le_bytes());
    expected.write(b"x");
    let mut state = DefaultHasher::new();
    state.write(b"before");
    value.hash(&mut state);
    assert_eq!(state.finish(), expected.finish());
}

#[test]
fn arguments_split_differently_hash_differently() {
    let one = RedisValue::List(vec![text("ab"), text("c")]);
    let two = RedisValue::List(vec![text("a"), text("bc")]);
    assert_ne!(one.digest(), two.digest());
    assert_ne!(RedisValue::Integer(1).digest(), RedisValue::Integer(2).digest());
}

#[test]
fn values_sent_alike_have_one_rank() {
    assert_eq!(RedisValue::Integer(42).digest(), text("42").digest());
    assert_eq!(RedisValue::Integer(42).cmp(&text("42")), Ordering::Equal);
}

#[test]
fn order_goes_by_digest() {
    let values = sample();
    for a in &values {
        for b in &values {
            let expected = a.digest().cmp(&b.digest());
            assert_eq!(a.cmp(b), expected);
            assert_eq!(a.partial_cmp(b), Some(expected));
        }
        assert_eq!(a.cmp(a), Ordering::Equal);
    }
}

#[test]
fn operators_go_by_digest_too() {
    let values = sample();
    for a in &values {
        for b in &values {
            assert_eq!(a < b, a.digest() < b.digest());
            assert_eq!(a <= b, a.digest() <= b.digest());
            assert_eq!(a > b, a.digest() > b.digest());
            assert_eq!(a >= b, a.digest() >= b.digest());
        }
    }
}

#[test]
fn clone_is_deep_and_equal() {
    for value in sample() {
        let copy = value.clone();
        assert_eq!(copy, value);
        assert_eq!(copy.to_redis_args(), value.to_redis_args());
        assert_eq!(copy.digest(), value.digest());
    }
    let source = RedisValue::List(vec![RedisValue::List(vec![text("deep")])]);
    let copy = source.clone();
    drop(source);
    assert_eq!(copy, RedisValue::List(vec![RedisValue::List(vec![text("deep")])]));
}

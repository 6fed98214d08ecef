use redis_value::reply::Reply;
use redis_value::value::RedisValue;

fn text(value: &str) -> RedisValue {
    RedisValue::Text(value.to_owned())
}

/// The reply that stands for a value.
fn as_reply(value: &RedisValue) -> Reply {
    match value {
        RedisValue::Integer(number) => Reply::Int(*number),
        RedisValue::Text(_) => {
            let mut sent = value.to_redis_args();
            assert_eq!(sent.len(), 1);
            Reply::Data(sent.remove(0))
        }
        RedisValue::List(items) | RedisValue::SetOf(items) => {
            Reply::Bulk(items.iter().map(as_reply).collect())
        }
        RedisValue::MapOf(pairs) => {
            let mut items = Vec::new();
            for (key, value) in pairs {
                items.push(as_reply(key));
                items.push(as_reply(value));
            }
            Reply::Bulk(items)
        }
    }
}

fn comes_back(value: RedisValue) {
    let reply = as_reply(&value);
    let back = RedisValue::from_redis_value(&reply).unwrap();
    assert_eq!(back, value);
    assert_eq!(back.to_redis_args(), value.to_redis_args());
}

#[test]
fn integers_come_back() {
    let numbers = [
        0,
        1,
        -1,
        42,
        127,
        128,
        255,
        256,
        -128,
        -129,
        32767,
        32768,
        65535,
        65536,
        -32769,
        2147483647,
        2147483648,
        4294967295,
        4294967296,
        -2147483649,
        i64::MAX,
        i64::MIN,
        i64::MAX - 1,
        i64::MIN + 1,
    ];
    for number in numbers {
        comes_back(RedisValue::Integer(number));
    }
}

#[test]
fn integers_come_back_from_the_argument_sent() {
    for number in [0, 7, -7, 255, 256, 300, -129, 65536, i64::MAX, i64::MIN] {
        let mut sent = RedisValue::Integer(number).to_redis_args();
        assert_eq!(sent.len(), 1);
        let back = RedisValue::from_redis_value(&Reply::Data(sent.remove(0))).unwrap();
        assert_eq!(back, RedisValue::Integer(number));
    }
}

#[test]
fn strings_that_are_no_numbers_come_back() {
    for value in ["", "a", "hello world", "12a", "a12", " 1", "1 ", "--1", "h\u{e9}llo", "\u{1f600}"] {
        comes_back(text(value));
    }
}

#[test]
fn lists_come_back() {
    comes_back(RedisValue::List(vec![]));
    comes_back(RedisValue::List(vec![RedisValue::Integer(1), text("two"), RedisValue::Integer(-3)]));
    comes_back(RedisValue::List(vec![
        RedisValue::List(vec![text("a"), RedisValue::List(vec![])]),
        RedisValue::List(vec![RedisValue::Integer(300)]),
    ]));
}

#[test]
fn strings_that_are_numbers_come_back_as_integers() {
    let reply = as_reply(&text("42"));
    assert!(matches!(RedisValue::from_redis_value(&reply).unwrap(), RedisValue::Integer(42)));
    let reply = as_reply(&text("1"));
    assert!(matches!(RedisValue::from_redis_value(&reply).unwrap(), RedisValue::Integer(1)));
}

#[test]
fn sets_and_maps_come_back_as_lists() {
    let set = RedisValue::SetOf(vec![text("a"), text("b")]);
    let back = RedisValue::from_redis_value(&as_reply(&set)).unwrap();
    assert_eq!(back, RedisValue::List(vec![text("a"), text("b")]));
    let map = RedisValue::MapOf(vec![(text("k"), text("v"))]);
    let back = RedisValue::from_redis_value(&as_reply(&map)).unwrap();
    assert_eq!(back, RedisValue::List(vec![text("k"), text("v")]));
}

#[test]
fn what_is_sent_is_read_back_as_sent() {
    let value = RedisValue::MapOf(vec![
        (text("k2"), RedisValue::Integer(2)),
        (text("k1"), RedisValue::Integer(1)),
    ]);
    let sent = value.to_redis_args();
    let reply = Reply::Bulk(sent.iter().map(|arg| Reply::Data(arg.clone())).collect());
    let back = RedisValue::from_redis_value(&reply).unwrap();
    assert_eq!(back.to_redis_args(), sent);
}

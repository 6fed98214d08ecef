use redis_value::decode::DecodeError;
use redis_value::reply::Reply;
use redis_value::value::RedisValue;

fn data(text: &str) -> Reply {
    Reply::Data(text.as_bytes().to_vec())
}

fn text(value: &str) -> RedisValue {
    RedisValue::Text(value.to_owned())
}

fn args(list: &[&str]) -> Vec<Vec<u8>> {
    list.iter().map(|arg| arg.as_bytes().to_vec()).collect()
}

fn decode(reply: &Reply) -> RedisValue {
    RedisValue::from_redis_value(reply).unwrap()
}

#[test]
fn integer_reply_decodes_and_encodes() {
    let value = decode(&Reply::Int(42));
    assert!(matches!(value, RedisValue::Integer(42)));
    assert_eq!(value.to_redis_args(), args(&["42"]));
}

#[test]
fn array_reply_decodes_to_list_in_order() {
    let reply = Reply::Bulk(vec![data("a"), data("b")]);
    let value = decode(&reply);
    assert_eq!(value, RedisValue::List(vec![text("a"), text("b")]));
    assert_eq!(value.to_redis_args(), args(&["a", "b"]));
}

#[test]
fn maps_built_in_reverse_order_are_the_same() {
    let forward = RedisValue::MapOf(vec![(text("k1"), text("v1")), (text("k2"), text("v2"))]);
    let backward = RedisValue::MapOf(vec![(text("k2"), text("v2")), (text("k1"), text("v1"))]);
    assert_eq!(forward, backward);
    assert_eq!(forward.to_redis_args(), backward.to_redis_args());
    assert_eq!(forward.digest(), backward.digest());
    let sent = forward.to_redis_args();
    assert_eq!(sent.len(), 4);
    assert!(sent == args(&["k1", "v1", "k2", "v2"]) || sent == args(&["k2", "v2", "k1", "v1"]));
}

#[test]
fn unreadable_reply_is_refused() {
    let broken = Reply::Data(vec![0xff, 0xfe]);
    assert_eq!(
        RedisValue::from_redis_value(&broken),
        Err(DecodeError::UnsupportedShape)
    );
    let alone = Reply::Bulk(vec![Reply::Data(vec![0xff, 0xfe])]);
    assert_eq!(
        RedisValue::from_redis_value(&alone),
        Err(DecodeError::UnsupportedShape)
    );
    let nested = Reply::Bulk(vec![
        data("a"),
        Reply::Bulk(vec![Reply::Data(vec![0xc0]), data("b")]),
    ]);
    assert!(matches!(
        RedisValue::from_redis_value(&nested),
        Err(DecodeError::UnsupportedShape)
    ));
}

#[test]
fn numeric_text_becomes_an_integer_never_a_string() {
    assert!(matches!(decode(&data("42")), RedisValue::Integer(42)));
    assert!(matches!(decode(&Reply::Status("42".to_owned())), RedisValue::Integer(42)));
    assert!(matches!(decode(&data("-17")), RedisValue::Integer(-17)));
    assert!(matches!(decode(&data("+5")), RedisValue::Integer(5)));
    assert!(matches!(decode(&data("-0")), RedisValue::Integer(0)));
    assert!(matches!(decode(&data("007")), RedisValue::Integer(7)));
}

#[test]
fn text_that_is_no_number_stays_a_string() {
    assert_eq!(decode(&data("hello")), text("hello"));
    assert_eq!(decode(&data("")), text(""));
    assert_eq!(decode(&data("4 2")), text("4 2"));
    assert_eq!(decode(&data("-")), text("-"));
    assert_eq!(decode(&data("+")), text("+"));
    assert_eq!(decode(&data("1.5")), text("1.5"));
    assert_eq!(decode(&data("0x10")), text("0x10"));
    assert_eq!(decode(&data("true")), text("true"));
    assert_eq!(decode(&Reply::Status("PONG".to_owned())), text("PONG"));
    assert_eq!(decode(&data("h\u{e9}llo \u{4e16}\u{754c}")), text("h\u{e9}llo \u{4e16}\u{754c}"));
}

#[test]
fn integer_reply_is_the_integer_it_holds() {
    assert!(matches!(decode(&Reply::Int(0)), RedisValue::Integer(0)));
    assert!(matches!(decode(&Reply::Int(255)), RedisValue::Integer(255)));
    assert!(matches!(decode(&Reply::Int(256)), RedisValue::Integer(256)));
    assert!(matches!(decode(&Reply::Int(300)), RedisValue::Integer(300)));
    assert!(matches!(decode(&Reply::Int(-1)), RedisValue::Integer(-1)));
    assert!(matches!(decode(&Reply::Int(-129)), RedisValue::Integer(-129)));
    assert!(matches!(decode(&Reply::Int(4294967296)), RedisValue::Integer(4294967296)));
    assert!(matches!(decode(&Reply::Int(i64::MAX)), RedisValue::Integer(i64::MAX)));
    assert!(matches!(decode(&Reply::Int(i64::MIN)), RedisValue::Integer(i64::MIN)));
    assert_eq!(decode(&Reply::Int(300)).to_redis_args(), args(&["300"]));
}

#[test]
fn text_is_read_as_the_narrowest_type_that_holds_it() {
    assert!(matches!(decode(&data("255")), RedisValue::Integer(255)));
    assert!(matches!(decode(&data("256")), RedisValue::Integer(256)));
    assert!(matches!(decode(&data("-128")), RedisValue::Integer(-128)));
    assert!(matches!(decode(&data("-129")), RedisValue::Integer(-129)));
    assert!(matches!(decode(&data("65536")), RedisValue::Integer(65536)));
    assert!(matches!(decode(&data("-2147483649")), RedisValue::Integer(-2147483649)));
    assert!(matches!(decode(&data("9223372036854775807")), RedisValue::Integer(i64::MAX)));
    assert!(matches!(decode(&data("-9223372036854775808")), RedisValue::Integer(i64::MIN)));
}

#[test]
fn wider_numbers_are_cut_to_64_bits() {
    assert!(matches!(decode(&data("9223372036854775808")), RedisValue::Integer(i64::MIN)));
    assert!(matches!(decode(&data("18446744073709551615")), RedisValue::Integer(-1)));
    assert!(matches!(decode(&data("18446744073709551616")), RedisValue::Integer(0)));
    assert!(matches!(decode(&data("18446744073709551658")), RedisValue::Integer(42)));
    assert!(matches!(
        decode(&data("340282366920938463463374607431768211455")),
        RedisValue::Integer(-1)
    ));
    assert!(matches!(decode(&data("-9223372036854775809")), RedisValue::Integer(i64::MAX)));
    assert!(matches!(
        decode(&data("-170141183460469231731687303715884105728")),
        RedisValue::Integer(0)
    ));
}

#[test]
fn numbers_too_wide_for_any_type_stay_strings() {
    assert_eq!(
        decode(&data("340282366920938463463374607431768211456")),
        text("340282366920938463463374607431768211456")
    );
    assert_eq!(
        decode(&data("-170141183460469231731687303715884105729")),
        text("-170141183460469231731687303715884105729")
    );
}

#[test]
fn absent_value_and_ok_fold_to_truth_values() {
    assert!(matches!(decode(&Reply::Nil), RedisValue::Integer(0)));
    assert!(matches!(decode(&Reply::Okay), RedisValue::Integer(1)));
    assert!(matches!(decode(&data("1")), RedisValue::Integer(1)));
    assert!(matches!(decode(&data("0")), RedisValue::Integer(0)));
    assert_eq!(decode(&Reply::Status("OK".to_owned())), text("OK"));
}

#[test]
fn integer_of_tells_numbers_from_the_rest() {
    assert_eq!(RedisValue::integer_of(&Reply::Int(7)), Some(7));
    assert_eq!(RedisValue::integer_of(&data("1000")), Some(1000));
    assert_eq!(RedisValue::integer_of(&Reply::Nil), Some(0));
    assert_eq!(RedisValue::integer_of(&Reply::Okay), Some(1));
    assert_eq!(RedisValue::integer_of(&data("abc")), None);
    assert_eq!(RedisValue::integer_of(&Reply::Data(vec![0x31, 0xff])), None);
    assert_eq!(RedisValue::integer_of(&Reply::Bulk(vec![Reply::Int(1)])), None);
}

#[test]
fn nested_sequences_decode_to_nested_lists() {
    let reply = Reply::Bulk(vec![
        Reply::Int(1),
        Reply::Bulk(vec![data("x"), Reply::Bulk(vec![])]),
        data("y"),
    ]);
    let expected = RedisValue::List(vec![
        RedisValue::Integer(1),
        RedisValue::List(vec![text("x"), RedisValue::List(vec![])]),
        text("y"),
    ]);
    assert_eq!(decode(&reply), expected);
    assert_eq!(decode(&Reply::Bulk(vec![])), RedisValue::List(vec![]));
}

#[test]
fn sequence_with_an_unreadable_item_is_refused() {
    let unreadable = || Reply::Data(vec![0xff, 0xfe]);
    let replies = vec![
        Reply::Bulk(vec![unreadable()]),
        Reply::Bulk(vec![data("k"), data("v"), unreadable()]),
        Reply::Bulk(vec![data("k"), unreadable()]),
        Reply::Bulk(vec![unreadable(), data("v"), data("w")]),
        Reply::Bulk(vec![unreadable(), unreadable()]),
        Reply::Bulk(vec![data("a"), Reply::Bulk(vec![unreadable()])]),
        Reply::Bulk(vec![Reply::Bulk(vec![Reply::Bulk(vec![data("a"), unreadable()])])]),
    ];
    for reply in &replies {
        assert_eq!(
            RedisValue::from_redis_value(reply),
            Err(DecodeError::UnsupportedShape)
        );
    }
}

#[test]
fn sequence_decodes_to_the_list_of_its_items() {
    let replies = vec![
        Reply::Bulk(vec![]),
        Reply::Bulk(vec![data("k")]),
        Reply::Bulk(vec![data("k"), data("v")]),
        Reply::Bulk(vec![data("k"), Reply::Int(1), Reply::Nil]),
        Reply::Bulk(vec![Reply::Bulk(vec![data("k"), data("v")]), Reply::Okay]),
    ];
    for reply in &replies {
        let items = match reply {
            Reply::Bulk(items) => items,
            _ => unreachable!(),
        };
        match decode(reply) {
            RedisValue::List(values) => {
                assert_eq!(values.len(), items.len());
                for (value, item) in values.iter().zip(items.iter()) {
                    assert_eq!(*value, decode(item));
                }
            }
            other => panic!("no list: {:?}", other),
        }
    }
}

#[test]
fn decoding_never_gives_a_set_or_a_map() {
    let replies = vec![
        Reply::Nil,
        Reply::Bulk(vec![]),
        Reply::Bulk(vec![data("a"), data("a")]),
        Reply::Bulk(vec![data("a"), data("b"), data("c")]),
    ];
    for reply in &replies {
        assert!(!decode(reply).is_set());
        assert!(!decode(reply).is_map());
    }
}

#[test]
fn perform_tests() {
    let key = RedisValue::from_redis_value(&Reply::Status("keytest".to_owned())).unwrap();
    let value = RedisValue::from_redis_value(&Reply::Status("valuetest".to_owned())).unwrap();
    assert_eq!(key, text("keytest"));
    assert_eq!(value, text("valuetest"));
    let mut set = args(&["SET"]);
    key.write_redis_args(&mut set);
    value.write_redis_args(&mut set);
    assert_eq!(set, args(&["SET", "keytest", "valuetest"]));
    let mut get = args(&["GET"]);
    key.write_redis_args(&mut get);
    assert_eq!(get, args(&["GET", "keytest"]));
    let answer = RedisValue::from_redis_value(&Reply::Data(value.to_redis_args().remove(0)));
    assert_eq!(answer.unwrap().to_redis_args(), args(&["valuetest"]));
}

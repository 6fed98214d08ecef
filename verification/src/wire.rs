//! The calls into the protocol client.
//!
//! Nothing in this file is proved. Each function hands a plain value to one
//! conversion of the `redis` crate and states what that conversion returns.

use crate::decimal::{decimal_text, parsed, wrapped};
use crate::reply::{Reply, Shape};
use redis::{FromRedisValue, ToRedisArgs};
use vstd::prelude::*;
use vstd::utf8::{decode_utf8, encode_utf8, valid_utf8};

verus! {

/// `redis::Value`, the client's own form of a reply. Nothing is known of what
/// a value of it holds: it is built from a [`Reply`] and handed on.
#[verifier::external_type_specification]
#[verifier::external_body]
pub struct ExValue(redis::Value);

/// What the client reads out of a reply as a number of the range `lo ..= hi`.
///
/// An integer reply is cut down to the range. A status line and a string
/// of bytes must be decimal text of a number of the range, and the bytes must
/// be UTF-8. No other reply is a number.
pub open spec fn number(shape: Shape, signed: bool, lo: int, hi: int) -> Option<int> {
    match shape {
        Shape::Int(n) => Some(wrapped(n as int, lo, hi)),
        Shape::Status(text) => parsed(encode_utf8(text), signed, lo, hi),
        Shape::Data(bytes) => if valid_utf8(bytes) {
            parsed(bytes, signed, lo, hi)
        } else {
            None
        },
        _ => None,
    }
}

/// What the client reads out of a reply as a truth value.
pub open spec fn flag(shape: Shape) -> Option<bool> {
    match shape {
        Shape::Nil => Some(false),
        Shape::Int(n) => Some(n != 0),
        Shape::Status(text) => if text == seq!['1'] {
            Some(true)
        } else if text == seq!['0'] {
            Some(false)
        } else {
            None
        },
        Shape::Data(bytes) => if bytes == seq![49u8] {
            Some(true)
        } else if bytes == seq![48u8] {
            Some(false)
        } else {
            None
        },
        Shape::Okay => Some(true),
        _ => None,
    }
}

/// What the client reads out of a reply as a string.
pub open spec fn text(shape: Shape) -> Option<Seq<char>> {
    match shape {
        Shape::Data(bytes) => if valid_utf8(bytes) {
            Some(decode_utf8(bytes))
        } else {
            None
        },
        Shape::Okay => Some(seq!['O', 'K']),
        Shape::Status(text) => Some(text),
        _ => None,
    }
}

/// Builds the client's own `redis::Value` that holds what `reply` holds,
/// variant for variant.
#[verifier::external_body]
fn client_value(reply: &Reply) -> redis::Value {
    match reply {
        Reply::Nil => redis::Value::Nil,
        Reply::Int(n) => redis::Value::Int(*n),
        Reply::Data(bytes) => redis::Value::Data(bytes.clone()),
        Reply::Bulk(items) => redis::Value::Bulk(items.iter().map(client_value).collect()),
        Reply::Status(text) => redis::Value::Status(text.clone()),
        Reply::Okay => redis::Value::Okay,
    }
}

/// `<u8 as redis::FromRedisValue>::from_redis_value`: the reply as a `u8`,
/// or nothing where the client does not read it as one. An integer reply is
/// cast with `as`, text is parsed with `str::parse`.
#[verifier::external_body]
pub(crate) fn read_u8(reply: &Reply) -> (r: Option<u8>)
    ensures
        r matches Some(x) ==> number(reply@, false, u8::MIN as int, u8::MAX as int) == Some(x as int),
        r is None ==> number(reply@, false, u8::MIN as int, u8::MAX as int) is None,
{
    u8::from_redis_value(&client_value(reply)).ok()
}

/// `<i8 as redis::FromRedisValue>::from_redis_value`: the reply as an `i8`,
/// or nothing where the client does not read it as one. An integer reply is
/// cast with `as`, text is parsed with `str::parse`.
#[verifier::external_body]
pub(crate) fn read_i8(reply: &Reply) -> (r: Option<i8>)
    ensures
        r matches Some(x) ==> number(reply@, true, i8::MIN as int, i8::MAX as int) == Some(x as int),
        r is None ==> number(reply@, true, i8::MIN as int, i8::MAX as int) is None,
{
    i8::from_redis_value(&client_value(reply)).ok()
}

/// `<u16 as redis::FromRedisValue>::from_redis_value`: the reply as a `u16`,
/// or nothing where the client does not read it as one. An integer reply is
/// cast with `as`, text is parsed with `str::parse`.
#[verifier::external_body]
pub(crate) fn read_u16(reply: &Reply) -> (r: Option<u16>)
    ensures
        r matches Some(x) ==> number(reply@, false, u16::MIN as int, u16::MAX as int) == Some(x as int),
        r is None ==> number(reply@, false, u16::MIN as int, u16::MAX as int) is None,
{
    u16::from_redis_value(&client_value(reply)).ok()
}

/// `<i16 as redis::FromRedisValue>::from_redis_value`: the reply as an `i16`,
/// or nothing where the client does not read it as one. An integer reply is
/// cast with `as`, text is parsed with `str::parse`.
#[verifier::external_body]
pub(crate) fn read_i16(reply: &Reply) -> (r: Option<i16>)
    ensures
        r matches Some(x) ==> number(reply@, true, i16::MIN as int, i16::MAX as int) == Some(x as int),
        r is None ==> number(reply@, true, i16::MIN as int, i16::MAX as int) is None,
{
    i16::from_redis_value(&client_value(reply)).ok()
}

/// `<u32 as redis::FromRedisValue>::from_redis_value`: the reply as a `u32`,
/// or nothing where the client does not read it as one. An integer reply is
/// cast with `as`, text is parsed with `str::parse`.
#[verifier::external_body]
pub(crate) fn read_u32(reply: &Reply) -> (r: Option<u32>)
    ensures
        r matches Some(x) ==> number(reply@, false, u32::MIN as int, u32::MAX as int) == Some(x as int),
        r is None ==> number(reply@, false, u32::MIN as int, u32::MAX as int) is None,
{
    u32::from_redis_value(&client_value(reply)).ok()
}

/// `<i32 as redis::FromRedisValue>::from_redis_value`: the reply as an `i32`,
/// or nothing where the client does not read it as one. An integer reply is
/// cast with `as`, text is parsed with `str::parse`.
#[verifier::external_body]
pub(crate) fn read_i32(reply: &Reply) -> (r: Option<i32>)
    ensures
        r matches Some(x) ==> number(reply@, true, i32::MIN as int, i32::MAX as int) == Some(x as int),
        r is None ==> number(reply@, true, i32::MIN as int, i32::MAX as int) is None,
{
    i32::from_redis_value(&client_value(reply)).ok()
}

/// `<u64 as redis::FromRedisValue>::from_redis_value`: the reply as a `u64`,
/// or nothing where the client does not read it as one. An integer reply is
/// cast with `as`, text is parsed with `str::parse`.
#[verifier::external_body]
pub(crate) fn read_u64(reply: &Reply) -> (r: Option<u64>)
    ensures
        r matches Some(x) ==> number(reply@, false, u64::MIN as int, u64::MAX as int) == Some(x as int),
        r is None ==> number(reply@, false, u64::MIN as int, u64::MAX as int) is None,
{
    u64::from_redis_value(&client_value(reply)).ok()
}

/// `<i64 as redis::FromRedisValue>::from_redis_value`: the reply as an `i64`,
/// or nothing where the client does not read it as one. An integer reply is
/// cast with `as`, text is parsed with `str::parse`.
#[verifier::external_body]
pub(crate) fn read_i64(reply: &Reply) -> (r: Option<i64>)
    ensures
        r matches Some(x) ==> number(reply@, true, i64::MIN as int, i64::MAX as int) == Some(x as int),
        r is None ==> number(reply@, true, i64::MIN as int, i64::MAX as int) is None,
{
    i64::from_redis_value(&client_value(reply)).ok()
}

/// `<u128 as redis::FromRedisValue>::from_redis_value`: the reply as a `u128`,
/// or nothing where the client does not read it as one. An integer reply is
/// cast with `as`, text is parsed with `str::parse`.
#[verifier::external_body]
pub(crate) fn read_u128(reply: &Reply) -> (r: Option<u128>)
    ensures
        r matches Some(x) ==> number(reply@, false, u128::MIN as int, u128::MAX as int) == Some(x as int),
        r is None ==> number(reply@, false, u128::MIN as int, u128::MAX as int) is None,
{
    u128::from_redis_value(&client_value(reply)).ok()
}

/// `<i128 as redis::FromRedisValue>::from_redis_value`: the reply as an `i128`,
/// or nothing where the client does not read it as one. An integer reply is
/// cast with `as`, text is parsed with `str::parse`.
#[verifier::external_body]
pub(crate) fn read_i128(reply: &Reply) -> (r: Option<i128>)
    ensures
        r matches Some(x) ==> number(reply@, true, i128::MIN as int, i128::MAX as int) == Some(x as int),
        r is None ==> number(reply@, true, i128::MIN as int, i128::MAX as int) is None,
{
    i128::from_redis_value(&client_value(reply)).ok()
}

/// `<usize as redis::FromRedisValue>::from_redis_value`: the reply as a `usize`,
/// or nothing where the client does not read it as one. An integer reply is
/// cast with `as`, text is parsed with `str::parse`.
#[verifier::external_body]
pub(crate) fn read_usize(reply: &Reply) -> (r: Option<usize>)
    ensures
        r matches Some(x) ==> number(reply@, false, usize::MIN as int, usize::MAX as int) == Some(x as int),
        r is None ==> number(reply@, false, usize::MIN as int, usize::MAX as int) is None,
{
    usize::from_redis_value(&client_value(reply)).ok()
}

/// `<isize as redis::FromRedisValue>::from_redis_value`: the reply as an `isize`,
/// or nothing where the client does not read it as one. An integer reply is
/// cast with `as`, text is parsed with `str::parse`.
#[verifier::external_body]
pub(crate) fn read_isize(reply: &Reply) -> (r: Option<isize>)
    ensures
        r matches Some(x) ==> number(reply@, true, isize::MIN as int, isize::MAX as int) == Some(x as int),
        r is None ==> number(reply@, true, isize::MIN as int, isize::MAX as int) is None,
{
    isize::from_redis_value(&client_value(reply)).ok()
}

/// `<bool as redis::FromRedisValue>::from_redis_value`: the reply as a truth
/// value, or nothing where the client does not read it as one.
#[verifier::external_body]
pub(crate) fn read_bool(reply: &Reply) -> (r: Option<bool>)
    ensures
        r == flag(reply@),
{
    bool::from_redis_value(&client_value(reply)).ok()
}

/// `<String as redis::FromRedisValue>::from_redis_value`: the reply as a
/// string, or nothing where the client does not read it as one.
#[verifier::external_body]
pub(crate) fn read_text(reply: &Reply) -> (r: Option<String>)
    ensures
        r matches Some(s) ==> text(reply@) == Some(s@),
        r is None ==> text(reply@) is None,
{
    String::from_redis_value(&client_value(reply)).ok()
}

/// `<i64 as redis::ToRedisArgs>::to_redis_args`: one argument, the decimal
/// text of the number.
#[verifier::external_body]
pub(crate) fn integer_args(number: i64) -> (args: Vec<Vec<u8>>)
    ensures
        args@.len() == 1,
        args@[0]@ == decimal_text(number as int),
{
    number.to_redis_args()
}

/// `<String as redis::ToRedisArgs>::to_redis_args`: one argument, the bytes
/// of the string in UTF-8.
#[verifier::external_body]
pub(crate) fn text_args(text: &String) -> (args: Vec<Vec<u8>>)
    ensures
        args@.len() == 1,
        args@[0]@ == encode_utf8(text@),
{
    text.to_redis_args()
}

} // verus!

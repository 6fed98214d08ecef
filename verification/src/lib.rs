//! A value of a key-value cache as the application sees it: an integer, a
//! string, a list, a set or a map, nested to any depth.
//!
//! A value is read out of the reply that the protocol client received
//! ([`decode`]), is sent as a list of protocol arguments ([`encode`]), and has
//! an equality, a hash and an order that do not depend on how its sets and maps
//! were put together ([`identity`], [`order`]). What holds of all values and
//! replies is stated and proved in [`laws`].

pub mod decimal;
pub mod decode;
pub mod encode;
pub mod identity;
pub mod laws;
pub mod order;
pub mod reply;
pub mod value;
pub mod wire;

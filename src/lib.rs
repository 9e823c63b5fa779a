//! A compact, self-describing binary encoding for small value trees.
//!
//! Every encoded value starts with a tag byte. Scalars follow with a fixed-width
//! little-endian payload; byte strings, optional values and the elements of
//! lists and associations are framed by a single length byte, so no byte string
//! and no nested element can be longer than 255 bytes. Lists and associations
//! end with an end tag. Decoding borrows byte strings from the input.
//!
//! `wire` states the format as spec functions; `encode` and `decode` are
//! proved against them; `laws` proves what holds across the two.
use vstd::prelude::*;

pub mod decode;
pub mod encode;
pub mod laws;
pub mod value;
pub mod wire;

pub use value::Value;
pub use wire::Error;

verus! {

use crate::wire::{decode as decode_spec, encode as encode_spec};

/// The encoding of `value`, or why it has none.
pub fn serialize<'a>(value: &Value<'a>) -> (r: Result<Vec<u8>, Error>)
    ensures
        encode_spec(value@) is Ok ==> r is Ok && r->Ok_0@ == encode_spec(value@)->Ok_0,
        encode_spec(value@) is Err ==> r == Err::<Vec<u8>, Error>(encode_spec(value@)->Err_0),
{
    value.serialize()
}

/// The value that `bytes` encodes, whole, with its byte strings borrowed from
/// `bytes`; or why they encode none.
pub fn deserialize<'a>(bytes: &'a [u8]) -> (r: Result<Value<'a>, Error>)
    ensures
        decode_spec(bytes@) is Ok ==> r is Ok && r->Ok_0@ == decode_spec(bytes@)->Ok_0 && r->Ok_0.borrows_only(),
        decode_spec(bytes@) is Err ==> r == Err::<Value<'a>, Error>(decode_spec(bytes@)->Err_0),
{
    Value::deserialize_from(bytes)
}

} // verus!

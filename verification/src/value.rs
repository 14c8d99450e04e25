//! The types of values and how they are stored.

use crate::bytes::{
    law_native_inverse, law_native_round_trip, lemma_limits, native_bytes, native_value,
    NativeOrder,
};
use vstd::prelude::*;

verus! {

/// A type of values: plain data of a fixed size.
pub trait Value: Copy {
    /// The number of bytes that a value takes.
    spec fn size() -> usize;

    /// How a machine that is little-endian iff `little` stores a value.
    spec fn stored(little: bool, value: Self) -> Seq<u8>;

    /// The value that [`Value::size`] bytes hold.
    spec fn decoded(little: bool, bytes: Seq<u8>) -> Self;

    /// A value takes at least one byte.
    proof fn law_size()
        ensures
            Self::size() > 0,
    ;

    /// A value is read back from its stored form.
    proof fn law_stored(little: bool, value: Self)
        ensures
            Self::stored(little, value).len() == Self::size(),
            Self::decoded(little, Self::stored(little, value)) == value,
    ;

    /// The number of bytes that a value takes.
    fn byte_size() -> (r: usize)
        ensures
            r == Self::size(),
    ;

    /// Reads a value from its stored form.
    fn parse(order: &NativeOrder, bytes: &[u8]) -> (r: Self)
        requires
            bytes@.len() == Self::size(),
        ensures
            r == Self::decoded(order.is_little(), bytes@),
    ;
}

impl Value for u32 {
    open spec fn size() -> usize {
        4
    }

    open spec fn stored(little: bool, value: u32) -> Seq<u8> {
        native_bytes(little, value as nat, 4)
    }

    open spec fn decoded(little: bool, bytes: Seq<u8>) -> u32 {
        native_value(little, bytes) as u32
    }

    proof fn law_size() {
    }

    proof fn law_stored(little: bool, value: u32) {
        lemma_limits();
        law_native_round_trip(little, value as nat, 4);
    }

    fn byte_size() -> (r: usize) {
        4
    }

    fn parse(order: &NativeOrder, bytes: &[u8]) -> (r: u32) {
        order.decode_u32(bytes)
    }
}

impl Value for u64 {
    open spec fn size() -> usize {
        8
    }

    open spec fn stored(little: bool, value: u64) -> Seq<u8> {
        native_bytes(little, value as nat, 8)
    }

    open spec fn decoded(little: bool, bytes: Seq<u8>) -> u64 {
        native_value(little, bytes) as u64
    }

    proof fn law_size() {
    }

    proof fn law_stored(little: bool, value: u64) {
        lemma_limits();
        law_native_round_trip(little, value as nat, 8);
    }

    fn byte_size() -> (r: usize) {
        8
    }

    fn parse(order: &NativeOrder, bytes: &[u8]) -> (r: u64) {
        order.decode_u64(bytes)
    }
}

impl Value for u128 {
    open spec fn size() -> usize {
        16
    }

    open spec fn stored(little: bool, value: u128) -> Seq<u8> {
        native_bytes(little, value as nat, 16)
    }

    open spec fn decoded(little: bool, bytes: Seq<u8>) -> u128 {
        native_value(little, bytes) as u128
    }

    proof fn law_size() {
    }

    proof fn law_stored(little: bool, value: u128) {
        lemma_limits();
        law_native_round_trip(little, value as nat, 16);
    }

    fn byte_size() -> (r: usize) {
        16
    }

    fn parse(order: &NativeOrder, bytes: &[u8]) -> (r: u128) {
        order.decode(bytes)
    }
}

/// Values are integers of 4, 8 and 16 bytes.
pub proof fn law_value_types(little: bool, a: u32, b: u64, c: u128)
    ensures
        <u32 as Value>::size() == 4,
        <u64 as Value>::size() == 8,
        <u128 as Value>::size() == 16,
        <u32 as Value>::stored(little, a).len() == 4,
        <u64 as Value>::stored(little, b).len() == 8,
        <u128 as Value>::stored(little, c).len() == 16,
        native_value(little, <u32 as Value>::stored(little, a)) == a,
        native_value(little, <u64 as Value>::stored(little, b)) == b,
        native_value(little, <u128 as Value>::stored(little, c)) == c,
{
    lemma_limits();
    law_native_round_trip(little, a as nat, 4);
    law_native_round_trip(little, b as nat, 8);
    law_native_round_trip(little, c as nat, 16);
}

/// A value is read as the integer that its bytes hold.
pub proof fn law_parse_values(
    order: NativeOrder,
    bytes: &[u8],
    a: u32,
    b: u64,
    c: u128,
)
    ensures
        bytes@.len() == 4 && call_ensures(<u32 as Value>::parse, (&order, bytes), a) ==> a
            == native_value(order.is_little(), bytes@),
        bytes@.len() == 8 && call_ensures(<u64 as Value>::parse, (&order, bytes), b) ==> b
            == native_value(order.is_little(), bytes@),
        bytes@.len() == 16 && call_ensures(<u128 as Value>::parse, (&order, bytes), c) ==> c
            == native_value(order.is_little(), bytes@),
{
    lemma_limits();
    law_native_inverse(order.is_little(), bytes@);
}

} // verus!

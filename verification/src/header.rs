//! The header of a map file.

use crate::bytes::{native_value, NativeOrder};
use vstd::prelude::*;
use zerocopy::FromBytes;

verus! {

/// The number of bytes that the header takes.
pub const HEADER_SIZE: u64 = 24;

/// The start of a map file: the name of the key type, the position of the bucket
/// table, and the number of buckets.
pub struct Header {
    pub key_type: [u8; 8],
    pub buckets_pos: u64,
    pub buckets_count: u64,
}

/// The name of the key type in the header at the start of `bytes`.
pub open spec fn header_key_type(bytes: Seq<u8>) -> Seq<u8> {
    bytes.subrange(0, 8)
}

/// The position of the bucket table in the header at the start of `bytes`.
pub open spec fn header_buckets_pos(little: bool, bytes: Seq<u8>) -> nat {
    native_value(little, bytes.subrange(8, 16))
}

/// The number of buckets in the header at the start of `bytes`.
pub open spec fn header_buckets_count(little: bool, bytes: Seq<u8>) -> nat {
    native_value(little, bytes.subrange(16, 24))
}

/// Calls `FromBytes::read_from_prefix` of `zerocopy` for eight bytes.
///
/// It fails where there are fewer, and else copies the first eight out and returns
/// the others beside them.
#[verifier::external_body]
fn read_word(bytes: &[u8]) -> (r: Option<([u8; 8], &[u8])>)
    ensures
        r is Some <==> bytes@.len() >= 8,
        r matches Some((word, rest)) ==> word@ == bytes@.subrange(0, 8),
        r matches Some((word, rest)) ==> rest@ == bytes@.subrange(8, bytes@.len() as int),
{
    <[u8; 8]>::read_from_prefix(bytes).ok()
}

impl Header {
    /// Reads the header at the start of `bytes`, if it is all there.
    pub fn read_from_prefix(order: &NativeOrder, bytes: &[u8]) -> (r: Option<Header>)
        ensures
            r is Some <==> bytes@.len() >= HEADER_SIZE,
            r matches Some(header) ==> {
                &&& header.key_type@ == header_key_type(bytes@)
                &&& header.buckets_pos == header_buckets_pos(order.is_little(), bytes@)
                &&& header.buckets_count == header_buckets_count(order.is_little(), bytes@)
            },
    {
        let (key_type, rest): ([u8; 8], &[u8]) = match read_word(bytes) {
            Some(found) => found,
            None => {
                return None;
            },
        };
        let (pos, rest2): ([u8; 8], &[u8]) = match read_word(rest) {
            Some(found) => found,
            None => {
                return None;
            },
        };
        let (count, _): ([u8; 8], &[u8]) = match read_word(rest2) {
            Some(found) => found,
            None => {
                return None;
            },
        };
        assert(pos@ =~= bytes@.subrange(8, 16));
        assert(count@ =~= bytes@.subrange(16, 24));
        Some(
            Header {
                key_type,
                buckets_pos: order.decode_u64(pos.as_slice()),
                buckets_count: order.decode_u64(count.as_slice()),
            },
        )
    }
}

/// The header takes 24 bytes: the name of the key type, the position of the bucket table and
/// the number of buckets, with 8 bytes each.
pub proof fn law_header(order: NativeOrder, bytes: &[u8], r: Option<Header>)
    requires
        call_ensures(Header::read_from_prefix, (&order, bytes), r),
    ensures
        bytes@.len() < 24 ==> r is None,
        bytes@.len() >= 24 ==> (r matches Some(header) && {
            &&& header.key_type@ == bytes@.subrange(0, 8)
            &&& header.buckets_pos == native_value(order.is_little(), bytes@.subrange(8, 16))
            &&& header.buckets_count == native_value(order.is_little(), bytes@.subrange(16, 24))
        }),
{
}

} // verus!

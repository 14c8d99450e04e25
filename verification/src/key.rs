//! The types of keys and how they are stored.

use crate::bytes::{
    law_native_inverse, law_native_round_trip, lemma_limits, native_bytes, native_value,
    NativeOrder,
};
use crate::phf::{
    get_i64, get_str, get_u128, i64_bits, i64_name, str_name, str_stored, u128_name, Phf,
};
use vstd::prelude::*;
use vstd::string::StringSliceAdditionalSpecFns;
use vstd::utf8::{decode_utf8, encode_utf8, valid_utf8};

verus! {

/// What the start of some bytes says of a key: nothing yet, that it is no key, or
/// which key it is and how many bytes the key takes.
pub ghost enum KeyRead<M> {
    NeedMore,
    Invalid,
    Done(M, nat),
}

/// The result of reading a key from the start of some bytes.
pub enum KeyParse<O> {
    /// The bytes end inside the key.
    NeedMore,
    /// The bytes do not start with a key.
    Invalid,
    /// The key and the number of bytes that it takes.
    Done(O, usize),
}

/// Whether `n` is a power of two up to 32.
pub open spec fn small_power_of_two(n: usize) -> bool {
    n == 1 || n == 2 || n == 4 || n == 8 || n == 16 || n == 32
}

/// A type of keys.
///
/// The view of a key is the key as a mathematical value.
pub trait Key: View {
    /// A key that was read from a file.
    type Owned;

    /// What the distance of every entry from the first one is a multiple of.
    spec fn alignment() -> usize;

    /// The name of the type in the header of a file.
    spec fn name() -> Seq<u8>;

    /// About how many bytes a key takes.
    spec fn size_est() -> usize;

    /// The key that `owned` stands for.
    spec fn model(owned: Self::Owned) -> Self::V;

    /// How a machine that is little-endian iff `little` stores a key.
    spec fn stored(little: bool, key: Self::V) -> Seq<u8>;

    /// The key at the start of `bytes`.
    spec fn decoded(little: bool, bytes: Seq<u8>) -> KeyRead<Self::V>;

    /// Entries start at multiples of a small power of two, and names take eight bytes.
    proof fn law_align()
        ensures
            Self::name().len() == 8,
            small_power_of_two(Self::alignment()),
            0 < Self::size_est() <= 0x1_0000,
    ;

    /// What the first `n` bytes say of a key, the bytes behind them do not change, and
    /// the bytes of the key suffice.
    proof fn law_prefix(little: bool, bytes: Seq<u8>, n: int)
        requires
            0 <= n <= bytes.len(),
        ensures
            !(Self::decoded(little, bytes.take(n)) is NeedMore) ==> Self::decoded(little, bytes)
                == Self::decoded(little, bytes.take(n)),
            Self::decoded(little, bytes) matches KeyRead::Done(_, used) ==> 0 < used <= bytes.len(),
            bytes.len() == 0 ==> Self::decoded(little, bytes) is NeedMore,
            Self::decoded(little, bytes) matches KeyRead::Done(_, used) ==> (used <= n
                ==> Self::decoded(little, bytes.take(n)) == Self::decoded(little, bytes)),
    ;

    /// A key is read back from its stored form, whatever follows it.
    proof fn law_stored(little: bool, key: Self::V, rest: Seq<u8>)
        ensures
            Self::decoded(little, Self::stored(little, key) + rest) == KeyRead::Done(
                key,
                Self::stored(little, key).len(),
            ),
    ;

    /// What the distance of every entry from the first one is a multiple of.
    fn align() -> (r: usize)
        ensures
            r == Self::alignment(),
    ;

    /// The name of the type in the header of a file.
    fn key_type() -> (r: [u8; 8])
        ensures
            r@ == Self::name(),
    ;

    /// About how many bytes a key takes.
    fn value_size_est() -> (r: usize)
        ensures
            r == Self::size_est(),
    ;

    /// The bucket that a perfect hash function gives for the key.
    fn slot(&self, phf: &Phf, order: &NativeOrder) -> (r: Option<u64>)
        ensures
            r == phf.slots().get((Self::name(), Self::stored(order.is_little(), self@))),
    ;

    /// Reads the key at the start of `bytes`.
    fn parse(order: &NativeOrder, bytes: &[u8]) -> (r: KeyParse<Self::Owned>)
        ensures
            match (r, Self::decoded(order.is_little(), bytes@)) {
                (KeyParse::NeedMore, KeyRead::NeedMore) => true,
                (KeyParse::Invalid, KeyRead::Invalid) => true,
                (KeyParse::Done(owned, used), KeyRead::Done(key, n)) => Self::model(owned) == key
                    && used == n,
                _ => false,
            },
    ;

    /// The key that was read.
    fn as_key(owned: &Self::Owned) -> (r: &Self)
        ensures
            r@ == Self::model(*owned),
    ;

    /// A copy of the key.
    fn to_owned_key(&self) -> (r: Self::Owned)
        ensures
            Self::model(r) == self@,
    ;

    /// Whether the key is the one that was read.
    fn is_key(&self, owned: &Self::Owned) -> (r: bool)
        ensures
            r == (self@ == Self::model(*owned)),
    ;
}

/// Whether the byte at `i` is the first `0xFF`.
pub open spec fn is_terminator(bytes: Seq<u8>, i: int) -> bool {
    &&& 0 <= i < bytes.len()
    &&& bytes[i] == 0xFF
    &&& forall|j: int| 0 <= j < i ==> bytes[j] != 0xFF
}

/// The string that ends at the first `0xFF` of `bytes`.
pub open spec fn str_decoded(bytes: Seq<u8>) -> KeyRead<Seq<char>> {
    if exists|i: int| is_terminator(bytes, i) {
        let end = choose|i: int| is_terminator(bytes, i);
        if valid_utf8(bytes.take(end)) {
            KeyRead::Done(decode_utf8(bytes.take(end)), (end + 1) as nat)
        } else {
            KeyRead::Invalid
        }
    } else {
        KeyRead::NeedMore
    }
}

/// Text in UTF-8 holds no `0xFF`.
pub proof fn law_utf8_has_no_terminator(bytes: Seq<u8>, i: int)
    requires
        valid_utf8(bytes),
        0 <= i < bytes.len(),
    ensures
        bytes[i] != 0xFF,
    decreases bytes.len(),
{
    broadcast use vstd::utf8::utf8_byte_ranges_bitwise;

    let n = vstd::utf8::length_of_first_scalar(bytes);
    let rest = vstd::utf8::pop_first_scalar(bytes);
    if i >= n {
        law_utf8_has_no_terminator(rest, i - n);
        assert(rest[i - n] == bytes[i]);
    }
}

/// Calls [`core::str::from_utf8`], which accepts exactly the bytes that are UTF-8
/// and returns them as text.
#[verifier::external_body]
fn str_from_utf8(bytes: &[u8]) -> (r: Option<&str>)
    ensures
        r is Some <==> valid_utf8(bytes@),
        r matches Some(text) ==> text.spec_bytes() == bytes@,
{
    core::str::from_utf8(bytes).ok()
}

/// Whether two slices hold the same bytes.
pub(crate) fn bytes_equal(a: &[u8], b: &[u8]) -> (r: bool)
    ensures
        r == (a@ == b@),
{
    if a.len() != b.len() {
        return false;
    }
    let mut i: usize = 0;
    while i < a.len()
        invariant
            i <= a@.len() == b@.len(),
            forall|j: int| 0 <= j < i ==> a@[j] == b@[j],
        decreases a@.len() - i,
    {
        if a[i] != b[i] {
            assert(a@[i as int] != b@[i as int]);
            return false;
        }
        i = i + 1;
    }
    assert(a@ =~= b@);
    true
}

impl Key for str {
    type Owned = String;

    open spec fn alignment() -> usize {
        1
    }

    open spec fn name() -> Seq<u8> {
        str_name()
    }

    open spec fn size_est() -> usize {
        512
    }

    open spec fn model(owned: String) -> Seq<char> {
        owned@
    }

    open spec fn stored(little: bool, key: Seq<char>) -> Seq<u8> {
        str_stored(key)
    }

    open spec fn decoded(little: bool, bytes: Seq<u8>) -> KeyRead<Seq<char>> {
        str_decoded(bytes)
    }

    proof fn law_align() {
    }

    proof fn law_prefix(little: bool, bytes: Seq<u8>, n: int) {
        let start = bytes.take(n);
        if exists|i: int| is_terminator(start, i) {
            let i = choose|i: int| is_terminator(start, i);
            assert(is_terminator(bytes, i)) by {
                assert forall|j: int| 0 <= j < i implies bytes[j] != 0xFF by {
                    assert(start[j] == bytes[j]);
                }
            }
            let e = choose|e: int| is_terminator(bytes, e);
            assert(e == i);
            assert(start.take(i) =~= bytes.take(i));
        } else if exists|i: int| is_terminator(bytes, i) {
            let e = choose|e: int| is_terminator(bytes, e);
            if e < n {
                assert(is_terminator(start, e)) by {
                    assert forall|j: int| 0 <= j < e implies start[j] != 0xFF by {
                        assert(start[j] == bytes[j]);
                    }
                }
            }
        }
    }

    proof fn law_stored(little: bool, key: Seq<char>, rest: Seq<u8>) {
        let text = encode_utf8(key);
        let bytes = str_stored(key) + rest;
        vstd::utf8::encode_utf8_valid_utf8(key);
        vstd::utf8::encode_utf8_decode_utf8(key);
        let end = text.len() as int;
        assert(is_terminator(bytes, end)) by {
            assert forall|j: int| 0 <= j < end implies bytes[j] != 0xFF by {
                law_utf8_has_no_terminator(text, j);
            }
        }
        let e = choose|e: int| is_terminator(bytes, e);
        assert(e == end);
        assert(bytes.take(end) =~= text);
    }

    fn align() -> (r: usize) {
        1
    }

    fn key_type() -> (r: [u8; 8]) {
        let name: [u8; 8] = [115, 116, 114, 0, 0, 0, 0, 0];
        assert(name@ =~= str_name());
        name
    }

    fn value_size_est() -> (r: usize) {
        512
    }

    fn slot(&self, phf: &Phf, order: &NativeOrder) -> (r: Option<u64>) {
        proof {
            use_type_invariant(phf);
        }
        get_str(phf, self)
    }

    fn parse(order: &NativeOrder, bytes: &[u8]) -> (r: KeyParse<String>) {
        let mut end: usize = 0;
        while end < bytes.len()
            invariant
                end <= bytes@.len(),
                forall|j: int| 0 <= j < end ==> bytes@[j] != 0xFF,
            decreases bytes@.len() - end,
        {
            if bytes[end] == 0xFF {
                assert(is_terminator(bytes@, end as int));
                let ghost e = choose|e: int| is_terminator(bytes@, e);
                assert(e == end);
                let text_bytes: &[u8] = vstd::slice::slice_subrange(bytes, 0, end);
                assert(text_bytes@ =~= bytes@.take(end as int));
                return match str_from_utf8(text_bytes) {
                    Some(text) => {
                        proof {
                            vstd::utf8::encode_utf8_decode_utf8(text@);
                        }
                        KeyParse::Done(text.to_owned(), end + 1)
                    },
                    None => KeyParse::Invalid,
                };
            }
            end = end + 1;
        }
        KeyParse::NeedMore
    }

    fn as_key(owned: &String) -> (r: &str) {
        owned.as_str()
    }

    fn to_owned_key(&self) -> (r: String) {
        self.to_owned()
    }

    fn is_key(&self, owned: &String) -> (r: bool) {
        proof {
            vstd::utf8::encode_utf8_decode_utf8(self@);
            vstd::utf8::encode_utf8_decode_utf8(owned@);
        }
        bytes_equal(self.as_bytes(), owned.as_str().as_bytes())
    }
}

/// The signed integer with the given bits.
pub open spec fn i64_from_bits(bits: nat) -> i64 {
    if bits < 0x8000_0000_0000_0000 {
        bits as i64
    } else {
        (bits - 0x1_0000_0000_0000_0000) as i64
    }
}

impl Key for i64 {
    type Owned = i64;

    open spec fn alignment() -> usize {
        8
    }

    open spec fn name() -> Seq<u8> {
        i64_name()
    }

    open spec fn size_est() -> usize {
        8
    }

    open spec fn model(owned: i64) -> i64 {
        owned
    }

    open spec fn stored(little: bool, key: i64) -> Seq<u8> {
        native_bytes(little, i64_bits(key), 8)
    }

    open spec fn decoded(little: bool, bytes: Seq<u8>) -> KeyRead<i64> {
        if bytes.len() < 8 {
            KeyRead::NeedMore
        } else {
            KeyRead::Done(i64_from_bits(native_value(little, bytes.take(8))), 8)
        }
    }

    proof fn law_align() {
    }

    proof fn law_prefix(little: bool, bytes: Seq<u8>, n: int) {
        if n >= 8 {
            assert(bytes.take(n).take(8) =~= bytes.take(8));
        }
    }

    proof fn law_stored(little: bool, key: i64, rest: Seq<u8>) {
        let stored = Self::stored(little, key);
        lemma_limits();
        law_native_round_trip(little, i64_bits(key), 8);
        assert((stored + rest).take(8) =~= stored);
    }

    fn align() -> (r: usize) {
        8
    }

    fn key_type() -> (r: [u8; 8]) {
        let name: [u8; 8] = [105, 54, 52, 0, 0, 0, 0, 0];
        assert(name@ =~= i64_name());
        name
    }

    fn value_size_est() -> (r: usize) {
        8
    }

    fn slot(&self, phf: &Phf, order: &NativeOrder) -> (r: Option<u64>) {
        proof {
            use_type_invariant(phf);
        }
        get_i64(phf, order, self)
    }

    fn parse(order: &NativeOrder, bytes: &[u8]) -> (r: KeyParse<i64>) {
        if bytes.len() < 8 {
            return KeyParse::NeedMore;
        }
        let stored: &[u8] = vstd::slice::slice_subrange(bytes, 0, 8);
        assert(stored@ =~= bytes@.take(8));
        let bits: u64 = order.decode_u64(stored);
        let key: i64 = if bits < 0x8000_0000_0000_0000 {
            bits as i64
        } else {
            (bits as i128 - 0x1_0000_0000_0000_0000) as i64
        };
        KeyParse::Done(key, 8)
    }

    fn as_key(owned: &i64) -> (r: &i64) {
        owned
    }

    fn to_owned_key(&self) -> (r: i64) {
        *self
    }

    fn is_key(&self, owned: &i64) -> (r: bool) {
        *self == *owned
    }
}

impl Key for u128 {
    type Owned = u128;

    open spec fn alignment() -> usize {
        16
    }

    open spec fn name() -> Seq<u8> {
        u128_name()
    }

    open spec fn size_est() -> usize {
        16
    }

    open spec fn model(owned: u128) -> u128 {
        owned
    }

    open spec fn stored(little: bool, key: u128) -> Seq<u8> {
        native_bytes(little, key as nat, 16)
    }

    open spec fn decoded(little: bool, bytes: Seq<u8>) -> KeyRead<u128> {
        if bytes.len() < 16 {
            KeyRead::NeedMore
        } else {
            KeyRead::Done(native_value(little, bytes.take(16)) as u128, 16)
        }
    }

    proof fn law_align() {
    }

    proof fn law_prefix(little: bool, bytes: Seq<u8>, n: int) {
        if n >= 16 {
            assert(bytes.take(n).take(16) =~= bytes.take(16));
        }
    }

    proof fn law_stored(little: bool, key: u128, rest: Seq<u8>) {
        let stored = Self::stored(little, key);
        lemma_limits();
        law_native_round_trip(little, key as nat, 16);
        assert((stored + rest).take(16) =~= stored);
    }

    fn align() -> (r: usize) {
        16
    }

    fn key_type() -> (r: [u8; 8]) {
        let name: [u8; 8] = [117, 49, 50, 56, 0, 0, 0, 0];
        assert(name@ =~= u128_name());
        name
    }

    fn value_size_est() -> (r: usize) {
        16
    }

    fn slot(&self, phf: &Phf, order: &NativeOrder) -> (r: Option<u64>) {
        proof {
            use_type_invariant(phf);
        }
        get_u128(phf, order, self)
    }

    fn parse(order: &NativeOrder, bytes: &[u8]) -> (r: KeyParse<u128>) {
        if bytes.len() < 16 {
            return KeyParse::NeedMore;
        }
        let stored: &[u8] = vstd::slice::slice_subrange(bytes, 0, 16);
        assert(stored@ =~= bytes@.take(16));
        KeyParse::Done(order.decode(stored), 16)
    }

    fn as_key(owned: &u128) -> (r: &u128) {
        owned
    }

    fn to_owned_key(&self) -> (r: u128) {
        *self
    }

    fn is_key(&self, owned: &u128) -> (r: bool) {
        *self == *owned
    }
}

/// How keys are named, aligned and stored, in numbers.
///
/// Text is stored as UTF-8 and `0xFF`. Integers are stored in 8 and 16 bytes, a negative
/// one as the number that is greater by 2 to the power of 64. Their entries start at
/// multiples of 8 and 16, those with text anywhere.
pub proof fn law_key_types(little: bool, text: Seq<char>, n: i64, id: u128)
    ensures
        <str as Key>::name() == seq![115u8, 116u8, 114u8, 0u8, 0u8, 0u8, 0u8, 0u8],
        <i64 as Key>::name() == seq![105u8, 54u8, 52u8, 0u8, 0u8, 0u8, 0u8, 0u8],
        <u128 as Key>::name() == seq![117u8, 49u8, 50u8, 56u8, 0u8, 0u8, 0u8, 0u8],
        <str as Key>::alignment() == 1,
        <i64 as Key>::alignment() == 8,
        <u128 as Key>::alignment() == 16,
        <str as Key>::size_est() == 512,
        <i64 as Key>::size_est() == 8,
        <u128 as Key>::size_est() == 16,
        <str as Key>::stored(little, text) == encode_utf8(text) + seq![0xFFu8],
        <i64 as Key>::stored(little, n).len() == 8,
        native_value(little, <i64 as Key>::stored(little, n)) == if n >= 0 {
            n as int
        } else {
            n + 0x1_0000_0000_0000_0000
        },
        <u128 as Key>::stored(little, id).len() == 16,
        native_value(little, <u128 as Key>::stored(little, id)) == id,
{
    lemma_limits();
    law_native_round_trip(little, i64_bits(n), 8);
    law_native_round_trip(little, id as nat, 16);
}

/// A key that was read stands for itself.
pub proof fn law_owned_keys(text: String, n: i64, id: u128)
    ensures
        <str as Key>::model(text) == text@,
        <i64 as Key>::model(n) == n,
        <u128 as Key>::model(id) == id,
{
}

/// Text is read up to the first `0xFF`, if what is in front of it is UTF-8, and more is
/// needed if there is none.
pub proof fn law_parse_str(order: NativeOrder, bytes: &[u8], r: KeyParse<String>, end: int)
    requires
        call_ensures(<str as Key>::parse, (&order, bytes), r),
        0 <= end <= bytes@.len(),
        forall|j: int| 0 <= j < end ==> bytes@[j] != 0xFF,
    ensures
        end == bytes@.len() ==> r is NeedMore,
        end < bytes@.len() && bytes@[end] == 0xFF ==> if valid_utf8(bytes@.take(end)) {
            r matches KeyParse::Done(text, used) && encode_utf8(text@) == bytes@.take(end) && used
                == end + 1
        } else {
            r is Invalid
        },
{
    if end < bytes@.len() && bytes@[end] == 0xFF {
        assert(is_terminator(bytes@, end));
        let e = choose|e: int| is_terminator(bytes@, e);
        assert(e == end);
        if valid_utf8(bytes@.take(end)) {
            vstd::utf8::decode_utf8_encode_utf8(bytes@.take(end));
        }
    } else if end == bytes@.len() {
        assert forall|i: int| !is_terminator(bytes@, i) by {}
    }
}

/// An integer is read from its first bytes, as soon as they are there.
pub proof fn law_parse_integers(
    order: NativeOrder,
    bytes: &[u8],
    r: KeyParse<i64>,
    r2: KeyParse<u128>,
)
    requires
        call_ensures(<i64 as Key>::parse, (&order, bytes), r),
        call_ensures(<u128 as Key>::parse, (&order, bytes), r2),
    ensures
        bytes@.len() < 8 ==> r is NeedMore,
        bytes@.len() >= 8 ==> (r matches KeyParse::Done(n, used) && used == 8 && native_value(
            order.is_little(),
            bytes@.take(8),
        ) == if n >= 0 {
            n as int
        } else {
            n + 0x1_0000_0000_0000_0000
        }),
        bytes@.len() < 16 ==> r2 is NeedMore,
        bytes@.len() >= 16 ==> (r2 matches KeyParse::Done(id, used) && used == 16 && native_value(
            order.is_little(),
            bytes@.take(16),
        ) == id),
{
    lemma_limits();
    if bytes@.len() >= 8 {
        law_native_inverse(order.is_little(), bytes@.take(8));
    }
    if bytes@.len() >= 16 {
        law_native_inverse(order.is_little(), bytes@.take(16));
    }
}

} // verus!

//! Entries of a map file: a key with its values.
//!
//! An entry is laid out as follows, counted from its start.
//!
//! | key              | padding to 4 | number of values | padding    | values        |
//! |------------------|--------------|------------------|------------|---------------|
//! | [`Key::stored`]  | `u8[]`       | `u32`            | `u8[]`     | `V[]`         |
//!
//! The number of values and the padding behind it together take a multiple of
//! the size of a value. Between two entries there is padding such that each entry
//! starts at a multiple of [`Key::alignment`], counted from the first one.

use crate::bytes::{law_native_round_trip, lemma_limits, native_bytes, native_value, NativeOrder};
use crate::key::{Key, KeyParse, KeyRead};
use crate::value::Value;
use vstd::arithmetic::power::pow;
use vstd::prelude::*;

verus! {

/// The number of bytes that the number of values takes.
pub const VALUES_LEN_SIZE: usize = 4;

/// The number of values that a read of a whole entry makes room for at first.
pub const VALUES_COUNT_EST: usize = 16;

/// The least multiple of `unit` that is no less than `n`.
pub open spec fn round_up(n: int, unit: int) -> int {
    ((n + unit - 1) / unit) * unit
}

pub(crate) proof fn lemma_round_up(n: int, unit: int)
    requires
        0 <= n,
        0 < unit,
    ensures
        n <= round_up(n, unit) < n + unit,
        round_up(n, unit) % unit == 0,
        n % unit == 0 ==> round_up(n, unit) == n,
{
    let q = (n + unit - 1) / unit;
    let r = (n + unit - 1) % unit;
    vstd::arithmetic::div_mod::lemma_fundamental_div_mod(n + unit - 1, unit);
    assert(q * unit == unit * q) by (nonlinear_arith);
    vstd::arithmetic::div_mod::lemma_mod_multiples_basic(q, unit);
    if n % unit == 0 {
        vstd::arithmetic::div_mod::lemma_fundamental_div_mod(n, unit);
        let m = n / unit;
        assert(n == m * unit) by (nonlinear_arith)
            requires
                n == unit * m,
        ;
        assert(n + unit - 1 == m * unit + (unit - 1));
        vstd::arithmetic::div_mod::lemma_fundamental_div_mod_converse(
            n + unit - 1,
            unit,
            m,
            unit - 1,
        );
    }
}

/// Which fields of an entry are wanted.
#[derive(Clone, Copy, Debug, PartialEq, Eq, Structural)]
pub enum PartialEntryKind {
    /// The key.
    KeyOnly,
    /// The key and the number of values.
    KeyAndValuesLen,
    /// The key and the values.
    KeyAndValues,
}

/// What the start of some bytes says of an entry.
#[verifier::ext_equal]
pub ghost enum EntryRead<M, V> {
    /// The bytes end inside the key.
    Incomplete,
    /// The bytes do not start with a key.
    Invalid,
    /// The bytes end before the number of values does.
    KeyOnly(M),
    /// The bytes end before the values do.
    KeyAndValuesLen(M, nat),
    /// The entry is there, and ends at the given position.
    KeyAndValues(M, Seq<V>, nat),
}

impl<M, V> EntryRead<M, V> {
    pub open spec fn key(self) -> Option<M> {
        match self {
            EntryRead::KeyOnly(key) => Some(key),
            EntryRead::KeyAndValuesLen(key, _) => Some(key),
            EntryRead::KeyAndValues(key, _, _) => Some(key),
            _ => None,
        }
    }

    pub open spec fn values_len(self) -> Option<nat> {
        match self {
            EntryRead::KeyAndValuesLen(_, n) => Some(n),
            EntryRead::KeyAndValues(_, values, _) => Some(values.len()),
            _ => None,
        }
    }

    pub open spec fn values(self) -> Option<Seq<V>> {
        match self {
            EntryRead::KeyAndValues(_, values, _) => Some(values),
            _ => None,
        }
    }

    /// Whether the fields that `kind` wants are there.
    pub open spec fn satisfies(self, kind: PartialEntryKind) -> bool {
        match kind {
            PartialEntryKind::KeyOnly => self.key() is Some,
            PartialEntryKind::KeyAndValuesLen => self.values_len() is Some,
            PartialEntryKind::KeyAndValues => self.values() is Some,
        }
    }

    /// The fields that `kind` wants, and no others.
    pub open spec fn restrict(self, kind: PartialEntryKind) -> EntryRead<M, V> {
        match kind {
            PartialEntryKind::KeyOnly => EntryRead::KeyOnly(self.key()->0),
            PartialEntryKind::KeyAndValuesLen => EntryRead::KeyAndValuesLen(
                self.key()->0,
                self.values_len()->0,
            ),
            PartialEntryKind::KeyAndValues => self,
        }
    }

    /// The same with an entry that ends `n` bytes later.
    pub open spec fn shift(self, n: nat) -> EntryRead<M, V> {
        match self {
            EntryRead::KeyAndValues(key, values, end) => EntryRead::KeyAndValues(
                key,
                values,
                end + n,
            ),
            other => other,
        }
    }
}

/// Where the number of values stands behind a key of `used` bytes.
pub open spec fn len_pos(used: nat) -> int {
    round_up(used as int, VALUES_LEN_SIZE as int)
}

/// Where the values stand behind a key of `used` bytes.
pub open spec fn values_pos<V: Value>(used: nat) -> int {
    len_pos(used) + round_up(VALUES_LEN_SIZE as int, V::size() as int)
}

/// The `n` values that start at `pos`.
pub open spec fn values_at<V: Value>(little: bool, bytes: Seq<u8>, pos: int, n: nat) -> Seq<V> {
    Seq::new(
        n,
        |i: int| V::decoded(little, bytes.subrange(pos + i * V::size(), pos + i * V::size() + V::size())),
    )
}

/// The entry at the start of `bytes`.
pub open spec fn entry_read<K: Key + ?Sized, V: Value>(little: bool, bytes: Seq<u8>) -> EntryRead<
    K::V,
    V,
> {
    match K::decoded(little, bytes) {
        KeyRead::NeedMore => EntryRead::Incomplete,
        KeyRead::Invalid => EntryRead::Invalid,
        KeyRead::Done(key, used) => {
            let at = len_pos(used);
            if bytes.len() < at + VALUES_LEN_SIZE {
                EntryRead::KeyOnly(key)
            } else {
                let n = native_value(little, bytes.subrange(at, at + VALUES_LEN_SIZE));
                let end = values_pos::<V>(used) + n * V::size();
                if bytes.len() < end {
                    EntryRead::KeyAndValuesLen(key, n)
                } else {
                    EntryRead::KeyAndValues(
                        key,
                        values_at(little, bytes, values_pos::<V>(used), n),
                        end as nat,
                    )
                }
            }
        },
    }
}

/// The bytes of padding in front of an entry behind the position `start`.
pub open spec fn padding_at<K: Key + ?Sized>(start: int) -> int {
    round_up(start, K::alignment() as int) - start
}

/// The first entry of `bytes`, which stand at the position `start`, behind the
/// padding in front of it.
pub open spec fn entry_read_at<K: Key + ?Sized, V: Value>(
    little: bool,
    start: int,
    bytes: Seq<u8>,
) -> EntryRead<K::V, V> {
    let padding = padding_at::<K>(start);
    if bytes.len() < padding {
        EntryRead::Incomplete
    } else {
        entry_read::<K, V>(little, bytes.skip(padding)).shift(padding as nat)
    }
}

proof fn lemma_value_layout<V: Value>(used: nat)
    ensures
        V::size() > 0,
        used <= len_pos(used) < used + 4,
        len_pos(used) + 4 <= values_pos::<V>(used) < len_pos(used) + 4 + V::size(),
{
    V::law_size();
    lemma_round_up(used as int, 4);
    lemma_round_up(4, V::size() as int);
}

/// The number of values stands behind a key at the next multiple of 4.
pub proof fn law_len_pos(used: nat)
    ensures
        len_pos(used) % 4 == 0,
        used <= len_pos(used) < used + 4,
{
    lemma_round_up(used as int, 4);
}

/// The values stand behind their number, which takes as many bytes with the padding behind
/// it as some values do: 4 bytes for values of 4, 8 for values of 8, 16 for values
/// of 16, and in general the least multiple of their size that is no less than 4.
pub proof fn law_values_pos<V: Value>(used: nat)
    ensures
        ({
            let head = values_pos::<V>(used) - len_pos(used);
            &&& head % (V::size() as int) == 0
            &&& 4 <= head < 4 + V::size()
            &&& V::size() == 4 ==> values_pos::<V>(used) == 4 * ((used + 3) / 4) + 4
            &&& V::size() == 8 ==> values_pos::<V>(used) == 4 * ((used + 3) / 4) + 8
            &&& V::size() == 16 ==> values_pos::<V>(used) == 4 * ((used + 3) / 4) + 16
        }),
{
    V::law_size();
    lemma_round_up(used as int, 4);
    lemma_round_up(4, V::size() as int);
}

/// In front of an entry there is as much padding as brings it to the next multiple of the
/// alignment.
pub proof fn law_padding_at<K: Key + ?Sized>(start: int)
    requires
        0 <= start,
    ensures
        0 <= padding_at::<K>(start) < K::alignment(),
        (start + padding_at::<K>(start)) % (K::alignment() as int) == 0,
{
    K::law_align();
    lemma_round_up(start, K::alignment() as int);
}

/// What the first bytes of an entry say of it, the bytes behind them do not change, and
/// the bytes of the entry suffice.
pub proof fn law_entry_prefix<K: Key + ?Sized, V: Value>(little: bool, bytes: Seq<u8>, n: int)
    requires
        0 <= n <= bytes.len(),
    ensures
        ({
            let part = entry_read::<K, V>(little, bytes.take(n));
            let whole = entry_read::<K, V>(little, bytes);
            &&& part is Invalid ==> whole is Invalid
            &&& part.key() is Some ==> whole.key() == part.key()
            &&& part.values_len() is Some ==> whole.values_len() == part.values_len()
            &&& part is KeyAndValues ==> whole == part
            &&& whole matches EntryRead::KeyAndValues(_, _, end) ==> 4 <= end <= bytes.len() && (end
                <= n ==> part == whole)
        }),
{
    let start = bytes.take(n);
    K::law_prefix(little, bytes, n);
    if let KeyRead::Done(key, used) = K::decoded(little, bytes) {
        lemma_value_layout::<V>(used);
        let at = len_pos(used);
        if bytes.len() >= at + 4 {
            let count = native_value(little, bytes.subrange(at, at + 4));
            assert(count * V::size() >= 0) by (nonlinear_arith);
        }
    }
    if let KeyRead::Done(key, used) = K::decoded(little, start) {
        lemma_value_layout::<V>(used);
        let at = len_pos(used);
        if n >= at + 4 {
            assert(start.subrange(at, at + 4) =~= bytes.subrange(at, at + 4));
            let count = native_value(little, bytes.subrange(at, at + 4));
            let pos = values_pos::<V>(used);
            if n >= pos + count * V::size() {
                assert forall|i: int| 0 <= i < count implies #[trigger] start.subrange(
                    pos + i * V::size(),
                    pos + i * V::size() + V::size(),
                ) == bytes.subrange(pos + i * V::size(), pos + i * V::size() + V::size()) by {
                    lemma_item_bounds(i, count as int, V::size() as int);
                    assert(start.subrange(pos + i * V::size(), pos + i * V::size() + V::size())
                        =~= bytes.subrange(pos + i * V::size(), pos + i * V::size() + V::size()));
                }
                assert(values_at::<V>(little, start, pos, count) =~= values_at::<V>(
                    little,
                    bytes,
                    pos,
                    count,
                ));
            }
        }
    }
}

proof fn lemma_item_bounds(i: int, n: int, size: int)
    requires
        0 <= i < n,
        0 < size,
    ensures
        0 <= i * size,
        i * size + size <= n * size,
{
    assert(0 <= i * size && i * size + size <= n * size) by (nonlinear_arith)
        requires
            0 <= i < n,
            0 < size,
    ;
}

/// The same of an entry behind its padding.
pub proof fn law_entry_at_prefix<K: Key + ?Sized, V: Value>(
    little: bool,
    start: int,
    bytes: Seq<u8>,
    n: int,
)
    requires
        0 <= start,
        0 <= n <= bytes.len(),
    ensures
        ({
            let part = entry_read_at::<K, V>(little, start, bytes.take(n));
            let whole = entry_read_at::<K, V>(little, start, bytes);
            &&& part is Invalid ==> whole is Invalid
            &&& part is KeyAndValues ==> whole == part
            &&& whole matches EntryRead::KeyAndValues(_, _, end) ==> 4 <= end <= bytes.len() && (end
                <= n ==> part == whole)
        }),
{
    K::law_align();
    lemma_round_up(start, K::alignment() as int);
    let padding = padding_at::<K>(start);
    if padding <= bytes.len() {
        if padding <= n {
            assert(bytes.take(n).skip(padding) =~= bytes.skip(padding).take(n - padding));
            law_entry_prefix::<K, V>(little, bytes.skip(padding), n - padding);
        } else {
            law_entry_prefix::<K, V>(little, bytes.skip(padding), 0);
        }
    }
}

/// The stored form of values, one behind the other.
pub open spec fn values_bytes<V: Value>(little: bool, values: Seq<V>) -> Seq<u8>
    decreases values.len(),
{
    if values.len() == 0 {
        Seq::empty()
    } else {
        values_bytes(little, values.drop_last()) + V::stored(little, values.last())
    }
}

/// `n` bytes of padding.
pub open spec fn zeros(n: int) -> Seq<u8> {
    Seq::new(n as nat, |i: int| 0u8)
}

/// The stored form of an entry.
#[verifier::opaque]
pub open spec fn entry_bytes<K: Key + ?Sized, V: Value>(
    little: bool,
    key: K::V,
    values: Seq<V>,
) -> Seq<u8> {
    let stored = K::stored(little, key);
    let at = len_pos(stored.len());
    stored + zeros(at - stored.len()) + native_bytes(little, values.len(), VALUES_LEN_SIZE as nat)
        + zeros(values_pos::<V>(stored.len()) - at - VALUES_LEN_SIZE) + values_bytes(little, values)
}

proof fn lemma_values_bytes<V: Value>(little: bool, values: Seq<V>, i: int)
    ensures
        values_bytes(little, values).len() == values.len() * V::size(),
        0 <= i < values.len() ==> {
            &&& 0 <= i * V::size()
            &&& i * V::size() + V::size() <= values.len() * V::size()
            &&& values_bytes(little, values).subrange(i * V::size(), i * V::size() + V::size())
                == V::stored(little, values[i])
        },
    decreases values.len(),
{
    V::law_size();
    if values.len() > 0 {
        let rest = values.drop_last();
        let n = values.len() as int;
        V::law_stored(little, values.last());
        lemma_values_bytes(little, rest, i);
        assert((n - 1) * V::size() + V::size() == n * V::size()) by (nonlinear_arith);
        if 0 <= i < n {
            lemma_item_bounds(i, n, V::size() as int);
            let all = values_bytes(little, values);
            if i < n - 1 {
                lemma_item_bounds(i, n - 1, V::size() as int);
                assert(all.subrange(i * V::size(), i * V::size() + V::size()) =~= values_bytes(
                    little,
                    rest,
                ).subrange(i * V::size(), i * V::size() + V::size()));
            } else {
                assert(all.subrange(i * V::size(), i * V::size() + V::size()) =~= V::stored(
                    little,
                    values[i],
                ));
            }
        }
    }
}

/// An entry is read back from its stored form, whatever follows it.
pub proof fn law_entry_stored<K: Key + ?Sized, V: Value>(
    little: bool,
    key: K::V,
    values: Seq<V>,
    rest: Seq<u8>,
)
    requires
        values.len() <= u32::MAX,
    ensures
        entry_read::<K, V>(little, entry_bytes::<K, V>(little, key, values) + rest)
            == EntryRead::<K::V, V>::KeyAndValues(
            key,
            values,
            entry_bytes::<K, V>(little, key, values).len(),
        ),
        entry_bytes::<K, V>(little, key, values).len() >= 4,
{
    reveal(entry_bytes);
    let stored = K::stored(little, key);
    let used = stored.len();
    let at = len_pos(used);
    let pos = values_pos::<V>(used);
    let count = native_bytes(little, values.len(), 4);
    let data = values_bytes(little, values);
    let entry = entry_bytes::<K, V>(little, key, values);
    let bytes = entry + rest;
    lemma_value_layout::<V>(used);
    lemma_limits();
    law_native_round_trip(little, values.len(), 4);
    lemma_values_bytes(little, values, 0);
    assert(bytes =~= stored + (zeros(at - used) + count + zeros(pos - at - 4) + data + rest));
    K::law_stored(little, key, zeros(at - used) + count + zeros(pos - at - 4) + data + rest);
    assert(bytes.subrange(at, at + 4) =~= count);
    assert(values_at::<V>(little, bytes, pos, values.len()) =~= values) by {
        assert forall|i: int| 0 <= i < values.len() implies V::decoded(
            little,
            #[trigger] bytes.subrange(pos + i * V::size(), pos + i * V::size() + V::size()),
        ) == values[i] by {
            lemma_values_bytes(little, values, i);
            V::law_stored(little, values[i]);
            assert(bytes.subrange(pos + i * V::size(), pos + i * V::size() + V::size())
                =~= data.subrange(i * V::size(), i * V::size() + V::size()));
        }
    }
}

/// The least power of two that is no less than `n`.
pub open spec fn next_power_of_two(n: nat) -> nat
    decreases n,
{
    if n <= 1 {
        1
    } else {
        2 * next_power_of_two((n + 1) / 2)
    }
}

pub(crate) proof fn lemma_next_power_of_two(n: nat)
    ensures
        n <= next_power_of_two(n),
        n >= 2 ==> next_power_of_two(n) <= 2 * n - 2,
    decreases n,
{
    if n > 1 {
        lemma_next_power_of_two((n + 1) / 2);
    }
}

/// What a read grows to is a power of two that is less than twice what is asked for.
pub proof fn law_next_power_of_two(n: nat)
    requires
        n > 0,
    ensures
        n <= next_power_of_two(n) < 2 * n,
        exists|k: nat| next_power_of_two(n) == #[trigger] pow(2, k),
    decreases n,
{
    reveal(pow);
    if n == 1 {
        assert(pow(2, 0) == 1);
    } else {
        law_next_power_of_two((n + 1) / 2);
        let k = choose|k: nat| next_power_of_two((n + 1) / 2) == #[trigger] pow(2, k);
        assert(pow(2, k + 1) == 2 * pow(2, k));
        lemma_next_power_of_two(n);
    }
}

fn power_of_two_from(n: u64) -> (r: u64)
    requires
        n <= 0x8000_0000_0000_0000,
    ensures
        r == next_power_of_two(n as nat),
    decreases n,
{
    if n <= 1 {
        1
    } else {
        let half: u64 = n / 2 + n % 2;
        proof {
            lemma_next_power_of_two(n as nat);
            assert(half == (n + 1) / 2);
        }
        2 * power_of_two_from(half)
    }
}

/// How many bytes of an entry to have read next, when `len` bytes were not enough:
/// the next power of two, or at least about a key.
pub open spec fn grown_len<K: Key + ?Sized>(len: nat) -> u64 {
    let power = if len < 0x8000_0000_0000_0000 {
        next_power_of_two(len + 1)
    } else {
        u64::MAX as nat
    };
    if power < K::size_est() {
        K::size_est() as u64
    } else {
        power as u64
    }
}

/// Each follow-up read of an entry asks for more than what is there.
pub proof fn law_grown_len<K: Key + ?Sized>(len: nat)
    requires
        len < u64::MAX,
    ensures
        grown_len::<K>(len) > len,
{
    K::law_align();
    lemma_next_power_of_two(len + 1);
}

/// See [`grown_len`].
pub(crate) fn grow<K: Key + ?Sized>(len: usize) -> (r: u64)
    ensures
        r == grown_len::<K>(len as nat),
        r > len || r == u64::MAX,
{
    proof {
        K::law_align();
        lemma_next_power_of_two((len + 1) as nat);
    }
    let power: u64 = if (len as u64) < 0x8000_0000_0000_0000 {
        power_of_two_from(len as u64 + 1)
    } else {
        u64::MAX
    };
    let least: u64 = K::value_size_est() as u64;
    if power < least {
        least
    } else {
        power
    }
}

/// About how many bytes of an entry hold the fields that `kind` wants.
pub open spec fn estimated_size<K: Key + ?Sized, V: Value>(kind: PartialEntryKind) -> u64 {
    let key = len_pos(K::size_est() as nat);
    let size = match kind {
        PartialEntryKind::KeyOnly => K::size_est() as int,
        PartialEntryKind::KeyAndValuesLen => key + VALUES_LEN_SIZE,
        PartialEntryKind::KeyAndValues => values_pos::<V>(K::size_est() as nat) + VALUES_COUNT_EST
            * V::size(),
    };
    if size <= u64::MAX {
        size as u64
    } else {
        u64::MAX
    }
}

/// The first read of an entry asks for about a key, then for the number of values behind
/// it, and then for sixteen values behind that.
pub proof fn law_estimated_size<K: Key + ?Sized, V: Value>()
    ensures
        estimated_size::<K, V>(PartialEntryKind::KeyOnly) == K::size_est(),
        estimated_size::<K, V>(PartialEntryKind::KeyAndValuesLen) == 4 * ((K::size_est() as int + 3)
            / 4) + 4,
        V::size() <= 0x1_0000 ==> estimated_size::<K, V>(PartialEntryKind::KeyAndValues)
            >= estimated_size::<K, V>(PartialEntryKind::KeyAndValuesLen) + 16 * V::size(),
        V::size() <= 0x1_0000 ==> estimated_size::<K, V>(PartialEntryKind::KeyAndValues)
            < estimated_size::<K, V>(PartialEntryKind::KeyAndValuesLen) + 17 * V::size(),
{
    K::law_align();
    V::law_size();
    lemma_round_up(K::size_est() as int, 4);
    lemma_round_up(4, V::size() as int);
}

pub(crate) proof fn lemma_estimated_size<K: Key + ?Sized, V: Value>(kind: PartialEntryKind)
    ensures
        estimated_size::<K, V>(kind) > 0,
{
    K::law_align();
    V::law_size();
    lemma_round_up(K::size_est() as int, 4);
    lemma_round_up(4, V::size() as int);
}

/// See [`round_up`].
fn next_multiple(n: u128, unit: u128) -> (r: u128)
    requires
        n <= u64::MAX,
        0 < unit <= u64::MAX,
    ensures
        r == round_up(n as int, unit as int),
        n <= r < n + unit,
{
    proof {
        lemma_round_up(n as int, unit as int);
    }
    (n + (unit - 1)) / unit * unit
}

impl PartialEntryKind {
    /// About how many bytes of an entry hold the fields that are wanted.
    pub fn estimated_size<K: Key + ?Sized, V: Value>(self) -> (r: u64)
        ensures
            r == estimated_size::<K, V>(self),
            r > 0,
    {
        proof {
            K::law_align();
            V::law_size();
            lemma_round_up(K::size_est() as int, 4);
            lemma_round_up(4, V::size() as int);
        }
        let key: u128 = K::value_size_est() as u128;
        let len_at: u128 = next_multiple(key, VALUES_LEN_SIZE as u128);
        let size: u128 = match self {
            PartialEntryKind::KeyOnly => key,
            PartialEntryKind::KeyAndValuesLen => len_at + VALUES_LEN_SIZE as u128,
            PartialEntryKind::KeyAndValues => {
                let value: u128 = V::byte_size() as u128;
                len_at + next_multiple(VALUES_LEN_SIZE as u128, value) + VALUES_COUNT_EST as u128
                    * value
            },
        };
        if size <= u64::MAX as u128 {
            size as u64
        } else {
            u64::MAX
        }
    }
}

/// An entry, or as much of it as was read.
pub enum PartialEntry<K: Key + ?Sized, V: Value> {
    /// Not even the key.
    Incomplete,
    /// The key.
    KeyOnly(K::Owned),
    /// The key and the number of values.
    KeyAndValuesLen(K::Owned, u32),
    /// The key, the values, and the position behind the entry.
    KeyAndValues(K::Owned, Vec<V>, usize),
}

/// The bytes of an entry do not start with a key.
#[derive(Debug)]
pub struct InvalidKey;

impl<K: Key + ?Sized, V: Value> PartialEntry<K, V> {
    /// What is known of the entry.
    pub open spec fn model(self) -> EntryRead<K::V, V> {
        match self {
            PartialEntry::Incomplete => EntryRead::Incomplete,
            PartialEntry::KeyOnly(key) => EntryRead::KeyOnly(K::model(key)),
            PartialEntry::KeyAndValuesLen(key, n) => EntryRead::KeyAndValuesLen(
                K::model(key),
                n as nat,
            ),
            PartialEntry::KeyAndValues(key, values, end) => EntryRead::KeyAndValues(
                K::model(key),
                values@,
                end as nat,
            ),
        }
    }

    /// Reads as much as there is of the first entry of `bytes`, which stand at the
    /// position `start`, counted from the first entry.
    pub fn parse(order: &NativeOrder, start: usize, bytes: &[u8]) -> (r: Result<Self, InvalidKey>)
        ensures
            match r {
                Ok(entry) => entry.model() == entry_read_at::<K, V>(
                    order.is_little(),
                    start as int,
                    bytes@,
                ) && !(entry.model() is Invalid),
                Err(_) => entry_read_at::<K, V>(order.is_little(), start as int, bytes@) is Invalid,
            },
    {
        let align: usize = K::align();
        proof {
            K::law_align();
            lemma_round_up(start as int, align as int);
        }
        let rem: usize = start % align;
        let padding: usize = if rem == 0 {
            0
        } else {
            align - rem
        };
        assert(padding == padding_at::<K>(start as int)) by {
            lemma_padding(start as int, align as int);
        }
        if bytes.len() < padding {
            return Ok(PartialEntry::Incomplete);
        }
        let rest: &[u8] = vstd::slice::slice_subrange(bytes, padding, bytes.len());
        assert(rest@ =~= bytes@.skip(padding as int));
        Self::parse_aligned(order, rest, padding)
    }

    /// Reads an entry behind `padding` bytes of padding.
    fn parse_aligned(order: &NativeOrder, bytes: &[u8], padding: usize) -> (r: Result<
        Self,
        InvalidKey,
    >)
        requires
            bytes@.len() + padding <= usize::MAX,
        ensures
            match r {
                Ok(entry) => entry.model() == entry_read::<K, V>(order.is_little(), bytes@).shift(
                    padding as nat,
                ) && !(entry.model() is Invalid),
                Err(_) => entry_read::<K, V>(order.is_little(), bytes@) is Invalid,
            },
    {
        let ghost little = order.is_little();
        let (key, used): (K::Owned, usize) = match K::parse(order, bytes) {
            KeyParse::NeedMore => {
                return Ok(PartialEntry::Incomplete);
            },
            KeyParse::Invalid => {
                return Err(InvalidKey);
            },
            KeyParse::Done(key, used) => (key, used),
        };
        let size: usize = V::byte_size();
        proof {
            K::law_prefix(little, bytes@, 0);
            lemma_value_layout::<V>(used as nat);
        }
        let len: u128 = bytes.len() as u128;
        let len_at: u128 = next_multiple(used as u128, VALUES_LEN_SIZE as u128);
        if len < len_at + VALUES_LEN_SIZE as u128 {
            return Ok(PartialEntry::KeyOnly(key));
        }
        let at: usize = len_at as usize;
        let count: u32 = order.decode_u32(
            vstd::slice::slice_subrange(bytes, at, at + VALUES_LEN_SIZE),
        );
        let values_start: u128 = len_at + next_multiple(VALUES_LEN_SIZE as u128, size as u128);
        assert(0 <= count * size <= 0xFFFF_FFFF * 0xFFFF_FFFF_FFFF_FFFF) by (nonlinear_arith)
            requires
                0 <= count <= 0xFFFF_FFFF,
                0 <= size <= 0xFFFF_FFFF_FFFF_FFFF,
        ;
        let values_end: u128 = values_start + count as u128 * size as u128;
        if len < values_end {
            return Ok(PartialEntry::KeyAndValuesLen(key, count));
        }
        let pos: usize = values_start as usize;
        let mut values: Vec<V> = Vec::new();
        let mut i: u32 = 0;
        let mut next: usize = pos;
        while i < count
            invariant
                i <= count,
                size == V::size() > 0,
                next == pos + i * size,
                pos + count * size <= bytes@.len() <= usize::MAX,
                little == order.is_little(),
                values@ =~= values_at::<V>(little, bytes@, pos as int, i as nat),
            decreases count - i,
        {
            proof {
                lemma_item_bounds(i as int, count as int, size as int);
                assert((i + 1) * size == i * size + size) by (nonlinear_arith);
            }
            values.push(V::parse(order, vstd::slice::slice_subrange(bytes, next, next + size)));
            next = next + size;
            i = i + 1;
        }
        Ok(PartialEntry::KeyAndValues(key, values, values_end as usize + padding))
    }

    /// The key, if it was read.
    pub fn key(&self) -> (r: Option<&K>)
        ensures
            match (r, self.model().key()) {
                (Some(key), Some(model)) => key@ == model,
                (None, None) => true,
                _ => false,
            },
    {
        match self {
            PartialEntry::Incomplete => None,
            PartialEntry::KeyOnly(key) => Some(K::as_key(key)),
            PartialEntry::KeyAndValuesLen(key, _) => Some(K::as_key(key)),
            PartialEntry::KeyAndValues(key, _, _) => Some(K::as_key(key)),
        }
    }

    /// Whether the key was read and is another one than `wanted`.
    pub fn has_other_key(&self, wanted: &K) -> (r: bool)
        ensures
            r == (self.model().key() matches Some(key) && key != wanted@),
    {
        match self {
            PartialEntry::Incomplete => false,
            PartialEntry::KeyOnly(key) => !wanted.is_key(key),
            PartialEntry::KeyAndValuesLen(key, _) => !wanted.is_key(key),
            PartialEntry::KeyAndValues(key, _, _) => !wanted.is_key(key),
        }
    }

    /// The values, if they were read.
    pub fn values(self) -> (r: Option<Vec<V>>)
        ensures
            match (r, self.model().values()) {
                (Some(values), Some(model)) => values@ == model,
                (None, None) => true,
                _ => false,
            },
    {
        match self {
            PartialEntry::KeyAndValues(_, values, _) => Some(values),
            _ => None,
        }
    }

    /// The number of values, if it was read.
    pub fn values_len(&self) -> (r: Option<usize>)
        ensures
            match (r, self.model().values_len()) {
                (Some(n), Some(model)) => n == model,
                (None, None) => true,
                _ => false,
            },
    {
        match self {
            PartialEntry::KeyAndValuesLen(_, n) => Some(*n as usize),
            PartialEntry::KeyAndValues(_, values, _) => Some(values.len()),
            _ => None,
        }
    }

    /// Whether the fields that `kind` wants were read.
    pub fn satisfies_kind(&self, kind: PartialEntryKind) -> (r: bool)
        ensures
            r == self.model().satisfies(kind),
    {
        match self {
            PartialEntry::Incomplete => false,
            PartialEntry::KeyOnly(_) => kind == PartialEntryKind::KeyOnly,
            PartialEntry::KeyAndValuesLen(_, _) => kind != PartialEntryKind::KeyAndValues,
            PartialEntry::KeyAndValues(_, _, _) => true,
        }
    }
}

pub(crate) proof fn lemma_padding(start: int, align: int)
    requires
        0 <= start,
        0 < align,
    ensures
        start % align == 0 ==> round_up(start, align) == start,
        start % align != 0 ==> round_up(start, align) == start + align - start % align,
{
    lemma_round_up(start, align);
    let rem = start % align;
    if rem != 0 {
        let q = start / align;
        vstd::arithmetic::div_mod::lemma_fundamental_div_mod(start, align);
        vstd::arithmetic::div_mod::lemma_mod_bound(start, align);
        assert(start + align - 1 == (q + 1) * align + (rem - 1)) by (nonlinear_arith)
            requires
                start == align * q + rem,
        ;
        vstd::arithmetic::div_mod::lemma_fundamental_div_mod_converse(
            start + align - 1,
            align,
            q + 1,
            rem - 1,
        );
        assert((q + 1) * align == start + align - rem) by (nonlinear_arith)
            requires
                start == align * q + rem,
        ;
    }
}

/// What is known of an entry is told as it was read.
pub proof fn law_entry_fields<K: Key + ?Sized, V: Value>(
    entry: PartialEntry<K, V>,
    wanted: &K,
    kind: PartialEntryKind,
    key: Option<&K>,
    other: bool,
    count: Option<usize>,
    values: Option<Vec<V>>,
    enough: bool,
)
    requires
        call_ensures(PartialEntry::<K, V>::key, (&entry,), key),
        call_ensures(PartialEntry::<K, V>::has_other_key, (&entry, wanted), other),
        call_ensures(PartialEntry::<K, V>::values_len, (&entry,), count),
        call_ensures(PartialEntry::<K, V>::values, (entry,), values),
        call_ensures(PartialEntry::<K, V>::satisfies_kind, (&entry, kind), enough),
    ensures
        match entry {
            PartialEntry::Incomplete => key is None && !other && count is None && values is None
                && !enough,
            PartialEntry::KeyOnly(owned) => {
                &&& key matches Some(key) && key@ == K::model(owned)
                &&& other == (wanted@ != K::model(owned))
                &&& count is None && values is None
                &&& enough == (kind == PartialEntryKind::KeyOnly)
            },
            PartialEntry::KeyAndValuesLen(owned, n) => {
                &&& key matches Some(key) && key@ == K::model(owned)
                &&& other == (wanted@ != K::model(owned))
                &&& count == Some(n as usize) && values is None
                &&& enough == (kind != PartialEntryKind::KeyAndValues)
            },
            PartialEntry::KeyAndValues(owned, list, _) => {
                &&& key matches Some(key) && key@ == K::model(owned)
                &&& other == (wanted@ != K::model(owned))
                &&& count matches Some(n) && n == list@.len()
                &&& values matches Some(values) && values@ == list@
                &&& enough
            },
        },
{
}

} // verus!

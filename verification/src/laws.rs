//! What the operations on a map are for: what comes of the bytes of a file, position by
//! position.
//!
//! A file starts with the name of the key type in 8 bytes, the position of the bucket
//! table in 8 bytes, and the number of buckets in 8 bytes. From byte 24 on stands the
//! perfect hash function, from the given position on the bucket table with 8 bytes
//! to the bucket, and right behind it the entries. A bucket holds the distance of an
//! entry from the first one. An entry is a key of `n` bytes, the number of values in 4
//! bytes at the next multiple of 4, and values of `s` bytes each, the first of them at
//! the next multiple of `s` from the number of values on.

use crate::bytes::{law_native_inverse, lemma_limits, native_value, NativeOrder};
use crate::entry::{
    entry_read, entry_read_at, law_entry_prefix, len_pos, lemma_padding, lemma_round_up, padding_at,
    values_at, values_pos, EntryRead, InvalidKey, PartialEntry, PartialEntryKind,
};
use crate::format::{law_count_agrees, lemma_scan_one};
use crate::key::{Key, KeyParse, KeyRead};
use crate::lookup::{bucket_requests, key_requests};
use crate::model::{answer, entry_answer, scan_entries, MapModel, RequestModel};
use crate::phf::{law_phf_cut, law_phf_written, phf_table, vbyte_bytes};
use crate::scan::{first_numbers, is_converted_data_err, scan_position, scanned};
use crate::sparse::{
    answered, expected_args, is_corruption, is_selection, is_storage_failure, visits,
    visits_in_order,
};
use crate::sum::sum;
use crate::uio::{table_range, UniversalHashMap};
use crate::universal_io::{
    has_len, is_read_error, is_start_error, Access, ErrorKind, ReadRange, UniversalIoError,
    UniversalRead,
};
use crate::value::Value;
use crate::visit::{
    is_converted, is_storage_error, BatchVisitor, Delivery, EntryVisitor, KeyVisitor, ToBatch,
    ToKeys,
};
use vstd::prelude::*;

verus! {

/// An entry is read where it stands.
proof fn lemma_entry_at<K: Key + ?Sized, V: Value>(
    little: bool,
    bytes: Seq<u8>,
    key: K::V,
    values: Seq<V>,
)
    requires
        ({
            let n = K::stored(little, key).len();
            let s = V::size() as int;
            let count_at = 4 * ((n as int + 3) / 4);
            let first = count_at + s * ((s + 3) / s);
            &&& first + values.len() * s <= bytes.len()
            &&& bytes.subrange(0, n as int) == K::stored(little, key)
            &&& native_value(little, bytes.subrange(count_at, count_at + 4)) == values.len()
            &&& forall|j: int|
                0 <= j < values.len() ==> bytes.subrange(first + j * s, first + j * s + s)
                    == V::stored(little, #[trigger] values[j])
        }),
    ensures
        ({
            let n = K::stored(little, key).len();
            let s = V::size() as int;
            let count_at = 4 * ((n as int + 3) / 4);
            let first = count_at + s * ((s + 3) / s);
            entry_read::<K, V>(little, bytes) == EntryRead::<K::V, V>::KeyAndValues(
                key,
                values,
                (first + values.len() * s) as nat,
            )
        }),
{
    let stored = K::stored(little, key);
    let n = stored.len();
    let s = V::size() as int;
    let count_at = 4 * ((n as int + 3) / 4);
    let first = count_at + s * ((s + 3) / s);
    V::law_size();
    lemma_round_up(n as int, 4);
    lemma_round_up(4, s);
    assert(((4 + s - 1) / s) * s == s * ((s + 3) / s)) by (nonlinear_arith);
    assert(len_pos(n) == count_at);
    assert(values_pos::<V>(n) == first);
    assert(values.len() * s >= 0) by (nonlinear_arith)
        requires
            s > 0,
    ;
    let rest = bytes.skip(n as int);
    assert(bytes =~= stored + rest);
    K::law_stored(little, key, rest);
    assert(values_at::<V>(little, bytes, first, values.len()) =~= values) by {
        assert forall|j: int| 0 <= j < values.len() implies #[trigger] values_at::<V>(
            little,
            bytes,
            first,
            values.len(),
        )[j] == values[j] by {
            V::law_stored(little, values[j]);
        }
    }
}

/// What a file answers to a request for the entry of a key, where the number of values is
/// there, and where the values are.
proof fn lemma_answer<K: Key + ?Sized, V: Value>(
    m: MapModel,
    key: K::V,
    bucket: u64,
    offset: u64,
    kind: PartialEntryKind,
)
    requires
        m.slots.get((K::name(), K::stored(m.little, key))) == Some(bucket),
        m.buckets_pos + 8 * bucket + 8 <= m.file.len(),
        native_value(
            m.little,
            m.file.subrange(m.buckets_pos + 8 * bucket, m.buckets_pos + 8 * bucket + 8),
        ) == offset,
        m.buckets_pos + 8 * m.buckets_count + offset <= u64::MAX,
    ensures
        answer::<K, V>(m, kind, RequestModel::Key(key)) == entry_answer::<K, V>(
            m,
            kind,
            m.buckets_pos + 8 * m.buckets_count + offset,
            Some(key),
        ),
{
}

/// An entry is read where it stands in a file.
proof fn lemma_entry_in<K: Key + ?Sized, V: Value>(
    little: bool,
    file: Seq<u8>,
    at: int,
    key: K::V,
    values: Seq<V>,
)
    requires
        0 <= at,
        ({
            let n = K::stored(little, key).len();
            let s = V::size() as int;
            let count_at = at + 4 * ((n as int + 3) / 4);
            let first = count_at + s * ((s + 3) / s);
            &&& first + values.len() * s <= file.len()
            &&& file.subrange(at, at + n) == K::stored(little, key)
            &&& native_value(little, file.subrange(count_at, count_at + 4)) == values.len()
            &&& forall|j: int|
                0 <= j < values.len() ==> file.subrange(first + j * s, first + j * s + s)
                    == V::stored(little, #[trigger] values[j])
        }),
    ensures
        ({
            let n = K::stored(little, key).len();
            let s = V::size() as int;
            let end = 4 * ((n as int + 3) / 4) + s * ((s + 3) / s) + values.len() * s;
            &&& at + end <= file.len()
            &&& 4 <= end
            &&& entry_read::<K, V>(little, file.skip(at)) == EntryRead::<K::V, V>::KeyAndValues(
                key,
                values,
                end as nat,
            )
        }),
{
    let stored = K::stored(little, key);
    let n = stored.len();
    let s = V::size() as int;
    let count_at = 4 * ((n as int + 3) / 4);
    let first = count_at + s * ((s + 3) / s);
    let rest = file.skip(at);
    lemma_layout::<V>(n, values.len());
    assert(rest.subrange(0, n as int) =~= file.subrange(at, at + n));
    assert(rest.subrange(count_at, count_at + 4) =~= file.subrange(
        at + count_at,
        at + count_at + 4,
    ));
    assert forall|j: int| 0 <= j < values.len() implies rest.subrange(
        first + j * s,
        first + j * s + s,
    ) == V::stored(little, #[trigger] values[j]) by {
        lemma_value_place::<V>(values.len(), j);
        assert(rest.subrange(first + j * s, first + j * s + s) =~= file.subrange(
            at + first + j * s,
            at + first + j * s + s,
        ));
    }
    lemma_entry_at::<K, V>(little, rest, key, values);
}

/// The values of a key are found: the bucket that the perfect hash function gives for the
/// key leads to an entry with the key and the values. No error comes but from the
/// storage.
pub proof fn law_get_found<K: Key + ?Sized, V: Value, S: UniversalRead>(
    map: UniversalHashMap<K, V, S>,
    key: &K,
    bucket: u64,
    offset: u64,
    values: Seq<V>,
    r: Result<Option<Vec<V>>, UniversalIoError>,
)
    requires
        call_ensures(UniversalHashMap::<K, V, S>::get, (&map, key), r),
        ({
            let m = map.model();
            let stored = K::stored(m.little, key@);
            let bucket_at = m.buckets_pos + 8 * bucket;
            let at = m.buckets_pos + 8 * m.buckets_count + offset;
            let s = V::size() as int;
            let count_at = at + 4 * ((stored.len() as int + 3) / 4);
            let first = count_at + s * ((s + 3) / s);
            &&& m.slots.get((K::name(), stored)) == Some(bucket)
            &&& bucket_at + 8 <= m.file.len()
            &&& native_value(m.little, m.file.subrange(bucket_at, bucket_at + 8)) == offset
            &&& at <= u64::MAX
            &&& first + values.len() * s <= m.file.len()
            &&& m.file.subrange(at, at + stored.len()) == stored
            &&& native_value(m.little, m.file.subrange(count_at, count_at + 4)) == values.len()
            &&& forall|j: int|
                0 <= j < values.len() ==> m.file.subrange(first + j * s, first + j * s + s)
                    == V::stored(m.little, #[trigger] values[j])
        }),
    ensures
        match r {
            Ok(found) => found matches Some(list) && list@ == values,
            Err(e) => !S::infallible() && S::reports(e),
        },
{
    let m = map.model();
    let at = m.buckets_pos + 8 * m.buckets_count + offset;
    lemma_answer::<K, V>(m, key@, bucket, offset, PartialEntryKind::KeyAndValues);
    lemma_entry_in::<K, V>(m.little, m.file, at, key@, values);
}

/// The number of values of a key is found where the bucket of the key leads, whether or not
/// the file goes on behind that number. No error comes but from the storage.
pub proof fn law_count_found<K: Key + ?Sized, V: Value, S: UniversalRead>(
    map: UniversalHashMap<K, V, S>,
    key: &K,
    bucket: u64,
    offset: u64,
    count: nat,
    r: Result<Option<usize>, UniversalIoError>,
)
    requires
        call_ensures(UniversalHashMap::<K, V, S>::get_values_count, (&map, key), r),
        ({
            let m = map.model();
            let stored = K::stored(m.little, key@);
            let bucket_at = m.buckets_pos + 8 * bucket;
            let at = m.buckets_pos + 8 * m.buckets_count + offset;
            let count_at = at + 4 * ((stored.len() as int + 3) / 4);
            &&& m.slots.get((K::name(), stored)) == Some(bucket)
            &&& bucket_at + 8 <= m.file.len()
            &&& native_value(m.little, m.file.subrange(bucket_at, bucket_at + 8)) == offset
            &&& at <= u64::MAX
            &&& count_at + 4 <= m.file.len()
            &&& m.file.subrange(at, at + stored.len()) == stored
            &&& native_value(m.little, m.file.subrange(count_at, count_at + 4)) == count
        }),
    ensures
        match r {
            Ok(found) => found matches Some(n) && n == count,
            Err(e) => !S::infallible() && S::reports(e),
        },
{
    let m = map.model();
    let stored = K::stored(m.little, key@);
    let at = m.buckets_pos + 8 * m.buckets_count + offset;
    let count_at = 4 * ((stored.len() as int + 3) / 4);
    let rest = m.file.skip(at);
    lemma_answer::<K, V>(m, key@, bucket, offset, PartialEntryKind::KeyAndValuesLen);
    lemma_key_at::<K>(m.little, m.file, at, key@);
    lemma_round_up(stored.len() as int, 4);
    assert(len_pos(stored.len()) == count_at);
    assert(rest.subrange(count_at, count_at + 4) =~= m.file.subrange(
        at + count_at,
        at + count_at + 4,
    ));
}

/// A key is read where it stands in a file.
proof fn lemma_key_at<K: Key + ?Sized>(little: bool, file: Seq<u8>, at: int, key: K::V)
    requires
        0 <= at,
        at + K::stored(little, key).len() <= file.len(),
        file.subrange(at, at + K::stored(little, key).len()) == K::stored(little, key),
    ensures
        K::decoded(little, file.skip(at)) == KeyRead::Done(key, K::stored(little, key).len()),
{
    let stored = K::stored(little, key);
    let rest = file.skip(at + stored.len());
    assert(file.skip(at) =~= stored + rest);
    K::law_stored(little, key, rest);
}

/// A key is found to be absent for which the perfect hash function gives no bucket, and so
/// is one whose bucket leads to an entry with another key. No error comes but from
/// the storage.
pub proof fn law_get_absent_key<K: Key + ?Sized, V: Value, S: UniversalRead>(
    map: UniversalHashMap<K, V, S>,
    key: &K,
    other: K::V,
    bucket: u64,
    offset: u64,
    values: Result<Option<Vec<V>>, UniversalIoError>,
    count: Result<Option<usize>, UniversalIoError>,
)
    requires
        call_ensures(UniversalHashMap::<K, V, S>::get, (&map, key), values),
        call_ensures(UniversalHashMap::<K, V, S>::get_values_count, (&map, key), count),
        ({
            let m = map.model();
            let bucket_at = m.buckets_pos + 8 * bucket;
            let at = m.buckets_pos + 8 * m.buckets_count + offset;
            let stored = K::stored(m.little, other);
            ||| m.slots.get((K::name(), K::stored(m.little, key@))) is None && !m.open_ended
            ||| {
                &&& m.slots.get((K::name(), K::stored(m.little, key@))) == Some(bucket)
                &&& bucket_at + 8 <= m.file.len()
                &&& native_value(m.little, m.file.subrange(bucket_at, bucket_at + 8)) == offset
                &&& at <= u64::MAX
                &&& at + stored.len() <= m.file.len()
                &&& m.file.subrange(at, at + stored.len()) == stored
                &&& other != key@
            }
        }),
    ensures
        match values {
            Ok(found) => found is None,
            Err(e) => !S::infallible() && S::reports(e),
        },
        match count {
            Ok(found) => found is None,
            Err(e) => !S::infallible() && S::reports(e),
        },
{
    let m = map.model();
    if m.slots.get((K::name(), K::stored(m.little, key@))) is Some {
        let at = m.buckets_pos + 8 * m.buckets_count + offset;
        lemma_answer::<K, V>(m, key@, bucket, offset, PartialEntryKind::KeyAndValues);
        lemma_answer::<K, V>(m, key@, bucket, offset, PartialEntryKind::KeyAndValuesLen);
        lemma_key_at::<K>(m.little, m.file, at, other);
    }
}

/// A bucket that the file ends before is no absent key: it is bad data.
pub proof fn law_get_bucket_cut<K: Key + ?Sized, V: Value, S: UniversalRead>(
    map: UniversalHashMap<K, V, S>,
    key: &K,
    bucket: u64,
    values: Result<Option<Vec<V>>, UniversalIoError>,
    count: Result<Option<usize>, UniversalIoError>,
)
    requires
        call_ensures(UniversalHashMap::<K, V, S>::get, (&map, key), values),
        call_ensures(UniversalHashMap::<K, V, S>::get_values_count, (&map, key), count),
        map.model().slots.get((K::name(), K::stored(map.model().little, key@))) == Some(bucket),
        map.model().buckets_pos + 8 * bucket + 8 > map.model().file.len(),
    ensures
        values matches Err(UniversalIoError::Io(io)) && (S::infallible() ==> io.kind
            == ErrorKind::InvalidData && io.message@ == "Can't read bucket offset"@),
        count matches Err(UniversalIoError::Io(io)) && (S::infallible() ==> io.kind
            == ErrorKind::InvalidData && io.message@ == "Can't read bucket offset"@),
{
}

proof fn lemma_layout<V: Value>(n: nat, count: nat)
    ensures
        ({
            let s = V::size() as int;
            let count_at = 4 * ((n as int + 3) / 4);
            let first = count_at + s * ((s + 3) / s);
            &&& 0 < s
            &&& n <= count_at
            &&& count_at + 4 <= first
            &&& 0 <= count * s
        }),
{
    let s = V::size() as int;
    V::law_size();
    lemma_round_up(4, s);
    assert(((4 + s - 1) / s) * s == s * ((s + 3) / s)) by (nonlinear_arith);
    assert(count * s >= 0) by (nonlinear_arith)
        requires
            s > 0,
    ;
}

proof fn lemma_value_place<V: Value>(count: nat, j: int)
    requires
        0 <= j < count,
    ensures
        0 <= j * V::size(),
        j * V::size() + V::size() <= count * V::size(),
{
    let s = V::size() as int;
    assert(0 <= j * s && j * s + s <= count * s) by (nonlinear_arith)
        requires
            0 <= j < count,
            0 <= s,
    ;
}

/// What opening a file with a perfect hash function in its written form gives.
proof fn lemma_opened<K: Key + ?Sized, V: Value, S: UniversalRead>(
    little: bool,
    storage: S,
    buckets_pos: u64,
    buckets_count: u64,
    sizes: Seq<nat>,
    filled: nat,
    words: Seq<u8>,
    padding: Seq<u8>,
    r: Result<UniversalHashMap<K, V, S>, UniversalIoError>,
)
    requires
        UniversalHashMap::<K, V, S>::opens_as(little, storage, r),
        16 * sizes.len() <= usize::MAX,
        64 * sum(sizes) <= usize::MAX,
        words.len() == 8 * sum(sizes),
        filled <= sizes.len(),
        filled > 0 ==> sizes[filled - 1] > 0,
        forall|i: int| filled <= i < sizes.len() ==> #[trigger] sizes[i] == 0,
        24 <= buckets_pos <= storage.contents().len(),
        buckets_pos + 8 * buckets_count <= u64::MAX,
        storage.contents().subrange(0, 8) == K::name(),
        native_value(little, storage.contents().subrange(8, 16)) == buckets_pos,
        native_value(little, storage.contents().subrange(16, 24)) == buckets_count,
        storage.contents().subrange(24, buckets_pos as int) == vbyte_bytes(sizes.len(), 0)
            + sizes.map_values(|n: nat| vbyte_bytes(n, 0)).flatten() + words + padding,
    ensures
        match r {
            Ok(map) => {
                let kept = sizes.take(filled as int).map_values(
                    |n: nat| vbyte_bytes(n, 0),
                ).flatten();
                &&& map.source() == storage
                &&& map.model().file == storage.contents()
                &&& map.model().little == little
                &&& map.model().buckets_pos == buckets_pos
                &&& map.model().buckets_count == buckets_count
                &&& map.model().slots == phf_table(little, vbyte_bytes(filled, 0) + kept + words)
                &&& map.model().open_ended == (filled < sizes.len())
            },
            Err(e) => !S::infallible() && S::reports(e),
        },
{
    law_phf_written(sizes, filled, words, padding);
}

/// A map in its written form is opened, whatever the sizes of the levels of its perfect
/// hash function, and it is the map that was written. No error comes but from the
/// storage.
///
/// The perfect hash function is written as the number of its levels, the size of each,
/// and the words of all of them; padding follows. The number of its levels up to the
/// last one that is not empty is `filled`.
pub proof fn law_from_storage<K: Key + ?Sized, V: Value, S: UniversalRead>(
    order: NativeOrder,
    storage: S,
    buckets_pos: u64,
    buckets_count: u64,
    sizes: Seq<nat>,
    filled: nat,
    words: Seq<u8>,
    padding: Seq<u8>,
    r: Result<UniversalHashMap<K, V, S>, UniversalIoError>,
)
    requires
        call_ensures(UniversalHashMap::<K, V, S>::from_storage, (order, storage), r),
        16 * sizes.len() <= usize::MAX,
        64 * sum(sizes) <= usize::MAX,
        words.len() == 8 * sum(sizes),
        filled <= sizes.len(),
        filled > 0 ==> sizes[filled - 1] > 0,
        forall|i: int| filled <= i < sizes.len() ==> #[trigger] sizes[i] == 0,
        24 <= buckets_pos <= storage.contents().len(),
        buckets_pos + 8 * buckets_count <= u64::MAX,
        storage.contents().subrange(0, 8) == K::name(),
        native_value(order.is_little(), storage.contents().subrange(8, 16)) == buckets_pos,
        native_value(order.is_little(), storage.contents().subrange(16, 24)) == buckets_count,
        storage.contents().subrange(24, buckets_pos as int) == vbyte_bytes(sizes.len(), 0)
            + sizes.map_values(|n: nat| vbyte_bytes(n, 0)).flatten() + words + padding,
    ensures
        match r {
            Ok(map) => {
                let kept = sizes.take(filled as int).map_values(
                    |n: nat| vbyte_bytes(n, 0),
                ).flatten();
                &&& map.source() == storage
                &&& map.model().file == storage.contents()
                &&& map.model().little == order.is_little()
                &&& map.model().buckets_pos == buckets_pos
                &&& map.model().buckets_count == buckets_count
                &&& map.model().slots == phf_table(
                    order.is_little(),
                    vbyte_bytes(filled, 0) + kept + words,
                )
                &&& map.model().open_ended == (filled < sizes.len())
            },
            Err(e) => !S::infallible() && S::reports(e),
        },
{
    lemma_opened::<K, V, S>(
        order.is_little(),
        storage,
        buckets_pos,
        buckets_count,
        sizes,
        filled,
        words,
        padding,
        r,
    );
}

/// The same of a map that is opened by its name, on a machine that is little-endian iff
/// `little`.
pub proof fn law_open<K: Key + ?Sized, V: Value, S: UniversalRead>(
    path: S::Path,
    options: S::Options,
    little: bool,
    file: Seq<u8>,
    buckets_pos: u64,
    buckets_count: u64,
    sizes: Seq<nat>,
    filled: nat,
    words: Seq<u8>,
    padding: Seq<u8>,
    r: Result<UniversalHashMap<K, V, S>, UniversalIoError>,
)
    requires
        call_ensures(UniversalHashMap::<K, V, S>::open, (path, options), r),
        forall|order: NativeOrder| #[trigger] order.is_of_machine() ==> order.is_little() == little,
        forall|storage: S|
            call_ensures(S::open, (path, options), Ok::<S, UniversalIoError>(storage))
                ==> #[trigger] storage.contents() == file,
        16 * sizes.len() <= usize::MAX,
        64 * sum(sizes) <= usize::MAX,
        words.len() == 8 * sum(sizes),
        filled <= sizes.len(),
        filled > 0 ==> sizes[filled - 1] > 0,
        forall|i: int| filled <= i < sizes.len() ==> #[trigger] sizes[i] == 0,
        24 <= buckets_pos <= file.len(),
        buckets_pos + 8 * buckets_count <= u64::MAX,
        file.subrange(0, 8) == K::name(),
        native_value(little, file.subrange(8, 16)) == buckets_pos,
        native_value(little, file.subrange(16, 24)) == buckets_count,
        file.subrange(24, buckets_pos as int) == vbyte_bytes(sizes.len(), 0) + sizes.map_values(
            |n: nat| vbyte_bytes(n, 0),
        ).flatten() + words + padding,
    ensures
        match r {
            Ok(map) => {
                let kept = sizes.take(filled as int).map_values(
                    |n: nat| vbyte_bytes(n, 0),
                ).flatten();
                &&& call_ensures(
                    S::open,
                    (path, options),
                    Ok::<S, UniversalIoError>(map.source()),
                )
                &&& map.model().file == file
                &&& map.model().little == little
                &&& map.model().buckets_pos == buckets_pos
                &&& map.model().buckets_count == buckets_count
                &&& map.model().slots == phf_table(little, vbyte_bytes(filled, 0) + kept + words)
                &&& map.model().open_ended == (filled < sizes.len())
            },
            Err(e) => call_ensures(S::open, (path, options), Err::<S, UniversalIoError>(e)) || (
            !S::infallible() && S::reports(e)),
        },
{
    if !(r matches Err(e) && call_ensures(
        S::open,
        (path, options),
        Err::<S, UniversalIoError>(e),
    )) {
        let (storage, order) = choose|storage: S, order: NativeOrder|
            order.is_of_machine() && call_ensures(S::open, (path, options), Ok(storage))
                && #[trigger] UniversalHashMap::<K, V, S>::opens_as(order.is_little(), storage, r);
        assert(order.is_of_machine());
        assert(storage.contents() == file);
        lemma_opened::<K, V, S>(
            little,
            storage,
            buckets_pos,
            buckets_count,
            sizes,
            filled,
            words,
            padding,
            r,
        );
    }
}

/// A file that is no map with such keys is refused: one that ends inside the header, one
/// with another name of the key type, one whose bucket table overlaps the header, one
/// that ends before the bucket table, and one whose perfect hash function is cut off.
pub proof fn law_from_storage_refused<K: Key + ?Sized, V: Value, S: UniversalRead>(
    order: NativeOrder,
    storage: S,
    sizes: Seq<nat>,
    words: Seq<u8>,
    cut: int,
    r: Result<UniversalHashMap<K, V, S>, UniversalIoError>,
)
    requires
        call_ensures(UniversalHashMap::<K, V, S>::from_storage, (order, storage), r),
    ensures
        ({
            let file = storage.contents();
            let buckets_pos = native_value(order.is_little(), file.subrange(8, 16)) as int;
            let whole = vbyte_bytes(sizes.len(), 0) + sizes.map_values(
                |n: nat| vbyte_bytes(n, 0),
            ).flatten() + words;
            &&& file.len() < 24 ==> r is Err
            &&& file.len() >= 24 && file.subrange(0, 8) != K::name() ==> (r matches Err(
                UniversalIoError::Io(io),
            ) && (S::infallible() ==> io.kind == ErrorKind::InvalidData && io.message@
                == "Key type mismatch"@))
            &&& file.len() >= 24 && file.subrange(0, 8) == K::name() && buckets_pos < 24 ==> (
            r matches Err(UniversalIoError::Io(io)) && (S::infallible() ==> io.kind
                == ErrorKind::InvalidData && io.message@ == "buckets_pos before header end"@))
            &&& file.len() >= 24 && buckets_pos > file.len() ==> r is Err
            &&& file.len() >= 24 && file.subrange(0, 8) == K::name() && 24 <= buckets_pos
                <= file.len() && 16 * sizes.len() <= usize::MAX && 64 * sum(sizes) <= usize::MAX
                && words.len() == 8 * sum(sizes) && 0 <= cut < whole.len() && file.subrange(
                24,
                buckets_pos,
            ) == whole.take(cut) ==> (r matches Err(UniversalIoError::Io(io)) && (S::infallible()
                ==> io.kind == ErrorKind::UnexpectedEof))
        }),
{
    let file = storage.contents();
    let whole = vbyte_bytes(sizes.len(), 0) + sizes.map_values(
        |n: nat| vbyte_bytes(n, 0),
    ).flatten() + words;
    if 16 * sizes.len() <= usize::MAX && 64 * sum(sizes) <= usize::MAX && words.len() == 8 * sum(
        sizes,
    ) && 0 <= cut < whole.len() {
        law_phf_cut(sizes, words, cut);
    }
}

/// The number of keys is the number of buckets.
pub proof fn law_keys_count<K: Key + ?Sized, V: Value, S: UniversalRead>(
    map: UniversalHashMap<K, V, S>,
    n: usize,
)
    requires
        call_ensures(UniversalHashMap::<K, V, S>::keys_count, (&map,), n),
        map.model().buckets_count <= usize::MAX,
    ensures
        n == map.model().buckets_count,
{
}

/// Whether a visitor was told each of `expected` once, in some order, up to the first call
/// that failed; and whether that can have ended with `r`, where an error that is not
/// the visitor's comes from a storage that can fail.
spec fn is_told_each<A, S: UniversalRead, E: From<UniversalIoError>>(
    expected: Seq<A>,
    before: Seq<(A, Result<(), E>)>,
    after: Seq<(A, Result<(), E>)>,
    r: Result<(), E>,
) -> bool {
    exists|order: Seq<int>| #[trigger]
        order.no_duplicates() && {
            &&& after.len() == before.len() + order.len()
            &&& forall|k: int| 0 <= k < before.len() ==> #[trigger] after[k] == before[k]
            &&& forall|k: int| 0 <= k < order.len() ==> 0 <= #[trigger] order[k] < expected.len()
            &&& forall|k: int|
                0 <= k < order.len() ==> (#[trigger] after[before.len() + k]).0
                    == expected[order[k]]
            &&& forall|k: int|
                0 <= k < order.len() && (#[trigger] after[before.len() + k]).1 is Err ==> k
                    == order.len() - 1 && r == after[before.len() + k].1
            &&& r is Ok ==> order.len() == expected.len()
            &&& r matches Err(e) ==> (order.len() > 0 && after.last().1 == r) || (!S::infallible()
                && is_storage_error::<S, E>(e))
        }
}

proof fn lemma_told_each<A, S: UniversalRead, E: From<UniversalIoError>>(
    expected: Seq<A>,
    before: Seq<(A, Result<(), E>)>,
    after: Seq<(A, Result<(), E>)>,
    r: Result<(), E>,
    reason: bool,
)
    requires
        visits(expected, before, after, r, reason),
        r matches Err(e) ==> (reason ==> !S::infallible() && is_storage_error::<S, E>(e)),
    ensures
        is_told_each::<A, S, E>(expected, before, after, r),
{
    let order = choose|order: Seq<int>| #[trigger]
        is_selection(order, expected.len()) && visits_in_order(
            expected,
            order,
            before,
            after,
            r,
            reason,
        );
    assert(order.no_duplicates());
}

/// A visit of some keys gives for each of them what a lookup of it gives.
///
/// The visitor is told of each key once, in some order, together with what came with
/// the key, until a call of the visitor fails: with that error the visit ends. There
/// is no other error but from the storage.
pub proof fn law_batch_is_get<
    'key,
    Meta,
    K: Key + ?Sized,
    V: Value,
    S: UniversalRead,
    F: BatchVisitor<Meta, V>,
>(map: UniversalHashMap<K, V, S>, keys: Vec<(Meta, &'key K)>, found: Seq<Option<Vec<V>>>)
    requires
        found.len() == keys@.len(),
        forall|i: int|
            0 <= i < found.len() ==> call_ensures(
                UniversalHashMap::<K, V, S>::get,
                (&map, keys@[i].1),
                Ok::<Option<Vec<V>>, UniversalIoError>(#[trigger] found[i]),
            ),
    ensures
        forall|f: &mut F, r: Result<(), F::Error>| #[trigger]
            call_ensures(
                UniversalHashMap::<K, V, S>::batch_with_entry::<Meta, F>,
                (&map, keys, f),
                r,
            ) ==> {
                let before = (*f).calls();
                let after = (*final(f)).calls();
                exists|order: Seq<int>| #[trigger]
                    order.no_duplicates() && {
                        &&& after.len() == before.len() + order.len()
                        &&& forall|k: int|
                            0 <= k < before.len() ==> #[trigger] after[k] == before[k]
                        &&& forall|k: int|
                            0 <= k < order.len() ==> 0 <= #[trigger] order[k] < keys@.len()
                        &&& forall|k: int|
                            0 <= k < order.len() ==> (#[trigger] after[before.len() + k]).0
                                == (
                                keys@[order[k]].0,
                                match found[order[k]] {
                                    Some(values) => Some(values@),
                                    None => None,
                                },
                            )
                        &&& forall|k: int|
                            0 <= k < order.len() && (#[trigger] after[before.len() + k]).1 is Err
                                ==> k == order.len() - 1 && r == after[before.len() + k].1
                        &&& r is Ok ==> order.len() == keys@.len()
                        &&& r matches Err(e) ==> (order.len() > 0 && after.last().1 == r) || (
                        !S::infallible() && exists|io: UniversalIoError|
                            S::reports(io) && #[trigger] call_ensures(
                                <F::Error as From<UniversalIoError>>::from,
                                (io,),
                                e,
                            ))
                    }
            },
{
    let m = map.model();
    let queue = key_requests(keys@);
    let args = expected_args::<Meta, K, V, ToBatch<F>>(m, queue);
    let expected = Seq::new(
        keys@.len(),
        |i: int|
            (
                keys@[i].0,
                match found[i] {
                    Some(values) => Some(values@),
                    None => None,
                },
            ),
    );
    assert forall|i: int| 0 <= i < queue.len() implies args[i] == expected[i] && !(answer::<K, V>(
        m,
        PartialEntryKind::KeyAndValues,
        (#[trigger] queue[i]).1,
    ) is Corrupt) by {
        assert(call_ensures(
            UniversalHashMap::<K, V, S>::get,
            (&map, keys@[i].1),
            Ok::<Option<Vec<V>>, UniversalIoError>(found[i]),
        ));
    }
    assert(args =~= expected);
    assert forall|f: &mut F, r: Result<(), F::Error>| #[trigger]
        call_ensures(
            UniversalHashMap::<K, V, S>::batch_with_entry::<Meta, F>,
            (&map, keys, f),
            r,
        ) implies is_told_each::<
        _,
        S,
        F::Error,
    >(expected, (*f).calls(), (*final(f)).calls(), r) by {
        lemma_answered_each::<Meta, K, V, ToBatch<F>, S, F::Error>(
            m,
            queue,
            (*f).calls(),
            (*final(f)).calls(),
            r,
        );
    }
}

/// Answers to requests where the file is not corrupt are told each once.
proof fn lemma_answered_each<
    Meta,
    K: Key + ?Sized,
    V: Value,
    D: Delivery<Meta, K, V, Error = E>,
    S: UniversalRead,
    E: From<UniversalIoError>,
>(
    m: MapModel,
    queue: Seq<(Meta, RequestModel<K::V>)>,
    before: Seq<(D::Arg, Result<(), E>)>,
    after: Seq<(D::Arg, Result<(), E>)>,
    r: Result<(), E>,
)
    requires
        answered::<Meta, K, V, D, S>(m, queue, before, after, r),
        forall|i: int|
            0 <= i < queue.len() ==> !(answer::<K, V>(
                m,
                D::kind(),
                (#[trigger] queue[i]).1,
            ) is Corrupt),
        forall|io: UniversalIoError, e: E| #[trigger] D::failure(io, e) ==> is_converted(io, e),
    ensures
        is_told_each::<D::Arg, S, E>(expected_args::<Meta, K, V, D>(m, queue), before, after, r),
{
    let reason = r matches Err(e) && (is_corruption::<Meta, K, V, D>(m, queue, e)
        || is_storage_failure::<Meta, K, V, D, S>(e));
    if let Err(e) = r {
        assert(!is_corruption::<Meta, K, V, D>(m, queue, e));
        if reason {
            let io = choose|io: UniversalIoError| S::reports(io) && #[trigger] D::failure(io, e);
            assert(is_converted(io, e));
        }
    }
    lemma_told_each::<D::Arg, S, E>(
        expected_args::<Meta, K, V, D>(m, queue),
        before,
        after,
        r,
        reason,
    );
}

/// A visit of the keys tells the visitor the key of the entry that each bucket leads to,
/// each of them once, in some order, until a call of the visitor fails: with that error
/// the visit ends. There is no other error but from the storage.
pub proof fn law_for_each_key<K: Key + ?Sized, V: Value, S: UniversalRead, F: KeyVisitor<K>>(
    map: UniversalHashMap<K, V, S>,
    keys: Seq<K::V>,
)
    requires
        ({
            let m = map.model();
            let start = m.buckets_pos + 8 * m.buckets_count;
            &&& keys.len() == m.buckets_count
            &&& start <= m.file.len()
            &&& forall|n: int|
                0 <= n < keys.len() ==> {
                    let stored = K::stored(m.little, #[trigger] keys[n]);
                    let bucket_at = m.buckets_pos + 8 * n;
                    let at = start + native_value(
                        m.little,
                        m.file.subrange(bucket_at, bucket_at + 8),
                    );
                    &&& at + stored.len() <= m.file.len()
                    &&& at <= u64::MAX
                    &&& m.file.subrange(at, at + stored.len()) == stored
                }
        }),
    ensures
        forall|f: &mut F, r: Result<(), F::Error>| #[trigger]
            call_ensures(UniversalHashMap::<K, V, S>::for_each_key::<F>, (&map, f), r) ==> {
                let before = (*f).calls();
                let after = (*final(f)).calls();
                exists|order: Seq<int>| #[trigger]
                    order.no_duplicates() && {
                        &&& after.len() == before.len() + order.len()
                        &&& forall|k: int|
                            0 <= k < before.len() ==> #[trigger] after[k] == before[k]
                        &&& forall|k: int|
                            0 <= k < order.len() ==> 0 <= #[trigger] order[k] < keys.len()
                        &&& forall|k: int|
                            0 <= k < order.len() ==> (#[trigger] after[before.len() + k]).0
                                == keys[order[k]]
                        &&& forall|k: int|
                            0 <= k < order.len() && (#[trigger] after[before.len() + k]).1 is Err
                                ==> k == order.len() - 1 && r == after[before.len() + k].1
                        &&& r is Ok ==> order.len() == keys.len()
                        &&& r matches Err(e) ==> (order.len() > 0 && after.last().1 == r) || (
                        !S::infallible() && exists|io: UniversalIoError|
                            S::reports(io) && #[trigger] call_ensures(
                                <F::Error as From<UniversalIoError>>::from,
                                (io,),
                                e,
                            ))
                    }
            },
{
    let m = map.model();
    let queue = bucket_requests::<K::V>(m);
    let args = expected_args::<(), K, V, ToKeys<F>>(m, queue);
    assert forall|n: int| 0 <= n < queue.len() implies args[n] == keys[n] && !(answer::<K, V>(
        m,
        PartialEntryKind::KeyOnly,
        (#[trigger] queue[n]).1,
    ) is Corrupt) by {
        let key = keys[n];
        let bucket_at = m.buckets_pos + 8 * n;
        let word = m.file.subrange(bucket_at, bucket_at + 8);
        let at = m.buckets_pos + 8 * m.buckets_count + native_value(m.little, word);
        law_native_inverse(m.little, word);
        lemma_limits();
        lemma_key_at::<K>(m.little, m.file, at, key);
        assert(m.bucket(n as u64) == native_value(m.little, word));
    }
    assert(args =~= keys);
    assert forall|f: &mut F, r: Result<(), F::Error>| #[trigger]
        call_ensures(
            UniversalHashMap::<K, V, S>::for_each_key::<F>,
            (&map, f),
            r,
        ) implies is_told_each::<
        K::V,
        S,
        F::Error,
    >(keys, (*f).calls(), (*final(f)).calls(), r) by {
        let before = (*f).calls();
        let after = (*final(f)).calls();
        if answered::<(), K, V, ToKeys<F>, S>(m, queue, before, after, r) {
            lemma_answered_each::<(), K, V, ToKeys<F>, S, F::Error>(m, queue, before, after, r);
        } else {
            let none = Seq::<int>::empty();
            assert(none.no_duplicates());
            let e = r->Err_0;
            let io = choose|io: UniversalIoError|
                is_read_error(map.source(), table_range(m), io) && #[trigger] is_converted(io, e);
            assert(S::reports(io));
            assert(is_storage_error::<S, F::Error>(e));
        }
    }
}

/// A bucket table that the file ends before is not read: no key is visited, and the visit
/// ends with an error.
pub proof fn law_for_each_key_cut<K: Key + ?Sized, V: Value, S: UniversalRead, F: KeyVisitor<K>>(
    map: UniversalHashMap<K, V, S>,
)
    requires
        map.model().buckets_pos + 8 * map.model().buckets_count > map.model().file.len(),
    ensures
        forall|f: &mut F, r: Result<(), F::Error>| #[trigger]
            call_ensures(UniversalHashMap::<K, V, S>::for_each_key::<F>, (&map, f), r) ==> r is Err
                && (*final(f)).calls() == (*f).calls(),
{
}

/// There is one multiple of the alignment in a stretch of its length.
proof fn lemma_next_start<K: Key + ?Sized>(from: int, next: int)
    requires
        0 <= from <= next < from + K::alignment(),
        next % (K::alignment() as int) == 0,
    ensures
        padding_at::<K>(from) == next - from,
{
    let align = K::alignment() as int;
    K::law_align();
    lemma_padding(from, align);
    vstd::arithmetic::div_mod::lemma_fundamental_div_mod(from, align);
    vstd::arithmetic::div_mod::lemma_fundamental_div_mod(next, align);
    vstd::arithmetic::div_mod::lemma_mod_bound(from, align);
    let q = from / align;
    let p = next / align;
    let rem = from % align;
    assert(rem == 0 ==> p == q) by (nonlinear_arith)
        requires
            align > 0,
            from == align * q + rem,
            next == align * p,
            from <= next < from + align,
    ;
    assert(rem > 0 ==> p == q + 1) by (nonlinear_arith)
        requires
            0 <= rem < align,
            from == align * q + rem,
            next == align * p,
            from <= next < from + align,
    ;
    assert(align * (q + 1) == align * q + align) by (nonlinear_arith);
}

/// Where the entry with the number `i` is looked for: behind the one before it.
spec fn behind(ends: Seq<int>, i: int) -> int {
    if i == 0 {
        0
    } else {
        ends[i - 1]
    }
}

/// Whether an entry is read in a region from the position `at` on, and ends at `end`.
spec fn is_read_at<K: Key + ?Sized, V: Value>(
    little: bool,
    region: Seq<u8>,
    entry: (K::V, Seq<V>),
    at: int,
    end: int,
) -> bool {
    &&& 0 <= at <= end <= region.len()
    &&& end - at + 32736 <= isize::MAX
    &&& entry_read_at::<K, V>(little, at, region.skip(at)) == EntryRead::<K::V, V>::KeyAndValues(
        entry.0,
        entry.1,
        (end - at) as nat,
    )
}

/// Whether some entries are read in a region one behind the other, with the given ends.
#[verifier::opaque]
spec fn is_read_as<K: Key + ?Sized, V: Value>(
    little: bool,
    region: Seq<u8>,
    entries: Seq<(K::V, Seq<V>)>,
    ends: Seq<int>,
) -> bool {
    &&& ends.len() == entries.len()
    &&& forall|j: int|
        0 <= j < entries.len() ==> is_read_at::<K, V>(
            little,
            region,
            #[trigger] entries[j],
            behind(ends, j),
            ends[j],
        )
}

proof fn lemma_read_as<K: Key + ?Sized, V: Value>(
    little: bool,
    region: Seq<u8>,
    entries: Seq<(K::V, Seq<V>)>,
    ends: Seq<int>,
    j: int,
)
    requires
        is_read_as::<K, V>(little, region, entries, ends),
        0 <= j < entries.len(),
    ensures
        ({
            let at = behind(ends, j);
            &&& 0 <= at <= ends[j] <= region.len()
            &&& behind(ends, j + 1) == ends[j]
            &&& ends[j] - at + 32736 <= isize::MAX
            &&& entry_read_at::<K, V>(little, at, region.skip(at)) == EntryRead::<
                K::V,
                V,
            >::KeyAndValues(entries[j].0, entries[j].1, (ends[j] - at) as nat)
        }),
{
    reveal(is_read_as);
    let entry = entries[j];
}

/// What a scan finds in a region that holds some entries, from the one with the number `i`
/// on.
proof fn lemma_scan_finds<K: Key + ?Sized, V: Value>(
    little: bool,
    region: Seq<u8>,
    entries: Seq<(K::V, Seq<V>)>,
    ends: Seq<int>,
    i: int,
)
    requires
        0 <= i <= entries.len(),
        is_read_as::<K, V>(little, region, entries, ends),
        ({
            let last = behind(ends, entries.len() as int);
            !(entry_read_at::<K, V>(little, last, region.skip(last)) is KeyAndValues)
        }),
    ensures
        scan_entries::<K, V>(little, region, behind(ends, i)) == (
            entries.skip(i),
            behind(ends, entries.len() as int),
        ),
    decreases entries.len() - i,
{
    let at = behind(ends, i);
    if i < entries.len() {
        lemma_read_as::<K, V>(little, region, entries, ends, i);
        lemma_scan_finds::<K, V>(little, region, entries, ends, i + 1);
        lemma_scan_one::<K, V>(
            little,
            region,
            at,
            entries[i].0,
            entries[i].1,
            (ends[i] - at) as nat,
        );
        assert(entries.skip(i) =~= seq![entries[i]] + entries.skip(i + 1));
    } else {
        reveal(scan_entries);
        assert(entries.skip(i) =~= Seq::empty());
    }
}

proof fn lemma_scan_position<K: Key + ?Sized, V: Value>(
    little: bool,
    region: Seq<u8>,
    entries: Seq<(K::V, Seq<V>)>,
    ends: Seq<int>,
    i: nat,
)
    requires
        i <= entries.len(),
        is_read_as::<K, V>(little, region, entries, ends),
    ensures
        scan_position::<K, V>(little, region, i) == behind(ends, i as int),
    decreases i,
{
    if i > 0 {
        lemma_scan_position::<K, V>(little, region, entries, ends, (i - 1) as nat);
        lemma_read_as::<K, V>(little, region, entries, ends, i - 1);
    }
}

/// What a visitor is told of a file with some entries.
proof fn lemma_scan_told<
    K: Key + ?Sized,
    V: Value,
    S: UniversalRead,
    E: From<UniversalIoError>,
>(
    m: MapModel,
    entries: Seq<(K::V, Seq<V>)>,
    ends: Seq<int>,
    before: Seq<((K::V, Seq<V>), Result<(), E>)>,
    after: Seq<((K::V, Seq<V>), Result<(), E>)>,
    r: Result<(), E>,
)
    requires
        scanned::<K, V, S, E>(m, before, after, r),
        is_read_as::<K, V>(m.little, m.region(), entries, ends),
        m.entries_start() <= m.file.len(),
        ({
            let last = behind(ends, entries.len() as int);
            let rest = entry_read_at::<K, V>(m.little, last, m.region().skip(last));
            &&& !(rest is KeyAndValues)
            &&& !(rest is Invalid)
            &&& 0 <= last <= m.region().len()
            &&& m.region().len() - last + 32736 <= isize::MAX
        }),
    ensures
        ({
            let told = after.len() - before.len();
            let cut = behind(ends, entries.len() as int) < m.region().len();
            &&& 0 <= told <= entries.len()
            &&& cut ==> r is Err
            &&& visits_in_order(
                entries,
                first_numbers(told as nat),
                before,
                after,
                r,
                r matches Err(e) && ((!S::infallible() && is_storage_error::<S, E>(e)) || (cut
                    && told == entries.len() && is_converted_data_err(
                    e,
                    "Trailing bytes left after parsing all entries"@,
                ))),
            )
        }),
{
    lemma_scan_finds::<K, V>(m.little, m.region(), entries, ends, 0);
    assert(entries.skip(0) =~= entries);
    let told = after.len() - before.len();
    lemma_scan_position::<K, V>(m.little, m.region(), entries, ends, told as nat);
    if told < entries.len() {
        lemma_read_as::<K, V>(m.little, m.region(), entries, ends, told);
    }
}

/// Whether some entries stand in a file, one behind the other.
spec fn stands<K: Key + ?Sized, V: Value>(
    m: MapModel,
    entries: Seq<(K::V, Seq<V>)>,
    starts: Seq<int>,
    ends: Seq<int>,
) -> bool {
    let start = m.buckets_pos + 8 * m.buckets_count;
    let s = V::size() as int;
    &&& starts.len() == entries.len() == ends.len()
    &&& start <= m.file.len()
    &&& entries.len() > 0 ==> starts[0] == 0
    &&& forall|i: int|
        0 <= i < entries.len() - 1 ==> {
            &&& #[trigger] ends[i] <= starts[i + 1] < ends[i] + K::alignment()
            &&& starts[i + 1] % (K::alignment() as int) == 0
        }
    &&& forall|i: int|
        0 <= i < entries.len() ==> {
            let (key, values) = #[trigger] entries[i];
            let stored = K::stored(m.little, key);
            let at = start + starts[i];
            let count_at = at + 4 * ((stored.len() as int + 3) / 4);
            let first = count_at + s * ((s + 3) / s);
            &&& start + ends[i] == first + values.len() * s
            &&& start + ends[i] <= m.file.len()
            &&& ends[i] - starts[i] + 32768 <= isize::MAX
            &&& m.file.subrange(at, at + stored.len()) == stored
            &&& native_value(m.little, m.file.subrange(count_at, count_at + 4))
                == values.len()
            &&& forall|j: int|
                0 <= j < values.len() ==> m.file.subrange(first + j * s, first + j * s + s)
                    == V::stored(m.little, #[trigger] values[j])
        }
}

/// The entries of a file are read one behind the other.
proof fn lemma_entries_in<K: Key + ?Sized, V: Value, S: UniversalRead>(
    map: UniversalHashMap<K, V, S>,
    entries: Seq<(K::V, Seq<V>)>,
    starts: Seq<int>,
    ends: Seq<int>,
    i: int,
)
    requires
        0 <= i < entries.len(),
        stands::<K, V>(map.model(), entries, starts, ends),
    ensures
        ({
            let m = map.model();
            let at = behind(ends, i);
            &&& 0 <= at <= starts[i] <= ends[i] <= m.region().len()
            &&& entry_read_at::<K, V>(m.little, at, m.region().skip(at)) == EntryRead::<
                K::V,
                V,
            >::KeyAndValues(entries[i].0, entries[i].1, (ends[i] - at) as nat)
            &&& starts[i] < at + K::alignment()
        }),
    decreases i,
{
    let m = map.model();
    let start = m.buckets_pos + 8 * m.buckets_count;
    let s = V::size() as int;
    let at = behind(ends, i);
    let (key, values) = entries[i];
    if i > 0 {
        lemma_entries_in::<K, V, S>(map, entries, starts, ends, i - 1);
        assert(ends[i - 1] == at);
    }
    K::law_align();
    vstd::arithmetic::div_mod::lemma_small_mod(0, K::alignment() as nat);
    lemma_next_start::<K>(at, starts[i]);
    lemma_entry_in::<K, V>(m.little, m.file, start + starts[i], key, values);
    assert(m.region().skip(at).skip(starts[i] - at) =~= m.file.skip(start + starts[i]));
}

proof fn lemma_entries_read<K: Key + ?Sized, V: Value, S: UniversalRead>(
    map: UniversalHashMap<K, V, S>,
    entries: Seq<(K::V, Seq<V>)>,
    starts: Seq<int>,
    ends: Seq<int>,
)
    requires
        stands::<K, V>(map.model(), entries, starts, ends),
    ensures
        is_read_as::<K, V>(map.model().little, map.model().region(), entries, ends),
        0 <= behind(ends, entries.len() as int) <= map.model().region().len(),
{
    let m = map.model();
    K::law_align();
    assert forall|j: int| 0 <= j < entries.len() implies is_read_at::<K, V>(
        m.little,
        m.region(),
        #[trigger] entries[j],
        behind(ends, j),
        ends[j],
    ) by {
        lemma_entries_in::<K, V, S>(map, entries, starts, ends, j);
    }
    reveal(is_read_as);
    if entries.len() > 0 {
        lemma_entries_in::<K, V, S>(map, entries, starts, ends, entries.len() - 1);
    }
}

/// A visit of the entries tells the visitor the entries of the file, each of them once and
/// in the order in which they stand, until a call of the visitor fails: with that
/// error the visit ends. There is no other error but from the storage.
///
/// The first entry stands right behind the bucket table, and each other at the next
/// multiple of the alignment of the keys behind the one before it. The file ends
/// behind the last one.
pub proof fn law_for_each_entry<
    K: Key + ?Sized,
    V: Value,
    S: UniversalRead,
    F: EntryVisitor<K, V>,
>(
    map: UniversalHashMap<K, V, S>,
    entries: Seq<(K::V, Seq<V>)>,
    starts: Seq<int>,
    ends: Seq<int>,
)
    requires
        ({
            let m = map.model();
            let start = m.buckets_pos + 8 * m.buckets_count;
            let s = V::size() as int;
            &&& starts.len() == entries.len() == ends.len()
            &&& start <= m.file.len()
            &&& entries.len() > 0 ==> starts[0] == 0
            &&& forall|i: int|
                0 <= i < entries.len() - 1 ==> {
                    &&& #[trigger] ends[i] <= starts[i + 1] < ends[i] + K::alignment()
                    &&& starts[i + 1] % (K::alignment() as int) == 0
                }
            &&& forall|i: int|
                0 <= i < entries.len() ==> {
                    let (key, values) = #[trigger] entries[i];
                    let stored = K::stored(m.little, key);
                    let at = start + starts[i];
                    let count_at = at + 4 * ((stored.len() as int + 3) / 4);
                    let first = count_at + s * ((s + 3) / s);
                    &&& start + ends[i] == first + values.len() * s
                    &&& start + ends[i] <= m.file.len()
                    &&& ends[i] - starts[i] + 32768 <= isize::MAX
                    &&& m.file.subrange(at, at + stored.len()) == stored
                    &&& native_value(m.little, m.file.subrange(count_at, count_at + 4))
                        == values.len()
                    &&& forall|j: int|
                        0 <= j < values.len() ==> m.file.subrange(first + j * s, first + j * s + s)
                            == V::stored(m.little, #[trigger] values[j])
                }
            &&& m.file.len() == start + if entries.len() == 0 {
                0
            } else {
                ends.last()
            }
        }),
    ensures
        forall|f: &mut F, r: Result<(), F::Error>| #[trigger]
            call_ensures(UniversalHashMap::<K, V, S>::for_each_entry::<F>, (&map, f), r) ==> {
                let before = (*f).calls();
                let after = (*final(f)).calls();
                let told = after.len() - before.len();
                &&& 0 <= told <= entries.len()
                &&& forall|k: int| 0 <= k < before.len() ==> #[trigger] after[k] == before[k]
                &&& forall|k: int|
                    0 <= k < told ==> (#[trigger] after[before.len() + k]).0 == entries[k]
                &&& forall|k: int|
                    0 <= k < told && (#[trigger] after[before.len() + k]).1 is Err ==> k == told - 1
                        && r == after[before.len() + k].1
                &&& r is Ok ==> told == entries.len()
                &&& r matches Err(e) ==> (told > 0 && after.last().1 == r) || (!S::infallible()
                    && exists|io: UniversalIoError|
                    S::reports(io) && #[trigger] call_ensures(
                        <F::Error as From<UniversalIoError>>::from,
                        (io,),
                        e,
                    ))
            },
{
    let m = map.model();
    let region = m.region();
    let last = behind(ends, entries.len() as int);
    assert(stands::<K, V>(m, entries, starts, ends));
    lemma_entries_read::<K, V, S>(map, entries, starts, ends);
    K::law_align();
    K::law_prefix(m.little, region.skip(last), 0);
    lemma_padding(last, K::alignment() as int);
    assert(region.skip(last).len() == 0);
    assert(region.skip(last).skip(0) =~= region.skip(last));
    assert forall|f: &mut F, r: Result<(), F::Error>| #[trigger]
        call_ensures(UniversalHashMap::<K, V, S>::for_each_entry::<F>, (&map, f), r) implies {
        let told = (*final(f)).calls().len() - (*f).calls().len();
        0 <= told <= entries.len() && visits_in_order(
            entries,
            first_numbers(told as nat),
            (*f).calls(),
            (*final(f)).calls(),
            r,
            r matches Err(e) && !S::infallible() && is_storage_error::<S, F::Error>(e),
        )
    } by {
        lemma_scan_told::<K, V, S, F::Error>(
            m,
            entries,
            ends,
            (*f).calls(),
            (*final(f)).calls(),
            r,
        );
    }
}

/// An entry that the file ends before is no entry: when the others were visited, the
/// visit ends with an error.
///
/// What stands behind the last of `entries`, at the next multiple of the alignment, are
/// the first `cut` bytes of the entry `whole`, and not all of it.
pub proof fn law_for_each_entry_cut<
    K: Key + ?Sized,
    V: Value,
    S: UniversalRead,
    F: EntryVisitor<K, V>,
>(
    map: UniversalHashMap<K, V, S>,
    entries: Seq<(K::V, Seq<V>)>,
    starts: Seq<int>,
    ends: Seq<int>,
    next: int,
    whole: Seq<u8>,
    key: K::V,
    values: Seq<V>,
    cut: int,
)
    requires
        ({
            let m = map.model();
            let start = m.buckets_pos + 8 * m.buckets_count;
            let s = V::size() as int;
            let last = if entries.len() == 0 {
                0
            } else {
                ends.last()
            };
            &&& starts.len() == entries.len() == ends.len()
            &&& start <= m.file.len()
            &&& entries.len() > 0 ==> starts[0] == 0
            &&& forall|i: int|
                0 <= i < entries.len() - 1 ==> {
                    &&& #[trigger] ends[i] <= starts[i + 1] < ends[i] + K::alignment()
                    &&& starts[i + 1] % (K::alignment() as int) == 0
                }
            &&& forall|i: int|
                0 <= i < entries.len() ==> {
                    let (key, values) = #[trigger] entries[i];
                    let stored = K::stored(m.little, key);
                    let at = start + starts[i];
                    let count_at = at + 4 * ((stored.len() as int + 3) / 4);
                    let first = count_at + s * ((s + 3) / s);
                    &&& start + ends[i] == first + values.len() * s
                    &&& start + ends[i] <= m.file.len()
                    &&& ends[i] - starts[i] + 32768 <= isize::MAX
                    &&& m.file.subrange(at, at + stored.len()) == stored
                    &&& native_value(m.little, m.file.subrange(count_at, count_at + 4))
                        == values.len()
                    &&& forall|j: int|
                        0 <= j < values.len() ==> m.file.subrange(first + j * s, first + j * s + s)
                            == V::stored(m.little, #[trigger] values[j])
                }
            &&& last <= next < last + K::alignment()
            &&& next % (K::alignment() as int) == 0
            &&& start + next + cut == m.file.len()
            &&& last < next + cut
            &&& m.file.subrange(start + next, start + next + cut) == whole.take(cut)
            &&& 0 <= cut < whole.len()
            &&& cut + 32768 <= isize::MAX
        }),
        ({
            let stored = K::stored(map.model().little, key);
            let s = V::size() as int;
            let count_at = 4 * ((stored.len() as int + 3) / 4);
            let first = count_at + s * ((s + 3) / s);
            &&& whole.len() == first + values.len() * s
            &&& whole.subrange(0, stored.len() as int) == stored
            &&& native_value(map.model().little, whole.subrange(count_at, count_at + 4))
                == values.len()
            &&& forall|j: int|
                0 <= j < values.len() ==> whole.subrange(first + j * s, first + j * s + s)
                    == V::stored(map.model().little, #[trigger] values[j])
        }),
    ensures
        forall|f: &mut F, r: Result<(), F::Error>| #[trigger]
            call_ensures(UniversalHashMap::<K, V, S>::for_each_entry::<F>, (&map, f), r) ==> {
                let before = (*f).calls();
                let after = (*final(f)).calls();
                let told = after.len() - before.len();
                &&& 0 <= told <= entries.len()
                &&& forall|k: int| 0 <= k < before.len() ==> #[trigger] after[k] == before[k]
                &&& forall|k: int|
                    0 <= k < told ==> (#[trigger] after[before.len() + k]).0 == entries[k]
                &&& forall|k: int|
                    0 <= k < told && (#[trigger] after[before.len() + k]).1 is Err ==> k == told - 1
                        && r == after[before.len() + k].1
                &&& r matches Err(e) && ((told > 0 && after.last().1 == r) || (!S::infallible()
                    && exists|io: UniversalIoError|
                    S::reports(io) && #[trigger] call_ensures(
                        <F::Error as From<UniversalIoError>>::from,
                        (io,),
                        e,
                    )) || (told == entries.len() && exists|io: UniversalIoError|
                    (io matches UniversalIoError::Io(io) && io.kind == ErrorKind::InvalidData
                        && io.message@ == "Trailing bytes left after parsing all entries"@)
                        && #[trigger] call_ensures(
                        <F::Error as From<UniversalIoError>>::from,
                        (io,),
                        e,
                    )))
            },
{
    let m = map.model();
    let region = m.region();
    let start = m.buckets_pos + 8 * m.buckets_count;
    let last = behind(ends, entries.len() as int);
    assert(stands::<K, V>(m, entries, starts, ends));
    lemma_entries_read::<K, V, S>(map, entries, starts, ends);
    K::law_align();
    lemma_next_start::<K>(last, next);
    assert(region.skip(last).skip(next - last) =~= whole.take(cut));
    lemma_entry_at::<K, V>(m.little, whole, key, values);
    law_entry_prefix::<K, V>(m.little, whole, cut);
    law_entry_prefix::<K, V>(m.little, whole.take(cut), 0);
    assert forall|f: &mut F, r: Result<(), F::Error>| #[trigger]
        call_ensures(UniversalHashMap::<K, V, S>::for_each_entry::<F>, (&map, f), r) implies {
        let told = (*final(f)).calls().len() - (*f).calls().len();
        0 <= told <= entries.len() && r is Err && visits_in_order(
            entries,
            first_numbers(told as nat),
            (*f).calls(),
            (*final(f)).calls(),
            r,
            r matches Err(e) && ((!S::infallible() && is_storage_error::<S, F::Error>(e)) || (told
                == entries.len() && is_converted_data_err(
                e,
                "Trailing bytes left after parsing all entries"@,
            ))),
        )
    } by {
        lemma_scan_told::<K, V, S, F::Error>(
            m,
            entries,
            ends,
            (*f).calls(),
            (*final(f)).calls(),
            r,
        );
    }
}

/// An entry is parsed as it stands, behind the padding that brings it to the next multiple
/// of the alignment; what follows it is left alone.
pub proof fn law_parse_entry<K: Key + ?Sized, V: Value>(
    order: NativeOrder,
    start: usize,
    bytes: &[u8],
    padding: int,
    key: K::V,
    values: Seq<V>,
    r: Result<PartialEntry<K, V>, InvalidKey>,
)
    requires
        call_ensures(PartialEntry::<K, V>::parse, (&order, start, bytes), r),
        0 <= padding < K::alignment(),
        (start + padding) % (K::alignment() as int) == 0,
        ({
            let little = order.is_little();
            let stored = K::stored(little, key);
            let s = V::size() as int;
            let count_at = padding + 4 * ((stored.len() as int + 3) / 4);
            let first = count_at + s * ((s + 3) / s);
            &&& first + values.len() * s <= bytes@.len()
            &&& bytes@.subrange(padding, padding + stored.len()) == stored
            &&& native_value(little, bytes@.subrange(count_at, count_at + 4)) == values.len()
            &&& forall|j: int|
                0 <= j < values.len() ==> bytes@.subrange(first + j * s, first + j * s + s)
                    == V::stored(little, #[trigger] values[j])
        }),
    ensures
        ({
            let stored = K::stored(order.is_little(), key);
            let s = V::size() as int;
            r matches Ok(PartialEntry::KeyAndValues(owned, list, end)) && {
                &&& K::model(owned) == key
                &&& list@ == values
                &&& end == padding + 4 * ((stored.len() as int + 3) / 4) + s * ((s + 3) / s)
                    + values.len() * s
            }
        }),
{
    K::law_align();
    lemma_next_start::<K>(start as int, start + padding);
    lemma_entry_in::<K, V>(order.is_little(), bytes@, padding, key, values);
}

/// As much of an entry is parsed as there is: nothing before the key is there, then the key,
/// and with the 4 bytes behind it the number of values, until the last value is there.
pub proof fn law_parse_cut<K: Key + ?Sized, V: Value>(
    order: NativeOrder,
    bytes: &[u8],
    whole: Seq<u8>,
    key: K::V,
    values: Seq<V>,
    r: Result<PartialEntry<K, V>, InvalidKey>,
)
    requires
        call_ensures(PartialEntry::<K, V>::parse, (&order, 0usize, bytes), r),
        bytes@.len() < whole.len(),
        bytes@ == whole.take(bytes@.len() as int),
        ({
            let little = order.is_little();
            let stored = K::stored(little, key);
            let s = V::size() as int;
            let count_at = 4 * ((stored.len() as int + 3) / 4);
            let first = count_at + s * ((s + 3) / s);
            &&& whole.len() == first + values.len() * s
            &&& whole.subrange(0, stored.len() as int) == stored
            &&& native_value(little, whole.subrange(count_at, count_at + 4)) == values.len()
            &&& forall|j: int|
                0 <= j < values.len() ==> whole.subrange(first + j * s, first + j * s + s)
                    == V::stored(little, #[trigger] values[j])
        }),
    ensures
        ({
            let stored = K::stored(order.is_little(), key);
            let count_at = 4 * ((stored.len() as int + 3) / 4);
            if bytes@.len() < stored.len() {
                r matches Ok(PartialEntry::Incomplete)
            } else if bytes@.len() < count_at + 4 {
                r matches Ok(PartialEntry::KeyOnly(owned)) && K::model(owned) == key
            } else {
                r matches Ok(PartialEntry::KeyAndValuesLen(owned, n)) && K::model(owned) == key && n
                    == values.len()
            }
        }),
{
    let little = order.is_little();
    let stored = K::stored(little, key);
    let n = bytes@.len() as int;
    let count_at = 4 * ((stored.len() as int + 3) / 4);
    K::law_align();
    lemma_padding(0, K::alignment() as int);
    assert(bytes@.skip(0) =~= bytes@);
    lemma_entry_at::<K, V>(little, whole, key, values);
    law_entry_prefix::<K, V>(little, whole, n);
    law_entry_prefix::<K, V>(little, bytes@, 0);
    lemma_round_up(stored.len() as int, 4);
    lemma_layout::<V>(stored.len(), values.len());
    assert(whole.skip(0) =~= whole);
    lemma_key_at::<K>(little, whole, 0, key);
    K::law_prefix(little, whole, n);
    K::law_prefix(little, bytes@, 0);
    if n >= count_at + 4 {
        assert(bytes@.subrange(count_at, count_at + 4) =~= whole.subrange(count_at, count_at + 4));
    }
}

/// An entry that the file ends before is no absent key: it is bad data.
pub proof fn law_get_entry_cut<K: Key + ?Sized, V: Value, S: UniversalRead>(
    map: UniversalHashMap<K, V, S>,
    key: &K,
    bucket: u64,
    offset: u64,
    whole: Seq<u8>,
    values: Seq<V>,
    r: Result<Option<Vec<V>>, UniversalIoError>,
)
    requires
        call_ensures(UniversalHashMap::<K, V, S>::get, (&map, key), r),
        ({
            let m = map.model();
            let stored = K::stored(m.little, key@);
            let bucket_at = m.buckets_pos + 8 * bucket;
            let at = m.buckets_pos + 8 * m.buckets_count + offset;
            let s = V::size() as int;
            let count_at = 4 * ((stored.len() as int + 3) / 4);
            let first = count_at + s * ((s + 3) / s);
            &&& m.slots.get((K::name(), stored)) == Some(bucket)
            &&& bucket_at + 8 <= m.file.len()
            &&& native_value(m.little, m.file.subrange(bucket_at, bucket_at + 8)) == offset
            &&& at <= u64::MAX
            &&& at <= m.file.len() < at + whole.len()
            &&& m.file.skip(at) == whole.take(m.file.len() - at)
            &&& whole.len() == first + values.len() * s
            &&& whole.subrange(0, stored.len() as int) == stored
            &&& native_value(m.little, whole.subrange(count_at, count_at + 4)) == values.len()
            &&& forall|j: int|
                0 <= j < values.len() ==> whole.subrange(first + j * s, first + j * s + s)
                    == V::stored(m.little, #[trigger] values[j])
        }),
    ensures
        r matches Err(UniversalIoError::Io(io)) && (S::infallible() ==> io.kind
            == ErrorKind::InvalidData && io.message@ == "Entry beyond the end of the file"@),
{
    let m = map.model();
    let at = m.buckets_pos + 8 * m.buckets_count + offset;
    lemma_answer::<K, V>(m, key@, bucket, offset, PartialEntryKind::KeyAndValues);
    lemma_entry_at::<K, V>(m.little, whole, key@, values);
    law_entry_prefix::<K, V>(m.little, whole, m.file.len() - at);
    law_entry_prefix::<K, V>(m.little, m.file.skip(at), 0);
}

/// The number of values of a key is that of the values that a lookup of it gives, and there
/// is none where a lookup finds nothing.
pub proof fn law_count_is_len<K: Key + ?Sized, V: Value, S: UniversalRead>(
    map: UniversalHashMap<K, V, S>,
    key: &K,
    values: Option<Vec<V>>,
    count: Result<Option<usize>, UniversalIoError>,
)
    requires
        call_ensures(
            UniversalHashMap::<K, V, S>::get,
            (&map, key),
            Ok::<Option<Vec<V>>, UniversalIoError>(values),
        ),
        call_ensures(UniversalHashMap::<K, V, S>::get_values_count, (&map, key), count),
    ensures
        match (count, values) {
            (Ok(Some(n)), Some(list)) => n == list@.len(),
            (Ok(None), None) => true,
            (Err(e), _) => !S::infallible() && S::reports(e),
            _ => false,
        },
{
    law_count_agrees::<K, V>(map.model(), RequestModel::Key(key@));
}

/// A visit of some keys, one of which a lookup refuses, ends with an error.
pub proof fn law_batch_refused<
    'key,
    Meta,
    K: Key + ?Sized,
    V: Value,
    S: UniversalRead,
    F: BatchVisitor<Meta, V>,
>(map: UniversalHashMap<K, V, S>, keys: Vec<(Meta, &'key K)>, i: int, e: UniversalIoError)
    requires
        S::infallible(),
        0 <= i < keys@.len(),
        call_ensures(UniversalHashMap::<K, V, S>::get, (&map, keys@[i].1), Err(e)),
    ensures
        forall|f: &mut F, r: Result<(), F::Error>| #[trigger]
            call_ensures(
                UniversalHashMap::<K, V, S>::batch_with_entry::<Meta, F>,
                (&map, keys, f),
                r,
            ) ==> r is Err,
{
    let request = key_requests(keys@)[i];
}

/// What is no key is no entry, and where more is needed of a key, more is needed of the
/// entry.
pub proof fn law_parse_no_key<K: Key + ?Sized, V: Value>(
    order: NativeOrder,
    bytes: &[u8],
    key: KeyParse<K::Owned>,
    r: Result<PartialEntry<K, V>, InvalidKey>,
)
    requires
        call_ensures(K::parse, (&order, bytes), key),
        call_ensures(PartialEntry::<K, V>::parse, (&order, 0usize, bytes), r),
    ensures
        match key {
            KeyParse::Invalid => r is Err,
            KeyParse::NeedMore => r matches Ok(PartialEntry::Incomplete),
            KeyParse::Done(owned, _) => match r {
                Ok(PartialEntry::KeyOnly(found)) => K::model(found) == K::model(owned),
                Ok(PartialEntry::KeyAndValuesLen(found, _)) => K::model(found) == K::model(owned),
                Ok(PartialEntry::KeyAndValues(found, _, _)) => K::model(found) == K::model(owned),
                _ => false,
            },
        },
{
    K::law_align();
    lemma_padding(0, K::alignment() as int);
    assert(bytes@.skip(0) =~= bytes@);
}

/// A map is not opened if its storage is not, or if its header cannot be read, and the error
/// is the one for which it is not.
pub proof fn law_open_fails<K: Key + ?Sized, V: Value, S: UniversalRead>(
    path: S::Path,
    options: S::Options,
    order: NativeOrder,
    storage: S,
    opened: Result<UniversalHashMap<K, V, S>, UniversalIoError>,
    read: Result<UniversalHashMap<K, V, S>, UniversalIoError>,
)
    requires
        call_ensures(UniversalHashMap::<K, V, S>::open, (path, options), opened),
        call_ensures(UniversalHashMap::<K, V, S>::from_storage, (order, storage), read),
    ensures
        (forall|s: S| !call_ensures(S::open, (path, options), Ok::<S, UniversalIoError>(s))) ==> (
        opened matches Err(e) && call_ensures(
            S::open,
            (path, options),
            Err::<S, UniversalIoError>(e),
        )),
        ({
            let range = ReadRange { byte_offset: 0, length: 24 };
            (forall|data: Vec<u8>|
                !call_ensures(
                    S::read,
                    (&storage, Access::Sequential, range),
                    Ok::<Vec<u8>, UniversalIoError>(data),
                )) ==> (read matches Err(e) && call_ensures(
                S::read,
                (&storage, Access::Sequential, range),
                Err::<Vec<u8>, UniversalIoError>(e),
            ))
        }),
{
}

/// Lookups end with the error of the storage if its length cannot be had, or else if there
/// can be no pipeline of reads.
pub proof fn law_get_fails<K: Key + ?Sized, V: Value, S: UniversalRead>(
    map: UniversalHashMap<K, V, S>,
    key: &K,
    values: Result<Option<Vec<V>>, UniversalIoError>,
    count: Result<Option<usize>, UniversalIoError>,
)
    requires
        call_ensures(UniversalHashMap::<K, V, S>::get, (&map, key), values),
        call_ensures(UniversalHashMap::<K, V, S>::get_values_count, (&map, key), count),
    ensures
        (forall|n: u64|
            !call_ensures(S::len, (&map.source(),), Ok::<u64, UniversalIoError>(n))) ==> {
            &&& values matches Err(e) && call_ensures(S::len, (&map.source(),), Err(e))
            &&& count matches Err(e) && call_ensures(S::len, (&map.source(),), Err(e))
        },
        (forall|p: S::Pipeline|
            !call_ensures(S::new_pipeline, (), Ok::<S::Pipeline, UniversalIoError>(p))) ==> {
            &&& values is Err
            &&& count is Err
        },
        (forall|p: &mut S::Pipeline, read: Option<(u64, Vec<u8>)>|
            !call_ensures(
                S::wait,
                (p,),
                Ok::<Option<(u64, Vec<u8>)>, UniversalIoError>(read),
            )) ==> {
            &&& values is Err
            &&& count is Err
        },
{
}

/// A visit ends with the error of the storage, and without a call of the visitor, if the
/// length of the storage cannot be had.
pub proof fn law_visits_fail<
    'key,
    Meta,
    K: Key + ?Sized,
    V: Value,
    S: UniversalRead,
    F: BatchVisitor<Meta, V>,
    G: EntryVisitor<K, V>,
>(map: UniversalHashMap<K, V, S>, keys: Vec<(Meta, &'key K)>)
    requires
        forall|n: u64| !call_ensures(S::len, (&map.source(),), Ok::<u64, UniversalIoError>(n)),
    ensures
        forall|f: &mut F, r: Result<(), F::Error>| #[trigger]
            call_ensures(
                UniversalHashMap::<K, V, S>::batch_with_entry::<Meta, F>,
                (&map, keys, f),
                r,
            ) ==> (*final(f)).calls() == (*f).calls() && (r matches Err(e) && exists|
                io: UniversalIoError,
            | #[trigger]
                call_ensures(<F::Error as From<UniversalIoError>>::from, (io,), e) && call_ensures(
                    S::len,
                    (&map.source(),),
                    Err::<u64, UniversalIoError>(io),
                )),
        forall|f: &mut G, r: Result<(), G::Error>| #[trigger]
            call_ensures(UniversalHashMap::<K, V, S>::for_each_entry::<G>, (&map, f), r) ==> (
            *final(f)).calls() == (*f).calls() && (r matches Err(e) && exists|io: UniversalIoError|
             #[trigger]
                call_ensures(<G::Error as From<UniversalIoError>>::from, (io,), e) && call_ensures(
                    S::len,
                    (&map.source(),),
                    Err::<u64, UniversalIoError>(io),
                )),
{
    assert(!has_len(map.source()));
    assert forall|f: &mut F, r: Result<(), F::Error>| #[trigger]
        call_ensures(
            UniversalHashMap::<K, V, S>::batch_with_entry::<Meta, F>,
            (&map, keys, f),
            r,
        ) implies (*final(f)).calls() == (*f).calls() && (r matches Err(e) && exists|
        io: UniversalIoError,
    | #[trigger]
        is_converted(io, e) && call_ensures(
            S::len,
            (&map.source(),),
            Err::<u64, UniversalIoError>(io),
        )) by {
        let e = r->Err_0;
        let io = choose|io: UniversalIoError|
            is_start_error(map.source(), io) && #[trigger] <ToBatch<F> as Delivery<
                Meta,
                K,
                V,
            >>::failure(io, e);
        assert(is_converted(io, e));
    }
}

} // verus!

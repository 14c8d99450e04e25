//! The format of a map file, and what a map that was written in it answers.

use crate::bytes::{
    law_native_inverse, law_native_round_trip, lemma_le_bytes_len, lemma_limits, native_bytes,
};
use crate::entry::{
    entry_bytes, entry_read, entry_read_at, law_entry_stored, lemma_round_up, padding_at, round_up,
    zeros, EntryRead, PartialEntryKind,
};
use crate::header::HEADER_SIZE;
use crate::key::Key;
use crate::lookup::bucket_requests;
use crate::model::{
    answer, entry_answer, open_model, scan_corruption, scan_entries, suffix, Answer, MapModel,
    RequestModel, BUCKET_OFFSET_SIZE,
};
use crate::phf::{is_open_ended, phf_core, phf_layout, phf_table};
use crate::scan::{entry_span, first_numbers, fits_in_buffer, scan_position, scanned};
use crate::sparse::{
    answered, expected_args, is_corruption, is_selection, lemma_selection_of_selection, visits,
    visits_in_order,
};
use crate::universal_io::UniversalRead;
use crate::value::Value;
use crate::visit::{
    answer_values, answer_values_len, BatchVisitor, EntryVisitor, KeyVisitor, ToBatch, ToKeys,
};
use vstd::prelude::*;

verus! {

/// Entries, one behind the other, with padding in front of each.
pub open spec fn entries_bytes<K: Key + ?Sized, V: Value>(
    little: bool,
    entries: Seq<(K::V, Seq<V>)>,
) -> Seq<u8>
    decreases entries.len(),
{
    if entries.len() == 0 {
        Seq::empty()
    } else {
        let front = entries_bytes::<K, V>(little, entries.drop_last());
        front + zeros(padding_at::<K>(front.len() as int)) + entry_bytes::<K, V>(
            little,
            entries.last().0,
            entries.last().1,
        )
    }
}

/// The offset of the entry with the number `i`.
pub open spec fn entry_offset<K: Key + ?Sized, V: Value>(
    little: bool,
    entries: Seq<(K::V, Seq<V>)>,
    i: int,
) -> int {
    round_up(
        entries_bytes::<K, V>(little, entries.take(i)).len() as int,
        K::alignment() as int,
    )
}

/// The bucket table.
pub open spec fn table_bytes(little: bool, table: Seq<u64>) -> Seq<u8>
    decreases table.len(),
{
    if table.len() == 0 {
        Seq::empty()
    } else {
        table_bytes(little, table.drop_last()) + native_bytes(
            little,
            table.last() as nat,
            BUCKET_OFFSET_SIZE as nat,
        )
    }
}

/// A map file: the header, the perfect hash function with the padding behind it, the
/// bucket table, and the entries.
pub open spec fn map_file<K: Key + ?Sized, V: Value>(
    little: bool,
    phf: Seq<u8>,
    table: Seq<u64>,
    entries: Seq<(K::V, Seq<V>)>,
) -> Seq<u8> {
    K::name() + native_bytes(little, HEADER_SIZE as nat + phf.len(), 8) + native_bytes(
        little,
        table.len(),
        8,
    ) + phf + table_bytes(little, table) + entries_bytes::<K, V>(little, entries)
}

/// Whether the entry with the number `i` has the bucket with the number `n`.
pub open spec fn has_bucket<K: Key + ?Sized, V: Value>(
    little: bool,
    slots: Map<(Seq<u8>, Seq<u8>), u64>,
    entries: Seq<(K::V, Seq<V>)>,
    i: int,
    n: int,
) -> bool {
    slots.get((K::name(), K::stored(little, entries[i].0))) matches Some(slot) && slot == n
}

/// Whether the entry with the number `i` has one of the first `count` buckets.
pub open spec fn is_in_table<K: Key + ?Sized, V: Value>(
    little: bool,
    slots: Map<(Seq<u8>, Seq<u8>), u64>,
    count: nat,
    entries: Seq<(K::V, Seq<V>)>,
    i: int,
) -> bool {
    exists|n: int|
        0 <= n < count && #[trigger] has_bucket::<K, V>(little, slots, entries, i, n)
}

/// Whether the bucket with the number `n` belongs to one of the entries.
pub open spec fn is_used<K: Key + ?Sized, V: Value>(
    little: bool,
    slots: Map<(Seq<u8>, Seq<u8>), u64>,
    entries: Seq<(K::V, Seq<V>)>,
    n: int,
) -> bool {
    exists|i: int|
        0 <= i < entries.len() && #[trigger] has_bucket::<K, V>(little, slots, entries, i, n)
}

/// Whether `table` is the bucket table for some entries: the perfect hash function
/// gives each bucket for the key of one of them, each of them has a bucket that
/// holds its offset, and the function gives no other bucket for any key.
pub open spec fn is_table_for<K: Key + ?Sized, V: Value>(
    little: bool,
    slots: Map<(Seq<u8>, Seq<u8>), u64>,
    table: Seq<u64>,
    entries: Seq<(K::V, Seq<V>)>,
) -> bool {
    &&& table.len() == entries.len()
    &&& forall|i: int|
        0 <= i < entries.len() ==> #[trigger] is_in_table::<K, V>(
            little,
            slots,
            table.len(),
            entries,
            i,
        )
    &&& forall|n: int|
        0 <= n < table.len() ==> #[trigger] is_used::<K, V>(little, slots, entries, n)
    &&& forall|i: int, n: int|
        0 <= i < entries.len() && 0 <= n < table.len() && #[trigger] has_bucket::<K, V>(
            little,
            slots,
            entries,
            i,
            n,
        ) ==> table[n] == entry_offset::<K, V>(little, entries, i)
    &&& forall|key: K::V|
        slots.get((K::name(), #[trigger] K::stored(little, key))) matches Some(n) ==> n
            < table.len()
}

/// The bucket table of an opened file.
pub open spec fn table_of(m: MapModel) -> Seq<u64> {
    Seq::new(m.buckets_count as nat, |n: int| m.bucket(n as u64) as u64)
}

/// Whether an opened file holds some entries.
pub open spec fn is_written<K: Key + ?Sized, V: Value>(
    m: MapModel,
    entries: Seq<(K::V, Seq<V>)>,
) -> bool {
    &&& m.file.len() <= u64::MAX
    &&& !m.open_ended
    &&& m.entries_start() <= m.file.len()
    &&& m.region() == entries_bytes::<K, V>(m.little, entries)
    &&& is_table_for::<K, V>(m.little, m.slots, table_of(m), entries)
    &&& forall|i: int| 0 <= i < entries.len() ==> (#[trigger] entries[i]).1.len() <= u32::MAX
}

/// Where an entry stands among the others.
#[verifier::rlimit(40)]
proof fn lemma_entry_place<K: Key + ?Sized, V: Value>(
    little: bool,
    entries: Seq<(K::V, Seq<V>)>,
    i: int,
)
    requires
        0 <= i < entries.len(),
    ensures
        ({
            let all = entries_bytes::<K, V>(little, entries);
            let front = entries_bytes::<K, V>(little, entries.take(i));
            let off = entry_offset::<K, V>(little, entries, i);
            let entry = entry_bytes::<K, V>(little, entries[i].0, entries[i].1);
            &&& front.len() <= off
            &&& off == front.len() + padding_at::<K>(front.len() as int)
            &&& off + entry.len() == entries_bytes::<K, V>(little, entries.take(i + 1)).len()
            &&& off + entry.len() <= all.len()
            &&& all.subrange(off, off + entry.len()) == entry
        }),
    decreases entries.len(),
{
    K::law_align();
    let n = entries.len() as int;
    let rest = entries.drop_last();
    let all = entries_bytes::<K, V>(little, entries);
    let front = entries_bytes::<K, V>(little, entries.take(i));
    let entry = entry_bytes::<K, V>(little, entries[i].0, entries[i].1);
    let off = entry_offset::<K, V>(little, entries, i);
    lemma_round_up(front.len() as int, K::alignment() as int);
    assert(entries.take(i + 1).drop_last() =~= entries.take(i));
    assert(entries.take(i + 1).last() == entries[i]);
    let head = entries_bytes::<K, V>(little, rest);
    lemma_round_up(head.len() as int, K::alignment() as int);
    if i == n - 1 {
        assert(entries.take(i) =~= rest);
        assert(entries.take(i + 1) =~= entries);
        assert(all.subrange(off, off + entry.len()) =~= entry);
    } else {
        lemma_entry_place::<K, V>(little, rest, i);
        assert(rest.take(i) =~= entries.take(i));
        assert(rest.take(i + 1) =~= entries.take(i + 1));
        assert(all.subrange(off, off + entry.len()) =~= head.subrange(off, off + entry.len()));
    }
}

/// What is read at the place of an entry.
proof fn lemma_entry_found<K: Key + ?Sized, V: Value>(
    little: bool,
    entries: Seq<(K::V, Seq<V>)>,
    i: int,
)
    requires
        0 <= i < entries.len(),
        entries[i].1.len() <= u32::MAX,
    ensures
        ({
            let all = entries_bytes::<K, V>(little, entries);
            let off = entry_offset::<K, V>(little, entries, i);
            let entry = entry_bytes::<K, V>(little, entries[i].0, entries[i].1);
            &&& 0 <= off <= all.len()
            &&& entry.len() >= 4
            &&& entry_read::<K, V>(little, all.skip(off)) == EntryRead::<K::V, V>::KeyAndValues(
                entries[i].0,
                entries[i].1,
                entry.len(),
            )
        }),
{
    lemma_entry_place::<K, V>(little, entries, i);
    let all = entries_bytes::<K, V>(little, entries);
    let off = entry_offset::<K, V>(little, entries, i);
    let entry = entry_bytes::<K, V>(little, entries[i].0, entries[i].1);
    let tail = all.skip(off + entry.len());
    law_entry_stored::<K, V>(little, entries[i].0, entries[i].1, tail);
    assert(all.skip(off) =~= all.subrange(off, off + entry.len()) + tail);
}

/// The same behind the padding in front of the entry.
proof fn lemma_entry_found_at<K: Key + ?Sized, V: Value>(
    little: bool,
    entries: Seq<(K::V, Seq<V>)>,
    i: int,
)
    requires
        0 <= i < entries.len(),
        entries[i].1.len() <= u32::MAX,
    ensures
        ({
            let all = entries_bytes::<K, V>(little, entries);
            let at = entries_bytes::<K, V>(little, entries.take(i)).len() as int;
            let next = entries_bytes::<K, V>(little, entries.take(i + 1)).len() as int;
            &&& at <= next <= all.len()
            &&& entry_read_at::<K, V>(little, at, all.skip(at)) == EntryRead::<
                K::V,
                V,
            >::KeyAndValues(entries[i].0, entries[i].1, (next - at) as nat)
        }),
{
    let all = entries_bytes::<K, V>(little, entries);
    let at = entries_bytes::<K, V>(little, entries.take(i)).len() as int;
    lemma_entry_place::<K, V>(little, entries, i);
    lemma_entry_found::<K, V>(little, entries, i);
    let padding = padding_at::<K>(at);
    assert(all.skip(at).skip(padding) =~= all.skip(at + padding));
}

pub(crate) proof fn lemma_scan_one<K: Key + ?Sized, V: Value>(
    little: bool,
    all: Seq<u8>,
    at: int,
    key: K::V,
    values: Seq<V>,
    end: nat,
)
    requires
        0 <= at <= all.len(),
        entry_read_at::<K, V>(little, at, all.skip(at)) == EntryRead::<K::V, V>::KeyAndValues(
            key,
            values,
            end,
        ),
    ensures
        scan_entries::<K, V>(little, all, at) == (
            seq![(key, values)] + scan_entries::<K, V>(little, all, at + end).0,
            scan_entries::<K, V>(little, all, at + end).1,
        ),
{
    reveal(scan_entries);
}

proof fn lemma_scan_none<K: Key + ?Sized, V: Value>(little: bool, all: Seq<u8>)
    ensures
        scan_entries::<K, V>(little, all, all.len() as int) == (
            Seq::<(K::V, Seq<V>)>::empty(),
            all.len() as int,
        ),
{
    reveal(scan_entries);
    lemma_nothing_there::<K, V>(little, all.len() as int, all.skip(all.len() as int));
}

proof fn lemma_scan_written<K: Key + ?Sized, V: Value>(
    little: bool,
    entries: Seq<(K::V, Seq<V>)>,
    i: int,
)
    requires
        0 <= i <= entries.len(),
        forall|j: int| 0 <= j < entries.len() ==> (#[trigger] entries[j]).1.len() <= u32::MAX,
    ensures
        ({
            let all = entries_bytes::<K, V>(little, entries);
            let front = entries_bytes::<K, V>(little, entries.take(i));
            &&& front.len() <= all.len()
            &&& scan_entries::<K, V>(little, all, front.len() as int) == (
                entries.skip(i),
                all.len() as int,
            )
        }),
    decreases entries.len() - i,
{
    let all = entries_bytes::<K, V>(little, entries);
    let front = entries_bytes::<K, V>(little, entries.take(i));
    let at = front.len() as int;
    if i == entries.len() {
        assert(entries.take(i) =~= entries);
        assert(entries.skip(i) =~= Seq::empty());
        lemma_scan_none::<K, V>(little, all);
    } else {
        let next = entries_bytes::<K, V>(little, entries.take(i + 1)).len() as int;
        lemma_scan_written::<K, V>(little, entries, i + 1);
        lemma_entry_found_at::<K, V>(little, entries, i);
        lemma_scan_one::<K, V>(
            little,
            all,
            at,
            entries[i].0,
            entries[i].1,
            (next - at) as nat,
        );
        assert(entries.skip(i) =~= seq![entries[i]] + entries.skip(i + 1));
    }
}

/// There is no entry where there are no bytes.
proof fn lemma_nothing_there<K: Key + ?Sized, V: Value>(little: bool, at: int, bytes: Seq<u8>)
    requires
        0 <= at,
        bytes.len() == 0,
    ensures
        entry_read_at::<K, V>(little, at, bytes) is Incomplete,
{
    K::law_align();
    lemma_round_up(at, K::alignment() as int);
    K::law_prefix(little, bytes, 0);
    assert(bytes.skip(0) =~= bytes);
}

/// The entries of a file are visited one by one, each once and in the order in which
/// they were written, and nothing is wrong with the file.
pub proof fn law_scan_written<K: Key + ?Sized, V: Value>(m: MapModel, entries: Seq<(K::V, Seq<V>)>)
    requires
        is_written::<K, V>(m, entries),
    ensures
        scan_entries::<K, V>(m.little, m.region(), 0).0 == entries,
        scan_corruption::<K, V>(m) is None,
{
    let all = m.region();
    lemma_scan_written::<K, V>(m.little, entries, 0);
    assert(entries.take(0) =~= Seq::empty());
    assert(entries.skip(0) =~= entries);
    lemma_nothing_there::<K, V>(m.little, all.len() as int, all.skip(all.len() as int));
}

/// What a file answers to a request for a bucket's entry.
proof fn lemma_bucket_answer<K: Key + ?Sized, V: Value>(
    m: MapModel,
    entries: Seq<(K::V, Seq<V>)>,
    i: int,
    n: int,
    kind: PartialEntryKind,
    wanted: Option<K::V>,
)
    requires
        is_written::<K, V>(m, entries),
        0 <= i < entries.len(),
        0 <= n < m.buckets_count,
        has_bucket::<K, V>(m.little, m.slots, entries, i, n),
    ensures
        ({
            let whole = EntryRead::<K::V, V>::KeyAndValues(
                entries[i].0,
                entries[i].1,
                entry_bytes::<K, V>(m.little, entries[i].0, entries[i].1).len(),
            );
            &&& m.bucket(n as u64) == entry_offset::<K, V>(m.little, entries, i)
            &&& m.bucket_pos(n as u64) + BUCKET_OFFSET_SIZE <= m.file.len()
            &&& m.entries_start() + m.bucket(n as u64) <= u64::MAX
            &&& entry_answer::<K, V>(
                m,
                kind,
                m.entries_start() + m.bucket(n as u64),
                wanted,
            ) == if wanted is Some && wanted != Some(entries[i].0) {
                Answer::<K::V, V>::Absent
            } else {
                Answer::Found(whole.restrict(kind))
            }
        }),
{
    let little = m.little;
    let all = m.region();
    let off = entry_offset::<K, V>(little, entries, i);
    lemma_entry_found::<K, V>(little, entries, i);
    let at = m.bucket_pos(n as u64);
    assert((n + 1) * BUCKET_OFFSET_SIZE <= m.buckets_count * BUCKET_OFFSET_SIZE);
    let stored = m.file.subrange(at, at + BUCKET_OFFSET_SIZE);
    law_native_inverse(little, stored);
    lemma_limits();
    assert(table_of(m)[n] == off);
    assert(suffix(m.file, m.entries_start() + off) =~= all.skip(off));
}

/// A key of the file is found with the values that were written for it.
pub proof fn law_get_written<K: Key + ?Sized, V: Value>(
    m: MapModel,
    entries: Seq<(K::V, Seq<V>)>,
    i: int,
)
    requires
        is_written::<K, V>(m, entries),
        0 <= i < entries.len(),
    ensures
        ({
            let request = RequestModel::Key(entries[i].0);
            let values = answer::<K, V>(m, PartialEntryKind::KeyAndValues, request);
            let count = answer::<K, V>(m, PartialEntryKind::KeyAndValuesLen, request);
            &&& !(values is Corrupt)
            &&& answer_values(values) == Some(entries[i].1)
            &&& !(count is Corrupt)
            &&& answer_values_len(count) == Some(entries[i].1.len())
        }),
{
    assert(is_in_table::<K, V>(m.little, m.slots, table_of(m).len(), entries, i));
    let n = choose|n: int|
        0 <= n < table_of(m).len() && #[trigger] has_bucket::<K, V>(
            m.little,
            m.slots,
            entries,
            i,
            n,
        );
    let wanted = Some(entries[i].0);
    lemma_bucket_answer::<K, V>(m, entries, i, n, PartialEntryKind::KeyAndValues, wanted);
    lemma_bucket_answer::<K, V>(m, entries, i, n, PartialEntryKind::KeyAndValuesLen, wanted);
}

/// A key that is not in the file is found to be absent.
pub proof fn law_get_absent<K: Key + ?Sized, V: Value>(
    m: MapModel,
    entries: Seq<(K::V, Seq<V>)>,
    key: K::V,
    kind: PartialEntryKind,
)
    requires
        is_written::<K, V>(m, entries),
        forall|i: int| 0 <= i < entries.len() ==> (#[trigger] entries[i]).0 != key,
    ensures
        answer::<K, V>(m, kind, RequestModel::Key(key)) == Answer::<K::V, V>::Absent,
{
    if let Some(n) = m.slot::<K>(key) {
        assert(m.slots.get((K::name(), K::stored(m.little, key))) == Some(n));
        assert(is_used::<K, V>(m.little, m.slots, entries, n as int));
        let i = choose|i: int|
            0 <= i < entries.len() && #[trigger] has_bucket::<K, V>(
                m.little,
                m.slots,
                entries,
                i,
                n as int,
            );
        lemma_bucket_answer::<K, V>(m, entries, i, n as int, kind, Some(key));
    }
}

/// The buckets lead to the keys of the file, each of them once.
pub proof fn law_keys_written<K: Key + ?Sized, V: Value>(m: MapModel, entries: Seq<(K::V, Seq<V>)>)
    requires
        is_written::<K, V>(m, entries),
    ensures
        exists|order: Seq<int>| #[trigger]
            is_selection(order, entries.len()) && order.len() == bucket_requests::<K::V>(m).len()
                && order.len() == entries.len() && forall|n: int|
                0 <= n < order.len() ==> answer::<K, V>(
                    m,
                    PartialEntryKind::KeyOnly,
                    (#[trigger] bucket_requests::<K::V>(m)[n]).1,
                ) == Answer::<K::V, V>::Found(EntryRead::KeyOnly(entries[order[n]].0)),
{
    let little = m.little;
    let count = m.buckets_count as nat;
    let requests = bucket_requests::<K::V>(m);
    let order = Seq::new(
        count,
        |n: int|
            choose|i: int|
                0 <= i < entries.len() && #[trigger] has_bucket::<K, V>(
                    little,
                    m.slots,
                    entries,
                    i,
                    n,
                ),
    );
    assert forall|n: int| 0 <= n < count implies 0 <= #[trigger] order[n] < entries.len()
        && has_bucket::<K, V>(little, m.slots, entries, order[n], n) by {
        assert(is_used::<K, V>(little, m.slots, entries, n));
    }
    assert forall|a: int, b: int| 0 <= a < order.len() && 0 <= b < order.len() && a != b implies
        order[a] != order[b] by {
        assert(has_bucket::<K, V>(little, m.slots, entries, order[a], a));
        assert(has_bucket::<K, V>(little, m.slots, entries, order[b], b));
    }
    assert(is_selection(order, entries.len()));
    assert forall|n: int| 0 <= n < order.len() implies answer::<K, V>(
        m,
        PartialEntryKind::KeyOnly,
        (#[trigger] requests[n]).1,
    ) == Answer::<K::V, V>::Found(EntryRead::KeyOnly(entries[order[n]].0)) by {
        assert(0 <= order[n] < entries.len());
        lemma_bucket_answer::<K, V>(m, entries, order[n], n, PartialEntryKind::KeyOnly, None);
    }
}

/// The number of buckets is the number of keys in the file, no two of which are equal.
pub proof fn law_keys_count_written<K: Key + ?Sized, V: Value>(
    m: MapModel,
    entries: Seq<(K::V, Seq<V>)>,
)
    requires
        is_written::<K, V>(m, entries),
    ensures
        m.buckets_count == entries.len(),
        forall|i: int, j: int|
            0 <= i < j < entries.len() ==> (#[trigger] entries[i]).0 != (#[trigger] entries[j]).0,
{
    assert forall|i: int, j: int| 0 <= i < j < entries.len() implies (#[trigger] entries[i]).0 != (
    #[trigger] entries[j]).0 by {
        let little = m.little;
        lemma_entry_place::<K, V>(little, entries, j);
        lemma_entry_place::<K, V>(little, entries.take(j), i);
        lemma_entry_found::<K, V>(little, entries, i);
        assert(entries.take(j).take(i) =~= entries.take(i));
        assert(entries.take(j)[i] == entries[i]);
        assert(entry_offset::<K, V>(little, entries, i) < entry_offset::<K, V>(little, entries, j));
        assert(is_in_table::<K, V>(little, m.slots, table_of(m).len(), entries, i));
        let n = choose|n: int|
            0 <= n < table_of(m).len() && #[trigger] has_bucket::<K, V>(
                little,
                m.slots,
                entries,
                i,
                n,
            );
        if entries[i].0 == entries[j].0 {
            assert(has_bucket::<K, V>(little, m.slots, entries, j, n));
        }
    }
}

/// Whether the entry with the number `i` has the key `key`.
pub open spec fn has_key<M, V>(entries: Seq<(M, Seq<V>)>, i: int, key: M) -> bool {
    0 <= i < entries.len() && entries[i].0 == key
}

/// The values of a key among some entries.
pub open spec fn lookup<M, V>(entries: Seq<(M, Seq<V>)>, key: M) -> Option<Seq<V>> {
    if exists|i: int| has_key(entries, i, key) {
        Some(entries[choose|i: int| has_key(entries, i, key)].1)
    } else {
        None
    }
}

/// What is answered to a request for any key is what the entries say.
pub proof fn law_lookup_written<K: Key + ?Sized, V: Value>(
    m: MapModel,
    entries: Seq<(K::V, Seq<V>)>,
    key: K::V,
)
    requires
        is_written::<K, V>(m, entries),
    ensures
        ({
            let values = answer::<K, V>(
                m,
                PartialEntryKind::KeyAndValues,
                RequestModel::Key(key),
            );
            !(values is Corrupt) && answer_values(values) == lookup(entries, key)
        }),
{
    if exists|i: int| has_key(entries, i, key) {
        let i = choose|i: int| has_key(entries, i, key);
        law_get_written::<K, V>(m, entries, i);
    } else {
        assert forall|i: int| 0 <= i < entries.len() implies (#[trigger] entries[i]).0 != key by {
            assert(!has_key(entries, i, key));
        }
        law_get_absent::<K, V>(m, entries, key, PartialEntryKind::KeyAndValues);
    }
}

/// A visit of the keys of a file from a storage that does not fail ends with an error
/// only if the visitor does. Without one, the visitor was told each key once.
pub proof fn law_visit_keys_written<
    K: Key + ?Sized,
    V: Value,
    S: UniversalRead,
    F: KeyVisitor<K>,
>(
    m: MapModel,
    entries: Seq<(K::V, Seq<V>)>,
    before: Seq<(K::V, Result<(), F::Error>)>,
    after: Seq<(K::V, Result<(), F::Error>)>,
    r: Result<(), F::Error>,
)
    requires
        is_written::<K, V>(m, entries),
        S::infallible(),
        answered::<(), K, V, ToKeys<F>, S>(m, bucket_requests(m), before, after, r),
    ensures
        visits(
            Seq::new(entries.len(), |i: int| entries[i].0),
            before,
            after,
            r,
            false,
        ),
{
    law_keys_written::<K, V>(m, entries);
    let requests = bucket_requests::<K::V>(m);
    let n = entries.len();
    let p = choose|order: Seq<int>| #[trigger]
        is_selection(order, n) && order.len() == requests.len() && order.len() == n && forall|j: int|
            0 <= j < order.len() ==> answer::<K, V>(
                m,
                PartialEntryKind::KeyOnly,
                (#[trigger] requests[j]).1,
            ) == Answer::<K::V, V>::Found(EntryRead::KeyOnly(entries[order[j]].0));
    let args = expected_args::<(), K, V, ToKeys<F>>(m, requests);
    let keys = Seq::new(n, |i: int| entries[i].0);
    if let Err(e) = r {
        assert(!is_corruption::<(), K, V, ToKeys<F>>(m, requests, e));
    }
    let order2 = choose|order: Seq<int>| #[trigger]
        is_selection(order, args.len()) && visits_in_order(args, order, before, after, r, false);
    let order = Seq::new(order2.len(), |k: int| p[order2[k]]);
    lemma_selection_of_selection(p, order2, n);
    assert(is_selection(order, keys.len()));
    assert(visits_in_order(keys, order, before, after, r, false)) by {
        assert forall|k: int| 0 <= k < order.len() implies (#[trigger] after[before.len() + k]).0
            == keys[order[k]] by {
            assert(0 <= order2[k] < n);
            assert(after[before.len() + k].0 == args[order2[k]]);
            let request = requests[order2[k]];
        }
    }
}

/// A visit of the values of some keys of a file from a storage that does not fail
/// ends with an error only if the visitor does. Without one, the visitor was told
/// for each of the keys what the entries say.
pub proof fn law_visit_batch_written<
    Meta,
    K: Key + ?Sized,
    V: Value,
    S: UniversalRead,
    F: BatchVisitor<Meta, V>,
>(
    m: MapModel,
    entries: Seq<(K::V, Seq<V>)>,
    keys: Seq<(Meta, K::V)>,
    before: Seq<((Meta, Option<Seq<V>>), Result<(), F::Error>)>,
    after: Seq<((Meta, Option<Seq<V>>), Result<(), F::Error>)>,
    r: Result<(), F::Error>,
)
    requires
        is_written::<K, V>(m, entries),
        S::infallible(),
        answered::<Meta, K, V, ToBatch<F>, S>(
            m,
            Seq::new(keys.len(), |i: int| (keys[i].0, RequestModel::Key(keys[i].1))),
            before,
            after,
            r,
        ),
    ensures
        visits(
            Seq::new(keys.len(), |i: int| (keys[i].0, lookup(entries, keys[i].1))),
            before,
            after,
            r,
            false,
        ),
{
    let queue = Seq::new(keys.len(), |i: int| (keys[i].0, RequestModel::Key(keys[i].1)));
    let args = expected_args::<Meta, K, V, ToBatch<F>>(m, queue);
    let told = Seq::new(keys.len(), |i: int| (keys[i].0, lookup(entries, keys[i].1)));
    assert forall|i: int| 0 <= i < keys.len() implies #[trigger] args[i] == told[i] && !(answer::<
        K,
        V,
    >(m, PartialEntryKind::KeyAndValues, queue[i].1) is Corrupt) by {
        law_lookup_written::<K, V>(m, entries, keys[i].1);
    }
    if let Err(e) = r {
        assert(!is_corruption::<Meta, K, V, ToBatch<F>>(m, queue, e)) by {
            assert forall|i: int| 0 <= i < queue.len() implies !(answer::<K, V>(
                m,
                PartialEntryKind::KeyAndValues,
                (#[trigger] queue[i]).1,
            ) is Corrupt) by {
                assert(args[i] == told[i]);
            }
        }
    }
    assert(args =~= told);
}

proof fn lemma_written_positions<K: Key + ?Sized, V: Value>(
    little: bool,
    entries: Seq<(K::V, Seq<V>)>,
    i: nat,
)
    requires
        i <= entries.len(),
        forall|j: int| 0 <= j < entries.len() ==> (#[trigger] entries[j]).1.len() <= u32::MAX,
    ensures
        ({
            let all = entries_bytes::<K, V>(little, entries);
            let at = entries_bytes::<K, V>(little, entries.take(i as int)).len();
            &&& at <= all.len()
            &&& scan_position::<K, V>(little, all, i) == at
            &&& i < entries.len() ==> entry_span::<K, V>(little, all, at as int) <= entry_bytes::<
                K,
                V,
            >(little, entries[i as int].0, entries[i as int].1).len() + 32
            &&& i == entries.len() ==> entry_span::<K, V>(little, all, at as int) == 0
        }),
    decreases i,
{
    let all = entries_bytes::<K, V>(little, entries);
    let at = entries_bytes::<K, V>(little, entries.take(i as int)).len();
    if i > 0 {
        lemma_written_positions::<K, V>(little, entries, (i - 1) as nat);
        lemma_entry_found_at::<K, V>(little, entries, i - 1);
    } else {
        assert(entries.take(0) =~= Seq::empty());
    }
    if i < entries.len() {
        lemma_entry_found_at::<K, V>(little, entries, i as int);
        lemma_entry_place::<K, V>(little, entries, i as int);
        K::law_align();
        lemma_round_up(at as int, K::alignment() as int);
    } else {
        assert(entries.take(i as int) =~= entries);
        lemma_nothing_there::<K, V>(little, at as int, all.skip(at as int));
    }
}

/// A visit of the entries of a file, each of which fits in the buffer, from a storage
/// that does not fail, ends with an error only if the visitor does. Without one, the
/// visitor was told the entries in the order in which they were written.
pub proof fn law_visit_entries_written<
    K: Key + ?Sized,
    V: Value,
    S: UniversalRead,
    F: EntryVisitor<K, V>,
>(
    m: MapModel,
    entries: Seq<(K::V, Seq<V>)>,
    before: Seq<((K::V, Seq<V>), Result<(), F::Error>)>,
    after: Seq<((K::V, Seq<V>), Result<(), F::Error>)>,
    r: Result<(), F::Error>,
)
    requires
        is_written::<K, V>(m, entries),
        forall|i: int|
            0 <= i < entries.len() ==> fits_in_buffer(
                entry_bytes::<K, V>(
                    m.little,
                    (#[trigger] entries[i]).0,
                    entries[i].1,
                ).len() + 32,
            ),
        S::infallible(),
        scanned::<K, V, S, F::Error>(m, before, after, r),
    ensures
        before.len() <= after.len() <= before.len() + entries.len(),
        visits_in_order(
            entries,
            first_numbers((after.len() - before.len()) as nat),
            before,
            after,
            r,
            false,
        ),
{
    law_scan_written::<K, V>(m, entries);
    let told = (after.len() - before.len()) as nat;
    lemma_written_positions::<K, V>(m.little, entries, told);
    let at = entries_bytes::<K, V>(m.little, entries.take(told as int)).len() as int;
    if told < entries.len() {
        let next = entries[told as int];
    }
    assert(fits_in_buffer(entry_span::<K, V>(m.little, m.region(), at)));
}

proof fn lemma_table_bytes(little: bool, table: Seq<u64>, n: int)
    ensures
        table_bytes(little, table).len() == 8 * table.len(),
        0 <= n < table.len() ==> table_bytes(little, table).subrange(8 * n, 8 * n + 8)
            == native_bytes(little, table[n] as nat, 8),
    decreases table.len(),
{
    if table.len() > 0 {
        let rest = table.drop_last();
        lemma_limits();
        law_native_round_trip(little, table.last() as nat, 8);
        lemma_table_bytes(little, rest, n);
        let all = table_bytes(little, table);
        if 0 <= n < rest.len() {
            assert(all.subrange(8 * n, 8 * n + 8) =~= table_bytes(little, rest).subrange(
                8 * n,
                8 * n + 8,
            ));
        } else if n == rest.len() {
            assert(all.subrange(8 * n, 8 * n + 8) =~= native_bytes(little, table[n] as nat, 8));
        }
    }
}

/// A file in the format opens as a map that holds the entries that were written.
pub proof fn law_open_written<K: Key + ?Sized, V: Value>(
    little: bool,
    phf: Seq<u8>,
    table: Seq<u64>,
    entries: Seq<(K::V, Seq<V>)>,
)
    requires
        map_file::<K, V>(little, phf, table, entries).len() <= u64::MAX,
        phf_layout(phf) is Ok,
        !is_open_ended(phf),
        is_table_for::<K, V>(little, phf_table(little, phf_core(phf)), table, entries),
        forall|i: int| 0 <= i < entries.len() ==> (#[trigger] entries[i]).1.len() <= u32::MAX,
    ensures
        ({
            let file = map_file::<K, V>(little, phf, table, entries);
            open_model::<K>(little, file) matches Ok(m) && m.file == file && is_written::<K, V>(
                m,
                entries,
            )
        }),
{
    let file = map_file::<K, V>(little, phf, table, entries);
    let name = K::name();
    let pos = (HEADER_SIZE + phf.len()) as nat;
    let pos_bytes = native_bytes(little, pos, 8);
    let count_bytes = native_bytes(little, table.len(), 8);
    let stored_table = table_bytes(little, table);
    let stored_entries = entries_bytes::<K, V>(little, entries);
    K::law_align();
    lemma_limits();
    lemma_table_bytes(little, table, 0);
    lemma_native_len(little, pos);
    lemma_native_len(little, table.len());
    assert(file.len() == 24 + phf.len() + 8 * table.len() + stored_entries.len());
    law_native_round_trip(little, pos, 8);
    law_native_round_trip(little, table.len(), 8);
    assert(file.subrange(0, 8) =~= name);
    assert(file.subrange(8, 16) =~= pos_bytes);
    assert(file.subrange(16, 24) =~= count_bytes);
    assert(file.subrange(24, pos as int) =~= phf);
    let m = open_model::<K>(little, file)->Ok_0;
    assert(m.entries_start() == 24 + phf.len() + 8 * table.len());
    assert(m.region() =~= stored_entries);
    assert(table_of(m) =~= table) by {
        assert forall|n: int| 0 <= n < table.len() implies #[trigger] table_of(m)[n] == table[n] by {
            let at = m.bucket_pos(n as u64);
            lemma_table_bytes(little, table, n);
            assert(file.subrange(at, at + 8) =~= stored_table.subrange(8 * n, 8 * n + 8));
            law_native_round_trip(little, table[n] as nat, 8);
        }
    }
}

proof fn lemma_native_len(little: bool, n: nat)
    ensures
        native_bytes(little, n, 8).len() == 8,
{
    lemma_le_bytes_len(n, 8);
}

/// Where the values of a key can be read, their number can, and is that of the values.
pub proof fn law_count_agrees<K: Key + ?Sized, V: Value>(m: MapModel, request: RequestModel<K::V>)
    ensures
        ({
            let values = answer::<K, V>(m, PartialEntryKind::KeyAndValues, request);
            let count = answer::<K, V>(m, PartialEntryKind::KeyAndValuesLen, request);
            !(values is Corrupt) ==> {
                &&& !(count is Corrupt)
                &&& count is Absent <==> values is Absent
                &&& match answer_values(values) {
                    Some(values) => answer_values_len(count) == Some(values.len()),
                    None => answer_values_len(count) is None,
                }
            }
        }),
{
}

} // verus!

//! What a map file says.
//!
//! [`MapModel`] is an opened file as a mathematical value, and [`answer`] is what
//! the file answers to a request for an entry.

use crate::bytes::native_value;
use crate::entry::{entry_read, entry_read_at, law_entry_at_prefix, EntryRead, PartialEntryKind};
use crate::header::{header_buckets_count, header_buckets_pos, header_key_type, HEADER_SIZE};
use crate::key::Key;
use crate::phf::{is_open_ended, phf_core, phf_layout, phf_table, PhfFault, PhfLayout};
use crate::value::Value;
use vstd::prelude::*;

verus! {

/// The number of bytes that a bucket takes in the bucket table.
pub const BUCKET_OFFSET_SIZE: u64 = 8;

/// An opened map file.
#[verifier::ext_equal]
pub ghost struct MapModel {
    /// The bytes of the file.
    pub file: Seq<u8>,
    /// Whether integers in the file are little-endian.
    pub little: bool,
    /// The position of the bucket table.
    pub buckets_pos: u64,
    /// The number of buckets.
    pub buckets_count: u64,
    /// The bucket of each key, given by the name of its type and its stored bytes.
    pub slots: Map<(Seq<u8>, Seq<u8>), u64>,
    /// Whether a search for a key that has no bucket leaves the words of the perfect
    /// hash function.
    pub open_ended: bool,
}

/// Why a file is no map with keys of the wanted type.
pub ghost enum OpenFailure {
    /// The file ends inside the header.
    NoHeader,
    /// The keys are of another type.
    KeyTypeMismatch,
    /// The bucket table overlaps the header.
    BucketsBeforeHeaderEnd,
    /// The file ends before the bucket table starts, the given number of bytes
    /// behind the header.
    NoPhfRegion(u64),
    /// The perfect hash function is cut short.
    PhfTruncated,
    /// The sizes in the perfect hash function are out of range.
    PhfMalformed,
    /// The bucket table ends beyond the range of a 64-bit position.
    BucketsOutOfRange,
}

/// The map that a file holds.
pub open spec fn open_model<K: Key + ?Sized>(little: bool, file: Seq<u8>) -> Result<
    MapModel,
    OpenFailure,
> {
    let buckets_pos = header_buckets_pos(little, file);
    let buckets_count = header_buckets_count(little, file);
    let region = file.subrange(HEADER_SIZE as int, buckets_pos as int);
    if file.len() < HEADER_SIZE {
        Err(OpenFailure::NoHeader)
    } else if header_key_type(file) != K::name() {
        Err(OpenFailure::KeyTypeMismatch)
    } else if buckets_pos < HEADER_SIZE {
        Err(OpenFailure::BucketsBeforeHeaderEnd)
    } else if file.len() < buckets_pos {
        Err(OpenFailure::NoPhfRegion((buckets_pos - HEADER_SIZE) as u64))
    } else if phf_layout(region) == Err::<PhfLayout, PhfFault>(PhfFault::Truncated) {
        Err(OpenFailure::PhfTruncated)
    } else if phf_layout(region) == Err::<PhfLayout, PhfFault>(PhfFault::Malformed) {
        Err(OpenFailure::PhfMalformed)
    } else if buckets_pos + buckets_count * BUCKET_OFFSET_SIZE > u64::MAX {
        Err(OpenFailure::BucketsOutOfRange)
    } else {
        Ok(
            MapModel {
                file,
                little,
                buckets_pos: buckets_pos as u64,
                buckets_count: buckets_count as u64,
                slots: phf_table(little, phf_core(region)),
                open_ended: is_open_ended(region),
            },
        )
    }
}

/// What a request asks for: the entry at an offset, or the entry of a key.
pub ghost enum RequestModel<M> {
    Offset(u64),
    Key(M),
}

/// What is wrong with a part of a file.
pub ghost enum Corruption {
    /// A search for a key leaves the words of the perfect hash function.
    NoLevel,
    /// The file ends before the bucket does.
    NoBucket,
    /// An entry is said to start beyond the range of a 64-bit position.
    OffsetOutOfRange,
    /// An entry does not start with a key.
    InvalidKey,
    /// The file ends before the entry does.
    Truncated,
    /// The file ends before the first entry starts.
    NoEntries,
    /// The file goes on behind the last entry.
    TrailingBytes,
}

/// The message of the error that reports a corruption.
pub open spec fn message(corruption: Corruption) -> Seq<char> {
    match corruption {
        Corruption::NoLevel => "Hash function ends in an empty level"@,
        Corruption::NoBucket => "Can't read bucket offset"@,
        Corruption::OffsetOutOfRange => "Entry offset out of range"@,
        Corruption::InvalidKey => "Invalid key"@,
        Corruption::Truncated => "Entry beyond the end of the file"@,
        Corruption::NoEntries => "Entries beyond the end of the file"@,
        Corruption::TrailingBytes => "Trailing bytes left after parsing all entries"@,
    }
}

/// The answer of a file to a request.
pub ghost enum Answer<M, V> {
    /// There is no such entry.
    Absent,
    /// The wanted fields of the entry.
    Found(EntryRead<M, V>),
    /// The file is corrupt where the entry should be.
    Corrupt(Corruption),
}

/// What a file holds from the position `at` on.
pub open spec fn suffix(file: Seq<u8>, at: int) -> Seq<u8> {
    if at <= file.len() {
        file.skip(at)
    } else {
        Seq::empty()
    }
}

impl MapModel {
    /// Where the entries start: right behind the bucket table.
    pub open spec fn entries_start(self) -> int {
        self.buckets_pos + self.buckets_count * BUCKET_OFFSET_SIZE
    }

    /// The bucket of a key.
    pub open spec fn slot<K: Key + ?Sized>(self, key: K::V) -> Option<u64> {
        self.slots.get((K::name(), K::stored(self.little, key)))
    }

    /// Where the bucket with the number `n` stands.
    pub open spec fn bucket_pos(self, n: u64) -> int {
        self.buckets_pos + n * BUCKET_OFFSET_SIZE
    }

    /// What the bucket with the number `n` holds: the offset of an entry.
    pub open spec fn bucket(self, n: u64) -> nat {
        let at = self.bucket_pos(n);
        native_value(self.little, self.file.subrange(at, at + BUCKET_OFFSET_SIZE))
    }

    /// The bytes from the first entry on.
    pub open spec fn region(self) -> Seq<u8> {
        suffix(self.file, self.entries_start())
    }
}

/// The answer to a request for the entry at the position `at`, which has to have
/// the key `wanted` if there is one.
pub open spec fn entry_answer<K: Key + ?Sized, V: Value>(
    m: MapModel,
    kind: PartialEntryKind,
    at: int,
    wanted: Option<K::V>,
) -> Answer<K::V, V> {
    let entry = entry_read::<K, V>(m.little, suffix(m.file, at));
    if entry is Invalid {
        Answer::Corrupt(Corruption::InvalidKey)
    } else if wanted is Some && entry.key() is Some && entry.key() != wanted {
        Answer::Absent
    } else if entry.satisfies(kind) {
        Answer::Found(entry.restrict(kind))
    } else {
        Answer::Corrupt(Corruption::Truncated)
    }
}

/// The answer to a request for the entry at an offset from the first entry.
pub open spec fn offset_answer<K: Key + ?Sized, V: Value>(
    m: MapModel,
    kind: PartialEntryKind,
    offset: nat,
    wanted: Option<K::V>,
) -> Answer<K::V, V> {
    if m.entries_start() + offset > u64::MAX {
        Answer::Corrupt(Corruption::OffsetOutOfRange)
    } else {
        entry_answer::<K, V>(m, kind, m.entries_start() + offset, wanted)
    }
}

/// The answer to a request.
pub open spec fn answer<K: Key + ?Sized, V: Value>(
    m: MapModel,
    kind: PartialEntryKind,
    request: RequestModel<K::V>,
) -> Answer<K::V, V> {
    match request {
        RequestModel::Offset(offset) => offset_answer::<K, V>(m, kind, offset as nat, None),
        RequestModel::Key(key) => match m.slot::<K>(key) {
            None => if m.open_ended {
                Answer::Corrupt(Corruption::NoLevel)
            } else {
                Answer::Absent
            },
            Some(n) => if m.bucket_pos(n) + BUCKET_OFFSET_SIZE > m.file.len() {
                Answer::Corrupt(Corruption::NoBucket)
            } else {
                offset_answer::<K, V>(m, kind, m.bucket(n), Some(key))
            },
        },
    }
}

/// The entries that stand one behind the other in `region` from the position `at`
/// on, and where they end.
#[verifier::opaque]
pub open spec fn scan_entries<K: Key + ?Sized, V: Value>(
    little: bool,
    region: Seq<u8>,
    at: int,
) -> (Seq<(K::V, Seq<V>)>, int)
    decreases region.len() - at,
{
    if 0 <= at <= region.len() {
        match entry_read_at::<K, V>(little, at, region.skip(at)) {
            EntryRead::KeyAndValues(key, values, end) => {
                proof {
                    law_entry_at_prefix::<K, V>(little, at, region.skip(at), 0);
                }
                let (entries, last) = scan_entries::<K, V>(little, region, at + end);
                (seq![(key, values)] + entries, last)
            },
            _ => (Seq::empty(), at),
        }
    } else {
        (Seq::empty(), at)
    }
}

/// What is wrong with the entries of a file, if anything is.
pub open spec fn scan_corruption<K: Key + ?Sized, V: Value>(m: MapModel) -> Option<Corruption> {
    let region = m.region();
    let end = scan_entries::<K, V>(m.little, region, 0).1;
    if m.entries_start() > m.file.len() {
        Some(Corruption::NoEntries)
    } else if entry_read_at::<K, V>(m.little, end, region.skip(end)) is Invalid {
        Some(Corruption::InvalidKey)
    } else if end < region.len() {
        Some(Corruption::TrailingBytes)
    } else {
        None
    }
}

} // verus!

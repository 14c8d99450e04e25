//! The map itself.

use crate::bytes::NativeOrder;
use crate::header::{header_buckets_pos, header_key_type, Header, HEADER_SIZE};
use crate::key::{bytes_equal, Key};
use crate::model::{open_model, MapModel, OpenFailure, BUCKET_OFFSET_SIZE};
use crate::phf::{Phf, PhfFault};
use crate::universal_io::{
    can_read, is_data_err, is_read_error, uio_data_err, Access, ErrorKind, IoError, ReadRange,
    UniversalIoError, UniversalRead,
};
use crate::value::Value;
use std::marker::PhantomData;
use vstd::prelude::*;

verus! {

/// A hash map in a file that is read through [`UniversalRead`].
pub struct UniversalHashMap<K: Key + ?Sized, V: Value, S: UniversalRead> {
    storage: S,
    header: Header,
    phf: Phf,
    order: NativeOrder,
    /// Where the entries start in the file, right behind the bucket table.
    entries_start: u64,
    values: PhantomData<V>,
    keys: PhantomData<K>,
}

/// Where the header stands in a file.
pub open spec fn header_range() -> ReadRange {
    ReadRange { byte_offset: 0, length: HEADER_SIZE }
}

/// Where the perfect hash function stands in a file, with the padding behind it, when the
/// bucket table is where the header says.
pub open spec fn phf_range(buckets_pos: nat) -> ReadRange {
    ReadRange { byte_offset: HEADER_SIZE, length: (buckets_pos - HEADER_SIZE) as u64 }
}

/// Whether the reads can succeed after which a storage is found to hold no map.
pub open spec fn is_read_up_to<S: UniversalRead>(
    little: bool,
    storage: S,
    failure: OpenFailure,
) -> bool {
    match failure {
        OpenFailure::NoHeader => true,
        OpenFailure::KeyTypeMismatch
        | OpenFailure::BucketsBeforeHeaderEnd
        | OpenFailure::NoPhfRegion(_) => can_read(storage, header_range()),
        OpenFailure::PhfTruncated
        | OpenFailure::PhfMalformed
        | OpenFailure::BucketsOutOfRange => can_read(storage, header_range()) && can_read(
            storage,
            phf_range(header_buckets_pos(little, storage.contents())),
        ),
    }
}

/// Whether `e` reports why a storage holds no map.
pub open spec fn is_open_error<S: UniversalRead>(
    storage: S,
    failure: OpenFailure,
    e: UniversalIoError,
) -> bool {
    match failure {
        OpenFailure::NoHeader => is_read_error(storage, header_range(), e),
        OpenFailure::KeyTypeMismatch => is_data_err(e, "Key type mismatch"@),
        OpenFailure::BucketsBeforeHeaderEnd => is_data_err(e, "buckets_pos before header end"@),
        OpenFailure::NoPhfRegion(length) => is_read_error(
            storage,
            ReadRange { byte_offset: HEADER_SIZE, length },
            e,
        ),
        OpenFailure::PhfTruncated => e matches UniversalIoError::Io(io) && io.kind
            == ErrorKind::UnexpectedEof && io.message@ == "failed to fill whole buffer"@,
        OpenFailure::PhfMalformed => is_data_err(e, "Malformed hash function"@),
        OpenFailure::BucketsOutOfRange => is_data_err(e, "Bucket table out of range"@),
    }
}

/// The position `n`, or the last one where `n` is beyond it.
pub open spec fn saturated(n: int) -> u64 {
    if n <= u64::MAX {
        n as u64
    } else {
        u64::MAX
    }
}

/// Where the bucket table stands.
pub open spec fn table_range(m: MapModel) -> ReadRange {
    ReadRange {
        byte_offset: m.buckets_pos,
        length: (m.buckets_count * BUCKET_OFFSET_SIZE) as u64,
    }
}

/// Where the bucket with the number `n` stands.
pub open spec fn bucket_range(m: MapModel, n: u64) -> ReadRange {
    ReadRange { byte_offset: saturated(m.bucket_pos(n)), length: BUCKET_OFFSET_SIZE }
}

impl<K: Key + ?Sized, V: Value, S: UniversalRead> UniversalHashMap<K, V, S> {
    #[verifier::type_invariant]
    spec fn well_formed(self) -> bool {
        let m = self.model();
        &&& open_model::<K>(m.little, m.file) == Ok::<MapModel, OpenFailure>(m)
        &&& self.entries_start == m.entries_start()
    }

    /// The file that the map is read from.
    pub closed spec fn model(&self) -> MapModel {
        MapModel {
            file: self.storage.contents(),
            little: self.order.is_little(),
            buckets_pos: self.header.buckets_pos,
            buckets_count: self.header.buckets_count,
            slots: self.phf.slots(),
            open_ended: self.phf.open_ended(),
        }
    }

    /// The storage that the map is read from.
    pub closed spec fn source(&self) -> S {
        self.storage
    }

    /// Whether `e` is an error that a read returns which opening a storage makes: that
    /// of the header, or that of the perfect hash function where the header says.
    pub open spec fn is_open_read_error(little: bool, storage: S, e: UniversalIoError) -> bool {
        let file = storage.contents();
        let buckets_pos = header_buckets_pos(little, file);
        ||| is_read_error(storage, header_range(), e)
        ||| {
            &&& can_read(storage, header_range())
            &&& file.len() >= HEADER_SIZE
            &&& header_key_type(file) == K::name()
            &&& buckets_pos >= HEADER_SIZE
            &&& is_read_error(storage, phf_range(buckets_pos), e)
        }
    }

    /// What opening a storage on a machine that is little-endian iff `little` gives:
    /// the map that it holds, or the reason why it holds none. A read that fails
    /// without a reason ends it too, so that nothing else comes of it than its error.
    pub open spec fn opens_as(little: bool, storage: S, r: Result<Self, UniversalIoError>) -> bool {
        match (r, open_model::<K>(little, storage.contents())) {
            (Ok(map), Ok(m)) => {
                &&& map.model() == m
                &&& map.source() == storage
                &&& can_read(storage, header_range())
                &&& can_read(storage, phf_range(m.buckets_pos as nat))
            },
            (Ok(_), Err(_)) => false,
            (Err(e), Err(failure)) => (is_read_up_to(little, storage, failure) && is_open_error(
                storage,
                failure,
                e,
            )) || (!S::infallible() && Self::is_open_read_error(little, storage, e)),
            (Err(e), Ok(_)) => !S::infallible() && Self::is_open_read_error(little, storage, e),
        }
    }

    /// Reads the header and the perfect hash function of a map.
    pub fn from_storage(order: NativeOrder, storage: S) -> (r: Result<Self, UniversalIoError>)
        ensures
            Self::opens_as(order.is_little(), storage, r),
    {
        // 1. Read the header.
        let header_bytes: Vec<u8> = match storage.read(
            Access::Sequential,
            ReadRange { byte_offset: 0, length: HEADER_SIZE },
        ) {
            Ok(bytes) => bytes,
            Err(e) => {
                return Err(e);
            },
        };
        let header: Header = match Header::read_from_prefix(&order, header_bytes.as_slice()) {
            Some(header) => header,
            None => {
                return Err(uio_data_err("Invalid header"));
            },
        };
        let ghost file = storage.contents();
        proof {
            assert(header_bytes@.subrange(0, 8) =~= file.subrange(0, 8));
            assert(header_bytes@.subrange(8, 16) =~= file.subrange(8, 16));
            assert(header_bytes@.subrange(16, 24) =~= file.subrange(16, 24));
        }
        let key_type: [u8; 8] = K::key_type();
        if !bytes_equal(header.key_type.as_slice(), key_type.as_slice()) {
            return Err(uio_data_err("Key type mismatch"));
        }
        // 2. Read the perfect hash function. It is followed by padding up to the
        //    bucket table, which is ignored.
        let region_len: u64 = match header.buckets_pos.checked_sub(HEADER_SIZE) {
            Some(len) => len,
            None => {
                return Err(uio_data_err("buckets_pos before header end"));
            },
        };
        let phf_bytes: Vec<u8> = match storage.read(
            Access::Sequential,
            ReadRange { byte_offset: HEADER_SIZE, length: region_len },
        ) {
            Ok(bytes) => bytes,
            Err(e) => {
                return Err(e);
            },
        };
        let phf: Phf = match Phf::read(&order, phf_bytes.as_slice()) {
            Ok(phf) => phf,
            Err(PhfFault::Truncated) => {
                return Err(
                    UniversalIoError::Io(
                        IoError {
                            kind: ErrorKind::UnexpectedEof,
                            message: "failed to fill whole buffer".to_owned(),
                        },
                    ),
                );
            },
            Err(_) => {
                return Err(uio_data_err("Malformed hash function"));
            },
        };
        let table_len: u64 = match header.buckets_count.checked_mul(BUCKET_OFFSET_SIZE) {
            Some(len) => len,
            None => {
                return Err(uio_data_err("Bucket table out of range"));
            },
        };
        let entries_start: u64 = match header.buckets_pos.checked_add(table_len) {
            Some(start) => start,
            None => {
                return Err(uio_data_err("Bucket table out of range"));
            },
        };
        Ok(
            UniversalHashMap {
                storage,
                header,
                phf,
                order,
                entries_start,
                values: PhantomData,
                keys: PhantomData,
            },
        )
    }

    /// Opens a map.
    pub fn open(path: S::Path, options: S::Options) -> (r: Result<Self, UniversalIoError>)
        ensures
            (r matches Err(e) && call_ensures(S::open, (path, options), Err(e))) || exists|
                storage: S,
                order: NativeOrder,
            |
                order.is_of_machine() && call_ensures(S::open, (path, options), Ok(storage))
                    && #[trigger] Self::opens_as(order.is_little(), storage, r),
    {
        match S::open(path, options) {
            Ok(storage) => Self::from_storage(NativeOrder::detect(), storage),
            Err(e) => Err(e),
        }
    }

    /// The number of keys in the map.
    pub fn keys_count(&self) -> (r: usize)
        ensures
            r == self.model().buckets_count as usize,
    {
        self.header.buckets_count as usize
    }

    /// Brings the file into the cache in RAM.
    pub fn populate(&self) -> (r: Result<(), UniversalIoError>)
        ensures
            call_ensures(S::populate, (&self.source(),), r),
    {
        self.storage.populate()
    }

    /// Drops the file from the cache in RAM.
    pub fn clear_ram_cache(&self) -> (r: Result<(), UniversalIoError>)
        ensures
            call_ensures(S::clear_ram_cache, (&self.source(),), r),
    {
        self.storage.clear_ram_cache()
    }

    /// The storage that the map is read from.
    pub(crate) fn storage(&self) -> (r: &S)
        ensures
            r.contents() == self.model().file,
            *r == self.source(),
    {
        &self.storage
    }

    /// The byte order of the machine.
    pub(crate) fn order(&self) -> (r: &NativeOrder)
        ensures
            r.is_little() == self.model().little,
    {
        &self.order
    }

    /// The bucket of a key.
    pub(crate) fn find(&self, key: &K) -> (r: Option<u64>)
        ensures
            r == self.model().slot::<K>(key@),
    {
        key.slot(&self.phf, &self.order)
    }

    /// Whether a search for a key that has no bucket leaves the words of the perfect
    /// hash function.
    pub(crate) fn is_open_ended(&self) -> (r: bool)
        ensures
            r == self.model().open_ended,
    {
        self.phf.is_open_ended()
    }

    /// Where the bucket with the number `n` stands.
    pub(crate) fn bucket_range(&self, n: u64) -> (r: ReadRange)
        ensures
            r == bucket_range(self.model(), n),
    {
        let byte_offset: u64 = match n.checked_mul(BUCKET_OFFSET_SIZE) {
            Some(distance) => self.header.buckets_pos.saturating_add(distance),
            None => u64::MAX,
        };
        ReadRange { byte_offset, length: BUCKET_OFFSET_SIZE }
    }

    /// Where the bucket table stands.
    pub(crate) fn table_range(&self) -> (r: ReadRange)
        ensures
            r == table_range(self.model()),
            r.byte_offset == self.model().buckets_pos,
            r.byte_offset + r.length == self.model().entries_start(),
    {
        proof {
            use_type_invariant(self);
        }
        ReadRange {
            byte_offset: self.header.buckets_pos,
            length: self.header.buckets_count * BUCKET_OFFSET_SIZE,
        }
    }

    /// Where the entries start.
    pub(crate) fn entries_start(&self) -> (r: u64)
        ensures
            r == self.model().entries_start(),
    {
        proof {
            use_type_invariant(self);
        }
        self.entries_start
    }

    /// Where the entry at an offset stands, if that is a position at all.
    pub(crate) fn entry_position(&self, offset: u64) -> (r: Option<u64>)
        ensures
            r is Some <==> self.model().entries_start() + offset <= u64::MAX,
            r matches Some(position) ==> position == self.model().entries_start() + offset,
    {
        proof {
            use_type_invariant(self);
        }
        self.entries_start.checked_add(offset)
    }
}

} // verus!

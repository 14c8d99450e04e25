//! Reading all entries of a map, one behind the other.

use crate::buffer::{fits_in_memory, AlignedBuf};
use crate::chunks::OrderedChunks;
use crate::entry::{
    entry_read_at, law_entry_at_prefix, lemma_padding, padding_at, EntryRead, PartialEntry,
    VALUES_LEN_SIZE,
};
use crate::key::{small_power_of_two, Key};
use crate::model::{message, scan_corruption, scan_entries, Corruption, MapModel};
use crate::sparse::visits_in_order;
use crate::uio::UniversalHashMap;
use crate::universal_io::{
    can_start, can_wait, has_len, is_data_err, is_ready, is_start_error, uio_data_err, Access,
    ReadRange, UniversalIoError, UniversalRead, AUTOCHUNK,
};
use crate::value::Value;
use crate::visit::{is_converted, is_storage_error, EntryVisitor};
use vstd::prelude::*;

verus! {

/// Whether the buffer for a scan can hold `len` bytes of an entry, behind what stays of
/// the one before it, and together with the part of the file that ends the entry.
pub open spec fn fits_in_buffer(len: nat) -> bool {
    fits_in_memory(len + AUTOCHUNK as nat + 64)
}

/// Where the first `n` entries of `region` end.
pub open spec fn scan_position<K: Key + ?Sized, V: Value>(
    little: bool,
    region: Seq<u8>,
    n: nat,
) -> int
    decreases n,
{
    if n == 0 {
        0
    } else {
        let at = scan_position::<K, V>(little, region, (n - 1) as nat);
        match entry_read_at::<K, V>(little, at, region.skip(at)) {
            EntryRead::KeyAndValues(_, _, end) => at + end,
            _ => at,
        }
    }
}

/// How many bytes the entry takes that stands in `region` at the position `at`, with the
/// padding in front of it: all that is left, if the entry is not whole.
pub open spec fn entry_span<K: Key + ?Sized, V: Value>(
    little: bool,
    region: Seq<u8>,
    at: int,
) -> nat {
    match entry_read_at::<K, V>(little, at, region.skip(at)) {
        EntryRead::KeyAndValues(_, _, end) => end,
        _ => (region.len() - at) as nat,
    }
}

/// The numbers below `n`, in ascending order.
pub open spec fn first_numbers(n: nat) -> Seq<int> {
    Seq::new(n, |i: int| i)
}

/// Whether `e` is what `From` makes of the error that reports bad data with the message `msg`.
pub open spec fn is_converted_data_err<E: From<UniversalIoError>>(e: E, msg: Seq<char>) -> bool {
    exists|io: UniversalIoError| is_data_err(io, msg) && #[trigger] is_converted(io, e)
}

/// Whether a visit of all entries can end with the error `e`, when the visitor was
/// told `told` entries and failed for none of them.
///
/// Either there is something wrong with the file, behind the entries that were
/// visited, or the storage failed, or the next entry does not fit in the buffer.
pub open spec fn is_scan_error<
    K: Key + ?Sized,
    V: Value,
    S: UniversalRead,
    E: From<UniversalIoError>,
>(m: MapModel, told: int, e: E) -> bool {
    let corruption = scan_corruption::<K, V>(m);
    let at = scan_position::<K, V>(m.little, m.region(), told as nat);
    ||| corruption is Some && told == scan_entries::<K, V>(m.little, m.region(), 0).0.len()
        && is_converted_data_err(e, message(corruption->0))
    ||| !S::infallible() && is_storage_error::<S, E>(e)
    ||| !fits_in_buffer(entry_span::<K, V>(m.little, m.region(), at)) && is_converted_data_err(
        e,
        "Entry too long"@,
    )
}

/// Whether a visitor was told the entries of a file, one behind the other, and up to
/// an error if there was one.
pub open spec fn scanned<
    K: Key + ?Sized,
    V: Value,
    S: UniversalRead,
    E: From<UniversalIoError>,
>(
    m: MapModel,
    before: Seq<((K::V, Seq<V>), Result<(), E>)>,
    after: Seq<((K::V, Seq<V>), Result<(), E>)>,
    r: Result<(), E>,
) -> bool {
    let entries = scan_entries::<K, V>(m.little, m.region(), 0).0;
    let told = after.len() - before.len();
    &&& 0 <= told <= entries.len()
    &&& visits_in_order(
        entries,
        first_numbers(told as nat),
        before,
        after,
        r,
        r matches Err(e) && is_scan_error::<K, V, S, E>(m, told, e),
    )
    &&& r is Ok ==> scan_corruption::<K, V>(m) is None
}

/// Where the entries stand in a file, if there is a place for them.
pub open spec fn entries_range(m: MapModel) -> ReadRange {
    ReadRange {
        byte_offset: m.entries_start() as u64,
        length: (m.file.len() - m.entries_start()) as u64,
    }
}

/// Whether a storage bore a visit of all entries.
///
/// If there can be no reads in flight, the visit ended without a call of the visitor,
/// with the error for which it could not be: that of the length of the storage, or
/// that of a new pipeline of reads, if there is a place for entries. If the visit
/// ended without an error, the read of each part of the entries could be started,
/// and waiting could succeed.
pub open spec fn is_scan_borne<A, S: UniversalRead, E: From<UniversalIoError>>(
    m: MapModel,
    storage: S,
    before: Seq<(A, Result<(), E>)>,
    after: Seq<(A, Result<(), E>)>,
    r: Result<(), E>,
) -> bool {
    &&& is_ready(storage) || (has_len(storage) && m.entries_start() > m.file.len()) || {
        &&& after == before
        &&& r matches Err(e) && exists|io: UniversalIoError|
            is_start_error(storage, io) && #[trigger] is_converted(io, e)
    }
    &&& r is Ok ==> {
        &&& can_wait::<S>()
        &&& forall|i: int|
            0 <= i < entries_range(m).chunk_count() ==> can_start(
                storage,
                Access::Sequential,
                #[trigger] entries_range(m).chunk(i),
            )
    }
}

/// How many bytes of a range the first `i` parts hold.
spec fn read_len(range: ReadRange, i: int) -> int {
    if i * AUTOCHUNK <= range.length {
        i * AUTOCHUNK
    } else {
        range.length as int
    }
}

proof fn lemma_chunk(file: Seq<u8>, range: ReadRange, i: int)
    requires
        range.fits(file.len()),
        file.len() <= u64::MAX,
        0 <= i < range.chunk_count(),
    ensures
        read_len(range, i) < read_len(range, i + 1) <= range.length,
        range.chunk(i).of(file) == range.of(file).subrange(
            read_len(range, i),
            read_len(range, i + 1),
        ),
{
    assert(range.chunk(i).of(file) =~= range.of(file).subrange(
        read_len(range, i),
        read_len(range, i + 1),
    ));
}

/// An entry is found at the same place when everything is moved by a multiple of
/// the alignment.
proof fn lemma_padding_shift<K: Key + ?Sized>(at: int, front: int)
    requires
        0 <= front <= at,
        front % (K::alignment() as int) == 0,
    ensures
        padding_at::<K>(at - front) == padding_at::<K>(at),
{
    K::law_align();
    let align = K::alignment() as int;
    lemma_padding(at, align);
    lemma_padding(at - front, align);
    vstd::arithmetic::div_mod::lemma_mod_sub_multiples_vanish(at, align);
    vstd::arithmetic::div_mod::lemma_sub_mod_noop(at, front, align);
    vstd::arithmetic::div_mod::lemma_mod_twice(at, align);
}

/// What is known in the middle of a scan: the entries before the position `at` were
/// told, and those behind it are the rest.
#[verifier::opaque]
spec fn scan_state<K: Key + ?Sized, V: Value, E>(
    little: bool,
    region: Seq<u8>,
    at: int,
    before: Seq<((K::V, Seq<V>), Result<(), E>)>,
    after: Seq<((K::V, Seq<V>), Result<(), E>)>,
) -> bool {
    let told = after.len() - before.len();
    let (entries, end) = scan_entries::<K, V>(little, region, 0);
    let (rest, rest_end) = scan_entries::<K, V>(little, region, at);
    &&& 0 <= at <= region.len()
    &&& 0 <= told <= entries.len()
    &&& rest == entries.skip(told)
    &&& rest_end == end
    &&& at == scan_position::<K, V>(little, region, told as nat)
    &&& after == before + Seq::new(told as nat, |i: int| (entries[i], Ok::<(), E>(())))
}

/// The next entry of a scan is told.
proof fn lemma_scan_step<
    K: Key + ?Sized,
    V: Value,
    S: UniversalRead,
    E: From<UniversalIoError>,
>(
    m: MapModel,
    at: int,
    before: Seq<((K::V, Seq<V>), Result<(), E>)>,
    calls: Seq<((K::V, Seq<V>), Result<(), E>)>,
    key: K::V,
    values: Seq<V>,
    end: nat,
    r: Result<(), E>,
)
    requires
        scan_state::<K, V, E>(m.little, m.region(), at, before, calls),
        entry_read_at::<K, V>(m.little, at, m.region().skip(at)) == EntryRead::<
            K::V,
            V,
        >::KeyAndValues(key, values, end),
    ensures
        r is Ok ==> scan_state::<K, V, E>(
            m.little,
            m.region(),
            at + end,
            before,
            calls.push(((key, values), r)),
        ),
        r is Err ==> scanned::<K, V, S, E>(
            m,
            before,
            calls.push(((key, values), r)),
            r,
        ),
{
    reveal(scan_state);
    reveal(scan_entries);
    let little = m.little;
    let region = m.region();
    let entries = scan_entries::<K, V>(little, region, 0).0;
    let rest = scan_entries::<K, V>(little, region, at + end).0;
    let now = calls.len() - before.len();
    law_entry_at_prefix::<K, V>(little, at, region.skip(at), 0);
    assert(entries.skip(now) == seq![(key, values)] + rest);
    assert(entries.skip(now).len() == 1 + rest.len());
    assert(entries.skip(now)[0] == (key, values));
    assert(entries[now] == (key, values));
    let after = calls.push(((key, values), r));
    if r is Ok {
        assert(r->Ok_0 == ());
        assert((seq![(key, values)] + rest).skip(1) =~= rest);
        assert(entries.skip(now).skip(1) =~= entries.skip(now + 1));
        assert(after =~= before + Seq::new(
            (now + 1) as nat,
            |i: int| (entries[i], Ok::<(), E>(())),
        ));
    } else {
        assert(after.last().1 == r);
    }
}

/// A scan ends.
proof fn lemma_scan_end<
    K: Key + ?Sized,
    V: Value,
    S: UniversalRead,
    E: From<UniversalIoError>,
>(
    m: MapModel,
    at: int,
    before: Seq<((K::V, Seq<V>), Result<(), E>)>,
    calls: Seq<((K::V, Seq<V>), Result<(), E>)>,
    r: Result<(), E>,
)
    requires
        scan_state::<K, V, E>(m.little, m.region(), at, before, calls),
        m.entries_start() <= m.file.len(),
        match r {
            Ok(_) => at == m.region().len(),
            Err(e) => {
                let found = entry_read_at::<K, V>(m.little, at, m.region().skip(at));
                ||| found is Invalid && is_converted_data_err(e, message(Corruption::InvalidKey))
                ||| !(found is Invalid) && !(found is KeyAndValues) && at < m.region().len()
                    && is_converted_data_err(e, message(Corruption::TrailingBytes))
                ||| !S::infallible() && is_storage_error::<S, E>(e)
                ||| !fits_in_buffer(entry_span::<K, V>(m.little, m.region(), at))
                    && is_converted_data_err(e, "Entry too long"@)
            },
        },
    ensures
        scanned::<K, V, S, E>(m, before, calls, r),
{
    reveal(scan_state);
    reveal(scan_entries);
    let little = m.little;
    let region = m.region();
    let (entries, end) = scan_entries::<K, V>(little, region, 0);
    let now = calls.len() - before.len();
    if r is Ok {
        K::law_align();
        lemma_padding(at, K::alignment() as int);
        K::law_prefix(little, region.skip(at), 0);
        assert(region.skip(at).len() == 0);
        assert(region.skip(at).skip(0) =~= region.skip(at));
        assert(entry_read_at::<K, V>(little, at, region.skip(at)) is Incomplete);
        assert(entries.skip(now).len() == 0);
    } else {
        let found = entry_read_at::<K, V>(little, at, region.skip(at));
        if !(found is KeyAndValues) {
            assert(entries.skip(now).len() == 0);
            assert(now == entries.len());
            assert(end == at);
        }
    }
}

impl<K: Key + ?Sized, V: Value, S: UniversalRead> UniversalHashMap<K, V, S> {
    /// The error for a visitor.
    fn scan_error<F: EntryVisitor<K, V>>(io: UniversalIoError) -> (e: F::Error)
        ensures
            is_converted(io, e),
            S::reports(io) ==> is_storage_error::<S, F::Error>(e),
            forall|msg: Seq<char>| is_data_err(io, msg) ==> #[trigger] is_converted_data_err(e, msg),
    {
        let e: F::Error = <F::Error as From<UniversalIoError>>::from(io);
        assert(is_converted(io, e));
        e
    }

    /// Visits the entries that are whole in a buffer, from the position `start` on.
    /// Returns the position behind the last of them.
    fn visit_buffered<F: EntryVisitor<K, V>>(
        &self,
        buf: &[u8],
        start: usize,
        f: &mut F,
        Ghost(front): Ghost<int>,
        Ghost(before): Ghost<Seq<((K::V, Seq<V>), Result<(), F::Error>)>>,
    ) -> (r: Result<usize, F::Error>)
        requires
            ({
                let region = self.model().region();
                &&& 0 <= front <= front + start <= front + buf@.len() <= region.len()
                &&& front % (K::alignment() as int) == 0
                &&& buf@ == region.subrange(front, front + buf@.len())
                &&& self.model().entries_start() <= self.model().file.len()
                &&& scan_state::<K, V, F::Error>(
                    self.model().little,
                    region,
                    front + start,
                    before,
                    old(f).calls(),
                )
            }),
        ensures
            ({
                let m = self.model();
                let region = m.region();
                match r {
                    Ok(end) => {
                        &&& start <= end <= buf@.len()
                        &&& scan_state::<K, V, F::Error>(
                            m.little,
                            region,
                            front + end,
                            before,
                            final(f).calls(),
                        )
                        &&& !(entry_read_at::<K, V>(
                            m.little,
                            front + end,
                            region.subrange(front + end, front + buf@.len()),
                        ) is KeyAndValues)
                        &&& !(entry_read_at::<K, V>(
                            m.little,
                            front + end,
                            region.subrange(front + end, front + buf@.len()),
                        ) is Invalid)
                    },
                    Err(e) => scanned::<K, V, S, F::Error>(
                        m,
                        before,
                        final(f).calls(),
                        Err(e),
                    ),
                }
            }),
    {
        let ghost m = self.model();
        let ghost region = m.region();
        let ghost little = m.little;
        let mut at: usize = start;
        loop
            invariant
                m == self.model(),
                region == m.region(),
                little == m.little,
                m.entries_start() <= m.file.len(),
                0 <= front <= front + start <= front + at <= front + buf@.len() <= region.len(),
                front % (K::alignment() as int) == 0,
                buf@ == region.subrange(front, front + buf@.len()),
                scan_state::<K, V, F::Error>(little, region, front + at, before, f.calls()),
            decreases buf@.len() - at,
        {
            let view: &[u8] = vstd::slice::slice_subrange(buf, at, buf.len());
            let ghost pos = front + at;
            proof {
                assert(view@ =~= region.subrange(pos, front + buf@.len()));
                assert(view@ =~= region.skip(pos).take(buf@.len() - at));
                lemma_padding_shift::<K>(pos, front);
                law_entry_at_prefix::<K, V>(little, pos, region.skip(pos), buf@.len() - at);
                law_entry_at_prefix::<K, V>(little, pos, view@, 0);
            }
            let parsed: PartialEntry<K, V> = match PartialEntry::parse(self.order(), at, view) {
                Ok(parsed) => parsed,
                Err(_) => {
                    let e: F::Error = Self::scan_error::<F>(uio_data_err("Invalid key"));
                    proof {
                        lemma_scan_end::<K, V, S, F::Error>(
                            m,
                            pos,
                            before,
                            f.calls(),
                            Err(e),
                        );
                    }
                    return Err(e);
                },
            };
            match parsed {
                PartialEntry::KeyAndValues(key, values, end) => {
                    let ghost calls = f.calls();
                    let r: Result<(), F::Error> = f.visit(K::as_key(&key), values.as_slice());
                    proof {
                        lemma_scan_step::<K, V, S, F::Error>(
                            m,
                            pos,
                            before,
                            calls,
                            K::model(key),
                            values@,
                            end as nat,
                            r,
                        );
                    }
                    if let Err(e) = r {
                        return Err(e);
                    }
                    at = at + end;
                },
                _ => {
                    return Ok(at);
                },
            }
        }
    }

    /// Visits all entries, in the order in which they stand in the file.
    ///
    /// The file is read part by part. Only the entry that the last part ends in is
    /// kept until the next one is there.
    #[verifier::rlimit(40)]
    pub fn for_each_entry<F: EntryVisitor<K, V>>(&self, f: &mut F) -> (r: Result<(), F::Error>)
        ensures
            scanned::<K, V, S, F::Error>(
                self.model(),
                old(f).calls(),
                final(f).calls(),
                r,
            ),
            is_scan_borne(self.model(), self.source(), old(f).calls(), final(f).calls(), r),
    {
        let ghost m = self.model();
        let ghost region = m.region();
        let ghost before = f.calls();
        let ghost align = K::alignment() as int;
        proof {
            K::law_align();
            reveal(scan_state);
            let entries = scan_entries::<K, V>(m.little, region, 0).0;
            assert(entries.skip(0) =~= entries);
            assert(scan_state::<K, V, F::Error>(m.little, region, 0, before, before));
        }
        let file_len: u64 = match self.storage().len() {
            Ok(len) => len,
            Err(io) => {
                let e: F::Error = Self::scan_error::<F>(io);
                proof {
                    reveal(scan_state);
                }
                return Err(e);
            },
        };
        assert(has_len(self.source()));
        let start: u64 = self.entries_start();
        if file_len < start {
            let e: F::Error = Self::scan_error::<F>(
                uio_data_err("Entries beyond the end of the file"),
            );
            proof {
                reveal(scan_entries);
                K::law_prefix(m.little, region, 0);
                assert(region.skip(0) =~= region);
                lemma_padding(0, align);
            }
            return Err(e);
        }
        let range: ReadRange = ReadRange { byte_offset: start, length: file_len - start };
        assert(range.of(m.file) =~= region);
        let mut chunks: OrderedChunks<'_, S> = match OrderedChunks::new(self.storage(), range) {
            Ok(chunks) => chunks,
            Err(io) => {
                let e: F::Error = Self::scan_error::<F>(io);
                proof {
                    lemma_scan_end::<K, V, S, F::Error>(
                        m,
                        0,
                        before,
                        before,
                        Err(e),
                    );
                }
                return Err(e);
            },
        };
        assert(is_ready(self.source()));
        let unit: usize = K::align();
        let mut buf: AlignedBuf = AlignedBuf::new(Self::align_of_buffer());
        // Entries are found by their distance from the first one, of which only the
        // remainder by the alignment matters. So the buffer always starts at a multiple
        // of the alignment, and `view_start` says where the part of it starts that was
        // not visited yet.
        let mut view_start: usize = 0;
        let ghost mut front: int = 0;
        proof {
            K::law_prefix(m.little, region.subrange(0, 0), 0);
            lemma_padding(0, align);
            assert(region.subrange(0, 0).skip(0) =~= region.subrange(0, 0));
            assert(buf@ =~= region.subrange(0, 0));
        }
        loop
            invariant
                is_ready(self.source()),
                m == self.model(),
                region == m.region(),
                m.entries_start() <= m.file.len(),
                before == old(f).calls(),
                chunks.inv(),
                chunks.file() == m.file,
                chunks.source() == self.source(),
                chunks.range() == range,
                range == entries_range(m),
                range.of(m.file) == region,
                range.fits(m.file.len()),
                m.file.len() <= u64::MAX,
                align == K::alignment() == unit,
                0 < align <= 32,
                view_start < align,
                0 <= chunks.position() <= range.chunk_count(),
                0 <= front <= front + view_start <= front + buf@.len(),
                front + buf@.len() == read_len(range, chunks.position()),
                read_len(range, chunks.position()) <= region.len(),
                front % align == 0,
                buf@ == region.subrange(front, front + buf@.len()),
                scan_state::<K, V, F::Error>(
                    m.little,
                    region,
                    front + view_start,
                    before,
                    f.calls(),
                ),
                !(entry_read_at::<K, V>(
                    m.little,
                    front + view_start,
                    region.subrange(front + view_start, front + buf@.len()),
                ) is KeyAndValues),
                !(entry_read_at::<K, V>(
                    m.little,
                    front + view_start,
                    region.subrange(front + view_start, front + buf@.len()),
                ) is Invalid),
            ensures
                chunks.position() == range.chunk_count(),
                can_wait::<S>(),
            decreases range.chunk_count() - chunks.position(),
        {
            let ghost part_number = chunks.position();
            let part: Vec<u8> = match chunks.next() {
                Ok(Some(part)) => part,
                Ok(None) => {
                    break;
                },
                Err(io) => {
                    let e: F::Error = Self::scan_error::<F>(io);
                    proof {
                        lemma_scan_end::<K, V, S, F::Error>(
                            m,
                            front + view_start,
                            before,
                            f.calls(),
                            Err(e),
                        );
                    }
                    return Err(e);
                },
            };
            proof {
                lemma_chunk(m.file, range, part_number);
            }
            let ghost at = front + view_start;
            let ghost held = buf@.len() - view_start;
            proof {
                assert(region.skip(at).take(held) =~= region.subrange(at, at + held));
                law_entry_at_prefix::<K, V>(m.little, at, region.skip(at), held);
                assert(held <= entry_span::<K, V>(m.little, region, at));
                assert(part@.len() <= AUTOCHUNK);
            }
            if !buf.append(part.as_slice()) {
                let e: F::Error = Self::scan_error::<F>(uio_data_err("Entry too long"));
                proof {
                    lemma_scan_end::<K, V, S, F::Error>(m, at, before, f.calls(), Err(e));
                }
                return Err(e);
            }
            assert(buf@ =~= region.subrange(front, front + buf@.len()));
            view_start = match self.visit_buffered::<F>(
                buf.as_slice(),
                view_start,
                f,
                Ghost(front),
                Ghost(before),
            ) {
                Ok(end) => end,
                Err(e) => {
                    return Err(e);
                },
            };
            proof {
                vstd::arithmetic::div_mod::lemma_mod_decreases(view_start as nat, unit as nat);
            }
            let drop_len: usize = view_start - view_start % unit;
            if drop_len > 0 {
                let ghost full = buf@;
                buf.drop_front(drop_len);
                view_start = view_start - drop_len;
                proof {
                    lemma_dropped(front, drop_len as int, view_start + drop_len, align);
                    assert(buf@ =~= region.subrange(front + drop_len, front + full.len()));
                    front = front + drop_len;
                }
            }
        }
        proof {
            chunks.lemma_started();
            assert(read_len(range, range.chunk_count()) == region.len());
            assert(region.subrange(front + view_start, front + buf@.len()) =~= region.skip(
                front + view_start,
            ));
        }
        if buf.as_slice().len() > view_start {
            let e: F::Error = Self::scan_error::<F>(
                uio_data_err("Trailing bytes left after parsing all entries"),
            );
            proof {
                lemma_scan_end::<K, V, S, F::Error>(
                    m,
                    front + view_start,
                    before,
                    f.calls(),
                    Err(e),
                );
            }
            return Err(e);
        }
        proof {
            lemma_scan_end::<K, V, S, F::Error>(
                m,
                front + view_start,
                before,
                f.calls(),
                Ok(()),
            );
        }
        Ok(())
    }

    /// The alignment to ask for of the buffer that entries are read into: what a key, the
    /// number of values and a value need, as far as every machine has it. The buffer
    /// starts at a cache line whatever is asked for.
    fn align_of_buffer() -> (r: usize)
        ensures
            small_power_of_two(r),
    {
        let key: usize = K::align();
        let value: usize = V::byte_size();
        let both: usize = if key < VALUES_LEN_SIZE {
            VALUES_LEN_SIZE
        } else {
            key
        };
        let align: usize = if both < value {
            value
        } else {
            both
        };
        if align == 4 || align == 8 || align == 16 {
            align
        } else {
            32
        }
    }
}

/// What is dropped from the front of the buffer is a multiple of the alignment.
proof fn lemma_dropped(front: int, drop_len: int, view_start: int, align: int)
    requires
        0 < align,
        0 <= front,
        front % align == 0,
        0 <= view_start,
        drop_len == view_start - view_start % align,
    ensures
        (front + drop_len) % align == 0,
{
    vstd::arithmetic::div_mod::lemma_fundamental_div_mod(view_start, align);
    let q = view_start / align;
    assert(drop_len == q * align) by (nonlinear_arith)
        requires
            view_start == align * q + view_start % align,
            drop_len == view_start - view_start % align,
    ;
    vstd::arithmetic::div_mod::lemma_mod_multiples_vanish(q, front, align);
    assert(align * q + front == front + drop_len) by (nonlinear_arith)
        requires
            drop_len == q * align,
    ;
}

} // verus!

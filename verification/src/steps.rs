//! The steps of a request for an entry: what is read first, and what follows from
//! what was read.

use crate::bytes::native_value;
use crate::entry::{
    entry_read, estimated_size, grown_len, law_entry_prefix, law_grown_len, lemma_estimated_size,
    lemma_next_power_of_two, PartialEntryKind,
};
use crate::key::Key;
use crate::model::{
    answer, entry_answer, suffix, Answer, Corruption, MapModel, RequestModel, BUCKET_OFFSET_SIZE,
};
use crate::uio::{bucket_range, saturated};
use crate::universal_io::ReadRange;
use crate::value::Value;
use vstd::prelude::*;

verus! {

/// How far a request has come.
#[verifier::ext_equal]
pub ghost enum State<M> {
    /// The bucket of the key is to be read.
    ReadingOffset(M),
    /// The entry at `byte_offset` is to be read up to `expected_len` bytes, of which `buf`
    /// was read. It has to have the key `wanted`, if there is one.
    ReadingEntry { byte_offset: u64, buf: Seq<u8>, expected_len: u64, wanted: Option<M> },
}

/// What is done next for a request: something is read, or it is answered.
#[verifier::ext_equal]
pub ghost enum Step<M, V> {
    Read(State<M>),
    Answer(Answer<M, V>),
}

/// The state of a request for the entry at an offset from the first one.
pub open spec fn locate<K: Key + ?Sized, V: Value>(
    m: MapModel,
    kind: PartialEntryKind,
    offset: nat,
    wanted: Option<K::V>,
) -> Step<K::V, V> {
    if m.entries_start() + offset > u64::MAX {
        Step::Answer(Answer::Corrupt(Corruption::OffsetOutOfRange))
    } else {
        Step::Read(
            State::ReadingEntry {
                byte_offset: (m.entries_start() + offset) as u64,
                buf: Seq::empty(),
                expected_len: estimated_size::<K, V>(kind),
                wanted,
            },
        )
    }
}

/// The first step for a request. An entry at an offset is read as far as the wanted
/// fields are estimated to take. For a key the bucket is read, if there is one.
pub open spec fn first_step<K: Key + ?Sized, V: Value>(
    m: MapModel,
    kind: PartialEntryKind,
    request: RequestModel<K::V>,
) -> Step<K::V, V> {
    match request {
        RequestModel::Offset(offset) => locate::<K, V>(m, kind, offset as nat, None),
        RequestModel::Key(key) => match m.slot::<K>(key) {
            Some(_) => Step::Read(State::ReadingOffset(key)),
            None => if m.open_ended {
                Step::Answer(Answer::Corrupt(Corruption::NoLevel))
            } else {
                Step::Answer(Answer::Absent)
            },
        },
    }
}

/// The step that follows when `data` was read. A request is answered as soon as the
/// wanted fields are there, or another key than the wanted one. Otherwise more of
/// the entry is read, and the key is not looked at again once it was found to be
/// the wanted one.
pub open spec fn next_step<K: Key + ?Sized, V: Value>(
    m: MapModel,
    kind: PartialEntryKind,
    state: State<K::V>,
    data: Seq<u8>,
) -> Step<K::V, V> {
    match state {
        State::ReadingOffset(key) => if data.len() != BUCKET_OFFSET_SIZE {
            Step::Answer(Answer::Corrupt(Corruption::NoBucket))
        } else {
            locate::<K, V>(m, kind, native_value(m.little, data), Some(key))
        },
        State::ReadingEntry { byte_offset, buf, expected_len, wanted } => {
            let all = buf + data;
            let read = entry_read::<K, V>(m.little, all);
            if read is Invalid {
                Step::Answer(Answer::Corrupt(Corruption::InvalidKey))
            } else if wanted is Some && read.key() is Some && read.key() != wanted {
                Step::Answer(Answer::Absent)
            } else if read.satisfies(kind) {
                Step::Answer(Answer::Found(read.restrict(kind)))
            } else if byte_offset + all.len() >= m.file.len() {
                Step::Answer(Answer::Corrupt(Corruption::Truncated))
            } else {
                Step::Read(
                    State::ReadingEntry {
                        byte_offset,
                        buf: all,
                        expected_len: grown_len::<K>(all.len()),
                        wanted: if read.key() is Some {
                            None
                        } else {
                            wanted
                        },
                    },
                )
            }
        },
    }
}

/// The range that is read in a state, before what lies beyond the file is cut off: the
/// bucket, or what is missing of the entry.
pub open spec fn read_range<K: Key + ?Sized>(m: MapModel, state: State<K::V>) -> ReadRange {
    match state {
        State::ReadingOffset(key) => bucket_range(m, m.slot::<K>(key)->0),
        State::ReadingEntry { byte_offset, buf, expected_len, wanted } => ReadRange {
            byte_offset: saturated(byte_offset + buf.len()),
            length: if buf.len() <= expected_len {
                (expected_len - buf.len()) as u64
            } else {
                0
            },
        },
    }
}

/// What is read in a state.
pub open spec fn read_data<K: Key + ?Sized>(m: MapModel, state: State<K::V>) -> Seq<u8> {
    read_range::<K>(m, state).clamped(m.file.len() as u64).of(m.file)
}

/// Whether what a state says is so of the file, and leads to the answer to a request.
pub open spec fn leads_to<K: Key + ?Sized, V: Value>(
    m: MapModel,
    kind: PartialEntryKind,
    request: RequestModel<K::V>,
    state: State<K::V>,
) -> bool {
    match state {
        State::ReadingOffset(key) => {
            &&& request == RequestModel::<K::V>::Key(key)
            &&& m.slot::<K>(key) is Some
        },
        State::ReadingEntry { byte_offset, buf, expected_len, wanted } => {
            &&& answer::<K, V>(m, kind, request) == entry_answer::<K, V>(
                m,
                kind,
                byte_offset as int,
                wanted,
            )
            &&& buf.len() <= suffix(m.file, byte_offset as int).len()
            &&& buf == suffix(m.file, byte_offset as int).take(buf.len() as int)
            &&& buf.len() < expected_len
        },
    }
}

/// A bound on the bytes that are still to be read in a state, and on the steps to take.
pub open spec fn work_left<M>(m: MapModel, state: State<M>) -> nat {
    match state {
        State::ReadingOffset(_) => m.file.len() + 2,
        State::ReadingEntry { byte_offset, buf, .. } => if buf.len() <= suffix(
            m.file,
            byte_offset as int,
        ).len() {
            (suffix(m.file, byte_offset as int).len() - buf.len() + 1) as nat
        } else {
            1
        },
    }
}

/// What a read in the state `ReadingEntry` gives: the bytes behind those that are there.
proof fn lemma_entry_data(file: Seq<u8>, byte_offset: u64, len: nat, expected_len: u64)
    requires
        file.len() <= u64::MAX,
        len <= suffix(file, byte_offset as int).len(),
        len < expected_len,
    ensures
        ({
            let range = ReadRange {
                byte_offset: saturated(byte_offset + len),
                length: (expected_len - len) as u64,
            };
            let data = range.clamped(file.len() as u64).of(file);
            let all = suffix(file, byte_offset as int);
            &&& len + data.len() <= all.len()
            &&& all.take(len as int) + data == all.take((len + data.len()) as int)
            &&& len < all.len() ==> data.len() > 0
        }),
{
    let range = ReadRange {
        byte_offset: saturated(byte_offset + len),
        length: (expected_len - len) as u64,
    };
    let data = range.clamped(file.len() as u64).of(file);
    let all = suffix(file, byte_offset as int);
    assert(all.take(len as int) + data =~= all.take((len + data.len()) as int));
}

/// What a read in the state `ReadingOffset` gives: the bucket, or less than eight bytes.
proof fn lemma_bucket_data(m: MapModel, n: u64)
    requires
        m.file.len() <= u64::MAX,
    ensures
        ({
            let data = bucket_range(m, n).clamped(m.file.len() as u64).of(m.file);
            &&& data.len() == BUCKET_OFFSET_SIZE <==> m.bucket_pos(n) + BUCKET_OFFSET_SIZE
                <= m.file.len()
            &&& data.len() == BUCKET_OFFSET_SIZE ==> native_value(m.little, data) == m.bucket(n)
        }),
{
    let data = bucket_range(m, n).clamped(m.file.len() as u64).of(m.file);
    let at = m.bucket_pos(n);
    if at + BUCKET_OFFSET_SIZE <= m.file.len() {
        assert(data =~= m.file.subrange(at, at + BUCKET_OFFSET_SIZE));
    }
}

/// The first step for a request is its answer, or leads to it.
pub proof fn law_first_step<K: Key + ?Sized, V: Value>(
    m: MapModel,
    kind: PartialEntryKind,
    request: RequestModel<K::V>,
)
    ensures
        match first_step::<K, V>(m, kind, request) {
            Step::Answer(told) => told == answer::<K, V>(m, kind, request),
            Step::Read(state) => leads_to::<K, V>(m, kind, request, state) && work_left(m, state)
                <= m.file.len() + 2,
        },
{
    lemma_estimated_size::<K, V>(kind);
    if let Step::Read(State::ReadingEntry { byte_offset, .. }) = first_step::<K, V>(
        m,
        kind,
        request,
    ) {
        assert(suffix(m.file, byte_offset as int).take(0) =~= Seq::<u8>::empty());
    }
}

/// The step that follows a read is the answer, or leads to it with less work to do.
pub proof fn law_next_step<K: Key + ?Sized, V: Value>(
    m: MapModel,
    kind: PartialEntryKind,
    request: RequestModel<K::V>,
    state: State<K::V>,
)
    requires
        m.file.len() <= u64::MAX,
        leads_to::<K, V>(m, kind, request, state),
    ensures
        match next_step::<K, V>(m, kind, state, read_data::<K>(m, state)) {
            Step::Answer(told) => told == answer::<K, V>(m, kind, request),
            Step::Read(next) => {
                &&& next is ReadingEntry
                &&& leads_to::<K, V>(m, kind, request, next)
                &&& work_left(m, next) < work_left(m, state)
            },
        },
{
    let data = read_data::<K>(m, state);
    lemma_estimated_size::<K, V>(kind);
    match state {
        State::ReadingOffset(key) => {
            lemma_bucket_data(m, m.slot::<K>(key)->0);
            if let Step::Read(State::ReadingEntry { byte_offset, .. }) = next_step::<K, V>(
                m,
                kind,
                state,
                data,
            ) {
                assert(suffix(m.file, byte_offset as int).take(0) =~= Seq::<u8>::empty());
            }
        },
        State::ReadingEntry { byte_offset, buf, expected_len, wanted } => {
            let whole = suffix(m.file, byte_offset as int);
            let all = buf + data;
            lemma_entry_data(m.file, byte_offset, buf.len(), expected_len);
            assert(all == whole.take(all.len() as int));
            law_entry_prefix::<K, V>(m.little, whole, all.len() as int);
            if byte_offset + all.len() >= m.file.len() {
                assert(all =~= whole);
            } else {
                law_grown_len::<K>(all.len());
            }
        },
    }
}

/// No more of an entry is read than the wanted fields need: a request is answered by
/// the first read after which they are there.
pub proof fn law_reads_what_is_wanted<K: Key + ?Sized, V: Value>(
    m: MapModel,
    kind: PartialEntryKind,
    state: State<K::V>,
    data: Seq<u8>,
)
    ensures
        state matches State::ReadingEntry { buf, .. } ==> {
            entry_read::<K, V>(m.little, buf + data).satisfies(kind) ==> next_step::<K, V>(
                m,
                kind,
                state,
                data,
            ) is Answer
        },
{
}

/// A follow-up read starts where the bytes that are there end, inside the file, and is not
/// empty. If all was read that was asked for, it joins the read before it.
pub proof fn law_follow_up_joins<K: Key + ?Sized, V: Value>(
    m: MapModel,
    kind: PartialEntryKind,
    state: State<K::V>,
    data: Seq<u8>,
)
    requires
        m.file.len() <= u64::MAX,
        state is ReadingEntry,
    ensures
        next_step::<K, V>(m, kind, state, data) matches Step::Read(next) ==> {
            let there = state->byte_offset + state->buf.len() + data.len();
            let read = read_range::<K>(m, state).clamped(m.file.len() as u64);
            let range = read_range::<K>(m, next).clamped(m.file.len() as u64);
            &&& next is ReadingEntry
            &&& next->byte_offset == state->byte_offset
            &&& next->buf == state->buf + data
            &&& range.byte_offset == there
            &&& there < m.file.len()
            &&& range.length >= 1
            &&& data.len() == read.length ==> range.byte_offset == read.byte_offset + read.length
        },
{
    if next_step::<K, V>(m, kind, state, data) is Read {
        law_grown_len::<K>((state->buf + data).len());
    }
}

/// A follow-up read at most doubles what was read of an entry, or brings it to about
/// the size of a key.
pub proof fn law_follow_up_size<K: Key + ?Sized, V: Value>(
    m: MapModel,
    kind: PartialEntryKind,
    state: State<K::V>,
    data: Seq<u8>,
)
    ensures
        match (state, next_step::<K, V>(m, kind, state, data)) {
            (
                State::ReadingEntry { .. },
                Step::Read(State::ReadingEntry { buf, expected_len, .. }),
            ) => buf.len() > 0 ==> expected_len <= 2 * buf.len() || expected_len == K::size_est(),
            _ => true,
        },
{
    if let Step::Read(State::ReadingEntry { buf, .. }) = next_step::<K, V>(m, kind, state, data) {
        lemma_next_power_of_two(buf.len() + 1);
    }
}

} // verus!

//! Requests for single entries, with many reads in flight.
//!
//! A [`SparsePipeline`] takes requests one by one, says which range of the file to
//! read next, and takes what was read, in whatever order the reads complete.

use crate::bytes::{native_value, NativeOrder};
use crate::entry::{
    entry_read, estimated_size, grow, lemma_round_up, PartialEntry, PartialEntryKind,
};
use crate::key::Key;
use crate::model::{answer, message, Answer, Corruption, MapModel, RequestModel, BUCKET_OFFSET_SIZE};
use crate::pipeline::{missed, processed, refilled, Pending, PipelineModel};
use crate::steps::{
    first_step, law_first_step, law_next_step, leads_to, next_step, read_data, read_range,
    work_left, State, Step,
};
use crate::sum::{lemma_sum_update, sum};
use crate::uio::UniversalHashMap;
use crate::universal_io::{
    can_start, can_wait, has_len, is_data_err, is_ready, is_start_error, uio_data_err, Access,
    ErrorKind, ReadRange, UniversalIoError, UniversalRead,
};
use crate::value::Value;
use crate::visit::{told, Delivery};
use std::collections::{HashMap, VecDeque};
use vstd::prelude::*;

verus! {

/// Reads the offset of an entry, which takes eight bytes.
pub fn parse_entry_offset(order: &NativeOrder, data: &[u8]) -> (r: Result<u64, UniversalIoError>)
    ensures
        match r {
            Ok(offset) => data@.len() == BUCKET_OFFSET_SIZE && offset == native_value(
                order.is_little(),
                data@,
            ),
            Err(e) => data@.len() != BUCKET_OFFSET_SIZE && is_data_err(
                e,
                "Can't read bucket offset"@,
            ),
        },
{
    if data.len() == BUCKET_OFFSET_SIZE as usize {
        Ok(order.decode_u64(data))
    } else {
        Err(uio_data_err("Can't read bucket offset"))
    }
}

/// An entry offset is the integer that eight bytes hold, and no other number of bytes is one.
pub proof fn law_entry_offset(order: NativeOrder, data: &[u8], r: Result<u64, UniversalIoError>)
    requires
        call_ensures(parse_entry_offset, (&order, data), r),
    ensures
        data@.len() == 8 ==> (r matches Ok(offset) && offset == native_value(
            order.is_little(),
            data@,
        )),
        data@.len() != 8 ==> (r matches Err(UniversalIoError::Io(io)) && io.kind
            == ErrorKind::InvalidData && io.message@ == "Can't read bucket offset"@),
{
}

/// A request for an entry: by its offset, or by its key.
pub enum Request<'a, K: Key + ?Sized> {
    Offset(u64),
    Key(&'a K),
}

impl<'a, K: Key + ?Sized> Request<'a, K> {
    /// What is asked for.
    pub open spec fn model(self) -> RequestModel<K::V> {
        match self {
            Request::Offset(offset) => RequestModel::Offset(offset),
            Request::Key(key) => RequestModel::Key(key@),
        }
    }
}

/// How far a request has come.
///
/// A request by offset is in the state `ReadingEntry` from the start. One by key
/// is first in the state `ReadingOffset`. An entry that turns out to be longer
/// than what was read stays in the state `ReadingEntry`, with a greater
/// `expected_len`.
enum EntryState<'a, K: Key + ?Sized> {
    /// The bucket of the key is being read.
    ReadingOffset { key: &'a K },
    /// The entry is being read. There is a `requested_key` as long as it is not
    /// known whether the entry has the key that was asked for.
    ReadingEntry {
        byte_offset: u64,
        buf: Vec<u8>,
        expected_len: u64,
        requested_key: Option<&'a K>,
    },
}

/// The key that an entry has to have, if there is one.
spec fn wanted_key<K: Key + ?Sized>(requested_key: Option<&K>) -> Option<K::V> {
    match requested_key {
        Some(key) => Some(key@),
        None => None,
    }
}

impl<'a, K: Key + ?Sized> EntryState<'a, K> {
    spec fn model(self) -> State<K::V> {
        match self {
            EntryState::ReadingOffset { key } => State::ReadingOffset(key@),
            EntryState::ReadingEntry { byte_offset, buf, expected_len, requested_key } => {
                State::ReadingEntry {
                    byte_offset,
                    buf: buf@,
                    expected_len,
                    wanted: wanted_key(requested_key),
                }
            },
        }
    }
}

/// A request that was taken and not answered yet.
struct Entry<'a, Meta, K: Key + ?Sized> {
    /// The number of requests that were taken before.
    id: u64,
    meta: Meta,
    state: EntryState<'a, K>,
}

impl<'a, Meta, K: Key + ?Sized> Entry<'a, Meta, K> {
    spec fn model(self) -> Pending<Meta, K::V> {
        Pending { id: self.id, meta: self.meta, state: self.state.model() }
    }
}

/// What follows a read.
enum Outcome<'a, K: Key + ?Sized, V: Value> {
    /// More is to be read.
    Read(EntryState<'a, K>),
    /// The request is answered: with an entry, or with nothing.
    Tell(Option<PartialEntry<K, V>>),
    /// The file is corrupt.
    Fail(UniversalIoError),
}

impl<'a, K: Key + ?Sized, V: Value> Outcome<'a, K, V> {
    /// Whether the outcome is that of a step.
    spec fn is(self, kind: PartialEntryKind, step: Step<K::V, V>) -> bool {
        match self {
            Outcome::Read(state) => step == Step::<K::V, V>::Read(state.model()),
            Outcome::Tell(entry) => {
                &&& step == Step::<K::V, V>::Answer(told(kind, entry))
                &&& entry matches Some(entry) ==> entry.model().satisfies(kind)
            },
            Outcome::Fail(io) => step matches Step::Answer(Answer::Corrupt(corruption))
                && is_data_err(io, message(corruption)),
        }
    }
}

/// Whether `order` names some of the numbers below `n`, none of them twice.
pub open spec fn is_selection(order: Seq<int>, n: nat) -> bool {
    &&& order.no_duplicates()
    &&& forall|k: int| 0 <= k < order.len() ==> 0 <= #[trigger] order[k] < n
}

/// Whether a visitor with the calls `before` was told the things of `expected` that
/// `order` names, in that order, up to a call that failed, and then had the calls
/// `after`; and whether that can have ended with `r`, where it can end with an
/// error for another reason only if `reason` holds.
pub open spec fn visits_in_order<A, E>(
    expected: Seq<A>,
    order: Seq<int>,
    before: Seq<(A, Result<(), E>)>,
    after: Seq<(A, Result<(), E>)>,
    r: Result<(), E>,
    reason: bool,
) -> bool {
    &&& after.len() == before.len() + order.len()
    &&& forall|k: int| 0 <= k < before.len() ==> #[trigger] after[k] == before[k]
    &&& forall|k: int|
        0 <= k < order.len() ==> (#[trigger] after[before.len() + k]).0 == expected[order[k]]
    &&& forall|k: int|
        0 <= k < order.len() && (#[trigger] after[before.len() + k]).1 is Err ==> k == order.len() - 1
            && r == after[before.len() + k].1
    &&& r is Ok ==> order.len() == expected.len()
    &&& r is Err ==> (order.len() > 0 && after.last().1 == r) || reason
}

/// Whether a visitor was told each of `expected` once, in some order; see
/// [`visits_in_order`]. With an error, it was told some of them only.
pub open spec fn visits<A, E>(
    expected: Seq<A>,
    before: Seq<(A, Result<(), E>)>,
    after: Seq<(A, Result<(), E>)>,
    r: Result<(), E>,
    reason: bool,
) -> bool {
    exists|order: Seq<int>| #[trigger]
        is_selection(order, expected.len()) && visits_in_order(
            expected,
            order,
            before,
            after,
            r,
            reason,
        )
}

/// Selections of selections are selections.
pub proof fn lemma_selection_of_selection(outer: Seq<int>, inner: Seq<int>, n: nat)
    requires
        is_selection(outer, n),
        is_selection(inner, outer.len()),
    ensures
        is_selection(Seq::new(inner.len(), |k: int| outer[inner[k]]), n),
{
    let both = Seq::new(inner.len(), |k: int| outer[inner[k]]);
    assert forall|k: int| 0 <= k < both.len() implies 0 <= #[trigger] both[k] < n by {
        assert(0 <= inner[k] < outer.len());
    }
    assert forall|a: int, b: int| 0 <= a < both.len() && 0 <= b < both.len() && a != b implies
        both[a] != both[b] by {
        assert(inner[a] != inner[b]);
        assert(0 <= inner[a] < outer.len() && 0 <= inner[b] < outer.len());
    }
}

/// What is to be told of the answers to some requests.
pub open spec fn expected_args<Meta, K: Key + ?Sized, V: Value, D: Delivery<Meta, K, V>>(
    m: MapModel,
    queue: Seq<(Meta, RequestModel<K::V>)>,
) -> Seq<D::Arg> {
    Seq::new(
        queue.len(),
        |i: int| D::arg(queue[i].0, answer::<K, V>(m, D::kind(), queue[i].1)),
    )
}

/// Whether `e` reports a corruption of the file.
pub open spec fn is_report<Meta, K: Key + ?Sized, V: Value, D: Delivery<Meta, K, V>>(
    corruption: Corruption,
    e: D::Error,
) -> bool {
    exists|io: UniversalIoError|
        is_data_err(io, message(corruption)) && #[trigger] D::failure(io, e)
}

/// Whether the file is corrupt where one of some requests leads, and `e` says so.
pub open spec fn is_corruption<Meta, K: Key + ?Sized, V: Value, D: Delivery<Meta, K, V>>(
    m: MapModel,
    queue: Seq<(Meta, RequestModel<K::V>)>,
    e: D::Error,
) -> bool {
    exists|i: int|
        0 <= i < queue.len() && (answer::<K, V>(
            m,
            D::kind(),
            (#[trigger] queue[i]).1,
        ) matches Answer::Corrupt(corruption) && is_report::<Meta, K, V, D>(corruption, e))
}

/// Whether `e` comes from an error of a storage that can fail.
pub open spec fn is_storage_failure<
    Meta,
    K: Key + ?Sized,
    V: Value,
    D: Delivery<Meta, K, V>,
    S: UniversalRead,
>(e: D::Error) -> bool {
    !S::infallible() && exists|io: UniversalIoError| S::reports(io) && #[trigger] D::failure(io, e)
}

/// What some requests ask for.
pub open spec fn queue_model<'key, Meta, K: Key + ?Sized>(
    requests: Seq<(Meta, Request<'key, K>)>,
) -> Seq<(Meta, RequestModel<K::V>)> {
    Seq::new(requests.len(), |i: int| (requests[i].0, requests[i].1.model()))
}

/// The account of the requests of a pipeline.
ghost struct Ledger<Meta, M> {
    /// All of the requests.
    queue: Seq<(Meta, RequestModel<M>)>,
    /// The requests that were answered, in the order of the answers.
    done: Seq<int>,
    /// For each request, a bound on the work that is left.
    work: Seq<nat>,
}

/// The state of a number of requests, driven by the one who owns the reads.
///
/// [`SparsePipeline::refill`] says what to read next, and
/// [`SparsePipeline::process`] takes what was read.
struct SparsePipeline<'map, 'key, Meta, K: Key + ?Sized, V: Value, S: UniversalRead> {
    map: &'map UniversalHashMap<K, V, S>,
    /// The fields of an entry that are wanted: no more is read than these need.
    entry_kind: PartialEntryKind,
    /// Requests that wait for their next read, all of them in the state `ReadingEntry`.
    to_schedule: Vec<Entry<'key, Meta, K>>,
    /// Requests with a read in flight, by their number.
    in_flight: HashMap<u64, Entry<'key, Meta, K>>,
    /// The number of requests that were taken.
    taken: u64,
    entry_read_size_est: u64,
    file_len: u64,
    ledger: Ghost<Ledger<Meta, K::V>>,
}

impl<'map, 'key, Meta, K: Key + ?Sized, V: Value, S: UniversalRead> SparsePipeline<
    'map,
    'key,
    Meta,
    K,
    V,
    S,
> {
    /// The state of the requests.
    spec fn model(self) -> PipelineModel<Meta, K, V, S> {
        PipelineModel {
            map: *self.map,
            kind: self.entry_kind,
            read_size_est: self.entry_read_size_est,
            file_len: self.file_len,
            waiting: Seq::new(
                self.to_schedule@.len(),
                |j: int| self.to_schedule@[j].model(),
            ),
            in_flight: self.in_flight@.map_values(|entry: Entry<'key, Meta, K>| entry.model()),
            taken: self.taken,
        }
    }

    /// Whether a request that was taken is where the account says it is.
    spec fn entry_ok(self, entry: Entry<'key, Meta, K>) -> bool {
        let ledger = self.ledger@;
        let state = entry.state.model();
        &&& entry.id < self.taken
        &&& ledger.queue[entry.id as int].0 == entry.meta
        &&& leads_to::<K, V>(
            self.map.model(),
            self.entry_kind,
            ledger.queue[entry.id as int].1,
            state,
        )
        &&& ledger.work[entry.id as int] == work_left(self.map.model(), state)
    }

    /// Whether a request waits for its next read.
    spec fn is_waiting(self, id: int) -> bool {
        exists|j: int| 0 <= j < self.to_schedule@.len() && (#[trigger] self.to_schedule@[j]).id == id
    }

    /// Whether a request has a read in flight, or waits for one.
    spec fn is_under_way(self, id: int) -> bool {
        self.in_flight@.contains_key(id as u64) || self.is_waiting(id)
    }

    /// What stays true of a pipeline that has yet to take `requests`.
    spec fn inv(self, requests: Seq<(Meta, Request<'key, K>)>) -> bool {
        self.inv_except(requests, -1)
    }

    /// The same while the request `hole` is in nobody's hands, if it is not negative.
    #[verifier::opaque]
    spec fn inv_except(self, requests: Seq<(Meta, Request<'key, K>)>, hole: int) -> bool {
        let m = self.map.model();
        let queue = self.ledger@.queue;
        let done = self.ledger@.done;
        let work = self.ledger@.work;
        &&& self.file_len == m.file.len()
        &&& self.entry_read_size_est == estimated_size::<K, V>(self.entry_kind)
        &&& self.entry_read_size_est > 0
        &&& work.len() == queue.len() <= u64::MAX
        &&& self.taken + requests.len() == queue.len()
        &&& forall|i: int|
            0 <= i < requests.len() ==> (#[trigger] requests[i]).0 == queue[self.taken + i].0
                && requests[i].1.model() == queue[self.taken + i].1
        &&& forall|i: int|
            self.taken <= i < queue.len() ==> #[trigger] work[i] == m.file.len() + 3
        &&& forall|j: int|
            0 <= j < self.to_schedule@.len() ==> self.entry_ok(#[trigger] self.to_schedule@[j])
                && self.to_schedule@[j].state is ReadingEntry && !self.in_flight@.contains_key(
                self.to_schedule@[j].id,
            )
        &&& forall|j: int, k: int|
            0 <= j < k < self.to_schedule@.len() ==> (#[trigger] self.to_schedule@[j]).id != (
            #[trigger] self.to_schedule@[k]).id
        &&& forall|id: u64| #[trigger]
            self.in_flight@.contains_key(id) ==> self.in_flight@[id].id == id && self.entry_ok(
                self.in_flight@[id],
            )
        &&& is_selection(done, queue.len())
        &&& forall|i: int|
            0 <= i < queue.len() ==> (#[trigger] work[i] == 0 <==> done.contains(i))
        &&& forall|i: int|
            0 <= i < queue.len() && #[trigger] work[i] == 0 ==> !(answer::<K, V>(
                m,
                self.entry_kind,
                queue[i].1,
            ) is Corrupt)
        &&& forall|i: int|
            0 <= i < self.taken && #[trigger] work[i] > 0 && i != hole ==> self.is_under_way(i)
        &&& hole >= 0 ==> {
            &&& hole < self.taken
            &&& work[hole] > 0
            &&& !self.is_under_way(hole)
        }
    }

    /// The calls that a visitor has after the answers of `done`, if it had the calls `base`.
    spec fn told_so_far<D: Delivery<Meta, K, V>>(
        self,
        base: Seq<(D::Arg, Result<(), D::Error>)>,
    ) -> Seq<(D::Arg, Result<(), D::Error>)> {
        let ledger = self.ledger@;
        let args = expected_args::<Meta, K, V, D>(self.map.model(), ledger.queue);
        base + Seq::new(ledger.done.len(), |k: int| (args[ledger.done[k]], Ok(())))
    }

    /// Whether a visit of some requests can have ended with the error `e`.
    spec fn failed<D: Delivery<Meta, K, V>>(
        self,
        base: Seq<(D::Arg, Result<(), D::Error>)>,
        after: Seq<(D::Arg, Result<(), D::Error>)>,
        e: D::Error,
    ) -> bool {
        visits(
            expected_args::<Meta, K, V, D>(self.map.model(), self.ledger@.queue),
            base,
            after,
            Err::<(), D::Error>(e),
            is_corruption::<Meta, K, V, D>(self.map.model(), self.ledger@.queue, e),
        )
    }

    /// Whether a visitor can be told the answer to each request.
    spec fn can_tell<D: Delivery<Meta, K, V>>(self) -> bool {
        forall|i: int|
            0 <= i < self.ledger@.queue.len() ==> {
                let told = answer::<K, V>(
                    self.map.model(),
                    self.entry_kind,
                    (#[trigger] self.ledger@.queue[i]).1,
                );
                told is Corrupt || D::accepts(told)
            }
    }

    /// Whether `self` came from `before` without a change of what was asked for and taken.
    spec fn continues(self, before: Self) -> bool {
        &&& self.map == before.map
        &&& self.entry_kind == before.entry_kind
        &&& self.file_len == before.file_len
        &&& self.entry_read_size_est == before.entry_read_size_est
        &&& self.ledger@.queue == before.ledger@.queue
    }

    /// Whether the requests other than `id` are where they were.
    spec fn keeps_others(self, before: Self, id: int) -> bool {
        &&& forall|other: u64|
            other != id ==> (#[trigger] self.in_flight@.contains_key(other)
                <==> before.in_flight@.contains_key(other)) && (self.in_flight@.contains_key(other)
                ==> self.in_flight@[other] == before.in_flight@[other])
        &&& forall|j: int|
            0 <= j < before.to_schedule@.len() && (#[trigger] before.to_schedule@[j]).id != id ==> j
                < self.to_schedule@.len() && self.to_schedule@[j] == before.to_schedule@[j]
        &&& forall|j: int|
            0 <= j < self.to_schedule@.len() && (#[trigger] self.to_schedule@[j]).id != id ==> j
                < before.to_schedule@.len() && self.to_schedule@[j] == before.to_schedule@[j]
        &&& self.ledger@.work.len() == before.ledger@.work.len()
        &&& forall|i: int|
            0 <= i < self.ledger@.work.len() && i != id ==> #[trigger] self.ledger@.work[i]
                == before.ledger@.work[i]
    }

    /// What holds of the other requests still holds when one of them changes its place.
    proof fn lemma_others(
        self,
        before: Self,
        requests: Seq<(Meta, Request<'key, K>)>,
        hole: int,
        id: int,
    )
        requires
            before.inv_except(requests, hole),
            self.continues(before),
            self.taken >= before.taken,
            self.keeps_others(before, id),
            0 <= id <= u64::MAX,
        ensures
            forall|j: int|
                0 <= j < self.to_schedule@.len() && (#[trigger] self.to_schedule@[j]).id != id
                    ==> self.entry_ok(self.to_schedule@[j]) && self.to_schedule@[j].state is ReadingEntry
                    && !self.in_flight@.contains_key(self.to_schedule@[j].id),
            forall|j: int, k: int|
                0 <= j < k < self.to_schedule@.len() && (#[trigger] self.to_schedule@[j]).id != id && (
                #[trigger] self.to_schedule@[k]).id != id ==> self.to_schedule@[j].id
                    != self.to_schedule@[k].id,
            forall|other: u64|
                other != id && #[trigger] self.in_flight@.contains_key(other)
                    ==> self.in_flight@[other].id == other && self.entry_ok(self.in_flight@[other]),
            forall|i: int|
                0 <= i < before.taken && i != id && i != hole && #[trigger] self.ledger@.work[i] > 0
                    ==> self.is_under_way(i),
    {
        reveal(SparsePipeline::inv_except);
        assert forall|j: int|
            0 <= j < self.to_schedule@.len() && (#[trigger] self.to_schedule@[j]).id != id implies
            self.entry_ok(self.to_schedule@[j]) && self.to_schedule@[j].state is ReadingEntry
            && !self.in_flight@.contains_key(self.to_schedule@[j].id) by {
            assert(before.entry_ok(before.to_schedule@[j]));
        }
        assert forall|j: int, k: int|
            0 <= j < k < self.to_schedule@.len() && (#[trigger] self.to_schedule@[j]).id != id && (
            #[trigger] self.to_schedule@[k]).id != id implies self.to_schedule@[j].id
            != self.to_schedule@[k].id by {
            assert(before.to_schedule@[j].id != before.to_schedule@[k].id);
        }
        assert forall|other: u64|
            other != id && #[trigger] self.in_flight@.contains_key(other) implies
            self.in_flight@[other].id == other && self.entry_ok(self.in_flight@[other]) by {
            assert(before.in_flight@.contains_key(other));
            assert(before.entry_ok(before.in_flight@[other]));
        }
        assert forall|i: int|
            0 <= i < before.taken && i != id && i != hole && #[trigger] self.ledger@.work[i]
                > 0 implies self.is_under_way(i) by {
            assert(before.ledger@.work[i] > 0);
            if before.is_waiting(i) {
                let j = choose|j: int|
                    0 <= j < before.to_schedule@.len() && (#[trigger] before.to_schedule@[j]).id
                        == i;
                assert(self.to_schedule@[j].id == i);
            } else {
                assert(before.in_flight@.contains_key(i as u64));
            }
        }
    }

    /// Tells the visitor the answer to a request.
    fn finish<D: Delivery<Meta, K, V>>(
        &mut self,
        Ghost(requests): Ghost<Seq<(Meta, Request<'key, K>)>>,
        Ghost(base): Ghost<Seq<(D::Arg, Result<(), D::Error>)>>,
        id: u64,
        meta: Meta,
        entry: Option<PartialEntry<K, V>>,
        target: &mut D::Target,
    ) -> (r: Result<(), D::Error>)
        requires
            old(self).inv_except(requests, id as int),
            old(self).entry_kind == D::kind(),
            old(self).can_tell::<D>(),
            old(self).ledger@.queue[id as int].0 == meta,
            entry matches Some(entry) ==> entry.model().satisfies(D::kind()),
            told(D::kind(), entry) == answer::<K, V>(
                old(self).map.model(),
                D::kind(),
                old(self).ledger@.queue[id as int].1,
            ),
            D::calls(*old(target)) == old(self).told_so_far::<D>(base),
        ensures
            final(self).continues(*old(self)),
            final(self).taken == old(self).taken,
            final(self).in_flight@ == old(self).in_flight@,
            final(self).to_schedule@ == old(self).to_schedule@,
            D::calls(*final(target)) == D::calls(*old(target)).push(
                (D::arg(meta, told(D::kind(), entry)), r),
            ),
            match r {
                Ok(_) => {
                    &&& final(self).inv(requests)
                    &&& sum(final(self).ledger@.work) < sum(old(self).ledger@.work)
                    &&& D::calls(*final(target)) == final(self).told_so_far::<D>(base)
                },
                Err(e) => final(self).failed::<D>(base, D::calls(*final(target)), e),
            },
    {
        reveal(SparsePipeline::inv_except);
        let r: Result<(), D::Error> = D::deliver(target, meta, entry);
        let ghost before = *self;
        let ghost order = self.ledger@.done.push(id as int);
        self.ledger = Ghost(
            Ledger {
                queue: self.ledger@.queue,
                done: self.ledger@.done.push(id as int),
                work: self.ledger@.work.update(id as int, 0),
            },
        );
        proof {
            lemma_sum_update(before.ledger@.work, id as int, 0);
            assert(!before.ledger@.done.contains(id as int));
            assert(is_selection(order, self.ledger@.queue.len()));
            let args = expected_args::<Meta, K, V, D>(self.map.model(), self.ledger@.queue);
            if r is Ok {
                assert(r->Ok_0 == ());
                assert(r == Ok::<(), D::Error>(()));
                assert(args[id as int] == D::arg(meta, told(D::kind(), entry)));
                assert(D::calls(*target).last() == (args[id as int], r));
                assert forall|k: int| 0 <= k < D::calls(*target).len() implies #[trigger] D::calls(
                    *target,
                )[k] == self.told_so_far::<D>(base)[k] by {
                    if k < D::calls(*old(target)).len() {
                        assert(D::calls(*target)[k] == before.told_so_far::<D>(base)[k]);
                        if k >= base.len() {
                            assert(order[k - base.len()] == before.ledger@.done[k - base.len()]);
                        }
                    }
                }
                assert(D::calls(*target) =~= self.told_so_far::<D>(base));
                assert forall|i: int| 0 <= i < self.ledger@.queue.len() implies (
                #[trigger] self.ledger@.work[i] == 0 <==> order.contains(i)) by {
                    if i == id {
                        assert(order[order.len() - 1] == i);
                    } else {
                        assert(before.ledger@.work[i] == self.ledger@.work[i]);
                        if before.ledger@.done.contains(i) {
                            let k = before.ledger@.done.index_of(i);
                            assert(order[k] == i);
                        }
                        if order.contains(i) {
                            let k = order.index_of(i);
                            assert(before.ledger@.done[k] == i);
                        }
                    }
                }
                self.lemma_others(before, requests, id as int, id as int);
                assert(self.inv(requests));
            } else {
                assert(is_selection(order, args.len()));
                assert(visits_in_order(
                    args,
                    order,
                    base,
                    D::calls(*target),
                    Err::<(), D::Error>(r->Err_0),
                    is_corruption::<Meta, K, V, D>(self.map.model(), self.ledger@.queue, r->Err_0),
                ));
            }
        }
        r
    }

    /// Lets a request wait for its next read.
    fn requeue(
        &mut self,
        Ghost(requests): Ghost<Seq<(Meta, Request<'key, K>)>>,
        entry: Entry<'key, Meta, K>,
    )
        requires
            old(self).inv_except(requests, entry.id as int),
            entry.state is ReadingEntry,
            old(self).ledger@.queue[entry.id as int].0 == entry.meta,
            leads_to::<K, V>(
                old(self).map.model(),
                old(self).entry_kind,
                old(self).ledger@.queue[entry.id as int].1,
                entry.state.model(),
            ),
            work_left(old(self).map.model(), entry.state.model())
                < old(self).ledger@.work[entry.id as int],
        ensures
            final(self).continues(*old(self)),
            final(self).taken == old(self).taken,
            final(self).inv(requests),
            final(self).in_flight@ == old(self).in_flight@,
            final(self).to_schedule@ == old(self).to_schedule@.push(entry),
            final(self).ledger@.done == old(self).ledger@.done,
            sum(final(self).ledger@.work) < sum(old(self).ledger@.work),
    {
        reveal(SparsePipeline::inv_except);
        let ghost before = *self;
        let ghost id = entry.id as int;
        let ghost left = work_left(self.map.model(), entry.state.model());
        self.to_schedule.push(entry);
        self.ledger = Ghost(
            Ledger {
                queue: self.ledger@.queue,
                done: self.ledger@.done,
                work: self.ledger@.work.update(id, left),
            },
        );
        proof {
            lemma_sum_update(before.ledger@.work, id, left);
            let last = before.to_schedule@.len() as int;
            assert(self.to_schedule@[last] == entry);
            assert forall|j: int| 0 <= j < last implies (#[trigger] self.to_schedule@[j]).id != id by {
                assert(before.to_schedule@[j].id != id);
            }
            self.lemma_others(before, requests, id, id);
            assert(self.is_under_way(id));
            assert(self.inv(requests));
        }
    }

    /// Puts a request where those with a read in flight are, and says what to read.
    fn launch(
        &mut self,
        Ghost(requests): Ghost<Seq<(Meta, Request<'key, K>)>>,
        entry: Entry<'key, Meta, K>,
        range: ReadRange,
    ) -> (r: (u64, ReadRange))
        requires
            old(self).inv_except(requests, entry.id as int),
            old(self).ledger@.queue[entry.id as int].0 == entry.meta,
            leads_to::<K, V>(
                old(self).map.model(),
                old(self).entry_kind,
                old(self).ledger@.queue[entry.id as int].1,
                entry.state.model(),
            ),
            work_left(old(self).map.model(), entry.state.model())
                <= old(self).ledger@.work[entry.id as int],
            range == read_range::<K>(old(self).map.model(), entry.state.model()),
        ensures
            r == (entry.id, range.clamped(old(self).file_len)),
            final(self).continues(*old(self)),
            final(self).taken == old(self).taken,
            final(self).inv(requests),
            final(self).to_schedule@ == old(self).to_schedule@,
            final(self).in_flight@ == old(self).in_flight@.insert(entry.id, entry),
            !old(self).in_flight@.contains_key(entry.id),
            r.1.fits(final(self).map.model().file.len()),
            r.1.of(final(self).map.model().file) == read_data::<K>(
                final(self).map.model(),
                entry.state.model(),
            ),
            final(self).ledger@.done == old(self).ledger@.done,
            sum(final(self).ledger@.work) <= sum(old(self).ledger@.work),
    {
        broadcast use vstd::std_specs::hash::group_hash_axioms;

        reveal(SparsePipeline::inv_except);
        let ghost before = *self;
        let id: u64 = entry.id;
        let ghost left = work_left(self.map.model(), entry.state.model());
        assert(!before.is_under_way(id as int));
        self.in_flight.insert(id, entry);
        self.ledger = Ghost(
            Ledger {
                queue: self.ledger@.queue,
                done: self.ledger@.done,
                work: self.ledger@.work.update(id as int, left),
            },
        );
        proof {
            lemma_sum_update(before.ledger@.work, id as int, left);
            assert forall|j: int| 0 <= j < self.to_schedule@.len() implies (
            #[trigger] self.to_schedule@[j]).id != id by {
                assert(before.to_schedule@[j].id != id);
            }
            self.lemma_others(before, requests, id as int, id as int);
            assert(self.is_under_way(id as int));
            assert(self.inv(requests));
        }
        (id, range.clamp(self.file_len))
    }

    /// The error for a file that is corrupt where a request leads.
    fn corrupt<D: Delivery<Meta, K, V>>(
        &self,
        Ghost(base): Ghost<Seq<(D::Arg, Result<(), D::Error>)>>,
        Ghost(after): Ghost<Seq<(D::Arg, Result<(), D::Error>)>>,
        Ghost(id): Ghost<int>,
        Ghost(corruption): Ghost<Corruption>,
        io: UniversalIoError,
    ) -> (e: D::Error)
        requires
            0 <= id < self.ledger@.queue.len(),
            self.entry_kind == D::kind(),
            answer::<K, V>(self.map.model(), D::kind(), self.ledger@.queue[id].1)
                == Answer::<K::V, V>::Corrupt(corruption),
            is_data_err(io, message(corruption)),
            is_selection(self.ledger@.done, self.ledger@.queue.len()),
            after == self.told_so_far::<D>(base),
        ensures
            self.failed::<D>(base, after, e),
            is_report::<Meta, K, V, D>(corruption, e),
    {
        let e: D::Error = D::fail(io);
        proof {
            let m = self.map.model();
            let queue = self.ledger@.queue;
            let args = expected_args::<Meta, K, V, D>(m, queue);
            assert(D::failure(io, e));
            assert(is_report::<Meta, K, V, D>(corruption, e));
            assert(answer::<K, V>(m, D::kind(), queue[id].1) is Corrupt);
            assert(is_corruption::<Meta, K, V, D>(m, queue, e));
            assert(is_selection(self.ledger@.done, args.len()));
            assert(visits_in_order(
                args,
                self.ledger@.done,
                base,
                after,
                Err::<(), D::Error>(e),
                is_corruption::<Meta, K, V, D>(m, queue, e),
            ));
        }
        e
    }

    /// The state of a request for the entry at an offset.
    fn locate(&self, offset: u64, requested_key: Option<&'key K>) -> (r: Result<
        EntryState<'key, K>,
        UniversalIoError,
    >)
        requires
            self.entry_read_size_est == estimated_size::<K, V>(self.entry_kind),
        ensures
            match (
                r,
                crate::steps::locate::<K, V>(
                    self.map.model(),
                    self.entry_kind,
                    offset as nat,
                    wanted_key(requested_key),
                ),
            ) {
                (Ok(state), Step::Read(model)) => state.model() == model,
                (Err(io), Step::Answer(Answer::Corrupt(corruption))) => is_data_err(
                    io,
                    message(corruption),
                ),
                _ => false,
            },
    {
        match self.map.entry_position(offset) {
            Some(byte_offset) => Ok(
                EntryState::ReadingEntry {
                    byte_offset,
                    buf: Vec::new(),
                    expected_len: self.entry_read_size_est,
                    requested_key,
                },
            ),
            None => Err(uio_data_err("Entry offset out of range")),
        }
    }

    /// The first step for a request: what to read, or nothing if the answer is that there
    /// is no entry.
    fn begin(&self, request: Request<'key, K>) -> (r: Result<
        Option<(EntryState<'key, K>, ReadRange)>,
        UniversalIoError,
    >)
        requires
            self.entry_read_size_est == estimated_size::<K, V>(self.entry_kind),
        ensures
            match (r, first_step::<K, V>(self.map.model(), self.entry_kind, request.model())) {
                (Ok(Some((state, range))), Step::Read(model)) => {
                    &&& state.model() == model
                    &&& range == read_range::<K>(self.map.model(), model)
                },
                (Ok(None), Step::Answer(Answer::Absent)) => true,
                (Err(io), Step::Answer(Answer::Corrupt(corruption))) => is_data_err(
                    io,
                    message(corruption),
                ),
                _ => false,
            },
    {
        match request {
            Request::Offset(offset) => {
                // The place of the entry is known.
                match self.locate(offset, None) {
                    Ok(EntryState::ReadingEntry { byte_offset, buf, expected_len, requested_key }) => {
                        let range: ReadRange = ReadRange { byte_offset, length: expected_len };
                        Ok(
                            Some(
                                (
                                    EntryState::ReadingEntry {
                                        byte_offset,
                                        buf,
                                        expected_len,
                                        requested_key,
                                    },
                                    range,
                                ),
                            ),
                        )
                    },
                    Ok(state) => vstd::pervasive::unreached(),
                    Err(io) => Err(io),
                }
            },
            Request::Key(key) => match self.map.find(key) {
                Some(bucket) => {
                    // The bucket says where the entry is.
                    Ok(Some((EntryState::ReadingOffset { key }, self.map.bucket_range(bucket))))
                },
                None => {
                    // The key is in no bucket, so there is no entry.
                    if self.map.is_open_ended() {
                        Err(uio_data_err("Hash function ends in an empty level"))
                    } else {
                        Ok(None)
                    }
                },
            },
        }
    }

    /// The step that follows a read.
    fn decide(&self, state: EntryState<'key, K>, data: &[u8]) -> (r: Outcome<'key, K, V>)
        requires
            self.entry_read_size_est == estimated_size::<K, V>(self.entry_kind),
            self.file_len == self.map.model().file.len(),
        ensures
            r.is(
                self.entry_kind,
                next_step::<K, V>(self.map.model(), self.entry_kind, state.model(), data@),
            ),
    {
        let ghost m = self.map.model();
        match state {
            EntryState::ReadingOffset { key } => {
                // The bucket arrived: find the entry, and read it.
                let offset: u64 = match parse_entry_offset(self.map.order(), data) {
                    Ok(offset) => offset,
                    Err(io) => {
                        return Outcome::Fail(io);
                    },
                };
                match self.locate(offset, Some(key)) {
                    Ok(state) => Outcome::Read(state),
                    Err(io) => Outcome::Fail(io),
                }
            },
            EntryState::ReadingEntry { byte_offset, buf, expected_len, requested_key } => {
                let mut buf: Vec<u8> = buf;
                let mut requested_key: Option<&'key K> = requested_key;
                let ghost all = buf@ + data@;
                buf.extend_from_slice(data);
                proof {
                    assert(buf@ =~= all);
                    K::law_align();
                    lemma_round_up(0, K::alignment() as int);
                    assert(buf@.skip(0) =~= buf@);
                }
                let parsed: PartialEntry<K, V> = match PartialEntry::parse(
                    self.map.order(),
                    0,
                    buf.as_slice(),
                ) {
                    Ok(parsed) => parsed,
                    Err(_) => {
                        return Outcome::Fail(uio_data_err("Invalid key"));
                    },
                };
                assert(parsed.model() == entry_read::<K, V>(m.little, all));
                if let Some(key) = requested_key {
                    if parsed.has_other_key(key) {
                        return Outcome::Tell(None);
                    }
                    if parsed.key().is_some() {
                        requested_key = None;
                    }
                }
                if parsed.satisfies_kind(self.entry_kind) {
                    return Outcome::Tell(Some(parsed));
                }
                if byte_offset.saturating_add(buf.len() as u64) >= self.file_len {
                    return Outcome::Fail(uio_data_err("Entry beyond the end of the file"));
                }
                let expected_len: u64 = grow::<K>(buf.len());
                Outcome::Read(
                    EntryState::ReadingEntry { byte_offset, buf, expected_len, requested_key },
                )
            },
        }
    }

    /// Takes what was read for a request.
    fn process<D: Delivery<Meta, K, V>>(
        &mut self,
        Ghost(requests): Ghost<Seq<(Meta, Request<'key, K>)>>,
        Ghost(base): Ghost<Seq<(D::Arg, Result<(), D::Error>)>>,
        id: u64,
        data: &[u8],
        target: &mut D::Target,
    ) -> (r: Result<(), D::Error>)
        requires
            old(self).inv(requests),
            old(self).entry_kind == D::kind(),
            old(self).can_tell::<D>(),
            old(self).in_flight@.contains_key(id),
            data@ == read_data::<K>(
                old(self).map.model(),
                old(self).in_flight@[id].state.model(),
            ),
            D::calls(*old(target)) == old(self).told_so_far::<D>(base),
        ensures
            processed::<Meta, K, V, S, D>(
                old(self).model(),
                final(self).model(),
                id,
                data@,
                D::calls(*old(target)),
                D::calls(*final(target)),
                r,
            ),
            final(self).continues(*old(self)),
            final(self).in_flight@ == old(self).in_flight@.remove(id),
            match r {
                Ok(_) => {
                    &&& final(self).inv(requests)
                    &&& sum(final(self).ledger@.work) < sum(old(self).ledger@.work)
                    &&& D::calls(*final(target)) == final(self).told_so_far::<D>(base)
                },
                Err(e) => final(self).failed::<D>(base, D::calls(*final(target)), e),
            },
    {
        broadcast use vstd::std_specs::hash::group_hash_axioms;

        reveal(SparsePipeline::inv_except);
        let ghost before = *self;
        let entry: Entry<'key, Meta, K> = self.in_flight.remove(&id).unwrap();
        let ghost m = self.map.model();
        let ghost state = entry.state.model();
        let ghost request = self.ledger@.queue[id as int].1;
        proof {
            assert(before.entry_ok(entry));
            self.lemma_removed(before, requests, id);
            law_next_step::<K, V>(m, self.entry_kind, request, state);
            assert(self.model().in_flight =~= before.model().in_flight.remove(id));
        }
        match self.decide(entry.state, data) {
            Outcome::Read(next) => {
                let waiting: Entry<'key, Meta, K> = Entry { id, meta: entry.meta, state: next };
                self.requeue(Ghost(requests), waiting);
                proof {
                    assert(self.told_so_far::<D>(base) == before.told_so_far::<D>(base));
                    assert(self.model().waiting =~= before.model().waiting.push(waiting.model()));
                }
                Ok(())
            },
            Outcome::Tell(answer) => self.finish::<D>(
                Ghost(requests),
                Ghost(base),
                id,
                entry.meta,
                answer,
                target,
            ),
            Outcome::Fail(io) => {
                let ghost corruption = answer::<K, V>(m, self.entry_kind, request)->Corrupt_0;
                assert(self.told_so_far::<D>(base) == before.told_so_far::<D>(base));
                Err(
                    self.corrupt::<D>(
                        Ghost(base),
                        Ghost(D::calls(*target)),
                        Ghost(id as int),
                        Ghost(corruption),
                        io,
                    ),
                )
            },
        }
    }

    /// A pipeline that has yet to take `requests`.
    fn new(
        map: &'map UniversalHashMap<K, V, S>,
        entry_kind: PartialEntryKind,
        requests: &VecDeque<(Meta, Request<'key, K>)>,
    ) -> (r: Result<Self, UniversalIoError>)
        ensures
            match r {
                Ok(sparse) => {
                    &&& sparse.map == map
                    &&& sparse.entry_kind == entry_kind
                    &&& sparse.inv(requests@)
                    &&& sparse.model().is_new()
                    &&& sparse.in_flight@.dom().is_empty()
                    &&& sparse.ledger@.done.len() == 0
                    &&& sparse.ledger@.queue == queue_model(requests@)
                    &&& call_ensures(
                        S::len,
                        (&map.source(),),
                        Ok::<u64, UniversalIoError>(sparse.file_len),
                    )
                },
                Err(e) => !S::infallible() && call_ensures(S::len, (&map.source(),), Err(e)),
            },
    {
        reveal(SparsePipeline::inv_except);
        let entry_read_size_est: u64 = entry_kind.estimated_size::<K, V>();
        let file_len: u64 = match map.storage().len() {
            Ok(len) => len,
            Err(e) => {
                return Err(e);
            },
        };
        assert(requests@.len() <= u64::MAX) by {
            assert(requests.len() == requests@.len());
        }
        let ghost work = Seq::new(requests@.len(), |i: int| (map.model().file.len() + 3) as nat);
        let sparse: Self = SparsePipeline {
            map,
            entry_kind,
            to_schedule: Vec::new(),
            in_flight: HashMap::new(),
            taken: 0,
            entry_read_size_est,
            file_len,
            ledger: Ghost(Ledger { queue: queue_model(requests@), done: Seq::empty(), work }),
        };
        assert(sparse.model().in_flight =~= Map::empty());
        Ok(sparse)
    }

    /// Takes the next request: says what to read for it, or answers it if nothing has to
    /// be read.
    fn take<D: Delivery<Meta, K, V>>(
        &mut self,
        Ghost(queued): Ghost<Seq<(Meta, Request<'key, K>)>>,
        Ghost(base): Ghost<Seq<(D::Arg, Result<(), D::Error>)>>,
        meta: Meta,
        request: Request<'key, K>,
        target: &mut D::Target,
    ) -> (r: Result<Option<(u64, ReadRange)>, D::Error>)
        requires
            queued.len() > 0,
            queued[0] == (meta, request),
            old(self).inv(queued),
            old(self).entry_kind == D::kind(),
            old(self).can_tell::<D>(),
            D::calls(*old(target)) == old(self).told_so_far::<D>(base),
        ensures
            final(self).continues(*old(self)),
            final(self).taken == old(self).taken + 1,
            final(self).to_schedule@ == old(self).to_schedule@,
            old(self).ledger@.queue[old(self).taken as int].1 == request.model(),
            match first_step::<K, V>(
                old(self).map.model(),
                old(self).entry_kind,
                request.model(),
            ) {
                Step::Read(state) => {
                    let m = old(self).map.model();
                    let id = old(self).taken;
                    let entry = final(self).in_flight@[id];
                    let range = read_range::<K>(m, state).clamped(old(self).file_len);
                    &&& r == Ok::<Option<(u64, ReadRange)>, D::Error>(Some((id, range)))
                    &&& !old(self).in_flight@.contains_key(id)
                    &&& final(self).in_flight@ == old(self).in_flight@.insert(id, entry)
                    &&& entry.id == id
                    &&& entry.meta == meta
                    &&& entry.state.model() == state
                    &&& D::calls(*final(target)) == D::calls(*old(target))
                    &&& range.fits(m.file.len())
                    &&& range.of(m.file) == read_data::<K>(m, state)
                },
                Step::Answer(Answer::Corrupt(corruption)) => {
                    &&& final(self).in_flight@ == old(self).in_flight@
                    &&& D::calls(*final(target)) == D::calls(*old(target))
                    &&& r matches Err(e) && is_report::<Meta, K, V, D>(corruption, e)
                },
                Step::Answer(told) => {
                    let result = D::calls(*final(target)).last().1;
                    &&& told is Absent
                    &&& final(self).in_flight@ == old(self).in_flight@
                    &&& D::calls(*final(target)) == D::calls(*old(target)).push(
                        (D::arg(meta, told), result),
                    )
                    &&& match r {
                        Ok(next) => next is None && result is Ok,
                        Err(e) => result matches Err(f) && f == e,
                    }
                },
            },
            match r {
                Ok(_) => {
                    &&& final(self).inv(queued.subrange(1, queued.len() as int))
                    &&& sum(final(self).ledger@.work) <= sum(old(self).ledger@.work)
                    &&& D::calls(*final(target)) == final(self).told_so_far::<D>(base)
                },
                Err(e) => final(self).failed::<D>(base, D::calls(*final(target)), e),
            },
    {
        reveal(SparsePipeline::inv_except);
        let ghost before = *self;
        let ghost m = self.map.model();
        let ghost requests = queued.subrange(1, queued.len() as int);
        let id: u64 = self.taken;
        self.taken = id + 1;
        proof {
            law_first_step::<K, V>(m, self.entry_kind, request.model());
            self.lemma_taken(before, queued, requests);
            assert(self.told_so_far::<D>(base) == before.told_so_far::<D>(base));
        }
        match self.begin(request) {
            Ok(Some((state, range))) => {
                let entry: Entry<'key, Meta, K> = Entry { id, meta, state };
                let next: (u64, ReadRange) = self.launch(Ghost(requests), entry, range);
                assert(self.told_so_far::<D>(base) == before.told_so_far::<D>(base));
                Ok(Some(next))
            },
            Ok(None) => match self.finish::<D>(
                Ghost(requests),
                Ghost(base),
                id,
                meta,
                None,
                target,
            ) {
                Ok(_) => Ok(None),
                Err(e) => Err(e),
            },
            Err(io) => {
                let ghost corruption = answer::<K, V>(
                    m,
                    self.entry_kind,
                    request.model(),
                )->Corrupt_0;
                Err(
                    self.corrupt::<D>(
                        Ghost(base),
                        Ghost(D::calls(*target)),
                        Ghost(id as int),
                        Ghost(corruption),
                        io,
                    ),
                )
            },
        }
    }

    /// Says which range of the file to read next, and for which request. Requests
    /// that need no read are answered.
    fn refill<D: Delivery<Meta, K, V>>(
        &mut self,
        Ghost(base): Ghost<Seq<(D::Arg, Result<(), D::Error>)>>,
        requests: &mut VecDeque<(Meta, Request<'key, K>)>,
        target: &mut D::Target,
    ) -> (r: Result<Option<(u64, ReadRange)>, D::Error>)
        requires
            old(self).inv(old(requests)@),
            old(self).entry_kind == D::kind(),
            old(self).can_tell::<D>(),
            D::calls(*old(target)) == old(self).told_so_far::<D>(base),
        ensures
            refilled::<Meta, K, V, S, D>(
                old(self).model(),
                final(self).model(),
                old(requests)@,
                final(requests)@,
                D::calls(*old(target)),
                D::calls(*final(target)),
                r,
            ),
            final(self).continues(*old(self)),
            match r {
                Ok(next) => {
                    &&& final(self).inv(final(requests)@)
                    &&& sum(final(self).ledger@.work) <= sum(old(self).ledger@.work)
                    &&& D::calls(*final(target)) == final(self).told_so_far::<D>(base)
                    &&& final(self).taken >= old(self).taken
                    &&& forall|i: int|
                        old(self).taken <= i < final(self).taken ==> (first_step::<K, V>(
                            old(self).map.model(),
                            old(self).entry_kind,
                            (#[trigger] old(self).ledger@.queue[i]).1,
                        ) matches Step::Read(state) ==> next matches Some((id, range)) && range
                            == read_range::<K>(old(self).map.model(), state).clamped(
                            old(self).file_len,
                        ))
                    &&& match next {
                        Some((id, range)) => {
                            let m = final(self).map.model();
                            &&& !old(self).in_flight@.contains_key(id)
                            &&& final(self).in_flight@.contains_key(id)
                            &&& final(self).in_flight@.remove(id) == old(self).in_flight@
                            &&& range.fits(m.file.len())
                            &&& range.of(m.file) == read_data::<K>(
                                m,
                                final(self).in_flight@[id].state.model(),
                            )
                            &&& final(self).to_schedule@.len() + final(requests)@.len() < old(
                                self,
                            ).to_schedule@.len() + old(requests)@.len()
                        },
                        None => {
                            &&& final(self).to_schedule@.len() == 0
                            &&& final(requests)@.len() == 0
                            &&& final(self).in_flight@ == old(self).in_flight@
                        },
                    }
                },
                Err(e) => final(self).failed::<D>(base, D::calls(*final(target)), e),
            },
    {
        let ghost start = *self;
        let ghost m = self.map.model();
        if self.to_schedule.len() > 0 {
            let entry: Entry<'key, Meta, K> = self.to_schedule.pop().unwrap();
            proof {
                reveal(SparsePipeline::inv_except);
                self.lemma_popped(start, requests@);
                assert(start.entry_ok(entry));
            }
            let range: ReadRange = match &entry.state {
                EntryState::ReadingOffset { .. } => vstd::pervasive::unreached(),
                EntryState::ReadingEntry { byte_offset, buf, expected_len, requested_key } => {
                    ReadRange::new(
                        byte_offset.saturating_add(buf.len() as u64),
                        expected_len.saturating_sub(buf.len() as u64),
                    )
                },
            };
            let next: (u64, ReadRange) = self.launch(Ghost(requests@), entry, range);
            proof {
                assert(self.told_so_far::<D>(base) == start.told_so_far::<D>(base));
                assert(self.in_flight@.remove(next.0) =~= start.in_flight@);
                self.lemma_inserted(start, entry);
                assert(self.model().waiting =~= start.model().waiting.drop_last());
            }
            return Ok(Some(next));
        }
        let ghost all = requests@;
        let ghost calls = D::calls(*target);
        let ghost n = missed::<Meta, K, V, S>(*self.map, self.entry_kind, all);
        assert(all.skip(0) =~= all);
        while requests.len() > 0
            invariant
                self.inv(requests@),
                self.entry_kind == D::kind(),
                self.can_tell::<D>(),
                self.continues(start),
                self.to_schedule@.len() == 0,
                self.in_flight@ == start.in_flight@,
                m == self.map.model(),
                all == old(requests)@,
                calls == D::calls(*old(target)),
                n == missed::<Meta, K, V, S>(*self.map, self.entry_kind, all),
                requests@.len() <= all.len(),
                requests@ == all.skip(all.len() - requests@.len()),
                n == all.len() - requests@.len() + missed::<Meta, K, V, S>(
                    *self.map,
                    self.entry_kind,
                    requests@,
                ),
                self.taken == start.taken + (all.len() - requests@.len()),
                forall|i: int|
                    start.taken <= i < self.taken ==> !(first_step::<K, V>(
                        m,
                        self.entry_kind,
                        (#[trigger] start.ledger@.queue[i]).1,
                    ) is Read),
                told_missed::<Meta, K, V, D>(all, all.len() - requests@.len(), calls, D::calls(*target)),
                sum(self.ledger@.work) <= sum(start.ledger@.work),
                D::calls(*target) == self.told_so_far::<D>(base),
                start.to_schedule@.len() == 0,
                start == *old(self),
            decreases requests@.len(),
        {
            let ghost queued = requests@;
            let ghost taken = all.len() - queued.len();
            let ghost calls_then = D::calls(*target);
            let (meta, request): (Meta, Request<'key, K>) = requests.pop_front().unwrap();
            proof {
                assert(queued[0] == (meta, request));
                assert(queued[0] == all[taken]);
                assert(requests@ =~= all.skip(taken + 1));
                assert(requests@ =~= queued.subrange(1, queued.len() as int));
            }
            match self.take::<D>(Ghost(queued), Ghost(base), meta, request, target) {
                Ok(Some(next)) => {
                    proof {
                        assert(n == taken);
                        if taken > 0 {
                            assert(D::calls(*target).last() == calls_then[calls.len() + (taken - 1)]);
                        }
                        assert(self.in_flight@.remove(next.0) =~= start.in_flight@);
                        self.lemma_inserted(start, self.in_flight@[next.0]);
                    }
                    return Ok(Some(next));
                },
                Ok(None) => {
                    assert(D::calls(*target)[calls.len() + taken] == D::calls(*target).last());
                },
                Err(e) => {
                    proof {
                        let now = D::calls(*target);
                        if now.len() == calls_then.len() {
                            assert(n == taken);
                            if taken > 0 {
                                assert(now.last() == calls_then[calls.len() + (taken - 1)]);
                            }
                        } else {
                            assert(now.len() == calls_then.len() + 1);
                            assert(now.last() == now[calls.len() + taken]);
                            assert forall|k: int| 0 <= k < taken implies #[trigger] now[calls.len()
                                + k] == calls_then[calls.len() + k] by {}
                        }
                    }
                    return Err(e);
                },
            }
        }
        proof {
            if all.len() > 0 {
                assert(D::calls(*target).last() == D::calls(*target)[calls.len() + (all.len() - 1)]);
            }
        }
        Ok(None)
    }

    /// A request with a read in flight is in flight.
    proof fn lemma_inserted(self, before: Self, entry: Entry<'key, Meta, K>)
        requires
            self.in_flight@ == before.in_flight@.insert(entry.id, entry),
        ensures
            self.model().in_flight == before.model().in_flight.insert(entry.id, entry.model()),
    {
        assert(self.model().in_flight =~= before.model().in_flight.insert(entry.id, entry.model()));
    }

    /// Taking a request off those that wait leaves a hole.
    proof fn lemma_popped(self, before: Self, requests: Seq<(Meta, Request<'key, K>)>)
        requires
            before.inv(requests),
            before.to_schedule@.len() > 0,
            self.continues(before),
            self.in_flight == before.in_flight,
            self.to_schedule@ == before.to_schedule@.drop_last(),
            self.taken == before.taken,
            self.ledger == before.ledger,
        ensures
            self.inv_except(requests, before.to_schedule@.last().id as int),
    {
        reveal(SparsePipeline::inv_except);
        let last = before.to_schedule@.len() - 1;
        let id = before.to_schedule@[last].id;
        assert(before.entry_ok(before.to_schedule@[last]));
        assert forall|j: int| 0 <= j < self.to_schedule@.len() implies (
        #[trigger] self.to_schedule@[j]).id != id by {
            assert(before.to_schedule@[j].id != before.to_schedule@[last].id);
        }
        self.lemma_others(before, requests, -1, id as int);
    }

    /// Taking a new request leaves a hole.
    proof fn lemma_taken(
        self,
        before: Self,
        queued: Seq<(Meta, Request<'key, K>)>,
        requests: Seq<(Meta, Request<'key, K>)>,
    )
        requires
            before.inv(queued),
            queued.len() > 0,
            requests == queued.subrange(1, queued.len() as int),
            self.continues(before),
            self.in_flight == before.in_flight,
            self.to_schedule == before.to_schedule,
            self.taken == before.taken + 1,
            self.ledger == before.ledger,
        ensures
            self.inv_except(requests, before.taken as int),
            self.ledger@.queue[before.taken as int] == (queued[0].0, queued[0].1.model()),
            self.ledger@.work[before.taken as int] == self.map.model().file.len() + 3,
    {
        reveal(SparsePipeline::inv_except);
        let id = before.taken as int;
        assert(queued[0].0 == before.ledger@.queue[before.taken + 0].0);
        assert forall|i: int| 0 <= i < requests.len() implies (#[trigger] requests[i]).0
            == self.ledger@.queue[self.taken + i].0 && requests[i].1.model()
            == self.ledger@.queue[self.taken + i].1 by {
            assert(queued[i + 1].0 == before.ledger@.queue[before.taken + (i + 1)].0);
        }
        if self.in_flight@.contains_key(before.taken) {
            assert(before.entry_ok(before.in_flight@[before.taken]));
        }
        assert forall|j: int| 0 <= j < self.to_schedule@.len() implies (
        #[trigger] self.to_schedule@[j]).id != id by {
            assert(before.entry_ok(before.to_schedule@[j]));
        }
        self.lemma_others(before, queued, -1, id);
    }

    /// Taking a request out of those in flight leaves a hole.
    proof fn lemma_removed(
        self,
        before: Self,
        requests: Seq<(Meta, Request<'key, K>)>,
        id: u64,
    )
        requires
            before.inv(requests),
            before.in_flight@.contains_key(id),
            self.continues(before),
            self.in_flight@ == before.in_flight@.remove(id),
            self.to_schedule == before.to_schedule,
            self.taken == before.taken,
            self.ledger == before.ledger,
        ensures
            self.inv_except(requests, id as int),
    {
        reveal(SparsePipeline::inv_except);
        assert(before.entry_ok(before.in_flight@[id]));
        assert forall|j: int| 0 <= j < self.to_schedule@.len() implies (
        #[trigger] self.to_schedule@[j]).id != id by {
            assert(!before.in_flight@.contains_key(before.to_schedule@[j].id));
        }
        self.lemma_others(before, requests, -1, id as int);
    }
}

/// Whether a visitor that had the calls `before` was told of the first `n` of some
/// requests that there is no entry, and failed for none of them.
spec fn told_missed<'key, Meta, K: Key + ?Sized, V: Value, D: Delivery<Meta, K, V>>(
    requests: Seq<(Meta, Request<'key, K>)>,
    n: int,
    before: Seq<(D::Arg, Result<(), D::Error>)>,
    after: Seq<(D::Arg, Result<(), D::Error>)>,
) -> bool {
    &&& after.len() == before.len() + n
    &&& forall|k: int| 0 <= k < before.len() ==> #[trigger] after[k] == before[k]
    &&& forall|k: int|
        0 <= k < n ==> (#[trigger] after[before.len() + k]).0 == D::arg(
            requests[k].0,
            Answer::Absent,
        ) && after[before.len() + k].1 is Ok
}

/// Whether a map told a visitor the answers to some requests.
///
/// Each answer was told once, in some order, unless there was an error. That came
/// from the visitor, from a corruption of the file where a request leads, or from
/// the storage.
pub open spec fn answered<
    Meta,
    K: Key + ?Sized,
    V: Value,
    D: Delivery<Meta, K, V>,
    S: UniversalRead,
>(
    m: MapModel,
    queue: Seq<(Meta, RequestModel<K::V>)>,
    before: Seq<(D::Arg, Result<(), D::Error>)>,
    after: Seq<(D::Arg, Result<(), D::Error>)>,
    r: Result<(), D::Error>,
) -> bool {
    let reason = r matches Err(e) && (is_corruption::<Meta, K, V, D>(m, queue, e)
        || is_storage_failure::<Meta, K, V, D, S>(e));
    &&& visits(expected_args::<Meta, K, V, D>(m, queue), before, after, r, reason)
    &&& r is Ok ==> forall|i: int|
        0 <= i < queue.len() ==> !(answer::<K, V>(
            m,
            D::kind(),
            (#[trigger] queue[i]).1,
        ) is Corrupt)
}

/// Whether the first read for a request can be started, if it has one.
pub open spec fn can_start_first_read<K: Key + ?Sized, V: Value, S: UniversalRead>(
    m: MapModel,
    storage: S,
    kind: PartialEntryKind,
    request: RequestModel<K::V>,
) -> bool {
    first_step::<K, V>(m, kind, request) matches Step::Read(state) ==> can_start(
        storage,
        Access::Random,
        read_range::<K>(m, state).clamped(m.file.len() as u64),
    )
}

/// Whether a storage bore a visit of some requests.
///
/// If there can be no reads in flight, the visit ended without a call of the visitor,
/// with the error for which it could not be: that of the length of the storage, or
/// that of a new pipeline of reads. If the visit ended without an error, each read
/// that a request starts with could be started, and waiting could succeed.
pub open spec fn is_borne<
    Meta,
    K: Key + ?Sized,
    V: Value,
    D: Delivery<Meta, K, V>,
    S: UniversalRead,
>(
    m: MapModel,
    storage: S,
    queue: Seq<(Meta, RequestModel<K::V>)>,
    before: Seq<(D::Arg, Result<(), D::Error>)>,
    after: Seq<(D::Arg, Result<(), D::Error>)>,
    r: Result<(), D::Error>,
) -> bool {
    &&& is_ready(storage) || {
        &&& after == before
        &&& r matches Err(e) && exists|io: UniversalIoError|
            is_start_error(storage, io) && #[trigger] D::failure(io, e)
    }
    &&& r is Ok ==> {
        &&& can_wait::<S>()
        &&& forall|i: int|
            0 <= i < queue.len() ==> can_start_first_read::<K, V, S>(
                m,
                storage,
                D::kind(),
                (#[trigger] queue[i]).1,
            )
    }
}

/// Weaker reasons for an error are reasons too.
proof fn lemma_visits_reason<A, E>(
    expected: Seq<A>,
    before: Seq<(A, Result<(), E>)>,
    after: Seq<(A, Result<(), E>)>,
    r: Result<(), E>,
    reason: bool,
    weaker: bool,
)
    requires
        visits(expected, before, after, r, reason),
        reason ==> weaker,
    ensures
        visits(expected, before, after, r, weaker),
{
    let order = choose|order: Seq<int>| #[trigger]
        is_selection(order, expected.len()) && visits_in_order(
            expected,
            order,
            before,
            after,
            r,
            reason,
        );
    assert(is_selection(order, expected.len()) && visits_in_order(
        expected,
        order,
        before,
        after,
        r,
        weaker,
    ));
}

/// A selection that leaves no number out has as many numbers as there are.
proof fn lemma_full_selection(order: Seq<int>, n: nat)
    requires
        is_selection(order, n),
        forall|i: int| 0 <= i < n ==> order.contains(i),
    ensures
        order.len() == n,
{
    let all = vstd::set_lib::set_int_range(0, n as int);
    vstd::set_lib::lemma_int_range(0, n as int);
    assert(order.to_set() =~= all);
    order.unique_seq_to_set();
}

impl<'map, 'key, Meta, K: Key + ?Sized, V: Value, S: UniversalRead> SparsePipeline<
    'map,
    'key,
    Meta,
    K,
    V,
    S,
> {
    /// An error of the storage ends a visit.
    fn storage_failed<D: Delivery<Meta, K, V>>(
        &self,
        Ghost(requests): Ghost<Seq<(Meta, Request<'key, K>)>>,
        Ghost(base): Ghost<Seq<(D::Arg, Result<(), D::Error>)>>,
        Ghost(after): Ghost<Seq<(D::Arg, Result<(), D::Error>)>>,
        io: UniversalIoError,
    ) -> (e: D::Error)
        requires
            self.inv(requests),
            !S::infallible(),
            S::reports(io),
            after == self.told_so_far::<D>(base),
        ensures
            D::failure(io, e),
            answered::<Meta, K, V, D, S>(
                self.map.model(),
                self.ledger@.queue,
                base,
                after,
                Err(e),
            ),
    {
        reveal(SparsePipeline::inv_except);
        let e: D::Error = D::fail(io);
        proof {
            let args = expected_args::<Meta, K, V, D>(self.map.model(), self.ledger@.queue);
            assert(is_storage_failure::<Meta, K, V, D, S>(e)) by {
                assert(D::failure(io, e));
            }
            assert(is_selection(self.ledger@.done, args.len()));
            assert(visits_in_order(
                args,
                self.ledger@.done,
                base,
                after,
                Err::<(), D::Error>(e),
                true,
            ));
        }
        e
    }

    /// When nothing is left to take, to wait or in flight, every request was answered.
    proof fn lemma_all_done(self, requests: Seq<(Meta, Request<'key, K>)>)
        requires
            self.inv(requests),
            requests.len() == 0,
            self.to_schedule@.len() == 0,
            self.in_flight@.dom().is_empty(),
        ensures
            self.taken == self.ledger@.queue.len(),
            is_selection(self.ledger@.done, self.ledger@.queue.len()),
            self.ledger@.done.len() == self.ledger@.queue.len(),
            forall|i: int|
                0 <= i < self.ledger@.queue.len() ==> !(answer::<K, V>(
                    self.map.model(),
                    self.entry_kind,
                    (#[trigger] self.ledger@.queue[i]).1,
                ) is Corrupt),
    {
        reveal(SparsePipeline::inv_except);
        assert forall|i: int| 0 <= i < self.ledger@.queue.len() implies self.ledger@.done.contains(i)
            && self.ledger@.work[i] == 0 by {
            assert(!self.in_flight@.dom().contains(i as u64));
            assert(self.ledger@.work[i] == 0);
        }
        lemma_full_selection(self.ledger@.done, self.ledger@.queue.len());
        assert forall|i: int| 0 <= i < self.ledger@.queue.len() implies !(answer::<K, V>(
            self.map.model(),
            self.entry_kind,
            (#[trigger] self.ledger@.queue[i]).1,
        ) is Corrupt) by {
            assert(self.ledger@.work[i] == 0);
        }
    }
}

impl<K: Key + ?Sized, V: Value, S: UniversalRead> UniversalHashMap<K, V, S> {
    /// Answers requests for entries, with as many reads in flight as the storage takes.
    pub(crate) fn for_each_sparse<'key, Meta, D: Delivery<Meta, K, V>>(
        &self,
        entry_kind: PartialEntryKind,
        requests: VecDeque<(Meta, Request<'key, K>)>,
        target: &mut D::Target,
    ) -> (r: Result<(), D::Error>)
        requires
            entry_kind == D::kind(),
            forall|i: int|
                0 <= i < requests@.len() ==> {
                    let told = answer::<K, V>(
                        self.model(),
                        D::kind(),
                        (#[trigger] requests@[i]).1.model(),
                    );
                    told is Corrupt || D::accepts(told)
                },
        ensures
            answered::<Meta, K, V, D, S>(
                self.model(),
                queue_model(requests@),
                D::calls(*old(target)),
                D::calls(*final(target)),
                r,
            ),
            is_borne::<Meta, K, V, D, S>(
                self.model(),
                self.source(),
                queue_model(requests@),
                D::calls(*old(target)),
                D::calls(*final(target)),
                r,
            ),
    {
        let ghost m = self.model();
        let ghost queue = queue_model(requests@);
        let ghost base = D::calls(*target);
        let mut pending: VecDeque<(Meta, Request<'key, K>)> = requests;
        let mut sparse: SparsePipeline<'_, 'key, Meta, K, V, S> = match SparsePipeline::new(
            self,
            entry_kind,
            &pending,
        ) {
            Ok(sparse) => sparse,
            Err(io) => {
                let e: D::Error = D::fail(io);
                proof {
                    let args = expected_args::<Meta, K, V, D>(m, queue);
                    let none: Seq<int> = Seq::empty();
                    assert(D::failure(io, e));
                    assert(is_selection(none, args.len()));
                    assert(visits_in_order(args, none, base, base, Err::<(), D::Error>(e), true));
                }
                return Err(e);
            },
        };
        assert(base =~= sparse.told_so_far::<D>(base));
        assert forall|i: int| 0 <= i < queue.len() implies {
            let told = answer::<K, V>(m, D::kind(), (#[trigger] queue[i]).1);
            told is Corrupt || D::accepts(told)
        } by {
            let request = requests@[i];
        }
        assert(has_len(self.source()));
        let mut pipeline: S::Pipeline = match S::new_pipeline() {
            Ok(pipeline) => pipeline,
            Err(io) => {
                assert(is_start_error(self.source(), io));
                return Err(
                    sparse.storage_failed::<D>(Ghost(pending@), Ghost(base), Ghost(base), io),
                );
            },
        };
        assert(is_ready(self.source()));
        loop
            invariant
                is_ready(self.source()),
                sparse.inv(pending@),
                sparse.map.model() == m,
                m == self.model(),
                sparse.entry_kind == D::kind(),
                sparse.ledger@.queue == queue,
                queue == queue_model(requests@),
                base == D::calls(*old(target)),
                sparse.can_tell::<D>(),
                D::calls(*target) == sparse.told_so_far::<D>(base),
                reads_match::<Meta, K, V, S>(sparse, S::in_flight(pipeline)),
                sparse.file_len == m.file.len(),
                forall|i: int|
                    0 <= i < sparse.taken ==> can_start_first_read::<K, V, S>(
                        m,
                        self.source(),
                        entry_kind,
                        (#[trigger] queue[i]).1,
                    ),
                entry_kind == D::kind(),
            ensures
                can_wait::<S>(),
                sparse.in_flight@.dom().is_empty(),
                sparse.to_schedule@.len() == 0,
                pending@.len() == 0,
            decreases sum(sparse.ledger@.work),
        {
            let ghost work_before = sum(sparse.ledger@.work);
            while S::can_schedule(&pipeline)
                invariant
                    is_ready(self.source()),
                    sparse.inv(pending@),
                    sparse.map.model() == m,
                    m == self.model(),
                    sparse.entry_kind == D::kind(),
                    sparse.ledger@.queue == queue,
                    queue == queue_model(requests@),
                    base == D::calls(*old(target)),
                    sparse.can_tell::<D>(),
                    D::calls(*target) == sparse.told_so_far::<D>(base),
                    reads_match::<Meta, K, V, S>(sparse, S::in_flight(pipeline)),
                    sum(sparse.ledger@.work) <= work_before,
                    sparse.file_len == m.file.len(),
                    forall|i: int|
                        0 <= i < sparse.taken ==> can_start_first_read::<K, V, S>(
                            m,
                            self.source(),
                            entry_kind,
                            (#[trigger] queue[i]).1,
                        ),
                    entry_kind == D::kind(),
                ensures
                    !S::in_flight(pipeline).dom().is_empty() || (sparse.to_schedule@.len() == 0
                        && pending@.len() == 0),
                decreases sparse.to_schedule@.len() + pending@.len(),
            {
                let ghost before = sparse;
                match sparse.refill::<D>(Ghost(base), &mut pending, target) {
                    Ok(Some((id, range))) => {
                        match self.storage().schedule(&mut pipeline, id, Access::Random, range) {
                            Ok(started) => {
                                assert(started == ());
                                assert(can_start(self.source(), Access::Random, range));
                            },
                            Err(io) => {
                                return Err(
                                    sparse.storage_failed::<D>(
                                        Ghost(pending@),
                                        Ghost(base),
                                        Ghost(D::calls(*target)),
                                        io,
                                    ),
                                );
                            },
                        }
                        proof {
                            let reads = S::in_flight(pipeline);
                            assert forall|other: u64| #[trigger] reads.contains_key(other) implies
                                is_read_of::<Meta, K, V, S>(
                                    sparse,
                                    sparse.in_flight@[other],
                                    reads[other],
                                ) by {
                                if other != id {
                                    assert(sparse.in_flight@.remove(id)[other]
                                        == sparse.in_flight@[other]);
                                }
                            }
                            assert(sparse.in_flight@.remove(id).insert(id, sparse.in_flight@[id])
                                =~= sparse.in_flight@);
                            assert(reads.dom() =~= sparse.in_flight@.dom());
                        }
                    },
                    Ok(None) => {
                        break;
                    },
                    Err(e) => {
                        proof {
                            lemma_visits_reason(
                                expected_args::<Meta, K, V, D>(m, queue),
                                base,
                                D::calls(*target),
                                Err::<(), D::Error>(e),
                                is_corruption::<Meta, K, V, D>(m, queue, e),
                                is_corruption::<Meta, K, V, D>(m, queue, e)
                                    || is_storage_failure::<Meta, K, V, D, S>(e),
                            );
                        }
                        return Err(e);
                    },
                }
            }
            let (id, data): (u64, Vec<u8>) = match S::wait(&mut pipeline) {
                Ok(Some(read)) => read,
                Ok(None) => {
                    break;
                },
                Err(io) => {
                    return Err(
                        sparse.storage_failed::<D>(
                            Ghost(pending@),
                            Ghost(base),
                            Ghost(D::calls(*target)),
                            io,
                        ),
                    );
                },
            };
            match sparse.process::<D>(
                Ghost(pending@),
                Ghost(base),
                id,
                data.as_slice(),
                target,
            ) {
                Ok(_) => {},
                Err(e) => {
                    proof {
                        lemma_visits_reason(
                            expected_args::<Meta, K, V, D>(m, queue),
                            base,
                            D::calls(*target),
                            Err::<(), D::Error>(e),
                            is_corruption::<Meta, K, V, D>(m, queue, e),
                            is_corruption::<Meta, K, V, D>(m, queue, e)
                                    || is_storage_failure::<Meta, K, V, D, S>(e),
                        );
                    }
                    return Err(e);
                },
            }
        }
        proof {
            let ledger = sparse.ledger@;
            let args = expected_args::<Meta, K, V, D>(m, queue);
            sparse.lemma_all_done(pending@);
            assert(is_selection(ledger.done, args.len()));
            assert(visits_in_order(
                args,
                ledger.done,
                base,
                D::calls(*target),
                Ok::<(), D::Error>(()),
                false,
            ));
        }
        Ok(())
    }
}

/// Whether `data` is what is read for a request.
spec fn is_read_of<'map, 'key, Meta, K: Key + ?Sized, V: Value, S: UniversalRead>(
    sparse: SparsePipeline<'map, 'key, Meta, K, V, S>,
    entry: Entry<'key, Meta, K>,
    data: Seq<u8>,
) -> bool {
    data == read_data::<K>(sparse.map.model(), entry.state.model())
}

/// Whether the reads in flight are those that the requests of a pipeline wait for.
spec fn reads_match<'map, 'key, Meta, K: Key + ?Sized, V: Value, S: UniversalRead>(
    sparse: SparsePipeline<'map, 'key, Meta, K, V, S>,
    reads: Map<u64, Seq<u8>>,
) -> bool {
    &&& reads.dom() == sparse.in_flight@.dom()
    &&& forall|id: u64| #[trigger]
        reads.contains_key(id) ==> is_read_of(sparse, sparse.in_flight@[id], reads[id])
}

} // verus!

//! What the calls on a pipeline of requests do, and the laws on them.
//!
//! A pipeline takes requests one by one, says which range of the file to read next,
//! and takes what was read. [`refilled`] and [`processed`] say what these calls do
//! to it.

use crate::entry::{estimated_size, PartialEntryKind};
use crate::key::Key;
use crate::model::Answer;
use crate::sparse::{is_report, Request};
use crate::steps::{first_step, law_follow_up_joins, next_step, read_range, State, Step};
use crate::uio::UniversalHashMap;
use crate::universal_io::{ReadRange, UniversalRead};
use crate::value::Value;
use crate::visit::Delivery;
use vstd::prelude::*;

verus! {

/// A request that was taken and not answered yet.
#[verifier::ext_equal]
pub ghost struct Pending<Meta, M> {
    /// The number of requests that were taken before.
    pub id: u64,
    pub meta: Meta,
    pub state: State<M>,
}

/// The state of a number of requests.
#[verifier::ext_equal]
pub ghost struct PipelineModel<Meta, K: Key + ?Sized, V: Value, S: UniversalRead> {
    pub map: UniversalHashMap<K, V, S>,
    /// The fields of an entry that are wanted.
    pub kind: PartialEntryKind,
    /// How much of an entry is read first.
    pub read_size_est: u64,
    pub file_len: u64,
    /// The requests that wait for their next read.
    pub waiting: Seq<Pending<Meta, K::V>>,
    /// The requests with a read in flight, by their number.
    pub in_flight: Map<u64, Pending<Meta, K::V>>,
    /// The number of requests that were taken.
    pub taken: u64,
}

impl<Meta, K: Key + ?Sized, V: Value, S: UniversalRead> PipelineModel<Meta, K, V, S> {
    /// Whether no request was taken yet.
    pub open spec fn is_new(self) -> bool {
        &&& self.read_size_est == estimated_size::<K, V>(self.kind)
        &&& self.file_len == self.map.model().file.len()
        &&& self.waiting.len() == 0
        &&& self.in_flight == Map::<u64, Pending<Meta, K::V>>::empty()
        &&& self.taken == 0
    }

    /// Whether what does not change is as it was.
    pub open spec fn keeps_fields(self, before: Self) -> bool {
        &&& self.map == before.map
        &&& self.kind == before.kind
        &&& self.read_size_est == before.read_size_est
        &&& self.file_len == before.file_len
    }

    /// What stays true of a pipeline: those that wait have their bucket behind them, and
    /// every request that was taken and not answered is in one place.
    pub open spec fn well_formed(self) -> bool {
        &&& self.read_size_est == estimated_size::<K, V>(self.kind)
        &&& self.file_len == self.map.model().file.len()
        &&& forall|j: int|
            0 <= j < self.waiting.len() ==> (#[trigger] self.waiting[j]).state is ReadingEntry
                && self.waiting[j].id < self.taken && !self.in_flight.contains_key(
                self.waiting[j].id,
            )
        &&& forall|j: int, k: int|
            0 <= j < k < self.waiting.len() ==> (#[trigger] self.waiting[j]).id != (
            #[trigger] self.waiting[k]).id
        &&& forall|id: u64| #[trigger]
            self.in_flight.contains_key(id) ==> self.in_flight[id].id == id && id < self.taken
    }
}

/// How many of some requests, counted from the first one, are for keys that have no
/// bucket, so that nothing has to be read to answer them.
pub open spec fn missed<'key, Meta, K: Key + ?Sized, V: Value, S: UniversalRead>(
    map: UniversalHashMap<K, V, S>,
    kind: PartialEntryKind,
    requests: Seq<(Meta, Request<'key, K>)>,
) -> nat
    decreases requests.len(),
{
    if requests.len() > 0 && first_step::<K, V>(map.model(), kind, requests[0].1.model()) == Step::<
        K::V,
        V,
    >::Answer(Answer::Absent) {
        1 + missed::<Meta, K, V, S>(map, kind, requests.subrange(1, requests.len() as int))
    } else {
        0
    }
}

/// What taking `data` for the request `id` does: one step; see [`next_step`].
///
/// Either the request waits for another read, or the visitor is told the answer, or
/// a corruption of the file is reported.
pub open spec fn processed<
    Meta,
    K: Key + ?Sized,
    V: Value,
    S: UniversalRead,
    D: Delivery<Meta, K, V>,
>(
    before: PipelineModel<Meta, K, V, S>,
    after: PipelineModel<Meta, K, V, S>,
    id: u64,
    data: Seq<u8>,
    calls_before: Seq<(D::Arg, Result<(), D::Error>)>,
    calls: Seq<(D::Arg, Result<(), D::Error>)>,
    r: Result<(), D::Error>,
) -> bool {
    let request = before.in_flight[id];
    &&& before.in_flight.contains_key(id)
    &&& after.keeps_fields(before)
    &&& after.taken == before.taken
    &&& after.in_flight == before.in_flight.remove(id)
    &&& match next_step::<K, V>(before.map.model(), before.kind, request.state, data) {
        Step::Read(state) => {
            &&& r is Ok
            &&& calls == calls_before
            &&& after.waiting == before.waiting.push(Pending { id, meta: request.meta, state })
        },
        Step::Answer(Answer::Corrupt(corruption)) => {
            &&& after.waiting == before.waiting
            &&& calls == calls_before
            &&& r matches Err(e) && is_report::<Meta, K, V, D>(corruption, e)
        },
        Step::Answer(told) => {
            &&& after.waiting == before.waiting
            &&& calls == calls_before.push((D::arg(request.meta, told), r))
        },
    }
}

/// What asking for the next read does when a request waits: the one that came last is
/// served, and nothing else happens.
pub open spec fn refilled_from_waiting<
    'key,
    Meta,
    K: Key + ?Sized,
    V: Value,
    S: UniversalRead,
    D: Delivery<Meta, K, V>,
>(
    before: PipelineModel<Meta, K, V, S>,
    after: PipelineModel<Meta, K, V, S>,
    requests_before: Seq<(Meta, Request<'key, K>)>,
    requests: Seq<(Meta, Request<'key, K>)>,
    calls_before: Seq<(D::Arg, Result<(), D::Error>)>,
    calls: Seq<(D::Arg, Result<(), D::Error>)>,
    r: Result<Option<(u64, ReadRange)>, D::Error>,
) -> bool {
    let request = before.waiting.last();
    let range = read_range::<K>(before.map.model(), request.state);
    &&& r == Ok::<Option<(u64, ReadRange)>, D::Error>(
        Some((request.id, range.clamped(before.file_len))),
    )
    &&& after.waiting == before.waiting.drop_last()
    &&& after.in_flight == before.in_flight.insert(request.id, request)
    &&& after.taken == before.taken
    &&& requests == requests_before
    &&& calls == calls_before
}

/// What asking for the next read does when no request waits.
///
/// The visitor is told of the keys in front that have no bucket, one after the other,
/// unless it fails. Then the next request is taken: its first read is handed out,
/// or a corruption of the file is reported.
pub open spec fn refilled_from_requests<
    'key,
    Meta,
    K: Key + ?Sized,
    V: Value,
    S: UniversalRead,
    D: Delivery<Meta, K, V>,
>(
    before: PipelineModel<Meta, K, V, S>,
    after: PipelineModel<Meta, K, V, S>,
    requests_before: Seq<(Meta, Request<'key, K>)>,
    requests: Seq<(Meta, Request<'key, K>)>,
    calls_before: Seq<(D::Arg, Result<(), D::Error>)>,
    calls: Seq<(D::Arg, Result<(), D::Error>)>,
    r: Result<Option<(u64, ReadRange)>, D::Error>,
) -> bool {
    let m = before.map.model();
    let n = missed::<Meta, K, V, S>(before.map, before.kind, requests_before);
    let told = calls.len() - calls_before.len();
    &&& after.waiting.len() == 0
    &&& after.taken == before.taken + (requests_before.len() - requests.len())
    &&& 0 <= told <= n
    &&& forall|k: int| 0 <= k < calls_before.len() ==> #[trigger] calls[k] == calls_before[k]
    &&& forall|k: int|
        0 <= k < told ==> (#[trigger] calls[calls_before.len() + k]).0 == D::arg(
            requests_before[k].0,
            Answer::Absent,
        )
    &&& forall|k: int|
        0 <= k < told - 1 ==> (#[trigger] calls[calls_before.len() + k]).1 is Ok
    &&& if told > 0 && calls.last().1 is Err {
        // The visitor failed.
        &&& r is Err
        &&& r->Err_0 == calls.last().1->Err_0
        &&& after.in_flight == before.in_flight
        &&& requests == requests_before.skip(told)
    } else if n == requests_before.len() {
        // There is nothing left to take.
        &&& told == n
        &&& r == Ok::<Option<(u64, ReadRange)>, D::Error>(None)
        &&& after.in_flight == before.in_flight
        &&& requests.len() == 0
    } else {
        let (meta, request) = requests_before[n as int];
        &&& told == n
        &&& requests == requests_before.skip(n as int + 1)
        &&& match first_step::<K, V>(m, before.kind, request.model()) {
            Step::Read(state) => {
                let id = (before.taken + n) as u64;
                &&& r == Ok::<Option<(u64, ReadRange)>, D::Error>(
                    Some((id, read_range::<K>(m, state).clamped(before.file_len))),
                )
                &&& after.in_flight == before.in_flight.insert(id, Pending { id, meta, state })
            },
            Step::Answer(told) => {
                &&& after.in_flight == before.in_flight
                &&& told matches Answer::Corrupt(corruption) && (r matches Err(e) && is_report::<
                    Meta,
                    K,
                    V,
                    D,
                >(corruption, e))
            },
        }
    }
}

/// What asking for the next read does.
pub open spec fn refilled<
    'key,
    Meta,
    K: Key + ?Sized,
    V: Value,
    S: UniversalRead,
    D: Delivery<Meta, K, V>,
>(
    before: PipelineModel<Meta, K, V, S>,
    after: PipelineModel<Meta, K, V, S>,
    requests_before: Seq<(Meta, Request<'key, K>)>,
    requests: Seq<(Meta, Request<'key, K>)>,
    calls_before: Seq<(D::Arg, Result<(), D::Error>)>,
    calls: Seq<(D::Arg, Result<(), D::Error>)>,
    r: Result<Option<(u64, ReadRange)>, D::Error>,
) -> bool {
    &&& after.keeps_fields(before)
    &&& if before.waiting.len() > 0 {
        refilled_from_waiting::<Meta, K, V, S, D>(
            before,
            after,
            requests_before,
            requests,
            calls_before,
            calls,
            r,
        )
    } else {
        refilled_from_requests::<Meta, K, V, S, D>(
            before,
            after,
            requests_before,
            requests,
            calls_before,
            calls,
            r,
        )
    }
}

/// Whether a call on a pipeline can have changed `before` to `after`.
pub open spec fn is_changed<
    Meta,
    K: Key + ?Sized,
    V: Value,
    S: UniversalRead,
    D: Delivery<Meta, K, V>,
>(before: PipelineModel<Meta, K, V, S>, after: PipelineModel<Meta, K, V, S>) -> bool {
    ||| exists|
        id: u64,
        data: Seq<u8>,
        calls_before: Seq<(D::Arg, Result<(), D::Error>)>,
        calls: Seq<(D::Arg, Result<(), D::Error>)>,
        r: Result<(), D::Error>,
    | processed::<Meta, K, V, S, D>(before, after, id, data, calls_before, calls, r)
    ||| exists|
        requests_before: Seq<(Meta, Request<'_, K>)>,
        requests: Seq<(Meta, Request<'_, K>)>,
        calls_before: Seq<(D::Arg, Result<(), D::Error>)>,
        calls: Seq<(D::Arg, Result<(), D::Error>)>,
        r: Result<Option<(u64, ReadRange)>, D::Error>,
    | refilled::<Meta, K, V, S, D>(
            before,
            after,
            requests_before,
            requests,
            calls_before,
            calls,
            r,
        )
}

/// A read that was taken without an error either answers its request or queues it once.
///
/// Either the visitor was called once, with the answer, and those that wait are the
/// same. Or the visitor was not called, and the request waits behind the others. In
/// both cases it is no longer in flight.
pub proof fn law_answered_or_queued<
    Meta,
    K: Key + ?Sized,
    V: Value,
    S: UniversalRead,
    D: Delivery<Meta, K, V>,
>(
    before: PipelineModel<Meta, K, V, S>,
    after: PipelineModel<Meta, K, V, S>,
    id: u64,
    data: Seq<u8>,
    calls_before: Seq<(D::Arg, Result<(), D::Error>)>,
    calls: Seq<(D::Arg, Result<(), D::Error>)>,
)
    requires
        processed::<Meta, K, V, S, D>(
            before,
            after,
            id,
            data,
            calls_before,
            calls,
            Ok::<(), D::Error>(()),
        ),
    ensures
        ({
            let request = before.in_flight[id];
            let step = next_step::<K, V>(before.map.model(), before.kind, request.state, data);
            let is_answered = {
                &&& step is Answer
                &&& !(step->Answer_0 is Corrupt)
                &&& calls == calls_before.push(
                    (D::arg(request.meta, step->Answer_0), Ok::<(), D::Error>(())),
                )
                &&& after.waiting == before.waiting
            };
            let is_queued = {
                &&& calls == calls_before
                &&& after.waiting.len() == before.waiting.len() + 1
                &&& after.waiting.drop_last() == before.waiting
                &&& after.waiting.last().id == id
                &&& after.waiting.last().meta == request.meta
                &&& after.waiting.last().state is ReadingEntry
            };
            &&& is_answered != is_queued
            &&& after.in_flight == before.in_flight.remove(id)
            &&& after.taken == before.taken
        }),
{
    assert(after.waiting.len() == before.waiting.len() + 1 ==> after.waiting.drop_last()
        =~= before.waiting);
}

/// No read goes past the end of the file, and asking for a read changes neither the map,
/// nor the length of the file, nor what is wanted of an entry, nor how much of it is
/// read first.
pub proof fn law_reads_end_in_file<
    'key,
    Meta,
    K: Key + ?Sized,
    V: Value,
    S: UniversalRead,
    D: Delivery<Meta, K, V>,
>(
    before: PipelineModel<Meta, K, V, S>,
    after: PipelineModel<Meta, K, V, S>,
    requests_before: Seq<(Meta, Request<'key, K>)>,
    requests: Seq<(Meta, Request<'key, K>)>,
    calls_before: Seq<(D::Arg, Result<(), D::Error>)>,
    calls: Seq<(D::Arg, Result<(), D::Error>)>,
    r: Result<Option<(u64, ReadRange)>, D::Error>,
)
    requires
        refilled::<Meta, K, V, S, D>(
            before,
            after,
            requests_before,
            requests,
            calls_before,
            calls,
            r,
        ),
    ensures
        r matches Ok(Some((id, range))) ==> range.byte_offset + range.length <= before.file_len,
        after.keeps_fields(before),
{
}

/// No more requests are for keys without a bucket than there are requests.
proof fn lemma_missed<'key, Meta, K: Key + ?Sized, V: Value, S: UniversalRead>(
    map: UniversalHashMap<K, V, S>,
    kind: PartialEntryKind,
    requests: Seq<(Meta, Request<'key, K>)>,
)
    ensures
        missed::<Meta, K, V, S>(map, kind, requests) <= requests.len(),
    decreases requests.len(),
{
    if requests.len() > 0 {
        lemma_missed(map, kind, requests.subrange(1, requests.len() as int));
    }
}

/// A call on a pipeline keeps what stays true of it.
proof fn lemma_changed<
    Meta,
    K: Key + ?Sized,
    V: Value,
    S: UniversalRead,
    D: Delivery<Meta, K, V>,
>(before: PipelineModel<Meta, K, V, S>, after: PipelineModel<Meta, K, V, S>)
    requires
        before.well_formed(),
        is_changed::<Meta, K, V, S, D>(before, after),
    ensures
        after.well_formed(),
        after.keeps_fields(before),
{
    assert forall|j: int| 0 <= j < after.waiting.len() implies (
    #[trigger] after.waiting[j]).state is ReadingEntry && after.waiting[j].id < after.taken
        && !after.in_flight.contains_key(after.waiting[j].id) by {
        if j < before.waiting.len() {
            assert(after.waiting[j] == before.waiting[j]);
            if before.waiting.len() > after.waiting.len() {
                assert(before.waiting[j].id != before.waiting.last().id);
            }
        }
    }
    assert forall|j: int, k: int| 0 <= j < k < after.waiting.len() implies (
    #[trigger] after.waiting[j]).id != (#[trigger] after.waiting[k]).id by {
        assert(after.waiting[j] == before.waiting[j]);
        if k < before.waiting.len() {
            assert(after.waiting[k] == before.waiting[k]);
        }
    }
    assert forall|requests: Seq<(Meta, Request<'_, K>)>| #[trigger]
        missed::<Meta, K, V, S>(before.map, before.kind, requests) <= requests.len() by {
        lemma_missed(before.map, before.kind, requests);
    }
    assert forall|id: u64| #[trigger] after.in_flight.contains_key(id) implies
        after.in_flight[id].id == id && id < after.taken by {
        if before.in_flight.contains_key(id) {
            assert(before.in_flight[id].id == id);
        }
    }
}

/// Those that wait have their bucket behind them, and every request that was taken and
/// not answered is in one place: so it is of a new pipeline, and after any sequence
/// of calls on it.
pub proof fn law_well_formed<
    Meta,
    K: Key + ?Sized,
    V: Value,
    S: UniversalRead,
    D: Delivery<Meta, K, V>,
>(run: Seq<PipelineModel<Meta, K, V, S>>)
    requires
        run.len() > 0,
        run[0].is_new(),
        forall|i: int|
            0 <= i < run.len() - 1 ==> is_changed::<Meta, K, V, S, D>(
                #[trigger] run[i],
                run[i + 1],
            ),
    ensures
        forall|i: int|
            0 <= i < run.len() ==> (#[trigger] run[i]).well_formed() && run[i].keeps_fields(run[0]),
    decreases run.len(),
{
    if run.len() > 1 {
        let first = run.drop_last();
        assert forall|i: int| 0 <= i < first.len() - 1 implies is_changed::<
            Meta,
            K,
            V,
            S,
            D,
        >(#[trigger] first[i], first[i + 1]) by {
            assert(run[i] == first[i]);
        }
        law_well_formed::<Meta, K, V, S, D>(first);
        let last = run.len() - 1;
        assert(first[last - 1].well_formed());
        assert(is_changed::<Meta, K, V, S, D>(run[last - 1], run[last]));
        lemma_changed::<Meta, K, V, S, D>(run[last - 1], run[last]);
        assert forall|i: int| 0 <= i < run.len() implies (#[trigger] run[i]).well_formed()
            && run[i].keeps_fields(run[0]) by {
            if i < last {
                assert(first[i].well_formed());
            }
        }
    }
}

/// The reads of one entry join without a gap, and each of them makes progress.
///
/// When what was read of an entry is taken and leads to another read, the next range
/// that is asked for is for the same request. It starts where the bytes that are
/// there end, which is inside the file, and it is not empty.
pub proof fn law_follow_up_read<
    'key,
    Meta,
    K: Key + ?Sized,
    V: Value,
    S: UniversalRead,
    D: Delivery<Meta, K, V>,
>(
    start: PipelineModel<Meta, K, V, S>,
    between: PipelineModel<Meta, K, V, S>,
    end: PipelineModel<Meta, K, V, S>,
    id: u64,
    data: Seq<u8>,
    calls: Seq<(D::Arg, Result<(), D::Error>)>,
    requests_before: Seq<(Meta, Request<'key, K>)>,
    requests: Seq<(Meta, Request<'key, K>)>,
    calls_after: Seq<(D::Arg, Result<(), D::Error>)>,
    r: Result<Option<(u64, ReadRange)>, D::Error>,
)
    requires
        start.well_formed(),
        start.in_flight[id].state is ReadingEntry,
        processed::<Meta, K, V, S, D>(
            start,
            between,
            id,
            data,
            calls,
            calls,
            Ok::<(), D::Error>(()),
        ),
        refilled::<Meta, K, V, S, D>(
            between,
            end,
            requests_before,
            requests,
            calls,
            calls_after,
            r,
        ),
    ensures
        ({
            let state = start.in_flight[id].state;
            let there = state->byte_offset + state->buf.len() + data.len();
            let read = read_range::<K>(start.map.model(), state).clamped(start.file_len);
            &&& r matches Ok(Some((next_id, range))) && {
                &&& next_id == id
                &&& range.byte_offset == there
                &&& there < start.file_len
                &&& range.length >= 1
                &&& data.len() == read.length ==> range.byte_offset == read.byte_offset + read.length
            }
            &&& end.in_flight.contains_key(id)
            &&& end.in_flight[id].meta == start.in_flight[id].meta
            &&& end.in_flight[id].state is ReadingEntry
            &&& end.in_flight[id].state->byte_offset == state->byte_offset
            &&& end.in_flight[id].state->buf == state->buf + data
        }),
{
    let request = start.in_flight[id];
    let step = next_step::<K, V>(start.map.model(), start.kind, request.state, data);
    if step is Answer {
        assert(calls.len() + 1 == calls.push(
            (D::arg(request.meta, step->Answer_0), Ok::<(), D::Error>(())),
        ).len());
        assert(false);
    }
    law_follow_up_joins::<K, V>(start.map.model(), start.kind, request.state, data);
    assert(between.waiting.last() == Pending { id, meta: request.meta, state: step->Read_0 });
}

} // verus!

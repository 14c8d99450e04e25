//! Reading keys and values from a map by requests for single entries.

use crate::entry::PartialEntryKind;
use crate::key::Key;
use crate::model::{answer, message, Answer, MapModel, RequestModel, BUCKET_OFFSET_SIZE};
use crate::sparse::{
    answered, can_start_first_read, expected_args, is_borne, is_corruption, is_report,
    is_selection, is_storage_failure, lemma_selection_of_selection, queue_model, visits_in_order,
    Request,
};
use crate::uio::{table_range, UniversalHashMap};
use crate::universal_io::{
    can_read, can_wait, is_data_err, is_read_error, is_ready, is_start_error, Access, ReadRange,
    UniversalIoError, UniversalRead,
};
use crate::value::Value;
use crate::visit::{
    answer_values, answer_values_len, is_converted, BatchVisitor, Delivery,
    KeyVisitor, ToBatch, ToCounts, ToKeys, ToValues,
};
use std::collections::VecDeque;
use vstd::prelude::*;

verus! {

/// Whether `e` is what `From` makes of an error that a read of a range returns.
pub open spec fn is_converted_read_error<S: UniversalRead, E: From<UniversalIoError>>(
    storage: S,
    range: ReadRange,
    e: E,
) -> bool {
    exists|io: UniversalIoError| is_read_error(storage, range, io) && #[trigger] is_converted(io, e)
}

/// Requests for the entries of all buckets.
pub open spec fn bucket_requests<M>(m: MapModel) -> Seq<((), RequestModel<M>)> {
    Seq::new(m.buckets_count as nat, |i: int| ((), RequestModel::Offset(m.bucket(i as u64) as u64)))
}

/// Requests for the entries of some keys.
pub open spec fn key_requests<'key, Meta, K: Key + ?Sized>(keys: Seq<(Meta, &'key K)>) -> Seq<
    (Meta, RequestModel<K::V>),
> {
    Seq::new(keys.len(), |i: int| (keys[i].0, RequestModel::Key(keys[i].1@)))
}

/// Whether `after` holds the numbers of `before` in another order.
pub open spec fn is_rearranged(before: Seq<u64>, after: Seq<u64>) -> bool {
    exists|order: Seq<int>| #[trigger]
        is_selection(order, before.len()) && order.len() == before.len() && after.len()
            == before.len() && forall|j: int|
            0 <= j < after.len() ==> #[trigger] after[j] == before[order[j]]
}

/// Calls [`slice::sort_unstable`], which puts the numbers in ascending order.
#[verifier::external_body]
fn sort_offsets(offsets: &mut Vec<u64>)
    ensures
        is_rearranged(old(offsets)@, final(offsets)@),
        forall|i: int, j: int|
            0 <= i <= j < final(offsets)@.len() ==> final(offsets)@[i] <= final(offsets)@[j],
{
    offsets.sort_unstable();
}

/// The requests for the entries at some offsets.
spec fn offset_requests<M>(offsets: Seq<u64>) -> Seq<((), RequestModel<M>)> {
    Seq::new(offsets.len(), |i: int| ((), RequestModel::Offset(offsets[i])))
}

/// A selection with as many numbers as there are leaves none out.
proof fn lemma_selection_covers(order: Seq<int>, n: nat, i: int)
    requires
        is_selection(order, n),
        order.len() == n,
        0 <= i < n,
    ensures
        order.contains(i),
{
    let all = vstd::set_lib::set_int_range(0, n as int);
    vstd::set_lib::lemma_int_range(0, n as int);
    order.unique_seq_to_set();
    assert forall|x: int| order.to_set().contains(x) implies all.contains(x) by {
        let k = order.index_of(x);
        assert(order[k] == x);
    }
    vstd::set_lib::lemma_subset_equality(order.to_set(), all);
    assert(order.to_set().contains(i));
}

/// One request that was answered without an error has one answer.
proof fn lemma_answered_one<
    K: Key + ?Sized,
    V: Value,
    D: Delivery<(), K, V>,
    S: UniversalRead,
>(
    m: MapModel,
    request: RequestModel<K::V>,
    after: Seq<(D::Arg, Result<(), D::Error>)>,
    r: Result<(), D::Error>,
)
    requires
        answered::<(), K, V, D, S>(m, seq![((), request)], Seq::empty(), after, r),
        r is Ok,
    ensures
        after.len() == 1,
        after[0].0 == D::arg((), answer::<K, V>(m, D::kind(), request)),
        !(answer::<K, V>(m, D::kind(), request) is Corrupt),
{
    let queue = seq![((), request)];
    let before = Seq::<(D::Arg, Result<(), D::Error>)>::empty();
    let args = expected_args::<(), K, V, D>(m, queue);
    let order = choose|order: Seq<int>| #[trigger]
        is_selection(order, args.len()) && visits_in_order(args, order, before, after, r, false);
    assert(0 <= order[0] < 1);
    assert(after[before.len() + 0int].0 == args[order[0]]);
    assert(!(answer::<K, V>(m, D::kind(), queue[0].1) is Corrupt));
}

/// The answers to requests in another order are the answers to the requests.
proof fn lemma_answered_rearranged<
    K: Key + ?Sized,
    V: Value,
    D: Delivery<(), K, V>,
    S: UniversalRead,
>(
    m: MapModel,
    storage: S,
    offsets: Seq<u64>,
    sorted: Seq<u64>,
    before: Seq<(D::Arg, Result<(), D::Error>)>,
    after: Seq<(D::Arg, Result<(), D::Error>)>,
    r: Result<(), D::Error>,
)
    requires
        is_rearranged(offsets, sorted),
        answered::<(), K, V, D, S>(m, offset_requests(sorted), before, after, r),
        is_borne::<(), K, V, D, S>(m, storage, offset_requests(sorted), before, after, r),
    ensures
        answered::<(), K, V, D, S>(m, offset_requests(offsets), before, after, r),
        is_borne::<(), K, V, D, S>(m, storage, offset_requests(offsets), before, after, r),
{
    let n = offsets.len();
    let queue = offset_requests::<K::V>(offsets);
    let queue2 = offset_requests::<K::V>(sorted);
    let p = choose|order: Seq<int>| #[trigger]
        is_selection(order, n) && order.len() == n && sorted.len() == n && forall|j: int|
            0 <= j < sorted.len() ==> #[trigger] sorted[j] == offsets[order[j]];
    let args = expected_args::<(), K, V, D>(m, queue);
    let args2 = expected_args::<(), K, V, D>(m, queue2);
    let reason2 = r matches Err(e) && (is_corruption::<(), K, V, D>(m, queue2, e)
        || is_storage_failure::<(), K, V, D, S>(e));
    let reason = r matches Err(e) && (is_corruption::<(), K, V, D>(m, queue, e)
        || is_storage_failure::<(), K, V, D, S>(e));
    assert forall|j: int| 0 <= j < n implies #[trigger] queue2[j] == queue[p[j]] by {
        assert(sorted[j] == offsets[p[j]]);
    }
    if reason2 && is_corruption::<(), K, V, D>(m, queue2, r->Err_0) {
        let e = r->Err_0;
        let j = choose|i: int|
            0 <= i < queue2.len() && (answer::<K, V>(
                m,
                D::kind(),
                (#[trigger] queue2[i]).1,
            ) matches Answer::Corrupt(corruption) && is_report::<(), K, V, D>(corruption, e));
        assert(queue2[j] == queue[p[j]]);
        assert(is_corruption::<(), K, V, D>(m, queue, e));
    }
    let order2 = choose|order: Seq<int>| #[trigger]
        is_selection(order, args2.len()) && visits_in_order(
            args2,
            order,
            before,
            after,
            r,
            reason2,
        );
    let order = Seq::new(order2.len(), |k: int| p[order2[k]]);
    lemma_selection_of_selection(p, order2, n);
    assert(is_selection(order, args.len()));
    assert(visits_in_order(args, order, before, after, r, reason)) by {
        assert forall|k: int| 0 <= k < order.len() implies (#[trigger] after[before.len() + k]).0
            == args[order[k]] by {
            assert(0 <= order2[k] < n);
            assert(after[before.len() + k].0 == args2[order2[k]]);
            assert(queue2[order2[k]] == queue[p[order2[k]]]);
        }
    }
    if r is Ok {
        assert forall|i: int| 0 <= i < queue.len() implies !(answer::<K, V>(
            m,
            D::kind(),
            (#[trigger] queue[i]).1,
        ) is Corrupt) && can_start_first_read::<K, V, S>(m, storage, D::kind(), queue[i].1) by {
            lemma_selection_covers(p, n, i);
            let j = p.index_of(i);
            assert(queue2[j] == queue[p[j]]);
        }
    }
}

impl<K: Key + ?Sized, V: Value, S: UniversalRead> UniversalHashMap<K, V, S> {
    /// Visits the key of the entry of each bucket, in no particular order.
    ///
    /// If the bucket table cannot be read, no key is visited, and the error is that of
    /// the read. That is so where the file ends before the table does.
    pub fn for_each_key<F: KeyVisitor<K>>(&self, f: &mut F) -> (r: Result<(), F::Error>)
        ensures
            ({
                let m = self.model();
                let is_there = m.entries_start() <= m.file.len();
                ||| {
                    &&& is_there
                    &&& can_read(self.source(), table_range(m))
                    &&& answered::<(), K, V, ToKeys<F>, S>(
                        m,
                        bucket_requests(m),
                        old(f).calls(),
                        final(f).calls(),
                        r,
                    )
                    &&& is_borne::<(), K, V, ToKeys<F>, S>(
                        m,
                        self.source(),
                        bucket_requests(m),
                        old(f).calls(),
                        final(f).calls(),
                        r,
                    )
                }
                ||| (!is_there || !S::infallible()) && final(f).calls() == old(f).calls() && (
                r matches Err(e) && is_converted_read_error(self.source(), table_range(m), e))
            }),
    {
        let ghost m = self.model();
        let bytes: Vec<u8> = match self.storage().read(Access::Sequential, self.table_range()) {
            Ok(bytes) => bytes,
            Err(io) => {
                let e: F::Error = <ToKeys<F> as Delivery<(), K, V>>::fail(io);
                assert(is_converted(io, e));
                assert(is_converted_read_error(self.source(), table_range(m), e));
                return Err(e);
            },
        };
        let mut offsets: Vec<u64> = Vec::new();
        let mut pos: usize = 0;
        while pos < bytes.len()
            invariant
                m == self.model(),
                m.entries_start() <= m.file.len(),
                bytes@ == m.file.subrange(m.buckets_pos as int, m.entries_start()),
                pos == offsets@.len() * 8,
                pos <= bytes@.len(),
                forall|i: int|
                    0 <= i < offsets@.len() ==> #[trigger] offsets@[i] == m.bucket(i as u64),
            decreases bytes@.len() - pos,
        {
            let chunk: &[u8] = vstd::slice::slice_subrange(bytes.as_slice(), pos, pos + 8);
            proof {
                let at = m.bucket_pos(offsets@.len() as u64);
                assert(chunk@ =~= m.file.subrange(at, at + BUCKET_OFFSET_SIZE));
            }
            offsets.push(self.order().decode_u64(chunk));
            pos = pos + 8;
        }
        let ghost table = offsets@;
        sort_offsets(&mut offsets);
        let mut requests: VecDeque<((), Request<'_, K>)> = VecDeque::new();
        let mut i: usize = 0;
        while i < offsets.len()
            invariant
                i <= offsets@.len(),
                requests@.len() == i,
                forall|j: int|
                    0 <= j < i ==> #[trigger] requests@[j] == ((), Request::<K>::Offset(offsets@[j])),
            decreases offsets@.len() - i,
        {
            requests.push_back(((), Request::Offset(offsets[i])));
            i = i + 1;
        }
        let ghost before = f.calls();
        let r: Result<(), F::Error> = self.for_each_sparse::<(), ToKeys<F>>(
            PartialEntryKind::KeyOnly,
            requests,
            f,
        );
        proof {
            assert(queue_model(requests@) =~= offset_requests::<K::V>(offsets@));
            lemma_answered_rearranged::<K, V, ToKeys<F>, S>(
                m,
                self.source(),
                table,
                offsets@,
                before,
                f.calls(),
                r,
            );
            assert(offset_requests::<K::V>(table) =~= bucket_requests::<K::V>(m));
        }
        r
    }

    /// Visits the values of some keys, in no particular order.
    pub fn batch_with_entry<'key, Meta, F: BatchVisitor<Meta, V>>(
        &self,
        keys: Vec<(Meta, &'key K)>,
        f: &mut F,
    ) -> (r: Result<(), F::Error>)
        ensures
            answered::<Meta, K, V, ToBatch<F>, S>(
                self.model(),
                key_requests(keys@),
                old(f).calls(),
                final(f).calls(),
                r,
            ),
            is_borne::<Meta, K, V, ToBatch<F>, S>(
                self.model(),
                self.source(),
                key_requests(keys@),
                old(f).calls(),
                final(f).calls(),
                r,
            ),
    {
        let mut left: Vec<(Meta, &'key K)> = keys;
        let mut requests: VecDeque<(Meta, Request<'key, K>)> = VecDeque::new();
        while left.len() > 0
            invariant
                left@.len() + requests@.len() == keys@.len(),
                left@ =~= keys@.take(left@.len() as int),
                forall|j: int|
                    0 <= j < requests@.len() ==> #[trigger] requests@[j] == (
                        keys@[left@.len() + j].0,
                        Request::Key(keys@[left@.len() + j].1),
                    ),
            decreases left@.len(),
        {
            let (meta, key): (Meta, &'key K) = left.pop().unwrap();
            requests.push_front((meta, Request::Key(key)));
        }
        assert(queue_model(requests@) =~= key_requests(keys@));
        self.for_each_sparse::<Meta, ToBatch<F>>(PartialEntryKind::KeyAndValues, requests, f)
    }

    /// The values of a key, or nothing if the key is not in the map.
    pub fn get(&self, key: &K) -> (r: Result<Option<Vec<V>>, UniversalIoError>)
        ensures
            ({
                let told = answer::<K, V>(
                    self.model(),
                    PartialEntryKind::KeyAndValues,
                    RequestModel::Key(key@),
                );
                match r {
                    Ok(values) => {
                        &&& !(told is Corrupt)
                        &&& match (values, answer_values(told)) {
                            (Some(values), Some(expected)) => values@ == expected,
                            (None, None) => true,
                            _ => false,
                        }
                    },
                    Err(e) => (told matches Answer::Corrupt(corruption) && is_data_err(
                        e,
                        message(corruption),
                    )) || (!S::infallible() && S::reports(e)),
                }
            }),
            is_ready(self.source()) || (r matches Err(e) && is_start_error(self.source(), e)),
            r is Ok ==> can_wait::<S>() && can_start_first_read::<K, V, S>(
                self.model(),
                self.source(),
                PartialEntryKind::KeyAndValues,
                RequestModel::Key(key@),
            ),
    {
        let mut requests: VecDeque<((), Request<'_, K>)> = VecDeque::new();
        requests.push_back(((), Request::Key(key)));
        let mut results: Vec<Option<Vec<V>>> = Vec::new();
        let ghost none = <ToValues as Delivery<(), K, V>>::calls(results);
        let outcome: Result<(), UniversalIoError> = self.for_each_sparse::<(), ToValues>(
            PartialEntryKind::KeyAndValues,
            requests,
            &mut results,
        );
        proof {
            let request = RequestModel::<K::V>::Key(key@);
            let calls = <ToValues as Delivery<(), K, V>>::calls(results);
            assert(queue_model(requests@) =~= seq![((), request)]);
            assert(queue_model(requests@)[0].1 == request);
            assert(none =~= Seq::empty());
            if outcome is Ok {
                lemma_answered_one::<K, V, ToValues, S>(
                    self.model(),
                    request,
                    calls,
                    outcome,
                );
            }
        }
        match outcome {
            Ok(_) => Ok(results.pop().unwrap()),
            Err(e) => Err(e),
        }
    }

    /// The number of values of a key, or nothing if the key is not in the map. No more of
    /// the entry is asked for once the number of values is there.
    pub fn get_values_count(&self, key: &K) -> (r: Result<Option<usize>, UniversalIoError>)
        ensures
            ({
                let told = answer::<K, V>(
                    self.model(),
                    PartialEntryKind::KeyAndValuesLen,
                    RequestModel::Key(key@),
                );
                match r {
                    Ok(count) => {
                        &&& !(told is Corrupt)
                        &&& match (count, answer_values_len(told)) {
                            (Some(count), Some(expected)) => count == expected,
                            (None, None) => true,
                            _ => false,
                        }
                    },
                    Err(e) => (told matches Answer::Corrupt(corruption) && is_data_err(
                        e,
                        message(corruption),
                    )) || (!S::infallible() && S::reports(e)),
                }
            }),
            is_ready(self.source()) || (r matches Err(e) && is_start_error(self.source(), e)),
            r is Ok ==> can_wait::<S>() && can_start_first_read::<K, V, S>(
                self.model(),
                self.source(),
                PartialEntryKind::KeyAndValuesLen,
                RequestModel::Key(key@),
            ),
    {
        let mut requests: VecDeque<((), Request<'_, K>)> = VecDeque::new();
        requests.push_back(((), Request::Key(key)));
        let mut results: Vec<Option<usize>> = Vec::new();
        let ghost none = <ToCounts as Delivery<(), K, V>>::calls(results);
        let outcome: Result<(), UniversalIoError> = self.for_each_sparse::<(), ToCounts>(
            PartialEntryKind::KeyAndValuesLen,
            requests,
            &mut results,
        );
        proof {
            let request = RequestModel::<K::V>::Key(key@);
            let calls = <ToCounts as Delivery<(), K, V>>::calls(results);
            assert(queue_model(requests@) =~= seq![((), request)]);
            assert(queue_model(requests@)[0].1 == request);
            assert(none =~= Seq::empty());
            if outcome is Ok {
                lemma_answered_one::<K, V, ToCounts, S>(
                    self.model(),
                    request,
                    calls,
                    outcome,
                );
            }
        }
        match outcome {
            Ok(_) => Ok(results.pop().unwrap()),
            Err(e) => Err(e),
        }
    }
}

} // verus!

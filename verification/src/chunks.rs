//! Reading a range of a file part by part, with many reads in flight.

use crate::sum::{lemma_sum_update, sum};
use crate::universal_io::{
    can_start, can_wait, has_pipeline, Access, ReadRange, UniversalIoError, UniversalRead,
};
use std::collections::HashMap;
use vstd::prelude::*;

verus! {

/// The parts of a range of a file, in the order in which they stand there,
/// whatever the order in which the reads complete.
pub(crate) struct OrderedChunks<'a, S: UniversalRead> {
    storage: &'a S,
    range: ReadRange,
    pipeline: S::Pipeline,
    /// Parts that were read before their turn came, by their number.
    arrived: HashMap<u64, Vec<u8>>,
    /// The number of parts whose read was started.
    scheduled: u64,
    /// The number of parts that were handed out.
    delivered: u64,
}

impl<'a, S: UniversalRead> OrderedChunks<'a, S> {
    /// The bytes of the file.
    pub(crate) closed spec fn file(self) -> Seq<u8> {
        self.storage.contents()
    }

    /// The storage that is read.
    pub(crate) closed spec fn source(self) -> S {
        *self.storage
    }

    /// The range that is read.
    pub(crate) closed spec fn range(self) -> ReadRange {
        self.range
    }

    /// The number of parts that were handed out.
    pub(crate) closed spec fn position(self) -> int {
        self.delivered as int
    }

    /// What stays true of the parts that are in flight and of those that arrived.
    pub(crate) closed spec fn inv(self) -> bool {
        let reads = S::in_flight(self.pipeline);
        let file = self.storage.contents();
        &&& self.range.fits(file.len())
        &&& file.len() <= u64::MAX
        &&& self.delivered <= self.scheduled <= self.range.chunk_count()
        &&& forall|id: u64| #[trigger]
            reads.contains_key(id) ==> self.delivered <= id < self.scheduled && reads[id]
                == self.range.chunk(id as int).of(file) && !self.arrived@.contains_key(id)
        &&& forall|id: u64| #[trigger]
            self.arrived@.contains_key(id) ==> self.delivered <= id < self.scheduled
                && self.arrived@[id]@ == self.range.chunk(id as int).of(file)
        &&& forall|id: u64|
            self.delivered <= id < self.scheduled ==> #[trigger] reads.contains_key(id)
                || self.arrived@.contains_key(id)
        &&& forall|i: int|
            0 <= i < self.scheduled ==> can_start(
                *self.storage,
                Access::Sequential,
                #[trigger] self.range.chunk(i),
            )
    }

    /// The reads of the parts that were handed out can be started.
    pub(crate) proof fn lemma_started(self)
        requires
            self.inv(),
        ensures
            forall|i: int|
                0 <= i < self.position() ==> can_start(
                    self.source(),
                    Access::Sequential,
                    #[trigger] self.range().chunk(i),
                ),
    {
    }

    /// For each part, whether it is still to arrive.
    spec fn to_come(self) -> Seq<nat> {
        Seq::new(
            self.range.chunk_count() as nat,
            |i: int|
                if i < self.delivered || self.arrived@.contains_key(i as u64) {
                    0
                } else {
                    1
                },
        )
    }

    /// The parts of a range that lies in the file.
    pub(crate) fn new(storage: &'a S, range: ReadRange) -> (r: Result<Self, UniversalIoError>)
        requires
            range.fits(storage.contents().len()),
            storage.contents().len() <= u64::MAX,
        ensures
            match r {
                Ok(chunks) => {
                    &&& chunks.inv()
                    &&& chunks.file() == storage.contents()
                    &&& chunks.source() == *storage
                    &&& chunks.range() == range
                    &&& chunks.position() == 0
                    &&& has_pipeline::<S>()
                },
                Err(e) => {
                    &&& !S::infallible()
                    &&& S::reports(e)
                    &&& call_ensures(S::new_pipeline, (), Err(e))
                },
            },
    {
        match S::new_pipeline() {
            Ok(pipeline) => Ok(
                OrderedChunks {
                    storage,
                    range,
                    pipeline,
                    arrived: HashMap::new(),
                    scheduled: 0,
                    delivered: 0,
                },
            ),
            Err(e) => Err(e),
        }
    }

    /// Starts as many reads as the storage takes.
    fn fill(&mut self) -> (r: Result<(), UniversalIoError>)
        requires
            old(self).inv(),
        ensures
            match r {
                Ok(_) => {
                    &&& final(self).inv()
                    &&& final(self).storage == old(self).storage
                    &&& final(self).range == old(self).range
                    &&& final(self).delivered == old(self).delivered
                    &&& final(self).arrived@ == old(self).arrived@
                    &&& S::in_flight(final(self).pipeline).dom().is_empty() ==> final(self).scheduled
                        == final(self).range.chunk_count()
                },
                Err(e) => !S::infallible() && S::reports(e),
            },
    {
        while S::can_schedule(&self.pipeline)
            invariant
                self.inv(),
                self.storage == old(self).storage,
                self.range == old(self).range,
                self.delivered == old(self).delivered,
                self.arrived@ == old(self).arrived@,
            ensures
                self.inv(),
                self.storage == old(self).storage,
                self.range == old(self).range,
                self.delivered == old(self).delivered,
                self.arrived@ == old(self).arrived@,
                S::in_flight(self.pipeline).dom().is_empty() ==> self.scheduled
                    == self.range.chunk_count(),
            decreases self.range.chunk_count() - self.scheduled,
        {
            let id: u64 = self.scheduled;
            let part: ReadRange = match self.range.autochunk(id) {
                Some(part) => part,
                None => {
                    break;
                },
            };
            let ghost before = S::in_flight(self.pipeline);
            assert(part.fits(self.storage.contents().len()));
            match self.storage.schedule(&mut self.pipeline, id, Access::Sequential, part) {
                Ok(started) => {
                    assert(started == ());
                    assert(can_start(*self.storage, Access::Sequential, self.range.chunk(id as int)));
                },
                Err(e) => {
                    return Err(e);
                },
            }
            assert(self.range.chunk_count() <= u64::MAX);
            self.scheduled = id + 1;
            proof {
                let reads = S::in_flight(self.pipeline);
                assert forall|other: u64| self.delivered <= other < self.scheduled implies
                    #[trigger] reads.contains_key(other) || self.arrived@.contains_key(other) by {
                    if other != id {
                        assert(before.contains_key(other) || self.arrived@.contains_key(other));
                    }
                }
            }
        }
        Ok(())
    }

    /// The next part, or nothing behind the last one.
    pub(crate) fn next(&mut self) -> (r: Result<Option<Vec<u8>>, UniversalIoError>)
        requires
            old(self).inv(),
        ensures
            match r {
                Ok(part) => {
                    &&& final(self).inv()
                    &&& final(self).file() == old(self).file()
                    &&& final(self).source() == old(self).source()
                    &&& final(self).range() == old(self).range()
                    &&& part is Some <==> old(self).position() < old(self).range().chunk_count()
                    &&& part is None ==> final(self).position() == old(self).position()
                        && can_wait::<S>()
                    &&& part matches Some(data) ==> data@ == old(self).range().chunk(
                        old(self).position(),
                    ).of(old(self).file()) && final(self).position() == old(self).position() + 1
                },
                Err(e) => !S::infallible() && S::reports(e),
            },
    {
        broadcast use vstd::std_specs::hash::group_hash_axioms;

        loop
            invariant
                self.inv(),
                self.storage == old(self).storage,
                self.range == old(self).range,
                self.delivered == old(self).delivered,
            decreases sum(self.to_come()),
        {
            let ghost before = *self;
            if let Some(data) = self.arrived.remove(&self.delivered) {
                self.delivered = self.delivered + 1;
                return Ok(Some(data));
            }
            match self.fill() {
                Ok(_) => {},
                Err(e) => {
                    return Err(e);
                },
            }
            let ghost filled = *self;
            match S::wait(&mut self.pipeline) {
                Ok(Some((id, data))) => {
                    self.arrived.insert(id, data);
                    proof {
                        assert(before.to_come() =~= filled.to_come());
                        assert(filled.to_come()[id as int] == 1);
                        lemma_sum_update(filled.to_come(), id as int, 0);
                        assert(self.to_come() =~= filled.to_come().update(id as int, 0));
                        let reads = S::in_flight(filled.pipeline);
                        assert forall|other: u64| self.delivered <= other < self.scheduled implies
                            #[trigger] S::in_flight(self.pipeline).contains_key(other)
                            || self.arrived@.contains_key(other) by {
                            assert(reads.contains_key(other) || filled.arrived@.contains_key(other));
                        }
                    }
                },
                Ok(None) => {
                    proof {
                        let next = self.delivered;
                        assert(!S::in_flight(filled.pipeline).dom().contains(next));
                        assert(!filled.arrived@.contains_key(next));
                    }
                    return Ok(None);
                },
                Err(e) => {
                    return Err(e);
                },
            }
        }
    }
}

} // verus!

//! Visitors: what a map hands the things to that it reads.
//!
//! A visitor has a method that is called for each thing, and a history of these
//! calls, each with what it returned. A call that fails ends the visit. Anything
//! that can be called becomes a visitor in a [`Recorder`], which keeps the history.

use crate::entry::{PartialEntry, PartialEntryKind};
use crate::key::Key;
use crate::model::Answer;
use crate::universal_io::{UniversalIoError, UniversalRead};
use crate::value::Value;
use std::marker::PhantomData;
use vstd::prelude::*;

verus! {

/// What visits the keys of a map.
pub trait KeyVisitor<K: Key + ?Sized> {
    /// The error that ends a visit.
    type Error: From<UniversalIoError>;

    /// The calls so far, each with what it returned.
    spec fn calls(&self) -> Seq<(K::V, Result<(), Self::Error>)>;

    /// Visits a key.
    fn visit(&mut self, key: &K) -> (r: Result<(), Self::Error>)
        ensures
            final(self).calls() == old(self).calls().push((key@, r)),
    ;
}

/// What visits the values of some keys.
pub trait BatchVisitor<Meta, V> {
    /// The error that ends a visit.
    type Error: From<UniversalIoError>;

    /// The calls so far, each with what it returned.
    spec fn calls(&self) -> Seq<((Meta, Option<Seq<V>>), Result<(), Self::Error>)>;

    /// Visits the values of the key that came with `meta`, if the key is in the map.
    fn visit(&mut self, meta: Meta, values: Option<&[V]>) -> (r: Result<(), Self::Error>)
        ensures
            final(self).calls() == old(self).calls().push(
                (
                    (
                        meta,
                        match values {
                            Some(values) => Some(values@),
                            None => None,
                        },
                    ),
                    r,
                ),
            ),
    ;
}

/// What visits the entries of a map.
pub trait EntryVisitor<K: Key + ?Sized, V> {
    /// The error that ends a visit.
    type Error: From<UniversalIoError>;

    /// The calls so far, each with what it returned.
    spec fn calls(&self) -> Seq<((K::V, Seq<V>), Result<(), Self::Error>)>;

    /// Visits an entry.
    fn visit(&mut self, key: &K, values: &[V]) -> (r: Result<(), Self::Error>)
        ensures
            final(self).calls() == old(self).calls().push(((key@, values@), r)),
    ;
}

/// What can be called with a key.
pub trait KeyHandler<K: Key + ?Sized> {
    /// The error that ends a visit.
    type Error: From<UniversalIoError>;

    /// Takes a key.
    fn handle(&mut self, key: &K) -> Result<(), Self::Error>;
}

/// What can be called with the values of a key.
pub trait BatchHandler<Meta, V> {
    /// The error that ends a visit.
    type Error: From<UniversalIoError>;

    /// Takes the values of the key that came with `meta`, if the key is in the map.
    fn handle(&mut self, meta: Meta, values: Option<&[V]>) -> Result<(), Self::Error>;
}

/// What can be called with an entry.
pub trait EntryHandler<K: Key + ?Sized, V> {
    /// The error that ends a visit.
    type Error: From<UniversalIoError>;

    /// Takes an entry.
    fn handle(&mut self, key: &K, values: &[V]) -> Result<(), Self::Error>;
}

/// A visitor that calls a handler, and keeps the history of the calls.
pub struct Recorder<H, A, E> {
    handler: H,
    history: Ghost<Seq<(A, Result<(), E>)>>,
}

impl<H, A, E> Recorder<H, A, E> {
    /// The calls of the handler so far, each with what it returned.
    pub closed spec fn history(&self) -> Seq<(A, Result<(), E>)> {
        self.history@
    }

    /// The handler, as its calls have left it.
    pub closed spec fn handler(&self) -> H {
        self.handler
    }

    /// A visitor that calls `handler`.
    pub fn new(handler: H) -> (r: Self)
        ensures
            r.handler() == handler,
            r.history() == Seq::<(A, Result<(), E>)>::empty(),
    {
        Recorder { handler, history: Ghost(Seq::empty()) }
    }

    /// The handler, as its calls have left it.
    pub fn into_handler(self) -> (r: H)
        ensures
            r == self.handler(),
    {
        self.handler
    }
}

impl<K: Key + ?Sized, H: KeyHandler<K>> KeyVisitor<K> for Recorder<H, K::V, H::Error> {
    type Error = H::Error;

    open spec fn calls(&self) -> Seq<(K::V, Result<(), H::Error>)> {
        self.history()
    }

    fn visit(&mut self, key: &K) -> (r: Result<(), H::Error>)
        ensures
            exists|handler: &mut H|
                *handler == old(self).handler() && *final(handler) == final(self).handler()
                    && #[trigger] call_ensures(H::handle, (handler, key), r),
    {
        let r: Result<(), H::Error> = self.handler.handle(key);
        self.history = Ghost(self.history@.push((key@, r)));
        r
    }
}

impl<Meta, V, H: BatchHandler<Meta, V>> BatchVisitor<Meta, V> for Recorder<
    H,
    (Meta, Option<Seq<V>>),
    H::Error,
> {
    type Error = H::Error;

    open spec fn calls(&self) -> Seq<((Meta, Option<Seq<V>>), Result<(), H::Error>)> {
        self.history()
    }

    fn visit(&mut self, meta: Meta, values: Option<&[V]>) -> (r: Result<(), H::Error>)
        ensures
            exists|handler: &mut H|
                *handler == old(self).handler() && *final(handler) == final(self).handler()
                    && #[trigger] call_ensures(H::handle, (handler, meta, values), r),
    {
        let ghost arg = (
            meta,
            match values {
                Some(values) => Some(values@),
                None => None,
            },
        );
        let r: Result<(), H::Error> = self.handler.handle(meta, values);
        self.history = Ghost(self.history@.push((arg, r)));
        r
    }
}

impl<K: Key + ?Sized, V, H: EntryHandler<K, V>> EntryVisitor<K, V> for Recorder<
    H,
    (K::V, Seq<V>),
    H::Error,
> {
    type Error = H::Error;

    open spec fn calls(&self) -> Seq<((K::V, Seq<V>), Result<(), H::Error>)> {
        self.history()
    }

    fn visit(&mut self, key: &K, values: &[V]) -> (r: Result<(), H::Error>)
        ensures
            exists|handler: &mut H|
                *handler == old(self).handler() && *final(handler) == final(self).handler()
                    && #[trigger] call_ensures(H::handle, (handler, key, values), r),
    {
        let r: Result<(), H::Error> = self.handler.handle(key, values);
        self.history = Ghost(self.history@.push(((key@, values@), r)));
        r
    }
}

/// A list of keys, which grows by each key that is visited.
impl<K: Key + ?Sized> KeyVisitor<K> for Vec<K::Owned> {
    type Error = UniversalIoError;

    open spec fn calls(&self) -> Seq<(K::V, Result<(), UniversalIoError>)> {
        Seq::new(self@.len(), |i: int| (K::model(self@[i]), Ok(())))
    }

    fn visit(&mut self, key: &K) -> (r: Result<(), UniversalIoError>) {
        self.push(key.to_owned_key());
        Ok(())
    }
}

/// A list of results, which grows by the values of each key that is visited.
impl<Meta, V: Value> BatchVisitor<Meta, V> for Vec<(Meta, Option<Vec<V>>)> {
    type Error = UniversalIoError;

    open spec fn calls(&self) -> Seq<((Meta, Option<Seq<V>>), Result<(), UniversalIoError>)> {
        Seq::new(
            self@.len(),
            |i: int|
                (
                    (
                        self@[i].0,
                        match self@[i].1 {
                            Some(values) => Some(values@),
                            None => None,
                        },
                    ),
                    Ok(()),
                ),
        )
    }

    fn visit(&mut self, meta: Meta, values: Option<&[V]>) -> (r: Result<(), UniversalIoError>) {
        let copy: Option<Vec<V>> = match values {
            Some(values) => Some(vstd::slice::slice_to_vec(values)),
            None => None,
        };
        self.push((meta, copy));
        Ok(())
    }
}

/// A list of entries, which grows by each entry that is visited.
impl<K: Key + ?Sized, V: Value> EntryVisitor<K, V> for Vec<(K::Owned, Vec<V>)> {
    type Error = UniversalIoError;

    open spec fn calls(&self) -> Seq<((K::V, Seq<V>), Result<(), UniversalIoError>)> {
        Seq::new(self@.len(), |i: int| ((K::model(self@[i].0), self@[i].1@), Ok(())))
    }

    fn visit(&mut self, key: &K, values: &[V]) -> (r: Result<(), UniversalIoError>) {
        self.push((key.to_owned_key(), vstd::slice::slice_to_vec(values)));
        Ok(())
    }
}

/// A list holds what it was told, and nothing else: one item for each call, none of which
/// failed.
pub proof fn law_lists<Meta, K: Key + ?Sized, V: Value>(
    keys: Vec<K::Owned>,
    results: Vec<(Meta, Option<Vec<V>>)>,
    entries: Vec<(K::Owned, Vec<V>)>,
    i: int,
)
    ensures
        ({
            let calls = <Vec<K::Owned> as KeyVisitor<K>>::calls(&keys);
            &&& calls.len() == keys@.len()
            &&& 0 <= i < calls.len() ==> calls[i].0 == K::model(keys@[i]) && calls[i].1 is Ok
        }),
        ({
            let calls = <Vec<(Meta, Option<Vec<V>>)> as BatchVisitor<Meta, V>>::calls(&results);
            &&& calls.len() == results@.len()
            &&& 0 <= i < calls.len() ==> {
                let ((meta, values), r) = calls[i];
                &&& meta == results@[i].0
                &&& match (values, results@[i].1) {
                    (Some(values), Some(list)) => values == list@,
                    (None, None) => true,
                    _ => false,
                }
                &&& r is Ok
            }
        }),
        ({
            let calls = <Vec<(K::Owned, Vec<V>)> as EntryVisitor<K, V>>::calls(&entries);
            &&& calls.len() == entries@.len()
            &&& 0 <= i < calls.len() ==> {
                let ((key, values), r) = calls[i];
                &&& key == K::model(entries@[i].0)
                &&& values == entries@[i].1@
                &&& r is Ok
            }
        }),
{
}

/// What a recorder has on record are its calls.
pub proof fn law_recorder_calls<
    Meta,
    K: Key + ?Sized,
    V,
    H1: KeyHandler<K>,
    H2: BatchHandler<Meta, V>,
    H3: EntryHandler<K, V>,
>(
    keys: Recorder<H1, K::V, H1::Error>,
    batch: Recorder<H2, (Meta, Option<Seq<V>>), H2::Error>,
    entries: Recorder<H3, (K::V, Seq<V>), H3::Error>,
)
    ensures
        <Recorder<H1, K::V, H1::Error> as KeyVisitor<K>>::calls(&keys) == keys.history(),
        <Recorder<H2, (Meta, Option<Seq<V>>), H2::Error> as BatchVisitor<Meta, V>>::calls(&batch)
            == batch.history(),
        <Recorder<H3, (K::V, Seq<V>), H3::Error> as EntryVisitor<K, V>>::calls(&entries)
            == entries.history(),
{
}

/// A handler is called with the keys that its recorder says: a visit is one call of the
/// handler, with the key that is put on record and with its result.
pub proof fn law_recorder_keys<K: Key + ?Sized, H: KeyHandler<K>>()
    ensures
        forall|v: &mut Recorder<H, K::V, H::Error>, key: &K, r: Result<(), H::Error>| #[trigger]
            call_ensures(
                <Recorder<H, K::V, H::Error> as KeyVisitor<K>>::visit,
                (v, key),
                r,
            ) ==> {
                &&& (*final(v)).history() == (*v).history().push((key@, r))
                &&& exists|handler: &mut H|
                    *handler == (*v).handler() && *final(handler) == (*final(v)).handler()
                        && #[trigger] call_ensures(H::handle, (handler, key), r)
            },
{
}

/// A handler is called with the values that its recorder says: a visit is one call of the
/// handler, with what is put on record and with its result. It is told values iff
/// values are on record.
pub proof fn law_recorder_batch<Meta, V, H: BatchHandler<Meta, V>>()
    ensures
        forall|
            v: &mut Recorder<H, (Meta, Option<Seq<V>>), H::Error>,
            meta: Meta,
            values: Option<&[V]>,
            r: Result<(), H::Error>,
        | #[trigger]
            call_ensures(
                <Recorder<H, (Meta, Option<Seq<V>>), H::Error> as BatchVisitor<Meta, V>>::visit,
                (v, meta, values),
                r,
            ) ==> {
                &&& (*final(v)).history() == (*v).history().push(
                    (
                        (
                            meta,
                            match values {
                                Some(values) => Some(values@),
                                None => None,
                            },
                        ),
                        r,
                    ),
                )
                &&& exists|handler: &mut H|
                    *handler == (*v).handler() && *final(handler) == (*final(v)).handler()
                        && #[trigger] call_ensures(H::handle, (handler, meta, values), r)
            },
{
}

/// A handler is called with the entries that its recorder says: a visit is one call of the
/// handler, with the entry that is put on record and with its result.
pub proof fn law_recorder_entries<K: Key + ?Sized, V, H: EntryHandler<K, V>>()
    ensures
        forall|
            v: &mut Recorder<H, (K::V, Seq<V>), H::Error>,
            key: &K,
            values: &[V],
            r: Result<(), H::Error>,
        | #[trigger]
            call_ensures(
                <Recorder<H, (K::V, Seq<V>), H::Error> as EntryVisitor<K, V>>::visit,
                (v, key, values),
                r,
            ) ==> {
                &&& (*final(v)).history() == (*v).history().push(((key@, values@), r))
                &&& exists|handler: &mut H|
                    *handler == (*v).handler() && *final(handler) == (*final(v)).handler()
                        && #[trigger] call_ensures(H::handle, (handler, key, values), r)
            },
{
}

/// Whether `e` is what `From` makes of the error `io`.
pub open spec fn is_converted<E: From<UniversalIoError>>(io: UniversalIoError, e: E) -> bool {
    call_ensures(<E as From<UniversalIoError>>::from, (io,), e)
}

/// Whether `e` is what `From` makes of an error of a storage.
pub open spec fn is_storage_error<S: UniversalRead, E: From<UniversalIoError>>(e: E) -> bool {
    exists|io: UniversalIoError| S::reports(io) && #[trigger] is_converted(io, e)
}

/// What a visitor is told of an entry that was read, or not found.
pub open spec fn told<K: Key + ?Sized, V: Value>(
    kind: PartialEntryKind,
    entry: Option<PartialEntry<K, V>>,
) -> Answer<K::V, V> {
    match entry {
        None => Answer::Absent,
        Some(entry) => Answer::Found(entry.model().restrict(kind)),
    }
}

/// How the entries that were asked for reach what takes them.
pub trait Delivery<Meta, K: Key + ?Sized, V: Value> {
    /// What takes the entries.
    type Target;

    /// What the target is told of an entry.
    type Arg;

    /// The error that ends the delivery.
    type Error;

    /// Which fields of an entry the target is told.
    spec fn kind() -> PartialEntryKind;

    /// The calls of the target so far, each with what it returned.
    spec fn calls(target: Self::Target) -> Seq<(Self::Arg, Result<(), Self::Error>)>;

    /// Whether the target can be told an answer.
    spec fn accepts(answer: Answer<K::V, V>) -> bool;

    /// What the target is told of an answer.
    spec fn arg(meta: Meta, answer: Answer<K::V, V>) -> Self::Arg;

    /// Whether the error `io` of a storage ends the delivery with `e`.
    spec fn failure(io: UniversalIoError, e: Self::Error) -> bool;

    /// The error that the error of a storage ends the delivery with.
    fn fail(io: UniversalIoError) -> (e: Self::Error)
        ensures
            Self::failure(io, e),
    ;

    /// Tells the target of an entry, or that there is none.
    fn deliver(target: &mut Self::Target, meta: Meta, entry: Option<PartialEntry<K, V>>) -> (r: Result<
        (),
        Self::Error,
    >)
        requires
            entry matches Some(entry) ==> entry.model().satisfies(Self::kind()),
            Self::accepts(told(Self::kind(), entry)),
        ensures
            Self::calls(*final(target)) == Self::calls(*old(target)).push(
                (Self::arg(meta, told(Self::kind(), entry)), r),
            ),
    ;
}

/// Delivery of the keys to a [`KeyVisitor`].
pub struct ToKeys<F> {
    visitor: PhantomData<F>,
}

impl<K: Key + ?Sized, V: Value, F: KeyVisitor<K>> Delivery<(), K, V> for ToKeys<F> {
    type Target = F;

    type Arg = K::V;

    type Error = F::Error;

    open spec fn kind() -> PartialEntryKind {
        PartialEntryKind::KeyOnly
    }

    open spec fn calls(target: F) -> Seq<(K::V, Result<(), F::Error>)> {
        target.calls()
    }

    open spec fn accepts(answer: Answer<K::V, V>) -> bool {
        answer is Found
    }

    open spec fn arg(meta: (), answer: Answer<K::V, V>) -> K::V {
        answer->Found_0.key()->0
    }

    open spec fn failure(io: UniversalIoError, e: F::Error) -> bool {
        is_converted(io, e)
    }

    fn fail(io: UniversalIoError) -> (e: F::Error) {
        <F::Error as From<UniversalIoError>>::from(io)
    }

    fn deliver(target: &mut F, meta: (), entry: Option<PartialEntry<K, V>>) -> (r: Result<
        (),
        F::Error,
    >) {
        let entry: PartialEntry<K, V> = entry.unwrap();
        target.visit(entry.key().unwrap())
    }
}

/// Delivery of the values to a [`BatchVisitor`].
pub struct ToBatch<F> {
    visitor: PhantomData<F>,
}

/// The values in an answer.
pub open spec fn answer_values<M, V>(answer: Answer<M, V>) -> Option<Seq<V>> {
    match answer {
        Answer::Found(entry) => entry.values(),
        _ => None,
    }
}

/// The number of values in an answer.
pub open spec fn answer_values_len<M, V>(answer: Answer<M, V>) -> Option<nat> {
    match answer {
        Answer::Found(entry) => entry.values_len(),
        _ => None,
    }
}

impl<Meta, K: Key + ?Sized, V: Value, F: BatchVisitor<Meta, V>> Delivery<Meta, K, V> for ToBatch<
    F,
> {
    type Target = F;

    type Arg = (Meta, Option<Seq<V>>);

    type Error = F::Error;

    open spec fn kind() -> PartialEntryKind {
        PartialEntryKind::KeyAndValues
    }

    open spec fn calls(target: F) -> Seq<((Meta, Option<Seq<V>>), Result<(), F::Error>)> {
        target.calls()
    }

    open spec fn accepts(answer: Answer<K::V, V>) -> bool {
        true
    }

    open spec fn arg(meta: Meta, answer: Answer<K::V, V>) -> (Meta, Option<Seq<V>>) {
        (meta, answer_values(answer))
    }

    open spec fn failure(io: UniversalIoError, e: F::Error) -> bool {
        is_converted(io, e)
    }

    fn fail(io: UniversalIoError) -> (e: F::Error) {
        <F::Error as From<UniversalIoError>>::from(io)
    }

    fn deliver(target: &mut F, meta: Meta, entry: Option<PartialEntry<K, V>>) -> (r: Result<
        (),
        F::Error,
    >) {
        match entry {
            None => target.visit(meta, None),
            Some(entry) => {
                let values: Vec<V> = entry.values().unwrap();
                target.visit(meta, Some(values.as_slice()))
            },
        }
    }
}

/// Delivery of the values to a list of results.
pub struct ToValues;

impl<K: Key + ?Sized, V: Value> Delivery<(), K, V> for ToValues {
    type Target = Vec<Option<Vec<V>>>;

    type Arg = Option<Seq<V>>;

    type Error = UniversalIoError;

    open spec fn kind() -> PartialEntryKind {
        PartialEntryKind::KeyAndValues
    }

    open spec fn calls(target: Vec<Option<Vec<V>>>) -> Seq<
        (Option<Seq<V>>, Result<(), UniversalIoError>),
    > {
        Seq::new(
            target@.len(),
            |i: int|
                (
                    match target@[i] {
                        Some(values) => Some(values@),
                        None => None,
                    },
                    Ok(()),
                ),
        )
    }

    open spec fn accepts(answer: Answer<K::V, V>) -> bool {
        true
    }

    open spec fn arg(meta: (), answer: Answer<K::V, V>) -> Option<Seq<V>> {
        answer_values(answer)
    }

    open spec fn failure(io: UniversalIoError, e: UniversalIoError) -> bool {
        e == io
    }

    fn fail(io: UniversalIoError) -> (e: UniversalIoError) {
        io
    }

    fn deliver(target: &mut Vec<Option<Vec<V>>>, meta: (), entry: Option<PartialEntry<K, V>>) -> (r:
        Result<(), UniversalIoError>) {
        let result: Option<Vec<V>> = match entry {
            None => None,
            Some(entry) => entry.values(),
        };
        target.push(result);
        Ok(())
    }
}

/// Delivery of the numbers of values to a list of results.
pub struct ToCounts;

impl<K: Key + ?Sized, V: Value> Delivery<(), K, V> for ToCounts {
    type Target = Vec<Option<usize>>;

    type Arg = Option<nat>;

    type Error = UniversalIoError;

    open spec fn kind() -> PartialEntryKind {
        PartialEntryKind::KeyAndValuesLen
    }

    open spec fn calls(target: Vec<Option<usize>>) -> Seq<
        (Option<nat>, Result<(), UniversalIoError>),
    > {
        Seq::new(
            target@.len(),
            |i: int|
                (
                    match target@[i] {
                        Some(n) => Some(n as nat),
                        None => None,
                    },
                    Ok(()),
                ),
        )
    }

    open spec fn accepts(answer: Answer<K::V, V>) -> bool {
        true
    }

    open spec fn arg(meta: (), answer: Answer<K::V, V>) -> Option<nat> {
        answer_values_len(answer)
    }

    open spec fn failure(io: UniversalIoError, e: UniversalIoError) -> bool {
        e == io
    }

    fn fail(io: UniversalIoError) -> (e: UniversalIoError) {
        io
    }

    fn deliver(target: &mut Vec<Option<usize>>, meta: (), entry: Option<PartialEntry<K, V>>) -> (r:
        Result<(), UniversalIoError>) {
        let result: Option<usize> = match entry {
            None => None,
            Some(entry) => entry.values_len(),
        };
        target.push(result);
        Ok(())
    }
}

} // verus!

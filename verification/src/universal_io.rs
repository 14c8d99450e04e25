//! Storage that a map is read from.
//!
//! [`UniversalRead`] is what a map needs of a file: its length, reads of byte
//! ranges, and a pipeline of reads that may complete in any order. A storage has
//! a fixed content, [`UniversalRead::contents`], and every successful read
//! returns a part of it. [`MemoryFile`] is a storage over a vector.

use vstd::prelude::*;

verus! {

/// What went wrong, in the terms of an I/O library.
#[derive(Clone, Copy, Debug, PartialEq, Eq, Structural)]
pub enum ErrorKind {
    /// The data that was read makes no sense.
    InvalidData,
    /// The file ends before the range that was asked for.
    UnexpectedEof,
    /// There is no such file.
    NotFound,
    /// Anything else.
    Other,
}

/// An I/O error: its kind and a message for people.
#[derive(Debug)]
pub struct IoError {
    pub kind: ErrorKind,
    pub message: String,
}

/// The error of every operation on a storage or a map.
#[derive(Debug)]
pub enum UniversalIoError {
    Io(IoError),
}

/// Whether `e` reports bad data with the message `msg`.
pub open spec fn is_data_err(e: UniversalIoError, msg: Seq<char>) -> bool {
    e matches UniversalIoError::Io(io) && io.kind == ErrorKind::InvalidData && io.message@ == msg
}

/// The error that reports bad data with the message `msg`.
pub fn uio_data_err(msg: &str) -> (r: UniversalIoError)
    ensures
        is_data_err(r, msg@),
{
    UniversalIoError::Io(IoError { kind: ErrorKind::InvalidData, message: msg.to_owned() })
}

impl UniversalIoError {
    /// What went wrong.
    pub fn kind(&self) -> (r: ErrorKind)
        ensures
            self matches UniversalIoError::Io(io) && r == io.kind,
    {
        match self {
            UniversalIoError::Io(io) => io.kind,
        }
    }

    /// The message for people.
    pub fn message(&self) -> (r: &str)
        ensures
            self matches UniversalIoError::Io(io) && r@ == io.message@,
    {
        match self {
            UniversalIoError::Io(io) => io.message.as_str(),
        }
    }
}

/// Length of the parts that [`ReadRange::autochunk`] cuts a range into.
pub const AUTOCHUNK: u64 = 16384;

/// A range of bytes of a file.
#[derive(Clone, Copy, Debug, PartialEq, Eq, Structural)]
pub struct ReadRange {
    pub byte_offset: u64,
    pub length: u64,
}

impl ReadRange {
    /// Whether a file of `len` bytes holds the whole range.
    pub open spec fn fits(self, len: nat) -> bool {
        self.byte_offset + self.length <= len
    }

    /// The bytes of the range in a file with the contents `file`.
    pub open spec fn of(self, file: Seq<u8>) -> Seq<u8> {
        file.subrange(self.byte_offset as int, self.byte_offset + self.length)
    }

    /// The part of the range that lies in a file of `len` bytes.
    pub open spec fn clamped(self, len: u64) -> ReadRange {
        let start = if self.byte_offset <= len {
            self.byte_offset
        } else {
            len
        };
        let room = (len - start) as u64;
        ReadRange {
            byte_offset: start,
            length: if self.length <= room {
                self.length
            } else {
                room
            },
        }
    }

    /// The number of parts that [`ReadRange::autochunk`] cuts the range into.
    pub open spec fn chunk_count(self) -> int {
        (self.length + AUTOCHUNK - 1) / (AUTOCHUNK as int)
    }

    /// The `i`-th part of the range when it is cut into parts of `AUTOCHUNK` bytes.
    pub open spec fn chunk(self, i: int) -> ReadRange {
        let skipped = i * AUTOCHUNK;
        ReadRange {
            byte_offset: (self.byte_offset + skipped) as u64,
            length: if self.length - skipped <= AUTOCHUNK {
                (self.length - skipped) as u64
            } else {
                AUTOCHUNK
            },
        }
    }

    pub fn new(byte_offset: u64, length: u64) -> (r: ReadRange)
        ensures
            r.byte_offset == byte_offset,
            r.length == length,
    {
        ReadRange { byte_offset, length }
    }

    /// Cuts off what lies beyond the end of a file of `file_len` bytes.
    pub fn clamp(self, file_len: u64) -> (r: ReadRange)
        ensures
            r == self.clamped(file_len),
            r.fits(file_len as nat),
    {
        let start: u64 = if self.byte_offset <= file_len {
            self.byte_offset
        } else {
            file_len
        };
        let room: u64 = file_len - start;
        ReadRange {
            byte_offset: start,
            length: if self.length <= room {
                self.length
            } else {
                room
            },
        }
    }

    /// The part with number `i` of the range, or nothing if there is none.
    pub fn autochunk(&self, i: u64) -> (r: Option<ReadRange>)
        requires
            self.byte_offset + self.length <= u64::MAX,
        ensures
            r is Some <==> i < self.chunk_count(),
            r matches Some(part) ==> part == self.chunk(i as int) && part.length > 0,
    {
        match i.checked_mul(AUTOCHUNK) {
            Some(skipped) if skipped < self.length => {
                let left: u64 = self.length - skipped;
                Some(
                    ReadRange {
                        byte_offset: self.byte_offset + skipped,
                        length: if left <= AUTOCHUNK {
                            left
                        } else {
                            AUTOCHUNK
                        },
                    },
                )
            },
            _ => None,
        }
    }
}

/// How the reads of a storage are going to follow each other.
#[derive(Clone, Copy, Debug, PartialEq, Eq, Structural)]
pub enum Access {
    /// One after the other.
    Sequential,
    /// All over the file.
    Random,
}

/// A file that can be read.
///
/// The contents of a storage do not change while a map reads it. An
/// implementation outside this crate has to keep the contracts of the methods.
pub trait UniversalRead: Sized {
    /// What names a storage, such as a path.
    type Path;

    /// How a storage is to be opened.
    type Options;

    /// A set of reads in flight.
    type Pipeline;

    /// The bytes of the file.
    spec fn contents(&self) -> Seq<u8>;

    /// Whether every operation that stays inside the file succeeds.
    spec fn infallible() -> bool;

    /// Whether an operation of such a storage can fail with the error `e`.
    spec fn reports(e: UniversalIoError) -> bool;

    /// The reads in flight: for the tag of each, the bytes that it will deliver.
    spec fn in_flight(pipeline: Self::Pipeline) -> Map<u64, Seq<u8>>;

    /// Whether a pipeline takes one more read.
    spec fn has_room(pipeline: Self::Pipeline) -> bool;

    /// Opens a storage.
    fn open(path: Self::Path, options: Self::Options) -> (r: Result<Self, UniversalIoError>)
        ensures
            r matches Err(e) ==> Self::reports(e),
    ;

    /// The length of the file in bytes.
    fn len(&self) -> (r: Result<u64, UniversalIoError>)
        ensures
            r matches Ok(n) ==> n == self.contents().len(),
            r matches Err(e) ==> Self::reports(e),
            Self::infallible() ==> r is Ok,
    ;

    /// Reads a range, which fails unless the file holds all of it.
    fn read(&self, access: Access, range: ReadRange) -> (r: Result<Vec<u8>, UniversalIoError>)
        ensures
            r matches Ok(data) ==> range.fits(self.contents().len()) && data@ == range.of(
                self.contents(),
            ),
            r matches Err(e) ==> Self::reports(e),
            Self::infallible() && range.fits(self.contents().len()) ==> r is Ok,
    ;

    /// A pipeline with no reads in flight.
    fn new_pipeline() -> (r: Result<Self::Pipeline, UniversalIoError>)
        ensures
            r matches Ok(pipeline) ==> Self::in_flight(pipeline) == Map::<u64, Seq<u8>>::empty(),
            r matches Err(e) ==> Self::reports(e),
            Self::infallible() ==> r is Ok,
    ;

    /// Whether there is room for one more read, which is so when none is in flight.
    fn can_schedule(pipeline: &Self::Pipeline) -> (r: bool)
        ensures
            r == Self::has_room(*pipeline),
            Self::in_flight(*pipeline).dom().is_empty() ==> r,
    ;

    /// Starts a read of a range that lies in the file, where there is room for it.
    fn schedule(
        &self,
        pipeline: &mut Self::Pipeline,
        tag: u64,
        access: Access,
        range: ReadRange,
    ) -> (r: Result<(), UniversalIoError>)
        requires
            Self::has_room(*old(pipeline)),
            !Self::in_flight(*old(pipeline)).contains_key(tag),
            range.fits(self.contents().len()),
        ensures
            r is Ok ==> Self::in_flight(*final(pipeline)) == Self::in_flight(*old(pipeline)).insert(
                tag,
                range.of(self.contents()),
            ),
            r matches Err(e) ==> Self::reports(e),
            Self::infallible() ==> r is Ok,
    ;

    /// Waits for any of the reads in flight, and returns nothing if there is none.
    fn wait(pipeline: &mut Self::Pipeline) -> (r: Result<Option<(u64, Vec<u8>)>, UniversalIoError>)
        ensures
            match r {
                Ok(Some((tag, data))) => {
                    &&& Self::in_flight(*old(pipeline)).contains_key(tag)
                    &&& data@ == Self::in_flight(*old(pipeline))[tag]
                    &&& Self::in_flight(*final(pipeline)) == Self::in_flight(*old(pipeline)).remove(
                        tag,
                    )
                },
                Ok(None) => {
                    &&& Self::in_flight(*old(pipeline)).dom().is_empty()
                    &&& Self::in_flight(*final(pipeline)) == Self::in_flight(*old(pipeline))
                },
                Err(e) => Self::reports(e),
            },
            Self::infallible() ==> r is Ok,
    ;

    /// Brings the file into the cache in RAM.
    fn populate(&self) -> (r: Result<(), UniversalIoError>)
        ensures
            r matches Err(e) ==> Self::reports(e),
            Self::infallible() ==> r is Ok,
    ;

    /// Drops the file from the cache in RAM.
    fn clear_ram_cache(&self) -> (r: Result<(), UniversalIoError>)
        ensures
            r matches Err(e) ==> Self::reports(e),
            Self::infallible() ==> r is Ok,
    ;
}

/// Whether `e` is an error that a read of a range returns.
pub open spec fn is_read_error<S: UniversalRead>(
    storage: S,
    range: ReadRange,
    e: UniversalIoError,
) -> bool {
    call_ensures(S::read, (&storage, Access::Sequential, range), Err(e))
}

/// Whether a read of a range can succeed.
pub open spec fn can_read<S: UniversalRead>(storage: S, range: ReadRange) -> bool {
    exists|data: Vec<u8>|
        call_ensures(
            S::read,
            (&storage, Access::Sequential, range),
            Ok::<Vec<u8>, UniversalIoError>(data),
        )
}

/// Whether a storage can tell its length.
pub open spec fn has_len<S: UniversalRead>(storage: S) -> bool {
    exists|n: u64| call_ensures(S::len, (&storage,), Ok::<u64, UniversalIoError>(n))
}

/// Whether there can be a pipeline of reads.
pub open spec fn has_pipeline<S: UniversalRead>() -> bool {
    exists|pipeline: S::Pipeline|
        call_ensures(S::new_pipeline, (), Ok::<S::Pipeline, UniversalIoError>(pipeline))
}

/// Whether reads in flight can be had of a storage, for which its length is asked first.
pub open spec fn is_ready<S: UniversalRead>(storage: S) -> bool {
    has_len(storage) && has_pipeline::<S>()
}

/// Whether `e` is an error for which no reads in flight can be had of a storage.
pub open spec fn is_start_error<S: UniversalRead>(storage: S, e: UniversalIoError) -> bool {
    ||| call_ensures(S::len, (&storage,), Err(e))
    ||| has_len(storage) && call_ensures(S::new_pipeline, (), Err(e))
}

/// Whether a read of a range can be started.
pub open spec fn can_start<S: UniversalRead>(storage: S, access: Access, range: ReadRange) -> bool {
    exists|pipeline: &mut S::Pipeline, tag: u64|
        call_ensures(
            S::schedule,
            (&storage, pipeline, tag, access, range),
            Ok::<(), UniversalIoError>(()),
        )
}

/// Whether waiting for a read can succeed.
pub open spec fn can_wait<S: UniversalRead>() -> bool {
    exists|pipeline: &mut S::Pipeline, read: Option<(u64, Vec<u8>)>|
        call_ensures(
            S::wait,
            (pipeline,),
            Ok::<Option<(u64, Vec<u8>)>, UniversalIoError>(read),
        )
}

/// A storage over bytes in memory.
#[derive(Debug)]
pub struct MemoryFile {
    bytes: Vec<u8>,
}

/// How many reads a [`MemoryPipeline`] takes at a time.
pub const MEMORY_PIPELINE_DEPTH: usize = 16;

/// Reads of a [`MemoryFile`]. They complete in the reverse of the order in which they
/// were started, so that nobody comes to rely on that order.
pub struct MemoryPipeline {
    stack: Vec<(u64, Vec<u8>)>,
}

/// The map from tags to bytes that a stack of tagged reads stands for.
spec fn stack_map(stack: Seq<(u64, Vec<u8>)>) -> Map<u64, Seq<u8>>
    decreases stack.len(),
{
    if stack.len() == 0 {
        Map::empty()
    } else {
        stack_map(stack.drop_last()).insert(stack.last().0, stack.last().1@)
    }
}

/// Whether no read in a stack has the tag of one below it.
spec fn distinct_tags(stack: Seq<(u64, Vec<u8>)>) -> bool
    decreases stack.len(),
{
    stack.len() > 0 ==> {
        &&& !stack_map(stack.drop_last()).contains_key(stack.last().0)
        &&& distinct_tags(stack.drop_last())
    }
}

proof fn lemma_stack_map_len(stack: Seq<(u64, Vec<u8>)>)
    requires
        distinct_tags(stack),
    ensures
        stack_map(stack).dom().finite(),
        stack_map(stack).dom().len() == stack.len(),
    decreases stack.len(),
{
    if stack.len() > 0 {
        lemma_stack_map_len(stack.drop_last());
        assert(stack_map(stack).dom() =~= stack_map(stack.drop_last()).dom().insert(
            stack.last().0,
        ));
    } else {
        assert(stack_map(stack).dom() =~= Set::empty());
    }
}

impl MemoryPipeline {
    #[verifier::type_invariant]
    spec fn well_formed(self) -> bool {
        distinct_tags(self.stack@)
    }
}

impl MemoryFile {
    /// A storage with the contents `bytes`.
    pub fn new(bytes: Vec<u8>) -> (r: MemoryFile)
        ensures
            r.contents() == bytes@,
    {
        MemoryFile { bytes }
    }

    fn slice(&self, range: ReadRange) -> (r: Vec<u8>)
        requires
            range.fits(self.contents().len()),
        ensures
            r@ == range.of(self.contents()),
    {
        assert(self.bytes.len() == self.bytes@.len());
        let start: usize = range.byte_offset as usize;
        let end: usize = start + range.length as usize;
        vstd::slice::slice_to_vec(vstd::slice::slice_subrange(self.bytes.as_slice(), start, end))
    }
}

impl UniversalRead for MemoryFile {
    type Path = Vec<u8>;

    type Options = ();

    type Pipeline = MemoryPipeline;

    closed spec fn contents(&self) -> Seq<u8> {
        self.bytes@
    }

    open spec fn infallible() -> bool {
        true
    }

    open spec fn reports(e: UniversalIoError) -> bool {
        e matches UniversalIoError::Io(io) && io.kind == ErrorKind::UnexpectedEof && io.message@
            == "Range beyond the end of the file"@
    }

    closed spec fn in_flight(pipeline: MemoryPipeline) -> Map<u64, Seq<u8>> {
        stack_map(pipeline.stack@)
    }

    open spec fn has_room(pipeline: MemoryPipeline) -> bool {
        Self::in_flight(pipeline).dom().len() < MEMORY_PIPELINE_DEPTH
    }

    fn open(path: Vec<u8>, options: ()) -> (r: Result<Self, UniversalIoError>)
        ensures
            r matches Ok(file) && file.contents() == path@,
    {
        Ok(MemoryFile::new(path))
    }

    fn len(&self) -> (r: Result<u64, UniversalIoError>) {
        Ok(self.bytes.len() as u64)
    }

    fn read(&self, access: Access, range: ReadRange) -> (r: Result<Vec<u8>, UniversalIoError>) {
        let len: u64 = self.bytes.len() as u64;
        if range.byte_offset <= len && range.length <= len - range.byte_offset {
            Ok(self.slice(range))
        } else {
            Err(
                UniversalIoError::Io(
                    IoError {
                        kind: ErrorKind::UnexpectedEof,
                        message: "Range beyond the end of the file".to_owned(),
                    },
                ),
            )
        }
    }

    fn new_pipeline() -> (r: Result<MemoryPipeline, UniversalIoError>) {
        Ok(MemoryPipeline { stack: Vec::new() })
    }

    fn can_schedule(pipeline: &MemoryPipeline) -> (r: bool)
        ensures
            r == (Self::in_flight(*pipeline).dom().len() < MEMORY_PIPELINE_DEPTH),
    {
        proof {
            use_type_invariant(pipeline);
            lemma_stack_map_len(pipeline.stack@);
            if Self::in_flight(*pipeline).dom().is_empty() {
                assert(Self::in_flight(*pipeline).dom() =~= Set::empty());
            }
        }
        pipeline.stack.len() < MEMORY_PIPELINE_DEPTH
    }

    fn schedule(
        &self,
        pipeline: &mut MemoryPipeline,
        tag: u64,
        access: Access,
        range: ReadRange,
    ) -> (r: Result<(), UniversalIoError>) {
        proof {
            use_type_invariant(&*pipeline);
        }
        let data: Vec<u8> = self.slice(range);
        let mut stack: Vec<(u64, Vec<u8>)> = Vec::new();
        core::mem::swap(&mut stack, &mut pipeline.stack);
        assert(stack@.push((tag, data)).drop_last() =~= stack@);
        stack.push((tag, data));
        pipeline.stack = stack;
        Ok(())
    }

    fn wait(pipeline: &mut MemoryPipeline) -> (r: Result<
        Option<(u64, Vec<u8>)>,
        UniversalIoError,
    >) {
        proof {
            use_type_invariant(&*pipeline);
        }
        let mut stack: Vec<(u64, Vec<u8>)> = Vec::new();
        core::mem::swap(&mut stack, &mut pipeline.stack);
        let ghost before = stack@;
        let last: Option<(u64, Vec<u8>)> = stack.pop();
        proof {
            if before.len() > 0 {
                assert(stack@ =~= before.drop_last());
                assert(stack_map(stack@) =~= stack_map(before).remove(before.last().0));
            }
        }
        pipeline.stack = stack;
        Ok(last)
    }

    fn populate(&self) -> (r: Result<(), UniversalIoError>) {
        Ok(())
    }

    fn clear_ram_cache(&self) -> (r: Result<(), UniversalIoError>) {
        Ok(())
    }
}

/// Bad data is reported as such, with the message that was given.
pub proof fn law_data_err(msg: &str, r: UniversalIoError)
    requires
        call_ensures(uio_data_err, (msg,), r),
    ensures
        r matches UniversalIoError::Io(io) && io.kind == ErrorKind::InvalidData && io.message@
            == msg@,
{
}

/// What lies beyond the end of a file is cut off a range, and nothing else.
pub proof fn law_clamp(range: ReadRange, len: u64, r: ReadRange)
    requires
        call_ensures(ReadRange::clamp, (range, len), r),
    ensures
        range.byte_offset + range.length <= len ==> r == range,
        range.byte_offset <= len < range.byte_offset + range.length ==> r.byte_offset
            == range.byte_offset && r.byte_offset + r.length == len,
        range.byte_offset > len ==> r.byte_offset == len && r.length == 0,
{
}

/// A range is cut into parts of 16384 bytes, one behind the other, of which the last holds
/// what is left.
pub proof fn law_autochunk(range: ReadRange, i: u64, r: Option<ReadRange>)
    requires
        range.byte_offset + range.length <= u64::MAX,
        call_ensures(ReadRange::autochunk, (&range, i), r),
    ensures
        match r {
            Some(part) => {
                &&& part.byte_offset == range.byte_offset + i * 16384
                &&& 0 < part.length <= 16384
                &&& part.byte_offset + part.length <= range.byte_offset + range.length
                &&& part.length < 16384 ==> part.byte_offset + part.length == range.byte_offset
                    + range.length
            },
            None => i * 16384 >= range.length,
        },
{
}

/// A read from memory gives the bytes of the range, if the file holds all of them, and an
/// error if it does not.
pub proof fn law_memory_read(
    file: MemoryFile,
    access: Access,
    range: ReadRange,
    r: Result<Vec<u8>, UniversalIoError>,
)
    requires
        call_ensures(<MemoryFile as UniversalRead>::read, (&file, access, range), r),
    ensures
        range.byte_offset + range.length <= file.contents().len() ==> (r matches Ok(data)
            && data@.len() == range.length && forall|j: int|
            0 <= j < data@.len() ==> #[trigger] data@[j] == file.contents()[range.byte_offset + j]),
        range.byte_offset + range.length > file.contents().len() ==> r is Err,
{
}

/// A file in memory is opened with the bytes that it is given, and has their length.
pub proof fn law_memory_file(
    bytes: Vec<u8>,
    r: Result<MemoryFile, UniversalIoError>,
    len: Result<u64, UniversalIoError>,
)
    requires
        call_ensures(<MemoryFile as UniversalRead>::open, (bytes, ()), r),
        r matches Ok(file) ==> call_ensures(<MemoryFile as UniversalRead>::len, (&file,), len),
    ensures
        r matches Ok(file) && file.contents() == bytes@,
        len matches Ok(n) && n == bytes@.len(),
        MemoryFile::infallible(),
{
}

} // verus!

//! Output generations: a format, its buffers and their synchronous IO,
//! bound to mapped memory none of whose writable ranges alias another.

use vstd::prelude::*;
use vstd::slice::{slice_subrange, slice_to_vec};

use crate::config::{
    format_wf, BufferDescriptor, BufferSetDescriptor, MemoryId, MetaDescriptor, NegotiatedAudioFormat,
    PortIoDescriptor,
};
use crate::cycle::{OutputBufferPublisher, OutputCycle, PublishedOutput};
use crate::error::SessionError;
use crate::memory::{MappedRange, MemoryInterval, MemoryKey, MemoryMapping, MemoryResolver, RecordWrite};
use crate::port::{checked_record_spec, io_state_of, BuffersIoState, BuffersIoView, OutputBuffer};
use crate::port_abi as abi;
use crate::wire::PortIoType;

verus! {

/// Application callback failure.
#[derive(Clone, Debug, PartialEq, Eq)]
pub struct ProcessError {
    /// Diagnostic message kept by the session error.
    pub message: String,
}

/// Output callback, invoked only after an activation claim: it fills and
/// commits the selected cycle.
pub trait OutputProcess {
    fn process(&mut self, cycle: OutputCycle, output: &mut OutputBufferPublisher) -> (r: Result<
        PublishedOutput,
        ProcessError,
    >)
        requires
            old(output).cycle_ok(cycle),
        ensures
            final(output).wf(),
            final(output).buffer_list().len() == old(output).buffer_list().len(),
    ;
}

/// The mappings of one output buffer.
#[derive(Clone, Copy, Debug, PartialEq, Eq, Structural)]
pub struct BoundBuffer {
    /// Metadata region, which holds the chunk record.
    pub metadata: MemoryMapping,
    /// Offset of the chunk record in the metadata region.
    pub chunk_offset: usize,
    /// Media plane.
    pub media: MemoryMapping,
}

/// Fully bound output format, buffers and synchronous IO. The records live
/// in memory shared with the server: each cycle reads fresh images of
/// them and, when the callback committed, stores back what it published.
pub struct OutputGeneration {
    id: u64,
    format: NegotiatedAudioFormat,
    io: MemoryMapping,
    buffers: Vec<BoundBuffer>,
}

/// What one output step read of the shared records and stored back.
#[derive(Clone, Debug)]
pub struct OutputStep {
    /// The image of the IO record that selected the cycle.
    pub io_image: Vec<u8>,
    /// The stores of a committed cycle, in order: the chunk record into the
    /// selected buffer's metadata, its media plane, and the IO record.
    pub stores: Vec<RecordWrite>,
}

/// `s` stores what a committed cycle of buffer `id` of `o` publishes: the
/// chunk record at the chunk's offset of the buffer's metadata, the media
/// plane from its start, and an IO record reporting HAVE_DATA for `id`.
pub open spec fn committed_stores(o: OutputGeneration, id: u32, s: Seq<RecordWrite>) -> bool {
    let b = o.spec_buffers()[id as int];
    &&& s.len() == 3
    &&& s[0].offset == b.chunk_offset
    &&& s[0].bytes@.len() == abi::CHUNK_SIZE
    &&& s[1].offset == 0
    &&& s[1].bytes@.len() <= b.media.range.len
    &&& s[2].offset == 0
    &&& s[2].bytes@.len() == abi::IO_BUFFERS_SIZE
    &&& io_state_of(s[2].bytes@) == (BuffersIoState { status: 2, buffer_id: id })
}

/// `s` is what a processed cycle of `o` read and stored: an IO image that
/// requests a buffer and the stores of its committed cycle when the cycle
/// produced output, else an image that requests none and no stores.
pub open spec fn output_published(o: OutputGeneration, s: OutputStep, produced: bool) -> bool {
    &&& s.io_image@.len() == abi::IO_BUFFERS_SIZE
    &&& produced ==> (requested_buffer(s.io_image@) matches Some(id) && committed_stores(o, id, s.stores@))
    &&& !produced ==> requested_buffer(s.io_image@) is None && s.stores@.len() == 0
}

/// No two intervals of `s` overlap.
pub open spec fn pairwise_disjoint(s: Seq<MemoryInterval>) -> bool {
    forall|i: int, j: int| 0 <= i < j < s.len() ==> !(#[trigger] s[i]).spec_overlaps(#[trigger] s[j])
}

/// The metadata and media intervals of each buffer, in buffer order.
pub open spec fn buffer_intervals(bs: Seq<BoundBuffer>) -> Seq<MemoryInterval>
    decreases bs.len(),
{
    if bs.len() == 0 {
        Seq::empty()
    } else {
        buffer_intervals(bs.drop_last()) + seq![
            bs.last().metadata.range.spec_interval(),
            bs.last().media.range.spec_interval(),
        ]
    }
}

/// The interval `len` bytes at `offset` of memory `id` cover, in the
/// backing object of the generation the id resolves to.
pub open spec fn region_interval<R: MemoryResolver>(
    memory: &R,
    id: MemoryId,
    offset: usize,
    len: usize,
) -> MemoryInterval {
    MemoryInterval {
        backing: memory.spec_backing(memory.spec_resolve(id)->Ok_0),
        start: offset,
        end: (offset + len) as usize,
    }
}

/// The metadata and media intervals the descriptors name, in order.
pub open spec fn descriptor_intervals<R: MemoryResolver>(memory: &R, ds: Seq<BufferDescriptor>) -> Seq<
    MemoryInterval,
>
    decreases ds.len(),
{
    if ds.len() == 0 {
        Seq::empty()
    } else {
        descriptor_intervals(memory, ds.drop_last()) + seq![
            region_interval(memory, ds.last().metadata.memory, ds.last().metadata.offset, ds.last().metadata.len),
            region_interval(memory, ds.last().media_memory, ds.last().map_offset, ds.last().max_size),
        ]
    }
}

/// The writable intervals a candidate names: the IO record, then each
/// buffer's metadata and media.
pub open spec fn candidate_intervals<R: MemoryResolver>(
    memory: &R,
    buffers: Seq<BufferDescriptor>,
    io: PortIoDescriptor,
) -> Seq<MemoryInterval> {
    seq![region_interval(memory, io.region.memory, io.region.offset, io.region.len)]
        + descriptor_intervals(memory, buffers)
}

/// A candidate that passes every check of its own: at least one buffer, a
/// consistent format, an IO region of the Buffers record's size, each
/// descriptor laid out within its regions, and every memory id resolving.
pub open spec fn candidate_ok<R: MemoryResolver>(
    memory: &R,
    format: NegotiatedAudioFormat,
    buffers: Seq<BufferDescriptor>,
    io: PortIoDescriptor,
) -> bool {
    &&& buffers.len() > 0
    &&& format_wf(format)
    &&& io.region.len == abi::IO_BUFFERS_SIZE
    &&& memory.spec_resolve(io.region.memory) is Ok
    &&& forall|k: int|
        0 <= k < buffers.len() ==> descriptor_ok(#[trigger] buffers[k]) && memory.spec_resolve(
            buffers[k].metadata.memory,
        ) is Ok && memory.spec_resolve(buffers[k].media_memory) is Ok
}

proof fn lemma_descriptor_intervals_prefix<R: MemoryResolver>(memory: &R, ds: Seq<BufferDescriptor>, j: int)
    requires
        0 <= j <= ds.len(),
    ensures
        descriptor_intervals(memory, ds).len() == 2 * ds.len(),
        descriptor_intervals(memory, ds.take(j)) == descriptor_intervals(memory, ds).take(2 * j),
    decreases ds.len(),
{
    if ds.len() == 0 {
        assert(ds.take(j) =~= ds);
    } else if j == ds.len() {
        lemma_descriptor_intervals_prefix(memory, ds.drop_last(), 0);
        assert(ds.take(j) =~= ds);
        assert(descriptor_intervals(memory, ds).take(2 * j) =~= descriptor_intervals(memory, ds));
    } else {
        lemma_descriptor_intervals_prefix(memory, ds.drop_last(), j);
        assert(ds.drop_last().take(j) =~= ds.take(j));
        assert(descriptor_intervals(memory, ds).take(2 * j) =~= descriptor_intervals(
            memory,
            ds.drop_last(),
        ).take(2 * j));
    }
}

proof fn lemma_disjoint_prefix(s: Seq<MemoryInterval>, m: int)
    requires
        0 <= m <= s.len(),
        pairwise_disjoint(s),
    ensures
        pairwise_disjoint(s.take(m)),
{
    assert forall|i: int, j: int| 0 <= i < j < s.take(m).len() implies !(#[trigger] s.take(m)[i]).spec_overlaps(
        #[trigger] s.take(m)[j],
    ) by {
        assert(s.take(m)[i] == s[i]);
        assert(s.take(m)[j] == s[j]);
    }
}

pub open spec fn range_fits(r: MappedRange) -> bool {
    r.offset + r.len <= usize::MAX
}

/// A buffer's mappings fit the address space and hold its chunk record.
pub open spec fn buffer_ok(b: BoundBuffer) -> bool {
    &&& range_fits(b.metadata.range)
    &&& range_fits(b.media.range)
    &&& b.chunk_offset + abi::CHUNK_SIZE <= b.metadata.range.len
    &&& b.metadata.address + b.metadata.range.len <= usize::MAX
}

/// Whether an image `io` of the IO record, of `count` buffers, asks for no
/// cycle (`None`), or for the cycle of the buffer it names.
pub open spec fn requested_buffer(io: Seq<u8>) -> Option<u32> {
    if io_state_of(io).status == 1 {
        Some(io_state_of(io).buffer_id)
    } else {
        None
    }
}

/// Where the chunk record follows the metadata payloads, each padded to 8
/// bytes; `None` on overflow.
pub open spec fn meta_layout(metas: Seq<MetaDescriptor>) -> Option<int>
    decreases metas.len(),
{
    if metas.len() == 0 {
        Some(0)
    } else {
        match meta_layout(metas.drop_last()) {
            None => None,
            Some(o) => {
                let end = o + metas.last().size;
                if end + 7 > usize::MAX {
                    None
                } else {
                    Some((end + 7) / 8 * 8)
                }
            },
        }
    }
}

fn metadata_layout(metas: &Vec<MetaDescriptor>) -> (r: Option<usize>)
    ensures
        match r {
            Some(o) => meta_layout(metas@) == Some(o as int),
            None => meta_layout(metas@) is None,
        },
{
    let mut offset: usize = 0;
    let mut i: usize = 0;
    let n = metas.len();
    while i < n
        invariant
            n == metas@.len(),
            i <= n,
            meta_layout(metas@.take(i as int)) == Some(offset as int),
        decreases n - i,
    {
        assert(metas@.take(i + 1).drop_last() =~= metas@.take(i as int));
        let size = metas[i].size;
        if offset > usize::MAX - size || offset + size > usize::MAX - 7 {
            proof {
                lemma_layout_none(metas@, (i + 1) as int);
            }
            return None;
        }
        offset = (offset + size + 7) / 8 * 8;
        i = i + 1;
    }
    assert(metas@.take(n as int) =~= metas@);
    Some(offset)
}

proof fn lemma_layout_none(metas: Seq<MetaDescriptor>, k: int)
    requires
        0 <= k <= metas.len(),
        meta_layout(metas.take(k)) is None,
    ensures
        meta_layout(metas) is None,
    decreases metas.len() - k,
{
    if k < metas.len() {
        assert(metas.take(k + 1).drop_last() =~= metas.take(k));
        lemma_layout_none(metas, k + 1);
    } else {
        assert(metas.take(k) =~= metas);
    }
}

/// What a buffer descriptor must satisfy on its own: its metadata layout
/// fits, the chunk record lies inside the metadata region, and the media
/// plane is non-empty and addressable.
pub open spec fn descriptor_ok(d: crate::config::BufferDescriptor) -> bool {
    &&& meta_layout(d.metas@) is Some
    &&& meta_layout(d.metas@)->Some_0 + abi::CHUNK_SIZE <= d.metadata.len
    &&& d.max_size > 0
    &&& d.map_offset + d.max_size <= usize::MAX
}

/// `b` maps writable exactly the regions descriptor `d` names.
pub open spec fn bound_as(b: BoundBuffer, d: crate::config::BufferDescriptor) -> bool {
    &&& b.metadata.range.key.id == d.metadata.memory
    &&& b.metadata.range.offset == d.metadata.offset
    &&& b.metadata.range.len == d.metadata.len
    &&& b.metadata.range.writable
    &&& b.media.range.key.id == d.media_memory
    &&& b.media.range.offset == d.map_offset
    &&& b.media.range.len == d.max_size
    &&& b.media.range.writable
    &&& meta_layout(d.metas@) == Some(b.chunk_offset as int)
}

/// Fails when two intervals overlap.
fn reject_overlaps(intervals: &Vec<MemoryInterval>) -> (r: Result<(), SessionError>)
    ensures
        r is Ok <==> pairwise_disjoint(intervals@),
        r is Err ==> r == Err::<(), SessionError>(
            SessionError::InvalidTransition("overlapping writable memory regions"),
        ),
{
    let n = intervals.len();
    let mut i: usize = 0;
    while i < n
        invariant
            n == intervals@.len(),
            i <= n,
            forall|a: int, b: int|
                0 <= a < i && a < b < n ==> !(#[trigger] intervals@[a]).spec_overlaps(
                    #[trigger] intervals@[b],
                ),
        decreases n - i,
    {
        let mut j: usize = i + 1;
        while j < n
            invariant
                n == intervals@.len(),
                i < n,
                i + 1 <= j <= n,
                forall|a: int, b: int|
                    0 <= a < i && a < b < n ==> !(#[trigger] intervals@[a]).spec_overlaps(
                        #[trigger] intervals@[b],
                    ),
                forall|b: int| i < b < j ==> !intervals@[i as int].spec_overlaps(#[trigger] intervals@[b]),
            decreases n - j,
        {
            if intervals[i].overlaps(intervals[j]) {
                return Err(SessionError::InvalidTransition("overlapping writable memory regions"));
            }
            j = j + 1;
        }
        i = i + 1;
    }
    Ok(())
}

impl OutputGeneration {
    pub closed spec fn spec_id(&self) -> u64 {
        self.id
    }

    pub closed spec fn spec_format(&self) -> NegotiatedAudioFormat {
        self.format
    }

    pub closed spec fn spec_io(&self) -> MappedRange {
        self.io.range
    }

    /// Address the IO record is mapped at.
    pub closed spec fn spec_io_address(&self) -> usize {
        self.io.address
    }

    pub closed spec fn spec_buffers(&self) -> Seq<BoundBuffer> {
        self.buffers@
    }

    /// The IO interval, then each buffer's metadata and media intervals.
    pub open spec fn spec_intervals(&self) -> Seq<MemoryInterval> {
        seq![self.spec_io().spec_interval()] + buffer_intervals(self.spec_buffers())
    }

    /// Whether the generation maps a range of memory generation `key`.
    pub open spec fn spec_depends_on(&self, key: MemoryKey) -> bool {
        ||| self.spec_io().key == key
        ||| exists|k: int|
            0 <= k < self.spec_buffers().len() && ((#[trigger] self.spec_buffers()[k]).metadata.range.key
                == key || self.spec_buffers()[k].media.range.key == key)
    }

    pub open spec fn wf(&self) -> bool {
        &&& format_wf(self.spec_format())
        &&& range_fits(self.spec_io())
        &&& self.spec_io().len == abi::IO_BUFFERS_SIZE
        &&& checked_record_spec(
            self.spec_io_address(),
            abi::IO_BUFFERS_SIZE,
            abi::IO_BUFFERS_SIZE,
            abi::IO_BUFFERS_ALIGN,
            "spa_io_buffers",
        ) is Ok
        &&& forall|k: int| 0 <= k < self.spec_buffers().len() ==> buffer_ok(#[trigger] self.spec_buffers()[k])
        &&& pairwise_disjoint(self.spec_intervals())
    }

    /// Binds a complete candidate: at least one buffer, an 8-byte Buffers
    /// IO record, a chunk record inside each metadata region, a non-empty
    /// media plane, and no two writable ranges aliasing one another, which
    /// is judged by backing object, whatever ids name the ranges. A
    /// candidate that passes its own checks is refused only for a mapping
    /// or record the resolver does not provide, or for aliasing.
    pub fn bind<R: MemoryResolver>(
        id: u64,
        format: NegotiatedAudioFormat,
        buffers: &BufferSetDescriptor,
        io: PortIoDescriptor,
        memory: &R,
    ) -> (r: Result<Self, SessionError>)
        ensures
            buffers.buffers@.len() == 0 ==> r == Err::<Self, SessionError>(
                SessionError::NotReady("empty output buffer set"),
            ),
            buffers.buffers@.len() > 0 && !format_wf(format) ==> r == Err::<Self, SessionError>(
                SessionError::InvalidFormat("inconsistent format"),
            ),
            r == Err::<Self, SessionError>(SessionError::NotReady("empty output buffer set"))
                ==> buffers.buffers@.len() == 0,
            r == Err::<Self, SessionError>(SessionError::InvalidFormat("inconsistent format"))
                ==> !format_wf(format),
            r matches Err(SessionError::InvalidTransition(m)) ==> m == "overlapping writable memory regions",
            pairwise_disjoint(candidate_intervals(memory, buffers.buffers@, io)) ==> r != Err::<
                Self,
                SessionError,
            >(SessionError::InvalidTransition("overlapping writable memory regions")),
            candidate_ok(memory, format, buffers.buffers@, io) && r is Err ==> {
                ||| r matches Err(SessionError::Memory(_))
                ||| r matches Err(SessionError::Port(_))
                ||| r == Err::<Self, SessionError>(
                    SessionError::InvalidTransition("overlapping writable memory regions"),
                )
            },
            r is Ok ==> pairwise_disjoint(candidate_intervals(memory, buffers.buffers@, io)),
            r == Err::<Self, SessionError>(SessionError::NotReady("invalid Buffers IO size"))
                ==> io.region.len != abi::IO_BUFFERS_SIZE,
            buffers.buffers@.len() > 0 && format_wf(format) && io.region.len != abi::IO_BUFFERS_SIZE ==> {
                ||| r matches Err(SessionError::Memory(_))
                ||| r matches Err(SessionError::Port(_))
                ||| r == Err::<Self, SessionError>(SessionError::NotReady("invalid Buffers IO size"))
            },
            r matches Err(SessionError::Overflow(_)) || r == Err::<Self, SessionError>(
                SessionError::NotReady("metadata region does not contain chunk"),
            ) || r == Err::<Self, SessionError>(SessionError::NotReady("zero media capacity"))
                ==> exists|k: int|
                0 <= k < buffers.buffers@.len() && !descriptor_ok(#[trigger] buffers.buffers@[k]),
            r matches Ok(o) ==> {
                &&& io.region.len == abi::IO_BUFFERS_SIZE
                &&& o.spec_io().offset == io.region.offset
                &&& o.spec_io().len == io.region.len
                &&& o.spec_io().writable
                &&& forall|k: int|
                    0 <= k < o.spec_buffers().len() ==> descriptor_ok(buffers.buffers@[k]) && bound_as(
                        #[trigger] o.spec_buffers()[k],
                        buffers.buffers@[k],
                    )
            },
            r matches Ok(o) ==> {
                &&& o.wf()
                &&& o.spec_id() == id
                &&& o.spec_format() == format
                &&& o.spec_buffers().len() == buffers.buffers@.len()
                &&& o.spec_io().key.id == io.region.memory
                &&& forall|k: int|
                    0 <= k < o.spec_buffers().len() ==> (#[trigger] o.spec_buffers()[k]).metadata.range.key.id
                        == buffers.buffers@[k].metadata.memory && o.spec_buffers()[k].media.range.key.id
                        == buffers.buffers@[k].media_memory
            },
    {
        if buffers.buffers.len() == 0 {
            return Err(SessionError::NotReady("empty output buffer set"));
        }
        if !format.is_consistent() {
            return Err(SessionError::InvalidFormat("inconsistent format"));
        }
        let io_key = match memory.resolve(io.region.memory) {
            Ok(k) => k,
            Err(e) => {
                return Err(SessionError::Memory(e));
            },
        };
        let io_mapping = match memory.map(io_key, io.region.offset, io.region.len, true) {
            Ok(m) => m,
            Err(e) => {
                return Err(SessionError::Memory(e));
            },
        };
        let io_image = memory.read(&io_mapping);
        match BuffersIoView::from_raw_parts(PortIoType::Buffers, io_mapping.address, io_image) {
            Ok(_) => {},
            Err(e) => {
                return Err(SessionError::Port(e));
            },
        }
        if io.region.len != abi::IO_BUFFERS_SIZE {
            return Err(SessionError::NotReady("invalid Buffers IO size"));
        }
        let mut intervals: Vec<MemoryInterval> = Vec::new();
        intervals.push(io_mapping.interval());
        let mut bound: Vec<BoundBuffer> = Vec::new();
        let n = buffers.buffers.len();
        let mut i: usize = 0;
        while i < n
            invariant
                n == buffers.buffers@.len(),
                n > 0,
                i <= n,
                bound@.len() == i,
                format_wf(format),
                range_fits(io_mapping.range),
                io_mapping.range.len == abi::IO_BUFFERS_SIZE,
                checked_record_spec(
                    io_mapping.address,
                    abi::IO_BUFFERS_SIZE,
                    abi::IO_BUFFERS_SIZE,
                    abi::IO_BUFFERS_ALIGN,
                    "spa_io_buffers",
                ) is Ok,
                io_mapping.range.key.id == io.region.memory,
                intervals@ == seq![io_mapping.range.spec_interval()] + buffer_intervals(bound@),
                io_mapping.range.spec_interval() == region_interval(
                    memory,
                    io.region.memory,
                    io.region.offset,
                    io.region.len,
                ),
                buffer_intervals(bound@) == descriptor_intervals(memory, buffers.buffers@.take(i as int)),
                i > 0 ==> pairwise_disjoint(intervals@),
                forall|k: int| 0 <= k < i ==> buffer_ok(#[trigger] bound@[k]),
                forall|k: int|
                    0 <= k < i ==> (#[trigger] bound@[k]).metadata.range.key.id
                        == buffers.buffers@[k].metadata.memory && bound@[k].media.range.key.id
                        == buffers.buffers@[k].media_memory,
                forall|k: int| 0 <= k < i ==> descriptor_ok(#[trigger] buffers.buffers@[k]),
                forall|k: int| 0 <= k < i ==> bound_as(#[trigger] bound@[k], buffers.buffers@[k]),
                io.region.len == abi::IO_BUFFERS_SIZE,
                io_mapping.range.offset == io.region.offset,
                io_mapping.range.len == io.region.len,
                io_mapping.range.writable,
            decreases n - i,
        {
            let descriptor = &buffers.buffers[i];
            let chunk_offset = match metadata_layout(&descriptor.metas) {
                Some(o) => o,
                None => {
                    proof {
                        assert(!descriptor_ok(buffers.buffers@[i as int]));
                    }
                    return Err(SessionError::Overflow("metadata layout"));
                },
            };
            if chunk_offset > usize::MAX - abi::CHUNK_SIZE {
                proof {
                    assert(!descriptor_ok(buffers.buffers@[i as int]));
                }
                return Err(SessionError::Overflow("chunk layout"));
            }
            let chunk_end = chunk_offset + abi::CHUNK_SIZE;
            if chunk_end > descriptor.metadata.len {
                proof {
                    assert(!descriptor_ok(buffers.buffers@[i as int]));
                }
                return Err(SessionError::NotReady("metadata region does not contain chunk"));
            }
            if descriptor.max_size == 0 {
                proof {
                    assert(!descriptor_ok(buffers.buffers@[i as int]));
                }
                return Err(SessionError::NotReady("zero media capacity"));
            }
            if descriptor.map_offset > usize::MAX - descriptor.max_size {
                proof {
                    assert(!descriptor_ok(buffers.buffers@[i as int]));
                }
                return Err(SessionError::Overflow("media plane"));
            }
            let metadata_key = match memory.resolve(descriptor.metadata.memory) {
                Ok(k) => k,
                Err(e) => {
                    return Err(SessionError::Memory(e));
                },
            };
            let media_key = match memory.resolve(descriptor.media_memory) {
                Ok(k) => k,
                Err(e) => {
                    return Err(SessionError::Memory(e));
                },
            };
            let metadata = match memory.map(
                metadata_key,
                descriptor.metadata.offset,
                descriptor.metadata.len,
                true,
            ) {
                Ok(m) => m,
                Err(e) => {
                    return Err(SessionError::Memory(e));
                },
            };
            let media = match memory.map(
                media_key,
                descriptor.map_offset,
                descriptor.max_size,
                true,
            ) {
                Ok(m) => m,
                Err(e) => {
                    return Err(SessionError::Memory(e));
                },
            };
            let ghost before = bound@;
            let buffer = BoundBuffer { metadata, chunk_offset, media };
            intervals.push(metadata.interval());
            intervals.push(media.interval());
            proof {
                assert((before.push(buffer)).drop_last() =~= before);
                assert(intervals@ =~= seq![io_mapping.range.spec_interval()] + buffer_intervals(
                    before.push(buffer),
                ));
                let ds = buffers.buffers@.take(i + 1);
                assert(ds.drop_last() =~= buffers.buffers@.take(i as int));
                assert(buffer_intervals(before.push(buffer)) =~= descriptor_intervals(memory, ds));
                lemma_descriptor_intervals_prefix(memory, buffers.buffers@, i + 1);
                assert(intervals@ =~= candidate_intervals(memory, buffers.buffers@, io).take(2 * (i + 1) + 1));
            }
            match reject_overlaps(&intervals) {
                Ok(()) => {},
                Err(e) => {
                    proof {
                        if pairwise_disjoint(candidate_intervals(memory, buffers.buffers@, io)) {
                            lemma_disjoint_prefix(
                                candidate_intervals(memory, buffers.buffers@, io),
                                2 * (i + 1) + 1,
                            );
                        }
                    }
                    return Err(e);
                },
            }
            let metadata_image = memory.read(&metadata);
            let media_image = memory.read(&media);
            let chunk = slice_to_vec(slice_subrange(metadata_image.as_slice(), chunk_offset, chunk_end));
            match OutputBuffer::from_raw_parts(
                metadata.address + chunk_offset,
                chunk,
                media.address,
                media_image,
                0,
                descriptor.max_size,
            ) {
                Ok(_) => {},
                Err(e) => {
                    return Err(SessionError::Port(e));
                },
            }
            proof {
                assert(descriptor_ok(buffers.buffers@[i as int]));
                assert(bound_as(buffer, buffers.buffers@[i as int]));
            }
            let ghost prior = bound@;
            bound.push(buffer);
            proof {
                assert forall|k: int| 0 <= k < i + 1 implies bound_as(#[trigger] bound@[k], buffers.buffers@[k]) by {
                    if k < i {
                        assert(bound@[k] == prior[k]);
                    }
                }
            }
            i = i + 1;
        }
        proof {
            assert(buffers.buffers@.take(n as int) =~= buffers.buffers@);
        }
        Ok(OutputGeneration { id, format, io: io_mapping, buffers: bound })
    }

    /// Output configuration generation.
    pub fn id(&self) -> (g: u64)
        ensures
            g == self.spec_id(),
    {
        self.id
    }

    /// Negotiated format.
    pub fn format(&self) -> (f: &NegotiatedAudioFormat)
        ensures
            *f == self.spec_format(),
    {
        &self.format
    }

    /// The IO record's range.
    pub fn io_range(&self) -> (r: MappedRange)
        ensures
            r == self.spec_io(),
    {
        self.io.range
    }

    /// The mappings of each buffer.
    pub fn bound_buffers(&self) -> (b: &Vec<BoundBuffer>)
        ensures
            b@ == self.spec_buffers(),
    {
        &self.buffers
    }

    /// Whether the generation maps a range of memory generation `key`.
    pub fn depends_on(&self, key: MemoryKey) -> (b: bool)
        ensures
            b == self.spec_depends_on(key),
    {
        if self.io.range.key == key {
            return true;
        }
        let n = self.buffers.len();
        let mut k: usize = 0;
        while k < n
            invariant
                n == self.buffers@.len(),
                k <= n,
                self.io.range.key != key,
                forall|j: int|
                    0 <= j < k ==> (#[trigger] self.buffers@[j]).metadata.range.key != key
                        && self.buffers@[j].media.range.key != key,
            decreases n - k,
        {
            if self.buffers[k].metadata.range.key == key || self.buffers[k].media.range.key == key {
                assert(self.spec_buffers()[k as int].metadata.range.key == key
                    || self.spec_buffers()[k as int].media.range.key == key);
                return true;
            }
            k = k + 1;
        }
        false
    }

    /// The IO interval, then each buffer's metadata and media intervals.
    pub fn intervals(&self) -> (r: Vec<MemoryInterval>)
        requires
            self.wf(),
        ensures
            r@ == self.spec_intervals(),
    {
        let mut out: Vec<MemoryInterval> = Vec::new();
        out.push(self.io.interval());
        let n = self.buffers.len();
        let mut k: usize = 0;
        while k < n
            invariant
                n == self.buffers@.len(),
                k <= n,
                self.wf(),
                out@ == seq![self.spec_io().spec_interval()] + buffer_intervals(
                    self.spec_buffers().take(k as int),
                ),
            decreases n - k,
        {
            let b = self.buffers[k];
            assert(buffer_ok(self.spec_buffers()[k as int]));
            out.push(b.metadata.interval());
            out.push(b.media.interval());
            proof {
                assert(self.spec_buffers().take(k + 1).drop_last() =~= self.spec_buffers().take(
                    k as int,
                ));
                assert(out@ =~= seq![self.spec_io().spec_interval()] + buffer_intervals(
                    self.spec_buffers().take(k + 1),
                ));
            }
            k = k + 1;
        }
        assert(self.spec_buffers().take(n as int) =~= self.spec_buffers());
        out
    }

    /// Runs the callback on the cycle that a fresh image of the IO record
    /// selects, if any, and returns what it published with the process
    /// status to report, together with the IO image read and the stores
    /// made. Only a committed cycle is stored back: the chunk and media of
    /// the selected buffer, then the IO record.
    pub fn process<R: MemoryResolver, P: OutputProcess>(&self, memory: &R, callback: &mut P) -> (r: (
        Result<(Option<PublishedOutput>, i32), SessionError>,
        OutputStep,
    ))
        requires
            self.wf(),
        ensures
            r.1.io_image@.len() == abi::IO_BUFFERS_SIZE,
            match requested_buffer(r.1.io_image@) {
                None => r.0 is Ok ==> r.0 == Ok::<(Option<PublishedOutput>, i32), SessionError>((None, 0)),
                Some(id) => {
                    &&& id >= self.spec_buffers().len() ==> r.0 is Err
                    &&& r.0 is Ok ==> (r.0 matches Ok((Some(p), 2)) && p.spec_buffer_id() == id
                        && committed_stores(*self, id, r.1.stores@))
                },
            },
            !(r.0 matches Ok((Some(_), _))) ==> r.1.stores@.len() == 0,
    {
        let io_image = memory.read(&self.io);
        let io_copy = slice_to_vec(io_image.as_slice());
        let ghost io_bytes = io_image@;
        let io_view = match BuffersIoView::from_raw_parts(PortIoType::Buffers, self.io.address, io_image) {
            Ok(v) => v,
            Err(e) => {
                return (Err(SessionError::Port(e)), OutputStep { io_image: io_copy, stores: Vec::new() });
            },
        };
        let mut outputs: Vec<OutputBuffer> = Vec::new();
        let n = self.buffers.len();
        let mut i: usize = 0;
        while i < n
            invariant
                n == self.spec_buffers().len(),
                i <= n,
                self.wf(),
                io_bytes.len() == abi::IO_BUFFERS_SIZE,
                io_view@ == io_bytes,
                io_copy@ == io_bytes,
                outputs@.len() == i,
                forall|k: int| 0 <= k < i ==> (#[trigger] outputs@[k]).wf(),
            decreases n - i,
        {
            let buffer = self.buffers[i];
            assert(buffer_ok(self.spec_buffers()[i as int]));
            let metadata_image = memory.read(&buffer.metadata);
            let media_image = memory.read(&buffer.media);
            let media_len = media_image.len();
            let chunk = slice_to_vec(
                slice_subrange(
                    metadata_image.as_slice(),
                    buffer.chunk_offset,
                    buffer.chunk_offset + abi::CHUNK_SIZE,
                ),
            );
            let output = match OutputBuffer::from_raw_parts(
                buffer.metadata.address + buffer.chunk_offset,
                chunk,
                buffer.media.address,
                media_image,
                0,
                media_len,
            ) {
                Ok(b) => b,
                Err(e) => {
                    return (Err(SessionError::Port(e)), OutputStep { io_image: io_copy, stores: Vec::new() });
                },
            };
            outputs.push(output);
            i = i + 1;
        }
        let mut publisher = OutputBufferPublisher::new(io_view, outputs, crate::cycle::clone_format(&self.format));
        let cycle = match publisher.select() {
            Err(e) => {
                return (Err(SessionError::Cycle(e)), OutputStep { io_image: io_copy, stores: Vec::new() });
            },
            Ok(None) => {
                assert(requested_buffer(io_bytes) is None);
                return (Ok((None, 0)), OutputStep { io_image: io_copy, stores: Vec::new() });
            },
            Ok(Some(c)) => c,
        };
        let selected = cycle.buffer_id();
        let published = match callback.process(cycle, &mut publisher) {
            Err(e) => {
                return (
                    Err(SessionError::Callback(e.message)),
                    OutputStep { io_image: io_copy, stores: Vec::new() },
                );
            },
            Ok(p) => p,
        };
        let state = publisher.io_state();
        if state.status != 2 || state.buffer_id != published.buffer_id() || published.buffer_id() != selected {
            return (
                Err(
                    SessionError::InvalidTransition(
                        "callback returned without committing its selected cycle",
                    ),
                ),
                OutputStep { io_image: io_copy, stores: Vec::new() },
            );
        }
        let bound = self.buffers[selected as usize];
        assert(buffer_ok(self.spec_buffers()[selected as int]));
        proof {
            publisher.lemma_wf_parts();
        }
        let written = &publisher.buffers()[selected as usize];
        proof {
            written.lemma_wf_bounds();
        }
        let chunk = slice_to_vec(written.chunk_record().as_slice());
        memory.write(&bound.metadata, bound.chunk_offset, chunk.as_slice());
        let media = written.media();
        let media_len = if media.len() < bound.media.range.len {
            media.len()
        } else {
            bound.media.range.len
        };
        let media_store = slice_to_vec(slice_subrange(media.as_slice(), 0, media_len));
        memory.write(&bound.media, 0, media_store.as_slice());
        let io_store = slice_to_vec(publisher.io_record().as_slice());
        memory.write(&self.io, 0, io_store.as_slice());
        let mut stores: Vec<RecordWrite> = Vec::new();
        stores.push(RecordWrite { offset: bound.chunk_offset, bytes: chunk });
        stores.push(RecordWrite { offset: 0, bytes: media_store });
        stores.push(RecordWrite { offset: 0, bytes: io_store });
        assert(requested_buffer(io_bytes) == Some(selected));
        (Ok((Some(published), 2)), OutputStep { io_image: io_copy, stores })
    }
}

} // verus!

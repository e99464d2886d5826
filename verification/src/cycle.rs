//! Selection and publication of one synchronous output buffer per cycle:
//! media is exposed only for the buffer the server asked for with
//! `NEED_DATA`, and a publication writes the chunk, then the buffer ID,
//! then `HAVE_DATA`.

use vstd::prelude::*;

use crate::config::{format_wf, AudioChannel, NegotiatedAudioFormat};
use crate::port::{
    chunk_state_of, io_state_of, BuffersIoState, BuffersIoView, ChunkFlags, ChunkState,
    OutputBuffer, PortError,
};
use crate::port_abi as abi;

verus! {

/// Failure to select or publish one output buffer cycle.
#[derive(Clone, Copy, Debug, PartialEq, Eq)]
pub enum CycleError {
    /// The server selected a buffer index outside the configured set.
    InvalidBufferId { buffer_id: u32, buffer_count: usize },
    /// The committed byte count exceeds the contiguous capacity.
    CapacityExceeded { requested: usize, capacity: usize },
    /// A byte count does not fit `spa_chunk.size`.
    ChunkSizeOverflow(usize),
    /// A frame count overflowed the negotiated frame stride.
    FrameCountOverflow(usize),
    /// Port or chunk validation failed.
    Port(PortError),
}

/// A copy of a format.
pub fn clone_format(f: &NegotiatedAudioFormat) -> (r: NegotiatedAudioFormat)
    ensures
        r.sample_format == f.sample_format,
        r.rate == f.rate,
        r.channels@ == f.channels@,
        r.bytes_per_sample == f.bytes_per_sample,
        r.frame_stride == f.frame_stride,
{
    let mut channels: Vec<AudioChannel> = Vec::new();
    let mut k: usize = 0;
    while k < f.channels.len()
        invariant
            k <= f.channels@.len(),
            channels@ == f.channels@.take(k as int),
        decreases f.channels@.len() - k,
    {
        channels.push(f.channels[k]);
        k = k + 1;
        assert(channels@ =~= f.channels@.take(k as int));
    }
    assert(f.channels@.take(k as int) =~= f.channels@);
    NegotiatedAudioFormat {
        sample_format: f.sample_format,
        rate: f.rate,
        channels,
        bytes_per_sample: f.bytes_per_sample,
        frame_stride: f.frame_stride,
    }
}

/// Synchronous output publication for one configured buffer set.
pub struct OutputBufferPublisher {
    io: BuffersIoView,
    buffers: Vec<OutputBuffer>,
    format: NegotiatedAudioFormat,
}

/// The buffer one cycle writes to, chosen by `select`.
#[derive(Clone, Copy, Debug, PartialEq, Eq, Structural)]
pub struct OutputCycle {
    buffer_id: u32,
    capacity: usize,
    frame_stride: usize,
}

/// Proof that chunk and synchronous IO publication completed.
#[derive(Clone, Copy, Debug, PartialEq, Eq, Structural)]
pub struct PublishedOutput {
    buffer_id: u32,
    bytes_used: usize,
}

impl OutputBufferPublisher {
    /// The records and the format are usable.
    pub closed spec fn wf(&self) -> bool {
        &&& self.io@.len() == abi::IO_BUFFERS_SIZE
        &&& format_wf(self.format)
        &&& forall|i: int| 0 <= i < self.buffers@.len() ==> (#[trigger] self.buffers@[i]).wf()
    }

    pub closed spec fn io_bytes(&self) -> Seq<u8> {
        self.io@
    }

    /// A usable publisher holds an IO record of the Buffers record's size
    /// and only usable buffers.
    pub proof fn lemma_wf_parts(&self)
        requires
            self.wf(),
        ensures
            self.io_bytes().len() == abi::IO_BUFFERS_SIZE,
            forall|i: int| 0 <= i < self.buffer_list().len() ==> (#[trigger] self.buffer_list()[i]).wf(),
    {
    }

    pub closed spec fn buffer_list(&self) -> Seq<OutputBuffer> {
        self.buffers@
    }

    pub closed spec fn spec_format(&self) -> NegotiatedAudioFormat {
        self.format
    }

    pub closed spec fn frame_stride(&self) -> usize {
        self.format.frame_stride
    }

    /// Associates synchronous IO with its configured buffers and format.
    pub fn new(io: BuffersIoView, buffers: Vec<OutputBuffer>, format: NegotiatedAudioFormat) -> (p:
        Self)
        requires
            io@.len() == abi::IO_BUFFERS_SIZE,
            format_wf(format),
            forall|i: int| 0 <= i < buffers@.len() ==> (#[trigger] buffers@[i]).wf(),
        ensures
            p.wf(),
            p.io_bytes() == io@,
            p.buffer_list() == buffers@,
            p.frame_stride() == format.frame_stride,
    {
        OutputBufferPublisher { io, buffers, format }
    }

    /// The current IO selection.
    pub fn io_state(&self) -> (s: BuffersIoState)
        requires
            self.wf(),
        ensures
            s == io_state_of(self.io_bytes()),
    {
        self.io.state()
    }

    /// The IO record's bytes.
    pub fn io_record(&self) -> (b: &Vec<u8>)
        ensures
            b@ == self.io_bytes(),
    {
        self.io.bytes()
    }

    /// The configured buffers.
    pub fn buffers(&self) -> (b: &Vec<OutputBuffer>)
        ensures
            b@ == self.buffer_list(),
    {
        &self.buffers
    }

    /// The negotiated format.
    pub fn format(&self) -> (f: &NegotiatedAudioFormat)
        ensures
            f.frame_stride == self.frame_stride(),
            *f == self.spec_format(),
    {
        &self.format
    }

    /// Selects exactly the buffer requested by `NEED_DATA`; any other status
    /// exposes no buffer.
    pub fn select(&self) -> (r: Result<Option<OutputCycle>, CycleError>)
        requires
            self.wf(),
        ensures
            io_state_of(self.io_bytes()).status != 1 ==> r == Ok::<Option<OutputCycle>, CycleError>(
                None,
            ),
            io_state_of(self.io_bytes()).status == 1 && io_state_of(self.io_bytes()).buffer_id
                >= self.buffer_list().len() ==> r == Err::<Option<OutputCycle>, CycleError>(
                CycleError::InvalidBufferId {
                    buffer_id: io_state_of(self.io_bytes()).buffer_id,
                    buffer_count: self.buffer_list().len() as usize,
                },
            ),
            io_state_of(self.io_bytes()).status == 1 && io_state_of(self.io_bytes()).buffer_id
                < self.buffer_list().len() ==> (r matches Ok(Some(c)) && c.spec_buffer_id()
                == io_state_of(self.io_bytes()).buffer_id && self.cycle_ok(c)),
    {
        let state = self.io.state();
        if state.status != 1 {
            return Ok(None);
        }
        let count = self.buffers.len();
        if state.buffer_id as usize >= count {
            return Err(CycleError::InvalidBufferId { buffer_id: state.buffer_id, buffer_count: count });
        }
        let capacity = self.buffers[state.buffer_id as usize].capacity();
        Ok(
            Some(
                OutputCycle {
                    buffer_id: state.buffer_id,
                    capacity,
                    frame_stride: self.format.frame_stride,
                },
            ),
        )
    }

    /// `c` names one of this publisher's buffers with its capacity.
    pub open spec fn cycle_ok(&self, c: OutputCycle) -> bool {
        &&& c.spec_buffer_id() < self.buffer_list().len()
        &&& c.spec_capacity() == self.buffer_list()[c.spec_buffer_id() as int].spec_capacity()
        &&& c.spec_frame_stride() == self.frame_stride()
        &&& self.wf()
    }
}

impl OutputCycle {
    pub closed spec fn spec_buffer_id(self) -> u32 {
        self.buffer_id
    }

    pub closed spec fn spec_capacity(self) -> usize {
        self.capacity
    }

    pub closed spec fn spec_frame_stride(self) -> usize {
        self.frame_stride
    }

    /// The selected configured buffer index.
    pub fn buffer_id(&self) -> (id: u32)
        ensures
            id == self.spec_buffer_id(),
    {
        self.buffer_id
    }

    /// The contiguous capacity at this chunk's ring offset.
    pub fn capacity(&self) -> (n: usize)
        ensures
            n == self.spec_capacity(),
    {
        self.capacity
    }

    /// The number of complete interleaved frames that fit contiguously.
    pub fn frame_capacity(&self) -> (n: usize)
        requires
            self.spec_frame_stride() > 0,
        ensures
            n == self.spec_capacity() / self.spec_frame_stride(),
    {
        self.capacity / self.frame_stride
    }

    /// The checked media capacity of the selected buffer: `capacity()`
    /// bytes from the chunk's ring offset on, and nothing of any other plane.
    pub fn media<'a>(&self, publisher: &'a OutputBufferPublisher) -> (m: &'a [u8])
        requires
            publisher.cycle_ok(*self),
        ensures
            m@.len() == self.spec_capacity(),
            m@ == ({
                let b = publisher.buffer_list()[self.spec_buffer_id() as int];
                b.media_bytes().subrange(b.write_start(), b.write_start() + b.spec_capacity())
            }),
    {
        proof {
            publisher.buffer_list()[self.spec_buffer_id() as int].lemma_wf_bounds();
        }
        publisher.buffers[self.buffer_id as usize].media_capacity()
    }

    /// The negotiated format governing this cycle.
    pub fn format<'a>(&self, publisher: &'a OutputBufferPublisher) -> (f: &'a NegotiatedAudioFormat)
        ensures
            *f == publisher.spec_format(),
    {
        publisher.format()
    }

    /// The checked interleaved PCM bytes: the same capacity as `media`.
    pub fn interleaved_pcm<'a>(&self, publisher: &'a OutputBufferPublisher) -> (m: &'a [u8])
        requires
            publisher.cycle_ok(*self),
        ensures
            m@.len() == self.spec_capacity(),
            m@ == ({
                let b = publisher.buffer_list()[self.spec_buffer_id() as int];
                b.media_bytes().subrange(b.write_start(), b.write_start() + b.spec_capacity())
            }),
    {
        self.media(publisher)
    }

    /// Copies interleaved PCM bytes into the checked capacity at `at`.
    pub fn write_media(&self, publisher: &mut OutputBufferPublisher, at: usize, bytes: &[u8])
        requires
            old(publisher).cycle_ok(*self),
            at + bytes@.len() <= self.spec_capacity(),
        ensures
            final(publisher).cycle_ok(*self),
            final(publisher).io_bytes() == old(publisher).io_bytes(),
            final(publisher).buffer_list().len() == old(publisher).buffer_list().len(),
            forall|j: int|
                0 <= j < old(publisher).buffer_list().len() && j != self.spec_buffer_id()
                    ==> #[trigger] final(publisher).buffer_list()[j] == old(
                    publisher,
                ).buffer_list()[j],
            ({
                let before = old(publisher).buffer_list()[self.spec_buffer_id() as int];
                let after = final(publisher).buffer_list()[self.spec_buffer_id() as int];
                &&& after.chunk_bytes() == before.chunk_bytes()
                &&& after.plane_offset() == before.plane_offset()
                &&& after.max_size() == before.max_size()
                &&& after.data_offset() == before.data_offset()
                &&& after.media_bytes().len() == before.media_bytes().len()
                &&& forall|k: int|
                    0 <= k < before.media_bytes().len() ==> #[trigger] after.media_bytes()[k] == if before.write_start()
                        + at <= k < before.write_start() + at + bytes@.len() {
                        bytes@[k - before.write_start() - at]
                    } else {
                        before.media_bytes()[k]
                    }
            }),
    {
        let i = self.buffer_id as usize;
        let mut b = publisher.buffers.remove(i);
        b.write_media(at, bytes);
        publisher.buffers.insert(i, b);
        proof {
            assert forall|j: int|
                0 <= j < old(publisher).buffer_list().len() && j != self.spec_buffer_id() implies #[trigger] publisher.buffer_list()[j]
                == old(publisher).buffer_list()[j] by {}
            assert forall|j: int| 0 <= j < publisher.buffers@.len() implies (
            #[trigger] publisher.buffers@[j]).wf() by {
                if j != i {
                    assert(publisher.buffers@[j] == old(publisher).buffers@[j]);
                }
            }
        }
    }

    /// Commits a complete number of interleaved frames.
    pub fn commit(self, publisher: &mut OutputBufferPublisher, frames: usize) -> (r: Result<
        PublishedOutput,
        CycleError,
    >)
        requires
            old(publisher).cycle_ok(self),
        ensures
            frames * self.spec_frame_stride() > usize::MAX ==> r == Err::<PublishedOutput, CycleError>(
                CycleError::FrameCountOverflow(frames),
            ) && *final(publisher) == *old(publisher),
            frames * self.spec_frame_stride() <= usize::MAX ==> publish_outcome(
                self,
                *old(publisher),
                *final(publisher),
                (frames * self.spec_frame_stride()) as usize,
                self.spec_frame_stride() as usize,
                crate::port::CHUNK_FLAG_NONE,
                r,
            ),
    {
        let stride = self.frame_stride;
        let bytes = match frames.checked_mul(stride) {
            Some(b) => b,
            None => {
                return Err(CycleError::FrameCountOverflow(frames));
            },
        };
        self.publish(publisher, bytes, stride, ChunkFlags::none())
    }

    /// Fills a complete number of frames with zero (S16LE silence) and
    /// commits them.
    pub fn silence(self, publisher: &mut OutputBufferPublisher, frames: usize) -> (r: Result<
        PublishedOutput,
        CycleError,
    >)
        requires
            old(publisher).cycle_ok(self),
        ensures
            frames * self.spec_frame_stride() > usize::MAX ==> r == Err::<PublishedOutput, CycleError>(
                CycleError::FrameCountOverflow(frames),
            ) && *final(publisher) == *old(publisher),
            frames * self.spec_frame_stride() <= usize::MAX && frames * self.spec_frame_stride()
                > self.spec_capacity() ==> r == Err::<PublishedOutput, CycleError>(
                CycleError::CapacityExceeded {
                    requested: (frames * self.spec_frame_stride()) as usize,
                    capacity: self.spec_capacity(),
                },
            ) && *final(publisher) == *old(publisher),
            frames * self.spec_frame_stride() <= self.spec_capacity() ==> silenced(
                old(publisher).buffer_list()[self.spec_buffer_id() as int],
                final(publisher).buffer_list()[self.spec_buffer_id() as int],
                frames * self.spec_frame_stride(),
            ) && if self.spec_frame_stride() > old(publisher).buffer_list()[self.spec_buffer_id() as int].max_size()
                || self.spec_frame_stride() > i32::MAX {
                &&& r == Err::<PublishedOutput, CycleError>(
                    CycleError::Port(
                        PortError::InvalidStride {
                            stride: if self.spec_frame_stride() > i32::MAX {
                                i32::MAX
                            } else {
                                self.spec_frame_stride() as i32
                            },
                            max_size: old(publisher).buffer_list()[self.spec_buffer_id() as int].max_size(),
                        },
                    ),
                )
                &&& final(publisher).io_bytes() == old(publisher).io_bytes()
            } else {
                &&& r matches Ok(p) && p.spec_buffer_id() == self.spec_buffer_id()
                    && p.spec_bytes_used() == frames * self.spec_frame_stride()
                &&& io_state_of(final(publisher).io_bytes()) == (BuffersIoState {
                    status: 2,
                    buffer_id: self.spec_buffer_id(),
                })
                &&& chunk_state_of(
                    final(publisher).buffer_list()[self.spec_buffer_id() as int].chunk_bytes(),
                ) == (ChunkState {
                    offset: old(publisher).buffer_list()[self.spec_buffer_id() as int].data_offset() as u32,
                    size: (frames * self.spec_frame_stride()) as u32,
                    stride: self.spec_frame_stride() as i32,
                    flags: crate::port::CHUNK_FLAG_NONE,
                })
            },
    {
        let stride = self.frame_stride;
        let bytes = match frames.checked_mul(stride) {
            Some(b) => b,
            None => {
                return Err(CycleError::FrameCountOverflow(frames));
            },
        };
        if bytes > self.capacity {
            return Err(CycleError::CapacityExceeded { requested: bytes, capacity: self.capacity });
        }
        let i = self.buffer_id as usize;
        let mut b = publisher.buffers.remove(i);
        b.fill_zero(bytes);
        publisher.buffers.insert(i, b);
        proof {
            assert forall|j: int| 0 <= j < publisher.buffers@.len() implies (
            #[trigger] publisher.buffers@[j]).wf() by {
                if j != i {
                    assert(publisher.buffers@[j] == old(publisher).buffers@[j]);
                }
            }
        }
        let ghost mid = *publisher;
        let r = self.publish(publisher, bytes, stride, ChunkFlags::none());
        proof {
            let b0 = old(publisher).buffer_list()[i as int];
            let b1 = mid.buffer_list()[i as int];
            let b2 = publisher.buffer_list()[i as int];
            assert(b1.media_bytes() == b2.media_bytes());
            assert(b1.data_offset() == b0.data_offset());
            assert(b1.max_size() == b0.max_size());
            assert(silenced(b0, b1, bytes as int));
            b0.lemma_wf_bounds();
        }
        r
    }

    /// Publishes the chunk first, then the buffer ID, then `HAVE_DATA`.
    pub fn publish(
        self,
        publisher: &mut OutputBufferPublisher,
        bytes_used: usize,
        stride: usize,
        flags: ChunkFlags,
    ) -> (r: Result<PublishedOutput, CycleError>)
        requires
            old(publisher).cycle_ok(self),
        ensures
            publish_outcome(self, *old(publisher), *final(publisher), bytes_used, stride, flags.spec_bits(), r),
    {
        let capacity = self.capacity;
        if bytes_used > capacity {
            return Err(CycleError::CapacityExceeded { requested: bytes_used, capacity });
        }
        if bytes_used > u32::MAX as usize {
            return Err(CycleError::ChunkSizeOverflow(bytes_used));
        }
        let i = self.buffer_id as usize;
        let max_size = publisher.buffers[i].plane_max_size();
        if stride > max_size || stride > i32::MAX as usize {
            let shown = if stride > i32::MAX as usize {
                i32::MAX
            } else {
                stride as i32
            };
            return Err(CycleError::Port(PortError::InvalidStride { stride: shown, max_size }));
        }
        let mut b = publisher.buffers.remove(i);
        let _ = b.publish(bytes_used, stride, flags);
        publisher.buffers.insert(i, b);
        publisher.io.publish_have_data(self.buffer_id);
        proof {
            assert forall|j: int| 0 <= j < publisher.buffers@.len() implies (
            #[trigger] publisher.buffers@[j]).wf() by {
                if j != i {
                    assert(publisher.buffers@[j] == old(publisher).buffers@[j]);
                }
            }
        }
        Ok(PublishedOutput { buffer_id: self.buffer_id, bytes_used })
    }
}

/// The selected buffer's media holds `n` zero bytes at the write start and
/// is otherwise unchanged.
pub open spec fn silenced(before: OutputBuffer, after: OutputBuffer, n: int) -> bool {
    &&& after.media_bytes().len() == before.media_bytes().len()
    &&& forall|i: int|
        0 <= i < before.media_bytes().len() ==> #[trigger] after.media_bytes()[i] == if before.write_start()
            <= i < before.write_start() + n {
            0u8
        } else {
            before.media_bytes()[i]
        }
}

/// What publishing `bytes_used` bytes does: refused beyond the capacity, for a
/// size that does not fit 32 bits, or for a stride the plane cannot have,
/// leaving everything as it was; otherwise the selected buffer's chunk
/// describes the bytes and the IO says `HAVE_DATA` for it.
pub open spec fn publish_outcome(
    c: OutputCycle,
    before: OutputBufferPublisher,
    after: OutputBufferPublisher,
    bytes_used: usize,
    stride: usize,
    flags: u32,
    r: Result<PublishedOutput, CycleError>,
) -> bool {
    let b = before.buffer_list()[c.spec_buffer_id() as int];
    if bytes_used > c.spec_capacity() {
        r == Err::<PublishedOutput, CycleError>(
            CycleError::CapacityExceeded { requested: bytes_used, capacity: c.spec_capacity() },
        ) && after == before
    } else if bytes_used > u32::MAX {
        r == Err::<PublishedOutput, CycleError>(CycleError::ChunkSizeOverflow(bytes_used)) && after
            == before
    } else if stride > b.max_size() || stride > i32::MAX {
        r == Err::<PublishedOutput, CycleError>(
            CycleError::Port(
                PortError::InvalidStride {
                    stride: if stride > i32::MAX {
                        i32::MAX
                    } else {
                        stride as i32
                    },
                    max_size: b.max_size(),
                },
            ),
        ) && after == before
    } else {
        &&& r is Ok
        &&& r->Ok_0.spec_buffer_id() == c.spec_buffer_id()
        &&& r->Ok_0.spec_bytes_used() == bytes_used
        &&& io_state_of(after.io_bytes()) == (BuffersIoState {
            status: 2,
            buffer_id: c.spec_buffer_id(),
        })
        &&& after.buffer_list().len() == before.buffer_list().len()
        &&& after.cycle_ok(c)
        &&& chunk_state_of(after.buffer_list()[c.spec_buffer_id() as int].chunk_bytes()) == (
        ChunkState {
            offset: b.data_offset() as u32,
            size: bytes_used as u32,
            stride: stride as i32,
            flags,
        })
        &&& after.buffer_list()[c.spec_buffer_id() as int].media_bytes() == b.media_bytes()
        &&& forall|j: int|
            0 <= j < before.buffer_list().len() && j != c.spec_buffer_id()
                ==> #[trigger] after.buffer_list()[j] == before.buffer_list()[j]
    }
}

impl PublishedOutput {
    pub closed spec fn spec_buffer_id(self) -> u32 {
        self.buffer_id
    }

    pub closed spec fn spec_bytes_used(self) -> usize {
        self.bytes_used
    }

    /// The published configured buffer index.
    pub fn buffer_id(self) -> (id: u32)
        ensures
            id == self.spec_buffer_id(),
    {
        self.buffer_id
    }

    /// The published media byte count.
    pub fn bytes_used(self) -> (n: usize)
        ensures
            n == self.spec_bytes_used(),
    {
        self.bytes_used
    }
}

} // verus!

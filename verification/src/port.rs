//! The public SPA records an output port publishes through: synchronous
//! buffer IO (`spa_io_buffers`), the chunk of each buffer (`spa_chunk`) and
//! the writable media plane. Each record is held as its byte image.

use vstd::prelude::*;
use vstd::slice::slice_subrange;

use crate::port_abi as abi;
use crate::record::{
    i32_field, lemma_with_u32, read_i32, read_u32, u32_field, with_u32, write_i32, write_u32,
};
use crate::wire::{BufferStatus, PortIoType};

verus! {

/// One snapshot of synchronous buffer IO.
#[derive(Clone, Copy, Debug, PartialEq, Eq, Structural)]
pub struct BuffersIoState {
    /// Raw SPA status, including possible negative errno values.
    pub status: i32,
    /// Selected configured buffer index.
    pub buffer_id: u32,
}

/// One snapshot of `spa_chunk`.
#[derive(Clone, Copy, Debug, PartialEq, Eq, Structural)]
pub struct ChunkState {
    /// Ring offset of valid data.
    pub offset: u32,
    /// Number of valid bytes.
    pub size: u32,
    /// Media stride in bytes.
    pub stride: i32,
    /// Raw `SPA_CHUNK_FLAG_*` bits.
    pub flags: u32,
}

/// Chunk flags for output publication.
#[derive(Clone, Copy, Debug, PartialEq, Eq, Structural, Default)]
pub struct ChunkFlags(u32);

/// No chunk flags.
pub const CHUNK_FLAG_NONE: u32 = 0;
/// The chunk contents are corrupted.
pub const CHUNK_FLAG_CORRUPTED: u32 = 1;
/// The chunk contains media-specific neutral data.
pub const CHUNK_FLAG_EMPTY: u32 = 2;

impl ChunkFlags {
    /// Flags holding `bits`, public SPA extension bits included.
    pub fn from_bits(bits: u32) -> (f: Self)
        ensures
            f.spec_bits() == bits,
    {
        ChunkFlags(bits)
    }

    /// The flag bits.
    pub fn bits(self) -> (b: u32)
        ensures
            b == self.spec_bits(),
    {
        self.0
    }

    pub closed spec fn spec_bits(self) -> u32 {
        self.0
    }

    /// Flags are their bits: two values with the same bits are the same,
    /// so `from_bits(f.bits()) == f`.
    pub proof fn law_bits_determine_flags(a: Self, b: Self)
        requires
            a.spec_bits() == b.spec_bits(),
        ensures
            a == b,
    {
    }

    /// No flags.
    pub fn none() -> (f: Self)
        ensures
            f.spec_bits() == CHUNK_FLAG_NONE,
    {
        ChunkFlags(CHUNK_FLAG_NONE)
    }

    /// The corrupted flag.
    pub fn corrupted() -> (f: Self)
        ensures
            f.spec_bits() == CHUNK_FLAG_CORRUPTED,
    {
        ChunkFlags(CHUNK_FLAG_CORRUPTED)
    }

    /// The empty flag.
    pub fn empty() -> (f: Self)
        ensures
            f.spec_bits() == CHUNK_FLAG_EMPTY,
    {
        ChunkFlags(CHUNK_FLAG_EMPTY)
    }
}

/// Failure to accept or use SPA buffer records.
#[derive(Clone, Copy, Debug, PartialEq, Eq)]
pub enum PortError {
    /// A region's address was null.
    Null(&'static str),
    /// A shared record did not have its exact ABI size.
    InvalidSize { record: &'static str, actual: usize, required: usize },
    /// A shared record did not meet its ABI alignment.
    Misaligned { record: &'static str, address: usize, required: usize },
    /// Async buffer IO requires separate cycle-slot semantics.
    AsyncBuffersUnsupported,
    /// The media mapping is too large for pointer arithmetic.
    MediaRegionTooLarge,
    /// A data plane declared an empty capacity.
    ZeroMaxSize,
    /// `maxsize` does not fit the 32-bit `spa_data.maxsize` and chunk fields.
    MaxSizeOutOfRange(usize),
    /// `mapoffset + maxsize` overflowed.
    MediaRangeOverflow,
    /// The declared data plane lies outside its mapping.
    MediaRangeOutOfBounds { end: usize, available: usize },
    /// The current chunk wraps past the end of the plane.
    WrappedChunk { offset: usize, size: usize, max_size: usize },
    /// The chunk stride cannot describe this plane.
    InvalidStride { stride: i32, max_size: usize },
}

/// Checks a record's address and size.
pub open spec fn checked_record_spec(
    address: usize,
    len: usize,
    required: usize,
    align: usize,
    record: &'static str,
) -> Result<(), PortError> {
    if address == 0 {
        Err(PortError::Null(record))
    } else if len != required {
        Err(PortError::InvalidSize { record, actual: len, required })
    } else if address % align != 0 {
        Err(PortError::Misaligned { record, address, required: align })
    } else {
        Ok(())
    }
}

fn checked_record(address: usize, len: usize, required: usize, align: usize, record: &'static str) -> (r:
    Result<(), PortError>)
    requires
        align > 0,
    ensures
        r == checked_record_spec(address, len, required, align, record),
{
    if address == 0 {
        return Err(PortError::Null(record));
    }
    if len != required {
        return Err(PortError::InvalidSize { record, actual: len, required });
    }
    if address % align != 0 {
        return Err(PortError::Misaligned { record, address, required: align });
    }
    Ok(())
}

pub open spec fn io_state_of(b: Seq<u8>) -> BuffersIoState {
    BuffersIoState {
        status: i32_field(b, abi::IO_STATUS as int),
        buffer_id: u32_field(b, abi::IO_BUFFER_ID as int),
    }
}

pub open spec fn chunk_state_of(b: Seq<u8>) -> ChunkState {
    ChunkState {
        offset: u32_field(b, abi::CHUNK_OFFSET as int),
        size: u32_field(b, abi::CHUNK_DATA_SIZE as int),
        stride: i32_field(b, abi::CHUNK_STRIDE as int),
        flags: u32_field(b, abi::CHUNK_FLAGS as int),
    }
}

/// View over the byte image of one synchronous `spa_io_buffers` record.
pub struct BuffersIoView {
    io: Vec<u8>,
}

impl View for BuffersIoView {
    type V = Seq<u8>;

    closed spec fn view(&self) -> Seq<u8> {
        self.io@
    }
}

impl BuffersIoView {
    /// Accepts the byte image of a synchronous IO record mapped at `address`.
    pub fn from_raw_parts(kind: PortIoType, address: usize, region: Vec<u8>) -> (r: Result<
        Self,
        PortError,
    >)
        ensures
            kind == PortIoType::AsyncBuffers ==> r == Err::<Self, PortError>(
                PortError::AsyncBuffersUnsupported,
            ),
            kind == PortIoType::Buffers ==> match checked_record_spec(
                address,
                region@.len() as usize,
                abi::IO_BUFFERS_SIZE,
                abi::IO_BUFFERS_ALIGN,
                "spa_io_buffers",
            ) {
                Ok(()) => r matches Ok(v) && v@ == region@,
                Err(e) => r == Err::<Self, PortError>(e),
            },
    {
        if kind == PortIoType::AsyncBuffers {
            return Err(PortError::AsyncBuffersUnsupported);
        }
        match checked_record(
            address,
            region.len(),
            abi::IO_BUFFERS_SIZE,
            abi::IO_BUFFERS_ALIGN,
            "spa_io_buffers",
        ) {
            Ok(()) => Ok(BuffersIoView { io: region }),
            Err(e) => Err(e),
        }
    }

    pub closed spec fn wf(&self) -> bool {
        self.io@.len() == abi::IO_BUFFERS_SIZE
    }

    pub proof fn lemma_wf(&self)
        requires
            self@.len() == abi::IO_BUFFERS_SIZE,
        ensures
            self.wf(),
    {
    }

    /// Both fields of the record.
    pub fn state(&self) -> (s: BuffersIoState)
        requires
            self@.len() == abi::IO_BUFFERS_SIZE,
        ensures
            s == io_state_of(self@),
    {
        BuffersIoState {
            status: read_i32(&self.io, abi::IO_STATUS),
            buffer_id: read_u32(&self.io, abi::IO_BUFFER_ID),
        }
    }

    /// Publishes `buffer_id` and then `HAVE_DATA`.
    pub fn publish_have_data(&mut self, buffer_id: u32)
        requires
            old(self)@.len() == abi::IO_BUFFERS_SIZE,
        ensures
            final(self)@.len() == abi::IO_BUFFERS_SIZE,
            io_state_of(final(self)@) == (BuffersIoState { status: 2, buffer_id }),
    {
        let ghost b0 = self.io@;
        proof {
            lemma_with_u32(b0, abi::IO_BUFFER_ID as int, buffer_id);
        }
        write_u32(&mut self.io, abi::IO_BUFFER_ID, buffer_id);
        let ghost b1 = self.io@;
        proof {
            lemma_with_u32(b1, abi::IO_STATUS as int, 2u32);
            crate::record::lemma_i32_u32_field(2);
        }
        write_i32(&mut self.io, abi::IO_STATUS, BufferStatus::HaveData.as_i32());
    }

    /// The record's bytes.
    pub fn bytes(&self) -> (b: &Vec<u8>)
        ensures
            b@ == self@,
    {
        &self.io
    }
}

/// View over the byte image of one `spa_chunk` record.
pub struct ChunkView {
    chunk: Vec<u8>,
}

impl View for ChunkView {
    type V = Seq<u8>;

    closed spec fn view(&self) -> Seq<u8> {
        self.chunk@
    }
}

impl ChunkView {
    /// Accepts the byte image of a chunk record mapped at `address`.
    pub fn from_raw_parts(address: usize, region: Vec<u8>) -> (r: Result<Self, PortError>)
        ensures
            r matches Ok(v) ==> v@.len() == abi::CHUNK_SIZE,
            match checked_record_spec(
                address,
                region@.len() as usize,
                abi::CHUNK_SIZE,
                abi::CHUNK_ALIGN,
                "spa_chunk",
            ) {
                Ok(()) => r matches Ok(v) && v@ == region@,
                Err(e) => r == Err::<Self, PortError>(e),
            },
    {
        match checked_record(address, region.len(), abi::CHUNK_SIZE, abi::CHUNK_ALIGN, "spa_chunk") {
            Ok(()) => Ok(ChunkView { chunk: region }),
            Err(e) => Err(e),
        }
    }

    /// All fields of the chunk.
    pub fn state(&self) -> (s: ChunkState)
        requires
            self@.len() == abi::CHUNK_SIZE,
        ensures
            s == chunk_state_of(self@),
    {
        ChunkState {
            offset: read_u32(&self.chunk, abi::CHUNK_OFFSET),
            size: read_u32(&self.chunk, abi::CHUNK_DATA_SIZE),
            stride: read_i32(&self.chunk, abi::CHUNK_STRIDE),
            flags: read_u32(&self.chunk, abi::CHUNK_FLAGS),
        }
    }

    /// The record's bytes.
    pub fn bytes(&self) -> (b: &Vec<u8>)
        ensures
            b@ == self@,
    {
        &self.chunk
    }

    /// Writes all fields of the chunk.
    pub fn publish(&mut self, state: ChunkState)
        requires
            old(self)@.len() == abi::CHUNK_SIZE,
        ensures
            final(self)@.len() == abi::CHUNK_SIZE,
            chunk_state_of(final(self)@) == state,
    {
        let ghost b0 = self.chunk@;
        proof {
            lemma_with_u32(b0, abi::CHUNK_OFFSET as int, state.offset);
        }
        write_u32(&mut self.chunk, abi::CHUNK_OFFSET, state.offset);
        let ghost b1 = self.chunk@;
        proof {
            lemma_with_u32(b1, abi::CHUNK_DATA_SIZE as int, state.size);
        }
        write_u32(&mut self.chunk, abi::CHUNK_DATA_SIZE, state.size);
        let ghost b2 = self.chunk@;
        proof {
            lemma_with_u32(b2, abi::CHUNK_STRIDE as int, state.stride as u32);
            crate::record::lemma_i32_u32_field(state.stride);
        }
        write_i32(&mut self.chunk, abi::CHUNK_STRIDE, state.stride);
        let ghost b3 = self.chunk@;
        proof {
            lemma_with_u32(b3, abi::CHUNK_FLAGS as int, state.flags);
        }
        write_u32(&mut self.chunk, abi::CHUNK_FLAGS, state.flags);
    }
}

/// One writable output data plane and its chunk: the plane is
/// `[map_offset, map_offset + max_size)` of the media mapping, and writing
/// starts at the chunk's offset within it.
pub struct OutputBuffer {
    chunk: ChunkView,
    media: Vec<u8>,
    map_offset: usize,
    max_size: usize,
    data_offset: usize,
}

/// Why a plane is refused, if it is: checked in the order the fields are
/// read.
pub open spec fn plane_refusal(
    media_len: usize,
    map_offset: usize,
    max_size: usize,
    c: ChunkState,
) -> Option<PortError> {
    if media_len > isize::MAX {
        Some(PortError::MediaRegionTooLarge)
    } else if max_size == 0 {
        Some(PortError::ZeroMaxSize)
    } else if max_size > u32::MAX {
        Some(PortError::MaxSizeOutOfRange(max_size))
    } else if map_offset + max_size > usize::MAX {
        Some(PortError::MediaRangeOverflow)
    } else if map_offset + max_size > media_len {
        Some(PortError::MediaRangeOutOfBounds { end: (map_offset + max_size) as usize, available: media_len })
    } else if c.size > max_size - (c.offset as int % max_size as int) {
        Some(
            PortError::WrappedChunk {
                offset: (c.offset as int % max_size as int) as usize,
                size: c.size as usize,
                max_size,
            },
        )
    } else if c.stride < 0 || c.stride > max_size {
        Some(PortError::InvalidStride { stride: c.stride, max_size })
    } else {
        None
    }
}

impl OutputBuffer {
    /// Binds a chunk record to one writable media plane.
    pub fn from_raw_parts(
        chunk_address: usize,
        chunk_region: Vec<u8>,
        media_address: usize,
        media_region: Vec<u8>,
        map_offset: usize,
        max_size: usize,
    ) -> (r: Result<Self, PortError>)
        ensures
            checked_record_spec(
                chunk_address,
                chunk_region@.len() as usize,
                abi::CHUNK_SIZE,
                abi::CHUNK_ALIGN,
                "spa_chunk",
            ) matches Err(e) ==> r == Err::<Self, PortError>(e),
            checked_record_spec(
                chunk_address,
                chunk_region@.len() as usize,
                abi::CHUNK_SIZE,
                abi::CHUNK_ALIGN,
                "spa_chunk",
            ) is Ok ==> {
                let c = chunk_state_of(chunk_region@);
                if media_address == 0 {
                    r == Err::<Self, PortError>(PortError::Null("media plane"))
                } else {
                    match plane_refusal(media_region@.len() as usize, map_offset, max_size, c) {
                        Some(e) => r == Err::<Self, PortError>(e),
                        None => r matches Ok(b) && b.wf() && b.chunk_bytes() == chunk_region@
                            && b.media_bytes() == media_region@ && b.plane_offset() == map_offset
                            && b.max_size() == max_size && b.data_offset() == c.offset as int
                            % max_size as int,
                    }
                }
            },
    {
        let chunk = match ChunkView::from_raw_parts(chunk_address, chunk_region) {
            Ok(c) => c,
            Err(e) => {
                return Err(e);
            },
        };
        if media_address == 0 {
            return Err(PortError::Null("media plane"));
        }
        let media_len = media_region.len();
        if media_len > isize::MAX as usize {
            return Err(PortError::MediaRegionTooLarge);
        }
        if max_size == 0 {
            return Err(PortError::ZeroMaxSize);
        }
        if max_size > u32::MAX as usize {
            return Err(PortError::MaxSizeOutOfRange(max_size));
        }
        if map_offset > usize::MAX - max_size {
            return Err(PortError::MediaRangeOverflow);
        }
        let end = map_offset + max_size;
        if end > media_len {
            return Err(PortError::MediaRangeOutOfBounds { end, available: media_len });
        }
        let state = chunk.state();
        let data_offset = state.offset as usize % max_size;
        let size = state.size as usize;
        if size > max_size - data_offset {
            return Err(PortError::WrappedChunk { offset: data_offset, size, max_size });
        }
        if state.stride < 0 || state.stride as usize > max_size {
            return Err(PortError::InvalidStride { stride: state.stride, max_size });
        }
        Ok(OutputBuffer { chunk, media: media_region, map_offset, max_size, data_offset })
    }

    /// The records' sizes and the plane's bounds hold.
    pub closed spec fn wf(&self) -> bool {
        &&& self.chunk@.len() == abi::CHUNK_SIZE
        &&& 0 < self.max_size <= u32::MAX
        &&& self.data_offset < self.max_size
        &&& self.map_offset + self.max_size <= self.media@.len()
    }

    /// What a usable buffer guarantees of its plane.
    pub proof fn lemma_wf_bounds(&self)
        requires
            self.wf(),
        ensures
            0 < self.max_size() <= u32::MAX,
            0 <= self.data_offset() < self.max_size(),
            self.plane_offset() + self.max_size() <= self.media_bytes().len(),
            self.chunk_bytes().len() == abi::CHUNK_SIZE,
    {
    }

    pub closed spec fn chunk_bytes(&self) -> Seq<u8> {
        self.chunk@
    }

    pub closed spec fn media_bytes(&self) -> Seq<u8> {
        self.media@
    }

    pub closed spec fn plane_offset(&self) -> usize {
        self.map_offset
    }

    pub closed spec fn max_size(&self) -> usize {
        self.max_size
    }

    pub closed spec fn data_offset(&self) -> int {
        self.data_offset as int
    }

    /// Contiguous writable bytes from the ring offset to the plane end.
    pub open spec fn spec_capacity(&self) -> int {
        self.max_size() - self.data_offset()
    }

    /// Where writing starts in the media mapping.
    pub open spec fn write_start(&self) -> int {
        self.plane_offset() + self.data_offset()
    }

    /// The number of contiguous writable bytes exposed this cycle.
    pub fn capacity(&self) -> (n: usize)
        requires
            self.wf(),
        ensures
            n == self.spec_capacity(),
    {
        self.max_size - self.data_offset
    }

    /// The plane's capacity.
    pub fn plane_max_size(&self) -> (n: usize)
        ensures
            n == self.max_size(),
    {
        self.max_size
    }

    /// The current chunk.
    pub fn chunk_state(&self) -> (s: ChunkState)
        requires
            self.wf(),
        ensures
            s == chunk_state_of(self.chunk_bytes()),
    {
        self.chunk.state()
    }

    /// The chunk record's bytes.
    pub fn chunk_record(&self) -> (b: &Vec<u8>)
        ensures
            b@ == self.chunk_bytes(),
    {
        self.chunk.bytes()
    }

    /// The whole media mapping.
    pub fn media(&self) -> (m: &Vec<u8>)
        ensures
            m@ == self.media_bytes(),
    {
        &self.media
    }

    /// The contiguous writable bytes of this cycle: `capacity()` bytes of
    /// the media from the chunk's ring offset on.
    pub fn media_capacity(&self) -> (m: &[u8])
        requires
            self.wf(),
        ensures
            m@ == self.media_bytes().subrange(self.write_start(), self.write_start() + self.spec_capacity()),
    {
        proof {
            self.lemma_wf_bounds();
        }
        let _n = self.media.len();
        let start = self.map_offset + self.data_offset;
        slice_subrange(self.media.as_slice(), start, self.map_offset + self.max_size)
    }

    /// Copies `bytes` into the writable capacity at `at`.
    pub fn write_media(&mut self, at: usize, bytes: &[u8])
        requires
            old(self).wf(),
            at + bytes@.len() <= old(self).spec_capacity(),
        ensures
            final(self).wf(),
            final(self).chunk_bytes() == old(self).chunk_bytes(),
            final(self).plane_offset() == old(self).plane_offset(),
            final(self).max_size() == old(self).max_size(),
            final(self).data_offset() == old(self).data_offset(),
            final(self).media_bytes().len() == old(self).media_bytes().len(),
            forall|i: int|
                0 <= i < old(self).media_bytes().len() ==> #[trigger] final(self).media_bytes()[i]
                    == if old(self).write_start() + at <= i < old(self).write_start() + at
                    + bytes@.len() {
                    bytes@[i - old(self).write_start() - at]
                } else {
                    old(self).media_bytes()[i]
                },
    {
        let n = self.media.len();
        let start = self.map_offset + self.data_offset + at;
        let mut k: usize = 0;
        let ghost m0 = self.media@;
        while k < bytes.len()
            invariant
                n == self.media@.len(),
                self.chunk@ == old(self).chunk@,
                self.map_offset == old(self).map_offset,
                self.max_size == old(self).max_size,
                self.data_offset == old(self).data_offset,
                start == self.map_offset + self.data_offset + at,
                m0.len() == n,
                start + bytes@.len() <= n,
                k <= bytes@.len(),
                forall|i: int|
                    0 <= i < n ==> #[trigger] self.media@[i] == if start <= i < start + k {
                        bytes@[i - start]
                    } else {
                        m0[i]
                    },
            decreases bytes@.len() - k,
        {
            self.media.set(start + k, bytes[k]);
            k = k + 1;
        }
    }

    /// Fills the first `n` bytes of the writable capacity with zero.
    pub fn fill_zero(&mut self, n: usize)
        requires
            old(self).wf(),
            n <= old(self).spec_capacity(),
        ensures
            final(self).wf(),
            final(self).chunk_bytes() == old(self).chunk_bytes(),
            final(self).plane_offset() == old(self).plane_offset(),
            final(self).max_size() == old(self).max_size(),
            final(self).data_offset() == old(self).data_offset(),
            final(self).media_bytes().len() == old(self).media_bytes().len(),
            forall|i: int|
                0 <= i < old(self).media_bytes().len() ==> #[trigger] final(self).media_bytes()[i]
                    == if old(self).write_start() <= i < old(self).write_start() + n {
                    0u8
                } else {
                    old(self).media_bytes()[i]
                },
    {
        let len = self.media.len();
        let start = self.map_offset + self.data_offset;
        let mut k: usize = 0;
        let ghost m0 = self.media@;
        while k < n
            invariant
                len == self.media@.len(),
                self.chunk@ == old(self).chunk@,
                self.map_offset == old(self).map_offset,
                self.max_size == old(self).max_size,
                self.data_offset == old(self).data_offset,
                start == self.map_offset + self.data_offset,
                m0.len() == len,
                start + n <= len,
                k <= n,
                forall|i: int|
                    0 <= i < len ==> #[trigger] self.media@[i] == if start <= i < start + k {
                        0u8
                    } else {
                        m0[i]
                    },
            decreases n - k,
        {
            self.media.set(start + k, 0);
            k = k + 1;
        }
    }

    /// Publishes the chunk of `bytes_used` bytes at the ring offset.
    pub fn publish(&mut self, bytes_used: usize, stride: usize, flags: ChunkFlags) -> (r: Result<
        (),
        PortError,
    >)
        requires
            old(self).wf(),
            bytes_used <= u32::MAX,
        ensures
            final(self).wf(),
            final(self).media_bytes() == old(self).media_bytes(),
            final(self).plane_offset() == old(self).plane_offset(),
            final(self).max_size() == old(self).max_size(),
            final(self).data_offset() == old(self).data_offset(),
            stride > old(self).max_size() || stride > i32::MAX ==> r == Err::<(), PortError>(
                PortError::InvalidStride {
                    stride: if stride > i32::MAX {
                        i32::MAX
                    } else {
                        stride as i32
                    },
                    max_size: old(self).max_size(),
                },
            ) && final(self).chunk_bytes() == old(self).chunk_bytes(),
            !(stride > old(self).max_size() || stride > i32::MAX) ==> r is Ok && chunk_state_of(
                final(self).chunk_bytes(),
            ) == (ChunkState {
                offset: old(self).data_offset() as u32,
                size: bytes_used as u32,
                stride: stride as i32,
                flags: flags.spec_bits(),
            }),
    {
        if stride > self.max_size || stride > i32::MAX as usize {
            let shown = if stride > i32::MAX as usize {
                i32::MAX
            } else {
                stride as i32
            };
            return Err(PortError::InvalidStride { stride: shown, max_size: self.max_size });
        }
        self.chunk.publish(
            ChunkState {
                offset: self.data_offset as u32,
                size: bytes_used as u32,
                stride: stride as i32,
                flags: flags.bits(),
            },
        );
        Ok(())
    }
}

} // verus!

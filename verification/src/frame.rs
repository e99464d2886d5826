//! Native protocol framing: the 16-byte message header, the limits a peer
//! may not exceed, and the per-frame table of received file descriptors.

use vstd::bytes::*;
use vstd::prelude::*;
use vstd::slice::slice_subrange;

use crate::pod::le32;

verus! {

/// Bytes in one native message header.
pub const HEADER_LEN: usize = 16;

/// Largest payload the 24-bit size field can carry.
pub const WIRE_MAX_PAYLOAD: usize = 0x00ff_ffff;

/// Resource bounds for one connection.
#[derive(Clone, Copy, Debug, PartialEq, Eq, Structural)]
pub struct FrameLimits {
    pub max_payload: usize,
    pub max_frame_fds: usize,
    pub max_pending_fds: usize,
    pub recv_chunk_bytes: usize,
    pub recv_control_fds: usize,
    pub max_queued_bytes: usize,
    pub max_queued_fds: usize,
}

impl Default for FrameLimits {
    fn default() -> (r: Self)
        ensures
            r.max_payload == WIRE_MAX_PAYLOAD,
            r.max_frame_fds == 1024,
            r.max_pending_fds == 1024,
            r.recv_chunk_bytes == 32 * 1024,
            r.recv_control_fds == 64,
            r.max_queued_bytes == WIRE_MAX_PAYLOAD * 4,
            r.max_queued_fds == 1024,
    {
        FrameLimits {
            max_payload: WIRE_MAX_PAYLOAD,
            max_frame_fds: 1024,
            max_pending_fds: 1024,
            recv_chunk_bytes: 32 * 1024,
            recv_control_fds: 64,
            max_queued_bytes: WIRE_MAX_PAYLOAD * 4,
            max_queued_fds: 1024,
        }
    }
}

/// Why a frame could not be sent, received or taken apart. Socket errors
/// are reported by the caller that performs the I/O.
#[derive(Clone, Copy, Debug, PartialEq, Eq, Structural)]
pub enum FrameError {
    PayloadTooLarge { declared: usize, limit: usize },
    TooManyFrameFds { declared: usize, limit: usize },
    TooManyPendingFds { received: usize, limit: usize },
    SendQueueFull { queued: usize, additional: usize, limit: usize },
    SendFdQueueFull { queued: usize, additional: usize, limit: usize },
    TruncatedControl,
    MalformedControl,
    MissingFds { declared: usize, available: usize },
    UnexpectedFdsAtEof { count: usize },
    TruncatedFrame { buffered: usize, needed: usize },
    InvalidFdIndex { index: u32, count: usize },
    FdAlreadyTaken { index: u32 },
    WriteZero,
    Poisoned,
    /// The received stream outgrew the 64-bit position counter.
    StreamPositionOverflow,
}

/// Decoded native message header.
#[derive(Clone, Copy, Debug, PartialEq, Eq, Structural)]
pub struct Header {
    pub object_id: u32,
    pub opcode: u8,
    pub payload_len: u32,
    pub seq: u32,
    pub n_fds: u32,
}

/// The second header word: opcode in the top byte, payload size below it.
pub open spec fn opcode_size_word(opcode: u8, payload_len: u32) -> u32 {
    ((opcode as u32) << 24u32) | payload_len
}

/// The wire bytes of a header whose payload size fits 24 bits.
pub open spec fn header_bytes(h: Header) -> Seq<u8> {
    le32(h.object_id) + le32(opcode_size_word(h.opcode, h.payload_len)) + le32(h.seq) + le32(
        h.n_fds,
    )
}

/// The header that 16 wire bytes denote.
pub open spec fn header_of_bytes(b: Seq<u8>) -> Header {
    let w = spec_u32_from_le_bytes(b.subrange(4, 8));
    Header {
        object_id: spec_u32_from_le_bytes(b.subrange(0, 4)),
        opcode: (w >> 24u32) as u8,
        payload_len: w & 0x00ff_ffffu32,
        seq: spec_u32_from_le_bytes(b.subrange(8, 12)),
        n_fds: spec_u32_from_le_bytes(b.subrange(12, 16)),
    }
}

proof fn lemma_word_split(opcode: u8, len: u32)
    requires
        len <= 0x00ff_ffff,
    ensures
        (opcode_size_word(opcode, len) >> 24u32) as u8 == opcode,
        opcode_size_word(opcode, len) & 0x00ff_ffffu32 == len,
{
    let o = opcode as u32;
    assert((((o << 24u32) | len) >> 24u32) as u8 == o as u8 && ((o << 24u32) | len)
        & 0x00ff_ffffu32 == len) by (bit_vector)
        requires
            o < 256,
            len <= 0x00ff_ffff,
    ;
}

proof fn lemma_word_join(w: u32)
    ensures
        opcode_size_word((w >> 24u32) as u8, w & 0x00ff_ffffu32) == w,
{
    assert(((((w >> 24u32) as u8) as u32) << 24u32) | (w & 0x00ff_ffffu32) == w) by (bit_vector);
}

impl Header {
    /// Reads a header; the payload size is the low 24 bits of the second word.
    pub fn decode(bytes: [u8; HEADER_LEN]) -> (h: Header)
        ensures
            h == header_of_bytes(bytes@),
    {
        let s = bytes.as_slice();
        let object_id = u32_from_le_bytes(slice_subrange(s, 0, 4));
        let opcode_size = u32_from_le_bytes(slice_subrange(s, 4, 8));
        let seq = u32_from_le_bytes(slice_subrange(s, 8, 12));
        let n_fds = u32_from_le_bytes(slice_subrange(s, 12, 16));
        Header {
            object_id,
            opcode: (opcode_size >> 24u32) as u8,
            payload_len: opcode_size & 0x00ff_ffffu32,
            seq,
            n_fds,
        }
    }

    /// Writes the header; fails when the payload size does not fit 24 bits.
    pub fn encode(self) -> (r: Result<[u8; HEADER_LEN], FrameError>)
        ensures
            self.payload_len <= WIRE_MAX_PAYLOAD ==> (r matches Ok(b) && b@ == header_bytes(self)),
            self.payload_len > WIRE_MAX_PAYLOAD ==> r == Err::<[u8; HEADER_LEN], FrameError>(
                FrameError::PayloadTooLarge {
                    declared: self.payload_len as usize,
                    limit: WIRE_MAX_PAYLOAD,
                },
            ),
    {
        if self.payload_len as usize > WIRE_MAX_PAYLOAD {
            return Err(
                FrameError::PayloadTooLarge {
                    declared: self.payload_len as usize,
                    limit: WIRE_MAX_PAYLOAD,
                },
            );
        }
        let word = ((self.opcode as u32) << 24u32) | self.payload_len;
        let a = u32_to_le_bytes(self.object_id);
        let b = u32_to_le_bytes(word);
        let c = u32_to_le_bytes(self.seq);
        let d = u32_to_le_bytes(self.n_fds);
        let out: [u8; HEADER_LEN] = [
            a[0],
            a[1],
            a[2],
            a[3],
            b[0],
            b[1],
            b[2],
            b[3],
            c[0],
            c[1],
            c[2],
            c[3],
            d[0],
            d[1],
            d[2],
            d[3],
        ];
        assert(out@ =~= a@ + b@ + c@ + d@);
        Ok(out)
    }
}

/// Decoding an encoded header gives the header back.
pub proof fn law_header_decode_encode(h: Header)
    requires
        h.payload_len <= WIRE_MAX_PAYLOAD,
    ensures
        header_of_bytes(header_bytes(h)) == h,
{
    lemma_auto_spec_u32_to_from_le_bytes();
    let b = header_bytes(h);
    let w = opcode_size_word(h.opcode, h.payload_len);
    assert(b.subrange(0, 4) =~= le32(h.object_id));
    assert(b.subrange(4, 8) =~= le32(w));
    assert(b.subrange(8, 12) =~= le32(h.seq));
    assert(b.subrange(12, 16) =~= le32(h.n_fds));
    lemma_word_split(h.opcode, h.payload_len);
}

/// Every 16 bytes are the encoding of the header they decode to.
pub proof fn law_header_encode_decode(b: Seq<u8>)
    requires
        b.len() == HEADER_LEN,
    ensures
        header_of_bytes(b).payload_len <= WIRE_MAX_PAYLOAD,
        header_bytes(header_of_bytes(b)) == b,
{
    lemma_auto_spec_u32_to_from_le_bytes();
    let w = spec_u32_from_le_bytes(b.subrange(4, 8));
    lemma_word_join(w);
    assert(w & 0x00ff_ffffu32 <= 0x00ff_ffff) by (bit_vector);
    assert(b =~= b.subrange(0, 4) + b.subrange(4, 8) + b.subrange(8, 12) + b.subrange(12, 16));
}

/// File descriptors received with one frame, each taken at most once.
pub struct FrameFds<F> {
    fds: Vec<Option<F>>,
}

impl<F> View for FrameFds<F> {
    type V = Seq<Option<F>>;

    closed spec fn view(&self) -> Seq<Option<F>> {
        self.fds@
    }
}

impl<F> FrameFds<F> {
    /// A table holding `fds` in their received order.
    pub fn new(fds: Vec<F>) -> (r: Self)
        ensures
            r@.len() == fds@.len(),
            forall|i: int| 0 <= i < fds@.len() ==> r@[i] == Some(fds@[i]),
    {
        let mut out: Vec<Option<F>> = Vec::new();
        let mut rest = fds;
        let ghost orig = rest@;
        while rest.len() > 0
            invariant
                out@.len() + rest@.len() == orig.len(),
                rest@ == orig.skip(out@.len() as int),
                forall|i: int| 0 <= i < out@.len() ==> out@[i] == Some(orig[i]),
            decreases rest.len(),
        {
            let f = rest.remove(0);
            out.push(Some(f));
            assert(rest@ =~= orig.skip(out@.len() as int));
        }
        FrameFds { fds: out }
    }

    /// Number of descriptors the frame carried, taken or not.
    pub fn len(&self) -> (n: usize)
        ensures
            n == self@.len(),
    {
        self.fds.len()
    }

    pub fn is_empty(&self) -> (b: bool)
        ensures
            b == (self@.len() == 0),
    {
        self.fds.len() == 0
    }

    /// Borrows descriptor `index` without taking it.
    pub fn get(&self, index: u32) -> (r: Result<&F, FrameError>)
        ensures
            index >= self@.len() ==> r == Err::<&F, FrameError>(
                FrameError::InvalidFdIndex { index, count: self@.len() as usize },
            ),
            index < self@.len() && self@[index as int] is None ==> r == Err::<&F, FrameError>(
                FrameError::FdAlreadyTaken { index },
            ),
            index < self@.len() && self@[index as int] is Some ==> (r matches Ok(f) && *f
                == self@[index as int]->Some_0),
    {
        let count = self.fds.len();
        if index as usize >= count {
            return Err(FrameError::InvalidFdIndex { index, count });
        }
        match &self.fds[index as usize] {
            Some(f) => Ok(f),
            None => Err(FrameError::FdAlreadyTaken { index }),
        }
    }

    /// Takes ownership of descriptor `index`, leaving its slot empty.
    pub fn take(&mut self, index: u32) -> (r: Result<F, FrameError>)
        ensures
            index >= old(self)@.len() ==> r == Err::<F, FrameError>(
                FrameError::InvalidFdIndex { index, count: old(self)@.len() as usize },
            ) && final(self)@ == old(self)@,
            index < old(self)@.len() && old(self)@[index as int] is None ==> r == Err::<
                F,
                FrameError,
            >(FrameError::FdAlreadyTaken { index }) && final(self)@ == old(self)@,
            index < old(self)@.len() && old(self)@[index as int] is Some ==> r == Ok::<
                F,
                FrameError,
            >(old(self)@[index as int]->Some_0) && final(self)@ == old(self)@.update(
                index as int,
                None,
            ),
    {
        let count = self.fds.len();
        if index as usize >= count {
            return Err(FrameError::InvalidFdIndex { index, count });
        }
        let slot = self.fds.remove(index as usize);
        match slot {
            Some(f) => {
                self.fds.insert(index as usize, None);
                assert(self.fds@ =~= old(self)@.update(index as int, None));
                Ok(f)
            },
            None => {
                self.fds.insert(index as usize, None);
                assert(self.fds@ =~= old(self)@);
                Err(FrameError::FdAlreadyTaken { index })
            },
        }
    }
}

} // verus!

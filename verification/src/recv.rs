//! The inbound side of a native connection: received bytes are reassembled
//! into frames, and each received descriptor is handed to the first frame
//! that ends after the byte it arrived with. Reading the socket is the
//! caller's: [`FrameReceiver::poll`] says whether a frame is complete or
//! how much to read, and [`FrameReceiver::on_received`] takes what was read.

use vstd::prelude::*;

use crate::frame::{header_of_bytes, FrameError, FrameFds, FrameLimits, Header, HEADER_LEN, WIRE_MAX_PAYLOAD};

verus! {

broadcast use vstd::seq_lib::group_seq_properties;

/// Where reassembly stands.
#[derive(Clone, Copy, Debug, PartialEq, Eq, Structural)]
pub enum RecvState {
    /// Waiting for a complete header.
    Header,
    /// A header was accepted; waiting for the rest of its frame, which
    /// occupies stream positions `[frame_start, frame_end)`.
    Payload { header: Header, frame_start: u64, frame_end: u64 },
    /// The peer closed the stream cleanly.
    Eof,
    /// Reassembly failed; the receiver refuses further use.
    Failed,
}

/// One reassembled frame with the descriptors it declared.
pub struct ReceivedFrame<F> {
    header: Header,
    payload: Vec<u8>,
    fds: FrameFds<F>,
}

impl<F> ReceivedFrame<F> {
    pub closed spec fn spec_header(&self) -> Header {
        self.header
    }

    pub closed spec fn spec_payload(&self) -> Seq<u8> {
        self.payload@
    }

    pub closed spec fn spec_fds(&self) -> Seq<Option<F>> {
        self.fds@
    }

    pub fn header(&self) -> (h: Header)
        ensures
            h == self.spec_header(),
    {
        self.header
    }

    pub fn payload(&self) -> (p: &[u8])
        ensures
            p@ == self.spec_payload(),
    {
        self.payload.as_slice()
    }

    pub fn fds(&self) -> (f: &FrameFds<F>)
        ensures
            f@ == self.spec_fds(),
    {
        &self.fds
    }

    pub fn into_parts(self) -> (r: (Header, Vec<u8>, FrameFds<F>))
        ensures
            r.0 == self.spec_header(),
            r.1@ == self.spec_payload(),
            r.2@ == self.spec_fds(),
    {
        (self.header, self.payload, self.fds)
    }
}

/// What the caller should do next.
pub enum ReceiveStep<F> {
    /// A complete frame.
    Frame(ReceivedFrame<F>),
    /// Read at most `chunk_len` bytes, with room for `control_fds`
    /// descriptors, and hand them to [`FrameReceiver::on_received`].
    Receive { chunk_len: usize, control_fds: usize },
    /// The stream ended cleanly.
    Closed,
}

/// Descriptors counted in the received batches that arrived before `end`.
pub open spec fn eligible(marks: Seq<(u64, usize)>, end: u64) -> nat
    decreases marks.len(),
{
    if marks.len() == 0 || marks[0].0 >= end {
        0
    } else {
        marks[0].1 as nat + eligible(marks.drop_first(), end)
    }
}

/// Descriptors counted in all received batches.
pub open spec fn batch_total(marks: Seq<(u64, usize)>) -> nat
    decreases marks.len(),
{
    if marks.len() == 0 {
        0
    } else {
        marks[0].1 as nat + batch_total(marks.drop_first())
    }
}

/// The batches left after the first `n` descriptors are taken.
pub open spec fn consumed(marks: Seq<(u64, usize)>, n: nat) -> Seq<(u64, usize)>
    decreases marks.len(),
{
    if n == 0 || marks.len() == 0 {
        marks
    } else if marks[0].1 <= n {
        consumed(marks.drop_first(), (n - marks[0].1) as nat)
    } else {
        marks.update(0, (marks[0].0, (marks[0].1 - n) as usize))
    }
}

/// Batch positions increase and no batch is empty.
pub open spec fn marks_ok(marks: Seq<(u64, usize)>) -> bool {
    &&& forall|i: int, j: int| 0 <= i < j < marks.len() ==> marks[i].0 < marks[j].0
    &&& forall|i: int| 0 <= i < marks.len() ==> #[trigger] marks[i].1 > 0
}

/// The bound on buffered bytes: one maximal frame.
pub open spec fn chunk_len_for(limits: FrameLimits, buffered: nat) -> usize {
    let max_buffer: int = if HEADER_LEN + limits.max_payload > usize::MAX {
        usize::MAX as int
    } else {
        HEADER_LEN + limits.max_payload
    };
    let room: int = if max_buffer >= buffered {
        max_buffer - buffered
    } else {
        0
    };
    let want: int = if limits.recv_chunk_bytes >= 1 {
        limits.recv_chunk_bytes as int
    } else {
        1
    };
    let cap: int = if room >= 1 {
        room
    } else {
        1
    };
    (if want <= cap {
        want
    } else {
        cap
    }) as usize
}

pub open spec fn payload_limit(limits: FrameLimits) -> usize {
    crate::send::payload_limit(limits)
}

/// The state of a receiver: where reassembly stands, the buffered bytes and
/// pending descriptors, the batches they arrived in, the stream positions of
/// the first buffered and the next received byte, and the limits.
pub struct RecvView<F> {
    pub state: RecvState,
    pub bytes: Seq<u8>,
    pub fds: Seq<F>,
    pub marks: Seq<(u64, usize)>,
    pub base: u64,
    pub end: u64,
    pub limits: FrameLimits,
}

/// The header of the next frame, once its bytes are buffered.
pub open spec fn next_header<F>(o: RecvView<F>) -> Option<Header> {
    match o.state {
        RecvState::Payload { header, .. } => Some(header),
        RecvState::Header => if o.bytes.len() >= HEADER_LEN {
            Some(header_of_bytes(o.bytes.take(HEADER_LEN as int)))
        } else {
            None
        },
        _ => None,
    }
}

/// A failed receiver holding nothing.
pub open spec fn failed_view<F>(o: RecvView<F>, n: RecvView<F>) -> bool {
    n.state == RecvState::Failed && n.bytes.len() == 0 && n.fds.len() == 0 && n.limits == o.limits
}

/// The outcome of one poll, from state `o` to state `n`.
pub open spec fn poll_outcome<F>(o: RecvView<F>, n: RecvView<F>, r: Result<ReceiveStep<F>, FrameError>) -> bool {
    match o.state {
        RecvState::Failed => r is Err && r->Err_0 == FrameError::Poisoned && n == o,
        RecvState::Eof => r matches Ok(ReceiveStep::Closed) && n == o,
        _ => match next_header(o) {
            None => r matches Ok(ReceiveStep::Receive { chunk_len, control_fds }) && chunk_len
                == chunk_len_for(o.limits, o.bytes.len()) && control_fds == o.limits.recv_control_fds
                && n == o,
            Some(h) => {
                let fresh = o.state is Header;
                let frame_len = HEADER_LEN + h.payload_len;
                let end = o.base + frame_len;
                if fresh && h.payload_len > payload_limit(o.limits) {
                    r is Err && r->Err_0 == (FrameError::PayloadTooLarge {
                        declared: h.payload_len as usize,
                        limit: payload_limit(o.limits),
                    }) && failed_view(o, n)
                } else if fresh && h.n_fds > o.limits.max_frame_fds {
                    r is Err && r->Err_0 == (FrameError::TooManyFrameFds {
                        declared: h.n_fds as usize,
                        limit: o.limits.max_frame_fds,
                    }) && failed_view(o, n)
                } else if fresh && end > u64::MAX {
                    r is Err && r->Err_0 == (FrameError::TruncatedFrame {
                        buffered: o.bytes.len() as usize,
                        needed: frame_len as usize,
                    }) && failed_view(o, n)
                } else if o.bytes.len() < frame_len {
                    r matches Ok(ReceiveStep::Receive { chunk_len, control_fds }) && chunk_len
                        == chunk_len_for(o.limits, o.bytes.len()) && control_fds
                        == o.limits.recv_control_fds && n == (RecvView {
                        state: RecvState::Payload { header: h, frame_start: o.base, frame_end: end as u64 },
                        ..o
                    })
                } else if eligible(o.marks, end as u64) < h.n_fds {
                    r is Err && r->Err_0 == (FrameError::MissingFds {
                        declared: h.n_fds as usize,
                        available: eligible(o.marks, end as u64) as usize,
                    }) && failed_view(o, n)
                } else {
                    &&& r matches Ok(ReceiveStep::Frame(f))
                    &&& r->Ok_0->Frame_0.spec_header() == h
                    &&& r->Ok_0->Frame_0.spec_payload() == o.bytes.subrange(HEADER_LEN as int, frame_len)
                    &&& r->Ok_0->Frame_0.spec_fds() == o.fds.take(h.n_fds as int).map_values(
                        |x: F| Some(x),
                    )
                    &&& n == (RecvView {
                        state: RecvState::Header,
                        bytes: o.bytes.skip(frame_len),
                        fds: o.fds.skip(h.n_fds as int),
                        marks: consumed(o.marks, h.n_fds as nat),
                        base: end as u64,
                        ..o
                    })
                }
            },
        },
    }
}

/// The state after appending one non-empty read and its descriptors.
pub open spec fn received_view<F>(o: RecvView<F>, bytes: Seq<u8>, fds: Seq<F>) -> RecvView<F> {
    RecvView {
        bytes: o.bytes + bytes,
        fds: o.fds + fds,
        marks: if fds.len() > 0 {
            o.marks.push((o.end, fds.len() as usize))
        } else {
            o.marks
        },
        end: (o.end + bytes.len()) as u64,
        ..o
    }
}

/// Bytes read in two pieces leave the receiver as the same bytes read at
/// once: reassembly does not depend on how the stream was split.
pub proof fn law_split_reads<F>(o: RecvView<F>, a: Seq<u8>, b: Seq<u8>)
    requires
        o.end + a.len() + b.len() <= u64::MAX,
    ensures
        received_view(received_view(o, a, Seq::<F>::empty()), b, Seq::<F>::empty())
            == received_view(o, a + b, Seq::<F>::empty()),
{
    assert(o.bytes + a + b =~= o.bytes + (a + b));
    assert(o.fds + Seq::<F>::empty() + Seq::<F>::empty() =~= o.fds + Seq::<F>::empty());
}

/// The receiver after reading `chunks` one after the other, without
/// descriptors.
pub open spec fn received_chunks<F>(o: RecvView<F>, chunks: Seq<Seq<u8>>) -> RecvView<F>
    decreases chunks.len(),
{
    if chunks.len() == 0 {
        o
    } else {
        received_chunks(received_view(o, chunks.first(), Seq::<F>::empty()), chunks.drop_first())
    }
}

/// However a stream of frames is cut into reads, the receiver ends in the
/// state of reading it at once, so every later poll delivers the same
/// frames in the same order.
pub proof fn law_any_split_reads<F>(o: RecvView<F>, chunks: Seq<Seq<u8>>)
    requires
        o.end + chunks.flatten().len() <= u64::MAX,
    ensures
        received_chunks(o, chunks) == received_view(o, chunks.flatten(), Seq::<F>::empty()),
    decreases chunks.len(),
{
    if chunks.len() == 0 {
        assert(o.bytes + Seq::<u8>::empty() =~= o.bytes);
        assert(o.fds + Seq::<F>::empty() =~= o.fds);
    } else {
        let first = chunks.first();
        let rest = chunks.drop_first();
        assert(chunks.flatten() == first + rest.flatten());
        let mid = received_view(o, first, Seq::<F>::empty());
        law_any_split_reads(mid, rest);
        law_split_reads(o, first, rest.flatten());
    }
}

/// A view a live receiver can have: the buffer spans the stream from the
/// base to the end, and the batches, in stream order before the end,
/// account for every pending descriptor.
pub open spec fn view_ok<F>(o: RecvView<F>) -> bool {
    &&& o.base <= o.end
    &&& o.bytes.len() == o.end - o.base
    &&& marks_ok(o.marks)
    &&& forall|i: int| 0 <= i < o.marks.len() ==> #[trigger] o.marks[i].0 < o.end
    &&& batch_total(o.marks) == o.fds.len()
}

proof fn lemma_eligible_push(marks: Seq<(u64, usize)>, m: (u64, usize), end: u64)
    requires
        m.0 >= end,
    ensures
        eligible(marks.push(m), end) == eligible(marks, end),
    decreases marks.len(),
{
    if marks.len() == 0 {
        assert(marks.push(m)[0] == m);
    } else {
        assert(marks.push(m)[0] == marks[0]);
        if marks[0].0 < end {
            assert(marks.push(m).drop_first() =~= marks.drop_first().push(m));
            lemma_eligible_push(marks.drop_first(), m, end);
        }
    }
}

proof fn lemma_consumed_push(marks: Seq<(u64, usize)>, m: (u64, usize), n: nat)
    requires
        n <= batch_total(marks),
    ensures
        consumed(marks.push(m), n) == consumed(marks, n).push(m),
    decreases marks.len(),
{
    if n > 0 && marks.len() > 0 {
        assert(marks.push(m)[0] == marks[0]);
        if marks[0].1 <= n {
            assert(marks.push(m).drop_first() =~= marks.drop_first().push(m));
            lemma_consumed_push(marks.drop_first(), m, (n - marks[0].1) as nat);
        } else {
            let first = (marks[0].0, (marks[0].1 - n) as usize);
            assert(marks.push(m).update(0, first) =~= marks.update(0, first).push(m));
        }
    }
}

/// Polls and reads interleave freely: the frame a poll delivers is the one
/// the same poll delivers after a further read, and the receiver is then
/// left holding that read on top of what the first poll left. So the
/// frames of a stream do not depend on when its reads arrive between polls.
pub proof fn law_poll_commutes_with_read<F>(
    o: RecvView<F>,
    n: RecvView<F>,
    r: Result<ReceiveStep<F>, FrameError>,
    bytes: Seq<u8>,
    fds: Seq<F>,
)
    requires
        view_ok(o),
        poll_outcome(o, n, r),
        r matches Ok(ReceiveStep::Frame(_)),
        o.end + bytes.len() <= u64::MAX,
    ensures
        poll_outcome(received_view(o, bytes, fds), received_view(n, bytes, fds), r),
{
    let o2 = received_view(o, bytes, fds);
    let h = next_header(o)->Some_0;
    let frame_len = HEADER_LEN + h.payload_len;
    let end = o.base + frame_len;
    let k = h.n_fds as int;
    if o.state is Header {
        assert(o2.bytes.take(HEADER_LEN as int) =~= o.bytes.take(HEADER_LEN as int));
    }
    assert(next_header(o2) == Some(h));
    assert(o2.bytes.subrange(HEADER_LEN as int, frame_len) =~= o.bytes.subrange(HEADER_LEN as int, frame_len));
    lemma_eligible_le_total(o.marks, end as u64);
    if fds.len() > 0 {
        lemma_eligible_push(o.marks, (o.end, fds.len() as usize), end as u64);
        lemma_consumed_push(o.marks, (o.end, fds.len() as usize), h.n_fds as nat);
    }
    assert(o2.fds.take(k) =~= o.fds.take(k));
    assert(o2.bytes.skip(frame_len) =~= o.bytes.skip(frame_len) + bytes);
    assert(o2.fds.skip(k) =~= o.fds.skip(k) + fds);
}

/// What a sender writes is what a receiver delivers: a receiver at a frame
/// boundary with nothing buffered that receives the header bytes and the
/// payload of a frame within its limits, with the frame's descriptors,
/// delivers exactly that frame on its next poll, and is then at the next
/// frame boundary with nothing buffered.
pub proof fn law_sent_frame_is_received<F>(
    o: RecvView<F>,
    h: Header,
    payload: Seq<u8>,
    fds: Seq<F>,
    n: RecvView<F>,
    r: Result<ReceiveStep<F>, FrameError>,
)
    requires
        o.state == RecvState::Header,
        o.bytes.len() == 0,
        o.fds.len() == 0,
        o.marks.len() == 0,
        o.base == o.end,
        h.payload_len <= payload_limit(o.limits),
        h.n_fds <= o.limits.max_frame_fds,
        payload.len() == h.payload_len,
        fds.len() == h.n_fds,
        o.end + HEADER_LEN + payload.len() <= u64::MAX,
        poll_outcome(received_view(o, crate::frame::header_bytes(h) + payload, fds), n, r),
    ensures
        r matches Ok(ReceiveStep::Frame(f)) && f.spec_header() == h && f.spec_payload() == payload
            && f.spec_fds() == fds.map_values(|x: F| Some(x)),
        n.state == RecvState::Header,
        n.bytes.len() == 0,
        n.fds.len() == 0,
        n.base == n.end,
{
    let hb = crate::frame::header_bytes(h);
    let m = received_view(o, hb + payload, fds);
    crate::frame::law_header_decode_encode(h);
    assert(hb.len() == HEADER_LEN) by {
        crate::pod::lemma_le32_roundtrip(h.object_id);
        crate::pod::lemma_le32_roundtrip(crate::frame::opcode_size_word(h.opcode, h.payload_len));
        crate::pod::lemma_le32_roundtrip(h.seq);
        crate::pod::lemma_le32_roundtrip(h.n_fds);
    }
    assert(m.bytes =~= hb + payload);
    assert(m.bytes.take(HEADER_LEN as int) =~= hb);
    assert(m.fds =~= fds);
    let end = o.base + HEADER_LEN + h.payload_len;
    if fds.len() > 0 {
        assert(m.marks =~= seq![(o.end, fds.len() as usize)]);
        assert(m.marks.drop_first() =~= Seq::<(u64, usize)>::empty());
        assert(eligible(m.marks.drop_first(), end as u64) == 0);
        assert(m.marks[0].0 < end);
        assert(eligible(m.marks, end as u64) == fds.len());
    } else {
        assert(eligible(m.marks, end as u64) == 0);
    }
    assert(m.bytes.subrange(HEADER_LEN as int, HEADER_LEN + h.payload_len) =~= payload);
    assert(m.fds.take(h.n_fds as int) =~= fds);
    assert(m.bytes.skip(HEADER_LEN + h.payload_len) =~= Seq::<u8>::empty());
    assert(m.fds.skip(h.n_fds as int) =~= Seq::<F>::empty());
}

/// Reassembles frames from received bytes and descriptors.
pub struct FrameReceiver<F> {
    limits: FrameLimits,
    state: RecvState,
    bytes: Vec<u8>,
    byte_base: u64,
    stream_end: u64,
    fds: Vec<F>,
    marks: Vec<(u64, usize)>,
}

impl<F> View for FrameReceiver<F> {
    type V = RecvView<F>;

    closed spec fn view(&self) -> RecvView<F> {
        RecvView {
            state: self.state,
            bytes: self.bytes@,
            fds: self.fds@,
            marks: self.marks@,
            base: self.byte_base,
            end: self.stream_end,
            limits: self.limits,
        }
    }
}

impl<F> FrameReceiver<F> {
    /// A well-formed receiver's view is one a live receiver can have.
    pub proof fn lemma_view_ok(&self)
        requires
            self.wf(),
        ensures
            view_ok(self@),
    {
    }

    pub proof fn lemma_view(&self)
        ensures
            self@.state == self.spec_state(),
            self@.bytes == self.spec_bytes(),
            self@.fds == self.spec_fds(),
            self@.marks == self.spec_marks(),
            self@.base == self.spec_base(),
            self@.end == self.spec_end(),
            self@.limits == self.spec_limits(),
    {
    }

    pub closed spec fn spec_state(&self) -> RecvState {
        self.state
    }

    /// Buffered bytes, from the start of the next frame.
    pub closed spec fn spec_bytes(&self) -> Seq<u8> {
        self.bytes@
    }

    /// Received descriptors not yet handed to a frame, in arrival order.
    pub closed spec fn spec_fds(&self) -> Seq<F> {
        self.fds@
    }

    /// Arrival position and count of each batch of pending descriptors.
    pub closed spec fn spec_marks(&self) -> Seq<(u64, usize)> {
        self.marks@
    }

    /// Stream position of the first buffered byte.
    pub closed spec fn spec_base(&self) -> u64 {
        self.byte_base
    }

    /// Stream position after the last received byte.
    pub closed spec fn spec_end(&self) -> u64 {
        self.stream_end
    }

    pub closed spec fn spec_limits(&self) -> FrameLimits {
        self.limits
    }

    /// The buffer spans the stream from the base to the end, the batches
    /// account for every pending descriptor, and an accepted header is the
    /// one the buffer begins with.
    pub closed spec fn wf(&self) -> bool {
        &&& self.bytes@.len() == self.stream_end - self.byte_base
        &&& self.byte_base <= self.stream_end
        &&& marks_ok(self.marks@)
        &&& forall|i: int| 0 <= i < self.marks@.len() ==> #[trigger] self.marks@[i].0 < self.stream_end
        &&& batch_total(self.marks@) == self.fds@.len()
        &&& (self.state matches RecvState::Payload { header, frame_start, frame_end } ==> {
            &&& self.bytes@.len() >= HEADER_LEN
            &&& header == header_of_bytes(self.bytes@.take(HEADER_LEN as int))
            &&& frame_start == self.byte_base
            &&& frame_end == self.byte_base + HEADER_LEN + header.payload_len
            &&& header.payload_len <= WIRE_MAX_PAYLOAD
        })
    }

    /// A receiver at the start of a stream.
    pub fn new(limits: FrameLimits) -> (r: Self)
        ensures
            r.wf(),
            r.spec_state() == RecvState::Header,
            r.spec_bytes() == Seq::<u8>::empty(),
            r.spec_fds() == Seq::<F>::empty(),
            r.spec_marks() == Seq::<(u64, usize)>::empty(),
            r.spec_base() == 0,
            r.spec_end() == 0,
            r.spec_limits() == limits,
    {
        let r = FrameReceiver {
            limits,
            state: RecvState::Header,
            bytes: Vec::new(),
            byte_base: 0,
            stream_end: 0,
            fds: Vec::new(),
            marks: Vec::new(),
        };
        proof {
            assert(r.marks@ =~= Seq::<(u64, usize)>::empty());
        }
        r
    }

    /// Buffered bytes not yet part of a delivered frame.
    pub fn buffered_bytes(&self) -> (n: usize)
        ensures
            n == self.spec_bytes().len(),
    {
        self.bytes.len()
    }

    /// Received descriptors not yet handed to a frame.
    pub fn pending_fds(&self) -> (n: usize)
        ensures
            n == self.spec_fds().len(),
    {
        self.fds.len()
    }

    /// Drops buffered bytes and descriptors, skipping to the end of the
    /// received stream; a closed or failed receiver stays so.
    pub fn clear(&mut self)
        requires
            old(self).wf(),
        ensures
            final(self).wf(),
            final(self).spec_bytes() == Seq::<u8>::empty(),
            final(self).spec_fds() == Seq::<F>::empty(),
            final(self).spec_base() == old(self).spec_end(),
            final(self).spec_end() == old(self).spec_end(),
            final(self).spec_limits() == old(self).spec_limits(),
            final(self).spec_state() == match old(self).spec_state() {
                RecvState::Failed => RecvState::Failed,
                RecvState::Eof => RecvState::Eof,
                _ => RecvState::Header,
            },
    {
        self.state = match self.state {
            RecvState::Failed => RecvState::Failed,
            RecvState::Eof => RecvState::Eof,
            _ => RecvState::Header,
        };
        self.bytes = Vec::new();
        self.fds = Vec::new();
        self.marks = Vec::new();
        self.byte_base = self.stream_end;
        proof {
            assert(self.marks@ =~= Seq::<(u64, usize)>::empty());
        }
    }


    /// Takes what one read returned. An empty read is the end of the
    /// stream: clean if nothing is buffered or pending, a truncated frame
    /// or stray descriptors otherwise. A non-empty read is appended, its
    /// descriptors forming one batch at the position of its first byte.
    pub fn on_received(&mut self, bytes: Vec<u8>, fds: Vec<F>) -> (r: Result<(), FrameError>)
        requires
            old(self).wf(),
            old(self).spec_state() is Header || old(self).spec_state() is Payload,
        ensures
            final(self).wf(),
            final(self).spec_limits() == old(self).spec_limits(),
            final(self).spec_state() == RecvState::Failed ==> final(self).spec_bytes() == Seq::<u8>::empty()
                && final(self).spec_fds() == Seq::<F>::empty() && final(self).spec_marks() == Seq::<
                (u64, usize),
            >::empty(),
            bytes@.len() == 0 && old(self).spec_bytes().len() > 0 ==> r == Err::<(), FrameError>(
                FrameError::TruncatedFrame {
                    buffered: old(self).spec_bytes().len() as usize,
                    needed: match old(self).spec_state() {
                        RecvState::Payload { frame_start, frame_end, .. } => (frame_end
                            - frame_start) as usize,
                        _ => HEADER_LEN,
                    },
                },
            ) && final(self).spec_state() == RecvState::Failed,
            bytes@.len() == 0 && old(self).spec_bytes().len() == 0 && old(self).spec_fds().len() > 0
                ==> r == Err::<(), FrameError>(
                FrameError::UnexpectedFdsAtEof { count: old(self).spec_fds().len() as usize },
            ) && final(self).spec_state() == RecvState::Failed,
            bytes@.len() == 0 && old(self).spec_bytes().len() == 0 && old(self).spec_fds().len() == 0
                ==> r is Ok && final(self).spec_state() == RecvState::Eof && final(self).spec_bytes()
                == old(self).spec_bytes() && final(self).spec_fds() == old(self).spec_fds(),
            bytes@.len() > 0 && old(self).spec_fds().len() + fds@.len() > old(self).spec_limits().max_pending_fds ==> r is Err && final(self).spec_state()
                == RecvState::Failed,
            bytes@.len() > 0 && old(self).spec_fds().len() + fds@.len() <= old(self).spec_limits().max_pending_fds
                && old(self).spec_end() + bytes@.len() <= u64::MAX ==> final(self)@ == received_view(
                old(self)@,
                bytes@,
                fds@,
            ),
            bytes@.len() > 0 && old(self).spec_fds().len() + fds@.len() <= old(self).spec_limits().max_pending_fds ==> (old(self).spec_end() + bytes@.len() > u64::MAX
                ==> r == Err::<(), FrameError>(FrameError::StreamPositionOverflow) && final(self).spec_state() == RecvState::Failed) && (old(self).spec_end() + bytes@.len()
                <= u64::MAX ==> r is Ok && final(self).spec_state() == old(self).spec_state()
                && final(self).spec_bytes() == old(self).spec_bytes() + bytes@ && final(self).spec_fds() == old(self).spec_fds() + fds@ && final(self).spec_base() == old(self).spec_base() && final(self).spec_end() == old(self).spec_end() + bytes@.len()
                && final(self).spec_marks() == if fds@.len() > 0 {
                old(self).spec_marks().push((old(self).spec_end(), fds@.len() as usize))
            } else {
                old(self).spec_marks()
            }),
    {
        if bytes.len() == 0 {
            if self.bytes.len() > 0 {
                let needed = match self.state {
                    RecvState::Payload { header, frame_start, frame_end } => HEADER_LEN
                        + header.payload_len as usize,
                    _ => HEADER_LEN,
                };
                let buffered = self.bytes.len();
                return Err(self.fail(FrameError::TruncatedFrame { buffered, needed }));
            }
            let pending = self.fds.len();
            if pending != 0 {
                return Err(self.fail(FrameError::UnexpectedFdsAtEof { count: pending }));
            }
            self.state = RecvState::Eof;
            return Ok(());
        }
        let pending = self.fds.len();
        let incoming = fds.len();
        if incoming > self.limits.max_pending_fds || pending > self.limits.max_pending_fds
            - incoming {
            let received = if pending > usize::MAX - incoming {
                usize::MAX
            } else {
                pending + incoming
            };
            return Err(
                self.fail(
                    FrameError::TooManyPendingFds { received, limit: self.limits.max_pending_fds },
                ),
            );
        }
        let len = bytes.len();
        if len as u64 > u64::MAX - self.stream_end {
            return Err(self.fail(FrameError::StreamPositionOverflow));
        }
        let at = self.stream_end;
        self.stream_end = self.stream_end + len as u64;
        let mut bytes = bytes;
        self.bytes.append(&mut bytes);
        let ghost m0 = self.marks@;
        if incoming > 0 {
            self.marks.push((at, incoming));
            proof {
                lemma_total_push(m0, (at, incoming));
            }
        }
        let mut fds = fds;
        self.fds.append(&mut fds);
        proof {
            if old(self).bytes@.len() >= HEADER_LEN {
                assert(self.bytes@.take(HEADER_LEN as int) =~= old(self).bytes@.take(HEADER_LEN as int));
            }
            assert forall|i: int, j: int| 0 <= i < j < self.marks@.len() implies self.marks@[i].0
                < self.marks@[j].0 by {
                if j == m0.len() {
                    assert(self.marks@[i] == m0[i]);
                }
            }
            assert forall|i: int| 0 <= i < self.marks@.len() implies #[trigger] self.marks@[i].1 > 0 by {
                if i < m0.len() {
                    assert(self.marks@[i] == m0[i]);
                }
            }
            assert forall|i: int| 0 <= i < self.marks@.len() implies #[trigger] self.marks@[i].0
                < self.stream_end by {
                if i < m0.len() {
                    assert(self.marks@[i] == m0[i]);
                }
            }
        }
        Ok(())
    }


    fn chunk_len(&self) -> (n: usize)
        ensures
            n == chunk_len_for(self.limits, self.bytes@.len()),
    {
        let max_buffer = if self.limits.max_payload > usize::MAX - HEADER_LEN {
            usize::MAX
        } else {
            HEADER_LEN + self.limits.max_payload
        };
        let buffered = self.bytes.len();
        let room = if max_buffer >= buffered {
            max_buffer - buffered
        } else {
            0
        };
        let want = if self.limits.recv_chunk_bytes >= 1 {
            self.limits.recv_chunk_bytes
        } else {
            1
        };
        let cap = if room >= 1 {
            room
        } else {
            1
        };
        if want <= cap {
            want
        } else {
            cap
        }
    }

    /// Delivers the next complete frame, or says what to read.
    pub fn poll(&mut self) -> (r: Result<ReceiveStep<F>, FrameError>)
        requires
            old(self).wf(),
        ensures
            final(self).wf(),
            poll_outcome(old(self)@, final(self)@, r),
    {
        match self.state {
            RecvState::Failed => {
                return Err(FrameError::Poisoned);
            },
            RecvState::Eof => {
                return Ok(ReceiveStep::Closed);
            },
            _ => {},
        }
        let is_header = match self.state {
            RecvState::Header => true,
            _ => false,
        };
        if is_header && self.bytes.len() >= HEADER_LEN {
            let raw = first_header(&self.bytes);
            let header = Header::decode(raw);
            let payload = header.payload_len as usize;
            let limit = if self.limits.max_payload < WIRE_MAX_PAYLOAD {
                self.limits.max_payload
            } else {
                WIRE_MAX_PAYLOAD
            };
            if payload > limit {
                return Err(self.fail(FrameError::PayloadTooLarge { declared: payload, limit }));
            }
            let nfds = header.n_fds as usize;
            if nfds > self.limits.max_frame_fds {
                return Err(
                    self.fail(
                        FrameError::TooManyFrameFds { declared: nfds, limit: self.limits.max_frame_fds },
                    ),
                );
            }
            let frame_len = HEADER_LEN + payload;
            if frame_len as u64 > u64::MAX - self.byte_base {
                let buffered = self.bytes.len();
                return Err(self.fail(FrameError::TruncatedFrame { buffered, needed: frame_len }));
            }
            self.state = RecvState::Payload {
                header,
                frame_start: self.byte_base,
                frame_end: self.byte_base + frame_len as u64,
            };
        }
        match self.state {
            RecvState::Payload { header, frame_start, frame_end } => {
                let needed = HEADER_LEN + header.payload_len as usize;
                if self.bytes.len() >= needed {
                    let _pending = self.fds.len();
                    let available = count_eligible(&self.marks, frame_end);
                    let declared = header.n_fds as usize;
                    if available < declared {
                        return Err(self.fail(FrameError::MissingFds { declared, available }));
                    }
                    proof {
                        lemma_eligible_le_total(self.marks@, frame_end);
                        lemma_consumed::<F>(self.marks@, declared as nat, self.stream_end);
                    }
                    let ghost o_bytes = self.bytes@;
                    let ghost o_fds = self.fds@;
                    let mut frame_bytes = self.bytes.split_off(needed);
                    std::mem::swap(&mut self.bytes, &mut frame_bytes);
                    let payload = frame_bytes.split_off(HEADER_LEN);
                    let mut taken = self.fds.split_off(declared);
                    std::mem::swap(&mut self.fds, &mut taken);
                    take_marks(&mut self.marks, declared);
                    self.byte_base = frame_end;
                    self.state = RecvState::Header;
                    let fds = FrameFds::new(taken);
                    proof {
                        assert(payload@ =~= o_bytes.subrange(HEADER_LEN as int, needed as int));
                        assert(self.bytes@ =~= o_bytes.skip(needed as int));
                        assert(self.fds@ =~= o_fds.skip(declared as int));
                        assert(fds@ =~= o_fds.take(declared as int).map_values(|x: F| Some(x)));
                    }
                    return Ok(
                        ReceiveStep::Frame(ReceivedFrame { header, payload, fds }),
                    );
                }
            },
            _ => {},
        }
        Ok(
            ReceiveStep::Receive {
                chunk_len: self.chunk_len(),
                control_fds: self.limits.recv_control_fds,
            },
        )
    }

    /// Enters the failed state and returns `error`.
    pub fn fail(&mut self, error: FrameError) -> (e: FrameError)
        requires
            old(self).wf(),
        ensures
            e == error,
            final(self).wf(),
            final(self).spec_state() == RecvState::Failed,
            final(self).spec_bytes() == Seq::<u8>::empty(),
            final(self).spec_fds() == Seq::<F>::empty(),
            final(self).spec_marks() == Seq::<(u64, usize)>::empty(),
            final(self).spec_limits() == old(self).spec_limits(),
    {
        self.bytes = Vec::new();
        self.fds = Vec::new();
        self.marks = Vec::new();
        self.byte_base = self.stream_end;
        self.state = RecvState::Failed;
        proof {
            assert(self.marks@ =~= Seq::<(u64, usize)>::empty());
        }
        error
    }
}

proof fn lemma_consumed<F>(ms: Seq<(u64, usize)>, n: nat, end: u64)
    requires
        marks_ok(ms),
        n <= batch_total(ms),
        forall|i: int| 0 <= i < ms.len() ==> #[trigger] ms[i].0 < end,
    ensures
        marks_ok(consumed(ms, n)),
        batch_total(consumed(ms, n)) == batch_total(ms) - n,
        forall|i: int|
            0 <= i < consumed(ms, n).len() ==> #[trigger] consumed(ms, n)[i].0 < end,
    decreases ms.len(),
{
    if n == 0 || ms.len() == 0 {
    } else if ms[0].1 <= n {
        let t = ms.drop_first();
        assert forall|i: int, j: int| 0 <= i < j < t.len() implies t[i].0 < t[j].0 by {
            assert(t[i] == ms[i + 1] && t[j] == ms[j + 1]);
        }
        assert forall|i: int| 0 <= i < t.len() implies #[trigger] t[i].1 > 0 by {
            assert(t[i] == ms[i + 1]);
        }
        assert forall|i: int| 0 <= i < t.len() implies #[trigger] t[i].0 < end by {
            assert(t[i] == ms[i + 1]);
        }
        lemma_consumed::<F>(t, (n - ms[0].1) as nat, end);
    } else {
        let u = ms.update(0, (ms[0].0, (ms[0].1 - n) as usize));
        assert(u.drop_first() =~= ms.drop_first());
        assert forall|i: int, j: int| 0 <= i < j < u.len() implies u[i].0 < u[j].0 by {}
    }
}

proof fn lemma_total_push(ms: Seq<(u64, usize)>, x: (u64, usize))
    ensures
        batch_total(ms.push(x)) == batch_total(ms) + x.1,
    decreases ms.len(),
{
    if ms.len() > 0 {
        assert(ms.push(x).drop_first() =~= ms.drop_first().push(x));
        lemma_total_push(ms.drop_first(), x);
    } else {
        assert(ms.push(x).drop_first() =~= Seq::<(u64, usize)>::empty());
    }
}

proof fn lemma_eligible_le_total(ms: Seq<(u64, usize)>, end: u64)
    ensures
        eligible(ms, end) <= batch_total(ms),
    decreases ms.len(),
{
    if ms.len() > 0 {
        lemma_eligible_le_total(ms.drop_first(), end);
    }
}

fn first_header(bytes: &Vec<u8>) -> (h: [u8; HEADER_LEN])
    requires
        bytes@.len() >= HEADER_LEN,
    ensures
        h@ == bytes@.take(HEADER_LEN as int),
{
    let h: [u8; HEADER_LEN] = [
        bytes[0],
        bytes[1],
        bytes[2],
        bytes[3],
        bytes[4],
        bytes[5],
        bytes[6],
        bytes[7],
        bytes[8],
        bytes[9],
        bytes[10],
        bytes[11],
        bytes[12],
        bytes[13],
        bytes[14],
        bytes[15],
    ];
    assert(h@ =~= bytes@.take(HEADER_LEN as int));
    h
}

fn count_eligible(marks: &Vec<(u64, usize)>, end: u64) -> (n: usize)
    requires
        marks_ok(marks@),
        batch_total(marks@) <= usize::MAX,
    ensures
        n == eligible(marks@, end),
{
    let mut k: usize = 0;
    let mut sum: usize = 0;
    proof {
        lemma_eligible_le_total(marks@, end);
    }
    while k < marks.len() && marks[k].0 < end
        invariant
            k <= marks@.len(),
            marks_ok(marks@),
            batch_total(marks@) <= usize::MAX,
            sum + eligible(marks@.skip(k as int), end) == eligible(marks@, end),
            eligible(marks@, end) <= batch_total(marks@),
            eligible(marks@.skip(k as int), end) <= batch_total(marks@.skip(k as int)),
        decreases marks@.len() - k,
    {
        proof {
            let t = marks@.skip(k as int);
            assert(t[0] == marks@[k as int]);
            assert(t.drop_first() =~= marks@.skip(k + 1));
            lemma_eligible_le_total(marks@.skip(k + 1), end);
        }
        sum = sum + marks[k].1;
        k = k + 1;
    }
    proof {
        if k < marks@.len() {
            assert(marks@.skip(k as int)[0] == marks@[k as int]);
        } else {
            assert(marks@.skip(k as int).len() == 0);
        }
    }
    sum
}

fn take_marks(marks: &mut Vec<(u64, usize)>, n: usize)
    ensures
        final(marks)@ == consumed(old(marks)@, n as nat),
{
    let mut rem = n;
    while rem > 0 && marks.len() > 0
        invariant
            consumed(old(marks)@, n as nat) == consumed(marks@, rem as nat),
        decreases marks@.len(), rem,
    {
        let (at, cnt) = marks[0];
        if cnt <= rem {
            marks.remove(0);
            rem = rem - cnt;
        } else {
            marks.set(0, (at, cnt - rem));
            rem = 0;
        }
    }
}

// ---------------------------------------------------------------------------
// Ancillary data: the `SCM_RIGHTS` descriptors in a received control buffer
// (x86_64 Linux `cmsghdr`: a 64-bit length, then level and type).

/// Bytes in `cmsghdr`; also where a message's data starts.
pub const CMSG_HEADER_LEN: usize = 16;
/// `SOL_SOCKET`.
pub const SOL_SOCKET: i32 = 1;
/// `SCM_RIGHTS`.
pub const SCM_RIGHTS: i32 = 1;
/// `MSG_CTRUNC`: the kernel truncated the control buffer.
pub const MSG_CTRUNC: i32 = 8;

/// `n` rounded up to the `cmsghdr` alignment.
pub open spec fn cmsg_align(n: int) -> int {
    if n % 8 == 0 {
        n
    } else {
        n + (8 - n % 8)
    }
}

/// The descriptors in `count` 32-bit slots from `start`, up to the first
/// negative one, and whether one was negative.
pub open spec fn rights_scan(c: Seq<u8>, start: int, count: nat) -> (Seq<i32>, bool)
    decreases count,
{
    if count == 0 {
        (Seq::empty(), false)
    } else {
        let (before, bad) = rights_scan(c, start, (count - 1) as nat);
        if bad {
            (before, true)
        } else {
            let fd = crate::record::i32_field(c, start + 4 * (count - 1));
            if fd < 0 {
                (before, true)
            } else {
                (before.push(fd), false)
            }
        }
    }
}

/// The descriptors of the control messages from `off` on, up to the first
/// malformed one, and whether one was malformed.
pub open spec fn control_scan(c: Seq<u8>, off: int) -> (Seq<i32>, bool)
    decreases c.len() + 8 - off,
{
    if off < 0 || off >= c.len() {
        (Seq::empty(), false)
    } else if c.len() - off < CMSG_HEADER_LEN {
        (Seq::empty(), true)
    } else {
        let len = crate::record::u64_field(c, off) as int;
        let level = crate::record::i32_field(c, off + 8);
        let kind = crate::record::i32_field(c, off + 12);
        if len < CMSG_HEADER_LEN || len > c.len() - off {
            (Seq::empty(), true)
        } else {
            let rights = level == SOL_SOCKET && kind == SCM_RIGHTS;
            let data = len - CMSG_HEADER_LEN;
            if rights && data % 4 != 0 {
                (Seq::empty(), true)
            } else {
                let (here, bad) = if rights {
                    rights_scan(c, off + CMSG_HEADER_LEN, (data / 4) as nat)
                } else {
                    (Seq::empty(), false)
                };
                if bad {
                    (here, true)
                } else if len + 7 > usize::MAX || off + cmsg_align(len) > usize::MAX {
                    (here, true)
                } else {
                    let (rest, bad2) = control_scan(c, off + cmsg_align(len));
                    (here + rest, bad2)
                }
            }
        }
    }
}

fn scan_rights(c: &[u8], start: usize, count: usize, out: &mut Vec<i32>) -> (bad: bool)
    requires
        start + 4 * count <= c@.len(),
    ensures
        final(out)@ == old(out)@ + rights_scan(c@, start as int, count as nat).0,
        bad == rights_scan(c@, start as int, count as nat).1,
{
    let n = c.len();
    let mut k: usize = 0;
    let mut bad = false;
    let ghost o = out@;
    while k < count
        invariant_except_break
            k <= count,
            out@ == o + rights_scan(c@, start as int, k as nat).0,
            !rights_scan(c@, start as int, k as nat).1,
            !bad,
        invariant
            n == c@.len(),
            start + 4 * count <= c@.len(),
        ensures
            out@ == o + rights_scan(c@, start as int, count as nat).0,
            bad == rights_scan(c@, start as int, count as nat).1,
        decreases count - k,
    {
        let raw = crate::pod::read_u32_at(c, start + 4 * k);
        let fd: i32 = #[verifier::truncate] (raw as i32);
        assert(fd == crate::record::i32_field(c@, start + 4 * k));
        if fd < 0 {
            proof {
                assert(rights_scan(c@, start as int, (k + 1) as nat) == (
                rights_scan(c@, start as int, k as nat).0, true));
                lemma_rights_scan_bad(c@, start as int, (k + 1) as nat, count as nat);
            }
            bad = true;
            break;
        }
        out.push(fd);
        k = k + 1;
        assert(out@ =~= o + rights_scan(c@, start as int, k as nat).0);
    }
    bad
}

proof fn lemma_rights_scan_bad(c: Seq<u8>, start: int, k: nat, n: nat)
    requires
        k <= n,
        rights_scan(c, start, k).1,
    ensures
        rights_scan(c, start, n).1,
        rights_scan(c, start, n).0 == rights_scan(c, start, k).0,
    decreases n - k,
{
    if k < n {
        lemma_rights_scan_bad(c, start, k, (n - 1) as nat);
    }
}

/// Collects into `out` the descriptors of every `SCM_RIGHTS` message in a
/// received control buffer. A malformed message ends the scan with
/// `MalformedControl`, the descriptors before it already in `out` (the
/// caller owns them and closes them); a control buffer the kernel truncated
/// is `TruncatedControl`.
pub fn parse_control(control: &[u8], flags: i32, out: &mut Vec<i32>) -> (r: Result<(), FrameError>)
    ensures
        final(out)@ == old(out)@ + control_scan(control@, 0).0,
        control_scan(control@, 0).1 ==> r == Err::<(), FrameError>(FrameError::MalformedControl),
        !control_scan(control@, 0).1 && flags & MSG_CTRUNC != 0 ==> r == Err::<(), FrameError>(
            FrameError::TruncatedControl,
        ),
        !control_scan(control@, 0).1 && flags & MSG_CTRUNC == 0 ==> r is Ok,
{
    let visible = control.len();
    let mut offset: usize = 0;
    let mut malformed = false;
    let ghost o = out@;
    while offset < visible
        invariant_except_break
            offset <= visible + 7,
            out@ + control_scan(control@, offset as int).0 == o + control_scan(control@, 0).0,
            control_scan(control@, offset as int).1 == control_scan(control@, 0).1,
            !malformed,
        invariant
            visible == control@.len(),
        ensures
            out@ == o + control_scan(control@, 0).0,
            malformed == control_scan(control@, 0).1,
        decreases visible + 8 - offset,
    {
        if visible - offset < CMSG_HEADER_LEN {
            proof {
                assert(control_scan(control@, offset as int).0 == Seq::<i32>::empty());
                assert(out@ + Seq::<i32>::empty() =~= out@);
            }
            malformed = true;
            break;
        }
        let length64 = crate::pod::read_u64_at(control, offset);
        let level_raw = crate::pod::read_u32_at(control, offset + 8);
        let level: i32 = #[verifier::truncate] (level_raw as i32);
        let kind_raw = crate::pod::read_u32_at(control, offset + 12);
        let kind: i32 = #[verifier::truncate] (kind_raw as i32);
        if length64 < CMSG_HEADER_LEN as u64 || length64 > (visible - offset) as u64 {
            proof {
                assert(out@ + Seq::<i32>::empty() =~= out@);
            }
            malformed = true;
            break;
        }
        let length = length64 as usize;
        let rights = level == SOL_SOCKET && kind == SCM_RIGHTS;
        let data = length - CMSG_HEADER_LEN;
        if rights && data % 4 != 0 {
            proof {
                assert(out@ + Seq::<i32>::empty() =~= out@);
            }
            malformed = true;
            break;
        }
        let ghost before = out@;
        let ghost here = if rights {
            rights_scan(control@, offset + CMSG_HEADER_LEN, (data / 4) as nat).0
        } else {
            Seq::<i32>::empty()
        };
        if rights {
            let bad = scan_rights(control, offset + CMSG_HEADER_LEN, data / 4, out);
            if bad {
                proof {
                    assert(control_scan(control@, offset as int) == (here, true));
                }
                malformed = true;
                break;
            }
        }
        assert(out@ == before + here);
        if length > usize::MAX - 7 {
            proof {
                assert(control_scan(control@, offset as int) == (here, true));
            }
            malformed = true;
            break;
        }
        let aligned = if length % 8 == 0 {
            length
        } else {
            length + (8 - length % 8)
        };
        if offset > usize::MAX - aligned {
            proof {
                assert(control_scan(control@, offset as int) == (here, true));
            }
            malformed = true;
            break;
        }
        proof {
            let rest = control_scan(control@, offset + aligned);
            assert(control_scan(control@, offset as int).0 =~= here + rest.0);
            assert(out@ + rest.0 =~= before + control_scan(control@, offset as int).0);
        }
        offset = offset + aligned;
    }
    if malformed {
        return Err(FrameError::MalformedControl);
    }
    if flags & MSG_CTRUNC != 0 {
        return Err(FrameError::TruncatedControl);
    }
    Ok(())
}

} // verus!

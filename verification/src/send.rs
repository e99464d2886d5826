//! The outbound side of a native connection: frames are built with their
//! header, queued within the connection's limits, and written out in
//! order, each frame's descriptors going with its first written byte.
//! Writing to the socket is the caller's: it asks [`FrameSender::pending`]
//! what to write and reports with [`FrameSender::on_sent`] how much was.

use vstd::prelude::*;

use crate::frame::{header_bytes, FrameError, FrameLimits, Header, HEADER_LEN, WIRE_MAX_PAYLOAD};

verus! {

broadcast use vstd::seq_lib::group_seq_properties;

/// What a flush achieved.
#[derive(Clone, Copy, Debug, PartialEq, Eq, Structural)]
pub enum FlushOutcome {
    /// Every queued byte was written.
    Drained,
    /// The socket would block; the rest stays queued.
    WouldBlock,
}

/// One encoded frame and the descriptors it carries.
pub struct OutboundFrame<F> {
    header: Header,
    bytes: Vec<u8>,
    fds: Vec<F>,
}

/// The payload limit a peer may use: the configured one, at most the wire's.
pub open spec fn payload_limit(limits: FrameLimits) -> usize {
    if limits.max_payload < WIRE_MAX_PAYLOAD {
        limits.max_payload
    } else {
        WIRE_MAX_PAYLOAD
    }
}

fn payload_limit_of(limits: FrameLimits) -> (n: usize)
    ensures
        n == payload_limit(limits),
{
    if limits.max_payload < WIRE_MAX_PAYLOAD {
        limits.max_payload
    } else {
        WIRE_MAX_PAYLOAD
    }
}

impl<F> OutboundFrame<F> {
    pub closed spec fn spec_header(&self) -> Header {
        self.header
    }

    pub closed spec fn spec_bytes(&self) -> Seq<u8> {
        self.bytes@
    }

    pub closed spec fn spec_fds(&self) -> Seq<F> {
        self.fds@
    }

    /// The frame holds at least its header.
    pub closed spec fn wf(&self) -> bool {
        self.bytes@.len() >= HEADER_LEN
    }

    /// The frame of a payload and its descriptors: refused when the payload
    /// or the descriptor count exceeds the limits.
    pub fn new(
        object_id: u32,
        opcode: u8,
        seq: u32,
        payload: Vec<u8>,
        fds: Vec<F>,
        limits: FrameLimits,
    ) -> (r: Result<Self, FrameError>)
        ensures
            payload@.len() > payload_limit(limits) ==> r is Err && r->Err_0 == (
            FrameError::PayloadTooLarge {
                declared: payload@.len() as usize,
                limit: payload_limit(limits),
            }),
            payload@.len() <= payload_limit(limits) && fds@.len() > limits.max_frame_fds ==> r is Err
                && r->Err_0 == (FrameError::TooManyFrameFds {
                declared: fds@.len() as usize,
                limit: limits.max_frame_fds,
            }),
            payload@.len() <= payload_limit(limits) && fds@.len() <= limits.max_frame_fds ==> (r matches Ok(f)
                && f.wf() && f.spec_header() == (Header {
                object_id,
                opcode,
                payload_len: payload@.len() as u32,
                seq,
                n_fds: fds@.len() as u32,
            }) && f.spec_bytes() == header_bytes(f.spec_header()) + payload@ && f.spec_fds()
                == fds@),
    {
        let limit = payload_limit_of(limits);
        let len = payload.len();
        if len > limit {
            return Err(FrameError::PayloadTooLarge { declared: len, limit });
        }
        let nfds = fds.len();
        if nfds > limits.max_frame_fds {
            return Err(FrameError::TooManyFrameFds { declared: nfds, limit: limits.max_frame_fds });
        }
        let header = Header {
            object_id,
            opcode,
            payload_len: len as u32,
            seq,
            n_fds: nfds as u32,
        };
        let encoded = match header.encode() {
            Ok(b) => b,
            Err(e) => {
                return Err(e);
            },
        };
        let mut bytes = vstd::slice::slice_to_vec(encoded.as_slice());
        let mut rest = payload;
        bytes.append(&mut rest);
        proof {
            crate::pod::lemma_le32_roundtrip(header.object_id);
            crate::pod::lemma_le32_roundtrip(crate::frame::opcode_size_word(header.opcode, header.payload_len));
            crate::pod::lemma_le32_roundtrip(header.seq);
            crate::pod::lemma_le32_roundtrip(header.n_fds);
        }
        Ok(OutboundFrame { header, bytes, fds })
    }

    /// The frame's header.
    pub fn header(&self) -> (h: Header)
        ensures
            h == self.spec_header(),
    {
        self.header
    }
}

/// A queued frame: the bytes not yet written and the descriptors not yet
/// sent.
struct SendFrame<F> {
    bytes: Vec<u8>,
    offset: usize,
    fds: Vec<F>,
    ancillary_sent: bool,
}

/// Total unwritten bytes of a queue.
pub open spec fn unwritten<F>(q: Seq<(Seq<u8>, Seq<F>)>) -> nat
    decreases q.len(),
{
    if q.len() == 0 {
        0
    } else {
        q[0].0.len() + unwritten(q.drop_first())
    }
}

/// Total unsent descriptors of a queue.
pub open spec fn unsent_fds<F>(q: Seq<(Seq<u8>, Seq<F>)>) -> nat
    decreases q.len(),
{
    if q.len() == 0 {
        0
    } else {
        q[0].1.len() + unsent_fds(q.drop_first())
    }
}

proof fn lemma_totals_push<F>(q: Seq<(Seq<u8>, Seq<F>)>, x: (Seq<u8>, Seq<F>))
    ensures
        unwritten(q.push(x)) == unwritten(q) + x.0.len(),
        unsent_fds(q.push(x)) == unsent_fds(q) + x.1.len(),
    decreases q.len(),
{
    if q.len() > 0 {
        assert(q.push(x).drop_first() =~= q.drop_first().push(x));
        lemma_totals_push(q.drop_first(), x);
    } else {
        assert(q.push(x).drop_first() =~= Seq::<(Seq<u8>, Seq<F>)>::empty());
    }
}

/// Ordered frames waiting to be written, within the connection's limits.
pub struct FrameSender<F> {
    limits: FrameLimits,
    queue: Vec<SendFrame<F>>,
    queued_bytes: usize,
    queued_fds: usize,
    failed: bool,
}

impl<F> FrameSender<F> {
    /// The queue, each frame as its unwritten bytes and unsent descriptors.
    pub closed spec fn queue_view(&self) -> Seq<(Seq<u8>, Seq<F>)> {
        Seq::new(
            self.queue@.len(),
            |i: int|
                (
                    self.queue@[i].bytes@.skip(self.queue@[i].offset as int),
                    self.queue@[i].fds@,
                ),
        )
    }

    pub closed spec fn is_failed(&self) -> bool {
        self.failed
    }

    pub closed spec fn spec_limits(&self) -> FrameLimits {
        self.limits
    }

    /// The counters match the queue, and every queued frame has bytes left.
    pub closed spec fn wf(&self) -> bool {
        &&& self.queued_bytes == unwritten(self.queue_view())
        &&& self.queued_fds == unsent_fds(self.queue_view())
        &&& forall|i: int|
            0 <= i < self.queue@.len() ==> #[trigger] self.queue@[i].offset
                < self.queue@[i].bytes@.len()
    }

    /// An empty sender bound by `limits`.
    pub fn new(limits: FrameLimits) -> (s: Self)
        ensures
            s.wf(),
            s.queue_view() == Seq::<(Seq<u8>, Seq<F>)>::empty(),
            !s.is_failed(),
            s.spec_limits() == limits,
    {
        let s = FrameSender { limits, queue: Vec::new(), queued_bytes: 0, queued_fds: 0, failed: false };
        assert(s.queue_view() =~= Seq::<(Seq<u8>, Seq<F>)>::empty());
        s
    }

    /// Queues a frame after checking it against this sender's own limits:
    /// its payload and descriptor count, then the queue's byte and
    /// descriptor totals. A refused frame leaves the queue as it was.
    pub fn enqueue(&mut self, frame: OutboundFrame<F>) -> (r: Result<(), FrameError>)
        requires
            old(self).wf(),
            frame.wf(),
        ensures
            final(self).wf(),
            final(self).is_failed() == old(self).is_failed(),
            final(self).spec_limits() == old(self).spec_limits(),
            r == enqueue_result(
                old(self).is_failed(),
                old(self).spec_limits(),
                old(self).queue_view(),
                frame.spec_header(),
                frame.spec_bytes().len(),
                frame.spec_fds().len(),
            ),
            r is Ok ==> final(self).queue_view() == old(self).queue_view().push(
                (frame.spec_bytes(), frame.spec_fds()),
            ),
            r is Err ==> final(self).queue_view() == old(self).queue_view(),
    {
        if self.failed {
            return Err(FrameError::Poisoned);
        }
        let payload = frame.header.payload_len as usize;
        let limit = payload_limit_of(self.limits);
        if payload > limit {
            return Err(FrameError::PayloadTooLarge { declared: payload, limit });
        }
        let nfds = frame.fds.len();
        if nfds > self.limits.max_frame_fds {
            return Err(FrameError::TooManyFrameFds { declared: nfds, limit: self.limits.max_frame_fds });
        }
        let nbytes = frame.bytes.len();
        if nbytes > self.limits.max_queued_bytes || self.queued_bytes > self.limits.max_queued_bytes
            - nbytes {
            return Err(
                FrameError::SendQueueFull {
                    queued: self.queued_bytes,
                    additional: nbytes,
                    limit: self.limits.max_queued_bytes,
                },
            );
        }
        if nfds > self.limits.max_queued_fds || self.queued_fds > self.limits.max_queued_fds - nfds {
            return Err(
                FrameError::SendFdQueueFull {
                    queued: self.queued_fds,
                    additional: nfds,
                    limit: self.limits.max_queued_fds,
                },
            );
        }
        let ghost q0 = self.queue_view();
        self.queued_bytes = self.queued_bytes + nbytes;
        self.queued_fds = self.queued_fds + nfds;
        self.queue.push(SendFrame { bytes: frame.bytes, offset: 0, fds: frame.fds, ancillary_sent: false });
        proof {
            let x = (frame.spec_bytes(), frame.spec_fds());
            assert(frame.spec_bytes().skip(0) =~= frame.spec_bytes());
            assert(self.queue_view() =~= q0.push(x));
            lemma_totals_push(q0, x);
        }
        Ok(())
    }

    /// Whether nothing is queued.
    pub fn is_empty(&self) -> (b: bool)
        ensures
            b == (self.queue_view().len() == 0),
    {
        self.queue.len() == 0
    }

    /// Unwritten queued bytes.
    pub fn queued_bytes(&self) -> (n: usize)
        requires
            self.wf(),
        ensures
            n == unwritten(self.queue_view()),
    {
        self.queued_bytes
    }

    /// Unsent queued descriptors.
    pub fn queued_fds(&self) -> (n: usize)
        requires
            self.wf(),
        ensures
            n == unsent_fds(self.queue_view()),
    {
        self.queued_fds
    }

    /// Drops every queued frame.
    pub fn clear(&mut self)
        ensures
            final(self).wf(),
            final(self).queue_view() == Seq::<(Seq<u8>, Seq<F>)>::empty(),
            final(self).is_failed() == old(self).is_failed(),
            final(self).spec_limits() == old(self).spec_limits(),
    {
        self.queue = Vec::new();
        self.queued_bytes = 0;
        self.queued_fds = 0;
        assert(self.queue_view() =~= Seq::<(Seq<u8>, Seq<F>)>::empty());
    }

    /// Drops the queue and refuses all further use.
    pub fn fail(&mut self)
        ensures
            final(self).wf(),
            final(self).is_failed(),
            final(self).queue_view() == Seq::<(Seq<u8>, Seq<F>)>::empty(),
            final(self).spec_limits() == old(self).spec_limits(),
    {
        self.clear();
        self.failed = true;
    }

    /// What to write next: the front frame's unwritten bytes, with its
    /// descriptors when none of its bytes have been written with them yet.
    /// `None` once everything is written.
    pub fn pending(&self) -> (r: Result<Option<(&[u8], Option<&Vec<F>>)>, FrameError>)
        requires
            self.wf(),
        ensures
            self.is_failed() ==> r == Err::<Option<(&[u8], Option<&Vec<F>>)>, FrameError>(
                FrameError::Poisoned,
            ),
            !self.is_failed() && self.queue_view().len() == 0 ==> r matches Ok(None),
            !self.is_failed() && self.queue_view().len() > 0 ==> (r matches Ok(Some((b, fds))) && b@
                == self.queue_view()[0].0 && (fds matches Some(v) ==> v@ == self.queue_view()[0].1
                && v@.len() > 0) && (fds is None ==> self.queue_view()[0].1.len() == 0)),
    {
        if self.failed {
            return Err(FrameError::Poisoned);
        }
        if self.queue.len() == 0 {
            return Ok(None);
        }
        let front = &self.queue[0];
        let rest = vstd::slice::slice_subrange(front.bytes.as_slice(), front.offset, front.bytes.len());
        assert(rest@ =~= self.queue_view()[0].0);
        if front.fds.len() > 0 {
            Ok(Some((rest, Some(&front.fds))))
        } else {
            Ok(Some((rest, None)))
        }
    }

    /// Records that `sent` bytes of the front frame were written, together
    /// with its descriptors if [`FrameSender::pending`] offered them. A write
    /// of no bytes fails the sender.
    pub fn on_sent(&mut self, sent: usize) -> (r: Result<(), FrameError>)
        requires
            old(self).wf(),
            !old(self).is_failed(),
            old(self).queue_view().len() > 0,
            sent <= old(self).queue_view()[0].0.len(),
        ensures
            final(self).wf(),
            final(self).spec_limits() == old(self).spec_limits(),
            sent == 0 ==> r == Err::<(), FrameError>(FrameError::WriteZero) && final(self).is_failed()
                && final(self).queue_view().len() == 0,
            sent > 0 && sent < old(self).queue_view()[0].0.len() ==> r is Ok && !final(self).is_failed() && final(self).queue_view() == old(self).queue_view().update(
                0,
                (old(self).queue_view()[0].0.skip(sent as int), Seq::<F>::empty()),
            ),
            sent > 0 && sent == old(self).queue_view()[0].0.len() ==> r is Ok && !final(self).is_failed() && final(self).queue_view() == old(self).queue_view().drop_first(),
    {
        if sent == 0 {
            self.fail();
            return Err(FrameError::WriteZero);
        }
        let ghost q0 = self.queue_view();
        let mut front = self.queue.remove(0);
        let total = front.bytes.len();
        let ghost off0 = front.offset;
        let nfds = front.fds.len();
        front.fds = Vec::new();
        front.ancillary_sent = true;
        front.offset = front.offset + sent;
        proof {
            assert(q0.drop_first() =~= Seq::new(
                self.queue@.len(),
                |i: int| (self.queue@[i].bytes@.skip(self.queue@[i].offset as int), self.queue@[i].fds@),
            ));
            lemma_totals_front(q0);
        }
        self.queued_fds = self.queued_fds - nfds;
        self.queued_bytes = self.queued_bytes - sent;
        if front.offset < front.bytes.len() {
            self.queue.insert(0, front);
            proof {
                let x = (q0[0].0.skip(sent as int), Seq::<F>::empty());
                assert(front.bytes@.skip(off0 as int).skip(sent as int) =~= front.bytes@.skip(
                    (off0 + sent) as int,
                ));
                assert forall|i: int| 0 <= i < self.queue@.len() implies #[trigger] self.queue_view()[i]
                    == q0.update(0, x)[i] by {
                    if i > 0 {
                        assert(self.queue@[i] == old(self).queue@[i]);
                    }
                }
                assert(self.queue_view() =~= q0.update(0, x));
                assert(q0.update(0, x).drop_first() =~= q0.drop_first());
                lemma_totals_front(q0.update(0, x));
                assert forall|i: int| 0 <= i < self.queue@.len() implies #[trigger] self.queue@[i].offset
                    < self.queue@[i].bytes@.len() by {
                    if i > 0 {
                        assert(self.queue@[i] == old(self).queue@[i]);
                    }
                }
            }
        } else {
            proof {
                assert(self.queue_view() =~= q0.drop_first());
                assert forall|i: int| 0 <= i < self.queue@.len() implies #[trigger] self.queue@[i].offset
                    < self.queue@[i].bytes@.len() by {
                    assert(self.queue@[i] == old(self).queue@[i + 1]);
                }
            }
        }
        Ok(())
    }
}

proof fn lemma_totals_front<F>(q: Seq<(Seq<u8>, Seq<F>)>)
    requires
        q.len() > 0,
    ensures
        unwritten(q) == q[0].0.len() + unwritten(q.drop_first()),
        unsent_fds(q) == q[0].1.len() + unsent_fds(q.drop_first()),
{
}

/// The outcome of queueing a frame with this header, byte count and
/// descriptor count.
pub open spec fn enqueue_result<F>(
    failed: bool,
    limits: FrameLimits,
    q: Seq<(Seq<u8>, Seq<F>)>,
    h: Header,
    nbytes: nat,
    nfds: nat,
) -> Result<(), FrameError> {
    if failed {
        Err(FrameError::Poisoned)
    } else if h.payload_len > payload_limit(limits) {
        Err(FrameError::PayloadTooLarge { declared: h.payload_len as usize, limit: payload_limit(limits) })
    } else if nfds > limits.max_frame_fds {
        Err(FrameError::TooManyFrameFds { declared: nfds as usize, limit: limits.max_frame_fds })
    } else if unwritten(q) + nbytes > limits.max_queued_bytes {
        Err(
            FrameError::SendQueueFull {
                queued: unwritten(q) as usize,
                additional: nbytes as usize,
                limit: limits.max_queued_bytes,
            },
        )
    } else if unsent_fds(q) + nfds > limits.max_queued_fds {
        Err(
            FrameError::SendFdQueueFull {
                queued: unsent_fds(q) as usize,
                additional: nfds as usize,
                limit: limits.max_queued_fds,
            },
        )
    } else {
        Ok(())
    }
}

} // verus!

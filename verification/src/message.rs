//! Inbound messages: a body, then optionally a footer in the same payload.
//! The footer is a struct of `(opcode, payload)` pairs; opcode 0 carries a
//! generation number as a struct of one long.

use vstd::prelude::*;
use vstd::slice::slice_subrange;

use crate::frame::{FrameError, FrameFds};
use crate::pod::{
    lemma_pod_unique, lemma_pods_view_index, parse_pod, pod_encoding, pod_prefix, pod_view, pod_wf,
    pods_view, Pod, PodValue,
};
use crate::wire::{
    decode_event, event_accepted, event_payload, fd_refs, refs_match, resolved, ErrorKind, Event,
    Limits, WireError,
};

verus! {

/// The generation one footer pair carries: opcode `Id(0)`, then a struct
/// holding one long.
pub open spec fn footer_pair(op: PodValue, body: PodValue) -> Option<i64> {
    match op {
        PodValue::Id(o) => if o == 0 {
            match body {
                PodValue::Struct(inner) => if inner.len() == 1 {
                    match inner[0] {
                        PodValue::Long(g) => Some(g),
                        _ => None,
                    }
                } else {
                    None
                },
                _ => None,
            }
        } else {
            None
        },
        _ => None,
    }
}

/// The generations of the footer items `items`, pair by pair; `None` when
/// they are not such pairs.
pub open spec fn footer_generations(items: Seq<PodValue>) -> Option<Seq<i64>>
    decreases items.len(),
{
    if items.len() == 0 {
        Some(Seq::empty())
    } else if items.len() < 2 {
        None
    } else {
        match footer_pair(items[0], items[1]) {
            Some(g) => match footer_generations(items.skip(2)) {
                Some(rest) => Some(seq![g] + rest),
                None => None,
            },
            None => None,
        }
    }
}

/// `b` is exactly the encoding of a footer that carries generations `gs`.
pub open spec fn footer_encodes(b: Seq<u8>, gs: Seq<i64>) -> bool {
    exists|items: Seq<PodValue>|
        #![trigger footer_generations(items)]
        pod_wf(PodValue::Struct(items)) && b == pod_encoding(PodValue::Struct(items))
            && footer_generations(items) == Some(gs)
}

/// `gs` followed by the generations of `rest`, if `rest` has them.
pub open spec fn joined(gs: Seq<i64>, rest: Option<Seq<i64>>) -> Option<Seq<i64>> {
    match rest {
        Some(t) => Some(gs + t),
        None => None,
    }
}

/// Failure to take an inbound message apart.
#[derive(Clone, Copy, Debug, PartialEq, Eq, Structural)]
pub enum MessageError {
    /// The payload does not begin with a POD.
    BodyNotFound,
    /// The body is not an accepted message.
    Wire(WireError),
    /// What follows the body is not a footer.
    InvalidFooter,
    /// Bytes follow the footer.
    TrailingBytes,
}

impl MessageError {
    /// The I/O error kind the failure is reported as.
    pub fn kind(&self) -> (k: ErrorKind)
        ensures
            k == (match *self {
                MessageError::Wire(WireError::UnknownOpcode(_)) => ErrorKind::Unsupported,
                MessageError::Wire(WireError::Unencodable) => ErrorKind::InvalidInput,
                _ => ErrorKind::InvalidData,
            }),
    {
        match self {
            MessageError::Wire(e) => e.kind(),
            _ => ErrorKind::InvalidData,
        }
    }
}

/// Decodes the footer struct at the start of `data`: its generations and
/// its encoded size.
fn decode_generations(data: &[u8]) -> (r: Result<(Vec<i64>, usize), MessageError>)
    ensures
        r matches Ok((gs, n)) ==> n <= data@.len() && footer_encodes(data@.take(n as int), gs@),
        forall|items: Seq<PodValue>|
            pod_wf(PodValue::Struct(items)) && #[trigger] pod_prefix(data@, PodValue::Struct(items))
                ==> match footer_generations(items) {
                Some(gs) => r matches Ok((g, n)) && g@ == gs && n == pod_encoding(
                    PodValue::Struct(items),
                ).len(),
                None => r == Err::<(Vec<i64>, usize), MessageError>(MessageError::InvalidFooter),
            },
        r is Err ==> r == Err::<(Vec<i64>, usize), MessageError>(MessageError::InvalidFooter),
{
    let n = data.len();
    let (pod, next) = match parse_pod(data, 0, n) {
        Ok(x) => x,
        Err(_) => {
            proof {
                assert(data@.subrange(0, n as int) =~= data@);
            }
            return Err(MessageError::InvalidFooter);
        },
    };
    let ghost p = pod@;
    proof {
        assert forall|items: Seq<PodValue>|
            pod_wf(PodValue::Struct(items)) && #[trigger] pod_prefix(
                data@,
                PodValue::Struct(items),
            ) implies p == PodValue::Struct(items) by {
            let e = pod_encoding(PodValue::Struct(items));
            assert(data@ =~= e + data@.skip(e.len() as int));
            assert(data@ =~= pod_encoding(p) + data@.skip(next as int));
            lemma_pod_unique(p, PodValue::Struct(items), data@.skip(next as int), data@.skip(e.len() as int));
        }
    }
    let children = match pod {
        Pod::Struct(cs) => cs,
        _ => {
            return Err(MessageError::InvalidFooter);
        },
    };
    let ghost items = pods_view(children@);
    proof {
        lemma_pods_view_index(children@);
        assert(p == PodValue::Struct(items));
        assert(items.skip(0) =~= items);
        assert(Seq::<i64>::empty() + footer_generations(items)->Some_0 =~= footer_generations(items)->Some_0);
    }
    let len = children.len();
    let mut gens: Vec<i64> = Vec::new();
    let mut i: usize = 0;
    while i < len
        invariant
            len == children@.len(),
            items == pods_view(children@),
            items.len() == len,
            forall|k: int| 0 <= k < len ==> #[trigger] items[k] == pod_view(children@[k]),
            i <= len,
            footer_generations(items) == joined(gens@, footer_generations(items.skip(i as int))),
            forall|it: Seq<PodValue>|
                pod_wf(PodValue::Struct(it)) && #[trigger] pod_prefix(data@, PodValue::Struct(it))
                    ==> it == items,
        decreases len - i,
    {
        let ghost rest = items.skip(i as int);
        if i + 1 >= len {
            proof {
                assert(rest.len() == 1);
                assert(footer_generations(rest) is None);
                assert(footer_generations(items) is None);
            }
            return Err(MessageError::InvalidFooter);
        }
        proof {
            assert(rest[0] == items[i as int]);
            assert(rest[1] == items[i + 1]);
            assert(rest.skip(2) =~= items.skip(i + 2));
        }
        let found: Option<i64> = match &children[i] {
            Pod::Id(o) => if *o == 0 {
                match &children[i + 1] {
                    Pod::Struct(inner) => {
                        proof {
                            lemma_pods_view_index(inner@);
                        }
                        if inner.len() == 1 {
                            match &inner[0] {
                                Pod::Long(g) => Some(*g),
                                _ => None,
                            }
                        } else {
                            None
                        }
                    },
                    _ => None,
                }
            } else {
                None
            },
            _ => None,
        };
        assert(found == footer_pair(items[i as int], items[i + 1]));
        match found {
            None => {
                proof {
                    assert(footer_generations(rest) is None);
                    assert(footer_generations(items) is None);
                }
                return Err(MessageError::InvalidFooter);
            },
            Some(g) => {
                let ghost before = gens@;
                gens.push(g);
                proof {
                    let tail = footer_generations(items.skip(i + 2));
                    if tail is Some {
                        assert(before.push(g) + tail->Some_0 =~= before + (seq![g] + tail->Some_0));
                    }
                }
                i = i + 2;
            },
        }
    }
    proof {
        assert(items.skip(len as int) =~= Seq::<PodValue>::empty());
        assert(gens@ + Seq::<i64>::empty() =~= gens@);
        assert(data@.take(next as int) =~= data@.subrange(0, next as int));
        assert(footer_generations(items) == Some(gens@));
    }
    Ok((gens, next))
}

/// The generation payload of a Core footer.
#[derive(Clone, Copy, Debug, PartialEq, Eq, Structural)]
pub struct CoreGeneration {
    pub registry_generation: i64,
}

/// One Core footer payload.
#[derive(Clone, Copy, Debug, PartialEq, Eq, Structural)]
pub enum CoreFooterPayload {
    Generation(CoreGeneration),
}

/// The footer a server appends to messages.
#[derive(Clone, Debug)]
pub struct CoreFooter {
    pub payloads: Vec<CoreFooterPayload>,
}

/// The generation payload of a Client footer.
#[derive(Clone, Copy, Debug, PartialEq, Eq, Structural)]
pub struct ClientGeneration {
    pub client_generation: i64,
}

/// One Client footer payload.
#[derive(Clone, Copy, Debug, PartialEq, Eq, Structural)]
pub enum ClientFooterPayload {
    Generation(ClientGeneration),
}

/// The footer a client appends to messages.
#[derive(Clone, Debug)]
pub struct ClientFooter {
    pub payloads: Vec<ClientFooterPayload>,
}

/// The generations of a Core footer, in order.
pub open spec fn core_generations(f: CoreFooter) -> Seq<i64> {
    Seq::new(
        f.payloads@.len(),
        |i: int|
            match f.payloads@[i] {
                CoreFooterPayload::Generation(g) => g.registry_generation,
            },
    )
}

/// The generations of a Client footer, in order.
pub open spec fn client_generations(f: ClientFooter) -> Seq<i64> {
    Seq::new(
        f.payloads@.len(),
        |i: int|
            match f.payloads@[i] {
                ClientFooterPayload::Generation(g) => g.client_generation,
            },
    )
}

impl CoreFooter {
    /// An empty footer.
    pub fn new() -> (f: Self)
        ensures
            core_generations(f) == Seq::<i64>::empty(),
    {
        let f = CoreFooter { payloads: Vec::new() };
        assert(core_generations(f) =~= Seq::<i64>::empty());
        f
    }

    /// Appends one payload.
    pub fn push(&mut self, payload: CoreFooterPayload)
        ensures
            final(self).payloads@ == old(self).payloads@.push(payload),
    {
        self.payloads.push(payload);
    }

    /// Decodes the footer at the start of `data` and its encoded size.
    pub fn decode(data: &[u8]) -> (r: Result<(CoreFooter, usize), MessageError>)
        ensures
            r matches Ok((f, n)) ==> n <= data@.len() && footer_encodes(
                data@.take(n as int),
                core_generations(f),
            ),
            forall|items: Seq<PodValue>|
                pod_wf(PodValue::Struct(items)) && #[trigger] pod_prefix(data@, PodValue::Struct(items))
                    ==> match footer_generations(items) {
                    Some(gs) => r matches Ok((f, n)) && core_generations(f) == gs && n
                        == pod_encoding(PodValue::Struct(items)).len(),
                    None => r == Err::<(CoreFooter, usize), MessageError>(MessageError::InvalidFooter),
                },
            r is Err ==> r == Err::<(CoreFooter, usize), MessageError>(MessageError::InvalidFooter),
    {
        let (gens, n) = match decode_generations(data) {
            Ok(x) => x,
            Err(e) => {
                return Err(e);
            },
        };
        let mut payloads: Vec<CoreFooterPayload> = Vec::new();
        let mut i: usize = 0;
        while i < gens.len()
            invariant
                i <= gens@.len(),
                payloads@.len() == i,
                forall|k: int|
                    0 <= k < i ==> #[trigger] payloads@[k] == CoreFooterPayload::Generation(
                        CoreGeneration { registry_generation: gens@[k] },
                    ),
            decreases gens@.len() - i,
        {
            payloads.push(CoreFooterPayload::Generation(CoreGeneration { registry_generation: gens[i] }));
            i = i + 1;
        }
        let f = CoreFooter { payloads };
        assert(core_generations(f) =~= gens@);
        Ok((f, n))
    }
}

impl ClientFooter {
    /// An empty footer.
    pub fn new() -> (f: Self)
        ensures
            client_generations(f) == Seq::<i64>::empty(),
    {
        let f = ClientFooter { payloads: Vec::new() };
        assert(client_generations(f) =~= Seq::<i64>::empty());
        f
    }

    /// Appends one payload.
    pub fn push(&mut self, payload: ClientFooterPayload)
        ensures
            final(self).payloads@ == old(self).payloads@.push(payload),
    {
        self.payloads.push(payload);
    }

    /// Decodes the footer at the start of `data` and its encoded size.
    pub fn decode(data: &[u8]) -> (r: Result<(ClientFooter, usize), MessageError>)
        ensures
            r matches Ok((f, n)) ==> n <= data@.len() && footer_encodes(
                data@.take(n as int),
                client_generations(f),
            ),
            forall|items: Seq<PodValue>|
                pod_wf(PodValue::Struct(items)) && #[trigger] pod_prefix(data@, PodValue::Struct(items))
                    ==> match footer_generations(items) {
                    Some(gs) => r matches Ok((f, n)) && client_generations(f) == gs && n
                        == pod_encoding(PodValue::Struct(items)).len(),
                    None => r == Err::<(ClientFooter, usize), MessageError>(
                        MessageError::InvalidFooter,
                    ),
                },
            r is Err ==> r == Err::<(ClientFooter, usize), MessageError>(MessageError::InvalidFooter),
    {
        let (gens, n) = match decode_generations(data) {
            Ok(x) => x,
            Err(e) => {
                return Err(e);
            },
        };
        let mut payloads: Vec<ClientFooterPayload> = Vec::new();
        let mut i: usize = 0;
        while i < gens.len()
            invariant
                i <= gens@.len(),
                payloads@.len() == i,
                forall|k: int|
                    0 <= k < i ==> #[trigger] payloads@[k] == ClientFooterPayload::Generation(
                        ClientGeneration { client_generation: gens@[k] },
                    ),
            decreases gens@.len() - i,
        {
            payloads.push(ClientFooterPayload::Generation(ClientGeneration { client_generation: gens[i] }));
            i = i + 1;
        }
        let f = ClientFooter { payloads };
        assert(client_generations(f) =~= gens@);
        Ok((f, n))
    }
}

/// The one value whose encoding `payload` begins with is the one of any
/// prefix encoding.
proof fn lemma_prefix_unique(payload: Seq<u8>, p: PodValue, next: int, v: PodValue)
    requires
        pod_wf(p),
        pod_wf(v),
        0 <= next <= payload.len(),
        payload.subrange(0, next) == pod_encoding(p),
        pod_encoding(v).len() <= payload.len(),
        payload.take(pod_encoding(v).len() as int) == pod_encoding(v),
    ensures
        next == pod_encoding(v).len(),
        payload.subrange(0, next) == pod_encoding(v),
{
    let e = pod_encoding(v);
    assert(payload =~= e + payload.skip(e.len() as int));
    assert(payload =~= pod_encoding(p) + payload.skip(next));
    lemma_pod_unique(p, v, payload.skip(next), payload.skip(e.len() as int));
}

/// What follows a message body: nothing, and no footer; or exactly one
/// footer with generations `gs`.
pub open spec fn tail_ok(tail: Seq<u8>, footer: Option<Seq<i64>>) -> bool {
    match footer {
        None => tail.len() == 0,
        Some(gs) => footer_encodes(tail, gs),
    }
}

/// One received message: its opcode, payload and the descriptors of its
/// frame, and the footer once the body was decoded.
pub struct InboundMessage<F> {
    opcode: u8,
    payload: Vec<u8>,
    fds: FrameFds<F>,
    footer: Option<CoreFooter>,
}

impl<F> InboundMessage<F> {
    pub closed spec fn spec_opcode(&self) -> u8 {
        self.opcode
    }

    pub closed spec fn spec_payload(&self) -> Seq<u8> {
        self.payload@
    }

    pub closed spec fn spec_fds(&self) -> Seq<Option<F>> {
        self.fds@
    }

    /// The generations of the decoded footer, if there was one.
    pub closed spec fn spec_footer(&self) -> Option<Seq<i64>> {
        match self.footer {
            Some(f) => Some(core_generations(f)),
            None => None,
        }
    }

    /// A message not decoded yet.
    pub fn new(opcode: u8, payload: Vec<u8>, fds: FrameFds<F>) -> (m: Self)
        ensures
            m.spec_opcode() == opcode,
            m.spec_payload() == payload@,
            m.spec_fds() == fds@,
            m.spec_footer() is None,
    {
        InboundMessage { opcode, payload, fds, footer: None }
    }

    /// The footer that followed the body, once decoded.
    pub fn footer(&self) -> (f: Option<&CoreFooter>)
        ensures
            f is Some == self.spec_footer() is Some,
            f matches Some(x) ==> self.spec_footer() == Some(core_generations(*x)),
    {
        self.footer.as_ref()
    }

    /// Takes ownership of descriptor `index` of the message's frame.
    pub fn take_fd(&mut self, index: u32) -> (r: Result<F, FrameError>)
        ensures
            index >= old(self).spec_fds().len() ==> r == Err::<F, FrameError>(
                FrameError::InvalidFdIndex { index, count: old(self).spec_fds().len() as usize },
            ) && final(self).spec_fds() == old(self).spec_fds(),
            index < old(self).spec_fds().len() && old(self).spec_fds()[index as int] is None ==> r
                == Err::<F, FrameError>(FrameError::FdAlreadyTaken { index }) && final(self).spec_fds() == old(self).spec_fds(),
            index < old(self).spec_fds().len() && old(self).spec_fds()[index as int] is Some ==> r
                == Ok::<F, FrameError>(old(self).spec_fds()[index as int]->Some_0) && final(self).spec_fds() == old(self).spec_fds().update(index as int, None),
            final(self).spec_opcode() == old(self).spec_opcode(),
            final(self).spec_payload() == old(self).spec_payload(),
            final(self).spec_footer() == old(self).spec_footer(),
    {
        self.fds.take(index)
    }

    /// Decodes a ClientNode event: the body is the first POD of the
    /// payload, and what follows it must be exactly one Core footer, kept
    /// for [`InboundMessage::footer`].
    #[verifier::rlimit(30)]
    pub fn decode_client_node_event(&mut self, limits: Limits) -> (r: Result<Event<F>, MessageError>)
        ensures
            final(self).spec_opcode() == old(self).spec_opcode(),
            final(self).spec_payload() == old(self).spec_payload(),
            r matches Ok(ev) ==> exists|ix: Event<u32>|
                #[trigger] event_accepted(ix, old(self).spec_opcode(), event_payload(ix), limits)
                    && refs_match(fd_refs(ix), old(self).spec_fds()) && ev == resolved(
                    ix,
                    old(self).spec_fds(),
                ) && event_payload(ix).len() <= old(self).spec_payload().len()
                    && old(self).spec_payload().take(event_payload(ix).len() as int)
                    == event_payload(ix) && tail_ok(
                    old(self).spec_payload().skip(event_payload(ix).len() as int),
                    final(self).spec_footer(),
                ),
            forall|ix: Event<u32>|
                #[trigger] event_accepted(ix, old(self).spec_opcode(), event_payload(ix), limits)
                    && refs_match(fd_refs(ix), old(self).spec_fds()) && event_payload(ix).len()
                    <= old(self).spec_payload().len() && old(self).spec_payload().take(
                    event_payload(ix).len() as int,
                ) == event_payload(ix) && (old(self).spec_payload().len() == event_payload(ix).len()
                    || exists|gs: Seq<i64>|
                    footer_encodes(
                        old(self).spec_payload().skip(event_payload(ix).len() as int),
                        gs,
                    )) ==> r is Ok,
            (forall|v: PodValue| pod_wf(v) ==> !#[trigger] pod_prefix(old(self).spec_payload(), v))
                ==> r == Err::<Event<F>, MessageError>(MessageError::BodyNotFound),
    {
        let n = self.payload.len();
        let ghost payload = self.payload@;
        let ghost fds0 = self.fds@;
        let (pod, body_size) = match parse_pod(self.payload.as_slice(), 0, n) {
            Ok(x) => x,
            Err(_) => {
                proof {
                    assert(payload.subrange(0, n as int) =~= payload);
                    assert forall|ix: Event<u32>|
                        #[trigger] event_accepted(ix, self.opcode, event_payload(ix), limits)
                            && event_payload(ix).len() <= payload.len() && payload.take(
                            event_payload(ix).len() as int,
                        ) == event_payload(ix) implies false by {
                        let v = PodValue::Struct(crate::wire::event_fields(ix));
                        assert(pod_prefix(payload.subrange(0, n as int), v));
                    }
                }
                return Err(MessageError::BodyNotFound);
            },
        };
        let ghost body = payload.subrange(0, body_size as int);
        proof {
            assert(payload.take(body_size as int) =~= payload.subrange(0, body_size as int));
            assert(pod_prefix(payload, pod@));
            assert(old(self).spec_payload() == payload);
            assert(pod_prefix(old(self).spec_payload(), pod@));
            assert(!(forall|v: PodValue| pod_wf(v) ==> !#[trigger] pod_prefix(old(self).spec_payload(), v)));
            assert forall|ix: Event<u32>|
                #[trigger] event_accepted(ix, self.opcode, event_payload(ix), limits)
                    && event_payload(ix).len() <= payload.len() && payload.take(
                    event_payload(ix).len() as int,
                ) == event_payload(ix) implies body == event_payload(ix) && event_accepted(
                ix,
                self.opcode,
                body,
                limits,
            ) by {
                lemma_prefix_unique(
                    payload,
                    pod@,
                    body_size as int,
                    PodValue::Struct(crate::wire::event_fields(ix)),
                );
            }
        }
        let body_slice = slice_subrange(self.payload.as_slice(), 0, body_size);
        assert(body_slice@ =~= body);
        let event = match decode_event(
            self.opcode,
            body_slice,
            &mut self.fds,
            limits,
        ) {
            Ok(e) => e,
            Err(e) => {
                proof {
                    assert(old(self).spec_payload() == payload);
                    assert(pod_wf(pod@));
                    assert(pod_prefix(old(self).spec_payload(), pod@));
                }
                return Err(MessageError::Wire(e));
            },
        };
        let ghost rest = payload.skip(body_size as int);
        let mut footer: Option<CoreFooter> = None;
        let mut footer_size: usize = 0;
        if body_size < n {
            let tail = slice_subrange(self.payload.as_slice(), body_size, n);
            proof {
                assert(tail@ =~= rest);
            }
            match CoreFooter::decode(tail) {
                Ok((f, size)) => {
                    proof {
                        assert forall|gs: Seq<i64>| footer_encodes(rest, gs) implies size == rest.len() by {
                            let items = choose|items: Seq<PodValue>|
                                #![trigger footer_generations(items)]
                                pod_wf(PodValue::Struct(items)) && rest == pod_encoding(
                                    PodValue::Struct(items),
                                ) && footer_generations(items) == Some(gs);
                            assert(tail@.take(pod_encoding(PodValue::Struct(items)).len() as int) =~= tail@);
                            assert(pod_prefix(tail@, PodValue::Struct(items)));
                        }
                    }
                    footer = Some(f);
                    footer_size = size;
                },
                Err(e) => {
                    proof {
                        assert(old(self).spec_payload() == payload);
                        assert(pod_wf(pod@));
                        assert(pod_prefix(old(self).spec_payload(), pod@));
                        assert forall|gs: Seq<i64>| !footer_encodes(rest, gs) by {
                            if footer_encodes(rest, gs) {
                                let items = choose|items: Seq<PodValue>|
                                    #![trigger footer_generations(items)]
                                    pod_wf(PodValue::Struct(items)) && rest == pod_encoding(
                                        PodValue::Struct(items),
                                    ) && footer_generations(items) == Some(gs);
                                assert(tail@.take(pod_encoding(PodValue::Struct(items)).len() as int)
                                    =~= tail@);
                                assert(pod_prefix(tail@, PodValue::Struct(items)));
                            }
                        }
                        assert(pod_prefix(payload, pod@));
                    }
                    self.footer = None;
                    return Err(e);
                },
            }
        }
        if body_size + footer_size != n {
            proof {
                assert forall|gs: Seq<i64>| !footer_encodes(rest, gs) by {}
                assert(pod_prefix(payload, pod@));
            }
            return Err(MessageError::TrailingBytes);
        }
        self.footer = footer;
        proof {
            let ix = choose|ix: Event<u32>|
                #[trigger] event_accepted(ix, self.opcode, body, limits) && refs_match(fd_refs(ix), fds0)
                    && event == resolved(ix, fds0);
            assert(body == event_payload(ix));
            assert(event_accepted(ix, self.opcode, event_payload(ix), limits));
            if body_size < n {
                assert(payload.skip(body_size as int).take(footer_size as int) =~= payload.skip(
                    body_size as int,
                ));
            } else {
                assert(payload.skip(body_size as int).len() == 0);
            }
            assert(payload.take(event_payload(ix).len() as int) == event_payload(ix));
            assert(tail_ok(payload.skip(event_payload(ix).len() as int), self.spec_footer()));
            assert(old(self).spec_fds() == fds0);
            assert(old(self).spec_opcode() == self.opcode);
        }
        Ok(event)
    }
}

/// The generation a footer leaves as the last one received: its last
/// generation payload, or `current` when it carries none.
pub open spec fn last_generation(current: i64, gens: Seq<i64>) -> i64 {
    if gens.len() == 0 {
        current
    } else {
        gens.last()
    }
}

/// What a connection keeps between messages about registry generations:
/// the last one the server announced and the last one echoed back.
pub struct Connection {
    last_recv_generation: i64,
    last_sent_generation: i64,
}

impl Connection {
    /// The last registry generation received.
    pub closed spec fn recv_generation(&self) -> i64 {
        self.last_recv_generation
    }

    /// The last generation echoed in a client footer.
    pub closed spec fn sent_generation(&self) -> i64 {
        self.last_sent_generation
    }

    /// A fresh connection: nothing received, nothing echoed.
    pub fn new() -> (c: Self)
        ensures
            c.recv_generation() == 0,
            c.sent_generation() == 0,
    {
        Connection { last_recv_generation: 0, last_sent_generation: 0 }
    }

    /// The last registry generation received.
    pub fn last_recv_generation(&self) -> (g: i64)
        ensures
            g == self.recv_generation(),
    {
        self.last_recv_generation
    }

    /// Records the generations a received Core footer carries; the last
    /// one stays.
    pub fn update_generation(&mut self, footer: Option<&CoreFooter>)
        ensures
            final(self).sent_generation() == old(self).sent_generation(),
            final(self).recv_generation() == match footer {
                Some(f) => last_generation(old(self).recv_generation(), core_generations(*f)),
                None => old(self).recv_generation(),
            },
    {
        if let Some(f) = footer {
            let mut i: usize = 0;
            while i < f.payloads.len()
                invariant
                    i <= f.payloads@.len(),
                    self.last_sent_generation == old(self).sent_generation(),
                    self.last_recv_generation == last_generation(
                        old(self).recv_generation(),
                        core_generations(*f).take(i as int),
                    ),
                decreases f.payloads@.len() - i,
            {
                match f.payloads[i] {
                    CoreFooterPayload::Generation(g) => {
                        self.last_recv_generation = g.registry_generation;
                    },
                }
                i = i + 1;
            }
            assert(core_generations(*f).take(i as int) =~= core_generations(*f));
        }
    }

    /// The footer the next outgoing message carries: the last received
    /// generation when it is newer than the last one echoed, which it
    /// then becomes; else none.
    pub fn outbound_footer(&mut self) -> (r: Option<ClientFooter>)
        ensures
            final(self).recv_generation() == old(self).recv_generation(),
            old(self).recv_generation() > old(self).sent_generation() ==> {
                &&& r matches Some(f) && client_generations(f) == seq![old(self).recv_generation()]
                &&& final(self).sent_generation() == old(self).recv_generation()
            },
            old(self).recv_generation() <= old(self).sent_generation() ==> {
                &&& r is None
                &&& final(self).sent_generation() == old(self).sent_generation()
            },
    {
        if self.last_recv_generation > self.last_sent_generation {
            self.last_sent_generation = self.last_recv_generation;
            let mut f = ClientFooter::new();
            f.push(
                ClientFooterPayload::Generation(
                    ClientGeneration { client_generation: self.last_recv_generation },
                ),
            );
            assert(client_generations(f) =~= seq![self.last_recv_generation]);
            Some(f)
        } else {
            None
        }
    }

    /// Forgets both generations, as when the stream is dropped.
    pub fn disconnect(&mut self)
        ensures
            final(self).recv_generation() == 0,
            final(self).sent_generation() == 0,
    {
        self.last_recv_generation = 0;
        self.last_sent_generation = 0;
    }
}

/// Splits a payload into its body, the first POD, and what follows it:
/// nothing, or exactly one Core footer.
pub fn split_footer(payload: &[u8]) -> (r: Result<(usize, Option<CoreFooter>), MessageError>)
    ensures
        r matches Ok((n, f)) ==> exists|v: PodValue|
            pod_wf(v) && n == pod_encoding(v).len() && #[trigger] pod_prefix(payload@, v) && tail_ok(
                payload@.skip(n as int),
                match f {
                    Some(x) => Some(core_generations(x)),
                    None => None,
                },
            ),
        (forall|v: PodValue| pod_wf(v) ==> !#[trigger] pod_prefix(payload@, v)) ==> r == Err::<
            (usize, Option<CoreFooter>),
            MessageError,
        >(MessageError::BodyNotFound),
        forall|v: PodValue|
            pod_wf(v) && #[trigger] pod_encoding(v) == payload@ ==> r == Ok::<
                (usize, Option<CoreFooter>),
                MessageError,
            >((payload@.len() as usize, None)),
{
    let n = payload.len();
    let (pod, body_size) = match parse_pod(payload, 0, n) {
        Ok(x) => x,
        Err(_) => {
            proof {
                assert(payload@.subrange(0, n as int) =~= payload@);
                assert forall|v: PodValue| pod_wf(v) implies !#[trigger] pod_prefix(payload@, v) by {
                    if pod_prefix(payload@, v) {
                        assert(pod_prefix(payload@.subrange(0, n as int), v));
                    }
                }
                assert forall|v: PodValue| pod_wf(v) implies #[trigger] pod_encoding(v) != payload@ by {
                    if pod_encoding(v) == payload@ {
                        assert(payload@.take(pod_encoding(v).len() as int) =~= payload@);
                        assert(pod_prefix(payload@, v));
                    }
                }
            }
            return Err(MessageError::BodyNotFound);
        },
    };
    proof {
        assert(payload@.take(body_size as int) =~= payload@.subrange(0, body_size as int));
        assert(pod_prefix(payload@, pod@));
        assert forall|v: PodValue| pod_wf(v) && #[trigger] pod_encoding(v) == payload@ implies body_size == n by {
            assert(payload@ =~= pod_encoding(pod@) + payload@.skip(body_size as int));
            assert(payload@ =~= pod_encoding(v) + Seq::<u8>::empty());
            crate::pod::lemma_pod_unique(pod@, v, payload@.skip(body_size as int), Seq::<u8>::empty());
        }
    }
    if body_size == n {
        proof {
            assert(payload@.skip(n as int).len() == 0);
        }
        return Ok((body_size, None));
    }
    let tail = slice_subrange(payload, body_size, n);
    assert(tail@ =~= payload@.skip(body_size as int));
    let (f, size) = match CoreFooter::decode(tail) {
        Ok(x) => x,
        Err(e) => {
            return Err(e);
        },
    };
    if size != tail.len() {
        return Err(MessageError::TrailingBytes);
    }
    proof {
        assert(tail@.take(size as int) =~= tail@);
    }
    Ok((body_size, Some(f)))
}

/// The kind of object a client holds a proxy for.
#[derive(Clone, Copy, Debug, PartialEq, Eq, Structural)]
pub enum ProxyKind {
    Core,
    /// Any other interface; its events are handed on undecoded.
    Other(u32),
}

/// Why a routed frame was refused: its payload has no body or a bad
/// footer, or its Core event does not decode.
#[derive(Clone, Copy, Debug, PartialEq, Eq, Structural)]
pub enum RouteError {
    Frame(MessageError),
    Event(crate::server::MessageError),
}

/// What routing one inbound frame gave. The frame's descriptors go with
/// an event that is handed on, and are dropped with one that is not.
pub enum Routed<F> {
    /// No proxy holds the object: the frame and its descriptors are dropped.
    Ignored,
    /// A Core event, with the frame's descriptors.
    Core(crate::server::CoreEvent, FrameFds<F>),
    /// An event of an opcode the Core does not send, skipped.
    Unsupported { opcode: u8 },
    /// An event for another proxy: its object, kind, opcode, body length
    /// and descriptors.
    Other { object_id: u32, kind: ProxyKind, opcode: u8, body_len: usize, fds: FrameFds<F> },
}

/// The body of `payload` ends at `n`, and the generation went from
/// `before` to `after` by what the Core footer after the body carries,
/// or stayed where no footer follows.
pub open spec fn footer_applied(payload: Seq<u8>, n: int, before: i64, after: i64) -> bool {
    &&& 0 <= n <= payload.len()
    &&& n == payload.len() ==> after == before
    &&& n < payload.len() ==> exists|gs: Seq<i64>|
        footer_encodes(payload.skip(n), gs) && after == last_generation(before, gs)
}

/// The kind of the proxy `id` in `objects`, the first entry for it.
pub open spec fn kind_of(objects: Seq<(u32, ProxyKind)>, id: u32) -> Option<ProxyKind>
    decreases objects.len(),
{
    if objects.len() == 0 {
        None
    } else if objects[0].0 == id {
        Some(objects[0].1)
    } else {
        kind_of(objects.drop_first(), id)
    }
}

/// A client's view of its connection: the proxies it holds, the sequence
/// number of the last message handled, and the footer generations.
pub struct ClientRouter {
    objects: Vec<(u32, ProxyKind)>,
    last_in_seq: u32,
    connection: Connection,
}

impl ClientRouter {
    pub closed spec fn spec_objects(&self) -> Seq<(u32, ProxyKind)> {
        self.objects@
    }

    pub closed spec fn spec_last_in_seq(&self) -> u32 {
        self.last_in_seq
    }

    pub closed spec fn spec_recv_generation(&self) -> i64 {
        self.connection.recv_generation()
    }

    /// A router holding only the Core proxy (object 0).
    pub fn new() -> (r: Self)
        ensures
            r.spec_objects() == seq![(0u32, ProxyKind::Core)],
            r.spec_last_in_seq() == 0,
            r.spec_recv_generation() == 0,
    {
        let mut objects: Vec<(u32, ProxyKind)> = Vec::new();
        objects.push((0, ProxyKind::Core));
        ClientRouter { objects, last_in_seq: 0, connection: Connection::new() }
    }

    /// Registers a proxy; it takes precedence over an earlier one of the id.
    pub fn add_proxy(&mut self, id: u32, kind: ProxyKind)
        ensures
            final(self).spec_objects() == seq![(id, kind)] + old(self).spec_objects(),
            final(self).spec_last_in_seq() == old(self).spec_last_in_seq(),
            final(self).spec_recv_generation() == old(self).spec_recv_generation(),
    {
        self.objects.insert(0, (id, kind));
        assert(self.objects@ =~= seq![(id, kind)] + old(self).objects@);
    }

    /// The sequence number of the last message handled.
    pub fn last_in_seq(&self) -> (s: u32)
        ensures
            s == self.spec_last_in_seq(),
    {
        self.last_in_seq
    }

    /// The last registry generation a footer announced.
    pub fn last_recv_generation(&self) -> (g: i64)
        ensures
            g == self.spec_recv_generation(),
    {
        self.connection.last_recv_generation()
    }

    fn lookup(&self, id: u32) -> (r: Option<ProxyKind>)
        ensures
            r == kind_of(self.spec_objects(), id),
    {
        let n = self.objects.len();
        let mut i: usize = 0;
        assert(self.objects@.skip(0) =~= self.objects@);
        while i < n
            invariant
                n == self.objects@.len(),
                i <= n,
                kind_of(self.objects@, id) == kind_of(self.objects@.skip(i as int), id),
            decreases n - i,
        {
            assert(self.objects@.skip(i as int).drop_first() =~= self.objects@.skip(i + 1));
            if self.objects[i].0 == id {
                return Some(self.objects[i].1);
            }
            i = i + 1;
        }
        assert(self.objects@.skip(n as int).len() == 0);
        None
    }

    /// Routes one inbound frame. A frame for no proxy is dropped with its
    /// descriptors and changes nothing. Otherwise the body is the first POD
    /// of the payload and a Core footer may follow it. A Core event is
    /// decoded; the generations of the footer after a body that is handed
    /// on are recorded; and the frame's sequence number becomes the last
    /// handled, also for an opcode the Core does not send. A refused frame
    /// changes nothing.
    pub fn route_frame<F>(
        &mut self,
        object_id: u32,
        opcode: u8,
        seq: u32,
        payload: &[u8],
        fds: FrameFds<F>,
    ) -> (r: Result<Routed<F>, RouteError>)
        ensures
            kind_of(old(self).spec_objects(), object_id) is None ==> {
                &&& r matches Ok(Routed::Ignored)
                &&& *final(self) == *old(self)
            },
            final(self).spec_objects() == old(self).spec_objects(),
            r is Err ==> final(self).spec_last_in_seq() == old(self).spec_last_in_seq()
                && final(self).spec_recv_generation() == old(self).spec_recv_generation(),
            r is Ok && kind_of(old(self).spec_objects(), object_id) is Some ==> final(self).spec_last_in_seq() == seq,
            kind_of(old(self).spec_objects(), object_id) == Some(ProxyKind::Core) && opcode
                > crate::server::CORE_EVENT_BOUND_PROPS ==> (r matches Ok(Routed::Unsupported { opcode: o }) && o
                == opcode),
            r matches Ok(Routed::Core(e, kept)) ==> (kind_of(old(self).spec_objects(), object_id) == Some(ProxyKind::Core)
                && kept@ == fds@ && exists|n: int|
                #[trigger] crate::server::core_event_accepted(e, opcode, payload@.take(n)) && footer_applied(
                    payload@,
                    n,
                    old(self).spec_recv_generation(),
                    final(self).spec_recv_generation(),
                )),
            kind_of(old(self).spec_objects(), object_id) is Some && !(kind_of(old(self).spec_objects(), object_id)
                == Some(ProxyKind::Core) && opcode > crate::server::CORE_EVENT_BOUND_PROPS) && (forall|v: PodValue|
                pod_wf(v) ==> !#[trigger] pod_prefix(payload@, v)) ==> r == Err::<Routed<F>, RouteError>(
                RouteError::Frame(MessageError::BodyNotFound),
            ),
            kind_of(old(self).spec_objects(), object_id) matches Some(ProxyKind::Other(_)) && (exists|v: PodValue|
                pod_wf(v) && #[trigger] pod_encoding(v) == payload@) ==> r matches Ok(Routed::Other { .. }),
            kind_of(old(self).spec_objects(), object_id) == Some(ProxyKind::Core) && opcode
                <= crate::server::CORE_EVENT_BOUND_PROPS && (exists|v: PodValue|
                pod_wf(v) && #[trigger] pod_encoding(v) == payload@) && (exists|ev: crate::server::CoreEvent|
                #[trigger] crate::server::core_event_accepted(ev, opcode, payload@)) ==> r matches Ok(
                Routed::Core(..),
            ),
            r matches Err(RouteError::Event(e)) ==> {
                &&& kind_of(old(self).spec_objects(), object_id) == Some(ProxyKind::Core)
                &&& opcode <= crate::server::CORE_EVENT_BOUND_PROPS
                &&& e == crate::server::MessageError::InvalidPayload
                &&& exists|v: PodValue|
                    pod_wf(v) && #[trigger] pod_prefix(payload@, v) && forall|ev: crate::server::CoreEvent|
                        !#[trigger] crate::server::core_event_accepted(ev, opcode, payload@.take(pod_encoding(v).len() as int))
            },
            r matches Ok(Routed::Other { object_id: o, kind, opcode: c, body_len, fds: kept }) ==> o == object_id
                && c == opcode && kept@ == fds@ && kind_of(old(self).spec_objects(), object_id) == Some(kind)
                && kind != ProxyKind::Core && footer_applied(
                payload@,
                body_len as int,
                old(self).spec_recv_generation(),
                final(self).spec_recv_generation(),
            ),
    {
        let kind = match self.lookup(object_id) {
            None => {
                return Ok(Routed::Ignored);
            },
            Some(k) => k,
        };
        let (body_len, footer) = match split_footer(payload) {
            Ok(x) => x,
            Err(e) => {
                if kind == ProxyKind::Core && opcode > crate::server::CORE_EVENT_BOUND_PROPS {
                    self.last_in_seq = seq;
                    return Ok(Routed::Unsupported { opcode });
                }
                return Err(RouteError::Frame(e));
            },
        };
        let routed = match kind {
            ProxyKind::Core => {
                if opcode > crate::server::CORE_EVENT_BOUND_PROPS {
                    Routed::Unsupported { opcode }
                } else {
                    let body = slice_subrange(payload, 0, body_len);
                    match crate::server::decode_core_event(opcode, body) {
                        Ok(e) => {
                            assert(body@ =~= payload@.take(body_len as int));
                            Routed::Core(e, fds)
                        },
                        Err(e) => {
                            proof {
                                if exists|v: PodValue| pod_wf(v) && #[trigger] pod_encoding(v) == payload@ {
                                    let v = choose|v: PodValue| pod_wf(v) && #[trigger] pod_encoding(v) == payload@;
                                    assert(body_len == payload@.len());
                                    assert(body@ =~= payload@);
                                }
                            }
                            return Err(RouteError::Event(e));
                        },
                    }
                }
            },
            ProxyKind::Other(_) => Routed::Other { object_id, kind, opcode, body_len, fds },
        };
        let ghost gen0 = self.connection.recv_generation();
        let applies = match &routed {
            Routed::Unsupported { .. } => false,
            _ => true,
        };
        if applies {
            match &footer {
                Some(f) => {
                    self.connection.update_generation(Some(f));
                },
                None => {},
            }
        }
        self.last_in_seq = seq;
        proof {
            if applies {
                let n = body_len as int;
                let rest = payload@.skip(n);
                let gen1 = self.connection.recv_generation();
                match footer {
                    Some(f) => {
                        let gs = core_generations(f);
                        assert(footer_encodes(rest, gs));
                        if n == payload@.len() {
                            assert(rest.len() == 0);
                            let items = choose|items: Seq<PodValue>|
                                #![trigger footer_generations(items)]
                                pod_wf(PodValue::Struct(items)) && rest == pod_encoding(PodValue::Struct(items))
                                    && footer_generations(items) == Some(gs);
                            crate::pod::lemma_framed_len(
                                crate::pod::pod_type(PodValue::Struct(items)),
                                crate::pod::pod_body(PodValue::Struct(items)),
                            );
                        }
                        assert(footer_encodes(rest, gs) && gen1 == last_generation(gen0, gs));
                    },
                    None => {
                        assert(rest.len() == 0);
                    },
                }
                assert(footer_applied(payload@, n, old(self).spec_recv_generation(), self.spec_recv_generation()));
                if routed is Core {
                    let ev = routed->Core_0;
                    assert(crate::server::core_event_accepted(ev, opcode, payload@.take(n)));
                }
            }
        }
        routed_ok(routed)
    }
}

fn routed_ok<F>(r: Routed<F>) -> (o: Result<Routed<F>, RouteError>)
    ensures
        o == Ok::<Routed<F>, RouteError>(r),
{
    Ok(r)
}

} // verus!

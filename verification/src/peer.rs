//! Downstream activation generations, visited in node-id order.

use vstd::prelude::*;

use crate::activation::{
    decremented, pending_of, transition_result, view_refusal, with_status, ActivationError,
    ActivationStatus, ActivationView, TriggerOutcome,
};
use crate::activation_abi as abi;
use crate::config::{NodeId, PeerActivationDescriptor, RegionRef};
use crate::error::SessionError;
use crate::memory::{
    field_of, store_field, writes_view, MappedRange, MemoryInterval, MemoryKey, MemoryMapping,
    MemoryResolver, RecordStep, RecordWrite,
};
use crate::record::with_u64;

verus! {

/// What decrementing the pending count of an image `b` of a peer record
/// mapped at `address` gives: the peer still waits, became TRIGGERED, or
/// the failure.
pub open spec fn trigger_outcome(address: usize, b: Seq<u8>) -> Result<TriggerOutcome, ActivationError> {
    match view_refusal(address, b) {
        Some(e) => Err(e),
        None => if pending_of(b) <= 0 {
            Err(ActivationError::InvalidPending(pending_of(b)))
        } else if pending_of(b) > 1 {
            Ok(TriggerOutcome::Waiting((pending_of(b) - 1) as i32))
        } else {
            match transition_result(decremented(b), ActivationStatus::NotTriggered) {
                Ok(_) => Ok(TriggerOutcome::Triggered),
                Err(e) => Err(e),
            }
        },
    }
}

/// The stores of triggering an image `b` at `now`: the decremented
/// pending count, and once the count reaches zero and the peer becomes
/// TRIGGERED, its status and signal time.
pub open spec fn trigger_writes(address: usize, b: Seq<u8>, now: u64) -> Seq<(int, Seq<u8>)> {
    if view_refusal(address, b) is Some || pending_of(b) <= 0 {
        Seq::empty()
    } else if pending_of(b) > 1 {
        seq![field_of(decremented(b), abi::STATE0_PENDING as int, 4)]
    } else {
        let d = decremented(b);
        match transition_result(d, ActivationStatus::NotTriggered) {
            Ok(_) => {
                let a = with_u64(with_status(d, ActivationStatus::Triggered), abi::SIGNAL_TIME as int, now);
                seq![
                    field_of(a, abi::STATE0_PENDING as int, 4),
                    field_of(a, abi::STATUS as int, 4),
                    field_of(a, abi::SIGNAL_TIME as int, 8),
                ]
            },
            Err(ActivationError::InvalidPending(_)) => Seq::empty(),
            Err(_) => seq![field_of(d, abi::STATE0_PENDING as int, 4)],
        }
    }
}

/// One exact downstream activation generation. Its record lives in memory
/// shared with the peer, so each trigger reads a fresh image of it.
pub struct PeerActivation<F> {
    node: NodeId,
    generation: u64,
    signal: F,
    key: MemoryKey,
    mapping: MemoryMapping,
}

impl<F> PeerActivation<F> {
    pub closed spec fn wf(&self) -> bool {
        &&& self.mapping.range.offset + self.mapping.range.len <= usize::MAX
        &&& self.mapping.range.key == self.key
    }

    pub closed spec fn spec_node(&self) -> NodeId {
        self.node
    }

    pub closed spec fn spec_generation(&self) -> u64 {
        self.generation
    }

    pub closed spec fn spec_key(&self) -> MemoryKey {
        self.key
    }

    pub closed spec fn spec_interval(&self) -> MemoryInterval {
        self.mapping.range.spec_interval()
    }

    /// This generation maps exactly the activation region `a`.
    pub open spec fn bound_from(&self, a: RegionRef) -> bool {
        &&& self.spec_key().id == a.memory
        &&& self.spec_interval().start == a.offset
        &&& self.spec_interval().end == a.offset + a.len
    }

    /// Address the peer record is mapped at.
    pub closed spec fn spec_address(&self) -> usize {
        self.mapping.address
    }

    /// The eventfd that wakes the peer.
    pub closed spec fn spec_signal(&self) -> F {
        self.signal
    }

    /// Bytes in the peer mapping.
    pub closed spec fn spec_len(&self) -> nat {
        self.mapping.range.len as nat
    }

    /// Maps and checks a candidate peer before installation.
    pub fn bind<R: MemoryResolver>(
        generation: u64,
        descriptor: PeerActivationDescriptor<F>,
        memory: &R,
    ) -> (r: Result<Self, SessionError>)
        ensures
            r matches Ok(p) ==> {
                &&& p.wf()
                &&& p.spec_node() == descriptor.node
                &&& p.spec_generation() == generation
                &&& p.bound_from(descriptor.activation)
                &&& p.spec_signal() == descriptor.signal_fd
            },
            r matches Err(e) ==> e is Memory || e is Activation,
            r is Ok ==> descriptor.activation.len >= crate::activation_abi::SIZE,
    {
        let key = match memory.resolve(descriptor.activation.memory) {
            Ok(k) => k,
            Err(e) => {
                return Err(SessionError::Memory(e));
            },
        };
        let mapping = match memory.map(
            key,
            descriptor.activation.offset,
            descriptor.activation.len,
            true,
        ) {
            Ok(m) => m,
            Err(e) => {
                return Err(SessionError::Memory(e));
            },
        };
        let image = memory.read(&mapping);
        match ActivationView::from_raw_parts(mapping.address, image) {
            Ok(_) => {},
            Err(e) => {
                return Err(SessionError::Activation(e));
            },
        }
        Ok(
            PeerActivation {
                node: descriptor.node,
                generation,
                signal: descriptor.signal_fd,
                key,
                mapping,
            },
        )
    }

    /// Downstream node identity.
    pub fn node(&self) -> (n: NodeId)
        ensures
            n == self.spec_node(),
    {
        self.node
    }

    /// Generation assigned by the owning session.
    pub fn generation(&self) -> (g: u64)
        ensures
            g == self.spec_generation(),
    {
        self.generation
    }

    /// Exact imported activation generation.
    pub fn memory_key(&self) -> (k: MemoryKey)
        ensures
            k == self.spec_key(),
    {
        self.key
    }

    /// The mapped activation as an absolute interval.
    pub fn interval(&self) -> (i: MemoryInterval)
        requires
            self.wf(),
        ensures
            i == self.spec_interval(),
    {
        self.mapping.interval()
    }

    /// The checked range of the activation mapping.
    pub fn range(&self) -> (r: MappedRange)
        ensures
            r.spec_interval() == self.spec_interval(),
    {
        self.mapping.range
    }

    /// The activation mapping.
    pub fn mapping(&self) -> (m: &MemoryMapping)
        ensures
            m.range.spec_interval() == self.spec_interval(),
            m.address == self.spec_address(),
    {
        &self.mapping
    }

    /// The downstream wake eventfd.
    pub fn signal_fd(&self) -> (f: &F)
        ensures
            *f == self.spec_signal(),
    {
        &self.signal
    }

    /// Decrements the peer's pending count; at zero the peer becomes
    /// TRIGGERED and must then be signalled. Only the fields the step wrote
    /// are stored back.
    pub fn trigger<R: MemoryResolver>(&self, memory: &R, now_ns: u64) -> (r: (Result<
        TriggerOutcome,
        ActivationError,
    >, RecordStep))
        ensures
            self.triggered_by(r.1, now_ns),
            r.0 == trigger_outcome(self.spec_address(), r.1.image@),
    {
        let read = memory.read(&self.mapping);
        let image = read.clone();
        let ghost b = image@;
        let mut writes: Vec<RecordWrite> = Vec::new();
        let r = match ActivationView::from_raw_parts(self.mapping.address, read) {
            Err(e) => Err(e),
            Ok(view) => {
                let mut view = view;
                let outcome = view.decrement_pending_and_trigger(now_ns);
                match outcome {
                    Err(ActivationError::InvalidPending(_)) => {},
                    Ok(TriggerOutcome::Triggered) => {
                        writes.push(store_field(memory, &self.mapping, view.bytes(), abi::STATE0_PENDING, 4));
                        writes.push(store_field(memory, &self.mapping, view.bytes(), abi::STATUS, 4));
                        writes.push(store_field(memory, &self.mapping, view.bytes(), abi::SIGNAL_TIME, 8));
                    },
                    _ => {
                        writes.push(store_field(memory, &self.mapping, view.bytes(), abi::STATE0_PENDING, 4));
                    },
                }
                outcome
            },
        };
        assert(r == trigger_outcome(self.spec_address(), b));
        assert(writes_view(writes@) =~= trigger_writes(self.spec_address(), b, now_ns));
        (r, RecordStep { image, writes })
    }

    /// `step` is one trigger of this peer at `now`: an image of its record,
    /// and exactly the stores the trigger makes over it.
    pub open spec fn triggered_by(&self, step: RecordStep, now: u64) -> bool {
        &&& step.image@.len() == self.spec_len()
        &&& writes_view(step.writes@) == trigger_writes(self.spec_address(), step.image@, now)
    }
}

/// The nodes of `peers` whose trigger gave `Triggered` in `outs`, the
/// outcomes of the first `outs.len()` peers, in order.
pub open spec fn triggered_nodes<F>(
    peers: Seq<PeerActivation<F>>,
    outs: Seq<Result<TriggerOutcome, ActivationError>>,
) -> Seq<NodeId>
    decreases outs.len(),
{
    if outs.len() == 0 {
        Seq::empty()
    } else {
        let rest = triggered_nodes(peers, outs.drop_last());
        if outs.last() == Ok::<TriggerOutcome, ActivationError>(TriggerOutcome::Triggered) {
            rest.push(peers[outs.len() - 1].spec_node())
        } else {
            rest
        }
    }
}

/// The first failed trigger among the outcomes `outs` of the first peers.
pub open spec fn first_failure<F>(
    peers: Seq<PeerActivation<F>>,
    outs: Seq<Result<TriggerOutcome, ActivationError>>,
) -> Result<(), SessionError>
    decreases outs.len(),
{
    if outs.len() == 0 {
        Ok(())
    } else {
        let prev = first_failure(peers, outs.drop_last());
        if prev is Err {
            prev
        } else {
            match outs.last() {
                Err(e) => Err(SessionError::PeerTrigger { peer: peers[outs.len() - 1].spec_node(), source: e }),
                Ok(_) => Ok(()),
            }
        }
    }
}

/// `out` is what triggering `p` can give, for some image of its record.
pub open spec fn possible_trigger<F>(p: PeerActivation<F>, out: Result<TriggerOutcome, ActivationError>) -> bool {
    exists|b: Seq<u8>| b.len() == p.spec_len() && out == #[trigger] trigger_outcome(p.spec_address(), b)
}

/// What triggering each peer gave, from the image its step read.
pub open spec fn trigger_outcomes<F>(peers: Seq<PeerActivation<F>>, steps: Seq<RecordStep>) -> Seq<
    Result<TriggerOutcome, ActivationError>,
> {
    Seq::new(steps.len(), |i: int| trigger_outcome(peers[i].spec_address(), steps[i].image@))
}

/// Each peer was triggered once, in order, by its step in `steps`; the
/// nodes to signal and the first failure are exactly what those images
/// give.
pub open spec fn triggered_all<F>(
    peers: Seq<PeerActivation<F>>,
    steps: Seq<RecordStep>,
    now: u64,
    signals: Seq<NodeId>,
    result: Result<(), SessionError>,
) -> bool {
    &&& steps.len() == peers.len()
    &&& forall|i: int| 0 <= i < steps.len() ==> peers[i].triggered_by(#[trigger] steps[i], now)
    &&& signals == triggered_nodes(peers, trigger_outcomes(peers, steps))
    &&& result == first_failure(peers, trigger_outcomes(peers, steps))
}

/// Triggering each of `peers` once, in order, can give the nodes to
/// signal `signals` and the first failure `result`.
pub open spec fn propagated<F>(
    peers: Seq<PeerActivation<F>>,
    signals: Seq<NodeId>,
    result: Result<(), SessionError>,
) -> bool {
    exists|outs: Seq<Result<TriggerOutcome, ActivationError>>|
        {
            &&& outs.len() == peers.len()
            &&& forall|i: int| 0 <= i < outs.len() ==> possible_trigger(peers[i], #[trigger] outs[i])
            &&& signals == triggered_nodes(peers, outs)
            &&& result == first_failure(peers, outs)
        }
}

/// Some of the first `bound` peers of `s` is the one of `node`.
pub open spec fn among<F>(s: Seq<PeerActivation<F>>, bound: int, node: NodeId) -> bool {
    exists|k: int| 0 <= k < bound && (#[trigger] s[k]).spec_node() == node
}

/// Peer activations in strictly increasing node-id order.
pub struct PeerSet<F> {
    by_node: Vec<PeerActivation<F>>,
}

/// `s` is sorted by node id without repetition.
pub open spec fn sorted_nodes<F>(s: Seq<PeerActivation<F>>) -> bool {
    forall|i: int, j: int|
        0 <= i < j < s.len() ==> (#[trigger] s[i]).spec_node().0 < (#[trigger] s[j]).spec_node().0
}

impl<F> PeerSet<F> {
    pub closed spec fn spec_peers(&self) -> Seq<PeerActivation<F>> {
        self.by_node@
    }

    pub open spec fn wf(&self) -> bool {
        &&& sorted_nodes(self.spec_peers())
        &&& forall|i: int| 0 <= i < self.spec_peers().len() ==> (#[trigger] self.spec_peers()[i]).wf()
    }

    pub open spec fn has_node(&self, node: NodeId) -> bool {
        exists|i: int| 0 <= i < self.spec_peers().len() && (#[trigger] self.spec_peers()[i]).spec_node() == node
    }

    /// The peer of `node` maps exactly the activation region `a`.
    pub open spec fn binds(&self, node: NodeId, a: RegionRef) -> bool {
        exists|i: int|
            0 <= i < self.spec_peers().len() && (#[trigger] self.spec_peers()[i]).spec_node() == node
                && self.spec_peers()[i].bound_from(a)
    }

    /// An empty set.
    pub fn new() -> (s: Self)
        ensures
            s.wf(),
            s.spec_peers().len() == 0,
    {
        PeerSet { by_node: Vec::new() }
    }

    /// Installs a checked generation, replacing the one of the same node.
    pub fn insert(&mut self, peer: PeerActivation<F>) -> (r: Option<PeerActivation<F>>)
        requires
            old(self).wf(),
            peer.wf(),
        ensures
            final(self).wf(),
            final(self).spec_peers().contains(peer),
            forall|i: int|
                0 <= i < final(self).spec_peers().len() ==> #[trigger] final(self).spec_peers()[i]
                    == peer || (final(self).spec_peers()[i].spec_node() != peer.spec_node() && old(
                    self).spec_peers().contains(final(self).spec_peers()[i])),
            forall|j: int|
                0 <= j < old(self).spec_peers().len() && (#[trigger] old(self).spec_peers()[j]).spec_node()
                    != peer.spec_node() ==> final(self).spec_peers().contains(old(self).spec_peers()[j]),
    {
        let n = self.by_node.len();
        let mut i: usize = 0;
        while i < n && self.by_node[i].node.0 < peer.node.0
            invariant
                n == self.by_node@.len(),
                i <= n,
                self == old(self),
                forall|k: int| 0 <= k < i ==> (#[trigger] self.by_node@[k]).node.0 < peer.node.0,
            decreases n - i,
        {
            i = i + 1;
        }
        let ghost before = self.by_node@;
        if i < n && self.by_node[i].node.0 == peer.node.0 {
            let previous = self.by_node.remove(i);
            self.by_node.insert(i, peer);
            proof {
                assert(self.by_node@ == before.update(i as int, peer));
                assert forall|j: int|
                    0 <= j < before.len() && (#[trigger] before[j]).spec_node() != peer.spec_node()
                        implies self.by_node@.contains(before[j]) by {
                    assert(j != i);
                    assert(self.by_node@[j] == before[j]);
                }
                assert forall|k: int|
                    0 <= k < self.by_node@.len() && k != i implies before.contains(
                    #[trigger] self.by_node@[k]) by {
                    assert(self.by_node@[k] == before[k]);
                }
                assert(self.by_node@[i as int] == peer);
            }
            Some(previous)
        } else {
            self.by_node.insert(i, peer);
            proof {
                assert(self.by_node@ == before.insert(i as int, peer));
                assert forall|j: int|
                    0 <= j < before.len() && (#[trigger] before[j]).spec_node() != peer.spec_node()
                        implies self.by_node@.contains(before[j]) by {
                    if j < i {
                        assert(self.by_node@[j] == before[j]);
                    } else {
                        assert(self.by_node@[j + 1] == before[j]);
                    }
                }
                assert forall|k: int|
                    0 <= k < self.by_node@.len() && k != i implies before.contains(
                    #[trigger] self.by_node@[k]) by {
                    if k < i {
                        assert(self.by_node@[k] == before[k]);
                    } else {
                        assert(self.by_node@[k] == before[k - 1]);
                    }
                }
                assert(self.by_node@[i as int] == peer);
            }
            None
        }
    }

    /// Removes one downstream node, if it is present.
    pub fn remove(&mut self, node: NodeId) -> (r: Option<PeerActivation<F>>)
        requires
            old(self).wf(),
        ensures
            final(self).wf(),
            !final(self).has_node(node),
            forall|i: int|
                0 <= i < final(self).spec_peers().len() ==> old(self).spec_peers().contains(
                    #[trigger] final(self).spec_peers()[i],
                ),
            forall|j: int|
                0 <= j < old(self).spec_peers().len() && (#[trigger] old(self).spec_peers()[j]).spec_node()
                    != node ==> final(self).spec_peers().contains(old(self).spec_peers()[j]),
            r is Some <==> old(self).has_node(node),
    {
        let n = self.by_node.len();
        let mut i: usize = 0;
        while i < n && self.by_node[i].node.0 != node.0
            invariant
                n == self.by_node@.len(),
                i <= n,
                self == old(self),
                forall|k: int| 0 <= k < i ==> (#[trigger] self.by_node@[k]).node.0 != node.0,
            decreases n - i,
        {
            i = i + 1;
        }
        if i == n {
            return None;
        }
        let ghost before = self.by_node@;
        let removed = self.by_node.remove(i);
        proof {
            assert forall|k: int| 0 <= k < self.by_node@.len() implies before.contains(
                #[trigger] self.by_node@[k]) by {
                if k < i {
                    assert(self.by_node@[k] == before[k]);
                } else {
                    assert(self.by_node@[k] == before[k + 1]);
                }
            }
            assert forall|j: int|
                0 <= j < before.len() && (#[trigger] before[j]).spec_node() != node implies self.by_node@.contains(
                before[j]) by {
                if j < i {
                    assert(self.by_node@[j] == before[j]);
                } else {
                    assert(self.by_node@[j - 1] == before[j]);
                }
            }
            if self.has_node(node) {
                let k = choose|k: int| 0 <= k < self.by_node@.len() && (#[trigger] self.by_node@[k]).spec_node() == node;
                if k < i {
                    assert(before[k] == self.by_node@[k]);
                } else {
                    assert(before[k + 1] == self.by_node@[k]);
                }
            }
        }
        Some(removed)
    }

    /// Number of peers.
    pub fn len(&self) -> (n: usize)
        ensures
            n == self.spec_peers().len(),
    {
        self.by_node.len()
    }

    /// Whether no peer is configured.
    pub fn is_empty(&self) -> (b: bool)
        ensures
            b == (self.spec_peers().len() == 0),
    {
        self.by_node.len() == 0
    }

    /// Whether `node` has a peer.
    pub fn contains(&self, node: NodeId) -> (b: bool)
        ensures
            b == self.has_node(node),
    {
        let n = self.by_node.len();
        let mut i: usize = 0;
        while i < n
            invariant
                n == self.by_node@.len(),
                i <= n,
                forall|k: int| 0 <= k < i ==> (#[trigger] self.by_node@[k]).node != node,
            decreases n - i,
        {
            if self.by_node[i].node.0 == node.0 {
                assert(self.spec_peers()[i as int].spec_node() == node);
                return true;
            }
            i = i + 1;
        }
        false
    }

    /// The peer of `node`, if there is one.
    pub fn get(&self, node: NodeId) -> (r: Option<&PeerActivation<F>>)
        ensures
            r matches Some(p) ==> p.spec_node() == node && self.spec_peers().contains(*p),
            r is None ==> !self.has_node(node),
    {
        let n = self.by_node.len();
        let mut i: usize = 0;
        while i < n
            invariant
                n == self.by_node@.len(),
                i <= n,
                forall|k: int| 0 <= k < i ==> (#[trigger] self.by_node@[k]).node != node,
            decreases n - i,
        {
            if self.by_node[i].node.0 == node.0 {
                return Some(&self.by_node[i]);
            }
            i = i + 1;
        }
        None
    }

    /// The peers in node-id order.
    pub fn peers(&self) -> (s: &Vec<PeerActivation<F>>)
        ensures
            s@ == self.spec_peers(),
    {
        &self.by_node
    }

    /// Triggers every peer in node-id order, also after a failure. Returns
    /// the nodes that became TRIGGERED, in node-id order, which must be
    /// signalled, the first failure, and what each trigger read and stored.
    pub fn trigger_all<R: MemoryResolver>(&self, memory: &R, now_ns: u64) -> (r: (
        Vec<NodeId>,
        Result<(), SessionError>,
        Vec<RecordStep>,
    ))
        requires
            self.wf(),
        ensures
            triggered_all(self.spec_peers(), r.2@, now_ns, r.0@, r.1),
            r.0@.len() <= self.spec_peers().len(),
            forall|i: int| 0 <= i < r.0@.len() ==> self.has_node(#[trigger] r.0@[i]),
            forall|i: int, j: int| 0 <= i < j < r.0@.len() ==> (#[trigger] r.0@[i]).0 < (#[trigger] r.0@[j]).0,
            r.1 matches Err(e) ==> e is PeerTrigger,
            propagated(self.spec_peers(), r.0@, r.1),
    {
        let n = self.by_node.len();
        let mut signals: Vec<NodeId> = Vec::new();
        let mut first: Result<(), SessionError> = Ok(());
        let mut i: usize = 0;
        let ghost mut outs: Seq<Result<TriggerOutcome, ActivationError>> = Seq::empty();
        let mut steps: Vec<RecordStep> = Vec::new();
        while i < n
            invariant
                n == self.spec_peers().len(),
                i <= n,
                outs.len() == i,
                steps@.len() == i,
                forall|j: int|
                    0 <= j < i ==> self.spec_peers()[j].triggered_by(#[trigger] steps@[j], now_ns) && outs[j]
                        == trigger_outcome(self.spec_peers()[j].spec_address(), steps@[j].image@),
                forall|j: int| 0 <= j < i ==> possible_trigger(self.spec_peers()[j], #[trigger] outs[j]),
                signals@ == triggered_nodes(self.spec_peers(), outs),
                first == first_failure(self.spec_peers(), outs),
                self.wf(),
                signals@.len() <= i,
                forall|a: int| 0 <= a < signals@.len() ==> among(self.spec_peers(), i as int, #[trigger] signals@[a]),
                forall|a: int, c: int| 0 <= a < c < signals@.len() ==> (#[trigger] signals@[a]).0 < (#[trigger] signals@[c]).0,
                first matches Err(e) ==> e is PeerTrigger,
            decreases n - i,
        {
            let peer = &self.by_node[i];
            let node = peer.node;
            let (outcome, step) = peer.trigger(memory, now_ns);
            let ghost prev = outs;
            let ghost prev_steps = steps@;
            proof {
                outs = outs.push(outcome);
                assert(outs.drop_last() =~= prev);
                assert(outs.last() == outcome);
                assert(possible_trigger(self.spec_peers()[i as int], outs[i as int]));
            }
            steps.push(step);
            proof {
                assert forall|j: int|
                    0 <= j < i + 1 implies self.spec_peers()[j].triggered_by(#[trigger] steps@[j], now_ns) && outs[j]
                        == trigger_outcome(self.spec_peers()[j].spec_address(), steps@[j].image@) by {
                    if j < i {
                        assert(steps@[j] == prev_steps[j]);
                        assert(outs[j] == prev[j]);
                    }
                }
            }
            match outcome {
                Ok(TriggerOutcome::Triggered) => {
                    let ghost before = signals@;
                    proof {
                        assert forall|a: int| 0 <= a < before.len() implies (#[trigger] before[a]).0 < node.0 by {
                            assert(among(self.spec_peers(), i as int, before[a]));
                            let k = choose|k: int| 0 <= k < i && (#[trigger] self.spec_peers()[k]).spec_node() == before[a];
                            assert(self.spec_peers()[k].spec_node().0 < self.spec_peers()[i as int].spec_node().0);
                        }
                    }
                    signals.push(node);
                    proof {
                        assert forall|a: int| 0 <= a < signals@.len() implies among(self.spec_peers(), i + 1, #[trigger] signals@[a]) by {
                            if a < before.len() {
                                assert(signals@[a] == before[a]);
                                assert(among(self.spec_peers(), i as int, before[a]));
                                let k = choose|k: int| 0 <= k < i && (#[trigger] self.spec_peers()[k]).spec_node() == before[a];
                                assert(self.spec_peers()[k].spec_node() == signals@[a]);
                            } else {
                                assert(self.spec_peers()[i as int].spec_node() == signals@[a]);
                            }
                        }
                    }
                },
                Ok(TriggerOutcome::Waiting(_)) => {
                    proof {
                        assert forall|a: int| 0 <= a < signals@.len() implies among(self.spec_peers(), i + 1, #[trigger] signals@[a]) by {
                            assert(among(self.spec_peers(), i as int, signals@[a]));
                            let k = choose|k: int| 0 <= k < i && (#[trigger] self.spec_peers()[k]).spec_node() == signals@[a];
                        }
                    }
                },
                Err(e) => {
                    if first.is_ok() {
                        first = Err(SessionError::PeerTrigger { peer: node, source: e });
                    }
                    proof {
                        assert forall|a: int| 0 <= a < signals@.len() implies among(self.spec_peers(), i + 1, #[trigger] signals@[a]) by {
                            assert(among(self.spec_peers(), i as int, signals@[a]));
                            let k = choose|k: int| 0 <= k < i && (#[trigger] self.spec_peers()[k]).spec_node() == signals@[a];
                        }
                    }
                },
            }
            i = i + 1;
        }
        proof {
            assert forall|a: int| 0 <= a < signals@.len() implies self.has_node(#[trigger] signals@[a]) by {
                assert(among(self.spec_peers(), n as int, signals@[a]));
                let k = choose|k: int| 0 <= k < n && (#[trigger] self.spec_peers()[k]).spec_node() == signals@[a];
            }
        }
        proof {
            assert(outs =~= trigger_outcomes(self.spec_peers(), steps@));
        }
        (signals, first, steps)
    }

    /// Drops every peer whose activation pins generation `key`.
    pub fn remove_memory(&mut self, key: MemoryKey)
        requires
            old(self).wf(),
        ensures
            final(self).wf(),
            forall|i: int|
                0 <= i < final(self).spec_peers().len() ==> (#[trigger] final(self).spec_peers()[i]).spec_key()
                    != key && old(self).spec_peers().contains(final(self).spec_peers()[i]),
            forall|j: int|
                0 <= j < old(self).spec_peers().len() && (#[trigger] old(self).spec_peers()[j]).spec_key()
                    != key ==> final(self).spec_peers().contains(old(self).spec_peers()[j]),
    {
        let mut rest: Vec<PeerActivation<F>> = Vec::new();
        std::mem::swap(&mut rest, &mut self.by_node);
        let ghost all = rest@;
        let ghost mut taken: int = 0;
        while rest.len() > 0
            invariant
                0 <= taken <= all.len(),
                rest@ == all.skip(taken),
                forall|i: int| 0 <= i < all.len() ==> (#[trigger] all[i]).wf(),
                sorted_nodes(all),
                sorted_nodes(self.by_node@),
                forall|i: int|
                    0 <= i < self.by_node@.len() ==> (#[trigger] self.by_node@[i]).spec_key() != key,
                forall|i: int|
                    0 <= i < self.by_node@.len() ==> exists|m: int|
                        0 <= m < taken && #[trigger] self.by_node@[i] == all[m],
                forall|j: int|
                    0 <= j < taken && (#[trigger] all[j]).spec_key() != key ==> self.by_node@.contains(all[j]),
            decreases rest@.len(),
        {
            let peer = rest.remove(0);
            let ghost before = self.by_node@;
            assert(peer == all[taken]);
            if peer.key != key {
                self.by_node.push(peer);
                proof {
                    assert forall|i: int, j: int|
                        0 <= i < j < self.by_node@.len() implies (#[trigger] self.by_node@[i]).spec_node().0
                        < (#[trigger] self.by_node@[j]).spec_node().0 by {
                        if j == self.by_node@.len() - 1 {
                            assert(self.by_node@[i] == before[i]);
                            let m = choose|m: int| 0 <= m < taken && #[trigger] before[i] == all[m];
                            assert(all[m].spec_node().0 < all[taken].spec_node().0);
                        } else {
                            assert(self.by_node@[i] == before[i]);
                            assert(self.by_node@[j] == before[j]);
                        }
                    }
                }
            }
            proof {
                assert forall|i: int| 0 <= i < self.by_node@.len() implies exists|m: int|
                    0 <= m < taken + 1 && #[trigger] self.by_node@[i] == all[m] by {
                    if i < before.len() {
                        assert(self.by_node@[i] == before[i]);
                        let m = choose|m: int| 0 <= m < taken && #[trigger] before[i] == all[m];
                        assert(self.by_node@[i] == all[m]);
                    } else {
                        assert(self.by_node@[i] == all[taken]);
                    }
                }
                assert forall|j: int| 0 <= j < taken + 1 && (#[trigger] all[j]).spec_key() != key implies self.by_node@.contains(
                    all[j]) by {
                    if j < taken {
                        let m = choose|m: int| 0 <= m < before.len() && before[m] == all[j];
                        assert(self.by_node@[m] == before[m]);
                    } else {
                        assert(self.by_node@[self.by_node@.len() - 1] == all[j]);
                    }
                }
                taken = taken + 1;
                assert(rest@ =~= all.skip(taken));
            }
        }
        proof {
            assert forall|i: int| 0 <= i < self.by_node@.len() implies (#[trigger] self.by_node@[i]).wf()
                && all.contains(self.by_node@[i]) by {
                let m = choose|m: int| 0 <= m < taken && #[trigger] self.by_node@[i] == all[m];
            }
        }
    }

    /// The mapped interval of every peer, in node-id order.
    pub fn intervals(&self) -> (r: Vec<MemoryInterval>)
        requires
            self.wf(),
        ensures
            r@.len() == self.spec_peers().len(),
            forall|i: int| 0 <= i < r@.len() ==> #[trigger] r@[i] == self.spec_peers()[i].spec_interval(),
    {
        let mut out: Vec<MemoryInterval> = Vec::new();
        let n = self.by_node.len();
        let mut i: usize = 0;
        while i < n
            invariant
                n == self.by_node@.len(),
                i <= n,
                self.wf(),
                out@.len() == i,
                forall|k: int| 0 <= k < i ==> #[trigger] out@[k] == self.spec_peers()[k].spec_interval(),
            decreases n - i,
        {
            out.push(self.by_node[i].interval());
            i = i + 1;
        }
        out
    }

    /// The mapped interval of every peer but the one of `node`.
    pub fn intervals_except(&self, node: NodeId) -> (r: Vec<MemoryInterval>)
        requires
            self.wf(),
        ensures
            forall|j: int|
                0 <= j < self.spec_peers().len() && (#[trigger] self.spec_peers()[j]).spec_node() != node
                    ==> r@.contains(self.spec_peers()[j].spec_interval()),
    {
        let mut out: Vec<MemoryInterval> = Vec::new();
        let n = self.by_node.len();
        let mut i: usize = 0;
        while i < n
            invariant
                n == self.by_node@.len(),
                i <= n,
                self.wf(),
                forall|j: int|
                    0 <= j < i && (#[trigger] self.spec_peers()[j]).spec_node() != node ==> out@.contains(
                        self.spec_peers()[j].spec_interval(),
                    ),
            decreases n - i,
        {
            if self.by_node[i].node.0 != node.0 {
                let ghost before = out@;
                out.push(self.by_node[i].interval());
                proof {
                    assert(out@[out@.len() - 1] == self.spec_peers()[i as int].spec_interval());
                    assert forall|j: int|
                        0 <= j < i && (#[trigger] self.spec_peers()[j]).spec_node() != node implies out@.contains(
                        self.spec_peers()[j].spec_interval()) by {
                        let m = choose|m: int| 0 <= m < before.len() && before[m] == self.spec_peers()[j].spec_interval();
                        assert(out@[m] == before[m]);
                    }
                }
            }
            i = i + 1;
        }
        out
    }
}

} // verus!

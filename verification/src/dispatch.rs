//! Delivery of decoded events to one replaceable handler. Events that
//! arrive while the handler runs, from the handler itself or elsewhere, are
//! queued and delivered in arrival order by the dispatch already running.
//! Replacing the handler bumps a generation, so that a running dispatch
//! adopts the replacement; a dispatch that is abandoned (its handler
//! panicked) gives its handler back unless it was replaced meanwhile.
//!
//! The handler itself is opaque here: the caller holds it while it runs
//! and invokes it with each event [`EventDispatch::next`] hands out.

use vstd::prelude::*;

verus! {

/// Shared dispatch state: the installed handler, unless a dispatch holds
/// it, and the events waiting for the running dispatch.
pub struct EventDispatch<E, H> {
    handler: Option<H>,
    queued: Vec<E>,
    dispatching: bool,
    generation: u64,
}

/// The handler a running dispatch holds, and the generation it belongs to.
pub struct ActiveDispatch<H> {
    pub handler: Option<H>,
    pub generation: u64,
}

/// What became of an offered event.
pub enum Offer<E, H> {
    /// A dispatch is running and will deliver it.
    Queued,
    /// No handler is installed.
    Unhandled(E),
    /// The caller runs a dispatch with this handler.
    Start(ActiveDispatch<H>),
}

impl<E, H> EventDispatch<E, H> {
    pub closed spec fn spec_handler(&self) -> Option<H> {
        self.handler
    }

    pub closed spec fn spec_queued(&self) -> Seq<E> {
        self.queued@
    }

    pub closed spec fn spec_dispatching(&self) -> bool {
        self.dispatching
    }

    pub closed spec fn spec_generation(&self) -> u64 {
        self.generation
    }

    /// No handler, nothing queued, no dispatch running.
    pub fn new() -> (d: Self)
        ensures
            d.spec_handler() is None,
            d.spec_queued() == Seq::<E>::empty(),
            !d.spec_dispatching(),
            d.spec_generation() == 0,
    {
        EventDispatch { handler: None, queued: Vec::new(), dispatching: false, generation: 0 }
    }

    /// Installs `handler` (or none) in a new generation and returns the one
    /// it displaces, for the caller to drop outside any lock.
    pub fn set_event_handler(&mut self, handler: Option<H>) -> (displaced: Option<H>)
        ensures
            displaced == old(self).spec_handler(),
            final(self).spec_handler() == handler,
            final(self).spec_generation() == old(self).spec_generation().wrapping_add(1),
            final(self).spec_queued() == old(self).spec_queued(),
            final(self).spec_dispatching() == old(self).spec_dispatching(),
    {
        self.generation = self.generation.wrapping_add(1);
        let displaced = self.handler.take();
        self.handler = handler;
        displaced
    }

    /// Offers one event. While a dispatch runs it is queued behind the
    /// others; with no handler it is handed back unhandled, for the caller
    /// to drop outside any lock; otherwise the caller starts a dispatch with
    /// the returned handler, which delivers this event first.
    pub fn offer(&mut self, event: E) -> (r: Offer<E, H>)
        ensures
            final(self).spec_generation() == old(self).spec_generation(),
            old(self).spec_dispatching() ==> r is Queued && final(self).spec_queued() == old(self).spec_queued().push(event)
                && final(self).spec_dispatching() && final(self).spec_handler() == old(self).spec_handler(),
            !old(self).spec_dispatching() && old(self).spec_handler() is None ==> r == Offer::<E, H>::Unhandled(event)
                && final(self).spec_queued() == old(self).spec_queued() && !final(self).spec_dispatching()
                && final(self).spec_handler() is None,
            !old(self).spec_dispatching() && old(self).spec_handler() is Some ==> (r matches Offer::Start(a)
                && a.handler == old(self).spec_handler() && a.generation == old(self).spec_generation())
                && final(self).spec_queued() == old(self).spec_queued().push(event) && final(self).spec_dispatching()
                && final(self).spec_handler() is None,
    {
        if self.dispatching {
            self.queued.push(event);
            return Offer::Queued;
        }
        match self.handler.take() {
            None => Offer::Unhandled(event),
            Some(handler) => {
                self.dispatching = true;
                self.queued.push(event);
                Offer::Start(ActiveDispatch { handler: Some(handler), generation: self.generation })
            },
        }
    }

    /// The next event for the running dispatch to deliver with
    /// `active.handler`, or `None` when the dispatch is over. A handler
    /// replaced since the dispatch started is adopted first; a dispatch
    /// whose handler was cleared discards the queue; one that runs out of
    /// events gives its handler back. The handler displaced by adoption and
    /// the discarded events are returned, for the caller to drop outside
    /// any lock.
    pub fn next(&mut self, active: &mut ActiveDispatch<H>) -> (r: (Option<E>, Option<H>, Vec<E>))
        ensures
            final(self).spec_generation() == old(self).spec_generation(),
            final(active).generation == old(self).spec_generation(),
            ({
                let replaced = old(active).generation != old(self).spec_generation();
                let handler = if replaced {
                    old(self).spec_handler()
                } else {
                    old(active).handler
                };
                let kept = if replaced {
                    None
                } else {
                    old(self).spec_handler()
                };
                &&& r.1 == (if replaced {
                    old(active).handler
                } else {
                    None
                })
                &&& if handler is None {
                    &&& r.0 is None
                    &&& r.2@ == old(self).spec_queued()
                    &&& final(self).spec_queued() == Seq::<E>::empty()
                    &&& !final(self).spec_dispatching()
                    &&& final(self).spec_handler() == kept
                    &&& final(active).handler is None
                } else if old(self).spec_queued().len() == 0 {
                    &&& r.0 is None
                    &&& r.2@ == Seq::<E>::empty()
                    &&& final(self).spec_queued() == old(self).spec_queued()
                    &&& !final(self).spec_dispatching()
                    &&& final(self).spec_handler() == handler
                    &&& final(active).handler is None
                } else {
                    &&& r.0 == Some(old(self).spec_queued()[0])
                    &&& r.2@ == Seq::<E>::empty()
                    &&& final(self).spec_queued() == old(self).spec_queued().drop_first()
                    &&& final(self).spec_dispatching() == old(self).spec_dispatching()
                    &&& final(self).spec_handler() == kept
                    &&& final(active).handler == handler
                }
            }),
    {
        let mut displaced: Option<H> = None;
        if self.generation != active.generation {
            active.generation = self.generation;
            displaced = active.handler.take();
            active.handler = self.handler.take();
        }
        if active.handler.is_none() {
            let mut discarded: Vec<E> = Vec::new();
            std::mem::swap(&mut discarded, &mut self.queued);
            self.dispatching = false;
            return (None, displaced, discarded);
        }
        if self.queued.len() == 0 {
            self.handler = active.handler.take();
            self.dispatching = false;
            return (None, displaced, Vec::new());
        }
        let event = self.queued.remove(0);
        assert(self.queued@ =~= old(self).queued@.drop_first());
        (Some(event), displaced, Vec::new())
    }

    /// Ends a dispatch whose handler did not return. Its handler goes back
    /// unless the handler was replaced meanwhile, in which case it is
    /// returned for the caller to drop; the queue is kept for the next
    /// dispatch.
    pub fn abandon(&mut self, active: ActiveDispatch<H>) -> (displaced: Option<H>)
        ensures
            final(self).spec_generation() == old(self).spec_generation(),
            final(self).spec_queued() == old(self).spec_queued(),
            !final(self).spec_dispatching(),
            old(self).spec_generation() == active.generation && old(self).spec_handler() is None
                ==> final(self).spec_handler() == active.handler && displaced is None,
            !(old(self).spec_generation() == active.generation && old(self).spec_handler() is None)
                ==> final(self).spec_handler() == old(self).spec_handler() && displaced
                == active.handler,
    {
        self.dispatching = false;
        if self.generation == active.generation && self.handler.is_none() {
            self.handler = active.handler;
            None
        } else {
            active.handler
        }
    }

    /// Number of events waiting for the running dispatch.
    pub fn queued_len(&self) -> (n: usize)
        ensures
            n == self.spec_queued().len(),
    {
        self.queued.len()
    }

    /// Whether a dispatch is running.
    pub fn is_dispatching(&self) -> (b: bool)
        ensures
            b == self.spec_dispatching(),
    {
        self.dispatching
    }

    /// Whether a handler is installed and not held by a dispatch.
    pub fn has_handler(&self) -> (b: bool)
        ensures
            b == self.spec_handler() is Some,
    {
        self.handler.is_some()
    }
}

/// The queue after `events` are offered, in order, to a running dispatch
/// whose queue was `queued`: each offer appends its event.
pub open spec fn after_offers<E>(queued: Seq<E>, events: Seq<E>) -> Seq<E>
    decreases events.len(),
{
    if events.len() == 0 {
        queued
    } else {
        after_offers(queued.push(events[0]), events.drop_first())
    }
}

/// The events `n` successive calls of `next` hand out from `queued` while
/// the handler stays installed: each takes the first event left.
pub open spec fn handed_out<E>(queued: Seq<E>, n: nat) -> Seq<E>
    decreases n,
{
    if n == 0 || queued.len() == 0 {
        Seq::empty()
    } else {
        seq![queued[0]] + handed_out(queued.drop_first(), (n - 1) as nat)
    }
}

proof fn lemma_after_offers<E>(queued: Seq<E>, events: Seq<E>)
    ensures
        after_offers(queued, events) == queued + events,
    decreases events.len(),
{
    if events.len() > 0 {
        lemma_after_offers(queued.push(events[0]), events.drop_first());
        assert(queued.push(events[0]) + events.drop_first() =~= queued + events);
    } else {
        assert(queued + events =~= queued);
    }
}

proof fn lemma_handed_out_all<E>(queued: Seq<E>)
    ensures
        handed_out(queued, queued.len()) == queued,
    decreases queued.len(),
{
    if queued.len() > 0 {
        lemma_handed_out_all(queued.drop_first());
        assert(seq![queued[0]] + queued.drop_first() =~= queued);
    }
}

/// Nested delivery keeps arrival order: events offered while a dispatch
/// runs, from the handler or elsewhere, are handed out after those already
/// waiting, in the order they were offered, and none is handed out twice
/// or skipped.
pub proof fn law_dispatch_in_arrival_order<E>(queued: Seq<E>, events: Seq<E>)
    ensures
        handed_out(after_offers(queued, events), (queued.len() + events.len()) as nat) == queued + events,
{
    lemma_after_offers(queued, events);
    lemma_handed_out_all(queued + events);
}

} // verus!

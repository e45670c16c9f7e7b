//! The events of a window, gathered until it is time to handle them.

use vstd::prelude::*;

verus! {

/// What the event loop hands to a window.
pub enum Incoming<E> {
    /// No event is left for now.
    AboutToWait,
    /// The window has to draw.
    RedrawRequested,
    /// Any other event.
    Event(E),
}

/// Events that wait to be handled, the oldest first.
pub struct EventQueue<E> {
    events: Vec<E>,
}

impl<E> View for EventQueue<E> {
    type V = Seq<E>;

    closed spec fn view(&self) -> Seq<E> {
        self.events@
    }
}

/// What waits after the event loop handed something over.
pub open spec fn waiting_after<E>(waiting: Seq<E>, incoming: Incoming<E>) -> Seq<E> {
    match incoming {
        Incoming::Event(event) => waiting.push(event),
        _ => seq![],
    }
}

/// What is handled when the event loop hands something over.
pub open spec fn handled_by<E>(waiting: Seq<E>, incoming: Incoming<E>) -> Seq<E> {
    match incoming {
        Incoming::Event(_) => seq![],
        _ => waiting,
    }
}

impl<E> EventQueue<E> {
    /// A queue in which nothing waits.
    pub fn new() -> (queue: Self)
        ensures
            queue@ == Seq::<E>::empty(),
    {
        EventQueue { events: Vec::new() }
    }

    /// Lets an event wait behind the others.
    pub fn push(&mut self, event: E)
        ensures
            final(self)@ == old(self)@.push(event),
    {
        self.events.push(event);
    }

    /// Gathers an event, or takes out all that wait once the event loop has no more. Nothing is
    /// left to do where the result is empty.
    pub fn handle_event(&mut self, incoming: Incoming<E>) -> (events: Vec<E>)
        ensures
            final(self)@ == waiting_after(old(self)@, incoming),
            events@ == handled_by(old(self)@, incoming),
    {
        let mut events: Vec<E> = Vec::new();
        match incoming {
            Incoming::Event(event) => {
                self.events.push(event);
            },
            _ => {
                std::mem::swap(&mut events, &mut self.events);
            },
        }
        events
    }
}

/// The events among what the event loop hands over.
pub open spec fn events_in<E>(incoming: Seq<Incoming<E>>) -> Seq<E>
    decreases incoming.len(),
{
    if incoming.len() == 0 {
        seq![]
    } else {
        match incoming.last() {
            Incoming::Event(event) => events_in(incoming.drop_last()).push(event),
            _ => events_in(incoming.drop_last()),
        }
    }
}

/// What waits after the event loop handed over one thing after another.
pub open spec fn waiting_after_all<E>(waiting: Seq<E>, incoming: Seq<Incoming<E>>) -> Seq<E>
    decreases incoming.len(),
{
    if incoming.len() == 0 {
        waiting
    } else {
        waiting_after(waiting_after_all(waiting, incoming.drop_last()), incoming.last())
    }
}

/// What was handled after the event loop handed over one thing after another.
pub open spec fn handled_by_all<E>(waiting: Seq<E>, incoming: Seq<Incoming<E>>) -> Seq<E>
    decreases incoming.len(),
{
    if incoming.len() == 0 {
        seq![]
    } else {
        handled_by_all(waiting, incoming.drop_last()) + handled_by(
            waiting_after_all(waiting, incoming.drop_last()),
            incoming.last(),
        )
    }
}

/// Every event is handled once or still waits, and none overtakes another.
pub proof fn law_events_keep_their_order<E>(waiting: Seq<E>, incoming: Seq<Incoming<E>>)
    ensures
        handled_by_all(waiting, incoming) + waiting_after_all(waiting, incoming) == waiting
            + events_in(incoming),
    decreases incoming.len(),
{
    if incoming.len() == 0 {
        assert(Seq::<E>::empty() + waiting =~= waiting + Seq::<E>::empty());
    } else {
        let before = incoming.drop_last();
        law_events_keep_their_order(waiting, before);
        let handled = handled_by_all(waiting, before);
        let left = waiting_after_all(waiting, before);
        match incoming.last() {
            Incoming::Event(event) => {
                assert(handled + Seq::<E>::empty() + left.push(event) =~= (handled + left).push(
                    event,
                ));
                assert(waiting + events_in(before).push(event) =~= (waiting + events_in(
                    before,
                )).push(event));
            },
            _ => {
                assert(handled + left + Seq::<E>::empty() =~= handled + left);
            },
        }
    }
}

/// Once the event loop has no more, or the window has to draw, everything that came is handed out,
/// and nothing waits any longer.
pub proof fn law_wake_hands_out_everything<E>(waiting: Seq<E>, incoming: Seq<Incoming<E>>)
    requires
        incoming.len() > 0,
        !(incoming.last() is Event),
    ensures
        waiting_after_all(waiting, incoming).len() == 0,
        handled_by_all(waiting, incoming) == waiting + events_in(incoming),
{
    law_events_keep_their_order(waiting, incoming);
    assert(waiting_after_all(waiting, incoming) =~= Seq::<E>::empty());
    assert(handled_by_all(waiting, incoming) + Seq::<E>::empty() =~= handled_by_all(
        waiting,
        incoming,
    ));
}

/// As long as only events come, nothing is handed out, and all wait in the order in which they
/// came.
pub proof fn law_events_wait_for_a_wake<E>(waiting: Seq<E>, events: Seq<E>)
    ensures
        ({
            let incoming = Seq::new(events.len(), |i: int| Incoming::Event(events[i]));
            &&& handled_by_all(waiting, incoming).len() == 0
            &&& waiting_after_all(waiting, incoming) == waiting + events
        }),
    decreases events.len(),
{
    let incoming = Seq::new(events.len(), |i: int| Incoming::Event(events[i]));
    if events.len() > 0 {
        let before = events.drop_last();
        law_events_wait_for_a_wake(waiting, before);
        assert(incoming.drop_last() =~= Seq::new(
            before.len(),
            |i: int| Incoming::Event(before[i]),
        ));
        assert((waiting + before).push(events.last()) =~= waiting + events);
    } else {
        assert(waiting + events =~= waiting);
    }
}

} // verus!

//! The event bus: a lossy broadcast of session events.
//!
//! Each subscriber has a queue of its own, bounded by the capacity of the
//! bus. Publishing never waits: where a subscriber's queue is full, its
//! oldest unread event makes room for the new one. The queues are those of
//! an `async_broadcast` channel in overflow mode; the bus holds the sending
//! end and every receiving end, so that nothing else can send or receive
//! on it.

use crate::event::{views, EventView, SessionEvent};
use async_broadcast::{Receiver, Sender};
use vstd::prelude::*;

verus! {

/// The sending end of an `async_broadcast` channel. Nothing inside it is
/// known here; what is believed of it is said by the items below.
#[verifier::external_type_specification]
#[verifier::external_body]
#[verifier::reject_recursive_types(T)]
pub struct ExSender<T>(Sender<T>);

/// A receiving end of an `async_broadcast` channel, with its own place in
/// the stream of messages.
#[verifier::external_type_specification]
#[verifier::external_body]
#[verifier::reject_recursive_types(T)]
pub struct ExReceiver<T>(Receiver<T>);

/// The events that a receiver has yet to receive, oldest first.
pub uninterp spec fn backlog(rx: Receiver<SessionEvent>) -> Seq<EventView>;

/// How many events were dropped before a receiver read them and have not
/// been reported to it yet.
pub uninterp spec fn missed(rx: Receiver<SessionEvent>) -> nat;

/// How many messages the channel of a sender holds at most.
pub uninterp spec fn capacity_of(tx: Sender<SessionEvent>) -> nat;

/// Whether a receiver is an active receiver of the channel that a sender
/// sends on, that channel being open.
pub uninterp spec fn attached(rx: Receiver<SessionEvent>, tx: Sender<SessionEvent>) -> bool;

/// Whether the channel of a sender is in overflow mode.
pub uninterp spec fn lossy(tx: Sender<SessionEvent>) -> bool;

/// A queue of at most `capacity` items after one more arrives: the oldest
/// leaves where there is no room.
pub open spec fn ring_push<A>(queue: Seq<A>, capacity: nat, item: A) -> Seq<A> {
    if queue.len() >= capacity {
        queue.subrange(queue.len() - capacity + 1, queue.len() as int).push(item)
    } else {
        queue.push(item)
    }
}

/// What one call of `Receiver::try_recv` gave.
enum Polled {
    /// The oldest unread event.
    Event(SessionEvent),
    /// So many events were dropped unread; the next call goes on with the
    /// oldest that is left.
    Missed(u64),
    /// Nothing is left to read.
    Idle,
}

/// What a sent event does to the place of a receiver, on a channel with
/// room for `capacity` messages. For a receiver the event joins the unread
/// events, and where there were `capacity` of them already the oldest is
/// dropped and counted as missed. An empty place stays empty.
pub open spec fn reached(
    before: Option<Receiver<SessionEvent>>,
    after: Option<Receiver<SessionEvent>>,
    capacity: nat,
    event: EventView,
) -> bool {
    match (before, after) {
        (Some(before), Some(after)) => {
            &&& backlog(after) == ring_push(backlog(before), capacity, event)
            &&& missed(after) == missed(before) + if backlog(before).len() >= capacity {
                1nat
            } else {
                0nat
            }
        },
        (None, None) => true,
        _ => false,
    }
}

/// What taking from a receiver does. Events that were missed are reported
/// first, once, and leave the unread events as they are. Otherwise the
/// oldest unread event is handed out, or there is none.
spec fn took(before: Receiver<SessionEvent>, after: Receiver<SessionEvent>, got: Polled) -> bool {
    &&& missed(after) == 0
    &&& match got {
        Polled::Missed(count) => {
            &&& missed(before) > 0
            &&& count == missed(before)
            &&& backlog(after) == backlog(before)
        },
        Polled::Event(event) => {
            &&& missed(before) == 0
            &&& backlog(before).len() > 0
            &&& event@ == backlog(before)[0]
            &&& backlog(after) == backlog(before).subrange(1, backlog(before).len() as int)
        },
        Polled::Idle => {
            &&& missed(before) == 0
            &&& backlog(before).len() == 0
            &&& backlog(after) == backlog(before)
        },
    }
}

/// Every receiver that there is listens to `tx`.
pub open spec fn all_attached(
    receivers: Seq<Option<Receiver<SessionEvent>>>,
    tx: Sender<SessionEvent>,
) -> bool {
    forall|i: int|
        0 <= i < receivers.len() && receivers[i] is Some ==> attached(
            #[trigger] receivers[i]->Some_0,
            tx,
        )
}

/// Opens a channel: `async_broadcast::broadcast`, which panics on a
/// capacity of zero. The channel is open, holds at most `capacity`
/// messages, and the receiver that comes with it is active and has nothing
/// to read yet.
#[verifier::external_body]
fn open_channel(capacity: usize) -> (ends: (Sender<SessionEvent>, Receiver<SessionEvent>))
    requires
        capacity > 0,
    ensures
        attached(ends.1, ends.0),
        capacity_of(ends.0) == capacity,
        backlog(ends.1) == Seq::<EventView>::empty(),
        missed(ends.1) == 0,
{
    async_broadcast::broadcast(capacity)
}

/// Turns overflow mode on: `Sender::set_overflow` with `true`. Nothing else
/// about the channel changes.
#[verifier::external_body]
fn enable_overflow(tx: &mut Sender<SessionEvent>)
    ensures
        lossy(*final(tx)),
        capacity_of(*final(tx)) == capacity_of(*old(tx)),
        forall|rx: Receiver<SessionEvent>|
            attached(rx, *old(tx)) ==> #[trigger] attached(rx, *final(tx)),
{
    tx.set_overflow(true);
}

/// One more receiver on the channel of `rx`: `Receiver::new_receiver`. It
/// is active, and it starts behind everything that was sent so far, with
/// nothing to read.
#[verifier::external_body]
fn add_receiver(rx: &Receiver<SessionEvent>) -> (fresh: Receiver<SessionEvent>)
    ensures
        forall|tx: Sender<SessionEvent>| attached(*rx, tx) ==> #[trigger] attached(fresh, tx),
        backlog(fresh) == Seq::<EventView>::empty(),
        missed(fresh) == 0,
{
    rx.new_receiver()
}

/// Sends an event to every receiver of the channel: `Sender::try_broadcast`.
/// On an open channel in overflow mode with an active receiver the call
/// queues the event; where the queue is full it first drops the oldest
/// message, which only the receivers that have not read it lose, and each
/// of them is told so by its next `try_recv`. The receivers are taken by
/// `&mut` because what they will read changes; the call itself goes to the
/// sender alone. Nothing is said of what `keeper` will read.
#[verifier::external_body]
fn send_event(
    tx: &Sender<SessionEvent>,
    keeper: &mut Receiver<SessionEvent>,
    receivers: &mut Vec<Option<Receiver<SessionEvent>>>,
    event: SessionEvent,
)
    requires
        lossy(*tx),
        attached(*old(keeper), *tx),
        all_attached(old(receivers)@, *tx),
    ensures
        attached(*final(keeper), *tx),
        all_attached(final(receivers)@, *tx),
        final(receivers)@.len() == old(receivers)@.len(),
        forall|i: int|
            #![trigger final(receivers)@[i]]
            0 <= i < old(receivers)@.len() ==> reached(
                old(receivers)@[i],
                final(receivers)@[i],
                capacity_of(*tx),
                event@,
            ),
{
    let _ = tx.try_broadcast(event);
}

/// Takes the next event of the receiver at `slot`: `Receiver::try_recv`.
/// After events were dropped unread the call reports how many, once, and
/// moves on to the oldest that is left; otherwise it gives the oldest
/// unread event, or tells that there is none, be the channel open or
/// closed. The other receivers are left alone.
#[verifier::external_body]
fn take_event(receivers: &mut Vec<Option<Receiver<SessionEvent>>>, slot: usize) -> (got: Polled)
    requires
        slot < old(receivers)@.len(),
        old(receivers)@[slot as int] is Some,
    ensures
        final(receivers)@.len() == old(receivers)@.len(),
        forall|i: int|
            0 <= i < old(receivers)@.len() && i != slot ==> #[trigger] final(receivers)@[i] == old(
                receivers,
            )@[i],
        final(receivers)@[slot as int] is Some,
        forall|tx: Sender<SessionEvent>|
            attached(old(receivers)@[slot as int]->Some_0, tx) ==> #[trigger] attached(
                final(receivers)@[slot as int]->Some_0,
                tx,
            ),
        took(old(receivers)@[slot as int]->Some_0, final(receivers)@[slot as int]->Some_0, got),
{
    match receivers[slot].as_mut().unwrap().try_recv() {
        Ok(event) => Polled::Event(event),
        Err(async_broadcast::TryRecvError::Overflowed(count)) => Polled::Missed(count),
        Err(async_broadcast::TryRecvError::Empty) => Polled::Idle,
        Err(async_broadcast::TryRecvError::Closed) => Polled::Idle,
    }
}

/// A queue after a run of events has arrived, one after the other.
pub open spec fn ring_push_all<A>(queue: Seq<A>, capacity: nat, items: Seq<A>) -> Seq<A>
    decreases items.len(),
{
    if items.len() == 0 {
        queue
    } else {
        ring_push(ring_push_all(queue, capacity, items.drop_last()), capacity, items.last())
    }
}

/// The queues of a bus after an event was published: every subscriber's
/// queue takes it, and no queue outgrows the capacity.
pub open spec fn deliver(
    queues: Seq<Option<Seq<EventView>>>,
    capacity: nat,
    event: EventView,
) -> Seq<Option<Seq<EventView>>> {
    Seq::new(
        queues.len(),
        |i: int|
            match queues[i] {
                Some(queue) => Some(ring_push(queue, capacity, event)),
                None => None,
            },
    )
}

/// A bounded queue that is filled without being read holds the newest
/// items, in the order in which they came: after more items than the
/// capacity, exactly the last `capacity` of them.
pub proof fn lemma_overflow_keeps_newest<A>(capacity: nat, items: Seq<A>)
    requires
        0 < capacity,
    ensures
        items.len() <= capacity ==> ring_push_all(Seq::<A>::empty(), capacity, items) == items,
        items.len() > capacity ==> ring_push_all(Seq::<A>::empty(), capacity, items)
            == items.subrange(items.len() - capacity, items.len() as int),
    decreases items.len(),
{
    if items.len() > 0 {
        let front = items.drop_last();
        lemma_overflow_keeps_newest(capacity, front);
        let filled = ring_push_all(Seq::<A>::empty(), capacity, front);
        if front.len() < capacity {
            assert(filled.push(items.last()) =~= items);
        } else if front.len() == capacity {
            assert(filled == front);
            assert(ring_push(filled, capacity, items.last()) =~= items.subrange(
                items.len() - capacity,
                items.len() as int,
            ));
        } else {
            assert(filled == front.subrange(front.len() - capacity, front.len() as int));
            assert(ring_push(filled, capacity, items.last()) =~= items.subrange(
                items.len() - capacity,
                items.len() as int,
            ));
        }
    }
}

/// The queues of a bus after a run of events was published, one after the
/// other.
pub open spec fn deliver_all(
    queues: Seq<Option<Seq<EventView>>>,
    capacity: nat,
    events: Seq<EventView>,
) -> Seq<Option<Seq<EventView>>>
    decreases events.len(),
{
    if events.len() == 0 {
        queues
    } else {
        deliver(deliver_all(queues, capacity, events.drop_last()), capacity, events.last())
    }
}

/// A subscriber that has read everything and then does not read while
/// events are published finds the newest of them when it drains, in the
/// order in which they were published: all of them while they fit, and
/// after more than the capacity exactly the last `capacity`.
pub proof fn lemma_subscriber_keeps_newest(
    queues: Seq<Option<Seq<EventView>>>,
    capacity: nat,
    events: Seq<EventView>,
    id: int,
)
    requires
        0 < capacity,
        0 <= id < queues.len(),
        queues[id] == Some(Seq::<EventView>::empty()),
    ensures
        deliver_all(queues, capacity, events).len() == queues.len(),
        events.len() <= capacity ==> deliver_all(queues, capacity, events)[id] == Some(events),
        events.len() > capacity ==> deliver_all(queues, capacity, events)[id] == Some(
            events.subrange(events.len() - capacity, events.len() as int),
        ),
{
    lemma_deliver_all_is_ring(queues, capacity, events, id);
    lemma_overflow_keeps_newest(capacity, events);
}

/// What a subscriber finds after a run of events is its queue after each
/// of them has arrived.
proof fn lemma_deliver_all_is_ring(
    queues: Seq<Option<Seq<EventView>>>,
    capacity: nat,
    events: Seq<EventView>,
    id: int,
)
    requires
        0 <= id < queues.len(),
        queues[id] is Some,
    ensures
        deliver_all(queues, capacity, events).len() == queues.len(),
        deliver_all(queues, capacity, events)[id] == Some(
            ring_push_all(queues[id]->Some_0, capacity, events),
        ),
    decreases events.len(),
{
    if events.len() > 0 {
        lemma_deliver_all_is_ring(queues, capacity, events.drop_last(), id);
    }
}

/// The bus. Subscribers are known by the number that `subscribe` gave them.
pub struct EventBus {
    sender: Sender<SessionEvent>,
    /// Never read: it keeps the channel open while nobody subscribes.
    keeper: Receiver<SessionEvent>,
    receivers: Vec<Option<Receiver<SessionEvent>>>,
}

impl View for EventBus {
    type V = Seq<Option<Seq<EventView>>>;

    /// For each number that was given out: the unread events of that
    /// subscriber, oldest first, or `None` once it has unsubscribed.
    closed spec fn view(&self) -> Seq<Option<Seq<EventView>>> {
        Seq::new(
            self.receivers@.len(),
            |i: int|
                match self.receivers@[i] {
                    Some(rx) => Some(backlog(rx)),
                    None => None,
                },
        )
    }
}

impl EventBus {
    /// How many unread events a subscriber can have.
    pub closed spec fn capacity(&self) -> nat {
        capacity_of(self.sender)
    }

    /// What every bus satisfies.
    pub closed spec fn wf(&self) -> bool {
        &&& attached(self.keeper, self.sender)
        &&& lossy(self.sender)
        &&& capacity_of(self.sender) > 0
        &&& all_attached(self.receivers@, self.sender)
    }

    /// A bus without subscribers. `None` for a capacity of zero.
    pub fn new(capacity: usize) -> (r: Option<EventBus>)
        ensures
            r.is_some() == (capacity > 0),
            r matches Some(bus) ==> bus.wf() && bus.capacity() == capacity && bus@.len() == 0,
    {
        if capacity == 0 {
            return None;
        }
        let (mut sender, keeper) = open_channel(capacity);
        enable_overflow(&mut sender);
        Some(EventBus { sender, keeper, receivers: Vec::new() })
    }

    /// Registers a subscriber and gives its number. It will see what is
    /// published from now on.
    pub fn subscribe(&mut self) -> (id: usize)
        requires
            old(self).wf(),
        ensures
            final(self).wf(),
            final(self).capacity() == old(self).capacity(),
            id == old(self)@.len(),
            final(self)@ == old(self)@.push(Some(Seq::<EventView>::empty())),
    {
        let id: usize = self.receivers.len();
        let fresh = add_receiver(&self.keeper);
        self.receivers.push(Some(fresh));
        assert(self@ =~= old(self)@.push(Some(Seq::<EventView>::empty())));
        id
    }

    /// Lets a subscriber go. The others keep what they have, and so does the
    /// publisher. A number that is not subscribed changes nothing.
    pub fn unsubscribe(&mut self, id: usize)
        requires
            old(self).wf(),
        ensures
            final(self).wf(),
            final(self).capacity() == old(self).capacity(),
            final(self)@ == if id < old(self)@.len() {
                old(self)@.update(id as int, None)
            } else {
                old(self)@
            },
    {
        if id < self.receivers.len() {
            self.receivers.set(id, None);
            assert(self@ =~= old(self)@.update(id as int, None));
        }
    }

    /// Publishes an event to every subscriber, without waiting for any of
    /// them.
    pub fn publish(&mut self, event: SessionEvent)
        requires
            old(self).wf(),
        ensures
            final(self).wf(),
            final(self).capacity() == old(self).capacity(),
            final(self)@ == deliver(old(self)@, old(self).capacity(), event@),
    {
        send_event(&self.sender, &mut self.keeper, &mut self.receivers, event);
        assert(self@ =~= deliver(old(self)@, old(self).capacity(), event@));
    }

    /// Publishes a run of events, one after the other.
    pub fn publish_all(&mut self, events: &[SessionEvent])
        requires
            old(self).wf(),
        ensures
            final(self).wf(),
            final(self).capacity() == old(self).capacity(),
            final(self)@ == deliver_all(old(self)@, old(self).capacity(), views(events@)),
    {
        let mut i: usize = 0;
        assert(views(events@).subrange(0, 0) =~= Seq::<EventView>::empty());
        while i < events.len()
            invariant
                i <= events@.len(),
                self.wf(),
                self.capacity() == old(self).capacity(),
                self@ == deliver_all(
                    old(self)@,
                    old(self).capacity(),
                    views(events@).subrange(0, i as int),
                ),
            decreases events@.len() - i,
        {
            let ghost seen = views(events@).subrange(0, i + 1);
            self.publish(events[i].clone());
            assert(seen.drop_last() =~= views(events@).subrange(0, i as int));
            assert(seen.last() == events@[i as int]@);
            i = i + 1;
        }
        assert(views(events@).subrange(0, i as int) =~= views(events@));
    }

    /// Takes what a subscriber has not read yet, oldest first, and returns
    /// at once. Nothing comes back for a number that is not subscribed.
    pub fn drain(&mut self, id: usize) -> (events: Vec<SessionEvent>)
        requires
            old(self).wf(),
        ensures
            final(self).wf(),
            final(self).capacity() == old(self).capacity(),
            id < old(self)@.len() && old(self)@[id as int] is Some ==> views(events@) == old(
                self,
            )@[id as int]->Some_0 && final(self)@ == old(self)@.update(
                id as int,
                Some(Seq::<EventView>::empty()),
            ),
            !(id < old(self)@.len() && old(self)@[id as int] is Some) ==> events@.len() == 0
                && final(self)@ == old(self)@,
    {
        let mut events: Vec<SessionEvent> = Vec::new();
        if id >= self.receivers.len() || self.receivers[id].is_none() {
            return events;
        }
        let ghost unread = self@[id as int]->Some_0;
        loop
            invariant
                self.wf(),
                self.capacity() == old(self).capacity(),
                id < self.receivers@.len(),
                self.receivers@[id as int] is Some,
                self@.len() == old(self)@.len(),
                old(self)@[id as int] is Some,
                forall|i: int| 0 <= i < self@.len() && i != id ==> self@[i] == old(self)@[i],
                unread == old(self)@[id as int]->Some_0,
                views(events@) + backlog(self.receivers@[id as int]->Some_0) == unread,
            decreases
                    backlog(self.receivers@[id as int]->Some_0).len() + if missed(
                        self.receivers@[id as int]->Some_0,
                    ) > 0 {
                        1nat
                    } else {
                        0nat
                    },
        {
            let ghost before = self.receivers@[id as int]->Some_0;
            let ghost taken = views(events@);
            match take_event(&mut self.receivers, id) {
                Polled::Event(event) => {
                    events.push(event);
                    assert(views(events@) =~= taken.push(event@));
                    assert(views(events@) + backlog(self.receivers@[id as int]->Some_0) =~= taken
                        + backlog(before));
                },
                Polled::Missed(_) => {},
                Polled::Idle => {
                    assert(views(events@) =~= unread);
                    assert(backlog(self.receivers@[id as int]->Some_0) =~= Seq::<EventView>::empty());
                    assert(self@[id as int] == Some(Seq::<EventView>::empty()));
                    assert(self@ =~= old(self)@.update(id as int, Some(Seq::<EventView>::empty())));
                    return events;
                },
            }
        }
    }
}

} // verus!

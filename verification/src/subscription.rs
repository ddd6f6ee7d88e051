//! The channels of the bus and its subscriptions. A subscription records the
//! events handed to its sender; that record starts empty, is copied along
//! with the subscription, and grows only by a real send.
use vstd::prelude::*;
use crossbeam_channel::{Receiver, Sender};
use crate::market_data::{Event, EventView};

verus! {

/// `crossbeam_channel::Sender`, the sending half of a channel.
#[verifier::external_type_specification]
#[verifier::external_body]
#[verifier::reject_recursive_types(T)]
pub struct ExSender<T>(Sender<T>);

/// `crossbeam_channel::Receiver`, the receiving half of a channel.
#[verifier::external_type_specification]
#[verifier::external_body]
#[verifier::reject_recursive_types(T)]
pub struct ExReceiver<T>(Receiver<T>);

/// The channel that a sender sends into.
pub uninterp spec fn sender_channel(tx: Sender<Event>) -> int;

/// The channel that a receiver receives from.
pub uninterp spec fn receiver_channel(rx: Receiver<Event>) -> int;

/// `crossbeam_channel::unbounded`: a new channel without a capacity limit,
/// as a sender and a receiver of that same channel.
#[verifier::external_body]
pub(crate) fn new_channel() -> (r: (Sender<Event>, Receiver<Event>))
    ensures
        sender_channel(r.0) == receiver_channel(r.1),
{
    crossbeam_channel::unbounded()
}

/// `Sender::clone`: another sender for the same channel.
#[verifier::external_body]
pub(crate) fn clone_sender(tx: &Sender<Event>) -> (r: Sender<Event>)
    ensures
        sender_channel(r) == sender_channel(*tx),
{
    tx.clone()
}

/// The model of a subscription: its number, the channel it feeds, and the
/// events handed to it so far, oldest first.
pub struct SubView {
    pub id: u64,
    pub channel: int,
    pub sent: Seq<EventView>,
}

/// One subscription: its number, the sender to its subscriber's channel, and
/// the events handed to that sender so far. The fields are private to this
/// module: outside it, a subscription is made by `new` or `copy` and sends
/// by `send`.
pub(crate) struct Subscription {
    id: u64,
    sender: Sender<Event>,
    sent: Ghost<Seq<EventView>>,
}

impl View for Subscription {
    type V = SubView;

    closed spec fn view(&self) -> SubView {
        SubView { id: self.id, channel: sender_channel(self.sender), sent: self.sent@ }
    }
}

impl Subscription {
    /// A subscription numbered `id` over the sender `tx`, handed nothing yet.
    pub(crate) fn new(id: u64, tx: Sender<Event>) -> (r: Self)
        ensures
            r@ == (SubView { id, channel: sender_channel(tx), sent: Seq::empty() }),
    {
        let sent: Ghost<Seq<EventView>> = Ghost(Seq::empty());
        Subscription { id, sender: tx, sent }
    }

    /// The same subscription, with another sender to the same channel.
    pub(crate) fn copy(&self) -> (r: Self)
        ensures
            r@ == self@,
    {
        let sent: Ghost<Seq<EventView>> = Ghost(self.sent@);
        Subscription { id: self.id, sender: clone_sender(&self.sender), sent }
    }

    /// `Sender::send` on the subscription's sender: `event` is handed to the
    /// sender, and so recorded; the result is whether it went into the
    /// channel, which fails when every receiver of the channel is gone.
    /// Nothing is stated of which outcome comes.
    #[verifier::external_body]
    pub(crate) fn send(&mut self, event: Event) -> (ok: bool)
        ensures
            final(self)@ == (SubView {
                id: old(self)@.id,
                channel: old(self)@.channel,
                sent: old(self)@.sent.push(event@),
            }),
    {
        self.sender.send(event).is_ok()
    }
}

} // verus!

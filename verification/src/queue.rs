//! The messages that wait to be sent.
use tokio::sync::mpsc::{UnboundedReceiver, UnboundedSender};
use vstd::prelude::*;

verus! {

/// Declares the sending half of an unbounded channel of [`tokio::sync::mpsc`].
#[verifier::external_type_specification]
#[verifier::external_body]
#[verifier::reject_recursive_types(T)]
pub struct ExUnboundedSender<T>(tokio::sync::mpsc::UnboundedSender<T>);

/// Declares the receiving half of an unbounded channel of [`tokio::sync::mpsc`].
#[verifier::external_type_specification]
#[verifier::external_body]
#[verifier::reject_recursive_types(T)]
pub struct ExUnboundedReceiver<T>(tokio::sync::mpsc::UnboundedReceiver<T>);

/// The messages in a channel, the oldest first.
pub uninterp spec fn queued(receiver: UnboundedReceiver<Vec<u8>>) -> Seq<Seq<u8>>;

/// Whether a sender sends into the channel of a receiver that has not been closed.
pub uninterp spec fn feeds(
    sender: UnboundedSender<Vec<u8>>,
    receiver: UnboundedReceiver<Vec<u8>>,
) -> bool;

/// Calls [`tokio::sync::mpsc::unbounded_channel`]: both halves belong to one channel, which is
/// open and empty.
#[verifier::external_body]
fn open_channel() -> (r: (UnboundedSender<Vec<u8>>, UnboundedReceiver<Vec<u8>>))
    ensures
        feeds(r.0, r.1),
        queued(r.1) == Seq::<Seq<u8>>::empty(),
{
    tokio::sync::mpsc::unbounded_channel()
}

/// Calls [`UnboundedSender::send`]: as the channel is open, the message goes behind those that are
/// in it, and the call succeeds. The receiver is taken along because its channel changes.
#[verifier::external_body]
fn channel_send(
    sender: &UnboundedSender<Vec<u8>>,
    receiver: &mut UnboundedReceiver<Vec<u8>>,
    message: Vec<u8>,
) -> (r: bool)
    requires
        feeds(*sender, *old(receiver)),
    ensures
        r,
        feeds(*sender, *final(receiver)),
        queued(*final(receiver)) == queued(*old(receiver)).push(message@),
{
    sender.send(message).is_ok()
}

/// Calls [`UnboundedReceiver::try_recv`]: it takes the oldest message out of the channel, or
/// gives nothing if there is none. Who feeds the channel stays as it was.
#[verifier::external_body]
fn channel_try_recv(receiver: &mut UnboundedReceiver<Vec<u8>>) -> (r: Option<Vec<u8>>)
    ensures
        forall|sender: UnboundedSender<Vec<u8>>|
            feeds(sender, *old(receiver)) ==> #[trigger] feeds(sender, *final(receiver)),
        queued(*old(receiver)).len() == 0 ==> r is None && queued(*final(receiver)) == queued(
            *old(receiver),
        ),
        queued(*old(receiver)).len() > 0 ==> {
            &&& r matches Some(m)
            &&& m@ == queued(*old(receiver))[0]
            &&& queued(*final(receiver)) == queued(*old(receiver)).skip(1)
        },
{
    receiver.try_recv().ok()
}

/// A queue of messages whose first message can be looked at.
#[derive(Debug)]
pub struct MessageQueue {
    sender: UnboundedSender<Vec<u8>>,
    receiver: UnboundedReceiver<Vec<u8>>,
    peeked: Option<Vec<u8>>,
}

impl MessageQueue {
    /// The two halves of the channel belong together.
    pub closed spec fn wf(&self) -> bool {
        feeds(self.sender, self.receiver)
    }

    /// The messages in the queue, the next one first.
    pub closed spec fn pending(&self) -> Seq<Seq<u8>> {
        match self.peeked {
            Some(m) => seq![m@] + queued(self.receiver),
            None => queued(self.receiver),
        }
    }

    /// An empty queue.
    pub fn new() -> (r: MessageQueue)
        ensures
            r.wf(),
            r.pending() == Seq::<Seq<u8>>::empty(),
    {
        let (sender, receiver) = open_channel();
        MessageQueue { sender, receiver, peeked: None }
    }

    /// Takes the next message.
    pub fn try_recv(&mut self) -> (r: Option<Vec<u8>>)
        requires
            old(self).wf(),
        ensures
            final(self).wf(),
            old(self).pending().len() == 0 ==> r is None && final(self).pending() == old(
                self,
            ).pending(),
            old(self).pending().len() > 0 ==> {
                &&& r matches Some(m)
                &&& m@ == old(self).pending()[0]
                &&& final(self).pending() == old(self).pending().skip(1)
            },
    {
        let peeked = self.peeked.take();
        match peeked {
            Some(msg) => {
                assert(self.pending() =~= old(self).pending().skip(1));
                Some(msg)
            },
            None => channel_try_recv(&mut self.receiver),
        }
    }

    /// Looks at the next message, which stays in the queue.
    pub fn try_peek(&mut self) -> (r: Option<&Vec<u8>>)
        requires
            old(self).wf(),
        ensures
            final(self).wf(),
            final(self).pending() == old(self).pending(),
            match r {
                Some(m) => old(self).pending().len() > 0 && m@ == old(self).pending()[0],
                None => old(self).pending().len() == 0,
            },
    {
        if self.peeked.is_none() {
            self.peeked = channel_try_recv(&mut self.receiver);
            assert(self.pending() =~= old(self).pending());
        }
        self.peeked.as_ref()
    }

    /// Puts a message behind all others.
    pub fn send(&mut self, msg: Vec<u8>)
        requires
            old(self).wf(),
        ensures
            final(self).wf(),
            final(self).pending() == old(self).pending().push(msg@),
    {
        let _ = channel_send(&self.sender, &mut self.receiver, msg);
        assert(self.pending() =~= old(self).pending().push(msg@));
    }
}

} // verus!

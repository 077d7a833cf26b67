//! The queue of committed transactions, for consumers that follow the
//! journal: an unbounded flume channel of stored transactions.
//!
//! What waits in a channel is not visible to the verifier. It is named
//! here, and the contracts of the calls into flume say over that name what
//! flume documents of each call.

use vstd::prelude::*;
use crate::transaction::{JournalTransaction, JournalTransactionView};
use crate::wire::block_views;

verus! {

/// `flume::Sender`.
#[verifier::external_type_specification]
#[verifier::external_body]
#[verifier::reject_recursive_types(T)]
pub struct ExSender<T>(flume::Sender<T>);

/// `flume::Receiver`.
#[verifier::external_type_specification]
#[verifier::external_body]
#[verifier::reject_recursive_types(T)]
pub struct ExReceiver<T>(flume::Receiver<T>);

/// The messages that wait in the channel that `receiver` reads from, the
/// oldest first.
pub uninterp spec fn waiting(receiver: flume::Receiver<Vec<u8>>) -> Seq<Seq<u8>>;

/// Whether `sender` and `receiver` are the two ends of one unbounded
/// channel.
pub uninterp spec fn feeds(sender: flume::Sender<Vec<u8>>, receiver: flume::Receiver<Vec<u8>>) -> bool;

/// `flume::unbounded`: the two ends of a new channel, in which no message
/// waits.
#[verifier::external_body]
fn unbounded() -> (ends: (flume::Sender<Vec<u8>>, flume::Receiver<Vec<u8>>))
    ensures
        feeds(ends.0, ends.1),
        waiting(ends.1) == Seq::<Seq<u8>>::empty(),
{
    flume::unbounded()
}

/// `Sender::send`, on the sender of the unbounded channel that `receiver`
/// reads from: the message waits behind those that waited before. The
/// result says whether the message was sent. flume refuses a message only
/// where every receiver of the channel was dropped, and does not block on
/// an unbounded channel: with `receiver` at hand the message is sent.
#[verifier::external_body]
fn send(
    sender: &flume::Sender<Vec<u8>>,
    receiver: &mut flume::Receiver<Vec<u8>>,
    message: Vec<u8>,
) -> (sent: bool)
    requires
        feeds(*sender, *old(receiver)),
    ensures
        sent,
        feeds(*sender, *final(receiver)),
        waiting(*final(receiver)) == waiting(*old(receiver)).push(message@),
{
    sender.send(message).is_ok()
}

/// `Receiver::drain`: the messages that waited, the oldest first; none of
/// them waits afterwards.
#[verifier::external_body]
fn drain(sender: &flume::Sender<Vec<u8>>, receiver: &mut flume::Receiver<Vec<u8>>) -> (messages: Vec<
    Vec<u8>,
>)
    requires
        feeds(*sender, *old(receiver)),
    ensures
        feeds(*sender, *final(receiver)),
        block_views(messages@) == waiting(*old(receiver)),
        waiting(*final(receiver)) == Seq::<Seq<u8>>::empty(),
{
    receiver.drain().collect()
}

/// The queue of the transactions that were committed and are yet to be
/// drained, in the order of their commits.
pub struct TransactionQueue {
    sender: flume::Sender<Vec<u8>>,
    receiver: flume::Receiver<Vec<u8>>,
}

impl TransactionQueue {
    /// The two ends of the queue are those of one channel, and every
    /// message that waits is the stored form of a transaction.
    pub closed spec fn wf(&self) -> bool {
        &&& feeds(self.sender, self.receiver)
        &&& forall|i: int|
            0 <= i < waiting(self.receiver).len() ==> JournalTransactionView::decoding(
                #[trigger] waiting(self.receiver)[i],
            ) is Some
    }

    /// The transactions that wait, the oldest first.
    pub closed spec fn queued(&self) -> Seq<JournalTransactionView> {
        Seq::new(
            waiting(self.receiver).len(),
            |i: int| JournalTransactionView::decoding(waiting(self.receiver)[i])->0,
        )
    }

    /// An empty queue.
    pub fn new() -> (queue: Self)
        ensures
            queue.wf(),
            queue.queued() == Seq::<JournalTransactionView>::empty(),
    {
        let (sender, receiver) = unbounded();
        let queue = TransactionQueue { sender, receiver };
        assert(queue.queued() =~= Seq::<JournalTransactionView>::empty());
        queue
    }

    /// Queue a transaction behind those that wait. The queue holds both
    /// ends of its channel, so the transaction is always queued, and the
    /// result says so.
    pub fn push(&mut self, tx: &JournalTransaction) -> (sent: bool)
        requires
            old(self).wf(),
        ensures
            sent,
            final(self).wf(),
            final(self).queued() == old(self).queued().push(tx@),
    {
        let bytes = tx.encode();
        let sent = send(&self.sender, &mut self.receiver, bytes);
        proof {
            assert(self.queued() =~= old(self).queued().push(tx@));
        }
        sent
    }

    /// Hand out the transactions that wait, the oldest first, and leave
    /// the queue empty.
    pub fn drain(&mut self) -> (drained: Vec<JournalTransaction>)
        requires
            old(self).wf(),
        ensures
            final(self).wf(),
            final(self).queued() == Seq::<JournalTransactionView>::empty(),
            drained@.len() == old(self).queued().len(),
            forall|i: int| 0 <= i < drained@.len() ==> (#[trigger] drained@[i])@ == old(self).queued()[i],
    {
        let messages = drain(&self.sender, &mut self.receiver);
        let ghost waited = waiting(old(self).receiver);
        let mut drained: Vec<JournalTransaction> = Vec::new();
        let mut i: usize = 0;
        while i < messages.len()
            invariant
                i <= messages.len(),
                block_views(messages@) == waited,
                waited == waiting(old(self).receiver),
                old(self).wf(),
                drained@.len() == i,
                forall|j: int| 0 <= j < i ==> (#[trigger] drained@[j])@ == old(self).queued()[j],
            decreases messages.len() - i,
        {
            assert(block_views(messages@)[i as int] == messages@[i as int]@);
            assert(JournalTransactionView::decoding(waited[i as int]) is Some);
            match JournalTransaction::decode(messages[i].as_slice()) {
                Some(tx) => {
                    drained.push(tx);
                },
                None => {},
            }
            i += 1;
        }
        assert(self.queued() =~= Seq::<JournalTransactionView>::empty());
        drained
    }
}

} // verus!

use vstd::prelude::*;

use crate::nics::NicId;

verus! {

/// An envelope in flight: who sent it and its opaque payload.
///
/// `from` is the identity of the sending interface; the envelope sits in
/// the mailbox of the node owning the far end of that interface's link.
pub struct IncomingMsg {
    pub from: NicId,
    pub data: Vec<u8>,
}

/// A message a node has queued for delivery out of one of its interfaces.
/// The scheduler resolves the interface's assigned link to find the
/// destination mailbox.
pub struct OutgoingMsg {
    pub from: NicId,
    pub data: Vec<u8>,
}

/// A per-node queue of pending inbound envelopes, plus the node's queue of
/// not-yet-routed outbound messages.
///
/// Envelopes are observed by receives in the exact order they were
/// enqueued: first in, first out.
pub struct Mailbox {
    incoming: Vec<IncomingMsg>,
    outgoing: Vec<OutgoingMsg>,
}

impl Mailbox {
    /// Pending inbound envelopes, oldest first.
    pub closed spec fn incoming_seq(&self) -> Seq<IncomingMsg> {
        self.incoming@
    }

    /// Queued outbound messages, oldest first.
    pub closed spec fn outgoing_seq(&self) -> Seq<OutgoingMsg> {
        self.outgoing@
    }

    /// An empty mailbox, as every node starts the run phase with.
    pub fn new() -> (r: Mailbox)
        ensures
            r.incoming_seq() == Seq::<IncomingMsg>::empty(),
            r.outgoing_seq() == Seq::<OutgoingMsg>::empty(),
    {
        let r = Mailbox { incoming: Vec::new(), outgoing: Vec::new() };
        proof {
            assert(r.incoming_seq() =~= Seq::<IncomingMsg>::empty());
            assert(r.outgoing_seq() =~= Seq::<OutgoingMsg>::empty());
        }
        r
    }

    /// Append an inbound envelope; only the scheduler delivers.
    pub fn enqueue(&mut self, msg: IncomingMsg)
        ensures
            final(self).incoming_seq() == old(self).incoming_seq().push(msg),
            final(self).outgoing_seq() == old(self).outgoing_seq(),
    {
        self.incoming.push(msg);
    }

    /// Queue a message for delivery on a later scheduling tick.
    pub fn send(&mut self, msg: OutgoingMsg)
        ensures
            final(self).outgoing_seq() == old(self).outgoing_seq().push(msg),
            final(self).incoming_seq() == old(self).incoming_seq(),
    {
        self.outgoing.push(msg);
    }

    /// Begin a receive. The returned operation resolves on the first poll
    /// that finds an envelope present; until then it stays pending.
    pub fn recv(&self) -> (r: RecvMessage) {
        RecvMessage {  }
    }

    /// Whether any envelope is pending.
    pub fn has_incoming(&self) -> (r: bool)
        ensures
            r <==> self.incoming_seq().len() > 0,
    {
        self.incoming.len() > 0
    }

    /// Whether anything is queued for sending.
    pub fn has_outgoing(&self) -> (r: bool)
        ensures
            r <==> self.outgoing_seq().len() > 0,
    {
        self.outgoing.len() > 0
    }

    /// How many envelopes are pending.
    pub fn incoming_len(&self) -> (r: usize)
        ensures
            r == self.incoming_seq().len(),
    {
        self.incoming.len()
    }

    /// Drain the outbound queue for routing, oldest first.
    pub(crate) fn take_outgoing(&mut self) -> (r: Vec<OutgoingMsg>)
        ensures
            r@ == old(self).outgoing_seq(),
            final(self).outgoing_seq() == Seq::<OutgoingMsg>::empty(),
            final(self).incoming_seq() == old(self).incoming_seq(),
    {
        let mut drained: Vec<OutgoingMsg> = Vec::new();
        core::mem::swap(&mut drained, &mut self.outgoing);
        drained
    }
}

/// A pending receive: the explicit, resumable form of a suspended wait for
/// mail. The scheduler re-polls it on later ticks instead of blocking or
/// busy-spinning a thread.
pub struct RecvMessage {}

impl RecvMessage {
    /// One poll of the pending receive.
    ///
    /// Resolves to the oldest pending envelope if one is present. On a tick
    /// where nothing has been enqueued it stays pending — it never resolves
    /// without a prior matching delivery — and the mailbox is untouched.
    pub fn poll(&self, mailbox: &mut Mailbox) -> (r: Option<IncomingMsg>)
        ensures
            r is Some <==> old(mailbox).incoming_seq().len() > 0,
            r is None ==> *final(mailbox) == *old(mailbox),
            r is Some ==> r == Some(old(mailbox).incoming_seq()[0])
                && final(mailbox).incoming_seq() == old(mailbox).incoming_seq().remove(0),
            final(mailbox).outgoing_seq() == old(mailbox).outgoing_seq(),
    {
        if mailbox.incoming.len() > 0 {
            Some(mailbox.incoming.remove(0))
        } else {
            None
        }
    }
}

/// Per-mailbox delivery is first in, first out: three envelopes enqueued
/// into an empty mailbox as `a`, then `b`, then `c` are yielded by three
/// successive receives as `a`, then `b`, then `c`, leaving the mailbox
/// empty.
pub proof fn lemma_mailbox_fifo(
    q: Seq<IncomingMsg>,
    a: IncomingMsg,
    b: IncomingMsg,
    c: IncomingMsg,
)
    requires
        q.len() == 0,
    ensures
        ({
            let q3 = q.push(a).push(b).push(c);
            &&& q3[0] == a
            &&& q3.remove(0)[0] == b
            &&& q3.remove(0).remove(0)[0] == c
            &&& q3.remove(0).remove(0).remove(0).len() == 0
        }),
{
    let q3 = q.push(a).push(b).push(c);
    assert(q3 =~= seq![a, b, c]);
    assert(q3.remove(0) =~= seq![b, c]);
    assert(q3.remove(0).remove(0) =~= seq![c]);
    assert(q3.remove(0).remove(0).remove(0) =~= Seq::<IncomingMsg>::empty());
}

} // verus!

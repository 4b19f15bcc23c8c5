use vstd::prelude::*;

verus! {

use core::marker::PhantomData;

use crate::node_id::NodeId;
use crate::wire::WirePayload;
use crate::wire::encode_record;
use crate::wire::wire_record;

/// A message's unique identifier within a node: a monotonically increasing
/// counter value, never reused within one node process. Ordering is not
/// semantically meaningful beyond uniqueness and freshness.
#[derive(PartialEq, Eq, Structural, Clone, Copy, Debug, Hash)]
pub struct MessageId(pub u64);

impl View for MessageId {
    type V = u64;

    open spec fn view(&self) -> u64 {
        self.0
    }
}

impl MessageId {
    /// The identifier's counter value.
    pub fn value(&self) -> (r: u64)
        ensures
            r == self@,
    {
        self.0
    }
}

/// A message's header: everything except the payload. Replies echo
/// `src`/`dest` swapped and carry the request's `msg_id` as `in_reply_to`.
#[derive(PartialEq, Eq, Clone, Copy, Debug)]
pub struct MessageHeader {
    pub src: NodeId,
    pub dest: NodeId,
    pub msg_id: Option<MessageId>,
    pub in_reply_to: Option<MessageId>,
}

/// A message of the line-delimited protocol: a header and a payload. Created
/// by exactly one side, immutable afterwards; whichever queue holds it owns
/// it.
#[derive(PartialEq, Eq, Clone, Debug)]
pub struct Message<P> {
    pub header: MessageHeader,
    pub payload: P,
}

impl<P> Message<P> {
    /// Convert the payload type, keeping the header.
    pub fn mapped<Q: From<P>>(self) -> (r: Message<Q>)
        ensures
            r.header == self.header,
            <Q as vstd::std_specs::convert::FromSpec<P>>::obeys_from_spec() ==> r.payload
                == <Q as vstd::std_specs::convert::FromSpec<P>>::from_spec(self.payload),
    {
        Message { header: self.header, payload: Q::from(self.payload) }
    }
}

/// The source of fresh message identifiers for one node instance: an
/// explicit per-instance counter, so each node is testable in isolation.
/// Its view is the next identifier value to be drawn.
#[derive(Debug)]
pub struct MessageIdGenerator {
    next: u64,
}

impl View for MessageIdGenerator {
    type V = u64;

    closed spec fn view(&self) -> u64 {
        self.next
    }
}

impl Default for MessageIdGenerator {
    /// A fresh generator starts at zero.
    fn default() -> (r: Self)
        ensures
            r@ == 0,
    {
        MessageIdGenerator { next: 0 }
    }
}

impl MessageIdGenerator {
    /// Draw the next identifier. Each drawn identifier equals the count of
    /// identifiers drawn before it, so successive identifiers strictly
    /// increase and never repeat.
    ///
    /// Exhausting the identifier range is an unrecoverable condition that is
    /// expected never to occur; callers keep the counter below the ceiling.
    pub fn next_id(&mut self) -> (id: MessageId)
        requires
            old(self)@ < u64::MAX,
        ensures
            id@ == old(self)@,
            final(self)@ == old(self)@ + 1,
    {
        let id = MessageId(self.next);
        self.next = self.next + 1;
        id
    }
}

/// The identifier values drawn by `n` successive calls of
/// [`MessageIdGenerator::next_id`] on a generator whose counter stands at
/// `start`.
pub open spec fn ids_drawn(start: u64, n: nat) -> Seq<u64> {
    Seq::new(n, |i: int| (start + i) as u64)
}

/// Message identifiers observed across any sequence of sends from one node
/// are strictly increasing, and never repeat.
pub proof fn lemma_message_ids_strictly_increase(start: u64, n: nat)
    requires
        start + n <= u64::MAX + 1,
    ensures
        forall|i: int, j: int|
            0 <= i < j < n ==> #[trigger] ids_drawn(start, n)[i] < #[trigger] ids_drawn(start, n)[j],
{
}

/// The only way of sending messages: it assigns every outgoing message a
/// fresh [`MessageId`], encodes it, and queues the record for the output
/// writer, which hands the records on in queue order.
#[derive(Debug)]
pub struct MessageTransmitter<P> {
    src: NodeId,
    msg_ids: MessageIdGenerator,
    outgoing: Vec<String>,
    _payload: PhantomData<P>,
}

impl<P> MessageTransmitter<P> {
    /// The node identifier stamped on outgoing messages.
    pub closed spec fn src_id(self) -> NodeId {
        self.src
    }

    /// The next message identifier value to be assigned.
    pub closed spec fn next_msg_id(self) -> u64 {
        self.msg_ids@
    }

    /// The next message identifier value, for callers that must check the
    /// ceiling before drawing an identifier.
    pub fn next_id_value(&self) -> (r: u64)
        ensures
            r == self.next_msg_id(),
    {
        self.msg_ids.next
    }

    /// The records queued for the output writer, oldest first.
    pub closed spec fn queued(self) -> Seq<Seq<char>> {
        self.outgoing@.map_values(|s: String| s@)
    }

    /// A transmitter for messages from `src`, with nothing queued yet.
    pub fn new(src: NodeId) -> (r: Self)
        ensures
            r.src_id() == src,
            r.next_msg_id() == 0,
            r.queued() == Seq::<Seq<char>>::empty(),
    {
        let r = MessageTransmitter {
            src,
            msg_ids: Default::default(),
            outgoing: Vec::new(),
            _payload: PhantomData,
        };
        proof {
            assert(r.queued() =~= Seq::<Seq<char>>::empty());
        }
        r
    }

    /// Changes the payload type, keeping the identifier counter and the
    /// queued records.
    pub fn into<Q>(self) -> (r: MessageTransmitter<Q>)
        ensures
            r.src_id() == self.src_id(),
            r.next_msg_id() == self.next_msg_id(),
            r.queued() == self.queued(),
    {
        MessageTransmitter {
            src: self.src,
            msg_ids: self.msg_ids,
            outgoing: self.outgoing,
            _payload: PhantomData,
        }
    }

    /// Prepares a message for later sending: stamps it with this node as
    /// source and a fresh identifier.
    pub fn prepare<Q>(&mut self, dest: NodeId, in_reply_to: Option<MessageId>, payload: Q) -> (r:
        Message<Q>)
        requires
            old(self).next_msg_id() < u64::MAX,
        ensures
            r.header.src == old(self).src_id(),
            r.header.dest == dest,
            r.header.msg_id matches Some(id) && id@ == old(self).next_msg_id(),
            r.header.in_reply_to == in_reply_to,
            r.payload == payload,
            final(self).next_msg_id() == old(self).next_msg_id() + 1,
            final(self).src_id() == old(self).src_id(),
            final(self).queued() == old(self).queued(),
    {
        Message {
            header: MessageHeader {
                src: self.src,
                dest,
                msg_id: Some(self.msg_ids.next_id()),
                in_reply_to,
            },
            payload,
        }
    }

    /// Take the queued records, oldest first, leaving the queue empty. The
    /// output writer emits them in this order, one line each.
    pub fn take_outgoing(&mut self) -> (r: Vec<String>)
        ensures
            r@.map_values(|s: String| s@) == old(self).queued(),
            final(self).queued() == Seq::<Seq<char>>::empty(),
            final(self).src_id() == old(self).src_id(),
            final(self).next_msg_id() == old(self).next_msg_id(),
    {
        let mut taken: Vec<String> = Vec::new();
        core::mem::swap(&mut taken, &mut self.outgoing);
        proof {
            assert(self.queued() =~= Seq::<Seq<char>>::empty());
        }
        taken
    }
}

impl<P: WirePayload> MessageTransmitter<P> {
    /// Sends a prepared message: encodes it and queues the record.
    pub fn send_message(&mut self, message: &Message<P>)
        ensures
            final(self).queued() == old(self).queued().push(
                wire_record(message.header, message.payload.fragment()),
            ),
            final(self).src_id() == old(self).src_id(),
            final(self).next_msg_id() == old(self).next_msg_id(),
    {
        let fragment = message.payload.render_fragment();
        let record = encode_record(&message.header, fragment.as_str());
        self.outgoing.push(record);
        proof {
            assert(self.queued() =~= old(self).queued().push(
                wire_record(message.header, message.payload.fragment()),
            ));
        }
    }

    /// Sends a message to `dest` carrying `payload`, under a fresh
    /// identifier, and returns that identifier.
    pub fn send(&mut self, dest: NodeId, payload: P) -> (id: MessageId)
        requires
            old(self).next_msg_id() < u64::MAX,
        ensures
            id@ == old(self).next_msg_id(),
            final(self).next_msg_id() == old(self).next_msg_id() + 1,
            final(self).src_id() == old(self).src_id(),
            final(self).queued() == old(self).queued().push(
                wire_record(
                    MessageHeader {
                        src: old(self).src_id(),
                        dest,
                        msg_id: Some(MessageId(old(self).next_msg_id())),
                        in_reply_to: None,
                    },
                    payload.fragment(),
                ),
            ),
    {
        let message = self.prepare(dest, None, payload);
        self.send_message(&message);
        match message.header.msg_id {
            Some(id) => id,
            None => unreached(),
        }
    }

    /// Sends a reply to the message that carried `header`: addressed back to
    /// its source, with `in_reply_to` echoing its identifier. Returns the
    /// reply's own fresh identifier.
    pub fn reply(&mut self, header: &MessageHeader, payload: P) -> (id: MessageId)
        requires
            old(self).next_msg_id() < u64::MAX,
            header.msg_id is Some,
        ensures
            id@ == old(self).next_msg_id(),
            final(self).next_msg_id() == old(self).next_msg_id() + 1,
            final(self).src_id() == old(self).src_id(),
            final(self).queued() == old(self).queued().push(
                wire_record(
                    MessageHeader {
                        src: old(self).src_id(),
                        dest: header.src,
                        msg_id: Some(MessageId(old(self).next_msg_id())),
                        in_reply_to: header.msg_id,
                    },
                    payload.fragment(),
                ),
            ),
    {
        let message = self.prepare(header.src, header.msg_id, payload);
        self.send_message(&message);
        match message.header.msg_id {
            Some(id) => id,
            None => unreached(),
        }
    }
}

} // verus!

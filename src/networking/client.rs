use crate::networking::{decode, encode, spec_decode, spec_encode, GameMessage, MessageView};
use vstd::prelude::*;

verus! {

/// A list of messages received from the server. The most recently received
/// message is taken first.
pub struct ServerMessages(Vec<GameMessage>);

impl View for ServerMessages {
    type V = Seq<MessageView>;

    closed spec fn view(&self) -> Seq<MessageView> {
        self.0@.map_values(|m: GameMessage| m@)
    }
}

impl ServerMessages {
    /// An empty inbox.
    pub fn new() -> (r: Self)
        ensures
            r@ == Seq::<MessageView>::empty(),
    {
        ServerMessages(Vec::new())
    }

    /// Number of messages waiting.
    pub fn len(&self) -> (n: usize)
        ensures
            n == self@.len(),
    {
        self.0.len()
    }

    /// Takes the most recently received message, if any.
    pub fn pop_message(&mut self) -> (r: Option<GameMessage>)
        ensures
            old(self)@.len() == 0 ==> r is None && final(self)@ == old(self)@,
            old(self)@.len() > 0 ==> r is Some && r->0@ == old(self)@.last() && final(self)@
                == old(self)@.drop_last(),
    {
        if !self.0.is_empty() {
            let r = self.0.pop();
            assert(self@ =~= old(self)@.drop_last());
            r
        } else {
            None
        }
    }

    /// Decodes a payload received from the server and keeps the message. A
    /// payload that holds no message is dropped; the result says whether the
    /// payload was kept.
    pub fn receive(&mut self, payload: &[u8]) -> (kept: bool)
        ensures
            kept == spec_decode(payload@) is Some,
            kept ==> final(self)@ == old(self)@.push(spec_decode(payload@)->0),
            !kept ==> final(self)@ == old(self)@,
    {
        match decode(payload) {
            Some(m) => {
                self.0.push(m);
                assert(self@ =~= old(self)@.push(spec_decode(payload@)->0));
                true
            },
            None => false,
        }
    }
}

/// A list of messages to send to the server.
pub struct MessageQueue(Vec<GameMessage>);

impl View for MessageQueue {
    type V = Seq<MessageView>;

    closed spec fn view(&self) -> Seq<MessageView> {
        self.0@.map_values(|m: GameMessage| m@)
    }
}

impl MessageQueue {
    /// An empty queue.
    pub fn new() -> (r: Self)
        ensures
            r@ == Seq::<MessageView>::empty(),
    {
        MessageQueue(Vec::new())
    }

    /// Queues a message for the server.
    pub fn send_message(&mut self, message: GameMessage)
        ensures
            final(self)@ == old(self)@.push(message@),
    {
        self.0.push(message);
        assert(self@ =~= old(self)@.push(message@));
    }

    /// Empties the queue, handing back each message encoded for the wire, in
    /// the order in which they were queued.
    pub fn drain_encoded(&mut self) -> (out: Vec<Vec<u8>>)
        ensures
            final(self)@.len() == 0,
            out@.len() == old(self)@.len(),
            forall|i: int|
                0 <= i < out@.len() ==> (#[trigger] out@[i])@ == spec_encode(old(self)@[i]),
    {
        let mut out: Vec<Vec<u8>> = Vec::new();
        for i in 0..self.0.len()
            invariant
                self@ == old(self)@,
                out@.len() == i,
                forall|j: int| 0 <= j < i ==> (#[trigger] out@[j])@ == spec_encode(old(self)@[j]),
        {
            out.push(encode(&self.0[i]));
        }
        self.0.clear();
        assert(self@ =~= Seq::<MessageView>::empty());
        out
    }
}

} // verus!

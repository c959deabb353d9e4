use crate::networking::{decode, encode, spec_decode, spec_encode, GameMessage, MessageView};
use vstd::prelude::*;

verus! {

/// A list of messages received from different clients, as pairs of the
/// sender's client id and the message. The most recently received message
/// is taken first.
pub struct ClientMessages(pub Vec<(u64, GameMessage)>);

impl View for ClientMessages {
    type V = Seq<(u64, MessageView)>;

    open spec fn view(&self) -> Seq<(u64, MessageView)> {
        self.0@.map_values(|e: (u64, GameMessage)| (e.0, e.1@))
    }
}

impl ClientMessages {
    /// An empty inbox.
    pub fn new() -> (r: Self)
        ensures
            r@ == Seq::<(u64, MessageView)>::empty(),
    {
        ClientMessages(Vec::new())
    }

    /// Takes the most recently received message, if any.
    pub fn pop_message(&mut self) -> (r: Option<(u64, GameMessage)>)
        ensures
            old(self)@.len() == 0 ==> r is None && final(self)@ == old(self)@,
            old(self)@.len() > 0 ==> final(self)@ == old(self)@.drop_last() && match r {
                Some((id, m)) => (id, m@) == old(self)@.last(),
                None => false,
            },
    {
        if !self.0.is_empty() {
            let r = self.0.pop();
            assert(self@ =~= old(self)@.drop_last());
            r
        } else {
            None
        }
    }

    /// Decodes a payload received from `client_id` and keeps the message.
    /// A payload that holds no message is dropped; the result says whether
    /// the payload was kept.
    pub fn receive(&mut self, client_id: u64, payload: &[u8]) -> (kept: bool)
        ensures
            kept == spec_decode(payload@) is Some,
            kept ==> final(self)@ == old(self)@.push((client_id, spec_decode(payload@)->0)),
            !kept ==> final(self)@ == old(self)@,
    {
        match decode(payload) {
            Some(m) => {
                self.0.push((client_id, m));
                assert(self@ =~= old(self)@.push((client_id, spec_decode(payload@)->0)));
                true
            },
            None => false,
        }
    }
}

/// A list of messages to send, each with the client it is for; `None`
/// broadcasts the message to every connected client.
pub struct MessageQueue(pub Vec<(Option<u64>, GameMessage)>);

impl View for MessageQueue {
    type V = Seq<(Option<u64>, MessageView)>;

    open spec fn view(&self) -> Seq<(Option<u64>, MessageView)> {
        self.0@.map_values(|e: (Option<u64>, GameMessage)| (e.0, e.1@))
    }
}

impl MessageQueue {
    /// An empty queue.
    pub fn new() -> (r: Self)
        ensures
            r@ == Seq::<(Option<u64>, MessageView)>::empty(),
    {
        MessageQueue(Vec::new())
    }

    /// Queues `message` for `client_id`, or for every client if it is `None`.
    pub fn send_message(&mut self, client_id: Option<u64>, message: GameMessage)
        ensures
            final(self)@ == old(self)@.push((client_id, message@)),
    {
        self.0.push((client_id, message));
        assert(self@ =~= old(self)@.push((client_id, message@)));
    }

    /// Empties the queue, handing back each message encoded for the wire
    /// with its target, in the order in which they were queued.
    pub fn drain_encoded(&mut self) -> (out: Vec<(Option<u64>, Vec<u8>)>)
        ensures
            final(self)@.len() == 0,
            out@.len() == old(self)@.len(),
            forall|i: int|
                0 <= i < out@.len() ==> (#[trigger] out@[i]).0 == old(self)@[i].0
                    && out@[i].1@ == spec_encode(old(self)@[i].1),
    {
        let mut out: Vec<(Option<u64>, Vec<u8>)> = Vec::new();
        for i in 0..self.0.len()
            invariant
                self@ == old(self)@,
                out@.len() == i,
                forall|j: int|
                    0 <= j < i ==> (#[trigger] out@[j]).0 == old(self)@[j].0 && out@[j].1@
                        == spec_encode(old(self)@[j].1),
        {
            let entry = &self.0[i];
            let bytes = encode(&entry.1);
            out.push((entry.0, bytes));
        }
        self.0.clear();
        assert(self@ =~= Seq::<(Option<u64>, MessageView)>::empty());
        out
    }
}

} // verus!

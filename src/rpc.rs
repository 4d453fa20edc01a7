use crate::message::{Message, MessageType, Response};
use crate::table::{has_key, keys_distinct, lemma_stored, lemma_taken, lookup, stored, taken, KeyTable};
use vstd::prelude::*;

verus! {

/// Most requests that one lookup round sends at once.
pub const CONCCURENT_REQS: usize = 3;

/// Seconds that a request waits for its response.
pub const TIMEOUT_SECS: u64 = 5;

/// Largest datagram that a node receives.
pub const MAX_DATAGRAM: usize = 4096;

/// In-flight requests: for each request identifier, the slot its response is delivered to.
pub type PendingTable<T> = KeyTable<T>;

/// A request registered under a fresh identifier is answered exactly once: the first
/// delivery for that identifier (its response, or the timeout, whichever comes first)
/// takes the waiting slot, a second delivery finds nothing, the other requests are left
/// as they were, and the table is back to its size before the request.
pub proof fn lemma_request_correlation<T>(s: Seq<(String, T)>, id: String, slot: T)
    requires
        keys_distinct(s),
        !has_key(s, id@),
    ensures
        lookup(stored(s, id, slot), id@) == Some(slot),
        taken(stored(s, id, slot), id@).len() == s.len(),
        lookup(taken(stored(s, id, slot), id@), id@) is None,
        taken(taken(stored(s, id, slot), id@), id@) == taken(stored(s, id, slot), id@),
        forall|other: Seq<char>|
            other != id@ ==> lookup(taken(stored(s, id, slot), id@), other) == lookup(s, other),
{
    lemma_stored(s, id, slot);
    let s1 = stored(s, id, slot);
    lemma_taken(s1, id@);
    let s2 = taken(s1, id@);
    assert(!has_key(s2, id@));
}

/// Where the receive loop sends an inbound message.
#[derive(Debug)]
pub enum Inbound {
    /// Stop the loop, and hand the message to the node.
    Stop(Message),
    /// A request, for the node to handle.
    Handle(Message),
    /// A response, to be delivered to the request waiting under this identifier.
    Deliver(String, Response),
}

/// Sorts an inbound message: requests go to the node, responses to the waiting request,
/// and a terminate signal ends the loop.
pub fn dispatch(msg: Message) -> (r: Inbound)
    ensures
        match msg.msg {
            MessageType::Terminate => r == Inbound::Stop(msg),
            MessageType::Request(_) => r == Inbound::Handle(msg),
            MessageType::Response(res) => r == Inbound::Deliver(msg.id, res),
        },
{
    match msg.msg {
        MessageType::Terminate => Inbound::Stop(msg),
        MessageType::Request(_) => Inbound::Handle(msg),
        MessageType::Response(res) => Inbound::Deliver(msg.id, res),
    }
}

} // verus!

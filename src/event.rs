use vstd::prelude::*;

use crate::ids::ClientId;

verus! {

/// Announces a freshly handshaken client together with its outbound handle.
pub struct NewUser<H> {
    pub stream: H,
    pub id: ClientId,
}

impl<H> NewUser<H> {
    pub fn new(stream: H, id: ClientId) -> (r: Self)
        ensures
            r.stream == stream,
            r.id == id,
    {
        NewUser { stream, id }
    }
}

/// One text message received from client `id`.
pub struct NewMessage {
    pub id: ClientId,
    pub message: String,
}

impl NewMessage {
    pub fn new(message: String, id: ClientId) -> (r: Self)
        ensures
            r.message@ == message@,
            r.id == id,
    {
        NewMessage { message, id }
    }
}

/// What a connection hands to the hub.
pub enum Event<H> {
    NewUser(NewUser<H>),
    NewMessage(NewMessage),
}

impl<H> Event<H> {
    /// The client the event is about.
    pub open spec fn client(self) -> ClientId {
        match self {
            Event::NewUser(u) => u.id,
            Event::NewMessage(m) => m.id,
        }
    }
}

/// An inbound frame as the relay sees it: a text payload, or anything else
/// (binary data, control frames), which the relay ignores.
pub enum Frame {
    Text(String),
    Other,
}

} // verus!

use vstd::prelude::*;

use crate::event::{Event, Frame, NewMessage, NewUser};
use crate::ids::ClientId;

verus! {

/// Where a connection stands.
#[derive(PartialEq, Eq, Structural, Clone, Copy, Debug)]
pub enum Phase {
    /// Accepted; the transport handshake has not finished.
    Handshaking,
    /// Registered with the hub; frames are forwarded.
    Open,
    /// The handshake failed or the stream ended.
    Closed,
}

/// What happens to a connection.
pub enum Input<H> {
    /// The handshake succeeded; `H` is the outbound half of the channel.
    Handshaken(H),
    HandshakeFailed,
    Received(Frame),
    /// The inbound stream ended or failed.
    Ended,
}

/// One accepted connection, from the handshake to the end of its stream.
#[derive(PartialEq, Eq, Structural, Clone, Copy, Debug)]
pub struct Connection {
    pub id: ClientId,
    pub phase: Phase,
}

/// The state after `input`, and the event it gives the hub, if any.
pub open spec fn next_state<H>(c: Connection, input: Input<H>) -> (Connection, Option<Event<H>>) {
    let closed = Connection { id: c.id, phase: Phase::Closed };
    match c.phase {
        Phase::Handshaking => match input {
            Input::Handshaken(h) => (
                Connection { id: c.id, phase: Phase::Open },
                Some(Event::NewUser(NewUser { stream: h, id: c.id })),
            ),
            Input::Received(_) => (c, None),
            _ => (closed, None),
        },
        Phase::Open => match input {
            Input::Received(Frame::Text(s)) => (
                c,
                Some(Event::NewMessage(NewMessage { id: c.id, message: s })),
            ),
            Input::Ended => (closed, None),
            _ => (c, None),
        },
        Phase::Closed => (c, None),
    }
}

/// The state after a sequence of inputs and the events given on the way.
pub open spec fn run<H>(c: Connection, inputs: Seq<Input<H>>) -> (Connection, Seq<Event<H>>)
    decreases inputs.len(),
{
    if inputs.len() == 0 {
        (c, Seq::empty())
    } else {
        let (mid, out) = run(c, inputs.drop_last());
        let (last, e) = next_state(mid, inputs.last());
        match e {
            Some(ev) => (last, out.push(ev)),
            None => (last, out),
        }
    }
}

impl Connection {
    pub fn new(id: ClientId) -> (r: Self)
        ensures
            r == (Connection { id, phase: Phase::Handshaking }),
    {
        Connection { id, phase: Phase::Handshaking }
    }

    /// Advances the connection by one input. A successful handshake gives
    /// the `NewUser` event that registers the outbound half; afterwards each
    /// text frame gives one `NewMessage`, and other frames give nothing and
    /// leave the connection open.
    pub fn step<H>(&mut self, input: Input<H>) -> (r: Option<Event<H>>)
        ensures
            (*final(self), r) == next_state(*old(self), input),
    {
        let id = self.id;
        match self.phase {
            Phase::Handshaking => match input {
                Input::Handshaken(h) => {
                    self.phase = Phase::Open;
                    Some(Event::NewUser(NewUser::new(h, id)))
                },
                Input::Received(_) => None,
                _ => {
                    self.phase = Phase::Closed;
                    None
                },
            },
            Phase::Open => match input {
                Input::Received(Frame::Text(s)) => Some(Event::NewMessage(NewMessage { id, message: s })),
                Input::Ended => {
                    self.phase = Phase::Closed;
                    None
                },
                _ => None,
            },
            Phase::Closed => None,
        }
    }
}

/// Whatever a connection goes through, it announces itself to the hub
/// before it forwards any message: the first event it gives is its
/// `NewUser`, it gives no other `NewUser`, and every event is about its own
/// identifier.
pub proof fn registration_precedes_messages<H>(id: ClientId, inputs: Seq<Input<H>>)
    ensures
        ({
            let out = run(Connection { id, phase: Phase::Handshaking }, inputs).1;
            forall|i: int|
                0 <= i < out.len() ==> {
                    &&& (out[i] is NewUser <==> i == 0)
                    &&& out[i].client() == id
                }
        }),
{
    lemma_run(id, inputs);
}

proof fn lemma_run<H>(id: ClientId, inputs: Seq<Input<H>>)
    ensures
        ({
            let (c, out) = run(Connection { id, phase: Phase::Handshaking }, inputs);
            &&& c.id == id
            &&& c.phase == Phase::Handshaking ==> out.len() == 0
            &&& c.phase == Phase::Open ==> out.len() > 0
            &&& forall|i: int|
                0 <= i < out.len() ==> {
                    &&& (out[i] is NewUser <==> i == 0)
                    &&& out[i].client() == id
                }
        }),
    decreases inputs.len(),
{
    if inputs.len() > 0 {
        lemma_run(id, inputs.drop_last());
        let (mid, out) = run(Connection { id, phase: Phase::Handshaking }, inputs.drop_last());
        let (last, e) = next_state(mid, inputs.last());
        if let Some(ev) = e {
            assert forall|i: int| 0 <= i < out.len() implies out.push(ev)[i] == out[i] by {}
        }
    }
}

/// A failed handshake gives the hub nothing, so it cannot disturb any
/// other connection: the hub changes only through events.
pub proof fn handshake_failure_is_silent<H>(c: Connection)
    ensures
        next_state(c, Input::<H>::HandshakeFailed).1.is_none(),
{
}

} // verus!

//! A broadcast relay hub: connection identifiers, the per-connection
//! event source, and the single hub that owns every registered client's
//! outbound handle and fans messages out to everyone but the sender.
//!
//! The handle type `H` is left generic: the verified logic never writes to
//! a handle, it decides who owns each handle and who a message goes to.

mod connection;
mod event;
mod hub;
mod ids;

pub use connection::{
    handshake_failure_is_silent, next_state, registration_precedes_messages, run, Connection, Input,
    Phase,
};
pub use event::{Event, Frame, NewMessage, NewUser};
pub use hub::{broadcast_is_a_barrier, delivered, distinct_ids, map_of, Client, Hub, Step};
pub use ids::{ids_pairwise_distinct, is_run, Acceptor, ClientId};

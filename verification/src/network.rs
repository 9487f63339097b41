//! Data carried between the transport and the simulation core: connection
//! identities, raw message payloads, and the events the transport reports.
//! The transport itself (sockets, threads) lives outside the library; the
//! core consumes these values only.

use vstd::prelude::*;

verus! {

/// Identity of one transport connection, allocated monotonically by the
/// listener. Distinct from [`crate::server::ClientId`]: a connection may
/// serve static assets and never become a game client.
#[derive(PartialEq, Eq, Structural, Debug, Hash, Copy, Clone)]
pub struct ConnectionId(pub u64);

/// One raw frame of transport payload.
pub struct Message {
    data: Vec<u8>,
}

impl View for Message {
    type V = Seq<u8>;

    closed spec fn view(&self) -> Seq<u8> {
        self.data@
    }
}

impl Message {
    /// Wraps a payload; `data` returns exactly the bytes given here.
    pub fn new(data: Vec<u8>) -> (m: Message)
        ensures
            m@ == data@,
    {
        Message { data }
    }

    /// The payload bytes, unchanged since construction.
    pub fn data(&self) -> (d: &[u8])
        ensures
            d@ == self@,
    {
        self.data.as_slice()
    }
}

/// What the transport reports to the simulation loop.
pub enum Event {
    Connected { id: ConnectionId },
    Disconnected { id: ConnectionId },
    Message { sender: ConnectionId, message: Message },
}

} // verus!

use vstd::prelude::*;

verus! {

/// The queries that can be sent to a server.
#[derive(Clone, Copy, Debug, PartialEq, Eq, Structural)]
pub enum QueryCommand {
    /// Ask for the connected players.
    Players,
}

/// What a user asks for: the server's address and the query to send.
pub struct Cli {
    pub ip: String,
    pub port: u16,
    pub command: QueryCommand,
}

} // verus!

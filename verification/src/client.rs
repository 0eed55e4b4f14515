use vstd::prelude::*;

verus! {

/// Identifies a client in the server's log messages.
#[derive(Debug, Clone, Copy)]
pub struct ClientLogger {
    pub client_id: u64,
}

} // verus!

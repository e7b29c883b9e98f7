//! The errors that channel operations return.

use vstd::prelude::*;

verus! {

/// The message could not be sent: the receiving side of the channel is gone.
/// The message is handed back.
#[derive(Debug, PartialEq, Eq)]
pub struct SendError<T>(pub T);

/// Why a send that does not wait has failed. Either way the message is handed
/// back.
#[derive(Debug, PartialEq, Eq)]
pub enum SendTimeoutError<T> {
    /// The receiving side of the channel is gone.
    Closed(T),
    /// The message could not be taken at once.
    Timeout(T),
}

/// Nothing can be received: the channel is closed, or its sending side is gone
/// and nothing is left to receive.
#[derive(Debug, Clone, Copy, PartialEq, Eq)]
pub struct ReceiveError();

/// The channel was closed already.
#[derive(Debug, Clone, Copy, PartialEq, Eq)]
pub struct CloseError();

} // verus!

//! The ways in which a transfer can fail.

use vstd::prelude::*;

use crate::protocol::{Msg, Payload};

verus! {

/// Why a key exchange could not be finished.
#[derive(Clone, Copy, Debug, PartialEq, Eq, Structural)]
pub enum PakeError {
    /// The message was made by a peer that plays the same role.
    BadSide,
    /// The message does not hold a group element.
    CorruptMessage,
    /// The message does not have the length of a role and a group element.
    WrongLength,
}

/// Everything that can go wrong in this crate.
#[derive(Debug)]
pub enum TransferError {
    /// A wormhole code has no colon.
    InvalidCode,
    /// A value is too large to be written out as bytes.
    Serialize,
    /// Bytes do not hold a value of the expected kind.
    Deserialize,
    /// What was sealed under this counter is no payload.
    InvalidPayload { counter: u64 },
    /// A plaintext is too long to be encrypted.
    Encrypt,
    /// A ciphertext was not made under this counter and the key at hand, or was
    /// altered.
    Decrypt { counter: u64 },
    /// A message came that has no place at this point of the protocol.
    UnexpectedMsg(Msg),
    /// A payload came that has no place at this point of the protocol.
    UnexpectedPayload(Payload),
    /// The connection was closed.
    Closed,
    /// The key exchange failed.
    KeyExchange(PakeError),
    /// No offer came in time.
    NoOffer,
    /// A file was accepted that was not offered.
    NotOffered,
    /// No confirmation came in time.
    NoConfirmation,
    /// The sender gave up, with this message.
    SenderFailed(String),
    /// The receiver gave up, with this message.
    ReceiverAborted(String),
    /// A key does not have 32 bytes.
    KeyLength,
    /// A key exchange was finished before.
    AlreadyConsumed,
}

} // verus!

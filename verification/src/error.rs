//! What the client and the server refuse, and why.

use vstd::prelude::*;

verus! {

/// A request that was refused, or a reply that cannot be used.
#[derive(PartialEq, Eq, Copy, Clone, Debug, Structural)]
pub enum Error {
    /// A client registered with a rate of zero.
    InvalidRate,
    /// No more client ids can be given out.
    IdsExhausted,
    /// The client id is not registered.
    UnknownId,
    /// The client did not synchronize for this round.
    NotSynchronized,
    /// The round of the request is not the round of the server.
    InvalidRound,
    /// Tuples were sent for the current round while it serves retrievals.
    NotSendPhase,
    /// A retrieval or a label request came while the round takes tuples.
    NotReceivePhase,
    /// A send request without tuples.
    NoTuples,
    /// A tuple on the wire does not have the size of its scheme.
    InvalidTuple,
    /// More tuples than the client may still send in this round.
    SendRateExceeded,
    /// More retrievals than the client may make in this round.
    RetrievalRateExceeded,
    /// The bucket of a retrieval does not exist.
    InvalidBucket,
    /// The collection of a retrieval does not exist.
    InvalidCollection,
    /// The level of a retrieval does not exist.
    InvalidLevel,
    /// The recipient or sender is not a peer of the client.
    InvalidPeer,
    /// A send without messages.
    NoMessages,
    /// A message is longer than a ciphertext holds.
    MessageTooLong,
    /// No second label falls into another bucket than the first.
    NoAlias,
    /// The client has no dummy peer to fill empty retrievals with.
    NoDummyPeer,
    /// More peers to retrieve from than the retrieval rate.
    RateExceeded,
    /// The reply of the server does not fit the request.
    InvalidReply,
    /// The answer of the retrieval primitive is empty.
    InvalidPirAnswer,
    /// The ciphertext does not decrypt under the key, or its tag is wrong.
    DecryptFailed,
}

/// The words for an error.
pub open spec fn spec_message(e: Error) -> Seq<char> {
    match e {
        Error::InvalidRate => "Invalid rate (0)"@,
        Error::IdsExhausted => "No client id left"@,
        Error::UnknownId => "Id does not exist"@,
        Error::NotSynchronized => "Client is not synchronized."@,
        Error::InvalidRound => "Invalid round number"@,
        Error::NotSendPhase => "Not sending phase."@,
        Error::NotReceivePhase => "Not a receive phase"@,
        Error::NoTuples => "Number of tuples sent is 0"@,
        Error::InvalidTuple => "Invalid tuple size"@,
        Error::SendRateExceeded => "Send rate exceeded."@,
        Error::RetrievalRateExceeded => "Retrieval rate exceeded."@,
        Error::InvalidBucket => "Invalid bucket requested"@,
        Error::InvalidCollection => "Invalid collection requested"@,
        Error::InvalidLevel => "Invalid level requested"@,
        Error::InvalidPeer => "Invalid peer name"@,
        Error::NoMessages => "No messages were provided"@,
        Error::MessageTooLong => "Message too long"@,
        Error::NoAlias => "No alias label in another bucket"@,
        Error::NoDummyPeer => "No dummy peer"@,
        Error::RateExceeded => "Number of peers exceeds rate"@,
        Error::InvalidReply => "Invalid reply returned by server"@,
        Error::InvalidPirAnswer => "Invalid PIR answer returned."@,
        Error::DecryptFailed => "Unable to decrypt ciphertext or verify mac"@,
    }
}

impl Error {
    /// The error in words.
    pub fn message(&self) -> (m: &'static str)
        ensures
            m@ == spec_message(*self),
    {
        match self {
            Error::InvalidRate => "Invalid rate (0)",
            Error::IdsExhausted => "No client id left",
            Error::UnknownId => "Id does not exist",
            Error::NotSynchronized => "Client is not synchronized.",
            Error::InvalidRound => "Invalid round number",
            Error::NotSendPhase => "Not sending phase.",
            Error::NotReceivePhase => "Not a receive phase",
            Error::NoTuples => "Number of tuples sent is 0",
            Error::InvalidTuple => "Invalid tuple size",
            Error::SendRateExceeded => "Send rate exceeded.",
            Error::RetrievalRateExceeded => "Retrieval rate exceeded.",
            Error::InvalidBucket => "Invalid bucket requested",
            Error::InvalidCollection => "Invalid collection requested",
            Error::InvalidLevel => "Invalid level requested",
            Error::InvalidPeer => "Invalid peer name",
            Error::NoMessages => "No messages were provided",
            Error::MessageTooLong => "Message too long",
            Error::NoAlias => "No alias label in another bucket",
            Error::NoDummyPeer => "No dummy peer",
            Error::RateExceeded => "Number of peers exceeds rate",
            Error::InvalidReply => "Invalid reply returned by server",
            Error::InvalidPirAnswer => "Invalid PIR answer returned.",
            Error::DecryptFailed => "Unable to decrypt ciphertext or verify mac",
        }
    }
}

} // verus!

//! What can go wrong.

use vstd::prelude::*;

verus! {

/// Why a QUIC packet could not be read or built.
#[derive(Debug, Clone, Copy, PartialEq, Eq, Structural)]
pub enum PacketError {
    /// A varint was to be read where no data is left.
    VarintBeyondData,
    /// The data ends within a varint.
    VarintTruncated,
    /// The keys of the connection could not be derived.
    KeyDerivationFailed,
    /// A CRYPTO frame claims more data than the packet holds.
    CryptoFrameTooLong,
    /// The packet ends before its version.
    TooShort,
    /// The packet ends before its destination connection ID does.
    TooShortForDcid,
    /// The packet ends before its source connection ID does.
    TooShortForScid,
    /// The packet ends before its token does.
    TooShortForToken,
    /// The packet ends before its payload length.
    TruncatedBeforePayloadLength,
    /// The packet claims a longer payload than it holds.
    PayloadTooLong,
    /// The payload is too short to sample for header protection.
    TooShortForSample,
    /// The packet number is longer than the payload.
    PacketNumberTooLong,
    /// The payload does not open under the connection's keys.
    AeadOpenFailed,
    /// The payload could not be sealed.
    AeadSealFailed,
}

/// What an error is called in a log.
pub open spec fn packet_error_text(e: PacketError) -> Seq<char> {
    match e {
        PacketError::VarintBeyondData => "varint: offset beyond data"@,
        PacketError::VarintTruncated => "varint: not enough data"@,
        PacketError::KeyDerivationFailed => "HKDF expand failed"@,
        PacketError::CryptoFrameTooLong => "CRYPTO frame data extends beyond plaintext"@,
        PacketError::TooShort => "packet too short"@,
        PacketError::TooShortForDcid => "packet too short for DCID"@,
        PacketError::TooShortForScid => "packet too short for SCID"@,
        PacketError::TooShortForToken => "packet too short for token"@,
        PacketError::TruncatedBeforePayloadLength => "packet truncated before payload length"@,
        PacketError::PayloadTooLong => "payload length exceeds packet size"@,
        PacketError::TooShortForSample => "packet too short for header protection sample"@,
        PacketError::PacketNumberTooLong => "packet number extends beyond payload"@,
        PacketError::AeadOpenFailed => "AEAD decryption failed"@,
        PacketError::AeadSealFailed => "AEAD seal failed"@,
    }
}

impl PacketError {
    /// What the error is called in a log.
    pub fn message(self) -> (text: &'static str)
        ensures
            text@ == packet_error_text(self),
    {
        match self {
            PacketError::VarintBeyondData => "varint: offset beyond data",
            PacketError::VarintTruncated => "varint: not enough data",
            PacketError::KeyDerivationFailed => "HKDF expand failed",
            PacketError::CryptoFrameTooLong => "CRYPTO frame data extends beyond plaintext",
            PacketError::TooShort => "packet too short",
            PacketError::TooShortForDcid => "packet too short for DCID",
            PacketError::TooShortForScid => "packet too short for SCID",
            PacketError::TooShortForToken => "packet too short for token",
            PacketError::TruncatedBeforePayloadLength => "packet truncated before payload length",
            PacketError::PayloadTooLong => "payload length exceeds packet size",
            PacketError::TooShortForSample => "packet too short for header protection sample",
            PacketError::PacketNumberTooLong => "packet number extends beyond payload",
            PacketError::AeadOpenFailed => "AEAD decryption failed",
            PacketError::AeadSealFailed => "AEAD seal failed",
        }
    }
}

/// What a peer did that the protocol forbids.
#[derive(Debug, Clone, Copy, PartialEq, Eq, Structural)]
pub enum PeerMisbehaved {
    /// An inner ClientHello, or the outer one around it, is malformed.
    InvalidEchClientHelloInner,
    /// The padding of an encoded inner ClientHello is not all zero.
    InvalidEchPadding,
    /// A list of extensions to copy from the outer ClientHello is malformed or
    /// cannot be resolved.
    InvalidEchOuterExtension,
    /// The second ClientHello does not offer ECH, though the first one did.
    MissingEchExtension,
    /// The second ClientHello uses another config or cipher suite than the first.
    EchHrrMismatch,
    /// The second ClientHello does not open.
    EchHrrDecryptionFailed,
}

/// Why a TLS record could not be read.
#[derive(Debug, Clone, Copy, PartialEq, Eq, Structural)]
pub enum InvalidMessage {
    /// The record's version is not one of TLS or DTLS.
    UnknownProtocolVersion,
    /// The record's content type is unknown.
    InvalidContentType,
    /// The record is longer than any record may be.
    MessageTooLarge,
    /// The record is empty, and its content type does not allow that.
    InvalidEmptyPayload,
}

/// Why TLS processing failed.
#[derive(Debug, PartialEq, Eq)]
pub enum Error {
    /// A message other than a handshake message arrived. Holds its content type.
    InappropriateMessage { got_type: u8 },
    /// An unexpected handshake message arrived. Holds its type.
    InappropriateHandshakeMessage { got_type: u8 },
    /// A record could not be read.
    InvalidMessage(InvalidMessage),
    /// The peer did something forbidden.
    PeerMisbehaved(PeerMisbehaved),
    /// Anything else.
    General(String),
}

/// The value of an [`Error`].
pub enum ErrorView {
    InappropriateMessage { got_type: u8 },
    InappropriateHandshakeMessage { got_type: u8 },
    InvalidMessage(InvalidMessage),
    PeerMisbehaved(PeerMisbehaved),
    General(Seq<char>),
}

impl View for Error {
    type V = ErrorView;

    open spec fn view(&self) -> ErrorView {
        match self {
            Error::InappropriateMessage { got_type } => ErrorView::InappropriateMessage {
                got_type: *got_type,
            },
            Error::InappropriateHandshakeMessage { got_type } =>
                ErrorView::InappropriateHandshakeMessage { got_type: *got_type },
            Error::InvalidMessage(e) => ErrorView::InvalidMessage(*e),
            Error::PeerMisbehaved(e) => ErrorView::PeerMisbehaved(*e),
            Error::General(message) => ErrorView::General(message@),
        }
    }
}

} // verus!

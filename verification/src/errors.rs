//! What can go wrong on the way through a proxy.

use vstd::prelude::*;

verus! {

/// The error that the operating system's random source reports.
#[verifier::external_type_specification]
#[verifier::external_body]
pub struct ExRandomError(getrandom::Error);

/// The broad kind of a failure, as the I/O layer classifies it.
#[derive(Clone, Copy, Debug, PartialEq, Eq, Structural)]
pub enum ErrorKind {
    ConnectionAborted,
    ConnectionReset,
    InvalidData,
    NotFound,
    Other,
    TimedOut,
    UnexpectedEof,
    WriteZero,
}

/// A failure of the proxy layer.
#[derive(Clone, Copy, Debug)]
pub enum MtProxyError {
    QueryMissing,
    HostMissing,
    PortMissing,
    SecretMissing,
    EndpointPortMissing,
    InvalidUrl,
    InvalidPort,
    InvalidSecret,
    UnsupportedSecret,
    InvalidSecretDomain,
    InvalidSecretLength,
    InvalidTlsRecord,
    InvalidTlsDomain,
    TlsDomainTooLong,
    InvalidHelloResponse,
    HelloClosed,
    HelloResponseTooShort,
    HelloHashMismatch,
    HelloTrailingData,
    FrameNotWritten,
    RandomRejected,
    Random(getrandom::Error),
}

impl MtProxyError {
    pub open spec fn spec_kind(self) -> ErrorKind {
        match self {
            MtProxyError::HelloClosed => ErrorKind::UnexpectedEof,
            MtProxyError::FrameNotWritten => ErrorKind::WriteZero,
            MtProxyError::RandomRejected => ErrorKind::Other,
            MtProxyError::Random(_) => ErrorKind::Other,
            _ => ErrorKind::InvalidData,
        }
    }

    pub open spec fn spec_message(self) -> Option<Seq<char>> {
        match self {
            MtProxyError::QueryMissing => Some("mtproxy query is missing"@),
            MtProxyError::HostMissing => Some("mtproxy host missing"@),
            MtProxyError::PortMissing => Some("mtproxy port missing"@),
            MtProxyError::SecretMissing => Some("mtproxy secret missing"@),
            MtProxyError::EndpointPortMissing => Some("proxy port missing"@),
            MtProxyError::InvalidUrl => Some("invalid mtproxy url"@),
            MtProxyError::InvalidPort => Some("invalid proxy port"@),
            MtProxyError::InvalidSecret => Some("invalid mtproxy secret"@),
            MtProxyError::UnsupportedSecret => Some("unsupported mtproxy secret"@),
            MtProxyError::InvalidSecretDomain => Some("invalid mtproxy domain"@),
            MtProxyError::InvalidSecretLength => Some("invalid mtproxy secret length"@),
            MtProxyError::InvalidTlsRecord => Some("invalid mtproxy faketls record"@),
            MtProxyError::InvalidTlsDomain => Some("invalid mtproxy faketls domain"@),
            MtProxyError::TlsDomainTooLong => Some("mtproxy faketls domain is too long"@),
            MtProxyError::InvalidHelloResponse => Some("invalid mtproxy faketls hello response"@),
            MtProxyError::HelloClosed => Some("mtproxy faketls closed during hello"@),
            MtProxyError::HelloResponseTooShort => Some("mtproxy faketls response is too short"@),
            MtProxyError::HelloHashMismatch => Some("mtproxy faketls response hash mismatch"@),
            MtProxyError::HelloTrailingData => Some(
                "mtproxy faketls response has unexpected trailing data"@,
            ),
            MtProxyError::FrameNotWritten => Some("failed to write mtproxy frame"@),
            MtProxyError::RandomRejected => Some("no usable mtproxy header was drawn"@),
            MtProxyError::Random(_) => None,
        }
    }

    /// The kind of the failure.
    pub fn kind(&self) -> (kind: ErrorKind)
        ensures
            kind == self.spec_kind(),
    {
        match self {
            MtProxyError::HelloClosed => ErrorKind::UnexpectedEof,
            MtProxyError::FrameNotWritten => ErrorKind::WriteZero,
            MtProxyError::RandomRejected => ErrorKind::Other,
            MtProxyError::Random(_) => ErrorKind::Other,
            _ => ErrorKind::InvalidData,
        }
    }

    /// The text of the failure; that of a failed random source is the source's own.
    pub fn message(&self) -> (message: Option<&'static str>)
        ensures
            match message {
                Some(text) => self.spec_message() == Some(text@),
                None => self.spec_message() is None,
            },
    {
        match self {
            MtProxyError::QueryMissing => Some("mtproxy query is missing"),
            MtProxyError::HostMissing => Some("mtproxy host missing"),
            MtProxyError::PortMissing => Some("mtproxy port missing"),
            MtProxyError::SecretMissing => Some("mtproxy secret missing"),
            MtProxyError::EndpointPortMissing => Some("proxy port missing"),
            MtProxyError::InvalidUrl => Some("invalid mtproxy url"),
            MtProxyError::InvalidPort => Some("invalid proxy port"),
            MtProxyError::InvalidSecret => Some("invalid mtproxy secret"),
            MtProxyError::UnsupportedSecret => Some("unsupported mtproxy secret"),
            MtProxyError::InvalidSecretDomain => Some("invalid mtproxy domain"),
            MtProxyError::InvalidSecretLength => Some("invalid mtproxy secret length"),
            MtProxyError::InvalidTlsRecord => Some("invalid mtproxy faketls record"),
            MtProxyError::InvalidTlsDomain => Some("invalid mtproxy faketls domain"),
            MtProxyError::TlsDomainTooLong => Some("mtproxy faketls domain is too long"),
            MtProxyError::InvalidHelloResponse => Some("invalid mtproxy faketls hello response"),
            MtProxyError::HelloClosed => Some("mtproxy faketls closed during hello"),
            MtProxyError::HelloResponseTooShort => Some("mtproxy faketls response is too short"),
            MtProxyError::HelloHashMismatch => Some("mtproxy faketls response hash mismatch"),
            MtProxyError::HelloTrailingData => Some(
                "mtproxy faketls response has unexpected trailing data",
            ),
            MtProxyError::FrameNotWritten => Some("failed to write mtproxy frame"),
            MtProxyError::RandomRejected => Some("no usable mtproxy header was drawn"),
            MtProxyError::Random(_) => None,
        }
    }
}

/// What went wrong decides how the I/O layer sees it: a proxy that hangs up has the connection end
/// early, a socket that takes nothing writes nothing, a random source that does not do is a failure
/// of its own kind, and everything else is data that is invalid.
pub proof fn law_kinds_of_failures(err: MtProxyError)
    ensures
        err.spec_kind() == ErrorKind::UnexpectedEof <==> err is HelloClosed,
        err.spec_kind() == ErrorKind::WriteZero <==> err is FrameNotWritten,
        err.spec_kind() == ErrorKind::Other <==> err is RandomRejected || err is Random,
        err.spec_kind() == ErrorKind::InvalidData <==> !(err is HelloClosed || err is FrameNotWritten
            || err is RandomRejected || err is Random),
        err.spec_message() is None <==> err is Random,
{
}

} // verus!

//! What it means to look for a host name in UDP datagrams.

use vstd::prelude::*;

verus! {

#[derive(Debug, Clone, Copy, PartialEq, Eq, Structural)]
pub enum UdpSniffProtocol {
    QuicSni,
}

#[derive(Debug)]
pub enum UdpSniffOutcome {
    Matched { protocol: UdpSniffProtocol, host: String },
    NotMatched,
    NeedMore { protocol: UdpSniffProtocol },
    Failed { protocol: UdpSniffProtocol, error: UdpSniffError },
}

/// The view of [`UdpSniffOutcome`].
pub enum Outcome {
    Matched { protocol: UdpSniffProtocol, host: Seq<char> },
    NotMatched,
    NeedMore { protocol: UdpSniffProtocol },
    Failed { protocol: UdpSniffProtocol, error: UdpSniffError },
}

impl View for UdpSniffOutcome {
    type V = Outcome;

    open spec fn view(&self) -> Outcome {
        match *self {
            UdpSniffOutcome::Matched { protocol, host } => Outcome::Matched {
                protocol,
                host: host@,
            },
            UdpSniffOutcome::NotMatched => Outcome::NotMatched,
            UdpSniffOutcome::NeedMore { protocol } => Outcome::NeedMore { protocol },
            UdpSniffOutcome::Failed { protocol, error } => Outcome::Failed { protocol, error },
        }
    }
}

#[derive(Debug, Clone, Copy, PartialEq, Eq, Structural)]
pub enum UdpSniffError {
    ProtocolNotMatched,
    InsufficientPrefix,
    NoTarget,
    ParseError,
    InvalidHostname,
    TooLarge,
}

/// One flow of datagrams under observation.
pub trait UdpSnifferSessionEngine: Send + Sized {
    /// Whether the session is in a state that its own operations lead to.
    spec fn valid(&self) -> bool;

    /// What the next datagram gives in this state.
    spec fn outcome_of(&self, payload: Seq<u8>) -> Outcome;

    fn feed(&mut self, payload: &[u8]) -> (r: UdpSniffOutcome)
        requires
            old(self).valid(),
        ensures
            final(self).valid(),
            r@ == old(self).outcome_of(payload@),
    ;
}

/// A protocol that names its target in the first datagrams of a UDP flow.
pub trait UdpSnifferEngine: Send + Sync {
    /// The sessions of this protocol.
    type Session: UdpSnifferSessionEngine;

    /// The name of the protocol.
    spec fn engine_name(&self) -> Seq<char>;

    fn name(&self) -> (r: &'static str)
        ensures
            r@ == self.engine_name(),
    ;

    fn new_session(&self) -> (r: Self::Session)
        ensures
            r.valid(),
    ;
}

pub open spec fn protocol_name(protocol: UdpSniffProtocol) -> Seq<char> {
    match protocol {
        UdpSniffProtocol::QuicSni => "quic_sni"@,
    }
}

/// The word for a protocol.
pub fn udp_sniff_protocol_name(protocol: UdpSniffProtocol) -> (r: &'static str)
    ensures
        r@ == protocol_name(protocol),
{
    match protocol {
        UdpSniffProtocol::QuicSni => "quic_sni",
    }
}

pub open spec fn error_reason(error: UdpSniffError) -> Seq<char> {
    match error {
        UdpSniffError::ProtocolNotMatched => "protocol_not_matched"@,
        UdpSniffError::InsufficientPrefix => "insufficient_prefix"@,
        UdpSniffError::NoTarget => "no_target"@,
        UdpSniffError::ParseError => "parse_error"@,
        UdpSniffError::InvalidHostname => "invalid_hostname"@,
        UdpSniffError::TooLarge => "too_large"@,
    }
}

/// The word for a failure.
pub fn udp_sniff_error_reason(error: UdpSniffError) -> (r: &'static str)
    ensures
        r@ == error_reason(error),
{
    match error {
        UdpSniffError::ProtocolNotMatched => "protocol_not_matched",
        UdpSniffError::InsufficientPrefix => "insufficient_prefix",
        UdpSniffError::NoTarget => "no_target",
        UdpSniffError::ParseError => "parse_error",
        UdpSniffError::InvalidHostname => "invalid_hostname",
        UdpSniffError::TooLarge => "too_large",
    }
}

} // verus!

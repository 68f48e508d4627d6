//! Inbound QUIC transport: TLS/transport configuration and a pull-driven
//! multiplexer that turns handshakes and stream accepts into accepted units.
use vstd::prelude::*;

pub mod config;
pub mod mux;

verus! {

/// Errors raised while turning a datagram socket into a QUIC endpoint.
#[derive(Debug, Clone, PartialEq, Eq)]
pub enum TransportError {
    /// Binding the socket to a new endpoint failed; carries a description.
    Endpoint(String),
}

/// Wraps an endpoint-construction failure description as a transport error.
pub fn quic_err(error: String) -> (r: TransportError)
    ensures
        r == TransportError::Endpoint(error),
{
    TransportError::Endpoint(error)
}

} // verus!

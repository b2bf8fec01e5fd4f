//! Errors of the QUIC endpoint that carries file transfers.
use vstd::prelude::*;

verus! {

/// Failure of the transfer endpoint.
#[derive(Debug, Clone)]
pub enum TransportError {
    Quic(String),
    Io(String),
}

impl TransportError {
    /// Human-readable description.
    pub fn message(&self) -> (r: String)
        ensures
            self matches TransportError::Quic(m) ==> r@ == "quic error: "@ + m@,
            self matches TransportError::Io(m) ==> r@ == "io error: "@ + m@,
    {
        match self {
            TransportError::Quic(m) => {
                let mut s = "quic error: ".to_string();
                s.append(m.as_str());
                s
            },
            TransportError::Io(m) => {
                let mut s = "io error: ".to_string();
                s.append(m.as_str());
                s
            },
        }
    }
}

} // verus!

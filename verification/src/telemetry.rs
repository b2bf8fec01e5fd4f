use vstd::prelude::*;

verus! {

/// Kind of a telemetry event emitted during workflow execution.
#[derive(Debug, Clone, Copy, PartialEq, Eq, Structural)]
pub enum EventType {
    RunStarted,
    RunCompleted,
    RunFailed,
    TaskQueued,
    TaskStarted,
    TaskCompleted,
    TaskFailed,
    Progress,
    TransportFallback,
}

/// Delivery result for a single event send attempt.
#[derive(Debug, Clone)]
pub enum DeliveryStatus {
    Sent,
    Delivered,
    Dropped,
    FellBack { reason: String },
}

/// Failure of a telemetry transport.
#[derive(Debug, Clone)]
pub enum TransportError {
    Serialization(String),
    Unavailable(String),
    FallbackRequired,
    QuicError(String),
}

impl TransportError {
    /// Human-readable description, as the transports print it.
    pub fn message(&self) -> (r: String)
        ensures
            self matches TransportError::Serialization(m) ==> r@ == "serialization error: "@ + m@,
            self matches TransportError::Unavailable(m) ==> r@ == "transport unavailable: "@ + m@,
            self matches TransportError::FallbackRequired ==> r@ == "fallback required"@,
            self matches TransportError::QuicError(m) ==> r@ == "quic error: "@ + m@,
    {
        match self {
            TransportError::Serialization(m) => {
                let mut s = "serialization error: ".to_string();
                s.append(m.as_str());
                s
            },
            TransportError::Unavailable(m) => {
                let mut s = "transport unavailable: ".to_string();
                s.append(m.as_str());
                s
            },
            TransportError::FallbackRequired => "fallback required".to_string(),
            TransportError::QuicError(m) => {
                let mut s = "quic error: ".to_string();
                s.append(m.as_str());
                s
            },
        }
    }
}

/// Delivery counters of one transport.
#[derive(Debug, Clone)]
pub struct TransportMetrics {
    pub events_sent: u64,
    pub events_delivered: u64,
    pub events_dropped: u64,
    pub fallback_count: u64,
    pub current_mode: String,
    pub active_subscribers: u64,
}

impl Default for TransportMetrics {
    fn default() -> (r: Self)
        ensures
            r.events_sent == 0 && r.events_delivered == 0 && r.events_dropped == 0
                && r.fallback_count == 0 && r.current_mode@ == Seq::<char>::empty()
                && r.active_subscribers == 0,
    {
        TransportMetrics {
            events_sent: 0,
            events_delivered: 0,
            events_dropped: 0,
            fallback_count: 0,
            current_mode: String::new(),
            active_subscribers: 0,
        }
    }
}

} // verus!

//! Legacy event policy reacting to the execution-requested event type: an
//! earlier iteration of the dispatch path that only acknowledges the decoded
//! correlation ids.

use crate::events::policy::EventsError;
use vstd::prelude::*;

verus! {

/// The decoded payload of one execution-requested event.
#[derive(Clone, PartialEq, Eq, Debug)]
pub struct ExecutionEvent {
    pub execution_id: String,
    pub group_id: String,
}

/// What the decoding collaborator made of one raw event envelope, for the
/// execution-requested path.
pub enum DecodedExecutionEvent {
    /// No event-type tag could be extracted from the envelope.
    MalformedEnvelope,
    /// A tag was extracted; for the recognized execution-requested tag the
    /// collaborator also attempts to decode the typed payload, recording a
    /// decode failure as `None`.
    Event { event_type: String, payload: Option<ExecutionEvent> },
}

/// The event-type tag of an execution request.
pub open spec fn execution_requested_event_type() -> Seq<char> {
    "Trento.Checks.V1.ExecutionRequested"@
}

/// The event-type tag of an execution request, for callers deciding whether a
/// typed payload must be decoded.
pub fn execution_requested_event_type_value() -> (r: &'static str)
    ensures
        r@ == execution_requested_event_type(),
{
    "Trento.Checks.V1.ExecutionRequested"
}

/// Acknowledges execution-requested events for one local host. Stateless and
/// immutable after construction.
pub struct ProtobufEventsPolicy {
    host_id: String,
}

impl View for ProtobufEventsPolicy {
    type V = Seq<char>;

    /// The configured local host id.
    closed spec fn view(&self) -> Seq<char> {
        self.host_id@
    }
}

impl ProtobufEventsPolicy {
    /// Builds a policy for the given local host identity; an empty id is a
    /// configuration error.
    pub fn new(host_id: &str) -> (r: Result<ProtobufEventsPolicy, EventsError>)
        ensures
            match r {
                Ok(p) => host_id@.len() > 0 && p@ == host_id@,
                Err(e) => host_id@.len() == 0 && e == EventsError::ConfigurationError,
            },
    {
        if host_id.is_empty() {
            return Err(EventsError::ConfigurationError);
        }
        Ok(ProtobufEventsPolicy { host_id: host_id.to_owned() })
    }

    /// Handles one decoded inbound event: reports malformed envelopes and
    /// payloads, passes the decoded execution-requested ids through, and
    /// benignly ignores any other event type.
    pub fn handle_event(&self, event: DecodedExecutionEvent) -> (r: Result<
        Option<ExecutionEvent>,
        EventsError,
    >)
        ensures
            match event {
                DecodedExecutionEvent::MalformedEnvelope => r == Err::<
                    Option<ExecutionEvent>,
                    EventsError,
                >(EventsError::MalformedEnvelopeError),
                DecodedExecutionEvent::Event { event_type, payload } => {
                    if event_type@ != execution_requested_event_type() {
                        r matches Ok(None)
                    } else {
                        match payload {
                            None => r == Err::<Option<ExecutionEvent>, EventsError>(
                                EventsError::MalformedPayloadError,
                            ),
                            Some(ev) => r == Ok::<Option<ExecutionEvent>, EventsError>(Some(ev)),
                        }
                    }
                },
            },
    {
        match event {
            DecodedExecutionEvent::MalformedEnvelope => Err(EventsError::MalformedEnvelopeError),
            DecodedExecutionEvent::Event { event_type, payload } => {
                let recognized: String = execution_requested_event_type_value().to_owned();
                if !(event_type == recognized) {
                    return Ok(None);
                }
                match payload {
                    None => Err(EventsError::MalformedPayloadError),
                    Some(ev) => Ok(Some(ev)),
                }
            },
        }
    }
}

} // verus!

//! The event policy: decides what, if anything, a decoded inbound event means
//! for the local agent, and groups the matching fact requests by gatherer.
//!
//! Wire-level consumption and envelope/payload decoding are external
//! collaborators: the policy receives the decoding outcome as a
//! [`DecodedEvent`] and produces the aggregated gathering request (or a
//! benign no-op) for downstream dispatch.

use crate::gatherers::facts::{
    add_to_buckets, buckets_of, flat_requests, lemma_add_to_buckets_at_index,
    lemma_add_to_buckets_new, FactRequest, FactRequestV, FactsGatheringRequest,
    FactsGatheringRequestV, GathererRequests, GathererRequestsV, GatheringTarget,
    GatheringTargetV,
};
use vstd::prelude::*;

verus! {

broadcast use {
    vstd::seq_lib::group_seq_properties,
    vstd::seq_lib::group_seq_lib_default,
    vstd::seq::Seq::group_seq_extra,
};

/// How processing one inbound event can fail, and why a policy cannot be
/// built.
#[derive(Clone, Copy, PartialEq, Eq, Structural, Debug)]
pub enum EventsError {
    /// Invalid construction input: the local agent id is empty.
    ConfigurationError,
    /// No event-type tag could be decoded from the envelope.
    MalformedEnvelopeError,
    /// The envelope named the gathering-request type but its payload did not
    /// decode.
    MalformedPayloadError,
}

/// The decoded payload of one gathering-request event: correlation ids and
/// the targets of the fan-out.
#[derive(Clone, PartialEq, Eq, Debug)]
pub struct GatheringEvent {
    pub execution_id: String,
    pub group_id: String,
    pub targets: Vec<GatheringTarget>,
}

/// Mathematical value of a [`GatheringEvent`].
#[verifier::ext_equal]
pub struct GatheringEventV {
    pub execution_id: Seq<char>,
    pub group_id: Seq<char>,
    pub targets: Seq<GatheringTargetV>,
}

impl View for GatheringEvent {
    type V = GatheringEventV;

    open spec fn view(&self) -> GatheringEventV {
        GatheringEventV {
            execution_id: self.execution_id@,
            group_id: self.group_id@,
            targets: self.targets.deep_view(),
        }
    }
}

/// What the decoding collaborator made of one raw event envelope.
pub enum DecodedEvent {
    /// No event-type tag could be extracted from the envelope.
    MalformedEnvelope,
    /// A tag was extracted. For the recognized gathering-request tag the
    /// collaborator also attempts to decode the typed payload, recording a
    /// decode failure as `None`; for any other tag the payload is not
    /// attempted and is ignored here.
    Event { event_type: String, payload: Option<GatheringEvent> },
}

/// The event-type tag of a gathering request.
pub open spec fn facts_gathering_request_event_type() -> Seq<char> {
    "Trento.Checks.V1.FactsGatheringRequested"@
}

/// The event-type tag of a gathering request, for callers deciding whether a
/// typed payload must be decoded.
pub fn facts_gathering_request_event_type_value() -> (r: &'static str)
    ensures
        r@ == facts_gathering_request_event_type(),
{
    "Trento.Checks.V1.FactsGatheringRequested"
}

/// The targets of `targets` addressed to `agent_id`, preserving order.
pub open spec fn targets_for_agent(targets: Seq<GatheringTargetV>, agent_id: Seq<char>) -> Seq<
    GatheringTargetV,
> {
    targets.filter(|t: GatheringTargetV| t.agent_id == agent_id)
}

/// Decides what an inbound event means for one local agent. Stateless and
/// immutable after construction.
pub struct EventsPolicy {
    agent_id: String,
}

impl View for EventsPolicy {
    type V = Seq<char>;

    /// The configured local agent id.
    closed spec fn view(&self) -> Seq<char> {
        self.agent_id@
    }
}

impl EventsPolicy {
    /// Builds a policy for the given local agent identity; an empty id is a
    /// configuration error.
    pub fn new(agent_id: &str) -> (r: Result<EventsPolicy, EventsError>)
        ensures
            match r {
                Ok(p) => agent_id@.len() > 0 && p@ == agent_id@,
                Err(e) => agent_id@.len() == 0 && e == EventsError::ConfigurationError,
            },
    {
        if agent_id.is_empty() {
            return Err(EventsError::ConfigurationError);
        }
        Ok(EventsPolicy { agent_id: agent_id.to_owned() })
    }

    /// Handles one decoded inbound event.
    ///
    /// A malformed envelope or payload is reported as the matching error; an
    /// event of any other type, or one addressing no target of this agent, is
    /// benignly ignored; otherwise the matching targets' fact requests are
    /// grouped by gatherer into the returned [`FactsGatheringRequest`].
    pub fn handle_event(&self, event: DecodedEvent) -> (r: Result<
        Option<FactsGatheringRequest>,
        EventsError,
    >)
        ensures
            match event {
                DecodedEvent::MalformedEnvelope => r == Err::<
                    Option<FactsGatheringRequest>,
                    EventsError,
                >(EventsError::MalformedEnvelopeError),
                DecodedEvent::Event { event_type, payload } => {
                    if event_type@ != facts_gathering_request_event_type() {
                        r matches Ok(None)
                    } else {
                        match payload {
                            None => r == Err::<Option<FactsGatheringRequest>, EventsError>(
                                EventsError::MalformedPayloadError,
                            ),
                            Some(ev) => {
                                let filtered = targets_for_agent(ev.targets.deep_view(), self@);
                                if filtered.len() == 0 {
                                    r matches Ok(None)
                                } else {
                                    r matches Ok(Some(req)) && req@ == (FactsGatheringRequestV {
                                        execution_id: ev.execution_id@,
                                        group_id: ev.group_id@,
                                        facts_requests_by_gatherer: buckets_of(
                                            flat_requests(filtered),
                                        ),
                                    })
                                }
                            },
                        }
                    }
                },
            },
    {
        match event {
            DecodedEvent::MalformedEnvelope => Err(EventsError::MalformedEnvelopeError),
            DecodedEvent::Event { event_type, payload } => {
                let recognized: String = facts_gathering_request_event_type_value().to_owned();
                if !(event_type == recognized) {
                    return Ok(None);
                }
                match payload {
                    None => Err(EventsError::MalformedPayloadError),
                    Some(ev) => {
                        let filtered = self.targets_for_this_agent(&ev.targets);
                        if filtered.is_empty() {
                            Ok(None)
                        } else {
                            Ok(
                                Some(
                                    map_fact_gathering_request_from_event(
                                        &filtered,
                                        ev.execution_id,
                                        ev.group_id,
                                    ),
                                ),
                            )
                        }
                    },
                }
            },
        }
    }

    /// Keeps the targets addressed to this agent, preserving order.
    fn targets_for_this_agent(&self, targets: &Vec<GatheringTarget>) -> (r: Vec<GatheringTarget>)
        ensures
            r.deep_view() == targets_for_agent(targets.deep_view(), self@),
    {
        let ghost tv = targets.deep_view();
        let mut filtered: Vec<GatheringTarget> = Vec::new();
        let mut i: usize = 0;
        while i < targets.len()
            invariant
                i <= targets.len(),
                tv == targets.deep_view(),
                filtered.deep_view() == targets_for_agent(tv.take(i as int), self@),
            decreases targets.len() - i,
        {
            let t = &targets[i];
            proof {
                assert(tv[i as int] == targets@[i as int].deep_view());
            }
            if t.agent_id == self.agent_id {
                let ghost prev = filtered.deep_view();
                filtered.push(t.duplicate());
                proof {
                    assert(filtered.deep_view() =~= prev.push(tv[i as int]));
                }
            }
            proof {
                assert(tv.take(i + 1) =~= tv.take(i as int).push(tv[i as int]));
                assert(targets_for_agent(tv.take(i as int).push(tv[i as int]), self@) == (
                if tv[i as int].agent_id == self@ {
                    targets_for_agent(tv.take(i as int), self@).push(tv[i as int])
                } else {
                    targets_for_agent(tv.take(i as int), self@)
                }));
            }
            i += 1;
        }
        proof {
            assert(tv.take(targets.len() as int) =~= tv);
        }
        filtered
    }
}

/// Flattens the fact requests of the given (already filtered) targets and
/// regroups them by the gatherer that must produce each fact, preserving the
/// original relative order inside every bucket; bucket keys are the distinct
/// gatherer names in order of first appearance.
pub fn map_fact_gathering_request_from_event(
    event_requests: &Vec<GatheringTarget>,
    execution_id: String,
    group_id: String,
) -> (r: FactsGatheringRequest)
    ensures
        r@ == (FactsGatheringRequestV {
            execution_id: execution_id@,
            group_id: group_id@,
            facts_requests_by_gatherer: buckets_of(flat_requests(event_requests.deep_view())),
        }),
{
    let ghost tv = event_requests.deep_view();
    let mut buckets: Vec<GathererRequests> = Vec::new();
    let mut i: usize = 0;
    while i < event_requests.len()
        invariant
            i <= event_requests.len(),
            tv == event_requests.deep_view(),
            buckets.deep_view() == buckets_of(flat_requests(tv.take(i as int))),
        decreases event_requests.len() - i,
    {
        let target = &event_requests[i];
        proof {
            assert(tv[i as int] == event_requests@[i as int].deep_view());
        }
        let mut j: usize = 0;
        while j < target.fact_requests.len()
            invariant
                j <= target.fact_requests.len(),
                i < event_requests.len(),
                tv == event_requests.deep_view(),
                *target == event_requests@[i as int],
                tv[i as int] == event_requests@[i as int].deep_view(),
                buckets.deep_view() == buckets_of(
                    flat_requests(tv.take(i as int)) + tv[i as int].fact_requests.take(j as int),
                ),
            decreases target.fact_requests.len() - j,
        {
            let req = &target.fact_requests[j];
            let ghost rv = tv[i as int].fact_requests[j as int];
            let ghost prefix = flat_requests(tv.take(i as int)) + tv[i as int].fact_requests.take(
                j as int,
            );
            proof {
                assert(rv == target.fact_requests@[j as int].deep_view());
                assert(req@ == rv);
            }
            let ghost prev = buckets.deep_view();
            let mut k: usize = 0;
            let mut found: bool = false;
            while k < buckets.len()
                invariant_except_break
                    !found,
                invariant
                    k <= buckets.len(),
                    prev == buckets.deep_view(),
                    req@ == rv,
                    forall|m: int| 0 <= m < k ==> prev[m].gatherer != rv.gatherer,
                ensures
                    found ==> forall|m: int| 0 <= m < k ==> prev[m].gatherer != rv.gatherer,
                    prev == buckets.deep_view(),
                    found ==> k < buckets.len() && prev[k as int].gatherer == rv.gatherer,
                    !found ==> forall|m: int| 0 <= m < prev.len() ==> prev[m].gatherer
                        != rv.gatherer,
                decreases buckets.len() - k,
            {
                if buckets[k].gatherer == req.gatherer {
                    found = true;
                    break ;
                }
                k += 1;
            }
            if found {
                buckets[k].fact_requests.push(req.duplicate());
                proof {
                    lemma_add_to_buckets_at_index(prev, rv, k as int);
                    assert(buckets.deep_view() =~~= add_to_buckets(prev, rv));
                }
            } else {
                let mut first: Vec<FactRequest> = Vec::new();
                first.push(req.duplicate());
                buckets.push(
                    GathererRequests { gatherer: req.gatherer.clone(), fact_requests: first },
                );
                proof {
                    lemma_add_to_buckets_new(prev, rv);
                    assert(first.deep_view() =~= seq![rv]);
                    assert(buckets.deep_view() =~~= add_to_buckets(prev, rv));
                }
            }
            proof {
                assert(prefix.push(rv) =~= flat_requests(tv.take(i as int))
                    + tv[i as int].fact_requests.take(j + 1));
                assert(prefix.push(rv).drop_last() =~= prefix);
                assert(buckets_of(prefix.push(rv)) == add_to_buckets(buckets_of(prefix), rv));
            }
            j += 1;
        }
        proof {
            assert(tv[i as int].fact_requests.take(tv[i as int].fact_requests.len() as int)
                =~= tv[i as int].fact_requests);
            assert(tv.take(i + 1).drop_last() =~= tv.take(i as int));
            assert(tv.take(i + 1).last() == tv[i as int]);
            assert(flat_requests(tv.take(i + 1)) == flat_requests(tv.take(i as int))
                + tv[i as int].fact_requests);
        }
        i += 1;
    }
    proof {
        assert(tv.take(event_requests.len() as int) =~= tv);
    }
    FactsGatheringRequest { execution_id, group_id, facts_requests_by_gatherer: buckets }
}

} // verus!

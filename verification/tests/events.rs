use vanvitelli::events::policy::{
    facts_gathering_request_event_type_value, map_fact_gathering_request_from_event, DecodedEvent,
    EventsError, EventsPolicy, GatheringEvent,
};
use vanvitelli::events::protobuf_events_policy::{
    execution_requested_event_type_value, DecodedExecutionEvent, ExecutionEvent,
    ProtobufEventsPolicy,
};
use vanvitelli::gatherers::facts::{FactRequest, GatheringTarget};

fn fact_request(argument: &str, check_id: &str, gatherer: &str, name: &str) -> FactRequest {
    FactRequest {
        argument: argument.to_owned(),
        check_id: check_id.to_owned(),
        gatherer: gatherer.to_owned(),
        name: name.to_owned(),
    }
}

#[test]
fn test_fact_gathering_request_from_event() {
    let execution_id = "exec1";
    let group_id = "group1";

    let first_target = GatheringTarget {
        agent_id: "agent_1".to_owned(),
        fact_requests: vec![
            fact_request("arg1", "check1", "test_gat", "fact1"),
            fact_request("arg2", "check1", "test_gat", "fact2"),
        ],
    };

    let second_target = GatheringTarget {
        agent_id: "agent_1".to_owned(),
        fact_requests: vec![
            fact_request("arg1", "check1", "test_gat3", "fact3"),
            fact_request("arg1", "check1", "test_gat4", "fact4"),
        ],
    };

    let targets = vec![first_target, second_target];

    let result = map_fact_gathering_request_from_event(
        &targets,
        execution_id.to_owned(),
        group_id.to_owned(),
    );

    assert_eq!(result.execution_id, execution_id.to_owned());
    assert_eq!(result.group_id, group_id.to_owned());
    assert_eq!(
        result.requests_for_gatherer("test_gat").unwrap(),
        &vec![
            fact_request("arg1", "check1", "test_gat", "fact1"),
            fact_request("arg2", "check1", "test_gat", "fact2"),
        ]
    );
    assert_eq!(
        result.requests_for_gatherer("test_gat3").unwrap(),
        &vec![fact_request("arg1", "check1", "test_gat3", "fact3")]
    );
    assert_eq!(
        result.requests_for_gatherer("test_gat4").unwrap(),
        &vec![fact_request("arg1", "check1", "test_gat4", "fact4")]
    );
}

#[test]
fn test_empty_agent_id_is_configuration_error() {
    assert_eq!(
        EventsPolicy::new("").err().unwrap(),
        EventsError::ConfigurationError
    );
    assert_eq!(
        ProtobufEventsPolicy::new("").err().unwrap(),
        EventsError::ConfigurationError
    );
    assert!(EventsPolicy::new("agent_1").is_ok());
}

#[test]
fn test_malformed_envelope_is_reported() {
    let policy = EventsPolicy::new("agent_1").unwrap();
    assert_eq!(
        policy.handle_event(DecodedEvent::MalformedEnvelope).err().unwrap(),
        EventsError::MalformedEnvelopeError
    );
}

#[test]
fn test_malformed_payload_is_reported() {
    let policy = EventsPolicy::new("agent_1").unwrap();
    let event = DecodedEvent::Event {
        event_type: facts_gathering_request_event_type_value().to_owned(),
        payload: None,
    };
    assert_eq!(
        policy.handle_event(event).err().unwrap(),
        EventsError::MalformedPayloadError
    );
}

#[test]
fn test_unrecognized_event_type_is_ignored() {
    let policy = EventsPolicy::new("agent_1").unwrap();
    let event = DecodedEvent::Event {
        event_type: "Trento.Checks.V1.SomethingElse".to_owned(),
        payload: None,
    };
    assert_eq!(policy.handle_event(event).unwrap(), None);
}

#[test]
fn test_event_for_other_agents_is_ignored() {
    let policy = EventsPolicy::new("agent_1").unwrap();
    let event = DecodedEvent::Event {
        event_type: facts_gathering_request_event_type_value().to_owned(),
        payload: Some(GatheringEvent {
            execution_id: "exec1".to_owned(),
            group_id: "group1".to_owned(),
            targets: vec![GatheringTarget {
                agent_id: "agent_2".to_owned(),
                fact_requests: vec![fact_request("arg1", "check1", "disk", "size")],
            }],
        }),
    };
    assert_eq!(policy.handle_event(event).unwrap(), None);
}

#[test]
fn test_gathering_request_is_aggregated_for_this_agent() {
    let policy = EventsPolicy::new("agent_1").unwrap();
    let event = DecodedEvent::Event {
        event_type: facts_gathering_request_event_type_value().to_owned(),
        payload: Some(GatheringEvent {
            execution_id: "exec1".to_owned(),
            group_id: "group1".to_owned(),
            targets: vec![
                GatheringTarget {
                    agent_id: "agent_1".to_owned(),
                    fact_requests: vec![
                        fact_request("", "check1", "disk", "size"),
                        fact_request("", "check1", "disk", "free"),
                    ],
                },
                GatheringTarget {
                    agent_id: "agent_1".to_owned(),
                    fact_requests: vec![
                        fact_request("", "check1", "disk", "mount"),
                        fact_request("", "check1", "cpu", "cores"),
                    ],
                },
            ],
        }),
    };

    let request = policy.handle_event(event).unwrap().unwrap();

    assert_eq!(request.execution_id, "exec1".to_owned());
    assert_eq!(request.group_id, "group1".to_owned());
    assert_eq!(
        request.requests_for_gatherer("disk").unwrap(),
        &vec![
            fact_request("", "check1", "disk", "size"),
            fact_request("", "check1", "disk", "free"),
            fact_request("", "check1", "disk", "mount"),
        ]
    );
    assert_eq!(
        request.requests_for_gatherer("cpu").unwrap(),
        &vec![fact_request("", "check1", "cpu", "cores")]
    );
    assert_eq!(request.requests_for_gatherer("net"), None);
}

#[test]
fn test_targets_of_mixed_agents_are_filtered_in_order() {
    let policy = EventsPolicy::new("agent_1").unwrap();
    let event = DecodedEvent::Event {
        event_type: facts_gathering_request_event_type_value().to_owned(),
        payload: Some(GatheringEvent {
            execution_id: "exec9".to_owned(),
            group_id: "group9".to_owned(),
            targets: vec![
                GatheringTarget {
                    agent_id: "agent_2".to_owned(),
                    fact_requests: vec![fact_request("a", "c", "disk", "other")],
                },
                GatheringTarget {
                    agent_id: "agent_1".to_owned(),
                    fact_requests: vec![fact_request("a", "c", "disk", "mine")],
                },
            ],
        }),
    };

    let request = policy.handle_event(event).unwrap().unwrap();
    assert_eq!(
        request.requests_for_gatherer("disk").unwrap(),
        &vec![fact_request("a", "c", "disk", "mine")]
    );
}

#[test]
fn test_execution_requested_policy_passes_ids_through() {
    let policy = ProtobufEventsPolicy::new("host_1").unwrap();

    let recognized = DecodedExecutionEvent::Event {
        event_type: execution_requested_event_type_value().to_owned(),
        payload: Some(ExecutionEvent {
            execution_id: "exec1".to_owned(),
            group_id: "group1".to_owned(),
        }),
    };
    assert_eq!(
        policy.handle_event(recognized).unwrap(),
        Some(ExecutionEvent {
            execution_id: "exec1".to_owned(),
            group_id: "group1".to_owned(),
        })
    );

    let other = DecodedExecutionEvent::Event {
        event_type: "Trento.Checks.V1.SomethingElse".to_owned(),
        payload: None,
    };
    assert_eq!(policy.handle_event(other).unwrap(), None);

    assert_eq!(
        policy
            .handle_event(DecodedExecutionEvent::MalformedEnvelope)
            .err()
            .unwrap(),
        EventsError::MalformedEnvelopeError
    );
}

#[test]
fn test_gathering_event_with_no_targets_is_ignored() {
    let policy = EventsPolicy::new("agent_1").unwrap();
    let event = DecodedEvent::Event {
        event_type: facts_gathering_request_event_type_value().to_owned(),
        payload: Some(GatheringEvent {
            execution_id: "exec1".to_owned(),
            group_id: "group1".to_owned(),
            targets: vec![],
        }),
    };
    assert_eq!(policy.handle_event(event).unwrap(), None);
}

use dns_lattice::{Class, Name, Question, RecordType, RouteDecision, RouteHookError, RouteRequest, UpstreamGroupId};

#[test]
fn hook_error_has_a_stable_display_message_and_implements_std_error() {
    let error = RouteHookError::new("policy service unavailable");
    assert_eq!(error.to_string(), "policy service unavailable");
}

#[test]
fn route_request_exposes_its_question_and_static_group() {
    let question = Question {
        name: Name::from_ascii("example.com").unwrap(),
        qtype: RecordType::A,
        qclass: Class::In,
    };
    let group = UpstreamGroupId::new("public");
    let request = RouteRequest::new(&question, Some(&group));
    assert_eq!(request.question().name, Name::from_ascii("EXAMPLE.com").unwrap());
    assert_eq!(request.static_group().map(|g| g.as_str()), Some("public"));
    let unrouted = RouteRequest::new(&question, None);
    assert!(unrouted.static_group().is_none());
    assert_eq!(
        RouteDecision::Use(UpstreamGroupId::new("alternate")),
        RouteDecision::Use(UpstreamGroupId::new("alternate"))
    );
    assert_ne!(RouteDecision::Use(UpstreamGroupId::new("a")), RouteDecision::Abstain);
}

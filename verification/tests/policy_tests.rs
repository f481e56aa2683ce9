use dns_lattice::{DomainPattern, Name, SplitDnsPolicy, UpstreamGroupId};

fn n(s: &str) -> Name {
    Name::from_ascii(s).unwrap()
}

#[test]
fn resolves_matching_group() {
    let policy = SplitDnsPolicy::builder()
        .rule(
            DomainPattern::suffix(n("corp.internal")),
            UpstreamGroupId::new("corp"),
        )
        .build();
    assert_eq!(
        policy.resolve_group(&n("host.corp.internal")),
        Some(&UpstreamGroupId::new("corp"))
    );
}

#[test]
fn falls_back_to_default_group_when_nothing_matches() {
    let policy = SplitDnsPolicy::builder()
        .rule(
            DomainPattern::suffix(n("corp.internal")),
            UpstreamGroupId::new("corp"),
        )
        .default_group(UpstreamGroupId::new("public"))
        .build();
    assert_eq!(
        policy.resolve_group(&n("example.com")),
        Some(&UpstreamGroupId::new("public"))
    );
}

#[test]
fn no_match_and_no_default_returns_none() {
    let policy = SplitDnsPolicy::builder().build();
    assert_eq!(policy.resolve_group(&n("example.com")), None);
}

#[test]
fn matching_rule_wins_over_default_and_precedence_applies() {
    let policy = SplitDnsPolicy::builder()
        .rule(DomainPattern::wildcard(n("corp.internal")), UpstreamGroupId::new("wild"))
        .rule(DomainPattern::exact(n("db.corp.internal")), UpstreamGroupId::new("db"))
        .default_group(UpstreamGroupId::new("public"))
        .build();
    assert_eq!(
        policy.resolve_group(&n("DB.corp.internal")).map(|g| g.as_str()),
        Some("db")
    );
    assert_eq!(
        policy.resolve_group(&n("web.corp.internal")).map(|g| g.as_str()),
        Some("wild")
    );
    assert_eq!(
        policy.resolve_group(&n("corp.internal")).map(|g| g.as_str()),
        Some("public")
    );
}

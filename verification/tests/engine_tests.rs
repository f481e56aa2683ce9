use dns_lattice::engine::{cacheable_ttl, is_retryable, parse_reverse_name};
use dns_lattice::{
    Class, DomainPattern, Error, FakeIpPolicy, FakeIpPool, Header, HookObserveDecision, Message,
    Name, ObserveEvent, ObserveFailure, Opcode, Question, RData, Rcode, RecordType, ResolverCore,
    ResourceRecord, ReverseAddress, RouteDecision, RouteHookError, SplitDnsPolicy, Step,
    UpstreamGroupId, UpstreamObserveOutcome,
};

fn v4(a: u8, b: u8, c: u8, d: u8) -> u32 {
    u32::from_be_bytes([a, b, c, d])
}

/// `2001:db8::x`.
fn doc6(x: u16) -> u128 {
    (0x2001_0db8u128 << 96) | u128::from(x)
}

fn n(s: &str) -> Name {
    Name::from_ascii(s).unwrap()
}

fn query_for(name: &str) -> Message {
    Message {
        header: Header {
            id: 1,
            qr: false,
            opcode: Opcode::Query,
            authoritative: false,
            truncated: false,
            recursion_desired: true,
            recursion_available: false,
            rcode: Rcode::NoError,
        },
        questions: vec![Question {
            name: n(name),
            qtype: RecordType::A,
            qclass: Class::In,
        }],
        answers: vec![],
        authorities: vec![],
        additionals: vec![],
    }
}

fn query_for_type(name: &str, qtype: RecordType, qclass: Class, id: u16) -> Message {
    let mut query = query_for(name);
    query.header.id = id;
    query.questions[0].qtype = qtype;
    query.questions[0].qclass = qclass;
    query
}

fn answer_tagged(id: u16) -> Message {
    let mut msg = query_for("tag.example");
    msg.header.id = id;
    msg.header.qr = true;
    msg.answers.push(ResourceRecord {
        name: n("tag.example"),
        rtype: RecordType::A,
        class: Class::In,
        ttl: 0,
        rdata: RData::A([192, 0, 2, 1]),
    });
    msg
}

fn a_answer(name: &str, ttl: u32) -> Message {
    let mut msg = query_for(name);
    msg.header.qr = true;
    msg.answers.push(ResourceRecord {
        name: n(name),
        rtype: RecordType::A,
        class: Class::In,
        ttl,
        rdata: RData::A([203, 0, 113, 1]),
    });
    msg
}

fn nxdomain_answer(name: &str, soa_minimum: Option<u32>) -> Message {
    let mut msg = query_for(name);
    msg.header.qr = true;
    msg.header.rcode = Rcode::NxDomain;
    if let Some(minimum) = soa_minimum {
        msg.authorities.push(ResourceRecord {
            name: n("example.com"),
            rtype: RecordType::Soa,
            class: Class::In,
            ttl: 3600,
            rdata: RData::Soa {
                mname: n("ns1.example.com"),
                rname: n("hostmaster.example.com"),
                serial: 1,
                refresh: 3600,
                retry: 600,
                expire: 604_800,
                minimum,
            },
        });
    }
    msg
}

/// Upstream backends standing in for real transports: each answers with a
/// fixed result and counts its calls.
struct Upstreams {
    results: Vec<Vec<Result<Message, Error>>>,
    calls: Vec<Vec<usize>>,
}

impl Upstreams {
    fn new() -> Self {
        Upstreams { results: Vec::new(), calls: Vec::new() }
    }

    fn register(&mut self, core: &mut ResolverCore, group: &str, result: Result<Message, Error>) {
        let (g, b) = core.add_backend(UpstreamGroupId::new(group));
        if g == self.results.len() {
            self.results.push(Vec::new());
            self.calls.push(Vec::new());
        }
        assert_eq!(b, self.results[g].len());
        self.results[g].push(result);
        self.calls[g].push(0);
    }

    fn total_calls(&self) -> usize {
        self.calls.iter().flatten().sum()
    }
}

/// A route hook standing in for a caller-supplied one: it answers every
/// request with the next of its scripted decisions and records what it saw.
struct ScriptedHook {
    decisions: Vec<Result<RouteDecision, RouteHookError>>,
    seen: Vec<(Question, Option<UpstreamGroupId>)>,
}

impl ScriptedHook {
    fn new(decisions: Vec<Result<RouteDecision, RouteHookError>>) -> Self {
        ScriptedHook { decisions, seen: Vec::new() }
    }
}

const CORRELATION_ID: u64 = 7;

/// Drives one query through the resolver, performing the hook and backend
/// calls it asks for, and collects the events it emits.
fn drive(
    core: &mut ResolverCore,
    up: &mut Upstreams,
    mut hook: Option<&mut ScriptedHook>,
    query: &Message,
    now_ms: u64,
    events: &mut Vec<ObserveEvent>,
) -> Result<Message, Error> {
    let mut t = core.begin(query, now_ms, CORRELATION_ID);
    loop {
        events.extend(t.events);
        match t.step {
            Step::Answer(m) => return Ok(m),
            Step::Fail(e) => return Err(e),
            Step::AskHook { static_group } => {
                let h = hook.as_mut().expect("the resolver asks a hook only when one is installed");
                h.seen.push((query.questions[0].clone(), static_group));
                let decision = h.decisions.remove(0);
                t = core.on_hook_decision(query, now_ms, CORRELATION_ID, decision);
            }
            Step::Call { group, backend } => {
                up.calls[group][backend] += 1;
                let result = up.results[group][backend].clone();
                t = core.on_backend_result(query, now_ms, CORRELATION_ID, group, backend, result);
            }
        }
    }
}

fn resolve(core: &mut ResolverCore, up: &mut Upstreams, query: &Message, now_ms: u64) -> Result<Message, Error> {
    drive(core, up, None, query, now_ms, &mut Vec::new())
}

fn single_group(policy: SplitDnsPolicy, group: &str, result: Result<Message, Error>) -> (ResolverCore, Upstreams) {
    let mut core = ResolverCore::new(policy);
    let mut up = Upstreams::new();
    up.register(&mut core, group, result);
    (core, up)
}

fn default_policy(group: &str) -> SplitDnsPolicy {
    SplitDnsPolicy::builder().default_group(UpstreamGroupId::new(group)).build()
}

#[test]
fn routes_exact_match_to_its_group() {
    let policy = SplitDnsPolicy::builder()
        .rule(DomainPattern::exact(n("host.corp.internal")), UpstreamGroupId::new("corp"))
        .build();
    let (mut core, mut up) = single_group(policy, "corp", Ok(answer_tagged(42)));
    let answer = resolve(&mut core, &mut up, &query_for("host.corp.internal"), 0).unwrap();
    assert_eq!(answer.header.id, 42);
}

#[test]
fn routes_suffix_match_to_its_group() {
    let policy = SplitDnsPolicy::builder()
        .rule(DomainPattern::suffix(n("corp.internal")), UpstreamGroupId::new("corp"))
        .build();
    let (mut core, mut up) = single_group(policy, "corp", Ok(answer_tagged(7)));
    let answer = resolve(&mut core, &mut up, &query_for("host.corp.internal"), 0).unwrap();
    assert_eq!(answer.header.id, 7);
}

#[test]
fn routes_wildcard_match_to_its_group() {
    let policy = SplitDnsPolicy::builder()
        .rule(DomainPattern::wildcard(n("corp.internal")), UpstreamGroupId::new("corp"))
        .build();
    let (mut core, mut up) = single_group(policy, "corp", Ok(answer_tagged(9)));
    let answer = resolve(&mut core, &mut up, &query_for("host.corp.internal"), 0).unwrap();
    assert_eq!(answer.header.id, 9);
}

#[test]
fn routes_unmatched_query_to_default_group() {
    let policy = SplitDnsPolicy::builder()
        .rule(DomainPattern::suffix(n("corp.internal")), UpstreamGroupId::new("corp"))
        .default_group(UpstreamGroupId::new("public"))
        .build();
    let (mut core, mut up) = single_group(policy, "public", Ok(answer_tagged(3)));
    let answer = resolve(&mut core, &mut up, &query_for("example.com"), 0).unwrap();
    assert_eq!(answer.header.id, 3);
}

#[test]
fn no_route_when_no_match_and_no_default_group() {
    let mut core = ResolverCore::new(SplitDnsPolicy::builder().build());
    let mut up = Upstreams::new();
    let err = resolve(&mut core, &mut up, &query_for("example.com"), 0).unwrap_err();
    assert_eq!(err, Error::NoRoute);
}

#[test]
fn no_route_when_matched_group_has_no_registered_backend() {
    let policy = SplitDnsPolicy::builder()
        .rule(DomainPattern::suffix(n("corp.internal")), UpstreamGroupId::new("corp"))
        .build();
    let mut core = ResolverCore::new(policy);
    let mut up = Upstreams::new();
    up.register(&mut core, "other", Ok(answer_tagged(1)));
    let err = resolve(&mut core, &mut up, &query_for("host.corp.internal"), 0).unwrap_err();
    assert_eq!(err, Error::NoRoute);
    assert_eq!(up.total_calls(), 0);
}

#[test]
fn query_without_a_question_has_no_route() {
    let mut core = ResolverCore::new(default_policy("g"));
    let mut up = Upstreams::new();
    up.register(&mut core, "g", Ok(answer_tagged(1)));
    let mut query = query_for("example.com");
    query.questions.clear();
    assert_eq!(resolve(&mut core, &mut up, &query, 0).unwrap_err(), Error::NoRoute);
}

#[test]
fn failover_first_backend_succeeds_second_never_called() {
    let mut core = ResolverCore::new(default_policy("g"));
    let mut up = Upstreams::new();
    up.register(&mut core, "g", Ok(answer_tagged(1)));
    up.register(&mut core, "g", Ok(answer_tagged(2)));
    let answer = resolve(&mut core, &mut up, &query_for("example.com"), 0).unwrap();
    assert_eq!(answer.header.id, 1);
    assert_eq!(up.calls[0][1], 0, "second backend never called once the first succeeds");
}

#[test]
fn failover_first_backend_fails_second_succeeds() {
    let mut core = ResolverCore::new(default_policy("g"));
    let mut up = Upstreams::new();
    up.register(&mut core, "g", Err(Error::Timeout));
    up.register(&mut core, "g", Ok(answer_tagged(99)));
    let answer = resolve(&mut core, &mut up, &query_for("example.com"), 0).unwrap();
    assert_eq!(answer.header.id, 99);
}

#[test]
fn failover_tls_error_retries_to_next_backend() {
    let mut core = ResolverCore::new(default_policy("g"));
    let mut up = Upstreams::new();
    up.register(&mut core, "g", Err(Error::Tls("certificate expired".to_string())));
    up.register(&mut core, "g", Ok(answer_tagged(5)));
    let answer = resolve(&mut core, &mut up, &query_for("example.com"), 0).unwrap();
    assert_eq!(answer.header.id, 5);
}

#[test]
fn failover_all_backends_fail_returns_last_error() {
    let mut core = ResolverCore::new(default_policy("g"));
    let mut up = Upstreams::new();
    up.register(&mut core, "g", Err(Error::Timeout));
    up.register(&mut core, "g", Err(Error::Transport("connection refused".to_string())));
    let err = resolve(&mut core, &mut up, &query_for("example.com"), 0).unwrap_err();
    assert_eq!(err, Error::Transport("connection refused".to_string()));
    // The exhausted-group failure is not cached: the next query calls again.
    let _ = resolve(&mut core, &mut up, &query_for("example.com"), 0);
    assert_eq!(up.calls[0], vec![2, 2]);
}

#[test]
fn single_backend_group_still_behaves_as_before() {
    let (mut core, mut up) = single_group(default_policy("g"), "g", Ok(answer_tagged(11)));
    let answer = resolve(&mut core, &mut up, &query_for("example.com"), 0).unwrap();
    assert_eq!(answer.header.id, 11);
}

#[test]
fn backend_error_propagates_as_is() {
    let mut core = ResolverCore::new(default_policy("g"));
    let mut up = Upstreams::new();
    up.register(&mut core, "g", Err(Error::NameTooLong));
    up.register(&mut core, "g", Ok(answer_tagged(1)));
    let err = resolve(&mut core, &mut up, &query_for("example.com"), 0).unwrap_err();
    assert_eq!(err, Error::NameTooLong);
    assert_eq!(up.calls[0][1], 0, "a non-retryable error does not fail over");
}

#[test]
fn cache_hit_does_not_call_backend_again() {
    let (mut core, mut up) = single_group(default_policy("g"), "g", Ok(a_answer("example.com", 300)));
    let first = resolve(&mut core, &mut up, &query_for("example.com"), 0).unwrap();
    let second = resolve(&mut core, &mut up, &query_for("EXAMPLE.com"), 1_000).unwrap();
    assert_eq!(first, second);
    assert_eq!(up.total_calls(), 1, "backend called only once");
}

#[test]
fn cache_entry_still_hit_just_before_ttl_elapses() {
    let (mut core, mut up) = single_group(default_policy("g"), "g", Ok(a_answer("example.com", 300)));
    resolve(&mut core, &mut up, &query_for("example.com"), 5_000).unwrap();
    assert_eq!(up.total_calls(), 1);
    resolve(&mut core, &mut up, &query_for("example.com"), 5_000 + 299_999).unwrap();
    assert_eq!(up.total_calls(), 1, "cache hit before expiry");
}

#[test]
fn negative_answer_is_cached_with_soa_minimum_ttl() {
    let (mut core, mut up) =
        single_group(default_policy("g"), "g", Ok(nxdomain_answer("missing.example.com", Some(300))));
    let first = resolve(&mut core, &mut up, &query_for("missing.example.com"), 0).unwrap();
    assert_eq!(first.header.rcode, Rcode::NxDomain);
    resolve(&mut core, &mut up, &query_for("missing.example.com"), 299_000).unwrap();
    assert_eq!(up.total_calls(), 1, "negative answer cached");
    resolve(&mut core, &mut up, &query_for("missing.example.com"), 300_000).unwrap();
    assert_eq!(up.total_calls(), 2, "negative answer expires after the SOA minimum");
}

#[test]
fn negative_answer_without_soa_uses_fixed_floor_ttl() {
    let (mut core, mut up) =
        single_group(default_policy("g"), "g", Ok(nxdomain_answer("missing.example.com", None)));
    resolve(&mut core, &mut up, &query_for("missing.example.com"), 0).unwrap();
    resolve(&mut core, &mut up, &query_for("missing.example.com"), 59_999).unwrap();
    assert_eq!(up.total_calls(), 1, "negative answer cached via floor");
    resolve(&mut core, &mut up, &query_for("missing.example.com"), 60_000).unwrap();
    assert_eq!(up.total_calls(), 2);
}

#[test]
fn nodata_answer_is_cached_as_negative() {
    let mut nodata = query_for("empty.example.com");
    nodata.header.qr = true;
    let (mut core, mut up) = single_group(default_policy("g"), "g", Ok(nodata));
    resolve(&mut core, &mut up, &query_for("empty.example.com"), 0).unwrap();
    resolve(&mut core, &mut up, &query_for("empty.example.com"), 1).unwrap();
    assert_eq!(up.total_calls(), 1, "nodata answer cached");
}

#[test]
fn expired_cache_entry_triggers_a_fresh_backend_call() {
    let (mut core, mut up) = single_group(default_policy("g"), "g", Ok(a_answer("example.com", 10)));
    resolve(&mut core, &mut up, &query_for("example.com"), 0).unwrap();
    assert_eq!(up.total_calls(), 1);
    resolve(&mut core, &mut up, &query_for("example.com"), 11_000).unwrap();
    assert_eq!(up.total_calls(), 2, "ttl-expired entry is not served from cache");
}

#[test]
fn cache_is_keyed_by_type_and_class_too() {
    let (mut core, mut up) = single_group(default_policy("g"), "g", Ok(a_answer("example.com", 300)));
    resolve(&mut core, &mut up, &query_for("example.com"), 0).unwrap();
    resolve(&mut core, &mut up, &query_for_type("example.com", RecordType::Aaaa, Class::In, 2), 0).unwrap();
    resolve(&mut core, &mut up, &query_for_type("example.com", RecordType::A, Class::Ch, 3), 0).unwrap();
    assert_eq!(up.total_calls(), 3);
}

#[test]
fn error_responses_without_records_are_not_cached() {
    let mut servfail = query_for("example.com");
    servfail.header.qr = true;
    servfail.header.rcode = Rcode::ServFail;
    assert_eq!(cacheable_ttl(&servfail), None);
    let (mut core, mut up) = single_group(default_policy("g"), "g", Ok(servfail));
    resolve(&mut core, &mut up, &query_for("example.com"), 0).unwrap();
    resolve(&mut core, &mut up, &query_for("example.com"), 0).unwrap();
    assert_eq!(up.total_calls(), 2);
}

#[test]
fn cacheable_ttl_uses_the_smallest_record_ttl_and_first_soa() {
    let mut m = a_answer("example.com", 300);
    m.answers.push(ResourceRecord {
        name: n("example.com"),
        rtype: RecordType::A,
        class: Class::In,
        ttl: 20,
        rdata: RData::A([203, 0, 113, 2]),
    });
    assert_eq!(cacheable_ttl(&m), Some(20));
    let mut neg = nxdomain_answer("x.example.com", Some(120));
    let second = nxdomain_answer("x.example.com", Some(5)).authorities.remove(0);
    neg.authorities.push(second);
    assert_eq!(cacheable_ttl(&neg), Some(120));
    assert_eq!(cacheable_ttl(&nxdomain_answer("x.example.com", None)), Some(60));
}

#[test]
fn retryable_errors_are_the_transport_level_ones() {
    assert!(is_retryable(&Error::Timeout));
    assert!(is_retryable(&Error::Transport("x".to_string())));
    assert!(is_retryable(&Error::Tls("x".to_string())));
    assert!(!is_retryable(&Error::NoRoute));
    assert!(!is_retryable(&Error::NameTooLong));
}

fn fake_ip_policy(name: &str) -> FakeIpPolicy {
    FakeIpPolicy::builder().rule(DomainPattern::suffix(n(name))).build()
}

fn fake_ip_pool() -> FakeIpPool {
    FakeIpPool::builder()
        .ipv4_range(v4(198, 18, 0, 1), v4(198, 18, 0, 2))
        .ttl(30)
        .build()
        .unwrap()
}

fn fake_ip_pool_ipv6() -> FakeIpPool {
    FakeIpPool::builder()
        .ipv6_range(
            doc6(1),
            doc6(2),
        )
        .ttl(30)
        .build()
        .unwrap()
}

fn reverse_v4(address: u32) -> String {
    let o = address.to_be_bytes();
    format!("{}.{}.{}.{}.in-addr.arpa", o[3], o[2], o[1], o[0])
}

#[test]
fn fake_ip_a_answer_is_local_and_bypasses_upstream_and_cache() {
    let (mut core, mut up) = single_group(default_policy("g"), "g", Ok(a_answer("example.test", 300)));
    core.set_fake_ip(fake_ip_pool(), fake_ip_policy("example.test"));
    let first = resolve(&mut core, &mut up, &query_for_type("www.example.test", RecordType::A, Class::In, 41), 0).unwrap();
    let second = resolve(&mut core, &mut up, &query_for_type("www.example.test", RecordType::A, Class::In, 42), 0).unwrap();
    assert_eq!(up.total_calls(), 0);
    assert_eq!(first.header.id, 41);
    assert_eq!(second.header.id, 42, "synthetic answers are not cached");
    assert!(first.header.qr);
    assert_eq!(first.questions, query_for("www.example.test").questions);
    assert_eq!(first.answers[0].ttl, 30);
    assert_eq!(first.answers[0].rdata, second.answers[0].rdata);
    match first.answers[0].rdata {
        RData::A(octets) => assert_eq!(octets[..3], [198, 18, 0]),
        _ => panic!("expected an A record"),
    }
}

#[test]
fn fake_ip_disabled_family_returns_local_nodata() {
    let (mut core, mut up) = single_group(default_policy("g"), "g", Ok(a_answer("example.test", 300)));
    core.set_fake_ip(fake_ip_pool(), fake_ip_policy("example.test"));
    let answer = resolve(&mut core, &mut up, &query_for_type("www.example.test", RecordType::Aaaa, Class::In, 9), 0).unwrap();
    assert_eq!(answer.header.rcode, Rcode::NoError);
    assert!(answer.answers.is_empty());
    assert_eq!(up.total_calls(), 0);
}

#[test]
fn fake_ip_ptr_is_local_and_expires_with_its_mapping() {
    let mut pool = fake_ip_pool();
    let address = pool.allocate_ipv4(n("www.example.test"), 0).unwrap();
    let mut core = ResolverCore::new(SplitDnsPolicy::builder().build());
    let mut up = Upstreams::new();
    core.set_fake_ip(pool, fake_ip_policy("example.test"));
    let reverse = reverse_v4(address);

    let found = resolve(&mut core, &mut up, &query_for_type(&reverse, RecordType::Ptr, Class::In, 11), 0).unwrap();
    assert_eq!(found.header.rcode, Rcode::NoError);
    assert_eq!(found.answers[0].rdata, RData::Ptr(n("www.example.test")));
    assert_eq!(found.answers[0].ttl, 30);

    let expired = resolve(&mut core, &mut up, &query_for_type(&reverse, RecordType::Ptr, Class::In, 12), 30_000).unwrap();
    assert_eq!(expired.header.rcode, Rcode::NxDomain);
    assert!(expired.answers.is_empty());
}

#[test]
fn fake_ip_answer_ttl_never_outlives_existing_mapping() {
    let mut pool = fake_ip_pool();
    pool.allocate_ipv4(n("www.example.test"), 0).unwrap();
    let mut core = ResolverCore::new(SplitDnsPolicy::builder().build());
    let mut up = Upstreams::new();
    core.set_fake_ip(pool, fake_ip_policy("example.test"));
    let answer = resolve(&mut core, &mut up, &query_for_type("www.example.test", RecordType::A, Class::In, 20), 29_000).unwrap();
    assert_eq!(answer.answers[0].ttl, 1);
}

#[test]
fn fake_ip_ptr_ttl_never_outlives_existing_mapping() {
    let mut pool = fake_ip_pool();
    let address = pool.allocate_ipv4(n("www.example.test"), 0).unwrap();
    let mut core = ResolverCore::new(SplitDnsPolicy::builder().build());
    let mut up = Upstreams::new();
    core.set_fake_ip(pool, fake_ip_policy("example.test"));
    let answer = resolve(&mut core, &mut up, &query_for_type(&reverse_v4(address), RecordType::Ptr, Class::In, 21), 29_000).unwrap();
    assert_eq!(answer.answers[0].ttl, 1);
}

#[test]
fn fake_ip_ipv6_ptr_is_local() {
    let mut pool = fake_ip_pool_ipv6();
    let address = pool.allocate_ipv6(n("www.example.test"), 0).unwrap();
    let mut core = ResolverCore::new(SplitDnsPolicy::builder().build());
    let mut up = Upstreams::new();
    core.set_fake_ip(pool, fake_ip_policy("example.test"));
    let reverse = address
        .to_be_bytes()
        .iter()
        .rev()
        .flat_map(|byte| [format!("{:x}", byte & 0x0f), format!("{:x}", byte >> 4)])
        .collect::<Vec<_>>()
        .join(".");
    let answer = resolve(&mut core, &mut up, &query_for_type(&format!("{reverse}.ip6.arpa"), RecordType::Ptr, Class::In, 22), 0).unwrap();
    assert_eq!(answer.header.rcode, Rcode::NoError);
    assert_eq!(answer.answers[0].rdata, RData::Ptr(n("www.example.test")));
}

#[test]
fn normal_queries_and_outside_reverse_ranges_still_use_upstream() {
    let pool = FakeIpPool::builder()
        .ipv4_range(v4(198, 18, 0, 1), v4(198, 18, 0, 2))
        .ttl(u64::MAX)
        .build()
        .unwrap();
    let (mut core, mut up) = single_group(default_policy("g"), "g", Ok(answer_tagged(77)));
    core.set_fake_ip(pool, fake_ip_policy("selected.test"));
    for (i, query) in [
        query_for_type("miss.test", RecordType::A, Class::In, 1),
        query_for_type("selected.test", RecordType::A, Class::Ch, 2),
        query_for_type("selected.test", RecordType::Txt, Class::In, 3),
        query_for_type("1.0.0.203.in-addr.arpa", RecordType::Ptr, Class::In, 4),
    ]
    .iter()
    .enumerate()
    {
        let answer = resolve(&mut core, &mut up, query, i as u64).unwrap();
        assert_eq!(answer.header.id, 77);
    }
    assert_eq!(up.total_calls(), 4);
}

#[test]
fn unrepresentable_fake_ip_ttl_fails_before_allocation() {
    let pool = FakeIpPool::builder()
        .ipv4_range(v4(198, 18, 0, 1), v4(198, 18, 0, 2))
        .ttl(u64::from(u32::MAX) + 1)
        .build()
        .unwrap();
    let mut core = ResolverCore::new(SplitDnsPolicy::builder().build());
    let mut up = Upstreams::new();
    core.set_fake_ip(pool, fake_ip_policy("example.test"));
    assert_eq!(
        resolve(&mut core, &mut up, &query_for_type("www.example.test", RecordType::A, Class::In, 23), 0),
        Err(Error::FakeIpTtlOutOfRange)
    );
    // Nothing was allocated: the reverse lookup is unmapped.
    let ptr = resolve(&mut core, &mut up, &query_for_type(&reverse_v4(v4(198, 18, 0, 1)), RecordType::Ptr, Class::In, 24), 0);
    assert_eq!(ptr.unwrap().header.rcode, Rcode::NxDomain);
    let ptr = resolve(&mut core, &mut up, &query_for_type(&reverse_v4(v4(198, 18, 0, 2)), RecordType::Ptr, Class::In, 25), 0);
    assert_eq!(ptr.unwrap().header.rcode, Rcode::NxDomain);
}

#[test]
fn disabled_fake_ip_families_return_nodata_even_with_unrepresentable_ttl() {
    let pool = FakeIpPool::builder()
        .ipv4_range(v4(198, 18, 0, 1), v4(198, 18, 0, 2))
        .ttl(u64::from(u32::MAX) + 1)
        .build()
        .unwrap();
    let (mut core, mut up) = single_group(default_policy("g"), "g", Ok(answer_tagged(78)));
    core.set_fake_ip(pool, fake_ip_policy("example.test"));
    let aaaa = resolve(&mut core, &mut up, &query_for_type("www.example.test", RecordType::Aaaa, Class::In, 24), 0).unwrap();
    assert_eq!(aaaa.header.rcode, Rcode::NoError);
    assert!(aaaa.answers.is_empty());
    assert_eq!(up.total_calls(), 0);

    let ipv6_only_pool = FakeIpPool::builder()
        .ipv6_range(
            doc6(1),
            doc6(2),
        )
        .ttl(u64::from(u32::MAX) + 1)
        .build()
        .unwrap();
    let (mut core, mut up) = single_group(default_policy("g"), "g", Ok(answer_tagged(79)));
    core.set_fake_ip(ipv6_only_pool, fake_ip_policy("example.test"));
    let a = resolve(&mut core, &mut up, &query_for_type("www.example.test", RecordType::A, Class::In, 25), 0).unwrap();
    assert_eq!(a.header.rcode, Rcode::NoError);
    assert!(a.answers.is_empty());
    assert_eq!(up.total_calls(), 0);
}

#[test]
fn fake_ip_pool_without_ttl_cannot_advertise_a_dns_ttl() {
    let pool = FakeIpPool::builder()
        .ipv4_range(v4(198, 18, 0, 1), v4(198, 18, 0, 2))
        .build()
        .unwrap();
    let mut core = ResolverCore::new(SplitDnsPolicy::builder().build());
    let mut up = Upstreams::new();
    core.set_fake_ip(pool, fake_ip_policy("example.test"));
    assert_eq!(
        resolve(&mut core, &mut up, &query_for_type("www.example.test", RecordType::A, Class::In, 1), 0),
        Err(Error::FakeIpTtlOutOfRange)
    );
}

#[test]
fn parses_canonical_ipv4_and_ipv6_reverse_names() {
    assert_eq!(
        parse_reverse_name(&n("4.3.2.1.in-addr.arpa")),
        Some(ReverseAddress::V4(v4(1, 2, 3, 4)))
    );
    assert_eq!(
        parse_reverse_name(&n("4.3.2.01.in-addr.arpa")),
        None,
        "non-canonical decimal labels are routed normally"
    );
    let reverse = format!("1.{}ip6.arpa", "0.".repeat(31));
    assert_eq!(
        parse_reverse_name(&n(&reverse)),
        Some(ReverseAddress::V6(1))
    );
}

#[test]
fn reverse_names_must_be_fully_canonical() {
    assert_eq!(parse_reverse_name(&n("255.0.0.10.IN-ADDR.ARPA")), Some(ReverseAddress::V4(0x0A00_00FF)));
    assert_eq!(parse_reverse_name(&n("256.0.0.10.in-addr.arpa")), None);
    assert_eq!(parse_reverse_name(&n("+1.0.0.10.in-addr.arpa")), None);
    assert_eq!(parse_reverse_name(&n("0.0.10.in-addr.arpa")), None);
    let upper = format!("F.{}IP6.ARPA", "0.".repeat(31));
    assert_eq!(parse_reverse_name(&n(&upper)), Some(ReverseAddress::V6(15)));
    let long_label = format!("10.{}ip6.arpa", "0.".repeat(31));
    assert_eq!(parse_reverse_name(&n(&long_label)), None);
    let not_hex = format!("g.{}ip6.arpa", "0.".repeat(31));
    assert_eq!(parse_reverse_name(&n(&not_hex)), None);
    assert_eq!(parse_reverse_name(&n("example.com")), None);
}

fn gid(s: &str) -> UpstreamGroupId {
    UpstreamGroupId::new(s)
}

/// A resolver whose static policy sends `*.corp.internal` to `corp` and
/// everything else to `public`, with one backend per group and a route hook.
fn hooked_core() -> (ResolverCore, Upstreams) {
    let policy = SplitDnsPolicy::builder()
        .rule(DomainPattern::suffix(n("corp.internal")), gid("corp"))
        .default_group(gid("public"))
        .build();
    let mut core = ResolverCore::new(policy);
    let mut up = Upstreams::new();
    up.register(&mut core, "corp", Ok(a_answer("host.corp.internal", 300)));
    up.register(&mut core, "public", Ok(a_answer("host.corp.internal", 300)));
    core.enable_route_hook();
    (core, up)
}

#[test]
fn hook_sees_first_question_and_static_candidate() {
    let (mut core, mut up) = hooked_core();
    let mut hook = ScriptedHook::new(vec![Ok(RouteDecision::Abstain)]);
    let query = query_for("host.corp.internal");
    drive(&mut core, &mut up, Some(&mut hook), &query, 0, &mut Vec::new()).unwrap();
    assert_eq!(hook.seen.len(), 1);
    assert_eq!(hook.seen[0].0, query.questions[0]);
    assert_eq!(hook.seen[0].1, Some(gid("corp")));
}

#[test]
fn hook_abstain_keeps_the_static_group() {
    let (mut core, mut up) = hooked_core();
    let mut hook = ScriptedHook::new(vec![Ok(RouteDecision::Abstain)]);
    drive(&mut core, &mut up, Some(&mut hook), &query_for("host.corp.internal"), 0, &mut Vec::new())
        .unwrap();
    assert_eq!(up.calls, vec![vec![1], vec![0]]);
}

#[test]
fn hook_use_overrides_the_static_group() {
    let (mut core, mut up) = hooked_core();
    let mut hook = ScriptedHook::new(vec![Ok(RouteDecision::Use(gid("public")))]);
    drive(&mut core, &mut up, Some(&mut hook), &query_for("host.corp.internal"), 0, &mut Vec::new())
        .unwrap();
    assert_eq!(up.calls, vec![vec![0], vec![1]]);
}

#[test]
fn hook_error_fails_without_falling_back_to_static_routing() {
    let (mut core, mut up) = hooked_core();
    let mut hook = ScriptedHook::new(vec![Err(RouteHookError::new("policy service unavailable"))]);
    let mut events = Vec::new();
    let err = drive(&mut core, &mut up, Some(&mut hook), &query_for("host.corp.internal"), 0, &mut events)
        .unwrap_err();
    assert_eq!(err, Error::Hook("policy service unavailable".to_string()));
    assert_eq!(err.to_string(), "route hook error: policy service unavailable");
    assert_eq!(up.total_calls(), 0);
    assert_eq!(
        events[2..],
        [
            ObserveEvent::HookDecision {
                correlation_id: CORRELATION_ID,
                decision: HookObserveDecision::Failed,
            },
            ObserveEvent::Failed { correlation_id: CORRELATION_ID, failure: ObserveFailure::Hook },
        ]
    );
}

#[test]
fn hook_selecting_an_unregistered_group_has_no_route() {
    let (mut core, mut up) = hooked_core();
    let mut hook = ScriptedHook::new(vec![Ok(RouteDecision::Use(gid("missing")))]);
    let err = drive(&mut core, &mut up, Some(&mut hook), &query_for("example.com"), 0, &mut Vec::new())
        .unwrap_err();
    assert_eq!(err, Error::NoRoute);
    assert_eq!(up.total_calls(), 0);
}

#[test]
fn hook_abstain_without_a_static_candidate_has_no_route() {
    let policy = SplitDnsPolicy::builder()
        .rule(DomainPattern::suffix(n("corp.internal")), gid("corp"))
        .build();
    let mut core = ResolverCore::new(policy);
    let mut up = Upstreams::new();
    up.register(&mut core, "corp", Ok(answer_tagged(1)));
    core.enable_route_hook();
    let mut hook = ScriptedHook::new(vec![Ok(RouteDecision::Abstain)]);
    let err = drive(&mut core, &mut up, Some(&mut hook), &query_for("example.com"), 0, &mut Vec::new())
        .unwrap_err();
    assert_eq!(err, Error::NoRoute);
    assert_eq!(hook.seen[0].1, None);
}

#[test]
fn cache_is_scoped_by_the_effective_group() {
    let (mut core, mut up) = hooked_core();
    let mut hook = ScriptedHook::new(vec![
        Ok(RouteDecision::Use(gid("corp"))),
        Ok(RouteDecision::Use(gid("public"))),
        Ok(RouteDecision::Use(gid("corp"))),
        Ok(RouteDecision::Abstain),
    ]);
    let query = query_for("host.corp.internal");
    for _ in 0..4 {
        drive(&mut core, &mut up, Some(&mut hook), &query, 1_000, &mut Vec::new()).unwrap();
    }
    // `corp` answered once and served its own cache twice; `public` was
    // called once, its scope not sharing `corp`'s entry.
    assert_eq!(up.calls, vec![vec![1], vec![1]]);
}

#[test]
fn events_trace_a_cache_miss_then_a_cache_hit() {
    let (mut core, mut up) = single_group(default_policy("g"), "g", Ok(a_answer("example.com", 300)));
    let query = query_for("example.com");
    let mut events = Vec::new();
    drive(&mut core, &mut up, None, &query, 0, &mut events).unwrap();
    let received = ObserveEvent::QueryReceived {
        correlation_id: CORRELATION_ID,
        name: Some(n("example.com")),
        rtype: Some(RecordType::A),
        class: Some(Class::In),
    };
    let static_route = ObserveEvent::StaticRoute { correlation_id: CORRELATION_ID, group: Some(gid("g")) };
    let completed = ObserveEvent::Completed { correlation_id: CORRELATION_ID, rcode: Rcode::NoError };
    assert_eq!(
        events,
        vec![
            received.clone(),
            static_route.clone(),
            ObserveEvent::CacheMiss { correlation_id: CORRELATION_ID, group: gid("g") },
            ObserveEvent::UpstreamAttempt { correlation_id: CORRELATION_ID, group: gid("g"), backend_index: 0 },
            ObserveEvent::UpstreamOutcome {
                correlation_id: CORRELATION_ID,
                group: gid("g"),
                backend_index: 0,
                outcome: UpstreamObserveOutcome::Success,
            },
            completed.clone(),
        ]
    );
    let mut events = Vec::new();
    drive(&mut core, &mut up, None, &query, 10, &mut events).unwrap();
    assert_eq!(
        events,
        vec![
            received,
            static_route,
            ObserveEvent::CacheHit { correlation_id: CORRELATION_ID, group: gid("g") },
            completed,
        ]
    );
}

#[test]
fn events_trace_failover_and_the_last_failure() {
    let mut core = ResolverCore::new(default_policy("g"));
    let mut up = Upstreams::new();
    up.register(&mut core, "g", Err(Error::Timeout));
    up.register(&mut core, "g", Err(Error::Tls("bad certificate".to_string())));
    let mut events = Vec::new();
    let err = drive(&mut core, &mut up, None, &query_for("example.com"), 0, &mut events).unwrap_err();
    assert_eq!(err, Error::Tls("bad certificate".to_string()));
    assert_eq!(
        events[3..],
        [
            ObserveEvent::UpstreamAttempt { correlation_id: CORRELATION_ID, group: gid("g"), backend_index: 0 },
            ObserveEvent::UpstreamOutcome {
                correlation_id: CORRELATION_ID,
                group: gid("g"),
                backend_index: 0,
                outcome: UpstreamObserveOutcome::RetryableFailure,
            },
            ObserveEvent::UpstreamAttempt { correlation_id: CORRELATION_ID, group: gid("g"), backend_index: 1 },
            ObserveEvent::UpstreamOutcome {
                correlation_id: CORRELATION_ID,
                group: gid("g"),
                backend_index: 1,
                outcome: UpstreamObserveOutcome::Failure,
            },
            ObserveEvent::Failed { correlation_id: CORRELATION_ID, failure: ObserveFailure::Tls },
        ]
    );
}

#[test]
fn events_for_an_unroutable_query_carry_no_identity() {
    let mut core = ResolverCore::new(default_policy("g"));
    let mut up = Upstreams::new();
    let mut query = query_for("example.com");
    query.questions.clear();
    let mut events = Vec::new();
    drive(&mut core, &mut up, None, &query, 0, &mut events).unwrap_err();
    assert_eq!(
        events,
        vec![
            ObserveEvent::QueryReceived { correlation_id: CORRELATION_ID, name: None, rtype: None, class: None },
            ObserveEvent::Failed { correlation_id: CORRELATION_ID, failure: ObserveFailure::NoRoute },
        ]
    );
}

#[test]
fn events_for_a_fake_ip_answer_skip_routing() {
    let (mut core, mut up) = single_group(default_policy("g"), "g", Ok(a_answer("example.test", 300)));
    core.set_fake_ip(fake_ip_pool(), fake_ip_policy("example.test"));
    core.enable_route_hook();
    let mut hook = ScriptedHook::new(Vec::new());
    let mut events = Vec::new();
    drive(&mut core, &mut up, Some(&mut hook), &query_for("www.example.test"), 0, &mut events).unwrap();
    assert!(hook.seen.is_empty(), "a terminal Fake IP answer never asks the hook");
    assert_eq!(events.len(), 3);
    assert_eq!(events[1], ObserveEvent::FakeIpTerminal { correlation_id: CORRELATION_ID });
    assert_eq!(events[2], ObserveEvent::Completed { correlation_id: CORRELATION_ID, rcode: Rcode::NoError });
}

#[test]
fn reverse_names_of_every_shape_parse_to_their_address() {
    for address in [0u32, 1, 0x0A00_00FF, 0xC0A8_0164, 0x6440_0A09, u32::MAX] {
        assert_eq!(parse_reverse_name(&n(&reverse_v4(address))), Some(ReverseAddress::V4(address)));
    }
    for address in [0u128, 1, doc6(0xabcd), u128::MAX] {
        let nibbles = address
            .to_be_bytes()
            .iter()
            .rev()
            .flat_map(|byte| [format!("{:x}", byte & 0x0f), format!("{:x}", byte >> 4)])
            .collect::<Vec<_>>()
            .join(".");
        assert_eq!(
            parse_reverse_name(&n(&format!("{nibbles}.ip6.arpa"))),
            Some(ReverseAddress::V6(address))
        );
    }
    assert_eq!(parse_reverse_name(&n("4.3.2.01.in-addr.arpa")), None);
    assert_eq!(parse_reverse_name(&n("4.3.00.1.in-addr.arpa")), None);
}

#[test]
fn cached_answer_is_served_after_intervening_queries() {
    let mut core = ResolverCore::new(default_policy("g"));
    let mut up = Upstreams::new();
    up.register(&mut core, "g", Ok(a_answer("example.com", 300)));
    resolve(&mut core, &mut up, &query_for("example.com"), 0).unwrap();
    for (i, other) in ["a.test", "b.test", "c.test"].iter().enumerate() {
        resolve(&mut core, &mut up, &query_for(other), 1_000 * i as u64).unwrap();
    }
    let calls = up.total_calls();
    resolve(&mut core, &mut up, &query_for("Example.COM"), 299_999).unwrap();
    assert_eq!(up.total_calls(), calls, "still served from the cache");
    resolve(&mut core, &mut up, &query_for("example.com"), 300_000).unwrap();
    assert_eq!(up.total_calls(), calls + 1, "expired entry is queried again");
}

#[test]
fn failed_resolution_does_not_touch_the_cache() {
    let mut core = ResolverCore::new(default_policy("g"));
    let mut up = Upstreams::new();
    up.register(&mut core, "g", Err(Error::Timeout));
    assert_eq!(resolve(&mut core, &mut up, &query_for("example.com"), 0), Err(Error::Timeout));
    assert_eq!(resolve(&mut core, &mut up, &query_for("example.com"), 0), Err(Error::Timeout));
    assert_eq!(up.total_calls(), 2, "the error was not served from the cache");
}

#[test]
fn the_live_fake_ip_pool_can_be_taken_and_given_back() {
    let mut core = ResolverCore::new(SplitDnsPolicy::builder().build());
    let mut up = Upstreams::new();
    assert!(core.take_fake_ip().is_none());
    core.set_fake_ip(fake_ip_pool(), fake_ip_policy("example.test"));
    let answer = resolve(&mut core, &mut up, &query_for_type("www.example.test", RecordType::A, Class::In, 1), 0).unwrap();
    let (mut pool, policy) = core.take_fake_ip().unwrap();
    let address = match answer.answers[0].rdata {
        RData::A(octets) => u32::from_be_bytes(octets),
        _ => panic!("expected an A record"),
    };
    assert_eq!(pool.lookup_ipv4(address, 1), Some(n("www.example.test")));
    // Without Fake IP the name is routed, and there is no route.
    assert_eq!(
        resolve(&mut core, &mut up, &query_for_type("www.example.test", RecordType::A, Class::In, 2), 2),
        Err(Error::NoRoute)
    );
    core.set_fake_ip(pool, policy);
    let again = resolve(&mut core, &mut up, &query_for_type("www.example.test", RecordType::A, Class::In, 3), 3).unwrap();
    assert_eq!(again.answers[0].rdata, answer.answers[0].rdata);
}

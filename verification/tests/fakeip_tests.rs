use std::collections::HashSet;

use dns_lattice::fakeip::{fnv1a, IPV4_HASH_SALT};
use dns_lattice::{DomainPattern, Error, FakeIpPolicy, FakeIpPool, Name};

fn name(value: &str) -> Name {
    Name::from_ascii(value).unwrap()
}

fn v4(a: u8, b: u8, c: u8, d: u8) -> u32 {
    u32::from_be_bytes([a, b, c, d])
}

/// `fd00::x`.
fn fd00(x: u16) -> u128 {
    (0xfd00u128 << 112) | u128::from(x)
}

#[test]
fn validates_configuration_and_disabled_families() {
    assert!(matches!(
        FakeIpPool::builder().build(),
        Err(Error::FakeIpPoolUnconfigured)
    ));
    assert!(matches!(
        FakeIpPool::builder()
            .ipv4_range(v4(10, 0, 0, 2), v4(10, 0, 0, 1))
            .build(),
        Err(Error::InvalidFakeIpRange)
    ));

    let mut pool = FakeIpPool::builder()
        .ipv4_range(v4(10, 0, 0, 1), v4(10, 0, 0, 2))
        .build()
        .unwrap();
    assert_eq!(
        pool.allocate_ipv6(name("example.test"), 0).unwrap_err(),
        Error::FakeIpFamilyDisabled
    );
    assert_eq!(pool.lookup_ipv6(1, 0), None);
}

#[test]
fn allocation_is_case_insensitive_reusable_and_reversible() {
    let mut pool = FakeIpPool::builder()
        .ipv4_range(v4(198, 18, 0, 1), v4(198, 18, 0, 16))
        .ipv6_range(fd00(0x1), fd00(0x10))
        .build()
        .unwrap();
    let ipv4 = pool.allocate_ipv4(name("Example.Test."), 0).unwrap();
    let ipv6 = pool.allocate_ipv6(name("Example.Test."), 0).unwrap();

    assert_eq!(pool.allocate_ipv4(name("example.test"), 0).unwrap(), ipv4);
    assert_eq!(pool.allocate_ipv6(name("EXAMPLE.TEST"), 0).unwrap(), ipv6);
    assert_eq!(pool.lookup_ipv4(ipv4, 0), Some(name("Example.Test")));
    assert_eq!(pool.lookup_ipv6(ipv6, 0), Some(name("Example.Test")));
    assert_eq!(pool.lookup_ipv4(v4(192, 0, 2, 1), 0), None);
}

#[test]
fn allocation_is_deterministic_for_the_same_pool_state() {
    let make_pool = || {
        FakeIpPool::builder()
            .ipv4_range(v4(100, 64, 0, 1), v4(100, 64, 0, 16))
            .build()
            .unwrap()
    };
    let mut first = make_pool();
    let mut second = make_pool();
    for domain in ["one.test", "two.test", "three.test"] {
        assert_eq!(
            first.allocate_ipv4(name(domain), 0).unwrap(),
            second.allocate_ipv4(name(domain), 0).unwrap()
        );
    }
}

#[test]
fn known_hash_collision_uses_circular_probe_with_inclusive_bounds() {
    let start = v4(198, 18, 0, 10);
    let end = v4(198, 18, 0, 12);
    let mut pool = FakeIpPool::builder().ipv4_range(start, end).build().unwrap();

    assert_eq!(fnv1a(&name("alpha.test"), IPV4_HASH_SALT) % 3, 2);
    assert_eq!(fnv1a(&name("bravo.test"), IPV4_HASH_SALT) % 3, 2);
    assert_eq!(pool.allocate_ipv4(name("alpha.test"), 0).unwrap(), end);
    assert_eq!(pool.allocate_ipv4(name("bravo.test"), 0).unwrap(), start);
    assert_eq!(pool.lookup_ipv4(v4(198, 18, 0, 11), 0), None);

    let mut singleton = FakeIpPool::builder()
        .ipv6_range(fd00(0x42), fd00(0x42))
        .build()
        .unwrap();
    assert_eq!(
        singleton.allocate_ipv6(name("singleton.test"), 0).unwrap(),
        fd00(0x42)
    );
}

#[test]
fn concurrent_allocations_reuse_and_reverse_lookup_in_each_family() {
    let mut pool = FakeIpPool::builder()
        .ipv4_range(v4(100, 64, 0, 1), v4(100, 64, 0, 64))
        .ipv6_range(fd00(0x1), fd00(0x40))
        .build()
        .unwrap();
    let mut mappings = Vec::new();
    for index in 0..32 {
        let domain = format!("member-{index}.test");
        let upper = domain.to_ascii_uppercase();
        let ipv4 = pool.allocate_ipv4(name(&domain), 0).unwrap();
        let ipv6 = pool.allocate_ipv6(name(&domain), 0).unwrap();
        assert_eq!(pool.allocate_ipv4(name(&upper), 0).unwrap(), ipv4);
        assert_eq!(pool.allocate_ipv6(name(&upper), 0).unwrap(), ipv6);
        assert_eq!(pool.lookup_ipv4(ipv4, 0), Some(name(&domain)));
        assert_eq!(pool.lookup_ipv6(ipv6, 0), Some(name(&domain)));
        mappings.push((domain, ipv4, ipv6));
    }

    let ipv4_addresses: HashSet<_> = mappings.iter().map(|(_, ipv4, _)| *ipv4).collect();
    let ipv6_addresses: HashSet<_> = mappings.iter().map(|(_, _, ipv6)| *ipv6).collect();
    assert_eq!(ipv4_addresses.len(), mappings.len());
    assert_eq!(ipv6_addresses.len(), mappings.len());
    for (domain, ipv4, ipv6) in mappings {
        assert_eq!(pool.lookup_ipv4(ipv4, 0), Some(name(&domain)));
        assert_eq!(pool.lookup_ipv6(ipv6, 0), Some(name(&domain)));
    }
}

#[test]
fn full_family_evicts_the_least_recently_used_mapping() {
    let mut pool = FakeIpPool::builder()
        .ipv4_range(v4(203, 0, 113, 1), v4(203, 0, 113, 2))
        .build()
        .unwrap();
    let first = pool.allocate_ipv4(name("first.test"), 0).unwrap();
    let second = pool.allocate_ipv4(name("second.test"), 0).unwrap();
    assert_eq!(pool.lookup_ipv4(first, 0), Some(name("first.test")));

    let third = pool.allocate_ipv4(name("third.test"), 0).unwrap();
    assert!(third == first || third == second);
    assert_ne!(pool.lookup_ipv4(second, 0), Some(name("second.test")));
    assert_eq!(pool.lookup_ipv4(first, 0), Some(name("first.test")));
    assert_eq!(pool.lookup_ipv4(third, 0), Some(name("third.test")));
}

#[test]
fn mappings_expire_after_their_ttl() {
    let mut pool = FakeIpPool::builder()
        .ipv4_range(v4(198, 18, 0, 1), v4(198, 18, 0, 2))
        .ttl(30)
        .build()
        .unwrap();
    let (address, lifetime) = pool
        .allocate_ipv4_with_ttl(name("www.example.test"), 1_000)
        .unwrap();
    assert_eq!(lifetime, Some(30_000));
    assert_eq!(
        pool.lookup_ipv4_with_ttl(address, 30_000),
        Some((name("www.example.test"), Some(1_000)))
    );
    let (again, remaining) = pool
        .allocate_ipv4_with_ttl(name("WWW.example.test"), 30_500)
        .unwrap();
    assert_eq!(again, address);
    assert_eq!(remaining, Some(500));
    assert_eq!(pool.lookup_ipv4(address, 31_000), None);
    let (_, fresh) = pool
        .allocate_ipv4_with_ttl(name("www.example.test"), 31_000)
        .unwrap();
    assert_eq!(fresh, Some(30_000));
}

#[test]
fn mappings_without_ttl_never_expire() {
    let mut pool = FakeIpPool::builder()
        .ipv4_range(v4(198, 18, 0, 1), v4(198, 18, 0, 2))
        .build()
        .unwrap();
    let (address, lifetime) = pool.allocate_ipv4_with_ttl(name("a.test"), 0).unwrap();
    assert_eq!(lifetime, None);
    assert_eq!(pool.lookup_ipv4(address, u64::MAX), Some(name("a.test")));
    assert_eq!(pool.ttl_secs(), None);
}

#[test]
fn each_family_is_independent_and_range_checks_are_inclusive() {
    let mut pool = FakeIpPool::builder()
        .ipv4_range(v4(10, 0, 0, 1), v4(10, 0, 0, 1))
        .ipv6_range(fd00(0x1), fd00(0x1))
        .build()
        .unwrap();
    assert!(pool.ipv4_enabled() && pool.ipv6_enabled());
    assert!(pool.contains_ipv4(v4(10, 0, 0, 1)));
    assert!(!pool.contains_ipv4(v4(10, 0, 0, 2)));
    assert!(pool.contains_ipv6(fd00(0x1)));
    let a4 = pool.allocate_ipv4(name("one.test"), 0).unwrap();
    let a6 = pool.allocate_ipv6(name("one.test"), 0).unwrap();
    // The single IPv4 address is taken over by the next name.
    let b4 = pool.allocate_ipv4(name("two.test"), 0).unwrap();
    assert_eq!(a4, b4);
    assert_eq!(pool.lookup_ipv4(a4, 0), Some(name("two.test")));
    assert_eq!(pool.lookup_ipv6(a6, 0), Some(name("one.test")));
}

#[test]
fn whole_ipv6_space_allocates_the_hash_itself() {
    let mut pool = FakeIpPool::builder().ipv6_range(0, u128::MAX).build().unwrap();
    let n = name("anything.test");
    let expected = u128::from(fnv1a(&n, dns_lattice::fakeip::IPV6_HASH_SALT));
    assert_eq!(pool.allocate_ipv6(n, 0).unwrap(), expected);
}

#[test]
fn fnv1a_folds_case_and_separates_labels() {
    let a = fnv1a(&name("Ab.c"), 0);
    let b = fnv1a(&name("aB.C"), 0);
    let c = fnv1a(&name("abc"), 0);
    assert_eq!(a, b);
    assert_ne!(a, c);
    // The empty name hashes to the salted offset basis.
    assert_eq!(fnv1a(&Name::root(), 0), 0xcbf2_9ce4_8422_2325);
    // One label "a": bytes 'a' then the zero terminator.
    let mut h: u64 = 0xcbf2_9ce4_8422_2325;
    for byte in [b'a', 0u8] {
        h ^= u64::from(byte);
        h = h.wrapping_mul(0x0000_0100_0000_01B3);
    }
    assert_eq!(fnv1a(&name("A"), 0), h);
}

#[test]
fn fake_ip_policy_selects_matching_names() {
    let policy = FakeIpPolicy::builder()
        .rule(DomainPattern::suffix(name("example.test")))
        .build();
    assert!(policy.matches(&name("www.EXAMPLE.test")));
    assert!(!policy.matches(&name("example.org")));
    let none = FakeIpPolicy::builder().build();
    assert!(!none.matches(&name("example.test")));
}

#[test]
fn live_mappings_survive_intervening_calls() {
    let mut pool = FakeIpPool::builder()
        .ipv4_range(v4(198, 18, 0, 1), v4(198, 18, 0, 16))
        .ipv6_range(fd00(0x1), fd00(0x10))
        .ttl(60)
        .build()
        .unwrap();
    let a = pool.allocate_ipv4(name("Example.Test."), 0).unwrap();
    for (i, other) in ["one.test", "two.test", "three.test"].iter().enumerate() {
        pool.allocate_ipv4(name(other), 1_000 * i as u64).unwrap();
        pool.allocate_ipv6(name(other), 1_000 * i as u64).unwrap();
        pool.lookup_ipv4(v4(192, 0, 2, 1), 1_000 * i as u64);
    }
    assert_eq!(pool.lookup_ipv4(a, 10_000), Some(name("example.test")));
    assert_eq!(pool.allocate_ipv4(name("EXAMPLE.TEST"), 20_000).unwrap(), a);
    // Expired, not evicted: a lookup no longer finds it.
    assert_eq!(pool.lookup_ipv4(a, 60_000), None);
}

#[test]
fn built_pools_are_well_formed_and_stay_so() {
    let mut pool = FakeIpPool::builder()
        .ipv4_range(v4(198, 18, 0, 1), v4(198, 18, 0, 2))
        .build()
        .unwrap();
    assert!(pool.is_well_formed());
    for domain in ["a.test", "b.test", "c.test", "A.TEST"] {
        pool.allocate_ipv4(name(domain), 0).unwrap();
        assert!(pool.is_well_formed());
    }
}

#[test]
fn the_most_recently_used_mapping_survives_eviction() {
    let mut pool = FakeIpPool::builder()
        .ipv4_range(v4(198, 18, 0, 1), v4(198, 18, 0, 2))
        .build()
        .unwrap();
    let a = pool.allocate_ipv4(name("a.test"), 0).unwrap();
    let b = pool.allocate_ipv4(name("b.test"), 0).unwrap();
    // Touch `a`: it becomes newer than `b`, so `b` is evicted next.
    assert_eq!(pool.lookup_ipv4(a, 0), Some(name("a.test")));
    let c = pool.allocate_ipv4(name("c.test"), 0).unwrap();
    assert_eq!(c, b);
    assert_eq!(pool.lookup_ipv4(a, 0), Some(name("a.test")));
    assert_eq!(pool.lookup_ipv4(b, 0), Some(name("c.test")));
}

use dns_lattice::{DomainMatcher, DomainPattern, Error, Name};

fn n(s: &str) -> Name {
    Name::from_ascii(s).unwrap()
}

#[test]
fn exact_beats_suffix_beats_wildcard() {
    let mut m = DomainMatcher::new();
    m.insert(DomainPattern::wildcard(n("example.com")), "wildcard");
    m.insert(DomainPattern::suffix(n("example.com")), "suffix");
    m.insert(DomainPattern::exact(n("foo.example.com")), "exact");
    assert_eq!(m.resolve(&n("foo.example.com")), Some(&"exact"));
}

#[test]
fn suffix_beats_wildcard_without_exact() {
    let mut m = DomainMatcher::new();
    m.insert(DomainPattern::wildcard(n("example.com")), "wildcard");
    m.insert(DomainPattern::suffix(n("example.com")), "suffix");
    assert_eq!(m.resolve(&n("foo.example.com")), Some(&"suffix"));
}

#[test]
fn suffix_matches_its_own_apex() {
    let mut m = DomainMatcher::new();
    m.insert(DomainPattern::suffix(n("example.com")), "suffix");
    assert_eq!(m.resolve(&n("example.com")), Some(&"suffix"));
}

#[test]
fn wildcard_does_not_match_its_own_apex() {
    let mut m = DomainMatcher::new();
    m.insert(DomainPattern::wildcard(n("example.com")), "wildcard");
    assert_eq!(m.resolve(&n("example.com")), None);
}

#[test]
fn wildcard_matches_strict_subdomain() {
    let mut m = DomainMatcher::new();
    m.insert(DomainPattern::wildcard(n("example.com")), "wildcard");
    assert_eq!(m.resolve(&n("foo.example.com")), Some(&"wildcard"));
}

#[test]
fn longer_suffix_wins_over_shorter() {
    let mut m = DomainMatcher::new();
    m.insert(DomainPattern::suffix(n("example.com")), "short");
    m.insert(DomainPattern::suffix(n("foo.example.com")), "long");
    assert_eq!(m.resolve(&n("bar.foo.example.com")), Some(&"long"));
}

#[test]
fn tie_is_broken_by_insertion_order() {
    let mut first_wins = DomainMatcher::new();
    first_wins.insert(DomainPattern::suffix(n("example.com")), "a");
    first_wins.insert(DomainPattern::suffix(n("example.com")), "b");
    assert_eq!(first_wins.resolve(&n("example.com")), Some(&"a"));

    let mut order_flipped = DomainMatcher::new();
    order_flipped.insert(DomainPattern::suffix(n("example.com")), "b");
    order_flipped.insert(DomainPattern::suffix(n("example.com")), "a");
    assert_eq!(order_flipped.resolve(&n("example.com")), Some(&"b"));
}

#[test]
fn no_match_returns_none() {
    let mut m: DomainMatcher<&str> = DomainMatcher::new();
    m.insert(DomainPattern::suffix(n("example.com")), "suffix");
    assert_eq!(m.resolve(&n("example.org")), None);
}

#[test]
fn root_suffix_is_a_catch_all() {
    let mut m = DomainMatcher::new();
    m.insert(DomainPattern::suffix(Name::root()), "default");
    m.insert(DomainPattern::suffix(n("example.com")), "specific");
    assert_eq!(m.resolve(&n("anything.at.all")), Some(&"default"));
    assert_eq!(m.resolve(&n("foo.example.com")), Some(&"specific"));
}

#[test]
fn parse_rejects_wildcard_not_in_leftmost_position() {
    assert_eq!(
        DomainPattern::parse("foo.*.example.com").unwrap_err(),
        Error::WildcardPosition
    );
    assert_eq!(
        DomainPattern::parse("*.*.example.com").unwrap_err(),
        Error::WildcardPosition
    );
}

#[test]
fn parse_produces_wildcard_and_suffix() {
    assert_eq!(
        DomainPattern::parse("*.example.com").unwrap(),
        DomainPattern::wildcard(n("example.com"))
    );
    assert_eq!(
        DomainPattern::parse("example.com").unwrap(),
        DomainPattern::suffix(n("example.com"))
    );
}

#[test]
fn matching_is_case_insensitive() {
    let mut m = DomainMatcher::new();
    m.insert(DomainPattern::suffix(n("EXAMPLE.com")), "suffix");
    assert_eq!(m.resolve(&n("foo.example.COM")), Some(&"suffix"));
}

#[test]
fn resolve_all_orders_by_precedence() {
    let mut m = DomainMatcher::new();
    m.insert(DomainPattern::wildcard(n("example.com")), "wildcard");
    m.insert(DomainPattern::suffix(n("example.com")), "suffix");
    m.insert(DomainPattern::exact(n("foo.example.com")), "exact");
    assert_eq!(
        m.resolve_all(&n("foo.example.com")),
        vec![&"exact", &"suffix", &"wildcard"]
    );
}

#[test]
fn resolve_all_lists_ties_in_insertion_order_after_more_specific_rules() {
    let mut m = DomainMatcher::new();
    m.insert(DomainPattern::suffix(n("com")), "short");
    m.insert(DomainPattern::suffix(n("example.com")), "first");
    m.insert(DomainPattern::suffix(n("EXAMPLE.com")), "second");
    m.insert(DomainPattern::suffix(n("example.org")), "other");
    assert_eq!(
        m.resolve_all(&n("www.example.com")),
        vec![&"first", &"second", &"short"]
    );
    assert_eq!(m.resolve(&n("www.example.com")), Some(&"first"));
    assert!(m.resolve_all(&n("example.net")).is_empty());
}

#[test]
fn pattern_matches_and_specificity_follow_the_rule_kind() {
    let exact = DomainPattern::exact(n("a.example.com"));
    let suffix = DomainPattern::suffix(n("example.com"));
    let wildcard = DomainPattern::wildcard(n("example.com"));
    assert!(exact.matches(&n("A.example.com")));
    assert!(!exact.matches(&n("b.a.example.com")));
    assert!(suffix.matches(&n("example.com")));
    assert!(!suffix.matches(&n("notexample.com")));
    assert!(!wildcard.matches(&n("example.com")));
    assert_eq!(exact.specificity(), (2, 3));
    assert_eq!(suffix.specificity(), (1, 2));
    assert_eq!(wildcard.specificity(), (0, 2));
}

#[test]
fn parse_reports_invalid_names() {
    assert_eq!(DomainPattern::parse("a..b").unwrap_err(), Error::InvalidName);
    assert_eq!(DomainPattern::parse("*.a..b").unwrap_err(), Error::InvalidName);
    assert_eq!(DomainPattern::parse("*.").unwrap(), DomainPattern::wildcard(Name::root()));
}

#[test]
fn inserted_rule_lands_after_equally_specific_rules_and_before_weaker_ones() {
    let mut m = DomainMatcher::new();
    m.insert(DomainPattern::suffix(n("example.com")), "suffix-2");
    m.insert(DomainPattern::wildcard(n("example.com")), "wildcard");
    m.insert(DomainPattern::exact(n("a.b.example.com")), "exact");
    let before = m.resolve_all(&n("a.b.example.com"));
    assert_eq!(before, vec![&"exact", &"suffix-2", &"wildcard"]);

    // A rule that does not match leaves the order as it was.
    m.insert(DomainPattern::suffix(n("other.com")), "non-matching");
    assert_eq!(m.resolve_all(&n("a.b.example.com")), vec![&"exact", &"suffix-2", &"wildcard"]);
    // Equally specific as `suffix-2`: placed after it, before the wildcard.
    m.insert(DomainPattern::suffix(n("example.com")), "suffix-2-again");
    assert_eq!(
        m.resolve_all(&n("a.b.example.com")),
        vec![&"exact", &"suffix-2", &"suffix-2-again", &"wildcard"]
    );
    // More specific than every suffix rule: placed right after the exact rule.
    m.insert(DomainPattern::suffix(n("b.example.com")), "suffix-3");
    assert_eq!(
        m.resolve_all(&n("a.b.example.com")),
        vec![&"exact", &"suffix-3", &"suffix-2", &"suffix-2-again", &"wildcard"]
    );
}

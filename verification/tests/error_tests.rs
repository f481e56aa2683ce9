use dns_lattice::Error;

#[test]
fn every_variant_has_a_stable_non_empty_display_message() {
    let cases = [
        (
            Error::Truncated { len: 3 },
            "message truncated: 3 bytes available",
        ),
        (
            Error::BadNamePointer { offset: 12 },
            "invalid name compression pointer at offset 12",
        ),
        (
            Error::LabelTooLong { offset: 5 },
            "label exceeds 63 bytes at offset 5",
        ),
        (Error::NameTooLong, "name exceeds 255 bytes"),
        (Error::InvalidName, "invalid domain name"),
        (
            Error::CountMismatch,
            "header section count does not match parsed records",
        ),
        (
            Error::RDataLengthMismatch { declared: 200 },
            "rdlength 200 does not match available rdata bytes",
        ),
        (Error::InvalidClass(9999), "invalid class value 9999"),
        (
            Error::MessageTooLong,
            "encoded message would exceed 65535 bytes",
        ),
        (
            Error::WildcardPosition,
            "wildcard label may only appear as the leftmost label",
        ),
        (
            Error::NoRoute,
            "no split-dns rule matched and no default upstream group is configured",
        ),
        (Error::Timeout, "upstream backend timed out"),
        (
            Error::Transport("connection refused".to_string()),
            "upstream transport error: connection refused",
        ),
        (
            Error::Tls("certificate expired".to_string()),
            "upstream tls error: certificate expired",
        ),
    ];
    for (error, expected) in cases {
        assert_eq!(error.to_string(), expected);
    }
}

#[test]
fn error_implements_std_error() {
    // The library's error type offers its message through `to_string`.
    assert_eq!(Error::NameTooLong.to_string(), "name exceeds 255 bytes");
}

#[test]
fn numbers_in_messages_are_plain_decimal() {
    assert_eq!(
        Error::Truncated { len: 0 }.to_string(),
        "message truncated: 0 bytes available"
    );
    assert_eq!(
        Error::BadNamePointer { offset: 65535 }.to_string(),
        "invalid name compression pointer at offset 65535"
    );
    assert_eq!(Error::InvalidClass(10).to_string(), "invalid class value 10");
}

#[test]
fn resolver_and_fake_ip_errors_have_messages() {
    for e in [
        Error::Hook("policy service unavailable".to_string()),
        Error::FakeIpPoolUnconfigured,
        Error::InvalidFakeIpRange,
        Error::FakeIpFamilyDisabled,
        Error::FakeIpTtlOutOfRange,
    ] {
        assert!(!e.to_string().is_empty());
    }
    assert_eq!(
        Error::Hook("down".to_string()).to_string(),
        "route hook error: down"
    );
}

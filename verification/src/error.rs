use vstd::prelude::*;
use vstd::string::StringExecFns;

verus! {

/// The single error type surfaced across the library.
///
/// DNS message, domain-pattern, Fake IP, and resolver operations all return
/// `Result<T, Error>`.
#[derive(Debug, Clone, PartialEq, Eq)]
pub enum Error {
    /// The message buffer ended before a length-prefixed field or a
    /// declared record/section could be fully read.
    Truncated {
        /// The number of bytes actually available.
        len: usize,
    },
    /// A DNS name compression pointer is out of bounds, or pointers form a
    /// loop.
    BadNamePointer {
        /// The byte offset of the offending pointer.
        offset: usize,
    },
    /// A label's length exceeds its maximum (63 bytes for a name label,
    /// 255 bytes for a TXT character-string).
    LabelTooLong {
        /// The byte offset of the offending label.
        offset: usize,
    },
    /// An encoded or decoded name exceeds the 255-byte maximum.
    NameTooLong,
    /// A name label was empty (two consecutive dots) or contained bytes not
    /// permitted in that position.
    InvalidName,
    /// The header's declared section count does not match the records
    /// actually present.
    CountMismatch,
    /// A resource record's declared `RDLENGTH` does not match the bytes
    /// actually consumed for its `RDATA`.
    RDataLengthMismatch {
        /// The declared `RDLENGTH` value.
        declared: u16,
    },
    /// A question or resource record's class value is reserved.
    InvalidClass(u16),
    /// Encoding a message would exceed the 65535-byte maximum.
    MessageTooLong,
    /// A domain pattern's wildcard label (`*`) appeared somewhere other
    /// than the leftmost position.
    WildcardPosition,
    /// No split-DNS rule matched and no default upstream group is
    /// configured (or the selected group has no backend).
    NoRoute,
    /// An upstream backend did not answer within its timeout.
    Timeout,
    /// An upstream transport operation failed.
    Transport(String),
    /// A TLS handshake or certificate validation failed.
    Tls(String),
    /// A route hook reported a routing failure.
    Hook(String),
    /// A Fake IP pool was built with no address family configured.
    FakeIpPoolUnconfigured,
    /// A Fake IP range's start address is greater than its end address.
    InvalidFakeIpRange,
    /// The requested Fake IP address family is not configured.
    FakeIpFamilyDisabled,
    /// A Fake IP mapping lifetime cannot be expressed as a 32-bit DNS TTL.
    FakeIpTtlOutOfRange,
}

/// A result returned by this library's operations.
pub type Result<T> = core::result::Result<T, Error>;

/// The ASCII decimal digit for `d` (`0` to `9`).
pub open spec fn digit_char(d: nat) -> char {
    (48 + d) as char
}

/// The decimal representation of `n`, without leading zeros.
pub open spec fn decimal_chars(n: nat) -> Seq<char>
    decreases n,
{
    if n < 10 {
        seq![digit_char(n)]
    } else {
        decimal_chars(n / 10).push(digit_char(n % 10))
    }
}

/// The one-character string for decimal digit `d`.
fn digit_str(d: u64) -> (r: &'static str)
    requires
        d < 10,
    ensures
        r@ == seq![digit_char(d as nat)],
{
    proof {
        reveal_strlit("0");
        reveal_strlit("1");
        reveal_strlit("2");
        reveal_strlit("3");
        reveal_strlit("4");
        reveal_strlit("5");
        reveal_strlit("6");
        reveal_strlit("7");
        reveal_strlit("8");
        reveal_strlit("9");
    }
    let r = if d == 0 {
        "0"
    } else if d == 1 {
        "1"
    } else if d == 2 {
        "2"
    } else if d == 3 {
        "3"
    } else if d == 4 {
        "4"
    } else if d == 5 {
        "5"
    } else if d == 6 {
        "6"
    } else if d == 7 {
        "7"
    } else if d == 8 {
        "8"
    } else {
        "9"
    };
    assert(r@ =~= seq![digit_char(d as nat)]);
    r
}

/// Appends the decimal representation of `n` to `s`.
pub fn push_decimal(s: &mut String, n: u64)
    ensures
        final(s)@ == old(s)@ + decimal_chars(n as nat),
    decreases n,
{
    if n >= 10 {
        push_decimal(s, n / 10);
    }
    s.append(digit_str(n % 10));
    proof {
        if n >= 10 {
            assert(decimal_chars(n as nat) == decimal_chars((n / 10) as nat).push(digit_char((n % 10) as nat)));
            assert(s@ =~= old(s)@ + decimal_chars(n as nat));
        } else {
            assert(s@ =~= old(s)@ + decimal_chars(n as nat));
        }
    }
}

/// The message describing `e`.
pub open spec fn spec_error_message(e: Error) -> Seq<char> {
    match e {
        Error::Truncated { len } => "message truncated: "@ + decimal_chars(len as nat)
            + " bytes available"@,
        Error::BadNamePointer { offset } => "invalid name compression pointer at offset "@
            + decimal_chars(offset as nat),
        Error::LabelTooLong { offset } => "label exceeds 63 bytes at offset "@ + decimal_chars(
            offset as nat,
        ),
        Error::NameTooLong => "name exceeds 255 bytes"@,
        Error::InvalidName => "invalid domain name"@,
        Error::CountMismatch => "header section count does not match parsed records"@,
        Error::RDataLengthMismatch { declared } => "rdlength "@ + decimal_chars(declared as nat)
            + " does not match available rdata bytes"@,
        Error::InvalidClass(class) => "invalid class value "@ + decimal_chars(class as nat),
        Error::MessageTooLong => "encoded message would exceed 65535 bytes"@,
        Error::WildcardPosition => "wildcard label may only appear as the leftmost label"@,
        Error::NoRoute => "no split-dns rule matched and no default upstream group is configured"@,
        Error::Timeout => "upstream backend timed out"@,
        Error::Transport(m) => "upstream transport error: "@ + m@,
        Error::Tls(m) => "upstream tls error: "@ + m@,
        Error::Hook(m) => "route hook error: "@ + m@,
        Error::FakeIpPoolUnconfigured => "fake ip pool has no address family configured"@,
        Error::InvalidFakeIpRange => "fake ip range start is greater than its end"@,
        Error::FakeIpFamilyDisabled => "fake ip address family is not configured"@,
        Error::FakeIpTtlOutOfRange => "fake ip mapping lifetime does not fit a 32-bit dns ttl"@,
    }
}

impl Error {
    /// The human-readable message describing this error.
    pub fn to_string(&self) -> (r: String)
        ensures
            r@ == spec_error_message(*self),
    {
        let mut s = String::new();
        match self {
            Error::Truncated { len } => {
                s.append("message truncated: ");
                push_decimal(&mut s, *len as u64);
                s.append(" bytes available");
            },
            Error::BadNamePointer { offset } => {
                s.append("invalid name compression pointer at offset ");
                push_decimal(&mut s, *offset as u64);
            },
            Error::LabelTooLong { offset } => {
                s.append("label exceeds 63 bytes at offset ");
                push_decimal(&mut s, *offset as u64);
            },
            Error::NameTooLong => s.append("name exceeds 255 bytes"),
            Error::InvalidName => s.append("invalid domain name"),
            Error::CountMismatch => s.append("header section count does not match parsed records"),
            Error::RDataLengthMismatch { declared } => {
                s.append("rdlength ");
                push_decimal(&mut s, *declared as u64);
                s.append(" does not match available rdata bytes");
            },
            Error::InvalidClass(class) => {
                s.append("invalid class value ");
                push_decimal(&mut s, *class as u64);
            },
            Error::MessageTooLong => s.append("encoded message would exceed 65535 bytes"),
            Error::WildcardPosition => s.append("wildcard label may only appear as the leftmost label"),
            Error::NoRoute => s.append(
                "no split-dns rule matched and no default upstream group is configured",
            ),
            Error::Timeout => s.append("upstream backend timed out"),
            Error::Transport(m) => {
                s.append("upstream transport error: ");
                s.append(m.as_str());
            },
            Error::Tls(m) => {
                s.append("upstream tls error: ");
                s.append(m.as_str());
            },
            Error::Hook(m) => {
                s.append("route hook error: ");
                s.append(m.as_str());
            },
            Error::FakeIpPoolUnconfigured => s.append("fake ip pool has no address family configured"),
            Error::InvalidFakeIpRange => s.append("fake ip range start is greater than its end"),
            Error::FakeIpFamilyDisabled => s.append("fake ip address family is not configured"),
            Error::FakeIpTtlOutOfRange => s.append(
                "fake ip mapping lifetime does not fit a 32-bit dns ttl",
            ),
        }
        proof {
            assert(s@ =~= spec_error_message(*self));
        }
        s
    }
}

} // verus!

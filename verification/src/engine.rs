//! The resolver's answer policy on decoded DNS messages: which upstream
//! failures allow failover, how long an answer may be cached (including
//! negative answers), local answers for reverse lookups of Fake IP
//! addresses, and Fake IP answers for address questions.

use vstd::prelude::*;

use crate::error::Error;
use crate::fakeip::{
    FakeIpPolicy,
    FakeIpPool,
    IPV4_HASH_SALT,
    IPV6_HASH_SALT,
    allocate_post,
    lookup_post,
    lookup_view,
};
use crate::matcher::any_match;
use crate::message::{
    Header,
    Message,
    MessageV,
    Rcode,
    RecordV,
    ResourceRecord,
    clone_questions,
    records_view,
};
use crate::name::{Name, label_eq_ci, label_eq_ignore_case};
use crate::record::{Class, RData, RDataV, RecordType};

verus! {

/// Fixed negative-cache TTL floor in seconds (RFC 2308 §5), used when a
/// negative response carries no SOA record in its authority section.
pub const NEGATIVE_CACHE_FLOOR_SECS: u32 = 60;

/// Whether an upstream failure lets resolution move on to the next backend
/// of the group: timeouts, transport failures, and TLS failures.
pub open spec fn spec_is_retryable(e: Error) -> bool {
    e is Timeout || e is Transport || e is Tls
}

/// Returns whether `err` should make the failover loop try the next backend
/// in the group rather than propagate immediately.
pub fn is_retryable(err: &Error) -> (r: bool)
    ensures
        r == spec_is_retryable(*err),
{
    match err {
        Error::Timeout => true,
        Error::Transport(_) => true,
        Error::Tls(_) => true,
        _ => false,
    }
}

/// A negative answer: NXDOMAIN, or NOERROR with an empty answer section.
pub open spec fn is_negative(m: MessageV) -> bool {
    m.header.rcode == Rcode::NxDomain || (m.header.rcode == Rcode::NoError && m.answers.len()
        == 0)
}

/// The `minimum` field of the first SOA record in `rs`, if any.
pub open spec fn first_soa_minimum(rs: Seq<RecordV>) -> Option<u32>
    decreases rs.len(),
{
    if rs.len() == 0 {
        None
    } else {
        match rs[0].rdata {
            RDataV::Soa { minimum, .. } => Some(minimum),
            _ => first_soa_minimum(rs.drop_first()),
        }
    }
}

/// The smallest TTL among records `rs` (0 for no records).
pub open spec fn min_ttl(rs: Seq<RecordV>) -> u32
    decreases rs.len(),
{
    if rs.len() == 0 {
        0
    } else if rs.len() == 1 {
        rs[0].ttl
    } else {
        let rest = min_ttl(rs.drop_first());
        if rs[0].ttl <= rest {
            rs[0].ttl
        } else {
            rest
        }
    }
}

/// How many seconds an answer may be cached, or `None` if it must not be.
///
/// Negative answers use the first SOA `minimum` in the authority section,
/// else the fixed floor. Other answers with records use their smallest TTL;
/// any other answer (an error response with no records) is not cached.
pub open spec fn spec_cacheable_ttl(m: MessageV) -> Option<u32> {
    if is_negative(m) {
        match first_soa_minimum(m.authorities) {
            Some(minimum) => Some(minimum),
            None => Some(NEGATIVE_CACHE_FLOOR_SECS),
        }
    } else if m.answers.len() == 0 {
        None
    } else {
        Some(min_ttl(m.answers))
    }
}

/// Determines how many seconds `answer` should be cached for, or `None`
/// if it should not be cached at all.
pub fn cacheable_ttl(answer: &Message) -> (r: Option<u32>)
    ensures
        r == spec_cacheable_ttl(answer@),
{
    proof {
        crate::message::lemma_records_view(answer.answers@);
        crate::message::lemma_records_view(answer.authorities@);
    }
    let negative = match answer.header.rcode {
        Rcode::NxDomain => true,
        Rcode::NoError => answer.answers.len() == 0,
        _ => false,
    };
    if negative {
        let ghost auth = answer@.authorities;
        let mut i: usize = answer.authorities.len();
        let mut found: Option<u32> = None;
        while i > 0
            invariant
                auth == answer@.authorities,
                auth.len() == answer.authorities@.len(),
                forall|j: int|
                    0 <= j < auth.len() ==> #[trigger] auth[j] == answer.authorities@[j]@,
                0 <= i <= auth.len(),
                found == first_soa_minimum(auth.subrange(i as int, auth.len() as int)),
            decreases i,
        {
            i = i - 1;
            proof {
                let s = auth.subrange(i as int, auth.len() as int);
                assert(s.drop_first() =~= auth.subrange(i + 1, auth.len() as int));
                assert(s[0] == auth[i as int]);
            }
            match &answer.authorities[i].rdata {
                RData::Soa { minimum, .. } => {
                    found = Some(*minimum);
                },
                _ => {},
            }
        }
        proof {
            assert(auth.subrange(0, auth.len() as int) =~= auth);
        }
        return match found {
            Some(m) => Some(m),
            None => Some(NEGATIVE_CACHE_FLOOR_SECS),
        };
    }
    if answer.answers.len() == 0 {
        return None;
    }
    let ghost ans = answer@.answers;
    let n = answer.answers.len();
    let mut i: usize = n - 1;
    let mut best: u32 = answer.answers[i].ttl;
    proof {
        let s = ans.subrange(i as int, ans.len() as int);
        assert(s.len() == 1 && s[0] == ans[i as int]);
    }
    while i > 0
        invariant
            ans == answer@.answers,
            ans.len() == n,
            n == answer.answers@.len(),
            forall|j: int| 0 <= j < ans.len() ==> #[trigger] ans[j] == answer.answers@[j]@,
            0 <= i < n,
            best == min_ttl(ans.subrange(i as int, n as int)),
        decreases i,
    {
        i = i - 1;
        proof {
            let s = ans.subrange(i as int, n as int);
            assert(s.drop_first() =~= ans.subrange(i + 1, n as int));
            assert(s[0] == ans[i as int]);
        }
        let t = answer.answers[i].ttl;
        if t <= best {
            best = t;
        }
    }
    proof {
        assert(ans.subrange(0, n as int) =~= ans);
    }
    Some(best)
}

/// The local response to `q` with response code `rcode`: the query's header
/// marked as a response, its questions, and empty record sections.
pub open spec fn spec_local_response(q: MessageV, rcode: Rcode) -> MessageV {
    MessageV {
        header: Header {
            id: q.header.id,
            qr: true,
            opcode: q.header.opcode,
            authoritative: q.header.authoritative,
            truncated: q.header.truncated,
            recursion_desired: q.header.recursion_desired,
            recursion_available: q.header.recursion_available,
            rcode,
        },
        questions: q.questions,
        answers: Seq::empty(),
        authorities: Seq::empty(),
        additionals: Seq::empty(),
    }
}

/// Builds the local response to `query` with response code `rcode`.
pub fn local_response(query: &Message, rcode: Rcode) -> (r: Message)
    ensures
        r@ == spec_local_response(query@, rcode),
{
    let mut header = query.header;
    header.qr = true;
    header.rcode = rcode;
    let r = Message {
        header,
        questions: clone_questions(&query.questions),
        answers: Vec::new(),
        authorities: Vec::new(),
        additionals: Vec::new(),
    };
    assert(records_view(r.answers@) =~= Seq::<RecordV>::empty());
    assert(records_view(r.authorities@) =~= Seq::<RecordV>::empty());
    assert(records_view(r.additionals@) =~= Seq::<RecordV>::empty());
    r
}

/// The DNS TTL of a Fake IP answer whose mapping has `lifetime_ms` left:
/// its whole seconds, which must fit 32 bits. A mapping that never expires
/// has no such TTL.
pub open spec fn spec_dns_ttl(lifetime_ms: Option<u64>) -> Result<u32, Error> {
    match lifetime_ms {
        Some(ms) => if ms / 1000 <= u32::MAX {
            Ok((ms / 1000) as u32)
        } else {
            Err(Error::FakeIpTtlOutOfRange)
        },
        None => Err(Error::FakeIpTtlOutOfRange),
    }
}

/// Whether a pool's configured mapping lifetime (whole seconds) can be
/// advertised as a 32-bit DNS TTL.
pub open spec fn ttl_representable(ttl_secs: Option<u64>) -> bool {
    match ttl_secs {
        Some(s) => s <= u32::MAX,
        None => false,
    }
}

/// Converts a Fake IP mapping's remaining lifetime to a DNS TTL.
pub fn fake_ip_ttl(lifetime_ms: Option<u64>) -> (r: Result<u32, Error>)
    ensures
        r == spec_dns_ttl(lifetime_ms),
{
    match lifetime_ms {
        Some(ms) => {
            let secs = ms / 1000;
            if secs <= u32::MAX as u64 {
                Ok(secs as u32)
            } else {
                Err(Error::FakeIpTtlOutOfRange)
            }
        },
        None => Err(Error::FakeIpTtlOutOfRange),
    }
}

/// An address named by a reverse-lookup owner name.
#[derive(Debug, Clone, Copy, PartialEq, Eq, Structural)]
pub enum ReverseAddress {
    /// An IPv4 address, as its big-endian `u32`.
    V4(u32),
    /// An IPv6 address, as its big-endian `u128`.
    V6(u128),
}

/// The label `in-addr`.
pub open spec fn in_addr_label() -> Seq<u8> {
    seq![105u8, 110u8, 45u8, 97u8, 100u8, 100u8, 114u8]
}

/// The label `arpa`.
pub open spec fn arpa_label() -> Seq<u8> {
    seq![97u8, 114u8, 112u8, 97u8]
}

/// The label `ip6`.
pub open spec fn ip6_label() -> Seq<u8> {
    seq![105u8, 112u8, 54u8]
}

/// An ASCII decimal digit.
pub open spec fn is_digit(b: u8) -> bool {
    48 <= b <= 57
}

/// The value of a string of decimal digits.
pub open spec fn decimal_value(l: Seq<u8>) -> int
    decreases l.len(),
{
    if l.len() == 0 {
        0
    } else {
        decimal_value(l.drop_last()) * 10 + (l.last() - 48)
    }
}

/// A label that is the canonical decimal form of an octet: one to three
/// digits, no leading zero unless the label is `0`, at most 255.
pub open spec fn canonical_octet(l: Seq<u8>) -> bool {
    &&& 1 <= l.len() <= 3
    &&& forall|i: int| 0 <= i < l.len() ==> #[trigger] is_digit(l[i])
    &&& (l.len() == 1 || l[0] != 48)
    &&& decimal_value(l) <= 255
}

/// The value of an ASCII hexadecimal digit, if `b` is one.
pub open spec fn hex_value(b: u8) -> Option<int> {
    if 48 <= b <= 57 {
        Some(b - 48)
    } else if 97 <= b <= 102 {
        Some(b - 87)
    } else if 65 <= b <= 70 {
        Some(b - 55)
    } else {
        None
    }
}

/// Labels `i..4` read as the little-end-first octets of an IPv4 address.
pub open spec fn octets_value(ls: Seq<Seq<u8>>, i: int) -> int
    decreases 4 - i,
{
    if i >= 4 {
        0
    } else {
        decimal_value(ls[i]) + 256 * octets_value(ls, i + 1)
    }
}

/// Labels `i..32` read as the little-end-first nibbles of an IPv6 address.
pub open spec fn nibbles_value(ls: Seq<Seq<u8>>, i: int) -> int
    decreases 32 - i,
{
    if i >= 32 {
        0
    } else {
        hex_value(ls[i][0])->0 + 16 * nibbles_value(ls, i + 1)
    }
}

/// The address a canonical reverse-lookup owner name denotes: four
/// canonical decimal octet labels (least significant first) followed by
/// `in-addr.arpa`, or 32 single hexadecimal digit labels (least significant
/// nibble first) followed by `ip6.arpa`, the suffix labels matched ignoring
/// ASCII case. Any other name denotes none.
pub open spec fn spec_parse_reverse(n: Seq<Seq<u8>>) -> Option<ReverseAddress> {
    if n.len() == 6 && label_eq_ci(n[4], in_addr_label()) && label_eq_ci(n[5], arpa_label()) {
        if forall|i: int| 0 <= i < 4 ==> #[trigger] canonical_octet(n[i]) {
            Some(ReverseAddress::V4(octets_value(n, 0) as u32))
        } else {
            None
        }
    } else if n.len() == 34 && label_eq_ci(n[32], ip6_label()) && label_eq_ci(
        n[33],
        arpa_label(),
    ) {
        if forall|i: int| 0 <= i < 32 ==> #[trigger] n[i].len() == 1 && hex_value(n[i][0]) is Some {
            Some(ReverseAddress::V6(nibbles_value(n, 0) as u128))
        } else {
            None
        }
    } else {
        None
    }
}

/// `256` to the power `k`.
pub open spec fn pow256(k: nat) -> int
    decreases k,
{
    if k == 0 {
        1
    } else {
        256 * pow256((k - 1) as nat)
    }
}

/// `16` to the power `k`.
pub open spec fn pow16(k: nat) -> int
    decreases k,
{
    if k == 0 {
        1
    } else {
        16 * pow16((k - 1) as nat)
    }
}

/// The value of `l` when it is a canonical decimal octet label.
fn parse_octet(l: &[u8]) -> (r: Option<u32>)
    ensures
        r is Some <==> canonical_octet(l@),
        r matches Some(v) ==> v == decimal_value(l@),
{
    if l.len() == 0 || l.len() > 3 {
        return None;
    }
    let mut v: u32 = 0;
    let mut i: usize = 0;
    while i < l.len()
        invariant
            1 <= l@.len() <= 3,
            0 <= i <= l@.len(),
            forall|j: int| 0 <= j < i ==> #[trigger] is_digit(l@[j]),
            v == decimal_value(l@.take(i as int)),
            i == 0 ==> v == 0,
            i == 1 ==> v <= 9,
            i == 2 ==> v <= 99,
            i == 3 ==> v <= 999,
        decreases l@.len() - i,
    {
        let b = l[i];
        if b < 48 || b > 57 {
            assert(!is_digit(l@[i as int]));
            return None;
        }
        proof {
            assert(l@.take(i + 1).drop_last() =~= l@.take(i as int));
        }
        v = v * 10 + (b - 48) as u32;
        i = i + 1;
    }
    proof {
        assert(l@.take(l@.len() as int) =~= l@);
    }
    if l.len() > 1 && l[0] == 48 {
        return None;
    }
    if v > 255 {
        return None;
    }
    Some(v)
}

/// The value of `b` when it is an ASCII hexadecimal digit.
fn parse_hex(b: u8) -> (r: Option<u8>)
    ensures
        r is None <==> hex_value(b) is None,
        r matches Some(v) ==> hex_value(b) == Some(v as int) && v < 16,
{
    if 48 <= b && b <= 57 {
        Some(b - 48)
    } else if 97 <= b && b <= 102 {
        Some(b - 87)
    } else if 65 <= b && b <= 70 {
        Some(b - 55)
    } else {
        None
    }
}

/// The bytes of the label `in-addr`.
fn in_addr_bytes() -> (r: Vec<u8>)
    ensures
        r@ == in_addr_label(),
{
    let r = vec![105u8, 110u8, 45u8, 97u8, 100u8, 100u8, 114u8];
    assert(r@ =~= in_addr_label());
    r
}

/// The bytes of the label `arpa`.
fn arpa_bytes() -> (r: Vec<u8>)
    ensures
        r@ == arpa_label(),
{
    let r = vec![97u8, 114u8, 112u8, 97u8];
    assert(r@ =~= arpa_label());
    r
}

/// The bytes of the label `ip6`.
fn ip6_bytes() -> (r: Vec<u8>)
    ensures
        r@ == ip6_label(),
{
    let r = vec![105u8, 112u8, 54u8];
    assert(r@ =~= ip6_label());
    r
}

/// Parses a canonical `in-addr.arpa` or `ip6.arpa` owner name.
///
/// Non-canonical reverse names are intentionally not recognized, so only a
/// pool range for which the resolver is authoritative receives local DNS
/// semantics.
pub fn parse_reverse_name(name: &Name) -> (r: Option<ReverseAddress>)
    ensures
        r == spec_parse_reverse(name@),
{
    let labels = name.labels();
    let ghost ls = name@;
    proof {
        assert(ls.len() == labels@.len());
        assert(forall|j: int| 0 <= j < ls.len() ==> #[trigger] ls[j] == labels@[j]@);
    }
    let n = labels.len();
    let arpa = arpa_bytes();
    if n == 6 && label_eq_ignore_case(labels[4].as_slice(), in_addr_bytes().as_slice())
        && label_eq_ignore_case(labels[5].as_slice(), arpa.as_slice()) {
        let mut acc: u64 = 0;
        let mut i: usize = 4;
        while i > 0
            invariant
                ls == name@,
                ls.len() == 6,
                ls.len() == labels@.len(),
                forall|j: int| 0 <= j < ls.len() ==> #[trigger] ls[j] == labels@[j]@,
                0 <= i <= 4,
                forall|j: int| i <= j < 4 ==> #[trigger] canonical_octet(ls[j]),
                acc == octets_value(ls, i as int),
                acc < pow256((4 - i) as nat),
            decreases i,
        {
            i = i - 1;
            match parse_octet(labels[i].as_slice()) {
                Some(v) => {
                    proof {
                        assert(pow256((4 - i) as nat) == 256 * pow256((4 - i - 1) as nat));
                        assert(pow256((4 - i) as nat) <= pow256(4)) by {
                            reveal_with_fuel(pow256, 5);
                        }
                        assert(pow256(4) == 0x1_0000_0000) by {
                            reveal_with_fuel(pow256, 5);
                        }
                    }
                    acc = v as u64 + 256 * acc;
                },
                None => {
                    assert(!canonical_octet(ls[i as int]));
                    return None;
                },
            }
        }
        proof {
            assert(pow256(4) == 0x1_0000_0000) by {
                reveal_with_fuel(pow256, 5);
            }
        }
        return Some(ReverseAddress::V4(acc as u32));
    }
    if n == 34 && label_eq_ignore_case(labels[32].as_slice(), ip6_bytes().as_slice())
        && label_eq_ignore_case(labels[33].as_slice(), arpa.as_slice()) {
        let mut acc: u128 = 0;
        let mut i: usize = 32;
        while i > 0
            invariant
                ls == name@,
                ls.len() == 34,
                ls.len() == labels@.len(),
                forall|j: int| 0 <= j < ls.len() ==> #[trigger] ls[j] == labels@[j]@,
                0 <= i <= 32,
                forall|j: int|
                    i <= j < 32 ==> #[trigger] ls[j].len() == 1 && hex_value(ls[j][0]) is Some,
                acc == nibbles_value(ls, i as int),
                acc < pow16((32 - i) as nat),
            decreases i,
        {
            i = i - 1;
            let label = &labels[i];
            if label.len() != 1 {
                assert(!(ls[i as int].len() == 1 && hex_value(ls[i as int][0]) is Some));
                return None;
            }
            match parse_hex(label[0]) {
                Some(h) => {
                    proof {
                        assert(pow16((32 - i) as nat) == 16 * pow16((32 - i - 1) as nat));
                        assert(pow16((32 - i) as nat) <= pow16(32)) by {
                            reveal_with_fuel(pow16, 33);
                        }
                        assert(pow16(32) == u128::MAX as int + 1) by {
                            reveal_with_fuel(pow16, 33);
                        }
                    }
                    acc = h as u128 + 16 * acc;
                },
                None => {
                    assert(!(ls[i as int].len() == 1 && hex_value(ls[i as int][0]) is Some));
                    return None;
                },
            }
        }
        return Some(ReverseAddress::V6(acc));
    }
    None
}

/// The big-endian octets of an IPv4 address.
pub open spec fn ipv4_octets(a: u32) -> Seq<u8> {
    seq![(a >> 24u32) as u8, (a >> 16u32) as u8, (a >> 8u32) as u8, a as u8]
}

/// The big-endian octets of an IPv6 address.
pub open spec fn ipv6_octets(a: u128) -> Seq<u8> {
    seq![
        (a >> 120u32) as u8,
        (a >> 112u32) as u8,
        (a >> 104u32) as u8,
        (a >> 96u32) as u8,
        (a >> 88u32) as u8,
        (a >> 80u32) as u8,
        (a >> 72u32) as u8,
        (a >> 64u32) as u8,
        (a >> 56u32) as u8,
        (a >> 48u32) as u8,
        (a >> 40u32) as u8,
        (a >> 32u32) as u8,
        (a >> 24u32) as u8,
        (a >> 16u32) as u8,
        (a >> 8u32) as u8,
        a as u8,
    ]
}

/// An IPv4 address's big-endian octets.
pub fn ipv4_to_octets(a: u32) -> (r: [u8; 4])
    ensures
        r@ == ipv4_octets(a),
{
    let r = [(a >> 24u32) as u8, (a >> 16u32) as u8, (a >> 8u32) as u8, a as u8];
    assert(r@ =~= ipv4_octets(a));
    r
}

/// An IPv6 address's big-endian octets.
pub fn ipv6_to_octets(a: u128) -> (r: [u8; 16])
    ensures
        r@ == ipv6_octets(a),
{
    let r = [
        (a >> 120u32) as u8,
        (a >> 112u32) as u8,
        (a >> 104u32) as u8,
        (a >> 96u32) as u8,
        (a >> 88u32) as u8,
        (a >> 80u32) as u8,
        (a >> 72u32) as u8,
        (a >> 64u32) as u8,
        (a >> 56u32) as u8,
        (a >> 48u32) as u8,
        (a >> 40u32) as u8,
        (a >> 32u32) as u8,
        (a >> 24u32) as u8,
        (a >> 16u32) as u8,
        (a >> 8u32) as u8,
        a as u8,
    ];
    assert(r@ =~= ipv6_octets(a));
    r
}

/// `m` with record `r` appended to its answer section.
pub open spec fn with_answer(m: MessageV, r: RecordV) -> MessageV {
    MessageV {
        header: m.header,
        questions: m.questions,
        answers: m.answers.push(r),
        authorities: m.authorities,
        additionals: m.additionals,
    }
}

/// An IN A record.
pub open spec fn a_record(name: Seq<Seq<u8>>, ttl: u32, a: u32) -> RecordV {
    RecordV { name, rtype: RecordType::A, class: Class::In, ttl, rdata: RDataV::A(ipv4_octets(a)) }
}

/// An IN AAAA record.
pub open spec fn aaaa_record(name: Seq<Seq<u8>>, ttl: u32, a: u128) -> RecordV {
    RecordV {
        name,
        rtype: RecordType::Aaaa,
        class: Class::In,
        ttl,
        rdata: RDataV::Aaaa(ipv6_octets(a)),
    }
}

/// An IN PTR record.
pub open spec fn ptr_record(name: Seq<Seq<u8>>, ttl: u32, target: Seq<Seq<u8>>) -> RecordV {
    RecordV { name, rtype: RecordType::Ptr, class: Class::In, ttl, rdata: RDataV::Ptr(target) }
}

/// A local answer result.
pub open spec fn local_answer(m: MessageV) -> Result<Option<MessageV>, Error> {
    Ok(Some(m))
}

/// The result that leaves a query to the ordinary pipeline.
pub open spec fn not_local() -> Result<Option<MessageV>, Error> {
    Ok(None)
}

/// The pool's families and lifetime are unchanged.
pub open spec fn pool_unchanged(p0: FakeIpPool, p1: FakeIpPool) -> bool {
    p1.ipv4() == p0.ipv4() && p1.ipv6() == p0.ipv6() && p1.ttl() == p0.ttl()
}

/// The view of a local-answer result.
pub open spec fn answer_view(r: Result<Option<Message>, Error>) -> Result<Option<MessageV>, Error> {
    match r {
        Ok(Some(m)) => Ok(Some(m@)),
        Ok(None) => Ok(None),
        Err(e) => Err(e),
    }
}

/// The answer to address question `q` after the name got address record
/// `rec` with remaining lifetime `l`.
pub open spec fn synthesized(q: MessageV, l: Option<u64>, rec: spec_fn(u32) -> RecordV) -> Result<
    Option<MessageV>,
    Error,
> {
    match spec_dns_ttl(l) {
        Ok(t) => Ok(Some(with_answer(spec_local_response(q, Rcode::NoError), rec(t)))),
        Err(e) => Err(e),
    }
}

/// The answer to PTR question `q` given what the pool's lookup found.
pub open spec fn ptr_answered(q: MessageV, res: Option<(Seq<Seq<u8>>, Option<u64>)>) -> Result<
    Option<MessageV>,
    Error,
> {
    match res {
        None => Ok(Some(spec_local_response(q, Rcode::NxDomain))),
        Some((n, l)) => match spec_dns_ttl(l) {
            Ok(t) => Ok(
                Some(
                    with_answer(
                        spec_local_response(q, Rcode::NoError),
                        ptr_record(q.questions[0].name, t, n),
                    ),
                ),
            ),
            Err(e) => Err(e),
        },
    }
}

/// What Fake IP synthesis does with query `q` at `now`: pool `p0` becomes
/// `p1` and the result is `r` (`Ok(None)`: not handled locally).
///
/// Only IN questions are handled. A or AAAA questions for names the policy
/// selects get a local answer: NODATA when the family is disabled, an error
/// when the pool's lifetime cannot be a DNS TTL, else the name's allocated
/// address with a TTL of the mapping's remaining whole seconds. Canonical
/// reverse (PTR) questions for addresses inside a configured range get the
/// live mapping's name, or NXDOMAIN.
pub open spec fn fake_ip_post(
    p0: FakeIpPool,
    p1: FakeIpPool,
    policy: FakeIpPolicy,
    q: MessageV,
    now: u64,
    r: Result<Option<MessageV>, Error>,
) -> bool {
    if q.questions.len() == 0 || q.questions[0].qclass != Class::In {
        r == not_local() && pool_unchanged(p0, p1)
    } else {
        let qu = q.questions[0];
        if qu.qtype == RecordType::A && any_match(policy.patterns(), qu.name) {
            if p0.ipv4() is None {
                r == local_answer(spec_local_response(q, Rcode::NoError)) && pool_unchanged(p0, p1)
            } else if !ttl_representable(p0.ttl()) {
                r == Err::<Option<MessageV>, Error>(Error::FakeIpTtlOutOfRange) && pool_unchanged(
                    p0,
                    p1,
                )
            } else {
                &&& p1.ipv6() == p0.ipv6()
                &&& p1.ttl() == p0.ttl()
                &&& p1.ipv4() is Some
                &&& exists|a: u32, l: Option<u64>|
                    {
                        &&& #[trigger] allocate_post(
                            p0.ipv4()->0,
                            p1.ipv4()->0,
                            qu.name,
                            IPV4_HASH_SALT,
                            now,
                            p0.ttl(),
                            a as int,
                            l,
                        )
                        &&& r == synthesized(q, l, |t: u32| a_record(qu.name, t, a))
                    }
            }
        } else if qu.qtype == RecordType::Aaaa && any_match(policy.patterns(), qu.name) {
            if p0.ipv6() is None {
                r == local_answer(spec_local_response(q, Rcode::NoError)) && pool_unchanged(p0, p1)
            } else if !ttl_representable(p0.ttl()) {
                r == Err::<Option<MessageV>, Error>(Error::FakeIpTtlOutOfRange) && pool_unchanged(
                    p0,
                    p1,
                )
            } else {
                &&& p1.ipv4() == p0.ipv4()
                &&& p1.ttl() == p0.ttl()
                &&& p1.ipv6() is Some
                &&& exists|a: u128, l: Option<u64>|
                    {
                        &&& #[trigger] allocate_post(
                            p0.ipv6()->0,
                            p1.ipv6()->0,
                            qu.name,
                            IPV6_HASH_SALT,
                            now,
                            p0.ttl(),
                            a as int,
                            l,
                        )
                        &&& r == synthesized(q, l, |t: u32| aaaa_record(qu.name, t, a))
                    }
            }
        } else if qu.qtype == RecordType::Ptr {
            match spec_parse_reverse(qu.name) {
                Some(ReverseAddress::V4(a)) => if p0.ipv4() matches Some(f) && f.start <= a <= f.end {
                    &&& p1.ipv6() == p0.ipv6()
                    &&& p1.ttl() == p0.ttl()
                    &&& p1.ipv4() is Some
                    &&& exists|res: Option<(Seq<Seq<u8>>, Option<u64>)>|
                        #[trigger] lookup_post(p0.ipv4()->0, p1.ipv4()->0, a as int, now, res)
                            && r == ptr_answered(q, res)
                } else {
                    r == not_local() && pool_unchanged(p0, p1)
                },
                Some(ReverseAddress::V6(a)) => if p0.ipv6() matches Some(f) && f.start <= a <= f.end {
                    &&& p1.ipv4() == p0.ipv4()
                    &&& p1.ttl() == p0.ttl()
                    &&& p1.ipv6() is Some
                    &&& exists|res: Option<(Seq<Seq<u8>>, Option<u64>)>|
                        #[trigger] lookup_post(p0.ipv6()->0, p1.ipv6()->0, a as int, now, res)
                            && r == ptr_answered(q, res)
                } else {
                    r == not_local() && pool_unchanged(p0, p1)
                },
                None => r == not_local() && pool_unchanged(p0, p1),
            }
        } else {
            r == not_local() && pool_unchanged(p0, p1)
        }
    }
}

/// `m` with record `rr` appended to its answer section.
fn push_answer(m: &mut Message, rr: ResourceRecord)
    ensures
        final(m)@ == with_answer(old(m)@, rr@),
{
    let ghost before = m.answers@;
    m.answers.push(rr);
    proof {
        assert(records_view(m.answers@) =~= records_view(before).push(rr@));
    }
}

/// Returns a locally synthesized Fake IP response when `query` is handled
/// by the pool and policy, or `None` when the ordinary resolver pipeline
/// must handle it.
///
/// A synthesized response bypasses the resolver cache and every upstream
/// backend: its lifetime is the pool mapping's lifetime and the pool is the
/// authority for its reverse range.
pub fn fake_ip_answer(
    pool: &mut FakeIpPool,
    policy: &FakeIpPolicy,
    query: &Message,
    now_ms: u64,
) -> (r: Result<Option<Message>, Error>)
    requires
        old(pool).wf(),
    ensures
        final(pool).wf(),
        fake_ip_post(*old(pool), *final(pool), *policy, query@, now_ms, answer_view(r)),
{
    proof {
        crate::message::lemma_questions_view(query.questions@);
    }
    if query.questions.len() == 0 {
        return Ok(None);
    }
    let question = &query.questions[0];
    let ghost qv = query@.questions[0];
    if !(question.qclass == Class::In) {
        return Ok(None);
    }
    let ghost p0 = *pool;
    if question.qtype == RecordType::A && policy.matches(&question.name) {
        if !pool.ipv4_enabled() {
            return Ok(Some(local_response(query, Rcode::NoError)));
        }
        match fake_ip_ttl_secs(pool.ttl_secs()) {
            Ok(_) => {},
            Err(e) => return Err(e),
        }
        let mut answer = local_response(query, Rcode::NoError);
        match pool.allocate_ipv4_with_ttl(question.name.clone(), now_ms) {
            Ok((address, lifetime)) => {
                proof {
                    assert(allocate_post(
                        p0.ipv4()->0,
                        pool.ipv4()->0,
                        qv.name,
                        IPV4_HASH_SALT,
                        now_ms,
                        p0.ttl(),
                        address as int,
                        lifetime,
                    ));
                }
                let ttl = match fake_ip_ttl(lifetime) {
                    Ok(t) => t,
                    Err(e) => return Err(e),
                };
                let rr = ResourceRecord {
                    name: question.name.clone(),
                    rtype: RecordType::A,
                    class: Class::In,
                    ttl,
                    rdata: RData::A(ipv4_to_octets(address)),
                };
                push_answer(&mut answer, rr);
                proof {
                    assert(answer@ == with_answer(
                        spec_local_response(query@, Rcode::NoError),
                        (|t: u32| a_record(qv.name, t, address))(ttl),
                    ));
                }
            },
            Err(e) => return Err(e),
        }
        return Ok(Some(answer));
    }
    if question.qtype == RecordType::Aaaa && policy.matches(&question.name) {
        if !pool.ipv6_enabled() {
            return Ok(Some(local_response(query, Rcode::NoError)));
        }
        match fake_ip_ttl_secs(pool.ttl_secs()) {
            Ok(_) => {},
            Err(e) => return Err(e),
        }
        let mut answer = local_response(query, Rcode::NoError);
        match pool.allocate_ipv6_with_ttl(question.name.clone(), now_ms) {
            Ok((address, lifetime)) => {
                proof {
                    assert(allocate_post(
                        p0.ipv6()->0,
                        pool.ipv6()->0,
                        qv.name,
                        IPV6_HASH_SALT,
                        now_ms,
                        p0.ttl(),
                        address as int,
                        lifetime,
                    ));
                }
                let ttl = match fake_ip_ttl(lifetime) {
                    Ok(t) => t,
                    Err(e) => return Err(e),
                };
                let rr = ResourceRecord {
                    name: question.name.clone(),
                    rtype: RecordType::Aaaa,
                    class: Class::In,
                    ttl,
                    rdata: RData::Aaaa(ipv6_to_octets(address)),
                };
                push_answer(&mut answer, rr);
                proof {
                    assert(answer@ == with_answer(
                        spec_local_response(query@, Rcode::NoError),
                        (|t: u32| aaaa_record(qv.name, t, address))(ttl),
                    ));
                }
            },
            Err(e) => return Err(e),
        }
        return Ok(Some(answer));
    }
    if question.qtype == RecordType::Ptr {
        return fake_ip_ptr_answer(pool, query, now_ms);
    }
    Ok(None)
}

/// Checks that a pool's configured mapping lifetime can be a DNS TTL.
fn fake_ip_ttl_secs(ttl_secs: Option<u64>) -> (r: Result<u32, Error>)
    ensures
        r is Ok <==> ttl_representable(ttl_secs),
        r matches Err(e) ==> e == Error::FakeIpTtlOutOfRange,
{
    match ttl_secs {
        Some(s) => if s <= u32::MAX as u64 {
            Ok(s as u32)
        } else {
            Err(Error::FakeIpTtlOutOfRange)
        },
        None => Err(Error::FakeIpTtlOutOfRange),
    }
}

/// The local answer to a reverse (PTR) question inside a pool range.
fn fake_ip_ptr_answer(pool: &mut FakeIpPool, query: &Message, now_ms: u64) -> (r: Result<
    Option<Message>,
    Error,
>)
    requires
        old(pool).wf(),
        query@.questions.len() > 0,
    ensures
        final(pool).wf(),
        ({
            let qu = query@.questions[0];
            match spec_parse_reverse(qu.name) {
                Some(ReverseAddress::V4(a)) => if old(pool).ipv4() matches Some(f) && f.start <= a
                    <= f.end {
                    &&& final(pool).ipv6() == old(pool).ipv6()
                    &&& final(pool).ttl() == old(pool).ttl()
                    &&& final(pool).ipv4() is Some
                    &&& exists|res: Option<(Seq<Seq<u8>>, Option<u64>)>|
                        #[trigger] lookup_post(
                            old(pool).ipv4()->0,
                            final(pool).ipv4()->0,
                            a as int,
                            now_ms,
                            res,
                        ) && answer_view(r) == ptr_answered(query@, res)
                } else {
                    answer_view(r) == not_local() && pool_unchanged(*old(pool), *final(pool))
                },
                Some(ReverseAddress::V6(a)) => if old(pool).ipv6() matches Some(f) && f.start <= a
                    <= f.end {
                    &&& final(pool).ipv4() == old(pool).ipv4()
                    &&& final(pool).ttl() == old(pool).ttl()
                    &&& final(pool).ipv6() is Some
                    &&& exists|res: Option<(Seq<Seq<u8>>, Option<u64>)>|
                        #[trigger] lookup_post(
                            old(pool).ipv6()->0,
                            final(pool).ipv6()->0,
                            a as int,
                            now_ms,
                            res,
                        ) && answer_view(r) == ptr_answered(query@, res)
                } else {
                    answer_view(r) == not_local() && pool_unchanged(*old(pool), *final(pool))
                },
                None => answer_view(r) == not_local() && pool_unchanged(
                    *old(pool),
                    *final(pool),
                ),
            }
        }),
{
    proof {
        crate::message::lemma_questions_view(query.questions@);
    }
    let question = &query.questions[0];
    let ghost p0 = *pool;
    let mapping = match parse_reverse_name(&question.name) {
        Some(ReverseAddress::V4(a)) => {
            if pool.contains_ipv4(a) {
                pool.lookup_ipv4_with_ttl(a, now_ms)
            } else {
                return Ok(None);
            }
        },
        Some(ReverseAddress::V6(a)) => {
            if pool.contains_ipv6(a) {
                pool.lookup_ipv6_with_ttl(a, now_ms)
            } else {
                return Ok(None);
            }
        },
        None => return Ok(None),
    };
    let ghost res = lookup_view(mapping);
    match mapping {
        None => Ok(Some(local_response(query, Rcode::NxDomain))),
        Some((name, lifetime)) => {
            let ttl = match fake_ip_ttl(lifetime) {
                Ok(t) => t,
                Err(e) => return Err(e),
            };
            let mut answer = local_response(query, Rcode::NoError);
            let rr = ResourceRecord {
                name: question.name.clone(),
                rtype: RecordType::Ptr,
                class: Class::In,
                ttl,
                rdata: RData::Ptr(name),
            };
            push_answer(&mut answer, rr);
            Ok(Some(answer))
        },
    }
}

/// The canonical decimal label of an octet value `v`: its digits without
/// leading zeros.
pub open spec fn octet_label(v: int) -> Seq<u8> {
    if v < 10 {
        seq![(48 + v) as u8]
    } else if v < 100 {
        seq![(48 + v / 10) as u8, (48 + v % 10) as u8]
    } else {
        seq![(48 + v / 100) as u8, (48 + (v / 10) % 10) as u8, (48 + v % 10) as u8]
    }
}

/// The lowercase hexadecimal digit of a nibble value `v`.
pub open spec fn nibble_digit(v: int) -> u8 {
    if v < 10 {
        (48 + v) as u8
    } else {
        (87 + v) as u8
    }
}

/// The canonical IPv4 reverse-lookup name of address `a`: its octets as
/// decimal labels, least significant first, then `in-addr.arpa`.
pub open spec fn in_addr_name(a: u32) -> Seq<Seq<u8>> {
    Seq::new(4, |i: int| octet_label((a as int / pow256(i as nat)) % 256)) + seq![
        in_addr_label(),
        arpa_label(),
    ]
}

/// The canonical IPv6 reverse-lookup name of address `a`: its nibbles as
/// lowercase hexadecimal labels, least significant first, then `ip6.arpa`.
pub open spec fn ip6_name(a: u128) -> Seq<Seq<u8>> {
    Seq::new(32, |i: int| seq![nibble_digit((a as int / pow16(i as nat)) % 16)]) + seq![
        ip6_label(),
        arpa_label(),
    ]
}

/// An octet value's canonical label is canonical and denotes the value.
proof fn lemma_octet_label(v: int)
    requires
        0 <= v < 256,
    ensures
        canonical_octet(octet_label(v)),
        decimal_value(octet_label(v)) == v,
{
    let l = octet_label(v);
    if v < 10 {
        assert(l[0] == 48 + v);
        assert(l.drop_last() =~= Seq::<u8>::empty());
        assert(decimal_value(l) == decimal_value(l.drop_last()) * 10 + (l.last() - 48));
    } else if v < 100 {
        let d1 = v / 10;
        let d0 = v % 10;
        assert(0 <= d1 < 10 && 0 <= d0 < 10 && d1 * 10 + d0 == v);
        assert(l[0] == 48 + d1 && l[1] == 48 + d0);
        let l1 = l.drop_last();
        assert(l1 =~= seq![(48 + d1) as u8]);
        assert(l1.drop_last() =~= Seq::<u8>::empty());
        assert(decimal_value(l1) == decimal_value(l1.drop_last()) * 10 + (l1.last() - 48));
        assert(decimal_value(l) == decimal_value(l1) * 10 + (l.last() - 48));
    } else {
        let d2 = v / 100;
        let d1 = (v / 10) % 10;
        let d0 = v % 10;
        assert(1 <= d2 < 3 && 0 <= d1 < 10 && 0 <= d0 < 10 && (d2 * 10 + d1) * 10 + d0 == v);
        assert(l[0] == 48 + d2 && l[1] == 48 + d1 && l[2] == 48 + d0);
        let l1 = l.drop_last();
        let l2 = l1.drop_last();
        assert(l1 =~= seq![(48 + d2) as u8, (48 + d1) as u8]);
        assert(l2 =~= seq![(48 + d2) as u8]);
        assert(l2.drop_last() =~= Seq::<u8>::empty());
        assert(decimal_value(l2) == decimal_value(l2.drop_last()) * 10 + (l2.last() - 48));
        assert(decimal_value(l1) == decimal_value(l2) * 10 + (l1.last() - 48));
        assert(decimal_value(l) == decimal_value(l1) * 10 + (l.last() - 48));
    }
}

/// `a / 256^i / 256 == a / 256^(i+1)` and `256^i` is positive.
proof fn lemma_pow256_step(a: int, i: nat)
    requires
        a >= 0,
    ensures
        pow256(i) > 0,
        (a as int / pow256(i)) / 256 == a / pow256(i + 1),
    decreases i,
{
    if i > 0 {
        lemma_pow256_step(a, (i - 1) as nat);
    }
    assert(pow256(i + 1) == 256 * pow256(i));
    vstd::arithmetic::div_mod::lemma_div_denominator(a, pow256(i), 256);
    assert(pow256(i) * 256 == 256 * pow256(i)) by (nonlinear_arith);
}

/// `a / 16^i / 16 == a / 16^(i+1)` and `16^i` is positive.
proof fn lemma_pow16_step(a: int, i: nat)
    requires
        a >= 0,
    ensures
        pow16(i) > 0,
        (a as int / pow16(i)) / 16 == a / pow16(i + 1),
    decreases i,
{
    if i > 0 {
        lemma_pow16_step(a, (i - 1) as nat);
    }
    assert(pow16(i + 1) == 16 * pow16(i));
    vstd::arithmetic::div_mod::lemma_div_denominator(a, pow16(i), 16);
    assert(pow16(i) * 16 == 16 * pow16(i)) by (nonlinear_arith);
}

/// The octet labels of `in_addr_name(a)` from `i` on denote `a / 256^i`.
proof fn lemma_octets_value(a: u32, i: int)
    requires
        0 <= i <= 4,
    ensures
        octets_value(in_addr_name(a), i) == a as int / pow256(i as nat),
    decreases 4 - i,
{
    let n = in_addr_name(a);
    lemma_pow256_step(a as int, i as nat);
    if i == 4 {
        assert(pow256(4) == 0x1_0000_0000) by {
            reveal_with_fuel(pow256, 5);
        }
        vstd::arithmetic::div_mod::lemma_basic_div(a as int, 0x1_0000_0000);
    } else {
        lemma_octets_value(a, i + 1);
        let q = a as int / pow256(i as nat);
        assert(q >= 0);
        lemma_octet_label(q % 256);
        assert(n[i] == octet_label(q % 256));
        assert(q % 256 + 256 * (q / 256) == q) by (nonlinear_arith)
            requires
                q >= 0,
        ;
        assert(octets_value(n, i) == decimal_value(n[i]) + 256 * octets_value(n, i + 1));
    }
}

/// The nibble labels of `ip6_name(a)` from `i` on denote `a / 16^i`.
proof fn lemma_nibbles_value(a: u128, i: int)
    requires
        0 <= i <= 32,
    ensures
        nibbles_value(ip6_name(a), i) == a as int / pow16(i as nat),
    decreases 32 - i,
{
    let n = ip6_name(a);
    lemma_pow16_step(a as int, i as nat);
    if i == 32 {
        assert(pow16(32) == u128::MAX as int + 1) by {
            reveal_with_fuel(pow16, 33);
        }
        vstd::arithmetic::div_mod::lemma_basic_div(a as int, u128::MAX as int + 1);
    } else {
        lemma_nibbles_value(a, i + 1);
        let q = a as int / pow16(i as nat);
        assert(q >= 0);
        let v = q % 16;
        assert(n[i] == seq![nibble_digit(v)]);
        assert(hex_value(nibble_digit(v)) == Some(v));
        assert(v + 16 * (q / 16) == q) by (nonlinear_arith)
            requires
                q >= 0,
                v == q % 16,
        ;
        assert(nibbles_value(n, i) == hex_value(n[i][0])->0 + 16 * nibbles_value(n, i + 1));
    }
}

/// Every IPv4 address's canonical reverse-lookup name parses to that
/// address.
pub proof fn lemma_in_addr_name_parses(a: u32)
    ensures
        spec_parse_reverse(in_addr_name(a)) == Some(ReverseAddress::V4(a)),
{
    let n = in_addr_name(a);
    assert(n[4] == in_addr_label() && n[5] == arpa_label());
    assert forall|i: int| 0 <= i < 4 implies #[trigger] canonical_octet(n[i]) by {
        lemma_pow256_step(a as int, i as nat);
        lemma_octet_label((a as int / pow256(i as nat)) % 256);
    }
    lemma_octets_value(a, 0);
    assert(pow256(0) == 1);
}

/// Every IPv6 address's canonical reverse-lookup name parses to that
/// address.
pub proof fn lemma_ip6_name_parses(a: u128)
    ensures
        spec_parse_reverse(ip6_name(a)) == Some(ReverseAddress::V6(a)),
{
    let n = ip6_name(a);
    assert(n[32] == ip6_label() && n[33] == arpa_label());
    assert forall|i: int| 0 <= i < 32 implies #[trigger] n[i].len() == 1 && hex_value(n[i][0]) is Some by {
        lemma_pow16_step(a as int, i as nat);
        assert(n[i] == seq![nibble_digit((a as int / pow16(i as nat)) % 16)]);
    }
    lemma_nibbles_value(a, 0);
    assert(pow16(0) == 1);
}

/// A four-octet `in-addr.arpa` name with an octet label that has a
/// leading zero (such as `01`) parses to no address.
pub proof fn lemma_leading_zero_octet_is_refused(n: Seq<Seq<u8>>, i: int)
    requires
        n.len() == 6,
        label_eq_ci(n[4], in_addr_label()),
        label_eq_ci(n[5], arpa_label()),
        0 <= i < 4,
        n[i].len() > 1,
        n[i][0] == 48,
    ensures
        spec_parse_reverse(n) is None,
{
    assert(!canonical_octet(n[i]));
}

/// The number whose big-endian base-256 digits are `s`: its first octet
/// the most significant.
pub open spec fn be_value(s: Seq<u8>) -> int
    decreases s.len(),
{
    if s.len() == 0 {
        0
    } else {
        be_value(s.drop_last()) * 256 + s.last()
    }
}

/// Shifting right by `s - 8` keeps the bits of shifting by `s` and adds the
/// next octet below them.
proof fn lemma_shr_step128(a: u128, s: u32)
    requires
        8 <= s <= 120,
    ensures
        (a >> ((s - 8) as u32)) as int == (a >> s) as int * 256 + ((a >> ((s - 8) as u32)) as u8) as int,
{
    assert((a >> ((s - 8) as u32)) as int == (a >> s) as int * 256 + ((a >> ((s - 8) as u32)) as u8) as int)
        by (bit_vector)
        requires
            8 <= s <= 120,
    ;
}

/// Octet `k` of an IPv6 address's octets is the address shifted right by
/// `120 - 8k`, truncated to eight bits.
proof fn lemma_ipv6_octet_at(a: u128, k: int)
    requires
        0 <= k < 16,
    ensures
        ipv6_octets(a).len() == 16,
        ipv6_octets(a)[k] == (a >> ((120 - 8 * k) as u32)) as u8,
{
    let o = ipv6_octets(a);
        if k == 0 {
            assert(o[0] == (a >> 120u32) as u8);
        } else if k == 1 {
            assert(o[1] == (a >> 112u32) as u8);
        } else if k == 2 {
            assert(o[2] == (a >> 104u32) as u8);
        } else if k == 3 {
            assert(o[3] == (a >> 96u32) as u8);
        } else if k == 4 {
            assert(o[4] == (a >> 88u32) as u8);
        } else if k == 5 {
            assert(o[5] == (a >> 80u32) as u8);
        } else if k == 6 {
            assert(o[6] == (a >> 72u32) as u8);
        } else if k == 7 {
            assert(o[7] == (a >> 64u32) as u8);
        } else if k == 8 {
            assert(o[8] == (a >> 56u32) as u8);
        } else if k == 9 {
            assert(o[9] == (a >> 48u32) as u8);
        } else if k == 10 {
            assert(o[10] == (a >> 40u32) as u8);
        } else if k == 11 {
            assert(o[11] == (a >> 32u32) as u8);
        } else if k == 12 {
            assert(o[12] == (a >> 24u32) as u8);
        } else if k == 13 {
            assert(o[13] == (a >> 16u32) as u8);
        } else if k == 14 {
            assert(o[14] == (a >> 8u32) as u8);
        } else if k == 15 {
            assert((a >> 0u32) == a) by (bit_vector);
            assert(o[15] == (a >> 0u32) as u8);
        }
}

/// The first `k + 1` octets of an IPv6 address denote the address shifted
/// right by `120 - 8k`.
proof fn lemma_ipv6_prefix(a: u128, k: int)
    requires
        0 <= k < 16,
    ensures
        be_value(ipv6_octets(a).take(k + 1)) == (a >> ((120 - 8 * k) as u32)) as int,
    decreases k,
{
    let o = ipv6_octets(a);
    lemma_ipv6_octet_at(a, k);
    let p = o.take(k + 1);
    assert(p.last() == o[k]);
    assert(be_value(p) == be_value(p.drop_last()) * 256 + p.last());
    if k == 0 {
        assert(p.drop_last() =~= Seq::<u8>::empty());
        assert(be_value(Seq::<u8>::empty()) == 0);
        assert(((a >> 120u32) as u8) as int == (a >> 120u32) as int) by (bit_vector);
    } else {
        lemma_ipv6_prefix(a, k - 1);
        assert(p.drop_last() =~= o.take(k));
        lemma_shr_step128(a, (128 - 8 * k) as u32);
        assert((120 - 8 * (k - 1)) as u32 == (128 - 8 * k) as u32);
        assert(((128 - 8 * k) as u32 - 8) as u32 == (120 - 8 * k) as u32);
    }
}

/// An IPv6 address's octets are its big-endian encoding: read most
/// significant first, they give back the address.
pub proof fn lemma_ipv6_octets_big_endian(a: u128)
    ensures
        ipv6_octets(a).len() == 16,
        be_value(ipv6_octets(a)) == a as int,
{
    lemma_ipv6_octet_at(a, 0);
    lemma_ipv6_prefix(a, 15);
    assert(ipv6_octets(a).take(16) =~= ipv6_octets(a));
    assert((a >> 0u32) == a) by (bit_vector);
}

/// Shifting right by `s - 8` keeps the bits of shifting by `s` and adds the
/// next octet below them.
proof fn lemma_shr_step32(a: u32, s: u32)
    requires
        8 <= s <= 24,
    ensures
        (a >> ((s - 8) as u32)) as int == (a >> s) as int * 256 + ((a >> ((s - 8) as u32)) as u8) as int,
{
    assert((a >> ((s - 8) as u32)) as int == (a >> s) as int * 256 + ((a >> ((s - 8) as u32)) as u8) as int)
        by (bit_vector)
        requires
            8 <= s <= 24,
    ;
}

/// An IPv4 address's octets are its big-endian encoding: read most
/// significant first, they give back the address.
pub proof fn lemma_ipv4_octets_big_endian(a: u32)
    ensures
        ipv4_octets(a).len() == 4,
        be_value(ipv4_octets(a)) == a as int,
{
    let o = ipv4_octets(a);
    assert(o.take(1).drop_last() =~= Seq::<u8>::empty());
    assert(o.take(2).drop_last() =~= o.take(1));
    assert(o.take(3).drop_last() =~= o.take(2));
    assert(o.drop_last() =~= o.take(3));
    assert(((a >> 24u32) as u8) as int == (a >> 24u32) as int) by (bit_vector);
    lemma_shr_step32(a, 24);
    lemma_shr_step32(a, 16);
    lemma_shr_step32(a, 8);
    assert((a >> 0u32) == a) by (bit_vector);
    assert(be_value(Seq::<u8>::empty()) == 0);
    assert(be_value(o.take(1)) == be_value(o.take(1).drop_last()) * 256 + o[0]);
    assert(be_value(o.take(1)) == (a >> 24u32) as int);
    assert(be_value(o.take(2)) == be_value(o.take(2).drop_last()) * 256 + o[1]);
    assert(be_value(o.take(2)) == (a >> 16u32) as int);
    assert(be_value(o.take(3)) == be_value(o.take(3).drop_last()) * 256 + o[2]);
    assert(be_value(o.take(3)) == (a >> 8u32) as int);
    assert(be_value(o) == be_value(o.drop_last()) * 256 + o[3]);
}

/// A lookup of the address reverse name `rn` denotes, in its family of
/// pool `p0` (becoming `p1`) at `now`, finds name `target` with remaining
/// lifetime `l`.
pub open spec fn reverse_found(
    p0: FakeIpPool,
    p1: FakeIpPool,
    rn: Seq<Seq<u8>>,
    now: u64,
    target: Seq<Seq<u8>>,
    l: Option<u64>,
) -> bool {
    match spec_parse_reverse(rn) {
        Some(ReverseAddress::V4(a)) => lookup_post(
            p0.ipv4()->0,
            p1.ipv4()->0,
            a as int,
            now,
            Some((target, l)),
        ),
        Some(ReverseAddress::V6(a)) => lookup_post(
            p0.ipv6()->0,
            p1.ipv6()->0,
            a as int,
            now,
            Some((target, l)),
        ),
        None => false,
    }
}

/// What every local Fake IP answer `m` to query `q` looks like: a
/// response echoing the query's id and questions, with no authority or
/// additional records and at most one answer record, owned by the first
/// question's name, of class IN, and of the question's type.
///
/// An A or AAAA answer carries, in big-endian order, the address that the
/// pool's allocation for the question's name gave, with a TTL no longer
/// than the mapping's remaining lifetime. A PTR answer carries the name the
/// pool maps the queried reverse address to, with a TTL no longer than that
/// mapping's remaining lifetime.
pub proof fn lemma_fake_ip_answer_shape(
    p0: FakeIpPool,
    p1: FakeIpPool,
    policy: FakeIpPolicy,
    q: MessageV,
    now: u64,
    m: MessageV,
)
    requires
        fake_ip_post(p0, p1, policy, q, now, Ok(Some(m))),
    ensures
        q.questions.len() > 0,
        m.header.id == q.header.id,
        m.header.qr,
        m.questions == q.questions,
        m.authorities.len() == 0,
        m.additionals.len() == 0,
        m.answers.len() <= 1,
        forall|i: int|
            0 <= i < m.answers.len() ==> (#[trigger] m.answers[i]).name == q.questions[0].name
                && m.answers[i].class == Class::In && m.answers[i].rtype == q.questions[0].qtype,
        m.answers.len() == 1 && q.questions[0].qtype == RecordType::A ==> {
            &&& m.answers[0].rdata matches RDataV::A(o) && o.len() == 4
            &&& exists|l: Option<u64>|
                #[trigger] allocate_post(
                    p0.ipv4()->0,
                    p1.ipv4()->0,
                    q.questions[0].name,
                    IPV4_HASH_SALT,
                    now,
                    p0.ttl(),
                    be_value(m.answers[0].rdata->A_0),
                    l,
                ) && (l matches Some(x) && m.answers[0].ttl as int * 1000 <= x)
        },
        m.answers.len() == 1 && q.questions[0].qtype == RecordType::Aaaa ==> {
            &&& m.answers[0].rdata matches RDataV::Aaaa(o) && o.len() == 16
            &&& exists|l: Option<u64>|
                #[trigger] allocate_post(
                    p0.ipv6()->0,
                    p1.ipv6()->0,
                    q.questions[0].name,
                    IPV6_HASH_SALT,
                    now,
                    p0.ttl(),
                    be_value(m.answers[0].rdata->Aaaa_0),
                    l,
                ) && (l matches Some(x) && m.answers[0].ttl as int * 1000 <= x)
        },
        m.answers.len() == 1 && q.questions[0].qtype == RecordType::Ptr ==> {
            &&& m.answers[0].rdata is Ptr
            &&& exists|l: Option<u64>|
                (l matches Some(x) && m.answers[0].ttl as int * 1000 <= x) && #[trigger] reverse_found(
                    p0,
                    p1,
                    q.questions[0].name,
                    now,
                    m.answers[0].rdata->Ptr_0,
                    l,
                )
        },
{
    let qu = q.questions[0];
    let base = spec_local_response(q, Rcode::NoError);
    if qu.qtype == RecordType::A && any_match(policy.patterns(), qu.name) && p0.ipv4() is Some
        && ttl_representable(p0.ttl()) {
        let (a, l) = choose|a: u32, l: Option<u64>|
            {
                &&& #[trigger] allocate_post(
                    p0.ipv4()->0,
                    p1.ipv4()->0,
                    qu.name,
                    IPV4_HASH_SALT,
                    now,
                    p0.ttl(),
                    a as int,
                    l,
                )
                &&& synthesized(q, l, |t: u32| a_record(qu.name, t, a)) == Ok::<Option<MessageV>, Error>(Some(m))
            };
        let t = spec_dns_ttl(l)->Ok_0;
        assert(m == with_answer(base, a_record(qu.name, t, a)));
        assert(m.answers =~= seq![a_record(qu.name, t, a)]);
        lemma_ipv4_octets_big_endian(a);
        assert(m.answers[0].rdata->A_0 == ipv4_octets(a));
        assert(l matches Some(x) && t as int * 1000 <= x);
    } else if qu.qtype == RecordType::Aaaa && any_match(policy.patterns(), qu.name) && p0.ipv6()
        is Some && ttl_representable(p0.ttl()) {
        let (a, l) = choose|a: u128, l: Option<u64>|
            {
                &&& #[trigger] allocate_post(
                    p0.ipv6()->0,
                    p1.ipv6()->0,
                    qu.name,
                    IPV6_HASH_SALT,
                    now,
                    p0.ttl(),
                    a as int,
                    l,
                )
                &&& synthesized(q, l, |t: u32| aaaa_record(qu.name, t, a)) == Ok::<Option<MessageV>, Error>(Some(m))
            };
        let t = spec_dns_ttl(l)->Ok_0;
        assert(m == with_answer(base, aaaa_record(qu.name, t, a)));
        assert(m.answers =~= seq![aaaa_record(qu.name, t, a)]);
        lemma_ipv6_octets_big_endian(a);
        assert(m.answers[0].rdata->Aaaa_0 == ipv6_octets(a));
        assert(l matches Some(x) && t as int * 1000 <= x);
    } else if qu.qtype == RecordType::Ptr && qu.qclass == Class::In {
        match spec_parse_reverse(qu.name) {
            Some(ReverseAddress::V4(a)) => {
                let res = choose|res: Option<(Seq<Seq<u8>>, Option<u64>)>|
                    #[trigger] lookup_post(p0.ipv4()->0, p1.ipv4()->0, a as int, now, res)
                        && ptr_answered(q, res) == Ok::<Option<MessageV>, Error>(Some(m));
                if let Some((nm, l)) = res {
                    let t = spec_dns_ttl(l)->Ok_0;
                    assert(m.answers =~= seq![ptr_record(qu.name, t, nm)]);
                    assert(l matches Some(x) && t as int * 1000 <= x);
                    assert(m.answers[0].rdata->Ptr_0 == nm);
                    assert(m.answers[0].ttl == t);
                    assert(reverse_found(p0, p1, qu.name, now, nm, l));
                } else {
                    assert(m.answers =~= Seq::<RecordV>::empty());
                }
            },
            Some(ReverseAddress::V6(a)) => {
                let res = choose|res: Option<(Seq<Seq<u8>>, Option<u64>)>|
                    #[trigger] lookup_post(p0.ipv6()->0, p1.ipv6()->0, a as int, now, res)
                        && ptr_answered(q, res) == Ok::<Option<MessageV>, Error>(Some(m));
                if let Some((nm, l)) = res {
                    let t = spec_dns_ttl(l)->Ok_0;
                    assert(m.answers =~= seq![ptr_record(qu.name, t, nm)]);
                    assert(l matches Some(x) && t as int * 1000 <= x);
                    assert(m.answers[0].rdata->Ptr_0 == nm);
                    assert(m.answers[0].ttl == t);
                    assert(reverse_found(p0, p1, qu.name, now, nm, l));
                } else {
                    assert(m.answers =~= Seq::<RecordV>::empty());
                }
            },
            None => {},
        }
    }
}

/// The smallest TTL of a non-empty record sequence is at most every
/// record's TTL and is one of them.
proof fn lemma_min_ttl(rs: Seq<RecordV>)
    requires
        rs.len() > 0,
    ensures
        forall|i: int| 0 <= i < rs.len() ==> min_ttl(rs) <= #[trigger] rs[i].ttl,
        exists|i: int| 0 <= i < rs.len() && min_ttl(rs) == #[trigger] rs[i].ttl,
    decreases rs.len(),
{
    if rs.len() > 1 {
        let rest = rs.drop_first();
        lemma_min_ttl(rest);
        assert forall|i: int| 0 <= i < rs.len() implies min_ttl(rs) <= #[trigger] rs[i].ttl by {
            if i > 0 {
                assert(rs[i] == rest[i - 1]);
            }
        }
        let j = choose|j: int| 0 <= j < rest.len() && min_ttl(rest) == #[trigger] rest[j].ttl;
        if rs[0].ttl > min_ttl(rest) {
            assert(rs[j + 1] == rest[j]);
        } else {
            assert(min_ttl(rs) == rs[0].ttl);
        }
    } else {
        assert(min_ttl(rs) == rs[0].ttl);
    }
}

/// `first_soa_minimum` is the `minimum` of the first SOA record, or none
/// when no record is an SOA.
proof fn lemma_first_soa(rs: Seq<RecordV>)
    ensures
        (exists|i: int| 0 <= i < rs.len() && (#[trigger] rs[i]).rdata is Soa) ==> exists|i: int|
            {
                &&& 0 <= i < rs.len()
                &&& (#[trigger] rs[i]).rdata is Soa
                &&& first_soa_minimum(rs) == Some(rs[i].rdata->minimum)
                &&& forall|j: int| 0 <= j < i ==> !((#[trigger] rs[j]).rdata is Soa)
            },
        (forall|i: int| 0 <= i < rs.len() ==> !((#[trigger] rs[i]).rdata is Soa)) ==> first_soa_minimum(rs)
            is None,
    decreases rs.len(),
{
    if rs.len() > 0 {
        let rest = rs.drop_first();
        lemma_first_soa(rest);
        if rs[0].rdata is Soa {
            assert(first_soa_minimum(rs) == Some(rs[0].rdata->minimum));
        } else {
            assert(first_soa_minimum(rs) == first_soa_minimum(rest));
            if exists|i: int| 0 <= i < rs.len() && (#[trigger] rs[i]).rdata is Soa {
                let i0 = choose|i: int| 0 <= i < rs.len() && (#[trigger] rs[i]).rdata is Soa;
                assert(rest[i0 - 1] == rs[i0]);
                let k = choose|k: int|
                    {
                        &&& 0 <= k < rest.len()
                        &&& (#[trigger] rest[k]).rdata is Soa
                        &&& first_soa_minimum(rest) == Some(rest[k].rdata->minimum)
                        &&& forall|j: int| 0 <= j < k ==> !((#[trigger] rest[j]).rdata is Soa)
                    };
                assert(rs[k + 1] == rest[k]);
                assert forall|j: int| 0 <= j < k + 1 implies !((#[trigger] rs[j]).rdata is Soa) by {
                    if j > 0 {
                        assert(rs[j] == rest[j - 1]);
                    }
                }
            } else {
                assert forall|i: int| 0 <= i < rest.len() implies !((#[trigger] rest[i]).rdata is Soa) by {
                    assert(rest[i] == rs[i + 1]);
                }
            }
        }
    }
}

/// How long an upstream answer may be cached (RFC 2308 for negative
/// answers):
/// - an answer with records that is neither NXDOMAIN nor empty NOERROR is
///   cached for the smallest TTL among its answer records: no longer than
///   any of them, and exactly as long as one of them;
/// - a negative answer (NXDOMAIN, or NOERROR with no answer records) is
///   cached for the `minimum` of the first SOA record in its authority
///   section, or for the fixed 60-second floor when there is none;
/// - any other answer (an error response with no answer records) is not
///   cached.
pub proof fn lemma_cache_lifetime(m: MessageV)
    ensures
        !(m.header.rcode == Rcode::NxDomain || m.header.rcode == Rcode::NoError)
            && m.answers.len() == 0 ==> spec_cacheable_ttl(m) is None,
        !(m.header.rcode == Rcode::NxDomain) && m.answers.len() > 0 ==> {
            &&& spec_cacheable_ttl(m) is Some
            &&& forall|i: int|
                0 <= i < m.answers.len() ==> spec_cacheable_ttl(m)->0 <= #[trigger] m.answers[i].ttl
            &&& exists|i: int|
                0 <= i < m.answers.len() && spec_cacheable_ttl(m)->0 == #[trigger] m.answers[i].ttl
        },
        m.header.rcode == Rcode::NxDomain || (m.header.rcode == Rcode::NoError && m.answers.len()
            == 0) ==> {
            &&& spec_cacheable_ttl(m) is Some
            &&& (forall|i: int|
                0 <= i < m.authorities.len() ==> !((#[trigger] m.authorities[i]).rdata is Soa))
                ==> spec_cacheable_ttl(m) == Some(60u32)
            &&& (exists|i: int| 0 <= i < m.authorities.len() && (#[trigger] m.authorities[i]).rdata is Soa)
                ==> exists|i: int|
                {
                    &&& 0 <= i < m.authorities.len()
                    &&& (#[trigger] m.authorities[i]).rdata is Soa
                    &&& spec_cacheable_ttl(m) == Some(m.authorities[i].rdata->minimum)
                    &&& forall|j: int| 0 <= j < i ==> !((#[trigger] m.authorities[j]).rdata is Soa)
                }
        },
{
    lemma_first_soa(m.authorities);
    if m.answers.len() > 0 {
        lemma_min_ttl(m.answers);
    }
}

} // verus!

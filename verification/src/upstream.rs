//! The transport-independent parts of talking to upstream DNS servers:
//! RFC 1035 §4.2.2 length-prefixed framing, the UDP truncation decision,
//! the DNS-over-HTTPS (RFC 8484) GET request target, and how transport
//! failures are classified.

use vstd::prelude::*;

use base64::Engine;
use crate::error::Error;
use crate::message::{Message, MessageV, spec_decode_message, spec_encode_message};
use crate::wire::{be16, write_u16};
use vstd::string::StringExecFns;
use vstd::string::StringSliceAdditionalSpecFns;

verus! {

/// The largest UDP DNS message without EDNS0 payload-size negotiation
/// (RFC 1035 §4.2.1).
pub const UDP_MAX_RESPONSE_LEN: usize = 512;

/// The DoH request's HTTP method (RFC 8484 §4.1). Both carry the query in
/// `application/dns-message` wire format; they differ only in how it is
/// transmitted.
#[derive(Debug, Clone, Copy, PartialEq, Eq, Structural)]
pub enum DohMethod {
    /// GET with the base64url-encoded query in the `dns` URI query
    /// parameter.
    Get,
    /// POST with the raw wire-format query as the request body.
    Post,
}

/// The framed form of message `m`: a 2-byte big-endian length prefix
/// followed by its encoding, which must fit that prefix.
pub open spec fn spec_frame(m: MessageV) -> Result<Seq<u8>, Error> {
    match spec_encode_message(m, 0) {
        Ok(b) => if b.len() > 65535 {
            Err(Error::MessageTooLong)
        } else {
            Ok(be16(b.len() as u16) + b)
        },
        Err(e) => Err(e),
    }
}

/// Encodes `message` with RFC 1035 §4.2.2's 2-byte big-endian length
/// prefix, as sent over TCP, TLS, and QUIC streams.
pub fn frame_message(message: &Message) -> (r: Result<Vec<u8>, Error>)
    ensures
        match spec_frame(message@) {
            Ok(b) => r matches Ok(v) && v@ == b,
            Err(e) => r == Err::<Vec<u8>, Error>(e),
        },
{
    let payload = match message.encode() {
        Ok(p) => p,
        Err(e) => return Err(e),
    };
    if payload.len() > 65535 {
        return Err(Error::MessageTooLong);
    }
    let mut framed: Vec<u8> = Vec::new();
    write_u16(&mut framed, payload.len() as u16);
    let mut i: usize = 0;
    while i < payload.len()
        invariant
            0 <= i <= payload@.len(),
            payload@.len() <= 65535,
            framed@ == be16(payload@.len() as u16) + payload@.take(i as int),
        decreases payload@.len() - i,
    {
        framed.push(payload[i]);
        proof {
            assert(payload@.take(i + 1) =~= payload@.take(i as int).push(payload@[i as int]));
            assert(framed@ =~= be16(payload@.len() as u16) + payload@.take(i + 1));
        }
        i = i + 1;
    }
    proof {
        assert(payload@.take(payload@.len() as int) =~= payload@);
    }
    Ok(framed)
}

/// What a UDP response datagram tells the backend to do.
#[derive(Debug)]
pub enum UdpReply {
    /// The response is complete: return it.
    Answer(Message),
    /// The response was truncated (`TC` set): ask the same server again
    /// over TCP.
    RetryOverTcp,
}

/// Decodes a UDP response datagram and decides whether it answers the
/// query or must be retried over TCP.
pub fn udp_reply(datagram: &[u8]) -> (r: Result<UdpReply, Error>)
    ensures
        match spec_decode_message(datagram@) {
            Err(e) => r matches Err(x) && x == e,
            Ok(m) => if m.header.truncated {
                r matches Ok(UdpReply::RetryOverTcp)
            } else {
                r matches Ok(UdpReply::Answer(x)) && x@ == m
            },
        },
{
    match Message::decode(datagram) {
        Ok(m) => if m.header.truncated {
            Ok(UdpReply::RetryOverTcp)
        } else {
            Ok(UdpReply::Answer(m))
        },
        Err(e) => Err(e),
    }
}

/// The base64url alphabet (RFC 4648 §5): `A`-`Z`, `a`-`z`, `0`-`9`, `-`,
/// `_` for the six-bit values 0 to 63.
pub open spec fn base64_url_char(v: int) -> char {
    if v < 26 {
        ('A' as int + v) as char
    } else if v < 52 {
        ('a' as int + (v - 26)) as char
    } else if v < 62 {
        ('0' as int + (v - 52)) as char
    } else if v == 62 {
        '-'
    } else {
        '_'
    }
}

/// The unpadded base64url encoding (RFC 4648 §5) of `bytes`: each group of
/// three bytes gives four characters of six bits each, most significant
/// first; a final group of one or two bytes gives two or three characters,
/// its last one filled with zero bits, and no `=` padding.
pub open spec fn base64_url_no_pad(bytes: Seq<u8>) -> Seq<char>
    decreases bytes.len(),
{
    if bytes.len() == 0 {
        Seq::empty()
    } else {
        let b0 = bytes[0] as int;
        let b1 = if bytes.len() > 1 { bytes[1] as int } else { 0 };
        let b2 = if bytes.len() > 2 { bytes[2] as int } else { 0 };
        let c0 = base64_url_char(b0 / 4);
        let c1 = base64_url_char((b0 % 4) * 16 + b1 / 16);
        let c2 = base64_url_char((b1 % 16) * 4 + b2 / 64);
        let c3 = base64_url_char(b2 % 64);
        if bytes.len() == 1 {
            seq![c0, c1]
        } else if bytes.len() == 2 {
            seq![c0, c1, c2]
        } else {
            seq![c0, c1, c2, c3] + base64_url_no_pad(bytes.skip(3))
        }
    }
}

/// Calls `base64::engine::general_purpose::URL_SAFE_NO_PAD.encode`, which
/// returns the unpadded base64url encoding of `bytes`, stated by
/// [`base64_url_no_pad`]. The encoder panics only when the encoded length
/// overflows `usize`, which the length bound rules out.
#[verifier::external_body]
fn base64_url_encode(bytes: &[u8]) -> (r: String)
    requires
        bytes@.len() <= 65535,
    ensures
        r@ == base64_url_no_pad(bytes@),
{
    base64::engine::general_purpose::URL_SAFE_NO_PAD.encode(bytes)
}

/// The GET request target (path and query) for an encoded query:
/// `path`, then `&` if `path` already holds a `?` and `?` otherwise, then
/// `dns=` and the encoded query.
pub open spec fn spec_doh_get_target(path: Seq<char>, encoded: Seq<char>) -> Seq<char> {
    path + (if path.contains('?') {
        seq!['&']
    } else {
        seq!['?']
    }) + seq!['d', 'n', 's', '='] + encoded
}

/// Builds the DoH GET request target from the endpoint's `path` and the
/// base64url-encoded query.
pub fn doh_get_target_from(path: &str, encoded: &str) -> (r: String)
    ensures
        r@ == spec_doh_get_target(path@, encoded@),
{
    let mut has_question = false;
    let mut i: usize = 0;
    let n = path.unicode_len();
    while i < n
        invariant
            n == path@.len(),
            0 <= i <= n,
            has_question == exists|j: int| 0 <= j < i && path@[j] == '?',
        decreases n - i,
    {
        if path.get_char(i) == '?' {
            has_question = true;
        }
        i = i + 1;
    }
    let mut r = String::from_str(path);
    if has_question {
        r.append("&");
    } else {
        r.append("?");
    }
    r.append("dns=");
    r.append(encoded);
    proof {
        reveal_strlit("&");
        reveal_strlit("?");
        reveal_strlit("dns=");
        assert(has_question == path@.contains('?'));
        assert(r@ =~= spec_doh_get_target(path@, encoded@));
    }
    r
}

/// Builds the DoH GET request target for `query`: its wire encoding,
/// base64url-encoded into the `dns` parameter after `path`.
pub fn doh_get_target(path: &str, query: &Message) -> (r: Result<String, Error>)
    ensures
        match spec_encode_message(query@, 0) {
            Ok(b) => r matches Ok(s) && s@ == spec_doh_get_target(path@, base64_url_no_pad(b)),
            Err(e) => r == Err::<String, Error>(e),
        },
{
    let payload = match query.encode() {
        Ok(p) => p,
        Err(e) => return Err(e),
    };
    if payload.len() > 65535 {
        proof {
            crate::message::lemma_encoded_message_fits(query@, 0);
        }
        return Err(Error::MessageTooLong);
    }
    let encoded = base64_url_encode(payload.as_slice());
    Ok(doh_get_target_from(path, encoded.as_str()))
}

/// How a failure setting up or using a TLS connection is reported: as a
/// TLS error when the TLS layer reported it, else as a transport error,
/// keeping its message either way.
pub fn tls_or_transport(tls_failed: bool, message: String) -> (r: Error)
    ensures
        tls_failed ==> r == Error::Tls(message),
        !tls_failed ==> r == Error::Transport(message),
{
    if tls_failed {
        Error::Tls(message)
    } else {
        Error::Transport(message)
    }
}

/// The words a QUIC transport error's message holds when the embedded TLS
/// handshake failed (a `CRYPTO_ERROR` code).
pub open spec fn handshake_failed_words() -> Seq<u8> {
    seq![
        99u8, 114u8, 121u8, 112u8, 116u8, 111u8, 103u8, 114u8, 97u8, 112u8, 104u8, 105u8, 99u8,
        32u8, 104u8, 97u8, 110u8, 100u8, 115u8, 104u8, 97u8, 107u8, 101u8, 32u8, 102u8, 97u8,
        105u8, 108u8, 101u8, 100u8,
    ]
}

/// The `n` bytes of `hay` from position `i`.
pub open spec fn window(hay: Seq<u8>, i: int, n: int) -> Seq<u8> {
    hay.subrange(i, i + n)
}

/// `hay` holds `needle` at some position.
pub open spec fn contains_bytes(hay: Seq<u8>, needle: Seq<u8>) -> bool {
    exists|i: int|
        0 <= i && i + needle.len() <= hay.len() && #[trigger] window(hay, i, needle.len() as int)
            == needle
}

/// Whether `hay` holds `needle` at position `i`.
fn bytes_at(hay: &[u8], needle: &[u8], i: usize) -> (r: bool)
    requires
        i + needle@.len() <= hay@.len(),
    ensures
        r == (hay@.subrange(i as int, i + needle@.len()) == needle@),
{
    let hay_len = hay.len();
    let mut j: usize = 0;
    while j < needle.len()
        invariant
            hay_len == hay@.len(),
            i + needle@.len() <= hay@.len(),
            0 <= j <= needle@.len(),
            forall|k: int| 0 <= k < j ==> hay@[i + k] == needle@[k],
        decreases needle@.len() - j,
    {
        if hay[i + j] != needle[j] {
            proof {
                assert(hay@.subrange(i as int, i + needle@.len())[j as int] != needle@[j as int]);
            }
            return false;
        }
        j = j + 1;
    }
    proof {
        assert(hay@.subrange(i as int, i + needle@.len()) =~= needle@);
    }
    true
}

/// Whether `hay` holds `needle` anywhere.
fn find_bytes(hay: &[u8], needle: &[u8]) -> (r: bool)
    ensures
        r == contains_bytes(hay@, needle@),
{
    if needle.len() > hay.len() {
        return false;
    }
    let last = hay.len() - needle.len();
    let mut i: usize = 0;
    loop
        invariant
            last + needle@.len() == hay@.len(),
            0 <= i <= last,
            forall|k: int| 0 <= k < i ==> #[trigger] window(hay@, k, needle@.len() as int) != needle@,
        decreases last - i,
    {
        if bytes_at(hay, needle, i) {
            assert(window(hay@, i as int, needle@.len() as int) == needle@);
            return true;
        }
        if i == last {
            return false;
        }
        i = i + 1;
    }
}

/// How a QUIC connection failure is reported: a transport-level error
/// whose message says the cryptographic handshake failed is a TLS error;
/// every other failure is a transport error. Either keeps the message.
pub fn classify_quic_failure(is_transport_error: bool, message: &str) -> (r: Error)
    ensures
        (is_transport_error && contains_bytes(message.spec_bytes(), handshake_failed_words()))
            ==> (r matches Error::Tls(s) && s@ == message@),
        !(is_transport_error && contains_bytes(message.spec_bytes(), handshake_failed_words()))
            ==> (r matches Error::Transport(s) && s@ == message@),
{
    let words = vec![
        99u8, 114u8, 121u8, 112u8, 116u8, 111u8, 103u8, 114u8, 97u8, 112u8, 104u8, 105u8, 99u8,
        32u8, 104u8, 97u8, 110u8, 100u8, 115u8, 104u8, 97u8, 107u8, 101u8, 32u8, 102u8, 97u8,
        105u8, 108u8, 101u8, 100u8,
    ];
    assert(words@ =~= handshake_failed_words());
    let owned = message.to_owned();
    if is_transport_error && find_bytes(message.as_bytes(), words.as_slice()) {
        Error::Tls(owned)
    } else {
        Error::Transport(owned)
    }
}

} // verus!

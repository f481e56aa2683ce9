//! What an inbound DNS listener answers: the resolver's answer, or a
//! SERVFAIL echoing the query when resolution failed, and for UDP a
//! response cut down to fit the 512-byte limit.

use vstd::prelude::*;

use crate::engine::{local_response, spec_local_response};
use crate::error::Error;
use crate::message::{Header, Message, MessageV, Rcode, spec_decode_message, spec_encode_message};
use crate::roundtrip::{lemma_message_round_trip, message_wf};
use crate::upstream::UDP_MAX_RESPONSE_LEN;

verus! {

/// Synthesizes a SERVFAIL response echoing `query`'s header fields and
/// question section, used whenever resolving a query that did decode
/// fails.
pub fn servfail_response(query: &Message) -> (r: Message)
    ensures
        r@ == spec_local_response(query@, Rcode::ServFail),
{
    local_response(query, Rcode::ServFail)
}

/// The response a listener sends for `query`: the resolver's answer, or
/// SERVFAIL when resolution failed.
pub fn response_for(query: &Message, result: Result<Message, Error>) -> (r: Message)
    ensures
        match result {
            Ok(m) => r@ == m@,
            Err(_) => r@ == spec_local_response(query@, Rcode::ServFail),
        },
{
    match result {
        Ok(answer) => answer,
        Err(_) => servfail_response(query),
    }
}

/// `m` with its record sections emptied and its `TC` bit set.
pub open spec fn truncated_view(m: MessageV) -> MessageV {
    MessageV {
        header: Header { truncated: true, ..m.header },
        questions: m.questions,
        answers: Seq::empty(),
        authorities: Seq::empty(),
        additionals: Seq::empty(),
    }
}

/// The datagram a UDP listener sends for `response`: its encoding when it
/// fits 512 bytes, else the encoding of the response with its record
/// sections emptied and `TC` set. `None` (send nothing) when encoding
/// fails.
pub open spec fn spec_udp_datagram(m: MessageV) -> Option<Seq<u8>> {
    match spec_encode_message(m, 0) {
        Err(_) => None,
        Ok(b) => if b.len() <= UDP_MAX_RESPONSE_LEN {
            Some(b)
        } else {
            match spec_encode_message(truncated_view(m), 0) {
                Ok(t) => Some(t),
                Err(_) => None,
            }
        },
    }
}

/// Encodes `response` for a UDP reply, truncating it (record sections
/// dropped, `TC` set) when it does not fit 512 bytes.
pub fn udp_datagram(response: Message) -> (r: Option<Vec<u8>>)
    ensures
        match spec_udp_datagram(response@) {
            Some(b) => r matches Some(v) && v@ == b,
            None => r is None,
        },
{
    let mut response = response;
    let encoded = match response.encode() {
        Ok(bytes) => bytes,
        Err(_) => return None,
    };
    if encoded.len() <= UDP_MAX_RESPONSE_LEN {
        return Some(encoded);
    }
    let ghost before = response@;
    response.answers = Vec::new();
    response.authorities = Vec::new();
    response.additionals = Vec::new();
    response.header.truncated = true;
    proof {
        assert(response@ =~= truncated_view(before));
    }
    match response.encode() {
        Ok(bytes) => Some(bytes),
        Err(_) => None,
    }
}

/// What a UDP client receives for a well-formed response: a datagram that
/// decodes either to the whole response, when its encoding fits 512 bytes,
/// or, when it does not, to the response's header with `TC` set and its
/// questions, with no answer, authority, or additional records.
pub proof fn lemma_udp_datagram_decodes(m: MessageV)
    requires
        message_wf(m),
    ensures
        spec_udp_datagram(m) matches Some(b) ==> {
            &&& spec_decode_message(b) is Ok
            &&& {
                let x = spec_decode_message(b)->Ok_0;
                ||| b.len() <= 512 && x == m
                ||| {
                    &&& spec_encode_message(m, 0) matches Ok(full) && full.len() > 512
                    &&& x.header == Header { truncated: true, ..m.header }
                    &&& x.questions == m.questions
                    &&& x.answers.len() == 0
                    &&& x.authorities.len() == 0
                    &&& x.additionals.len() == 0
                }
            }
        },
{
    if let Ok(b) = spec_encode_message(m, 0) {
        if b.len() <= UDP_MAX_RESPONSE_LEN {
            lemma_message_round_trip(m);
        } else {
            let t = truncated_view(m);
            assert(message_wf(t));
            if spec_encode_message(t, 0) is Ok {
                lemma_message_round_trip(t);
            }
        }
    }
}

} // verus!

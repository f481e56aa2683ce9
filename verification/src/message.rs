//! The DNS message envelope: header, question, resource records, and the
//! full message with wire encode/decode (RFC 1035 §4.1).

use vstd::prelude::*;

use crate::error::Error;
use crate::name::Name;
use crate::record::{
    Class, RData, RDataV, RecordType, spec_class_from_u16, spec_class_to_u16, spec_decode_rdata,
    spec_encode_rdata, spec_rdata_type, spec_type_from_u16, spec_type_to_u16,
};
use crate::wire::{
    be16, be32, decode_name, encode_name, extends, lemma_rcat_assoc, rcat, read_u16, read_u32,
    spec_decode_name, spec_encode_name, spec_read_u16, spec_read_u32, truncated, u16_at,
    write_u16, write_u32,
};

verus! {

/// A DNS message opcode (RFC 1035 §4.1.1).
#[derive(Debug, Clone, Copy, PartialEq, Eq, Structural)]
pub enum Opcode {
    /// A standard query.
    Query,
    /// An inverse query (obsolete, RFC 3425).
    IQuery,
    /// A server status request.
    Status,
    /// A zone change notification (RFC 1996).
    Notify,
    /// A dynamic update (RFC 2136).
    Update,
    /// Any other opcode value (0-15).
    Other(u8),
}

pub open spec fn spec_opcode_from_u8(value: u8) -> Opcode {
    match value {
        0 => Opcode::Query,
        1 => Opcode::IQuery,
        2 => Opcode::Status,
        4 => Opcode::Notify,
        5 => Opcode::Update,
        other => Opcode::Other(other),
    }
}

pub open spec fn spec_opcode_to_u8(op: Opcode) -> u8 {
    match op {
        Opcode::Query => 0,
        Opcode::IQuery => 1,
        Opcode::Status => 2,
        Opcode::Notify => 4,
        Opcode::Update => 5,
        Opcode::Other(value) => value % 16,
    }
}

/// An opcode survives a wire round trip: `Other` carries a 4-bit value that
/// has no variant of its own.
pub open spec fn opcode_wf(op: Opcode) -> bool {
    match op {
        Opcode::Other(v) => v < 16 && spec_opcode_from_u8(v) == Opcode::Other(v),
        _ => true,
    }
}

impl Opcode {
    /// The opcode a 4-bit wire value denotes.
    pub fn from_u8(value: u8) -> (r: Opcode)
        ensures
            r == spec_opcode_from_u8(value),
    {
        match value {
            0 => Opcode::Query,
            1 => Opcode::IQuery,
            2 => Opcode::Status,
            4 => Opcode::Notify,
            5 => Opcode::Update,
            other => Opcode::Other(other),
        }
    }

    /// This opcode's 4-bit wire value (`Other` keeps its low four bits).
    pub fn to_u8(self) -> (r: u8)
        ensures
            r == spec_opcode_to_u8(self),
    {
        match self {
            Opcode::Query => 0,
            Opcode::IQuery => 1,
            Opcode::Status => 2,
            Opcode::Notify => 4,
            Opcode::Update => 5,
            Opcode::Other(value) => value % 16,
        }
    }
}

/// A DNS message response code (RFC 1035 §4.1.1).
#[derive(Debug, Clone, Copy, PartialEq, Eq, Structural)]
pub enum Rcode {
    /// No error.
    NoError,
    /// Format error.
    FormErr,
    /// Server failure.
    ServFail,
    /// Non-existent domain.
    NxDomain,
    /// Not implemented.
    NotImp,
    /// Query refused.
    Refused,
    /// Any other response code value (0-15).
    Other(u8),
}

pub open spec fn spec_rcode_from_u8(value: u8) -> Rcode {
    match value {
        0 => Rcode::NoError,
        1 => Rcode::FormErr,
        2 => Rcode::ServFail,
        3 => Rcode::NxDomain,
        4 => Rcode::NotImp,
        5 => Rcode::Refused,
        other => Rcode::Other(other),
    }
}

pub open spec fn spec_rcode_to_u8(rc: Rcode) -> u8 {
    match rc {
        Rcode::NoError => 0,
        Rcode::FormErr => 1,
        Rcode::ServFail => 2,
        Rcode::NxDomain => 3,
        Rcode::NotImp => 4,
        Rcode::Refused => 5,
        Rcode::Other(value) => value % 16,
    }
}

/// A response code survives a wire round trip: `Other` carries a 4-bit
/// value above 5.
pub open spec fn rcode_wf(rc: Rcode) -> bool {
    match rc {
        Rcode::Other(v) => 5 < v < 16,
        _ => true,
    }
}

impl Rcode {
    /// The response code a 4-bit wire value denotes.
    pub fn from_u8(value: u8) -> (r: Rcode)
        ensures
            r == spec_rcode_from_u8(value),
    {
        match value {
            0 => Rcode::NoError,
            1 => Rcode::FormErr,
            2 => Rcode::ServFail,
            3 => Rcode::NxDomain,
            4 => Rcode::NotImp,
            5 => Rcode::Refused,
            other => Rcode::Other(other),
        }
    }

    /// This response code's 4-bit wire value (`Other` keeps its low four
    /// bits).
    pub fn to_u8(self) -> (r: u8)
        ensures
            r == spec_rcode_to_u8(self),
    {
        match self {
            Rcode::NoError => 0,
            Rcode::FormErr => 1,
            Rcode::ServFail => 2,
            Rcode::NxDomain => 3,
            Rcode::NotImp => 4,
            Rcode::Refused => 5,
            Rcode::Other(value) => value % 16,
        }
    }
}

/// A DNS message header (RFC 1035 §4.1.1). Section counts are not stored:
/// encoding derives them from the section lengths.
#[derive(Debug, Clone, Copy, PartialEq, Eq, Structural)]
pub struct Header {
    /// The query identifier, echoed between a query and its response.
    pub id: u16,
    /// Whether this message is a response.
    pub qr: bool,
    /// The kind of query this message performs.
    pub opcode: Opcode,
    /// Whether the responding server is authoritative.
    pub authoritative: bool,
    /// Whether this message was truncated for its transport.
    pub truncated: bool,
    /// Whether the client requests recursion.
    pub recursion_desired: bool,
    /// Whether the server supports recursion.
    pub recursion_available: bool,
    /// The response status.
    pub rcode: Rcode,
}

/// The header flags word.
pub open spec fn spec_flags(h: Header) -> u16 {
    ((if h.qr {
        0x8000int
    } else {
        0
    }) + spec_opcode_to_u8(h.opcode) * 0x800 + (if h.authoritative {
        0x400int
    } else {
        0
    }) + (if h.truncated {
        0x200int
    } else {
        0
    }) + (if h.recursion_desired {
        0x100int
    } else {
        0
    }) + (if h.recursion_available {
        0x80int
    } else {
        0
    }) + spec_rcode_to_u8(h.rcode)) as u16
}

/// The header a message id and flags word describe (the reserved Z/AD/CD
/// bits are ignored).
pub open spec fn spec_header_from_flags(id: u16, flags: u16) -> Header {
    Header {
        id,
        qr: flags >= 0x8000,
        opcode: spec_opcode_from_u8(((flags / 0x800) % 16) as u8),
        authoritative: (flags / 0x400) % 2 == 1,
        truncated: (flags / 0x200) % 2 == 1,
        recursion_desired: (flags / 0x100) % 2 == 1,
        recursion_available: (flags / 0x80) % 2 == 1,
        rcode: spec_rcode_from_u8((flags % 16) as u8),
    }
}

/// The 12-byte header encoding with the given section counts.
pub open spec fn spec_encode_header(h: Header, qc: u16, ac: u16, nsc: u16, arc: u16) -> Seq<u8> {
    be16(h.id) + be16(spec_flags(h)) + be16(qc) + be16(ac) + be16(nsc) + be16(arc)
}

/// Decodes a header at `pos`: the header, its four section counts, and the
/// position after it.
pub open spec fn spec_decode_header(buf: Seq<u8>, pos: int) -> Result<
    (Header, u16, u16, u16, u16, int),
    Error,
> {
    if pos + 12 > buf.len() {
        Err(truncated(buf))
    } else {
        Ok(
            (
                spec_header_from_flags(u16_at(buf, pos), u16_at(buf, pos + 2)),
                u16_at(buf, pos + 4),
                u16_at(buf, pos + 6),
                u16_at(buf, pos + 8),
                u16_at(buf, pos + 10),
                pos + 12,
            ),
        )
    }
}

/// A DNS question (RFC 1035 §4.1.2).
#[derive(Debug, PartialEq, Eq)]
pub struct Question {
    /// The queried name.
    pub name: Name,
    /// The queried record type.
    pub qtype: RecordType,
    /// The queried record class.
    pub qclass: Class,
}

/// The mathematical value of a [`Question`].
#[verifier::ext_equal]
pub struct QuestionV {
    pub name: Seq<Seq<u8>>,
    pub qtype: RecordType,
    pub qclass: Class,
}

impl View for Question {
    type V = QuestionV;

    open spec fn view(&self) -> QuestionV {
        QuestionV { name: self.name@, qtype: self.qtype, qclass: self.qclass }
    }
}

impl Clone for Question {
    fn clone(&self) -> (r: Self)
        ensures
            r@ == self@,
    {
        Question { name: self.name.clone(), qtype: self.qtype, qclass: self.qclass }
    }
}

/// A DNS resource record (RFC 1035 §4.1.3).
#[derive(Debug, PartialEq, Eq)]
pub struct ResourceRecord {
    /// The record's owner name.
    pub name: Name,
    /// The record's type. Encoding writes the type of `rdata`.
    pub rtype: RecordType,
    /// The record's class.
    pub class: Class,
    /// Seconds this record may be cached; a wire value with the sign bit set
    /// decodes as zero (RFC 2181).
    pub ttl: u32,
    /// The record's type-specific data.
    pub rdata: RData,
}

/// The mathematical value of a [`ResourceRecord`].
#[verifier::ext_equal]
pub struct RecordV {
    pub name: Seq<Seq<u8>>,
    pub rtype: RecordType,
    pub class: Class,
    pub ttl: u32,
    pub rdata: RDataV,
}

impl View for ResourceRecord {
    type V = RecordV;

    open spec fn view(&self) -> RecordV {
        RecordV {
            name: self.name@,
            rtype: self.rtype,
            class: self.class,
            ttl: self.ttl,
            rdata: self.rdata@,
        }
    }
}

impl Clone for ResourceRecord {
    fn clone(&self) -> (r: Self)
        ensures
            r@ == self@,
    {
        ResourceRecord {
            name: self.name.clone(),
            rtype: self.rtype,
            class: self.class,
            ttl: self.ttl,
            rdata: self.rdata.clone(),
        }
    }
}

/// A complete DNS message (RFC 1035 §4.1): header plus the four sections.
#[derive(Debug, PartialEq, Eq)]
pub struct Message {
    /// The message header.
    pub header: Header,
    /// The question section.
    pub questions: Vec<Question>,
    /// The answer section.
    pub answers: Vec<ResourceRecord>,
    /// The authority section.
    pub authorities: Vec<ResourceRecord>,
    /// The additional section.
    pub additionals: Vec<ResourceRecord>,
}

/// The mathematical value of a [`Message`].
#[verifier::ext_equal]
pub struct MessageV {
    pub header: Header,
    pub questions: Seq<QuestionV>,
    pub answers: Seq<RecordV>,
    pub authorities: Seq<RecordV>,
    pub additionals: Seq<RecordV>,
}

pub open spec fn questions_view(v: Seq<Question>) -> Seq<QuestionV> {
    v.map_values(|q: Question| q@)
}

pub open spec fn records_view(v: Seq<ResourceRecord>) -> Seq<RecordV> {
    v.map_values(|r: ResourceRecord| r@)
}

pub proof fn lemma_questions_view(v: Seq<Question>)
    ensures
        questions_view(v).len() == v.len(),
        forall|j: int| 0 <= j < v.len() ==> #[trigger] questions_view(v)[j] == v[j]@,
{
}

pub proof fn lemma_records_view(v: Seq<ResourceRecord>)
    ensures
        records_view(v).len() == v.len(),
        forall|j: int| 0 <= j < v.len() ==> #[trigger] records_view(v)[j] == v[j]@,
{
}

impl View for Message {
    type V = MessageV;

    open spec fn view(&self) -> MessageV {
        MessageV {
            header: self.header,
            questions: questions_view(self.questions@),
            answers: records_view(self.answers@),
            authorities: records_view(self.authorities@),
            additionals: records_view(self.additionals@),
        }
    }
}

/// Copies a question section.
pub fn clone_questions(v: &Vec<Question>) -> (r: Vec<Question>)
    ensures
        questions_view(r@) == questions_view(v@),
{
    let mut r: Vec<Question> = Vec::new();
    let mut i: usize = 0;
    while i < v.len()
        invariant
            0 <= i <= v@.len(),
            questions_view(r@) == questions_view(v@).take(i as int),
        decreases v@.len() - i,
    {
        let q = v[i].clone();
        let ghost old_r = r@;
        r.push(q);
        proof {
            lemma_questions_view(r@);
            lemma_questions_view(old_r);
            lemma_questions_view(v@);
            assert(questions_view(r@) =~= questions_view(v@).take(i + 1));
        }
        i = i + 1;
    }
    proof {
        assert(questions_view(v@).take(v@.len() as int) =~= questions_view(v@));
    }
    r
}

/// Copies a resource-record section.
pub fn clone_records(v: &Vec<ResourceRecord>) -> (r: Vec<ResourceRecord>)
    ensures
        records_view(r@) == records_view(v@),
{
    let mut r: Vec<ResourceRecord> = Vec::new();
    let mut i: usize = 0;
    while i < v.len()
        invariant
            0 <= i <= v@.len(),
            records_view(r@) == records_view(v@).take(i as int),
        decreases v@.len() - i,
    {
        let x = v[i].clone();
        let ghost old_r = r@;
        r.push(x);
        proof {
            lemma_records_view(r@);
            lemma_records_view(old_r);
            lemma_records_view(v@);
            assert(records_view(r@) =~= records_view(v@).take(i + 1));
        }
        i = i + 1;
    }
    proof {
        assert(records_view(v@).take(v@.len() as int) =~= records_view(v@));
    }
    r
}

impl Clone for Message {
    fn clone(&self) -> (r: Self)
        ensures
            r@ == self@,
    {
        Message {
            header: self.header,
            questions: clone_questions(&self.questions),
            answers: clone_records(&self.answers),
            authorities: clone_records(&self.authorities),
            additionals: clone_records(&self.additionals),
        }
    }
}

// ---------------------------------------------------------------------
// Specification of the wire format
// ---------------------------------------------------------------------
/// Decodes a question at `pos`.
pub open spec fn spec_decode_question(buf: Seq<u8>, pos: int) -> Result<(QuestionV, int), Error> {
    match spec_decode_name(buf, pos) {
        Err(e) => Err(e),
        Ok((name, p1)) => match spec_read_u16(buf, p1) {
            Err(e) => Err(e),
            Ok((t, p2)) => match spec_read_u16(buf, p2) {
                Err(e) => Err(e),
                Ok((c, p3)) => match spec_class_from_u16(c) {
                    Err(e) => Err(e),
                    Ok(qclass) => Ok(
                        (QuestionV { name, qtype: spec_type_from_u16(t), qclass }, p3),
                    ),
                },
            },
        },
    }
}

/// A wire TTL with the sign bit set is clamped to zero (RFC 2181).
pub open spec fn spec_clamp_ttl(raw: u32) -> u32 {
    if raw >= 0x8000_0000 {
        0
    } else {
        raw
    }
}

/// Decodes a resource record at `pos`.
pub open spec fn spec_decode_rr(buf: Seq<u8>, pos: int) -> Result<(RecordV, int), Error> {
    match spec_decode_name(buf, pos) {
        Err(e) => Err(e),
        Ok((name, p1)) => match spec_read_u16(buf, p1) {
            Err(e) => Err(e),
            Ok((t, p2)) => match spec_read_u16(buf, p2) {
                Err(e) => Err(e),
                Ok((c, p3)) => match spec_class_from_u16(c) {
                    Err(e) => Err(e),
                    Ok(class) => match spec_read_u32(buf, p3) {
                        Err(e) => Err(e),
                        Ok((ttl_raw, p4)) => match spec_read_u16(buf, p4) {
                            Err(e) => Err(e),
                            Ok((rdlength, p5)) => match spec_decode_rdata(
                                buf,
                                p5,
                                spec_type_from_u16(t),
                                rdlength,
                            ) {
                                Err(e) => Err(e),
                                Ok((rdata, p6)) => Ok(
                                    (
                                        RecordV {
                                            name,
                                            rtype: spec_type_from_u16(t),
                                            class,
                                            ttl: spec_clamp_ttl(ttl_raw),
                                            rdata,
                                        },
                                        p6,
                                    ),
                                ),
                            },
                        },
                    },
                },
            },
        },
    }
}

/// Prepends `acc` to a successful section decode; errors pass through.
pub open spec fn prepend<T>(acc: Seq<T>, r: Result<(Seq<T>, int), Error>) -> Result<
    (Seq<T>, int),
    Error,
> {
    match r {
        Ok((xs, p)) => Ok((acc + xs, p)),
        Err(e) => Err(e),
    }
}

/// Decodes `n` consecutive questions at `pos`.
pub open spec fn spec_decode_questions(buf: Seq<u8>, pos: int, n: nat) -> Result<
    (Seq<QuestionV>, int),
    Error,
>
    decreases n,
{
    if n == 0 {
        Ok((Seq::empty(), pos))
    } else {
        match spec_decode_question(buf, pos) {
            Err(e) => Err(e),
            Ok((q, p)) => prepend(seq![q], spec_decode_questions(buf, p, (n - 1) as nat)),
        }
    }
}

/// Decodes `n` consecutive resource records at `pos`.
pub open spec fn spec_decode_rrs(buf: Seq<u8>, pos: int, n: nat) -> Result<
    (Seq<RecordV>, int),
    Error,
>
    decreases n,
{
    if n == 0 {
        Ok((Seq::empty(), pos))
    } else {
        match spec_decode_rr(buf, pos) {
            Err(e) => Err(e),
            Ok((r, p)) => prepend(seq![r], spec_decode_rrs(buf, p, (n - 1) as nat)),
        }
    }
}

/// Decodes a whole message from `buf`. Bytes after the last declared record
/// are ignored.
#[verifier::opaque]
pub open spec fn spec_decode_message(buf: Seq<u8>) -> Result<MessageV, Error> {
    match spec_decode_header(buf, 0) {
        Err(e) => Err(e),
        Ok((header, qc, ac, nsc, arc, p0)) => match spec_decode_questions(buf, p0, qc as nat) {
            Err(e) => Err(e),
            Ok((questions, p1)) => match spec_decode_rrs(buf, p1, ac as nat) {
                Err(e) => Err(e),
                Ok((answers, p2)) => match spec_decode_rrs(buf, p2, nsc as nat) {
                    Err(e) => Err(e),
                    Ok((authorities, p3)) => match spec_decode_rrs(buf, p3, arc as nat) {
                        Err(e) => Err(e),
                        Ok((additionals, _p4)) => Ok(
                            MessageV { header, questions, answers, authorities, additionals },
                        ),
                    },
                },
            },
        },
    }
}

/// The encoding of a question written at absolute offset `at`.
pub open spec fn spec_encode_question(q: QuestionV, at: int) -> Result<Seq<u8>, Error> {
    match spec_encode_name(q.name, at) {
        Err(e) => Err(e),
        Ok(nb) => Ok(nb + be16(spec_type_to_u16(q.qtype)) + be16(spec_class_to_u16(q.qclass))),
    }
}

/// The encoding of a resource record written at absolute offset `at`. Its
/// type field is the type of its `rdata`.
pub open spec fn spec_encode_rr(r: RecordV, at: int) -> Result<Seq<u8>, Error> {
    match spec_encode_name(r.name, at) {
        Err(e) => Err(e),
        Ok(nb) => {
            let fixed = be16(spec_type_to_u16(spec_rdata_type(r.rdata))) + be16(
                spec_class_to_u16(r.class),
            ) + be32(r.ttl);
            match spec_encode_rdata(r.rdata, at + nb.len() + 10) {
                Err(e) => Err(e),
                Ok(rb) => if rb.len() > 65535 {
                    Err(Error::MessageTooLong)
                } else {
                    Ok(nb + fixed + be16(rb.len() as u16) + rb)
                },
            }
        },
    }
}

/// Encodes questions `qs[i..]` written at absolute offset `at`.
pub open spec fn enc_questions(qs: Seq<QuestionV>, i: int, at: int) -> Result<Seq<u8>, Error>
    decreases qs.len() - i,
{
    if i < 0 || i >= qs.len() {
        Ok(Seq::empty())
    } else {
        match spec_encode_question(qs[i], at) {
            Err(e) => Err(e),
            Ok(b) => rcat(b, enc_questions(qs, i + 1, at + b.len())),
        }
    }
}

/// Encodes records `rs[i..]` written at absolute offset `at`.
pub open spec fn enc_rrs(rs: Seq<RecordV>, i: int, at: int) -> Result<Seq<u8>, Error>
    decreases rs.len() - i,
{
    if i < 0 || i >= rs.len() {
        Ok(Seq::empty())
    } else {
        match spec_encode_rr(rs[i], at) {
            Err(e) => Err(e),
            Ok(b) => rcat(b, enc_rrs(rs, i + 1, at + b.len())),
        }
    }
}

/// Encodes the three resource-record sections written at absolute offset
/// `at`.
pub open spec fn spec_encode_rr_sections(m: MessageV, at: int) -> Result<Seq<u8>, Error> {
    match enc_rrs(m.answers, 0, at) {
        Err(e) => Err(e),
        Ok(b1) => match enc_rrs(m.authorities, 0, at + b1.len()) {
            Err(e) => Err(e),
            Ok(b2) => match enc_rrs(m.additionals, 0, at + b1.len() + b2.len()) {
                Err(e) => Err(e),
                Ok(b3) => Ok(b1 + b2 + b3),
            },
        },
    }
}

/// Encodes the four sections (everything after the header) written at
/// absolute offset `at`.
#[verifier::opaque]
pub open spec fn spec_encode_body(m: MessageV, at: int) -> Result<Seq<u8>, Error> {
    match enc_questions(m.questions, 0, at) {
        Err(e) => Err(e),
        Ok(qb) => rcat(qb, spec_encode_rr_sections(m, at + qb.len())),
    }
}

/// The bytes a message appends to a buffer that already holds `at` bytes.
/// Fails when a section has more than 65535 entries, when a name, label,
/// string, or `RDATA` is too long, or when the message's own encoding, from
/// its header on, would exceed 65535 bytes; the bytes already in the buffer
/// do not count toward that limit.
#[verifier::opaque]
pub open spec fn spec_encode_message(m: MessageV, at: int) -> Result<Seq<u8>, Error> {
    if m.questions.len() > 65535 || m.answers.len() > 65535 || m.authorities.len() > 65535
        || m.additionals.len() > 65535 {
        Err(Error::MessageTooLong)
    } else {
        let hb = spec_encode_header(
            m.header,
            m.questions.len() as u16,
            m.answers.len() as u16,
            m.authorities.len() as u16,
            m.additionals.len() as u16,
        );
        match spec_encode_body(m, at + 12) {
            Err(e) => Err(e),
            Ok(body) => if 12 + body.len() > 65535 {
                Err(Error::MessageTooLong)
            } else {
                Ok(hb + body)
            },
        }
    }
}

/// An encoded message fits the 65535-byte limit, wherever in a buffer it
/// is written.
pub proof fn lemma_encoded_message_fits(m: MessageV, at: int)
    requires
        spec_encode_message(m, at) is Ok,
    ensures
        spec_encode_message(m, at)->Ok_0.len() <= 65535,
{
    reveal(spec_encode_message);
    let hb = spec_encode_header(
        m.header,
        m.questions.len() as u16,
        m.answers.len() as u16,
        m.authorities.len() as u16,
        m.additionals.len() as u16,
    );
    assert(hb.len() == 12);
}

// ---------------------------------------------------------------------
// Executable codec
// ---------------------------------------------------------------------
/// Decodes the 12-byte header at `*pos`, returning the header and its
/// four section counts. On error `pos` is unchanged.
pub fn decode_header(buf: &[u8], pos: &mut usize) -> (r: Result<
    (Header, u16, u16, u16, u16),
    Error,
>)
    ensures
        match spec_decode_header(buf@, *old(pos) as int) {
            Ok((h, qc, ac, nsc, arc, p)) => r == Ok::<(Header, u16, u16, u16, u16), Error>(
                (h, qc, ac, nsc, arc),
            ) && *final(pos) == p,
            Err(e) => r == Err::<(Header, u16, u16, u16, u16), Error>(e) && *final(pos) == *old(
                pos,
            ),
        },
{
    if *pos > buf.len() || buf.len() - *pos < 12 {
        return Err(Error::Truncated { len: buf.len() });
    }
    let mut p = *pos;
    let id = match read_u16(buf, &mut p) {
        Ok(v) => v,
        Err(e) => return Err(e),
    };
    let flags = match read_u16(buf, &mut p) {
        Ok(v) => v,
        Err(e) => return Err(e),
    };
    let qdcount = match read_u16(buf, &mut p) {
        Ok(v) => v,
        Err(e) => return Err(e),
    };
    let ancount = match read_u16(buf, &mut p) {
        Ok(v) => v,
        Err(e) => return Err(e),
    };
    let nscount = match read_u16(buf, &mut p) {
        Ok(v) => v,
        Err(e) => return Err(e),
    };
    let arcount = match read_u16(buf, &mut p) {
        Ok(v) => v,
        Err(e) => return Err(e),
    };
    let header = Header {
        id,
        qr: flags >= 0x8000,
        opcode: Opcode::from_u8(((flags / 0x800) % 16) as u8),
        authoritative: (flags / 0x400) % 2 == 1,
        truncated: (flags / 0x200) % 2 == 1,
        recursion_desired: (flags / 0x100) % 2 == 1,
        recursion_available: (flags / 0x80) % 2 == 1,
        rcode: Rcode::from_u8((flags % 16) as u8),
    };
    *pos = p;
    Ok((header, qdcount, ancount, nscount, arcount))
}

/// The header flags word.
pub fn header_flags(header: &Header) -> (r: u16)
    ensures
        r == spec_flags(*header),
{
    let mut flags: u16 = 0;
    if header.qr {
        flags = flags + 0x8000;
    }
    flags = flags + (header.opcode.to_u8() as u16) * 0x800;
    if header.authoritative {
        flags = flags + 0x400;
    }
    if header.truncated {
        flags = flags + 0x200;
    }
    if header.recursion_desired {
        flags = flags + 0x100;
    }
    if header.recursion_available {
        flags = flags + 0x80;
    }
    flags = flags + header.rcode.to_u8() as u16;
    flags
}

/// Appends the 12-byte header encoding with the given section counts.
pub fn encode_header(header: &Header, counts: (u16, u16, u16, u16), buf: &mut Vec<u8>)
    ensures
        final(buf)@ == old(buf)@ + spec_encode_header(
            *header,
            counts.0,
            counts.1,
            counts.2,
            counts.3,
        ),
{
    let flags = header_flags(header);
    write_u16(buf, header.id);
    write_u16(buf, flags);
    write_u16(buf, counts.0);
    write_u16(buf, counts.1);
    write_u16(buf, counts.2);
    write_u16(buf, counts.3);
    assert(buf@ =~= old(buf)@ + spec_encode_header(
        *header,
        counts.0,
        counts.1,
        counts.2,
        counts.3,
    ));
}

/// Decodes a question at `*pos`. On error `pos` is unchanged.
pub fn decode_question(buf: &[u8], pos: &mut usize) -> (r: Result<Question, Error>)
    ensures
        match spec_decode_question(buf@, *old(pos) as int) {
            Ok((q, p)) => (r matches Ok(x) && x@ == q) && *final(pos) == p,
            Err(e) => r == Err::<Question, Error>(e) && *final(pos) == *old(pos),
        },
{
    let mut p = *pos;
    let name = match decode_name(buf, &mut p) {
        Ok(n) => n,
        Err(e) => return Err(e),
    };
    let t = match read_u16(buf, &mut p) {
        Ok(v) => v,
        Err(e) => return Err(e),
    };
    let c = match read_u16(buf, &mut p) {
        Ok(v) => v,
        Err(e) => return Err(e),
    };
    let qclass = match Class::from_u16(c) {
        Ok(x) => x,
        Err(e) => return Err(e),
    };
    *pos = p;
    Ok(Question { name, qtype: RecordType::from_u16(t), qclass })
}

/// Appends a question's encoding.
pub fn encode_question(question: &Question, buf: &mut Vec<u8>) -> (r: Result<(), Error>)
    ensures
        extends(old(buf)@, final(buf)@),
        match spec_encode_question(question@, old(buf)@.len() as int) {
            Ok(b) => r is Ok && final(buf)@ == old(buf)@ + b,
            Err(e) => r == Err::<(), Error>(e),
        },
{
    let ghost b0 = buf@;
    let r = encode_name(&question.name, buf);
    if r.is_err() {
        return r;
    }
    let ghost b1 = buf@;
    write_u16(buf, question.qtype.to_u16());
    write_u16(buf, question.qclass.to_u16());
    proof {
        let nb = spec_encode_name(question.name@, b0.len() as int)->Ok_0;
        assert(buf@ =~= b0 + (nb + be16(spec_type_to_u16(question.qtype)) + be16(
            spec_class_to_u16(question.qclass),
        )));
        assert(buf@.subrange(0, b0.len() as int) =~= b0);
    }
    Ok(())
}

/// Decodes a resource record at `*pos`. On error `pos` is unchanged.
pub fn decode_rr(buf: &[u8], pos: &mut usize) -> (r: Result<ResourceRecord, Error>)
    ensures
        match spec_decode_rr(buf@, *old(pos) as int) {
            Ok((x, p)) => (r matches Ok(y) && y@ == x) && *final(pos) == p,
            Err(e) => r == Err::<ResourceRecord, Error>(e) && *final(pos) == *old(pos),
        },
{
    let mut p = *pos;
    let name = match decode_name(buf, &mut p) {
        Ok(n) => n,
        Err(e) => return Err(e),
    };
    let t = match read_u16(buf, &mut p) {
        Ok(v) => v,
        Err(e) => return Err(e),
    };
    let rtype = RecordType::from_u16(t);
    let c = match read_u16(buf, &mut p) {
        Ok(v) => v,
        Err(e) => return Err(e),
    };
    let class = match Class::from_u16(c) {
        Ok(x) => x,
        Err(e) => return Err(e),
    };
    let ttl_raw = match read_u32(buf, &mut p) {
        Ok(v) => v,
        Err(e) => return Err(e),
    };
    let ttl = if ttl_raw >= 0x8000_0000 {
        0
    } else {
        ttl_raw
    };
    let rdlength = match read_u16(buf, &mut p) {
        Ok(v) => v,
        Err(e) => return Err(e),
    };
    let rdata = match RData::decode(buf, &mut p, rtype, rdlength) {
        Ok(d) => d,
        Err(e) => return Err(e),
    };
    *pos = p;
    Ok(ResourceRecord { name, rtype, class, ttl, rdata })
}

/// Appends a resource record's encoding; its `RDLENGTH` is back-filled
/// once the `RDATA` is written.
pub fn encode_rr(rr: &ResourceRecord, buf: &mut Vec<u8>) -> (r: Result<(), Error>)
    ensures
        extends(old(buf)@, final(buf)@),
        match spec_encode_rr(rr@, old(buf)@.len() as int) {
            Ok(b) => r is Ok && final(buf)@ == old(buf)@ + b,
            Err(e) => r == Err::<(), Error>(e),
        },
{
    let ghost b0 = buf@;
    let r = encode_name(&rr.name, buf);
    if r.is_err() {
        return r;
    }
    let ghost b1 = buf@;
    write_u16(buf, rr.rdata.record_type().to_u16());
    write_u16(buf, rr.class.to_u16());
    write_u32(buf, rr.ttl);
    let placeholder = buf.len();
    buf.push(0);
    buf.push(0);
    let start = buf.len();
    let ghost b2 = buf@;
    let r2 = rr.rdata.encode(buf);
    if r2.is_err() {
        proof {
            assert(buf@.subrange(0, b2.len() as int) == b2);
            assert(buf@.subrange(0, b0.len() as int) =~= b0);
        }
        return r2;
    }
    let len = buf.len() - start;
    if len > 65535 {
        proof {
            assert(buf@.subrange(0, b2.len() as int) == b2);
            assert(buf@.subrange(0, b0.len() as int) =~= b0);
        }
        return Err(Error::MessageTooLong);
    }
    let len16 = len as u16;
    let ghost b3 = buf@;
    buf.set(placeholder, (len16 / 256) as u8);
    buf.set(placeholder + 1, (len16 % 256) as u8);
    proof {
        let nb = spec_encode_name(rr.name@, b0.len() as int)->Ok_0;
        let fixed = be16(spec_type_to_u16(spec_rdata_type(rr.rdata@))) + be16(
            spec_class_to_u16(rr.class),
        ) + be32(rr.ttl);
        let rb = spec_encode_rdata(rr.rdata@, b2.len() as int)->Ok_0;
        assert(b1 == b0 + nb);
        assert(b2 =~= b0 + nb + fixed + seq![0u8, 0u8]);
        assert(b3 == b2 + rb);
        assert(rb.len() == len);
        assert(buf@ =~= b0 + (nb + fixed + be16(rb.len() as u16) + rb));
        assert(buf@.subrange(0, b0.len() as int) =~= b0);
    }
    Ok(())
}

fn encode_questions(qs: &Vec<Question>, buf: &mut Vec<u8>) -> (r: Result<(), Error>)
    ensures
        extends(old(buf)@, final(buf)@),
        match enc_questions(questions_view(qs@), 0, old(buf)@.len() as int) {
            Ok(b) => r is Ok && final(buf)@ == old(buf)@ + b,
            Err(e) => r == Err::<(), Error>(e),
        },
{
    let ghost b0 = buf@;
    let ghost qv = questions_view(qs@);
    proof {
        lemma_questions_view(qs@);
        assert(buf@.subrange(b0.len() as int, buf@.len() as int) =~= Seq::<u8>::empty());
        if let Ok(b) = enc_questions(qv, 0, b0.len() as int) {
            assert(Seq::<u8>::empty() + b =~= b);
        }
        assert(buf@.subrange(0, b0.len() as int) =~= b0);
    }
    let mut i: usize = 0;
    while i < qs.len()
        invariant
            qv == questions_view(qs@),
            qv.len() == qs@.len(),
            0 <= i <= qv.len(),
            extends(b0, buf@),
            b0 == old(buf)@,
            enc_questions(qv, 0, b0.len() as int) == rcat(
                buf@.subrange(b0.len() as int, buf@.len() as int),
                enc_questions(qv, i as int, buf@.len() as int),
            ),
        decreases qv.len() - i,
    {
        proof {
            lemma_questions_view(qs@);
        }
        let ghost before = buf@;
        let r = encode_question(&qs[i], buf);
        if r.is_err() {
            proof {
                assert(buf@.subrange(0, before.len() as int) == before);
                assert(buf@.subrange(0, b0.len() as int) =~= b0);
            }
            return r;
        }
        proof {
            let piece = spec_encode_question(qv[i as int], before.len() as int)->Ok_0;
            lemma_rcat_assoc(
                before.subrange(b0.len() as int, before.len() as int),
                piece,
                enc_questions(qv, i + 1, buf@.len() as int),
            );
            assert(before.subrange(b0.len() as int, before.len() as int) + piece =~= buf@.subrange(
                b0.len() as int,
                buf@.len() as int,
            ));
            assert(buf@.subrange(0, b0.len() as int) =~= b0);
        }
        i = i + 1;
    }
    proof {
        assert(buf@ =~= b0 + buf@.subrange(b0.len() as int, buf@.len() as int));
        assert(buf@.subrange(b0.len() as int, buf@.len() as int) + Seq::<u8>::empty()
            =~= buf@.subrange(b0.len() as int, buf@.len() as int));
    }
    Ok(())
}

fn encode_rrs(rs: &Vec<ResourceRecord>, buf: &mut Vec<u8>) -> (r: Result<(), Error>)
    ensures
        extends(old(buf)@, final(buf)@),
        match enc_rrs(records_view(rs@), 0, old(buf)@.len() as int) {
            Ok(b) => r is Ok && final(buf)@ == old(buf)@ + b,
            Err(e) => r == Err::<(), Error>(e),
        },
{
    let ghost b0 = buf@;
    let ghost rv = records_view(rs@);
    proof {
        lemma_records_view(rs@);
        assert(buf@.subrange(b0.len() as int, buf@.len() as int) =~= Seq::<u8>::empty());
        if let Ok(b) = enc_rrs(rv, 0, b0.len() as int) {
            assert(Seq::<u8>::empty() + b =~= b);
        }
        assert(buf@.subrange(0, b0.len() as int) =~= b0);
    }
    let mut i: usize = 0;
    while i < rs.len()
        invariant
            rv == records_view(rs@),
            rv.len() == rs@.len(),
            0 <= i <= rv.len(),
            extends(b0, buf@),
            b0 == old(buf)@,
            enc_rrs(rv, 0, b0.len() as int) == rcat(
                buf@.subrange(b0.len() as int, buf@.len() as int),
                enc_rrs(rv, i as int, buf@.len() as int),
            ),
        decreases rv.len() - i,
    {
        proof {
            lemma_records_view(rs@);
        }
        let ghost before = buf@;
        let r = encode_rr(&rs[i], buf);
        if r.is_err() {
            proof {
                assert(buf@.subrange(0, before.len() as int) == before);
                assert(buf@.subrange(0, b0.len() as int) =~= b0);
            }
            return r;
        }
        proof {
            let piece = spec_encode_rr(rv[i as int], before.len() as int)->Ok_0;
            lemma_rcat_assoc(
                before.subrange(b0.len() as int, before.len() as int),
                piece,
                enc_rrs(rv, i + 1, buf@.len() as int),
            );
            assert(before.subrange(b0.len() as int, before.len() as int) + piece =~= buf@.subrange(
                b0.len() as int,
                buf@.len() as int,
            ));
            assert(buf@.subrange(0, b0.len() as int) =~= b0);
        }
        i = i + 1;
    }
    proof {
        assert(buf@ =~= b0 + buf@.subrange(b0.len() as int, buf@.len() as int));
        assert(buf@.subrange(b0.len() as int, buf@.len() as int) + Seq::<u8>::empty()
            =~= buf@.subrange(b0.len() as int, buf@.len() as int));
    }
    Ok(())
}

fn decode_questions(buf: &[u8], pos: &mut usize, n: u16) -> (r: Result<Vec<Question>, Error>)
    ensures
        match spec_decode_questions(buf@, *old(pos) as int, n as nat) {
            Ok((qs, p)) => (r matches Ok(v) && questions_view(v@) == qs) && *final(pos) == p,
            Err(e) => r == Err::<Vec<Question>, Error>(e) && *final(pos) == *old(pos),
        },
{
    let mut p = *pos;
    let mut out: Vec<Question> = Vec::with_capacity(n as usize);
    let mut i: u16 = 0;
    proof {
        assert(questions_view(out@) =~= Seq::<QuestionV>::empty());
        assert(prepend(Seq::<QuestionV>::empty(), spec_decode_questions(buf@, p as int, n as nat))
            =~= spec_decode_questions(buf@, p as int, n as nat)) by {
            if let Ok((qs, q)) = spec_decode_questions(buf@, p as int, n as nat) {
                assert(Seq::<QuestionV>::empty() + qs =~= qs);
            }
        }
    }
    while i < n
        invariant
            0 <= i <= n,
            *pos == *old(pos),
            spec_decode_questions(buf@, *old(pos) as int, n as nat) == prepend(
                questions_view(out@),
                spec_decode_questions(buf@, p as int, (n - i) as nat),
            ),
        decreases n - i,
    {
        let q = match decode_question(buf, &mut p) {
            Ok(x) => x,
            Err(e) => return Err(e),
        };
        let ghost old_out = out@;
        out.push(q);
        proof {
            lemma_questions_view(out@);
            lemma_questions_view(old_out);
            assert(questions_view(out@) =~= questions_view(old_out) + seq![q@]);
            let rest = spec_decode_questions(buf@, p as int, (n - i - 1) as nat);
            if let Ok((xs, pp)) = rest {
                assert(questions_view(old_out) + (seq![q@] + xs) =~= questions_view(out@) + xs);
            }
        }
        i = i + 1;
    }
    *pos = p;
    proof {
        assert(questions_view(out@) + Seq::<QuestionV>::empty() =~= questions_view(out@));
    }
    Ok(out)
}

fn decode_rrs(buf: &[u8], pos: &mut usize, n: u16) -> (r: Result<Vec<ResourceRecord>, Error>)
    ensures
        match spec_decode_rrs(buf@, *old(pos) as int, n as nat) {
            Ok((rs, p)) => (r matches Ok(v) && records_view(v@) == rs) && *final(pos) == p,
            Err(e) => r == Err::<Vec<ResourceRecord>, Error>(e) && *final(pos) == *old(pos),
        },
{
    let mut p = *pos;
    let mut out: Vec<ResourceRecord> = Vec::with_capacity(n as usize);
    let mut i: u16 = 0;
    proof {
        assert(records_view(out@) =~= Seq::<RecordV>::empty());
        assert(prepend(Seq::<RecordV>::empty(), spec_decode_rrs(buf@, p as int, n as nat))
            =~= spec_decode_rrs(buf@, p as int, n as nat)) by {
            if let Ok((rs, q)) = spec_decode_rrs(buf@, p as int, n as nat) {
                assert(Seq::<RecordV>::empty() + rs =~= rs);
            }
        }
    }
    while i < n
        invariant
            0 <= i <= n,
            *pos == *old(pos),
            spec_decode_rrs(buf@, *old(pos) as int, n as nat) == prepend(
                records_view(out@),
                spec_decode_rrs(buf@, p as int, (n - i) as nat),
            ),
        decreases n - i,
    {
        let x = match decode_rr(buf, &mut p) {
            Ok(x) => x,
            Err(e) => return Err(e),
        };
        let ghost old_out = out@;
        out.push(x);
        proof {
            lemma_records_view(out@);
            lemma_records_view(old_out);
            assert(records_view(out@) =~= records_view(old_out) + seq![x@]);
            let rest = spec_decode_rrs(buf@, p as int, (n - i - 1) as nat);
            if let Ok((xs, pp)) = rest {
                assert(records_view(old_out) + (seq![x@] + xs) =~= records_view(out@) + xs);
            }
        }
        i = i + 1;
    }
    *pos = p;
    proof {
        assert(records_view(out@) + Seq::<RecordV>::empty() =~= records_view(out@));
    }
    Ok(out)
}

impl Message {
    /// Decodes a message from its wire representation.
    pub fn decode(bytes: &[u8]) -> (r: Result<Message, Error>)
        ensures
            match spec_decode_message(bytes@) {
                Ok(m) => r matches Ok(x) && x@ == m,
                Err(e) => r == Err::<Message, Error>(e),
            },
    {
        reveal(spec_decode_message);
        let mut pos: usize = 0;
        let (header, qc, ac, nsc, arc) = match decode_header(bytes, &mut pos) {
            Ok(h) => h,
            Err(e) => return Err(e),
        };
        let questions = match decode_questions(bytes, &mut pos, qc) {
            Ok(v) => v,
            Err(e) => return Err(e),
        };
        let answers = match decode_rrs(bytes, &mut pos, ac) {
            Ok(v) => v,
            Err(e) => return Err(e),
        };
        let authorities = match decode_rrs(bytes, &mut pos, nsc) {
            Ok(v) => v,
            Err(e) => return Err(e),
        };
        let additionals = match decode_rrs(bytes, &mut pos, arc) {
            Ok(v) => v,
            Err(e) => return Err(e),
        };
        Ok(Message { header, questions, answers, authorities, additionals })
    }

    /// Encodes this message to a freshly allocated buffer.
    pub fn encode(&self) -> (r: Result<Vec<u8>, Error>)
        ensures
            match spec_encode_message(self@, 0) {
                Ok(b) => r matches Ok(v) && v@ == b,
                Err(e) => r == Err::<Vec<u8>, Error>(e),
            },
    {
        let mut buf: Vec<u8> = Vec::new();
        match self.encode_into(&mut buf) {
            Ok(()) => {
                assert(Seq::<u8>::empty() + spec_encode_message(self@, 0)->Ok_0 =~= spec_encode_message(self@, 0)->Ok_0);
                Ok(buf)
            },
            Err(e) => Err(e),
        }
    }

    /// Encodes this message, appending to `buf`. The 65535-byte limit
    /// applies to the message's own encoding, whatever `buf` held before.
    #[verifier::rlimit(50)]
    pub fn encode_into(&self, buf: &mut Vec<u8>) -> (r: Result<(), Error>)
        ensures
            extends(old(buf)@, final(buf)@),
            match spec_encode_message(self@, old(buf)@.len() as int) {
                Ok(b) => r is Ok && final(buf)@ == old(buf)@ + b,
                Err(e) => r == Err::<(), Error>(e),
            },
    {
        reveal(spec_encode_message);
        let ghost b0 = buf@;
        proof {
            lemma_questions_view(self.questions@);
            lemma_records_view(self.answers@);
            lemma_records_view(self.authorities@);
            lemma_records_view(self.additionals@);
            assert(buf@.subrange(0, b0.len() as int) =~= b0);
        }
        if self.questions.len() > 65535 || self.answers.len() > 65535 || self.authorities.len()
            > 65535 || self.additionals.len() > 65535 {
            return Err(Error::MessageTooLong);
        }
        let start = buf.len();
        let qc = self.questions.len() as u16;
        let ac = self.answers.len() as u16;
        let nsc = self.authorities.len() as u16;
        let arc = self.additionals.len() as u16;
        encode_header(&self.header, (qc, ac, nsc, arc), buf);
        let ghost b1 = buf@;
        let r = self.encode_body(buf);
        if r.is_err() {
            proof {
                assert(buf@.subrange(0, b1.len() as int) == b1);
                assert(buf@.subrange(0, b0.len() as int) =~= b0);
            }
            return r;
        }
        proof {
            assert(buf@.subrange(0, b1.len() as int) == b1);
            assert(buf@.subrange(0, b0.len() as int) =~= b0);
        }
        if buf.len() - start > 65535 {
            return Err(Error::MessageTooLong);
        }
        proof {
            let m = self@;
            let hb = spec_encode_header(m.header, qc, ac, nsc, arc);
            let body = spec_encode_body(m, b1.len() as int)->Ok_0;
            assert(buf@ =~= b0 + (hb + body));
        }
        Ok(())
    }

    fn encode_body(&self, buf: &mut Vec<u8>) -> (r: Result<(), Error>)
        ensures
            extends(old(buf)@, final(buf)@),
            match spec_encode_body(self@, old(buf)@.len() as int) {
                Ok(b) => r is Ok && final(buf)@ == old(buf)@ + b,
                Err(e) => r == Err::<(), Error>(e),
            },
    {
        reveal(spec_encode_body);
        let ghost b0 = buf@;
        let r = encode_questions(&self.questions, buf);
        if r.is_err() {
            return r;
        }
        let ghost b1 = buf@;
        let r = self.encode_rr_sections(buf);
        proof {
            assert(buf@.subrange(0, b1.len() as int) == b1);
            assert(buf@.subrange(0, b0.len() as int) =~= b0);
            if r.is_ok() {
                let qb = enc_questions(self@.questions, 0, b0.len() as int)->Ok_0;
                let rest = spec_encode_rr_sections(self@, b1.len() as int)->Ok_0;
                assert(buf@ =~= b0 + (qb + rest));
            }
        }
        r
    }

    fn encode_rr_sections(&self, buf: &mut Vec<u8>) -> (r: Result<(), Error>)
        ensures
            extends(old(buf)@, final(buf)@),
            match spec_encode_rr_sections(self@, old(buf)@.len() as int) {
                Ok(b) => r is Ok && final(buf)@ == old(buf)@ + b,
                Err(e) => r == Err::<(), Error>(e),
            },
    {
        let ghost b0 = buf@;
        let r = encode_rrs(&self.answers, buf);
        if r.is_err() {
            return r;
        }
        let ghost b1 = buf@;
        let r = encode_rrs(&self.authorities, buf);
        if r.is_err() {
            proof {
                assert(buf@.subrange(0, b1.len() as int) == b1);
                assert(buf@.subrange(0, b0.len() as int) =~= b0);
            }
            return r;
        }
        let ghost b2 = buf@;
        let r = encode_rrs(&self.additionals, buf);
        proof {
            assert(buf@.subrange(0, b2.len() as int) == b2);
            assert(buf@.subrange(0, b1.len() as int) =~= b1);
            assert(buf@.subrange(0, b0.len() as int) =~= b0);
            if r.is_ok() {
                let x1 = enc_rrs(self@.answers, 0, b0.len() as int)->Ok_0;
                let x2 = enc_rrs(self@.authorities, 0, b1.len() as int)->Ok_0;
                let x3 = enc_rrs(self@.additionals, 0, b2.len() as int)->Ok_0;
                assert(buf@ =~= b0 + (x1 + x2 + x3));
            }
        }
        r
    }
}

/// The RCODE values of RFC 1035 §4.1.1 on the wire: decoding a header
/// reads its response code from the low four bits of its fourth byte, as 0
/// NoError, 1 FormErr, 2 ServFail, 3 NxDomain, 4 NotImp, 5 Refused, and any
/// other value as `Other` of that value.
pub proof fn lemma_decoded_rcode(buf: Seq<u8>, pos: int)
    requires
        0 <= pos,
        pos + 12 <= buf.len(),
    ensures
        ({
            let rc = spec_decode_header(buf, pos)->Ok_0.0.rcode;
            let v = buf[pos + 3] % 16;
            &&& (v == 0 <==> rc == Rcode::NoError)
            &&& (v == 1 <==> rc == Rcode::FormErr)
            &&& (v == 2 <==> rc == Rcode::ServFail)
            &&& (v == 3 <==> rc == Rcode::NxDomain)
            &&& (v == 4 <==> rc == Rcode::NotImp)
            &&& (v == 5 <==> rc == Rcode::Refused)
            &&& (v > 5 ==> rc == Rcode::Other(v))
        }),
{
    let hi = buf[pos + 2] as int;
    let lo = buf[pos + 3] as int;
    let flags = u16_at(buf, pos + 2);
    assert(flags as int == hi * 256 + lo);
    assert((hi * 256 + lo) % 16 == lo % 16) by (nonlinear_arith)
        requires
            0 <= hi < 256,
            0 <= lo < 256,
    ;
}

/// The RCODE values of RFC 1035 §4.1.1 on the wire: an encoded header
/// carries its response code in the low four bits of its fourth byte, as 0
/// NoError, 1 FormErr, 2 ServFail, 3 NxDomain, 4 NotImp, 5 Refused, and
/// `Other(v)` as the low four bits of `v`.
pub proof fn lemma_encoded_rcode(h: Header, qc: u16, ac: u16, nsc: u16, arc: u16)
    ensures
        spec_encode_header(h, qc, ac, nsc, arc).len() == 12,
        spec_encode_header(h, qc, ac, nsc, arc)[3] % 16 == match h.rcode {
            Rcode::NoError => 0,
            Rcode::FormErr => 1,
            Rcode::ServFail => 2,
            Rcode::NxDomain => 3,
            Rcode::NotImp => 4,
            Rcode::Refused => 5,
            Rcode::Other(v) => v % 16,
        },
{
    let b = spec_encode_header(h, qc, ac, nsc, arc);
    let rc = spec_rcode_to_u8(h.rcode) as int;
    let op = spec_opcode_to_u8(h.opcode) as int;
    let hiv = (if h.qr {
        0x8000int
    } else {
        0
    }) + op * 0x800 + (if h.authoritative {
        0x400int
    } else {
        0
    }) + (if h.truncated {
        0x200int
    } else {
        0
    }) + (if h.recursion_desired {
        0x100int
    } else {
        0
    }) + (if h.recursion_available {
        0x80int
    } else {
        0
    });
    assert(0 <= op < 16 && 0 <= rc < 16);
    let k = hiv / 16;
    assert(hiv == k * 16) by (nonlinear_arith)
        requires
            hiv == (if h.qr {
                0x8000int
            } else {
                0
            }) + op * 0x800 + (if h.authoritative {
                0x400int
            } else {
                0
            }) + (if h.truncated {
                0x200int
            } else {
                0
            }) + (if h.recursion_desired {
                0x100int
            } else {
                0
            }) + (if h.recursion_available {
                0x80int
            } else {
                0
            }),
            k == hiv / 16,
    ;
    assert(0 <= hiv + rc <= 0xffff);
    let f = spec_flags(h);
    assert(f as int == hiv + rc);
    assert(b[3] == (f % 256) as u8);
    assert(((k * 16 + rc) % 256) % 16 == rc) by (nonlinear_arith)
        requires
            0 <= rc < 16,
            k >= 0,
    ;
}

} // verus!

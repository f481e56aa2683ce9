//! The wire codec's round-trip law: decoding what encoding produced gives
//! back the original message, for every well-formed message.

use vstd::prelude::*;

use crate::message::{
    Header, MessageV, Opcode, QuestionV, RecordV, enc_questions, enc_rrs, opcode_wf, prepend,
    rcode_wf, spec_clamp_ttl, spec_decode_header, spec_decode_message, spec_decode_question,
    spec_decode_questions, spec_decode_rr, spec_decode_rrs, spec_encode_body,
    spec_encode_header, spec_encode_message, spec_encode_question, spec_encode_rr,
    spec_encode_rr_sections, spec_flags, spec_header_from_flags, spec_opcode_from_u8,
    spec_opcode_to_u8, spec_rcode_from_u8, spec_rcode_to_u8,
};
use crate::name::labels_wire_len;
use crate::record::{
    RDataV, class_wf, enc_txt_from, record_type_wf, spec_class_from_u16, spec_class_to_u16,
    spec_decode_rdata, spec_encode_rdata, spec_rdata_type, spec_soa_numbers, spec_type_from_u16,
    spec_type_to_u16, txt_walk,
};
use crate::wire::{
    be16, be32, enc_labels_from, name_walk, rcat, spec_decode_name, spec_encode_name,
    spec_read_u16, spec_read_u32, u16_at, u32_at,
};

verus! {

/// A name that encodes and decodes unchanged: every label holds 1 to 63
/// bytes and the whole name encodes to at most 255 bytes.
pub open spec fn name_wf(n: Seq<Seq<u8>>) -> bool {
    &&& labels_wire_len(n) <= 255
    &&& forall|i: int| 0 <= i < n.len() ==> 1 <= #[trigger] n[i].len() <= 63
}

/// `RDATA` that encodes and decodes unchanged.
pub open spec fn rdata_wf(d: RDataV) -> bool {
    match d {
        RDataV::A(o) => o.len() == 4,
        RDataV::Aaaa(o) => o.len() == 16,
        RDataV::Cname(n) => name_wf(n),
        RDataV::Ptr(n) => name_wf(n),
        RDataV::Ns(n) => name_wf(n),
        RDataV::Txt(ss) => forall|i: int| 0 <= i < ss.len() ==> #[trigger] ss[i].len() <= 255,
        RDataV::Mx { exchange, .. } => name_wf(exchange),
        RDataV::Soa { mname, rname, .. } => name_wf(mname) && name_wf(rname),
        RDataV::Unknown { rtype, .. } => record_type_wf(RecordTypeOther(rtype)),
    }
}

/// The `Other` record type carrying `v`.
pub open spec fn RecordTypeOther(v: u16) -> crate::record::RecordType {
    crate::record::RecordType::Other(v)
}

/// A question that encodes and decodes unchanged.
pub open spec fn question_wf(q: QuestionV) -> bool {
    &&& name_wf(q.name)
    &&& record_type_wf(q.qtype)
    &&& class_wf(q.qclass)
}

/// A resource record that encodes and decodes unchanged: its type is the
/// type of its data and its TTL fits the signed 32-bit range.
pub open spec fn record_wf(r: RecordV) -> bool {
    &&& name_wf(r.name)
    &&& class_wf(r.class)
    &&& r.ttl < 0x8000_0000
    &&& rdata_wf(r.rdata)
    &&& r.rtype == spec_rdata_type(r.rdata)
}

/// A header that encodes and decodes unchanged.
pub open spec fn header_wf(h: Header) -> bool {
    opcode_wf(h.opcode) && rcode_wf(h.rcode)
}

/// A message whose every part encodes and decodes unchanged.
pub open spec fn message_wf(m: MessageV) -> bool {
    &&& header_wf(m.header)
    &&& forall|i: int| 0 <= i < m.questions.len() ==> #[trigger] question_wf(m.questions[i])
    &&& forall|i: int| 0 <= i < m.answers.len() ==> #[trigger] record_wf(m.answers[i])
    &&& forall|i: int| 0 <= i < m.authorities.len() ==> #[trigger] record_wf(m.authorities[i])
    &&& forall|i: int| 0 <= i < m.additionals.len() ==> #[trigger] record_wf(m.additionals[i])
}

/// `b` occurs in `buf` at position `p`.
pub open spec fn at_pos(buf: Seq<u8>, p: int, b: Seq<u8>) -> bool {
    &&& 0 <= p
    &&& p + b.len() <= buf.len()
    &&& buf.subrange(p, p + b.len()) == b
}

proof fn lemma_at_pos_split(buf: Seq<u8>, p: int, x: Seq<u8>, y: Seq<u8>)
    requires
        at_pos(buf, p, x + y),
    ensures
        at_pos(buf, p, x),
        at_pos(buf, p + x.len(), y),
{
    let w = buf.subrange(p, p + (x + y).len());
    assert(w == x + y);
    assert forall|k: int| 0 <= k < x.len() implies #[trigger] buf.subrange(p, p + x.len())[k]
        == x[k] by {
        assert(w[k] == buf[p + k]);
        assert(w[k] == (x + y)[k]);
    }
    assert(buf.subrange(p, p + x.len()) =~= x);
    assert forall|k: int| 0 <= k < y.len() implies #[trigger] buf.subrange(
        p + x.len(),
        p + x.len() + y.len(),
    )[k] == y[k] by {
        assert(w[x.len() + k] == buf[p + x.len() + k]);
        assert(w[x.len() + k] == (x + y)[x.len() + k]);
    }
    assert(buf.subrange(p + x.len(), p + x.len() + y.len()) =~= y);
}

proof fn lemma_at_pos_byte(buf: Seq<u8>, p: int, b: Seq<u8>, k: int)
    requires
        at_pos(buf, p, b),
        0 <= k < b.len(),
    ensures
        buf[p + k] == b[k],
{
    assert(buf.subrange(p, p + b.len())[k] == buf[p + k]);
}

proof fn lemma_read_be16(buf: Seq<u8>, p: int, v: u16)
    requires
        at_pos(buf, p, be16(v)),
    ensures
        u16_at(buf, p) == v,
        spec_read_u16(buf, p) == Ok::<(u16, int), crate::error::Error>((v, p + 2)),
{
    lemma_at_pos_byte(buf, p, be16(v), 0);
    lemma_at_pos_byte(buf, p, be16(v), 1);
}

proof fn lemma_read_be32(buf: Seq<u8>, p: int, v: u32)
    requires
        at_pos(buf, p, be32(v)),
    ensures
        u32_at(buf, p) == v,
        spec_read_u32(buf, p) == Ok::<(u32, int), crate::error::Error>((v, p + 4)),
{
    lemma_at_pos_byte(buf, p, be32(v), 0);
    lemma_at_pos_byte(buf, p, be32(v), 1);
    lemma_at_pos_byte(buf, p, be32(v), 2);
    lemma_at_pos_byte(buf, p, be32(v), 3);
    let a = v / 0x1000000;
    let b = (v / 0x10000) % 256;
    let c = (v / 256) % 256;
    let d = v % 256;
    assert(a * 0x1000000 + b * 0x10000 + c * 256 + d == v) by (nonlinear_arith)
        requires
            a == v / 0x1000000,
            b == (v / 0x10000) % 256,
            c == (v / 256) % 256,
            d == v % 256,
    ;
}

proof fn lemma_labels_walk(ls: Seq<Seq<u8>>, i: int, at: int, buf: Seq<u8>, c: int)
    requires
        name_wf(ls),
        0 <= i <= ls.len(),
        enc_labels_from(ls, i, at) is Ok,
        at_pos(buf, c, enc_labels_from(ls, i, at)->Ok_0),
    ensures
        name_walk(buf, c, false, 0, 0, ls.take(i)) == Ok::<(Seq<Seq<u8>>, int), crate::error::Error>(
            (ls, c + enc_labels_from(ls, i, at)->Ok_0.len()),
        ),
    decreases ls.len() - i,
{
    let b = enc_labels_from(ls, i, at)->Ok_0;
    if i == ls.len() {
        lemma_at_pos_byte(buf, c, b, 0);
        assert(ls.take(i) =~= ls);
    } else {
        let len = ls[i].len();
        let head = seq![len as u8] + ls[i];
        let rest = enc_labels_from(ls, i + 1, at + 1 + len)->Ok_0;
        assert(b == head + rest);
        lemma_at_pos_split(buf, c, head, rest);
        lemma_at_pos_byte(buf, c, head, 0);
        lemma_at_pos_split(buf, c, seq![len as u8], ls[i]);
        assert(buf[c] == len);
        assert(ls.take(i).push(ls[i]) =~= ls.take(i + 1));
        lemma_labels_walk(ls, i + 1, at + 1 + len, buf, c + 1 + len);
        assert(b.len() == 1 + len + rest.len());
    }
}

/// Decoding an encoded well-formed name at the position it was written
/// gives back the name and the position just after it.
pub proof fn lemma_name_round_trip(ls: Seq<Seq<u8>>, at: int, buf: Seq<u8>, p: int)
    requires
        name_wf(ls),
        spec_encode_name(ls, at) is Ok,
        at_pos(buf, p, spec_encode_name(ls, at)->Ok_0),
    ensures
        spec_decode_name(buf, p) == Ok::<(Seq<Seq<u8>>, int), crate::error::Error>(
            (ls, p + spec_encode_name(ls, at)->Ok_0.len()),
        ),
{
    assert(ls.take(0) =~= Seq::<Seq<u8>>::empty());
    lemma_labels_walk(ls, 0, at, buf, p);
}

proof fn lemma_txt_walk(ss: Seq<Seq<u8>>, i: int, at: int, buf: Seq<u8>, c: int, end: int, rdl: u16)
    requires
        0 <= i <= ss.len(),
        enc_txt_from(ss, i, at) is Ok,
        at_pos(buf, c, enc_txt_from(ss, i, at)->Ok_0),
        end == c + enc_txt_from(ss, i, at)->Ok_0.len(),
    ensures
        txt_walk(buf, c, end, rdl, ss.take(i)) == Ok::<Seq<Seq<u8>>, crate::error::Error>(ss),
    decreases ss.len() - i,
{
    let b = enc_txt_from(ss, i, at)->Ok_0;
    if i == ss.len() {
        assert(ss.take(i) =~= ss);
    } else {
        let len = ss[i].len();
        let head = seq![len as u8] + ss[i];
        let rest = enc_txt_from(ss, i + 1, at + 1 + len)->Ok_0;
        assert(b == head + rest);
        lemma_at_pos_split(buf, c, head, rest);
        lemma_at_pos_byte(buf, c, head, 0);
        lemma_at_pos_split(buf, c, seq![len as u8], ss[i]);
        assert(buf[c] == len);
        assert(ss.take(i).push(ss[i]) =~= ss.take(i + 1));
        lemma_txt_walk(ss, i + 1, at + 1 + len, buf, c + 1 + len, end, rdl);
    }
}

proof fn lemma_type_round_trip(t: crate::record::RecordType)
    requires
        record_type_wf(t),
    ensures
        spec_type_from_u16(spec_type_to_u16(t)) == t,
{
}

proof fn lemma_class_round_trip(c: crate::record::Class)
    requires
        class_wf(c),
    ensures
        spec_class_from_u16(spec_class_to_u16(c)) == Ok::<crate::record::Class, crate::error::Error>(
            c,
        ),
{
}

proof fn lemma_mx_round_trip(d: RDataV, at: int, buf: Seq<u8>, p: int)
    requires
        d is Mx,
        rdata_wf(d),
        spec_encode_rdata(d, at) is Ok,
        spec_encode_rdata(d, at)->Ok_0.len() <= 65535,
        at_pos(buf, p, spec_encode_rdata(d, at)->Ok_0),
    ensures
        spec_decode_rdata(buf, p, spec_rdata_type(d), spec_encode_rdata(d, at)->Ok_0.len() as u16)
            == Ok::<(RDataV, int), crate::error::Error>(
            (d, p + spec_encode_rdata(d, at)->Ok_0.len()),
        ),
{
    let rb = spec_encode_rdata(d, at)->Ok_0;
    let preference = d->Mx_preference;
    let exchange = d->Mx_exchange;
    let nb = spec_encode_name(exchange, at + 2)->Ok_0;
    assert(rb == be16(preference) + nb);
    lemma_at_pos_split(buf, p, be16(preference), nb);
    lemma_read_be16(buf, p, preference);
    lemma_name_round_trip(exchange, at + 2, buf, p + 2);
}

proof fn lemma_soa_round_trip(d: RDataV, at: int, buf: Seq<u8>, p: int)
    requires
        d is Soa,
        rdata_wf(d),
        spec_encode_rdata(d, at) is Ok,
        spec_encode_rdata(d, at)->Ok_0.len() <= 65535,
        at_pos(buf, p, spec_encode_rdata(d, at)->Ok_0),
    ensures
        spec_decode_rdata(buf, p, spec_rdata_type(d), spec_encode_rdata(d, at)->Ok_0.len() as u16)
            == Ok::<(RDataV, int), crate::error::Error>(
            (d, p + spec_encode_rdata(d, at)->Ok_0.len()),
        ),
{
    let rb = spec_encode_rdata(d, at)->Ok_0;
    let mname = d->Soa_mname;
    let rname = d->Soa_rname;
    let serial = d->Soa_serial;
    let refresh = d->Soa_refresh;
    let retry = d->Soa_retry;
    let expire = d->Soa_expire;
    let minimum = d->Soa_minimum;
    let b1 = spec_encode_name(mname, at)->Ok_0;
    let b2 = spec_encode_name(rname, at + b1.len())->Ok_0;
    let n4 = be32(expire) + be32(minimum);
    let n3 = be32(retry) + n4;
    let n2 = be32(refresh) + n3;
    let nums = be32(serial) + n2;
    assert(rb =~= b1 + (b2 + nums));
    lemma_at_pos_split(buf, p, b1, b2 + nums);
    lemma_at_pos_split(buf, p + b1.len(), b2, nums);
    lemma_name_round_trip(mname, at, buf, p);
    lemma_name_round_trip(rname, at + b1.len(), buf, p + b1.len());
    let q: int = p + b1.len() + b2.len();
    lemma_at_pos_split(buf, q, be32(serial), n2);
    lemma_at_pos_split(buf, q + 4, be32(refresh), n3);
    lemma_at_pos_split(buf, q + 8, be32(retry), n4);
    lemma_at_pos_split(buf, q + 12, be32(expire), be32(minimum));
    lemma_read_be32(buf, q, serial);
    lemma_read_be32(buf, q + 4, refresh);
    lemma_read_be32(buf, q + 8, retry);
    lemma_read_be32(buf, q + 12, expire);
    lemma_read_be32(buf, q + 16, minimum);
    let sn = spec_soa_numbers(buf, q);
    assert(sn == Ok::<(Seq<u32>, int), crate::error::Error>(
        (seq![serial, refresh, retry, expire, minimum], q + 20),
    ));
}

/// Decoding well-formed `RDATA` where it was written, with its own type and
/// length, gives it back.
pub proof fn lemma_rdata_round_trip(d: RDataV, at: int, buf: Seq<u8>, p: int)
    requires
        rdata_wf(d),
        spec_encode_rdata(d, at) is Ok,
        spec_encode_rdata(d, at)->Ok_0.len() <= 65535,
        at_pos(buf, p, spec_encode_rdata(d, at)->Ok_0),
    ensures
        spec_decode_rdata(buf, p, spec_rdata_type(d), spec_encode_rdata(d, at)->Ok_0.len() as u16)
            == Ok::<(RDataV, int), crate::error::Error>(
            (d, p + spec_encode_rdata(d, at)->Ok_0.len()),
        ),
{
    let rb = spec_encode_rdata(d, at)->Ok_0;
    let rdl = rb.len() as u16;
    assert(rdl == rb.len());
    match d {
        RDataV::A(o) => {
            assert(buf.subrange(p, p + 4) == o);
        },
        RDataV::Aaaa(o) => {
            assert(buf.subrange(p, p + 16) == o);
        },
        RDataV::Cname(n) => {
            lemma_name_round_trip(n, at, buf, p);
        },
        RDataV::Ptr(n) => {
            lemma_name_round_trip(n, at, buf, p);
        },
        RDataV::Ns(n) => {
            lemma_name_round_trip(n, at, buf, p);
        },
        RDataV::Txt(ss) => {
            assert(ss.take(0) =~= Seq::<Seq<u8>>::empty());
            lemma_txt_walk(ss, 0, at, buf, p, p + rb.len(), rdl);
        },
        RDataV::Mx { .. } => {
            lemma_mx_round_trip(d, at, buf, p);
        },
        RDataV::Soa { .. } => {
            lemma_soa_round_trip(d, at, buf, p);
        },
        RDataV::Unknown { rtype, data } => {
            assert(buf.subrange(p, p + rb.len()) == data);
        },
    }
}

/// Decoding a well-formed resource record where it was written gives it
/// back.
pub proof fn lemma_rr_round_trip(r: RecordV, at: int, buf: Seq<u8>, p: int)
    requires
        record_wf(r),
        spec_encode_rr(r, at) is Ok,
        at_pos(buf, p, spec_encode_rr(r, at)->Ok_0),
    ensures
        spec_decode_rr(buf, p) == Ok::<(RecordV, int), crate::error::Error>(
            (r, p + spec_encode_rr(r, at)->Ok_0.len()),
        ),
{
    let b = spec_encode_rr(r, at)->Ok_0;
    let nb = spec_encode_name(r.name, at)->Ok_0;
    let t = spec_type_to_u16(spec_rdata_type(r.rdata));
    let c = spec_class_to_u16(r.class);
    let rb = spec_encode_rdata(r.rdata, at + nb.len() + 10)->Ok_0;
    let tail = be16(t) + (be16(c) + (be32(r.ttl) + (be16(rb.len() as u16) + rb)));
    assert(b =~= nb + tail);
    lemma_at_pos_split(buf, p, nb, tail);
    lemma_name_round_trip(r.name, at, buf, p);
    let p1 = p + nb.len();
    lemma_at_pos_split(buf, p1, be16(t), be16(c) + (be32(r.ttl) + (be16(rb.len() as u16) + rb)));
    lemma_at_pos_split(buf, p1 + 2, be16(c), be32(r.ttl) + (be16(rb.len() as u16) + rb));
    lemma_at_pos_split(buf, p1 + 4, be32(r.ttl), be16(rb.len() as u16) + rb);
    lemma_at_pos_split(buf, p1 + 8, be16(rb.len() as u16), rb);
    lemma_read_be16(buf, p1, t);
    lemma_read_be16(buf, p1 + 2, c);
    lemma_read_be32(buf, p1 + 4, r.ttl);
    lemma_read_be16(buf, p1 + 8, rb.len() as u16);
    assert(record_type_wf(spec_rdata_type(r.rdata)));
    lemma_type_round_trip(spec_rdata_type(r.rdata));
    lemma_class_round_trip(r.class);
    lemma_rdata_round_trip(r.rdata, at + nb.len() + 10, buf, p1 + 10);
    assert(spec_clamp_ttl(r.ttl) == r.ttl);
}

/// Decoding a well-formed question where it was written gives it back.
pub proof fn lemma_question_round_trip(q: QuestionV, at: int, buf: Seq<u8>, p: int)
    requires
        question_wf(q),
        spec_encode_question(q, at) is Ok,
        at_pos(buf, p, spec_encode_question(q, at)->Ok_0),
    ensures
        spec_decode_question(buf, p) == Ok::<(QuestionV, int), crate::error::Error>(
            (q, p + spec_encode_question(q, at)->Ok_0.len()),
        ),
{
    let b = spec_encode_question(q, at)->Ok_0;
    let nb = spec_encode_name(q.name, at)->Ok_0;
    let t = spec_type_to_u16(q.qtype);
    let c = spec_class_to_u16(q.qclass);
    assert(b =~= nb + (be16(t) + be16(c)));
    lemma_at_pos_split(buf, p, nb, be16(t) + be16(c));
    lemma_at_pos_split(buf, p + nb.len(), be16(t), be16(c));
    lemma_name_round_trip(q.name, at, buf, p);
    lemma_read_be16(buf, p + nb.len(), t);
    lemma_read_be16(buf, p + nb.len() + 2, c);
    lemma_type_round_trip(q.qtype);
    lemma_class_round_trip(q.qclass);
}

#[verifier::spinoff_prover]
#[verifier::rlimit(50)]
proof fn lemma_questions_round_trip(qs: Seq<QuestionV>, i: int, at: int, buf: Seq<u8>, p: int)
    requires
        0 <= i <= qs.len(),
        forall|j: int| 0 <= j < qs.len() ==> #[trigger] question_wf(qs[j]),
        enc_questions(qs, i, at) is Ok,
        at_pos(buf, p, enc_questions(qs, i, at)->Ok_0),
    ensures
        spec_decode_questions(buf, p, (qs.len() - i) as nat) == Ok::<
            (Seq<QuestionV>, int),
            crate::error::Error,
        >((qs.subrange(i, qs.len() as int), p + enc_questions(qs, i, at)->Ok_0.len())),
    decreases qs.len() - i,
{
    let b = enc_questions(qs, i, at)->Ok_0;
    if i == qs.len() {
        assert(qs.subrange(i, qs.len() as int) =~= Seq::<QuestionV>::empty());
    } else {
        let bq = spec_encode_question(qs[i], at)->Ok_0;
        let rest = enc_questions(qs, i + 1, at + bq.len())->Ok_0;
        assert(b == bq + rest);
        lemma_at_pos_split(buf, p, bq, rest);
        lemma_question_round_trip(qs[i], at, buf, p);
        lemma_questions_round_trip(qs, i + 1, at + bq.len(), buf, p + bq.len());
        assert(seq![qs[i]] + qs.subrange(i + 1, qs.len() as int) =~= qs.subrange(
            i,
            qs.len() as int,
        ));
        assert((qs.len() - i - 1) as nat == ((qs.len() - i) as nat - 1) as nat);
    }
}

/// One step of encoding a record list: the first record's bytes, then the
/// rest's.
proof fn lemma_enc_rrs_step(rs: Seq<RecordV>, i: int, at: int)
    requires
        0 <= i < rs.len(),
        enc_rrs(rs, i, at) is Ok,
    ensures
        spec_encode_rr(rs[i], at) is Ok,
        enc_rrs(rs, i + 1, at + spec_encode_rr(rs[i], at)->Ok_0.len()) is Ok,
        enc_rrs(rs, i, at)->Ok_0 == spec_encode_rr(rs[i], at)->Ok_0 + enc_rrs(
            rs,
            i + 1,
            at + spec_encode_rr(rs[i], at)->Ok_0.len(),
        )->Ok_0,
{
}

/// One step of decoding a record list: the first record, then the rest.
proof fn lemma_dec_rrs_step(
    buf: Seq<u8>,
    p: int,
    n: nat,
    r: RecordV,
    p2: int,
    rest: Seq<RecordV>,
    p3: int,
)
    requires
        n > 0,
        spec_decode_rr(buf, p) == Ok::<(RecordV, int), crate::error::Error>((r, p2)),
        spec_decode_rrs(buf, p2, (n - 1) as nat) == Ok::<(Seq<RecordV>, int), crate::error::Error>(
            (rest, p3),
        ),
    ensures
        spec_decode_rrs(buf, p, n) == Ok::<(Seq<RecordV>, int), crate::error::Error>(
            (seq![r] + rest, p3),
        ),
{
}

#[verifier::spinoff_prover]
proof fn lemma_rrs_round_trip(rs: Seq<RecordV>, i: int, at: int, buf: Seq<u8>, p: int)
    requires
        0 <= i <= rs.len(),
        forall|j: int| 0 <= j < rs.len() ==> #[trigger] record_wf(rs[j]),
        enc_rrs(rs, i, at) is Ok,
        at_pos(buf, p, enc_rrs(rs, i, at)->Ok_0),
    ensures
        spec_decode_rrs(buf, p, (rs.len() - i) as nat) == Ok::<
            (Seq<RecordV>, int),
            crate::error::Error,
        >((rs.subrange(i, rs.len() as int), p + enc_rrs(rs, i, at)->Ok_0.len())),
    decreases rs.len() - i,
{
    if i == rs.len() {
        assert(rs.subrange(i, rs.len() as int) =~= Seq::<RecordV>::empty());
    } else {
        lemma_enc_rrs_step(rs, i, at);
        let b = enc_rrs(rs, i, at)->Ok_0;
        let br = spec_encode_rr(rs[i], at)->Ok_0;
        let rest = enc_rrs(rs, i + 1, at + br.len())->Ok_0;
        lemma_at_pos_split(buf, p, br, rest);
        assert(record_wf(rs[i]));
        lemma_rr_round_trip(rs[i], at, buf, p);
        lemma_rrs_round_trip(rs, i + 1, at + br.len(), buf, p + br.len());
        let n = (rs.len() - i) as nat;
        assert((n - 1) as nat == (rs.len() - (i + 1)) as nat);
        lemma_dec_rrs_step(
            buf,
            p,
            n,
            rs[i],
            p + br.len(),
            rs.subrange(i + 1, rs.len() as int),
            p + br.len() + rest.len(),
        );
        assert(seq![rs[i]] + rs.subrange(i + 1, rs.len() as int) =~= rs.subrange(
            i,
            rs.len() as int,
        ));
    }
}

proof fn lemma_header_round_trip(h: Header)
    requires
        header_wf(h),
    ensures
        spec_header_from_flags(h.id, spec_flags(h)) == h,
{
    let op = spec_opcode_to_u8(h.opcode);
    let rc = spec_rcode_to_u8(h.rcode);
    let qr: int = if h.qr {
        1
    } else {
        0
    };
    let aa: int = if h.authoritative {
        1
    } else {
        0
    };
    let tc: int = if h.truncated {
        1
    } else {
        0
    };
    let rd: int = if h.recursion_desired {
        1
    } else {
        0
    };
    let ra: int = if h.recursion_available {
        1
    } else {
        0
    };
    assert(op < 16);
    assert(rc < 16);
    let f: int = qr * 0x8000 + op * 0x800 + aa * 0x400 + tc * 0x200 + rd * 0x100 + ra * 0x80 + rc;
    assert(spec_flags(h) as int == f);
    assert(f < 0x10000);
    assert((f >= 0x8000) == (qr == 1) && (f / 0x800) % 16 == op && (f / 0x400) % 2 == aa && (f
        / 0x200) % 2 == tc && (f / 0x100) % 2 == rd && (f / 0x80) % 2 == ra && f % 16 == rc)
        by (nonlinear_arith)
        requires
            0 <= qr <= 1,
            0 <= aa <= 1,
            0 <= tc <= 1,
            0 <= rd <= 1,
            0 <= ra <= 1,
            0 <= op < 16,
            0 <= rc < 16,
            f == qr * 0x8000 + op * 0x800 + aa * 0x400 + tc * 0x200 + rd * 0x100 + ra * 0x80 + rc,
    ;
    assert(spec_opcode_from_u8(op) == h.opcode);
    assert(spec_rcode_from_u8(rc) == h.rcode);
}

proof fn lemma_header_decode(m: MessageV, buf: Seq<u8>)
    requires
        header_wf(m.header),
        m.questions.len() <= 65535,
        m.answers.len() <= 65535,
        m.authorities.len() <= 65535,
        m.additionals.len() <= 65535,
        at_pos(
            buf,
            0,
            spec_encode_header(
                m.header,
                m.questions.len() as u16,
                m.answers.len() as u16,
                m.authorities.len() as u16,
                m.additionals.len() as u16,
            ),
        ),
    ensures
        spec_decode_header(buf, 0) == Ok::<
            (Header, u16, u16, u16, u16, int),
            crate::error::Error,
        >(
            (
                m.header,
                m.questions.len() as u16,
                m.answers.len() as u16,
                m.authorities.len() as u16,
                m.additionals.len() as u16,
                12,
            ),
        ),
{
    let qc = m.questions.len() as u16;
    let ac = m.answers.len() as u16;
    let nsc = m.authorities.len() as u16;
    let arc = m.additionals.len() as u16;
    let fl = spec_flags(m.header);
    let t4 = be16(nsc) + be16(arc);
    let t3 = be16(ac) + t4;
    let t2 = be16(qc) + t3;
    let t1 = be16(fl) + t2;
    assert(spec_encode_header(m.header, qc, ac, nsc, arc) =~= be16(m.header.id) + t1);
    lemma_at_pos_split(buf, 0, be16(m.header.id), t1);
    lemma_at_pos_split(buf, 2, be16(fl), t2);
    lemma_at_pos_split(buf, 4, be16(qc), t3);
    lemma_at_pos_split(buf, 6, be16(ac), t4);
    lemma_at_pos_split(buf, 8, be16(nsc), be16(arc));
    lemma_read_be16(buf, 0, m.header.id);
    lemma_read_be16(buf, 2, fl);
    lemma_read_be16(buf, 4, qc);
    lemma_read_be16(buf, 6, ac);
    lemma_read_be16(buf, 8, nsc);
    lemma_read_be16(buf, 10, arc);
    lemma_header_round_trip(m.header);
}

proof fn lemma_rr_sections_decode(m: MessageV, at: int, buf: Seq<u8>)
    requires
        message_wf(m),
        spec_encode_rr_sections(m, at) is Ok,
        at_pos(buf, at, spec_encode_rr_sections(m, at)->Ok_0),
    ensures
        ({
            let e = at + spec_encode_rr_sections(m, at)->Ok_0.len();
            match spec_decode_rrs(buf, at, m.answers.len()) {
                Ok((a, p2)) => a == m.answers && match spec_decode_rrs(
                    buf,
                    p2,
                    m.authorities.len(),
                ) {
                    Ok((b, p3)) => b == m.authorities && match spec_decode_rrs(
                        buf,
                        p3,
                        m.additionals.len(),
                    ) {
                        Ok((c, p4)) => c == m.additionals && p4 == e,
                        Err(_) => false,
                    },
                    Err(_) => false,
                },
                Err(_) => false,
            }
        }),
{
    let secs = spec_encode_rr_sections(m, at)->Ok_0;
    let b1 = enc_rrs(m.answers, 0, at)->Ok_0;
    let q1: int = at + b1.len();
    let b2 = enc_rrs(m.authorities, 0, q1)->Ok_0;
    let q2: int = q1 + b2.len();
    let b3 = enc_rrs(m.additionals, 0, q2)->Ok_0;
    assert(secs =~= b1 + (b2 + b3));
    lemma_at_pos_split(buf, at, b1, b2 + b3);
    lemma_at_pos_split(buf, q1, b2, b3);
    lemma_rrs_round_trip(m.answers, 0, at, buf, at);
    lemma_rrs_round_trip(m.authorities, 0, q1, buf, q1);
    lemma_rrs_round_trip(m.additionals, 0, q2, buf, q2);
    assert(m.answers.subrange(0, m.answers.len() as int) =~= m.answers);
    assert(m.authorities.subrange(0, m.authorities.len() as int) =~= m.authorities);
    assert(m.additionals.subrange(0, m.additionals.len() as int) =~= m.additionals);
}

/// Round-trip law of the wire codec: for every well-formed message that
/// encodes successfully, decoding the encoding yields the same message.
/// The four sections of `m` decode from `buf` starting right after the
/// header.
#[verifier::opaque]
pub open spec fn sections_decode_to(m: MessageV, buf: Seq<u8>) -> bool {
    {
            match spec_decode_questions(buf, 12, m.questions.len()) {
                Ok((q, p1)) => q == m.questions && match spec_decode_rrs(buf, p1, m.answers.len()) {
                    Ok((a, p2)) => a == m.answers && match spec_decode_rrs(
                        buf,
                        p2,
                        m.authorities.len(),
                    ) {
                        Ok((b, p3)) => b == m.authorities && match spec_decode_rrs(
                            buf,
                            p3,
                            m.additionals.len(),
                        ) {
                            Ok((c, p4)) => c == m.additionals,
                            Err(_) => false,
                        },
                        Err(_) => false,
                    },
                    Err(_) => false,
                },
                Err(_) => false,
            }
        }
}

proof fn lemma_body_decode(m: MessageV, buf: Seq<u8>)
    requires
        message_wf(m),
        spec_encode_body(m, 12) is Ok,
        at_pos(buf, 12, spec_encode_body(m, 12)->Ok_0),
    ensures
        sections_decode_to(m, buf),
{
    reveal(spec_encode_body);
    let body = spec_encode_body(m, 12)->Ok_0;
    let qb = enc_questions(m.questions, 0, 12)->Ok_0;
    let q0: int = 12 + qb.len() as int;
    let secs = spec_encode_rr_sections(m, q0)->Ok_0;
    assert(body == qb + secs);
    lemma_at_pos_split(buf, 12, qb, secs);
    lemma_questions_round_trip(m.questions, 0, 12, buf, 12);
    assert(m.questions.subrange(0, m.questions.len() as int) =~= m.questions);
    lemma_rr_sections_decode(m, q0, buf);
    reveal(sections_decode_to);
}

proof fn lemma_decode_from_parts(m: MessageV, buf: Seq<u8>)
    requires
        m.questions.len() <= 65535,
        m.answers.len() <= 65535,
        m.authorities.len() <= 65535,
        m.additionals.len() <= 65535,
        spec_decode_header(buf, 0) == Ok::<
            (Header, u16, u16, u16, u16, int),
            crate::error::Error,
        >(
            (
                m.header,
                m.questions.len() as u16,
                m.answers.len() as u16,
                m.authorities.len() as u16,
                m.additionals.len() as u16,
                12,
            ),
        ),
        sections_decode_to(m, buf),
    ensures
        spec_decode_message(buf) == Ok::<MessageV, crate::error::Error>(m),
{
    reveal(sections_decode_to);
    reveal(spec_decode_message);
    assert((m.questions.len() as u16) as nat == m.questions.len());
    assert((m.answers.len() as u16) as nat == m.answers.len());
    assert((m.authorities.len() as u16) as nat == m.authorities.len());
    assert((m.additionals.len() as u16) as nat == m.additionals.len());
}

proof fn lemma_encode_message_shape(m: MessageV)
    requires
        spec_encode_message(m, 0) is Ok,
    ensures
        m.questions.len() <= 65535,
        m.answers.len() <= 65535,
        m.authorities.len() <= 65535,
        m.additionals.len() <= 65535,
        spec_encode_body(m, 12) is Ok,
        spec_encode_message(m, 0)->Ok_0 == spec_encode_header(
            m.header,
            m.questions.len() as u16,
            m.answers.len() as u16,
            m.authorities.len() as u16,
            m.additionals.len() as u16,
        ) + spec_encode_body(m, 12)->Ok_0,
{
    reveal(spec_encode_message);
}

/// Round-trip law of the wire codec: for every well-formed message that
/// encodes successfully, decoding the encoding yields the same message.
pub proof fn lemma_message_round_trip(m: MessageV)
    requires
        message_wf(m),
        spec_encode_message(m, 0) is Ok,
    ensures
        spec_decode_message(spec_encode_message(m, 0)->Ok_0) == Ok::<MessageV, crate::error::Error>(
            m,
        ),
{
    let buf = spec_encode_message(m, 0)->Ok_0;
    lemma_encode_message_shape(m);
    let qc = m.questions.len() as u16;
    let ac = m.answers.len() as u16;
    let nsc = m.authorities.len() as u16;
    let arc = m.additionals.len() as u16;
    let hb = spec_encode_header(m.header, qc, ac, nsc, arc);
    let body = spec_encode_body(m, 12)->Ok_0;
    assert(buf.subrange(0, buf.len() as int) =~= buf);
    lemma_at_pos_split(buf, 0, hb, body);
    lemma_header_decode(m, buf);
    lemma_body_decode(m, buf);
    lemma_decode_from_parts(m, buf);
}

} // verus!

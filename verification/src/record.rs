//! DNS record types, classes, and resource-data (`RDATA`) encode/decode.

use vstd::prelude::*;

use crate::error::Error;
use crate::name::{Name, append_bytes, clone_labels, copy_bytes, labels_view, lemma_labels_view};
use crate::wire::{
    be16, be32, decode_name, encode_name, extends, lemma_rcat_assoc, rcat, read_u16, read_u32,
    spec_decode_name, spec_encode_name, lemma_name_walk_pos, spec_read_u16, spec_read_u32, truncated, write_u16,
    write_u32,
};

verus! {

/// A DNS resource record type. Types without a dedicated variant round-trip
/// through [`RecordType::Other`].
#[derive(Debug, Clone, Copy, PartialEq, Eq, Hash, Structural)]
pub enum RecordType {
    /// A host address (IPv4).
    A,
    /// A host address (IPv6).
    Aaaa,
    /// The canonical name for an alias.
    Cname,
    /// A domain name pointer (reverse lookup).
    Ptr,
    /// An authoritative name server.
    Ns,
    /// Text strings.
    Txt,
    /// Mail exchange.
    Mx,
    /// Start of a zone of authority.
    Soa,
    /// Any other record type, carrying its raw wire value.
    Other(u16),
}

/// The record type a wire value denotes.
pub open spec fn spec_type_from_u16(value: u16) -> RecordType {
    match value {
        1 => RecordType::A,
        2 => RecordType::Ns,
        5 => RecordType::Cname,
        6 => RecordType::Soa,
        12 => RecordType::Ptr,
        15 => RecordType::Mx,
        16 => RecordType::Txt,
        28 => RecordType::Aaaa,
        other => RecordType::Other(other),
    }
}

/// A record type's wire value.
pub open spec fn spec_type_to_u16(t: RecordType) -> u16 {
    match t {
        RecordType::A => 1,
        RecordType::Ns => 2,
        RecordType::Cname => 5,
        RecordType::Soa => 6,
        RecordType::Ptr => 12,
        RecordType::Mx => 15,
        RecordType::Txt => 16,
        RecordType::Aaaa => 28,
        RecordType::Other(value) => value,
    }
}

/// A record type survives a wire round trip: `Other` never carries a value
/// that has its own variant.
pub open spec fn record_type_wf(t: RecordType) -> bool {
    match t {
        RecordType::Other(v) => spec_type_from_u16(v) == RecordType::Other(v),
        _ => true,
    }
}

impl RecordType {
    /// The record type a wire value denotes.
    pub fn from_u16(value: u16) -> (r: RecordType)
        ensures
            r == spec_type_from_u16(value),
    {
        match value {
            1 => RecordType::A,
            2 => RecordType::Ns,
            5 => RecordType::Cname,
            6 => RecordType::Soa,
            12 => RecordType::Ptr,
            15 => RecordType::Mx,
            16 => RecordType::Txt,
            28 => RecordType::Aaaa,
            other => RecordType::Other(other),
        }
    }

    /// This record type's wire value.
    pub fn to_u16(self) -> (r: u16)
        ensures
            r == spec_type_to_u16(self),
    {
        match self {
            RecordType::A => 1,
            RecordType::Ns => 2,
            RecordType::Cname => 5,
            RecordType::Soa => 6,
            RecordType::Ptr => 12,
            RecordType::Mx => 15,
            RecordType::Txt => 16,
            RecordType::Aaaa => 28,
            RecordType::Other(value) => value,
        }
    }
}

/// A DNS record class. The value `0` is reserved and rejected.
#[derive(Debug, Clone, Copy, PartialEq, Eq, Hash, Structural)]
pub enum Class {
    /// The Internet.
    In,
    /// Chaos.
    Ch,
    /// Any other class, carrying its raw wire value.
    Other(u16),
}

/// The class a wire value denotes, or `InvalidClass(0)` for the reserved 0.
pub open spec fn spec_class_from_u16(value: u16) -> Result<Class, Error> {
    match value {
        0 => Err(Error::InvalidClass(0)),
        1 => Ok(Class::In),
        3 => Ok(Class::Ch),
        other => Ok(Class::Other(other)),
    }
}

/// A class's wire value.
pub open spec fn spec_class_to_u16(c: Class) -> u16 {
    match c {
        Class::In => 1,
        Class::Ch => 3,
        Class::Other(value) => value,
    }
}

/// A class survives a wire round trip: `Other` carries neither the reserved
/// 0 nor a value that has its own variant.
pub open spec fn class_wf(c: Class) -> bool {
    match c {
        Class::Other(v) => v != 0 && v != 1 && v != 3,
        _ => true,
    }
}

impl Class {
    /// The class a wire value denotes; `0` is rejected.
    pub fn from_u16(value: u16) -> (r: Result<Class, Error>)
        ensures
            r == spec_class_from_u16(value),
    {
        match value {
            0 => Err(Error::InvalidClass(0)),
            1 => Ok(Class::In),
            3 => Ok(Class::Ch),
            other => Ok(Class::Other(other)),
        }
    }

    /// This class's wire value.
    pub fn to_u16(self) -> (r: u16)
        ensures
            r == spec_class_to_u16(self),
    {
        match self {
            Class::In => 1,
            Class::Ch => 3,
            Class::Other(value) => value,
        }
    }
}

/// The resource-data payload of a resource record, distinguished by record
/// type. Unrecognized types are carried unparsed in [`RData::Unknown`].
#[derive(Debug, PartialEq, Eq)]
pub enum RData {
    /// [`RecordType::A`]: the IPv4 address octets.
    A([u8; 4]),
    /// [`RecordType::Aaaa`]: the IPv6 address octets.
    Aaaa([u8; 16]),
    /// [`RecordType::Cname`].
    Cname(Name),
    /// [`RecordType::Ptr`].
    Ptr(Name),
    /// [`RecordType::Ns`].
    Ns(Name),
    /// [`RecordType::Txt`]: one entry per character-string.
    Txt(Vec<Vec<u8>>),
    /// [`RecordType::Mx`].
    Mx {
        /// Preference given to this exchange; lower values are preferred.
        preference: u16,
        /// The mail exchange host.
        exchange: Name,
    },
    /// [`RecordType::Soa`].
    Soa {
        /// The primary name server for the zone.
        mname: Name,
        /// The mailbox of the zone's administrator.
        rname: Name,
        /// The zone's version number.
        serial: u32,
        /// Seconds before the zone should be refreshed.
        refresh: u32,
        /// Seconds before a failed refresh should be retried.
        retry: u32,
        /// Seconds after which the zone is no longer authoritative.
        expire: u32,
        /// The negative-caching TTL (RFC 2308).
        minimum: u32,
    },
    /// Any record type not enumerated above.
    Unknown {
        /// The raw wire `RTYPE` value.
        rtype: u16,
        /// The raw `RDATA` bytes, unparsed.
        data: Vec<u8>,
    },
}

/// The mathematical value of an [`RData`]: addresses as byte sequences and
/// names as label sequences.
pub enum RDataV {
    A(Seq<u8>),
    Aaaa(Seq<u8>),
    Cname(Seq<Seq<u8>>),
    Ptr(Seq<Seq<u8>>),
    Ns(Seq<Seq<u8>>),
    Txt(Seq<Seq<u8>>),
    Mx { preference: u16, exchange: Seq<Seq<u8>> },
    Soa {
        mname: Seq<Seq<u8>>,
        rname: Seq<Seq<u8>>,
        serial: u32,
        refresh: u32,
        retry: u32,
        expire: u32,
        minimum: u32,
    },
    Unknown { rtype: u16, data: Seq<u8> },
}

impl View for RData {
    type V = RDataV;

    open spec fn view(&self) -> RDataV {
        match self {
            RData::A(o) => RDataV::A(o@),
            RData::Aaaa(o) => RDataV::Aaaa(o@),
            RData::Cname(n) => RDataV::Cname(n@),
            RData::Ptr(n) => RDataV::Ptr(n@),
            RData::Ns(n) => RDataV::Ns(n@),
            RData::Txt(ss) => RDataV::Txt(labels_view(ss@)),
            RData::Mx { preference, exchange } => RDataV::Mx {
                preference: *preference,
                exchange: exchange@,
            },
            RData::Soa { mname, rname, serial, refresh, retry, expire, minimum } => RDataV::Soa {
                mname: mname@,
                rname: rname@,
                serial: *serial,
                refresh: *refresh,
                retry: *retry,
                expire: *expire,
                minimum: *minimum,
            },
            RData::Unknown { rtype, data } => RDataV::Unknown { rtype: *rtype, data: data@ },
        }
    }
}

impl Clone for RData {
    fn clone(&self) -> (r: Self)
        ensures
            r@ == self@,
    {
        match self {
            RData::A(o) => RData::A(*o),
            RData::Aaaa(o) => RData::Aaaa(*o),
            RData::Cname(n) => RData::Cname(n.clone()),
            RData::Ptr(n) => RData::Ptr(n.clone()),
            RData::Ns(n) => RData::Ns(n.clone()),
            RData::Txt(ss) => RData::Txt(clone_labels(ss)),
            RData::Mx { preference, exchange } => RData::Mx {
                preference: *preference,
                exchange: exchange.clone(),
            },
            RData::Soa { mname, rname, serial, refresh, retry, expire, minimum } => RData::Soa {
                mname: mname.clone(),
                rname: rname.clone(),
                serial: *serial,
                refresh: *refresh,
                retry: *retry,
                expire: *expire,
                minimum: *minimum,
            },
            RData::Unknown { rtype, data } => {
                let d = copy_bytes(data.as_slice(), 0, data.len());
                assert(d@ =~= data@);
                RData::Unknown { rtype: *rtype, data: d }
            },
        }
    }
}

/// The record type an `RDATA` value belongs to.
pub open spec fn spec_rdata_type(d: RDataV) -> RecordType {
    match d {
        RDataV::A(_) => RecordType::A,
        RDataV::Aaaa(_) => RecordType::Aaaa,
        RDataV::Cname(_) => RecordType::Cname,
        RDataV::Ptr(_) => RecordType::Ptr,
        RDataV::Ns(_) => RecordType::Ns,
        RDataV::Txt(_) => RecordType::Txt,
        RDataV::Mx { .. } => RecordType::Mx,
        RDataV::Soa { .. } => RecordType::Soa,
        RDataV::Unknown { rtype, .. } => RecordType::Other(rtype),
    }
}

/// Encodes TXT character-strings `ss[i..]` written at absolute offset `at`;
/// a string over 255 bytes fails with `LabelTooLong` at its offset.
pub open spec fn enc_txt_from(ss: Seq<Seq<u8>>, i: int, at: int) -> Result<Seq<u8>, Error>
    decreases ss.len() - i,
{
    if i < 0 || i >= ss.len() {
        Ok(Seq::empty())
    } else if ss[i].len() > 255 {
        Err(Error::LabelTooLong { offset: at as usize })
    } else {
        rcat(seq![ss[i].len() as u8] + ss[i], enc_txt_from(ss, i + 1, at + 1 + ss[i].len()))
    }
}

/// The `RDATA` encoding of `d` written at absolute offset `at`.
pub open spec fn spec_encode_rdata(d: RDataV, at: int) -> Result<Seq<u8>, Error> {
    match d {
        RDataV::A(o) => Ok(o),
        RDataV::Aaaa(o) => Ok(o),
        RDataV::Cname(n) => spec_encode_name(n, at),
        RDataV::Ptr(n) => spec_encode_name(n, at),
        RDataV::Ns(n) => spec_encode_name(n, at),
        RDataV::Txt(ss) => enc_txt_from(ss, 0, at),
        RDataV::Mx { preference, exchange } => rcat(
            be16(preference),
            spec_encode_name(exchange, at + 2),
        ),
        RDataV::Soa { mname, rname, serial, refresh, retry, expire, minimum } => {
            match spec_encode_name(mname, at) {
                Err(e) => Err(e),
                Ok(b1) => match spec_encode_name(rname, at + b1.len()) {
                    Err(e) => Err(e),
                    Ok(b2) => Ok(
                        b1 + b2 + be32(serial) + be32(refresh) + be32(retry) + be32(expire) + be32(
                            minimum,
                        ),
                    ),
                },
            }
        },
        RDataV::Unknown { data, .. } => Ok(data),
    }
}

/// Decodes a name that must end exactly `rdlength` bytes after `start`.
pub open spec fn spec_decode_checked_name(buf: Seq<u8>, start: int, rdlength: u16) -> Result<
    (Seq<Seq<u8>>, int),
    Error,
> {
    match spec_decode_name(buf, start) {
        Err(e) => Err(e),
        Ok((n, p)) => if p - start != rdlength {
            Err(Error::RDataLengthMismatch { declared: rdlength })
        } else {
            Ok((n, p))
        },
    }
}

/// Decodes TXT character-strings in `buf[p..end]`, appending to `acc`.
pub open spec fn txt_walk(buf: Seq<u8>, p: int, end: int, rdlength: u16, acc: Seq<Seq<u8>>) -> Result<
    Seq<Seq<u8>>,
    Error,
>
    decreases end - p,
{
    if p < 0 || p >= end {
        Ok(acc)
    } else if p + 1 + buf[p] > end {
        Err(Error::RDataLengthMismatch { declared: rdlength })
    } else {
        txt_walk(buf, p + 1 + buf[p], end, rdlength, acc.push(buf.subrange(p + 1, p + 1 + buf[p])))
    }
}

/// The fields of an SOA record following its two names.
pub open spec fn spec_soa_numbers(buf: Seq<u8>, p: int) -> Result<(Seq<u32>, int), Error> {
    if p + 20 > buf.len() {
        Err(truncated(buf))
    } else {
        Ok(
            (
                seq![
                    spec_read_u32(buf, p)->Ok_0.0,
                    spec_read_u32(buf, p + 4)->Ok_0.0,
                    spec_read_u32(buf, p + 8)->Ok_0.0,
                    spec_read_u32(buf, p + 12)->Ok_0.0,
                    spec_read_u32(buf, p + 16)->Ok_0.0,
                ],
                p + 20,
            ),
        )
    }
}

/// Decodes TXT `RDATA` occupying exactly `buf[start..start + rdlength]`.
pub open spec fn spec_decode_txt(buf: Seq<u8>, start: int, rdlength: u16) -> Result<(RDataV, int), Error> {
    match txt_walk(buf, start, start + rdlength, rdlength, Seq::empty()) {
        Err(e) => Err(e),
        Ok(ss) => Ok((RDataV::Txt(ss), start + rdlength)),
    }
}

/// Decodes MX `RDATA` that must span exactly `rdlength` bytes.
pub open spec fn spec_decode_mx(buf: Seq<u8>, start: int, rdlength: u16) -> Result<(RDataV, int), Error> {
    match spec_read_u16(buf, start) {
        Err(e) => Err(e),
        Ok((preference, p1)) => match spec_decode_name(buf, p1) {
            Err(e) => Err(e),
            Ok((exchange, p2)) => if p2 - start != rdlength {
                Err(Error::RDataLengthMismatch { declared: rdlength })
            } else {
                Ok((RDataV::Mx { preference, exchange }, p2))
            },
        },
    }
}

/// Decodes SOA `RDATA` that must span exactly `rdlength` bytes.
pub open spec fn spec_decode_soa(buf: Seq<u8>, start: int, rdlength: u16) -> Result<(RDataV, int), Error> {
    match spec_decode_name(buf, start) {
        Err(e) => Err(e),
        Ok((mname, p1)) => match spec_decode_name(buf, p1) {
            Err(e) => Err(e),
            Ok((rname, p2)) => match spec_soa_numbers(buf, p2) {
                Err(e) => Err(e),
                Ok((nums, p3)) => if p3 - start != rdlength {
                    Err(Error::RDataLengthMismatch { declared: rdlength })
                } else {
                    Ok(
                        (
                            RDataV::Soa {
                                mname,
                                rname,
                                serial: nums[0],
                                refresh: nums[1],
                                retry: nums[2],
                                expire: nums[3],
                                minimum: nums[4],
                            },
                            p3,
                        ),
                    )
                },
            },
        },
    }
}

/// Decodes the `RDATA` of a record of type `rtype` declared `rdlength`
/// bytes long at `pos`, returning it and the position after it.
pub open spec fn spec_decode_rdata(buf: Seq<u8>, pos: int, rtype: RecordType, rdlength: u16) -> Result<
    (RDataV, int),
    Error,
> {
    let start = pos;
    let end = start + rdlength as usize;
    if end > buf.len() {
        Err(truncated(buf))
    } else {
        match rtype {
            RecordType::A => if rdlength != 4 {
                Err(Error::RDataLengthMismatch { declared: rdlength })
            } else {
                Ok((RDataV::A(buf.subrange(start, start + 4)), start + 4))
            },
            RecordType::Aaaa => if rdlength != 16 {
                Err(Error::RDataLengthMismatch { declared: rdlength })
            } else {
                Ok((RDataV::Aaaa(buf.subrange(start, start + 16)), start + 16))
            },
            RecordType::Cname => match spec_decode_checked_name(buf, start, rdlength) {
                Err(e) => Err(e),
                Ok((n, p)) => Ok((RDataV::Cname(n), p)),
            },
            RecordType::Ptr => match spec_decode_checked_name(buf, start, rdlength) {
                Err(e) => Err(e),
                Ok((n, p)) => Ok((RDataV::Ptr(n), p)),
            },
            RecordType::Ns => match spec_decode_checked_name(buf, start, rdlength) {
                Err(e) => Err(e),
                Ok((n, p)) => Ok((RDataV::Ns(n), p)),
            },
            RecordType::Txt => spec_decode_txt(buf, start, rdlength),
            RecordType::Mx => spec_decode_mx(buf, start, rdlength),
            RecordType::Soa => spec_decode_soa(buf, start, rdlength),
            RecordType::Other(value) => Ok(
                (RDataV::Unknown { rtype: value, data: buf.subrange(start, end) }, end),
            ),
        }
    }
}

fn decode_checked_name(buf: &[u8], pos: &mut usize, start: usize, rdlength: u16) -> (r: Result<
    Name,
    Error,
>)
    requires
        *old(pos) == start,
    ensures
        match spec_decode_checked_name(buf@, start as int, rdlength) {
            Ok((n, p)) => (r matches Ok(x) && x@ == n) && *final(pos) == p,
            Err(e) => r == Err::<Name, Error>(e) && *final(pos) == *old(pos),
        },
{
    let mut p = *pos;
    let name = match decode_name(buf, &mut p) {
        Ok(n) => n,
        Err(e) => return Err(e),
    };
    proof {
        lemma_name_walk_pos(buf@, start as int, false, 0, 0, Seq::empty(), start as int);
    }
    if p - start != rdlength as usize {
        return Err(Error::RDataLengthMismatch { declared: rdlength });
    }
    *pos = p;
    Ok(name)
}

impl RData {
    /// The record type this `RDATA` belongs to.
    pub fn record_type(&self) -> (r: RecordType)
        ensures
            r == spec_rdata_type(self@),
    {
        match self {
            RData::A(_) => RecordType::A,
            RData::Aaaa(_) => RecordType::Aaaa,
            RData::Cname(_) => RecordType::Cname,
            RData::Ptr(_) => RecordType::Ptr,
            RData::Ns(_) => RecordType::Ns,
            RData::Txt(_) => RecordType::Txt,
            RData::Mx { .. } => RecordType::Mx,
            RData::Soa { .. } => RecordType::Soa,
            RData::Unknown { rtype, .. } => RecordType::Other(*rtype),
        }
    }

    /// Appends this `RDATA`'s wire encoding to `buf`.
    pub fn encode(&self, buf: &mut Vec<u8>) -> (r: Result<(), Error>)
        ensures
            extends(old(buf)@, final(buf)@),
            match spec_encode_rdata(self@, old(buf)@.len() as int) {
                Ok(b) => r is Ok && final(buf)@ == old(buf)@ + b,
                Err(e) => r == Err::<(), Error>(e),
            },
    {
        let ghost b0 = buf@;
        match self {
            RData::A(addr) => {
                append_bytes(buf, addr.as_slice());
                assert(buf@.subrange(0, b0.len() as int) =~= b0);
                Ok(())
            },
            RData::Aaaa(addr) => {
                append_bytes(buf, addr.as_slice());
                assert(buf@.subrange(0, b0.len() as int) =~= b0);
                Ok(())
            },
            RData::Cname(name) => encode_name(name, buf),
            RData::Ptr(name) => encode_name(name, buf),
            RData::Ns(name) => encode_name(name, buf),
            RData::Txt(strings) => encode_txt(strings, buf),
            RData::Mx { preference, exchange } => {
                write_u16(buf, *preference);
                let ghost b1 = buf@;
                let r = encode_name(exchange, buf);
                proof {
                    assert(b1.subrange(0, b0.len() as int) =~= b0);
                    assert(buf@.subrange(0, b1.len() as int) == b1);
                    assert(buf@.subrange(0, b0.len() as int) =~= b0);
                    if let Ok(b) = spec_encode_name(exchange@, b1.len() as int) {
                        assert(buf@ =~= b0 + (be16(*preference) + b));
                    }
                }
                r
            },
            RData::Soa { mname, rname, serial, refresh, retry, expire, minimum } => {
                let r1 = encode_name(mname, buf);
                if r1.is_err() {
                    return r1;
                }
                let ghost b1 = buf@;
                let r2 = encode_name(rname, buf);
                if r2.is_err() {
                    proof {
                        assert(buf@.subrange(0, b1.len() as int) == b1);
                        assert(buf@.subrange(0, b0.len() as int) =~= b0);
                    }
                    return r2;
                }
                let ghost b2 = buf@;
                write_u32(buf, *serial);
                write_u32(buf, *refresh);
                write_u32(buf, *retry);
                write_u32(buf, *expire);
                write_u32(buf, *minimum);
                proof {
                    let e1 = spec_encode_name(mname@, b0.len() as int)->Ok_0;
                    let e2 = spec_encode_name(rname@, b1.len() as int)->Ok_0;
                    assert(b1 == b0 + e1);
                    assert(b2 == b1 + e2);
                    assert(buf@ =~= b0 + (e1 + e2 + be32(*serial) + be32(*refresh) + be32(*retry)
                        + be32(*expire) + be32(*minimum)));
                    assert(buf@.subrange(0, b0.len() as int) =~= b0);
                }
                Ok(())
            },
            RData::Unknown { data, .. } => {
                append_bytes(buf, data.as_slice());
                assert(buf@.subrange(0, b0.len() as int) =~= b0);
                Ok(())
            },
        }
    }

    /// Decodes the `RDATA` of a record of type `rtype` whose declared
    /// length is `rdlength`, starting at `*pos`. On success `pos` is
    /// advanced past it; on error `pos` is unchanged.
    pub fn decode(buf: &[u8], pos: &mut usize, rtype: RecordType, rdlength: u16) -> (r: Result<
        RData,
        Error,
    >)
        ensures
            match spec_decode_rdata(buf@, *old(pos) as int, rtype, rdlength) {
                Ok((d, p)) => (r matches Ok(x) && x@ == d) && *final(pos) == p,
                Err(e) => r == Err::<RData, Error>(e) && *final(pos) == *old(pos),
            },
    {
        let start = *pos;
        if start > buf.len() || rdlength as usize > buf.len() - start {
            return Err(Error::Truncated { len: buf.len() });
        }
        let end = start + rdlength as usize;
        match rtype {
            RecordType::A => {
                if rdlength as usize != 4 {
                    return Err(Error::RDataLengthMismatch { declared: rdlength });
                }
                let addr = [buf[start], buf[start + 1], buf[start + 2], buf[start + 3]];
                assert(addr@ =~= buf@.subrange(start as int, start + 4));
                *pos = start + 4;
                Ok(RData::A(addr))
            },
            RecordType::Aaaa => {
                if rdlength as usize != 16 {
                    return Err(Error::RDataLengthMismatch { declared: rdlength });
                }
                let s = start;
                let addr = [
                    buf[s],
                    buf[s + 1],
                    buf[s + 2],
                    buf[s + 3],
                    buf[s + 4],
                    buf[s + 5],
                    buf[s + 6],
                    buf[s + 7],
                    buf[s + 8],
                    buf[s + 9],
                    buf[s + 10],
                    buf[s + 11],
                    buf[s + 12],
                    buf[s + 13],
                    buf[s + 14],
                    buf[s + 15],
                ];
                assert(addr@ =~= buf@.subrange(start as int, start + 16));
                *pos = start + 16;
                Ok(RData::Aaaa(addr))
            },
            RecordType::Cname => match decode_checked_name(buf, pos, start, rdlength) {
                Ok(n) => Ok(RData::Cname(n)),
                Err(e) => Err(e),
            },
            RecordType::Ptr => match decode_checked_name(buf, pos, start, rdlength) {
                Ok(n) => Ok(RData::Ptr(n)),
                Err(e) => Err(e),
            },
            RecordType::Ns => match decode_checked_name(buf, pos, start, rdlength) {
                Ok(n) => Ok(RData::Ns(n)),
                Err(e) => Err(e),
            },
            RecordType::Txt => decode_txt(buf, pos, rdlength),
            RecordType::Mx => decode_mx(buf, pos, rdlength),
            RecordType::Soa => decode_soa(buf, pos, rdlength),
            RecordType::Other(value) => {
                let data = copy_bytes(buf, start, end);
                *pos = end;
                Ok(RData::Unknown { rtype: value, data })
            },
        }
    }
}

fn decode_txt(buf: &[u8], pos: &mut usize, rdlength: u16) -> (r: Result<RData, Error>)
    requires
        *old(pos) + rdlength <= buf@.len(),
    ensures
        match spec_decode_txt(buf@, *old(pos) as int, rdlength) {
            Ok((d, p)) => (r matches Ok(x) && x@ == d) && *final(pos) == p,
            Err(e) => r == Err::<RData, Error>(e) && *final(pos) == *old(pos),
        },
{
    let start = *pos;
    let n = buf.len();
    let end = start + rdlength as usize;
    let mut strings: Vec<Vec<u8>> = Vec::new();
    let mut p = start;
    proof {
        assert(labels_view(strings@) =~= Seq::<Seq<u8>>::empty());
    }
    while p < end
        invariant
            start <= p <= end,
            start == *old(pos),
            *pos == start,
            end == start + rdlength,
            end <= buf@.len(),
            txt_walk(buf@, start as int, end as int, rdlength, Seq::empty()) == txt_walk(
                buf@,
                p as int,
                end as int,
                rdlength,
                labels_view(strings@),
            ),
        decreases end - p,
    {
        let len = buf[p] as usize;
        let q = p + 1;
        if len > end - q {
            return Err(Error::RDataLengthMismatch { declared: rdlength });
        }
        let s = copy_bytes(buf, q, q + len);
        let ghost old_strings = strings@;
        strings.push(s);
        proof {
            lemma_labels_view(strings@);
            lemma_labels_view(old_strings);
            assert(labels_view(strings@) =~= labels_view(old_strings).push(s@));
        }
        p = q + len;
    }
    *pos = end;
    Ok(RData::Txt(strings))
}

fn decode_mx(buf: &[u8], pos: &mut usize, rdlength: u16) -> (r: Result<RData, Error>)
    ensures
        match spec_decode_mx(buf@, *old(pos) as int, rdlength) {
            Ok((d, p)) => (r matches Ok(x) && x@ == d) && *final(pos) == p,
            Err(e) => r == Err::<RData, Error>(e) && *final(pos) == *old(pos),
        },
{
    let start = *pos;
    let mut p = start;
    let preference = match read_u16(buf, &mut p) {
        Ok(v) => v,
        Err(e) => return Err(e),
    };
    let ghost p1 = p;
    let exchange = match decode_name(buf, &mut p) {
        Ok(n) => n,
        Err(e) => return Err(e),
    };
    proof {
        lemma_name_walk_pos(buf@, p1 as int, false, 0, 0, Seq::empty(), p1 as int);
    }
    if p - start != rdlength as usize {
        return Err(Error::RDataLengthMismatch { declared: rdlength });
    }
    *pos = p;
    Ok(RData::Mx { preference, exchange })
}

fn decode_soa(buf: &[u8], pos: &mut usize, rdlength: u16) -> (r: Result<RData, Error>)
    ensures
        match spec_decode_soa(buf@, *old(pos) as int, rdlength) {
            Ok((d, p)) => (r matches Ok(x) && x@ == d) && *final(pos) == p,
            Err(e) => r == Err::<RData, Error>(e) && *final(pos) == *old(pos),
        },
{
    let start = *pos;
    let mut p = start;
    let mname = match decode_name(buf, &mut p) {
        Ok(n) => n,
        Err(e) => return Err(e),
    };
    proof {
        lemma_name_walk_pos(buf@, start as int, false, 0, 0, Seq::empty(), start as int);
    }
    let ghost p1 = p;
    let rname = match decode_name(buf, &mut p) {
        Ok(n) => n,
        Err(e) => return Err(e),
    };
    proof {
        lemma_name_walk_pos(buf@, p1 as int, false, 0, 0, Seq::empty(), p1 as int);
    }
    if p > buf.len() || buf.len() - p < 20 {
        return Err(Error::Truncated { len: buf.len() });
    }
    let serial = read_u32_unchecked(buf, p);
    let refresh = read_u32_unchecked(buf, p + 4);
    let retry = read_u32_unchecked(buf, p + 8);
    let expire = read_u32_unchecked(buf, p + 12);
    let minimum = read_u32_unchecked(buf, p + 16);
    let p3 = p + 20;
    if p3 - start != rdlength as usize {
        return Err(Error::RDataLengthMismatch { declared: rdlength });
    }
    *pos = p3;
    Ok(RData::Soa { mname, rname, serial, refresh, retry, expire, minimum })
}

fn read_u32_unchecked(buf: &[u8], p: usize) -> (v: u32)
    requires
        p + 4 <= buf@.len(),
    ensures
        spec_read_u32(buf@, p as int) == Ok::<(u32, int), Error>((v, p + 4)),
{
    let mut q = p;
    match read_u32(buf, &mut q) {
        Ok(v) => v,
        Err(_) => 0,
    }
}

/// Appends TXT character-strings, each prefixed by its length byte.
fn encode_txt(strings: &Vec<Vec<u8>>, buf: &mut Vec<u8>) -> (r: Result<(), Error>)
    ensures
        extends(old(buf)@, final(buf)@),
        match enc_txt_from(labels_view(strings@), 0, old(buf)@.len() as int) {
            Ok(b) => r is Ok && final(buf)@ == old(buf)@ + b,
            Err(e) => r == Err::<(), Error>(e),
        },
{
    let ghost b0 = buf@;
    let ghost ss = labels_view(strings@);
    proof {
        lemma_labels_view(strings@);
        assert(buf@.subrange(b0.len() as int, buf@.len() as int) =~= Seq::<u8>::empty());
        if let Ok(b) = enc_txt_from(ss, 0, b0.len() as int) {
            assert(Seq::<u8>::empty() + b =~= b);
        }
        assert(buf@.subrange(0, b0.len() as int) =~= b0);
    }
    let mut i: usize = 0;
    while i < strings.len()
        invariant
            ss == labels_view(strings@),
            ss.len() == strings@.len(),
            0 <= i <= ss.len(),
            extends(b0, buf@),
            b0 == old(buf)@,
            enc_txt_from(ss, 0, b0.len() as int) == rcat(
                buf@.subrange(b0.len() as int, buf@.len() as int),
                enc_txt_from(ss, i as int, buf@.len() as int),
            ),
        decreases ss.len() - i,
    {
        proof {
            lemma_labels_view(strings@);
        }
        let s = &strings[i];
        if s.len() > 255 {
            return Err(Error::LabelTooLong { offset: buf.len() });
        }
        let ghost before = buf@;
        buf.push(s.len() as u8);
        append_bytes(buf, s.as_slice());
        proof {
            let piece = seq![ss[i as int].len() as u8] + ss[i as int];
            assert(buf@ =~= before + piece);
            lemma_rcat_assoc(
                before.subrange(b0.len() as int, before.len() as int),
                piece,
                enc_txt_from(ss, i + 1, buf@.len() as int),
            );
            assert(before.subrange(b0.len() as int, before.len() as int) + piece =~= buf@.subrange(
                b0.len() as int,
                buf@.len() as int,
            ));
            assert(buf@.subrange(0, b0.len() as int) =~= b0);
        }
        i = i + 1;
    }
    proof {
        assert(buf@ =~= b0 + buf@.subrange(b0.len() as int, buf@.len() as int));
        assert(buf@.subrange(b0.len() as int, buf@.len() as int) + Seq::<u8>::empty()
            =~= buf@.subrange(b0.len() as int, buf@.len() as int));
    }
    Ok(())
}

} // verus!

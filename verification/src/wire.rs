//! Wire-format primitives shared by the message and record codecs:
//! big-endian integers, DNS name encoding, and DNS name decoding with
//! compression pointers (RFC 1035 §4.1.4).

use vstd::prelude::*;

use crate::error::Error;
use crate::name::{Name, append_bytes, copy_bytes, labels_view, labels_wire_len, lemma_labels_view};

verus! {

/// Big-endian encoding of a 16-bit value.
pub open spec fn be16(v: u16) -> Seq<u8> {
    seq![(v / 256) as u8, (v % 256) as u8]
}

/// Big-endian encoding of a 32-bit value.
pub open spec fn be32(v: u32) -> Seq<u8> {
    seq![(v / 0x1000000) as u8, ((v / 0x10000) % 256) as u8, ((v / 256) % 256) as u8, (v % 256) as u8]
}

/// The big-endian 16-bit value at `buf[p..p + 2]`.
pub open spec fn u16_at(buf: Seq<u8>, p: int) -> u16 {
    (buf[p] as int * 256 + buf[p + 1] as int) as u16
}

/// The big-endian 32-bit value at `buf[p..p + 4]`.
pub open spec fn u32_at(buf: Seq<u8>, p: int) -> u32 {
    (buf[p] as int * 0x1000000 + buf[p + 1] as int * 0x10000 + buf[p + 2] as int * 256
        + buf[p + 3] as int) as u32
}

/// Prefixes a successful encoding with `prefix`; errors pass through.
pub open spec fn rcat(prefix: Seq<u8>, r: Result<Seq<u8>, Error>) -> Result<Seq<u8>, Error> {
    match r {
        Ok(b) => Ok(prefix + b),
        Err(e) => Err(e),
    }
}

/// `new` is `old` with zero or more bytes appended.
pub open spec fn extends(old: Seq<u8>, new: Seq<u8>) -> bool {
    &&& old.len() <= new.len()
    &&& new.subrange(0, old.len() as int) == old
}

/// The error reported when `buf` ends too early.
pub open spec fn truncated(buf: Seq<u8>) -> Error {
    Error::Truncated { len: buf.len() as usize }
}

/// Reads a big-endian `u16` at `pos`, returning it and the next position.
pub open spec fn spec_read_u16(buf: Seq<u8>, pos: int) -> Result<(u16, int), Error> {
    if pos + 2 > buf.len() {
        Err(truncated(buf))
    } else {
        Ok((u16_at(buf, pos), pos + 2))
    }
}

/// Reads a big-endian `u32` at `pos`, returning it and the next position.
pub open spec fn spec_read_u32(buf: Seq<u8>, pos: int) -> Result<(u32, int), Error> {
    if pos + 4 > buf.len() {
        Err(truncated(buf))
    } else {
        Ok((u32_at(buf, pos), pos + 4))
    }
}

/// Encodes labels `ls[i..]` followed by the root byte; `at` is the absolute
/// buffer offset of the first byte written (reported by `LabelTooLong`).
pub open spec fn enc_labels_from(ls: Seq<Seq<u8>>, i: int, at: int) -> Result<Seq<u8>, Error>
    decreases ls.len() - i,
{
    if i < 0 || i >= ls.len() {
        Ok(seq![0u8])
    } else if ls[i].len() > 63 {
        Err(Error::LabelTooLong { offset: at as usize })
    } else {
        rcat(
            seq![ls[i].len() as u8] + ls[i],
            enc_labels_from(ls, i + 1, at + 1 + ls[i].len()),
        )
    }
}

/// Uncompressed wire encoding of a name written at absolute offset `at`.
pub open spec fn spec_encode_name(ls: Seq<Seq<u8>>, at: int) -> Result<Seq<u8>, Error> {
    if labels_wire_len(ls) > 255 {
        Err(Error::NameTooLong)
    } else {
        enc_labels_from(ls, 0, at)
    }
}

/// One step of name decoding at `cur`, following compression pointers.
///
/// A pointer must target a strictly earlier offset than its own. Pointers
/// can still form a cycle through label bytes; a cycle necessarily follows
/// more pointers than the buffer has bytes, so that is rejected as a bad
/// pointer.
pub open spec fn name_walk(
    buf: Seq<u8>,
    cur: int,
    jumped: bool,
    real_end: int,
    jumps: int,
    labels: Seq<Seq<u8>>,
) -> Result<(Seq<Seq<u8>>, int), Error>
    decreases buf.len() - jumps, buf.len() - cur,
{
    if cur < 0 || cur >= buf.len() {
        Err(truncated(buf))
    } else if buf[cur] >= 192 {
        if cur + 1 >= buf.len() {
            Err(truncated(buf))
        } else {
            let pointer = (buf[cur] - 192) * 256 + buf[cur + 1];
            let end2 = if !jumped {
                cur + 2
            } else {
                real_end
            };
            if pointer >= cur {
                Err(Error::BadNamePointer { offset: cur as usize })
            } else if jumps < 0 || jumps >= buf.len() {
                Err(Error::BadNamePointer { offset: cur as usize })
            } else {
                name_walk(buf, pointer, true, end2, jumps + 1, labels)
            }
        }
    } else if buf[cur] >= 64 {
        Err(Error::BadNamePointer { offset: cur as usize })
    } else if buf[cur] == 0 {
        if labels_wire_len(labels) > 255 {
            Err(Error::NameTooLong)
        } else {
            Ok(
                (
                    labels,
                    if jumped {
                        real_end
                    } else {
                        cur + 1
                    },
                ),
            )
        }
    } else if cur + 1 + buf[cur] > buf.len() {
        Err(truncated(buf))
    } else {
        name_walk(
            buf,
            cur + 1 + buf[cur],
            jumped,
            real_end,
            jumps,
            labels.push(buf.subrange(cur + 1, cur + 1 + buf[cur])),
        )
    }
}

/// Decodes a name at `pos`: its labels and the position just after its
/// encoding (after the first pointer, if it was compressed).
pub open spec fn spec_decode_name(buf: Seq<u8>, pos: int) -> Result<(Seq<Seq<u8>>, int), Error> {
    name_walk(buf, pos, false, 0, 0, Seq::empty())
}

/// A successfully decoded name ends after where decoding started and within
/// the buffer.
pub proof fn lemma_name_walk_pos(
    buf: Seq<u8>,
    cur: int,
    jumped: bool,
    real_end: int,
    jumps: int,
    labels: Seq<Seq<u8>>,
    pos0: int,
)
    requires
        jumped ==> pos0 < real_end <= buf.len(),
        !jumped ==> pos0 <= cur,
    ensures
        name_walk(buf, cur, jumped, real_end, jumps, labels) matches Ok((ls, p)) ==> pos0 < p
            <= buf.len(),
    decreases buf.len() - jumps, buf.len() - cur,
{
    if 0 <= cur < buf.len() {
        if buf[cur] >= 192 {
            if cur + 1 < buf.len() {
                let pointer = (buf[cur] - 192) * 256 + buf[cur + 1];
                let end2 = if !jumped {
                    cur + 2
                } else {
                    real_end
                };
                if pointer < cur && 0 <= jumps < buf.len() {
                    lemma_name_walk_pos(buf, pointer, true, end2, jumps + 1, labels, pos0);
                }
            }
        } else if buf[cur] < 64 && buf[cur] != 0 && cur + 1 + buf[cur] <= buf.len() {
            lemma_name_walk_pos(
                buf,
                cur + 1 + buf[cur],
                jumped,
                real_end,
                jumps,
                labels.push(buf.subrange(cur + 1, cur + 1 + buf[cur])),
                pos0,
            );
        }
    }
}

pub proof fn lemma_rcat_assoc(w: Seq<u8>, p: Seq<u8>, x: Result<Seq<u8>, Error>)
    ensures
        rcat(w, rcat(p, x)) == rcat(w + p, x),
{
    if let Ok(b) = x {
        assert(w + (p + b) =~= (w + p) + b);
    }
}

/// Reads a big-endian `u16` at `*pos`, advancing past it. On error `pos` is
/// unchanged.
pub fn read_u16(buf: &[u8], pos: &mut usize) -> (r: Result<u16, Error>)
    ensures
        match spec_read_u16(buf@, *old(pos) as int) {
            Ok((v, p)) => r == Ok::<u16, Error>(v) && *final(pos) == p,
            Err(e) => r == Err::<u16, Error>(e) && *final(pos) == *old(pos),
        },
{
    if *pos > buf.len() || buf.len() - *pos < 2 {
        return Err(Error::Truncated { len: buf.len() });
    }
    let v = (buf[*pos] as u16) * 256 + (buf[*pos + 1] as u16);
    *pos = *pos + 2;
    Ok(v)
}

/// Reads a big-endian `u32` at `*pos`, advancing past it. On error `pos` is
/// unchanged.
pub fn read_u32(buf: &[u8], pos: &mut usize) -> (r: Result<u32, Error>)
    ensures
        match spec_read_u32(buf@, *old(pos) as int) {
            Ok((v, p)) => r == Ok::<u32, Error>(v) && *final(pos) == p,
            Err(e) => r == Err::<u32, Error>(e) && *final(pos) == *old(pos),
        },
{
    if *pos > buf.len() || buf.len() - *pos < 4 {
        return Err(Error::Truncated { len: buf.len() });
    }
    let p = *pos;
    let v = (buf[p] as u32) * 0x1000000 + (buf[p + 1] as u32) * 0x10000 + (buf[p + 2] as u32)
        * 256 + (buf[p + 3] as u32);
    *pos = p + 4;
    Ok(v)
}

/// Appends the big-endian encoding of `value`.
pub fn write_u16(buf: &mut Vec<u8>, value: u16)
    ensures
        final(buf)@ == old(buf)@ + be16(value),
{
    buf.push((value / 256) as u8);
    buf.push((value % 256) as u8);
    assert(buf@ =~= old(buf)@ + be16(value));
}

/// Appends the big-endian encoding of `value`.
pub fn write_u32(buf: &mut Vec<u8>, value: u32)
    ensures
        final(buf)@ == old(buf)@ + be32(value),
{
    buf.push((value / 0x1000000) as u8);
    buf.push(((value / 0x10000) % 256) as u8);
    buf.push(((value / 256) % 256) as u8);
    buf.push((value % 256) as u8);
    assert(buf@ =~= old(buf)@ + be32(value));
}

/// Encodes a DNS name without compression, appending to `buf`.
///
/// Compression is a size optimization this codec does not produce. Names
/// over 255 encoded bytes fail with `NameTooLong`; a label over 63 bytes
/// fails with `LabelTooLong` at the offset where it would start.
pub fn encode_name(name: &Name, buf: &mut Vec<u8>) -> (r: Result<(), Error>)
    ensures
        extends(old(buf)@, final(buf)@),
        match spec_encode_name(name@, old(buf)@.len() as int) {
            Ok(b) => r is Ok && final(buf)@ == old(buf)@ + b,
            Err(e) => r == Err::<(), Error>(e),
        },
        r == Err::<(), Error>(Error::NameTooLong) ==> final(buf)@ == old(buf)@,
{
    let ghost b0 = buf@;
    if let Err(e) = name.check_total_length() {
        assert(buf@.subrange(0, b0.len() as int) =~= b0);
        return Err(e);
    }
    let ghost ls = name@;
    let mut i: usize = 0;
    proof {
        assert(buf@.subrange(b0.len() as int, buf@.len() as int) =~= Seq::<u8>::empty());
        assert(Seq::<u8>::empty() + seq![0u8] =~= seq![0u8]);
        if let Ok(b) = enc_labels_from(ls, 0, b0.len() as int) {
            assert(Seq::<u8>::empty() + b =~= b);
        }
        assert(buf@.subrange(0, b0.len() as int) =~= b0);
    }
    while i < name.0.len()
        invariant
            ls == name@,
            ls.len() == name.0@.len(),
            0 <= i <= ls.len(),
            labels_wire_len(ls) <= 255,
            extends(b0, buf@),
            b0 == old(buf)@,
            enc_labels_from(ls, 0, b0.len() as int) == rcat(
                buf@.subrange(b0.len() as int, buf@.len() as int),
                enc_labels_from(ls, i as int, buf@.len() as int),
            ),
        decreases ls.len() - i,
    {
        let label = &name.0[i];
        proof {
            lemma_labels_view(name.0@);
        }
        if label.len() > 63 {
            return Err(Error::LabelTooLong { offset: buf.len() });
        }
        let ghost before = buf@;
        buf.push(label.len() as u8);
        append_bytes(buf, label.as_slice());
        proof {
            let piece = seq![ls[i as int].len() as u8] + ls[i as int];
            assert(buf@ =~= before + piece);
            lemma_rcat_assoc(
                before.subrange(b0.len() as int, before.len() as int),
                piece,
                enc_labels_from(ls, i + 1, buf@.len() as int),
            );
            assert(before.subrange(b0.len() as int, before.len() as int) + piece =~= buf@.subrange(
                b0.len() as int,
                buf@.len() as int,
            ));
            assert(buf@.subrange(0, b0.len() as int) =~= b0);
        }
        i = i + 1;
    }
    let ghost before = buf@;
    buf.push(0);
    proof {
        assert(buf@.subrange(0, b0.len() as int) =~= b0);
        assert(before.subrange(b0.len() as int, before.len() as int) + seq![0u8] =~= buf@.subrange(
            b0.len() as int,
            buf@.len() as int,
        ));
        assert(buf@ =~= b0 + buf@.subrange(b0.len() as int, buf@.len() as int));
    }
    Ok(())
}

/// Decodes a DNS name at `*pos`, following compression pointers
/// (RFC 1035 §4.1.4), and advances `pos` past the name's encoding (past the
/// first pointer when the name was compressed). On error `pos` is
/// unchanged.
pub fn decode_name(buf: &[u8], pos: &mut usize) -> (r: Result<Name, Error>)
    ensures
        match spec_decode_name(buf@, *old(pos) as int) {
            Ok((ls, p)) => (r matches Ok(n) && n@ == ls) && *final(pos) == p,
            Err(e) => r == Err::<Name, Error>(e) && *final(pos) == *old(pos),
        },
{
    let ghost pos0 = *pos as int;
    let mut labels: Vec<Vec<u8>> = Vec::new();
    let mut cur: usize = *pos;
    let mut jumped = false;
    let mut real_end: usize = 0;
    let mut jumps: usize = 0;
    proof {
        assert(labels_view(labels@) =~= Seq::<Seq<u8>>::empty());
    }
    loop
        invariant
            spec_decode_name(buf@, pos0) == name_walk(
                buf@,
                cur as int,
                jumped,
                real_end as int,
                jumps as int,
                labels_view(labels@),
            ),
            jumps <= buf@.len(),
            *pos == pos0,
            pos0 == *old(pos),
        decreases buf@.len() - jumps, buf@.len() - cur,
    {
        if cur >= buf.len() {
            return Err(Error::Truncated { len: buf.len() });
        }
        let b = buf[cur];
        if b >= 192 {
            if cur + 1 >= buf.len() {
                return Err(Error::Truncated { len: buf.len() });
            }
            let pointer = ((b - 192) as usize) * 256 + (buf[cur + 1] as usize);
            if !jumped {
                real_end = cur + 2;
                jumped = true;
            }
            if pointer >= cur {
                return Err(Error::BadNamePointer { offset: cur });
            }
            if jumps >= buf.len() {
                return Err(Error::BadNamePointer { offset: cur });
            }
            jumps = jumps + 1;
            cur = pointer;
        } else if b >= 64 {
            return Err(Error::BadNamePointer { offset: cur });
        } else if b == 0 {
            let name = Name(labels);
            match name.check_total_length() {
                Ok(()) => {
                    *pos = if jumped {
                        real_end
                    } else {
                        cur + 1
                    };
                    return Ok(name);
                },
                Err(e) => {
                    return Err(e);
                },
            }
        } else {
            let len = b as usize;
            if len > buf.len() - (cur + 1) {
                return Err(Error::Truncated { len: buf.len() });
            }
            let label = copy_bytes(buf, cur + 1, cur + 1 + len);
            let ghost old_labels = labels@;
            labels.push(label);
            proof {
                lemma_labels_view(labels@);
                lemma_labels_view(old_labels);
                assert(labels_view(labels@) =~= labels_view(old_labels).push(label@));
            }
            cur = cur + 1 + len;
        }
    }
}

} // verus!

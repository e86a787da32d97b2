//! Readers for the protobuf wire format: base-128 varints, field keys,
//! length-delimited fields and skipping of unknown fields.
//!
//! Every reader takes the message bytes and a position, and advances the
//! position over what it consumed, also when it fails.
use vstd::prelude::*;
use crate::text::str_from_utf8;

verus! {

/// What can go wrong while reading protobuf data.
#[derive(Debug, Clone, Copy, PartialEq, Eq)]
pub enum ProtoError {
    /// The data ended inside a varint.
    UnexpectedEnd,
    /// A varint ran over ten bytes.
    VarintTooLong,
    /// A length-delimited field claims more bytes than remain.
    FieldPastEnd,
    /// A field's wire type is none of 0 to 5.
    UnknownWireType(u64),
    /// A string field is not valid UTF-8.
    InvalidUtf8,
    /// A length-prefixed frame claims `len` bytes where only `remaining` remain.
    FrameTooLong { len: usize, remaining: usize },
}

/// The seven payload bits of a varint byte, placed at bit `shift`.
pub open spec fn varint_group(b: u8, shift: u64) -> u64 {
    ((b & 0x7f) as u64) << shift
}

/// Reads the varint whose first group has weight `2^shift` and starts at `pos`.
/// Groups are taken least significant first until a byte with a clear high bit;
/// the tenth byte must end the varint. Returns the value (or the error) and
/// the position after the last byte read.
pub open spec fn varint_from(data: Seq<u8>, pos: int, shift: u64) -> (Result<u64, ProtoError>, int)
    decreases data.len() - pos,
{
    if pos < 0 || pos >= data.len() {
        (Err(ProtoError::UnexpectedEnd), pos)
    } else {
        let b = data[pos];
        if b & 0x80 == 0 {
            (Ok(varint_group(b, shift)), pos + 1)
        } else if shift + 7 >= 64 {
            (Err(ProtoError::VarintTooLong), pos + 1)
        } else {
            let (rest, end) = varint_from(data, pos + 1, (shift + 7) as u64);
            (
                match rest {
                    Ok(v) => Ok(varint_group(b, shift) | v),
                    Err(e) => Err(e),
                },
                end,
            )
        }
    }
}

/// The varint that starts at `pos`, with the position after it.
pub open spec fn varint_at(data: Seq<u8>, pos: int) -> (Result<u64, ProtoError>, int) {
    varint_from(data, pos, 0)
}

/// A field key `(field number, wire type)` read as a varint at `pos`.
pub open spec fn key_at(data: Seq<u8>, pos: int) -> (Result<(u64, u64), ProtoError>, int) {
    let (r, end) = varint_at(data, pos);
    (
        match r {
            Ok(k) => Ok((k >> 3, k & 7)),
            Err(e) => Err(e),
        },
        end,
    )
}

/// A length-delimited field at `pos`: its payload as the range `(start, end)`
/// of `data`, with the position after it.
pub open spec fn bytes_at(data: Seq<u8>, pos: int) -> (Result<(int, int), ProtoError>, int) {
    let (r, p) = varint_at(data, pos);
    match r {
        Err(e) => (Err(e), p),
        Ok(v) => {
            let len = (v as usize) as int;
            if len > data.len() - p {
                (Err(ProtoError::FieldPastEnd), p)
            } else {
                (Ok((p, p + len)), p + len)
            }
        },
    }
}

/// A length-prefixed frame at `pos`: a varint length, then that many bytes.
/// Gives the payload range and the position after it; a length beyond the
/// remaining bytes is `FrameTooLong`.
pub open spec fn frame_at(data: Seq<u8>, pos: int) -> (Result<(int, int), ProtoError>, int) {
    let (r, p) = varint_at(data, pos);
    match r {
        Err(e) => (Err(e), p),
        Ok(v) => {
            let len = (v as usize) as int;
            if len > data.len() - p {
                (Err(ProtoError::FrameTooLong { len: v as usize, remaining: (data.len() - p) as usize }), p)
            } else {
                (Ok((p, p + len)), p + len)
            }
        },
    }
}

/// A length-prefixed frame at `pos` read as a stream: data that ends before
/// the announced length is `UnexpectedEnd`.
pub open spec fn stream_frame_at(data: Seq<u8>, pos: int) -> (Result<(int, int), ProtoError>, int) {
    let (r, p) = varint_at(data, pos);
    match r {
        Err(e) => (Err(e), p),
        Ok(v) => {
            let len = (v as usize) as int;
            if len > data.len() - p {
                (Err(ProtoError::UnexpectedEnd), p)
            } else {
                (Ok((p, p + len)), p + len)
            }
        },
    }
}

/// A string field at `pos`: the UTF-8 payload decoded to characters.
pub open spec fn string_at(data: Seq<u8>, pos: int) -> (Result<Seq<char>, ProtoError>, int) {
    let (r, p) = bytes_at(data, pos);
    match r {
        Err(e) => (Err(e), p),
        Ok((s, e)) => {
            let raw = data.subrange(s, e);
            if vstd::utf8::valid_utf8(raw) {
                (Ok(vstd::utf8::decode_utf8(raw)), p)
            } else {
                (Err(ProtoError::InvalidUtf8), p)
            }
        },
    }
}

/// `p` moved forward by `n`, but not past the end of `data`. A skip that
/// runs past the end ends the message, as a position at the end does.
pub open spec fn clamp_forward(data: Seq<u8>, p: int, n: int) -> int {
    if n > data.len() - p {
        data.len() as int
    } else {
        p + n
    }
}

/// Skips the value of a field of wire type `wire` that starts at `pos`:
/// a varint (0), eight bytes (1), a length-delimited payload (2), four bytes
/// (5), or nothing for the group markers (3, 4). The payload of a
/// length-delimited field is not checked against the end of the data.
pub open spec fn skip_at(data: Seq<u8>, pos: int, wire: u64) -> (Result<(), ProtoError>, int) {
    if wire == 0 {
        let (r, p) = varint_at(data, pos);
        (
            match r {
                Ok(_) => Ok(()),
                Err(e) => Err(e),
            },
            p,
        )
    } else if wire == 1 {
        (Ok(()), clamp_forward(data, pos, 8))
    } else if wire == 2 {
        let (r, p) = varint_at(data, pos);
        match r {
            Ok(v) => (Ok(()), clamp_forward(data, p, (v as usize) as int)),
            Err(e) => (Err(e), p),
        }
    } else if wire == 5 {
        (Ok(()), clamp_forward(data, pos, 4))
    } else if wire == 3 || wire == 4 {
        (Ok(()), pos)
    } else {
        (Err(ProtoError::UnknownWireType(wire)), pos)
    }
}

/// A varint read never moves backwards, and moves forward from any position
/// inside the data.
pub proof fn lemma_varint_from_advances(data: Seq<u8>, pos: int, shift: u64)
    requires
        0 <= pos <= data.len(),
    ensures
        pos <= varint_from(data, pos, shift).1 <= data.len(),
        pos < data.len() ==> pos < varint_from(data, pos, shift).1,
    decreases data.len() - pos,
{
    if pos < data.len() {
        let b = data[pos];
        if b & 0x80 != 0 && shift + 7 < 64 {
            lemma_varint_from_advances(data, pos + 1, (shift + 7) as u64);
        }
    }
}

/// Every reader stays inside the data, and a key read at a position inside
/// the data moves forward.
pub proof fn lemma_readers_advance(data: Seq<u8>, pos: int, wire: u64)
    requires
        0 <= pos <= data.len(),
    ensures
        pos <= varint_at(data, pos).1 <= data.len(),
        pos <= key_at(data, pos).1 <= data.len(),
        pos < data.len() ==> pos < key_at(data, pos).1,
        pos <= bytes_at(data, pos).1 <= data.len(),
        pos <= string_at(data, pos).1 <= data.len(),
        pos <= skip_at(data, pos, wire).1 <= data.len(),
        bytes_at(data, pos).0 matches Ok((s, e)) ==> pos <= s <= e <= data.len() && e == bytes_at(data, pos).1,
        pos <= frame_at(data, pos).1 <= data.len(),
        frame_at(data, pos).0 matches Ok((s, e)) ==> pos <= s <= e <= data.len() && e == frame_at(data, pos).1,
        pos < data.len() ==> pos < frame_at(data, pos).1,
        pos <= stream_frame_at(data, pos).1 <= data.len(),
        stream_frame_at(data, pos).0 matches Ok((s, e)) ==> pos <= s <= e <= data.len() && e == stream_frame_at(data, pos).1,
{
    lemma_varint_from_advances(data, pos, 0);
}

/// Reads a varint at `*pos`.
pub fn read_varint_at(data: &[u8], pos: &mut usize) -> (res: Result<u64, ProtoError>)
    requires
        *old(pos) <= data@.len(),
    ensures
        (res, *final(pos) as int) == varint_at(data@, *old(pos) as int),
{
    let ghost start = *old(pos) as int;
    let mut shift: u64 = 0;
    let mut value: u64 = 0;
    assert(forall|v: u64| 0u64 | v == v) by (bit_vector);
    loop
        invariant
            start == *old(pos) as int,
            start <= *pos <= data@.len(),
            shift <= 63,
            shift % 7 == 0,
            varint_at(data@, start) == (
                match varint_from(data@, *pos as int, shift).0 {
                    Ok(v) => Ok(value | v),
                    Err(e) => Err(e),
                },
                varint_from(data@, *pos as int, shift).1,
            ),
        decreases data@.len() - *pos,
    {
        if *pos >= data.len() {
            return Err(ProtoError::UnexpectedEnd);
        }
        let byte = data[*pos];
        *pos = *pos + 1;
        let group = ((byte & 0x7f) as u64) << shift;
        proof {
            assert(group == varint_group(byte, shift));
        }
        if byte & 0x80 == 0 {
            return Ok(value | group);
        }
        if shift + 7 >= 64 {
            return Err(ProtoError::VarintTooLong);
        }
        let ghost old_value = value;
        value = value | group;
        proof {
            let rest = varint_from(data@, *pos as int, (shift + 7) as u64).0;
            if let Ok(v) = rest {
                assert((old_value | group) | v == old_value | (group | v)) by (bit_vector);
            }
        }
        shift = shift + 7;
    }
}

/// Reads a varint from the front of `*data` and moves `*data` past the bytes
/// it read, also when the read fails.
pub fn read_varint_from_slice(data: &mut &[u8]) -> (res: Result<u64, ProtoError>)
    ensures
        res == varint_at(old(data)@, 0).0,
        final(data)@ == old(data)@.subrange(varint_at(old(data)@, 0).1, old(data)@.len() as int),
{
    let mut pos: usize = 0;
    let res = read_varint_at(*data, &mut pos);
    proof {
        lemma_readers_advance(data@, 0, 0);
    }
    let len: usize = data.len();
    *data = &data[pos..len];
    res
}

/// Reads a field key at `*pos`: the field number and the wire type.
pub fn read_key(data: &[u8], pos: &mut usize) -> (res: Result<(u64, u64), ProtoError>)
    requires
        *old(pos) <= data@.len(),
    ensures
        (res, *final(pos) as int) == key_at(data@, *old(pos) as int),
{
    let key = read_varint_at(data, pos)?;
    Ok((key >> 3, key & 7))
}

/// Reads a length-delimited field at `*pos` and returns its payload.
pub fn read_bytes<'a>(data: &'a [u8], pos: &mut usize) -> (res: Result<&'a [u8], ProtoError>)
    requires
        *old(pos) <= data@.len(),
    ensures
        *final(pos) as int == bytes_at(data@, *old(pos) as int).1,
        match bytes_at(data@, *old(pos) as int).0 {
            Ok((s, e)) => res matches Ok(b) && b@ == data@.subrange(s, e),
            Err(err) => res == Err::<&[u8], ProtoError>(err),
        },
{
    proof {
        lemma_readers_advance(data@, *pos as int, 0);
    }
    let len = read_varint_at(data, pos)? as usize;
    if len > data.len() - *pos {
        return Err(ProtoError::FieldPastEnd);
    }
    let start = *pos;
    *pos = *pos + len;
    Ok(&data[start..*pos])
}

/// Reads a string field at `*pos`.
pub fn read_string(data: &[u8], pos: &mut usize) -> (res: Result<String, ProtoError>)
    requires
        *old(pos) <= data@.len(),
    ensures
        *final(pos) as int == string_at(data@, *old(pos) as int).1,
        match string_at(data@, *old(pos) as int).0 {
            Ok(s) => res matches Ok(r) && r@ == s,
            Err(err) => res == Err::<String, ProtoError>(err),
        },
{
    let bytes = read_bytes(data, pos)?;
    match str_from_utf8(bytes) {
        Some(s) => Ok(s.to_owned()),
        None => Err(ProtoError::InvalidUtf8),
    }
}

/// Skips the value of a field of wire type `wire` at `*pos`.
pub fn skip_field(data: &[u8], pos: &mut usize, wire: u64) -> (res: Result<(), ProtoError>)
    requires
        *old(pos) <= data@.len(),
    ensures
        (res, *final(pos) as int) == skip_at(data@, *old(pos) as int, wire),
{
    proof {
        lemma_readers_advance(data@, *pos as int, wire);
    }
    if wire == 0 {
        read_varint_at(data, pos)?;
    } else if wire == 1 {
        *pos = advance_within(data, *pos, 8);
    } else if wire == 2 {
        let len = read_varint_at(data, pos)? as usize;
        *pos = advance_within(data, *pos, len);
    } else if wire == 5 {
        *pos = advance_within(data, *pos, 4);
    } else if wire == 3 || wire == 4 {
    } else {
        return Err(ProtoError::UnknownWireType(wire));
    }
    Ok(())
}

/// `p` moved forward by `n`, stopping at the end of `data`.
fn advance_within(data: &[u8], p: usize, n: usize) -> (res: usize)
    requires
        p <= data@.len(),
    ensures
        res as int == clamp_forward(data@, p as int, n as int),
{
    if n > data.len() - p {
        data.len()
    } else {
        p + n
    }
}

/// Reads a length-prefixed frame at `*pos` and returns a copy of its payload.
pub fn read_framed_bytes(data: &[u8], pos: &mut usize) -> (res: Result<Vec<u8>, ProtoError>)
    requires
        *old(pos) <= data@.len(),
    ensures
        *final(pos) as int == frame_at(data@, *old(pos) as int).1,
        match frame_at(data@, *old(pos) as int).0 {
            Ok((s, e)) => res matches Ok(b) && b@ == data@.subrange(s, e),
            Err(err) => res == Err::<Vec<u8>, ProtoError>(err),
        },
{
    proof {
        lemma_readers_advance(data@, *pos as int, 0);
    }
    let len = read_varint_at(data, pos)? as usize;
    let remaining = data.len() - *pos;
    if len > remaining {
        return Err(ProtoError::FrameTooLong { len, remaining });
    }
    let start = *pos;
    *pos = *pos + len;
    Ok(vstd::slice::slice_to_vec(&data[start..*pos]))
}

/// Reads a length-prefixed frame at `*pos` as from a stream.
pub fn read_framed(data: &[u8], pos: &mut usize) -> (res: Result<Vec<u8>, ProtoError>)
    requires
        *old(pos) <= data@.len(),
    ensures
        *final(pos) as int == stream_frame_at(data@, *old(pos) as int).1,
        match stream_frame_at(data@, *old(pos) as int).0 {
            Ok((s, e)) => res matches Ok(b) && b@ == data@.subrange(s, e),
            Err(err) => res == Err::<Vec<u8>, ProtoError>(err),
        },
{
    proof {
        lemma_readers_advance(data@, *pos as int, 0);
    }
    let len = read_varint_at(data, pos)? as usize;
    if len > data.len() - *pos {
        return Err(ProtoError::UnexpectedEnd);
    }
    let start = *pos;
    *pos = *pos + len;
    Ok(vstd::slice::slice_to_vec(&data[start..*pos]))
}

// ── Reading inside a longer message ─────────────────────────────────────

/// A varint read after a prefix is the same read, moved by the prefix's
/// length.
pub proof fn lemma_varint_shift(prefix: Seq<u8>, data: Seq<u8>, pos: int, shift: u64)
    requires
        0 <= pos <= data.len(),
    ensures
        varint_from(prefix + data, prefix.len() + pos, shift) == (
            varint_from(data, pos, shift).0,
            prefix.len() + varint_from(data, pos, shift).1,
        ),
    decreases data.len() - pos,
{
    let all = prefix + data;
    if pos < data.len() {
        assert(all[prefix.len() + pos] == data[pos]);
        let b = data[pos];
        if b & 0x80 != 0 && shift + 7 < 64 {
            lemma_varint_shift(prefix, data, pos + 1, (shift + 7) as u64);
        }
    }
}

/// Every reader, after a prefix, reads the same and ends moved by the
/// prefix's length; a payload range moves by it too.
pub proof fn lemma_readers_shift(prefix: Seq<u8>, data: Seq<u8>, pos: int, wire: u64)
    requires
        0 <= pos <= data.len(),
    ensures
        ({
            let all = prefix + data;
            let n = prefix.len() as int;
            &&& varint_at(all, n + pos) == (varint_at(data, pos).0, n + varint_at(data, pos).1)
            &&& key_at(all, n + pos) == (key_at(data, pos).0, n + key_at(data, pos).1)
            &&& skip_at(all, n + pos, wire) == (skip_at(data, pos, wire).0, n + skip_at(data, pos, wire).1)
            &&& bytes_at(all, n + pos).1 == n + bytes_at(data, pos).1
            &&& (bytes_at(data, pos).0 is Ok <==> bytes_at(all, n + pos).0 is Ok)
            &&& (bytes_at(data, pos).0 matches Err(e) ==> bytes_at(all, n + pos).0 == Err::<(int, int), ProtoError>(e))
            &&& (bytes_at(data, pos).0 matches Ok((s, e)) ==> bytes_at(all, n + pos).0 == Ok::<(int, int), ProtoError>((n + s, n + e))
                && all.subrange(n + s, n + e) == data.subrange(s, e))
        }),
{
    let all = prefix + data;
    let n = prefix.len() as int;
    lemma_varint_shift(prefix, data, pos, 0);
    lemma_readers_advance(data, pos, wire);
    let (r, p) = varint_at(data, pos);
    if let Ok(v) = r {
        let len = (v as usize) as int;
        if len <= data.len() - p {
            assert(all.subrange(n + p, n + p + len) =~= data.subrange(p, p + len));
        }
    }
}

// ── Round trip ───────────────────────────────────────────────────────────

/// The canonical (shortest) varint encoding of `v`: seven bits per byte,
/// least significant first, with the high bit set on every byte but the
/// last.
pub open spec fn varint_encoding(v: u64) -> Seq<u8>
    decreases v,
{
    if v < 128 {
        seq![v as u8]
    } else {
        seq![((v % 128) + 128) as u8] + varint_encoding(v / 128)
    }
}

/// The encoding of `v` read with its first group at weight `2^shift`, when
/// no bit of `v` is shifted out, gives `v << shift` and ends after the
/// encoding.
proof fn lemma_varint_encoding_read(v: u64, shift: u64, rest: Seq<u8>)
    requires
        shift <= 63,
        (v << shift) >> shift == v,
    ensures
        varint_from(varint_encoding(v) + rest, 0, shift) == (
            Ok::<u64, ProtoError>(v << shift),
            varint_encoding(v).len() as int,
        ),
    decreases v,
{
    let data = varint_encoding(v) + rest;
    if v < 128 {
        let b = v as u8;
        assert(data[0] == b);
        assert(b & 0x80 == 0 && ((b & 0x7f) as u64) == v) by (bit_vector)
            requires
                v < 128,
                b == v as u8,
        ;
    } else {
        let b = ((v % 128) + 128) as u8;
        let w = v / 128;
        let s7 = (shift + 7) as u64;
        assert(b & 0x80 != 0 && ((b & 0x7f) as u64) == v % 128) by (bit_vector)
            requires
                v >= 128,
                b == ((v % 128) + 128) as u8,
        ;
        assert(shift + 7 < 64 && (w << s7) >> s7 == w && ((v % 128) << shift) | (w << s7) == v << shift)
            by (bit_vector)
            requires
                v >= 128,
                shift <= 63,
                (v << shift) >> shift == v,
                w == v / 128,
                s7 == shift + 7,
        ;
        lemma_varint_encoding_read(w, s7, rest);
        let tail = varint_encoding(w) + rest;
        assert(data =~= seq![b] + tail);
        lemma_varint_shift(seq![b], tail, 0, s7);
        assert(data[0] == b);
    }
}

/// Reading the canonical encoding of `v`, followed by any bytes, gives `v`
/// and consumes exactly the encoding, leaving the bytes after it.
pub proof fn law_varint_round_trip(v: u64, rest: Seq<u8>)
    ensures
        varint_at(varint_encoding(v) + rest, 0) == (Ok::<u64, ProtoError>(v), varint_encoding(v).len() as int),
        (varint_encoding(v) + rest).subrange(
            varint_encoding(v).len() as int,
            (varint_encoding(v) + rest).len() as int,
        ) == rest,
{
    assert((v << 0u64) >> 0u64 == v && v << 0u64 == v) by (bit_vector);
    lemma_varint_encoding_read(v, 0, rest);
    assert((varint_encoding(v) + rest).subrange(
        varint_encoding(v).len() as int,
        (varint_encoding(v) + rest).len() as int,
    ) =~= rest);
}

} // verus!

use vstd::prelude::*;
use vstd::string::*;
use vstd::utf8::encode_utf8;
use crate::laws::lemma_compressed_round_trip;
use crate::varint::{
    ByteReader, CodecError, encode_u32, lemma_decode_len, two_pow_32, varint_bytes, varint_decode,
};

verus! {

/// The VarInt bytes of a length or id below 2^32.
pub open spec fn len_varint(n: nat) -> Seq<u8> {
    varint_bytes(n)
}

/// The packet id's VarInt followed by the payload.
pub open spec fn unframed(id: nat, payload: Seq<u8>) -> Seq<u8> {
    len_varint(id) + payload
}

/// The unframed block with its length in front.
pub open spec fn framed(id: nat, payload: Seq<u8>) -> Seq<u8> {
    len_varint(unframed(id, payload).len()) + unframed(id, payload)
}

/// A VarInt byte count followed by that many bytes: the block and the number
/// of bytes taken in all.
pub open spec fn read_prefixed(s: Seq<u8>) -> Result<(Seq<u8>, nat), CodecError> {
    match varint_decode(s) {
        Ok((n, k)) => if k + n <= s.len() {
            Ok((s.subrange(k as int, (k + n) as int), k + n))
        } else {
            Err(CodecError::TruncatedInput)
        },
        Err(e) => Err(e),
    }
}

/// The UTF-8 bytes of a string with their count in front.
pub open spec fn string_bytes(s: Seq<char>) -> Seq<u8> {
    len_varint(encode_utf8(s).len()) + encode_utf8(s)
}

/// Names the bytes that `deflate::deflate_bytes_zlib` produces for its input.
pub uninterp spec fn zlib_deflate_of(b: Seq<u8>) -> Seq<u8>;

/// Relies on deflate::deflate_bytes_zlib: a zlib stream determined by the
/// input alone.
#[verifier::external_body]
fn deflate_zlib(b: &Vec<u8>) -> (r: Vec<u8>)
    ensures
        r@ == zlib_deflate_of(b@),
{
    deflate::deflate_bytes_zlib(b.as_slice())
}

/// The declared length and body of a compressed frame.
pub open spec fn compressed_parts(id: nat, payload: Seq<u8>, threshold: nat) -> (nat, Seq<u8>) {
    let inner = unframed(id, payload);
    if inner.len() >= threshold {
        (inner.len(), zlib_deflate_of(inner))
    } else {
        (0, inner)
    }
}

/// The compressed frame of a packet: the total length, the declared length and
/// the body. The total length is taken modulo 2^32, as nothing bounds the
/// deflated body.
pub open spec fn compressed_frame(id: nat, payload: Seq<u8>, threshold: nat) -> Seq<u8> {
    let (declared, body) = compressed_parts(id, payload, threshold);
    let head = len_varint(declared);
    varint_bytes((head.len() + body.len()) % two_pow_32()) + head + body
}

/// Splits the VarInt at the front of `s` from the bytes behind it: a packet id
/// from its payload, or a declared length from its body.
pub open spec fn split_id(s: Seq<u8>) -> Result<(nat, Seq<u8>), CodecError> {
    match varint_decode(s) {
        Ok((id, k)) => Ok((id, s.skip(k as int))),
        Err(e) => Err(e),
    }
}

/// The id and payload behind a declared length, given what the body inflated to.
pub open spec fn after_inflate(declared: nat, inflated: Option<Seq<u8>>) -> Result<(nat, Seq<u8>), CodecError> {
    match inflated {
        None => Err(CodecError::UnderlyingIoError),
        Some(inner) => if inner.len() != declared {
            Err(CodecError::DecompressionMismatch)
        } else {
            split_id(inner)
        },
    }
}

/// The id and payload behind a declared length and body, given what the body
/// inflates to: the body itself where the declared length is 0.
pub open spec fn after_block(declared: nat, body: Seq<u8>, inflated: Option<Seq<u8>>) -> Result<(nat, Seq<u8>), CodecError> {
    if declared == 0 {
        split_id(body)
    } else {
        after_inflate(declared, inflated)
    }
}

/// The id and payload in the block of a compressed frame, given what its body
/// inflates to.
pub open spec fn parse_compressed(block: Seq<u8>, inflated: Option<Seq<u8>>) -> Result<(nat, Seq<u8>), CodecError> {
    match split_id(block) {
        Ok((declared, body)) => after_block(declared, body, inflated),
        Err(e) => Err(e),
    }
}

/// The bytes of an optional byte vector.
pub open spec fn opt_bytes(o: Option<Vec<u8>>) -> Option<Seq<u8>> {
    match o {
        Some(v) => Some(v@),
        None => None,
    }
}

/// The id and payload of the compressed frame at the front of `s`, given what
/// its body inflates to.
pub open spec fn read_compressed(s: Seq<u8>, inflated: Option<Seq<u8>>) -> Result<(nat, Seq<u8>), CodecError> {
    match read_prefixed(s) {
        Ok((block, _)) => parse_compressed(block, inflated),
        Err(e) => Err(e),
    }
}

/// Whether an executable packet result is the mathematical one.
pub open spec fn packet_result(r: Result<(usize, Vec<u8>), CodecError>, m: Result<(nat, Seq<u8>), CodecError>) -> bool {
    match m {
        Ok((id, p)) => r is Ok && r->Ok_0.0 as nat == id && r->Ok_0.1@ == p,
        Err(e) => r == Err::<(usize, Vec<u8>), CodecError>(e),
    }
}

/// The VarInt bytes of a length or id below 2^32.
pub fn write_len(n: usize) -> (r: Vec<u8>)
    requires
        n < two_pow_32(),
    ensures
        r@ == len_varint(n as nat),
{
    encode_u32(n as u32)
}

/// The VarInt bytes of the sum of two lengths, taken modulo 2^32.
fn write_len_sum(a: usize, b: usize) -> (r: Vec<u8>)
    ensures
        r@ == varint_bytes((a as nat + b as nat) % two_pow_32()),
{
    let m: u64 = 0x1_0000_0000u64;
    let s: u64 = (a as u64 % m + b as u64 % m) % m;
    proof {
        vstd::arithmetic::div_mod::lemma_add_mod_noop(a as int, b as int, m as int);
    }
    encode_u32(s as u32)
}

/// Moves the bytes of `b` to the end of `a`.
pub(crate) fn append_all(a: &mut Vec<u8>, b: Vec<u8>)
    ensures
        final(a)@ == old(a)@ + b@,
{
    let mut b = b;
    a.append(&mut b);
}

/// Reads the id VarInt and the payload behind it.
fn split_id_exec(s: Vec<u8>) -> (r: Result<(usize, Vec<u8>), CodecError>)
    ensures
        packet_result(r, split_id(s@)),
{
    proof { lemma_decode_len(s@); }
    let mut reader = ByteReader::new(s);
    match reader.read_varint_u32() {
        Ok(id) => {
            let rest = reader.read_to_end();
            Ok((id as usize, rest))
        },
        Err(e) => Err(e),
    }
}

/// The id and payload behind a declared length, given what the body inflated to.
pub fn finish_inflated(declared: u32, inflated: Option<Vec<u8>>) -> (r: Result<(usize, Vec<u8>), CodecError>)
    ensures
        packet_result(r, after_inflate(declared as nat, opt_bytes(inflated))),
{
    match inflated {
        None => Err(CodecError::UnderlyingIoError),
        Some(inner) => {
            if inner.len() as u64 != declared as u64 {
                Err(CodecError::DecompressionMismatch)
            } else {
                split_id_exec(inner)
            }
        },
    }
}

pub struct PacketUtils {}

impl PacketUtils {
    /// The packet id's VarInt and the payload, with their length in front.
    pub fn write_packet(packetid: usize, packet: Vec<u8>) -> (r: Vec<u8>)
        requires
            packetid < two_pow_32(),
            unframed(packetid as nat, packet@).len() < two_pow_32(),
        ensures
            r@ == framed(packetid as nat, packet@),
    {
        let inner = Self::write_packet_lengthless(packetid, packet);
        let mut out = write_len(inner.len());
        append_all(&mut out, inner);
        out
    }

    /// The packet id's VarInt followed by the payload, with no length in front.
    pub fn write_packet_lengthless(packetid: usize, packet: Vec<u8>) -> (r: Vec<u8>)
        requires
            packetid < two_pow_32(),
        ensures
            r@ == unframed(packetid as nat, packet@),
    {
        let mut out = write_len(packetid);
        append_all(&mut out, packet);
        out
    }

    /// The UTF-8 bytes of `string` with their count in front.
    pub fn write_string(string: String) -> (r: Vec<u8>)
        requires
            encode_utf8(string@).len() < two_pow_32(),
        ensures
            r@ == string_bytes(string@),
    {
        let bytes = string.as_str().as_bytes_vec();
        let mut out = write_len(bytes.len());
        append_all(&mut out, bytes);
        out
    }

    /// The compressed frame of a packet; fails with `CompressionDisabled`
    /// where `threshold` is negative.
    pub fn write_compressed_packet(packetid: usize, packet: Vec<u8>, threshold: i32) -> (r: Result<Vec<u8>, CodecError>)
        requires
            packetid < two_pow_32(),
            unframed(packetid as nat, packet@).len() < two_pow_32(),
        ensures
            threshold < 0 ==> r == Err::<Vec<u8>, CodecError>(CodecError::CompressionDisabled),
            threshold >= 0 ==> r is Ok && r->Ok_0@ == compressed_frame(
                packetid as nat,
                packet@,
                threshold as nat,
            ),
            threshold >= 0 && packet@.len() + 20 < two_pow_32() && (unframed(
                packetid as nat,
                packet@,
            ).len() >= threshold ==> zlib_deflate_of(unframed(packetid as nat, packet@)).len() + 20
                < two_pow_32()) ==> read_compressed(
                r->Ok_0@,
                Some(unframed(packetid as nat, packet@)),
            ) == Ok::<(nat, Seq<u8>), CodecError>((packetid as nat, packet@)),
    {
        let ghost p = packet@;
        if threshold < 0 {
            return Err(CodecError::CompressionDisabled);
        }
        let inner = Self::write_packet_lengthless(packetid, packet);
        let n = inner.len();
        let ghost iv = inner@;
        let (declared, body) = if n as u64 >= threshold as u64 {
            let d = deflate_zlib(&inner);
            (n, d)
        } else {
            (0usize, inner)
        };
        let head = write_len(declared);
        let mut out = write_len_sum(head.len(), body.len());
        append_all(&mut out, head);
        append_all(&mut out, body);
        proof {
            if p.len() + 20 < two_pow_32() && (iv.len() >= threshold
                ==> zlib_deflate_of(iv).len() + 20 < two_pow_32()) {
                lemma_compressed_round_trip(packetid as nat, p, threshold as nat);
            }
        }
        Ok(out)
    }

    /// Reads one compressed frame from `reader`: its declared length and its
    /// body, which is compressed where the declared length is not 0.
    pub fn read_compressed_frame(reader: &mut ByteReader) -> (r: Result<(u32, Vec<u8>), CodecError>)
        requires
            old(reader).wf(),
        ensures
            final(reader).wf(),
            match read_prefixed(old(reader)@) {
                Ok((block, n)) => final(reader)@ == old(reader)@.skip(n as int) && match split_id(
                    block,
                ) {
                    Ok((d, body)) => r is Ok && r->Ok_0.0 as nat == d && r->Ok_0.1@ == body,
                    Err(e) => r == Err::<(u32, Vec<u8>), CodecError>(e),
                },
                Err(e) => r == Err::<(u32, Vec<u8>), CodecError>(e),
            },
    {
        let block = Self::read_varint_prefixed_bytearray(reader)?;
        Self::split_compressed_block(block)
    }

    /// The declared length and body in the block of a compressed frame.
    pub fn split_compressed_block(block: Vec<u8>) -> (r: Result<(u32, Vec<u8>), CodecError>)
        ensures
            match split_id(block@) {
                Ok((d, body)) => r is Ok && r->Ok_0.0 as nat == d && r->Ok_0.1@ == body,
                Err(e) => r == Err::<(u32, Vec<u8>), CodecError>(e),
            },
    {
        proof { lemma_decode_len(block@); }
        let mut inner = ByteReader::new(block);
        let declared = inner.read_varint_u32()?;
        let body = inner.read_to_end();
        Ok((declared, body))
    }

    /// The packet id and payload of a compressed frame, from its declared
    /// length, its body, and what the body inflates to (read only where the
    /// declared length is not 0).
    pub fn finish_compressed(declared: u32, body: Vec<u8>, inflated: Option<Vec<u8>>) -> (r: Result<(usize, Vec<u8>), CodecError>)
        ensures
            packet_result(r, after_block(declared as nat, body@, opt_bytes(inflated))),
    {
        if declared == 0 {
            split_id_exec(body)
        } else {
            finish_inflated(declared, inflated)
        }
    }

    /// Reads a VarInt byte count, then exactly that many bytes.
    pub fn read_varint_prefixed_bytearray(reader: &mut ByteReader) -> (r: Result<Vec<u8>, CodecError>)
        requires
            old(reader).wf(),
        ensures
            final(reader).wf(),
            match read_prefixed(old(reader)@) {
                Ok((block, n)) => r is Ok && r->Ok_0@ == block && final(reader)@ == old(reader)@.skip(
                    n as int,
                ),
                Err(e) => r == Err::<Vec<u8>, CodecError>(e),
            },
            varint_decode(old(reader)@) is Err ==> final(reader)@ == old(reader)@,
            varint_decode(old(reader)@) matches Ok((_, k)) ==> read_prefixed(old(reader)@) is Err
                ==> final(reader)@ == old(reader)@.skip(k as int),
    {
        proof { lemma_decode_len(old(reader)@); }
        let n = reader.read_varint_u32()?;
        let ghost mid = reader@;
        let r = reader.read_exact(n as usize);
        proof {
            if let Ok((v, k)) = varint_decode(old(reader)@) {
                if k + v <= old(reader)@.len() {
                    assert(mid == old(reader)@.skip(k as int));
                    assert(mid.take(v as int) =~= old(reader)@.subrange(k as int, (k + v) as int));
                    assert(mid.skip(v as int) =~= old(reader)@.skip((k + v) as int));
                }
            }
        }
        r
    }
}

} // verus!

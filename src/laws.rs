use vstd::prelude::*;
use crate::packet::{
    compressed_frame, compressed_parts, framed, len_varint, parse_compressed,
    read_compressed, read_prefixed, split_id, unframed, zlib_deflate_of,
};
use crate::varint::{
    CodecError, decode_from, pow128, prefix_value, two_pow_32, varint_bytes, varint_decode,
};

verus! {

/// A VarInt's byte count is the least `n` with `v < 128^n`: one byte below
/// 128, and each further byte only where the value needs it.
pub proof fn lemma_varint_minimal(v: nat)
    ensures
        v < pow128(varint_bytes(v).len()),
        varint_bytes(v).len() == 1 || pow128((varint_bytes(v).len() - 1) as nat) <= v,
        varint_bytes(v).len() >= 1,
    decreases v,
{
    if v >= 128 {
        lemma_varint_minimal(v / 128);
        let l = varint_bytes(v / 128).len();
        assert(varint_bytes(v).len() == l + 1);
        assert(pow128((l + 1) as nat) == 128 * pow128(l));
        let p = pow128(l);
        assert(v < 128 * p) by (nonlinear_arith)
            requires
                v / 128 < p,
        ;
        assert(pow128(l) == 128 * pow128((l - 1) as nat)) by {
            if l > 1 {} else { assert(pow128(1) == 128 * pow128(0)); }
        }
    } else {
        assert(pow128(1) == 128 * pow128(0));
    }
}

/// A 32-bit value takes at most five bytes.
pub proof fn lemma_varint_at_most_five(v: nat)
    requires
        v < two_pow_32(),
    ensures
        varint_bytes(v).len() <= 5,
{
    lemma_varint_minimal(v);
    reveal_with_fuel(pow128, 6);
    let l = varint_bytes(v).len();
    if l > 5 {
        lemma_pow128_mono(5, (l - 1) as nat);
    }
}

proof fn lemma_pow128_mono(a: nat, b: nat)
    requires
        a <= b,
    ensures
        pow128(a) <= pow128(b),
    decreases b,
{
    if a < b {
        lemma_pow128_mono(a, (b - 1) as nat);
    }
}

proof fn lemma_decode_encoded_at(s: Seq<u8>, i: nat, v: nat)
    requires
        i + varint_bytes(v).len() <= 5,
        i + varint_bytes(v).len() <= s.len(),
        s.subrange(i as int, (i + varint_bytes(v).len()) as int) == varint_bytes(v),
    ensures
        decode_from(s, i) == Ok::<(nat, nat), CodecError>(
            ((prefix_value(s, i) + v * pow128(i)) % two_pow_32(), i + varint_bytes(v).len()),
        ),
    decreases v,
{
    let l = varint_bytes(v).len();
    assert(s[i as int] == varint_bytes(v)[0]);
    if v < 128 {
        assert(prefix_value(s, i + 1) == prefix_value(s, i) + (s[i as int] % 128) as nat * pow128(i));
    } else {
        let w = v / 128;
        let lw = varint_bytes(w).len();
        let vb = varint_bytes(v);
        assert(vb == seq![(v % 128 + 128) as u8] + varint_bytes(w));
        assert(vb.subrange(1, l as int) =~= varint_bytes(w));
        assert(s.subrange((i + 1) as int, (i + 1 + lw) as int) =~= s.subrange(
            i as int,
            (i + l) as int,
        ).subrange(1, l as int));
        lemma_decode_encoded_at(s, i + 1, w);
        let p = pow128(i);
        assert(prefix_value(s, i + 1) == prefix_value(s, i) + (v % 128) * p);
        assert(pow128(i + 1) == 128 * p);
        assert((v % 128) * p + w * (128 * p) == v * p) by (nonlinear_arith)
            requires
                w == v / 128,
        ;
    }
}

/// Decoding the VarInt of a 32-bit value gives the value back, and takes
/// exactly its bytes, whatever follows them.
pub proof fn lemma_varint_round_trip(v: nat, rest: Seq<u8>)
    requires
        v < two_pow_32(),
    ensures
        varint_decode(varint_bytes(v) + rest) == Ok::<(nat, nat), CodecError>(
            (v, varint_bytes(v).len()),
        ),
{
    lemma_varint_at_most_five(v);
    let s = varint_bytes(v) + rest;
    assert(s.subrange(0, varint_bytes(v).len() as int) =~= varint_bytes(v));
    lemma_decode_encoded_at(s, 0, v);
    assert(prefix_value(s, 0) == 0);
    assert(pow128(0) == 1);
    let one = pow128(0);
    assert(v * one == v) by (nonlinear_arith)
        requires
            one == 1,
    ;
    assert((prefix_value(s, 0) + v * pow128(0)) % two_pow_32() == v);
    assert(v % two_pow_32() == v);
}

/// Five bytes in a row that all carry the continuation bit are a malformed
/// VarInt; an input that ends before any byte without it is truncated.
pub proof fn lemma_varint_bounds(s: Seq<u8>)
    ensures
        s.len() >= 5 && (forall|j: int| 0 <= j < 5 ==> s[j] >= 128) ==> varint_decode(s)
            == Err::<(nat, nat), CodecError>(CodecError::MalformedVarInt),
        s.len() < 5 && (forall|j: int| 0 <= j < s.len() ==> s[j] >= 128) ==> varint_decode(s)
            == Err::<(nat, nat), CodecError>(CodecError::TruncatedInput),
{
    reveal_with_fuel(decode_from, 6);
}

/// The id VarInt and payload of an unframed block split back apart.
pub proof fn lemma_split_id(id: nat, payload: Seq<u8>)
    requires
        id < two_pow_32(),
    ensures
        split_id(unframed(id, payload)) == Ok::<(nat, Seq<u8>), CodecError>((id, payload)),
{
    assert(id % two_pow_32() == id);
    lemma_varint_round_trip(id, payload);
    let s = unframed(id, payload);
    assert(s.skip(varint_bytes(id).len() as int) =~= payload);
}

/// Reading the length-prefixed block of `len_varint(b.len()) + b + rest` gives `b`.
pub proof fn lemma_prefixed_round_trip(b: Seq<u8>, rest: Seq<u8>)
    requires
        b.len() < two_pow_32(),
    ensures
        read_prefixed(len_varint(b.len()) + b + rest) == Ok::<(Seq<u8>, nat), CodecError>(
            (b, len_varint(b.len()).len() + b.len()),
        ),
{
    let h = len_varint(b.len());
    assert(b.len() % two_pow_32() == b.len());
    assert(h + b + rest =~= h + (b + rest));
    lemma_varint_round_trip(b.len(), b + rest);
    assert((h + b + rest).subrange(h.len() as int, (h.len() + b.len()) as int) =~= b);
}

/// Reading the length-prefixed block of a framed packet gives back the packet
/// id's VarInt followed by the payload.
pub proof fn lemma_frame_round_trip(id: nat, payload: Seq<u8>)
    requires
        unframed(id, payload).len() < two_pow_32(),
    ensures
        read_prefixed(framed(id, payload)) == Ok::<(Seq<u8>, nat), CodecError>(
            (unframed(id, payload), framed(id, payload).len()),
        ),
{
    let b = unframed(id, payload);
    lemma_prefixed_round_trip(b, Seq::empty());
    assert(len_varint(b.len()) + b + Seq::<u8>::empty() =~= framed(id, payload));
}

/// The block of a compressed frame, declared length and body, parses back to
/// the packet id and payload where the body inflates to the unframed block.
proof fn lemma_parse_block(id: nat, payload: Seq<u8>, declared: nat, body: Seq<u8>)
    requires
        id < two_pow_32(),
        declared < two_pow_32(),
        declared == 0 ==> body == unframed(id, payload),
        declared != 0 ==> declared == unframed(id, payload).len(),
    ensures
        parse_compressed(len_varint(declared) + body, Some(unframed(id, payload))) == Ok::<
            (nat, Seq<u8>),
            CodecError,
        >((id, payload)),
{
    let head = len_varint(declared);
    let block = head + body;
    lemma_varint_round_trip(declared, body);
    assert(block.skip(head.len() as int) =~= body);
    lemma_split_id(id, payload);
}

/// Reading a compressed frame, where its body inflates to the block that was
/// deflated, gives back the packet id and payload, provided the lengths fit in
/// 32 bits.
pub proof fn lemma_compressed_round_trip(id: nat, payload: Seq<u8>, threshold: nat)
    requires
        id < two_pow_32(),
        payload.len() + 20 < two_pow_32(),
        unframed(id, payload).len() >= threshold ==> zlib_deflate_of(unframed(id, payload)).len()
            + 20 < two_pow_32(),
    ensures
        read_compressed(compressed_frame(id, payload, threshold), Some(unframed(id, payload)))
            == Ok::<(nat, Seq<u8>), CodecError>((id, payload)),
{
    lemma_varint_at_most_five(id);
    let (declared, body) = compressed_parts(id, payload, threshold);
    let head = len_varint(declared);
    let block = head + body;
    lemma_varint_at_most_five(declared);
    assert(block.len() < two_pow_32());
    assert(block.len() % two_pow_32() == block.len());
    lemma_prefixed_round_trip(block, Seq::empty());
    assert(len_varint(block.len()) + block + Seq::<u8>::empty() =~= compressed_frame(
        id,
        payload,
        threshold,
    ));
    lemma_parse_block(id, payload, declared, body);
}

} // verus!

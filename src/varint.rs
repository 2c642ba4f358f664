use vstd::prelude::*;

verus! {

/// Errors that the codec reports to its caller.
#[derive(Debug, Clone, Copy, PartialEq, Eq, Structural)]
pub enum CodecError {
    /// A VarInt's continuation chain ran past five bytes.
    MalformedVarInt,
    /// The source ended before the expected number of bytes was read.
    TruncatedInput,
    /// Compression was asked for with a negative threshold.
    CompressionDisabled,
    /// The inflated body is not as long as its declared length.
    DecompressionMismatch,
    /// The byte stream itself failed.
    UnderlyingIoError,
}

/// 2^32, the number of 32-bit patterns.
pub open spec fn two_pow_32() -> nat {
    0x1_0000_0000
}

/// The unsigned 32-bit pattern of a signed value.
pub open spec fn unsigned_of(v: i32) -> nat {
    if v >= 0 { v as nat } else { (v + two_pow_32()) as nat }
}

/// The signed value of an unsigned 32-bit pattern.
pub open spec fn signed_of(v: nat) -> int {
    if v < 0x8000_0000 { v as int } else { v - two_pow_32() }
}

/// 128 to the power `n`.
pub open spec fn pow128(n: nat) -> nat
    decreases n,
{
    if n == 0 { 1 } else { 128 * pow128((n - 1) as nat) }
}

/// The VarInt bytes of a non-negative value: low 7 bits first, the
/// continuation bit on every byte but the last.
pub open spec fn varint_bytes(v: nat) -> Seq<u8>
    decreases v,
{
    if v < 128 {
        seq![v as u8]
    } else {
        seq![(v % 128 + 128) as u8] + varint_bytes(v / 128)
    }
}

/// The VarInt bytes of a signed 32-bit value, taken as its unsigned pattern.
pub open spec fn varint_of(v: i32) -> Seq<u8> {
    varint_bytes(unsigned_of(v))
}

/// The sum of the 7-bit groups of the first `n` bytes of `s`, each at its place.
pub open spec fn prefix_value(s: Seq<u8>, n: nat) -> nat
    decreases n,
{
    if n == 0 || n > s.len() {
        0
    } else {
        prefix_value(s, (n - 1) as nat) + (s[n - 1] % 128) as nat * pow128((n - 1) as nat)
    }
}

/// Decoding of a VarInt at the front of `s`, going on from byte `i`: the value
/// as an unsigned 32-bit pattern and the number of bytes it takes, or the error.
pub open spec fn decode_from(s: Seq<u8>, i: nat) -> Result<(nat, nat), CodecError>
    decreases 5 - i,
{
    if i >= 5 {
        Err(CodecError::MalformedVarInt)
    } else if i >= s.len() {
        Err(CodecError::TruncatedInput)
    } else if s[i as int] < 128 {
        Ok((prefix_value(s, i + 1) % two_pow_32(), i + 1))
    } else {
        decode_from(s, i + 1)
    }
}

/// Decoding of the VarInt at the front of `s`.
pub open spec fn varint_decode(s: Seq<u8>) -> Result<(nat, nat), CodecError> {
    decode_from(s, 0)
}

/// What a decoder of signed 32-bit VarInts returns on `s`.
pub open spec fn varint_decode_i32(s: Seq<u8>) -> Result<i32, CodecError> {
    match varint_decode(s) {
        Ok((v, _)) => Ok(signed_of(v) as i32),
        Err(e) => Err(e),
    }
}

/// The VarInt bytes of `value`, taken as an unsigned 32-bit pattern.
pub fn encode_u32(value: u32) -> (r: Vec<u8>)
    ensures
        r@ == varint_bytes(value as nat),
{
    let mut out: Vec<u8> = Vec::new();
    let mut v: u32 = value;
    loop
        invariant
            out@ + varint_bytes(v as nat) == varint_bytes(value as nat),
        decreases v,
    {
        if v < 128 {
            out.push(v as u8);
            assert(out@ == varint_bytes(value as nat));
            return out;
        }
        let byte: u8 = ((v % 128) + 128) as u8;
        out.push(byte);
        proof {
            assert(varint_bytes(v as nat) == seq![byte] + varint_bytes((v / 128) as nat));
            assert(out@ + varint_bytes((v / 128) as nat) == varint_bytes(value as nat));
        }
        v = v / 128;
    }
}

/// The unsigned 32-bit pattern of `value`.
pub fn pattern_of(value: i32) -> (r: u32)
    ensures
        r as nat == unsigned_of(value),
{
    if value >= 0 {
        value as u32
    } else {
        (value as i64 + 0x1_0000_0000i64) as u32
    }
}

/// The signed value of the 32-bit pattern `value`.
pub fn signed_from(value: u32) -> (r: i32)
    ensures
        r as int == signed_of(value as nat),
{
    if value < 0x8000_0000 {
        value as i32
    } else {
        (value as i64 - 0x1_0000_0000i64) as i32
    }
}

/// The 7-bit groups of `n` bytes sum to less than `128^n`.
proof fn lemma_prefix_bound(s: Seq<u8>, n: nat)
    ensures
        prefix_value(s, n) < pow128(n),
    decreases n,
{
    if n > 0 {
        lemma_prefix_bound(s, (n - 1) as nat);
        if n <= s.len() {
            let p = pow128((n - 1) as nat);
            let d = (s[n - 1] % 128) as nat;
            assert(d * p <= 127 * p) by (nonlinear_arith)
                requires
                    d <= 127,
            ;
        }
    }
}

/// Decodes the VarInt that starts at `start` in `s`: its unsigned pattern and
/// the number of bytes it takes.
pub fn decode_at(s: &Vec<u8>, start: usize) -> (r: Result<(u32, usize), CodecError>)
    requires
        start <= s@.len(),
    ensures
        match varint_decode(s@.subrange(start as int, s@.len() as int)) {
            Ok((v, n)) => r == Ok::<(u32, usize), CodecError>((v as u32, n as usize)),
            Err(e) => r == Err::<(u32, usize), CodecError>(e),
        },
{
    let ghost t = s@.subrange(start as int, s@.len() as int);
    let len: usize = s.len();
    let avail: usize = len - start;
    let mut i: usize = 0;
    let mut acc: u64 = 0;
    let mut place: u64 = 1;
    loop
        invariant
            i <= 5,
            i <= t.len(),
            avail == t.len(),
            len == s@.len(),
            avail == len - start,
            t == s@.subrange(start as int, s@.len() as int),
            start <= s@.len(),
            acc as nat == prefix_value(t, i as nat),
            place as nat == pow128(i as nat),
            varint_decode(t) == decode_from(t, i as nat),
        decreases 5 - i,
    {
        if i == 5 {
            return Err(CodecError::MalformedVarInt);
        }
        if i >= avail {
            return Err(CodecError::TruncatedInput);
        }
        let b: u8 = s[start + i];
        assert(b == t[i as int]);
        proof {
            lemma_prefix_bound(t, i as nat);
            reveal_with_fuel(pow128, 6);
            assert(pow128(i as nat) <= 0x8_0000_0000);
            let d = (b % 128) as nat;
            let p = place as nat;
            assert(d * p <= 127 * p) by (nonlinear_arith)
                requires
                    d <= 127,
            ;
        }
        acc = acc + (b % 128) as u64 * place;
        assert(acc as nat == prefix_value(t, (i + 1) as nat));
        if b < 128 {
            return Ok(((acc % 0x1_0000_0000) as u32, i + 1));
        }
        place = place * 128;
        i = i + 1;
    }
}

/// An in-memory source of bytes read front to back.
pub struct ByteReader {
    data: Vec<u8>,
    pos: usize,
}

impl View for ByteReader {
    type V = Seq<u8>;

    /// The bytes not yet read.
    closed spec fn view(&self) -> Seq<u8> {
        self.data@.subrange(self.pos as int, self.data@.len() as int)
    }
}

impl ByteReader {
    pub closed spec fn wf(&self) -> bool {
        self.pos <= self.data@.len()
    }

    /// A reader over `data`, positioned at its first byte.
    pub fn new(data: Vec<u8>) -> (r: ByteReader)
        ensures
            r.wf(),
            r@ == data@,
    {
        let r = ByteReader { data, pos: 0 };
        assert(r@ =~= data@);
        r
    }

    /// The number of bytes not yet read.
    pub fn remaining(&self) -> (r: usize)
        requires
            self.wf(),
        ensures
            r as nat == self@.len(),
    {
        self.data.len() - self.pos
    }

    /// Reads one byte.
    pub fn read_byte(&mut self) -> (r: Result<u8, CodecError>)
        requires
            old(self).wf(),
        ensures
            final(self).wf(),
            old(self)@.len() == 0 ==> r == Err::<u8, CodecError>(CodecError::TruncatedInput)
                && final(self)@ == old(self)@,
            old(self)@.len() > 0 ==> r == Ok::<u8, CodecError>(old(self)@[0])
                && final(self)@ == old(self)@.drop_first(),
    {
        if self.pos >= self.data.len() {
            return Err(CodecError::TruncatedInput);
        }
        let b = self.data[self.pos];
        self.pos = self.pos + 1;
        assert(self@ =~= old(self)@.drop_first());
        Ok(b)
    }

    /// Reads exactly `n` bytes, or fails with `TruncatedInput`, reading
    /// nothing, where fewer are left.
    pub fn read_exact(&mut self, n: usize) -> (r: Result<Vec<u8>, CodecError>)
        requires
            old(self).wf(),
        ensures
            final(self).wf(),
            n > old(self)@.len() ==> r == Err::<Vec<u8>, CodecError>(CodecError::TruncatedInput)
                && final(self)@ == old(self)@,
            n <= old(self)@.len() ==> r is Ok && r->Ok_0@ == old(self)@.take(n as int)
                && final(self)@ == old(self)@.skip(n as int),
    {
        if n > self.data.len() - self.pos {
            return Err(CodecError::TruncatedInput);
        }
        let total: usize = self.data.len();
        let mut out: Vec<u8> = Vec::new();
        let mut i: usize = 0;
        while i < n
            invariant
                total == self.data@.len(),
                self.pos + n <= self.data@.len(),
                i <= n,
                self == old(self),
                out@ == self.data@.subrange(self.pos as int, self.pos + i),
            decreases n - i,
        {
            out.push(self.data[self.pos + i]);
            i = i + 1;
            assert(out@ =~= self.data@.subrange(self.pos as int, self.pos + i));
        }
        self.pos = self.pos + n;
        assert(out@ =~= old(self)@.take(n as int));
        assert(self@ =~= old(self)@.skip(n as int));
        Ok(out)
    }

    /// Reads all the bytes left.
    pub fn read_to_end(&mut self) -> (r: Vec<u8>)
        requires
            old(self).wf(),
        ensures
            final(self).wf(),
            r@ == old(self)@,
            final(self)@.len() == 0,
    {
        let n = self.data.len() - self.pos;
        match self.read_exact(n) {
            Ok(v) => {
                assert(old(self)@.take(n as int) =~= old(self)@);
                v
            },
            Err(_) => Vec::new(),
        }
    }

    /// Reads one VarInt: its unsigned pattern, advancing past its bytes.
    pub fn read_varint_u32(&mut self) -> (r: Result<u32, CodecError>)
        requires
            old(self).wf(),
        ensures
            final(self).wf(),
            match varint_decode(old(self)@) {
                Ok((v, n)) => r == Ok::<u32, CodecError>(v as u32)
                    && final(self)@ == old(self)@.skip(n as int),
                Err(e) => r == Err::<u32, CodecError>(e) && final(self)@ == old(self)@,
            },
    {
        match decode_at(&self.data, self.pos) {
            Ok((v, n)) => {
                let total: usize = self.data.len();
                proof { lemma_decode_len(self@); }
                assert(self.pos + n <= total);
                self.pos = self.pos + n;
                assert(self@ =~= old(self)@.skip(n as int));
                Ok(v)
            },
            Err(e) => Err(e),
        }
    }
}

/// A decoded VarInt takes between one and five bytes of its input.
pub proof fn lemma_decode_len(s: Seq<u8>)
    ensures
        varint_decode(s) matches Ok((v, n)) ==> 1 <= n <= 5 && n <= s.len() && v < two_pow_32(),
{
    lemma_decode_from_len(s, 0);
}

proof fn lemma_decode_from_len(s: Seq<u8>, i: nat)
    ensures
        decode_from(s, i) matches Ok((v, n)) ==> i < n <= 5 && n <= s.len() && v < two_pow_32(),
    decreases 5 - i,
{
    if i < 5 && i < s.len() && s[i as int] >= 128 {
        lemma_decode_from_len(s, i + 1);
    }
}

pub struct VarInt {}

impl VarInt {
    /// The VarInt bytes of `value`, taken as an unsigned 32-bit pattern.
    pub fn write_to_bytes(value: i32) -> (r: Vec<u8>)
        ensures
            r@ == varint_of(value),
    {
        encode_u32(pattern_of(value))
    }

    /// Whether the bytes read so far of a VarInt call for another: fewer than
    /// five, each with the continuation bit.
    pub fn needs_more(bytes: &Vec<u8>) -> (r: bool)
        ensures
            r == (bytes@.len() < 5 && forall|j: int| 0 <= j < bytes@.len() ==> bytes@[j] >= 128),
    {
        if bytes.len() >= 5 {
            return false;
        }
        let mut i: usize = 0;
        while i < bytes.len()
            invariant
                i <= bytes@.len(),
                forall|j: int| 0 <= j < i ==> bytes@[j] >= 128,
            decreases bytes@.len() - i,
        {
            if bytes[i] < 128 {
                return false;
            }
            i = i + 1;
        }
        true
    }

    /// Decodes the VarInt at the front of `bytes`.
    pub fn read_from_bytes(bytes: Vec<u8>) -> (r: Result<i32, CodecError>)
        ensures
            r == varint_decode_i32(bytes@),
    {
        proof { lemma_decode_len(bytes@); }
        assert(bytes@.subrange(0, bytes@.len() as int) =~= bytes@);
        match decode_at(&bytes, 0) {
            Ok((v, _)) => Ok(signed_from(v)),
            Err(e) => Err(e),
        }
    }

    /// Reads one VarInt from `reader`, advancing past its bytes.
    pub fn read_from_reader(reader: &mut ByteReader) -> (r: Result<i32, CodecError>)
        requires
            old(reader).wf(),
        ensures
            final(reader).wf(),
            r == varint_decode_i32(old(reader)@),
            varint_decode(old(reader)@) matches Ok((_, n)) ==> final(reader)@ == old(reader)@.skip(
                n as int,
            ),
            varint_decode(old(reader)@) is Err ==> final(reader)@ == old(reader)@,
    {
        proof { lemma_decode_len(reader@); }
        match reader.read_varint_u32() {
            Ok(v) => Ok(signed_from(v)),
            Err(e) => Err(e),
        }
    }
}

} // verus!

use vstd::prelude::*;
use crate::packet::{PacketUtils, append_all, framed, len_varint, string_bytes, write_len};
use crate::varint::{VarInt, two_pow_32, unsigned_of, varint_of};
use crate::packet::unframed;

verus! {

/// One typed value of a packet payload. Floats are held as their IEEE-754 bit
/// patterns.
#[allow(inconsistent_fields)]
pub enum Element {
    StringElement { string: String },
    VarintBytearray { array: Vec<u8> },
    UnsignedByte { byte: u8 },
    Byte { byte: i8 },
    VarInt { varint: i32 },
    Short { short: i16 },
    UnsignedShort { short: u16 },
    Int { value: i32 },
    Long { long: i64 },
    Float { bits: u32 },
    Double { bits: u64 },
}

/// The low `n` bytes of `v`, most significant first.
pub open spec fn be_bytes(v: nat, n: nat) -> Seq<u8>
    decreases n,
{
    if n == 0 {
        Seq::empty()
    } else {
        be_bytes(v / 256, (n - 1) as nat).push((v % 256) as u8)
    }
}

/// The two's complement pattern of `v` in `bits` bits.
pub open spec fn twos(v: int, bits: nat) -> nat {
    if v >= 0 { v as nat } else { (v + vstd::arithmetic::power2::pow2(bits)) as nat }
}

/// The wire form of one element.
pub open spec fn element_bytes(e: Element) -> Seq<u8> {
    match e {
        Element::StringElement { string } => string_bytes(string@),
        Element::VarintBytearray { array } => len_varint(array@.len()) + array@,
        Element::UnsignedByte { byte } => seq![byte],
        Element::Byte { byte } => be_bytes(twos(byte as int, 8), 1),
        Element::VarInt { varint } => varint_of(varint),
        Element::Short { short } => be_bytes(twos(short as int, 16), 2),
        Element::UnsignedShort { short } => be_bytes(short as nat, 2),
        Element::Int { value } => be_bytes(unsigned_of(value), 4),
        Element::Long { long } => be_bytes(twos(long as int, 64), 8),
        Element::Float { bits } => be_bytes(bits as nat, 4),
        Element::Double { bits } => be_bytes(bits as nat, 8),
    }
}

/// The payload of a sequence of elements: their wire forms in order.
pub open spec fn payload_bytes(es: Seq<Element>) -> Seq<u8>
    decreases es.len(),
{
    if es.len() == 0 {
        Seq::empty()
    } else {
        payload_bytes(es.drop_last()) + element_bytes(es.last())
    }
}

/// Appends the low `n` bytes of `v`, most significant first.
fn push_be(out: &mut Vec<u8>, v: u64, n: usize)
    requires
        n <= 8,
    ensures
        final(out)@ == old(out)@ + be_bytes(v as nat, n as nat),
    decreases n,
{
    if n > 0 {
        push_be(out, v / 256, n - 1);
        out.push((v % 256) as u8);
        assert(final(out)@ =~= old(out)@ + be_bytes(v as nat, n as nat));
    }
}

/// The wire forms of the first `k` elements are no longer than those of all.
proof fn lemma_payload_prefix(es: Seq<Element>, k: int)
    requires
        0 <= k <= es.len(),
    ensures
        payload_bytes(es.take(k)).len() <= payload_bytes(es).len(),
    decreases es.len(),
{
    if k < es.len() {
        assert(es.drop_last().take(k) =~= es.take(k));
        lemma_payload_prefix(es.drop_last(), k);
    } else {
        assert(es.take(k) =~= es);
    }
}

/// Appends the wire form of `e`.
fn write_element(out: &mut Vec<u8>, e: Element)
    requires
        element_bytes(e).len() < two_pow_32(),
    ensures
        final(out)@ == old(out)@ + element_bytes(e),
{
    let ghost g = e;
    match e {
        Element::StringElement { string } => append_all(out, PacketUtils::write_string(string)),
        Element::VarintBytearray { array } => {
            let head = write_len(array.len());
            append_all(out, head);
            append_all(out, array);
            assert(final(out)@ =~= old(out)@ + element_bytes(g));
        },
        Element::UnsignedByte { byte } => {
            out.push(byte);
        },
        Element::Byte { byte } => {
            let u: u64 = if byte >= 0 { byte as u64 } else { (byte as i64 + 256) as u64 };
            proof { vstd::arithmetic::power2::lemma2_to64(); }
            push_be(out, u, 1);
        },
        Element::VarInt { varint } => append_all(out, VarInt::write_to_bytes(varint)),
        Element::Short { short } => {
            let u: u64 = if short >= 0 { short as u64 } else { (short as i64 + 65536) as u64 };
            proof { vstd::arithmetic::power2::lemma2_to64(); }
            push_be(out, u, 2);
        },
        Element::UnsignedShort { short } => push_be(out, short as u64, 2),
        Element::Int { value } => push_be(out, crate::varint::pattern_of(value) as u64, 4),
        Element::Long { long } => {
            let u: u64 = if long >= 0 { long as u64 } else { (long as i128 + 0x1_0000_0000_0000_0000i128) as u64 };
            proof { vstd::arithmetic::power2::lemma2_to64(); vstd::arithmetic::power2::lemma2_to64_rest(); }
            push_be(out, u, 8);
        },
        Element::Float { bits } => push_be(out, bits as u64, 4),
        Element::Double { bits } => push_be(out, bits, 8),
    }
}

/// Collects typed elements in order and frames them as one packet.
pub struct PacketConstructor {
    elements: Vec<Element>,
}

impl View for PacketConstructor {
    type V = Seq<Element>;

    /// The elements inserted so far, in order.
    closed spec fn view(&self) -> Seq<Element> {
        self.elements@
    }
}

impl PacketConstructor {
    /// A builder with no elements.
    pub fn new() -> (r: Self)
        ensures
            r@ == Seq::<Element>::empty(),
    {
        PacketConstructor { elements: Vec::new() }
    }

    /// Appends `e`.
    pub fn insert(&mut self, e: Element)
        ensures
            final(self)@ == old(self)@.push(e),
    {
        self.elements.push(e);
    }

    /// Appends a string element.
    pub fn insert_string(&mut self, string: &str)
        ensures
            final(self)@.len() == old(self)@.len() + 1,
            final(self)@.drop_last() == old(self)@,
            final(self)@.last() matches Element::StringElement { string: t } && t@ == string@,
    {
        let t = string.to_string();
        self.insert(Element::StringElement { string: t });
        assert(final(self)@.drop_last() =~= old(self)@);
    }

    /// Appends a byte array element.
    pub fn insert_bytearray(&mut self, array: Vec<u8>)
        ensures
            final(self)@ == old(self)@.push(Element::VarintBytearray { array }),
    {
        self.insert(Element::VarintBytearray { array });
    }

    /// Appends an unsigned byte.
    pub fn insert_unsigned_byte(&mut self, byte: u8)
        ensures
            final(self)@ == old(self)@.push(Element::UnsignedByte { byte }),
    {
        self.insert(Element::UnsignedByte { byte });
    }

    /// Appends a signed byte.
    pub fn insert_byte(&mut self, byte: i8)
        ensures
            final(self)@ == old(self)@.push(Element::Byte { byte }),
    {
        self.insert(Element::Byte { byte });
    }

    /// Appends a signed 16-bit integer.
    pub fn insert_short(&mut self, short: i16)
        ensures
            final(self)@ == old(self)@.push(Element::Short { short }),
    {
        self.insert(Element::Short { short });
    }

    /// Appends an unsigned 16-bit integer.
    pub fn insert_unsigned_short(&mut self, short: u16)
        ensures
            final(self)@ == old(self)@.push(Element::UnsignedShort { short }),
    {
        self.insert(Element::UnsignedShort { short });
    }

    /// Appends a signed 32-bit integer.
    pub fn insert_int(&mut self, value: i32)
        ensures
            final(self)@ == old(self)@.push(Element::Int { value }),
    {
        self.insert(Element::Int { value });
    }

    /// Appends a signed 64-bit integer.
    pub fn insert_long(&mut self, long: i64)
        ensures
            final(self)@ == old(self)@.push(Element::Long { long }),
    {
        self.insert(Element::Long { long });
    }

    /// Appends a 32-bit float, given as its IEEE-754 bit pattern.
    pub fn insert_float(&mut self, bits: u32)
        ensures
            final(self)@ == old(self)@.push(Element::Float { bits }),
    {
        self.insert(Element::Float { bits });
    }

    /// Appends a 64-bit float, given as its IEEE-754 bit pattern.
    pub fn insert_double(&mut self, bits: u64)
        ensures
            final(self)@ == old(self)@.push(Element::Double { bits }),
    {
        self.insert(Element::Double { bits });
    }

    /// Appends a VarInt.
    pub fn insert_varint(&mut self, varint: i32)
        ensures
            final(self)@ == old(self)@.push(Element::VarInt { varint }),
    {
        self.insert(Element::VarInt { varint });
    }

    /// Appends a boolean, as the unsigned byte 1 or 0.
    pub fn insert_bool(&mut self, value: bool)
        ensures
            final(self)@ == old(self)@.push(Element::UnsignedByte { byte: if value { 1u8 } else { 0u8 } }),
    {
        let byte: u8 = if value { 1 } else { 0 };
        self.insert(Element::UnsignedByte { byte });
    }

    /// The framed packet with id `id` whose payload is the elements' wire
    /// forms in insertion order. Consumes the builder.
    pub fn build(self, id: usize) -> (r: Vec<u8>)
        requires
            id < two_pow_32(),
            unframed(id as nat, payload_bytes(self@)).len() < two_pow_32(),
        ensures
            r@ == framed(id as nat, payload_bytes(self@)),
    {
        let ghost es = self@;
        assert(payload_bytes(es).len() < two_pow_32());
        let mut elements = self.elements;
        let mut packet: Vec<u8> = Vec::new();
        let ghost n = es.len();
        while elements.len() > 0
            invariant
                elements@.len() <= n,
                elements@ == es.skip(n - elements@.len()),
                packet@ == payload_bytes(es.take(n - elements@.len())),
                n == es.len(),
                payload_bytes(es).len() < two_pow_32(),
            decreases elements@.len(),
        {
            let ghost k = n - elements@.len();
            let e = elements.remove(0);
            assert(e == es[k]);
            proof {
                lemma_payload_prefix(es, k + 1);
                assert(es.take(k + 1).drop_last() =~= es.take(k));
                assert(es.take(k + 1).last() == e);
                assert(payload_bytes(es.take(k + 1)) == payload_bytes(es.take(k)) + element_bytes(e));
            }
            write_element(&mut packet, e);
            assert(es.take(k + 1).drop_last() =~= es.take(k));
            assert(elements@ =~= es.skip(k + 1));
        }
        assert(es.take(n as int) =~= es);
        PacketUtils::write_packet(id, packet)
    }
}

} // verus!

//! Reading a byte string as a sequence of bit chunks, and writing bit chunks
//! back into bytes.
use crate::bit_source::{read_bits, reader_bits, reader_position, ReadError};
use crate::bits::{
    bits_value, lemma_bits_value_of_value_bits, lemma_scaled_bound, lemma_scaled_div,
    lemma_scaled_mod, lemma_value_bits_join, lemma_value_bits_subrange, stream_bits, value_bits,
    zero_bits,
};
use crate::bytetools::{bytes_to_u24, get_bits, mask};
use crate::errors::SteganerError;
use bitreader::BitReader;
use std::ops::Add;
use vstd::arithmetic::div_mod::lemma_small_mod;
use vstd::arithmetic::power2::{lemma2_to64, lemma_pow2_adds, lemma_pow2_pos, pow2};
use vstd::bits::{lemma_u32_shl_is_mul, lemma_u32_shr_is_div};
use vstd::prelude::*;
use vstd::std_specs::ops::AddSpecImpl;

verus! {

/// A group of at most 32 bits of a stream, with its place in the stream.
#[derive(Debug, Clone, Copy, PartialEq, Eq)]
pub struct Chunk {
    /// The bits, right-justified, first bit most significant.
    pub data: u32,
    /// How many bits of `data` belong to the chunk.
    pub length: u8,
    /// Ordinal of the chunk in its stream, counted from zero.
    pub order: u32,
}

impl Chunk {
    /// A chunk holds at most 32 bits, and `data` has no bit above them.
    pub open spec fn wf(&self) -> bool {
        self.length <= 32 && self.data < pow2(self.length as nat)
    }

    /// The bits of the chunk in reading order.
    pub open spec fn bits(&self) -> Seq<bool> {
        value_bits(self.data as nat, self.length as nat)
    }

    #[must_use]
    pub fn new(data: u32, length: u8, order: u32) -> (chunk: Self)
        ensures
            chunk == (Chunk { data, length, order }),
    {
        Chunk { data, length, order }
    }
}

/// Up to seven bits that do not yet fill a byte.
#[derive(Debug, Clone, Copy, PartialEq, Eq)]
pub struct Remainder {
    /// The bits, at the top of the byte; the rest of the byte is cleared.
    pub data: u8,
    /// How many bits of `data` are meant.
    pub length: u8,
}

/// What joining two remainders gives: a byte if eight bits came together, and
/// the bits left over.
#[derive(Debug, Clone, Copy, PartialEq, Eq)]
pub struct BinaryAccumulation {
    pub complete_byte: Option<u8>,
    pub remainder: Option<Remainder>,
}

/// The remainder that holds `bits`, fewer than eight, at the top of its byte.
pub open spec fn left_justified(bits: Seq<bool>) -> Remainder {
    Remainder {
        data: (bits_value(bits) * pow2((8 - bits.len()) as nat)) as u8,
        length: bits.len() as u8,
    }
}

/// Splits up to fifteen bits into a first byte, if there are eight, and the
/// bits after it. Fewer than eight bits are all left over.
pub open spec fn accumulation(bits: Seq<bool>) -> BinaryAccumulation {
    if bits.len() < 8 {
        BinaryAccumulation { complete_byte: None, remainder: Some(left_justified(bits)) }
    } else if bits.len() == 8 {
        BinaryAccumulation { complete_byte: Some(bits_value(bits) as u8), remainder: None }
    } else {
        BinaryAccumulation {
            complete_byte: Some(bits_value(bits.take(8)) as u8),
            remainder: Some(left_justified(bits.skip(8))),
        }
    }
}

impl Remainder {
    #[must_use]
    pub fn new(data: u8, length: u8) -> (remainder: Self)
        ensures
            remainder == (Remainder { data, length }),
    {
        Remainder { data, length }
    }

    /// At most seven bits, at the top of the byte, with the rest of the byte
    /// cleared.
    pub open spec fn wf(&self) -> bool {
        self.length <= 7 && self.data as nat % pow2((8 - self.length) as nat) == 0
    }

    /// The bits of the remainder, in reading order.
    pub open spec fn bits(&self) -> Seq<bool> {
        value_bits(self.data as nat, 8).take(self.length as int)
    }

    /// The bits at the top of the byte, as a number.
    pub open spec fn top_value(&self) -> nat {
        self.data as nat / pow2((8 - self.length) as nat)
    }

    /// The bits of a well-formed remainder are those of its `top_value`.
    pub proof fn lemma_top_value(self)
        requires
            self.wf(),
        ensures
            self.bits() == value_bits(self.top_value(), self.length as nat),
            self.top_value() < pow2(self.length as nat),
            self.data == self.top_value() * pow2((8 - self.length) as nat),
    {
        let pad = (8 - self.length) as nat;
        lemma2_to64();
        lemma_pow2_pos(pad);
        lemma_pow2_adds(self.length as nat, pad);
        lemma_value_bits_subrange(self.data as nat, 8, 0, self.length as nat);
        vstd::arithmetic::div_mod::lemma_fundamental_div_mod(self.data as int, pow2(pad) as int);
        assert(self.bits() =~= value_bits(self.data as nat, 8).subrange(0, self.length as int));
        let top = self.top_value();
        assert(self.data == pow2(pad) * top);
        if top >= pow2(self.length as nat) {
            assert(pow2(pad) * top >= pow2(pad) * pow2(self.length as nat)) by (nonlinear_arith)
                requires
                    top >= pow2(self.length as nat),
                    pow2(pad) > 0,
            ;
        }
        lemma_small_mod(top, pow2(self.length as nat));
        vstd::arithmetic::mul::lemma_mul_is_commutative(top as int, pow2(pad) as int);
    }
}

impl<'a, 'b> AddSpecImpl<&'b Remainder> for &'a Remainder {
    open spec fn obeys_add_spec() -> bool {
        true
    }

    open spec fn add_req(self, rhs: &'b Remainder) -> bool {
        self.wf() && rhs.wf()
    }

    open spec fn add_spec(self, rhs: &'b Remainder) -> BinaryAccumulation {
        accumulation(self.bits() + rhs.bits())
    }
}

/// The number that `low_len` bits `low` spell behind the `top_len` bits at
/// the top of the byte `data`.
pub open spec fn joined_value(data: u8, top_len: nat, low: nat, low_len: nat) -> nat {
    (data as nat / pow2((8 - top_len) as nat)) * pow2(low_len) + low
}

/// In a word of `width` bits, the byte `data` at the top plus `low` moved up
/// by `pad` places is the joined number moved up by `pad` places, where `pad`
/// places are left free below the bits of `low`.
proof fn lemma_join_arith(data: u8, top_len: nat, low: nat, low_len: nat, pad: nat, width: nat)
    requires
        top_len <= 8,
        data as nat % pow2((8 - top_len) as nat) == 0,
        low < pow2(low_len),
        8 <= width,
        top_len + low_len + pad == width,
    ensures
        joined_value(data, top_len, low, low_len) < pow2(top_len + low_len),
        low * pow2(pad) < pow2(width),
        data * pow2((width - 8) as nat) + low * pow2(pad) == joined_value(
            data,
            top_len,
            low,
            low_len,
        ) * pow2(pad),
        joined_value(data, top_len, low, low_len) * pow2(pad) < pow2(width),
{
    let top_pad = (8 - top_len) as nat;
    let top = data as nat / pow2(top_pad);
    let joined = joined_value(data, top_len, low, low_len);
    let lift = pow2((width - 8) as nat);
    lemma_pow2_pos(top_pad);
    lemma_pow2_pos(low_len);
    lemma_pow2_pos(pad);
    assert(data == pow2(top_pad) * top) by {
        vstd::arithmetic::div_mod::lemma_fundamental_div_mod(data as int, pow2(top_pad) as int);
    }
    assert(pow2(8) == 0x100) by {
        lemma2_to64();
    }
    assert(top < pow2(top_len)) by {
        lemma_pow2_adds(top_len, top_pad);
        if top >= pow2(top_len) {
            assert(pow2(top_pad) * top >= pow2(top_pad) * pow2(top_len)) by (nonlinear_arith)
                requires
                    top >= pow2(top_len),
                    pow2(top_pad) > 0,
            ;
            vstd::arithmetic::mul::lemma_mul_is_commutative(
                pow2(top_pad) as int,
                pow2(top_len) as int,
            );
        }
    }
    assert(joined < pow2(top_len + low_len)) by {
        lemma_scaled_bound(top, top_len, low_len);
    }
    assert(low * pow2(pad) < pow2(width)) by {
        lemma_scaled_bound(low, low_len, pad);
        crate::bytetools::lemma_pow2_ordered(low_len + pad, width);
    }
    assert(pow2(top_pad) * lift == pow2(low_len) * pow2(pad)) by {
        lemma_pow2_adds(top_pad, (width - 8) as nat);
        lemma_pow2_adds(low_len, pad);
    }
    assert(data * lift + low * pow2(pad) == joined * pow2(pad)) by (nonlinear_arith)
        requires
            data == pow2(top_pad) * top,
            pow2(top_pad) * lift == pow2(low_len) * pow2(pad),
            joined == top * pow2(low_len) + low,
    ;
    assert(joined * pow2(pad) < pow2(width)) by {
        lemma_scaled_bound(joined, top_len + low_len, pad);
    }
}

/// How a word that holds `total` bits `joined` at the top of its 16 low bits
/// splits into a byte and the bits left over.
proof fn lemma_split_arith(joined: nat, total: nat)
    requires
        8 < total <= 15,
        joined < pow2(total),
    ensures
        ({
            let word = joined * pow2((16 - total) as nat);
            let left = (total - 8) as nat;
            &&& word / 0x100 == joined / pow2(left)
            &&& word / 0x100 < 0x100
            &&& word % pow2((8 - left) as nat) == 0
            &&& word % 0x100 == (joined % pow2(left)) * pow2((8 - left) as nat)
        }),
{
    let pad = (16 - total) as nat;
    let left = (total - 8) as nat;
    let word = joined * pow2(pad);
    assert(pow2(8) == 0x100) by {
        lemma2_to64();
    }
    lemma_pow2_pos(pad);
    lemma_pow2_pos(left);
    lemma_scaled_div(joined, pad, 8);
    lemma_scaled_mod(joined, pad, 8);
    vstd::arithmetic::div_mod::lemma_mod_multiples_basic(joined as int, pow2(pad) as int);
    lemma_pow2_adds(8, left);
    if joined / pow2(left) >= 0x100 {
        vstd::arithmetic::div_mod::lemma_fundamental_div_mod(joined as int, pow2(left) as int);
        assert(pow2(left) * (joined / pow2(left)) >= pow2(left) * 0x100) by (nonlinear_arith)
            requires
                joined / pow2(left) >= 0x100,
                pow2(left) > 0,
        ;
    }
}

/// Joining, not summing: the bits of the right operand are put behind the
/// bits of the left operand. Both hold their bits at the top of their byte,
/// and so does the remainder of the result.
impl<'a, 'b> Add<&'b Remainder> for &'a Remainder {
    type Output = BinaryAccumulation;

    fn add(self, rhs: &'b Remainder) -> (result: BinaryAccumulation) {
        let total_length: u8 = self.length + rhs.length;
        let ghost bits = self.bits() + rhs.bits();
        let ghost added = rhs.top_value();
        let ghost joined = joined_value(self.data, self.length as nat, added, rhs.length as nat);
        proof {
            self.lemma_top_value();
            rhs.lemma_top_value();
            assert(bits_value(bits) == joined) by {
                crate::bits::lemma_bits_value_join(self.bits(), rhs.bits());
                lemma_bits_value_of_value_bits(self.top_value(), self.length as nat);
                lemma_small_mod(self.top_value(), pow2(self.length as nat));
                lemma_bits_value_of_value_bits(added, rhs.length as nat);
                lemma_small_mod(added, pow2(rhs.length as nat));
            }
            assert(pow2(0) == 1 && pow2(8) == 0x100 && pow2(16) == 0x1_0000) by {
                lemma2_to64();
            }
        }
        if total_length <= 8 {
            let ghost pad = (8 - total_length) as nat;
            proof {
                lemma_join_arith(
                    self.data,
                    self.length as nat,
                    added,
                    rhs.length as nat,
                    pad,
                    8,
                );
                assert(self.data * pow2(0) == self.data) by (nonlinear_arith)
                    requires
                        pow2(0) == 1,
                ;
                // moving the right operand down by the bits held leaves `pad`
                // places free below its bits
                vstd::bits::lemma_u8_shr_is_div(rhs.data, self.length);
                lemma_pow2_adds(pad, self.length as nat);
                lemma_pow2_pos(self.length as nat);
                assert(rhs.data == (added * pow2(pad)) * pow2(self.length as nat))
                    by (nonlinear_arith)
                    requires
                        rhs.data == added * pow2((8 - rhs.length) as nat),
                        pow2((8 - rhs.length) as nat) == pow2(pad) * pow2(self.length as nat),
                ;
                vstd::arithmetic::div_mod::lemma_div_by_multiple(
                    (added * pow2(pad)) as int,
                    pow2(self.length as nat) as int,
                );
            }
            let shifted_bits_to_add: u8 = rhs.data >> self.length;
            let accumulated_bits: u8 = self.data + shifted_bits_to_add;
            assert(accumulated_bits == bits_value(bits) * pow2((8 - bits.len()) as nat));
            if total_length == 8 {
                assert(accumulated_bits == bits_value(bits)) by (nonlinear_arith)
                    requires
                        accumulated_bits == bits_value(bits) * pow2((8 - bits.len()) as nat),
                        pow2((8 - bits.len()) as nat) == 1,
                ;
                BinaryAccumulation { complete_byte: Some(accumulated_bits), remainder: None }
            } else {
                BinaryAccumulation {
                    complete_byte: None,
                    remainder: Some(Remainder::new(accumulated_bits, total_length)),
                }
            }
        } else {
            let remainder_length: u8 = total_length - 8;
            let left_shift: u8 = 8 - self.length;
            let ghost pad = (16 - total_length) as nat;
            proof {
                lemma_join_arith(
                    self.data,
                    self.length as nat,
                    added,
                    rhs.length as nat,
                    pad,
                    16,
                );
                assert(self.data * pow2(8) == self.data * 0x100);
                lemma_u32_shl_is_mul(self.data as u32, 8);
                // moving the right operand up by the places that the left one
                // leaves free puts its bits right behind
                crate::bytetools::lemma_pow2_ordered(left_shift as nat, 8);
                assert(rhs.data * pow2(left_shift as nat) <= 0xff * 0x100) by (nonlinear_arith)
                    requires
                        rhs.data <= 0xff,
                        pow2(left_shift as nat) <= 0x100,
                ;
                lemma_u32_shl_is_mul(rhs.data as u32, left_shift as u32);
                lemma_pow2_adds((8 - rhs.length) as nat, left_shift as nat);
                assert(rhs.data * pow2(left_shift as nat) == added * pow2(pad))
                    by (nonlinear_arith)
                    requires
                        rhs.data == added * pow2((8 - rhs.length) as nat),
                        pow2(pad) == pow2((8 - rhs.length) as nat) * pow2(left_shift as nat),
                ;
            }
            let shifted_left_hand_side_bits: u32 = (self.data as u32) << 8;
            let shifted_bits_to_add: u32 = (rhs.data as u32) << left_shift;
            let accumulated_bits: u32 = shifted_left_hand_side_bits + shifted_bits_to_add;
            proof {
                assert(accumulated_bits == joined * pow2(pad));
                lemma_split_arith(joined, total_length as nat);
                crate::bits::lemma_bits_value_split(bits, 8);
                crate::bytetools::lemma_and_inverted_mask(accumulated_bits, 8);
                lemma_u32_shr_is_div(
                    (accumulated_bits - accumulated_bits as nat % 0x100) as u32,
                    8,
                );
                crate::bytetools::lemma_and_inverted_mask(
                    accumulated_bits,
                    (8 - remainder_length) as nat,
                );
                crate::bytetools::lemma_and_low_mask(accumulated_bits, 8);
            }
            let complete_byte: u8 = ((accumulated_bits & mask::<u32>(8, true)) >> 8) as u8;
            let remainder_bits: u8 = ((accumulated_bits & mask::<u32>(
                8 - remainder_length,
                true,
            )) & mask::<u32>(8, false)) as u8;
            proof {
                assert(complete_byte == bits_value(bits.take(8)));
                assert(remainder_bits == bits_value(bits.skip(8)) * pow2(
                    (8 - remainder_length) as nat,
                ));
            }
            BinaryAccumulation {
                complete_byte: Some(complete_byte),
                remainder: Some(Remainder::new(remainder_bits, remainder_length)),
            }
        }
    }
}

/// The bytes of a file, read whole.
pub struct FileContent {
    content: Vec<u8>,
}

impl View for FileContent {
    type V = Seq<u8>;

    closed spec fn view(&self) -> Seq<u8> {
        self.content@
    }
}

impl FileContent {
    #[must_use]
    pub fn new(content: Vec<u8>) -> (file: Self)
        ensures
            file@ == content@,
    {
        FileContent { content }
    }

    /// Number of bytes of the file.
    pub fn len(&self) -> (len: usize)
        ensures
            len == self@.len(),
    {
        self.content.len()
    }
}

/// Number of chunks of `chunk_size` bits that a stream of `bit_count` bits is
/// cut into, the last one possibly shorter.
pub open spec fn chunk_count(bit_count: nat, chunk_size: nat) -> nat {
    if chunk_size == 0 {
        0
    } else {
        ((bit_count + chunk_size - 1) / chunk_size as int) as nat
    }
}

/// Where the chunk of ordinal `order` starts in a stream of `bit_count` bits;
/// the end of the stream for an ordinal behind the last chunk.
pub open spec fn chunk_start(bit_count: nat, chunk_size: nat, order: nat) -> nat {
    if order * chunk_size <= bit_count {
        order * chunk_size
    } else {
        bit_count
    }
}

/// The bits of the chunk of ordinal `order`: `chunk_size` bits from
/// `order * chunk_size` on, or as many as the stream has left.
pub open spec fn chunk_bits(stream: Seq<bool>, chunk_size: nat, order: nat) -> Seq<bool> {
    stream.subrange(
        chunk_start(stream.len(), chunk_size, order) as int,
        chunk_start(stream.len(), chunk_size, order + 1) as int,
    )
}

/// Whether the chunks of `byte_count` bytes can be numbered in 32 bits.
pub open spec fn orders_fit(byte_count: nat, chunk_size: nat) -> bool {
    8 * byte_count <= chunk_size * 0xffff_ffff
}

/// An ordinal is that of a chunk exactly if the chunk starts inside the
/// stream.
pub proof fn lemma_chunk_count(bit_count: nat, chunk_size: nat, order: nat)
    requires
        chunk_size >= 1,
    ensures
        order < chunk_count(bit_count, chunk_size) <==> order * chunk_size < bit_count,
        chunk_start(bit_count, chunk_size, order) <= chunk_start(
            bit_count,
            chunk_size,
            order + 1,
        ) <= bit_count,
        order * chunk_size < bit_count ==> chunk_start(bit_count, chunk_size, order) == order
            * chunk_size,
        (order + 1) * chunk_size == order * chunk_size + chunk_size,
{
    let count = chunk_count(bit_count, chunk_size);
    let padded = (bit_count + chunk_size - 1) as int;
    let size = chunk_size as int;
    vstd::arithmetic::div_mod::lemma_fundamental_div_mod(padded, size);
    vstd::arithmetic::div_mod::lemma_mod_bound(padded, size);
    assert((order + 1) * chunk_size == order * chunk_size + chunk_size) by (nonlinear_arith);
    // padded == size * count + rest, with 0 <= rest < size
    if order < count {
        assert(size * count >= size * (order + 1)) by (nonlinear_arith)
            requires
                count >= order + 1,
                size >= 1,
        ;
        assert(size * (order + 1) == order * chunk_size + chunk_size) by (nonlinear_arith)
            requires
                size == chunk_size,
        ;
    } else {
        assert(size * count <= size * order) by (nonlinear_arith)
            requires
                count <= order,
                size >= 1,
        ;
        assert(size * order == order * chunk_size) by (nonlinear_arith)
            requires
                size == chunk_size,
        ;
    }
}

/// A cursor that cuts the bytes of a file into chunks of a fixed number of
/// bits, from the most significant bit of the first byte on.
pub struct ContentReader<'a> {
    bit_reader: BitReader<'a>,
    chunk_size: u8,
    position: u32,
}

impl<'a> ContentReader<'a> {
    /// The bits that the reader cuts into chunks.
    pub closed spec fn stream(&self) -> Seq<bool> {
        reader_bits(self.bit_reader)
    }

    /// Number of bits of each chunk but the last.
    pub closed spec fn chunk_size(&self) -> nat {
        self.chunk_size as nat
    }

    /// Ordinal of the chunk that comes next.
    pub closed spec fn position(&self) -> nat {
        self.position as nat
    }

    /// The cursor stands where the next chunk starts, and every chunk can be
    /// numbered.
    pub closed spec fn wf(&self) -> bool {
        &&& 1 <= self.chunk_size <= 32
        &&& self.stream().len() <= u64::MAX
        &&& reader_position(self.bit_reader) == chunk_start(
            self.stream().len(),
            self.chunk_size as nat,
            self.position as nat,
        )
        &&& chunk_count(self.stream().len(), self.chunk_size as nat) <= u32::MAX
        &&& self.position <= chunk_count(self.stream().len(), self.chunk_size as nat)
    }

    /// A reader before the first chunk of `content`. It is refused if the
    /// chunks of `content` cannot be numbered in 32 bits.
    #[must_use]
    pub fn new(content: &'a FileContent, chunk_size: u8) -> (reader: Result<Self, SteganerError>)
        requires
            1 <= chunk_size <= 32,
        ensures
            match reader {
                Ok(reader) => {
                    &&& orders_fit(content@.len(), chunk_size as nat)
                    &&& reader.wf()
                    &&& reader.stream() == stream_bits(content@)
                    &&& reader.chunk_size() == chunk_size
                    &&& reader.position() == 0
                },
                Err(error) => {
                    &&& !orders_fit(content@.len(), chunk_size as nat)
                    &&& error == SteganerError::SizeOverflow
                },
            },
    {
        let byte_count: u64 = content.content.len() as u64;
        if byte_count > 0x4_0000_0000 || byte_count * 8 > chunk_size as u64 * 0xffff_ffff {
            return Err(SteganerError::SizeOverflow);
        }
        let file_bytes: &[u8] = content.content.as_slice();
        let reader = ContentReader { bit_reader: BitReader::new(file_bytes), chunk_size, position: 0 };
        proof {
            let bit_count = stream_bits(content@).len();
            lemma_chunk_count(bit_count, chunk_size as nat, 0xffff_ffff);
            lemma_chunk_count(bit_count, chunk_size as nat, 0);
        }
        Ok(reader)
    }

    /// Returns the next chunk: `chunk_size` bits, or the bits that are left if
    /// they are fewer; `None` once the stream is used up.
    pub fn next(&mut self) -> (chunk: Option<Chunk>)
        requires
            old(self).wf(),
        ensures
            final(self).wf(),
            final(self).stream() == old(self).stream(),
            final(self).chunk_size() == old(self).chunk_size(),
            match chunk {
                Some(chunk) => {
                    &&& old(self).position() < chunk_count(
                        old(self).stream().len(),
                        old(self).chunk_size(),
                    )
                    &&& chunk.order == old(self).position()
                    &&& chunk.bits() == chunk_bits(
                        old(self).stream(),
                        old(self).chunk_size(),
                        old(self).position(),
                    )
                    &&& chunk.length == chunk.bits().len()
                    &&& chunk.data == bits_value(chunk.bits())
                    &&& chunk.wf()
                    &&& final(self).position() == old(self).position() + 1
                },
                None => {
                    &&& old(self).position() == chunk_count(
                        old(self).stream().len(),
                        old(self).chunk_size(),
                    )
                    &&& final(self).position() == old(self).position()
                },
            },
    {
        let ghost stream = self.stream();
        let ghost cursor = reader_position(self.bit_reader);
        proof {
            lemma_chunk_count(stream.len(), self.chunk_size as nat, self.position as nat);
            lemma_chunk_count(stream.len(), self.chunk_size as nat, (self.position + 1) as nat);
        }
        match read_bits(&mut self.bit_reader, self.chunk_size) {
            Ok(bits) => {
                proof {
                    let part = stream.subrange(cursor as int, cursor + self.chunk_size);
                    crate::bits::lemma_value_bits_of_bits_value(part);
                    crate::bits::lemma_bits_value_bound(part);
                    crate::bytetools::lemma_pow2_ordered(self.chunk_size as nat, 32);
                    lemma2_to64();
                }
                let chunk = Chunk::new(bits, self.chunk_size, self.position);
                self.position = self.position + 1;
                Some(chunk)
            },
            Err(ReadError::NotEnoughData { position, length }) => {
                let available_bits: u64 = length - position;
                if available_bits > 0 {
                    match read_bits(&mut self.bit_reader, available_bits as u8) {
                        Ok(bits) => {
                            proof {
                                let part = stream.subrange(cursor as int, stream.len() as int);
                                crate::bits::lemma_value_bits_of_bits_value(part);
                                crate::bits::lemma_bits_value_bound(part);
                                crate::bytetools::lemma_pow2_ordered(available_bits as nat, 32);
                                lemma2_to64();
                            }
                            let chunk = Chunk::new(bits, available_bits as u8, self.position);
                            self.position = self.position + 1;
                            Some(chunk)
                        },
                        Err(_) => None,
                    }
                } else {
                    None
                }
            },
            Err(ReadError::TooManyBits) => None,
        }
    }
}

/// A sink of bit chunks that packs them into bytes. Bits that do not yet fill
/// a byte wait in `pending_data`, at the top of its byte.
pub struct FileWriter {
    /// The bytes written so far.
    pub destination: Vec<u8>,
    /// The bits that wait for more bits to fill a byte.
    pub pending_data: Option<Remainder>,
}

/// The bits of a well-formed remainder, followed by cleared bits, fill its
/// byte.
pub proof fn lemma_remainder_byte(remainder: Remainder)
    requires
        remainder.wf(),
    ensures
        value_bits(remainder.data as nat, 8) == remainder.bits() + zero_bits(
            (8 - remainder.length) as nat,
        ),
{
    remainder.lemma_top_value();
    lemma_small_mod(remainder.top_value(), pow2(remainder.length as nat));
    crate::bytetools::lemma_left_justified_bits(
        remainder.top_value(),
        remainder.length as nat,
        8,
    );
}

/// The first `count` bytes of a word hold its first `8 * count` bits, also
/// after the bits behind them were cleared.
proof fn lemma_front_bytes(word: u32, count: nat)
    requires
        count <= 4,
    ensures
        stream_bits(
            crate::bytetools::be_bytes(
                (word - word as nat % pow2((32 - 8 * count) as nat)) as nat,
                4,
            ).take(count as int),
        ) == value_bits(word as nat, 32).take((8 * count) as int),
        stream_bits(crate::bytetools::be_bytes(word as nat, 4).take(count as int)) == value_bits(
            word as nat,
            32,
        ).take((8 * count) as int),
{
    crate::bytetools::lemma_be_bytes_bits(word as nat, 4);
    crate::bits::lemma_stream_bits_take(crate::bytetools::be_bytes(word as nat, 4), count);
    let low = (32 - 8 * count) as nat;
    lemma_pow2_pos(low);
    vstd::arithmetic::div_mod::lemma_fundamental_div_mod(word as int, pow2(low) as int);
    vstd::arithmetic::div_mod::lemma_mod_bound(word as int, pow2(low) as int);
    let cleared = (word - word as nat % pow2(low)) as nat;
    let kept = word as nat / pow2(low);
    assert(cleared == kept * pow2(low)) by {
        vstd::arithmetic::mul::lemma_mul_is_commutative(kept as int, pow2(low) as int);
    }
    let bytes = crate::bytetools::be_bytes(cleared, 4);
    crate::bytetools::lemma_be_bytes_bits(cleared, 4);
    crate::bits::lemma_stream_bits_take(bytes, count);
    let front = value_bits(cleared, 32).take((8 * count) as int);
    let wanted = value_bits(word as nat, 32).take((8 * count) as int);
    assert forall|i: int| 0 <= i < 8 * count implies front[i] == wanted[i] by {
        let index = (31 - i) as nat;
        crate::bits::lemma_bit_of_mul(kept, low, index);
        crate::bits::lemma_bit_of_div(word as nat, low, (index - low) as nat);
    }
    assert(front =~= wanted);
}

impl FileWriter {
    /// The bits that wait for more bits to fill a byte.
    pub open spec fn pending_bits(&self) -> Seq<bool> {
        match self.pending_data {
            Some(remainder) => remainder.bits(),
            None => Seq::empty(),
        }
    }

    /// Every bit written so far, in the order of writing.
    pub open spec fn written(&self) -> Seq<bool> {
        stream_bits(self.destination@) + self.pending_bits()
    }

    /// Between one and seven bits are pending, at the top of their byte, or
    /// none.
    pub open spec fn wf(&self) -> bool {
        match self.pending_data {
            Some(remainder) => remainder.wf() && remainder.length >= 1,
            None => true,
        }
    }

    /// A writer to which nothing was written.
    #[must_use]
    pub fn new() -> (writer: Self)
        ensures
            writer.wf(),
            writer.destination@ == Seq::<u8>::empty(),
            writer.pending_data is None,
            writer.written() == Seq::<bool>::empty(),
    {
        let writer = FileWriter { destination: Vec::new(), pending_data: None };
        assert(writer.written() =~= Seq::<bool>::empty());
        writer
    }

    /// Appends the bits of `chunk`: every byte that they fill, together with
    /// the pending bits, is written, and the bits behind it become the pending
    /// bits.
    pub fn write(&mut self, chunk: Chunk)
        requires
            old(self).wf(),
            chunk.wf(),
            chunk.length <= 24,
        ensures
            final(self).wf(),
            final(self).written() == old(self).written() + chunk.bits(),
            final(self).destination@.len() == final(self).written().len() / 8,
            final(self).pending_bits().len() == final(self).written().len() % 8,
            final(self).destination@.take(old(self).destination@.len() as int) == old(
                self,
            ).destination@,
    {
        let ghost before = self.destination@;
        let ghost all = self.pending_bits() + chunk.bits();
        let ghost complete = (8 * (all.len() / 8)) as int;
        let stored = self.store_remainder(&chunk);
        let ghost pending_after = self.pending_data;
        let ghost emitted: Seq<u8> = if stored is Some {
            stored->Some_0@
        } else {
            Seq::empty()
        };
        proof {
            assert(stream_bits(emitted) =~= all.take(complete));
        }
        if let Some(complete_bytes) = stored {
            let mut i: usize = 0;
            while i < complete_bytes.len()
                invariant
                    i <= complete_bytes.len(),
                    self.destination@ == before + complete_bytes@.take(i as int),
                    self.pending_data == pending_after,
                decreases complete_bytes.len() - i,
            {
                self.destination.push(complete_bytes[i]);
                i = i + 1;
                assert(self.destination@ =~= before + complete_bytes@.take(i as int));
            }
            assert(complete_bytes@.take(i as int) =~= complete_bytes@);
        }
        proof {
            assert(self.destination@ =~= before + emitted);
            crate::bits::lemma_stream_bits_concat(before, emitted);
            assert(self.written() =~= stream_bits(before) + all);
            assert(stream_bits(before) + all =~= old(self).written() + chunk.bits());
            assert(self.destination@.take(before.len() as int) =~= before);
        }
    }

    /// Moves the `data_length` low bits of `data` to the top of a 24-bit field
    /// and returns the field as three bytes.
    pub fn left_justify(data: u32, data_length: u8) -> (bytes: [u8; 3])
        requires
            data_length <= 24,
        ensures
            bytes@ == crate::bytetools::be_bytes(
                (data as nat % pow2(data_length as nat)) * pow2((24 - data_length) as nat),
                3,
            ),
            stream_bits(bytes@) == value_bits(data as nat, data_length as nat) + zero_bits(
                (24 - data_length) as nat,
            ),
    {
        crate::bytetools::left_justify(data, data_length)
    }

    /// Returns the bits of the first `length` bits of `data` that do not fill
    /// a byte, or `None` where `length` is a multiple of eight.
    pub fn get_remainder(data: u32, length: u8) -> (remainder: Option<Remainder>)
        requires
            length <= 32,
        ensures
            length % 8 == 0 <==> remainder is None,
            remainder matches Some(remainder) ==> {
                &&& remainder.wf()
                &&& remainder.length == length % 8
                &&& remainder.bits() == value_bits(data as nat, 32).subrange(
                    length - length % 8,
                    length as int,
                )
            },
    {
        let remainder_length: u8 = length % 8;
        if remainder_length == 0 {
            None
        } else {
            let complete_bytes: u8 = length / 8;
            let field: u32 = get_bits::<u32>(data, complete_bytes * 8, remainder_length);
            proof {
                let pad = (8 - remainder_length) as nat;
                crate::bytetools::lemma_field_bits(
                    data as nat,
                    32,
                    (complete_bytes * 8) as nat,
                    remainder_length as nat,
                );
                crate::bytetools::lemma_pow2_ordered(remainder_length as nat, 7);
                assert(pow2(7) == 0x80 && pow2(8) == 0x100) by {
                    lemma2_to64();
                }
                lemma_scaled_bound(field as nat, remainder_length as nat, pad);
                vstd::bits::lemma_u8_shl_is_mul(field as u8, pad as u8);
                lemma_pow2_pos(pad);
                vstd::arithmetic::div_mod::lemma_mod_multiples_basic(
                    field as int,
                    pow2(pad) as int,
                );
                lemma_small_mod(field as nat, pow2(remainder_length as nat));
                crate::bytetools::lemma_left_justified_bits(
                    field as nat,
                    remainder_length as nat,
                    8,
                );
                let whole = value_bits((field * pow2(pad)) as nat, 8);
                assert(whole.take(remainder_length as int) =~= value_bits(
                    field as nat,
                    remainder_length as nat,
                ));
            }
            let remainder_bits: u8 = field as u8;
            let left_justified_remainder_bits: u8 = remainder_bits << (8 - remainder_length);
            Some(Remainder::new(left_justified_remainder_bits, remainder_length))
        }
    }

    /// Returns the bytes of the `length` high bits of `data`, or `None` if
    /// `length` is zero.
    pub fn get_bytes(data: u32, length: u8) -> (bytes: Option<Vec<u8>>)
        requires
            length <= 32,
        ensures
            length == 0 <==> bytes is None,
            bytes matches Some(v) ==> v@ == crate::bytetools::be_bytes(data as nat, 4).take(
                (length + 7) / 8,
            ),
    {
        crate::bytetools::get_bytes(data, length)
    }

    /// Returns a word that holds the pending bits followed by the bits of
    /// `chunk` at its top, with the count of those bits.
    pub fn append_to_remainder(&self, chunk: &Chunk) -> (appended: (u32, u8))
        requires
            self.wf(),
            chunk.wf(),
            chunk.length <= 24,
        ensures
            appended.1 == self.pending_bits().len() + chunk.length,
            appended.1 <= 31,
            value_bits(appended.0 as nat, 32) == self.pending_bits() + chunk.bits() + zero_bits(
                (32 - appended.1) as nat,
            ),
    {
        let left_justified_data: [u8; 3] = Self::left_justify(chunk.data, chunk.length);
        let data_int: u32 = bytes_to_u24(&left_justified_data);
        let (pending_data, pending_data_length): (u8, u8) = match &self.pending_data {
            Some(remainder) => (remainder.data, remainder.length),
            None => {
                let default_remainder = Remainder::new(0, 0);
                (default_remainder.data, default_remainder.length)
            },
        };
        let total_length: u8 = pending_data_length + chunk.length;
        proof {
            let held = Remainder { data: pending_data, length: pending_data_length };
            let pad = (32 - total_length) as nat;
            let chunk_pad = (24 - chunk.length) as nat;
            let shift = (8 - pending_data_length) as nat;
            assert(pow2(0) == 1 && pow2(8) == 0x100 && pow2(24) == 0x100_0000 && pow2(32)
                == 0x1_0000_0000) by {
                lemma2_to64();
            }
            assert(held.wf() && held.bits() == self.pending_bits()) by {
                crate::bits::lemma_bit_of_zero(0);
                assert(held.bits() =~= self.pending_bits());
            }
            held.lemma_top_value();
            // the chunk, at the top of 24 bits
            lemma_small_mod(chunk.data as nat, pow2(chunk.length as nat));
            lemma_scaled_bound(chunk.data as nat, chunk.length as nat, chunk_pad);
            crate::bytetools::lemma_u24_round_trip((chunk.data * pow2(chunk_pad)) as nat);
            assert(data_int == chunk.data * pow2(chunk_pad));
            // moved behind the pending bits
            lemma_pow2_adds(chunk_pad, shift);
            assert(data_int * pow2(shift) == chunk.data * pow2(pad)) by (nonlinear_arith)
                requires
                    data_int == chunk.data * pow2(chunk_pad),
                    pow2(chunk_pad + shift) == pow2(chunk_pad) * pow2(shift),
                    pow2(chunk_pad + shift) == pow2(pad),
            ;
            lemma_join_arith(
                pending_data,
                pending_data_length as nat,
                chunk.data as nat,
                chunk.length as nat,
                pad,
                32,
            );
            lemma_u32_shl_is_mul(pending_data as u32, 24);
            lemma_u32_shl_is_mul(data_int, shift as u32);
            let joined = joined_value(
                pending_data,
                pending_data_length as nat,
                chunk.data as nat,
                chunk.length as nat,
            );
            lemma_small_mod(joined, pow2(total_length as nat));
            crate::bytetools::lemma_left_justified_bits(joined, total_length as nat, 32);
            lemma_value_bits_join(
                held.top_value(),
                pending_data_length as nat,
                chunk.data as nat,
                chunk.length as nat,
            );
        }
        let pending_data_left_justified: u32 = (pending_data as u32) << 24;
        let data_appended_to_remainder: u32 = pending_data_left_justified + (data_int << (8
            - pending_data_length));
        (data_appended_to_remainder, total_length)
    }

    /// Joins the bits of `chunk` to the pending bits. Returns the bytes that
    /// they fill together, or `None` where they fill none, and keeps the bits
    /// behind the last full byte as the new pending bits.
    pub fn store_remainder(&mut self, chunk: &Chunk) -> (complete: Option<Vec<u8>>)
        requires
            old(self).wf(),
            chunk.wf(),
            chunk.length <= 24,
        ensures
            final(self).wf(),
            final(self).destination == old(self).destination,
            ({
                let all = old(self).pending_bits() + chunk.bits();
                let full = 8 * (all.len() / 8);
                &&& complete is None <==> all.len() < 8
                &&& complete matches Some(bytes) ==> stream_bits(bytes@) == all.take(full as int)
                &&& final(self).pending_bits() == all.skip(full as int)
                &&& final(self).pending_data is None <==> all.len() % 8 == 0
            }),
    {
        let ghost all = self.pending_bits() + chunk.bits();
        let (data_appended_to_remainder, total_length) = self.append_to_remainder(chunk);
        let ghost word_bits = value_bits(data_appended_to_remainder as nat, 32);
        let ghost full = (8 * (total_length / 8)) as int;
        proof {
            assert(all.len() == total_length);
            assert(word_bits.take(total_length as int) =~= all);
            assert(word_bits.subrange(full, total_length as int) =~= all.skip(full));
            assert(word_bits.take(full) =~= all.take(full));
        }
        if let Some(new_remainder) = Self::get_remainder(data_appended_to_remainder, total_length) {
            let non_remainder_length: u8 = total_length - new_remainder.length;
            self.pending_data = Some(new_remainder);
            if non_remainder_length == 0 {
                proof {
                    assert(all.skip(0) =~= all);
                }
                None
            } else {
                let low_length: u8 = 32 - non_remainder_length;
                let non_remainder_data: u32 = data_appended_to_remainder & mask::<u32>(
                    low_length,
                    true,
                );
                proof {
                    crate::bytetools::lemma_and_inverted_mask(
                        data_appended_to_remainder,
                        low_length as nat,
                    );
                    lemma_front_bytes(data_appended_to_remainder, (non_remainder_length / 8) as nat);
                }
                Self::get_bytes(non_remainder_data, non_remainder_length)
            }
        } else {
            self.pending_data = None;
            proof {
                assert(pow2(0) == 1) by {
                    lemma2_to64();
                }
                lemma_front_bytes(data_appended_to_remainder, (total_length / 8) as nat);
                assert(all.skip(full) =~= Seq::<bool>::empty());
            }
            Self::get_bytes(data_appended_to_remainder, total_length)
        }
    }

    /// Closes the writer: the pending bits, if any, are written as a last
    /// byte whose low bits are cleared. Returns every byte written.
    pub fn close(self) -> (bytes: Vec<u8>)
        requires
            self.wf(),
        ensures
            stream_bits(bytes@) == crate::bits::padded(self.written()),
            bytes@ == crate::bits::whole_bytes(crate::bits::padded(self.written())),
    {
        let mut destination = self.destination;
        let ghost before = destination@;
        if let Some(remainder) = self.pending_data {
            destination.push(remainder.data);
            proof {
                crate::bits::lemma_stream_bits_push(before, remainder.data);
                lemma_remainder_byte(remainder);
                assert(stream_bits(destination@) =~= crate::bits::padded(self.written()));
            }
        } else {
            proof {
                assert(stream_bits(destination@) =~= crate::bits::padded(self.written()));
            }
        }
        proof {
            crate::bits::lemma_whole_bytes_of_stream(destination@);
        }
        destination
    }
}

/// The bits of the first `count` chunks of a stream, one behind the other.
pub open spec fn joined_chunks(stream: Seq<bool>, chunk_size: nat, count: nat) -> Seq<bool>
    decreases count,
{
    if count == 0 {
        Seq::empty()
    } else {
        joined_chunks(stream, chunk_size, (count - 1) as nat) + chunk_bits(
            stream,
            chunk_size,
            (count - 1) as nat,
        )
    }
}

/// The first chunks of a stream, joined, are the start of the stream; all of
/// them are the stream.
pub proof fn lemma_joined_chunks(stream: Seq<bool>, chunk_size: nat, count: nat)
    requires
        chunk_size >= 1,
    ensures
        joined_chunks(stream, chunk_size, count) == stream.take(
            chunk_start(stream.len(), chunk_size, count) as int,
        ),
        count >= chunk_count(stream.len(), chunk_size) ==> joined_chunks(
            stream,
            chunk_size,
            count,
        ) == stream,
    decreases count,
{
    let joined = joined_chunks(stream, chunk_size, count);
    let end = chunk_start(stream.len(), chunk_size, count) as int;
    if count == 0 {
        assert(0 * chunk_size == 0) by (nonlinear_arith);
        assert(joined =~= stream.take(end));
    } else {
        let order = (count - 1) as nat;
        lemma_joined_chunks(stream, chunk_size, order);
        lemma_chunk_count(stream.len(), chunk_size, order);
        assert(joined =~= stream.take(end));
    }
    if count >= chunk_count(stream.len(), chunk_size) {
        lemma_chunk_count(stream.len(), chunk_size, count);
        assert(stream.take(stream.len() as int) =~= stream);
    }
}

/// Round trip: the chunks that a reader cuts a byte string into, written in
/// order to a writer that is then closed, give the byte string back. The
/// writer takes chunks of up to 24 bits.
pub proof fn lemma_round_trip(source: Seq<u8>, chunk_size: nat)
    requires
        1 <= chunk_size <= 24,
    ensures
        crate::bits::whole_bytes(
            crate::bits::padded(
                joined_chunks(
                    stream_bits(source),
                    chunk_size,
                    chunk_count(8 * source.len(), chunk_size),
                ),
            ),
        ) == source,
{
    let stream = stream_bits(source);
    lemma_joined_chunks(stream, chunk_size, chunk_count(stream.len(), chunk_size));
    crate::bits::lemma_padded_whole_bytes(source);
}

/// Remainder accumulation: after two chunks were written to a writer that held
/// nothing, one byte was written for every eight bits of the two, and the
/// bits left over are pending. So lengths that sum to eight give one byte and
/// nothing pending, and a smaller sum gives no byte.
pub proof fn lemma_remainder_accumulation(
    start: FileWriter,
    between: FileWriter,
    end: FileWriter,
    first: Chunk,
    second: Chunk,
)
    requires
        start.wf(),
        between.wf(),
        end.wf(),
        start.written().len() == 0,
        between.written() == start.written() + first.bits(),
        end.written() == between.written() + second.bits(),
    ensures
        end.destination@.len() == (first.length + second.length) / 8,
        end.pending_bits().len() == (first.length + second.length) % 8,
        first.length + second.length == 8 ==> end.destination@.len() == 1 && end.pending_data
            is None,
        first.length + second.length < 8 ==> end.destination@.len() == 0,
        end.destination@ == crate::bits::whole_bytes(first.bits() + second.bits()),
        end.pending_bits() == (first.bits() + second.bits()).skip(
            8 * ((first.length + second.length) / 8),
        ),
{
    let all = first.bits() + second.bits();
    assert(end.written() =~= all);
    end.lemma_written();
}

impl FileWriter {
    /// A writer has written one byte for every eight bits written to it, and
    /// holds the bits behind them pending.
    pub proof fn lemma_written(self)
        requires
            self.wf(),
        ensures
            self.destination@.len() == self.written().len() / 8,
            self.pending_bits().len() == self.written().len() % 8,
            self.pending_data is None <==> self.written().len() % 8 == 0,
            self.destination@ == crate::bits::whole_bytes(self.written()),
            self.pending_bits() == self.written().skip((8 * (self.written().len() / 8)) as int),
    {
        let written = self.written();
        let full = (8 * self.destination@.len()) as int;
        assert(self.pending_bits().len() < 8);
        assert(written.skip(full) =~= self.pending_bits());
        crate::bits::lemma_whole_bytes_of_stream(self.destination@);
        crate::bits::lemma_whole_bytes_of_front(written, self.destination@.len());
        assert(written.take(full) =~= stream_bits(self.destination@));
    }
}

} // verus!

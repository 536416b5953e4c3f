//! The bit cursor of the `bitreader` crate, as the chunk reader sees it.
//!
//! Nothing in this file is proved: each contract states what the crate's
//! `BitReader` does, and the verified code of this library rests on it.
use crate::bits::{bits_value, stream_bits};
use bitreader::{BitReader, BitReaderError};
use vstd::prelude::*;

verus! {

#[verifier::external_type_specification]
#[verifier::external_body]
pub struct ExBitReader<'a>(BitReader<'a>);

/// The bits that a `BitReader` was made to read, in reading order.
pub uninterp spec fn reader_bits(reader: BitReader) -> Seq<bool>;

/// The number of bits that a `BitReader` has read so far, as its `position()`
/// reports it.
pub uninterp spec fn reader_position(reader: BitReader) -> nat;

/// Why a read of a `BitReader` failed.
#[derive(Debug, Clone, Copy, PartialEq, Eq)]
pub enum ReadError {
    /// Fewer bits were left than asked for: the cursor's position and the
    /// number of bits that the reader can read in all.
    NotEnoughData { position: u64, length: u64 },
    /// More bits were asked for than the result can hold.
    TooManyBits,
}

/// `BitReader::new`: the reader reads the bits of `bytes`, byte after byte and
/// each from its most significant bit down, and starts before the first bit.
/// The crate counts bits in 64 bits, so `bytes` must be shorter than 2^61.
pub assume_specification<'a>[ BitReader::<'a>::new ](bytes: &'a [u8]) -> (reader: BitReader<'a>)
    requires
        bytes@.len() < 0x2000_0000_0000_0000,
    ensures
        reader_bits(reader) == stream_bits(bytes@),
        reader_position(reader) == 0,
;

/// What a read of `bit_count` bits gives on a reader of `bits` whose cursor
/// stands at `position`: the next `bit_count` bits as a number, first bit most
/// significant; zero for a read of no bit; an error for a read of more than 32
/// bits or of more bits than are left.
pub open spec fn read_result(bits: Seq<bool>, position: nat, bit_count: nat) -> Result<
    u32,
    ReadError,
> {
    if bit_count == 0 {
        Ok(0)
    } else if bit_count > 32 {
        Err(ReadError::TooManyBits)
    } else if position + bit_count > bits.len() {
        Err(ReadError::NotEnoughData { position: position as u64, length: bits.len() as u64 })
    } else {
        Ok(bits_value(bits.subrange(position as int, (position + bit_count) as int)) as u32)
    }
}

/// `BitReader::read_u32`: returns what [`read_result`] says. A successful read
/// moves the cursor behind the bits read; a failed one leaves it where it was.
#[verifier::external_body]
pub(crate) fn read_bits(reader: &mut BitReader, bit_count: u8) -> (outcome: Result<
    u32,
    ReadError,
>)
    ensures
        outcome == read_result(
            reader_bits(*old(reader)),
            reader_position(*old(reader)),
            bit_count as nat,
        ),
        reader_bits(*final(reader)) == reader_bits(*old(reader)),
        reader_position(*final(reader)) == reader_position(*old(reader)) + if outcome is Ok {
            bit_count as nat
        } else {
            0nat
        },
{
    match reader.read_u32(bit_count) {
        Ok(bits) => Ok(bits),
        Err(BitReaderError::NotEnoughData { position, length, requested: _ }) => Err(
            ReadError::NotEnoughData { position, length },
        ),
        Err(BitReaderError::TooManyBitsForType { .. }) => Err(ReadError::TooManyBits),
    }
}

} // verus!

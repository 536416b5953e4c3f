//! Bit arithmetic on machine words: masks, bit fields and 24-bit integers.
use crate::bits::{
    bit_of, lemma_bit_of_div, lemma_bit_of_join, lemma_bit_of_mod, lemma_bit_of_mul,
    lemma_bit_of_small, stream_bits, value_bits, zero_bits,
};
use vstd::arithmetic::div_mod::{
    lemma_div_by_multiple, lemma_div_is_ordered, lemma_div_multiples_vanish_fancy,
    lemma_div_nonincreasing, lemma_mod_bound, lemma_mod_decreases, lemma_small_mod,
};
use vstd::arithmetic::power2::{
    lemma2_to64, lemma2_to64_rest, lemma_pow2_adds, lemma_pow2_pos,
    lemma_pow2_strictly_increases, lemma_pow2_unfold, pow2,
};
use vstd::bits::{
    lemma_u32_low_bits_mask_is_mod, lemma_u32_shl_is_mul, lemma_u32_shr_is_div,
    lemma_u64_low_bits_mask_is_mod, lemma_u64_shr_is_div, low_bits_mask,
};
use vstd::prelude::*;

verus! {

/// The mask of a `width`-bit word with its `length` low bits set, or, if
/// `inverted`, with all bits set but those.
pub open spec fn mask_value(width: nat, length: nat, inverted: bool) -> nat {
    if inverted {
        (pow2(width) - pow2(length)) as nat
    } else {
        (pow2(length) - 1) as nat
    }
}

/// The `length` bits of a `width`-bit word that start `position` bits below
/// its most significant bit, as a number.
pub open spec fn field_value(source: nat, width: nat, position: nat, length: nat) -> nat {
    (source / pow2((width - position - length) as nat)) % pow2(length)
}

/// The 24-bit number that three bytes spell, most significant byte first.
pub open spec fn u24_of(bytes: Seq<u8>) -> nat {
    (bytes[0] * 0x1_0000 + bytes[1] * 0x100 + bytes[2]) as nat
}

/// The `count` low bytes of `value`, most significant first.
pub open spec fn be_bytes(value: nat, count: nat) -> Seq<u8> {
    Seq::new(count, |i: int| ((value / pow2((8 * (count - 1 - i)) as nat)) % 0x100) as u8)
}

/// An unsigned machine word on which masks and bit fields are computed.
pub trait BitWord: Sized + Copy {
    /// Number of bits of the word.
    spec fn width() -> nat;

    /// The word as a natural number.
    spec fn value(self) -> nat;

    /// The mask with the `length` low bits set, or its complement.
    fn low_mask(length: u8, inverted: bool) -> (m: Self)
        requires
            length <= Self::width(),
        ensures
            m.value() == mask_value(Self::width(), length as nat, inverted),
    ;

    /// The bit field of `length` bits at `position`, right-justified.
    fn bit_field(self, position: u8, length: u8) -> (field: Self)
        requires
            position + length <= Self::width(),
        ensures
            field.value() == field_value(
                self.value(),
                Self::width(),
                position as nat,
                length as nat,
            ),
    ;
}

/// `pow2` is monotonic.
pub proof fn lemma_pow2_ordered(low: nat, high: nat)
    requires
        low <= high,
    ensures
        pow2(low) <= pow2(high),
{
    if low < high {
        lemma_pow2_strictly_increases(low, high);
    }
}

/// Mask of a word of `width` bits, computed in 64 bits.
fn mask_in_width(width: u8, length: u8, inverted: bool) -> (m: u64)
    requires
        length <= width <= 64,
    ensures
        m == mask_value(width as nat, length as nat, inverted),
        m < pow2(width as nat),
{
    let mut normal_mask: u64 = 0;
    let mut full_mask: u64 = 0;
    let mut i: u8 = 0;
    proof {
        lemma2_to64();
    }
    while i < width
        invariant
            i <= width <= 64,
            length <= width,
            full_mask == pow2(i as nat) - 1,
            normal_mask == if i <= length {
                pow2(i as nat) - 1
            } else {
                pow2(length as nat) - 1
            },
        decreases width - i,
    {
        proof {
            lemma_pow2_ordered(i as nat, 63);
            lemma2_to64_rest();
            lemma_pow2_unfold((i + 1) as nat);
            assert(full_mask <= 0x7fff_ffff_ffff_ffff);
            assert((full_mask << 1) | 1 == 2 * full_mask + 1) by (bit_vector)
                requires
                    full_mask <= 0x7fff_ffff_ffff_ffff,
            ;
        }
        if i < length {
            normal_mask = (full_mask << 1) | 1;
        }
        full_mask = (full_mask << 1) | 1;
        i = i + 1;
    }
    proof {
        lemma_pow2_ordered(length as nat, width as nat);
        lemma_pow2_pos(length as nat);
    }
    if inverted {
        full_mask - normal_mask
    } else {
        normal_mask
    }
}

/// Bit field of a word of `width` bits, computed in 64 bits.
fn field_in_width(source: u64, width: u8, position: u8, length: u8) -> (field: u64)
    requires
        width <= 64,
        position + length <= width,
        source < pow2(width as nat),
    ensures
        field == field_value(source as nat, width as nat, position as nat, length as nat),
        field <= source,
{
    if length == 0 {
        proof {
            lemma2_to64();
        }
        return 0;
    }
    let right_drift: u8 = width - (position + length);
    let field_mask: u64 = mask_in_width(width, length, false);
    proof {
        lemma2_to64();
        lemma2_to64_rest();
        let drift = right_drift as u64;
        let shifted = source >> drift;
        let scale = pow2(right_drift as nat) as int;
        lemma_pow2_pos(right_drift as nat);
        lemma_pow2_pos(length as nat);
        lemma_u64_shr_is_div(source, drift);
        lemma_u64_shr_is_div(0xffff_ffff_ffff_ffff, drift);
        // the mask can be moved up by `drift` places without losing a bit
        lemma_pow2_adds(length as nat, right_drift as nat);
        lemma_pow2_ordered((length + right_drift) as nat, 64);
        assert(field_mask * scale == pow2(length as nat) * scale - scale) by (nonlinear_arith)
            requires
                field_mask == pow2(length as nat) - 1,
        ;
        lemma_div_by_multiple(field_mask as int, scale);
        lemma_div_is_ordered(field_mask * scale, 0xffff_ffff_ffff_ffff, scale);
        assert(field_mask <= 0xffff_ffff_ffff_ffffu64 >> drift);
        assert(((source & (field_mask << drift)) >> drift) == ((source >> drift) & field_mask))
            by (bit_vector)
            requires
                drift < 64,
                field_mask <= 0xffff_ffff_ffff_ffffu64 >> drift,
        ;
        if length < 64 {
            assert(field_mask == low_bits_mask(length as nat) as u64);
            lemma_u64_low_bits_mask_is_mod(shifted, length as nat);
        } else {
            assert(shifted & 0xffff_ffff_ffff_ffff == shifted) by (bit_vector);
            lemma_small_mod(shifted as nat, pow2(64));
        }
        lemma_div_nonincreasing(source as int, scale);
        lemma_mod_decreases(shifted as nat, pow2(length as nat));
    }
    let bit_mask: u64 = field_mask << right_drift;
    let extracted_bits: u64 = (source & bit_mask) >> right_drift;
    extracted_bits
}

impl BitWord for u8 {
    open spec fn width() -> nat {
        8
    }

    open spec fn value(self) -> nat {
        self as nat
    }

    fn low_mask(length: u8, inverted: bool) -> (m: Self) {
        proof {
            lemma2_to64();
        }
        mask_in_width(8, length, inverted) as u8
    }

    fn bit_field(self, position: u8, length: u8) -> (field: Self) {
        proof {
            lemma2_to64();
        }
        field_in_width(self as u64, 8, position, length) as u8
    }
}

impl BitWord for u16 {
    open spec fn width() -> nat {
        16
    }

    open spec fn value(self) -> nat {
        self as nat
    }

    fn low_mask(length: u8, inverted: bool) -> (m: Self) {
        proof {
            lemma2_to64();
        }
        mask_in_width(16, length, inverted) as u16
    }

    fn bit_field(self, position: u8, length: u8) -> (field: Self) {
        proof {
            lemma2_to64();
        }
        field_in_width(self as u64, 16, position, length) as u16
    }
}

impl BitWord for u32 {
    open spec fn width() -> nat {
        32
    }

    open spec fn value(self) -> nat {
        self as nat
    }

    fn low_mask(length: u8, inverted: bool) -> (m: Self) {
        proof {
            lemma2_to64();
        }
        mask_in_width(32, length, inverted) as u32
    }

    fn bit_field(self, position: u8, length: u8) -> (field: Self) {
        proof {
            lemma2_to64();
        }
        field_in_width(self as u64, 32, position, length) as u32
    }
}

impl BitWord for u64 {
    open spec fn width() -> nat {
        64
    }

    open spec fn value(self) -> nat {
        self as nat
    }

    fn low_mask(length: u8, inverted: bool) -> (m: Self) {
        mask_in_width(64, length, inverted)
    }

    fn bit_field(self, position: u8, length: u8) -> (field: Self) {
        proof {
            lemma2_to64();
        }
        field_in_width(self, 64, position, length)
    }
}

/// Returns the mask with the `length` least significant bits set and every
/// other bit cleared or, if `inverted`, its complement within the word.
pub fn mask<T: BitWord>(length: u8, inverted: bool) -> (m: T)
    requires
        length <= T::width(),
    ensures
        m.value() == mask_value(T::width(), length as nat, inverted),
{
    T::low_mask(length, inverted)
}

/// Extracts `length` bits of `source`, starting `position` bits below the most
/// significant bit, and returns them right-justified.
pub fn get_bits<T: BitWord>(source: T, position: u8, length: u8) -> (field: T)
    requires
        position + length <= T::width(),
    ensures
        field.value() == field_value(
            source.value(),
            T::width(),
            position as nat,
            length as nat,
        ),
{
    source.bit_field(position, length)
}

/// Composes three bytes into a 24-bit integer, most significant byte first.
pub fn bytes_to_u24(bytes: &[u8; 3]) -> (number: u32)
    ensures
        number == u24_of(bytes@),
        number < 0x100_0000,
{
    proof {
        lemma2_to64();
        lemma_u32_shl_is_mul(bytes[0] as u32, 16);
        lemma_u32_shl_is_mul(bytes[1] as u32, 8);
    }
    ((bytes[0] as u32) << 16) + ((bytes[1] as u32) << 8) + (bytes[2] as u32)
}

/// Splits the low 24 bits of `number` into three bytes, most significant byte
/// first. Bits above the 24th are dropped.
pub fn u24_to_bytes(number: u32) -> (bytes: [u8; 3])
    ensures
        bytes@ == be_bytes(number as nat, 3),
{
    let byte_mask: u32 = mask::<u32>(8, false);
    proof {
        lemma2_to64();
        assert(byte_mask == low_bits_mask(8) as u32);
        lemma_u32_low_bits_mask_is_mod(number, 8);
        lemma_u32_low_bits_mask_is_mod(number >> 8, 8);
        lemma_u32_low_bits_mask_is_mod(number >> 16, 8);
        lemma_u32_shr_is_div(number, 8);
        lemma_u32_shr_is_div(number, 16);
    }
    let lower_byte: u8 = (number & byte_mask) as u8;
    let middle_byte: u8 = ((number >> 8) & byte_mask) as u8;
    let upper_byte: u8 = ((number >> 16) & byte_mask) as u8;
    let bytes: [u8; 3] = [upper_byte, middle_byte, lower_byte];
    proof {
        lemma_three_bytes(number as nat);
        assert(bytes@ =~= be_bytes(number as nat, 3));
    }
    bytes
}

/// Moves the `data_length` low bits of `data` to the top of a 24-bit field and
/// returns the field as three bytes. Bits of `data` above `data_length` are
/// dropped.
pub fn left_justify(data: u32, data_length: u8) -> (bytes: [u8; 3])
    requires
        data_length <= 24,
    ensures
        bytes@ == be_bytes(
            (data as nat % pow2(data_length as nat)) * pow2((24 - data_length) as nat),
            3,
        ),
        stream_bits(bytes@) == value_bits(data as nat, data_length as nat) + zero_bits(
            (24 - data_length) as nat,
        ),
{
    let left_shift: u8 = 24 - data_length;
    let justified_data: u32 = data << left_shift;
    proof {
        let shift = left_shift as u32;
        let scale = pow2(left_shift as nat);
        let kept = data as nat % pow2(data_length as nat);
        lemma2_to64();
        lemma_pow2_pos(left_shift as nat);
        lemma_pow2_pos(data_length as nat);
        lemma_pow2_adds(data_length as nat, left_shift as nat);
        assert((data << shift) & 0xff_ffff == (data & (0xff_ffffu32 >> shift)) << shift)
            by (bit_vector)
            requires
                shift <= 24,
        ;
        // 0xff_ffff >> shift is the mask of the bits that are kept
        lemma_u32_shr_is_div(0xff_ffff, shift);
        assert(0xff_ffff == scale * (pow2(data_length as nat) - 1) + (scale - 1))
            by (nonlinear_arith)
            requires
                pow2(data_length as nat) * scale == 0x100_0000,
        ;
        lemma_div_multiples_vanish_fancy(
            pow2(data_length as nat) - 1,
            scale - 1,
            scale as int,
        );
        assert(0xff_ffffu32 >> shift == low_bits_mask(data_length as nat) as u32);
        lemma_u32_low_bits_mask_is_mod(data, data_length as nat);
        assert(data & (0xff_ffffu32 >> shift) == kept);
        assert(kept * scale < 0x100_0000) by (nonlinear_arith)
            requires
                kept < pow2(data_length as nat),
                pow2(data_length as nat) * scale == 0x100_0000,
                scale > 0,
        ;
        lemma_u32_shl_is_mul(kept as u32, shift);
        assert(0xff_ffffu32 == low_bits_mask(24) as u32);
        lemma_u32_low_bits_mask_is_mod(justified_data, 24);
        assert(justified_data as nat % 0x100_0000 == kept * scale);
        lemma_be_bytes_mod(justified_data as nat, 3);
        lemma_left_justified_bits(data as nat, data_length as nat, 24);
        lemma_be_bytes_bits(kept * scale, 3);
    }
    u24_to_bytes(justified_data)
}

/// Returns the bytes of the `length` high bits of `data`, the last of them
/// whole even where `length` ends inside it, or `None` if `length` is zero.
pub fn get_bytes(data: u32, length: u8) -> (bytes: Option<Vec<u8>>)
    requires
        length <= 32,
    ensures
        length == 0 <==> bytes is None,
        bytes matches Some(v) ==> v@ == be_bytes(data as nat, 4).take((length + 7) / 8),
{
    let complete_bytes: u8 = length / 8;
    let bytes_to_return: u8 = if length % 8 > 0 {
        complete_bytes + 1
    } else {
        complete_bytes
    };
    let mut returned_complete_bytes: Vec<u8> = Vec::new();
    if bytes_to_return > 0 {
        let mut i: u8 = 0;
        while i < bytes_to_return
            invariant
                i <= bytes_to_return <= 4,
                returned_complete_bytes@ == be_bytes(data as nat, 4).take(i as int),
            decreases bytes_to_return - i,
        {
            let extracted_byte: u32 = get_bits::<u32>(data, i * 8, 8);
            proof {
                lemma2_to64();
                lemma_mod_bound(
                    (data as nat / pow2((32 - i * 8 - 8) as nat)) as int,
                    0x100,
                );
                assert(extracted_byte as u8 == be_bytes(data as nat, 4)[i as int]);
            }
            returned_complete_bytes.push(extracted_byte as u8);
            i = i + 1;
            assert(returned_complete_bytes@ =~= be_bytes(data as nat, 4).take(i as int));
        }
        Some(returned_complete_bytes)
    } else {
        None
    }
}

/// The bytes of a number depend on its low `8 * count` bits only.
pub proof fn lemma_be_bytes_mod(value: nat, count: nat)
    ensures
        be_bytes(value % pow2(8 * count), count) == be_bytes(value, count),
{
    let reduced = value % pow2(8 * count);
    let a = be_bytes(reduced, count);
    let b = be_bytes(value, count);
    assert forall|i: int| 0 <= i < count implies a[i] == b[i] by {
        let shift = (8 * (count - 1 - i)) as nat;
        lemma_byte_at_bits(reduced, shift);
        lemma_byte_at_bits(value, shift);
        let x = (reduced / pow2(shift)) % 0x100;
        let y = (value / pow2(shift)) % 0x100;
        lemma2_to64();
        let bits_x = value_bits(x, 8);
        let bits_y = value_bits(y, 8);
        assert forall|j: int| 0 <= j < 8 implies bits_x[j] == bits_y[j] by {
            lemma_bit_of_mod(value, 8 * count, (shift + 7 - j) as nat);
        }
        assert(bits_x =~= bits_y);
        crate::bits::lemma_value_bits_injective(x, y, 8);
    }
    assert(a =~= b);
}

/// The bits of the byte of `value` that starts at weight `2^shift`.
pub proof fn lemma_byte_at_bits(value: nat, shift: nat)
    ensures
        forall|j: nat|
            j < 8 ==> #[trigger] bit_of((value / pow2(shift)) % 0x100, j) == bit_of(
                value,
                shift + j,
            ),
        (value / pow2(shift)) % 0x100 < 0x100,
{
    lemma2_to64();
    assert forall|j: nat| j < 8 implies #[trigger] bit_of((value / pow2(shift)) % 0x100, j)
        == bit_of(value, shift + j) by {
        lemma_bit_of_mod(value / pow2(shift), 8, j);
        lemma_bit_of_div(value, shift, j);
    }
}

/// The bits of the `count` low bytes of a number are its `8 * count` low bits.
pub proof fn lemma_be_bytes_bits(value: nat, count: nat)
    ensures
        stream_bits(be_bytes(value, count)) == value_bits(value, 8 * count),
{
    let bytes = be_bytes(value, count);
    let stream = stream_bits(bytes);
    let bits = value_bits(value, 8 * count);
    assert forall|i: int| 0 <= i < 8 * count implies stream[i] == bits[i] by {
        let k = i / 8;
        let shift = (8 * (count - 1 - k)) as nat;
        lemma_byte_at_bits(value, shift);
        let byte = (value / pow2(shift)) % 0x100;
        assert(bytes[k] == byte as u8);
        assert(bit_of(byte, (7 - i % 8) as nat) == bit_of(value, shift + (7 - i % 8) as nat));
        assert(shift + (7 - i % 8) == 8 * count - 1 - i);
    }
    assert(stream =~= bits);
}

/// The `width` low bits of `(value % 2^length) * 2^(width - length)` are the
/// `length` low bits of `value` followed by cleared bits.
pub proof fn lemma_left_justified_bits(value: nat, length: nat, width: nat)
    requires
        length <= width,
    ensures
        value_bits((value % pow2(length)) * pow2((width - length) as nat), width) == value_bits(
            value,
            length,
        ) + zero_bits((width - length) as nat),
{
    let pad = (width - length) as nat;
    let kept = value % pow2(length);
    let whole = value_bits(kept * pow2(pad), width);
    let parts = value_bits(value, length) + zero_bits(pad);
    assert forall|i: int| 0 <= i < width implies whole[i] == parts[i] by {
        let index = (width - 1 - i) as nat;
        lemma_bit_of_mul(kept, pad, index);
        if i < length {
            lemma_bit_of_mod(value, length, (index - pad) as nat);
        }
    }
    assert(whole =~= parts);
}

/// A set bit of `2^length - 1` is one of the `length` lowest.
pub proof fn lemma_bit_of_ones(length: nat, index: nat)
    ensures
        bit_of((pow2(length) - 1) as nat, index) == (index < length),
{
    lemma_pow2_pos(length);
    lemma_pow2_pos(index);
    let ones = (pow2(length) - 1) as nat;
    if index < length {
        let gap = (length - index) as nat;
        lemma_pow2_adds(gap, index);
        lemma_pow2_unfold(gap);
        lemma_pow2_pos(gap);
        let high = (pow2(gap) - 1) as nat;
        let low = (pow2(index) - 1) as nat;
        assert(ones == high * pow2(index) + low) by (nonlinear_arith)
            requires
                ones == pow2(length) - 1,
                pow2(length) == pow2(gap) * pow2(index),
                high == pow2(gap) - 1,
                low == pow2(index) - 1,
        ;
        lemma_bit_of_join(high, low, index, index);
        lemma2_to64();
        assert(bit_of(high, 0) == (high % 2 == 1));
    } else {
        lemma_bit_of_small(ones, length, index);
    }
}

/// A mask has exactly its `length` low bits set, and the inverted mask is its
/// bitwise complement within the word.
pub proof fn lemma_mask_bits(width: nat, length: nat)
    requires
        length <= width,
    ensures
        value_bits(mask_value(width, length, false), width) == Seq::new(
            width,
            |i: int| i >= width - length,
        ),
        value_bits(mask_value(width, length, true), width) == Seq::new(
            width,
            |i: int| !(i >= width - length),
        ),
        mask_value(width, length, false) + mask_value(width, length, true) == pow2(width) - 1,
{
    let normal = value_bits(mask_value(width, length, false), width);
    let inverted = value_bits(mask_value(width, length, true), width);
    let rest = (width - length) as nat;
    lemma_pow2_ordered(length, width);
    lemma_pow2_pos(length);
    lemma_pow2_adds(rest, length);
    assert(mask_value(width, length, true) == (pow2(rest) - 1) * pow2(length))
        by (nonlinear_arith)
        requires
            mask_value(width, length, true) == pow2(width) - pow2(length),
            pow2(width) == pow2(rest) * pow2(length),
    ;
    lemma_pow2_pos(rest);
    assert forall|i: int| 0 <= i < width implies normal[i] == (i >= width - length)
        && inverted[i] == !(i >= width - length) by {
        let index = (width - 1 - i) as nat;
        lemma_bit_of_ones(length, index);
        lemma_bit_of_mul((pow2(rest) - 1) as nat, length, index);
        if index >= length {
            lemma_bit_of_ones(rest, (index - length) as nat);
        }
    }
    assert(normal =~= Seq::new(width, |i: int| i >= width - length));
    assert(inverted =~= Seq::new(width, |i: int| !(i >= width - length)));
}

/// The bits of a bit field are the bits of the word at the field's place.
pub proof fn lemma_field_bits(source: nat, width: nat, position: nat, length: nat)
    requires
        position + length <= width,
    ensures
        value_bits(field_value(source, width, position, length), length) == value_bits(
            source,
            width,
        ).subrange(position as int, (position + length) as int),
        field_value(source, width, position, length) < pow2(length),
{
    crate::bits::lemma_value_bits_subrange(source, width, position, position + length);
}

/// Three bytes made of a 24-bit number spell that number.
pub proof fn lemma_u24_round_trip(number: nat)
    requires
        number < 0x100_0000,
    ensures
        u24_of(be_bytes(number, 3)) == number,
{
    lemma_three_bytes(number);
    let low = number % 0x100;
    let rest = number / 0x100;
    let middle = rest % 0x100;
    let high = rest / 0x100;
    assert(number == rest * 0x100 + low);
    assert(rest == high * 0x100 + middle);
    assert(number / 0x1_0000 == high);
    assert(high % 0x100 == high);
}

/// The three low bytes of a number, one by one.
pub proof fn lemma_three_bytes(value: nat)
    ensures
        be_bytes(value, 3)[0] == ((value / 0x1_0000) % 0x100) as u8,
        be_bytes(value, 3)[1] == ((value / 0x100) % 0x100) as u8,
        be_bytes(value, 3)[2] == (value % 0x100) as u8,
{
    lemma2_to64();
    assert(pow2((8 * (3 - 1 - 0)) as nat) == 0x1_0000);
    assert(pow2((8 * (3 - 1 - 1)) as nat) == 0x100);
    assert(pow2((8 * (3 - 1 - 2)) as nat) == 1);
}

/// What `&` with a mask of low bits and `&` with an inverted mask do to a
/// 32-bit word.
pub proof fn lemma_and_low_mask(word: u32, length: nat)
    requires
        length <= 32,
    ensures
        word & (mask_value(32, length, false) as u32) == word as nat % pow2(length),
{
    lemma2_to64();
    if length < 32 {
        lemma_u32_low_bits_mask_is_mod(word, length);
        lemma_pow2_ordered(length, 31);
    } else {
        assert(word & 0xffff_ffff == word) by (bit_vector);
        lemma_small_mod(word as nat, pow2(32));
    }
}

/// `&` with an inverted mask clears the `length` low bits of a 32-bit word.
pub proof fn lemma_and_inverted_mask(word: u32, length: nat)
    requires
        length <= 32,
    ensures
        word & (mask_value(32, length, true) as u32) == word - word as nat % pow2(length),
{
    lemma2_to64();
    lemma_pow2_ordered(length, 32);
    lemma_pow2_pos(length);
    lemma_and_low_mask(word, length);
    let low = mask_value(32, length, false) as u32;
    assert(word & ((0xffff_ffff - low) as u32) == word - (word & low)) by (bit_vector);
}

} // verus!

//! Bit sequences: the mathematical model behind every contract of this crate.
//!
//! A stream of bits is a `Seq<bool>` in reading order, most significant bit
//! first. Numbers and byte strings are related to such sequences by
//! [`value_bits`], [`bits_value`] and [`stream_bits`].
use vstd::arithmetic::div_mod::{
    lemma_basic_div, lemma_div_denominator, lemma_div_multiples_vanish_fancy,
    lemma_div_multiples_vanish_quotient, lemma_fundamental_div_mod, lemma_mod_breakdown,
    lemma_mod_multiples_vanish, lemma_small_mod, lemma_truncate_middle,
};
use vstd::arithmetic::mul::lemma_mul_is_commutative;
use vstd::arithmetic::power2::{
    lemma2_to64, lemma_pow2_adds, lemma_pow2_pos, lemma_pow2_strictly_increases,
    lemma_pow2_unfold, pow2,
};
use vstd::prelude::*;

verus! {

/// Whether the bit of weight `2^index` is set in `value`.
pub open spec fn bit_of(value: nat, index: nat) -> bool {
    (value / pow2(index)) % 2 == 1
}

/// The `len` low bits of `value`, most significant first.
pub open spec fn value_bits(value: nat, len: nat) -> Seq<bool> {
    Seq::new(len, |i: int| bit_of(value, (len - 1 - i) as nat))
}

/// The number that `bits` spell when read most significant bit first.
pub open spec fn bits_value(bits: Seq<bool>) -> nat
    decreases bits.len(),
{
    if bits.len() == 0 {
        0
    } else {
        2 * bits_value(bits.drop_last()) + if bits.last() {
            1nat
        } else {
            0nat
        }
    }
}

/// The bits of a byte string in reading order: byte after byte, each from its
/// most significant bit down.
pub open spec fn stream_bits(bytes: Seq<u8>) -> Seq<bool> {
    Seq::new(8 * bytes.len(), |i: int| bit_of(bytes[i / 8] as nat, (7 - i % 8) as nat))
}

/// `count` cleared bits.
pub open spec fn zero_bits(count: nat) -> Seq<bool> {
    Seq::new(count, |i: int| false)
}

/// The bytes that a bit stream fills: each byte spells eight bits of the
/// stream, and bits behind the last full byte are left out.
pub open spec fn whole_bytes(bits: Seq<bool>) -> Seq<u8> {
    Seq::new(bits.len() / 8, |k: int| bits_value(bits.subrange(8 * k, 8 * k + 8)) as u8)
}

/// A bit stream followed by as many cleared bits as fill its last byte.
pub open spec fn padded(bits: Seq<bool>) -> Seq<bool> {
    bits + zero_bits(((8 - bits.len() % 8) % 8) as nat)
}

/// The lowest bit of a number tells whether it is odd.
pub proof fn lemma_bit_of_zero(value: nat)
    ensures
        bit_of(value, 0) == (value % 2 == 1),
        pow2(0) == 1,
{
    lemma2_to64();
}

/// Dividing by `2^shift` moves every bit down by `shift` places.
pub proof fn lemma_bit_of_div(value: nat, shift: nat, index: nat)
    ensures
        bit_of(value / pow2(shift), index) == bit_of(value, shift + index),
{
    lemma_pow2_pos(shift);
    lemma_pow2_pos(index);
    lemma_pow2_adds(shift, index);
    lemma_div_denominator(value as int, pow2(shift) as int, pow2(index) as int);
}

/// Reducing modulo `2^width` keeps the bits below `width`.
pub proof fn lemma_bit_of_mod(value: nat, width: nat, index: nat)
    requires
        index < width,
    ensures
        bit_of(value % pow2(width), index) == bit_of(value, index),
{
    let high = (width - index) as nat;
    let p_index = pow2(index) as int;
    let p_high = pow2(high) as int;
    let p_width = pow2(width) as int;
    lemma_pow2_pos(index);
    lemma_pow2_pos(high);
    lemma_pow2_pos(width);
    lemma_pow2_adds(index, high);
    assert(p_width == p_index * p_high);
    // value % (2^index * 2^high) == 2^index * ((value / 2^index) % 2^high) + value % 2^index
    lemma_mod_breakdown(value as int, p_index, p_high);
    let quotient = (value as int / p_index) % p_high;
    let rest = value as int % p_index;
    assert(value as int % p_width == p_index * quotient + rest);
    lemma_div_multiples_vanish_fancy(quotient, rest, p_index);
    assert((value as int % p_width) / p_index == quotient);
    // (q % 2^high) % 2 == q % 2, as 2 divides 2^high
    lemma_pow2_unfold(high);
    let half = pow2((high - 1) as nat) as int;
    lemma_pow2_pos((high - 1) as nat);
    assert(p_high == 2 * half);
    lemma_mod_breakdown(value as int / p_index, 2, half);
    let q = value as int / p_index;
    assert(q % p_high == 2 * ((q / 2) % half) + q % 2);
    lemma_mod_multiples_vanish((q / 2) % half, q % 2, 2);
    assert((q % p_high) % 2 == (q % 2) % 2);
}

/// Multiplying by `2^shift` moves every bit up by `shift` places and clears
/// the places below.
pub proof fn lemma_bit_of_mul(value: nat, shift: nat, index: nat)
    ensures
        bit_of(value * pow2(shift), index) == (index >= shift && bit_of(
            value,
            (index - shift) as nat,
        )),
{
    lemma_pow2_pos(shift);
    lemma_pow2_pos(index);
    let p_shift = pow2(shift) as int;
    lemma_mul_is_commutative(value as int, p_shift);
    if index >= shift {
        let rest = (index - shift) as nat;
        lemma_bit_of_div(value * pow2(shift), shift, rest);
        lemma_div_multiples_vanish_fancy(value as int, 0, p_shift);
        assert((value * pow2(shift)) / pow2(shift) == value);
    } else {
        let gap = (shift - index) as nat;
        let p_index = pow2(index) as int;
        lemma_pow2_adds(index, gap);
        lemma_pow2_unfold(gap);
        let half = pow2((gap - 1) as nat) as int;
        assert(p_shift == p_index * (2 * half));
        // value * 2^shift == 2^index * (2 * (half * value))
        assert(value * p_shift == p_index * (2 * (half * value))) by (nonlinear_arith)
            requires
                p_shift == p_index * (2 * half),
        ;
        lemma_div_multiples_vanish_fancy(2 * (half * value), 0, p_index);
        assert((value * pow2(shift)) as int / p_index == 2 * (half * value));
        lemma_mod_multiples_vanish(half * value, 0, 2);
    }
}

/// A number below `2^width` has no bit at `width` or above.
pub proof fn lemma_bit_of_small(value: nat, width: nat, index: nat)
    requires
        value < pow2(width),
        index >= width,
    ensures
        !bit_of(value, index),
{
    if index > width {
        lemma_pow2_strictly_increases(width, index);
    }
    lemma_basic_div(value as int, pow2(index) as int);
}

/// The bits of `high * 2^width + low`, for `low < 2^width`: those of `low`
/// below `width`, those of `high` from `width` up.
pub proof fn lemma_bit_of_join(high: nat, low: nat, width: nat, index: nat)
    requires
        low < pow2(width),
    ensures
        bit_of(high * pow2(width) + low, index) == if index < width {
            bit_of(low, index)
        } else {
            bit_of(high, (index - width) as nat)
        },
{
    let p = pow2(width) as int;
    lemma_pow2_pos(width);
    let joined = high * pow2(width) + low;
    lemma_mul_is_commutative(high as int, p);
    if index < width {
        lemma_mod_multiples_vanish(high as int, low as int, p);
        lemma_small_mod(low, pow2(width));
        assert(joined % pow2(width) == low);
        lemma_bit_of_mod(joined, width, index);
    } else {
        lemma_div_multiples_vanish_fancy(high as int, low as int, p);
        assert(joined / pow2(width) == high);
        lemma_bit_of_div(joined, width, (index - width) as nat);
    }
}

/// Two numbers below `2^width` with the same `width` low bits are equal.
pub proof fn lemma_value_bits_injective(a: nat, b: nat, width: nat)
    requires
        a < pow2(width),
        b < pow2(width),
        value_bits(a, width) == value_bits(b, width),
    ensures
        a == b,
    decreases width,
{
    if width == 0 {
        lemma_bit_of_zero(a);
    } else {
        let rest = (width - 1) as nat;
        lemma_pow2_unfold(width);
        assert(a % 2 == b % 2) by {
            lemma_bit_of_zero(a);
            lemma_bit_of_zero(b);
            assert(value_bits(a, width)[width - 1] == bit_of(a, 0));
            assert(value_bits(b, width)[width - 1] == bit_of(b, 0));
        }
        assert(pow2(1) == 2) by {
            lemma2_to64();
        }
        let half_a = a / 2;
        let half_b = b / 2;
        let bits_a = value_bits(half_a, rest);
        let bits_b = value_bits(half_b, rest);
        assert(bits_a =~= bits_b) by {
            assert forall|i: int| 0 <= i < rest implies bits_a[i] == bits_b[i] by {
                let index = (rest - 1 - i) as nat;
                lemma_bit_of_div(a, 1, index);
                lemma_bit_of_div(b, 1, index);
                assert(value_bits(a, width)[i] == bit_of(a, 1 + index));
                assert(value_bits(b, width)[i] == bit_of(b, 1 + index));
            }
        }
        lemma_value_bits_injective(half_a, half_b, rest);
        lemma_fundamental_div_mod(a as int, 2);
        lemma_fundamental_div_mod(b as int, 2);
    }
}

/// `bits_value` stays below `2^len`.
pub proof fn lemma_bits_value_bound(bits: Seq<bool>)
    ensures
        bits_value(bits) < pow2(bits.len()),
    decreases bits.len(),
{
    if bits.len() == 0 {
        lemma2_to64();
    } else {
        lemma_bits_value_bound(bits.drop_last());
        lemma_pow2_unfold(bits.len());
    }
}

/// Spelling out the bits of `bits_value(bits)` gives `bits` back.
pub proof fn lemma_value_bits_of_bits_value(bits: Seq<bool>)
    ensures
        value_bits(bits_value(bits), bits.len()) == bits,
    decreases bits.len(),
{
    let len = bits.len();
    if len > 0 {
        let front = bits.drop_last();
        let value = bits_value(bits);
        let bit: nat = if bits.last() {
            1
        } else {
            0
        };
        lemma_value_bits_of_bits_value(front);
        lemma2_to64();
        lemma_div_multiples_vanish_fancy(bits_value(front) as int, bit as int, 2);
        assert(value / 2 == bits_value(front));
        lemma_mod_multiples_vanish(bits_value(front) as int, bit as int, 2);
        assert(value % 2 == bit);
        let spelled = value_bits(value, len);
        assert forall|i: int| 0 <= i < len implies spelled[i] == bits[i] by {
            if i == len - 1 {
                assert(bit_of(value, 0) == bits.last());
            } else {
                let index = (len - 2 - i) as nat;
                lemma_bit_of_div(value, 1, index);
                assert(value_bits(bits_value(front), front.len())[i] == front[i]);
            }
        }
        assert(spelled =~= bits);
    } else {
        assert(value_bits(bits_value(bits), len) =~= bits);
    }
}

/// Reading back the `len` low bits of `value` gives `value` modulo `2^len`.
pub proof fn lemma_bits_value_of_value_bits(value: nat, len: nat)
    ensures
        bits_value(value_bits(value, len)) == value % pow2(len),
{
    let bits = value_bits(value, len);
    let reduced = value % pow2(len);
    lemma_pow2_pos(len);
    lemma_bits_value_bound(bits);
    lemma_value_bits_of_bits_value(bits);
    let reduced_bits = value_bits(reduced, len);
    assert(reduced_bits =~= bits) by {
        assert forall|i: int| 0 <= i < len implies reduced_bits[i] == bits[i] by {
            lemma_bit_of_mod(value, len, (len - 1 - i) as nat);
        }
    }
    lemma_value_bits_injective(bits_value(bits), reduced, len);
}

/// The bits of `high * 2^width + low`, for `low < 2^width`, are those of
/// `high` followed by the `width` bits of `low`.
pub proof fn lemma_value_bits_join(high: nat, high_len: nat, low: nat, width: nat)
    requires
        low < pow2(width),
    ensures
        value_bits(high * pow2(width) + low, high_len + width) == value_bits(high, high_len)
            + value_bits(low, width),
{
    let joined = high * pow2(width) + low;
    let len = high_len + width;
    let whole = value_bits(joined, len);
    let parts = value_bits(high, high_len) + value_bits(low, width);
    assert forall|i: int| 0 <= i < len implies whole[i] == parts[i] by {
        lemma_bit_of_join(high, low, width, (len - 1 - i) as nat);
    }
    assert(whole =~= parts);
}

/// Appending a byte to a byte string appends its eight bits to the stream.
pub proof fn lemma_stream_bits_push(bytes: Seq<u8>, byte: u8)
    ensures
        stream_bits(bytes.push(byte)) == stream_bits(bytes) + value_bits(byte as nat, 8),
{
    let longer = bytes.push(byte);
    let joined = stream_bits(bytes) + value_bits(byte as nat, 8);
    let stream = stream_bits(longer);
    assert forall|i: int| 0 <= i < 8 * longer.len() implies stream[i] == joined[i] by {
        if i < 8 * bytes.len() {
            assert(longer[i / 8] == bytes[i / 8]);
        } else {
            let j = i - 8 * bytes.len();
            assert(i / 8 == bytes.len());
            assert(i % 8 == j);
            assert(joined[i] == value_bits(byte as nat, 8)[j]);
        }
    }
    assert(stream =~= joined);
}

/// The bits of the concatenation of two byte strings.
pub proof fn lemma_stream_bits_concat(front: Seq<u8>, back: Seq<u8>)
    ensures
        stream_bits(front + back) == stream_bits(front) + stream_bits(back),
{
    let whole = front + back;
    let joined = stream_bits(front) + stream_bits(back);
    let stream = stream_bits(whole);
    assert forall|i: int| 0 <= i < 8 * whole.len() implies stream[i] == joined[i] by {
        if i < 8 * front.len() {
            assert(whole[i / 8] == front[i / 8]);
        } else {
            let j = i - 8 * front.len();
            assert(i / 8 == front.len() + j / 8);
            assert(i % 8 == j % 8);
            assert(whole[i / 8] == back[j / 8]);
        }
    }
    assert(stream =~= joined);
}

/// Dividing `value * 2^up` by `2^down`, for `up <= down`.
pub proof fn lemma_scaled_div(value: nat, up: nat, down: nat)
    requires
        up <= down,
    ensures
        (value * pow2(up)) / pow2(down) == value / pow2((down - up) as nat),
{
    let rest = (down - up) as nat;
    lemma_pow2_pos(up);
    lemma_pow2_pos(rest);
    lemma_pow2_adds(up, rest);
    lemma_div_multiples_vanish_quotient(pow2(up) as int, value as int, pow2(rest) as int);
    lemma_mul_is_commutative(value as int, pow2(up) as int);
}

/// The remainder of `value * 2^up` modulo `2^down`, for `up <= down`.
pub proof fn lemma_scaled_mod(value: nat, up: nat, down: nat)
    requires
        up <= down,
    ensures
        (value * pow2(up)) % pow2(down) == (value % pow2((down - up) as nat)) * pow2(up),
{
    let rest = (down - up) as nat;
    lemma_pow2_pos(up);
    lemma_pow2_pos(rest);
    lemma_pow2_adds(up, rest);
    lemma_truncate_middle(value as int, pow2(up) as int, pow2(rest) as int);
    lemma_mul_is_commutative(value as int, pow2(up) as int);
    lemma_mul_is_commutative((value % pow2(rest)) as int, pow2(up) as int);
}

/// A product `value * 2^up` with `value < 2^width` stays below
/// `2^(width + up)`.
pub proof fn lemma_scaled_bound(value: nat, width: nat, up: nat)
    requires
        value < pow2(width),
    ensures
        value * pow2(up) < pow2(width + up),
        value * pow2(up) + pow2(up) <= pow2(width + up),
{
    lemma_pow2_pos(up);
    lemma_pow2_adds(width, up);
    assert(value * pow2(up) + pow2(up) <= pow2(width) * pow2(up)) by (nonlinear_arith)
        requires
            value + 1 <= pow2(width),
            pow2(up) > 0,
    ;
}

/// The part of a bit sequence of a number between two places is the bit
/// sequence of a part of the number.
pub proof fn lemma_value_bits_subrange(value: nat, len: nat, from: nat, to: nat)
    requires
        from <= to <= len,
    ensures
        value_bits(value, len).subrange(from as int, to as int) == value_bits(
            (value / pow2((len - to) as nat)) % pow2((to - from) as nat),
            (to - from) as nat,
        ),
        (value / pow2((len - to) as nat)) % pow2((to - from) as nat) < pow2((to - from) as nat),
{
    let drift = (len - to) as nat;
    let width = (to - from) as nat;
    let part = (value / pow2(drift)) % pow2(width);
    let bits = value_bits(part, width);
    let cut = value_bits(value, len).subrange(from as int, to as int);
    lemma_pow2_pos(width);
    assert forall|i: int| 0 <= i < width implies bits[i] == cut[i] by {
        let index = (width - 1 - i) as nat;
        lemma_bit_of_mod(value / pow2(drift), width, index);
        lemma_bit_of_div(value, drift, index);
    }
    assert(bits =~= cut);
}

/// The numbers that the front and the back of a bit sequence spell.
pub proof fn lemma_bits_value_split(bits: Seq<bool>, at: nat)
    requires
        at <= bits.len(),
    ensures
        bits_value(bits.take(at as int)) == bits_value(bits) / pow2((bits.len() - at) as nat),
        bits_value(bits.skip(at as int)) == bits_value(bits) % pow2((bits.len() - at) as nat),
{
    let len = bits.len();
    let back = (len - at) as nat;
    let value = bits_value(bits);
    lemma_value_bits_of_bits_value(bits);
    lemma_bits_value_bound(bits);
    lemma_pow2_pos(back);
    lemma_pow2_pos(at);
    lemma2_to64();
    // the front
    lemma_value_bits_subrange(value, len, 0, at);
    assert(bits.take(at as int) =~= bits.subrange(0, at as int));
    let front_value = (value / pow2(back)) % pow2(at);
    lemma_bits_value_of_value_bits(front_value, at);
    lemma_small_mod(front_value, pow2(at));
    lemma_pow2_adds(at, back);
    if value / pow2(back) >= pow2(at) {
        lemma_fundamental_div_mod(value as int, pow2(back) as int);
        assert(pow2(back) * (value / pow2(back)) >= pow2(back) * pow2(at)) by (nonlinear_arith)
            requires
                value / pow2(back) >= pow2(at),
                pow2(back) > 0,
        ;
        lemma_mul_is_commutative(pow2(back) as int, pow2(at) as int);
    }
    lemma_small_mod(value / pow2(back), pow2(at));
    // the back
    lemma_value_bits_subrange(value, len, at, len);
    assert(bits.skip(at as int) =~= bits.subrange(at as int, len as int));
    let back_value = value % pow2(back);
    assert((value / pow2((len - len) as nat)) % pow2(back) == back_value) by {
        lemma_bit_of_zero(value);
        assert(pow2((len - len) as nat) == 1);
        assert(value / 1 == value);
    }
    lemma_bits_value_of_value_bits(back_value, back);
    lemma_small_mod(back_value, pow2(back));
}

/// The number that two joined bit sequences spell.
pub proof fn lemma_bits_value_join(front: Seq<bool>, back: Seq<bool>)
    ensures
        bits_value(front + back) == bits_value(front) * pow2(back.len()) + bits_value(back),
{
    let whole = front + back;
    lemma_bits_value_split(whole, front.len());
    assert(whole.take(front.len() as int) =~= front);
    assert(whole.skip(front.len() as int) =~= back);
    lemma_pow2_pos(back.len());
    lemma_fundamental_div_mod(bits_value(whole) as int, pow2(back.len()) as int);
    lemma_mul_is_commutative(bits_value(front) as int, pow2(back.len()) as int);
}

/// The bits of the first `count` bytes of a byte string.
pub proof fn lemma_stream_bits_take(bytes: Seq<u8>, count: nat)
    requires
        count <= bytes.len(),
    ensures
        stream_bits(bytes.take(count as int)) == stream_bits(bytes).take((8 * count) as int),
{
    let front = stream_bits(bytes.take(count as int));
    let cut = stream_bits(bytes).take((8 * count) as int);
    assert forall|i: int| 0 <= i < 8 * count implies front[i] == cut[i] by {
        assert(bytes.take(count as int)[i / 8] == bytes[i / 8]);
    }
    assert(front =~= cut);
}

/// The bytes that the bits of a byte string fill are that byte string.
pub proof fn lemma_whole_bytes_of_stream(bytes: Seq<u8>)
    ensures
        whole_bytes(stream_bits(bytes)) == bytes,
{
    let stream = stream_bits(bytes);
    let filled = whole_bytes(stream);
    assert(filled.len() == bytes.len());
    assert forall|k: int| 0 <= k < bytes.len() implies filled[k] == bytes[k] by {
        let part = stream.subrange(8 * k, 8 * k + 8);
        let byte_bits = value_bits(bytes[k] as nat, 8);
        assert forall|j: int| 0 <= j < 8 implies part[j] == byte_bits[j] by {
            let i = 8 * k + j;
            assert(i / 8 == k);
            assert(i % 8 == j);
        }
        assert(part =~= byte_bits);
        lemma_bits_value_of_value_bits(bytes[k] as nat, 8);
        assert(pow2(8) == 0x100) by {
            lemma2_to64();
        }
        lemma_small_mod(bytes[k] as nat, 0x100);
    }
    assert(filled =~= bytes);
}

/// The bytes that a bit stream fills are those that its full bytes fill:
/// bits behind the last full byte do not count.
pub proof fn lemma_whole_bytes_of_front(bits: Seq<bool>, count: nat)
    requires
        count == bits.len() / 8,
    ensures
        whole_bytes(bits.take((8 * count) as int)) == whole_bytes(bits),
{
    let front = bits.take((8 * count) as int);
    let a = whole_bytes(front);
    let b = whole_bytes(bits);
    assert(a.len() == b.len());
    assert forall|k: int| 0 <= k < a.len() implies a[k] == b[k] by {
        assert(front.subrange(8 * k, 8 * k + 8) =~= bits.subrange(8 * k, 8 * k + 8));
    }
    assert(a =~= b);
}

/// The bits of a byte string need no padding, and fill that byte string.
pub proof fn lemma_padded_whole_bytes(bytes: Seq<u8>)
    ensures
        padded(stream_bits(bytes)) == stream_bits(bytes),
        whole_bytes(padded(stream_bits(bytes))) == bytes,
{
    assert(padded(stream_bits(bytes)) =~= stream_bits(bytes));
    lemma_whole_bytes_of_stream(bytes);
}

} // verus!

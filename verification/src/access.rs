//! Reading and writing one field of a packed record.
//!
//! A record is a sequence of bytes. Bit `p` of the record is bit `p % 8` of
//! byte `p / 8`, counted from the least significant bit, and a field of
//! `width` bits at bit offset `offset` is the bits `offset .. offset + width`
//! of the record, lowest first. A field may start and end anywhere inside a
//! byte and may share its first and last byte with its neighbours.
//!
//! A caller that lets several writers work on one record gives each call
//! exclusive access to the bytes for its duration: a write reads a shared
//! byte, changes the field's part of it and stores it back.

use crate::bitmath::{
    bit_of, lemma_bit_of_dropped, lemma_bit_of_low_bits, lemma_drop_bits_twice,
    lemma_low_bits_unfold,
};
use crate::register::{low_mask, PopBits, PushBits};
use crate::specifier::{Bits, Specifier};
use vstd::arithmetic::div_mod::{lemma_mod_bound, lemma_small_mod};
use vstd::arithmetic::power2::{
    lemma2_to64, lemma_pow2_pos, lemma_pow2_strictly_increases, lemma_pow2_unfold, pow2,
};
use vstd::bits::lemma_u8_shr_is_div;
use vstd::prelude::*;

verus! {

/// Bit `pos` of a record.
pub open spec fn bit_at(bytes: Seq<u8>, pos: int) -> bool {
    bit_of(bytes[pos / 8] as nat, (pos % 8) as nat)
}

/// The field of `width` bits that starts at bit `offset` of a record, read
/// as a number: bit `offset` is its lowest bit.
pub open spec fn field_value(bytes: Seq<u8>, offset: int, width: nat) -> nat
    decreases width,
{
    if width == 0 {
        0
    } else {
        (if bit_at(bytes, offset) {
            1nat
        } else {
            0nat
        }) + 2 * field_value(bytes, offset + 1, (width - 1) as nat)
    }
}

/// `after` is `before` with the low `width` bits of `v` stored in the field
/// at `offset`: the field's bits are those of `v`, and every other bit of
/// the record is as it was.
pub open spec fn written(before: Seq<u8>, after: Seq<u8>, offset: int, width: nat, v: nat) -> bool {
    &&& after.len() == before.len()
    &&& forall|p: int|
        0 <= p < 8 * before.len() ==> #[trigger] bit_at(after, p) == (if offset <= p < offset
            + width {
            bit_of(v, (p - offset) as nat)
        } else {
            bit_at(before, p)
        })
}

/// A field of `width` bits is a number below `2^width`.
pub proof fn lemma_field_value_bound(bytes: Seq<u8>, offset: int, width: nat)
    ensures
        field_value(bytes, offset, width) < pow2(width),
    decreases width,
{
    if width == 0 {
        lemma2_to64();
    } else {
        lemma_field_value_bound(bytes, offset + 1, (width - 1) as nat);
        lemma_pow2_unfold(width);
    }
}

/// A field is its low part followed by its high part.
pub proof fn lemma_field_value_split(bytes: Seq<u8>, offset: int, low: nat, high: nat)
    ensures
        field_value(bytes, offset, low + high) == field_value(bytes, offset, low) + pow2(low)
            * field_value(bytes, offset + low, high),
    decreases low,
{
    if low == 0 {
        lemma2_to64();
    } else {
        let up = (low - 1) as nat;
        lemma_field_value_split(bytes, offset + 1, up, high);
        lemma_pow2_unfold(low);
        assert(field_value(bytes, offset, low + high) == (if bit_at(bytes, offset) {
            1nat
        } else {
            0nat
        }) + 2 * field_value(bytes, offset + 1, up + high));
        assert(2 * (pow2(up) * field_value(bytes, offset + 1 + up, high)) == pow2(low)
            * field_value(bytes, offset + low, high)) by (nonlinear_arith)
            requires
                pow2(low) == 2 * pow2(up),
                offset + 1 + up == offset + low,
        ;
    }
}

/// A field is decided by its own bits: two records that agree on them
/// hold the same field.
pub proof fn lemma_field_value_of_equal_bits(a: Seq<u8>, b: Seq<u8>, offset: int, width: nat)
    requires
        forall|i: int| offset <= i < offset + width ==> bit_at(a, i) == bit_at(b, i),
    ensures
        field_value(a, offset, width) == field_value(b, offset, width),
    decreases width,
{
    if width > 0 {
        lemma_field_value_of_equal_bits(a, b, offset + 1, (width - 1) as nat);
    }
}

/// A field whose bits are the low bits of `v` holds `v` modulo `2^width`.
pub proof fn lemma_field_value_of_bits(bytes: Seq<u8>, offset: int, width: nat, v: nat)
    requires
        forall|i: int|
            offset <= i < offset + width ==> bit_at(bytes, i) == bit_of(v, (i - offset) as nat),
    ensures
        field_value(bytes, offset, width) == v % pow2(width),
    decreases width,
{
    lemma2_to64();
    if width == 0 {
    } else {
        assert forall|i: int| offset + 1 <= i < offset + 1 + (width - 1) implies bit_at(bytes, i)
            == bit_of(v / 2, (i - (offset + 1)) as nat) by {
            lemma_bit_of_dropped(v, 1, (i - (offset + 1)) as nat);
        }
        lemma_field_value_of_bits(bytes, offset + 1, (width - 1) as nat, v / 2);
        lemma_low_bits_unfold(v, width);
        assert(bit_at(bytes, offset) == bit_of(v, 0));
    }
}

/// A field that lies inside one byte is a slice of that byte.
pub proof fn lemma_field_value_in_byte(bytes: Seq<u8>, index: int, low: nat, width: nat)
    requires
        low + width <= 8,
    ensures
        field_value(bytes, 8 * index + low, width) == (bytes[index] as nat / pow2(low)) % pow2(
            width,
        ),
{
    let byte = bytes[index] as nat;
    assert forall|i: int| 8 * index + low <= i < 8 * index + low + width implies bit_at(bytes, i)
        == bit_of(byte / pow2(low), (i - (8 * index + low)) as nat) by {
        lemma_bit_of_dropped(byte, low, (i - (8 * index + low)) as nat);
        assert(i / 8 == index && i % 8 == low + (i - (8 * index + low)));
    }
    lemma_field_value_of_bits(bytes, 8 * index + low, width, byte / pow2(low));
}

/// Reading the field back after a write gives the low `width` bits of what
/// was written.
pub proof fn lemma_read_after_write(
    before: Seq<u8>,
    after: Seq<u8>,
    offset: int,
    width: nat,
    v: nat,
)
    requires
        0 <= offset,
        offset + width <= 8 * before.len(),
        written(before, after, offset, width, v),
    ensures
        field_value(after, offset, width) == v % pow2(width),
{
    assert forall|i: int| offset <= i < offset + width implies bit_at(after, i) == bit_of(
        v,
        (i - offset) as nat,
    ) by {}
    lemma_field_value_of_bits(after, offset, width, v);
}

/// A write leaves every field that does not overlap the written one as it
/// was.
pub proof fn lemma_write_keeps_other_fields(
    before: Seq<u8>,
    after: Seq<u8>,
    offset: int,
    width: nat,
    v: nat,
    other_offset: int,
    other_width: nat,
)
    requires
        written(before, after, offset, width, v),
        0 <= other_offset,
        other_offset + other_width <= 8 * before.len(),
        other_offset + other_width <= offset || offset + width <= other_offset,
    ensures
        field_value(after, other_offset, other_width) == field_value(
            before,
            other_offset,
            other_width,
        ),
{
    assert forall|i: int| other_offset <= i < other_offset + other_width implies bit_at(after, i)
        == bit_at(before, i) by {}
    lemma_field_value_of_equal_bits(after, before, other_offset, other_width);
}

/// A byte is decided by its eight bits.
proof fn lemma_byte_of_bits(a: u8, b: u8)
    requires
        forall|index: nat| index < 8 ==> bit_of(a as nat, index) == bit_of(b as nat, index),
    ensures
        a == b,
{
    assert forall|index: u8| index < 8 implies ((a >> index) & 1u8 == 1u8) == ((b >> index) & 1u8
        == 1u8) by {
        lemma_byte_bit(a, index);
        lemma_byte_bit(b, index);
        assert(bit_of(a as nat, index as nat) == bit_of(b as nat, index as nat));
    }
    assert(((a >> 0u8) & 1u8 == 1u8) == ((b >> 0u8) & 1u8 == 1u8));
    assert(((a >> 1u8) & 1u8 == 1u8) == ((b >> 1u8) & 1u8 == 1u8));
    assert(((a >> 2u8) & 1u8 == 1u8) == ((b >> 2u8) & 1u8 == 1u8));
    assert(((a >> 3u8) & 1u8 == 1u8) == ((b >> 3u8) & 1u8 == 1u8));
    assert(((a >> 4u8) & 1u8 == 1u8) == ((b >> 4u8) & 1u8 == 1u8));
    assert(((a >> 5u8) & 1u8 == 1u8) == ((b >> 5u8) & 1u8 == 1u8));
    assert(((a >> 6u8) & 1u8 == 1u8) == ((b >> 6u8) & 1u8 == 1u8));
    assert(((a >> 7u8) & 1u8 == 1u8) == ((b >> 7u8) & 1u8 == 1u8));
    assert(a == b) by (bit_vector)
        requires
            ((a >> 0u8) & 1u8 == 1u8) == ((b >> 0u8) & 1u8 == 1u8),
            ((a >> 1u8) & 1u8 == 1u8) == ((b >> 1u8) & 1u8 == 1u8),
            ((a >> 2u8) & 1u8 == 1u8) == ((b >> 2u8) & 1u8 == 1u8),
            ((a >> 3u8) & 1u8 == 1u8) == ((b >> 3u8) & 1u8 == 1u8),
            ((a >> 4u8) & 1u8 == 1u8) == ((b >> 4u8) & 1u8 == 1u8),
            ((a >> 5u8) & 1u8 == 1u8) == ((b >> 5u8) & 1u8 == 1u8),
            ((a >> 6u8) & 1u8 == 1u8) == ((b >> 6u8) & 1u8 == 1u8),
            ((a >> 7u8) & 1u8 == 1u8) == ((b >> 7u8) & 1u8 == 1u8),
    ;
}

/// A record is decided by its bits: two records of one length that agree
/// on every bit are the same record.
pub proof fn lemma_record_of_bits(a: Seq<u8>, b: Seq<u8>)
    requires
        a.len() == b.len(),
        forall|p: int| 0 <= p < 8 * a.len() ==> bit_at(a, p) == bit_at(b, p),
    ensures
        a == b,
{
    assert forall|k: int| 0 <= k < a.len() implies a[k] == b[k] by {
        assert forall|index: nat| index < 8 implies bit_of(a[k] as nat, index) == bit_of(
            b[k] as nat,
            index,
        ) by {
            let p = 8 * k + index;
            assert(p / 8 == k && p % 8 == index);
            assert(bit_at(a, p) == bit_at(b, p));
        }
        lemma_byte_of_bits(a[k], b[k]);
    }
    assert(a =~= b);
}

/// A write has one outcome: the record before it, the field and the value
/// decide every byte of the record after it.
pub proof fn lemma_written_is_unique(
    before: Seq<u8>,
    after: Seq<u8>,
    other: Seq<u8>,
    offset: int,
    width: nat,
    v: nat,
)
    requires
        written(before, after, offset, width, v),
        written(before, other, offset, width, v),
    ensures
        after == other,
{
    assert forall|p: int| 0 <= p < 8 * after.len() implies bit_at(after, p) == bit_at(other, p) by {
        assert(bit_at(after, p) == (if offset <= p < offset + width {
            bit_of(v, (p - offset) as nat)
        } else {
            bit_at(before, p)
        }));
        assert(bit_at(other, p) == (if offset <= p < offset + width {
            bit_of(v, (p - offset) as nat)
        } else {
            bit_at(before, p)
        }));
    }
    lemma_record_of_bits(after, other);
}

/// Two writes to fields that do not overlap give the same record in
/// either order: `ab` is `start` after the write of `a` and then of `b`,
/// `ba` after the write of `b` and then of `a`.
pub proof fn lemma_disjoint_writes_commute(
    start: Seq<u8>,
    after_a: Seq<u8>,
    ab: Seq<u8>,
    after_b: Seq<u8>,
    ba: Seq<u8>,
    offset_a: int,
    width_a: nat,
    a: nat,
    offset_b: int,
    width_b: nat,
    b: nat,
)
    requires
        offset_a + width_a <= offset_b || offset_b + width_b <= offset_a,
        written(start, after_a, offset_a, width_a, a),
        written(after_a, ab, offset_b, width_b, b),
        written(start, after_b, offset_b, width_b, b),
        written(after_b, ba, offset_a, width_a, a),
    ensures
        ab == ba,
{
    assert forall|p: int| 0 <= p < 8 * ab.len() implies bit_at(ab, p) == bit_at(ba, p) by {
        let in_a = offset_a <= p < offset_a + width_a;
        let in_b = offset_b <= p < offset_b + width_b;
        assert(bit_at(after_a, p) == (if in_a {
            bit_of(a, (p - offset_a) as nat)
        } else {
            bit_at(start, p)
        }));
        assert(bit_at(ab, p) == (if in_b {
            bit_of(b, (p - offset_b) as nat)
        } else {
            bit_at(after_a, p)
        }));
        assert(bit_at(after_b, p) == (if in_b {
            bit_of(b, (p - offset_b) as nat)
        } else {
            bit_at(start, p)
        }));
        assert(bit_at(ba, p) == (if in_a {
            bit_of(a, (p - offset_a) as nat)
        } else {
            bit_at(after_b, p)
        }));
    }
    lemma_record_of_bits(ab, ba);
}

/// A value stored in a field of its type is the value loaded from it: the
/// field holds the value's pattern, and the pattern stands for the value.
pub proof fn lemma_stored_value_comes_back<T: Specifier>(
    before: Seq<u8>,
    after: Seq<u8>,
    offset: int,
    face: T::Face,
)
    requires
        0 <= offset,
        offset + T::BITS <= 8 * before.len(),
        written(before, after, offset, T::BITS as nat, T::encoded(face)),
    ensures
        field_value(after, offset, T::BITS as nat) == T::encoded(face),
        T::decoded(field_value(after, offset, T::BITS as nat)) == Some(face),
{
    lemma_read_after_write(before, after, offset, T::BITS as nat, T::encoded(face));
    T::lemma_encoded_fits(face);
    lemma_small_mod(T::encoded(face), pow2(T::BITS as nat));
    T::lemma_round_trip(face);
}

/// Bit `index` of a byte, by shift and mask.
proof fn lemma_byte_bit(byte: u8, index: u8)
    requires
        index < 8,
    ensures
        bit_of(byte as nat, index as nat) == ((byte >> index) & 1u8 == 1u8),
{
    lemma_u8_shr_is_div(byte, index);
    let moved: u8 = byte >> index;
    assert(moved & 1u8 == moved % 2u8) by (bit_vector);
}

/// Storing a chunk in a byte changes the chunk's span and nothing else.
proof fn lemma_merge_byte(byte: u8, chunk: u8, low: u32, amount: u32, index: u8)
    requires
        1 <= amount,
        low + amount <= 8,
        chunk <= 0xFFu8 >> ((8 - amount) as u8),
        index < 8,
    ensures
        ({
            let span: u8 = (0xFFu8 >> ((8 - amount) as u8)) << (low as u8);
            let merged: u8 = (byte & !span) | (chunk << (low as u8));
            bit_of(merged as nat, index as nat) == (if low <= index < low + amount {
                bit_of(chunk as nat, (index - low) as nat)
            } else {
                bit_of(byte as nat, index as nat)
            })
        }),
{
    let span: u8 = (0xFFu8 >> ((8 - amount) as u8)) << (low as u8);
    let merged: u8 = (byte & !span) | (chunk << (low as u8));
    let from: u8 = if low <= index {
        (index - low) as u8
    } else {
        0u8
    };
    assert(((merged >> index) & 1u8 == 1u8) == (if low <= index < low + amount {
        (chunk >> from) & 1u8 == 1u8
    } else {
        (byte >> index) & 1u8 == 1u8
    })) by (bit_vector)
        requires
            1 <= amount,
            low + amount <= 8,
            chunk <= 0xFFu8 >> ((8 - amount) as u8),
            index < 8,
            span == (0xFFu8 >> ((8 - amount) as u8)) << (low as u8),
            merged == (byte & !span) | (chunk << (low as u8)),
            from == (if low <= index {
                (index - low) as u8
            } else {
                0u8
            }),
    ;
    lemma_byte_bit(merged, index);
    lemma_byte_bit(byte, index);
    lemma_byte_bit(chunk, from);
}

/// Reads the field of `width` bits at bit `offset` of a record into a
/// register. The field's lowest bit becomes the register's lowest bit, and
/// the register's bits from `width` up are clear.
///
/// The field is taken a chunk at a time, a chunk being the part of the
/// field that lies in one byte, from the field's top down: each chunk is
/// pushed in below the ones taken before it.
pub fn read_bits<B: PushBits>(bytes: &[u8], offset: usize, width: usize) -> (bits: Bits<B>)
    requires
        width <= B::bit_width(),
        offset + width <= usize::MAX,
        offset + width <= 8 * bytes@.len(),
    ensures
        bits@ == field_value(bytes@, offset as int, width as nat),
        bits@ < pow2(width as nat),
{
    let mut acc = B::zero();
    let mut remaining: usize = width;
    while remaining > 0
        invariant
            remaining <= width,
            width <= B::bit_width(),
            offset + width <= usize::MAX,
            offset + width <= 8 * bytes@.len(),
            acc.value() == field_value(
                bytes@,
                offset + remaining,
                (width - remaining) as nat,
            ),
        decreases remaining,
    {
        // the chunk is the top of what is left, down to the start of its byte
        let end: usize = offset + remaining;
        let index: usize = (end - 1) / 8;
        let high: usize = end - 8 * index;
        let amount: usize = if remaining < high {
            remaining
        } else {
            high
        };
        let low: usize = high - amount;
        let byte: u8 = bytes[index];
        let chunk: u8 = byte >> (low as u32);
        let ghost before = acc.value();
        let ghost taken = (width - remaining) as nat;
        acc.push_bits(amount as u32, chunk);
        proof {
            let a = amount as nat;
            let part = field_value(bytes@, 8 * index + low, a);
            assert(chunk == byte >> (low as u8)) by (bit_vector)
                requires
                    chunk == byte >> (low as u32),
                    low < 8,
            ;
            lemma_u8_shr_is_div(byte, low as u8);
            lemma_field_value_in_byte(bytes@, index as int, low as nat, a);
            assert(part == (chunk as nat) % pow2(a));
            lemma_field_value_split(bytes@, 8 * index + low, a, taken);
            lemma_field_value_bound(bytes@, 8 * index + low, a + taken);
            assert(pow2(a + taken) <= pow2(B::bit_width())) by {
                if a + taken < B::bit_width() {
                    lemma_pow2_strictly_increases(a + taken, B::bit_width());
                }
            }
            assert(before * pow2(a) == pow2(a) * before) by (nonlinear_arith);
            lemma_small_mod(before * pow2(a) + part, pow2(B::bit_width()));
        }
        remaining = remaining - amount;
    }
    proof {
        lemma_field_value_bound(bytes@, offset as int, width as nat);
    }
    Bits(acc)
}

/// Stores the low `width` bits of a register in the field at bit `offset`
/// of a record. No bit of the record outside the field changes, also not
/// in a byte that the field shares with a neighbour.
///
/// The field is filled a chunk at a time from its bottom up: each chunk is
/// popped off the register and put in its byte in place of the bits that
/// the field has there, the byte's other bits staying as they are.
pub fn write_bits<B: PopBits>(bytes: &mut [u8], offset: usize, width: usize, value: Bits<B>)
    requires
        offset + width <= usize::MAX,
        offset + width <= 8 * old(bytes)@.len(),
    ensures
        written(old(bytes)@, final(bytes)@, offset as int, width as nat, value@),
        field_value(final(bytes)@, offset as int, width as nat) == value@ % pow2(width as nat),
{
    let ghost v = value@;
    let mut rest = value.into_raw();
    let mut done: usize = 0;
    proof {
        lemma2_to64();
    }
    while done < width
        invariant
            done <= width,
            offset + width <= usize::MAX,
            offset + width <= 8 * old(bytes)@.len(),
            rest.value() == v / pow2(done as nat),
            written(old(bytes)@, bytes@, offset as int, done as nat, v),
        decreases width - done,
    {
        // the chunk runs from the cursor to the end of its byte or of the field
        let pos: usize = offset + done;
        let index: usize = pos / 8;
        let low: usize = pos % 8;
        let room: usize = 8 - low;
        let left: usize = width - done;
        let amount: usize = if left < room {
            left
        } else {
            room
        };
        let ghost popped = rest.value();
        let ghost current = bytes@;
        let chunk: u8 = rest.pop_bits(amount as u32);
        let byte: u8 = bytes[index];
        let span: u8 = low_mask(amount as u32) << (low as u32);
        let merged: u8 = (byte & !span) | (chunk << (low as u32));
        bytes[index] = merged;
        proof {
            let a = amount as nat;
            lemma_pow2_pos(a);
            lemma_mod_bound(popped as int, pow2(a) as int);
            lemma_drop_bits_twice(v, done as nat, a);
            assert(span == (0xFFu8 >> ((8 - amount) as u8)) << (low as u8) && merged == (byte
                & !span) | (chunk << (low as u8))) by (bit_vector)
                requires
                    low < 8,
                    span == (0xFFu8 >> ((8 - amount) as u8)) << (low as u32),
                    merged == (byte & !span) | (chunk << (low as u32)),
            ;
            assert forall|p: int| 0 <= p < 8 * old(bytes)@.len() implies #[trigger] bit_at(
                bytes@,
                p,
            ) == (if offset <= p < offset + (done + amount) {
                bit_of(v, (p - offset) as nat)
            } else {
                bit_at(old(bytes)@, p)
            }) by {
                assert(bit_at(current, p) == (if offset <= p < offset + done {
                    bit_of(v, (p - offset) as nat)
                } else {
                    bit_at(old(bytes)@, p)
                }));
                if p / 8 == index {
                    let bit = (p % 8) as u8;
                    lemma_merge_byte(byte, chunk, low as u32, amount as u32, bit);
                    if low <= bit < low + amount {
                        let from = (bit - low) as nat;
                        lemma_bit_of_low_bits(popped, a, from);
                        lemma_bit_of_dropped(v, done as nat, from);
                    }
                }
            }
        }
        done = done + amount;
    }
    proof {
        lemma_read_after_write(old(bytes)@, bytes@, offset as int, width as nat, v);
    }
}

/// Reads the field of type `T` at bit `offset` of a record.
pub fn read_specifier<T: Specifier>(bytes: &[u8], offset: usize) -> (bits: Bits<T::Base>)
    requires
        offset + T::BITS <= usize::MAX,
        offset + T::BITS <= 8 * bytes@.len(),
    ensures
        bits@ == field_value(bytes@, offset as int, T::BITS as nat),
        bits@ < pow2(T::BITS as nat),
{
    proof {
        T::lemma_widths();
    }
    read_bits::<T::Base>(bytes, offset, T::BITS)
}

/// Stores a pattern in the field of type `T` at bit `offset` of a record.
pub fn write_specifier<T: Specifier>(bytes: &mut [u8], offset: usize, value: Bits<T::Base>)
    requires
        offset + T::BITS <= usize::MAX,
        offset + T::BITS <= 8 * old(bytes)@.len(),
    ensures
        written(old(bytes)@, final(bytes)@, offset as int, T::BITS as nat, value@),
        field_value(final(bytes)@, offset as int, T::BITS as nat) == value@ % pow2(
            T::BITS as nat,
        ),
{
    write_bits::<T::Base>(bytes, offset, T::BITS, value)
}

} // verus!

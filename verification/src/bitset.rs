//! An append-only buffer of bits.
//!
//! Values are written with an exact bit width, most significant bit first,
//! and the buffer is exported as bytes with the last byte padded with zeros.

use vstd::arithmetic::div_mod::*;
use vstd::arithmetic::power2::*;
use vstd::bits::*;
use vstd::prelude::*;

verus! {

/// Bit `k` of `value`, counted from the least significant bit.
pub open spec fn bit_of(value: nat, k: nat) -> bool {
    (value / pow2(k)) % 2 == 1
}

/// The low `width` bits of `value`, most significant bit first.
pub open spec fn field_bits(value: nat, width: nat) -> Seq<bool> {
    Seq::new(width, |i: int| bit_of(value, (width - 1 - i) as nat))
}

/// The number that a run of bits spells, most significant bit first.
pub open spec fn bits_value(bits: Seq<bool>) -> nat
    decreases bits.len(),
{
    if bits.len() == 0 {
        0
    } else {
        2 * bits_value(bits.drop_last()) + if bits.last() {
            1nat
        } else {
            0nat
        }
    }
}

/// Bit `i` of a buffer as a number; positions past the end count as zero.
pub open spec fn bit_at(bits: Seq<bool>, i: int) -> nat {
    if 0 <= i < bits.len() && bits[i] {
        1
    } else {
        0
    }
}

/// Byte `j` of a buffer: its bits `8 * j` to `8 * j + 7`, the first one
/// weighing most.
pub open spec fn byte_at(bits: Seq<bool>, j: int) -> nat {
    128 * bit_at(bits, 8 * j) + 64 * bit_at(bits, 8 * j + 1) + 32 * bit_at(bits, 8 * j + 2) + 16
        * bit_at(bits, 8 * j + 3) + 8 * bit_at(bits, 8 * j + 4) + 4 * bit_at(bits, 8 * j + 5) + 2
        * bit_at(bits, 8 * j + 6) + bit_at(bits, 8 * j + 7)
}

/// Number of bytes that hold `len` bits.
pub open spec fn byte_count(len: nat) -> nat {
    (len + 7) / 8
}

/// A buffer packed into bytes, eight bits to a byte, with zeros filling the
/// last byte.
pub open spec fn packed(bits: Seq<bool>) -> Seq<u8> {
    Seq::new(byte_count(bits.len()), |j: int| byte_at(bits, j) as u8)
}

/// Packing fills whole bytes: as few as hold the bits.
pub proof fn lemma_packed_length(bits: Seq<bool>)
    ensures
        bits.len() <= 8 * packed(bits).len() < bits.len() + 8,
        bits.len() % 8 == 0 ==> 8 * packed(bits).len() == bits.len(),
{
    assert(packed(bits).len() == (bits.len() + 7) / 8);
}

/// A field of width `w` holds `value` modulo `2^w`: reading the field back
/// gives the value whenever the value fits.
pub proof fn lemma_field_round_trip(value: nat, width: nat)
    ensures
        bits_value(field_bits(value, width)) == value % pow2(width),
{
    lemma_field_prefix_value(value, width, width);
    assert(field_bits(value, width).take(width as int) == field_bits(value, width));
    assert(value / pow2(0) == value / 1) by {
        lemma2_to64();
    }
}

/// The first `n` bits of a field spell the value shifted down to them.
proof fn lemma_field_prefix_value(value: nat, width: nat, n: nat)
    requires
        n <= width,
    ensures
        bits_value(field_bits(value, width).take(n as int)) == (value / pow2((width - n) as nat))
            % pow2(n),
    decreases n,
{
    let field = field_bits(value, width);
    let head = field.take(n as int);
    lemma2_to64();
    if n > 0 {
        let m = (n - 1) as nat;
        lemma_field_prefix_value(value, width, m);
        assert(head.drop_last() =~= field.take(m as int));
        // q is the value shifted down to the n bits; its half is the value
        // shifted down to the first n - 1 of them.
        let low = pow2((width - n) as nat);
        let q = value / low;
        lemma_pow2_pos((width - n) as nat);
        lemma_pow2_pos(m);
        lemma_pow2_unfold((width - m) as nat);
        lemma_pow2_unfold(n);
        assert(value / pow2((width - m) as nat) == q / 2) by {
            lemma_div_denominator(value as int, low as int, 2);
        }
        // q % 2^n == 2 * ((q / 2) % 2^(n-1)) + q % 2
        assert(q % pow2(n) == 2 * ((q / 2) % pow2(m)) + q % 2) by {
            lemma_mod_breakdown(q as int, 2, pow2(m) as int);
        }
    }
}

/// An append-only sequence of bits.
pub struct Bitset {
    bits: Vec<bool>,
}

impl View for Bitset {
    type V = Seq<bool>;

    closed spec fn view(&self) -> Seq<bool> {
        self.bits@
    }
}

impl Bitset {
    /// An empty buffer.
    pub fn new() -> (buffer: Bitset)
        ensures
            buffer@ == Seq::<bool>::empty(),
    {
        Bitset { bits: Vec::new() }
    }

    /// Number of bits written so far.
    pub fn length(&self) -> (len: usize)
        ensures
            len == self@.len(),
    {
        self.bits.len()
    }

    /// Writes the low `bit_width` bits of `value` at the end of the buffer,
    /// most significant bit first. Higher bits of `value` are dropped.
    pub fn append(&mut self, value: u128, bit_width: u8)
        ensures
            final(self)@ == old(self)@ + field_bits(value as nat, bit_width as nat),
    {
        let mut k: u8 = bit_width;
        while k > 0
            invariant
                k <= bit_width,
                self@ == old(self)@ + field_bits(value as nat, bit_width as nat).take(
                    bit_width - k,
                ),
            decreases k,
        {
            k = k - 1;
            let bit = if k < 128 {
                proof {
                    lemma_u128_shr_is_div(value, k as u128);
                }
                (value >> (k as u128)) % 2 == 1
            } else {
                proof {
                    lemma_high_bit_is_zero(value, k as nat);
                }
                false
            };
            self.bits.push(bit);
        }
    }

    /// Bit `k` of byte `j`, as 0 or 1; 0 past the end of the buffer.
    fn bit_in_byte(&self, j: usize, k: usize) -> (bit: u8)
        requires
            8 * j < self@.len(),
            k < 8,
        ensures
            bit == bit_at(self@, 8 * j + k),
    {
        let len: usize = self.bits.len();
        let base: usize = 8 * j;
        if k < len - base && self.bits[base + k] {
            1
        } else {
            0
        }
    }

    /// The buffer as bytes: eight bits to a byte, most significant bit first,
    /// the last byte padded with zeros.
    pub fn export(&self) -> (bytes: Vec<u8>)
        ensures
            bytes@ == packed(self@),
            bytes@.len() == byte_count(self@.len()),
    {
        let len: usize = self.bits.len();
        let count: usize = if len % 8 == 0 {
            len / 8
        } else {
            len / 8 + 1
        };
        let mut bytes: Vec<u8> = Vec::new();
        let mut j: usize = 0;
        while j < count
            invariant
                len == self@.len(),
                count == byte_count(self@.len()),
                j <= count,
                bytes@.len() == j,
                forall|i: int| 0 <= i < j ==> bytes@[i] == byte_at(self@, i) as u8,
            decreases count - j,
        {
            let byte: u8 = 128 * self.bit_in_byte(j, 0) + 64 * self.bit_in_byte(j, 1) + 32
                * self.bit_in_byte(j, 2) + 16 * self.bit_in_byte(j, 3) + 8 * self.bit_in_byte(j, 4)
                + 4 * self.bit_in_byte(j, 5) + 2 * self.bit_in_byte(j, 6) + self.bit_in_byte(j, 7);
            bytes.push(byte);
            j = j + 1;
        }
        bytes
    }
}

/// A 128-bit value has no bits at position 128 or above.
proof fn lemma_high_bit_is_zero(value: u128, k: nat)
    requires
        k >= 128,
    ensures
        !bit_of(value as nat, k),
{
    lemma2_to64();
    lemma_pow2_adds(64, 64);
    assert(pow2(128) == 0x1_0000_0000_0000_0000_0000_0000_0000_0000);
    if k > 128 {
        lemma_pow2_strictly_increases(128, k);
    }
    lemma_basic_div(value as int, pow2(k) as int);
}

} // verus!

//! Most-significant-bit-first packing of header syntax elements.

use crate::num;
use vstd::arithmetic::div_mod::*;
use vstd::arithmetic::power2::*;
use vstd::prelude::*;

verus! {

/// Bit `k` of `v`, counted from the least significant one.
pub open spec fn bit_at(v: nat, k: nat) -> bool {
    (v / pow2(k)) % 2 == 1
}

/// The low `n` bits of `v`, most significant first.
pub open spec fn value_bits(v: nat, n: nat) -> Seq<bool> {
    Seq::new(n, |i: int| bit_at(v, (n - 1 - i) as nat))
}

/// The number that a bit string stands for, most significant bit first.
pub open spec fn bits_value(s: Seq<bool>) -> nat
    decreases s.len(),
{
    if s.len() == 0 {
        0
    } else {
        2 * bits_value(s.drop_last()) + if s.last() {
            1nat
        } else {
            0nat
        }
    }
}

/// The bits of a byte string, most significant bit of each byte first.
pub open spec fn bytes_bits(b: Seq<u8>) -> Seq<bool> {
    Seq::new(8 * b.len(), |i: int| bit_at(b[i / 8] as nat, (7 - i % 8) as nat))
}

/// `n` zero bits.
pub open spec fn zero_bits(n: nat) -> Seq<bool> {
    Seq::new(n, |i: int| false)
}

/// The unsigned variable-length code of `v`: as many zeros as `v + 1` has bits
/// beyond the first, then `v + 1` itself.
pub open spec fn uvlc_bits(v: nat) -> Seq<bool> {
    zero_bits((num::bitlen(v + 1) - 1) as nat) + value_bits(v + 1, num::bitlen(v + 1))
}

/// How many values of an alphabet of `max` symbols get the shorter code.
pub open spec fn uniform_threshold(max: nat) -> int {
    pow2(num::bitlen(max)) - max
}

/// The non-uniform code of `v` in an alphabet of `max` symbols.
pub open spec fn uniform_bits(v: nat, max: nat) -> Seq<bool> {
    let n = num::bitlen(max);
    let t = uniform_threshold(max);
    if v < t {
        value_bits(v, (n - 1) as nat)
    } else {
        value_bits(((v + t) / 2) as nat, (n - 1) as nat).push((v + t) % 2 == 1)
    }
}

/// The bits that complete `n` bits to a whole number of bytes.
pub open spec fn padding(n: nat) -> nat {
    ((8 - n % 8) % 8) as nat
}

pub proof fn lemma_value_bits_push(v: nat, b: nat, n: nat)
    requires
        b < 2,
    ensures
        value_bits(2 * v + b, n + 1) == value_bits(v, n).push(b == 1),
{
    let s = value_bits(2 * v + b, n + 1);
    let t = value_bits(v, n).push(b == 1);
    assert forall|i: int| 0 <= i < n + 1 implies s[i] == t[i] by {
        lemma2_to64();
        if i < n {
            let k = (n - 1 - i) as nat;
            lemma_pow2_unfold(k + 1);
            lemma_pow2_pos(k);
            lemma_div_denominator((2 * v + b) as int, 2, pow2(k) as int);
            assert((2 * v + b) / 2 == v);
            assert((2 * v + b) / pow2(k + 1) == v / pow2(k));
            assert(s[i] == bit_at(2 * v + b, k + 1));
            assert(t[i] == bit_at(v, k));
        } else {
            assert(pow2(0) == 1);
            assert(s[i] == bit_at(2 * v + b, 0));
            assert((2 * v + b) / 1 == 2 * v + b);
        }
    }
    assert(s =~= t);
}

/// Reading `n` bits back as a number gives the low `n` bits that were written.
pub proof fn lemma_value_bits_round_trip(v: nat, n: nat)
    requires
        v < pow2(n),
    ensures
        bits_value(value_bits(v, n)) == v,
    decreases n,
{
    lemma2_to64();
    if n > 0 {
        let h = v / 2;
        let b = v % 2;
        lemma_pow2_unfold(n);
        lemma_value_bits_round_trip(h, (n - 1) as nat);
        lemma_value_bits_push(h, b, (n - 1) as nat);
        let s = value_bits(h, (n - 1) as nat).push(b == 1);
        assert(s.drop_last() =~= value_bits(h, (n - 1) as nat));
    }
}

proof fn lemma_bytes_bits_push(b: Seq<u8>, x: u8)
    ensures
        bytes_bits(b.push(x)) == bytes_bits(b) + value_bits(x as nat, 8),
{
    let s = bytes_bits(b.push(x));
    let t = bytes_bits(b) + value_bits(x as nat, 8);
    assert forall|i: int| 0 <= i < s.len() implies s[i] == t[i] by {
        if i >= 8 * b.len() {
            assert(i / 8 == b.len());
        }
    }
    assert(s =~= t);
}

/// The bytes that a bit string packs into; bits beyond the last whole byte are
/// left out.
pub open spec fn bits_bytes(s: Seq<bool>) -> Seq<u8> {
    Seq::new(s.len() / 8, |i: int| bits_value(s.subrange(8 * i, 8 * i + 8)) as u8)
}

/// Packing undoes unpacking: a byte string is fixed by its bits.
pub proof fn law_bytes_round_trip(b: Seq<u8>)
    ensures
        bits_bytes(bytes_bits(b)) == b,
{
    let s = bytes_bits(b);
    assert forall|i: int| 0 <= i < b.len() implies #[trigger] bits_bytes(s)[i] == b[i] by {
        lemma2_to64();
        assert(s.subrange(8 * i, 8 * i + 8) =~= value_bits(b[i] as nat, 8));
        lemma_value_bits_round_trip(b[i] as nat, 8);
    }
    assert(bits_bytes(s) =~= b);
}

/// Zeros at the front of a bit string.
pub open spec fn leading_zeros(s: Seq<bool>) -> nat
    decreases s.len(),
{
    if s.len() == 0 || s[0] {
        0
    } else {
        1 + leading_zeros(s.drop_first())
    }
}

/// What a reader takes for an unsigned variable-length code at the front of
/// `s`: the value and the number of bits it spans.
pub open spec fn read_uvlc(s: Seq<bool>) -> (nat, nat) {
    let z = leading_zeros(s);
    ((bits_value(s.subrange(z as int, 2 * z as int + 1)) - 1) as nat, 2 * z + 1)
}

/// What a reader takes for one of `max` symbols at the front of `s`: the value
/// and the number of bits it spans.
pub open spec fn read_uniform(s: Seq<bool>, max: nat) -> (int, nat) {
    let n = num::bitlen(max);
    let t = uniform_threshold(max);
    let v = bits_value(s.take(n - 1));
    if v < t {
        (v as int, (n - 1) as nat)
    } else {
        (2 * v + (if s[n - 1] {
            1int
        } else {
            0int
        }) - t, n)
    }
}

proof fn lemma_leading_zeros_run(z: nat, rest: Seq<bool>)
    requires
        rest.len() > 0,
        rest[0],
    ensures
        leading_zeros(zero_bits(z) + rest) == z,
    decreases z,
{
    let s = zero_bits(z) + rest;
    if z > 0 {
        lemma_leading_zeros_run((z - 1) as nat, rest);
        assert(s.drop_first() =~= zero_bits((z - 1) as nat) + rest);
    } else {
        assert(s =~= rest);
    }
}

/// A variable-length code reads back as the value written, whatever follows it.
pub proof fn law_uvlc_round_trip(v: nat, rest: Seq<bool>)
    ensures
        read_uvlc(uvlc_bits(v) + rest) == (v, uvlc_bits(v).len()),
{
    let w = v + 1;
    let n = num::bitlen(w);
    num::lemma_bitlen_bounds(w);
    let body = value_bits(w, n);
    let z = (n - 1) as nat;
    lemma_pow2_pos(z);
    assert(body[0]) by {
        lemma_pow2_unfold(n);
        assert(w / pow2(z) == 1) by (nonlinear_arith)
            requires
                pow2(z) <= w < 2 * pow2(z),
                pow2(z) > 0,
        ;
    }
    let s = uvlc_bits(v) + rest;
    assert(s =~= zero_bits(z) + (body + rest));
    lemma_leading_zeros_run(z, body + rest);
    assert(s.subrange(z as int, 2 * z as int + 1) =~= body);
    lemma_value_bits_round_trip(w, n);
}

/// A symbol of an alphabet of `max` reads back as written, whatever follows it.
pub proof fn law_uniform_round_trip(v: nat, max: nat, rest: Seq<bool>)
    requires
        v < max,
    ensures
        read_uniform(uniform_bits(v, max) + rest, max) == (v as int, uniform_bits(v, max).len()),
{
    let n = num::bitlen(max);
    let t = uniform_threshold(max);
    num::lemma_bitlen_bounds(max);
    lemma_pow2_unfold(n);
    let k = (n - 1) as nat;
    let s = uniform_bits(v, max) + rest;
    if v < t {
        assert(s.take(n - 1) =~= value_bits(v, k));
        lemma_value_bits_round_trip(v, k);
    } else {
        let h = ((v + t) / 2) as nat;
        assert(s.take(n - 1) =~= value_bits(h, k));
        lemma_value_bits_round_trip(h, k);
        assert(s[n - 1] == ((v + t) % 2 == 1));
    }
}

/// MSB-first bit packer for the uncompressed header sections. Its view is the
/// string of all bits written so far.
pub struct ByteWriter {
    bytes: Vec<u8>,
    accumulator: u64,
    pending_bits: u32,
}

impl View for ByteWriter {
    type V = Seq<bool>;

    closed spec fn view(&self) -> Seq<bool> {
        bytes_bits(self.bytes@) + value_bits(self.accumulator as nat, self.pending_bits as nat)
    }
}

impl ByteWriter {
    /// Fewer than eight bits wait for their byte, and nothing else is held.
    pub closed spec fn wf(&self) -> bool {
        self.pending_bits < 8 && self.accumulator < pow2(self.pending_bits as nat)
    }

    /// An empty writer.
    pub fn new() -> (w: ByteWriter)
        ensures
            w.wf(),
            w@ == Seq::<bool>::empty(),
    {
        proof {
            lemma2_to64();
        }
        let w = ByteWriter { bytes: Vec::new(), accumulator: 0, pending_bits: 0 };
        assert(w@ =~= Seq::<bool>::empty());
        w
    }

    /// Append a single bit; only bit 0 of `bit` is used.
    pub fn write_bit(&mut self, bit: u32)
        requires
            old(self).wf(),
        ensures
            final(self).wf(),
            final(self)@ == old(self)@.push(bit % 2 == 1),
    {
        let b: u64 = (bit % 2) as u64;
        let ghost acc = self.accumulator as nat;
        let ghost n = self.pending_bits as nat;
        let ghost bytes = self.bytes@;
        proof {
            lemma2_to64();
            lemma_pow2_unfold((n + 1) as nat);
            if n + 1 < 8 {
                lemma_pow2_strictly_increases((n + 1) as nat, 8);
            }
            lemma_value_bits_push(acc, b as nat, n);
        }
        self.accumulator = self.accumulator * 2 + b;
        self.pending_bits = self.pending_bits + 1;
        if self.pending_bits == 8 {
            let byte: u8 = self.accumulator as u8;
            proof {
                lemma_bytes_bits_push(bytes, byte);
            }
            self.bytes.push(byte);
            self.accumulator = 0;
            self.pending_bits = 0;
        }
        assert(self@ =~= old(self)@.push(bit % 2 == 1));
    }

    /// Append the low `count` bits of `value`, most significant bit first.
    pub fn write_bits(&mut self, value: u32, count: u32)
        requires
            old(self).wf(),
            count <= 32,
        ensures
            final(self).wf(),
            final(self)@ == old(self)@ + value_bits(value as nat, count as nat),
    {
        let mut left: u32 = count;
        while left > 0
            invariant
                left <= count <= 32,
                self.wf(),
                self@ == old(self)@ + value_bits(value as nat, count as nat).take(count - left),
            decreases left,
        {
            left = left - 1;
            let bit: u32 = low_bit(value, left);
            self.write_bit(bit);
            proof {
                let all = value_bits(value as nat, count as nat);
                assert(all.take(count - left) =~= all.take(count - left - 1).push(
                    all[count - left - 1],
                ));
            }
        }
        assert(value_bits(value as nat, count as nat).take(count as int) =~= value_bits(
            value as nat,
            count as nat,
        ));
    }

    /// Append an unsigned variable-length code (`uvlc`).
    pub fn write_uvlc(&mut self, value: u32)
        requires
            old(self).wf(),
            value < u32::MAX,
        ensures
            final(self).wf(),
            final(self)@ == old(self)@ + uvlc_bits(value as nat),
    {
        let shifted: u32 = value + 1;
        let bits: u32 = num::bit_length(shifted);
        proof {
            num::lemma_bitlen_bounds(shifted as nat);
        }
        self.write_zeros(bits - 1);
        self.write_bits(shifted, bits);
        assert(self@ =~= old(self)@ + uvlc_bits(value as nat));
    }

    /// Append `count` zero bits.
    pub fn write_zeros(&mut self, count: u32)
        requires
            old(self).wf(),
        ensures
            final(self).wf(),
            final(self)@ == old(self)@ + zero_bits(count as nat),
    {
        let mut i: u32 = 0;
        while i < count
            invariant
                i <= count,
                self.wf(),
                self@ =~= old(self)@ + zero_bits(i as nat),
            decreases count - i,
        {
            self.write_bit(0);
            i = i + 1;
        }
    }

    /// Append `value` as one of `max` symbols of nearly equal code length.
    pub fn write_uniform(&mut self, value: u32, max: u32)
        requires
            old(self).wf(),
            1 <= max < 0x8000_0000,
            value + uniform_threshold(max as nat) <= u32::MAX,
        ensures
            final(self).wf(),
            final(self)@ == old(self)@ + uniform_bits(value as nat, max as nat),
    {
        let bits: u32 = num::bit_length(max);
        proof {
            lemma2_to64();
            lemma2_to64_rest();
            num::lemma_bitlen_bounds(max as nat);
            num::lemma_bitlen_upper(max as nat, 31);
            if bits < 31 {
                lemma_pow2_strictly_increases(bits as nat, 31);
            }
        }
        let threshold: u32 = num::pow2_u32(bits) - max;
        if value < threshold {
            self.write_bits(value, bits - 1);
        } else {
            let widened: u32 = value + threshold;
            self.write_bits(widened / 2, bits - 1);
            self.write_bit(widened % 2);
            assert(self@ =~= old(self)@ + uniform_bits(value as nat, max as nat));
        }
    }

    /// Write a trailing `1` bit and pad with zeros to the next byte boundary.
    pub fn align_with_one(&mut self)
        requires
            old(self).wf(),
        ensures
            final(self).wf(),
            final(self)@ == old(self)@.push(true) + zero_bits(padding(old(self)@.len() + 1)),
    {
        self.write_bit(1);
        self.align_with_zero();
    }

    /// Pad with zeros to the next byte boundary.
    pub fn align_with_zero(&mut self)
        requires
            old(self).wf(),
        ensures
            final(self).wf(),
            final(self)@ == old(self)@ + zero_bits(padding(old(self)@.len())),
    {
        assert(self@.len() == 8 * self.bytes@.len() + self.pending_bits);
        if self.pending_bits > 0 {
            let count: u32 = 8 - self.pending_bits;
            self.write_zeros(count);
        } else {
            assert(self@ =~= self@ + zero_bits(0));
        }
    }

    /// The complete bytes; bits of an unfinished last byte are dropped.
    pub fn into_bytes(self) -> (bytes: Vec<u8>)
        requires
            self.wf(),
        ensures
            bytes@.len() == self@.len() / 8,
            bytes_bits(bytes@) == self@.take(8 * (self@.len() / 8) as int),
    {
        assert(self@.len() == 8 * self.bytes@.len() + self.pending_bits);
        assert(self@.take(8 * (self@.len() / 8) as int) =~= bytes_bits(self.bytes@));
        self.bytes
    }
}

/// Bit `k` of `value` as 0 or 1.
fn low_bit(value: u32, k: u32) -> (bit: u32)
    requires
        k < 32,
    ensures
        bit < 2,
        (bit == 1) == bit_at(value as nat, k as nat),
{
    proof {
        lemma2_to64();
        lemma2_to64_rest();
        lemma_pow2_strictly_increases(k as nat, 32);
        lemma_pow2_pos(k as nat);
    }
    let p: u64 = num::pow2_u64(k);
    ((value as u64 / p) % 2) as u32
}

/// Values are written highest bit first: the first bit is set where the value is at
/// least half of what the field holds, and the last one where it is odd.
pub proof fn law_values_are_written_highest_bit_first(v: nat, n: nat)
    requires
        n >= 1,
        v < pow2(n),
    ensures
        value_bits(v, n).len() == n,
        value_bits(v, n)[0] <==> v >= pow2((n - 1) as nat),
        value_bits(v, n)[n - 1] <==> v % 2 == 1,
{
    lemma2_to64();
    lemma_pow2_pos((n - 1) as nat);
    lemma_pow2_unfold(n);
    let p = pow2((n - 1) as nat) as int;
    let x = v as int;
    assert(x < p ==> x / p == 0) by (nonlinear_arith)
        requires
            0 <= x < 2 * p,
            p >= 1,
    ;
    assert(x >= p ==> x / p == 1) by (nonlinear_arith)
        requires
            0 <= x < 2 * p,
            p >= 1,
    ;
    vstd::arithmetic::div_mod::lemma_div_basics(x);
}

/// Bytes take the bits of a stream eight at a time, the first of them highest.
pub proof fn law_bytes_take_eight_bits(b: Seq<u8>, i: int)
    requires
        0 <= i < b.len(),
    ensures
        bytes_bits(b).len() == 8 * b.len(),
        bytes_bits(b)[8 * i] <==> b[i] >= 128,
        bytes_bits(b)[8 * i + 7] <==> b[i] % 2 == 1,
{
    lemma2_to64();
    let v = b[i] as nat;
    assert((8 * i) / 8 == i);
    assert((8 * i) % 8 == 0);
    assert(pow2(7) == 128);
    assert(bytes_bits(b)[8 * i] == bit_at(v, 7));
    assert((8 * i + 7) / 8 == i);
    assert((8 * i + 7) % 8 == 7);
    vstd::arithmetic::div_mod::lemma_div_basics(v as int);
}

} // verus!

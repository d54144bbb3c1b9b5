//! Multi-symbol arithmetic coder, encoder side.
//!
//! The coder keeps an interval of code numbers. Every symbol picks a part of
//! it, and the interval is scaled up whenever it gets narrow. The bytes that
//! come out in the end name a number inside the last interval, so they lie in
//! every interval before it and tell the symbols apart.

use crate::num;
use vstd::arithmetic::div_mod::*;
use vstd::arithmetic::mul::*;
use vstd::arithmetic::power2::*;
use vstd::prelude::*;

verus! {

/// What each symbol boundary gives up so that no symbol gets an empty interval:
/// row `n - 1` is for an alphabet of `n` coded boundaries.
pub const MIN_PROB: [[u16; 8]; 8] = [
    [63, 65535, 65535, 65535, 65535, 65535, 65535, 65535],
    [47, 87, 65535, 65535, 65535, 65535, 65535, 65535],
    [31, 63, 95, 65535, 65535, 65535, 65535, 65535],
    [31, 55, 79, 103, 65535, 65535, 65535, 65535],
    [23, 47, 63, 87, 111, 65535, 65535, 65535],
    [23, 39, 55, 79, 95, 111, 65535, 65535],
    [15, 31, 47, 63, 79, 95, 111, 65535],
    [15, 31, 47, 63, 79, 95, 111, 65535],
];

/// A coder interval: the code numbers from `low` up to but without
/// `low + range`, at a precision of `bits` bits beyond the first fifteen.
pub struct Interval {
    pub low: nat,
    pub range: nat,
    pub bits: nat,
}

impl Interval {
    /// The whole code space.
    pub open spec fn full() -> Interval {
        Interval { low: 0, range: 0x8000, bits: 0 }
    }

    /// The part that starts `offset` into the interval and is `range` wide,
    /// scaled up until it is at least half of 16 bits wide again.
    pub open spec fn narrow(self, offset: nat, range: nat) -> Interval {
        let d = renorm_shift(range);
        Interval {
            low: (self.low + offset) * pow2(d),
            range: range * pow2(d),
            bits: self.bits + d,
        }
    }

    /// Part number `value` of `2^n` equal parts, scaled up by `2^n`.
    pub open spec fn split(self, value: nat, n: nat) -> Interval {
        Interval {
            low: self.low * pow2(n) + self.range * value,
            range: self.range,
            bits: self.bits + n,
        }
    }

    /// Whether a code number of `15 + precision` bits lies in the interval.
    pub open spec fn contains(self, code: nat, precision: nat) -> bool {
        &&& self.bits <= precision
        &&& self.low * pow2((precision - self.bits) as nat) <= code
        &&& code < (self.low + self.range) * pow2((precision - self.bits) as nat)
    }
}

/// Bits by which a range has to be scaled up to fill sixteen bits.
pub open spec fn renorm_shift(range: nat) -> nat {
    (16 - num::bitlen(range)) as nat
}

/// Probability of an inverse-CDF entry after its floor is taken off.
pub open spec fn scaled_prob(icdf: nat, floor: nat) -> nat {
    let p = 128 * (icdf / 128) + 127;
    if p < floor {
        0
    } else {
        (p - floor) as nat
    }
}

/// Distance of boundary `k` from the upper end of a range.
pub open spec fn boundary_at(range: nat, icdf: Seq<u16>, row: int, k: int) -> nat {
    8 * ((range / 256) * scaled_prob(icdf[k] as nat, MIN_PROB@[row]@[k] as nat) / 1024)
}

/// Upper end of symbol `s`, measured down from the end of the range.
pub open spec fn symbol_upper(range: nat, icdf: Seq<u16>, row: int, s: int) -> nat {
    if s == 0 {
        range
    } else {
        boundary_at(range, icdf, row, s - 1)
    }
}

/// Symbol `s` can be coded: the entries it needs are there, and its part of
/// the range is not empty.
pub open spec fn codable(range: nat, icdf: Seq<u16>, row: int, s: int) -> bool {
    &&& 0 <= row < 8
    &&& 0 <= s < 8
    &&& s < icdf.len()
    &&& boundary_at(range, icdf, row, s) < symbol_upper(range, icdf, row, s) <= range
}

/// The interval after symbol `s`.
pub open spec fn code_symbol(iv: Interval, icdf: Seq<u16>, row: int, s: int) -> Interval {
    let upper = symbol_upper(iv.range, icdf, row, s);
    let lower = boundary_at(iv.range, icdf, row, s);
    iv.narrow((iv.range - upper) as nat, (upper - lower) as nat)
}

/// Split point of a two-symbol alphabet with inverse probability `cdf`.
pub open spec fn bool_split(range: nat, cdf: nat) -> nat {
    8 * ((range / 256) * (16 * (cdf / 128) + 8) / 128)
}

/// The interval after a boolean.
pub open spec fn code_bool(iv: Interval, cdf: nat, bit: bool) -> Interval {
    let split = bool_split(iv.range, cdf);
    if bit {
        iv.narrow((iv.range - split) as nat, split)
    } else {
        iv.narrow(0, (iv.range - split) as nat)
    }
}

/// Bits of `low` above its 16-bit window once `bits` bits have been produced.
pub open spec fn pending_bits(bits: nat) -> nat {
    if bits == 0 {
        0
    } else {
        (bits - 1) as nat % 8 + 1
    }
}

/// Value of a string of base-256 digits that may exceed 255, first digit first.
pub open spec fn digits_value(s: Seq<u16>) -> nat
    decreases s.len(),
{
    if s.len() == 0 {
        0
    } else {
        256 * digits_value(s.drop_last()) + s.last() as nat
    }
}

/// Value of a byte string, first byte most significant.
pub open spec fn bytes_value(s: Seq<u8>) -> nat
    decreases s.len(),
{
    if s.len() == 0 {
        0
    } else {
        256 * bytes_value(s.drop_last()) + s.last() as nat
    }
}

/// The number that ends a code: the low end rounded up to a multiple of
/// `2^14`, with bit 14 set.
pub open spec fn final_code(low: nat) -> nat {
    let q = (low + 0x3fff) / 0x4000;
    0x4000 * (if q % 2 == 0 {
        q + 1
    } else {
        q
    })
}

/// Whether `bytes` are the tile payload of a finished interval: just enough
/// bytes to name the final code, which lies in the interval.
pub open spec fn is_payload(iv: Interval, bytes: Seq<u8>) -> bool {
    &&& bytes.len() == iv.bits / 8 + 1
    &&& bytes_value(bytes) * pow2(iv.bits % 8 + 7) == final_code(iv.low)
    &&& iv.contains(final_code(iv.low), iv.bits)
}

proof fn lemma_pow2_split(a: nat, b: nat)
    ensures
        pow2(a + b) == pow2(a) * pow2(b),
{
    lemma_pow2_adds(a, b);
}

/// Taking the top digit off `low` and appending it to the digits keeps the value.
proof fn lemma_emit(digits: nat, low: nat, pos: nat)
    ensures
        digits * pow2(pos + 8) + low == (256 * digits + low / pow2(pos)) * pow2(pos) + low % pow2(
            pos,
        ),
{
    lemma2_to64();
    lemma_pow2_split(pos, 8);
    lemma_pow2_pos(pos);
    lemma_fundamental_div_mod(low as int, pow2(pos) as int);
    let p = pow2(pos) as int;
    let q = (low / pow2(pos)) as int;
    let r = (low % pow2(pos)) as int;
    assert(digits * (p * 256) + (p * q + r) == (256 * digits + q) * p + r) by (nonlinear_arith);
}

/// Encoder state. The view is the interval coded so far.
pub struct RangeEncoder {
    low: u64,
    range: u32,
    pending: u32,
    output: Vec<u16>,
    sink: bool,
}

impl View for RangeEncoder {
    type V = Interval;

    closed spec fn view(&self) -> Interval {
        Interval {
            low: digits_value(self.output@) * pow2((self.pending + 15) as nat) + self.low as nat,
            range: self.range as nat,
            bits: 8 * self.output@.len() + self.pending as nat,
        }
    }
}

impl RangeEncoder {
    /// The range fills sixteen bits, what is still held in `low` has not
    /// outgrown its window by more than a carry, and the interval lies in the
    /// code space.
    pub closed spec fn wf(&self) -> bool {
        &&& 0x8000 <= self.range < 0x1_0000
        &&& self.pending <= 8
        &&& self.pending == 0 ==> self.output@.len() == 0
        &&& self.low + self.range <= pow2((self.pending + 16) as nat)
        &&& self@.low + self@.range <= pow2(15 + self@.bits)
    }

    /// Whether the output is discarded: coding is then without effect.
    pub closed spec fn discards(&self) -> bool {
        self.sink
    }

    /// An encoder that has coded nothing.
    pub fn new() -> (e: RangeEncoder)
        ensures
            e.wf(),
            e@ == Interval::full(),
            !e.discards(),
    {
        proof {
            lemma2_to64();
        }
        let e = RangeEncoder { low: 0, range: 0x8000, pending: 0, output: Vec::new(), sink: false };
        assert(digits_value(e.output@) == 0);
        assert(0 * pow2(15) == 0);
        e
    }

    /// What is known of a well-formed state from outside.
    pub proof fn lemma_wf(&self)
        requires
            self.wf(),
        ensures
            0x8000 <= self@.range < 0x1_0000,
            self@.low + self@.range <= pow2(15 + self@.bits),
    {
    }

    /// Turn discarding of the output on or off.
    pub fn set_sink(&mut self, on: bool)
        requires
            old(self).wf(),
        ensures
            final(self).wf(),
            final(self)@ == old(self)@,
            final(self).discards() == on,
    {
        self.sink = on;
    }

    /// Take over an interval that is scaled up by `n` bits, and move the digits
    /// that are complete to the output.
    fn advance(&mut self, low: u64, range: u32, n: u32)
        requires
            old(self).wf(),
            0x8000 <= range < 0x1_0000,
            n <= 24,
            old(self).pending + n <= 24,
            low + range <= pow2((old(self).pending + n + 16) as nat),
            digits_value(old(self).output@) * pow2((old(self).pending + n + 15) as nat) + low + range
                <= pow2(15 + old(self)@.bits + n as nat),
        ensures
            final(self).wf(),
            final(self).discards() == old(self).discards(),
            final(self)@ == (Interval {
                low: digits_value(old(self).output@) * pow2((old(self).pending + n + 15) as nat)
                    + low as nat,
                range: range as nat,
                bits: old(self)@.bits + n as nat,
            }),
    {
        let total: u32 = self.pending + n;
        let mut low: u64 = low;
        let mut total: u32 = total;
        let ghost d0 = digits_value(self.output@);
        let ghost low0 = low as nat;
        proof {
            lemma2_to64();
            lemma2_to64_rest();
        }
        if total >= 9 {
            let mut pos: u32 = total + 7;
            proof {
                lemma_emit(d0, low0, pos as nat);
                lemma_pow2_pos(pos as nat);
                lemma_pow2_split(pos as nat, 9);
                assert(low0 / pow2(pos as nat) < 512) by (nonlinear_arith)
                    requires
                        low0 < pow2(pos as nat) * 512,
                        pow2(pos as nat) > 0,
                ;
            }
            let ghost out0 = self.output@;
            if total >= 17 {
                let digit: u64 = num::shift_right(low, pos);
                self.output.push(digit as u16);
                low = num::low_bits(low, pos);
                assert(self.output@.drop_last() =~= out0);
                let ghost d1 = digits_value(self.output@);
                let ghost low1 = low as nat;
                pos = pos - 8;
                total = total - 8;
                proof {
                    lemma_emit(d1, low1, pos as nat);
                    lemma_pow2_pos(pos as nat);
                    lemma_pow2_split(pos as nat, 8);
                    assert(low1 / pow2(pos as nat) < 256) by (nonlinear_arith)
                        requires
                            low1 < pow2(pos as nat) * 256,
                            pow2(pos as nat) > 0,
                    ;
                }
            }
            let ghost out1 = self.output@;
            let digit: u64 = num::shift_right(low, pos);
            self.output.push(digit as u16);
            assert(self.output@.drop_last() =~= out1);
            low = num::low_bits(low, pos);
            total = total - 8;
            proof {
                // what is left of `low` is below its window; the range adds at most 2^16
                assert(pow2((total + 16) as nat) == 2 * pow2((total + 15) as nat)) by {
                    lemma_pow2_unfold((total + 16) as nat);
                }
                if total > 1 {
                    lemma_pow2_strictly_increases(16, (total + 15) as nat);
                }
            }
        }
        self.low = low;
        self.range = range;
        self.pending = total;
    }

    /// Take the part of the interval that starts at `low` and is `range` wide.
    fn normalize(&mut self, low: u64, range: u32)
        requires
            old(self).wf(),
            range >= 1,
            old(self).low <= low,
            low + range <= old(self).low + old(self).range,
        ensures
            final(self).wf(),
            final(self).discards() == old(self).discards(),
            old(self).discards() ==> final(self)@ == old(self)@,
            !old(self).discards() ==> final(self)@ == old(self)@.narrow(
                (low - old(self).low) as nat,
                range as nat,
            ),
    {
        if self.sink {
            return;
        }
        proof {
            lemma_renorm(range as nat);
        }
        let shift: u32 = 16 - num::bit_length(range);
        proof {
            lemma2_to64();
            let d = shift as nat;
            let p = self.pending as nat;
            let digits = digits_value(self.output@) as int;
            let k = pow2(d) as int;
            lemma_pow2_pos(d);
            lemma_pow2_split(p + 16, d);
            lemma_pow2_split(p + 15, d);
            lemma_pow2_split(15 + self@.bits, d);
            let sum = low + range;
            lemma_mul_inequality(sum, pow2(p + 16) as int, k);
            lemma_mul_is_distributive_add_other_way(k, low as int, range as int);
            lemma_pow2_split(24, 15);
            if p + 16 < 24 {
                lemma_pow2_strictly_increases(p + 16, 24);
            }
            if d < 15 {
                lemma_pow2_strictly_increases(d, 15);
            }
            assert(low * k <= 0x100_0000 * 0x8000) by (nonlinear_arith)
                requires
                    0 <= low <= 0x100_0000,
                    0 <= k <= 0x8000,
            ;
            let w = pow2(p + 15) as int;
            assert(digits * (w * k) + low * k == (digits * w + low) * k) by (nonlinear_arith);
            assert(digits * (w * k) + low * k + range * k == (digits * w + sum) * k)
                by (nonlinear_arith)
                requires
                    sum == low + range,
            ;
            lemma_mul_inequality(digits * w + sum, pow2(15 + self@.bits) as int, k);
        }
        let wide: u64 = num::shift_left(range as u64, shift);
        let scaled: u64 = num::shift_left(low, shift);
        self.advance(scaled, wide as u32, shift);
    }

    /// Distance of boundary `k` from the upper end of the range.
    fn boundary(scaled_range: u32, icdf: &[u16], row: usize, k: usize) -> (b: u32)
        requires
            scaled_range < 256,
            row < 8,
            k < 8,
            k < icdf@.len(),
        ensures
            forall|range: nat|
                range / 256 == scaled_range ==> b == #[trigger] boundary_at(
                    range,
                    icdf@,
                    row as int,
                    k as int,
                ),
    {
        let p: u32 = (icdf[k] as u32 / 128) * 128 + 127;
        let floor: u32 = MIN_PROB[row][k] as u32;
        let prob: u32 = if p < floor {
            0
        } else {
            p - floor
        };
        assert(scaled_range * prob <= 255 * 65535) by (nonlinear_arith)
            requires
                scaled_range <= 255,
                prob <= 65535,
        ;
        (scaled_range * prob / 1024) * 8
    }

    /// Code symbol `s` with the floors of alphabet row `row`.
    fn encode_row(&mut self, icdf: &[u16], s: usize, row: usize)
        requires
            old(self).wf(),
            codable(old(self)@.range, icdf@, row as int, s as int),
        ensures
            final(self).wf(),
            final(self).discards() == old(self).discards(),
            old(self).discards() ==> final(self)@ == old(self)@,
            !old(self).discards() ==> final(self)@ == code_symbol(
                old(self)@,
                icdf@,
                row as int,
                s as int,
            ),
    {
        let range: u32 = self.range;
        let scaled_range: u32 = range / 256;
        let upper: u32 = if s == 0 {
            range
        } else {
            Self::boundary(scaled_range, icdf, row, s - 1)
        };
        let lower: u32 = Self::boundary(scaled_range, icdf, row, s);
        proof {
            let r = range as nat;
            assert(lower == boundary_at(r, icdf@, row as int, s as int));
            assert(upper == symbol_upper(r, icdf@, row as int, s as int));
            lemma2_to64();
            lemma_pow2_strictly_increases((self.pending + 16) as nat, 25);
        }
        let low: u64 = self.low + (range - upper) as u64;
        self.normalize(low, upper - lower);
    }

    /// Encode symbol `s` against an inverse-CDF table of `nsyms` entries.
    pub fn encode_symbol(&mut self, icdf: &[u16], s: usize, nsyms: usize)
        requires
            old(self).wf(),
            1 <= nsyms <= 8,
            !old(self).discards() ==> codable(old(self)@.range, icdf@, nsyms - 1, s as int),
        ensures
            final(self).wf(),
            final(self).discards() == old(self).discards(),
            final(self)@ == if old(self).discards() {
                old(self)@
            } else {
                code_symbol(old(self)@, icdf@, nsyms - 1, s as int)
            },
    {
        if self.sink {
            return;
        }
        self.encode_row(icdf, s, nsyms - 1);
    }

    /// Encode symbol `s` against `cdf` extended with a trailing zero, which is
    /// the entry of the escape symbol.
    pub fn encode_symbol_esc(&mut self, cdf: &[u16], s: usize, nsyms: usize)
        requires
            old(self).wf(),
            1 <= nsyms <= 8,
            cdf@.len() <= 15,
            !old(self).discards() ==> codable(old(self)@.range, cdf@.push(0), nsyms - 1, s as int),
        ensures
            final(self).wf(),
            final(self).discards() == old(self).discards(),
            final(self)@ == if old(self).discards() {
                old(self)@
            } else {
                code_symbol(old(self)@, cdf@.push(0), nsyms - 1, s as int)
            },
    {
        if self.sink {
            return;
        }
        let mut table: Vec<u16> = Vec::new();
        let mut i: usize = 0;
        while i < cdf.len()
            invariant
                i <= cdf@.len(),
                table@ == cdf@.take(i as int),
            decreases cdf@.len() - i,
        {
            table.push(cdf[i]);
            i = i + 1;
            assert(cdf@.take(i as int) =~= cdf@.take(i - 1).push(cdf@[i - 1]));
        }
        assert(cdf@.take(cdf@.len() as int) =~= cdf@);
        table.push(0);
        self.encode_symbol(table.as_slice(), s, nsyms);
    }

    /// Encode a single boolean with inverse probability `cdf`.
    pub fn encode_bool(&mut self, cdf: u32, bit: u32)
        requires
            old(self).wf(),
            cdf < 0x8000,
        ensures
            final(self).wf(),
            final(self).discards() == old(self).discards(),
            final(self)@ == if old(self).discards() {
                old(self)@
            } else {
                code_bool(old(self)@, cdf as nat, bit != 0)
            },
    {
        if self.sink {
            return;
        }
        let range: u32 = self.range;
        let scaled: u32 = range / 256;
        let weight: u32 = 16 * (cdf / 128) + 8;
        proof {
            lemma_bool_split(range as nat, cdf as nat);
            assert(scaled * weight <= 255 * 4088) by (nonlinear_arith)
                requires
                    scaled <= 255,
                    weight <= 4088,
            ;
            lemma2_to64();
            lemma_pow2_strictly_increases((self.pending + 16) as nat, 25);
        }
        let split: u32 = (scaled * weight / 128) * 8;
        if bit != 0 {
            let low: u64 = self.low + (range - split) as u64;
            self.normalize(low, split);
        } else {
            let low: u64 = self.low;
            self.normalize(low, range - split);
        }
    }

    /// Encode `bit_count` equiprobable bits, the number `value`.
    pub fn encode_bypass(&mut self, value: u32, bit_count: u32)
        requires
            old(self).wf(),
            bit_count + pending_bits(old(self)@.bits) <= 24,
            value < pow2(bit_count as nat),
        ensures
            final(self).wf(),
            final(self).discards() == old(self).discards(),
            final(self)@ == if old(self).discards() {
                old(self)@
            } else {
                old(self)@.split(value as nat, bit_count as nat)
            },
    {
        if self.sink {
            return;
        }
        let range: u32 = self.range;
        proof {
            self.lemma_pending();
            lemma2_to64();
            lemma2_to64_rest();
            let n = bit_count as nat;
            let p = self.pending as nat;
            let k = pow2(n) as int;
            let v = value as int;
            let r = range as int;
            let low = self.low as int;
            let digits = digits_value(self.output@) as int;
            lemma_pow2_pos(n);
            if p + 16 < 24 {
                lemma_pow2_strictly_increases(p + 16, 24);
            }
            if n < 24 {
                lemma_pow2_strictly_increases(n, 24);
            }
            assert(low * k <= 0x100_0000 * 0x100_0000) by (nonlinear_arith)
                requires
                    0 <= low <= 0x100_0000,
                    0 <= k <= 0x100_0000,
            ;
            assert(r * v + r <= r * k) by (nonlinear_arith)
                requires
                    0 <= r,
                    v + 1 <= k,
            ;
            assert(r * v <= 0x1_0000 * 0x100_0000) by (nonlinear_arith)
                requires
                    0 <= r <= 0x1_0000,
                    0 <= v <= 0x100_0000,
            ;
            assert(low * k + r * k == (low + r) * k) by (nonlinear_arith);
            lemma_pow2_split(p + 16, n);
            lemma_mul_inequality(low + r, pow2(p + 16) as int, k);
            lemma_pow2_split(p + 15, n);
            let w = pow2(p + 15) as int;
            assert(digits * (w * k) + low * k == (digits * w + low) * k) by (nonlinear_arith);
            assert((digits * w + low) * k + r * k == (digits * w + low + r) * k)
                by (nonlinear_arith);
            lemma_pow2_split(15 + self@.bits, n);
            lemma_mul_inequality(digits * w + low + r, pow2(15 + self@.bits) as int, k);
        }
        let low: u64 = num::shift_left(self.low, bit_count) + range as u64 * value as u64;
        self.advance(low, range, bit_count);
    }

    /// Encode `value` as one of `n` nearly equiprobable symbols.
    pub fn encode_uniform(&mut self, value: u32, n: u32)
        requires
            old(self).wf(),
            1 < n < 0x8000_0000,
            value < n,
            num::bitlen(n as nat) - 1 + pending_bits(old(self)@.bits) <= 24,
        ensures
            final(self).wf(),
            final(self).discards() == old(self).discards(),
            final(self)@ == if old(self).discards() {
                old(self)@
            } else {
                code_uniform(old(self)@, value as nat, n as nat)
            },
    {
        let l: u32 = num::bit_length(n);
        proof {
            lemma2_to64();
            lemma2_to64_rest();
            num::lemma_bitlen_bounds(n as nat);
            num::lemma_bitlen_upper(n as nat, 31);
            lemma_pow2_unfold(l as nat);
        }
        let m: u32 = num::pow2_u32(l) - n;
        if value < m {
            self.encode_bypass(value, l - 1);
        } else {
            let v: u32 = value + m;
            self.encode_bypass(v / 2, l - 1);
            proof {
                self.lemma_pending();
            }
            self.encode_bypass(v % 2, 1);
        }
    }

    /// Flush the coder and return the packed tile bytes.
    pub fn finish(self) -> (bytes: Vec<u8>)
        requires
            self.wf(),
        ensures
            is_payload(self@, bytes@),
    {
        let low: u64 = self.low;
        let pending: u32 = self.pending;
        let ghost d0 = digits_value(self.output@);
        let ghost len0 = self.output@.len();
        let ghost bits = self@.bits;
        let ghost start = self@.low;
        let ghost range = self.range as nat;
        let ghost out0 = self.output@;
        proof {
            lemma2_to64();
            lemma_pow2_strictly_increases((pending + 16) as nat, 25);
            lemma_final_code(start);
            lemma_mul_basics(start as int);
            lemma_mul_basics((start + range) as int);
            assert(pow2((bits - bits) as nat) == 1);
        }
        let q: u64 = (low + 0x3fff) / 0x4000;
        let odd: u64 = if q % 2 == 0 {
            q + 1
        } else {
            q
        };
        let end: u64 = 0x4000 * odd;
        let mut output: Vec<u16> = self.output;
        let pos: u32 = pending + 7;
        proof {
            let p = pending as nat;
            lemma_final_code_splits(d0, low as nat, p);
            lemma_emit(d0, end as nat, pos as nat);
            lemma_pow2_pos(pos as nat);
            lemma_pow2_split(pos as nat, 9);
            assert(end as nat / pow2(pos as nat) < 512) by (nonlinear_arith)
                requires
                    end < pow2(pos as nat) * 512,
                    pow2(pos as nat) > 0,
            ;
        }
        let digit: u64 = num::shift_right(end, pos);
        output.push(digit as u16);
        assert(output@.drop_last() =~= out0);
        if pending == 8 {
            let ghost out1 = output@;
            proof {
                assert(end % 0x8000 == 0x4000);
                assert(0x4000nat / pow2(7) == 128);
                lemma_emit(digits_value(out1), 0x4000, 7);
            }
            output.push(128);
            assert(output@.drop_last() =~= out1);
        } else {
            proof {
                let e = pending as nat + 7;
                lemma_pow2_split(e, (7 - pending) as nat);
                let a = pow2(e) as int;
                let b = pow2((7 - pending) as nat) as int;
                assert(end == a * (b * odd)) by (nonlinear_arith)
                    requires
                        end == (a * b) * odd,
                ;
                lemma_mod_multiples_basic(b * odd, a);
                lemma_mul_is_commutative(a, b * odd);
            }
        }
        proof {
            let e = bits % 8 + 7;
            let n = output@.len();
            assert(digits_value(output@) * pow2(e) == final_code(start));
            assert(8 * n + e == 15 + bits);
            lemma_pow2_split(8 * n, e);
            lemma_pow2_pos(e);
            let v = digits_value(output@) as int;
            let top = pow2(8 * n) as int;
            let w = pow2(e) as int;
            assert(v < top) by (nonlinear_arith)
                requires
                    v * w < top * w,
                    w > 0,
            ;
        }
        propagate_carries(&output)
    }

    proof fn lemma_pending(&self)
        requires
            self.wf(),
        ensures
            self.pending == pending_bits(self@.bits),
    {
    }
}

/// Resolve the carries of a digit string into plain bytes.
fn propagate_carries(digits: &Vec<u16>) -> (bytes: Vec<u8>)
    requires
        digits_value(digits@) < pow2(8 * digits@.len()),
    ensures
        bytes@.len() == digits@.len(),
        bytes_value(bytes@) == digits_value(digits@),
{
    let len: usize = digits.len();
    let mut bytes: Vec<u8> = vec![0u8; len];
    let mut carry: u32 = 0;
    let mut i: usize = len;
    proof {
        lemma2_to64();
        assert(digits@.take(len as int) =~= digits@);
        assert(bytes@.skip(len as int) =~= Seq::<u8>::empty());
        assert(pow2((8 * (len - i)) as nat) == 1);
        lemma_mul_basics(digits_value(digits@) as int);
    }
    while i > 0
        invariant
            i <= len == digits@.len(),
            bytes@.len() == len,
            carry <= 256,
            digits_value(digits@) == (digits_value(digits@.take(i as int)) + carry) * pow2(
                (8 * (len - i)) as nat,
            ) + bytes_value(bytes@.skip(i as int)),
        decreases i,
    {
        let ghost before = bytes@;
        let ghost j = i as int;
        i = i - 1;
        let x: u32 = digits[i] as u32 + carry;
        bytes.set(i, (x % 256) as u8);
        proof {
            let prefix = digits@.take(j);
            assert(prefix.drop_last() =~= digits@.take(j - 1));
            assert(prefix.last() == digits@[j - 1]);
            let tail = bytes@.skip(j - 1);
            assert(bytes@.skip(j) =~= before.skip(j));
            assert(tail =~= seq![(x % 256) as u8] + bytes@.skip(j));
            lemma_bytes_value_front((x % 256) as u8, bytes@.skip(j));
            let k = (8 * (len - j)) as nat;
            lemma_pow2_split(k, 8);
            lemma2_to64();
            let w = pow2(k) as int;
            let d = digits_value(digits@.take(j - 1)) as int;
            assert((256 * d + x) * w == (d + x / 256) * (w * 256) + (x % 256) * w) by (nonlinear_arith)
                requires
                    x == 256 * (x / 256) + x % 256,
            ;
        }
        carry = x / 256;
    }
    proof {
        assert(digits@.take(0) =~= Seq::<u16>::empty());
        assert(bytes@.skip(0) =~= bytes@);
        let w = pow2(8 * len as nat) as int;
        assert(carry == 0) by (nonlinear_arith)
            requires
                carry * w + bytes_value(bytes@) < w,
                w > 0,
                carry >= 0,
                bytes_value(bytes@) >= 0,
        ;
        lemma_mul_basics(w);
    }
    bytes
}

proof fn lemma_bytes_value_front(b: u8, s: Seq<u8>)
    ensures
        bytes_value(seq![b] + s) == b * pow2(8 * s.len()) + bytes_value(s),
    decreases s.len(),
{
    lemma2_to64();
    let t = seq![b] + s;
    if s.len() == 0 {
        assert(t.drop_last() =~= Seq::<u8>::empty());
        assert(t.last() == b);
        assert(pow2(8 * s.len()) == 1);
        lemma_mul_basics(b as int);
        assert(bytes_value(t.drop_last()) == 0);
        assert(bytes_value(s) == 0);
    } else {
        assert(t.drop_last() =~= seq![b] + s.drop_last());
        assert(t.last() == s.last());
        lemma_bytes_value_front(b, s.drop_last());
        let k = (8 * (s.len() - 1)) as nat;
        lemma_pow2_split(k, 8);
        let w = pow2(k) as int;
        assert(8 * s.len() == k + 8);
        assert(pow2(8 * s.len()) == w * 256);
        assert(256 * (b * w) == b * (w * 256)) by (nonlinear_arith);
        assert(bytes_value(t) == 256 * bytes_value(t.drop_last()) + t.last() as nat);
        assert(bytes_value(s) == 256 * bytes_value(s.drop_last()) + s.last() as nat);
    }
}

/// The final code lies in every interval that starts at `low` and is at least
/// `2^15` wide.
pub proof fn lemma_final_code(low: nat)
    ensures
        low <= final_code(low) < low + 0x8000,
{
}

proof fn lemma_final_code_splits(digits: nat, low: nat, p: nat)
    ensures
        final_code(digits * pow2(p + 15) + low) == digits * pow2(p + 15) + final_code(low),
{
    lemma2_to64();
    lemma_pow2_split(p, 15);
    let m = (digits * pow2(p)) as int;
    assert(digits * (pow2(p) * 0x8000) == 0x8000 * m) by (nonlinear_arith)
        requires
            m == digits * pow2(p),
    ;
}

/// The interval after one of `n` nearly equiprobable symbols.
pub open spec fn code_uniform(iv: Interval, value: nat, n: nat) -> Interval {
    let l = num::bitlen(n);
    let m = pow2(l) - n;
    if value < m {
        iv.split(value, (l - 1) as nat)
    } else {
        iv.split(((value + m) / 2) as nat, (l - 1) as nat).split(((value + m) % 2) as nat, 1)
    }
}

/// A range is scaled up to between `2^15` and `2^16`.
pub proof fn lemma_renorm(range: nat)
    requires
        1 <= range < 0x1_0000,
    ensures
        num::bitlen(range) <= 16,
        renorm_shift(range) <= 15,
        0x8000 <= range * pow2(renorm_shift(range)) < 0x1_0000,
{
    lemma2_to64();
    num::lemma_bitlen_bounds(range);
    num::lemma_bitlen_upper(range, 16);
    let n = num::bitlen(range);
    let d = renorm_shift(range);
    lemma_pow2_split((n - 1) as nat, d);
    lemma_pow2_split(n, d);
    lemma_pow2_pos(d);
    lemma_mul_inequality(pow2((n - 1) as nat) as int, range as int, pow2(d) as int);
    lemma_mul_strict_inequality(range as int, pow2(n) as int, pow2(d) as int);
}

/// The split point of a boolean lies strictly inside the range.
pub proof fn lemma_bool_split(range: nat, cdf: nat)
    requires
        0x8000 <= range < 0x1_0000,
        cdf < 0x8000,
    ensures
        0 < bool_split(range, cdf) < range,
{
    let s = (range / 256) as int;
    let w = (16 * (cdf / 128) + 8) as int;
    assert(s * w >= 128 * 8) by (nonlinear_arith)
        requires
            s >= 128,
            w >= 8,
    ;
    assert(s * w <= s * 4088) by (nonlinear_arith)
        requires
            s >= 0,
            w <= 4088,
    ;
}

/// The table that codes symbol `s` of `nsyms` entries: the escape symbol, which
/// comes after all entries, gets an entry of its own.
pub open spec fn fixed_table(icdf: Seq<u16>, s: int, nsyms: int) -> Seq<u16> {
    if s == nsyms {
        icdf.push(0)
    } else {
        icdf
    }
}

/// Alphabet size of a live table with `nsyms` entries: a last entry of zero is
/// a sentinel, otherwise the escape symbol adds one.
pub open spec fn live_alphabet(cdf: Seq<u16>, nsyms: int) -> int {
    if cdf[nsyms - 1] == 0 {
        nsyms
    } else {
        nsyms + 1
    }
}

/// Symbol `s` can be coded with a live table.
pub open spec fn live_codable(range: nat, cdf: Seq<u16>, s: int, nsyms: int) -> bool {
    &&& 1 <= nsyms < cdf.len()
    &&& s <= nsyms
    &&& codable(range, cdf, live_alphabet(cdf, nsyms) - 2, s)
}

/// The interval after symbol `s` of a live table.
pub open spec fn code_live(iv: Interval, cdf: Seq<u16>, s: int, nsyms: int) -> Interval {
    code_symbol(iv, cdf, live_alphabet(cdf, nsyms) - 2, s)
}

/// Symbol `s` of a live table can be coded; while output is discarded it only
/// has to be one of the table.
pub open spec fn live_accepts(
    discards: bool,
    range: nat,
    cdf: Seq<u16>,
    s: int,
    nsyms: int,
) -> bool {
    if discards {
        1 <= nsyms < cdf.len() && nsyms < usize::MAX && 0 <= s <= nsyms
    } else {
        live_codable(range, cdf, s, nsyms)
    }
}

/// The interval after symbol `s` of a live table, which stays as it is while
/// output is discarded.
pub open spec fn code_live_unless(
    discards: bool,
    iv: Interval,
    cdf: Seq<u16>,
    s: int,
    nsyms: int,
) -> Interval {
    if discards {
        iv
    } else {
        code_live(iv, cdf, s, nsyms)
    }
}

impl RangeEncoder {
    /// Code symbol `s` with a fixed table.
    pub fn sym_static(&mut self, icdf: &[u16], s: usize, nsyms: usize)
        requires
            old(self).wf(),
            1 <= nsyms <= 8,
            icdf@.len() <= 15,
            !old(self).discards() ==> codable(
                old(self)@.range,
                fixed_table(icdf@, s as int, nsyms as int),
                nsyms - 1,
                s as int,
            ),
        ensures
            final(self).wf(),
            final(self).discards() == old(self).discards(),
            final(self)@ == if old(self).discards() {
                old(self)@
            } else {
                code_symbol(
                    old(self)@,
                    fixed_table(icdf@, s as int, nsyms as int),
                    nsyms - 1,
                    s as int,
                )
            },
    {
        if s == nsyms {
            self.encode_symbol_esc(icdf, s, nsyms);
        } else {
            self.encode_symbol(icdf, s, nsyms);
        }
    }

    /// Code symbol `s` with a live table. The result is the alphabet size with
    /// which the caller adapts the table, whether output is discarded or not.
    pub fn sym_mut_inner(&mut self, cdf: &[u16], s: usize, nsyms: usize) -> (alphabet: usize)
        requires
            old(self).wf(),
            live_accepts(old(self).discards(), old(self)@.range, cdf@, s as int, nsyms as int),
        ensures
            final(self).wf(),
            final(self).discards() == old(self).discards(),
            final(self)@ == code_live_unless(old(self).discards(), old(self)@, cdf@, s as int, nsyms as int),
            alphabet == live_alphabet(cdf@, nsyms as int),
    {
        let alphabet: usize = if cdf[nsyms - 1] == 0 {
            nsyms
        } else {
            nsyms + 1
        };
        if !self.sink {
            self.encode_row(cdf, s, alphabet - 2);
        }
        alphabet
    }

    /// Code symbol `s` with the live table where there is one, else with the
    /// fixed table. The result names the alphabet to adapt a live table with.
    pub fn sym(
        &mut self,
        live: Option<&[u16]>,
        fixed: &[u16],
        s: usize,
        nsyms: usize,
    ) -> (adapt: Option<usize>)
        requires
            old(self).wf(),
            live matches Some(cdf) ==> live_accepts(
                old(self).discards(),
                old(self)@.range,
                cdf@,
                s as int,
                nsyms as int,
            ),
            live is None ==> 1 <= nsyms <= 8 && fixed@.len() <= 15,
            live is None && !old(self).discards() ==> codable(
                old(self)@.range,
                fixed_table(fixed@, s as int, nsyms as int),
                nsyms - 1,
                s as int,
            ),
        ensures
            final(self).wf(),
            final(self).discards() == old(self).discards(),
            live matches Some(cdf) ==> {
                &&& final(self)@ == code_live_unless(old(self).discards(), old(self)@, cdf@, s as int, nsyms as int)
                &&& adapt == Some(live_alphabet(cdf@, nsyms as int) as usize)
            },
            live is None ==> {
                &&& adapt is None
                &&& final(self)@ == if old(self).discards() {
                    old(self)@
                } else {
                    code_symbol(
                        old(self)@,
                        fixed_table(fixed@, s as int, nsyms as int),
                        nsyms - 1,
                        s as int,
                    )
                }
            },
    {
        match live {
            Some(cdf) => Some(self.sym_mut_inner(cdf, s, nsyms)),
            None => {
                self.sym_static(fixed, s, nsyms);
                None
            },
        }
    }

    /// Code a boolean with the live table where there is one, else with the
    /// fixed inverse probability.
    pub fn bool_sym(&mut self, live: Option<&[u16]>, fixed: u32, bit: u32) -> (adapt: Option<usize>)
        requires
            old(self).wf(),
            live matches Some(cdf) ==> live_accepts(old(self).discards(), old(self)@.range, cdf@, bit as int, 1),
            live is None ==> fixed < 0x8000,
        ensures
            final(self).wf(),
            final(self).discards() == old(self).discards(),
            live matches Some(cdf) ==> {
                &&& final(self)@ == code_live_unless(old(self).discards(), old(self)@, cdf@, bit as int, 1)
                &&& adapt == Some(live_alphabet(cdf@, 1) as usize)
            },
            live is None ==> {
                &&& adapt is None
                &&& final(self)@ == if old(self).discards() {
                    old(self)@
                } else {
                    code_bool(old(self)@, fixed as nat, bit != 0)
                }
            },
    {
        match live {
            Some(cdf) => Some(self.sym_mut_inner(cdf, bit as usize, 1)),
            None => {
                self.encode_bool(fixed, bit);
                None
            },
        }
    }

    /// Code a symbol that only live tables carry; without one nothing is coded.
    pub fn emit_live(&mut self, live: Option<&[u16]>, s: usize, nsyms: usize) -> (adapt: Option<
        usize,
    >)
        requires
            old(self).wf(),
            live matches Some(cdf) ==> live_accepts(
                old(self).discards(),
                old(self)@.range,
                cdf@,
                s as int,
                nsyms as int,
            ),
        ensures
            final(self).wf(),
            final(self).discards() == old(self).discards(),
            live matches Some(cdf) ==> {
                &&& final(self)@ == code_live_unless(old(self).discards(), old(self)@, cdf@, s as int, nsyms as int)
                &&& adapt == Some(live_alphabet(cdf@, nsyms as int) as usize)
            },
            live is None ==> adapt is None && final(self)@ == old(self)@,
    {
        match live {
            Some(cdf) => Some(self.sym_mut_inner(cdf, s, nsyms)),
            None => None,
        }
    }

    /// Code the intra/inter flag, which only inter tiles carry.
    pub fn emit_intra_inter_val(
        &mut self,
        inter_tile: bool,
        live: Option<&[u16]>,
        val: usize,
    ) -> (adapt: Option<usize>)
        requires
            old(self).wf(),
            inter_tile && live is Some ==> live_accepts(
                old(self).discards(),
                old(self)@.range,
                live->0@,
                val as int,
                1,
            ),
        ensures
            final(self).wf(),
            final(self).discards() == old(self).discards(),
            if inter_tile && live is Some {
                &&& final(self)@ == code_live_unless(old(self).discards(), old(self)@, live->0@, val as int, 1)
                &&& adapt == Some(live_alphabet(live->0@, 1) as usize)
            } else {
                adapt is None && final(self)@ == old(self)@
            },
    {
        if !inter_tile {
            return None;
        }
        self.emit_live(live, val, 1)
    }

    /// Code which of two references a block predicts from: a one selects rank
    /// 0. A frame with a single reference carries no such flag.
    pub fn emit_single_ref_rank(
        &mut self,
        num_refs: u8,
        ref_rank: usize,
        live: Option<&[u16]>,
    ) -> (adapt: Option<usize>)
        requires
            old(self).wf(),
            num_refs >= 2 && live is Some ==> live_accepts(
                old(self).discards(),
                old(self)@.range,
                live->0@,
                if ref_rank == 0 {
                    1
                } else {
                    0
                },
                1,
            ),
        ensures
            final(self).wf(),
            final(self).discards() == old(self).discards(),
            if num_refs >= 2 && live is Some {
                &&& final(self)@ == code_live_unless(
                    old(self).discards(),
                    old(self)@,
                    live->0@,
                    if ref_rank == 0 {
                        1
                    } else {
                        0
                    },
                    1,
                )
                &&& adapt == Some(live_alphabet(live->0@, 1) as usize)
            } else {
                adapt is None && final(self)@ == old(self)@
            },
    {
        if num_refs < 2 {
            return None;
        }
        let bit: usize = if ref_rank == 0 {
            1
        } else {
            0
        };
        self.emit_live(live, bit, 1)
    }
}

/// An inverse-CDF table of `n` entries: they do not increase and stay below
/// `2^15`.
pub open spec fn icdf_valid(icdf: Seq<u16>, n: int) -> bool {
    &&& 1 <= n <= icdf.len()
    &&& icdf[0] < 0x8000
    &&& forall|i: int, j: int| 0 <= i <= j < n ==> icdf[j] <= icdf[i]
}

proof fn lemma_floors(row: int, k: int)
    requires
        0 <= row < 7,
        0 <= k <= row,
    ensures
        15 <= MIN_PROB@[row]@[k] <= 111,
        k > 0 ==> MIN_PROB@[row]@[k] >= MIN_PROB@[row]@[k - 1] + 16,
        MIN_PROB@[row]@[row + 1] == 65535,
{
    assert(row == 0 || row == 1 || row == 2 || row == 3 || row == 4 || row == 5 || row == 6);
}

/// With a valid table of up to seven entries, every symbol and the escape
/// symbol can be coded at any time: none gets an empty interval.
pub proof fn law_every_symbol_codable(range: nat, icdf: Seq<u16>, n: int, s: int)
    requires
        0x8000 <= range < 0x1_0000,
        1 <= n <= 7,
        icdf_valid(icdf, n),
        0 <= s <= n,
        s < icdf.len(),
    ensures
        codable(range, icdf, n - 1, s),
{
    let row = n - 1;
    let sr = (range / 256) as int;
    lemma_floors(row, 0);
    let prev = if s > 0 {
        scaled_prob(icdf[s - 1] as nat, MIN_PROB@[row]@[s - 1] as nat) as int
    } else {
        0
    };
    let here = scaled_prob(icdf[s] as nat, MIN_PROB@[row]@[s] as nat) as int;
    if s > 0 {
        lemma_floors(row, s - 1);
        if s < n {
            lemma_floors(row, s);
            assert(icdf[s] <= icdf[s - 1]);
        }
        assert(icdf[s - 1] <= icdf[0]);
        assert(prev >= here + 8);
        assert(sr * prev >= sr * here + 1024) by (nonlinear_arith)
            requires
                sr >= 128,
                prev >= here + 8,
        ;
        assert(sr * prev <= sr * 32752) by (nonlinear_arith)
            requires
                sr >= 0,
                prev <= 32752,
        ;
    } else {
        assert(here <= 32752);
        assert(sr * here <= sr * 32752) by (nonlinear_arith)
            requires
                sr >= 0,
                here <= 32752,
        ;
    }
}

/// The symbols of an alphabet tile the range: each starts where the one before
/// it ends, the first one at the start of the range, the last one at its end.
pub proof fn law_symbols_tile_the_range(range: nat, icdf: Seq<u16>, n: int)
    requires
        1 <= n <= 7,
        icdf.len() > n,
    ensures
        symbol_upper(range, icdf, n - 1, 0) == range,
        forall|s: int|
            0 <= s < n ==> symbol_upper(range, icdf, n - 1, s + 1) == #[trigger] boundary_at(
                range,
                icdf,
                n - 1,
                s,
            ),
        boundary_at(range, icdf, n - 1, n) == 0,
{
    lemma_floors(n - 1, 0);
    assert(scaled_prob(icdf[n] as nat, 65535) == 0);
    assert((range / 256) * 0 == 0) by (nonlinear_arith);
}

/// A boolean is the two-symbol alphabet with one table entry.
pub proof fn law_bool_is_a_two_symbol_alphabet(iv: Interval, cdf: u16, bit: bool)
    requires
        cdf < 0x8000,
    ensures
        code_bool(iv, cdf as nat, bit) == code_symbol(
            iv,
            seq![cdf, 0u16],
            0,
            if bit {
                1
            } else {
                0
            },
        ),
{
    lemma_floors(0, 0);
    let icdf = seq![cdf, 0u16];
    let sr = (iv.range / 256) as int;
    let w = (16 * (cdf as nat / 128) + 8) as int;
    assert(scaled_prob(cdf as nat, 63) == 8 * w);
    assert((sr * (8 * w)) / 1024 == (sr * w) / 128) by (nonlinear_arith)
        requires
            sr >= 0,
            w >= 0,
    {
        assert(sr * (8 * w) == 8 * (sr * w)) by (nonlinear_arith);
        assert((8 * (sr * w)) / 1024 == (sr * w) / 128);
    }
    assert(boundary_at(iv.range, icdf, 0, 0) == bool_split(iv.range, cdf as nat));
    assert(scaled_prob(0, 65535) == 0);
    assert(sr * 0 == 0) by (nonlinear_arith);
    assert(boundary_at(iv.range, icdf, 0, 1) == 0);
}

/// A live table that still holds the fixed one codes every symbol alike, as
/// long as its last entry is no sentinel.
pub proof fn law_live_starts_as_fixed(iv: Interval, cdf: Seq<u16>, s: int, nsyms: int)
    requires
        1 <= nsyms < cdf.len(),
        0 <= s <= nsyms,
        cdf[nsyms - 1] != 0,
        cdf[nsyms] == 0,
    ensures
        code_live(iv, cdf, s, nsyms) == code_symbol(
            iv,
            fixed_table(cdf.take(nsyms), s, nsyms),
            nsyms - 1,
            s,
        ),
{
    let t = fixed_table(cdf.take(nsyms), s, nsyms);
    assert(t[s] == cdf[s]);
    if s > 0 {
        assert(t[s - 1] == cdf[s - 1]);
    }
}

/// A table with `n` entries and room for the escape symbol.
pub struct Table {
    pub icdf: Seq<u16>,
    pub n: int,
}

impl Table {
    pub open spec fn wf(self) -> bool {
        &&& 1 <= self.n <= 7
        &&& self.n < self.icdf.len()
        &&& icdf_valid(self.icdf, self.n)
    }

    /// The interval after symbol `s`.
    pub open spec fn code(self, iv: Interval, s: int) -> Interval {
        code_symbol(iv, self.icdf, self.n - 1, s)
    }
}

/// Something that is coded: a symbol of an alphabet, a boolean with an inverse
/// probability, or a number of equiprobable bits.
pub enum Item {
    Symbol(Table),
    Bool(u16),
    Bits(nat),
}

impl Item {
    /// What every encoder call provides for.
    pub open spec fn wf(self) -> bool {
        match self {
            Item::Symbol(table) => table.wf(),
            Item::Bool(cdf) => cdf < 0x8000,
            Item::Bits(n) => true,
        }
    }

    /// Values that can be coded: the numbers below this one.
    pub open spec fn count(self) -> int {
        match self {
            Item::Symbol(table) => table.n + 1,
            Item::Bool(cdf) => 2,
            Item::Bits(n) => pow2(n) as int,
        }
    }

    /// The interval after a value.
    pub open spec fn code(self, iv: Interval, v: int) -> Interval {
        match self {
            Item::Symbol(table) => table.code(iv, v),
            Item::Bool(cdf) => code_bool(iv, cdf as nat, v == 1),
            Item::Bits(n) => iv.split(v as nat, n),
        }
    }
}

/// Every value fits its item.
pub open spec fn items_fit(items: Seq<Item>, values: Seq<int>) -> bool {
    &&& items.len() == values.len()
    &&& forall|i: int| 0 <= i < items.len() ==> (#[trigger] items[i]).wf()
    &&& forall|i: int| 0 <= i < items.len() ==> 0 <= #[trigger] values[i] < items[i].count()
}

/// The interval after a string of values.
pub open spec fn code_all(iv: Interval, items: Seq<Item>, values: Seq<int>) -> Interval
    decreases values.len(),
{
    if values.len() == 0 {
        iv
    } else {
        code_all(items[0].code(iv, values[0]), items.drop_first(), values.drop_first())
    }
}

/// The value whose interval a code number lies in.
pub open spec fn decode_item(iv: Interval, item: Item, code: nat, precision: nat) -> int {
    choose|v: int| 0 <= v < item.count() && #[trigger] item.code(iv, v).contains(code, precision)
}

/// The values that a decoder reads from a code number.
pub open spec fn decode_all(iv: Interval, items: Seq<Item>, code: nat, precision: nat) -> Seq<int>
    decreases items.len(),
{
    if items.len() == 0 {
        Seq::empty()
    } else {
        let v = decode_item(iv, items[0], code, precision);
        seq![v] + decode_all(items[0].code(iv, v), items.drop_first(), code, precision)
    }
}

/// Where the parts of an interval lie among the code numbers of a precision.
proof fn lemma_narrow_contains(iv: Interval, offset: nat, range: nat, code: nat, precision: nat)
    requires
        1 <= range < 0x1_0000,
    ensures
        iv.narrow(offset, range).contains(code, precision) <==> {
            &&& iv.bits + renorm_shift(range) <= precision
            &&& (iv.low + offset) * pow2((precision - iv.bits) as nat) <= code
            &&& code < (iv.low + offset + range) * pow2((precision - iv.bits) as nat)
        },
{
    let d = renorm_shift(range);
    if iv.bits + d <= precision {
        let rest = (precision - iv.bits - d) as nat;
        lemma_pow2_split(d, rest);
        assert(precision - iv.bits == d + rest);
        let a = (iv.low + offset) as int;
        let k = pow2(d) as int;
        let m = pow2(rest) as int;
        assert((a * k) * m == a * (k * m)) by (nonlinear_arith);
        assert((a * k + range * k) * m == (a + range) * (k * m)) by (nonlinear_arith);
    }
}

/// Coding a symbol keeps the range at sixteen bits and stays in the interval:
/// a code number that lies in it afterwards lay in it before.
proof fn lemma_symbol_nested(iv: Interval, table: Table, s: int, code: nat, precision: nat)
    requires
        0x8000 <= iv.range < 0x1_0000,
        table.wf(),
        0 <= s <= table.n,
    ensures
        0x8000 <= table.code(iv, s).range < 0x1_0000,
        table.code(iv, s).contains(code, precision) ==> iv.contains(code, precision),
{
    law_every_symbol_codable(iv.range, table.icdf, table.n, s);
    let row = table.n - 1;
    let upper = symbol_upper(iv.range, table.icdf, row, s);
    let lower = boundary_at(iv.range, table.icdf, row, s);
    let offset = (iv.range - upper) as nat;
    let range = (upper - lower) as nat;
    lemma_renorm(range);
    lemma_narrow_contains(iv, offset, range, code, precision);
    if iv.bits <= precision {
        let k = pow2((precision - iv.bits) as nat) as int;
        lemma_pow2_pos((precision - iv.bits) as nat);
        lemma_mul_inequality(iv.low as int, (iv.low + offset) as int, k);
        lemma_mul_inequality((iv.low + offset + range) as int, (iv.low + iv.range) as int, k);
    }
}

/// Later symbols lie further from the end of the range.
proof fn lemma_boundaries_fall(range: nat, table: Table, s: int, t: int)
    requires
        0x8000 <= range < 0x1_0000,
        table.wf(),
        0 <= s < t <= table.n,
    ensures
        symbol_upper(range, table.icdf, table.n - 1, t) <= boundary_at(
            range,
            table.icdf,
            table.n - 1,
            s,
        ),
    decreases t - s,
{
    if t > s + 1 {
        lemma_boundaries_fall(range, table, s, t - 1);
        law_every_symbol_codable(range, table.icdf, table.n, t - 1);
    }
}

/// A code number lies in the interval of at most one symbol.
pub proof fn law_symbol_is_unique(
    iv: Interval,
    table: Table,
    s: int,
    t: int,
    code: nat,
    precision: nat,
)
    requires
        0x8000 <= iv.range < 0x1_0000,
        table.wf(),
        0 <= s <= table.n,
        0 <= t <= table.n,
        table.code(iv, s).contains(code, precision),
        table.code(iv, t).contains(code, precision),
    ensures
        s == t,
{
    let row = table.n - 1;
    law_every_symbol_codable(iv.range, table.icdf, table.n, s);
    law_every_symbol_codable(iv.range, table.icdf, table.n, t);
    let us = symbol_upper(iv.range, table.icdf, row, s);
    let ls = boundary_at(iv.range, table.icdf, row, s);
    let ut = symbol_upper(iv.range, table.icdf, row, t);
    let lt = boundary_at(iv.range, table.icdf, row, t);
    lemma_narrow_contains(iv, (iv.range - us) as nat, (us - ls) as nat, code, precision);
    lemma_narrow_contains(iv, (iv.range - ut) as nat, (ut - lt) as nat, code, precision);
    let k = pow2((precision - iv.bits) as nat) as int;
    if s < t {
        lemma_boundaries_fall(iv.range, table, s, t);
        lemma_mul_inequality(iv.low + iv.range - ls, iv.low + iv.range - ut, k);
    } else if t < s {
        lemma_boundaries_fall(iv.range, table, t, s);
        lemma_mul_inequality(iv.low + iv.range - lt, iv.low + iv.range - us, k);
    }
}

/// Where equal parts of an interval lie among the code numbers of a precision.
proof fn lemma_split_contains(iv: Interval, v: nat, n: nat, code: nat, precision: nat)
    requires
        iv.bits + n <= precision,
        v < pow2(n),
    ensures
        ({
            let rest = pow2((precision - iv.bits - n) as nat);
            let start = iv.low * pow2((precision - iv.bits) as nat);
            &&& iv.split(v, n).contains(code, precision) <==> {
                &&& start + v * (iv.range * rest) <= code
                &&& code < start + (v + 1) * (iv.range * rest)
            }
            &&& start + (v + 1) * (iv.range * rest) <= (iv.low + iv.range) * pow2(
                (precision - iv.bits) as nat,
            )
            &&& 0 <= v * (iv.range * rest)
        }),
{
    let m = (precision - iv.bits - n) as nat;
    lemma_pow2_split(n, m);
    assert((precision - iv.bits) as nat == n + m);
    let (l, r, k, rest, w) = (
        iv.low as int,
        iv.range as int,
        pow2(n) as int,
        pow2(m) as int,
        v as int,
    );
    let step = r * rest;
    assert((l * k + r * w) * rest == l * (k * rest) + w * step) by (nonlinear_arith)
        requires
            step == r * rest,
    ;
    assert((l * k + r * w + r) * rest == l * (k * rest) + (w + 1) * step) by (nonlinear_arith)
        requires
            step == r * rest,
    ;
    assert(step >= 0) by (nonlinear_arith)
        requires
            step == r * rest,
            r >= 0,
            rest >= 0,
    ;
    assert((w + 1) * step <= k * step) by (nonlinear_arith)
        requires
            w + 1 <= k,
            step >= 0,
    ;
    assert(0 <= w * step) by (nonlinear_arith)
        requires
            w >= 0,
            step >= 0,
    ;
    assert((l + r) * (k * rest) == l * (k * rest) + k * step) by (nonlinear_arith)
        requires
            step == r * rest,
    ;
}

/// The two-symbol table of a boolean.
spec fn bool_table(cdf: u16) -> Table {
    Table { icdf: seq![cdf, 0u16], n: 1 }
}

/// Coding a value keeps the range at sixteen bits and stays in the interval.
proof fn lemma_item_nested(iv: Interval, item: Item, v: int, code: nat, precision: nat)
    requires
        0x8000 <= iv.range < 0x1_0000,
        item.wf(),
        0 <= v < item.count(),
    ensures
        0x8000 <= item.code(iv, v).range < 0x1_0000,
        item.code(iv, v).contains(code, precision) ==> iv.contains(code, precision),
{
    match item {
        Item::Symbol(table) => lemma_symbol_nested(iv, table, v, code, precision),
        Item::Bool(cdf) => {
            law_bool_is_a_two_symbol_alphabet(iv, cdf, v == 1);
            lemma_symbol_nested(iv, bool_table(cdf), v, code, precision);
        },
        Item::Bits(n) => {
            if iv.split(v as nat, n).contains(code, precision) {
                lemma_split_contains(iv, v as nat, n, code, precision);
            }
        },
    }
}

/// A code number lies in the interval of at most one value of an item.
pub proof fn law_value_is_unique(
    iv: Interval,
    item: Item,
    v: int,
    w: int,
    code: nat,
    precision: nat,
)
    requires
        0x8000 <= iv.range < 0x1_0000,
        item.wf(),
        0 <= v < item.count(),
        0 <= w < item.count(),
        item.code(iv, v).contains(code, precision),
        item.code(iv, w).contains(code, precision),
    ensures
        v == w,
{
    match item {
        Item::Symbol(table) => law_symbol_is_unique(iv, table, v, w, code, precision),
        Item::Bool(cdf) => {
            law_bool_is_a_two_symbol_alphabet(iv, cdf, v == 1);
            law_bool_is_a_two_symbol_alphabet(iv, cdf, w == 1);
            law_symbol_is_unique(iv, bool_table(cdf), v, w, code, precision);
        },
        Item::Bits(n) => {
            lemma_split_contains(iv, v as nat, n, code, precision);
            lemma_split_contains(iv, w as nat, n, code, precision);
            let step = (iv.range * pow2((precision - iv.bits - n) as nat)) as int;
            if v < w {
                lemma_mul_inequality(v + 1, w, step);
            } else if w < v {
                lemma_mul_inequality(w + 1, v, step);
            }
        },
    }
}

proof fn lemma_all_nested(
    iv: Interval,
    items: Seq<Item>,
    values: Seq<int>,
    code: nat,
    precision: nat,
)
    requires
        0x8000 <= iv.range < 0x1_0000,
        items_fit(items, values),
        code_all(iv, items, values).contains(code, precision),
    ensures
        iv.contains(code, precision),
    decreases values.len(),
{
    if values.len() > 0 {
        lemma_item_nested(iv, items[0], values[0], code, precision);
        lemma_items_rest(items, values);
        lemma_all_nested(
            items[0].code(iv, values[0]),
            items.drop_first(),
            values.drop_first(),
            code,
            precision,
        );
    }
}

proof fn lemma_items_rest(items: Seq<Item>, values: Seq<int>)
    requires
        items_fit(items, values),
        values.len() > 0,
    ensures
        items_fit(items.drop_first(), values.drop_first()),
{
    let (a, b) = (items.drop_first(), values.drop_first());
    assert forall|i: int| 0 <= i < a.len() implies (#[trigger] a[i]).wf() by {
        assert(a[i] == items[i + 1]);
    }
    assert forall|i: int| 0 <= i < a.len() implies 0 <= #[trigger] b[i] < a[i].count() by {
        assert(b[i] == values[i + 1] && a[i] == items[i + 1]);
    }
}

/// A decoder that follows the same items reads back exactly the values that were
/// coded, from any code number in the last interval; the finished bytes name
/// such a number.
pub proof fn law_decoder_reads_the_values(
    iv: Interval,
    items: Seq<Item>,
    values: Seq<int>,
    code: nat,
    precision: nat,
)
    requires
        0x8000 <= iv.range < 0x1_0000,
        items_fit(items, values),
        code_all(iv, items, values).contains(code, precision),
    ensures
        decode_all(iv, items, code, precision) == values,
    decreases values.len(),
{
    if values.len() > 0 {
        let item = items[0];
        let v = values[0];
        let next = item.code(iv, v);
        assert(item.wf() && 0 <= v < item.count());
        lemma_item_nested(iv, item, v, code, precision);
        lemma_items_rest(items, values);
        lemma_all_nested(next, items.drop_first(), values.drop_first(), code, precision);
        let d = decode_item(iv, item, code, precision);
        law_value_is_unique(iv, item, v, d, code, precision);
        law_decoder_reads_the_values(
            next,
            items.drop_first(),
            values.drop_first(),
            code,
            precision,
        );
        assert(seq![v] + values.drop_first() =~= values);
    } else {
        assert(values =~= Seq::<int>::empty());
    }
}

/// The payload bytes decode to the values that were coded: symbols of fixed and
/// live tables, booleans and equiprobable bits in any order.
pub proof fn law_payload_reads_back(items: Seq<Item>, values: Seq<int>, bytes: Seq<u8>)
    requires
        items_fit(items, values),
        is_payload(code_all(Interval::full(), items, values), bytes),
    ensures
        ({
            let bits = code_all(Interval::full(), items, values).bits;
            decode_all(Interval::full(), items, bytes_value(bytes) * pow2(bits % 8 + 7), bits)
                == values
        }),
{
    let last = code_all(Interval::full(), items, values);
    law_decoder_reads_the_values(
        Interval::full(),
        items,
        values,
        final_code(last.low),
        last.bits,
    );
}

/// A live table codes its symbols as the alphabet of its size does.
pub proof fn law_live_table_is_an_alphabet(iv: Interval, cdf: Seq<u16>, s: int, nsyms: int)
    requires
        2 <= live_alphabet(cdf, nsyms),
    ensures
        code_live(iv, cdf, s, nsyms) == (Item::Symbol(
            Table { icdf: cdf, n: live_alphabet(cdf, nsyms) - 1 },
        )).code(iv, s),
{
}

/// A fixed table codes its symbols as the alphabet of its size does. The eight
/// symbols of a table of eight entries leave no room for an escape.
pub proof fn law_fixed_table_is_an_alphabet(iv: Interval, icdf: Seq<u16>, s: int, nsyms: int)
    requires
        1 <= nsyms <= 8,
        icdf.len() == nsyms,
        0 <= s <= nsyms,
        nsyms == 8 ==> s < 8,
    ensures
        code_symbol(iv, fixed_table(icdf, s, nsyms), nsyms - 1, s) == (Item::Symbol(
            if nsyms == 8 {
                Table { icdf, n: 7 }
            } else {
                Table { icdf: icdf.push(0), n: nsyms }
            },
        )).code(iv, s),
{
    if nsyms == 8 {
        assert forall|k: int| 0 <= k < 8 implies #[trigger] MIN_PROB@[7]@[k] == MIN_PROB@[6]@[k] by {
            assert(k == 0 || k == 1 || k == 2 || k == 3 || k == 4 || k == 5 || k == 6 || k == 7);
        }
    } else {
        let t = fixed_table(icdf, s, nsyms);
        let u = icdf.push(0);
        assert(t[s] == u[s]);
        if s > 0 {
            assert(t[s - 1] == u[s - 1]);
        }
    }
}

/// A number among nearly equiprobable ones is coded as two runs of bits, or one.
pub proof fn law_uniform_is_bits(iv: Interval, value: nat, n: nat)
    requires
        1 < n,
        value < n,
    ensures
        ({
            let l = num::bitlen(n);
            let m = pow2(l) - n;
            code_uniform(iv, value, n) == if value < m {
                (Item::Bits((l - 1) as nat)).code(iv, value as int)
            } else {
                (Item::Bits(1)).code(
                    (Item::Bits((l - 1) as nat)).code(iv, (value + m) / 2),
                    (value + m) % 2,
                )
            }
        }),
{
    num::lemma_bitlen_bounds(n);
}

// ---------------------------------------------------------------------------
// Probabilities
// ---------------------------------------------------------------------------

/// A boolean takes its share of the range: `cdf` of 32768 parts, to within 64 of
/// them, of what the upper eight bits of the range hold, rounded down to eight.
pub proof fn law_bool_takes_its_share(range: nat, cdf: nat)
    requires
        64 <= cdf,
    ensures
        32768 * bool_split(range, cdf) <= range * (cdf + 64),
        (range - 255) * (cdf - 64) - 262144 < 32768 * bool_split(range, cdf),
        bool_split(range, cdf) % 8 == 0,
{
    let s = (16 * (cdf / 128) + 8) as int;
    let (c, r) = (cdf as int, range as int);
    let a = r / 256;
    let q = a * s / 128;
    vstd::arithmetic::div_mod::lemma_fundamental_div_mod(a * s, 128);
    assert(2048 * (a * s) <= r * (c + 64)) by (nonlinear_arith)
        requires
            0 <= 256 * a <= r,
            0 <= 8 * s <= c + 64,
    ;
    assert((r - 255) * (c - 64) <= 2048 * (a * s)) by (nonlinear_arith)
        requires
            r - 255 <= 256 * a,
            0 <= a,
            0 <= c - 64 <= 8 * s,
    ;
    assert(bool_split(range, cdf) == 8 * q);
}

/// The boundary below a symbol lies at its table entry, less the floor that keeps the
/// symbols after it codable, of 32768 parts of the range, to within 127 of them, the
/// upper eight bits of the range and a rounding down to eight.
pub proof fn law_boundary_lies_at_its_entry(range: nat, icdf: Seq<u16>, row: int, k: int)
    requires
        0 <= row < 8,
        0 <= k < 8,
        icdf[k] >= MIN_PROB@[row]@[k],
    ensures
        ({
            let part = icdf[k] - MIN_PROB@[row]@[k];
            let b = boundary_at(range, icdf, row, k);
            &&& 32768 * b <= range * (part + 127)
            &&& (range - 255) * part - 262144 < 32768 * b
            &&& b % 8 == 0
        }),
{
    let part = icdf[k] - MIN_PROB@[row]@[k];
    let s = scaled_prob(icdf[k] as nat, MIN_PROB@[row]@[k] as nat) as int;
    let r = range as int;
    let a = r / 256;
    let q = a * s / 1024;
    assert(part <= s <= part + 127);
    vstd::arithmetic::div_mod::lemma_fundamental_div_mod(a * s, 1024);
    assert(256 * (a * s) <= r * (part + 127)) by (nonlinear_arith)
        requires
            0 <= 256 * a <= r,
            0 <= s <= part + 127,
    ;
    assert((r - 255) * part <= 256 * (a * s)) by (nonlinear_arith)
        requires
            r - 255 <= 256 * a,
            0 <= a,
            0 <= part <= s,
    ;
    assert(boundary_at(range, icdf, row, k) == 8 * q);
}

/// A narrowed range is scaled up until it has sixteen bits again, and so is its start.
pub proof fn law_narrowing_renormalizes(iv: Interval, offset: nat, range: nat)
    requires
        1 <= range < 0x1_0000,
    ensures
        ({
            let n = iv.narrow(offset, range);
            &&& 0x8000 <= n.range < 0x1_0000
            &&& n.bits >= iv.bits
            &&& n.range == range * pow2((n.bits - iv.bits) as nat)
            &&& n.low == (iv.low + offset) * pow2((n.bits - iv.bits) as nat)
        }),
{
    lemma2_to64();
    num::lemma_bitlen_bounds(range);
    num::lemma_bitlen_upper(range, 16);
    let b = num::bitlen(range);
    let d = renorm_shift(range);
    lemma_pow2_adds((b - 1) as nat, d);
    lemma_pow2_adds(b, d);
    let (p, lo, hi) = (pow2(d) as int, pow2((b - 1) as nat) as int, pow2(b) as int);
    lemma_pow2_pos(d);
    assert(0x8000 <= range * p < 0x1_0000) by (nonlinear_arith)
        requires
            lo <= range < hi,
            lo * p == 0x8000,
            hi * p == 0x1_0000,
            p >= 1,
    ;
}

} // verus!

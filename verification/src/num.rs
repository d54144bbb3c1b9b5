//! Integer helpers shared by the whole crate.

use vstd::arithmetic::div_mod::*;
use vstd::arithmetic::power2::*;
use vstd::prelude::*;

verus! {

/// Sum of `f(0)`, `f(1)` and so on, of `n` terms.
pub open spec fn series(f: spec_fn(int) -> int, n: nat) -> int
    decreases n,
{
    if n == 0 {
        0
    } else {
        series(f, (n - 1) as nat) + f(n - 1)
    }
}

/// Series with equal terms are equal.
pub proof fn lemma_series_same(f: spec_fn(int) -> int, g: spec_fn(int) -> int, n: nat)
    requires
        forall|i: int| 0 <= i < n ==> #[trigger] f(i) == g(i),
    ensures
        series(f, n) == series(g, n),
    decreases n,
{
    if n > 0 {
        lemma_series_same(f, g, (n - 1) as nat);
        assert(f(n - 1) == g(n - 1));
    }
}

/// A series whose terms beyond the first are zero is its first term.
pub proof fn lemma_series_first(f: spec_fn(int) -> int, n: nat)
    requires
        n >= 1,
        forall|i: int| 1 <= i < n ==> #[trigger] f(i) == 0,
    ensures
        series(f, n) == f(0),
    decreases n,
{
    if n > 1 {
        lemma_series_first(f, (n - 1) as nat);
        assert(f(n - 1) == 0);
    } else {
        assert(series(f, 0) == 0);
    }
}

/// Number of bits of `v` without leading zeros; 0 for 0.
pub open spec fn bitlen(v: nat) -> nat
    decreases v,
{
    if v == 0 {
        0
    } else {
        1 + bitlen(v / 2)
    }
}

/// `bitlen(v)` is the only `n` with `2^(n-1) <= v < 2^n`.
pub proof fn lemma_bitlen_bounds(v: nat)
    requires
        v > 0,
    ensures
        bitlen(v) >= 1,
        pow2((bitlen(v) - 1) as nat) <= v < pow2(bitlen(v)),
    decreases v,
{
    lemma2_to64();
    if v > 1 {
        lemma_bitlen_bounds(v / 2);
        let n = bitlen(v / 2);
        lemma_pow2_unfold((n + 1) as nat);
        lemma_pow2_unfold(n);
    } else {
        assert(bitlen(0) == 0);
        assert(bitlen(1) == 1 + bitlen(0));
    }
}

/// A number below `2^n` has at most `n` bits.
pub proof fn lemma_bitlen_upper(v: nat, n: nat)
    requires
        v < pow2(n),
    ensures
        bitlen(v) <= n,
    decreases n,
{
    lemma2_to64();
    if v > 0 {
        if n > 0 {
            lemma_pow2_unfold(n);
            lemma_bitlen_upper(v / 2, (n - 1) as nat);
        }
    }
}

/// A number of at least `2^n` has more than `n` bits.
pub proof fn lemma_bitlen_lower(v: nat, n: nat)
    requires
        v >= pow2(n),
    ensures
        bitlen(v) > n,
{
    lemma_pow2_pos(n);
    lemma_bitlen_bounds(v);
    if bitlen(v) <= n {
        if bitlen(v) < n {
            lemma_pow2_strictly_increases(bitlen(v), n);
        }
    }
}

/// Number of significant bits of a 32-bit value.
pub fn bit_length(v: u32) -> (n: u32)
    ensures
        n == bitlen(v as nat),
        n <= 32,
{
    let mut rest: u32 = v;
    let mut n: u32 = 0;
    proof {
        lemma2_to64();
        lemma_bitlen_upper(v as nat, 32);
    }
    while rest > 0
        invariant
            n + bitlen(rest as nat) == bitlen(v as nat),
            bitlen(v as nat) <= 32,
        decreases rest,
    {
        rest = rest / 2;
        n = n + 1;
    }
    n
}

/// `x * 2^k`.
pub fn shift_left(x: u64, k: u32) -> (r: u64)
    requires
        k < 64,
        x * pow2(k as nat) <= u64::MAX,
    ensures
        r == x * pow2(k as nat),
{
    proof {
        vstd::bits::lemma_u64_shl_is_mul(x, k as u64);
    }
    x << (k as u64)
}

/// `x / 2^k`, rounded down.
pub fn shift_right(x: u64, k: u32) -> (r: u64)
    requires
        k < 64,
    ensures
        r == x as nat / pow2(k as nat),
{
    proof {
        vstd::bits::lemma_u64_shr_is_div(x, k as u64);
    }
    x >> (k as u64)
}

/// `2^k` as a 64-bit value.
pub fn pow2_u64(k: u32) -> (p: u64)
    requires
        k < 64,
    ensures
        p == pow2(k as nat),
{
    proof {
        lemma2_to64();
        lemma2_to64_rest();
        if k < 63 {
            lemma_pow2_strictly_increases(k as nat, 63);
        }
    }
    shift_left(1, k)
}

/// The low `k` bits of `x`.
pub fn low_bits(x: u64, k: u32) -> (r: u64)
    requires
        k < 64,
    ensures
        r == x as nat % pow2(k as nat),
{
    proof {
        lemma_pow2_pos(k as nat);
    }
    x % pow2_u64(k)
}

/// `2^k` as a 32-bit value.
pub fn pow2_u32(k: u32) -> (p: u32)
    requires
        k < 32,
    ensures
        p == pow2(k as nat),
{
    proof {
        lemma2_to64();
        lemma2_to64_rest();
        if k < 31 {
            lemma_pow2_strictly_increases(k as nat, 31);
        }
    }
    pow2_u64(k) as u32
}

/// The value that 32-bit two's complement keeps of `x`.
pub open spec fn wrap32(x: int) -> int {
    let m = x % 0x1_0000_0000;
    if m >= 0x8000_0000 {
        m - 0x1_0000_0000
    } else {
        m
    }
}

/// The value that 16-bit two's complement keeps of `x`.
pub open spec fn wrap16(x: int) -> int {
    let m = x % 0x1_0000;
    if m >= 0x8000 {
        m - 0x1_0000
    } else {
        m
    }
}

/// Wrapping does not see multiples of `2^32`.
pub proof fn lemma_wrap32_shift(x: int, k: int)
    ensures
        wrap32(x + 0x1_0000_0000 * k) == wrap32(x),
{
    lemma_mod_multiples_vanish(k, x, 0x1_0000_0000);
}

/// How many multiples of `2^32` wrapping takes off.
spec fn wraps(x: int) -> int {
    if x % 0x1_0000_0000 >= 0x8000_0000 {
        x / 0x1_0000_0000 + 1
    } else {
        x / 0x1_0000_0000
    }
}

proof fn lemma_wraps(x: int)
    ensures
        wrap32(x) == x - 0x1_0000_0000 * wraps(x),
{
    lemma_fundamental_div_mod(x, 0x1_0000_0000);
}

/// Wrapping early or late makes no difference to a sum.
pub proof fn lemma_wrap32_add(x: int, y: int)
    ensures
        wrap32(wrap32(x) + y) == wrap32(x + y),
        wrap32(x + wrap32(y)) == wrap32(x + y),
        wrap32(x - wrap32(y)) == wrap32(x - y),
        wrap32(wrap32(x) - y) == wrap32(x - y),
{
    lemma_wraps(x);
    lemma_wraps(y);
    lemma_wrap32_shift(x + y, -wraps(x));
    lemma_wrap32_shift(x + y, -wraps(y));
    lemma_wrap32_shift(x - y, wraps(y));
    lemma_wrap32_shift(x - y, -wraps(x));
}

/// The low 32 bits of `x` as a signed value.
pub fn wrap_to_i32(x: i64) -> (r: i32)
    ensures
        r == wrap32(x as int),
{
    let m: u64 = if x >= 0 {
        x as u64 % 0x1_0000_0000
    } else {
        0xffff_ffff - (-(x + 1)) as u64 % 0x1_0000_0000
    };
    if m >= 0x8000_0000 {
        (m as i64 - 0x1_0000_0000) as i32
    } else {
        m as i32
    }
}

/// The low 16 bits of `x` as a signed value.
pub fn wrap_to_i16(x: i32) -> (r: i32)
    ensures
        r == wrap16(x as int),
        -0x8000 <= r < 0x8000,
{
    let m: u32 = if x >= 0 {
        x as u32 % 0x1_0000
    } else {
        0xffff - (-(x + 1)) as u32 % 0x1_0000
    };
    if m >= 0x8000 {
        m as i32 - 0x1_0000
    } else {
        m as i32
    }
}

/// `a / 2^k`, rounded down.
pub fn floor_shift(a: i64, k: u32) -> (r: i64)
    requires
        k < 63,
    ensures
        r == a as int / pow2(k as nat) as int,
        a >= 0 ==> 0 <= r <= a,
        a < 0 ==> a <= r < 0,
{
    proof {
        lemma_pow2_pos(k as nat);
    }
    if a >= 0 {
        let q: u64 = shift_right(a as u64, k);
        proof {
            lemma_div_is_ordered_by_denominator(a as int, 1, pow2(k as nat) as int);
        }
        q as i64
    } else {
        let n: u64 = (-(a + 1)) as u64;
        let q: u64 = shift_right(n, k);
        proof {
            let p = pow2(k as nat) as int;
            lemma_div_is_ordered_by_denominator(n as int, 1, p);
            lemma_fundamental_div_mod(n as int, p);
            lemma_mod_bound(n as int, p);
            let quot = -(q as int) - 1;
            let rem = p - 1 - n as int % p;
            assert(a == quot * p + rem) by (nonlinear_arith)
                requires
                    n as int == p * q as int + n as int % p,
                    a == -(n as int) - 1,
                    quot == -(q as int) - 1,
                    rem == p - 1 - n as int % p,
            ;
            lemma_fundamental_div_mod_converse(a as int, p, quot, rem);
        }
        -(q as i64) - 1
    }
}

/// Wrapping keeps what a signed number of 32 bits, or 16, holds, and else takes off
/// the multiple of its span that brings the value there.
pub proof fn law_wrapping_keeps_what_fits(x: int)
    ensures
        -0x8000_0000 <= wrap32(x) < 0x8000_0000,
        (wrap32(x) - x) % 0x1_0000_0000 == 0,
        -0x8000_0000 <= x < 0x8000_0000 ==> wrap32(x) == x,
        -0x8000 <= wrap16(x) < 0x8000,
        (wrap16(x) - x) % 0x1_0000 == 0,
        -0x8000 <= x < 0x8000 ==> wrap16(x) == x,
{
    lemma_fundamental_div_mod(x, 0x1_0000_0000);
    lemma_fundamental_div_mod(x, 0x1_0000);
    let (q, p) = (x / 0x1_0000_0000, x / 0x1_0000);
    lemma_mod_multiples_basic(-q, 0x1_0000_0000);
    lemma_mod_multiples_basic(-q - 1, 0x1_0000_0000);
    lemma_mod_multiples_basic(-p, 0x1_0000);
    lemma_mod_multiples_basic(-p - 1, 0x1_0000);
    if x % 0x1_0000_0000 >= 0x8000_0000 {
        assert(wrap32(x) - x == (-q - 1) * 0x1_0000_0000);
    } else {
        assert(wrap32(x) - x == (-q) * 0x1_0000_0000);
    }
    if x % 0x1_0000 >= 0x8000 {
        assert(wrap16(x) - x == (-p - 1) * 0x1_0000);
    } else {
        assert(wrap16(x) - x == (-p) * 0x1_0000);
    }
}

/// The bits of a number are as many as its highest set one needs.
pub proof fn law_bit_length_spans_the_number(v: nat)
    ensures
        v == 0 ==> bitlen(v) == 0,
        v > 0 ==> pow2((bitlen(v) - 1) as nat) <= v < pow2(bitlen(v)),
{
    if v > 0 {
        lemma_bitlen_bounds(v);
    }
}

} // verus!

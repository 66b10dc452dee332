//! Facts about the 64-bit working register of the encoder.
//!
//! While digits remain to be written, the register holds the `j` pending
//! base-32 digits in its top `5 * j` bits, followed by a single stop bit at
//! position `60 - 5 * j`. Once every digit is out, only the stop bit, at
//! position 60, is left.
use crate::digits::{digits, lemma_digits_padded, lemma_padded_split, padded};
use vstd::arithmetic::div_mod::lemma_fundamental_div_mod_converse;
use vstd::arithmetic::power2::{
    lemma2_to64, lemma2_to64_rest, lemma_pow2_adds, lemma_pow2_pos, lemma_pow2_strictly_increases,
    pow2,
};
use vstd::bits::{lemma_u64_shl_is_mul, lemma_u64_shr_is_div};
use vstd::prelude::*;
use vstd::std_specs::bits::{axiom_u64_leading_zeros, u64_leading_zeros};

verus! {

/// The register value when `r` is made of `j` pending digits.
pub open spec fn register(r: nat, j: nat) -> nat {
    r * pow2((64 - 5 * j) as nat) + pow2((60 - 5 * j) as nat)
}

/// The register value once every digit is out.
pub const STOP_BIT: u64 = 0x1000_0000_0000_0000;

/// With no digit pending, the register is the stop bit.
pub proof fn lemma_register_empty(r: nat)
    requires
        r < pow2(0),
    ensures
        register(r, 0) == STOP_BIT,
{
    lemma2_to64();
    lemma2_to64_rest();
    assert(r == 0);
    assert(r * pow2(64) == 0);
}

/// Taking the top five bits of the register yields the first pending digit,
/// and shifting left by five leaves the rest.
pub proof fn lemma_register_step(n: u64, r: nat, j: nat)
    requires
        1 <= j <= 12,
        r < pow2(5 * j),
        n == register(r, j),
    ensures
        n != STOP_BIT,
        (n >> 59u64) == r / pow2(5 * (j - 1) as nat),
        r / pow2(5 * (j - 1) as nat) < 32,
        (n << 5u64) == register(r % pow2(5 * (j - 1) as nat), (j - 1) as nat),
        r % pow2(5 * (j - 1) as nat) < pow2(5 * (j - 1) as nat),
{
    lemma2_to64();
    lemma2_to64_rest();
    let p = pow2(5 * (j - 1) as nat);
    let big_q = pow2((64 - 5 * j) as nat);
    let small_q = pow2((60 - 5 * j) as nat);
    let t = r / p;
    let rest = r % p;
    lemma_pow2_pos(5 * (j - 1) as nat);
    lemma_pow2_pos((64 - 5 * j) as nat);
    lemma_pow2_pos((60 - 5 * j) as nat);
    lemma_pow2_adds(5 * (j - 1) as nat, (64 - 5 * j) as nat);
    assert(5 * (j - 1) as nat + (64 - 5 * j) as nat == 59);
    lemma_pow2_adds(5 * (j - 1) as nat, 5);
    assert(5 * (j - 1) as nat + 5 == 5 * j);
    lemma_pow2_strictly_increases((60 - 5 * j) as nat, (64 - 5 * j) as nat);
    lemma_pow2_adds((64 - 5 * j) as nat, 5);
    lemma_pow2_adds((60 - 5 * j) as nat, 5);
    assert((64 - 5 * j) as nat + 5 == (64 - 5 * (j - 1) as nat) as nat);
    assert((60 - 5 * j) as nat + 5 == (60 - 5 * (j - 1) as nat) as nat);
    vstd::arithmetic::div_mod::lemma_fundamental_div_mod(r as int, p as int);
    let low = rest * big_q + small_q;
    assert(t < 32 && low < pow2(59) && n == t * pow2(59) + low) by (nonlinear_arith)
        requires
            r == p * t + rest,
            0 <= rest < p,
            r < p * 32,
            p * big_q == pow2(59),
            small_q < big_q,
            n == r * big_q + small_q,
            low == rest * big_q + small_q,
            t >= 0,
    {
    }
    lemma_fundamental_div_mod_converse(n as int, pow2(59) as int, t as int, low as int);
    lemma_u64_shr_is_div(n, 59);
    assert((n << 5u64) == (n % 0x800_0000_0000_0000u64) * 32) by (bit_vector);
    assert(low * 32 == rest * pow2((64 - 5 * (j - 1) as nat) as nat) + pow2(
        (60 - 5 * (j - 1) as nat) as nat,
    )) by (nonlinear_arith)
        requires
            low == rest * big_q + small_q,
            big_q * 32 == pow2((64 - 5 * (j - 1) as nat) as nat),
            small_q * 32 == pow2((60 - 5 * (j - 1) as nat) as nat),
    {
    }
    // the stop bit sits below the pending digits, so the register is not yet the stop bit
    lemma_pow2_adds((64 - 5 * j) as nat, (5 * j - 4) as nat);
    assert((64 - 5 * j) as nat + (5 * j - 4) as nat == 60);
    if n == STOP_BIT {
        lemma_fundamental_div_mod_converse(n as int, big_q as int, r as int, small_q as int);
        lemma_fundamental_div_mod_converse(
            n as int,
            big_q as int,
            pow2((5 * j - 4) as nat) as int,
            0,
        );
    }
}

/// The register after the first step when the value's top four bits are not all zero:
/// those four bits are the first digit and twelve digits remain.
pub proof fn lemma_register_top(v: u64)
    requires
        (v >> 60u64) != 0,
    ensures
        (v >> 60u64) == (v as nat) / pow2(60),
        ((v << 4u64) | 1) == register((v as nat) % pow2(60), 12),
        (v as nat) % pow2(60) < pow2(60),
        digits(v as nat) == seq![(v >> 60u64) as u8] + padded((v as nat) % pow2(60), 12),
{
    lemma2_to64();
    lemma2_to64_rest();
    lemma_u64_shr_is_div(v, 60);
    assert(((v << 4u64) | 1) == (v % 0x1000_0000_0000_0000u64) * 16 + 1) by (bit_vector);
    assert(v < pow2(65)) by {
        lemma_pow2_strictly_increases(64, 65);
    }
    lemma_digits_padded(v as nat, 13);
    lemma_padded_split(v as nat, 13);
}

/// The register after the first step when the value's top four bits are zero:
/// the leading zero digits are dropped by a shift of a multiple of five bits.
pub proof fn lemma_register_skip(v: u64, n: u64, lz: u64)
    requires
        (v >> 60u64) == 0,
        v != 0,
        n == ((v << 4u64) | 1),
        lz == u64_leading_zeros(n),
    ensures
        lz / 5 <= 11,
        (n << ((lz / 5 * 5) as u64)) == register(v as nat, (12 - lz / 5) as nat),
        v < pow2(5 * (12 - lz / 5) as nat),
        digits(v as nat) == padded(v as nat, (12 - lz / 5) as nat),
{
    lemma2_to64();
    lemma2_to64_rest();
    assert(n == v * 16 + 1 && v < 0x1000_0000_0000_0000u64) by (bit_vector)
        requires
            (v >> 60u64) == 0,
            n == ((v << 4u64) | 1),
    ;
    axiom_u64_leading_zeros(n);
    assert(lz < 64);
    let top = (63 - lz) as u64;
    assert((n >> top) != 0) by (bit_vector)
        requires
            ((n >> top) & 1u64) != 0u64,
    ;
    lemma_u64_shr_is_div(n, top);
    assert(n >= pow2(top as nat)) by {
        if n < pow2(top as nat) {
            vstd::arithmetic::div_mod::lemma_basic_div(n as int, pow2(top as nat) as int);
        }
    }
    let above = (64 - lz) as u64;
    assert(n < pow2(above as nat)) by {
        if lz > 0 {
            lemma_u64_shr_is_div(n, above);
            lemma_pow2_pos(above as nat);
            vstd::arithmetic::div_mod::lemma_fundamental_div_mod(
                n as int,
                pow2(above as nat) as int,
            );
        }
    }
    // at most 59 leading zeros, since the value is not zero
    if lz > 59 {
        if above < 4 {
            lemma_pow2_strictly_increases(above as nat, 4);
        }
        assert(false);
    }
    let g = lz / 5;
    let j = (12 - g) as nat;
    // bounds on the value
    lemma_pow2_adds(4, (60 - lz) as nat);
    lemma_pow2_adds(4, (59 - lz) as nat);
    assert(v < pow2((60 - lz) as nat) && v >= pow2((59 - lz) as nat)) by (nonlinear_arith)
        requires
            n == v * 16 + 1,
            n < pow2(above as nat),
            n >= pow2(top as nat),
            pow2(above as nat) == 16 * pow2((60 - lz) as nat),
            pow2(top as nat) == 16 * pow2((59 - lz) as nat),
            pow2((59 - lz) as nat) >= 1,
    {
    }
    if 5 * j < 60 - lz {
        assert(false);
    } else if 5 * j > 60 - lz {
        lemma_pow2_strictly_increases((60 - lz) as nat, 5 * j);
    }
    if j > 1 {
        if ((5 * (j - 1)) as nat) < 59 - lz {
            lemma_pow2_strictly_increases(5 * (j - 1) as nat, (59 - lz) as nat);
        }
    }
    lemma_digits_padded(v as nat, j);
    // the shift does not overflow
    let s = (g * 5) as u64;
    lemma_pow2_adds(above as nat, s as nat);
    if s < lz {
        lemma_pow2_strictly_increases((above + s) as nat, 64);
    }
    assert(n * pow2(s as nat) <= u64::MAX) by (nonlinear_arith)
        requires
            n < pow2(above as nat),
            pow2(above as nat) * pow2(s as nat) <= pow2(64),
            pow2(64) == u64::MAX + 1,
            pow2(s as nat) >= 1,
    {
        lemma_pow2_pos(s as nat);
    }
    lemma_u64_shl_is_mul(n, s);
    lemma_pow2_adds(4, s as nat);
    assert((64 - 5 * j) as nat == 4 + s);
    assert((60 - 5 * j) as nat == s);
    assert(n * pow2(s as nat) == v * pow2(4 + s as nat) + pow2(s as nat)) by (nonlinear_arith)
        requires
            n == v * 16 + 1,
            pow2(4 + s as nat) == 16 * pow2(s as nat),
    {
    }
}

} // verus!

use vstd::arithmetic::div_mod::{
    lemma_breakdown, lemma_div_denominator, lemma_fundamental_div_mod,
    lemma_fundamental_div_mod_converse,
};
use vstd::arithmetic::mul::lemma_mul_strict_inequality;
use vstd::arithmetic::power2::{
    lemma2_to64, lemma_pow2_adds, lemma_pow2_pos, lemma_pow2_strictly_increases, pow2,
};
use vstd::prelude::*;

verus! {

/// The base-32 digits of `v`, most significant first, with no leading zero
/// (zero itself is the single digit 0).
pub open spec fn digits(v: nat) -> Seq<u8>
    decreases v,
{
    if v < 32 {
        seq![v as u8]
    } else {
        digits(v / 32).push((v % 32) as u8)
    }
}

/// The number written by base-32 digits, most significant first.
pub open spec fn value_of(ds: Seq<u8>) -> nat
    decreases ds.len(),
{
    if ds.len() == 0 {
        0
    } else {
        value_of(ds.drop_last()) * 32 + ds.last() as nat
    }
}

/// The last `j` base-32 digits of `r`, leading zeros kept.
pub open spec fn padded(r: nat, j: nat) -> Seq<u8>
    decreases j,
{
    if j == 0 {
        seq![]
    } else {
        padded(r / 32, (j - 1) as nat).push((r % 32) as u8)
    }
}

pub proof fn lemma_padded_len(r: nat, j: nat)
    ensures
        padded(r, j).len() == j,
    decreases j,
{
    if j > 0 {
        lemma_padded_len(r / 32, (j - 1) as nat);
    }
}

/// Every digit of `ds` is below 32.
pub open spec fn all_digits(ds: Seq<u8>) -> bool {
    forall|i: int| 0 <= i < ds.len() ==> ds[i] < 32
}

pub proof fn lemma_value_of_push(ds: Seq<u8>, d: u8)
    ensures
        value_of(ds.push(d)) == value_of(ds) * 32 + d,
{
    assert(ds.push(d).drop_last() =~= ds);
}

/// The digits of `v` are digits, and write `v`.
pub proof fn lemma_digits_value(v: nat)
    ensures
        value_of(digits(v)) == v,
        all_digits(digits(v)),
    decreases v,
{
    if v < 32 {
        assert(seq![v as u8].drop_last() =~= Seq::<u8>::empty());
        assert(value_of(Seq::<u8>::empty()) == 0);
        assert(value_of(seq![v as u8]) == value_of(Seq::<u8>::empty()) * 32 + v);
    } else {
        lemma_digits_value(v / 32);
        lemma_value_of_push(digits(v / 32), (v % 32) as u8);
        lemma_fundamental_div_mod(v as int, 32);
        assert(((v % 32) as u8) as nat == v % 32);
        assert(value_of(digits(v)) == (v / 32) * 32 + v % 32);
    }
}

/// `digits(v)` has the fewest base-32 digits that can hold `v`, and no leading zero.
pub proof fn lemma_digits_len(v: nat)
    ensures
        digits(v).len() >= 1,
        v < pow2(5 * digits(v).len()),
        digits(v).len() > 1 ==> v >= pow2(5 * (digits(v).len() - 1) as nat),
        v > 0 ==> digits(v)[0] != 0,
    decreases v,
{
    lemma2_to64();
    if v >= 32 {
        let k = digits(v / 32).len();
        lemma_digits_len(v / 32);
        lemma_pow2_adds(5 * k, 5);
        assert(5 * digits(v).len() == 5 * k + 5);
        if k > 1 {
            lemma_pow2_adds(5 * (k - 1) as nat, 5);
            assert(5 * (k - 1) as nat + 5 == 5 * k);
        }
        assert(v >= pow2(5 * k)) by (nonlinear_arith)
            requires
                v / 32 >= 1 ==> v >= 32,
                k > 1 ==> v / 32 >= pow2(5 * (k - 1) as nat),
                k > 1 ==> pow2(5 * k) == pow2(5 * (k - 1) as nat) * 32,
                k == 1 ==> pow2(5 * k) == 32,
                v >= 32,
                k >= 1,
        {
        }
        assert(v < pow2(5 * k + 5)) by (nonlinear_arith)
            requires
                v / 32 < pow2(5 * k),
                pow2(5 * k + 5) == pow2(5 * k) * 32,
        {
        }
        assert(digits(v)[0] == digits(v / 32)[0]);
    }
}

/// The digits of a number with exactly `j` significant base-32 digits.
pub proof fn lemma_digits_padded(v: nat, j: nat)
    requires
        j >= 1,
        v < pow2(5 * j),
        j > 1 ==> v >= pow2(5 * (j - 1) as nat),
    ensures
        digits(v) == padded(v, j),
    decreases j,
{
    lemma2_to64();
    if j == 1 {
        assert(v < 32);
        assert(padded(v / 32, 0) =~= Seq::<u8>::empty());
        assert(padded(v, 1) =~= seq![v as u8]);
    } else {
        let p = pow2(5 * (j - 1) as nat);
        lemma_pow2_adds(5 * (j - 1) as nat, 5);
        assert(5 * (j - 1) as nat + 5 == 5 * j);
        lemma_pow2_pos(5 * (j - 1) as nat);
        lemma_fundamental_div_mod(v as int, 32);
        if j > 2 {
            lemma_pow2_strictly_increases(5, 5 * (j - 1) as nat);
        }
        assert(v / 32 < p && v >= 32) by (nonlinear_arith)
            requires
                v < p * 32,
                v >= p,
                p >= 32,
                v == 32 * (v / 32) + v % 32,
                v % 32 >= 0,
        {
        }
        if j > 2 {
            lemma_pow2_adds(5 * (j - 2) as nat, 5);
            assert(5 * (j - 2) as nat + 5 == 5 * (j - 1) as nat);
            assert(v / 32 >= pow2(5 * (j - 2) as nat)) by (nonlinear_arith)
                requires
                    v >= pow2(5 * (j - 2) as nat) * 32,
                    v == 32 * (v / 32) + v % 32,
                    v % 32 < 32,
            {
            }
        }
        lemma_digits_padded(v / 32, (j - 1) as nat);
    }
}

/// The first of `j` padded digits, and the rest.
pub proof fn lemma_padded_split(r: nat, j: nat)
    requires
        j >= 1,
        r < pow2(5 * j),
    ensures
        padded(r, j) == seq![(r / pow2(5 * (j - 1) as nat)) as u8] + padded(
            r % pow2(5 * (j - 1) as nat),
            (j - 1) as nat,
        ),
    decreases j,
{
    lemma2_to64();
    let p = pow2(5 * (j - 1) as nat);
    if j == 1 {
        assert(r < 32);
        assert(padded(r / 32, 0) =~= Seq::<u8>::empty());
        assert(padded(r % 1, 0) =~= Seq::<u8>::empty());
        assert(p == 1);
        assert(r / p == r && r % p == 0);
        assert(padded(r, 1) =~= seq![r as u8]);
        assert(seq![r as u8] + Seq::<u8>::empty() =~= seq![r as u8]);
    } else {
        let q = pow2(5 * (j - 2) as nat);
        lemma_pow2_adds(5 * (j - 2) as nat, 5);
        assert(5 * (j - 2) as nat + 5 == 5 * (j - 1) as nat);
        lemma_pow2_adds(5 * (j - 1) as nat, 5);
        assert(5 * (j - 1) as nat + 5 == 5 * j);
        lemma_pow2_pos(5 * (j - 2) as nat);
        assert(p == 32 * q);
        lemma_fundamental_div_mod(r as int, 32);
        assert(r / 32 < p) by (nonlinear_arith)
            requires
                r < p * 32,
                p >= 1,
                r == 32 * (r / 32) + r % 32,
                r % 32 >= 0,
        {
        }
        lemma_padded_split(r / 32, (j - 1) as nat);
        lemma_div_denominator(r as int, 32, q as int);
        lemma_breakdown(r as int, 32, q as int);
        let m = r % p;
        assert(m / 32 == (r / 32) % q) by {
            lemma_fundamental_div_mod(m as int, 32);
            lemma_fundamental_div_mod_converse(m as int, 32, ((r / 32) % q) as int, (r % 32) as int);
        }
        assert(m % 32 == r % 32) by {
            lemma_fundamental_div_mod_converse(m as int, 32, ((r / 32) % q) as int, (r % 32) as int);
        }
        assert((r / 32) / q == r / p);
        assert(padded(m, (j - 1) as nat) == padded((r / 32) % q, (j - 2) as nat).push((r % 32) as u8));
        let tail = padded((r / 32) % q, (j - 2) as nat);
        assert(padded(r, j) == (seq![(r / p) as u8] + tail).push((r % 32) as u8));
        assert(padded(r, j) =~= seq![(r / p) as u8] + padded(m, (j - 1) as nat));
    }
}

} // verus!

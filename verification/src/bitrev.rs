//! Bit reflection: reversing the order of the lowest `n` bits of a word.

use vstd::prelude::*;
use vstd::arithmetic::power2::pow2;
use vstd::arithmetic::power2::lemma_pow2_unfold;
use vstd::arithmetic::power2::lemma_pow2_strictly_increases;
use vstd::arithmetic::power2::lemma2_to64;
use vstd::arithmetic::power2::lemma2_to64_rest;
use vstd::bits::lemma_u64_pow2_no_overflow;
use vstd::bits::lemma_u64_shl_is_mul;
use vstd::bits::lemma_u64_shr_is_div;

verus! {

/// Bit `i` of `v`: 1 when set, 0 when clear.
pub open spec fn bit_at(v: u64, i: nat) -> nat {
    (((v >> (i as u64)) & 1) as nat)
}

/// The lowest `n` bits of `v` in reverse order: bit 0 of `v` becomes bit
/// `n - 1` of the result, bit `n - 1` becomes bit 0; all higher bits of the
/// result are zero, and bits of `v` at positions `n` and above are ignored.
pub open spec fn reflect_spec(v: u64, n: nat) -> nat
    decreases n,
{
    if n == 0 {
        0
    } else {
        2 * reflect_spec(v, (n - 1) as nat) + bit_at(v, (n - 1) as nat)
    }
}

/// A bit is 0 or 1.
pub proof fn lemma_bit_at_le_1(v: u64, i: nat)
    requires
        i < 64,
    ensures
        bit_at(v, i) <= 1,
{
    let iu = i as u64;
    assert((v >> iu) & 1 <= 1) by (bit_vector);
}

/// The reflection of `n` bits fits in `n` bits.
pub proof fn lemma_reflect_bound(v: u64, n: nat)
    requires
        n <= 64,
    ensures
        reflect_spec(v, n) < pow2(n),
    decreases n,
{
    if n == 0 {
        lemma2_to64();
    } else {
        lemma_reflect_bound(v, (n - 1) as nat);
        lemma_bit_at_le_1(v, (n - 1) as nat);
        lemma_pow2_unfold(n);
    }
}

/// Peeling the low bit: reflecting `n` bits of `v` puts bit 0 of `v` at the
/// top position and the reflection of `v >> 1` over `n - 1` bits below it.
pub proof fn lemma_reflect_shift(v: u64, n: nat)
    requires
        1 <= n <= 64,
    ensures
        reflect_spec(v, n) == bit_at(v, 0) * pow2((n - 1) as nat) + reflect_spec(
            v >> 1,
            (n - 1) as nat,
        ),
    decreases n,
{
    if n == 1 {
        lemma2_to64();
        assert(reflect_spec(v, 0) == 0);
        assert(reflect_spec(v >> 1, 0) == 0);
        assert(reflect_spec(v, 1) == 2 * reflect_spec(v, 0) + bit_at(v, 0));
    } else {
        let m = (n - 1) as nat;
        let mm = (m - 1) as nat;
        lemma_reflect_shift(v, m);
        let mu = m as u64;
        assert((v >> mu) & 1 == ((v >> 1) >> ((mu - 1) as u64)) & 1) by (bit_vector)
            requires
                1 <= mu <= 63,
        ;
        assert(bit_at(v, m) == bit_at(v >> 1, mm));
        lemma_pow2_unfold(m);
        assert(reflect_spec(v, n) == 2 * reflect_spec(v, m) + bit_at(v, m));
        assert(reflect_spec(v >> 1, m) == 2 * reflect_spec(v >> 1, mm) + bit_at(v >> 1, mm));
        assert(2 * (bit_at(v, 0) * pow2(mm)) == bit_at(v, 0) * pow2(m)) by (nonlinear_arith)
            requires
                pow2(m) == 2 * pow2(mm),
        ;
    }
}

/// The reflection over `n` bits depends only on the lowest `n` bits.
pub proof fn lemma_reflect_eq_on_bits(a: u64, b: u64, n: nat)
    requires
        n <= 64,
        forall|i: nat| i < n ==> bit_at(a, i) == bit_at(b, i),
    ensures
        reflect_spec(a, n) == reflect_spec(b, n),
    decreases n,
{
    if n > 0 {
        lemma_reflect_eq_on_bits(a, b, (n - 1) as nat);
        assert(bit_at(a, (n - 1) as nat) == bit_at(b, (n - 1) as nat));
    }
}

/// Law: reflection is an involution. For any `v` that fits in `n` bits,
/// reflecting the lowest `n` bits twice gives back `v`.
pub proof fn lemma_reflect_involution(v: u64, n: nat)
    requires
        n <= 64,
        v < pow2(n),
    ensures
        reflect_spec(reflect_spec(v, n) as u64, n) == v,
    decreases n,
{
    lemma2_to64();
    lemma2_to64_rest();
    if n == 0 {
        assert(v == 0);
    } else {
        let m = (n - 1) as nat;
        let r: nat = reflect_spec(v, n);
        lemma_reflect_bound(v, n);
        if n < 64 {
            lemma_pow2_strictly_increases(n, 64);
        }
        let ru: u64 = r as u64;
        lemma_reflect_shift(v, n);
        let s: nat = reflect_spec(v >> 1, m);
        lemma_reflect_bound(v >> 1, m);
        let b0: nat = bit_at(v, 0);
        lemma_bit_at_le_1(v, 0);
        let su: u64 = s as u64;
        let bu: u64 = b0 as u64;
        let mu: u64 = m as u64;
        lemma_u64_pow2_no_overflow(m);
        lemma_u64_shl_is_mul(1u64, mu);
        assert(1u64 << mu == pow2(m));
        lemma_u64_shl_is_mul(bu, mu);
        assert(bu << mu == bu * pow2(m));
        assert(ru == su + (bu << mu));
        assert((ru >> mu) & 1 == bu) by (bit_vector)
            requires
                ru == su + (bu << mu),
                su < (1u64 << mu),
                bu <= 1,
                mu <= 63,
        ;
        assert(bit_at(ru, m) == b0);
        assert forall|i: nat| i < m implies bit_at(ru, i) == bit_at(su, i) by {
            let iu = i as u64;
            assert((ru >> iu) & 1 == (su >> iu) & 1) by (bit_vector)
                requires
                    ru == su + (bu << mu),
                    su < (1u64 << mu),
                    bu <= 1,
                    mu <= 63,
                    iu < mu,
            ;
        }
        lemma_reflect_eq_on_bits(ru, su, m);
        lemma_u64_shr_is_div(v, 1);
        lemma_pow2_unfold(n);
        assert((v >> 1) < pow2(m));
        lemma_reflect_involution(v >> 1, m);
        assert(reflect_spec(ru, n) == 2 * (v >> 1) + b0);
        assert(2 * (v >> 1u64) + ((v >> 0u64) & 1) == v) by (bit_vector);
    }
}

/// Reverses the order of the lowest `n_bits` bits of `value`; all higher bits
/// of the result are zero.
pub fn reflect(value: u64, n_bits: u64) -> (r: u64)
    requires
        n_bits <= 64,
    ensures
        r == reflect_spec(value, n_bits as nat),
        r < pow2(n_bits as nat),
{
    proof {
        lemma2_to64();
    }
    let mut r: u64 = 0;
    let mut i: u64 = 0;
    while i < n_bits
        invariant
            i <= n_bits,
            n_bits <= 64,
            r == reflect_spec(value, i as nat),
            r < pow2(i as nat),
        decreases n_bits - i,
    {
        proof {
            if i < 63 {
                lemma_pow2_strictly_increases(i as nat, 63);
            }
            lemma2_to64_rest();
            assert(r < pow2(63));
        }
        let b: u64 = (value >> i) & 1;
        proof {
            assert((value >> i) & 1 <= 1) by (bit_vector);
        }
        let r0: Ghost<u64> = Ghost(r);
        r = (r << 1) | b;
        proof {
            assert((r0@ << 1) | b == 2 * r0@ + b) by (bit_vector)
                requires
                    r0@ < 0x8000000000000000u64,
                    b <= 1,
            ;
            assert(b == bit_at(value, i as nat));
            lemma_pow2_unfold((i + 1) as nat);
        }
        i = i + 1;
    }
    r
}

} // verus!

use vstd::prelude::*;
use vstd::arithmetic::div_mod::{lemma_div_denominator, lemma_fundamental_div_mod_converse};
use vstd::arithmetic::power::{lemma_pow0, lemma_pow1, lemma_pow_adds, lemma_pow_positive, pow};
use vstd::arithmetic::power2::{lemma2_to64, lemma_pow2_strictly_increases};
use vstd::bits::lemma_u64_shl_is_mul;

verus! {

/// The limb base: numbers are held as base-`2^32` digits, most significant first.
pub const LIMB: u128 = 0x1_0000_0000;

/// The value of the digits `s`, most significant first.
pub open spec fn limbs_val(s: Seq<u32>) -> nat
    decreases s.len(),
{
    if s.len() == 0 {
        0
    } else {
        (limbs_val(s.drop_last()) * 0x1_0000_0000 + s.last()) as nat
    }
}

proof fn lemma_val_push(s: Seq<u32>, x: u32)
    ensures
        limbs_val(s.push(x)) == limbs_val(s) * 0x1_0000_0000 + x,
{
    assert(s.push(x).drop_last() =~= s);
}

proof fn lemma_val_zero(s: Seq<u32>)
    ensures
        (limbs_val(s) == 0) == (forall|i: int| 0 <= i < s.len() ==> s[i] == 0),
    decreases s.len(),
{
    if s.len() > 0 {
        let t = s.drop_last();
        lemma_val_zero(t);
        if limbs_val(s) == 0 {
            assert(limbs_val(t) * 0x1_0000_0000 == 0 && s.last() == 0);
            assert(limbs_val(t) == 0) by (nonlinear_arith)
                requires
                    limbs_val(t) * 0x1_0000_0000 == 0,
            ;
            assert forall|i: int| 0 <= i < s.len() implies s[i] == 0 by {
                if i < s.len() - 1 {
                    assert(s[i] == t[i]);
                }
            };
        } else {
            if forall|i: int| 0 <= i < s.len() ==> s[i] == 0 {
                assert forall|i: int| 0 <= i < t.len() implies t[i] == 0 by {
                    assert(t[i] == s[i]);
                };
                assert(s.last() == s[s.len() - 1]);
            }
        }
    }
}

/// The digits of `2^bits - 1`.
pub fn all_ones(bits: u32) -> (r: Vec<u32>)
    ensures
        limbs_val(r@) + 1 == pow(2, bits as nat),
{
    let low: u32 = bits % 32;
    let lowb: u64 = low as u64;
    proof {
        lemma2_to64();
        lemma_pow_positive(2, low as nat);
        if low < 31 {
            lemma_pow2_strictly_increases(low as nat, 31);
        }
        lemma_u64_shl_is_mul(1, lowb);
    }
    let top: u64 = 1u64 << lowb;
    let mut r: Vec<u32> = Vec::new();
    r.push((top - 1) as u32);
    proof {
        lemma_val_push(Seq::empty(), (top - 1) as u32);
        assert(Seq::<u32>::empty().push((top - 1) as u32) =~= r@);
    }
    let q: u32 = bits / 32;
    let mut i: u32 = 0;
    while i < q
        invariant
            i <= q,
            q == bits / 32,
            low == bits % 32,
            limbs_val(r@) + 1 == pow(2, (low + 32 * i) as nat),
        decreases q - i,
    {
        proof {
            lemma_val_push(r@, 0xffff_ffff);
            lemma_pow_adds(2, (low + 32 * i) as nat, 32);
            lemma2_to64();
            lemma_pow_positive(2, 32);
            assert(pow(2, 32) == 0x1_0000_0000) by {
                assert(vstd::arithmetic::power2::pow2(32) == 0x1_0000_0000);
            };
            assert(limbs_val(r@.push(0xffff_ffff)) + 1 == (limbs_val(r@) + 1) * 0x1_0000_0000);
            assert((low + 32 * i) as nat + 32 == (low + 32 * (i + 1)) as nat);
        }
        r.push(0xffff_ffff);
        i += 1;
    }
    r
}

/// The digits of `a / d`, rounded down.
pub fn div_small(a: &Vec<u32>, d: u128) -> (q: Vec<u32>)
    requires
        1 <= d <= 0x2_0000_0000_0000_0000,
    ensures
        limbs_val(q@) as int == limbs_val(a@) as int / (d as int),
{
    let mut q: Vec<u32> = Vec::new();
    let mut rem: u128 = 0;
    let mut i: usize = 0;
    assert(limbs_val(a@.subrange(0, 0)) == 0);
    assert(limbs_val(q@) == 0);
    while i < a.len()
        invariant
            1 <= d <= 0x2_0000_0000_0000_0000,
            i <= a@.len(),
            rem < d,
            limbs_val(a@.subrange(0, i as int)) == limbs_val(q@) * d + rem,
        decreases a@.len() - i,
    {
        assert(rem * LIMB + (a[i as int] as u128) < d * LIMB) by (nonlinear_arith)
            requires
                rem < d,
                a[i as int] < LIMB,
                LIMB == 0x1_0000_0000,
        ;
        let cur: u128 = rem * LIMB + a[i] as u128;
        let digit: u128 = cur / d;
        let nrem: u128 = cur % d;
        proof {
            assert(cur == digit * d + nrem && nrem < d) by {
                vstd::arithmetic::div_mod::lemma_fundamental_div_mod(cur as int, d as int);
                vstd::arithmetic::div_mod::lemma_mod_pos_bound(cur as int, d as int);
            };
            assert(digit < LIMB) by (nonlinear_arith)
                requires
                    cur == digit * d + nrem,
                    cur < d * LIMB,
                    d >= 1,
            ;
            assert(a@.subrange(0, i + 1).drop_last() =~= a@.subrange(0, i as int));
            assert(limbs_val(a@.subrange(0, i + 1)) == limbs_val(a@.subrange(0, i as int)) * LIMB + a[i as int]);
            assert(limbs_val(a@.subrange(0, i + 1)) == (limbs_val(q@) * LIMB + digit) * d + nrem)
                by (nonlinear_arith)
                requires
                    limbs_val(a@.subrange(0, i + 1)) == limbs_val(a@.subrange(0, i as int)) * LIMB + a[i as int],
                    limbs_val(a@.subrange(0, i as int)) == limbs_val(q@) * d + rem,
                    cur == rem * LIMB + a[i as int],
                    cur == digit * d + nrem,
            ;
            lemma_val_push(q@, digit as u32);
        }
        if !(q.len() == 0 && digit == 0) {
            q.push(digit as u32);
        }
        rem = nrem;
        i += 1;
    }
    proof {
        assert(a@.subrange(0, a@.len() as int) =~= a@);
        lemma_fundamental_div_mod_converse(limbs_val(a@) as int, d as int, limbs_val(q@) as int, rem as int);
    }
    q
}

/// Whether the digits `a` stand for zero.
pub fn is_zero(a: &Vec<u32>) -> (r: bool)
    ensures
        r == (limbs_val(a@) == 0),
{
    proof {
        lemma_val_zero(a@);
    }
    let mut i: usize = 0;
    while i < a.len()
        invariant
            i <= a@.len(),
            (limbs_val(a@) == 0) == (forall|j: int| 0 <= j < a@.len() ==> a@[j] == 0),
            forall|j: int| 0 <= j < i ==> a@[j] == 0,
        decreases a@.len() - i,
    {
        if a[i] != 0 {
            return false;
        }
        i += 1;
    }
    true
}

/// Whether `2^e <= p1^c1 * p2^c2`, decided exactly: the product is at
/// least `2^e` exactly when `(2^e - 1) / (p1^c1 * p2^c2)`, rounded down, is 0.
pub fn pow2_at_most_product(e: u32, p1: u128, c1: u32, p2: u128, c2: u32) -> (r: bool)
    requires
        1 <= p1 <= 0x2_0000_0000_0000_0000,
        1 <= p2 <= 0x2_0000_0000_0000_0000,
    ensures
        r == (pow(2, e as nat) <= pow(p1 as int, c1 as nat) * pow(p2 as int, c2 as nat)),
{
    let mut m = all_ones(e);
    let ghost x: int = pow(2, e as nat) - 1;
    let mut j: u32 = 0;
    proof {
        lemma_pow_positive(2, e as nat);
        lemma_pow0(p1 as int);
    }
    while j < c1
        invariant
            1 <= p1 <= 0x2_0000_0000_0000_0000,
            j <= c1,
            x >= 0,
            limbs_val(m@) == x / pow(p1 as int, j as nat),
        decreases c1 - j,
    {
        proof {
            lemma_pow_positive(p1 as int, j as nat);
            lemma_div_denominator(x, pow(p1 as int, j as nat), p1 as int);
            lemma_pow_adds(p1 as int, j as nat, 1);
            lemma_pow1(p1 as int);
            assert(pow(p1 as int, (j + 1) as nat) == p1 * pow(p1 as int, j as nat));
            assert(pow(p1 as int, j as nat) * p1 == p1 * pow(p1 as int, j as nat)) by (nonlinear_arith);
        }
        m = div_small(&m, p1);
        j += 1;
    }
    let ghost a: int = pow(p1 as int, c1 as nat);
    proof {
        lemma_pow_positive(p1 as int, c1 as nat);
        lemma_pow0(p2 as int);
    }
    let mut i: u32 = 0;
    while i < c2
        invariant
            1 <= p2 <= 0x2_0000_0000_0000_0000,
            i <= c2,
            x >= 0,
            a > 0,
            limbs_val(m@) == x / (a * pow(p2 as int, i as nat)),
        decreases c2 - i,
    {
        proof {
            lemma_pow_positive(p2 as int, i as nat);
            assert(a * pow(p2 as int, i as nat) > 0) by (nonlinear_arith)
                requires
                    a > 0,
                    pow(p2 as int, i as nat) > 0,
            ;
            lemma_div_denominator(x, a * pow(p2 as int, i as nat), p2 as int);
            lemma_pow_adds(p2 as int, i as nat, 1);
            lemma_pow1(p2 as int);
            assert(pow(p2 as int, i as nat + 1) == pow(p2 as int, i as nat) * pow(p2 as int, 1));
            assert((i + 1) as nat == i as nat + 1);
            assert(pow(p2 as int, (i + 1) as nat) == p2 * pow(p2 as int, i as nat)) by (nonlinear_arith)
                requires
                    pow(p2 as int, (i + 1) as nat) == pow(p2 as int, i as nat) * p2,
            ;
            assert(a * pow(p2 as int, i as nat) * p2 == a * (p2 * pow(p2 as int, i as nat))) by (nonlinear_arith);
        }
        m = div_small(&m, p2);
        i += 1;
    }
    let z = is_zero(&m);
    proof {
        let p = a * pow(p2 as int, c2 as nat);
        lemma_pow_positive(p2 as int, c2 as nat);
        assert(p > 0) by (nonlinear_arith)
            requires
                a > 0,
                pow(p2 as int, c2 as nat) > 0,
                p == a * pow(p2 as int, c2 as nat),
        ;
        if x < p {
            lemma_fundamental_div_mod_converse(x, p, 0, x);
        } else {
            assert(x / p >= 1) by {
                vstd::arithmetic::div_mod::lemma_div_is_ordered(p, x, p);
                vstd::arithmetic::div_mod::lemma_div_by_self(p);
            };
        }
    }
    z
}

} // verus!

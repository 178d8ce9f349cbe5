//! Natural numbers of any size, as 64-bit limbs, the lowest first.

use crate::double::rounding::power_of_two;
use vstd::arithmetic::power2::*;
use vstd::prelude::*;

verus! {

/// Weight of a limb over the one below it.
pub open spec fn limb_weight() -> nat {
    0x1_0000_0000_0000_0000
}

/// The number that has these limbs, and `rest` above them.
pub open spec fn stacked(limbs: Seq<u64>, rest: nat) -> nat
    decreases limbs.len(),
{
    if limbs.len() == 0 {
        rest
    } else {
        limbs[0] as nat + limb_weight() * stacked(limbs.drop_first(), rest)
    }
}

/// The number that has these limbs.
pub open spec fn natural(limbs: Seq<u64>) -> nat {
    stacked(limbs, 0)
}

/// The number that the limbs from the `i`-th on have.
spec fn upper(limbs: Seq<u64>, i: int) -> nat {
    if i >= limbs.len() {
        0
    } else {
        natural(limbs.skip(i))
    }
}

/// The `i`-th limb, zero past the end.
spec fn limb(limbs: Seq<u64>, i: int) -> u64 {
    if i < limbs.len() {
        limbs[i]
    } else {
        0
    }
}

proof fn lemma_stacked_push(limbs: Seq<u64>, x: u64, rest: nat)
    ensures
        stacked(limbs.push(x), rest) == stacked(limbs, x as nat + limb_weight() * rest),
    decreases limbs.len(),
{
    reveal_with_fuel(stacked, 2);
    if limbs.len() > 0 {
        assert(limbs.push(x).drop_first() =~= limbs.drop_first().push(x));
        lemma_stacked_push(limbs.drop_first(), x, rest);
    } else {
        assert(limbs.push(x).drop_first() =~= Seq::<u64>::empty());
    }
}

proof fn lemma_upper(limbs: Seq<u64>, i: int)
    requires
        0 <= i,
    ensures
        upper(limbs, i) == limb(limbs, i) + limb_weight() * upper(limbs, i + 1),
{
    reveal_with_fuel(stacked, 2);
    if i < limbs.len() {
        assert(limbs.skip(i).drop_first() =~= limbs.skip(i + 1));
    }
}

/// Numbers compare as their upper parts do, where these differ.
proof fn lemma_upper_decides(a: Seq<u64>, b: Seq<u64>, i: int)
    requires
        0 <= i,
        upper(a, i) < upper(b, i),
    ensures
        natural(a) < natural(b),
    decreases i,
{
    if i > 0 {
        lemma_upper(a, i - 1);
        lemma_upper(b, i - 1);
        lemma_upper_decides(a, b, i - 1);
    } else {
        assert(a.skip(0) =~= a && b.skip(0) =~= b);
    }
}

fn limb_at(limbs: &Vec<u64>, i: usize) -> (r: u64)
    ensures
        r == limb(limbs@, i as int),
{
    if i < limbs.len() {
        limbs[i]
    } else {
        0
    }
}

/// Whether one number is at most another.
pub fn at_most(a: &Vec<u64>, b: &Vec<u64>) -> (r: bool)
    ensures
        r == (natural(a@) <= natural(b@)),
{
    let mut i: usize = if a.len() < b.len() {
        b.len()
    } else {
        a.len()
    };
    while i > 0
        invariant
            upper(a@, i as int) == upper(b@, i as int),
        decreases i,
    {
        i = i - 1;
        let x: u64 = limb_at(a, i);
        let y: u64 = limb_at(b, i);
        proof {
            lemma_upper(a@, i as int);
            lemma_upper(b@, i as int);
        }
        if x < y {
            proof {
                lemma_upper_decides(a@, b@, i as int);
            }
            return true;
        }
        if x > y {
            proof {
                lemma_upper_decides(b@, a@, i as int);
            }
            return false;
        }
    }
    proof {
        assert(a@.skip(0) =~= a@ && b@.skip(0) =~= b@);
    }
    true
}

/// A number times a factor, plus a summand.
pub fn scaled(limbs: &Vec<u64>, factor: u64, summand: u64) -> (r: Vec<u64>)
    ensures
        natural(r@) == natural(limbs@) * factor + summand,
{
    let mut r: Vec<u64> = Vec::new();
    let mut carry: u64 = summand;
    let mut i: usize = 0;
    proof {
        assert(limbs@.skip(0) =~= limbs@);
    }
    while i < limbs.len()
        invariant
            i <= limbs@.len(),
            stacked(r@, carry as nat + upper(limbs@, i as int) * factor as nat) == natural(limbs@)
                * factor + summand,
        decreases limbs@.len() - i,
    {
        let x: u64 = limbs[i];
        proof {
            assert(x * factor <= 0xffff_ffff_ffff_ffff * 0xffff_ffff_ffff_ffff)
                by (nonlinear_arith)
                requires
                    x <= 0xffff_ffff_ffff_ffff,
                    factor <= 0xffff_ffff_ffff_ffff,
            ;
        }
        let product: u128 = x as u128 * factor as u128 + carry as u128;
        let low: u64 = (product % 0x1_0000_0000_0000_0000) as u64;
        let high: u64 = (product / 0x1_0000_0000_0000_0000) as u64;
        proof {
            lemma_upper(limbs@, i as int);
            let above = upper(limbs@, i + 1);
            assert((x + limb_weight() * above) * factor == x * factor + limb_weight() * (above
                * factor)) by (nonlinear_arith);
            lemma_stacked_push(r@, low, high as nat + above * factor as nat);
        }
        r.push(low);
        carry = high;
        i = i + 1;
    }
    proof {
        assert(0 * factor == 0) by (nonlinear_arith);
        lemma_stacked_push(r@, carry, 0);
    }
    r.push(carry);
    r
}

/// A number times a power of two.
pub fn shifted(limbs: &Vec<u64>, by: u64) -> (r: Vec<u64>)
    ensures
        natural(r@) == natural(limbs@) * pow2(by as nat),
{
    let mut left: u64 = by;
    let mut r: Vec<u64> = scaled(limbs, 1, 0);
    proof {
        lemma2_to64();
        assert(natural(limbs@) * 1 == natural(limbs@)) by (nonlinear_arith);
        assert(natural(limbs@) * pow2(0) == natural(limbs@)) by (nonlinear_arith)
            requires
                pow2(0) == 1,
        ;
    }
    while left > 0
        invariant
            left <= by,
            natural(r@) == natural(limbs@) * pow2((by - left) as nat),
        decreases left,
    {
        let step: u64 = if left < 63 {
            left
        } else {
            63
        };
        proof {
            lemma2_to64_rest();
            if step < 63 {
                lemma_pow2_strictly_increases(step as nat, 63);
            }
        }
        let factor: u64 = power_of_two(step as u32) as u64;
        let ghost before = natural(r@);
        r = scaled(&r, factor, 0);
        proof {
            let done = (by - left) as nat;
            lemma_pow2_adds(done, step as nat);
            assert((natural(limbs@) * pow2(done)) * pow2(step as nat) == natural(limbs@) * (pow2(
                done,
            ) * pow2(step as nat))) by (nonlinear_arith);
        }
        left = left - step;
    }
    r
}

} // verus!

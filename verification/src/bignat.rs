//! Natural numbers of any size, as far as comparing powers needs them:
//! multiplication by a machine word and comparison.

use crate::arith::{lemma_pow_succ, lemma_split};
use vstd::arithmetic::power::{lemma_pow_increases, lemma_pow_positive, pow};
use vstd::prelude::*;

verus! {

/// The base of the limbs: 2 to the 64.
pub open spec fn base() -> int {
    0x1_0000_0000_0000_0000
}

/// The number that `limbs` spell in base 2^64, least significant limb first.
pub open spec fn value_of(limbs: Seq<u64>) -> int
    decreases limbs.len(),
{
    if limbs.len() == 0 {
        0
    } else {
        value_of(limbs.drop_last()) + limbs.last() * pow(base(), (limbs.len() - 1) as nat)
    }
}

/// No limb at the top is zero, so that a number has one spelling.
pub open spec fn canonical(limbs: Seq<u64>) -> bool {
    limbs.len() > 0 ==> limbs.last() != 0
}

/// `n` limbs spell a number below `base` to the `n`.
pub proof fn lemma_value_bounds(limbs: Seq<u64>)
    ensures
        0 <= value_of(limbs) < pow(base(), limbs.len()),
    decreases limbs.len(),
{
    reveal(pow);
    if limbs.len() > 0 {
        lemma_value_bounds(limbs.drop_last());
        let k = (limbs.len() - 1) as nat;
        let unit = pow(base(), k);
        let top = limbs.last() as int;
        lemma_pow_succ(base(), k);
        assert(0 <= top * unit && top * unit + unit <= base() * unit) by (nonlinear_arith)
            requires
                0 <= top < base(),
                0 <= unit,
        ;
    }
}

/// A canonical spelling of `n > 0` limbs spells at least `base` to the `n - 1`.
pub proof fn lemma_value_at_least(limbs: Seq<u64>)
    requires
        limbs.len() > 0,
        limbs.last() != 0,
    ensures
        value_of(limbs) >= pow(base(), (limbs.len() - 1) as nat),
{
    lemma_value_bounds(limbs.drop_last());
    let unit = pow(base(), (limbs.len() - 1) as nat);
    let top = limbs.last() as int;
    lemma_pow_positive(base(), (limbs.len() - 1) as nat);
    assert(top * unit >= unit) by (nonlinear_arith)
        requires
            top >= 1,
            unit >= 0,
    ;
}

/// Of two spellings of equal length that agree above limb `i`, the one with
/// the smaller limb `i` spells the smaller number.
pub proof fn lemma_value_decided_at(a: Seq<u64>, b: Seq<u64>, i: int)
    requires
        a.len() == b.len(),
        0 <= i < a.len(),
        a[i] < b[i],
        forall|j: int| i < j < a.len() ==> a[j] == b[j],
    ensures
        value_of(a) < value_of(b),
    decreases a.len(),
{
    let k = (a.len() - 1) as nat;
    let unit = pow(base(), k);
    if i == k {
        lemma_value_bounds(a.drop_last());
        lemma_value_bounds(b.drop_last());
        let x = a.last() as int;
        let y = b.last() as int;
        assert(x * unit + unit <= y * unit) by (nonlinear_arith)
            requires
                x + 1 <= y,
                0 <= unit,
        ;
    } else {
        lemma_value_decided_at(a.drop_last(), b.drop_last(), i);
    }
}

/// A natural number of any size.
pub struct BigNat {
    limbs: Vec<u64>,
}

impl View for BigNat {
    type V = int;

    closed spec fn view(&self) -> int {
        value_of(self.limbs@)
    }
}

impl BigNat {
    /// The spelling is canonical.
    pub closed spec fn wf(&self) -> bool {
        canonical(self.limbs@)
    }

    pub fn from_u64(n: u64) -> (out: Self)
        ensures
            out.wf(),
            out@ == n,
    {
        let mut limbs: Vec<u64> = Vec::new();
        if n != 0 {
            limbs.push(n);
            proof {
                reveal(pow);
                assert(limbs@.drop_last() =~= Seq::<u64>::empty());
                assert(value_of(limbs@.drop_last()) == 0);
            }
        }
        BigNat { limbs }
    }

    /// The product of this number and `factor`.
    pub fn mul_small(&self, factor: u64) -> (out: Self)
        requires
            self.wf(),
        ensures
            out.wf(),
            out@ == self@ * factor,
    {
        let mut limbs: Vec<u64> = Vec::new();
        if factor == 0 {
            assert(self@ * 0 == 0) by (nonlinear_arith);
            return BigNat { limbs };
        }
        let n = self.limbs.len();
        let mut carry: u128 = 0;
        let mut i: usize = 0;
        while i < n
            invariant
                i <= n,
                n == self.limbs@.len(),
                factor >= 1,
                canonical(self.limbs@),
                limbs@.len() == i,
                0 <= carry < base(),
                value_of(limbs@) + carry * pow(base(), i as nat) == value_of(
                    self.limbs@.take(i as int),
                ) * factor,
                i > 0 && carry == 0 && self.limbs@[i - 1] != 0 ==> limbs@[i - 1] != 0,
            decreases n - i,
        {
            let limb = self.limbs[i];
            let ghost old_carry = carry as int;
            let ghost done = limbs@;
            proof {
                assert(limb * factor + old_carry < base() * base()) by (nonlinear_arith)
                    requires
                        0 <= limb < base(),
                        0 <= factor < base(),
                        0 <= old_carry < base(),
                ;
                assert(0 <= limb * factor) by (nonlinear_arith)
                    requires
                        0 <= limb,
                        0 <= factor,
                ;
            }
            let t: u128 = (limb as u128) * (factor as u128) + carry;
            let low: u64 = (t % 0x1_0000_0000_0000_0000u128) as u64;
            carry = t / 0x1_0000_0000_0000_0000u128;
            limbs.push(low);
            proof {
                let unit = pow(base(), i as nat);
                let prefix = self.limbs@.take(i as int);
                let next = self.limbs@.take(i + 1);
                assert(next.drop_last() =~= prefix);
                assert(limbs@.drop_last() =~= done);
                lemma_pow_succ(base(), i as nat);
                lemma_split(t as int, base());
                assert(value_of(limbs@) + carry * pow(base(), (i + 1) as nat) == value_of(next)
                    * factor) by (nonlinear_arith)
                    requires
                        value_of(limbs@) == value_of(done) + low * unit,
                        value_of(next) == value_of(prefix) + limb * unit,
                        value_of(done) + old_carry * unit == value_of(prefix) * factor,
                        t == limb * factor + old_carry,
                        t == carry * base() + low,
                        pow(base(), (i + 1) as nat) == base() * unit,
                ;
                if carry == 0 && limb != 0 {
                    assert(limb * factor >= 1) by (nonlinear_arith)
                        requires
                            limb >= 1,
                            factor >= 1,
                    ;
                }
            }
            i += 1;
        }
        assert(self.limbs@.take(n as int) =~= self.limbs@);
        if carry != 0 {
            let ghost done = limbs@;
            limbs.push(carry as u64);
            assert(limbs@.drop_last() =~= done);
        }
        BigNat { limbs }
    }

    /// Whether this number is at most `other`.
    pub fn le(&self, other: &BigNat) -> (out: bool)
        requires
            self.wf(),
            other.wf(),
        ensures
            out == (self@ <= other@),
    {
        let n = self.limbs.len();
        let m = other.limbs.len();
        proof {
            lemma_value_bounds(self.limbs@);
            lemma_value_bounds(other.limbs@);
        }
        if n < m {
            proof {
                lemma_value_at_least(other.limbs@);
                lemma_pow_increases(base() as nat, n as nat, (m - 1) as nat);
            }
            return true;
        }
        if n > m {
            proof {
                lemma_value_at_least(self.limbs@);
                lemma_pow_increases(base() as nat, m as nat, (n - 1) as nat);
            }
            return false;
        }
        let mut i: usize = n;
        while i > 0
            invariant
                i <= n,
                n == self.limbs@.len(),
                n == other.limbs@.len(),
                forall|j: int| i <= j < n ==> self.limbs@[j] == other.limbs@[j],
            decreases i,
        {
            i -= 1;
            let a = self.limbs[i];
            let b = other.limbs[i];
            if a < b {
                proof {
                    lemma_value_decided_at(self.limbs@, other.limbs@, i as int);
                }
                return true;
            }
            if a > b {
                proof {
                    lemma_value_decided_at(other.limbs@, self.limbs@, i as int);
                }
                return false;
            }
        }
        assert(self.limbs@ =~= other.limbs@);
        true
    }
}

} // verus!

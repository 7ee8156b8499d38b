use vstd::arithmetic::power::pow;
use vstd::prelude::*;

verus! {

/// One more than the largest limb: the base of the representation.
pub open spec fn base() -> int {
    0x10000000000000000
}

/// `base()` raised to `n`.
pub open spec fn pow_base(n: nat) -> int {
    pow(base(), n)
}

/// Value of a little-endian limb sequence.
pub open spec fn limbs_value(s: Seq<u64>) -> int
    decreases s.len(),
{
    if s.len() == 0 {
        0
    } else {
        limbs_value(s.drop_last()) + s.last() * pow_base((s.len() - 1) as nat)
    }
}

/// A natural number of arbitrary size, held as base-2^64 limbs, least
/// significant first, with no leading zero limb.  Large enough to compare
/// products of document and token counts exactly.
pub struct BigNat {
    pub(crate) limbs: Vec<u64>,
}

proof fn lemma_pow_base_positive(n: nat)
    ensures
        pow_base(n) >= 1,
{
    vstd::arithmetic::power::lemma_pow_positive(base(), n);
}

proof fn lemma_pow_base_step(n: nat)
    ensures
        pow_base(n + 1) == base() * pow_base(n),
{
    vstd::arithmetic::power::lemma_pow1(base());
    vstd::arithmetic::power::lemma_pow_adds(base(), 1, n);
}

proof fn lemma_value_nonneg(s: Seq<u64>)
    ensures
        limbs_value(s) >= 0,
    decreases s.len(),
{
    if s.len() > 0 {
        lemma_value_nonneg(s.drop_last());
        lemma_pow_base_positive((s.len() - 1) as nat);
        vstd::arithmetic::mul::lemma_mul_nonnegative(
            s.last() as int,
            pow_base((s.len() - 1) as nat),
        );
    }
}

proof fn lemma_value_bound(s: Seq<u64>)
    ensures
        limbs_value(s) < pow_base(s.len() as nat),
    decreases s.len(),
{
    if s.len() == 0 {
        lemma_pow_base_positive(0);
    } else {
        let n = (s.len() - 1) as nat;
        lemma_value_bound(s.drop_last());
        lemma_pow_base_positive(n);
        lemma_pow_base_step(n);
        assert(s.last() * pow_base(n) <= (base() - 1) * pow_base(n)) by {
            vstd::arithmetic::mul::lemma_mul_inequality(s.last() as int, base() - 1, pow_base(n));
        }
        assert((base() - 1) * pow_base(n) == base() * pow_base(n) - pow_base(n)) by {
            vstd::arithmetic::mul::lemma_mul_is_distributive_sub(pow_base(n), base(), 1);
            vstd::arithmetic::mul::lemma_mul_is_commutative(base() - 1, pow_base(n));
            vstd::arithmetic::mul::lemma_mul_is_commutative(base(), pow_base(n));
        }
    }
}

proof fn lemma_value_lower(s: Seq<u64>)
    requires
        s.len() > 0,
        s.last() != 0,
    ensures
        limbs_value(s) >= pow_base((s.len() - 1) as nat),
{
    let n = (s.len() - 1) as nat;
    lemma_value_nonneg(s.drop_last());
    lemma_pow_base_positive(n);
    assert(s.last() * pow_base(n) >= 1 * pow_base(n)) by {
        vstd::arithmetic::mul::lemma_mul_inequality(1, s.last() as int, pow_base(n));
        vstd::arithmetic::mul::lemma_mul_is_commutative(s.last() as int, pow_base(n));
        vstd::arithmetic::mul::lemma_mul_is_commutative(1, pow_base(n));
    }
}

/// With equal lengths and equal limbs above position `i`, the sequence
/// that is smaller at position `i` has the smaller value.
proof fn lemma_value_cmp_at(a: Seq<u64>, b: Seq<u64>, i: int)
    requires
        a.len() == b.len(),
        0 <= i < a.len(),
        forall|j: int| i < j < a.len() ==> a[j] == b[j],
        a[i] < b[i],
    ensures
        limbs_value(a) < limbs_value(b),
    decreases a.len(),
{
    let n = (a.len() - 1) as nat;
    if i == a.len() - 1 {
        lemma_value_bound(a.drop_last());
        lemma_value_nonneg(b.drop_last());
        lemma_pow_base_positive(n);
        assert((a.last() + 1) * pow_base(n) <= b.last() * pow_base(n)) by {
            vstd::arithmetic::mul::lemma_mul_inequality(a.last() + 1, b.last() as int, pow_base(n));
            vstd::arithmetic::mul::lemma_mul_is_commutative(a.last() + 1, pow_base(n));
            vstd::arithmetic::mul::lemma_mul_is_commutative(b.last() as int, pow_base(n));
        }
        assert((a.last() + 1) * pow_base(n) == a.last() * pow_base(n) + pow_base(n)) by {
            vstd::arithmetic::mul::lemma_mul_is_distributive_add_other_way(
                pow_base(n),
                a.last() as int,
                1,
            );
        }
    } else {
        assert(a.last() == b.last());
        lemma_value_cmp_at(a.drop_last(), b.drop_last(), i);
    }
}

impl BigNat {
    /// The number this sequence of limbs stands for.
    pub open(crate) spec fn value(self) -> int {
        limbs_value(self.limbs@)
    }

    /// No leading zero limb, so that lengths order values.
    pub open(crate) spec fn wf(self) -> bool {
        self.limbs@.len() == 0 || self.limbs@.last() != 0
    }

    /// The number `x`.
    pub fn from_u64(x: u64) -> (r: BigNat)
        ensures
            r.wf(),
            r.value() == x,
    {
        let mut limbs: Vec<u64> = Vec::new();
        if x > 0 {
            limbs.push(x);
        }
        let r = BigNat { limbs };
        proof {
            if x > 0 {
                assert(r.limbs@.drop_last() =~= Seq::<u64>::empty());
                assert(limbs_value(Seq::<u64>::empty()) == 0);
                assert(r.limbs@.last() == x);
                assert(limbs_value(r.limbs@) == x * pow_base(0));
                assert(pow_base(0) == 1) by {
                    vstd::arithmetic::power::lemma_pow0(base());
                }
                assert(x * 1 == x) by {
                    vstd::arithmetic::mul::lemma_mul_basics(x as int);
                }
            }
        }
        r
    }

    /// Whether this number is smaller than `other`.
    pub fn lt(&self, other: &BigNat) -> (r: bool)
        requires
            self.wf(),
            other.wf(),
        ensures
            r == (self.value() < other.value()),
    {
        let n1 = self.limbs.len();
        let n2 = other.limbs.len();
        if n1 < n2 {
            proof {
                lemma_value_bound(self.limbs@);
                lemma_value_lower(other.limbs@);
                vstd::arithmetic::power::lemma_pow_increases(
                    base() as nat,
                    n1 as nat,
                    (n2 - 1) as nat,
                );
            }
            return true;
        }
        if n2 < n1 {
            proof {
                lemma_value_bound(other.limbs@);
                lemma_value_lower(self.limbs@);
                vstd::arithmetic::power::lemma_pow_increases(
                    base() as nat,
                    n2 as nat,
                    (n1 - 1) as nat,
                );
            }
            return false;
        }
        let mut k = n1;
        while k > 0
            invariant
                k <= n1,
                n1 == self.limbs@.len(),
                n1 == other.limbs@.len(),
                forall|j: int| k <= j < n1 ==> self.limbs@[j] == other.limbs@[j],
            decreases k,
        {
            k = k - 1;
            if self.limbs[k] < other.limbs[k] {
                proof {
                    lemma_value_cmp_at(self.limbs@, other.limbs@, k as int);
                }
                return true;
            }
            if other.limbs[k] < self.limbs[k] {
                proof {
                    lemma_value_cmp_at(other.limbs@, self.limbs@, k as int);
                }
                return false;
            }
        }
        proof {
            assert(self.limbs@ =~= other.limbs@);
        }
        false
    }

    /// Multiply this number by `b + 1`.  Taking the factor in
    /// predecessor form lets a caller scale by any count plus one, up to
    /// the whole limb range.
    pub fn mul_succ(&mut self, b: u64)
        requires
            old(self).wf(),
        ensures
            final(self).wf(),
            final(self).value() == old(self).value() * (b + 1),
    {
        let ghost a = self.limbs@;
        let mut out: Vec<u64> = Vec::new();
        let mut carry: u64 = 0;
        let n = self.limbs.len();
        let m: u128 = b as u128 + 1;
        for i in 0..n
            invariant
                n == a.len(),
                self.limbs@ == a,
                out@.len() == i,
                m == b + 1,
                limbs_value(out@) + carry * pow_base(i as nat) == limbs_value(a.take(i as int))
                    * m,
        {
            let ghost out0 = out@;
            let ghost c0 = carry as int;
            let limb = self.limbs[i];
            proof {
                assert((limb as int) * (m as int) <= (0xffffffffffffffff as int) * (
                0x10000000000000000 as int)) by (nonlinear_arith)
                    requires
                        limb <= 0xffffffffffffffff,
                        0 < m <= 0x10000000000000000,
                ;
            }
            let prod: u128 = (limb as u128) * m + (carry as u128);
            let lo: u64 = (prod % 0x10000000000000000u128) as u64;
            let hi: u64 = (prod / 0x10000000000000000u128) as u64;
            out.push(lo);
            carry = hi;
            proof {
                let p = prod as int;
                let pb = pow_base(i as nat);
                lemma_pow_base_positive(i as nat);
                lemma_pow_base_step(i as nat);
                assert(p == lo + hi * base());
                assert(out@ =~= out0.push(lo));
                assert(out@.drop_last() =~= out0);
                assert(limbs_value(out@) == limbs_value(out0) + lo * pb);
                assert(a.take(i + 1).drop_last() =~= a.take(i as int));
                assert(a.take(i + 1).last() == a[i as int]);
                assert(limbs_value(a.take(i + 1)) == limbs_value(a.take(i as int)) + limb * pb);
                assert((limb * pb) * m == (limb * m) * pb) by (nonlinear_arith);
                assert((limbs_value(a.take(i as int)) + limb * pb) * m == limbs_value(
                    a.take(i as int),
                ) * m + (limb * pb) * m) by (nonlinear_arith);
                assert((lo + hi * base()) * pb == lo * pb + hi * (base() * pb))
                    by (nonlinear_arith);
                assert(limb * m + c0 == lo + hi * base());
                assert((limb * m) * pb == (lo + hi * base()) * pb - c0 * pb) by (nonlinear_arith)
                    requires
                        limb * m + c0 == lo + hi * base(),
                ;
                assert(limbs_value(out@) + carry * pow_base((i + 1) as nat) == limbs_value(
                    a.take(i + 1),
                ) * m);
            }
        }
        proof {
            assert(a.take(n as int) =~= a);
        }
        if carry > 0 {
            let ghost out0 = out@;
            proof {
                lemma_pow_base_positive(n as nat);
            }
            out.push(carry);
            proof {
                assert(out@.drop_last() =~= out0);
                assert(limbs_value(out@) == limbs_value(out0) + carry * pow_base(n as nat));
            }
            self.limbs = out;
        } else {
            proof {
                assert(limbs_value(out@) == limbs_value(a) * m);
                if a.len() > 0 {
                    lemma_value_lower(a);
                    lemma_value_nonneg(a);
                    assert(limbs_value(a) * m >= limbs_value(a) * 1) by (nonlinear_arith)
                        requires
                            limbs_value(a) >= 0,
                            m >= 1,
                    ;
                    if out@.last() == 0 {
                        lemma_value_bound(out@.drop_last());
                        assert(limbs_value(out@) == limbs_value(out@.drop_last()) + 0 * pow_base(
                            (out@.len() - 1) as nat,
                        ));
                        vstd::arithmetic::power::lemma_pow_increases(
                            base() as nat,
                            (out@.len() - 1) as nat,
                            (a.len() - 1) as nat,
                        );
                        assert(false);
                    }
                }
            }
            self.limbs = out;
        }
    }
}

} // verus!

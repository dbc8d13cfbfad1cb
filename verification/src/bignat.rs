//! Natural numbers of any size. The products that exact entropy arithmetic
//! compares outgrow every machine word, so they are kept as limbs.

use vstd::prelude::*;

verus! {

/// The radix of one limb, `2^64`.
pub open spec fn radix() -> nat {
    0x1_0000_0000_0000_0000
}

/// The weight of the limb at index `i`: `radix()^i`.
pub open spec fn place(i: nat) -> nat
    decreases i,
{
    if i == 0 {
        1
    } else {
        radix() * place((i - 1) as nat)
    }
}

/// The number that `limbs` spell, least significant limb first.
pub open spec fn limbs_value(limbs: Seq<u64>) -> nat
    decreases limbs.len(),
{
    if limbs.len() == 0 {
        0
    } else {
        limbs_value(limbs.drop_last()) + limbs.last() as nat * place((limbs.len() - 1) as nat)
    }
}

/// The limb at index `i`, where limbs past the end count as zero.
pub open spec fn limb_at(limbs: Seq<u64>, i: int) -> u64 {
    if 0 <= i < limbs.len() {
        limbs[i]
    } else {
        0
    }
}

/// `limbs` continued with zero limbs up to length `n`.
pub open spec fn padded(limbs: Seq<u64>, n: nat) -> Seq<u64> {
    Seq::new(n, |i: int| limb_at(limbs, i))
}

/// A number of `n` limbs is below `radix()^n`.
pub proof fn lemma_value_below_place(limbs: Seq<u64>)
    ensures
        limbs_value(limbs) < place(limbs.len()),
    decreases limbs.len(),
{
    if limbs.len() > 0 {
        lemma_value_below_place(limbs.drop_last());
        let low = limbs_value(limbs.drop_last());
        let p = place((limbs.len() - 1) as nat);
        let top = limbs.last() as nat;
        assert(low + top * p < radix() * p) by (nonlinear_arith)
            requires
                low < p,
                top < radix(),
        ;
    }
}

/// Zero limbs at the top do not change the number.
pub proof fn lemma_padded_value(limbs: Seq<u64>, n: nat)
    requires
        limbs.len() <= n,
    ensures
        limbs_value(padded(limbs, n)) == limbs_value(limbs),
    decreases n,
{
    if n == limbs.len() {
        assert(padded(limbs, n) =~= limbs);
    } else {
        lemma_padded_value(limbs, (n - 1) as nat);
        assert(padded(limbs, n).drop_last() =~= padded(limbs, (n - 1) as nat));
        assert(padded(limbs, n).last() == 0);
        assert(0 * place((n - 1) as nat) == 0) by (nonlinear_arith);
    }
}

/// A natural number of any size.
pub struct BigNat {
    limbs: Vec<u64>,
}

impl View for BigNat {
    type V = nat;

    /// The number itself.
    closed spec fn view(&self) -> nat {
        limbs_value(self.limbs@)
    }
}

impl BigNat {
    /// The number one.
    pub fn one() -> (r: BigNat)
        ensures
            r@ == 1,
    {
        let mut limbs: Vec<u64> = Vec::new();
        limbs.push(1);
        proof {
            assert(limbs@.drop_last() =~= Seq::<u64>::empty());
            assert(limbs_value(limbs@.drop_last()) == 0);
            assert(limbs@.last() == 1);
            assert(place(0) == 1);
        }
        BigNat { limbs }
    }

    /// The number `x`.
    pub fn from_u64(x: u64) -> (r: BigNat)
        ensures
            r@ == x,
    {
        let mut limbs: Vec<u64> = Vec::new();
        limbs.push(x);
        proof {
            assert(limbs@.drop_last() =~= Seq::<u64>::empty());
            assert(limbs_value(limbs@.drop_last()) == 0);
            assert(limbs@.last() == x);
            assert(place(0) == 1);
            assert(x as nat * 1 == x as nat) by (nonlinear_arith);
        }
        BigNat { limbs }
    }

    /// Multiplies the number by `m` in place.
    pub fn mul_small(&mut self, m: u64)
        ensures
            final(self)@ == old(self)@ * m,
    {
        let n = self.limbs.len();
        let ghost before = self.limbs@;
        let mut carry: u64 = 0;
        let mut i: usize = 0;
        proof {
            assert(before.take(0) =~= Seq::<u64>::empty());
            assert(m * 0 == 0) by (nonlinear_arith);
            assert(0 * place(0) == 0) by (nonlinear_arith);
        }
        while i < n
            invariant
                i <= n,
                n == before.len(),
                self.limbs@.len() == n,
                forall|j: int| i <= j < n ==> self.limbs@[j] == before[j],
                limbs_value(self.limbs@.take(i as int)) + carry * place(i as nat) == m
                    * limbs_value(before.take(i as int)),
            decreases n - i,
        {
            let x: u64 = self.limbs[i];
            assert(x * m <= 0xFFFF_FFFF_FFFF_FFFF * 0xFFFF_FFFF_FFFF_FFFF) by (nonlinear_arith)
                requires
                    x <= 0xFFFF_FFFF_FFFF_FFFF,
                    m <= 0xFFFF_FFFF_FFFF_FFFF,
            ;
            let t: u128 = (x as u128) * (m as u128) + (carry as u128);
            let low: u64 = (t % 0x1_0000_0000_0000_0000u128) as u64;
            let high: u64 = (t / 0x1_0000_0000_0000_0000u128) as u64;
            let ghost prev = self.limbs@;
            self.limbs.set(i, low);
            proof {
                let cur = self.limbs@;
                let p = place(i as nat);
                assert(cur.take(i + 1).drop_last() =~= prev.take(i as int));
                assert(before.take(i + 1).drop_last() =~= before.take(i as int));
                assert(cur.take(i + 1).last() == low);
                assert(before.take(i + 1).last() == x);
                assert(place((i + 1) as nat) == radix() * p);
                let v = limbs_value(prev.take(i as int));
                let a = limbs_value(before.take(i as int));
                assert(v + low * p + high * (radix() * p) == m * (a + x * p)) by (nonlinear_arith)
                    requires
                        v + carry * p == m * a,
                        low + high * radix() == x * m + carry,
                ;
            }
            carry = high;
            i += 1;
        }
        proof {
            assert(self.limbs@.take(n as int) =~= self.limbs@);
            assert(before.take(n as int) =~= before);
        }
        if carry != 0 {
            let ghost prev = self.limbs@;
            self.limbs.push(carry);
            proof {
                assert(self.limbs@.drop_last() =~= prev);
            }
        } else {
            assert(0 * place(n as nat) == 0) by (nonlinear_arith);
        }
        proof {
            let a = limbs_value(before);
            assert(m * a == a * m) by (nonlinear_arith);
        }
    }

    /// The limb at index `i`, zero past the end.
    fn limb(&self, i: usize) -> (x: u64)
        ensures
            x == limb_at(self.limbs@, i as int),
    {
        if i < self.limbs.len() {
            self.limbs[i]
        } else {
            0
        }
    }

    /// Whether this number is at most `other`.
    pub fn le(&self, other: &BigNat) -> (r: bool)
        ensures
            r == (self@ <= other@),
    {
        let la = self.limbs.len();
        let lb = other.limbs.len();
        let n = if la >= lb {
            la
        } else {
            lb
        };
        let ghost pa = padded(self.limbs@, n as nat);
        let ghost pb = padded(other.limbs@, n as nat);
        proof {
            lemma_padded_value(self.limbs@, n as nat);
            lemma_padded_value(other.limbs@, n as nat);
            assert(pa.take(n as int) =~= pa);
            assert(pb.take(n as int) =~= pb);
        }
        let mut i: usize = n;
        while i > 0
            invariant
                i <= n,
                pa == padded(self.limbs@, n as nat),
                pb == padded(other.limbs@, n as nat),
                limbs_value(pa) == limbs_value(self.limbs@),
                limbs_value(pb) == limbs_value(other.limbs@),
                limbs_value(pa) - limbs_value(pb) == limbs_value(pa.take(i as int)) - limbs_value(
                    pb.take(i as int),
                ),
            decreases i,
        {
            let x = self.limb(i - 1);
            let y = other.limb(i - 1);
            proof {
                let p = place((i - 1) as nat);
                assert(pa.take(i as int).drop_last() =~= pa.take(i - 1));
                assert(pb.take(i as int).drop_last() =~= pb.take(i - 1));
                assert(pa.take(i as int).last() == x);
                assert(pb.take(i as int).last() == y);
                lemma_value_below_place(pa.take(i - 1));
                lemma_value_below_place(pb.take(i - 1));
                let va = limbs_value(pa.take(i - 1));
                let vb = limbs_value(pb.take(i - 1));
                if x < y {
                    assert(va + x * p < vb + y * p) by (nonlinear_arith)
                        requires
                            va < p,
                            0 <= vb,
                            x < y,
                    ;
                } else if x > y {
                    assert(va + x * p > vb + y * p) by (nonlinear_arith)
                        requires
                            vb < p,
                            0 <= va,
                            x > y,
                    ;
                }
            }
            if x < y {
                return true;
            }
            if x > y {
                return false;
            }
            i -= 1;
        }
        proof {
            assert(pa.take(0) =~= Seq::<u64>::empty());
            assert(pb.take(0) =~= Seq::<u64>::empty());
        }
        true
    }
}

} // verus!

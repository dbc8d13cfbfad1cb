//! Exact amounts of information.
//!
//! The entropy of `n` rows with label counts `c_1 .. c_k` is
//! `H = -sum (c_i / n) ln (c_i / n)`, so `n * H = ln (n^n / prod c_i^c_i)`.
//! Entropies weighted by row counts, and their sums and differences, are
//! therefore logarithms of quotients of products of self-powers `c^c`. An
//! amount is kept as the two lists of bases; comparing two amounts is
//! comparing two products of integers, which is done without rounding.

use crate::bignat::BigNat;
use vstd::prelude::*;

verus! {

/// `b^e`, with `0^0 = 1`.
pub open spec fn power(b: nat, e: nat) -> nat
    decreases e,
{
    if e == 0 {
        1
    } else {
        b * power(b, (e - 1) as nat)
    }
}

/// `c^c`, the weight of a count `c`.
pub open spec fn self_power(c: nat) -> nat {
    power(c, c)
}

/// The product of the self-powers of `s`.
pub open spec fn power_product(s: Seq<nat>) -> nat
    decreases s.len(),
{
    if s.len() == 0 {
        1
    } else {
        power_product(s.drop_last()) * self_power(s.last())
    }
}

/// The sum of `s`.
pub open spec fn total(s: Seq<nat>) -> nat
    decreases s.len(),
{
    if s.len() == 0 {
        0
    } else {
        total(s.drop_last()) + s.last()
    }
}

/// Machine counts as natural numbers.
pub open spec fn nats(v: Seq<u64>) -> Seq<nat> {
    Seq::new(v.len(), |i: int| v[i] as nat)
}

/// Mathematical model of an amount of information `x`, in nats:
/// `exp(x) = power_product(up) / power_product(down)`.
pub struct Amount {
    pub up: Seq<nat>,
    pub down: Seq<nat>,
}

impl Amount {
    /// Numerator of `exp(x)`.
    pub open spec fn numer(self) -> nat {
        power_product(self.up)
    }

    /// Denominator of `exp(x)`; never zero.
    pub open spec fn denom(self) -> nat {
        power_product(self.down)
    }

    /// The amount zero.
    pub open spec fn zero() -> Amount {
        Amount { up: Seq::empty(), down: Seq::empty() }
    }

    /// `self <= other` as real numbers.
    pub open spec fn le(self, other: Amount) -> bool {
        self.numer() * other.denom() <= other.numer() * self.denom()
    }

    /// `self < other` as real numbers.
    pub open spec fn lt(self, other: Amount) -> bool {
        !other.le(self)
    }

    /// `self == 0` as a real number.
    pub open spec fn is_zero(self) -> bool {
        self.numer() == self.denom()
    }

    /// `self >= 0` as a real number.
    pub open spec fn is_nonnegative(self) -> bool {
        self.denom() <= self.numer()
    }

    /// `self + other`.
    pub open spec fn plus(self, other: Amount) -> Amount {
        Amount { up: self.up + other.up, down: self.down + other.down }
    }

    /// `self - other`.
    pub open spec fn minus(self, other: Amount) -> Amount {
        Amount { up: self.up + other.down, down: self.down + other.up }
    }

    /// `n * H` for `n` rows whose label counts are `counts`.
    pub open spec fn of_counts(n: nat, counts: Seq<nat>) -> Amount {
        Amount { up: seq![n], down: counts }
    }
}

/// A power of a positive base is positive.
pub proof fn lemma_power_positive(b: nat, e: nat)
    requires
        b > 0 || e == 0,
    ensures
        power(b, e) > 0,
    decreases e,
{
    if e > 0 {
        lemma_power_positive(b, (e - 1) as nat);
        let p = power(b, (e - 1) as nat);
        assert(b * p > 0) by (nonlinear_arith)
            requires
                b > 0,
                p > 0,
        ;
    }
}

/// `b^(e1 + e2) = b^e1 * b^e2`.
pub proof fn lemma_power_adds(b: nat, e1: nat, e2: nat)
    ensures
        power(b, e1 + e2) == power(b, e1) * power(b, e2),
    decreases e1,
{
    if e1 == 0 {
        assert(1 * power(b, e2) == power(b, e2)) by (nonlinear_arith);
    } else {
        lemma_power_adds(b, (e1 - 1) as nat, e2);
        let first = power(b, (e1 - 1) as nat);
        let second = power(b, e2);
        assert(power(b, e1 + e2) == b * power(b, (e1 - 1 + e2) as nat));
        assert(b * (first * second) == (b * first) * second) by (nonlinear_arith);
    }
}

/// Powers grow with the base; strictly so for a positive exponent.
pub proof fn lemma_power_base_monotonic(a: nat, b: nat, e: nat)
    requires
        a <= b,
    ensures
        power(a, e) <= power(b, e),
        a < b && e > 0 ==> power(a, e) < power(b, e),
    decreases e,
{
    if e > 0 {
        lemma_power_base_monotonic(a, b, (e - 1) as nat);
        let pa = power(a, (e - 1) as nat);
        let pb = power(b, (e - 1) as nat);
        assert(a * pa <= b * pb) by (nonlinear_arith)
            requires
                a <= b,
                pa <= pb,
        ;
        if a < b {
            lemma_power_positive(b, (e - 1) as nat);
            assert(a * pa < b * pb) by (nonlinear_arith)
                requires
                    a < b,
                    pa <= pb,
                    pb > 0,
            ;
        }
    }
}

/// A product of self-powers is positive.
pub proof fn lemma_power_product_positive(s: Seq<nat>)
    ensures
        power_product(s) > 0,
    decreases s.len(),
{
    if s.len() > 0 {
        lemma_power_product_positive(s.drop_last());
        lemma_power_positive(s.last(), s.last());
        let p = power_product(s.drop_last());
        let q = self_power(s.last());
        assert(p * q > 0) by (nonlinear_arith)
            requires
                p > 0,
                q > 0,
        ;
    }
}

/// The product over a concatenation is the product of the products.
pub proof fn lemma_power_product_concat(a: Seq<nat>, b: Seq<nat>)
    ensures
        power_product(a + b) == power_product(a) * power_product(b),
    decreases b.len(),
{
    if b.len() == 0 {
        assert(a + b =~= a);
        assert(power_product(a) * 1 == power_product(a)) by (nonlinear_arith);
    } else {
        lemma_power_product_concat(a, b.drop_last());
        assert((a + b).drop_last() =~= a + b.drop_last());
        assert((a + b).last() == b.last());
        let pa = power_product(a);
        let pb = power_product(b.drop_last());
        let q = self_power(b.last());
        assert((pa * pb) * q == pa * (pb * q)) by (nonlinear_arith);
    }
}

/// The product of one self-power.
pub proof fn lemma_power_product_single(c: nat)
    ensures
        power_product(seq![c]) == self_power(c),
{
    assert(seq![c].drop_last() =~= Seq::<nat>::empty());
    assert(power_product(Seq::<nat>::empty()) == 1);
    assert(power_product(seq![c].drop_last()) == 1);
    assert(seq![c].len() == 1);
    assert(seq![c].last() == c);
    assert(1 * self_power(c) == self_power(c)) by (nonlinear_arith);
}

/// The order of amounts is transitive.
pub proof fn lemma_le_transitive(x: Amount, y: Amount, z: Amount)
    requires
        x.le(y),
        y.le(z),
    ensures
        x.le(z),
{
    lemma_power_product_positive(x.down);
    lemma_power_product_positive(y.down);
    lemma_power_product_positive(z.down);
    let (nx, dx) = (x.numer() as int, x.denom() as int);
    let (ny, dy) = (y.numer() as int, y.denom() as int);
    let (nz, dz) = (z.numer() as int, z.denom() as int);
    assert(nx * dz <= nz * dx) by (nonlinear_arith)
        requires
            nx * dy <= ny * dx,
            ny * dz <= nz * dy,
            dx > 0,
            dy > 0,
            dz > 0,
            nx >= 0,
            ny >= 0,
            nz >= 0,
    {
        assert((nx * dy) * dz <= (ny * dx) * dz);
        assert((ny * dz) * dx <= (nz * dy) * dx);
        assert((nx * dz) * dy == (nx * dy) * dz);
        assert((ny * dx) * dz == (ny * dz) * dx);
        assert((nz * dy) * dx == (nz * dx) * dy);
        assert((nx * dz) * dy <= (nz * dx) * dy);
    }
}

/// A strict step after a weak one is strict.
pub proof fn lemma_le_lt_transitive(x: Amount, y: Amount, z: Amount)
    requires
        x.le(y),
        y.lt(z),
    ensures
        x.lt(z),
{
    if z.le(x) {
        lemma_le_transitive(z, x, y);
    }
}

/// An amount of information, held exactly.
pub struct Information {
    /// Bases of the self-powers in the numerator.
    pub up: Vec<u64>,
    /// Bases of the self-powers in the denominator.
    pub down: Vec<u64>,
}

impl View for Information {
    type V = Amount;

    open spec fn view(&self) -> Amount {
        Amount { up: nats(self.up@), down: nats(self.down@) }
    }
}

/// Multiplies `acc` by `c^c`.
fn times_self_power(acc: &mut BigNat, c: u64)
    ensures
        final(acc)@ == old(acc)@ * self_power(c as nat),
{
    let ghost start = acc@;
    let mut k: u64 = 0;
    assert(start * 1 == start) by (nonlinear_arith);
    while k < c
        invariant
            k <= c,
            acc@ * power(c as nat, (c - k) as nat) == start * power(c as nat, c as nat),
        decreases c - k,
    {
        let ghost before = acc@;
        acc.mul_small(c);
        proof {
            let rest = power(c as nat, (c - k - 1) as nat);
            assert(power(c as nat, (c - k) as nat) == c * rest);
            assert((before * c) * rest == before * (c * rest)) by (nonlinear_arith);
        }
        k += 1;
    }
    assert(acc@ * 1 == acc@) by (nonlinear_arith);
}

/// Multiplies `acc` by the self-powers of `factors`.
fn times_self_powers(acc: &mut BigNat, factors: &Vec<u64>)
    ensures
        final(acc)@ == old(acc)@ * power_product(nats(factors@)),
{
    let ghost start = acc@;
    let ghost all = nats(factors@);
    let mut i: usize = 0;
    assert(all.take(0) =~= Seq::<nat>::empty());
    assert(start * 1 == start) by (nonlinear_arith);
    while i < factors.len()
        invariant
            i <= factors.len(),
            all == nats(factors@),
            acc@ == start * power_product(all.take(i as int)),
        decreases factors.len() - i,
    {
        let ghost before = acc@;
        times_self_power(acc, factors[i]);
        proof {
            assert(all.take(i + 1).drop_last() =~= all.take(i as int));
            assert(all.take(i + 1).last() == factors@[i as int] as nat);
            let p = power_product(all.take(i as int));
            let q = self_power(factors@[i as int] as nat);
            assert((start * p) * q == start * (p * q)) by (nonlinear_arith);
        }
        i += 1;
    }
    assert(all.take(factors.len() as int) =~= all);
}

/// The product of the self-powers of `a` and of `b`.
fn product(a: &Vec<u64>, b: &Vec<u64>) -> (r: BigNat)
    ensures
        r@ == power_product(nats(a@)) * power_product(nats(b@)),
{
    let mut acc = BigNat::one();
    times_self_powers(&mut acc, a);
    times_self_powers(&mut acc, b);
    proof {
        let pa = power_product(nats(a@));
        assert(1 * pa == pa) by (nonlinear_arith);
    }
    acc
}

/// The concatenation of two lists of counts.
fn joined(a: &Vec<u64>, b: &Vec<u64>) -> (r: Vec<u64>)
    ensures
        r@ == a@ + b@,
{
    let mut out: Vec<u64> = Vec::new();
    let mut i: usize = 0;
    while i < a.len()
        invariant
            i <= a.len(),
            out@ == a@.take(i as int),
        decreases a.len() - i,
    {
        out.push(a[i]);
        assert(out@ =~= a@.take(i + 1));
        i += 1;
    }
    assert(a@.take(a.len() as int) =~= a@);
    let mut j: usize = 0;
    while j < b.len()
        invariant
            j <= b.len(),
            out@ == a@ + b@.take(j as int),
        decreases b.len() - j,
    {
        out.push(b[j]);
        assert(out@ =~= a@ + b@.take(j + 1));
        j += 1;
    }
    assert(b@.take(b.len() as int) =~= b@);
    out
}

impl Information {
    /// The amount zero.
    pub fn zero() -> (r: Information)
        ensures
            r@ == Amount::zero(),
    {
        let r = Information { up: Vec::new(), down: Vec::new() };
        assert(r@.up =~= Seq::<nat>::empty());
        assert(r@.down =~= Seq::<nat>::empty());
        r
    }

    /// `n * H` for `n` rows whose label counts are `counts`.
    pub fn of_counts(n: u64, counts: Vec<u64>) -> (r: Information)
        ensures
            r@ == Amount::of_counts(n as nat, nats(counts@)),
    {
        let mut up: Vec<u64> = Vec::new();
        up.push(n);
        let r = Information { up, down: counts };
        assert(r@.up =~= seq![n as nat]);
        r
    }

    /// `self + other`.
    pub fn plus(&self, other: &Information) -> (r: Information)
        ensures
            r@ == self@.plus(other@),
    {
        let r = Information { up: joined(&self.up, &other.up), down: joined(&self.down, &other.down) };
        assert(r@.up =~= self@.up + other@.up);
        assert(r@.down =~= self@.down + other@.down);
        r
    }

    /// `self - other`.
    pub fn minus(&self, other: &Information) -> (r: Information)
        ensures
            r@ == self@.minus(other@),
    {
        let r = Information { up: joined(&self.up, &other.down), down: joined(&self.down, &other.up) };
        assert(r@.up =~= self@.up + other@.down);
        assert(r@.down =~= self@.down + other@.up);
        r
    }

    /// Whether `self <= other` as real numbers.
    pub fn le(&self, other: &Information) -> (r: bool)
        ensures
            r == self@.le(other@),
    {
        let left = product(&self.up, &other.down);
        let right = product(&other.up, &self.down);
        left.le(&right)
    }

    /// Whether `self < other` as real numbers.
    pub fn lt(&self, other: &Information) -> (r: bool)
        ensures
            r == self@.lt(other@),
    {
        !other.le(self)
    }

    /// Whether the amount is zero.
    pub fn is_zero(&self) -> (r: bool)
        ensures
            r == self@.is_zero(),
    {
        let empty: Vec<u64> = Vec::new();
        let n = product(&self.up, &empty);
        let d = product(&self.down, &empty);
        proof {
            assert(nats(empty@) =~= Seq::<nat>::empty());
            let pn = self@.numer();
            let pd = self@.denom();
            assert(pn * 1 == pn && pd * 1 == pd) by (nonlinear_arith);
        }
        n.le(&d) && d.le(&n)
    }

    /// Whether the amount is at least zero.
    pub fn is_nonnegative(&self) -> (r: bool)
        ensures
            r == self@.is_nonnegative(),
    {
        let empty: Vec<u64> = Vec::new();
        let n = product(&self.up, &empty);
        let d = product(&self.down, &empty);
        proof {
            assert(nats(empty@) =~= Seq::<nat>::empty());
            let pn = self@.numer();
            let pd = self@.denom();
            assert(pn * 1 == pn && pd * 1 == pd) by (nonlinear_arith);
        }
        d.le(&n)
    }
}

} // verus!

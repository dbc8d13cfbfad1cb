//! Products of powers of natural numbers, and the inequality between
//! arithmetic and geometric means in the form that makes information gain
//! at least zero.

use crate::information::{
    lemma_power_adds, lemma_power_base_monotonic, lemma_power_positive, power, power_product, total,
};
use vstd::prelude::*;

verus! {

/// The product of the powers `d[i]^e[i]`.
pub open spec fn mixed_product(d: Seq<nat>, e: Seq<nat>) -> nat
    decreases d.len(),
{
    if d.len() == 0 || e.len() != d.len() {
        1
    } else {
        mixed_product(d.drop_last(), e.drop_last()) * power(d.last(), e.last())
    }
}

/// The sums `x[i] + y[i]`.
pub open spec fn sums(x: Seq<nat>, y: Seq<nat>) -> Seq<nat> {
    Seq::new(x.len(), |i: int| x[i] + y[i])
}

/// `(x y)^e = x^e y^e`.
pub proof fn lemma_power_of_product(x: nat, y: nat, e: nat)
    ensures
        power(x * y, e) == power(x, e) * power(y, e),
    decreases e,
{
    if e == 0 {
        assert(1 * 1 == 1) by (nonlinear_arith);
    } else {
        lemma_power_of_product(x, y, (e - 1) as nat);
        let px = power(x, (e - 1) as nat);
        let py = power(y, (e - 1) as nat);
        assert((x * y) * (px * py) == (x * px) * (y * py)) by (nonlinear_arith);
    }
}

/// With each base raised to itself, the mixed product is the product of
/// self-powers.
pub proof fn lemma_mixed_self(d: Seq<nat>)
    ensures
        mixed_product(d, d) == power_product(d),
    decreases d.len(),
{
    if d.len() > 0 {
        lemma_mixed_self(d.drop_last());
    }
}

/// Adding exponents multiplies mixed products.
pub proof fn lemma_mixed_add(d: Seq<nat>, x: Seq<nat>, y: Seq<nat>)
    requires
        x.len() == d.len(),
        y.len() == d.len(),
    ensures
        mixed_product(d, sums(x, y)) == mixed_product(d, x) * mixed_product(d, y),
    decreases d.len(),
{
    if d.len() == 0 {
        assert(1 * 1 == 1) by (nonlinear_arith);
    } else {
        lemma_mixed_add(d.drop_last(), x.drop_last(), y.drop_last());
        assert(sums(x, y).drop_last() =~= sums(x.drop_last(), y.drop_last()));
        lemma_power_adds(d.last(), x.last(), y.last());
        let a1 = mixed_product(d.drop_last(), x.drop_last());
        let a2 = mixed_product(d.drop_last(), y.drop_last());
        let first = power(d.last(), x.last());
        let second = power(d.last(), y.last());
        assert((a1 * a2) * (first * second) == (a1 * first) * (a2 * second)) by (nonlinear_arith);
    }
}

/// Where `x[i] * big == d[i] * small` for every `i`, the self-powers of `x`
/// and the powers of `d` to `x` are in the proportion of `small` and `big`
/// to the sum of `x`.
pub proof fn lemma_proportional_part(x: Seq<nat>, d: Seq<nat>, big: nat, small: nat)
    requires
        x.len() == d.len(),
        forall|i: int| 0 <= i < x.len() ==> #[trigger] x[i] * big == d[i] * small,
    ensures
        power_product(x) * power(big, total(x)) == mixed_product(d, x) * power(small, total(x)),
    decreases x.len(),
{
    if x.len() == 0 {
    } else {
        let x0 = x.drop_last();
        let d0 = d.drop_last();
        let e = x.last();
        assert forall|i: int| 0 <= i < x0.len() implies #[trigger] x0[i] * big == d0[i] * small by {
            assert(x[i] * big == d[i] * small);
        }
        lemma_proportional_part(x0, d0, big, small);
        assert(x[x.len() - 1] * big == d[x.len() - 1] * small);
        lemma_power_of_product(e, big, e);
        lemma_power_of_product(d.last(), small, e);
        lemma_power_adds(big, total(x0), e);
        lemma_power_adds(small, total(x0), e);
        let a = power_product(x0);
        let b = power(big, total(x0));
        let c = mixed_product(d0, x0);
        let f = power(small, total(x0));
        let pe = power(e, e);
        let pb = power(big, e);
        let pd = power(d.last(), e);
        let ps = power(small, e);
        assert(pe * pb == pd * ps);
        assert((a * pe) * (b * pb) == (c * pd) * (f * ps)) by (nonlinear_arith)
            requires
                a * b == c * f,
                pe * pb == pd * ps,
        {
            assert((a * pe) * (b * pb) == (a * b) * (pe * pb));
            assert((c * pd) * (f * ps) == (c * f) * (pd * ps));
        }
    }
}

/// A sequence whose sum is zero holds only zeros.
pub proof fn lemma_total_zero(s: Seq<nat>)
    requires
        total(s) == 0,
    ensures
        forall|i: int| 0 <= i < s.len() ==> s[i] == 0,
    decreases s.len(),
{
    if s.len() > 0 {
        lemma_total_zero(s.drop_last());
        assert forall|i: int| 0 <= i < s.len() implies s[i] == 0 by {
            if i < s.len() - 1 {
                assert(s.drop_last()[i] == 0);
            }
        }
    }
}

/// With every exponent zero, the mixed product is one.
pub proof fn lemma_mixed_zero(d: Seq<nat>, e: Seq<nat>)
    requires
        forall|i: int| 0 <= i < e.len() ==> e[i] == 0,
    ensures
        mixed_product(d, e) == 1,
    decreases d.len(),
{
    if d.len() > 0 && e.len() == d.len() {
        lemma_mixed_zero(d.drop_last(), e.drop_last());
        assert(power(d.last(), 0) == 1);
        assert(1 * 1 == 1) by (nonlinear_arith);
    }
}

/// Bernoulli's inequality: `z^k >= w^k + k (z - w) w^(k-1)`.
pub proof fn lemma_bernoulli(w: nat, z: nat, k: nat)
    requires
        k >= 1,
    ensures
        power(z, k) >= power(w, k) + k * (z - w) * power(w, (k - 1) as nat),
    decreases k,
{
    if k == 1 {
        assert(power(z, 0) == 1 && power(w, 0) == 1);
        assert(power(z, 1) == z) by (nonlinear_arith)
            requires
                power(z, 1) == z * power(z, 0),
                power(z, 0) == 1,
        ;
        assert(power(w, 1) == w) by (nonlinear_arith)
            requires
                power(w, 1) == w * power(w, 0),
                power(w, 0) == 1,
        ;
        assert(1 * (z - w) * 1 == z - w) by (nonlinear_arith);
    } else {
        let j = (k - 1) as nat;
        lemma_bernoulli(w, z, j);
        let a = power(z, j) as int;
        let b = power(w, j) as int;
        let c = power(w, (j - 1) as nat) as int;
        let d = z - w;
        let wi = w as int;
        let zi = z as int;
        let ji = j as int;
        assert(b == wi * c);
        assert(power(z, k) == zi * a);
        assert(power(w, k) == wi * b);
        assert(zi * a >= wi * b + (ji + 1) * d * b) by (nonlinear_arith)
            requires
                a >= b + ji * d * c,
                b == wi * c,
                d == zi - wi,
                zi >= 0,
                wi >= 0,
                c >= 0,
                ji >= 1,
        {
            assert(zi * a >= zi * (b + ji * d * c));
            assert(zi * (b + ji * d * c) == zi * b + ji * d * c * zi);
            assert(wi * b + (ji + 1) * d * b == zi * b + ji * d * (wi * c));
            assert(ji * d * c * zi - ji * d * (wi * c) == ji * c * (d * d));
            assert(d * d >= 0);
            assert(ji * c * (d * d) >= 0);
        }
    }
}

/// One more number in a mean: `j^j (s + a)^(j+1) >= (j+1)^(j+1) s^j a`.
pub proof fn lemma_mean_step(j: nat, s: nat, a: nat)
    requires
        j >= 1,
    ensures
        power(j, j) * power(s + a, j + 1) >= power(j + 1, j + 1) * power(s, j) * a,
{
    let w = (j + 1) * s;
    let z = j * (s + a);
    lemma_bernoulli(w, z, j + 1);
    lemma_power_of_product(j + 1, s, j);
    lemma_power_of_product(j, s + a, j + 1);
    let pj = power(j, j) as int;
    let pu = power(s + a, j + 1) as int;
    let pj1 = power(j + 1, j) as int;
    let ps = power(s, j) as int;
    let pw = power(w, j) as int;
    let (ji, si, ai) = (j as int, s as int, a as int);
    assert(power(j, j + 1) == ji * pj);
    assert(power(j + 1, j + 1) == (ji + 1) * pj1);
    assert(power(w, j + 1) == w * pw);
    assert(power(z, j + 1) == (ji * pj) * pu);
    assert(pw == pj1 * ps);
    let lhs = (ji * pj) * pu;
    assert(z - w == ji * ai - si) by (nonlinear_arith)
        requires
            z == ji * (si + ai),
            w == (ji + 1) * si,
    ;
    assert(lhs >= w * pw + (ji + 1) * (ji * ai - si) * pw);
    assert(w * pw + (ji + 1) * (ji * ai - si) * pw == ji * (((ji + 1) * pj1) * ps * ai)) by (nonlinear_arith)
        requires
            w == (ji + 1) * si,
            pw == pj1 * ps,
    ;
    assert(lhs == ji * (pj * pu)) by (nonlinear_arith)
        requires
            lhs == (ji * pj) * pu,
    ;
    assert(pj * pu >= ((ji + 1) * pj1) * ps * ai) by (nonlinear_arith)
        requires
            ji * (pj * pu) >= ji * (((ji + 1) * pj1) * ps * ai),
            ji >= 1,
    ;
}

/// The mean of `m` numbers of sum `x` and `t` numbers of sum `t y / n`:
/// `(n x + t y)^(m+t) m^m >= n^m (m+t)^(m+t) x^m y^t`.
pub proof fn lemma_two_means(x: nat, y: nat, m: nat, n: nat, t: nat)
    ensures
        power(n * x + t * y, m + t) * power(m, m) >= power(n, m) * power(m + t, m + t) * power(x, m)
            * power(y, t),
    decreases t,
{
    if t == 0 {
        lemma_power_of_product(n, x, m);
        assert(0 * y == 0) by (nonlinear_arith);
        assert(power(y, 0) == 1);
        let a = power(n, m);
        let b = power(x, m);
        let c = power(m, m);
        assert((a * b) * c >= a * c * b * 1) by (nonlinear_arith);
    } else {
        let t0 = (t - 1) as nat;
        let j = m + t0;
        let s = n * x + t0 * y;
        lemma_two_means(x, y, m, n, t0);
        assert(n * x + t * y == s + y) by (nonlinear_arith)
            requires
                s == n * x + t0 * y,
                t == t0 + 1,
        ;
        assert(power(y, t) == y * power(y, t0));
        let u = power(s + y, j + 1) as int;
        let mm = power(m, m) as int;
        let k = (power(n, m) * power(x, m) * power(y, t0)) as int;
        let j1 = power(j + 1, j + 1) as int;
        let yi = y as int;
        if j == 0 {
            assert(power(0, 0) == 1);
            assert(power(1, 1) == 1) by {
                assert(power(1, 0) == 1);
                assert(1 * 1 == 1) by (nonlinear_arith);
            }
            assert(power(s + y, 1) == s + y) by {
                assert(power(s + y, 0) == 1);
                assert((s + y) * 1 == s + y) by (nonlinear_arith);
            }
            assert(power(n, 0) == 1 && power(x, 0) == 1 && power(y, 0) == 1);
            assert(k == 1) by (nonlinear_arith)
                requires
                    k == 1 * 1 * 1,
            ;
            assert(u * mm >= j1 * k * yi) by (nonlinear_arith)
                requires
                    u == s + yi,
                    s >= 0,
                    mm == 1,
                    j1 == 1,
                    k == 1,
            ;
        } else {
            lemma_mean_step(j, s, y);
            lemma_power_positive(j, j);
            let jj = power(j, j) as int;
            let sj = power(s, j) as int;
            assert(sj * mm >= k * jj) by (nonlinear_arith)
                requires
                    sj * mm >= power(n, m) * jj * power(x, m) * power(y, t0),
                    k == power(n, m) * power(x, m) * power(y, t0),
            ;
            assert(u * mm >= j1 * k * yi) by (nonlinear_arith)
                requires
                    jj * u >= j1 * sj * yi,
                    sj * mm >= k * jj,
                    jj > 0,
                    j1 >= 0,
                    yi >= 0,
                    mm >= 0,
                    k >= 0,
            {
                assert((jj * u) * mm >= (j1 * sj * yi) * mm);
                assert((j1 * sj * yi) * mm == (j1 * yi) * (sj * mm));
                assert((j1 * yi) * (sj * mm) >= (j1 * yi) * (k * jj));
                assert(jj * (u * mm) >= jj * (j1 * k * yi));
            }
        }
        assert(power(n, m) * power(m + t, m + t) * power(x, m) * power(y, t) == j1 * k * yi) by (nonlinear_arith)
            requires
                k == power(n, m) * power(x, m) * power(y, t0),
                j1 == power(m + t, m + t),
                power(y, t) == yi * power(y, t0),
        ;
    }
}

/// The weighted mean of two numbers is at least their weighted geometric
/// mean: `(x + y)^(m+n) m^m n^n >= (m+n)^(m+n) x^m y^n`.
pub proof fn lemma_weighted_means(x: nat, y: nat, m: nat, n: nat)
    ensures
        power(x + y, m + n) * power(m, m) * power(n, n) >= power(m + n, m + n) * power(x, m) * power(y, n),
{
    if n == 0 {
        lemma_power_base_monotonic(x, x + y, m);
        assert(power(0, 0) == 1 && power(y, 0) == 1);
        let a = power(x + y, m);
        let b = power(x, m);
        let c = power(m, m);
        assert(a * c * 1 >= c * b * 1) by (nonlinear_arith)
            requires
                a >= b,
                c >= 0,
        ;
    } else {
        lemma_two_means(x, y, m, n, n);
        lemma_power_of_product(n, x + y, m + n);
        lemma_power_adds(n, m, n);
        lemma_power_positive(n, m);
        assert(n * x + n * y == n * (x + y)) by (nonlinear_arith);
        let nm = power(n, m) as int;
        let nn = power(n, n) as int;
        let a = power(x + y, m + n) as int;
        let mm = power(m, m) as int;
        let r = (power(m + n, m + n) * power(x, m) * power(y, n)) as int;
        assert(a * mm * nn >= r) by (nonlinear_arith)
            requires
                ((nm * nn) * a) * mm >= nm * power(m + n, m + n) * power(x, m) * power(y, n),
                r == power(m + n, m + n) * power(x, m) * power(y, n),
                nm > 0,
        {
            assert(((nm * nn) * a) * mm == nm * (a * mm * nn));
            assert(nm * power(m + n, m + n) * power(x, m) * power(y, n) == nm * r);
        }
    }
}

/// Gibbs' inequality over natural numbers: for counts `x` of sum `X` and
/// numbers `d` of sum `D`, `D^X prod x_i^x_i >= X^X prod d_i^x_i`.
pub proof fn lemma_gibbs(x: Seq<nat>, d: Seq<nat>)
    requires
        x.len() == d.len(),
    ensures
        power(total(d), total(x)) * power_product(x) >= power(total(x), total(x)) * mixed_product(d, x),
    decreases x.len(),
{
    if x.len() == 0 {
        assert(power(0, 0) == 1);
    } else {
        let x0 = x.drop_last();
        let d0 = d.drop_last();
        let e = x.last();
        let g = d.last();
        lemma_gibbs(x0, d0);
        lemma_weighted_means(total(d0), g, total(x0), e);
        lemma_power_positive(total(x0), total(x0));
        let a = power(total(d0) + g, total(x0) + e) as int;
        let b = power(total(x0), total(x0)) as int;
        let pe = power(e, e) as int;
        let c = power(total(x0) + e, total(x0) + e) as int;
        let f = power(total(d0), total(x0)) as int;
        let pg = power(g, e) as int;
        let prefix = power_product(x0) as int;
        let m0 = mixed_product(d0, x0) as int;
        assert(a * (prefix * pe) >= c * (m0 * pg)) by (nonlinear_arith)
            requires
                a * b * pe >= c * f * pg,
                f * prefix >= b * m0,
                b > 0,
                prefix >= 0,
                c >= 0,
                pg >= 0,
        {
            assert((a * b * pe) * prefix >= (c * f * pg) * prefix);
            assert((c * f * pg) * prefix == (c * pg) * (f * prefix));
            assert((c * pg) * (f * prefix) >= (c * pg) * (b * m0));
            assert(b * (a * (prefix * pe)) >= b * (c * (m0 * pg)));
        }
    }
}

} // verus!

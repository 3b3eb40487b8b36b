//! Shamir `(t, n)` secret sharing over a prime field.

use crate::field::{
    all_wf, eqm, fadd, lemma_element_ext, field_inv, fmul, in_field, is_prime, lemma_eqm_add, lemma_eqm_mod,
    lemma_eqm_mul, lemma_field_inv, lemma_prime_coprime, vals, FieldElement, FieldError,
    FiniteField,
};
use vstd::arithmetic::div_mod::*;
use vstd::arithmetic::mul::*;
use vstd::arithmetic::power::*;
use std::collections::HashMap;
use vstd::prelude::*;

verus! {

/// One share of a secret: the polynomial's value at `point`, held by share `id`.
#[derive(Debug, Clone, Copy, PartialEq, Eq, Structural)]
pub struct SecretShare {
    pub id: usize,
    pub value: FieldElement,
    pub point: FieldElement,
}

/// `sum_{j < k} c[j] * x^j`, over the integers.
pub open spec fn poly(c: Seq<int>, x: int, k: nat) -> int
    decreases k,
{
    if k == 0 {
        0
    } else {
        poly(c, x, (k - 1) as nat) + c[k - 1] * pow(x, (k - 1) as nat)
    }
}

/// Share number `i` of the polynomial with coefficients `c`, over the field of order `p`.
pub open spec fn share_holds(sh: SecretShare, c: Seq<int>, i: int, p: int) -> bool {
    &&& sh.id == i
    &&& sh.point.wf() && sh.point.md() == p && sh.point.val() == i + 1
    &&& sh.value.wf() && sh.value.md() == p && sh.value.val() == poly(c, i + 1, c.len()) % p
}

/// `s` holds the `n` shares, at points `1..=n`, of the polynomial with coefficients `c`.
pub open spec fn is_sharing(s: Seq<SecretShare>, c: Seq<int>, n: int, p: int) -> bool {
    s.len() == n && forall|i: int| 0 <= i < n ==> share_holds(#[trigger] s[i], c, i, p)
}

/// `v` holds the `n` shares of `secret` under some polynomial of `t` coefficients over the field of order `p`.
pub open spec fn is_sharing_of(v: Seq<SecretShare>, secret: int, t: int, n: int, p: int) -> bool {
    exists|c: Seq<int>|
        c.len() == t && c[0] == secret && coefficients_in(c, p) && #[trigger] is_sharing(v, c, n, p)
}

/// Coefficients of a polynomial over the field of order `p`.
pub open spec fn coefficients_in(c: Seq<int>, p: int) -> bool {
    forall|k: int| 0 <= k < c.len() ==> 0 <= #[trigger] c[k] < p
}

/// The points of a sequence of shares.
pub open spec fn points(s: Seq<SecretShare>) -> Seq<int> {
    s.map_values(|sh: SecretShare| sh.point.val())
}

/// The values of a sequence of shares.
pub open spec fn values(s: Seq<SecretShare>) -> Seq<int> {
    s.map_values(|sh: SecretShare| sh.value.val())
}

/// `prod_{j < k, j != i} (0 - xs[j])`: numerator of the `i`-th Lagrange basis polynomial at zero.
pub open spec fn lag_num(xs: Seq<int>, i: int, k: nat) -> int
    decreases k,
{
    if k == 0 {
        1
    } else if k - 1 == i {
        lag_num(xs, i, (k - 1) as nat)
    } else {
        lag_num(xs, i, (k - 1) as nat) * (-xs[k - 1])
    }
}

/// `prod_{j < k, j != i} (xs[i] - xs[j])`: its denominator.
pub open spec fn lag_den(xs: Seq<int>, i: int, k: nat) -> int
    decreases k,
{
    if k == 0 {
        1
    } else if k - 1 == i {
        lag_den(xs, i, (k - 1) as nat)
    } else {
        lag_den(xs, i, (k - 1) as nat) * (xs[i] - xs[k - 1])
    }
}

/// The `i`-th Lagrange coefficient at zero over the first `t` points, in the field.
pub open spec fn lag_coeff(xs: Seq<int>, i: int, t: nat, p: int) -> int {
    ((lag_num(xs, i, t) % p) * field_inv(lag_den(xs, i, t) % p, p)) % p
}

/// `sum_{i < k} ys[i] * lag_coeff(i)`: Lagrange interpolation at zero over the first `t` points.
pub open spec fn lagrange_at_zero(xs: Seq<int>, ys: Seq<int>, k: nat, t: nat, p: int) -> int
    decreases k,
{
    if k == 0 {
        0
    } else {
        lagrange_at_zero(xs, ys, (k - 1) as nat, t, p) + ys[k - 1] * lag_coeff(xs, k - 1, t, p)
    }
}

/// No Lagrange denominator over the first `t` points vanishes modulo `p`.
pub open spec fn lagrange_defined(xs: Seq<int>, t: nat, p: int) -> bool {
    forall|i: int| 0 <= i < t ==> #[trigger] lag_den(xs, i, t) % p != 0
}

/// The values and points of the first `t` shares lie in the field of order `p`.
pub open spec fn shares_in_field(s: Seq<SecretShare>, t: int, p: int) -> bool {
    forall|i: int| 0 <= i < t ==> (#[trigger] s[i]).value.md() == p && s[i].point.md() == p
}

/// Values and points of all shares are well formed.
pub open spec fn shares_wf(s: Seq<SecretShare>) -> bool {
    forall|i: int| 0 <= i < s.len() ==> (#[trigger] s[i]).value.wf() && s[i].point.wf()
}

/// What reconstruction from `s` yields under threshold `t` over the field of order `p`.
pub open spec fn reconstruct_outcome(s: Seq<SecretShare>, t: nat, p: int) -> Result<int, FieldError> {
    if s.len() < t {
        Err(FieldError::InsufficientShares)
    } else if !shares_in_field(s, t as int, p) {
        Err(FieldError::ModulusMismatch)
    } else if !lagrange_defined(points(s), t, p) {
        Err(FieldError::DivisionByZero)
    } else {
        Ok(lagrange_at_zero(points(s), values(s), t, t, p) % p)
    }
}

/// `r` is an element of the field of order `p` that matches `outcome`.
pub open spec fn matches_outcome(r: Result<FieldElement, FieldError>, outcome: Result<int, FieldError>, p: int) -> bool {
    match (r, outcome) {
        (Ok(e), Ok(v)) => e.wf() && e.md() == p && e.val() == v,
        (Err(e1), Err(e2)) => e1 == e2,
        _ => false,
    }
}

/// `v` is the share-wise sum of `a` and `b`.
pub open spec fn shares_added(a: Seq<SecretShare>, b: Seq<SecretShare>, v: Seq<SecretShare>) -> bool {
    &&& a.len() == b.len()
    &&& v.len() == a.len()
    &&& forall|i: int|
        0 <= i < a.len() ==> {
            &&& a[i].id == b[i].id && a[i].point == b[i].point
            &&& (#[trigger] v[i]).id == a[i].id && v[i].point == a[i].point
            &&& a[i].value.md() == b[i].value.md() && v[i].value.wf() && v[i].value.md() == a[i].value.md()
            &&& v[i].value.val() == fadd(a[i].value.val(), b[i].value.val(), a[i].value.md())
        }
}

/// `v` is `a` with every value multiplied by `k`.
pub open spec fn shares_scaled(a: Seq<SecretShare>, k: FieldElement, v: Seq<SecretShare>) -> bool {
    &&& v.len() == a.len()
    &&& forall|i: int|
        0 <= i < a.len() ==> {
            &&& (#[trigger] v[i]).id == a[i].id && v[i].point == a[i].point
            &&& a[i].value.md() == k.md() && v[i].value.wf() && v[i].value.md() == k.md()
            &&& v[i].value.val() == fmul(a[i].value.val(), k.val(), k.md())
        }
}

impl SecretShare {
    pub fn new(id: usize, value: FieldElement, point: FieldElement) -> (r: SecretShare)
        ensures
            r.id == id,
            r.value == value,
            r.point == point,
    {
        SecretShare { id, value, point }
    }

    pub fn id(&self) -> (r: usize)
        ensures
            r == self.id,
    {
        self.id
    }

    pub fn value(&self) -> (r: FieldElement)
        ensures
            r == self.value,
    {
        self.value
    }

    pub fn point(&self) -> (r: FieldElement)
        ensures
            r == self.point,
    {
        self.point
    }
}

/// A Shamir scheme: any `threshold` of the `num_shares` shares determine the secret.
#[derive(Debug, Clone, Copy)]
pub struct ShamirSecretSharing {
    pub threshold: usize,
    pub num_shares: usize,
    pub field: FiniteField,
}

impl ShamirSecretSharing {
    /// The field's modulus.
    pub open spec fn p(&self) -> int {
        self.field.md()
    }

    /// A prime field, `2 <= threshold <= num_shares`, and the points `1..=num_shares` distinct and nonzero.
    pub open spec fn wf(&self) -> bool {
        &&& self.field.wf()
        &&& 2 <= self.threshold <= self.num_shares
        &&& self.num_shares < self.p()
    }

    /// Builds a scheme over the prime field of order `modulus`.
    pub fn new(threshold: usize, num_shares: usize, modulus: u64) -> (r: Result<ShamirSecretSharing, FieldError>)
        ensures
            match r {
                Ok(s) => s.wf() && s.threshold == threshold && s.num_shares == num_shares && s.p() == modulus,
                Err(e) => ((threshold > num_shares || threshold < 2) && e == FieldError::DimensionMismatch) || (2
                    <= threshold <= num_shares && !is_prime(modulus as nat) && e == FieldError::NonPrimeModulus)
                    || (2 <= threshold <= num_shares && is_prime(modulus as nat) && num_shares >= modulus && e
                    == FieldError::DimensionMismatch),
            },
    {
        if threshold > num_shares {
            return Err(FieldError::DimensionMismatch);
        }
        if threshold < 2 {
            return Err(FieldError::DimensionMismatch);
        }
        let field = match FiniteField::new(modulus) {
            Ok(f) => f,
            Err(e) => return Err(e),
        };
        if num_shares as u128 >= modulus as u128 {
            return Err(FieldError::DimensionMismatch);
        }
        Ok(ShamirSecretSharing { threshold, num_shares, field })
    }

    /// Horner-free evaluation: `sum_k c[k] * x^k`, with the powers of `x` kept reduced.
    fn evaluate_polynomial(&self, coefficients: &[FieldElement], point: &FieldElement) -> (r: Result<FieldElement, FieldError>)
        requires
            self.wf(),
            coefficients@.len() > 0,
            in_field(coefficients@, self.p()),
            point.wf(),
            point.md() == self.p(),
        ensures
            r matches Ok(e) && e.wf() && e.md() == self.p() && e.val() == poly(
                vals(coefficients@),
                point.val(),
                coefficients@.len(),
            ) % self.p(),
    {
        let ghost p = self.p();
        let ghost c = vals(coefficients@);
        let ghost x = point.val();
        let mut result = coefficients[0];
        let mut power = self.field.one();
        proof {
            reveal_with_fuel(poly, 2);
            lemma_pow0(x);
            lemma_small_mod(result.val() as nat, p as nat);
            lemma_small_mod(1, p as nat);
            assert(pow(x, 0) == 1);
        }
        let mut k: usize = 1;
        while k < coefficients.len()
            invariant
                self.wf(),
                p == self.p(),
                c == vals(coefficients@),
                x == point.val(),
                point.wf(),
                point.md() == p,
                in_field(coefficients@, p),
                1 <= k <= coefficients@.len(),
                result.wf(),
                result.md() == p,
                power.wf(),
                power.md() == p,
                result.val() == poly(c, x, k as nat) % p,
                power.val() == pow(x, (k - 1) as nat) % p,
            decreases coefficients.len() - k,
        {
            power = match power.mul(point) {
                Ok(e) => e,
                Err(e) => return Err(e),
            };
            proof {
                lemma_pow_adds(x, (k - 1) as nat, 1);
                lemma_pow1(x);
                lemma_eqm_mod(pow(x, (k - 1) as nat), p);
                lemma_eqm_mul(pow(x, (k - 1) as nat) % p, pow(x, (k - 1) as nat), x, x, p);
                lemma_eqm_mod(pow(x, (k - 1) as nat) % p * x, p);
            }
            let term = match coefficients[k].mul(&power) {
                Ok(e) => e,
                Err(e) => return Err(e),
            };
            result = match result.add(&term) {
                Ok(e) => e,
                Err(e) => return Err(e),
            };
            proof {
                let ck = c[k as int];
                let pk = pow(x, k as nat);
                lemma_eqm_mod(power.val() * ck, p);
                lemma_eqm_mul(power.val(), pk, ck, ck, p);
                lemma_mul_is_commutative(ck, power.val());
                lemma_mul_is_commutative(ck, pk);
                lemma_eqm_mod(poly(c, x, k as nat), p);
                lemma_eqm_add(poly(c, x, k as nat) % p, poly(c, x, k as nat), term.val(), ck * pk, p);
                lemma_eqm_mod(poly(c, x, k as nat) % p + term.val(), p);
            }
            k = k + 1;
        }
        Ok(result)
    }

    /// Shares of the polynomial with the given coefficients (the first is the
    /// secret) at the points `1..=num_shares`.
    pub fn share_with_polynomial(&self, coefficients: &[FieldElement]) -> (r: Result<Vec<SecretShare>, FieldError>)
        requires
            self.wf(),
            all_wf(coefficients@),
        ensures
            match r {
                Ok(v) => coefficients@.len() > 0 && in_field(coefficients@, self.p()) && is_sharing(
                    v@,
                    vals(coefficients@),
                    self.num_shares as int,
                    self.p(),
                ),
                Err(e) => (coefficients@.len() == 0 && e == FieldError::EmptyInput) || (coefficients@.len() > 0
                    && !in_field(coefficients@, self.p()) && e == FieldError::ModulusMismatch),
            },
    {
        if coefficients.len() == 0 {
            return Err(FieldError::EmptyInput);
        }
        let p = self.field.modulus();
        let mut k: usize = 0;
        while k < coefficients.len()
            invariant
                k <= coefficients@.len(),
                p == self.p(),
                all_wf(coefficients@),
                forall|j: int| 0 <= j < k ==> (#[trigger] coefficients@[j]).md() == p,
            decreases coefficients.len() - k,
        {
            if coefficients[k].modulus() != p {
                return Err(FieldError::ModulusMismatch);
            }
            k = k + 1;
        }
        let mut shares: Vec<SecretShare> = Vec::with_capacity(self.num_shares);
        let mut i: usize = 0;
        while i < self.num_shares
            invariant
                self.wf(),
                p == self.p(),
                coefficients@.len() > 0,
                in_field(coefficients@, p as int),
                i <= self.num_shares,
                shares@.len() == i,
                forall|j: int| 0 <= j < i ==> share_holds(#[trigger] shares@[j], vals(coefficients@), j, p as int),
            decreases self.num_shares - i,
        {
            let point = self.field.element((i + 1) as u64);
            proof {
                lemma_small_mod((i + 1) as nat, p as nat);
            }
            let value = match self.evaluate_polynomial(coefficients, &point) {
                Ok(e) => e,
                Err(e) => return Err(e),
            };
            shares.push(SecretShare::new(i, value, point));
            i = i + 1;
        }
        Ok(shares)
    }

    /// Shares `secret` under a polynomial whose other `threshold - 1` coefficients are uniformly random.
    pub fn share_secret(&self, secret: FieldElement) -> (r: Result<Vec<SecretShare>, FieldError>)
        requires
            self.wf(),
            secret.wf(),
        ensures
            match r {
                Ok(v) => secret.md() == self.p() && is_sharing_of(
                    v@,
                    secret.val(),
                    self.threshold as int,
                    self.num_shares as int,
                    self.p(),
                ),
                Err(e) => secret.md() != self.p() && e == FieldError::ModulusMismatch,
            },
    {
        if secret.modulus() != self.field.modulus() {
            return Err(FieldError::ModulusMismatch);
        }
        let mut coefficients: Vec<FieldElement> = Vec::with_capacity(self.threshold);
        coefficients.push(secret);
        let mut k: usize = 1;
        while k < self.threshold
            invariant
                self.wf(),
                secret.md() == self.p(),
                1 <= k <= self.threshold,
                coefficients@.len() == k,
                coefficients@[0] == secret,
                in_field(coefficients@, self.p()),
            decreases self.threshold - k,
        {
            coefficients.push(self.field.random_element());
            k = k + 1;
        }
        let r = self.share_with_polynomial(&coefficients);
        proof {
            let c = vals(coefficients@);
            assert(c.len() == self.threshold && c[0] == secret.val());
            assert(coefficients_in(c, self.p()));
        }
        r
    }

    /// Lagrange interpolation at zero over the first `threshold` shares.
    pub fn reconstruct_secret(&self, shares: &[SecretShare]) -> (r: Result<FieldElement, FieldError>)
        requires
            self.wf(),
            shares_wf(shares@),
        ensures
            matches_outcome(r, reconstruct_outcome(shares@, self.threshold as nat, self.p()), self.p()),
    {
        let t = self.threshold;
        let p = self.field.modulus();
        let ghost xs = points(shares@);
        let ghost ys = values(shares@);
        if shares.len() < t {
            return Err(FieldError::InsufficientShares);
        }
        let mut k: usize = 0;
        while k < t
            invariant
                k <= t,
                t == self.threshold,
                t <= shares@.len(),
                p == self.p(),
                forall|j: int| 0 <= j < k ==> (#[trigger] shares@[j]).value.md() == p && shares@[j].point.md() == p,
            decreases t - k,
        {
            if shares[k].value.modulus() != p || shares[k].point.modulus() != p {
                proof {
                    let sk = shares@[k as int];
                    assert(sk.value.md() != p || sk.point.md() != p);
                    assert(!shares_in_field(shares@, t as int, p as int));
                }
                return Err(FieldError::ModulusMismatch);
            }
            k = k + 1;
        }
        let mut secret = self.field.zero();
        proof {
            lemma_small_mod(0, p as nat);
        }
        let mut i: usize = 0;
        while i < t
            invariant
                self.wf(),
                t == self.threshold,
                p == self.p(),
                t <= shares@.len(),
                shares_wf(shares@),
                shares_in_field(shares@, t as int, p as int),
                xs == points(shares@),
                ys == values(shares@),
                i <= t,
                forall|j: int| 0 <= j < i ==> #[trigger] lag_den(xs, j, t as nat) % (p as int) != 0,
                secret.wf(),
                secret.md() == p,
                secret.val() == lagrange_at_zero(xs, ys, i as nat, t as nat, p as int) % (p as int),
            decreases t - i,
        {
            let mut num = self.field.one();
            let mut den = self.field.one();
            proof {
                lemma_small_mod(1, p as nat);
            }
            let mut j: usize = 0;
            while j < t
                invariant
                    self.wf(),
                    t == self.threshold,
                    p == self.p(),
                    t <= shares@.len(),
                    shares_wf(shares@),
                    shares_in_field(shares@, t as int, p as int),
                    xs == points(shares@),
                    i < t,
                    j <= t,
                    num.wf(),
                    num.md() == p,
                    den.wf(),
                    den.md() == p,
                    num.val() == lag_num(xs, i as int, j as nat) % (p as int),
                    den.val() == lag_den(xs, i as int, j as nat) % (p as int),
                decreases t - j,
            {
                if j != i {
                    let xj = shares[j].point;
                    let xi = shares[i].point;
                    proof {
                        assert(shares@[j as int].point.md() == p);
                        assert(shares@[i as int].point.md() == p);
                    }
                    let neg = xj.neg();
                    let ghost old_num = num.val();
                    let ghost old_den = den.val();
                    num = match num.mul(&neg) {
                        Ok(e) => e,
                        Err(e) => return Err(e),
                    };
                    let diff = match xi.sub(&xj) {
                        Ok(e) => e,
                        Err(e) => return Err(e),
                    };
                    den = match den.mul(&diff) {
                        Ok(e) => e,
                        Err(e) => return Err(e),
                    };
                    proof {
                        let ln = lag_num(xs, i as int, j as nat);
                        let ld = lag_den(xs, i as int, j as nat);
                        let pi = p as int;
                        assert(xs[j as int] == xj.val());
                        assert(xs[i as int] == xi.val());
                        lemma_eqm_mod(ln, pi);
                        lemma_eqm_mod(-xj.val(), pi);
                        lemma_eqm_mul(old_num, ln, neg.val(), -xj.val(), pi);
                        lemma_eqm_mod(old_num * neg.val(), pi);
                        lemma_eqm_mod(ld, pi);
                        lemma_eqm_mod(xi.val() - xj.val(), pi);
                        lemma_eqm_mul(old_den, ld, diff.val(), xi.val() - xj.val(), pi);
                        lemma_eqm_mod(old_den * diff.val(), pi);
                    }
                }
                j = j + 1;
            }
            let inv = match den.inverse() {
                Ok(e) => e,
                Err(e) => {
                    proof {
                        if den.val() != 0 {
                            lemma_prime_coprime(p as nat, den.val() as nat);
                        }
                        assert(!lagrange_defined(xs, t as nat, p as int));
                    }
                    return Err(e);
                },
            };
            proof {
                let d = den.val();
                lemma_mul_is_commutative(inv.val(), d);
                lemma_field_inv(d, p as int);
            }
            let coefficient = match num.mul(&inv) {
                Ok(e) => e,
                Err(e) => return Err(e),
            };
            let yi = shares[i].value;
            proof {
                assert(shares@[i as int].value.md() == p);
                assert(ys[i as int] == yi.val());
            }
            let contribution = match yi.mul(&coefficient) {
                Ok(e) => e,
                Err(e) => return Err(e),
            };
            let ghost old_secret = secret.val();
            secret = match secret.add(&contribution) {
                Ok(e) => e,
                Err(e) => return Err(e),
            };
            proof {
                let pi = p as int;
                let prev = lagrange_at_zero(xs, ys, i as nat, t as nat, pi);
                let term = yi.val() * coefficient.val();
                assert(coefficient.val() == lag_coeff(xs, i as int, t as nat, pi));
                lemma_eqm_mod(prev, pi);
                lemma_eqm_mod(term, pi);
                lemma_eqm_add(old_secret, prev, contribution.val(), term, pi);
                lemma_eqm_mod(old_secret + contribution.val(), pi);
            }
            i = i + 1;
        }
        Ok(secret)
    }

    /// Shares each secret of a vector.
    pub fn share_vector(&self, secrets: &[FieldElement]) -> (r: Result<Vec<Vec<SecretShare>>, FieldError>)
        requires
            self.wf(),
            all_wf(secrets@),
        ensures
            match r {
                Ok(v) => in_field(secrets@, self.p()) && v@.len() == secrets@.len() && forall|k: int|
                    0 <= k < secrets@.len() ==> #[trigger] is_sharing_of(v@[k]@, secrets@[k].val(), self.threshold as int, self.num_shares as int, self.p()),
                Err(e) => !in_field(secrets@, self.p()) && e == FieldError::ModulusMismatch,
            },
    {
        let mut all: Vec<Vec<SecretShare>> = Vec::with_capacity(secrets.len());
        let mut k: usize = 0;
        while k < secrets.len()
            invariant
                self.wf(),
                all_wf(secrets@),
                k <= secrets@.len(),
                all@.len() == k,
                forall|j: int| 0 <= j < k ==> (#[trigger] secrets@[j]).md() == self.p(),
                forall|j: int|
                    0 <= j < k ==> #[trigger] is_sharing_of(all@[j]@, secrets@[j].val(), self.threshold as int, self.num_shares as int, self.p()),
            decreases secrets.len() - k,
        {
            let shares = match self.share_secret(secrets[k]) {
                Ok(v) => v,
                Err(e) => {
                    proof {
                        assert(secrets@[k as int].md() != self.p());
                    }
                    return Err(e);
                },
            };
            let ghost before = all@;
            all.push(shares);
            proof {
                assert forall|j: int| 0 <= j < k implies all@[j] == before[j] by {}
                assert(all@[k as int] == shares);
            }
            k = k + 1;
        }
        Ok(all)
    }

    /// Reconstructs each secret of a vector; the first failure is returned.
    pub fn reconstruct_vector(&self, shares: &[Vec<SecretShare>]) -> (r: Result<Vec<FieldElement>, FieldError>)
        requires
            self.wf(),
            forall|k: int| 0 <= k < shares@.len() ==> shares_wf((#[trigger] shares@[k])@),
        ensures
            match r {
                Ok(v) => v@.len() == shares@.len() && forall|k: int|
                    0 <= k < shares@.len() ==> matches_outcome(
                        Ok(#[trigger] v@[k]),
                        reconstruct_outcome(shares@[k]@, self.threshold as nat, self.p()),
                        self.p(),
                    ),
                Err(e) => exists|k: int|
                    0 <= k < shares@.len() && #[trigger] reconstruct_outcome(shares@[k]@, self.threshold as nat, self.p())
                        == Err::<int, FieldError>(e),
            },
    {
        let mut secrets: Vec<FieldElement> = Vec::with_capacity(shares.len());
        let mut k: usize = 0;
        while k < shares.len()
            invariant
                self.wf(),
                forall|k: int| 0 <= k < shares@.len() ==> shares_wf((#[trigger] shares@[k])@),
                k <= shares@.len(),
                secrets@.len() == k,
                forall|j: int|
                    0 <= j < k ==> matches_outcome(
                        Ok(#[trigger] secrets@[j]),
                        reconstruct_outcome(shares@[j]@, self.threshold as nat, self.p()),
                        self.p(),
                    ),
            decreases shares.len() - k,
        {
            let r = self.reconstruct_secret(&shares[k]);
            match r {
                Ok(e) => {
                    let ghost before = secrets@;
                    secrets.push(e);
                    proof {
                        assert(secrets@[k as int] == e);
                        assert forall|j: int| 0 <= j < k implies secrets@[j] == before[j] by {}
                    }
                },
                Err(e) => {
                    proof {
                        let o = reconstruct_outcome(shares@[k as int]@, self.threshold as nat, self.p());
                        assert(o == Err::<int, FieldError>(e));
                    }
                    return Err(e);
                },
            }
            k = k + 1;
        }
        Ok(secrets)
    }

    /// Shares each entry of a matrix.
    pub fn share_matrix(&self, matrix: &[Vec<FieldElement>]) -> (r: Result<Vec<Vec<Vec<SecretShare>>>, FieldError>)
        requires
            self.wf(),
            forall|i: int| 0 <= i < matrix@.len() ==> all_wf((#[trigger] matrix@[i])@),
        ensures
            match r {
                Ok(v) => v@.len() == matrix@.len() && forall|i: int|
                    0 <= i < matrix@.len() ==> in_field((#[trigger] matrix@[i])@, self.p()) && v@[i]@.len()
                        == matrix@[i]@.len() && forall|k: int|
                        0 <= k < matrix@[i]@.len() ==> #[trigger] is_sharing_of(v@[i]@[k]@, matrix@[i]@[k].val(), self.threshold as int, self.num_shares as int, self.p()),
                Err(e) => e == FieldError::ModulusMismatch && exists|i: int|
                    0 <= i < matrix@.len() && !in_field((#[trigger] matrix@[i])@, self.p()),
            },
    {
        let mut all: Vec<Vec<Vec<SecretShare>>> = Vec::with_capacity(matrix.len());
        let mut i: usize = 0;
        while i < matrix.len()
            invariant
                self.wf(),
                forall|i: int| 0 <= i < matrix@.len() ==> all_wf((#[trigger] matrix@[i])@),
                i <= matrix@.len(),
                all@.len() == i,
                forall|j: int|
                    0 <= j < i ==> in_field((#[trigger] matrix@[j])@, self.p()) && all@[j]@.len()
                        == matrix@[j]@.len() && forall|k: int|
                        0 <= k < matrix@[j]@.len() ==> #[trigger] is_sharing_of(all@[j]@[k]@, matrix@[j]@[k].val(), self.threshold as int, self.num_shares as int, self.p()),
            decreases matrix.len() - i,
        {
            let row = match self.share_vector(&matrix[i]) {
                Ok(v) => v,
                Err(e) => {
                    proof {
                        assert(!in_field(matrix@[i as int]@, self.p()));
                    }
                    return Err(e);
                },
            };
            let ghost before = all@;
            all.push(row);
            proof {
                assert forall|j: int| 0 <= j < i implies all@[j] == before[j] by {}
                assert(all@[i as int] == row);
            }
            i = i + 1;
        }
        Ok(all)
    }

    /// Reconstructs each entry of a matrix; the first failure is returned.
    pub fn reconstruct_matrix(&self, shares: &[Vec<Vec<SecretShare>>]) -> (r: Result<Vec<Vec<FieldElement>>, FieldError>)
        requires
            self.wf(),
            forall|i: int, k: int|
                0 <= i < shares@.len() && 0 <= k < shares@[i]@.len() ==> shares_wf(#[trigger] shares@[i]@[k]@),
        ensures
            match r {
                Ok(m) => m@.len() == shares@.len() && forall|i: int|
                    0 <= i < shares@.len() ==> (#[trigger] m@[i])@.len() == shares@[i]@.len() && forall|k: int|
                        0 <= k < shares@[i]@.len() ==> matches_outcome(
                            Ok(#[trigger] m@[i]@[k]),
                            reconstruct_outcome(shares@[i]@[k]@, self.threshold as nat, self.p()),
                            self.p(),
                        ),
                Err(e) => exists|i: int, k: int|
                    0 <= i < shares@.len() && 0 <= k < shares@[i]@.len() && #[trigger] reconstruct_outcome(
                        shares@[i]@[k]@,
                        self.threshold as nat,
                        self.p(),
                    ) == Err::<int, FieldError>(e),
            },
    {
        let mut matrix: Vec<Vec<FieldElement>> = Vec::with_capacity(shares.len());
        let mut i: usize = 0;
        while i < shares.len()
            invariant
                self.wf(),
                forall|i: int, k: int|
                    0 <= i < shares@.len() && 0 <= k < shares@[i]@.len() ==> shares_wf(#[trigger] shares@[i]@[k]@),
                i <= shares@.len(),
                matrix@.len() == i,
                forall|j: int|
                    0 <= j < i ==> (#[trigger] matrix@[j])@.len() == shares@[j]@.len() && forall|k: int|
                        0 <= k < shares@[j]@.len() ==> matches_outcome(
                            Ok(#[trigger] matrix@[j]@[k]),
                            reconstruct_outcome(shares@[j]@[k]@, self.threshold as nat, self.p()),
                            self.p(),
                        ),
            decreases shares.len() - i,
        {
            proof {
                assert forall|k: int| 0 <= k < shares@[i as int]@.len() implies shares_wf(
                    (#[trigger] shares@[i as int]@[k])@,
                ) by {}
            }
            let row = match self.reconstruct_vector(&shares[i]) {
                Ok(v) => v,
                Err(e) => return Err(e),
            };
            let ghost before = matrix@;
            matrix.push(row);
            proof {
                assert forall|j: int| 0 <= j < i implies matrix@[j] == before[j] by {}
                assert(matrix@[i as int] == row);
            }
            i = i + 1;
        }
        Ok(matrix)
    }

    /// Share-wise sum: a sharing of the sum of the two secrets. The shares must
    /// pair up by id and point.
    pub fn add_shares(&self, a: &[SecretShare], b: &[SecretShare]) -> (r: Result<Vec<SecretShare>, FieldError>)
        requires
            shares_wf(a@),
            shares_wf(b@),
        ensures
            match r {
                Ok(v) => shares_added(a@, b@, v@),
                Err(e) => (a@.len() != b@.len() && e == FieldError::DimensionMismatch) || (a@.len() == b@.len()
                    && (exists|i: int|
                    0 <= i < a@.len() && ((#[trigger] a@[i]).id != b@[i].id || a@[i].point != b@[i].point))
                    && e == FieldError::DimensionMismatch) || (a@.len() == b@.len() && (forall|i: int|
                    0 <= i < a@.len() ==> (#[trigger] a@[i]).id == b@[i].id && a@[i].point == b@[i].point)
                    && (exists|i: int| 0 <= i < a@.len() && (#[trigger] a@[i]).value.md() != b@[i].value.md())
                    && e == FieldError::ModulusMismatch),
            },
    {
        if a.len() != b.len() {
            return Err(FieldError::DimensionMismatch);
        }
        let mut k: usize = 0;
        while k < a.len()
            invariant
                a@.len() == b@.len(),
                k <= a@.len(),
                forall|i: int| 0 <= i < k ==> (#[trigger] a@[i]).id == b@[i].id && a@[i].point == b@[i].point,
            decreases a.len() - k,
        {
            if a[k].id != b[k].id || a[k].point != b[k].point {
                proof {
                    assert(a@[k as int].id != b@[k as int].id || a@[k as int].point != b@[k as int].point);
                }
                return Err(FieldError::DimensionMismatch);
            }
            k = k + 1;
        }
        let mut result: Vec<SecretShare> = Vec::with_capacity(a.len());
        let mut i: usize = 0;
        while i < a.len()
            invariant
                a@.len() == b@.len(),
                shares_wf(a@),
                shares_wf(b@),
                forall|i: int| 0 <= i < a@.len() ==> (#[trigger] a@[i]).id == b@[i].id && a@[i].point == b@[i].point,
                i <= a@.len(),
                result@.len() == i,
                forall|j: int|
                    0 <= j < i ==> {
                        &&& (#[trigger] result@[j]).id == a@[j].id && result@[j].point == a@[j].point
                        &&& a@[j].value.md() == b@[j].value.md() && result@[j].value.wf() && result@[j].value.md()
                            == a@[j].value.md()
                        &&& result@[j].value.val() == fadd(a@[j].value.val(), b@[j].value.val(), a@[j].value.md())
                    },
            decreases a.len() - i,
        {
            let sum = match a[i].value.add(&b[i].value) {
                Ok(e) => e,
                Err(e) => {
                    proof {
                        assert(a@[i as int].value.md() != b@[i as int].value.md());
                    }
                    return Err(e);
                },
            };
            let ghost before = result@;
            result.push(SecretShare::new(a[i].id, sum, a[i].point));
            proof {
                assert forall|j: int| 0 <= j < i implies result@[j] == before[j] by {}
            }
            i = i + 1;
        }
        Ok(result)
    }

    /// Multiplies every share value by a public constant: a sharing of the
    /// secret times that constant.
    pub fn multiply_by_constant(&self, shares: &[SecretShare], constant: FieldElement) -> (r: Result<Vec<SecretShare>, FieldError>)
        requires
            shares_wf(shares@),
            constant.wf(),
        ensures
            match r {
                Ok(v) => shares_scaled(shares@, constant, v@),
                Err(e) => e == FieldError::ModulusMismatch && exists|i: int|
                    0 <= i < shares@.len() && (#[trigger] shares@[i]).value.md() != constant.md(),
            },
    {
        let mut result: Vec<SecretShare> = Vec::with_capacity(shares.len());
        let mut i: usize = 0;
        while i < shares.len()
            invariant
                shares_wf(shares@),
                constant.wf(),
                i <= shares@.len(),
                result@.len() == i,
                forall|j: int|
                    0 <= j < i ==> {
                        &&& (#[trigger] result@[j]).id == shares@[j].id && result@[j].point == shares@[j].point
                        &&& shares@[j].value.md() == constant.md() && result@[j].value.wf()
                            && result@[j].value.md() == constant.md()
                        &&& result@[j].value.val() == fmul(shares@[j].value.val(), constant.val(), constant.md())
                    },
            decreases shares.len() - i,
        {
            let product = match shares[i].value.mul(&constant) {
                Ok(e) => e,
                Err(e) => {
                    proof {
                        assert(shares@[i as int].value.md() != constant.md());
                    }
                    return Err(e);
                },
            };
            let ghost before = result@;
            result.push(SecretShare::new(shares[i].id, product, shares[i].point));
            proof {
                assert forall|j: int| 0 <= j < i implies result@[j] == before[j] by {}
            }
            i = i + 1;
        }
        Ok(result)
    }

    pub fn threshold(&self) -> (r: usize)
        ensures
            r == self.threshold,
    {
        self.threshold
    }

    pub fn num_shares(&self) -> (r: usize)
        ensures
            r == self.num_shares,
    {
        self.num_shares
    }

    pub fn field(&self) -> (r: &FiniteField)
        ensures
            *r == self.field,
    {
        &self.field
    }
}

/// The shares among `s` that go to server `k` of `n`: those whose id is `k` modulo `n`, in order.
pub open spec fn routed(s: Seq<SecretShare>, n: int, k: int) -> Seq<SecretShare>
    decreases s.len(),
{
    if s.len() == 0 {
        Seq::empty()
    } else if (s.last().id as int) % n == k {
        routed(s.drop_last(), n, k).push(s.last())
    } else {
        routed(s.drop_last(), n, k)
    }
}

/// The share groups among `s` that go to server `k` of `n`: those whose position is `k` modulo `n`, in order.
pub open spec fn routed_groups(s: Seq<Vec<SecretShare>>, n: int, k: int) -> Seq<Vec<SecretShare>>
    decreases s.len(),
{
    if s.len() == 0 {
        Seq::empty()
    } else if (s.len() - 1) % n == k {
        routed_groups(s.drop_last(), n, k).push(s.last())
    } else {
        routed_groups(s.drop_last(), n, k)
    }
}

/// The shares held by servers `0..k`, in server order.
pub open spec fn collected(m: Map<usize, Vec<SecretShare>>, k: nat) -> Seq<SecretShare>
    decreases k,
{
    if k == 0 {
        Seq::empty()
    } else {
        collected(m, (k - 1) as nat) + if m.contains_key((k - 1) as usize) {
            m[(k - 1) as usize]@
        } else {
            Seq::empty()
        }
    }
}

/// Hands the shares of a scheme out to a number of servers.
#[derive(Debug, Clone, Copy)]
pub struct ShareDistributor {
    pub shamir: ShamirSecretSharing,
    pub num_servers: usize,
}

impl ShareDistributor {
    pub fn new(shamir: ShamirSecretSharing, num_servers: usize) -> (r: ShareDistributor)
        ensures
            r.shamir == shamir,
            r.num_servers == num_servers,
    {
        ShareDistributor { shamir, num_servers }
    }

    /// Share `i` goes to server `id mod num_servers`; a server appears only if it receives a share.
    pub fn distribute_shares(&self, shares: Vec<SecretShare>) -> (r: HashMap<usize, Vec<SecretShare>>)
        requires
            self.num_servers > 0,
        ensures
            forall|k: usize| #[trigger] r@.contains_key(k) <==> routed(shares@, self.num_servers as int, k as int).len() > 0,
            forall|k: usize| #[trigger] r@.contains_key(k) ==> r@[k]@ == routed(shares@, self.num_servers as int, k as int),
    {
        broadcast use vstd::std_specs::hash::group_hash_axioms;
        let n = self.num_servers;
        let mut map: HashMap<usize, Vec<SecretShare>> = HashMap::new();
        let mut i: usize = 0;
        while i < shares.len()
            invariant
                n == self.num_servers,
                n > 0,
                i <= shares@.len(),
                forall|k: usize| #[trigger] map@.contains_key(k) <==> routed(shares@.take(i as int), n as int, k as int).len() > 0,
                forall|k: usize| #[trigger] map@.contains_key(k) ==> map@[k]@ == routed(shares@.take(i as int), n as int, k as int),
            decreases shares.len() - i,
        {
            let s = shares[i];
            let key = s.id % n;
            let ghost prefix = shares@.take(i as int);
            let ghost next = shares@.take(i + 1);
            proof {
                assert(next.drop_last() == prefix);
                assert(next.last() == s);
            }
            let entry = map.remove(&key);
            match entry {
                Some(mut v) => {
                    v.push(s);
                    map.insert(key, v);
                },
                None => {
                    let mut v: Vec<SecretShare> = Vec::new();
                    v.push(s);
                    map.insert(key, v);
                },
            }
            proof {
                assert forall|k: usize| #[trigger] map@.contains_key(k) <==> routed(next, n as int, k as int).len() > 0 by {
                    if k != key {
                        assert(routed(next, n as int, k as int) == routed(prefix, n as int, k as int));
                    }
                }
                assert forall|k: usize| #[trigger] map@.contains_key(k) implies map@[k]@ == routed(next, n as int, k as int) by {
                    if k != key {
                        assert(routed(next, n as int, k as int) == routed(prefix, n as int, k as int));
                    }
                }
            }
            i = i + 1;
        }
        proof {
            assert(shares@.take(shares@.len() as int) == shares@);
        }
        map
    }

    /// Share group `i` goes to server `i mod num_servers`; a server appears only if it receives a group.
    pub fn distribute_vector_shares(&self, shares: Vec<Vec<SecretShare>>) -> (r: HashMap<usize, Vec<Vec<SecretShare>>>)
        requires
            self.num_servers > 0,
        ensures
            forall|k: usize| #[trigger] r@.contains_key(k) <==> routed_groups(shares@, self.num_servers as int, k as int).len() > 0,
            forall|k: usize| #[trigger] r@.contains_key(k) ==> r@[k]@ == routed_groups(shares@, self.num_servers as int, k as int),
    {
        broadcast use vstd::std_specs::hash::group_hash_axioms;
        let n = self.num_servers;
        let ghost all = shares@;
        let total = shares.len();
        let mut rest = shares;
        let mut map: HashMap<usize, Vec<Vec<SecretShare>>> = HashMap::new();
        let mut i: usize = 0;
        while i < total
            invariant
                n == self.num_servers,
                n > 0,
                all == shares@,
                total == all.len(),
                i <= total,
                rest@ == all.subrange(i as int, total as int),
                forall|k: usize| #[trigger] map@.contains_key(k) <==> routed_groups(all.take(i as int), n as int, k as int).len() > 0,
                forall|k: usize| #[trigger] map@.contains_key(k) ==> map@[k]@ == routed_groups(all.take(i as int), n as int, k as int),
            decreases total - i,
        {
            let group = rest.remove(0);
            let key = i % n;
            let ghost prefix = all.take(i as int);
            let ghost next = all.take(i + 1);
            proof {
                assert(group == all[i as int]);
                assert(rest@ =~= all.subrange(i + 1, total as int));
                assert(next.drop_last() == prefix);
                assert(next.last() == group);
            }
            let entry = map.remove(&key);
            match entry {
                Some(mut v) => {
                    v.push(group);
                    map.insert(key, v);
                },
                None => {
                    let mut v: Vec<Vec<SecretShare>> = Vec::new();
                    v.push(group);
                    map.insert(key, v);
                },
            }
            proof {
                assert forall|k: usize| #[trigger] map@.contains_key(k) <==> routed_groups(next, n as int, k as int).len() > 0 by {
                    if k != key {
                        assert(routed_groups(next, n as int, k as int) == routed_groups(prefix, n as int, k as int));
                    }
                }
                assert forall|k: usize| #[trigger] map@.contains_key(k) implies map@[k]@ == routed_groups(next, n as int, k as int) by {
                    if k != key {
                        assert(routed_groups(next, n as int, k as int) == routed_groups(prefix, n as int, k as int));
                    }
                }
            }
            i = i + 1;
        }
        proof {
            assert(all.take(total as int) == all);
        }
        map
    }

    /// The shares held by servers `0..num_servers`, in server order.
    pub fn collect_shares(&self, server_shares: &HashMap<usize, Vec<SecretShare>>) -> (r: Vec<SecretShare>)
        ensures
            r@ == collected(server_shares@, self.num_servers as nat),
    {
        broadcast use vstd::std_specs::hash::group_hash_axioms;
        let mut out: Vec<SecretShare> = Vec::new();
        let mut k: usize = 0;
        while k < self.num_servers
            invariant
                k <= self.num_servers,
                out@ == collected(server_shares@, k as nat),
            decreases self.num_servers - k,
        {
            let ghost before = out@;
            match server_shares.get(&k) {
                Some(v) => {
                    let mut j: usize = 0;
                    while j < v.len()
                        invariant
                            j <= v@.len(),
                            out@ == before + v@.take(j as int),
                        decreases v.len() - j,
                    {
                        out.push(v[j]);
                        proof {
                            assert(v@.take(j + 1) == v@.take(j as int).push(v@[j as int]));
                        }
                        j = j + 1;
                    }
                    proof {
                        assert(v@.take(v@.len() as int) == v@);
                    }
                },
                None => {
                    proof {
                        assert(before + Seq::<SecretShare>::empty() == before);
                    }
                },
            }
            k = k + 1;
        }
        out
    }
}

/// A difference of two distinct residues in `(0, p)` does not vanish modulo `p`.
proof fn lemma_distinct_points(xa: int, xb: int, p: int)
    requires
        0 < xa < p,
        0 < xb < p,
        xa != xb,
    ensures
        (xa - xb) % p != 0,
        0 < (xa - xb) % p < p,
{
    lemma_mod_bound(xa - xb, p);
    if xa > xb {
        lemma_small_mod((xa - xb) as nat, p as nat);
    } else {
        lemma_mod_multiples_vanish(1, xa - xb, p);
        lemma_small_mod((p + xa - xb) as nat, p as nat);
    }
}

/// Two-point interpolation at zero recovers the constant term of a line.
pub proof fn lemma_two_point(s: int, c1: int, xa: int, xb: int, p: int)
    requires
        is_prime(p as nat),
        0 <= s < p,
        0 < xa < p,
        0 < xb < p,
        xa != xb,
    ensures
        lagrange_defined(seq![xa, xb], 2, p),
        lagrange_at_zero(seq![xa, xb], seq![(s + c1 * xa) % p, (s + c1 * xb) % p], 2, 2, p) % p == s,
{
    let xs = seq![xa, xb];
    let ys = seq![(s + c1 * xa) % p, (s + c1 * xb) % p];
    reveal_with_fuel(lag_num, 3);
    reveal_with_fuel(lag_den, 3);
    reveal_with_fuel(lagrange_at_zero, 3);
    assert(lag_num(xs, 0, 2) == -xb);
    assert(lag_den(xs, 0, 2) == xa - xb);
    assert(lag_num(xs, 1, 2) == -xa);
    assert(lag_den(xs, 1, 2) == xb - xa);
    lemma_distinct_points(xa, xb, p);
    lemma_distinct_points(xb, xa, p);
    let d = (xa - xb) % p;
    let d2 = (xb - xa) % p;
    lemma_prime_coprime(p as nat, d as nat);
    lemma_prime_coprime(p as nat, d2 as nat);
    lemma_field_inv(d, p);
    lemma_field_inv(d2, p);
    let u = field_inv(d, p);
    let v = field_inv(d2, p);
    // The inverse of -d is -u.
    let w = (-u) % p;
    lemma_mod_bound(-u, p);
    lemma_eqm_mod(-u, p);
    lemma_eqm_mod(xb - xa, p);
    lemma_eqm_mul(w, -u, d2, xb - xa, p);
    assert((-u) * (xb - xa) == u * (xa - xb)) by (nonlinear_arith);
    lemma_eqm_mod(xa - xb, p);
    lemma_eqm_mul(u, u, d, xa - xb, p);
    lemma_small_mod(1, p as nat);
    assert((w * d2) % p == 1);
    assert(v == w);
    // Both Lagrange coefficients, up to congruence.
    let k0 = lag_coeff(xs, 0, 2, p);
    let k1 = lag_coeff(xs, 1, 2, p);
    assert(k0 == (((-xb) % p) * u) % p);
    assert(k1 == (((-xa) % p) * v) % p);
    lemma_eqm_mod(((-xb) % p) * u, p);
    lemma_eqm_mod(-xb, p);
    lemma_eqm_mul((-xb) % p, -xb, u, u, p);
    assert(eqm(k0, (-xb) * u, p));
    lemma_eqm_mod(((-xa) % p) * v, p);
    lemma_eqm_mod(-xa, p);
    lemma_eqm_mul((-xa) % p, -xa, v, -u, p);
    assert(eqm(k1, (-xa) * (-u), p));
    let ya = s + c1 * xa;
    let yb = s + c1 * xb;
    lemma_eqm_mod(ya, p);
    lemma_eqm_mod(yb, p);
    lemma_eqm_mul(ys[0], ya, k0, (-xb) * u, p);
    lemma_eqm_mul(ys[1], yb, k1, (-xa) * (-u), p);
    let total = lagrange_at_zero(xs, ys, 2, 2, p);
    assert(total == 0 + ys[0] * k0 + ys[1] * k1);
    lemma_eqm_add(ys[0] * k0, ya * ((-xb) * u), ys[1] * k1, yb * ((-xa) * (-u)), p);
    assert(ya * ((-xb) * u) == -(s * xb * u) - c1 * xa * xb * u) by (nonlinear_arith)
        requires ya == s + c1 * xa;
    assert((-xa) * (-u) == xa * u) by (nonlinear_arith);
    assert(yb * (xa * u) == s * xa * u + c1 * xa * xb * u) by (nonlinear_arith)
        requires yb == s + c1 * xb;
    assert(s * xa * u - s * xb * u == s * (u * (xa - xb))) by (nonlinear_arith);
    // u * (xa - xb) is congruent to u * d, which is 1.
    lemma_eqm_mul(s, s, u * (xa - xb), u * d, p);
    lemma_eqm_mul(s, s, u * d, 1, p);
    lemma_small_mod(s as nat, p as nat);
}

/// Lagrange numerators over the first `k <= t` points look at those points only.
proof fn lemma_lag_prefix(xs: Seq<int>, ys: Seq<int>, i: int, k: nat, t: nat, p: int)
    requires
        k <= t,
        t <= xs.len(),
        t <= ys.len(),
        0 <= i < t,
    ensures
        lag_num(xs, i, k) == lag_num(xs.take(t as int), i, k),
        lag_den(xs, i, k) == lag_den(xs.take(t as int), i, k),
    decreases k,
{
    if k > 0 {
        lemma_lag_prefix(xs, ys, i, (k - 1) as nat, t, p);
    }
}

/// Interpolation over the first `t` points looks at those points and values only.
proof fn lemma_lagrange_prefix(xs: Seq<int>, ys: Seq<int>, k: nat, t: nat, p: int)
    requires
        k <= t,
        t <= xs.len(),
        t <= ys.len(),
    ensures
        lagrange_at_zero(xs, ys, k, t, p) == lagrange_at_zero(xs.take(t as int), ys.take(t as int), k, t, p),
        forall|i: int| 0 <= i < t ==> #[trigger] lag_den(xs, i, t) == lag_den(xs.take(t as int), i, t),
    decreases k,
{
    assert forall|i: int| 0 <= i < t implies #[trigger] lag_den(xs, i, t) == lag_den(xs.take(t as int), i, t) by {
        lemma_lag_prefix(xs, ys, i, t, t, p);
    }
    if k > 0 {
        lemma_lagrange_prefix(xs, ys, (k - 1) as nat, t, p);
        lemma_lag_prefix(xs, ys, k - 1, t, t, p);
    }
}

/// Reconstruction looks at the first `t` shares only.
pub proof fn lemma_outcome_prefix(s: Seq<SecretShare>, t: nat, p: int)
    requires
        t <= s.len(),
    ensures
        reconstruct_outcome(s, t, p) == reconstruct_outcome(s.take(t as int), t, p),
{
    let pre = s.take(t as int);
    assert(points(pre) == points(s).take(t as int));
    assert(values(pre) == values(s).take(t as int));
    lemma_lagrange_prefix(points(s), values(s), t, t, p);
    if shares_in_field(s, t as int, p) {
        assert forall|i: int| 0 <= i < t implies (#[trigger] pre[i]).value.md() == p && pre[i].point.md() == p by {
            assert(pre[i] == s[i]);
        }
    }
    if shares_in_field(pre, t as int, p) {
        assert forall|i: int| 0 <= i < t implies (#[trigger] s[i]).value.md() == p && s[i].point.md() == p by {
            assert(pre[i] == s[i]);
        }
    }
    if lagrange_defined(points(s), t, p) {
        assert forall|i: int| 0 <= i < t implies #[trigger] lag_den(points(pre), i, t) % p != 0 by {
            assert(lag_den(points(s), i, t) == lag_den(points(s).take(t as int), i, t));
        }
    }
    if lagrange_defined(points(pre), t, p) {
        assert forall|i: int| 0 <= i < t implies #[trigger] lag_den(points(s), i, t) % p != 0 by {
            assert(lag_den(points(s), i, t) == lag_den(points(s).take(t as int), i, t));
        }
    }
}

/// Any two distinct shares of a threshold-two sharing of `secret` reconstruct
/// exactly `secret`; so does the whole sharing.
pub proof fn lemma_round_trip(v: Seq<SecretShare>, secret: int, n: int, p: int, a: int, b: int)
    requires
        is_prime(p as nat),
        2 <= n < p,
        0 <= secret < p,
        is_sharing_of(v, secret, 2, n, p),
        0 <= a < n,
        0 <= b < n,
        a != b,
    ensures
        reconstruct_outcome(seq![v[a], v[b]], 2, p) == Ok::<int, FieldError>(secret),
        reconstruct_outcome(v, 2, p) == Ok::<int, FieldError>(secret),
{
    lemma_round_trip_pair(v, secret, n, p, a, b);
    lemma_round_trip_pair(v, secret, n, p, 0, 1);
    lemma_outcome_prefix(v, 2, p);
    assert(v.take(2) == seq![v[0], v[1]]);
}

proof fn lemma_round_trip_pair(v: Seq<SecretShare>, secret: int, n: int, p: int, a: int, b: int)
    requires
        is_prime(p as nat),
        n < p,
        0 <= secret < p,
        is_sharing_of(v, secret, 2, n, p),
        0 <= a < n,
        0 <= b < n,
        a != b,
    ensures
        reconstruct_outcome(seq![v[a], v[b]], 2, p) == Ok::<int, FieldError>(secret),
{
    let c = choose|c: Seq<int>|
        c.len() == 2 && c[0] == secret && coefficients_in(c, p) && #[trigger] is_sharing(v, c, n, p);
    assert(share_holds(v[a], c, a, p));
    assert(share_holds(v[b], c, b, p));
    let pair = seq![v[a], v[b]];
    reveal_with_fuel(poly, 3);
    lemma_pow0(a + 1);
    lemma_pow1(a + 1);
    lemma_pow0(b + 1);
    lemma_pow1(b + 1);
    assert(poly(c, a + 1, 2) == secret + c[1] * (a + 1));
    assert(poly(c, b + 1, 2) == secret + c[1] * (b + 1));
    assert(points(pair) == seq![a + 1, b + 1]);
    assert(values(pair) == seq![(secret + c[1] * (a + 1)) % p, (secret + c[1] * (b + 1)) % p]);
    lemma_two_point(secret, c[1], a + 1, b + 1, p);
    assert(shares_in_field(pair, 2, p));
}

/// Two sharings under one scheme line up: share `i` of each has the same id
/// and the same point, and their values lie in the same field, so
/// `add_shares` succeeds on them.
pub proof fn lemma_sharings_align(v1: Seq<SecretShare>, v2: Seq<SecretShare>, s1: int, s2: int, t: int, n: int, p: int)
    requires
        is_sharing_of(v1, s1, t, n, p),
        is_sharing_of(v2, s2, t, n, p),
    ensures
        v1.len() == v2.len(),
        forall|i: int|
            0 <= i < n ==> (#[trigger] v1[i]).id == v2[i].id && v1[i].point == v2[i].point && v1[i].value.md()
                == v2[i].value.md(),
{
    let c1 = choose|c: Seq<int>| c.len() == t && c[0] == s1 && coefficients_in(c, p) && #[trigger] is_sharing(v1, c, n, p);
    let c2 = choose|c: Seq<int>| c.len() == t && c[0] == s2 && coefficients_in(c, p) && #[trigger] is_sharing(v2, c, n, p);
    assert forall|i: int| 0 <= i < n implies (#[trigger] v1[i]).id == v2[i].id && v1[i].point == v2[i].point
        && v1[i].value.md() == v2[i].value.md() by {
        assert(share_holds(v1[i], c1, i, p));
        assert(share_holds(v2[i], c2, i, p));
        lemma_element_ext(v1[i].point, v2[i].point);
    }
}

/// The share-wise sum of sharings of `s1` and `s2` is a sharing of `s1 + s2`.
pub proof fn lemma_sharing_add(v1: Seq<SecretShare>, v2: Seq<SecretShare>, sum: Seq<SecretShare>, s1: int, s2: int, t: int, n: int, p: int)
    requires
        p > 1,
        t >= 1,
        is_sharing_of(v1, s1, t, n, p),
        is_sharing_of(v2, s2, t, n, p),
        shares_added(v1, v2, sum),
    ensures
        is_sharing_of(sum, fadd(s1, s2, p), t, n, p),
{
    let c1 = choose|c: Seq<int>| c.len() == t && c[0] == s1 && coefficients_in(c, p) && #[trigger] is_sharing(v1, c, n, p);
    let c2 = choose|c: Seq<int>| c.len() == t && c[0] == s2 && coefficients_in(c, p) && #[trigger] is_sharing(v2, c, n, p);
    let c = Seq::new(t as nat, |k: int| (c1[k] + c2[k]) % p);
    assert forall|k: int| 0 <= k < c.len() implies 0 <= #[trigger] c[k] < p by {
        lemma_mod_bound(c1[k] + c2[k], p);
    }
    assert forall|i: int| 0 <= i < n implies share_holds(#[trigger] sum[i], c, i, p) by {
        assert(share_holds(v1[i], c1, i, p));
        assert(share_holds(v2[i], c2, i, p));
        lemma_poly_add(c1, c2, c, i + 1, p, t as nat);
        lemma_eqm_mod(poly(c1, i + 1, t as nat), p);
        lemma_eqm_mod(poly(c2, i + 1, t as nat), p);
        lemma_eqm_add(v1[i].value.val(), poly(c1, i + 1, t as nat), v2[i].value.val(), poly(c2, i + 1, t as nat), p);
        lemma_eqm_mod(v1[i].value.val() + v2[i].value.val(), p);
    }
    assert(is_sharing(sum, c, n, p));
}

/// Coefficient-wise sums of polynomials evaluate to sums, modulo `p`.
proof fn lemma_poly_add(c1: Seq<int>, c2: Seq<int>, c: Seq<int>, x: int, p: int, k: nat)
    requires
        p > 0,
        k <= c1.len(),
        k <= c2.len(),
        k <= c.len(),
        forall|j: int| 0 <= j < k ==> #[trigger] c[j] == (c1[j] + c2[j]) % p,
    ensures
        eqm(poly(c, x, k), poly(c1, x, k) + poly(c2, x, k), p),
    decreases k,
{
    if k > 0 {
        let j = (k - 1) as int;
        lemma_poly_add(c1, c2, c, x, p, (k - 1) as nat);
        let e = pow(x, j as nat);
        lemma_eqm_mod(c1[j] + c2[j], p);
        lemma_eqm_mul(c[j], c1[j] + c2[j], e, e, p);
        lemma_eqm_add(poly(c, x, (k - 1) as nat), poly(c1, x, (k - 1) as nat) + poly(c2, x, (k - 1) as nat), c[j] * e, (c1[j] + c2[j]) * e, p);
        assert((poly(c1, x, (k - 1) as nat) + poly(c2, x, (k - 1) as nat)) + (c1[j] + c2[j]) * e == (poly(c1, x, (k - 1) as nat) + c1[j] * e) + (poly(c2, x, (k - 1) as nat) + c2[j] * e)) by (nonlinear_arith);
    }
}

/// Scaling polynomial coefficients by `m` scales the evaluation, modulo `p`.
proof fn lemma_poly_scale(c1: Seq<int>, c: Seq<int>, m: int, x: int, p: int, k: nat)
    requires
        p > 0,
        k <= c1.len(),
        k <= c.len(),
        forall|j: int| 0 <= j < k ==> #[trigger] c[j] == (c1[j] * m) % p,
    ensures
        eqm(poly(c, x, k), poly(c1, x, k) * m, p),
    decreases k,
{
    if k > 0 {
        let j = (k - 1) as int;
        lemma_poly_scale(c1, c, m, x, p, (k - 1) as nat);
        let e = pow(x, j as nat);
        lemma_eqm_mod(c1[j] * m, p);
        lemma_eqm_mul(c[j], c1[j] * m, e, e, p);
        lemma_eqm_add(poly(c, x, (k - 1) as nat), poly(c1, x, (k - 1) as nat) * m, c[j] * e, (c1[j] * m) * e, p);
        assert(poly(c1, x, (k - 1) as nat) * m + (c1[j] * m) * e == (poly(c1, x, (k - 1) as nat) + c1[j] * e) * m) by (nonlinear_arith);
    }
}

/// Multiplying every share of a sharing of `s` by `k` gives a sharing of `s * k`.
pub proof fn lemma_sharing_scale(v: Seq<SecretShare>, k: FieldElement, out: Seq<SecretShare>, s: int, t: int, n: int, p: int)
    requires
        p > 1,
        t >= 1,
        k.wf(),
        k.md() == p,
        is_sharing_of(v, s, t, n, p),
        shares_scaled(v, k, out),
    ensures
        is_sharing_of(out, fmul(s, k.val(), p), t, n, p),
{
    let c1 = choose|c: Seq<int>| c.len() == t && c[0] == s && coefficients_in(c, p) && #[trigger] is_sharing(v, c, n, p);
    let c = Seq::new(t as nat, |j: int| (c1[j] * k.val()) % p);
    assert forall|j: int| 0 <= j < c.len() implies 0 <= #[trigger] c[j] < p by {
        lemma_mod_bound(c1[j] * k.val(), p);
    }
    assert forall|i: int| 0 <= i < n implies share_holds(#[trigger] out[i], c, i, p) by {
        assert(share_holds(v[i], c1, i, p));
        lemma_poly_scale(c1, c, k.val(), i + 1, p, t as nat);
        lemma_eqm_mod(poly(c1, i + 1, t as nat), p);
        lemma_eqm_mul(v[i].value.val(), poly(c1, i + 1, t as nat), k.val(), k.val(), p);
        lemma_eqm_mod(v[i].value.val() * k.val(), p);
    }
    assert(is_sharing(out, c, n, p));
}

/// Linearity of reconstruction: from any two distinct shares, the share-wise
/// sum of threshold-two sharings of `s1` and `s2` reconstructs `s1 + s2`, and
/// a sharing of `s1` scaled by `k` reconstructs `k * s1`.
pub proof fn lemma_linearity(
    v1: Seq<SecretShare>,
    v2: Seq<SecretShare>,
    sum: Seq<SecretShare>,
    k: FieldElement,
    scaled: Seq<SecretShare>,
    s1: int,
    s2: int,
    n: int,
    p: int,
    a: int,
    b: int,
)
    requires
        is_prime(p as nat),
        n < p,
        0 <= s1 < p,
        0 <= s2 < p,
        k.wf(),
        k.md() == p,
        is_sharing_of(v1, s1, 2, n, p),
        is_sharing_of(v2, s2, 2, n, p),
        shares_added(v1, v2, sum),
        shares_scaled(v1, k, scaled),
        0 <= a < n,
        0 <= b < n,
        a != b,
    ensures
        reconstruct_outcome(seq![sum[a], sum[b]], 2, p) == Ok::<int, FieldError>(fadd(s1, s2, p)),
        reconstruct_outcome(seq![scaled[a], scaled[b]], 2, p) == Ok::<int, FieldError>(fmul(k.val(), s1, p)),
        reconstruct_outcome(sum, 2, p) == Ok::<int, FieldError>(fadd(s1, s2, p)),
        reconstruct_outcome(scaled, 2, p) == Ok::<int, FieldError>(fmul(k.val(), s1, p)),
{
    lemma_sharing_add(v1, v2, sum, s1, s2, 2, n, p);
    lemma_mod_bound(s1 + s2, p);
    lemma_round_trip(sum, fadd(s1, s2, p), n, p, a, b);
    lemma_sharing_scale(v1, k, scaled, s1, 2, n, p);
    lemma_mod_bound(s1 * k.val(), p);
    lemma_mul_is_commutative(s1, k.val());
    lemma_round_trip(scaled, fmul(s1, k.val(), p), n, p, a, b);
}

} // verus!

//! Prime-field elements and operations.

use rand::Rng;
use vstd::prelude::*;
use vstd::arithmetic::div_mod::*;
use vstd::arithmetic::mul::*;
use vstd::arithmetic::power::*;

verus! {

/// Errors of field operations.
#[derive(Debug, Clone, Copy, PartialEq, Eq, Structural)]
pub enum FieldError {
    ModulusMismatch,
    DivisionByZero,
    NoInverse,
    NonPrimeModulus,
    DimensionMismatch,
    EmptyInput,
    InsufficientShares,
}

/// `(x + y) mod p`.
pub open spec fn fadd(x: int, y: int, p: int) -> int {
    (x + y) % p
}

/// `(x - y) mod p`.
pub open spec fn fsub(x: int, y: int, p: int) -> int {
    (x - y) % p
}

/// `(x * y) mod p`.
pub open spec fn fmul(x: int, y: int, p: int) -> int {
    (x * y) % p
}

/// `-x mod p`.
pub open spec fn fneg(x: int, p: int) -> int {
    (-x) % p
}

/// The field operations form a commutative ring with identities 0 and 1, in
/// which `-a` is the additive inverse of `a`: associativity and commutativity of
/// `+` and `*`, distributivity, `a + 0 = a`, `a * 1 = a`, `a + (-a) = 0`.
pub proof fn lemma_ring_laws(a: int, b: int, c: int, p: int)
    requires
        p > 1,
        0 <= a < p,
        0 <= b < p,
        0 <= c < p,
    ensures
        fadd(fadd(a, b, p), c, p) == fadd(a, fadd(b, c, p), p),
        fadd(a, b, p) == fadd(b, a, p),
        fmul(fmul(a, b, p), c, p) == fmul(a, fmul(b, c, p), p),
        fmul(a, b, p) == fmul(b, a, p),
        fmul(a, fadd(b, c, p), p) == fadd(fmul(a, b, p), fmul(a, c, p), p),
        fadd(a, 0, p) == a,
        fmul(a, 1, p) == a,
        fadd(a, fneg(a, p), p) == 0,
{
    lemma_add_mod_noop_right(a + b, c, p);
    lemma_add_mod_noop(a + b, c, p);
    lemma_mod_twice(a + b, p);
    lemma_small_mod(c as nat, p as nat);
    lemma_add_mod_noop(a, b + c, p);
    lemma_mod_twice(b + c, p);
    lemma_small_mod(a as nat, p as nat);
    assert((a + b) + c == a + (b + c));
    lemma_mul_mod_noop_left(a * b, c, p);
    lemma_mul_mod_noop_right(a, b * c, p);
    lemma_mul_is_associative(a, b, c);
    lemma_mul_is_commutative(a, b);
    lemma_mul_mod_noop_right(a, b + c, p);
    lemma_mul_is_distributive_add(a, b, c);
    lemma_add_mod_noop(a * b, a * c, p);
    lemma_add_mod_noop_right(a, -a, p);
    lemma_mod_self_0(p);
    lemma_small_mod(0, p as nat);
}

/// In a prime field every nonzero element `a` has an inverse: `a * a^-1 = 1`,
/// and `inverse` succeeds on `a` (it fails only when the gcd is not 1).
pub proof fn lemma_nonzero_invertible(a: FieldElement)
    requires
        a.wf(),
        is_prime(a.md() as nat),
        a.val() != 0,
    ensures
        gcd(a.md() as nat, a.val() as nat) == 1,
        0 <= field_inv(a.val(), a.md()) < a.md(),
        fmul(a.val(), field_inv(a.val(), a.md()), a.md()) == 1,
{
    lemma_prime_coprime(a.md() as nat, a.val() as nat);
    lemma_field_inv(a.val(), a.md());
    lemma_mul_is_commutative(a.val(), field_inv(a.val(), a.md()));
}

/// `a` and `b` are congruent modulo `p`.
pub open spec fn eqm(a: int, b: int, p: int) -> bool {
    a % p == b % p
}

pub proof fn lemma_eqm_add(a: int, a2: int, b: int, b2: int, p: int)
    requires
        p > 0,
        eqm(a, a2, p),
        eqm(b, b2, p),
    ensures
        eqm(a + b, a2 + b2, p),
{
    lemma_add_mod_noop(a, b, p);
    lemma_add_mod_noop(a2, b2, p);
}

pub proof fn lemma_eqm_mul(a: int, a2: int, b: int, b2: int, p: int)
    requires
        p > 0,
        eqm(a, a2, p),
        eqm(b, b2, p),
    ensures
        eqm(a * b, a2 * b2, p),
{
    lemma_mul_mod_noop(a, b, p);
    lemma_mul_mod_noop(a2, b2, p);
}

pub proof fn lemma_eqm_mod(a: int, p: int)
    requires
        p > 0,
    ensures
        eqm(a % p, a, p),
{
    lemma_mod_twice(a, p);
}

/// Bezout coefficients: `x * a + y * b == gcd(a, b)`.
pub proof fn lemma_bezout(a: nat, b: nat) -> (r: (int, int))
    ensures
        r.0 * a + r.1 * b == gcd(a, b),
    decreases b,
{
    if b == 0 {
        (1, 0)
    } else {
        let (x, y) = lemma_bezout(b, a % b);
        lemma_fundamental_div_mod(a as int, b as int);
        let q = (a / b) as int;
        assert(y * a + (x - y * q) * b == x * b + y * (a - q * b)) by (nonlinear_arith);
        (y, x - y * q)
    }
}

/// The inverse of `d` modulo `p`, where one exists.
pub open spec fn field_inv(d: int, p: int) -> int {
    choose|x: int| 0 <= x < p && #[trigger] ((x * d) % p) == 1
}

/// Inverses exist for residues coprime to the modulus, and are unique.
pub proof fn lemma_field_inv(d: int, p: int)
    requires
        p > 1,
        0 <= d < p,
        gcd(p as nat, d as nat) == 1,
    ensures
        0 <= field_inv(d, p) < p,
        (field_inv(d, p) * d) % p == 1,
        forall|x: int| 0 <= x < p && #[trigger] ((x * d) % p) == 1 ==> x == field_inv(d, p),
{
    let (x, y) = lemma_bezout(p as nat, d as nat);
    let w = y % p;
    lemma_mod_bound(y, p);
    lemma_mod_multiples_vanish(x, y * d, p);
    lemma_small_mod(1, p as nat);
    lemma_mul_mod_noop_left(y, d, p);
    assert((w * d) % p == 1);
    let f = field_inv(d, p);
    assert forall|z: int| 0 <= z < p && #[trigger] ((z * d) % p) == 1 implies z == field_inv(d, p) by {
        lemma_inverse_unique(z, f, d, p);
    }
}

/// Two inverses of the same residue coincide.
proof fn lemma_inverse_unique(x: int, y: int, d: int, p: int)
    requires
        p > 1,
        0 <= x < p,
        0 <= y < p,
        (x * d) % p == 1,
        (y * d) % p == 1,
    ensures
        x == y,
{
    lemma_small_mod(1, p as nat);
    lemma_eqm_mul(x, x, y * d, 1, p);
    lemma_eqm_mul(x * d, 1, y, y, p);
    lemma_mul_is_associative(x, d, y);
    lemma_mul_is_commutative(d, y);
    lemma_mul_is_associative(x, y, d);
    lemma_small_mod(x as nat, p as nat);
    lemma_small_mod(y as nat, p as nat);
}

/// Elements with the same residue and modulus are equal.
pub proof fn lemma_element_ext(a: FieldElement, b: FieldElement)
    requires
        a.val() == b.val(),
        a.md() == b.md(),
    ensures
        a == b,
{
}

/// Greatest common divisor, by Euclid's recursion.
pub open spec fn gcd(a: nat, b: nat) -> nat
    decreases b,
{
    if b == 0 {
        a
    } else {
        gcd(b, a % b)
    }
}

/// `d` divides `n`.
pub open spec fn divides(d: nat, n: nat) -> bool {
    exists|k: nat| #[trigger] (k * d) == n
}

/// `n` is a prime number: at least 2, and no number in `[2, n)` divides it.
pub open spec fn is_prime(n: nat) -> bool {
    n >= 2 && forall|d: nat| 2 <= d < n ==> #[trigger] (n % d) != 0
}

/// The greatest common divisor divides both arguments.
pub proof fn lemma_gcd_divides(a: nat, b: nat)
    ensures
        divides(gcd(a, b), a),
        divides(gcd(a, b), b),
    decreases b,
{
    if b == 0 {
        assert(1 * a == a);
        assert(0 * a == 0);
    } else {
        lemma_gcd_divides(b, a % b);
        let g = gcd(b, a % b);
        let k1 = choose|k: nat| #[trigger] (k * g) == b;
        let k2 = choose|k: nat| #[trigger] (k * g) == a % b;
        lemma_fundamental_div_mod(a as int, b as int);
        let q = (a / b) as nat;
        assert(a == q * b + a % b);
        assert((q * k1 + k2) * g == q * (k1 * g) + k2 * g) by (nonlinear_arith);
        assert(((q * k1 + k2) as nat) * g == a);
    }
}

/// Over a prime modulus, every nonzero residue is coprime to the modulus.
pub proof fn lemma_prime_coprime(p: nat, a: nat)
    requires
        is_prime(p),
        0 < a < p,
    ensures
        gcd(p, a) == 1,
{
    lemma_gcd_divides(p, a);
    let g = gcd(p, a);
    let ka = choose|k: nat| #[trigger] (k * g) == a;
    let kp = choose|k: nat| #[trigger] (k * g) == p;
    if g == 0 {
        assert(ka * 0 == 0);
    } else {
        if ka == 0 {
            assert(ka * g == 0) by (nonlinear_arith)
                requires ka == 0;
        }
        assert(g <= a) by (nonlinear_arith)
            requires ka >= 1, ka * g == a, g > 0;
        if g >= 2 {
            lemma_mod_multiples_basic(kp as int, g as int);
            assert(p % g == 0);
        }
    }
}

/// An odd number has no even divisor.
proof fn lemma_odd_no_even_divisor(n: nat, d: nat)
    requires
        n % 2 == 1,
        d >= 2,
        d % 2 == 0,
    ensures
        n % d != 0,
{
    if n % d == 0 {
        lemma_fundamental_div_mod(n as int, d as int);
        let k = n / d;
        let h = d / 2;
        assert(d == 2 * h);
        assert(n == (h * k) * 2) by (nonlinear_arith)
            requires n == d * k, d == 2 * h;
        lemma_mod_multiples_basic((h * k) as int, 2);
    }
}

/// A composite `n` has a divisor no larger than its square root.
proof fn lemma_small_cofactor(n: nat, d: nat, i: nat)
    requires
        2 <= d < n,
        n % d == 0,
        d >= i,
        i * i > n,
    ensures
        2 <= n / d < i,
        n % (n / d) == 0,
{
    lemma_fundamental_div_mod(n as int, d as int);
    let k = n / d;
    assert(n == d * k);
    assert(k >= 2) by (nonlinear_arith)
        requires n == d * k, d < n, d >= 2;
    assert(k < i) by (nonlinear_arith)
        requires n == d * k, d >= i, i * i > n, k >= 0;
    lemma_mod_multiples_basic(d as int, k as int);
    assert(n == d * k);
}

/// One Euclid step keeps the Bezout congruences.
proof fn lemma_euclid_step(t: int, nt: int, a: int, r: int, nr: int, q: int, p: int)
    requires
        p > 0,
        (t * a) % p == r % p,
        (nt * a) % p == nr % p,
    ensures
        (((t - q * nt) % p) * a) % p == (r - q * nr) % p,
{
    lemma_mul_mod_noop_left(t - q * nt, a, p);
    assert((t - q * nt) * a == t * a - q * (nt * a)) by (nonlinear_arith);
    lemma_sub_mod_noop(t * a, q * (nt * a), p);
    lemma_mul_mod_noop_right(q, nt * a, p);
    lemma_mul_mod_noop_right(q, nr, p);
    lemma_sub_mod_noop(r, q * nr, p);
}

/// One square-and-multiply step keeps `result * base^exponent` modulo `p`.
proof fn lemma_pow_step(result: int, base: int, exponent: nat, p: int)
    requires
        p > 0,
    ensures
        ((if exponent % 2 == 1 { (result * base) % p } else { result }) * pow(
            (base * base) % p,
            exponent / 2,
        )) % p == (result * pow(base, exponent)) % p,
{
    let k = exponent / 2;
    let bit = exponent % 2;
    assert(exponent == bit + 2 * k);
    lemma_pow_adds(base, bit, 2 * k);
    lemma_pow_multiplies(base, 2, k);
    lemma_square_is_pow2(base);
    lemma_pow_mod_noop(base * base, k, p);
    let x = pow(base * base, k);
    let xr = pow((base * base) % p, k);
    assert(pow(base, 2 * k) == x);
    let r2 = if bit == 1 { (result * base) % p } else { result };
    lemma_mul_mod_noop_right(r2, xr, p);
    lemma_mul_mod_noop_right(r2, x, p);
    if bit == 1 {
        lemma_pow1(base);
        lemma_mul_mod_noop_left(result * base, x, p);
        lemma_mul_is_associative(result, base, x);
    } else {
        lemma_pow0(base);
    }
}

/// `(a * b) mod p` through a 128-bit product.
fn mul_mod(a: u64, b: u64, p: u64) -> (r: u64)
    requires
        p > 0,
    ensures
        r == (a as int * b as int) % p as int,
        r < p,
{
    let x = a as u128;
    let y = b as u128;
    proof {
        assert(x * y <= u64::MAX as int * u64::MAX as int) by (nonlinear_arith)
            requires x <= u64::MAX, y <= u64::MAX;
    }
    let product = x * y;
    let m = p as u128;
    let reduced = product % m;
    proof {
        lemma_mod_bound(product as int, m as int);
    }
    reduced as u64
}

/// Relies on rand's `Rng::gen_range` over `thread_rng`: a value in `[0, bound)`.
#[verifier::external_body]
fn random_below(bound: u64) -> (r: u64)
    requires
        bound > 0,
    ensures
        r < bound,
{
    rand::thread_rng().gen_range(0..bound)
}

/// An element of the prime field of order `modulus`.
#[derive(Debug, Clone, Copy, PartialEq, Eq, Structural)]
pub struct FieldElement {
    value: u64,
    modulus: u64,
}

impl FieldElement {
    /// The element's residue.
    pub closed spec fn val(&self) -> int {
        self.value as int
    }

    /// The element's modulus.
    pub closed spec fn md(&self) -> int {
        self.modulus as int
    }

    /// The residue lies in `[0, modulus)`.
    pub open spec fn wf(&self) -> bool {
        0 <= self.val() < self.md()
    }

    /// Reduces `value` modulo `modulus`.
    pub fn new(value: u64, modulus: u64) -> (r: FieldElement)
        requires
            modulus > 0,
        ensures
            r.wf(),
            r.val() == value as int % modulus as int,
            r.md() == modulus,
    {
        FieldElement { value: value % modulus, modulus }
    }

    pub fn zero(modulus: u64) -> (r: FieldElement)
        requires
            modulus > 0,
        ensures
            r.wf(),
            r.val() == 0,
            r.md() == modulus,
    {
        FieldElement { value: 0, modulus }
    }

    pub fn one(modulus: u64) -> (r: FieldElement)
        requires
            modulus > 1,
        ensures
            r.wf(),
            r.val() == 1,
            r.md() == modulus,
    {
        FieldElement { value: 1, modulus }
    }

    pub fn value(&self) -> (r: u64)
        ensures
            r == self.val(),
    {
        self.value
    }

    pub fn modulus(&self) -> (r: u64)
        ensures
            r == self.md(),
    {
        self.modulus
    }

    pub fn is_zero(&self) -> (r: bool)
        ensures
            r == (self.val() == 0),
    {
        self.value == 0
    }

    pub fn is_one(&self) -> (r: bool)
        ensures
            r == (self.val() == 1),
    {
        self.value == 1
    }

    /// Modular addition; the sum is reduced without overflow for any `u64` modulus.
    pub fn add(&self, other: &FieldElement) -> (r: Result<FieldElement, FieldError>)
        requires
            self.wf(),
            other.wf(),
        ensures
            match r {
                Ok(e) => self.md() == other.md() && e.wf() && e.md() == self.md()
                    && e.val() == fadd(self.val(), other.val(), self.md()),
                Err(err) => self.md() != other.md() && err == FieldError::ModulusMismatch,
            },
    {
        if self.modulus != other.modulus {
            return Err(FieldError::ModulusMismatch);
        }
        let room = self.modulus - other.value;
        let result = if self.value >= room {
            self.value - room
        } else {
            self.value + other.value
        };
        proof {
            let p = self.md();
            if self.value >= room {
                lemma_mod_sub_multiples_vanish(self.val() + other.val(), p);
                lemma_small_mod(result as nat, p as nat);
            } else {
                lemma_small_mod(result as nat, p as nat);
            }
        }
        Ok(FieldElement { value: result, modulus: self.modulus })
    }

    /// Modular subtraction, using `p - (b - a)` when `b > a`.
    pub fn sub(&self, other: &FieldElement) -> (r: Result<FieldElement, FieldError>)
        requires
            self.wf(),
            other.wf(),
        ensures
            match r {
                Ok(e) => self.md() == other.md() && e.wf() && e.md() == self.md()
                    && e.val() == fsub(self.val(), other.val(), self.md()),
                Err(err) => self.md() != other.md() && err == FieldError::ModulusMismatch,
            },
    {
        if self.modulus != other.modulus {
            return Err(FieldError::ModulusMismatch);
        }
        let diff = if self.value >= other.value {
            self.value - other.value
        } else {
            self.modulus - (other.value - self.value)
        };
        proof {
            let p = self.md();
            if self.value >= other.value {
                lemma_small_mod(diff as nat, p as nat);
            } else {
                lemma_mod_multiples_vanish(1, self.val() - other.val(), p);
                lemma_small_mod(diff as nat, p as nat);
            }
        }
        Ok(FieldElement { value: diff, modulus: self.modulus })
    }

    /// Modular multiplication through a 128-bit product.
    pub fn mul(&self, other: &FieldElement) -> (r: Result<FieldElement, FieldError>)
        requires
            self.wf(),
            other.wf(),
        ensures
            match r {
                Ok(e) => self.md() == other.md() && e.wf() && e.md() == self.md()
                    && e.val() == fmul(self.val(), other.val(), self.md()),
                Err(err) => self.md() != other.md() && err == FieldError::ModulusMismatch,
            },
    {
        if self.modulus != other.modulus {
            return Err(FieldError::ModulusMismatch);
        }
        Ok(FieldElement { value: mul_mod(self.value, other.value, self.modulus), modulus: self.modulus })
    }

    /// Division: multiplication by the inverse of `other`.
    pub fn div(&self, other: &FieldElement) -> (r: Result<FieldElement, FieldError>)
        requires
            self.wf(),
            other.wf(),
        ensures
            match r {
                Ok(e) => self.md() == other.md() && other.val() != 0
                    && gcd(other.md() as nat, other.val() as nat) == 1 && e.wf() && e.md()
                    == self.md() && fmul(e.val(), other.val(), self.md()) == self.val(),
                Err(err) => (self.md() != other.md() && err == FieldError::ModulusMismatch) || (
                self.md() == other.md() && other.val() == 0 && err == FieldError::DivisionByZero)
                    || (self.md() == other.md() && other.val() != 0 && gcd(
                    other.md() as nat,
                    other.val() as nat,
                ) != 1 && err == FieldError::NoInverse),
            },
    {
        if self.modulus != other.modulus {
            return Err(FieldError::ModulusMismatch);
        }
        if other.is_zero() {
            return Err(FieldError::DivisionByZero);
        }
        let inverse = match other.inverse() {
            Ok(x) => x,
            Err(e) => return Err(e),
        };
        let q = mul_mod(self.value, inverse.value, self.modulus);
        proof {
            let p = self.md();
            let (a, b, c) = (self.val(), inverse.val(), other.val());
            lemma_mul_mod_noop_left(a * b, c, p);
            lemma_mul_is_associative(a, b, c);
            lemma_mul_mod_noop_right(a, b * c, p);
            lemma_small_mod(a as nat, p as nat);
        }
        Ok(FieldElement { value: q, modulus: self.modulus })
    }

    /// Multiplicative inverse by the extended Euclidean algorithm; the Bezout
    /// coefficient is kept reduced modulo `p`, so nothing overflows.
    pub fn inverse(&self) -> (r: Result<FieldElement, FieldError>)
        requires
            self.wf(),
        ensures
            match r {
                Ok(e) => self.val() != 0 && gcd(self.md() as nat, self.val() as nat) == 1 && e.wf()
                    && e.md() == self.md() && fmul(e.val(), self.val(), self.md()) == 1,
                Err(err) => (self.val() == 0 && err == FieldError::DivisionByZero) || (self.val()
                    != 0 && gcd(self.md() as nat, self.val() as nat) != 1 && err
                    == FieldError::NoInverse),
            },
    {
        if self.value == 0 {
            return Err(FieldError::DivisionByZero);
        }
        let p = self.modulus;
        let a = self.value;
        let mut t: u64 = 0;
        let mut new_t: u64 = 1;
        let mut r: u64 = p;
        let mut new_r: u64 = a;
        proof {
            lemma_small_mod(1, p as nat);
            lemma_small_mod(a as nat, p as nat);
            lemma_mod_self_0(p as int);
            lemma_small_mod(0, p as nat);
            assert(0 * (a as int) == 0);
        }
        while new_r != 0
            invariant
                p == self.md(),
                a == self.val(),
                0 < a < p,
                t < p,
                new_t < p,
                r <= p,
                new_r <= p,
                (t as int * a as int) % (p as int) == (r as int) % (p as int),
                (new_t as int * a as int) % (p as int) == (new_r as int) % (p as int),
                gcd(r as nat, new_r as nat) == gcd(p as nat, a as nat),
            decreases new_r,
        {
            let q = r / new_r;
            let rem = r % new_r;
            proof {
                lemma_fundamental_div_mod(r as int, new_r as int);
                lemma_mod_bound(r as int, new_r as int);
                lemma_mul_is_commutative(q as int, new_r as int);
                assert(rem == r - q * new_r);
                lemma_euclid_step(t as int, new_t as int, a as int, r as int, new_r as int, q as int, p as int);
            }
            let qn = mul_mod(q, new_t, p);
            let next_wide = ((t as u128) + (p as u128) - (qn as u128)) % (p as u128);
            let next_t = next_wide as u64;
            proof {
                let pi = p as int;
                lemma_mod_bound((t + p - qn) as int, pi);
                lemma_mod_multiples_vanish(1, t - qn, pi);
                lemma_sub_mod_noop_right(t as int, q * new_t, pi);
                assert(next_t == (t - q * new_t) % pi);
            }
            t = new_t;
            new_t = next_t;
            r = new_r;
            new_r = rem;
        }
        if r != 1 {
            return Err(FieldError::NoInverse);
        }
        proof {
            lemma_small_mod(1, p as nat);
            lemma_mul_is_commutative(t as int, a as int);
        }
        Ok(FieldElement { value: t, modulus: p })
    }

    /// Square-and-multiply exponentiation.
    pub fn pow(&self, exponent: u64) -> (r: Result<FieldElement, FieldError>)
        requires
            self.wf(),
        ensures
            r matches Ok(e) && e.wf() && e.md() == self.md() && e.val() == pow(self.val(), exponent as nat) % self.md(),
    {
        let p = self.modulus;
        let mut result: u64 = 1 % p;
        let mut base: u64 = self.value;
        let mut e: u64 = exponent;
        proof {
            lemma_small_mod(self.value as nat, p as nat);
            lemma_mul_mod_noop_left(1, pow(self.val(), exponent as nat), p as int);
        }
        while e > 0
            invariant
                p == self.md(),
                p > 0,
                result < p,
                base < p,
                (result as int * pow(base as int, e as nat)) % (p as int) == pow(self.val(), exponent as nat) % (p as int),
            decreases e,
        {
            proof {
                lemma_pow_step(result as int, base as int, e as nat, p as int);
            }
            if e % 2 == 1 {
                result = mul_mod(result, base, p);
            }
            base = mul_mod(base, base, p);
            e = e / 2;
        }
        proof {
            lemma_pow0(base as int);
            lemma_small_mod(result as nat, p as nat);
        }
        Ok(FieldElement { value: result, modulus: p })
    }

    /// Additive inverse: zero stays zero, otherwise `p - a`.
    pub fn neg(&self) -> (r: FieldElement)
        requires
            self.wf(),
        ensures
            r.wf(),
            r.md() == self.md(),
            r.val() == fneg(self.val(), self.md()),
    {
        if self.value == 0 {
            *self
        } else {
            proof {
                lemma_mod_multiples_vanish(1, -self.val(), self.md());
                lemma_small_mod((self.md() - self.val()) as nat, self.md() as nat);
            }
            FieldElement { value: self.modulus - self.value, modulus: self.modulus }
        }
    }

    /// A uniformly random element of `[0, modulus)`.
    pub fn random(modulus: u64) -> (r: FieldElement)
        requires
            modulus > 0,
        ensures
            r.wf(),
            r.md() == modulus,
    {
        let value = random_below(modulus);
        FieldElement { value, modulus }
    }

    pub fn to_u64(&self) -> (r: u64)
        ensures
            r == self.val(),
    {
        self.value
    }

    pub fn from_u64(value: u64, modulus: u64) -> (r: FieldElement)
        requires
            modulus > 0,
        ensures
            r.wf(),
            r.val() == value as int % modulus as int,
            r.md() == modulus,
    {
        FieldElement::new(value, modulus)
    }
}

/// The residues of a sequence of elements.
pub open spec fn vals(s: Seq<FieldElement>) -> Seq<int> {
    s.map_values(|e: FieldElement| e.val())
}

/// Every element of `s` is a well-formed element of the field of order `p`.
pub open spec fn in_field(s: Seq<FieldElement>, p: int) -> bool {
    forall|i: int| 0 <= i < s.len() ==> (#[trigger] s[i]).wf() && s[i].md() == p
}

/// Every element of `s` is well formed.
pub open spec fn all_wf(s: Seq<FieldElement>) -> bool {
    forall|i: int| 0 <= i < s.len() ==> (#[trigger] s[i]).wf()
}

/// Every row of `m` holds only well-formed elements.
pub open spec fn rows_wf(m: Seq<Vec<FieldElement>>) -> bool {
    forall|i: int| 0 <= i < m.len() ==> all_wf((#[trigger] m[i])@)
}

/// `sum_{j < k} a[j] * b[j]`, over the integers.
pub open spec fn dot(a: Seq<int>, b: Seq<int>, k: nat) -> int
    decreases k,
{
    if k == 0 {
        0
    } else {
        dot(a, b, (k - 1) as nat) + a[k - 1] * b[k - 1]
    }
}

/// A one-hot row picks one entry: `dot(e_s, w) = w[s]`.
pub proof fn lemma_dot_one_hot(row: Seq<int>, w: Seq<int>, s: int, k: nat)
    requires
        k <= row.len(),
        k <= w.len(),
        forall|j: int| 0 <= j < k ==> #[trigger] row[j] == if j == s { 1int } else { 0int },
    ensures
        dot(row, w, k) == if 0 <= s < k { w[s] } else { 0 },
    decreases k,
{
    if k > 0 {
        lemma_dot_one_hot(row, w, s, (k - 1) as nat);
    }
}

/// The element-wise result of a binary field operation, or its first failure.
pub open spec fn elementwise_ok(
    a: Seq<FieldElement>,
    b: Seq<FieldElement>,
    v: Seq<FieldElement>,
    op: spec_fn(int, int, int) -> int,
) -> bool {
    &&& a.len() == b.len()
    &&& v.len() == a.len()
    &&& forall|i: int|
        0 <= i < a.len() ==> (#[trigger] v[i]).wf() && a[i].md() == b[i].md() && v[i].md() == a[i].md()
            && v[i].val() == op(a[i].val(), b[i].val(), a[i].md())
}

/// Some pair of aligned elements lies in different fields.
pub open spec fn some_mismatch(a: Seq<FieldElement>, b: Seq<FieldElement>) -> bool {
    exists|i: int| 0 <= i < a.len() && i < b.len() && (#[trigger] a[i]).md() != b[i].md()
}

/// The contract shared by the element-wise vector operations.
pub open spec fn elementwise_result(
    a: Seq<FieldElement>,
    b: Seq<FieldElement>,
    r: Result<Vec<FieldElement>, FieldError>,
    op: spec_fn(int, int, int) -> int,
) -> bool {
    match r {
        Ok(v) => elementwise_ok(a, b, v@, op),
        Err(e) => (a.len() != b.len() && e == FieldError::DimensionMismatch) || (a.len() == b.len()
            && some_mismatch(a, b) && e == FieldError::ModulusMismatch),
    }
}

/// A prime field, given by its modulus.
#[derive(Debug, Clone, Copy)]
pub struct FiniteField {
    modulus: u64,
    generator: u64,
}

/// Trial division by 2 and by odd numbers up to the square root.
fn is_prime_u64(n: u64) -> (r: bool)
    ensures
        r == is_prime(n as nat),
{
    if n < 2 {
        return false;
    }
    if n == 2 {
        return true;
    }
    if n % 2 == 0 {
        proof {
            assert((n as nat) % 2 == 0);
        }
        return false;
    }
    let mut i: u64 = 3;
    while i <= n / i
        invariant
            n >= 3,
            n % 2 == 1,
            3 <= i,
            i % 2 == 1,
            (i - 2) * (i - 2) <= n,
            forall|d: nat| 2 <= d < i ==> #[trigger] ((n as nat) % d) != 0,
        decreases n - i,
    {
        proof {
            lemma_fundamental_div_mod(n as int, i as int);
            assert(i * i <= n) by (nonlinear_arith)
                requires i <= n / i, n == i * (n / i) + n % i, n % i >= 0, i > 0;
            assert(i < 0x1_0000_0000) by (nonlinear_arith)
                requires i * i <= n, n <= u64::MAX;
        }
        if n % i == 0 {
            proof {
                assert(i < n) by (nonlinear_arith)
                    requires i * i <= n, i >= 3;
                assert((n as nat) % (i as nat) == 0);
            }
            return false;
        }
        proof {
            assert(i < n) by (nonlinear_arith)
                requires i * i <= n, i >= 3;
            assert forall|d: nat| 2 <= d < i + 2 implies #[trigger] ((n as nat) % d) != 0 by {
                if d == i + 1 {
                    lemma_odd_no_even_divisor(n as nat, d);
                } else if d == i {
                    assert((n as nat) % (i as nat) != 0);
                }
            }
        }
        i = i + 2;
    }
    proof {
        lemma_fundamental_div_mod(n as int, i as int);
        lemma_mod_bound(n as int, i as int);
        assert(i * i > n) by (nonlinear_arith)
            requires i > n / i, n == i * (n / i) + n % i, n % i < i, i > 0;
        assert forall|d: nat| 2 <= d < n implies #[trigger] ((n as nat) % d) != 0 by {
            if d >= i && (n as nat) % d == 0 {
                lemma_small_cofactor(n as nat, d, i as nat);
                let k = (n as nat) / d;
                assert((n as nat) % k != 0);
            }
        }
    }
    true
}

impl FiniteField {
    /// The field's modulus.
    pub closed spec fn md(&self) -> int {
        self.modulus as int
    }

    /// The generator parameter carried with the field.
    pub closed spec fn gen(&self) -> int {
        self.generator as int
    }

    /// The modulus is prime.
    pub open spec fn wf(&self) -> bool {
        is_prime(self.md() as nat) && self.md() <= u64::MAX
    }

    /// Builds the field of order `modulus`; fails with `NonPrimeModulus` unless it is prime.
    pub fn new(modulus: u64) -> (r: Result<FiniteField, FieldError>)
        ensures
            match r {
                Ok(f) => is_prime(modulus as nat) && f.wf() && f.md() == modulus && f.gen() == (
                if modulus > 5 {
                    5int
                } else {
                    2int
                }),
                Err(e) => !is_prime(modulus as nat) && e == FieldError::NonPrimeModulus,
            },
    {
        if !is_prime_u64(modulus) {
            return Err(FieldError::NonPrimeModulus);
        }
        Ok(FiniteField { modulus, generator: Self::find_generator(modulus) })
    }

    /// The fixed generator parameter: 5 above 5, else 2.
    fn find_generator(modulus: u64) -> (r: u64)
        ensures
            r == if modulus > 5 {
                5int
            } else {
                2int
            },
    {
        if modulus > 5 {
            5
        } else {
            2
        }
    }

    pub fn modulus(&self) -> (r: u64)
        ensures
            r == self.md(),
    {
        self.modulus
    }

    pub fn generator(&self) -> (r: u64)
        ensures
            r == self.gen(),
    {
        self.generator
    }

    pub fn zero(&self) -> (r: FieldElement)
        requires
            self.wf(),
        ensures
            r.wf(),
            r.md() == self.md(),
            r.val() == 0,
    {
        FieldElement::zero(self.modulus)
    }

    pub fn one(&self) -> (r: FieldElement)
        requires
            self.wf(),
        ensures
            r.wf(),
            r.md() == self.md(),
            r.val() == 1,
    {
        FieldElement::one(self.modulus)
    }

    /// A uniformly random element of the field.
    pub fn random_element(&self) -> (r: FieldElement)
        requires
            self.wf(),
        ensures
            r.wf(),
            r.md() == self.md(),
    {
        FieldElement::random(self.modulus)
    }

    /// The element `value mod p`.
    pub fn element(&self, value: u64) -> (r: FieldElement)
        requires
            self.wf(),
        ensures
            r.wf(),
            r.md() == self.md(),
            r.val() == value as int % self.md(),
    {
        FieldElement::new(value, self.modulus)
    }

    /// Element-wise sum of two vectors of equal length.
    pub fn vector_add(&self, a: &[FieldElement], b: &[FieldElement]) -> (r: Result<Vec<FieldElement>, FieldError>)
        requires
            all_wf(a@),
            all_wf(b@),
        ensures
            elementwise_result(a@, b@, r, |x: int, y: int, p: int| fadd(x, y, p)),
    {
        if a.len() != b.len() {
            return Err(FieldError::DimensionMismatch);
        }
        let mut result: Vec<FieldElement> = Vec::with_capacity(a.len());
        let mut i: usize = 0;
        while i < a.len()
            invariant
                a.len() == b.len(),
                all_wf(a@),
                all_wf(b@),
                i <= a.len(),
                result@.len() == i,
                forall|j: int|
                    0 <= j < i ==> (#[trigger] result@[j]).wf() && a@[j].md() == b@[j].md()
                        && result@[j].md() == a@[j].md() && result@[j].val() == fadd(
                        a@[j].val(),
                        b@[j].val(),
                        a@[j].md(),
                    ),
            decreases a.len() - i,
        {
            match a[i].add(&b[i]) {
                Ok(e) => {
                    let ghost before = result@;
                    result.push(e);
                    proof {
                        assert(result@ == before.push(e));
                        assert(result@[i as int] == e);
                    }
                },
                Err(err) => {
                    proof {
                        assert(a@[i as int].md() != b@[i as int].md());
                    }
                    return Err(err);
                },
            }
            i = i + 1;
        }
        Ok(result)
    }

    /// Element-wise difference of two vectors of equal length.
    pub fn vector_sub(&self, a: &[FieldElement], b: &[FieldElement]) -> (r: Result<Vec<FieldElement>, FieldError>)
        requires
            all_wf(a@),
            all_wf(b@),
        ensures
            elementwise_result(a@, b@, r, |x: int, y: int, p: int| fsub(x, y, p)),
    {
        if a.len() != b.len() {
            return Err(FieldError::DimensionMismatch);
        }
        let mut result: Vec<FieldElement> = Vec::with_capacity(a.len());
        let mut i: usize = 0;
        while i < a.len()
            invariant
                a.len() == b.len(),
                all_wf(a@),
                all_wf(b@),
                i <= a.len(),
                result@.len() == i,
                forall|j: int|
                    0 <= j < i ==> (#[trigger] result@[j]).wf() && a@[j].md() == b@[j].md()
                        && result@[j].md() == a@[j].md() && result@[j].val() == fsub(
                        a@[j].val(),
                        b@[j].val(),
                        a@[j].md(),
                    ),
            decreases a.len() - i,
        {
            match a[i].sub(&b[i]) {
                Ok(e) => {
                    let ghost before = result@;
                    result.push(e);
                    proof {
                        assert(result@ == before.push(e));
                        assert(result@[i as int] == e);
                    }
                },
                Err(err) => {
                    proof {
                        assert(a@[i as int].md() != b@[i as int].md());
                    }
                    return Err(err);
                },
            }
            i = i + 1;
        }
        Ok(result)
    }

    /// Element-wise (Hadamard) product of two vectors of equal length.
    pub fn vector_mul(&self, a: &[FieldElement], b: &[FieldElement]) -> (r: Result<Vec<FieldElement>, FieldError>)
        requires
            all_wf(a@),
            all_wf(b@),
        ensures
            elementwise_result(a@, b@, r, |x: int, y: int, p: int| fmul(x, y, p)),
    {
        if a.len() != b.len() {
            return Err(FieldError::DimensionMismatch);
        }
        let mut result: Vec<FieldElement> = Vec::with_capacity(a.len());
        let mut i: usize = 0;
        while i < a.len()
            invariant
                a.len() == b.len(),
                all_wf(a@),
                all_wf(b@),
                i <= a.len(),
                result@.len() == i,
                forall|j: int|
                    0 <= j < i ==> (#[trigger] result@[j]).wf() && a@[j].md() == b@[j].md()
                        && result@[j].md() == a@[j].md() && result@[j].val() == fmul(
                        a@[j].val(),
                        b@[j].val(),
                        a@[j].md(),
                    ),
            decreases a.len() - i,
        {
            match a[i].mul(&b[i]) {
                Ok(e) => {
                    let ghost before = result@;
                    result.push(e);
                    proof {
                        assert(result@ == before.push(e));
                        assert(result@[i as int] == e);
                    }
                },
                Err(err) => {
                    proof {
                        assert(a@[i as int].md() != b@[i as int].md());
                    }
                    return Err(err);
                },
            }
            i = i + 1;
        }
        Ok(result)
    }

    /// Matrix-vector product; every row must have as many entries as the vector.
    pub fn matrix_vector_mul(&self, matrix: &[Vec<FieldElement>], vector: &[FieldElement]) -> (r: Result<Vec<FieldElement>, FieldError>)
        requires
            self.wf(),
            rows_wf(matrix@),
            all_wf(vector@),
        ensures
            match r {
                Ok(v) => matrix@.len() > 0 && vector@.len() > 0 && in_field(vector@, self.md()) && v@.len()
                    == matrix@.len() && forall|i: int|
                    0 <= i < matrix@.len() ==> (#[trigger] matrix@[i])@.len() == vector@.len()
                        && in_field(matrix@[i]@, self.md()) && v@[i].wf() && v@[i].md() == self.md()
                        && v@[i].val() == dot(vals(matrix@[i]@), vals(vector@), vector@.len()) % self.md(),
                Err(e) => ((matrix@.len() == 0 || vector@.len() == 0) && e == FieldError::EmptyInput) || (
                matrix@.len() > 0 && vector@.len() > 0 && (exists|i: int|
                    0 <= i < matrix@.len() && (#[trigger] matrix@[i])@.len() != vector@.len()) && e
                    == FieldError::DimensionMismatch) || (matrix@.len() > 0 && vector@.len() > 0 && (
                forall|i: int| 0 <= i < matrix@.len() ==> (#[trigger] matrix@[i])@.len() == vector@.len())
                    && !(in_field(vector@, self.md()) && forall|i: int|
                    0 <= i < matrix@.len() ==> in_field((#[trigger] matrix@[i])@, self.md())) && e
                    == FieldError::ModulusMismatch),
            },
    {
        if matrix.len() == 0 || vector.len() == 0 {
            return Err(FieldError::EmptyInput);
        }
        let cols = vector.len();
        let mut k: usize = 0;
        while k < matrix.len()
            invariant
                k <= matrix@.len(),
                matrix@.len() > 0,
                cols > 0,
                cols == vector@.len(),
                forall|i: int| 0 <= i < k ==> (#[trigger] matrix@[i])@.len() == cols,
            decreases matrix.len() - k,
        {
            if matrix[k].len() != cols {
                proof {
                    assert((matrix@[k as int])@.len() != vector@.len());
                }
                return Err(FieldError::DimensionMismatch);
            }
            k = k + 1;
        }
        let ghost p = self.md();
        let mut result: Vec<FieldElement> = Vec::with_capacity(matrix.len());
        let mut i: usize = 0;
        while i < matrix.len()
            invariant
                self.wf(),
                p == self.md(),
                rows_wf(matrix@),
                all_wf(vector@),
                cols == vector@.len(),
                cols > 0,
                matrix@.len() > 0,
                forall|i: int| 0 <= i < matrix@.len() ==> (#[trigger] matrix@[i])@.len() == cols,
                i <= matrix@.len(),
                result@.len() == i,
                i > 0 ==> in_field(vector@, p),
                forall|j: int|
                    0 <= j < i ==> in_field((#[trigger] matrix@[j])@, p) && result@[j].wf() && result@[j].md() == p
                        && result@[j].val() == dot(vals(matrix@[j]@), vals(vector@), cols as nat) % p,
            decreases matrix.len() - i,
        {
            let row = &matrix[i];
            let mut sum = self.zero();
            let mut j: usize = 0;
            proof {
                lemma_small_mod(0, p as nat);
            }
            while j < cols
                invariant
                    self.wf(),
                    p == self.md(),
                    all_wf(row@),
                    all_wf(vector@),
                    row@.len() == cols,
                    cols == vector@.len(),
                    j <= cols,
                    sum.wf(),
                    sum.md() == p,
                    sum.val() == dot(vals(row@), vals(vector@), j as nat) % p,
                    i < matrix@.len(),
                    row@ == matrix@[i as int]@,
                    matrix@.len() > 0,
                    cols > 0,
                    forall|i: int| 0 <= i < matrix@.len() ==> (#[trigger] matrix@[i])@.len() == cols,
                    forall|l: int| 0 <= l < j ==> (#[trigger] row@[l]).md() == p,
                    forall|l: int| 0 <= l < j ==> (#[trigger] vector@[l]).md() == p,
                decreases cols - j,
            {
                let product = match row[j].mul(&vector[j]) {
                    Ok(x) => x,
                    Err(e) => {
                        proof {
                            assert(row@[j as int].md() != vector@[j as int].md());
                            assert(!(in_field(vector@, p) && in_field(matrix@[i as int]@, p)));
                        }
                        return Err(e);
                    },
                };
                sum = match sum.add(&product) {
                    Ok(x) => x,
                    Err(e) => {
                        proof {
                            assert(row@[j as int].md() != p);
                            assert(!in_field(matrix@[i as int]@, p));
                        }
                        return Err(e);
                    },
                };
                proof {
                    let d = dot(vals(row@), vals(vector@), j as nat);
                    let t = row@[j as int].val() * vector@[j as int].val();
                    lemma_add_mod_noop(d, t, p);
                    lemma_mod_twice(d, p);
                    lemma_mod_twice(t, p);
                    assert(dot(vals(row@), vals(vector@), (j + 1) as nat) == d + t);
                }
                j = j + 1;
            }
            result.push(sum);
            proof {
                assert(in_field(row@, p));
                assert(in_field(vector@, p));
            }
            i = i + 1;
        }
        Ok(result)
    }

    /// A vector of `length` uniformly random elements.
    pub fn random_vector(&self, length: usize) -> (r: Vec<FieldElement>)
        requires
            self.wf(),
        ensures
            r@.len() == length,
            in_field(r@, self.md()),
    {
        let mut v: Vec<FieldElement> = Vec::with_capacity(length);
        let mut i: usize = 0;
        while i < length
            invariant
                self.wf(),
                i <= length,
                v@.len() == i,
                in_field(v@, self.md()),
            decreases length - i,
        {
            v.push(self.random_element());
            i = i + 1;
        }
        v
    }

    /// A `rows` by `cols` matrix of uniformly random elements.
    pub fn random_matrix(&self, rows: usize, cols: usize) -> (r: Vec<Vec<FieldElement>>)
        requires
            self.wf(),
        ensures
            r@.len() == rows,
            forall|i: int| 0 <= i < rows ==> (#[trigger] r@[i])@.len() == cols && in_field(r@[i]@, self.md()),
    {
        let mut m: Vec<Vec<FieldElement>> = Vec::with_capacity(rows);
        let mut i: usize = 0;
        while i < rows
            invariant
                self.wf(),
                i <= rows,
                m@.len() == i,
                forall|k: int| 0 <= k < i ==> (#[trigger] m@[k])@.len() == cols && in_field(m@[k]@, self.md()),
            decreases rows - i,
        {
            m.push(self.random_vector(cols));
            i = i + 1;
        }
        m
    }
}

} // verus!

//! The offline phase: the auxiliary party samples the permutation, derives the
//! contributors' masks, embeds the noise, and shares the permutation matrix,
//! the permuted masks and the noise between the two computational parties.

use crate::field::{in_field, is_prime, lemma_dot_one_hot, vals, FieldElement, FiniteField};
use crate::online::{column, derive_mask, is_matrix, mask_entry, matrix_product, product_entry, PartyShares};
use crate::protocol::ProtocolError;
use crate::sharing::{coefficients_in, SecretShare, is_sharing, is_sharing_of, poly, share_holds, ShamirSecretSharing};
use rand::seq::SliceRandom;
use vstd::arithmetic::div_mod::*;
use vstd::arithmetic::power::*;
use vstd::prelude::*;

verus! {

/// `sigma` lists each of `0..n` exactly once.
pub open spec fn is_permutation(sigma: Seq<usize>, n: int) -> bool {
    &&& sigma.len() == n
    &&& forall|i: int| 0 <= i < n ==> #[trigger] sigma[i] < n
    &&& forall|i: int, j: int| 0 <= i < n && 0 <= j < n && i != j ==> #[trigger] sigma[i] != #[trigger] sigma[j]
}

/// Entry `(i, j)` of the permutation matrix of `sigma`.
pub open spec fn perm_entry(sigma: Seq<usize>, i: int, j: int) -> int {
    if sigma[i] == j {
        1
    } else {
        0
    }
}

/// `(s + c * x) mod p`: the value at `x` of the line with constant term `s` and slope `c`.
pub open spec fn line(s: int, c: int, x: int, p: int) -> int {
    (s + c * x) % p
}

/// `e1` and `e2` are the values at 2 and 3 of a line over the field of order `p` whose constant term is `s`.
pub open spec fn paired(e1: FieldElement, e2: FieldElement, s: int, p: int) -> bool {
    exists|c: int| 0 <= c < p && #[trigger] line(s, c, 2, p) == e1.val() && line(s, c, 3, p) == e2.val()
}

/// The slope of such a line.
pub open spec fn pair_slope(e1: FieldElement, e2: FieldElement, s: int, p: int) -> int {
    choose|c: int| 0 <= c < p && #[trigger] line(s, c, 2, p) == e1.val() && line(s, c, 3, p) == e2.val()
}

/// `noise` has `n` rows of `d` entries.
pub open spec fn noise_shaped(noise: Seq<Vec<i64>>, n: int, d: int) -> bool {
    noise.len() == n && forall|i: int| 0 <= i < n ==> (#[trigger] noise[i])@.len() == d
}

/// The correlation of a run. `c1` and `c2` hold shares at the points 2 and 3 of
/// the permutation matrix of `sigma`, of the masks permuted by it (row `i`
/// holds the mask of contributor `sigma[i]`), and of the noise embedded in the field.
pub open spec fn correlated(
    c1: PartyShares,
    c2: PartyShares,
    sigma: Seq<usize>,
    seeds: Seq<u64>,
    noise: Seq<Vec<i64>>,
    n: int,
    d: int,
    p: int,
) -> bool {
    &&& is_permutation(sigma, n)
    &&& c1.shaped(n, d, p) && c2.shaped(n, d, p)
    &&& c1.point.val() == 2 && c2.point.val() == 3
    &&& forall|i: int, j: int|
        0 <= i < n && 0 <= j < n ==> paired(
            #[trigger] c1.permutation@[i]@[j],
            c2.permutation@[i]@[j],
            perm_entry(sigma, i, j),
            p,
        )
    &&& forall|i: int, l: int|
        0 <= i < n && 0 <= l < d ==> paired(
            #[trigger] c1.masks@[i]@[l],
            c2.masks@[i]@[l],
            mask_entry(sigma[i] as usize, seeds[sigma[i] as int], l, p),
            p,
        )
    &&& forall|i: int, l: int|
        0 <= i < n && 0 <= l < d ==> paired(#[trigger] c1.noise@[i]@[l], c2.noise@[i]@[l], noise[i]@[l] as int % p, p)
}

/// The second and third shares of a 2-of-3 sharing of `s` lie on one line through `s`.
proof fn lemma_pair_of_sharing(v: Seq<SecretShare>, s: int, p: int)
    requires
        p > 3,
        is_sharing_of(v, s, 2, 3, p),
    ensures
        v[1].value.wf() && v[1].value.md() == p,
        v[2].value.wf() && v[2].value.md() == p,
        paired(v[1].value, v[2].value, s, p),
{
    let c = choose|c: Seq<int>| c.len() == 2 && c[0] == s && coefficients_in(c, p) && #[trigger] is_sharing(v, c, 3, p);
    assert(share_holds(v[1], c, 1, p));
    assert(share_holds(v[2], c, 2, p));
    reveal_with_fuel(poly, 3);
    lemma_pow0(2);
    lemma_pow1(2);
    lemma_pow0(3);
    lemma_pow1(3);
    assert(poly(c, 2, 2) == s + c[1] * 2);
    assert(poly(c, 3, 2) == s + c[1] * 3);
    assert(0 <= c[1] < p);
    assert(line(s, c[1], 2, p) == v[1].value.val());
}

/// Row `i` of the product of the permutation matrix of `sigma` with `x` is row `sigma[i]` of `x`.
proof fn lemma_one_hot_product(perm: Seq<Vec<FieldElement>>, x: Seq<Vec<FieldElement>>, sigma: Seq<usize>, i: int, l: int, p: int)
    requires
        p > 0,
        is_permutation(sigma, x.len() as int),
        is_matrix(perm, x.len() as int, x.len() as int, p),
        forall|a: int, j: int| 0 <= a < x.len() && 0 <= j < x.len() ==> (#[trigger] perm[a]@[j]).val() == perm_entry(sigma, a, j),
        0 <= i < x.len(),
        0 <= l < x[sigma[i] as int]@.len(),
        in_field(x[sigma[i] as int]@, p),
    ensures
        product_entry(perm, x, i, l, p) == x[sigma[i] as int]@[l].val(),
{
    let row = vals(perm[i]@);
    let w = column(x, l);
    assert forall|j: int| 0 <= j < x.len() implies #[trigger] row[j] == if j == sigma[i] as int { 1int } else { 0int } by {
        assert(perm[i]@[j].val() == perm_entry(sigma, i, j));
    }
    lemma_dot_one_hot(row, w, sigma[i] as int, x.len());
    lemma_small_mod(x[sigma[i] as int]@[l].val() as nat, p as nat);
}

/// Relies on rand's `SliceRandom::shuffle` over `thread_rng`, which reorders the
/// slice by swaps: the result holds the same items.
#[verifier::external_body]
fn shuffle_indices(v: &mut Vec<usize>)
    ensures
        final(v)@.len() == old(v)@.len(),
        final(v)@.to_multiset() == old(v)@.to_multiset(),
{
    v.shuffle(&mut rand::thread_rng());
}

/// The offline phase of one run, performed by the auxiliary party.
#[derive(Debug, Clone)]
pub struct OfflinePhase {
    field: FiniteField,
    secret_sharing: ShamirSecretSharing,
    num_users: usize,
    feature_dim: usize,
}

impl OfflinePhase {
    pub closed spec fn p(&self) -> int {
        self.field.md()
    }

    pub closed spec fn n(&self) -> int {
        self.num_users as int
    }

    pub closed spec fn d(&self) -> int {
        self.feature_dim as int
    }

    /// A field, a 2-of-3 scheme over it, at least two contributors and one feature.
    pub closed spec fn wf(&self) -> bool {
        &&& self.field.wf()
        &&& self.secret_sharing.wf()
        &&& self.secret_sharing.p() == self.field.md()
        &&& self.secret_sharing.threshold == 2
        &&& self.secret_sharing.num_shares == 3
        &&& self.num_users >= 2
        &&& self.feature_dim >= 1
    }

    /// What a well-formed offline phase guarantees about its parameters.
    pub proof fn lemma_wf(&self)
        requires
            self.wf(),
        ensures
            is_prime(self.p() as nat),
            self.p() > 3,
            self.p() <= u64::MAX,
            self.n() >= 2,
            self.d() >= 1,
    {
    }

    /// Fails with `InvalidConfiguration` unless the scheme is 2-of-3 over the
    /// same field, `num_users >= 2` and `feature_dim >= 1`.
    pub fn new(field: FiniteField, secret_sharing: ShamirSecretSharing, num_users: usize, feature_dim: usize) -> (r: Result<OfflinePhase, ProtocolError>)
        requires
            field.wf(),
            secret_sharing.wf(),
        ensures
            match r {
                Ok(o) => o.wf() && o.p() == field.md() && o.n() == num_users && o.d() == feature_dim,
                Err(e) => !(secret_sharing.p() == field.md() && secret_sharing.threshold == 2
                    && secret_sharing.num_shares == 3 && num_users >= 2 && feature_dim >= 1) && e is InvalidConfiguration,
            },
    {
        if secret_sharing.field.modulus() != field.modulus() || secret_sharing.threshold != 2
            || secret_sharing.num_shares != 3 {
            return Err(ProtocolError::InvalidConfiguration { message: "the offline phase needs a 2-of-3 scheme over its field".to_string() });
        }
        if num_users < 2 || feature_dim < 1 {
            return Err(ProtocolError::InvalidConfiguration { message: "at least two contributors and one feature are needed".to_string() });
        }
        Ok(OfflinePhase { field, secret_sharing, num_users, feature_dim })
    }

    /// A uniformly random ordering of `0..num_users` (Fisher-Yates).
    pub fn generate_permutation(&self) -> (r: Vec<usize>)
        ensures
            is_permutation(r@, self.n()),
    {
        let mut v: Vec<usize> = Vec::with_capacity(self.num_users);
        let mut i: usize = 0;
        while i < self.num_users
            invariant
                i <= self.num_users,
                v@.len() == i,
                forall|j: int| 0 <= j < i ==> #[trigger] v@[j] == j,
            decreases self.num_users - i,
        {
            v.push(i);
            i = i + 1;
        }
        let ghost before = v@;
        shuffle_indices(&mut v);
        proof {
            broadcast use vstd::seq_lib::group_to_multiset_ensures;
            let n = self.n();
            assert(before.no_duplicates());
            before.lemma_multiset_has_no_duplicates();
            v@.lemma_multiset_has_no_duplicates_conv();
            assert forall|i: int| 0 <= i < n implies #[trigger] v@[i] < n by {
                assert(v@.contains(v@[i]));
                assert(v@.to_multiset().count(v@[i]) > 0);
                assert(before.contains(v@[i]));
                let j = choose|j: int| 0 <= j < before.len() && before[j] == v@[i];
            }
        }
        v
    }

    /// The permutation matrix of `sigma`: entry `(i, sigma[i])` is 1, all others 0.
    /// Fails with `InvalidConfiguration` unless `sigma` is a permutation of `0..num_users`.
    pub fn permutation_matrix(&self, sigma: &[usize]) -> (r: Result<Vec<Vec<FieldElement>>, ProtocolError>)
        requires
            self.wf(),
        ensures
            match r {
                Ok(m) => is_permutation(sigma@, self.n()) && is_matrix(m@, self.n(), self.n(), self.p())
                    && forall|i: int, j: int|
                    0 <= i < self.n() && 0 <= j < self.n() ==> (#[trigger] m@[i]@[j]).val() == perm_entry(sigma@, i, j),
                Err(e) => !is_permutation(sigma@, self.n()) && e is InvalidConfiguration,
            },
    {
        let n = self.num_users;
        if sigma.len() != n {
            return Err(ProtocolError::InvalidConfiguration { message: "the permutation has the wrong length".to_string() });
        }
        let mut seen: Vec<bool> = Vec::with_capacity(n);
        let mut k: usize = 0;
        while k < n
            invariant
                k <= n,
                seen@.len() == k,
                forall|v: int| 0 <= v < k ==> !(#[trigger] seen@[v]),
            decreases n - k,
        {
            seen.push(false);
            k = k + 1;
        }
        let mut i: usize = 0;
        while i < n
            invariant
                sigma@.len() == n,
                seen@.len() == n,
                i <= n,
                forall|j: int| 0 <= j < i ==> #[trigger] sigma@[j] < n,
                forall|j: int| 0 <= j < i ==> seen@[#[trigger] sigma@[j] as int],
                forall|v: int| 0 <= v < n && #[trigger] seen@[v] ==> exists|j: int| 0 <= j < i && sigma@[j] == v,
                forall|a: int, b: int| 0 <= a < i && 0 <= b < i && a != b ==> #[trigger] sigma@[a] != #[trigger] sigma@[b],
            decreases n - i,
        {
            let v = sigma[i];
            if v >= n || seen[v] {
                proof {
                    if v < n {
                        let j = choose|j: int| 0 <= j < i && sigma@[j] == v;
                        assert(sigma@[j] == sigma@[i as int]);
                    }
                }
                return Err(ProtocolError::InvalidConfiguration { message: "not a permutation".to_string() });
            }
            seen.set(v, true);
            proof {
                assert forall|u: int| 0 <= u < n && #[trigger] seen@[u] implies exists|j: int| 0 <= j < i + 1 && sigma@[j] == u by {
                    if u != v {
                        let j = choose|j: int| 0 <= j < i && sigma@[j] == u;
                        assert(0 <= j < i + 1 && sigma@[j] == u);
                    } else {
                        assert(sigma@[i as int] == u);
                    }
                }
            }
            i = i + 1;
        }
        let mut m: Vec<Vec<FieldElement>> = Vec::with_capacity(n);
        let mut r: usize = 0;
        while r < n
            invariant
                self.wf(),
                n == self.n(),
                sigma@.len() == n,
                r <= n,
                m@.len() == r,
                forall|a: int| 0 <= a < r ==> (#[trigger] m@[a])@.len() == n && in_field(m@[a]@, self.p()),
                forall|a: int, j: int| 0 <= a < r && 0 <= j < n ==> (#[trigger] m@[a]@[j]).val() == perm_entry(sigma@, a, j),
            decreases n - r,
        {
            let mut row: Vec<FieldElement> = Vec::with_capacity(n);
            let mut j: usize = 0;
            while j < n
                invariant
                    self.wf(),
                    n == self.n(),
                    sigma@.len() == n,
                    r < n,
                    j <= n,
                    row@.len() == j,
                    in_field(row@, self.p()),
                    forall|c: int| 0 <= c < j ==> (#[trigger] row@[c]).val() == perm_entry(sigma@, r as int, c),
                decreases n - j,
            {
                let e = if sigma[r] == j {
                    self.field.one()
                } else {
                    self.field.zero()
                };
                let ghost before = row@;
                row.push(e);
                proof {
                    assert forall|c: int| 0 <= c < j implies row@[c] == before[c] by {}
                }
                j = j + 1;
            }
            let ghost before = m@;
            m.push(row);
            proof {
                assert forall|a: int| 0 <= a < r implies m@[a] == before[a] by {}
                assert(m@[r as int]@ == row@);
            }
            r = r + 1;
        }
        Ok(m)
    }

    /// The masks of all contributors, each derived from the seed the auxiliary
    /// party shares with it. Fails with `DimensionMismatch` unless there is one seed per contributor.
    pub fn user_masks(&self, seeds: &[u64]) -> (r: Result<Vec<Vec<FieldElement>>, ProtocolError>)
        requires
            self.wf(),
        ensures
            match r {
                Ok(a) => seeds@.len() == self.n() && is_matrix(a@, self.n(), self.d(), self.p()) && forall|i: int, l: int|
                    0 <= i < self.n() && 0 <= l < self.d() ==> (#[trigger] a@[i]@[l]).val() == mask_entry(
                        i as usize,
                        seeds@[i],
                        l,
                        self.p(),
                    ),
                Err(e) => seeds@.len() != self.n() && e == ProtocolError::DimensionMismatch,
            },
    {
        if seeds.len() != self.num_users {
            return Err(ProtocolError::DimensionMismatch);
        }
        let mut masks: Vec<Vec<FieldElement>> = Vec::with_capacity(self.num_users);
        let mut i: usize = 0;
        while i < self.num_users
            invariant
                self.wf(),
                seeds@.len() == self.n(),
                i <= self.n(),
                masks@.len() == i,
                forall|k: int| 0 <= k < i ==> (#[trigger] masks@[k])@.len() == self.d() && in_field(masks@[k]@, self.p()),
                forall|k: int, l: int|
                    0 <= k < i && 0 <= l < self.d() ==> (#[trigger] masks@[k]@[l]).val() == mask_entry(
                        k as usize,
                        seeds@[k],
                        l,
                        self.p(),
                    ),
            decreases self.num_users - i,
        {
            let mask = derive_mask(&self.field, i, seeds[i], self.feature_dim);
            let ghost before = masks@;
            masks.push(mask);
            proof {
                assert forall|k: int| 0 <= k < i implies masks@[k] == before[k] by {}
                assert(masks@[i as int]@ == mask@);
            }
            i = i + 1;
        }
        Ok(masks)
    }

    /// Embeds integer noise into the field by two's complement: `v mod p`.
    /// Fails with `DimensionMismatch` unless the noise is `num_users` by `feature_dim`.
    pub fn embed_noise(&self, noise: &[Vec<i64>]) -> (r: Result<Vec<Vec<FieldElement>>, ProtocolError>)
        requires
            self.wf(),
        ensures
            match r {
                Ok(m) => noise_shaped(noise@, self.n(), self.d()) && is_matrix(m@, self.n(), self.d(), self.p())
                    && forall|i: int, l: int|
                    0 <= i < self.n() && 0 <= l < self.d() ==> (#[trigger] m@[i]@[l]).val() == noise@[i]@[l] as int
                        % self.p(),
                Err(e) => !noise_shaped(noise@, self.n(), self.d()) && e == ProtocolError::DimensionMismatch,
            },
    {
        let n = self.num_users;
        let d = self.feature_dim;
        if noise.len() != n {
            return Err(ProtocolError::DimensionMismatch);
        }
        let p = self.field.modulus();
        let mut m: Vec<Vec<FieldElement>> = Vec::with_capacity(n);
        let mut i: usize = 0;
        while i < n
            invariant
                self.wf(),
                n == self.n(),
                d == self.d(),
                p == self.p(),
                noise@.len() == n,
                i <= n,
                m@.len() == i,
                forall|k: int| 0 <= k < i ==> (#[trigger] noise@[k])@.len() == d,
                forall|k: int| 0 <= k < i ==> (#[trigger] m@[k])@.len() == d && in_field(m@[k]@, p as int),
                forall|k: int, l: int| 0 <= k < i && 0 <= l < d ==> (#[trigger] m@[k]@[l]).val() == noise@[k]@[l] as int % (p as int),
            decreases n - i,
        {
            let src = &noise[i];
            if src.len() != d {
                return Err(ProtocolError::DimensionMismatch);
            }
            let mut row: Vec<FieldElement> = Vec::with_capacity(d);
            let mut l: usize = 0;
            while l < d
                invariant
                    self.wf(),
                    p == self.p(),
                    src@.len() == d,
                    l <= d,
                    row@.len() == l,
                    in_field(row@, p as int),
                    forall|c: int| 0 <= c < l ==> (#[trigger] row@[c]).val() == src@[c] as int % (p as int),
                decreases d - l,
            {
                let v = src[l];
                let e = if v >= 0 {
                    self.field.element(v as u64)
                } else {
                    let magnitude = (-(v as i128)) as u128;
                    let reduced = (magnitude % (p as u128)) as u64;
                    proof {
                        let pi = p as int;
                        let q = magnitude as int / pi;
                        lemma_mod_bound(magnitude as int, pi);
                        lemma_fundamental_div_mod(magnitude as int, pi);
                        lemma_mod_multiples_vanish(-q, -(reduced as int), pi);
                        assert(pi * (-q) + (-(reduced as int)) == v as int) by (nonlinear_arith)
                            requires magnitude as int == pi * q + reduced as int, magnitude as int == -(v as int);
                    }
                    if reduced == 0 {
                        proof {
                            lemma_small_mod(0, p as nat);
                        }
                        self.field.zero()
                    } else {
                        proof {
                            lemma_small_mod((p - reduced) as nat, p as nat);
                            lemma_mod_multiples_vanish(1, -(reduced as int), p as int);
                        }
                        self.field.element(p - reduced)
                    }
                };
                let ghost before = row@;
                row.push(e);
                proof {
                    assert forall|c: int| 0 <= c < l implies row@[c] == before[c] by {}
                }
                l = l + 1;
            }
            let ghost before = m@;
            m.push(row);
            proof {
                assert forall|k: int| 0 <= k < i implies m@[k] == before[k] by {}
                assert(m@[i as int]@ == row@);
            }
            i = i + 1;
        }
        Ok(m)
    }

    /// Shares every entry of `m` under the 2-of-3 scheme and keeps the second
    /// and third shares, for the first and second computational party.
    fn share_pairs(&self, m: &Vec<Vec<FieldElement>>, rows: usize, cols: usize) -> (r: (Vec<Vec<FieldElement>>, Vec<Vec<FieldElement>>))
        requires
            self.wf(),
            is_matrix(m@, rows as int, cols as int, self.p()),
        ensures
            is_matrix(r.0@, rows as int, cols as int, self.p()),
            is_matrix(r.1@, rows as int, cols as int, self.p()),
            forall|i: int, l: int|
                0 <= i < rows && 0 <= l < cols ==> paired(#[trigger] r.0@[i]@[l], r.1@[i]@[l], m@[i]@[l].val(), self.p()),
    {
        let ghost p = self.p();
        let mut first: Vec<Vec<FieldElement>> = Vec::with_capacity(rows);
        let mut second: Vec<Vec<FieldElement>> = Vec::with_capacity(rows);
        let mut i: usize = 0;
        while i < rows
            invariant
                self.wf(),
                p == self.p(),
                is_matrix(m@, rows as int, cols as int, p),
                i <= rows,
                first@.len() == i,
                second@.len() == i,
                forall|k: int| 0 <= k < i ==> (#[trigger] first@[k])@.len() == cols && in_field(first@[k]@, p),
                forall|k: int| 0 <= k < i ==> (#[trigger] second@[k])@.len() == cols && in_field(second@[k]@, p),
                forall|k: int, l: int|
                    0 <= k < i && 0 <= l < cols ==> paired(#[trigger] first@[k]@[l], second@[k]@[l], m@[k]@[l].val(), p),
            decreases rows - i,
        {
            let mut row1: Vec<FieldElement> = Vec::with_capacity(cols);
            let mut row2: Vec<FieldElement> = Vec::with_capacity(cols);
            let mut l: usize = 0;
            while l < cols
                invariant
                    self.wf(),
                    p == self.p(),
                    is_matrix(m@, rows as int, cols as int, p),
                    i < rows,
                    l <= cols,
                    row1@.len() == l,
                    row2@.len() == l,
                    in_field(row1@, p),
                    in_field(row2@, p),
                    forall|c: int| 0 <= c < l ==> paired(#[trigger] row1@[c], row2@[c], m@[i as int]@[c].val(), p),
                decreases cols - l,
            {
                let secret = m[i][l];
                proof {
                    assert(in_field(m@[i as int]@, p));
                    assert(m@[i as int]@[l as int] == secret);
                    lemma_small_mod(secret.val() as nat, p as nat);
                }
                let shares = match self.secret_sharing.share_secret(secret) {
                    Ok(v) => v,
                    Err(_) => {
                        proof {
                            assert(false);
                        }
                        Vec::new()
                    },
                };
                proof {
                    lemma_pair_of_sharing(shares@, secret.val(), p);
                }
                let ghost b1 = row1@;
                let ghost b2 = row2@;
                row1.push(shares[1].value);
                row2.push(shares[2].value);
                proof {
                    assert forall|c: int| 0 <= c < l implies row1@[c] == b1[c] && row2@[c] == b2[c] by {}
                    assert(row1@[l as int] == shares@[1].value);
                    assert(row2@[l as int] == shares@[2].value);
                }
                l = l + 1;
            }
            let ghost b1 = first@;
            let ghost b2 = second@;
            first.push(row1);
            second.push(row2);
            proof {
                assert forall|k: int| 0 <= k < i implies first@[k] == b1[k] && second@[k] == b2[k] by {}
                assert(first@[i as int]@ == row1@);
                assert(second@[i as int]@ == row2@);
            }
            i = i + 1;
        }
        (first, second)
    }

    /// Runs the offline phase for the permutation `sigma`, the contributors'
    /// seeds and integer noise: the permutation matrix, the masks permuted by
    /// it (computed as the matrix product) and the embedded noise are shared
    /// between the two computational parties, at the points 2 and 3.
    pub fn execute(&self, sigma: &[usize], seeds: &[u64], noise: &[Vec<i64>]) -> (r: Result<(PartyShares, PartyShares), ProtocolError>)
        requires
            self.wf(),
        ensures
            match r {
                Ok((c1, c2)) => correlated(c1, c2, sigma@, seeds@, noise@, self.n(), self.d(), self.p()),
                Err(e) => (!is_permutation(sigma@, self.n()) && e is InvalidConfiguration) || (is_permutation(sigma@, self.n())
                    && (seeds@.len() != self.n() || !noise_shaped(noise@, self.n(), self.d())) && e == ProtocolError::DimensionMismatch),
            },
    {
        let ghost p = self.p();
        let n = self.num_users;
        let d = self.feature_dim;
        let perm = match self.permutation_matrix(sigma) {
            Ok(m) => m,
            Err(e) => return Err(e),
        };
        let masks = match self.user_masks(seeds) {
            Ok(m) => m,
            Err(e) => return Err(e),
        };
        let nu = match self.embed_noise(noise) {
            Ok(m) => m,
            Err(e) => return Err(e),
        };
        let permuted = matrix_product(&self.field, &perm, &masks, d);
        proof {
            assert forall|i: int, l: int| 0 <= i < n && 0 <= l < d implies (#[trigger] permuted@[i]@[l]).val() == mask_entry(
                sigma@[i] as usize,
                seeds@[sigma@[i] as int],
                l,
                p,
            ) by {
                lemma_one_hot_product(perm@, masks@, sigma@, i, l, p);
            }
        }
        let (perm1, perm2) = self.share_pairs(&perm, n, n);
        let (mask1, mask2) = self.share_pairs(&permuted, n, d);
        let (noise1, noise2) = self.share_pairs(&nu, n, d);
        let c1 = PartyShares { point: self.field.element(2), permutation: perm1, masks: mask1, noise: noise1 };
        let c2 = PartyShares { point: self.field.element(3), permutation: perm2, masks: mask2, noise: noise2 };
        proof {
            lemma_small_mod(2, p as nat);
            lemma_small_mod(3, p as nat);
        }
        Ok((c1, c2))
    }
}

} // verus!

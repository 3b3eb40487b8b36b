//! End-to-end correctness of a run: what the two computational parties reveal
//! is the contributors' records, permuted and noised.

use crate::field::{dot, eqm, fsub, in_field, is_prime, lemma_dot_one_hot, lemma_eqm_add, lemma_eqm_mod, lemma_eqm_mul, vals, FieldElement, FieldError};
use crate::offline::{correlated, is_permutation, line, pair_slope, paired, perm_entry};
use crate::online::{column, entry_share, is_matrix, local_result, mask_entry, revealed, PartyShares, RevealMessage};
use crate::sharing::{lagrange_at_zero, lemma_two_point, matches_outcome, points, reconstruct_outcome, shares_in_field, values};
use vstd::arithmetic::div_mod::*;
use vstd::arithmetic::mul::*;
use vstd::prelude::*;

verus! {

/// A row of shares that are congruent entry-wise to `s + x * c` has a dot
/// product congruent to `dot(s) + x * dot(c)`.
proof fn lemma_dot_linear(u: Seq<int>, s: Seq<int>, c: Seq<int>, w: Seq<int>, x: int, p: int, k: nat)
    requires
        p > 0,
        k <= u.len(),
        k <= s.len(),
        k <= c.len(),
        k <= w.len(),
        forall|j: int| 0 <= j < k ==> eqm(#[trigger] u[j], s[j] + x * c[j], p),
    ensures
        eqm(dot(u, w, k), dot(s, w, k) + x * dot(c, w, k), p),
    decreases k,
{
    if k > 0 {
        let j = (k - 1) as int;
        lemma_dot_linear(u, s, c, w, x, p, (k - 1) as nat);
        lemma_eqm_mul(u[j], s[j] + x * c[j], w[j], w[j], p);
        lemma_eqm_add(
            dot(u, w, (k - 1) as nat),
            dot(s, w, (k - 1) as nat) + x * dot(c, w, (k - 1) as nat),
            u[j] * w[j],
            (s[j] + x * c[j]) * w[j],
            p,
        );
        let a = dot(s, w, (k - 1) as nat);
        let b = dot(c, w, (k - 1) as nat);
        assert((a + x * b) + (s[j] + x * c[j]) * w[j] == (a + s[j] * w[j]) + x * (b + c[j] * w[j])) by (nonlinear_arith);
    }
}

/// A share at `x` of a line through `s` is congruent to `s + c * x`.
proof fn lemma_paired_share(e1: FieldElement, e2: FieldElement, s: int, p: int)
    requires
        p > 0,
        paired(e1, e2, s, p),
    ensures
        0 <= pair_slope(e1, e2, s, p) < p,
        eqm(e1.val(), s + 2 * pair_slope(e1, e2, s, p), p),
        eqm(e2.val(), s + 3 * pair_slope(e1, e2, s, p), p),
{
    let c = pair_slope(e1, e2, s, p);
    assert(line(s, c, 2, p) == e1.val());
    lemma_eqm_mod(s + c * 2, p);
    lemma_eqm_mod(s + c * 3, p);
    lemma_mul_is_commutative(c, 2);
    lemma_mul_is_commutative(c, 3);
}

/// One party's result entry is congruent to `S + C * x`, with `S` and `C` the
/// same for both parties.
proof fn lemma_party_entry(
    c1: PartyShares,
    c2: PartyShares,
    party: PartyShares,
    x: int,
    sigma: Seq<usize>,
    seeds: Seq<u64>,
    noise: Seq<Vec<i64>>,
    masked: Seq<Vec<FieldElement>>,
    y: Seq<Vec<FieldElement>>,
    n: int,
    d: int,
    p: int,
    i: int,
    l: int,
)
    requires
        p > 3,
        correlated(c1, c2, sigma, seeds, noise, n, d, p),
        (x == 2 && party == c1) || (x == 3 && party == c2),
        is_matrix(masked, n, d, p),
        local_result(party, masked, y, p),
        0 <= i < n,
        0 <= l < d,
    ensures
        eqm(
            y[i]@[l].val(),
            (masked[sigma[i] as int]@[l].val() + mask_entry(sigma[i] as usize, seeds[sigma[i] as int], l, p) + noise[i]@[l] as int % p)
                + x * (dot(
                Seq::new(n as nat, |j: int| pair_slope(c1.permutation@[i]@[j], c2.permutation@[i]@[j], perm_entry(sigma, i, j), p)),
                column(masked, l),
                n as nat,
            ) + pair_slope(c1.masks@[i]@[l], c2.masks@[i]@[l], mask_entry(sigma[i] as usize, seeds[sigma[i] as int], l, p), p)
                + pair_slope(c1.noise@[i]@[l], c2.noise@[i]@[l], noise[i]@[l] as int % p, p)),
            p,
        ),
{
    let srow = Seq::new(n as nat, |j: int| perm_entry(sigma, i, j));
    let crow = Seq::new(n as nat, |j: int| pair_slope(c1.permutation@[i]@[j], c2.permutation@[i]@[j], perm_entry(sigma, i, j), p));
    let u = vals(party.permutation@[i]@);
    let w = column(masked, l);
    assert forall|j: int| 0 <= j < n implies eqm(#[trigger] u[j], srow[j] + x * crow[j], p) by {
        assert(paired(c1.permutation@[i]@[j], c2.permutation@[i]@[j], perm_entry(sigma, i, j), p));
        lemma_paired_share(c1.permutation@[i]@[j], c2.permutation@[i]@[j], perm_entry(sigma, i, j), p);
        lemma_mul_is_commutative(x, crow[j]);
    }
    lemma_dot_linear(u, srow, crow, w, x, p, n as nat);
    assert forall|j: int| 0 <= j < n implies #[trigger] srow[j] == if j == sigma[i] as int { 1int } else { 0int } by {}
    lemma_dot_one_hot(srow, w, sigma[i] as int, n as nat);
    let b = mask_entry(sigma[i] as usize, seeds[sigma[i] as int], l, p);
    let v = noise[i]@[l] as int % p;
    assert(paired(c1.masks@[i]@[l], c2.masks@[i]@[l], b, p));
    assert(paired(c1.noise@[i]@[l], c2.noise@[i]@[l], v, p));
    lemma_paired_share(c1.masks@[i]@[l], c2.masks@[i]@[l], b, p);
    lemma_paired_share(c1.noise@[i]@[l], c2.noise@[i]@[l], v, p);
    let cb = pair_slope(c1.masks@[i]@[l], c2.masks@[i]@[l], b, p);
    let cv = pair_slope(c1.noise@[i]@[l], c2.noise@[i]@[l], v, p);
    let dd = dot(u, w, n as nat);
    let cd = dot(crow, w, n as nat);
    let m = masked[sigma[i] as int]@[l].val();
    assert(dot(srow, w, n as nat) == m);
    assert(eqm(party.masks@[i]@[l].val(), b + x * cb, p));
    assert(eqm(party.noise@[i]@[l].val(), v + x * cv, p));
    lemma_eqm_add(dd, m + x * cd, party.masks@[i]@[l].val(), b + x * cb, p);
    lemma_eqm_add(dd + party.masks@[i]@[l].val(), m + x * cd + (b + x * cb), party.noise@[i]@[l].val(), v + x * cv, p);
    lemma_eqm_mod(dd + party.masks@[i]@[l].val() + party.noise@[i]@[l].val(), p);
    assert(m + x * cd + (b + x * cb) + (v + x * cv) == (m + b + v) + x * (cd + cb + cv)) by (nonlinear_arith);
}

/// Correctness of a run: when the two computational parties hold a
/// correlation for the permutation `sigma`, compute locally on the
/// contributors' masked records `x - a`, and reveal, entry `(i, l)` of the
/// output is record `sigma[i]`'s entry `l` plus the noise, in the field.
pub proof fn lemma_protocol_correct(
    c1: PartyShares,
    c2: PartyShares,
    sigma: Seq<usize>,
    seeds: Seq<u64>,
    noise: Seq<Vec<i64>>,
    x: Seq<Vec<FieldElement>>,
    masked: Seq<Vec<FieldElement>>,
    r1: RevealMessage,
    r2: RevealMessage,
    out: Seq<Vec<FieldElement>>,
    n: int,
    d: int,
    p: int,
)
    requires
        is_prime(p as nat),
        p > 3,
        correlated(c1, c2, sigma, seeds, noise, n, d, p),
        is_matrix(x, n, d, p),
        is_matrix(masked, n, d, p),
        forall|j: int, l: int|
            0 <= j < n && 0 <= l < d ==> (#[trigger] masked[j]@[l]).val() == fsub(
                x[j]@[l].val(),
                mask_entry(j as usize, seeds[j], l, p),
                p,
            ),
        r1.point == c1.point,
        r2.point == c2.point,
        local_result(c1, masked, r1.values@, p),
        local_result(c2, masked, r2.values@, p),
        revealed(r1, r2, out, p),
    ensures
        out.len() == n,
        forall|i: int| 0 <= i < n ==> (#[trigger] out[i])@.len() == d,
        forall|i: int, l: int|
            0 <= i < n && 0 <= l < d ==> (#[trigger] out[i]@[l]).val() == (x[sigma[i] as int]@[l].val() + noise[i]@[l] as int) % p,
{
    assert forall|i: int, l: int| 0 <= i < n && 0 <= l < d implies (#[trigger] out[i]@[l]).val() == (x[sigma[i] as int]@[l].val()
        + noise[i]@[l] as int) % p by {
        lemma_entry(c1, c2, sigma, seeds, noise, x, masked, r1, r2, out, n, d, p, i, l);
    }
}

proof fn lemma_entry(
    c1: PartyShares,
    c2: PartyShares,
    sigma: Seq<usize>,
    seeds: Seq<u64>,
    noise: Seq<Vec<i64>>,
    x: Seq<Vec<FieldElement>>,
    masked: Seq<Vec<FieldElement>>,
    r1: RevealMessage,
    r2: RevealMessage,
    out: Seq<Vec<FieldElement>>,
    n: int,
    d: int,
    p: int,
    i: int,
    l: int,
)
    requires
        is_prime(p as nat),
        p > 3,
        correlated(c1, c2, sigma, seeds, noise, n, d, p),
        is_matrix(x, n, d, p),
        is_matrix(masked, n, d, p),
        forall|j: int, l: int|
            0 <= j < n && 0 <= l < d ==> (#[trigger] masked[j]@[l]).val() == fsub(
                x[j]@[l].val(),
                mask_entry(j as usize, seeds[j], l, p),
                p,
            ),
        r1.point == c1.point,
        r2.point == c2.point,
        local_result(c1, masked, r1.values@, p),
        local_result(c2, masked, r2.values@, p),
        revealed(r1, r2, out, p),
        0 <= i < n,
        0 <= l < d,
    ensures
        out[i]@.len() == d,
        out[i]@[l].val() == (x[sigma[i] as int]@[l].val() + noise[i]@[l] as int) % p,
{
    let si = sigma[i] as int;
    let b = mask_entry(sigma[i] as usize, seeds[si], l, p);
    let v = noise[i]@[l] as int % p;
    let m = masked[si]@[l].val();
    let big_s = m + b + v;
    let big_c = dot(
        Seq::new(n as nat, |j: int| pair_slope(c1.permutation@[i]@[j], c2.permutation@[i]@[j], perm_entry(sigma, i, j), p)),
        column(masked, l),
        n as nat,
    ) + pair_slope(c1.masks@[i]@[l], c2.masks@[i]@[l], b, p) + pair_slope(c1.noise@[i]@[l], c2.noise@[i]@[l], v, p);
    lemma_party_entry(c1, c2, c1, 2, sigma, seeds, noise, masked, r1.values@, n, d, p, i, l);
    lemma_party_entry(c1, c2, c2, 3, sigma, seeds, noise, masked, r2.values@, n, d, p, i, l);
    let s2 = big_s % p;
    let k2 = big_c % p;
    lemma_mod_bound(big_s, p);
    lemma_mod_bound(big_c, p);
    let y1 = r1.values@[i]@[l];
    let y2 = r2.values@[i]@[l];
    assert(in_field(r1.values@[i]@, p));
    assert(in_field(r2.values@[i]@, p));
    // Each revealed entry is the value of the line (s2, k2) at the party's point.
    lemma_eqm_mod(big_s, p);
    lemma_eqm_mod(big_c, p);
    lemma_eqm_mul(2, 2, k2, big_c, p);
    lemma_eqm_mul(3, 3, k2, big_c, p);
    lemma_eqm_add(s2, big_s, 2 * k2, 2 * big_c, p);
    lemma_eqm_add(s2, big_s, 3 * k2, 3 * big_c, p);
    lemma_small_mod(y1.val() as nat, p as nat);
    lemma_small_mod(y2.val() as nat, p as nat);
    lemma_mul_is_commutative(k2, 2);
    lemma_mul_is_commutative(k2, 3);
    assert(y1.val() == (s2 + k2 * 2) % p);
    assert(y2.val() == (s2 + k2 * 3) % p);
    lemma_two_point(s2, k2, 2, 3, p);
    let pair = seq![entry_share(r1, 0, i, l), entry_share(r2, 1, i, l)];
    assert(points(pair) == seq![2int, 3int]);
    assert(values(pair) == seq![(s2 + k2 * 2) % p, (s2 + k2 * 3) % p]);
    assert(shares_in_field(pair, 2, p));
    assert(reconstruct_outcome(pair, 2, p) == Ok::<int, FieldError>(s2));
    assert(out[i]@.len() == r1.values@[i]@.len());
    assert(matches_outcome(Ok(out[i]@[l]), reconstruct_outcome(pair, 2, p), p));
    // The masks cancel: m + b = (x - b) + b, modulo p.
    let xv = x[si]@[l].val();
    assert(m == fsub(xv, b, p));
    lemma_eqm_mod(xv - b, p);
    lemma_eqm_add(m, xv - b, b + v, b + v, p);
    lemma_eqm_mod(noise[i]@[l] as int, p);
    lemma_eqm_add(xv, xv, v, noise[i]@[l] as int, p);
}

/// Without noise the revealed output is the input records in the order of
/// the permutation `sigma`: row `i` is record `sigma[i]`, so every record
/// appears exactly once.
pub proof fn lemma_protocol_permutes(
    c1: PartyShares,
    c2: PartyShares,
    sigma: Seq<usize>,
    seeds: Seq<u64>,
    noise: Seq<Vec<i64>>,
    x: Seq<Vec<FieldElement>>,
    masked: Seq<Vec<FieldElement>>,
    r1: RevealMessage,
    r2: RevealMessage,
    out: Seq<Vec<FieldElement>>,
    n: int,
    d: int,
    p: int,
)
    requires
        is_prime(p as nat),
        p > 3,
        correlated(c1, c2, sigma, seeds, noise, n, d, p),
        forall|i: int, l: int| 0 <= i < n && 0 <= l < d ==> #[trigger] noise[i]@[l] == 0,
        is_matrix(x, n, d, p),
        is_matrix(masked, n, d, p),
        forall|j: int, l: int|
            0 <= j < n && 0 <= l < d ==> (#[trigger] masked[j]@[l]).val() == fsub(
                x[j]@[l].val(),
                mask_entry(j as usize, seeds[j], l, p),
                p,
            ),
        r1.point == c1.point,
        r2.point == c2.point,
        local_result(c1, masked, r1.values@, p),
        local_result(c2, masked, r2.values@, p),
        revealed(r1, r2, out, p),
    ensures
        is_permutation(sigma, n),
        out.len() == n,
        forall|i: int| 0 <= i < n ==> vals((#[trigger] out[i])@) == vals(x[sigma[i] as int]@),
{
    lemma_protocol_correct(c1, c2, sigma, seeds, noise, x, masked, r1, r2, out, n, d, p);
    assert forall|i: int| 0 <= i < n implies vals((#[trigger] out[i])@) == vals(x[sigma[i] as int]@) by {
        assert(in_field(x[sigma[i] as int]@, p));
        assert forall|l: int| 0 <= l < d implies out[i]@[l].val() == x[sigma[i] as int]@[l].val() by {
            assert(noise[i]@[l] == 0);
            assert(out[i]@[l].val() == (x[sigma[i] as int]@[l].val() + noise[i]@[l] as int) % p);
            lemma_small_mod(x[sigma[i] as int]@[l].val() as nat, p as nat);
        }
        assert(vals(out[i]@) =~= vals(x[sigma[i] as int]@));
    }
}

} // verus!

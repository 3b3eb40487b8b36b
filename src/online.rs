//! The online phase: contributors mask their records, each computational party
//! shuffles and randomizes its shares locally, and the two results are revealed.

use crate::field::{
    all_wf, dot, eqm, fsub, in_field, is_prime, lemma_eqm_add, lemma_eqm_mod, vals, FieldElement, FieldError,
    FiniteField,
};
use crate::protocol::{protocol_error_of, ProtocolError};
use crate::sharing::{
    lagrange_at_zero, matches_outcome, reconstruct_outcome, SecretShare, ShamirSecretSharing,
};
use vstd::arithmetic::div_mod::*;
use vstd::prelude::*;

verus! {

/// Column `l` of a matrix, as residues.
pub open spec fn column(m: Seq<Vec<FieldElement>>, l: int) -> Seq<int> {
    Seq::new(m.len(), |j: int| m[j]@[l].val())
}

/// `m` has `rows` rows of `cols` elements of the field of order `p`.
pub open spec fn is_matrix(m: Seq<Vec<FieldElement>>, rows: int, cols: int, p: int) -> bool {
    m.len() == rows && forall|i: int| 0 <= i < rows ==> (#[trigger] m[i])@.len() == cols && in_field(m[i]@, p)
}

/// Entry `(i, l)` of the product `a * x`, reduced modulo `p`.
pub open spec fn product_entry(a: Seq<Vec<FieldElement>>, x: Seq<Vec<FieldElement>>, i: int, l: int, p: int) -> int {
    dot(vals(a[i]@), column(x, l), x.len()) % p
}

/// What one computational party holds after the offline phase: its shares, at
/// `point`, of the permutation matrix, of the permuted masks and of the noise.
#[derive(Debug, Clone)]
pub struct PartyShares {
    pub point: FieldElement,
    pub permutation: Vec<Vec<FieldElement>>,
    pub masks: Vec<Vec<FieldElement>>,
    pub noise: Vec<Vec<FieldElement>>,
}

impl PartyShares {
    /// An `n` by `n` permutation share and `n` by `d` mask and noise shares over the field of order `p`.
    pub open spec fn shaped(&self, n: int, d: int, p: int) -> bool {
        &&& self.point.wf() && self.point.md() == p
        &&& is_matrix(self.permutation@, n, n, p)
        &&& is_matrix(self.masks@, n, d, p)
        &&& is_matrix(self.noise@, n, d, p)
    }
}

/// What a computational party reveals: its result shares and their point.
#[derive(Debug, Clone)]
pub struct RevealMessage {
    pub point: FieldElement,
    pub values: Vec<Vec<FieldElement>>,
}

/// `y` is the party's local result on the masked records `m`:
/// `y = permutation * m + masks + noise`, entry-wise modulo `p`.
pub open spec fn local_result(party: PartyShares, m: Seq<Vec<FieldElement>>, y: Seq<Vec<FieldElement>>, p: int) -> bool {
    &&& y.len() == party.permutation@.len()
    &&& forall|i: int|
        0 <= i < y.len() ==> (#[trigger] y[i])@.len() == party.masks@[i]@.len() && in_field(y[i]@, p)
            && forall|l: int|
            0 <= l < y[i]@.len() ==> (#[trigger] y[i]@[l]).val() == (dot(
                vals(party.permutation@[i]@),
                column(m, l),
                m.len(),
            ) + party.masks@[i]@[l].val() + party.noise@[i]@[l].val()) % p
}

/// The two messages' result matrices have the same shape.
pub open spec fn same_shape(m0: RevealMessage, m1: RevealMessage) -> bool {
    &&& m0.values@.len() == m1.values@.len()
    &&& forall|i: int| 0 <= i < m0.values@.len() ==> (#[trigger] m0.values@[i])@.len() == m1.values@[i]@.len()
}

/// The share at entry `(i, l)` of a reveal message.
pub open spec fn entry_share(msg: RevealMessage, id: int, i: int, l: int) -> SecretShare {
    SecretShare { id: id as usize, value: msg.values@[i]@[l], point: msg.point }
}

/// What reconstruction at entry `(i, l)` from the two reveal messages yields.
pub open spec fn entry_outcome(m0: RevealMessage, m1: RevealMessage, i: int, l: int, p: int) -> Result<int, FieldError> {
    reconstruct_outcome(seq![entry_share(m0, 0, i, l), entry_share(m1, 1, i, l)], 2, p)
}

/// `out` is the entry-wise reconstruction from the two reveal messages.
pub open spec fn revealed(m0: RevealMessage, m1: RevealMessage, out: Seq<Vec<FieldElement>>, p: int) -> bool {
    &&& out.len() == m0.values@.len()
    &&& forall|i: int|
        0 <= i < out.len() ==> (#[trigger] out[i])@.len() == m0.values@[i]@.len() && forall|l: int|
            0 <= l < out[i]@.len() ==> matches_outcome(
                Ok(#[trigger] out[i]@[l]),
                reconstruct_outcome(seq![entry_share(m0, 0, i, l), entry_share(m1, 1, i, l)], 2, p),
                p,
            )
}

/// Whether `m` is a `rows` by `cols` matrix over the field.
pub fn check_matrix(field: &FiniteField, m: &[Vec<FieldElement>], rows: usize, cols: usize) -> (r: bool)
    requires
        forall|i: int| 0 <= i < m@.len() ==> all_wf((#[trigger] m@[i])@),
    ensures
        r == is_matrix(m@, rows as int, cols as int, field.md()),
{
    if m.len() != rows {
        return false;
    }
    let p = field.modulus();
    let mut i: usize = 0;
    while i < rows
        invariant
            m@.len() == rows,
            forall|k: int| 0 <= k < m@.len() ==> all_wf((#[trigger] m@[k])@),
            p == field.md(),
            i <= rows,
            forall|k: int| 0 <= k < i ==> (#[trigger] m@[k])@.len() == cols && in_field(m@[k]@, p as int),
        decreases rows - i,
    {
        let row = &m[i];
        if row.len() != cols {
            return false;
        }
        let mut j: usize = 0;
        while j < cols
            invariant
                i < rows,
                m@.len() == rows,
                row@ == m@[i as int]@,
                row@.len() == cols,
                all_wf(row@),
                p == field.md(),
                j <= cols,
                forall|k: int| 0 <= k < j ==> (#[trigger] row@[k]).md() == p,
            decreases cols - j,
        {
            if row[j].modulus() != p {
                proof {
                    assert(!in_field(m@[i as int]@, p as int));
                }
                return false;
            }
            j = j + 1;
        }
        i = i + 1;
    }
    true
}

/// `a * x` for an `n` by `n` matrix `a` and an `n` by `d` matrix `x`.
pub(crate) fn matrix_product(field: &FiniteField, a: &[Vec<FieldElement>], x: &[Vec<FieldElement>], d: usize) -> (r: Vec<Vec<FieldElement>>)
    requires
        field.wf(),
        is_matrix(a@, x@.len() as int, x@.len() as int, field.md()),
        is_matrix(x@, x@.len() as int, d as int, field.md()),
    ensures
        is_matrix(r@, x@.len() as int, d as int, field.md()),
        forall|i: int, l: int|
            0 <= i < x@.len() && 0 <= l < d ==> (#[trigger] r@[i]@[l]).val() == product_entry(a@, x@, i, l, field.md()),
{
    let n = x.len();
    let ghost p = field.md();
    let mut out: Vec<Vec<FieldElement>> = Vec::with_capacity(n);
    let mut i: usize = 0;
    while i < n
        invariant
            field.wf(),
            p == field.md(),
            n == x@.len(),
            is_matrix(a@, n as int, n as int, p),
            is_matrix(x@, n as int, d as int, p),
            i <= n,
            out@.len() == i,
            forall|k: int| 0 <= k < i ==> (#[trigger] out@[k])@.len() == d && in_field(out@[k]@, p),
            forall|k: int, l: int| 0 <= k < i && 0 <= l < d ==> (#[trigger] out@[k]@[l]).val() == product_entry(a@, x@, k, l, p),
        decreases n - i,
    {
        let mut row: Vec<FieldElement> = Vec::with_capacity(d);
        let mut l: usize = 0;
        while l < d
            invariant
                field.wf(),
                p == field.md(),
                n == x@.len(),
                i < n,
                is_matrix(a@, n as int, n as int, p),
                is_matrix(x@, n as int, d as int, p),
                l <= d,
                row@.len() == l,
                in_field(row@, p),
                forall|k: int| 0 <= k < l ==> (#[trigger] row@[k]).val() == product_entry(a@, x@, i as int, k, p),
            decreases d - l,
        {
            let mut sum = field.zero();
            proof {
                lemma_small_mod(0, p as nat);
            }
            let mut j: usize = 0;
            while j < n
                invariant
                    field.wf(),
                    p == field.md(),
                    n == x@.len(),
                    i < n,
                    l < d,
                    is_matrix(a@, n as int, n as int, p),
                    is_matrix(x@, n as int, d as int, p),
                    j <= n,
                    sum.wf(),
                    sum.md() == p,
                    sum.val() == dot(vals(a@[i as int]@), column(x@, l as int), j as nat) % p,
                decreases n - j,
            {
                let aij = a[i][j];
                let xjl = x[j][l];
                proof {
                    assert(in_field(a@[i as int]@, p));
                    assert(a@[i as int]@[j as int] == aij);
                    assert(in_field(x@[j as int]@, p));
                    assert(x@[j as int]@[l as int] == xjl);
                }
                let product = match aij.mul(&xjl) {
                    Ok(e) => e,
                    Err(_) => {
                        proof {
                            assert(false);
                        }
                        sum
                    },
                };
                let ghost old_sum = sum.val();
                sum = match sum.add(&product) {
                    Ok(e) => e,
                    Err(_) => {
                        proof {
                            assert(false);
                        }
                        sum
                    },
                };
                proof {
                    let dd = dot(vals(a@[i as int]@), column(x@, l as int), j as nat);
                    let t = aij.val() * xjl.val();
                    assert(column(x@, l as int)[j as int] == xjl.val());
                    assert(vals(a@[i as int]@)[j as int] == aij.val());
                    assert(dot(vals(a@[i as int]@), column(x@, l as int), (j + 1) as nat) == dd + t);
                    lemma_eqm_mod(dd, p);
                    lemma_eqm_mod(t, p);
                    lemma_eqm_add(old_sum, dd, product.val(), t, p);
                    lemma_eqm_mod(old_sum + product.val(), p);
                }
                j = j + 1;
            }
            let ghost before = row@;
            row.push(sum);
            proof {
                assert forall|k: int| 0 <= k < l implies row@[k] == before[k] by {}
            }
            l = l + 1;
        }
        let ghost before = out@;
        out.push(row);
        proof {
            assert forall|k: int| 0 <= k < i implies out@[k] == before[k] by {}
            assert(out@[i as int]@ == row@);
        }
        i = i + 1;
    }
    out
}

/// The masked records of all contributors, in contributor order. A missing
/// submission aborts the run with `Timeout` and nothing else is returned: the
/// noise is calibrated for exactly this many records.
pub fn gather_submissions(received: Vec<Option<Vec<FieldElement>>>) -> (r: Result<Vec<Vec<FieldElement>>, ProtocolError>)
    ensures
        match r {
            Ok(v) => v@.len() == received@.len() && forall|i: int| 0 <= i < v@.len() ==> received@[i] == Some(#[trigger] v@[i]),
            Err(e) => (exists|i: int| 0 <= i < received@.len() && #[trigger] received@[i] is None) && e == ProtocolError::Timeout,
        },
{
    let ghost all = received@;
    let n = received.len();
    let mut rest = received;
    let mut out: Vec<Vec<FieldElement>> = Vec::with_capacity(n);
    let mut i: usize = 0;
    while i < n
        invariant
            n == all.len(),
            i <= n,
            rest@ == all.subrange(i as int, n as int),
            all == received@,
            out@.len() == i,
            forall|k: int| 0 <= k < i ==> all[k] == Some(#[trigger] out@[k]),
        decreases n - i,
    {
        let item = rest.remove(0);
        proof {
            assert(item == all[i as int]);
            assert(rest@ =~= all.subrange(i + 1, n as int));
        }
        match item {
            Some(v) => {
                let ghost before = out@;
                out.push(v);
                proof {
                    assert forall|k: int| 0 <= k < i implies out@[k] == before[k] by {}
                }
            },
            None => {
                proof {
                    assert(all[i as int] is None);
                    assert(exists|k: int| 0 <= k < all.len() && #[trigger] all[k] is None);
                }
                return Err(ProtocolError::Timeout);
            },
        }
        i = i + 1;
    }
    Ok(out)
}

/// One step of the contributors' mask stream: `s * 1103515245 + 12345` modulo 2^64.
pub open spec fn lcg_step(s: int) -> int {
    (s * 1103515245 + 12345) % 0x1_0000_0000_0000_0000
}

/// The stream's state after `k` steps from `seed`.
pub open spec fn lcg_state(seed: int, k: nat) -> int
    decreases k,
{
    if k == 0 {
        seed
    } else {
        lcg_step(lcg_state(seed, (k - 1) as nat))
    }
}

/// The mask of contributor `user_id`: entry `k` is the stream state after
/// `k + 1` steps from `seed XOR user_id`, reduced into the field.
pub open spec fn mask_entry(user_id: usize, seed: u64, k: int, p: int) -> int {
    lcg_state((seed ^ (user_id as u64)) as int, (k + 1) as nat) % p
}

/// The mask that contributor `user_id` derives from its seed: `dim` elements of the field.
pub fn derive_mask(field: &FiniteField, user_id: usize, seed: u64, dim: usize) -> (r: Vec<FieldElement>)
    requires
        field.wf(),
    ensures
        r@.len() == dim,
        in_field(r@, field.md()),
        forall|k: int| 0 <= k < dim ==> (#[trigger] r@[k]).val() == mask_entry(user_id, seed, k, field.md()),
{
    let start = seed ^ (user_id as u64);
    let mut state = start;
    let mut mask: Vec<FieldElement> = Vec::with_capacity(dim);
    let mut k: usize = 0;
    while k < dim
        invariant
            field.wf(),
            start == seed ^ (user_id as u64),
            k <= dim,
            mask@.len() == k,
            state == lcg_state(start as int, k as nat),
            in_field(mask@, field.md()),
            forall|j: int| 0 <= j < k ==> (#[trigger] mask@[j]).val() == mask_entry(user_id, seed, j, field.md()),
        decreases dim - k,
    {
        let wide = ((state as u128) * 1103515245u128 + 12345u128) % 0x1_0000_0000_0000_0000u128;
        state = wide as u64;
        let ghost before = mask@;
        mask.push(field.element(state));
        proof {
            assert forall|j: int| 0 <= j < k implies mask@[j] == before[j] by {}
        }
        k = k + 1;
    }
    mask
}

/// The online phase of one run, with a count of the field operations it made.
#[derive(Debug, Clone)]
pub struct OnlinePhase {
    field: FiniteField,
    secret_sharing: ShamirSecretSharing,
    field_operations: usize,
}

impl OnlinePhase {
    /// The modulus of the phase's field.
    pub closed spec fn p(&self) -> int {
        self.field.md()
    }

    /// The phase's field.
    pub closed spec fn field_spec(&self) -> FiniteField {
        self.field
    }

    /// The phase's sharing scheme.
    pub closed spec fn sharing_spec(&self) -> ShamirSecretSharing {
        self.secret_sharing
    }

    /// A field and a threshold-two scheme over it.
    pub closed spec fn wf(&self) -> bool {
        &&& self.field.wf()
        &&& self.secret_sharing.wf()
        &&& self.secret_sharing.p() == self.field.md()
        &&& self.secret_sharing.threshold == 2
    }

    /// The number of field operations made so far.
    pub closed spec fn ops(&self) -> nat {
        self.field_operations as nat
    }

    /// A well-formed online phase works over a prime field.
    pub proof fn lemma_wf(&self)
        requires
            self.wf(),
        ensures
            is_prime(self.p() as nat),
    {
    }

    /// Fails with `InvalidConfiguration` unless the scheme has threshold two over the same field.
    pub fn new(field: FiniteField, secret_sharing: ShamirSecretSharing) -> (r: Result<OnlinePhase, ProtocolError>)
        requires
            field.wf(),
            secret_sharing.wf(),
        ensures
            match r {
                Ok(o) => o.wf() && o.field_spec() == field && o.sharing_spec() == secret_sharing && o.p() == field.md() && o.ops() == 0,
                Err(e) => !(secret_sharing.p() == field.md() && secret_sharing.threshold == 2) && e is InvalidConfiguration,
            },
    {
        if secret_sharing.field.modulus() != field.modulus() || secret_sharing.threshold != 2 {
            return Err(ProtocolError::InvalidConfiguration { message: "online phase needs a threshold-two scheme over its field".to_string() });
        }
        Ok(OnlinePhase { field, secret_sharing, field_operations: 0 })
    }

    /// The mask of contributor `user_id`, derived from its seed.
    pub fn compute_user_mask(&self, user_id: usize, seed: u64, dim: usize) -> (r: Vec<FieldElement>)
        requires
            self.wf(),
        ensures
            r@.len() == dim,
            in_field(r@, self.p()),
            forall|k: int| 0 <= k < dim ==> (#[trigger] r@[k]).val() == mask_entry(user_id, seed, k, self.p()),
    {
        derive_mask(&self.field, user_id, seed, dim)
    }

    /// The masked record `x - a` that a contributor submits.
    pub fn compute_user_share(&mut self, user_data: &[FieldElement], mask: &[FieldElement]) -> (r: Result<Vec<FieldElement>, ProtocolError>)
        requires
            old(self).wf(),
            all_wf(user_data@),
            all_wf(mask@),
        ensures
            final(self).wf(),
            final(self).p() == old(self).p(),
            match r {
                Ok(v) => user_data@.len() == mask@.len() && v@.len() == user_data@.len() && forall|i: int|
                    0 <= i < v@.len() ==> (#[trigger] v@[i]).wf() && user_data@[i].md() == mask@[i].md()
                        && v@[i].md() == user_data@[i].md() && v@[i].val() == fsub(
                        user_data@[i].val(),
                        mask@[i].val(),
                        user_data@[i].md(),
                    ),
                Err(e) => (user_data@.len() != mask@.len() && e == ProtocolError::DimensionMismatch) || (
                user_data@.len() == mask@.len() && (exists|i: int|
                    0 <= i < user_data@.len() && (#[trigger] user_data@[i]).md() != mask@[i].md()) && e
                    == ProtocolError::FieldOperationFailed),
            },
    {
        if user_data.len() != mask.len() {
            return Err(ProtocolError::DimensionMismatch);
        }
        match self.field.vector_sub(user_data, mask) {
            Ok(v) => {
                self.field_operations = self.field_operations.saturating_add(v.len());
                Ok(v)
            },
            Err(_) => Err(ProtocolError::FieldOperationFailed),
        }
    }

    /// Silent shuffle and silent randomization on one party's shares, without
    /// communication: `permutation * masked + masks + noise`.
    pub fn compute_local(&mut self, party: &PartyShares, masked: &[Vec<FieldElement>]) -> (r: Result<Vec<Vec<FieldElement>>, ProtocolError>)
        requires
            old(self).wf(),
            forall|i: int| 0 <= i < masked@.len() ==> all_wf((#[trigger] masked@[i])@),
            forall|i: int| 0 <= i < party.permutation@.len() ==> all_wf((#[trigger] party.permutation@[i])@),
            forall|i: int| 0 <= i < party.masks@.len() ==> all_wf((#[trigger] party.masks@[i])@),
            forall|i: int| 0 <= i < party.noise@.len() ==> all_wf((#[trigger] party.noise@[i])@),
            party.point.wf(),
        ensures
            final(self).wf(),
            final(self).p() == old(self).p(),
            match r {
                Ok(y) => masked@.len() > 0 && party.shaped(masked@.len() as int, masked@[0]@.len() as int, old(self).p())
                    && is_matrix(masked@, masked@.len() as int, masked@[0]@.len() as int, old(self).p())
                    && local_result(*party, masked@, y@, old(self).p()),
                Err(e) => (masked@.len() == 0 && e == ProtocolError::EmptyInput) || (masked@.len() > 0 && !(party.shaped(
                    masked@.len() as int,
                    masked@[0]@.len() as int,
                    old(self).p(),
                ) && is_matrix(masked@, masked@.len() as int, masked@[0]@.len() as int, old(self).p()))
                    && e == ProtocolError::DimensionMismatch),
            },
    {
        if masked.len() == 0 {
            return Err(ProtocolError::EmptyInput);
        }
        let n = masked.len();
        let d = masked[0].len();
        let ok = party.point.modulus() == self.field.modulus() && check_matrix(&self.field, &party.permutation, n, n)
            && check_matrix(&self.field, &party.masks, n, d) && check_matrix(&self.field, &party.noise, n, d)
            && check_matrix(&self.field, masked, n, d);
        if !ok {
            return Err(ProtocolError::DimensionMismatch);
        }
        let ghost p = self.field.md();
        let product = matrix_product(&self.field, &party.permutation, masked, d);
        let mut out: Vec<Vec<FieldElement>> = Vec::with_capacity(n);
        let mut i: usize = 0;
        while i < n
            invariant
                self.wf(),
                p == self.field.md(),
                n == masked@.len(),
                party.shaped(n as int, d as int, p),
                is_matrix(masked@, n as int, d as int, p),
                is_matrix(product@, n as int, d as int, p),
                forall|i: int, l: int|
                    0 <= i < n && 0 <= l < d ==> (#[trigger] product@[i]@[l]).val() == product_entry(party.permutation@, masked@, i, l, p),
                i <= n,
                out@.len() == i,
                forall|k: int|
                    0 <= k < i ==> (#[trigger] out@[k])@.len() == d && in_field(out@[k]@, p) && forall|l: int|
                        0 <= l < d ==> (#[trigger] out@[k]@[l]).val() == (dot(
                            vals(party.permutation@[k]@),
                            column(masked@, l),
                            masked@.len(),
                        ) + party.masks@[k]@[l].val() + party.noise@[k]@[l].val()) % p,
            decreases n - i,
        {
            let mut row: Vec<FieldElement> = Vec::with_capacity(d);
            let mut l: usize = 0;
            while l < d
                invariant
                    self.wf(),
                    p == self.field.md(),
                    n == masked@.len(),
                    i < n,
                    party.shaped(n as int, d as int, p),
                    is_matrix(masked@, n as int, d as int, p),
                    is_matrix(product@, n as int, d as int, p),
                    forall|i: int, l: int|
                        0 <= i < n && 0 <= l < d ==> (#[trigger] product@[i]@[l]).val() == product_entry(party.permutation@, masked@, i, l, p),
                    l <= d,
                    row@.len() == l,
                    in_field(row@, p),
                    forall|k: int|
                        0 <= k < l ==> (#[trigger] row@[k]).val() == (dot(
                            vals(party.permutation@[i as int]@),
                            column(masked@, k),
                            masked@.len(),
                        ) + party.masks@[i as int]@[k].val() + party.noise@[i as int]@[k].val()) % p,
                decreases d - l,
            {
                let y = product[i][l];
                let b = party.masks[i][l];
                let v = party.noise[i][l];
                proof {
                    assert(in_field(product@[i as int]@, p));
                    assert(in_field(party.masks@[i as int]@, p));
                    assert(in_field(party.noise@[i as int]@, p));
                    assert(product@[i as int]@[l as int] == y);
                    assert(party.masks@[i as int]@[l as int] == b);
                    assert(party.noise@[i as int]@[l as int] == v);
                }
                let s1 = match y.add(&b) {
                    Ok(e) => e,
                    Err(_) => {
                        proof {
                            assert(false);
                        }
                        y
                    },
                };
                let s2 = match s1.add(&v) {
                    Ok(e) => e,
                    Err(_) => {
                        proof {
                            assert(false);
                        }
                        y
                    },
                };
                proof {
                    let dd = dot(vals(party.permutation@[i as int]@), column(masked@, l as int), masked@.len());
                    lemma_eqm_mod(dd, p);
                    lemma_eqm_add(y.val(), dd, b.val(), b.val(), p);
                    lemma_eqm_mod(y.val() + b.val(), p);
                    lemma_eqm_add(s1.val(), dd + b.val(), v.val(), v.val(), p);
                    lemma_eqm_mod(s1.val() + v.val(), p);
                }
                let ghost before = row@;
                row.push(s2);
                proof {
                    assert forall|k: int| 0 <= k < l implies row@[k] == before[k] by {}
                }
                l = l + 1;
            }
            let ghost before = out@;
            out.push(row);
            proof {
                assert forall|k: int| 0 <= k < i implies out@[k] == before[k] by {}
                assert(out@[i as int]@ == row@);
            }
            i = i + 1;
        }
        self.field_operations = self.field_operations.saturating_add(n);
        proof {
            assert forall|i: int| 0 <= i < out@.len() implies (#[trigger] out@[i])@.len() == party.masks@[i]@.len() by {}
        }
        Ok(out)
    }

    /// Reveal: reconstructs every entry from the first two parties' result
    /// shares by Lagrange interpolation at zero over their points. Fails with
    /// `InsufficientShares` when fewer than two parties reveal.
    pub fn combine_server_results(&mut self, server_results: &[RevealMessage]) -> (r: Result<Vec<Vec<FieldElement>>, ProtocolError>)
        requires
            old(self).wf(),
            forall|k: int| 0 <= k < server_results@.len() ==> (#[trigger] server_results@[k]).point.wf(),
            forall|k: int, i: int|
                0 <= k < server_results@.len() && 0 <= i < server_results@[k].values@.len() ==> all_wf(
                    (#[trigger] server_results@[k].values@[i])@,
                ),
        ensures
            final(self).wf(),
            final(self).p() == old(self).p(),
            match r {
                Ok(out) => server_results@.len() >= 2 && revealed(server_results@[0], server_results@[1], out@, old(self).p()),
                Err(e) => (server_results@.len() < 2 && e == ProtocolError::InsufficientShares) || (
                server_results@.len() >= 2 && !same_shape(server_results@[0], server_results@[1]) && e
                    == ProtocolError::DimensionMismatch) || (server_results@.len() >= 2 && same_shape(
                    server_results@[0],
                    server_results@[1],
                ) && exists|i: int, l: int|
                    0 <= i < server_results@[0].values@.len() && 0 <= l < server_results@[0].values@[i]@.len()
                        && #[trigger] entry_outcome(server_results@[0], server_results@[1], i, l, old(self).p()) is Err
                        && e == protocol_error_of(
                        entry_outcome(server_results@[0], server_results@[1], i, l, old(self).p())->Err_0,
                    )),
            },
    {
        if server_results.len() < 2 {
            return Err(ProtocolError::InsufficientShares);
        }
        let m0 = &server_results[0];
        let m1 = &server_results[1];
        let n = m0.values.len();
        if m1.values.len() != n {
            return Err(ProtocolError::DimensionMismatch);
        }
        let mut k: usize = 0;
        while k < n
            invariant
                self.wf(),
                server_results@.len() >= 2,
                *m0 == server_results@[0],
                *m1 == server_results@[1],
                n == m0.values@.len(),
                n == m1.values@.len(),
                k <= n,
                forall|j: int| 0 <= j < k ==> (#[trigger] m0.values@[j])@.len() == m1.values@[j]@.len(),
            decreases n - k,
        {
            if m0.values[k].len() != m1.values[k].len() {
                proof {
                    assert(m0.values@[k as int]@.len() != m1.values@[k as int]@.len());
                }
                return Err(ProtocolError::DimensionMismatch);
            }
            k = k + 1;
        }
        proof {
            assert(same_shape(*m0, *m1));
        }
        let ghost p = self.p();
        let mut out: Vec<Vec<FieldElement>> = Vec::with_capacity(n);
        let mut i: usize = 0;
        while i < n
            invariant
                self.wf(),
                p == self.p(),
                server_results@.len() >= 2,
                *m0 == server_results@[0],
                *m1 == server_results@[1],
                m0.point.wf(),
                m1.point.wf(),
                forall|i: int| 0 <= i < m0.values@.len() ==> all_wf((#[trigger] m0.values@[i])@),
                forall|i: int| 0 <= i < m1.values@.len() ==> all_wf((#[trigger] m1.values@[i])@),
                n == m0.values@.len(),
                n == m1.values@.len(),
                same_shape(*m0, *m1),
                i <= n,
                out@.len() == i,
                forall|k: int|
                    0 <= k < i ==> (#[trigger] out@[k])@.len() == m0.values@[k]@.len() && forall|l: int|
                        0 <= l < out@[k]@.len() ==> matches_outcome(
                            Ok(#[trigger] out@[k]@[l]),
                            reconstruct_outcome(seq![entry_share(*m0, 0, k, l), entry_share(*m1, 1, k, l)], 2, p),
                            p,
                        ),
            decreases n - i,
        {
            let d = m0.values[i].len();
            let mut row: Vec<FieldElement> = Vec::with_capacity(d);
            let mut l: usize = 0;
            while l < d
                invariant
                    self.wf(),
                    p == self.p(),
                    server_results@.len() >= 2,
                    *m0 == server_results@[0],
                    *m1 == server_results@[1],
                    m0.point.wf(),
                    m1.point.wf(),
                    forall|i: int| 0 <= i < m0.values@.len() ==> all_wf((#[trigger] m0.values@[i])@),
                    forall|i: int| 0 <= i < m1.values@.len() ==> all_wf((#[trigger] m1.values@[i])@),
                    n == m0.values@.len(),
                    n == m1.values@.len(),
                    same_shape(*m0, *m1),
                    i < n,
                    d == m0.values@[i as int]@.len(),
                    d == m1.values@[i as int]@.len(),
                    l <= d,
                    row@.len() == l,
                    forall|k: int|
                        0 <= k < l ==> matches_outcome(
                            Ok(#[trigger] row@[k]),
                            reconstruct_outcome(seq![entry_share(*m0, 0, i as int, k), entry_share(*m1, 1, i as int, k)], 2, p),
                            p,
                        ),
                decreases d - l,
            {
                let a = SecretShare::new(0, m0.values[i][l], m0.point);
                let b = SecretShare::new(1, m1.values[i][l], m1.point);
                let shares = vec![a, b];
                proof {
                    assert(all_wf(m0.values@[i as int]@));
                    assert(all_wf(m1.values@[i as int]@));
                    assert(a == entry_share(*m0, 0, i as int, l as int));
                    assert(b == entry_share(*m1, 1, i as int, l as int));
                    assert(shares@ == seq![a, b]);
                }
                let e = match self.secret_sharing.reconstruct_secret(&shares) {
                    Ok(e) => e,
                    Err(fe) => {
                        proof {
                            let o = reconstruct_outcome(seq![entry_share(*m0, 0, i as int, l as int), entry_share(*m1, 1, i as int, l as int)], 2, p);
                            assert(o == Err::<int, FieldError>(fe));
                            assert(entry_outcome(*m0, *m1, i as int, l as int, p) == o);
                        }
                        return Err(ProtocolError::from(fe));
                    },
                };
                let ghost before = row@;
                row.push(e);
                proof {
                    assert forall|k: int| 0 <= k < l implies row@[k] == before[k] by {}
                }
                l = l + 1;
            }
            let ghost before = out@;
            out.push(row);
            proof {
                assert forall|k: int| 0 <= k < i implies out@[k] == before[k] by {}
                assert(out@[i as int]@ == row@);
            }
            i = i + 1;
        }
        self.field_operations = self.field_operations.saturating_add(n);
        Ok(out)
    }

    pub fn field_operations(&self) -> (r: usize)
        ensures
            r == self.ops(),
    {
        self.field_operations
    }
}

} // verus!

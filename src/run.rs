//! One run of the protocol after the permutation, the noise and the
//! contributors' submissions have been gathered: the offline phase, delivery to
//! the computational parties, their local computation, and the reveal.

use crate::correctness::lemma_protocol_correct;
use crate::field::{all_wf, fsub, in_field, FieldElement, FieldError};
use crate::offline::{correlated, is_permutation, noise_shaped, OfflinePhase};
use crate::online::{
    entry_outcome, entry_share, gather_submissions, is_matrix, local_result, mask_entry, revealed, same_shape,
    OnlinePhase, PartyShares, RevealMessage,
};
use crate::protocol::ProtocolError;
use crate::server::{Server, ServerRole};
use crate::sharing::{lag_den, lagrange_defined, points, reconstruct_outcome, shares_in_field};
use vstd::arithmetic::div_mod::*;
use vstd::prelude::*;

verus! {

/// Every contributor `0..n` submitted a masked record of `d` field elements.
pub open spec fn complete_submissions(received: Seq<Option<Vec<FieldElement>>>, n: int, d: int, p: int) -> bool {
    &&& received.len() == n
    &&& forall|j: int|
        0 <= j < n ==> (#[trigger] received[j]) is Some && received[j]->Some_0@.len() == d && in_field(
            received[j]->Some_0@,
            p,
        )
}

/// The submissions are the records `x` minus each contributor's mask derived from its seed.
pub open spec fn submitted(
    received: Seq<Option<Vec<FieldElement>>>,
    x: Seq<Vec<FieldElement>>,
    seeds: Seq<u64>,
    n: int,
    d: int,
    p: int,
) -> bool {
    &&& complete_submissions(received, n, d, p)
    &&& is_matrix(x, n, d, p)
    &&& forall|j: int, l: int|
        0 <= j < n && 0 <= l < d ==> received[j]->Some_0@[l].val() == fsub(
            (#[trigger] x[j]@[l]).val(),
            mask_entry(j as usize, seeds[j], l, p),
            p,
        )
}

/// `out` is the records `x` in the order of `sigma`, plus the noise, in the field.
pub open spec fn shuffled_output(
    out: Seq<Vec<FieldElement>>,
    x: Seq<Vec<FieldElement>>,
    sigma: Seq<usize>,
    noise: Seq<Vec<i64>>,
    n: int,
    d: int,
    p: int,
) -> bool {
    &&& out.len() == n
    &&& forall|i: int| 0 <= i < n ==> (#[trigger] out[i])@.len() == d
    &&& forall|i: int, l: int|
        0 <= i < n && 0 <= l < d ==> (#[trigger] out[i]@[l]).val() == (x[sigma[i] as int]@[l].val() + noise[i]@[l] as int) % p
}

/// A computational party that is online, ready to take part in a run.
pub open spec fn ready(s: Server) -> bool {
    s.role == ServerRole::Computational && s.state is Online
}

/// Interpolation over the points 2 and 3 is defined in a field of order above 3.
proof fn lemma_points_defined(p: int)
    requires
        p > 3,
    ensures
        lagrange_defined(seq![2int, 3int], 2, p),
{
    reveal_with_fuel(lag_den, 3);
    let xs = seq![2int, 3int];
    assert(lag_den(xs, 0, 2) == -1);
    assert(lag_den(xs, 1, 2) == 1);
    lemma_mod_multiples_vanish(1, -1, p);
    lemma_small_mod((p - 1) as nat, p as nat);
    lemma_small_mod(1, p as nat);
}

/// Every row of a well-shaped share matrix holds well-formed elements.
proof fn lemma_rows_wf(m: Seq<Vec<FieldElement>>, rows: int, cols: int, p: int)
    requires
        is_matrix(m, rows, cols, p),
    ensures
        forall|i: int| 0 <= i < m.len() ==> all_wf((#[trigger] m[i])@),
{
    assert forall|i: int| 0 <= i < m.len() implies all_wf((#[trigger] m[i])@) by {
        assert(in_field(m[i]@, p));
    }
}

/// Runs the offline phase for `sigma`, `seeds` and `noise`, delivers the
/// shares to the two computational parties, gathers the submissions (a
/// missing one aborts the run with `Timeout` and cancels it at both parties),
/// lets each party compute locally and reveals. The run succeeds whenever
/// its inputs are well formed, and the output is then the submitted records
/// in the order of `sigma`, plus the noise.
pub fn run_protocol(
    offline: &OfflinePhase,
    online: &mut OnlinePhase,
    comp1: &mut Server,
    comp2: &mut Server,
    sigma: &[usize],
    seeds: &[u64],
    noise: &[Vec<i64>],
    received: Vec<Option<Vec<FieldElement>>>,
) -> (r: Result<Vec<Vec<FieldElement>>, ProtocolError>)
    requires
        offline.wf(),
        old(online).wf(),
        old(online).p() == offline.p(),
        forall|j: int| 0 <= j < received@.len() && (#[trigger] received@[j]) is Some ==> all_wf(received@[j]->Some_0@),
    ensures
        final(online).wf(),
        final(online).p() == old(online).p(),
        is_permutation(sigma@, offline.n()) && seeds@.len() == offline.n() && noise_shaped(noise@, offline.n(), offline.d())
            && ready(*old(comp1)) && ready(*old(comp2)) && complete_submissions(received@, offline.n(), offline.d(), offline.p())
            ==> r is Ok,
        is_permutation(sigma@, offline.n()) && seeds@.len() == offline.n() && noise_shaped(noise@, offline.n(), offline.d())
            && ready(*old(comp1)) && ready(*old(comp2)) && (exists|j: int| 0 <= j < received@.len() && #[trigger] received@[j] is None)
            ==> r == Err::<Vec<Vec<FieldElement>>, ProtocolError>(ProtocolError::Timeout),
        r matches Ok(out) ==> is_permutation(sigma@, offline.n()) && forall|x: Seq<Vec<FieldElement>>|
            #[trigger] submitted(received@, x, seeds@, offline.n(), offline.d(), offline.p()) ==> shuffled_output(
                out@,
                x,
                sigma@,
                noise@,
                offline.n(),
                offline.d(),
                offline.p(),
            ),
{
    proof {
        offline.lemma_wf();
    }
    let ghost n = offline.n();
    let ghost d = offline.d();
    let ghost p = offline.p();
    let (c1, c2) = match offline.execute(sigma, seeds, noise) {
        Ok(pair) => pair,
        Err(e) => return Err(e),
    };
    let ghost g1 = c1;
    let ghost g2 = c2;
    proof {
        lemma_rows_wf(g1.permutation@, n, n, p);
        lemma_rows_wf(g1.masks@, n, d, p);
        lemma_rows_wf(g1.noise@, n, d, p);
        lemma_rows_wf(g2.permutation@, n, n, p);
        lemma_rows_wf(g2.masks@, n, d, p);
        lemma_rows_wf(g2.noise@, n, d, p);
    }
    match comp1.receive_shares(c1) {
        Ok(()) => {},
        Err(e) => return Err(e),
    }
    match comp2.receive_shares(c2) {
        Ok(()) => {},
        Err(e) => return Err(e),
    }
    match comp1.begin_run() {
        Ok(()) => {},
        Err(e) => return Err(e),
    }
    match comp2.begin_run() {
        Ok(()) => {},
        Err(e) => return Err(e),
    }
    let ghost all = received@;
    let masked = match gather_submissions(received) {
        Ok(m) => m,
        Err(e) => {
            comp1.cancel_run();
            comp2.cancel_run();
            return Err(e);
        },
    };
    proof {
        assert forall|j: int| 0 <= j < masked@.len() implies all_wf((#[trigger] masked@[j])@) by {
            assert(all[j] == Some(masked@[j]));
        }
        assert forall|j: int| 0 <= j < all.len() implies !(#[trigger] all[j] is None) by {
            assert(all[j] == Some(masked@[j]));
        }
    }
    let y1 = match comp1.get_shares() {
        Some(s) => match online.compute_local(s, &masked) {
            Ok(y) => y,
            Err(e) => return Err(e),
        },
        None => return Err(ProtocolError::ServerNotFound),
    };
    let y2 = match comp2.get_shares() {
        Some(s) => match online.compute_local(s, &masked) {
            Ok(y) => y,
            Err(e) => return Err(e),
        },
        None => return Err(ProtocolError::ServerNotFound),
    };
    let ghost v1 = y1@;
    let ghost v2 = y2@;
    match comp1.set_final_result(y1) {
        Ok(()) => {},
        Err(e) => return Err(e),
    }
    match comp2.set_final_result(y2) {
        Ok(()) => {},
        Err(e) => return Err(e),
    }
    let m1 = match comp1.reveal_message() {
        Ok(m) => m,
        Err(e) => return Err(e),
    };
    let m2 = match comp2.reveal_message() {
        Ok(m) => m,
        Err(e) => return Err(e),
    };
    let ghost r1 = m1;
    let ghost r2 = m2;
    proof {
        assert(r1.point == g1.point && r1.values@ == v1);
        assert(r2.point == g2.point && r2.values@ == v2);
        assert forall|i: int| 0 <= i < r1.values@.len() implies all_wf((#[trigger] r1.values@[i])@) by {
            assert(in_field(v1[i]@, p));
        }
        assert forall|i: int| 0 <= i < r2.values@.len() implies all_wf((#[trigger] r2.values@[i])@) by {
            assert(in_field(v2[i]@, p));
        }
    }
    let messages = vec![m1, m2];
    proof {
        assert(messages@[0] == r1 && messages@[1] == r2);
        assert(same_shape(r1, r2));
        lemma_points_defined(p);
        assert forall|i: int, l: int| 0 <= i < r1.values@.len() && 0 <= l < r1.values@[i]@.len() implies #[trigger] entry_outcome(
            r1,
            r2,
            i,
            l,
            p,
        ) is Ok by {
            let pair = seq![entry_share(r1, 0, i, l), entry_share(r2, 1, i, l)];
            assert(in_field(v1[i]@, p));
            assert(in_field(v2[i]@, p));
            assert(points(pair) == seq![2int, 3int]);
            assert(shares_in_field(pair, 2, p));
        }
    }
    let out = match online.combine_server_results(&messages) {
        Ok(o) => o,
        Err(e) => return Err(e),
    };
    proof {
        assert forall|x: Seq<Vec<FieldElement>>| #[trigger] submitted(all, x, seeds@, n, d, p) implies shuffled_output(
            out@,
            x,
            sigma@,
            noise@,
            n,
            d,
            p,
        ) by {
            assert forall|j: int, l: int| 0 <= j < n && 0 <= l < d implies (#[trigger] masked@[j]@[l]).val() == fsub(
                x[j]@[l].val(),
                mask_entry(j as usize, seeds@[j], l, p),
                p,
            ) by {
                assert(all[j] == Some(masked@[j]));
            }
            assert(is_matrix(masked@, n, d, p)) by {
                assert forall|j: int| 0 <= j < n implies (#[trigger] masked@[j])@.len() == d && in_field(masked@[j]@, p) by {
                    assert(all[j] == Some(masked@[j]));
                }
            }
            lemma_protocol_correct(g1, g2, sigma@, seeds@, noise@, x, masked@, r1, r2, out@, n, d, p);
        }
    }
    Ok(out)
}

} // verus!

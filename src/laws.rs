//! Properties that relate the provers, the verifier and the encoding.

use vstd::prelude::*;
use crate::codec::{decodable, encodes, field};
use crate::point::is_point_encoding;
use crate::scalar::le_value;
use crate::rangeproof::RangeProof;
use crate::ring::commitment_sum;
use crate::scalar::group_order;

verus! {

/// Completeness: a prover's output whose ring challenges do not vanish is
/// accepted for its own bound, and the verifier returns the prover's
/// commitment.
pub proof fn lemma_completeness(
    p: &RangeProof,
    commitment: int,
    blinding: int,
    n: nat,
    value: nat,
    g: int,
    h: int,
)
    requires
        p.proves(commitment, blinding, n, value, g, h),
        !p.has_vanishing_challenge(n, g, h),
    ensures
        p.accepted(n, g, h),
        commitment_sum(p.commitments(), n) == commitment,
{
}

/// Commitment consistency: what the verifier returns on acceptance,
/// `ΣCⁱ`, is `blinding·G + value·H`.
pub proof fn lemma_commitment_consistency(
    p: &RangeProof,
    commitment: int,
    blinding: int,
    n: nat,
    value: nat,
    g: int,
    h: int,
)
    requires
        p.proves(commitment, blinding, n, value, g, h),
        p.accepted(n, g, h),
    ensures
        commitment_sum(p.commitments(), n) == (blinding * g + value * h) % group_order(),
{
}

/// A proof made for bound `n` is rejected for every other bound.
pub proof fn lemma_wrong_bound_rejected(
    p: &RangeProof,
    commitment: int,
    blinding: int,
    n: nat,
    value: nat,
    g: int,
    h: int,
    other: nat,
)
    requires
        p.proves(commitment, blinding, n, value, g, h),
        other != n,
    ensures
        !p.accepted(other, g, h),
{
}

/// Round trip: the encoding of a proof decodes, and any proof decoded from it
/// has the same fields, so it is accepted exactly when the original is.
pub proof fn lemma_round_trip(p: &RangeProof, bytes: Seq<u8>, q: &RangeProof)
    requires
        encodes(bytes, p.anchor(), p.commitments(), p.responses_1(), p.responses_2()),
        encodes(bytes, q.anchor(), q.commitments(), q.responses_1(), q.responses_2()),
    ensures
        decodable(bytes),
        q.anchor() == p.anchor(),
        q.commitments() == p.commitments(),
        q.responses_1() == p.responses_1(),
        q.responses_2() == p.responses_2(),
        forall|n: nat, g: int, h: int| q.accepted(n, g, h) == p.accepted(n, g, h),
{
    let n = p.commitments().len() as int;
    assert((bytes.len() as int - 32) / 96 == n);
    p.lemma_fields_reduced();
    assert forall|j: int| 0 <= j < n implies q.commitments()[j] == p.commitments()[j] by {
        assert(is_point_encoding(field(bytes, 1 + j)));
    }
    assert forall|j: int| 0 <= j < n implies q.responses_1()[j] == p.responses_1()[j] by {
        assert(le_value(field(bytes, 1 + n + j)) == p.responses_1()[j]);
    }
    assert forall|j: int| 0 <= j < n implies q.responses_2()[j] == p.responses_2()[j] by {
        assert(le_value(field(bytes, 1 + 2 * n + j)) == p.responses_2()[j]);
    }
    assert(q.commitments() =~= p.commitments());
    assert(q.responses_1() =~= p.responses_1());
    assert(q.responses_2() =~= p.responses_2());
}

} // verus!

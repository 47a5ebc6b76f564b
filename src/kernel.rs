//! The per-digit ring kernel of the prover, in its variable-time form.
//!
//! The first half (`open`) runs before the anchor challenge `e0` is known and
//! yields the closing point `R` of the digit's ring; the second half (`close`)
//! completes the ring responses from `e0`.

use vstd::prelude::*;
use crate::modular::{cong, lemma_cong_add, lemma_cong_mod};
use crate::point::{self, Point, encoding_of};
use crate::ring::{
    lemma_closure_zero_digit, lemma_step_known_opening, lemma_step_zero_digit, ring_closure,
    ring_e1, ring_e2,
};
use crate::scalar::{self, Scalar, group_order, hash_scalar_of};

verus! {

/// What the first half leaves for digit `v` with nonce `k`: the closing point
/// `rr`, and for digits 1 and 2 the commitment `c = r·G + v·m` and (digit 1)
/// the response `s2`.
pub open spec fn opened(v: u8, g: int, m: int, k: int, rr: int, c: int, r: int, s2: int) -> bool {
    let kg = (k * g) % group_order();
    if v == 0 {
        rr == kg
    } else if v == 1 {
        &&& c == ((r * g) % group_order() + m) % group_order()
        &&& rr == (ring_e2(g, m, c, s2, hash_scalar_of(encoding_of(kg))) * c) % group_order()
    } else {
        &&& c == ((r * g) % group_order() + (m + m) % group_order()) % group_order()
        &&& rr == (hash_scalar_of(encoding_of(kg)) * c) % group_order()
    }
}

/// What the second half gives for digit `v`: `c` commits to `v·m` under the
/// blinding `r`, and the ring recomputed from `(e0, c, s1, s2)` closes at
/// `rr`, unless its second challenge came out zero.
pub open spec fn closed(
    v: u8,
    g: int,
    m: int,
    e0: int,
    rr: int,
    c: int,
    r: int,
    s1: int,
    s2: int,
) -> bool {
    &&& cong(c, r * g + v * m)
    &&& (ring_closure(g, m, e0, c, s1, s2) == rr || ring_e2(g, m, c, s2, ring_e1(g, m, e0, c, s1))
        == 0)
}

/// The hash of a point's encoding, as a scalar.
pub(crate) fn hash_point(p: &Point) -> (r: Scalar)
    ensures
        r@ == hash_scalar_of(encoding_of(p@)),
{
    let b = p.to_bytes();
    scalar::hash_to_scalar(b.as_slice())
}

/// First half for digit `v`, variable time. Draws: `d1` is the blinding of
/// digits 1 and 2, `d2` the response `s2` of digit 1.
pub(crate) fn open_vartime(
    v: u8,
    g: &Point,
    m: &Point,
    m2: &Point,
    k: &Scalar,
    d1: &Scalar,
    d2: &Scalar,
) -> (res: (Point, Point, Scalar, Scalar))
    requires
        v <= 2,
        m2@ == (m@ + m@) % group_order(),
    ensures
        opened(v, g@, m@, k@, res.0@, res.1@, res.2@, res.3@),
{
    if v == 0 {
        (point::mul(k, g), point::identity(), scalar::zero(), scalar::zero())
    } else if v == 1 {
        // Commitment r·G + m; the ring starts at member 1 with e1 = hash(k·G).
        let r = d1.clone();
        let c = point::add(&point::mul(&r, g), m);
        let e1 = hash_point(&point::mul(k, g));
        let s2 = d2.clone();
        let c_minus_2m = point::sub(&c, m2);
        let p = point::multiscalar2(&s2, g, &scalar::neg(&e1), &c_minus_2m);
        let e2 = hash_point(&p);
        (point::mul(&e2, &c), c, r, s2)
    } else {
        // Commitment r·G + 2m; the ring starts at member 2 with e2 = hash(k·G).
        let r = d1.clone();
        let c = point::add(&point::mul(&r, g), m2);
        let e2 = hash_point(&point::mul(k, g));
        (point::mul(&e2, &c), c, r, scalar::zero())
    }
}

/// Second half for digit `v`, variable time, once `e0` is known. Draws: for
/// digit 0 `d1`, `d2` are the nonces `k1`, `k2`; for digit 2 `d1` is `s1`.
/// Returns the commitment, its blinding and the two responses.
pub(crate) fn close_vartime(
    v: u8,
    g: &Point,
    m: &Point,
    m2: &Point,
    e0: &Scalar,
    k: &Scalar,
    Ghost(rr): Ghost<int>,
    c: Point,
    r: Scalar,
    s2: Scalar,
    d1: &Scalar,
    d2: &Scalar,
) -> (res: (Point, Scalar, Scalar, Scalar))
    requires
        v <= 2,
        m2@ == (m@ + m@) % group_order(),
        opened(v, g@, m@, k@, rr, c@, r@, s2@),
    ensures
        closed(v, g@, m@, e0@, rr, res.0@, res.1@, res.2@, res.3@),
{
    if v == 0 {
        let k1 = d1;
        let e1 = hash_point(&point::multiscalar2(k1, g, e0, m));
        let k2 = d2;
        let e2 = hash_point(&point::multiscalar2(k2, g, &e1, m2));
        // e2 is a hash output and is zero with negligible probability only;
        // the blinding is then taken as zero, as the inverse of zero is.
        let ghost mut inv: int = 0;
        let zero = scalar::zero();
        let r = if scalar::equal(&e2, &zero) {
            zero
        } else {
            let e2_inv = scalar::invert(&e2);
            proof {
                inv = e2_inv@;
            }
            scalar::mul(&e2_inv, k)
        };
        let c = point::mul(&r, g);
        let s1 = scalar::add(k1, &scalar::mul(e0, &r));
        let s2 = scalar::add(k2, &scalar::mul(&e1, &r));
        proof {
            lemma_step_zero_digit(g@, m@, e0@, k1@, r@, c@, s1@);
            lemma_step_zero_digit(g@, m2@, e1@, k2@, r@, c@, s2@);
            assert(ring_e1(g@, m@, e0@, c@, s1@) == e1@);
            assert(ring_e2(g@, m@, c@, s2@, e1@) == e2@);
            if e2@ != 0 {
                lemma_closure_zero_digit(g@, e2@, inv, k@, r@, c@);
            }
            lemma_cong_mod(r@ * g@);
            assert(r@ * g@ + 0 * m@ == r@ * g@);
        }
        (c, r, s1, s2)
    } else if v == 1 {
        let s1 = scalar::add(&scalar::mul(e0, &r), k);
        proof {
            lemma_step_known_opening(g@, m@, e0@, k@, r@, c@, s1@);
            lemma_cong_mod(r@ * g@);
            lemma_cong_add((r@ * g@) % group_order(), r@ * g@, m@, m@);
            lemma_cong_mod((r@ * g@) % group_order() + m@);
            assert(r@ * g@ + 1 * m@ == r@ * g@ + m@);
        }
        (c, r, s1, s2)
    } else {
        let s1 = d1.clone();
        let c_minus_m = point::sub(&c, m);
        let e1 = hash_point(&point::multiscalar2(&s1, g, &scalar::neg(e0), &c_minus_m));
        let s2 = scalar::add(&scalar::mul(&e1, &r), k);
        proof {
            assert(e1@ == ring_e1(g@, m@, e0@, c@, s1@));
            lemma_step_known_opening(g@, m2@, e1@, k@, r@, c@, s2@);
            lemma_cong_mod(r@ * g@);
            lemma_cong_mod(m@ + m@);
            lemma_cong_add((r@ * g@) % group_order(), r@ * g@, m2@, m@ + m@);
            lemma_cong_mod((r@ * g@) % group_order() + m2@);
            assert(r@ * g@ + 2 * m@ == r@ * g@ + (m@ + m@));
        }
        (c, r, s1, s2)
    }
}

} // verus!

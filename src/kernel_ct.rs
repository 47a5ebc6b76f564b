//! The per-digit ring kernel of the prover in its branch-uniform form.
//!
//! Every operation and every draw that any digit value needs is performed
//! for every digit; the digit only steers conditional assignments, through
//! masks computed in constant time.

use vstd::prelude::*;
use crate::kernel::{closed, hash_point, opened};
use crate::modular::{lemma_cong_add, lemma_cong_mod};
use crate::point::{self, Point};
use crate::ring::{
    lemma_closure_zero_digit, lemma_difference_form, lemma_step_known_opening,
    lemma_step_zero_digit, lemma_sum_form, ring_e1, ring_e2,
};
use crate::scalar::{self, Scalar, group_order};
use subtle::ConstantTimeEq;

verus! {

/// Relies on `ConstantTimeEq` of `u8`: one when `a == b`, else zero.
#[verifier::external_body]
fn bytes_equal_ct(a: u8, b: u8) -> (r: u8)
    ensures
        r == (if a == b { 1u8 } else { 0u8 }),
{
    a.ct_eq(&b).unwrap_u8()
}

/// One when `a` is nonzero, else zero, through `bytes_equal_ct`.
fn byte_is_nonzero(a: u8) -> (r: u8)
    ensures
        r == (if a != 0 { 1u8 } else { 0u8 }),
{
    1 - bytes_equal_ct(a, 0)
}

/// First half for digit `v`, branch-uniform. Draws: the nonce `k`, the
/// blinding `maybe_r` (digits 1 and 2) and the response `maybe_s2` (digit 1).
/// Returns the closing point, the commitment, its blinding, `s2`, and the
/// provisional challenges `e1`, `e2`.
pub(crate) fn open_ct(
    v: u8,
    g: &Point,
    m: &Point,
    m2: &Point,
    k: &Scalar,
    maybe_r: &Scalar,
    maybe_s2: &Scalar,
) -> (res: (Point, Point, Scalar, Scalar, Scalar, Scalar))
    requires
        v <= 2,
        m2@ == (m@ + m@) % group_order(),
    ensures
        opened(v, g@, m@, k@, res.0@, res.1@, res.2@, res.3@),
{
    let is_nonzero = byte_is_nonzero(v);
    let is_one = bytes_equal_ct(v, 1);
    let is_two = bytes_equal_ct(v, 2);

    // Commitment r·G + v·m for digits 1 and 2.
    let mut r = scalar::zero();
    scalar::conditional_assign(&mut r, maybe_r, is_nonzero);
    let mut which_m = m.clone();
    point::conditional_assign(&mut which_m, m2, is_two);
    let maybe_c = point::add(&point::mul(&r, g), &which_m);
    let mut c = point::identity();
    point::conditional_assign(&mut c, &maybe_c, is_nonzero);

    // The ring starts at member v with e_v = hash(k·G).
    let maybe_e = hash_point(&point::mul(k, g));
    let mut e1 = scalar::zero();
    scalar::conditional_assign(&mut e1, &maybe_e, is_one);
    let mut e2 = scalar::zero();
    scalar::conditional_assign(&mut e2, &maybe_e, is_two);

    let mut s2 = scalar::zero();
    scalar::conditional_assign(&mut s2, maybe_s2, is_one);

    // e2 = hash(s2·G − e1·(C − 2m)) for digit 1.
    let c_minus_2m = point::sub(&c, m2);
    let p = point::sub(&point::mul(&s2, g), &point::mul(&e1, &c_minus_2m));
    let maybe_e = hash_point(&p);
    scalar::conditional_assign(&mut e2, &maybe_e, is_one);

    // R = k·G for digit 0, R = e2·C otherwise.
    let mut rr = point::mul(k, g);
    let maybe_rr = point::mul(&e2, &c);
    point::conditional_assign(&mut rr, &maybe_rr, is_nonzero);
    proof {
        lemma_difference_form(s2@, g@, e1@, c_minus_2m@);
    }
    (rr, c, r, s2, e1, e2)
}

/// Second half for digit `v`, branch-uniform, once `e0` is known. Draws: the
/// nonces `maybe_k1`, `maybe_k2` (digit 0) and the response `maybe_s1`
/// (digit 2). Returns the commitment, its blinding and the two responses.
pub(crate) fn close_ct(
    v: u8,
    g: &Point,
    m: &Point,
    m2: &Point,
    e0: &Scalar,
    k: &Scalar,
    Ghost(rr): Ghost<int>,
    c: Point,
    r: Scalar,
    s2: Scalar,
    e1: Scalar,
    e2: Scalar,
    maybe_k1: &Scalar,
    maybe_k2: &Scalar,
    maybe_s1: &Scalar,
) -> (res: (Point, Scalar, Scalar, Scalar))
    requires
        v <= 2,
        m2@ == (m@ + m@) % group_order(),
        opened(v, g@, m@, k@, rr, c@, r@, s2@),
    ensures
        closed(v, g@, m@, e0@, rr, res.0@, res.1@, res.2@, res.3@),
{
    let is_zero = bytes_equal_ct(v, 0);
    let is_one = bytes_equal_ct(v, 1);
    let is_two = bytes_equal_ct(v, 2);
    let mut c = c;
    let mut r = r;
    let mut s2 = s2;
    let mut e1 = e1;
    let mut e2 = e2;

    // Digit 0: e1 = hash(k1·G + e0·m), e2 = hash(k2·G + e1·2m).
    let mut k1 = scalar::zero();
    scalar::conditional_assign(&mut k1, maybe_k1, is_zero);
    let p1 = point::add(&point::mul(&k1, g), &point::mul(e0, m));
    let maybe_e1 = hash_point(&p1);
    scalar::conditional_assign(&mut e1, &maybe_e1, is_zero);
    let mut k2 = scalar::zero();
    scalar::conditional_assign(&mut k2, maybe_k2, is_zero);
    let p2 = point::add(&point::mul(&k2, g), &point::mul(&e1, m2));
    let maybe_e2 = hash_point(&p2);
    scalar::conditional_assign(&mut e2, &maybe_e2, is_zero);
    proof {
        lemma_sum_form(k1@, g@, e0@, m@);
        lemma_sum_form(k2@, g@, e1@, m2@);
    }

    // The inverse of e2; e2 is a hash output, zero with negligible
    // probability only, and its inverse is then taken as zero.
    let ghost mut inv: int = 0;
    let zero = scalar::zero();
    let e2_inv = if scalar::equal(&e2, &zero) {
        scalar::zero()
    } else {
        let x = scalar::invert(&e2);
        proof {
            inv = x@;
        }
        x
    };
    let maybe_r = scalar::mul(&e2_inv, k);
    scalar::conditional_assign(&mut r, &maybe_r, is_zero);
    let maybe_c = point::mul(&r, g);
    point::conditional_assign(&mut c, &maybe_c, is_zero);

    let k_over_e2 = scalar::mul(k, &e2_inv);
    let mut s1 = scalar::zero();
    let maybe_s1_zero = scalar::add(&k1, &scalar::mul(e0, &k_over_e2));
    scalar::conditional_assign(&mut s1, &maybe_s1_zero, is_zero);
    let maybe_s1_one = scalar::add(&scalar::mul(e0, &r), k);
    scalar::conditional_assign(&mut s1, &maybe_s1_one, is_one);
    scalar::conditional_assign(&mut s1, maybe_s1, is_two);

    // Digit 2: e1 = hash(s1·G − e0·(C − m)).
    let c_minus_m = point::sub(&c, m);
    let p = point::sub(&point::mul(&s1, g), &point::mul(e0, &c_minus_m));
    let maybe_e1 = hash_point(&p);
    scalar::conditional_assign(&mut e1, &maybe_e1, is_two);
    proof {
        lemma_difference_form(s1@, g@, e0@, c_minus_m@);
    }

    let maybe_s2_zero = scalar::add(&k2, &scalar::mul(&e1, &k_over_e2));
    scalar::conditional_assign(&mut s2, &maybe_s2_zero, is_zero);
    let maybe_s2_two = scalar::add(&scalar::mul(&e1, &r), k);
    scalar::conditional_assign(&mut s2, &maybe_s2_two, is_two);

    proof {
        assert(k@ * e2_inv@ == e2_inv@ * k@) by (nonlinear_arith);
        if v == 0 {
            lemma_step_zero_digit(g@, m@, e0@, k1@, r@, c@, s1@);
            lemma_step_zero_digit(g@, m2@, e1@, k2@, r@, c@, s2@);
            assert(ring_e1(g@, m@, e0@, c@, s1@) == e1@);
            assert(ring_e2(g@, m@, c@, s2@, e1@) == e2@);
            if e2@ != 0 {
                lemma_closure_zero_digit(g@, e2@, inv, k@, r@, c@);
            }
            lemma_cong_mod(r@ * g@);
            assert(r@ * g@ + 0 * m@ == r@ * g@);
        } else if v == 1 {
            lemma_step_known_opening(g@, m@, e0@, k@, r@, c@, s1@);
            lemma_cong_mod(r@ * g@);
            lemma_cong_add((r@ * g@) % group_order(), r@ * g@, m@, m@);
            lemma_cong_mod((r@ * g@) % group_order() + m@);
            assert(r@ * g@ + 1 * m@ == r@ * g@ + m@);
        } else {
            assert(e1@ == ring_e1(g@, m@, e0@, c@, s1@));
            lemma_step_known_opening(g@, m2@, e1@, k@, r@, c@, s2@);
            lemma_cong_mod(r@ * g@);
            lemma_cong_mod(m@ + m@);
            lemma_cong_add((r@ * g@) % group_order(), r@ * g@, m2@, m@ + m@);
            lemma_cong_mod((r@ * g@) % group_order() + m2@);
            assert(r@ * g@ + 2 * m@ == r@ * g@ + (m@ + m@));
        }
    }
    (c, r, s1, s2)
}

} // verus!

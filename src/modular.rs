//! Congruence modulo the group order.

use vstd::prelude::*;
use vstd::arithmetic::div_mod::{
    lemma_add_mod_noop, lemma_mod_twice, lemma_mul_mod_noop_general, lemma_sub_mod_noop,
};
use crate::scalar::group_order;

verus! {

/// `a ≡ b (mod ℓ)`.
pub open spec fn cong(a: int, b: int) -> bool {
    a % group_order() == b % group_order()
}

pub proof fn lemma_cong_mod(a: int)
    ensures
        cong(a % group_order(), a),
{
    lemma_mod_twice(a, group_order());
}

pub proof fn lemma_cong_add(a: int, b: int, c: int, d: int)
    requires
        cong(a, b),
        cong(c, d),
    ensures
        cong(a + c, b + d),
{
    lemma_add_mod_noop(a, c, group_order());
    lemma_add_mod_noop(b, d, group_order());
}

pub proof fn lemma_cong_sub(a: int, b: int, c: int, d: int)
    requires
        cong(a, b),
        cong(c, d),
    ensures
        cong(a - c, b - d),
{
    lemma_sub_mod_noop(a, c, group_order());
    lemma_sub_mod_noop(b, d, group_order());
}

pub proof fn lemma_cong_mul(a: int, b: int, c: int, d: int)
    requires
        cong(a, b),
        cong(c, d),
    ensures
        cong(a * c, b * d),
{
    lemma_mul_mod_noop_general(a, c, group_order());
    lemma_mul_mod_noop_general(b, d, group_order());
}

/// A residue is its own reduction.
pub proof fn lemma_reduced(a: int)
    requires
        0 <= a < group_order(),
    ensures
        a % group_order() == a,
{
    vstd::arithmetic::div_mod::lemma_small_mod(a as nat, group_order() as nat);
}

} // verus!

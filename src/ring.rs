//! The three-element ring of each digit, as the verifier recomputes it.
//!
//! For digit `i` with `m = 3^i·H`, the ring members are `C`, `C − m` and
//! `C − 2m`, traversed `0 → 1 → 2 → 0`:
//! `e1 = hash(s1·G − e0·(C − m))`, `e2 = hash(s2·G − e1·(C − 2m))` and the
//! closure `R = e2·C`. All points are written by their discrete logarithms.

use vstd::prelude::*;
use crate::digits::pow3;
use crate::modular::{cong, lemma_cong_add, lemma_cong_mod, lemma_cong_mul, lemma_cong_sub};
use crate::point::encoding_of;
use crate::scalar::{group_order, hash_scalar_of};

verus! {

/// `3^i·H`, obtained from `H` by tripling `i` times (`m + (m + m)`).
pub open spec fn power_of_h(h: int, i: nat) -> int
    decreases i,
{
    if i == 0 {
        h
    } else {
        let m = power_of_h(h, (i - 1) as nat);
        (m + (m + m) % group_order()) % group_order()
    }
}

/// The challenge of ring member 1: `hash(s1·G + (−e0)·(C − m))`.
pub open spec fn ring_e1(g: int, m: int, e0: int, c: int, s1: int) -> int {
    hash_scalar_of(
        encoding_of(
            (s1 * g + ((-e0) % group_order()) * ((c - m) % group_order())) % group_order(),
        ),
    )
}

/// The challenge of ring member 2: `hash(s2·G + (−e1)·(C − 2m))`.
pub open spec fn ring_e2(g: int, m: int, c: int, s2: int, e1: int) -> int {
    hash_scalar_of(
        encoding_of(
            (s2 * g + ((-e1) % group_order()) * ((c - (m + m) % group_order())
                % group_order())) % group_order(),
        ),
    )
}

/// The closing point `R = e2·C` of the ring.
pub open spec fn ring_closure(g: int, m: int, e0: int, c: int, s1: int, s2: int) -> int {
    (ring_e2(g, m, c, s2, ring_e1(g, m, e0, c, s1)) * c) % group_order()
}

/// The encodings of the first `n` ring closures, in order: what the outer
/// transcript absorbs.
pub open spec fn closure_transcript(
    g: int,
    h: int,
    e0: int,
    cs: Seq<int>,
    s1s: Seq<int>,
    s2s: Seq<int>,
    n: nat,
) -> Seq<u8>
    decreases n,
{
    if n == 0 {
        Seq::empty()
    } else {
        let i = (n - 1) as nat;
        closure_transcript(g, h, e0, cs, s1s, s2s, i) + encoding_of(
            ring_closure(g, power_of_h(h, i), e0, cs[i as int], s1s[i as int], s2s[i as int]),
        )
    }
}

/// The sum of the first `n` digit commitments.
pub open spec fn commitment_sum(cs: Seq<int>, n: nat) -> int
    decreases n,
{
    if n == 0 {
        0
    } else {
        (commitment_sum(cs, (n - 1) as nat) + cs[n - 1]) % group_order()
    }
}

/// A proof `(e0, C, s1, s2)` is accepted for bound `n`: each sequence has `n`
/// entries and the transcript of the ring closures hashes back to `e0`.
pub open spec fn accepts(
    g: int,
    h: int,
    e0: int,
    cs: Seq<int>,
    s1s: Seq<int>,
    s2s: Seq<int>,
    n: nat,
) -> bool {
    &&& cs.len() == n
    &&& s1s.len() == n
    &&& s2s.len() == n
    &&& hash_scalar_of(closure_transcript(g, h, e0, cs, s1s, s2s, n)) == e0
}

/// A ring step whose member was committed as `C = r·G + mm` and whose
/// response is `s = e·r + k` leads back to `k·G`.
pub proof fn lemma_step_known_opening(g: int, mm: int, e: int, k: int, r: int, c: int, s: int)
    requires
        c == ((r * g) % group_order() + mm) % group_order(),
        s == ((e * r) % group_order() + k) % group_order(),
    ensures
        (s * g + ((-e) % group_order()) * ((c - mm) % group_order())) % group_order()
            == (k * g) % group_order(),
{
    lemma_cong_mod(e * r);
    lemma_cong_add((e * r) % group_order(), e * r, k, k);
    lemma_cong_mod((e * r) % group_order() + k);
    lemma_cong_mod(r * g);
    lemma_cong_add((r * g) % group_order(), r * g, mm, mm);
    lemma_cong_mod((r * g) % group_order() + mm);
    lemma_cong_sub(c, r * g + mm, mm, mm);
    lemma_cong_mod(c - mm);
    lemma_cong_mod(-e);
    lemma_cong_mul((-e) % group_order(), -e, (c - mm) % group_order(), r * g);
    lemma_cong_mul(s, e * r + k, g, g);
    lemma_cong_add(
        s * g,
        (e * r + k) * g,
        ((-e) % group_order()) * ((c - mm) % group_order()),
        (-e) * (r * g),
    );
    assert((e * r + k) * g + (-e) * (r * g) == k * g) by (nonlinear_arith);
}

/// A ring step whose member was committed as `C = r·G` (digit zero), with
/// response `s = kk + e·r`, leads to `kk·G + e·mm`.
pub proof fn lemma_step_zero_digit(g: int, mm: int, e: int, kk: int, r: int, c: int, s: int)
    requires
        c == (r * g) % group_order(),
        s == (kk + (e * r) % group_order()) % group_order(),
    ensures
        (s * g + ((-e) % group_order()) * ((c - mm) % group_order())) % group_order()
            == (kk * g + e * mm) % group_order(),
{
    lemma_cong_mod(e * r);
    lemma_cong_add(kk, kk, (e * r) % group_order(), e * r);
    lemma_cong_mod(kk + (e * r) % group_order());
    lemma_cong_mod(r * g);
    lemma_cong_sub(c, r * g, mm, mm);
    lemma_cong_mod(c - mm);
    lemma_cong_mod(-e);
    lemma_cong_mul((-e) % group_order(), -e, (c - mm) % group_order(), r * g - mm);
    lemma_cong_mul(s, kk + e * r, g, g);
    lemma_cong_add(
        s * g,
        (kk + e * r) * g,
        ((-e) % group_order()) * ((c - mm) % group_order()),
        (-e) * (r * g - mm),
    );
    assert((kk + e * r) * g + (-e) * (r * g - mm) == kk * g + e * mm) by (nonlinear_arith);
}

/// With `r = e2⁻¹·k` and `C = r·G`, the closure `e2·C` is `k·G`.
pub proof fn lemma_closure_zero_digit(g: int, e2: int, inv: int, k: int, r: int, c: int)
    requires
        (inv * e2) % group_order() == 1,
        r == (inv * k) % group_order(),
        c == (r * g) % group_order(),
    ensures
        (e2 * c) % group_order() == (k * g) % group_order(),
{
    lemma_cong_mod(inv * k);
    lemma_cong_mul(r, inv * k, g, g);
    lemma_cong_mod(r * g);
    lemma_cong_mul(e2, e2, c, (inv * k) * g);
    crate::modular::lemma_reduced(1);
    assert(e2 * inv == inv * e2) by (nonlinear_arith);
    lemma_cong_mul(e2 * inv, 1, k * g, k * g);
    assert(e2 * ((inv * k) * g) == (e2 * inv) * (k * g)) by (nonlinear_arith);
    assert(1 * (k * g) == k * g);
}

/// `s·G − e·D`, formed as a difference of two products, is `s·G + (−e)·D`.
pub proof fn lemma_difference_form(s: int, g: int, e: int, d: int)
    ensures
        ((s * g) % group_order() - (e * d) % group_order()) % group_order() == (s * g + ((-e)
            % group_order()) * d) % group_order(),
{
    lemma_cong_mod(s * g);
    lemma_cong_mod(e * d);
    lemma_cong_sub((s * g) % group_order(), s * g, (e * d) % group_order(), e * d);
    lemma_cong_mod((s * g) % group_order() - (e * d) % group_order());
    lemma_cong_mod(-e);
    lemma_cong_mul((-e) % group_order(), -e, d, d);
    lemma_cong_add(s * g, s * g, ((-e) % group_order()) * d, (-e) * d);
    assert(s * g - e * d == s * g + (-e) * d) by (nonlinear_arith);
}

/// `a·G + b·M`, formed as a sum of two products, is the two-term product.
pub proof fn lemma_sum_form(a: int, g: int, b: int, m: int)
    ensures
        ((a * g) % group_order() + (b * m) % group_order()) % group_order() == (a * g + b * m)
            % group_order(),
{
    lemma_cong_mod(a * g);
    lemma_cong_mod(b * m);
    lemma_cong_add((a * g) % group_order(), a * g, (b * m) % group_order(), b * m);
    lemma_cong_mod((a * g) % group_order() + (b * m) % group_order());
}

/// Tripling `i` times gives `3^i·H`.
pub proof fn lemma_power_of_h(h: int, i: nat)
    ensures
        cong(power_of_h(h, i), pow3(i) * h),
    decreases i,
{
    if i == 0 {
        assert(pow3(0) == 1);
        assert(1 * h == h);
    } else {
        let j = (i - 1) as nat;
        assert(pow3(i) == 3 * pow3(j));
        let m = power_of_h(h, j);
        lemma_power_of_h(h, j);
        lemma_cong_mod(m + m);
        lemma_cong_add(m, m, (m + m) % group_order(), m + m);
        lemma_cong_mod(m + (m + m) % group_order());
        assert(m + (m + m) == 3 * m);
        lemma_cong_mul(3, 3, m, pow3(j) * h);
        assert(3 * (pow3(j) * h) == pow3(i) * h) by (nonlinear_arith)
            requires
                pow3(i) == 3 * pow3(j),
        ;
    }
}

} // verus!

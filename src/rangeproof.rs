//! The range proof: its container, the verifier and the two provers.

use vstd::prelude::*;
use crate::codec::append_field;
use crate::digits::{
    base3_digits, digit, digits_value, lemma_digits_value_prefix, lemma_high_digits_zero, pow3,
};
use crate::kernel::{close_vartime, closed, open_vartime, opened};
use crate::kernel_ct::{close_ct, open_ct};
use crate::modular::{cong, lemma_cong_add, lemma_cong_mod, lemma_cong_mul, lemma_reduced};
use crate::point::{self, Point, encoding_of};
use crate::ring::{
    accepts, closure_transcript, commitment_sum, lemma_power_of_h, lemma_sum_form, power_of_h,
    ring_closure,
    ring_e1, ring_e2,
};
use crate::scalar::{self, Scalar, group_order, hash_scalar_of};
use crate::RANGEPROOF_MAX_N;
use rand::rngs::OsRng;

verus! {

/// A Back–Maxwell range proof that a committed value lies in `[0, 3^n)`.
///
/// It holds the anchor challenge `e0` and, for each digit, a commitment `C`
/// and the two ring responses `s1`, `s2`.
pub struct RangeProof {
    e_0: Scalar,
    c: Vec<Point>,
    s_1: Vec<Scalar>,
    s_2: Vec<Scalar>,
}

/// The discrete logarithms of a sequence of points.
pub open spec fn point_values(v: Seq<Point>) -> Seq<int> {
    v.map_values(|p: Point| p@)
}

/// The values of a sequence of scalars.
pub open spec fn scalar_values(v: Seq<Scalar>) -> Seq<int> {
    v.map_values(|s: Scalar| s@)
}

impl RangeProof {
    /// The anchor challenge `e0`.
    pub closed spec fn anchor(&self) -> int {
        self.e_0@
    }

    /// The digit commitments `C`.
    pub closed spec fn commitments(&self) -> Seq<int> {
        point_values(self.c@)
    }

    /// The first ring responses `s1`.
    pub closed spec fn responses_1(&self) -> Seq<int> {
        scalar_values(self.s_1@)
    }

    /// The second ring responses `s2`.
    pub closed spec fn responses_2(&self) -> Seq<int> {
        scalar_values(self.s_2@)
    }

    /// Every field is a residue in `[0, ℓ)`.
    pub proof fn lemma_fields_reduced(&self)
        ensures
            0 <= self.anchor() < group_order(),
            forall|j: int|
                0 <= j < self.responses_1().len() ==> 0 <= #[trigger] self.responses_1()[j]
                    < group_order(),
            forall|j: int|
                0 <= j < self.responses_2().len() ==> 0 <= #[trigger] self.responses_2()[j]
                    < group_order(),
    {
        self.e_0.lemma_range();
        assert forall|j: int| 0 <= j < self.responses_1().len() implies 0
            <= #[trigger] self.responses_1()[j] < group_order() by {
            self.s_1@[j].lemma_range();
        }
        assert forall|j: int| 0 <= j < self.responses_2().len() implies 0
            <= #[trigger] self.responses_2()[j] < group_order() by {
            self.s_2@[j].lemma_range();
        }
    }

    /// The fields: `e0`, `C`, `s1`, `s2`.
    pub(crate) fn parts(&self) -> (r: (&Scalar, &Vec<Point>, &Vec<Scalar>, &Vec<Scalar>))
        ensures
            r.0@ == self.anchor(),
            point_values(r.1@) == self.commitments(),
            scalar_values(r.2@) == self.responses_1(),
            scalar_values(r.3@) == self.responses_2(),
    {
        (&self.e_0, &self.c, &self.s_1, &self.s_2)
    }

    /// A proof of the given fields.
    pub(crate) fn from_parts(e0: Scalar, c: Vec<Point>, s1: Vec<Scalar>, s2: Vec<Scalar>) -> (r:
        RangeProof)
        ensures
            r.anchor() == e0@,
            r.commitments() == point_values(c@),
            r.responses_1() == scalar_values(s1@),
            r.responses_2() == scalar_values(s2@),
    {
        RangeProof { e_0: e0, c, s_1: s1, s_2: s2 }
    }

    /// The proof is accepted for bound `n` with generators `G`, `H`.
    pub open spec fn accepted(&self, n: nat, g: int, h: int) -> bool {
        accepts(g, h, self.anchor(), self.commitments(), self.responses_1(), self.responses_2(), n)
    }

    /// Some digit's second ring challenge, as the verifier recomputes it, is
    /// zero. A prover meets this with negligible probability only.
    pub open spec fn has_vanishing_challenge(&self, n: nat, g: int, h: int) -> bool {
        exists|j: int|
            0 <= j < n && #[trigger] ring_e2(
                g,
                power_of_h(h, j as nat),
                self.commitments()[j],
                self.responses_2()[j],
                ring_e1(
                    g,
                    power_of_h(h, j as nat),
                    self.anchor(),
                    self.commitments()[j],
                    self.responses_1()[j],
                ),
            ) == 0
    }

    /// What a prover guarantees of its output `(self, commitment, blinding)`
    /// for `value` and bound `n`: `n` digits; the commitment is the sum of the
    /// digit commitments and equals `blinding·G + value·H`; and the proof is
    /// accepted, unless a ring challenge vanished.
    pub open spec fn proves(
        &self,
        commitment: int,
        blinding: int,
        n: nat,
        value: nat,
        g: int,
        h: int,
    ) -> bool {
        &&& self.commitments().len() == n
        &&& self.responses_1().len() == n
        &&& self.responses_2().len() == n
        &&& commitment == commitment_sum(self.commitments(), n)
        &&& commitment == (blinding * g + value * h) % group_order()
        &&& (self.accepted(n, g, h) || self.has_vanishing_challenge(n, g, h))
    }

    /// Verifies the proof for the range `[0, 3^n)`. On acceptance returns the
    /// commitment `ΣCⁱ` to the proven value, otherwise `None`.
    pub fn verify(&self, n: usize, g: &Point, h: &Point) -> (r: Option<Point>)
        requires
            n <= RANGEPROOF_MAX_N,
        ensures
            r is Some <==> self.accepted(n as nat, g@, h@),
            r matches Some(c) ==> c@ == commitment_sum(self.commitments(), n as nat),
    {
        if n != self.c.len() || n != self.s_1.len() || n != self.s_2.len() {
            return None;
        }
        let ghost cs = self.commitments();
        let ghost s1s = self.responses_1();
        let ghost s2s = self.responses_2();
        let ghost e0 = self.e_0@;
        let mut transcript: Vec<u8> = Vec::new();
        let mut total = point::identity();
        let mut m = h.clone();
        let neg_e0 = scalar::neg(&self.e_0);
        let mut i: usize = 0;
        while i < n
            invariant
                i <= n,
                n == self.c.len(),
                n == self.s_1.len(),
                n == self.s_2.len(),
                cs == self.commitments(),
                s1s == self.responses_1(),
                s2s == self.responses_2(),
                e0 == self.e_0@,
                neg_e0@ == (-e0) % group_order(),
                m@ == power_of_h(h@, i as nat),
                total@ == commitment_sum(cs, i as nat),
                transcript@ == closure_transcript(g@, h@, e0, cs, s1s, s2s, i as nat),
            decreases n - i,
        {
            let ci = &self.c[i];
            let m2 = point::add(&m, &m);
            let c_minus_m = point::sub(ci, &m);
            let p1 = point::multiscalar2(&self.s_1[i], g, &neg_e0, &c_minus_m);
            let e1 = scalar::hash_to_scalar(p1.to_bytes().as_slice());
            let c_minus_2m = point::sub(ci, &m2);
            let neg_e1 = scalar::neg(&e1);
            let p2 = point::multiscalar2(&self.s_2[i], g, &neg_e1, &c_minus_2m);
            let e2 = scalar::hash_to_scalar(p2.to_bytes().as_slice());
            let ri = point::mul(&e2, ci);
            proof {
                assert(cs[i as int] == ci@);
                assert(s1s[i as int] == self.s_1@[i as int]@);
                assert(s2s[i as int] == self.s_2@[i as int]@);
                assert(e1@ == ring_e1(g@, m@, e0, ci@, s1s[i as int]));
                assert(e2@ == ring_e2(g@, m@, ci@, s2s[i as int], e1@));
                assert(ri@ == ring_closure(g@, m@, e0, cs[i as int], s1s[i as int], s2s[i as int]));
            }
            append_field(&mut transcript, &ri.to_bytes());
            total = point::add(&total, ci);
            m = point::add(&m, &m2);
            i = i + 1;
        }
        let e0_hat = scalar::hash_to_scalar(transcript.as_slice());
        if scalar::equal(&e0_hat, &self.e_0) {
            Some(total)
        } else {
            None
        }
    }
}

/// The encodings of the first `n` points of `rs`, concatenated.
pub open spec fn encodings(rs: Seq<int>, n: nat) -> Seq<u8>
    decreases n,
{
    if n == 0 {
        Seq::empty()
    } else {
        encodings(rs, (n - 1) as nat) + encoding_of(rs[n - 1])
    }
}

proof fn lemma_encodings_prefix(a: Seq<int>, b: Seq<int>, n: nat)
    requires
        forall|j: int| 0 <= j < n ==> a[j] == b[j],
    ensures
        encodings(a, n) == encodings(b, n),
    decreases n,
{
    if n > 0 {
        lemma_encodings_prefix(a, b, (n - 1) as nat);
    }
}

/// Where every ring closes at its `R`, the verifier's transcript is the
/// prover's.
proof fn lemma_transcript_matches(
    g: int,
    h: int,
    e0: int,
    cs: Seq<int>,
    s1s: Seq<int>,
    s2s: Seq<int>,
    rs: Seq<int>,
    n: nat,
)
    requires
        forall|j: int|
            0 <= j < n ==> #[trigger] ring_closure(
                g,
                power_of_h(h, j as nat),
                e0,
                cs[j],
                s1s[j],
                s2s[j],
            ) == rs[j],
    ensures
        closure_transcript(g, h, e0, cs, s1s, s2s, n) == encodings(rs, n),
    decreases n,
{
    if n > 0 {
        let i = (n - 1) as nat;
        lemma_transcript_matches(g, h, e0, cs, s1s, s2s, rs, i);
        assert(ring_closure(g, power_of_h(h, i), e0, cs[i as int], s1s[i as int], s2s[i as int])
            == rs[i as int]);
    }
}

/// One more digit in the running sums of commitments and blindings.
proof fn lemma_aggregate_step(
    t: int,
    b: int,
    dv: int,
    c: int,
    r: int,
    vi: int,
    m: int,
    p3: int,
    g: int,
    h: int,
)
    requires
        cong(t, b * g + dv * h),
        cong(c, r * g + vi * m),
        cong(m, p3 * h),
    ensures
        cong((t + c) % group_order(), ((b + r) % group_order()) * g + (dv + vi * p3) * h),
{
    lemma_cong_mul(vi, vi, m, p3 * h);
    lemma_cong_add(r * g, r * g, vi * m, vi * (p3 * h));
    lemma_cong_add(t, b * g + dv * h, c, r * g + vi * (p3 * h));
    lemma_cong_mod(t + c);
    lemma_cong_mod(b + r);
    lemma_cong_mul((b + r) % group_order(), b + r, g, g);
    lemma_cong_add(((b + r) % group_order()) * g, (b + r) * g, (dv + vi * p3) * h, (dv + vi * p3) * h);
    assert(b * g + dv * h + (r * g + vi * (p3 * h)) == (b + r) * g + (dv + vi * p3) * h)
        by (nonlinear_arith);
}

/// Whether the digits of `v` at and above `n` are all zero.
fn high_digits_zero(v: &[u8; 41], n: usize) -> (r: bool)
    requires
        n <= 41,
    ensures
        r == (forall|i: int| n <= i < 41 ==> v@[i] == 0),
{
    let mut i: usize = n;
    while i < 41
        invariant
            n <= i <= 41,
            forall|j: int| n <= j < i ==> v@[j] == 0,
        decreases 41 - i,
    {
        if v[i] != 0 {
            return false;
        }
        i = i + 1;
    }
    true
}

/// The prover. With `uniform` it runs the branch-uniform kernel and takes
/// six draws per digit, otherwise the variable-time kernel with three.
fn prove_with_draws(
    n: usize,
    value: u64,
    g: &Point,
    h: &Point,
    draws: &Vec<Scalar>,
    uniform: bool,
) -> (r: Option<(RangeProof, Point, Scalar)>)
    requires
        n <= RANGEPROOF_MAX_N,
        draws.len() == (if uniform { 6 * n } else { 3 * n }),
    ensures
        r is Some <==> value < pow3(n as nat),
        r matches Some((p, c, b)) ==> p.proves(c@, b@, n as nat, value as nat, g@, h@),
{
    let v = base3_digits(value);
    proof {
        lemma_high_digits_zero(value as nat, n as nat);
        assert forall|i: int| 0 <= i < 41 implies v@[i] == 0 <==> #[trigger] digit(value as nat, i as nat) == 0 by {
            assert(v@[i] as nat == digit(value as nat, i as nat));
        }
    }
    if !high_digits_zero(&v, n) {
        proof {
            let i = choose|i: int| n <= i < 41 && v@[i] != 0;
            assert(digit(value as nat, i as nat) != 0);
        }
        return None;
    }
    // First pass: open each ring and absorb its closing point.
    let mut rs: Vec<Point> = Vec::new();
    let mut cs: Vec<Point> = Vec::new();
    let mut bs: Vec<Scalar> = Vec::new();
    let mut s2s: Vec<Scalar> = Vec::new();
    let mut e1s: Vec<Scalar> = Vec::new();
    let mut e2s: Vec<Scalar> = Vec::new();
    let w: usize = if uniform { 6 } else { 3 };
    let mut transcript: Vec<u8> = Vec::new();
    let mut m = h.clone();
    let mut i: usize = 0;
    while i < n
        invariant
            i <= n,
            n <= 41,
            draws.len() == (if uniform { 6 * n } else { 3 * n }),
            w == (if uniform { 6usize } else { 3usize }),
            forall|j: int| 0 <= j < 41 ==> #[trigger] v@[j] <= 2,
            forall|j: int| 0 <= j < 41 ==> v@[j] as nat == #[trigger] digit(value as nat, j as nat),
            value < pow3(n as nat),
            m@ == power_of_h(h@, i as nat),
            rs.len() == i,
            cs.len() == i,
            bs.len() == i,
            s2s.len() == i,
            e1s.len() == i,
            e2s.len() == i,
            forall|j: int|
                0 <= j < i ==> opened(
                    v@[j],
                    g@,
                    power_of_h(h@, j as nat),
                    draws@[w * j]@,
                    #[trigger] rs@[j]@,
                    cs@[j]@,
                    bs@[j]@,
                    s2s@[j]@,
                ),
            transcript@ == encodings(point_values(rs@), i as nat),
        decreases n - i,
    {
        let m2 = point::add(&m, &m);
        let (ri, ci, bi, si, e1i, e2i) = if uniform {
            open_ct(
                v[i],
                g,
                &m,
                &m2,
                &draws[w * i],
                &draws[w * i + 1],
                &draws[w * i + 2],
            )
        } else {
            let (ri, ci, bi, si) = open_vartime(
                v[i],
                g,
                &m,
                &m2,
                &draws[w * i],
                &draws[w * i + 1],
                &draws[w * i + 2],
            );
            (ri, ci, bi, si, scalar::zero(), scalar::zero())
        };
        append_field(&mut transcript, &ri.to_bytes());
        let ghost old_rs = rs@;
        rs.push(ri);
        cs.push(ci);
        bs.push(bi);
        s2s.push(si);
        e1s.push(e1i);
        e2s.push(e2i);
        proof {
            lemma_encodings_prefix(point_values(old_rs), point_values(rs@), i as nat);
        }
        m = point::add(&m, &m2);
        i = i + 1;
    }
    let e0 = scalar::hash_to_scalar(transcript.as_slice());
    // Second pass: close each ring from the anchor e0.
    let mut c_out: Vec<Point> = Vec::new();
    let mut b_out: Vec<Scalar> = Vec::new();
    let mut s1_out: Vec<Scalar> = Vec::new();
    let mut s2_out: Vec<Scalar> = Vec::new();
    let mut m = h.clone();
    let mut i: usize = 0;
    while i < n
        invariant
            i <= n,
            n <= 41,
            draws.len() == (if uniform { 6 * n } else { 3 * n }),
            w == (if uniform { 6usize } else { 3usize }),
            forall|j: int| 0 <= j < 41 ==> #[trigger] v@[j] <= 2,
            forall|j: int| 0 <= j < 41 ==> v@[j] as nat == #[trigger] digit(value as nat, j as nat),
            value < pow3(n as nat),
            m@ == power_of_h(h@, i as nat),
            rs.len() == n,
            cs.len() == n,
            bs.len() == n,
            s2s.len() == n,
            e1s.len() == n,
            e2s.len() == n,
            forall|j: int|
                0 <= j < n ==> opened(
                    v@[j],
                    g@,
                    power_of_h(h@, j as nat),
                    draws@[w * j]@,
                    #[trigger] rs@[j]@,
                    cs@[j]@,
                    bs@[j]@,
                    s2s@[j]@,
                ),
            c_out.len() == i,
            b_out.len() == i,
            s1_out.len() == i,
            s2_out.len() == i,
            forall|j: int|
                0 <= j < i ==> closed(
                    v@[j],
                    g@,
                    power_of_h(h@, j as nat),
                    e0@,
                    rs@[j]@,
                    #[trigger] c_out@[j]@,
                    b_out@[j]@,
                    s1_out@[j]@,
                    s2_out@[j]@,
                ),
        decreases n - i,
    {
        let m2 = point::add(&m, &m);
        let ghost rr = rs@[i as int]@;
        let (ci, bi, s1i, s2i) = if uniform {
            close_ct(
                v[i],
                g,
                &m,
                &m2,
                &e0,
                &draws[w * i],
                Ghost(rr),
                cs[i].clone(),
                bs[i].clone(),
                s2s[i].clone(),
                e1s[i].clone(),
                e2s[i].clone(),
                &draws[w * i + 3],
                &draws[w * i + 4],
                &draws[w * i + 5],
            )
        } else {
            close_vartime(
                v[i],
                g,
                &m,
                &m2,
                &e0,
                &draws[w * i],
                Ghost(rr),
                cs[i].clone(),
                bs[i].clone(),
                s2s[i].clone(),
                &draws[w * i + 1],
                &draws[w * i + 2],
            )
        };
        c_out.push(ci);
        b_out.push(bi);
        s1_out.push(s1i);
        s2_out.push(s2i);
        m = point::add(&m, &m2);
        i = i + 1;
    }
    let (commitment, blinding) = aggregate(n, value, &v, g, h, &c_out, &b_out);
    let proof = RangeProof { e_0: e0, c: c_out, s_1: s1_out, s_2: s2_out };
    proof {
        assert forall|j: int| 0 <= j < n implies #[trigger] closed(
            v@[j],
            g@,
            power_of_h(h@, j as nat),
            e0@,
            rs@[j]@,
            c_out@[j]@,
            b_out@[j]@,
            s1_out@[j]@,
            s2_out@[j]@,
        ) by {}
        lemma_closes_or_vanishes(&proof, n as nat, g@, h@, point_values(rs@));
    }
    Some((proof, commitment, blinding))
}

impl RangeProof {
    /// Proves, in variable time, that `value` lies in `[0, 3^n)`, with the
    /// random scalars taken from `draws` (three for each digit).
    ///
    /// Returns `None` exactly when `value ≥ 3^n`; otherwise the proof, the
    /// commitment `blinding·G + value·H` and the blinding.
    pub fn create_vartime_with_draws(
        n: usize,
        value: u64,
        g: &Point,
        h: &Point,
        draws: &Vec<Scalar>,
    ) -> (r: Option<(RangeProof, Point, Scalar)>)
        requires
            n <= RANGEPROOF_MAX_N,
            draws.len() == 3 * n,
        ensures
            r is Some <==> value < pow3(n as nat),
            r matches Some((p, c, b)) ==> p.proves(c@, b@, n as nat, value as nat, g@, h@),
    {
        prove_with_draws(n, value, g, h, draws, false)
    }

    /// Proves, with control flow and draws that depend on `n` alone for
    /// in-range values, that `value` lies in `[0, 3^n)`; the random scalars
    /// are taken from `draws` (six for each digit).
    ///
    /// Returns `None` exactly when `value ≥ 3^n`; otherwise the proof, the
    /// commitment `blinding·G + value·H` and the blinding.
    pub fn create_with_draws(
        n: usize,
        value: u64,
        g: &Point,
        h: &Point,
        draws: &Vec<Scalar>,
    ) -> (r: Option<(RangeProof, Point, Scalar)>)
        requires
            n <= RANGEPROOF_MAX_N,
            draws.len() == 6 * n,
        ensures
            r is Some <==> value < pow3(n as nat),
            r matches Some((p, c, b)) ==> p.proves(c@, b@, n as nat, value as nat, g@, h@),
    {
        prove_with_draws(n, value, g, h, draws, true)
    }

    /// Proves in constant time, for in-range values, that `value` lies in
    /// `[0, 3^n)`, drawing the random scalars from `csprng`. An out-of-range
    /// value returns `None` early.
    ///
    /// Returns `None` exactly when `value ≥ 3^n`; otherwise the proof, the
    /// commitment `blinding·G + value·H` and the blinding. Only the proof is
    /// meant for the verifier.
    pub fn create(
        n: usize,
        value: u64,
        g: &Point,
        h: &Point,
        csprng: &mut OsRng,
    ) -> (r: Option<(RangeProof, Point, Scalar)>)
        requires
            n <= RANGEPROOF_MAX_N,
        ensures
            r is Some <==> value < pow3(n as nat),
            r matches Some((p, c, b)) ==> p.proves(c@, b@, n as nat, value as nat, g@, h@),
    {
        let draws = draw_scalars(csprng, 6 * n);
        RangeProof::create_with_draws(n, value, g, h, &draws)
    }
}

impl RangeProof {
    /// Proves, in variable time, that `value` lies in `[0, 3^n)`, drawing the
    /// random scalars from `csprng`.
    ///
    /// Returns `None` exactly when `value ≥ 3^n`; otherwise the proof, the
    /// commitment `blinding·G + value·H` and the blinding. Only the proof is
    /// meant for the verifier.
    pub fn create_vartime(
        n: usize,
        value: u64,
        g: &Point,
        h: &Point,
        csprng: &mut OsRng,
    ) -> (r: Option<(RangeProof, Point, Scalar)>)
        requires
            n <= RANGEPROOF_MAX_N,
        ensures
            r is Some <==> value < pow3(n as nat),
            r matches Some((p, c, b)) ==> p.proves(c@, b@, n as nat, value as nat, g@, h@),
    {
        let draws = draw_scalars(csprng, 3 * n);
        RangeProof::create_vartime_with_draws(n, value, g, h, &draws)
    }
}

/// `count` scalars from `rng`.
fn draw_scalars(rng: &mut OsRng, count: usize) -> (r: Vec<Scalar>)
    ensures
        r.len() == count,
{
    let mut draws: Vec<Scalar> = Vec::new();
    let mut i: usize = 0;
    while i < count
        invariant
            i <= count,
            draws.len() == i,
        decreases count - i,
    {
        draws.push(scalar::random(rng));
        i = i + 1;
    }
    draws
}

/// The Pedersen commitment `blinding·G + value·H`, with which a prover opens
/// the commitment that a proof yields.
pub fn pedersen_commitment(g: &Point, h: &Point, blinding: &Scalar, value: u64) -> (r: Point)
    ensures
        r@ == (blinding@ * g@ + value * h@) % group_order(),
{
    let v = Scalar::from_u64(value);
    let r = point::add(&point::mul(blinding, g), &point::mul(&v, h));
    proof {
        lemma_sum_form(blinding@, g@, v@, h@);
    }
    r
}

/// Sums the digit commitments and their blindings.
fn aggregate(
    n: usize,
    value: u64,
    v: &[u8; 41],
    g: &Point,
    h: &Point,
    cs: &Vec<Point>,
    bs: &Vec<Scalar>,
) -> (r: (Point, Scalar))
    requires
        n <= 41,
        cs.len() == n,
        bs.len() == n,
        value < pow3(n as nat),
        forall|j: int| 0 <= j < 41 ==> v@[j] as nat == #[trigger] digit(value as nat, j as nat),
        forall|j: int|
            0 <= j < n ==> cong(#[trigger] cs@[j]@, bs@[j]@ * g@ + v@[j] * power_of_h(h@, j as nat)),
    ensures
        r.0@ == commitment_sum(point_values(cs@), n as nat),
        r.0@ == (r.1@ * g@ + value * h@) % group_order(),
{
    let mut total = point::identity();
    let mut blinding = scalar::zero();
    let mut i: usize = 0;
    proof {
        assert(0int * g@ + 0int * h@ == 0) by (nonlinear_arith);
    }
    while i < n
        invariant
            i <= n,
            cs.len() == n,
            bs.len() == n,
            forall|j: int|
                0 <= j < n ==> cong(
                    #[trigger] cs@[j]@,
                    bs@[j]@ * g@ + v@[j] * power_of_h(h@, j as nat),
                ),
            total@ == commitment_sum(point_values(cs@), i as nat),
            cong(total@, blinding@ * g@ + digits_value(v@, i as nat) * h@),
        decreases n - i,
    {
        proof {
            lemma_power_of_h(h@, i as nat);
            lemma_aggregate_step(
                total@,
                blinding@,
                digits_value(v@, i as nat) as int,
                cs@[i as int]@,
                bs@[i as int]@,
                v@[i as int] as int,
                power_of_h(h@, i as nat),
                pow3(i as nat) as int,
                g@,
                h@,
            );
            assert(digits_value(v@, i as nat + 1) == digits_value(v@, i as nat) + v@[i as int] as nat
                * pow3(i as nat));
        }
        blinding = scalar::add(&blinding, &bs[i]);
        total = point::add(&total, &cs[i]);
        i = i + 1;
    }
    proof {
        lemma_digits_value_prefix(v@, value as nat, n as nat);
        vstd::arithmetic::div_mod::lemma_small_mod(value as nat, pow3(n as nat));
        lemma_reduced(total@);
    }
    (total, blinding)
}

/// Each ring either closes at its `R` or has a vanishing challenge; since
/// `e0` hashes the `R`s, the proof is accepted or has a vanishing challenge.
proof fn lemma_closes_or_vanishes(p: &RangeProof, n: nat, g: int, h: int, rs: Seq<int>)
    requires
        p.commitments().len() == n,
        p.responses_1().len() == n,
        p.responses_2().len() == n,
        p.anchor() == hash_scalar_of(encodings(rs, n)),
        forall|j: int|
            0 <= j < n ==> #[trigger] ring_closure(
                g,
                power_of_h(h, j as nat),
                p.anchor(),
                p.commitments()[j],
                p.responses_1()[j],
                p.responses_2()[j],
            ) == rs[j] || ring_e2(
                g,
                power_of_h(h, j as nat),
                p.commitments()[j],
                p.responses_2()[j],
                ring_e1(
                    g,
                    power_of_h(h, j as nat),
                    p.anchor(),
                    p.commitments()[j],
                    p.responses_1()[j],
                ),
            ) == 0,
    ensures
        p.accepted(n, g, h) || p.has_vanishing_challenge(n, g, h),
{
    if !p.has_vanishing_challenge(n, g, h) {
        assert forall|j: int| 0 <= j < n implies #[trigger] ring_closure(
            g,
            power_of_h(h, j as nat),
            p.anchor(),
            p.commitments()[j],
            p.responses_1()[j],
            p.responses_2()[j],
        ) == rs[j] by {
            assert(ring_e2(
                g,
                power_of_h(h, j as nat),
                p.commitments()[j],
                p.responses_2()[j],
                ring_e1(
                    g,
                    power_of_h(h, j as nat),
                    p.anchor(),
                    p.commitments()[j],
                    p.responses_1()[j],
                ),
            ) != 0);
        }
        lemma_transcript_matches(
            g,
            h,
            p.anchor(),
            p.commitments(),
            p.responses_1(),
            p.responses_2(),
            rs,
            n,
        );
    }
}

} // verus!

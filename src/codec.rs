//! The byte encoding of a range proof: `e0 ‖ C⁰…Cⁿ⁻¹ ‖ s1⁰…s1ⁿ⁻¹ ‖ s2⁰…s2ⁿ⁻¹`,
//! each field 32 bytes, `32·(1 + 3n)` bytes in all.

use vstd::prelude::*;
use crate::point::{Point, is_point_encoding, point_dlog};
use crate::rangeproof::RangeProof;
use crate::scalar::{Scalar, group_order, le_value};

verus! {

/// The `k`-th 32-byte field of `b`.
pub open spec fn field(b: Seq<u8>, k: int) -> Seq<u8> {
    b.subrange(32 * k, 32 * k + 32)
}

/// `b` encodes the proof `(e0, C, s1, s2)` with `n` digits.
pub open spec fn encodes(b: Seq<u8>, e0: int, cs: Seq<int>, s1s: Seq<int>, s2s: Seq<int>) -> bool {
    let n = cs.len() as int;
    &&& s1s.len() == n
    &&& s2s.len() == n
    &&& b.len() == 32 * (1 + 3 * n)
    &&& le_value(field(b, 0)) == e0
    &&& forall|j: int|
        0 <= j < n ==> is_point_encoding(#[trigger] field(b, 1 + j)) && point_dlog(field(b, 1 + j))
            % group_order() == cs[j]
    &&& forall|j: int| 0 <= j < n ==> le_value(#[trigger] field(b, 1 + n + j)) == s1s[j]
    &&& forall|j: int| 0 <= j < n ==> le_value(#[trigger] field(b, 1 + 2 * n + j)) == s2s[j]
}

/// `b` is the encoding of some proof: its length is `32·(1 + 3n)`, its
/// scalar fields are below `ℓ` and its point fields encode points.
pub open spec fn decodable(b: Seq<u8>) -> bool {
    let n = (b.len() as int - 32) / 96;
    &&& b.len() >= 32
    &&& (b.len() as int - 32) % 96 == 0
    &&& le_value(field(b, 0)) < group_order()
    &&& forall|j: int| 0 <= j < n ==> is_point_encoding(#[trigger] field(b, 1 + j))
    &&& forall|j: int| 0 <= j < n ==> le_value(#[trigger] field(b, 1 + n + j)) < group_order()
    &&& forall|j: int| 0 <= j < n ==> le_value(#[trigger] field(b, 1 + 2 * n + j)) < group_order()
}

proof fn lemma_field_append(a: Seq<u8>, b: Seq<u8>, k: int)
    requires
        0 <= k,
        32 * k + 32 <= a.len(),
    ensures
        field(a + b, k) == field(a, k),
{
    assert(field(a + b, k) =~= field(a, k));
}

proof fn lemma_field_last(a: Seq<u8>, b: Seq<u8>)
    requires
        a.len() % 32 == 0,
        b.len() == 32,
    ensures
        field(a + b, a.len() as int / 32) == b,
{
    assert(field(a + b, a.len() as int / 32) =~= b);
}

/// Appends the 32 bytes of `b` to `t`.
pub(crate) fn append_field(t: &mut Vec<u8>, b: &[u8; 32])
    ensures
        final(t)@ == old(t)@ + b@,
{
    let ghost start = t@;
    let mut j: usize = 0;
    while j < 32
        invariant
            j <= 32,
            t@ == start + b@.subrange(0, j as int),
        decreases 32 - j,
    {
        t.push(b[j]);
        proof {
            assert(b@.subrange(0, j as int + 1) == b@.subrange(0, j as int).push(b@[j as int]));
        }
        j = j + 1;
    }
    assert(b@.subrange(0, 32) == b@);
}

/// The `k`-th field of `b`.
fn read_field(b: &[u8], k: usize) -> (r: [u8; 32])
    requires
        32 * k + 32 <= b@.len(),
    ensures
        r@ == field(b@, k as int),
{
    let mut out: [u8; 32] = [0u8; 32];
    let len = b.len();
    let start: usize = 32 * k;
    let mut j: usize = 0;
    while j < 32
        invariant
            j <= 32,
            start == 32 * k,
            start + 32 <= b@.len(),
            forall|t: int| 0 <= t < j ==> out@[t] == b@[start + t],
        decreases 32 - j,
    {
        out[j] = b[start + j];
        j = j + 1;
    }
    assert(out@ =~= field(b@, k as int));
    out
}

/// The fields of `fs`, concatenated.
fn concat_fields(fs: &Vec<[u8; 32]>) -> (r: Vec<u8>)
    ensures
        r@.len() == 32 * fs.len(),
        forall|k: int| 0 <= k < fs.len() ==> #[trigger] field(r@, k) == fs@[k]@,
{
    let mut out: Vec<u8> = Vec::new();
    let mut j: usize = 0;
    while j < fs.len()
        invariant
            j <= fs.len(),
            out@.len() == 32 * j,
            forall|k: int| 0 <= k < j ==> #[trigger] field(out@, k) == fs@[k]@,
        decreases fs.len() - j,
    {
        let ghost before = out@;
        append_field(&mut out, &fs[j]);
        proof {
            assert forall|k: int| 0 <= k < j implies #[trigger] field(out@, k) == fs@[k]@ by {
                lemma_field_append(before, fs@[j as int]@, k);
            }
            lemma_field_last(before, fs@[j as int]@);
            assert(before.len() as int / 32 == j);
        }
        j = j + 1;
    }
    out
}

impl RangeProof {
    /// The encoding `e0 ‖ C ‖ s1 ‖ s2`, 32 bytes per field.
    pub fn to_bytes(&self) -> (r: Vec<u8>)
        ensures
            r@.len() == 32 * (1 + self.commitments().len() + self.responses_1().len()
                + self.responses_2().len()),
            self.responses_1().len() == self.commitments().len() && self.responses_2().len()
                == self.commitments().len() ==> encodes(
                r@,
                self.anchor(),
                self.commitments(),
                self.responses_1(),
                self.responses_2(),
            ),
    {
        let (e0, cs, s1s, s2s) = self.parts();
        let n = cs.len();
        let m1 = s1s.len();
        let mut fs: Vec<[u8; 32]> = Vec::new();
        fs.push(e0.to_bytes());
        let mut j: usize = 0;
        while j < n
            invariant
                n == cs.len(),
                j <= n,
                fs.len() == 1 + j,
                le_value(fs@[0]@) == e0@,
                forall|t: int|
                    0 <= t < j ==> is_point_encoding(#[trigger] fs@[1 + t]@) && point_dlog(
                        fs@[1 + t]@,
                    ) % group_order() == cs@[t]@,
            decreases n - j,
        {
            fs.push(cs[j].to_bytes());
            j = j + 1;
        }
        let mut j: usize = 0;
        while j < m1
            invariant
                n == cs.len(),
                m1 == s1s.len(),
                j <= m1,
                fs.len() == 1 + n + j,
                le_value(fs@[0]@) == e0@,
                forall|t: int|
                    0 <= t < n ==> is_point_encoding(#[trigger] fs@[1 + t]@) && point_dlog(
                        fs@[1 + t]@,
                    ) % group_order() == cs@[t]@,
                forall|t: int| 0 <= t < j ==> le_value(#[trigger] fs@[1 + n + t]@) == s1s@[t]@,
            decreases m1 - j,
        {
            fs.push(s1s[j].to_bytes());
            j = j + 1;
        }
        let mut j: usize = 0;
        while j < s2s.len()
            invariant
                n == cs.len(),
                m1 == s1s.len(),
                j <= s2s.len(),
                fs.len() == 1 + n + m1 + j,
                le_value(fs@[0]@) == e0@,
                forall|t: int|
                    0 <= t < n ==> is_point_encoding(#[trigger] fs@[1 + t]@) && point_dlog(
                        fs@[1 + t]@,
                    ) % group_order() == cs@[t]@,
                forall|t: int| 0 <= t < m1 ==> le_value(#[trigger] fs@[1 + n + t]@) == s1s@[t]@,
                forall|t: int| 0 <= t < j ==> le_value(#[trigger] fs@[1 + n + m1 + t]@) == s2s@[t]@,
            decreases s2s.len() - j,
        {
            fs.push(s2s[j].to_bytes());
            j = j + 1;
        }
        let out = concat_fields(&fs);
        proof {
            assert(field(out@, 0) == fs@[0]@);
            assert forall|t: int| 0 <= t < n implies is_point_encoding(#[trigger] field(out@, 1 + t))
                && point_dlog(field(out@, 1 + t)) % group_order() == self.commitments()[t] by {
                assert(field(out@, 1 + t) == fs@[1 + t]@);
            }
            assert forall|t: int| 0 <= t < m1 implies le_value(#[trigger] field(out@, 1 + n + t))
                == self.responses_1()[t] by {
                assert(field(out@, 1 + n + t) == fs@[1 + n + t]@);
            }
            if m1 == n {
                assert forall|t: int| 0 <= t < s2s.len() implies le_value(
                    #[trigger] field(out@, 1 + 2 * n + t),
                ) == self.responses_2()[t] by {
                    assert(field(out@, 1 + n + m1 + t) == fs@[1 + n + m1 + t]@);
                }
            }
        }
        out
    }
}

impl RangeProof {
    /// Reads the encoding `e0 ‖ C ‖ s1 ‖ s2`. Returns `None` unless the length
    /// is `32·(1 + 3n)` for some `n`, every scalar field is canonical and every
    /// point field encodes a point.
    pub fn from_bytes(bytes: &[u8]) -> (r: Option<RangeProof>)
        ensures
            r is Some <==> decodable(bytes@),
            r matches Some(p) ==> encodes(
                bytes@,
                p.anchor(),
                p.commitments(),
                p.responses_1(),
                p.responses_2(),
            ),
    {
        let len = bytes.len();
        if len < 32 || (len - 32) % 96 != 0 {
            return None;
        }
        let n = (len - 32) / 96;
        let e0 = match Scalar::from_bytes(read_field(bytes, 0)) {
            Some(s) => s,
            None => {
                return None;
            },
        };
        let mut cs: Vec<Point> = Vec::new();
        let mut j: usize = 0;
        while j < n
            invariant
                len == bytes@.len(),
                n == (len - 32) / 96,
                len == 32 + 96 * n,
                j <= n,
                cs.len() == j,
                forall|t: int|
                    0 <= t < j ==> is_point_encoding(#[trigger] field(bytes@, 1 + t)) && point_dlog(
                        field(bytes@, 1 + t),
                    ) % group_order() == cs@[t]@,
            decreases n - j,
        {
            match Point::from_bytes(read_field(bytes, 1 + j)) {
                Some(p) => cs.push(p),
                None => {
                    return None;
                },
            }
            j = j + 1;
        }
        let mut s1s: Vec<Scalar> = Vec::new();
        let mut j: usize = 0;
        while j < n
            invariant
                len == bytes@.len(),
                n == (len - 32) / 96,
                len == 32 + 96 * n,
                j <= n,
                s1s.len() == j,
                forall|t: int|
                    0 <= t < j ==> le_value(#[trigger] field(bytes@, 1 + n + t)) == s1s@[t]@
                        && le_value(field(bytes@, 1 + n + t)) < group_order(),
            decreases n - j,
        {
            match Scalar::from_bytes(read_field(bytes, 1 + n + j)) {
                Some(s) => s1s.push(s),
                None => {
                    return None;
                },
            }
            j = j + 1;
        }
        let mut s2s: Vec<Scalar> = Vec::new();
        let mut j: usize = 0;
        while j < n
            invariant
                len == bytes@.len(),
                n == (len - 32) / 96,
                len == 32 + 96 * n,
                j <= n,
                s2s.len() == j,
                forall|t: int|
                    0 <= t < j ==> le_value(#[trigger] field(bytes@, 1 + 2 * n + t)) == s2s@[t]@
                        && le_value(field(bytes@, 1 + 2 * n + t)) < group_order(),
            decreases n - j,
        {
            match Scalar::from_bytes(read_field(bytes, 1 + 2 * n + j)) {
                Some(s) => s2s.push(s),
                None => {
                    return None;
                },
            }
            j = j + 1;
        }
        let p = RangeProof::from_parts(e0, cs, s1s, s2s);
        Some(p)
    }
}

} // verus!

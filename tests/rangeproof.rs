use curve25519_dalek::constants::RISTRETTO_BASEPOINT_POINT;
use curve25519_dalek::ristretto::RistrettoPoint;
use curve25519_dalek::scalar::Scalar as DalekScalar;
use dalek_rangeproofs::digits::base3_digits;
use dalek_rangeproofs::point::Point;
use dalek_rangeproofs::rangeproof::{pedersen_commitment, RangeProof};
use dalek_rangeproofs::scalar::Scalar;
use dalek_rangeproofs::RANGEPROOF_MAX_N;
use rand::rngs::OsRng;
use sha2::Sha512;

/// G is the Ristretto basepoint, H the hash of its encoding.
fn generators() -> (Point, Point, RistrettoPoint, RistrettoPoint) {
    let g = RISTRETTO_BASEPOINT_POINT;
    let h = RistrettoPoint::hash_from_bytes::<Sha512>(g.compress().as_bytes());
    (
        Point::from_bytes(g.compress().to_bytes()).unwrap(),
        Point::from_bytes(h.compress().to_bytes()).unwrap(),
        g,
        h,
    )
}

fn opening(g: &RistrettoPoint, h: &RistrettoPoint, blinding: &Scalar, value: u64) -> [u8; 32] {
    let b = DalekScalar::from_canonical_bytes(blinding.to_bytes()).unwrap();
    (g * b + h * DalekScalar::from(value)).compress().to_bytes()
}

fn fixed_draws(count: usize, seed: u64) -> Vec<Scalar> {
    (0..count as u64)
        .map(|i| {
            let x = DalekScalar::hash_from_bytes::<Sha512>(&(seed * 1000 + i).to_le_bytes());
            Scalar::from_bytes(x.to_bytes()).unwrap()
        })
        .collect()
}

#[test]
fn base3_digits_vs_sage() {
    let values: [u64; 10] = [10352669767914021650,  7804842618637096123,
                              7334633556203117754,  8160423201521470302,
                             17232767106382697250,  8845500362072010910,
                              9696550650556789001,   769845413554321661,
                              3398590720602317514, 14390516357262902374];
    let digits_sage: [[u8;41]; 10] = [
        [2, 2, 0, 2, 1, 2, 2, 2, 1, 1, 2, 2, 1, 1, 1, 2, 1, 2, 0, 1, 0, 2, 2, 1, 0, 1, 2, 0, 2, 0, 2, 2, 0, 2, 2, 2, 2, 1, 1, 2, 0],
        [1, 1, 2, 2, 1, 0, 1, 2, 1, 0, 0, 1, 0, 2, 2, 1, 1, 1, 2, 0, 1, 0, 0, 1, 1, 0, 2, 1, 2, 1, 2, 2, 2, 2, 2, 2, 0, 2, 2, 1, 0],
        [0, 1, 1, 0, 2, 2, 1, 2, 0, 0, 0, 2, 0, 2, 1, 1, 0, 2, 1, 0, 0, 0, 2, 0, 0, 1, 2, 1, 1, 2, 1, 0, 1, 2, 1, 2, 0, 1, 2, 1, 0],
        [0, 2, 0, 1, 2, 2, 0, 0, 2, 2, 2, 2, 0, 2, 2, 0, 1, 1, 1, 1, 0, 1, 0, 2, 0, 2, 1, 2, 2, 1, 1, 2, 2, 0, 0, 1, 0, 0, 0, 2, 0],
        [0, 1, 2, 1, 2, 2, 0, 2, 0, 0, 2, 2, 1, 0, 1, 0, 1, 1, 1, 1, 0, 0, 0, 2, 1, 2, 2, 2, 0, 1, 1, 2, 2, 0, 1, 2, 0, 2, 0, 1, 1],
        [1, 2, 0, 2, 2, 0, 2, 1, 0, 1, 2, 1, 2, 0, 0, 0, 0, 2, 2, 0, 0, 2, 2, 1, 1, 0, 2, 0, 0, 0, 2, 1, 0, 1, 2, 2, 1, 1, 0, 2, 0],
        [2, 0, 1, 0, 1, 1, 0, 1, 0, 0, 0, 0, 1, 2, 0, 0, 1, 2, 2, 0, 0, 2, 2, 1, 0, 1, 0, 2, 1, 1, 1, 2, 0, 1, 2, 1, 1, 0, 1, 2, 0],
        [2, 2, 2, 1, 2, 2, 1, 2, 0, 2, 1, 0, 2, 1, 1, 2, 2, 2, 2, 0, 2, 1, 0, 1, 2, 0, 1, 2, 0, 0, 1, 1, 1, 0, 1, 0, 2, 1, 0, 0, 0],
        [0, 1, 1, 2, 0, 1, 1, 1, 2, 1, 0, 0, 2, 2, 2, 0, 0, 1, 1, 1, 2, 2, 0, 0, 0, 2, 2, 1, 0, 2, 0, 0, 1, 2, 2, 1, 1, 1, 2, 0, 0],
        [1, 2, 0, 0, 1, 1, 0, 1, 2, 1, 0, 1, 0, 1, 2, 2, 0, 0, 2, 1, 0, 1, 2, 2, 1, 2, 2, 0, 1, 2, 2, 2, 1, 2, 1, 2, 2, 1, 1, 0, 1],
    ];

    for i in 0..10 {
        let digits = base3_digits(values[i]);
        for j in 0..41 {
            assert_eq!(digits[j], digits_sage[i][j]);
        }
    }
}

#[test]
fn prove_and_verify_vartime() {
    let (g, h, gd, hd) = generators();
    let mut csprng = OsRng;

    let n = 16;
    let value = 13449261;
    let (proof, commitment, blinding) =
        RangeProof::create_vartime(n, value, &g, &h, &mut csprng).unwrap();

    let c_option = proof.verify(n, &g, &h);
    assert!(c_option.is_some());

    assert!(proof.verify(2, &g, &h).is_none());

    let c = c_option.unwrap();
    let c_hat = opening(&gd, &hd, &blinding, value);

    assert_eq!(c.to_bytes(), c_hat);
    assert_eq!(commitment.to_bytes(), c_hat);
}

#[test]
fn prove_and_verify_ct() {
    let (g, h, gd, hd) = generators();
    let mut csprng = OsRng;

    let n = 16;
    let value = 13449261;
    let (proof, commitment, blinding) =
        RangeProof::create(n, value, &g, &h, &mut csprng).unwrap();

    let c_option = proof.verify(n, &g, &h);
    assert!(c_option.is_some());

    assert!(proof.verify(2, &g, &h).is_none());

    let c = c_option.unwrap();
    let c_hat = opening(&gd, &hd, &blinding, value);

    assert_eq!(c.to_bytes(), c_hat);
    assert_eq!(commitment.to_bytes(), c_hat);
}

#[test]
fn ct_prover_at_bound_forty() {
    let (g, h, gd, hd) = generators();
    let mut csprng = OsRng;
    let value = 134492616741;
    let (proof, commitment, blinding) = RangeProof::create(40, value, &g, &h, &mut csprng).unwrap();
    let c = proof.verify(40, &g, &h).unwrap();
    assert_eq!(c.to_bytes(), commitment.to_bytes());
    assert_eq!(c.to_bytes(), opening(&gd, &hd, &blinding, value));
    assert!(proof.verify(2, &g, &h).is_none());
}

#[test]
fn range_boundary_at_ten_digits() {
    let (g, h, gd, hd) = generators();
    let mut csprng = OsRng;
    // 3^10 - 1 is the largest value with ten base-3 digits.
    let (proof, _, blinding) = RangeProof::create_vartime(10, 59048, &g, &h, &mut csprng).unwrap();
    let c = proof.verify(10, &g, &h).unwrap();
    assert_eq!(c.to_bytes(), opening(&gd, &hd, &blinding, 59048));
    // 3^10 needs an eleventh digit.
    assert!(RangeProof::create_vartime(10, 59049, &g, &h, &mut csprng).is_none());
    assert!(RangeProof::create(10, 59049, &g, &h, &mut csprng).is_none());
    assert!(RangeProof::create_vartime(10, 59050, &g, &h, &mut csprng).is_none());
    assert!(RangeProof::create(10, 59050, &g, &h, &mut csprng).is_none());
}

#[test]
fn zero_at_largest_bound() {
    let (g, h, gd, _) = generators();
    let draws = fixed_draws(3 * RANGEPROOF_MAX_N, 7);
    let (proof, commitment, blinding) =
        RangeProof::create_vartime_with_draws(RANGEPROOF_MAX_N, 0, &g, &h, &draws).unwrap();
    let c = proof.verify(RANGEPROOF_MAX_N, &g, &h).unwrap();
    let b = DalekScalar::from_canonical_bytes(blinding.to_bytes()).unwrap();
    assert_eq!(c.to_bytes(), (gd * b).compress().to_bytes());
    assert_eq!(commitment.to_bytes(), c.to_bytes());
}

#[test]
fn largest_value_at_largest_bound() {
    let (g, h, gd, hd) = generators();
    let draws = fixed_draws(6 * RANGEPROOF_MAX_N, 8);
    let (proof, _, blinding) =
        RangeProof::create_with_draws(RANGEPROOF_MAX_N, u64::MAX, &g, &h, &draws).unwrap();
    let c = proof.verify(RANGEPROOF_MAX_N, &g, &h).unwrap();
    assert_eq!(c.to_bytes(), opening(&gd, &hd, &blinding, u64::MAX));
}

#[test]
fn out_of_range_values_have_no_proof() {
    let (g, h, _, _) = generators();
    let draws3 = fixed_draws(3 * 5, 1);
    let draws6 = fixed_draws(6 * 5, 1);
    for value in [243u64, 244, 1000, u64::MAX] {
        assert!(RangeProof::create_vartime_with_draws(5, value, &g, &h, &draws3).is_none());
        assert!(RangeProof::create_with_draws(5, value, &g, &h, &draws6).is_none());
    }
    let none: Vec<Scalar> = Vec::new();
    assert!(RangeProof::create_vartime_with_draws(0, 1, &g, &h, &none).is_none());
    assert!(RangeProof::create_vartime_with_draws(0, 0, &g, &h, &none).is_some());
}

#[test]
fn both_provers_accept_every_digit_pattern() {
    let (g, h, gd, hd) = generators();
    // 0b: digits 0,1,2 in every position mix.
    for (k, value) in [0u64, 1, 2, 3, 5, 7, 8, 13, 21, 26, 100, 242].iter().enumerate() {
        let d3 = fixed_draws(15, 100 + k as u64);
        let d6 = fixed_draws(30, 200 + k as u64);
        let (p1, c1, b1) = RangeProof::create_vartime_with_draws(5, *value, &g, &h, &d3).unwrap();
        let (p2, c2, b2) = RangeProof::create_with_draws(5, *value, &g, &h, &d6).unwrap();
        assert_eq!(p1.verify(5, &g, &h).unwrap().to_bytes(), c1.to_bytes());
        assert_eq!(p2.verify(5, &g, &h).unwrap().to_bytes(), c2.to_bytes());
        assert_eq!(c1.to_bytes(), opening(&gd, &hd, &b1, *value));
        assert_eq!(c2.to_bytes(), opening(&gd, &hd, &b2, *value));
    }
}

#[test]
fn wrong_bound_is_rejected() {
    let (g, h, _, _) = generators();
    let draws = fixed_draws(3 * 6, 3);
    let (proof, _, _) = RangeProof::create_vartime_with_draws(6, 300, &g, &h, &draws).unwrap();
    assert!(proof.verify(6, &g, &h).is_some());
    for other in [0usize, 1, 5, 7, 41] {
        assert!(proof.verify(other, &g, &h).is_none());
    }
}

#[test]
fn wrong_generators_are_rejected() {
    let (g, h, _, _) = generators();
    let draws = fixed_draws(3 * 4, 4);
    let (proof, _, _) = RangeProof::create_vartime_with_draws(4, 50, &g, &h, &draws).unwrap();
    assert!(proof.verify(4, &h, &g).is_none());
}

#[test]
fn encoded_size_at_forty_digits() {
    let (g, h, _, _) = generators();
    let draws = fixed_draws(3 * 40, 5);
    let (proof, _, _) = RangeProof::create_vartime_with_draws(40, 134492616741, &g, &h, &draws).unwrap();
    assert_eq!(proof.to_bytes().len(), 3872);
}

#[test]
fn encoding_round_trip_verifies_alike() {
    let (g, h, _, _) = generators();
    let draws = fixed_draws(6 * 8, 6);
    let (proof, commitment, _) = RangeProof::create_with_draws(8, 4321, &g, &h, &draws).unwrap();
    let bytes = proof.to_bytes();
    assert_eq!(bytes.len(), 32 * (1 + 3 * 8));
    let decoded = RangeProof::from_bytes(&bytes).unwrap();
    assert_eq!(decoded.to_bytes(), bytes);
    assert_eq!(decoded.verify(8, &g, &h).unwrap().to_bytes(), commitment.to_bytes());
    assert!(decoded.verify(7, &g, &h).is_none());
}

#[test]
fn tampered_bytes_are_rejected() {
    let (g, h, _, _) = generators();
    let n = 2;
    let draws = fixed_draws(3 * n, 9);
    let (proof, _, _) = RangeProof::create_vartime_with_draws(n, 7, &g, &h, &draws).unwrap();
    let bytes = proof.to_bytes();
    // e0, both commitments and all four responses, at three offsets each.
    for pos in (0..bytes.len() / 32).flat_map(|f| [32 * f, 32 * f + 13, 32 * f + 31]) {
        let mut t = bytes.clone();
        t[pos] ^= 0x01;
        match RangeProof::from_bytes(&t) {
            None => {}
            Some(p) => assert!(p.verify(n, &g, &h).is_none(), "byte {} accepted", pos),
        }
    }
}

#[test]
fn malformed_encodings_are_refused() {
    assert!(RangeProof::from_bytes(&[]).is_none());
    assert!(RangeProof::from_bytes(&[0u8; 31]).is_none());
    assert!(RangeProof::from_bytes(&[0u8; 33]).is_none());
    assert!(RangeProof::from_bytes(&[0u8; 32 + 95]).is_none());
    // The all-zero encoding: e0 = 0, one identity commitment, zero responses.
    assert!(RangeProof::from_bytes(&[0u8; 32 + 96]).is_some());
    let mut bad_scalar = [0u8; 32 + 96];
    bad_scalar[31] = 0xff;
    assert!(RangeProof::from_bytes(&bad_scalar).is_none());
    let mut bad_point = [0u8; 32 + 96];
    bad_point[32] = 1;
    assert!(RangeProof::from_bytes(&bad_point).is_none());
}

#[test]
fn scalar_and_point_encodings() {
    let ell: [u8; 32] = [
        0xed, 0xd3, 0xf5, 0x5c, 0x1a, 0x63, 0x12, 0x58, 0xd6, 0x9c, 0xf7, 0xa2, 0xde, 0xf9, 0xde,
        0x14, 0, 0, 0, 0, 0, 0, 0, 0, 0, 0, 0, 0, 0, 0, 0, 0x10,
    ];
    assert!(Scalar::from_bytes(ell).is_none());
    let mut below = ell;
    below[0] -= 1;
    assert_eq!(Scalar::from_bytes(below).unwrap().to_bytes(), below);
    let mut five = [0u8; 32];
    five[0] = 5;
    assert_eq!(Scalar::from_u64(5).to_bytes(), five);
    let (g, _, gd, _) = generators();
    assert_eq!(g.to_bytes(), gd.compress().to_bytes());
}

#[test]
fn digits_spell_their_value() {
    for x in [0u64, 1, 2, 3, 59048, 59049, 134492616741, u64::MAX] {
        let d = base3_digits(x);
        let mut total: u128 = 0;
        let mut p: u128 = 1;
        for i in 0..41 {
            assert!(d[i] <= 2);
            total += d[i] as u128 * p;
            p *= 3;
        }
        assert_eq!(total, x as u128);
    }
    assert_eq!(base3_digits(59049)[10], 1);
    assert_eq!(base3_digits(0), [0u8; 41]);
}

#[test]
fn pedersen_commitment_opens_a_proof() {
    let (g, h, gd, hd) = generators();
    let draws = fixed_draws(3 * 12, 11);
    let value = 123456;
    let (proof, commitment, blinding) =
        RangeProof::create_vartime_with_draws(12, value, &g, &h, &draws).unwrap();
    let c = proof.verify(12, &g, &h).unwrap();
    let opened = pedersen_commitment(&g, &h, &blinding, value);
    assert_eq!(opened.to_bytes(), c.to_bytes());
    assert_eq!(opened.to_bytes(), commitment.to_bytes());
    assert_eq!(opened.to_bytes(), opening(&gd, &hd, &blinding, value));
    assert_ne!(pedersen_commitment(&g, &h, &blinding, value + 1).to_bytes(), c.to_bytes());
}

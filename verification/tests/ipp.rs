#![allow(non_snake_case)]

use curve25519_dalek::ristretto::RistrettoPoint;
use curve25519_dalek::scalar::Scalar;
use merlin::Transcript;
use pipf::argument::fold_commitments;
use pipf::commit::hash_to_point;
use pipf::{
    Generators, InnerProductProof,
    create_generators, generate_inner_product_proof, generate_inner_product_proof_with_blinding,
    inner_product, pedersen_vector_commitment, verify_inner_product_proof, TranscriptProtocol,
};
use rand::rngs::OsRng;
use sha2::Sha512;

fn random_vec(n: usize) -> Vec<Scalar> {
    (0..n).map(|_| Scalar::random(&mut OsRng)).collect()
}

#[test]
fn test_pedersen_vector_commitment() {
    let n = 8;
    let gens = create_generators(n);

    // Random vectors a and b
    let a: Vec<Scalar> = (0..n).map(|_| Scalar::random(&mut OsRng)).collect();
    let b: Vec<Scalar> = (0..n).map(|_| Scalar::random(&mut OsRng)).collect();
    let r = Scalar::random(&mut OsRng);

    // Create commitment
    let P = pedersen_vector_commitment(&a, &b, r, &gens);

    // Check commitment contains correct components
    let mut P_check = gens.G * r;
    for i in 0..n {
        P_check += a[i] * gens.G_vec[i] + b[i] * gens.H_vec[i];
    }

    assert_eq!(P, P_check, "Pedersen commitment calculation incorrect");
}

#[test]
fn test_inner_product_proof_correctness() {
    let n = 8;
    let gens = create_generators(n);

    // Random vectors a and b
    let a: Vec<Scalar> = (0..n).map(|_| Scalar::random(&mut OsRng)).collect();
    let b: Vec<Scalar> = (0..n).map(|_| Scalar::random(&mut OsRng)).collect();
    let r = Scalar::random(&mut OsRng);

    // Create commitment
    let P = pedersen_vector_commitment(&a, &b, r, &gens);

    // Calculate inner product
    let c = inner_product(&a, &b);

    // Generate proof
    let mut prover_transcript = Transcript::new(b"test-inner-product");
    let proof = generate_inner_product_proof(a.clone(), b.clone(), r, &gens, &mut prover_transcript);

    // Verify proof
    let mut verifier_transcript = Transcript::new(b"test-inner-product");
    let result = verify_inner_product_proof(P, c, &proof, &gens, &mut verifier_transcript);

    assert!(result, "Inner product proof verification failed");
}

#[test]
fn test_invalid_inner_product() {
    let n = 8;
    let gens = create_generators(n);

    // Random vectors a and b
    let a: Vec<Scalar> = (0..n).map(|_| Scalar::random(&mut OsRng)).collect();
    let b: Vec<Scalar> = (0..n).map(|_| Scalar::random(&mut OsRng)).collect();
    let r = Scalar::random(&mut OsRng);

    // Create commitment
    let P = pedersen_vector_commitment(&a, &b, r, &gens);

    // Calculate inner product
    let mut c = inner_product(&a, &b);

    // Modify c to make it invalid
    c += Scalar::from(1u64);

    // Generate proof
    let mut prover_transcript = Transcript::new(b"test-inner-product");
    let proof = generate_inner_product_proof(a.clone(), b.clone(), r, &gens, &mut prover_transcript);

    // Verify proof with incorrect inner product
    let mut verifier_transcript = Transcript::new(b"test-inner-product");
    let result = verify_inner_product_proof(P, c, &proof, &gens, &mut verifier_transcript);

    assert!(!result, "Invalid inner product should fail verification");
}

#[test]
fn test_proof_size_logarithmic() {
    let test_sizes = [8, 16, 32, 64, 128];

    for &n in &test_sizes {
        let gens = create_generators(n);

        // Random vectors a and b
        let a: Vec<Scalar> = (0..n).map(|_| Scalar::random(&mut OsRng)).collect();
        let b: Vec<Scalar> = (0..n).map(|_| Scalar::random(&mut OsRng)).collect();
        let r = Scalar::random(&mut OsRng);

        // Generate proof
        let mut transcript = Transcript::new(b"test-inner-product");
        let proof = generate_inner_product_proof(a.clone(), b.clone(), r, &gens, &mut transcript);

        // Check proof size is log(n)
        assert_eq!(proof.L_vec.len(), proof.R_vec.len());
        assert_eq!(proof.L_vec.len(), n.trailing_zeros() as usize);
    }
}

#[test]
fn inner_product_of_small_vectors() {
    let a = [Scalar::from(1u64), Scalar::from(2u64), Scalar::from(3u64)];
    let b = [Scalar::from(4u64), Scalar::from(5u64), Scalar::from(6u64)];
    assert_eq!(inner_product(&a, &b), Scalar::from(32u64));
    assert_eq!(inner_product(&[], &[]), Scalar::ZERO);
}

#[test]
fn inner_product_reduces_modulo_group_order() {
    // (-1) * (-1) + 2 * 3 = 7 modulo the group order
    let minus_one = -Scalar::ONE;
    let a = [minus_one, Scalar::from(2u64)];
    let b = [minus_one, Scalar::from(3u64)];
    assert_eq!(inner_product(&a, &b), Scalar::from(7u64));
}

#[test]
fn commitment_with_unit_vectors_picks_generators() {
    let gens = create_generators(4);
    let zero = Scalar::ZERO;
    let one = Scalar::ONE;
    let a = [zero, zero, one, zero];
    let b = [zero, zero, zero, zero];
    assert_eq!(pedersen_vector_commitment(&a, &b, zero, &gens), gens.G_vec[2]);
    let b = [one, zero, zero, zero];
    assert_eq!(
        pedersen_vector_commitment(&b, &b, one, &gens),
        gens.G_vec[0] + gens.H_vec[0] + gens.G
    );
}

#[test]
fn commitment_is_additive() {
    let n = 4;
    let gens = create_generators(n);
    let (a1, b1, a2, b2) = (random_vec(n), random_vec(n), random_vec(n), random_vec(n));
    let (r1, r2) = (Scalar::random(&mut OsRng), Scalar::random(&mut OsRng));
    let sum = |x: &[Scalar], y: &[Scalar]| -> Vec<Scalar> {
        x.iter().zip(y.iter()).map(|(p, q)| p + q).collect()
    };
    let c1 = pedersen_vector_commitment(&a1, &b1, r1, &gens);
    let c2 = pedersen_vector_commitment(&a2, &b2, r2, &gens);
    let c12 = pedersen_vector_commitment(&sum(&a1, &a2), &sum(&b1, &b2), r1 + r2, &gens);
    assert_eq!(c1 + c2, c12);
}

#[test]
fn generators_are_derived_from_their_labels() {
    let gens = create_generators(12);
    assert_eq!(gens.G_vec.len(), 12);
    assert_eq!(gens.H_vec.len(), 12);
    for i in [0usize, 3, 10, 11] {
        let g = RistrettoPoint::hash_from_bytes::<Sha512>(format!("G_vec_{}", i).as_bytes());
        let h = RistrettoPoint::hash_from_bytes::<Sha512>(format!("H_vec_{}", i).as_bytes());
        assert_eq!(gens.G_vec[i], g);
        assert_eq!(gens.H_vec[i], h);
    }
    assert_eq!(gens.G, hash_to_point(b"G_blinding"));
    assert_eq!(gens.G, RistrettoPoint::hash_from_bytes::<Sha512>(b"G_blinding"));
    assert_ne!(gens.G_vec[0], gens.H_vec[0]);
    assert_ne!(gens.G_vec[1], gens.G_vec[10]);
}

#[test]
fn generators_are_deterministic() {
    let g1 = create_generators(5);
    let g2 = create_generators(5);
    assert_eq!(g1.G_vec, g2.G_vec);
    assert_eq!(g1.H_vec, g2.H_vec);
    assert_eq!(g1.G, g2.G);
    assert_eq!(create_generators(0).G_vec.len(), 0);
}

fn prove_and_verify(n: usize, tweak_c: bool) -> bool {
    let gens = create_generators(n);
    let a = random_vec(n);
    let b = random_vec(n);
    let r = Scalar::random(&mut OsRng);
    let P = pedersen_vector_commitment(&a, &b, r, &gens);
    let mut c = inner_product(&a, &b);
    if tweak_c {
        c += Scalar::ONE;
    }
    let mut pt = Transcript::new(b"law");
    let proof = generate_inner_product_proof(a, b, r, &gens, &mut pt);
    let mut vt = Transcript::new(b"law");
    verify_inner_product_proof(P, c, &proof, &gens, &mut vt)
}

#[test]
fn honest_proofs_verify_for_every_size() {
    for n in [1usize, 2, 4, 16] {
        assert!(prove_and_verify(n, false), "size {}", n);
    }
}

#[test]
fn wrong_inner_product_is_rejected_for_every_size() {
    for n in [1usize, 2, 4, 16] {
        assert!(!prove_and_verify(n, true), "size {}", n);
    }
}

#[test]
fn single_element_proof_has_no_rounds() {
    let gens = create_generators(1);
    let a = vec![Scalar::from(3u64)];
    let b = vec![Scalar::from(5u64)];
    let r = Scalar::from(7u64);
    let mut t = Transcript::new(b"one");
    let proof = generate_inner_product_proof(a.clone(), b.clone(), r, &gens, &mut t);
    assert!(proof.L_vec.is_empty() && proof.R_vec.is_empty());
    assert_eq!(proof.a_final, a[0]);
    assert_eq!(proof.b_final, b[0]);
    assert_eq!(proof.r_final, r);
}

#[test]
fn proof_with_fixed_blinding_is_deterministic() {
    let n = 8;
    let gens = create_generators(n);
    let a = random_vec(n);
    let b = random_vec(n);
    let r = Scalar::random(&mut OsRng);
    let bl = random_vec(3);
    let br = random_vec(3);
    let mut t1 = Transcript::new(b"det");
    let mut t2 = Transcript::new(b"det");
    let p1 = generate_inner_product_proof_with_blinding(a.clone(), b.clone(), r, &gens, &mut t1, &bl, &br);
    let p2 = generate_inner_product_proof_with_blinding(a.clone(), b.clone(), r, &gens, &mut t2, &bl, &br);
    assert_eq!(p1.L_vec, p2.L_vec);
    assert_eq!(p1.R_vec, p2.R_vec);
    assert_eq!(p1.a_final, p2.a_final);
    assert_eq!(p1.b_final, p2.b_final);
    assert_eq!(p1.r_final, p2.r_final);
    let P = pedersen_vector_commitment(&a, &b, r, &gens);
    let c = inner_product(&a, &b);
    let mut vt = Transcript::new(b"det");
    assert!(verify_inner_product_proof(P, c, &p1, &gens, &mut vt));
}

#[test]
fn first_round_cross_terms_match_their_formula() {
    // The transcript absorbs the statement and yields w; with two elements there is one
    // round: L = a0*G1 + b1*H0 + (a0*b1)*wU + rl*G and R = a1*G0 + b0*H1 + (a1*b0)*wU + rr*G;
    // the final blinding is r + x^2 rl + x^-2 rr.
    let gens = create_generators(2);
    let a = random_vec(2);
    let b = random_vec(2);
    let r = Scalar::random(&mut OsRng);
    let bl = random_vec(1);
    let br = random_vec(1);
    let mut t = Transcript::new(b"cross");
    let proof = generate_inner_product_proof_with_blinding(a.clone(), b.clone(), r, &gens, &mut t, &bl, &br);
    // Replay the transcript to get the challenges.
    let P = pedersen_vector_commitment(&a, &b, r, &gens);
    let c = inner_product(&a, &b);
    let mut replay = Transcript::new(b"cross");
    replay.append_message(b"dom-sep", b"inner-product-proof");
    replay.append_point(b"P", &P.compress());
    replay.append_message(b"c", c.as_bytes());
    let w = replay.challenge_scalar(b"w");
    let wU = w * hash_to_point(b"inner-product-U");
    let L = a[0] * gens.G_vec[1] + b[1] * gens.H_vec[0] + (a[0] * b[1]) * wU + bl[0] * gens.G;
    let R = a[1] * gens.G_vec[0] + b[0] * gens.H_vec[1] + (a[1] * b[0]) * wU + br[0] * gens.G;
    assert_eq!(proof.L_vec, vec![L]);
    assert_eq!(proof.R_vec, vec![R]);
    replay.append_point(b"L", &L.compress());
    replay.append_point(b"R", &R.compress());
    let x = replay.challenge_scalar(b"x");
    let y = x.invert();
    assert_eq!(proof.a_final, x * a[0] + y * a[1]);
    assert_eq!(proof.b_final, y * b[0] + x * b[1]);
    assert_eq!(proof.r_final, r + x * x * bl[0] + y * y * br[0]);
    // both transcripts are in the same state
    assert_eq!(t.challenge_scalar(b"next"), replay.challenge_scalar(b"next"));
}

#[test]
fn statement_shifted_along_the_inner_product_base_is_rejected() {
    // P' = P + d*U with the claim c - d: every check that only combines P + c*U would
    // accept it.
    let U = hash_to_point(b"inner-product-U");
    let d = Scalar::from(5u64);
    for n in [1usize, 2, 8] {
        let gens = create_generators(n);
        let a = random_vec(n);
        let b = random_vec(n);
        let r = Scalar::random(&mut OsRng);
        let P = pedersen_vector_commitment(&a, &b, r, &gens);
        let c = inner_product(&a, &b);
        let mut pt = Transcript::new(b"shift");
        let proof = generate_inner_product_proof(a, b, r, &gens, &mut pt);
        assert!(verify_inner_product_proof(P, c, &proof, &gens, &mut Transcript::new(b"shift")));
        assert!(!verify_inner_product_proof(P + d * U, c - d, &proof, &gens, &mut Transcript::new(b"shift")), "size {}", n);
    }
}

#[test]
fn proof_without_rounds_checks_product_and_opening() {
    // With one element the proof is the opening (a, b, r): it is accepted exactly when
    // a*b = c and P = r*G + a*G0 + b*H0.
    let gens = create_generators(1);
    let a = Scalar::from(3u64);
    let b = Scalar::from(5u64);
    let r = Scalar::from(7u64);
    let proof = InnerProductProof { L_vec: vec![], R_vec: vec![], a_final: a, b_final: b, r_final: r };
    let P = r * gens.G + a * gens.G_vec[0] + b * gens.H_vec[0];
    let c = Scalar::from(15u64);
    assert!(verify_inner_product_proof(P, c, &proof, &gens, &mut Transcript::new(b"open")));
    assert!(!verify_inner_product_proof(P, c + Scalar::ONE, &proof, &gens, &mut Transcript::new(b"open")));
    assert!(!verify_inner_product_proof(P + gens.G, c, &proof, &gens, &mut Transcript::new(b"open")));
    // generators of another size
    let two = create_generators(2);
    assert!(!verify_inner_product_proof(P, c, &proof, &two, &mut Transcript::new(b"open")));
}

#[test]
fn commitment_hides_with_the_matching_blinding() {
    // With generators of known discrete logarithms, the blinding factor
    // r2 = r + (<a - a2, g> + <b - b2, h>) / gamma gives (a2, b2) the commitment of (a, b, r).
    let base = curve25519_dalek::constants::RISTRETTO_BASEPOINT_POINT;
    let g = random_vec(4);
    let h = random_vec(4);
    let gamma = Scalar::from(11u64);
    let gens = Generators {
        G_vec: g.iter().map(|s| s * base).collect(),
        H_vec: h.iter().map(|s| s * base).collect(),
        G: gamma * base,
    };
    let a = random_vec(4);
    let b = random_vec(4);
    let a2 = random_vec(4);
    let b2 = random_vec(4);
    let r = Scalar::random(&mut OsRng);
    let mut shift = Scalar::ZERO;
    for i in 0..4 {
        shift += (a[i] - a2[i]) * g[i] + (b[i] - b2[i]) * h[i];
    }
    let r2 = r + shift * gamma.invert();
    assert_eq!(
        pedersen_vector_commitment(&a, &b, r, &gens),
        pedersen_vector_commitment(&a2, &b2, r2, &gens)
    );
    assert_ne!(
        pedersen_vector_commitment(&a, &b, r, &gens),
        pedersen_vector_commitment(&a2, &b2, r2 + Scalar::ONE, &gens)
    );
}

#[test]
fn folding_cross_terms_is_additive() {
    let ps = random_vec(6);
    let base = curve25519_dalek::constants::RISTRETTO_BASEPOINT_POINT;
    let pts: Vec<RistrettoPoint> = ps.iter().map(|s| s * base).collect();
    let (l1, r1) = (vec![pts[0], pts[1]], vec![pts[2], pts[3]]);
    let (l2, r2) = (vec![pts[4], pts[5]], vec![pts[1], pts[0]]);
    let l3: Vec<RistrettoPoint> = (0..2).map(|i| l1[i] + l2[i]).collect();
    let r3: Vec<RistrettoPoint> = (0..2).map(|i| r1[i] + r2[i]).collect();
    let xs = vec![Scalar::from(3u64), Scalar::from(9u64)];
    let ys: Vec<Scalar> = xs.iter().map(|x| x.invert()).collect();
    let f1 = fold_commitments(&l1, &r1, &xs, &ys);
    let f2 = fold_commitments(&l2, &r2, &xs, &ys);
    let f3 = fold_commitments(&l3, &r3, &xs, &ys);
    assert_eq!(f3, f1 + f2);
    // and the fold is sum of x^2 L + x^-2 R
    let expected = xs[0] * xs[0] * l1[0] + ys[0] * ys[0] * r1[0] + xs[1] * xs[1] * l1[1] + ys[1] * ys[1] * r1[1];
    assert_eq!(f1, expected);
}

#[test]
fn tampered_proofs_are_rejected() {
    let n = 4;
    let gens = create_generators(n);
    let a = random_vec(n);
    let b = random_vec(n);
    let r = Scalar::random(&mut OsRng);
    let P = pedersen_vector_commitment(&a, &b, r, &gens);
    let c = inner_product(&a, &b);
    let mut pt = Transcript::new(b"tamper");
    let proof = generate_inner_product_proof(a, b, r, &gens, &mut pt);

    let mut bad = proof.clone();
    bad.a_final += Scalar::ONE;
    assert!(!verify_inner_product_proof(P, c, &bad, &gens, &mut Transcript::new(b"tamper")));

    let mut bad = proof.clone();
    bad.r_final += Scalar::ONE;
    assert!(!verify_inner_product_proof(P, c, &bad, &gens, &mut Transcript::new(b"tamper")));

    let mut bad = proof.clone();
    bad.L_vec[0] = bad.L_vec[0] + gens.G;
    assert!(!verify_inner_product_proof(P, c, &bad, &gens, &mut Transcript::new(b"tamper")));

    // a different commitment
    assert!(!verify_inner_product_proof(P + gens.G, c, &proof, &gens, &mut Transcript::new(b"tamper")));

    // a transcript in another state
    assert!(!verify_inner_product_proof(P, c, &proof, &gens, &mut Transcript::new(b"other")));

    // the untouched proof still verifies
    assert!(verify_inner_product_proof(P, c, &proof, &gens, &mut Transcript::new(b"tamper")));
}

#[test]
fn malformed_proofs_are_rejected() {
    let n = 4;
    let gens = create_generators(n);
    let a = random_vec(n);
    let b = random_vec(n);
    let r = Scalar::random(&mut OsRng);
    let P = pedersen_vector_commitment(&a, &b, r, &gens);
    let c = inner_product(&a, &b);
    let mut pt = Transcript::new(b"shape");
    let proof = generate_inner_product_proof(a, b, r, &gens, &mut pt);

    // one R too few
    let mut bad = proof.clone();
    bad.R_vec.pop();
    assert!(!verify_inner_product_proof(P, c, &bad, &gens, &mut Transcript::new(b"shape")));

    // one round too many for the generators
    let mut bad = proof.clone();
    bad.L_vec.push(gens.G);
    bad.R_vec.push(gens.G);
    assert!(!verify_inner_product_proof(P, c, &bad, &gens, &mut Transcript::new(b"shape")));

    // generators of another size
    let other = create_generators(8);
    assert!(!verify_inner_product_proof(P, c, &proof, &other, &mut Transcript::new(b"shape")));

    // more rounds than a usize can double
    let mut bad = proof.clone();
    bad.L_vec = vec![gens.G; 70];
    bad.R_vec = vec![gens.G; 70];
    assert!(!verify_inner_product_proof(P, c, &bad, &gens, &mut Transcript::new(b"shape")));
}

#[test]
fn prover_and_verifier_transcripts_end_in_step() {
    let n = 8;
    let gens = create_generators(n);
    let a = random_vec(n);
    let b = random_vec(n);
    let r = Scalar::random(&mut OsRng);
    let P = pedersen_vector_commitment(&a, &b, r, &gens);
    let c = inner_product(&a, &b);
    let mut pt = Transcript::new(b"step");
    let proof = generate_inner_product_proof(a, b, r, &gens, &mut pt);
    let mut vt = Transcript::new(b"step");
    assert!(verify_inner_product_proof(P, c, &proof, &gens, &mut vt));
    assert_eq!(pt.challenge_scalar(b"next"), vt.challenge_scalar(b"next"));
}

#[test]
fn challenge_scalar_reduces_the_challenge_bytes() {
    let mut t1 = Transcript::new(b"chal");
    let mut t2 = Transcript::new(b"chal");
    let p = hash_to_point(b"some point");
    t1.append_point(b"P", &p.compress());
    t2.append_message(b"P", p.compress().as_bytes());
    let s = t1.challenge_scalar(b"c");
    let mut buf = [0u8; 64];
    t2.challenge_bytes(b"c", &mut buf);
    assert_eq!(s, Scalar::from_bytes_mod_order_wide(&buf));
    // both transcripts have absorbed the same history
    assert_eq!(t1.challenge_scalar(b"d"), t2.challenge_scalar(b"d"));
}

#[test]
fn hash_to_point_is_sha512_then_uniform_bytes() {
    let digest = <Sha512 as sha2::Digest>::digest(b"label");
    let mut bytes = [0u8; 64];
    bytes.copy_from_slice(&digest);
    assert_eq!(hash_to_point(b"label"), RistrettoPoint::from_uniform_bytes(&bytes));
    assert_ne!(hash_to_point(b"label"), hash_to_point(b"other label"));
}

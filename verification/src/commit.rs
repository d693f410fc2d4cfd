//! Generators, Pedersen vector commitments and inner products of scalar vectors.
#![allow(non_snake_case)]
use vstd::prelude::*;
use curve25519_dalek::ristretto::RistrettoPoint;
use curve25519_dalek::scalar::Scalar;
use crate::algebra::{
    dot, dot_off, group_order, lemma_congruent_in_range, lemma_dot_push, lemma_reduce_add,
    lemma_reduce_mul, lemma_reduce_range, lemma_reduce_small, lemma_reduce_sub, reduce,
};
use crate::group::{
    hashed_point_dlog, point_dlog, point_dlogs, point_multiscalar_mul, scalar_add,
    scalar_from_u64, scalar_mul, scalar_value, scalar_values, sha512,
};

verus! {

/// Generators required for Pedersen Vector Commitments
///
/// This structure holds the base points needed for creating
/// vector commitments and proofs. It contains:
/// - G_vec: Base points for the first vector (a)
/// - H_vec: Base points for the second vector (b)
/// - G: Base point for the blinding factor
#[derive(Clone)]
pub struct Generators {
    /// Vector of base points for vector a components
    pub G_vec: Vec<RistrettoPoint>,
    /// Vector of base points for vector b components
    pub H_vec: Vec<RistrettoPoint>,
    /// Base point for blinding factor
    pub G: RistrettoPoint,
}

/// The discrete logarithm of the commitment `Σ(a_i·G_i + b_i·H_i) + r·G`.
pub open spec fn commitment_value(a: Seq<int>, b: Seq<int>, r: int, g: Seq<int>, h: Seq<int>, gamma: int) -> int {
    dot(a, g) + dot(b, h) + r * gamma
}

/// The decimal digits of `n`, as ASCII bytes, most significant first.
pub open spec fn decimal_bytes(n: nat) -> Seq<u8>
    decreases n,
{
    if n < 10 {
        seq![(48 + n) as u8]
    } else {
        decimal_bytes(n / 10).push((48 + n % 10) as u8)
    }
}

/// The ASCII bytes of `"G_vec_"`.
pub open spec fn g_vec_prefix() -> Seq<u8> {
    seq![71u8, 95u8, 118u8, 101u8, 99u8, 95u8]
}

/// The ASCII bytes of `"H_vec_"`.
pub open spec fn h_vec_prefix() -> Seq<u8> {
    seq![72u8, 95u8, 118u8, 101u8, 99u8, 95u8]
}

/// The ASCII bytes of `"G_blinding"`.
pub open spec fn blinding_label() -> Seq<u8> {
    seq![71u8, 95u8, 98u8, 108u8, 105u8, 110u8, 100u8, 105u8, 110u8, 103u8]
}

/// The input from which generator `G_i` is derived: `"G_vec_{i}"`.
pub open spec fn g_vec_input(i: nat) -> Seq<u8> {
    g_vec_prefix() + decimal_bytes(i)
}

/// The input from which generator `H_i` is derived: `"H_vec_{i}"`.
pub open spec fn h_vec_input(i: nat) -> Seq<u8> {
    h_vec_prefix() + decimal_bytes(i)
}

/// The number that a sequence of ASCII decimal digits denotes, most significant first.
pub open spec fn decimal_value(s: Seq<u8>) -> int
    decreases s.len(),
{
    if s.len() == 0 {
        0
    } else {
        decimal_value(s.drop_last()) * 10 + (s.last() - 48)
    }
}

/// The label digits of an index are its full decimal expansion: every byte is an ASCII
/// digit, there is at least one, and the digits denote `n` in base 10.
pub proof fn lemma_decimal_bytes_denote(n: nat)
    ensures
        decimal_bytes(n).len() >= 1,
        forall|k: int| 0 <= k < decimal_bytes(n).len() ==> 48 <= #[trigger] decimal_bytes(n)[k] <= 57,
        decimal_value(decimal_bytes(n)) == n,
    decreases n,
{
    if n >= 10 {
        lemma_decimal_bytes_denote(n / 10);
        let d = decimal_bytes(n / 10);
        assert(decimal_bytes(n).drop_last() =~= d);
        assert(decimal_bytes(n).last() == 48 + n % 10);
        assert forall|k: int| 0 <= k < decimal_bytes(n).len() implies 48 <= #[trigger] decimal_bytes(n)[k] <= 57 by {
            if k < d.len() {
                assert(decimal_bytes(n)[k] == d[k]);
            }
        }
        assert(decimal_value(decimal_bytes(n)) == decimal_value(d) * 10 + (n % 10));
        assert((n / 10) * 10 + n % 10 == n);
    } else {
        assert(decimal_bytes(n).drop_last() =~= Seq::<u8>::empty());
        assert(decimal_bytes(n)[0] == 48 + n);
        assert(decimal_value(Seq::<u8>::empty()) == 0);
        assert(decimal_value(decimal_bytes(n)) == 0 * 10 + n);
    }
}

/// Distinct indices get distinct generator labels: the inputs hashed for `G_i` and `G_j`
/// (and for `H_i` and `H_j`) differ when `i != j`, and no `G` label is an `H` label.
pub proof fn lemma_generator_inputs_distinct(i: nat, j: nat)
    ensures
        i != j ==> g_vec_input(i) != g_vec_input(j),
        i != j ==> h_vec_input(i) != h_vec_input(j),
        g_vec_input(i) != h_vec_input(j),
{
    lemma_decimal_bytes_denote(i);
    lemma_decimal_bytes_denote(j);
    assert(g_vec_input(i).skip(6) =~= decimal_bytes(i));
    assert(g_vec_input(j).skip(6) =~= decimal_bytes(j));
    assert(h_vec_input(i).skip(6) =~= decimal_bytes(i));
    assert(h_vec_input(j).skip(6) =~= decimal_bytes(j));
    assert(g_vec_input(i)[0] == 71u8);
    assert(h_vec_input(j)[0] == 72u8);
}

/// The decimal representation of `n` as ASCII bytes.
fn decimal_digits(n: usize) -> (r: Vec<u8>)
    ensures
        r@ == decimal_bytes(n as nat),
    decreases n,
{
    let d = (n % 10) as u8;
    if n < 10 {
        let mut r = Vec::new();
        r.push(48u8 + d);
        r
    } else {
        let mut r = decimal_digits(n / 10);
        r.push(48u8 + d);
        r
    }
}

/// The bytes of `prefix` followed by the decimal digits of `n`.
fn labelled_index(prefix: &[u8], n: usize) -> (r: Vec<u8>)
    ensures
        r@ == prefix@ + decimal_bytes(n as nat),
{
    let mut r: Vec<u8> = Vec::new();
    let mut i: usize = 0;
    while i < prefix.len()
        invariant
            0 <= i <= prefix@.len(),
            r@ == prefix@.subrange(0, i as int),
        decreases prefix@.len() - i,
    {
        r.push(prefix[i]);
        i = i + 1;
        assert(r@ =~= prefix@.subrange(0, i as int));
    }
    assert(r@ =~= prefix@);
    let mut digits = decimal_digits(n);
    r.append(&mut digits);
    r
}

/// Derive a Ristretto point from a domain-separated hash label
///
/// This function creates a deterministic point from a label using SHA-512
/// to prevent chosen base point attacks.
pub fn hash_to_point(label: &[u8]) -> (p: RistrettoPoint)
    ensures
        point_dlog(p) == hashed_point_dlog(label@),
        0 <= point_dlog(p) < group_order(),
{
    let hash = sha512(label);
    RistrettoPoint::from_uniform_bytes(&hash)
}

/// Create a set of generators suitable for Pedersen Vector Commitments
///
/// This function generates cryptographically secure base points for
/// use in vector commitments. The points are derived deterministically
/// from labels to ensure they have no known discrete log relationship:
/// `G_i` from `"G_vec_{i}"`, `H_i` from `"H_vec_{i}"` and `G` from `"G_blinding"`.
pub fn create_generators(n: usize) -> (gens: Generators)
    ensures
        gens.G_vec@.len() == n,
        gens.H_vec@.len() == n,
        forall|i: int|
            0 <= i < n ==> point_dlog(#[trigger] gens.G_vec@[i]) == hashed_point_dlog(
                g_vec_input(i as nat),
            ),
        forall|i: int|
            0 <= i < n ==> point_dlog(#[trigger] gens.H_vec@[i]) == hashed_point_dlog(
                h_vec_input(i as nat),
            ),
        point_dlog(gens.G) == hashed_point_dlog(blinding_label()),
        forall|i: int| 0 <= i < n ==> 0 <= #[trigger] point_dlog(gens.G_vec@[i]) < group_order(),
        forall|i: int| 0 <= i < n ==> 0 <= #[trigger] point_dlog(gens.H_vec@[i]) < group_order(),
        0 <= point_dlog(gens.G) < group_order(),
{
    let g_prefix = "G_vec_".as_bytes();
    let h_prefix = "H_vec_".as_bytes();
    let blinding = "G_blinding".as_bytes();
    proof {
        reveal_strlit("G_vec_");
        reveal_strlit("H_vec_");
        reveal_strlit("G_blinding");
        vstd::string::is_ascii_spec_bytes("G_vec_");
        vstd::string::is_ascii_spec_bytes("H_vec_");
        vstd::string::is_ascii_spec_bytes("G_blinding");
        assert(g_prefix@ =~= g_vec_prefix());
        assert(h_prefix@ =~= h_vec_prefix());
        assert(blinding@ =~= blinding_label());
    }
    let mut G_vec: Vec<RistrettoPoint> = Vec::with_capacity(n);
    let mut H_vec: Vec<RistrettoPoint> = Vec::with_capacity(n);
    let mut i: usize = 0;
    while i < n
        invariant
            0 <= i <= n,
            g_prefix@ == g_vec_prefix(),
            h_prefix@ == h_vec_prefix(),
            G_vec@.len() == i,
            H_vec@.len() == i,
            forall|j: int|
                0 <= j < i ==> point_dlog(#[trigger] G_vec@[j]) == hashed_point_dlog(
                    g_vec_input(j as nat),
                ),
            forall|j: int|
                0 <= j < i ==> point_dlog(#[trigger] H_vec@[j]) == hashed_point_dlog(
                    h_vec_input(j as nat),
                ),
            forall|j: int| 0 <= j < i ==> 0 <= #[trigger] point_dlog(G_vec@[j]) < group_order(),
            forall|j: int| 0 <= j < i ==> 0 <= #[trigger] point_dlog(H_vec@[j]) < group_order(),
        decreases n - i,
    {
        let Gi_input = labelled_index(g_prefix, i);
        let Gi = hash_to_point(Gi_input.as_slice());
        G_vec.push(Gi);
        let Hi_input = labelled_index(h_prefix, i);
        let Hi = hash_to_point(Hi_input.as_slice());
        H_vec.push(Hi);
        i = i + 1;
    }
    let G = hash_to_point(blinding);
    Generators { G_vec, H_vec, G }
}

/// Helper function to compute inner product of two vectors
///
/// Calculates the sum of element-wise products a_i * b_i, modulo ℓ.
/// The vectors must have the same length.
pub fn inner_product(a: &[Scalar], b: &[Scalar]) -> (c: Scalar)
    requires
        a@.len() == b@.len(),
    ensures
        scalar_value(c) == reduce(dot(scalar_values(a@), scalar_values(b@))),
{
    let ghost av = scalar_values(a@);
    let ghost bv = scalar_values(b@);
    let mut result = scalar_from_u64(0);
    let mut i: usize = 0;
    proof {
        lemma_reduce_range(0);
    }
    while i < a.len()
        invariant
            0 <= i <= a@.len(),
            a@.len() == b@.len(),
            av == scalar_values(a@),
            bv == scalar_values(b@),
            scalar_value(result) == reduce(dot_off(av, 0, bv, 0, i as nat)),
        decreases a@.len() - i,
    {
        let t = scalar_mul(&a[i], &b[i]);
        result = scalar_add(&result, &t);
        proof {
            let s = dot_off(av, 0, bv, 0, i as nat);
            assert(av[i as int] == scalar_value(a@[i as int]));
            assert(bv[i as int] == scalar_value(b@[i as int]));
            lemma_reduce_add(s, av[i as int] * bv[i as int]);
            lemma_reduce_add(reduce(s), av[i as int] * bv[i as int]);
            assert(dot_off(av, 0, bv, 0, (i + 1) as nat) == s + av[i as int] * bv[i as int]);
        }
        i = i + 1;
    }
    result
}

/// Compute a Pedersen vector commitment to vectors a and b with blinding factor r
///
/// Creates a commitment of the form:
/// P = Sum(a_i * G_i + b_i * H_i) + r * G
///
/// This commitment hides the vectors a and b while allowing proofs about their properties.
/// The blinding factor r ensures the commitment is hiding. The vectors must have the
/// length of each other and of the generator vectors.
pub fn pedersen_vector_commitment(a: &[Scalar], b: &[Scalar], r: Scalar, gens: &Generators) -> (P: RistrettoPoint)
    requires
        a@.len() == b@.len(),
        a@.len() == gens.G_vec@.len(),
        a@.len() == gens.H_vec@.len(),
    ensures
        point_dlog(P) == reduce(
            commitment_value(
                scalar_values(a@),
                scalar_values(b@),
                scalar_value(r),
                point_dlogs(gens.G_vec@),
                point_dlogs(gens.H_vec@),
                point_dlog(gens.G),
            ),
        ),
{
    let ghost av = scalar_values(a@);
    let ghost bv = scalar_values(b@);
    let ghost gv = point_dlogs(gens.G_vec@);
    let ghost hv = point_dlogs(gens.H_vec@);
    let n = a.len();
    // The terms a_i*G_i, then b_i*H_i, then r*G, summed by one multiscalar multiplication
    let mut scalars: Vec<Scalar> = Vec::new();
    let mut points: Vec<RistrettoPoint> = Vec::new();
    proof {
        assert(scalar_values(scalars@) =~= Seq::<int>::empty());
        assert(point_dlogs(points@) =~= Seq::<int>::empty());
    }
    let mut i: usize = 0;
    while i < n
        invariant
            0 <= i <= n,
            n == a@.len(),
            a@.len() == b@.len(),
            a@.len() == gens.G_vec@.len(),
            a@.len() == gens.H_vec@.len(),
            av == scalar_values(a@),
            gv == point_dlogs(gens.G_vec@),
            scalars@.len() == i,
            points@.len() == i,
            dot(scalar_values(scalars@), point_dlogs(points@)) == dot_off(av, 0, gv, 0, i as nat),
        decreases n - i,
    {
        let ghost s0 = scalar_values(scalars@);
        let ghost p0 = point_dlogs(points@);
        scalars.push(a[i]);
        points.push(gens.G_vec[i]);
        proof {
            assert(av[i as int] == scalar_value(a@[i as int]));
            assert(gv[i as int] == point_dlog(gens.G_vec@[i as int]));
            assert(scalar_values(scalars@) =~= s0.push(av[i as int]));
            assert(point_dlogs(points@) =~= p0.push(gv[i as int]));
            lemma_dot_push(s0, p0, av[i as int], gv[i as int]);
        }
        i = i + 1;
    }
    let ghost d1 = dot_off(av, 0, gv, 0, n as nat);
    i = 0;
    while i < n
        invariant
            0 <= i <= n,
            n == a@.len(),
            a@.len() == b@.len(),
            a@.len() == gens.H_vec@.len(),
            bv == scalar_values(b@),
            hv == point_dlogs(gens.H_vec@),
            scalars@.len() == n + i,
            points@.len() == n + i,
            dot(scalar_values(scalars@), point_dlogs(points@)) == d1 + dot_off(bv, 0, hv, 0, i as nat),
        decreases n - i,
    {
        let ghost s0 = scalar_values(scalars@);
        let ghost p0 = point_dlogs(points@);
        scalars.push(b[i]);
        points.push(gens.H_vec[i]);
        proof {
            assert(bv[i as int] == scalar_value(b@[i as int]));
            assert(hv[i as int] == point_dlog(gens.H_vec@[i as int]));
            assert(scalar_values(scalars@) =~= s0.push(bv[i as int]));
            assert(point_dlogs(points@) =~= p0.push(hv[i as int]));
            lemma_dot_push(s0, p0, bv[i as int], hv[i as int]);
        }
        i = i + 1;
    }
    let ghost s0 = scalar_values(scalars@);
    let ghost p0 = point_dlogs(points@);
    scalars.push(r);
    points.push(gens.G);
    proof {
        assert(scalar_values(scalars@) =~= s0.push(scalar_value(r)));
        assert(point_dlogs(points@) =~= p0.push(point_dlog(gens.G)));
        lemma_dot_push(s0, p0, scalar_value(r), point_dlog(gens.G));
        assert(av.len() == a@.len() && bv.len() == b@.len());
    }
    point_multiscalar_mul(scalars.as_slice(), points.as_slice())
}

/// Perfect hiding of the commitment: where the blinding base `G` is not the identity (its
/// discrete logarithm `gamma` has an inverse modulo ℓ), for every blinding factor `r` of a
/// commitment to `(a, b)` and every other pair `(a2, b2)` there is exactly one blinding
/// factor `r2` in `[0, ℓ)` with which `(a2, b2)` has the same commitment. A uniformly
/// random blinding factor therefore gives a commitment whose distribution does not depend
/// on the committed vectors.
pub proof fn lemma_commitment_hiding(
    a: Seq<int>,
    b: Seq<int>,
    r: int,
    a2: Seq<int>,
    b2: Seq<int>,
    g: Seq<int>,
    h: Seq<int>,
    gamma: int,
)
    requires
        exists|v: int| #[trigger] reduce(gamma * v) == 1,
    ensures
        exists|r2: int|
            0 <= r2 < group_order() && #[trigger] reduce(commitment_value(a2, b2, r2, g, h, gamma))
                == reduce(commitment_value(a, b, r, g, h, gamma)),
        forall|r2: int, r3: int|
            0 <= r2 < group_order() && 0 <= r3 < group_order() && #[trigger] reduce(
                commitment_value(a2, b2, r2, g, h, gamma),
            ) == reduce(commitment_value(a, b, r, g, h, gamma)) && #[trigger] reduce(
                commitment_value(a2, b2, r3, g, h, gamma),
            ) == reduce(commitment_value(a, b, r, g, h, gamma)) ==> r2 == r3,
{
    let v = choose|v: int| #[trigger] reduce(gamma * v) == 1;
    let c1 = commitment_value(a, b, r, g, h, gamma);
    let d2 = dot(a2, g) + dot(b2, h);
    // the matching blinding factor: r2 = (c1 - d2)·γ⁻¹
    let r2 = reduce((c1 - d2) * v);
    lemma_reduce_range((c1 - d2) * v);
    lemma_reduce_mul((c1 - d2) * v, gamma);
    assert((c1 - d2) * v * gamma == (c1 - d2) * (gamma * v)) by (nonlinear_arith);
    lemma_reduce_mul(c1 - d2, gamma * v);
    assert((c1 - d2) * 1 == c1 - d2);
    assert(reduce(r2 * gamma) == reduce(c1 - d2));
    lemma_reduce_add(d2, r2 * gamma);
    lemma_reduce_add(d2, c1 - d2);
    assert(d2 + (c1 - d2) == c1);
    assert(commitment_value(a2, b2, r2, g, h, gamma) == d2 + r2 * gamma);
    assert(0 <= r2 < group_order() && reduce(commitment_value(a2, b2, r2, g, h, gamma)) == reduce(c1));
    // it is the only one: r3·γ ≡ r4·γ gives r3 ≡ r4
    assert forall|r3: int, r4: int|
        0 <= r3 < group_order() && 0 <= r4 < group_order() && #[trigger] reduce(
            commitment_value(a2, b2, r3, g, h, gamma),
        ) == reduce(c1) && #[trigger] reduce(commitment_value(a2, b2, r4, g, h, gamma)) == reduce(c1)
        implies r3 == r4 by {
        let e3 = commitment_value(a2, b2, r3, g, h, gamma);
        let e4 = commitment_value(a2, b2, r4, g, h, gamma);
        assert(e3 - e4 == (r3 - r4) * gamma) by (nonlinear_arith)
            requires
                e3 == d2 + r3 * gamma,
                e4 == d2 + r4 * gamma,
        ;
        lemma_reduce_sub(e3, e4);
        lemma_reduce_mul((r3 - r4) * gamma, v);
        assert(reduce(0 * v) == 0) by {
            assert(0 * v == 0);
            lemma_reduce_small(0);
        }
        assert((r3 - r4) * gamma * v == (r3 - r4) * (gamma * v)) by (nonlinear_arith);
        lemma_reduce_mul(r3 - r4, gamma * v);
        assert((r3 - r4) * 1 == r3 - r4);
        lemma_congruent_in_range(r3, r4);
    }
}

} // verus!

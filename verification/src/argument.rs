//! The inner product argument: generating and verifying logarithmic-sized proofs.
#![allow(non_snake_case)]
use vstd::prelude::*;
use vstd::arithmetic::power2::{pow2, lemma_pow2_unfold, lemma_pow2_pos, lemma2_to64};
use curve25519_dalek::ristretto::RistrettoPoint;
use curve25519_dalek::scalar::Scalar;
use merlin::Transcript;
use crate::algebra::{
    dot, dot_off, fold, group_order, inverse, lemma_dot_push, lemma_inverse_unique,
    lemma_reduce_accumulate, lemma_reduce_add, lemma_reduce_mul, lemma_reduce_range,
    lemma_reduce_small, reduce, weight, weighted_sum,
};
use crate::commit::{Generators, commitment_value, hash_to_point, inner_product, pedersen_vector_commitment};
use crate::group::{
    hashed_point_dlog, point_add, point_dlog, point_dlogs, point_eq, point_identity, point_mul,
    point_multiscalar_mul, point_vartime_multiscalar_mul, scalar_add, scalar_eq, scalar_from_u64,
    scalar_invert, scalar_mul, scalar_random, scalar_value, scalar_values,
};
use crate::protocol::{
    IppState, c_label, dom_sep_label, folded_cross_terms, inverses, ipp_accepts, ipp_run,
    ipp_start, l_label, lemma_ipp_complete, lemma_run_lengths, lemma_run_transcript, p_label,
    protocol_label, r_label, rounds_start, scaled_base, statement_challenge, u_label, verifier_challenges,
    verifier_state, w_label, x_label,
};
use crate::transcript::{TranscriptProtocol, transcript_state};

verus! {

/// Complete proof for inner product argument
///
/// This structure contains all the elements needed to verify
/// an inner product relation. The proof size scales logarithmically
/// with the size of the committed vectors.
#[derive(Clone, Debug)]
pub struct InnerProductProof {
    /// L points from each round of the protocol
    pub L_vec: Vec<RistrettoPoint>,
    /// R points from each round of the protocol
    pub R_vec: Vec<RistrettoPoint>,
    /// Final value of a after compression
    pub a_final: Scalar,
    /// Final value of b after compression
    pub b_final: Scalar,
    /// Final blinding factor after compression
    pub r_final: Scalar,
}

fn label_dom_sep() -> (l: &'static [u8])
    ensures
        l@ == dom_sep_label(),
{
    let l = "dom-sep".as_bytes();
    proof {
        reveal_strlit("dom-sep");
        vstd::string::is_ascii_spec_bytes("dom-sep");
        assert(l@ =~= dom_sep_label());
    }
    l
}

fn label_protocol() -> (l: &'static [u8])
    ensures
        l@ == protocol_label(),
{
    let l = "inner-product-proof".as_bytes();
    proof {
        reveal_strlit("inner-product-proof");
        vstd::string::is_ascii_spec_bytes("inner-product-proof");
        assert(l@ =~= protocol_label());
    }
    l
}

fn label_l() -> (l: &'static [u8])
    ensures
        l@ == l_label(),
{
    let l = "L".as_bytes();
    proof {
        reveal_strlit("L");
        vstd::string::is_ascii_spec_bytes("L");
        assert(l@ =~= l_label());
    }
    l
}

fn label_r() -> (l: &'static [u8])
    ensures
        l@ == r_label(),
{
    let l = "R".as_bytes();
    proof {
        reveal_strlit("R");
        vstd::string::is_ascii_spec_bytes("R");
        assert(l@ =~= r_label());
    }
    l
}

fn label_x() -> (l: &'static [u8])
    ensures
        l@ == x_label(),
{
    let l = "x".as_bytes();
    proof {
        reveal_strlit("x");
        vstd::string::is_ascii_spec_bytes("x");
        assert(l@ =~= x_label());
    }
    l
}

fn label_p() -> (l: &'static [u8])
    ensures
        l@ == p_label(),
{
    let l = "P".as_bytes();
    proof {
        reveal_strlit("P");
        vstd::string::is_ascii_spec_bytes("P");
        assert(l@ =~= p_label());
    }
    l
}

fn label_c() -> (l: &'static [u8])
    ensures
        l@ == c_label(),
{
    let l = "c".as_bytes();
    proof {
        reveal_strlit("c");
        vstd::string::is_ascii_spec_bytes("c");
        assert(l@ =~= c_label());
    }
    l
}

fn label_w() -> (l: &'static [u8])
    ensures
        l@ == w_label(),
{
    let l = "w".as_bytes();
    proof {
        reveal_strlit("w");
        vstd::string::is_ascii_spec_bytes("w");
        assert(l@ =~= w_label());
    }
    l
}

/// The base `U` that carries the inner product in the argument, derived by hashing the
/// label `"inner-product-U"`.
pub fn inner_product_base() -> (U: RistrettoPoint)
    ensures
        point_dlog(U) == hashed_point_dlog(u_label()),
{
    let l = "inner-product-U".as_bytes();
    proof {
        reveal_strlit("inner-product-U");
        vstd::string::is_ascii_spec_bytes("inner-product-U");
        assert(l@ =~= u_label());
    }
    hash_to_point(l)
}

/// The cross term `Σ_{i<k} (a[oa+i]·G[og+i] + b[ob+i]·H[oh+i]) + (Σ_{i<k} a[oa+i]·b[ob+i])·U + blind·base`,
/// computed as one multiscalar multiplication.
fn cross_term(
    a: &Vec<Scalar>,
    oa: usize,
    b: &Vec<Scalar>,
    ob: usize,
    G_vec: &Vec<RistrettoPoint>,
    og: usize,
    H_vec: &Vec<RistrettoPoint>,
    oh: usize,
    k: usize,
    blind: &Scalar,
    base: &RistrettoPoint,
    U: &RistrettoPoint,
) -> (p: RistrettoPoint)
    requires
        oa + k <= a.len(),
        ob + k <= b.len(),
        og + k <= G_vec.len(),
        oh + k <= H_vec.len(),
    ensures
        point_dlog(p) == reduce(
            dot_off(scalar_values(a@), oa as int, point_dlogs(G_vec@), og as int, k as nat) + dot_off(
                scalar_values(b@),
                ob as int,
                point_dlogs(H_vec@),
                oh as int,
                k as nat,
            ) + dot_off(scalar_values(a@), oa as int, scalar_values(b@), ob as int, k as nat)
                * point_dlog(*U) + scalar_value(*blind) * point_dlog(*base),
        ),
{
    let ghost av = scalar_values(a@);
    let ghost bv = scalar_values(b@);
    let ghost gv = point_dlogs(G_vec@);
    let ghost hv = point_dlogs(H_vec@);
    let mut scalars: Vec<Scalar> = Vec::new();
    let mut points: Vec<RistrettoPoint> = Vec::new();
    let mut c = scalar_from_u64(0);
    proof {
        lemma_reduce_range(0);
        assert(scalar_values(scalars@) =~= Seq::<int>::empty());
        assert(point_dlogs(points@) =~= Seq::<int>::empty());
    }
    let mut i: usize = 0;
    // a_i·G_i and the inner product of the two halves
    while i < k
        invariant
            0 <= i <= k,
            oa + k <= a.len(),
            ob + k <= b.len(),
            og + k <= G_vec.len(),
            oh + k <= H_vec.len(),
            av == scalar_values(a@),
            bv == scalar_values(b@),
            gv == point_dlogs(G_vec@),
            hv == point_dlogs(H_vec@),
            scalars@.len() == i,
            points@.len() == i,
            dot(scalar_values(scalars@), point_dlogs(points@)) == dot_off(
                av,
                oa as int,
                gv,
                og as int,
                i as nat,
            ),
            scalar_value(c) == reduce(dot_off(av, oa as int, bv, ob as int, i as nat)),
        decreases k - i,
    {
        let ghost s0 = scalar_values(scalars@);
        let ghost p0 = point_dlogs(points@);
        scalars.push(a[oa + i]);
        points.push(G_vec[og + i]);
        let ab = scalar_mul(&a[oa + i], &b[ob + i]);
        c = scalar_add(&c, &ab);
        proof {
            let ai = av[oa + i];
            let bi = bv[ob + i];
            assert(ai == scalar_value(a@[oa + i]));
            assert(bi == scalar_value(b@[ob + i]));
            assert(gv[og + i] == point_dlog(G_vec@[og + i]));
            assert(scalar_values(scalars@) =~= s0.push(ai));
            assert(point_dlogs(points@) =~= p0.push(gv[og + i]));
            lemma_dot_push(s0, p0, ai, gv[og + i]);
            let d = dot_off(av, oa as int, bv, ob as int, i as nat);
            lemma_reduce_add(d, ai * bi);
            lemma_reduce_add(reduce(d), ai * bi);
            lemma_reduce_add(d, reduce(ai * bi));
        }
        i = i + 1;
    }
    let ghost d1 = dot_off(av, oa as int, gv, og as int, k as nat);
    i = 0;
    // b_i·H_i
    while i < k
        invariant
            0 <= i <= k,
            oa + k <= a.len(),
            ob + k <= b.len(),
            og + k <= G_vec.len(),
            oh + k <= H_vec.len(),
            av == scalar_values(a@),
            bv == scalar_values(b@),
            gv == point_dlogs(G_vec@),
            hv == point_dlogs(H_vec@),
            scalars@.len() == k + i,
            points@.len() == k + i,
            d1 == dot_off(av, oa as int, gv, og as int, k as nat),
            dot(scalar_values(scalars@), point_dlogs(points@)) == d1 + dot_off(
                bv,
                ob as int,
                hv,
                oh as int,
                i as nat,
            ),
        decreases k - i,
    {
        let ghost s0 = scalar_values(scalars@);
        let ghost p0 = point_dlogs(points@);
        scalars.push(b[ob + i]);
        points.push(H_vec[oh + i]);
        proof {
            let bi = bv[ob + i];
            assert(bi == scalar_value(b@[ob + i]));
            assert(hv[oh + i] == point_dlog(H_vec@[oh + i]));
            assert(scalar_values(scalars@) =~= s0.push(bi));
            assert(point_dlogs(points@) =~= p0.push(hv[oh + i]));
            lemma_dot_push(s0, p0, bi, hv[oh + i]);
        }
        i = i + 1;
    }
    let ghost s0 = scalar_values(scalars@);
    let ghost p0 = point_dlogs(points@);
    scalars.push(c);
    points.push(*U);
    let ghost s1 = scalar_values(scalars@);
    let ghost p1 = point_dlogs(points@);
    scalars.push(*blind);
    points.push(*base);
    proof {
        assert(s1 =~= s0.push(scalar_value(c)));
        assert(p1 =~= p0.push(point_dlog(*U)));
        lemma_dot_push(s0, p0, scalar_value(c), point_dlog(*U));
        assert(scalar_values(scalars@) =~= s1.push(scalar_value(*blind)));
        assert(point_dlogs(points@) =~= p1.push(point_dlog(*base)));
        lemma_dot_push(s1, p1, scalar_value(*blind), point_dlog(*base));
        let d2 = dot_off(bv, ob as int, hv, oh as int, k as nat);
        let d3 = dot_off(av, oa as int, bv, ob as int, k as nat);
        let u = point_dlog(*U);
        let bg = scalar_value(*blind) * point_dlog(*base);
        // reduce(d3)·u ≡ d3·u
        lemma_reduce_mul(d3, u);
        lemma_reduce_add(d1 + d2 + bg, reduce(d3) * u);
        lemma_reduce_add(d1 + d2 + bg, d3 * u);
        assert(d1 + d2 + reduce(d3) * u + bg == (d1 + d2 + bg) + reduce(d3) * u);
        assert(d1 + d2 + d3 * u + bg == (d1 + d2 + bg) + d3 * u);
    }
    point_multiscalar_mul(scalars.as_slice(), points.as_slice())
}

/// Folds a scalar vector of even length: entry `i` becomes `p·v[i] + q·v[n/2 + i]`.
fn fold_scalars(v: &Vec<Scalar>, p: &Scalar, q: &Scalar) -> (w: Vec<Scalar>)
    ensures
        scalar_values(w@) == fold(scalar_values(v@), scalar_value(*p), scalar_value(*q)),
{
    let h = v.len() / 2;
    let ghost vv = scalar_values(v@);
    let ghost target = fold(vv, scalar_value(*p), scalar_value(*q));
    let mut w: Vec<Scalar> = Vec::with_capacity(h);
    let mut i: usize = 0;
    while i < h
        invariant
            0 <= i <= h,
            h == v.len() / 2,
            vv == scalar_values(v@),
            target == fold(vv, scalar_value(*p), scalar_value(*q)),
            w@.len() == i,
            forall|j: int| 0 <= j < i ==> scalar_value(#[trigger] w@[j]) == target[j],
        decreases h - i,
    {
        let lo = scalar_mul(p, &v[i]);
        let hi = scalar_mul(q, &v[h + i]);
        let s = scalar_add(&lo, &hi);
        w.push(s);
        proof {
            let x = scalar_value(*p) * vv[i as int];
            let y = scalar_value(*q) * vv[h + i];
            assert(vv[i as int] == scalar_value(v@[i as int]));
            assert(vv[h + i] == scalar_value(v@[h + i]));
            lemma_reduce_add(x, y);
            assert(target[i as int] == reduce(x + y));
        }
        i = i + 1;
    }
    assert(scalar_values(w@) =~= target);
    w
}

/// Folds a point vector of even length: entry `i` becomes `p·v[i] + q·v[n/2 + i]`.
/// The points and factors it is used on (generators and challenges) are public, so the
/// variable-time multiplication is used.
fn fold_points(v: &Vec<RistrettoPoint>, p: &Scalar, q: &Scalar) -> (w: Vec<RistrettoPoint>)
    ensures
        point_dlogs(w@) == fold(point_dlogs(v@), scalar_value(*p), scalar_value(*q)),
{
    let h = v.len() / 2;
    let ghost vv = point_dlogs(v@);
    let ghost target = fold(vv, scalar_value(*p), scalar_value(*q));
    let mut w: Vec<RistrettoPoint> = Vec::with_capacity(h);
    let mut i: usize = 0;
    while i < h
        invariant
            0 <= i <= h,
            h == v.len() / 2,
            vv == point_dlogs(v@),
            target == fold(vv, scalar_value(*p), scalar_value(*q)),
            w@.len() == i,
            forall|j: int| 0 <= j < i ==> point_dlog(#[trigger] w@[j]) == target[j],
        decreases h - i,
    {
        let factors = vec![*p, *q];
        let pair = vec![v[i], v[h + i]];
        let s = point_vartime_multiscalar_mul(factors.as_slice(), pair.as_slice());
        w.push(s);
        proof {
            let x = scalar_value(*p) * vv[i as int];
            let y = scalar_value(*q) * vv[h + i];
            assert(vv[i as int] == point_dlog(v@[i as int]));
            assert(vv[h + i] == point_dlog(v@[h + i]));
            let fs = scalar_values(factors@);
            let ps = point_dlogs(pair@);
            assert(fs[0] == scalar_value(*p) && fs[1] == scalar_value(*q));
            assert(ps[0] == vv[i as int] && ps[1] == vv[h + i]);
            assert(dot_off(fs, 0, ps, 0, 2) == dot_off(fs, 0, ps, 0, 1) + fs[1] * ps[1]);
            assert(dot_off(fs, 0, ps, 0, 1) == dot_off(fs, 0, ps, 0, 0) + fs[0] * ps[0]);
            assert(fs.len() == 2);
            assert(target[i as int] == reduce(x + y));
        }
        i = i + 1;
    }
    assert(point_dlogs(w@) =~= target);
    w
}

/// The inverse of a scalar is `inverse` of its value.
fn invert_challenge(x: &Scalar) -> (y: Scalar)
    ensures
        scalar_value(y) == inverse(scalar_value(*x)),
        reduce(scalar_value(*x)) != 0 ==> reduce(scalar_value(*x) * inverse(scalar_value(*x))) == 1,
{
    let y = scalar_invert(x);
    proof {
        let xv = scalar_value(*x);
        if reduce(xv) != 0 {
            lemma_inverse_unique(xv, scalar_value(y));
        } else {
            // no y has x·y ≡ 1 when x ≡ 0
            assert forall|z: int| 0 <= z < group_order() implies #[trigger] reduce(xv * z) != 1 by {
                lemma_reduce_mul(xv, z);
                assert(reduce(xv) * z == 0);
            }
        }
    }
    y
}

/// The discrete logarithm of the commitment to `(a, b)` with blinding factor `r`.
pub open spec fn commitment_of(a: Seq<Scalar>, b: Seq<Scalar>, r: Scalar, gens: Generators) -> int {
    reduce(
        commitment_value(
            scalar_values(a),
            scalar_values(b),
            scalar_value(r),
            point_dlogs(gens.G_vec@),
            point_dlogs(gens.H_vec@),
            point_dlog(gens.G),
        ),
    )
}

/// The inner product `⟨a, b⟩` modulo ℓ.
pub open spec fn inner_product_of(a: Seq<Scalar>, b: Seq<Scalar>) -> int {
    reduce(dot(scalar_values(a), scalar_values(b)))
}

/// The prover's state before its first round, on a transcript that was in state `s0`:
/// the statement (the commitment to `(a, b, r)` and `⟨a, b⟩`) has been absorbed and `w`
/// drawn.
pub open spec fn prover_start(a: Seq<Scalar>, b: Seq<Scalar>, r: Scalar, gens: Generators, s0: Seq<u8>) -> IppState {
    ipp_start(
        scalar_values(a),
        scalar_values(b),
        point_dlogs(gens.G_vec@),
        point_dlogs(gens.H_vec@),
        scalar_value(r),
        rounds_start(s0, commitment_of(a, b, r, gens), inner_product_of(a, b)),
    )
}

/// The discrete logarithm of the base `w·U` that the prover uses.
pub open spec fn prover_base(a: Seq<Scalar>, b: Seq<Scalar>, r: Scalar, gens: Generators, s0: Seq<u8>) -> int {
    scaled_base(s0, commitment_of(a, b, r, gens), inner_product_of(a, b), hashed_point_dlog(u_label()))
}

/// The run of the prover, in the mathematical description, on the values that the
/// arguments hold, with blinding factors `bl`, `br` for the rounds' `L` and `R`.
pub open spec fn prover_run(
    a: Seq<Scalar>,
    b: Seq<Scalar>,
    r: Scalar,
    gens: Generators,
    s0: Seq<u8>,
    bl: Seq<int>,
    br: Seq<int>,
) -> IppState {
    ipp_run(
        prover_start(a, b, r, gens, s0),
        bl,
        br,
        point_dlog(gens.G),
        prover_base(a, b, r, gens, s0),
        bl.len(),
    )
}

/// The proof holds what the prover's final state records.
pub open spec fn proof_records(proof: InnerProductProof, st: IppState) -> bool {
    &&& point_dlogs(proof.L_vec@) == st.ls
    &&& point_dlogs(proof.R_vec@) == st.rs
    &&& scalar_value(proof.a_final) == st.a[0]
    &&& scalar_value(proof.b_final) == st.b[0]
    &&& scalar_value(proof.r_final) == st.r
}

proof fn lemma_pow2_exceeds(e: nat)
    ensures
        e < pow2(e),
    decreases e,
{
    if e == 0 {
        lemma2_to64();
    } else {
        lemma_pow2_exceeds((e - 1) as nat);
        lemma_pow2_unfold(e);
        lemma_pow2_pos((e - 1) as nat);
    }
}

proof fn lemma_pow2_one(e: nat)
    requires
        pow2(e) == 1,
    ensures
        e == 0,
{
    if e > 0 {
        lemma_pow2_unfold(e);
        lemma_pow2_pos((e - 1) as nat);
    }
}

/// Generate a proof that vectors a and b satisfy an inner product relation, with the
/// blinding factors of the rounds' `L` and `R` points given.
///
/// The transcript first absorbs the domain separator, the commitment
/// `P = ⟨a, G⟩ + ⟨b, H⟩ + r·G` under `"P"` and the inner product `c = ⟨a, b⟩` under
/// `"c"`, and yields the challenge `w`; the base that carries inner products is then
/// `w·U`. The protocol recursively halves the vectors. In each round, with `n` the
/// current length, it commits to the cross terms
/// `L = ⟨a_lo, G_hi⟩ + ⟨b_hi, H_lo⟩ + ⟨a_lo, b_hi⟩·wU + r_L·G` and
/// `R = ⟨a_hi, G_lo⟩ + ⟨b_lo, H_hi⟩ + ⟨a_hi, b_lo⟩·wU + r_R·G`, appends them to the
/// transcript, draws the challenge `x` and folds
/// `a' = x·a_lo + x⁻¹·a_hi`, `b' = x⁻¹·b_lo + x·b_hi`, `G' = x⁻¹·G_lo + x·G_hi`,
/// `H' = x·H_lo + x⁻¹·H_hi` and `r' = r + x²·r_L + x⁻²·r_R`.
///
/// The vectors must have the length of the generator vectors, and that length must be
/// `2^k` where `k` is the number of blinding factors given for each of `L` and `R`.
pub fn generate_inner_product_proof_with_blinding(
    a: Vec<Scalar>,
    b: Vec<Scalar>,
    r: Scalar,
    gens: &Generators,
    transcript: &mut Transcript,
    blinds_l: &[Scalar],
    blinds_r: &[Scalar],
) -> (proof: InnerProductProof)
    requires
        a@.len() == b@.len(),
        a@.len() == gens.G_vec@.len(),
        a@.len() == gens.H_vec@.len(),
        blinds_r@.len() == blinds_l@.len(),
        a@.len() == pow2(blinds_l@.len() as nat),
    ensures
        proof_records(
            proof,
            prover_run(
                a@,
                b@,
                r,
                *gens,
                transcript_state(*old(transcript)),
                scalar_values(blinds_l@),
                scalar_values(blinds_r@),
            ),
        ),
        transcript_state(*final(transcript)) == prover_run(
            a@,
            b@,
            r,
            *gens,
            transcript_state(*old(transcript)),
            scalar_values(blinds_l@),
            scalar_values(blinds_r@),
        ).state,
{
    let ghost s0 = transcript_state(*transcript);
    let ghost bl = scalar_values(blinds_l@);
    let ghost br = scalar_values(blinds_r@);
    let ghost gamma = point_dlog(gens.G);
    let ghost u = prover_base(a@, b@, r, *gens, s0);
    let ghost k = blinds_l@.len() as nat;
    let ghost st0 = prover_start(a@, b@, r, *gens, s0);
    // The statement: the commitment and the inner product
    let P = pedersen_vector_commitment(a.as_slice(), b.as_slice(), r, gens);
    let c = inner_product(a.as_slice(), b.as_slice());
    transcript.append_message(label_dom_sep(), label_protocol());
    transcript.append_point(label_p(), &P.compress());
    transcript.append_message(label_c(), c.as_bytes());
    let w = transcript.challenge_scalar(label_w());
    let U = inner_product_base();
    let wU = point_mul(&w, &U);
    let mut a = a;
    let mut b = b;
    let mut r = r;
    let mut G_vec = gens.G_vec.clone();
    let mut H_vec = gens.H_vec.clone();
    proof {
        assert(G_vec@ =~= gens.G_vec@);
        assert(H_vec@ =~= gens.H_vec@);
    }
    let mut L_vec: Vec<RistrettoPoint> = Vec::new();
    let mut R_vec: Vec<RistrettoPoint> = Vec::new();
    let mut j: usize = 0;
    proof {
        assert(point_dlogs(L_vec@) =~= st0.ls);
        assert(point_dlogs(R_vec@) =~= st0.rs);
        assert((k - 0) as nat == k);
    }
    while a.len() > 1
        invariant
            j <= k,
            k == blinds_l@.len(),
            blinds_r@.len() == k,
            bl == scalar_values(blinds_l@),
            br == scalar_values(blinds_r@),
            gamma == point_dlog(gens.G),
            point_dlog(wU) == u,
            st0 == ipp_start(st0.a, st0.b, st0.g, st0.h, st0.r, st0.state),
            st0.a.len() == pow2(k),
            st0.b.len() == pow2(k),
            st0.g.len() == pow2(k),
            st0.h.len() == pow2(k),
            scalar_values(a@) == ipp_run(st0, bl, br, gamma, u, j as nat).a,
            scalar_values(b@) == ipp_run(st0, bl, br, gamma, u, j as nat).b,
            point_dlogs(G_vec@) == ipp_run(st0, bl, br, gamma, u, j as nat).g,
            point_dlogs(H_vec@) == ipp_run(st0, bl, br, gamma, u, j as nat).h,
            scalar_value(r) == ipp_run(st0, bl, br, gamma, u, j as nat).r,
            point_dlogs(L_vec@) == ipp_run(st0, bl, br, gamma, u, j as nat).ls,
            point_dlogs(R_vec@) == ipp_run(st0, bl, br, gamma, u, j as nat).rs,
            transcript_state(*transcript) == ipp_run(st0, bl, br, gamma, u, j as nat).state,
            a@.len() == pow2((k - j) as nat),
            b@.len() == a@.len(),
            G_vec@.len() == a@.len(),
            H_vec@.len() == a@.len(),
        decreases a@.len(),
    {
        let ghost st = ipp_run(st0, bl, br, gamma, u, j as nat);
        proof {
            if j == k {
                assert((k - j) as nat == 0);
                assert(pow2(0) == 1) by {
                    lemma2_to64();
                }
            }
            assert(j < k);
            lemma_pow2_unfold((k - j) as nat);
            lemma_pow2_pos((k - j - 1) as nat);
        }
        let n = a.len();
        let h = n / 2;
        let rl = blinds_l[j];
        let rr = blinds_r[j];
        let L = cross_term(&a, 0, &b, h, &G_vec, h, &H_vec, 0, h, &rl, &gens.G, &wU);
        let R = cross_term(&a, h, &b, 0, &G_vec, 0, &H_vec, h, h, &rr, &gens.G, &wU);
        transcript.append_point(label_l(), &L.compress());
        transcript.append_point(label_r(), &R.compress());
        let x = transcript.challenge_scalar(label_x());
        let x_inv = invert_challenge(&x);
        let a_new = fold_scalars(&a, &x, &x_inv);
        let b_new = fold_scalars(&b, &x_inv, &x);
        let G_new = fold_points(&G_vec, &x_inv, &x);
        let H_new = fold_points(&H_vec, &x, &x_inv);
        a = a_new;
        b = b_new;
        G_vec = G_new;
        H_vec = H_new;
        let x2 = scalar_mul(&x, &x);
        let y2 = scalar_mul(&x_inv, &x_inv);
        let t1 = scalar_mul(&x2, &rl);
        let t2 = scalar_mul(&y2, &rr);
        let r1 = scalar_add(&r, &t1);
        r = scalar_add(&r1, &t2);
        L_vec.push(L);
        R_vec.push(R);
        proof {
            let xv = scalar_value(x);
            let yv = scalar_value(x_inv);
            let rlv = scalar_value(rl);
            let rrv = scalar_value(rr);
            assert(rlv == bl[j as int]);
            assert(rrv == br[j as int]);
            let sn = ipp_run(st0, bl, br, gamma, u, (j + 1) as nat);
            assert(sn == crate::protocol::ipp_round(st, bl[j as int], br[j as int], gamma, u));
            // r' = r + x²·r_l + y²·r_r
            lemma_reduce_mul(xv * xv, rlv);
            lemma_reduce_mul(yv * yv, rrv);
            lemma_reduce_add(st.r, xv * xv * rlv);
            lemma_reduce_add(st.r + xv * xv * rlv, yv * yv * rrv);
            assert(scalar_value(r) == sn.r);
            assert(point_dlogs(L_vec@) =~= sn.ls);
            assert(point_dlogs(R_vec@) =~= sn.rs);
            lemma_pow2_unfold((k - j) as nat);
            assert(scalar_values(a@).len() == a@.len());
            assert(scalar_values(b@).len() == b@.len());
            assert(point_dlogs(G_vec@).len() == G_vec@.len());
            assert(point_dlogs(H_vec@).len() == H_vec@.len());
            assert(st.a.len() == n);
            assert(a@.len() == n / 2);
            assert((k - (j + 1)) as nat == (k - j - 1) as nat);
        }
        j = j + 1;
    }
    proof {
        lemma_pow2_pos((k - j) as nat);
        lemma_pow2_one((k - j) as nat);
        assert(j == k);
    }
    InnerProductProof { L_vec, R_vec, a_final: a[0], b_final: b[0], r_final: r }
}

/// `n` is a power of two.
pub open spec fn is_power_of_two(n: nat) -> bool {
    exists|k: nat| #[trigger] pow2(k) == n
}

/// The proof is one that the prover produces for `(a, b, r)` and the generators, on a
/// transcript in state `s0`, for some blinding factors of the rounds; `s1` is the state
/// of the prover's transcript afterwards.
pub open spec fn is_honest_proof(
    proof: InnerProductProof,
    a: Seq<Scalar>,
    b: Seq<Scalar>,
    r: Scalar,
    gens: Generators,
    s0: Seq<u8>,
    s1: Seq<u8>,
) -> bool {
    exists|bl: Seq<int>, br: Seq<int>|
        #![trigger prover_run(a, b, r, gens, s0, bl, br)]
        {
            &&& bl.len() == br.len()
            &&& pow2(bl.len()) == a.len()
            &&& proof_records(proof, prover_run(a, b, r, gens, s0, bl, br))
            &&& s1 == prover_run(a, b, r, gens, s0, bl, br).state
        }
}

/// Generate a proof that vectors a and b satisfy an inner product relation
///
/// This function creates a logarithmic-sized proof that the prover knows vectors
/// a and b committed in P such that <a,b> = c, without revealing the vectors.
///
/// The protocol works by recursively compressing the vectors in half at each step,
/// generating proof elements L and R that allow the verifier to check correctness.
/// The blinding factors of the `L` and `R` points are drawn at random.
///
/// The vectors must have the same length as each other and as the generator vectors,
/// and that length must be a power of 2.
pub fn generate_inner_product_proof(
    a: Vec<Scalar>,
    b: Vec<Scalar>,
    r: Scalar,
    gens: &Generators,
    transcript: &mut Transcript,
) -> (proof: InnerProductProof)
    requires
        a@.len() == b@.len(),
        a@.len() == gens.G_vec@.len(),
        a@.len() == gens.H_vec@.len(),
        is_power_of_two(a@.len()),
    ensures
        pow2(proof.L_vec@.len() as nat) == a@.len(),
        proof.R_vec@.len() == proof.L_vec@.len(),
        is_honest_proof(
            proof,
            a@,
            b@,
            r,
            *gens,
            transcript_state(*old(transcript)),
            transcript_state(*final(transcript)),
        ),
        transcript_state(*final(transcript)) == verifier_state(
            rounds_start(
                transcript_state(*old(transcript)),
                commitment_of(a@, b@, r, *gens),
                inner_product_of(a@, b@),
            ),
            point_dlogs(proof.L_vec@),
            point_dlogs(proof.R_vec@),
            proof.L_vec@.len(),
        ),
{
    let ghost k0: nat = choose|k: nat| #[trigger] pow2(k) == a@.len();
    let n = a.len();
    let mut m = n;
    let mut k: usize = 0;
    proof {
        lemma_pow2_exceeds(k0);
    }
    while m > 1
        invariant
            k <= k0,
            k0 < n,
            m == pow2((k0 - k) as nat),
        decreases m,
    {
        proof {
            if k == k0 {
                assert(pow2(0) == 1) by {
                    lemma2_to64();
                }
            }
            lemma_pow2_unfold((k0 - k) as nat);
        }
        m = m / 2;
        k = k + 1;
        proof {
            assert((k0 - k) as nat == (k0 - (k - 1) - 1) as nat);
        }
    }
    proof {
        lemma_pow2_pos((k0 - k) as nat);
        lemma_pow2_one((k0 - k) as nat);
    }
    let mut blinds_l: Vec<Scalar> = Vec::with_capacity(k);
    let mut blinds_r: Vec<Scalar> = Vec::with_capacity(k);
    let mut i: usize = 0;
    while i < k
        invariant
            0 <= i <= k,
            blinds_l@.len() == i,
            blinds_r@.len() == i,
        decreases k - i,
    {
        blinds_l.push(scalar_random());
        blinds_r.push(scalar_random());
        i = i + 1;
    }
    let ghost s0 = transcript_state(*transcript);
    let proof = generate_inner_product_proof_with_blinding(
        a,
        b,
        r,
        gens,
        transcript,
        blinds_l.as_slice(),
        blinds_r.as_slice(),
    );
    proof {
        let bl = scalar_values(blinds_l@);
        let br = scalar_values(blinds_r@);
        lemma_run_lengths(
            prover_start(a@, b@, r, *gens, s0),
            bl,
            br,
            point_dlog(gens.G),
            prover_base(a@, b@, r, *gens, s0),
            bl.len(),
        );
        assert(point_dlogs(proof.L_vec@).len() == proof.L_vec@.len());
        assert(point_dlogs(proof.R_vec@).len() == proof.R_vec@.len());
        assert(bl.len() == k);
        lemma_transcripts_agree(proof, a@, b@, r, *gens, s0, transcript_state(*transcript));
    }
    proof
}

/// `2^k`, or `None` where it does not fit in a `usize`.
fn pow2_checked(k: usize) -> (n: Option<usize>)
    ensures
        match n {
            Some(v) => v == pow2(k as nat),
            None => pow2(k as nat) > usize::MAX,
        },
{
    let mut v: usize = 1;
    let mut i: usize = 0;
    proof {
        lemma2_to64();
    }
    while i < k
        invariant
            0 <= i <= k,
            v == pow2(i as nat),
        decreases k - i,
    {
        proof {
            lemma_pow2_unfold((i + 1) as nat);
        }
        if v > usize::MAX / 2 {
            proof {
                if i + 1 < k {
                    vstd::arithmetic::power2::lemma_pow2_strictly_increases((i + 1) as nat, k as nat);
                }
            }
            return None;
        }
        v = v * 2;
        i = i + 1;
    }
    Some(v)
}

/// Helper function to calculate final generators after folding
///
/// This function computes the effective generators after applying
/// all the challenge factors from the proof protocol:
/// `final_G = Σ_j s_j·G_j` and `final_H = Σ_j s_j⁻¹·H_j`, where bit `i` of `j`
/// selects `x` (when set) or `x⁻¹` (when clear) of challenge `lg_n - i - 1` for `s_j`,
/// and the other one for `s_j⁻¹`. Without challenges these are `G_0` and `H_0` themselves.
fn calculate_final_generators(
    gens: &Generators,
    challenges: &[Scalar],
    challenge_inverses: &[Scalar],
    lg_n: usize,
) -> (fin: (RistrettoPoint, RistrettoPoint))
    requires
        challenges@.len() == lg_n,
        challenge_inverses@.len() == lg_n,
        gens.G_vec@.len() == pow2(lg_n as nat),
        gens.H_vec@.len() == pow2(lg_n as nat),
    ensures
        lg_n == 0 ==> fin.0 == gens.G_vec@[0] && fin.1 == gens.H_vec@[0],
        lg_n > 0 ==> point_dlog(fin.0) == reduce(
            weighted_sum(
                point_dlogs(gens.G_vec@),
                scalar_values(challenges@),
                scalar_values(challenge_inverses@),
                1,
                0,
                pow2(lg_n as nat),
            ),
        ),
        lg_n > 0 ==> point_dlog(fin.1) == reduce(
            weighted_sum(
                point_dlogs(gens.H_vec@),
                scalar_values(challenge_inverses@),
                scalar_values(challenges@),
                1,
                0,
                pow2(lg_n as nat),
            ),
        ),
{
    let ghost xs = scalar_values(challenges@);
    let ghost ys = scalar_values(challenge_inverses@);
    let ghost gv = point_dlogs(gens.G_vec@);
    let ghost hv = point_dlogs(gens.H_vec@);
    if lg_n == 0 {
        // Without challenges the generators are not folded
        proof {
            assert(pow2(0) == 1) by {
                lemma2_to64();
            }
        }
        return (gens.G_vec[0], gens.H_vec[0]);
    }
    let n = gens.G_vec.len();
    let mut final_G = point_identity();
    let mut final_H = point_identity();
    proof {
        lemma_reduce_range(0);
    }
    let mut j: usize = 0;
    while j < n
        invariant
            0 <= j <= n,
            n == gens.G_vec@.len(),
            gens.H_vec@.len() == n,
            challenges@.len() == lg_n,
            challenge_inverses@.len() == lg_n,
            xs == scalar_values(challenges@),
            ys == scalar_values(challenge_inverses@),
            gv == point_dlogs(gens.G_vec@),
            hv == point_dlogs(gens.H_vec@),
            point_dlog(final_G) == reduce(weighted_sum(gv, xs, ys, 1, 0, j as nat)),
            point_dlog(final_H) == reduce(weighted_sum(hv, ys, xs, 1, 0, j as nat)),
        decreases n - j,
    {
        let mut weight_G = scalar_from_u64(1);
        let mut weight_H = scalar_from_u64(1);
        let mut bits: usize = j;
        let mut i: usize = 0;
        proof {
            assert(xs.take(lg_n as int) =~= xs);
            assert(ys.take(lg_n as int) =~= ys);
            lemma_reduce_small(1);
            lemma_reduce_range(weight(j as int, xs, ys));
            lemma_reduce_range(weight(j as int, ys, xs));
        }
        // Calculate the weights based on the bit pattern
        while i < lg_n
            invariant
                0 <= i <= lg_n,
                challenges@.len() == lg_n,
                challenge_inverses@.len() == lg_n,
                xs == scalar_values(challenges@),
                ys == scalar_values(challenge_inverses@),
                reduce(
                    scalar_value(weight_G) * weight(
                        bits as int,
                        xs.take(lg_n - i),
                        ys.take(lg_n - i),
                    ),
                ) == reduce(weight(j as int, xs, ys)),
                reduce(
                    scalar_value(weight_H) * weight(
                        bits as int,
                        ys.take(lg_n - i),
                        xs.take(lg_n - i),
                    ),
                ) == reduce(weight(j as int, ys, xs)),
                0 <= scalar_value(weight_G) < group_order(),
                0 <= scalar_value(weight_H) < group_order(),
            decreases lg_n - i,
        {
            let ghost m = lg_n - i;
            let ghost wg = scalar_value(weight_G);
            let ghost wh = scalar_value(weight_H);
            let ghost b0 = bits as int;
            let bit = bits % 2;
            if bit == 1 {
                weight_G = scalar_mul(&weight_G, &challenges[lg_n - i - 1]);
                weight_H = scalar_mul(&weight_H, &challenge_inverses[lg_n - i - 1]);
            } else {
                weight_G = scalar_mul(&weight_G, &challenge_inverses[lg_n - i - 1]);
                weight_H = scalar_mul(&weight_H, &challenges[lg_n - i - 1]);
            }
            bits = bits / 2;
            i = i + 1;
            proof {
                let xm = xs.take(m);
                let ym = ys.take(m);
                assert(xm.drop_last() =~= xs.take(m - 1));
                assert(ym.drop_last() =~= ys.take(m - 1));
                assert(xm.last() == xs[m - 1]);
                assert(ym.last() == ys[m - 1]);
                assert(xs[m - 1] == scalar_value(challenges@[m - 1]));
                assert(ys[m - 1] == scalar_value(challenge_inverses@[m - 1]));
                let cg = if b0 % 2 == 1 { xs[m - 1] } else { ys[m - 1] };
                let ch = if b0 % 2 == 1 { ys[m - 1] } else { xs[m - 1] };
                let wg2 = weight(b0 / 2, xs.take(m - 1), ys.take(m - 1));
                let wh2 = weight(b0 / 2, ys.take(m - 1), xs.take(m - 1));
                assert(weight(b0, xm, ym) == cg * wg2);
                assert(weight(b0, ym, xm) == ch * wh2);
                assert(scalar_value(weight_G) == reduce(wg * cg));
                assert(scalar_value(weight_H) == reduce(wh * ch));
                lemma_reduce_mul(wg * cg, wg2);
                lemma_reduce_mul(wh * ch, wh2);
                vstd::arithmetic::mul::lemma_mul_is_associative(wg, cg, wg2);
                vstd::arithmetic::mul::lemma_mul_is_associative(wh, ch, wh2);
                lemma_reduce_range(wg * cg);
                lemma_reduce_range(wh * ch);
                assert(lg_n - i == m - 1);
            }
        }
        proof {
            assert(xs.take(0) =~= Seq::<int>::empty());
            assert(ys.take(0) =~= Seq::<int>::empty());
            assert(lg_n - i == 0);
            lemma_reduce_range(scalar_value(weight_G));
            assert(scalar_value(weight_G) * 1 == scalar_value(weight_G));
            assert(scalar_value(weight_H) * 1 == scalar_value(weight_H));
        }
        // Apply weights to the appropriate generators
        let tg = point_mul(&weight_G, &gens.G_vec[j]);
        let th = point_mul(&weight_H, &gens.H_vec[j]);
        final_G = point_add(&final_G, &tg);
        final_H = point_add(&final_H, &th);
        proof {
            let gj = gv[j as int];
            let hj = hv[j as int];
            assert(gj == point_dlog(gens.G_vec@[j as int]));
            assert(hj == point_dlog(gens.H_vec@[j as int]));
            assert(0 + j * 1 == j);
            let wgj = weight(j as int, xs, ys);
            let whj = weight(j as int, ys, xs);
            lemma_reduce_small(scalar_value(weight_G));
            lemma_reduce_small(scalar_value(weight_H));
            lemma_reduce_mul(wgj, gj);
            lemma_reduce_mul(whj, hj);
            lemma_reduce_add(weighted_sum(gv, xs, ys, 1, 0, j as nat), wgj * gj);
            lemma_reduce_add(weighted_sum(hv, ys, xs, 1, 0, j as nat), whj * hj);
        }
        j = j + 1;
    }
    (final_G, final_H)
}

/// Fold all L and R values into a single commitment
///
/// This function combines all the L and R proof elements according to
/// the challenge factors: `Σ_i (x_i²·L_i + x_i⁻²·R_i)`.
pub fn fold_commitments(
    L_vec: &[RistrettoPoint],
    R_vec: &[RistrettoPoint],
    challenges: &[Scalar],
    challenge_inverses: &[Scalar],
) -> (folded: RistrettoPoint)
    requires
        R_vec@.len() >= L_vec@.len(),
        challenges@.len() >= L_vec@.len(),
        challenge_inverses@.len() >= L_vec@.len(),
    ensures
        point_dlog(folded) == reduce(
            folded_cross_terms(
                point_dlogs(L_vec@),
                point_dlogs(R_vec@),
                scalar_values(challenges@),
                scalar_values(challenge_inverses@),
                L_vec@.len(),
            ),
        ),
{
    let ghost ls = point_dlogs(L_vec@);
    let ghost rs = point_dlogs(R_vec@);
    let ghost xs = scalar_values(challenges@);
    let ghost ys = scalar_values(challenge_inverses@);
    let mut result = point_identity();
    proof {
        lemma_reduce_range(0);
    }
    let mut i: usize = 0;
    while i < L_vec.len()
        invariant
            0 <= i <= L_vec@.len(),
            R_vec@.len() >= L_vec@.len(),
            challenges@.len() >= L_vec@.len(),
            challenge_inverses@.len() >= L_vec@.len(),
            ls == point_dlogs(L_vec@),
            rs == point_dlogs(R_vec@),
            xs == scalar_values(challenges@),
            ys == scalar_values(challenge_inverses@),
            point_dlog(result) == reduce(folded_cross_terms(ls, rs, xs, ys, i as nat)),
        decreases L_vec@.len() - i,
    {
        let x2 = scalar_mul(&challenges[i], &challenges[i]);
        let y2 = scalar_mul(&challenge_inverses[i], &challenge_inverses[i]);
        let lt = point_mul(&x2, &L_vec[i]);
        let rt = point_mul(&y2, &R_vec[i]);
        let t = point_add(&lt, &rt);
        result = point_add(&result, &t);
        proof {
            let x = xs[i as int];
            let y = ys[i as int];
            let l = ls[i as int];
            let r = rs[i as int];
            assert(x == scalar_value(challenges@[i as int]));
            assert(y == scalar_value(challenge_inverses@[i as int]));
            assert(l == point_dlog(L_vec@[i as int]));
            assert(r == point_dlog(R_vec@[i as int]));
            lemma_reduce_mul(x * x, l);
            lemma_reduce_mul(y * y, r);
            lemma_reduce_accumulate(folded_cross_terms(ls, rs, xs, ys, i as nat), x * x * l, y * y * r);
        }
        i = i + 1;
    }
    result
}

/// Binding of the inner product for vectors of one element, where the proof has no
/// rounds: a proof produced by the prover for `(a, b, r)` is accepted, with the
/// commitment `P` to `(a, b, r)`, exactly for the claimed values `c` that are `⟨a, b⟩`.
pub proof fn lemma_single_element_proof_binds(
    proof: InnerProductProof,
    a: Seq<Scalar>,
    b: Seq<Scalar>,
    r: Scalar,
    gens: Generators,
    s0: Seq<u8>,
    s1: Seq<u8>,
    P: RistrettoPoint,
    c: Scalar,
)
    requires
        a.len() == 1,
        b.len() == 1,
        gens.G_vec@.len() == 1,
        gens.H_vec@.len() == 1,
        is_honest_proof(proof, a, b, r, gens, s0, s1),
        point_dlog(P) == commitment_of(a, b, r, gens),
    ensures
        verifier_accepts(P, c, proof, gens, s0) == (scalar_value(c) == inner_product_of(a, b)),
{
    let (bl, br) = choose|bl: Seq<int>, br: Seq<int>|
        #![trigger prover_run(a, b, r, gens, s0, bl, br)]
        {
            &&& bl.len() == br.len()
            &&& pow2(bl.len()) == a.len()
            &&& proof_records(proof, prover_run(a, b, r, gens, s0, bl, br))
            &&& s1 == prover_run(a, b, r, gens, s0, bl, br).state
        };
    lemma_pow2_one(bl.len());
    let st0 = prover_start(a, b, r, gens, s0);
    assert(prover_run(a, b, r, gens, s0, bl, br) == st0);
    assert(point_dlogs(proof.L_vec@).len() == proof.L_vec@.len());
    assert(point_dlogs(proof.R_vec@).len() == proof.R_vec@.len());
    lemma_accepts_without_rounds(P, c, proof, gens, s0);
    let av = scalar_values(a);
    let bv = scalar_values(b);
    let gv = point_dlogs(gens.G_vec@);
    let hv = point_dlogs(gens.H_vec@);
    assert(av[0] == scalar_value(a[0]) && bv[0] == scalar_value(b[0]));
    assert(gv[0] == point_dlog(gens.G_vec@[0]) && hv[0] == point_dlog(gens.H_vec@[0]));
    assert(dot_off(av, 0, gv, 0, 1) == dot_off(av, 0, gv, 0, 0) + av[0] * gv[0]);
    assert(dot_off(bv, 0, hv, 0, 1) == dot_off(bv, 0, hv, 0, 0) + bv[0] * hv[0]);
    assert(dot_off(av, 0, bv, 0, 1) == dot_off(av, 0, bv, 0, 0) + av[0] * bv[0]);
    assert(commitment_value(av, bv, scalar_value(r), gv, hv, point_dlog(gens.G)) == scalar_value(r)
        * point_dlog(gens.G) + av[0] * gv[0] + bv[0] * hv[0]);
}

/// The verifier's decision for a proof with rounds. It accepts a proof with at least one
/// round exactly when the proof has one `R` for each `L`, the generator vectors have
/// `2^k` entries for its `k` rounds, and the verification equation
/// `P + c·wU + Σ_j (x_j² L_j + x_j⁻² R_j) = r·G + a·G_final + b·H_final + (a·b)·wU`
/// holds, where `w` is the challenge that the transcript yields once the domain separator,
/// `P` and `c` are absorbed, `x_j` the challenge it yields once `L_j` and `R_j` are, and
/// `G_final = Σ_i s_i G_i`, `H_final = Σ_i s_i⁻¹ H_i` with the products `s_i` of the
/// challenges that the bits of `i` select. So no proof with rounds is accepted for a
/// statement `(P, c)` unless this equation holds for it.
pub proof fn lemma_acceptance_with_rounds(
    P: RistrettoPoint,
    c: Scalar,
    proof: InnerProductProof,
    gens: Generators,
    s0: Seq<u8>,
)
    requires
        proof.L_vec@.len() > 0,
    ensures
        ({
            let p = point_dlog(P);
            let cv = scalar_value(c);
            let ls = point_dlogs(proof.L_vec@);
            let rs = point_dlogs(proof.R_vec@);
            let k = ls.len();
            let xs = verifier_challenges(rounds_start(s0, p, cv), ls, rs);
            let ys = inverses(xs);
            let u = reduce(statement_challenge(s0, p, cv) * hashed_point_dlog(u_label()));
            let af = scalar_value(proof.a_final);
            let bf = scalar_value(proof.b_final);
            let rf = scalar_value(proof.r_final);
            let g = point_dlogs(gens.G_vec@);
            let h = point_dlogs(gens.H_vec@);
            verifier_accepts(P, c, proof, gens, s0) == (proof.R_vec@.len() == proof.L_vec@.len()
                && gens.G_vec@.len() == pow2(k) && gens.H_vec@.len() == pow2(k) && reduce(
                p + cv * u + folded_cross_terms(ls, rs, xs, ys, k),
            ) == reduce(
                rf * point_dlog(gens.G) + af * weighted_sum(g, xs, ys, 1, 0, pow2(k)) + bf
                    * weighted_sum(h, ys, xs, 1, 0, pow2(k)) + af * bf * u,
            ))
        }),
{
    assert(point_dlogs(proof.L_vec@).len() == proof.L_vec@.len());
    assert(point_dlogs(proof.R_vec@).len() == proof.R_vec@.len());
    assert(point_dlogs(gens.G_vec@).len() == gens.G_vec@.len());
    assert(point_dlogs(gens.H_vec@).len() == gens.H_vec@.len());
}

/// Whether the structure of the proof fits the generators: one `L` and one `R` per
/// halving of the generator vectors.
pub open spec fn proof_fits(proof: InnerProductProof, gens: Generators) -> bool {
    &&& proof.R_vec@.len() == proof.L_vec@.len()
    &&& gens.G_vec@.len() == pow2(proof.L_vec@.len() as nat)
    &&& gens.H_vec@.len() == pow2(proof.L_vec@.len() as nat)
}

/// Whether the verifier accepts the proof for the commitment `P` and the claimed inner
/// product `c`, on a transcript in state `s0`.
pub open spec fn verifier_accepts(
    P: RistrettoPoint,
    c: Scalar,
    proof: InnerProductProof,
    gens: Generators,
    s0: Seq<u8>,
) -> bool {
    ipp_accepts(
        point_dlog(P),
        scalar_value(c),
        point_dlogs(proof.L_vec@),
        point_dlogs(proof.R_vec@),
        scalar_value(proof.a_final),
        scalar_value(proof.b_final),
        scalar_value(proof.r_final),
        point_dlogs(gens.G_vec@),
        point_dlogs(gens.H_vec@),
        point_dlog(gens.G),
        hashed_point_dlog(u_label()),
        s0,
    )
}

/// The state in which the verifier's rounds begin: after the statement `(P, c)` has been
/// absorbed into a transcript in state `s0` and `w` drawn.
pub open spec fn verifier_rounds_start(P: RistrettoPoint, c: Scalar, s0: Seq<u8>) -> Seq<u8> {
    rounds_start(s0, point_dlog(P), scalar_value(c))
}

/// Verify an inner product proof
///
/// This function verifies that a commitment P contains vectors a and b
/// such that <a,b> = c, using only the logarithmic-sized proof elements.
///
/// The transcript absorbs the domain separator, `P` and `c`, and yields `w`. A proof
/// without rounds is accepted when `a·b = c` and `P = r·G + a·G_0 + b·H_0`. Otherwise the
/// verification folds the commitment P according to the challenges of the rounds, and
/// checks that the result matches what would be computed from the final values:
/// `P + c·wU + Σ (x_i² L_i + x_i⁻² R_i) == r·G + a·final_G + b·final_H + (a·b)·wU`.
///
/// Returns `true` if the proof is valid, `false` otherwise.
pub fn verify_inner_product_proof(
    P: RistrettoPoint,
    c: Scalar,
    proof: &InnerProductProof,
    gens: &Generators,
    transcript: &mut Transcript,
) -> (valid: bool)
    ensures
        valid == verifier_accepts(P, c, *proof, *gens, transcript_state(*old(transcript))),
        transcript_state(*final(transcript)) == if proof_fits(*proof, *gens) {
            verifier_state(
                verifier_rounds_start(P, c, transcript_state(*old(transcript))),
                point_dlogs(proof.L_vec@),
                point_dlogs(proof.R_vec@),
                proof.L_vec@.len(),
            )
        } else {
            verifier_rounds_start(P, c, transcript_state(*old(transcript)))
        },
        proof.L_vec@.len() == 0 ==> (valid == (proof.R_vec@.len() == 0 && gens.G_vec@.len() == 1
            && gens.H_vec@.len() == 1 && reduce(scalar_value(proof.a_final) * scalar_value(proof.b_final))
            == scalar_value(c) && point_dlog(P) == reduce(scalar_value(proof.r_final) * point_dlog(gens.G)
            + scalar_value(proof.a_final) * point_dlog(gens.G_vec@[0]) + scalar_value(proof.b_final)
            * point_dlog(gens.H_vec@[0])))),
        forall|a: Seq<Scalar>, b: Seq<Scalar>, r: Scalar, s1: Seq<u8>|
            #[trigger] honest_statement(
                *proof,
                a,
                b,
                r,
                *gens,
                transcript_state(*old(transcript)),
                s1,
                P,
                c,
            ) ==> valid,
{
    let ghost s0 = transcript_state(*transcript);
    let ghost s1 = verifier_rounds_start(P, c, s0);
    let ghost ls = point_dlogs(proof.L_vec@);
    let ghost rs = point_dlogs(proof.R_vec@);
    // The statement: the commitment and the claimed inner product
    transcript.append_message(label_dom_sep(), label_protocol());
    transcript.append_point(label_p(), &P.compress());
    transcript.append_message(label_c(), c.as_bytes());
    let w = transcript.challenge_scalar(label_w());
    let lg_n = proof.L_vec.len();
    proof {
        assert(ls.len() == proof.L_vec@.len());
        assert(rs.len() == proof.R_vec@.len());
        assert(point_dlogs(gens.G_vec@).len() == gens.G_vec@.len());
        assert(point_dlogs(gens.H_vec@).len() == gens.H_vec@.len());
        if proof.L_vec@.len() == 0 {
            lemma_accepts_without_rounds(P, c, *proof, *gens, s0);
        }
    }
    if proof.R_vec.len() != lg_n {
        proof {
            lemma_unfit_proof_is_not_honest(*proof, *gens, s0, P, c);
        }
        return false;
    }
    match pow2_checked(lg_n) {
        None => {
            proof {
                assert(gens.G_vec@.len() == gens.G_vec.len());
                lemma_unfit_proof_is_not_honest(*proof, *gens, s0, P, c);
            }
            return false;
        },
        Some(n) => {
            if gens.G_vec.len() != n || gens.H_vec.len() != n {
                proof {
                    lemma_unfit_proof_is_not_honest(*proof, *gens, s0, P, c);
                }
                return false;
            }
        },
    }
    let ghost xs_all = verifier_challenges(s1, ls, rs);
    let mut challenges: Vec<Scalar> = Vec::with_capacity(lg_n);
    let mut challenge_inverses: Vec<Scalar> = Vec::with_capacity(lg_n);
    let mut i: usize = 0;
    while i < lg_n
        invariant
            0 <= i <= lg_n,
            lg_n == proof.L_vec@.len(),
            proof.R_vec@.len() == lg_n,
            ls == point_dlogs(proof.L_vec@),
            rs == point_dlogs(proof.R_vec@),
            xs_all == verifier_challenges(s1, ls, rs),
            xs_all.len() == lg_n,
            challenges@.len() == i,
            challenge_inverses@.len() == i,
            transcript_state(*transcript) == verifier_state(s1, ls, rs, i as nat),
            scalar_values(challenges@) == xs_all.take(i as int),
            scalar_values(challenge_inverses@) == inverses(xs_all).take(i as int),
            forall|t: int|
                0 <= t < i && reduce(xs_all[t]) != 0 ==> reduce(
                    #[trigger] xs_all[t] * inverse(xs_all[t]),
                ) == 1,
        decreases lg_n - i,
    {
        transcript.append_point(label_l(), &proof.L_vec[i].compress());
        transcript.append_point(label_r(), &proof.R_vec[i].compress());
        let x_i = transcript.challenge_scalar(label_x());
        let y_i = invert_challenge(&x_i);
        let ghost old_ch = challenges@;
        let ghost old_inv = challenge_inverses@;
        challenges.push(x_i);
        challenge_inverses.push(y_i);
        proof {
            assert(challenges@ == old_ch.push(x_i));
            assert(challenge_inverses@ == old_inv.push(y_i));
            assert forall|t: int| 0 <= t < i implies #[trigger] scalar_values(challenges@)[t] == xs_all.take(i + 1)[t] by {
                assert(scalar_values(old_ch)[t] == xs_all.take(i as int)[t]);
                assert(scalar_values(old_ch)[t] == scalar_value(old_ch[t]));
                assert(challenges@[t] == old_ch[t]);
                assert(scalar_values(challenges@)[t] == scalar_value(challenges@[t]));
            }
            assert forall|t: int| 0 <= t < i implies #[trigger] scalar_values(challenge_inverses@)[t] == inverses(xs_all).take(i + 1)[t] by {
                assert(scalar_values(old_inv)[t] == inverses(xs_all).take(i as int)[t]);
                assert(scalar_values(old_inv)[t] == scalar_value(old_inv[t]));
                assert(challenge_inverses@[t] == old_inv[t]);
                assert(scalar_values(challenge_inverses@)[t] == scalar_value(challenge_inverses@[t]));
            }
            assert(ls[i as int] == point_dlog(proof.L_vec@[i as int]));
            assert(rs[i as int] == point_dlog(proof.R_vec@[i as int]));
            assert(scalar_value(x_i) == xs_all[i as int]);
            assert(scalar_values(challenges@) =~= xs_all.take(i + 1));
            assert(scalar_values(challenge_inverses@) =~= inverses(xs_all).take(i + 1));
        }
        i = i + 1;
    }
    proof {
        assert(scalar_values(challenges@) =~= xs_all);
        assert(scalar_values(challenge_inverses@) =~= inverses(xs_all));
    }
    let (final_G, final_H) = calculate_final_generators(
        gens,
        challenges.as_slice(),
        challenge_inverses.as_slice(),
        lg_n,
    );
    let ab = scalar_mul(&proof.a_final, &proof.b_final);
    let t_r = point_mul(&proof.r_final, &gens.G);
    let t_g = point_mul(&proof.a_final, &final_G);
    let t_h = point_mul(&proof.b_final, &final_H);
    let s1p = point_add(&t_r, &t_g);
    let opening = point_add(&s1p, &t_h);
    let ghost xs = scalar_values(challenges@);
    let ghost ys = scalar_values(challenge_inverses@);
    let ghost gf = weighted_sum(point_dlogs(gens.G_vec@), xs, ys, 1, 0, pow2(lg_n as nat));
    let ghost hf = weighted_sum(point_dlogs(gens.H_vec@), ys, xs, 1, 0, pow2(lg_n as nat));
    let ghost af = scalar_value(proof.a_final);
    let ghost bf = scalar_value(proof.b_final);
    let ghost rf = scalar_value(proof.r_final);
    let ghost gamma = point_dlog(gens.G);
    proof {
        if lg_n == 0 {
            // Without rounds, the final generators are the first ones, unweighted
            let gv = point_dlogs(gens.G_vec@);
            let hv = point_dlogs(gens.H_vec@);
            assert(pow2(0) == 1) by {
                lemma2_to64();
            }
            assert(weighted_sum(gv, xs, ys, 1, 0, 0) == 0);
            assert(weighted_sum(hv, ys, xs, 1, 0, 0) == 0);
            assert(weight(0, xs, ys) == 1);
            assert(weight(0, ys, xs) == 1);
            assert(gf == gv[0]);
            assert(hf == hv[0]);
            assert(point_dlog(final_G) == gf);
            assert(point_dlog(final_H) == hf);
        } else {
            lemma_reduce_mul(af, gf);
            lemma_reduce_mul(bf, hf);
        }
        assert(reduce(af * point_dlog(final_G)) == reduce(af * gf));
        assert(reduce(bf * point_dlog(final_H)) == reduce(bf * hf));
        lemma_reduce_add(rf * gamma, af * gf);
        lemma_reduce_add(rf * gamma + af * gf, bf * hf);
        assert(point_dlog(opening) == reduce(rf * gamma + af * gf + bf * hf));
    }
    let valid = if lg_n == 0 {
        let same_product = scalar_eq(&ab, &c);
        same_product && point_eq(&P, &opening)
    } else {
        let U = inner_product_base();
        let wU = point_mul(&w, &U);
        let t_u = point_mul(&ab, &wU);
        let final_commitment = point_add(&opening, &t_u);
        let folded_commitment = fold_commitments(
            proof.L_vec.as_slice(),
            proof.R_vec.as_slice(),
            challenges.as_slice(),
            challenge_inverses.as_slice(),
        );
        let cu = point_mul(&c, &wU);
        let l1 = point_add(&P, &cu);
        let lhs = point_add(&l1, &folded_commitment);
        proof {
            let u = point_dlog(wU);
            let p = point_dlog(P);
            let cv = scalar_value(c);
            let f = folded_cross_terms(ls, rs, xs, ys, lg_n as nat);
            lemma_reduce_mul(af * bf, u);
            lemma_reduce_add(rf * gamma + af * gf + bf * hf, af * bf * u);
            assert(point_dlog(final_commitment) == reduce(rf * gamma + af * gf + bf * hf + af * bf * u));
            lemma_reduce_add(p, cv * u);
            lemma_reduce_add(p + cv * u, f);
            assert(point_dlog(lhs) == reduce(p + cv * u + f));
        }
        point_eq(&lhs, &final_commitment)
    };
    proof {
        assert forall|a: Seq<Scalar>, b: Seq<Scalar>, r: Scalar, s2: Seq<u8>|
            #[trigger] honest_statement(*proof, a, b, r, *gens, s0, s2, P, c) implies valid by {
            assert(challenges_invertible(*proof, s0, P, c)) by {
                assert forall|t: int| 0 <= t < proof.L_vec@.len() implies reduce(
                    #[trigger] proof_challenges(*proof, s0, P, c)[t] * inverse(
                        proof_challenges(*proof, s0, P, c)[t],
                    ),
                ) == 1 by {
                    assert(proof_challenges(*proof, s0, P, c)[t] == xs_all[t]);
                    assert(reduce(proof_challenges(*proof, s0, P, c)[t]) != 0);
                }
            }
            lemma_honest_proof_verifies(*proof, a, b, r, *gens, s0, s2, P, c);
        }
    }
    valid
}

/// Without rounds, the verifier accepts exactly when the proof has no `R` either, the
/// generator vectors have one entry each, `a·b = c`, and `P = r·G + a·G_0 + b·H_0`.
proof fn lemma_accepts_without_rounds(
    P: RistrettoPoint,
    c: Scalar,
    proof: InnerProductProof,
    gens: Generators,
    s0: Seq<u8>,
)
    requires
        proof.L_vec@.len() == 0,
    ensures
        verifier_accepts(P, c, proof, gens, s0) == (proof.R_vec@.len() == 0 && gens.G_vec@.len() == 1
            && gens.H_vec@.len() == 1 && reduce(scalar_value(proof.a_final) * scalar_value(proof.b_final))
            == scalar_value(c) && point_dlog(P) == reduce(scalar_value(proof.r_final) * point_dlog(gens.G)
            + scalar_value(proof.a_final) * point_dlog(gens.G_vec@[0]) + scalar_value(proof.b_final)
            * point_dlog(gens.H_vec@[0]))),
{
    assert(pow2(0) == 1) by {
        lemma2_to64();
    }
    assert(point_dlogs(proof.L_vec@).len() == 0);
    assert(point_dlogs(proof.R_vec@).len() == proof.R_vec@.len());
    assert(point_dlogs(gens.G_vec@).len() == gens.G_vec@.len());
    assert(point_dlogs(gens.H_vec@).len() == gens.H_vec@.len());
    if gens.G_vec@.len() == 1 && gens.H_vec@.len() == 1 {
        assert(point_dlogs(gens.G_vec@)[0] == point_dlog(gens.G_vec@[0]));
        assert(point_dlogs(gens.H_vec@)[0] == point_dlog(gens.H_vec@[0]));
    }
}

/// The challenges that the verifier derives for the proof of the statement `(P, c)` on a
/// transcript in state `s0`.
pub open spec fn proof_challenges(proof: InnerProductProof, s0: Seq<u8>, P: RistrettoPoint, c: Scalar) -> Seq<int> {
    verifier_challenges(verifier_rounds_start(P, c, s0), point_dlogs(proof.L_vec@), point_dlogs(proof.R_vec@))
}

/// Every challenge that the verifier derives for the proof is nonzero modulo ℓ.
pub open spec fn challenges_nonzero(proof: InnerProductProof, s0: Seq<u8>, P: RistrettoPoint, c: Scalar) -> bool {
    forall|t: int|
        0 <= t < proof.L_vec@.len() ==> reduce(#[trigger] proof_challenges(proof, s0, P, c)[t]) != 0
}

/// Every challenge of the proof has an inverse modulo ℓ (as every nonzero one has).
pub open spec fn challenges_invertible(proof: InnerProductProof, s0: Seq<u8>, P: RistrettoPoint, c: Scalar) -> bool {
    forall|t: int|
        0 <= t < proof.L_vec@.len() ==> reduce(
            #[trigger] proof_challenges(proof, s0, P, c)[t] * inverse(proof_challenges(proof, s0, P, c)[t]),
        ) == 1
}

/// `P` commits to `(a, b, r)` with the generators, `c` is `⟨a, b⟩`, and the proof is
/// one that the prover produced for them on a transcript in state `s0`, none of whose
/// challenges is zero.
pub open spec fn honest_statement(
    proof: InnerProductProof,
    a: Seq<Scalar>,
    b: Seq<Scalar>,
    r: Scalar,
    gens: Generators,
    s0: Seq<u8>,
    s1: Seq<u8>,
    P: RistrettoPoint,
    c: Scalar,
) -> bool {
    &&& a.len() == b.len()
    &&& a.len() == gens.G_vec@.len()
    &&& a.len() == gens.H_vec@.len()
    &&& is_honest_proof(proof, a, b, r, gens, s0, s1)
    &&& challenges_nonzero(proof, s0, P, c)
    &&& point_dlog(P) == commitment_of(a, b, r, gens)
    &&& scalar_value(c) == inner_product_of(a, b)
}

/// A proof that the prover produced for generators of the vectors' length has one `L`
/// and one `R` per halving of the generators.
proof fn lemma_unfit_proof_is_not_honest(
    proof: InnerProductProof,
    gens: Generators,
    s0: Seq<u8>,
    P: RistrettoPoint,
    c: Scalar,
)
    requires
        !proof_fits(proof, gens),
    ensures
        forall|a: Seq<Scalar>, b: Seq<Scalar>, r: Scalar, s1: Seq<u8>|
            !#[trigger] honest_statement(proof, a, b, r, gens, s0, s1, P, c),
{
    assert forall|a: Seq<Scalar>, b: Seq<Scalar>, r: Scalar, s1: Seq<u8>|
        !#[trigger] honest_statement(proof, a, b, r, gens, s0, s1, P, c) by {
        if honest_statement(proof, a, b, r, gens, s0, s1, P, c) {
            let (bl, br) = choose|bl: Seq<int>, br: Seq<int>|
                #![trigger prover_run(a, b, r, gens, s0, bl, br)]
                {
                    &&& bl.len() == br.len()
                    &&& pow2(bl.len()) == a.len()
                    &&& proof_records(proof, prover_run(a, b, r, gens, s0, bl, br))
                    &&& s1 == prover_run(a, b, r, gens, s0, bl, br).state
                };
            lemma_run_lengths(
                prover_start(a, b, r, gens, s0),
                bl,
                br,
                point_dlog(gens.G),
                prover_base(a, b, r, gens, s0),
                bl.len(),
            );
            assert(point_dlogs(proof.L_vec@).len() == proof.L_vec@.len());
            assert(point_dlogs(proof.R_vec@).len() == proof.R_vec@.len());
        }
    }
}

/// The prover's transcript ends as the verifier's does after it has replayed the proof of
/// the prover's statement: a verifier whose transcript starts where the prover's started
/// derives the prover's challenges.
pub proof fn lemma_transcripts_agree(
    proof: InnerProductProof,
    a: Seq<Scalar>,
    b: Seq<Scalar>,
    r: Scalar,
    gens: Generators,
    s0: Seq<u8>,
    s1: Seq<u8>,
)
    requires
        is_honest_proof(proof, a, b, r, gens, s0, s1),
    ensures
        s1 == verifier_state(
            rounds_start(s0, commitment_of(a, b, r, gens), inner_product_of(a, b)),
            point_dlogs(proof.L_vec@),
            point_dlogs(proof.R_vec@),
            proof.L_vec@.len(),
        ),
{
    let (bl, br) = choose|bl: Seq<int>, br: Seq<int>|
        #![trigger prover_run(a, b, r, gens, s0, bl, br)]
        {
            &&& bl.len() == br.len()
            &&& pow2(bl.len()) == a.len()
            &&& proof_records(proof, prover_run(a, b, r, gens, s0, bl, br))
            &&& s1 == prover_run(a, b, r, gens, s0, bl, br).state
        };
    let st0 = prover_start(a, b, r, gens, s0);
    let gamma = point_dlog(gens.G);
    let u = prover_base(a, b, r, gens, s0);
    lemma_run_transcript(
        st0.a,
        st0.b,
        st0.g,
        st0.h,
        st0.r,
        st0.state,
        bl,
        br,
        gamma,
        u,
        bl.len(),
        bl.len(),
    );
    lemma_run_lengths(st0, bl, br, gamma, u, bl.len());
    assert(point_dlogs(proof.L_vec@).len() == proof.L_vec@.len());
}

/// Completeness: a proof produced by the prover for `(a, b, r)` and the generators is
/// accepted, on a transcript that starts as the prover's did, for the commitment `P` to
/// `(a, b, r)` and the inner product `c = ⟨a, b⟩`, provided its challenges are invertible.
pub proof fn lemma_honest_proof_verifies(
    proof: InnerProductProof,
    a: Seq<Scalar>,
    b: Seq<Scalar>,
    r: Scalar,
    gens: Generators,
    s0: Seq<u8>,
    s1: Seq<u8>,
    P: RistrettoPoint,
    c: Scalar,
)
    requires
        a.len() == b.len(),
        a.len() == gens.G_vec@.len(),
        a.len() == gens.H_vec@.len(),
        is_honest_proof(proof, a, b, r, gens, s0, s1),
        challenges_invertible(proof, s0, P, c),
        point_dlog(P) == commitment_of(a, b, r, gens),
        scalar_value(c) == inner_product_of(a, b),
    ensures
        verifier_accepts(P, c, proof, gens, s0),
{
    let (bl, br) = choose|bl: Seq<int>, br: Seq<int>|
        #![trigger prover_run(a, b, r, gens, s0, bl, br)]
        {
            &&& bl.len() == br.len()
            &&& pow2(bl.len()) == a.len()
            &&& proof_records(proof, prover_run(a, b, r, gens, s0, bl, br))
            &&& s1 == prover_run(a, b, r, gens, s0, bl, br).state
        };
    let st0 = prover_start(a, b, r, gens, s0);
    let gamma = point_dlog(gens.G);
    let u = prover_base(a, b, r, gens, s0);
    let k = bl.len();
    let run = ipp_run(st0, bl, br, gamma, u, k);
    assert(run == prover_run(a, b, r, gens, s0, bl, br));
    lemma_run_transcript(st0.a, st0.b, st0.g, st0.h, st0.r, st0.state, bl, br, gamma, u, k, k);
    lemma_run_lengths(st0, bl, br, gamma, u, k);
    assert(point_dlogs(proof.L_vec@).len() == proof.L_vec@.len());
    assert forall|t: int| 0 <= t < k implies reduce(#[trigger] run.xs[t] * inverse(run.xs[t])) == 1 by {
        assert(proof_challenges(proof, s0, P, c)[t] == run.xs[t]);
    }
    lemma_ipp_complete(st0.a, st0.b, st0.g, st0.h, st0.r, st0.state, bl, br, gamma, u, k);
}

} // verus!

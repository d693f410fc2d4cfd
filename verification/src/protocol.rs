//! The mathematical description of the inner product argument: the transcript both
//! parties build, the prover's rounds, the verifier's checks, and the laws that connect
//! them (an honest proof is accepted; folding the cross terms is additive).
use vstd::prelude::*;
use vstd::arithmetic::power2::{pow2, lemma_pow2_unfold, lemma2_to64};
use vstd::arithmetic::mul::lemma_mul_is_distributive_add;
use crate::commit::commitment_value;
use crate::algebra::{
    dot, dot_off, lemma_fold_rounds, cross_left, cross_right, fold, fold_rounds, inverse,
    ipp_value, lemma_reduce_add, lemma_reduce_lin2, lemma_reduce_mul, lemma_reduce_range,
    lemma_round, reduce, weighted_sum,
};
use crate::group::{le_encode, ristretto_encoding};
use crate::transcript::{challenge_value, challenged, merlin_absorb};

verus! {

/// The ASCII bytes of `"dom-sep"`.
pub open spec fn dom_sep_label() -> Seq<u8> {
    seq![100u8, 111u8, 109u8, 45u8, 115u8, 101u8, 112u8]
}

/// The ASCII bytes of `"inner-product-proof"`, the protocol's domain separator.
pub open spec fn protocol_label() -> Seq<u8> {
    seq![
        105u8, 110u8, 110u8, 101u8, 114u8, 45u8, 112u8, 114u8, 111u8, 100u8, 117u8, 99u8, 116u8,
        45u8, 112u8, 114u8, 111u8, 111u8, 102u8,
    ]
}

/// The ASCII bytes of `"P"`, under which the commitment is absorbed.
pub open spec fn p_label() -> Seq<u8> {
    seq![80u8]
}

/// The ASCII bytes of `"c"`, under which the claimed inner product is absorbed.
pub open spec fn c_label() -> Seq<u8> {
    seq![99u8]
}

/// The ASCII bytes of `"w"`, under which the challenge that scales `U` is drawn.
pub open spec fn w_label() -> Seq<u8> {
    seq![119u8]
}

/// The ASCII bytes of `"L"`.
pub open spec fn l_label() -> Seq<u8> {
    seq![76u8]
}

/// The ASCII bytes of `"R"`.
pub open spec fn r_label() -> Seq<u8> {
    seq![82u8]
}

/// The ASCII bytes of `"x"`.
pub open spec fn x_label() -> Seq<u8> {
    seq![120u8]
}

/// The ASCII bytes of `"inner-product-U"`, from which the base `U` that carries the inner
/// product in the argument is derived.
pub open spec fn u_label() -> Seq<u8> {
    seq![
        105u8, 110u8, 110u8, 101u8, 114u8, 45u8, 112u8, 114u8, 111u8, 100u8, 117u8, 99u8, 116u8,
        45u8, 85u8,
    ]
}

/// The transcript state, from `s0`, once the statement has been absorbed: the domain
/// separator, then the encoding of the commitment (discrete logarithm `p`) under `"P"`,
/// then the 32 little-endian bytes of the claimed inner product `c` under `"c"`.
pub open spec fn statement_state(s0: Seq<u8>, p: int, c: int) -> Seq<u8> {
    merlin_absorb(
        merlin_absorb(
            merlin_absorb(s0, dom_sep_label(), protocol_label()),
            p_label(),
            ristretto_encoding(p),
        ),
        c_label(),
        le_encode(c, 32),
    )
}

/// The challenge `w` drawn under `"w"` once the statement is absorbed.
pub open spec fn statement_challenge(s0: Seq<u8>, p: int, c: int) -> int {
    challenge_value(statement_state(s0, p, c), w_label())
}

/// The transcript state in which the rounds begin: after `w` has been drawn.
pub open spec fn rounds_start(s0: Seq<u8>, p: int, c: int) -> Seq<u8> {
    challenged(statement_state(s0, p, c), w_label())
}

/// The discrete logarithm of `w·U`, the base that carries the inner product, where `u` is
/// that of `U`. Scaling `U` by a challenge that depends on the commitment and the claimed
/// inner product ties the argument to both.
pub open spec fn scaled_base(s0: Seq<u8>, p: int, c: int, u: int) -> int {
    reduce(statement_challenge(s0, p, c) * u)
}

/// The prover's state between rounds, as integers modulo ℓ: the current vectors, the
/// folded generators (discrete logarithms), the blinding factor, the cross terms and
/// challenges of the rounds so far, and the transcript's state.
pub struct IppState {
    pub a: Seq<int>,
    pub b: Seq<int>,
    pub g: Seq<int>,
    pub h: Seq<int>,
    pub r: int,
    pub ls: Seq<int>,
    pub rs: Seq<int>,
    pub xs: Seq<int>,
    pub ys: Seq<int>,
    pub state: Seq<u8>,
}

/// The state before the first round, with the transcript in state `s1`.
pub open spec fn ipp_start(a: Seq<int>, b: Seq<int>, g: Seq<int>, h: Seq<int>, r: int, s1: Seq<u8>) -> IppState {
    IppState { a, b, g, h, r, ls: seq![], rs: seq![], xs: seq![], ys: seq![], state: s1 }
}

/// The transcript state after the encodings of a round's `L` and `R` have been absorbed.
pub open spec fn round_state(s: Seq<u8>, lv: int, rv: int) -> Seq<u8> {
    merlin_absorb(merlin_absorb(s, l_label(), ristretto_encoding(lv)), r_label(), ristretto_encoding(rv))
}

/// One round of the prover with blinding factors `rl`, `rr` for `L` and `R`: the cross
/// terms are committed to the transcript, the challenge `x` drawn, and the vectors and
/// generators halved: `a' = x a_lo + x⁻¹ a_hi`, `b' = x⁻¹ b_lo + x b_hi`,
/// `G' = x⁻¹ G_lo + x G_hi`, `H' = x H_lo + x⁻¹ H_hi`, `r' = r + x² r_l + x⁻² r_r`.
pub open spec fn ipp_round(st: IppState, rl: int, rr: int, gamma: int, u: int) -> IppState {
    let lv = reduce(cross_left(st.a, st.b, st.g, st.h, rl, gamma, u));
    let rv = reduce(cross_right(st.a, st.b, st.g, st.h, rr, gamma, u));
    let s1 = round_state(st.state, lv, rv);
    let x = challenge_value(s1, x_label());
    let y = inverse(x);
    IppState {
        a: fold(st.a, x, y),
        b: fold(st.b, y, x),
        g: fold(st.g, y, x),
        h: fold(st.h, x, y),
        r: reduce(st.r + x * x * rl + y * y * rr),
        ls: st.ls.push(lv),
        rs: st.rs.push(rv),
        xs: st.xs.push(x),
        ys: st.ys.push(y),
        state: challenged(s1, x_label()),
    }
}

/// The prover's state after `j` rounds, round `t` using the blinding factors `bl[t]`, `br[t]`.
pub open spec fn ipp_run(st0: IppState, bl: Seq<int>, br: Seq<int>, gamma: int, u: int, j: nat) -> IppState
    decreases j,
{
    if j == 0 {
        st0
    } else {
        ipp_round(ipp_run(st0, bl, br, gamma, u, (j - 1) as nat), bl[j - 1], br[j - 1], gamma, u)
    }
}

/// The verifier's transcript state after it has replayed `j` rounds of a proof with cross
/// terms `ls`, `rs` (discrete logarithms), the rounds beginning in state `s1`.
pub open spec fn verifier_state(s1: Seq<u8>, ls: Seq<int>, rs: Seq<int>, j: nat) -> Seq<u8>
    decreases j,
{
    if j == 0 {
        s1
    } else {
        challenged(round_state(verifier_state(s1, ls, rs, (j - 1) as nat), ls[j - 1], rs[j - 1]), x_label())
    }
}

/// The challenges the verifier derives for a proof with cross terms `ls`, `rs`.
pub open spec fn verifier_challenges(s1: Seq<u8>, ls: Seq<int>, rs: Seq<int>) -> Seq<int> {
    Seq::new(
        ls.len(),
        |j: int| challenge_value(round_state(verifier_state(s1, ls, rs, j as nat), ls[j], rs[j]), x_label()),
    )
}

/// The inverses modulo ℓ of the challenges.
pub open spec fn inverses(xs: Seq<int>) -> Seq<int> {
    Seq::new(xs.len(), |j: int| inverse(xs[j]))
}

/// `Σ_{t < j} (x_t²·L_t + x_t⁻²·R_t)`.
pub open spec fn folded_cross_terms(ls: Seq<int>, rs: Seq<int>, xs: Seq<int>, ys: Seq<int>, j: nat) -> int
    decreases j,
{
    if j == 0 {
        0
    } else {
        folded_cross_terms(ls, rs, xs, ys, (j - 1) as nat) + xs[j - 1] * xs[j - 1] * ls[j - 1] + ys[j
            - 1] * ys[j - 1] * rs[j - 1]
    }
}

/// The verification equation, on discrete logarithms modulo ℓ:
/// `P + c·U + Σ (x_t² L_t + x_t⁻² R_t) = r·G + a·G_final + b·H_final + (a·b)·U`, where
/// `G_final = Σ_i s_i G_i` and `H_final = Σ_i s_i⁻¹ H_i` with the weights `s_i` that
/// the bits of `i` select from the challenges.
pub open spec fn verification_equation(
    p: int,
    c: int,
    ls: Seq<int>,
    rs: Seq<int>,
    af: int,
    bf: int,
    rf: int,
    g: Seq<int>,
    h: Seq<int>,
    gamma: int,
    u: int,
    xs: Seq<int>,
    ys: Seq<int>,
) -> bool {
    let k = ls.len();
    reduce(p + c * u + folded_cross_terms(ls, rs, xs, ys, k)) == reduce(rf * gamma + af
        * weighted_sum(g, xs, ys, 1, 0, pow2(k)) + bf * weighted_sum(h, ys, xs, 1, 0, pow2(k)) + af
        * bf * u)
}

/// Whether a proof `(ls, rs, af, bf, rf)` is accepted for the commitment `p` and the
/// claimed inner product `c`, with `u` the discrete logarithm of the (scaled) base that
/// carries the inner product and `s1` the transcript state in which the rounds begin.
/// The proof must have one `L` and one `R` per halving of the generator vectors. Without
/// rounds, `af·bf` must be `c` and `p` must be the commitment `rf·G + af·G_0 + bf·H_0`;
/// with rounds, the verification equation must hold for the challenges that the
/// transcript yields.
pub open spec fn rounds_accept(
    p: int,
    c: int,
    ls: Seq<int>,
    rs: Seq<int>,
    af: int,
    bf: int,
    rf: int,
    g: Seq<int>,
    h: Seq<int>,
    gamma: int,
    u: int,
    s1: Seq<u8>,
) -> bool {
    let xs = verifier_challenges(s1, ls, rs);
    &&& rs.len() == ls.len()
    &&& g.len() == pow2(ls.len())
    &&& h.len() == pow2(ls.len())
    &&& if ls.len() == 0 {
        &&& reduce(af * bf) == c
        &&& p == reduce(rf * gamma + af * g[0] + bf * h[0])
    } else {
        verification_equation(p, c, ls, rs, af, bf, rf, g, h, gamma, u, xs, inverses(xs))
    }
}

/// Whether the verifier accepts a proof `(ls, rs, af, bf, rf)` for the commitment `p` and
/// the claimed inner product `c`, on a transcript in state `s0`, where `u` is the discrete
/// logarithm of the base `U`: the statement is absorbed, `w` drawn, and the proof checked
/// with `w·U` and the challenges of the rounds.
pub open spec fn ipp_accepts(
    p: int,
    c: int,
    ls: Seq<int>,
    rs: Seq<int>,
    af: int,
    bf: int,
    rf: int,
    g: Seq<int>,
    h: Seq<int>,
    gamma: int,
    u: int,
    s0: Seq<u8>,
) -> bool {
    rounds_accept(p, c, ls, rs, af, bf, rf, g, h, gamma, scaled_base(s0, p, c, u), rounds_start(s0, p, c))
}

// ---------------------------------------------------------------------------
// Properties of a run of the prover
// ---------------------------------------------------------------------------

/// The lengths of the prover's vectors after `j` rounds.
pub proof fn lemma_run_shape(st0: IppState, bl: Seq<int>, br: Seq<int>, gamma: int, u: int, k: nat, j: nat)
    requires
        j <= k,
        st0.a.len() == pow2(k),
        st0.b.len() == pow2(k),
        st0.g.len() == pow2(k),
        st0.h.len() == pow2(k),
        st0.ls.len() == 0,
        st0.rs.len() == 0,
        st0.xs.len() == 0,
        st0.ys.len() == 0,
    ensures
        ({
            let st = ipp_run(st0, bl, br, gamma, u, j);
            &&& st.a.len() == pow2((k - j) as nat)
            &&& st.b.len() == pow2((k - j) as nat)
            &&& st.g.len() == pow2((k - j) as nat)
            &&& st.h.len() == pow2((k - j) as nat)
            &&& st.ls.len() == j
            &&& st.rs.len() == j
            &&& st.xs.len() == j
            &&& st.ys.len() == j
        }),
    decreases j,
{
    if j > 0 {
        lemma_run_shape(st0, bl, br, gamma, u, k, (j - 1) as nat);
        lemma_pow2_unfold((k - j + 1) as nat);
    }
}

/// Later rounds keep what earlier rounds recorded.
pub proof fn lemma_run_prefix(st0: IppState, bl: Seq<int>, br: Seq<int>, gamma: int, u: int, j: nat, k: nat)
    requires
        j <= k,
        st0.ls.len() == 0,
        st0.rs.len() == 0,
        st0.xs.len() == 0,
        st0.ys.len() == 0,
    ensures
        ({
            let sj = ipp_run(st0, bl, br, gamma, u, j);
            let sk = ipp_run(st0, bl, br, gamma, u, k);
            &&& sk.ls.subrange(0, j as int) == sj.ls
            &&& sk.rs.subrange(0, j as int) == sj.rs
            &&& sk.xs.subrange(0, j as int) == sj.xs
            &&& sk.ys.subrange(0, j as int) == sj.ys
        }),
    decreases k,
{
    let sj = ipp_run(st0, bl, br, gamma, u, j);
    let sk = ipp_run(st0, bl, br, gamma, u, k);
    lemma_run_lengths(st0, bl, br, gamma, u, k);
    lemma_run_lengths(st0, bl, br, gamma, u, j);
    if j < k {
        lemma_run_prefix(st0, bl, br, gamma, u, j, (k - 1) as nat);
        let sp = ipp_run(st0, bl, br, gamma, u, (k - 1) as nat);
        lemma_run_lengths(st0, bl, br, gamma, u, (k - 1) as nat);
        assert(sk.ls.subrange(0, j as int) =~= sp.ls.subrange(0, j as int));
        assert(sk.rs.subrange(0, j as int) =~= sp.rs.subrange(0, j as int));
        assert(sk.xs.subrange(0, j as int) =~= sp.xs.subrange(0, j as int));
        assert(sk.ys.subrange(0, j as int) =~= sp.ys.subrange(0, j as int));
    } else {
        assert(sk.ls.subrange(0, j as int) =~= sj.ls);
        assert(sk.rs.subrange(0, j as int) =~= sj.rs);
        assert(sk.xs.subrange(0, j as int) =~= sj.xs);
        assert(sk.ys.subrange(0, j as int) =~= sj.ys);
    }
}

/// The recorded sequences grow by one per round.
pub proof fn lemma_run_lengths(st0: IppState, bl: Seq<int>, br: Seq<int>, gamma: int, u: int, j: nat)
    requires
        st0.ls.len() == 0,
        st0.rs.len() == 0,
        st0.xs.len() == 0,
        st0.ys.len() == 0,
    ensures
        ({
            let st = ipp_run(st0, bl, br, gamma, u, j);
            &&& st.ls.len() == j
            &&& st.rs.len() == j
            &&& st.xs.len() == j
            &&& st.ys.len() == j
        }),
    decreases j,
{
    if j > 0 {
        lemma_run_lengths(st0, bl, br, gamma, u, (j - 1) as nat);
    }
}

/// The verifier, replaying the cross terms of a run, builds the same transcript as the
/// prover and derives the same challenges.
pub proof fn lemma_run_transcript(
    a: Seq<int>,
    b: Seq<int>,
    g: Seq<int>,
    h: Seq<int>,
    r: int,
    s1: Seq<u8>,
    bl: Seq<int>,
    br: Seq<int>,
    gamma: int,
    u: int,
    j: nat,
    k: nat,
)
    requires
        j <= k,
    ensures
        ({
            let st0 = ipp_start(a, b, g, h, r, s1);
            let sk = ipp_run(st0, bl, br, gamma, u, k);
            let sj = ipp_run(st0, bl, br, gamma, u, j);
            &&& verifier_state(s1, sk.ls, sk.rs, j) == sj.state
            &&& forall|t: int| 0 <= t < j ==> #[trigger] verifier_challenges(s1, sk.ls, sk.rs)[t] == sk.xs[t]
        }),
    decreases j,
{
    let st0 = ipp_start(a, b, g, h, r, s1);
    let sk = ipp_run(st0, bl, br, gamma, u, k);
    lemma_run_lengths(st0, bl, br, gamma, u, k);
    if j > 0 {
        lemma_run_transcript(a, b, g, h, r, s1, bl, br, gamma, u, (j - 1) as nat, k);
        let sp = ipp_run(st0, bl, br, gamma, u, (j - 1) as nat);
        let sj = ipp_run(st0, bl, br, gamma, u, j);
        lemma_run_prefix(st0, bl, br, gamma, u, j, k);
        lemma_run_lengths(st0, bl, br, gamma, u, j);
        lemma_run_lengths(st0, bl, br, gamma, u, (j - 1) as nat);
        let t = j - 1;
        assert(sk.ls[t] == sj.ls[t]);
        assert(sk.rs[t] == sj.rs[t]);
        assert(sk.xs[t] == sj.xs[t]);
        assert(sj.ls[t] == sj.ls.last());
        assert forall|s: int| 0 <= s < j implies #[trigger] verifier_challenges(s1, sk.ls, sk.rs)[s]
            == sk.xs[s] by {
            if s < t {
            } else {
                assert(s == t);
            }
        }
    }
}

/// The prover's generators after `j` rounds are the initial ones folded with the
/// challenges so far.
pub proof fn lemma_run_generators(st0: IppState, bl: Seq<int>, br: Seq<int>, gamma: int, u: int, j: nat)
    requires
        st0.xs.len() == 0,
        st0.ys.len() == 0,
    ensures
        ({
            let st = ipp_run(st0, bl, br, gamma, u, j);
            &&& st.g == fold_rounds(st0.g, st.xs, st.ys)
            &&& st.h == fold_rounds(st0.h, st.ys, st.xs)
        }),
    decreases j,
{
    if j > 0 {
        lemma_run_generators(st0, bl, br, gamma, u, (j - 1) as nat);
        let sp = ipp_run(st0, bl, br, gamma, u, (j - 1) as nat);
        let st = ipp_run(st0, bl, br, gamma, u, j);
        assert(st.xs.drop_last() =~= sp.xs);
        assert(st.ys.drop_last() =~= sp.ys);
    }
}

/// The committed value after `j` rounds is the initial one plus the folded cross terms,
/// provided every challenge so far was invertible.
pub proof fn lemma_run_value(st0: IppState, bl: Seq<int>, br: Seq<int>, gamma: int, u: int, k: nat, j: nat)
    requires
        j <= k,
        st0.a.len() == pow2(k),
        st0.b.len() == pow2(k),
        st0.g.len() == pow2(k),
        st0.h.len() == pow2(k),
        st0.ls.len() == 0,
        st0.rs.len() == 0,
        st0.xs.len() == 0,
        st0.ys.len() == 0,
        forall|t: int|
            0 <= t < j ==> reduce(
                #[trigger] ipp_run(st0, bl, br, gamma, u, k).xs[t] * ipp_run(st0, bl, br, gamma, u, k).ys[t],
            ) == 1,
    ensures
        ({
            let st = ipp_run(st0, bl, br, gamma, u, j);
            reduce(ipp_value(st.a, st.b, st.g, st.h, st.r, gamma, u)) == reduce(
                ipp_value(st0.a, st0.b, st0.g, st0.h, st0.r, gamma, u) + folded_cross_terms(
                    st.ls,
                    st.rs,
                    st.xs,
                    st.ys,
                    j,
                ),
            )
        }),
    decreases j,
{
    if j > 0 {
        let sk = ipp_run(st0, bl, br, gamma, u, k);
        lemma_run_value(st0, bl, br, gamma, u, k, (j - 1) as nat);
        let sp = ipp_run(st0, bl, br, gamma, u, (j - 1) as nat);
        let st = ipp_run(st0, bl, br, gamma, u, j);
        lemma_run_shape(st0, bl, br, gamma, u, k, (j - 1) as nat);
        lemma_run_prefix(st0, bl, br, gamma, u, j, k);
        lemma_run_lengths(st0, bl, br, gamma, u, j);
        lemma_run_lengths(st0, bl, br, gamma, u, (j - 1) as nat);
        lemma_run_lengths(st0, bl, br, gamma, u, k);
        let t = j - 1;
        assert(sk.xs.subrange(0, j as int)[t] == sk.xs[t]);
        assert(sk.ys.subrange(0, j as int)[t] == sk.ys[t]);
        assert(sk.xs[t] == st.xs[t]);
        assert(sk.ys[t] == st.ys[t]);
        let x = st.xs[t];
        let y = st.ys[t];
        assert(reduce(sk.xs[t] * sk.ys[t]) == 1);
        // the vectors before this round have even length
        assert(sp.a.len() % 2 == 0) by {
            lemma_pow2_unfold((k - t) as nat);
        }
        let rl = bl[t];
        let rr = br[t];
        let cl = cross_left(sp.a, sp.b, sp.g, sp.h, rl, gamma, u);
        let cr = cross_right(sp.a, sp.b, sp.g, sp.h, rr, gamma, u);
        lemma_round(sp.a, sp.b, sp.g, sp.h, sp.r, rl, rr, x, y, gamma, u);
        let q0 = ipp_value(st0.a, st0.b, st0.g, st0.h, st0.r, gamma, u);
        let f = folded_cross_terms(sp.ls, sp.rs, sp.xs, sp.ys, t as nat);
        let qp = ipp_value(sp.a, sp.b, sp.g, sp.h, sp.r, gamma, u);
        // the folded cross terms of st extend those of sp
        assert(folded_cross_terms(st.ls, st.rs, st.xs, st.ys, t as nat) == f) by {
            lemma_folded_cross_terms_prefix(st.ls, st.rs, st.xs, st.ys, sp.ls, sp.rs, sp.xs, sp.ys, t as nat);
        }
        assert(st.ls[t] == reduce(cl));
        assert(st.rs[t] == reduce(cr));
        // qp ≡ q0 + f, so qp + x²·cl + y²·cr ≡ q0 + f + x²·L + y²·R
        lemma_reduce_lin2(1, qp, x * x, cl, 1, q0 + f, x * x, reduce(cl));
        lemma_reduce_range(cl);
        lemma_reduce_range(cr);
        lemma_reduce_add(1 * qp + x * x * cl, y * y * cr);
        lemma_reduce_add(1 * (q0 + f) + x * x * reduce(cl), y * y * cr);
        lemma_reduce_mul(y * y, cr);
        lemma_reduce_add(1 * (q0 + f) + x * x * reduce(cl), y * y * reduce(cr));
        assert(x * x * cl == (x * x) * cl);
        assert(1 * qp == qp);
        assert(1 * (q0 + f) == q0 + f);
    }
}

/// The folded cross terms over `j` rounds depend only on the first `j` entries.
pub proof fn lemma_folded_cross_terms_prefix(
    ls: Seq<int>,
    rs: Seq<int>,
    xs: Seq<int>,
    ys: Seq<int>,
    ls2: Seq<int>,
    rs2: Seq<int>,
    xs2: Seq<int>,
    ys2: Seq<int>,
    j: nat,
)
    requires
        forall|t: int| 0 <= t < j ==> ls[t] == ls2[t] && rs[t] == rs2[t] && xs[t] == xs2[t] && ys[t] == ys2[t],
    ensures
        folded_cross_terms(ls, rs, xs, ys, j) == folded_cross_terms(ls2, rs2, xs2, ys2, j),
    decreases j,
{
    if j > 0 {
        lemma_folded_cross_terms_prefix(ls, rs, xs, ys, ls2, rs2, xs2, ys2, (j - 1) as nat);
        let t = j - 1;
        assert(ls[t] == ls2[t] && rs[t] == rs2[t] && xs[t] == xs2[t] && ys[t] == ys2[t]);
    }
}

/// Each recorded inverse is the inverse of its challenge.
pub proof fn lemma_run_inverses(st0: IppState, bl: Seq<int>, br: Seq<int>, gamma: int, u: int, j: nat)
    requires
        st0.ls.len() == 0,
        st0.rs.len() == 0,
        st0.xs.len() == 0,
        st0.ys.len() == 0,
    ensures
        ({
            let st = ipp_run(st0, bl, br, gamma, u, j);
            st.ys == inverses(st.xs)
        }),
    decreases j,
{
    lemma_run_lengths(st0, bl, br, gamma, u, j);
    if j > 0 {
        lemma_run_inverses(st0, bl, br, gamma, u, (j - 1) as nat);
        let st = ipp_run(st0, bl, br, gamma, u, j);
        let sp = ipp_run(st0, bl, br, gamma, u, (j - 1) as nat);
        lemma_run_lengths(st0, bl, br, gamma, u, (j - 1) as nat);
        assert(st.ys =~= inverses(st.xs)) by {
            assert forall|t: int| 0 <= t < st.xs.len() implies st.ys[t] == inverses(st.xs)[t] by {
                if t < j - 1 {
                    assert(st.ys[t] == sp.ys[t]);
                    assert(st.xs[t] == sp.xs[t]);
                    assert(sp.ys[t] == inverses(sp.xs)[t]);
                }
            }
        }
    }
}

/// Folding the cross terms is additive in them: where `L3_t = L1_t + L2_t` and
/// `R3_t = R1_t + R2_t` for every round `t < j` (as points, so modulo ℓ on discrete
/// logarithms), `Σ (x_t² L3_t + x_t⁻² R3_t) = Σ (x_t² L1_t + x_t⁻² R1_t) + Σ (x_t² L2_t + x_t⁻² R2_t)`.
pub proof fn lemma_folded_cross_terms_additive(
    ls1: Seq<int>,
    rs1: Seq<int>,
    ls2: Seq<int>,
    rs2: Seq<int>,
    ls3: Seq<int>,
    rs3: Seq<int>,
    xs: Seq<int>,
    ys: Seq<int>,
    j: nat,
)
    requires
        forall|t: int| 0 <= t < j ==> #[trigger] ls3[t] == reduce(ls1[t] + ls2[t]),
        forall|t: int| 0 <= t < j ==> #[trigger] rs3[t] == reduce(rs1[t] + rs2[t]),
    ensures
        reduce(folded_cross_terms(ls3, rs3, xs, ys, j)) == reduce(
            folded_cross_terms(ls1, rs1, xs, ys, j) + folded_cross_terms(ls2, rs2, xs, ys, j),
        ),
    decreases j,
{
    if j > 0 {
        let t = j - 1;
        lemma_folded_cross_terms_additive(ls1, rs1, ls2, rs2, ls3, rs3, xs, ys, t as nat);
        let f1 = folded_cross_terms(ls1, rs1, xs, ys, t as nat);
        let f2 = folded_cross_terms(ls2, rs2, xs, ys, t as nat);
        let f3 = folded_cross_terms(ls3, rs3, xs, ys, t as nat);
        let x2 = xs[t] * xs[t];
        let y2 = ys[t] * ys[t];
        assert(ls3[t] == reduce(ls1[t] + ls2[t]));
        assert(rs3[t] == reduce(rs1[t] + rs2[t]));
        // x²·L3 ≡ x²·(L1 + L2) and y²·R3 ≡ y²·(R1 + R2)
        lemma_reduce_lin2(x2, ls3[t], y2, rs3[t], x2, ls1[t] + ls2[t], y2, rs1[t] + rs2[t]);
        lemma_reduce_range(ls1[t] + ls2[t]);
        lemma_reduce_range(rs1[t] + rs2[t]);
        let d3 = x2 * ls3[t] + y2 * rs3[t];
        let d12 = x2 * (ls1[t] + ls2[t]) + y2 * (rs1[t] + rs2[t]);
        lemma_reduce_add(f3, d3);
        lemma_reduce_add(f1 + f2, d12);
        lemma_reduce_add(f1 + f2, d3);
        lemma_reduce_add(f3, d12);
        lemma_mul_is_distributive_add(x2, ls1[t], ls2[t]);
        lemma_mul_is_distributive_add(y2, rs1[t], rs2[t]);
        assert(x2 * ls1[t] == xs[t] * xs[t] * ls1[t]);
        assert(x2 * ls2[t] == xs[t] * xs[t] * ls2[t]);
        assert(x2 * ls3[t] == xs[t] * xs[t] * ls3[t]);
        assert(y2 * rs1[t] == ys[t] * ys[t] * rs1[t]);
        assert(y2 * rs2[t] == ys[t] * ys[t] * rs2[t]);
        assert(y2 * rs3[t] == ys[t] * ys[t] * rs3[t]);
    }
}

/// Completeness of the argument: a proof that the prover produces for vectors `a`, `b`,
/// blinding factor `r` and generators `g`, `h`, `gamma` (discrete logarithms), with the
/// base `u` and the rounds beginning in transcript state `s1`, is accepted with the same
/// base by a verifier whose rounds begin in the same state, for the commitment to
/// `(a, b, r)` and the inner product `⟨a, b⟩`, whatever the blinding factors of the
/// rounds were, provided every challenge is invertible modulo ℓ (every nonzero one is).
pub proof fn lemma_ipp_complete(
    a: Seq<int>,
    b: Seq<int>,
    g: Seq<int>,
    h: Seq<int>,
    r: int,
    s1: Seq<u8>,
    bl: Seq<int>,
    br: Seq<int>,
    gamma: int,
    u: int,
    k: nat,
)
    requires
        a.len() == pow2(k),
        b.len() == pow2(k),
        g.len() == pow2(k),
        h.len() == pow2(k),
        forall|t: int|
            0 <= t < k ==> reduce(
                #[trigger] ipp_run(ipp_start(a, b, g, h, r, s1), bl, br, gamma, u, k).xs[t]
                    * inverse(ipp_run(ipp_start(a, b, g, h, r, s1), bl, br, gamma, u, k).xs[t]),
            ) == 1,
    ensures
        ({
            let run = ipp_run(ipp_start(a, b, g, h, r, s1), bl, br, gamma, u, k);
            rounds_accept(
                reduce(commitment_value(a, b, r, g, h, gamma)),
                reduce(dot(a, b)),
                run.ls,
                run.rs,
                run.a[0],
                run.b[0],
                run.r,
                g,
                h,
                gamma,
                u,
                s1,
            )
        }),
{
    let st0 = ipp_start(a, b, g, h, r, s1);
    let sk = ipp_run(st0, bl, br, gamma, u, k);
    lemma_run_shape(st0, bl, br, gamma, u, k, k);
    assert(pow2(0) == 1) by {
        lemma2_to64();
    }
    lemma_run_inverses(st0, bl, br, gamma, u, k);
    lemma_run_transcript(a, b, g, h, r, s1, bl, br, gamma, u, k, k);
    let xs = verifier_challenges(s1, sk.ls, sk.rs);
    assert(xs =~= sk.xs);
    assert(inverses(xs) =~= sk.ys);
    assert forall|t: int| 0 <= t < k implies reduce(
        #[trigger] sk.xs[t] * sk.ys[t],
    ) == 1 by {
        assert(sk.ys[t] == inverses(sk.xs)[t]);
    }
    lemma_run_value(st0, bl, br, gamma, u, k, k);
    lemma_run_generators(st0, bl, br, gamma, u, k);
    lemma_fold_rounds(g, sk.xs, sk.ys, 1);
    lemma_fold_rounds(h, sk.ys, sk.xs, 1);
    let gf = weighted_sum(g, sk.xs, sk.ys, 1, 0, pow2(k));
    let hf = weighted_sum(h, sk.ys, sk.xs, 1, 0, pow2(k));
    let af = sk.a[0];
    let bf = sk.b[0];
    let g0 = sk.g[0];
    let h0 = sk.h[0];
    assert(reduce(g0) == reduce(gf));
    assert(reduce(h0) == reduce(hf));
    // the value of the final state
    assert((k - k) as nat == 0);
    assert(sk.a.len() == 1 && sk.b.len() == 1 && sk.g.len() == 1 && sk.h.len() == 1);
    assert(dot_off(sk.a, 0, sk.g, 0, 1) == dot_off(sk.a, 0, sk.g, 0, 0) + sk.a[0] * sk.g[0]);
    assert(dot_off(sk.b, 0, sk.h, 0, 1) == dot_off(sk.b, 0, sk.h, 0, 0) + sk.b[0] * sk.h[0]);
    assert(dot_off(sk.a, 0, sk.b, 0, 1) == dot_off(sk.a, 0, sk.b, 0, 0) + sk.a[0] * sk.b[0]);
    assert(dot(sk.a, sk.g) == af * g0);
    assert(dot(sk.b, sk.h) == bf * h0);
    assert(dot(sk.a, sk.b) == af * bf);
    let qk = ipp_value(sk.a, sk.b, sk.g, sk.h, sk.r, gamma, u);
    assert(qk == af * g0 + bf * h0 + af * bf * u + sk.r * gamma);
    lemma_reduce_lin2(af, g0, bf, h0, af, gf, bf, hf);
    lemma_reduce_add(af * g0 + bf * h0, af * bf * u + sk.r * gamma);
    lemma_reduce_add(af * gf + bf * hf, af * bf * u + sk.r * gamma);
    assert(af * g0 + bf * h0 + af * bf * u + sk.r * gamma == (af * g0 + bf * h0) + (af * bf * u
        + sk.r * gamma));
    let rhs = sk.r * gamma + af * gf + bf * hf + af * bf * u;
    assert(rhs == (af * gf + bf * hf) + (af * bf * u + sk.r * gamma));
    assert(reduce(qk) == reduce(rhs));
    // the value of the initial state
    let f = folded_cross_terms(sk.ls, sk.rs, sk.xs, sk.ys, k);
    let cv = commitment_value(a, b, r, g, h, gamma);
    let q0 = ipp_value(a, b, g, h, r, gamma, u);
    assert(q0 == cv + dot(a, b) * u);
    lemma_reduce_lin2(1, cv, dot(a, b), u, 1, reduce(cv), reduce(dot(a, b)), u);
    lemma_reduce_range(cv);
    lemma_reduce_range(dot(a, b));
    lemma_reduce_mul(dot(a, b), u);
    lemma_reduce_mul(reduce(dot(a, b)), u);
    lemma_reduce_add(1 * cv + dot(a, b) * u, f);
    lemma_reduce_add(1 * reduce(cv) + reduce(dot(a, b)) * u, f);
    assert(1 * cv == cv);
    assert(1 * reduce(cv) == reduce(cv));
    assert(reduce(reduce(cv) + reduce(dot(a, b)) * u + f) == reduce(q0 + f));
    if k == 0 {
        // without rounds the proof is the vectors themselves, of length one
        assert(a.len() == 1);
        assert(dot_off(a, 0, g, 0, 1) == dot_off(a, 0, g, 0, 0) + a[0] * g[0]);
        assert(dot_off(b, 0, h, 0, 1) == dot_off(b, 0, h, 0, 0) + b[0] * h[0]);
        assert(dot_off(a, 0, b, 0, 1) == dot_off(a, 0, b, 0, 0) + a[0] * b[0]);
        assert(cv == r * gamma + a[0] * g[0] + b[0] * h[0]);
    }
}

} // verus!

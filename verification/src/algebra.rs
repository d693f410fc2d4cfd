//! Arithmetic modulo the group order, inner products of integer sequences,
//! and the folding of vectors that the inner product argument performs.
use vstd::prelude::*;
use vstd::arithmetic::div_mod::{
    lemma_add_mod_noop, lemma_mul_mod_noop_general, lemma_mod_twice, lemma_mod_bound,
    lemma_small_mod, lemma_sub_mod_noop, lemma_mod_add_multiples_vanish,
};
use vstd::arithmetic::power2::{pow2, lemma_pow2_unfold, lemma_pow2_pos, lemma2_to64};
use vstd::arithmetic::mul::{
    lemma_mul_is_associative, lemma_mul_is_commutative, lemma_mul_is_distributive_add,
    lemma_mul_is_distributive_add_other_way,
};

verus! {

/// The order ℓ = 2^252 + 27742317777372353535851937790883648493 of the
/// Ristretto group, which is also the modulus of its scalar field.
pub open spec fn group_order() -> int {
    7237005577332262213973186563042994240857116359379907606001950938285454250989int
}

/// The canonical representative of `x` modulo the group order.
pub open spec fn reduce(x: int) -> int {
    x % group_order()
}

pub proof fn lemma_reduce_range(x: int)
    ensures
        0 <= reduce(x) < group_order(),
        reduce(reduce(x)) == reduce(x),
{
    lemma_mod_bound(x, group_order());
    lemma_mod_twice(x, group_order());
}

pub proof fn lemma_reduce_small(x: int)
    requires
        0 <= x < group_order(),
    ensures
        reduce(x) == x,
{
    lemma_small_mod(x as nat, group_order() as nat);
}

pub proof fn lemma_reduce_add(a: int, b: int)
    ensures
        reduce(reduce(a) + reduce(b)) == reduce(a + b),
        reduce(reduce(a) + b) == reduce(a + b),
        reduce(a + reduce(b)) == reduce(a + b),
{
    let l = group_order();
    lemma_add_mod_noop(a, b, l);
    lemma_add_mod_noop(reduce(a), b, l);
    lemma_add_mod_noop(a, reduce(b), l);
    lemma_mod_twice(a, l);
    lemma_mod_twice(b, l);
}

pub proof fn lemma_reduce_mul(a: int, b: int)
    ensures
        reduce(reduce(a) * reduce(b)) == reduce(a * b),
        reduce(reduce(a) * b) == reduce(a * b),
        reduce(a * reduce(b)) == reduce(a * b),
{
    lemma_mul_mod_noop_general(a, b, group_order());
}

/// Adding the reduced sum of two reduced terms to a reduced accumulator.
pub proof fn lemma_reduce_accumulate(s: int, x: int, y: int)
    ensures
        reduce(reduce(s) + reduce(reduce(x) + reduce(y))) == reduce(s + x + y),
{
    lemma_reduce_add(x, y);
    lemma_reduce_add(s, x + y);
}

/// If `p ≡ p2`, `e1 ≡ s1`, `q ≡ q2` and `e2 ≡ s2` modulo ℓ, then
/// `p * e1 + q * e2 ≡ p2 * s1 + q2 * s2`.
pub proof fn lemma_reduce_lin2(p: int, e1: int, q: int, e2: int, p2: int, s1: int, q2: int, s2: int)
    requires
        reduce(p) == reduce(p2),
        reduce(e1) == reduce(s1),
        reduce(q) == reduce(q2),
        reduce(e2) == reduce(s2),
    ensures
        reduce(p * e1 + q * e2) == reduce(p2 * s1 + q2 * s2),
{
    lemma_reduce_mul(p, e1);
    lemma_reduce_mul(p2, s1);
    lemma_reduce_mul(q, e2);
    lemma_reduce_mul(q2, s2);
    lemma_reduce_add(p * e1, q * e2);
    lemma_reduce_add(p2 * s1, q2 * s2);
}

/// Two integers in `[0, ℓ)` that are congruent modulo ℓ are equal.
pub proof fn lemma_congruent_in_range(c: int, d: int)
    requires
        0 <= c < group_order(),
        0 <= d < group_order(),
        reduce(c - d) == 0,
    ensures
        c == d,
{
    let l = group_order();
    if c < d {
        lemma_mod_add_multiples_vanish(c - d, l);
        lemma_reduce_small(l + (c - d));
    } else {
        lemma_reduce_small(c - d);
    }
}

/// Integers with equal residues differ by a multiple of ℓ.
pub proof fn lemma_reduce_sub(a: int, b: int)
    requires
        reduce(a) == reduce(b),
    ensures
        reduce(a - b) == 0,
{
    lemma_sub_mod_noop(a, b, group_order());
    lemma_reduce_range(a);
    assert(reduce(a) - reduce(b) == 0);
    lemma_reduce_small(0);
}

/// The modular inverse of `x`: the `y` in `[0, ℓ)` with `x * y ≡ 1`, and 0 where
/// `x ≡ 0` (or where no inverse exists).
pub open spec fn inverse(x: int) -> int {
    if exists|y: int| 0 <= y < group_order() && #[trigger] reduce(x * y) == 1 {
        choose|y: int| 0 <= y < group_order() && #[trigger] reduce(x * y) == 1
    } else {
        0
    }
}

/// An inverse modulo ℓ is unique: any `y` in range with `x * y ≡ 1` is `inverse(x)`.
pub proof fn lemma_inverse_unique(x: int, y: int)
    requires
        0 <= y < group_order(),
        reduce(x * y) == 1,
    ensures
        inverse(x) == y,
        reduce(x * inverse(x)) == 1,
{
    let z = inverse(x);
    assert(0 <= z < group_order() && reduce(x * z) == 1);
    // z ≡ z * (x * y) = (z * x) * y ≡ y
    lemma_reduce_mul(z, x * y);
    lemma_reduce_mul(z * x, y);
    assert(z * (x * y) == (x * z) * y) by (nonlinear_arith);
    lemma_reduce_mul(x * z, y);
    lemma_reduce_small(z);
    lemma_reduce_small(y);
    assert(reduce(z) == reduce(z * 1));
}

// ---------------------------------------------------------------------------
// Inner products
// ---------------------------------------------------------------------------

/// `Σ_{i < n} a[oa + i] * b[ob + i]`.
pub open spec fn dot_off(a: Seq<int>, oa: int, b: Seq<int>, ob: int, n: nat) -> int
    decreases n,
{
    if n == 0 {
        0
    } else {
        dot_off(a, oa, b, ob, (n - 1) as nat) + a[oa + n - 1] * b[ob + n - 1]
    }
}

/// The inner product `⟨a, b⟩` over the length of `a`.
pub open spec fn dot(a: Seq<int>, b: Seq<int>) -> int {
    dot_off(a, 0, b, 0, a.len())
}

/// A sum over `n + m` terms is the sum over the first `n` plus the sum over the next `m`.
pub proof fn lemma_dot_split(a: Seq<int>, oa: int, b: Seq<int>, ob: int, n: nat, m: nat)
    ensures
        dot_off(a, oa, b, ob, n + m) == dot_off(a, oa, b, ob, n) + dot_off(
            a,
            oa + n,
            b,
            ob + n,
            m,
        ),
    decreases m,
{
    if m > 0 {
        lemma_dot_split(a, oa, b, ob, n, (m - 1) as nat);
        assert(oa + (n + m) - 1 == oa + n + m - 1);
    }
}

/// Congruent entries give congruent inner products.
pub proof fn lemma_dot_congruent(
    a: Seq<int>,
    oa: int,
    b: Seq<int>,
    ob: int,
    a2: Seq<int>,
    oa2: int,
    b2: Seq<int>,
    ob2: int,
    n: nat,
)
    requires
        forall|i: int| 0 <= i < n ==> reduce(#[trigger] a[oa + i]) == reduce(a2[oa2 + i]),
        forall|i: int| 0 <= i < n ==> reduce(#[trigger] b[ob + i]) == reduce(b2[ob2 + i]),
    ensures
        reduce(dot_off(a, oa, b, ob, n)) == reduce(dot_off(a2, oa2, b2, ob2, n)),
    decreases n,
{
    if n > 0 {
        let k = n - 1;
        lemma_dot_congruent(a, oa, b, ob, a2, oa2, b2, ob2, (n - 1) as nat);
        assert(reduce(a[oa + k]) == reduce(a2[oa2 + k]));
        assert(reduce(b[ob + k]) == reduce(b2[ob2 + k]));
        lemma_reduce_mul(a[oa + k], b[ob + k]);
        lemma_reduce_mul(a2[oa2 + k], b2[ob2 + k]);
        let d1 = dot_off(a, oa, b, ob, (n - 1) as nat);
        let d2 = dot_off(a2, oa2, b2, ob2, (n - 1) as nat);
        lemma_reduce_add(d1, a[oa + k] * b[ob + k]);
        lemma_reduce_add(d2, a2[oa2 + k] * b2[ob2 + k]);
    }
}

/// Inner products only read the entries in range.
pub proof fn lemma_dot_off_prefix(a: Seq<int>, b: Seq<int>, a2: Seq<int>, b2: Seq<int>, n: nat)
    requires
        forall|i: int| 0 <= i < n ==> #[trigger] a[i] == a2[i] && b[i] == b2[i],
    ensures
        dot_off(a, 0, b, 0, n) == dot_off(a2, 0, b2, 0, n),
    decreases n,
{
    if n > 0 {
        lemma_dot_off_prefix(a, b, a2, b2, (n - 1) as nat);
        assert(a[n - 1] == a2[n - 1] && b[n - 1] == b2[n - 1]);
    }
}

/// Appending one entry to both sequences adds its product to the inner product.
pub proof fn lemma_dot_push(a: Seq<int>, b: Seq<int>, x: int, y: int)
    requires
        a.len() == b.len(),
    ensures
        dot(a.push(x), b.push(y)) == dot(a, b) + x * y,
{
    lemma_dot_off_prefix(a.push(x), b.push(y), a, b, a.len());
}

/// The inner product of two folded vectors, `fa[i] = p a[i] + q a[h+i]` and
/// `fg[i] = s g[i] + t g[h+i]`, expands into the four cross products of the halves.
pub proof fn lemma_dot_fold(
    a: Seq<int>,
    g: Seq<int>,
    fa: Seq<int>,
    fg: Seq<int>,
    h: int,
    n: nat,
    p: int,
    q: int,
    s: int,
    t: int,
)
    requires
        n <= h,
        forall|i: int| 0 <= i < n ==> #[trigger] fa[i] == p * a[i] + q * a[h + i],
        forall|i: int| 0 <= i < n ==> #[trigger] fg[i] == s * g[i] + t * g[h + i],
    ensures
        dot_off(fa, 0, fg, 0, n) == p * s * dot_off(a, 0, g, 0, n) + p * t * dot_off(a, 0, g, h, n)
            + q * s * dot_off(a, h, g, 0, n) + q * t * dot_off(a, h, g, h, n),
    decreases n,
{
    if n > 0 {
        let k = n - 1;
        lemma_dot_fold(a, g, fa, fg, h, (n - 1) as nat, p, q, s, t);
        let a0 = a[k];
        let a1 = a[h + k];
        let g0 = g[k];
        let g1 = g[h + k];
        assert(fa[k] == p * a0 + q * a1);
        assert(fg[k] == s * g0 + t * g1);
        lemma_expand_product(p, a0, q, a1, s, g0, t, g1);
        let d00 = dot_off(a, 0, g, 0, k as nat);
        let d01 = dot_off(a, 0, g, h, k as nat);
        let d10 = dot_off(a, h, g, 0, k as nat);
        let d11 = dot_off(a, h, g, h, k as nat);
        lemma_distribute4(p * s, p * t, q * s, q * t, d00, d01, d10, d11, a0 * g0, a0 * g1, a1 * g0, a1 * g1);
    }
}


/// `c * (a + b + d + e) == c*a + c*b + c*d + c*e`.
proof fn lemma_distribute_left4(c: int, a: int, b: int, d: int, e: int)
    ensures
        c * (a + b + d + e) == c * a + c * b + c * d + c * e,
{
    lemma_mul_is_distributive_add(c, a + b + d, e);
    lemma_mul_is_distributive_add(c, a + b, d);
    lemma_mul_is_distributive_add(c, a, b);
}

/// `(a + b + d + e) * c == a*c + b*c + d*c + e*c`.
proof fn lemma_distribute_right4(a: int, b: int, d: int, e: int, c: int)
    ensures
        (a + b + d + e) * c == a * c + b * c + d * c + e * c,
{
    lemma_mul_is_distributive_add_other_way(c, a + b + d, e);
    lemma_mul_is_distributive_add_other_way(c, a + b, d);
    lemma_mul_is_distributive_add_other_way(c, a, b);
}

/// `p * (s + w * v) == p * s + (p * w) * v`.
proof fn lemma_distribute_scaled(p: int, s: int, w: int, v: int)
    ensures
        p * (s + w * v) == p * s + (p * w) * v,
{
    lemma_mul_is_distributive_add(p, s, w * v);
    lemma_mul_is_associative(p, w, v);
}

/// `(p a0 + q a1)(s g0 + t g1)` expanded into its four monomials.
proof fn lemma_expand_product(p: int, a0: int, q: int, a1: int, s: int, g0: int, t: int, g1: int)
    ensures
        (p * a0 + q * a1) * (s * g0 + t * g1) == p * s * (a0 * g0) + p * t * (a0 * g1) + q * s * (
        a1 * g0) + q * t * (a1 * g1),
{
    let x = p * a0;
    let y = q * a1;
    let z = s * g0;
    let w = t * g1;
    assert((x + y) * (z + w) == x * z + x * w + y * z + y * w) by (nonlinear_arith);
    assert(x * z == p * s * (a0 * g0)) by (nonlinear_arith)
        requires x == p * a0, z == s * g0;
    assert(x * w == p * t * (a0 * g1)) by (nonlinear_arith)
        requires x == p * a0, w == t * g1;
    assert(y * z == q * s * (a1 * g0)) by (nonlinear_arith)
        requires y == q * a1, z == s * g0;
    assert(y * w == q * t * (a1 * g1)) by (nonlinear_arith)
        requires y == q * a1, w == t * g1;
}

proof fn lemma_distribute4(c0: int, c1: int, c2: int, c3: int, d0: int, d1: int, d2: int, d3: int, e0: int, e1: int, e2: int, e3: int)
    ensures
        c0 * (d0 + e0) + c1 * (d1 + e1) + c2 * (d2 + e2) + c3 * (d3 + e3) == c0 * d0 + c1 * d1 + c2 * d2 + c3 * d3 + (c0 * e0 + c1 * e1 + c2 * e2 + c3 * e3),
{
    assert(c0 * (d0 + e0) == c0 * d0 + c0 * e0) by (nonlinear_arith);
    assert(c1 * (d1 + e1) == c1 * d1 + c1 * e1) by (nonlinear_arith);
    assert(c2 * (d2 + e2) == c2 * d2 + c2 * e2) by (nonlinear_arith);
    assert(c3 * (d3 + e3) == c3 * d3 + c3 * e3) by (nonlinear_arith);
}

// ---------------------------------------------------------------------------
// Folding of vectors and the weights that describe it
// ---------------------------------------------------------------------------

/// One folding round: the vector of length `2h` becomes the vector of length `h` with
/// entries `p * v[i] + q * v[h + i]`, reduced modulo ℓ.
pub open spec fn fold(v: Seq<int>, p: int, q: int) -> Seq<int> {
    Seq::new(v.len() / 2, |i: int| reduce(p * v[i] + q * v[v.len() / 2 + i]))
}

/// Folding with the rounds' challenges in order: round `j` takes the left half with
/// factor `ys[j]` and the right half with factor `xs[j]`.
pub open spec fn fold_rounds(v: Seq<int>, xs: Seq<int>, ys: Seq<int>) -> Seq<int>
    decreases xs.len(),
{
    if xs.len() == 0 {
        v
    } else {
        fold(fold_rounds(v, xs.drop_last(), ys.drop_last()), ys.last(), xs.last())
    }
}

/// The weight with which entry `t` of the unfolded vector enters the folded one:
/// bit `b` of `t` (counting from the least significant) selects `xs[k-1-b]` when set and
/// `ys[k-1-b]` when clear, where `k` is the number of rounds.
pub open spec fn weight(t: int, xs: Seq<int>, ys: Seq<int>) -> int
    decreases xs.len(),
{
    if xs.len() == 0 {
        1
    } else {
        (if t % 2 == 1 {
            xs.last()
        } else {
            ys.last()
        }) * weight(t / 2, xs.drop_last(), ys.drop_last())
    }
}

/// `Σ_{t < cnt} weight(t) * v[i + t * m]`.
pub open spec fn weighted_sum(v: Seq<int>, xs: Seq<int>, ys: Seq<int>, m: int, i: int, cnt: nat) -> int
    decreases cnt,
{
    if cnt == 0 {
        0
    } else {
        weighted_sum(v, xs, ys, m, i, (cnt - 1) as nat) + weight(cnt - 1, xs, ys) * v[i + (cnt - 1)
            * m]
    }
}

proof fn lemma_weighted_sum_parity(v: Seq<int>, xs: Seq<int>, ys: Seq<int>, m: int, i: int, n: nat)
    requires
        xs.len() >= 1,
        ys.len() == xs.len(),
    ensures
        weighted_sum(v, xs, ys, m, i, 2 * n) == ys.last() * weighted_sum(
            v,
            xs.drop_last(),
            ys.drop_last(),
            2 * m,
            i,
            n,
        ) + xs.last() * weighted_sum(v, xs.drop_last(), ys.drop_last(), 2 * m, i + m, n),
    decreases n,
{
    if n > 0 {
        let k = (n - 1) as nat;
        lemma_weighted_sum_parity(v, xs, ys, m, i, k);
        let xs2 = xs.drop_last();
        let ys2 = ys.drop_last();
        let e: int = 2 * k as int;
        let o: int = 2 * k as int + 1;
        assert(e % 2 == 0 && e / 2 == k);
        assert(o % 2 == 1 && o / 2 == k);
        assert(weight(e, xs, ys) == ys.last() * weight(k as int, xs2, ys2));
        assert(weight(o, xs, ys) == xs.last() * weight(k as int, xs2, ys2));
        assert(i + e * m == i + k * (2 * m)) by (nonlinear_arith)
            requires e == 2 * k;
        assert(i + o * m == i + m + k * (2 * m)) by (nonlinear_arith)
            requires o == 2 * k + 1;
        assert(2 * n == o + 1);
        assert(weighted_sum(v, xs, ys, m, i, (o + 1) as nat) == weighted_sum(v, xs, ys, m, i, o as nat)
            + weight(o, xs, ys) * v[i + o * m]);
        assert(weighted_sum(v, xs, ys, m, i, o as nat) == weighted_sum(v, xs, ys, m, i, e as nat)
            + weight(e, xs, ys) * v[i + e * m]);
        let w = weight(k as int, xs2, ys2);
        let s0 = weighted_sum(v, xs2, ys2, 2 * m, i, k);
        let s1 = weighted_sum(v, xs2, ys2, 2 * m, i + m, k);
        let v0 = v[i + k * (2 * m)];
        let v1 = v[i + m + k * (2 * m)];
        lemma_distribute_scaled(ys.last(), s0, w, v0);
        lemma_distribute_scaled(xs.last(), s1, w, v1);
    }
}

/// After `k` rounds of folding, entry `i` of a vector of length `2^k * m` has become
/// (modulo ℓ) the weighted sum of the entries `i, i + m, i + 2m, …` of the unfolded vector.
pub proof fn lemma_fold_rounds(v: Seq<int>, xs: Seq<int>, ys: Seq<int>, m: nat)
    requires
        m >= 1,
        ys.len() == xs.len(),
        v.len() == pow2(xs.len()) * m,
    ensures
        fold_rounds(v, xs, ys).len() == m,
        forall|i: int|
            0 <= i < m ==> reduce(#[trigger] fold_rounds(v, xs, ys)[i]) == reduce(
                weighted_sum(v, xs, ys, m as int, i, pow2(xs.len())),
            ),
    decreases xs.len(),
{
    if xs.len() == 0 {
        assert(pow2(0) == 1) by {
            lemma2_to64();
        }
        assert forall|i: int| 0 <= i < m implies reduce(#[trigger] fold_rounds(v, xs, ys)[i])
            == reduce(weighted_sum(v, xs, ys, m as int, i, pow2(xs.len()))) by {
            assert(weighted_sum(v, xs, ys, m as int, i, 1) == weighted_sum(v, xs, ys, m as int, i, 0)
                + weight(0, xs, ys) * v[i + 0 * m]);
            assert(v[i + 0 * m] == v[i]);
        }
    } else {
        let k = xs.len();
        let xs2 = xs.drop_last();
        let ys2 = ys.drop_last();
        lemma_pow2_unfold(k);
        lemma_pow2_pos((k - 1) as nat);
        assert(v.len() == pow2(xs2.len()) * (2 * m)) by (nonlinear_arith)
            requires
                v.len() == pow2(k) * m,
                pow2(k) == 2 * pow2((k - 1) as nat),
                xs2.len() == k - 1,
        ;
        lemma_fold_rounds(v, xs2, ys2, 2 * m);
        let e = fold_rounds(v, xs2, ys2);
        assert(e.len() == 2 * m);
        let p = ys.last();
        let q = xs.last();
        let n = pow2(xs2.len());
        assert forall|i: int| 0 <= i < m implies reduce(#[trigger] fold_rounds(v, xs, ys)[i])
            == reduce(weighted_sum(v, xs, ys, m as int, i, pow2(xs.len()))) by {
            assert(fold_rounds(v, xs, ys) == fold(e, p, q));
            assert(fold(e, p, q)[i] == reduce(p * e[i] + q * e[m + i]));
            assert(reduce(e[i]) == reduce(weighted_sum(v, xs2, ys2, 2 * m as int, i, n)));
            assert(reduce(e[m + i]) == reduce(weighted_sum(v, xs2, ys2, 2 * m as int, i + m, n)));
            lemma_reduce_lin2(
                p,
                e[i],
                q,
                e[m + i],
                p,
                weighted_sum(v, xs2, ys2, 2 * m as int, i, n),
                q,
                weighted_sum(v, xs2, ys2, 2 * m as int, i + m, n),
            );
            lemma_weighted_sum_parity(v, xs, ys, m as int, i, n);
            lemma_reduce_range(p * e[i] + q * e[m + i]);
            assert(pow2(xs.len()) == 2 * n);
        }
    }
}

// ---------------------------------------------------------------------------
// One round of the inner product argument
// ---------------------------------------------------------------------------

/// The discrete logarithm of `⟨a, g⟩ + ⟨b, h⟩ + ⟨a, b⟩·U + r·G`, where `g`, `h` hold the
/// discrete logarithms of the generators, `u` that of `U` and `gamma` that of `G`.
pub open spec fn ipp_value(
    a: Seq<int>,
    b: Seq<int>,
    g: Seq<int>,
    h: Seq<int>,
    r: int,
    gamma: int,
    u: int,
) -> int {
    dot(a, g) + dot(b, h) + dot(a, b) * u + r * gamma
}

/// The discrete logarithm of the left cross term `L` of a round on vectors of length `2k`:
/// `⟨a_lo, g_hi⟩ + ⟨b_hi, h_lo⟩ + ⟨a_lo, b_hi⟩·U + r_l·G`.
pub open spec fn cross_left(
    a: Seq<int>,
    b: Seq<int>,
    g: Seq<int>,
    h: Seq<int>,
    rl: int,
    gamma: int,
    u: int,
) -> int {
    let k: int = a.len() as int / 2;
    dot_off(a, 0, g, k, k as nat) + dot_off(b, k, h, 0, k as nat) + dot_off(a, 0, b, k, k as nat)
        * u + rl * gamma
}

/// The discrete logarithm of the right cross term `R` of a round:
/// `⟨a_hi, g_lo⟩ + ⟨b_lo, h_hi⟩ + ⟨a_hi, b_lo⟩·U + r_r·G`.
pub open spec fn cross_right(
    a: Seq<int>,
    b: Seq<int>,
    g: Seq<int>,
    h: Seq<int>,
    rr: int,
    gamma: int,
    u: int,
) -> int {
    let k: int = a.len() as int / 2;
    dot_off(a, k, g, 0, k as nat) + dot_off(b, 0, h, k, k as nat) + dot_off(a, k, b, 0, k as nat)
        * u + rr * gamma
}

proof fn lemma_round_polynomial(
    xy: int,
    x2: int,
    y2: int,
    d00: int,
    d01: int,
    d10: int,
    d11: int,
    e00: int,
    e01: int,
    e10: int,
    e11: int,
    f00: int,
    f01: int,
    f10: int,
    f11: int,
    r: int,
    rl: int,
    rr: int,
    gamma: int,
    u: int,
)
    ensures
        (xy * d00 + x2 * d01 + y2 * d10 + xy * d11) + (xy * e00 + y2 * e01 + x2 * e10 + xy * e11) + (
        xy * f00 + x2 * f01 + y2 * f10 + xy * f11) * u + (r + x2 * rl + y2 * rr) * gamma == xy * (
        d00 + d11 + e00 + e11 + (f00 + f11) * u) + r * gamma + x2 * (d01 + e10 + f01 * u + rl
            * gamma) + y2 * (d10 + e01 + f10 * u + rr * gamma),
{
    lemma_distribute_right4(xy * f00, x2 * f01, y2 * f10, xy * f11, u);
    lemma_mul_is_associative(xy, f00, u);
    lemma_mul_is_associative(x2, f01, u);
    lemma_mul_is_associative(y2, f10, u);
    lemma_mul_is_associative(xy, f11, u);
    lemma_mul_is_distributive_add_other_way(gamma, r + x2 * rl, y2 * rr);
    lemma_mul_is_distributive_add_other_way(gamma, r, x2 * rl);
    lemma_mul_is_associative(x2, rl, gamma);
    lemma_mul_is_associative(y2, rr, gamma);
    lemma_mul_is_distributive_add_other_way(u, f00, f11);
    lemma_distribute_left4(xy, d00, d11, e00, e11);
    lemma_mul_is_distributive_add(xy, d00 + d11 + e00 + e11, (f00 + f11) * u);
    lemma_mul_is_distributive_add(xy, f00 * u, f11 * u);
    lemma_distribute_left4(x2, d01, e10, f01 * u, rl * gamma);
    lemma_distribute_left4(y2, d10, e01, f10 * u, rr * gamma);
}

/// Componentwise congruent parts give congruent values of the shape
/// `d1 + d2 + d3·u + r·gamma`.
proof fn lemma_value_congruent(
    d1: int,
    d2: int,
    d3: int,
    r: int,
    e1: int,
    e2: int,
    e3: int,
    s: int,
    gamma: int,
    u: int,
)
    requires
        reduce(d1) == reduce(e1),
        reduce(d2) == reduce(e2),
        reduce(d3) == reduce(e3),
        reduce(r) == reduce(s),
    ensures
        reduce(d1 + d2 + d3 * u + r * gamma) == reduce(e1 + e2 + e3 * u + s * gamma),
{
    lemma_reduce_lin2(d3, u, r, gamma, e3, u, s, gamma);
    lemma_reduce_add(d1, d2);
    lemma_reduce_add(e1, e2);
    lemma_reduce_add(d1 + d2, d3 * u + r * gamma);
    lemma_reduce_add(e1 + e2, e3 * u + s * gamma);
    assert(d1 + d2 + d3 * u + r * gamma == (d1 + d2) + (d3 * u + r * gamma));
    assert(e1 + e2 + e3 * u + s * gamma == (e1 + e2) + (e3 * u + s * gamma));
}

/// The folded inner product `⟨fold(a, p, q), fold(g, s, t)⟩` is congruent to the
/// expansion into the four cross products of the halves.
proof fn lemma_dot_of_folds(a: Seq<int>, g: Seq<int>, p: int, q: int, s: int, t: int)
    requires
        a.len() == g.len(),
        a.len() % 2 == 0,
    ensures
        ({
            let k: int = a.len() as int / 2;
            reduce(dot(fold(a, p, q), fold(g, s, t))) == reduce(p * s * dot_off(a, 0, g, 0, k as nat)
                + p * t * dot_off(a, 0, g, k, k as nat) + q * s * dot_off(a, k, g, 0, k as nat) + q
                * t * dot_off(a, k, g, k, k as nat))
        }),
{
    let k: int = a.len() as int / 2;
    let fa = fold(a, p, q);
    let fg = fold(g, s, t);
    let ea = Seq::new(k as nat, |i: int| p * a[i] + q * a[k + i]);
    let eg = Seq::new(k as nat, |i: int| s * g[i] + t * g[k + i]);
    assert forall|i: int| 0 <= i < k implies reduce(#[trigger] fa[0 + i]) == reduce(ea[0 + i]) by {
        lemma_reduce_range(ea[i]);
    }
    assert forall|i: int| 0 <= i < k implies reduce(#[trigger] fg[0 + i]) == reduce(eg[0 + i]) by {
        lemma_reduce_range(eg[i]);
    }
    lemma_dot_congruent(fa, 0, fg, 0, ea, 0, eg, 0, k as nat);
    lemma_dot_fold(a, g, ea, eg, k, k as nat, p, q, s, t);
}

/// One round of the argument keeps the committed value: with `x * y ≡ 1`, the value of
/// the folded vectors and the updated blinding factor equals the value before the round
/// plus `x²·L + y²·R`, modulo ℓ.
pub proof fn lemma_round(
    a: Seq<int>,
    b: Seq<int>,
    g: Seq<int>,
    h: Seq<int>,
    r: int,
    rl: int,
    rr: int,
    x: int,
    y: int,
    gamma: int,
    u: int,
)
    requires
        a.len() % 2 == 0,
        b.len() == a.len(),
        g.len() == a.len(),
        h.len() == a.len(),
        reduce(x * y) == 1,
    ensures
        reduce(
            ipp_value(
                fold(a, x, y),
                fold(b, y, x),
                fold(g, y, x),
                fold(h, x, y),
                reduce(r + x * x * rl + y * y * rr),
                gamma,
                u,
            ),
        ) == reduce(ipp_value(a, b, g, h, r, gamma, u) + x * x * cross_left(a, b, g, h, rl, gamma, u)
            + y * y * cross_right(a, b, g, h, rr, gamma, u)),
{
    let k: int = a.len() as int / 2;
    let kn = k as nat;
    assert(a.len() == kn + kn);
    let d00 = dot_off(a, 0, g, 0, kn);
    let d01 = dot_off(a, 0, g, k, kn);
    let d10 = dot_off(a, k, g, 0, kn);
    let d11 = dot_off(a, k, g, k, kn);
    let e00 = dot_off(b, 0, h, 0, kn);
    let e01 = dot_off(b, 0, h, k, kn);
    let e10 = dot_off(b, k, h, 0, kn);
    let e11 = dot_off(b, k, h, k, kn);
    let f00 = dot_off(a, 0, b, 0, kn);
    let f01 = dot_off(a, 0, b, k, kn);
    let f10 = dot_off(a, k, b, 0, kn);
    let f11 = dot_off(a, k, b, k, kn);
    lemma_dot_split(a, 0, g, 0, kn, kn);
    lemma_dot_split(b, 0, h, 0, kn, kn);
    lemma_dot_split(a, 0, b, 0, kn, kn);
    assert(dot(a, g) == d00 + d11);
    assert(dot(b, h) == e00 + e11);
    assert(dot(a, b) == f00 + f11);
    let xy = x * y;
    let x2 = x * x;
    let y2 = y * y;
    lemma_mul_is_commutative(x, y);
    lemma_dot_of_folds(a, g, x, y, y, x);
    lemma_dot_of_folds(b, h, y, x, x, y);
    lemma_dot_of_folds(a, b, x, y, y, x);
    let sa = xy * d00 + x2 * d01 + y2 * d10 + xy * d11;
    let sb = xy * e00 + y2 * e01 + x2 * e10 + xy * e11;
    let sab = xy * f00 + x2 * f01 + y2 * f10 + xy * f11;
    let fa = fold(a, x, y);
    let fb = fold(b, y, x);
    let fg = fold(g, y, x);
    let fh = fold(h, x, y);
    assert(fa.len() == k && fb.len() == k && fg.len() == k && fh.len() == k);
    assert(reduce(dot(fa, fg)) == reduce(sa));
    assert(reduce(dot(fb, fh)) == reduce(sb));
    assert(reduce(dot(fa, fb)) == reduce(sab));
    let rn = r + x2 * rl + y2 * rr;
    lemma_reduce_range(rn);
    lemma_value_congruent(
        dot(fa, fg),
        dot(fb, fh),
        dot(fa, fb),
        reduce(rn),
        sa,
        sb,
        sab,
        rn,
        gamma,
        u,
    );
    lemma_round_polynomial(
        xy, x2, y2, d00, d01, d10, d11, e00, e01, e10, e11, f00, f01, f10, f11, r, rl, rr, gamma,
        u,
    );
    let q = ipp_value(a, b, g, h, r, gamma, u);
    let w = q - r * gamma;
    let z = r * gamma + x2 * cross_left(a, b, g, h, rl, gamma, u) + y2 * cross_right(
        a,
        b,
        g,
        h,
        rr,
        gamma,
        u,
    );
    assert(sa + sb + sab * u + rn * gamma == xy * w + z);
    // x·y ≡ 1, so xy·w + z ≡ w + z
    lemma_reduce_mul(xy, w);
    assert(reduce(xy * w) == reduce(w)) by {
        assert(reduce(xy) * w == w);
    }
    lemma_reduce_add(xy * w, z);
    lemma_reduce_add(w, z);
    assert(w + z == q + x2 * cross_left(a, b, g, h, rl, gamma, u) + y2 * cross_right(
        a,
        b,
        g,
        h,
        rr,
        gamma,
        u,
    ));
}

} // verus!

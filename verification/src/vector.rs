//! Fixed-point embedding vectors and cosine similarity.
//!
//! A component value of `SCALE` stands for 1.0; a similarity score of
//! `SCALE` likewise stands for 1.0. Similarity is computed exactly over the
//! integers: `dot(a,b) * SCALE / isqrt(norm_sq(a) * norm_sq(b))`, truncated
//! toward zero and clamped to `[-SCALE, SCALE]`. A zero-norm operand gives
//! similarity 0.

use vstd::prelude::*;

verus! {

/// Number of fixed-point units that stand for 1.0.
pub const SCALE: i64 = 1_000_000;

/// Largest accepted embedding dimension; keeps all sums inside `i128`.
pub const MAX_DIM: usize = 4096;

/// An embedding vector in fixed-point form: each component is in
/// `[-SCALE, SCALE]` (the fixed-point image of `[-1.0, 1.0]`).
pub struct EmbedVector {
    pub components: Vec<i64>,
}

impl View for EmbedVector {
    type V = Seq<i64>;

    open spec fn view(&self) -> Seq<i64> {
        self.components@
    }
}

impl EmbedVector {
    /// Well-formed: bounded dimension, every component within one unit.
    pub open spec fn wf(&self) -> bool {
        &&& self@.len() <= MAX_DIM
        &&& forall|i: int|
            0 <= i < self@.len() ==> -SCALE <= #[trigger] self@[i] <= SCALE
    }

    /// Builds a vector, clamping each component into `[-SCALE, SCALE]` and
    /// truncating the dimension to `MAX_DIM`, so the result is always
    /// well-formed.
    pub fn new(raw: Vec<i64>) -> (v: EmbedVector)
        ensures
            v.wf(),
            v@.len() == if raw@.len() <= MAX_DIM { raw@.len() as int } else { MAX_DIM as int },
            forall|i: int| 0 <= i < v@.len() ==> v@[i] == clamp_component(raw@[i]),
    {
        let mut components: Vec<i64> = Vec::new();
        let mut i: usize = 0;
        let n: usize = if raw.len() <= MAX_DIM { raw.len() } else { MAX_DIM };
        while i < n
            invariant
                i <= n,
                n <= raw@.len(),
                n <= MAX_DIM,
                n as int == if raw@.len() <= MAX_DIM { raw@.len() as int } else { MAX_DIM as int },
                components@.len() == i,
                forall|j: int| 0 <= j < i ==> components@[j] == clamp_component(raw@[j]),
            decreases n - i,
        {
            let c: i64 = raw[i];
            let clamped: i64 = if c < -SCALE {
                -SCALE
            } else if c > SCALE {
                SCALE
            } else {
                c
            };
            components.push(clamped);
            i = i + 1;
        }
        EmbedVector { components }
    }

    /// Dimension of the vector.
    pub fn dim(&self) -> (n: usize)
        ensures
            n == self@.len(),
    {
        self.components.len()
    }
}

/// The fixed-point image of clamping a value into `[-1.0, 1.0]`.
pub open spec fn clamp_component(c: i64) -> i64 {
    if c < -SCALE {
        (-SCALE) as i64
    } else if c > SCALE {
        SCALE
    } else {
        c
    }
}

/// Dot product of the first `n` components of `a` and `b`.
pub open spec fn dot_prefix(a: Seq<i64>, b: Seq<i64>, n: int) -> int
    decreases n,
{
    if n <= 0 {
        0
    } else {
        dot_prefix(a, b, n - 1) + a[n - 1] * b[n - 1]
    }
}

/// Shared length over which two vectors are compared.
pub open spec fn common_len(a: Seq<i64>, b: Seq<i64>) -> int {
    if a.len() <= b.len() {
        a.len() as int
    } else {
        b.len() as int
    }
}

/// Dot product over the shared prefix of `a` and `b`.
pub open spec fn dot(a: Seq<i64>, b: Seq<i64>) -> int {
    dot_prefix(a, b, common_len(a, b))
}

/// Squared Euclidean norm of `a`.
pub open spec fn norm_sq(a: Seq<i64>) -> int {
    dot_prefix(a, a, a.len() as int)
}

/// Integer square root: the greatest `r` with `r * r <= n` (0 for `n <= 0`).
pub open spec fn isqrt(n: int) -> int
    decreases n,
{
    if n <= 0 {
        0
    } else {
        let r = isqrt(n - 1);
        if (r + 1) * (r + 1) <= n {
            r + 1
        } else {
            r
        }
    }
}

/// Fixed-point cosine similarity of `a` and `b`: 0 when either norm is zero,
/// else the truncated quotient `|dot| * SCALE / isqrt(norm_sq(a) * norm_sq(b))`,
/// clamped to `SCALE` and given the sign of the dot product.
pub open spec fn sim_spec(a: Seq<i64>, b: Seq<i64>) -> int {
    let d = dot(a, b);
    let na = norm_sq(a);
    let nb = norm_sq(b);
    if na == 0 || nb == 0 {
        0
    } else {
        let mag = (if d < 0 { -d } else { d }) * SCALE / isqrt(na * nb);
        let clamped = if mag > SCALE { SCALE as int } else { mag };
        if d < 0 {
            -clamped
        } else {
            clamped
        }
    }
}

/// The dot product does not depend on the order of its arguments.
pub proof fn lemma_dot_prefix_symmetric(a: Seq<i64>, b: Seq<i64>, n: int)
    ensures
        dot_prefix(a, b, n) == dot_prefix(b, a, n),
    decreases n,
{
    if n > 0 {
        lemma_dot_prefix_symmetric(a, b, n - 1);
    }
}

/// A sum of squares is non-negative.
pub proof fn lemma_norm_sq_nonneg(a: Seq<i64>, n: int)
    ensures
        dot_prefix(a, a, n) >= 0,
    decreases n,
{
    if n > 0 {
        lemma_norm_sq_nonneg(a, n - 1);
        assert(a[n - 1] * a[n - 1] >= 0) by (nonlinear_arith);
    }
}

/// `isqrt(n)` is non-negative and is the greatest root below `n`.
pub proof fn lemma_isqrt_bounds(n: int)
    requires
        n >= 0,
    ensures
        isqrt(n) >= 0,
        isqrt(n) * isqrt(n) <= n,
        n < (isqrt(n) + 1) * (isqrt(n) + 1),
    decreases n,
{
    if n > 0 {
        lemma_isqrt_bounds(n - 1);
        let r = isqrt(n - 1);
        if (r + 1) * (r + 1) <= n {
            assert(n < (r + 2) * (r + 2)) by (nonlinear_arith)
                requires
                    n - 1 < (r + 1) * (r + 1),
                    r >= 0,
            ;
        }
    }
}

/// Any `r` squeezed between consecutive squares is the integer square root.
pub proof fn lemma_isqrt_unique(n: int, r: int)
    requires
        n >= 0,
        r >= 0,
        r * r <= n,
        n < (r + 1) * (r + 1),
    ensures
        r == isqrt(n),
{
    lemma_isqrt_bounds(n);
    let s = isqrt(n);
    assert(r == s) by (nonlinear_arith)
        requires
            r >= 0,
            s >= 0,
            r * r <= n,
            n < (r + 1) * (r + 1),
            s * s <= n,
            n < (s + 1) * (s + 1),
    ;
}

/// The integer square root of a perfect square is exact.
pub proof fn lemma_isqrt_square(n: int)
    requires
        n >= 0,
    ensures
        isqrt(n * n) == n,
{
    assert(n * n >= 0 && n * n < (n + 1) * (n + 1)) by (nonlinear_arith)
        requires
            n >= 0,
    ;
    lemma_isqrt_unique(n * n, n);
}

/// Cosine similarity is symmetric.
pub proof fn lemma_sim_symmetric(a: Seq<i64>, b: Seq<i64>)
    ensures
        sim_spec(a, b) == sim_spec(b, a),
{
    lemma_dot_prefix_symmetric(a, b, common_len(a, b));
    assert(norm_sq(a) * norm_sq(b) == norm_sq(b) * norm_sq(a)) by (nonlinear_arith);
}

/// Self-similarity of a vector with a non-zero component is exactly 1.0
/// (`SCALE` in fixed-point form).
pub proof fn lemma_sim_self(v: Seq<i64>)
    requires
        exists|i: int| 0 <= i < v.len() && v[i] != 0,
    ensures
        sim_spec(v, v) == SCALE,
{
    lemma_norm_zero_iff(v);
    let n = norm_sq(v);
    lemma_norm_sq_nonneg(v, v.len() as int);
    lemma_isqrt_square(n);
    assert(common_len(v, v) == v.len() as int);
    assert(dot(v, v) == n);
    assert(n * SCALE / isqrt(n * n) == SCALE) by (nonlinear_arith)
        requires
            n > 0,
            isqrt(n * n) == n,
    ;
}

/// Similarity against a zero-norm operand is 0.
pub proof fn lemma_sim_zero_norm(a: Seq<i64>, b: Seq<i64>)
    requires
        norm_sq(a) == 0 || norm_sq(b) == 0,
    ensures
        sim_spec(a, b) == 0,
{
}

/// A vector has zero norm exactly when every component is zero.
pub proof fn lemma_norm_zero_iff(v: Seq<i64>)
    ensures
        norm_sq(v) == 0 <==> (forall|i: int| 0 <= i < v.len() ==> v[i] == 0),
{
    lemma_norm_prefix_zero_iff(v, v.len() as int);
}

proof fn lemma_norm_prefix_zero_iff(v: Seq<i64>, n: int)
    requires
        n <= v.len(),
    ensures
        dot_prefix(v, v, n) == 0 <==> (forall|i: int| 0 <= i < n ==> v[i] == 0),
    decreases n,
{
    if n > 0 {
        lemma_norm_prefix_zero_iff(v, n - 1);
        lemma_norm_sq_nonneg(v, n - 1);
        assert(v[n - 1] * v[n - 1] >= 0 && (v[n - 1] * v[n - 1] == 0 <==> v[n - 1] == 0))
            by (nonlinear_arith);
    }
}

/// Term-wise bound: a dot product over `n` bounded components lies within
/// `n * SCALE * SCALE`.
pub proof fn lemma_dot_prefix_bound(a: Seq<i64>, b: Seq<i64>, n: int)
    requires
        0 <= n,
        n <= a.len(),
        n <= b.len(),
        forall|i: int| 0 <= i < n ==> -SCALE <= #[trigger] a[i] <= SCALE,
        forall|i: int| 0 <= i < n ==> -SCALE <= #[trigger] b[i] <= SCALE,
    ensures
        -n * SCALE * SCALE <= dot_prefix(a, b, n) <= n * SCALE * SCALE,
    decreases n,
{
    if n > 0 {
        lemma_dot_prefix_bound(a, b, n - 1);
        assert(-(SCALE * SCALE) <= a[n - 1] * b[n - 1] <= SCALE * SCALE) by (nonlinear_arith)
            requires
                -SCALE <= a[n - 1] <= SCALE,
                -SCALE <= b[n - 1] <= SCALE,
        ;
        assert((n - 1) * SCALE * SCALE + SCALE * SCALE == n * SCALE * SCALE) by (nonlinear_arith);
        assert(-((n - 1) * SCALE * SCALE) - SCALE * SCALE == -n * SCALE * SCALE)
            by (nonlinear_arith);
    }
}

/// Exact integer square root of `x`, by bisection.
pub fn isqrt_u128(x: u128) -> (r: u128)
    ensures
        r == isqrt(x as int),
{
    proof {
        lemma_isqrt_bounds(x as int);
    }
    if x < 2 {
        proof {
            if x == 0 {
                lemma_isqrt_unique(0, 0);
            } else {
                lemma_isqrt_unique(1, 1);
            }
        }
        return x;
    }
    let mut lo: u128 = 1;
    let mut hi: u128 = x;
    proof {
        assert((x as int) < (x as int) * (x as int)) by (nonlinear_arith)
            requires
                x >= 2,
        ;
    }
    while lo + 1 < hi
        invariant
            1 <= lo < hi <= x,
            (lo as int) * (lo as int) <= x as int,
            (x as int) < (hi as int) * (hi as int),
        decreases hi - lo,
    {
        let mid: u128 = lo + (hi - lo) / 2;
        if mid <= x / mid {
            proof {
                lemma_le_div_iff_mul_le(x as int, mid as int, mid as int);
            }
            lo = mid;
        } else {
            proof {
                lemma_le_div_iff_mul_le(x as int, mid as int, mid as int);
            }
            hi = mid;
        }
    }
    proof {
        lemma_isqrt_unique(x as int, lo as int);
    }
    lo
}

/// For `d > 0`: `a <= x / d` exactly when `a * d <= x`.
proof fn lemma_le_div_iff_mul_le(x: int, d: int, a: int)
    requires
        x >= 0,
        d > 0,
    ensures
        a <= x / d <==> a * d <= x,
{
    vstd::arithmetic::div_mod::lemma_fundamental_div_mod(x, d);
    assert(a <= x / d <==> a * d <= x) by (nonlinear_arith)
        requires
            d > 0,
            x == d * (x / d) + x % d,
            0 <= x % d < d,
    ;
}

/// Fixed-point cosine similarity of two well-formed vectors; the returned
/// score is `sim_spec(a@, b@)` and always lies in `[-SCALE, SCALE]`.
pub fn cosine_similarity(a: &EmbedVector, b: &EmbedVector) -> (score: i64)
    requires
        a.wf(),
        b.wf(),
    ensures
        score == sim_spec(a@, b@),
        -SCALE <= score <= SCALE,
{
    let n: usize = if a.components.len() <= b.components.len() {
        a.components.len()
    } else {
        b.components.len()
    };
    let mut d: i128 = 0;
    let mut i: usize = 0;
    while i < n
        invariant
            i <= n,
            n as int == common_len(a@, b@),
            n <= a@.len(),
            n <= b@.len(),
            a.wf(),
            b.wf(),
            d == dot_prefix(a@, b@, i as int),
            -(i as int) * SCALE * SCALE <= d as int <= (i as int) * SCALE * SCALE,
        decreases n - i,
    {
        proof {
            lemma_dot_prefix_bound(a@, b@, i + 1);
            assert((i + 1) * SCALE * SCALE <= 4096 * (SCALE as int) * SCALE) by (nonlinear_arith)
                requires
                    0 <= i,
                    i + 1 <= 4096,
            ;
        }
        d = d + (a.components[i] as i128) * (b.components[i] as i128);
        i = i + 1;
    }
    let na: i128 = norm_sq_exec(a);
    let nb: i128 = norm_sq_exec(b);
    if na == 0 || nb == 0 {
        return 0;
    }
    proof {
        assert(1 <= (na as int) * (nb as int) <= 16777216000000000000000000000000) by (nonlinear_arith)
            requires
                0 < na as int <= 4096 * (SCALE as int) * SCALE,
                0 < nb as int <= 4096 * (SCALE as int) * SCALE,
        ;
    }
    let prod: i128 = na * nb;
    let root: u128 = isqrt_u128(prod as u128);
    proof {
        lemma_isqrt_bounds(prod as int);
        assert(1 <= isqrt(prod as int) <= prod as int) by (nonlinear_arith)
            requires
                prod as int >= 1,
                isqrt(prod as int) >= 0,
                isqrt(prod as int) * isqrt(prod as int) <= prod as int,
                (prod as int) < (isqrt(prod as int) + 1) * (isqrt(prod as int) + 1),
        ;
    }
    proof {
        assert(-(4096 * (SCALE as int) * SCALE * SCALE) <= (d as int) * SCALE <= 4096 * (
        SCALE as int) * SCALE * SCALE) by (nonlinear_arith)
            requires
                -(n as int) * SCALE * SCALE <= d as int <= (n as int) * SCALE * SCALE,
                n <= 4096,
        ;
    }
    let mag_num: i128 = (if d < 0 {
        -d
    } else {
        d
    }) * (SCALE as i128);
    proof {
        vstd::arithmetic::div_mod::lemma_div_pos_is_pos(mag_num as int, root as int);
    }
    let mag: i128 = mag_num / (root as i128);
    let clamped: i64 = if mag > SCALE as i128 {
        SCALE
    } else {
        mag as i64
    };
    if d < 0 {
        -clamped
    } else {
        clamped
    }
}

/// Squared norm of a well-formed vector.
pub fn norm_sq_exec(v: &EmbedVector) -> (n: i128)
    requires
        v.wf(),
    ensures
        n == norm_sq(v@),
        0 <= n <= 4096 * (SCALE as int) * SCALE,
{
    let len: usize = v.components.len();
    let mut acc: i128 = 0;
    let mut i: usize = 0;
    proof {
        lemma_norm_sq_nonneg(v@, 0);
    }
    while i < len
        invariant
            i <= len,
            len == v@.len(),
            v.wf(),
            acc == dot_prefix(v@, v@, i as int),
            0 <= acc as int <= (i as int) * SCALE * SCALE,
        decreases len - i,
    {
        proof {
            lemma_dot_prefix_bound(v@, v@, i + 1);
            lemma_norm_sq_nonneg(v@, i + 1);
            assert((i + 1) * SCALE * SCALE <= 4096 * (SCALE as int) * SCALE) by (nonlinear_arith)
                requires
                    0 <= i,
                    i + 1 <= 4096,
            ;
        }
        acc = acc + (v.components[i] as i128) * (v.components[i] as i128);
        i = i + 1;
    }
    proof {
        assert((len as int) * SCALE * SCALE <= 4096 * (SCALE as int) * SCALE) by (nonlinear_arith)
            requires
                0 <= len as int <= 4096,
        ;
    }
    acc
}

} // verus!

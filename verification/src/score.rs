//! Fixed-point scores and embedding arithmetic.
//!
//! Scores in the unit interval are held as integer micro-units: `SCALE`
//! stands for 1.0. Embedding vectors hold components in micro-units as well,
//! so cosine similarity and the priority blend are exact integer formulas.

use vstd::prelude::*;
use vstd::arithmetic::div_mod::{
    lemma_div_is_ordered, lemma_div_multiples_vanish, lemma_div_pos_is_pos,
    lemma_fundamental_div_mod, lemma_fundamental_div_mod_converse,
};

verus! {

/// One, in micro-units.
pub const SCALE: i64 = 1_000_000;

/// Largest magnitude of an embedding component, in micro-units.
pub const EMBED_UNIT: i64 = 1_000_000;

/// Largest supported embedding dimensionality.
pub const EMBED_MAX_DIM: usize = 1_000_000;

/// Thirty days, in seconds; the recency horizon of the priority formula.
pub const RECENCY_HORIZON_SECS: i64 = 2_592_000;

/// A score is a fixed-point value in `[0, 1]`.
pub open spec fn score_wf(s: i64) -> bool {
    0 <= s <= SCALE
}

/// A well-formed embedding: bounded dimension, bounded components.
pub open spec fn embedding_wf(e: Seq<i64>) -> bool {
    &&& e.len() <= EMBED_MAX_DIM
    &&& forall|i: int| 0 <= i < e.len() ==> -EMBED_UNIT <= #[trigger] e[i] <= EMBED_UNIT
}

/// Dot product; zero when the dimensions differ.
pub open spec fn dot(a: Seq<i64>, b: Seq<i64>) -> int
    decreases a.len()
{
    if a.len() == 0 || a.len() != b.len() {
        0
    } else {
        dot(a.drop_last(), b.drop_last()) + (a.last() as int) * (b.last() as int)
    }
}

/// Squared Euclidean norm.
pub open spec fn norm2(a: Seq<i64>) -> int {
    dot(a, a)
}

/// Integer square root: the greatest `r` with `r * r <= n`.
pub open spec fn isqrt_spec(n: int) -> int
    decreases n
{
    if n <= 0 {
        0
    } else {
        let r = isqrt_spec(n - 1);
        if (r + 1) * (r + 1) <= n {
            r + 1
        } else {
            r
        }
    }
}

pub proof fn lemma_isqrt_bounds(n: int)
    requires
        n >= 0,
    ensures
        isqrt_spec(n) >= 0,
        isqrt_spec(n) * isqrt_spec(n) <= n,
        n < (isqrt_spec(n) + 1) * (isqrt_spec(n) + 1),
    decreases n
{
    if n == 0 {
    } else {
        lemma_isqrt_bounds(n - 1);
        let r = isqrt_spec(n - 1);
        if (r + 1) * (r + 1) <= n {
            assert(n < (r + 2) * (r + 2)) by (nonlinear_arith)
                requires
                    r >= 0,
                    n - 1 < (r + 1) * (r + 1),
                    (r + 1) * (r + 1) <= n,
            ;
        }
    }
}

pub proof fn lemma_isqrt_unique(n: int, r: int)
    requires
        n >= 0,
        r >= 0,
        r * r <= n,
        n < (r + 1) * (r + 1),
    ensures
        r == isqrt_spec(n),
{
    let q = isqrt_spec(n);
    lemma_isqrt_bounds(n);
    if r < q {
        assert((r + 1) * (r + 1) <= q * q) by (nonlinear_arith)
            requires
                0 <= r,
                r + 1 <= q,
        ;
    }
    if r > q {
        assert((q + 1) * (q + 1) <= r * r) by (nonlinear_arith)
            requires
                0 <= q,
                q + 1 <= r,
        ;
    }
}

/// Executable integer square root by bisection.
pub fn isqrt_u128(n: u128) -> (r: u128)
    requires
        n < 0x40000000000000000000000000000000u128,
    ensures
        r as int == isqrt_spec(n as int),
        (r as int) * (r as int) <= n as int,
        (n as int) < (r as int + 1) * (r as int + 1),
{
    let mut lo: u128 = 0;
    let mut hi: u128 = 0x8000000000000000u128;
    proof {
        assert((hi as int) * (hi as int) == 0x40000000000000000000000000000000)
            by (nonlinear_arith)
            requires
                hi == 0x8000000000000000u128,
        ;
    }
    while hi - lo > 1
        invariant
            lo < hi <= 0x8000000000000000u128,
            (lo as int) * (lo as int) <= n as int,
            (n as int) < (hi as int) * (hi as int),
        decreases hi - lo,
    {
        let mid: u128 = lo + (hi - lo) / 2;
        proof {
            assert((mid as int) * (mid as int) < 0x40000000000000000000000000000000)
                by (nonlinear_arith)
                requires
                    0 <= (mid as int),
                    (mid as int) < 0x8000000000000000,
            ;
        }
        if mid * mid <= n {
            lo = mid;
        } else {
            hi = mid;
        }
    }
    proof {
        lemma_isqrt_unique(n as int, lo as int);
    }
    lo
}

pub proof fn lemma_norm2_nonneg(a: Seq<i64>)
    ensures
        norm2(a) >= 0,
    decreases a.len()
{
    if a.len() != 0 {
        lemma_norm2_nonneg(a.drop_last());
        let x = a.last() as int;
        assert(x * x >= 0) by (nonlinear_arith);
    }
}

/// Cauchy-Schwarz: the dot product squared never exceeds the product of the
/// squared norms.
pub proof fn lemma_cauchy_schwarz(a: Seq<i64>, b: Seq<i64>)
    requires
        a.len() == b.len(),
    ensures
        dot(a, b) * dot(a, b) <= norm2(a) * norm2(b),
    decreases a.len()
{
    if a.len() == 0 {
        assert(dot(a, b) == 0);
    } else {
        let a1 = a.drop_last();
        let b1 = b.drop_last();
        lemma_cauchy_schwarz(a1, b1);
        lemma_norm2_nonneg(a1);
        lemma_norm2_nonneg(b1);
        let d = dot(a1, b1);
        let na = norm2(a1);
        let nb = norm2(b1);
        let x = a.last() as int;
        let y = b.last() as int;
        let u = na * (y * y);
        let v = nb * (x * x);
        assert(u >= 0 && v >= 0) by (nonlinear_arith)
            requires
                na >= 0,
                nb >= 0,
                u == na * (y * y),
                v == nb * (x * x),
        ;
        assert(4 * (u * v) <= (u + v) * (u + v)) by (nonlinear_arith);
        assert((2 * (d * (x * y))) * (2 * (d * (x * y))) <= 4 * (u * v)) by (nonlinear_arith)
            requires
                d * d <= na * nb,
                na >= 0,
                nb >= 0,
                u == na * (y * y),
                v == nb * (x * x),
        ;
        assert(2 * (d * (x * y)) <= u + v) by (nonlinear_arith)
            requires
                (2 * (d * (x * y))) * (2 * (d * (x * y))) <= (u + v) * (u + v),
                u + v >= 0,
        ;
        let p = x * y;
        assert((d + p) * (d + p) == d * d + 2 * (d * p) + p * p) by (nonlinear_arith);
        assert(p * p == (x * x) * (y * y)) by (nonlinear_arith)
            requires
                p == x * y,
        ;
        assert((na + x * x) * (nb + y * y) == na * nb + na * (y * y) + nb * (x * x) + (x * x) * (
        y * y)) by (nonlinear_arith);
        assert((d + p) * (d + p) <= (na + x * x) * (nb + y * y));
        assert(dot(a, b) == d + x * y);
        assert(norm2(a) == na + x * x);
        assert(norm2(b) == nb + y * y);
    }
}

/// Cosine similarity in micro-units, with sign-splitting truncated division
/// as the executable code computes it. Mismatched or empty vectors, and
/// vectors of zero norm, score zero.
pub open spec fn similarity_spec(a: Seq<i64>, b: Seq<i64>) -> int {
    if a.len() == 0 || b.len() == 0 || a.len() != b.len() {
        0
    } else {
        let na = norm2(a);
        let nb = norm2(b);
        if na == 0 || nb == 0 {
            0
        } else {
            let d = dot(a, b);
            let q = isqrt_spec(na * nb);
            if d >= 0 {
                d * (SCALE as int) / q
            } else {
                -((-d) * (SCALE as int) / q)
            }
        }
    }
}

/// The similarity always lies in `[-SCALE, SCALE]`.
pub proof fn lemma_similarity_bounds(a: Seq<i64>, b: Seq<i64>)
    ensures
        -(SCALE as int) <= similarity_spec(a, b) <= SCALE as int,
{
    if a.len() == 0 || b.len() == 0 || a.len() != b.len() {
    } else {
        let na = norm2(a);
        let nb = norm2(b);
        lemma_norm2_nonneg(a);
        lemma_norm2_nonneg(b);
        if na == 0 || nb == 0 {
        } else {
            let d = dot(a, b);
            let m = na * nb;
            assert(m >= 1) by (nonlinear_arith)
                requires
                    na >= 1,
                    nb >= 1,
                    m == na * nb,
            ;
            lemma_cauchy_schwarz(a, b);
            lemma_isqrt_bounds(m);
            let q = isqrt_spec(m);
            assert(q >= 1) by (nonlinear_arith)
                requires
                    q >= 0,
                    q * q <= m,
                    1 <= m,
                    m < (q + 1) * (q + 1),
            ;
            assert(d <= q && -d <= q) by (nonlinear_arith)
                requires
                    d * d <= m,
                    m < (q + 1) * (q + 1),
                    q >= 0,
            ;
            lemma_div_multiples_vanish(SCALE as int, q);
            assert(q * (SCALE as int) == (SCALE as int) * q) by (nonlinear_arith);
            if d >= 0 {
                assert(d * (SCALE as int) <= q * (SCALE as int)) by (nonlinear_arith)
                    requires
                        d <= q,
                        SCALE as int > 0,
                ;
                lemma_div_is_ordered(d * (SCALE as int), q * (SCALE as int), q);
                lemma_div_pos_is_pos(d * (SCALE as int), q);
                assert(d * (SCALE as int) >= 0) by (nonlinear_arith)
                    requires
                        d >= 0,
                ;
            } else {
                assert((-d) * (SCALE as int) <= q * (SCALE as int)) by (nonlinear_arith)
                    requires
                        -d <= q,
                        SCALE as int > 0,
                ;
                lemma_div_is_ordered((-d) * (SCALE as int), q * (SCALE as int), q);
                lemma_div_pos_is_pos((-d) * (SCALE as int), q);
                assert((-d) * (SCALE as int) >= 0) by (nonlinear_arith)
                    requires
                        d < 0,
                ;
            }
        }
    }
}

/// The similarity of a nonzero vector with itself is exactly one.
pub proof fn lemma_similarity_self(a: Seq<i64>)
    requires
        a.len() > 0,
        norm2(a) != 0,
    ensures
        similarity_spec(a, a) == SCALE as int,
{
    lemma_norm2_nonneg(a);
    let n = norm2(a);
    assert(n * n < (n + 1) * (n + 1)) by (nonlinear_arith)
        requires
            n >= 0,
    ;
    assert(n * n >= 0) by (nonlinear_arith);
    lemma_isqrt_unique(n * n, n);
    assert(n * (SCALE as int) == (SCALE as int) * n) by (nonlinear_arith);
    lemma_div_multiples_vanish(SCALE as int, n);
}

/// Vectors of different dimensionality have similarity zero.
pub proof fn lemma_similarity_mismatch(a: Seq<i64>, b: Seq<i64>)
    requires
        a.len() != b.len(),
    ensures
        similarity_spec(a, b) == 0,
{
}

/// Executable cosine similarity over fixed-point embeddings.
pub fn cosine_similarity(a: &[i64], b: &[i64]) -> (r: i64)
    requires
        embedding_wf(a@),
        embedding_wf(b@),
    ensures
        r as int == similarity_spec(a@, b@),
        -SCALE <= r <= SCALE,
{
    proof {
        lemma_similarity_bounds(a@, b@);
    }
    if a.len() == 0 || b.len() == 0 || a.len() != b.len() {
        return 0;
    }
    let n = a.len();
    let mut i: usize = 0;
    let mut d: i128 = 0;
    let mut na: i128 = 0;
    let mut nb: i128 = 0;
    while i < n
        invariant
            n == a@.len() == b@.len(),
            embedding_wf(a@),
            embedding_wf(b@),
            i <= n,
            d == dot(a@.subrange(0, i as int), b@.subrange(0, i as int)),
            na == norm2(a@.subrange(0, i as int)),
            nb == norm2(b@.subrange(0, i as int)),
            -(i as int) * 1_000_000_000_000 <= d <= (i as int) * 1_000_000_000_000,
            0 <= na <= (i as int) * 1_000_000_000_000,
            0 <= nb <= (i as int) * 1_000_000_000_000,
        decreases n - i,
    {
        let x = a[i];
        let y = b[i];
        proof {
            assert(
                -1_000_000_000_000 <= (x as int) * (y as int) <= 1_000_000_000_000
                && 0 <= (x as int) * (x as int) <= 1_000_000_000_000
                && 0 <= (y as int) * (y as int) <= 1_000_000_000_000
            ) by (nonlinear_arith)
                requires
                    -1_000_000 <= x as int <= 1_000_000,
                    -1_000_000 <= y as int <= 1_000_000,
            ;
            let pa = a@.subrange(0, i + 1);
            let pb = b@.subrange(0, i + 1);
            assert(pa.drop_last() =~= a@.subrange(0, i as int));
            assert(pb.drop_last() =~= b@.subrange(0, i as int));
            assert(pa.last() == a@[i as int] && pb.last() == b@[i as int]);
        }
        d = d + (x as i128) * (y as i128);
        na = na + (x as i128) * (x as i128);
        nb = nb + (y as i128) * (y as i128);
        i = i + 1;
    }
    proof {
        assert(a@.subrange(0, n as int) =~= a@);
        assert(b@.subrange(0, n as int) =~= b@);
    }
    if na == 0 || nb == 0 {
        return 0;
    }
    proof {
        assert(na * nb <= 1_000_000_000_000_000_000i128 * 1_000_000_000_000_000_000i128)
            by (nonlinear_arith)
            requires
                0 < na <= 1_000_000_000_000_000_000i128,
                0 < nb <= 1_000_000_000_000_000_000i128,
        ;
        assert(na * nb >= 1) by (nonlinear_arith)
            requires
                na >= 1,
                nb >= 1,
        ;
    }
    let m: i128 = na * nb;
    let mu: u128 = m as u128;
    let q: u128 = isqrt_u128(mu);
    proof {
        assert(mu as int == m as int);
        assert(q as int >= 1) by (nonlinear_arith)
            requires
                q as int == isqrt_spec(mu as int),
                isqrt_spec(mu as int) >= 0,
                (mu as int) < (isqrt_spec(mu as int) + 1) * (isqrt_spec(mu as int) + 1),
                1 <= mu as int,
        ;
        assert(m as int == norm2(a@) * norm2(b@));
    }
    if d >= 0 {
        let num: u128 = (d as u128) * (SCALE as u128);
        let r128: u128 = num / q;
        proof {
            assert(num as int == (d as int) * (SCALE as int));
            assert(r128 as int == similarity_spec(a@, b@));
        }
        r128 as i64
    } else {
        let neg: i128 = -d;
        let num: u128 = (neg as u128) * (SCALE as u128);
        let r128: u128 = num / q;
        proof {
            assert(num as int == (neg as int) * (SCALE as int));
            assert(-(r128 as int) == similarity_spec(a@, b@));
        }
        -(r128 as i64)
    }
}

/// Clamp to the unit interval, in spec form.
pub open spec fn clamp01_spec(x: int) -> int {
    if x < 0 {
        0
    } else if x > SCALE as int {
        SCALE as int
    } else {
        x
    }
}

/// Clamp a fixed-point value to `[0, SCALE]`.
pub fn clamp01(x: i64) -> (r: i64)
    ensures
        r as int == clamp01_spec(x as int),
        score_wf(r),
{
    if x < 0 {
        0
    } else if x > SCALE {
        SCALE
    } else {
        x
    }
}

/// Importance values stay well inside this bound, so the fixed-point blends
/// cannot overflow.
pub const IMPORTANCE_BOUND: i128 = 10_000_000_000_000_000_000_000_000;

/// Clamp a wide fixed-point value to `[0, SCALE]`.
fn clamp01_wide(x: i128) -> (r: i64)
    ensures
        r as int == clamp01_spec(x as int),
        score_wf(r),
{
    if x < 0 {
        0
    } else if x > SCALE as i128 {
        SCALE
    } else {
        x as i64
    }
}

/// Floor division by ten, matching the spec-level integer division.
fn floor_div10(x: i128) -> (r: i128)
    requires
        -0x40000000000000000000000000000000 < x < 0x40000000000000000000000000000000,
    ensures
        r as int == x as int / 10,
{
    if x >= 0 {
        x / 10
    } else {
        let r = -((-x + 9) / 10);
        proof {
            let q = x as int / 10;
            let m = x as int % 10;
            lemma_fundamental_div_mod(x as int, 10);
            assert((-(x as int) + 9) == 10 * (-q) + (9 - m));
            lemma_fundamental_div_mod_converse(-(x as int) + 9, 10, -q, 9 - m);
        }
        r
    }
}

/// Priority of a freshly inserted record: `importance * 0.4 + 0.3`, with only
/// the final blend clamped to the unit interval.
pub open spec fn priority_initial_spec(importance: int) -> int {
    clamp01_spec(importance * 4 / 10 + (SCALE as int) * 3 / 10)
}

pub fn priority_initial(importance: i128) -> (r: i64)
    requires
        -IMPORTANCE_BOUND <= importance <= IMPORTANCE_BOUND,
    ensures
        r as int == priority_initial_spec(importance as int),
        score_wf(r),
{
    let q = floor_div10(importance * 4);
    clamp01_wide(q + 300_000)
}

/// Recency score: `1 - age / 30 days`, clamped to the unit interval.
pub open spec fn recency_spec(age_secs: int) -> int {
    if age_secs <= 0 {
        SCALE as int
    } else if age_secs >= RECENCY_HORIZON_SECS as int {
        0
    } else {
        (SCALE as int) - age_secs * (SCALE as int) / (RECENCY_HORIZON_SECS as int)
    }
}

pub fn recency_score(age_secs: i64) -> (r: i64)
    ensures
        r as int == recency_spec(age_secs as int),
        score_wf(r),
{
    if age_secs <= 0 {
        SCALE
    } else if age_secs >= RECENCY_HORIZON_SECS {
        0
    } else {
        proof {
            lemma_div_pos_is_pos(age_secs as int * (SCALE as int), RECENCY_HORIZON_SECS as int);
            lemma_div_is_ordered(
                age_secs as int * (SCALE as int),
                (RECENCY_HORIZON_SECS as int) * (SCALE as int),
                RECENCY_HORIZON_SECS as int,
            );
            lemma_div_multiples_vanish(SCALE as int, RECENCY_HORIZON_SECS as int);
            assert(age_secs as int * (SCALE as int) >= 0 && age_secs as int * (SCALE as int)
                <= (RECENCY_HORIZON_SECS as int) * (SCALE as int)) by (nonlinear_arith)
                requires
                    0 < age_secs as int <= RECENCY_HORIZON_SECS as int,
            ;
        }
        SCALE - age_secs * SCALE / RECENCY_HORIZON_SECS
    }
}

/// Access-frequency score: `sqrt(access_count) / 10`, clamped.
pub open spec fn access_score_spec(count: int) -> int {
    clamp01_spec(isqrt_spec(count) * (SCALE as int) / 10)
}

pub fn access_score(count: u64) -> (r: i64)
    ensures
        r as int == access_score_spec(count as int),
        score_wf(r),
{
    let root: u128 = isqrt_u128(count as u128);
    proof {
        lemma_isqrt_bounds(count as int);
        assert(root * root <= count);
        assert(root <= 0xFFFFFFFFu128) by (nonlinear_arith)
            requires
                (root as int) * (root as int) <= count as int,
                count as int <= 0xFFFFFFFFFFFFFFFFu64 as int,
                root >= 0,
        ;
    }
    let scaled: u128 = root * (SCALE as u128) / 10;
    proof {
        assert(root * (SCALE as u128) == (root as int) * (SCALE as int));
        assert((root as int) * (SCALE as int) <= 0xFFFFFFFFu128 * 1_000_000) by (nonlinear_arith)
            requires
                root <= 0xFFFFFFFFu128,
        ;
    }
    if scaled > SCALE as u128 {
        SCALE
    } else {
        scaled as i64
    }
}

/// Priority of an updated record:
/// `importance * 0.4 + recency * 0.3 + access * 0.3`, with only the final
/// blend clamped to the unit interval.
pub open spec fn priority_update_spec(importance: int, age_secs: int, count: int) -> int {
    clamp01_spec(
        importance * 4 / 10 + recency_spec(age_secs) * 3 / 10 + access_score_spec(count) * 3
            / 10,
    )
}

pub fn priority_update(importance: i128, age_secs: i64, count: u64) -> (r: i64)
    requires
        -IMPORTANCE_BOUND <= importance <= IMPORTANCE_BOUND,
    ensures
        r as int == priority_update_spec(importance as int, age_secs as int, count as int),
        score_wf(r),
{
    let q = floor_div10(importance * 4);
    let rec = recency_score(age_secs);
    let acc = access_score(count);
    clamp01_wide(q + (rec * 3 / 10) as i128 + (acc * 3 / 10) as i128)
}

/// Ranking key blending similarity and priority; a larger key ranks earlier.
/// This is the blend `similarity * (1 - w) + priority * w` left unscaled,
/// which orders candidates identically.
pub open spec fn combined_spec(sim: int, priority: int, weight: int) -> int {
    sim * ((SCALE as int) - weight) + priority * weight
}

/// Executable combined ranking key.
pub fn combined_score(sim: i64, priority: i64, weight: i64) -> (r: i128)
    requires
        -SCALE <= sim <= SCALE,
        score_wf(priority),
        score_wf(weight),
    ensures
        r as int == combined_spec(sim as int, priority as int, weight as int),
{
    proof {
        assert(
            -1_000_000_000_000 <= (sim as int) * ((SCALE as int) - weight as int)
                <= 1_000_000_000_000 && 0 <= (priority as int) * (weight as int)
                <= 1_000_000_000_000
        ) by (nonlinear_arith)
            requires
                -(SCALE as int) <= sim as int <= SCALE as int,
                0 <= priority as int <= SCALE as int,
                0 <= weight as int <= SCALE as int,
        ;
    }
    (sim as i128) * ((SCALE - weight) as i128) + (priority as i128) * (weight as i128)
}

} // verus!

//! Similarity measures between sparse rating vectors.
//!
//! All three metrics are pure functions of their arguments and return a
//! fixed-point value scaled by [`SIM_SCALE`]: a similarity of one half is
//! `SIM_SCALE / 2`.
//!
//! Edge-case policy: a metric never fails. Cosine returns zero when either
//! vector has a zero norm. Jaccard returns zero when either vector is empty
//! or no positive mass overlaps; it is only meaningful for non-negative
//! values, and with negative values it also returns zero where its
//! denominator would vanish. Pearson returns zero when either vector has
//! zero variance, and its result is clipped to the unit range, where a
//! correlation lies.

use vstd::prelude::*;
use crate::num::{
    div_trunc, div_trunc_i128, isqrt, isqrt_u128, lemma_div_trunc_bound, lemma_isqrt_le,
    lemma_isqrt_pos, lemma_mul_le_cap_via_div,
};
use crate::sparse::{
    dot_sum, lemma_dot_bound, lemma_sum_bound, lemma_sv_get_zero_iff_absent, sum_vals, sv_get,
    sv_has, SparseVector, MAX_LEN, MAX_VAL,
};
use vstd::math::{max, min};

verus! {

/// Scale of fixed-point similarity values: a similarity of one is `SIM_SCALE`.
pub const SIM_SCALE: i128 = 1_000_000;

/// Every similarity value returned by this module has magnitude at most
/// `SIM_BOUND`.
pub const SIM_BOUND: i128 = 1_000_000_000_000_000_000_000_000_000;

/// The cosine similarity of two entry lists, in fixed point: the dot product
/// scaled by [`SIM_SCALE`] and divided by the integer square root of the
/// product of the self dot products; zero when either norm is zero.
pub open spec fn spec_cosine(a: Seq<(u64, i64)>, b: Seq<(u64, i64)>) -> int {
    let daa = dot_sum(a, a);
    let dbb = dot_sum(b, b);
    if daa <= 0 || dbb <= 0 {
        0
    } else {
        div_trunc(dot_sum(a, b) * SIM_SCALE, isqrt((daa * dbb) as nat) as int)
    }
}

/// Sum over the first list's entries of the smaller of the stored value and
/// the other list's value at the same index.
pub open spec fn min_sum(a: Seq<(u64, i64)>, b: Seq<(u64, i64)>) -> int
    decreases a.len(),
{
    if a.len() == 0 {
        0
    } else {
        min_sum(a.drop_last(), b) + min(a.last().1 as int, sv_get(b, a.last().0))
    }
}

/// Sum over the first list's entries of the larger of the stored value and
/// the other list's value at the same index.
pub open spec fn max_sum_common(a: Seq<(u64, i64)>, b: Seq<(u64, i64)>) -> int
    decreases a.len(),
{
    if a.len() == 0 {
        0
    } else {
        max_sum_common(a.drop_last(), b) + max(a.last().1 as int, sv_get(b, a.last().0))
    }
}

/// Sum of the first list's values at indices absent from the second list.
pub open spec fn extra_sum(b: Seq<(u64, i64)>, a: Seq<(u64, i64)>) -> int
    decreases b.len(),
{
    if b.len() == 0 {
        0
    } else {
        extra_sum(b.drop_last(), a) + if sv_has(a, b.last().0) {
            0
        } else {
            b.last().1 as int
        }
    }
}

/// The full Jaccard denominator: max terms over the first list's indices,
/// plus the second list's values at indices the first list lacks.
pub open spec fn max_sum(a: Seq<(u64, i64)>, b: Seq<(u64, i64)>) -> int {
    max_sum_common(a, b) + extra_sum(b, a)
}

/// The extended (weighted) Jaccard similarity in fixed point:
/// `min_sum / max_sum` scaled by [`SIM_SCALE`]; zero when either vector is
/// empty, when no positive mass overlaps, or when the denominator would be
/// zero (which only happens outside the non-negative domain).
pub open spec fn spec_jaccard(a: Seq<(u64, i64)>, b: Seq<(u64, i64)>) -> int {
    if a.len() == 0 || b.len() == 0 {
        0
    } else {
        let mn = min_sum(a, b);
        if mn <= 0 {
            0
        } else {
            let mx = max_sum(a, b);
            if mx == 0 {
                0
            } else {
                div_trunc(mn * SIM_SCALE, mx)
            }
        }
    }
}

/// `n` times the covariance numerator of two entry lists treated as samples
/// over a fixed domain of `n` indices: `n * dot(a, b) - sum(a) * sum(b)`.
pub open spec fn cov_num(a: Seq<(u64, i64)>, b: Seq<(u64, i64)>, n: int) -> int {
    n * dot_sum(a, b) - sum_vals(a) * sum_vals(b)
}

/// The cap under which a covariance product fits the integer square root's
/// domain.
pub const COV_PROD_CAP: u128 = 85070591730234615865843651857942052863;

/// The Pearson denominator: the integer square root of the covariance
/// product where that product fits the machine word, and the product of the
/// two integer square roots otherwise (both covariances are then so large
/// that the per-factor truncation is far below one grid step).
pub open spec fn pearson_denom(caa: int, cbb: int) -> int {
    if caa * cbb <= COV_PROD_CAP as int {
        isqrt((caa * cbb) as nat) as int
    } else {
        (isqrt(caa as nat) * isqrt(cbb as nat)) as int
    }
}

/// Clips a fixed-point quotient to the unit range `[-SIM_SCALE, SIM_SCALE]`.
/// A correlation lies in that range, so the clip only absorbs the rounding
/// overshoot of the truncated square root.
pub open spec fn clip_unit(q: int) -> int {
    if q > SIM_SCALE {
        SIM_SCALE as int
    } else if q < -(SIM_SCALE as int) {
        -(SIM_SCALE as int)
    } else {
        q
    }
}

/// The Pearson correlation in fixed point, over a fixed domain of `n`
/// indices: the covariance numerator scaled by [`SIM_SCALE`], divided by
/// [`pearson_denom`], and clipped to the unit range. Zero when either
/// variance term is not positive (the documented zero-variance policy).
pub open spec fn spec_pearson(a: Seq<(u64, i64)>, b: Seq<(u64, i64)>, n: int) -> int {
    let caa = cov_num(a, a, n);
    let cbb = cov_num(b, b, n);
    if caa <= 0 || cbb <= 0 {
        0
    } else {
        clip_unit(div_trunc(cov_num(a, b, n) * SIM_SCALE, pearson_denom(caa, cbb)))
    }
}

/// Cosine similarity between two vectors.
///
/// Returns zero if one of the vectors is zero.
pub fn cosine(a: &SparseVector, b: &SparseVector) -> (r: i128)
    requires
        a.wf(),
        b.wf(),
    ensures
        r as int == spec_cosine(a@, b@),
        -SIM_BOUND <= r <= SIM_BOUND,
{
    let daa = a.dot(a);
    let dbb = b.dot(b);
    if daa <= 0 || dbb <= 0 {
        return 0;
    }
    proof {
        lemma_dot_bound(a@, a@);
        lemma_dot_bound(b@, b@);
        lemma_dot_bound(a@, b@);
    }
    let dab = a.dot(b);
    proof {
        assert((daa as int) * (dbb as int) <= 1_000_000_000_000_000_000_000_000_000_000
            && (daa as int) * (dbb as int) >= 1) by (nonlinear_arith)
            requires
                1 <= daa <= 1_000_000_000_000_000,
                1 <= dbb <= 1_000_000_000_000_000,
        ;
    }
    let prod = (daa as u128) * (dbb as u128);
    let nn = isqrt_u128(prod);
    proof {
        lemma_isqrt_pos(prod as nat);
        assert(1_000_000_000_000_000 * 1_000_000_000_000_000
            == 1_000_000_000_000_000_000_000_000_000_000) by (nonlinear_arith);
        lemma_isqrt_le(prod as nat, 1_000_000_000_000_000);
    }
    let denom = nn as i128;
    let num = dab * SIM_SCALE;
    let r = div_trunc_i128(num, denom);
    proof {
        lemma_div_trunc_bound(num as int, denom as int);
    }
    r
}

/// Jaccard similarity between two vectors.
///
/// Returns zero if one of the vectors is zero.
///
/// Jaccard similarity is only defined for non-negative values; with negative
/// values the result carries no meaning, though it is still computed without
/// failing, and a vanishing denominator yields zero.
pub fn jaccard(a: &SparseVector, b: &SparseVector) -> (r: i128)
    requires
        a.wf(),
        b.wf(),
    ensures
        r as int == spec_jaccard(a@, b@),
        -SIM_BOUND <= r <= SIM_BOUND,
{
    let na = a.nnz();
    let nb = b.nnz();
    if na == 0 || nb == 0 {
        return 0;
    }
    let mut mins: i128 = 0;
    let mut maxs: i128 = 0;
    let mut i: usize = 0;
    proof {
        assert(a@.take(0) =~= Seq::<(u64, i64)>::empty());
    }
    while i < na
        invariant
            na == a@.len(),
            a.wf(),
            b.wf(),
            i <= na,
            mins as int == min_sum(a@.take(i as int), b@),
            maxs as int == max_sum_common(a@.take(i as int), b@),
            -(i as int) * 100_000 <= mins as int <= (i as int) * 100_000,
            -(i as int) * 100_000 <= maxs as int <= (i as int) * 100_000,
        decreases na - i,
    {
        let e = a.entry_at(i);
        let other = b.get(e.0);
        proof {
            assert(a@.take(i + 1).last() == a@[i as int]);
            assert(a@.take(i + 1).drop_last() =~= a@.take(i as int));
            assert(-MAX_VAL <= a@[i as int].1 <= MAX_VAL);
        }
        if e.1 < other {
            mins = mins + e.1 as i128;
            maxs = maxs + other as i128;
        } else {
            mins = mins + other as i128;
            maxs = maxs + e.1 as i128;
        }
        i = i + 1;
    }
    proof {
        assert(a@.take(na as int) =~= a@);
    }
    if mins <= 0 {
        return 0;
    }
    let mut extra: i128 = 0;
    let mut j: usize = 0;
    proof {
        assert(b@.take(0) =~= Seq::<(u64, i64)>::empty());
    }
    while j < nb
        invariant
            nb == b@.len(),
            a.wf(),
            b.wf(),
            j <= nb,
            extra as int == extra_sum(b@.take(j as int), a@),
            -(j as int) * 100_000 <= extra as int <= (j as int) * 100_000,
        decreases nb - j,
    {
        let e = b.entry_at(j);
        let av = a.get(e.0);
        proof {
            assert(b@.take(j + 1).last() == b@[j as int]);
            assert(b@.take(j + 1).drop_last() =~= b@.take(j as int));
            assert(-MAX_VAL <= b@[j as int].1 <= MAX_VAL);
            lemma_sv_get_zero_iff_absent(a@, e.0);
        }
        if av == 0 {
            extra = extra + e.1 as i128;
        }
        j = j + 1;
    }
    proof {
        assert(b@.take(nb as int) =~= b@);
    }
    let maxt = maxs + extra;
    if maxt == 0 {
        return 0;
    }
    let num = mins * SIM_SCALE;
    let r = div_trunc_i128(num, maxt);
    proof {
        if maxt >= 1 {
            lemma_div_trunc_bound(num as int, maxt as int);
        } else {
            lemma_div_trunc_bound(num as int, -(maxt as int));
        }
    }
    r
}

/// Computes the Pearson correlation index between two sparse vectors.
/// It treats the vectors as discrete uniform random variables over a domain
/// of `n` indices. The result always lies in the unit range
/// `[-SIM_SCALE, SIM_SCALE]`, as a correlation must.
pub fn pearson(a: &SparseVector, b: &SparseVector, n: usize) -> (r: i128)
    requires
        a.wf(),
        b.wf(),
        n <= MAX_LEN,
    ensures
        r as int == spec_pearson(a@, b@, n as int),
        -SIM_SCALE <= r <= SIM_SCALE,
{
    let daa = a.dot(a);
    let dbb = b.dot(b);
    let dab = a.dot(b);
    let sa = a.sum();
    let sb = b.sum();
    proof {
        lemma_dot_bound(a@, a@);
        lemma_dot_bound(b@, b@);
        lemma_dot_bound(a@, b@);
        lemma_sum_bound(a@);
        lemma_sum_bound(b@);
        assert(-100_000_000_000_000_000_000 <= (n as int) * (daa as int)
            <= 100_000_000_000_000_000_000 && -100_000_000_000_000_000_000 <= (n as int) * (
        dbb as int) <= 100_000_000_000_000_000_000 && -100_000_000_000_000_000_000 <= (n as int)
            * (dab as int) <= 100_000_000_000_000_000_000) by (nonlinear_arith)
            requires
                0 <= n <= 100_000,
                -1_000_000_000_000_000 <= daa <= 1_000_000_000_000_000,
                -1_000_000_000_000_000 <= dbb <= 1_000_000_000_000_000,
                -1_000_000_000_000_000 <= dab <= 1_000_000_000_000_000,
        ;
        assert(-100_000_000_000_000_000_000 <= (sa as int) * (sa as int)
            <= 100_000_000_000_000_000_000 && -100_000_000_000_000_000_000 <= (sb as int) * (
        sb as int) <= 100_000_000_000_000_000_000 && -100_000_000_000_000_000_000 <= (sa as int)
            * (sb as int) <= 100_000_000_000_000_000_000) by (nonlinear_arith)
            requires
                -10_000_000_000 <= sa <= 10_000_000_000,
                -10_000_000_000 <= sb <= 10_000_000_000,
        ;
    }
    let caa = (n as i128) * daa - sa * sa;
    let cbb = (n as i128) * dbb - sb * sb;
    if caa <= 0 || cbb <= 0 {
        return 0;
    }
    let cab = (n as i128) * dab - sa * sb;
    proof {
        lemma_mul_le_cap_via_div(caa as int, cbb as int, COV_PROD_CAP as int);
    }
    let cap_q = COV_PROD_CAP / (cbb as u128);
    let d: i128;
    if (caa as u128) <= cap_q {
        proof {
            assert((caa as int) * (cbb as int) >= 1) by (nonlinear_arith)
                requires
                    1 <= caa,
                    1 <= cbb,
            ;
        }
        let p = (caa as u128) * (cbb as u128);
        let nn = isqrt_u128(p);
        proof {
            lemma_isqrt_pos(p as nat);
            assert(9223372036854775808 * 9223372036854775808
                == 85070591730234615865843651857942052864) by (nonlinear_arith);
            lemma_isqrt_le(p as nat, 9223372036854775808);
        }
        d = nn as i128;
    } else {
        let ra = isqrt_u128(caa as u128);
        let rb = isqrt_u128(cbb as u128);
        proof {
            lemma_isqrt_pos(caa as nat);
            lemma_isqrt_pos(cbb as nat);
            assert(20_000_000_000 * 20_000_000_000 == 400_000_000_000_000_000_000)
                by (nonlinear_arith);
            lemma_isqrt_le(caa as nat, 20_000_000_000);
            lemma_isqrt_le(cbb as nat, 20_000_000_000);
            assert(ra * rb <= 400_000_000_000_000_000_000 && ra * rb >= 1) by (nonlinear_arith)
                requires
                    1 <= ra <= 20_000_000_000,
                    1 <= rb <= 20_000_000_000,
            ;
        }
        d = (ra * rb) as i128;
    }
    let num = cab * SIM_SCALE;
    let q = div_trunc_i128(num, d);
    if q > SIM_SCALE {
        SIM_SCALE
    } else if q < -SIM_SCALE {
        -SIM_SCALE
    } else {
        q
    }
}

/// The similarity strategy a recommender is built with.
#[derive(Clone, Copy, PartialEq, Eq, Structural, Debug)]
pub enum Metric {
    Cosine,
    Jaccard,
    Pearson,
}

/// The value of the chosen metric on two entry lists, over a domain of `n`
/// indices (`n` only matters to Pearson).
pub open spec fn spec_similarity(m: Metric, a: Seq<(u64, i64)>, b: Seq<(u64, i64)>, n: int) -> int {
    match m {
        Metric::Cosine => spec_cosine(a, b),
        Metric::Jaccard => spec_jaccard(a, b),
        Metric::Pearson => spec_pearson(a, b, n),
    }
}

/// Computes the chosen similarity metric between two vectors.
pub fn similarity(m: Metric, a: &SparseVector, b: &SparseVector, n: usize) -> (r: i128)
    requires
        a.wf(),
        b.wf(),
        n <= MAX_LEN,
    ensures
        r as int == spec_similarity(m, a@, b@, n as int),
        -SIM_BOUND <= r <= SIM_BOUND,
{
    match m {
        Metric::Cosine => cosine(a, b),
        Metric::Jaccard => jaccard(a, b),
        Metric::Pearson => pearson(a, b, n),
    }
}

} // verus!

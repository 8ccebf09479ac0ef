//! The general laws of the library, each proved once and for all inputs:
//! symmetry of cosine and Jaccard, the range of Jaccard over non-negative
//! vectors, the unit range of Pearson, the zero-vector policy of both
//! metrics, perfect self-similarity under cosine and Pearson, and the prefix
//! property of neighbor selection as the neighborhood grows.

use vstd::prelude::*;
use vstd::arithmetic::div_mod::{
    lemma_div_is_ordered, lemma_div_multiples_vanish, lemma_div_pos_is_pos,
};
use crate::recommender::{best_idx, lemma_best_idx, topk};
use crate::similarity::{
    cov_num, extra_sum, max_sum, max_sum_common, min_sum, pearson_denom, spec_cosine,
    spec_jaccard, spec_pearson, COV_PROD_CAP,
};
use crate::num::{isqrt, lemma_isqrt_bounds, lemma_isqrt_pos, lemma_isqrt_unique};
use crate::sparse::{
    dot_sum, lemma_sv_get_not_found, sum_vals, sv_bounded, sv_has, sv_nonneg, sv_sorted,
};

verus! {

/// Dropping a list's last entry keeps its order and sign properties, and the
/// remaining entries are unchanged.
proof fn lemma_drop_last_props(s: Seq<(u64, i64)>)
    requires
        s.len() > 0,
    ensures
        sv_sorted(s) ==> sv_sorted(s.drop_last()),
        sv_nonneg(s) ==> sv_nonneg(s.drop_last()),
        s[s.len() - 1] == s.last(),
        forall|k: int| 0 <= k < s.len() - 1 ==> (#[trigger] s.drop_last()[k]) == s[k],
{
    assert(forall|k: int| 0 <= k < s.len() - 1 ==> (#[trigger] s.drop_last()[k]) == s[k]);
}

/// A dot product against the empty list is zero.
proof fn lemma_dot_empty(b: Seq<(u64, i64)>)
    ensures
        dot_sum(b, Seq::<(u64, i64)>::empty()) == 0,
    decreases b.len(),
{
    if b.len() > 0 {
        lemma_dot_empty(b.drop_last());
    }
}

/// A min sum against the empty list is zero for non-negative values.
proof fn lemma_min_empty(b: Seq<(u64, i64)>)
    requires
        sv_nonneg(b),
    ensures
        min_sum(b, Seq::<(u64, i64)>::empty()) == 0,
    decreases b.len(),
{
    if b.len() > 0 {
        lemma_drop_last_props(b);
        lemma_min_empty(b.drop_last());
    }
}

/// A max sum against the empty list is the plain value sum, for non-negative
/// values.
proof fn lemma_max_empty(b: Seq<(u64, i64)>)
    requires
        sv_nonneg(b),
    ensures
        max_sum_common(b, Seq::<(u64, i64)>::empty()) == sum_vals(b),
    decreases b.len(),
{
    if b.len() > 0 {
        lemma_drop_last_props(b);
        lemma_max_empty(b.drop_last());
    }
}

/// Every index is absent from the empty list, so nothing is excluded from
/// the extra sum.
proof fn lemma_extra_empty(b: Seq<(u64, i64)>)
    ensures
        extra_sum(b, Seq::<(u64, i64)>::empty()) == sum_vals(b),
    decreases b.len(),
{
    if b.len() > 0 {
        lemma_extra_empty(b.drop_last());
    }
}

/// When no index of `a` is the last index of `b`, the dot product ignores
/// `b`'s last entry.
proof fn lemma_dot_drop_b(a: Seq<(u64, i64)>, b: Seq<(u64, i64)>)
    requires
        b.len() > 0,
        forall|k: int| 0 <= k < a.len() ==> (#[trigger] a[k]).0 != b.last().0,
    ensures
        dot_sum(a, b) == dot_sum(a, b.drop_last()),
    decreases a.len(),
{
    if a.len() > 0 {
        lemma_drop_last_props(a);
        lemma_dot_drop_b(a.drop_last(), b);
    }
}

/// When no index of `a` is the last index of `b`, the min sum ignores `b`'s
/// last entry.
proof fn lemma_min_drop_b(a: Seq<(u64, i64)>, b: Seq<(u64, i64)>)
    requires
        b.len() > 0,
        forall|k: int| 0 <= k < a.len() ==> (#[trigger] a[k]).0 != b.last().0,
    ensures
        min_sum(a, b) == min_sum(a, b.drop_last()),
    decreases a.len(),
{
    if a.len() > 0 {
        lemma_drop_last_props(a);
        lemma_min_drop_b(a.drop_last(), b);
    }
}

/// When no index of `a` is the last index of `b`, the max sum ignores `b`'s
/// last entry.
proof fn lemma_max_drop_b(a: Seq<(u64, i64)>, b: Seq<(u64, i64)>)
    requires
        b.len() > 0,
        forall|k: int| 0 <= k < a.len() ==> (#[trigger] a[k]).0 != b.last().0,
    ensures
        max_sum_common(a, b) == max_sum_common(a, b.drop_last()),
    decreases a.len(),
{
    if a.len() > 0 {
        lemma_drop_last_props(a);
        lemma_max_drop_b(a.drop_last(), b);
    }
}

/// When no index of `b` is the last index of `a`, the extra sum ignores
/// `a`'s last entry.
proof fn lemma_extra_drop_a(b: Seq<(u64, i64)>, a: Seq<(u64, i64)>)
    requires
        a.len() > 0,
        forall|k: int| 0 <= k < b.len() ==> (#[trigger] b[k]).0 != a.last().0,
    ensures
        extra_sum(b, a) == extra_sum(b, a.drop_last()),
    decreases b.len(),
{
    if b.len() > 0 {
        lemma_drop_last_props(b);
        lemma_extra_drop_a(b.drop_last(), a);
    }
}

/// The dot product of two sorted sparse vectors does not depend on the
/// order of its arguments.
pub proof fn lemma_dot_symmetric(a: Seq<(u64, i64)>, b: Seq<(u64, i64)>)
    requires
        sv_sorted(a),
        sv_sorted(b),
    ensures
        dot_sum(a, b) == dot_sum(b, a),
    decreases a.len() + b.len(),
{
    if a.len() == 0 {
        assert(a =~= Seq::<(u64, i64)>::empty());
        lemma_dot_empty(b);
    } else if b.len() == 0 {
        assert(b =~= Seq::<(u64, i64)>::empty());
        lemma_dot_empty(a);
    } else {
        lemma_drop_last_props(a);
        lemma_drop_last_props(b);
        let va = a.last().1 as int;
        let vb = b.last().1 as int;
        if a.last().0 == b.last().0 {
            assert forall|k: int| 0 <= k < a.drop_last().len() implies (
            #[trigger] a.drop_last()[k]).0 != b.last().0 by {
                assert(a[k].0 < a.last().0);
            }
            assert forall|k: int| 0 <= k < b.drop_last().len() implies (
            #[trigger] b.drop_last()[k]).0 != a.last().0 by {
                assert(b[k].0 < b.last().0);
            }
            lemma_dot_drop_b(a.drop_last(), b);
            lemma_dot_drop_b(b.drop_last(), a);
            lemma_dot_symmetric(a.drop_last(), b.drop_last());
            assert(va * vb == vb * va) by (nonlinear_arith);
        } else if a.last().0 > b.last().0 {
            assert forall|k: int| 0 <= k < b.len() implies (#[trigger] b[k]).0 != a.last().0 by {
                if k < b.len() - 1 {
                    assert(b[k].0 < b.last().0);
                }
            }
            lemma_sv_get_not_found(b, a.last().0);
            lemma_dot_drop_b(b, a);
            lemma_dot_symmetric(a.drop_last(), b);
        } else {
            assert forall|k: int| 0 <= k < a.len() implies (#[trigger] a[k]).0 != b.last().0 by {
                if k < a.len() - 1 {
                    assert(a[k].0 < a.last().0);
                }
            }
            lemma_sv_get_not_found(a, b.last().0);
            lemma_dot_drop_b(a, b);
            lemma_dot_symmetric(a, b.drop_last());
        }
    }
}

/// Over sorted non-negative vectors the min sum does not depend on the order
/// of its arguments.
pub proof fn lemma_min_sum_symmetric(a: Seq<(u64, i64)>, b: Seq<(u64, i64)>)
    requires
        sv_sorted(a),
        sv_sorted(b),
        sv_nonneg(a),
        sv_nonneg(b),
    ensures
        min_sum(a, b) == min_sum(b, a),
    decreases a.len() + b.len(),
{
    if a.len() == 0 {
        assert(a =~= Seq::<(u64, i64)>::empty());
        lemma_min_empty(b);
    } else if b.len() == 0 {
        assert(b =~= Seq::<(u64, i64)>::empty());
        lemma_min_empty(a);
    } else {
        lemma_drop_last_props(a);
        lemma_drop_last_props(b);
        if a.last().0 == b.last().0 {
            assert forall|k: int| 0 <= k < a.drop_last().len() implies (
            #[trigger] a.drop_last()[k]).0 != b.last().0 by {
                assert(a[k].0 < a.last().0);
            }
            assert forall|k: int| 0 <= k < b.drop_last().len() implies (
            #[trigger] b.drop_last()[k]).0 != a.last().0 by {
                assert(b[k].0 < b.last().0);
            }
            lemma_min_drop_b(a.drop_last(), b);
            lemma_min_drop_b(b.drop_last(), a);
            lemma_min_sum_symmetric(a.drop_last(), b.drop_last());
        } else if a.last().0 > b.last().0 {
            assert forall|k: int| 0 <= k < b.len() implies (#[trigger] b[k]).0 != a.last().0 by {
                if k < b.len() - 1 {
                    assert(b[k].0 < b.last().0);
                }
            }
            lemma_sv_get_not_found(b, a.last().0);
            lemma_min_drop_b(b, a);
            lemma_min_sum_symmetric(a.drop_last(), b);
        } else {
            assert forall|k: int| 0 <= k < a.len() implies (#[trigger] a[k]).0 != b.last().0 by {
                if k < a.len() - 1 {
                    assert(a[k].0 < a.last().0);
                }
            }
            lemma_sv_get_not_found(a, b.last().0);
            lemma_min_drop_b(a, b);
            lemma_min_sum_symmetric(a, b.drop_last());
        }
    }
}

/// Over sorted non-negative vectors the full max sum does not depend on the
/// order of its arguments.
pub proof fn lemma_max_sum_symmetric(a: Seq<(u64, i64)>, b: Seq<(u64, i64)>)
    requires
        sv_sorted(a),
        sv_sorted(b),
        sv_nonneg(a),
        sv_nonneg(b),
    ensures
        max_sum(a, b) == max_sum(b, a),
    decreases a.len() + b.len(),
{
    if a.len() == 0 {
        assert(a =~= Seq::<(u64, i64)>::empty());
        lemma_max_empty(b);
        lemma_extra_empty(b);
    } else if b.len() == 0 {
        assert(b =~= Seq::<(u64, i64)>::empty());
        lemma_max_empty(a);
        lemma_extra_empty(a);
    } else {
        lemma_drop_last_props(a);
        lemma_drop_last_props(b);
        if a.last().0 == b.last().0 {
            assert forall|k: int| 0 <= k < a.drop_last().len() implies (
            #[trigger] a.drop_last()[k]).0 != b.last().0 by {
                assert(a[k].0 < a.last().0);
            }
            assert forall|k: int| 0 <= k < b.drop_last().len() implies (
            #[trigger] b.drop_last()[k]).0 != a.last().0 by {
                assert(b[k].0 < b.last().0);
            }
            lemma_max_drop_b(a.drop_last(), b);
            lemma_max_drop_b(b.drop_last(), a);
            assert(sv_has(a, b.last().0));
            assert(sv_has(b, a.last().0));
            lemma_extra_drop_a(b.drop_last(), a);
            lemma_extra_drop_a(a.drop_last(), b);
            lemma_max_sum_symmetric(a.drop_last(), b.drop_last());
        } else if a.last().0 > b.last().0 {
            assert forall|k: int| 0 <= k < b.len() implies (#[trigger] b[k]).0 != a.last().0 by {
                if k < b.len() - 1 {
                    assert(b[k].0 < b.last().0);
                }
            }
            lemma_sv_get_not_found(b, a.last().0);
            lemma_max_drop_b(b, a);
            lemma_extra_drop_a(b, a);
            lemma_max_sum_symmetric(a.drop_last(), b);
        } else {
            assert forall|k: int| 0 <= k < a.len() implies (#[trigger] a[k]).0 != b.last().0 by {
                if k < a.len() - 1 {
                    assert(a[k].0 < a.last().0);
                }
            }
            lemma_sv_get_not_found(a, b.last().0);
            lemma_max_drop_b(a, b);
            lemma_extra_drop_a(a, b);
            lemma_max_sum_symmetric(a, b.drop_last());
        }
    }
}

/// Cosine similarity is symmetric: `cosine(a, b) == cosine(b, a)`.
pub proof fn lemma_cosine_symmetric(a: Seq<(u64, i64)>, b: Seq<(u64, i64)>)
    requires
        sv_sorted(a),
        sv_sorted(b),
    ensures
        spec_cosine(a, b) == spec_cosine(b, a),
{
    lemma_dot_symmetric(a, b);
    let daa = dot_sum(a, a);
    let dbb = dot_sum(b, b);
    assert(daa * dbb == dbb * daa) by (nonlinear_arith);
}

/// Jaccard similarity is symmetric over non-negative vectors:
/// `jaccard(a, b) == jaccard(b, a)`.
pub proof fn lemma_jaccard_symmetric(a: Seq<(u64, i64)>, b: Seq<(u64, i64)>)
    requires
        sv_sorted(a),
        sv_sorted(b),
        sv_nonneg(a),
        sv_nonneg(b),
    ensures
        spec_jaccard(a, b) == spec_jaccard(b, a),
{
    if a.len() > 0 && b.len() > 0 {
        lemma_min_sum_symmetric(a, b);
        lemma_max_sum_symmetric(a, b);
    }
}

/// Each min term is at most the corresponding max term.
proof fn lemma_min_le_max(a: Seq<(u64, i64)>, b: Seq<(u64, i64)>)
    ensures
        min_sum(a, b) <= max_sum_common(a, b),
    decreases a.len(),
{
    if a.len() > 0 {
        lemma_min_le_max(a.drop_last(), b);
    }
}

/// The extra sum of a non-negative list is non-negative.
proof fn lemma_extra_nonneg(b: Seq<(u64, i64)>, a: Seq<(u64, i64)>)
    requires
        sv_nonneg(b),
    ensures
        extra_sum(b, a) >= 0,
    decreases b.len(),
{
    if b.len() > 0 {
        lemma_drop_last_props(b);
        lemma_extra_nonneg(b.drop_last(), a);
    }
}

/// Over non-negative vectors the Jaccard similarity lies between zero and
/// one (in fixed point, between `0` and `SIM_SCALE`).
pub proof fn lemma_jaccard_range(a: Seq<(u64, i64)>, b: Seq<(u64, i64)>)
    requires
        sv_nonneg(a),
        sv_nonneg(b),
    ensures
        0 <= spec_jaccard(a, b) <= 1_000_000,
{
    if a.len() > 0 && b.len() > 0 {
        let mn = min_sum(a, b);
        if mn > 0 {
            let mx = max_sum(a, b);
            lemma_min_le_max(a, b);
            lemma_extra_nonneg(b, a);
            assert(mn <= mx);
            if mx != 0 {
                assert(mn * 1_000_000 <= mx * 1_000_000) by (nonlinear_arith)
                    requires
                        mn <= mx,
                ;
                lemma_div_is_ordered(mn * 1_000_000, mx * 1_000_000, mx);
                lemma_div_multiples_vanish(1_000_000, mx);
                lemma_div_pos_is_pos(mn * 1_000_000, mx);
                assert(mx * 1_000_000 == 1_000_000 * mx) by (nonlinear_arith);
            }
        }
    }
}

/// A vector's dot product with itself is a sum of squares of non-zero
/// values: non-negative, and positive once anything is stored.
pub proof fn lemma_dot_self_positive(a: Seq<(u64, i64)>)
    requires
        sv_sorted(a),
        sv_bounded(a),
    ensures
        dot_sum(a, a) >= 0,
        a.len() > 0 ==> dot_sum(a, a) > 0,
    decreases a.len(),
{
    if a.len() > 0 {
        lemma_drop_last_props(a);
        let v = a.last().1 as int;
        assert(v * v > 0) by (nonlinear_arith)
            requires
                v != 0,
        ;
        assert forall|k: int| 0 <= k < a.drop_last().len() implies (
        #[trigger] a.drop_last()[k]).0 != a.last().0 by {
            assert(a[k].0 < a.last().0);
        }
        lemma_dot_drop_b(a.drop_last(), a);
        lemma_dot_self_positive(a.drop_last());
    }
}

/// A non-zero vector is perfectly similar to itself: its cosine similarity
/// is exactly one (in fixed point, `SIM_SCALE`).
pub proof fn lemma_cosine_self(a: Seq<(u64, i64)>)
    requires
        sv_sorted(a),
        sv_bounded(a),
        a.len() > 0,
    ensures
        spec_cosine(a, a) == 1_000_000,
{
    lemma_dot_self_positive(a);
    let d = dot_sum(a, a);
    assert(d * d < (d + 1) * (d + 1)) by (nonlinear_arith)
        requires
            d >= 0,
    ;
    assert((d as nat) * (d as nat) == (d * d) as nat) by (nonlinear_arith)
        requires
            d >= 0,
    ;
    lemma_isqrt_unique((d * d) as nat, d as nat);
    assert(isqrt((d * d) as nat) as int == d);
    lemma_div_multiples_vanish(1_000_000, d);
    assert(d * 1_000_000 == 1_000_000 * d) by (nonlinear_arith);
}

/// The Pearson correlation lies in the unit range for every pair of vectors
/// and every domain size, as a correlation must (in fixed point, between
/// `-SIM_SCALE` and `SIM_SCALE`).
pub proof fn lemma_pearson_range(a: Seq<(u64, i64)>, b: Seq<(u64, i64)>, n: int)
    ensures
        -1_000_000 <= spec_pearson(a, b, n) <= 1_000_000,
{
}

/// A vector correlates perfectly with itself: whenever its variance term is
/// positive, its Pearson self-similarity is exactly one (in fixed point,
/// `SIM_SCALE`), never more.
pub proof fn lemma_pearson_self(a: Seq<(u64, i64)>, n: int)
    requires
        cov_num(a, a, n) > 0,
    ensures
        spec_pearson(a, a, n) == 1_000_000,
{
    let c = cov_num(a, a, n);
    let d = pearson_denom(c, c);
    if c * c <= COV_PROD_CAP as int {
        assert(c * c < (c + 1) * (c + 1)) by (nonlinear_arith)
            requires
                c >= 0,
        ;
        assert((c as nat) * (c as nat) == (c * c) as nat) by (nonlinear_arith)
            requires
                c >= 0,
        ;
        lemma_isqrt_unique((c * c) as nat, c as nat);
        assert(d == c);
    } else {
        lemma_isqrt_bounds(c as nat);
        lemma_isqrt_pos(c as nat);
        let ra = isqrt(c as nat);
        assert(ra * ra >= 1) by (nonlinear_arith)
            requires
                ra >= 1,
        ;
        assert(d == (ra * ra) as int);
        assert(d <= c);
    }
    assert(1 <= d <= c);
    assert(d * 1_000_000 <= c * 1_000_000) by (nonlinear_arith)
        requires
            d <= c,
    ;
    lemma_div_is_ordered(d * 1_000_000, c * 1_000_000, d);
    lemma_div_multiples_vanish(1_000_000, d);
    assert(d * 1_000_000 == 1_000_000 * d) by (nonlinear_arith);
}

/// The zero-vector policy: against a vector with no stored entries both
/// cosine and Jaccard are zero, whatever the other vector is.
pub proof fn lemma_zero_vector_similarity(a: Seq<(u64, i64)>, b: Seq<(u64, i64)>)
    requires
        b.len() == 0,
    ensures
        spec_cosine(a, b) == 0,
        spec_cosine(b, a) == 0,
        spec_jaccard(a, b) == 0,
        spec_jaccard(b, a) == 0,
{
}

/// Growing the neighborhood only appends neighbors: the `k` best candidates
/// are a prefix of the `k + 1` best, so the selection order is stable in `k`.
pub proof fn lemma_topk_prefix(s: Seq<(i128, i64)>, k: int)
    requires
        k >= 0,
    ensures
        topk(s, k).len() <= topk(s, k + 1).len(),
        topk(s, k + 1).take(topk(s, k).len() as int) == topk(s, k),
    decreases k,
{
    if k == 0 || s.len() == 0 {
        assert(topk(s, k) =~= Seq::<(i128, i64)>::empty());
        assert(topk(s, k + 1).take(0) =~= Seq::<(i128, i64)>::empty());
    } else {
        let b = best_idx(s);
        lemma_best_idx(s);
        lemma_topk_prefix(s.remove(b), k - 1);
        let pre = topk(s.remove(b), k - 1);
        let post = topk(s.remove(b), k);
        assert(topk(s, k) == seq![s[b]] + pre);
        assert(topk(s, k + 1) == seq![s[b]] + post);
        assert((seq![s[b]] + post).take(1 + pre.len() as int) =~= seq![s[b]] + post.take(
            pre.len() as int,
        ));
        assert(topk(s, k + 1).take(topk(s, k).len() as int) =~= topk(s, k));
    }
}

} // verus!

//! Sparse vectors: an index-to-value mapping in which an absent index means
//! an implicit value of zero.
//!
//! A vector stores its entries as a list of `(index, value)` pairs, strictly
//! sorted by index, with no explicitly stored zero. Values are bounded in
//! magnitude by [`MAX_VAL`] and a vector holds at most [`MAX_LEN`] entries,
//! which keeps every sum and product computed over vectors inside `i128`.

use vstd::prelude::*;

verus! {

/// Largest magnitude a stored value may have.
pub const MAX_VAL: i64 = 100_000;

/// Largest number of stored entries in a vector, and the largest number of
/// observations a data model accepts.
pub const MAX_LEN: usize = 100_000;

/// Entries are strictly sorted by index.
pub open spec fn sv_sorted(s: Seq<(u64, i64)>) -> bool {
    forall|i: int, j: int| 0 <= i < j < s.len() ==> s[i].0 < s[j].0
}

/// Every stored value is non-zero and bounded in magnitude by [`MAX_VAL`].
pub open spec fn sv_bounded(s: Seq<(u64, i64)>) -> bool {
    forall|k: int|
        0 <= k < s.len() ==> -MAX_VAL <= (#[trigger] s[k]).1 <= MAX_VAL && s[k].1 != 0
}

/// A well-formed entry list: sorted, bounded, and not longer than [`MAX_LEN`].
pub open spec fn sv_wf(s: Seq<(u64, i64)>) -> bool {
    sv_sorted(s) && sv_bounded(s) && s.len() <= MAX_LEN
}

/// Every stored value is non-negative (Jaccard's domain).
pub open spec fn sv_nonneg(s: Seq<(u64, i64)>) -> bool {
    forall|k: int| 0 <= k < s.len() ==> (#[trigger] s[k]).1 >= 0
}

/// The value stored at index `i`, or zero if `i` is absent.
pub open spec fn sv_get(s: Seq<(u64, i64)>, i: u64) -> int
    decreases s.len(),
{
    if s.len() == 0 {
        0
    } else if s.last().0 == i {
        s.last().1 as int
    } else {
        sv_get(s.drop_last(), i)
    }
}

/// Whether index `i` carries a stored entry.
pub open spec fn sv_has(s: Seq<(u64, i64)>, i: u64) -> bool
    decreases s.len(),
{
    if s.len() == 0 {
        false
    } else {
        s.last().0 == i || sv_has(s.drop_last(), i)
    }
}

/// The entry list after setting index `i` to `v`: a fresh entry is placed at
/// its sorted position, and an entry already stored at `i` is replaced.
pub open spec fn sorted_insert(s: Seq<(u64, i64)>, i: u64, v: i64) -> Seq<(u64, i64)>
    decreases s.len(),
{
    if s.len() == 0 {
        seq![(i, v)]
    } else if s.last().0 < i {
        s.push((i, v))
    } else if s.last().0 == i {
        s.drop_last().push((i, v))
    } else {
        sorted_insert(s.drop_last(), i, v).push(s.last())
    }
}

/// If no entry of `s` carries index `i`, the value at `i` is zero.
pub proof fn lemma_sv_get_not_found(s: Seq<(u64, i64)>, i: u64)
    requires
        forall|k: int| 0 <= k < s.len() ==> (#[trigger] s[k]).0 != i,
    ensures
        sv_get(s, i) == 0,
        !sv_has(s, i),
    decreases s.len(),
{
    if s.len() > 0 {
        assert(s.last().0 != i);
        lemma_sv_get_not_found(s.drop_last(), i);
    }
}

/// In a sorted list, the entry found at position `k` is the value at its index.
pub proof fn lemma_sv_get_found(s: Seq<(u64, i64)>, k: int)
    requires
        sv_sorted(s),
        0 <= k < s.len(),
    ensures
        sv_get(s, s[k].0) == s[k].1 as int,
        sv_has(s, s[k].0),
    decreases s.len(),
{
    if k == s.len() - 1 {
    } else {
        assert(s[k].0 < s.last().0);
        lemma_sv_get_found(s.drop_last(), k);
    }
}

/// Values read out of a bounded list stay within [`MAX_VAL`].
pub proof fn lemma_sv_get_bounded(s: Seq<(u64, i64)>, i: u64)
    requires
        sv_bounded(s),
    ensures
        -MAX_VAL <= sv_get(s, i) <= MAX_VAL,
    decreases s.len(),
{
    if s.len() > 0 {
        assert(s[s.len() - 1].1 == s.last().1);
        lemma_sv_get_bounded(s.drop_last(), i);
    }
}

/// A value present in a well-formed list is non-zero, so a zero read means
/// the index is absent.
pub proof fn lemma_sv_get_zero_iff_absent(s: Seq<(u64, i64)>, i: u64)
    requires
        sv_bounded(s),
    ensures
        sv_has(s, i) <==> sv_get(s, i) != 0,
    decreases s.len(),
{
    if s.len() > 0 {
        assert(s[s.len() - 1].1 == s.last().1);
        lemma_sv_get_zero_iff_absent(s.drop_last(), i);
    }
}

/// Setting an index keeps the list sorted, bounded and short, and grows it by
/// at most one entry; every stored index afterwards is an old index or `i`.
pub proof fn lemma_sorted_insert_wf(s: Seq<(u64, i64)>, i: u64, v: i64)
    requires
        sv_sorted(s),
    ensures
        sv_sorted(sorted_insert(s, i, v)),
        s.len() <= sorted_insert(s, i, v).len() <= s.len() + 1,
        forall|k: int|
            0 <= k < sorted_insert(s, i, v).len() ==> ((#[trigger] sorted_insert(s, i, v)[k]).0
                == i || exists|m: int| 0 <= m < s.len() && s[m].0 == sorted_insert(s, i, v)[k].0),
        forall|k: int|
            0 <= k < sorted_insert(s, i, v).len() ==> ((#[trigger] sorted_insert(s, i, v)[k]).1
                == v || exists|m: int| 0 <= m < s.len() && s[m].1 == sorted_insert(s, i, v)[k].1),
    decreases s.len(),
{
    let r = sorted_insert(s, i, v);
    if s.len() == 0 {
        assert(r[0] == (i, v));
    } else if s.last().0 < i {
        assert forall|k: int| 0 <= k < r.len() implies (#[trigger] r[k]).0 == i || exists|m: int|
            0 <= m < s.len() && s[m].0 == r[k].0 by {
            if k < s.len() {
                assert(s[k].0 == r[k].0);
            }
        }
        assert forall|k: int| 0 <= k < r.len() implies (#[trigger] r[k]).1 == v || exists|m: int|
            0 <= m < s.len() && s[m].1 == r[k].1 by {
            if k < s.len() {
                assert(s[k].1 == r[k].1);
            }
        }
    } else if s.last().0 == i {
        assert forall|k: int, j: int| 0 <= k < j < r.len() implies r[k].0 < r[j].0 by {
            assert(r[k] == s[k]);
            if j < r.len() - 1 {
                assert(r[j] == s[j]);
            } else {
                assert(s[k].0 < s[s.len() - 1].0);
            }
        }
        assert forall|k: int| 0 <= k < r.len() implies (#[trigger] r[k]).0 == i || exists|m: int|
            0 <= m < s.len() && s[m].0 == r[k].0 by {
            if k < s.len() - 1 {
                assert(s[k].0 == r[k].0);
            }
        }
        assert forall|k: int| 0 <= k < r.len() implies (#[trigger] r[k]).1 == v || exists|m: int|
            0 <= m < s.len() && s[m].1 == r[k].1 by {
            if k < s.len() - 1 {
                assert(s[k].1 == r[k].1);
            }
        }
    } else {
        lemma_sorted_insert_wf(s.drop_last(), i, v);
        let q = sorted_insert(s.drop_last(), i, v);
        assert(r == q.push(s.last()));
        assert forall|k: int, j: int| 0 <= k < j < r.len() implies r[k].0 < r[j].0 by {
            if j < q.len() {
            } else {
                assert(r[j] == s.last());
                assert(r[k] == q[k]);
                if q[k].0 == i {
                    assert(i < s.last().0);
                } else {
                    let m = choose|m: int|
                        0 <= m < s.drop_last().len() && s.drop_last()[m].0 == q[k].0;
                    assert(s[m].0 < s[s.len() - 1].0);
                }
            }
        }
        assert forall|k: int| 0 <= k < r.len() implies (#[trigger] r[k]).0 == i || exists|m: int|
            0 <= m < s.len() && s[m].0 == r[k].0 by {
            if k < q.len() {
                if q[k].0 != i {
                    let m = choose|m: int|
                        0 <= m < s.drop_last().len() && s.drop_last()[m].0 == q[k].0;
                    assert(s[m].0 == r[k].0);
                }
            } else {
                assert(s[s.len() - 1].0 == r[k].0);
            }
        }
        assert forall|k: int| 0 <= k < r.len() implies (#[trigger] r[k]).1 == v || exists|m: int|
            0 <= m < s.len() && s[m].1 == r[k].1 by {
            if k < q.len() {
                if q[k].1 != v {
                    let m = choose|m: int|
                        0 <= m < s.drop_last().len() && s.drop_last()[m].1 == q[k].1;
                    assert(s[m].1 == r[k].1);
                }
            } else {
                assert(s[s.len() - 1].1 == r[k].1);
            }
        }
    }
}

/// After setting index `i` to `v`, reading `i` yields `v` and every other
/// index is unchanged.
pub proof fn lemma_sorted_insert_get(s: Seq<(u64, i64)>, i: u64, v: i64, j: u64)
    requires
        sv_sorted(s),
    ensures
        sv_get(sorted_insert(s, i, v), j) == if j == i {
            v as int
        } else {
            sv_get(s, j)
        },
    decreases s.len(),
{
    let r = sorted_insert(s, i, v);
    if s.len() == 0 {
        assert(r == seq![(i, v)]);
        assert(r.len() == 1);
        assert(r.last() == (i, v));
        assert(r.drop_last() =~= Seq::<(u64, i64)>::empty());
        if j == i {
            assert(sv_get(r, j) == v as int);
        } else {
            assert(sv_get(r, j) == sv_get(r.drop_last(), j));
            assert(sv_get(r, j) == 0);
            assert(sv_get(s, j) == 0);
        }
    } else if s.last().0 < i {
        assert(r == s.push((i, v)));
        assert(r.len() == s.len() + 1);
        assert(r.last() == (i, v));
        assert(r.drop_last() =~= s);
        if j == i {
            assert(sv_get(r, j) == v as int);
        } else {
            assert(sv_get(r, j) == sv_get(s, j));
        }
    } else if s.last().0 == i {
        assert(r == s.drop_last().push((i, v)));
        assert(r.len() == s.len());
        assert(r.last() == (i, v));
        assert(r.drop_last() =~= s.drop_last());
        if j == i {
            assert(sv_get(r, j) == v as int);
        } else {
            assert(sv_get(r, j) == sv_get(s.drop_last(), j));
            assert(sv_get(s, j) == sv_get(s.drop_last(), j));
        }
    } else {
        lemma_sorted_insert_get(s.drop_last(), i, v, j);
        let q = sorted_insert(s.drop_last(), i, v);
        assert(r == q.push(s.last()));
        assert(r.len() == q.len() + 1);
        assert(r.drop_last() =~= q);
        assert(r.last() == s.last());
        if j == s.last().0 {
            assert(sv_get(r, j) == s.last().1 as int);
            assert(sv_get(s, j) == s.last().1 as int);
            assert(j != i);
        } else {
            assert(sv_get(r, j) == sv_get(q, j));
            assert(sv_get(s, j) == sv_get(s.drop_last(), j));
        }
    }
}

/// One sparse rating vector: the ratings given by one user (indexed by item)
/// or received by one item (indexed by user). Immutable once built; building
/// happens through [`SparseVector::insert`].
pub struct SparseVector {
    entries: Vec<(u64, i64)>,
}

impl View for SparseVector {
    type V = Seq<(u64, i64)>;

    closed spec fn view(&self) -> Seq<(u64, i64)> {
        self.entries@
    }
}

impl SparseVector {
    /// Well-formedness: the entry list is sorted, bounded and short.
    pub open spec fn wf(&self) -> bool {
        sv_wf(self@)
    }

    /// The vector with no stored entries (the zero vector).
    pub fn new() -> (r: SparseVector)
        ensures
            r@ == Seq::<(u64, i64)>::empty(),
            r.wf(),
    {
        SparseVector { entries: Vec::new() }
    }

    /// Number of explicitly stored (non-zero) entries.
    pub fn nnz(&self) -> (r: usize)
        ensures
            r == self@.len(),
    {
        self.entries.len()
    }

    /// Sets index `i` to the non-zero value `v`, keeping entries sorted;
    /// replaces the entry if `i` was already stored.
    pub fn insert(&mut self, i: u64, v: i64)
        requires
            old(self).wf(),
            old(self)@.len() < MAX_LEN,
            -MAX_VAL <= v <= MAX_VAL,
            v != 0,
        ensures
            final(self)@ == sorted_insert(old(self)@, i, v),
            final(self).wf(),
            forall|j: u64|
                sv_get(final(self)@, j) == if j == i {
                    v as int
                } else {
                    sv_get(old(self)@, j)
                },
    {
        proof {
            lemma_sorted_insert_wf(old(self)@, i, v);
            assert forall|j: u64|
                sv_get(sorted_insert(old(self)@, i, v), j) == if j == i {
                    v as int
                } else {
                    sv_get(old(self)@, j)
                } by {
                lemma_sorted_insert_get(old(self)@, i, v, j);
            }
        }
        insert_entry(&mut self.entries, i, v);
        proof {
            let r = sorted_insert(old(self)@, i, v);
            assert forall|k: int| 0 <= k < r.len() implies -MAX_VAL <= (#[trigger] r[k]).1
                <= MAX_VAL && r[k].1 != 0 by {
                if r[k].1 != v {
                    let m = choose|m: int| 0 <= m < old(self)@.len() && old(self)@[m].1 == r[k].1;
                    assert(-MAX_VAL <= old(self)@[m].1 <= MAX_VAL && old(self)@[m].1 != 0);
                }
            }
        }
    }

    /// Returns the value stored at index `i`, or zero if `i` is absent.
    /// Never fails.
    pub fn get(&self, i: u64) -> (r: i64)
        requires
            self.wf(),
        ensures
            r as int == sv_get(self@, i),
            -MAX_VAL <= r <= MAX_VAL,
    {
        let mut j = self.entries.len();
        proof {
            assert(self@.take(j as int) =~= self@);
            lemma_sv_get_bounded(self@, i);
        }
        while j > 0
            invariant
                j <= self@.len(),
                self.wf(),
                sv_get(self@, i) == sv_get(self@.take(j as int), i),
            decreases j,
        {
            proof {
                assert(self@.take(j as int).last() == self@[j - 1]);
                assert(self@.take(j as int).drop_last() =~= self@.take(j - 1));
            }
            if self.entries[j - 1].0 == i {
                return self.entries[j - 1].1;
            }
            j = j - 1;
        }
        0
    }

    /// The entry stored at position `k` of the sorted entry list.
    pub fn entry_at(&self, k: usize) -> (e: (u64, i64))
        requires
            k < self@.len(),
        ensures
            e == self@[k as int],
    {
        self.entries[k]
    }

    /// The sum of all stored values.
    pub fn sum(&self) -> (r: i128)
        requires
            self.wf(),
        ensures
            r as int == sum_vals(self@),
    {
        let n = self.entries.len();
        let mut i: usize = 0;
        let mut s: i128 = 0;
        proof {
            assert(self@.take(0) =~= Seq::<(u64, i64)>::empty());
        }
        while i < n
            invariant
                n == self@.len(),
                i <= n,
                self.wf(),
                s as int == sum_vals(self@.take(i as int)),
                -(i as int) * 100_000 <= s as int <= (i as int) * 100_000,
            decreases n - i,
        {
            proof {
                assert(self@.take(i + 1).last() == self@[i as int]);
                assert(self@.take(i + 1).drop_last() =~= self@.take(i as int));
            }
            s = s + self.entries[i].1 as i128;
            i = i + 1;
        }
        proof {
            assert(self@.take(n as int) =~= self@);
        }
        s
    }

    /// Merge-style dot product: the sum over all indices of the product of
    /// the two stored values, an absent entry contributing zero. Walks the
    /// two sorted entry lists in a single pass.
    pub fn dot(&self, other: &SparseVector) -> (r: i128)
        requires
            self.wf(),
            other.wf(),
        ensures
            r as int == dot_sum(self@, other@),
    {
        let ghost a = self@;
        let ghost b = other@;
        let na = self.entries.len();
        let nb = other.entries.len();
        let mut i: usize = 0;
        let mut j: usize = 0;
        let mut sum: i128 = 0;
        proof {
            assert(a.take(0) =~= Seq::<(u64, i64)>::empty());
        }
        while i < na
            invariant
                na == a.len(),
                nb == b.len(),
                i <= na,
                j <= nb,
                self.wf(),
                other.wf(),
                a == self@,
                b == other@,
                sum as int == dot_sum(a.take(i as int), b),
                -(i as int) * 10_000_000_000 <= sum as int <= (i as int) * 10_000_000_000,
                i < na ==> forall|l: int| 0 <= l < j ==> (#[trigger] b[l]).0 < a[i as int].0,
            decreases na - i + nb - j,
        {
            let ai = self.entries[i].0;
            let av = self.entries[i].1;
            proof {
                assert(a.take(i + 1).last() == a[i as int]);
                assert(a.take(i + 1).drop_last() =~= a.take(i as int));
            }
            if j == nb || other.entries[j].0 > ai {
                proof {
                    assert forall|k: int| 0 <= k < b.len() implies (#[trigger] b[k]).0 != ai by {
                        if k < j {
                        } else {
                            assert(j < nb);
                            if k > j {
                                assert(b[j as int].0 < b[k].0);
                            }
                        }
                    }
                    lemma_sv_get_not_found(b, ai);
                    assert(dot_sum(a.take(i + 1), b) == dot_sum(a.take(i as int), b));
                    if i + 1 < na {
                        assert(a[i as int].0 < a[i + 1].0);
                    }
                }
                i = i + 1;
            } else if other.entries[j].0 < ai {
                j = j + 1;
            } else {
                let bv = other.entries[j].1;
                proof {
                    lemma_sv_get_found(b, j as int);
                    assert(-10_000_000_000 <= av as int * bv as int <= 10_000_000_000)
                        by (nonlinear_arith)
                        requires
                            -100_000 <= av <= 100_000,
                            -100_000 <= bv <= 100_000,
                    ;
                    if i + 1 < na {
                        assert(a[i as int].0 < a[i + 1].0);
                    }
                    assert forall|l: int| 0 <= l < j + 1 implies (#[trigger] b[l]).0
                        <= a[i as int].0 by {
                        if l < j {
                        }
                    }
                }
                sum = sum + (av as i128) * (bv as i128);
                i = i + 1;
                j = j + 1;
            }
        }
        proof {
            assert(a.take(na as int) =~= a);
        }
        sum
    }
}

/// Places `(i, v)` at its sorted position in `v`, replacing an entry with the
/// same index, by peeling entries off the tail.
fn insert_entry(vec: &mut Vec<(u64, i64)>, i: u64, v: i64)
    ensures
        final(vec)@ == sorted_insert(old(vec)@, i, v),
    decreases old(vec)@.len(),
{
    if vec.len() == 0 {
        vec.push((i, v));
        proof {
            assert(vec@ =~= seq![(i, v)]);
        }
    } else {
        let last = vec[vec.len() - 1];
        if last.0 < i {
            vec.push((i, v));
        } else if last.0 == i {
            let _ = vec.pop();
            proof {
                assert(vec@ =~= old(vec)@.drop_last());
            }
            vec.push((i, v));
        } else {
            let popped = vec.pop().unwrap();
            proof {
                assert(vec@ =~= old(vec)@.drop_last());
                assert(popped == old(vec)@.last());
            }
            insert_entry(vec, i, v);
            vec.push(popped);
        }
    }
}

/// The sum of the stored values of an entry list.
pub open spec fn sum_vals(s: Seq<(u64, i64)>) -> int
    decreases s.len(),
{
    if s.len() == 0 {
        0
    } else {
        sum_vals(s.drop_last()) + s.last().1 as int
    }
}

/// The sum of stored values is bounded by the number of entries times
/// [`MAX_VAL`].
pub proof fn lemma_sum_bound(s: Seq<(u64, i64)>)
    requires
        sv_bounded(s),
    ensures
        -(s.len() as int) * 100_000 <= sum_vals(s) <= (s.len() as int) * 100_000,
    decreases s.len(),
{
    if s.len() > 0 {
        assert(forall|k: int| 0 <= k < s.drop_last().len() ==> s.drop_last()[k] == s[k]);
        lemma_sum_bound(s.drop_last());
        assert(s[s.len() - 1] == s.last());
    }
}

/// The dot product of two entry lists: the sum over the first list's entries
/// of the stored value times the other list's value at the same index.
pub open spec fn dot_sum(a: Seq<(u64, i64)>, b: Seq<(u64, i64)>) -> int
    decreases a.len(),
{
    if a.len() == 0 {
        0
    } else {
        dot_sum(a.drop_last(), b) + (a.last().1 as int) * sv_get(b, a.last().0)
    }
}

/// The dot product is bounded by the number of terms times [`MAX_VAL`] squared.
pub proof fn lemma_dot_bound(a: Seq<(u64, i64)>, b: Seq<(u64, i64)>)
    requires
        sv_bounded(a),
        sv_bounded(b),
    ensures
        -(a.len() as int) * 10_000_000_000 <= dot_sum(a, b) <= (a.len() as int) * 10_000_000_000,
    decreases a.len(),
{
    if a.len() > 0 {
        assert(sv_bounded(a.drop_last())) by {
            assert(forall|k: int|
                0 <= k < a.drop_last().len() ==> a.drop_last()[k] == a[k]);
        }
        lemma_dot_bound(a.drop_last(), b);
        lemma_sv_get_bounded(b, a.last().0);
        assert(a[a.len() - 1] == a.last());
        let av = a.last().1 as int;
        let bv = sv_get(b, a.last().0);
        assert(-10_000_000_000 <= av * bv <= 10_000_000_000) by (nonlinear_arith)
            requires
                -100_000 <= av <= 100_000,
                -100_000 <= bv <= 100_000,
        ;
    }
}

} // verus!

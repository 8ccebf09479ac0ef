//! The data model over raw observations and the k-nearest-neighbor
//! recommender built on it.
//!
//! A [`DataModel`] is built once from a finished list of observations and is
//! immutable afterwards: it interns user and item identifiers in the order
//! they are first observed and keeps one sparse vector per user (indexed by
//! item) and one per item (indexed by user). A rating of zero is the default
//! value of a sparse vector and is not stored.
//!
//! A [`KnnUserRecommender`] owns a data model, a similarity [`Metric`] and a
//! neighborhood size `k`. A prediction is the similarity-weighted average of
//! the ratings that the `k` most similar qualifying users gave the item;
//! "no possible prediction" is an absent result, never a failure.

use vstd::prelude::*;
use crate::num::{div_trunc, div_trunc_i128, lemma_div_trunc_avg_bound};
use crate::similarity::{similarity, spec_similarity, Metric, SIM_BOUND};
use crate::sparse::{
    lemma_sorted_insert_wf, lemma_sv_get_zero_iff_absent, sorted_insert, sv_get, sv_has, sv_wf,
    SparseVector, MAX_LEN, MAX_VAL,
};

verus! {

/// One recorded observation: user, item, and the rating given.
pub struct Record {
    pub user: String,
    pub item: String,
    pub rating: i64,
}

/// The mathematical content of a data model: interned identifiers in
/// first-observation order, and the per-user and per-item entry lists.
pub struct DmView {
    pub users: Seq<Seq<char>>,
    pub items: Seq<Seq<char>>,
    pub user_vecs: Seq<Seq<(u64, i64)>>,
    pub item_vecs: Seq<Seq<(u64, i64)>>,
}

/// Whether `id` occurs in `ids`.
pub open spec fn has_id(ids: Seq<Seq<char>>, id: Seq<char>) -> bool {
    exists|k: int| 0 <= k < ids.len() && ids[k] == id
}

/// The position of `id` in `ids` (unique when the identifiers are distinct).
pub open spec fn id_index(ids: Seq<Seq<char>>, id: Seq<char>) -> int {
    choose|k: int| 0 <= k < ids.len() && ids[k] == id
}

/// No identifier occurs twice.
pub open spec fn distinct_ids(ids: Seq<Seq<char>>) -> bool {
    forall|j: int, k: int| 0 <= j < k < ids.len() ==> ids[j] != ids[k]
}

/// The data model of no observations.
pub open spec fn dm_empty() -> DmView {
    DmView {
        users: Seq::empty(),
        items: Seq::empty(),
        user_vecs: Seq::empty(),
        item_vecs: Seq::empty(),
    }
}

/// Interns a user identifier: appends it, with an empty rating vector, if it
/// was never seen.
pub open spec fn dm_add_user(s: DmView, user: Seq<char>) -> DmView {
    if has_id(s.users, user) {
        s
    } else {
        DmView {
            users: s.users.push(user),
            items: s.items,
            user_vecs: s.user_vecs.push(Seq::empty()),
            item_vecs: s.item_vecs,
        }
    }
}

/// Interns an item identifier.
pub open spec fn dm_add_item(s: DmView, item: Seq<char>) -> DmView {
    if has_id(s.items, item) {
        s
    } else {
        DmView {
            users: s.users,
            items: s.items.push(item),
            user_vecs: s.user_vecs,
            item_vecs: s.item_vecs.push(Seq::empty()),
        }
    }
}

/// Records one observation: both identifiers are interned, and a non-zero
/// rating is stored in the user's vector (keyed by item) and the item's
/// vector (keyed by user).
pub open spec fn dm_step(s: DmView, r: Record) -> DmView {
    let s2 = dm_add_item(dm_add_user(s, r.user@), r.item@);
    if r.rating == 0 {
        s2
    } else {
        let ui = id_index(s2.users, r.user@);
        let ii = id_index(s2.items, r.item@);
        DmView {
            users: s2.users,
            items: s2.items,
            user_vecs: s2.user_vecs.update(
                ui,
                sorted_insert(s2.user_vecs[ui], ii as u64, r.rating),
            ),
            item_vecs: s2.item_vecs.update(
                ii,
                sorted_insert(s2.item_vecs[ii], ui as u64, r.rating),
            ),
        }
    }
}

/// The data model of a full observation list, built one record at a time.
pub open spec fn dm_build(records: Seq<Record>) -> DmView
    decreases records.len(),
{
    if records.len() == 0 {
        dm_empty()
    } else {
        dm_step(dm_build(records.drop_last()), records.last())
    }
}

/// Structural soundness of a data model: distinct identifiers, one vector
/// per identifier, and every vector well formed.
pub open spec fn dm_wf(v: DmView) -> bool {
    &&& distinct_ids(v.users)
    &&& distinct_ids(v.items)
    &&& v.user_vecs.len() == v.users.len()
    &&& v.item_vecs.len() == v.items.len()
    &&& v.users.len() <= MAX_LEN
    &&& v.items.len() <= MAX_LEN
    &&& forall|u: int| 0 <= u < v.user_vecs.len() ==> sv_wf(#[trigger] v.user_vecs[u])
    &&& forall|t: int| 0 <= t < v.item_vecs.len() ==> sv_wf(#[trigger] v.item_vecs[t])
}

/// An acceptable observation list: short enough, with bounded ratings.
pub open spec fn records_ok(records: Seq<Record>) -> bool {
    &&& records.len() <= MAX_LEN
    &&& forall|k: int|
        0 <= k < records.len() ==> -MAX_VAL <= (#[trigger] records[k]).rating <= MAX_VAL
}

/// No two observations concern the same user and item.
pub open spec fn no_duplicate_pairs(records: Seq<Record>) -> bool {
    forall|j: int, k: int|
        0 <= j < k < records.len() ==> !((#[trigger] records[j]).user@ == (
        #[trigger] records[k]).user@ && records[j].item@ == records[k].item@)
}

/// Finds the first position of `id` in `ids`.
fn find_index(ids: &Vec<String>, id: &String) -> (r: Option<usize>)
    ensures
        match r {
            Some(j) => j < ids@.len() && ids@[j as int]@ == id@ && forall|l: int|
                0 <= l < j ==> (#[trigger] ids@[l])@ != id@,
            None => forall|l: int| 0 <= l < ids@.len() ==> (#[trigger] ids@[l])@ != id@,
        },
{
    let n = ids.len();
    let mut j: usize = 0;
    while j < n
        invariant
            n == ids@.len(),
            j <= n,
            forall|l: int| 0 <= l < j ==> (#[trigger] ids@[l])@ != id@,
        decreases n - j,
    {
        if ids[j].eq(id) {
            return Some(j);
        }
        j = j + 1;
    }
    None
}

/// Holds all observations in queryable form: the interned identifiers and
/// the sparse rating vector of every user and every item.
pub struct DataModel {
    users: Vec<String>,
    items: Vec<String>,
    user_vecs: Vec<SparseVector>,
    item_vecs: Vec<SparseVector>,
}

impl View for DataModel {
    type V = DmView;

    closed spec fn view(&self) -> DmView {
        DmView {
            users: self.users@.map_values(|s: String| s@),
            items: self.items@.map_values(|s: String| s@),
            user_vecs: self.user_vecs@.map_values(|v: SparseVector| v@),
            item_vecs: self.item_vecs@.map_values(|v: SparseVector| v@),
        }
    }
}

impl DataModel {
    /// Builds the model in one pass over the observations.
    pub fn from_records(records: &Vec<Record>) -> (r: DataModel)
        requires
            records_ok(records@),
        ensures
            r@ == dm_build(records@),
            dm_wf(r@),
    {
        let mut dm = DataModel {
            users: Vec::new(),
            items: Vec::new(),
            user_vecs: Vec::new(),
            item_vecs: Vec::new(),
        };
        proof {
            assert(records@.take(0) =~= Seq::<Record>::empty());
            assert(dm@.users =~= dm_empty().users);
            assert(dm@.items =~= dm_empty().items);
            assert(dm@.user_vecs =~= dm_empty().user_vecs);
            assert(dm@.item_vecs =~= dm_empty().item_vecs);
        }
        let n = records.len();
        let mut i: usize = 0;
        while i < n
            invariant
                n == records@.len(),
                i <= n,
                records_ok(records@),
                dm@ == dm_build(records@.take(i as int)),
                dm_wf(dm@),
                dm.users@.len() == dm@.users.len(),
                dm.items@.len() == dm@.items.len(),
                dm.user_vecs@.len() == dm@.user_vecs.len(),
                dm.item_vecs@.len() == dm@.item_vecs.len(),
                dm@.users.len() <= i,
                dm@.items.len() <= i,
                forall|u: int|
                    0 <= u < dm@.user_vecs.len() ==> (#[trigger] dm@.user_vecs[u]).len() <= i,
                forall|t: int|
                    0 <= t < dm@.item_vecs.len() ==> (#[trigger] dm@.item_vecs[t]).len() <= i,
            decreases n - i,
        {
            let ghost s0 = dm@;
            let rec = &records[i];
            // intern the user
            let ui: usize;
            match find_index(&dm.users, &rec.user) {
                Some(k) => {
                    ui = k;
                    proof {
                        assert(s0.users[k as int] == rec.user@);
                        assert(has_id(s0.users, rec.user@));
                        assert(dm@ == dm_add_user(s0, rec.user@));
                    }
                },
                None => {
                    proof {
                        assert(forall|l: int|
                            0 <= l < s0.users.len() ==> (#[trigger] s0.users[l]) != rec.user@);
                        assert(!has_id(s0.users, rec.user@));
                    }
                    dm.users.push(rec.user.clone());
                    dm.user_vecs.push(SparseVector::new());
                    ui = dm.users.len() - 1;
                    proof {
                        assert(dm@.users =~= s0.users.push(rec.user@));
                        assert(dm@.user_vecs =~= s0.user_vecs.push(Seq::<(u64, i64)>::empty()));
                        assert(dm@.items =~= s0.items);
                        assert(dm@.item_vecs =~= s0.item_vecs);
                        assert(dm@ == dm_add_user(s0, rec.user@));
                        assert forall|j: int, k: int|
                            0 <= j < k < dm@.users.len() implies dm@.users[j] != dm@.users[k] by {
                            if k < dm@.users.len() - 1 {
                                assert(s0.users[j] != s0.users[k]);
                            } else {
                                assert(dm@.users[k] == rec.user@);
                                assert(s0.users[j] != rec.user@);
                            }
                        }
                    }
                },
            }
            let ghost s1 = dm_add_user(s0, rec.user@);
            proof {
                assert(dm@ == s1);
                assert(s1.users[ui as int] == rec.user@);
                assert(has_id(s1.users, rec.user@));
                let k0 = id_index(s1.users, rec.user@);
                assert(s1.users[k0] == rec.user@);
                assert(k0 == ui as int);
            }
            // intern the item
            let ii: usize;
            match find_index(&dm.items, &rec.item) {
                Some(k) => {
                    ii = k;
                    proof {
                        assert(s1.items[k as int] == rec.item@);
                        assert(has_id(s1.items, rec.item@));
                        assert(dm@ == dm_add_item(s1, rec.item@));
                    }
                },
                None => {
                    proof {
                        assert(forall|l: int|
                            0 <= l < s1.items.len() ==> (#[trigger] s1.items[l]) != rec.item@);
                        assert(!has_id(s1.items, rec.item@));
                    }
                    dm.items.push(rec.item.clone());
                    dm.item_vecs.push(SparseVector::new());
                    ii = dm.items.len() - 1;
                    proof {
                        assert(dm@.items =~= s1.items.push(rec.item@));
                        assert(dm@.item_vecs =~= s1.item_vecs.push(Seq::<(u64, i64)>::empty()));
                        assert(dm@.users =~= s1.users);
                        assert(dm@.user_vecs =~= s1.user_vecs);
                        assert(dm@ == dm_add_item(s1, rec.item@));
                        assert forall|j: int, k: int|
                            0 <= j < k < dm@.items.len() implies dm@.items[j] != dm@.items[k] by {
                            if k < dm@.items.len() - 1 {
                                assert(s1.items[j] != s1.items[k]);
                            } else {
                                assert(dm@.items[k] == rec.item@);
                                assert(s1.items[j] != rec.item@);
                            }
                        }
                    }
                },
            }
            let ghost s2 = dm_add_item(s1, rec.item@);
            proof {
                assert(dm@ == s2);
                assert(s2.items[ii as int] == rec.item@);
                assert(has_id(s2.items, rec.item@));
                let k0 = id_index(s2.items, rec.item@);
                assert(s2.items[k0] == rec.item@);
                assert(k0 == ii as int);
                assert(id_index(s2.users, rec.user@) == ui as int);
            }
            // store a non-zero rating in both vectors
            if rec.rating != 0 {
                proof {
                    assert(records@[i as int].rating == rec.rating);
                    assert(-MAX_VAL <= rec.rating <= MAX_VAL);
                    lemma_sorted_insert_wf(s2.user_vecs[ui as int], ii as u64, rec.rating);
                    lemma_sorted_insert_wf(s2.item_vecs[ii as int], ui as u64, rec.rating);
                }
                let ghost old_uvecs = dm.user_vecs@;
                let mut uv = dm.user_vecs.remove(ui);
                uv.insert(ii as u64, rec.rating);
                dm.user_vecs.insert(ui, uv);
                proof {
                    assert(dm.user_vecs@ =~= old_uvecs.update(
                        ui as int,
                        dm.user_vecs@[ui as int],
                    ));
                    assert(dm@.user_vecs =~= s2.user_vecs.update(
                        ui as int,
                        sorted_insert(s2.user_vecs[ui as int], ii as u64, rec.rating),
                    ));
                }
                let ghost old_ivecs = dm.item_vecs@;
                let mut iv = dm.item_vecs.remove(ii);
                iv.insert(ui as u64, rec.rating);
                dm.item_vecs.insert(ii, iv);
                proof {
                    assert(dm.item_vecs@ =~= old_ivecs.update(
                        ii as int,
                        dm.item_vecs@[ii as int],
                    ));
                    assert(dm@.item_vecs =~= s2.item_vecs.update(
                        ii as int,
                        sorted_insert(s2.item_vecs[ii as int], ui as u64, rec.rating),
                    ));
                    assert(dm@.users =~= s2.users);
                    assert(dm@.items =~= s2.items);
                    assert(dm@ == dm_step(s0, records@[i as int]));
                }
            } else {
                proof {
                    assert(dm@ == dm_step(s0, records@[i as int]));
                }
            }
            proof {
                assert(records@.take(i + 1).drop_last() =~= records@.take(i as int));
                assert(records@.take(i + 1).last() == records@[i as int]);
                assert(dm@ == dm_build(records@.take(i + 1)));
            }
            i = i + 1;
        }
        proof {
            assert(records@.take(n as int) =~= records@);
        }
        dm
    }

    /// The interned user identifiers, in first-observation order.
    pub fn known_users(&self) -> (r: &Vec<String>)
        ensures
            r@.map_values(|s: String| s@) == self@.users,
    {
        &self.users
    }

    /// The interned item identifiers, in first-observation order.
    pub fn known_items(&self) -> (r: &Vec<String>)
        ensures
            r@.map_values(|s: String| s@) == self@.items,
    {
        &self.items
    }

    /// The rating vector of a user, indexed by item, or nothing for a user
    /// never observed.
    pub fn vector_for_user(&self, user_id: &String) -> (r: Option<&SparseVector>)
        requires
            dm_wf(self@),
        ensures
            match r {
                Some(v) => has_id(self@.users, user_id@) && v@ == self@.user_vecs[id_index(
                    self@.users,
                    user_id@,
                )] && v.wf(),
                None => !has_id(self@.users, user_id@),
            },
    {
        match find_index(&self.users, user_id) {
            Some(k) => {
                proof {
                    assert(self@.users[k as int] == user_id@);
                    let k0 = id_index(self@.users, user_id@);
                    assert(self@.users[k0] == user_id@);
                    assert(k0 == k as int);
                }
                Some(&self.user_vecs[k])
            },
            None => {
                proof {
                    assert(forall|l: int|
                        0 <= l < self@.users.len() ==> (#[trigger] self@.users[l]) != user_id@);
                }
                None
            },
        }
    }

    /// The rating vector of an item, indexed by user, or nothing for an item
    /// never observed.
    pub fn vector_for_item(&self, item_id: &String) -> (r: Option<&SparseVector>)
        requires
            dm_wf(self@),
        ensures
            match r {
                Some(v) => has_id(self@.items, item_id@) && v@ == self@.item_vecs[id_index(
                    self@.items,
                    item_id@,
                )] && v.wf(),
                None => !has_id(self@.items, item_id@),
            },
    {
        match find_index(&self.items, item_id) {
            Some(k) => {
                proof {
                    assert(self@.items[k as int] == item_id@);
                    let k0 = id_index(self@.items, item_id@);
                    assert(self@.items[k0] == item_id@);
                    assert(k0 == k as int);
                }
                Some(&self.item_vecs[k])
            },
            None => {
                proof {
                    assert(forall|l: int|
                        0 <= l < self@.items.len() ==> (#[trigger] self@.items[l]) != item_id@);
                }
                None
            },
        }
    }

    /// The stored observation for a user and item, if one was recorded (with
    /// a non-zero rating).
    pub fn rating(&self, user_id: &String, item_id: &String) -> (r: Option<i64>)
        requires
            dm_wf(self@),
        ensures
            ({
                let known = has_id(self@.users, user_id@) && has_id(self@.items, item_id@);
                let uv = self@.user_vecs[id_index(self@.users, user_id@)];
                let ii = id_index(self@.items, item_id@);
                match r {
                    Some(x) => known && sv_has(uv, ii as u64) && x as int == sv_get(uv, ii as u64),
                    None => !known || !sv_has(uv, ii as u64),
                }
            }),
    {
        let uv = match self.vector_for_user(user_id) {
            Some(v) => v,
            None => {
                return None;
            },
        };
        let ii = match find_index(&self.items, item_id) {
            Some(k) => k,
            None => {
                proof {
                    assert(forall|l: int|
                        0 <= l < self@.items.len() ==> (#[trigger] self@.items[l]) != item_id@);
                }
                return None;
            },
        };
        proof {
            assert(self@.items[ii as int] == item_id@);
            let k0 = id_index(self@.items, item_id@);
            assert(self@.items[k0] == item_id@);
            assert(k0 == ii as int);
            lemma_sv_get_zero_iff_absent(uv@, ii as u64);
        }
        let x = uv.get(ii as u64);
        if x != 0 {
            Some(x)
        } else {
            None
        }
    }
}

} // verus!

verus! {

/// The mathematical content of a recommender: the model, the metric, and the
/// neighborhood size.
pub struct RecView {
    pub model: DmView,
    pub metric: Metric,
    pub k: int,
}

/// A sound recommender: one over a sound data model.
pub open spec fn rec_wf(v: RecView) -> bool {
    dm_wf(v.model)
}

/// The candidate neighbors among the first `j` users, in first-observation
/// order: every user other than `ui` who stored a rating for item `ii` and
/// whose similarity to `ui` is strictly positive, paired with that rating.
pub open spec fn cand_seq(v: RecView, ui: int, ii: int, j: int) -> Seq<(i128, i64)>
    decreases j,
{
    if j <= 0 {
        Seq::empty()
    } else {
        let pre = cand_seq(v, ui, ii, j - 1);
        let w = j - 1;
        let rat = sv_get(v.model.user_vecs[w], ii as u64);
        let sim = spec_similarity(
            v.metric,
            v.model.user_vecs[ui],
            v.model.user_vecs[w],
            v.model.items.len() as int,
        );
        if w != ui && rat != 0 && sim > 0 {
            pre.push((sim as i128, rat as i64))
        } else {
            pre
        }
    }
}

/// The position of the best candidate: the highest similarity, and among
/// equals the one observed earliest.
pub open spec fn best_idx(s: Seq<(i128, i64)>) -> int
    decreases s.len(),
{
    if s.len() <= 1 {
        0
    } else {
        let b = best_idx(s.drop_last());
        if s.last().0 > s[b].0 {
            s.len() - 1
        } else {
            b
        }
    }
}

/// `best_idx` points at a maximal similarity, and at the first one.
pub proof fn lemma_best_idx(s: Seq<(i128, i64)>)
    requires
        s.len() > 0,
    ensures
        0 <= best_idx(s) < s.len(),
        forall|l: int| 0 <= l < s.len() ==> (#[trigger] s[l]).0 <= s[best_idx(s)].0,
        forall|l: int| 0 <= l < best_idx(s) ==> (#[trigger] s[l]).0 < s[best_idx(s)].0,
    decreases s.len(),
{
    if s.len() > 1 {
        lemma_best_idx(s.drop_last());
        assert(forall|l: int| 0 <= l < s.len() - 1 ==> s.drop_last()[l] == s[l]);
        assert(s[s.len() - 1] == s.last());
    }
}

/// The `k` best candidates, repeatedly taking the best remaining one.
pub open spec fn topk(s: Seq<(i128, i64)>, k: int) -> Seq<(i128, i64)>
    decreases k,
{
    if k <= 0 || s.len() == 0 {
        Seq::empty()
    } else {
        let b = best_idx(s);
        seq![s[b]] + topk(s.remove(b), k - 1)
    }
}

/// The similarity-weighted sum of the chosen neighbors' ratings.
pub open spec fn wnum(s: Seq<(i128, i64)>) -> int
    decreases s.len(),
{
    if s.len() == 0 {
        0
    } else {
        wnum(s.drop_last()) + (s.last().0 as int) * (s.last().1 as int)
    }
}

/// The sum of the chosen neighbors' similarities (all positive, so equal to
/// the sum of their magnitudes).
pub open spec fn wden(s: Seq<(i128, i64)>) -> int
    decreases s.len(),
{
    if s.len() == 0 {
        0
    } else {
        wden(s.drop_last()) + s.last().0 as int
    }
}

/// Bounded candidates: a positive similarity and a rating within
/// [`MAX_VAL`].
pub open spec fn cands_ok(s: Seq<(i128, i64)>) -> bool {
    forall|l: int|
        0 <= l < s.len() ==> 0 < (#[trigger] s[l]).0 <= SIM_BOUND && -MAX_VAL <= s[l].1 <= MAX_VAL
}

/// Over bounded candidates the weighted sum stays within the weight total
/// times [`MAX_VAL`], and the weight total of anything non-empty is positive.
pub proof fn lemma_weights_bound(s: Seq<(i128, i64)>)
    requires
        cands_ok(s),
    ensures
        wden(s) >= 0,
        s.len() > 0 ==> wden(s) >= 1,
        -(wden(s) * 100_000) <= wnum(s) <= wden(s) * 100_000,
    decreases s.len(),
{
    if s.len() > 0 {
        assert(forall|l: int| 0 <= l < s.len() - 1 ==> s.drop_last()[l] == s[l]);
        lemma_weights_bound(s.drop_last());
        assert(s[s.len() - 1] == s.last());
        let e0 = s.last().0 as int;
        let e1 = s.last().1 as int;
        assert(-(e0 * 100_000) <= e0 * e1 <= e0 * 100_000) by (nonlinear_arith)
            requires
                0 < e0,
                -100_000 <= e1 <= 100_000,
        ;
        assert((wden(s.drop_last()) + e0) * 100_000 == wden(s.drop_last()) * 100_000 + e0
            * 100_000) by (nonlinear_arith);
    }
}

/// The prediction of a recommender for a user and an item: absent when the
/// user or the item was never observed or no qualifying neighbor exists, and
/// otherwise the similarity-weighted average of the ratings that the chosen
/// neighbors gave the item.
pub open spec fn spec_predict(v: RecView, u: Seq<char>, it: Seq<char>) -> Option<int> {
    if !has_id(v.model.users, u) || !has_id(v.model.items, it) {
        None
    } else {
        let ui = id_index(v.model.users, u);
        let ii = id_index(v.model.items, it);
        let chosen = topk(cand_seq(v, ui, ii, v.model.users.len() as int), v.k);
        if chosen.len() == 0 {
            None
        } else {
            Some(div_trunc(wnum(chosen), wden(chosen)))
        }
    }
}

/// Predicts missing ratings as a similarity-weighted average of the ratings
/// given by the `k` most similar users.
pub struct KnnUserRecommender {
    model: DataModel,
    metric: Metric,
    k: usize,
}

impl View for KnnUserRecommender {
    type V = RecView;

    closed spec fn view(&self) -> RecView {
        RecView { model: self.model@, metric: self.metric, k: self.k as int }
    }
}

impl KnnUserRecommender {
    /// Builds the data model from a finished observation list and fixes the
    /// similarity strategy and the neighborhood size.
    pub fn from_records(records: &Vec<Record>, metric: Metric, k: usize) -> (r: Self)
        requires
            records_ok(records@),
            no_duplicate_pairs(records@),
        ensures
            r@.model == dm_build(records@),
            r@.metric == metric,
            r@.k == k,
            rec_wf(r@),
    {
        let model = DataModel::from_records(records);
        KnnUserRecommender { model, metric, k }
    }

    /// The data model the recommender was built over.
    pub fn data_model(&self) -> (r: &DataModel)
        ensures
            r@ == self@.model,
    {
        &self.model
    }

    /// Predicts the rating `user_id` would give `item_id`, or nothing when
    /// the user or item was never observed or no qualifying neighbor exists.
    pub fn predict(&self, user_id: &String, item_id: &String) -> (r: Option<i64>)
        requires
            rec_wf(self@),
        ensures
            r is Some <==> spec_predict(self@, user_id@, item_id@) is Some,
            r is Some ==> r->0 as int == spec_predict(self@, user_id@, item_id@)->0,
            !has_id(self@.model.users, user_id@) ==> r is None,
    {
        let ghost v = self@;
        let ui: usize = match find_index(&self.model.users, user_id) {
            Some(k) => {
                proof {
                    assert(v.model.users[k as int] == user_id@);
                    let k0 = id_index(v.model.users, user_id@);
                    assert(v.model.users[k0] == user_id@);
                    assert(k0 == k as int);
                }
                k
            },
            None => {
                proof {
                    assert(forall|l: int|
                        0 <= l < v.model.users.len() ==> (#[trigger] v.model.users[l])
                            != user_id@);
                }
                return None;
            },
        };
        let ii: usize = match find_index(&self.model.items, item_id) {
            Some(k) => {
                proof {
                    assert(v.model.items[k as int] == item_id@);
                    let k0 = id_index(v.model.items, item_id@);
                    assert(v.model.items[k0] == item_id@);
                    assert(k0 == k as int);
                }
                k
            },
            None => {
                proof {
                    assert(forall|l: int|
                        0 <= l < v.model.items.len() ==> (#[trigger] v.model.items[l])
                            != item_id@);
                }
                return None;
            },
        };
        let n_users = self.model.users.len();
        let n_items = self.model.items.len();
        let ii_u: u64 = ii as u64;
        let mut cands: Vec<(i128, i64)> = Vec::new();
        let mut w: usize = 0;
        while w < n_users
            invariant
                rec_wf(v),
                v == self@,
                n_users == v.model.users.len(),
                n_items == v.model.items.len(),
                ui < n_users,
                ii < n_items,
                ii_u == ii as u64,
                ui as int == id_index(v.model.users, user_id@),
                ii as int == id_index(v.model.items, item_id@),
                has_id(v.model.users, user_id@),
                has_id(v.model.items, item_id@),
                w <= n_users,
                cands@ == cand_seq(v, ui as int, ii as int, w as int),
                cands_ok(cands@),
                cands@.len() <= w,
            decreases n_users - w,
        {
            if w != ui {
                proof {
                    assert(v.model.user_vecs[ui as int] == self.model.user_vecs@[ui as int]@);
                    assert(v.model.user_vecs[w as int] == self.model.user_vecs@[w as int]@);
                    assert(sv_wf(v.model.user_vecs[ui as int]));
                    assert(sv_wf(v.model.user_vecs[w as int]));
                }
                let sim = similarity(
                    self.metric,
                    &self.model.user_vecs[ui],
                    &self.model.user_vecs[w],
                    n_items,
                );
                let rat = self.model.user_vecs[w].get(ii_u);
                if sim > 0 && rat != 0 {
                    cands.push((sim, rat));
                    proof {
                        assert(cands@.last() == (sim, rat));
                    }
                }
            }
            proof {
                assert(cands@ == cand_seq(v, ui as int, ii as int, w as int + 1));
            }
            w = w + 1;
        }
        // keep the k best candidates, earliest first among equals
        let mut remaining = cands;
        let ghost cands0 = remaining@;
        let mut chosen: Vec<(i128, i64)> = Vec::new();
        proof {
            assert(chosen@ + topk(cands0, v.k) =~= topk(cands0, v.k));
        }
        while chosen.len() < self.k && remaining.len() > 0
            invariant
                v == self@,
                chosen@.len() <= v.k,
                chosen@.len() + remaining@.len() == cands0.len(),
                cands0.len() <= MAX_LEN,
                topk(cands0, v.k) == chosen@ + topk(remaining@, v.k - chosen@.len()),
                cands_ok(chosen@),
                cands_ok(remaining@),
            decreases remaining@.len(),
        {
            let mut b: usize = 0;
            let mut m: usize = 1;
            proof {
                assert(remaining@.take(1) =~= seq![remaining@[0]]);
            }
            while m < remaining.len()
                invariant
                    1 <= m <= remaining@.len(),
                    b < m,
                    b as int == best_idx(remaining@.take(m as int)),
                decreases remaining@.len() - m,
            {
                proof {
                    assert(remaining@.take(m + 1).drop_last() =~= remaining@.take(m as int));
                    assert(remaining@.take(m + 1).last() == remaining@[m as int]);
                }
                if remaining[m].0 > remaining[b].0 {
                    b = m;
                }
                m = m + 1;
            }
            proof {
                assert(remaining@.take(remaining@.len() as int) =~= remaining@);
                lemma_best_idx(remaining@);
            }
            let ghost old_chosen = chosen@;
            let ghost old_rem = remaining@;
            let e = remaining.remove(b);
            chosen.push(e);
            proof {
                let ghost t = old_chosen.len() as int;
                assert(topk(old_rem, v.k - t) == seq![old_rem[b as int]] + topk(
                    old_rem.remove(b as int),
                    v.k - t - 1,
                ));
                assert(chosen@ =~= old_chosen + seq![e]);
                assert((old_chosen + seq![e]) + topk(remaining@, v.k - t - 1) =~= old_chosen + (
                seq![e] + topk(remaining@, v.k - t - 1)));
                assert(topk(cands0, v.k) == chosen@ + topk(remaining@, v.k - chosen@.len()));
                assert(cands_ok(remaining@)) by {
                    assert(forall|l: int|
                        0 <= l < remaining@.len() ==> remaining@[l] == if l < b as int {
                            old_rem[l]
                        } else {
                            old_rem[l + 1]
                        });
                }
            }
        }
        proof {
            if chosen@.len() == 0 {
                assert(topk(cands0, v.k) =~= Seq::<(i128, i64)>::empty());
            } else {
                assert(topk(remaining@, v.k - chosen@.len()) =~= Seq::<(i128, i64)>::empty());
                assert(topk(cands0, v.k) =~= chosen@);
            }
        }
        if chosen.len() == 0 {
            return None;
        }
        // similarity-weighted average of the chosen neighbors' ratings
        let cn = chosen.len();
        let mut num: i128 = 0;
        let mut den: i128 = 0;
        let mut t: usize = 0;
        proof {
            assert(chosen@.take(0) =~= Seq::<(i128, i64)>::empty());
        }
        while t < cn
            invariant
                cn == chosen@.len(),
                1 <= cn <= MAX_LEN,
                t <= cn,
                cands_ok(chosen@),
                num as int == wnum(chosen@.take(t as int)),
                den as int == wden(chosen@.take(t as int)),
                -(t as int) * 100_000_000_000_000_000_000_000_000_000_000 <= num as int <= (
                t as int) * 100_000_000_000_000_000_000_000_000_000_000,
                0 <= den as int <= (t as int) * 1_000_000_000_000_000_000_000_000_000,
            decreases cn - t,
        {
            let e = chosen[t];
            proof {
                assert(chosen@.take(t + 1).drop_last() =~= chosen@.take(t as int));
                assert(chosen@.take(t + 1).last() == chosen@[t as int]);
                assert(0 < e.0 <= SIM_BOUND && -MAX_VAL <= e.1 <= MAX_VAL);
                assert(-100_000_000_000_000_000_000_000_000_000_000 <= e.0 as int * e.1 as int
                    <= 100_000_000_000_000_000_000_000_000_000_000) by (nonlinear_arith)
                    requires
                        0 < e.0 <= 1_000_000_000_000_000_000_000_000_000,
                        -100_000 <= e.1 <= 100_000,
                ;
            }
            num = num + e.0 * (e.1 as i128);
            den = den + e.0;
            t = t + 1;
        }
        proof {
            assert(chosen@.take(cn as int) =~= chosen@);
            lemma_weights_bound(chosen@);
            lemma_div_trunc_avg_bound(num as int, den as int, 100_000);
        }
        let rv = div_trunc_i128(num, den);
        Some(rv as i64)
    }
}

} // verus!

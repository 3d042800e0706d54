//! The tree classifier: a CART-style binary decision tree grown by
//! impurity-driven split selection.
//!
//! `train` ensures the built tree satisfies `tree_fits`, the exact build
//! relation: empty data gives a default leaf, pure data gives a pure leaf,
//! the depth/min-samples stopping rules give majority leaves, unsplittable
//! data gives a majority leaf, and otherwise the root is an internal node
//! whose split has both sides non-empty and minimal weighted Gini impurity
//! among all possible thresholds — exact ties resolved to the first
//! candidate in search order — and whose subtrees fit the two partitions.

use vstd::prelude::*;

use crate::model::Model;
use crate::record::{
    all_same_label, count_label, dataset_view, majority_spec, record_wf, wf_dataset,
    ProcessedPatientRecord, RecordView, FEAT_LIMIT, N_LIMIT,
};

verus! {

/// A tree node: a leaf holding a predicted label, or an internal node
/// holding a feature index, a threshold, and its two subtrees.
pub enum Node {
    Leaf(u8),
    Internal { feature_index: usize, threshold: i64, left: Box<Node>, right: Box<Node> },
}

/// The records of `s` whose value at feature `f` is at most `t`.
pub open spec fn left_part(s: Seq<RecordView>, f: int, t: i64) -> Seq<RecordView>
    decreases s.len(),
{
    if s.len() == 0 {
        Seq::empty()
    } else {
        let rest = left_part(s.drop_last(), f, t);
        if s.last().features[f] <= t {
            rest.push(s.last())
        } else {
            rest
        }
    }
}

/// The records of `s` whose value at feature `f` exceeds `t`.
pub open spec fn right_part(s: Seq<RecordView>, f: int, t: i64) -> Seq<RecordView>
    decreases s.len(),
{
    if s.len() == 0 {
        Seq::empty()
    } else {
        let rest = right_part(s.drop_last(), f, t);
        if s.last().features[f] <= t {
            rest
        } else {
            rest.push(s.last())
        }
    }
}

/// A usable split: a feature in range whose threshold leaves neither side
/// empty.
pub open spec fn candidate(s: Seq<RecordView>, f: int, t: i64) -> bool {
    &&& 0 <= f < s[0].features.len()
    &&& left_part(s, f, t).len() > 0
    &&& right_part(s, f, t).len() > 0
}

/// Some threshold splits `s` into two non-empty parts. Every non-empty
/// left-and-right partition arises at a threshold equal to some record's
/// feature value, so it is enough to quantify over those.
pub open spec fn splittable(s: Seq<RecordView>) -> bool {
    exists|f: int, j: int|
        0 <= f < s[0].features.len() && 0 <= j < s.len() && right_part(
            s,
            f,
            s[j].features[f],
        ).len() > 0
}

/// Numerator of the split goodness: with left label counts `a0, a1` and
/// right counts `b0, b1`, the weighted Gini impurity of the split is
/// `(s.len() - num/den) / s.len()`, so a larger `num/den` means a purer
/// split.
pub open spec fn split_gain_num(s: Seq<RecordView>, f: int, t: i64) -> int {
    let lft = left_part(s, f, t);
    let rgt = right_part(s, f, t);
    let a0 = count_label(lft, 0) as int;
    let a1 = count_label(lft, 1) as int;
    let b0 = count_label(rgt, 0) as int;
    let b1 = count_label(rgt, 1) as int;
    (a0 * a0 + a1 * a1) * rgt.len() + (b0 * b0 + b1 * b1) * lft.len()
}

/// Denominator of the split goodness.
pub open spec fn split_gain_den(s: Seq<RecordView>, f: int, t: i64) -> int {
    left_part(s, f, t).len() * right_part(s, f, t).len() as int
}

/// Split `(f2, t2)` has weighted Gini impurity no lower than `(f1, t1)`:
/// the goodness ratios compare by cross-multiplication.
pub open spec fn split_le(s: Seq<RecordView>, f1: int, t1: i64, f2: int, t2: i64) -> bool {
    split_gain_num(s, f2, t2) * split_gain_den(s, f1, t1) <= split_gain_num(s, f1, t1)
        * split_gain_den(s, f2, t2)
}

/// Split `(f2, t2)` has strictly higher weighted Gini impurity than
/// `(f1, t1)`.
pub open spec fn split_lt(s: Seq<RecordView>, f1: int, t1: i64, f2: int, t2: i64) -> bool {
    split_gain_num(s, f2, t2) * split_gain_den(s, f1, t1) < split_gain_num(s, f1, t1)
        * split_gain_den(s, f2, t2)
}

/// Candidate `(f2, t2)` is met strictly before `(f, t)` in the search
/// order: a smaller feature index, or the same feature with a smaller
/// threshold. Along one feature a smaller candidate threshold leaves a
/// strictly larger right part, which is how the order is stated here, so
/// that thresholds inducing the same partition do not count as distinct
/// candidates.
pub open spec fn earlier_candidate(s: Seq<RecordView>, f2: int, t2: i64, f: int, t: i64) -> bool {
    ||| f2 < f
    ||| (f2 == f && right_part(s, f2, t2).len() > right_part(s, f, t).len())
}

/// `(f, t)` is a best split: a candidate whose weighted Gini impurity is
/// minimal among all candidate thresholds of all features, and the first
/// such candidate found: every candidate met earlier in the search order
/// (features ascending, thresholds ascending within a feature) is strictly
/// worse, so exact ties keep the first-found split.
pub open spec fn best_split(s: Seq<RecordView>, f: int, t: i64) -> bool {
    &&& candidate(s, f, t)
    &&& forall|f2: int, j: int|
        0 <= f2 < s[0].features.len() && 0 <= j < s.len() && #[trigger] right_part(
            s,
            f2,
            s[j].features[f2],
        ).len() > 0 ==> split_le(s, f, t, f2, s[j].features[f2])
    &&& forall|f2: int, j: int|
        0 <= f2 < s[0].features.len() && 0 <= j < s.len() && #[trigger] right_part(
            s,
            f2,
            s[j].features[f2],
        ).len() > 0 && earlier_candidate(s, f2, s[j].features[f2], f, t) ==> split_lt(
            s,
            f,
            t,
            f2,
            s[j].features[f2],
        )
}

/// The exact relation between training data and the tree built from it.
pub open spec fn tree_fits(n: Node, s: Seq<RecordView>, depth: int, md: int, ms: int) -> bool
    decreases n,
{
    if s.len() == 0 {
        n == Node::Leaf(0)
    } else if all_same_label(s) {
        n == Node::Leaf(s[0].target)
    } else if depth >= md || s.len() < ms {
        n == Node::Leaf(majority_spec(s))
    } else if !splittable(s) {
        n == Node::Leaf(majority_spec(s))
    } else {
        match n {
            Node::Leaf(_) => false,
            Node::Internal { feature_index, threshold, left, right } => {
                &&& best_split(s, feature_index as int, threshold)
                &&& tree_fits(*left, left_part(s, feature_index as int, threshold), depth + 1, md, ms)
                &&& tree_fits(
                    *right,
                    right_part(s, feature_index as int, threshold),
                    depth + 1,
                    md,
                    ms,
                )
            },
        }
    }
}

/// Descending the tree with a feature vector: left on `value <= threshold`,
/// right otherwise.
pub open spec fn descend(n: Node, feats: Seq<i64>) -> u8
    decreases n,
{
    match n {
        Node::Leaf(l) => l,
        Node::Internal { feature_index, threshold, left, right } => {
            if feats[feature_index as int] <= threshold {
                descend(*left, feats)
            } else {
                descend(*right, feats)
            }
        },
    }
}

/// Every leaf of the tree carries a binary label.
pub open spec fn node_labels_wf(n: Node) -> bool
    decreases n,
{
    match n {
        Node::Leaf(l) => l <= 1,
        Node::Internal { feature_index, threshold, left, right } => {
            node_labels_wf(*left) && node_labels_wf(*right)
        },
    }
}

/// Every internal node indexes a feature below `flen`.
pub open spec fn node_bounds_wf(n: Node, flen: int) -> bool
    decreases n,
{
    match n {
        Node::Leaf(_) => true,
        Node::Internal { feature_index, threshold, left, right } => {
            &&& feature_index < flen
            &&& node_bounds_wf(*left, flen)
            &&& node_bounds_wf(*right, flen)
        },
    }
}

// ---------------------------------------------------------------------
// partition lemmas
// ---------------------------------------------------------------------

proof fn lemma_part_take_step(s: Seq<RecordView>, f: int, t: i64, j: int)
    requires
        0 <= j < s.len(),
    ensures
        s[j].features[f] <= t ==> left_part(s.take(j + 1), f, t) == left_part(s.take(j), f, t).push(
            s[j],
        ) && right_part(s.take(j + 1), f, t) == right_part(s.take(j), f, t),
        s[j].features[f] > t ==> right_part(s.take(j + 1), f, t) == right_part(
            s.take(j),
            f,
            t,
        ).push(s[j]) && left_part(s.take(j + 1), f, t) == left_part(s.take(j), f, t),
{
    assert(s.take(j + 1).drop_last() =~= s.take(j));
    assert(s.take(j + 1).last() == s[j]);
}

/// Every record of a partition is a record of the data.
proof fn lemma_part_members(s: Seq<RecordView>, f: int, t: i64)
    ensures
        forall|k: int|
            0 <= k < left_part(s, f, t).len() ==> exists|i: int|
                0 <= i < s.len() && #[trigger] left_part(s, f, t)[k] == s[i] && s[i].features[f]
                    <= t,
        forall|k: int|
            0 <= k < right_part(s, f, t).len() ==> exists|i: int|
                0 <= i < s.len() && #[trigger] right_part(s, f, t)[k] == s[i] && s[i].features[f]
                    > t,
        left_part(s, f, t).len() + right_part(s, f, t).len() == s.len(),
    decreases s.len(),
{
    if s.len() > 0 {
        lemma_part_members(s.drop_last(), f, t);
        let dl = s.drop_last();
        assert(forall|i: int| 0 <= i < dl.len() ==> dl[i] == s[i]);
        let lp = left_part(s, f, t);
        let rp = right_part(s, f, t);
        let lpd = left_part(dl, f, t);
        let rpd = right_part(dl, f, t);
        if s.last().features[f] <= t {
            assert(lp == lpd.push(s.last()));
            assert(rp == rpd);
        } else {
            assert(lp == lpd);
            assert(rp == rpd.push(s.last()));
        }
        assert forall|k: int| 0 <= k < lp.len() implies exists|i: int|
            0 <= i < s.len() && #[trigger] lp[k] == s[i] && s[i].features[f] <= t by {
            if s.last().features[f] <= t && k == lp.len() - 1 {
                assert(lp[k] == s[s.len() - 1]);
            } else {
                assert(lp[k] == lpd[k]);
                let i = choose|i: int|
                    0 <= i < dl.len() && lpd[k] == dl[i] && dl[i].features[f] <= t;
                assert(lp[k] == s[i]);
            }
        }
        assert forall|k: int| 0 <= k < rp.len() implies exists|i: int|
            0 <= i < s.len() && #[trigger] rp[k] == s[i] && s[i].features[f] > t by {
            if s.last().features[f] > t && k == rp.len() - 1 {
                assert(rp[k] == s[s.len() - 1]);
            } else {
                assert(rp[k] == rpd[k]);
                let i = choose|i: int|
                    0 <= i < dl.len() && rpd[k] == dl[i] && dl[i].features[f] > t;
                assert(rp[k] == s[i]);
            }
        }
    }
}

/// Both partitions of a well-formed dataset are well formed, and their
/// records keep the dataset's feature-vector length.
proof fn lemma_parts_wf(s: Seq<RecordView>, f: int, t: i64)
    requires
        wf_dataset(s),
        s.len() > 0,
    ensures
        wf_dataset(left_part(s, f, t)),
        wf_dataset(right_part(s, f, t)),
        left_part(s, f, t).len() + right_part(s, f, t).len() == s.len(),
        left_part(s, f, t).len() > 0 ==> left_part(s, f, t)[0].features.len()
            == s[0].features.len(),
        right_part(s, f, t).len() > 0 ==> right_part(s, f, t)[0].features.len()
            == s[0].features.len(),
    decreases s.len(),
{
    lemma_part_members(s, f, t);
    let lp = left_part(s, f, t);
    let rp = right_part(s, f, t);
    assert forall|k: int| 0 <= k < lp.len() implies record_wf(#[trigger] lp[k]) && lp[k].features.len()
        == s[0].features.len() by {
        let i = choose|i: int| 0 <= i < s.len() && lp[k] == s[i] && s[i].features[f] <= t;
        assert(record_wf(s[i]));
    }
    assert forall|k: int| 0 <= k < rp.len() implies record_wf(#[trigger] rp[k]) && rp[k].features.len()
        == s[0].features.len() by {
        let i = choose|i: int| 0 <= i < s.len() && rp[k] == s[i] && s[i].features[f] > t;
        assert(record_wf(s[i]));
    }
}

/// A record at or below the threshold puts something in the left part.
proof fn lemma_left_nonempty(s: Seq<RecordView>, f: int, t: i64, i: int)
    requires
        0 <= i < s.len(),
        s[i].features[f] <= t,
    ensures
        left_part(s, f, t).len() > 0,
    decreases s.len(),
{
    if s.len() > 0 {
        if i == s.len() - 1 {
        } else {
            assert(s.drop_last()[i] == s[i]);
            lemma_left_nonempty(s.drop_last(), f, t, i);
        }
    }
}

/// A record above the threshold puts something in the right part.
proof fn lemma_right_nonempty(s: Seq<RecordView>, f: int, t: i64, i: int)
    requires
        0 <= i < s.len(),
        s[i].features[f] > t,
    ensures
        right_part(s, f, t).len() > 0,
    decreases s.len(),
{
    if s.len() > 0 {
        if i == s.len() - 1 {
        } else {
            assert(s.drop_last()[i] == s[i]);
            lemma_right_nonempty(s.drop_last(), f, t, i);
        }
    }
}

/// With every value at or below the threshold, the right part is empty.
proof fn lemma_right_empty(s: Seq<RecordView>, f: int, t: i64)
    requires
        forall|i: int| 0 <= i < s.len() ==> (#[trigger] s[i]).features[f] <= t,
    ensures
        right_part(s, f, t).len() == 0,
    decreases s.len(),
{
    if s.len() > 0 {
        assert(forall|i: int| 0 <= i < s.drop_last().len() ==> (#[trigger] s.drop_last()[i]) == s[i]);
        lemma_right_empty(s.drop_last(), f, t);
    }
}

/// Thresholds that agree on every record produce the same partitions.
proof fn lemma_parts_equal(s: Seq<RecordView>, f: int, t1: i64, t2: i64)
    requires
        forall|i: int|
            0 <= i < s.len() ==> ((#[trigger] s[i]).features[f] <= t1 <==> s[i].features[f] <= t2),
    ensures
        left_part(s, f, t1) == left_part(s, f, t2),
        right_part(s, f, t1) == right_part(s, f, t2),
    decreases s.len(),
{
    if s.len() > 0 {
        assert(forall|i: int| 0 <= i < s.drop_last().len() ==> (#[trigger] s.drop_last()[i]) == s[i]);
        lemma_parts_equal(s.drop_last(), f, t1, t2);
        assert(s[s.len() - 1] == s.last());
    }
}

/// Strict transitivity across the cross-multiplied order: if `c` is no
/// better than `b` and `b` is strictly worse than `a`, then `c` is
/// strictly worse than `a`.
proof fn lemma_ratio_trans_strict(nc: int, dc: int, nb: int, db: int, na: int, da: int)
    by (nonlinear_arith)
    requires
        dc > 0,
        db > 0,
        da > 0,
        nc * db <= nb * dc,
        nb * da < na * db,
    ensures
        nc * da < na * dc,
{
}

/// Raising the threshold never grows the right part.
proof fn lemma_right_len_antitone(s: Seq<RecordView>, f: int, t1: i64, t2: i64)
    requires
        t1 <= t2,
    ensures
        right_part(s, f, t2).len() <= right_part(s, f, t1).len(),
    decreases s.len(),
{
    if s.len() > 0 {
        lemma_right_len_antitone(s.drop_last(), f, t1, t2);
    }
}

/// A midpoint sits inside its half-open interval of adjacent values.
proof fn lemma_mid_bounds(vals: Seq<i64>, idx: int)
    requires
        strictly_sorted(vals),
        0 <= idx < vals.len() - 1,
        -FEAT_LIMIT <= vals[idx],
        vals[idx + 1] <= FEAT_LIMIT,
    ensures
        vals[idx] <= mid_of(vals, idx) < vals[idx + 1],
{
    assert(vals[idx] < vals[idx + 1]);
    let gap = vals[idx + 1] - vals[idx];
    assert(0 <= gap / 2 < gap) by {
        vstd::arithmetic::div_mod::lemma_div_decreases(gap, 2);
        vstd::arithmetic::div_mod::lemma_div_pos_is_pos(gap, 2);
    }
}

/// A candidate's goodness denominator is positive.
proof fn lemma_den_pos(s: Seq<RecordView>, f: int, t: i64)
    requires
        left_part(s, f, t).len() > 0,
        right_part(s, f, t).len() > 0,
    ensures
        split_gain_den(s, f, t) > 0,
{
    assert(left_part(s, f, t).len() * (right_part(s, f, t).len() as int) > 0) by (nonlinear_arith)
        requires
            left_part(s, f, t).len() >= 1,
            right_part(s, f, t).len() >= 1,
    ;
}

// ---------------------------------------------------------------------
// exec helpers
// ---------------------------------------------------------------------

/// Partitions the data by `value <= threshold` at one feature, cloning
/// records exactly as the build needs them.
fn split_data(data: &Vec<ProcessedPatientRecord>, f: usize, t: i64) -> (parts: (
    Vec<ProcessedPatientRecord>,
    Vec<ProcessedPatientRecord>,
))
    requires
        wf_dataset(dataset_view(data@)),
        data@.len() > 0,
        f < dataset_view(data@)[0].features.len(),
    ensures
        dataset_view(parts.0@) == left_part(dataset_view(data@), f as int, t),
        dataset_view(parts.1@) == right_part(dataset_view(data@), f as int, t),
{
    let ghost ds = dataset_view(data@);
    let n = data.len();
    let mut left: Vec<ProcessedPatientRecord> = Vec::new();
    let mut right: Vec<ProcessedPatientRecord> = Vec::new();
    let mut j: usize = 0;
    proof {
        assert(ds.take(0) =~= Seq::<RecordView>::empty());
        assert(dataset_view(left@) =~= left_part(ds.take(0), f as int, t));
        assert(dataset_view(right@) =~= right_part(ds.take(0), f as int, t));
    }
    while j < n
        invariant
            j <= n,
            n == ds.len(),
            ds == dataset_view(data@),
            wf_dataset(ds),
            f < ds[0].features.len(),
            dataset_view(left@) == left_part(ds.take(j as int), f as int, t),
            dataset_view(right@) == right_part(ds.take(j as int), f as int, t),
        decreases n - j,
    {
        proof {
            assert(ds[j as int] == data@[j as int]@);
            assert(record_wf(ds[j as int]));
            assert(ds[j as int].features.len() == ds[0].features.len());
            lemma_part_take_step(ds, f as int, t, j as int);
        }
        if data[j].features[f] <= t {
            left.push(data[j].clone());
            proof {
                assert(dataset_view(left@) =~= left_part(ds.take(j + 1), f as int, t));
            }
        } else {
            right.push(data[j].clone());
            proof {
                assert(dataset_view(right@) =~= right_part(ds.take(j + 1), f as int, t));
            }
        }
        j = j + 1;
    }
    proof {
        assert(ds.take(n as int) =~= ds);
    }
    (left, right)
}

/// The midpoint threshold between two adjacent distinct sorted values.
pub open spec fn mid_of(vs: Seq<i64>, idx: int) -> i64 {
    (vs[idx] + (vs[idx + 1] - vs[idx]) / 2) as i64
}

/// Strictly ascending order.
pub open spec fn strictly_sorted(vs: Seq<i64>) -> bool {
    forall|a: int, b: int| 0 <= a < b < vs.len() ==> vs[a] < vs[b]
}

/// Collects the distinct values of feature `f`, sorted ascending.
fn distinct_sorted_values(data: &Vec<ProcessedPatientRecord>, f: usize) -> (vals: Vec<i64>)
    requires
        wf_dataset(dataset_view(data@)),
        data@.len() > 0,
        f < dataset_view(data@)[0].features.len(),
    ensures
        strictly_sorted(vals@),
        vals@.len() >= 1,
        forall|k: int|
            0 <= k < vals@.len() ==> exists|i: int|
                0 <= i < dataset_view(data@).len() && #[trigger] vals@[k] == dataset_view(
                    data@,
                )[i].features[f as int],
        forall|i: int|
            0 <= i < dataset_view(data@).len() ==> vals@.contains(
                (#[trigger] dataset_view(data@)[i]).features[f as int],
            ),
{
    let ghost ds = dataset_view(data@);
    let n = data.len();
    let mut vals: Vec<i64> = Vec::new();
    let mut j: usize = 0;
    while j < n
        invariant
            j <= n,
            n == ds.len(),
            ds == dataset_view(data@),
            wf_dataset(ds),
            f < ds[0].features.len(),
            strictly_sorted(vals@),
            forall|k: int|
                0 <= k < vals@.len() ==> exists|i: int|
                    0 <= i < ds.len() && #[trigger] vals@[k] == ds[i].features[f as int],
            forall|i: int|
                0 <= i < j ==> vals@.contains((#[trigger] ds[i]).features[f as int]),
        decreases n - j,
    {
        proof {
            assert(ds[j as int] == data@[j as int]@);
            assert(record_wf(ds[j as int]));
            assert(ds[j as int].features.len() == ds[0].features.len());
        }
        let v = data[j].features[f];
        let m = vals.len();
        let mut pos: usize = 0;
        while pos < m && vals[pos] < v
            invariant
                pos <= m,
                m == vals@.len(),
                forall|k: int| 0 <= k < pos ==> vals@[k] < v,
            decreases m - pos,
        {
            pos = pos + 1;
        }
        if pos == m || vals[pos] != v {
            let ghost old_vals = vals@;
            proof {
                if pos < m {
                    assert(vals@[pos as int] > v || vals@[pos as int] == v);
                    assert(vals@[pos as int] > v);
                }
            }
            vals.insert(pos, v);
            proof {
                assert(vals@ =~= old_vals.take(pos as int) + seq![v] + old_vals.skip(pos as int));
                assert forall|a: int, b: int| 0 <= a < b < vals@.len() implies vals@[a]
                    < vals@[b] by {
                    if a < pos && b == pos {
                        assert(vals@[a] == old_vals[a]);
                    } else if a == pos && b > pos {
                        assert(vals@[b] == old_vals[b - 1]);
                        assert(old_vals[b - 1] >= old_vals[pos as int]);
                    } else if a < pos && b > pos {
                        assert(vals@[a] == old_vals[a] && vals@[b] == old_vals[b - 1]);
                    } else if a > pos && b > pos {
                        assert(vals@[a] == old_vals[a - 1] && vals@[b] == old_vals[b - 1]);
                    } else if a < pos && b < pos {
                        assert(vals@[a] == old_vals[a] && vals@[b] == old_vals[b]);
                    }
                }
                assert forall|k: int| 0 <= k < vals@.len() implies exists|i: int|
                    0 <= i < ds.len() && #[trigger] vals@[k] == ds[i].features[f as int] by {
                    if k < pos {
                        assert(vals@[k] == old_vals[k]);
                    } else if k == pos {
                        assert(vals@[k] == ds[j as int].features[f as int]);
                    } else {
                        assert(vals@[k] == old_vals[k - 1]);
                    }
                }
                assert(vals@[pos as int] == v);
                assert forall|i: int| 0 <= i < j + 1 implies vals@.contains(
                    (#[trigger] ds[i]).features[f as int],
                ) by {
                    if i < j {
                        let k = choose|k: int|
                            0 <= k < old_vals.len() && old_vals[k] == ds[i].features[f as int];
                        if k < pos {
                            assert(vals@[k] == old_vals[k]);
                        } else {
                            assert(vals@[k + 1] == old_vals[k]);
                        }
                    } else {
                        assert(vals@[pos as int] == ds[i].features[f as int]);
                    }
                }
            }
        } else {
            proof {
                assert(vals@[pos as int] == v);
                assert forall|i: int| 0 <= i < j + 1 implies vals@.contains(
                    (#[trigger] ds[i]).features[f as int],
                ) by {
                    if i == j {
                        assert(vals@[pos as int] == ds[i].features[f as int]);
                    }
                }
            }
        }
        j = j + 1;
    }
    proof {
        assert(vals@.contains(ds[0].features[f as int]));
    }
    vals
}

/// Computes the goodness numerator and denominator of one candidate split
/// from the label counts of its two parts.
fn split_gain(
    left: &Vec<ProcessedPatientRecord>,
    right: &Vec<ProcessedPatientRecord>,
    Ghost(s): Ghost<Seq<RecordView>>,
    Ghost(f): Ghost<int>,
    Ghost(t): Ghost<i64>,
) -> (gain: (u128, u128))
    requires
        dataset_view(left@) == left_part(s, f, t),
        dataset_view(right@) == right_part(s, f, t),
        wf_dataset(left_part(s, f, t)),
        wf_dataset(right_part(s, f, t)),
        left_part(s, f, t).len() > 0,
        right_part(s, f, t).len() > 0,
    ensures
        gain.0 == split_gain_num(s, f, t),
        gain.1 == split_gain_den(s, f, t),
        gain.1 > 0,
{
    let ghost lp = left_part(s, f, t);
    let ghost rp = right_part(s, f, t);
    let (a0, a1) = crate::record::count_labels_exec(left);
    let (b0, b1) = crate::record::count_labels_exec(right);
    let ll = left.len();
    let rl = right.len();
    proof {
        crate::record::lemma_count_label_le_len(lp, 0);
        crate::record::lemma_count_label_le_len(lp, 1);
        crate::record::lemma_count_label_le_len(rp, 0);
        crate::record::lemma_count_label_le_len(rp, 1);
        assert(0 <= (a0 as int) * (a0 as int) <= (N_LIMIT as int) * (N_LIMIT as int) && 0 <= (
        a1 as int) * (a1 as int) <= (N_LIMIT as int) * (N_LIMIT as int) && 0 <= (b0 as int) * (
        b0 as int) <= (N_LIMIT as int) * (N_LIMIT as int) && 0 <= (b1 as int) * (b1 as int) <= (
        N_LIMIT as int) * (N_LIMIT as int)) by (nonlinear_arith)
            requires
                0 <= a0 <= N_LIMIT,
                0 <= a1 <= N_LIMIT,
                0 <= b0 <= N_LIMIT,
                0 <= b1 <= N_LIMIT,
        ;
        assert(0 <= (2 * (N_LIMIT as int) * (N_LIMIT as int)) * (rl as int) <= 2 * (N_LIMIT as int)
            * (N_LIMIT as int) * (N_LIMIT as int) && 0 <= (2 * (N_LIMIT as int) * (
        N_LIMIT as int)) * (ll as int) <= 2 * (N_LIMIT as int) * (N_LIMIT as int) * (
        N_LIMIT as int)) by (nonlinear_arith)
            requires
                0 <= rl <= N_LIMIT,
                0 <= ll <= N_LIMIT,
        ;
        assert(((a0 as int) * (a0 as int) + (a1 as int) * (a1 as int)) * (rl as int) <= (2 * (
        N_LIMIT as int) * (N_LIMIT as int)) * (rl as int) && 0 <= ((a0 as int) * (a0 as int) + (
        a1 as int) * (a1 as int)) * (rl as int)) by (nonlinear_arith)
            requires
                0 <= (a0 as int) * (a0 as int) <= (N_LIMIT as int) * (N_LIMIT as int),
                0 <= (a1 as int) * (a1 as int) <= (N_LIMIT as int) * (N_LIMIT as int),
                0 <= rl,
        ;
        assert(((b0 as int) * (b0 as int) + (b1 as int) * (b1 as int)) * (ll as int) <= (2 * (
        N_LIMIT as int) * (N_LIMIT as int)) * (ll as int) && 0 <= ((b0 as int) * (b0 as int) + (
        b1 as int) * (b1 as int)) * (ll as int)) by (nonlinear_arith)
            requires
                0 <= (b0 as int) * (b0 as int) <= (N_LIMIT as int) * (N_LIMIT as int),
                0 <= (b1 as int) * (b1 as int) <= (N_LIMIT as int) * (N_LIMIT as int),
                0 <= ll,
        ;
        assert(0 < (ll as int) * (rl as int) <= (N_LIMIT as int) * (N_LIMIT as int))
            by (nonlinear_arith)
            requires
                0 < ll <= N_LIMIT,
                0 < rl <= N_LIMIT,
        ;
    }
    let num: u128 = ((a0 as u128) * (a0 as u128) + (a1 as u128) * (a1 as u128)) * (rl as u128) + ((
    b0 as u128) * (b0 as u128) + (b1 as u128) * (b1 as u128)) * (ll as u128);
    let den: u128 = (ll as u128) * (rl as u128);
    (num, den)
}

/// An upper bound on the goodness numbers, for overflow-free comparison.
proof fn lemma_gain_bounds(s: Seq<RecordView>, f: int, t: i64)
    requires
        wf_dataset(s),
        s.len() > 0,
    ensures
        0 <= split_gain_num(s, f, t) <= 4 * (N_LIMIT as int) * (N_LIMIT as int) * (N_LIMIT as int),
        0 <= split_gain_den(s, f, t) <= (N_LIMIT as int) * (N_LIMIT as int),
{
    let lp = left_part(s, f, t);
    let rp = right_part(s, f, t);
    lemma_part_members(s, f, t);
    crate::record::lemma_count_label_le_len(lp, 0);
    crate::record::lemma_count_label_le_len(lp, 1);
    crate::record::lemma_count_label_le_len(rp, 0);
    crate::record::lemma_count_label_le_len(rp, 1);
    let a0 = count_label(lp, 0) as int;
    let a1 = count_label(lp, 1) as int;
    let b0 = count_label(rp, 0) as int;
    let b1 = count_label(rp, 1) as int;
    let nn = N_LIMIT as int;
    assert(0 <= a0 * a0 <= nn * nn && 0 <= a1 * a1 <= nn * nn && 0 <= b0 * b0 <= nn * nn && 0 <= b1
        * b1 <= nn * nn) by (nonlinear_arith)
        requires
            0 <= a0 <= nn,
            0 <= a1 <= nn,
            0 <= b0 <= nn,
            0 <= b1 <= nn,
    ;
    assert(0 <= (a0 * a0 + a1 * a1) * rp.len() <= (2 * nn * nn) * nn) by (nonlinear_arith)
        requires
            0 <= a0 * a0 <= nn * nn,
            0 <= a1 * a1 <= nn * nn,
            0 <= rp.len() <= nn,
    ;
    assert(0 <= (b0 * b0 + b1 * b1) * lp.len() <= (2 * nn * nn) * nn) by (nonlinear_arith)
        requires
            0 <= b0 * b0 <= nn * nn,
            0 <= b1 * b1 <= nn * nn,
            0 <= lp.len() <= nn,
    ;
    assert((2 * nn * nn) * nn + (2 * nn * nn) * nn <= 4 * nn * nn * nn) by (nonlinear_arith);
    assert(0 <= lp.len() * rp.len() <= nn * nn) by (nonlinear_arith)
        requires
            0 <= lp.len() <= nn,
            0 <= rp.len() <= nn,
    ;
}

/// Every record-value threshold of a feature with a non-empty right part
/// induces the same partition as one of the midpoints of the sorted
/// distinct values: the one whose left endpoint is that value.
proof fn lemma_value_maps_to_mid(s: Seq<RecordView>, f: int, vals: Seq<i64>, j: int)
    requires
        wf_dataset(s),
        s.len() > 0,
        0 <= f < s[0].features.len(),
        strictly_sorted(vals),
        forall|k: int|
            0 <= k < vals.len() ==> exists|i: int|
                0 <= i < s.len() && #[trigger] vals[k] == s[i].features[f],
        forall|i: int| 0 <= i < s.len() ==> vals.contains((#[trigger] s[i]).features[f]),
        0 <= j < s.len(),
        right_part(s, f, s[j].features[f]).len() > 0,
    ensures
        exists|idx: int|
            0 <= idx < vals.len() - 1 && vals[idx] == s[j].features[f] && left_part(
                s,
                f,
                mid_of(vals, idx),
            ) == left_part(s, f, s[j].features[f]) && right_part(s, f, mid_of(vals, idx))
                == right_part(s, f, s[j].features[f]),
{
    let v = s[j].features[f];
    assert(vals.contains(v));
    let idx = choose|idx: int| 0 <= idx < vals.len() && vals[idx] == v;
    // v cannot be the largest distinct value: the right part at v is
    // non-empty, so some record value exceeds v.
    if idx == vals.len() - 1 {
        assert forall|i: int| 0 <= i < s.len() implies (#[trigger] s[i]).features[f] <= v by {
            assert(vals.contains(s[i].features[f]));
            let k = choose|k: int| 0 <= k < vals.len() && vals[k] == s[i].features[f];
            if k < idx {
                assert(vals[k] < vals[idx]);
            }
        }
        lemma_right_empty(s, f, v);
        assert(false);
    }
    let m = mid_of(vals, idx);
    // vals[idx] <= m < vals[idx + 1]
    assert(vals[idx] < vals[idx + 1]);
    let gap = vals[idx + 1] - vals[idx];
    assert(gap >= 1);
    assert(0 <= gap / 2 < gap) by {
        vstd::arithmetic::div_mod::lemma_div_decreases(gap, 2);
        vstd::arithmetic::div_mod::lemma_div_pos_is_pos(gap, 2);
    }
    assert(vals[idx] <= m < vals[idx + 1]);
    // every record value relates to v and m the same way
    assert forall|i: int| 0 <= i < s.len() implies ((#[trigger] s[i]).features[f] <= v
        <==> s[i].features[f] <= m) by {
        let u = s[i].features[f];
        assert(vals.contains(u));
        let k = choose|k: int| 0 <= k < vals.len() && vals[k] == u;
        if u > v {
            assert(k > idx) by {
                if k < idx {
                    assert(vals[k] < vals[idx]);
                }
            }
            assert(k >= idx + 1);
            assert(u >= vals[idx + 1]) by {
                if k > idx + 1 {
                    assert(vals[idx + 1] < vals[k]);
                }
            }
        }
    }
    lemma_parts_equal(s, f, v, m);
}

/// Searches every feature's candidate thresholds (midpoints of adjacent
/// distinct values) for the split with the lowest weighted Gini impurity;
/// the first-found candidate wins exact ties.
fn find_best_split(data: &Vec<ProcessedPatientRecord>) -> (r: Option<(usize, i64)>)
    requires
        wf_dataset(dataset_view(data@)),
        data@.len() > 0,
    ensures
        ({
            let ds = dataset_view(data@);
            match r {
                None => !splittable(ds),
                Some((f, t)) => best_split(ds, f as int, t) && splittable(ds),
            }
        }),
{
    let ghost ds = dataset_view(data@);
    let n = data.len();
    let fcount = data[0].features.len();
    proof {
        assert(ds[0] == data@[0]@);
    }
    let mut have: bool = false;
    let mut bf: usize = 0;
    let mut bt: i64 = 0;
    let mut bnum: u128 = 0;
    let mut bden: u128 = 1;
    let mut f: usize = 0;
    while f < fcount
        invariant
            f <= fcount,
            n == ds.len(),
            n > 0,
            ds == dataset_view(data@),
            wf_dataset(ds),
            fcount == ds[0].features.len(),
            !have ==> bnum == 0 && bden == 1,
            !have ==> forall|f2: int, j: int|
                0 <= f2 < f && 0 <= j < n ==> #[trigger] right_part(
                    ds,
                    f2,
                    ds[j].features[f2],
                ).len() == 0,
            have ==> candidate(ds, bf as int, bt) && splittable(ds) && bnum == split_gain_num(
                ds,
                bf as int,
                bt,
            ) && bden == split_gain_den(ds, bf as int, bt) && bden > 0,
            have ==> forall|f2: int, j: int|
                0 <= f2 < f && 0 <= j < n && #[trigger] right_part(
                    ds,
                    f2,
                    ds[j].features[f2],
                ).len() > 0 ==> split_le(ds, bf as int, bt, f2, ds[j].features[f2]),
            have ==> (bf as int) < f,
            have ==> forall|f2: int, j: int|
                0 <= f2 < f && 0 <= j < n && #[trigger] right_part(
                    ds,
                    f2,
                    ds[j].features[f2],
                ).len() > 0 && earlier_candidate(ds, f2, ds[j].features[f2], bf as int, bt)
                    ==> split_lt(ds, bf as int, bt, f2, ds[j].features[f2]),
        decreases fcount - f,
    {
        let vals = distinct_sorted_values(data, f);
        let ghost gvals = vals@;
        let m = vals.len();
        let mut i: usize = 0;
        let ghost had_before = have;
        while i + 1 < m
            invariant
                i + 1 <= m || i == 0,
                m == gvals.len(),
                vals@ == gvals,
                n == ds.len(),
                n > 0,
                ds == dataset_view(data@),
                wf_dataset(ds),
                f < fcount,
                fcount == ds[0].features.len(),
                strictly_sorted(gvals),
                forall|k: int|
                    0 <= k < gvals.len() ==> exists|q: int|
                        0 <= q < ds.len() && #[trigger] gvals[k] == ds[q].features[f as int],
                forall|q: int|
                    0 <= q < ds.len() ==> gvals.contains((#[trigger] ds[q]).features[f as int]),
                !have ==> i == 0 && !had_before,
                !have ==> bnum == 0 && bden == 1,
                !have ==> forall|f2: int, j: int|
                    0 <= f2 < f && 0 <= j < n ==> #[trigger] right_part(
                        ds,
                        f2,
                        ds[j].features[f2],
                    ).len() == 0,
                have ==> candidate(ds, bf as int, bt) && splittable(ds) && bnum == split_gain_num(
                    ds,
                    bf as int,
                    bt,
                ) && bden == split_gain_den(ds, bf as int, bt) && bden > 0,
                have ==> forall|f2: int, j: int|
                    0 <= f2 < f && 0 <= j < n && #[trigger] right_part(
                        ds,
                        f2,
                        ds[j].features[f2],
                    ).len() > 0 ==> split_le(ds, bf as int, bt, f2, ds[j].features[f2]),
                have ==> forall|f2: int, j: int|
                    0 <= f2 < f && 0 <= j < n && #[trigger] right_part(
                        ds,
                        f2,
                        ds[j].features[f2],
                    ).len() > 0 && earlier_candidate(ds, f2, ds[j].features[f2], bf as int, bt)
                        ==> split_lt(ds, bf as int, bt, f2, ds[j].features[f2]),
                have ==> (bf as int) <= f as int,
                have && (bf as int) == f as int ==> exists|b: int|
                    0 <= b < i && bt == #[trigger] mid_of(gvals, b),
                have ==> forall|idx: int|
                    0 <= idx < i ==> split_le(ds, bf as int, bt, f as int, mid_of(gvals, idx))
                        && split_gain_den(ds, f as int, #[trigger] mid_of(gvals, idx)) > 0,
                have ==> forall|idx: int|
                    0 <= idx < i && earlier_candidate(
                        ds,
                        f as int,
                        #[trigger] mid_of(gvals, idx),
                        bf as int,
                        bt,
                    ) ==> split_lt(ds, bf as int, bt, f as int, mid_of(gvals, idx)),
            decreases m - i,
        {
            let v1 = vals[i];
            let v2 = vals[i + 1];
            proof {
                assert(gvals[i as int] < gvals[i + 1]);
                assert(record_wf(ds[0]));
                // values are bounded feature values, so the midpoint
                // arithmetic stays in range
                let q1 = choose|q: int|
                    0 <= q < ds.len() && gvals[i as int] == ds[q].features[f as int];
                assert(record_wf(ds[q1]));
                let q2 = choose|q: int|
                    0 <= q < ds.len() && gvals[i + 1] == ds[q].features[f as int];
                assert(record_wf(ds[q2]));
                assert(0 < v2 - v1);
                vstd::arithmetic::div_mod::lemma_div_decreases((v2 - v1) as int, 2);
                vstd::arithmetic::div_mod::lemma_div_pos_is_pos((v2 - v1) as int, 2);
            }
            let t = v1 + (v2 - v1) / 2;
            proof {
                assert(t == mid_of(gvals, i as int));
                assert(v1 <= t < v2);
                let q1 = choose|q: int|
                    0 <= q < ds.len() && gvals[i as int] == ds[q].features[f as int];
                lemma_left_nonempty(ds, f as int, t, q1);
                let q2 = choose|q: int|
                    0 <= q < ds.len() && gvals[i + 1] == ds[q].features[f as int];
                lemma_right_nonempty(ds, f as int, t, q2);
                lemma_parts_wf(ds, f as int, t);
                lemma_right_nonempty(ds, f as int, gvals[i as int], q2);
            }
            let (lv, rv) = split_data(data, f, t);
            let (num, den) = split_gain(&lv, &rv, Ghost(ds), Ghost(f as int), Ghost(t));
            let ghost old_bf = bf;
            let ghost old_bt = bt;
            let ghost old_have = have;
            proof {
                lemma_gain_bounds(ds, f as int, t);
                if have {
                    lemma_gain_bounds(ds, bf as int, bt);
                }
                assert(num * bden <= u128::MAX && bnum * den <= u128::MAX) by (nonlinear_arith)
                    requires
                        0 <= num <= 4 * (N_LIMIT as int) * (N_LIMIT as int) * (N_LIMIT as int),
                        0 <= bnum <= 4 * (N_LIMIT as int) * (N_LIMIT as int) * (N_LIMIT as int),
                        0 <= den <= (N_LIMIT as int) * (N_LIMIT as int),
                        0 <= bden <= (N_LIMIT as int) * (N_LIMIT as int),
                ;
            }
            if !have || num * bden > bnum * den {
                proof {
                    if old_have {
                        // the new best strictly dominates everything the
                        // old best dominated
                        assert forall|f2: int, j: int|
                            0 <= f2 < f && 0 <= j < n && #[trigger] right_part(
                                ds,
                                f2,
                                ds[j].features[f2],
                            ).len() > 0 implies split_lt(ds, f as int, t, f2, ds[j].features[f2]) by {
                            lemma_left_nonempty(ds, f2, ds[j].features[f2], j);
                            lemma_den_pos(ds, f2, ds[j].features[f2]);
                            lemma_ratio_trans_strict(
                                split_gain_num(ds, f2, ds[j].features[f2]),
                                split_gain_den(ds, f2, ds[j].features[f2]),
                                split_gain_num(ds, old_bf as int, old_bt),
                                split_gain_den(ds, old_bf as int, old_bt),
                                split_gain_num(ds, f as int, t),
                                split_gain_den(ds, f as int, t),
                            );
                        }
                        assert forall|idx: int| 0 <= idx < i implies split_lt(
                            ds,
                            f as int,
                            t,
                            f as int,
                            mid_of(gvals, idx),
                        ) by {
                            lemma_ratio_trans_strict(
                                split_gain_num(ds, f as int, mid_of(gvals, idx)),
                                split_gain_den(ds, f as int, mid_of(gvals, idx)),
                                split_gain_num(ds, old_bf as int, old_bt),
                                split_gain_den(ds, old_bf as int, old_bt),
                                split_gain_num(ds, f as int, t),
                                split_gain_den(ds, f as int, t),
                            );
                        }
                    }
                    // splittable witness: some record sits above the
                    // threshold vals[i]
                    let q1 = choose|q: int|
                        0 <= q < ds.len() && gvals[i as int] == ds[q].features[f as int];
                    assert(right_part(ds, f as int, ds[q1].features[f as int]).len() > 0);
                    assert(splittable(ds));
                }
                have = true;
                bf = f;
                bt = t;
                bnum = num;
                bden = den;
                proof {
                    assert(0 <= (i as int) && (i as int) < i + 1 && bt == mid_of(gvals, i as int));
                }
            } else {
                proof {
                    // the kept best was met no later than this midpoint, so
                    // this midpoint is not an earlier candidate
                    if (bf as int) == f as int {
                        let b = choose|b: int| 0 <= b < i && bt == mid_of(gvals, b);
                        let qb = choose|q: int|
                            0 <= q < ds.len() && gvals[b] == ds[q].features[f as int];
                        assert(record_wf(ds[qb]));
                        let qb1 = choose|q: int|
                            0 <= q < ds.len() && gvals[b + 1] == ds[q].features[f as int];
                        assert(record_wf(ds[qb1]));
                        lemma_mid_bounds(gvals, b);
                        assert(gvals[b + 1] <= gvals[i as int]);
                        assert(bt <= t);
                        lemma_right_len_antitone(ds, f as int, bt, t);
                        assert(!earlier_candidate(ds, f as int, t, bf as int, bt));
                    } else {
                        assert(!earlier_candidate(ds, f as int, t, bf as int, bt));
                    }
                }
            }
            proof {
                assert(t == mid_of(gvals, i as int));
                assert(split_gain_den(ds, f as int, mid_of(gvals, i as int)) > 0);
                assert(split_le(ds, bf as int, bt, f as int, mid_of(gvals, i as int)));
                assert(earlier_candidate(ds, f as int, mid_of(gvals, i as int), bf as int, bt)
                    ==> split_lt(ds, bf as int, bt, f as int, mid_of(gvals, i as int)));
            }
            i = i + 1;
        }
        // Every record-value threshold of this feature is now covered.
        proof {
            if m == 1 {
                // a single distinct value: no threshold splits this feature
                assert forall|j: int| 0 <= j < n implies #[trigger] right_part(
                    ds,
                    f as int,
                    ds[j].features[f as int],
                ).len() == 0 by {
                    assert(gvals.contains(ds[j].features[f as int]));
                    assert(ds[j].features[f as int] == gvals[0]);
                    assert forall|q: int| 0 <= q < ds.len() implies (#[trigger] ds[q]).features[f as int]
                        <= gvals[0] by {
                        assert(gvals.contains(ds[q].features[f as int]));
                    }
                    lemma_right_empty(ds, f as int, ds[j].features[f as int]);
                }
            } else {
                assert(have);
                assert forall|j: int|
                    0 <= j < n && #[trigger] right_part(
                        ds,
                        f as int,
                        ds[j].features[f as int],
                    ).len() > 0 implies split_le(
                    ds,
                    bf as int,
                    bt,
                    f as int,
                    ds[j].features[f as int],
                ) && (earlier_candidate(ds, f as int, ds[j].features[f as int], bf as int, bt)
                    ==> split_lt(ds, bf as int, bt, f as int, ds[j].features[f as int])) by {
                    lemma_value_maps_to_mid(ds, f as int, gvals, j);
                    let v = ds[j].features[f as int];
                    let idx = choose|idx: int|
                        0 <= idx < gvals.len() - 1 && gvals[idx] == v && left_part(
                            ds,
                            f as int,
                            mid_of(gvals, idx),
                        ) == left_part(ds, f as int, v) && right_part(ds, f as int, mid_of(
                            gvals,
                            idx,
                        )) == right_part(ds, f as int, v);
                    assert(split_gain_num(ds, f as int, mid_of(gvals, idx)) == split_gain_num(
                        ds,
                        f as int,
                        v,
                    ));
                    assert(split_gain_den(ds, f as int, mid_of(gvals, idx)) == split_gain_den(
                        ds,
                        f as int,
                        v,
                    ));
                    assert(split_le(ds, bf as int, bt, f as int, mid_of(gvals, idx)));
                    if earlier_candidate(ds, f as int, v, bf as int, bt) {
                        assert(earlier_candidate(ds, f as int, mid_of(gvals, idx), bf as int, bt));
                        assert(split_lt(ds, bf as int, bt, f as int, mid_of(gvals, idx)));
                    }
                }
            }
        }
        f = f + 1;
    }
    if have {
        proof {
            assert(best_split(ds, bf as int, bt));
        }
        Some((bf, bt))
    } else {
        proof {
            assert(!splittable(ds)) by {
                if splittable(ds) {
                    let (f2, j) = choose|f2: int, j: int|
                        0 <= f2 < ds[0].features.len() && 0 <= j < ds.len() && right_part(
                            ds,
                            f2,
                            ds[j].features[f2],
                        ).len() > 0;
                    assert(right_part(ds, f2, ds[j].features[f2]).len() == 0);
                }
            }
        }
        None
    }
}

/// Checks whether every record carries the first record's label.
fn all_same_exec(data: &Vec<ProcessedPatientRecord>) -> (b: bool)
    requires
        data@.len() > 0,
    ensures
        b == all_same_label(dataset_view(data@)),
{
    let ghost ds = dataset_view(data@);
    let n = data.len();
    let first = data[0].target;
    proof {
        assert(ds[0] == data@[0]@);
    }
    let mut j: usize = 0;
    while j < n
        invariant
            j <= n,
            n == ds.len(),
            ds == dataset_view(data@),
            first == ds[0].target,
            forall|i: int| 0 <= i < j ==> (#[trigger] ds[i]).target == first,
        decreases n - j,
    {
        proof {
            assert(ds[j as int] == data@[j as int]@);
        }
        if data[j].target != first {
            return false;
        }
        j = j + 1;
    }
    true
}

/// The majority label of the data: 1 when the 1-labeled records strictly
/// outnumber the 0-labeled ones, 0 otherwise.
fn most_common_class(data: &Vec<ProcessedPatientRecord>) -> (l: u8)
    requires
        forall|i: int|
            0 <= i < data@.len() ==> (#[trigger] dataset_view(data@)[i]).target <= 1,
    ensures
        l == majority_spec(dataset_view(data@)),
{
    let (c0, c1) = crate::record::count_labels_exec(data);
    if c1 > c0 {
        1
    } else {
        0
    }
}

/// The tree classifier: an optional root plus the stopping hyperparameters.
pub struct DecisionTree {
    root: Option<Node>,
    max_depth: usize,
    min_samples_split: usize,
}

impl DecisionTree {
    /// The built tree, absent until trained.
    pub closed spec fn root_view(&self) -> Option<Node> {
        self.root
    }

    /// The maximum build depth.
    pub closed spec fn depth_limit(&self) -> usize {
        self.max_depth
    }

    /// The minimum number of records an internal node may still split.
    pub closed spec fn min_split(&self) -> usize {
        self.min_samples_split
    }

    /// A fresh, untrained tree with the given stopping hyperparameters.
    pub fn new(max_depth: usize, min_samples_split: usize) -> (r: DecisionTree)
        ensures
            r.wf(),
            !r.trained(),
            r.depth_limit() == max_depth,
            r.min_split() == min_samples_split,
    {
        DecisionTree { root: None, max_depth, min_samples_split }
    }

    /// Recursively grows the tree: stop on empty, pure, deep or small data,
    /// otherwise split at the best candidate and recurse on both parts.
    fn build_tree(data: &Vec<ProcessedPatientRecord>, depth: usize, md: usize, ms: usize) -> (node:
        Node)
        requires
            wf_dataset(dataset_view(data@)),
        ensures
            tree_fits(node, dataset_view(data@), depth as int, md as int, ms as int),
        decreases md - depth,
    {
        let ghost ds = dataset_view(data@);
        let n = data.len();
        if n == 0 {
            return Node::Leaf(0);
        }
        proof {
            assert(ds[0] == data@[0]@);
            assert(forall|i: int| 0 <= i < ds.len() ==> (#[trigger] ds[i]).target <= 1);
        }
        if all_same_exec(data) {
            return Node::Leaf(data[0].target);
        }
        if depth >= md || n < ms {
            return Node::Leaf(most_common_class(data));
        }
        match find_best_split(data) {
            Some((f, t)) => {
                proof {
                    lemma_parts_wf(ds, f as int, t);
                }
                let (left_data, right_data) = split_data(data, f, t);
                let left_node = Box::new(Self::build_tree(&left_data, depth + 1, md, ms));
                let right_node = Box::new(Self::build_tree(&right_data, depth + 1, md, ms));
                Node::Internal { feature_index: f, threshold: t, left: left_node, right: right_node }
            },
            None => Node::Leaf(most_common_class(data)),
        }
    }

    /// Follows the tree from `node` down to a leaf.
    fn predict_from_node(node: &Node, features: &Vec<i64>) -> (l: u8)
        requires
            node_bounds_wf(*node, features@.len() as int),
            node_labels_wf(*node),
        ensures
            l == descend(*node, features@),
            l <= 1,
        decreases *node,
    {
        match node {
            Node::Leaf(class) => *class,
            Node::Internal { feature_index, threshold, left, right } => {
                if features[*feature_index] <= *threshold {
                    Self::predict_from_node(left, features)
                } else {
                    Self::predict_from_node(right, features)
                }
            },
        }
    }

    fn check_node_bounds(node: &Node, flen: usize) -> (b: bool)
        ensures
            b == node_bounds_wf(*node, flen as int),
        decreases *node,
    {
        match node {
            Node::Leaf(_) => true,
            Node::Internal { feature_index, threshold, left, right } => {
                *feature_index < flen && Self::check_node_bounds(left, flen)
                    && Self::check_node_bounds(right, flen)
            },
        }
    }
}

/// A tree that fits well-formed data has binary leaf labels and indexes
/// only features the data has.
pub proof fn lemma_tree_fits_wf(n: Node, s: Seq<RecordView>, depth: int, md: int, ms: int)
    requires
        tree_fits(n, s, depth, md, ms),
        wf_dataset(s),
    ensures
        node_labels_wf(n),
        s.len() > 0 ==> node_bounds_wf(n, s[0].features.len() as int),
    decreases n,
{
    if s.len() == 0 {
    } else if all_same_label(s) {
        assert(record_wf(s[0]));
    } else if depth >= md || s.len() < ms {
    } else if !splittable(s) {
    } else {
        match n {
            Node::Leaf(_) => {
            },
            Node::Internal { feature_index, threshold, left, right } => {
                lemma_parts_wf(s, feature_index as int, threshold);
                let lp = left_part(s, feature_index as int, threshold);
                let rp = right_part(s, feature_index as int, threshold);
                lemma_tree_fits_wf(*left, lp, depth + 1, md, ms);
                lemma_tree_fits_wf(*right, rp, depth + 1, md, ms);
                lemma_bounds_any_len(*left, lp[0].features.len() as int, s[0].features.len() as int);
                lemma_bounds_any_len(
                    *right,
                    rp[0].features.len() as int,
                    s[0].features.len() as int,
                );
            },
        }
    }
}

/// Feature-index bounds transfer to any equal or larger length.
proof fn lemma_bounds_any_len(n: Node, flen1: int, flen2: int)
    requires
        node_bounds_wf(n, flen1),
        flen1 <= flen2,
    ensures
        node_bounds_wf(n, flen2),
    decreases n,
{
    match n {
        Node::Leaf(_) => {
        },
        Node::Internal { feature_index, threshold, left, right } => {
            lemma_bounds_any_len(*left, flen1, flen2);
            lemma_bounds_any_len(*right, flen1, flen2);
        },
    }
}

/// Leaf labels bound every descent.
proof fn lemma_descend_bounded(n: Node, feats: Seq<i64>)
    requires
        node_labels_wf(n),
    ensures
        descend(n, feats) <= 1,
    decreases n,
{
    match n {
        Node::Leaf(_) => {
        },
        Node::Internal { feature_index, threshold, left, right } => {
            lemma_descend_bounded(*left, feats);
            lemma_descend_bounded(*right, feats);
        },
    }
}

impl Model for DecisionTree {
    open spec fn wf(&self) -> bool {
        match self.root_view() {
            None => true,
            Some(n) => node_labels_wf(n),
        }
    }

    open spec fn trained(&self) -> bool {
        self.root_view() is Some
    }

    open spec fn accepts(&self, r: RecordView) -> bool {
        &&& record_wf(r)
        &&& match self.root_view() {
            None => true,
            Some(n) => node_bounds_wf(n, r.features.len() as int),
        }
    }

    open spec fn predict_spec(&self, r: RecordView) -> u8 {
        match self.root_view() {
            None => 0,
            Some(n) => descend(n, r.features),
        }
    }

    open spec fn train_rel(&self, data: Seq<RecordView>, result: Self) -> bool {
        &&& result.depth_limit() == self.depth_limit()
        &&& result.min_split() == self.min_split()
        &&& if data.len() == 0 {
            result.root_view() == self.root_view()
        } else {
            match result.root_view() {
                None => false,
                Some(n) => tree_fits(
                    n,
                    data,
                    0,
                    self.depth_limit() as int,
                    self.min_split() as int,
                ),
            }
        }
    }

    proof fn lemma_untrained_predicts_zero(&self, r: RecordView) {
    }

    proof fn lemma_predict_bounded(&self, r: RecordView) {
        match self.root_view() {
            None => {
            },
            Some(n) => {
                lemma_descend_bounded(n, r.features);
            },
        }
    }

    /// Builds the tree from the training collection; empty data leaves the
    /// model unchanged.
    fn train(&mut self, data: &Vec<ProcessedPatientRecord>) {
        if data.len() > 0 {
            let node = Self::build_tree(data, 0, self.max_depth, self.min_samples_split);
            proof {
                lemma_tree_fits_wf(
                    node,
                    dataset_view(data@),
                    0,
                    self.max_depth as int,
                    self.min_samples_split as int,
                );
            }
            self.root = Some(node);
        }
    }

    fn predict(&self, r: &ProcessedPatientRecord) -> (label: u8) {
        match &self.root {
            Some(node) => DecisionTree::predict_from_node(node, &r.features),
            None => 0,
        }
    }

    fn check_accepts(&self, r: &ProcessedPatientRecord) -> (b: bool) {
        if !crate::record::check_record(r) {
            return false;
        }
        match &self.root {
            Some(node) => DecisionTree::check_node_bounds(node, r.features.len()),
            None => true,
        }
    }
}

/// A leaf that none of the stopping rules explains is a purity leaf, and
/// it is actually pure: when the data is non-empty, splittable, not beyond
/// the depth limit and not below the sample minimum, a leaf can only have
/// come from the purity rule, so all records share its recorded label.
///
/// `tree_fits` holds recursively of every subtree and the partition of the
/// training records routed to it, so this statement covers every leaf of a
/// trained tree, each against exactly the records that reach it.
pub proof fn theorem_pure_leaves(n: Node, s: Seq<RecordView>, depth: int, md: int, ms: int, l: u8)
    requires
        tree_fits(n, s, depth, md, ms),
        n == Node::Leaf(l),
        s.len() > 0,
        depth < md,
        s.len() >= ms,
        splittable(s),
    ensures
        all_same_label(s),
        l == s[0].target,
{
}

/// Training on data where every record shares one label yields a tree that
/// predicts that label for every input, whatever the depth or minimum
/// sample settings.
pub proof fn theorem_uniform_label_tree(
    n: Node,
    s: Seq<RecordView>,
    depth: int,
    md: int,
    ms: int,
    feats: Seq<i64>,
)
    requires
        tree_fits(n, s, depth, md, ms),
        s.len() > 0,
        all_same_label(s),
    ensures
        descend(n, feats) == s[0].target,
{
}

// ---------------------------------------------------------------------
// Gini impurity of a subset, as an exact rational
// ---------------------------------------------------------------------

/// Numerator of the Gini impurity of a subset: with label counts `c0, c1`
/// over `n` records, the impurity is `(n^2 - c0^2 - c1^2) / n^2`.
pub open spec fn gini_num(s: Seq<RecordView>) -> int {
    let c0 = count_label(s, 0) as int;
    let c1 = count_label(s, 1) as int;
    s.len() * s.len() - c0 * c0 - c1 * c1
}

/// Denominator of the Gini impurity of a subset.
pub open spec fn gini_den(s: Seq<RecordView>) -> int {
    s.len() * s.len() as int
}

proof fn lemma_count_all_same(s: Seq<RecordView>)
    requires
        s.len() > 0,
        all_same_label(s),
    ensures
        count_label(s, s[0].target) == s.len(),
    decreases s.len(),
{
    let l = s[0].target;
    if s.len() == 1 {
        assert(s.drop_last() =~= Seq::<RecordView>::empty());
        assert(count_label(s.drop_last(), l) == 0);
        assert(s.last() == s[0]);
    } else {
        assert(forall|i: int|
            0 <= i < s.drop_last().len() ==> (#[trigger] s.drop_last()[i]) == s[i]);
        assert(all_same_label(s.drop_last()));
        assert(s.drop_last()[0] == s[0]);
        lemma_count_all_same(s.drop_last());
        assert(s.last() == s[s.len() - 1]);
        assert(s.last().target == l);
    }
}

proof fn lemma_count_zero_absent(s: Seq<RecordView>, l: u8)
    requires
        count_label(s, l) == 0,
    ensures
        forall|i: int| 0 <= i < s.len() ==> (#[trigger] s[i]).target != l,
    decreases s.len(),
{
    if s.len() > 0 {
        lemma_count_zero_absent(s.drop_last(), l);
        assert(forall|i: int|
            0 <= i < s.len() - 1 ==> (#[trigger] s[i]) == s.drop_last()[i]);
    }
}

/// The Gini impurity of a non-empty binary-labeled subset lies in
/// `[0, 1/2]` (that is, `[0, 1 - 1/k]` for the two-class label space), and
/// it is zero exactly when the subset is pure.
pub proof fn theorem_gini_range(s: Seq<RecordView>)
    requires
        s.len() > 0,
        forall|i: int| 0 <= i < s.len() ==> (#[trigger] s[i]).target <= 1,
    ensures
        0 <= gini_num(s),
        2 * gini_num(s) <= gini_den(s),
        gini_num(s) == 0 <==> all_same_label(s),
{
    let c0 = count_label(s, 0) as int;
    let c1 = count_label(s, 1) as int;
    crate::record::lemma_count_label_partition(s);
    assert(c0 + c1 == s.len());
    assert(0 <= (c0 + c1) * (c0 + c1) - c0 * c0 - c1 * c1) by (nonlinear_arith)
        requires
            0 <= c0,
            0 <= c1,
    ;
    assert(2 * ((c0 + c1) * (c0 + c1) - c0 * c0 - c1 * c1) <= (c0 + c1) * (c0 + c1))
        by (nonlinear_arith);
    if gini_num(s) == 0 {
        assert(c0 * c1 == 0) by (nonlinear_arith)
            requires
                (c0 + c1) * (c0 + c1) - c0 * c0 - c1 * c1 == 0,
                0 <= c0,
                0 <= c1,
        ;
        if c0 == 0 {
            lemma_count_zero_absent(s, 0);
            assert(s[0].target == 1);
            assert forall|i: int| 0 <= i < s.len() implies (#[trigger] s[i]).target
                == s[0].target by {
                assert(s[i].target != 0 && s[i].target <= 1);
            }
        } else {
            assert(c1 == 0) by (nonlinear_arith)
                requires
                    c0 * c1 == 0,
                    c0 != 0,
            ;
            lemma_count_zero_absent(s, 1);
            assert(s[0].target == 0);
            assert forall|i: int| 0 <= i < s.len() implies (#[trigger] s[i]).target
                == s[0].target by {
                assert(s[i].target != 1 && s[i].target <= 1);
            }
        }
    }
    if all_same_label(s) {
        lemma_count_all_same(s);
        if s[0].target == 0 {
            crate::record::lemma_count_label_le_len(s, 1);
            assert(c1 == 0);
            assert((c0 + c1) * (c0 + c1) - c0 * c0 - c1 * c1 == 0) by (nonlinear_arith)
                requires
                    c1 == 0,
            ;
        } else {
            crate::record::lemma_count_label_le_len(s, 0);
            assert(c0 == 0);
            assert((c0 + c1) * (c0 + c1) - c0 * c0 - c1 * c1 == 0) by (nonlinear_arith)
                requires
                    c0 == 0,
            ;
        }
    }
}

} // verus!

//! Connector that splits the bigram features: the costs of some features are
//! precomputed in a matrix, those of the others computed at each query.
use vstd::prelude::*;

use crate::dictionary::connector::matrix_connector::{cell, lemma_cell_bound, MatrixConnector};
use crate::dictionary::connector::raw_connector::scorer::{
    cost_or_zero, flatten, lemma_flatten_index, lemma_flatten_len, min_len, spec_accumulate, Scorer,
    ScorerBuilder, U31Array, SIMD_SIZE,
};
use crate::dictionary::connector::raw_connector::{
    bigram_costs, costs_fit, feature_file_ok, file_rows, max_row_len, RawConnectorBuilder,
    INVALID_FEATURE_ID,
};
use crate::errors::VibratoError;
use crate::utils::spec_lines;
use crate::dictionary::connector::{Connector, ConnectorCost};
use crate::dictionary::mapper::{is_perm, ConnIdMapper};
use crate::utils::{feat_map_view, feat_set_view, FeatMap, FeatSet};

verus! {

/// The cost of the features of two blocks, pair by pair.
pub open spec fn block_cost(m: Map<(u32, u32), i32>, a: U31Array, b: U31Array) -> i32 {
    spec_accumulate(m, a.0@, b.0@, 8)
}

/// Connector that holds a matrix for the features that make few distinct
/// combinations, and computes the costs of the other eight from a scorer.
pub struct DualConnector {
    matrix_connector: MatrixConnector,
    right_conn_id_map: Vec<u16>,
    left_conn_id_map: Vec<u16>,
    right_feat_ids: Vec<U31Array>,
    left_feat_ids: Vec<U31Array>,
    raw_scorer: Scorer,
}

impl DualConnector {
    /// The matrix of the precomputed features.
    pub closed spec fn matrix_view(&self) -> MatrixConnector {
        self.matrix_connector
    }

    /// The row of the matrix of each right id.
    pub closed spec fn right_ids(&self) -> Seq<u16> {
        self.right_conn_id_map@
    }

    /// The column of the matrix of each left id.
    pub closed spec fn left_ids(&self) -> Seq<u16> {
        self.left_conn_id_map@
    }

    /// The remaining features of each right id.
    pub closed spec fn right_blocks(&self) -> Seq<U31Array> {
        self.right_feat_ids@
    }

    /// The remaining features of each left id.
    pub closed spec fn left_blocks(&self) -> Seq<U31Array> {
        self.left_feat_ids@
    }

    /// The costs of pairs of remaining features.
    pub closed spec fn raw_view(&self) -> Map<(u32, u32), i32> {
        self.raw_scorer@
    }

    /// The scorer's double array is consistent.
    pub closed spec fn raw_wf(&self) -> bool {
        self.raw_scorer.wf()
    }

    /// The matrix part of the cost of a pair of ids.
    pub open spec fn matrix_cost(&self, right_id: int, left_id: int) -> i16 {
        self.matrix_view().table()[cell(
            self.matrix_view().right_len() as int,
            self.right_ids()[right_id] as int,
            self.left_ids()[left_id] as int,
        )]
    }

    /// Creates a connector from its parts.
    pub fn new(
        matrix_connector: MatrixConnector,
        right_conn_id_map: Vec<u16>,
        left_conn_id_map: Vec<u16>,
        right_feat_ids: Vec<U31Array>,
        left_feat_ids: Vec<U31Array>,
        raw_scorer: Scorer,
    ) -> (r: Self)
        ensures
            r.matrix_view() == matrix_connector,
            r.right_ids() == right_conn_id_map@,
            r.left_ids() == left_conn_id_map@,
            r.right_blocks() == right_feat_ids@,
            r.left_blocks() == left_feat_ids@,
            r.raw_view() == raw_scorer@,
            r.raw_wf() == raw_scorer.wf(),
    {
        Self {
            matrix_connector,
            right_conn_id_map,
            left_conn_id_map,
            right_feat_ids,
            left_feat_ids,
            raw_scorer,
        }
    }
}

/// The flattening of a single block is its features.
proof fn lemma_flatten_one(a: U31Array)
    ensures
        flatten(seq![a]) == a.0@,
{
    assert(seq![a].drop_last() =~= Seq::<U31Array>::empty());
    assert(flatten(Seq::<U31Array>::empty()) + a.0@ =~= a.0@);
}

/// Id `a` occurs in `ids`.
pub open spec fn occurs(ids: Seq<u16>, a: int) -> bool {
    exists|i: int| 0 <= i < ids.len() && #[trigger] ids[i] as int == a
}

/// Every id below `n` occurs in `ids`.
pub open spec fn covers(ids: Seq<u16>, n: int) -> bool {
    forall|a: int| 0 <= a < n ==> #[trigger] occurs(ids, a)
}

/// Renumbers the ids, all below `n`, in order of first occurrence. Returns the new
/// id of each old id.
fn renumber(ids: &mut Vec<u16>, n: usize) -> (m: Vec<u16>)
    requires
        n <= 0x10000,
        forall|i: int| 0 <= i < old(ids)@.len() ==> (#[trigger] old(ids)@[i] as int) < n,
        covers(old(ids)@, n as int),
    ensures
        m@.len() == n,
        is_perm(m@),
        final(ids)@.len() == old(ids)@.len(),
        forall|i: int| 0 <= i < old(ids)@.len() ==> #[trigger] final(ids)@[i] == m@[old(ids)@[i] as int],
        forall|i: int| 0 <= i < final(ids)@.len() ==> (#[trigger] final(ids)@[i] as int) < n,
        covers(final(ids)@, n as int),
{
    let ghost orig = ids@;
    let mut seen: Vec<bool> = vec![false; n];
    let mut m: Vec<u16> = vec![0u16; n];
    let mut next: usize = 0;
    let ghost mut assigned: Set<int> = Set::empty();
    let ghost mut firsts: Seq<int> = seq![];
    let len = ids.len();
    let mut i: usize = 0;
    while i < len
        invariant
            i <= len == orig.len() == ids@.len(),
            n <= 0x10000,
            seen@.len() == n,
            m@.len() == n,
            forall|j: int| 0 <= j < orig.len() ==> (#[trigger] orig[j] as int) < n,
            covers(orig, n as int),
            assigned.finite(),
            next == assigned.len(),
            firsts.len() == next,
            forall|a: int| 0 <= a < n ==> (#[trigger] seen@[a] <==> assigned.contains(a)),
            forall|a: int| #[trigger] assigned.contains(a) ==> 0 <= a < n && (m@[a] as int) < next,
            forall|a: int, b: int|
                #[trigger] assigned.contains(a) && #[trigger] assigned.contains(b) && a != b ==> m@[a] != m@[b],
            forall|j: int| 0 <= j < i ==> #[trigger] assigned.contains(orig[j] as int),
            forall|j: int| 0 <= j < i ==> #[trigger] ids@[j] == m@[orig[j] as int],
            forall|j: int| i <= j < len ==> #[trigger] ids@[j] == orig[j],
            forall|c: int| 0 <= c < next ==> 0 <= #[trigger] firsts[c] < i && ids@[firsts[c]] as int == c,
        decreases len - i,
    {
        let a = ids[i] as usize;
        assert(orig[i as int] == a);
        if seen[a] {
            let v = m[a];
            ids.set(i, v);
        } else {
            proof {
                assert(!assigned.contains(a as int));
                vstd::set_lib::lemma_int_range(0, n as int);
                assert(assigned.subset_of(vstd::set_lib::set_int_range(0, n as int)));
                vstd::set_lib::lemma_len_subset(assigned, vstd::set_lib::set_int_range(0, n as int));
                if assigned.len() == n {
                    assert(assigned =~= vstd::set_lib::set_int_range(0, n as int)) by {
                        vstd::set_lib::lemma_len_subset(assigned, vstd::set_lib::set_int_range(0, n as int));
                        assert forall|x: int| vstd::set_lib::set_int_range(0, n as int).contains(x) implies assigned.contains(x) by {
                            if !assigned.contains(x) {
                                let bigger = assigned.insert(x);
                                assert(bigger.subset_of(vstd::set_lib::set_int_range(0, n as int)));
                                vstd::set_lib::lemma_len_subset(bigger, vstd::set_lib::set_int_range(0, n as int));
                            }
                        }
                    }
                    assert(false);
                }
            }
            seen.set(a, true);
            m.set(a, next as u16);
            ids.set(i, next as u16);
            proof {
                firsts = firsts.push(i as int);
                assigned = assigned.insert(a as int);
            }
            next = next + 1;
        }
        i = i + 1;
    }
    proof {
        vstd::set_lib::lemma_int_range(0, n as int);
        assert(assigned =~= vstd::set_lib::set_int_range(0, n as int)) by {
            assert forall|x: int| 0 <= x < n implies assigned.contains(x) by {
                assert(occurs(orig, x));
                let j = choose|j: int| 0 <= j < orig.len() && #[trigger] orig[j] as int == x;
                assert(assigned.contains(orig[j] as int));
            }
        }
        assert forall|a: int| 0 <= a < m@.len() implies (#[trigger] m@[a] as int) < m@.len() by {
            assert(assigned.contains(a));
        }
        assert forall|a: int, b: int| 0 <= a < b < m@.len() implies m@[a] != m@[b] by {
            assert(assigned.contains(a) && assigned.contains(b));
        }
        assert forall|c: int| 0 <= c < n implies #[trigger] occurs(ids@, c) by {
            let j = firsts[c];
            assert(ids@[j] as int == c);
        }
        assert forall|j: int| 0 <= j < ids@.len() implies (#[trigger] ids@[j] as int) < n by {
            assert(assigned.contains(orig[j] as int));
        }
    }
    m
}

/// Moves the item of each index `a` to index `perm[a]`; the indices that no item
/// reaches keep `fill`.
fn permute<T: Copy>(src: &Vec<T>, fill: T, perm: &[u16]) -> (r: Vec<T>)
    requires
        is_perm(perm@),
        perm@.len() == src@.len(),
    ensures
        r@.len() == src@.len(),
        forall|a: int| 0 <= a < src@.len() ==> #[trigger] r@[perm@[a] as int] == src@[a],
        forall|j: int|
            0 <= j < r@.len() ==> #[trigger] r@[j] == fill || exists|a: int|
                0 <= a < src@.len() && src@[a] == r@[j],
{
    let n = src.len();
    let mut out: Vec<T> = Vec::new();
    let mut k: usize = 0;
    while k < n
        invariant
            k <= n == src@.len(),
            out@.len() == k,
            forall|j: int| 0 <= j < k ==> #[trigger] out@[j] == fill,
        decreases n - k,
    {
        out.push(fill);
        k = k + 1;
    }
    let mut a: usize = 0;
    while a < n
        invariant
            a <= n == src@.len() == perm@.len(),
            out@.len() == n,
            is_perm(perm@),
            forall|x: int| 0 <= x < a ==> #[trigger] out@[perm@[x] as int] == src@[x],
            forall|j: int|
                0 <= j < n ==> #[trigger] out@[j] == fill || exists|x: int|
                    0 <= x < n && src@[x] == out@[j],
        decreases n - a,
    {
        let p = perm[a] as usize;
        let ghost before = out@;
        out.set(p, src[a]);
        assert forall|j: int| 0 <= j < n implies #[trigger] out@[j] == fill || exists|x: int|
            0 <= x < n && src@[x] == out@[j] by {
            if j != p {
                assert(out@[j] == before[j]);
            } else {
                assert(src@[a as int] == out@[j]);
            }
        }
        a = a + 1;
    }
    out
}

/// The features of a row at the templates of `kept` but `trial`, in order,
/// leaving out the templates past the row's end.
pub open spec fn kept_feats(row: Seq<u32>, kept: Seq<usize>, trial: usize) -> Seq<u32>
    decreases kept.len(),
{
    if kept.len() == 0 {
        seq![]
    } else {
        let r = kept_feats(row, kept.drop_last(), trial);
        let t = kept.last();
        if t != trial && (t as int) < row.len() {
            r.push(row[t as int])
        } else {
            r
        }
    }
}

/// The distinct lists of features that the rows have at the templates of `kept`
/// but `trial`.
pub open spec fn distinct_feats(rows: Seq<Seq<u32>>, kept: Seq<usize>, trial: usize) -> Set<Seq<u32>> {
    rows.map_values(|row: Seq<u32>| kept_feats(row, kept, trial)).to_set()
}

/// The size of the matrix without template `trial`.
pub open spec fn trial_size(
    right: Seq<Seq<u32>>,
    left: Seq<Seq<u32>>,
    kept: Seq<usize>,
    trial: usize,
) -> int {
    (distinct_feats(right, kept, trial).len() * distinct_feats(left, kept, trial).len()) as int
}

/// Among the first `k` templates of `kept`, the last whose removal gives the
/// smallest matrix, with that size (0 and the full size for none).
pub open spec fn best_upto(
    right: Seq<Seq<u32>>,
    left: Seq<Seq<u32>>,
    kept: Seq<usize>,
    k: int,
) -> (usize, int)
    decreases k,
{
    if k <= 0 {
        (0, (left.len() * right.len()) as int)
    } else {
        let (c, m) = best_upto(right, left, kept, k - 1);
        let t = kept[k - 1];
        let p = trial_size(right, left, kept, t);
        if p <= m {
            (t, p)
        } else {
            (c, m)
        }
    }
}

/// `kept` without the items equal to `c`.
pub open spec fn without(kept: Seq<usize>, c: usize) -> Seq<usize>
    decreases kept.len(),
{
    if kept.len() == 0 {
        seq![]
    } else if kept.last() == c {
        without(kept.drop_last(), c)
    } else {
        without(kept.drop_last(), c).push(kept.last())
    }
}

/// The templates left after removing, `n` times, the template whose removal
/// gives the smallest matrix.
pub open spec fn greedy(right: Seq<Seq<u32>>, left: Seq<Seq<u32>>, kept: Seq<usize>, n: nat) -> Seq<usize>
    decreases n,
{
    if n == 0 {
        kept
    } else {
        let c = best_upto(right, left, kept, kept.len() as int).0;
        greedy(right, left, without(kept, c), (n - 1) as nat)
    }
}

/// The templates `0..n`.
pub open spec fn all_templates(n: int) -> Seq<usize> {
    Seq::new(n as nat, |i: int| i as usize)
}

/// The template chosen among `kept` is one of them, and removing it gives a
/// matrix no larger than removing any other.
pub proof fn lemma_best_is_smallest(right: Seq<Seq<u32>>, left: Seq<Seq<u32>>, kept: Seq<usize>, k: int)
    requires
        0 <= k <= kept.len(),
    ensures
        k > 0 ==> exists|j: int| 0 <= j < k && kept[j] == best_upto(right, left, kept, k).0,
        k > 0 ==> best_upto(right, left, kept, k).1 == trial_size(
            right,
            left,
            kept,
            best_upto(right, left, kept, k).0,
        ),
        forall|j: int|
            0 <= j < k ==> best_upto(right, left, kept, k).1 <= trial_size(right, left, kept, #[trigger] kept[j]),
    decreases k,
{
    if k > 0 {
        lemma_best_is_smallest(right, left, kept, k - 1);
        let (c, m) = best_upto(right, left, kept, k - 1);
        let t = kept[k - 1];
        let p = trial_size(right, left, kept, t);
        if p <= m {
            assert(kept[k - 1] == best_upto(right, left, kept, k).0);
        } else {
            lemma_trial_size_bound(right, left, kept, t);
            assert(k - 1 > 0);
            let j = choose|j: int| 0 <= j < k - 1 && kept[j] == c;
            assert(kept[j] == best_upto(right, left, kept, k).0);
        }
    }
}

/// Removing a template never gives more combinations than rows.
proof fn lemma_trial_size_bound(right: Seq<Seq<u32>>, left: Seq<Seq<u32>>, kept: Seq<usize>, t: usize)
    ensures
        0 <= trial_size(right, left, kept, t) <= left.len() * right.len(),
{
    let fr = |row: Seq<u32>| kept_feats(row, kept, t);
    right.map_values(fr).lemma_cardinality_of_set();
    left.map_values(fr).lemma_cardinality_of_set();
    let a = distinct_feats(right, kept, t).len();
    let b = distinct_feats(left, kept, t).len();
    assert(a * b <= left.len() * right.len()) by (nonlinear_arith)
        requires
            a <= right.len(),
            b <= left.len(),
    ;
}

/// The number of distinct lists of features that the rows have at the templates
/// of `kept` but `trial`.
fn count_distinct(rows: &Vec<Vec<u32>>, kept: &Vec<usize>, trial: usize) -> (r: usize)
    ensures
        r == distinct_feats(rows.deep_view(), kept@, trial).len(),
{
    let ghost rv = rows.deep_view();
    let ghost f = |row: Seq<u32>| kept_feats(row, kept@, trial);
    let mut map = FeatMap::new();
    let n = rows.len();
    let mut i: usize = 0;
    assert(rv.take(0).map_values(f).to_set() =~= Set::<Seq<u32>>::empty());
    while i < n
        invariant
            i <= n == rv.len(),
            rv == rows.deep_view(),
            f == (|row: Seq<u32>| kept_feats(row, kept@, trial)),
            feat_map_view(map).dom() == rv.take(i as int).map_values(f).to_set(),
        decreases n - i,
    {
        let row = &rows[i];
        assert(row@ == rv[i as int]);
        let feats = feats_without(row, kept, trial);
        let ghost before = rv.take(i as int).map_values(f);
        map.insert(feats, 0);
        assert(rv.take(i + 1).map_values(f) =~= before.push(f(rv[i as int])));
        assert(rv.take(i + 1).map_values(f).to_set() =~= before.to_set().insert(f(rv[i as int]))) by {
            let after = rv.take(i + 1).map_values(f);
            assert(after == before.push(f(rv[i as int])));
            assert forall|x: Seq<u32>| #[trigger] after.to_set().contains(x) <==> before.to_set().insert(
                f(rv[i as int]),
            ).contains(x) by {
                if before.contains(x) {
                    let j = choose|j: int| 0 <= j < before.len() && #[trigger] before[j] == x;
                    assert(after[j] == x);
                }
                if x == f(rv[i as int]) {
                    assert(after[i as int] == x);
                }
                if after.contains(x) {
                    let j = choose|j: int| 0 <= j < after.len() && #[trigger] after[j] == x;
                    if j < i {
                        assert(before[j] == x);
                    }
                }
            }
        }
        i = i + 1;
    }
    assert(rv.take(n as int) =~= rv);
    proof {
        lemma_map_dom_finite(map);
    }
    map.len()
}

/// The domain of a feature map is finite: it is the set of a list's items.
proof fn lemma_map_dom_finite(map: FeatMap)
    requires
        exists|s: Seq<Seq<u32>>| feat_map_view(map).dom() == s.to_set(),
    ensures
        feat_map_view(map).dom().finite(),
{
    let s = choose|s: Seq<Seq<u32>>| feat_map_view(map).dom() == s.to_set();
    vstd::seq_lib::seq_to_set_is_finite(s);
}

/// The features of a row at the templates of `kept` but `trial`.
fn feats_without(row: &Vec<u32>, kept: &Vec<usize>, trial: usize) -> (r: Vec<u32>)
    ensures
        r@ == kept_feats(row@, kept@, trial),
{
    let mut out: Vec<u32> = Vec::new();
    let n = kept.len();
    let mut k: usize = 0;
    while k < n
        invariant
            k <= n == kept@.len(),
            out@ == kept_feats(row@, kept@.take(k as int), trial),
        decreases n - k,
    {
        assert(kept@.take(k + 1).drop_last() =~= kept@.take(k as int));
        let t = kept[k];
        if t != trial && t < row.len() {
            out.push(row[t]);
        }
        k = k + 1;
    }
    assert(kept@.take(n as int) =~= kept@);
    out
}

/// Removes, `raw_feat_template_size` times, the template whose removal gives the
/// smallest matrix (the last of equals), starting from the templates
/// `0..total_feat_template_size`, and returns the rest in increasing order.
pub fn remove_feature_templates_greedy(
    raw_feat_template_size: usize,
    right_feat_ids_tmp: &Vec<Vec<u32>>,
    left_feat_ids_tmp: &Vec<Vec<u32>>,
    total_feat_template_size: usize,
) -> (r: Vec<usize>)
    ensures
        r@ == greedy(
            right_feat_ids_tmp.deep_view(),
            left_feat_ids_tmp.deep_view(),
            all_templates(total_feat_template_size as int),
            raw_feat_template_size as nat,
        ),
{
    let ghost rv = right_feat_ids_tmp.deep_view();
    let ghost lv = left_feat_ids_tmp.deep_view();
    let mut kept: Vec<usize> = Vec::new();
    let mut i: usize = 0;
    while i < total_feat_template_size
        invariant
            i <= total_feat_template_size,
            kept@ == all_templates(i as int),
        decreases total_feat_template_size - i,
    {
        kept.push(i);
        i = i + 1;
        assert(kept@ =~= all_templates(i as int));
    }
    let nl = left_feat_ids_tmp.len() as u128;
    let nr = right_feat_ids_tmp.len() as u128;
    assert(nl * nr <= 0xffff_ffff_ffff_ffff * 0xffff_ffff_ffff_ffff) by (nonlinear_arith)
        requires
            nl <= 0xffff_ffff_ffff_ffff,
            nr <= 0xffff_ffff_ffff_ffff,
    ;
    let full = nl * nr;
    let mut step: usize = 0;
    while step < raw_feat_template_size
        invariant
            step <= raw_feat_template_size,
            rv == right_feat_ids_tmp.deep_view(),
            lv == left_feat_ids_tmp.deep_view(),
            full == lv.len() * rv.len(),
            greedy(rv, lv, kept@, (raw_feat_template_size - step) as nat) == greedy(
                rv,
                lv,
                all_templates(total_feat_template_size as int),
                raw_feat_template_size as nat,
            ),
        decreases raw_feat_template_size - step,
    {
        let mut candidate: usize = 0;
        let mut min_size: u128 = full;
        let n = kept.len();
        let mut k: usize = 0;
        while k < n
            invariant
                k <= n == kept@.len(),
                rv == right_feat_ids_tmp.deep_view(),
                lv == left_feat_ids_tmp.deep_view(),
                full == lv.len() * rv.len(),
                (candidate, min_size as int) == best_upto(rv, lv, kept@, k as int),
            decreases n - k,
        {
            let t = kept[k];
            let r_num = count_distinct(right_feat_ids_tmp, &kept, t);
            let l_num = count_distinct(left_feat_ids_tmp, &kept, t);
            proof {
                lemma_trial_size_bound(rv, lv, kept@, t);
                rv.map_values(|row: Seq<u32>| kept_feats(row, kept@, t)).lemma_cardinality_of_set();
                lv.map_values(|row: Seq<u32>| kept_feats(row, kept@, t)).lemma_cardinality_of_set();
                assert(r_num * l_num <= 0xffff_ffff_ffff_ffff * 0xffff_ffff_ffff_ffff) by (nonlinear_arith)
                    requires
                        r_num <= 0xffff_ffff_ffff_ffff,
                        l_num <= 0xffff_ffff_ffff_ffff,
                ;
            }
            let size = (r_num as u128) * (l_num as u128);
            if size <= min_size {
                min_size = size;
                candidate = t;
            }
            k = k + 1;
        }
        let ghost c = candidate;
        assert(c == best_upto(rv, lv, kept@, kept@.len() as int).0);
        let mut rest: Vec<usize> = Vec::new();
        let mut k: usize = 0;
        while k < n
            invariant
                k <= n == kept@.len(),
                rest@ == without(kept@.take(k as int), candidate),
            decreases n - k,
        {
            assert(kept@.take(k + 1).drop_last() =~= kept@.take(k as int));
            if kept[k] != candidate {
                rest.push(kept[k]);
            }
            k = k + 1;
        }
        assert(kept@.take(n as int) =~= kept@);
        kept = rest;
        step = step + 1;
    }
    kept
}

/// The feature of template `t` of a row, [`INVALID_FEATURE_ID`] past its end.
pub open spec fn feat_at(row: Seq<u32>, t: int) -> u32 {
    if 0 <= t < row.len() {
        row[t]
    } else {
        INVALID_FEATURE_ID
    }
}

/// The features of a row at the templates `idx`.
pub open spec fn project(row: Seq<u32>, idx: Seq<usize>) -> Seq<u32> {
    Seq::new(idx.len(), |k: int| feat_at(row, idx[k] as int))
}

/// The features of id `i` at the templates `idx`: zeros for id 0 (BOS/EOS), those
/// of row `i - 1` otherwise.
pub open spec fn id_feats(rows: Seq<Seq<u32>>, i: int, idx: Seq<usize>) -> Seq<u32> {
    if i == 0 {
        Seq::new(idx.len(), |_k: int| 0u32)
    } else {
        project(rows[i - 1], idx)
    }
}

/// The features padded with zeros to a multiple of eight.
pub open spec fn pad8(v: Seq<u32>) -> Seq<u32> {
    v + Seq::new((8 * ((v.len() + 7) / 8) - v.len()) as nat, |_k: int| 0u32)
}

/// A cost limited to the range of `i16`.
pub open spec fn clamp16(x: i32) -> i16 {
    if x > 0x7fff {
        0x7fff
    } else if x < -0x8000 {
        -0x8000i16
    } else {
        x as i16
    }
}

/// The cost of two lists of features, padded to blocks, limited to `i16`.
pub open spec fn key_cost(m: Map<(u32, u32), i32>, a: Seq<u32>, b: Seq<u32>) -> i16 {
    clamp16(
        spec_accumulate(
            m,
            pad8(a),
            pad8(b),
            (8 * min_len(((a.len() + 7) / 8) as nat, ((b.len() + 7) / 8) as nat)) as int,
        ),
    )
}

/// The templates of `0..total` that are not in `kept`, in increasing order.
pub open spec fn others(kept: Seq<usize>, total: int) -> Seq<usize>
    decreases total,
{
    if total <= 0 {
        seq![]
    } else if kept.contains((total - 1) as usize) {
        others(kept, total - 1)
    } else {
        others(kept, total - 1).push((total - 1) as usize)
    }
}

/// The blocks made by [`U31Array::to_simd_vec`] hold the features padded with
/// zeros.
proof fn lemma_simd_pad(data: Seq<u32>, r: Seq<U31Array>)
    requires
        r.len() == (data.len() + 7) / 8,
        flatten(r).take(data.len() as int) == data,
        forall|i: int| data.len() <= i < flatten(r).len() ==> flatten(r)[i] == 0,
    ensures
        flatten(r) == pad8(data),
{
    lemma_flatten_len(r);
    assert forall|i: int| 0 <= i < flatten(r).len() implies flatten(r)[i] == pad8(data)[i] by {
        if i < data.len() {
            assert(flatten(r).take(data.len() as int)[i] == data[i]);
        }
    }
    assert(flatten(r) =~= pad8(data));
}

/// The costs summed over pairs agree when the maps agree on those pairs.
proof fn lemma_accumulate_agree(
    m1: Map<(u32, u32), i32>,
    m2: Map<(u32, u32), i32>,
    a: Seq<u32>,
    b: Seq<u32>,
    n: int,
)
    requires
        0 <= n <= a.len(),
        n <= b.len(),
        forall|k: int| 0 <= k < n ==> #[trigger] cost_or_zero(m1, a[k], b[k]) == cost_or_zero(m2, a[k], b[k]),
    ensures
        spec_accumulate(m1, a, b, n) == spec_accumulate(m2, a, b, n),
    decreases n,
{
    if n > 0 {
        lemma_accumulate_agree(m1, m2, a, b, n - 1);
        assert(cost_or_zero(m1, a[n - 1], b[n - 1]) == cost_or_zero(m2, a[n - 1], b[n - 1]));
    }
}

/// The features of a row at the templates `idx`.
fn project_row(row: &Vec<u32>, idx: &Vec<usize>) -> (r: Vec<u32>)
    ensures
        r@ == project(row@, idx@),
{
    let mut out: Vec<u32> = Vec::new();
    let n = idx.len();
    let mut k: usize = 0;
    while k < n
        invariant
            k <= n == idx@.len(),
            out@ == project(row@, idx@).take(k as int),
        decreases n - k,
    {
        let t = idx[k];
        let f = if t < row.len() {
            row[t]
        } else {
            INVALID_FEATURE_ID
        };
        out.push(f);
        k = k + 1;
        assert(out@ =~= project(row@, idx@).take(k as int));
    }
    assert(project(row@, idx@).take(n as int) =~= project(row@, idx@));
    out
}

/// The distinct features lists of the ids `0..=i` at the templates `idx`.
pub open spec fn feats_upto(rows: Seq<Seq<u32>>, idx: Seq<usize>, i: int) -> Set<Seq<u32>> {
    Set::new(|f: Seq<u32>| exists|j: int| 0 <= j <= i && f == #[trigger] id_feats(rows, j, idx))
}

proof fn lemma_feats_upto_step(rows: Seq<Seq<u32>>, idx: Seq<usize>, i: int)
    requires
        0 <= i,
    ensures
        feats_upto(rows, idx, i + 1) == feats_upto(rows, idx, i).insert(id_feats(rows, i + 1, idx)),
{
    assert forall|f: Seq<u32>| #[trigger] feats_upto(rows, idx, i + 1).contains(f) implies feats_upto(rows, idx, i).insert(
        id_feats(rows, i + 1, idx),
    ).contains(f) by {
        let j = choose|j: int| 0 <= j <= i + 1 && f == #[trigger] id_feats(rows, j, idx);
        if j <= i {
            assert(feats_upto(rows, idx, i).contains(f));
        }
    }
    assert forall|f: Seq<u32>| #[trigger] feats_upto(rows, idx, i).insert(id_feats(rows, i + 1, idx)).contains(f) implies feats_upto(
        rows,
        idx,
        i + 1,
    ).contains(f) by {
        if f == id_feats(rows, i + 1, idx) {
        } else {
            let j = choose|j: int| 0 <= j <= i && f == #[trigger] id_feats(rows, j, idx);
        }
    }
    assert(feats_upto(rows, idx, i + 1) =~= feats_upto(rows, idx, i).insert(id_feats(rows, i + 1, idx)));
}

proof fn lemma_feats_upto_zero(rows: Seq<Seq<u32>>, idx: Seq<usize>)
    ensures
        feats_upto(rows, idx, 0) == Set::<Seq<u32>>::empty().insert(id_feats(rows, 0, idx)),
{
    assert(feats_upto(rows, idx, 0) =~= Set::<Seq<u32>>::empty().insert(id_feats(rows, 0, idx)));
}

proof fn lemma_feats_upto_grow(rows: Seq<Seq<u32>>, idx: Seq<usize>, i: int, k: int)
    requires
        0 <= i <= k,
    ensures
        feats_upto(rows, idx, k).finite(),
        feats_upto(rows, idx, i).subset_of(feats_upto(rows, idx, k)),
        feats_upto(rows, idx, i).len() <= feats_upto(rows, idx, k).len(),
    decreases k,
{
    if k == 0 {
        lemma_feats_upto_zero(rows, idx);
    } else {
        lemma_feats_upto_grow(rows, idx, if i < k { i } else { k - 1 }, k - 1);
        lemma_feats_upto_step(rows, idx, k - 1);
        if i == k {
        } else {
            vstd::set_lib::lemma_len_subset(feats_upto(rows, idx, i), feats_upto(rows, idx, k));
        }
    }
}

/// Gives the same matrix id to the ids with the same features at the templates
/// `idx`: the ids in order of first occurrence, id 0 (zeros) first. Returns the
/// matrix id of each id and the features of each matrix id; `None` when there
/// are more than 0x10000 matrix ids.
fn generate_feature_map(rows: &Vec<Vec<u32>>, idx: &Vec<usize>) -> (r: Option<(Vec<u16>, Vec<Vec<u32>>)>)
    ensures
        r is None <==> feats_upto(rows.deep_view(), idx@, rows@.len() as int).len() > 0x10000,
        r matches Some((conn, keys)) ==> {
            &&& conn@.len() == rows@.len() + 1
            &&& 1 <= keys@.len() <= 0x10000
            &&& forall|i: int|
                0 <= i <= rows@.len() ==> (#[trigger] conn@[i] as int) < keys@.len() && keys@[conn@[i] as int]@
                    == id_feats(rows.deep_view(), i, idx@)
            &&& forall|j: int| 0 <= j < keys@.len() ==> (#[trigger] keys@[j])@.len() == idx@.len()
            &&& covers(conn@, keys@.len() as int)
        },
{
    let ghost rv = rows.deep_view();
    let mut map = FeatMap::new();
    let mut keys: Vec<Vec<u32>> = Vec::new();
    let mut zeros: Vec<u32> = Vec::new();
    let m = idx.len();
    let mut k: usize = 0;
    while k < m
        invariant
            k <= m,
            zeros@ == Seq::new(k as nat, |_k: int| 0u32),
        decreases m - k,
    {
        zeros.push(0);
        k = k + 1;
        assert(zeros@ =~= Seq::new(k as nat, |_k: int| 0u32));
    }
    let zeros2 = vstd::slice::slice_to_vec(zeros.as_slice());
    map.insert(zeros2, 0);
    keys.push(zeros);
    let mut conn: Vec<u16> = Vec::new();
    conn.push(0);
    assert(conn@[0] as int == 0);
    assert(occurs(conn@, 0));
    assert(id_feats(rv, 0, idx@) =~= Seq::new(m as nat, |_k: int| 0u32));
    proof {
        lemma_feats_upto_zero(rv, idx@);
        assert(feat_map_view(map).contains_key(zeros@));
        assert forall|f: Seq<u32>| #[trigger] feats_upto(rv, idx@, 0).contains(f) <==> feat_map_view(map).contains_key(f) by {
            if feat_map_view(map).contains_key(f) {
                assert(keys@[feat_map_view(map)[f] as int]@ == f);
            }
        }
    }
    let n = rows.len();
    let mut i: usize = 0;
    while i < n
        invariant
            i <= n == rv.len(),
            rv == rows.deep_view(),
            m == idx@.len(),
            1 <= keys@.len() <= 0x10000,
            conn@.len() == i + 1,
            forall|j: int| 0 <= j < keys@.len() ==> (#[trigger] keys@[j])@.len() == m,
            forall|j: int|
                0 <= j <= i ==> (#[trigger] conn@[j] as int) < keys@.len() && keys@[conn@[j] as int]@ == id_feats(
                    rv,
                    j,
                    idx@,
                ),
            forall|j: int|
                0 <= j < keys@.len() ==> #[trigger] feat_map_view(map).contains_key(keys@[j]@) && feat_map_view(
                    map,
                )[keys@[j]@] == j,
            forall|key: Seq<u32>|
                #[trigger] feat_map_view(map).contains_key(key) ==> (feat_map_view(map)[key] as int)
                    < keys@.len() && keys@[feat_map_view(map)[key] as int]@ == key,
            covers(conn@, keys@.len() as int),
            feats_upto(rv, idx@, i as int).finite(),
            feats_upto(rv, idx@, i as int).len() == keys@.len(),
            forall|f: Seq<u32>| #[trigger] feats_upto(rv, idx@, i as int).contains(f) <==> feat_map_view(map).contains_key(f),
        decreases n - i,
    {
        let row = &rows[i];
        proof {
            lemma_feats_upto_step(rv, idx@, i as int);
        }
        assert(row@ == rv[i as int]);
        let feat_ids = project_row(row, idx);
        assert(feat_ids@ == id_feats(rv, i + 1, idx@));
        let id: u32 = match map.get(feat_ids.as_slice()) {
            Some(id) => id,
            None => {
                let new_id = keys.len();
                if new_id > 0xffff {
                    proof {
                        lemma_feats_upto_grow(rv, idx@, i + 1, n as int);
                        assert(!feats_upto(rv, idx@, i as int).contains(feat_ids@));
                    }
                    return None;
                }
                let copy = vstd::slice::slice_to_vec(feat_ids.as_slice());
                let ghost before = keys@;
                map.insert(copy, new_id as u32);
                keys.push(feat_ids);
                proof {
                    assert forall|j: int| 0 <= j < keys@.len() implies #[trigger] feat_map_view(map).contains_key(
                        keys@[j]@,
                    ) && feat_map_view(map)[keys@[j]@] == j by {
                        if j < before.len() {
                            assert(keys@[j] == before[j]);
                            assert(keys@[j]@ != keys@[new_id as int]@);
                        }
                    }
                }
                new_id as u32
            },
        };
        proof {
            assert forall|f: Seq<u32>| #[trigger] feats_upto(rv, idx@, i + 1).contains(f) <==> feat_map_view(map).contains_key(f) by {
                if feat_map_view(map).contains_key(f) {
                    assert(keys@[feat_map_view(map)[f] as int]@ == f);
                }
            }
        }
        let ghost before_conn = conn@;
        conn.push(id as u16);
        proof {
            assert(conn@[i + 1] == id as u16);
            assert forall|a: int| 0 <= a < keys@.len() implies #[trigger] occurs(conn@, a) by {
                if a == id {
                    assert(conn@[i + 1] as int == a);
                } else {
                    assert(occurs(before_conn, a));
                    let j = choose|j: int| 0 <= j < before_conn.len() && #[trigger] before_conn[j] as int == a;
                    assert(conn@[j] == before_conn[j]);
                }
            }
        }
        i = i + 1;
    }
    Some((conn, keys))
}

/// The matrix of the costs of every pair of right and left features lists,
/// limited to `i16`; `None` when it does not fit in memory addressable by
/// `usize`.
fn create_matrix_connector(
    right_keys: &Vec<Vec<u32>>,
    left_keys: &Vec<Vec<u32>>,
    scorer: &Scorer,
) -> (r: Option<MatrixConnector>)
    requires
        right_keys@.len() <= 0x10000,
        left_keys@.len() <= 0x10000,
        scorer.wf(),
    ensures
        r is None <==> right_keys@.len() * left_keys@.len() > usize::MAX,
        r matches Some(c) ==> {
            &&& c.conn_wf()
            &&& c.right_len() == right_keys@.len()
            &&& c.left_len() == left_keys@.len()
            &&& forall|a: int, b: int|
                0 <= a < right_keys@.len() && 0 <= b < left_keys@.len() ==> #[trigger] c.table()[cell(
                    right_keys@.len() as int,
                    a,
                    b,
                )] == key_cost(scorer@, right_keys@[a]@, left_keys@[b]@)
        },
{
    let nr = right_keys.len();
    let nl = left_keys.len();
    assert(nr * nl <= 0x10000 * 0x10000) by (nonlinear_arith)
        requires
            nr <= 0x10000,
            nl <= 0x10000,
    ;
    let size = (nr as u64) * (nl as u64);
    if size > usize::MAX as u64 {
        return None;
    }
    let mut matrix: Vec<i16> = vec![0i16; size as usize];
    let mut a: usize = 0;
    while a < nr
        invariant
            a <= nr == right_keys@.len() <= 0x10000,
            nl == left_keys@.len() <= 0x10000,
            matrix@.len() == nr * nl,
            scorer.wf(),
            forall|x: int, y: int|
                0 <= x < a && 0 <= y < nl ==> #[trigger] matrix@[cell(nr as int, x, y)] == key_cost(
                    scorer@,
                    right_keys@[x]@,
                    left_keys@[y]@,
                ),
        decreases nr - a,
    {
        let rblocks = U31Array::to_simd_vec(right_keys[a].as_slice());
        proof {
            lemma_simd_pad(right_keys@[a as int]@, rblocks@);
        }
        let mut b: usize = 0;
        while b < nl
            invariant
                a < nr == right_keys@.len() <= 0x10000,
                b <= nl == left_keys@.len() <= 0x10000,
                matrix@.len() == nr * nl,
                scorer.wf(),
                flatten(rblocks@) == pad8(right_keys@[a as int]@),
                rblocks@.len() == (right_keys@[a as int]@.len() + 7) / 8,
                forall|x: int, y: int|
                    (0 <= x < a && 0 <= y < nl) || (x == a && 0 <= y < b) ==> #[trigger] matrix@[cell(
                        nr as int,
                        x,
                        y,
                    )] == key_cost(scorer@, right_keys@[x]@, left_keys@[y]@),
            decreases nl - b,
        {
            let lblocks = U31Array::to_simd_vec(left_keys[b].as_slice());
            proof {
                lemma_simd_pad(left_keys@[b as int]@, lblocks@);
            }
            let cost = scorer.accumulate_cost(rblocks.as_slice(), lblocks.as_slice());
            let clamped: i16 = if cost > 0x7fff {
                0x7fff
            } else if cost < -0x8000 {
                -0x8000
            } else {
                cost as i16
            };
            let len = matrix.len();
            proof {
                lemma_cell_bound(nr as int, nl as int, a as int, b as int);
                assert(b * nr <= b * nr + a);
                assert(b * nr + a < len);
            }
            let index = b * nr + a;
            let ghost before = matrix@;
            matrix.set(index, clamped);
            proof {
                assert forall|x: int, y: int|
                    (0 <= x < a && 0 <= y < nl) || (x == a && 0 <= y < b + 1) implies #[trigger] matrix@[cell(
                        nr as int,
                        x,
                        y,
                    )] == key_cost(scorer@, right_keys@[x]@, left_keys@[y]@) by {
                    if x != a || y != b {
                        lemma_cell_bound(nr as int, nl as int, x, y);
                        if cell(nr as int, x, y) == index {
                            crate::dictionary::connector::matrix_connector::lemma_cell_injective(
                                nr as int,
                                x,
                                y,
                                a as int,
                                b as int,
                            );
                        }
                        assert(matrix@[cell(nr as int, x, y)] == before[cell(nr as int, x, y)]);
                    }
                }
            }
            b = b + 1;
        }
        a = a + 1;
    }
    Some(MatrixConnector::new(matrix, nr as u32, nl as u32))
}

/// The features of each id at the templates `idx`, one id after another: zeros
/// for id 0, then those of each row.
fn flat_feats(rows: &Vec<Vec<u32>>, idx: &Vec<usize>) -> (r: Vec<u32>)
    ensures
        r@.len() == (rows@.len() + 1) * idx@.len(),
        forall|i: int, k: int|
            0 <= i <= rows@.len() && 0 <= k < idx@.len() ==> r@[i * idx@.len() + k] == #[trigger] id_feats(
                rows.deep_view(),
                i,
                idx@,
            )[k],
{
    let ghost rv = rows.deep_view();
    let m = idx.len();
    let mut out: Vec<u32> = Vec::new();
    let mut k: usize = 0;
    while k < m
        invariant
            k <= m == idx@.len(),
            out@.len() == k,
            forall|j: int| 0 <= j < k ==> out@[j] == 0,
        decreases m - k,
    {
        out.push(0);
        k = k + 1;
    }
    let n = rows.len();
    let mut i: usize = 0;
    while i < n
        invariant
            i <= n == rv.len(),
            rv == rows.deep_view(),
            m == idx@.len(),
            out@.len() == (i + 1) * m,
            forall|x: int, y: int|
                0 <= x <= i && 0 <= y < m ==> out@[x * m + y] == #[trigger] id_feats(rv, x, idx@)[y],
        decreases n - i,
    {
        let row = &rows[i];
        assert(row@ == rv[i as int]);
        let feats = project_row(row, idx);
        let ghost before = out@;
        let mut k: usize = 0;
        while k < m
            invariant
                k <= m == idx@.len() == feats@.len(),
                out@.len() == (i + 1) * m + k,
                out@.take(((i + 1) * m) as int) == before,
                forall|y: int| 0 <= y < k ==> out@[(i + 1) * m + y] == feats@[y],
            decreases m - k,
        {
            out.push(feats[k]);
            k = k + 1;
            assert(out@.take(((i + 1) * m) as int) =~= before);
        }
        proof {
            assert((i + 1) * m + m == (i + 2) * m) by (nonlinear_arith);
            assert forall|x: int, y: int| 0 <= x <= i + 1 && 0 <= y < m implies out@[x * m + y] == #[trigger] id_feats(
                rv,
                x,
                idx@,
            )[y] by {
                if x <= i {
                    assert(x * m + y < (i + 1) * m) by (nonlinear_arith)
                        requires
                            x <= i,
                            y < m,
                    ;
                    assert(out@.take(((i + 1) * m) as int)[x * m + y] == before[x * m + y]);
                } else {
                    assert(id_feats(rv, x, idx@) == feats@);
                }
            }
        }
        i = i + 1;
    }
    out
}

/// Lays out the features of the ids at the templates `raw_indices`, and keeps in
/// the scorer only the pairs of features that occur there.
fn create_raw_connector(
    right_feat_ids_tmp: &Vec<Vec<u32>>,
    left_feat_ids_tmp: &Vec<Vec<u32>>,
    raw_indices: &Vec<usize>,
    scorer_builder: &mut ScorerBuilder,
) -> (r: (Vec<u32>, Vec<u32>))
    requires
        old(scorer_builder).wf(),
    ensures
        final(scorer_builder).wf(),
        r.0@.len() == (right_feat_ids_tmp@.len() + 1) * raw_indices@.len(),
        r.1@.len() == (left_feat_ids_tmp@.len() + 1) * raw_indices@.len(),
        forall|i: int, k: int|
            0 <= i <= right_feat_ids_tmp@.len() && 0 <= k < raw_indices@.len() ==> r.0@[i * raw_indices@.len()
                + k] == #[trigger] id_feats(right_feat_ids_tmp.deep_view(), i, raw_indices@)[k],
        forall|i: int, k: int|
            0 <= i <= left_feat_ids_tmp@.len() && 0 <= k < raw_indices@.len() ==> r.1@[i * raw_indices@.len()
                + k] == #[trigger] id_feats(left_feat_ids_tmp.deep_view(), i, raw_indices@)[k],
        forall|p: (u32, u32)|
            #[trigger] final(scorer_builder).entries().contains_key(p) == (old(scorer_builder).entries().contains_key(p)
                && r.0@.contains(p.0) && r.1@.contains(p.1)),
        forall|p: (u32, u32)|
            #[trigger] final(scorer_builder).entries().contains_key(p) ==> final(scorer_builder).entries()[p]
                == old(scorer_builder).entries()[p],
{
    let right_feat_ids = flat_feats(right_feat_ids_tmp, raw_indices);
    let left_feat_ids = flat_feats(left_feat_ids_tmp, raw_indices);
    let right_used = set_of(&right_feat_ids);
    let left_used = set_of(&left_feat_ids);
    scorer_builder.retain_used(&right_used, &left_used);
    (right_feat_ids, left_feat_ids)
}

/// The set of the items of `v`.
fn set_of(v: &Vec<u32>) -> (r: FeatSet)
    ensures
        forall|x: u32| #[trigger] feat_set_view(r).contains(x) == v@.contains(x),
{
    let mut set = FeatSet::new();
    let n = v.len();
    let mut i: usize = 0;
    while i < n
        invariant
            i <= n == v@.len(),
            forall|x: u32| #[trigger] feat_set_view(set).contains(x) == v@.take(i as int).contains(x),
        decreases n - i,
    {
        set.insert(v[i]);
        proof {
            assert forall|x: u32| #[trigger] feat_set_view(set).contains(x) == v@.take(i + 1).contains(x) by {
                if v@.take(i as int).contains(x) {
                    let j = choose|j: int| 0 <= j < i && #[trigger] v@.take(i as int)[j] == x;
                    assert(v@.take(i + 1)[j] == x);
                }
                if x == v@[i as int] {
                    assert(v@.take(i + 1)[i as int] == x);
                }
                if v@.take(i + 1).contains(x) {
                    let j = choose|j: int| 0 <= j < i + 1 && #[trigger] v@.take(i + 1)[j] == x;
                    if j < i {
                        assert(v@.take(i as int)[j] == x);
                    }
                }
            }
        }
        i = i + 1;
    }
    assert(v@.take(n as int) =~= v@);
    set
}

/// The templates of `0..total` that are not in `kept`, in increasing order.
fn others_of(kept: &Vec<usize>, total: usize) -> (r: Vec<usize>)
    ensures
        r@ == others(kept@, total as int),
{
    let mut out: Vec<usize> = Vec::new();
    let mut i: usize = 0;
    while i < total
        invariant
            i <= total,
            out@ == others(kept@, i as int),
        decreases total - i,
    {
        let n = kept.len();
        let mut found = false;
        let mut k: usize = 0;
        while k < n
            invariant
                k <= n == kept@.len(),
                found == kept@.take(k as int).contains(i),
            decreases n - k,
        {
            proof {
                if kept@.take(k + 1).contains(i) && !found {
                    let j = choose|j: int| 0 <= j < k + 1 && #[trigger] kept@.take(k + 1)[j] == i;
                    if j < k {
                        assert(kept@.take(k as int)[j] == i);
                    }
                }
                if found {
                    let j = choose|j: int| 0 <= j < k && #[trigger] kept@.take(k as int)[j] == i;
                    assert(kept@.take(k + 1)[j] == i);
                }
                if kept@[k as int] == i {
                    assert(kept@.take(k + 1)[k as int] == i);
                }
            }
            if kept[k] == i {
                found = true;
            }
            k = k + 1;
        }
        assert(kept@.take(n as int) =~= kept@);
        if !found {
            out.push(i);
        }
        i = i + 1;
    }
    out
}

impl DualConnector {
    /// Builds a connector from the parts read from the bigram files: eight feature
    /// templates, chosen greedily so that the others make a small matrix, are
    /// scored at each query; the others are precomputed in a matrix, their costs
    /// limited to `i16`. Only the pairs of features that occur among the eight
    /// are kept in the scorer.
    ///
    /// Fails when fewer than eight templates are left over, when there are 0xffff
    /// or more ids on a side, or when a table does not fit in memory addressable
    /// by `usize`.
    pub fn from_builder(builder: RawConnectorBuilder) -> (r: Result<Self, VibratoError>)
        requires
            builder.scorer_builder.wf(),
        ensures
            r matches Ok(c) ==> {
                let rr = builder.right_feat_ids_tmp.deep_view();
                let lr = builder.left_feat_ids_tmp.deep_view();
                let s = builder.scorer_builder.entries();
                let midx = greedy(rr, lr, all_templates(builder.feat_template_size as int), 8);
                let ridx = others(midx, builder.feat_template_size as int);
                &&& c.conn_wf()
                &&& c.right_len() == rr.len() + 1
                &&& c.left_len() == lr.len() + 1
                &&& ridx.len() == 8
                &&& forall|a: int, b: int|
                    0 <= a <= rr.len() && 0 <= b <= lr.len() ==> #[trigger] c.cost_of(a, b) == (key_cost(
                        s,
                        id_feats(rr, a, midx),
                        id_feats(lr, b, midx),
                    ) as i32).wrapping_add(
                        spec_accumulate(s, id_feats(rr, a, ridx), id_feats(lr, b, ridx), 8),
                    ) as int
            },
            r matches Err(e) ==> e is InvalidFormat,
    {
        let RawConnectorBuilder {
            right_feat_ids_tmp,
            left_feat_ids_tmp,
            feat_template_size,
            scorer_builder,
        } = builder;
        let mut scorer_builder = scorer_builder;
        let ghost rr = right_feat_ids_tmp.deep_view();
        let ghost lr = left_feat_ids_tmp.deep_view();
        let ghost s = scorer_builder.entries();
        let too_large = VibratoError::invalid_format("bigram", "The tables are too large.");
        if !scorer_builder.check_fits() {
            return Err(too_large);
        }
        let full_builder = scorer_builder.copy();
        let scorer = full_builder.build();
        let matrix_indices = remove_feature_templates_greedy(
            SIMD_SIZE,
            &right_feat_ids_tmp,
            &left_feat_ids_tmp,
            feat_template_size,
        );
        let raw_indices = others_of(&matrix_indices, feat_template_size);
        if raw_indices.len() != SIMD_SIZE {
            return Err(
                VibratoError::invalid_format("bigram", "There must be more than eight feature templates."),
            );
        }
        if right_feat_ids_tmp.len() >= 0xffff || left_feat_ids_tmp.len() >= 0xffff {
            return Err(too_large);
        }
        let (right_conn_id_map, right_keys) = match generate_feature_map(&right_feat_ids_tmp, &matrix_indices) {
            Some(x) => x,
            None => {
                return Err(too_large);
            },
        };
        let (left_conn_id_map, left_keys) = match generate_feature_map(&left_feat_ids_tmp, &matrix_indices) {
            Some(x) => x,
            None => {
                return Err(too_large);
            },
        };
        let matrix_connector = match create_matrix_connector(&right_keys, &left_keys, &scorer) {
            Some(m) => m,
            None => {
                return Err(too_large);
            },
        };
        let (right_feat_ids, left_feat_ids) = create_raw_connector(
            &right_feat_ids_tmp,
            &left_feat_ids_tmp,
            &raw_indices,
            &mut scorer_builder,
        );
        if !scorer_builder.check_fits() {
            return Err(too_large);
        }
        let ghost kept = scorer_builder.entries();
        let raw_scorer = scorer_builder.build();
        let right_blocks = U31Array::to_simd_vec(right_feat_ids.as_slice());
        let left_blocks = U31Array::to_simd_vec(left_feat_ids.as_slice());
        proof {
            lemma_simd_pad(right_feat_ids@, right_blocks@);
            lemma_simd_pad(left_feat_ids@, left_blocks@);
            let nr = rr.len();
            let nl = lr.len();
            assert((8 * (nr + 1) + 7) / 8 == nr + 1);
            assert((8 * (nl + 1) + 7) / 8 == nl + 1);
            assert(pad8(right_feat_ids@) =~= right_feat_ids@);
            assert(pad8(left_feat_ids@) =~= left_feat_ids@);
        }
        let c = DualConnector::new(
            matrix_connector,
            right_conn_id_map,
            left_conn_id_map,
            right_blocks,
            left_blocks,
            raw_scorer,
        );
        proof {
            let midx = matrix_indices@;
            let ridx = raw_indices@;
            assert forall|a: int, b: int| 0 <= a <= rr.len() && 0 <= b <= lr.len() implies #[trigger] c.cost_of(
                a,
                b,
            ) == (key_cost(s, id_feats(rr, a, midx), id_feats(lr, b, midx)) as i32).wrapping_add(
                spec_accumulate(s, id_feats(rr, a, ridx), id_feats(lr, b, ridx), 8),
            ) as int by {
                let ra = c.right_blocks()[a];
                let lb = c.left_blocks()[b];
                assert forall|k: int| 0 <= k < 8 implies ra.0@[k] == id_feats(rr, a, ridx)[k] by {
                    lemma_flatten_index(right_blocks@, a, k);
                    assert(8 * a + k == a * 8 + k);
                }
                assert forall|k: int| 0 <= k < 8 implies lb.0@[k] == id_feats(lr, b, ridx)[k] by {
                    lemma_flatten_index(left_blocks@, b, k);
                    assert(8 * b + k == b * 8 + k);
                }
                assert(ra.0@ =~= id_feats(rr, a, ridx));
                assert(lb.0@ =~= id_feats(lr, b, ridx));
                assert forall|k: int| 0 <= k < 8 implies #[trigger] cost_or_zero(kept, ra.0@[k], lb.0@[k])
                    == cost_or_zero(s, ra.0@[k], lb.0@[k]) by {
                    assert(right_feat_ids@[a * 8 + k] == ra.0@[k]);
                    assert(left_feat_ids@[b * 8 + k] == lb.0@[k]);
                    assert(right_feat_ids@.contains(ra.0@[k]));
                    assert(left_feat_ids@.contains(lb.0@[k]));
                }
                lemma_accumulate_agree(kept, s, ra.0@, lb.0@, 8);
            }
        }
        Ok(c)
    }

    /// Reads `bigram.right`, `bigram.left` and `bigram.cost`, as
    /// [`RawConnectorBuilder::from_readers`] does, and builds the connector with
    /// [`Self::from_builder`].
    pub fn from_readers(right_rdr: &[u8], left_rdr: &[u8], cost_rdr: &[u8]) -> (r: Result<
        Self,
        VibratoError,
    >)
        ensures
            costs_fit(cost_rdr@) ==> (bigram_costs(cost_rdr@) matches Err(f) ==> r matches Err(e)
                && e.fault() == f),
            !costs_fit(cost_rdr@) ==> (r matches Err(e) && e is TryFromInt),
            r matches Ok(c) ==> bigram_costs(cost_rdr@) is Ok && feature_file_ok(right_rdr@)
                && feature_file_ok(left_rdr@) && c.conn_wf() && c.right_len() == spec_lines(right_rdr@).len()
                + 1 && c.left_len() == spec_lines(left_rdr@).len() + 1,
            r matches Ok(c) ==> (bigram_costs(cost_rdr@) matches Ok(st) && dual_costs(
                c,
                st.2,
                file_rows(st.0, right_rdr@),
                file_rows(st.1, left_rdr@),
            )),
    {
        let builder = RawConnectorBuilder::from_readers(right_rdr, left_rdr, cost_rdr)?;
        Self::from_builder(builder)
    }
}

/// The costs of `c`, built from the feature rows `rr` and `lr` and the bigram
/// costs `s`: for each pair of ids, the cost of the features at the positions
/// that the matrix holds, plus the cost of the features at the others.
pub open spec fn dual_costs(c: DualConnector, s: Map<(u32, u32), i32>, rr: Seq<Seq<u32>>, lr: Seq<Seq<u32>>) -> bool {
    let t = max_row_len(rr + lr) as int;
    let midx = greedy(rr, lr, all_templates(t), 8);
    let ridx = others(midx, t);
    forall|a: int, b: int|
        0 <= a <= rr.len() && 0 <= b <= lr.len() ==> #[trigger] c.cost_of(a, b) == (key_cost(
            s,
            id_feats(rr, a, midx),
            id_feats(lr, b, midx),
        ) as i32).wrapping_add(spec_accumulate(s, id_feats(rr, a, ridx), id_feats(lr, b, ridx), 8)) as int
}

impl Connector for DualConnector {
    open spec fn conn_wf(&self) -> bool {
        &&& self.matrix_view().conn_wf()
        &&& self.right_ids().len() == self.right_blocks().len() <= 0x10000
        &&& self.left_ids().len() == self.left_blocks().len() <= 0x10000
        &&& forall|i: int|
            0 <= i < self.right_ids().len() ==> (#[trigger] self.right_ids()[i] as int)
                < self.matrix_view().right_len()
        &&& forall|i: int|
            0 <= i < self.left_ids().len() ==> (#[trigger] self.left_ids()[i] as int)
                < self.matrix_view().left_len()
        &&& covers(self.right_ids(), self.matrix_view().right_len() as int)
        &&& covers(self.left_ids(), self.matrix_view().left_len() as int)
        &&& self.raw_wf()
    }

    open spec fn left_len(&self) -> nat {
        self.left_ids().len()
    }

    open spec fn right_len(&self) -> nat {
        self.right_ids().len()
    }

    open spec fn cost_of(&self, right_id: int, left_id: int) -> int {
        (self.matrix_cost(right_id, left_id) as i32).wrapping_add(
            block_cost(self.raw_view(), self.right_blocks()[right_id], self.left_blocks()[left_id]),
        ) as int
    }

    fn num_left(&self) -> (r: usize) {
        self.left_conn_id_map.len()
    }

    fn num_right(&self) -> (r: usize) {
        self.right_conn_id_map.len()
    }

    fn map_connection_ids(&mut self, mapper: &ConnIdMapper) {
        let right_map = mapper.right_slice();
        let left_map = mapper.left_slice();
        let ghost old_r = self.right_ids();
        let ghost old_l = self.left_ids();
        let new_right_feat_ids = permute(&self.right_feat_ids, U31Array([0u32; 8]), right_map);
        let new_right_conn_id_map = permute(&self.right_conn_id_map, 0u16, right_map);
        let new_left_feat_ids = permute(&self.left_feat_ids, U31Array([0u32; 8]), left_map);
        let new_left_conn_id_map = permute(&self.left_conn_id_map, 0u16, left_map);
        let ghost mat = self.matrix_view();
        let ghost pr = new_right_conn_id_map@;
        let ghost pl = new_left_conn_id_map@;
        proof {
            assert forall|i: int| 0 <= i < pr.len() implies (#[trigger] pr[i] as int) < mat.right_len() by {
                assert(old_r[0] < mat.right_len());
                if pr[i] != 0 {
                    let a = choose|a: int| 0 <= a < old_r.len() && old_r[a] == pr[i];
                    assert(old_r[a] < mat.right_len());
                }
            }
            assert forall|i: int| 0 <= i < pl.len() implies (#[trigger] pl[i] as int) < mat.left_len() by {
                assert(old_l[0] < mat.left_len());
                if pl[i] != 0 {
                    let a = choose|a: int| 0 <= a < old_l.len() && old_l[a] == pl[i];
                    assert(old_l[a] < mat.left_len());
                }
            }
            assert forall|x: int| 0 <= x < mat.right_len() implies #[trigger] occurs(pr, x) by {
                assert(occurs(old_r, x));
                let j = choose|j: int| 0 <= j < old_r.len() && #[trigger] old_r[j] as int == x;
                assert(pr[mapper.right_map()[j] as int] == old_r[j]);
            }
            assert forall|x: int| 0 <= x < mat.left_len() implies #[trigger] occurs(pl, x) by {
                assert(occurs(old_l, x));
                let j = choose|j: int| 0 <= j < old_l.len() && #[trigger] old_l[j] as int == x;
                assert(pl[mapper.left_map()[j] as int] == old_l[j]);
            }
        }
        let mut right_ids = new_right_conn_id_map;
        let mut left_ids = new_left_conn_id_map;
        let matrix_mapper_right = renumber(&mut right_ids, self.matrix_connector.num_right());
        let matrix_mapper_left = renumber(&mut left_ids, self.matrix_connector.num_left());
        let matrix_mapper = ConnIdMapper::new(matrix_mapper_left, matrix_mapper_right);
        self.matrix_connector.map_connection_ids(&matrix_mapper);
        self.right_feat_ids = new_right_feat_ids;
        self.right_conn_id_map = right_ids;
        self.left_feat_ids = new_left_feat_ids;
        self.left_conn_id_map = left_ids;
        proof {
            let nm = self.matrix_view();
            let rm = matrix_mapper.right_map();
            let lm = matrix_mapper.left_map();
            assert forall|r: int, l: int|
                0 <= r < old(self).right_len() && 0 <= l < old(self).left_len() implies #[trigger] self.cost_of(
                mapper.right_map()[r] as int,
                mapper.left_map()[l] as int,
            ) == old(self).cost_of(r, l) by {
                let nr = mapper.right_map()[r] as int;
                let nl = mapper.left_map()[l] as int;
                assert(pr[nr] == old_r[r]);
                assert(pl[nl] == old_l[l]);
                assert(self.right_ids()[nr] == rm[old_r[r] as int]);
                assert(self.left_ids()[nl] == lm[old_l[l] as int]);
                assert(nm.cost_of(rm[old_r[r] as int] as int, lm[old_l[l] as int] as int) == mat.cost_of(
                    old_r[r] as int,
                    old_l[l] as int,
                ));
            }
        }
    }
}

impl ConnectorCost for DualConnector {
    fn cost(&self, right_id: u16, left_id: u16) -> (r: i32) {
        let right_conn_id = self.right_conn_id_map[right_id as usize];
        let left_conn_id = self.left_conn_id_map[left_id as usize];
        let matrix_cost = self.matrix_connector.cost(right_conn_id, left_conn_id);
        let a = [self.right_feat_ids[right_id as usize]];
        let b = [self.left_feat_ids[left_id as usize]];
        let raw_cost = self.raw_scorer.accumulate_cost(&a, &b);
        proof {
            lemma_flatten_one(a[0]);
            lemma_flatten_one(b[0]);
            assert(a@ == seq![a[0]]);
            assert(b@ == seq![b[0]]);
        }
        matrix_cost.wrapping_add(raw_cost)
    }
}

} // verus!

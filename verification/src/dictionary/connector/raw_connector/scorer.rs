//! Scorer of feature pairs: a two-level double array that maps a pair of feature
//! ids to a connection cost.
use vstd::prelude::*;

use crate::utils::{feat_set_view, FeatSet};

verus! {

/// Value of an unused check.
pub const UNUSED_CHECK: u32 = 0xffff_ffff;

/// Number of feature ids in one [`U31Array`].
pub const SIMD_SIZE: usize = 8;

/// Feature ids are below 2^31.
pub open spec fn is_u31(x: u32) -> bool {
    x < 0x8000_0000
}

/// A block of eight feature ids.
#[derive(Clone, Copy, Debug)]
pub struct U31Array(pub [u32; 8]);

/// The feature ids of a sequence of blocks, in order.
pub open spec fn flatten(v: Seq<U31Array>) -> Seq<u32>
    decreases v.len(),
{
    if v.len() == 0 {
        seq![]
    } else {
        flatten(v.drop_last()) + v.last().0@
    }
}

pub proof fn lemma_flatten_len(v: Seq<U31Array>)
    ensures
        flatten(v).len() == 8 * v.len(),
    decreases v.len(),
{
    if v.len() > 0 {
        lemma_flatten_len(v.drop_last());
    }
}

impl U31Array {
    /// Packs `data` into blocks of eight, padding the last one with zeros.
    pub fn to_simd_vec(data: &[u32]) -> (r: Vec<Self>)
        ensures
            r@.len() == (data@.len() + 7) / 8,
            flatten(r@).take(data@.len() as int) == data@,
            forall|i: int| data@.len() <= i < flatten(r@).len() ==> flatten(r@)[i] == 0,
    {
        let mut result: Vec<Self> = Vec::new();
        let n = data.len();
        let mut i: usize = 0;
        while i < n
            invariant
                i <= n == data@.len(),
                i % 8 == 0,
                result@.len() == i / 8,
                flatten(result@) == data@.take(i as int),
            decreases n - i,
        {
            let mut array: [u32; 8] = [0; 8];
            let mut j: usize = 0;
            while j < 8
                invariant
                    j <= 8,
                    i <= n == data@.len(),
                    array@.len() == 8,
                    forall|k: int| 0 <= k < j ==> array@[k] == (if i + k < n { data@[i + k] } else { 0 }),
                    forall|k: int| j <= k < 8 ==> array@[k] == 0,
                decreases 8 - j,
            {
                if j < n - i {
                    array[j] = data[i + j];
                }
                j = j + 1;
            }
            let ghost old_r = result@;
            result.push(U31Array(array));
            proof {
                lemma_flatten_len(old_r);
                assert(result@.drop_last() =~= old_r);
            }
            let next = if n - i >= 8 { i + 8 } else { n };
            if n - i >= 8 {
                assert(flatten(result@) =~= data@.take(next as int));
                i = next;
            } else {
                assert(flatten(result@).take(n as int) =~= data@);
                assert forall|k: int| n <= k < flatten(result@).len() implies flatten(result@)[k] == 0 by {
                    lemma_flatten_len(result@);
                    assert(flatten(result@)[k] == array@[k - i]);
                }
                assert(result@.len() == (n + 7) / 8);
                return result;
            }
        }
        assert(data@.take(n as int) =~= data@);
        proof {
            lemma_flatten_len(result@);
        }
        result
    }
}

/// The cost stored for `key` in a row sorted by key, if any.
pub open spec fn row_get(row: Seq<(u32, i32)>, key: u32) -> Option<i32>
    decreases row.len(),
{
    if row.len() == 0 {
        None
    } else if row.last().0 == key {
        Some(row.last().1)
    } else {
        row_get(row.drop_last(), key)
    }
}

/// Keys of a row are strictly increasing and below 2^31.
pub open spec fn row_ok(row: Seq<(u32, i32)>) -> bool {
    &&& forall|i: int, j: int| 0 <= i < j < row.len() ==> row[i].0 < row[j].0
    &&& forall|i: int| 0 <= i < row.len() ==> is_u31(#[trigger] row[i].0)
}

/// The pairs of keys and their costs in a list of rows.
pub open spec fn rows_map(rows: Seq<Seq<(u32, i32)>>) -> Map<(u32, u32), i32> {
    Map::new(
        |p: (u32, u32)| (p.0 as int) < rows.len() && row_get(rows[p.0 as int], p.1) is Some,
        |p: (u32, u32)| row_get(rows[p.0 as int], p.1)->0,
    )
}

/// Builder of a [`Scorer`]: a list of rows indexed by the first key.
pub struct ScorerBuilder {
    trie: Vec<Vec<(u32, i32)>>,
}

impl ScorerBuilder {
    /// The rows, indexed by the first key.
    pub closed spec fn rows(&self) -> Seq<Seq<(u32, i32)>> {
        self.trie@.map_values(|v: Vec<(u32, i32)>| v@)
    }

    /// The pairs inserted so far with their costs.
    pub open spec fn entries(&self) -> Map<(u32, u32), i32> {
        rows_map(self.rows())
    }

    /// Every row is sorted and the number of rows fits the feature ids.
    pub open spec fn wf(&self) -> bool {
        &&& self.rows().len() <= 0x8000_0000
        &&& forall|k: int| 0 <= k < self.rows().len() ==> row_ok(#[trigger] self.rows()[k])
    }

    /// An empty builder.
    pub fn new() -> (r: Self)
        ensures
            r.wf(),
            r.entries() == Map::<(u32, u32), i32>::empty(),
    {
        let r = Self { trie: Vec::new() };
        assert(r.rows() =~= Seq::<Seq<(u32, i32)>>::empty());
        assert(r.entries() =~= Map::<(u32, u32), i32>::empty());
        r
    }

    /// Sets the cost of the pair of keys, replacing a previous one.
    pub fn insert(&mut self, key1: u32, key2: u32, cost: i32)
        requires
            old(self).wf(),
            is_u31(key1),
            is_u31(key2),
        ensures
            final(self).wf(),
            final(self).entries() == old(self).entries().insert((key1, key2), cost),
    {
        let ghost old_rows = self.rows();
        let k1 = key1 as usize;
        if k1 >= self.trie.len() {
            let mut n = self.trie.len();
            while n <= k1
                invariant
                    n == self.trie@.len(),
                    k1 < 0x8000_0000,
                    n <= k1 + 1,
                    self.rows().take(old_rows.len() as int) == old_rows,
                    old_rows.len() <= n,
                    forall|k: int| old_rows.len() <= k < n ==> self.rows()[k] == Seq::<(u32, i32)>::empty(),
                decreases k1 + 1 - n,
            {
                let ghost before = self.trie@;
                self.trie.push(Vec::new());
                assert(self.rows() =~= before.map_values(|v: Vec<(u32, i32)>| v@).push(Seq::<(u32, i32)>::empty()));
                n = n + 1;
            }
        }
        let ghost mid_rows = self.rows();
        assert forall|k: int| 0 <= k < mid_rows.len() implies row_ok(#[trigger] mid_rows[k]) by {
            if k < old_rows.len() {
                assert(mid_rows[k] == mid_rows.take(old_rows.len() as int)[k]);
            } else {
                assert(mid_rows[k] == Seq::<(u32, i32)>::empty());
            }
        }
        assert forall|p: (u32, u32)| p.0 != key1 || p.1 != key2 implies
            #[trigger] rows_map(mid_rows).contains_key(p) == old(self).entries().contains_key(p)
            && (rows_map(mid_rows).contains_key(p) ==> rows_map(mid_rows)[p] == old(self).entries()[p]) by {
            if (p.0 as int) < old_rows.len() {
                assert(mid_rows[p.0 as int] == mid_rows.take(old_rows.len() as int)[p.0 as int]);
            } else if (p.0 as int) < mid_rows.len() {
                assert(mid_rows[p.0 as int] == Seq::<(u32, i32)>::empty());
            }
        }
        let mut row: Vec<(u32, i32)> = Vec::new();
        std::mem::swap(&mut row, &mut self.trie[k1]);
        let ghost old_row = row@;
        assert(old_row == mid_rows[k1 as int]);
        let n = row.len();
        let mut i: usize = 0;
        while i < n && row[i].0 < key2
            invariant
                i <= n == row@.len(),
                row@ == old_row,
                row_ok(old_row),
                forall|j: int| 0 <= j < i ==> old_row[j].0 < key2,
            decreases n - i,
        {
            i = i + 1;
        }
        if i < n && row[i].0 == key2 {
            row.set(i, (key2, cost));
        } else {
            row.insert(i, (key2, cost));
        }
        let ghost new_row = row@;
        proof {
            lemma_row_insert(old_row, key2, cost, i as int);
        }
        self.trie.set(k1, row);
        assert(self.rows() =~= mid_rows.update(k1 as int, new_row));
        assert forall|k: int| 0 <= k < self.rows().len() implies row_ok(#[trigger] self.rows()[k]) by {
            if k != k1 {
                assert(self.rows()[k] == mid_rows[k]);
            }
        }
        assert(self.entries() =~= old(self).entries().insert((key1, key2), cost)) by {
            assert forall|p: (u32, u32)| #[trigger] self.entries().contains_key(p) == old(self).entries().insert((key1, key2), cost).contains_key(p) by {
                if p.0 != key1 {
                    if (p.0 as int) < self.rows().len() {
                        assert(self.rows()[p.0 as int] == mid_rows[p.0 as int]);
                    }
                }
            }
            assert forall|p: (u32, u32)| #[trigger] self.entries().contains_key(p) implies self.entries()[p] == old(self).entries().insert((key1, key2), cost)[p] by {
                if p.0 != key1 {
                    assert(self.rows()[p.0 as int] == mid_rows[p.0 as int]);
                }
            }
        }
    }
}

/// The pairs of a row whose keys are in `keep`, in order.
pub open spec fn row_keep(row: Seq<(u32, i32)>, keep: Set<u32>) -> Seq<(u32, i32)>
    decreases row.len(),
{
    if row.len() == 0 {
        seq![]
    } else {
        let r = row_keep(row.drop_last(), keep);
        if keep.contains(row.last().0) {
            r.push(row.last())
        } else {
            r
        }
    }
}

/// Keeping some pairs of a sorted row gives a sorted row with the kept keys.
proof fn lemma_row_keep(row: Seq<(u32, i32)>, keep: Set<u32>, bound: int)
    requires
        row_ok(row),
        forall|j: int| 0 <= j < row.len() ==> row[j].0 < bound,
    ensures
        row_ok(row_keep(row, keep)),
        forall|i: int| 0 <= i < row_keep(row, keep).len() ==> row_keep(row, keep)[i].0 < bound,
        forall|k: u32|
            #[trigger] row_get(row_keep(row, keep), k) == if keep.contains(k) {
                row_get(row, k)
            } else {
                None
            },
    decreases row.len(),
{
    if row.len() > 0 {
        let p = row.drop_last();
        let last = row.last();
        assert(row_ok(p));
        lemma_row_keep(p, keep, last.0 as int);
        let r = row_keep(p, keep);
        assert forall|k: u32| k == last.0 implies row_get(p, k) is None by {
            lemma_row_get_below(p, k);
        }
        if keep.contains(last.0) {
            assert(r.push(last).drop_last() =~= r);
        }
        assert forall|k: u32|
            #[trigger] row_get(row_keep(row, keep), k) == if keep.contains(k) {
                row_get(row, k)
            } else {
                None
            } by {
            assert(row_get(r, k) == if keep.contains(k) {
                row_get(p, k)
            } else {
                None
            });
        }
    }
}

/// A key not below all keys of a sorted row... is absent when above them all.
proof fn lemma_row_get_below(row: Seq<(u32, i32)>, k: u32)
    requires
        forall|j: int| 0 <= j < row.len() ==> row[j].0 < k,
    ensures
        row_get(row, k) is None,
    decreases row.len(),
{
    if row.len() > 0 {
        lemma_row_get_below(row.drop_last(), k);
    }
}

/// Inserting into a sorted row at the first position whose key is not smaller.
proof fn lemma_row_insert(row: Seq<(u32, i32)>, key: u32, cost: i32, i: int)
    requires
        row_ok(row),
        is_u31(key),
        0 <= i <= row.len(),
        forall|j: int| 0 <= j < i ==> row[j].0 < key,
        i == row.len() || row[i].0 >= key,
    ensures
        ({
            let new_row = if i < row.len() && row[i].0 == key {
                row.update(i, (key, cost))
            } else {
                row.insert(i, (key, cost))
            };
            &&& row_ok(new_row)
            &&& row_get(new_row, key) == Some(cost)
            &&& forall|k: u32| k != key ==> row_get(new_row, k) == row_get(row, k)
        }),
{
    let new_row = if i < row.len() && row[i].0 == key {
        row.update(i, (key, cost))
    } else {
        row.insert(i, (key, cost))
    };
    assert(row_ok(new_row));
    lemma_row_get_index(new_row, i);
    assert forall|k: u32| k != key implies row_get(new_row, k) == row_get(row, k) by {
        lemma_row_get_char(row, k);
        lemma_row_get_char(new_row, k);
        if row_get(row, k) is Some {
            let j = choose|j: int| 0 <= j < row.len() && row[j].0 == k;
            if j < i {
                assert(new_row[j] == row[j]);
                lemma_row_get_index(new_row, j);
                lemma_row_get_index(row, j);
            } else {
                if i < row.len() && row[i].0 == key {
                    assert(new_row[j] == row[j]);
                    lemma_row_get_index(new_row, j);
                } else {
                    assert(new_row[j + 1] == row[j]);
                    lemma_row_get_index(new_row, j + 1);
                }
                lemma_row_get_index(row, j);
            }
        } else {
            if row_get(new_row, k) is Some {
                let j = choose|j: int| 0 <= j < new_row.len() && new_row[j].0 == k;
                if j < i {
                    assert(row[j].0 == k);
                } else if j == i {
                } else if i < row.len() && row[i].0 == key {
                    assert(row[j].0 == k);
                } else {
                    assert(row[j - 1].0 == k);
                }
            }
        }
    }
}

/// In a sorted row, the entry at `j` is what `row_get` finds for its key.
proof fn lemma_row_get_index(row: Seq<(u32, i32)>, j: int)
    requires
        forall|a: int, b: int| 0 <= a < b < row.len() ==> row[a].0 < row[b].0,
        0 <= j < row.len(),
    ensures
        row_get(row, row[j].0) == Some(row[j].1),
    decreases row.len(),
{
    if j < row.len() - 1 {
        assert(row.last().0 != row[j].0);
        lemma_row_get_index(row.drop_last(), j);
    }
}

/// `row_get` finds a key exactly when some entry has it.
proof fn lemma_row_get_char(row: Seq<(u32, i32)>, k: u32)
    ensures
        row_get(row, k) is Some <==> exists|j: int| 0 <= j < row.len() && row[j].0 == k,
    decreases row.len(),
{
    if row.len() > 0 {
        lemma_row_get_char(row.drop_last(), k);
        if row_get(row.drop_last(), k) is Some {
            let j = choose|j: int| 0 <= j < row.drop_last().len() && row.drop_last()[j].0 == k;
            assert(row[j].0 == k);
        }
        if exists|j: int| 0 <= j < row.len() && row[j].0 == k {
            let j = choose|j: int| 0 <= j < row.len() && row[j].0 == k;
            if j < row.len() - 1 {
                assert(row.drop_last()[j].0 == k);
            }
        }
    }
}

/// The scorer: a double array where the cost of `(key1, key2)` is at position
/// `bases[key1] ^ key2` when the check there is `key1`.
pub struct Scorer {
    bases: Vec<u64>,
    checks: Vec<u32>,
    costs: Vec<i32>,
    entries: Ghost<Map<(u32, u32), i32>>,
}

/// The cost of a pair in a map of pairs, if any.
pub open spec fn map_get(m: Map<(u32, u32), i32>, k1: u32, k2: u32) -> Option<i32> {
    if m.contains_key((k1, k2)) {
        Some(m[(k1, k2)])
    } else {
        None
    }
}

impl View for Scorer {
    type V = Map<(u32, u32), i32>;

    closed spec fn view(&self) -> Map<(u32, u32), i32> {
        self.entries@
    }
}

impl Scorer {
    /// What the double array gives for a pair.
    closed spec fn lookup(&self, k1: u32, k2: u32) -> Option<i32> {
        if (k1 as int) < self.bases@.len() {
            let pos = self.bases@[k1 as int] ^ (k2 as u64);
            if (pos as int) < self.checks@.len() && self.checks@[pos as int] == k1 {
                Some(self.costs@[pos as int])
            } else {
                None
            }
        } else {
            None
        }
    }

    /// The double array gives exactly the stored pairs.
    pub closed spec fn wf(&self) -> bool {
        &&& self.costs@.len() == self.checks@.len()
        &&& forall|k1: u32, k2: u32| #[trigger] self.lookup(k1, k2) == map_get(self@, k1, k2)
    }

    /// A scorer without any pair.
    pub fn default() -> (r: Self)
        ensures
            r.wf(),
            r@ == Map::<(u32, u32), i32>::empty(),
    {
        Scorer {
            bases: Vec::new(),
            checks: Vec::new(),
            costs: Vec::new(),
            entries: Ghost(Map::empty()),
        }
    }

    /// The cost of the pair `(key1, key2)`, if stored.
    pub fn retrieve_cost(&self, key1: u32, key2: u32) -> (r: Option<i32>)
        requires
            self.wf(),
        ensures
            r == map_get(self@, key1, key2),
    {
        assert(self.lookup(key1, key2) == map_get(self@, key1, key2));
        if (key1 as usize) < self.bases.len() {
            let pos = self.bases[key1 as usize] ^ (key2 as u64);
            if pos < self.checks.len() as u64 {
                let p = pos as usize;
                if self.checks[p] == key1 {
                    return Some(self.costs[p]);
                }
            }
        }
        None
    }

    /// The sum (wrapping at 32 bits) of the costs of the pairs formed by the ids of
    /// `keys1` and `keys2` at equal positions; pairs not stored count 0.
    pub fn accumulate_cost(&self, keys1: &[U31Array], keys2: &[U31Array]) -> (r: i32)
        requires
            self.wf(),
        ensures
            r == spec_accumulate(self@, flatten(keys1@), flatten(keys2@), (8 * min_len(keys1@.len(), keys2@.len())) as int),
    {
        let n = if keys1.len() < keys2.len() { keys1.len() } else { keys2.len() };
        let ghost f1 = flatten(keys1@);
        let ghost f2 = flatten(keys2@);
        proof {
            lemma_flatten_len(keys1@);
            lemma_flatten_len(keys2@);
        }
        let mut score: i32 = 0;
        let mut i: usize = 0;
        while i < n
            invariant
                i <= n,
                n == min_len(keys1@.len(), keys2@.len()),
                n <= keys1@.len(),
                n <= keys2@.len(),
                f1 == flatten(keys1@),
                f2 == flatten(keys2@),
                f1.len() == 8 * keys1@.len(),
                f2.len() == 8 * keys2@.len(),
                self.wf(),
                score == spec_accumulate(self@, f1, f2, 8 * i),
            decreases n - i,
        {
            let a = keys1[i].0;
            let b = keys2[i].0;
            let mut j: usize = 0;
            while j < 8
                invariant
                    j <= 8,
                    i < n,
                    n <= keys1@.len(),
                    n <= keys2@.len(),
                    f1 == flatten(keys1@),
                    f2 == flatten(keys2@),
                    a@ == keys1@[i as int].0@,
                    b@ == keys2@[i as int].0@,
                    self.wf(),
                    score == spec_accumulate(self@, f1, f2, 8 * i + j),
                decreases 8 - j,
            {
                proof {
                    lemma_flatten_index(keys1@, i as int, j as int);
                    lemma_flatten_index(keys2@, i as int, j as int);
                }
                let w = match self.retrieve_cost(a[j], b[j]) {
                    Some(w) => w,
                    None => 0,
                };
                score = score.wrapping_add(w);
                j = j + 1;
            }
            i = i + 1;
        }
        score
    }
}

/// The smaller of two lengths.
pub open spec fn min_len(a: nat, b: nat) -> nat {
    if a < b { a } else { b }
}

/// The cost of a pair, 0 if not stored.
pub open spec fn cost_or_zero(m: Map<(u32, u32), i32>, k1: u32, k2: u32) -> i32 {
    if m.contains_key((k1, k2)) { m[(k1, k2)] } else { 0 }
}

/// The wrapping sum of the costs of the first `n` pairs `(a[i], b[i])`.
pub open spec fn spec_accumulate(m: Map<(u32, u32), i32>, a: Seq<u32>, b: Seq<u32>, n: int) -> i32
    decreases n,
{
    if n <= 0 {
        0
    } else {
        spec_accumulate(m, a, b, n - 1).wrapping_add(cost_or_zero(m, a[n - 1], b[n - 1]))
    }
}

pub proof fn lemma_flatten_index(v: Seq<U31Array>, i: int, j: int)
    requires
        0 <= i < v.len(),
        0 <= j < 8,
    ensures
        flatten(v)[8 * i + j] == v[i].0@[j],
    decreases v.len(),
{
    lemma_flatten_len(v.drop_last());
    if i < v.len() - 1 {
        lemma_flatten_index(v.drop_last(), i, j);
    }
}

/// The smallest power of two above `x`, searched upward from `p`.
pub open spec fn pow2_above_from(x: int, p: int) -> int
    decreases (if p > x { 0 } else { x + 1 - p }),
    when p >= 1
{
    if p > x {
        p
    } else {
        pow2_above_from(x, 2 * p)
    }
}

/// Room a row may need beyond the end of the array: twice the smallest power of
/// two above its largest key.
pub open spec fn row_span(row: Seq<(u32, i32)>) -> int {
    if row.len() == 0 {
        0
    } else {
        2 * pow2_above_from(row.last().0 as int, 1)
    }
}

/// The room all rows may need.
pub open spec fn total_span(rows: Seq<Seq<(u32, i32)>>) -> int
    decreases rows.len(),
{
    if rows.len() == 0 {
        0
    } else {
        total_span(rows.drop_last()) + row_span(rows.last())
    }
}

proof fn lemma_total_span_mono(rows: Seq<Seq<(u32, i32)>>, k: int)
    requires
        0 <= k <= rows.len(),
    ensures
        0 <= total_span(rows.take(k)) <= total_span(rows),
    decreases rows.len() - k,
{
    if k < rows.len() {
        lemma_total_span_mono(rows, k + 1);
        assert(rows.take(k + 1).drop_last() =~= rows.take(k));
        lemma_pow2_pos(rows.take(k + 1).last());
        lemma_total_nonneg(rows.take(k));
    } else {
        assert(rows.take(k) =~= rows);
        lemma_total_nonneg(rows);
    }
}

proof fn lemma_pow2_pos(row: Seq<(u32, i32)>)
    ensures
        row_span(row) >= 0,
{
    if row.len() > 0 {
        lemma_pow2_from_props(row.last().0 as int, 1);
    }
}

proof fn lemma_total_nonneg(rows: Seq<Seq<(u32, i32)>>)
    ensures
        total_span(rows) >= 0,
    decreases rows.len(),
{
    if rows.len() > 0 {
        lemma_total_nonneg(rows.drop_last());
        lemma_pow2_pos(rows.last());
    }
}

proof fn lemma_pow2_from_props(x: int, p: int)
    requires
        p >= 1,
    ensures
        pow2_above_from(x, p) >= p,
        pow2_above_from(x, p) > x,
    decreases (if p > x { 0 } else { x + 1 - p }),
{
    if p <= x {
        lemma_pow2_from_props(x, 2 * p);
    }
}

/// Whether every position `base ^ key` of the row is past the end or unused.
fn check_base(base: u64, row: &Vec<(u32, i32)>, checks: &Vec<u32>) -> (r: bool)
    ensures
        r == forall|m: int|
            0 <= m < row@.len() ==> base_free(base, #[trigger] row@[m].0, checks@),
{
    let n = row.len();
    let mut m: usize = 0;
    while m < n
        invariant
            m <= n == row@.len(),
            forall|t: int| 0 <= t < m ==> base_free(base, #[trigger] row@[t].0, checks@),
        decreases n - m,
    {
        let pos = base ^ (row[m].0 as u64);
        if pos < checks.len() as u64 && checks[pos as usize] != UNUSED_CHECK {
            assert(!base_free(base, row@[m as int].0, checks@));
            return false;
        }
        m = m + 1;
    }
    true
}

/// The position of `key` under `base` is past the end of `checks` or unused.
pub open spec fn base_free(base: u64, key: u32, checks: Seq<u32>) -> bool {
    let pos = base ^ (key as u64);
    pos as int >= checks.len() || checks[pos as int] == UNUSED_CHECK
}

impl ScorerBuilder {
    /// A copy of the builder.
    pub fn copy(&self) -> (r: Self)
        ensures
            r.rows() == self.rows(),
    {
        let mut trie: Vec<Vec<(u32, i32)>> = Vec::new();
        let n = self.trie.len();
        let mut i: usize = 0;
        while i < n
            invariant
                i <= n == self.trie@.len(),
                trie@.len() == i,
                forall|k: int| 0 <= k < i ==> (#[trigger] trie@[k])@ == self.trie@[k]@,
            decreases n - i,
        {
            trie.push(vstd::slice::slice_to_vec(self.trie[i].as_slice()));
            i = i + 1;
        }
        let r = Self { trie };
        assert(r.rows() =~= self.rows());
        r
    }

    /// Keeps the pairs whose first key is in `right` and second key in `left`.
    pub fn retain_used(&mut self, right: &FeatSet, left: &FeatSet)
        requires
            old(self).wf(),
        ensures
            final(self).wf(),
            forall|p: (u32, u32)|
                #[trigger] final(self).entries().contains_key(p) == (old(self).entries().contains_key(p)
                    && feat_set_view(*right).contains(p.0) && feat_set_view(*left).contains(p.1)),
            forall|p: (u32, u32)|
                #[trigger] final(self).entries().contains_key(p) ==> final(self).entries()[p] == old(
                    self,
                ).entries()[p],
    {
        let ghost old_rows = self.rows();
        let ghost keep = feat_set_view(*left);
        let n = self.trie.len();
        let mut i: usize = 0;
        while i < n
            invariant
                i <= n == self.trie@.len() == old_rows.len(),
                n <= 0x8000_0000,
                keep == feat_set_view(*left),
                forall|k: int| 0 <= k < n ==> row_ok(#[trigger] old_rows[k]),
                forall|k: int| i <= k < n ==> #[trigger] self.rows()[k] == old_rows[k],
                forall|k: int|
                    0 <= k < i ==> #[trigger] self.rows()[k] == if feat_set_view(*right).contains(k as u32) {
                        row_keep(old_rows[k], keep)
                    } else {
                        Seq::<(u32, i32)>::empty()
                    },
            decreases n - i,
        {
            let mut row: Vec<(u32, i32)> = Vec::new();
            let ghost pre = self.rows();
            assert(pre[i as int] == old_rows[i as int]);
            std::mem::swap(&mut row, &mut self.trie[i]);
            assert(row@ == old_rows[i as int]);
            assert forall|k: int| 0 <= k < n && k != i implies #[trigger] self.rows()[k] == pre[k] by {}
            let mut kept: Vec<(u32, i32)> = Vec::new();
            if right.contains(i as u32) {
                let m = row.len();
                let mut j: usize = 0;
                while j < m
                    invariant
                        j <= m == row@.len(),
                        kept@ == row_keep(row@.take(j as int), keep),
                        keep == feat_set_view(*left),
                    decreases m - j,
                {
                    assert(row@.take(j + 1).drop_last() =~= row@.take(j as int));
                    if left.contains(row[j].0) {
                        kept.push(row[j]);
                    }
                    j = j + 1;
                }
                assert(row@.take(m as int) =~= row@);
            }
            let ghost before = self.rows();
            self.trie.set(i, kept);
            assert forall|k: int| 0 <= k < n && k != i implies #[trigger] self.rows()[k] == before[k] by {}
            i = i + 1;
        }
        proof {
            assert forall|k: int| 0 <= k < self.rows().len() implies row_ok(#[trigger] self.rows()[k]) by {
                if feat_set_view(*right).contains(k as u32) {
                    lemma_row_keep(old_rows[k], keep, 0x8000_0000);
                }
            }
            assert forall|p: (u32, u32)| #[trigger] self.entries().contains_key(p) == (old(self).entries().contains_key(p)
                && feat_set_view(*right).contains(p.0) && feat_set_view(*left).contains(p.1)) by {
                if (p.0 as int) < n {
                    let k = p.0 as int;
                    assert(k as u32 == p.0);
                    if feat_set_view(*right).contains(p.0) {
                        lemma_row_keep(old_rows[k], keep, 0x8000_0000);
                        assert(row_get(row_keep(old_rows[k], keep), p.1) == if keep.contains(p.1) {
                            row_get(old_rows[k], p.1)
                        } else {
                            None
                        });
                    }
                }
            }
            assert forall|p: (u32, u32)| #[trigger] self.entries().contains_key(p) implies self.entries()[p]
                == old(self).entries()[p] by {
                let k = p.0 as int;
                assert(k as u32 == p.0);
                if feat_set_view(*right).contains(p.0) {
                    lemma_row_keep(old_rows[k], keep, 0x8000_0000);
                    assert(row_get(row_keep(old_rows[k], keep), p.1) == if keep.contains(p.1) {
                        row_get(old_rows[k], p.1)
                    } else {
                        None
                    });
                }
            }
        }
    }

    /// Whether the double array certainly fits in memory addressable by `usize`.
    pub open spec fn fits(&self) -> bool {
        total_span(self.rows()) <= usize::MAX
    }

    /// Computes [`Self::fits`].
    pub fn check_fits(&self) -> (r: bool)
        requires
            self.wf(),
        ensures
            r == self.fits(),
    {
        let n = self.trie.len();
        let mut total: u64 = 0;
        let mut k: usize = 0;
        assert(self.rows().take(0) =~= Seq::<Seq<(u32, i32)>>::empty());
        while k < n
            invariant
                k <= n == self.trie@.len() == self.rows().len(),
                self.wf(),
                total as int == total_span(self.rows().take(k as int)),
                total <= usize::MAX,
            decreases n - k,
        {
            let row = &self.trie[k];
            assert(self.rows()[k as int] == row@);
            assert(self.rows().take(k + 1).drop_last() =~= self.rows().take(k as int));
            let mut span: u64 = 0;
            if row.len() > 0 {
                let x = row[row.len() - 1].0;
                assert(row_ok(row@));
                let p = pow2_above(x);
                span = 2 * p;
            }
            assert(span as int == row_span(row@));
            if span > usize::MAX as u64 || total > usize::MAX as u64 - span {
                proof {
                    lemma_total_span_mono(self.rows(), k + 1);
                }
                return false;
            }
            total = total + span;
            k = k + 1;
        }
        assert(self.rows().take(n as int) =~= self.rows());
        true
    }

    /// Builds the double array.
    pub fn build(self) -> (r: Scorer)
        requires
            self.wf(),
            self.fits(),
        ensures
            r.wf(),
            r@ == self.entries(),
    {
        let ghost rv = self.rows();
        let ghost ents = self.entries();
        let rows = self.trie;
        assert(rows@.map_values(|v: Vec<(u32, i32)>| v@) == rv);
        let nrows = rows.len();
        let mut bases: Vec<u64> = Vec::new();
        let mut checks: Vec<u32> = Vec::new();
        let mut costs: Vec<i32> = Vec::new();
        let mut key1: usize = 0;
        assert(rv.take(0) =~= Seq::<Seq<(u32, i32)>>::empty());
        while key1 < nrows
            invariant
                key1 <= nrows == rows@.len() == rv.len(),
                nrows <= 0x8000_0000,
                rv == rows@.map_values(|v: Vec<(u32, i32)>| v@),
                forall|k: int| 0 <= k < rv.len() ==> row_ok(#[trigger] rv[k]),
                total_span(rv) <= usize::MAX,
                bases@.len() == key1,
                checks@.len() == costs@.len(),
                checks@.len() <= total_span(rv.take(key1 as int)),
                forall|p: int|
                    0 <= p < checks@.len() && #[trigger] checks@[p] != UNUSED_CHECK ==> {
                        let j = checks@[p];
                        &&& (j as int) < key1
                        &&& (bases@[j as int] ^ (p as u64)) < 0x8000_0000
                        &&& row_get(rv[j as int], (bases@[j as int] ^ (p as u64)) as u32) == Some(costs@[p])
                    },
                forall|j: int, k2: u32|
                    0 <= j < key1 && #[trigger] row_get(rv[j], k2) is Some ==> {
                        let p = bases@[j] ^ (k2 as u64);
                        &&& (p as int) < checks@.len()
                        &&& checks@[p as int] == j
                    },
            decreases nrows - key1,
        {
            let row = &rows[key1];
            let ghost r = rv[key1 as int];
            assert(row@ == r);
            let ghost l0 = checks@.len();
            proof {
                lemma_total_span_mono(rv, key1 + 1);
                assert(rv.take(key1 + 1).drop_last() =~= rv.take(key1 as int));
                assert(rv.take(key1 + 1).last() == r);
            }
            let rl = row.len();
            if rl == 0 {
                bases.push(0);
                assert forall|j: int, k2: u32|
                    0 <= j < key1 + 1 && #[trigger] row_get(rv[j], k2) is Some implies {
                        let p = bases@[j] ^ (k2 as u64);
                        &&& (p as int) < checks@.len()
                        &&& checks@[p as int] == j
                    } by {
                    if j == key1 {
                        assert(row_get(r, k2) is None);
                    }
                }
            } else {
                let maxk = row[rl - 1].0;
                let pw = pow2_above(maxk);
                assert(pw as int == pow2_above_from(maxk as int, 1));
                assert forall|m: int| 0 <= m < rl implies (#[trigger] r[m].0) < pw by {
                    if m < rl - 1 {
                        assert(r[m].0 < r[rl - 1].0);
                    }
                    lemma_pow2_from_props(maxk as int, 1);
                }
                // The first base on a multiple of `pw` at or past the end is free.
                let ghost target: u64 = (((l0 as u64) + pw - 1) as u64) & !((pw - 1) as u64);
                assert(l0 + 2 * pw <= usize::MAX);
                proof {
                    lemma_round_up(l0 as u64, pw);
                    assert forall|m: int| 0 <= m < rl implies base_free(target, #[trigger] r[m].0, checks@) by {
                        lemma_xor_add(target, r[m].0 as u64, pw);
                    }
                }
                let mut base: u64 = 0;
                while !check_base(base, row, &checks)
                    invariant
                        base <= target,
                        row@ == r,
                        rl == r.len(),
                        forall|m: int| 0 <= m < rl ==> base_free(target, #[trigger] r[m].0, checks@),
                    decreases target - base,
                {
                    assert(base != target);
                    base = base + 1;
                }
                bases.push(base);
                let ghost before_checks = checks@;
                let ghost before_costs = costs@;
                let mut m: usize = 0;
                while m < rl
                    invariant
                        m <= rl == r.len(),
                        key1 < nrows <= 0x8000_0000,
                        row@ == r,
                        row_ok(r),
                        forall|t: int| 0 <= t < rl ==> (#[trigger] r[t].0) < pw,
                        pw <= 0x8000_0000,
                        base <= target,
                        target < l0 + pw,
                        l0 + 2 * pw <= usize::MAX,
                        l0 == before_checks.len(),
                        checks@.len() == costs@.len(),
                        l0 <= checks@.len() <= l0 + 2 * pw,
                        bases@.len() == key1 + 1,
                        bases@[key1 as int] == base,
                        forall|t: int| 0 <= t < rl ==> base_free(base, #[trigger] r[t].0, before_checks),
                        forall|p: int|
                            0 <= p < l0 && #[trigger] before_checks[p] != UNUSED_CHECK ==> checks@[p]
                                == before_checks[p] && costs@[p] == before_costs[p],
                        forall|p: int|
                            0 <= p < checks@.len() && #[trigger] checks@[p] != UNUSED_CHECK
                                && checks@[p] != key1 ==> p < l0 && checks@[p] == before_checks[p]
                                && costs@[p] == before_costs[p],
                        forall|p: int|
                            0 <= p < checks@.len() && #[trigger] checks@[p] == key1 ==> {
                                &&& (base ^ (p as u64)) < 0x8000_0000
                                &&& row_get(r, (base ^ (p as u64)) as u32) == Some(costs@[p])
                            },
                        forall|t: int|
                            0 <= t < m ==> {
                                let p = base ^ (#[trigger] r[t].0 as u64);
                                &&& (p as int) < checks@.len()
                                &&& checks@[p as int] == key1
                            },
                        forall|t: int|
                            m <= t < rl ==> {
                                let p = base ^ (#[trigger] r[t].0 as u64);
                                p as int >= checks@.len() || checks@[p as int] == UNUSED_CHECK
                            },
                    decreases rl - m,
                {
                    let (k2, c) = row[m];
                    let pos = base ^ (k2 as u64);
                    proof {
                        lemma_xor_bound(base, k2 as u64, target, pw);
                    }
                    let pz = pos as usize;
                    let ghost pre_checks = checks@;
                    let ghost pre_costs = costs@;
                    if checks.len() <= pz {
                        grow_to(&mut checks, &mut costs, pz + 1);
                    }
                    proof {
                        lemma_row_get_index(r, m as int);
                        lemma_xor_involution(base, k2 as u64);
                        assert forall|t: int| 0 <= t < rl && t != m implies base ^ (#[trigger] r[t].0 as u64) != pos by {
                            lemma_xor_injective(base, r[t].0 as u64, k2 as u64);
                        }
                    }
                    let ghost mid_checks = checks@;
                    let ghost mid_costs = costs@;
                    proof {
                        assert(pz as u64 == pos);
                        assert(base_free(base, r[m as int].0, before_checks));
                        assert(mid_checks[pz as int] == UNUSED_CHECK);
                        assert(r[m as int] == (k2, c));
                    }
                    checks.set(pz, key1 as u32);
                    costs.set(pz, c);
                    proof {
                        assert forall|p: int|
                            0 <= p < checks@.len() && #[trigger] checks@[p] == key1 implies {
                                &&& (base ^ (p as u64)) < 0x8000_0000
                                &&& row_get(r, (base ^ (p as u64)) as u32) == Some(costs@[p])
                            } by {
                            if p != pz {
                                assert(mid_checks[p] == key1);
                                assert(mid_costs[p] == costs@[p]);
                                if p >= pre_checks.len() {
                                    assert(mid_checks[p] == UNUSED_CHECK);
                                }
                                assert(p < pre_checks.len());
                                assert(mid_checks[p] == pre_checks[p]);
                                assert(pre_checks[p] == key1);
                                assert(pre_costs[p] == mid_costs[p]);
                            } else {
                                assert(costs@[p] == c);
                                assert(p as u64 == pos);
                                assert(base ^ (p as u64) == k2 as u64);
                                assert(row_ok(r));
                                assert(k2 < 0x8000_0000);
                                assert(((k2 as u64) as u32) == k2);
                                assert(row_get(r, k2) == Some(c));
                            }
                        }
                        assert forall|p: int|
                            0 <= p < l0 && #[trigger] before_checks[p] != UNUSED_CHECK implies checks@[p]
                                == before_checks[p] && costs@[p] == before_costs[p] by {
                            if p == pz {
                                assert(pos as int >= before_checks.len() || before_checks[pos as int] == UNUSED_CHECK);
                            }
                            assert(mid_checks[p] == before_checks[p]);
                        }
                        assert(pre_checks.len() >= l0);
                    }
                    m = m + 1;
                }
                assert forall|j: int, k2: u32|
                    0 <= j < key1 + 1 && #[trigger] row_get(rv[j], k2) is Some implies {
                        let p = bases@[j] ^ (k2 as u64);
                        &&& (p as int) < checks@.len()
                        &&& checks@[p as int] == j
                    } by {
                    if j == key1 {
                        lemma_row_get_char(r, k2);
                        let t = choose|t: int| 0 <= t < r.len() && r[t].0 == k2;
                        assert(r[t].0 == k2);
                    } else {
                        let p = bases@[j] ^ (k2 as u64);
                        assert(before_checks[p as int] == j);
                    }
                }
                assert(row_span(r) == 2 * pw);
            }
            key1 = key1 + 1;
        }
        let ghost sc = Scorer { bases, checks, costs, entries: Ghost(ents) };
        let r = Scorer { bases, checks, costs, entries: Ghost(ents) };
        assert forall|k1: u32, k2: u32| #[trigger] r.lookup(k1, k2) == map_get(r@, k1, k2) by {
            if (k1 as int) < nrows {
                let pos = r.bases@[k1 as int] ^ (k2 as u64);
                if (pos as int) < r.checks@.len() && r.checks@[pos as int] == k1 {
                    lemma_xor_involution(r.bases@[k1 as int], k2 as u64);
                }
            }
        }
        r
    }
}

/// Extends both arrays to length `n`, filling `checks` with the unused mark and
/// `costs` with zero.
fn grow_to(checks: &mut Vec<u32>, costs: &mut Vec<i32>, n: usize)
    requires
        old(checks)@.len() == old(costs)@.len(),
        old(checks)@.len() <= n,
    ensures
        final(checks)@.len() == n,
        final(costs)@.len() == n,
        forall|i: int| 0 <= i < old(checks)@.len() ==> #[trigger] final(checks)@[i] == old(checks)@[i],
        forall|i: int| 0 <= i < old(costs)@.len() ==> #[trigger] final(costs)@[i] == old(costs)@[i],
        forall|i: int| old(checks)@.len() <= i < n ==> #[trigger] final(checks)@[i] == UNUSED_CHECK,
{
    let ghost c0 = checks@;
    let ghost s0 = costs@;
    while checks.len() < n
        invariant
            checks@.len() == costs@.len(),
            c0.len() <= checks@.len() <= n,
            forall|i: int| 0 <= i < c0.len() ==> #[trigger] checks@[i] == c0[i],
            forall|i: int| 0 <= i < s0.len() ==> #[trigger] costs@[i] == s0[i],
            forall|i: int| c0.len() <= i < checks@.len() ==> #[trigger] checks@[i] == UNUSED_CHECK,
            s0.len() == c0.len(),
        decreases n - checks@.len(),
    {
        checks.push(UNUSED_CHECK);
        costs.push(0);
    }
}

/// The smallest power of two above `x` (at most 2^31 for keys below 2^31).
fn pow2_above(x: u32) -> (p: u64)
    requires
        is_u31(x),
    ensures
        p as int == pow2_above_from(x as int, 1),
        p > x,
        1 <= p <= 0x8000_0000,
        p & ((p - 1) as u64) == 0,
{
    let mut p: u64 = 1;
    assert(1u64 & 0u64 == 0) by (bit_vector);
    while p <= x as u64
        invariant
            1 <= p <= 0x8000_0000,
            p & ((p - 1) as u64) == 0,
            pow2_above_from(x as int, p as int) == pow2_above_from(x as int, 1),
            x < 0x8000_0000,
        decreases 0x1_0000_0000 - p,
    {
        assert(p & ((p - 1) as u64) == 0 && 1 <= p < 0x8000_0000 ==> p <= 0x4000_0000)
            by (bit_vector);
        assert(p & ((p - 1) as u64) == 0 && 1 <= p <= 0x4000_0000 ==> ((2 * p) as u64) & ((2 * p - 1) as u64) == 0)
            by (bit_vector);
        p = 2 * p;
    }
    p
}

proof fn lemma_round_up(l0: u64, pw: u64)
    requires
        1 <= pw,
        pw & ((pw - 1) as u64) == 0,
        l0 + 2 * pw <= 0xffff_ffff_ffff_ffff,
    ensures
        ({
            let t = ((l0 + pw - 1) as u64) & !((pw - 1) as u64);
            &&& l0 <= t
            &&& t < l0 + pw
            &&& t & ((pw - 1) as u64) == 0
        }),
{
    assert(1 <= pw && pw & ((pw - 1) as u64) == 0 && l0 + 2 * pw <= 0xffff_ffff_ffff_ffff ==> {
        let t = ((l0 + pw - 1) as u64) & !((pw - 1) as u64);
        &&& l0 <= t
        &&& t < l0 + pw
        &&& t & ((pw - 1) as u64) == 0
    }) by (bit_vector);
}

proof fn lemma_xor_add(t: u64, k: u64, pw: u64)
    requires
        1 <= pw,
        pw & ((pw - 1) as u64) == 0,
        t & ((pw - 1) as u64) == 0,
        k < pw,
    ensures
        t ^ k == t + k,
{
    assert(1 <= pw && pw & ((pw - 1) as u64) == 0 && t & ((pw - 1) as u64) == 0 && k < pw ==> t ^ k == t + k)
        by (bit_vector);
}

proof fn lemma_xor_bound(b: u64, k: u64, t: u64, pw: u64)
    requires
        b <= t,
        k < pw,
        t + pw <= 0xffff_ffff_ffff_ffff,
    ensures
        b ^ k < t + pw,
{
    assert(b <= t && k < pw && t + pw <= 0xffff_ffff_ffff_ffff ==> b ^ k <= b + k) by (bit_vector);
}

proof fn lemma_xor_involution(b: u64, k: u64)
    ensures
        b ^ (b ^ k) == k,
{
    assert(b ^ (b ^ k) == k) by (bit_vector);
}

proof fn lemma_xor_injective(b: u64, k1: u64, k2: u64)
    requires
        k1 != k2,
    ensures
        b ^ k1 != b ^ k2,
{
    assert(k1 != k2 ==> b ^ k1 != b ^ k2) by (bit_vector);
}

} // verus!

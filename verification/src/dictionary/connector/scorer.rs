//! A scorer of pairs of keys in a double array with additive bases: the weight of
//! `(key1, key2)` sits at position `bases[key1] + key2` (wrapping at 32 bits) when
//! the check there is `key1`.
use vstd::prelude::*;

use crate::dictionary::connector::raw_connector::scorer::{map_get, row_get, rows_map};

verus! {

/// The check of a position that holds no pair.
pub const UNUSED_POS: u32 = 0xffff_ffff;

/// Keys of a row are strictly increasing.
pub open spec fn row_sorted(row: Seq<(u32, i32)>) -> bool {
    forall|i: int, j: int| 0 <= i < j < row.len() ==> row[i].0 < row[j].0
}

/// Builder of a [`Scorer`]: a list of rows, each sorted by the second key, indexed
/// by the first key.
pub struct ScorerBuilder {
    trie: Vec<Vec<(u32, i32)>>,
}

/// Inserting into a sorted row at the first position whose key is not smaller.
proof fn lemma_row_insert(row: Seq<(u32, i32)>, key: u32, w: i32, i: int)
    requires
        row_sorted(row),
        0 <= i <= row.len(),
        forall|j: int| 0 <= j < i ==> row[j].0 < key,
        i == row.len() || row[i].0 >= key,
    ensures
        ({
            let new_row = if i < row.len() && row[i].0 == key {
                row.update(i, (key, w))
            } else {
                row.insert(i, (key, w))
            };
            &&& row_sorted(new_row)
            &&& row_get(new_row, key) == Some(w)
            &&& forall|k: u32| k != key ==> row_get(new_row, k) == row_get(row, k)
        }),
{
    let new_row = if i < row.len() && row[i].0 == key {
        row.update(i, (key, w))
    } else {
        row.insert(i, (key, w))
    };
    assert(row_sorted(new_row));
    lemma_row_get_index(new_row, i);
    assert forall|k: u32| k != key implies row_get(new_row, k) == row_get(row, k) by {
        lemma_row_get_char(row, k);
        lemma_row_get_char(new_row, k);
        if row_get(row, k) is Some {
            let j = choose|j: int| 0 <= j < row.len() && row[j].0 == k;
            if j < i {
                assert(new_row[j] == row[j]);
                lemma_row_get_index(new_row, j);
                lemma_row_get_index(row, j);
            } else {
                if i < row.len() && row[i].0 == key {
                    assert(new_row[j] == row[j]);
                    lemma_row_get_index(new_row, j);
                } else {
                    assert(new_row[j + 1] == row[j]);
                    lemma_row_get_index(new_row, j + 1);
                }
                lemma_row_get_index(row, j);
            }
        } else {
            if row_get(new_row, k) is Some {
                let j = choose|j: int| 0 <= j < new_row.len() && new_row[j].0 == k;
                if j < i {
                    assert(row[j].0 == k);
                } else if j == i {
                } else if i < row.len() && row[i].0 == key {
                    assert(row[j].0 == k);
                } else {
                    assert(row[j - 1].0 == k);
                }
            }
        }
    }
}

/// In a sorted row, the entry at `j` is what `row_get` finds for its key.
proof fn lemma_row_get_index(row: Seq<(u32, i32)>, j: int)
    requires
        row_sorted(row),
        0 <= j < row.len(),
    ensures
        row_get(row, row[j].0) == Some(row[j].1),
    decreases row.len(),
{
    if j < row.len() - 1 {
        assert(row.last().0 != row[j].0);
        lemma_row_get_index(row.drop_last(), j);
    }
}

/// `row_get` finds a key exactly when some entry has it.
proof fn lemma_row_get_char(row: Seq<(u32, i32)>, k: u32)
    ensures
        row_get(row, k) is Some <==> exists|j: int| 0 <= j < row.len() && row[j].0 == k,
    decreases row.len(),
{
    if row.len() > 0 {
        lemma_row_get_char(row.drop_last(), k);
        if row_get(row.drop_last(), k) is Some {
            let j = choose|j: int| 0 <= j < row.drop_last().len() && row.drop_last()[j].0 == k;
            assert(row[j].0 == k);
        }
        if exists|j: int| 0 <= j < row.len() && row[j].0 == k {
            let j = choose|j: int| 0 <= j < row.len() && row[j].0 == k;
            if j < row.len() - 1 {
                assert(row.drop_last()[j].0 == k);
            }
        }
    }
}

impl ScorerBuilder {
    /// The rows, indexed by the first key.
    pub closed spec fn rows(&self) -> Seq<Seq<(u32, i32)>> {
        self.trie@.map_values(|v: Vec<(u32, i32)>| v@)
    }

    /// The pairs inserted so far with their weights.
    pub open spec fn entries(&self) -> Map<(u32, u32), i32> {
        rows_map(self.rows())
    }

    /// Every row is sorted, and the rows are fewer than `u32::MAX`.
    pub open spec fn wf(&self) -> bool {
        &&& self.rows().len() < u32::MAX
        &&& forall|k: int| 0 <= k < self.rows().len() ==> row_sorted(#[trigger] self.rows()[k])
    }

    /// An empty builder.
    pub fn new() -> (r: Self)
        ensures
            r.wf(),
            r.entries() == Map::<(u32, u32), i32>::empty(),
    {
        let r = Self { trie: Vec::new() };
        assert(r.rows() =~= Seq::<Seq<(u32, i32)>>::empty());
        assert(r.entries() =~= Map::<(u32, u32), i32>::empty());
        r
    }

    /// Sets the weight of the pair of keys, replacing a previous one.
    pub fn insert(&mut self, key1: u32, key2: u32, weight: i32)
        requires
            old(self).wf(),
            key1 < u32::MAX - 1,
        ensures
            final(self).wf(),
            final(self).entries() == old(self).entries().insert((key1, key2), weight),
    {
        let ghost old_rows = self.rows();
        let k1 = key1 as usize;
        if k1 >= self.trie.len() {
            let mut n = self.trie.len();
            while n <= k1
                invariant
                    n == self.trie@.len(),
                    k1 < u32::MAX - 1,
                    n <= k1 + 1,
                    self.rows().take(old_rows.len() as int) == old_rows,
                    old_rows.len() <= n,
                    forall|k: int| old_rows.len() <= k < n ==> self.rows()[k] == Seq::<(u32, i32)>::empty(),
                decreases k1 + 1 - n,
            {
                let ghost before = self.trie@;
                self.trie.push(Vec::new());
                assert(self.rows() =~= before.map_values(|v: Vec<(u32, i32)>| v@).push(Seq::<(u32, i32)>::empty()));
                n = n + 1;
            }
        }
        let ghost mid_rows = self.rows();
        assert forall|k: int| 0 <= k < mid_rows.len() implies row_sorted(#[trigger] mid_rows[k]) by {
            if k < old_rows.len() {
                assert(mid_rows[k] == mid_rows.take(old_rows.len() as int)[k]);
            } else {
                assert(mid_rows[k] == Seq::<(u32, i32)>::empty());
            }
        }
        assert forall|p: (u32, u32)| p.0 != key1 || p.1 != key2 implies
            #[trigger] rows_map(mid_rows).contains_key(p) == old(self).entries().contains_key(p)
            && (rows_map(mid_rows).contains_key(p) ==> rows_map(mid_rows)[p] == old(self).entries()[p]) by {
            if (p.0 as int) < old_rows.len() {
                assert(mid_rows[p.0 as int] == mid_rows.take(old_rows.len() as int)[p.0 as int]);
            } else if (p.0 as int) < mid_rows.len() {
                assert(mid_rows[p.0 as int] == Seq::<(u32, i32)>::empty());
            }
        }
        let mut row: Vec<(u32, i32)> = Vec::new();
        std::mem::swap(&mut row, &mut self.trie[k1]);
        let ghost old_row = row@;
        assert(old_row == mid_rows[k1 as int]);
        let n = row.len();
        let mut i: usize = 0;
        while i < n && row[i].0 < key2
            invariant
                i <= n == row@.len(),
                row@ == old_row,
                row_sorted(old_row),
                forall|j: int| 0 <= j < i ==> old_row[j].0 < key2,
            decreases n - i,
        {
            i = i + 1;
        }
        if i < n && row[i].0 == key2 {
            row.set(i, (key2, weight));
        } else {
            row.insert(i, (key2, weight));
        }
        let ghost new_row = row@;
        proof {
            lemma_row_insert(old_row, key2, weight, i as int);
        }
        self.trie.set(k1, row);
        assert(self.rows() =~= mid_rows.update(k1 as int, new_row));
        assert forall|k: int| 0 <= k < self.rows().len() implies row_sorted(#[trigger] self.rows()[k]) by {
            if k != k1 {
                assert(self.rows()[k] == mid_rows[k]);
            }
        }
        assert(self.entries() =~= old(self).entries().insert((key1, key2), weight)) by {
            assert forall|p: (u32, u32)| #[trigger] self.entries().contains_key(p) == old(self).entries().insert((key1, key2), weight).contains_key(p) by {
                if p.0 != key1 {
                    if (p.0 as int) < self.rows().len() {
                        assert(self.rows()[p.0 as int] == mid_rows[p.0 as int]);
                    }
                }
            }
            assert forall|p: (u32, u32)| #[trigger] self.entries().contains_key(p) implies self.entries()[p] == old(self).entries().insert((key1, key2), weight)[p] by {
                if p.0 != key1 {
                    assert(self.rows()[p.0 as int] == mid_rows[p.0 as int]);
                }
            }
        }
    }
}


/// The span of keys of a row: from its first to its last key, both counted.
pub open spec fn row_width(row: Seq<(u32, i32)>) -> int {
    if row.len() == 0 {
        0
    } else {
        row.last().0 - row[0].0 + 1
    }
}

/// The spans of all rows together.
pub open spec fn total_width(rows: Seq<Seq<(u32, i32)>>) -> int
    decreases rows.len(),
{
    if rows.len() == 0 {
        0
    } else {
        total_width(rows.drop_last()) + row_width(rows.last())
    }
}

proof fn lemma_row_width(row: Seq<(u32, i32)>)
    requires
        row_sorted(row),
    ensures
        row_width(row) >= 0,
        forall|m: int| 0 <= m < row.len() ==> row[0].0 <= #[trigger] row[m].0 <= row.last().0,
{
    assert forall|m: int| 0 <= m < row.len() implies row[0].0 <= #[trigger] row[m].0 <= row.last().0 by {
        if m > 0 {
            assert(row[0].0 < row[m].0);
        }
        if m < row.len() - 1 {
            assert(row[m].0 < row[row.len() - 1].0);
        }
    }
}

proof fn lemma_total_width_nonneg(rows: Seq<Seq<(u32, i32)>>)
    requires
        forall|k: int| 0 <= k < rows.len() ==> row_sorted(#[trigger] rows[k]),
    ensures
        total_width(rows) >= 0,
    decreases rows.len(),
{
    if rows.len() > 0 {
        lemma_total_width_nonneg(rows.drop_last());
        lemma_row_width(rows.last());
    }
}

proof fn lemma_total_width_mono(rows: Seq<Seq<(u32, i32)>>, k: int)
    requires
        0 <= k <= rows.len(),
        forall|i: int| 0 <= i < rows.len() ==> row_sorted(#[trigger] rows[i]),
    ensures
        0 <= total_width(rows.take(k)) <= total_width(rows),
    decreases rows.len() - k,
{
    if k < rows.len() {
        lemma_total_width_mono(rows, k + 1);
        assert(rows.take(k + 1).drop_last() =~= rows.take(k));
        lemma_row_width(rows.take(k + 1).last());
        lemma_total_width_nonneg(rows.take(k));
    } else {
        assert(rows.take(k) =~= rows);
        lemma_total_width_nonneg(rows);
    }
}

/// A signed base as it is stored in 32 bits.
pub open spec fn base_bits(b: int) -> int {
    if b >= 0 {
        b
    } else {
        b + 0x1_0000_0000
    }
}

/// The position `base + key` lies outside the array or is unused.
pub open spec fn base_free(base: int, key: u32, checks: Seq<u32>) -> bool {
    0 <= base + key < checks.len() ==> checks[base + key] == UNUSED_POS
}

/// Whether every position `base + key` of the row is outside the array or unused.
fn check_base(base: i64, row: &Vec<(u32, i32)>, checks: &Vec<u32>) -> (r: bool)
    requires
        -0x8000_0000 <= base <= 0x8000_0000,
    ensures
        r == forall|m: int| 0 <= m < row@.len() ==> base_free(base as int, #[trigger] row@[m].0, checks@),
{
    let n = row.len();
    let mut m: usize = 0;
    while m < n
        invariant
            m <= n == row@.len(),
            -0x8000_0000 <= base <= 0x8000_0000,
            forall|t: int| 0 <= t < m ==> base_free(base as int, #[trigger] row@[t].0, checks@),
        decreases n - m,
    {
        let pos: i64 = base + row[m].0 as i64;
        if pos >= 0 && (pos as u64) < (checks.len() as u64) {
            let p = pos as usize;
            if checks[p] != UNUSED_POS {
                assert(!base_free(base as int, row@[m as int].0, checks@));
                return false;
            }
        }
        m = m + 1;
    }
    true
}

/// Extends both arrays to length `n`, filling `checks` with the unused mark and
/// `weights` with zero.
fn grow_to(checks: &mut Vec<u32>, weights: &mut Vec<i32>, n: usize)
    requires
        old(checks)@.len() == old(weights)@.len(),
        old(checks)@.len() <= n,
    ensures
        final(checks)@.len() == n,
        final(weights)@.len() == n,
        forall|i: int| 0 <= i < old(checks)@.len() ==> #[trigger] final(checks)@[i] == old(checks)@[i],
        forall|i: int| 0 <= i < old(weights)@.len() ==> #[trigger] final(weights)@[i] == old(weights)@[i],
        forall|i: int| old(checks)@.len() <= i < n ==> #[trigger] final(checks)@[i] == UNUSED_POS,
{
    let ghost c0 = checks@;
    let ghost w0 = weights@;
    while checks.len() < n
        invariant
            checks@.len() == weights@.len(),
            c0.len() <= checks@.len() <= n,
            forall|i: int| 0 <= i < c0.len() ==> #[trigger] checks@[i] == c0[i],
            forall|i: int| 0 <= i < w0.len() ==> #[trigger] weights@[i] == w0[i],
            forall|i: int| c0.len() <= i < checks@.len() ==> #[trigger] checks@[i] == UNUSED_POS,
            w0.len() == c0.len(),
        decreases n - checks@.len(),
    {
        checks.push(UNUSED_POS);
        weights.push(0);
    }
}

/// A double array of weights of pairs of keys.
pub struct Scorer {
    bases: Vec<u32>,
    checks: Vec<u32>,
    weights: Vec<i32>,
    entries: Ghost<Map<(u32, u32), i32>>,
}

impl View for Scorer {
    type V = Map<(u32, u32), i32>;

    closed spec fn view(&self) -> Map<(u32, u32), i32> {
        self.entries@
    }
}

impl Scorer {
    /// What the double array gives for a pair.
    closed spec fn lookup(&self, k1: u32, k2: u32) -> Option<i32> {
        if (k1 as int) < self.bases@.len() {
            let s = self.bases@[k1 as int] + k2;
            let pos = if s > u32::MAX { s - 0x1_0000_0000 } else { s };
            if pos < self.checks@.len() && self.checks@[pos] == k1 {
                Some(self.weights@[pos])
            } else {
                None
            }
        } else {
            None
        }
    }

    /// The double array gives exactly the stored pairs.
    pub closed spec fn wf(&self) -> bool {
        &&& self.weights@.len() == self.checks@.len()
        &&& forall|k1: u32, k2: u32| #[trigger] self.lookup(k1, k2) == map_get(self@, k1, k2)
    }

    /// A scorer without any pair.
    pub fn default() -> (r: Self)
        ensures
            r.wf(),
            r@ == Map::<(u32, u32), i32>::empty(),
    {
        Scorer { bases: Vec::new(), checks: Vec::new(), weights: Vec::new(), entries: Ghost(Map::empty()) }
    }

    /// The weight of the pair `(key1, key2)`, if stored.
    pub fn retrieve_weight(&self, key1: u32, key2: u32) -> (r: Option<i32>)
        requires
            self.wf(),
        ensures
            r == map_get(self@, key1, key2),
    {
        assert(self.lookup(key1, key2) == map_get(self@, key1, key2));
        if (key1 as usize) < self.bases.len() {
            let base = self.bases[key1 as usize];
            let pos = base.wrapping_add(key2) as usize;
            if pos < self.checks.len() && self.checks[pos] == key1 {
                return Some(self.weights[pos]);
            }
        }
        None
    }

    /// The sum of the weights of the pairs formed by `keys1` and `keys2` at equal
    /// positions, over the shorter of the two; pairs not stored count 0.
    pub fn calculate_score(&self, keys1: &[u32], keys2: &[u32]) -> (r: i32)
        requires
            self.wf(),
            forall|n: int|
                0 <= n <= min_len(keys1@.len(), keys2@.len()) ==> i32::MIN <= #[trigger] score_sum(
                    self@,
                    keys1@,
                    keys2@,
                    n,
                ) <= i32::MAX,
        ensures
            r == score_sum(self@, keys1@, keys2@, min_len(keys1@.len(), keys2@.len()) as int),
    {
        let n = if keys1.len() < keys2.len() { keys1.len() } else { keys2.len() };
        let mut score: i32 = 0;
        let mut i: usize = 0;
        while i < n
            invariant
                i <= n == min_len(keys1@.len(), keys2@.len()),
                self.wf(),
                forall|t: int|
                    0 <= t <= n ==> i32::MIN <= #[trigger] score_sum(self@, keys1@, keys2@, t) <= i32::MAX,
                score == score_sum(self@, keys1@, keys2@, i as int),
            decreases n - i,
        {
            let w = match self.retrieve_weight(keys1[i], keys2[i]) {
                Some(w) => w,
                None => 0,
            };
            assert(score_sum(self@, keys1@, keys2@, i + 1) == score + w);
            score = score + w;
            i = i + 1;
        }
        score
    }
}

/// The smaller of two lengths.
pub open spec fn min_len(a: nat, b: nat) -> nat {
    if a < b { a } else { b }
}

/// The weight of a pair, 0 if not stored.
pub open spec fn weight_or_zero(m: Map<(u32, u32), i32>, k1: u32, k2: u32) -> int {
    if m.contains_key((k1, k2)) { m[(k1, k2)] as int } else { 0 }
}

/// The sum of the weights of the first `n` pairs `(a[i], b[i])`.
pub open spec fn score_sum(m: Map<(u32, u32), i32>, a: Seq<u32>, b: Seq<u32>, n: int) -> int
    decreases n,
{
    if n <= 0 {
        0
    } else {
        score_sum(m, a, b, n - 1) + weight_or_zero(m, a[n - 1], b[n - 1])
    }
}


impl ScorerBuilder {
    /// The keys stay below 2^31 and the spans of the rows together below 2^31 - 1, so
    /// that the double array and its bases fit in 32 bits.
    pub open spec fn fits(&self) -> bool {
        &&& total_width(self.rows()) < 0x7fff_ffff
        &&& forall|k: int, m: int|
            0 <= k < self.rows().len() && 0 <= m < self.rows()[k].len() ==> (#[trigger] self.rows()[k][m]).0
                < 0x8000_0000
    }

    /// Computes [`Self::fits`].
    pub fn check_fits(&self) -> (r: bool)
        requires
            self.wf(),
        ensures
            r == self.fits(),
    {
        let ghost rv = self.rows();
        let n = self.trie.len();
        let mut total: u64 = 0;
        let mut k: usize = 0;
        assert(rv.take(0) =~= Seq::<Seq<(u32, i32)>>::empty());
        while k < n
            invariant
                k <= n == self.trie@.len() == rv.len(),
                rv == self.rows(),
                self.wf(),
                total == total_width(rv.take(k as int)),
                total < 0x7fff_ffff,
                forall|a: int, m: int|
                    0 <= a < k && 0 <= m < rv[a].len() ==> (#[trigger] rv[a][m]).0 < 0x8000_0000,
            decreases n - k,
        {
            let row = &self.trie[k];
            assert(row@ == rv[k as int]);
            proof {
                assert(rv.take(k + 1).drop_last() =~= rv.take(k as int));
                assert(rv.take(k + 1).last() == rv[k as int]);
                lemma_row_width(rv[k as int]);
                lemma_total_width_mono(rv, k + 1);
            }
            let rl = row.len();
            if rl > 0 {
                let head = row[0].0;
                let last = row[rl - 1].0;
                if last >= 0x8000_0000 {
                    return false;
                }
                total = total + (last - head) as u64 + 1;
                if total >= 0x7fff_ffff {
                    return false;
                }
            }
            k = k + 1;
        }
        assert(rv.take(n as int) =~= rv);
        true
    }

    /// Builds the double array: the rows in turn, each at the first base from the
    /// first free position on whose positions are all free.
    pub fn build(self) -> (r: Scorer)
        requires
            self.wf(),
            self.fits(),
        ensures
            r.wf(),
            r@ == self.entries(),
    {
        let ghost rv = self.rows();
        let ghost ents = self.entries();
        let rows = self.trie;
        assert(rows@.map_values(|v: Vec<(u32, i32)>| v@) == rv);
        let nrows = rows.len();
        let mut bases: Vec<u32> = Vec::new();
        let mut checks: Vec<u32> = Vec::new();
        let mut weights: Vec<i32> = Vec::new();
        let ghost mut sb: Seq<int> = Seq::empty();
        let mut cand_first: usize = 1;
        let mut key1: usize = 0;
        assert(rv.take(0) =~= Seq::<Seq<(u32, i32)>>::empty());
        while key1 < nrows
            invariant
                key1 <= nrows == rows@.len() == rv.len(),
                nrows < u32::MAX,
                rv == rows@.map_values(|v: Vec<(u32, i32)>| v@),
                forall|k: int| 0 <= k < rv.len() ==> row_sorted(#[trigger] rv[k]),
                forall|k: int, m: int|
                    0 <= k < rv.len() && 0 <= m < rv[k].len() ==> (#[trigger] rv[k][m]).0 < 0x8000_0000,
                total_width(rv) < 0x7fff_ffff,
                bases@.len() == key1,
                sb.len() == key1,
                forall|j: int|
                    0 <= j < key1 ==> bases@[j] == base_bits(#[trigger] sb[j]) && -0x8000_0000 < sb[j]
                        <= 0x8000_0000,
                checks@.len() == weights@.len(),
                checks@.len() <= 1 + total_width(rv.take(key1 as int)),
                1 <= cand_first,
                cand_first <= checks@.len() || cand_first == 1,
                forall|p: int|
                    0 <= p < checks@.len() && #[trigger] checks@[p] != UNUSED_POS ==> {
                        let j = checks@[p] as int;
                        &&& j < key1
                        &&& 0 <= p - sb[j] < 0x8000_0000
                        &&& row_get(rv[j], (p - sb[j]) as u32) == Some(weights@[p])
                    },
                forall|j: int, k2: u32|
                    0 <= j < key1 && #[trigger] row_get(rv[j], k2) is Some ==> {
                        let p = sb[j] + k2;
                        &&& 0 <= p < checks@.len()
                        &&& checks@[p] == j
                    },
            decreases nrows - key1,
        {
            let row = &rows[key1];
            let ghost r = rv[key1 as int];
            assert(row@ == r);
            let ghost l0 = checks@.len();
            proof {
                lemma_total_width_mono(rv, key1 + 1);
                lemma_total_width_nonneg(rv.take(key1 as int));
                assert(rv.take(key1 + 1).drop_last() =~= rv.take(key1 as int));
                assert(rv.take(key1 + 1).last() == r);
                lemma_row_width(r);
            }
            let rl = row.len();
            if rl == 0 {
                bases.push(0);
                proof {
                    sb = sb.push(0);
                }
                assert forall|j: int, k2: u32|
                    0 <= j < key1 + 1 && #[trigger] row_get(rv[j], k2) is Some implies {
                        let p = sb[j] + k2;
                        &&& 0 <= p < checks@.len()
                        &&& checks@[p] == j
                    } by {
                    if j == key1 {
                        assert(row_get(r, k2) is None);
                    } else {
                        assert(sb[j] == sb.drop_last()[j]);
                    }
                }
                assert forall|p: int|
                    0 <= p < checks@.len() && #[trigger] checks@[p] != UNUSED_POS implies {
                        let j = checks@[p] as int;
                        &&& j < key1 + 1
                        &&& 0 <= p - sb[j] < 0x8000_0000
                        &&& row_get(rv[j], (p - sb[j]) as u32) == Some(weights@[p])
                    } by {
                    let j = checks@[p] as int;
                    assert(sb[j] == sb.drop_last()[j]);
                }
            } else {
                let head = row[0].0;
                let last = row[rl - 1].0;
                assert(r[0].0 < 0x8000_0000 && r[rl - 1].0 < 0x8000_0000);
                let base0: i64 = cand_first as i64 - head as i64;
                let ghost target: int = if base0 >= l0 - head { base0 as int } else { l0 - head };
                assert(target + last + 1 <= 1 + total_width(rv.take(key1 + 1)));
                assert(target + last + 1 < 0x8000_0000);
                assert forall|m: int| 0 <= m < rl implies base_free(target, #[trigger] r[m].0, checks@) by {
                    assert(head <= r[m].0);
                }
                let mut base: i64 = base0;
                while !check_base(base, row, &checks)
                    invariant
                        base0 <= base <= target,
                        target <= 0x8000_0000,
                        base0 > -0x8000_0000,
                        row@ == r,
                        rl == r.len(),
                        forall|m: int| 0 <= m < rl ==> base_free(target, #[trigger] r[m].0, checks@),
                    decreases target - base,
                {
                    assert(base != target);
                    base = base + 1;
                }
                let b: u32 = if base >= 0 { base as u32 } else { (base + 0x1_0000_0000) as u32 };
                bases.push(b);
                proof {
                    sb = sb.push(base as int);
                }
                let ghost before_checks = checks@;
                let ghost before_weights = weights@;
                let ghost sb0 = sb.drop_last();
                let mut m: usize = 0;
                while m < rl
                    invariant
                        m <= rl == r.len(),
                        key1 < nrows < u32::MAX,
                        row@ == r,
                        row_sorted(r),
                        forall|t: int| 0 <= t < rl ==> head <= (#[trigger] r[t].0) <= last,
                        last < 0x8000_0000,
                        base0 <= base <= target,
                        target + last + 1 < 0x8000_0000,
                        base0 == cand_first - head,
                        target <= 0x8000_0000,
                        base0 > -0x8000_0000,
                        l0 == before_checks.len(),
                        checks@.len() == weights@.len(),
                        l0 <= checks@.len(),
                        checks@.len() <= l0 || checks@.len() <= base + last + 1,
                        forall|t: int| 0 <= t < rl ==> base_free(base as int, #[trigger] r[t].0, before_checks),
                        forall|p: int|
                            0 <= p < l0 && #[trigger] before_checks[p] != UNUSED_POS ==> checks@[p]
                                == before_checks[p] && weights@[p] == before_weights[p],
                        forall|p: int|
                            0 <= p < checks@.len() && #[trigger] checks@[p] != UNUSED_POS && checks@[p]
                                != key1 ==> p < l0 && checks@[p] == before_checks[p] && weights@[p]
                                == before_weights[p],
                        forall|p: int|
                            0 <= p < checks@.len() && #[trigger] checks@[p] == key1 ==> {
                                &&& 0 <= p - base < 0x8000_0000
                                &&& row_get(r, (p - base) as u32) == Some(weights@[p])
                            },
                        forall|t: int|
                            0 <= t < m ==> {
                                let p = base + (#[trigger] r[t].0);
                                &&& 0 <= p < checks@.len()
                                &&& checks@[p] == key1
                            },
                        forall|t: int|
                            m <= t < rl ==> {
                                let p = base + (#[trigger] r[t].0);
                                p >= checks@.len() || checks@[p] == UNUSED_POS
                            },
                    decreases rl - m,
                {
                    let (k2, w) = row[m];
                    assert(r[m as int] == (k2, w));
                    let pos: i64 = base + k2 as i64;
                    let pz = pos as usize;
                    let ghost pre_checks = checks@;
                    let ghost pre_weights = weights@;
                    if checks.len() <= pz {
                        grow_to(&mut checks, &mut weights, pz + 1);
                    }
                    proof {
                        lemma_row_get_index(r, m as int);
                    }
                    let ghost mid_checks = checks@;
                    let ghost mid_weights = weights@;
                    assert(mid_checks[pz as int] == UNUSED_POS);
                    checks.set(pz, key1 as u32);
                    weights.set(pz, w);
                    proof {
                        assert forall|p: int|
                            0 <= p < checks@.len() && #[trigger] checks@[p] == key1 implies {
                                &&& 0 <= p - base < 0x8000_0000
                                &&& row_get(r, (p - base) as u32) == Some(weights@[p])
                            } by {
                            if p != pz {
                                assert(mid_checks[p] == key1);
                                if p >= pre_checks.len() {
                                    assert(mid_checks[p] == UNUSED_POS);
                                }
                                assert(pre_checks[p] == key1);
                            }
                        }
                        assert forall|p: int|
                            0 <= p < l0 && #[trigger] before_checks[p] != UNUSED_POS implies checks@[p]
                                == before_checks[p] && weights@[p] == before_weights[p] by {
                            if p == pz {
                                assert(base_free(base as int, r[m as int].0, before_checks));
                            }
                        }
                        assert forall|p: int|
                            0 <= p < checks@.len() && #[trigger] checks@[p] != UNUSED_POS && checks@[p]
                                != key1 implies p < l0 && checks@[p] == before_checks[p] && weights@[p]
                                == before_weights[p] by {
                            if p >= pre_checks.len() {
                                assert(mid_checks[p] == UNUSED_POS);
                            }
                        }
                        assert forall|t: int| 0 <= t < m + 1 implies {
                            let p = base + (#[trigger] r[t].0);
                            &&& 0 <= p < checks@.len()
                            &&& checks@[p] == key1
                        } by {
                            if t < m {
                                assert(r[t].0 < r[m as int].0);
                            }
                        }
                        assert forall|t: int| m + 1 <= t < rl implies {
                            let p = base + (#[trigger] r[t].0);
                            p >= checks@.len() || checks@[p] == UNUSED_POS
                        } by {
                            assert(r[m as int].0 < r[t].0);
                            let p = base + r[t].0;
                            if p < pre_checks.len() {
                                assert(mid_checks[p] == pre_checks[p]);
                            } else if p < checks@.len() {
                                assert(mid_checks[p] == UNUSED_POS);
                            }
                        }
                    }
                    m = m + 1;
                }
                proof {
                    assert forall|p: int|
                        0 <= p < checks@.len() && #[trigger] checks@[p] != UNUSED_POS implies {
                            let j = checks@[p] as int;
                            &&& j < key1 + 1
                            &&& 0 <= p - sb[j] < 0x8000_0000
                            &&& row_get(rv[j], (p - sb[j]) as u32) == Some(weights@[p])
                        } by {
                        if checks@[p] != key1 {
                            let j = checks@[p] as int;
                            assert(before_checks[p] != UNUSED_POS);
                            assert(sb[j] == sb0[j]);
                        }
                    }
                    assert forall|j: int, k2: u32|
                        0 <= j < key1 + 1 && #[trigger] row_get(rv[j], k2) is Some implies {
                            let p = sb[j] + k2;
                            &&& 0 <= p < checks@.len()
                            &&& checks@[p] == j
                        } by {
                        if j == key1 {
                            lemma_row_get_char(r, k2);
                            let t = choose|t: int| 0 <= t < r.len() && r[t].0 == k2;
                            assert(base + r[t].0 == sb[j] + k2);
                        } else {
                            assert(sb[j] == sb0[j]);
                            let p = sb[j] + k2;
                            assert(before_checks[p] == j);
                        }
                    }
                    assert forall|j: int|
                        0 <= j < key1 + 1 implies bases@[j] == base_bits(#[trigger] sb[j]) && -0x8000_0000
                            < sb[j] <= 0x8000_0000 by {
                        if j < key1 {
                            assert(sb[j] == sb0[j]);
                        }
                    }
                }
                while cand_first < checks.len() && checks[cand_first] != UNUSED_POS
                    invariant
                        1 <= cand_first,
                        cand_first <= checks@.len() || cand_first == 1,
                    decreases checks@.len() - cand_first,
                {
                    cand_first = cand_first + 1;
                }
            }
            key1 = key1 + 1;
        }
        let r = Scorer { bases, checks, weights, entries: Ghost(ents) };
        assert(rv.take(nrows as int) =~= rv);
        assert forall|k1: u32, k2: u32| #[trigger] r.lookup(k1, k2) == map_get(r@, k1, k2) by {
            if (k1 as int) < nrows {
                let s = sb[k1 as int];
                if row_get(rv[k1 as int], k2) is Some {
                    assert(checks@[s + k2] == k1);
                } else {
                    let bs = bases@[k1 as int] + k2;
                    let pos = if bs > u32::MAX { bs - 0x1_0000_0000 } else { bs };
                    if pos < checks@.len() && checks@[pos] == k1 {
                        assert(checks@[pos] != UNUSED_POS);
                        assert(pos - s == k2);
                    }
                }
            }
        }
        r
    }
}

} // verus!

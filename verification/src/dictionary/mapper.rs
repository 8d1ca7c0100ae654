//! Remapping of connection ids.
use vstd::prelude::*;

use crate::common::BOS_EOS_CONNECTION_ID;
use crate::errors::VibratoError;

verus! {

/// `v` is a permutation of `0..v.len()`.
pub open spec fn is_perm(v: Seq<u16>) -> bool {
    &&& forall|i: int| 0 <= i < v.len() ==> (#[trigger] v[i] as int) < v.len()
    &&& forall|i: int, j: int| 0 <= i < j < v.len() ==> v[i] != v[j]
}

/// `map` is a valid list of old ids: the `k`-th item is the old id that gets the new
/// id `k + 1`. Every old id is in `1..=map.len()` and none occurs twice (so
/// there are at most `u16::MAX` of them).
pub open spec fn valid_id_map(map: Seq<u16>) -> bool {
    &&& map.len() <= 0xffff
    &&& forall|k: int| 0 <= k < map.len() ==> 1 <= #[trigger] map[k] <= map.len()
    &&& forall|i: int, j: int| 0 <= i < j < map.len() ==> map[i] != map[j]
}

/// `v` maps every old id to its new id: id 0 (BOS/EOS) stays 0, and the old id
/// `map[k]` becomes `k + 1`.
pub open spec fn inverse_of(v: Seq<u16>, map: Seq<u16>) -> bool {
    &&& v.len() == map.len() + 1
    &&& v[0] == 0
    &&& forall|k: int| 0 <= k < map.len() ==> v[#[trigger] map[k] as int] == k + 1
}

/// Mapper for connection ids.
pub struct ConnIdMapper {
    left: Vec<u16>,
    right: Vec<u16>,
}

impl ConnIdMapper {
    /// New left ids, indexed by old left id.
    pub closed spec fn left_map(&self) -> Seq<u16> {
        self.left@
    }

    /// New right ids, indexed by old right id.
    pub closed spec fn right_map(&self) -> Seq<u16> {
        self.right@
    }

    /// Both maps are permutations.
    pub open spec fn wf(&self) -> bool {
        is_perm(self.left_map()) && is_perm(self.right_map())
    }

    /// Creates a mapper from the new ids of left and right ids.
    pub fn new(left: Vec<u16>, right: Vec<u16>) -> (r: Self)
        ensures
            r.left_map() == left@,
            r.right_map() == right@,
    {
        Self { left, right }
    }

    /// New left ids, indexed by old left id.
    pub fn left_slice(&self) -> (r: &[u16])
        ensures
            r@ == self.left_map(),
    {
        self.left.as_slice()
    }

    /// New right ids, indexed by old right id.
    pub fn right_slice(&self) -> (r: &[u16])
        ensures
            r@ == self.right_map(),
    {
        self.right.as_slice()
    }

    /// Number of left ids.
    pub fn num_left(&self) -> (r: usize)
        ensures
            r == self.left_map().len(),
    {
        self.left.len()
    }

    /// Number of right ids.
    pub fn num_right(&self) -> (r: usize)
        ensures
            r == self.right_map().len(),
    {
        self.right.len()
    }

    /// The new id of left id `id`.
    pub fn left(&self, id: u16) -> (r: u16)
        requires
            (id as int) < self.left_map().len(),
        ensures
            r == self.left_map()[id as int],
    {
        self.left[id as usize]
    }

    /// The new id of right id `id`.
    pub fn right(&self, id: u16) -> (r: u16)
        requires
            (id as int) < self.right_map().len(),
        ensures
            r == self.right_map()[id as int],
    {
        self.right[id as usize]
    }

    /// Creates a mapper from lists of old left and right ids, where the `k`-th item
    /// (from 0) is the old id that gets the new id `k + 1`.
    pub fn from_iter(lmap: Vec<u16>, rmap: Vec<u16>) -> (r: Result<Self, VibratoError>)
        ensures
            r is Ok <==> valid_id_map(lmap@) && valid_id_map(rmap@),
            r matches Ok(m) ==> inverse_of(m.left_map(), lmap@) && inverse_of(
                m.right_map(),
                rmap@,
            ) && m.wf(),
    {
        let left = Self::parse(lmap)?;
        let right = Self::parse(rmap)?;
        proof {
            lemma_inverse_is_perm(left@, lmap@);
            lemma_inverse_is_perm(right@, rmap@);
        }
        Ok(Self { left, right })
    }

    /// Builds the table of new ids from a list of old ids (see [`Self::from_iter`]).
    ///
    /// Fails with an invalid-argument error when id 0 occurs, an id is out of range or
    /// occurs twice, and with a conversion error when the list is too long for `u16`
    /// ids.
    pub fn parse(map: Vec<u16>) -> (r: Result<Vec<u16>, VibratoError>)
        ensures
            r is Ok <==> valid_id_map(map@),
            r matches Ok(v) ==> inverse_of(v@, map@),
            (exists|k: int| 0 <= k < map@.len() && map@[k] == 0) ==> (r matches Err(e)
                && e is InvalidArgument),
            r matches Err(e) ==> (e is InvalidArgument || e is TryFromInt),
    {
        let n = map.len();
        let mut k: usize = 0;
        while k < n
            invariant
                k <= n == map@.len(),
                forall|j: int| 0 <= j < k ==> map@[j] != 0,
            decreases n - k,
        {
            if map[k] == BOS_EOS_CONNECTION_ID {
                return Err(VibratoError::invalid_argument("map", "Id 0 is reserved."));
            }
            k = k + 1;
        }
        if n > 0xffff {
            return Err(VibratoError::TryFromInt);
        }
        let len = n + 1;
        let mut new_ids: Vec<u16> = vec![u16::MAX; len];
        new_ids.set(0, BOS_EOS_CONNECTION_ID);
        let mut new_id: usize = 1;
        while new_id < len
            invariant
                1 <= new_id <= len == n + 1,
                n <= 0xffff,
                n == map@.len(),
                new_ids@.len() == len,
                forall|j: int| 0 <= j < n ==> map@[j] != 0,
                new_ids@[0] == 0,
                forall|k: int| 0 <= k < new_id - 1 ==> 1 <= #[trigger] map@[k] <= n,
                forall|i: int, j: int| 0 <= i < j < new_id - 1 ==> map@[i] != map@[j],
                forall|k: int| 0 <= k < new_id - 1 ==> new_ids@[#[trigger] map@[k] as int] == k + 1,
                forall|p: int|
                    1 <= p < len ==> (new_ids@[p] == u16::MAX || exists|k: int|
                        0 <= k < new_id - 1 && #[trigger] map@[k] == p),
            decreases len - new_id,
        {
            let old_id = map[new_id - 1];
            if (old_id as usize) < len {
                let ghost prev = new_ids@;
                if new_ids[old_id as usize] != u16::MAX {
                    proof {
                        let k = choose|k: int| 0 <= k < new_id - 1 && #[trigger] map@[k] == old_id;
                        assert(map@[k] == map@[new_id - 1]);
                    }
                    return Err(VibratoError::invalid_argument("map", "ids are duplicate."));
                }
                new_ids.set(old_id as usize, new_id as u16);
                assert forall|i: int, j: int| 0 <= i < j < new_id implies map@[i] != map@[j] by {
                    if j == new_id - 1 {
                        if map@[i] == old_id {
                            assert(prev[map@[i] as int] == i + 1);
                        }
                    }
                }
            } else {
                assert(!valid_id_map(map@)) by {
                    assert(!(1 <= map@[new_id - 1] <= n));
                }
                return Err(VibratoError::invalid_argument("map", "ids are out of range."));
            }
            new_id = new_id + 1;
        }
        Ok(new_ids)
    }
}

/// The table built from a valid list of old ids is a permutation.
pub proof fn lemma_inverse_is_perm(v: Seq<u16>, map: Seq<u16>)
    requires
        valid_id_map(map),
        inverse_of(v, map),
    ensures
        is_perm(v),
{
    let n = map.len();
    // Every position p in 1..=n is the image of some k (pigeonhole on the distinct ids).
    assert forall|p: int| 1 <= p <= n implies #[trigger] covered(map, p) by {
        lemma_distinct_covers(map, p);
    }
    assert forall|i: int| 0 <= i < v.len() implies (#[trigger] v[i] as int) < v.len() by {
        if i > 0 {
            assert(covered(map, i));
            let k = choose|k: int| 0 <= k < n && #[trigger] map[k] == i;
            assert(v[map[k] as int] == k + 1);
        }
    }
    assert forall|i: int, j: int| 0 <= i < j < v.len() implies v[i] != v[j] by {
        assert(covered(map, j));
        if i == 0 {
            let kj = choose|k: int| 0 <= k < n && #[trigger] map[k] == j;
            assert(v[map[kj] as int] == kj + 1);
        } else {
            assert(covered(map, i));
            let ki = choose|k: int| 0 <= k < n && #[trigger] map[k] == i;
            let kj = choose|k: int| 0 <= k < n && #[trigger] map[k] == j;
            assert(v[map[ki] as int] == ki + 1);
            assert(v[map[kj] as int] == kj + 1);
        }
    }
}

/// Some item of `map` is `p`.
pub open spec fn covered(map: Seq<u16>, p: int) -> bool {
    exists|k: int| 0 <= k < map.len() && #[trigger] map[k] == p
}

/// A list of `n` distinct values in `1..=n` contains every value in `1..=n`.
proof fn lemma_distinct_covers(map: Seq<u16>, p: int)
    requires
        valid_id_map(map),
        1 <= p <= map.len(),
    ensures
        exists|k: int| 0 <= k < map.len() && #[trigger] map[k] == p,
{
    let n = map.len();
    if !(exists|k: int| 0 <= k < n && #[trigger] map[k] == p) {
        // The values all lie in 1..=n without p: n distinct values in a set of n - 1.
        let s = map.to_set();
        let range = Set::new(|x: u16| 1 <= x <= n && x != p);
        assert(s.subset_of(range));
        lemma_range_set_len(n as int, p);
        vstd::set_lib::lemma_len_subset(s, range);
        assert(map.no_duplicates()) by {
            assert forall|i: int, j: int| 0 <= i < map.len() && 0 <= j < map.len() && i != j
                implies map[i] != map[j] by {
                if i < j {
                    assert(map[i] != map[j]);
                } else {
                    assert(map[j] != map[i]);
                }
            }
        }
        map.unique_seq_to_set();
    }
}

/// The set of `u16` values in `1..=n` other than `p` has `n - 1` elements.
proof fn lemma_range_set_len(n: int, p: int)
    requires
        1 <= p <= n <= 0xffff,
    ensures
        Set::new(|x: u16| 1 <= x <= n && x != p).finite(),
        Set::new(|x: u16| 1 <= x <= n && x != p).len() == n - 1,
    decreases n,
{
    let s = Set::new(|x: u16| 1 <= x <= n && x != p);
    if n == 1 {
        assert(s =~= Set::empty());
    } else if p == n {
        let t = Set::new(|x: u16| 1 <= x <= n - 1 && x != n - 1);
        lemma_range_set_len(n - 1, n - 1);
        assert(s =~= t.insert((n - 1) as u16));
    } else {
        let t = Set::new(|x: u16| 1 <= x <= n - 1 && x != p);
        lemma_range_set_len(n - 1, p);
        assert(s =~= t.insert(n as u16));
    }
}

/// The counts after one more occurrence of `id`; a count at `usize::MAX` stays.
pub open spec fn bump(counts: Seq<usize>, id: int) -> Seq<usize> {
    counts.update(
        id,
        if counts[id] < usize::MAX {
            (counts[id] + 1) as usize
        } else {
            counts[id]
        },
    )
}

/// The counts after an occurrence of the left id of each pair, in order.
pub open spec fn count_lefts(counts: Seq<usize>, pairs: Seq<(u16, u16)>) -> Seq<usize>
    decreases pairs.len(),
{
    if pairs.len() == 0 {
        counts
    } else {
        bump(count_lefts(counts, pairs.drop_last()), pairs.last().0 as int)
    }
}

/// The counts after an occurrence of the right id of each pair, in order.
pub open spec fn count_rights(counts: Seq<usize>, pairs: Seq<(u16, u16)>) -> Seq<usize>
    decreases pairs.len(),
{
    if pairs.len() == 0 {
        counts
    } else {
        bump(count_rights(counts, pairs.drop_last()), pairs.last().1 as int)
    }
}

/// Id `a` ranks before id `b`: it occurs more often, or as often with a smaller
/// id.
pub open spec fn ranks_before(counts: Seq<usize>, a: usize, b: usize) -> bool {
    counts[a as int] > counts[b as int] || (counts[a as int] == counts[b as int] && a < b)
}

/// Ranking is transitive.
proof fn lemma_ranks_transitive(counts: Seq<usize>, a: usize, b: usize, c: usize)
    requires
        ranks_before(counts, a, b),
        ranks_before(counts, b, c),
    ensures
        ranks_before(counts, a, c),
{
}

/// The ids from 1 (leaving out BOS/EOS), the most frequent first, equals in
/// increasing order.
pub fn rank_ids(counts: &[usize]) -> (r: Vec<usize>)
    ensures
        r@.len() == if counts@.len() == 0 { 0 } else { counts@.len() - 1 },
        forall|i: int| 0 <= i < r@.len() ==> 1 <= #[trigger] r@[i] < counts@.len(),
        forall|x: usize| 1 <= x < counts@.len() ==> #[trigger] r@.contains(x),
        forall|i: int, j: int| 0 <= i < j < r@.len() ==> ranks_before(counts@, r@[i], r@[j]),
{
    let n = counts.len();
    let mut r: Vec<usize> = Vec::new();
    if n == 0 {
        return r;
    }
    let mut id: usize = 1;
    while id < n
        invariant
            1 <= id <= n == counts@.len(),
            r@.len() == id - 1,
            forall|i: int| 0 <= i < r@.len() ==> 1 <= #[trigger] r@[i] < id,
            forall|x: usize| 1 <= x < id ==> #[trigger] r@.contains(x),
            forall|i: int, j: int| 0 <= i < j < r@.len() ==> ranks_before(counts@, r@[i], r@[j]),
        decreases n - id,
    {
        let m = r.len();
        let mut p: usize = 0;
        while p < m && (counts[r[p]] > counts[id] || (counts[r[p]] == counts[id] && r[p] < id))
            invariant
                p <= m == r@.len(),
                id < n == counts@.len(),
                forall|i: int| 0 <= i < r@.len() ==> 1 <= #[trigger] r@[i] < id,
                forall|i: int| 0 <= i < p ==> ranks_before(counts@, #[trigger] r@[i], id),
            decreases m - p,
        {
            p = p + 1;
        }
        let ghost old_r = r@;
        r.insert(p, id);
        proof {
            assert(r@ == old_r.insert(p as int, id));
            if p < m {
                assert(!ranks_before(counts@, old_r[p as int], id));
                assert(ranks_before(counts@, id, old_r[p as int]));
            }
            assert forall|i: int, j: int| 0 <= i < j < r@.len() implies ranks_before(counts@, r@[i], r@[j]) by {
                if j < p {
                    assert(r@[i] == old_r[i] && r@[j] == old_r[j]);
                } else if j == p {
                    assert(r@[i] == old_r[i]);
                } else if i < p {
                    assert(r@[i] == old_r[i] && r@[j] == old_r[j - 1]);
                    assert(ranks_before(counts@, old_r[i], id));
                    assert(ranks_before(counts@, id, old_r[p as int]));
                    if j - 1 > p {
                        lemma_ranks_transitive(counts@, id, old_r[p as int], old_r[j - 1]);
                    }
                    lemma_ranks_transitive(counts@, old_r[i], id, old_r[j - 1]);
                } else if i == p {
                    assert(r@[j] == old_r[j - 1]);
                    if j - 1 > p {
                        lemma_ranks_transitive(counts@, id, old_r[p as int], old_r[j - 1]);
                    }
                } else {
                    assert(r@[i] == old_r[i - 1] && r@[j] == old_r[j - 1]);
                }
            }
            assert forall|x: usize| 1 <= x < id + 1 implies #[trigger] r@.contains(x) by {
                if x == id {
                    assert(r@[p as int] == id);
                } else {
                    assert(old_r.contains(x));
                    let k = choose|k: int| 0 <= k < old_r.len() && old_r[k] == x;
                    if k < p {
                        assert(r@[k] == x);
                    } else {
                        assert(r@[k + 1] == x);
                    }
                }
            }
        }
        id = id + 1;
    }
    r
}

/// Counter of occurrences of connection ids.
pub struct ConnIdCounter {
    lid_count: Vec<usize>,
    rid_count: Vec<usize>,
}

impl ConnIdCounter {
    /// Occurrences of left ids.
    pub closed spec fn lid_counts(&self) -> Seq<usize> {
        self.lid_count@
    }

    /// Occurrences of right ids.
    pub closed spec fn rid_counts(&self) -> Seq<usize> {
        self.rid_count@
    }

    /// Creates a new counter for the matrix of `num_left` x `num_right`.
    pub fn new(num_left: usize, num_right: usize) -> (r: Self)
        ensures
            r.lid_counts() == Seq::new(num_left as nat, |_i: int| 0usize),
            r.rid_counts() == Seq::new(num_right as nat, |_i: int| 0usize),
    {
        let r = Self { lid_count: vec![0; num_left], rid_count: vec![0; num_right] };
        assert(r.lid_count@ =~= Seq::new(num_left as nat, |_i: int| 0usize));
        assert(r.rid_count@ =~= Seq::new(num_right as nat, |_i: int| 0usize));
        r
    }

    /// Adds `num` occurrences of the pair of ids.
    pub fn add(&mut self, left_id: u16, right_id: u16, num: usize)
        requires
            (left_id as int) < old(self).lid_counts().len(),
            (right_id as int) < old(self).rid_counts().len(),
            old(self).lid_counts()[left_id as int] + num <= usize::MAX,
            old(self).rid_counts()[right_id as int] + num <= usize::MAX,
        ensures
            final(self).lid_counts() == old(self).lid_counts().update(
                left_id as int,
                (old(self).lid_counts()[left_id as int] + num) as usize,
            ),
            final(self).rid_counts() == old(self).rid_counts().update(
                right_id as int,
                (old(self).rid_counts()[right_id as int] + num) as usize,
            ),
    {
        let l = self.lid_count[left_id as usize];
        self.lid_count.set(left_id as usize, l + num);
        let r = self.rid_count[right_id as usize];
        self.rid_count.set(right_id as usize, r + num);
    }

    /// Adds one occurrence of the pair of ids; a count at `usize::MAX` stays.
    pub fn add_one(&mut self, left_id: u16, right_id: u16)
        requires
            (left_id as int) < old(self).lid_counts().len(),
            (right_id as int) < old(self).rid_counts().len(),
        ensures
            final(self).lid_counts() == bump(old(self).lid_counts(), left_id as int),
            final(self).rid_counts() == bump(old(self).rid_counts(), right_id as int),
    {
        let l = self.lid_count[left_id as usize];
        if l < usize::MAX {
            self.lid_count.set(left_id as usize, l + 1);
        }
        let r = self.rid_count[right_id as usize];
        if r < usize::MAX {
            self.rid_count.set(right_id as usize, r + 1);
        }
        assert(self.lid_count@ =~= bump(old(self).lid_counts(), left_id as int));
        assert(self.rid_count@ =~= bump(old(self).rid_counts(), right_id as int));
    }

    /// The occurrences of left ids.
    pub fn lid_count(&self) -> (r: &[usize])
        ensures
            r@ == self.lid_counts(),
    {
        self.lid_count.as_slice()
    }

    /// The occurrences of right ids.
    pub fn rid_count(&self) -> (r: &[usize])
        ensures
            r@ == self.rid_counts(),
    {
        self.rid_count.as_slice()
    }
}

} // verus!

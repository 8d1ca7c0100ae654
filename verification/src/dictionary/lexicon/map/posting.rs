//! Lists of word ids, stored one after another with their lengths.
use vstd::prelude::*;

use crate::errors::VibratoError;

verus! {

/// The list stored at `i`: its length at `i`, then its ids.
pub open spec fn list_at(data: Seq<u32>, i: int) -> Seq<u32> {
    data.subrange(i + 1, i + 1 + data[i])
}

/// A list is stored at `i`.
pub open spec fn list_fits(data: Seq<u32>, i: int) -> bool {
    0 <= i < data.len() && i + 1 + data[i] <= data.len()
}

/// Lists of word ids.
pub struct Postings {
    data: Vec<u32>,
}

impl View for Postings {
    type V = Seq<u32>;

    closed spec fn view(&self) -> Seq<u32> {
        self.data@
    }
}

impl Postings {
    /// Whether a list is stored at `i`.
    pub fn fits(&self, i: usize) -> (r: bool)
        ensures
            r == list_fits(self@, i as int),
    {
        i < self.data.len() && (self.data[i] as usize) < self.data.len() - i
    }

    /// The ids of the list stored at `i`.
    pub fn ids(&self, i: usize) -> (r: Vec<u32>)
        requires
            list_fits(self@, i as int),
        ensures
            r@ == list_at(self@, i as int),
    {
        let len = self.data[i] as usize;
        let dl = self.data.len();
        let mut r: Vec<u32> = Vec::new();
        let mut k: usize = 0;
        while k < len
            invariant
                dl == self.data@.len(),
                k <= len == self.data@[i as int],
                list_fits(self.data@, i as int),
                r@ == self.data@.subrange(i + 1, i + 1 + k),
            decreases len - k,
        {
            r.push(self.data[i + 1 + k]);
            k = k + 1;
            assert(r@ =~= self.data@.subrange(i + 1, i + 1 + k));
        }
        r
    }
}

/// Builder of [`Postings`].
pub struct PostingsBuilder {
    data: Vec<u32>,
}

impl View for PostingsBuilder {
    type V = Seq<u32>;

    closed spec fn view(&self) -> Seq<u32> {
        self.data@
    }
}

impl PostingsBuilder {
    /// An empty builder.
    pub fn new() -> (r: Self)
        ensures
            r@ == Seq::<u32>::empty(),
    {
        Self { data: Vec::new() }
    }

    /// Stores a list and returns where it starts; fails with a conversion error
    /// when the list is too long for its length to fit in `u32`.
    pub fn push(&mut self, ids: &[u32]) -> (r: Result<usize, VibratoError>)
        ensures
            r is Ok <==> ids@.len() <= u32::MAX,
            r matches Ok(off) ==> off == old(self)@.len() && final(self)@ == old(self)@.push(
                ids@.len() as u32,
            ) + ids@,
            r is Err ==> final(self)@ == old(self)@,
            r matches Err(e) ==> e is TryFromInt,
    {
        let offset = self.data.len();
        if ids.len() > 0xffff_ffff {
            return Err(VibratoError::TryFromInt);
        }
        let ghost before = self.data@;
        self.data.push(ids.len() as u32);
        let n = ids.len();
        let mut k: usize = 0;
        while k < n
            invariant
                k <= n == ids@.len(),
                self.data@ == before.push(n as u32) + ids@.take(k as int),
            decreases n - k,
        {
            self.data.push(ids[k]);
            k = k + 1;
            assert(self.data@ =~= before.push(n as u32) + ids@.take(k as int));
        }
        assert(ids@.take(n as int) =~= ids@);
        Ok(offset)
    }

    /// Number of stored numbers.
    pub fn len(&self) -> (r: usize)
        ensures
            r == self@.len(),
    {
        self.data.len()
    }

    /// The stored lists.
    pub fn build(self) -> (r: Postings)
        ensures
            r@ == self@,
    {
        Postings { data: self.data }
    }
}

/// A pushed list reads back from where it was stored.
pub proof fn lemma_pushed_list_reads_back(before: Seq<u32>, ids: Seq<u32>)
    requires
        ids.len() <= u32::MAX,
    ensures
        list_fits(before.push(ids.len() as u32) + ids, before.len() as int),
        list_at(before.push(ids.len() as u32) + ids, before.len() as int) == ids,
{
    let after = before.push(ids.len() as u32) + ids;
    assert(after[before.len() as int] == ids.len() as u32);
    assert(list_at(after, before.len() as int) =~= ids);
}

/// Pushing a list keeps every list stored before it.
pub proof fn lemma_push_keeps_lists(before: Seq<u32>, ids: Seq<u32>, i: int)
    requires
        ids.len() <= u32::MAX,
        list_fits(before, i),
    ensures
        list_fits(before.push(ids.len() as u32) + ids, i),
        list_at(before.push(ids.len() as u32) + ids, i) == list_at(before, i),
{
    let after = before.push(ids.len() as u32) + ids;
    assert(after[i] == before[i]);
    assert(list_at(after, i) =~= list_at(before, i));
}

} // verus!

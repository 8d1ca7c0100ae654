//! Parameters of words: connection ids and cost.
use vstd::prelude::*;

use crate::dictionary::mapper::ConnIdMapper;

verus! {

/// Left and right connection ids and the cost of a word.
#[derive(Clone, Copy, Debug, PartialEq, Eq, Structural)]
pub struct WordParam {
    /// Left connection id.
    pub left_id: u16,
    /// Right connection id.
    pub right_id: u16,
    /// Cost of the word.
    pub word_cost: i16,
}

impl Default for WordParam {
    fn default() -> (r: Self)
        ensures
            r.left_id == 0 && r.right_id == 0 && r.word_cost == 0,
    {
        Self::new(0, 0, 0)
    }
}

impl WordParam {
    /// Creates a new instance.
    pub fn new(left_id: u16, right_id: u16, word_cost: i16) -> (r: Self)
        ensures
            r.left_id == left_id,
            r.right_id == right_id,
            r.word_cost == word_cost,
    {
        Self { left_id, right_id, word_cost }
    }
}

/// `p` with its connection ids renamed by the new-id tables `left` and `right`.
pub open spec fn mapped_param(p: WordParam, left: Seq<u16>, right: Seq<u16>) -> WordParam {
    WordParam { left_id: left[p.left_id as int], right_id: right[p.right_id as int], word_cost: p.word_cost }
}

/// Every connection id of `ps` is below the given counts.
pub open spec fn params_within(ps: Seq<WordParam>, num_left: int, num_right: int) -> bool {
    forall|i: int|
        0 <= i < ps.len() ==> (#[trigger] ps[i]).left_id < num_left && ps[i].right_id < num_right
}

/// The parameters of the words of a lexicon, indexed by word id.
pub struct WordParams {
    params: Vec<WordParam>,
}

impl View for WordParams {
    type V = Seq<WordParam>;

    closed spec fn view(&self) -> Seq<WordParam> {
        self.params@
    }
}

impl WordParams {
    /// Creates a new instance.
    pub fn new(params: Vec<WordParam>) -> (r: Self)
        ensures
            r@ == params@,
    {
        Self { params }
    }

    /// The parameters of word `word_id`.
    pub fn get(&self, word_id: usize) -> (r: WordParam)
        requires
            word_id < self@.len(),
        ensures
            r == self@[word_id as int],
    {
        self.params[word_id]
    }

    /// Number of words.
    pub fn len(&self) -> (r: usize)
        ensures
            r == self@.len(),
    {
        self.params.len()
    }

    /// Renames the connection ids of every word by `mapper`.
    pub fn do_mapping(&mut self, mapper: &ConnIdMapper)
        requires
            params_within(old(self)@, mapper.left_map().len() as int, mapper.right_map().len() as int),
        ensures
            final(self)@.len() == old(self)@.len(),
            forall|i: int|
                0 <= i < old(self)@.len() ==> #[trigger] final(self)@[i] == mapped_param(
                    old(self)@[i],
                    mapper.left_map(),
                    mapper.right_map(),
                ),
    {
        let ghost old_params = self.params@;
        let n = self.params.len();
        let mut i: usize = 0;
        while i < n
            invariant
                i <= n == self.params@.len() == old_params.len(),
                params_within(old_params, mapper.left_map().len() as int, mapper.right_map().len() as int),
                forall|j: int| 0 <= j < i ==> #[trigger] self.params@[j] == mapped_param(
                    old_params[j],
                    mapper.left_map(),
                    mapper.right_map(),
                ),
                forall|j: int| i <= j < n ==> #[trigger] self.params@[j] == old_params[j],
            decreases n - i,
        {
            let p = self.params[i];
            assert(p == old_params[i as int]);
            let q = WordParam::new(mapper.left(p.left_id), mapper.right(p.right_id), p.word_cost);
            self.params.set(i, q);
            i = i + 1;
        }
    }
}

} // verus!

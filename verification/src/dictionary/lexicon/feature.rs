//! Features of words.
use vstd::prelude::*;

verus! {

/// The feature strings of the words of a lexicon, with the first character of
/// each word, indexed by word id.
pub struct WordFeatures {
    features: Vec<String>,
    chars: Vec<char>,
}

impl WordFeatures {
    /// The features.
    pub closed spec fn feature_seq(&self) -> Seq<Seq<char>> {
        self.features@.map_values(|s: String| s@)
    }

    /// The first characters.
    pub closed spec fn char_seq(&self) -> Seq<char> {
        self.chars@
    }

    /// The two lists have one item per word.
    pub open spec fn wf(&self) -> bool {
        self.feature_seq().len() == self.char_seq().len()
    }

    /// Creates a new instance from pairs of feature and first character.
    pub fn new(source: Vec<(String, char)>) -> (r: Self)
        ensures
            r.wf(),
            r.feature_seq().len() == source@.len(),
            forall|i: int|
                0 <= i < source@.len() ==> #[trigger] r.feature_seq()[i] == source@[i].0@
                    && r.char_seq()[i] == source@[i].1,
    {
        let mut features: Vec<String> = Vec::new();
        let mut chars: Vec<char> = Vec::new();
        let n = source.len();
        let mut k: usize = 0;
        while k < n
            invariant
                k <= n == source@.len(),
                features@.len() == k,
                chars@.len() == k,
                forall|j: int| 0 <= j < k ==> (#[trigger] features@[j])@ == source@[j].0@,
                forall|j: int| 0 <= j < k ==> #[trigger] chars@[j] == source@[j].1,
            decreases n - k,
        {
            let f = source[k].0.clone();
            assert(f@ == source@[k as int].0@);
            features.push(f);
            chars.push(source[k].1);
            assert(features@[k as int]@ == source@[k as int].0@);
            k = k + 1;
        }
        let r = Self { features, chars };
        assert forall|i: int| 0 <= i < n implies #[trigger] r.feature_seq()[i] == source@[i].0@
            && r.char_seq()[i] == source@[i].1 by {
            assert(r.feature_seq()[i] == features@[i]@);
        }
        r
    }

    /// Number of words.
    pub fn len(&self) -> (r: usize)
        requires
            self.wf(),
        ensures
            r == self.feature_seq().len(),
    {
        self.features.len()
    }

    /// The feature of word `word_id`.
    pub fn get(&self, word_id: usize) -> (r: &str)
        requires
            word_id < self.feature_seq().len(),
        ensures
            r@ == self.feature_seq()[word_id as int],
    {
        self.features[word_id].as_str()
    }

    /// The first character of word `word_id`.
    pub fn get_firstchar(&self, word_id: usize) -> (r: char)
        requires
            word_id < self.char_seq().len(),
        ensures
            r == self.char_seq()[word_id as int],
    {
        self.chars[word_id]
    }
}

} // verus!

//! Trie of words, held in a `crawdad` double-array trie.
use vstd::prelude::*;

use crate::errors::VibratoError;

verus! {

#[verifier::external_type_specification]
#[verifier::external_body]
pub struct ExCrawdadTrie(crawdad::Trie);

#[verifier::external_type_specification]
#[verifier::external_body]
pub struct ExCrawdadError(crawdad::errors::CrawdadError);

/// The keys of a `crawdad` trie with their values.
pub uninterp spec fn trie_entries(t: crawdad::Trie) -> Map<Seq<char>, u32>;

/// Whether `crawdad::Trie::from_records` builds a trie of the records (keys with
/// their values, in order) rather than failing.
pub uninterp spec fn crawdad_accepts(records: Seq<(Seq<char>, u32)>) -> bool;

/// The records with their keys as character sequences.
pub open spec fn record_views(recs: Seq<(String, u32)>) -> Seq<(Seq<char>, u32)> {
    recs.map_values(|r: (String, u32)| (r.0@, r.1))
}

/// The character `crawdad` reserves as terminator, which no key may hold.
pub open spec fn end_marker() -> char {
    '\u{ffff}'
}

/// The keys and values of a list of records; a later record of a key wins.
pub open spec fn records_map(recs: Seq<(String, u32)>) -> Map<Seq<char>, u32>
    decreases recs.len(),
{
    if recs.len() == 0 {
        Map::empty()
    } else {
        records_map(recs.drop_last()).insert(recs.last().0@, recs.last().1)
    }
}

/// Some two records have the same key.
pub open spec fn has_duplicate(recs: Seq<(String, u32)>) -> bool {
    exists|i: int, j: int| 0 <= i < j < recs.len() && recs[i].0@ == recs[j].0@
}

/// The values and end positions of the keys that are prefixes of `s`, shortest
/// first.
pub open spec fn prefix_matches(m: Map<Seq<char>, u32>, s: Seq<char>) -> Seq<(u32, usize)>
    decreases s.len(),
{
    if s.len() == 0 {
        seq![]
    } else {
        prefix_matches(m, s.drop_last()) + if m.contains_key(s) {
            seq![(m[s], s.len() as usize)]
        } else {
            seq![]
        }
    }
}

/// `crawdad::Trie::from_records`: builds a trie of the records.
///
/// Stated here as its documentation gives it: it fails when there are no
/// records, a key is empty or two keys are equal; on success no key holds the
/// terminator and the trie holds exactly the records. Whether it succeeds is a
/// function of the records alone (`crawdad_accepts`); its failures for scale
/// limits are not spelled out.
#[verifier::external_body]
fn crawdad_from_records(records: &Vec<(String, u32)>) -> (r: Result<
    crawdad::Trie,
    crawdad::errors::CrawdadError,
>)
    ensures
        records@.len() == 0 ==> r is Err,
        (exists|i: int| 0 <= i < records@.len() && records@[i].0@.len() == 0) ==> r is Err,
        has_duplicate(records@) ==> r is Err,
        r is Ok == crawdad_accepts(record_views(records@)),
        r matches Ok(t) ==> trie_entries(t) == records_map(records@) && forall|i: int|
            0 <= i < records@.len() ==> !(#[trigger] records@[i].0@).contains(end_marker()),
{
    crawdad::Trie::from_records(records.iter().map(|(k, v)| (k.as_str(), *v)))
}

/// `crawdad::Trie::common_prefix_search`: the values of the keys that are
/// prefixes of `input`, with their lengths in characters, shortest first.
/// Stated for an input without the terminator; for one with it, nothing is
/// stated.
#[verifier::external_body]
fn crawdad_common_prefix(t: &crawdad::Trie, input: &[char]) -> (r: Vec<(u32, usize)>)
    ensures
        !input@.contains(end_marker()) ==> r@ == prefix_matches(trie_entries(*t), input@),
{
    t.common_prefix_search(input.iter().copied()).collect()
}

/// A key found in the trie: its value and its end position in characters.
#[derive(Clone, Copy, Debug, PartialEq, Eq, Structural)]
pub struct TrieMatch {
    /// The value of the key.
    pub value: u32,
    /// The length of the key in characters.
    pub end_char: u16,
}

impl TrieMatch {
    /// Creates a new instance.
    pub fn new(value: u32, end_char: u16) -> (r: Self)
        ensures
            r.value == value,
            r.end_char == end_char,
    {
        Self { value, end_char }
    }
}

/// WordTrie of words.
pub struct WordTrie {
    da: crawdad::Trie,
}

impl WordTrie {
    /// The keys with their values.
    pub closed spec fn entries(&self) -> Map<Seq<char>, u32> {
        trie_entries(self.da)
    }

    /// Builds a trie of the records; fails with an invalid-argument error when
    /// `crawdad` does, which it does for no records, an empty key or two equal
    /// keys.
    pub fn from_records(records: &Vec<(String, u32)>) -> (r: Result<Self, VibratoError>)
        ensures
            records@.len() == 0 ==> r is Err,
            (exists|i: int| 0 <= i < records@.len() && records@[i].0@.len() == 0) ==> r is Err,
            has_duplicate(records@) ==> r is Err,
            r is Ok == crawdad_accepts(record_views(records@)),
            r matches Ok(t) ==> t.entries() == records_map(records@),
            r matches Err(e) ==> e is InvalidArgument,
    {
        match crawdad_from_records(records) {
            Ok(da) => Ok(Self { da }),
            Err(_) => Err(VibratoError::invalid_argument("records", "the records do not form a trie")),
        }
    }

    /// The keys that are prefixes of `input`, shortest first.
    pub fn common_prefix_iterator(&self, input: &[char]) -> (r: Vec<TrieMatch>)
        requires
            input@.len() <= 0xffff,
        ensures
            !input@.contains(end_marker()) ==> r@.len() == prefix_matches(self.entries(), input@).len()
                && forall|i: int|
                0 <= i < r@.len() ==> #[trigger] r@[i].value == prefix_matches(self.entries(), input@)[i].0
                    && r@[i].end_char == prefix_matches(self.entries(), input@)[i].1,
    {
        let found = crawdad_common_prefix(&self.da, input);
        let mut r: Vec<TrieMatch> = Vec::new();
        let n = found.len();
        let mut k: usize = 0;
        proof {
            if !input@.contains(end_marker()) {
                lemma_prefix_matches_keys(self.entries(), input@);
            }
        }
        while k < n
            invariant
                k <= n == found@.len(),
                r@.len() == k,
                !input@.contains(end_marker()) ==> found@ == prefix_matches(self.entries(), input@),
                !input@.contains(end_marker()) ==> forall|i: int|
                    0 <= i < found@.len() ==> #[trigger] found@[i].1 <= input@.len(),
                input@.len() <= 0xffff,
                forall|i: int|
                    0 <= i < k ==> #[trigger] r@[i].value == found@[i].0 && (found@[i].1 <= 0xffff
                        ==> r@[i].end_char == found@[i].1),
            decreases n - k,
        {
            let (value, end) = found[k];
            let e: u16 = if end <= 0xffff {
                end as u16
            } else {
                0xffff
            };
            r.push(TrieMatch::new(value, e));
            k = k + 1;
        }
        proof {
            if !input@.contains(end_marker()) {
                let pm = prefix_matches(self.entries(), input@);
                assert forall|i: int| 0 <= i < r@.len() implies #[trigger] r@[i].value == pm[i].0
                    && r@[i].end_char == pm[i].1 by {
                    assert(found@[i].1 <= input@.len());
                }
            }
        }
        r
    }
}

/// Each found pair is the value of a key that is a prefix of `s`, with the key's
/// length.
pub proof fn lemma_prefix_matches_keys(m: Map<Seq<char>, u32>, s: Seq<char>)
    requires
        s.len() <= usize::MAX,
    ensures
        forall|i: int|
            0 <= i < prefix_matches(m, s).len() ==> {
                let j = #[trigger] prefix_matches(m, s)[i].1 as int;
                &&& 1 <= j <= s.len()
                &&& m.contains_key(s.take(j))
                &&& prefix_matches(m, s)[i].0 == m[s.take(j)]
            },
    decreases s.len(),
{
    if s.len() > 0 {
        lemma_prefix_matches_keys(m, s.drop_last());
        let a = prefix_matches(m, s.drop_last());
        let full = prefix_matches(m, s);
        let tail = if m.contains_key(s) {
            seq![(m[s], s.len() as usize)]
        } else {
            Seq::<(u32, usize)>::empty()
        };
        assert(full == a + tail);
        assert forall|i: int| 0 <= i < full.len() implies {
            let j = #[trigger] full[i].1 as int;
            &&& 1 <= j <= s.len()
            &&& m.contains_key(s.take(j))
            &&& full[i].0 == m[s.take(j)]
        } by {
            if i < a.len() {
                assert(full[i] == a[i]);
                let j = a[i].1 as int;
                assert(s.drop_last().take(j) =~= s.take(j));
            } else {
                assert(full[i] == tail[i - a.len()]);
                assert(s.take(s.len() as int) =~= s);
            }
        }
    }
}

} // verus!

//! Map from surface strings to word ids.
use vstd::prelude::*;

pub mod posting;
pub mod trie;

use crate::dictionary::lexicon::map::posting::{list_at, list_fits, Postings, PostingsBuilder};
use crate::dictionary::lexicon::map::trie::{
    crawdad_accepts, end_marker, has_duplicate, lemma_prefix_matches_keys, prefix_matches, record_views,
    records_map, WordTrie,
};
use crate::errors::VibratoError;
use crate::utils::{id_map_view, IdMap};

verus! {

/// The pairs `(word id, end position)` of the words whose surfaces are prefixes of
/// `s`, shorter surfaces first, the ids of one surface in the order added.
pub open spec fn word_matches(m: Map<Seq<char>, Seq<u32>>, s: Seq<char>) -> Seq<(u32, u32)>
    decreases s.len(),
{
    if s.len() == 0 {
        seq![]
    } else {
        word_matches(m, s.drop_last()) + if m.contains_key(s) {
            m[s].map_values(|id: u32| (id, s.len() as u32))
        } else {
            seq![]
        }
    }
}

/// The ids of a list of words, the `i`-th word having id `i`, grouped by surface.
pub open spec fn ids_of_words(words: Seq<Seq<char>>) -> Map<Seq<char>, Seq<u32>>
    decreases words.len(),
{
    if words.len() == 0 {
        Map::empty()
    } else {
        let m = ids_of_words(words.drop_last());
        let w = words.last();
        let id = (words.len() - 1) as u32;
        m.insert(w, if m.contains_key(w) { m[w].push(id) } else { seq![id] })
    }
}

/// Every id in `m` is below `n`.
pub open spec fn ids_below_n(m: Map<Seq<char>, Seq<u32>>, n: int) -> bool {
    forall|k: Seq<char>, j: int|
        m.contains_key(k) && 0 <= j < m[k].len() ==> (#[trigger] m[k][j] as int) < n
}

pub proof fn lemma_ids_of_words_below(words: Seq<Seq<char>>)
    requires
        words.len() <= u32::MAX + 1,
    ensures
        ids_below_n(ids_of_words(words), words.len() as int),
        forall|i: int| 0 <= i < words.len() ==> ids_of_words(words).contains_key(#[trigger] words[i]),
    decreases words.len(),
{
    if words.len() > 0 {
        lemma_ids_of_words_below(words.drop_last());
        assert forall|i: int| 0 <= i < words.len() implies ids_of_words(words).contains_key(#[trigger] words[i]) by {
            if i < words.len() - 1 {
                assert(words.drop_last()[i] == words[i]);
            }
        }
    }
}

/// Where the list of the `k`-th surface starts when the lists of the surfaces
/// are stored one after another, each after its length.
pub open spec fn list_offset(surfs: Seq<Seq<char>>, m: Map<Seq<char>, Seq<u32>>, k: int) -> int
    decreases k,
{
    if k <= 0 {
        0
    } else {
        list_offset(surfs, m, k - 1) + m[surfs[k - 1]].len() + 1
    }
}

/// The records of the trie: each surface with where its list starts.
pub open spec fn layout_records(surfs: Seq<Seq<char>>, m: Map<Seq<char>, Seq<u32>>) -> Seq<(Seq<char>, u32)> {
    Seq::new(surfs.len(), |k: int| (surfs[k], list_offset(surfs, m, k) as u32))
}

/// The lists fit in `u32` positions and `crawdad` builds a trie of the records.
pub open spec fn layout_ok(surfs: Seq<Seq<char>>, m: Map<Seq<char>, Seq<u32>>) -> bool {
    &&& list_offset(surfs, m, surfs.len() as int) <= u32::MAX
    &&& crawdad_accepts(layout_records(surfs, m))
}

/// The distinct surfaces of a list of words in the order they first occur.
pub open spec fn first_seen(words: Seq<Seq<char>>) -> Seq<Seq<char>>
    decreases words.len(),
{
    if words.len() == 0 {
        seq![]
    } else {
        let p = first_seen(words.drop_last());
        if ids_of_words(words.drop_last()).contains_key(words.last()) {
            p
        } else {
            p.push(words.last())
        }
    }
}

/// A word map of the list of words can be built.
pub open spec fn word_map_ok(words: Seq<Seq<char>>) -> bool {
    layout_ok(first_seen(words), ids_of_words(words))
}

proof fn lemma_list_offset_mono(surfs: Seq<Seq<char>>, m: Map<Seq<char>, Seq<u32>>, a: int, b: int)
    requires
        0 <= a <= b,
    ensures
        list_offset(surfs, m, a) <= list_offset(surfs, m, b),
    decreases b,
{
    if a < b {
        lemma_list_offset_mono(surfs, m, a, b - 1);
    }
}

/// Builder of a [`WordMap`]: the ids added for each surface, in order.
pub struct WordMapBuilder {
    index: IdMap,
    entries: Vec<(String, Vec<u32>)>,
}

impl WordMapBuilder {
    /// The ids added for each surface.
    pub closed spec fn records(&self) -> Map<Seq<char>, Seq<u32>> {
        Map::new(
            |k: Seq<char>| id_map_view(self.index).contains_key(k),
            |k: Seq<char>| self.entries@[id_map_view(self.index)[k] as int].1@,
        )
    }

    /// The index finds every entry, and the entries have distinct surfaces.
    pub closed spec fn wf(&self) -> bool {
        &&& self.entries@.len() < 0xffff_ffff
        &&& id_map_view(self.index).dom().finite()
        &&& id_map_view(self.index).len() == self.entries@.len()
        &&& forall|k: Seq<char>|
            #[trigger] id_map_view(self.index).contains_key(k) ==> (id_map_view(self.index)[k] as int)
                < self.entries@.len() && self.entries@[id_map_view(self.index)[k] as int].0@ == k
        &&& forall|i: int|
            0 <= i < self.entries@.len() ==> id_map_view(self.index).contains_key(
                (#[trigger] self.entries@[i]).0@,
            ) && id_map_view(self.index)[self.entries@[i].0@] == i
    }

    /// The distinct surfaces in the order they were first added.
    pub closed spec fn surfaces(&self) -> Seq<Seq<char>> {
        self.entries@.map_values(|e: (String, Vec<u32>)| e.0@)
    }

    /// Number of distinct surfaces.
    pub closed spec fn num_words(&self) -> nat {
        self.entries@.len()
    }

    /// An empty builder.
    pub fn new() -> (r: Self)
        ensures
            r.wf(),
            r.records() == Map::<Seq<char>, Seq<u32>>::empty(),
            r.surfaces() == Seq::<Seq<char>>::empty(),
            r.num_words() == 0,
    {
        let r = Self { index: IdMap::new(), entries: Vec::new() };
        assert(r.records() =~= Map::<Seq<char>, Seq<u32>>::empty());
        assert(r.surfaces() =~= Seq::<Seq<char>>::empty());
        r
    }

    /// Adds `id` to the ids of `word`.
    pub fn add_record(&mut self, word: String, id: u32)
        requires
            old(self).wf(),
            old(self).num_words() < 0xffff_fffe,
        ensures
            final(self).wf(),
            final(self).records() == old(self).records().insert(
                word@,
                if old(self).records().contains_key(word@) {
                    old(self).records()[word@].push(id)
                } else {
                    seq![id]
                },
            ),
            final(self).surfaces() == if old(self).records().contains_key(word@) {
                old(self).surfaces()
            } else {
                old(self).surfaces().push(word@)
            },
            final(self).num_words() <= old(self).num_words() + 1,
            final(self).num_words() >= 1,
    {
        let ghost old_map = id_map_view(self.index);
        let ghost old_entries = self.entries@;
        match self.index.get(word.as_str()) {
            Some(i) => {
                let iu = i as usize;
                let mut ids = self.entries[iu].1.clone();
                assert(ids@ == old_entries[iu as int].1@);
                ids.push(id);
                let key = self.entries[iu].0.clone();
                self.entries.set(iu, (key, ids));
                assert(self.records() =~= old(self).records().insert(word@, old(self).records()[word@].push(id)));
                assert(self.surfaces() =~= old(self).surfaces());
            },
            None => {
                let n = self.entries.len();
                let key = word.clone();
                self.index.insert(key, n as u32);
                let mut ids: Vec<u32> = Vec::new();
                ids.push(id);
                self.entries.push((word, ids));
                assert(id_map_view(self.index).dom() =~= old_map.dom().insert(word@));
                assert(self.records() =~= old(self).records().insert(word@, seq![id]));
                assert(self.surfaces() =~= old(self).surfaces().push(word@));
            },
        }
    }

    /// Builds the map: each surface's ids stored as a list, the trie mapping
    /// the surface to where its list starts.
    pub fn build(self) -> (r: Result<WordMap, VibratoError>)
        requires
            self.wf(),
        ensures
            r matches Ok(m) ==> m.wf() && m.records() == self.records(),
            self.num_words() == 0 ==> r is Err,
            self.records().contains_key(Seq::<char>::empty()) ==> r is Err,
            r is Ok <==> layout_ok(self.surfaces(), self.records()),
    {
        let ghost surfs = self.surfaces();
        let ghost m0 = self.records();
        proof {
            assert forall|i: int| 0 <= i < self.entries@.len() implies #[trigger] m0[surfs[i]] == self.entries@[i].1@ by {
                assert(id_map_view(self.index)[self.entries@[i].0@] == i);
            }
        }
        let mut builder = PostingsBuilder::new();
        let mut recs: Vec<(String, u32)> = Vec::new();
        let n = self.entries.len();
        let mut k: usize = 0;
        while k < n
            invariant
                k <= n == self.entries@.len(),
                self.wf(),
                recs@.len() == k,
                forall|i: int| 0 <= i < k ==> (#[trigger] recs@[i]).0@ == self.entries@[i].0@,
                forall|i: int|
                    0 <= i < k ==> list_fits(builder@, (#[trigger] recs@[i]).1 as int) && list_at(
                        builder@,
                        recs@[i].1 as int,
                    ) == self.entries@[i].1@,
                builder@.len() <= u32::MAX,
                surfs == self.surfaces(),
                m0 == self.records(),
                surfs.len() == n,
                forall|i: int| 0 <= i < n ==> #[trigger] m0[surfs[i]] == self.entries@[i].1@,
                builder@.len() == list_offset(surfs, m0, k as int),
                record_views(recs@) == layout_records(surfs, m0).take(k as int),
            decreases n - k,
        {
            let ghost before = builder@;
            let ids = &self.entries[k].1;
            assert(m0[surfs[k as int]] == ids@);
            let offset = match builder.push(ids.as_slice()) {
                Ok(o) => o,
                Err(e) => {
                    proof {
                        lemma_list_offset_mono(surfs, m0, k + 1, n as int);
                    }
                    return Err(e);
                },
            };
            if builder.len() > 0xffff_ffff {
                proof {
                    lemma_list_offset_mono(surfs, m0, k + 1, n as int);
                }
                return Err(VibratoError::invalid_argument("records", "too many word ids"));
            }
            let key = self.entries[k].0.clone();
            let ghost rv0 = recs@;
            recs.push((key, offset as u32));
            proof {
                assert(record_views(recs@) =~= record_views(rv0).push((surfs[k as int], offset as u32)));
                assert(layout_records(surfs, m0).take(k + 1) =~= layout_records(surfs, m0).take(k as int).push(
                    layout_records(surfs, m0)[k as int],
                ));
                assert forall|i: int| 0 <= i < k + 1 implies list_fits(builder@, (#[trigger] recs@[i]).1 as int)
                    && list_at(builder@, recs@[i].1 as int) == self.entries@[i].1@ by {
                    if i < k {
                        assert(list_at(builder@, recs@[i].1 as int) =~= list_at(before, recs@[i].1 as int));
                    } else {
                        assert(list_at(builder@, offset as int) =~= ids@);
                    }
                }
            }
            k = k + 1;
        }
        proof {
            assert forall|i: int, j: int| 0 <= i < j < recs@.len() implies recs@[i].0@ != recs@[j].0@ by {
                assert(id_map_view(self.index)[self.entries@[i].0@] == i);
                assert(id_map_view(self.index)[self.entries@[j].0@] == j);
            }
            if self.records().contains_key(Seq::<char>::empty()) {
                let i = id_map_view(self.index)[Seq::<char>::empty()] as int;
                assert(recs@[i].0@.len() == 0);
            }
        }
        assert(layout_records(surfs, m0).take(n as int) =~= layout_records(surfs, m0));
        let trie = WordTrie::from_records(&recs)?;
        let postings = builder.build();
        let ghost recs_view = recs@;
        let m = WordMap { trie, postings, words: Ghost(self.records()) };
        proof {
            assert forall|key: Seq<char>| #[trigger] m.records().contains_key(key) implies m.trie.entries().contains_key(key)
                && list_fits(m.postings@, m.trie.entries()[key] as int)
                && list_at(m.postings@, m.trie.entries()[key] as int) == m.records()[key] by {
                let i = id_map_view(self.index)[key] as int;
                lemma_records_map_at(recs_view, i);
            }
            assert forall|key: Seq<char>| #[trigger] m.trie.entries().contains_key(key) implies m.records().contains_key(key) by {
                lemma_records_map_dom(recs_view, key);
                let i = choose|i: int| 0 <= i < recs_view.len() && recs_view[i].0@ == key;
                assert(self.entries@[i].0@ == key);
            }
            assert(m.trie.entries().dom() =~= m.records().dom());
        }
        Ok(m)
    }
}

proof fn lemma_records_map_at(recs: Seq<(String, u32)>, i: int)
    requires
        0 <= i < recs.len(),
        forall|a: int, b: int| 0 <= a < b < recs.len() ==> recs[a].0@ != recs[b].0@,
    ensures
        records_map(recs).contains_key(recs[i].0@),
        records_map(recs)[recs[i].0@] == recs[i].1,
    decreases recs.len(),
{
    if i < recs.len() - 1 {
        lemma_records_map_at(recs.drop_last(), i);
    }
}

proof fn lemma_records_map_dom(recs: Seq<(String, u32)>, key: Seq<char>)
    ensures
        records_map(recs).contains_key(key) ==> exists|i: int| 0 <= i < recs.len() && recs[i].0@ == key,
    decreases recs.len(),
{
    if recs.len() > 0 {
        lemma_records_map_dom(recs.drop_last(), key);
        if records_map(recs).contains_key(key) && recs.last().0@ != key {
            let i = choose|i: int| 0 <= i < recs.drop_last().len() && recs.drop_last()[i].0@ == key;
            assert(recs[i].0@ == key);
        }
    }
}

/// Map from surface strings to word ids.
pub struct WordMap {
    trie: WordTrie,
    postings: Postings,
    words: Ghost<Map<Seq<char>, Seq<u32>>>,
}

impl WordMap {
    /// The word ids of each surface.
    pub closed spec fn records(&self) -> Map<Seq<char>, Seq<u32>> {
        self.words@
    }

    /// The trie and the lists agree with the records.
    pub closed spec fn wf(&self) -> bool {
        &&& self.trie.entries().dom() == self.records().dom()
        &&& forall|key: Seq<char>|
            #[trigger] self.records().contains_key(key) ==> list_fits(
                self.postings@,
                self.trie.entries()[key] as int,
            ) && list_at(self.postings@, self.trie.entries()[key] as int) == self.records()[key]
    }

    /// Builds a map where the `i`-th word has id `i`.
    pub fn new(words: &Vec<String>) -> (r: Result<Self, VibratoError>)
        requires
            words@.len() < 0xffff_fffe,
        ensures
            r matches Ok(m) ==> m.wf() && m.records() == ids_of_words(
                words@.map_values(|w: String| w@),
            ),
            words@.len() == 0 ==> r is Err,
            (exists|i: int| 0 <= i < words@.len() && words@[i]@.len() == 0) ==> r is Err,
            r is Ok <==> word_map_ok(words@.map_values(|w: String| w@)),
    {
        let ghost ws = words@.map_values(|w: String| w@);
        let mut b = WordMapBuilder::new();
        let n = words.len();
        let mut i: usize = 0;
        assert(ws.take(0) =~= Seq::<Seq<char>>::empty());
        while i < n
            invariant
                i <= n == words@.len() == ws.len(),
                ws == words@.map_values(|w: String| w@),
                n < 0xffff_fffe,
                b.wf(),
                b.num_words() <= i,
                b.records() == ids_of_words(ws.take(i as int)),
                b.surfaces() == first_seen(ws.take(i as int)),
                i > 0 ==> b.num_words() > 0,
            decreases n - i,
        {
            let w = words[i].clone();
            assert(w@ == ws[i as int]);
            assert(ws.take(i + 1).drop_last() =~= ws.take(i as int));
            b.add_record(w, i as u32);
            i = i + 1;
        }
        assert(ws.take(n as int) =~= ws);
        proof {
            if exists|i: int| 0 <= i < words@.len() && words@[i]@.len() == 0 {
                let i = choose|i: int| 0 <= i < words@.len() && words@[i]@.len() == 0;
                lemma_ids_of_words_below(ws);
                assert(ws[i] =~= Seq::<char>::empty());
            }
        }
        b.build()
    }

    /// The pairs `(word id, end position)` of the words whose surfaces are
    /// prefixes of `input`, shorter surfaces first.
    pub fn common_prefix_iterator(&self, input: &[char]) -> (r: Vec<(u32, u32)>)
        requires
            self.wf(),
            input@.len() <= 0xffff,
        ensures
            !input@.contains(end_marker()) ==> r@ == word_matches(self.records(), input@),
    {
        let found = self.trie.common_prefix_iterator(input);
        let ghost pm = prefix_matches(self.trie.entries(), input@);
        proof {
            if !input@.contains(end_marker()) {
                lemma_prefix_matches_keys(self.trie.entries(), input@);
                lemma_word_matches(self, input@);
                assert forall|i: int| 0 <= i < pm.len() implies list_fits(self.postings@, #[trigger] pm[i].0 as int) by {
                    let j = pm[i].1 as int;
                    let key = input@.take(j);
                    assert(self.records().contains_key(key));
                }
                assert(pm.take(0) =~= Seq::<(u32, usize)>::empty());
            }
        }
        let mut r: Vec<(u32, u32)> = Vec::new();
        let n = found.len();
        let mut k: usize = 0;
        while k < n
            invariant
                k <= n == found@.len(),
                self.wf(),
                pm == prefix_matches(self.trie.entries(), input@),
                !input@.contains(end_marker()) ==> {
                    &&& n == pm.len()
                    &&& forall|i: int|
                        0 <= i < n ==> #[trigger] found@[i].value == pm[i].0 && found@[i].end_char
                            == pm[i].1
                    &&& forall|i: int| 0 <= i < n ==> list_fits(self.postings@, #[trigger] pm[i].0 as int)
                    &&& r@ == expand(self.postings@, pm.take(k as int))
                },
            decreases n - k,
        {
            let m = found[k];
            let v = m.value as usize;
            let ghost before = r@;
            if self.postings.fits(v) {
                let ids = self.postings.ids(v);
                let nids = ids.len();
                let mut j: usize = 0;
                while j < nids
                    invariant
                        j <= nids == ids@.len(),
                        r@ == before + ids@.take(j as int).map_values(|id: u32| (id, m.end_char as u32)),
                    decreases nids - j,
                {
                    r.push((ids[j], m.end_char as u32));
                    j = j + 1;
                    assert(r@ =~= before + ids@.take(j as int).map_values(|id: u32| (id, m.end_char as u32)));
                }
                assert(ids@.take(nids as int) =~= ids@);
            }
            proof {
                if !input@.contains(end_marker()) {
                    assert(pm.take(k + 1).drop_last() =~= pm.take(k as int));
                    assert(pm.take(k + 1).last() == pm[k as int]);
                    assert(list_fits(self.postings@, pm[k as int].0 as int));
                    let e = pm[k as int].1;
                    assert(m.end_char == e);
                    let ids = list_at(self.postings@, v as int);
                    assert(ids.map_values(|id: u32| (id, m.end_char as u32)) =~= ids.map_values(
                        |id: u32| (id, e as u32),
                    ));
                }
            }
            k = k + 1;
        }
        proof {
            if !input@.contains(end_marker()) {
                assert(pm.take(n as int) =~= pm);
            }
        }
        r
    }
}

/// The word ids of the lists at the found values, each paired with its end
/// position.
pub open spec fn expand(p: Seq<u32>, pm: Seq<(u32, usize)>) -> Seq<(u32, u32)>
    decreases pm.len(),
{
    if pm.len() == 0 {
        seq![]
    } else {
        expand(p, pm.drop_last()) + list_at(p, pm.last().0 as int).map_values(
            |id: u32| (id, pm.last().1 as u32),
        )
    }
}

proof fn lemma_word_matches(wm: &WordMap, s: Seq<char>)
    requires
        wm.wf(),
        s.len() <= 0xffff,
    ensures
        word_matches(wm.records(), s) == expand(wm.postings@, prefix_matches(wm.trie.entries(), s)),
    decreases s.len(),
{
    if s.len() > 0 {
        lemma_word_matches(wm, s.drop_last());
        let a = prefix_matches(wm.trie.entries(), s.drop_last());
        let len = s.len() as usize;
        if wm.trie.entries().contains_key(s) {
            let b = a + seq![(wm.trie.entries()[s], len)];
            assert(prefix_matches(wm.trie.entries(), s) == b);
            assert(b.drop_last() =~= a);
            assert(wm.records().contains_key(s));
            let ids = wm.records()[s];
            assert(list_at(wm.postings@, wm.trie.entries()[s] as int) == ids);
            assert(ids.map_values(|id: u32| (id, s.len() as u32)) =~= ids.map_values(
                |id: u32| (id, len as u32),
            ));
        } else {
            assert(prefix_matches(wm.trie.entries(), s) == a + Seq::<(u32, usize)>::empty());
            assert(a + Seq::<(u32, usize)>::empty() =~= a);
            assert(!wm.records().contains_key(s));
            assert(word_matches(wm.records(), s) =~= word_matches(wm.records(), s.drop_last()));
        }
    }
}

} // verus!

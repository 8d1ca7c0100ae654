//! Material for training: corpora of tokenized sentences, the training
//! configuration, rewriting and extraction of features, and the lattices of
//! positive and negative examples that the CRF learns from.
use vstd::prelude::*;

pub mod config;
pub mod corpus;
pub mod feature_extractor;
pub mod feature_rewriter;

use crate::common::MAX_SENTENCE_LENGTH;
use crate::dictionary::lexicon::map::trie::end_marker;
use crate::dictionary::lexicon::param::WordParam;
use crate::dictionary::lexicon::{
    entries_view, entry_view, lemma_lex_matches_fit, lex_csv, lex_matches, EntryView, LexMatch, Lexicon,
};
use crate::dictionary::unknown::{unk_words, words_fit, UnkWord};
use crate::trainer::corpus::{concat_surfaces, words_view, Example, Word, WordsView};
use crate::dictionary::word_idx::WordIdx;
use crate::dictionary::LexType;
use crate::errors::{Fault, VibratoError};
use crate::trainer::config::{extracted_as, extraction, str_refs};
use crate::trainer::feature_extractor::texts;
use crate::trainer::feature_extractor::TemplateKind;
use crate::trainer::feature_rewriter::references_within;
use crate::utils::{chars_of, parse_csv_row, parsed_row, string_from_chars};
use crate::dictionary::Dictionary;
use crate::sentence::{lemma_run_len_bounds, Sentence};
use crate::trainer::config::TrainerConfig;
use rucrf::FeatureProvider as CrfFeatureProvider;
use rucrf::FeatureSet as CrfFeatureSet;
use rucrf::Lattice as CrfLattice;

verus! {

// ---------------------------------------------------------------------
// Lattices of `rucrf`
// ---------------------------------------------------------------------

#[verifier::external_type_specification]
#[verifier::external_body]
pub struct ExLattice(CrfLattice);

/// The edges of each node of a `rucrf::Lattice`, as pairs of target node and label.
pub uninterp spec fn lattice_edges(l: CrfLattice) -> Seq<Seq<(usize, u32)>>;

/// `rucrf::Lattice::new(length)`, which refuses a length of 0 (not asked for here):
/// `length + 1` nodes without edges.
#[verifier::external_body]
fn lattice_new(length: usize) -> (r: CrfLattice)
    requires
        1 <= length < usize::MAX,
    ensures
        lattice_edges(r) == Seq::new((length + 1) as nat, |i: int| Seq::<(usize, u32)>::empty()),
{
    CrfLattice::new(length).unwrap()
}

/// `rucrf::Lattice::add_edge(pos, Edge::new(target, label))`: refused unless
/// `pos < target` and `target` is at most the number of nodes; otherwise the edge is
/// appended to the edges of node `pos`.
#[verifier::external_body]
fn lattice_add_edge(l: &mut CrfLattice, pos: usize, target: usize, label: u32) -> (r: bool)
    requires
        label >= 1,
    ensures
        r == (pos < target && target <= lattice_edges(*old(l)).len()),
        r ==> lattice_edges(*final(l)) == lattice_edges(*old(l)).update(
            pos as int,
            lattice_edges(*old(l))[pos as int].push((target, label)),
        ),
        !r ==> lattice_edges(*final(l)) == lattice_edges(*old(l)),
{
    l.add_edge(pos, rucrf::Edge::new(target, std::num::NonZeroU32::new(label).unwrap())).is_ok()
}

/// `rucrf::Lattice::nodes()[pos].edges().first()`: the first edge of node `pos`,
/// as target and label.
#[verifier::external_body]
fn lattice_first_edge(l: &CrfLattice, pos: usize) -> (r: Option<(usize, u32)>)
    requires
        pos < lattice_edges(*l).len(),
    ensures
        r == (if lattice_edges(*l)[pos as int].len() > 0 {
            Some(lattice_edges(*l)[pos as int][0])
        } else {
            None
        }),
{
    l.nodes()[pos].edges().first().map(|e| (e.target(), e.label().get()))
}

// ---------------------------------------------------------------------
// Negative edges
// ---------------------------------------------------------------------

/// The edges of the system lexicon's words that start at `sw`: target and the word
/// id plus one.
pub open spec fn sys_edges(d: Dictionary, text: Seq<char>, sw: int) -> Seq<(usize, u32)> {
    lex_matches(
        d.system_view().records(),
        d.system_view().params_view(),
        d.system_view().lex_type_view(),
        text.subrange(sw, text.len() as int),
    ).map_values(|m: LexMatch| ((sw + m.end_char) as usize, (m.word_idx.word_id + 1) as u32))
}

/// The edges of the unknown words at `sw`: target and the number of lexicon words
/// `ns` plus the entry's id plus one.
pub open spec fn unk_edges(
    d: Dictionary,
    sent: Sentence,
    sw: int,
    has_matched: bool,
    mgl: Option<usize>,
    ns: int,
) -> Seq<(usize, u32)> {
    unk_words(
        d.unk_view().offsets_view(),
        d.unk_view().entries_view(),
        sent.infos()[sw],
        sent.runs()[sw] as int,
        sw as usize,
        has_matched,
        mgl,
    ).map_values(|w: UnkWord| (w.end_char, (ns + w.word_id + 1) as u32))
}

/// The negative edges at `sw`: the lexicon's words, then the unknown words.
pub open spec fn negative_edges(
    d: Dictionary,
    sent: Sentence,
    sw: int,
    mgl: Option<usize>,
    ns: int,
) -> Seq<(usize, u32)> {
    let sys = sys_edges(d, sent.char_seq(), sw);
    sys + unk_edges(d, sent, sw, sys.len() > 0, mgl, ns)
}

/// A node's edges after the edges `es` are added in turn, each one skipped that
/// equals the node's first edge then.
pub open spec fn add_negs(node: Seq<(usize, u32)>, es: Seq<(usize, u32)>) -> Seq<(usize, u32)>
    decreases es.len(),
{
    if es.len() == 0 {
        node
    } else {
        let prev = add_negs(node, es.drop_last());
        let e = es.last();
        if prev.len() > 0 && prev[0] == e {
            prev
        } else {
            prev.push(e)
        }
    }
}

/// The facts about the dictionary and the sentence that the edges need.
pub open spec fn lattice_input_ok(config: TrainerConfig, sent: Sentence) -> bool {
    let d = config.dictionary();
    &&& config.wf()
    &&& sent.compiled(&d.char_prop_view())
    &&& 1 <= sent.char_seq().len() <= MAX_SENTENCE_LENGTH
    &&& config.surfaces_view().len() + d.unk_view().entries_view().len() < u32::MAX
    &&& d.system_view().params_view().len() < u32::MAX
}

/// Adds the negative edges that start at `sw`.
fn add_negative_edges(
    lattice: &mut CrfLattice,
    config: &TrainerConfig,
    sent: &Sentence,
    mgl: Option<usize>,
    sw: usize,
)
    requires
        lattice_input_ok(*config, *sent),
        sw < sent.char_seq().len(),
        lattice_edges(*old(lattice)).len() == sent.char_seq().len() + 1,
    ensures
        lattice_edges(*final(lattice)).len() == lattice_edges(*old(lattice)).len(),
        forall|j: int|
            0 <= j < lattice_edges(*old(lattice)).len() && j != sw ==> #[trigger] lattice_edges(
                *final(lattice),
            )[j] == lattice_edges(*old(lattice))[j],
        !sent.char_seq().contains(end_marker()) ==> lattice_edges(*final(lattice))[sw as int]
            == add_negs(
            lattice_edges(*old(lattice))[sw as int],
            negative_edges(
                config.dictionary(),
                *sent,
                sw as int,
                mgl,
                config.surfaces_view().len() as int,
            ),
        ),
{
    let ghost d = config.dictionary();
    let ghost text = sent.char_seq();
    let ghost clean = !text.contains(end_marker());
    let ghost e0 = lattice_edges(*lattice);
    let ghost ns = config.surfaces_view().len() as int;
    let n = sent.len_char();
    let chars = sent.chars();
    let suffix = &chars[sw..n];
    proof {
        assert(suffix@ == text.subrange(sw as int, n as int));
        if clean && suffix@.contains(end_marker()) {
            let j = choose|j: int| 0 <= j < suffix@.len() && suffix@[j] == end_marker();
            assert(text[sw + j] == end_marker());
        }
    }
    let dict = config.dict();
    let lex = dict.system_lexicon();
    let found = lex.common_prefix_iterator(suffix);
    proof {
        lex.lemma_ids_below();
        lemma_lex_matches_fit(lex.records(), lex.params_view(), lex.lex_type_view(), suffix@);
    }
    let ghost sys = sys_edges(d, text, sw as int);
    let m_count = found.len();
    let mut k: usize = 0;
    assert(sys.take(0) =~= Seq::<(usize, u32)>::empty());
    while k < m_count
        invariant
            k <= m_count == found@.len(),
            lattice_input_ok(*config, *sent),
            d == config.dictionary(),
            *lex == d.system_view(),
            text == sent.char_seq(),
            n == text.len(),
            sw < n,
            suffix@ == text.subrange(sw as int, n as int),
            clean == !text.contains(end_marker()),
            clean ==> found@ == lex_matches(
                lex.records(),
                lex.params_view(),
                lex.lex_type_view(),
                suffix@,
            ),
            sys == sys_edges(d, text, sw as int),
            lattice_edges(*lattice).len() == e0.len(),
            e0.len() == n + 1,
            forall|j: int|
                0 <= j < e0.len() && j != sw ==> #[trigger] lattice_edges(*lattice)[j] == e0[j],
            clean ==> lattice_edges(*lattice)[sw as int] == add_negs(e0[sw as int], sys.take(k as int)),
        decreases m_count - k,
    {
        let m = found[k];
        proof {
            if clean {
                lex.lemma_ids_below();
                lemma_lex_matches_fit(lex.records(), lex.params_view(), lex.lex_type_view(), suffix@);
                assert(sys[k as int] == ((sw + m.end_char) as usize, (m.word_idx.word_id + 1) as u32));
                assert(sys.take(k + 1).drop_last() =~= sys.take(k as int));
                assert(sys.take(k + 1).last() == sys[k as int]);
            }
        }
        if m.end_char >= 1 && m.end_char <= n - sw && m.word_idx.word_id < u32::MAX {
            let target = sw + m.end_char;
            let label = m.word_idx.word_id + 1;
            let first = lattice_first_edge(lattice, sw);
            let same = match first {
                Some((t, l)) => t == target && l == label,
                None => false,
            };
            if !same {
                lattice_add_edge(lattice, sw, target, label);
            }
        }
        k = k + 1;
    }
    let has_matched = m_count > 0;
    proof {
        if clean {
            assert(sys.take(m_count as int) =~= sys);
        }
    }
    let ghost prop = d.char_prop_view();
    proof {
        prop.lemma_base_id(text[sw as int]);
        sent.lemma_idsets();
        lemma_run_len_bounds(sent.idsets(), sw as int);
    }
    let unk = dict.unk_handler();
    let words = unk.gen_unk_words(sent, sw, has_matched, mgl);
    proof {
        d.unk_view().lemma_unk_words_fit(
            sent.infos()[sw as int],
            sent.runs()[sw as int] as int,
            sw,
            has_matched,
            mgl,
            n as int,
        );
    }
    let ghost ue = unk_edges(d, *sent, sw as int, has_matched, mgl, ns);
    let ghost after_sys = lattice_edges(*lattice)[sw as int];
    let ns_exec = config.num_surfaces();
    assert(ns_exec == ns);
    let w_count = words.len();
    let mut k: usize = 0;
    assert(ue.take(0) =~= Seq::<(usize, u32)>::empty());
    while k < w_count
        invariant
            k <= w_count == words@.len(),
            lattice_input_ok(*config, *sent),
            d == config.dictionary(),
            *unk == d.unk_view(),
            text == sent.char_seq(),
            n == text.len(),
            sw < n,
            ns_exec == ns,
            ns == config.surfaces_view().len(),
            words_fit(words@, d.unk_view().entries_view(), sw, n as int),
            ue == unk_edges(d, *sent, sw as int, has_matched, mgl, ns),
            words@ == unk_words(
                d.unk_view().offsets_view(),
                d.unk_view().entries_view(),
                sent.infos()[sw as int],
                sent.runs()[sw as int] as int,
                sw,
                has_matched,
                mgl,
            ),
            lattice_edges(*lattice).len() == e0.len(),
            e0.len() == n + 1,
            forall|j: int|
                0 <= j < e0.len() && j != sw ==> #[trigger] lattice_edges(*lattice)[j] == e0[j],
            lattice_edges(*lattice)[sw as int] == add_negs(after_sys, ue.take(k as int)),
        decreases w_count - k,
    {
        let w = &words[k];
        let target = w.end_char();
        assert(words@[k as int] == *w);
        let label = (ns_exec as u32) + (w.word_id as u32) + 1;
        assert(ue[k as int] == (target, label));
        assert(ue.take(k + 1).drop_last() =~= ue.take(k as int));
        assert(ue.take(k + 1).last() == ue[k as int]);
        let first = lattice_first_edge(lattice, sw);
        let same = match first {
            Some((t, l)) => t == target && l == label,
            None => false,
        };
        if !same {
            lattice_add_edge(lattice, sw, target, label);
        }
        k = k + 1;
    }
    proof {
        assert(ue.take(w_count as int) =~= ue);
        if clean {
            lemma_add_negs_concat(e0[sw as int], sys, ue);
        }
    }
}

/// Adding two lists of edges in turn is adding their concatenation.
proof fn lemma_add_negs_concat(node: Seq<(usize, u32)>, a: Seq<(usize, u32)>, b: Seq<(usize, u32)>)
    ensures
        add_negs(add_negs(node, a), b) == add_negs(node, a + b),
    decreases b.len(),
{
    if b.len() == 0 {
        assert(a + b =~= a);
    } else {
        lemma_add_negs_concat(node, a, b.drop_last());
        assert((a + b).drop_last() =~= a + b.drop_last());
        assert((a + b).last() == b.last());
    }
}

// ---------------------------------------------------------------------
// Labels of dictionary words
// ---------------------------------------------------------------------

/// Map from a feature string and a first character to the label of a lexicon word,
/// held in `hashbrown` maps (a map of maps by feature string).
#[verifier::external_body]
pub struct LabelMap {
    map: hashbrown::HashMap<String, hashbrown::HashMap<char, u32>>,
}

/// The labels that a [`LabelMap`] holds, by feature string and first character.
pub uninterp spec fn label_map_view(m: LabelMap) -> Map<(Seq<char>, char), u32>;

/// The map without labels.
pub open spec fn no_labels() -> Map<(Seq<char>, char), u32> {
    Map::empty()
}

/// The key of a feature string and a first character.
pub open spec fn label_key(feature: Seq<char>, c: char) -> (Seq<char>, char) {
    (feature, c)
}

impl LabelMap {
    /// `hashbrown::HashMap::new`: no labels.
    #[verifier::external_body]
    pub fn new() -> (r: Self)
        ensures
            label_map_view(r) == no_labels(),
    {
        LabelMap { map: hashbrown::HashMap::new() }
    }

    /// `hashbrown::HashMap::entry(feature).or_insert_with(HashMap::new).insert(c, label)`:
    /// maps `(feature, c)` to `label`, replacing an earlier label.
    #[verifier::external_body]
    pub fn insert(&mut self, feature: &str, c: char, label: u32)
        ensures
            label_map_view(*final(self)) == label_map_view(*old(self)).insert(label_key(feature@, c), label),
    {
        self.map.entry(feature.to_string()).or_insert_with(hashbrown::HashMap::new).insert(c, label);
    }

    /// `hashbrown::HashMap::get(feature).and_then(|m| m.get(&c))`: the label of
    /// `(feature, c)`, if any.
    #[verifier::external_body]
    pub fn get(&self, feature: &str, c: char) -> (r: Option<u32>)
        ensures
            r == (if label_map_view(*self).contains_key(label_key(feature@, c)) {
                Some(label_map_view(*self)[label_key(feature@, c)])
            } else {
                None
            }),
    {
        self.map.get(feature).and_then(|m| m.get(&c)).copied()
    }
}

// ---------------------------------------------------------------------
// Positive edges
// ---------------------------------------------------------------------

/// The label of the positive edge of a word with `feature` from `start` to `end`:
/// the label of the lexicon word of that feature and first character if there is
/// one; otherwise that of the first compatible unknown word of the first
/// character's base category (`compatible_choice` of the unknown-word handler), the lexicon
/// words' count plus its id plus one, or, when there is none, the label of the
/// virtual edge, one past the feature sets.
pub open spec fn label_ok(
    config: TrainerConfig,
    labels: Map<(Seq<char>, char), u32>,
    provider_len: int,
    sent: Sentence,
    start: int,
    end: int,
    feature: Seq<char>,
    label: u32,
) -> bool {
    let c = sent.char_seq()[start];
    if labels.contains_key((feature, c)) {
        label == labels[(feature, c)]
    } else {
        match config.dictionary().unk_view().compatible_choice(&sent, start as usize, end as usize, feature) {
            Some(w) => label == config.surfaces_view().len() + 1 + w,
            None => label == provider_len + 1,
        }
    }
}

/// The positive edges of the words `ws` of a sentence, in order: from where each
/// starts to where it ends, with its label.
pub open spec fn positives_ok(
    config: TrainerConfig,
    labels: Map<(Seq<char>, char), u32>,
    provider_len: int,
    sent: Sentence,
    ws: WordsView,
    ps: Seq<(usize, usize, u32)>,
) -> bool {
    &&& ps.len() == ws.len()
    &&& forall|k: int|
        0 <= k < ps.len() ==> {
            let p = #[trigger] ps[k];
            &&& p.0 == concat_surfaces(ws.take(k)).len()
            &&& p.1 == p.0 + ws[k].0.len()
            &&& label_ok(config, labels, provider_len, sent, p.0 as int, p.1 as int, ws[k].1, p.2)
        }
}

/// Each positive edge goes forward within `n` characters and has a label.
pub open spec fn positives_fit(ps: Seq<(usize, usize, u32)>, n: int) -> bool {
    forall|k: int| 0 <= k < ps.len() ==> (#[trigger] ps[k]).0 < ps[k].1 <= n && ps[k].2 >= 1
}

proof fn lemma_concat_step(ws: WordsView, k: int)
    requires
        0 <= k < ws.len(),
    ensures
        concat_surfaces(ws.take(k + 1)) == concat_surfaces(ws.take(k)) + ws[k].0,
{
    assert(ws.take(k + 1).drop_last() =~= ws.take(k));
}

proof fn lemma_concat_monotone(ws: WordsView, k: int, j: int)
    requires
        0 <= k <= j <= ws.len(),
    ensures
        concat_surfaces(ws.take(k)).len() <= concat_surfaces(ws.take(j)).len(),
    decreases j - k,
{
    if k < j {
        lemma_concat_monotone(ws, k, j - 1);
        lemma_concat_step(ws, j - 1);
    }
}

/// The positive edges of an example: one for each word, in order.
pub fn positive_edges(
    config: &TrainerConfig,
    provider_len: usize,
    labels: &LabelMap,
    example: &Example,
) -> (r: Vec<(usize, usize, u32)>)
    requires
        lattice_input_ok(*config, example.sentence),
        example.sentence.char_seq() == concat_surfaces(words_view(example.tokens@)),
        forall|k: int|
            0 <= k < example.tokens@.len() ==> (#[trigger] example.tokens@[k]).surface_view().len() > 0,
        forall|key: (Seq<char>, char)|
            #[trigger] label_map_view(*labels).contains_key(key) ==> label_map_view(*labels)[key] >= 1,
        provider_len < u32::MAX,
    ensures
        positives_ok(
            *config,
            label_map_view(*labels),
            provider_len as int,
            example.sentence,
            words_view(example.tokens@),
            r@,
        ),
        positives_fit(r@, example.sentence.char_seq().len() as int),
{
    let sent = &example.sentence;
    let ghost ws = words_view(example.tokens@);
    let ghost d = config.dictionary();
    let ghost lm = label_map_view(*labels);
    let chars = sent.chars();
    let n = sent.len_char();
    let ns = config.num_surfaces();
    let dict = config.dict();
    let mut r: Vec<(usize, usize, u32)> = Vec::new();
    let mut pos: usize = 0;
    let mut k: usize = 0;
    assert(ws.take(0) =~= Seq::<(Seq<char>, Seq<char>)>::empty());
    while k < example.tokens.len()
        invariant
            lattice_input_ok(*config, example.sentence),
            d == config.dictionary(),
            *dict == d,
            *sent == example.sentence,
            chars@ == sent.char_seq(),
            n == sent.char_seq().len(),
            ns == config.surfaces_view().len(),
            lm == label_map_view(*labels),
            forall|key: (Seq<char>, char)| #[trigger] lm.contains_key(key) ==> lm[key] >= 1,
            provider_len < u32::MAX,
            ws == words_view(example.tokens@),
            sent.char_seq() == concat_surfaces(ws),
            forall|j: int| 0 <= j < ws.len() ==> (#[trigger] ws[j]).0.len() > 0,
            k <= ws.len(),
            pos == concat_surfaces(ws.take(k as int)).len(),
            r@.len() == k,
            forall|j: int|
                0 <= j < k ==> {
                    let p = #[trigger] r@[j];
                    &&& p.0 == concat_surfaces(ws.take(j)).len()
                    &&& p.1 == p.0 + ws[j].0.len()
                    &&& label_ok(*config, lm, provider_len as int, *sent, p.0 as int, p.1 as int, ws[j].1, p.2)
                    &&& p.0 < p.1 <= n
                    &&& p.2 >= 1
                },
        decreases ws.len() - k,
    {
        let token = &example.tokens[k];
        assert(ws[k as int] == (token.surface_view(), token.feature_view()));
        let len = chars_of(token.surface()).len();
        proof {
            lemma_concat_step(ws, k as int);
            lemma_concat_monotone(ws, k + 1, ws.len() as int);
            assert(ws.take(ws.len() as int) =~= ws);
        }
        assert(pos + len <= n);
        let first_char = chars[pos];
        let label = match labels.get(token.feature(), first_char) {
            Some(l) => l,
            None => {
                let ghost prop = d.char_prop_view();
                proof {
                    prop.lemma_base_id(sent.char_seq()[pos as int]);
                }
                match dict.unk_handler().compatible_unk_index(sent, pos, pos + len, token.feature()) {
                    Some(idx) => {
                        let ghost base = sent.infos()[pos as int].spec_base_id() as int;
                        assert(d.unk_view().offsets_view()[base + 1] <= d.unk_view().entries_view().len());
                        (ns as u32) + 1 + idx.word_id
                    },
                    None => (provider_len as u32) + 1,
                }
            },
        };
        let ghost old_r = r@;
        r.push((pos, pos + len, label));
        assert forall|j: int| 0 <= j < k + 1 implies {
            let p = #[trigger] r@[j];
            &&& p.0 == concat_surfaces(ws.take(j)).len()
            &&& p.1 == p.0 + ws[j].0.len()
            &&& label_ok(*config, lm, provider_len as int, *sent, p.0 as int, p.1 as int, ws[j].1, p.2)
            &&& p.0 < p.1 <= n
            &&& p.2 >= 1
        } by {
            if j < k {
                assert(r@[j] == old_r[j]);
            }
        }
        pos = pos + len;
        k = k + 1;
    }
    r
}

// ---------------------------------------------------------------------
// Lattices
// ---------------------------------------------------------------------

/// The nodes after the positive edges `ps` are added in turn.
pub open spec fn add_positives(nodes: Seq<Seq<(usize, u32)>>, ps: Seq<(usize, usize, u32)>) -> Seq<
    Seq<(usize, u32)>,
>
    decreases ps.len(),
{
    if ps.len() == 0 {
        nodes
    } else {
        let prev = add_positives(nodes, ps.drop_last());
        let p = ps.last();
        prev.update(p.0 as int, prev[p.0 as int].push((p.1, p.2)))
    }
}

/// The lattice of a sentence: its positive edges `ps`, then at each position the
/// negative edges, each skipped that equals the first edge there.
pub open spec fn lattice_spec(
    config: TrainerConfig,
    sent: Sentence,
    mgl: Option<usize>,
    ps: Seq<(usize, usize, u32)>,
) -> Seq<Seq<(usize, u32)>> {
    let n = sent.char_seq().len() as int;
    let a = add_positives(Seq::new((n + 1) as nat, |i: int| Seq::<(usize, u32)>::empty()), ps);
    Seq::new(
        (n + 1) as nat,
        |sw: int|
            if sw < n {
                add_negs(
                    a[sw],
                    negative_edges(
                        config.dictionary(),
                        sent,
                        sw,
                        mgl,
                        config.surfaces_view().len() as int,
                    ),
                )
            } else {
                a[sw]
            },
    )
}

proof fn lemma_add_positives_len(nodes: Seq<Seq<(usize, u32)>>, ps: Seq<(usize, usize, u32)>)
    requires
        forall|k: int| 0 <= k < ps.len() ==> (#[trigger] ps[k]).0 < nodes.len(),
    ensures
        add_positives(nodes, ps).len() == nodes.len(),
    decreases ps.len(),
{
    if ps.len() > 0 {
        lemma_add_positives_len(nodes, ps.drop_last());
    }
}

/// The lattice of a sentence with the positive edges `positives`.
pub fn fill_lattice(
    config: &TrainerConfig,
    sent: &Sentence,
    mgl: Option<usize>,
    positives: &[(usize, usize, u32)],
) -> (r: CrfLattice)
    requires
        lattice_input_ok(*config, *sent),
        positives_fit(positives@, sent.char_seq().len() as int),
    ensures
        lattice_edges(r).len() == sent.char_seq().len() + 1,
        !sent.char_seq().contains(end_marker()) ==> lattice_edges(r) == lattice_spec(
            *config,
            *sent,
            mgl,
            positives@,
        ),
{
    let n = sent.len_char();
    let ghost empty = Seq::new((n + 1) as nat, |i: int| Seq::<(usize, u32)>::empty());
    let ghost ps = positives@;
    let mut lattice = lattice_new(n);
    let mut k: usize = 0;
    assert(ps.take(0) =~= Seq::<(usize, usize, u32)>::empty());
    while k < positives.len()
        invariant
            k <= ps.len(),
            ps == positives@,
            n == sent.char_seq().len(),
            positives_fit(ps, n as int),
            empty == Seq::new((n + 1) as nat, |i: int| Seq::<(usize, u32)>::empty()),
            lattice_edges(lattice) == add_positives(empty, ps.take(k as int)),
            lattice_edges(lattice).len() == n + 1,
        decreases ps.len() - k,
    {
        let (s, t, l) = positives[k];
        assert(ps[k as int] == (s, t, l));
        let ok = lattice_add_edge(&mut lattice, s, t, l);
        assert(ok);
        assert(ps.take(k + 1).drop_last() =~= ps.take(k as int));
        k = k + 1;
    }
    assert(ps.take(ps.len() as int) =~= ps);
    let ghost a = lattice_edges(lattice);
    let ghost clean = !sent.char_seq().contains(end_marker());
    let mut sw: usize = 0;
    while sw < n
        invariant
            lattice_input_ok(*config, *sent),
            n == sent.char_seq().len(),
            sw <= n,
            a.len() == n + 1,
            clean == !sent.char_seq().contains(end_marker()),
            lattice_edges(lattice).len() == n + 1,
            forall|j: int| sw <= j <= n ==> #[trigger] lattice_edges(lattice)[j] == a[j],
            clean ==> forall|j: int|
                0 <= j < sw ==> #[trigger] lattice_edges(lattice)[j] == add_negs(
                    a[j],
                    negative_edges(
                        config.dictionary(),
                        *sent,
                        j,
                        mgl,
                        config.surfaces_view().len() as int,
                    ),
                ),
        decreases n - sw,
    {
        add_negative_edges(&mut lattice, config, sent, mgl, sw);
        sw = sw + 1;
    }
    proof {
        if clean {
            assert(lattice_edges(lattice) =~= lattice_spec(*config, *sent, mgl, ps));
        }
    }
    lattice
}

/// The lattice that the CRF learns from for one example: the positive edges of its
/// words, labelled by [`positive_edges`], and the negative edges of the lexicon's
/// and the unknown words at each position.
pub fn build_lattice(
    config: &TrainerConfig,
    provider_len: usize,
    labels: &LabelMap,
    max_grouping_len: Option<usize>,
    example: &Example,
) -> (r: CrfLattice)
    requires
        lattice_input_ok(*config, example.sentence),
        example.sentence.char_seq() == concat_surfaces(words_view(example.tokens@)),
        forall|k: int|
            0 <= k < example.tokens@.len() ==> (#[trigger] example.tokens@[k]).surface_view().len() > 0,
        forall|key: (Seq<char>, char)|
            #[trigger] label_map_view(*labels).contains_key(key) ==> label_map_view(*labels)[key] >= 1,
        provider_len < u32::MAX,
    ensures
        lattice_edges(r).len() == example.sentence.char_seq().len() + 1,
        !example.sentence.char_seq().contains(end_marker()) ==> exists|ps: Seq<(usize, usize, u32)>|
            #[trigger] positives_ok(
                *config,
                label_map_view(*labels),
                provider_len as int,
                example.sentence,
                words_view(example.tokens@),
                ps,
            ) && lattice_edges(r) == lattice_spec(*config, example.sentence, max_grouping_len, ps),
{
    let ps = positive_edges(config, provider_len, labels, example);
    fill_lattice(config, &example.sentence, max_grouping_len, ps.as_slice())
}

// ---------------------------------------------------------------------
// Feature sets of `rucrf`
// ---------------------------------------------------------------------

#[verifier::external_type_specification]
#[verifier::external_body]
pub struct ExFeatureSet(CrfFeatureSet);

/// The unigram feature ids, the right and the left bigram feature ids of a
/// `rucrf::FeatureSet`.
pub uninterp spec fn feature_set_view(s: CrfFeatureSet) -> (Seq<u32>, Seq<Option<u32>>, Seq<Option<u32>>);

/// The three lists of a feature set.
pub open spec fn set_parts(u: Seq<u32>, r: Seq<Option<u32>>, l: Seq<Option<u32>>) -> (
    Seq<u32>,
    Seq<Option<u32>>,
    Seq<Option<u32>>,
) {
    (u, r, l)
}

/// No id is 0.
pub open spec fn ids_nonzero(u: Seq<u32>) -> bool {
    forall|i: int| 0 <= i < u.len() ==> #[trigger] u[i] >= 1
}

/// No given id is 0.
pub open spec fn opt_ids_nonzero(u: Seq<Option<u32>>) -> bool {
    forall|i: int| 0 <= i < u.len() ==> ((#[trigger] u[i]) matches Some(x) ==> x >= 1)
}

/// `rucrf::FeatureSet::new(unigram, right, left)`, with the ids made `NonZeroU32`:
/// a set that holds the three lists as they are.
#[verifier::external_body]
pub(crate) fn feature_set_new(unigram: &[u32], right: &[Option<u32>], left: &[Option<u32>]) -> (r:
    CrfFeatureSet)
    requires
        ids_nonzero(unigram@),
        opt_ids_nonzero(right@),
        opt_ids_nonzero(left@),
    ensures
        feature_set_view(r) == set_parts(unigram@, right@, left@),
{
    let u: Vec<std::num::NonZeroU32> = unigram.iter().map(|&x| std::num::NonZeroU32::new(x).unwrap()).collect();
    let r: Vec<Option<std::num::NonZeroU32>> = right.iter().map(|x| x.map(|y| std::num::NonZeroU32::new(y).unwrap())).collect();
    let l: Vec<Option<std::num::NonZeroU32>> = left.iter().map(|x| x.map(|y| std::num::NonZeroU32::new(y).unwrap())).collect();
    CrfFeatureSet::new(&u, &r, &l)
}

#[verifier::external_type_specification]
#[verifier::external_body]
pub struct ExFeatureProvider(CrfFeatureProvider);

/// The feature sets of a `rucrf::FeatureProvider`, the one of label `i + 1` at `i`.
pub uninterp spec fn provider_sets(p: CrfFeatureProvider) -> Seq<
    (Seq<u32>, Seq<Option<u32>>, Seq<Option<u32>>),
>;

/// No feature sets.
pub open spec fn no_sets() -> Seq<(Seq<u32>, Seq<Option<u32>>, Seq<Option<u32>>)> {
    Seq::empty()
}

/// `rucrf::FeatureProvider::new`: no feature sets.
#[verifier::external_body]
fn provider_new() -> (r: CrfFeatureProvider)
    ensures
        provider_sets(r) == no_sets(),
{
    CrfFeatureProvider::new()
}

/// `rucrf::FeatureProvider::add_feature_set`: refused (an error of the model's
/// scale) when the new label, the number of sets plus one, would not fit in a `u32`;
/// otherwise the set is appended and its label returned.
#[verifier::external_body]
fn provider_add(p: &mut CrfFeatureProvider, s: CrfFeatureSet) -> (r: Result<u32, rucrf::errors::RucrfError>)
    ensures
        r is Ok <==> provider_sets(*old(p)).len() + 1 <= u32::MAX,
        r matches Ok(id) ==> id == provider_sets(*old(p)).len() + 1,
        r is Ok ==> provider_sets(*final(p)) == provider_sets(*old(p)).push(feature_set_view(s)),
        r is Err ==> provider_sets(*final(p)) == provider_sets(*old(p)),
{
    p.add_feature_set(s).map(|id| id.get())
}

// ---------------------------------------------------------------------
// Feature sets of the dictionary's words
// ---------------------------------------------------------------------

/// The labels of the first `k` lexicon words: the word `i` with features
/// `feats[i]` and surface `surfs[i]` gives the key of its features and first
/// character the label `i + 1`, a later word replacing an earlier one.
pub open spec fn label_fold(feats: Seq<Seq<char>>, surfs: Seq<Seq<char>>, k: int) -> Map<
    (Seq<char>, char),
    u32,
>
    decreases k,
{
    if k <= 0 {
        no_labels()
    } else {
        label_fold(feats, surfs, k - 1).insert(label_key(feats[k - 1], surfs[k - 1][0]), k as u32)
    }
}

proof fn lemma_label_fold_positive(feats: Seq<Seq<char>>, surfs: Seq<Seq<char>>, k: int)
    requires
        k <= u32::MAX,
    ensures
        forall|key: (Seq<char>, char)|
            #[trigger] label_fold(feats, surfs, k).contains_key(key) ==> label_fold(feats, surfs, k)[key] >= 1,
    decreases k,
{
    if k > 0 {
        lemma_label_fold_positive(feats, surfs, k - 1);
        let prev = label_fold(feats, surfs, k - 1);
        let nk = label_key(feats[k - 1], surfs[k - 1][0]);
        assert(label_fold(feats, surfs, k) == prev.insert(nk, k as u32));
        assert forall|key: (Seq<char>, char)|
            #[trigger] label_fold(feats, surfs, k).contains_key(key) implies label_fold(feats, surfs, k)[key]
            >= 1 by {
            if key != nk {
                assert(prev.contains_key(key));
            }
        }
    }
}

/// The string slices of the fields of a feature string.
fn field_strings(fields: &Vec<Vec<char>>) -> (r: Vec<String>)
    ensures
        r.deep_view() == fields.deep_view(),
{
    let mut r: Vec<String> = Vec::new();
    let mut i: usize = 0;
    while i < fields.len()
        invariant
            i <= fields@.len(),
            r@.len() == i,
            forall|j: int| 0 <= j < i ==> (#[trigger] r@[j])@ == fields@[j]@,
        decreases fields@.len() - i,
    {
        r.push(string_from_chars(fields[i].as_slice()));
        i = i + 1;
    }
    assert forall|j: int| 0 <= j < r@.len() implies r.deep_view()[j] == fields.deep_view()[j] by {
        assert(fields@[j].deep_view() =~= fields@[j]@);
    }
    assert(r.deep_view() =~= fields.deep_view());
    r
}

/// The feature set of a word with the feature string `feature` and the character
/// category `cate_id`; the configuration stays as it was on an error.
fn word_feature_set(config: &mut TrainerConfig, feature: &str, cate_id: u32) -> (r: Result<
    CrfFeatureSet,
    VibratoError,
>)
    requires
        old(config).wf(),
        references_within(old(config).rewriter(TemplateKind::Unigram).rules()),
        references_within(old(config).rewriter(TemplateKind::Left).rules()),
        references_within(old(config).rewriter(TemplateKind::Right).rules()),
    ensures
        final(config).wf(),
        final(config).dictionary() == old(config).dictionary(),
        final(config).surfaces_view() == old(config).surfaces_view(),
        forall|k: TemplateKind| #[trigger] final(config).rewriter(k) == old(config).rewriter(k),
        r is Err ==> *final(config) == *old(config),
        !old(config).extractor().room() ==> r is Err,
        r matches Err(e) ==> e is Utf8 || e is InvalidFormat || (e is InvalidArgument && !old(
            config,
        ).extractor().room()),
        r is Ok <==> parsed_row(feature@) is Some && old(config).extractor().room(),
        r matches Err(e) ==> (parsed_row(feature@) is None <==> !(e is InvalidArgument)),
        r matches Ok(s) ==> (parsed_row(feature@) matches Some(fs) && extraction(
            *old(config),
            *final(config),
            fs,
            cate_id,
            s,
        )),
{
    let fchars = chars_of(feature);
    let fields = match parse_csv_row(fchars.as_slice()) {
        Ok(f) => f,
        Err(e) => {
            return Err(e);
        },
    };
    let strings = field_strings(&fields);
    let refs = str_refs(&strings);
    if !config.extractor_has_room() {
        return Err(VibratoError::invalid_argument("config", "too many feature strings"));
    }
    assert(texts(refs@).len() == fields@.len());
    let ghost fs = texts(refs@);
    let set = config.extract_feature_set(refs.as_slice(), cate_id);
    assert(fs == fields.deep_view());
    assert(extraction(*old(config), *config, fs, cate_id, set));
    Ok(set)
}

/// The base category of the first character of `surface`.
pub open spec fn first_cate(d: Dictionary, surface: Seq<char>) -> u32 {
    (d.char_prop_view().spec_char_info(surface[0]) >> 18u32) & 0xffu32
}

/// The feature set `v` of a word with the feature string `feature` and the
/// category `cate_id` is extracted, turning `before` into `after`.
pub open spec fn word_extracted(
    before: TrainerConfig,
    after: TrainerConfig,
    feature: Seq<char>,
    cate_id: u32,
    v: (Seq<u32>, Seq<Option<u32>>, Seq<Option<u32>>),
) -> bool {
    parsed_row(feature) matches Some(fs) && extracted_as(before, after, fs, cate_id, v)
}

/// The configurations `cs` go from `c0` through the extraction of the feature
/// sets `sets`: first those of the lexicon's words `0..nw` (of `c0`), each with the
/// category of its surface's first character, then those of the unknown words
/// `0..nu`, each with its category.
pub open spec fn extraction_trace(
    c0: TrainerConfig,
    cs: Seq<TrainerConfig>,
    sets: Seq<(Seq<u32>, Seq<Option<u32>>, Seq<Option<u32>>)>,
    nw: int,
    nu: int,
) -> bool {
    let d = c0.dictionary();
    &&& cs.len() == nw + nu + 1
    &&& sets.len() == nw + nu
    &&& cs[0] == c0
    &&& forall|i: int|
        0 <= i < nw ==> word_extracted(
            cs[i],
            cs[i + 1],
            d.system_view().features_view()[i],
            first_cate(d, c0.surfaces_view()[i]),
            #[trigger] sets[i],
        )
    &&& forall|j: int|
        nw <= j < nw + nu ==> word_extracted(
            cs[j],
            cs[j + 1],
            d.unk_view().entries_view()[j - nw].feature@,
            d.unk_view().entries_view()[j - nw].cate_id as u32,
            #[trigger] sets[j],
        )
}

/// The feature sets of the lexicon's words, with labels from 1 in their order,
/// then those of the unknown words, and the labels of the lexicon's words by their
/// features and first characters. Fails when a feature string cannot be read, when
/// the ids of features would run out, or (an error of the CRF) when the labels
/// would not fit in a `u32`.
pub fn collect_feature_sets(config: &mut TrainerConfig) -> (r: Result<
    (CrfFeatureProvider, LabelMap),
    VibratoError,
>)
    requires
        old(config).wf(),
        references_within(old(config).rewriter(TemplateKind::Unigram).rules()),
        references_within(old(config).rewriter(TemplateKind::Left).rules()),
        references_within(old(config).rewriter(TemplateKind::Right).rules()),
    ensures
        final(config).wf(),
        final(config).dictionary() == old(config).dictionary(),
        final(config).surfaces_view() == old(config).surfaces_view(),
        r matches Ok((p, lm)) ==> {
            &&& provider_sets(p).len() == old(config).surfaces_view().len() + old(
                config,
            ).dictionary().unk_view().entries_view().len()
            &&& label_map_view(lm) == label_fold(
                old(config).dictionary().system_view().features_view(),
                old(config).surfaces_view(),
                old(config).surfaces_view().len() as int,
            )
            &&& forall|key: (Seq<char>, char)|
                #[trigger] label_map_view(lm).contains_key(key) ==> label_map_view(lm)[key] >= 1
            &&& exists|cs: Seq<TrainerConfig>|
                extraction_trace(
                    *old(config),
                    cs,
                    provider_sets(p),
                    old(config).surfaces_view().len() as int,
                    old(config).dictionary().unk_view().entries_view().len() as int,
                ) && #[trigger] cs.last() == *final(config)
        },
        r matches Err(e) && e is Crf ==> old(config).surfaces_view().len() + old(
            config,
        ).dictionary().unk_view().entries_view().len() > u32::MAX,
        r matches Err(e) && e is InvalidArgument ==> !final(config).extractor().room(),
        r matches Err(e) && !(e is Crf) && !(e is InvalidArgument) ==> (exists|i: int|
            0 <= i < old(config).surfaces_view().len() && #[trigger] parsed_row(
                old(config).dictionary().system_view().features_view()[i],
            ) is None) || (exists|j: int|
            0 <= j < old(config).dictionary().unk_view().entries_view().len() && parsed_row(
                (#[trigger] old(config).dictionary().unk_view().entries_view()[j]).feature@,
            ) is None),
{
    let ghost d = config.dictionary();
    let ghost surfs = config.surfaces_view();
    let ghost feats = d.system_view().features_view();
    let ns = config.num_surfaces();
    let mut provider = provider_new();
    let mut labels = LabelMap::new();
    let ghost c0 = *config;
    let ghost mut cs: Seq<TrainerConfig> = seq![*config];
    let mut word_id: usize = 0;
    while word_id < ns
        invariant
            c0 == *old(config),
            cs.len() == word_id + 1,
            cs[0] == c0,
            cs.last() == *config,
            forall|i: int|
                0 <= i < word_id ==> word_extracted(
                    cs[i],
                    cs[i + 1],
                    feats[i],
                    first_cate(d, surfs[i]),
                    #[trigger] provider_sets(provider)[i],
                ),
            config.wf(),
            config.dictionary() == d,
            config.surfaces_view() == surfs,
            d == old(config).dictionary(),
            surfs == old(config).surfaces_view(),
            ns == surfs.len(),
            feats == d.system_view().features_view(),
            references_within(config.rewriter(TemplateKind::Unigram).rules()),
            references_within(config.rewriter(TemplateKind::Left).rules()),
            references_within(config.rewriter(TemplateKind::Right).rules()),
            word_id <= ns,
            word_id <= u32::MAX,
            provider_sets(provider).len() == word_id,
            label_map_view(labels) == label_fold(feats, surfs, word_id as int),
        decreases ns - word_id,
    {
        let lex = config.dict().system_lexicon();
        let idx = WordIdx::new(LexType::System, word_id as u32);
        let feature = string_from_chars(chars_of(lex.word_feature(idx)).as_slice());
        let surface = chars_of(config.surface(word_id));
        let first_char = surface[0];
        let cate_id = config.dict().char_prop().char_info(first_char).base_id();
        let ghost before = *config;
        let ghost p0 = provider_sets(provider);
        assert(feature@ == feats[word_id as int]);
        assert(cate_id == first_cate(d, surfs[word_id as int]));
        let res = word_feature_set(config, feature.as_str(), cate_id);
        let set = match res {
            Ok(st) => st,
            Err(e) => {
                assert(feature@ == feats[word_id as int]);
                return Err(e);
            },
        };
        proof {
            cs = cs.push(*config);
        }
        let ghost sv = feature_set_view(set);
        let label = match provider_add(&mut provider, set) {
            Ok(l) => l,
            Err(e) => {
                return Err(VibratoError::Crf(e));
            },
        };
        labels.insert(feature.as_str(), first_char, label);
        proof {
            assert forall|i: int| 0 <= i < word_id + 1 implies word_extracted(
                cs[i],
                cs[i + 1],
                feats[i],
                first_cate(d, surfs[i]),
                #[trigger] provider_sets(provider)[i],
            ) by {
                if i < word_id {
                    assert(provider_sets(provider)[i] == p0[i]);
                    assert(cs[i] == cs.drop_last()[i]);
                    assert(cs[i + 1] == cs.drop_last()[i + 1]);
                } else {
                    assert(cs[i] == before);
                    assert(provider_sets(provider)[i] == sv);
                }
            }
        }
        word_id = word_id + 1;
    }
    let nu = config.dict().unk_handler().len();
    let mut word_id: usize = 0;
    while word_id < nu
        invariant
            config.wf(),
            config.dictionary() == d,
            config.surfaces_view() == surfs,
            d == old(config).dictionary(),
            surfs == old(config).surfaces_view(),
            ns == surfs.len(),
            nu == d.unk_view().entries_view().len(),
            feats == d.system_view().features_view(),
            references_within(config.rewriter(TemplateKind::Unigram).rules()),
            references_within(config.rewriter(TemplateKind::Left).rules()),
            references_within(config.rewriter(TemplateKind::Right).rules()),
            word_id <= nu,
            provider_sets(provider).len() == ns + word_id,
            label_map_view(labels) == label_fold(feats, surfs, ns as int),
            c0 == *old(config),
            cs.len() == ns + word_id + 1,
            cs[0] == c0,
            cs.last() == *config,
            forall|i: int|
                0 <= i < ns ==> word_extracted(
                    cs[i],
                    cs[i + 1],
                    feats[i],
                    first_cate(d, surfs[i]),
                    #[trigger] provider_sets(provider)[i],
                ),
            forall|j: int|
                ns <= j < ns + word_id ==> word_extracted(
                    cs[j],
                    cs[j + 1],
                    d.unk_view().entries_view()[j - ns].feature@,
                    d.unk_view().entries_view()[j - ns].cate_id as u32,
                    #[trigger] provider_sets(provider)[j],
                ),
        decreases nu - word_id,
    {
        let unk = config.dict().unk_handler();
        let idx = WordIdx::new(LexType::Unknown, word_id as u32);
        let feature = string_from_chars(chars_of(unk.word_feature(idx)).as_slice());
        let cate_id = unk.word_cate_id(idx) as u32;
        let ghost before = *config;
        let ghost p0 = provider_sets(provider);
        let res = word_feature_set(config, feature.as_str(), cate_id);
        let set = match res {
            Ok(st) => st,
            Err(e) => {
                assert(feature@ == d.unk_view().entries_view()[word_id as int].feature@);
                return Err(e);
            },
        };
        proof {
            cs = cs.push(*config);
        }
        let ghost sv = feature_set_view(set);
        match provider_add(&mut provider, set) {
            Ok(_) => {},
            Err(e) => {
                return Err(VibratoError::Crf(e));
            },
        }
        proof {
            assert forall|i: int| 0 <= i < ns implies word_extracted(
                cs[i],
                cs[i + 1],
                feats[i],
                first_cate(d, surfs[i]),
                #[trigger] provider_sets(provider)[i],
            ) by {
                assert(provider_sets(provider)[i] == p0[i]);
                assert(cs[i] == cs.drop_last()[i]);
                assert(cs[i + 1] == cs.drop_last()[i + 1]);
            }
            assert forall|j: int| ns <= j < ns + word_id + 1 implies word_extracted(
                cs[j],
                cs[j + 1],
                d.unk_view().entries_view()[j - ns].feature@,
                d.unk_view().entries_view()[j - ns].cate_id as u32,
                #[trigger] provider_sets(provider)[j],
            ) by {
                if j < ns + word_id {
                    assert(provider_sets(provider)[j] == p0[j]);
                    assert(cs[j] == cs.drop_last()[j]);
                    assert(cs[j + 1] == cs.drop_last()[j + 1]);
                } else {
                    assert(cs[j] == before);
                    assert(provider_sets(provider)[j] == sv);
                }
            }
        }
        word_id = word_id + 1;
    }
    proof {
        lemma_label_fold_positive(feats, surfs, ns as int);
        assert(extraction_trace(c0, cs, provider_sets(provider), ns as int, nu as int));
    }
    Ok((provider, labels))
}

/// The feature sets added to a provider after its first `n`.
pub open spec fn new_sets(p: CrfFeatureProvider, n: int) -> Seq<(Seq<u32>, Seq<Option<u32>>, Seq<Option<u32>>)> {
    provider_sets(p).skip(n)
}

/// The configurations `cs` go from `c0` through the extraction of the feature
/// sets `sets` of the entries `es` of a user lexicon, in order, each with the
/// category of its surface's first character.
pub open spec fn user_trace(
    c0: TrainerConfig,
    cs: Seq<TrainerConfig>,
    sets: Seq<(Seq<u32>, Seq<Option<u32>>, Seq<Option<u32>>)>,
    es: Seq<EntryView>,
) -> bool {
    &&& cs.len() == es.len() + 1
    &&& sets.len() == es.len()
    &&& cs[0] == c0
    &&& forall|j: int|
        0 <= j < es.len() ==> word_extracted(
            cs[j],
            cs[j + 1],
            es[j].2,
            first_cate(c0.dictionary(), es[j].0),
            #[trigger] sets[j],
        )
}

/// Reads a user lexicon (CSV rows `surface,left_id,right_id,cost,features`) for a
/// trained model: the feature set of each word, extracted from its features and
/// the base category of its first character, joins the provider in turn, and the
/// words are returned with their parameters. Fails where the lexicon cannot be
/// read, a feature string cannot be read, the ids of features would run out, or
/// (an error of the CRF) the labels would not fit in a `u32`.
pub fn add_user_lexicon(
    config: &mut TrainerConfig,
    provider: &mut CrfFeatureProvider,
    rdr: &[u8],
) -> (r: Result<Vec<(Word, WordParam)>, VibratoError>)
    requires
        old(config).wf(),
        references_within(old(config).rewriter(TemplateKind::Unigram).rules()),
        references_within(old(config).rewriter(TemplateKind::Left).rules()),
        references_within(old(config).rewriter(TemplateKind::Right).rules()),
        rdr@.len() < usize::MAX,
    ensures
        final(config).wf(),
        final(config).dictionary() == old(config).dictionary(),
        final(config).surfaces_view() == old(config).surfaces_view(),
        r matches Ok(ws) ==> provider_sets(*final(provider)).len() == provider_sets(
            *old(provider),
        ).len() + ws@.len(),
        r matches Ok(ws) ==> forall|i: int|
            0 <= i < ws@.len() ==> (#[trigger] ws@[i]).0.surface_view().len() > 0,
        lex_csv(rdr@) matches Err(f) ==> (r matches Err(e) && e.fault() == f),
        r matches Ok(ws) ==> lex_csv(rdr@) matches Ok(es) && ws@.len() == es.len() && forall|i: int|
            0 <= i < es.len() ==> {
                &&& (#[trigger] ws@[i]).0.surface_view() == es[i].0
                &&& ws@[i].0.feature_view() == es[i].2
                &&& ws@[i].1 == es[i].1
            },
        r matches Ok(ws) ==> exists|cs: Seq<TrainerConfig>|
            user_trace(
                *old(config),
                cs,
                new_sets(*final(provider), provider_sets(*old(provider)).len() as int),
                lex_csv(rdr@)->Ok_0,
            ) && #[trigger] cs.last() == *final(config),
        r matches Err(e) && e is Crf ==> (lex_csv(rdr@) matches Ok(es) && provider_sets(
            *old(provider),
        ).len() + es.len() >= u32::MAX),
        r matches Err(e) && e is InvalidArgument ==> !final(config).extractor().room(),
        lex_csv(rdr@) is Ok && r is Err && !(r->Err_0 is Crf) && !(r->Err_0 is InvalidArgument)
            ==> exists|i: int|
            0 <= i < lex_csv(rdr@)->Ok_0.len() && #[trigger] parsed_row(lex_csv(rdr@)->Ok_0[i].2) is None,
{
    let entries = Lexicon::parse_csv(rdr, "user.csv")?;
    let ghost es = entries_view(entries@);
    assert(lex_csv(rdr@) == Ok::<Seq<EntryView>, Fault>(es));
    let ghost c0 = *config;
    let ghost mut cs: Seq<TrainerConfig> = seq![*config];
    let ghost d = config.dictionary();
    let ghost surfs = config.surfaces_view();
    let ghost p0 = provider_sets(*provider);
    let mut words: Vec<(Word, WordParam)> = Vec::new();
    let mut i: usize = 0;
    while i < entries.len()
        invariant
            config.wf(),
            config.dictionary() == d,
            config.surfaces_view() == surfs,
            d == old(config).dictionary(),
            surfs == old(config).surfaces_view(),
            p0 == provider_sets(*old(provider)),
            references_within(config.rewriter(TemplateKind::Unigram).rules()),
            references_within(config.rewriter(TemplateKind::Left).rules()),
            references_within(config.rewriter(TemplateKind::Right).rules()),
            forall|j: int| 0 <= j < entries@.len() ==> (#[trigger] entries@[j]).surface@.len() > 0,
            i <= entries@.len(),
            provider_sets(*provider).len() == p0.len() + words@.len(),
            words@.len() == i,
            forall|j: int| 0 <= j < i ==> (#[trigger] words@[j]).0.surface_view().len() > 0,
            es == entries_view(entries@),
            lex_csv(rdr@) == Ok::<Seq<EntryView>, Fault>(es),
            c0 == *old(config),
            cs.len() == i + 1,
            cs[0] == c0,
            cs.last() == *config,
            forall|j: int|
                0 <= j < i ==> {
                    &&& (#[trigger] words@[j]).0.surface_view() == es[j].0
                    &&& words@[j].0.feature_view() == es[j].2
                    &&& words@[j].1 == es[j].1
                },
            forall|j: int|
                0 <= j < i ==> word_extracted(
                    cs[j],
                    cs[j + 1],
                    es[j].2,
                    first_cate(d, es[j].0),
                    #[trigger] new_sets(*provider, p0.len() as int)[j],
                ),
        decreases entries@.len() - i,
    {
        let entry = &entries[i];
        assert(entries@[i as int] == *entry);
        let surface = chars_of(entry.surface.as_str());
        let first_char = surface[0];
        let cate_id = config.dict().char_prop().char_info(first_char).base_id();
        assert(es[i as int] == entry_view(*entry));
        assert(surface@ == es[i as int].0);
        assert(cate_id == first_cate(d, es[i as int].0));
        let ghost before = *config;
        let ghost pv = provider_sets(*provider);
        let res = word_feature_set(config, entry.feature, cate_id);
        let set = match res {
            Ok(st) => st,
            Err(e) => {
                assert(entry.feature@ == es[i as int].2);
                assert(!(e is InvalidArgument) ==> parsed_row(es[i as int].2) is None);
                proof {
                    assert(lex_csv(rdr@)->Ok_0 == es);
                    if !(e is InvalidArgument) {
                        assert(parsed_row(lex_csv(rdr@)->Ok_0[i as int].2) is None);
                    }
                }
                return Err(e);
            },
        };
        proof {
            cs = cs.push(*config);
        }
        let ghost sv = feature_set_view(set);
        let ghost ns0 = new_sets(*provider, p0.len() as int);
        match provider_add(provider, set) {
            Ok(_) => {},
            Err(e) => {
                return Err(VibratoError::Crf(e));
            },
        }
        assert(new_sets(*provider, p0.len() as int) =~= ns0.push(sv));
        let ghost old_words = words@;
        words.push((Word::new(entry.surface.as_str(), entry.feature), entry.param));
        proof {
            assert forall|j: int|
                0 <= j < i + 1 implies {
                    &&& (#[trigger] words@[j]).0.surface_view() == es[j].0
                    &&& words@[j].0.feature_view() == es[j].2
                    &&& words@[j].1 == es[j].1
                } by {
                if j < i {
                    assert(words@[j] == old_words[j]);
                }
            }
            assert forall|j: int| 0 <= j < i + 1 implies word_extracted(
                cs[j],
                cs[j + 1],
                es[j].2,
                first_cate(d, es[j].0),
                #[trigger] new_sets(*provider, p0.len() as int)[j],
            ) by {
                if j < i {
                    assert(new_sets(*provider, p0.len() as int)[j] == ns0[j]);
                    assert(cs[j] == cs.drop_last()[j]);
                    assert(cs[j + 1] == cs.drop_last()[j + 1]);
                } else {
                    assert(cs[j] == before);
                    assert(new_sets(*provider, p0.len() as int)[j] == sv);
                }
            }
        }
        i = i + 1;
    }
    proof {
        assert(user_trace(c0, cs, new_sets(*provider, p0.len() as int), es));
    }
    Ok(words)
}

} // verus!

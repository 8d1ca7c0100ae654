//! Provider of a routine for tokenization.
use vstd::prelude::*;

use crate::common::MAX_SENTENCE_LENGTH;
use crate::dictionary::connector::ConnectorWrapper;
use crate::dictionary::connector::Connector;
use crate::dictionary::mapper::{count_lefts, count_rights, ConnIdCounter};
use crate::dictionary::Dictionary;
use crate::errors::VibratoError;
use crate::sentence::Sentence;
use crate::token::Token;
use crate::tokenizer::lattice::{
    back_path, best_idx, eos_edges, eos_ok, lattice_edges, lattice_ok, lemma_eos_attained, lemma_eos_optimal, lemma_top_seq,
    node_ok, path_ok, top_seq, total_cost, Lattice, Node,
};
use crate::dictionary::lexicon::map::trie::end_marker;
use crate::tokenizer::{node_is_word, shapes, words_ok, Tokenizer};

verus! {

/// Every token ends at a position of the sentence after its start, and is a word
/// of the dictionary.
pub open spec fn tokens_ok(tops: Seq<(usize, Node)>, len: int, d: Dictionary) -> bool {
    forall|k: int|
        0 <= k < tops.len() ==> {
            let t = #[trigger] tops[k];
            &&& t.1.start_word < t.0 <= len
            &&& node_is_word(d, t.1)
        }
}

/// The nodes of the path back from a node of the lattice are tokens of the
/// sentence.
pub proof fn lemma_top_seq_ok(
    ends: Seq<Seq<Node>>,
    c: ConnectorWrapper,
    d: Dictionary,
    space: Option<u32>,
    len: int,
    e: int,
    i: int,
)
    requires
        lattice_ok(ends, c, len),
        words_ok(ends, d, space),
        ends.len() == len + 1,
        len <= MAX_SENTENCE_LENGTH,
        0 <= e < ends.len(),
        0 <= i < ends[e].len(),
    ensures
        tokens_ok(top_seq(ends, e, i), len, d),
    decreases e,
{
    if e > 0 {
        let n = ends[e][i];
        assert(node_ok(ends, c, n, e));
        assert(best_idx(ends, c, n.start_node as int, n.min_idx as int, n.left_id));
        lemma_top_seq_ok(ends, c, d, space, len, n.start_node as int, n.min_idx as int);
        let t = top_seq(ends, n.start_node as int, n.min_idx as int);
        assert(top_seq(ends, e, i) == seq![(e as usize, n)] + t);
        assert forall|k: int| 0 <= k < top_seq(ends, e, i).len() implies {
            let x = #[trigger] top_seq(ends, e, i)[k];
            &&& x.1.start_word < x.0 <= len
            &&& node_is_word(d, x.1)
        } by {
            if k > 0 {
                assert(top_seq(ends, e, i)[k] == t[k - 1]);
            }
        }
    } else {
        assert(top_seq(ends, e, i) =~= Seq::<(usize, Node)>::empty());
    }
}

/// Without space skipping, the nodes of the path back from a node follow one
/// another: the first ends at the node's position, each starts where the next
/// one ends, and the last starts at 0.
pub proof fn lemma_top_seq_cover(
    ends: Seq<Seq<Node>>,
    c: ConnectorWrapper,
    d: Dictionary,
    len: int,
    e: int,
    i: int,
)
    requires
        lattice_ok(ends, c, len),
        words_ok(ends, d, None),
        1 <= e < ends.len(),
        0 <= i < ends[e].len(),
        ends.len() <= usize::MAX,
    ensures
        ({
            let t = top_seq(ends, e, i);
            &&& t.len() >= 1
            &&& t[0].0 == e
            &&& t.last().1.start_word == 0
            &&& forall|k: int| 0 <= k < t.len() - 1 ==> (#[trigger] t[k]).1.start_word == t[k + 1].0
        }),
    decreases e,
{
    let n = ends[e][i];
    assert(node_ok(ends, c, n, e));
    assert(n.start_word == n.start_node);
    let t = top_seq(ends, e, i);
    let s = n.start_node as int;
    let j = n.min_idx as int;
    assert(t == seq![(e as usize, n)] + top_seq(ends, s, j));
    if s == 0 {
        assert(top_seq(ends, s, j) =~= Seq::<(usize, Node)>::empty());
        assert(t =~= seq![(e as usize, n)]);
    } else {
        assert(best_idx(ends, c, s, j, n.left_id));
        lemma_top_seq_cover(ends, c, d, len, s, j);
        let r = top_seq(ends, s, j);
        assert(t.last() == r.last());
        assert forall|k: int| 0 <= k < t.len() - 1 implies (#[trigger] t[k]).1.start_word == t[k + 1].0 by {
            if k > 0 {
                assert(t[k] == r[k - 1]);
                assert(t[k + 1] == r[k]);
            } else {
                assert(t[1] == r[0]);
            }
        }
    }
}

/// Provider of a routine for tokenization: the sentence, its lattice and the
/// resulting tokens, reused from one sentence to the next.
pub struct Worker<'t> {
    tokenizer: &'t Tokenizer,
    sent: Sentence,
    lattice: Lattice,
    top_nodes: Vec<(usize, Node)>,
    counter: Option<ConnIdCounter>,
}

impl<'t> Worker<'t> {
    /// The tokenizer.
    pub closed spec fn tokenizer_view(&self) -> Tokenizer {
        *self.tokenizer
    }

    /// The sentence.
    pub closed spec fn sentence_view(&self) -> Sentence {
        self.sent
    }

    /// The lattice of the last tokenization.
    pub closed spec fn lattice_view(&self) -> Lattice {
        self.lattice
    }

    /// The tokens with their end positions, last token first.
    pub closed spec fn tokens_view(&self) -> Seq<(usize, Node)> {
        self.top_nodes@
    }

    /// The counter of connection ids, once initialized.
    pub closed spec fn counter_view(&self) -> Option<ConnIdCounter> {
        self.counter
    }

    /// The text of the sentence.
    pub open spec fn text(&self) -> Seq<char> {
        self.sentence_view().text()
    }

    /// The dictionary of the tokenizer.
    pub open spec fn dict(&self) -> Dictionary {
        self.tokenizer_view().dict_view()
    }

    /// The dictionary is consistent, the sentence is compiled with its character
    /// property (or empty), and the tokens are words of the sentence.
    pub open spec fn wf(&self) -> bool {
        let s = self.sentence_view();
        &&& self.dict().wf()
        &&& s.text().len() <= MAX_SENTENCE_LENGTH
        &&& if s.text().len() == 0 {
            s.is_fresh()
        } else {
            s.compiled(&self.dict().char_prop_view())
        }
        &&& tokens_ok(self.tokens_view(), s.text().len() as int, self.dict())
    }

    /// The lattice is that of the sentence: it holds the cheapest cost of each
    /// node, its nodes are words of the dictionary, and EOS, when present, holds
    /// the cheapest cost to the end.
    pub open spec fn lattice_done(&self) -> bool {
        let ends = self.lattice_view().ends_view();
        let len = self.text().len();
        let c = self.tokenizer_view().conn();
        &&& ends.len() == len + 1
        &&& self.lattice_view().len_view() == len
        &&& lattice_ok(ends, c, len as int)
        &&& words_ok(ends, self.dict(), self.tokenizer_view().space_view())
        &&& self.lattice_view().eos_view() matches Some(eos) ==> eos_ok(ends, c, eos) && (
        self.tokenizer_view().space_view() is None ==> eos.start_node == len)
    }

    /// The lattice holds exactly the candidate words of the sentence (see
    /// [`Tokenizer::lattice_spec`]), and EOS follows the position where the
    /// building stops, when some node ends there.
    pub open spec fn lattice_exact(&self) -> bool {
        let (sh, eos_node) = self.tokenizer_view().lattice_spec(self.sentence_view());
        &&& shapes(self.lattice_view().ends_view()) == sh
        &&& 0 <= eos_node <= self.text().len()
        &&& (self.lattice_view().eos_view() is Some <==> sh[eos_node].len() > 0)
        &&& self.lattice_view().eos_view() matches Some(eos) ==> eos.start_node == eos_node
    }

    /// The nodes of the cheapest path, last first, once EOS is present.
    pub open spec fn best_tokens(&self) -> Seq<(usize, Node)> {
        match self.lattice_view().eos_view() {
            Some(eos) => top_seq(
                self.lattice_view().ends_view(),
                eos.start_node as int,
                eos.min_idx as int,
            ),
            None => seq![],
        }
    }

    /// Once a sentence is tokenized: the path back from EOS's best node costs
    /// exactly EOS's cost, no path from BOS to the nodes before EOS costs less
    /// (Viterbi), and the tokens are the nodes of that path, last first.
    pub proof fn lemma_best_tokens_cheapest(&self, p: Seq<(int, int)>)
        requires
            self.wf(),
            self.lattice_done(),
            self.lattice_view().eos_view() is Some,
            path_ok(self.lattice_view().ends_view(), p),
            p.last().0 == self.lattice_view().eos_view()->0.start_node,
        ensures
            ({
                let ends = self.lattice_view().ends_view();
                let eos = self.lattice_view().eos_view()->0;
                let c = self.tokenizer_view().conn();
                let best = back_path(ends, eos.start_node as int, eos.min_idx as int);
                &&& path_ok(ends, best)
                &&& best.last().0 == eos.start_node
                &&& total_cost(ends, c, best) == eos.min_cost
                &&& total_cost(ends, c, p) >= total_cost(ends, c, best)
                &&& self.best_tokens().len() == best.len() - 1
                &&& forall|k: int|
                    0 <= k < self.best_tokens().len() ==> {
                        let q = best[best.len() - 1 - k];
                        &&& (#[trigger] self.best_tokens()[k]).0 as int == q.0
                        &&& self.best_tokens()[k].1 == ends[q.0][q.1]
                    }
            }),
    {
        let ends = self.lattice_view().ends_view();
        let eos = self.lattice_view().eos_view()->0;
        let c = self.tokenizer_view().conn();
        let len = self.text().len() as int;
        lemma_eos_attained(ends, c, len, eos);
        lemma_eos_optimal(ends, c, len, eos, p);
        lemma_top_seq(ends, c, len, eos.start_node as int, eos.min_idx as int);
    }

    /// Once a non-empty sentence is tokenized without space skipping, the tokens
    /// of the cheapest path cover the sentence: the last ends at its end, each
    /// starts where the one before it ends, and the first starts at 0.
    pub proof fn lemma_best_tokens_cover(&self)
        requires
            self.wf(),
            self.lattice_done(),
            self.lattice_view().eos_view() is Some,
            self.tokenizer_view().space_view() is None,
            self.text().len() > 0,
        ensures
            ({
                let t = self.best_tokens();
                &&& t.len() >= 1
                &&& t[0].0 == self.text().len()
                &&& t.last().1.start_word == 0
                &&& forall|k: int| 0 <= k < t.len() - 1 ==> (#[trigger] t[k]).1.start_word == t[k + 1].0
            }),
    {
        let ends = self.lattice_view().ends_view();
        let eos = self.lattice_view().eos_view()->0;
        let len = self.text().len() as int;
        lemma_top_seq_cover(
            ends,
            self.tokenizer_view().conn(),
            self.dict(),
            len,
            eos.start_node as int,
            eos.min_idx as int,
        );
    }

    /// Creates a new instance.
    pub(crate) fn new(tokenizer: &'t Tokenizer) -> (r: Self)
        requires
            tokenizer.dict_view().wf(),
        ensures
            r.tokenizer_view() == *tokenizer,
            r.wf(),
            r.text().len() == 0,
            r.tokens_view().len() == 0,
            r.counter_view() is None,
    {
        Self {
            tokenizer,
            sent: Sentence::new(),
            lattice: Lattice::new(),
            top_nodes: Vec::new(),
            counter: None,
        }
    }

    /// Resets the input sentence to be tokenized, and forgets the tokens.
    ///
    /// Fails with an invalid-argument error, leaving the sentence empty, when the
    /// input has more than [`MAX_SENTENCE_LENGTH`] characters.
    pub fn reset_sentence(&mut self, input: &str) -> (r: Result<(), VibratoError>)
        requires
            old(self).wf(),
        ensures
            final(self).wf(),
            final(self).tokenizer_view() == old(self).tokenizer_view(),
            final(self).counter_view() == old(self).counter_view(),
            final(self).tokens_view().len() == 0,
            r is Ok <==> input@.len() <= MAX_SENTENCE_LENGTH,
            r is Ok ==> final(self).text() == input@,
            r matches Err(e) ==> final(self).text().len() == 0 && e is InvalidArgument,
    {
        self.sent.clear();
        self.top_nodes.clear();
        if input.is_empty() {
            return Ok(());
        }
        self.sent.set_sentence(input);
        let _ = self.sent.compile(self.tokenizer.dictionary().char_prop());
        if self.sent.len_char() > MAX_SENTENCE_LENGTH as usize {
            self.sent.clear();
            return Err(
                VibratoError::invalid_argument("input", "The sentence has too many characters."),
            );
        }
        Ok(())
    }

    /// Tokenizes the sentence, appending the nodes of the cheapest path from BOS to
    /// EOS to the tokens. Nothing is appended for an empty sentence, or when no
    /// path reaches EOS.
    pub fn tokenize(&mut self)
        requires
            old(self).wf(),
            old(self).tokenizer_view().ready(),
        ensures
            final(self).wf(),
            final(self).tokenizer_view() == old(self).tokenizer_view(),
            final(self).sentence_view() == old(self).sentence_view(),
            final(self).counter_view() == old(self).counter_view(),
            old(self).text().len() == 0 ==> final(self).tokens_view() == old(self).tokens_view(),
            old(self).text().len() > 0 ==> final(self).lattice_done() && final(self).tokens_view()
                == old(self).tokens_view() + final(self).best_tokens(),
            old(self).text().len() > 0 && !old(self).text().contains(end_marker())
                ==> final(self).lattice_exact(),
    {
        if self.sent.len_char() == 0 {
            return;
        }
        let ghost d = self.dict();
        let ghost len = self.text().len() as int;
        self.tokenizer.build_lattice(&self.sent, &mut self.lattice);
        if self.lattice.has_eos() {
            let ghost before = self.top_nodes@;
            self.lattice.append_top_nodes(
                &mut self.top_nodes,
                self.tokenizer.dictionary().connector(),
                Ghost(len),
            );
            proof {
                let ends = self.lattice.ends_view();
                let eos = self.lattice.eos_view()->0;
                lemma_top_seq_ok(
                    ends,
                    self.tokenizer_view().conn(),
                    d,
                    self.tokenizer_view().space_view(),
                    len,
                    eos.start_node as int,
                    eos.min_idx as int,
                );
                let t = top_seq(ends, eos.start_node as int, eos.min_idx as int);
                assert forall|k: int| 0 <= k < self.top_nodes@.len() implies {
                    let x = #[trigger] self.top_nodes@[k];
                    &&& x.1.start_word < x.0 <= len
                    &&& node_is_word(d, x.1)
                } by {
                    if k < before.len() {
                        assert(self.top_nodes@[k] == before[k]);
                    } else {
                        assert(self.top_nodes@[k] == t[k - before.len()]);
                    }
                }
            }
        } else {
            assert(self.top_nodes@ =~= self.top_nodes@ + self.best_tokens());
        }
    }

    /// Number of tokens.
    pub fn num_tokens(&self) -> (r: usize)
        ensures
            r == self.tokens_view().len(),
    {
        self.top_nodes.len()
    }

    /// The `i`-th token, counting from the first.
    pub fn token<'w>(&'w self, i: usize) -> (r: Token<'w, 't>)
        requires
            self.wf(),
            i < self.tokens_view().len(),
        ensures
            r.worker_view() == *self,
            r.index_view() == self.tokens_view().len() - 1 - i,
            r.valid(),
    {
        let index = self.top_nodes.len() - i - 1;
        Token::new(self, index)
    }

    /// Starts counting the occurrences of connection ids, from zero.
    pub fn init_connid_counter(&mut self)
        requires
            old(self).wf(),
        ensures
            final(self).wf(),
            final(self).tokenizer_view() == old(self).tokenizer_view(),
            final(self).sentence_view() == old(self).sentence_view(),
            final(self).lattice_view() == old(self).lattice_view(),
            final(self).tokens_view() == old(self).tokens_view(),
            final(self).counter_view() matches Some(cnt) && cnt.lid_counts() == Seq::new(
                old(self).tokenizer_view().conn().left_len(),
                |_i: int| 0usize,
            ) && cnt.rid_counts() == Seq::new(old(self).tokenizer_view().conn().right_len(), |_i: int| 0usize),
    {
        let connector = self.tokenizer.dictionary().connector();
        self.counter = Some(ConnIdCounter::new(connector.num_left(), connector.num_right()));
    }

    /// Counts the connection ids of the edges of the last lattice: for every node
    /// and every node before it, the left id of the first and the right id of
    /// the second; then for EOS and every node at the last position.
    pub fn update_connid_counts(&mut self)
        requires
            old(self).wf(),
            old(self).tokenizer_view().ready(),
            old(self).lattice_done(),
            old(self).lattice_view().eos_view() is Some,
            old(self).counter_view() matches Some(cnt) && cnt.lid_counts().len() == old(
                self,
            ).tokenizer_view().conn().left_len() && cnt.rid_counts().len() == old(
                self,
            ).tokenizer_view().conn().right_len(),
        ensures
            final(self).wf(),
            final(self).tokenizer_view() == old(self).tokenizer_view(),
            final(self).sentence_view() == old(self).sentence_view(),
            final(self).lattice_view() == old(self).lattice_view(),
            final(self).tokens_view() == old(self).tokens_view(),
            ({
                let l = old(self).lattice_view();
                let edges = lattice_edges(l.ends_view(), (l.len_view() + 1) as int) + eos_edges(
                    l.ends_view(),
                    l.len_view() as int,
                    l.eos_view()->0,
                );
                let before = old(self).counter_view()->0;
                &&& final(self).counter_view() matches Some(cnt) && cnt.lid_counts() == count_lefts(
                    before.lid_counts(),
                    edges,
                ) && cnt.rid_counts() == count_rights(before.rid_counts(), edges)
            }),
    {
        let mut counter: Option<ConnIdCounter> = None;
        std::mem::swap(&mut counter, &mut self.counter);
        let mut cnt = counter.unwrap();
        self.lattice.add_connid_counts(
            &mut cnt,
            self.tokenizer.dictionary().connector(),
            Ghost(self.text().len() as int),
        );
        self.counter = Some(cnt);
    }

    /// The counter of connection ids, once initialized.
    pub fn connid_counter(&self) -> (r: Option<&ConnIdCounter>)
        ensures
            r matches Some(c) ==> self.counter_view() == Some(*c),
            r is None ==> self.counter_view() is None,
    {
        match &self.counter {
            Some(c) => Some(c),
            None => None,
        }
    }

    /// The sentence.
    pub(crate) fn sentence(&self) -> (r: &Sentence)
        ensures
            *r == self.sentence_view(),
    {
        &self.sent
    }

    /// The tokenizer.
    pub(crate) fn tokenizer(&self) -> (r: &Tokenizer)
        ensures
            *r == self.tokenizer_view(),
    {
        self.tokenizer
    }

    /// The `k`-th token with its end position, last token first.
    pub(crate) fn top_node(&self, k: usize) -> (r: (usize, Node))
        requires
            k < self.tokens_view().len(),
        ensures
            r == self.tokens_view()[k as int],
    {
        self.top_nodes[k]
    }
}

} // verus!

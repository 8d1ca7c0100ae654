//! Viterbi-based tokenizer.
use vstd::prelude::*;

pub mod lattice;
pub mod worker;

use crate::common::MAX_SENTENCE_LENGTH;
use crate::utils::index_of;
use crate::dictionary::connector::{Connector, ConnectorWrapper};
use crate::dictionary::lexicon::param::WordParam;
use crate::dictionary::word_idx::WordIdx;
use crate::dictionary::Dictionary;
use crate::errors::VibratoError;
use crate::sentence::{lemma_run_len_bounds, Sentence};
use crate::dictionary::lexicon::{lex_matches, lemma_lex_matches_fit, LexMatch, Lexicon};
use crate::dictionary::lexicon::map::trie::end_marker;
use crate::dictionary::unknown::{unk_words, UnkWord};
use crate::dictionary::LexType;
use crate::tokenizer::lattice::{bos_node, lattice_ok, lemma_lattice_later, eos_ok, Lattice, Node};
use crate::tokenizer::worker::Worker;

verus! {

/// The node is a word of the dictionary, with the word's parameters.
pub open spec fn node_is_word(d: Dictionary, n: Node) -> bool {
    let w = WordIdx { lex_type: n.lex_type, word_id: n.word_id };
    &&& d.has_word(w)
    &&& d.param_of(w) == (WordParam { left_id: n.left_id, right_id: n.right_id, word_cost: n.word_cost })
}

/// Every node after BOS is a word of the dictionary; without space skipping,
/// each word starts where the preceding words end.
pub open spec fn words_ok(ends: Seq<Seq<Node>>, d: Dictionary, space: Option<u32>) -> bool {
    forall|e: int, i: int|
        1 <= e < ends.len() && 0 <= i < ends[e].len() ==> {
            let n = #[trigger] ends[e][i];
            &&& node_is_word(d, n)
            &&& space is None ==> n.start_word == n.start_node
        }
}

/// A word that can make a node: its span and word.
#[derive(Clone, Copy, Debug, PartialEq, Eq, Structural)]
pub struct Candidate {
    /// Position where the word starts.
    pub start_word: usize,
    /// Position where the word ends.
    pub end_word: usize,
    /// The word.
    pub word_idx: WordIdx,
    /// Its parameters.
    pub word_param: WordParam,
}

/// A node without its cheapest-path fields: where the words before it end, where
/// it starts, its word and parameters.
pub type Shape = (usize, usize, WordIdx, WordParam);

/// The shape of a node.
pub open spec fn shape(n: Node) -> Shape {
    (
        n.start_node,
        n.start_word,
        WordIdx { lex_type: n.lex_type, word_id: n.word_id },
        WordParam { left_id: n.left_id, right_id: n.right_id, word_cost: n.word_cost },
    )
}

/// The shapes of the nodes ending at each position.
pub open spec fn shapes(ends: Seq<Seq<Node>>) -> Seq<Seq<Shape>> {
    ends.map_values(|v: Seq<Node>| v.map_values(|n: Node| shape(n)))
}

/// The shapes after adding the candidates, in order, after the nodes ending at
/// `sn`.
pub open spec fn put(sh: Seq<Seq<Shape>>, sn: usize, cs: Seq<Candidate>) -> Seq<Seq<Shape>>
    decreases cs.len(),
{
    if cs.len() == 0 {
        sh
    } else {
        let p = put(sh, sn, cs.drop_last());
        let c = cs.last();
        p.update(c.end_word as int, p[c.end_word as int].push((sn, c.start_word, c.word_idx, c.word_param)))
    }
}

/// The words of a lexicon whose surfaces start at `sw` in the text.
pub open spec fn lex_cands(lex: Lexicon, text: Seq<char>, sw: int) -> Seq<Candidate> {
    lex_matches(
        lex.records(),
        lex.params_view(),
        lex.lex_type_view(),
        text.subrange(sw, text.len() as int),
    ).map_values(
        |m: LexMatch|
            Candidate {
                start_word: sw as usize,
                end_word: (sw + m.end_char) as usize,
                word_idx: m.word_idx,
                word_param: m.word_param,
            },
    )
}

/// The candidate of an unknown word.
pub open spec fn unk_cand(w: UnkWord) -> Candidate {
    Candidate {
        start_word: w.start_char,
        end_word: w.end_char,
        word_idx: WordIdx { lex_type: LexType::Unknown, word_id: w.word_id as u32 },
        word_param: WordParam { left_id: w.left_id, right_id: w.right_id, word_cost: w.word_cost },
    }
}

/// The user lexicon's words at `sw`, then the system lexicon's, then the unknown
/// words (see [`unk_words`]), knowing whether a lexicon word matched.
pub open spec fn cands_at(d: Dictionary, sent: Sentence, sw: int, mgl: Option<usize>) -> Seq<Candidate> {
    let text = sent.char_seq();
    let user = match d.user_view() {
        Some(u) => lex_cands(u, text, sw),
        None => seq![],
    };
    let sys = lex_cands(d.system_view(), text, sw);
    let unk = unk_words(
        d.unk_view().offsets_view(),
        d.unk_view().entries_view(),
        sent.infos()[sw],
        sent.runs()[sw] as int,
        sw as usize,
        user.len() + sys.len() > 0,
        mgl,
    ).map_values(|w: UnkWord| unk_cand(w));
    user + sys + unk
}

/// Where the words after the nodes ending at `sn` start: past the run of spaces
/// there, when spaces are skipped.
pub open spec fn word_start(sent: Sentence, space: Option<u32>, sn: int) -> int {
    match space {
        Some(set) => if sent.infos()[sn].spec_cate_idset() & set != 0 {
            sn + sent.runs()[sn]
        } else {
            sn
        },
        None => sn,
    }
}

/// The shapes of the lattice built from position `sn` on, and where EOS goes:
/// from each position that some node ends at, the candidates at the word start
/// (past spaces, when skipped), then on after that start.
pub open spec fn run_lattice(
    d: Dictionary,
    space: Option<u32>,
    mgl: Option<usize>,
    sent: Sentence,
    sh: Seq<Seq<Shape>>,
    sn: int,
) -> (Seq<Seq<Shape>>, int)
    decreases sent.char_seq().len() - sn,
{
    let len = sent.char_seq().len() as int;
    if sn < 0 || sn >= len {
        (sh, sn)
    } else if sh[sn].len() == 0 {
        run_lattice(d, space, mgl, sent, sh, sn + 1)
    } else {
        let sw = word_start(sent, space, sn);
        if sw < len {
            run_lattice(d, space, mgl, sent, put(sh, sn as usize, cands_at(d, sent, sw, mgl)), sw + 1)
        } else {
            (sh, sn)
        }
    }
}

/// The shapes of a lattice with only BOS.
pub open spec fn initial_shapes(len: int) -> Seq<Seq<Shape>> {
    Seq::new(
        (len + 1) as nat,
        |e: int|
            if e == 0 {
                seq![shape(bos_node())]
            } else {
                seq![]
            },
    )
}

/// Adding one more candidate.
proof fn lemma_put_push(sh: Seq<Seq<Shape>>, sn: usize, cs: Seq<Candidate>, k: int)
    requires
        0 <= k < cs.len(),
    ensures
        put(sh, sn, cs.take(k + 1)) == ({
            let p = put(sh, sn, cs.take(k));
            p.update(
                cs[k].end_word as int,
                p[cs[k].end_word as int].push((sn, cs[k].start_word, cs[k].word_idx, cs[k].word_param)),
            )
        }),
{
    assert(cs.take(k + 1).drop_last() =~= cs.take(k));
}

/// Tokenizer.
pub struct Tokenizer {
    dict: Dictionary,
    space_cateset: Option<u32>,
    max_grouping_len: Option<usize>,
}

impl Tokenizer {
    /// The dictionary.
    pub closed spec fn dict_view(&self) -> Dictionary {
        self.dict
    }

    /// The category id set of spaces, when spaces are skipped.
    pub closed spec fn space_view(&self) -> Option<u32> {
        self.space_cateset
    }

    /// The maximum grouping length of unknown words, if any.
    pub closed spec fn grouping_view(&self) -> Option<usize> {
        self.max_grouping_len
    }

    /// The connector of the dictionary.
    pub open spec fn conn(&self) -> ConnectorWrapper {
        self.dict_view().connector_view()
    }

    /// The dictionary is consistent and its connector holds BOS/EOS's id.
    pub open spec fn ready(&self) -> bool {
        &&& self.dict_view().wf()
        &&& self.conn().left_len() >= 1
        &&& self.conn().right_len() >= 1
    }

    /// Creates a new instance.
    pub fn new(dict: Dictionary) -> (r: Self)
        ensures
            r.dict_view() == dict,
            r.space_view() is None,
            r.grouping_view() is None,
    {
        Self { dict, space_cateset: None, max_grouping_len: None }
    }

    /// Ignores spaces from tokens, for compatibility with MeCab: the characters of
    /// category `SPACE` are skipped between words.
    ///
    /// Fails with an invalid-argument error when `yes` and category `SPACE` is not
    /// defined in the dictionary.
    pub fn ignore_space(self, yes: bool) -> (r: Result<Self, VibratoError>)
        requires
            self.dict_view().wf(),
        ensures
            r is Err <==> yes && index_of(
                self.dict_view().char_prop_view().names(),
                "SPACE"@,
            ) >= self.dict_view().char_prop_view().names().len(),
            r matches Err(e) ==> e is InvalidArgument,
            r matches Ok(t) ==> t.dict_view() == self.dict_view() && t.grouping_view()
                == self.grouping_view() && (yes ==> t.space_view() == Some(
                1u32 << index_of(self.dict_view().char_prop_view().names(), "SPACE"@) as u32,
            )) && (!yes ==> t.space_view() is None),
    {
        let mut this = self;
        if yes {
            match this.dict.char_prop().cate_id("SPACE") {
                Some(cate_id) => {
                    proof {
                        crate::utils::lemma_index_of_bound(
                            this.dict_view().char_prop_view().names(),
                            "SPACE"@,
                        );
                    }
                    this.space_cateset = Some(1u32 << cate_id);
                },
                None => {
                    return Err(
                        VibratoError::invalid_argument(
                            "dict",
                            "SPACE is not defined in the input dictionary (i.e., char.def).",
                        ),
                    );
                },
            }
        } else {
            this.space_cateset = None;
        }
        Ok(this)
    }

    /// Sets the maximum grouping length of unknown words, for compatibility with
    /// MeCab; 0 stands for no limit, the default.
    pub fn max_grouping_len(self, max_grouping_len: usize) -> (r: Self)
        ensures
            r.dict_view() == self.dict_view(),
            r.space_view() == self.space_view(),
            r.grouping_view() == if max_grouping_len != 0 {
                Some(max_grouping_len)
            } else {
                None
            },
    {
        let mut this = self;
        if max_grouping_len != 0 {
            this.max_grouping_len = Some(max_grouping_len);
        } else {
            this.max_grouping_len = None;
        }
        this
    }

    /// The dictionary.
    pub fn dictionary(&self) -> (r: &Dictionary)
        ensures
            *r == self.dict_view(),
    {
        &self.dict
    }

    /// Creates a new worker.
    pub fn new_worker(&self) -> (r: Worker<'_>)
        requires
            self.dict_view().wf(),
        ensures
            r.tokenizer_view() == *self,
            r.wf(),
            r.text().len() == 0,
            r.tokens_view().len() == 0,
            r.counter_view() is None,
    {
        Worker::new(self)
    }

    /// Adds the word `start_word..end_word` after the nodes ending at `start_node`,
    /// when it is a word of the dictionary within the sentence.
    fn insert_word(
        &self,
        lattice: &mut Lattice,
        start_node: usize,
        start_word: usize,
        end_word: usize,
        word_idx: WordIdx,
        word_param: WordParam,
        len: usize,
        cur: Ghost<int>,
    )
        requires
            self.ready(),
            lattice_ok(old(lattice).ends_view(), self.conn(), cur@),
            words_ok(old(lattice).ends_view(), self.dict_view(), self.space_view()),
            start_node == cur@,
            old(lattice).ends_view().len() == len + 1,
            len <= MAX_SENTENCE_LENGTH,
            old(lattice).ends_view()[start_node as int].len() > 0,
            self.space_view() is None ==> start_node == start_word,
        ensures
            lattice_ok(final(lattice).ends_view(), self.conn(), cur@),
            words_ok(final(lattice).ends_view(), self.dict_view(), self.space_view()),
            final(lattice).ends_view().len() == len + 1,
            final(lattice).ends_view()[start_node as int] == old(lattice).ends_view()[start_node as int],
            final(lattice).len_view() == old(lattice).len_view(),
            final(lattice).eos_view() == old(lattice).eos_view(),
            start_node <= start_word < end_word <= len && self.dict_view().has_word(word_idx)
                && self.dict_view().param_of(word_idx) == word_param ==> shapes(final(lattice).ends_view())
                == shapes(old(lattice).ends_view()).update(
                end_word as int,
                shapes(old(lattice).ends_view())[end_word as int].push(
                    (start_node, start_word, word_idx, word_param),
                ),
            ),
    {
        let c = self.dict.connector();
        if start_node <= start_word && start_word < end_word && end_word <= len && self.dict.contains_word(
            word_idx,
        ) {
            let p = self.dict.word_param(word_idx);
            if p == word_param {
                let ghost ends = lattice.ends_view();
                proof {
                    self.dict_view().lemma_param_within(word_idx);
                }
                lattice.insert_node(start_node, start_word, end_word, word_idx, word_param, c, cur);
                proof {
                    let ne = lattice.ends_view();
                    assert forall|e: int, i: int| 1 <= e < ne.len() && 0 <= i < ne[e].len() implies {
                        let n = #[trigger] ne[e][i];
                        &&& node_is_word(self.dict_view(), n)
                        &&& self.space_view() is None ==> n.start_word == n.start_node
                    } by {
                        if e != end_word || i < ends[e].len() {
                            assert(ne[e][i] == ends[e][i]);
                        } else {
                            assert(ne[e][i] == ne[e].last());
                        }
                    }
                    let se = shapes(ends);
                    let sne = shapes(ne);
                    let tgt = se.update(
                        end_word as int,
                        se[end_word as int].push((start_node, start_word, word_idx, word_param)),
                    );
                    assert forall|e: int| 0 <= e < sne.len() implies #[trigger] sne[e] == tgt[e] by {
                        if e != end_word {
                            assert(ne[e] == ends[e]);
                        } else {
                            assert(sne[e] =~= tgt[e]);
                        }
                    }
                    assert(sne =~= tgt);
                }
            }
        }
    }

    /// Adds the words starting at `start_word`: those of the user and system
    /// lexicons whose surfaces begin there, then the unknown words, after the
    /// nodes ending at `start_node`.
    fn add_lattice_edges(
        &self,
        sent: &Sentence,
        lattice: &mut Lattice,
        start_node: usize,
        start_word: usize,
        cur: Ghost<int>,
    )
        requires
            self.ready(),
            sent.compiled(&self.dict_view().char_prop_view()),
            sent.char_seq().len() <= MAX_SENTENCE_LENGTH,
            lattice_ok(old(lattice).ends_view(), self.conn(), cur@),
            words_ok(old(lattice).ends_view(), self.dict_view(), self.space_view()),
            start_node == cur@,
            start_node <= start_word < sent.char_seq().len(),
            self.space_view() is None ==> start_node == start_word,
            old(lattice).ends_view().len() == sent.char_seq().len() + 1,
            old(lattice).ends_view()[start_node as int].len() > 0,
        ensures
            lattice_ok(final(lattice).ends_view(), self.conn(), cur@),
            words_ok(final(lattice).ends_view(), self.dict_view(), self.space_view()),
            final(lattice).ends_view().len() == old(lattice).ends_view().len(),
            final(lattice).ends_view()[start_node as int] == old(lattice).ends_view()[start_node as int],
            final(lattice).len_view() == old(lattice).len_view(),
            final(lattice).eos_view() == old(lattice).eos_view(),
            !sent.char_seq().contains(end_marker()) ==> shapes(final(lattice).ends_view()) == put(
                shapes(old(lattice).ends_view()),
                start_node,
                cands_at(self.dict_view(), *sent, start_word as int, self.grouping_view()),
            ),
    {
        let len = sent.len_char();
        let chars = sent.chars();
        let suffix = &chars[start_word..len];
        let ghost text = sent.char_seq();
        let ghost d = self.dict_view();
        let ghost clean = !text.contains(end_marker());
        let ghost sh0 = shapes(lattice.ends_view());
        let ghost first = lattice.ends_view()[start_node as int];
        proof {
            assert(suffix@ == text.subrange(start_word as int, len as int));
            if clean && suffix@.contains(end_marker()) {
                let j = choose|j: int| 0 <= j < suffix@.len() && suffix@[j] == end_marker();
                assert(text[start_word + j] == end_marker());
            }
        }
        let ghost user_c = match d.user_view() {
            Some(u) => lex_cands(u, text, start_word as int),
            None => seq![],
        };
        let ghost sys_c = lex_cands(d.system_view(), text, start_word as int);
        let mut has_matched = false;
        match self.dict.user_lexicon() {
            Some(user) => {
                let found = user.common_prefix_iterator(suffix);
                proof {
                    user.lemma_ids_below();
                    lemma_lex_matches_fit(user.records(), user.params_view(), user.lex_type_view(), suffix@);
                }
                let n = found.len();
                let mut k: usize = 0;
                while k < n
                    invariant
                        k <= n == found@.len(),
                        self.ready(),
                        d == self.dict_view(),
                        d.user_view() == Some(*user),
                        len == sent.char_seq().len() <= MAX_SENTENCE_LENGTH,
                        text == sent.char_seq(),
                        suffix@ == text.subrange(start_word as int, len as int),
                        start_node == cur@,
                        start_node <= start_word < len,
                        self.space_view() is None ==> start_node == start_word,
                        lattice_ok(lattice.ends_view(), self.conn(), cur@),
                        words_ok(lattice.ends_view(), self.dict_view(), self.space_view()),
                        lattice.ends_view().len() == len + 1,
                        lattice.ends_view()[start_node as int] == first,
                        first.len() > 0,
                        lattice.len_view() == old(lattice).len_view(),
                        lattice.eos_view() == old(lattice).eos_view(),
                        has_matched == (k > 0),
                        clean ==> found@ == lex_matches(
                            user.records(),
                            user.params_view(),
                            user.lex_type_view(),
                            suffix@,
                        ),
                        user_c == lex_cands(*user, text, start_word as int),
                        clean ==> shapes(lattice.ends_view()) == put(sh0, start_node, user_c.take(k as int)),
                    decreases n - k,
                {
                    let m = found[k];
                    proof {
                        if clean {
                            user.lemma_ids_below();
                            lemma_lex_matches_fit(user.records(), user.params_view(), user.lex_type_view(), suffix@);
                            assert(text.subrange(start_word as int, text.len() as int) == suffix@);
                            let lm = lex_matches(user.records(), user.params_view(), user.lex_type_view(), suffix@);
                            assert(lm[k as int] == m);
                            assert(user_c[k as int] == Candidate {
                                start_word: start_word,
                                end_word: (start_word + m.end_char) as usize,
                                word_idx: m.word_idx,
                                word_param: m.word_param,
                            });
                            assert(user.lex_type_view() == LexType::User);
                            assert(d.has_word(m.word_idx));
                            assert(d.param_of(m.word_idx) == m.word_param);
                        }
                    }
                    if m.end_char <= len - start_word {
                        self.insert_word(
                            lattice,
                            start_node,
                            start_word,
                            start_word + m.end_char,
                            m.word_idx,
                            m.word_param,
                            len,
                            cur,
                        );
                    }
                    proof {
                        if clean {
                            lemma_put_push(sh0, start_node, user_c, k as int);
                        }
                    }
                    has_matched = true;
                    k = k + 1;
                }
                proof {
                    if clean {
                        assert(user_c.take(n as int) =~= user_c);
                    }
                }
            },
            None => {
                assert(user_c.take(0) =~= user_c);
            },
        }
        let system = self.dict.system_lexicon();
        let found = system.common_prefix_iterator(suffix);
        proof {
            system.lemma_ids_below();
            lemma_lex_matches_fit(system.records(), system.params_view(), system.lex_type_view(), suffix@);
            assert(user_c + sys_c.take(0) =~= user_c);
        }
        let n = found.len();
        let mut k: usize = 0;
        while k < n
            invariant
                k <= n == found@.len(),
                self.ready(),
                d == self.dict_view(),
                *system == d.system_view(),
                len == sent.char_seq().len() <= MAX_SENTENCE_LENGTH,
                text == sent.char_seq(),
                suffix@ == text.subrange(start_word as int, len as int),
                start_node == cur@,
                start_node <= start_word < len,
                self.space_view() is None ==> start_node == start_word,
                lattice_ok(lattice.ends_view(), self.conn(), cur@),
                words_ok(lattice.ends_view(), self.dict_view(), self.space_view()),
                lattice.ends_view().len() == len + 1,
                lattice.ends_view()[start_node as int] == first,
                first.len() > 0,
                lattice.len_view() == old(lattice).len_view(),
                lattice.eos_view() == old(lattice).eos_view(),
                clean ==> has_matched == (user_c.len() + k > 0),
                clean ==> found@ == lex_matches(
                    system.records(),
                    system.params_view(),
                    system.lex_type_view(),
                    suffix@,
                ),
                sys_c == lex_cands(*system, text, start_word as int),
                clean ==> shapes(lattice.ends_view()) == put(sh0, start_node, user_c + sys_c.take(k as int)),
            decreases n - k,
        {
            let m = found[k];
            proof {
                if clean {
                    system.lemma_ids_below();
                    lemma_lex_matches_fit(system.records(), system.params_view(), system.lex_type_view(), suffix@);
                    assert(text.subrange(start_word as int, text.len() as int) == suffix@);
                    let lm = lex_matches(system.records(), system.params_view(), system.lex_type_view(), suffix@);
                    assert(lm[k as int] == m);
                    assert(sys_c[k as int] == Candidate {
                        start_word: start_word,
                        end_word: (start_word + m.end_char) as usize,
                        word_idx: m.word_idx,
                        word_param: m.word_param,
                    });
                    assert(system.lex_type_view() == LexType::System);
                    assert(d.has_word(m.word_idx));
                    assert(d.param_of(m.word_idx) == m.word_param);
                }
            }
            if m.end_char <= len - start_word {
                self.insert_word(
                    lattice,
                    start_node,
                    start_word,
                    start_word + m.end_char,
                    m.word_idx,
                    m.word_param,
                    len,
                    cur,
                );
            }
            proof {
                if clean {
                    assert((user_c + sys_c).take(user_c.len() + k + 1) =~= user_c + sys_c.take(k + 1));
                    assert((user_c + sys_c).take(user_c.len() + k) =~= user_c + sys_c.take(k as int));
                    lemma_put_push(sh0, start_node, user_c + sys_c, user_c.len() + k);
                    assert((user_c + sys_c)[user_c.len() + k] == sys_c[k as int]);
                }
            }
            has_matched = true;
            k = k + 1;
        }
        proof {
            if clean {
                assert(user_c + sys_c.take(n as int) =~= user_c + sys_c);
            }
        }
        let ghost prop = self.dict_view().char_prop_view();
        proof {
            prop.lemma_base_id(sent.char_seq()[start_word as int]);
            sent.lemma_idsets();
            lemma_run_len_bounds(sent.idsets(), start_word as int);
        }
        let words = self.dict.unk_handler().gen_unk_words(
            sent,
            start_word,
            has_matched,
            self.max_grouping_len,
        );
        let ghost unk_c = words@.map_values(|w: UnkWord| unk_cand(w));
        proof {
            d.unk_view().lemma_unk_words_fit(
                sent.infos()[start_word as int],
                sent.runs()[start_word as int] as int,
                start_word,
                has_matched,
                self.grouping_view(),
                len as int,
            );
            assert((user_c + sys_c) + unk_c.take(0) =~= user_c + sys_c);
        }
        let n = words.len();
        let mut k: usize = 0;
        while k < n
            invariant
                k <= n == words@.len(),
                self.ready(),
                d == self.dict_view(),
                len == sent.char_seq().len() <= MAX_SENTENCE_LENGTH,
                text == sent.char_seq(),
                start_node == cur@,
                start_node <= start_word < len,
                self.space_view() is None ==> start_node == start_word,
                lattice_ok(lattice.ends_view(), self.conn(), cur@),
                words_ok(lattice.ends_view(), self.dict_view(), self.space_view()),
                lattice.ends_view().len() == len + 1,
                lattice.ends_view()[start_node as int] == first,
                first.len() > 0,
                lattice.len_view() == old(lattice).len_view(),
                lattice.eos_view() == old(lattice).eos_view(),
                unk_c == words@.map_values(|w: UnkWord| unk_cand(w)),
                crate::dictionary::unknown::words_fit(words@, d.unk_view().entries_view(), start_word, len as int),
                clean ==> shapes(lattice.ends_view()) == put(sh0, start_node, (user_c + sys_c) + unk_c.take(k as int)),
            decreases n - k,
        {
            let w = &words[k];
            let sw = w.start_char();
            if self.space_cateset.is_some() || sw == start_node {
                self.insert_word(
                    lattice,
                    start_node,
                    sw,
                    w.end_char(),
                    w.word_idx(),
                    w.word_param(),
                    len,
                    cur,
                );
            }
            proof {
                if clean {
                    let base = user_c + sys_c;
                    assert((base + unk_c).take(base.len() + k + 1) =~= base + unk_c.take(k + 1));
                    assert((base + unk_c).take(base.len() + k) =~= base + unk_c.take(k as int));
                    lemma_put_push(sh0, start_node, base + unk_c, base.len() + k);
                    assert((base + unk_c)[base.len() + k] == unk_c[k as int]);
                }
            }
            k = k + 1;
        }
        proof {
            if clean {
                assert((user_c + sys_c) + unk_c.take(n as int) =~= cands_at(
                    d,
                    *sent,
                    start_word as int,
                    self.grouping_view(),
                ));
            }
        }
    }

    /// The shapes of the lattice of a sentence and the position of EOS: see
    /// [`run_lattice`].
    pub open spec fn lattice_spec(&self, sent: Sentence) -> (Seq<Seq<Shape>>, int) {
        run_lattice(
            self.dict_view(),
            self.space_view(),
            self.grouping_view(),
            sent,
            initial_shapes(sent.char_seq().len() as int),
            0,
        )
    }

    /// Builds the lattice of a sentence: from each position reached by a word
    /// (after skipping spaces, when asked), the words that start there; then EOS
    /// after the words that end at the last position reached.
    pub fn build_lattice(&self, sent: &Sentence, lattice: &mut Lattice)
        requires
            self.ready(),
            sent.compiled(&self.dict_view().char_prop_view()),
            1 <= sent.char_seq().len() <= MAX_SENTENCE_LENGTH,
        ensures
            final(lattice).ends_view().len() == sent.char_seq().len() + 1,
            final(lattice).len_view() == sent.char_seq().len(),
            lattice_ok(final(lattice).ends_view(), self.conn(), sent.char_seq().len() as int),
            words_ok(final(lattice).ends_view(), self.dict_view(), self.space_view()),
            final(lattice).eos_view() matches Some(eos) ==> eos_ok(final(lattice).ends_view(), self.conn(), eos)
                && (self.space_view() is None ==> eos.start_node == sent.char_seq().len()),
            !sent.char_seq().contains(end_marker()) ==> {
                let (sh, eos_node) = self.lattice_spec(*sent);
                &&& shapes(final(lattice).ends_view()) == sh
                &&& 0 <= eos_node <= sent.char_seq().len()
                &&& (final(lattice).eos_view() is Some <==> sh[eos_node].len() > 0)
                &&& final(lattice).eos_view() matches Some(eos) ==> eos.start_node == eos_node
            },
    {
        let c = self.dict.connector();
        let len = sent.len_char();
        lattice.reset(len, c);
        let mut start_node: usize = 0;
        let mut start_word: usize = 0;
        let ghost clean = !sent.char_seq().contains(end_marker());
        let ghost d = self.dict_view();
        let ghost space = self.space_view();
        let ghost mgl = self.grouping_view();
        proof {
            sent.lemma_idsets();
            let sh = shapes(lattice.ends_view());
            assert forall|e: int| 0 <= e < sh.len() implies #[trigger] sh[e] == initial_shapes(len as int)[e] by {
                if e == 0 {
                    assert(sh[0] =~= seq![shape(bos_node())]);
                } else {
                    assert(sh[e] =~= Seq::<Shape>::empty());
                }
            }
            assert(sh =~= initial_shapes(len as int));
        }
        while start_word < len
            invariant
                self.ready(),
                *c == self.conn(),
                sent.compiled(&self.dict_view().char_prop_view()),
                len == sent.char_seq().len(),
                1 <= len <= MAX_SENTENCE_LENGTH,
                sent.idsets().len() == len,
                start_node <= start_word <= len,
                start_node < start_word ==> start_word == len && lattice.ends_view()[start_node as int].len()
                    > 0 && self.space_view() is Some,
                lattice.ends_view().len() == len + 1,
                lattice.len_view() == len,
                lattice.eos_view() is None,
                lattice_ok(lattice.ends_view(), self.conn(), start_node as int),
                words_ok(lattice.ends_view(), self.dict_view(), self.space_view()),
                d == self.dict_view(),
                space == self.space_view(),
                mgl == self.grouping_view(),
                clean == !sent.char_seq().contains(end_marker()),
                clean ==> run_lattice(d, space, mgl, *sent, shapes(lattice.ends_view()), start_node as int)
                    == self.lattice_spec(*sent),
                start_node < start_word ==> run_lattice(
                    d,
                    space,
                    mgl,
                    *sent,
                    shapes(lattice.ends_view()),
                    start_node as int,
                ) == (shapes(lattice.ends_view()), start_node as int),
            decreases len - start_word,
        {
            let ghost sh = shapes(lattice.ends_view());
            proof {
                assert(sh[start_node as int].len() == lattice.ends_view()[start_node as int].len());
            }
            if !lattice.has_previous_node(start_node) {
                start_word = start_word + 1;
                proof {
                    lemma_lattice_later(lattice.ends_view(), self.conn(), start_node as int, start_word as int);
                }
                start_node = start_word;
            } else {
                match self.space_cateset {
                    Some(space_cateset) => {
                        let is_space = (sent.char_info(start_node).cate_idset() & space_cateset) != 0;
                        if is_space {
                            proof {
                                lemma_run_len_bounds(sent.idsets(), start_node as int);
                            }
                            start_word = start_word + sent.groupable(start_node);
                        }
                    },
                    None => {},
                }
                assert(start_word == word_start(*sent, space, start_node as int));
                if start_word < len {
                    self.add_lattice_edges(sent, lattice, start_node, start_word, Ghost(start_node as int));
                    start_word = start_word + 1;
                    proof {
                        lemma_lattice_later(lattice.ends_view(), self.conn(), start_node as int, start_word as int);
                    }
                    start_node = start_word;
                }
            }
        }
        proof {
            let sh = shapes(lattice.ends_view());
            assert(sh[start_node as int].len() == lattice.ends_view()[start_node as int].len());
        }
        if lattice.has_previous_node(start_node) {
            lattice.insert_eos(start_node, c, Ghost(start_node as int));
        }
        proof {
            lemma_lattice_later(lattice.ends_view(), self.conn(), start_node as int, len as int);
        }
    }
}

} // verus!

//! Corpora of sentences split into words with their features.
use vstd::prelude::*;
use vstd::utf8::*;

use crate::errors::{Fault, VibratoError};
use crate::sentence::Sentence;
use crate::utils::{decode_utf8_chars, lines, spec_lines, spec_split, split_char, string_from_chars};

verus! {

/// A pair of a surface and its features.
pub struct Word {
    surface: String,
    feature: String,
}

impl Word {
    /// The surface.
    pub closed spec fn surface_view(&self) -> Seq<char> {
        self.surface@
    }

    /// The features, one string.
    pub closed spec fn feature_view(&self) -> Seq<char> {
        self.feature@
    }

    /// Creates a word.
    pub fn new(surface: &str, feature: &str) -> (r: Self)
        ensures
            r.surface_view() == surface@,
            r.feature_view() == feature@,
    {
        Self { surface: String::from_str(surface), feature: String::from_str(feature) }
    }

    /// Returns the surface.
    pub fn surface(&self) -> (r: &str)
        ensures
            r@ == self.surface_view(),
    {
        self.surface.as_str()
    }

    /// Returns the features.
    pub fn feature(&self) -> (r: &str)
        ensures
            r@ == self.feature_view(),
    {
        self.feature.as_str()
    }
}

/// A sentence with its words.
pub struct Example {
    /// The concatenation of the surfaces of `tokens`.
    pub sentence: Sentence,
    /// The words.
    pub tokens: Vec<Word>,
}

/// A corpus of sentences.
pub struct Corpus {
    /// The sentences.
    pub examples: Vec<Example>,
}

/// The words of a sentence, as pairs of surface and features.
pub type WordsView = Seq<(Seq<char>, Seq<char>)>;

/// The concatenation of the surfaces.
pub open spec fn concat_surfaces(ws: WordsView) -> Seq<char>
    decreases ws.len(),
{
    if ws.len() == 0 {
        seq![]
    } else {
        concat_surfaces(ws.drop_last()) + ws.last().0
    }
}

/// The sentences read so far (their words) and the words of the open sentence.
pub type CorpusState = (Seq<WordsView>, WordsView);

/// The state after one more line: `surface<tab>features` adds a word, `EOS`
/// closes the sentence, kept if its text is not empty.
pub open spec fn corpus_step(st: CorpusState, line: Seq<u8>) -> Result<CorpusState, Fault> {
    if !valid_utf8(line) {
        Err(Fault::Utf8)
    } else {
        let cols = spec_split(decode_utf8(line), '\t');
        if cols.len() == 2 {
            Ok((st.0, st.1.push((cols[0], cols[1]))))
        } else if cols.len() == 1 && cols[0] == seq!['E', 'O', 'S'] {
            if concat_surfaces(st.1).len() > 0 {
                Ok((st.0.push(st.1), seq![]))
            } else {
                Ok((st.0, seq![]))
            }
        } else {
            Err(Fault::Format)
        }
    }
}

/// The state after the lines `ls`; the first failing line gives the error.
pub open spec fn corpus_fold(ls: Seq<Seq<u8>>) -> Result<CorpusState, Fault>
    decreases ls.len(),
{
    if ls.len() == 0 {
        Ok((seq![], seq![]))
    } else {
        match corpus_fold(ls.drop_last()) {
            Err(f) => Err(f),
            Ok(st) => corpus_step(st, ls.last()),
        }
    }
}

/// The words of a sentence.
pub open spec fn words_view(ws: Seq<Word>) -> WordsView {
    ws.map_values(|w: Word| (w.surface_view(), w.feature_view()))
}

proof fn lemma_corpus_fold_err(ls: Seq<Seq<u8>>, k: int, f: Fault)
    requires
        0 <= k <= ls.len(),
        corpus_fold(ls.take(k)) == Err::<CorpusState, Fault>(f),
    ensures
        corpus_fold(ls) == Err::<CorpusState, Fault>(f),
    decreases ls.len() - k,
{
    if k < ls.len() {
        assert(ls.take(k + 1).drop_last() =~= ls.take(k));
        lemma_corpus_fold_err(ls, k + 1, f);
    } else {
        assert(ls.take(k) =~= ls);
    }
}

impl Corpus {
    /// Loads a corpus: lines `surface<tab>features`, each sentence ended by a
    /// line `EOS`; sentences with an empty text are left out. Words after the last
    /// `EOS` are dropped.
    pub fn from_reader(rdr: &[u8]) -> (r: Result<Self, VibratoError>)
        ensures
            match (r, corpus_fold(spec_lines(rdr@))) {
                (Ok(c), Ok(st)) => {
                    &&& c.examples@.len() == st.0.len()
                    &&& forall|i: int|
                        0 <= i < st.0.len() ==> words_view((#[trigger] c.examples@[i]).tokens@) == st.0[i]
                            && c.examples@[i].sentence.text() == concat_surfaces(st.0[i])
                            && c.examples@[i].sentence.is_fresh()
                },
                (Err(e), Err(f)) => e.fault() == f,
                _ => false,
            },
    {
        let ls = lines(rdr);
        let ghost lv = ls.deep_view();
        let n = ls.len();
        let mut examples: Vec<Example> = Vec::new();
        let mut tokens: Vec<Word> = Vec::new();
        let mut k: usize = 0;
        assert(lv.take(0) =~= Seq::<Seq<u8>>::empty());
        while k < n
            invariant
                k <= n == lv.len(),
                lv == spec_lines(rdr@),
                lv == ls.deep_view(),
                corpus_fold(lv.take(k as int)) matches Ok(st) && st.0.len() == examples@.len() && st.1
                    == words_view(tokens@) && forall|i: int|
                    0 <= i < st.0.len() ==> words_view((#[trigger] examples@[i]).tokens@) == st.0[i]
                        && examples@[i].sentence.text() == concat_surfaces(st.0[i])
                        && examples@[i].sentence.is_fresh(),
            decreases n - k,
        {
            let ghost st = corpus_fold(lv.take(k as int))->Ok_0;
            assert(lv.take(k + 1).drop_last() =~= lv.take(k as int));
            assert(ls[k as int]@ == lv[k as int]);
            let chars = match decode_utf8_chars(ls[k].as_slice()) {
                Ok(c) => c,
                Err(e) => {
                    proof {
                        lemma_corpus_fold_err(lv, k + 1, Fault::Utf8);
                    }
                    return Err(e);
                },
            };
            let cols = split_char(chars.as_slice(), '\t');
            assert(cols.deep_view() == spec_split(decode_utf8(lv[k as int]), '\t'));
            if cols.len() == 2 {
                assert(cols[0]@ == cols.deep_view()[0]);
                assert(cols[1]@ == cols.deep_view()[1]);
                let w = Word {
                    surface: string_from_chars(cols[0].as_slice()),
                    feature: string_from_chars(cols[1].as_slice()),
                };
                tokens.push(w);
                assert(words_view(tokens@) =~= st.1.push((cols.deep_view()[0], cols.deep_view()[1])));
            } else if cols.len() == 1 && is_eos(cols[0].as_slice()) {
                assert(cols[0]@ == cols.deep_view()[0]);
                let mut input: Vec<char> = Vec::new();
                let nt = tokens.len();
                let mut t: usize = 0;
                assert(words_view(tokens@).take(0) =~= Seq::<(Seq<char>, Seq<char>)>::empty());
                while t < nt
                    invariant
                        t <= nt == tokens@.len(),
                        input@ == concat_surfaces(words_view(tokens@).take(t as int)),
                    decreases nt - t,
                {
                    let s = crate::utils::chars_of(tokens[t].surface.as_str());
                    let ns = s.len();
                    let mut j: usize = 0;
                    let ghost base = input@;
                    while j < ns
                        invariant
                            j <= ns == s@.len(),
                            input@ == base + s@.take(j as int),
                        decreases ns - j,
                    {
                        input.push(s[j]);
                        j = j + 1;
                        assert(input@ =~= base + s@.take(j as int));
                    }
                    assert(s@.take(ns as int) =~= s@);
                    assert(words_view(tokens@).take(t + 1).drop_last() =~= words_view(tokens@).take(t as int));
                    t = t + 1;
                }
                assert(words_view(tokens@).take(nt as int) =~= words_view(tokens@));
                let mut taken: Vec<Word> = Vec::new();
                std::mem::swap(&mut taken, &mut tokens);
                if input.len() > 0 {
                    let text = string_from_chars(input.as_slice());
                    let mut sentence = Sentence::new();
                    sentence.set_sentence(text.as_str());
                    examples.push(Example { sentence, tokens: taken });
                }
                assert(words_view(tokens@) =~= Seq::<(Seq<char>, Seq<char>)>::empty());
            } else {
                let e = VibratoError::invalid_format(
                    "rdr",
                    "Each line must be a pair of a surface and features or `EOS`",
                );
                proof {
                    if cols.len() == 1 {
                        assert(cols[0]@ == cols.deep_view()[0]);
                    }
                    lemma_corpus_fold_err(lv, k + 1, Fault::Format);
                }
                return Err(e);
            }
            k = k + 1;
        }
        assert(lv.take(n as int) =~= lv);
        Ok(Self { examples })
    }
}

/// The characters spell `EOS`.
fn is_eos(c: &[char]) -> (r: bool)
    ensures
        r == (c@ == seq!['E', 'O', 'S']),
{
    if c.len() == 3 && c[0] == 'E' && c[1] == 'O' && c[2] == 'S' {
        assert(c@ =~= seq!['E', 'O', 'S']);
        true
    } else {
        false
    }
}

} // verus!

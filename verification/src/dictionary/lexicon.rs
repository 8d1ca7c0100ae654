//! Lexicon of words.
use vstd::prelude::*;

pub mod feature;
pub mod map;
pub mod param;

use crate::dictionary::connector::Connector;
use crate::dictionary::lexicon::feature::WordFeatures;
use crate::dictionary::lexicon::map::trie::end_marker;
use crate::dictionary::lexicon::map::{ids_below_n, ids_of_words, word_map_ok, word_matches, WordMap};
use crate::dictionary::lexicon::param::{mapped_param, params_within, WordParam, WordParams};
use crate::dictionary::mapper::ConnIdMapper;
use crate::dictionary::word_idx::WordIdx;
use crate::dictionary::LexType;
use crate::errors::{Fault, VibratoError};
use crate::utils::{
    csv_field_read, csv_read_field, decode_utf8_chars, field_call, spec_i16, spec_u16, CsvReader,
    parse_i16, parse_u16, str_from_utf8, string_from_chars, FieldStep,
};
use vstd::utf8::*;

verus! {

/// A word of a lexicon found in an input: its index, parameters and end
/// position in characters.
#[derive(Clone, Copy, Debug, PartialEq, Eq, Structural)]
pub struct LexMatch {
    /// The word.
    pub word_idx: WordIdx,
    /// Its parameters.
    pub word_param: WordParam,
    /// Its end position in characters.
    pub end_char: usize,
}

impl LexMatch {
    /// Creates a new instance.
    pub fn new(word_idx: WordIdx, word_param: WordParam, end_char: usize) -> (r: Self)
        ensures
            r.word_idx == word_idx,
            r.word_param == word_param,
            r.end_char == end_char,
    {
        Self { word_idx, word_param, end_char }
    }
}

/// An entry of a lexicon file as values: surface, parameters and feature.
pub type EntryView = (Seq<char>, WordParam, Seq<char>);

/// The state of the reading of a lexicon file after a record ends: the current
/// record's fields are forgotten.
pub open spec fn end_record(
    calls: Seq<(Seq<u8>, nat)>,
    bytes: Seq<u8>,
    pos: int,
    nin: int,
    rest_len: int,
    fstart: int,
    field_cnt: int,
    features_len: int,
    surface: Seq<char>,
    left: u16,
    right: u16,
    cost: i16,
    tail: int,
    acc: Seq<EntryView>,
) -> Result<Seq<EntryView>, Fault>
    decreases bytes.len() - pos, tail, 1int,
{
    if field_cnt == 0 && nin == 0 {
        lex_advance(calls, bytes, pos, nin, rest_len, fstart, field_cnt, features_len, surface, left, right, cost, tail, acc)
    } else if field_cnt <= 3 {
        Err(Fault::Format)
    } else if features_len == 0 || features_len - 1 > bytes.len() - fstart {
        Err(Fault::Format)
    } else {
        let fb = bytes.subrange(fstart, fstart + features_len - 1);
        if !valid_utf8(fb) {
            Err(Fault::Utf8)
        } else {
            let acc2 = if surface.len() > 0 {
                acc.push((surface, WordParam { left_id: left, right_id: right, word_cost: cost }, decode_utf8(fb)))
            } else {
                acc
            };
            lex_advance(calls, bytes, pos, nin, rest_len, fstart, 0, features_len, seq![], left, right, cost, tail, acc2)
        }
    }
}

/// The state of the reading of a lexicon file after a call read `nin` bytes of
/// the `rest_len` left: the reading goes on past them.
pub open spec fn lex_advance(
    calls: Seq<(Seq<u8>, nat)>,
    bytes: Seq<u8>,
    pos: int,
    nin: int,
    rest_len: int,
    fstart: int,
    field_cnt: int,
    features_len: int,
    surface: Seq<char>,
    left: u16,
    right: u16,
    cost: i16,
    tail: int,
    acc: Seq<EntryView>,
) -> Result<Seq<EntryView>, Fault>
    decreases bytes.len() - pos, tail, 0int,
{
    if rest_len == 0 {
        if tail <= 0 {
            Ok(acc)
        } else {
            lex_rows(calls, bytes, pos, fstart, field_cnt, features_len, surface, left, right, cost, tail - 1, acc)
        }
    } else if nin <= 0 || pos < 0 || pos + nin > bytes.len() {
        Ok(acc)
    } else {
        lex_rows(calls, bytes, pos + nin, fstart, field_cnt, features_len, surface, left, right, cost, tail, acc)
    }
}

/// The entries read from `bytes[pos..]` by [`Lexicon::parse_csv`], with the reader
/// having seen `calls`, the entries `acc` read so far and the current record's
/// fields so far: `field_cnt` of them, the surface, the ids and the cost, the
/// raw feature text starting at `fstart` and `features_len` bytes long.
pub open spec fn lex_rows(
    calls: Seq<(Seq<u8>, nat)>,
    bytes: Seq<u8>,
    pos: int,
    fstart: int,
    field_cnt: int,
    features_len: int,
    surface: Seq<char>,
    left: u16,
    right: u16,
    cost: i16,
    tail: int,
    acc: Seq<EntryView>,
) -> Result<Seq<EntryView>, Fault>
    decreases bytes.len() - pos, tail, 2int,
{
    let rest = bytes.subrange(pos, bytes.len() as int);
    let res = csv_field_read(calls, rest, 4096);
    let calls2 = calls.push(field_call(rest, 4096));
    let nin = res.1 as int;
    let field = res.2;
    match res.0 {
        FieldStep::OutputFull => Err(Fault::Format),
        FieldStep::End => Ok(acc),
        FieldStep::InputEmpty => {
            let fl = if field_cnt >= 4 { features_len + nin + 1 } else { features_len };
            end_record(calls2, bytes, pos, nin, rest.len() as int, fstart, field_cnt, fl, surface, left, right, cost, tail, acc)
        },
        FieldStep::Field(record_end) => {
            let text = decode_utf8(field);
            if field_cnt <= 3 && !valid_utf8(field) {
                Err(Fault::Utf8)
            } else if field_cnt == 1 && spec_u16(text) is None {
                Err(Fault::ParseInt)
            } else if field_cnt == 2 && spec_u16(text) is None {
                Err(Fault::ParseInt)
            } else if field_cnt == 3 && spec_i16(text) is None {
                Err(Fault::ParseInt)
            } else {
                let surface2 = if field_cnt == 0 { text } else { surface };
                let left2 = if field_cnt == 1 { spec_u16(text)->0 } else { left };
                let right2 = if field_cnt == 2 { spec_u16(text)->0 } else { right };
                let cost2 = if field_cnt == 3 { spec_i16(text)->0 } else { cost };
                let fstart2 = if field_cnt == 3 { pos + nin } else { fstart };
                let fl2 = if field_cnt == 3 {
                    0
                } else if field_cnt >= 4 {
                    features_len + nin
                } else {
                    features_len
                };
                if record_end {
                    end_record(calls2, bytes, pos, nin, rest.len() as int, fstart2, field_cnt, fl2, surface2, left2, right2, cost2, tail, acc)
                } else {
                    let fc2 = if field_cnt < usize::MAX { field_cnt + 1 } else { field_cnt };
                    lex_advance(calls2, bytes, pos, nin, rest.len() as int, fstart2, fc2, fl2, surface2, left2, right2, cost2, tail, acc)
                }
            }
        },
    }
}

/// What [`Lexicon::parse_csv`] reads from a lexicon file.
pub open spec fn lex_csv(bytes: Seq<u8>) -> Result<Seq<EntryView>, Fault> {
    lex_rows(Seq::empty(), bytes, 0, 0, 0, 0, seq![], 0, 0, 0, 3, Seq::empty())
}

/// `r` is what [`Lexicon::from_reader`] gives for the entries `es` of a file: an
/// invalid-format error when they are too many; else a lexicon of type `t` whose
/// `i`-th word is the `i`-th entry, when a word map of the surfaces can be built,
/// and an error otherwise.
pub open spec fn lexicon_read(es: Seq<EntryView>, t: LexType, r: Result<Lexicon, VibratoError>) -> bool {
    if es.len() >= 0xffff_fffe {
        r matches Err(e) && e is InvalidFormat
    } else {
        &&& (r is Ok <==> word_map_ok(es.map_values(|e: EntryView| e.0)))
        &&& r matches Ok(lex) ==> {
            &&& lex.records() == ids_of_words(es.map_values(|e: EntryView| e.0))
            &&& lex.params_view() == es.map_values(|e: EntryView| e.1)
            &&& lex.features_view() == es.map_values(|e: EntryView| e.2)
            &&& lex.lex_type_view() == t
        }
    }
}

/// The values of an entry.
pub open spec fn entry_view(e: RawWordEntry) -> EntryView {
    (e.surface@, e.param, e.feature@)
}

/// The values of a list of entries.
pub open spec fn entries_view(es: Seq<RawWordEntry>) -> Seq<EntryView> {
    es.map_values(|e: RawWordEntry| entry_view(e))
}

/// An entry of a lexicon file: surface, parameters and feature.
#[derive(Debug)]
pub struct RawWordEntry<'a> {
    /// The surface string.
    pub surface: String,
    /// The parameters.
    pub param: WordParam,
    /// The feature, as written in the file after the cost.
    pub feature: &'a str,
}

/// Lexicon of words.
pub struct Lexicon {
    map: WordMap,
    params: WordParams,
    features: WordFeatures,
    lex_type: LexType,
}

/// The matches that a lexicon of type `lt` with the given records and parameters
/// reports for `input`.
pub open spec fn lex_matches(
    records: Map<Seq<char>, Seq<u32>>,
    params: Seq<WordParam>,
    lt: LexType,
    input: Seq<char>,
) -> Seq<LexMatch> {
    word_matches(records, input).map_values(
        |m: (u32, u32)|
            LexMatch {
                word_idx: WordIdx { lex_type: lt, word_id: m.0 },
                word_param: params[m.0 as int],
                end_char: m.1 as usize,
            },
    )
}

impl Lexicon {
    /// The word ids of each surface.
    pub closed spec fn records(&self) -> Map<Seq<char>, Seq<u32>> {
        self.map.records()
    }

    /// The parameters of the words, by word id.
    pub closed spec fn params_view(&self) -> Seq<WordParam> {
        self.params@
    }

    /// The features of the words, by word id.
    pub closed spec fn features_view(&self) -> Seq<Seq<char>> {
        self.features.feature_seq()
    }

    /// The type of the lexicon.
    pub closed spec fn lex_type_view(&self) -> LexType {
        self.lex_type
    }

    /// The map, parameters and features agree.
    pub closed spec fn wf(&self) -> bool {
        &&& self.map.wf()
        &&& self.features.wf()
        &&& self.params@.len() == self.features.feature_seq().len()
        &&& ids_below_n(self.map.records(), self.params@.len() as int)
    }

    /// The words whose surfaces are prefixes of `input`, shorter surfaces first.
    pub fn common_prefix_iterator(&self, input: &[char]) -> (r: Vec<LexMatch>)
        requires
            self.wf(),
            input@.len() <= 0xffff,
        ensures
            !input@.contains(end_marker()) ==> r@ == lex_matches(
                self.records(),
                self.params_view(),
                self.lex_type_view(),
                input@,
            ),
            forall|i: int| 0 <= i < r@.len() ==> (#[trigger] r@[i]).word_idx.lex_type == self.lex_type_view(),
            forall|i: int|
                0 <= i < r@.len() && ((#[trigger] r@[i]).word_idx.word_id as int) < self.params_view().len()
                    ==> r@[i].word_param == self.params_view()[r@[i].word_idx.word_id as int],
    {
        let found = self.map.common_prefix_iterator(input);
        let ghost wm = word_matches(self.records(), input@);
        let mut r: Vec<LexMatch> = Vec::new();
        let n = found.len();
        let mut k: usize = 0;
        while k < n
            invariant
                k <= n == found@.len(),
                self.wf(),
                wm == word_matches(self.records(), input@),
                !input@.contains(end_marker()) ==> found@ == wm,
                r@.len() == k,
                forall|i: int|
                    0 <= i < k ==> (#[trigger] r@[i]).word_idx == (WordIdx {
                        lex_type: self.lex_type,
                        word_id: found@[i].0,
                    }) && r@[i].end_char == found@[i].1 as usize && ((found@[i].0 as int)
                        < self.params@.len() ==> r@[i].word_param == self.params@[found@[i].0 as int]),
            decreases n - k,
        {
            let (word_id, end) = found[k];
            let param = if (word_id as usize) < self.params.len() {
                self.params.get(word_id as usize)
            } else {
                WordParam::new(0, 0, 0)
            };
            r.push(LexMatch::new(WordIdx::new(self.lex_type, word_id), param, end as usize));
            k = k + 1;
        }
        proof {
            if !input@.contains(end_marker()) {
                lemma_word_matches_ids(self.records(), input@, self.params@.len() as int);
                assert(r@ =~= lex_matches(self.records(), self.params@, self.lex_type, input@));
            }
        }
        r
    }

    /// The word ids of the lexicon are below the number of words.
    pub proof fn lemma_ids_below(&self)
        requires
            self.wf(),
        ensures
            ids_below_n(self.records(), self.params_view().len() as int),
    {
    }

    /// The type of the lexicon.
    pub fn lex_type(&self) -> (r: LexType)
        ensures
            r == self.lex_type_view(),
    {
        self.lex_type
    }

    /// Number of words.
    pub fn num_words(&self) -> (r: usize)
        ensures
            r == self.params_view().len(),
    {
        self.params.len()
    }

    /// Renames the connection ids of every word by `mapper`.
    pub fn map_connection_ids(&mut self, mapper: &ConnIdMapper)
        requires
            old(self).wf(),
            params_within(
                old(self).params_view(),
                mapper.left_map().len() as int,
                mapper.right_map().len() as int,
            ),
        ensures
            final(self).wf(),
            final(self).records() == old(self).records(),
            final(self).features_view() == old(self).features_view(),
            final(self).lex_type_view() == old(self).lex_type_view(),
            final(self).params_view().len() == old(self).params_view().len(),
            forall|i: int|
                0 <= i < old(self).params_view().len() ==> #[trigger] final(self).params_view()[i]
                    == mapped_param(old(self).params_view()[i], mapper.left_map(), mapper.right_map()),
    {
        self.params.do_mapping(mapper);
    }

    /// The parameters of a word.
    pub fn word_param(&self, word_idx: WordIdx) -> (r: WordParam)
        requires
            (word_idx.word_id as int) < self.params_view().len(),
        ensures
            r == self.params_view()[word_idx.word_id as int],
    {
        self.params.get(word_idx.word_id as usize)
    }

    /// The feature of a word.
    pub fn word_feature(&self, word_idx: WordIdx) -> (r: &str)
        requires
            self.wf(),
            (word_idx.word_id as int) < self.params_view().len(),
        ensures
            r@ == self.features_view()[word_idx.word_id as int],
    {
        self.features.get(word_idx.word_id as usize)
    }

    /// Whether every connection id of every word is within the connector.
    pub fn verify<C: Connector>(&self, conn: &C) -> (r: bool)
        requires
            conn.conn_wf(),
        ensures
            r == params_within(self.params_view(), conn.left_len() as int, conn.right_len() as int),
    {
        let nl = conn.num_left();
        let nr = conn.num_right();
        let n = self.params.len();
        let mut i: usize = 0;
        while i < n
            invariant
                i <= n == self.params@.len(),
                nl == conn.left_len(),
                nr == conn.right_len(),
                forall|j: int|
                    0 <= j < i ==> (#[trigger] self.params@[j]).left_id < nl && self.params@[j].right_id
                        < nr,
            decreases n - i,
        {
            let p = self.params.get(i);
            if nl <= p.left_id as usize {
                return false;
            }
            if nr <= p.right_id as usize {
                return false;
            }
            i = i + 1;
        }
        true
    }

    /// Whether every connection id of every word is within the tables of `mapper`.
    pub fn verify_mapper(&self, mapper: &ConnIdMapper) -> (r: bool)
        ensures
            r == params_within(
                self.params_view(),
                mapper.left_map().len() as int,
                mapper.right_map().len() as int,
            ),
    {
        let nl = mapper.num_left();
        let nr = mapper.num_right();
        let n = self.params.len();
        let mut i: usize = 0;
        while i < n
            invariant
                i <= n == self.params@.len(),
                nl == mapper.left_map().len(),
                nr == mapper.right_map().len(),
                forall|j: int|
                    0 <= j < i ==> (#[trigger] self.params@[j]).left_id < nl && self.params@[j].right_id
                        < nr,
            decreases n - i,
        {
            let p = self.params.get(i);
            if nl <= p.left_id as usize || nr <= p.right_id as usize {
                return false;
            }
            i = i + 1;
        }
        true
    }

    /// Builds a lexicon from a list of entries, the `i`-th entry getting word id
    /// `i`.
    pub fn from_entries(entries: &Vec<RawWordEntry>, lex_type: LexType) -> (r: Result<
        Self,
        VibratoError,
    >)
        requires
            entries@.len() < 0xffff_fffe,
        ensures
            r matches Ok(lex) ==> {
                &&& lex.wf()
                &&& lex.records() == ids_of_words(entries@.map_values(|e: RawWordEntry| e.surface@))
                &&& lex.params_view() == entries@.map_values(|e: RawWordEntry| e.param)
                &&& lex.features_view() == entries@.map_values(|e: RawWordEntry| e.feature@)
                &&& lex.lex_type_view() == lex_type
            },
            entries@.len() == 0 ==> r is Err,
            r is Ok <==> word_map_ok(entries@.map_values(|e: RawWordEntry| e.surface@)),
    {
        let n = entries.len();
        let mut surfaces: Vec<String> = Vec::new();
        let mut params: Vec<WordParam> = Vec::new();
        let mut feats: Vec<(String, char)> = Vec::new();
        let mut i: usize = 0;
        while i < n
            invariant
                i <= n == entries@.len(),
                surfaces@.len() == i,
                params@.len() == i,
                feats@.len() == i,
                forall|j: int| 0 <= j < i ==> (#[trigger] surfaces@[j])@ == entries@[j].surface@,
                forall|j: int| 0 <= j < i ==> #[trigger] params@[j] == entries@[j].param,
                forall|j: int| 0 <= j < i ==> (#[trigger] feats@[j]).0@ == entries@[j].feature@,
            decreases n - i,
        {
            let e = &entries[i];
            let s = e.surface.clone();
            let first = first_char(s.as_str());
            surfaces.push(s);
            params.push(e.param);
            let f = string_from_chars(crate::utils::chars_of(e.feature).as_slice());
            feats.push((f, first));
            i = i + 1;
        }
        assert(surfaces@.map_values(|w: String| w@) =~= entries@.map_values(|e: RawWordEntry| e.surface@));
        let map = WordMap::new(&surfaces)?;
        let params = WordParams::new(params);
        let features = WordFeatures::new(feats);
        let lex = Self { map, params, features, lex_type };
        proof {
            let ws = surfaces@.map_values(|w: String| w@);
            assert(ws =~= entries@.map_values(|e: RawWordEntry| e.surface@));
            assert(lex.params@ =~= entries@.map_values(|e: RawWordEntry| e.param));
            assert(lex.features.feature_seq() =~= entries@.map_values(|e: RawWordEntry| e.feature@));
            crate::dictionary::lexicon::map::lemma_ids_of_words_below(ws);
        }
        Ok(lex)
    }

    /// Builds a lexicon from a file in the CSV format of `lex.csv`.
    pub fn from_reader(rdr: &[u8], lex_type: LexType) -> (r: Result<Self, VibratoError>)
        requires
            rdr@.len() < usize::MAX,
        ensures
            r matches Ok(lex) ==> lex.wf() && lex.lex_type_view() == lex_type,
            match lex_csv(rdr@) {
                Err(f) => r matches Err(e) && e.fault() == f,
                Ok(es) => lexicon_read(es, lex_type, r),
            },
    {
        let entries = Self::parse_csv(rdr, "lex.csv")?;
        if entries.len() >= 0xffff_fffe {
            return Err(VibratoError::invalid_format("lex.csv", "too many entries"));
        }
        let ghost es = entries_view(entries@);
        assert(es.map_values(|e: EntryView| e.0) =~= entries@.map_values(|e: RawWordEntry| e.surface@));
        assert(es.map_values(|e: EntryView| e.1) =~= entries@.map_values(|e: RawWordEntry| e.param));
        assert(es.map_values(|e: EntryView| e.2) =~= entries@.map_values(|e: RawWordEntry| e.feature@));
        Self::from_entries(&entries, lex_type)
    }

    /// Reads the rows of a lexicon file: surface, left id, right id, cost, then
    /// the feature, which is kept as written. Rows with an empty surface are
    /// skipped.
    ///
    /// A row of fewer than five fields gives an invalid-format error, an id or cost
    /// that is not an integer of its type a parse error.
    pub fn parse_csv<'a>(bytes: &'a [u8], name: &'static str) -> (r: Result<
        Vec<RawWordEntry<'a>>,
        VibratoError,
    >)
        requires
            bytes@.len() < usize::MAX,
        ensures
            r matches Ok(v) ==> forall|i: int| 0 <= i < v@.len() ==> (#[trigger] v@[i]).surface@.len() > 0,
            r matches Err(e) ==> e is InvalidFormat || e is ParseInt || e is Utf8,
            match lex_csv(bytes@) {
                Ok(es) => r matches Ok(v) && entries_view(v@) == es,
                Err(f) => r matches Err(e) && e.fault() == f,
            },
    {
        let ghost goal = lex_csv(bytes@);
        let mut entries: Vec<RawWordEntry<'a>> = Vec::new();
        let mut rdr = CsvReader::new();
        let total = bytes.len();
        let mut pos: usize = 0;
        let mut fstart: usize = 0;
        let mut field_cnt: usize = 0;
        let mut features_len: usize = 0;
        let mut output: Vec<u8> = vec![0u8; 4096];
        let mut surface: Vec<char> = Vec::new();
        let mut left_id: u16 = 0;
        let mut right_id: u16 = 0;
        let mut word_cost: i16 = 0;
        let mut tail: u8 = 3;
        assert(entries_view(entries@) =~= Seq::<EntryView>::empty());
        assert(surface@ =~= Seq::<char>::empty());
        loop
            invariant_except_break
                goal == lex_rows(
                    rdr.calls(),
                    bytes@,
                    pos as int,
                    fstart as int,
                    field_cnt as int,
                    features_len as int,
                    surface@,
                    left_id,
                    right_id,
                    word_cost,
                    tail as int,
                    entries_view(entries@),
                ),
            invariant
                goal == lex_csv(bytes@),
                pos <= total == bytes@.len(),
                total < usize::MAX,
                fstart <= pos,
                field_cnt >= 4 ==> features_len == pos - fstart,
                features_len <= total + 1,
                output@.len() == 4096,
                tail <= 3,
                forall|i: int| 0 <= i < entries@.len() ==> (#[trigger] entries@[i]).surface@.len() > 0,
            ensures
                forall|i: int| 0 <= i < entries@.len() ==> (#[trigger] entries@[i]).surface@.len() > 0,
                goal == Ok::<Seq<EntryView>, Fault>(entries_view(entries@)),
            decreases total - pos, tail,
        {
            let rest = &bytes[pos..total];
            assert(rest@ == bytes@.subrange(pos as int, total as int));
            let ghost acc0 = entries_view(entries@);
            let ghost fc0 = field_cnt as int;
            let (step, nin, nout) = csv_read_field(&mut rdr, rest, &mut output);
            let ghost calls2 = rdr.calls();
            let ghost fbytes = output@.take(nout as int);
            let record_end = match step {
                FieldStep::InputEmpty => {
                    if field_cnt >= 4 {
                        features_len = features_len + nin + 1;
                    }
                    true
                },
                FieldStep::OutputFull => {
                    return Err(VibratoError::invalid_format(name, "Field too large"));
                },
                FieldStep::Field(record_end) => {
                    let field = &output.as_slice()[0..nout];
                    assert(field@ == fbytes);
                    if field_cnt == 0 {
                        surface = decode_utf8_chars(field)?;
                    } else if field_cnt == 1 {
                        let t = decode_utf8_chars(field)?;
                        left_id = parse_u16(t.as_slice())?;
                    } else if field_cnt == 2 {
                        let t = decode_utf8_chars(field)?;
                        right_id = parse_u16(t.as_slice())?;
                    } else if field_cnt == 3 {
                        let t = decode_utf8_chars(field)?;
                        word_cost = parse_i16(t.as_slice())?;
                        fstart = pos + nin;
                        features_len = 0;
                    } else {
                        features_len = features_len + nin;
                    }
                    record_end
                },
                FieldStep::End => {
                    break;
                },
            };
            if record_end {
                assert(goal == end_record(
                    calls2,
                    bytes@,
                    pos as int,
                    nin as int,
                    rest@.len() as int,
                    fstart as int,
                    field_cnt as int,
                    features_len as int,
                    surface@,
                    left_id,
                    right_id,
                    word_cost,
                    tail as int,
                    acc0,
                ));
                if field_cnt == 0 && nin == 0 {
                    // An empty record: nothing to read.
                } else {
                    if field_cnt <= 3 {
                        return Err(
                            VibratoError::invalid_format(
                                name,
                                "A csv row of lexicon must have five items at least",
                            ),
                        );
                    }
                    if features_len == 0 || features_len - 1 > total - fstart {
                        return Err(VibratoError::invalid_format(name, "A feature is malformed"));
                    }
                    let fb = &bytes[fstart..fstart + features_len - 1];
                    assert(fb@ == bytes@.subrange(fstart as int, fstart + features_len - 1));
                    let feature = match str_from_utf8(fb) {
                        Some(s) => s,
                        None => {
                            return Err(VibratoError::Utf8);
                        },
                    };
                    proof {
                        encode_utf8_decode_utf8(feature@);
                    }
                    if surface.len() > 0 {
                        let s = string_from_chars(surface.as_slice());
                        let ghost before = entries@;
                        let e = RawWordEntry {
                            surface: s,
                            param: WordParam::new(left_id, right_id, word_cost),
                            feature,
                        };
                        entries.push(e);
                        assert(entries_view(entries@) =~= entries_view(before).push(entry_view(e)));
                    }
                    surface = Vec::new();
                    assert(surface@ =~= Seq::<char>::empty());
                    field_cnt = 0;
                }
            } else {
                if field_cnt < usize::MAX {
                    field_cnt = field_cnt + 1;
                }
            }
            assert(goal == lex_advance(
                calls2,
                bytes@,
                pos as int,
                nin as int,
                rest@.len() as int,
                fstart as int,
                field_cnt as int,
                features_len as int,
                surface@,
                left_id,
                right_id,
                word_cost,
                tail as int,
                entries_view(entries@),
            ));
            if rest.len() == 0 {
                if tail == 0 {
                    break;
                }
                tail = tail - 1;
            } else {
                pos = pos + nin;
            }
        }
        Ok(entries)
    }
}

/// The first character of `s`, or `'\0'` for an empty string.
fn first_char(s: &str) -> (r: char)
    ensures
        s@.len() > 0 ==> r == s@[0],
{
    let c = crate::utils::chars_of(s);
    if c.len() > 0 {
        c[0]
    } else {
        '\0'
    }
}

proof fn lemma_word_matches_ends(m: Map<Seq<char>, Seq<u32>>, s: Seq<char>)
    requires
        s.len() <= u32::MAX,
    ensures
        forall|i: int|
            0 <= i < word_matches(m, s).len() ==> 1 <= (#[trigger] word_matches(m, s)[i]).1 <= s.len(),
    decreases s.len(),
{
    if s.len() > 0 {
        lemma_word_matches_ends(m, s.drop_last());
        let a = word_matches(m, s.drop_last());
        assert forall|i: int| 0 <= i < word_matches(m, s).len() implies 1 <= (#[trigger] word_matches(m, s)[i]).1
            <= s.len() by {
            if i < a.len() {
                assert(word_matches(m, s)[i] == a[i]);
            } else {
                assert(word_matches(m, s)[i].1 == s.len() as u32);
            }
        }
    }
}

/// Every match of a lexicon ends within the input after its start, is a word of
/// the lexicon, and has that word's parameters.
pub proof fn lemma_lex_matches_fit(
    records: Map<Seq<char>, Seq<u32>>,
    params: Seq<WordParam>,
    lt: LexType,
    input: Seq<char>,
)
    requires
        ids_below_n(records, params.len() as int),
        input.len() <= u32::MAX,
    ensures
        forall|i: int|
            0 <= i < lex_matches(records, params, lt, input).len() ==> {
                let m = #[trigger] lex_matches(records, params, lt, input)[i];
                &&& 1 <= m.end_char <= input.len()
                &&& m.word_idx.lex_type == lt
                &&& (m.word_idx.word_id as int) < params.len()
                &&& m.word_param == params[m.word_idx.word_id as int]
            },
{
    lemma_word_matches_ends(records, input);
    lemma_word_matches_ids(records, input, params.len() as int);
}

proof fn lemma_word_matches_ids(m: Map<Seq<char>, Seq<u32>>, s: Seq<char>, n: int)
    requires
        ids_below_n(m, n),
    ensures
        forall|i: int| 0 <= i < word_matches(m, s).len() ==> (#[trigger] word_matches(m, s)[i]).0 < n,
    decreases s.len(),
{
    if s.len() > 0 {
        lemma_word_matches_ids(m, s.drop_last(), n);
        let a = word_matches(m, s.drop_last());
        assert forall|i: int| 0 <= i < word_matches(m, s).len() implies (#[trigger] word_matches(m, s)[i]).0 < n by {
            if i < a.len() {
                assert(word_matches(m, s)[i] == a[i]);
            } else {
                let j = i - a.len();
                assert(word_matches(m, s)[i].0 == m[s][j]);
            }
        }
    }
}

} // verus!

//! Handler of unknown words, read from `unk.def`.
use vstd::prelude::*;

use crate::common::MAX_SENTENCE_LENGTH;
use crate::dictionary::character::{CharInfo, CharProperty};
use crate::dictionary::connector::Connector;
use crate::dictionary::lexicon::param::WordParam;
use crate::dictionary::lexicon::{entries_view, entry_view, lex_csv, EntryView, Lexicon, RawWordEntry};
use crate::dictionary::mapper::ConnIdMapper;
use crate::dictionary::word_idx::WordIdx;
use crate::dictionary::LexType;
use crate::errors::{Fault, VibratoError};
use crate::sentence::{lemma_run_len_bounds, Sentence};
use crate::utils::{chars_of, index_of, parse_csv_row, parsed_row, string_from_chars};

verus! {

/// An entry of `unk.def`: the category, the parameters and the feature.
#[derive(Debug, Clone, PartialEq, Eq)]
pub struct UnkEntry {
    /// Category id.
    pub cate_id: u16,
    /// Left connection id.
    pub left_id: u16,
    /// Right connection id.
    pub right_id: u16,
    /// Cost of the word.
    pub word_cost: i16,
    /// Feature string.
    pub feature: String,
}

/// An unknown word generated for a span of a sentence.
#[derive(Debug, Clone, Copy, PartialEq, Eq, Structural)]
pub struct UnkWord {
    /// Start position in characters.
    pub start_char: usize,
    /// End position in characters.
    pub end_char: usize,
    /// Left connection id.
    pub left_id: u16,
    /// Right connection id.
    pub right_id: u16,
    /// Cost of the word.
    pub word_cost: i16,
    /// Index of the entry.
    pub word_id: u16,
}

impl UnkWord {
    /// The word made from entry `word_id` for the span `start..end`.
    pub open spec fn from_entry(e: UnkEntry, start: usize, end: usize, word_id: u16) -> UnkWord {
        UnkWord {
            start_char: start,
            end_char: end,
            left_id: e.left_id,
            right_id: e.right_id,
            word_cost: e.word_cost,
            word_id,
        }
    }

    /// Start position in characters.
    pub fn start_char(&self) -> (r: usize)
        ensures
            r == self.start_char,
    {
        self.start_char
    }

    /// End position in characters.
    pub fn end_char(&self) -> (r: usize)
        ensures
            r == self.end_char,
    {
        self.end_char
    }

    /// The parameters of the word.
    pub fn word_param(&self) -> (r: WordParam)
        ensures
            r.left_id == self.left_id,
            r.right_id == self.right_id,
            r.word_cost == self.word_cost,
    {
        WordParam::new(self.left_id, self.right_id, self.word_cost)
    }

    /// The index of the word among the unknown words.
    pub fn word_idx(&self) -> (r: WordIdx)
        ensures
            r.lex_type == LexType::Unknown,
            r.word_id == self.word_id as u32,
    {
        WordIdx::new(LexType::Unknown, self.word_id as u32)
    }
}

/// Handler of unknown words: the entries of `unk.def` grouped by category.
pub struct UnkHandler {
    offsets: Vec<usize>,
    entries: Vec<UnkEntry>,
}

/// The words made from the entries `offsets[base]..offsets[base + 1]` for the
/// span `start..end`.
pub open spec fn scan(offsets: Seq<usize>, entries: Seq<UnkEntry>, base: int, start: usize, end: usize) -> Seq<UnkWord> {
    Seq::new(
        (offsets[base + 1] - offsets[base]) as nat,
        |k: int|
            UnkWord::from_entry(
                entries[offsets[base] + k],
                start,
                end,
                (offsets[base] + k) as u16,
            ),
    )
}

/// The words of the spans `start..start + i` for `i` in `1..=lim`, leaving out
/// the grouped span of length `g` when `grouped`.
pub open spec fn scan_lengths(
    offsets: Seq<usize>,
    entries: Seq<UnkEntry>,
    base: int,
    start: usize,
    lim: int,
    g: int,
    grouped: bool,
) -> Seq<UnkWord>
    decreases lim,
{
    if lim <= 0 {
        seq![]
    } else {
        scan_lengths(offsets, entries, base, start, lim - 1, g, grouped) + if grouped && lim == g {
            seq![]
        } else {
            scan(offsets, entries, base, start, (start + lim) as usize)
        }
    }
}

/// The unknown words generated at `start`: see [`UnkHandler::gen_unk_words`].
pub open spec fn unk_words(
    offsets: Seq<usize>,
    entries: Seq<UnkEntry>,
    ci: CharInfo,
    g: int,
    start: usize,
    has_matched: bool,
    max_grouping_len: Option<usize>,
) -> Seq<UnkWord> {
    let base = ci.spec_base_id() as int;
    if has_matched && !ci.spec_invoke() {
        seq![]
    } else {
        let mgl = match max_grouping_len {
            Some(l) => l as int,
            None => MAX_SENTENCE_LENGTH as int,
        };
        let grouped = ci.spec_group();
        let by_group = grouped && g - 1 <= mgl;
        let a = if by_group {
            scan(offsets, entries, base, start, (start + g) as usize)
        } else {
            seq![]
        };
        let lim = if (ci.spec_length() as int) < g {
            ci.spec_length() as int
        } else {
            g
        };
        let b = scan_lengths(offsets, entries, base, start, lim, g, grouped);
        let some_length = lim >= 2 || (lim == 1 && !(grouped && g == 1));
        let c = if has_matched || by_group || some_length {
            seq![]
        } else {
            scan(offsets, entries, base, start, (start + 1) as usize)
        };
        a + b + c
    }
}

impl UnkHandler {
    /// The start of each category's entries, and the number of entries last.
    pub closed spec fn offsets_view(&self) -> Seq<usize> {
        self.offsets@
    }

    /// The entries, grouped by category.
    pub closed spec fn entries_view(&self) -> Seq<UnkEntry> {
        self.entries@
    }

    /// There are at most 0x10000 entries (word ids are `u16`), the offsets rise
    /// from 0 to the number of entries, and the entries between two offsets have
    /// the category of the first.
    pub open spec fn wf(&self) -> bool {
        &&& self.entries_view().len() <= 0x10000
        &&& self.offsets_view().len() >= 1
        &&& self.offsets_view()[0] == 0
        &&& self.offsets_view().last() == self.entries_view().len()
        &&& forall|c: int, d: int|
            0 <= c <= d < self.offsets_view().len() ==> #[trigger] self.offsets_view()[c] <= #[trigger] self.offsets_view()[d]
        &&& forall|c: int, k: int|
            0 <= c < self.offsets_view().len() - 1 && #[trigger] self.offsets_view()[c] <= k
                < self.offsets_view()[c + 1] ==> #[trigger] self.entries_view()[k].cate_id == c
    }

    /// The start of each category's entries, and the number of entries last.
    pub fn offsets(&self) -> (r: &[usize])
        ensures
            r@ == self.offsets_view(),
    {
        self.offsets.as_slice()
    }

    /// The entries, grouped by category.
    pub fn entries(&self) -> (r: &[UnkEntry])
        ensures
            r@ == self.entries_view(),
    {
        self.entries.as_slice()
    }

    /// Generates the unknown words starting at `start_char`, following MeCab.
    ///
    /// Nothing is generated when a lexicon word matched there and the character's
    /// category does not invoke unknown words. Otherwise: when the category groups,
    /// the run of groupable characters gives one span if at most
    /// `max_grouping_len` (default [`MAX_SENTENCE_LENGTH`]) characters follow the
    /// first; then each length from 1 up to the category's length (and the run)
    /// gives a span, but the grouped one; and when no span was generated and
    /// nothing matched, the one-character span. Each span gives one word per entry
    /// of the character's base category.
    pub fn gen_unk_words(
        &self,
        sent: &Sentence,
        start_char: usize,
        has_matched: bool,
        max_grouping_len: Option<usize>,
    ) -> (r: Vec<UnkWord>)
        requires
            self.wf(),
            sent.grouped(),
            start_char < sent.char_seq().len(),
            (sent.infos()[start_char as int].spec_base_id() as int) + 1 < self.offsets_view().len(),
        ensures
            r@ == unk_words(
                self.offsets_view(),
                self.entries_view(),
                sent.infos()[start_char as int],
                sent.runs()[start_char as int] as int,
                start_char,
                has_matched,
                max_grouping_len,
            ),
    {
        let cinfo = sent.char_info(start_char);
        let mut out: Vec<UnkWord> = Vec::new();
        if has_matched && !cinfo.invoke() {
            return out;
        }
        let ghost base = cinfo.spec_base_id() as int;
        let groupable = sent.groupable(start_char);
        let nchars = sent.len_char();
        proof {
            sent.lemma_idsets();
            lemma_run_len_bounds(sent.idsets(), start_char as int);
        }
        let mgl = match max_grouping_len {
            Some(l) => l,
            None => MAX_SENTENCE_LENGTH as usize,
        };
        let grouped = cinfo.group();
        let by_group = grouped && groupable - 1 <= mgl;
        if by_group {
            self.scan_entries(start_char, start_char + groupable, cinfo, &mut out);
        }
        let len = cinfo.length() as usize;
        let lim = if len < groupable {
            len
        } else {
            groupable
        };
        let ghost before_b = out@;
        let mut scanned = false;
        let mut i: usize = 0;
        while i < lim
            invariant
                0 <= i <= lim,
                lim <= groupable,
                start_char + groupable <= nchars,
                self.wf(),
                base + 1 < self.offsets@.len(),
                base == cinfo.spec_base_id(),
                out@ == before_b + scan_lengths(
                    self.offsets@,
                    self.entries@,
                    base,
                    start_char,
                    i as int,
                    groupable as int,
                    grouped,
                ),
                scanned == (i >= 2 || (i == 1 && !(grouped && groupable == 1))),
            decreases lim - i,
        {
            let l = i + 1;
            if !(grouped && l == groupable) {
                let end_char = start_char + l;
                if nchars >= end_char {
                    self.scan_entries(start_char, end_char, cinfo, &mut out);
                    scanned = true;
                }
            }
            i = i + 1;
        }
        if !(has_matched || by_group || scanned) {
            self.scan_entries(start_char, start_char + 1, cinfo, &mut out);
        }
        out
    }

    /// Appends the words of entries of the character's base category for the span
    /// `start_char..end_char`.
    fn scan_entries(&self, start_char: usize, end_char: usize, cinfo: CharInfo, out: &mut Vec<UnkWord>)
        requires
            self.wf(),
            (cinfo.spec_base_id() as int) + 1 < self.offsets_view().len(),
        ensures
            final(out)@ == old(out)@ + scan(
                self.offsets_view(),
                self.entries_view(),
                cinfo.spec_base_id() as int,
                start_char,
                end_char,
            ),
    {
        let b = cinfo.base_id() as usize;
        let start = self.offsets[b];
        let end = self.offsets[b + 1];
        let ghost before = out@;
        let mut word_id = start;
        while word_id < end
            invariant
                start <= word_id <= end,
                start == self.offsets@[b as int],
                end == self.offsets@[b + 1],
                end <= self.entries@.len(),
                out@ == before + scan(self.offsets@, self.entries@, b as int, start_char, end_char).take(
                    (word_id - start) as int,
                ),
            decreases end - word_id,
        {
            let e = &self.entries[word_id];
            out.push(
                UnkWord {
                    start_char,
                    end_char,
                    left_id: e.left_id,
                    right_id: e.right_id,
                    word_cost: e.word_cost,
                    word_id: word_id as u16,
                },
            );
            word_id = word_id + 1;
            assert(out@ =~= before + scan(self.offsets@, self.entries@, b as int, start_char, end_char).take(
                (word_id - start) as int,
            ));
        }
        assert(scan(self.offsets@, self.entries@, b as int, start_char, end_char).take((end - start) as int)
            =~= scan(self.offsets@, self.entries@, b as int, start_char, end_char));
    }
}


impl UnkHandler {
    /// The parameters of unknown word `word_idx`.
    pub fn word_param(&self, word_idx: WordIdx) -> (r: WordParam)
        requires
            (word_idx.word_id as int) < self.entries_view().len(),
        ensures
            r.left_id == self.entries_view()[word_idx.word_id as int].left_id,
            r.right_id == self.entries_view()[word_idx.word_id as int].right_id,
            r.word_cost == self.entries_view()[word_idx.word_id as int].word_cost,
    {
        let e = &self.entries[word_idx.word_id as usize];
        WordParam::new(e.left_id, e.right_id, e.word_cost)
    }

    /// The feature of unknown word `word_idx`.
    pub fn word_feature(&self, word_idx: WordIdx) -> (r: &str)
        requires
            (word_idx.word_id as int) < self.entries_view().len(),
        ensures
            r@ == self.entries_view()[word_idx.word_id as int].feature@,
    {
        self.entries[word_idx.word_id as usize].feature.as_str()
    }

    /// The category of unknown word `word_idx`.
    pub fn word_cate_id(&self, word_idx: WordIdx) -> (r: u16)
        requires
            (word_idx.word_id as int) < self.entries_view().len(),
        ensures
            r == self.entries_view()[word_idx.word_id as int].cate_id,
    {
        self.entries[word_idx.word_id as usize].cate_id
    }

    /// Number of entries.
    pub fn len(&self) -> (r: usize)
        ensures
            r == self.entries_view().len(),
    {
        self.entries.len()
    }

    /// Renames the connection ids of every entry by `mapper`.
    pub fn map_connection_ids(&mut self, mapper: &ConnIdMapper)
        requires
            forall|i: int|
                0 <= i < old(self).entries_view().len() ==> (#[trigger] old(self).entries_view()[i]).left_id
                    < mapper.left_map().len() && old(self).entries_view()[i].right_id < mapper.right_map().len(),
        ensures
            final(self).offsets_view() == old(self).offsets_view(),
            final(self).entries_view().len() == old(self).entries_view().len(),
            forall|i: int|
                0 <= i < old(self).entries_view().len() ==> {
                    let e = old(self).entries_view()[i];
                    let f = #[trigger] final(self).entries_view()[i];
                    &&& f.left_id == mapper.left_map()[e.left_id as int]
                    &&& f.right_id == mapper.right_map()[e.right_id as int]
                    &&& f.cate_id == e.cate_id
                    &&& f.word_cost == e.word_cost
                    &&& f.feature@ == e.feature@
                },
    {
        let ghost old_entries = self.entries@;
        let ghost old_offsets = self.offsets@;
        let n = self.entries.len();
        let mut i: usize = 0;
        assert forall|j: int| 0 <= j < n implies (#[trigger] old_entries[j]).left_id < mapper.left_map().len()
            && old_entries[j].right_id < mapper.right_map().len() by {
            assert(old_entries[j] == old(self).entries_view()[j]);
        }
        while i < n
            invariant
                i <= n == self.entries@.len() == old_entries.len(),
                self.offsets@ == old_offsets,
                forall|j: int|
                    0 <= j < n ==> (#[trigger] old_entries[j]).left_id < mapper.left_map().len()
                        && old_entries[j].right_id < mapper.right_map().len(),
                forall|j: int|
                    0 <= j < i ==> {
                        let e = old_entries[j];
                        let f = #[trigger] self.entries@[j];
                        &&& f.left_id == mapper.left_map()[e.left_id as int]
                        &&& f.right_id == mapper.right_map()[e.right_id as int]
                        &&& f.cate_id == e.cate_id
                        &&& f.word_cost == e.word_cost
                        &&& f.feature@ == e.feature@
                    },
                forall|j: int| i <= j < n ==> #[trigger] self.entries@[j] == old_entries[j],
            decreases n - i,
        {
            let e = &self.entries[i];
            assert(*e == old_entries[i as int]);
            let feature = e.feature.clone();
            let ne = UnkEntry {
                cate_id: e.cate_id,
                left_id: mapper.left(e.left_id),
                right_id: mapper.right(e.right_id),
                word_cost: e.word_cost,
                feature,
            };
            self.entries.set(i, ne);
            i = i + 1;
        }
    }

    /// Whether the connection ids of every entry are within the connector.
    pub fn verify<C: Connector>(&self, conn: &C) -> (r: bool)
        requires
            conn.conn_wf(),
        ensures
            r == forall|i: int|
                0 <= i < self.entries_view().len() ==> (#[trigger] self.entries_view()[i]).left_id
                    < conn.left_len() && self.entries_view()[i].right_id < conn.right_len(),
    {
        let nl = conn.num_left();
        let nr = conn.num_right();
        let n = self.entries.len();
        let mut i: usize = 0;
        while i < n
            invariant
                i <= n == self.entries@.len(),
                nl == conn.left_len(),
                nr == conn.right_len(),
                forall|j: int|
                    0 <= j < i ==> (#[trigger] self.entries@[j]).left_id < nl && self.entries@[j].right_id < nr,
            decreases n - i,
        {
            let e = &self.entries[i];
            if nl <= e.left_id as usize {
                assert(!(self.entries_view()[i as int].left_id < conn.left_len()));
                return false;
            }
            if nr <= e.right_id as usize {
                assert(!(self.entries_view()[i as int].right_id < conn.right_len()));
                return false;
            }
            i = i + 1;
        }
        true
    }

    /// Creates a handler from the text of `unk.def`, a lexicon file whose surfaces
    /// name categories of `char_prop`. The entries are grouped by category, in the
    /// order of the file within a category.
    ///
    /// A surface that names no category gives an invalid-format error.
    #[verifier::rlimit(100)]
    pub fn from_reader(rdr: &[u8], char_prop: &CharProperty) -> (r: Result<Self, VibratoError>)
        requires
            char_prop.wf(),
            rdr@.len() < usize::MAX,
        ensures
            r matches Ok(h) ==> h.wf() && h.offsets_view().len() == char_prop.names().len() + 1,
            r matches Err(e) ==> e is InvalidFormat || e is ParseInt || e is Utf8,
            unk_def_read(char_prop.names(), rdr@, r),
    {
        let parsed = Lexicon::parse_csv(rdr, "unk.def")?;
        let ghost es = entries_view(parsed@);
        assert(lex_csv(rdr@) == Ok::<Seq<EntryView>, Fault>(es));
        let ghost names = char_prop.names();
        let ncate = char_prop.num_categories();
        let mut map: Vec<Vec<UnkEntry>> = Vec::new();
        let mut c: usize = 0;
        while c < ncate
            invariant
                c <= ncate,
                map@.len() == c,
                forall|j: int| 0 <= j < c ==> (#[trigger] map@[j])@.len() == 0,
            decreases ncate - c,
        {
            map.push(Vec::new());
            c = c + 1;
        }
        let np = parsed.len();
        let mut k: usize = 0;
        assert(es.take(0) =~= Seq::<EntryView>::empty());
        while k < np
            invariant
                k <= np == parsed@.len() == es.len(),
                es == entries_view(parsed@),
                lex_csv(rdr@) == Ok::<Seq<EntryView>, Fault>(es),
                names == char_prop.names(),
                char_prop.wf(),
                ncate == char_prop.names().len(),
                ncate <= 18,
                map@.len() == ncate,
                forall|j: int, t: int|
                    0 <= j < ncate && 0 <= t < map@[j]@.len() ==> (#[trigger] map@[j]@[t]).cate_id == j,
                forall|i: int| 0 <= i < k ==> #[trigger] index_of(names, es[i].0) < ncate,
                forall|j: int| 0 <= j < ncate ==> (#[trigger] map@[j])@.len() == cate_group(names, es.take(k as int), j).len(),
                forall|j: int, t: int|
                    0 <= j < ncate && 0 <= t < map@[j]@.len() ==> unk_from(
                        #[trigger] map@[j]@[t],
                        j,
                        cate_group(names, es.take(k as int), j)[t],
                    ),
            decreases np - k,
        {
            let item = &parsed[k];
            assert(es[k as int] == entry_view(*item));
            let cate = match char_prop.cate_id(item.surface.as_str()) {
                Some(id) => id,
                None => {
                    assert(index_of(names, es[k as int].0) >= ncate);
                    assert(!all_named(names, es));
                    let res = Err(VibratoError::invalid_format("unk.def", "Undefined category"));
                    assert(unk_def_read(names, rdr@, res));
                    return res;
                },
            };
            let e = UnkEntry {
                cate_id: cate as u16,
                left_id: item.param.left_id,
                right_id: item.param.right_id,
                word_cost: item.param.word_cost,
                feature: string_from_chars(chars_of(item.feature).as_slice()),
            };
            let cu = cate as usize;
            let mut row: Vec<UnkEntry> = Vec::new();
            std::mem::swap(&mut row, &mut map[cu]);
            let ghost old_row = row@;
            row.push(e);
            let ghost before = map@;
            map.set(cu, row);
            proof {
                let t0 = es.take(k as int);
                let t1 = es.take(k + 1);
                assert(t1.drop_last() =~= t0);
                assert(t1.last() == es[k as int]);
                assert forall|j: int, t: int|
                    0 <= j < ncate && 0 <= t < map@[j]@.len() implies (#[trigger] map@[j]@[t]).cate_id == j by {
                    if j != cu {
                        assert(map@[j] == before[j]);
                    }
                }
                assert forall|j: int| 0 <= j < ncate implies (#[trigger] map@[j])@.len() == cate_group(names, t1, j).len() by {
                    if j != cu {
                        assert(map@[j] == before[j]);
                    }
                }
                assert forall|j: int, t: int|
                    0 <= j < ncate && 0 <= t < map@[j]@.len() implies unk_from(
                        #[trigger] map@[j]@[t],
                        j,
                        cate_group(names, t1, j)[t],
                    ) by {
                    if j != cu {
                        assert(map@[j] == before[j]);
                    } else if t < old_row.len() {
                        assert(map@[j]@[t] == old_row[t]);
                    }
                }
            }
            k = k + 1;
        }
        assert(es.take(np as int) =~= es);
        let mut offsets: Vec<usize> = Vec::new();
        let mut entries: Vec<UnkEntry> = Vec::new();
        let mut c: usize = 0;
        while c < ncate
            invariant
                c <= ncate == map@.len(),
                names == char_prop.names(),
                ncate == names.len(),
                offsets@.len() == c,
                c > 0 ==> offsets@[0] == 0,
                c == 0 ==> entries@.len() == 0,
                forall|a: int, b: int| 0 <= a <= b < c ==> #[trigger] offsets@[a] <= #[trigger] offsets@[b],
                forall|a: int| 0 <= a < c ==> #[trigger] offsets@[a] <= entries@.len(),
                forall|a: int, t: int|
                    0 <= a < c && #[trigger] offsets@[a] <= t < (if a + 1 < c {
                        offsets@[a + 1] as int
                    } else {
                        entries@.len() as int
                    }) ==> #[trigger] entries@[t].cate_id == a,
                forall|j: int, t: int|
                    0 <= j < ncate && 0 <= t < map@[j]@.len() ==> (#[trigger] map@[j]@[t]).cate_id == j,
                forall|j: int| c <= j < ncate ==> (#[trigger] map@[j])@.len() == cate_group(names, es, j).len(),
                forall|j: int, t: int|
                    c <= j < ncate && 0 <= t < map@[j]@.len() ==> unk_from(
                        #[trigger] map@[j]@[t],
                        j,
                        cate_group(names, es, j)[t],
                    ),
                forall|a: int| 0 <= a < c ==> #[trigger] offsets@[a] == group_start(names, es, a),
                entries@.len() == group_start(names, es, c as int),
                forall|a: int, t: int|
                    0 <= a < c && 0 <= t < cate_group(names, es, a).len() ==> unk_from(
                        #[trigger] entries@[offsets@[a] + t],
                        a,
                        cate_group(names, es, a)[t],
                    ),
            decreases ncate - c,
        {
            offsets.push(entries.len());
            let mut row: Vec<UnkEntry> = Vec::new();
            std::mem::swap(&mut row, &mut map[c]);
            let ghost before = entries@;
            let ghost grp = cate_group(names, es, c as int);
            let nr = row.len();
            let mut t: usize = 0;
            while t < nr
                invariant
                    t <= nr == row@.len(),
                    nr == grp.len(),
                    entries@.len() == before.len() + t,
                    forall|x: int| 0 <= x < before.len() ==> #[trigger] entries@[x] == before[x],
                    forall|x: int| before.len() <= x < entries@.len() ==> (#[trigger] entries@[x]).cate_id == c,
                    forall|x: int| 0 <= x < nr ==> (#[trigger] row@[x]).cate_id == c,
                    forall|x: int| 0 <= x < nr ==> unk_from(#[trigger] row@[x], c as int, grp[x]),
                    forall|x: int| 0 <= x < t ==> unk_from(#[trigger] entries@[before.len() + x], c as int, grp[x]),
                decreases nr - t,
            {
                entries.push(row[t].clone_entry());
                t = t + 1;
            }
            proof {
                assert forall|a: int, x: int|
                    0 <= a < c + 1 && 0 <= x < cate_group(names, es, a).len() implies unk_from(
                        #[trigger] entries@[offsets@[a] + x],
                        a,
                        cate_group(names, es, a)[x],
                    ) by {
                    if a < c {
                        lemma_group_start_mono(names, es, a + 1, c as int);
                        assert(offsets@[a] + x < before.len());
                        assert(entries@[offsets@[a] + x] == before[offsets@[a] + x]);
                    } else {
                        assert(offsets@[a] == before.len());
                    }
                }
            }
            c = c + 1;
        }
        offsets.push(entries.len());
        assert(all_named(names, es));
        proof {
            if all_named(names, es) {
                assert forall|i: int| 0 <= i < es.len() implies 0 <= #[trigger] index_of(names, es[i].0) < ncate by {
                    lemma_index_of_nonneg(names, es[i].0);
                }
                lemma_groups_total(names, es, ncate as int);
            }
        }
        if entries.len() > 0x10000 {
            let res = Err(VibratoError::invalid_format("unk.def", "There are more than 65536 entries."));
            assert(unk_def_read(names, rdr@, res));
            return res;
        }
        let h = Self { offsets, entries };
        assert(unk_read(names, es, h));
        let res = Ok(h);
        assert(unk_def_read(names, rdr@, res));
        res
    }
}

/// The entries of `es` whose surfaces name the category `c` of `names`, in order.
pub open spec fn cate_group(names: Seq<Seq<char>>, es: Seq<EntryView>, c: int) -> Seq<EntryView>
    decreases es.len(),
{
    if es.len() == 0 {
        seq![]
    } else {
        let g = cate_group(names, es.drop_last(), c);
        if index_of(names, es.last().0) == c {
            g.push(es.last())
        } else {
            g
        }
    }
}

/// The number of entries of the categories before `c`.
pub open spec fn group_start(names: Seq<Seq<char>>, es: Seq<EntryView>, c: int) -> int
    decreases c,
{
    if c <= 0 {
        0
    } else {
        group_start(names, es, c - 1) + cate_group(names, es, c - 1).len()
    }
}

/// `u` is the unknown-word entry of the lexicon entry `e` with the category `c`.
pub open spec fn unk_from(u: UnkEntry, c: int, e: EntryView) -> bool {
    &&& u.cate_id == c
    &&& u.left_id == e.1.left_id
    &&& u.right_id == e.1.right_id
    &&& u.word_cost == e.1.word_cost
    &&& u.feature@ == e.2
}

/// `h` holds the entries `es` of `unk.def`, grouped by their categories in the
/// order of `names`, in the order of the file within a category.
pub open spec fn unk_read(names: Seq<Seq<char>>, es: Seq<EntryView>, h: UnkHandler) -> bool {
    &&& h.offsets_view().len() == names.len() + 1
    &&& forall|c: int| 0 <= c <= names.len() ==> #[trigger] h.offsets_view()[c] == group_start(names, es, c)
    &&& forall|c: int, t: int|
        0 <= c < names.len() && 0 <= t < cate_group(names, es, c).len() ==> unk_from(
            #[trigger] h.entries_view()[h.offsets_view()[c] + t],
            c,
            cate_group(names, es, c)[t],
        )
}

/// `r` is what [`UnkHandler::from_reader`] gives for the file `b` with the
/// categories `names`: the error of reading the file; an invalid-format error
/// when an entry names no category or there are more than 65536 entries; else
/// the handler of the entries.
pub open spec fn unk_def_read(names: Seq<Seq<char>>, b: Seq<u8>, r: Result<UnkHandler, VibratoError>) -> bool {
    match lex_csv(b) {
        Err(f) => r matches Err(e) && e.fault() == f,
        Ok(es) => if !all_named(names, es) || es.len() > 0x10000 {
            r matches Err(e) && e is InvalidFormat
        } else {
            r matches Ok(h) && unk_read(names, es, h)
        },
    }
}

/// `h` is the handler that [`UnkHandler::from_reader`] gives for the file `b`.
pub open spec fn unk_def_gives(names: Seq<Seq<char>>, b: Seq<u8>, h: UnkHandler) -> bool {
    unk_def_read(names, b, Ok(h))
}

/// An entry of a category's group is an entry of the file.
proof fn lemma_group_member(names: Seq<Seq<char>>, es: Seq<EntryView>, c: int, t: int)
    requires
        0 <= t < cate_group(names, es, c).len(),
    ensures
        exists|i: int| 0 <= i < es.len() && es[i] == cate_group(names, es, c)[t],
    decreases es.len(),
{
    let g0 = cate_group(names, es.drop_last(), c);
    if t < g0.len() {
        lemma_group_member(names, es.drop_last(), c, t);
        let i = choose|i: int| 0 <= i < es.drop_last().len() && es.drop_last()[i] == g0[t];
        assert(es[i] == es.drop_last()[i]);
    } else {
        assert(es[es.len() - 1] == cate_group(names, es, c)[t]);
    }
}

/// A position below `offs[n]` lies in the range of some category below `n`.
proof fn lemma_find_range(offs: Seq<usize>, n: int, k: int) -> (c: int)
    requires
        0 < n < offs.len(),
        offs[0] <= k < offs[n],
        forall|a: int, b: int| 0 <= a <= b < offs.len() ==> #[trigger] offs[a] <= #[trigger] offs[b],
    ensures
        0 <= c < n,
        offs[c] <= k < offs[c + 1],
    decreases n,
{
    if offs[n - 1] <= k {
        n - 1
    } else {
        lemma_find_range(offs, n - 1, k)
    }
}

/// When every entry of the file has connection ids below `nl` and `nr`, so has
/// every entry of the handler read from it.
pub proof fn lemma_unk_read_within(names: Seq<Seq<char>>, es: Seq<EntryView>, h: UnkHandler, nl: int, nr: int)
    requires
        h.wf(),
        unk_read(names, es, h),
        forall|i: int| 0 <= i < es.len() ==> (#[trigger] es[i]).1.left_id < nl && es[i].1.right_id < nr,
    ensures
        crate::dictionary::unk_within(&h, nl, nr),
{
    let offs = h.offsets_view();
    let n = names.len() as int;
    assert forall|k: int| 0 <= k < h.entries_view().len() implies (#[trigger] h.entries_view()[k]).left_id < nl
        && h.entries_view()[k].right_id < nr by {
        assert(n > 0) by {
            if n == 0 {
                assert(offs.last() == offs[0]);
            }
        }
        let c = lemma_find_range(offs, n, k);
        assert(offs[c] == group_start(names, es, c));
        assert(offs[c + 1] == group_start(names, es, c + 1));
        let t = k - offs[c];
        assert(unk_from(h.entries_view()[offs[c] + t], c, cate_group(names, es, c)[t]));
        lemma_group_member(names, es, c, t);
    }
}

/// Every entry names a category.
pub open spec fn all_named(names: Seq<Seq<char>>, es: Seq<EntryView>) -> bool {
    forall|i: int| 0 <= i < es.len() ==> #[trigger] index_of(names, es[i].0) < names.len()
}

/// When every entry names a category, the groups hold them all.
proof fn lemma_groups_total(names: Seq<Seq<char>>, es: Seq<EntryView>, n: int)
    requires
        0 <= n,
        forall|i: int| 0 <= i < es.len() ==> 0 <= #[trigger] index_of(names, es[i].0) < n,
    ensures
        group_start(names, es, n) == es.len(),
    decreases es.len(),
{
    if es.len() > 0 {
        let es0 = es.drop_last();
        assert forall|i: int| 0 <= i < es0.len() implies 0 <= #[trigger] index_of(names, es0[i].0) < n by {
            assert(es0[i] == es[i]);
        }
        lemma_groups_total(names, es0, n);
        lemma_group_start_step(names, es, n);
        assert(0 <= index_of(names, es[es.len() - 1].0) < n);
    } else {
        lemma_group_start_empty(names, es, n);
    }
}

proof fn lemma_group_start_mono(names: Seq<Seq<char>>, es: Seq<EntryView>, a: int, b: int)
    requires
        0 <= a <= b,
    ensures
        group_start(names, es, a) <= group_start(names, es, b),
    decreases b,
{
    if a < b {
        lemma_group_start_mono(names, es, a, b - 1);
    }
}

proof fn lemma_index_of_nonneg(s: Seq<Seq<char>>, c: Seq<char>)
    ensures
        index_of(s, c) >= 0,
    decreases s.len(),
{
    if s.len() > 0 && s[0] != c {
        lemma_index_of_nonneg(s.drop_first(), c);
    }
}

proof fn lemma_group_start_empty(names: Seq<Seq<char>>, es: Seq<EntryView>, n: int)
    requires
        es.len() == 0,
    ensures
        group_start(names, es, n) == 0,
    decreases n,
{
    if n > 0 {
        lemma_group_start_empty(names, es, n - 1);
    }
}

/// Adding the last entry adds one to the starts after its category.
proof fn lemma_group_start_step(names: Seq<Seq<char>>, es: Seq<EntryView>, n: int)
    requires
        0 <= n,
        es.len() > 0,
    ensures
        group_start(names, es, n) == group_start(names, es.drop_last(), n) + if 0 <= index_of(
            names,
            es.last().0,
        ) < n {
            1int
        } else {
            0int
        },
    decreases n,
{
    if n > 0 {
        lemma_group_start_step(names, es, n - 1);
    }
}

/// Each word starts at `start`, ends after it by `limit` at the latest, and has
/// the parameters of the entry that its id names.
pub open spec fn words_fit(ws: Seq<UnkWord>, entries: Seq<UnkEntry>, start: usize, limit: int) -> bool {
    forall|i: int|
        0 <= i < ws.len() ==> {
            let w = #[trigger] ws[i];
            &&& w.start_char == start
            &&& start < w.end_char <= limit
            &&& (w.word_id as int) < entries.len()
            &&& w.left_id == entries[w.word_id as int].left_id
            &&& w.right_id == entries[w.word_id as int].right_id
            &&& w.word_cost == entries[w.word_id as int].word_cost
        }
}

proof fn lemma_fit_concat(a: Seq<UnkWord>, b: Seq<UnkWord>, entries: Seq<UnkEntry>, start: usize, limit: int)
    requires
        words_fit(a, entries, start, limit),
        words_fit(b, entries, start, limit),
    ensures
        words_fit(a + b, entries, start, limit),
{
    assert forall|i: int| 0 <= i < (a + b).len() implies {
        let w = #[trigger] (a + b)[i];
        &&& w.start_char == start
        &&& start < w.end_char <= limit
        &&& (w.word_id as int) < entries.len()
        &&& w.left_id == entries[w.word_id as int].left_id
        &&& w.right_id == entries[w.word_id as int].right_id
        &&& w.word_cost == entries[w.word_id as int].word_cost
    } by {
        if i < a.len() {
            assert((a + b)[i] == a[i]);
        } else {
            assert((a + b)[i] == b[i - a.len()]);
        }
    }
}

impl UnkHandler {
    proof fn lemma_scan_fit(&self, base: int, start: usize, end: usize, limit: int)
        requires
            self.wf(),
            0 <= base,
            base + 1 < self.offsets_view().len(),
            start < end <= limit,
        ensures
            words_fit(scan(self.offsets_view(), self.entries_view(), base, start, end), self.entries_view(), start, limit),
    {
        let o = self.offsets_view();
        let es = self.entries_view();
        assert(o[base] <= o[base + 1]);
        assert(o[base + 1] <= o[o.len() - 1]);
        let ws = scan(o, es, base, start, end);
        assert forall|i: int| 0 <= i < ws.len() implies {
            let w = #[trigger] ws[i];
            &&& w.start_char == start
            &&& start < w.end_char <= limit
            &&& (w.word_id as int) < es.len()
            &&& w.left_id == es[w.word_id as int].left_id
            &&& w.right_id == es[w.word_id as int].right_id
            &&& w.word_cost == es[w.word_id as int].word_cost
        } by {
            let j = o[base] + i;
            assert(j < es.len() <= 0x10000);
            assert((j as u16) as int == j);
        }
    }

    proof fn lemma_scan_lengths_fit(&self, base: int, start: usize, lim: int, g: int, grouped: bool, limit: int)
        requires
            self.wf(),
            0 <= base,
            base + 1 < self.offsets_view().len(),
            start + lim <= limit,
            start + lim <= usize::MAX,
        ensures
            words_fit(
                scan_lengths(self.offsets_view(), self.entries_view(), base, start, lim, g, grouped),
                self.entries_view(),
                start,
                limit,
            ),
        decreases lim,
    {
        if lim > 0 {
            self.lemma_scan_lengths_fit(base, start, lim - 1, g, grouped, limit);
            let a = scan_lengths(self.offsets_view(), self.entries_view(), base, start, lim - 1, g, grouped);
            if grouped && lim == g {
                assert(a + Seq::<UnkWord>::empty() =~= a);
            } else {
                self.lemma_scan_fit(base, start, (start + lim) as usize, limit);
                lemma_fit_concat(
                    a,
                    scan(self.offsets_view(), self.entries_view(), base, start, (start + lim) as usize),
                    self.entries_view(),
                    start,
                    limit,
                );
            }
        }
    }

    /// Every unknown word generated at `start`, within a run of `g` groupable
    /// characters that ends by `limit`, starts there, ends after it by `limit`,
    /// and has the parameters of the entry that its id names.
    pub proof fn lemma_unk_words_fit(
        &self,
        ci: CharInfo,
        g: int,
        start: usize,
        has_matched: bool,
        max_grouping_len: Option<usize>,
        limit: int,
    )
        requires
            self.wf(),
            (ci.spec_base_id() as int) + 1 < self.offsets_view().len(),
            1 <= g,
            start + g <= limit <= usize::MAX,
        ensures
            words_fit(
                unk_words(
                    self.offsets_view(),
                    self.entries_view(),
                    ci,
                    g,
                    start,
                    has_matched,
                    max_grouping_len,
                ),
                self.entries_view(),
                start,
                limit,
            ),
    {
        let o = self.offsets_view();
        let es = self.entries_view();
        let base = ci.spec_base_id() as int;
        if !(has_matched && !ci.spec_invoke()) {
            let mgl = match max_grouping_len {
                Some(l) => l as int,
                None => MAX_SENTENCE_LENGTH as int,
            };
            let grouped = ci.spec_group();
            let by_group = grouped && g - 1 <= mgl;
            let a = if by_group {
                scan(o, es, base, start, (start + g) as usize)
            } else {
                seq![]
            };
            if by_group {
                self.lemma_scan_fit(base, start, (start + g) as usize, limit);
            }
            let lim = if (ci.spec_length() as int) < g {
                ci.spec_length() as int
            } else {
                g
            };
            self.lemma_scan_lengths_fit(base, start, lim, g, grouped, limit);
            let b = scan_lengths(o, es, base, start, lim, g, grouped);
            let some_length = lim >= 2 || (lim == 1 && !(grouped && g == 1));
            let c = if has_matched || by_group || some_length {
                seq![]
            } else {
                scan(o, es, base, start, (start + 1) as usize)
            };
            if !(has_matched || by_group || some_length) {
                self.lemma_scan_fit(base, start, (start + 1) as usize, limit);
            }
            lemma_fit_concat(a, b, es, start, limit);
            lemma_fit_concat(a + b, c, es, start, limit);
        }
    }
}

/// The smaller of two integers.
pub open spec fn min_int(a: int, b: int) -> int {
    if a < b {
        a
    } else {
        b
    }
}

/// Every field of `unk` is `*` or equals the field of `feats` at its position.
pub open spec fn fields_compatible(unk: Seq<Seq<char>>, feats: Seq<Seq<char>>) -> bool {
    forall|i: int|
        0 <= i < unk.len() ==> #[trigger] unk[i] == seq!['*'] || (i < feats.len() && feats[i] == unk[i])
}

/// The first unknown word from `w` on, before `end`, whose feature fields are
/// compatible with `feats` (and whose id fits in `u32`); `None` when there is
/// none, or when a feature met on the way cannot be read.
pub open spec fn first_compatible(es: Seq<UnkEntry>, w: int, end: int, feats: Seq<Seq<char>>) -> Option<int>
    decreases end - w,
{
    if w >= end {
        None
    } else {
        match parsed_row(es[w].feature@) {
            None => None,
            Some(uf) => if fields_compatible(uf, feats) && w <= u32::MAX {
                Some(w)
            } else {
                first_compatible(es, w + 1, end, feats)
            },
        }
    }
}

/// Computes [`fields_compatible`].
fn features_compatible(unk: &Vec<Vec<char>>, feats: &Vec<Vec<char>>) -> (r: bool)
    ensures
        r == fields_compatible(unk.deep_view(), feats.deep_view()),
{
    let n = unk.len();
    let mut i: usize = 0;
    while i < n
        invariant
            i <= n == unk@.len(),
            forall|j: int|
                0 <= j < i ==> #[trigger] unk.deep_view()[j] == seq!['*'] || (j < feats.deep_view().len()
                    && feats.deep_view()[j] == unk.deep_view()[j]),
        decreases n - i,
    {
        let u = &unk[i];
        assert(u@ == unk.deep_view()[i as int]);
        let star = u.len() == 1 && u[0] == '*';
        if star {
            assert(u@ =~= seq!['*']);
        } else {
            assert(u@ != seq!['*']);
            if i >= feats.len() {
                return false;
            }
            let f = &feats[i];
            assert(f@ == feats.deep_view()[i as int]);
            if !crate::utils::chars_eq(f.as_slice(), u.as_slice()) {
                return false;
            }
        }
        i = i + 1;
    }
    true
}

impl UnkHandler {
    /// The unknown word that [`Self::compatible_unk_index`] picks: none when the
    /// feature cannot be read or the span could not have been generated; else the
    /// first of the base category whose feature fields are compatible.
    pub open spec fn compatible_choice(
        &self,
        sent: &Sentence,
        start_char: usize,
        end_char: usize,
        feature: Seq<char>,
    ) -> Option<int> {
        let info = sent.infos()[start_char as int];
        let b = info.spec_base_id() as int;
        match parsed_row(feature) {
            None => None,
            Some(fs) => if info.spec_group() || end_char - start_char <= min_int(
                info.spec_length() as int,
                sent.runs()[start_char as int] as int,
            ) {
                first_compatible(self.entries_view(), self.offsets_view()[b] as int, self.offsets_view()[b + 1] as int, fs)
            } else {
                None
            },
        }
    }

    /// The first unknown word of the base category of the character at
    /// `start_char` whose feature fields are compatible with those of `feature`
    /// (each is `*` or equal), when the span could have been generated: the
    /// category groups, or the span is no longer than the category's length and
    /// the run of groupable characters.
    ///
    /// Which fields a feature has is read with `csv_core`; a feature that cannot
    /// be read gives `None`.
    pub fn compatible_unk_index(
        &self,
        sent: &Sentence,
        start_char: usize,
        end_char: usize,
        feature: &str,
    ) -> (r: Option<WordIdx>)
        requires
            self.wf(),
            sent.grouped(),
            start_char < sent.char_seq().len(),
            start_char <= end_char,
            (sent.infos()[start_char as int].spec_base_id() as int) + 1 < self.offsets_view().len(),
        ensures
            !(sent.infos()[start_char as int].spec_group() || end_char - start_char <= min_int(
                sent.infos()[start_char as int].spec_length() as int,
                sent.runs()[start_char as int] as int,
            )) ==> r is None,
            r matches Some(idx) ==> idx.lex_type == LexType::Unknown,
            r matches Some(idx) ==> self.offsets_view()[sent.infos()[start_char as int].spec_base_id() as int]
                <= idx.word_id,
            r matches Some(idx) ==> idx.word_id < self.offsets_view()[sent.infos()[start_char as int].spec_base_id() as int + 1],
            r matches Some(idx) ==> Some(idx.word_id as int) == self.compatible_choice(
                sent,
                start_char,
                end_char,
                feature@,
            ),
            r is None ==> self.compatible_choice(sent, start_char, end_char, feature@) is None,
    {
        let fchars = chars_of(feature);
        let feats = match parse_csv_row(fchars.as_slice()) {
            Ok(f) => f,
            Err(_) => {
                return None;
            },
        };
        let ghost fs = feats.deep_view();
        let cinfo = sent.char_info(start_char);
        let groupable = sent.groupable(start_char);
        let len = cinfo.length() as usize;
        let lim = if len < groupable {
            len
        } else {
            groupable
        };
        if cinfo.group() || end_char - start_char <= lim {
            let b = cinfo.base_id() as usize;
            let start = self.offsets[b];
            let end = self.offsets[b + 1];
            let mut word_id = start;
            while word_id < end
                invariant
                    start <= word_id <= end,
                    b == sent.infos()[start_char as int].spec_base_id(),
                    sent.infos()[start_char as int].spec_group() || end_char - start_char <= min_int(
                        sent.infos()[start_char as int].spec_length() as int,
                        sent.runs()[start_char as int] as int,
                    ),
                    end == self.offsets@[b + 1],
                    start == self.offsets@[b as int],
                    end <= self.entries@.len(),
                    fs == feats.deep_view(),
                    self.compatible_choice(sent, start_char, end_char, feature@) == first_compatible(
                        self.entries@,
                        word_id as int,
                        end as int,
                        fs,
                    ),
                decreases end - word_id,
            {
                let e = &self.entries[word_id];
                assert(e.feature@ == self.entries@[word_id as int].feature@);
                let unk_feats = match parse_csv_row(chars_of(e.feature.as_str()).as_slice()) {
                    Ok(f) => f,
                    Err(_) => {
                        return None;
                    },
                };
                if features_compatible(&unk_feats, &feats) {
                    if word_id <= 0xffff_ffff {
                        return Some(WordIdx::new(LexType::Unknown, word_id as u32));
                    }
                }
                word_id = word_id + 1;
            }
        }
        None
    }
}

impl UnkEntry {
    /// A copy of the entry.
    pub fn clone_entry(&self) -> (r: Self)
        ensures
            r.cate_id == self.cate_id,
            r.left_id == self.left_id,
            r.right_id == self.right_id,
            r.word_cost == self.word_cost,
            r.feature@ == self.feature@,
    {
        UnkEntry {
            cate_id: self.cate_id,
            left_id: self.left_id,
            right_id: self.right_id,
            word_cost: self.word_cost,
            feature: self.feature.clone(),
        }
    }
}


/// The words of `scan` start at `start` and come from entries of category `base`.
proof fn lemma_scan_category(h: UnkHandler, base: int, start: usize, end: usize)
    requires
        h.wf(),
        0 <= base,
        base + 1 < h.offsets_view().len(),
    ensures
        forall|i: int|
            0 <= i < scan(h.offsets_view(), h.entries_view(), base, start, end).len() ==> {
                let w = #[trigger] scan(h.offsets_view(), h.entries_view(), base, start, end)[i];
                &&& w.start_char == start
                &&& (w.word_id as int) < h.entries_view().len()
                &&& h.entries_view()[w.word_id as int].cate_id == base
            },
{
    let offs = h.offsets_view();
    let n = offs.len() - 1;
    assert(offs[base] <= offs[base + 1]);
    assert(offs[base + 1] <= offs[n]);
    assert forall|i: int|
        0 <= i < scan(offs, h.entries_view(), base, start, end).len() implies {
        let w = #[trigger] scan(offs, h.entries_view(), base, start, end)[i];
        &&& w.start_char == start
        &&& (w.word_id as int) < h.entries_view().len()
        &&& h.entries_view()[w.word_id as int].cate_id == base
    } by {
        let k = offs[base] + i;
        assert(k < 0x10000);
        assert(((k as u16) as int) == k);
        assert(offs[base] <= k < offs[base + 1]);
    }
}

/// The words of `scan_lengths` start at `start` and come from entries of
/// category `base`.
proof fn lemma_scan_lengths_category(
    h: UnkHandler,
    base: int,
    start: usize,
    lim: int,
    g: int,
    grouped: bool,
)
    requires
        h.wf(),
        0 <= base,
        base + 1 < h.offsets_view().len(),
    ensures
        forall|i: int|
            0 <= i < scan_lengths(h.offsets_view(), h.entries_view(), base, start, lim, g, grouped).len()
                ==> {
                let w = #[trigger] scan_lengths(
                    h.offsets_view(),
                    h.entries_view(),
                    base,
                    start,
                    lim,
                    g,
                    grouped,
                )[i];
                &&& w.start_char == start
                &&& (w.word_id as int) < h.entries_view().len()
                &&& h.entries_view()[w.word_id as int].cate_id == base
            },
    decreases lim,
{
    if lim > 0 {
        let offs = h.offsets_view();
        let es = h.entries_view();
        lemma_scan_lengths_category(h, base, start, lim - 1, g, grouped);
        lemma_scan_category(h, base, start, (start + lim) as usize);
        let a = scan_lengths(offs, es, base, start, lim - 1, g, grouped);
        let b = if grouped && lim == g {
            seq![]
        } else {
            scan(offs, es, base, start, (start + lim) as usize)
        };
        let all = scan_lengths(offs, es, base, start, lim, g, grouped);
        assert(all == a + b);
        assert forall|i: int| 0 <= i < all.len() implies {
            let w = #[trigger] all[i];
            &&& w.start_char == start
            &&& (w.word_id as int) < es.len()
            &&& es[w.word_id as int].cate_id == base
        } by {
            if i < a.len() {
                assert(all[i] == a[i]);
            } else {
                assert(all[i] == b[i - a.len()]);
            }
        }
    }
}

/// An unknown word takes the category of the character it starts at: every
/// word that [`UnkHandler::gen_unk_words`] makes at `start` starts there and
/// comes from an entry of the base category of that character.
pub proof fn lemma_unk_word_category(
    h: UnkHandler,
    ci: CharInfo,
    g: int,
    start: usize,
    has_matched: bool,
    max_grouping_len: Option<usize>,
)
    requires
        h.wf(),
        (ci.spec_base_id() as int) + 1 < h.offsets_view().len(),
    ensures
        forall|i: int|
            0 <= i < unk_words(
                h.offsets_view(),
                h.entries_view(),
                ci,
                g,
                start,
                has_matched,
                max_grouping_len,
            ).len() ==> {
                let w = #[trigger] unk_words(
                    h.offsets_view(),
                    h.entries_view(),
                    ci,
                    g,
                    start,
                    has_matched,
                    max_grouping_len,
                )[i];
                &&& w.start_char == start
                &&& (w.word_id as int) < h.entries_view().len()
                &&& h.entries_view()[w.word_id as int].cate_id == ci.spec_base_id()
            },
{
    let base = ci.spec_base_id() as int;
    let mgl = match max_grouping_len {
        Some(l) => l as int,
        None => MAX_SENTENCE_LENGTH as int,
    };
    let lim = if (ci.spec_length() as int) < g {
        ci.spec_length() as int
    } else {
        g
    };
    lemma_scan_category(h, base, start, (start + g) as usize);
    lemma_scan_category(h, base, start, (start + 1) as usize);
    lemma_scan_lengths_category(h, base, start, lim, g, ci.spec_group());
}


/// A lexicon match stops unknown words only at categories that do not invoke:
/// at an invoking category the words are those generated without a match,
/// except that the one-character fallback (made only when neither grouping nor
/// any length gives a word) is left out; at a category that does not invoke a
/// match leaves no unknown word.
pub proof fn lemma_invoke_ignores_match(
    offsets: Seq<usize>,
    entries: Seq<UnkEntry>,
    ci: CharInfo,
    g: int,
    start: usize,
    max_grouping_len: Option<usize>,
)
    ensures
        ci.spec_invoke() ==> {
            let matched = unk_words(offsets, entries, ci, g, start, true, max_grouping_len);
            let unmatched = unk_words(offsets, entries, ci, g, start, false, max_grouping_len);
            ||| matched == unmatched
            ||| matched.len() == 0 && forall|i: int|
                0 <= i < unmatched.len() ==> (#[trigger] unmatched[i]).end_char == (start + 1) as usize
        },
        !ci.spec_invoke() ==> unk_words(offsets, entries, ci, g, start, true, max_grouping_len).len() == 0,
{
    let base = ci.spec_base_id() as int;
    let mgl = match max_grouping_len {
        Some(l) => l as int,
        None => MAX_SENTENCE_LENGTH as int,
    };
    let grouped = ci.spec_group();
    let by_group = grouped && g - 1 <= mgl;
    let a = if by_group {
        scan(offsets, entries, base, start, (start + g) as usize)
    } else {
        seq![]
    };
    let lim = if (ci.spec_length() as int) < g {
        ci.spec_length() as int
    } else {
        g
    };
    let b = scan_lengths(offsets, entries, base, start, lim, g, grouped);
    let some_length = lim >= 2 || (lim == 1 && !(grouped && g == 1));
    let c = scan(offsets, entries, base, start, (start + 1) as usize);
    if ci.spec_invoke() {
        let matched = unk_words(offsets, entries, ci, g, start, true, max_grouping_len);
        let unmatched = unk_words(offsets, entries, ci, g, start, false, max_grouping_len);
        assert(matched == a + b + seq![]);
        if by_group || some_length {
            assert(unmatched == a + b + seq![]);
        } else {
            assert(a.len() == 0);
            if lim >= 1 {
                assert(lim == 1 && grouped && g == 1);
                assert(b == scan_lengths(offsets, entries, base, start, 0, g, grouped) + seq![]);
            }
            assert(b.len() == 0);
            assert(unmatched == a + b + c);
            assert(unmatched =~= c);
            assert(matched.len() == 0);
        }
    }
}


/// Every entry of category `base` appears in `scan` with the span `start..end`.
proof fn lemma_scan_has_all(h: UnkHandler, base: int, start: usize, end: usize)
    requires
        h.wf(),
        0 <= base,
        base + 1 < h.offsets_view().len(),
    ensures
        forall|k: u16|
            h.offsets_view()[base] <= k < h.offsets_view()[base + 1] ==> #[trigger] scan(
                h.offsets_view(),
                h.entries_view(),
                base,
                start,
                end,
            ).contains(UnkWord::from_entry(h.entries_view()[k as int], start, end, k)),
{
    let offs = h.offsets_view();
    let sc = scan(offs, h.entries_view(), base, start, end);
    assert forall|k: u16| offs[base] <= k < offs[base + 1] implies #[trigger] sc.contains(
        UnkWord::from_entry(h.entries_view()[k as int], start, end, k),
    ) by {
        let t = k - offs[base];
        assert(((offs[base] + t) as u16) == k);
        assert(sc[t] == UnkWord::from_entry(h.entries_view()[k as int], start, end, k));
    }
}

/// Every entry of category `base` appears in `scan_lengths` with each span
/// `start..start + l` for `l` in `1..=lim`, except the grouped length `g`.
proof fn lemma_scan_lengths_has_all(
    h: UnkHandler,
    base: int,
    start: usize,
    lim: int,
    g: int,
    grouped: bool,
)
    requires
        h.wf(),
        0 <= base,
        base + 1 < h.offsets_view().len(),
    ensures
        forall|k: u16, e: usize|
            h.offsets_view()[base] <= k < h.offsets_view()[base + 1] && start < e <= start + lim && !(grouped
                && e == start + g) ==> #[trigger] scan_lengths(
                h.offsets_view(),
                h.entries_view(),
                base,
                start,
                lim,
                g,
                grouped,
            ).contains(UnkWord::from_entry(h.entries_view()[k as int], start, e, k)),
    decreases lim,
{
    if lim > 0 {
        let offs = h.offsets_view();
        let es = h.entries_view();
        lemma_scan_lengths_has_all(h, base, start, lim - 1, g, grouped);
        let a = scan_lengths(offs, es, base, start, lim - 1, g, grouped);
        let b = if grouped && lim == g {
            seq![]
        } else {
            scan(offs, es, base, start, (start + lim) as usize)
        };
        let all = scan_lengths(offs, es, base, start, lim, g, grouped);
        assert(all == a + b);
        if !(grouped && lim == g) {
            lemma_scan_has_all(h, base, start, (start + lim) as usize);
        }
        assert forall|k: u16, e: usize|
            offs[base] <= k < offs[base + 1] && start < e <= start + lim && !(grouped && e == start + g)
            implies #[trigger] all.contains(UnkWord::from_entry(es[k as int], start, e, k)) by {
            let w = UnkWord::from_entry(es[k as int], start, e, k);
            if e < start + lim {
                assert(a.contains(w));
                let i = choose|i: int| 0 <= i < a.len() && a[i] == w;
                assert(all[i] == w);
            } else {
                assert(e as int == start + lim);
                assert(b.contains(w));
                let i = choose|i: int| 0 <= i < b.len() && b[i] == w;
                assert(all[a.len() + i] == w);
            }
        }
    }
}

/// The unknown words at a position hold every entry of the category of its
/// character, once for each span that MeCab's rules give: the span of the
/// whole run of characters that group with it, when the category groups and
/// the run is within the grouping limit, and the spans of each length from one
/// up to the category's length, within the run, other than the run's own
/// length when grouping. This holds unless a lexicon word matched and the
/// category does not invoke.
pub proof fn lemma_unk_words_complete(
    h: UnkHandler,
    ci: CharInfo,
    g: int,
    start: usize,
    has_matched: bool,
    max_grouping_len: Option<usize>,
)
    requires
        h.wf(),
        (ci.spec_base_id() as int) + 1 < h.offsets_view().len(),
        !(has_matched && !ci.spec_invoke()),
    ensures
        forall|k: u16, e: usize|
            h.offsets_view()[ci.spec_base_id() as int] <= k < h.offsets_view()[ci.spec_base_id() as int + 1]
                && start < e <= start + g && e <= start + ci.spec_length() && !(ci.spec_group() && e
                == start + g) ==> #[trigger] unk_words(
                h.offsets_view(),
                h.entries_view(),
                ci,
                g,
                start,
                has_matched,
                max_grouping_len,
            ).contains(UnkWord::from_entry(h.entries_view()[k as int], start, e, k)),
        ci.spec_group() && g - 1 <= match max_grouping_len {
            Some(l) => l as int,
            None => MAX_SENTENCE_LENGTH as int,
        } ==> forall|k: u16|
            h.offsets_view()[ci.spec_base_id() as int] <= k < h.offsets_view()[ci.spec_base_id() as int + 1]
                ==> #[trigger] unk_words(
                h.offsets_view(),
                h.entries_view(),
                ci,
                g,
                start,
                has_matched,
                max_grouping_len,
            ).contains(UnkWord::from_entry(h.entries_view()[k as int], start, (start + g) as usize, k)),
{
    let offs = h.offsets_view();
    let es = h.entries_view();
    let base = ci.spec_base_id() as int;
    let mgl = match max_grouping_len {
        Some(l) => l as int,
        None => MAX_SENTENCE_LENGTH as int,
    };
    let grouped = ci.spec_group();
    let by_group = grouped && g - 1 <= mgl;
    let a = if by_group {
        scan(offs, es, base, start, (start + g) as usize)
    } else {
        seq![]
    };
    let lim = if (ci.spec_length() as int) < g {
        ci.spec_length() as int
    } else {
        g
    };
    let b = scan_lengths(offs, es, base, start, lim, g, grouped);
    let some_length = lim >= 2 || (lim == 1 && !(grouped && g == 1));
    let c = if has_matched || by_group || some_length {
        seq![]
    } else {
        scan(offs, es, base, start, (start + 1) as usize)
    };
    let words = unk_words(offs, es, ci, g, start, has_matched, max_grouping_len);
    assert(words == a + b + c);
    lemma_scan_lengths_has_all(h, base, start, lim, g, grouped);
    assert forall|k: u16, e: usize|
        offs[base] <= k < offs[base + 1] && start < e <= start + g && e <= start + ci.spec_length() && !(
        grouped && e == start + g) implies #[trigger] words.contains(UnkWord::from_entry(es[k as int], start, e, k))
        by {
        let w = UnkWord::from_entry(es[k as int], start, e, k);
        assert(b.contains(w));
        let i = choose|i: int| 0 <= i < b.len() && b[i] == w;
        assert(words[a.len() + i] == w);
    }
    if by_group {
        lemma_scan_has_all(h, base, start, (start + g) as usize);
        assert forall|k: u16| offs[base] <= k < offs[base + 1] implies #[trigger] words.contains(
            UnkWord::from_entry(es[k as int], start, (start + g) as usize, k),
        ) by {
            let w = UnkWord::from_entry(es[k as int], start, (start + g) as usize, k);
            assert(a.contains(w));
            let i = choose|i: int| 0 <= i < a.len() && a[i] == w;
            assert(words[i] == w);
        }
    }
}

} // verus!

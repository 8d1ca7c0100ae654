//! Reading of the training configuration: the feature templates (`feature.def`)
//! and the rewrite rules (`rewrite.def`).
//!
//! Each content line of `feature.def` is `UNIGRAM template` or
//! `BIGRAM left-template/right-template`.
//!
//! The file has three sections, `[unigram rewrite]`, `[left rewrite]` and
//! `[right rewrite]`; each line under a header is a rule `pattern rewrite`, two
//! comma-separated lists between ASCII white space, added to the rewriter of that
//! section. Empty lines and lines starting with `#` are skipped.
use vstd::prelude::*;
use vstd::slice::slice_subrange;
use vstd::utf8::*;

use crate::dictionary::builder::{system_read, SystemDictionaryBuilder};
use crate::dictionary::character::{char_def_ok, def_names, CharProperty};
use crate::dictionary::connector::matrix_connector::MatrixConnector;
use crate::dictionary::connector::ConnectorWrapper;
use crate::dictionary::lexicon::map::{ids_of_words, word_map_ok};
use crate::dictionary::lexicon::param::params_within;
use crate::dictionary::lexicon::{entries_view, lex_csv, EntryView, Lexicon};
use crate::dictionary::unknown::{all_named, lemma_unk_read_within, unk_def_gives, UnkHandler};
use crate::dictionary::Dictionary;
use crate::errors::{Fault, VibratoError};
use crate::trainer::feature_extractor::{
    all_indices_fit, extract_fold, parse_templates, somes, texts, FeatureExtractor, TemplateKind,
};
use crate::trainer::{feature_set_new, feature_set_view, set_parts};
use rucrf::FeatureSet as CrfFeatureSet;
use crate::trainer::feature_rewriter::{
    parse_pattern, parse_patterns, parse_rewrite, parse_rewrites, ref_digits, references_within,
    FeatureRewriter, FeatureRewriterBuilder, PatternSpec, RewriteSpec,
};
use crate::utils::{
    chars_eq, chars_of, decode_utf8_chars, digits_value, lines, spec_lines, spec_split,
    spec_split_ascii_ws, spec_trim, split_ascii_whitespace, split_char, starts_with,
    string_from_chars, trim,
};

verus! {

/// The rules of a rewriter: the rewrite of each pattern.
pub type RulesView = Map<Seq<PatternSpec>, Seq<RewriteSpec>>;

/// The rewriter that the rules under a header go to.
#[derive(Clone, Copy)]
pub enum Section {
    /// `[unigram rewrite]`.
    Unigram,
    /// `[left rewrite]`.
    Left,
    /// `[right rewrite]`.
    Right,
}

/// The pattern and the rewrite of a rule line: exactly two words between ASCII white
/// space, each split at commas.
pub open spec fn spec_rewrite_rule(l: Seq<char>) -> Option<(Seq<Seq<char>>, Seq<Seq<char>>)> {
    let w = spec_split_ascii_ws(l);
    if w.len() == 2 {
        Some((spec_split(w[0], ','), spec_split(w[1], ',')))
    } else {
        None
    }
}

/// The pattern that a list of entries denotes.
pub open spec fn pattern_of(ps: Seq<Seq<char>>) -> Seq<PatternSpec> {
    Seq::new(ps.len(), |i: int| parse_pattern(ps[i]))
}

/// The rewrite that a list of entries denotes.
pub open spec fn rewrite_of(ps: Seq<Seq<char>>) -> Seq<RewriteSpec> {
    Seq::new(ps.len(), |i: int| parse_rewrite(ps[i]))
}

/// A rule joins the rules unless its pattern is there already.
pub open spec fn add_first(rules: RulesView, p: Seq<PatternSpec>, r: Seq<RewriteSpec>) -> RulesView {
    if rules.contains_key(p) {
        rules
    } else {
        rules.insert(p, r)
    }
}

/// The section that a header line opens.
pub open spec fn section_of(l: Seq<char>) -> Option<Section> {
    if l == seq!['[', 'u', 'n', 'i', 'g', 'r', 'a', 'm', ' ', 'r', 'e', 'w', 'r', 'i', 't', 'e', ']'] {
        Some(Section::Unigram)
    } else if l == seq!['[', 'l', 'e', 'f', 't', ' ', 'r', 'e', 'w', 'r', 'i', 't', 'e', ']'] {
        Some(Section::Left)
    } else if l == seq!['[', 'r', 'i', 'g', 'h', 't', ' ', 'r', 'e', 'w', 'r', 'i', 't', 'e', ']'] {
        Some(Section::Right)
    } else {
        None
    }
}

/// The open section and the rules of the three rewriters.
pub type RewriteState = (Option<Section>, RulesView, RulesView, RulesView);

/// A line, trimmed of white space, is neither empty nor a comment.
pub open spec fn is_content(l: Seq<char>) -> bool {
    l.len() > 0 && l[0] != '#'
}

/// The state after one more line.
pub open spec fn rewrite_step(st: RewriteState, line: Seq<u8>) -> Result<RewriteState, Fault> {
    if !valid_utf8(line) {
        Err(Fault::Utf8)
    } else {
        let l = spec_trim(decode_utf8(line));
        if !is_content(l) {
            Ok(st)
        } else if section_of(l) is Some {
            Ok((section_of(l), st.1, st.2, st.3))
        } else {
            match (st.0, spec_rewrite_rule(l)) {
                (Some(sec), Some((p, r))) => {
                    let (pv, rv) = (pattern_of(p), rewrite_of(r));
                    Ok(
                        match sec {
                            Section::Unigram => (st.0, add_first(st.1, pv, rv), st.2, st.3),
                            Section::Left => (st.0, st.1, add_first(st.2, pv, rv), st.3),
                            Section::Right => (st.0, st.1, st.2, add_first(st.3, pv, rv)),
                        },
                    )
                },
                _ => Err(Fault::Format),
            }
        }
    }
}

/// The state after the lines `ls`; the first failing line gives the error.
pub open spec fn rewrite_fold(ls: Seq<Seq<u8>>) -> Result<RewriteState, Fault>
    decreases ls.len(),
{
    if ls.len() == 0 {
        Ok((None, Map::empty(), Map::empty(), Map::empty()))
    } else {
        match rewrite_fold(ls.drop_last()) {
            Err(f) => Err(f),
            Ok(st) => rewrite_step(st, ls.last()),
        }
    }
}

/// The references of a rewrite fit in a `usize`.
pub open spec fn references_fit_in(r: Seq<Seq<char>>) -> bool {
    forall|i: int|
        0 <= i < r.len() ==> (#[trigger] ref_digits(r[i]) matches Some(d) ==> digits_value(d, 10)
            <= usize::MAX)
}

/// Every rule that is added while the lines `ls` are read has references that fit
/// in a `usize`.
pub open spec fn added_references_fit(ls: Seq<Seq<u8>>) -> bool {
    forall|k: int|
        0 <= k < ls.len() ==> (#[trigger] rewrite_fold(ls.take(k)) matches Ok(st) ==> (st.0 is Some
            && valid_utf8(ls[k]) && is_content(spec_trim(decode_utf8(ls[k]))) && section_of(
            spec_trim(decode_utf8(ls[k])),
        ) is None ==> (spec_rewrite_rule(spec_trim(decode_utf8(ls[k]))) matches Some((p, r))
            ==> references_fit_in(r))))
}

proof fn lemma_rewrite_fold_err(ls: Seq<Seq<u8>>, k: int, f: Fault)
    requires
        0 <= k <= ls.len(),
        rewrite_fold(ls.take(k)) == Err::<RewriteState, Fault>(f),
    ensures
        rewrite_fold(ls) == Err::<RewriteState, Fault>(f),
    decreases ls.len() - k,
{
    if k < ls.len() {
        assert(ls.take(k + 1).drop_last() =~= ls.take(k));
        lemma_rewrite_fold_err(ls, k + 1, f);
    } else {
        assert(ls.take(k) =~= ls);
    }
}

/// Splits a rule line into its pattern entries and its rewrite entries.
pub fn parse_rewrite_rule(line: &[char]) -> (r: Result<(Vec<Vec<char>>, Vec<Vec<char>>), VibratoError>)
    ensures
        match (r, spec_rewrite_rule(line@)) {
            (Ok((p, w)), Some((sp, sw))) => p.deep_view() == sp && w.deep_view() == sw,
            (Err(e), None) => e is InvalidFormat,
            _ => false,
        },
{
    let words = split_ascii_whitespace(line);
    if words.len() == 2 {
        assert(words[0]@ == words.deep_view()[0]);
        assert(words[1]@ == words.deep_view()[1]);
        let p = split_char(words[0].as_slice(), ',');
        let w = split_char(words[1].as_slice(), ',');
        Ok((p, w))
    } else {
        Err(VibratoError::invalid_format("rewrite.def", "invalid rewrite rule"))
    }
}

/// Adds a rule given by its entries, keeping an earlier rule of the same pattern.
fn add_rule_entries(
    builder: &mut FeatureRewriterBuilder,
    pattern: &Vec<Vec<char>>,
    rewrite: &Vec<Vec<char>>,
)
    requires
        old(builder).wf(),
        references_fit_in(rewrite.deep_view()),
    ensures
        final(builder).wf(),
        final(builder).rules() == add_first(
            old(builder).rules(),
            pattern_of(pattern.deep_view()),
            rewrite_of(rewrite.deep_view()),
        ),
{
    let mut ps: Vec<String> = Vec::new();
    let mut i: usize = 0;
    while i < pattern.len()
        invariant
            i <= pattern@.len(),
            ps@.len() == i,
            forall|j: int| 0 <= j < i ==> (#[trigger] ps@[j])@ == pattern.deep_view()[j],
        decreases pattern@.len() - i,
    {
        assert(pattern@[i as int]@ == pattern.deep_view()[i as int]);
        ps.push(string_from_chars(pattern[i].as_slice()));
        i = i + 1;
    }
    let mut rs: Vec<String> = Vec::new();
    let mut i: usize = 0;
    while i < rewrite.len()
        invariant
            i <= rewrite@.len(),
            rs@.len() == i,
            forall|j: int| 0 <= j < i ==> (#[trigger] rs@[j])@ == rewrite.deep_view()[j],
        decreases rewrite@.len() - i,
    {
        assert(rewrite@[i as int]@ == rewrite.deep_view()[i as int]);
        rs.push(string_from_chars(rewrite[i].as_slice()));
        i = i + 1;
    }
    let mut pv: Vec<&str> = Vec::new();
    let mut i: usize = 0;
    while i < ps.len()
        invariant
            i <= ps@.len(),
            pv@.len() == i,
            forall|j: int| 0 <= j < i ==> (#[trigger] pv@[j])@ == ps@[j]@,
        decreases ps@.len() - i,
    {
        pv.push(ps[i].as_str());
        i = i + 1;
    }
    let mut rv: Vec<&str> = Vec::new();
    let mut i: usize = 0;
    while i < rs.len()
        invariant
            i <= rs@.len(),
            rv@.len() == i,
            forall|j: int| 0 <= j < i ==> (#[trigger] rv@[j])@ == rs@[j]@,
        decreases rs@.len() - i,
    {
        rv.push(rs[i].as_str());
        i = i + 1;
    }
    assert(parse_patterns(pv@) =~= pattern_of(pattern.deep_view()));
    assert(parse_rewrites(rv@) =~= rewrite_of(rewrite.deep_view()));
    assert forall|j: int|
        0 <= j < rv@.len() implies (#[trigger] ref_digits(rv@[j]@) matches Some(d)
        ==> digits_value(d, 10) <= usize::MAX) by {
        assert(rv@[j]@ == rewrite.deep_view()[j]);
    }
    let _ = builder.add_rule(pv.as_slice(), rv.as_slice());
}

/// Reads the rewrite rules of the three rewriters from the text of `rewrite.def`.
/// A rule outside every section, a line that is no rule, or text that is not UTF-8
/// is an error; a rule whose pattern came earlier in its section is skipped.
pub fn parse_rewrite_config(rdr: &[u8]) -> (r: Result<
    (FeatureRewriter, FeatureRewriter, FeatureRewriter),
    VibratoError,
>)
    requires
        added_references_fit(spec_lines(rdr@)),
    ensures
        match (r, rewrite_fold(spec_lines(rdr@))) {
            (Ok((u, l, rt)), Ok(st)) => {
                &&& u.wf() && l.wf() && rt.wf()
                &&& u.rules() == st.1
                &&& l.rules() == st.2
                &&& rt.rules() == st.3
            },
            (Err(e), Err(f)) => e.fault() == f,
            _ => false,
        },
{
    let uni_header = "[unigram rewrite]";
    let left_header = "[left rewrite]";
    let right_header = "[right rewrite]";
    let uni = chars_of(uni_header);
    let left = chars_of(left_header);
    let right = chars_of(right_header);
    proof {
        reveal_strlit("[unigram rewrite]");
        reveal_strlit("[left rewrite]");
        reveal_strlit("[right rewrite]");
        assert(uni@ =~= seq![
            '[',
            'u',
            'n',
            'i',
            'g',
            'r',
            'a',
            'm',
            ' ',
            'r',
            'e',
            'w',
            'r',
            'i',
            't',
            'e',
            ']',
        ]);
        assert(left@ =~= seq!['[', 'l', 'e', 'f', 't', ' ', 'r', 'e', 'w', 'r', 'i', 't', 'e', ']']);
        assert(right@ =~= seq![
            '[',
            'r',
            'i',
            'g',
            'h',
            't',
            ' ',
            'r',
            'e',
            'w',
            'r',
            'i',
            't',
            'e',
            ']',
        ]);
    }
    let ls = lines(rdr);
    let ghost lv = ls.deep_view();
    let n = ls.len();
    let mut ub = FeatureRewriterBuilder::new();
    let mut lb = FeatureRewriterBuilder::new();
    let mut rb = FeatureRewriterBuilder::new();
    let mut section: Option<Section> = None;
    let mut k: usize = 0;
    assert(lv.take(0) =~= Seq::<Seq<u8>>::empty());
    while k < n
        invariant
            k <= n == lv.len(),
            lv == spec_lines(rdr@),
            lv == ls.deep_view(),
            added_references_fit(lv),
            uni@ == seq![
                '[',
                'u',
                'n',
                'i',
                'g',
                'r',
                'a',
                'm',
                ' ',
                'r',
                'e',
                'w',
                'r',
                'i',
                't',
                'e',
                ']',
            ],
            left@ == seq!['[', 'l', 'e', 'f', 't', ' ', 'r', 'e', 'w', 'r', 'i', 't', 'e', ']'],
            right@ == seq!['[', 'r', 'i', 'g', 'h', 't', ' ', 'r', 'e', 'w', 'r', 'i', 't', 'e', ']'],
            ub.wf() && lb.wf() && rb.wf(),
            rewrite_fold(lv.take(k as int)) == Ok::<RewriteState, Fault>(
                (section, ub.rules(), lb.rules(), rb.rules()),
            ),
        decreases n - k,
    {
        let ghost st = (section, ub.rules(), lb.rules(), rb.rules());
        assert(lv.take(k + 1).drop_last() =~= lv.take(k as int));
        assert(ls[k as int]@ == lv[k as int]);
        let chars = match decode_utf8_chars(ls[k].as_slice()) {
            Ok(c) => c,
            Err(e) => {
                proof {
                    lemma_rewrite_fold_err(lv, k + 1, Fault::Utf8);
                }
                return Err(e);
            },
        };
        let (a, b) = trim(chars.as_slice());
        let line = slice_subrange(chars.as_slice(), a, b);
        let ghost l = spec_trim(decode_utf8(lv[k as int]));
        assert(line@ == l);
        if line.len() == 0 || line[0] == '#' {
        } else if chars_eq(line, uni.as_slice()) {
            section = Some(Section::Unigram);
        } else if chars_eq(line, left.as_slice()) {
            section = Some(Section::Left);
        } else if chars_eq(line, right.as_slice()) {
            section = Some(Section::Right);
        } else {
            match section {
                None => {
                    proof {
                        lemma_rewrite_fold_err(lv, k + 1, Fault::Format);
                    }
                    return Err(VibratoError::invalid_format("rewrite.def", "Invalid rewrite rule"));
                },
                Some(sec) => {
                    let (pattern, rewrite) = match parse_rewrite_rule(line) {
                        Ok(pr) => pr,
                        Err(e) => {
                            proof {
                                lemma_rewrite_fold_err(lv, k + 1, Fault::Format);
                            }
                            return Err(e);
                        },
                    };
                    assert(rewrite_fold(lv.take(k as int)) matches Ok(s) && s.0 is Some);
                    assert(references_fit_in(rewrite.deep_view()));
                    match sec {
                        Section::Unigram => add_rule_entries(&mut ub, &pattern, &rewrite),
                        Section::Left => add_rule_entries(&mut lb, &pattern, &rewrite),
                        Section::Right => add_rule_entries(&mut rb, &pattern, &rewrite),
                    }
                },
            }
        }
        k = k + 1;
    }
    assert(lv.take(n as int) =~= lv);
    Ok((FeatureRewriter::from(ub), FeatureRewriter::from(lb), FeatureRewriter::from(rb)))
}

// ---------------------------------------------------------------------
// Feature templates
// ---------------------------------------------------------------------

/// The unigram templates and the pairs of bigram templates read so far.
pub type FeatureConfigState = (Seq<Seq<char>>, Seq<(Seq<char>, Seq<char>)>);

/// `UNIGRAM ` as characters.
pub open spec fn unigram_prefix() -> Seq<char> {
    seq!['U', 'N', 'I', 'G', 'R', 'A', 'M', ' ']
}

/// `BIGRAM ` as characters.
pub open spec fn bigram_prefix() -> Seq<char> {
    seq!['B', 'I', 'G', 'R', 'A', 'M', ' ']
}

/// The templates after one more line of `feature.def`.
pub open spec fn feature_step(st: FeatureConfigState, line: Seq<u8>) -> Result<
    FeatureConfigState,
    Fault,
> {
    if !valid_utf8(line) {
        Err(Fault::Utf8)
    } else {
        let l = spec_trim(decode_utf8(line));
        if !is_content(l) {
            Ok(st)
        } else if l.len() >= 8 && l.take(8) == unigram_prefix() {
            Ok((st.0.push(l.skip(8)), st.1))
        } else if l.len() >= 7 && l.take(7) == bigram_prefix() {
            let parts = spec_split(l.skip(7), '/');
            if parts.len() == 2 {
                Ok((st.0, st.1.push((parts[0], parts[1]))))
            } else {
                Err(Fault::Format)
            }
        } else {
            Err(Fault::Format)
        }
    }
}

/// The templates after the lines `ls`; the first failing line gives the error.
pub open spec fn feature_fold(ls: Seq<Seq<u8>>) -> Result<FeatureConfigState, Fault>
    decreases ls.len(),
{
    if ls.len() == 0 {
        Ok((seq![], seq![]))
    } else {
        match feature_fold(ls.drop_last()) {
            Err(f) => Err(f),
            Ok(st) => feature_step(st, ls.last()),
        }
    }
}

/// The first (or second) templates of the pairs.
pub open spec fn pair_halves(ps: Seq<(Seq<char>, Seq<char>)>, right: bool) -> Seq<Seq<char>> {
    Seq::new(
        ps.len(),
        |i: int|
            if right {
                ps[i].1
            } else {
                ps[i].0
            },
    )
}

/// Every feature index of the templates of `st` fits in a `usize`.
pub open spec fn config_indices_fit(st: FeatureConfigState) -> bool {
    &&& all_indices_fit(st.0, TemplateKind::Unigram)
    &&& all_indices_fit(pair_halves(st.1, false), TemplateKind::Left)
    &&& all_indices_fit(pair_halves(st.1, true), TemplateKind::Right)
}

proof fn lemma_feature_fold_err(ls: Seq<Seq<u8>>, k: int, f: Fault)
    requires
        0 <= k <= ls.len(),
        feature_fold(ls.take(k)) == Err::<FeatureConfigState, Fault>(f),
    ensures
        feature_fold(ls) == Err::<FeatureConfigState, Fault>(f),
    decreases ls.len() - k,
{
    if k < ls.len() {
        assert(ls.take(k + 1).drop_last() =~= ls.take(k));
        lemma_feature_fold_err(ls, k + 1, f);
    } else {
        assert(ls.take(k) =~= ls);
    }
}

/// Reads the feature templates of `feature.def` and makes their extractor. A line
/// that is neither a template nor empty or a comment, a bigram line without exactly
/// one `/`, or text that is not UTF-8 is an error.
pub fn parse_feature_config(rdr: &[u8]) -> (r: Result<FeatureExtractor, VibratoError>)
    requires
        feature_fold(spec_lines(rdr@)) matches Ok(st) ==> config_indices_fit(st),
    ensures
        match (r, feature_fold(spec_lines(rdr@))) {
            (Ok(fe), Ok(st)) => {
                &&& fe.wf()
                &&& fe.templates(TemplateKind::Unigram) == parse_templates(
                    st.0,
                    TemplateKind::Unigram,
                )
                &&& fe.templates(TemplateKind::Left) == parse_templates(
                    pair_halves(st.1, false),
                    TemplateKind::Left,
                )
                &&& fe.templates(TemplateKind::Right) == parse_templates(
                    pair_halves(st.1, true),
                    TemplateKind::Right,
                )
                &&& fe.ids(TemplateKind::Unigram) == Map::<Seq<char>, u32>::empty()
                &&& fe.ids(TemplateKind::Left) == Map::<Seq<char>, u32>::empty()
                &&& fe.ids(TemplateKind::Right) == Map::<Seq<char>, u32>::empty()
            },
            (Err(e), Err(f)) => e.fault() == f,
            _ => false,
        },
{
    let uni_text = "UNIGRAM ";
    let bi_text = "BIGRAM ";
    let uni = chars_of(uni_text);
    let bi = chars_of(bi_text);
    proof {
        reveal_strlit("UNIGRAM ");
        reveal_strlit("BIGRAM ");
        assert(uni@ =~= unigram_prefix());
        assert(bi@ =~= bigram_prefix());
    }
    let ls = lines(rdr);
    let ghost lv = ls.deep_view();
    let n = ls.len();
    let mut unigrams: Vec<String> = Vec::new();
    let mut lefts: Vec<String> = Vec::new();
    let mut rights: Vec<String> = Vec::new();
    let mut k: usize = 0;
    assert(lv.take(0) =~= Seq::<Seq<u8>>::empty());
    while k < n
        invariant
            k <= n == lv.len(),
            lv == spec_lines(rdr@),
            lv == ls.deep_view(),
            uni@ == unigram_prefix(),
            bi@ == bigram_prefix(),
            lefts@.len() == rights@.len(),
            feature_fold(lv.take(k as int)) matches Ok(st) && st.0 == unigrams.deep_view()
                && pair_halves(st.1, false) == lefts.deep_view() && pair_halves(st.1, true)
                == rights.deep_view(),
        decreases n - k,
    {
        let ghost st = feature_fold(lv.take(k as int))->Ok_0;
        assert(lv.take(k + 1).drop_last() =~= lv.take(k as int));
        assert(ls[k as int]@ == lv[k as int]);
        let chars = match decode_utf8_chars(ls[k].as_slice()) {
            Ok(c) => c,
            Err(e) => {
                proof {
                    lemma_feature_fold_err(lv, k + 1, Fault::Utf8);
                }
                return Err(e);
            },
        };
        let (a, b) = trim(chars.as_slice());
        let line = slice_subrange(chars.as_slice(), a, b);
        let ghost l = spec_trim(decode_utf8(lv[k as int]));
        assert(line@ == l);
        if line.len() == 0 || line[0] == '#' {
        } else if starts_with(line, uni.as_slice()) {
            let rest = slice_subrange(line, 8, line.len());
            assert(rest@ =~= l.skip(8));
            let ghost old_u = unigrams.deep_view();
            unigrams.push(string_from_chars(rest));
            assert(unigrams.deep_view() =~= old_u.push(l.skip(8)));
        } else if starts_with(line, bi.as_slice()) {
            let rest = slice_subrange(line, 7, line.len());
            assert(rest@ =~= l.skip(7));
            let parts = split_char(rest, '/');
            if parts.len() != 2 {
                proof {
                    lemma_feature_fold_err(lv, k + 1, Fault::Format);
                }
                return Err(VibratoError::invalid_format("feature.def", "Invalid bigram template"));
            }
            assert(parts[0]@ == parts.deep_view()[0]);
            assert(parts[1]@ == parts.deep_view()[1]);
            let ghost old_l = lefts.deep_view();
            let ghost old_r = rights.deep_view();
            lefts.push(string_from_chars(parts[0].as_slice()));
            rights.push(string_from_chars(parts[1].as_slice()));
            let ghost st2 = feature_fold(lv.take(k + 1))->Ok_0;
            assert(pair_halves(st2.1, false) =~= old_l.push(parts.deep_view()[0]));
            assert(pair_halves(st2.1, true) =~= old_r.push(parts.deep_view()[1]));
            assert(lefts.deep_view() =~= old_l.push(parts.deep_view()[0]));
            assert(rights.deep_view() =~= old_r.push(parts.deep_view()[1]));
        } else {
            proof {
                lemma_feature_fold_err(lv, k + 1, Fault::Format);
            }
            return Err(VibratoError::invalid_format("feature", ""));
        }
        k = k + 1;
    }
    assert(lv.take(n as int) =~= lv);
    let ghost st = feature_fold(lv)->Ok_0;
    let mut uv: Vec<&str> = Vec::new();
    let mut i: usize = 0;
    while i < unigrams.len()
        invariant
            i <= unigrams@.len(),
            uv@.len() == i,
            forall|j: int| 0 <= j < i ==> (#[trigger] uv@[j])@ == unigrams@[j]@,
        decreases unigrams@.len() - i,
    {
        uv.push(unigrams[i].as_str());
        i = i + 1;
    }
    let mut bv: Vec<(&str, &str)> = Vec::new();
    let mut i: usize = 0;
    while i < lefts.len()
        invariant
            i <= lefts@.len() == rights@.len(),
            bv@.len() == i,
            forall|j: int|
                0 <= j < i ==> (#[trigger] bv@[j]).0@ == lefts@[j]@ && bv@[j].1@ == rights@[j]@,
        decreases lefts@.len() - i,
    {
        bv.push((lefts[i].as_str(), rights[i].as_str()));
        i = i + 1;
    }
    assert forall|j: int| 0 <= j < unigrams@.len() implies unigrams@[j]@ == unigrams.deep_view()[j] by {}
    assert(crate::trainer::feature_extractor::texts(uv@) =~= st.0);
    assert(crate::trainer::feature_extractor::halves(bv@, false) =~= pair_halves(st.1, false)) by {
        assert forall|j: int| 0 <= j < lefts@.len() implies lefts@[j]@ == lefts.deep_view()[j] by {}
    }
    assert(crate::trainer::feature_extractor::halves(bv@, true) =~= pair_halves(st.1, true)) by {
        assert forall|j: int| 0 <= j < rights@.len() implies rights@[j]@ == rights.deep_view()[j] by {}
    }
    Ok(FeatureExtractor::new(uv.as_slice(), bv.as_slice()))
}

// ---------------------------------------------------------------------
// The configuration
// ---------------------------------------------------------------------

/// The files of a training configuration are well-formed and agree: the
/// feature templates and rewrite rules read, the lexicon and `unk.def` read,
/// every `unk.def` row names a category of `char.def`, and every connection id
/// is 0 (the trainer's dictionary has a single connection id).
pub open spec fn trainer_files_ok(lex: Seq<u8>, cp: Seq<u8>, unk: Seq<u8>, ft: Seq<u8>, rw: Seq<u8>) -> bool {
    &&& feature_fold(spec_lines(ft)) is Ok
    &&& rewrite_fold(spec_lines(rw)) is Ok
    &&& lex_csv(lex) matches Ok(es)
    &&& es.len() < 0xffff_fffe
    &&& word_map_ok(es.map_values(|e: EntryView| e.0))
    &&& params_within(es.map_values(|e: EntryView| e.1), 1, 1)
    &&& char_def_ok(cp)
    &&& lex_csv(unk) matches Ok(us)
    &&& us.len() <= 0x10000
    &&& all_named(def_names(spec_lines(cp)), us)
    &&& forall|i: int| 0 <= i < us.len() ==> (#[trigger] us[i]).1.left_id < 1 && us[i].1.right_id < 1
}

/// Configuration for training: the feature extractor, the three rewriters, and a
/// dictionary of the lexicon and the unknown-word entries with one connection id,
/// together with the surfaces of the lexicon's words.
pub struct TrainerConfig {
    pub(crate) feature_extractor: FeatureExtractor,
    pub(crate) unigram_rewriter: FeatureRewriter,
    pub(crate) left_rewriter: FeatureRewriter,
    pub(crate) right_rewriter: FeatureRewriter,
    pub(crate) dict: Dictionary,
    pub(crate) surfaces: Vec<String>,
}

impl TrainerConfig {
    /// Loads a training configuration from the texts of the lexicon file,
    /// `char.def`, `unk.def`, `feature.def` and `rewrite.def`. The errors of
    /// `feature.def` come first, then those of `rewrite.def`, then those of the
    /// dictionary's parts. It succeeds on files that satisfy
    /// [`trainer_files_ok`].
    pub fn from_readers(
        lexicon_rdr: &[u8],
        char_prop_rdr: &[u8],
        unk_handler_rdr: &[u8],
        feature_templates_rdr: &[u8],
        rewrite_rules_rdr: &[u8],
    ) -> (r: Result<Self, VibratoError>)
        requires
            lexicon_rdr@.len() < usize::MAX,
            unk_handler_rdr@.len() < usize::MAX,
            feature_fold(spec_lines(feature_templates_rdr@)) matches Ok(st) ==> config_indices_fit(
                st,
            ),
            added_references_fit(spec_lines(rewrite_rules_rdr@)),
        ensures
            r matches Ok(c) ==> {
                &&& c.wf()
                &&& feature_fold(spec_lines(feature_templates_rdr@)) matches Ok(st) && {
                    &&& c.extractor().templates(TemplateKind::Unigram) == parse_templates(
                        st.0,
                        TemplateKind::Unigram,
                    )
                    &&& c.extractor().templates(TemplateKind::Left) == parse_templates(
                        pair_halves(st.1, false),
                        TemplateKind::Left,
                    )
                    &&& c.extractor().templates(TemplateKind::Right) == parse_templates(
                        pair_halves(st.1, true),
                        TemplateKind::Right,
                    )
                }
                &&& rewrite_fold(spec_lines(rewrite_rules_rdr@)) matches Ok(st) && {
                    &&& c.rewriter(TemplateKind::Unigram).rules() == st.1
                    &&& c.rewriter(TemplateKind::Left).rules() == st.2
                    &&& c.rewriter(TemplateKind::Right).rules() == st.3
                }
                &&& c.dictionary().system_view().records() == ids_of_words(c.surfaces_view())
                &&& system_read(lex_csv(lexicon_rdr@), c.dictionary())
                &&& c.surfaces_view() == (lex_csv(lexicon_rdr@)->Ok_0).map_values(|e: EntryView| e.0)
                &&& unk_def_gives(c.dictionary().char_prop_view().names(), unk_handler_rdr@, c.dictionary().unk_view())
            },
            feature_fold(spec_lines(feature_templates_rdr@)) is Ok && rewrite_fold(
                spec_lines(rewrite_rules_rdr@),
            ) is Ok ==> (lex_csv(lexicon_rdr@) matches Err(f) ==> r matches Err(e) && e.fault() == f),
            feature_fold(spec_lines(feature_templates_rdr@)) matches Err(f) ==> r matches Err(e)
                && e.fault() == f,
            feature_fold(spec_lines(feature_templates_rdr@)) is Ok ==> (rewrite_fold(
                spec_lines(rewrite_rules_rdr@),
            ) matches Err(f) ==> r matches Err(e) && e.fault() == f),
            !char_def_ok(char_prop_rdr@) ==> r is Err,
            trainer_files_ok(
                lexicon_rdr@,
                char_prop_rdr@,
                unk_handler_rdr@,
                feature_templates_rdr@,
                rewrite_rules_rdr@,
            ) ==> r is Ok,
    {
        let feature_extractor = parse_feature_config(feature_templates_rdr)?;
        let (unigram_rewriter, left_rewriter, right_rewriter) = parse_rewrite_config(
            rewrite_rules_rdr,
        )?;
        let lex_entries = Lexicon::parse_csv(lexicon_rdr, "lex.csv")?;
        proof {
            let es = entries_view(lex_entries@);
            assert(es.map_values(|e: EntryView| e.0) =~= lex_entries@.map_values(
                |e: crate::dictionary::lexicon::RawWordEntry| e.surface@,
            ));
            assert(es.map_values(|e: EntryView| e.1) =~= lex_entries@.map_values(
                |e: crate::dictionary::lexicon::RawWordEntry| e.param,
            ));
            assert(es.map_values(|e: EntryView| e.2) =~= lex_entries@.map_values(
                |e: crate::dictionary::lexicon::RawWordEntry| e.feature@,
            ));
        }
        if lex_entries.len() >= 0xffff_fffe {
            return Err(VibratoError::invalid_format("lex.csv", "too many entries"));
        }
        let connector = MatrixConnector::new(vec![0i16], 1, 1);
        let char_prop = CharProperty::from_reader(char_prop_rdr)?;
        let unk_handler = UnkHandler::from_reader(unk_handler_rdr, &char_prop)?;
        proof {
            if trainer_files_ok(
                lexicon_rdr@,
                char_prop_rdr@,
                unk_handler_rdr@,
                feature_templates_rdr@,
                rewrite_rules_rdr@,
            ) {
                lemma_unk_read_within(char_prop.names(), lex_csv(unk_handler_rdr@)->Ok_0, unk_handler, 1, 1);
            }
        }
        let dict = SystemDictionaryBuilder::build(
            &lex_entries,
            ConnectorWrapper::Matrix(connector),
            char_prop,
            unk_handler,
        )?;
        let mut surfaces: Vec<String> = Vec::new();
        let mut i: usize = 0;
        while i < lex_entries.len()
            invariant
                i <= lex_entries@.len(),
                surfaces@.len() == i,
                forall|j: int| 0 <= j < i ==> (#[trigger] surfaces@[j])@ == lex_entries@[j].surface@,
            decreases lex_entries@.len() - i,
        {
            surfaces.push(lex_entries[i].surface.clone());
            i = i + 1;
        }
        assert(surfaces.deep_view() =~= lex_entries@.map_values(
            |e: crate::dictionary::lexicon::RawWordEntry| e.surface@,
        ));
        Ok(
            Self {
                feature_extractor,
                unigram_rewriter,
                left_rewriter,
                right_rewriter,
                dict,
                surfaces,
            },
        )
    }

    /// The feature extractor.
    pub closed spec fn extractor(&self) -> FeatureExtractor {
        self.feature_extractor
    }

    /// The rewriter of the given kind of features.
    pub closed spec fn rewriter(&self, k: TemplateKind) -> FeatureRewriter {
        match k {
            TemplateKind::Unigram => self.unigram_rewriter,
            TemplateKind::Left => self.left_rewriter,
            TemplateKind::Right => self.right_rewriter,
        }
    }

    /// The dictionary.
    pub closed spec fn dictionary(&self) -> Dictionary {
        self.dict
    }

    /// The surfaces of the lexicon's words, in order.
    pub closed spec fn surfaces_view(&self) -> Seq<Seq<char>> {
        self.surfaces.deep_view()
    }

    /// The dictionary.
    pub fn dict(&self) -> (r: &Dictionary)
        ensures
            *r == self.dictionary(),
    {
        &self.dict
    }

    /// The number of the lexicon's words.
    pub fn num_surfaces(&self) -> (r: usize)
        ensures
            r == self.surfaces_view().len(),
    {
        self.surfaces.len()
    }

    /// The surface of the lexicon's `i`-th word.
    pub fn surface(&self, i: usize) -> (r: &str)
        requires
            i < self.surfaces_view().len(),
        ensures
            r@ == self.surfaces_view()[i as int],
    {
        self.surfaces[i].as_str()
    }

    /// The parts are well formed; each lexicon word has a surface that is not empty.
    pub open spec fn wf(&self) -> bool {
        &&& self.extractor().wf()
        &&& self.rewriter(TemplateKind::Unigram).wf()
        &&& self.rewriter(TemplateKind::Left).wf()
        &&& self.rewriter(TemplateKind::Right).wf()
        &&& self.dictionary().wf()
        &&& self.dictionary().system_view().params_view().len() == self.surfaces_view().len()
        &&& forall|i: int|
            0 <= i < self.surfaces_view().len() ==> (#[trigger] self.surfaces_view()[i]).len() > 0
    }

    /// Whether the extractor has room for one more extraction.
    pub fn extractor_has_room(&self) -> (r: bool)
        requires
            self.wf(),
        ensures
            r == self.extractor().room(),
    {
        self.feature_extractor.has_room()
    }

    /// Whether every reference of every rewrite rule points at a feature that the
    /// rule's pattern has.
    pub fn rewriters_ok(&self) -> (r: bool)
        requires
            self.wf(),
        ensures
            r == (references_within(self.rewriter(TemplateKind::Unigram).rules())
                && references_within(self.rewriter(TemplateKind::Left).rules())
                && references_within(self.rewriter(TemplateKind::Right).rules())),
    {
        self.unigram_rewriter.references_ok() && self.left_rewriter.references_ok()
            && self.right_rewriter.references_ok()
    }

    /// The feature set of a word with the features `features` and the character
    /// category `cate_id`: each kind of features is first rewritten by its rewriter
    /// when a rule applies, then turned into ids by the extractor, new feature strings
    /// getting new ids.
    pub fn extract_feature_set(&mut self, features: &[&str], cate_id: u32) -> (r: CrfFeatureSet)
        requires
            old(self).wf(),
            old(self).extractor().room(),
            references_within(old(self).rewriter(TemplateKind::Unigram).rules()),
            references_within(old(self).rewriter(TemplateKind::Left).rules()),
            references_within(old(self).rewriter(TemplateKind::Right).rules()),
        ensures
            final(self).wf(),
            final(self).dictionary() == old(self).dictionary(),
            final(self).surfaces_view() == old(self).surfaces_view(),
            forall|k: TemplateKind| #[trigger] final(self).rewriter(k) == old(self).rewriter(k),
            forall|k: TemplateKind|
                #[trigger] final(self).extractor().templates(k) == old(self).extractor().templates(k),
            extraction(*old(self), *final(self), texts(features@), cate_id, r),
    {
        let uni = match self.unigram_rewriter.rewrite(features) {
            Some(v) => {
                let refs = str_refs(&v);
                self.feature_extractor.extract_unigram_feature_ids(refs.as_slice(), cate_id)
            },
            None => self.feature_extractor.extract_unigram_feature_ids(features, cate_id),
        };
        let left = match self.left_rewriter.rewrite(features) {
            Some(v) => {
                let refs = str_refs(&v);
                self.feature_extractor.extract_left_feature_ids(refs.as_slice())
            },
            None => self.feature_extractor.extract_left_feature_ids(features),
        };
        let right = match self.right_rewriter.rewrite(features) {
            Some(v) => {
                let refs = str_refs(&v);
                self.feature_extractor.extract_right_feature_ids(refs.as_slice())
            },
            None => self.feature_extractor.extract_right_feature_ids(features),
        };
        feature_set_new(uni.as_slice(), right.as_slice(), left.as_slice())
    }
}

/// `after` is `before` once the feature set viewed as `v` of a word with the features `fs`
/// and the character category `cate_id` is extracted: each kind of features
/// rewritten when a rule applies, then turned into ids, new strings getting new
/// ids.
pub open spec fn extracted_as(
    before: TrainerConfig,
    after: TrainerConfig,
    fs: Seq<Seq<char>>,
    cate_id: u32,
    v: (Seq<u32>, Seq<Option<u32>>, Seq<Option<u32>>),
) -> bool {
    let e = before.extractor();
    let (uo, um) = extract_fold(
        e.templates(TemplateKind::Unigram),
        rewritten_or(before.rewriter(TemplateKind::Unigram), fs),
        cate_id,
        e.ids(TemplateKind::Unigram),
    );
    let (lo, lm) = extract_fold(
        e.templates(TemplateKind::Left),
        rewritten_or(before.rewriter(TemplateKind::Left), fs),
        0,
        e.ids(TemplateKind::Left),
    );
    let (ro, rm) = extract_fold(
        e.templates(TemplateKind::Right),
        rewritten_or(before.rewriter(TemplateKind::Right), fs),
        0,
        e.ids(TemplateKind::Right),
    );
    &&& v == set_parts(somes(uo), ro, lo)
    &&& after.extractor().ids(TemplateKind::Unigram) == um
    &&& after.extractor().ids(TemplateKind::Left) == lm
    &&& after.extractor().ids(TemplateKind::Right) == rm
}

/// [`extracted_as`] of the view of the feature set `r`.
pub open spec fn extraction(
    before: TrainerConfig,
    after: TrainerConfig,
    fs: Seq<Seq<char>>,
    cate_id: u32,
    r: CrfFeatureSet,
) -> bool {
    extracted_as(before, after, fs, cate_id, feature_set_view(r))
}

/// The features that a rewriter gives for `fs`, or `fs` when no rule applies.
pub open spec fn rewritten_or(rw: FeatureRewriter, fs: Seq<Seq<char>>) -> Seq<Seq<char>> {
    match rw.rewritten(fs) {
        Some(o) => o,
        None => fs,
    }
}

/// The strings of `v` as string slices.
pub fn str_refs(v: &Vec<String>) -> (r: Vec<&str>)
    ensures
        texts(r@) == v.deep_view(),
{
    let mut r: Vec<&str> = Vec::new();
    let mut i: usize = 0;
    while i < v.len()
        invariant
            i <= v@.len(),
            r@.len() == i,
            forall|j: int| 0 <= j < i ==> (#[trigger] r@[j])@ == v@[j]@,
        decreases v@.len() - i,
    {
        r.push(v[i].as_str());
        i = i + 1;
    }
    assert(texts(r@) =~= v.deep_view());
    r
}

} // verus!

//! Feature extraction for training: templates turn the features of a word into
//! feature strings, and each new feature string gets the next id.
//!
//! A unigram template holds `%F[n]` (the `n`-th feature), `%F?[n]` (the same, where
//! the template applies only if that feature is given and is not `*`) and `%t` (the
//! character category); a left (right) bigram template holds `%L[n]` and `%L?[n]`
//! (`%R[n]` and `%R?[n]`) in the same way. A missing feature reads as `*`.
use vstd::prelude::*;

use crate::utils::{
    chars_of, digits_value, id_map_view, lemma_digits_value_nonneg, parse_usize, str_eq, IdMap,
};

verus! {

// ---------------------------------------------------------------------
// The template language
// ---------------------------------------------------------------------

/// The three kinds of templates.
#[derive(Clone, Copy)]
pub enum TemplateKind {
    /// Unigram templates: `%F[n]`, `%F?[n]` and `%t`.
    Unigram,
    /// Left bigram templates: `%L[n]` and `%L?[n]`.
    Left,
    /// Right bigram templates: `%R[n]` and `%R?[n]`.
    Right,
}

/// The letter of a feature reference in templates of kind `k`.
pub open spec fn kind_letter(k: TemplateKind) -> char {
    match k {
        TemplateKind::Unigram => 'F',
        TemplateKind::Left => 'L',
        TemplateKind::Right => 'R',
    }
}

/// The regular expression that finds the references in templates of kind `k`:
/// `%((F|F\?)\[([0-9]+)\]|t)`, `%(L|L\?)\[([0-9]+)\]` or `%(R|R\?)\[([0-9]+)\]`.
pub open spec fn template_regex(k: TemplateKind) -> Seq<char> {
    match k {
        TemplateKind::Unigram => seq![
            '%',
            '(',
            '(',
            'F',
            '|',
            'F',
            '\\',
            '?',
            ')',
            '\\',
            '[',
            '(',
            '[',
            '0',
            '-',
            '9',
            ']',
            '+',
            ')',
            '\\',
            ']',
            '|',
            't',
            ')',
        ],
        _ => seq![
            '%',
            '(',
            kind_letter(k),
            '|',
            kind_letter(k),
            '\\',
            '?',
            ')',
            '\\',
            '[',
            '(',
            '[',
            '0',
            '-',
            '9',
            ']',
            '+',
            ')',
            '\\',
            ']',
        ],
    }
}

/// The number of ASCII digits in `t` from position `j` on, up to the first other
/// character.
pub open spec fn digit_run(t: Seq<char>, j: int) -> int
    decreases t.len() - j,
{
    if 0 <= j < t.len() && '0' <= t[j] <= '9' {
        1 + digit_run(t, j + 1)
    } else {
        0
    }
}

/// A reference found in a template.
pub struct TemplateMatch {
    /// Where it ends.
    pub end: int,
    /// It is written with `?`.
    pub optional: bool,
    /// The digits of the feature index; none for `%t`.
    pub digits: Option<Seq<char>>,
}

/// The reference that starts at position `i` of `t`, if one does: `%` and then
/// `t` (unigram templates only), or the letter, an optional `?`, `[`, one or more
/// ASCII digits and `]`.
pub open spec fn match_at(t: Seq<char>, i: int, k: TemplateKind) -> Option<TemplateMatch> {
    if !(0 <= i && i + 1 < t.len() && t[i] == '%') {
        None
    } else if k is Unigram && t[i + 1] == 't' {
        Some(TemplateMatch { end: i + 2, optional: false, digits: None })
    } else if t[i + 1] != kind_letter(k) || i + 2 >= t.len() {
        None
    } else {
        let opt = t[i + 2] == '?';
        let open = if opt {
            i + 3
        } else {
            i + 2
        };
        let n = digit_run(t, open + 1);
        if open < t.len() && t[open] == '[' && n > 0 && open + 1 + n < t.len() && t[open + 1
            + n] == ']' {
            Some(
                TemplateMatch {
                    end: open + n + 2,
                    optional: opt,
                    digits: Some(t.subrange(open + 1, open + 1 + n)),
                },
            )
        } else {
            None
        }
    }
}

pub proof fn lemma_digit_run(t: Seq<char>, j: int)
    ensures
        0 <= digit_run(t, j),
        0 <= j ==> j + digit_run(t, j) <= t.len() || digit_run(t, j) == 0,
        forall|x: int| j <= x < j + digit_run(t, j) ==> '0' <= #[trigger] t[x] <= '9',
    decreases t.len() - j,
{
    if 0 <= j < t.len() && '0' <= t[j] <= '9' {
        lemma_digit_run(t, j + 1);
    }
}

pub proof fn lemma_match_end(t: Seq<char>, i: int, k: TemplateKind)
    ensures
        match_at(t, i, k) matches Some(m) ==> i + 2 <= m.end <= t.len(),
{
    if 0 <= i && i + 2 < t.len() {
        lemma_digit_run(t, i + 3);
        lemma_digit_run(t, i + 4);
    }
}

/// The references of `t` from position `p` on, found from left to right without
/// overlapping, each with its start.
pub open spec fn matches_from(t: Seq<char>, p: int, k: TemplateKind) -> Seq<(int, TemplateMatch)>
    decreases t.len() - p,
{
    if p < 0 || p >= t.len() {
        seq![]
    } else {
        match match_at(t, p, k) {
            Some(m) => {
                proof {
                    lemma_match_end(t, p, k);
                }
                seq![(p, m)] + matches_from(t, m.end, k)
            },
            None => matches_from(t, p + 1, k),
        }
    }
}

/// The texts around the references that [`matches_from`] finds from position `p`
/// on, the first one starting at `last`: one more than the references.
pub open spec fn split_from(t: Seq<char>, last: int, p: int, k: TemplateKind) -> Seq<Seq<char>>
    decreases t.len() - p,
{
    if p < 0 || p >= t.len() {
        seq![t.subrange(last, t.len() as int)]
    } else {
        match match_at(t, p, k) {
            Some(m) => {
                proof {
                    lemma_match_end(t, p, k);
                }
                seq![t.subrange(last, p)] + split_from(t, m.end, m.end, k)
            },
            None => split_from(t, last, p + 1, k),
        }
    }
}

/// The groups of the regular expression, from the first on, for a reference found
/// at `s`.
pub open spec fn match_groups(t: Seq<char>, s: int, m: TemplateMatch, k: TemplateKind) -> Seq<
    Option<Seq<char>>,
> {
    let letter = if m.optional {
        seq![kind_letter(k), '?']
    } else {
        seq![kind_letter(k)]
    };
    match k {
        TemplateKind::Unigram => if m.digits is None {
            seq![Some(seq!['t']), None, None]
        } else {
            seq![Some(t.subrange(s + 1, m.end)), Some(letter), m.digits]
        },
        _ => seq![Some(letter), m.digits],
    }
}

/// The groups of every reference of `t`, in order.
pub open spec fn all_groups(t: Seq<char>, k: TemplateKind) -> Seq<Seq<Option<Seq<char>>>> {
    let ms = matches_from(t, 0, k);
    Seq::new(ms.len(), |i: int| match_groups(t, ms[i].0, ms[i].1, k))
}

/// What one reference of a template stands for.
pub enum FeatSpec {
    /// The feature at this index (from 0).
    Index(int),
    /// The character category.
    CharacterType,
}

/// A template read: the texts around the references (one more than these), the
/// references, and the indices that must be given and not be `*`, in order.
pub struct TemplateSpec {
    pub pieces: Seq<Seq<char>>,
    pub feats: Seq<FeatSpec>,
    pub required: Seq<int>,
}

/// What a reference stands for.
pub open spec fn feat_of(m: TemplateMatch) -> FeatSpec {
    match m.digits {
        Some(d) => FeatSpec::Index(digits_value(d, 10)),
        None => FeatSpec::CharacterType,
    }
}

/// The indices of the references written with `?`, in order.
pub open spec fn required_of(ms: Seq<(int, TemplateMatch)>) -> Seq<int>
    decreases ms.len(),
{
    if ms.len() == 0 {
        seq![]
    } else {
        let rest = required_of(ms.drop_last());
        let m = ms.last().1;
        if m.optional {
            rest.push(digits_value(m.digits->0, 10))
        } else {
            rest
        }
    }
}

/// The template `t` of kind `k`, read.
pub open spec fn parse_template(t: Seq<char>, k: TemplateKind) -> TemplateSpec {
    let ms = matches_from(t, 0, k);
    TemplateSpec {
        pieces: split_from(t, 0, 0, k),
        feats: Seq::new(ms.len(), |i: int| feat_of(ms[i].1)),
        required: required_of(ms),
    }
}

/// Every feature index of the template `t` fits in a `usize`.
pub open spec fn template_indices_fit(t: Seq<char>, k: TemplateKind) -> bool {
    let ms = matches_from(t, 0, k);
    forall|i: int|
        0 <= i < ms.len() ==> ((#[trigger] ms[i]).1.digits matches Some(d) ==> digits_value(d, 10)
            <= usize::MAX)
}

// ---------------------------------------------------------------------
// The regular expressions
// ---------------------------------------------------------------------

/// `regex::Regex::new(pattern)` followed by `Regex::captures_iter(template)`, for the
/// three template patterns: the successive non-overlapping matches from left to
/// right, each with the texts of its groups from the first on (`None` for a group
/// that took no part). Each pattern starts with `%`, takes `t` (unigram only) or
/// its letter, an optional `?` and `[digits]` after it, and prefers the first
/// alternative; a match there is as [`match_at`] has it. The pattern is compiled on
/// every call.
#[verifier::external_body]
fn template_captures(pattern: &str, kind: TemplateKind, template: &str) -> (r: Vec<
    Vec<Option<String>>,
>)
    requires
        pattern@ == template_regex(kind),
    ensures
        r.deep_view() == all_groups(template@, kind),
{
    let re = regex::Regex::new(pattern).unwrap();
    re.captures_iter(template).map(|c| (1..c.len()).map(|g| c.get(g).map(|m| m.as_str().to_string())).collect()).collect()
}

/// `regex::Regex::new(pattern)` followed by `Regex::split(template)`: the texts
/// between the successive matches of the pattern, one more than the matches (the
/// text before the first, between each two, and after the last, each possibly
/// empty). The pattern is compiled on every call.
#[verifier::external_body]
fn template_split(pattern: &str, kind: TemplateKind, template: &str) -> (r: Vec<String>)
    requires
        pattern@ == template_regex(kind),
    ensures
        r.deep_view() == split_from(template@, 0, 0, kind),
{
    let re = regex::Regex::new(pattern).unwrap();
    re.split(template).map(|s| s.to_string()).collect()
}

// ---------------------------------------------------------------------
// Reading templates
// ---------------------------------------------------------------------

/// Each element of [`matches_from`] is a reference at its start.
proof fn lemma_matches_from(t: Seq<char>, p: int, k: TemplateKind)
    ensures
        forall|i: int|
            0 <= i < matches_from(t, p, k).len() ==> match_at(t, (#[trigger] matches_from(t, p, k)[i]).0, k)
                == Some(matches_from(t, p, k)[i].1),
    decreases t.len() - p,
{
    if 0 <= p < t.len() {
        lemma_match_end(t, p, k);
        match match_at(t, p, k) {
            Some(m) => {
                lemma_matches_from(t, m.end, k);
                let rest = matches_from(t, m.end, k);
                assert forall|i: int| 0 <= i < matches_from(t, p, k).len() implies match_at(
                    t,
                    (#[trigger] matches_from(t, p, k)[i]).0,
                    k,
                ) == Some(matches_from(t, p, k)[i].1) by {
                    if i > 0 {
                        assert(matches_from(t, p, k)[i] == rest[i - 1]);
                    }
                }
            },
            None => {
                lemma_matches_from(t, p + 1, k);
            },
        }
    }
}

/// The digits of a reference are one or more ASCII digits; a unigram reference other
/// than `%t` starts with `F` after the `%`.
proof fn lemma_match_digits(t: Seq<char>, i: int, k: TemplateKind)
    ensures
        match_at(t, i, k) matches Some(m) ==> (m.digits matches Some(d) ==> d.len() > 0
            && crate::utils::all_digits(d, 10) && t[i + 1] == kind_letter(k) && t.subrange(
            i + 1,
            m.end,
        )[0] == kind_letter(k)),
{
    if 0 <= i && i + 2 < t.len() {
        lemma_digit_run(t, i + 3);
        lemma_digit_run(t, i + 4);
        if let Some(m) = match_at(t, i, k) {
            if let Some(d) = m.digits {
                assert forall|x: int| 0 <= x < d.len() implies #[trigger] crate::utils::digit_of(
                    d[x],
                    10,
                ) >= 0 by {
                    let open = if t[i + 2] == '?' {
                        i + 3
                    } else {
                        i + 2
                    };
                    assert(d[x] == t[open + 1 + x]);
                }
            }
        }
    }
}

/// What a reference of a read template stands for.
enum FeatureType {
    Index(usize),
    CharacterType,
}

impl FeatureType {
    spec fn view(&self) -> FeatSpec {
        match self {
            FeatureType::Index(i) => FeatSpec::Index(*i as int),
            FeatureType::CharacterType => FeatSpec::CharacterType,
        }
    }
}

/// A template read.
struct ParsedTemplate {
    pieces: Vec<String>,
    captures: Vec<FeatureType>,
    required_indices: Vec<usize>,
}

spec fn feats_view(c: Seq<FeatureType>) -> Seq<FeatSpec> {
    Seq::new(c.len(), |i: int| c[i].view())
}

spec fn indices_view(c: Seq<usize>) -> Seq<int> {
    Seq::new(c.len(), |i: int| c[i] as int)
}

impl ParsedTemplate {
    spec fn view(&self) -> TemplateSpec {
        TemplateSpec {
            pieces: self.pieces.deep_view(),
            feats: feats_view(self.captures@),
            required: indices_view(self.required_indices@),
        }
    }
}

/// Reads a template of kind `kind`.
fn read_template(template: &str, kind: TemplateKind) -> (r: ParsedTemplate)
    requires
        template_indices_fit(template@, kind),
    ensures
        r.view() == parse_template(template@, kind),
        r.pieces@.len() == r.captures@.len() + 1,
{
    let pattern = match kind {
        TemplateKind::Unigram => "%((F|F\\?)\\[([0-9]+)\\]|t)",
        TemplateKind::Left => "%(L|L\\?)\\[([0-9]+)\\]",
        TemplateKind::Right => "%(R|R\\?)\\[([0-9]+)\\]",
    };
    proof {
        reveal_strlit("%((F|F\\?)\\[([0-9]+)\\]|t)");
        reveal_strlit("%(L|L\\?)\\[([0-9]+)\\]");
        reveal_strlit("%(R|R\\?)\\[([0-9]+)\\]");
        assert(pattern@ =~= template_regex(kind));
    }
    let caps = template_captures(pattern, kind, template);
    let pieces = template_split(pattern, kind, template);
    let ghost t = template@;
    let ghost ms = matches_from(t, 0, kind);
    proof {
        lemma_matches_from(t, 0, kind);
    }
    let mut captures: Vec<FeatureType> = Vec::new();
    let mut required: Vec<usize> = Vec::new();
    let mut i: usize = 0;
    assert(ms.take(0) =~= Seq::<(int, TemplateMatch)>::empty());
    assert(caps.deep_view().len() == caps@.len());
    assert(all_groups(t, kind).len() == ms.len());
    assert(feats_view(captures@) =~= Seq::new(0, |x: int| feat_of(ms[x].1)));
    while i < caps.len()
        invariant
            t == template@,
            ms == matches_from(t, 0, kind),
            caps.deep_view() == all_groups(t, kind),
            template_indices_fit(t, kind),
            forall|x: int|
                0 <= x < ms.len() ==> match_at(t, (#[trigger] ms[x]).0, kind) == Some(ms[x].1),
            i <= caps@.len() == ms.len(),
            captures@.len() == i,
            feats_view(captures@) == Seq::new(i as nat, |x: int| feat_of(ms[x].1)),
            indices_view(required@) == required_of(ms.take(i as int)),
        decreases caps@.len() - i,
    {
        let ghost s0 = ms[i as int].0;
        let ghost m = ms[i as int].1;
        proof {
            lemma_match_digits(t, s0, kind);
        }
        let g = &caps[i];
        assert(caps.deep_view()[i as int] == caps@[i as int].deep_view());
        assert(g.deep_view() == match_groups(t, s0, m, kind));
        let ghost old_caps = captures@;
        let mut is_type = false;
        if let TemplateKind::Unigram = kind {
            if let Some(g0) = &g[0] {
                let c = chars_of(g0.as_str());
                assert(c@ == g.deep_view()[0]->0);
                is_type = c.len() == 1 && c[0] == 't';
            }
        }
        assert(is_type <==> m.digits is None);
        let ghost old_req = indices_view(required@);
        assert(ms.take(i + 1).drop_last() =~= ms.take(i as int));
        if is_type {
            captures.push(FeatureType::CharacterType);
        } else {
            let (gl, gd) = match kind {
                TemplateKind::Unigram => (&g[1], &g[2]),
                _ => (&g[0], &g[1]),
            };
            let d = match gd {
                Some(d) => d,
                None => {
                    assert(false);
                    return ParsedTemplate { pieces, captures, required_indices: required };
                },
            };
            let dc = chars_of(d.as_str());
            let ghost dv = m.digits->0;
            assert(dc@ == dv);
            proof {
                lemma_digits_value_nonneg(dv, 10);
                assert(dv[0] != '+') by {
                    assert(crate::utils::digit_of(dv[0], 10) >= 0);
                }
            }
            let idx = match parse_usize(dc.as_slice(), 10) {
                Ok(v) => v,
                Err(_) => {
                    assert(false);
                    0
                },
            };
            let optional = match gl {
                Some(l) => chars_of(l.as_str()).len() == 2,
                None => false,
            };
            assert(optional == m.optional);
            assert(idx as int == digits_value(dv, 10));
            if optional {
                required.push(idx);
            }
            captures.push(FeatureType::Index(idx));
        }
        assert(captures@ == old_caps.push(captures@[i as int]));
        assert(captures@[i as int].view() == feat_of(m));
        assert forall|x: int| 0 <= x < i + 1 implies feats_view(captures@)[x] == feat_of(ms[x].1) by {
            if x < i {
                assert(captures@[x] == old_caps[x]);
                assert(feats_view(old_caps)[x] == feat_of(ms[x].1));
            }
        }
        assert(feats_view(captures@) =~= Seq::new((i + 1) as nat, |x: int| feat_of(ms[x].1)));
        assert(indices_view(required@) =~= required_of(ms.take(i + 1)));
        i = i + 1;
    }
    assert(ms.take(ms.len() as int) =~= ms);
    proof {
        lemma_split_len(t, 0, 0, kind);
    }
    assert(pieces.deep_view().len() == pieces@.len());
    let r = ParsedTemplate { pieces, captures, required_indices: required };
    assert(r.view().feats =~= parse_template(t, kind).feats);
    r
}

/// Texts around the references are one more than the references.
proof fn lemma_split_len(t: Seq<char>, last: int, p: int, k: TemplateKind)
    ensures
        split_from(t, last, p, k).len() == matches_from(t, p, k).len() + 1,
    decreases t.len() - p,
{
    if 0 <= p < t.len() {
        lemma_match_end(t, p, k);
        match match_at(t, p, k) {
            Some(m) => lemma_split_len(t, m.end, m.end, k),
            None => lemma_split_len(t, last, p + 1, k),
        }
    }
}

// ---------------------------------------------------------------------
// Feature strings and their ids
// ---------------------------------------------------------------------

/// The character of a decimal digit.
pub open spec fn digit_char(d: int) -> char {
    seq!['0', '1', '2', '3', '4', '5', '6', '7', '8', '9'][d]
}

/// `n` written in decimal, as `u32::to_string` writes it.
pub open spec fn decimal(n: nat) -> Seq<char>
    decreases n,
{
    if n < 10 {
        seq![digit_char(n as int)]
    } else {
        decimal(n / 10).push(digit_char((n % 10) as int))
    }
}

/// The text that a reference gives for the features `fs` and the category `cate`;
/// a missing feature reads as `*`.
pub open spec fn feat_text(f: FeatSpec, fs: Seq<Seq<char>>, cate: u32) -> Seq<char> {
    match f {
        FeatSpec::Index(i) => if 0 <= i < fs.len() {
            fs[i]
        } else {
            seq!['*']
        },
        FeatSpec::CharacterType => decimal(cate as nat),
    }
}

/// The template filled in up to its `k`-th reference and the text after it.
pub open spec fn fill(pt: TemplateSpec, fs: Seq<Seq<char>>, cate: u32, k: int) -> Seq<char>
    decreases k,
{
    if k <= 0 {
        pt.pieces[0]
    } else {
        fill(pt, fs, cate, k - 1) + feat_text(pt.feats[k - 1], fs, cate) + pt.pieces[k]
    }
}

/// The feature string of a template for the features `fs` and the category `cate`.
pub open spec fn feature_string(pt: TemplateSpec, fs: Seq<Seq<char>>, cate: u32) -> Seq<char> {
    fill(pt, fs, cate, pt.feats.len() as int)
}

/// A template applies to `fs` when each of its required features is given and is
/// not `*`.
pub open spec fn applies(pt: TemplateSpec, fs: Seq<Seq<char>>) -> bool {
    forall|x: int|
        0 <= x < pt.required.len() ==> 0 <= #[trigger] pt.required[x] < fs.len() && fs[pt.required[x]]
            != seq!['*']
}

/// The ids that the templates `pts` give for `fs` in turn, `None` where a template
/// does not apply, with the map from feature strings to ids that starts as `ids`:
/// a feature string already there keeps its id, a new one gets the number of
/// strings plus one.
pub open spec fn extract_fold(
    pts: Seq<TemplateSpec>,
    fs: Seq<Seq<char>>,
    cate: u32,
    ids: Map<Seq<char>, u32>,
) -> (Seq<Option<u32>>, Map<Seq<char>, u32>)
    decreases pts.len(),
{
    if pts.len() == 0 {
        (seq![], ids)
    } else {
        let (out, m) = extract_fold(pts.drop_last(), fs, cate, ids);
        let pt = pts.last();
        if !applies(pt, fs) {
            (out.push(None), m)
        } else {
            let s = feature_string(pt, fs, cate);
            if m.contains_key(s) {
                (out.push(Some(m[s])), m)
            } else {
                let id = (m.dom().len() + 1) as u32;
                (out.push(Some(id)), m.insert(s, id))
            }
        }
    }
}

/// The ids of the entries that have one, in order.
pub open spec fn somes(s: Seq<Option<u32>>) -> Seq<u32>
    decreases s.len(),
{
    if s.len() == 0 {
        seq![]
    } else {
        match s.last() {
            Some(x) => somes(s.drop_last()).push(x),
            None => somes(s.drop_last()),
        }
    }
}

/// The features of a slice of strings.
pub open spec fn texts(fs: Seq<&str>) -> Seq<Seq<char>> {
    Seq::new(fs.len(), |i: int| fs[i]@)
}

/// `n` in decimal.
fn decimal_chars(n: u32) -> (r: Vec<char>)
    ensures
        r@ == decimal(n as nat),
    decreases n,
{
    let digits = ['0', '1', '2', '3', '4', '5', '6', '7', '8', '9'];
    assert(digits@ =~= seq!['0', '1', '2', '3', '4', '5', '6', '7', '8', '9']);
    if n < 10 {
        let mut v: Vec<char> = Vec::new();
        v.push(digits[n as usize]);
        assert(v@ =~= decimal(n as nat));
        v
    } else {
        let mut v = decimal_chars(n / 10);
        v.push(digits[(n % 10) as usize]);
        v
    }
}

/// Appends the characters of `s` to `v`.
fn push_chars(v: &mut Vec<char>, s: &str)
    ensures
        final(v)@ == old(v)@ + s@,
{
    let c = chars_of(s);
    let mut i: usize = 0;
    let ghost v0 = v@;
    while i < c.len()
        invariant
            i <= c@.len(),
            c@ == s@,
            v@ == v0 + c@.take(i as int),
        decreases c@.len() - i,
    {
        v.push(c[i]);
        i = i + 1;
        assert(v@ =~= v0 + c@.take(i as int));
    }
    assert(c@.take(c@.len() as int) =~= c@);
}

/// The templates' texts around their references are one more than these.
spec fn templates_wf(ts: Seq<ParsedTemplate>) -> bool {
    forall|i: int|
        0 <= i < ts.len() ==> (#[trigger] ts[i]).pieces@.len() == ts[i].captures@.len() + 1
}

/// The views of templates.
spec fn templates_view(ts: Seq<ParsedTemplate>) -> Seq<TemplateSpec> {
    Seq::new(ts.len(), |i: int| ts[i].view())
}

/// Whether a template applies to the features.
fn template_applies(pt: &ParsedTemplate, features: &[&str]) -> (r: bool)
    ensures
        r == applies(pt.view(), texts(features@)),
{
    let star = "*";
    proof {
        reveal_strlit("*");
        assert(star@ =~= seq!['*']);
    }
    let mut i: usize = 0;
    while i < pt.required_indices.len()
        invariant
            i <= pt.required_indices@.len(),
            star@ == seq!['*'],
            forall|x: int|
                0 <= x < i ==> 0 <= #[trigger] pt.view().required[x] < features@.len()
                    && features@[pt.view().required[x]]@ != seq!['*'],
        decreases pt.required_indices@.len() - i,
    {
        let idx = pt.required_indices[i];
        assert(pt.view().required[i as int] == idx);
        if idx >= features.len() || str_eq(features[idx], star) {
            return false;
        }
        i = i + 1;
    }
    assert forall|x: int| 0 <= x < pt.view().required.len() implies 0 <= #[trigger] pt.view().required[x]
        < texts(features@).len() && texts(features@)[pt.view().required[x]] != seq!['*'] by {}
    true
}

/// The feature string of a template.
fn template_string(pt: &ParsedTemplate, features: &[&str], category_id: u32) -> (r: String)
    requires
        pt.pieces@.len() == pt.captures@.len() + 1,
    ensures
        r@ == feature_string(pt.view(), texts(features@), category_id),
{
    let ghost pv = pt.view();
    let ghost fs = texts(features@);
    let mut v: Vec<char> = Vec::new();
    assert(pt.pieces@[0]@ == pv.pieces[0]);
    push_chars(&mut v, pt.pieces[0].as_str());
    assert(v@ =~= fill(pv, fs, category_id, 0));
    let mut k: usize = 0;
    while k < pt.captures.len()
        invariant
            pt.pieces@.len() == pt.captures@.len() + 1,
            pv == pt.view(),
            fs == texts(features@),
            k <= pt.captures@.len(),
            v@ == fill(pv, fs, category_id, k as int),
        decreases pt.captures@.len() - k,
    {
        let ghost before = v@;
        assert(pv.feats[k as int] == pt.captures@[k as int].view());
        match &pt.captures[k] {
            FeatureType::Index(idx) => {
                if *idx < features.len() {
                    push_chars(&mut v, features[*idx]);
                } else {
                    v.push('*');
                }
            },
            FeatureType::CharacterType => {
                let d = decimal_chars(category_id);
                let mut j: usize = 0;
                let ghost b = v@;
                while j < d.len()
                    invariant
                        j <= d@.len(),
                        v@ == b + d@.take(j as int),
                    decreases d@.len() - j,
                {
                    v.push(d[j]);
                    j = j + 1;
                    assert(v@ =~= b + d@.take(j as int));
                }
                assert(d@.take(d@.len() as int) =~= d@);
            },
        }
        assert(v@ =~= before + feat_text(pv.feats[k as int], fs, category_id));
        assert(pt.pieces@[k + 1]@ == pv.pieces[k + 1]);
        push_chars(&mut v, pt.pieces[k + 1].as_str());
        k = k + 1;
    }
    crate::utils::string_from_chars(v.as_slice())
}

/// The ids that `templates` give for `features`, registering new feature strings in
/// `feature_ids`.
fn extract_feature_ids(
    features: &[&str],
    templates: &Vec<ParsedTemplate>,
    feature_ids: &mut IdMap,
    category_id: u32,
) -> (r: Vec<Option<u32>>)
    requires
        templates_wf(templates@),
        id_map_view(*old(feature_ids)).dom().finite(),
        id_map_view(*old(feature_ids)).dom().len() + templates@.len() <= u32::MAX,
    ensures
        id_map_view(*final(feature_ids)).dom().finite(),
        id_map_view(*final(feature_ids)).dom().len() <= id_map_view(*old(feature_ids)).dom().len()
            + templates@.len(),
        (r@, id_map_view(*final(feature_ids))) == extract_fold(
            templates_view(templates@),
            texts(features@),
            category_id,
            id_map_view(*old(feature_ids)),
        ),
{
    let ghost pts = templates_view(templates@);
    let ghost fs = texts(features@);
    let ghost ids0 = id_map_view(*feature_ids);
    let mut result: Vec<Option<u32>> = Vec::new();
    let mut k: usize = 0;
    assert(pts.take(0) =~= Seq::<TemplateSpec>::empty());
    while k < templates.len()
        invariant
            templates_wf(templates@),
            pts == templates_view(templates@),
            fs == texts(features@),
            k <= templates@.len(),
            ids0.dom().finite(),
            ids0.dom().len() + templates@.len() <= u32::MAX,
            id_map_view(*feature_ids).dom().finite(),
            id_map_view(*feature_ids).dom().len() <= ids0.dom().len() + k,
            (result@, id_map_view(*feature_ids)) == extract_fold(pts.take(k as int), fs, category_id, ids0),
        decreases templates@.len() - k,
    {
        assert(pts.take(k + 1).drop_last() =~= pts.take(k as int));
        let pt = &templates[k];
        assert(pts.take(k + 1).last() == pt.view());
        assert(pt.pieces@.len() == pt.captures@.len() + 1);
        if !template_applies(pt, features) {
            result.push(None);
        } else {
            let s = template_string(pt, features, category_id);
            match feature_ids.get(s.as_str()) {
                Some(id) => {
                    result.push(Some(id));
                },
                None => {
                    let n = feature_ids.len();
                    let id = (n + 1) as u32;
                    feature_ids.insert(s, id);
                    result.push(Some(id));
                },
            }
        }
        k = k + 1;
    }
    assert(pts.take(templates@.len() as int) =~= pts);
    result
}

// ---------------------------------------------------------------------
// The extractor
// ---------------------------------------------------------------------

/// The templates of all texts in `ts` have indices that fit in a `usize`.
pub open spec fn all_indices_fit(ts: Seq<Seq<char>>, k: TemplateKind) -> bool {
    forall|i: int| 0 <= i < ts.len() ==> template_indices_fit(#[trigger] ts[i], k)
}

/// The templates of all texts in `ts`, read.
pub open spec fn parse_templates(ts: Seq<Seq<char>>, k: TemplateKind) -> Seq<TemplateSpec> {
    Seq::new(ts.len(), |i: int| parse_template(ts[i], k))
}

/// The left (right) halves of pairs of texts.
pub open spec fn halves(ts: Seq<(&str, &str)>, right: bool) -> Seq<Seq<char>> {
    Seq::new(
        ts.len(),
        |i: int|
            if right {
                ts[i].1@
            } else {
                ts[i].0@
            },
    )
}

/// Extractor of feature ids by templates, which numbers each kind of feature
/// strings from 1 in the order in which they first come.
pub struct FeatureExtractor {
    unigram_feature_ids: IdMap,
    left_feature_ids: IdMap,
    right_feature_ids: IdMap,
    unigram_templates: Vec<ParsedTemplate>,
    left_templates: Vec<ParsedTemplate>,
    right_templates: Vec<ParsedTemplate>,
}

impl FeatureExtractor {
    /// The extractor's maps are finite and its templates well formed.
    pub closed spec fn wf(&self) -> bool {
        &&& ids_dense(id_map_view(self.unigram_feature_ids))
        &&& ids_dense(id_map_view(self.left_feature_ids))
        &&& ids_dense(id_map_view(self.right_feature_ids))
        &&& templates_wf(self.unigram_templates@)
        &&& templates_wf(self.left_templates@)
        &&& templates_wf(self.right_templates@)
    }

    /// The templates of the given kind, read.
    pub closed spec fn templates(&self, k: TemplateKind) -> Seq<TemplateSpec> {
        match k {
            TemplateKind::Unigram => templates_view(self.unigram_templates@),
            TemplateKind::Left => templates_view(self.left_templates@),
            TemplateKind::Right => templates_view(self.right_templates@),
        }
    }

    /// The ids given so far to feature strings of the given kind.
    pub closed spec fn ids(&self, k: TemplateKind) -> Map<Seq<char>, u32> {
        match k {
            TemplateKind::Unigram => id_map_view(self.unigram_feature_ids),
            TemplateKind::Left => id_map_view(self.left_feature_ids),
            TemplateKind::Right => id_map_view(self.right_feature_ids),
        }
    }

    /// Creates an extractor of the unigram templates and the pairs of left and right
    /// bigram templates, with no ids given yet.
    pub fn new(unigram_templates: &[&str], bigram_templates: &[(&str, &str)]) -> (r: Self)
        requires
            all_indices_fit(texts(unigram_templates@), TemplateKind::Unigram),
            all_indices_fit(halves(bigram_templates@, false), TemplateKind::Left),
            all_indices_fit(halves(bigram_templates@, true), TemplateKind::Right),
        ensures
            r.wf(),
            r.templates(TemplateKind::Unigram) == parse_templates(
                texts(unigram_templates@),
                TemplateKind::Unigram,
            ),
            r.templates(TemplateKind::Left) == parse_templates(
                halves(bigram_templates@, false),
                TemplateKind::Left,
            ),
            r.templates(TemplateKind::Right) == parse_templates(
                halves(bigram_templates@, true),
                TemplateKind::Right,
            ),
            r.ids(TemplateKind::Unigram) == Map::<Seq<char>, u32>::empty(),
            r.ids(TemplateKind::Left) == Map::<Seq<char>, u32>::empty(),
            r.ids(TemplateKind::Right) == Map::<Seq<char>, u32>::empty(),
    {
        let mut uni: Vec<ParsedTemplate> = Vec::new();
        let mut i: usize = 0;
        while i < unigram_templates.len()
            invariant
                i <= unigram_templates@.len(),
                all_indices_fit(texts(unigram_templates@), TemplateKind::Unigram),
                templates_wf(uni@),
                templates_view(uni@) == parse_templates(texts(unigram_templates@), TemplateKind::Unigram).take(
                    i as int,
                ),
            decreases unigram_templates@.len() - i,
        {
            assert(unigram_templates@[i as int]@ == texts(unigram_templates@)[i as int]);
            let t = read_template(unigram_templates[i], TemplateKind::Unigram);
            proof {
                lemma_split_len(unigram_templates@[i as int]@, 0, 0, TemplateKind::Unigram);
            }
            let ghost old_v = uni@;
            uni.push(t);
            assert(templates_view(uni@) =~= templates_view(old_v).push(uni@.last().view()));
            assert(templates_view(uni@) =~= parse_templates(
                texts(unigram_templates@),
                TemplateKind::Unigram,
            ).take(i + 1));
            i = i + 1;
        }
        let mut left: Vec<ParsedTemplate> = Vec::new();
        let mut right: Vec<ParsedTemplate> = Vec::new();
        let ghost lh = halves(bigram_templates@, false);
        let ghost rh = halves(bigram_templates@, true);
        let mut i: usize = 0;
        while i < bigram_templates.len()
            invariant
                i <= bigram_templates@.len(),
                lh == halves(bigram_templates@, false),
                rh == halves(bigram_templates@, true),
                all_indices_fit(lh, TemplateKind::Left),
                all_indices_fit(rh, TemplateKind::Right),
                templates_wf(left@),
                templates_wf(right@),
                templates_view(left@) == parse_templates(lh, TemplateKind::Left).take(i as int),
                templates_view(right@) == parse_templates(rh, TemplateKind::Right).take(i as int),
            decreases bigram_templates@.len() - i,
        {
            let (lt, rt) = bigram_templates[i];
            assert(lt@ == lh[i as int] && rt@ == rh[i as int]);
            let l = read_template(lt, TemplateKind::Left);
            let r = read_template(rt, TemplateKind::Right);
            proof {
                lemma_split_len(lt@, 0, 0, TemplateKind::Left);
                lemma_split_len(rt@, 0, 0, TemplateKind::Right);
            }
            let ghost old_l = left@;
            let ghost old_r = right@;
            left.push(l);
            right.push(r);
            assert(templates_view(left@) =~= templates_view(old_l).push(left@.last().view()));
            assert(templates_view(right@) =~= templates_view(old_r).push(right@.last().view()));
            assert(templates_view(left@) =~= parse_templates(lh, TemplateKind::Left).take(i + 1));
            assert(templates_view(right@) =~= parse_templates(rh, TemplateKind::Right).take(i + 1));
            i = i + 1;
        }
        assert(parse_templates(texts(unigram_templates@), TemplateKind::Unigram).take(
            unigram_templates@.len() as int,
        ) =~= parse_templates(texts(unigram_templates@), TemplateKind::Unigram));
        assert(parse_templates(lh, TemplateKind::Left).take(bigram_templates@.len() as int)
            =~= parse_templates(lh, TemplateKind::Left));
        assert(parse_templates(rh, TemplateKind::Right).take(bigram_templates@.len() as int)
            =~= parse_templates(rh, TemplateKind::Right));
        Self {
            unigram_feature_ids: IdMap::new(),
            left_feature_ids: IdMap::new(),
            right_feature_ids: IdMap::new(),
            unigram_templates: uni,
            left_templates: left,
            right_templates: right,
        }
    }

    /// The ids of the unigram feature strings of `features` with the character
    /// category `category_id`, one for each template that applies; new strings get
    /// new ids.
    pub fn extract_unigram_feature_ids(&mut self, features: &[&str], category_id: u32) -> (r: Vec<
        u32,
    >)
        requires
            old(self).wf(),
            old(self).ids(TemplateKind::Unigram).dom().len() + old(self).templates(
                TemplateKind::Unigram,
            ).len() <= u32::MAX,
        ensures
            final(self).wf(),
            ({
                let (out, m) = extract_fold(
                    old(self).templates(TemplateKind::Unigram),
                    texts(features@),
                    category_id,
                    old(self).ids(TemplateKind::Unigram),
                );
                &&& r@ == somes(out)
                &&& final(self).ids(TemplateKind::Unigram) == m
            }),
            forall|i: int| 0 <= i < r@.len() ==> #[trigger] r@[i] >= 1,
            final(self).ids(TemplateKind::Left) == old(self).ids(TemplateKind::Left),
            final(self).ids(TemplateKind::Right) == old(self).ids(TemplateKind::Right),
            forall|k: TemplateKind| #[trigger] final(self).templates(k) == old(self).templates(k),
    {
        proof {
            lemma_extract_keeps_ids_dense(
                templates_view(self.unigram_templates@),
                texts(features@),
                category_id,
                id_map_view(self.unigram_feature_ids),
            );
        }
        let ids = extract_feature_ids(
            features,
            &self.unigram_templates,
            &mut self.unigram_feature_ids,
            category_id,
        );
        let mut r: Vec<u32> = Vec::new();
        let mut i: usize = 0;
        assert(ids@.take(0) =~= Seq::<Option<u32>>::empty());
        while i < ids.len()
            invariant
                i <= ids@.len(),
                r@ == somes(ids@.take(i as int)),
                forall|k: int| 0 <= k < ids@.len() ==> ((#[trigger] ids@[k]) matches Some(x) ==> x >= 1),
                forall|k: int| 0 <= k < r@.len() ==> #[trigger] r@[k] >= 1,
            decreases ids@.len() - i,
        {
            assert(ids@.take(i + 1).drop_last() =~= ids@.take(i as int));
            if let Some(x) = ids[i] {
                r.push(x);
            }
            i = i + 1;
        }
        assert(ids@.take(ids@.len() as int) =~= ids@);
        r
    }

    /// The ids of the left bigram feature strings of `features`, one for each
    /// template, `None` where it does not apply; new strings get new ids.
    pub fn extract_left_feature_ids(&mut self, features: &[&str]) -> (r: Vec<Option<u32>>)
        requires
            old(self).wf(),
            old(self).ids(TemplateKind::Left).dom().len() + old(self).templates(
                TemplateKind::Left,
            ).len() <= u32::MAX,
        ensures
            final(self).wf(),
            (r@, final(self).ids(TemplateKind::Left)) == extract_fold(
                old(self).templates(TemplateKind::Left),
                texts(features@),
                0,
                old(self).ids(TemplateKind::Left),
            ),
            forall|i: int| 0 <= i < r@.len() ==> ((#[trigger] r@[i]) matches Some(x) ==> x >= 1),
            final(self).ids(TemplateKind::Unigram) == old(self).ids(TemplateKind::Unigram),
            final(self).ids(TemplateKind::Right) == old(self).ids(TemplateKind::Right),
            forall|k: TemplateKind| #[trigger] final(self).templates(k) == old(self).templates(k),
    {
        proof {
            lemma_extract_keeps_ids_dense(
                templates_view(self.left_templates@),
                texts(features@),
                0,
                id_map_view(self.left_feature_ids),
            );
        }
        extract_feature_ids(features, &self.left_templates, &mut self.left_feature_ids, 0)
    }

    /// The ids of the right bigram feature strings of `features`, one for each
    /// template, `None` where it does not apply; new strings get new ids.
    pub fn extract_right_feature_ids(&mut self, features: &[&str]) -> (r: Vec<Option<u32>>)
        requires
            old(self).wf(),
            old(self).ids(TemplateKind::Right).dom().len() + old(self).templates(
                TemplateKind::Right,
            ).len() <= u32::MAX,
        ensures
            final(self).wf(),
            (r@, final(self).ids(TemplateKind::Right)) == extract_fold(
                old(self).templates(TemplateKind::Right),
                texts(features@),
                0,
                old(self).ids(TemplateKind::Right),
            ),
            forall|i: int| 0 <= i < r@.len() ==> ((#[trigger] r@[i]) matches Some(x) ==> x >= 1),
            final(self).ids(TemplateKind::Unigram) == old(self).ids(TemplateKind::Unigram),
            final(self).ids(TemplateKind::Left) == old(self).ids(TemplateKind::Left),
            forall|k: TemplateKind| #[trigger] final(self).templates(k) == old(self).templates(k),
    {
        proof {
            lemma_extract_keeps_ids_dense(
                templates_view(self.right_templates@),
                texts(features@),
                0,
                id_map_view(self.right_feature_ids),
            );
        }
        extract_feature_ids(features, &self.right_templates, &mut self.right_feature_ids, 0)
    }

    /// Whether extracting once more cannot run out of ids: for each kind, the ids
    /// given so far and the templates number at most `u32::MAX` together.
    pub fn has_room(&self) -> (r: bool)
        requires
            self.wf(),
        ensures
            r == self.room(),
    {
        let u = self.unigram_feature_ids.len();
        let ut = self.unigram_templates.len();
        let l = self.left_feature_ids.len();
        let lt = self.left_templates.len();
        let rr = self.right_feature_ids.len();
        let rt = self.right_templates.len();
        ut <= 0xffff_ffff && u <= 0xffff_ffff - ut && lt <= 0xffff_ffff && l <= 0xffff_ffff - lt && rt
            <= 0xffff_ffff && rr <= 0xffff_ffff - rt
    }

    /// For each kind, the ids given so far and the templates number at most
    /// `u32::MAX` together.
    pub open spec fn room(&self) -> bool {
        &&& self.ids(TemplateKind::Unigram).dom().len() + self.templates(TemplateKind::Unigram).len() <= u32::MAX
        &&& self.ids(TemplateKind::Left).dom().len() + self.templates(TemplateKind::Left).len() <= u32::MAX
        &&& self.ids(TemplateKind::Right).dom().len() + self.templates(TemplateKind::Right).len() <= u32::MAX
    }

    /// The ids of the unigram feature strings.
    pub fn unigram_feature_ids(&self) -> (r: &IdMap)
        ensures
            id_map_view(*r) == self.ids(TemplateKind::Unigram),
    {
        &self.unigram_feature_ids
    }

    /// The ids of the left bigram feature strings.
    pub fn left_feature_ids(&self) -> (r: &IdMap)
        ensures
            id_map_view(*r) == self.ids(TemplateKind::Left),
    {
        &self.left_feature_ids
    }

    /// The ids of the right bigram feature strings.
    pub fn right_feature_ids(&self) -> (r: &IdMap)
        ensures
            id_map_view(*r) == self.ids(TemplateKind::Right),
    {
        &self.right_feature_ids
    }
}

// ---------------------------------------------------------------------
// Laws
// ---------------------------------------------------------------------

/// The ids of `m` number its feature strings from 1 to their count, each string a
/// different id.
pub open spec fn ids_dense(m: Map<Seq<char>, u32>) -> bool {
    &&& m.dom().finite()
    &&& forall|s: Seq<char>| #[trigger] m.contains_key(s) ==> 1 <= m[s] <= m.dom().len()
    &&& forall|s: Seq<char>, t: Seq<char>|
        #[trigger] m.contains_key(s) && #[trigger] m.contains_key(t) && m[s] == m[t] ==> s == t
}

/// Extracting keeps the numbering dense: every feature string keeps its id, new
/// strings get the next ids, distinct strings never share an id, and each id
/// returned is one of the map.
pub proof fn lemma_extract_keeps_ids_dense(
    pts: Seq<TemplateSpec>,
    fs: Seq<Seq<char>>,
    cate: u32,
    ids: Map<Seq<char>, u32>,
)
    requires
        ids_dense(ids),
        ids.dom().len() + pts.len() <= u32::MAX,
    ensures
        ({
            let (out, m) = extract_fold(pts, fs, cate, ids);
            &&& ids_dense(m)
            &&& m.dom().len() <= ids.dom().len() + pts.len()
            &&& forall|s: Seq<char>| #[trigger] ids.contains_key(s) ==> m.contains_key(s) && m[s] == ids[s]
            &&& out.len() == pts.len()
            &&& forall|k: int|
                0 <= k < out.len() ==> ((#[trigger] out[k]) matches Some(x) ==> 1 <= x <= m.dom().len())
        }),
    decreases pts.len(),
{
    if pts.len() > 0 {
        lemma_extract_keeps_ids_dense(pts.drop_last(), fs, cate, ids);
        let (out, m) = extract_fold(pts.drop_last(), fs, cate, ids);
        let pt = pts.last();
        if applies(pt, fs) {
            let st = feature_string(pt, fs, cate);
            if !m.contains_key(st) {
                let id = (m.dom().len() + 1) as u32;
                let m2 = m.insert(st, id);
                assert(m2.dom() =~= m.dom().insert(st));
                assert(m2.dom().len() == m.dom().len() + 1);
                assert forall|a: Seq<char>, b: Seq<char>|
                    #[trigger] m2.contains_key(a) && #[trigger] m2.contains_key(b) && m2[a] == m2[b]
                    implies a == b by {
                    if a != st && b != st {
                        assert(m.contains_key(a) && m.contains_key(b));
                    }
                }
            }
        }
    }
}

} // verus!

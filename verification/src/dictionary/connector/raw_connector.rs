//! Connector computing costs from bigram features, read from `bigram.right`,
//! `bigram.left` and `bigram.cost`.
use vstd::prelude::*;
use vstd::utf8::*;

pub mod scorer;

use crate::dictionary::connector::matrix_connector::{cell, lemma_cell_bound, lemma_cell_injective};
use crate::dictionary::connector::raw_connector::scorer::{
    flatten, is_u31, lemma_flatten_index, lemma_flatten_len, spec_accumulate, Scorer,
    ScorerBuilder, U31Array,
};
use crate::dictionary::connector::{Connector, ConnectorCost};
use crate::dictionary::mapper::ConnIdMapper;
use crate::errors::{Fault, VibratoError};
use crate::utils::{
    id_map_view, no_ids, IdMap,
    decode_utf8_chars, lines, parse_csv_row, parsed_row, parse_i32, parse_usize, spec_i32, spec_lines,
    spec_split, spec_usize, split_char, string_from_chars,
};

verus! {

/// The feature id of a feature that `bigram.cost` does not name.
pub const INVALID_FEATURE_ID: u32 = 0x7fff_ffff;

/// The id of `k` in `m`, or the next id when `k` is new.
pub open spec fn id_of(m: Map<Seq<char>, u32>, k: Seq<char>) -> u32 {
    if m.contains_key(k) {
        m[k]
    } else {
        m.len() as u32
    }
}

/// `m` with `k` added under the next id when new.
pub open spec fn with_key(m: Map<Seq<char>, u32>, k: Seq<char>) -> Map<Seq<char>, u32> {
    if m.contains_key(k) {
        m
    } else {
        m.insert(k, m.len() as u32)
    }
}

/// A line of `bigram.cost`, `right/left<tab>cost`: the right feature, the left
/// feature and the cost.
pub open spec fn cost_line(line: Seq<char>) -> Result<(Seq<char>, Seq<char>, i32), Fault> {
    let cols = spec_split(line, '\t');
    if cols.len() != 2 {
        Err(Fault::Format)
    } else if spec_i32(cols[1]) is None {
        Err(Fault::ParseInt)
    } else {
        let feats = spec_split(cols[0], '/');
        if feats.len() != 2 {
            Err(Fault::Format)
        } else {
            Ok((feats[0], feats[1], spec_i32(cols[1])->0))
        }
    }
}

/// The maps of right and left features to ids, and the costs of id pairs.
pub type CostTables = (Map<Seq<char>, u32>, Map<Seq<char>, u32>, Map<(u32, u32), i32>);

/// The tables after one more line of `bigram.cost`.
pub open spec fn cost_step(st: CostTables, line: Seq<u8>) -> Result<CostTables, Fault> {
    if !valid_utf8(line) {
        Err(Fault::Utf8)
    } else {
        match cost_line(decode_utf8(line)) {
            Err(f) => Err(f),
            Ok((rs, ls, c)) => Ok(
                (
                    with_key(st.0, rs),
                    with_key(st.1, ls),
                    st.2.insert((id_of(st.0, rs), id_of(st.1, ls)), c),
                ),
            ),
        }
    }
}

/// The map that starts with the empty feature under id 0.
pub open spec fn initial_ids() -> Map<Seq<char>, u32> {
    Map::<Seq<char>, u32>::empty().insert(Seq::<char>::empty(), 0u32)
}

/// The tables after the lines `ls`; the first failing line gives the error.
pub open spec fn cost_fold(ls: Seq<Seq<u8>>) -> Result<CostTables, Fault>
    decreases ls.len(),
{
    if ls.len() == 0 {
        Ok((initial_ids(), initial_ids(), Map::<(u32, u32), i32>::empty()))
    } else {
        match cost_fold(ls.drop_last()) {
            Err(f) => Err(f),
            Ok(st) => cost_step(st, ls.last()),
        }
    }
}

/// What `bigram.cost` given as bytes denotes.
pub open spec fn bigram_costs(b: Seq<u8>) -> Result<CostTables, Fault> {
    cost_fold(spec_lines(b))
}

/// Before each line of `bigram.cost` that is read, both maps of features have
/// fewer than `0x7fff_ffff` entries, so that a new feature still gets an id of
/// 31 bits.
pub open spec fn costs_fit(b: Seq<u8>) -> bool {
    forall|k: int| 0 <= k < spec_lines(b).len() ==> #[trigger] prefix_fits(spec_lines(b), k)
}

/// After the first `k` lines, if they are read, both maps have fewer than
/// `0x7fff_ffff` entries.
pub open spec fn prefix_fits(ls: Seq<Seq<u8>>, k: int) -> bool {
    cost_fold(ls.take(k)) matches Ok(st) ==> st.0.len() < 0x7fff_ffff && st.1.len() < 0x7fff_ffff
}

/// Once a line fails, no later prefix is read, so the maps fit before every line.
proof fn lemma_fit_after_err(ls: Seq<Seq<u8>>, k: int, f: Fault)
    requires
        0 <= k < ls.len(),
        cost_fold(ls.take(k + 1)) == Err::<CostTables, Fault>(f),
        forall|j: int| 0 <= j <= k ==> #[trigger] prefix_fits(ls, j),
    ensures
        forall|j: int| 0 <= j < ls.len() ==> #[trigger] prefix_fits(ls, j),
{
    assert forall|j: int| 0 <= j < ls.len() implies #[trigger] prefix_fits(ls, j) by {
        if j > k {
            assert(ls.take(j).take(k + 1) =~= ls.take(k + 1));
            lemma_cost_fold_err(ls.take(j), k + 1, f);
        }
    }
}

/// The ids of the features `fs` in `m`, [`INVALID_FEATURE_ID`] for those not in it.
pub open spec fn feature_ids(m: Map<Seq<char>, u32>, fs: Seq<Seq<char>>) -> Seq<u32> {
    fs.map_values(|f: Seq<char>| if m.contains_key(f) { m[f] } else { INVALID_FEATURE_ID })
}

/// The ids of the features of a line `id<tab>features` of `bigram.right` or
/// `bigram.left`, the features read as a CSV row.
pub open spec fn line_ids(m: Map<Seq<char>, u32>, line: Seq<char>) -> Seq<u32> {
    match parsed_row(spec_split(line, '\t')[1]) {
        Some(fs) => feature_ids(m, fs),
        None => seq![],
    }
}

/// The ids of the features of each line of a feature file.
pub open spec fn file_rows(m: Map<Seq<char>, u32>, b: Seq<u8>) -> Seq<Seq<u32>> {
    Seq::new(spec_lines(b).len(), |i: int| line_ids(m, decode_utf8(spec_lines(b)[i])))
}

/// The features of a line `id<tab>features` can be read as a CSV row.
pub open spec fn line_readable(line: Seq<u8>) -> bool {
    parsed_row(spec_split(decode_utf8(line), '\t')[1]) is Some
}

/// The features of every line of a feature file can be read.
pub open spec fn feature_rows_readable(b: Seq<u8>) -> bool {
    forall|i: int| 0 <= i < spec_lines(b).len() ==> #[trigger] line_readable(spec_lines(b)[i])
}

/// A line `id<tab>features` of `bigram.right` or `bigram.left` whose id is `id`.
pub open spec fn feature_line_ok(line: Seq<u8>, id: int) -> bool {
    &&& valid_utf8(line)
    &&& spec_split(decode_utf8(line), '\t').len() == 2
    &&& spec_usize(spec_split(decode_utf8(line), '\t')[0], 10) matches Some(v) && v == id
}

/// Every line of a feature file is well-formed and numbered from 1 in order.
pub open spec fn feature_file_ok(b: Seq<u8>) -> bool {
    forall|i: int| 0 <= i < spec_lines(b).len() ==> feature_line_ok(#[trigger] spec_lines(b)[i], i + 1)
}

/// `x` is the id of some feature of `m`, or the invalid feature id.
pub open spec fn known_id(m: Map<Seq<char>, u32>, x: u32) -> bool {
    x == INVALID_FEATURE_ID || exists|k: Seq<char>| m.contains_key(k) && m[k] == x
}

/// Every id of every row is known to `m`.
pub open spec fn rows_known(rows: Seq<Seq<u32>>, m: Map<Seq<char>, u32>) -> bool {
    forall|i: int, k: int| 0 <= i < rows.len() && 0 <= k < rows[i].len() ==> known_id(m, #[trigger] rows[i][k])
}

/// The largest row length, 0 for no rows.
pub open spec fn max_row_len(rows: Seq<Seq<u32>>) -> nat
    decreases rows.len(),
{
    if rows.len() == 0 {
        0
    } else {
        let m = max_row_len(rows.drop_last());
        if rows.last().len() > m {
            rows.last().len()
        } else {
            m
        }
    }
}

/// Every id of `m` is below `n`.
pub open spec fn ids_below(m: Map<Seq<char>, u32>, n: int) -> bool {
    forall|k: Seq<char>| m.contains_key(k) ==> (#[trigger] m[k] as int) < n
}

proof fn lemma_lines_len(b: Seq<u8>)
    ensures
        spec_lines(b).len() <= b.len(),
    decreases b.len(),
{
    if b.len() > 0 {
        let i = crate::utils::index_of(b, 10u8);
        crate::utils::lemma_index_of_bound(b, 10u8);
        if i < b.len() {
            lemma_lines_len(b.skip(i + 1));
        }
    }
}

proof fn lemma_cost_fold_err(ls: Seq<Seq<u8>>, k: int, f: Fault)
    requires
        0 <= k <= ls.len(),
        cost_fold(ls.take(k)) == Err::<CostTables, Fault>(f),
    ensures
        cost_fold(ls) == Err::<CostTables, Fault>(f),
    decreases ls.len() - k,
{
    if k < ls.len() {
        assert(ls.take(k + 1).drop_last() =~= ls.take(k));
        lemma_cost_fold_err(ls, k + 1, f);
    } else {
        assert(ls.take(k) =~= ls);
    }
}

/// Builder for the parts of a [`RawConnector`] in simple data structures.
pub struct RawConnectorBuilder {
    /// Feature ids of each right id from 1, in order.
    pub right_feat_ids_tmp: Vec<Vec<u32>>,
    /// Feature ids of each left id from 1, in order.
    pub left_feat_ids_tmp: Vec<Vec<u32>>,
    /// The largest number of features of an id.
    pub feat_template_size: usize,
    /// Costs of pairs of right and left feature ids.
    pub scorer_builder: ScorerBuilder,
}

impl RawConnectorBuilder {
    /// Creates a builder from its parts.
    pub fn new(
        right_feat_ids_tmp: Vec<Vec<u32>>,
        left_feat_ids_tmp: Vec<Vec<u32>>,
        feat_template_size: usize,
        scorer_builder: ScorerBuilder,
    ) -> (r: Self)
        ensures
            r.right_feat_ids_tmp == right_feat_ids_tmp,
            r.left_feat_ids_tmp == left_feat_ids_tmp,
            r.feat_template_size == feat_template_size,
            r.scorer_builder == scorer_builder,
    {
        Self { right_feat_ids_tmp, left_feat_ids_tmp, feat_template_size, scorer_builder }
    }

    /// Reads `bigram.right`, `bigram.left` and `bigram.cost`.
    ///
    /// The cost file names pairs of features with their costs; each feature gets
    /// the next id when first seen, after the empty feature with id 0. Each line of
    /// the right and left files is `id<tab>features` with ids 1, 2, ... in order,
    /// the features a CSV row; a feature the cost file does not name gets
    /// [`INVALID_FEATURE_ID`]. When the features of one side would outgrow 31-bit
    /// ids, the reading stops with a conversion error.
    pub fn from_readers(right_rdr: &[u8], left_rdr: &[u8], cost_rdr: &[u8]) -> (r: Result<
        Self,
        VibratoError,
    >)
        ensures
            costs_fit(cost_rdr@) ==> (bigram_costs(cost_rdr@) matches Err(f) ==> r matches Err(e)
                && e.fault() == f),
            !costs_fit(cost_rdr@) ==> (r matches Err(e) && e is TryFromInt),
            costs_fit(cost_rdr@) && bigram_costs(cost_rdr@) is Ok && feature_file_ok(right_rdr@)
                && feature_file_ok(left_rdr@) && feature_rows_readable(right_rdr@)
                && feature_rows_readable(left_rdr@) ==> r is Ok,
            r matches Ok(b) ==> bigram_costs(cost_rdr@) matches Ok(st) && {
                &&& b.scorer_builder.wf()
                &&& b.scorer_builder.entries() == st.2
                &&& b.right_feat_ids_tmp.deep_view().len() == spec_lines(right_rdr@).len()
                &&& b.left_feat_ids_tmp.deep_view().len() == spec_lines(left_rdr@).len()
                &&& rows_known(b.right_feat_ids_tmp.deep_view(), st.0)
                &&& rows_known(b.left_feat_ids_tmp.deep_view(), st.1)
                &&& b.right_feat_ids_tmp.deep_view() == file_rows(st.0, right_rdr@)
                &&& b.left_feat_ids_tmp.deep_view() == file_rows(st.1, left_rdr@)
                &&& b.feat_template_size == max_row_len(
                    b.right_feat_ids_tmp.deep_view() + b.left_feat_ids_tmp.deep_view(),
                )
            },
            r is Ok ==> feature_file_ok(right_rdr@) && feature_file_ok(left_rdr@),
    {
        let mut right_map = IdMap::new();
        let mut left_map = IdMap::new();
        let empty: Vec<char> = Vec::new();
        right_map.insert(string_from_chars(empty.as_slice()), 0);
        left_map.insert(string_from_chars(empty.as_slice()), 0);
        assert(id_map_view(right_map) =~= initial_ids());
        assert(id_map_view(left_map) =~= initial_ids());
        let mut scorer_builder = ScorerBuilder::new();
        let cost_lines = lines(cost_rdr);
        let ghost cls = cost_lines.deep_view();
        proof {
            lemma_lines_len(cost_rdr@);
        }
        let n = cost_lines.len();
        let mut k: usize = 0;
        assert(cls.take(0) =~= Seq::<Seq<u8>>::empty());
        while k < n
            invariant
                k <= n == cls.len(),
                cls == spec_lines(cost_rdr@),
                cls == cost_lines.deep_view(),
                scorer_builder.wf(),
                forall|j: int| 0 <= j < k ==> #[trigger] prefix_fits(cls, j),
                cost_fold(cls.take(k as int)) == Ok::<CostTables, Fault>(
                    (id_map_view(right_map), id_map_view(left_map), scorer_builder.entries()),
                ),
                id_map_view(right_map).dom().finite(),
                id_map_view(left_map).dom().finite(),
                ids_below(id_map_view(right_map), id_map_view(right_map).len() as int),
                ids_below(id_map_view(left_map), id_map_view(left_map).len() as int),
            decreases n - k,
        {
            if right_map.len() >= 0x7fff_ffff || left_map.len() >= 0x7fff_ffff {
                proof {
                    assert(!prefix_fits(cls, k as int));
                }
                return Err(VibratoError::TryFromInt);
            }
            assert(prefix_fits(cls, k as int));
            assert(cls.take(k + 1).drop_last() =~= cls.take(k as int));
            assert(cost_lines[k as int]@ == cls[k as int]);
            let chars = match decode_utf8_chars(cost_lines[k].as_slice()) {
                Ok(c) => c,
                Err(e) => {
                    proof {
                        lemma_cost_fold_err(cls, k + 1, Fault::Utf8);
                        lemma_fit_after_err(cls, k as int, Fault::Utf8);
                    }
                    return Err(e);
                },
            };
            let ghost r0 = id_map_view(right_map);
            let ghost l0 = id_map_view(left_map);
            match Self::parse_cost(chars.as_slice(), &mut right_map, &mut left_map) {
                Ok((right_id, left_id, cost)) => {
                    scorer_builder.insert(right_id, left_id, cost);
                    proof {
                        assert forall|key: Seq<char>| #[trigger] id_map_view(right_map).contains_key(key)
                            implies (id_map_view(right_map)[key] as int) < id_map_view(right_map).len() by {
                            if r0.contains_key(key) {
                                assert(r0[key] < r0.len());
                            }
                        }
                        assert forall|key: Seq<char>| #[trigger] id_map_view(left_map).contains_key(key)
                            implies (id_map_view(left_map)[key] as int) < id_map_view(left_map).len() by {
                            if l0.contains_key(key) {
                                assert(l0[key] < l0.len());
                            }
                        }
                    }
                },
                Err(e) => {
                    proof {
                        lemma_cost_fold_err(cls, k + 1, e.fault());
                        lemma_fit_after_err(cls, k as int, e.fault());
                    }
                    return Err(e);
                },
            }
            k = k + 1;
        }
        assert(cls.take(n as int) =~= cls);
        let ghost st = (id_map_view(right_map), id_map_view(left_map), scorer_builder.entries());
        let (right_feat_ids_tmp, rmax) = Self::read_feature_file(right_rdr, &right_map, "bigram.right")?;
        let (left_feat_ids_tmp, lmax) = Self::read_feature_file(left_rdr, &left_map, "bigram.left")?;
        assert(right_feat_ids_tmp.deep_view() =~= file_rows(id_map_view(right_map), right_rdr@));
        assert(left_feat_ids_tmp.deep_view() =~= file_rows(id_map_view(left_map), left_rdr@));
        let feat_template_size = if rmax < lmax { lmax } else { rmax };
        proof {
            lemma_max_row_len_concat(right_feat_ids_tmp.deep_view(), left_feat_ids_tmp.deep_view());
        }
        Ok(Self::new(right_feat_ids_tmp, left_feat_ids_tmp, feat_template_size, scorer_builder))
    }

    /// Reads the lines of `bigram.right` or `bigram.left`, returning the rows of
    /// feature ids and the largest row length.
    fn read_feature_file(rdr: &[u8], id_map: &IdMap, name: &'static str) -> (r: Result<
        (Vec<Vec<u32>>, usize),
        VibratoError,
    >)
        ensures
            r matches Ok((rows, mx)) ==> {
                &&& rows.deep_view().len() == spec_lines(rdr@).len()
                &&& rows_known(rows.deep_view(), id_map_view(*id_map))
                &&& mx == max_row_len(rows.deep_view())
                &&& feature_file_ok(rdr@)
                &&& forall|i: int|
                    0 <= i < rows.deep_view().len() ==> #[trigger] rows.deep_view()[i] == line_ids(
                        id_map_view(*id_map),
                        decode_utf8(spec_lines(rdr@)[i]),
                    )
            },
            feature_file_ok(rdr@) && feature_rows_readable(rdr@) ==> r is Ok,
            spec_lines(rdr@).len() == 0 ==> (r matches Ok((rows, mx)) && rows@.len() == 0 && mx == 0),
            r matches Err(e) ==> e is InvalidFormat || e is ParseInt || e is Utf8,
    {
        let ls = lines(rdr);
        let ghost lv = ls.deep_view();
        let n = ls.len();
        let mut rows: Vec<Vec<u32>> = Vec::new();
        let mut mx: usize = 0;
        let mut i: usize = 0;
        while i < n
            invariant
                i <= n == lv.len(),
                lv == spec_lines(rdr@),
                lv == ls.deep_view(),
                rows.deep_view().len() == i,
                rows_known(rows.deep_view(), id_map_view(*id_map)),
                mx == max_row_len(rows.deep_view()),
                forall|j: int| 0 <= j < i ==> feature_line_ok(#[trigger] lv[j], j + 1),
                forall|j: int|
                    0 <= j < i ==> #[trigger] rows.deep_view()[j] == line_ids(id_map_view(*id_map), decode_utf8(lv[j])),
            decreases n - i,
        {
            assert(ls[i as int]@ == lv[i as int]);
            let chars = decode_utf8_chars(ls[i].as_slice())?;
            proof {
                if feature_file_ok(rdr@) && feature_rows_readable(rdr@) {
                    assert(feature_line_ok(lv[i as int], i + 1));
                    assert(line_readable(lv[i as int]));
                }
            }
            let (id, feats) = Self::parse_features(chars.as_slice(), id_map, name)?;
            if id != i + 1 {
                return Err(VibratoError::invalid_format(name, "must be ascending order"));
            }
            let ghost before = rows.deep_view();
            if feats.len() > mx {
                mx = feats.len();
            }
            rows.push(feats);
            proof {
                assert(rows.deep_view().drop_last() =~= before);
                assert forall|a: int, b: int|
                    0 <= a < rows.deep_view().len() && 0 <= b < rows.deep_view()[a].len() implies known_id(
                    id_map_view(*id_map),
                    #[trigger] rows.deep_view()[a][b],
                ) by {
                    if a < i {
                        assert(rows.deep_view()[a] == before[a]);
                    }
                }
                assert forall|j: int| 0 <= j < i + 1 implies #[trigger] rows.deep_view()[j] == line_ids(
                    id_map_view(*id_map),
                    decode_utf8(lv[j]),
                ) by {
                    if j < i {
                        assert(rows.deep_view()[j] == before[j]);
                    } else {
                        assert(chars@ == decode_utf8(lv[i as int]));
                        assert(rows.deep_view()[j] == feats@);
                    }
                }
            }
            i = i + 1;
        }
        Ok((rows, mx))
    }

    /// Parses a line `id<tab>features` of `bigram.right` or `bigram.left`,
    /// returning the id and the ids of the features, [`INVALID_FEATURE_ID`] for
    /// those not in `id_map`.
    fn parse_features(line: &[char], id_map: &IdMap, name: &'static str) -> (r: Result<
        (usize, Vec<u32>),
        VibratoError,
    >)
        ensures
            r matches Ok((id, feats)) ==> {
                &&& spec_split(line@, '\t').len() == 2
                &&& spec_usize(spec_split(line@, '\t')[0], 10) == Some(id)
                &&& forall|k: int| 0 <= k < feats@.len() ==> known_id(id_map_view(*id_map), #[trigger] feats@[k])
            },
            r matches Ok((id, feats)) ==> parsed_row(spec_split(line@, '\t')[1]) is Some && feats@
                == line_ids(id_map_view(*id_map), line@),
            spec_split(line@, '\t').len() == 2 && spec_usize(spec_split(line@, '\t')[0], 10) is Some
                && parsed_row(spec_split(line@, '\t')[1]) is Some ==> r is Ok,
            spec_split(line@, '\t').len() != 2 ==> (r matches Err(e) && e is InvalidFormat),
            spec_split(line@, '\t').len() == 2 && spec_usize(spec_split(line@, '\t')[0], 10) is None
                ==> (r matches Err(e) && e is ParseInt),
            r matches Err(e) ==> e is InvalidFormat || e is ParseInt || e is Utf8,
    {
        let cols = split_char(line, '\t');
        if cols.len() != 2 {
            return Err(VibratoError::invalid_format(name, "The format must be id<tab>csv_row"));
        }
        assert(cols[0]@ == cols.deep_view()[0]);
        assert(cols[1]@ == cols.deep_view()[1]);
        let id = parse_usize(cols[0].as_slice(), 10)?;
        let features = parse_csv_row(cols[1].as_slice())?;
        let ghost fs = features.deep_view();
        let ghost m = id_map_view(*id_map);
        let mut result: Vec<u32> = Vec::new();
        let nf = features.len();
        let mut k: usize = 0;
        while k < nf
            invariant
                k <= nf == features@.len(),
                fs == features.deep_view(),
                m == id_map_view(*id_map),
                result@.len() == k,
                forall|j: int| 0 <= j < k ==> known_id(id_map_view(*id_map), #[trigger] result@[j]),
                forall|j: int| 0 <= j < k ==> #[trigger] result@[j] == feature_ids(m, fs)[j],
            decreases nf - k,
        {
            assert(features@[k as int]@ == fs[k as int]);
            let key = string_from_chars(features[k].as_slice());
            let fid = match id_map.get(key.as_str()) {
                Some(v) => v,
                None => INVALID_FEATURE_ID,
            };
            result.push(fid);
            k = k + 1;
        }
        assert(result@ =~= feature_ids(m, fs));
        Ok((id, result))
    }

    /// Parses a line `right/left<tab>cost` of `bigram.cost`, returning the ids of
    /// the right and left features and the cost. A feature not yet in its map is
    /// added under the next id.
    fn parse_cost(line: &[char], right_id_map: &mut IdMap, left_id_map: &mut IdMap) -> (r:
        Result<(u32, u32, i32), VibratoError>)
        requires
            id_map_view(*old(right_id_map)).dom().finite(),
            id_map_view(*old(left_id_map)).dom().finite(),
            id_map_view(*old(right_id_map)).len() < 0x7fff_ffff,
            id_map_view(*old(left_id_map)).len() < 0x7fff_ffff,
            ids_below(id_map_view(*old(right_id_map)), id_map_view(*old(right_id_map)).len() as int),
            ids_below(id_map_view(*old(left_id_map)), id_map_view(*old(left_id_map)).len() as int),
        ensures
            match (r, cost_line(line@)) {
                (Ok((a, b, c)), Ok((rs, ls, cc))) => {
                    &&& a == id_of(id_map_view(*old(right_id_map)), rs)
                    &&& b == id_of(id_map_view(*old(left_id_map)), ls)
                    &&& c == cc
                    &&& id_map_view(*final(right_id_map)) == with_key(
                        id_map_view(*old(right_id_map)),
                        rs,
                    )
                    &&& id_map_view(*final(left_id_map)) == with_key(
                        id_map_view(*old(left_id_map)),
                        ls,
                    )
                },
                (Err(e), Err(f)) => e.fault() == f,
                _ => false,
            },
            id_map_view(*final(right_id_map)).dom().finite(),
            id_map_view(*final(left_id_map)).dom().finite(),
            r matches Ok((a, b, c)) ==> is_u31(a) && is_u31(b),
    {
        let cols = split_char(line, '\t');
        if cols.len() != 2 {
            return Err(
                VibratoError::invalid_format("bigram.cost", "The format must be right/left<tab>cost"),
            );
        }
        assert(cols[0]@ == cols.deep_view()[0]);
        assert(cols[1]@ == cols.deep_view()[1]);
        let cost = parse_i32(cols[1].as_slice())?;
        let feats = split_char(cols[0].as_slice(), '/');
        if feats.len() != 2 {
            return Err(
                VibratoError::invalid_format("bigram.cost", "The format must be right/left<tab>cost"),
            );
        }
        assert(feats[0]@ == feats.deep_view()[0]);
        assert(feats[1]@ == feats.deep_view()[1]);
        let right_str = string_from_chars(feats[0].as_slice());
        let right_id = match right_id_map.get(right_str.as_str()) {
            Some(id) => id,
            None => {
                let id = right_id_map.len() as u32;
                right_id_map.insert(right_str, id);
                id
            },
        };
        let left_str = string_from_chars(feats[1].as_slice());
        let left_id = match left_id_map.get(left_str.as_str()) {
            Some(id) => id,
            None => {
                let id = left_id_map.len() as u32;
                left_id_map.insert(left_str, id);
                id
            },
        };
        Ok((right_id, left_id, cost))
    }
}

proof fn lemma_max_row_len_concat(a: Seq<Seq<u32>>, b: Seq<Seq<u32>>)
    ensures
        max_row_len(a + b) == (if max_row_len(a) < max_row_len(b) {
            max_row_len(b)
        } else {
            max_row_len(a)
        }),
    decreases b.len(),
{
    if b.len() == 0 {
        assert(a + b =~= a);
    } else {
        assert((a + b).drop_last() =~= a + b.drop_last());
        lemma_max_row_len_concat(a, b.drop_last());
    }
}


/// Connector computing costs from the bigram features of both sides.
pub struct RawConnector {
    right_feat_ids: Vec<U31Array>,
    left_feat_ids: Vec<U31Array>,
    feat_template_size: usize,
    scorer: Scorer,
}

/// `x` rounded up to a multiple of 8.
pub open spec fn round8(x: int) -> int {
    if x == 0 {
        0
    } else {
        ((x - 1) / 8 + 1) * 8
    }
}

/// The feature ids of id `i` padded to `t`: zeros for id 0 (BOS/EOS), else the
/// row of id `i`, then [`INVALID_FEATURE_ID`].
pub open spec fn padded_row(rows: Seq<Seq<u32>>, i: int, t: int) -> Seq<u32> {
    Seq::new(
        t as nat,
        |k: int|
            if i == 0 {
                0u32
            } else if k < rows[i - 1].len() {
                rows[i - 1][k]
            } else {
                INVALID_FEATURE_ID
            },
    )
}

/// The feature ids of id `i` in an array of `t` blocks per id.
pub open spec fn block_row(blocks: Seq<U31Array>, t: int, i: int) -> Seq<u32> {
    flatten(blocks.subrange(i * t, i * t + t))
}

pub proof fn lemma_flatten_subrange(v: Seq<U31Array>, a: int, b: int)
    requires
        0 <= a <= b <= v.len(),
    ensures
        flatten(v.subrange(a, b)) == flatten(v).subrange(8 * a, 8 * b),
    decreases b - a,
{
    lemma_flatten_len(v);
    if a == b {
        assert(flatten(v.subrange(a, b)) =~= flatten(v).subrange(8 * a, 8 * b));
    } else {
        lemma_flatten_subrange(v, a, b - 1);
        assert(v.subrange(a, b).drop_last() =~= v.subrange(a, b - 1));
        lemma_flatten_len(v.subrange(a, b - 1));
        assert forall|j: int| 0 <= j < 8 implies flatten(v)[8 * (b - 1) + j] == #[trigger] v[b - 1].0@[j] by {
            lemma_flatten_index(v, b - 1, j);
        }
        assert(flatten(v.subrange(a, b)) =~= flatten(v).subrange(8 * a, 8 * b));
    }
}

proof fn lemma_block_fits(len: int, t: int, i: int)
    requires
        t > 0,
        len % t == 0,
        0 <= i < len / t,
    ensures
        0 <= i * t,
        i * t + t <= len,
{
    vstd::arithmetic::div_mod::lemma_fundamental_div_mod(len, t);
    assert(i * t + t <= len) by (nonlinear_arith)
        requires
            0 <= i < len / t,
            len == t * (len / t) + len % t,
            len % t == 0,
            t > 0,
    ;
    assert(0 <= i * t) by (nonlinear_arith)
        requires
            0 <= i,
            t > 0,
    ;
}

/// The new ids of right ids, or of left ids.
pub open spec fn chosen_map(mapper: &ConnIdMapper, use_right: bool) -> Seq<u16> {
    if use_right {
        mapper.right_map()
    } else {
        mapper.left_map()
    }
}

/// The `t` items of id `i`.
pub open spec fn block_of<A>(s: Seq<A>, t: int, i: int) -> Seq<A> {
    s.subrange(i * t, i * t + t)
}

/// Moves the blocks of each id `a` to the place of id `perm[a]`.
fn permute_blocks(
    src: &Vec<U31Array>,
    t: usize,
    n: usize,
    mapper: &ConnIdMapper,
    use_right: bool,
) -> (r: Vec<U31Array>)
    requires
        t > 0,
        src@.len() == n * t,
        n <= 0x10000,
        mapper.wf(),
        use_right ==> mapper.right_map().len() == n,
        !use_right ==> mapper.left_map().len() == n,
    ensures
        r@.len() == src@.len(),
        forall|a: int|
            0 <= a < n ==> #[trigger] block_of(r@, t as int, chosen_map(mapper, use_right)[a] as int)
                == block_of(src@, t as int, a),
{
    let ghost perm = if use_right {
        mapper.right_map()
    } else {
        mapper.left_map()
    };
    let len = src.len();
    let mut mapped = vec![U31Array([0u32; 8]); len];
    let mut a: usize = 0;
    while a < n
        invariant
            a <= n <= 0x10000,
            t > 0,
            src@.len() == n * t,
            len == src@.len(),
            mapped@.len() == len,
            mapper.wf(),
            perm == (if use_right {
                mapper.right_map()
            } else {
                mapper.left_map()
            }),
            perm.len() == n,
            forall|x: int, j: int|
                0 <= x < a && 0 <= j < t ==> #[trigger] mapped@[cell(t as int, j, perm[x] as int)]
                    == src@[cell(t as int, j, x)],
        decreases n - a,
    {
        let p = if use_right {
            mapper.right(a as u16)
        } else {
            mapper.left(a as u16)
        };
        assert(p == perm[a as int]);
        let mut j: usize = 0;
        while j < t
            invariant
                a < n <= 0x10000,
                j <= t,
                t > 0,
                src@.len() == n * t,
                len == src@.len(),
                mapped@.len() == len,
                mapper.wf(),
                perm == (if use_right {
                    mapper.right_map()
                } else {
                    mapper.left_map()
                }),
                perm.len() == n,
                p == perm[a as int],
                forall|x: int, y: int|
                    (0 <= x < a && 0 <= y < t) || (x == a && 0 <= y < j) ==> #[trigger] mapped@[cell(
                        t as int,
                        y,
                        perm[x] as int,
                    )] == src@[cell(t as int, y, x)],
            decreases t - j,
        {
            proof {
                lemma_cell_bound(t as int, n as int, j as int, a as int);
                lemma_cell_bound(t as int, n as int, j as int, p as int);
                assert(a * t <= a * t + j);
                assert(p * t <= p * t + j);
            }
            let from = a * t + j;
            let to = p as usize * t + j;
            let ghost before = mapped@;
            mapped.set(to, src[from]);
            assert forall|x: int, y: int|
                (0 <= x < a && 0 <= y < t) || (x == a && 0 <= y < j + 1) implies #[trigger] mapped@[cell(
                    t as int,
                    y,
                    perm[x] as int,
                )] == src@[cell(t as int, y, x)] by {
                if x != a || y != j {
                    assert(0 <= perm[x] < n);
                    lemma_cell_bound(t as int, n as int, y, perm[x] as int);
                    if cell(t as int, y, perm[x] as int) == to {
                        lemma_cell_injective(t as int, y, perm[x] as int, j as int, p as int);
                        assert(perm[x] == perm[a as int]);
                        assert(false);
                    }
                    assert(mapped@[cell(t as int, y, perm[x] as int)] == before[cell(
                        t as int,
                        y,
                        perm[x] as int,
                    )]);
                }
            }
            j = j + 1;
        }
        a = a + 1;
    }
    assert forall|x: int| 0 <= x < n implies #[trigger] block_of(mapped@, t as int, chosen_map(mapper, use_right)[x] as int)
        == block_of(src@, t as int, x) by {
        assert(0 <= perm[x] < n);
        lemma_cell_bound(t as int, n as int, 0, perm[x] as int);
        lemma_cell_bound(t as int, n as int, 0, x);
        lemma_cell_bound(t as int, n as int, t - 1, perm[x] as int);
        lemma_cell_bound(t as int, n as int, t - 1, x);
        assert forall|y: int| 0 <= y < t implies #[trigger] mapped@.subrange(perm[x] * t, perm[x] * t + t)[y]
            == src@.subrange(x * t, x * t + t)[y] by {
            assert(mapped@[cell(t as int, y, perm[x] as int)] == src@[cell(t as int, y, x)]);
        }
        assert(mapped@.subrange(perm[x] * t, perm[x] * t + t) =~= src@.subrange(x * t, x * t + t));
    }
    mapped
}

impl RawConnector {
    /// The feature blocks of the right ids, `blocks_per_id()` per id.
    pub closed spec fn right_blocks(&self) -> Seq<U31Array> {
        self.right_feat_ids@
    }

    /// The feature blocks of the left ids, `blocks_per_id()` per id.
    pub closed spec fn left_blocks(&self) -> Seq<U31Array> {
        self.left_feat_ids@
    }

    /// Number of blocks of eight feature ids per id.
    pub closed spec fn blocks_per_id(&self) -> nat {
        self.feat_template_size as nat
    }

    /// The costs of pairs of feature ids.
    pub closed spec fn scorer_view(&self) -> Map<(u32, u32), i32> {
        self.scorer@
    }

    /// The scorer's double array is consistent.
    pub closed spec fn scorer_wf(&self) -> bool {
        self.scorer.wf()
    }

    /// Creates a connector from its parts.
    pub fn new(
        right_feat_ids: Vec<U31Array>,
        left_feat_ids: Vec<U31Array>,
        feat_template_size: usize,
        scorer: Scorer,
    ) -> (r: Self)
        ensures
            r.right_blocks() == right_feat_ids@,
            r.left_blocks() == left_feat_ids@,
            r.blocks_per_id() == feat_template_size,
            r.scorer_view() == scorer@,
            r.scorer_wf() == scorer.wf(),
    {
        Self { right_feat_ids, left_feat_ids, feat_template_size, scorer }
    }

    /// Lays out the rows of `builder` in blocks of eight feature ids, each id
    /// padded to the same multiple of eight with [`INVALID_FEATURE_ID`], id 0 all
    /// zeros, and builds the scorer.
    ///
    /// Fails when the arrays would not fit in memory addressable by `usize`.
    pub fn from_builder(builder: RawConnectorBuilder) -> (r: Result<Self, VibratoError>)
        requires
            builder.scorer_builder.wf(),
            builder.feat_template_size <= usize::MAX - 8,
            forall|i: int|
                0 <= i < builder.right_feat_ids_tmp@.len() ==> (#[trigger] builder.right_feat_ids_tmp@[i])@.len()
                    <= builder.feat_template_size,
            forall|i: int|
                0 <= i < builder.left_feat_ids_tmp@.len() ==> (#[trigger] builder.left_feat_ids_tmp@[i])@.len()
                    <= builder.feat_template_size,
        ensures
            ({
                let t = round8(builder.feat_template_size as int);
                let nr = builder.right_feat_ids_tmp@.len() + 1;
                let nl = builder.left_feat_ids_tmp@.len() + 1;
                &&& r is Ok <==> (builder.scorer_builder.fits() && nr * t <= usize::MAX && nl * t
                    <= usize::MAX)
                &&& r matches Ok(c) ==> {
                    &&& c.scorer_wf()
                    &&& c.scorer_view() == builder.scorer_builder.entries()
                    &&& c.blocks_per_id() == t / 8
                    &&& c.right_blocks().len() * 8 == nr * t
                    &&& c.left_blocks().len() * 8 == nl * t
                    &&& forall|i: int|
                        0 <= i < nr ==> #[trigger] block_row(c.right_blocks(), t / 8, i) == padded_row(
                            builder.right_feat_ids_tmp.deep_view(),
                            i,
                            t,
                        )
                    &&& forall|i: int|
                        0 <= i < nl ==> #[trigger] block_row(c.left_blocks(), t / 8, i) == padded_row(
                            builder.left_feat_ids_tmp.deep_view(),
                            i,
                            t,
                        )
                    &&& t > 0 && nr <= 0x10000 && nl <= 0x10000 ==> c.conn_wf() && c.right_len() == nr
                        && c.left_len() == nl
                }
            }),
            r matches Err(e) ==> e is InvalidFormat,
    {
        let t0 = builder.feat_template_size;
        let t = if t0 != 0 {
            ((t0 - 1) / 8 + 1) * 8
        } else {
            0
        };
        assert(t == round8(t0 as int));
        let fits = builder.scorer_builder.check_fits();
        if !fits {
            return Err(VibratoError::invalid_format("bigram.cost", "too many features"));
        }
        let right = Self::pad_rows(&builder.right_feat_ids_tmp, t0, t);
        let left = Self::pad_rows(&builder.left_feat_ids_tmp, t0, t);
        let (right, left) = match (right, left) {
            (Some(a), Some(b)) => (a, b),
            _ => {
                return Err(VibratoError::invalid_format("bigram", "too many features"));
            },
        };
        let rb = U31Array::to_simd_vec(right.as_slice());
        let lb = U31Array::to_simd_vec(left.as_slice());
        let scorer = builder.scorer_builder.build();
        let ghost nr: int = builder.right_feat_ids_tmp@.len() as int + 1;
        let ghost nl: int = builder.left_feat_ids_tmp@.len() as int + 1;
        proof {
            Self::lemma_rows(rb@, right@, builder.right_feat_ids_tmp.deep_view(), t as int, nr as int);
            Self::lemma_rows(lb@, left@, builder.left_feat_ids_tmp.deep_view(), t as int, nl as int);
        }
        let c = Self::new(rb, lb, t / 8, scorer);
        proof {
            if t > 0 && nr <= 0x10000 && nl <= 0x10000 {
                Self::lemma_counts(c.right_blocks().len() as int, t as int, nr as int);
                Self::lemma_counts(c.left_blocks().len() as int, t as int, nl as int);
            }
        }
        Ok(c)
    }

    proof fn lemma_counts(blocks: int, t: int, n: int)
        requires
            t > 0,
            t % 8 == 0,
            blocks * 8 == n * t,
            n >= 0,
        ensures
            blocks % (t / 8) == 0,
            blocks / (t / 8) == n,
    {
        let q = t / 8;
        assert(t == 8 * q);
        assert(blocks == n * q) by (nonlinear_arith)
            requires
                blocks * 8 == n * t,
                t == 8 * q,
        ;
        assert(q > 0);
        vstd::arithmetic::div_mod::lemma_mod_multiples_basic(n, q);
        vstd::arithmetic::div_mod::lemma_div_multiples_vanish(n, q);
        assert(n * q == q * n) by (nonlinear_arith);
    }

    proof fn lemma_rows(blocks: Seq<U31Array>, flat: Seq<u32>, rows: Seq<Seq<u32>>, t: int, n: int)
        requires
            t >= 0,
            t % 8 == 0,
            flat.len() == n * t,
            n == rows.len() + 1,
            blocks.len() == (flat.len() + 7) / 8,
            flatten(blocks).take(flat.len() as int) == flat,
            forall|i: int, k: int|
                0 <= i < n && 0 <= k < t ==> #[trigger] flat[cell(t, k, i)] == padded_row(rows, i, t)[k],
        ensures
            blocks.len() * 8 == n * t,
            forall|i: int| 0 <= i < n ==> #[trigger] block_row(blocks, t / 8, i) == padded_row(rows, i, t),
    {
        let q = t / 8;
        assert(t == 8 * q);
        assert(flat.len() == 8 * (n * q)) by (nonlinear_arith)
            requires
                flat.len() == n * t,
                t == 8 * q,
        ;
        assert(blocks.len() == n * q);
        lemma_flatten_len(blocks);
        assert(flatten(blocks) =~= flat);
        assert forall|i: int| 0 <= i < n implies #[trigger] block_row(blocks, q, i) == padded_row(rows, i, t) by {
            assert(0 <= i * q && i * q + q <= n * q) by (nonlinear_arith)
                requires
                    0 <= i < n,
                    q >= 0,
            ;
            lemma_flatten_subrange(blocks, i * q, i * q + q);
            assert(8 * (i * q) == i * t && 8 * (i * q + q) == i * t + t) by (nonlinear_arith)
                requires
                    t == 8 * q,
            ;
            assert forall|k: int| 0 <= k < t implies block_row(blocks, q, i)[k] == padded_row(rows, i, t)[k] by {
                assert(flat[cell(t, k, i)] == padded_row(rows, i, t)[k]);
            }
            assert(block_row(blocks, q, i) =~= padded_row(rows, i, t));
        }
    }

    /// The ids of all rows, each padded to `t`, after a row of zeros; `None` when
    /// that would not fit in memory addressable by `usize`.
    fn pad_rows(rows: &Vec<Vec<u32>>, t0: usize, t: usize) -> (r: Option<Vec<u32>>)
        requires
            t0 <= t,
            forall|i: int| 0 <= i < rows@.len() ==> (#[trigger] rows@[i])@.len() <= t0,
        ensures
            r is Some <==> (rows@.len() + 1) * t <= usize::MAX,
            r matches Some(v) ==> {
                &&& v@.len() == (rows@.len() + 1) * t
                &&& forall|i: int, k: int|
                    0 <= i < rows@.len() + 1 && 0 <= k < t ==> #[trigger] v@[cell(t as int, k, i)]
                        == padded_row(rows.deep_view(), i, t as int)[k]
            },
    {
        let n = rows.len();
        if t == 0 {
            assert((rows@.len() + 1) * t == 0) by (nonlinear_arith)
                requires
                    t == 0,
            ;
            return Some(Vec::new());
        }
        if n == usize::MAX {
            assert((rows@.len() + 1) * t > usize::MAX) by (nonlinear_arith)
                requires
                    rows@.len() == usize::MAX,
                    t >= 1,
            ;
            return None;
        }
        let total = match (n + 1).checked_mul(t) {
            Some(x) => x,
            None => {
                return None;
            },
        };
        let mut v: Vec<u32> = vec![INVALID_FEATURE_ID; total];
        let mut k: usize = 0;
        while k < t
            invariant
                k <= t,
                total == (n + 1) * t,
                v@.len() == total,
                forall|y: int| 0 <= y < k ==> #[trigger] v@[y] == 0u32,
                forall|y: int| k <= y < total ==> #[trigger] v@[y] == INVALID_FEATURE_ID,
            decreases t - k,
        {
            proof {
                lemma_cell_bound(t as int, (n + 1) as int, k as int, 0);
            }
            v.set(k, 0);
            k = k + 1;
        }
        proof {
            assert forall|x: int, y: int|
                1 <= x < n + 1 && 0 <= y < t implies #[trigger] v@[cell(t as int, y, x)]
                    == INVALID_FEATURE_ID by {
                lemma_cell_bound(t as int, (n + 1) as int, y, x);
                assert(x * t >= t) by (nonlinear_arith)
                    requires
                        x >= 1,
                        t >= 0,
                ;
            }
            assert forall|x: int, y: int|
                0 <= x < 1 && 0 <= y < t implies #[trigger] v@[cell(t as int, y, x)]
                    == padded_row(rows.deep_view(), x, t as int)[y] by {
                assert(cell(t as int, y, x) == y);
            }
        }
        let mut i: usize = 0;
        while i < n
            invariant
                i <= n == rows@.len(),
                n < usize::MAX,
                t0 <= t,
                total == (n + 1) * t,
                v@.len() == total,
                forall|x: int| 0 <= x < rows@.len() ==> (#[trigger] rows@[x])@.len() <= t0,
                forall|x: int, y: int|
                    0 <= x < i + 1 && 0 <= y < t ==> #[trigger] v@[cell(t as int, y, x)]
                        == padded_row(rows.deep_view(), x, t as int)[y],
                forall|x: int, y: int|
                    i + 1 <= x < n + 1 && 0 <= y < t ==> #[trigger] v@[cell(t as int, y, x)]
                        == INVALID_FEATURE_ID,
            decreases n - i,
        {
            let row = &rows[i];
            let rl = row.len();
            let mut k: usize = 0;
            while k < rl
                invariant
                    i < n == rows@.len(),
                    n < usize::MAX,
                    k <= rl == row@.len(),
                    row@ == rows.deep_view()[i as int],
                    rl <= t,
                    total == (n + 1) * t,
                    v@.len() == total,
                    forall|x: int, y: int|
                        0 <= x < i + 1 && 0 <= y < t ==> #[trigger] v@[cell(t as int, y, x)]
                            == padded_row(rows.deep_view(), x, t as int)[y],
                    forall|y: int|
                        0 <= y < k ==> #[trigger] v@[cell(t as int, y, i + 1)] == padded_row(
                            rows.deep_view(),
                            i + 1,
                            t as int,
                        )[y],
                    forall|x: int, y: int|
                        (i + 1 < x < n + 1 && 0 <= y < t) || (x == i + 1 && k <= y < t) ==> #[trigger] v@[cell(
                            t as int,
                            y,
                            x,
                        )] == INVALID_FEATURE_ID,
                decreases rl - k,
            {
                proof {
                    lemma_cell_bound(t as int, (n + 1) as int, k as int, (i + 1) as int);
                    assert((i + 1) * t <= (i + 1) * t + k);
                }
                let pos = (i + 1) * t + k;
                let ghost before = v@;
                v.set(pos, row[k]);
                proof {
                    assert forall|x: int, y: int|
                        0 <= x < i + 1 && 0 <= y < t implies #[trigger] v@[cell(t as int, y, x)]
                            == padded_row(rows.deep_view(), x, t as int)[y] by {
                        lemma_cell_bound(t as int, (n + 1) as int, y, x);
                        if cell(t as int, y, x) == pos {
                            lemma_cell_injective(t as int, y, x, k as int, (i + 1) as int);
                        }
                        assert(v@[cell(t as int, y, x)] == before[cell(t as int, y, x)]);
                    }
                    assert forall|y: int|
                        0 <= y < k + 1 implies #[trigger] v@[cell(t as int, y, i + 1)] == padded_row(
                            rows.deep_view(),
                            i + 1,
                            t as int,
                        )[y] by {
                        lemma_cell_bound(t as int, (n + 1) as int, y, i + 1);
                        if y != k {
                            if cell(t as int, y, i + 1) == pos {
                                lemma_cell_injective(t as int, y, i + 1, k as int, (i + 1) as int);
                            }
                            assert(v@[cell(t as int, y, i + 1)] == before[cell(t as int, y, i + 1)]);
                        }
                    }
                    assert forall|x: int, y: int|
                        (i + 1 < x < n + 1 && 0 <= y < t) || (x == i + 1 && k + 1 <= y < t) implies #[trigger] v@[cell(
                            t as int,
                            y,
                            x,
                        )] == INVALID_FEATURE_ID by {
                        lemma_cell_bound(t as int, (n + 1) as int, y, x);
                        if cell(t as int, y, x) == pos {
                            lemma_cell_injective(t as int, y, x, k as int, (i + 1) as int);
                        }
                        assert(v@[cell(t as int, y, x)] == before[cell(t as int, y, x)]);
                    }
                }
                k = k + 1;
            }
            proof {
                assert forall|y: int| 0 <= y < t implies #[trigger] v@[cell(t as int, y, i + 1)]
                    == padded_row(rows.deep_view(), i + 1, t as int)[y] by {
                    if y >= rl {
                        assert(v@[cell(t as int, y, i + 1)] == INVALID_FEATURE_ID);
                    }
                }
            }
            i = i + 1;
        }
        proof {
            assert forall|x: int, y: int| 0 <= x < n + 1 && 0 <= y < t implies #[trigger] v@[cell(
                t as int,
                y,
                x,
            )] == padded_row(rows.deep_view(), x, t as int)[y] by {
                if x == 0 {
                    lemma_cell_bound(t as int, (n + 1) as int, y, x);
                }
            }
        }
        Some(v)
    }

    /// Reads `bigram.right`, `bigram.left` and `bigram.cost` (see
    /// [`RawConnectorBuilder::from_readers`]) and lays the result out (see
    /// [`Self::from_builder`]). With well-formed files the one error left is an
    /// invalid-format error for tables too large for the machine's `usize`.
    pub fn from_readers(right_rdr: &[u8], left_rdr: &[u8], cost_rdr: &[u8]) -> (r: Result<
        Self,
        VibratoError,
    >)
        ensures
            costs_fit(cost_rdr@) ==> (bigram_costs(cost_rdr@) matches Err(f) ==> r matches Err(e)
                && e.fault() == f),
            !costs_fit(cost_rdr@) ==> (r matches Err(e) && e is TryFromInt),
            r matches Ok(c) ==> bigram_costs(cost_rdr@) matches Ok(st) && {
                &&& c.scorer_wf()
                &&& c.scorer_view() == st.2
                &&& feature_file_ok(right_rdr@)
                &&& feature_file_ok(left_rdr@)
                &&& forall|i: int|
                    0 <= i <= spec_lines(right_rdr@).len() ==> #[trigger] block_row(
                        c.right_blocks(),
                        c.blocks_per_id() as int,
                        i,
                    ) == padded_row(file_rows(st.0, right_rdr@), i, 8 * c.blocks_per_id() as int)
                &&& forall|i: int|
                    0 <= i <= spec_lines(left_rdr@).len() ==> #[trigger] block_row(
                        c.left_blocks(),
                        c.blocks_per_id() as int,
                        i,
                    ) == padded_row(file_rows(st.1, left_rdr@), i, 8 * c.blocks_per_id() as int)
                &&& c.blocks_per_id() > 0 && spec_lines(right_rdr@).len() < 0x10000 && spec_lines(
                    left_rdr@,
                ).len() < 0x10000 ==> c.conn_wf() && c.right_len() == spec_lines(right_rdr@).len()
                    + 1 && c.left_len() == spec_lines(left_rdr@).len() + 1
            },
            costs_fit(cost_rdr@) && bigram_costs(cost_rdr@) is Ok && feature_file_ok(right_rdr@)
                && feature_file_ok(left_rdr@) && feature_rows_readable(right_rdr@)
                && feature_rows_readable(left_rdr@) ==> (r matches Err(e) ==> e is InvalidFormat),
    {
        let builder = RawConnectorBuilder::from_readers(right_rdr, left_rdr, cost_rdr)?;
        if builder.feat_template_size > usize::MAX - 8 {
            return Err(VibratoError::invalid_format("bigram", "too many features"));
        }
        proof {
            let rows = builder.right_feat_ids_tmp.deep_view() + builder.left_feat_ids_tmp.deep_view();
            assert forall|i: int| 0 <= i < builder.right_feat_ids_tmp@.len() implies (
            #[trigger] builder.right_feat_ids_tmp@[i])@.len() <= builder.feat_template_size by {
                assert(rows[i] == builder.right_feat_ids_tmp@[i]@);
                lemma_max_row_len_bound(rows, i);
            }
            assert forall|i: int| 0 <= i < builder.left_feat_ids_tmp@.len() implies (
            #[trigger] builder.left_feat_ids_tmp@[i])@.len() <= builder.feat_template_size by {
                let j = builder.right_feat_ids_tmp@.len() + i;
                assert(rows[j] == builder.left_feat_ids_tmp@[i]@);
                lemma_max_row_len_bound(rows, j);
            }
        }
        let c = Self::from_builder(builder)?;
        Ok(c)
    }
}

proof fn lemma_max_row_len_bound(rows: Seq<Seq<u32>>, i: int)
    requires
        0 <= i < rows.len(),
    ensures
        rows[i].len() <= max_row_len(rows),
    decreases rows.len(),
{
    if i < rows.len() - 1 {
        lemma_max_row_len_bound(rows.drop_last(), i);
    }
}

impl RawConnector {
    /// Whether the tables are consistent: see [`Connector::conn_wf`].
    pub fn check_wf(&self) -> (r: bool)
        requires
            self.scorer_wf(),
        ensures
            r == self.conn_wf(),
    {
        let t = self.feat_template_size;
        if t == 0 {
            return false;
        }
        self.right_feat_ids.len() % t == 0 && self.left_feat_ids.len() % t == 0
            && self.right_feat_ids.len() / t <= 0x10000 && self.left_feat_ids.len() / t <= 0x10000
    }
}

impl Connector for RawConnector {
    open spec fn conn_wf(&self) -> bool {
        &&& self.blocks_per_id() > 0
        &&& self.right_blocks().len() % self.blocks_per_id() == 0
        &&& self.left_blocks().len() % self.blocks_per_id() == 0
        &&& self.right_len() <= 0x10000
        &&& self.left_len() <= 0x10000
        &&& self.scorer_wf()
    }

    open spec fn left_len(&self) -> nat {
        self.left_blocks().len() / self.blocks_per_id()
    }

    open spec fn right_len(&self) -> nat {
        self.right_blocks().len() / self.blocks_per_id()
    }

    open spec fn cost_of(&self, right_id: int, left_id: int) -> int {
        spec_accumulate(
            self.scorer_view(),
            block_row(self.right_blocks(), self.blocks_per_id() as int, right_id),
            block_row(self.left_blocks(), self.blocks_per_id() as int, left_id),
            (8 * self.blocks_per_id()) as int,
        ) as int
    }

    fn num_left(&self) -> (r: usize) {
        self.left_feat_ids.len() / self.feat_template_size
    }

    fn num_right(&self) -> (r: usize) {
        self.right_feat_ids.len() / self.feat_template_size
    }

    fn map_connection_ids(&mut self, mapper: &ConnIdMapper) {
        let t = self.feat_template_size;
        let nr = self.right_feat_ids.len() / t;
        let nl = self.left_feat_ids.len() / t;
        proof {
            vstd::arithmetic::div_mod::lemma_fundamental_div_mod(self.right_feat_ids@.len() as int, t as int);
            vstd::arithmetic::div_mod::lemma_fundamental_div_mod(self.left_feat_ids@.len() as int, t as int);
            assert(t * nr == nr * t) by (nonlinear_arith);
            assert(t * nl == nl * t) by (nonlinear_arith);
        }
        let ghost old_self = *self;
        let right = permute_blocks(&self.right_feat_ids, t, nr, mapper, true);
        let left = permute_blocks(&self.left_feat_ids, t, nl, mapper, false);
        self.right_feat_ids = right;
        self.left_feat_ids = left;
        assert forall|r: int, l: int|
            0 <= r < old_self.right_len() && 0 <= l < old_self.left_len() implies self.cost_of(
            mapper.right_map()[r] as int,
            mapper.left_map()[l] as int,
        ) == old_self.cost_of(r, l) by {
            let pr = mapper.right_map()[r] as int;
            let pl = mapper.left_map()[l] as int;
            assert(block_of(self.right_blocks(), t as int, chosen_map(mapper, true)[r] as int) == block_of(old_self.right_blocks(), t as int, r));
            assert(block_of(self.left_blocks(), t as int, chosen_map(mapper, false)[l] as int) == block_of(old_self.left_blocks(), t as int, l));
        }
    }
}

impl ConnectorCost for RawConnector {
    fn cost(&self, right_id: u16, left_id: u16) -> (r: i32) {
        let t = self.feat_template_size;
        let rlen = self.right_feat_ids.len();
        let llen = self.left_feat_ids.len();
        proof {
            lemma_block_fits(self.right_feat_ids@.len() as int, t as int, right_id as int);
            lemma_block_fits(self.left_feat_ids@.len() as int, t as int, left_id as int);
        }
        let rs = right_id as usize * t;
        let ls = left_id as usize * t;
        let rk = &self.right_feat_ids.as_slice()[rs..rs + t];
        let lk = &self.left_feat_ids.as_slice()[ls..ls + t];
        self.scorer.accumulate_cost(rk, lk)
    }
}

} // verus!

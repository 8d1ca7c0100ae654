//! Matrix of connection costs, read from `matrix.def`.
use vstd::prelude::*;
use vstd::utf8::*;

use crate::dictionary::connector::{Connector, ConnectorCost};
use crate::dictionary::mapper::ConnIdMapper;
use crate::errors::{Fault, VibratoError};
use crate::utils::{
    decode_utf8_chars, lines, parse_i16, parse_u16, parse_u32, spec_i16, spec_lines, spec_split,
    spec_u16, spec_u32, split_char,
};

verus! {

/// Matrix of connection costs.
pub struct MatrixConnector {
    data: Vec<i16>,
    num_right: u32,
    num_left: u32,
}

/// Position of the cost of `(right_id, left_id)` in a matrix of `num_right` columns.
pub open spec fn cell(num_right: int, right_id: int, left_id: int) -> int {
    left_id * num_right + right_id
}

/// The header of `matrix.def`: the numbers of right and left ids.
pub open spec fn matrix_header(line: Seq<u8>) -> Result<(u16, u16), Fault> {
    if !valid_utf8(line) {
        Err(Fault::Utf8)
    } else {
        let cols = spec_split(decode_utf8(line), ' ');
        if cols.len() != 2 {
            Err(Fault::Format)
        } else if spec_u16(cols[0]) is None || spec_u16(cols[1]) is None {
            Err(Fault::ParseInt)
        } else {
            Ok((spec_u16(cols[0])->0, spec_u16(cols[1])->0))
        }
    }
}

/// A body line of `matrix.def`: `None` for an empty line, else the right id, the
/// left id and the cost.
pub open spec fn matrix_row(line: Seq<u8>) -> Result<Option<(u32, u32, i16)>, Fault> {
    if !valid_utf8(line) {
        Err(Fault::Utf8)
    } else if line.len() == 0 {
        Ok(None)
    } else {
        let cols = spec_split(decode_utf8(line), ' ');
        if cols.len() != 3 {
            Err(Fault::Format)
        } else if spec_u32(cols[0]) is None || spec_u32(cols[1]) is None || spec_i16(cols[2]) is None {
            Err(Fault::ParseInt)
        } else {
            Ok(Some((spec_u32(cols[0])->0, spec_u32(cols[1])->0, spec_i16(cols[2])->0)))
        }
    }
}

/// The matrix after one body line.
pub open spec fn matrix_step(d: Seq<i16>, line: Seq<u8>, nr: int, nl: int) -> Result<Seq<i16>, Fault> {
    match matrix_row(line) {
        Err(f) => Err(f),
        Ok(None) => Ok(d),
        Ok(Some((r, l, c))) => if nr <= r || nl <= l {
            Err(Fault::Format)
        } else {
            Ok(d.update(cell(nr, r as int, l as int), c))
        },
    }
}

/// The matrix after the body lines `rows`, starting from `init`; the first failing
/// line gives the error.
pub open spec fn matrix_fill(rows: Seq<Seq<u8>>, nr: int, nl: int, init: Seq<i16>) -> Result<
    Seq<i16>,
    Fault,
>
    decreases rows.len(),
{
    if rows.len() == 0 {
        Ok(init)
    } else {
        match matrix_fill(rows.drop_last(), nr, nl, init) {
            Err(f) => Err(f),
            Ok(d) => matrix_step(d, rows.last(), nr, nl),
        }
    }
}

/// What `matrix.def` given as bytes denotes: the numbers of right and left ids and
/// the costs, all zero but those that a line sets.
pub open spec fn matrix_def(b: Seq<u8>) -> Result<(u16, u16, Seq<i16>), Fault> {
    let ls = spec_lines(b);
    match matrix_header(ls[0]) {
        Err(f) => Err(f),
        Ok((nr, nl)) => match matrix_fill(
            ls.drop_first(),
            nr as int,
            nl as int,
            Seq::new((nr * nl) as nat, |i: int| 0i16),
        ) {
            Err(f) => Err(f),
            Ok(d) => Ok((nr, nl, d)),
        },
    }
}

proof fn lemma_fill_err(rows: Seq<Seq<u8>>, nr: int, nl: int, init: Seq<i16>, k: int, f: Fault)
    requires
        0 <= k <= rows.len(),
        matrix_fill(rows.take(k), nr, nl, init) == Err::<Seq<i16>, Fault>(f),
    ensures
        matrix_fill(rows, nr, nl, init) == Err::<Seq<i16>, Fault>(f),
    decreases rows.len() - k,
{
    if k < rows.len() {
        assert(rows.take(k + 1).drop_last() =~= rows.take(k));
        lemma_fill_err(rows, nr, nl, init, k + 1, f);
    } else {
        assert(rows.take(k) =~= rows);
    }
}

pub proof fn lemma_cell_bound(nr: int, nl: int, r: int, l: int)
    by (nonlinear_arith)
    requires
        0 <= r < nr,
        0 <= l < nl,
    ensures
        0 <= l * nr + r < nl * nr,
        nl * nr == nr * nl,
{
}

pub proof fn lemma_cell_injective(nr: int, r1: int, l1: int, r2: int, l2: int)
    requires
        0 <= r1 < nr,
        0 <= r2 < nr,
        0 <= l1,
        0 <= l2,
        l1 * nr + r1 == l2 * nr + r2,
    ensures
        r1 == r2,
        l1 == l2,
{
    if l1 < l2 {
        assert((l1 + 1) * nr <= l2 * nr) by (nonlinear_arith)
            requires
                l1 + 1 <= l2,
                nr >= 0,
        ;
        assert((l1 + 1) * nr == l1 * nr + nr) by (nonlinear_arith);
    } else if l2 < l1 {
        assert((l2 + 1) * nr <= l1 * nr) by (nonlinear_arith)
            requires
                l2 + 1 <= l1,
                nr >= 0,
        ;
        assert((l2 + 1) * nr == l2 * nr + nr) by (nonlinear_arith);
    }
}

impl MatrixConnector {
    /// The costs, row by row: the cost of `(r, l)` is at `cell(num_right, r, l)`.
    pub closed spec fn table(&self) -> Seq<i16> {
        self.data@
    }

    /// Creates a connector from the costs and the numbers of right and left ids.
    pub fn new(data: Vec<i16>, num_right: u32, num_left: u32) -> (r: Self)
        ensures
            r.table() == data@,
            r.right_len() == num_right,
            r.left_len() == num_left,
            r.conn_wf() <==> data@.len() == num_right * num_left && num_right <= 0x10000
                && num_left <= 0x10000,
    {
        Self { data, num_right, num_left }
    }

    /// Creates a connector from the text of `matrix.def`: a header line with the
    /// numbers of right and left ids, then lines `right_id left_id cost`.
    pub fn from_reader(rdr: &[u8]) -> (r: Result<Self, VibratoError>)
        requires
            spec_lines(rdr@).len() > 0,
        ensures
            match (r, matrix_def(rdr@)) {
                (Ok(c), Ok((nr, nl, d))) => c.conn_wf() && c.right_len() == nr && c.left_len()
                    == nl && c.table() == d,
                (Err(e), Err(f)) => e.fault() == f,
                _ => false,
            },
    {
        let ls = lines(rdr);
        let ghost rows = ls.deep_view().drop_first();
        assert(ls[0]@ == ls.deep_view()[0]);
        let (nr, nl) = Self::parse_header(ls[0].as_slice())?;
        assert(nr * nl <= 0xffff * 0xffff) by (nonlinear_arith)
            requires
                nr <= 0xffff,
                nl <= 0xffff,
        ;
        let n = nr as usize * nl as usize;
        let data = vec![0i16; n];
        let ghost init = Seq::new((nr * nl) as nat, |i: int| 0i16);
        assert(data@ =~= init);
        let mut data = data;
        let total = ls.len();
        let mut k: usize = 1;
        assert(rows.take(0) =~= Seq::<Seq<u8>>::empty());
        while k < total
            invariant
                1 <= k <= total == ls.deep_view().len(),
                ls.deep_view() == spec_lines(rdr@),
                rows == ls.deep_view().drop_first(),
                nr <= 0xffff,
                nl <= 0xffff,
                matrix_header(ls.deep_view()[0]) == Ok::<(u16, u16), Fault>((nr as u16, nl as u16)),
                init == Seq::new((nr * nl) as nat, |i: int| 0i16),
                n == nr * nl,
                matrix_fill(rows.take(k - 1), nr as int, nl as int, init) == Ok::<Seq<i16>, Fault>(
                    data@,
                ),
                data@.len() == nr * nl,
            decreases total - k,
        {
            let ghost before = data@;
            proof {
                assert(rows.take(k as int).drop_last() =~= rows.take(k - 1));
                assert(rows.take(k as int).last() == ls.deep_view()[k as int]);
                assert(ls[k as int]@ == ls.deep_view()[k as int]);
            }
            match Self::parse_body(ls[k].as_slice()) {
                Err(e) => {
                    proof {
                        lemma_fill_err(rows, nr as int, nl as int, init, k as int, e.fault());
                    }
                    return Err(e);
                },
                Ok(None) => {},
                Ok(Some((right_id, left_id, c))) => {
                    if nr <= right_id || nl <= left_id {
                        let e = VibratoError::invalid_format(
                            "matrix.def",
                            "left/right_id must be within num_left/right.",
                        );
                        proof {
                            lemma_fill_err(rows, nr as int, nl as int, init, k as int, e.fault());
                        }
                        return Err(e);
                    }
                    proof {
                        lemma_cell_bound(nr as int, nl as int, right_id as int, left_id as int);
                        assert(left_id * nr <= left_id * nr + right_id);
                        assert((left_id as usize) * (nr as usize) + (right_id as usize) < data@.len());
                    }
                    let idx = left_id as usize * nr as usize + right_id as usize;
                    data.set(idx, c);
                },
            }
            assert(matrix_fill(rows.take(k as int), nr as int, nl as int, init) == Ok::<
                Seq<i16>,
                Fault,
            >(data@));
            k = k + 1;
        }
        assert(rows.take(total - 1) =~= rows);
        Ok(Self::new(data, nr, nl))
    }

    /// Reads the header line.
    fn parse_header(line: &[u8]) -> (r: Result<(u32, u32), VibratoError>)
        ensures
            match (r, matrix_header(line@)) {
                (Ok((a, b)), Ok((x, y))) => a == x && b == y,
                (Err(e), Err(f)) => e.fault() == f,
                _ => false,
            },
    {
        let chars = decode_utf8_chars(line)?;
        let cols = split_char(chars.as_slice(), ' ');
        assert(cols.deep_view() == spec_split(decode_utf8(line@), ' '));
        if cols.len() != 2 {
            return Err(
                VibratoError::invalid_format(
                    "matrix.def",
                    "The header must consists of two integers separated by spaces",
                ),
            );
        }
        assert(cols[0]@ == cols.deep_view()[0]);
        assert(cols[1]@ == cols.deep_view()[1]);
        let num_right = parse_u16(cols[0].as_slice())?;
        let num_left = parse_u16(cols[1].as_slice())?;
        Ok((num_right as u32, num_left as u32))
    }

    /// Reads a body line; `None` for an empty line.
    fn parse_body(line: &[u8]) -> (r: Result<Option<(u32, u32, i16)>, VibratoError>)
        ensures
            match (r, matrix_row(line@)) {
                (Ok(a), Ok(b)) => a == b,
                (Err(e), Err(f)) => e.fault() == f,
                _ => false,
            },
    {
        let chars = decode_utf8_chars(line)?;
        if line.len() == 0 {
            return Ok(None);
        }
        let cols = split_char(chars.as_slice(), ' ');
        assert(cols.deep_view() == spec_split(decode_utf8(line@), ' '));
        if cols.len() != 3 {
            return Err(
                VibratoError::invalid_format(
                    "matrix.def",
                    "A row other than the header must consists of three integers separated by spaces",
                ),
            );
        }
        assert(cols[0]@ == cols.deep_view()[0]);
        assert(cols[1]@ == cols.deep_view()[1]);
        assert(cols[2]@ == cols.deep_view()[2]);
        let right_id = parse_u32(cols[0].as_slice())?;
        let left_id = parse_u32(cols[1].as_slice())?;
        let cost = parse_i16(cols[2].as_slice())?;
        Ok(Some((right_id, left_id, cost)))
    }
}

impl Connector for MatrixConnector {
    open spec fn conn_wf(&self) -> bool {
        &&& self.table().len() == self.right_len() * self.left_len()
        &&& self.right_len() <= 0x10000
        &&& self.left_len() <= 0x10000
    }

    closed spec fn left_len(&self) -> nat {
        self.num_left as nat
    }

    closed spec fn right_len(&self) -> nat {
        self.num_right as nat
    }

    open spec fn cost_of(&self, right_id: int, left_id: int) -> int {
        self.table()[cell(self.right_len() as int, right_id, left_id)] as int
    }

    fn num_left(&self) -> (r: usize) {
        self.num_left as usize
    }

    fn num_right(&self) -> (r: usize) {
        self.num_right as usize
    }

    fn map_connection_ids(&mut self, mapper: &ConnIdMapper) {
        let nr = self.num_right;
        let nl = self.num_left;
        let ghost mr = mapper.right_map();
        let ghost ml = mapper.left_map();
        let ghost src = self.data@;
        let mut mapped = vec![0i16; self.data.len()];
        let mut r: u32 = 0;
        while r < nr
            invariant
                r <= nr == self.num_right,
                nl == self.num_left,
                nr <= 0x10000,
                nl <= 0x10000,
                self.data@ == src,
                src.len() == nr * nl,
                src.len() <= usize::MAX,
                mapped@.len() == src.len(),
                mr == mapper.right_map(),
                ml == mapper.left_map(),
                mr.len() == nr,
                ml.len() == nl,
                mapper.wf(),
                forall|a: int, b: int|
                    0 <= a < r && 0 <= b < nl ==> #[trigger] mapped@[cell(
                        nr as int,
                        mr[a] as int,
                        ml[b] as int,
                    )] == src[cell(nr as int, a, b)],
            decreases nr - r,
        {
            let new_r = mapper.right(r as u16);
            let mut l: u32 = 0;
            while l < nl
                invariant
                    r < nr == self.num_right,
                    l <= nl == self.num_left,
                    nr <= 0x10000,
                    nl <= 0x10000,
                    self.data@ == src,
                    src.len() == nr * nl,
                    src.len() <= usize::MAX,
                    mapped@.len() == src.len(),
                    mr == mapper.right_map(),
                    ml == mapper.left_map(),
                    mr.len() == nr,
                    ml.len() == nl,
                    mapper.wf(),
                    new_r == mr[r as int],
                    forall|a: int, b: int|
                        (0 <= a < r && 0 <= b < nl) || (a == r && 0 <= b < l) ==> #[trigger] mapped@[cell(
                            nr as int,
                            mr[a] as int,
                            ml[b] as int,
                        )] == src[cell(nr as int, a, b)],
                decreases nl - l,
            {
                let new_l = mapper.left(l as u16);
                proof {
                    lemma_cell_bound(nr as int, nl as int, r as int, l as int);
                    lemma_cell_bound(nr as int, nl as int, new_r as int, new_l as int);
                    assert(l * nr <= l * nr + r);
                    assert(new_l * nr <= new_l * nr + new_r);
                }
                let index = l as usize * nr as usize + r as usize;
                let new_index = new_l as usize * nr as usize + new_r as usize;
                let ghost before = mapped@;
                mapped.set(new_index, self.data[index]);
                assert forall|a: int, b: int|
                    (0 <= a < r && 0 <= b < nl) || (a == r && 0 <= b < l + 1) implies #[trigger] mapped@[cell(
                        nr as int,
                        mr[a] as int,
                        ml[b] as int,
                    )] == src[cell(nr as int, a, b)] by {
                    if a != r || b != l {
                        assert(0 <= mr[a] < nr && 0 <= ml[b] < nl);
                        lemma_cell_bound(nr as int, nl as int, mr[a] as int, ml[b] as int);
                        if cell(nr as int, mr[a] as int, ml[b] as int) == new_index {
                            lemma_cell_injective(
                                nr as int,
                                mr[a] as int,
                                ml[b] as int,
                                new_r as int,
                                new_l as int,
                            );
                            assert(mr[a] == mr[r as int]);
                            assert(ml[b] == ml[l as int]);
                            assert(false);
                        }
                        assert(mapped@[cell(nr as int, mr[a] as int, ml[b] as int)] == before[cell(
                            nr as int,
                            mr[a] as int,
                            ml[b] as int,
                        )]);
                    } else {
                        assert(cell(nr as int, mr[a] as int, ml[b] as int) == new_index);
                        assert(index == cell(nr as int, a, b));
                    }
                }
                l = l + 1;
            }
            r = r + 1;
        }
        self.data = mapped;
    }
}

impl ConnectorCost for MatrixConnector {
    fn cost(&self, right_id: u16, left_id: u16) -> (r: i32) {
        let len = self.data.len();
        proof {
            lemma_cell_bound(
                self.num_right as int,
                self.num_left as int,
                right_id as int,
                left_id as int,
            );
            assert(left_id * self.num_right <= left_id * self.num_right + right_id);
        }
        let index = left_id as usize * self.num_right as usize + right_id as usize;
        self.data[index] as i32
    }
}

} // verus!

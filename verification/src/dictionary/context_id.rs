//! Connection ids of BOS/EOS, read from `left-id.def` and `right-id.def`.
use vstd::prelude::*;
use vstd::utf8::*;

use crate::errors::{Fault, VibratoError};
use crate::utils::{
    decode_utf8_chars, index_of, lemma_index_of_bound, lines, parse_u16, spec_lines, spec_u16, starts_with,
};

verus! {

/// The feature that marks BOS/EOS.
pub open spec fn bos_eos() -> Seq<char> {
    seq!['B', 'O', 'S', '/', 'E', 'O', 'S']
}

/// The id text of the first line whose feature (after the first space) starts
/// with `BOS/EOS`; an invalid-format fault when there is none, a UTF-8 fault at
/// an earlier line that is not UTF-8.
pub open spec fn bos_eos_id_text(ls: Seq<Seq<u8>>) -> Result<Seq<char>, Fault>
    decreases ls.len(),
{
    if ls.len() == 0 {
        Err(Fault::Format)
    } else if !valid_utf8(ls[0]) {
        Err(Fault::Utf8)
    } else {
        let c = decode_utf8(ls[0]);
        let i = index_of(c, ' ');
        let feature = c.skip(i + 1);
        if bos_eos().len() <= feature.len() && feature.take(bos_eos().len() as int) == bos_eos() {
            Ok(c.take(i))
        } else {
            bos_eos_id_text(ls.drop_first())
        }
    }
}

/// Every line read before the result is known has a space.
pub open spec fn spaces_ok(ls: Seq<Seq<u8>>) -> bool
    decreases ls.len(),
{
    if ls.len() == 0 || !valid_utf8(ls[0]) {
        true
    } else {
        let c = decode_utf8(ls[0]);
        let i = index_of(c, ' ');
        let feature = c.skip(i + 1);
        &&& i < c.len()
        &&& (bos_eos().len() <= feature.len() && feature.take(bos_eos().len() as int) == bos_eos())
            || spaces_ok(ls.drop_first())
    }
}

/// What an id file gives: the id of BOS/EOS, or the fault.
pub open spec fn id_def(b: Seq<u8>) -> Result<u16, Fault> {
    match bos_eos_id_text(spec_lines(b)) {
        Ok(t) => match spec_u16(t) {
            Some(v) => Ok(v),
            None => Err(Fault::ParseInt),
        },
        Err(f) => Err(f),
    }
}

/// Connection ids of BOS/EOS.
pub struct ContextIds {
    bos_right_id: u16,
    eos_left_id: u16,
}

impl ContextIds {
    /// The right id of BOS.
    pub closed spec fn bos_right_view(&self) -> u16 {
        self.bos_right_id
    }

    /// The left id of EOS.
    pub closed spec fn eos_left_view(&self) -> u16 {
        self.eos_left_id
    }

    /// The right id of BOS.
    pub fn bos_right_id(&self) -> (r: u16)
        ensures
            r == self.bos_right_view(),
    {
        self.bos_right_id
    }

    /// The left id of EOS.
    pub fn eos_left_id(&self) -> (r: u16)
        ensures
            r == self.eos_left_view(),
    {
        self.eos_left_id
    }

    /// Reads the ids of BOS/EOS from `left-id.def` and `right-id.def`: each line
    /// is an id, a space and a feature; the id of the first line whose feature
    /// starts with `BOS/EOS` is taken.
    pub fn from_readers(left_id_rdr: &[u8], right_id_rdr: &[u8]) -> (r: Result<Self, VibratoError>)
        requires
            spaces_ok(spec_lines(left_id_rdr@)),
            spaces_ok(spec_lines(right_id_rdr@)),
        ensures
            match (id_def(left_id_rdr@), id_def(right_id_rdr@)) {
                (Ok(l), Ok(rr)) => r matches Ok(c) && c.eos_left_view() == l && c.bos_right_view() == rr,
                (Err(f), _) => r matches Err(e) && e.fault() == f,
                (Ok(_), Err(f)) => r matches Err(e) && e.fault() == f,
            },
    {
        let eos_left_id = Self::parse_reader(left_id_rdr)?;
        let bos_right_id = Self::parse_reader(right_id_rdr)?;
        Ok(Self { bos_right_id, eos_left_id })
    }

    /// Reads the id of BOS/EOS from an id file.
    fn parse_reader(rdr: &[u8]) -> (r: Result<u16, VibratoError>)
        requires
            spaces_ok(spec_lines(rdr@)),
        ensures
            match id_def(rdr@) {
                Ok(v) => r == Ok::<u16, VibratoError>(v),
                Err(f) => r matches Err(e) && e.fault() == f,
            },
    {
        let ls = lines(rdr);
        let ghost all = ls.deep_view();
        let marker = vec!['B', 'O', 'S', '/', 'E', 'O', 'S'];
        assert(marker@ == bos_eos());
        let n = ls.len();
        let mut k: usize = 0;
        assert(all.skip(0) =~= all);
        while k < n
            invariant
                k <= n == all.len(),
                all == ls.deep_view(),
                all == spec_lines(rdr@),
                marker@ == bos_eos(),
                bos_eos_id_text(all.skip(k as int)) == bos_eos_id_text(all),
                spaces_ok(all.skip(k as int)),
            decreases n - k,
        {
            let ghost rest = all.skip(k as int);
            assert(rest[0] == all[k as int]);
            assert(rest.drop_first() =~= all.skip(k + 1));
            assert(ls[k as int]@ == all[k as int]);
            let chars = decode_utf8_chars(ls[k].as_slice())?;
            let m = chars.len();
            let mut i: usize = 0;
            while i < m && chars[i] != ' '
                invariant
                    i <= m == chars@.len(),
                    forall|j: int| 0 <= j < i ==> chars@[j] != ' ',
                decreases m - i,
            {
                i = i + 1;
            }
            proof {
                crate::utils::lemma_index_of(chars@, ' ', i as int);
            }
            let feature = &chars.as_slice()[i + 1..m];
            assert(feature@ == chars@.skip(i + 1));
            if starts_with(feature, marker.as_slice()) {
                let id = &chars.as_slice()[0..i];
                assert(id@ == chars@.take(i as int));
                return parse_u16(id);
            }
            k = k + 1;
        }
        assert(all.skip(n as int) =~= Seq::<Seq<u8>>::empty());
        Err(VibratoError::invalid_format("left/right-id.def", "BOS/EOS is not defined."))
    }
}

} // verus!

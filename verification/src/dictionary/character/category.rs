//! Sets of the predefined character categories, one bit per category (as in
//! sudachi.rs).
use vstd::prelude::*;
use vstd::std_specs::bits::{axiom_u32_trailing_zeros, u32_trailing_zeros};

use crate::errors::VibratoError;
use crate::utils::{chars_eq, chars_of};

verus! {

/// Number of predefined categories.
pub const NUM_CATEGORIES: usize = 11;

/// The name of the predefined category `id`, if any.
pub open spec fn category_name(id: int) -> Option<Seq<char>> {
    if id == 0 {
        Some("DEFAULT"@)
    } else if id == 1 {
        Some("SPACE"@)
    } else if id == 2 {
        Some("KANJI"@)
    } else if id == 3 {
        Some("SYMBOL"@)
    } else if id == 4 {
        Some("NUMERIC"@)
    } else if id == 5 {
        Some("ALPHA"@)
    } else if id == 6 {
        Some("HIRAGANA"@)
    } else if id == 7 {
        Some("KATAKANA"@)
    } else if id == 8 {
        Some("KANJINUMERIC"@)
    } else if id == 9 {
        Some("GREEK"@)
    } else if id == 10 {
        Some("CYRILLIC"@)
    } else {
        None
    }
}

/// The first id from `id` on of a predefined category named `name`, if any.
pub open spec fn find_category(name: Seq<char>, id: int) -> Option<u32>
    decreases 11 - id,
{
    if id >= 11 {
        None
    } else if category_name(id) == Some(name) {
        Some(id as u32)
    } else {
        find_category(name, id + 1)
    }
}

/// The id of the predefined category named `name`, if any.
pub open spec fn category_id(name: Seq<char>) -> Option<u32> {
    find_category(name, 0)
}

/// What `str::to_uppercase` gives for `s`.
pub uninterp spec fn uppercase(s: Seq<char>) -> Seq<char>;

/// `str::to_uppercase`: the Unicode upper case of `s`, a function of `s` alone.
#[verifier::external_body]
fn to_uppercase(s: &str) -> (r: String)
    ensures
        r@ == uppercase(s@),
{
    s.to_uppercase()
}

/// Bit `i` of `bits` is set.
pub open spec fn has_bit(bits: u32, i: u32) -> bool {
    (bits >> i) & 1u32 == 1u32
}

/// The ids below `n` whose bits are set, in increasing order.
pub open spec fn ids_below(bits: u32, n: int) -> Seq<u32>
    decreases n,
{
    if n <= 0 {
        seq![]
    } else {
        ids_below(bits, n - 1) + if has_bit(bits, (n - 1) as u32) {
            seq![(n - 1) as u32]
        } else {
            seq![]
        }
    }
}

/// A set of the predefined character categories.
#[derive(Clone, Copy, Debug, PartialEq, Eq, Structural)]
pub struct CategorySet {
    bits: u32,
}

impl CategorySet {
    /// The bits of the set.
    pub closed spec fn bits(&self) -> u32 {
        self.bits
    }

    /// Only predefined categories are in the set.
    pub open spec fn wf(&self) -> bool {
        self.bits() < 0x800
    }

    /// The empty set.
    pub fn new() -> (r: Self)
        ensures
            r.bits() == 0,
    {
        Self { bits: 0 }
    }

    /// The set of category `id` alone.
    pub fn from_id(id: u32) -> (r: Self)
        requires
            (id as int) < NUM_CATEGORIES,
        ensures
            r.bits() == 1u32 << id,
            r.wf(),
    {
        assert(id < 11 ==> (1u32 << id) < 0x800) by (bit_vector);
        Self { bits: 1u32 << id }
    }

    /// The smallest id in the set, if any.
    pub fn first_id(&self) -> (r: Option<u32>)
        ensures
            self.bits() == 0 ==> r is None,
            self.bits() != 0 ==> (r matches Some(id) && id < 32 && has_bit(self.bits(), id) && forall|j: u32|
                j < id ==> !has_bit(self.bits(), j)),
    {
        if self.bits == 0 {
            None
        } else {
            proof {
                axiom_u32_trailing_zeros(self.bits);
            }
            Some(self.bits.trailing_zeros())
        }
    }

    /// The bits of the set.
    pub fn raw(&self) -> (r: u32)
        ensures
            r == self.bits(),
    {
        self.bits
    }

    /// The number of categories in the set.
    pub fn len(&self) -> (r: u32)
        ensures
            r == ids_below(self.bits(), 32).len(),
    {
        let mut count: u32 = 0;
        let mut i: u32 = 0;
        while i < 32
            invariant
                i <= 32,
                count == ids_below(self.bits, i as int).len(),
                count <= i,
            decreases 32 - i,
        {
            if (self.bits >> i) & 1 == 1 {
                count = count + 1;
            }
            i = i + 1;
        }
        count
    }

    /// An iterator over the ids in the set, smallest first.
    pub fn id_iter(&self) -> (r: CategoryIdIter)
        ensures
            r.bits() == self.bits(),
    {
        CategoryIdIter { bits: self.bits }
    }

    /// The name of the predefined category `cate_id`, if any.
    pub fn cate_str(cate_id: u32) -> (r: Option<String>)
        ensures
            match category_name(cate_id as int) {
                Some(name) => r matches Some(s) && s@ == name,
                None => r is None,
            },
    {
        let s = match cate_id {
            0 => "DEFAULT",
            1 => "SPACE",
            2 => "KANJI",
            3 => "SYMBOL",
            4 => "NUMERIC",
            5 => "ALPHA",
            6 => "HIRAGANA",
            7 => "KATAKANA",
            8 => "KANJINUMERIC",
            9 => "GREEK",
            10 => "CYRILLIC",
            _ => {
                return None;
            },
        };
        Some(s.to_owned())
    }

    /// The names of the categories in the set, smallest id first.
    pub fn cate_strs(&self) -> (r: Vec<String>)
        requires
            self.wf(),
        ensures
            r@.len() == ids_below(self.bits(), 11).len(),
            forall|k: int|
                0 <= k < r@.len() ==> category_name(ids_below(self.bits(), 11)[k] as int) == Some(
                    #[trigger] r@[k]@,
                ),
    {
        let mut cates: Vec<String> = Vec::new();
        let mut id: u32 = 0;
        while id < 11
            invariant
                id <= 11,
                cates@.len() == ids_below(self.bits, id as int).len(),
                forall|k: int|
                    0 <= k < cates@.len() ==> category_name(ids_below(self.bits, id as int)[k] as int) == Some(
                        #[trigger] cates@[k]@,
                    ),
                forall|k: int| 0 <= k < ids_below(self.bits, id as int).len() ==> ids_below(self.bits, id as int)[k] < id,
            decreases 11 - id,
        {
            let ghost before = ids_below(self.bits, id as int);
            if (self.bits >> id) & 1 == 1 {
                match Self::cate_str(id) {
                    Some(s) => {
                        cates.push(s);
                    },
                    None => {},
                }
                assert(ids_below(self.bits, id + 1) == before.push(id));
            } else {
                assert(ids_below(self.bits, id + 1) =~= before);
            }
            id = id + 1;
        }
        cates
    }

    /// The category named `s` in any case (compared after `str::to_uppercase`).
    ///
    /// Fails with an invalid-argument error for other names.
    pub fn parse(s: &str) -> (r: Result<Self, VibratoError>)
        ensures
            match category_id(uppercase(s@)) {
                Some(id) => r matches Ok(c) && c.bits() == 1u32 << id,
                None => r matches Err(e) && e is InvalidArgument,
            },
    {
        let up = to_uppercase(s);
        let name = chars_of(up.as_str());
        let mut id: u32 = 0;
        while id < 11
            invariant
                id <= 11,
                name@ == uppercase(s@),
                find_category(name@, 0) == find_category(name@, id as int),
            decreases 11 - id,
        {
            match Self::cate_str(id) {
                Some(c) => {
                    let cc = chars_of(c.as_str());
                    if chars_eq(cc.as_slice(), name.as_slice()) {
                        assert(category_name(id as int) == Some(name@));
                        return Ok(Self::from_id(id));
                    }
                },
                None => {},
            }
            id = id + 1;
        }
        Err(VibratoError::invalid_argument("s", "Undefined category name"))
    }
}

impl std::str::FromStr for CategorySet {
    type Err = VibratoError;

    fn from_str(s: &str) -> (r: Result<Self, Self::Err>)
        ensures
            match category_id(uppercase(s@)) {
                Some(id) => r matches Ok(c) && c.bits() == 1u32 << id,
                None => r matches Err(e) && e is InvalidArgument,
            },
    {
        Self::parse(s)
    }
}

/// Iterator over the ids of a [`CategorySet`], smallest first.
pub struct CategoryIdIter {
    bits: u32,
}

impl CategoryIdIter {
    /// The ids not yet given.
    pub closed spec fn bits(&self) -> u32 {
        self.bits
    }

    /// The smallest id not yet given, if any, which is then removed.
    pub fn next(&mut self) -> (r: Option<u32>)
        ensures
            old(self).bits() == 0 ==> r is None && final(self).bits() == 0,
            old(self).bits() != 0 ==> (r matches Some(id) && id < 32 && has_bit(old(self).bits(), id)
                && (forall|j: u32| j < id ==> !has_bit(old(self).bits(), j)) && final(self).bits()
                == old(self).bits() ^ (1u32 << id)),
    {
        if self.bits == 0 {
            return None;
        }
        proof {
            axiom_u32_trailing_zeros(self.bits);
        }
        let numtz = self.bits.trailing_zeros();
        let mask = 1u32 << numtz;
        self.bits = self.bits ^ mask;
        Some(numtz)
    }
}

} // verus!

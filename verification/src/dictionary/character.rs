//! Character definitions (`char.def`).
use vstd::prelude::*;

pub mod category;
use vstd::utf8::*;

use crate::errors::VibratoError;
use crate::utils::{
    chars_eq, chars_of, decode_utf8_chars, index_of, lemma_index_of, lemma_index_of_bound, lines,
    parse_u16, parse_usize, spec_lines, spec_split_ws, spec_trim, spec_u16, spec_usize,
    split_whitespace, string_from_chars, trim,
};

verus! {

/// Number of bits of the category id set.
pub const CATE_IDSET_BITS: u32 = 18;

/// Information of a character defined in `char.def`, packed in 32 bits:
/// the category id set (18 bits), the base category id (8 bits), the invoke flag
/// (1 bit), the group flag (1 bit) and the length (4 bits), from the low bits up.
#[derive(Clone, Copy, Debug)]
pub struct CharInfo(u32);

/// The packed form of the five fields.
pub open spec fn pack_char_info(cate_idset: u32, base_id: u32, invoke: bool, group: bool, length: u16) -> u32 {
    (cate_idset | (base_id << 18u32) | ((if invoke { 1u32 } else { 0u32 }) << 26u32) | ((if group {
        1u32
    } else {
        0u32
    }) << 27u32) | ((length as u32) << 28u32)) as u32
}

impl CharInfo {
    /// The packed bits.
    pub closed spec fn raw(self) -> u32 {
        self.0
    }

    /// The set of category ids, one bit per id.
    pub open spec fn spec_cate_idset(self) -> u32 {
        self.raw() & 0x3ffffu32
    }

    /// The base category id.
    pub open spec fn spec_base_id(self) -> u32 {
        (self.raw() >> 18u32) & 0xffu32
    }

    /// Whether unknown words are always generated.
    pub open spec fn spec_invoke(self) -> bool {
        (self.raw() >> 26u32) & 1u32 != 0
    }

    /// Whether characters of the same category are grouped.
    pub open spec fn spec_group(self) -> bool {
        (self.raw() >> 27u32) & 1u32 != 0
    }

    /// The maximum length of unknown words.
    pub open spec fn spec_length(self) -> u16 {
        (self.raw() >> 28u32) as u16
    }

    /// The information whose fields are the given ones.
    pub open spec fn has_fields(self, cate_idset: u32, base_id: u32, invoke: bool, group: bool, length: u16) -> bool {
        &&& self.spec_cate_idset() == cate_idset
        &&& self.spec_base_id() == base_id
        &&& self.spec_invoke() == invoke
        &&& self.spec_group() == group
        &&& self.spec_length() == length
    }

    /// Packs the fields, or returns `None` if one of them does not fit its bits.
    pub fn new(cate_idset: u32, base_id: u32, invoke: bool, group: bool, length: u16) -> (r: Option<Self>)
        ensures
            r is Some <==> (cate_idset < 0x40000 && base_id < 0x100 && length < 16),
            r matches Some(c) ==> c.has_fields(cate_idset, base_id, invoke, group, length)
                && c.raw() == pack_char_info(cate_idset, base_id, invoke, group, length),
    {
        if cate_idset >> 18u32 != 0 {
            assert(cate_idset >> 18u32 != 0 ==> cate_idset >= 0x40000) by (bit_vector);
            return None;
        }
        if base_id >> 8u32 != 0 {
            assert(base_id >> 8u32 != 0 ==> base_id >= 0x100) by (bit_vector);
            return None;
        }
        if length >> 4u16 != 0 {
            assert(length >> 4u16 != 0 ==> length >= 16) by (bit_vector);
            return None;
        }
        let iv: u32 = if invoke { 1 } else { 0 };
        let gv: u32 = if group { 1 } else { 0 };
        let l32: u32 = length as u32;
        let raw: u32 = cate_idset | (base_id << 18u32) | (iv << 26u32) | (gv << 27u32) | (l32 << 28u32);
        assert(cate_idset >> 18u32 == 0 && base_id >> 8u32 == 0 && l32 < 16 && iv <= 1 && gv <= 1
            ==> {
            let x = cate_idset | (base_id << 18u32) | (iv << 26u32) | (gv << 27u32) | (l32 << 28u32);
            &&& x & 0x3ffffu32 == cate_idset
            &&& (x >> 18u32) & 0xffu32 == base_id
            &&& (x >> 26u32) & 1u32 == iv
            &&& (x >> 27u32) & 1u32 == gv
            &&& x >> 28u32 == l32
        }) by (bit_vector);
        assert(length >> 4u16 == 0 ==> (length as u32) < 16) by (bit_vector);
        assert(cate_idset >> 18u32 == 0 ==> cate_idset < 0x40000) by (bit_vector);
        assert(base_id >> 8u32 == 0 ==> base_id < 0x100) by (bit_vector);
        Some(CharInfo(raw))
    }

    /// Replaces the category id set by `cate_idset`.
    pub fn reset_cate_idset(&mut self, cate_idset: u32)
        requires
            cate_idset < 0x40000,
        ensures
            final(self).has_fields(
                cate_idset,
                old(self).spec_base_id(),
                old(self).spec_invoke(),
                old(self).spec_group(),
                old(self).spec_length(),
            ),
    {
        let x = self.0;
        let y = (x & !0x3ffffu32) | cate_idset;
        assert(cate_idset < 0x40000 ==> {
            let y = (x & !0x3ffffu32) | cate_idset;
            &&& y & 0x3ffffu32 == cate_idset
            &&& (y >> 18u32) & 0xffu32 == (x >> 18u32) & 0xffu32
            &&& (y >> 26u32) & 1u32 == (x >> 26u32) & 1u32
            &&& (y >> 27u32) & 1u32 == (x >> 27u32) & 1u32
            &&& y >> 28u32 == x >> 28u32
        }) by (bit_vector);
        self.0 = y;
    }

    /// The set of category ids.
    pub fn cate_idset(&self) -> (r: u32)
        ensures
            r == self.spec_cate_idset(),
    {
        self.0 & 0x3ffffu32
    }

    /// The base category id.
    pub fn base_id(&self) -> (r: u32)
        ensures
            r == self.spec_base_id(),
            r < 0x100,
    {
        let x = self.0;
        assert((x >> 18u32) & 0xffu32 < 0x100) by (bit_vector);
        (x >> 18u32) & 0xffu32
    }

    /// Whether unknown words are always generated.
    pub fn invoke(&self) -> (r: bool)
        ensures
            r == self.spec_invoke(),
    {
        (self.0 >> 26u32) & 1u32 != 0
    }

    /// Whether characters of the same category are grouped.
    pub fn group(&self) -> (r: bool)
        ensures
            r == self.spec_group(),
    {
        (self.0 >> 27u32) & 1u32 != 0
    }

    /// The maximum length of unknown words.
    pub fn length(&self) -> (r: u16)
        ensures
            r == self.spec_length(),
            r < 16,
    {
        let x = self.0;
        assert(x >> 28u32 < 16) by (bit_vector);
        (x >> 28u32) as u16
    }
}

/// Packing and unpacking agree: the fields of a packed value are the fields it was
/// packed from, when each fits its bits.
pub proof fn lemma_char_info_roundtrip(cate_idset: u32, base_id: u32, invoke: bool, group: bool, length: u16)
    requires
        cate_idset < 0x40000,
        base_id < 0x100,
        length < 16,
    ensures
        ({
            let x = pack_char_info(cate_idset, base_id, invoke, group, length);
            &&& x & 0x3ffffu32 == cate_idset
            &&& (x >> 18u32) & 0xffu32 == base_id
            &&& ((x >> 26u32) & 1u32 != 0) == invoke
            &&& ((x >> 27u32) & 1u32 != 0) == group
            &&& (x >> 28u32) as u16 == length
        }),
{
    let iv: u32 = if invoke { 1 } else { 0 };
    let gv: u32 = if group { 1 } else { 0 };
    let l32: u32 = length as u32;
    assert(cate_idset < 0x40000 && base_id < 0x100 && l32 < 16 && iv <= 1 && gv <= 1 ==> {
        let x = (cate_idset | (base_id << 18u32) | (iv << 26u32) | (gv << 27u32) | (l32 << 28u32)) as u32;
        &&& x & 0x3ffffu32 == cate_idset
        &&& (x >> 18u32) & 0xffu32 == base_id
        &&& (x >> 26u32) & 1u32 == iv
        &&& (x >> 27u32) & 1u32 == gv
        &&& x >> 28u32 == l32
    }) by (bit_vector);
}

// ---------------------------------------------------------------------
// char.def
// ---------------------------------------------------------------------

/// Flags and length of a category definition: (invoke, group, length).
pub type CateDef = (bool, bool, u16);

/// A character range line: (start, end, category names).
pub type RangeDef = (int, int, Seq<Seq<char>>);

/// State of reading `char.def`: category names (indexed by id), their definitions,
/// and the character ranges read so far.
pub type CharDefState = (Seq<Seq<char>>, Seq<Option<CateDef>>, Seq<RangeDef>);

/// The name of the default category.
pub open spec fn default_name() -> Seq<char> {
    seq!['D', 'E', 'F', 'A', 'U', 'L', 'T']
}

/// `1` or `0` as a flag.
pub open spec fn spec_flag(c: Seq<char>) -> Option<bool> {
    if c == seq!['1'] {
        Some(true)
    } else if c == seq!['0'] {
        Some(false)
    } else {
        None
    }
}

/// A category line `NAME INVOKE GROUP LENGTH [...]`.
pub open spec fn spec_category_line(t: Seq<char>) -> Option<(Seq<char>, CateDef)> {
    let cols = spec_split_ws(t);
    if cols.len() < 4 {
        None
    } else if spec_flag(cols[1]) is None || spec_flag(cols[2]) is None || spec_u16(cols[3]) is None {
        None
    } else {
        Some((cols[0], (spec_flag(cols[1])->0, spec_flag(cols[2])->0, spec_u16(cols[3])->0)))
    }
}

/// `s` without all leading `0x` (`str::trim_start_matches("0x")`).
pub open spec fn strip_0x(s: Seq<char>) -> Seq<char>
    decreases s.len(),
{
    if s.len() >= 2 && s[0] == '0' && s[1] == 'x' {
        strip_0x(s.skip(2))
    } else {
        s
    }
}

/// Index of the first `..` in `s`, or `s.len()` if there is none.
pub open spec fn index_of_dots(s: Seq<char>) -> int
    decreases s.len(),
{
    if s.len() < 2 {
        s.len() as int
    } else if s[0] == '.' && s[1] == '.' {
        0
    } else {
        1 + index_of_dots(s.drop_first())
    }
}

/// The first piece of `s` split at `..`.
pub open spec fn first_piece(s: Seq<char>) -> Seq<char> {
    s.take(index_of_dots(s))
}

/// The second piece of `s` split at `..`, if there is one.
pub open spec fn second_piece(s: Seq<char>) -> Option<Seq<char>> {
    let i = index_of_dots(s);
    if i >= s.len() {
        None
    } else {
        Some(first_piece(s.skip(i + 2)))
    }
}

/// The hexadecimal code of a range bound, after removing `0x`.
pub open spec fn spec_hex(s: Seq<char>) -> Option<usize> {
    spec_usize(strip_0x(s), 16)
}

/// The columns after the first one, up to one that starts with `#`.
pub open spec fn take_categories(cols: Seq<Seq<char>>) -> Seq<Seq<char>>
    decreases cols.len(),
{
    if cols.len() == 0 || (cols[0].len() > 0 && cols[0][0] == '#') {
        seq![]
    } else {
        seq![cols[0]] + take_categories(cols.drop_first())
    }
}

/// A range line `0xSTART[..0xEND] CATEGORY...`, giving the half-open range.
pub open spec fn spec_range_line(t: Seq<char>) -> Option<RangeDef> {
    let cols = spec_split_ws(t);
    if cols.len() < 2 {
        None
    } else {
        let c0 = cols[0];
        let start = spec_hex(first_piece(c0));
        let end: Option<int> = if second_piece(c0) is Some {
            match spec_hex(second_piece(c0)->0) {
                Some(e) => if e < usize::MAX { Some(e + 1) } else { None },
                None => None,
            }
        } else {
            match start {
                Some(s) => if s < usize::MAX { Some(s + 1) } else { None },
                None => None,
            }
        };
        if start is None || end is None {
            None
        } else if start->0 >= end->0 || start->0 > 0xffff || end->0 > 0x10000 {
            None
        } else {
            Some((start->0 as int, end->0, take_categories(cols.drop_first())))
        }
    }
}

/// The state before reading any line.
pub open spec fn char_def_init() -> CharDefState {
    (seq![default_name()], seq![None], seq![])
}

/// Reads one line of `char.def`. Category names get ids in order of first
/// appearance; a category id must stay below 18 (the width of the id set) and a
/// length below 16 (the width of its field).
pub open spec fn char_def_step(st: CharDefState, line: Seq<u8>) -> Option<CharDefState> {
    if !valid_utf8(line) {
        None
    } else {
        let t = spec_trim(decode_utf8(line));
        if t.len() == 0 || t[0] == '#' {
            Some(st)
        } else if !(t.len() >= 2 && t[0] == '0' && t[1] == 'x') {
            match spec_category_line(t) {
                None => None,
                Some((name, def)) => {
                    let id = index_of(st.0, name);
                    let names = if id == st.0.len() { st.0.push(name) } else { st.0 };
                    let defs = if id == st.0.len() { st.1.push(None) } else { st.1 };
                    if id >= 18 || def.2 >= 16 {
                        None
                    } else {
                        Some((names, defs.update(id, Some(def)), st.2))
                    }
                },
            }
        } else {
            match spec_range_line(t) {
                None => None,
                Some(r) => Some((st.0, st.1, st.2.push(r))),
            }
        }
    }
}

/// The state after reading the given lines, or `None` if one of them is invalid.
pub open spec fn char_def_state(lines: Seq<Seq<u8>>) -> Option<CharDefState>
    decreases lines.len(),
{
    if lines.len() == 0 {
        Some(char_def_init())
    } else {
        match char_def_state(lines.drop_last()) {
            None => None,
            Some(st) => char_def_step(st, lines.last()),
        }
    }
}

/// `index_of` finds `c` when it is there, and gives the length when it is not.
proof fn lemma_index_of_found<A>(s: Seq<A>, c: A)
    ensures
        0 <= index_of(s, c) <= s.len(),
        index_of(s, c) < s.len() ==> s[index_of(s, c)] == c,
        index_of(s, c) == s.len() ==> forall|j: int| 0 <= j < s.len() ==> s[j] != c,
    decreases s.len(),
{
    if s.len() > 0 && s[0] != c {
        lemma_index_of_found(s.drop_first(), c);
        assert forall|j: int| 0 <= j < s.len() && index_of(s, c) == s.len() implies s[j] != c by {
            if j > 0 {
                assert(s[j] == s.drop_first()[j - 1]);
            }
        }
    }
}

/// The names of the categories after the lines `lines` of `char.def`.
pub open spec fn def_names(lines: Seq<Seq<u8>>) -> Seq<Seq<char>> {
    (char_def_state(lines)->0).0
}

/// The categories that `char.def` defines are named once each.
pub proof fn lemma_char_def_names_distinct(lines: Seq<Seq<u8>>)
    requires
        char_def_state(lines) is Some,
    ensures
        forall|i: int, j: int|
            0 <= i < j < def_names(lines).len() ==> def_names(lines)[i] != def_names(lines)[j],
    decreases lines.len(),
{
    if lines.len() > 0 {
        let prev = char_def_state(lines.drop_last())->0;
        lemma_char_def_names_distinct(lines.drop_last());
        assert(def_names(lines.drop_last()) == prev.0);
        assert forall|i: int, j: int| 0 <= i < j < prev.0.len() implies prev.0[i] != prev.0[j] by {
            assert(def_names(lines.drop_last())[i] != def_names(lines.drop_last())[j]);
        }
        let t = spec_trim(decode_utf8(lines.last()));
        if valid_utf8(lines.last()) && !(t.len() == 0 || t[0] == '#') && !(t.len() >= 2 && t[0]
            == '0' && t[1] == 'x') {
            if let Some((name, def)) = spec_category_line(t) {
                lemma_index_of_found(prev.0, name);
                let id = index_of(prev.0, name);
                if id == prev.0.len() {
                    let ns = prev.0.push(name);
                    assert(def_names(lines) == ns);
                    assert forall|i: int, j: int| 0 <= i < j < ns.len() implies ns[i] != ns[j] by {
                        if j == prev.0.len() {
                            assert(ns[i] == prev.0[i]);
                            assert(prev.0[i] != name);
                        } else {
                            assert(ns[i] == prev.0[i] && ns[j] == prev.0[j]);
                        }
                    }
                } else {
                    assert(def_names(lines) == prev.0);
                }
            } else {
                assert(def_names(lines) == prev.0);
            }
        } else {
            assert(def_names(lines) == prev.0);
        }
    } else {
        assert(def_names(lines) =~= seq![default_name()]);
    }
}

/// The union of the id bits of the target categories.
pub open spec fn spec_idset(names: Seq<Seq<char>>, targets: Seq<Seq<char>>) -> u32
    decreases targets.len(),
{
    if targets.len() == 0 {
        0
    } else {
        spec_idset(names, targets.drop_last()) | (1u32 << (index_of(names, targets.last()) as u32))
    }
}

/// All target categories are defined.
pub open spec fn all_defined(st: CharDefState, targets: Seq<Seq<char>>) -> bool {
    forall|k: int|
        0 <= k < targets.len() ==> {
            let id = index_of(st.0, #[trigger] targets[k]);
            id < st.0.len() && st.1[id] is Some
        }
}

/// The character information of a list of categories: the id set of all of them,
/// and the base id, flags and length of the first one.
pub open spec fn spec_encode(st: CharDefState, targets: Seq<Seq<char>>) -> Option<u32> {
    if targets.len() == 0 || !all_defined(st, targets) {
        None
    } else {
        let id0 = index_of(st.0, targets[0]);
        let d = st.1[id0]->0;
        Some(pack_char_info(spec_idset(st.0, targets), id0 as u32, d.0, d.1, d.2))
    }
}

/// All ranges have encodable categories.
pub open spec fn ranges_encodable(st: CharDefState) -> bool {
    forall|k: int| 0 <= k < st.2.len() ==> spec_encode(st, (#[trigger] st.2[k]).2) is Some
}

/// The information of character code `c`: that of the last range covering it, or
/// that of the default category.
pub open spec fn spec_table_entry(st: CharDefState, nranges: int, c: int) -> u32
    decreases nranges,
{
    if nranges <= 0 {
        spec_encode(st, seq![default_name()])->0
    } else {
        let r = st.2[nranges - 1];
        if r.0 <= c < r.1 {
            spec_encode(st, r.2)->0
        } else {
            spec_table_entry(st, nranges - 1, c)
        }
    }
}

/// The whole `char.def` is valid.
pub open spec fn char_def_ok(bytes: Seq<u8>) -> bool {
    char_def_state(spec_lines(bytes)) matches Some(st) && st.1[0] is Some && ranges_encodable(st)
}

/// Mapping from characters to their information.
pub struct CharProperty {
    chr2inf: Vec<CharInfo>,
    categories: Vec<String>,
}

impl CharProperty {
    /// The packed information of each character code below 0x10000.
    pub closed spec fn table(&self) -> Seq<u32> {
        self.chr2inf@.map_values(|c: CharInfo| c.raw())
    }

    /// The category names, indexed by category id.
    pub closed spec fn names(&self) -> Seq<Seq<char>> {
        self.categories@.map_values(|s: String| s@)
    }

    /// Every character code below 0x10000 has an entry, and there are at most 18
    /// categories (the width of a category id set).
    pub open spec fn wf(&self) -> bool {
        self.table().len() == 0x10000 && 1 <= self.names().len() <= 18
    }

    /// The information of character `c`; characters beyond the table get that of
    /// code 0.
    pub open spec fn spec_char_info(&self, c: char) -> u32 {
        if (c as u32) < 0x10000 {
            self.table()[c as u32 as int]
        } else {
            self.table()[0]
        }
    }

    /// The information of a character.
    pub fn char_info(&self, c: char) -> (r: CharInfo)
        requires
            self.wf(),
        ensures
            r.raw() == self.spec_char_info(c),
    {
        let u = c as u32;
        if u < 0x10000 {
            self.chr2inf[u as usize]
        } else {
            self.chr2inf[0]
        }
    }

    /// The id of the category named `category`, if defined.
    pub fn cate_id(&self, category: &str) -> (r: Option<u32>)
        requires
            self.wf(),
        ensures
            r is Some <==> index_of(self.names(), category@) < self.names().len(),
            r matches Some(id) ==> id == index_of(self.names(), category@),
    {
        let target = chars_of(category);
        let n = self.categories.len();
        let mut i: usize = 0;
        while i < n
            invariant
                i <= n == self.names().len(),
                n == self.categories@.len(),
                n <= 18,
                target@ == category@,
                forall|j: int| 0 <= j < i ==> self.names()[j] != category@,
            decreases n - i,
        {
            let name = chars_of(self.categories[i].as_str());
            assert(name@ == self.names()[i as int]);
            if chars_eq(&name, &target) {
                proof {
                    lemma_index_of(self.names(), category@, i as int);
                }
                return Some(i as u32);
            }
            i = i + 1;
        }
        proof {
            lemma_index_of(self.names(), category@, n as int);
        }
        None
    }

    /// The name of category `cate_id`, if defined.
    pub fn cate_str(&self, cate_id: u32) -> (r: Option<&str>)
        ensures
            r is Some <==> (cate_id as int) < self.names().len(),
            r matches Some(s) ==> s@ == self.names()[cate_id as int],
    {
        if (cate_id as usize) < self.categories.len() {
            Some(self.categories[cate_id as usize].as_str())
        } else {
            None
        }
    }

    /// The number of categories.
    pub fn num_categories(&self) -> (r: usize)
        ensures
            r == self.names().len(),
    {
        self.categories.len()
    }
}

/// `1` or `0` read as a flag.
fn parse_flag(c: &[char]) -> (r: Option<bool>)
    ensures
        r == spec_flag(c@),
{
    if c.len() == 1 && c[0] == '1' {
        assert(c@ =~= seq!['1']);
        Some(true)
    } else if c.len() == 1 && c[0] == '0' {
        assert(c@ =~= seq!['0']);
        Some(false)
    } else {
        assert(c@.len() != 1 || c@[0] != '1');
        assert(c@ != seq!['1']);
        assert(c@ != seq!['0']);
        None
    }
}

/// Position of `name` among `names` (`names.len()` if absent).
pub fn position(names: &Vec<Vec<char>>, name: &[char]) -> (r: usize)
    ensures
        r == index_of(names.deep_view(), name@),
        r <= names@.len(),
{
    let n = names.len();
    let mut i: usize = 0;
    while i < n
        invariant
            i <= n == names@.len(),
            forall|j: int| 0 <= j < i ==> names.deep_view()[j] != name@,
        decreases n - i,
    {
        assert(names.deep_view()[i as int] == names@[i as int]@);
        if chars_eq(names[i].as_slice(), name) {
            proof {
                lemma_index_of(names.deep_view(), name@, i as int);
            }
            return i;
        }
        i = i + 1;
    }
    proof {
        lemma_index_of(names.deep_view(), name@, n as int);
    }
    n
}

/// Reads a category line.
fn parse_char_category(t: &[char]) -> (r: Result<(Vec<char>, CateDef), VibratoError>)
    ensures
        r is Ok <==> spec_category_line(t@) is Some,
        r matches Ok(v) ==> spec_category_line(t@) == Some((v.0@, v.1)),
{
    let cols = split_whitespace(t);
    if cols.len() < 4 {
        return Err(VibratoError::invalid_format(
            "char.def",
            "A character category must consists of four items separated by spaces",
        ));
    }
    assert(cols.deep_view()[1] == cols@[1]@);
    assert(cols.deep_view()[2] == cols@[2]@);
    assert(cols.deep_view()[3] == cols@[3]@);
    assert(cols.deep_view()[0] == cols@[0]@);
    let invoke = match parse_flag(cols[1].as_slice()) {
        Some(b) => b,
        None => return Err(VibratoError::invalid_format("char.def", "INVOKE must be 1 or 0.")),
    };
    let group = match parse_flag(cols[2].as_slice()) {
        Some(b) => b,
        None => return Err(VibratoError::invalid_format("char.def", "GROUP must be 1 or 0.")),
    };
    let length = parse_u16(cols[3].as_slice())?;
    let mut cols = cols;
    let name = cols.swap_remove(0);
    Ok((name, (invoke, group, length)))
}

/// Index after all leading `0x` of `s`.
fn skip_0x(s: &[char]) -> (r: usize)
    ensures
        r <= s@.len(),
        s@.skip(r as int) == strip_0x(s@),
{
    let mut i: usize = 0;
    assert(s@.skip(0) =~= s@);
    while s.len() >= 2 && i <= s.len() - 2 && s[i] == '0' && s[i + 1] == 'x'
        invariant
            i <= s@.len(),
            strip_0x(s@) == strip_0x(s@.skip(i as int)),
        decreases s@.len() - i,
    {
        assert(s@.skip(i as int).skip(2) =~= s@.skip(i + 2));
        i = i + 2;
    }
    i
}

/// `..` starts at position `j` of `s`.
pub open spec fn dots_at(s: Seq<char>, j: int) -> bool {
    j + 1 < s.len() && s[j] == '.' && s[j + 1] == '.'
}

proof fn lemma_index_of_dots_at(s: Seq<char>, k: int)
    requires
        0 <= k,
        forall|j: int| 0 <= j < k ==> !#[trigger] dots_at(s, j),
        dots_at(s, k),
    ensures
        index_of_dots(s) == k,
    decreases s.len(),
{
    if k > 0 {
        assert(!dots_at(s, 0));
        assert forall|j: int| 0 <= j < k - 1 implies !#[trigger] dots_at(s.drop_first(), j) by {
            assert(!dots_at(s, j + 1));
        }
        assert(dots_at(s.drop_first(), k - 1));
        lemma_index_of_dots_at(s.drop_first(), k - 1);
    }
}

proof fn lemma_index_of_dots_none(s: Seq<char>)
    requires
        forall|j: int| 0 <= j < s.len() ==> !#[trigger] dots_at(s, j),
    ensures
        index_of_dots(s) == s.len(),
    decreases s.len(),
{
    if s.len() >= 2 {
        assert(!dots_at(s, 0));
        assert forall|j: int| 0 <= j < s.drop_first().len() implies !#[trigger] dots_at(
            s.drop_first(),
            j,
        ) by {
            assert(!dots_at(s, j + 1));
        }
        lemma_index_of_dots_none(s.drop_first());
    }
}

/// Index of the first `..` in `s`.
fn find_dots(s: &[char]) -> (r: usize)
    ensures
        r as int == index_of_dots(s@),
        r <= s@.len(),
        r < s@.len() ==> r + 1 < s@.len(),
{
    let n = s.len();
    let mut i: usize = 0;
    while n >= 2 && i <= n - 2
        invariant
            i <= n == s@.len(),
            forall|j: int| 0 <= j < i ==> !#[trigger] dots_at(s@, j),
        decreases n - i,
    {
        if s[i] == '.' && s[i + 1] == '.' {
            proof {
                lemma_index_of_dots_at(s@, i as int);
            }
            return i;
        }
        i = i + 1;
    }
    proof {
        assert forall|j: int| 0 <= j < n implies !#[trigger] dots_at(s@, j) by {
            if j >= i {
                assert(!(j + 1 < n));
            }
        }
        lemma_index_of_dots_none(s@);
    }
    n
}

/// Reads a range bound.
fn parse_hex(s: &[char]) -> (r: Result<usize, VibratoError>)
    ensures
        r is Ok <==> spec_hex(s@) is Some,
        r matches Ok(v) ==> spec_hex(s@) == Some(v),
{
    let i = skip_0x(s);
    parse_usize(&s[i..s.len()], 16)
}

/// The columns after the first one up to one starting with `#`.
fn collect_categories(cols: &Vec<Vec<char>>) -> (r: Vec<Vec<char>>)
    requires
        cols@.len() >= 1,
    ensures
        r.deep_view() == take_categories(cols.deep_view().drop_first()),
{
    let n = cols.len();
    let mut r: Vec<Vec<char>> = Vec::new();
    let mut i: usize = 1;
    assert(r.deep_view() =~= Seq::<Seq<char>>::empty());
    assert(cols.deep_view().skip(1) =~= cols.deep_view().drop_first());
    while i < n
        invariant
            1 <= i <= n == cols@.len(),
            r.deep_view() + take_categories(cols.deep_view().skip(i as int)) == take_categories(
                cols.deep_view().drop_first(),
            ),
        decreases n - i,
    {
        let c = &cols[i];
        let ghost rest = cols.deep_view().skip(i as int);
        assert(rest[0] == c@);
        if c.len() > 0 && c[0] == '#' {
            assert(take_categories(rest) =~= Seq::<Seq<char>>::empty());
            assert(r.deep_view() + Seq::<Seq<char>>::empty() =~= r.deep_view());
            return r;
        }
        let ghost old_r = r.deep_view();
        let cc = c.clone();
        assert(cc.deep_view() =~= c@);
        r.push(cc);
        assert(rest.drop_first() =~= cols.deep_view().skip(i + 1));
        assert(r.deep_view() =~= old_r.push(c@));
        assert(r.deep_view() + take_categories(cols.deep_view().skip(i + 1)) =~= old_r + (seq![
            c@] + take_categories(rest.drop_first())));
        i = i + 1;
    }
    assert(cols.deep_view().skip(n as int) =~= Seq::<Seq<char>>::empty());
    assert(r.deep_view() + Seq::<Seq<char>>::empty() =~= r.deep_view());
    r
}

/// Reads a range line.
fn parse_char_range(t: &[char]) -> (r: Result<(usize, usize, Vec<Vec<char>>), VibratoError>)
    ensures
        r is Ok <==> spec_range_line(t@) is Some,
        r matches Ok(v) ==> spec_range_line(t@) == Some((v.0 as int, v.1 as int, v.2.deep_view())),
{
    let cols = split_whitespace(t);
    if cols.len() < 2 {
        return Err(VibratoError::invalid_format(
            "char.def",
            "A character range must have two items at least",
        ));
    }
    let c0 = cols[0].as_slice();
    assert(cols.deep_view()[0] == c0@);
    let i = find_dots(c0);
    assert(c0@.take(i as int) == first_piece(c0@));
    let start = parse_hex(&c0[0..i])?;
    let end: usize = if i < c0.len() {
        let rest = &c0[i + 2..c0.len()];
        assert(rest@ == c0@.skip(i + 2));
        let j = find_dots(rest);
        let e = parse_hex(&rest[0..j])?;
        if e == usize::MAX {
            return Err(VibratoError::invalid_format("char.def", "A character range is too large"));
        }
        e + 1
    } else {
        if start == usize::MAX {
            return Err(VibratoError::invalid_format("char.def", "A character range is too large"));
        }
        start + 1
    };
    if start >= end {
        return Err(VibratoError::invalid_format(
            "char.def",
            "The start of a character range must be no more than the end",
        ));
    }
    if start > 0xffff || end > 0x10000 {
        return Err(VibratoError::invalid_format(
            "char.def",
            "A character range must be no more 0xFFFF",
        ));
    }
    let cats = collect_categories(&cols);
    Ok((start, end, cats))
}

/// Every defined length fits in 4 bits.
pub open spec fn defs_short(defs: Seq<Option<CateDef>>) -> bool {
    forall|i: int| 0 <= i < defs.len() ==> (#[trigger] defs[i] matches Some(d) ==> d.2 < 16)
}

/// View of the ranges read so far.
pub open spec fn ranges_view(v: Seq<(usize, usize, Vec<Vec<char>>)>) -> Seq<RangeDef> {
    v.map_values(|r: (usize, usize, Vec<Vec<char>>)| (r.0 as int, r.1 as int, r.2.deep_view()))
}

/// Encodes the information of a list of categories.
fn encode_cate_info(
    names: &Vec<Vec<char>>,
    defs: &Vec<Option<CateDef>>,
    targets: &Vec<Vec<char>>,
) -> (r: Result<CharInfo, VibratoError>)
    requires
        names@.len() == defs@.len() <= 18,
        defs_short(defs@),
    ensures
        r is Ok <==> spec_encode((names.deep_view(), defs@, seq![]), targets.deep_view()) is Some,
        r matches Ok(c) ==> Some(c.raw()) == spec_encode(
            (names.deep_view(), defs@, seq![]),
            targets.deep_view(),
        ),
{
    let ghost st: CharDefState = (names.deep_view(), defs@, seq![]);
    let ghost tv = targets.deep_view();
    if targets.len() == 0 {
        return Err(VibratoError::invalid_format("char.def", "Undefined category"));
    }
    let n = targets.len();
    let mut idset: u32 = 0;
    let mut k: usize = 0;
    assert(tv.take(0) =~= Seq::<Seq<char>>::empty());
    while k < n
        invariant
            k <= n == targets@.len() == tv.len(),
            tv == targets.deep_view(),
            st == (names.deep_view(), defs@, Seq::<RangeDef>::empty()),
            names@.len() == defs@.len() <= 18,
            defs_short(defs@),
            all_defined(st, tv.take(k as int)),
            idset == spec_idset(st.0, tv.take(k as int)),
            idset < 0x40000,
        decreases n - k,
    {
        let id = position(names, targets[k].as_slice());
        assert(tv[k as int] == targets@[k as int]@);
        if id >= names.len() || defs[id].is_none() {
            assert(!all_defined(st, tv)) by {
                assert(tv[k as int] == targets@[k as int]@);
            }
            return Err(VibratoError::invalid_format("char.def", "Undefined category"));
        }
        let ghost old_idset = idset;
        let id32 = id as u32;
        assert(id32 < 18);
        assert(old_idset < 0x40000 && id32 < 18 ==> (old_idset | (1u32 << id32)) < 0x40000)
            by (bit_vector);
        idset = idset | (1u32 << id32);
        assert(tv.take(k + 1).drop_last() =~= tv.take(k as int));
        assert(tv.take(k + 1).last() == tv[k as int]);
        assert(all_defined(st, tv.take(k + 1))) by {
            assert forall|j: int| 0 <= j < k + 1 implies {
                let id = index_of(st.0, #[trigger] tv.take(k + 1)[j]);
                id < st.0.len() && st.1[id] is Some
            } by {
                if j < k {
                    assert(tv.take(k + 1)[j] == tv.take(k as int)[j]);
                }
            }
        }
        k = k + 1;
    }
    assert(tv.take(n as int) =~= tv);
    let id0 = position(names, targets[0].as_slice());
    assert(tv[0] == targets@[0]@);
    assert(all_defined(st, tv));
    assert(id0 < names@.len() && defs@[id0 as int] is Some) by {
        assert(tv[0] == tv.take(n as int)[0]);
    }
    let d = defs[id0].unwrap();
    assert(d.2 < 16);
    match CharInfo::new(idset, id0 as u32, d.0, d.1, d.2) {
        Some(c) => Ok(c),
        None => Err(VibratoError::invalid_format("char.def", "Undefined category")),
    }
}

/// The name `DEFAULT` as characters.
fn default_name_chars() -> (r: Vec<char>)
    ensures
        r@ == default_name(),
{
    let mut r: Vec<char> = Vec::new();
    r.push('D');
    r.push('E');
    r.push('F');
    r.push('A');
    r.push('U');
    r.push('L');
    r.push('T');
    assert(r@ =~= default_name());
    r
}

impl CharProperty {
    /// Reads one line of `char.def` into the state.
    fn read_line(
        line: &[u8],
        names: &mut Vec<Vec<char>>,
        defs: &mut Vec<Option<CateDef>>,
        ranges: &mut Vec<(usize, usize, Vec<Vec<char>>)>,
    ) -> (r: Result<(), VibratoError>)
        requires
            1 <= old(names)@.len() == old(defs)@.len() <= 18,
            defs_short(old(defs)@),
        ensures
            final(names)@.len() >= 1,
            final(names).deep_view()[0] == old(names).deep_view()[0],
            r is Ok <==> char_def_step(
                (old(names).deep_view(), old(defs)@, ranges_view(old(ranges)@)),
                line@,
            ) is Some,
            r is Ok ==> char_def_step(
                (old(names).deep_view(), old(defs)@, ranges_view(old(ranges)@)),
                line@,
            ) == Some((final(names).deep_view(), final(defs)@, ranges_view(final(ranges)@))),
            r is Ok ==> final(names)@.len() == final(defs)@.len() <= 18 && defs_short(final(defs)@),
    {
        let chars = decode_utf8_chars(line)?;
        let (a, b) = trim(chars.as_slice());
        let t = &chars.as_slice()[a..b];
        assert(t@ == spec_trim(decode_utf8(line@)));
        if t.len() == 0 || t[0] == '#' {
            return Ok(());
        }
        if !(t.len() >= 2 && t[0] == '0' && t[1] == 'x') {
            let (name, def) = parse_char_category(t)?;
            let id = position(names, name.as_slice());
            if id >= 18 || def.2 >= 16 {
                return Err(VibratoError::invalid_format(
                    "char.def",
                    "Too many categories or too large length",
                ));
            }
            let ghost old_names = names.deep_view();
            let ghost old_defs = defs@;
            if id == names.len() {
                let ghost nm = name@;
                assert(name.deep_view() =~= nm);
                names.push(name);
                defs.push(None);
                assert(names.deep_view() =~= old_names.push(nm));
            }
            defs.set(id, Some(def));
            assert(defs_short(defs@)) by {
                assert forall|i: int| 0 <= i < defs@.len() implies (#[trigger] defs@[i] matches Some(
                    d,
                ) ==> d.2 < 16) by {
                    if i != id {
                        assert(defs@[i] == old_defs.push(None)[i]);
                    }
                }
            }
            Ok(())
        } else {
            let rg = parse_char_range(t)?;
            let ghost old_ranges = ranges@;
            ranges.push(rg);
            assert(ranges_view(ranges@) =~= ranges_view(old_ranges).push(
                (rg.0 as int, rg.1 as int, rg.2.deep_view()),
            ));
            Ok(())
        }
    }

    /// Creates a new instance from the bytes of `char.def`.
    ///
    /// Each line is a category definition `NAME INVOKE GROUP LENGTH`, a range
    /// `0xSTART[..0xEND] CATEGORY...`, a comment starting with `#`, or blank. The
    /// category `DEFAULT` must be defined, a range must lie below 0x10000, and every
    /// category of a range must be defined. Since the category id set has 18 bits and
    /// the length 4 bits, at most 18 categories and lengths below 16 are accepted.
    pub fn from_reader(rdr: &[u8]) -> (r: Result<Self, VibratoError>)
        ensures
            r is Ok <==> char_def_ok(rdr@),
            r matches Ok(p) ==> {
                let st = char_def_state(spec_lines(rdr@))->0;
                &&& p.wf()
                &&& p.base_ids_ok()
                &&& p.names() == st.0
                &&& forall|c: int|
                    0 <= c < 0x10000 ==> #[trigger] p.table()[c] == spec_table_entry(
                        st,
                        st.2.len() as int,
                        c,
                    )
            },
    {
        let ls = lines(rdr);
        let ghost lv = ls.deep_view();
        let mut names: Vec<Vec<char>> = Vec::new();
        let dn = default_name_chars();
        assert(dn.deep_view() =~= dn@);
        names.push(dn);
        let mut defs: Vec<Option<CateDef>> = Vec::new();
        defs.push(None);
        let mut ranges: Vec<(usize, usize, Vec<Vec<char>>)> = Vec::new();
        assert(names.deep_view() =~= seq![default_name()]);
        assert(defs@ =~= seq![None]);
        assert(ranges_view(ranges@) =~= Seq::<RangeDef>::empty());
        assert(lv.take(0) =~= Seq::<Seq<u8>>::empty());
        let n = ls.len();
        let mut k: usize = 0;
        while k < n
            invariant
                k <= n == ls@.len() == lv.len(),
                lv == ls.deep_view(),
                lv == spec_lines(rdr@),
                1 <= names@.len() == defs@.len() <= 18,
                names.deep_view()[0] == default_name(),
                defs_short(defs@),
                char_def_state(lv.take(k as int)) == Some(
                    (names.deep_view(), defs@, ranges_view(ranges@)),
                ),
            decreases n - k,
        {
            assert(lv.take(k + 1).drop_last() =~= lv.take(k as int));
            assert(lv.take(k + 1).last() == ls@[k as int]@);
            let res = Self::read_line(ls[k].as_slice(), &mut names, &mut defs, &mut ranges);
            if res.is_err() {
                assert(char_def_state(lv.take(k + 1)) is None);
                assert(char_def_state(lv) is None) by {
                    lemma_state_none_extends(lv, k as int + 1);
                }
                return Err(res.unwrap_err());
            }
            k = k + 1;
        }
        assert(lv.take(n as int) =~= lv);
        let ghost st: CharDefState = (names.deep_view(), defs@, ranges_view(ranges@));
        // The default category.
        let mut dflt: Vec<Vec<char>> = Vec::new();
        let dn2 = default_name_chars();
        assert(dn2.deep_view() =~= dn2@);
        dflt.push(dn2);
        assert(dflt.deep_view() =~= seq![default_name()]);
        let init = encode_cate_info(&names, &defs, &dflt);
        if init.is_err() {
            assert(st.1[0] is None) by {
                assert(index_of(st.0, default_name()) == 0);
                assert(seq![default_name()][0] == default_name());
                if st.1[0] is Some {
                    assert(all_defined(st, seq![default_name()]));
                }
            }
            return Err(init.unwrap_err());
        }
        let init = init.unwrap();
        assert(st.1[0] is Some) by {
            assert(seq![default_name()][0] == default_name());
            assert(index_of(st.0, default_name()) == 0);
        }
        let mut chr2inf: Vec<CharInfo> = vec![init; 0x10000];
        let nr = ranges.len();
        let mut j: usize = 0;
        while j < nr
            invariant
                j <= nr == ranges@.len() == st.2.len(),
                st == (names.deep_view(), defs@, ranges_view(ranges@)),
                char_def_state(lv) == Some(st),
                lv == spec_lines(rdr@),
                names@.len() == defs@.len() <= 18,
                defs_short(defs@),
                chr2inf@.len() == 0x10000,
                forall|k: int| 0 <= k < j ==> spec_encode(st, (#[trigger] st.2[k]).2) is Some,
                forall|c: int|
                    0 <= c < 0x10000 ==> #[trigger] chr2inf@[c].raw() == spec_table_entry(
                        st,
                        j as int,
                        c,
                    ),
                init.raw() == spec_encode(st, seq![default_name()])->0,
            decreases nr - j,
        {
            let rg = &ranges[j];
            assert(st.2[j as int] == (rg.0 as int, rg.1 as int, rg.2.deep_view()));
            let info = encode_cate_info(&names, &defs, &rg.2);
            assert(spec_encode(st, rg.2.deep_view()) == spec_encode(
                (names.deep_view(), defs@, seq![]),
                rg.2.deep_view(),
            ));
            if info.is_err() {
                assert(!ranges_encodable(st));
                return Err(info.unwrap_err());
            }
            let info = info.unwrap();
            let start = rg.0;
            let end = rg.1;
            assert(start < end <= 0x10000) by {
                lemma_state_ranges_ok(lv);
                assert(0 <= st.2[j as int].0 < st.2[j as int].1 <= 0x10000);
            }
            let mut c = start;
            while c < end
                invariant
                    start <= c <= end <= 0x10000,
                    chr2inf@.len() == 0x10000,
                    st.2[j as int] == (start as int, end as int, st.2[j as int].2),
                    j < st.2.len(),
                    info.raw() == spec_encode(st, st.2[j as int].2)->0,
                    forall|d: int|
                        0 <= d < 0x10000 ==> #[trigger] chr2inf@[d].raw() == (if start <= d < c {
                            spec_table_entry(st, j + 1, d)
                        } else {
                            spec_table_entry(st, j as int, d)
                        }),
                decreases end - c,
            {
                chr2inf.set(c, info);
                c = c + 1;
            }
            assert forall|d: int| 0 <= d < 0x10000 implies #[trigger] chr2inf@[d].raw()
                == spec_table_entry(st, j + 1, d) by {
                if !(start <= d < end) {
                    assert(spec_table_entry(st, j + 1, d) == spec_table_entry(st, j as int, d));
                }
            }
            j = j + 1;
        }
        let mut categories: Vec<String> = Vec::new();
        let nn = names.len();
        let mut i: usize = 0;
        while i < nn
            invariant
                i <= nn == names@.len(),
                categories@.map_values(|s: String| s@) == names.deep_view().take(i as int),
            decreases nn - i,
        {
            let ghost old_c = categories@;
            let sname = string_from_chars(names[i].as_slice());
            assert(names.deep_view()[i as int] == names@[i as int]@);
            assert(sname@ == names.deep_view()[i as int]);
            categories.push(sname);
            assert(categories@ == old_c.push(sname));
            assert(categories@.map_values(|s: String| s@) =~= old_c.map_values(|s: String| s@).push(
                sname@,
            ));
            assert(categories@.map_values(|s: String| s@) =~= names.deep_view().take(i + 1));
            i = i + 1;
        }
        assert(names.deep_view().take(nn as int) =~= names.deep_view());
        let p = CharProperty { chr2inf, categories };
        assert(p.table().len() == 0x10000);
        assert forall|c: int| 0 <= c < 0x10000 implies #[trigger] p.table()[c]
            == spec_table_entry(st, st.2.len() as int, c) by {
            assert(p.table()[c] == p.chr2inf@[c].raw());
        }
        assert(ranges_encodable(st));
        assert forall|c: int| 0 <= c < 0x10000 implies ((#[trigger] p.table()[c] >> 18u32) & 0xffu32)
            < p.names().len() by {
            lemma_table_entry_base(st, st.2.len() as int, c);
        }
        Ok(p)
    }

    /// The base category of every character is one of the categories.
    pub open spec fn base_ids_ok(&self) -> bool {
        forall|c: int| 0 <= c < 0x10000 ==> ((#[trigger] self.table()[c] >> 18u32) & 0xffu32) < self.names().len()
    }

    /// The base category of a character is one of the categories.
    pub proof fn lemma_base_id(&self, c: char)
        requires
            self.wf(),
            self.base_ids_ok(),
        ensures
            ((self.spec_char_info(c) >> 18u32) & 0xffu32) < self.names().len(),
    {
        if (c as u32) < 0x10000 {
            assert(((self.table()[c as u32 as int] >> 18u32) & 0xffu32) < self.names().len());
        } else {
            assert(((self.table()[0] >> 18u32) & 0xffu32) < self.names().len());
        }
    }
}

proof fn lemma_idset_bound(names: Seq<Seq<char>>, targets: Seq<Seq<char>>)
    requires
        names.len() <= 18,
        forall|k: int| 0 <= k < targets.len() ==> index_of(names, #[trigger] targets[k]) < names.len(),
    ensures
        spec_idset(names, targets) < 0x40000,
    decreases targets.len(),
{
    if targets.len() > 0 {
        assert forall|k: int| 0 <= k < targets.drop_last().len() implies index_of(
            names,
            #[trigger] targets.drop_last()[k],
        ) < names.len() by {
            assert(targets.drop_last()[k] == targets[k]);
        }
        lemma_idset_bound(names, targets.drop_last());
        let a = spec_idset(names, targets.drop_last());
        assert(index_of(names, targets[targets.len() - 1]) < names.len());
        lemma_index_of_bound(names, targets.last());
        let k = index_of(names, targets.last()) as u32;
        assert(k < 18);
        assert(spec_idset(names, targets) == (a | (1u32 << k)));
        assert(a < 0x40000 && k < 18 ==> (a | (1u32 << k)) < 0x40000) by (bit_vector);
    }
}

proof fn lemma_encode_base(st: CharDefState, targets: Seq<Seq<char>>)
    requires
        st.0.len() == st.1.len() <= 18,
        defs_short(st.1),
        spec_encode(st, targets) is Some,
    ensures
        ((spec_encode(st, targets)->0 >> 18u32) & 0xffu32) < st.0.len(),
{
    let id0 = index_of(st.0, targets[0]);
    assert(all_defined(st, targets));
    assert(id0 < st.0.len() && st.1[id0] is Some) by {
        assert(index_of(st.0, targets[0]) == id0);
    }
    lemma_index_of_bound(st.0, targets[0]);
    let d = st.1[id0]->0;
    assert(st.1[id0] matches Some(dd) ==> dd.2 < 16);
    assert forall|k: int| 0 <= k < targets.len() implies index_of(st.0, #[trigger] targets[k]) < st.0.len() by {
        let id = index_of(st.0, targets[k]);
    }
    lemma_idset_bound(st.0, targets);
    lemma_char_info_roundtrip(spec_idset(st.0, targets), id0 as u32, d.0, d.1, d.2);
}

proof fn lemma_table_entry_base(st: CharDefState, n: int, c: int)
    requires
        st.0.len() == st.1.len() <= 18,
        defs_short(st.1),
        0 <= n <= st.2.len(),
        ranges_encodable(st),
        spec_encode(st, seq![default_name()]) is Some,
    ensures
        ((spec_table_entry(st, n, c) >> 18u32) & 0xffu32) < st.0.len(),
    decreases n,
{
    if n <= 0 {
        lemma_encode_base(st, seq![default_name()]);
    } else {
        let r = st.2[n - 1];
        if r.0 <= c < r.1 {
            assert(spec_encode(st, st.2[n - 1].2) is Some);
            lemma_encode_base(st, r.2);
        } else {
            lemma_table_entry_base(st, n - 1, c);
        }
    }
}

/// Once reading fails it stays failed.
proof fn lemma_state_none_extends(lines: Seq<Seq<u8>>, k: int)
    requires
        0 <= k <= lines.len(),
        char_def_state(lines.take(k)) is None,
    ensures
        char_def_state(lines) is None,
    decreases lines.len() - k,
{
    if k < lines.len() {
        assert(lines.take(k + 1).drop_last() =~= lines.take(k));
        lemma_state_none_extends(lines, k + 1);
    } else {
        assert(lines.take(k) =~= lines);
    }
}

/// Every range read is a non-empty part of the character codes below 0x10000.
pub open spec fn ranges_ok(st: CharDefState) -> bool {
    forall|j: int| 0 <= j < st.2.len() ==> 0 <= (#[trigger] st.2[j]).0 < st.2[j].1 <= 0x10000
}

proof fn lemma_step_ranges_ok(st: CharDefState, line: Seq<u8>)
    requires
        ranges_ok(st),
        char_def_step(st, line) is Some,
    ensures
        ranges_ok(char_def_step(st, line)->0),
{
    let t = spec_trim(decode_utf8(line));
    if t.len() == 0 || t[0] == '#' {
    } else if !(t.len() >= 2 && t[0] == '0' && t[1] == 'x') {
    } else {
        let r = spec_range_line(t)->0;
        let st2 = char_def_step(st, line)->0;
        assert(st2.2 == st.2.push(r));
        assert forall|j: int| 0 <= j < st2.2.len() implies 0 <= (#[trigger] st2.2[j]).0
            < st2.2[j].1 <= 0x10000 by {
            if j < st.2.len() {
                assert(st2.2[j] == st.2[j]);
            }
        }
    }
}

proof fn lemma_state_ranges_ok(lines: Seq<Seq<u8>>)
    requires
        char_def_state(lines) is Some,
    ensures
        ranges_ok(char_def_state(lines)->0),
    decreases lines.len(),
{
    if lines.len() > 0 {
        lemma_state_ranges_ok(lines.drop_last());
        lemma_step_ranges_ok(char_def_state(lines.drop_last())->0, lines.last());
    }
}


/// The table entry of `c` from the first `n` ranges, where range `k` is the last
/// of them that covers `c`, is the encoding of range `k`'s categories.
proof fn lemma_entry_of_last_cover(st: CharDefState, n: int, c: int, k: int)
    requires
        0 <= k < n <= st.2.len(),
        st.2[k].0 <= c < st.2[k].1,
        forall|j: int| k < j < n ==> !((#[trigger] st.2[j]).0 <= c < st.2[j].1),
    ensures
        spec_table_entry(st, n, c) == spec_encode(st, st.2[k].2)->0,
    decreases n,
{
    if n - 1 > k {
        assert(!(st.2[n - 1].0 <= c < st.2[n - 1].1));
        lemma_entry_of_last_cover(st, n - 1, c, k);
    }
}

/// The table entry of `c` from the first `n` ranges, none of which covers `c`,
/// is that of the default category.
proof fn lemma_entry_uncovered(st: CharDefState, n: int, c: int)
    requires
        n <= st.2.len(),
        forall|j: int| 0 <= j < n ==> !((#[trigger] st.2[j]).0 <= c < st.2[j].1),
    ensures
        spec_table_entry(st, n, c) == spec_encode(st, seq![default_name()])->0,
    decreases n,
{
    if n > 0 {
        assert(!(st.2[n - 1].0 <= c < st.2[n - 1].1));
        lemma_entry_uncovered(st, n - 1, c);
    }
}

/// Later range lines of `char.def` override earlier ones: a character takes the
/// categories of the last range line that covers it, and those of `DEFAULT`
/// when none does.
pub proof fn lemma_last_range_wins(st: CharDefState, c: int)
    ensures
        forall|k: int|
            0 <= k < st.2.len() && st.2[k].0 <= c < st.2[k].1 && (forall|j: int|
                k < j < st.2.len() ==> !((#[trigger] st.2[j]).0 <= c < st.2[j].1)) ==> spec_table_entry(
                st,
                st.2.len() as int,
                c,
            ) == spec_encode(st, (#[trigger] st.2[k]).2)->0,
        (forall|j: int| 0 <= j < st.2.len() ==> !((#[trigger] st.2[j]).0 <= c < st.2[j].1)) ==> spec_table_entry(
            st,
            st.2.len() as int,
            c,
        ) == spec_encode(st, seq![default_name()])->0,
{
    assert forall|k: int|
        0 <= k < st.2.len() && st.2[k].0 <= c < st.2[k].1 && (forall|j: int|
            k < j < st.2.len() ==> !((#[trigger] st.2[j]).0 <= c < st.2[j].1)) implies spec_table_entry(
        st,
        st.2.len() as int,
        c,
    ) == spec_encode(st, (#[trigger] st.2[k]).2)->0 by {
        lemma_entry_of_last_cover(st, st.2.len() as int, c, k);
    }
    if forall|j: int| 0 <= j < st.2.len() ==> !((#[trigger] st.2[j]).0 <= c < st.2[j].1) {
        lemma_entry_uncovered(st, st.2.len() as int, c);
    }
}

} // verus!

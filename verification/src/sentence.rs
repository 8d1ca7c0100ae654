//! An input sentence with its characters, byte positions and character categories.
use vstd::prelude::*;
use vstd::string::*;
use vstd::utf8::*;

use crate::dictionary::character::{CharInfo, CharProperty};
use crate::errors::VibratoError;
use crate::utils::chars_of;

verus! {

/// Byte position of character `i`: the length of the UTF-8 encoding of the first
/// `i` characters.
pub open spec fn byte_pos(chars: Seq<char>, i: int) -> int {
    encode_utf8(chars.take(i)).len() as int
}

/// Length of the run of characters from `i` in which each character shares a
/// category with the next one, counting `i` itself.
pub open spec fn run_len(sets: Seq<u32>, i: int) -> int
    decreases sets.len() - i,
{
    if i + 1 >= sets.len() {
        1
    } else if sets[i] & sets[i + 1] != 0 {
        run_len(sets, i + 1) + 1
    } else {
        1
    }
}

/// A run has at least one character and ends at the end of the sequence at the
/// latest.
pub proof fn lemma_run_len_bounds(sets: Seq<u32>, i: int)
    requires
        0 <= i < sets.len(),
    ensures
        1 <= run_len(sets, i) <= sets.len() - i,
    decreases sets.len() - i,
{
    if i + 1 < sets.len() {
        lemma_run_len_bounds(sets, i + 1);
    }
}

/// The UTF-8 encoding of a concatenation is the concatenation of the encodings.
pub proof fn lemma_encode_concat(a: Seq<char>, b: Seq<char>)
    ensures
        encode_utf8(a + b) == encode_utf8(a) + encode_utf8(b),
    decreases a.len(),
{
    if a.len() > 0 {
        assert((a + b).drop_first() =~= a.drop_first() + b);
        lemma_encode_concat(a.drop_first(), b);
        assert(encode_utf8(a + b) =~= encode_utf8(a) + encode_utf8(b));
    } else {
        assert(a + b =~= b);
        assert(encode_utf8(a) + encode_utf8(b) =~= encode_utf8(b));
    }
}

/// Number of bytes of the UTF-8 encoding of `c`.
pub fn utf8_len(c: char) -> (r: usize)
    ensures
        r == encode_utf8(seq![c]).len(),
        1 <= r <= 4,
{
    let u = c as u32;
    assert(seq![c].drop_first() =~= Seq::<char>::empty());
    assert(encode_utf8(Seq::<char>::empty()) =~= Seq::<u8>::empty());
    assert(encode_utf8(seq![c]) =~= encode_scalar(u));
    if u <= 0x7f {
        1
    } else if u <= 0x7ff {
        2
    } else if u <= 0xffff {
        3
    } else {
        4
    }
}

/// An input sentence.
pub struct Sentence {
    input: String,
    chars: Vec<char>,
    c2b: Vec<usize>,
    cinfos: Vec<CharInfo>,
    groupable: Vec<usize>,
}

impl Sentence {
    /// The input text.
    pub closed spec fn text(&self) -> Seq<char> {
        self.input@
    }

    /// The characters found by the last compilation.
    pub closed spec fn char_seq(&self) -> Seq<char> {
        self.chars@
    }

    /// Byte position of each character, and the byte length at the end.
    pub closed spec fn positions(&self) -> Seq<usize> {
        self.c2b@
    }

    /// Category id sets of the characters.
    pub closed spec fn idsets(&self) -> Seq<u32> {
        self.cinfos@.map_values(|ci: CharInfo| ci.spec_cate_idset())
    }

    /// The category id sets are those of the character information.
    pub proof fn lemma_idsets(&self)
        ensures
            self.idsets().len() == self.infos().len(),
            forall|i: int|
                0 <= i < self.infos().len() ==> #[trigger] self.idsets()[i] == self.infos()[i].spec_cate_idset(),
    {
    }

    /// Character information of the characters, packed.
    pub closed spec fn infos(&self) -> Seq<CharInfo> {
        self.cinfos@
    }

    /// Run lengths of groupable characters.
    pub closed spec fn runs(&self) -> Seq<usize> {
        self.groupable@
    }

    /// Nothing has been computed from the text yet.
    pub open spec fn is_fresh(&self) -> bool {
        &&& self.char_seq().len() == 0
        &&& self.positions().len() == 0
        &&& self.infos().len() == 0
        &&& self.runs().len() == 0
    }

    /// Characters and byte positions agree with the text.
    pub open spec fn basic_done(&self) -> bool {
        &&& self.char_seq() == self.text()
        &&& self.positions().len() == self.char_seq().len() + 1
        &&& forall|i: int|
            0 <= i <= self.char_seq().len() ==> #[trigger] self.positions()[i] == byte_pos(
                self.char_seq(),
                i,
            )
    }

    /// Everything has been computed from the text with `prop`.
    pub open spec fn compiled(&self, prop: &CharProperty) -> bool {
        &&& self.basic_done()
        &&& self.infos().len() == self.char_seq().len()
        &&& forall|i: int|
            0 <= i < self.char_seq().len() ==> (#[trigger] self.infos()[i]).raw()
                == prop.spec_char_info(self.char_seq()[i])
        &&& self.grouped()
    }

    /// The run lengths agree with the category id sets.
    pub open spec fn grouped(&self) -> bool {
        &&& self.infos().len() == self.char_seq().len()
        &&& self.runs().len() == self.char_seq().len()
        &&& forall|i: int|
            0 <= i < self.char_seq().len() ==> #[trigger] self.runs()[i] == run_len(self.idsets(), i)
    }

    /// An empty sentence.
    pub fn new() -> (r: Self)
        ensures
            r.text() == Seq::<char>::empty(),
            r.is_fresh(),
    {
        proof {
            reveal_strlit("");
        }
        Self {
            input: String::from_str(""),
            chars: Vec::new(),
            c2b: Vec::new(),
            cinfos: Vec::new(),
            groupable: Vec::new(),
        }
    }

    /// Forgets the text and everything computed from it.
    pub fn clear(&mut self)
        ensures
            final(self).text() == Seq::<char>::empty(),
            final(self).is_fresh(),
    {
        self.input = String::from_str("");
        self.chars = Vec::new();
        self.c2b = Vec::new();
        self.cinfos = Vec::new();
        self.groupable = Vec::new();
        proof {
            reveal_strlit("");
        }
    }

    /// Sets the text, forgetting everything computed from the previous one.
    pub fn set_sentence(&mut self, input: &str)
        ensures
            final(self).text() == input@,
            final(self).is_fresh(),
    {
        self.clear();
        self.input = String::from_str(input);
    }

    /// Computes the characters, their byte positions and categories, and the runs
    /// of groupable characters. The text must not be empty.
    pub fn compile(&mut self, char_prop: &CharProperty) -> (r: Result<(), VibratoError>)
        requires
            old(self).is_fresh(),
            old(self).text().len() > 0,
            char_prop.wf(),
        ensures
            r is Ok,
            final(self).text() == old(self).text(),
            final(self).compiled(char_prop),
    {
        self.compute_basic();
        self.compute_categories(char_prop);
        self.compute_groupable();
        Ok(())
    }

    /// Computes the characters and their byte positions.
    pub fn compute_basic(&mut self)
        requires
            old(self).is_fresh(),
        ensures
            final(self).text() == old(self).text(),
            final(self).basic_done(),
            final(self).infos().len() == 0,
            final(self).runs().len() == 0,
    {
        let chars = chars_of(self.input.as_str());
        let n = chars.len();
        let total = self.input.as_str().as_bytes().len();
        assert(chars@.take(n as int) =~= chars@);
        let mut c2b: Vec<usize> = Vec::new();
        let mut pos: usize = 0;
        let mut i: usize = 0;
        proof {
            assert(chars@.take(0) =~= Seq::<char>::empty());
        }
        while i < n
            invariant
                i <= n == chars@.len(),
                chars@ == self.input@,
                c2b@.len() == i,
                pos == byte_pos(chars@, i as int),
                forall|j: int| 0 <= j < i ==> #[trigger] c2b@[j] == byte_pos(chars@, j),
                byte_pos(chars@, n as int) == encode_utf8(chars@).len(),
                total == encode_utf8(chars@).len(),
            decreases n - i,
        {
            c2b.push(pos);
            let w = utf8_len(chars[i]);
            proof {
                assert(chars@.take(i + 1) =~= chars@.take(i as int) + seq![chars@[i as int]]);
                lemma_encode_concat(chars@.take(i as int), seq![chars@[i as int]]);
                lemma_encode_concat(chars@.take(i + 1), chars@.skip(i + 1));
                assert(chars@.take(i + 1) + chars@.skip(i + 1) =~= chars@);
            }
            pos = pos + w;
            i = i + 1;
        }
        c2b.push(total);
        self.chars = chars;
        self.c2b = c2b;
    }

    fn compute_categories(&mut self, char_prop: &CharProperty)
        requires
            old(self).basic_done(),
            old(self).infos().len() == 0,
            old(self).runs().len() == 0,
            char_prop.wf(),
        ensures
            final(self).text() == old(self).text(),
            final(self).basic_done(),
            final(self).infos().len() == final(self).char_seq().len(),
            forall|i: int|
                0 <= i < final(self).char_seq().len() ==> (#[trigger] final(self).infos()[i]).raw()
                    == char_prop.spec_char_info(final(self).char_seq()[i]),
            final(self).runs().len() == 0,
    {
        let n = self.chars.len();
        let mut cinfos: Vec<CharInfo> = Vec::new();
        let mut i: usize = 0;
        while i < n
            invariant
                i <= n == self.chars@.len(),
                cinfos@.len() == i,
                char_prop.wf(),
                forall|j: int|
                    0 <= j < i ==> (#[trigger] cinfos@[j]).raw() == char_prop.spec_char_info(
                        self.chars@[j],
                    ),
            decreases n - i,
        {
            let ci = char_prop.char_info(self.chars[i]);
            cinfos.push(ci);
            i = i + 1;
        }
        self.cinfos = cinfos;
    }

    fn compute_groupable(&mut self)
        requires
            old(self).basic_done(),
            old(self).char_seq().len() > 0,
            old(self).infos().len() == old(self).char_seq().len(),
            old(self).runs().len() == 0,
        ensures
            final(self).text() == old(self).text(),
            final(self).char_seq() == old(self).char_seq(),
            final(self).positions() == old(self).positions(),
            final(self).infos() == old(self).infos(),
            final(self).runs().len() == final(self).char_seq().len(),
            forall|i: int|
                0 <= i < final(self).char_seq().len() ==> #[trigger] final(self).runs()[i] == run_len(
                    final(self).idsets(),
                    i,
                ),
    {
        let n = self.chars.len();
        let ghost sets = self.idsets();
        let mut g: Vec<usize> = vec![1usize; n];
        let mut rhs = self.cinfos[n - 1].cate_idset();
        let mut i: usize = n - 1;
        while i > 0
            invariant
                0 <= i < n == self.chars@.len() == self.cinfos@.len(),
                sets == self.idsets(),
                sets.len() == n,
                g@.len() == n,
                rhs == sets[i as int],
                forall|j: int| 0 <= j < i ==> #[trigger] g@[j] == 1,
                forall|j: int| i <= j < n ==> #[trigger] g@[j] == run_len(sets, j),
                forall|j: int| i <= j < n ==> 1 <= #[trigger] run_len(sets, j) <= n - j,
            decreases i,
        {
            let lhs = self.cinfos[i - 1].cate_idset();
            assert(lhs == sets[i - 1]);
            if (lhs & rhs) != 0 {
                let v = g[i] + 1;
                g.set(i - 1, v);
            }
            rhs = lhs;
            i = i - 1;
        }
        self.groupable = g;
    }

    /// The input text.
    pub fn raw(&self) -> (r: &str)
        ensures
            r@ == self.text(),
    {
        self.input.as_str()
    }

    /// The characters.
    pub fn chars(&self) -> (r: &[char])
        ensures
            r@ == self.char_seq(),
    {
        self.chars.as_slice()
    }

    /// Number of characters.
    pub fn len_char(&self) -> (r: usize)
        ensures
            r == self.char_seq().len(),
    {
        self.chars.len()
    }

    /// Byte position of character `pos_char` (the byte length for the end).
    pub fn byte_position(&self, pos_char: usize) -> (r: usize)
        requires
            self.basic_done(),
            pos_char <= self.char_seq().len(),
        ensures
            r == byte_pos(self.char_seq(), pos_char as int),
    {
        self.c2b[pos_char]
    }

    /// Character information of character `pos_char`.
    pub fn char_info(&self, pos_char: usize) -> (r: CharInfo)
        requires
            pos_char < self.infos().len(),
        ensures
            r == self.infos()[pos_char as int],
    {
        self.cinfos[pos_char]
    }

    /// Length of the run of groupable characters from `pos_char`.
    pub fn groupable(&self, pos_char: usize) -> (r: usize)
        requires
            pos_char < self.runs().len(),
        ensures
            r == self.runs()[pos_char as int],
    {
        self.groupable[pos_char]
    }
}

} // verus!

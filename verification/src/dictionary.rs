//! Dictionary for tokenization.
use vstd::prelude::*;

pub mod builder;
pub mod character;
pub mod connector;
pub mod context_id;
pub mod lexicon;
pub mod mapper;
pub mod unknown;
pub mod word_idx;

use crate::dictionary::character::CharProperty;
use crate::dictionary::connector::{Connector, ConnectorWrapper};
use crate::dictionary::lexicon::param::{params_within, WordParam};
use crate::dictionary::lexicon::map::ids_of_words;
use crate::dictionary::lexicon::{lex_csv, EntryView, Lexicon};
use crate::dictionary::mapper::ConnIdMapper;
use crate::dictionary::unknown::UnkHandler;
use crate::dictionary::word_idx::WordIdx;
use crate::errors::VibratoError;

verus! {

/// Type of a lexicon that contains the word.
#[derive(Clone, Copy, Debug, PartialEq, Eq, Structural)]
pub enum LexType {
    /// System lexicon.
    System,
    /// User lexicon.
    User,
    /// Unknown words.
    Unknown,
}

impl Default for LexType {
    fn default() -> (r: Self)
        ensures
            r == LexType::System,
    {
        LexType::System
    }
}


/// Every connection id of every unknown-word entry is within the counts.
pub open spec fn unk_within(unk: &UnkHandler, num_left: int, num_right: int) -> bool {
    forall|i: int|
        0 <= i < unk.entries_view().len() ==> (#[trigger] unk.entries_view()[i]).left_id < num_left
            && unk.entries_view()[i].right_id < num_right
}

/// Dictionary for tokenization.
pub struct Dictionary {
    system_lexicon: Lexicon,
    user_lexicon: Option<Lexicon>,
    connector: ConnectorWrapper,
    mapper: Option<ConnIdMapper>,
    char_prop: CharProperty,
    unk_handler: UnkHandler,
    need_check: bool,
}

impl Dictionary {
    /// The system lexicon.
    pub closed spec fn system_view(&self) -> Lexicon {
        self.system_lexicon
    }

    /// The user lexicon, if any.
    pub closed spec fn user_view(&self) -> Option<Lexicon> {
        self.user_lexicon
    }

    /// The connector.
    pub closed spec fn connector_view(&self) -> ConnectorWrapper {
        self.connector
    }

    /// The character property.
    pub closed spec fn char_prop_view(&self) -> CharProperty {
        self.char_prop
    }

    /// The handler of unknown words.
    pub closed spec fn unk_view(&self) -> UnkHandler {
        self.unk_handler
    }

    /// The mapper applied to the connection ids, if any.
    pub closed spec fn mapper_view(&self) -> Option<ConnIdMapper> {
        self.mapper
    }

    /// All parts are consistent: every word's connection ids are within the
    /// connector, and every character's base category has unknown-word entries.
    pub open spec fn wf(&self) -> bool {
        let c = self.connector_view();
        &&& c.conn_wf()
        &&& self.system_view().wf()
        &&& self.system_view().lex_type_view() == LexType::System
        &&& params_within(self.system_view().params_view(), c.left_len() as int, c.right_len() as int)
        &&& self.user_view() matches Some(u) ==> u.wf() && u.lex_type_view() == LexType::User
            && params_within(u.params_view(), c.left_len() as int, c.right_len() as int)
        &&& self.char_prop_view().wf()
        &&& self.char_prop_view().base_ids_ok()
        &&& self.unk_view().wf()
        &&& self.unk_view().offsets_view().len() == self.char_prop_view().names().len() + 1
        &&& unk_within(&self.unk_view(), c.left_len() as int, c.right_len() as int)
    }

    /// Gathers the parts of a dictionary.
    pub fn from_parts(
        system_lexicon: Lexicon,
        connector: ConnectorWrapper,
        char_prop: CharProperty,
        unk_handler: UnkHandler,
    ) -> (r: Self)
        ensures
            r.system_view() == system_lexicon,
            r.user_view() is None,
            r.connector_view() == connector,
            r.char_prop_view() == char_prop,
            r.unk_view() == unk_handler,
            r.mapper_view() is None,
    {
        Self {
            system_lexicon,
            user_lexicon: None,
            connector,
            mapper: None,
            char_prop,
            unk_handler,
            need_check: false,
        }
    }

    /// The system lexicon.
    pub fn system_lexicon(&self) -> (r: &Lexicon)
        ensures
            *r == self.system_view(),
    {
        &self.system_lexicon
    }

    /// The user lexicon, if any.
    pub fn user_lexicon(&self) -> (r: Option<&Lexicon>)
        ensures
            r matches Some(u) ==> self.user_view() == Some(*u),
            r is None ==> self.user_view() is None,
    {
        match &self.user_lexicon {
            Some(u) => Some(u),
            None => None,
        }
    }

    /// The connector.
    pub fn connector(&self) -> (r: &ConnectorWrapper)
        ensures
            *r == self.connector_view(),
    {
        &self.connector
    }

    /// The mapper applied to the connection ids, if any.
    pub fn mapper(&self) -> (r: Option<&ConnIdMapper>)
        ensures
            r matches Some(m) ==> self.mapper_view() == Some(*m),
            r is None ==> self.mapper_view() is None,
    {
        match &self.mapper {
            Some(m) => Some(m),
            None => None,
        }
    }

    /// The character property.
    pub fn char_prop(&self) -> (r: &CharProperty)
        ensures
            *r == self.char_prop_view(),
    {
        &self.char_prop
    }

    /// The handler of unknown words.
    pub fn unk_handler(&self) -> (r: &UnkHandler)
        ensures
            *r == self.unk_view(),
    {
        &self.unk_handler
    }

    /// The word exists in the lexicon that its index names.
    pub open spec fn has_word(&self, w: WordIdx) -> bool {
        match w.lex_type {
            LexType::System => (w.word_id as int) < self.system_view().params_view().len(),
            LexType::User => self.user_view() matches Some(u) && (w.word_id as int)
                < u.params_view().len(),
            LexType::Unknown => (w.word_id as int) < self.unk_view().entries_view().len(),
        }
    }

    /// The parameters of a word.
    pub open spec fn param_of(&self, w: WordIdx) -> WordParam {
        match w.lex_type {
            LexType::System => self.system_view().params_view()[w.word_id as int],
            LexType::User => self.user_view()->0.params_view()[w.word_id as int],
            LexType::Unknown => {
                let e = self.unk_view().entries_view()[w.word_id as int];
                WordParam { left_id: e.left_id, right_id: e.right_id, word_cost: e.word_cost }
            },
        }
    }

    /// The feature of a word.
    pub open spec fn feature_of(&self, w: WordIdx) -> Seq<char> {
        match w.lex_type {
            LexType::System => self.system_view().features_view()[w.word_id as int],
            LexType::User => self.user_view()->0.features_view()[w.word_id as int],
            LexType::Unknown => self.unk_view().entries_view()[w.word_id as int].feature@,
        }
    }

    /// Whether the word exists in the lexicon that its index names.
    pub fn contains_word(&self, word_idx: WordIdx) -> (r: bool)
        ensures
            r == self.has_word(word_idx),
    {
        match word_idx.lex_type {
            LexType::System => (word_idx.word_id as usize) < self.system_lexicon.num_words(),
            LexType::User => match &self.user_lexicon {
                Some(u) => (word_idx.word_id as usize) < u.num_words(),
                None => false,
            },
            LexType::Unknown => (word_idx.word_id as usize) < self.unk_handler.len(),
        }
    }

    /// The connection ids of every word are within the connector.
    pub proof fn lemma_param_within(&self, w: WordIdx)
        requires
            self.wf(),
            self.has_word(w),
        ensures
            (self.param_of(w).left_id as int) < self.connector_view().left_len(),
            (self.param_of(w).right_id as int) < self.connector_view().right_len(),
    {
        match w.lex_type {
            LexType::System => {
                assert(self.system_view().params_view()[w.word_id as int] == self.param_of(w));
            },
            LexType::User => {
                assert(self.user_view()->0.params_view()[w.word_id as int] == self.param_of(w));
            },
            LexType::Unknown => {
                assert(self.unk_view().entries_view()[w.word_id as int].left_id == self.param_of(w).left_id);
            },
        }
    }

    /// The parameters of a word.
    pub fn word_param(&self, word_idx: WordIdx) -> (r: WordParam)
        requires
            self.has_word(word_idx),
        ensures
            r == self.param_of(word_idx),
    {
        match word_idx.lex_type {
            LexType::System => self.system_lexicon.word_param(word_idx),
            LexType::User => {
                let u = self.user_lexicon.as_ref().unwrap();
                u.word_param(word_idx)
            },
            LexType::Unknown => self.unk_handler.word_param(word_idx),
        }
    }

    /// The feature of a word.
    pub fn word_feature(&self, word_idx: WordIdx) -> (r: &str)
        requires
            self.wf(),
            self.has_word(word_idx),
        ensures
            r@ == self.feature_of(word_idx),
    {
        match word_idx.lex_type {
            LexType::System => self.system_lexicon.word_feature(word_idx),
            LexType::User => {
                let u = self.user_lexicon.as_ref().unwrap();
                u.word_feature(word_idx)
            },
            LexType::Unknown => self.unk_handler.word_feature(word_idx),
        }
    }

    /// Replaces the user lexicon by the one read from `user_lexicon_rdr`, or
    /// removes it for `None`. The mapper of the dictionary, if any, renames the new
    /// lexicon's connection ids first; ids beyond the connector give an
    /// invalid-argument error.
    pub fn reset_user_lexicon_from_reader(self, user_lexicon_rdr: Option<&[u8]>) -> (r: Result<
        Self,
        VibratoError,
    >)
        requires
            self.wf(),
            user_lexicon_rdr matches Some(b) ==> b@.len() < usize::MAX,
        ensures
            r matches Ok(d) ==> d.wf() && d.system_view() == self.system_view()
                && d.connector_view() == self.connector_view() && d.char_prop_view()
                == self.char_prop_view() && d.unk_view() == self.unk_view()
                && (user_lexicon_rdr is None <==> d.user_view() is None)
                && d.mapper_view() == self.mapper_view(),
            user_lexicon_rdr is None ==> r is Ok,
            user_lexicon_rdr matches Some(b) ==> user_read(b@, self, r),
    {
        let mut this = self;
        match user_lexicon_rdr {
            Some(rdr) => {
                let mut user_lexicon = Lexicon::from_reader(rdr, LexType::User)?;
                match &this.mapper {
                    Some(mapper) => {
                        if !user_lexicon.verify_mapper(mapper) {
                            return Err(
                                VibratoError::invalid_argument(
                                    "user_lexicon_rdr",
                                    "includes invalid connection ids.",
                                ),
                            );
                        }
                        user_lexicon.map_connection_ids(mapper);
                    },
                    None => {},
                }
                if !user_lexicon.verify(&this.connector) {
                    return Err(
                        VibratoError::invalid_argument(
                            "user_lexicon_rdr",
                            "includes invalid connection ids.",
                        ),
                    );
                }
                this.user_lexicon = Some(user_lexicon);
            },
            None => {
                this.user_lexicon = None;
            },
        }
        Ok(this)
    }

    /// Renames the connection ids of every part: the `i`-th item (from 1) of
    /// `lmap`/`rmap` is the old left/right id that gets the new id `i`.
    ///
    /// Fails with an invalid-argument error when id 0 occurs, an id is out of
    /// range or occurs twice, and with a conversion error when a list is too long.
    #[verifier::rlimit(40)]
    pub fn map_connection_ids_from_iter(self, lmap: Vec<u16>, rmap: Vec<u16>) -> (r: Result<
        Self,
        VibratoError,
    >)
        requires
            self.wf(),
            lmap@.len() + 1 == self.connector_view().left_len(),
            rmap@.len() + 1 == self.connector_view().right_len(),
        ensures
            r is Ok <==> crate::dictionary::mapper::valid_id_map(lmap@)
                && crate::dictionary::mapper::valid_id_map(rmap@),
            r matches Ok(d) ==> d.wf() && d.mapper_view() is Some && {
                let m = d.mapper_view()->0;
                &&& forall|a: int, b: int|
                    0 <= a < self.connector_view().right_len() && 0 <= b
                        < self.connector_view().left_len() ==> d.connector_view().cost_of(
                        m.right_map()[a] as int,
                        m.left_map()[b] as int,
                    ) == self.connector_view().cost_of(a, b)
                &&& lexicon_mapped(self.system_view(), d.system_view(), m.left_map(), m.right_map())
                &&& (self.user_view() is Some <==> d.user_view() is Some)
                &&& (self.user_view() matches Some(u) ==> lexicon_mapped(
                    u,
                    d.user_view()->0,
                    m.left_map(),
                    m.right_map(),
                ))
                &&& unk_mapped(self.unk_view(), d.unk_view(), m.left_map(), m.right_map())
                &&& d.char_prop_view() == self.char_prop_view()
            },
    {
        let mapper = ConnIdMapper::from_iter(lmap, rmap)?;
        let ghost lm = mapper.left_map();
        let ghost rm = mapper.right_map();
        let ghost nl = self.connector_view().left_len() as int;
        let ghost nr = self.connector_view().right_len() as int;
        let mut this = self;
        let ghost sys0 = this.system_lexicon.params_view();
        this.system_lexicon.map_connection_ids(&mapper);
        proof {
            lemma_mapped_within(sys0, this.system_lexicon.params_view(), lm, rm);
        }
        let mut user = None;
        std::mem::swap(&mut user, &mut this.user_lexicon);
        match user {
            Some(mut u) => {
                let ghost u0 = u.params_view();
                u.map_connection_ids(&mapper);
                proof {
                    lemma_mapped_within(u0, u.params_view(), lm, rm);
                }
                this.user_lexicon = Some(u);
            },
            None => {},
        }
        this.connector.map_connection_ids(&mapper);
        let ghost unk0 = this.unk_handler;
        this.unk_handler.map_connection_ids(&mapper);
        proof {
            lemma_unk_mapped_within(&unk0, &this.unk_handler, lm, rm);
        }
        this.mapper = Some(mapper);
        Ok(this)
    }
}

/// `r` is what [`Dictionary::reset_user_lexicon_from_reader`] gives for the
/// lexicon file `b`: the error of reading it, if any; on success a user lexicon
/// whose `i`-th word is the `i`-th entry, its connection ids renamed by the
/// dictionary's mapper when there is one.
pub open spec fn user_read(b: Seq<u8>, d: Dictionary, r: Result<Dictionary, VibratoError>) -> bool {
    match lex_csv(b) {
        Err(f) => r matches Err(e) && e.fault() == f,
        Ok(es) => r matches Ok(d2) ==> {
            let u = d2.user_view()->0;
            &&& es.len() < 0xffff_fffe
            &&& u.records() == ids_of_words(es.map_values(|e: EntryView| e.0))
            &&& u.features_view() == es.map_values(|e: EntryView| e.2)
            &&& u.params_view().len() == es.len()
            &&& forall|i: int|
                0 <= i < es.len() ==> #[trigger] u.params_view()[i] == match d.mapper_view() {
                    Some(m) => crate::dictionary::lexicon::param::mapped_param(es[i].1, m.left_map(), m.right_map()),
                    None => es[i].1,
                }
        },
    }
}

/// `new` is `old` with the connection ids of every word renamed by `lm` and `rm`.
pub open spec fn lexicon_mapped(old: Lexicon, new: Lexicon, lm: Seq<u16>, rm: Seq<u16>) -> bool {
    &&& new.records() == old.records()
    &&& new.features_view() == old.features_view()
    &&& new.lex_type_view() == old.lex_type_view()
    &&& new.params_view().len() == old.params_view().len()
    &&& forall|i: int|
        0 <= i < old.params_view().len() ==> #[trigger] new.params_view()[i]
            == crate::dictionary::lexicon::param::mapped_param(old.params_view()[i], lm, rm)
}

/// `new` is `old` with the connection ids of every unknown-word entry renamed by
/// `lm` and `rm`.
pub open spec fn unk_mapped(old: UnkHandler, new: UnkHandler, lm: Seq<u16>, rm: Seq<u16>) -> bool {
    &&& new.offsets_view() == old.offsets_view()
    &&& new.entries_view().len() == old.entries_view().len()
    &&& forall|i: int|
        0 <= i < old.entries_view().len() ==> {
            let e = old.entries_view()[i];
            let f = #[trigger] new.entries_view()[i];
            &&& f.left_id == lm[e.left_id as int]
            &&& f.right_id == rm[e.right_id as int]
            &&& f.cate_id == e.cate_id
            &&& f.word_cost == e.word_cost
            &&& f.feature@ == e.feature@
        }
}

proof fn lemma_mapped_within(ps: Seq<WordParam>, qs: Seq<WordParam>, lm: Seq<u16>, rm: Seq<u16>)
    requires
        crate::dictionary::mapper::is_perm(lm),
        crate::dictionary::mapper::is_perm(rm),
        params_within(ps, lm.len() as int, rm.len() as int),
        qs.len() == ps.len(),
        forall|i: int|
            0 <= i < ps.len() ==> #[trigger] qs[i] == crate::dictionary::lexicon::param::mapped_param(
                ps[i],
                lm,
                rm,
            ),
    ensures
        params_within(qs, lm.len() as int, rm.len() as int),
{
    assert forall|i: int| 0 <= i < qs.len() implies (#[trigger] qs[i]).left_id < lm.len() && qs[i].right_id
        < rm.len() by {
        assert(qs[i] == crate::dictionary::lexicon::param::mapped_param(ps[i], lm, rm));
        assert(ps[i].left_id < lm.len());
        assert(ps[i].right_id < rm.len());
    }
}

proof fn lemma_unk_mapped_within(u0: &UnkHandler, u1: &UnkHandler, lm: Seq<u16>, rm: Seq<u16>)
    requires
        crate::dictionary::mapper::is_perm(lm),
        crate::dictionary::mapper::is_perm(rm),
        unk_within(u0, lm.len() as int, rm.len() as int),
        u1.offsets_view() == u0.offsets_view(),
        u1.entries_view().len() == u0.entries_view().len(),
        forall|i: int|
            0 <= i < u0.entries_view().len() ==> {
                let e = u0.entries_view()[i];
                let f = #[trigger] u1.entries_view()[i];
                &&& f.left_id == lm[e.left_id as int]
                &&& f.right_id == rm[e.right_id as int]
                &&& f.cate_id == e.cate_id
                &&& f.word_cost == e.word_cost
                &&& f.feature@ == e.feature@
            },
    ensures
        unk_within(u1, lm.len() as int, rm.len() as int),
        u0.wf() ==> u1.wf(),
{
    assert forall|i: int| 0 <= i < u1.entries_view().len() implies (#[trigger] u1.entries_view()[i]).left_id
        < lm.len() && u1.entries_view()[i].right_id < rm.len() by {
        let e = u0.entries_view()[i];
        assert(e.left_id < lm.len());
        assert(e.right_id < rm.len());
    }
    if u0.wf() {
        assert forall|c: int, k: int|
            0 <= c < u1.offsets_view().len() - 1 && #[trigger] u1.offsets_view()[c] <= k
                < u1.offsets_view()[c + 1] implies #[trigger] u1.entries_view()[k].cate_id == c by {
            assert(u0.entries_view()[k].cate_id == c);
        }
    }
}



/// A user lexicon added to a dictionary whose connection ids were renamed takes
/// the new ids: its `i`-th word has the connection ids of the `i`-th entry of
/// the file renamed by the mapper (left by the left map, right by the right
/// map) and the entry's cost.
pub proof fn lemma_user_ids_renamed(b: Seq<u8>, d: Dictionary, d2: Dictionary, m: ConnIdMapper)
    requires
        user_read(b, d, Ok(d2)),
        d.mapper_view() == Some(m),
        lex_csv(b) is Ok,
    ensures
        forall|i: int|
            0 <= i < (lex_csv(b)->Ok_0).len() ==> {
                let e = (lex_csv(b)->Ok_0)[i].1;
                let p = #[trigger] (d2.user_view()->0).params_view()[i];
                &&& p.left_id == m.left_map()[e.left_id as int]
                &&& p.right_id == m.right_map()[e.right_id as int]
                &&& p.word_cost == e.word_cost
            },
{
    let es = lex_csv(b)->Ok_0;
    assert forall|i: int| 0 <= i < es.len() implies {
        let e = es[i].1;
        let p = #[trigger] (d2.user_view()->0).params_view()[i];
        &&& p.left_id == m.left_map()[e.left_id as int]
        &&& p.right_id == m.right_map()[e.right_id as int]
        &&& p.word_cost == e.word_cost
    } by {
        assert((d2.user_view()->0).params_view()[i] == crate::dictionary::lexicon::param::mapped_param(
            es[i].1,
            m.left_map(),
            m.right_map(),
        ));
    }
}

} // verus!

//! Builders of [`Dictionary`].
use vstd::prelude::*;

use crate::dictionary::character::{char_def_ok, def_names, CharProperty};
use crate::dictionary::connector::matrix_connector::{matrix_def, MatrixConnector};
use crate::dictionary::connector::raw_connector::{
    bigram_costs, costs_fit, feature_file_ok, feature_rows_readable, RawConnector,
};
use crate::dictionary::lexicon::map::{ids_of_words, word_map_ok};
use crate::dictionary::connector::{Connector, ConnectorWrapper};
use crate::dictionary::lexicon::param::params_within;
use crate::dictionary::lexicon::{entries_view, lex_csv, EntryView, Lexicon, RawWordEntry};
use crate::dictionary::unknown::{all_named, lemma_unk_read_within, unk_def_gives, UnkHandler};
use crate::dictionary::{unk_within, Dictionary, LexType};
use crate::errors::{Fault, VibratoError};
use crate::utils::spec_lines;

verus! {

/// The system lexicon of `d` holds the entries read from the lexicon file, the
/// `i`-th entry being word `i`.
pub open spec fn system_read(read: Result<Seq<EntryView>, Fault>, d: Dictionary) -> bool {
    read matches Ok(es) && es.len() < 0xffff_fffe && d.system_view().records() == ids_of_words(
        es.map_values(|e: EntryView| e.0),
    ) && d.system_view().params_view() == es.map_values(|e: EntryView| e.1)
        && d.system_view().features_view() == es.map_values(|e: EntryView| e.2)
}

/// The files of a dictionary with a `matrix.def` connector are well-formed
/// and agree: the lexicon and `unk.def` read, every `unk.def` row names a
/// category of `char.def`, and every connection id is within the matrix.
pub open spec fn matrix_files_ok(lex: Seq<u8>, conn: Seq<u8>, cp: Seq<u8>, unk: Seq<u8>) -> bool {
    &&& lex_csv(lex) matches Ok(es)
    &&& es.len() < 0xffff_fffe
    &&& word_map_ok(es.map_values(|e: EntryView| e.0))
    &&& matrix_def(conn) matches Ok((nr, nl, t))
    &&& params_within(es.map_values(|e: EntryView| e.1), nl as int, nr as int)
    &&& char_def_ok(cp)
    &&& lex_csv(unk) matches Ok(us)
    &&& us.len() <= 0x10000
    &&& all_named(def_names(spec_lines(cp)), us)
    &&& forall|i: int| 0 <= i < us.len() ==> (#[trigger] us[i]).1.left_id < nl && us[i].1.right_id < nr
}

/// The files of a dictionary with a bigram connector are well-formed and
/// agree: the lexicon and `unk.def` read, every `unk.def` row names a category
/// of `char.def`, the bigram files read, and every connection id is below the
/// number of lines of its feature file plus one.
pub open spec fn bigram_files_ok(
    lex: Seq<u8>,
    right: Seq<u8>,
    left: Seq<u8>,
    cost: Seq<u8>,
    cp: Seq<u8>,
    unk: Seq<u8>,
) -> bool {
    let nr = spec_lines(right).len() + 1;
    let nl = spec_lines(left).len() + 1;
    &&& lex_csv(lex) matches Ok(es)
    &&& es.len() < 0xffff_fffe
    &&& word_map_ok(es.map_values(|e: EntryView| e.0))
    &&& params_within(es.map_values(|e: EntryView| e.1), nl as int, nr as int)
    &&& costs_fit(cost)
    &&& bigram_costs(cost) is Ok
    &&& feature_file_ok(right) && feature_rows_readable(right) && nr <= 0x10000
    &&& feature_file_ok(left) && feature_rows_readable(left) && nl <= 0x10000
    &&& char_def_ok(cp)
    &&& lex_csv(unk) matches Ok(us)
    &&& us.len() <= 0x10000
    &&& all_named(def_names(spec_lines(cp)), us)
    &&& forall|i: int| 0 <= i < us.len() ==> (#[trigger] us[i]).1.left_id < nl && us[i].1.right_id < nr
}

/// Builder of a [`Dictionary`] from system lexicon entries.
pub struct SystemDictionaryBuilder {}

impl SystemDictionaryBuilder {
    /// Builds a dictionary from the parts; connection ids of the lexicon or the
    /// unknown-word entries beyond the connector give an invalid-argument error.
    pub fn build(
        system_word_entries: &Vec<RawWordEntry>,
        connector: ConnectorWrapper,
        char_prop: CharProperty,
        unk_handler: UnkHandler,
    ) -> (r: Result<Dictionary, VibratoError>)
        requires
            system_word_entries@.len() < 0xffff_fffe,
            connector.conn_wf(),
            char_prop.wf(),
            char_prop.base_ids_ok(),
            unk_handler.wf(),
            unk_handler.offsets_view().len() == char_prop.names().len() + 1,
        ensures
            r matches Ok(d) ==> {
                &&& d.wf()
                &&& d.connector_view() == connector
                &&& d.char_prop_view() == char_prop
                &&& d.unk_view() == unk_handler
                &&& d.user_view() is None
                &&& d.mapper_view() is None
                &&& d.system_view().params_view() == system_word_entries@.map_values(
                    |e: RawWordEntry| e.param,
                )
                &&& d.system_view().features_view() == system_word_entries@.map_values(
                    |e: RawWordEntry| e.feature@,
                )
                &&& d.system_view().records() == ids_of_words(
                    system_word_entries@.map_values(|e: RawWordEntry| e.surface@),
                )
            },
            r is Ok ==> params_within(
                system_word_entries@.map_values(|e: RawWordEntry| e.param),
                connector.left_len() as int,
                connector.right_len() as int,
            ) && unk_within(&unk_handler, connector.left_len() as int, connector.right_len() as int),
            system_word_entries@.len() == 0 ==> r is Err,
            r is Ok <==> word_map_ok(system_word_entries@.map_values(|e: RawWordEntry| e.surface@))
                && params_within(
                system_word_entries@.map_values(|e: RawWordEntry| e.param),
                connector.left_len() as int,
                connector.right_len() as int,
            ) && unk_within(&unk_handler, connector.left_len() as int, connector.right_len() as int),
    {
        let system_lexicon = Lexicon::from_entries(system_word_entries, LexType::System)?;
        if !system_lexicon.verify(&connector) {
            return Err(
                VibratoError::invalid_argument(
                    "system_lexicon_rdr",
                    "system_lexicon_rdr includes invalid connection ids.",
                ),
            );
        }
        if !unk_handler.verify(&connector) {
            return Err(
                VibratoError::invalid_argument(
                    "unk_handler_rdr",
                    "unk_handler_rdr includes invalid connection ids.",
                ),
            );
        }
        let d = Dictionary::from_parts(system_lexicon, connector, char_prop, unk_handler);
        Ok(d)
    }

    /// Creates a dictionary from the texts of a lexicon file, `matrix.def`,
    /// `char.def` and `unk.def`; it succeeds on files that satisfy
    /// [`matrix_files_ok`].
    pub fn from_readers(
        system_lexicon_rdr: &[u8],
        connector_rdr: &[u8],
        char_prop_rdr: &[u8],
        unk_handler_rdr: &[u8],
    ) -> (r: Result<Dictionary, VibratoError>)
        requires
            system_lexicon_rdr@.len() < usize::MAX,
            unk_handler_rdr@.len() < usize::MAX,
            spec_lines(connector_rdr@).len() > 0,
        ensures
            r matches Ok(d) ==> d.wf() && d.user_view() is None && match (d.connector_view(), matrix_def(connector_rdr@)) {
                (ConnectorWrapper::Matrix(c), Ok((nr, nl, t))) => c.right_len() == nr && c.left_len() == nl
                    && c.table() == t,
                _ => false,
            },
            matrix_def(connector_rdr@) is Err ==> r is Err,
            !char_def_ok(char_prop_rdr@) ==> r is Err,
            lex_csv(system_lexicon_rdr@) matches Err(f) ==> (r matches Err(e) && e.fault() == f),
            r matches Ok(d) ==> system_read(lex_csv(system_lexicon_rdr@), d),
            r matches Ok(d) ==> unk_def_gives(d.char_prop_view().names(), unk_handler_rdr@, d.unk_view()),
            matrix_files_ok(system_lexicon_rdr@, connector_rdr@, char_prop_rdr@, unk_handler_rdr@) ==> r is Ok,
    {
        let entries = Lexicon::parse_csv(system_lexicon_rdr, "lex.csv")?;
        proof {
            let es = entries_view(entries@);
            assert(es.map_values(|e: EntryView| e.0) =~= entries@.map_values(|e: RawWordEntry| e.surface@));
            assert(es.map_values(|e: EntryView| e.1) =~= entries@.map_values(|e: RawWordEntry| e.param));
            assert(es.map_values(|e: EntryView| e.2) =~= entries@.map_values(|e: RawWordEntry| e.feature@));
        }
        if entries.len() >= 0xffff_fffe {
            return Err(VibratoError::invalid_format("lex.csv", "too many entries"));
        }
        let connector = MatrixConnector::from_reader(connector_rdr)?;
        let char_prop = CharProperty::from_reader(char_prop_rdr)?;
        let unk_handler = UnkHandler::from_reader(unk_handler_rdr, &char_prop)?;
        proof {
            if matrix_files_ok(system_lexicon_rdr@, connector_rdr@, char_prop_rdr@, unk_handler_rdr@) {
                let us = lex_csv(unk_handler_rdr@)->Ok_0;
                lemma_unk_read_within(
                    char_prop.names(),
                    us,
                    unk_handler,
                    connector.left_len() as int,
                    connector.right_len() as int,
                );
            }
        }
        Self::build(&entries, ConnectorWrapper::Matrix(connector), char_prop, unk_handler)
    }

    /// Creates a dictionary from the texts of a lexicon file, `bigram.right`,
    /// `bigram.left`, `bigram.cost`, `char.def` and `unk.def`.
    ///
    /// Besides the errors of the parts, a connector whose ids would not fit in
    /// `u16` or that has no features gives an invalid-format error. With files
    /// that satisfy [`bigram_files_ok`] that error, or one for tables too large
    /// for the machine, is the only one left.
    pub fn from_readers_with_bigram_info(
        system_lexicon_rdr: &[u8],
        bigram_right_rdr: &[u8],
        bigram_left_rdr: &[u8],
        bigram_cost_rdr: &[u8],
        char_prop_rdr: &[u8],
        unk_handler_rdr: &[u8],
    ) -> (r: Result<Dictionary, VibratoError>)
        requires
            system_lexicon_rdr@.len() < usize::MAX,
            unk_handler_rdr@.len() < usize::MAX,
        ensures
            r matches Ok(d) ==> d.wf() && d.user_view() is None && match d.connector_view() {
                ConnectorWrapper::Raw(c) => bigram_costs(bigram_cost_rdr@) matches Ok(st) && c.scorer_view()
                    == st.2,
                _ => false,
            },
            bigram_costs(bigram_cost_rdr@) is Err ==> r is Err,
            !char_def_ok(char_prop_rdr@) ==> r is Err,
            lex_csv(system_lexicon_rdr@) matches Err(f) ==> (r matches Err(e) && e.fault() == f),
            r matches Ok(d) ==> system_read(lex_csv(system_lexicon_rdr@), d),
            r matches Ok(d) ==> unk_def_gives(d.char_prop_view().names(), unk_handler_rdr@, d.unk_view()),
            bigram_files_ok(
                system_lexicon_rdr@,
                bigram_right_rdr@,
                bigram_left_rdr@,
                bigram_cost_rdr@,
                char_prop_rdr@,
                unk_handler_rdr@,
            ) ==> (r matches Err(e) ==> e is InvalidFormat),
    {
        let entries = Lexicon::parse_csv(system_lexicon_rdr, "lex.csv")?;
        proof {
            let es = entries_view(entries@);
            assert(es.map_values(|e: EntryView| e.0) =~= entries@.map_values(|e: RawWordEntry| e.surface@));
            assert(es.map_values(|e: EntryView| e.1) =~= entries@.map_values(|e: RawWordEntry| e.param));
            assert(es.map_values(|e: EntryView| e.2) =~= entries@.map_values(|e: RawWordEntry| e.feature@));
        }
        if entries.len() >= 0xffff_fffe {
            return Err(VibratoError::invalid_format("lex.csv", "too many entries"));
        }
        let connector = RawConnector::from_readers(bigram_right_rdr, bigram_left_rdr, bigram_cost_rdr)?;
        if !connector.check_wf() {
            return Err(VibratoError::invalid_format("bigram", "too many connection ids"));
        }
        let char_prop = CharProperty::from_reader(char_prop_rdr)?;
        let unk_handler = UnkHandler::from_reader(unk_handler_rdr, &char_prop)?;
        proof {
            if bigram_files_ok(
                system_lexicon_rdr@,
                bigram_right_rdr@,
                bigram_left_rdr@,
                bigram_cost_rdr@,
                char_prop_rdr@,
                unk_handler_rdr@,
            ) {
                lemma_unk_read_within(
                    char_prop.names(),
                    lex_csv(unk_handler_rdr@)->Ok_0,
                    unk_handler,
                    connector.left_len() as int,
                    connector.right_len() as int,
                );
            }
        }
        Self::build(&entries, ConnectorWrapper::Raw(connector), char_prop, unk_handler)
    }
}

} // verus!

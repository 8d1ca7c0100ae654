//! Resultant tokens.
use vstd::prelude::*;

use std::ops::Range;

use crate::dictionary::word_idx::WordIdx;
use crate::dictionary::LexType;
use crate::sentence::byte_pos;
use crate::tokenizer::lattice::Node;
use crate::tokenizer::worker::Worker;
use crate::utils::string_from_chars;

verus! {

/// A resultant token: the `index`-th of the worker's tokens, last token first.
pub struct Token<'w, 't> {
    worker: &'w Worker<'t>,
    index: usize,
}

impl<'w, 't> Token<'w, 't> {
    /// The worker.
    pub closed spec fn worker_view(&self) -> Worker<'t> {
        *self.worker
    }

    /// The position of the token among the worker's tokens, last token first.
    pub closed spec fn index_view(&self) -> int {
        self.index as int
    }

    /// The token exists.
    pub open spec fn valid(&self) -> bool {
        &&& self.worker_view().wf()
        &&& 0 <= self.index_view() < self.worker_view().tokens_view().len()
    }

    /// The end position of the token.
    pub open spec fn end(&self) -> usize {
        self.worker_view().tokens_view()[self.index_view()].0
    }

    /// The node of the token.
    pub open spec fn node(&self) -> Node {
        self.worker_view().tokens_view()[self.index_view()].1
    }

    /// The word of the token.
    pub open spec fn word(&self) -> WordIdx {
        WordIdx { lex_type: self.node().lex_type, word_id: self.node().word_id }
    }

    /// Creates a new instance.
    pub(crate) fn new(worker: &'w Worker<'t>, index: usize) -> (r: Self)
        ensures
            r.worker_view() == *worker,
            r.index_view() == index,
    {
        Self { worker, index }
    }

    /// The position range of the token in characters.
    pub fn range_char(&self) -> (r: Range<usize>)
        requires
            self.valid(),
        ensures
            r.start == self.node().start_word,
            r.end == self.end(),
    {
        let (end_word, node) = self.worker.top_node(self.index);
        node.start_word..end_word
    }

    /// The position range of the token in bytes.
    pub fn range_byte(&self) -> (r: Range<usize>)
        requires
            self.valid(),
        ensures
            r.start == byte_pos(self.worker_view().text(), self.node().start_word as int),
            r.end == byte_pos(self.worker_view().text(), self.end() as int),
    {
        let sent = self.worker.sentence();
        let (end_word, node) = self.worker.top_node(self.index);
        assert(node.start_word < end_word <= self.worker_view().text().len());
        sent.byte_position(node.start_word)..sent.byte_position(end_word)
    }

    /// The surface string of the token.
    pub fn surface(&self) -> (r: String)
        requires
            self.valid(),
        ensures
            r@ == self.worker_view().text().subrange(self.node().start_word as int, self.end() as int),
    {
        let sent = self.worker.sentence();
        let (end_word, node) = self.worker.top_node(self.index);
        let chars = sent.chars();
        string_from_chars(&chars[node.start_word..end_word])
    }

    /// The feature string of the token.
    pub fn feature(&self) -> (r: &'w str)
        requires
            self.valid(),
        ensures
            r@ == self.worker_view().dict().feature_of(self.word()),
    {
        let (_, node) = self.worker.top_node(self.index);
        self.worker.tokenizer().dictionary().word_feature(node.word_idx())
    }

    /// The lexicon that the token's word is from.
    pub fn lex_type(&self) -> (r: LexType)
        requires
            self.valid(),
        ensures
            r == self.node().lex_type,
    {
        let (_, node) = self.worker.top_node(self.index);
        node.lex_type
    }

    /// The left connection id of the token's word.
    pub fn left_id(&self) -> (r: u16)
        requires
            self.valid(),
        ensures
            r == self.node().left_id,
            r == self.worker_view().dict().param_of(self.word()).left_id,
    {
        let (_, node) = self.worker.top_node(self.index);
        node.left_id
    }

    /// The right connection id of the token's word.
    pub fn right_id(&self) -> (r: u16)
        requires
            self.valid(),
        ensures
            r == self.node().right_id,
            r == self.worker_view().dict().param_of(self.word()).right_id,
    {
        let (_, node) = self.worker.top_node(self.index);
        node.right_id
    }

    /// The cost of the token's word.
    pub fn word_cost(&self) -> (r: i16)
        requires
            self.valid(),
        ensures
            r == self.worker_view().dict().param_of(self.word()).word_cost,
    {
        let (_, node) = self.worker.top_node(self.index);
        self.worker.tokenizer().dictionary().word_param(node.word_idx()).word_cost
    }

    /// The total cost of the cheapest path from BOS through the token, wrapped to
    /// 32 bits.
    pub fn total_cost(&self) -> (r: i32)
        requires
            self.valid(),
        ensures
            i32::MIN <= self.node().min_cost <= i32::MAX ==> r == self.node().min_cost,
    {
        let (_, node) = self.worker.top_node(self.index);
        #[verifier::truncate]
        (node.min_cost as i32)
    }
}

} // verus!

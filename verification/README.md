# vibrato

Vibrato is a tokenizer (morphological analyzer) for Japanese and other languages
written without spaces. It reads dictionaries in the MeCab format, builds the
lattice of the words that can start at each position of a sentence, and keeps
the cheapest path through it (the Viterbi algorithm).

The library is written in Verus: each function states its behaviour in
`requires`/`ensures` clauses over mathematical models, and the verifier proves
that the code meets them.

## Layout

- `src/sentence.rs`: characters, byte positions, character categories and runs
  of groupable characters of a sentence.
- `src/dictionary/`: the parts of a dictionary.
  - `character.rs`: `char.def`, the categories of characters.
  - `unknown.rs`: `unk.def`, and the generation of unknown words.
  - `lexicon.rs` and `lexicon/`: lexicon files, the word map (a trie from the
    `crawdad` crate and posting lists) and the prefix search.
  - `connector/`: connection costs, as a matrix (`matrix.def`), computed from
    bigram features (`bigram.right`, `bigram.left`, `bigram.cost`), or split
    between both; `connector/scorer.rs` is a double array of pair weights with
    additive bases.
  - `mapper.rs`: renaming of connection ids, and counting of their occurrences.
  - `builder.rs`: building a dictionary from its files.
- `src/tokenizer.rs`, `src/tokenizer/`: building the lattice of a sentence and
  the search of the cheapest path; `src/token.rs`: the resulting tokens.
- `src/trainer/`: what training needs besides the floating-point optimiser:
  reading a corpus (`corpus.rs`), feature templates (`feature_extractor.rs`),
  rewrite rules for features (`feature_rewriter.rs`), the trainer's
  configuration (`config.rs`); `src/trainer.rs` builds the lattice of each
  example, the feature sets of the words and their labels, and reads a user
  lexicon for a trained model.
- `tests/`: tests on concrete inputs.
- `app/`: reading resource files, printing tokens, the floating-point
  occurrence probabilities of connection ids, and the trainer that hands the
  lattices to the CRF optimiser.

## Main guarantees

- The lattice of a sentence holds exactly the words of the lexicons that start
  at each reachable position, and the unknown words generated there following
  MeCab's rules (`Tokenizer::lattice_spec`).
- Every node holds the cheapest cost from BOS; the tokens are the nodes of the
  path back from EOS, whose cost no other path beats
  (`Worker::lemma_best_tokens_cheapest`), and without space skipping they cover
  the sentence one after another (`Worker::lemma_best_tokens_cover`).
- Renaming connection ids keeps every connection cost
  (`Connector::map_connection_ids`).
- Reading `char.def`, `matrix.def` and `bigram.cost` is specified exactly, errors
  included.
- A built double-array scorer gives back exactly the weights inserted into its
  builder (`ScorerBuilder::build` in both `connector/raw_connector/scorer.rs` and
  `connector/scorer.rs`).
- Rewriting a feature gives the rewrite of the earliest added rule whose pattern
  accepts it, and fails only where no rule does (`FeatureRewriter::rewrite`);
  feature ids handed out by the extractor stay dense.
- CSV is read with `csv_core`; what one read of a field gives is named
  (`csv_field_read`, a function of the reader's earlier calls and the arguments),
  and the rows of `lex.csv`, `unk.def`, the bigram feature files and feature
  strings are stated over it, errors included (`Lexicon::parse_csv`,
  `UnkHandler::from_reader`, `parse_csv_row`).
- Building a dictionary or a training configuration succeeds on files that are
  well-formed and agree with each other (`matrix_files_ok`, `trainer_files_ok`),
  and an unknown word always comes from an entry of the category of the
  character it starts at (`lemma_unk_word_category`).

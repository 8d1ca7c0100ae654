use vibrato::dictionary::builder::SystemDictionaryBuilder;
use vibrato::dictionary::Dictionary;
use vibrato::tokenizer::Tokenizer;

const LEXICON_CSV: &str = "自然,0,0,1,sizen
言語,0,0,4,gengo
処理,0,0,3,shori
自然言語,0,0,6,sizengengo
言語処理,0,0,5,gengoshori";
const MATRIX_DEF: &str = "1 1\n0 0 0";
const UNK_DEF: &str = "DEFAULT,0,0,100,*";

fn build(char_def: &str) -> Dictionary {
    build_with_unk(char_def, UNK_DEF)
}

fn build_with_unk(char_def: &str, unk_def: &str) -> Dictionary {
    SystemDictionaryBuilder::from_readers(
        LEXICON_CSV.as_bytes(),
        MATRIX_DEF.as_bytes(),
        char_def.as_bytes(),
        unk_def.as_bytes(),
    )
    .unwrap()
}

#[test]
fn test_tokenize_1() {
    let dict = build("DEFAULT 0 1 0");

    let tokenizer = Tokenizer::new(dict);
    let mut worker = tokenizer.new_worker();
    worker.reset_sentence("自然言語処理").unwrap();
    worker.tokenize();
    assert_eq!(worker.num_tokens(), 2);

    {
        let t = worker.token(0);
        assert_eq!(t.surface(), "自然");
        assert_eq!(t.range_char(), 0..2);
        assert_eq!(t.range_byte(), 0..6);
        assert_eq!(t.feature(), "sizen");
        assert_eq!(t.total_cost(), 1);
    }
    {
        let t = worker.token(1);
        assert_eq!(t.surface(), "言語処理");
        assert_eq!(t.range_char(), 2..6);
        assert_eq!(t.range_byte(), 6..18);
        assert_eq!(t.feature(), "gengoshori");
        assert_eq!(t.total_cost(), 6);
    }
}

#[test]
fn test_tokenize_2() {
    let dict = build("DEFAULT 0 1 0");

    let tokenizer = Tokenizer::new(dict);
    let mut worker = tokenizer.new_worker();
    worker.reset_sentence("自然日本語処理").unwrap();
    worker.tokenize();
    assert_eq!(worker.num_tokens(), 2);

    {
        let t = worker.token(0);
        assert_eq!(t.surface(), "自然");
        assert_eq!(t.range_char(), 0..2);
        assert_eq!(t.range_byte(), 0..6);
        assert_eq!(t.feature(), "sizen");
        assert_eq!(t.total_cost(), 1);
    }
    {
        let t = worker.token(1);
        assert_eq!(t.surface(), "日本語処理");
        assert_eq!(t.range_char(), 2..7);
        assert_eq!(t.range_byte(), 6..21);
        assert_eq!(t.feature(), "*");
        assert_eq!(t.total_cost(), 101);
    }
}

#[test]
fn test_tokenize_3() {
    let dict = build("DEFAULT 0 0 3");

    let tokenizer = Tokenizer::new(dict);
    let mut worker = tokenizer.new_worker();
    worker.reset_sentence("不自然言語処理").unwrap();
    worker.tokenize();
    assert_eq!(worker.num_tokens(), 2);

    {
        let t = worker.token(0);
        assert_eq!(t.surface(), "不自然");
        assert_eq!(t.range_char(), 0..3);
        assert_eq!(t.range_byte(), 0..9);
        assert_eq!(t.feature(), "*");
        assert_eq!(t.total_cost(), 100);
    }
    {
        let t = worker.token(1);
        assert_eq!(t.surface(), "言語処理");
        assert_eq!(t.range_char(), 3..7);
        assert_eq!(t.range_byte(), 9..21);
        assert_eq!(t.feature(), "gengoshori");
        assert_eq!(t.total_cost(), 105);
    }
}

#[test]
fn tokenizer_test_tokenize_empty() {
    let dict = build("DEFAULT 0 0 3");

    let tokenizer = Tokenizer::new(dict);
    let mut worker = tokenizer.new_worker();
    worker.reset_sentence("").unwrap();
    worker.tokenize();
    assert_eq!(worker.num_tokens(), 0);
}

const SPACE_CHAR_DEF: &str = "DEFAULT 0 1 0\nSPACE 0 1 0\n0x0020 SPACE";

#[test]
fn tokens_skip_spaces_when_asked() {
    let tokenizer = Tokenizer::new(build(SPACE_CHAR_DEF)).ignore_space(true).unwrap();
    let mut worker = tokenizer.new_worker();
    worker.reset_sentence("  自然  言語処理  ").unwrap();
    worker.tokenize();
    assert_eq!(worker.num_tokens(), 2);
    let t = worker.token(0);
    assert_eq!(t.surface(), "自然");
    assert_eq!(t.range_char(), 2..4);
    assert_eq!(t.range_byte(), 2..8);
    let t = worker.token(1);
    assert_eq!(t.surface(), "言語処理");
    assert_eq!(t.range_char(), 6..10);
    assert_eq!(t.range_byte(), 10..22);
    assert_eq!(t.total_cost(), 6);
}

#[test]
fn spaces_are_tokens_by_default() {
    let unk_def = "DEFAULT,0,0,100,*\nSPACE,0,0,50,空白";
    let tokenizer = Tokenizer::new(build_with_unk(SPACE_CHAR_DEF, unk_def));
    let mut worker = tokenizer.new_worker();
    worker.reset_sentence("自然 言語").unwrap();
    worker.tokenize();
    assert_eq!(worker.token(1).feature(), "空白");
    assert_eq!(worker.token(2).total_cost(), 1 + 50 + 4);
    let surfaces: Vec<String> = (0..worker.num_tokens()).map(|i| worker.token(i).surface()).collect();
    assert_eq!(surfaces, vec!["自然", " ", "言語"]);
    // The tokens cover the sentence, one after another.
    let mut pos = 0;
    for i in 0..worker.num_tokens() {
        let r = worker.token(i).range_char();
        assert_eq!(r.start, pos);
        pos = r.end;
    }
    assert_eq!(pos, 5);
}

#[test]
fn no_tokens_without_a_path() {
    // The space has no unknown-word entry, so no path reaches the end.
    let tokenizer = Tokenizer::new(build(SPACE_CHAR_DEF));
    let mut worker = tokenizer.new_worker();
    worker.reset_sentence("自然 言語").unwrap();
    worker.tokenize();
    assert_eq!(worker.num_tokens(), 0);
}

#[test]
fn ignore_space_needs_the_category() {
    let result = Tokenizer::new(build("DEFAULT 0 1 0")).ignore_space(true);
    assert!(result.is_err());
    assert!(Tokenizer::new(build("DEFAULT 0 1 0")).ignore_space(false).is_ok());
}

#[test]
fn max_grouping_len_limits_unknown_words() {
    // Unknown words are grouped unless the run is longer than the limit.
    let dict = build("DEFAULT 0 1 0");
    let tokenizer = Tokenizer::new(dict).max_grouping_len(1);
    let mut worker = tokenizer.new_worker();
    worker.reset_sentence("日本語").unwrap();
    worker.tokenize();
    assert_eq!(worker.num_tokens(), 2);
    assert_eq!(worker.token(0).surface(), "日");
    assert_eq!(worker.token(1).surface(), "本語");
    assert_eq!(worker.token(1).total_cost(), 200);

    let tokenizer = Tokenizer::new(build("DEFAULT 0 1 0")).max_grouping_len(0);
    let mut worker = tokenizer.new_worker();
    worker.reset_sentence("日本語").unwrap();
    worker.tokenize();
    assert_eq!(worker.num_tokens(), 1);
    assert_eq!(worker.token(0).surface(), "日本語");
    assert_eq!(worker.token(0).total_cost(), 100);
}

#[test]
fn token_word_details() {
    let tokenizer = Tokenizer::new(build("DEFAULT 0 1 0"));
    let mut worker = tokenizer.new_worker();
    worker.reset_sentence("言語").unwrap();
    worker.tokenize();
    assert_eq!(worker.num_tokens(), 1);
    let t = worker.token(0);
    assert_eq!(t.lex_type(), vibrato::dictionary::LexType::System);
    assert_eq!(t.left_id(), 0);
    assert_eq!(t.right_id(), 0);
    assert_eq!(t.word_cost(), 4);
    assert_eq!(t.total_cost(), 4);
}

#[test]
fn reset_sentence_rejects_long_input() {
    let tokenizer = Tokenizer::new(build("DEFAULT 0 1 0"));
    let mut worker = tokenizer.new_worker();
    let long: String = std::iter::repeat('a').take(0x10000).collect();
    assert!(worker.reset_sentence(&long).is_err());
    worker.tokenize();
    assert_eq!(worker.num_tokens(), 0);
    let fits: String = std::iter::repeat('a').take(0xFFFF).collect();
    assert!(worker.reset_sentence(&fits).is_ok());
}

#[test]
fn tokenize_again_after_reset() {
    let tokenizer = Tokenizer::new(build("DEFAULT 0 1 0"));
    let mut worker = tokenizer.new_worker();
    worker.reset_sentence("自然言語処理").unwrap();
    worker.tokenize();
    assert_eq!(worker.num_tokens(), 2);
    worker.reset_sentence("処理").unwrap();
    worker.tokenize();
    assert_eq!(worker.num_tokens(), 1);
    assert_eq!(worker.token(0).feature(), "shori");
}

#[test]
fn connid_counts_cover_the_lattice_edges() {
    let tokenizer = Tokenizer::new(build("DEFAULT 0 1 0"));
    let mut worker = tokenizer.new_worker();
    worker.init_connid_counter();
    worker.reset_sentence("自然言語処理").unwrap();
    worker.tokenize();
    worker.update_connid_counts();
    // Six edges between words (BOS-自然, BOS-自然言語, 自然-言語, 自然-言語処理,
    // 自然言語-処理, 言語-処理) and two into EOS.
    let counter = worker.connid_counter().unwrap();
    assert_eq!(counter.lid_count(), &[8]);
    assert_eq!(counter.rid_count(), &[8]);
    worker.update_connid_counts();
    assert_eq!(worker.connid_counter().unwrap().lid_count(), &[16]);
}

use vibrato::dictionary::LexType;
use vibrato::dictionary::word_idx::WordIdx;
use vibrato::trainer::config::TrainerConfig;
use vibrato::trainer::corpus::Corpus;
use vibrato::trainer::{build_lattice, collect_feature_sets};

const LEX: &str = "自然,0,0,1,名詞,シゼン\n言語,0,0,4,名詞,ゲンゴ\n自然言語,0,0,6,名詞,シゼンゲンゴ\n";
const CHAR_DEF: &str = "DEFAULT 0 1 0";
const UNK_DEF: &str = "DEFAULT,0,0,100,*";
const FEATURE_DEF: &str = "UNIGRAM uni:%F[0]\nBIGRAM bi:%L[1]/%R[1]\n";

fn config(rewrite_def: &str) -> TrainerConfig {
    TrainerConfig::from_readers(
        LEX.as_bytes(),
        CHAR_DEF.as_bytes(),
        UNK_DEF.as_bytes(),
        FEATURE_DEF.as_bytes(),
        rewrite_def.as_bytes(),
    )
    .unwrap()
}

fn edges(lattice: &rucrf::Lattice) -> Vec<Vec<(usize, u32)>> {
    lattice
        .nodes()
        .iter()
        .map(|n| n.edges().iter().map(|e| (e.target(), e.label().get())).collect())
        .collect()
}

#[test]
fn feature_sets_and_labels_of_the_dictionary() {
    let mut config = config("");
    assert!(config.rewriters_ok());
    let (provider, labels) = collect_feature_sets(&mut config).unwrap();
    // Three lexicon words and one unknown-word entry.
    assert_eq!(4, provider.len());
    assert_eq!(Some(1), labels.get("名詞,シゼン", '自'));
    assert_eq!(Some(2), labels.get("名詞,ゲンゴ", '言'));
    assert_eq!(Some(3), labels.get("名詞,シゼンゲンゴ", '自'));
    assert_eq!(None, labels.get("名詞,シゼン", '言'));
    let _ = WordIdx::new(LexType::System, 0);
}

#[test]
fn lattice_of_an_example() {
    let mut config = config("");
    let (provider, labels) = collect_feature_sets(&mut config).unwrap();
    let corpus = "自然\t名詞,シゼン\n言語\t名詞,ゲンゴ\nEOS\n";
    let mut corpus = Corpus::from_reader(corpus.as_bytes()).unwrap();
    let example = &mut corpus.examples[0];
    example.sentence.compile(config.dict().char_prop()).unwrap();
    let lattice = build_lattice(&config, provider.len(), &labels, None, example);
    assert_eq!(
        vec![
            // The positive edge first; the lexicon word equal to it is skipped.
            vec![(2, 1), (4, 3)],
            // An unknown word grouping the rest.
            vec![(4, 4)],
            vec![(4, 2)],
            vec![(4, 4)],
            vec![],
        ],
        edges(&lattice)
    );
}

#[test]
fn virtual_and_unknown_positive_labels() {
    let mut config = config("");
    let (provider, labels) = collect_feature_sets(&mut config).unwrap();
    // A feature that no lexicon word has: the unknown-word entry `*` is
    // compatible with it, so its label is that of the entry.
    let corpus = "自然\t動詞,シゼン\n言語\t名詞,ゲンゴ\nEOS\n";
    let mut corpus = Corpus::from_reader(corpus.as_bytes()).unwrap();
    let example = &mut corpus.examples[0];
    example.sentence.compile(config.dict().char_prop()).unwrap();
    let lattice = build_lattice(&config, provider.len(), &labels, None, example);
    let e = edges(&lattice);
    assert_eq!((2, 4), e[0][0]);
    assert_eq!((4, 2), e[2][0]);
}

#[test]
fn bad_references_are_found() {
    let config = config("[unigram rewrite]\na,b $3\n");
    assert!(!config.rewriters_ok());
}

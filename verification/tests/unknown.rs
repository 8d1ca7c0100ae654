use vibrato::dictionary::character::CharProperty;
use vibrato::dictionary::unknown::{UnkEntry, UnkHandler};
use vibrato::sentence::Sentence;

const CHAR_DEF: &str = "\
DEFAULT 0 1 0
ALPHA   1 1 6
NUMERIC 1 1 0
0x0030..0x0039 NUMERIC
0x0041..0x005A ALPHA NUMERIC
0x0061..0x007A ALPHA NUMERIC";
const UNK_DEF: &str = "\
DEFAULT,0,0,0,補助記号,*
ALPHA,0,0,0,名詞,*,変数
ALPHA,0,0,0,動詞,*
NUMERIC,0,0,0,数字";

fn setup() -> (CharProperty, UnkHandler, Sentence) {
    let prop = CharProperty::from_reader(CHAR_DEF.as_bytes()).unwrap();
    let unk = UnkHandler::from_reader(UNK_DEF.as_bytes(), &prop).unwrap();
    let mut sent = Sentence::new();
    sent.set_sentence("変数var42を書き換えます");
    sent.compile(&prop).unwrap();
    (prop, unk, sent)
}

#[test]
fn test_compatible_unk_entry_1() {
    let (_prop, unk, sent) = setup();
    let unk_index = unk
        .compatible_unk_index(&sent, 2, 7, "名詞,一般,変数,バーヨンジューニ")
        .unwrap();
    assert_eq!(unk.word_feature(unk_index), "名詞,*,変数");
}

#[test]
fn test_compatible_unk_entry_2() {
    let (_prop, unk, sent) = setup();
    let unk_index = unk
        .compatible_unk_index(&sent, 2, 7, "動詞,一般,変数,バーヨンジューニ")
        .unwrap();
    assert_eq!(unk.word_feature(unk_index), "動詞,*");
}

#[test]
fn test_compatible_unk_entry_3() {
    let (_prop, unk, sent) = setup();
    let unk_index = unk
        .compatible_unk_index(&sent, 5, 7, "数字,一般,変数末尾,ヨンジューニ")
        .unwrap();
    assert_eq!(unk.word_feature(unk_index), "数字");
}

#[test]
fn test_compatible_unk_entry_undefined_1() {
    let (_prop, unk, sent) = setup();
    assert!(unk.compatible_unk_index(&sent, 2, 7, "形容詞").is_none());
}

#[test]
fn test_compatible_unk_entry_undefined_2() {
    let (_prop, unk, sent) = setup();
    assert!(unk
        .compatible_unk_index(&sent, 5, 7, "名詞,一般,変数,バーヨンジューニ")
        .is_none());
}

fn check_basic(unk: &UnkHandler) {
    assert_eq!(
        unk.offsets(),
        &[
            0, //DEFAULT = 0
            1, 1, // ALPHA = 2
            3,
        ]
    );
    assert_eq!(
        unk.entries(),
        &[
            UnkEntry {
                cate_id: 0,
                left_id: 0,
                right_id: 2,
                word_cost: 1,
                feature: "補助記号".to_string(),
            },
            UnkEntry {
                cate_id: 2,
                left_id: 1,
                right_id: 0,
                word_cost: -4,
                feature: "名詞".to_string(),
            },
            UnkEntry {
                cate_id: 2,
                left_id: 2,
                right_id: 2,
                word_cost: 3,
                feature: "Meishi".to_string(),
            }
        ]
    );
}

#[test]
fn test_from_reader_basic() {
    let char_def = "DEFAULT 0 1 0\nSPACE 0 1 0\nALPHA 1 1 0";
    let unk_def = "DEFAULT,0,2,1,補助記号\nALPHA,1,0,-4,名詞\nALPHA,2,2,3,Meishi";
    let prop = CharProperty::from_reader(char_def.as_bytes()).unwrap();
    let unk = UnkHandler::from_reader(unk_def.as_bytes(), &prop).unwrap();
    check_basic(&unk);
}

#[test]
fn unknown_test_from_reader_few_cols() {
    let char_def = "DEFAULT 0 1 0";
    let unk_def = "DEFAULT,0,2";
    let prop = CharProperty::from_reader(char_def.as_bytes()).unwrap();
    let result = UnkHandler::from_reader(unk_def.as_bytes(), &prop);
    assert!(result.is_err());
}

#[test]
fn test_from_reader_invalid_cate() {
    let char_def = "DEFAULT 0 1 0";
    let unk_def = "INVALID,0,2,1,補助記号";
    let prop = CharProperty::from_reader(char_def.as_bytes()).unwrap();
    let result = UnkHandler::from_reader(unk_def.as_bytes(), &prop);
    assert!(result.is_err());
}

#[test]
fn builder_test_basic() {
    let char_def = "DEFAULT 0 1 0\nSPACE 0 1 0\nALPHA 1 1 0";
    let unk_def = "DEFAULT,0,2,1,補助記号\nALPHA,1,0,-4,名詞\nALPHA,2,2,3,Meishi";
    let prop = CharProperty::from_reader(char_def.as_bytes()).unwrap();
    let unk = UnkHandler::from_reader(unk_def.as_bytes(), &prop).unwrap();
    check_basic(&unk);
}

#[test]
fn builder_test_few_cols() {
    let char_def = "DEFAULT 0 1 0";
    let unk_def = "DEFAULT,0,2";
    let prop = CharProperty::from_reader(char_def.as_bytes()).unwrap();
    let result = UnkHandler::from_reader(unk_def.as_bytes(), &prop);
    assert!(result.is_err());
}

#[test]
fn builder_test_invalid_cate() {
    let char_def = "DEFAULT 0 1 0";
    let unk_def = "INVALID,0,2,1,補助記号";
    let prop = CharProperty::from_reader(char_def.as_bytes()).unwrap();
    let result = UnkHandler::from_reader(unk_def.as_bytes(), &prop);
    assert!(result.is_err());
}

#[test]
fn gen_unk_words_groups_and_lengths() {
    let (_prop, unk, sent) = setup();
    // "var42": ALPHA|NUMERIC, grouped, length 6; run of 5 groupable characters.
    let words = unk.gen_unk_words(&sent, 2, false, None);
    let spans: Vec<(usize, usize)> = words.iter().map(|w| (w.start_char(), w.end_char())).collect();
    // Grouped span 2..7 first (two ALPHA entries), then lengths 1..=4 (5 is the grouped one).
    assert_eq!(
        spans,
        vec![(2, 7), (2, 7), (2, 3), (2, 3), (2, 4), (2, 4), (2, 5), (2, 5), (2, 6), (2, 6)]
    );
    assert_eq!(words[0].word_idx().word_id, 1);
    assert_eq!(words[1].word_idx().word_id, 2);
    // Nothing when a word matched and the category does not invoke.
    let words = unk.gen_unk_words(&sent, 0, true, None);
    assert!(words.is_empty());
    // DEFAULT groups: the run of two kanji gives one span.
    let words = unk.gen_unk_words(&sent, 0, false, None);
    assert_eq!(words.len(), 1);
    assert_eq!((words[0].start_char(), words[0].end_char()), (0, 2));
    // A grouping limit below the run drops the grouped span.
    let words = unk.gen_unk_words(&sent, 2, false, Some(2));
    assert_eq!((words[0].start_char(), words[0].end_char()), (2, 3));
    // Without grouping and with length 0, the one-character span.
    let words = unk.gen_unk_words(&sent, 0, false, Some(0));
    assert_eq!(words.len(), 1);
    assert_eq!((words[0].start_char(), words[0].end_char()), (0, 1));
}

#[test]
fn unk_words_take_the_category_of_their_first_character() {
    let (_prop, unk, sent) = setup();
    for start in 0..sent.len_char() {
        let base = sent.char_info(start).base_id();
        for w in unk.gen_unk_words(&sent, start, false, None) {
            assert_eq!(w.start_char(), start);
            assert_eq!(u32::from(unk.word_cate_id(w.word_idx())), base);
        }
    }
}

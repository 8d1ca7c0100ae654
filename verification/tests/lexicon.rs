use vibrato::dictionary::lexicon::param::WordParam;
use vibrato::dictionary::lexicon::Lexicon;
use vibrato::dictionary::word_idx::WordIdx;
use vibrato::dictionary::LexType;

#[test]
fn lexicon_prefix_matches() {
    let lex_csv = "東京,1,2,3,名詞,固有\n東京都,4,5,6,名詞\n東京,7,8,9,動詞\n京都,10,11,12,\"a,b\"\n";
    let lex = Lexicon::from_reader(lex_csv.as_bytes(), LexType::System).unwrap();
    let input: Vec<char> = "東京都に".chars().collect();
    let m = lex.common_prefix_iterator(&input);
    let got: Vec<(u32, usize, u16)> = m.iter().map(|x| (x.word_idx.word_id, x.end_char, x.word_param.left_id)).collect();
    assert_eq!(got, vec![(0, 2, 1), (2, 2, 7), (1, 3, 4)]);
    assert_eq!(lex.word_feature(WordIdx::new(LexType::System, 0)), "名詞,固有");
    assert_eq!(lex.word_feature(WordIdx::new(LexType::System, 3)), "\"a,b\"");
    assert_eq!(lex.word_param(WordIdx::new(LexType::System, 1)), WordParam::new(4, 5, 6));
    let input: Vec<char> = "京".chars().collect();
    assert!(lex.common_prefix_iterator(&input).is_empty());
}

#[test]
fn lexicon_errors() {
    assert!(Lexicon::from_reader("東京,1,2\n".as_bytes(), LexType::System).is_err());
    assert!(Lexicon::from_reader("東京,x,2,3,a\n".as_bytes(), LexType::System).is_err());
    assert!(Lexicon::from_reader("東京,1,2,40000,a\n".as_bytes(), LexType::System).is_err());
}

#[test]
fn lexicon_skips_empty_surface() {
    let lex = Lexicon::from_reader(",1,2,3,a\nx,1,2,3,b\n".as_bytes(), LexType::User).unwrap();
    let input: Vec<char> = "x".chars().collect();
    let m = lex.common_prefix_iterator(&input);
    assert_eq!(m.len(), 1);
    assert_eq!(m[0].word_idx.word_id, 0);
    assert_eq!(m[0].word_idx.lex_type, LexType::User);
}

use vibrato::dictionary::lexicon::{LexMatch, RawWordEntry};
use vibrato::utils::parse_csv_row;

fn entry(surface: &str, param: WordParam) -> RawWordEntry<'static> {
    RawWordEntry { surface: surface.to_string(), param, feature: "" }
}

#[test]
fn test_common_prefix_iterator() {
    let entries = vec![
        entry("東京", WordParam::new(1, 2, 3)),
        entry("東京都", WordParam::new(4, 5, 6)),
        entry("東京", WordParam::new(7, 8, 9)),
        entry("京都", WordParam::new(10, 11, 12)),
    ];
    let lexicon = Lexicon::from_entries(&entries, LexType::System).unwrap();
    let input: Vec<_> = "東京都".chars().collect();
    let mut it = lexicon.common_prefix_iterator(&input).into_iter();
    assert_eq!(
        it.next().unwrap(),
        LexMatch {
            end_char: 2,
            word_idx: WordIdx::new(LexType::System, 0),
            word_param: WordParam::new(1, 2, 3),
        }
    );
    assert_eq!(
        it.next().unwrap(),
        LexMatch {
            end_char: 2,
            word_idx: WordIdx::new(LexType::System, 2),
            word_param: WordParam::new(7, 8, 9),
        }
    );
    assert_eq!(
        it.next().unwrap(),
        LexMatch {
            end_char: 3,
            word_idx: WordIdx::new(LexType::System, 1),
            word_param: WordParam::new(4, 5, 6),
        }
    );
    assert_eq!(it.next(), None);
}

fn check_two_words(lex: &Lexicon, lex_type: LexType) {
    assert_eq!(lex.word_param(WordIdx::new(lex_type, 0)), WordParam::new(0, 2, 1));
    assert_eq!(lex.word_param(WordIdx::new(lex_type, 1)), WordParam::new(1, 0, -4));
    assert_eq!(lex.word_feature(WordIdx::new(lex_type, 0)), "sizen");
    assert_eq!(lex.word_feature(WordIdx::new(lex_type, 1)), "gengo,げんご");
    assert_eq!(lex.lex_type(), lex_type);
}

#[test]
fn test_from_reader_system() {
    let data = "自然,0,2,1,sizen\n言語,1,0,-4,gengo,げんご";
    let lex = Lexicon::from_reader(data.as_bytes(), LexType::System).unwrap();
    check_two_words(&lex, LexType::System);
}

#[test]
fn test_from_reader_user() {
    let data = "自然,0,2,1,sizen\n言語,1,0,-4,gengo,げんご";
    let lex = Lexicon::from_reader(data.as_bytes(), LexType::User).unwrap();
    check_two_words(&lex, LexType::User);
}

#[test]
fn test_system() {
    let data = "自然,0,2,1,sizen\n言語,1,0,-4,gengo,げんご";
    let lex = Lexicon::from_reader(data.as_bytes(), LexType::System).unwrap();
    check_two_words(&lex, LexType::System);
}

#[test]
fn test_user() {
    let data = "自然,0,2,1,sizen\n言語,1,0,-4,gengo,げんご";
    let lex = Lexicon::from_reader(data.as_bytes(), LexType::User).unwrap();
    check_two_words(&lex, LexType::User);
}

#[test]
fn test_parse_csv_empty_surface() {
    let data = "自然,0,2,1,sizen\n,1,0,-4,gengo,げんご";
    let result = Lexicon::parse_csv(data.as_bytes(), "test").unwrap();
    assert_eq!(result.len(), 1);
}

#[test]
fn lexicon_test_from_reader_few_cols() {
    let data = "自然,0,2";
    let result = Lexicon::from_reader(data.as_bytes(), LexType::System);
    assert!(result.is_err());
}

#[test]
fn test_from_reader_invalid_left_id() {
    let data = "自然,-2,2,1,a";
    let result = Lexicon::from_reader(data.as_bytes(), LexType::System);
    assert!(result.is_err());
}

#[test]
fn test_from_reader_invalid_right_id() {
    let data = "自然,2,-2,1,a";
    let result = Lexicon::from_reader(data.as_bytes(), LexType::System);
    assert!(result.is_err());
}

#[test]
fn test_from_reader_invalid_cost() {
    let data = "自然,2,1,コスト,a";
    let result = Lexicon::from_reader(data.as_bytes(), LexType::System);
    assert!(result.is_err());
}

#[test]
fn test_invalid_left_id() {
    let data = "自然,-2,2,1,a";
    let lex = Lexicon::from_reader(data.as_bytes(), LexType::System);
    assert!(lex.is_err());
}

#[test]
fn test_invalid_right_id() {
    let data = "自然,2,-2,1,a";
    let lex = Lexicon::from_reader(data.as_bytes(), LexType::System);
    assert!(lex.is_err());
}

#[test]
fn test_invalid_cost() {
    let data = "自然,2,1,コスト,a";
    let lex = Lexicon::from_reader(data.as_bytes(), LexType::System);
    assert!(lex.is_err());
}

fn row(s: &str) -> Vec<String> {
    let chars: Vec<char> = s.chars().collect();
    parse_csv_row(&chars).unwrap().into_iter().map(|f| f.into_iter().collect()).collect()
}

#[test]
fn test_parse_csv_row() {
    assert_eq!(&["名詞", "トスカーナ"], row("名詞,トスカーナ").as_slice());
}

#[test]
fn test_parse_csv_row_with_quote() {
    assert_eq!(&["名詞", "1,2-ジクロロエタン"], row("名詞,\"1,2-ジクロロエタン\"").as_slice());
}

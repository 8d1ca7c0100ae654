use vibrato::errors::VibratoError;
use vibrato::trainer::config::parse_feature_config;
use vibrato::trainer::feature_extractor::FeatureExtractor;
use vibrato::utils::IdMap;

fn prepare_extractor() -> FeatureExtractor {
    let unigram_templates = vec![
        "word:%F[0]",
        "word-pos:%F[0],%F[1]",
        "word-pron:%F[0],%F?[2]",
        "word-pos-pron:%F[0],%F[1],%F?[2]",
        "word-type:%F[0],%t",
    ];
    let bigram_templates = vec![
        ("pos:%L[1]", "pos:%R[1]"),
        ("pron:%L?[2]", "pron:%R?[2]"),
        ("pos-pron:%L[1],%L?[2]", "pos-pron:%R[1],%R?[2]"),
    ];

    FeatureExtractor::new(&unigram_templates, &bigram_templates)
}

fn assert_ids(map: &IdMap, expected: &[(&str, u32)]) {
    assert_eq!(expected.len(), map.len());
    for (k, v) in expected {
        assert_eq!(Some(*v), map.get(k), "{}", k);
    }
}

#[test]
fn feature_extractor_test_unigram_feature_extraction() {
    let mut extractor = prepare_extractor();

    let feature_ids = extractor.extract_unigram_feature_ids(&["人", "名詞", "ヒト"], 3);
    assert_eq!(vec![1, 2, 3, 4, 5], feature_ids);

    let feature_ids = extractor.extract_unigram_feature_ids(&["人", "接尾辞", "ジン"], 3);
    assert_eq!(vec![1, 6, 7, 8, 5], feature_ids);

    assert_ids(
        extractor.unigram_feature_ids(),
        &[
            ("word:人", 1),
            ("word-pos:人,名詞", 2),
            ("word-pron:人,ヒト", 3),
            ("word-pos-pron:人,名詞,ヒト", 4),
            ("word-type:人,3", 5),
            ("word-pos:人,接尾辞", 6),
            ("word-pron:人,ジン", 7),
            ("word-pos-pron:人,接尾辞,ジン", 8),
        ],
    );
}

#[test]
fn feature_extractor_test_unigram_feature_extraction_undefined() {
    let mut extractor = prepare_extractor();

    let feature_ids = extractor.extract_unigram_feature_ids(&["。", "補助記号", "*"], 4);
    assert_eq!(vec![1, 2, 3], feature_ids);

    let feature_ids = extractor.extract_unigram_feature_ids(&["、", "補助記号", "*"], 4);
    assert_eq!(vec![4, 5, 6], feature_ids);

    assert_ids(
        extractor.unigram_feature_ids(),
        &[
            ("word:。", 1),
            ("word-pos:。,補助記号", 2),
            ("word-type:。,4", 3),
            ("word:、", 4),
            ("word-pos:、,補助記号", 5),
            ("word-type:、,4", 6),
        ],
    );
}

#[test]
fn feature_extractor_test_bigram_feature_extraction() {
    let mut extractor = prepare_extractor();

    let left_feature_ids = extractor.extract_left_feature_ids(&["火星", "名詞", "カセイ"]);
    let right_feature_ids = extractor.extract_right_feature_ids(&["人", "接尾辞", "ジン"]);
    assert_eq!(vec![Some(1), Some(2), Some(3)], left_feature_ids);
    assert_eq!(vec![Some(1), Some(2), Some(3)], right_feature_ids);

    let left_feature_ids = extractor.extract_left_feature_ids(&["火星", "名詞", "カセイ"]);
    let right_feature_ids = extractor.extract_right_feature_ids(&["猫", "名詞", "ネコ"]);
    assert_eq!(vec![Some(1), Some(2), Some(3)], left_feature_ids);
    assert_eq!(vec![Some(4), Some(5), Some(6)], right_feature_ids);

    assert_ids(
        extractor.left_feature_ids(),
        &[("pos:名詞", 1), ("pron:カセイ", 2), ("pos-pron:名詞,カセイ", 3)],
    );
    assert_ids(
        extractor.right_feature_ids(),
        &[
            ("pos:接尾辞", 1),
            ("pron:ジン", 2),
            ("pos-pron:接尾辞,ジン", 3),
            ("pos:名詞", 4),
            ("pron:ネコ", 5),
            ("pos-pron:名詞,ネコ", 6),
        ],
    );
}

#[test]
fn feature_extractor_test_bigram_feature_extraction_undefined() {
    let mut extractor = prepare_extractor();

    let left_feature_ids = extractor.extract_left_feature_ids(&["です", "助動詞", "デス"]);
    let right_feature_ids = extractor.extract_right_feature_ids(&["。", "補助記号", "*"]);
    assert_eq!(vec![Some(1), Some(2), Some(3)], left_feature_ids);
    assert_eq!(vec![Some(1), None, None], right_feature_ids);

    let left_feature_ids = extractor.extract_left_feature_ids(&["「", "補助記号", "*"]);
    let right_feature_ids = extractor.extract_right_feature_ids(&["猫", "名詞", "ネコ"]);
    assert_eq!(vec![Some(4), None, None], left_feature_ids);
    assert_eq!(vec![Some(2), Some(3), Some(4)], right_feature_ids);

    assert_ids(
        extractor.left_feature_ids(),
        &[
            ("pos:助動詞", 1),
            ("pron:デス", 2),
            ("pos-pron:助動詞,デス", 3),
            ("pos:補助記号", 4),
        ],
    );
    assert_ids(
        extractor.right_feature_ids(),
        &[
            ("pos:補助記号", 1),
            ("pos:名詞", 2),
            ("pron:ネコ", 3),
            ("pos-pron:名詞,ネコ", 4),
        ],
    );
}

#[test]
fn missing_features_read_as_asterisks() {
    let mut extractor = prepare_extractor();

    extractor.extract_unigram_feature_ids(&["。"], 4);

    assert_ids(
        extractor.unigram_feature_ids(),
        &[("word:。", 1), ("word-pos:。,*", 2), ("word-type:。,4", 3)],
    );
}

#[test]
fn template_syntax_edges() {
    // Text that looks almost like a reference stays as it is; the category is
    // written in decimal.
    let mut extractor = FeatureExtractor::new(
        &["%%F[0]|%F[]|%F?|%x|%F[01]|%t%t", "%L[0]", "plain"],
        &[("%L[1]%R[1]%F[0]", "%R?[0]%t")],
    );
    let ids = extractor.extract_unigram_feature_ids(&["a", "b"], 1234567);
    assert_eq!(vec![1, 2, 3], ids);
    assert_ids(
        extractor.unigram_feature_ids(),
        &[
            ("%a|%F[]|%F?|%x|b|12345671234567", 1),
            ("%L[0]", 2),
            ("plain", 3),
        ],
    );
    assert_eq!(vec![Some(1)], extractor.extract_left_feature_ids(&["x", "y"]));
    assert_eq!(vec![Some(1)], extractor.extract_right_feature_ids(&["x", "y"]));
    assert_eq!(vec![None], extractor.extract_right_feature_ids(&[]));
    assert_ids(extractor.left_feature_ids(), &[("y%R[1]%F[0]", 1)]);
    assert_ids(extractor.right_feature_ids(), &[("x%t", 1)]);
}

#[test]
fn config_test_parse_feature_config() {
    let config = "
            # feature 1
            UNIGRAM uni:%F[0]
            BIGRAM bi:%L[0]/%R[1]

            # feature 2
            UNIGRAM uni:%F[0]/%t
            BIGRAM bi:%L[0],%L[1]/%R[1],%R[0]
        ";
    let mut feature_extractor = parse_feature_config(config.as_bytes()).unwrap();

    // unigram features
    assert_eq!(
        vec![1, 2],
        feature_extractor.extract_unigram_feature_ids(&["a", "b"], 2)
    );
    assert_eq!(
        vec![3, 4],
        feature_extractor.extract_unigram_feature_ids(&["b", "c"], 2)
    );
    assert_eq!(
        vec![1, 2],
        feature_extractor.extract_unigram_feature_ids(&["a", "c"], 2)
    );
    assert_eq!(
        vec![3, 5],
        feature_extractor.extract_unigram_feature_ids(&["b", "c"], 3)
    );

    // left features
    assert_eq!(
        vec![Some(1), Some(2)],
        feature_extractor.extract_left_feature_ids(&["a", "b"])
    );
    assert_eq!(
        vec![Some(3), Some(4)],
        feature_extractor.extract_left_feature_ids(&["b", "c"])
    );
    assert_eq!(
        vec![Some(1), Some(5)],
        feature_extractor.extract_left_feature_ids(&["a", "c"])
    );
    assert_eq!(
        vec![Some(3), Some(4)],
        feature_extractor.extract_left_feature_ids(&["b", "c"])
    );

    // right features
    assert_eq!(
        vec![Some(1), Some(2)],
        feature_extractor.extract_right_feature_ids(&["a", "b"])
    );
    assert_eq!(
        vec![Some(3), Some(4)],
        feature_extractor.extract_right_feature_ids(&["b", "c"])
    );
    assert_eq!(
        vec![Some(3), Some(5)],
        feature_extractor.extract_right_feature_ids(&["a", "c"])
    );
    assert_eq!(
        vec![Some(3), Some(4)],
        feature_extractor.extract_right_feature_ids(&["b", "c"])
    );
}

#[test]
fn feature_config_errors() {
    assert!(matches!(
        parse_feature_config(b"BIGRAM a/b/c\n".as_slice()),
        Err(VibratoError::InvalidFormat(_))
    ));
    assert!(matches!(
        parse_feature_config(b"BIGRAM ab\n".as_slice()),
        Err(VibratoError::InvalidFormat(_))
    ));
    assert!(matches!(
        parse_feature_config(b"TRIGRAM a\n".as_slice()),
        Err(VibratoError::InvalidFormat(_))
    ));
    assert!(matches!(
        parse_feature_config(b"UNIGRAM \xff\n".as_slice()),
        Err(VibratoError::Utf8)
    ));
    assert!(parse_feature_config(b"\n# only a comment\r\n".as_slice()).is_ok());
}

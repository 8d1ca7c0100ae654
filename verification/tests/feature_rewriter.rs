use vibrato::errors::VibratoError;
use vibrato::trainer::config::{parse_rewrite_config, parse_rewrite_rule};
use vibrato::trainer::feature_rewriter::{FeatureRewriter, FeatureRewriterBuilder};

fn sample_rules() -> FeatureRewriterBuilder {
    let mut builder = FeatureRewriterBuilder::new();
    builder
        .add_rule(
            &["*", "(助詞|助動詞)", "*", "(よ|ヨ)"],
            &["$1", "$2", "$3", "よ"],
        )
        .unwrap();
    builder
        .add_rule(
            &["*", "(助詞|助動詞)", "*", "(無い|ない)"],
            &["$1", "$2", "$3", "ない"],
        )
        .unwrap();
    builder
        .add_rule(&["火星", "*", "*", "*"], &["$4", "$3", "$2", "$1"])
        .unwrap();
    builder
}

fn strings(v: &[&str]) -> Vec<String> {
    v.iter().map(|s| s.to_string()).collect()
}

#[test]
fn test_rewrite_match() {
    let rewriter = FeatureRewriter::from(sample_rules());

    assert_eq!(
        Some(vec![
            "よ".to_string(),
            "助詞".to_string(),
            "かな".to_string(),
            "よ".to_string()
        ]),
        rewriter.rewrite(&["よ", "助詞", "かな", "ヨ"]),
    );
    assert_eq!(
        Some(vec![
            "yo".to_string(),
            "助詞".to_string(),
            "ローマ字".to_string(),
            "よ".to_string()
        ]),
        rewriter.rewrite(&["yo", "助詞", "ローマ字", "ヨ"]),
    );
    assert_eq!(
        Some(vec![
            "ない".to_string(),
            "助動詞".to_string(),
            "かな".to_string(),
            "ない".to_string()
        ]),
        rewriter.rewrite(&["ない", "助動詞", "かな", "無い"]),
    );
    assert_eq!(
        Some(vec![
            "かせい".to_string(),
            "漢字".to_string(),
            "名詞".to_string(),
            "火星".to_string()
        ]),
        rewriter.rewrite(&["火星", "名詞", "漢字", "かせい"]),
    );
}

#[test]
fn test_rewrite_fail() {
    let rewriter = FeatureRewriter::from(sample_rules());

    assert_eq!(None, rewriter.rewrite(&["よ", "助詞", "かな", "yo"]),);
    assert_eq!(None, rewriter.rewrite(&["火星", "名詞", "漢字"]),);
    assert_eq!(
        None,
        rewriter.rewrite(&["火星", "名詞", "漢字", "かせい", "A"]),
    );
}

#[test]
fn test_rewrite_match_mostfirst() {
    let rewriter1 = FeatureRewriter::from(sample_rules());

    assert_eq!(
        Some(vec![
            "火星".to_string(),
            "助詞".to_string(),
            "かな".to_string(),
            "よ".to_string()
        ]),
        rewriter1.rewrite(&["火星", "助詞", "かな", "よ"]),
    );

    let mut builder2 = FeatureRewriterBuilder::new();
    builder2
        .add_rule(&["火星", "*", "*", "*"], &["$4", "$3", "$2", "$1"])
        .unwrap();
    builder2
        .add_rule(
            &["*", "(助詞|助動詞)", "*", "(よ|ヨ)"],
            &["$1", "$2", "$3", "よ"],
        )
        .unwrap();
    builder2
        .add_rule(
            &["*", "(助詞|助動詞)", "*", "(無い|ない)"],
            &["$1", "$2", "$3", "ない"],
        )
        .unwrap();
    let rewriter2 = FeatureRewriter::from(builder2);

    assert_eq!(
        Some(vec![
            "よ".to_string(),
            "かな".to_string(),
            "助詞".to_string(),
            "火星".to_string()
        ]),
        rewriter2.rewrite(&["火星", "助詞", "かな", "よ"]),
    );
}

#[test]
fn duplicate_patterns_are_refused() {
    let mut builder = sample_rules();
    let r = builder.add_rule(&["火星", "*", "*", "*"], &["x"]);
    assert!(matches!(r, Err(VibratoError::InvalidArgument(_))));
    // The same set written in another order is the same pattern.
    let r = builder.add_rule(
        &["*", "(助動詞|助詞)", "*", "(ヨ|よ)"],
        &["y"],
    );
    assert!(matches!(r, Err(VibratoError::InvalidArgument(_))));
    // The first rule stays.
    let rewriter = FeatureRewriter::from(builder);
    assert_eq!(
        Some(strings(&["かせい", "漢字", "名詞", "火星"])),
        rewriter.rewrite(&["火星", "名詞", "漢字", "かせい"])
    );
}

#[test]
fn references_and_texts() {
    let mut builder = FeatureRewriterBuilder::new();
    builder
        .add_rule(&["a", "b"], &["$2", "$01", "$", "$1a", "1", "$$2"])
        .unwrap();
    let rewriter = FeatureRewriter::from(builder);
    assert_eq!(
        Some(strings(&["b", "a", "$", "$1a", "1", "$$2"])),
        rewriter.rewrite(&["a", "b"])
    );
    assert_eq!(None, rewriter.rewrite(&["a", "c"]));
    assert_eq!(None, rewriter.rewrite(&["a"]));
}

#[test]
fn empty_pattern_matches_no_features() {
    let mut builder = FeatureRewriterBuilder::new();
    builder.add_rule(&[], &["x"]).unwrap();
    let rewriter = FeatureRewriter::from(builder);
    assert_eq!(Some(strings(&["x"])), rewriter.rewrite(&[]));
    assert_eq!(None, rewriter.rewrite(&["a"]));
}

#[test]
fn earliest_registered_rule_wins() {
    // Both the second and the third rule accept `a,y`; the second was added first.
    let mut builder = FeatureRewriterBuilder::new();
    builder.add_rule(&["a", "x"], &["first"]).unwrap();
    builder.add_rule(&["*", "y"], &["second"]).unwrap();
    builder.add_rule(&["a", "y"], &["third"]).unwrap();
    let rewriter = FeatureRewriter::from(builder);
    assert_eq!(Some(strings(&["second"])), rewriter.rewrite(&["a", "y"]));
    assert_eq!(Some(strings(&["second"])), rewriter.rewrite(&["b", "y"]));
    assert_eq!(Some(strings(&["first"])), rewriter.rewrite(&["a", "x"]));
}

#[test]
fn config_test_parse_rewrite_config() {
    let config = "
            # unigram feature
            [unigram rewrite]
            a,*,*  $1,$2,$3
            *,*,*  $1,$3,$2

            # left feature
            [left rewrite]
            a,*,*  $2,$1,$3
            *,*,*  $2,$3,$1

            # right feature
            [right rewrite]
            a,*,*  $3,$1,$2
            *,*,*  $3,$2,$1
        ";
    let (unigram_rewriter, left_rewriter, right_rewriter) =
        parse_rewrite_config(config.as_bytes()).unwrap();

    // unigram features
    assert_eq!(
        vec!["a", "b", "c"],
        unigram_rewriter.rewrite(&["a", "b", "c"]).unwrap()
    );
    assert_eq!(
        vec!["x", "c", "b"],
        unigram_rewriter.rewrite(&["x", "b", "c"]).unwrap()
    );

    // left features
    assert_eq!(
        vec!["b", "a", "c"],
        left_rewriter.rewrite(&["a", "b", "c"]).unwrap()
    );
    assert_eq!(
        vec!["b", "c", "x"],
        left_rewriter.rewrite(&["x", "b", "c"]).unwrap()
    );

    // right features
    assert_eq!(
        vec!["c", "a", "b"],
        right_rewriter.rewrite(&["a", "b", "c"]).unwrap()
    );
    assert_eq!(
        vec!["c", "b", "x"],
        right_rewriter.rewrite(&["x", "b", "c"]).unwrap()
    );
}

#[test]
fn rewrite_config_errors() {
    let outside = "a,b $1\n[unigram rewrite]\n";
    assert!(matches!(
        parse_rewrite_config(outside.as_bytes()),
        Err(VibratoError::InvalidFormat(_))
    ));
    let three_words = "[left rewrite]\na b c\n";
    assert!(matches!(
        parse_rewrite_config(three_words.as_bytes()),
        Err(VibratoError::InvalidFormat(_))
    ));
    let not_utf8: &[u8] = b"[left rewrite]\n\xff a\n";
    assert!(matches!(
        parse_rewrite_config(not_utf8),
        Err(VibratoError::Utf8)
    ));
}

#[test]
fn rewrite_config_keeps_the_first_of_a_pattern() {
    let config = "[right rewrite]\r\na,b\tfirst\n# a comment\na,b second\n";
    let (u, l, r) = parse_rewrite_config(config.as_bytes()).unwrap();
    assert_eq!(Some(strings(&["first"])), r.rewrite(&["a", "b"]));
    assert_eq!(None, u.rewrite(&["a", "b"]));
    assert_eq!(None, l.rewrite(&["a", "b"]));
}

#[test]
fn rewrite_rule_words() {
    let line: Vec<char> = "a,(b|c)\t \x0c$1,x".chars().collect();
    let (p, w) = parse_rewrite_rule(&line).unwrap();
    let p: Vec<String> = p.iter().map(|c| c.iter().collect()).collect();
    let w: Vec<String> = w.iter().map(|c| c.iter().collect()).collect();
    assert_eq!(strings(&["a", "(b|c)"]), p);
    assert_eq!(strings(&["$1", "x"]), w);
    let one: Vec<char> = "a,b".chars().collect();
    assert!(matches!(
        parse_rewrite_rule(&one),
        Err(VibratoError::InvalidFormat(_))
    ));
    // A no-break space is no ASCII white space.
    let nbsp: Vec<char> = "a\u{a0}b".chars().collect();
    assert!(parse_rewrite_rule(&nbsp).is_err());
}

use vibrato::trainer::corpus::Corpus;

#[test]
fn test_load_corpus() {
    let corpus_data = "\
トスカーナ\t名詞,トスカーナ
地方\t名詞,チホー
に\t助詞,ニ
行く\t動詞,イク
EOS
火星\t名詞,カセー
猫\t名詞,ネコ
EOS
";

    let corpus = Corpus::from_reader(corpus_data.as_bytes()).unwrap();

    assert_eq!(2, corpus.examples.len());

    let sentence1 = &corpus.examples[0];

    assert_eq!("トスカーナ地方に行く", sentence1.sentence.raw());

    assert_eq!(4, sentence1.tokens.len());
    assert_eq!("トスカーナ", sentence1.tokens[0].surface());
    assert_eq!("名詞,トスカーナ", sentence1.tokens[0].feature());
    assert_eq!("地方", sentence1.tokens[1].surface());
    assert_eq!("名詞,チホー", sentence1.tokens[1].feature());
    assert_eq!("に", sentence1.tokens[2].surface());
    assert_eq!("助詞,ニ", sentence1.tokens[2].feature());
    assert_eq!("行く", sentence1.tokens[3].surface());
    assert_eq!("動詞,イク", sentence1.tokens[3].feature());

    let sentence2 = &corpus.examples[1];

    assert_eq!("火星猫", sentence2.sentence.raw());

    assert_eq!(2, sentence2.tokens.len());
    assert_eq!("火星", sentence2.tokens[0].surface());
    assert_eq!("名詞,カセー", sentence2.tokens[0].feature());
    assert_eq!("猫", sentence2.tokens[1].surface());
    assert_eq!("名詞,ネコ", sentence2.tokens[1].feature());
}

#[test]
fn corpus_rejects_bad_lines() {
    assert!(Corpus::from_reader("a\tb\tc\n".as_bytes()).is_err());
    assert!(Corpus::from_reader("EOT\n".as_bytes()).is_err());
    let c = Corpus::from_reader("EOS\nx\ty\n".as_bytes()).unwrap();
    assert_eq!(c.examples.len(), 0);
}

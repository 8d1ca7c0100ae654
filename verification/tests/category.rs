use vibrato::dictionary::character::category::CategorySet;
use vibrato::dictionary::context_id::ContextIds;

#[test]
fn category_sets() {
    let s = CategorySet::from_id(2);
    assert_eq!(s.raw(), 4);
    assert_eq!(s.first_id(), Some(2));
    assert_eq!(s.len(), 1);
    assert_eq!(CategorySet::new().first_id(), None);
    assert_eq!(CategorySet::new().len(), 0);
    let mut it = CategorySet::from_id(10).id_iter();
    assert_eq!(it.next(), Some(10));
    assert_eq!(it.next(), None);
    assert_eq!(CategorySet::cate_str(5), Some("ALPHA".to_string()));
    assert_eq!(CategorySet::cate_str(11), None);
    assert_eq!(CategorySet::from_id(8).cate_strs(), vec!["KANJINUMERIC".to_string()]);
    assert!(CategorySet::new().cate_strs().is_empty());
}

#[test]
fn category_names_parse() {
    assert_eq!(CategorySet::parse("kanji").unwrap(), CategorySet::from_id(2));
    assert_eq!(CategorySet::parse("Cyrillic").unwrap(), CategorySet::from_id(10));
    assert_eq!("space".parse::<CategorySet>().unwrap(), CategorySet::from_id(1));
    assert!(CategorySet::parse("KANA").is_err());
    assert!(CategorySet::parse("").is_err());
}

#[test]
fn context_ids_from_readers() {
    let left = "0 BOS/EOS,*,*\n1 名詞,一般";
    let right = "5 記号\n7 BOS/EOS";
    let ids = ContextIds::from_readers(left.as_bytes(), right.as_bytes()).unwrap();
    assert_eq!(ids.eos_left_id(), 0);
    assert_eq!(ids.bos_right_id(), 7);
    assert!(ContextIds::from_readers("1 名詞".as_bytes(), right.as_bytes()).is_err());
    assert!(ContextIds::from_readers("x BOS/EOS".as_bytes(), right.as_bytes()).is_err());
}

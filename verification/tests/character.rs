use vibrato::dictionary::character::CharProperty;

#[test]
fn character_test_basic() {
    let data = "DEFAULT 0 1 0\nSPACE 0 1 0\n0x0020 SPACE";
    let prop = CharProperty::from_reader(data.as_bytes()).unwrap();
    let info = prop.char_info('\u{0020}');
    assert_eq!(info.cate_idset(), 0b10);
    assert_eq!(info.base_id(), 1);
    assert_eq!(info.invoke(), false);
    assert_eq!(info.group(), true);
    assert_eq!(info.length(), 0);
}

#[test]
fn character_test_invalid_cate() {
    let data = "DEFAULT 0 1 0\n0x0..0xFFFF INVALID";
    let result = CharProperty::from_reader(data.as_bytes());
    assert!(result.is_err());
}

#[test]
fn test_no_default_cate() {
    let data = "USER_DEFINED 0 1 0";
    let result = CharProperty::from_reader(data.as_bytes());
    assert!(result.is_err());
}

#[test]
fn character_test_invalid_invoke() {
    let data = "DEFAULT 2 1 0";
    let result = CharProperty::from_reader(data.as_bytes());
    assert!(result.is_err());
}

#[test]
fn character_test_invalid_group() {
    let data = "DEFAULT 0 2 0";
    let result = CharProperty::from_reader(data.as_bytes());
    assert!(result.is_err());
}

#[test]
fn character_test_invalid_length() {
    let data = "DEFAULT 0 2 -1";
    let result = CharProperty::from_reader(data.as_bytes());
    assert!(result.is_err());
}

#[test]
fn character_test_few_cols() {
    let data = "DEFAULT 0 2";
    let result = CharProperty::from_reader(data.as_bytes());
    assert!(result.is_err());
}

#[test]
fn character_test_char_range_1() {
    let data = "DEFAULT 0 1 0\n0x10000 DEFAULT";
    let result = CharProperty::from_reader(data.as_bytes());
    assert!(result.is_err());
}

#[test]
fn character_test_char_range_2() {
    let data = "DEFAULT 0 1 0\n0x0..0xFFFF DEFAULT";
    CharProperty::from_reader(data.as_bytes()).unwrap();
}

#[test]
fn character_test_char_range_3() {
    let data = "DEFAULT 0 1 0\n0x0..0x10000 DEFAULT";
    let result = CharProperty::from_reader(data.as_bytes());
    assert!(result.is_err());
}

#[test]
fn character_test_char_range_4() {
    let data = "DEFAULT 0 1 0\n0x0020..0x0019 DEFAULT";
    let result = CharProperty::from_reader(data.as_bytes());
    assert!(result.is_err());
}

#[test]
fn builder_test_char_range_2() {
    let data = "DEFAULT 0 1 0\n0x0..0xFFFF DEFAULT";
    CharProperty::from_reader(data.as_bytes()).unwrap();
}

#[test]
fn character_builder_test_basic() {
    let data = "DEFAULT 0 1 0\nSPACE 0 1 0\n0x0020 SPACE";
    let prop = CharProperty::from_reader(data.as_bytes()).unwrap();
    let info = prop.char_info('\u{0020}');
    assert_eq!(info.cate_idset(), 0b10);
    assert_eq!(info.base_id(), 1);
    assert_eq!(info.invoke(), false);
    assert_eq!(info.group(), true);
    assert_eq!(info.length(), 0);
}

#[test]
fn char_info_round_trip() {
    let info = vibrato::dictionary::character::CharInfo::new(0b101, 3, true, false, 7).unwrap();
    assert_eq!(info.cate_idset(), 0b101);
    assert_eq!(info.base_id(), 3);
    assert!(info.invoke());
    assert!(!info.group());
    assert_eq!(info.length(), 7);
    assert!(vibrato::dictionary::character::CharInfo::new(0, 0, false, false, 16).is_none());
}

#[test]
fn char_property_categories() {
    let data = "DEFAULT 0 1 0\nSPACE 0 1 0\nALPHA 1 1 6\n0x0041..0x005A ALPHA";
    let prop = CharProperty::from_reader(data.as_bytes()).unwrap();
    assert_eq!(prop.num_categories(), 3);
    assert_eq!(prop.cate_id("ALPHA"), Some(2));
    assert_eq!(prop.cate_id("KANJI"), None);
    assert_eq!(prop.cate_str(1), Some("SPACE"));
    assert_eq!(prop.cate_str(3), None);
    let a = prop.char_info('B');
    assert_eq!(a.base_id(), 2);
    assert_eq!(a.cate_idset(), 0b100);
    assert!(a.invoke());
    assert_eq!(a.length(), 6);
    let other = prop.char_info('あ');
    assert_eq!(other.base_id(), 0);
}

use vibrato::dictionary::character::CharProperty;
use vibrato::sentence::Sentence;

#[test]
fn test_sentence() {
    let mut sent = Sentence::new();
    sent.set_sentence("自然");
    sent.compute_basic();
    assert_eq!(sent.chars(), &['自', '然']);
    assert_eq!(sent.byte_position(0), 0);
    assert_eq!(sent.byte_position(1), 3);
    assert_eq!(sent.byte_position(2), 6);
}

#[test]
fn sentence_groupable_runs() {
    let prop = CharProperty::from_reader(
        "DEFAULT 0 1 0\nALPHA 1 1 0\nNUMERIC 1 1 0\n0x0030..0x0039 NUMERIC\n0x0061..0x007A ALPHA".as_bytes(),
    )
    .unwrap();
    let mut sent = Sentence::new();
    sent.set_sentence("ab1cあ");
    sent.compile(&prop).unwrap();
    assert_eq!(sent.len_char(), 5);
    assert_eq!(sent.raw(), "ab1cあ");
    assert_eq!(sent.groupable(0), 2);
    assert_eq!(sent.groupable(1), 1);
    assert_eq!(sent.groupable(2), 1);
    assert_eq!(sent.groupable(3), 1);
    assert_eq!(sent.groupable(4), 1);
    assert_eq!(sent.char_info(2).base_id(), 2);
    assert_eq!(sent.byte_position(5), 7);
    sent.clear();
    assert_eq!(sent.raw(), "");
}

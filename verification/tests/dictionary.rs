use vibrato::dictionary::builder::SystemDictionaryBuilder;
use vibrato::utils::FromU32;

#[test]
fn test_oor_lex() {
    let lexicon_csv = "自然,1,1,0";
    let matrix_def = "1 1\n0 0 0";
    let char_def = "DEFAULT 0 1 0";
    let unk_def = "DEFAULT,0,0,100,*";

    let result = SystemDictionaryBuilder::from_readers(
        lexicon_csv.as_bytes(),
        matrix_def.as_bytes(),
        char_def.as_bytes(),
        unk_def.as_bytes(),
    );

    assert!(result.is_err());
}

#[test]
fn test_oor_unk() {
    let lexicon_csv = "自然,0,0,0";
    let matrix_def = "1 1\n0 0 0";
    let char_def = "DEFAULT 0 1 0";
    let unk_def = "DEFAULT,1,1,100,*";

    let result = SystemDictionaryBuilder::from_readers(
        lexicon_csv.as_bytes(),
        matrix_def.as_bytes(),
        char_def.as_bytes(),
        unk_def.as_bytes(),
    );

    assert!(result.is_err());
}

#[test]
fn builder_accepts_ids_within_the_matrix() {
    let result = SystemDictionaryBuilder::from_readers(
        "自然,1,0,0,名詞".as_bytes(),
        "2 2\n0 0 0\n0 1 1\n1 0 2\n1 1 3".as_bytes(),
        "DEFAULT 0 1 0".as_bytes(),
        "DEFAULT,1,1,100,*".as_bytes(),
    );
    assert!(result.is_ok());
}

#[test]
fn from_u32_is_lossless() {
    assert_eq!(usize::from_u32(7), 7);
    assert_eq!(usize::from_u32(u32::MAX), u32::MAX as usize);
}

use vibrato::errors::VibratoError;
use vibrato::trainer::config::TrainerConfig;

const LEX: &str = "自然,0,0,1,名詞,シゼン\n言語,0,0,4,名詞,ゲンゴ\n";
const CHAR_DEF: &str = "DEFAULT 0 1 0";
const UNK_DEF: &str = "DEFAULT,0,0,100,*";
const FEATURE_DEF: &str = "UNIGRAM uni:%F[0]\nBIGRAM bi:%L[0]/%R[0]\n";
const REWRITE_DEF: &str = "[unigram rewrite]\n*,* $1,$2\n";

#[test]
fn trainer_config_from_readers() {
    let config = TrainerConfig::from_readers(
        LEX.as_bytes(),
        CHAR_DEF.as_bytes(),
        UNK_DEF.as_bytes(),
        FEATURE_DEF.as_bytes(),
        REWRITE_DEF.as_bytes(),
    );
    assert!(config.is_ok());
}

#[test]
fn trainer_config_errors_in_order() {
    // feature.def is read first, then rewrite.def.
    let r = TrainerConfig::from_readers(
        LEX.as_bytes(),
        CHAR_DEF.as_bytes(),
        UNK_DEF.as_bytes(),
        b"UNIGRAM \xff".as_slice(),
        b"a b".as_slice(),
    );
    assert!(matches!(r, Err(VibratoError::Utf8)));
    let r = TrainerConfig::from_readers(
        LEX.as_bytes(),
        CHAR_DEF.as_bytes(),
        UNK_DEF.as_bytes(),
        FEATURE_DEF.as_bytes(),
        b"a b".as_slice(),
    );
    assert!(matches!(r, Err(VibratoError::InvalidFormat(_))));
    let r = TrainerConfig::from_readers(
        LEX.as_bytes(),
        b"NOSUCH 0 1 0".as_slice(),
        UNK_DEF.as_bytes(),
        FEATURE_DEF.as_bytes(),
        REWRITE_DEF.as_bytes(),
    );
    assert!(r.is_err());
    let r = TrainerConfig::from_readers(
        b"".as_slice(),
        CHAR_DEF.as_bytes(),
        UNK_DEF.as_bytes(),
        FEATURE_DEF.as_bytes(),
        REWRITE_DEF.as_bytes(),
    );
    assert!(r.is_err());
}

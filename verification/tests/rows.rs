use text_signals::error::ConfigError;
use text_signals::minhash::{minhash, MinHashEngine};
use text_signals::repetition::{repetition_output, repetition_signals, Ratio, RepetitionEngine};

const SEED: [u8; 32] = [7; 32];

#[test]
fn absent_rows_are_invalid_and_empty_rows_are_valid() {
    let rows = vec![Some("a b a b".to_string()), None, Some("".to_string())];
    let out = repetition_signals(&rows, r"\s+", 1, 2).unwrap();
    assert_eq!(out.validity, vec![true, false, true]);
    assert_eq!(out.columns.len(), 2);
    assert_eq!(
        out.columns[0],
        vec![Ratio { num: 2, den: 4 }, Ratio { num: 0, den: 1 }, Ratio { num: 0, den: 1 }]
    );
    assert_eq!(
        out.columns[1],
        vec![Ratio { num: 2, den: 4 }, Ratio { num: 0, den: 1 }, Ratio { num: 0, den: 1 }]
    );
    // As floating-point ratios the empty row is all zero, and valid.
    for column in &out.columns {
        let r = &column[2];
        assert_eq!(((r.num as f64) / (r.den as f64)) as f32, 0.0f32);
    }
}

#[test]
fn columns_agree_with_single_documents() {
    let texts = ["x y x y x", "one", "p q r p q r p q r"];
    let rows: Vec<Option<String>> = texts.iter().map(|t| Some(t.to_string())).collect();
    let engine = RepetitionEngine::new(r"\s+", 2, 4).unwrap();
    let out = engine.signal_columns(&rows);
    for (r, text) in texts.iter().enumerate() {
        let counts = engine.signals(text);
        for n in 0..4 {
            assert_eq!(out.columns[n][r].num, counts.covered[n]);
            assert_eq!(out.columns[n][r].den, counts.denominator());
        }
    }
}

#[test]
fn no_rows_give_empty_columns() {
    let out = repetition_signals(&vec![], r"\s+", 1, 3).unwrap();
    assert!(out.validity.is_empty());
    assert_eq!(out.columns, vec![Vec::<Ratio>::new(); 3]);
}

#[test]
fn refused_configuration_fails_the_whole_batch() {
    let rows = vec![Some("a b".to_string())];
    assert!(matches!(
        repetition_signals(&rows, r"\s+", 5, 4),
        Err(ConfigError::TopExceedsDup { num_top: 5, num_dup: 4 })
    ));
    assert!(matches!(
        repetition_signals(&rows, "[", 1, 4),
        Err(ConfigError::InvalidPattern { .. })
    ));
    assert!(matches!(
        minhash(&rows, r"\w+", SEED, 0, 1, 1),
        Err(ConfigError::NonPositiveParameter)
    ));
    assert!(matches!(
        minhash(&rows, "[", SEED, 1, 1, 1),
        Err(ConfigError::InvalidPattern { .. })
    ));
}

#[test]
fn repetition_output_names_the_fields_or_refuses() {
    assert_eq!(
        repetition_output(1, 3).unwrap(),
        vec!["top_1_gram_char_ratio", "dup_2_gram_char_ratio", "dup_3_gram_char_ratio"]
    );
    assert!(repetition_output(0, 0).unwrap().is_empty());
    assert!(matches!(
        repetition_output(2, 1),
        Err(ConfigError::TopExceedsDup { num_top: 2, num_dup: 1 })
    ));
}

#[test]
fn minhash_rows_keep_absent_rows_absent() {
    let rows = vec![Some("a b c".to_string()), None, Some("".to_string())];
    let prints = minhash(&rows, r"\w+", SEED, 2, 2, 2).unwrap();
    let engine = MinHashEngine::new(r"\w+", SEED, 2, 2, 2).unwrap();
    assert_eq!(prints.len(), 3);
    assert_eq!(prints[0], Some(engine.fingerprint("a b c")));
    assert_eq!(prints[1], None);
    assert_eq!(prints[2], Some(engine.fingerprint("")));
    assert_eq!(engine.fingerprints(&rows), prints);
}

use mochi_lib::load_accents;
use mochi_lib::AccentType;
use mochi_lib::KanaString;
use mochi_lib::LoadErrorKind;
use std::collections::HashSet;

fn dict_resource() -> &'static str {
    "サッカー\t\t1\n\
     箸\tはし\t1\n\
     橋\tはし\t2\n\
     端\tはし\t0\n\
     鼻\tはな\t0\n\
     花\tはな\t2\n\
     あの方\tあのかた\t3,4\n\
     この後\tこのあと\t3\n\
     この後\tこののち\t4,0\n\
     かちかち\tかちかち\t(形動)0,(副;名)1\n"
}

#[test]
fn test_accent_notes() {
    let accents = load_accents(dict_resource()).unwrap();

    let t1 = &accents.get(&"かちかち".to_string()).unwrap()[0].accents;
    for accent in t1 {
        match accent.accent_type {
            AccentType::Heiban => {
                assert_eq!("形動".to_string(), accent.note.clone().unwrap_or_default())
            }
            AccentType::Atamadaka => {
                assert_eq!("副;名".to_string(), accent.note.clone().unwrap_or_default())
            }
            _ => {}
        }
    }
}

#[test]
fn test_accent_type() {
    let accents = load_accents(dict_resource()).unwrap();

    let trials = vec![
        ("サッカー", "サッカー", vec![AccentType::Atamadaka]),
        ("箸", "はし", vec![AccentType::Atamadaka]),
        ("橋", "はし", vec![AccentType::Odaka]),
        ("端", "はし", vec![AccentType::Heiban]),
        ("鼻", "はな", vec![AccentType::Heiban]),
        ("花", "はな", vec![AccentType::Odaka]),
        (
            "あの方",
            "あのかた",
            vec![AccentType::Nakadaka(3), AccentType::Odaka],
        ),
    ];
    let trials = trials
        .iter()
        .map(|(w, k, v)| (w.to_string(), KanaString::from(k.to_string()), v))
        .collect::<Vec<_>>();

    for (word, kana, true_accents) in trials.iter() {
        let test_accents = &accents
            .get(word)
            .unwrap()
            .iter()
            .filter(|w| w.kana == *kana)
            .flat_map(|w| w.accents.clone())
            .map(|a| a.accent_type)
            .collect::<Vec<_>>();
        let true_accents: HashSet<&AccentType> = true_accents.iter().collect();

        assert_eq!(test_accents.len(), true_accents.len());
        for test_accent in test_accents {
            assert!(
                true_accents.contains(test_accent),
                "{:#?} in {:#?}",
                test_accent,
                true_accents
            )
        }
    }
}

#[test]
fn rows_of_one_word_stay_in_source_order() {
    let accents = load_accents(dict_resource()).unwrap();
    let rows = accents.get(&"この後".to_string()).unwrap();
    assert_eq!(rows.len(), 2);
    assert_eq!(rows[0].kana, KanaString::from("このあと".to_string()));
    assert_eq!(rows[1].kana, KanaString::from("こののち".to_string()));
}

#[test]
fn unknown_word_is_not_an_entry() {
    let accents = load_accents(dict_resource()).unwrap();
    assert!(accents.get(&"犬".to_string()).is_none());
}

#[test]
fn empty_resource_gives_empty_dictionary() {
    let accents = load_accents("").unwrap();
    assert!(accents.get(&"箸".to_string()).is_none());
}

#[test]
fn final_newline_is_optional() {
    let with_newline = load_accents("箸\tはし\t1\n").unwrap();
    let without_newline = load_accents("箸\tはし\t1").unwrap();
    let w = "箸".to_string();
    assert_eq!(
        with_newline.get(&w).unwrap()[0].accents[0].accent_type,
        AccentType::Atamadaka
    );
    assert_eq!(
        without_newline.get(&w).unwrap()[0].accents[0].accent_type,
        AccentType::Atamadaka
    );
}

#[test]
fn carriage_returns_are_stripped_before_newlines() {
    let accents = load_accents("橋\tはし\t2\r\n端\tはし\t0\r\n").unwrap();
    assert_eq!(
        accents.get(&"橋".to_string()).unwrap()[0].accents[0].accent_type,
        AccentType::Odaka
    );
    assert_eq!(
        accents.get(&"端".to_string()).unwrap()[0].accents[0].accent_type,
        AccentType::Heiban
    );
}

#[test]
fn missing_field_is_reported_with_position() {
    let err = load_accents("箸\tはし\t1\nボールのみ\n花\tはな\t2\n").unwrap_err();
    assert_eq!(err.kind, LoadErrorKind::MissingField);
    assert_eq!(err.line_number, 2);
    assert_eq!(err.line, "ボールのみ");
}

#[test]
fn code_without_digits_is_reported() {
    let err = load_accents("箸\tはし\tなし\n").unwrap_err();
    assert_eq!(err.kind, LoadErrorKind::MissingIndex);
    assert_eq!(err.line_number, 1);
    assert_eq!(err.line, "箸\tはし\tなし");
}

#[test]
fn empty_codes_field_is_reported() {
    let err = load_accents("箸\tはし\t\n").unwrap_err();
    assert_eq!(err.kind, LoadErrorKind::MissingIndex);
}

#[test]
fn unrepresentable_index_is_reported() {
    let err = load_accents("箸\tはし\t99999999999999999999999999999\n").unwrap_err();
    assert_eq!(err.kind, LoadErrorKind::MissingIndex);
}

#[test]
fn drop_index_past_the_reading_is_reported() {
    // はし has two morae; a drop at mora five cannot exist
    let err = load_accents("箸\tはし\t5\n").unwrap_err();
    assert_eq!(err.kind, LoadErrorKind::IndexOutOfRange);
    assert_eq!(err.line_number, 1);
}

#[test]
fn note_is_the_first_parenthesized_run() {
    let accents = load_accents("端\tはし\t0(名)\n").unwrap();
    let rows = accents.get(&"端".to_string()).unwrap();
    assert_eq!(rows[0].accents[0].note, Some("名".to_string()));

    let accents = load_accents("端\tはし\t(副)(名)0\n").unwrap();
    let rows = accents.get(&"端".to_string()).unwrap();
    // the annotation is greedy: it runs to the last closing parenthesis
    assert_eq!(rows[0].accents[0].note, Some("副)(名".to_string()));

    let accents = load_accents("端\tはし\t0\n").unwrap();
    let rows = accents.get(&"端".to_string()).unwrap();
    assert_eq!(rows[0].accents[0].note, None);

    // an empty pair of parentheses is no annotation
    let accents = load_accents("端\tはし\t()0\n").unwrap();
    let rows = accents.get(&"端".to_string()).unwrap();
    assert_eq!(rows[0].accents[0].note, None);
}

#[test]
fn reading_falls_back_to_the_word() {
    let accents = load_accents("はな\t\t0\n").unwrap();
    let rows = accents.get(&"はな".to_string()).unwrap();
    assert_eq!(rows[0].kana, KanaString::from("はな".to_string()));
}

#[test]
fn fields_after_the_third_tab_are_ignored() {
    let accents = load_accents("箸\tはし\t1\tおまけ\n").unwrap();
    let rows = accents.get(&"箸".to_string()).unwrap();
    assert_eq!(rows[0].accents[0].accent_type, AccentType::Atamadaka);
}

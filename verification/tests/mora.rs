use mochi_lib::KanaString;

#[test]
fn test_iter_mora() {
    let s1 = KanaString::from("サッカー".to_string()).iter_mora();
    assert_eq!(s1.len(), 3);
    assert_eq!(s1[0], "サッ");
    assert_eq!(s1[1], "カ");
    assert_eq!(s1[2], "ー");

    let s2 = KanaString::from("れっしゃ".to_string()).iter_mora();
    assert_eq!(s2.len(), 2);
    assert_eq!(s2[0], "れっ");
    assert_eq!(s2[1], "しゃ");
}

#[test]
fn iter_mora_empty_reading() {
    let morae = KanaString::from(String::new()).iter_mora();
    assert_eq!(morae.len(), 0);
}

#[test]
fn iter_mora_single_kana() {
    let morae = KanaString::from("き".to_string()).iter_mora();
    assert_eq!(morae.len(), 1);
    assert_eq!(morae[0], "き");
}

#[test]
fn iter_mora_small_kana_attach_to_base() {
    let morae = KanaString::from("しょっちゅう".to_string()).iter_mora();
    assert_eq!(morae.len(), 3);
    assert_eq!(morae[0], "しょっ");
    assert_eq!(morae[1], "ちゅ");
    assert_eq!(morae[2], "う");

    let morae = KanaString::from("クヮルテット".to_string()).iter_mora();
    assert_eq!(morae.len(), 4);
    assert_eq!(morae[0], "クヮ");
    assert_eq!(morae[1], "ル");
    assert_eq!(morae[2], "テッ");
    assert_eq!(morae[3], "ト");
}

#[test]
fn iter_mora_is_restartable() {
    let kana = KanaString::from("あのかた".to_string());
    let first = kana.iter_mora();
    let second = kana.iter_mora();
    assert_eq!(first, second);
    assert_eq!(first.len(), 4);
}
